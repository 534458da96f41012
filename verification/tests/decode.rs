use cctag::image::decode::load_gray_bytes;
use cctag::image::gray::to_gray;
use std::io::Cursor;

fn png_of(img: image::DynamicImage) -> Vec<u8> {
    let mut out = Cursor::new(Vec::new());
    img.write_to(&mut out, image::ImageFormat::Png).unwrap();
    out.into_inner()
}

#[test]
fn load_gray_bytes_keeps_luma_samples() {
    let g = image::GrayImage::from_raw(3, 2, vec![0, 10, 20, 30, 40, 255]).unwrap();
    let p = load_gray_bytes(&png_of(image::DynamicImage::ImageLuma8(g)), "png").unwrap();
    assert_eq!((p.w, p.h), (3, 2));
    assert_eq!(p.data, vec![0, 10, 20, 30, 40, 255]);
}

#[test]
fn load_gray_bytes_converts_rgb_and_rgba() {
    let px = vec![255u8, 0, 0, 0, 255, 0, 0, 0, 255, 10, 20, 30];
    let rgb = image::RgbImage::from_raw(2, 2, px.clone()).unwrap();
    let p = load_gray_bytes(&png_of(image::DynamicImage::ImageRgb8(rgb)), "PNG").unwrap();
    let expect: Vec<u8> = px.chunks(3).map(|c| to_gray(c[0], c[1], c[2])).collect();
    assert_eq!(p.data, expect);
    assert_eq!(expect, vec![76, 150, 29, 18]);
    let rgba = image::RgbaImage::from_raw(1, 1, vec![255, 0, 0, 7]).unwrap();
    let q = load_gray_bytes(&png_of(image::DynamicImage::ImageRgba8(rgba)), "png").unwrap();
    assert_eq!((q.w, q.h, q.data), (1, 1, vec![76]));
}

#[test]
fn load_gray_bytes_rejects_garbage() {
    assert!(load_gray_bytes(b"not an image", "png").is_err());
}

#[test]
fn load_gray_bytes_goes_by_the_extension() {
    let g = image::GrayImage::from_raw(1, 1, vec![9]).unwrap();
    let png = png_of(image::DynamicImage::ImageLuma8(g));
    assert!(load_gray_bytes(&png, "dat").is_err());
    assert!(load_gray_bytes(&png, "").is_err());
    assert!(load_gray_bytes(&png, "bmp").is_err());
    assert_eq!(load_gray_bytes(&png, "png").unwrap().data, vec![9]);
}
