use cctag::image::gray::{rgb_to_gray, rgba_to_gray, to_gray};
use cctag::image::resize::{downscale2, downscale2_into};
use cctag::image::{GrayImage, I16Plane, Plane};

#[test]
fn plane_new_is_default_filled() {
    let p: Plane<u8> = Plane::new(3, 2);
    assert_eq!((p.w, p.h), (3, 2));
    assert_eq!(p.data, vec![0u8; 6]);
    let q: I16Plane = Plane::new(0, 5);
    assert!(q.data.is_empty());
}

#[test]
fn plane_access() {
    let mut p = Plane::filled(4, 3, 7u8);
    p.set(2, 1, 9);
    assert_eq!(p.at(2, 1), 9);
    assert_eq!(p.at(1, 2), 7);
    assert_eq!(p.data[1 * 4 + 2], 9);
    assert_eq!(p.row(1), &[7, 7, 9, 7]);
    p.row_mut(2).copy_from_slice(&[1, 2, 3, 4]);
    assert_eq!(p.row(2), &[1, 2, 3, 4]);
    assert_eq!(p.row(0), &[7, 7, 7, 7]);
    p.fill(5);
    assert_eq!(p.data, vec![5u8; 12]);
    p.reset(2, 2, 1);
    assert_eq!((p.w, p.h, p.data.clone()), (2, 2, vec![1u8; 4]));
    let v = Plane::from_vec(2, 1, vec![3i16, -4]);
    assert_eq!(v.at(1, 0), -4);
}

#[test]
fn gray_conversion_values() {
    assert_eq!(to_gray(0, 0, 0), 0);
    assert_eq!(to_gray(255, 255, 255), 255);
    // (255*4899 + 8192) >> 14 = 76
    assert_eq!(to_gray(255, 0, 0), 76);
    // (255*9617 + 8192) >> 14 = 150
    assert_eq!(to_gray(0, 255, 0), 150);
    // (255*1868 + 8192) >> 14 = 29
    assert_eq!(to_gray(0, 0, 255), 29);
    assert_eq!(to_gray(10, 20, 30), ((10 * 4899 + 20 * 9617 + 30 * 1868 + 8192) >> 14) as u8);
}

#[test]
fn rgb_and_rgba_to_gray() {
    let rgb = [255u8, 0, 0, 0, 255, 0, 0, 0, 255, 10, 20, 30];
    let g = rgb_to_gray(&rgb, 2, 2);
    assert_eq!((g.w, g.h), (2, 2));
    assert_eq!(g.data, vec![76, 150, 29, to_gray(10, 20, 30)]);
    let rgba = [255u8, 0, 0, 9, 0, 255, 0, 200];
    let g = rgba_to_gray(&rgba, 2, 1);
    assert_eq!(g.data, vec![76, 150]);
}

#[test]
fn downscale_even_is_rounded_box_average() {
    let src = GrayImage::from_vec(4, 2, vec![0, 1, 10, 10, 2, 2, 10, 11]);
    let d = downscale2(&src).expect("even dimensions");
    assert_eq!((d.w, d.h), (2, 1));
    // (0+1+2+2+2)>>2 = 1 ; (10+10+10+11+2)>>2 = 10
    assert_eq!(d.data, vec![1, 10]);
}

#[test]
fn downscale_odd_asks_for_bilinear() {
    let src = GrayImage::from_vec(3, 2, vec![1; 6]);
    assert!(downscale2(&src).is_none());
    let mut dst = GrayImage::filled(5, 5, 9);
    assert!(!downscale2_into(&src, &mut dst));
    assert_eq!((dst.w, dst.h), (1, 1));
    assert_eq!(dst.data, vec![0]);
}

#[test]
fn downscale_into_keeps_matching_destination() {
    let src = GrayImage::from_vec(2, 2, vec![255, 255, 255, 254]);
    let mut dst = GrayImage::filled(1, 1, 3);
    assert!(downscale2_into(&src, &mut dst));
    assert_eq!(dst.data, vec![255]);
}
