use cctag::refdata::{
    encode_i32_records, encode_plane_header, push_i16_body, push_u8_body, read_i16_plane, read_i32_records, read_plane_raw,
    read_u8_plane, DType, RefDataError,
};

#[test]
fn u8_plane_roundtrip() {
    let mut bytes = encode_plane_header(DType::U8, 3, 2);
    assert_eq!(&bytes[..4], b"CCTD");
    assert_eq!(&bytes[4..8], &[1, 0, 0, 0]);
    bytes.extend_from_slice(&[1, 2, 3, 4, 5, 6]);
    let p = read_u8_plane(&bytes).unwrap();
    assert_eq!((p.w, p.h), (3, 2));
    assert_eq!(p.data, vec![1, 2, 3, 4, 5, 6]);
}

#[test]
fn i16_plane_little_endian() {
    let mut bytes = encode_plane_header(DType::I16, 2, 1);
    bytes.extend_from_slice(&(-2i16).to_le_bytes());
    bytes.extend_from_slice(&(300i16).to_le_bytes());
    let p = read_i16_plane(&bytes).unwrap();
    assert_eq!(p.data, vec![-2, 300]);
}

#[test]
fn plane_errors() {
    assert_eq!(read_plane_raw(&[0u8; 10]).unwrap_err(), RefDataError::ShortHeader);
    let mut bad = encode_plane_header(DType::U8, 1, 1);
    bad[0] = b'X';
    assert_eq!(read_plane_raw(&bad).unwrap_err(), RefDataError::BadMagic);
    let mut bad = encode_plane_header(DType::U8, 1, 1);
    bad[4] = 9;
    assert_eq!(read_plane_raw(&bad).unwrap_err(), RefDataError::BadDType);
    let mut short = encode_plane_header(DType::U8, 2, 2);
    short.push(1);
    assert_eq!(read_u8_plane(&short).unwrap_err(), RefDataError::NotU8Plane);
    let mut wrong = encode_plane_header(DType::I16, 1, 1);
    wrong.extend_from_slice(&[1, 2]);
    assert_eq!(read_u8_plane(&wrong).unwrap_err(), RefDataError::NotU8Plane);
    assert_eq!(read_i16_plane(&short).unwrap_err(), RefDataError::NotI16Plane);
    let (dt, w, h, body) = read_plane_raw(&wrong).unwrap();
    assert_eq!((dt, w, h, body), (DType::I16, 1, 1, vec![1, 2]));
}

#[test]
fn records_roundtrip() {
    let recs = vec![vec![1, -2, 3], vec![i32::MIN, i32::MAX, 0]];
    let bytes = encode_i32_records(&recs);
    assert_eq!(bytes.len(), 4 + 2 * 3 * 4);
    assert_eq!(read_i32_records(&bytes, 3).unwrap(), recs);
    assert_eq!(read_i32_records(&bytes, 2).unwrap_err(), RefDataError::RecordSizeMismatch);
    assert_eq!(read_i32_records(&bytes[..3], 3).unwrap_err(), RefDataError::ShortFile);
    let empty = encode_i32_records(&[]);
    assert_eq!(read_i32_records(&empty, 3).unwrap(), Vec::<Vec<i32>>::new());
}

#[test]
fn u8_and_i16_planes_read_back_after_encoding() {
    let data = vec![0u8, 7, 255, 128, 1, 2];
    let mut bytes = encode_plane_header(DType::U8, 3, 2);
    push_u8_body(&mut bytes, &data);
    let p = read_u8_plane(&bytes).unwrap();
    assert_eq!((p.w, p.h, p.data.clone()), (3, 2, data));
    let v = vec![0i16, -1, i16::MIN, i16::MAX, 258, -300];
    let mut bytes = encode_plane_header(DType::I16, 2, 3);
    push_i16_body(&mut bytes, &v);
    assert_eq!(bytes.len(), 16 + 12);
    assert_eq!(&bytes[16..20], &[0, 0, 0xff, 0xff]);
    let q = read_i16_plane(&bytes).unwrap();
    assert_eq!((q.w, q.h, q.data), (2, 3, v));
}
