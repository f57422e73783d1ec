use pltz::columnar::{columnar_transform, columnar_untransform};

#[test]
fn test_roundtrip_exact() {
    let data = b"AABBCCDD11223344";
    let transformed = columnar_transform(data, 4);
    let restored = columnar_untransform(&transformed, 4, data.len());
    assert_eq!(data.as_slice(), restored.as_slice());
}

#[test]
fn test_roundtrip_uneven() {
    let data = b"Hello, World!";
    let transformed = columnar_transform(data, 5);
    let restored = columnar_untransform(&transformed, 5, data.len());
    assert_eq!(data.as_slice(), restored.as_slice());
}

#[test]
fn test_groups_fields() {
    let data = b"A1xA2xA3xA4x";
    let transformed = columnar_transform(data, 3);
    assert_eq!(&transformed[0..4], b"AAAA");
    assert_eq!(&transformed[4..8], b"1234");
    assert_eq!(&transformed[8..12], b"xxxx");
}

#[test]
fn columnar_pads_to_whole_rows() {
    let transformed = columnar_transform(b"abcde", 2);
    assert_eq!(transformed, b"acebd\0".to_vec());
    assert_eq!(columnar_untransform(&transformed, 2, 5), b"abcde".to_vec());
}

#[test]
fn columnar_zero_stride_is_identity() {
    assert_eq!(columnar_transform(b"xyz", 0), b"xyz".to_vec());
    assert_eq!(columnar_untransform(b"xyz", 0, 3), b"xyz".to_vec());
}
