use pathtracer::{decode_ppm, encode_ppm};

#[test]
fn writes_header_then_pixels() {
    let bytes = encode_ppm(2, 1, &vec![1, 2, 3, 4, 5, 6]);
    let mut expected = b"P6\n2 1\n255\n".to_vec();
    expected.extend_from_slice(&[1, 2, 3, 4, 5, 6]);
    assert_eq!(bytes, expected);
}

#[test]
fn writes_multi_digit_sizes() {
    let data = vec![7u8; 3 * 512 * 10];
    let bytes = encode_ppm(512, 10, &data);
    assert!(bytes.starts_with(b"P6\n512 10\n255\n"));
    assert_eq!(bytes.len(), 14 + data.len());
}

#[test]
fn round_trip() {
    for (w, h) in [(0usize, 0usize), (1, 1), (3, 2), (10, 7), (100, 1)] {
        let data: Vec<u8> = (0..3 * w * h).map(|i| (i * 37 % 256) as u8).collect();
        let bytes = encode_ppm(w, h, &data);
        assert_eq!(decode_ppm(&bytes), Some((w, h, data)));
    }
}

#[test]
fn rejects_malformed_images() {
    assert_eq!(decode_ppm(&b"P5\n1 1\n255\nabc".to_vec()), None);
    assert_eq!(decode_ppm(&b"P6\n1 1\n255\nab".to_vec()), None);
    assert_eq!(decode_ppm(&b"P6\n 1 1\n255\nabc".to_vec()), None);
    assert_eq!(decode_ppm(&b"P6\n1x1\n255\nabc".to_vec()), None);
    assert_eq!(decode_ppm(&b"P6\n1 1\n256\nabc".to_vec()), None);
    assert_eq!(decode_ppm(&b"P6\n99999999999999999999999 1\n255\n".to_vec()), None);
    assert_eq!(decode_ppm(&Vec::new()), None);
}

#[test]
fn reads_leading_zeros() {
    assert_eq!(decode_ppm(&b"P6\n01 1\n255\nabc".to_vec()), Some((1, 1, b"abc".to_vec())));
}

#[test]
fn pixel_rows_count_from_the_bottom() {
    assert_eq!(pathtracer::pixel_position(0, 4, 3), (0, 2));
    assert_eq!(pathtracer::pixel_position(5, 4, 3), (1, 1));
    assert_eq!(pathtracer::pixel_position(11, 4, 3), (3, 0));
}
