use xsgeo::bytes::{i16_le, i32_le, u16_le, u32_le, u64_le};
use xsgeo::ieee::{Double, Single};
use xsgeo::ring::{decode_ring, decode_zigzag, read_uvarint32, Point};
use xsgeo::text::{
    chars_of, cut_at, find_chars, is_white_space, push_decimal, skip_white_space, str_eq,
};

const DOUBLES: [f64; 34] = [
    0.0,
    -0.0,
    0.25,
    -0.25,
    0.5,
    0.999_999,
    1.0,
    -1.0,
    1.5,
    -1.5,
    0.249_999_99,
    -0.000_000_1,
    88.999_9,
    89.0,
    -89.0,
    116.397_4,
    -73.985_1,
    178.999_999,
    179.0,
    -179.0,
    180.0,
    8_191.75,
    8_192.0,
    -8_192.0,
    32_767.0,
    32_768.0,
    -32_768.0,
    -32_769.5,
    1e300,
    -1e300,
    f64::MIN_POSITIVE,
    5e-324,
    f64::INFINITY,
    f64::NEG_INFINITY,
];

fn double(x: f64) -> Double {
    Double { bits: x.to_bits() }
}

#[test]
fn reads_low_byte_first() {
    assert_eq!(u16_le(&[0x34, 0x12]), 0x1234);
    assert_eq!(u32_le(&[0x78, 0x56, 0x34, 0x12, 0xff]), 0x1234_5678);
    assert_eq!(u64_le(&[8, 7, 6, 5, 4, 3, 2, 1]), 0x0102_0304_0506_0708);
}

#[test]
fn reads_twos_complement() {
    assert_eq!(i16_le(&[0xff, 0x7f]), i16::MAX);
    assert_eq!(i16_le(&[0x00, 0x80]), i16::MIN);
    assert_eq!(i16_le(&[0xff, 0xff]), -1);
    assert_eq!(i32_le(&[0xff, 0xff, 0xff, 0x7f]), i32::MAX);
    assert_eq!(i32_le(&[0x00, 0x00, 0x00, 0x80]), i32::MIN);
    assert_eq!(i32_le(&[0xfe, 0xff, 0xff, 0xff]), -2);
}

#[test]
fn floors_as_the_hardware_does() {
    for x in DOUBLES {
        assert_eq!(double(x).floor(), x.floor() as i16, "{x}");
        assert_eq!(double(x).floor_quarters(), (x * 4.0).floor() as i16, "{x}");
    }
    assert_eq!(double(f64::NAN).floor(), 0);
    assert_eq!(double(f64::NAN).floor_quarters(), 0);
    assert_eq!(double(-0.1).floor(), -1);
    assert_eq!(double(116.6).floor_quarters(), 466);
}

#[test]
fn compares_as_the_hardware_does() {
    for x in DOUBLES {
        for y in DOUBLES {
            assert_eq!(double(x).le(double(y)), x <= y, "{x} {y}");
            assert_eq!(double(x).lt(double(y)), x < y, "{x} {y}");
        }
        assert!(!double(x).le(double(f64::NAN)));
        assert!(!double(f64::NAN).lt(double(x)));
    }
    assert!(!double(f64::NAN).le(double(f64::NAN)));
}

#[test]
fn widens_as_the_hardware_does() {
    let singles = [
        0.0f32,
        -0.0,
        1.0,
        -1.0,
        0.1,
        -179.123_45,
        89.5,
        f32::MIN_POSITIVE,
        1e-45,
        -1e-45,
        1.175_494_2e-38,
        3e-41,
        f32::MAX,
        f32::MIN,
        f32::INFINITY,
        f32::NEG_INFINITY,
    ];
    for x in singles {
        let wide = Single { bits: x.to_bits() }.widen();
        assert_eq!(wide.bits, (x as f64).to_bits(), "{x}");
    }
    let nan = Single { bits: f32::NAN.to_bits() }.widen();
    assert!(f64::from_bits(nan.bits).is_nan());
}

fn uvarint(data: &[u8]) -> (Option<u32>, usize) {
    let mut pos = 0;
    let value = read_uvarint32(data, &mut pos);
    (value, pos)
}

#[test]
fn reads_varints() {
    assert_eq!(uvarint(&[0x00]), (Some(0), 1));
    assert_eq!(uvarint(&[0x7f, 0x01]), (Some(127), 1));
    assert_eq!(uvarint(&[0x80, 0x01]), (Some(128), 2));
    assert_eq!(uvarint(&[0xac, 0x02]), (Some(300), 2));
    assert_eq!(uvarint(&[0xff, 0xff, 0xff, 0xff, 0x0f]), (Some(u32::MAX), 5));
    // Groups of zeros above the number do not matter.
    assert_eq!(uvarint(&[0x85, 0x80, 0x00]), (Some(5), 3));
}

#[test]
fn refuses_varints() {
    assert_eq!(uvarint(&[]), (None, 0));
    assert_eq!(uvarint(&[0x80, 0x80]), (None, 2));
    // One more than fits in 32 bits.
    assert_eq!(uvarint(&[0x80, 0x80, 0x80, 0x80, 0x10]), (None, 5));
    // An eleventh group is not read.
    assert_eq!(uvarint(&[0x80; 11]), (None, 10));
    let mut pos = 7;
    assert_eq!(read_uvarint32(&[1, 2], &mut pos), None);
    assert_eq!(pos, 7);
}

#[test]
fn tenth_group_wraps_around() {
    let mut data = [0x80u8; 10];
    data[0] = 0x83;
    data[9] = 0x02;
    assert_eq!(uvarint(&data), (Some(3), 10));
    data[9] = 0x01;
    assert_eq!(uvarint(&data), (None, 10));
}

#[test]
fn undoes_zigzag() {
    assert_eq!(decode_zigzag(0), 0);
    assert_eq!(decode_zigzag(1), -1);
    assert_eq!(decode_zigzag(2), 1);
    assert_eq!(decode_zigzag(3), -2);
    assert_eq!(decode_zigzag(u32::MAX - 1), i32::MAX);
    assert_eq!(decode_zigzag(u32::MAX), i32::MIN);
}

fn push_varint(out: &mut Vec<u8>, mut v: u32) {
    while v >= 0x80 {
        out.push((v % 0x80) as u8 | 0x80);
        v /= 0x80;
    }
    out.push(v as u8);
}

fn ring_data(points: &[(i32, i32)]) -> Vec<u8> {
    let mut out = Vec::new();
    let mut last = (0i32, 0i32);
    for p in points {
        let dx = p.0.wrapping_sub(last.0);
        let dy = p.1.wrapping_sub(last.1);
        push_varint(&mut out, ((dx << 1) ^ (dx >> 31)) as u32);
        push_varint(&mut out, ((dy << 1) ^ (dy >> 31)) as u32);
        last = *p;
    }
    out
}

fn points(list: &[(i32, i32)]) -> Vec<Point> {
    list.iter().map(|p| Point { x: p.0, y: p.1 }).collect()
}

#[test]
fn ring_is_read_back_and_closed() {
    let corners = [(11_639_740, 3_990_420), (11_640_000, 3_990_000), (-5, i32::MIN), (i32::MAX, 7)];
    let data = ring_data(&corners);
    let mut expected = points(&corners);
    expected.push(expected[0]);
    assert_eq!(decode_ring(&data, 4), Some(expected));
}

#[test]
fn ring_ignores_bytes_behind_it() {
    let corners = [(0, 0), (10, 0), (10, 10)];
    let mut data = ring_data(&corners);
    data.extend_from_slice(&[0xff, 0xff]);
    let mut expected = points(&corners);
    expected.push(Point { x: 0, y: 0 });
    assert_eq!(decode_ring(&data, 3), Some(expected));
}

#[test]
fn short_and_cut_rings_are_refused() {
    let data = ring_data(&[(0, 0), (10, 0), (10, 10)]);
    assert_eq!(decode_ring(&data, 0), None);
    assert_eq!(decode_ring(&data, 2), None);
    assert_eq!(decode_ring(&data, 4), None);
    assert_eq!(decode_ring(&data[..data.len() - 1], 3), None);
}

#[test]
fn ring_coordinates_wrap_around() {
    // Twice the largest difference: 0 -> MAX -> MAX + MAX == -2.
    let data = [0xfe, 0xff, 0xff, 0xff, 0x0f, 0x00, 0xfe, 0xff, 0xff, 0xff, 0x0f, 0x00, 0, 0];
    assert_eq!(
        decode_ring(&data, 3),
        Some(points(&[(i32::MAX, 0), (-2, 0), (-2, 0), (i32::MAX, 0)]))
    );
}

#[test]
fn writes_decimals() {
    for n in 0..=255u8 {
        let mut out = String::from("<");
        push_decimal(&mut out, n);
        assert_eq!(out, format!("<{n}"));
    }
}

#[test]
fn white_space_is_unicode_white_space() {
    for n in 0..=0x10ffff {
        if let Some(c) = char::from_u32(n) {
            assert_eq!(is_white_space(c), c.is_whitespace(), "{n:x}");
        }
    }
}

#[test]
fn compares_and_takes_text_apart() {
    assert!(str_eq("höhe", "höhe"));
    assert!(!str_eq("höhe", "hohe"));
    assert!(!str_eq("a", "ab"));
    assert!(str_eq("", ""));
    assert_eq!(chars_of("a中b"), vec!['a', '中', 'b']);
}

#[test]
fn searches_text() {
    let s = chars_of("aab  b");
    assert_eq!(find_chars(&s, &chars_of("ab"), 0), Some(1));
    assert_eq!(find_chars(&s, &chars_of("b"), 3), Some(5));
    assert_eq!(find_chars(&s, &chars_of("ba"), 0), None);
    assert_eq!(find_chars(&s, &chars_of(""), 6), Some(6));
    assert_eq!(skip_white_space(&s, 3), 5);
    assert_eq!(skip_white_space(&s, 6), 6);
    assert_eq!(cut_at(&s, 'b', 0), 2);
    assert_eq!(cut_at(&s, 'x', 0), 6);
}
