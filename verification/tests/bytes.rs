use irmaseal::bytes::{
    bytes_eq, copy_range, extend_bytes, push_be16, push_be32, push_be64, read_be16, read_be32,
    read_be64,
};
use irmaseal::json::{write_json_str, write_json_text, write_json_uint};
use irmaseal::msgpack::{
    expect_bytes, read_nil, write_array_header, write_byte_array, write_map_header, write_nil,
    write_str, write_text, write_uint,
};

#[test]
fn big_endian_numbers() {
    let mut out = vec![9];
    push_be16(&mut out, 0x0102);
    push_be32(&mut out, 0x03040506);
    push_be64(&mut out, 0x0708090a0b0c0d0e);
    assert_eq!(out, vec![9, 1, 2, 3, 4, 5, 6, 7, 8, 9, 10, 11, 12, 13, 14]);
    assert_eq!(read_be16(&out, 1), 0x0102);
    assert_eq!(read_be32(&out, 3), 0x03040506);
    assert_eq!(read_be64(&out, 7), 0x0708090a0b0c0d0e);
    let mut max = Vec::new();
    push_be16(&mut max, u16::MAX);
    push_be32(&mut max, u32::MAX);
    push_be64(&mut max, u64::MAX);
    assert_eq!(max, vec![0xFF; 14]);
    assert_eq!(read_be64(&max, 6), u64::MAX);
}

#[test]
fn byte_helpers() {
    let mut out = vec![1, 2];
    extend_bytes(&mut out, &[3, 4, 5]);
    extend_bytes(&mut out, &[]);
    assert_eq!(out, vec![1, 2, 3, 4, 5]);
    assert_eq!(copy_range(&out, 1, 4), vec![2, 3, 4]);
    assert_eq!(copy_range(&out, 2, 2), Vec::<u8>::new());
    assert!(bytes_eq(&out, &[1, 2, 3, 4, 5]));
    assert!(!bytes_eq(&out, &[1, 2, 3, 4]));
    assert!(!bytes_eq(&out, &[1, 2, 3, 4, 6]));
    assert!(bytes_eq(&[], &[]));
}

#[test]
fn msgpack_numbers_take_their_shortest_form() {
    let cases: Vec<(u64, Vec<u8>)> = vec![
        (0, vec![0x00]),
        (127, vec![0x7f]),
        (128, vec![0xcc, 0x80]),
        (255, vec![0xcc, 0xff]),
        (256, vec![0xcd, 0x01, 0x00]),
        (65535, vec![0xcd, 0xff, 0xff]),
        (65536, vec![0xce, 0x00, 0x01, 0x00, 0x00]),
        (4294967295, vec![0xce, 0xff, 0xff, 0xff, 0xff]),
        (4294967296, vec![0xcf, 0, 0, 0, 1, 0, 0, 0, 0]),
        (u64::MAX, vec![0xcf, 0xff, 0xff, 0xff, 0xff, 0xff, 0xff, 0xff, 0xff]),
    ];
    for (n, bytes) in cases {
        let mut out = Vec::new();
        write_uint(&mut out, n);
        assert_eq!(out, bytes);
        assert_eq!(out, rmp_serde::to_vec(&n).unwrap());
    }
}

#[test]
fn msgpack_strings_and_markers() {
    let mut out = Vec::new();
    assert!(write_str(&mut out, b"hi"));
    assert_eq!(out, vec![0xa2, b'h', b'i']);

    for len in [0usize, 31, 32, 255, 256, 65535, 65536] {
        let text = "x".repeat(len);
        let mut out = Vec::new();
        assert!(write_text(&mut out, &text));
        let header = out.len() - len;
        let expected = if len < 32 {
            1
        } else if len < 256 {
            2
        } else if len < 65536 {
            3
        } else {
            5
        };
        assert_eq!(header, expected);
        assert_eq!(out, rmp_serde::to_vec(&text).unwrap());
    }

    for (len, bytes) in [
        (0usize, vec![0x90u8]),
        (15, vec![0x9f]),
        (16, vec![0xdc, 0, 16]),
        (65535, vec![0xdc, 0xff, 0xff]),
        (65536, vec![0xdd, 0, 1, 0, 0]),
    ] {
        let mut out = Vec::new();
        assert!(write_array_header(&mut out, len));
        assert_eq!(out, bytes);
    }
    for (len, bytes) in [
        (0usize, vec![0x80u8]),
        (15, vec![0x8f]),
        (16, vec![0xde, 0, 16]),
        (65536, vec![0xdf, 0, 1, 0, 0]),
    ] {
        let mut out = Vec::new();
        assert!(write_map_header(&mut out, len));
        assert_eq!(out, bytes);
    }
    let mut out = Vec::new();
    write_nil(&mut out);
    assert_eq!(out, vec![0xc0]);
    assert_eq!(read_nil(&out, 0), Some(1));
    assert_eq!(read_nil(&[0xc1], 0), None);
    assert_eq!(read_nil(&[], 0), None);
    assert_eq!(expect_bytes(&[1, 2, 3, 4], 1, &[2, 3]), Some(3));
    assert_eq!(expect_bytes(&[1, 2, 3, 4], 1, &[2, 4]), None);
    assert_eq!(expect_bytes(&[1, 2, 3, 4], 3, &[4, 5]), None);
    assert_eq!(expect_bytes(&[1, 2, 3, 4], 4, &[]), Some(4));
}

#[test]
fn msgpack_byte_arrays() {
    let mut out = Vec::new();
    assert!(write_byte_array(&mut out, &[0, 127, 128, 255]));
    assert_eq!(out, vec![0x94, 0, 127, 0xcc, 128, 0xcc, 255]);
    assert_eq!(out, rmp_serde::to_vec(&(0u8, 127u8, 128u8, 255u8)).unwrap());
}

#[test]
fn json_numbers() {
    for (n, text) in [
        (0u64, "0"),
        (9, "9"),
        (10, "10"),
        (65536, "65536"),
        (u64::MAX, "18446744073709551615"),
    ] {
        let mut out = Vec::new();
        write_json_uint(&mut out, n);
        assert_eq!(out, text.as_bytes());
        assert_eq!(String::from_utf8(out).unwrap(), serde_json::to_string(&n).unwrap());
    }
}

#[test]
fn json_strings_escape_what_they_must() {
    let cases: Vec<(&str, &str)> = vec![
        ("", "\"\""),
        ("abc", "\"abc\""),
        ("a\"b", "\"a\\\"b\""),
        ("a\\b", "\"a\\\\b\""),
        ("\u{8}\u{c}\n\r\t", "\"\\b\\f\\n\\r\\t\""),
        ("\u{0}\u{1}\u{1f}", "\"\\u0000\\u0001\\u001f\""),
        ("\u{7f}/", "\"\u{7f}/\""),
        ("é€😀", "\"é€😀\""),
    ];
    for (text, json) in cases {
        let mut out = Vec::new();
        write_json_str(&mut out, text.as_bytes());
        assert_eq!(out, json.as_bytes());
        assert_eq!(String::from_utf8(out.clone()).unwrap(), serde_json::to_string(text).unwrap());
        let mut again = Vec::new();
        write_json_text(&mut again, text);
        assert_eq!(again, out);
    }
}
