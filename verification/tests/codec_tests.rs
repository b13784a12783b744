//! Tests for the codec: the translation between entry listings and the
//! bytes of a kv file.

use tiny_kv::errors::KvError;
use tiny_kv::file_ops::{decode_entries, encode_entries};

/// Ten users, the shape of a reference kv file with at least ten entries.
fn users_ref_bytes() -> Vec<u8> {
    let mut out = Vec::new();
    let users = [
        ("u1001", "alice"),
        ("u1002", "bob"),
        ("u1003", "carol"),
        ("u1004", "dave"),
        ("u1005", "erin"),
        ("u1006", "frank"),
        ("u1007", "grace"),
        ("u1008", "heidi"),
        ("u1009", "ivan"),
        ("u1010", "judy"),
    ];
    for (k, v) in users.iter() {
        out.extend_from_slice(k.as_bytes());
        out.push(0x20);
        out.extend_from_slice(v.as_bytes());
        out.push(0x0d);
        out.push(0x0a);
    }
    out
}

#[test]
fn test_kv_file2map() {
    let data = users_ref_bytes();
    let kv = decode_entries(&data).unwrap();

    println!("kv: {:?}", kv);
    assert!(kv.len() >= 10);
}

#[test]
fn test_map2kv_file() {
    let kv = decode_entries(&users_ref_bytes()).unwrap();
    let kvsz = kv.len();

    let resp = encode_entries(&kv);
    assert!(resp.is_ok());
    let bytes = resp.unwrap();
    let back = decode_entries(&bytes).unwrap();
    assert_eq!(kvsz, back.len());
    assert_eq!(kv, back);
}

#[test]
fn decode_splits_on_first_space() {
    let es = decode_entries(b"mykey my long value\n").unwrap();
    assert_eq!(es, vec![("mykey".to_string(), b"my long value".to_vec())]);
}

#[test]
fn decode_accepts_lf_and_crlf() {
    let lf = decode_entries(b"a 1\n").unwrap();
    let crlf = decode_entries(b"a 1\r\n").unwrap();
    assert_eq!(lf, crlf);
    assert_eq!(lf, vec![("a".to_string(), b"1".to_vec())]);
}

#[test]
fn decode_last_line_without_newline() {
    let es = decode_entries(b"a 1\nb 2").unwrap();
    assert_eq!(
        es,
        vec![
            ("a".to_string(), b"1".to_vec()),
            ("b".to_string(), b"2".to_vec()),
        ]
    );
}

#[test]
fn decode_empty_input_is_empty() {
    assert_eq!(decode_entries(b"").unwrap(), vec![]);
}

#[test]
fn decode_empty_key_and_empty_value() {
    let es = decode_entries(b" v\nk \n").unwrap();
    assert_eq!(
        es,
        vec![
            ("".to_string(), b"v".to_vec()),
            ("k".to_string(), b"".to_vec()),
        ]
    );
}

#[test]
fn decode_no_space_is_format_error() {
    assert_eq!(decode_entries(b"nospace\n").unwrap_err(), KvError::FormatError);
    assert_eq!(decode_entries(b"\n").unwrap_err(), KvError::FormatError);
}

#[test]
fn decode_non_ascii_key_is_format_error() {
    let bytes = vec![0xc3u8, 0xa9, 0x20, 0x76, 0x0a];
    assert_eq!(decode_entries(&bytes).unwrap_err(), KvError::FormatError);
}

#[test]
fn encode_writes_one_line_per_entry() {
    let es = vec![
        ("a".to_string(), b"1".to_vec()),
        ("b".to_string(), b"two words".to_vec()),
    ];
    let bytes = encode_entries(&es).unwrap();
    assert_eq!(bytes, b"a 1\r\nb two words\r\n".to_vec());
}

#[test]
fn encode_rejects_bad_entries() {
    let space = vec![("a b".to_string(), b"v".to_vec())];
    assert_eq!(encode_entries(&space).unwrap_err(), KvError::FormatError);
    let newline = vec![("k".to_string(), b"line\nbreak".to_vec())];
    assert_eq!(encode_entries(&newline).unwrap_err(), KvError::FormatError);
    let accent = vec![("cl\u{e9}".to_string(), b"v".to_vec())];
    assert_eq!(encode_entries(&accent).unwrap_err(), KvError::FormatError);
}

#[test]
fn round_trip_keeps_carriage_return_in_value() {
    let es = vec![("k".to_string(), b"tail\rkept\r".to_vec())];
    let bytes = encode_entries(&es).unwrap();
    assert_eq!(decode_entries(&bytes).unwrap(), es);
}

#[test]
fn describe_names_each_error() {
    assert_eq!(
        KvError::IoError.describe(),
        "file could not be read or written"
    );
    assert_eq!(
        KvError::FormatError.describe(),
        "malformed line: no space separator"
    );
}
