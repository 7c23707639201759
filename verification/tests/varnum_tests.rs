use drax::reader::ByteReader;
use drax::varnum::{read_var_int, read_var_long, size_var_int, size_var_long, write_var_int, write_var_long};

fn var_int_vectors() -> Vec<(i32, Vec<u8>)> {
    vec![
        (25, vec![25]),
        (55324, vec![156, 176, 3]),
        (-8877777, vec![175, 146, 226, 251, 15]),
        (2147483647, vec![255, 255, 255, 255, 7]),
        (-2147483648, vec![128, 128, 128, 128, 8]),
    ]
}

#[test]
fn test_read_var_int() {
    for attempt in var_int_vectors() {
        let mut cursor = ByteReader::new(attempt.1);
        let result = read_var_int(&mut cursor).unwrap();
        assert_eq!(result, attempt.0);
    }
}

#[test]
fn test_write_var_int() {
    for attempt in var_int_vectors() {
        let mut out = Vec::new();
        write_var_int(&mut out, attempt.0);
        assert_eq!(out, attempt.1);
    }
}

#[test]
fn buffer_test_read_var_int() {
    for attempt in var_int_vectors() {
        let mut cursor = ByteReader::new(attempt.1);
        let result = read_var_int(&mut cursor).unwrap();
        assert_eq!(result, attempt.0);
    }
}

#[test]
fn buffer_test_write_var_int() {
    for attempt in var_int_vectors() {
        let mut out = Vec::new();
        write_var_int(&mut out, attempt.0);
        assert_eq!(out, attempt.1);
    }
}

#[test]
fn var_int_serde_known_good() {
    for attempt in var_int_vectors() {
        let mut out = Vec::new();
        write_var_int(&mut out, attempt.0);
        assert_eq!(out, attempt.1);
        assert_eq!(size_var_int(attempt.0), attempt.1.len());
        let mut cursor = ByteReader::new(attempt.1);
        assert_eq!(read_var_int(&mut cursor).unwrap(), attempt.0);
    }
}

#[test]
fn var_int_round_trip_samples() {
    for v in [0i32, 1, -1, 127, 128, 300, -300, 65535, -65536, i32::MAX, i32::MIN] {
        let mut out = Vec::new();
        write_var_int(&mut out, v);
        assert_eq!(out.len(), size_var_int(v));
        let mut cursor = ByteReader::new(out);
        assert_eq!(read_var_int(&mut cursor).unwrap(), v);
        assert_eq!(cursor.remaining_len(), 0);
    }
}

#[test]
fn var_long_round_trip_samples() {
    for v in [0i64, 1, -1, 300, i64::MAX, i64::MIN, 1 << 40] {
        let mut out = Vec::new();
        write_var_long(&mut out, v);
        assert_eq!(out.len(), size_var_long(v));
        let mut cursor = ByteReader::new(out);
        assert_eq!(read_var_long(&mut cursor).unwrap(), v);
    }
}

#[test]
fn var_int_too_big_rejected() {
    // five continuation bytes exhaust the 35-bit budget
    let mut cursor = ByteReader::new(vec![0x80, 0x80, 0x80, 0x80, 0x80, 0x01]);
    let e = read_var_int(&mut cursor).unwrap_err();
    assert!(matches!(e.error_type, drax::error::ErrorType::VarNumTooLarge));
}

#[test]
fn var_int_eof_rejected() {
    let mut cursor = ByteReader::new(vec![0x80, 0x80]);
    let e = read_var_int(&mut cursor).unwrap_err();
    assert!(matches!(e.error_type, drax::error::ErrorType::EOF));
}
