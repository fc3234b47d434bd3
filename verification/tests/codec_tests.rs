use actionkv::checksum::crc32;
use actionkv::codec::{decode_at, encode, Decoded};

#[test]
fn crc32_check_value() {
    // The standard check value of the reflected CRC-32.
    assert_eq!(crc32(b"123456789"), 0xCBF43926);
}

#[test]
fn crc32_empty_input() {
    assert_eq!(crc32(b""), 0);
}

#[test]
fn crc32_differs_on_single_byte_flip() {
    let base = b"hello world".to_vec();
    let reference = crc32(&base);
    for i in 0..base.len() {
        let mut changed = base.clone();
        changed[i] ^= 0x01;
        assert_ne!(crc32(&changed), reference);
    }
}

#[test]
fn round_trip_normal() {
    let enc = encode(b"key", b"value", false);
    assert_eq!(enc.len(), 13 + 3 + 5);
    match decode_at(&enc, 0) {
        Decoded::Found(rec, end) => {
            assert_eq!(rec.key, b"key".to_vec());
            assert_eq!(rec.value, b"value".to_vec());
            assert!(!rec.tombstone);
            assert_eq!(rec.checksum, crc32(b"keyvalue"));
            assert_eq!(end, enc.len());
        }
        _ => panic!("expected a whole record"),
    }
}

#[test]
fn round_trip_empty_key() {
    let enc = encode(b"", b"value", false);
    match decode_at(&enc, 0) {
        Decoded::Found(rec, end) => {
            assert_eq!(rec.key, Vec::<u8>::new());
            assert_eq!(rec.value, b"value".to_vec());
            assert_eq!(end, enc.len());
        }
        _ => panic!("expected a whole record"),
    }
}

#[test]
fn round_trip_empty_value() {
    let enc = encode(b"key", b"", false);
    match decode_at(&enc, 0) {
        Decoded::Found(rec, end) => {
            assert_eq!(rec.key, b"key".to_vec());
            assert_eq!(rec.value, Vec::<u8>::new());
            assert_eq!(end, enc.len());
        }
        _ => panic!("expected a whole record"),
    }
}

#[test]
fn round_trip_empty_key_and_value() {
    let enc = encode(b"", b"", false);
    assert_eq!(enc.len(), 13);
    match decode_at(&enc, 0) {
        Decoded::Found(rec, end) => {
            assert_eq!(rec.key, Vec::<u8>::new());
            assert_eq!(rec.value, Vec::<u8>::new());
            assert!(!rec.tombstone);
            assert_eq!(end, 13);
        }
        _ => panic!("expected a whole record"),
    }
}

#[test]
fn round_trip_tombstone() {
    let enc = encode(b"gone", b"", true);
    match decode_at(&enc, 0) {
        Decoded::Found(rec, _) => {
            assert_eq!(rec.key, b"gone".to_vec());
            assert!(rec.tombstone);
        }
        _ => panic!("expected a whole record"),
    }
}

#[test]
fn decode_at_end_of_log() {
    let enc = encode(b"k", b"v", false);
    match decode_at(&enc, enc.len()) {
        Decoded::EndOfLog => {}
        _ => panic!("expected the end-of-log signal"),
    }
}

#[test]
fn decode_truncated_header_is_corrupt() {
    let enc = encode(b"k", b"v", false);
    match decode_at(&enc[..7], 0) {
        Decoded::Corrupt => {}
        _ => panic!("a partial header must be corrupt"),
    }
}

#[test]
fn decode_truncated_payload_is_corrupt() {
    let enc = encode(b"key", b"value", false);
    match decode_at(&enc[..enc.len() - 1], 0) {
        Decoded::Corrupt => {}
        _ => panic!("a partial payload must be corrupt"),
    }
}

#[test]
fn decode_bad_kind_byte_is_corrupt() {
    let mut enc = encode(b"k", b"v", false);
    enc[4] = 7;
    match decode_at(&enc, 0) {
        Decoded::Corrupt => {}
        _ => panic!("an unknown kind byte must be corrupt"),
    }
}
