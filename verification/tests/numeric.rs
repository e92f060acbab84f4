use block_undo::amount::{compress_txout_amt, decompress_txout_amt};
use block_undo::script::{script_payload_len, CompressedScript};
use block_undo::undo::{pack_height_code, unpack_height_code};
use block_undo::varint::{read_compact_size, read_varint2, write_compact_size, write_varint2};
use block_undo::CodecError;

#[test]
fn decompress_known_values() {
    assert_eq!(decompress_txout_amt(0), Ok(0));
    assert_eq!(decompress_txout_amt(1), Ok(1));
    assert_eq!(decompress_txout_amt(2), Ok(10));
    assert_eq!(decompress_txout_amt(10), Ok(1_000_000_000));
}

#[test]
fn compress_known_values() {
    assert_eq!(compress_txout_amt(0), Ok(0));
    assert_eq!(compress_txout_amt(1), Ok(1));
    assert_eq!(compress_txout_amt(10), Ok(2));
    assert_eq!(compress_txout_amt(1_000_000_000), Ok(10));
    assert_eq!(compress_txout_amt(123_456_789), Ok(1_111_111_101));
}

#[test]
fn amount_round_trip_packed_values() {
    for v in 0u64..=10_000 {
        let a = decompress_txout_amt(v).unwrap();
        assert_eq!(compress_txout_amt(a), Ok(v));
    }
}

#[test]
fn amount_round_trip_amounts() {
    for a in [0u64, 1, 9, 10, 999, 1_000, 50_000_000_000, 2_100_000_000_000_000] {
        let c = compress_txout_amt(a).unwrap();
        assert_eq!(decompress_txout_amt(c), Ok(a));
    }
}

#[test]
fn decompress_overflow_reported() {
    // Packs to 20_000_000_000 * 10^9, which exceeds 64 bits.
    assert_eq!(
        decompress_txout_amt(200_000_000_000),
        Err(CodecError::Overflow)
    );
}

#[test]
fn compress_overflow_reported() {
    assert_eq!(compress_txout_amt(u64::MAX), Err(CodecError::Overflow));
}

#[test]
fn pack_height_known_values() {
    assert_eq!(pack_height_code(0, false), 0);
    assert_eq!(pack_height_code(0, true), 1);
    assert_eq!(pack_height_code(2, false), 4);
}

#[test]
fn pack_unpack_round_trip() {
    for h in [0u64, 1, 2, 100, 840_000, u64::MAX / 2 - 1] {
        for c in [false, true] {
            assert_eq!(unpack_height_code(pack_height_code(h, c)), (h, c));
        }
    }
}

#[test]
fn script_length_table() {
    assert_eq!(script_payload_len(0), 20);
    assert_eq!(script_payload_len(1), 20);
    assert_eq!(script_payload_len(2), 32);
    assert_eq!(script_payload_len(3), 32);
    assert_eq!(script_payload_len(5), 32);
    assert_eq!(script_payload_len(6), 0);
    assert_eq!(script_payload_len(10), 4);
}

#[test]
fn compressed_script_checks_length() {
    assert!(CompressedScript::new(0, vec![7u8; 20]).is_some());
    assert!(CompressedScript::new(0, vec![7u8; 19]).is_none());
    assert!(CompressedScript::new(10, vec![7u8; 4]).is_some());
    assert!(CompressedScript::new(10, vec![7u8; 5]).is_none());
}

#[test]
fn varint2_single_byte_values() {
    for n in [0u64, 1, 10, 127] {
        let mut buf: Vec<u8> = Vec::new();
        write_varint2(&mut buf, n);
        assert_eq!(buf, vec![n as u8]);
    }
}

#[test]
fn varint2_boundary_encodings() {
    let mut buf: Vec<u8> = Vec::new();
    write_varint2(&mut buf, 128);
    assert_eq!(buf, vec![0x80, 0x00]);
    let mut buf2: Vec<u8> = Vec::new();
    write_varint2(&mut buf2, 255);
    assert_eq!(buf2, vec![0x80, 0x7F]);
    let mut buf3: Vec<u8> = Vec::new();
    write_varint2(&mut buf3, 16512);
    assert_eq!(buf3, vec![0x80, 0x80, 0x00]);
}

#[test]
fn varint2_round_trip() {
    for n in [
        0u64,
        1,
        127,
        128,
        255,
        256,
        16511,
        16512,
        65535,
        1 << 32,
        u64::MAX,
    ] {
        let mut buf: Vec<u8> = Vec::new();
        write_varint2(&mut buf, n);
        let (v, end) = read_varint2(&buf, 0).unwrap();
        assert_eq!(v, n);
        assert_eq!(end, buf.len());
    }
}

#[test]
fn varint2_truncated() {
    assert_eq!(read_varint2(&vec![], 0), Err(CodecError::Truncated));
    assert_eq!(read_varint2(&vec![0x80], 0), Err(CodecError::Truncated));
    assert_eq!(
        read_varint2(&vec![0xFF, 0xFF], 0),
        Err(CodecError::Truncated)
    );
}

#[test]
fn varint2_overflow() {
    // Ten value bytes reach past the 64-bit range.
    let mut buf = vec![0xFFu8; 9];
    buf.push(0x7F);
    assert_eq!(read_varint2(&buf, 0), Err(CodecError::Overflow));
}

#[test]
fn compact_size_round_trip() {
    for n in [
        0u64,
        1,
        252,
        253,
        65535,
        65536,
        4_294_967_295,
        4_294_967_296,
        u64::MAX,
    ] {
        let mut buf: Vec<u8> = Vec::new();
        write_compact_size(&mut buf, n);
        let (v, end) = read_compact_size(&buf, 0).unwrap();
        assert_eq!(v, n);
        assert_eq!(end, buf.len());
    }
}

#[test]
fn compact_size_widths() {
    let mut buf: Vec<u8> = Vec::new();
    write_compact_size(&mut buf, 252);
    assert_eq!(buf, vec![252]);
    let mut buf2: Vec<u8> = Vec::new();
    write_compact_size(&mut buf2, 253);
    assert_eq!(buf2, vec![0xFD, 253, 0]);
    let mut buf3: Vec<u8> = Vec::new();
    write_compact_size(&mut buf3, 65536);
    assert_eq!(buf3, vec![0xFE, 0, 0, 1, 0]);
}

#[test]
fn compact_size_non_minimal() {
    assert_eq!(
        read_compact_size(&vec![0xFD, 0x05, 0x00], 0),
        Err(CodecError::NonMinimal)
    );
    assert_eq!(
        read_compact_size(&vec![0xFE, 0xFF, 0xFF, 0x00, 0x00], 0),
        Err(CodecError::NonMinimal)
    );
}

#[test]
fn compact_size_truncated() {
    assert_eq!(read_compact_size(&vec![], 0), Err(CodecError::Truncated));
    assert_eq!(
        read_compact_size(&vec![0xFD, 0x01], 0),
        Err(CodecError::Truncated)
    );
}
