use block_undo::script::CompressedScript;
use block_undo::undo::{BlockUndo, TxOutUndo, TxUndo};
use block_undo::varint::write_varint2;
use block_undo::CodecError;

fn hash_script(byte: u8) -> CompressedScript {
    CompressedScript::new(0, vec![byte; 20]).unwrap()
}

fn sample_txout() -> TxOutUndo {
    TxOutUndo {
        is_coin_base: false,
        height: 123_456,
        amount: 123_456_789,
        script_pubkey: hash_script(0xAB),
    }
}

#[test]
fn txout_undo_round_trip() {
    let x = sample_txout();
    let mut buf: Vec<u8> = Vec::new();
    x.consensus_encode(&mut buf);
    let (y, end) = TxOutUndo::consensus_decode(&buf, 0).unwrap();
    assert_eq!(y, x);
    assert_eq!(end, buf.len());
    assert_eq!(x.get_size(), buf.len());
}

#[test]
fn txout_undo_raw_script_round_trip() {
    let x = TxOutUndo {
        is_coin_base: true,
        height: 840_000,
        amount: 50_000_000_000,
        script_pubkey: CompressedScript::new(40, vec![0x51; 34]).unwrap(),
    };
    let mut buf: Vec<u8> = Vec::new();
    x.consensus_encode(&mut buf);
    let (y, end) = TxOutUndo::consensus_decode(&buf, 0).unwrap();
    assert_eq!(y, x);
    assert_eq!(end, buf.len());
}

#[test]
fn txout_undo_truncated_payload() {
    let x = sample_txout();
    let mut buf: Vec<u8> = Vec::new();
    x.consensus_encode(&mut buf);
    buf.pop();
    assert_eq!(
        TxOutUndo::consensus_decode(&buf, 0),
        Err(CodecError::Truncated)
    );
}

#[test]
fn txout_undo_amount_overflow() {
    // Height field, reserved byte, then a compressed amount that
    // decompresses past 64 bits.
    let mut buf: Vec<u8> = Vec::new();
    write_varint2(&mut buf, 1);
    buf.push(0x00);
    write_varint2(&mut buf, 200_000_000_000);
    assert_eq!(
        TxOutUndo::consensus_decode(&buf, 0),
        Err(CodecError::Overflow)
    );
}

#[test]
fn tx_undo_round_trip() {
    let tx = TxUndo {
        output_undo: vec![
            sample_txout(),
            TxOutUndo {
                is_coin_base: true,
                height: 1,
                amount: 0,
                script_pubkey: CompressedScript::new(3, vec![2; 32]).unwrap(),
            },
        ],
    };
    let mut buf: Vec<u8> = Vec::new();
    tx.consensus_encode(&mut buf);
    let (back, end) = TxUndo::consensus_decode(&buf, 0).unwrap();
    assert_eq!(back, tx);
    assert_eq!(end, buf.len());
    assert_eq!(tx.get_size(), buf.len());
}

#[test]
fn block_undo_round_trip() {
    let block = BlockUndo {
        txdata_undo: vec![
            TxUndo {
                output_undo: vec![sample_txout()],
            },
            TxUndo {
                output_undo: vec![
                    TxOutUndo {
                        is_coin_base: false,
                        height: 999,
                        amount: 1_000,
                        script_pubkey: CompressedScript::new(1, vec![9; 20]).unwrap(),
                    },
                    sample_txout(),
                ],
            },
        ],
    };
    let mut buf: Vec<u8> = Vec::new();
    block.consensus_encode(&mut buf);
    let (back, end) = BlockUndo::consensus_decode(&buf, 0).unwrap();
    assert_eq!(back, block);
    assert_eq!(end, buf.len());
}

#[test]
fn block_undo_decode_consumes_get_size() {
    let block = BlockUndo {
        txdata_undo: vec![TxUndo {
            output_undo: vec![sample_txout(), sample_txout()],
        }],
    };
    let mut buf: Vec<u8> = Vec::new();
    block.consensus_encode(&mut buf);
    let size = block.get_size();
    assert_eq!(size, buf.len());
    // Trailing bytes do not change what a decode consumes.
    buf.push(0xEE);
    buf.push(0xEE);
    let (back, end) = BlockUndo::consensus_decode(&buf, 0).unwrap();
    assert_eq!(back, block);
    assert_eq!(end, size);
}

#[test]
fn block_undo_empty() {
    let block = BlockUndo { txdata_undo: vec![] };
    let mut buf: Vec<u8> = Vec::new();
    block.consensus_encode(&mut buf);
    assert_eq!(buf, vec![0x00]);
    assert_eq!(block.get_size(), 1);
    let (back, end) = BlockUndo::consensus_decode(&buf, 0).unwrap();
    assert_eq!(back, block);
    assert_eq!(end, 1);
}

#[test]
fn block_undo_truncated() {
    let block = BlockUndo {
        txdata_undo: vec![TxUndo {
            output_undo: vec![sample_txout()],
        }],
    };
    let mut buf: Vec<u8> = Vec::new();
    block.consensus_encode(&mut buf);
    buf.pop();
    assert_eq!(
        BlockUndo::consensus_decode(&buf, 0),
        Err(CodecError::Truncated)
    );
    assert_eq!(
        BlockUndo::consensus_decode(&vec![], 0),
        Err(CodecError::Truncated)
    );
}

#[test]
fn block_undo_non_minimal_count() {
    assert_eq!(
        BlockUndo::consensus_decode(&vec![0xFD, 0x00, 0x00], 0),
        Err(CodecError::NonMinimal)
    );
}

#[test]
fn end_to_end_coinbase_record() {
    let x = TxOutUndo {
        is_coin_base: true,
        height: 0,
        amount: 1_000_000_000,
        script_pubkey: hash_script(0x11),
    };
    let mut buf: Vec<u8> = Vec::new();
    x.consensus_encode(&mut buf);
    // Packed height 0 with the coinbase flag set.
    assert_eq!(buf[0], 1);
    // The reserved compatibility byte.
    assert_eq!(buf[1], 0x00);
    // The compressed amount of one billion satoshis.
    assert_eq!(buf[2], 10);
    // A hash-type script code followed by its 20-byte payload.
    assert_eq!(buf[3], 0);
    assert_eq!(buf.len(), 4 + 20);
    assert_eq!(&buf[4..], &[0x11; 20]);
    let (y, end) = TxOutUndo::consensus_decode(&buf, 0).unwrap();
    assert_eq!(y, x);
    assert_eq!(end, buf.len());
}

#[test]
fn decode_from_offset() {
    let x = sample_txout();
    let mut buf: Vec<u8> = vec![0xAA, 0xBB, 0xCC];
    x.consensus_encode(&mut buf);
    let (y, end) = TxOutUndo::consensus_decode(&buf, 3).unwrap();
    assert_eq!(y, x);
    assert_eq!(end, buf.len());
}
