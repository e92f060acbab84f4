//! The undo records and their byte-level codec.
//!
//! A `TxOutUndo` is the saved prior state of one spent output; a `TxUndo`
//! collects one per input of a transaction; a `BlockUndo` collects one
//! `TxUndo` per non-coinbase transaction of a block. Decode and encode are
//! exact inverses, proved over spec-level models of the wire format.

use vstd::prelude::*;

use crate::amount::{
    compress_amount, compress_txout_amt, decompress_amount, decompress_txout_amt,
    lemma_compress_of_decompress, lemma_decompress_of_compress,
};
use crate::script::{script_payload_len, spec_script_payload_len, CompressedScript};
use crate::varint::{
    compact_size_bytes, compact_size_read, lemma_compact_size_round_trip,
    lemma_varint2_round_trip, read_compact_size, read_varint2, varint2_bytes, varint2_read,
    write_compact_size, write_varint2,
};
use crate::CodecError;

use vstd::arithmetic::div_mod::lemma_fundamental_div_mod;

verus! {

/// The packed height/coinbase field: the height doubled, plus one when the
/// spent output came from a coinbase transaction.
pub open spec fn spec_pack_height(height: nat, is_coin_base: bool) -> nat {
    2 * height + if is_coin_base {
        1nat
    } else {
        0nat
    }
}

/// Packs a block height and a coinbase flag into one integer.
pub fn pack_height_code(height: u64, is_coin_base: bool) -> (r: u64)
    requires
        spec_pack_height(height as nat, is_coin_base) <= u64::MAX,
    ensures
        r == spec_pack_height(height as nat, is_coin_base),
{
    if is_coin_base {
        2 * height + 1
    } else {
        2 * height
    }
}

/// Splits a packed height/coinbase integer back into its parts.
pub fn unpack_height_code(code: u64) -> (r: (u64, bool))
    ensures
        r.0 == code / 2,
        r.1 == (code % 2 == 1),
        spec_pack_height(r.0 as nat, r.1) == code,
{
    proof {
        lemma_fundamental_div_mod(code as int, 2);
    }
    (code / 2, code % 2 == 1)
}

/// Packing is a bijection on non-negative integers: unpacking the packed
/// field recovers the height and the flag for every pair.
pub proof fn lemma_pack_height_round_trip(height: nat, is_coin_base: bool)
    ensures
        spec_pack_height(height, is_coin_base) / 2 == height,
        (spec_pack_height(height, is_coin_base) % 2 == 1) == is_coin_base,
{
    let bit: nat = if is_coin_base {
        1
    } else {
        0
    };
    vstd::arithmetic::div_mod::lemma_fundamental_div_mod_converse(
        spec_pack_height(height, is_coin_base) as int,
        2,
        height as int,
        bit as int,
    );
}

/// The mathematical content of a `TxOutUndo`: what its wire encoding
/// determines, with the script flattened to its code and payload bytes.
#[verifier::ext_equal]
pub ghost struct TxOutUndoModel {
    /// Whether the spent output came from a coinbase transaction.
    pub is_coin_base: bool,
    /// The height of the block that created the spent output.
    pub height: nat,
    /// The value of the spent output in satoshis.
    pub amount: nat,
    /// The script type code.
    pub script_code: nat,
    /// The script payload bytes.
    pub script_payload: Seq<u8>,
}

/// Every field of the model fits its wire field and the payload length
/// matches the type code.
pub open spec fn txout_model_wf(m: TxOutUndoModel) -> bool {
    &&& spec_pack_height(m.height, m.is_coin_base) <= u64::MAX
    &&& m.amount <= u64::MAX
    &&& compress_amount(m.amount) <= u64::MAX
    &&& m.script_code <= u64::MAX
    &&& m.script_payload.len() == spec_script_payload_len(m.script_code)
}

/// The wire encoding of one undo record: packed height/coinbase, the
/// reserved zero byte, the compressed amount, then the script type code
/// and its payload. All three integers use the alternate encoding.
pub open spec fn spec_txout_undo_bytes(m: TxOutUndoModel) -> Seq<u8> {
    varint2_bytes(spec_pack_height(m.height, m.is_coin_base)) + seq![0u8] + varint2_bytes(
        compress_amount(m.amount),
    ) + varint2_bytes(m.script_code) + m.script_payload
}

/// What decoding one undo record off the front of `s` gives: the model and
/// the bytes consumed, or the error that stops the decode.
pub open spec fn spec_decode_txout(s: Seq<u8>) -> Result<(TxOutUndoModel, nat), CodecError> {
    match varint2_read(s) {
        None => Err(CodecError::Truncated),
        Some((hc, n1)) => if hc > u64::MAX {
            Err(CodecError::Overflow)
        } else {
            let s1 = s.skip(n1 as int);
            if s1.len() == 0 {
                Err(CodecError::Truncated)
            } else {
                let s2 = s1.skip(1);
                match varint2_read(s2) {
                    None => Err(CodecError::Truncated),
                    Some((c, n2)) => if c > u64::MAX || decompress_amount(c) > u64::MAX {
                        Err(CodecError::Overflow)
                    } else {
                        let s3 = s2.skip(n2 as int);
                        match varint2_read(s3) {
                            None => Err(CodecError::Truncated),
                            Some((code, n3)) => if code > u64::MAX {
                                Err(CodecError::Overflow)
                            } else {
                                let s4 = s3.skip(n3 as int);
                                let plen = spec_script_payload_len(code);
                                if s4.len() < plen {
                                    Err(CodecError::Truncated)
                                } else {
                                    Ok(
                                        (
                                            TxOutUndoModel {
                                                is_coin_base: hc % 2 == 1,
                                                height: hc / 2,
                                                amount: decompress_amount(c),
                                                script_code: code,
                                                script_payload: s4.take(plen as int),
                                            },
                                            n1 + 1 + n2 + n3 + plen,
                                        ),
                                    )
                                }
                            },
                        }
                    },
                }
            }
        },
    }
}

/// A Bitcoin undo transaction output record: the reconstructed prior state
/// of one spent output.
#[derive(Clone, Debug, PartialEq, Eq)]
pub struct TxOutUndo {
    /// Whether the spent output was a coinbase output.
    pub is_coin_base: bool,
    /// The height of the block in which the spent output was created.
    pub height: u64,
    /// The amount of the spent output in satoshis.
    pub amount: u64,
    /// The compressed script of the spent output.
    pub script_pubkey: CompressedScript,
}

impl View for TxOutUndo {
    type V = TxOutUndoModel;

    open spec fn view(&self) -> TxOutUndoModel {
        TxOutUndoModel {
            is_coin_base: self.is_coin_base,
            height: self.height as nat,
            amount: self.amount as nat,
            script_code: self.script_pubkey.script_code as nat,
            script_payload: self.script_pubkey.payload@,
        }
    }
}

/// Appends all of `bytes` to `out`.
fn write_bytes(out: &mut Vec<u8>, bytes: &Vec<u8>)
    ensures
        final(out)@ == old(out)@ + bytes@,
{
    let ghost base = out@;
    let mut i: usize = 0;
    while i < bytes.len()
        invariant
            i <= bytes@.len(),
            out@ == base + bytes@.take(i as int),
        decreases bytes@.len() - i,
    {
        let ghost pre = out@;
        out.push(bytes[i]);
        proof {
            assert(pre.push(bytes@[i as int]) =~= base + bytes@.take(i as int + 1));
        }
        i = i + 1;
    }
    proof {
        assert(bytes@.take(bytes@.len() as int) =~= bytes@);
    }
}

/// Copies `len` bytes of `buf` starting at `pos` into a fresh vector.
fn read_bytes(buf: &Vec<u8>, pos: usize, len: usize) -> (r: Vec<u8>)
    requires
        pos + len <= buf@.len(),
    ensures
        r@ == buf@.subrange(pos as int, (pos + len) as int),
{
    let blen: usize = buf.len();
    let mut r: Vec<u8> = Vec::new();
    let mut i: usize = 0;
    while i < len
        invariant
            i <= len,
            blen == buf@.len(),
            pos + len <= buf@.len(),
            r@ == buf@.subrange(pos as int, (pos + i) as int),
        decreases len - i,
    {
        let ghost pre = r@;
        r.push(buf[pos + i]);
        proof {
            assert(pre.push(buf@[(pos + i) as int]) =~= buf@.subrange(
                pos as int,
                (pos + i + 1) as int,
            ));
        }
        i = i + 1;
    }
    r
}

impl TxOutUndo {
    /// The record can be encoded: every field fits its wire field and the
    /// script is well formed.
    pub open spec fn wf(self) -> bool {
        txout_model_wf(self@)
    }

    /// Appends the wire encoding of this record to `out`.
    pub fn consensus_encode(&self, out: &mut Vec<u8>)
        requires
            self.wf(),
        ensures
            final(out)@ == old(out)@ + spec_txout_undo_bytes(self@),
    {
        let ghost base = out@;
        let hc = pack_height_code(self.height, self.is_coin_base);
        write_varint2(out, hc);
        out.push(0u8);
        let ca = match compress_txout_amt(self.amount) {
            Ok(c) => c,
            Err(_) => {
                proof {
                    assert(false);
                }
                0
            },
        };
        write_varint2(out, ca);
        write_varint2(out, self.script_pubkey.script_code);
        write_bytes(out, &self.script_pubkey.payload);
        proof {
            let a = varint2_bytes(spec_pack_height(self@.height, self@.is_coin_base));
            let b = varint2_bytes(compress_amount(self@.amount));
            let c = varint2_bytes(self@.script_code);
            let p = self@.script_payload;
            assert(out@ =~= base + (a + seq![0u8] + b + c + p));
        }
    }

    /// Decodes one record from `buf` starting at `pos`, returning it with
    /// the position just past its encoding.
    pub fn consensus_decode(buf: &Vec<u8>, pos: usize) -> (r: Result<
        (TxOutUndo, usize),
        CodecError,
    >)
        requires
            pos <= buf@.len(),
        ensures
            match r {
                Ok((t, end)) => {
                    &&& pos < end <= buf@.len()
                    &&& t.wf()
                    &&& spec_decode_txout(buf@.skip(pos as int)) == Ok::<_, CodecError>(
                        (t@, (end - pos) as nat),
                    )
                },
                Err(e) => spec_decode_txout(buf@.skip(pos as int)) == Err::<
                    (TxOutUndoModel, nat),
                    _,
                >(e),
            },
    {
        let ghost s = buf@.skip(pos as int);
        // Packed height and coinbase flag.
        let (hc, p1) = match read_varint2(buf, pos) {
            Ok(x) => x,
            Err(e) => {
                return Err(e);
            },
        };
        let (height, is_coin_base) = unpack_height_code(hc);
        proof {
            assert(s.skip((p1 - pos) as int) =~= buf@.skip(p1 as int));
        }
        // Reserved compatibility byte: read and discard without validation.
        if p1 == buf.len() {
            proof {
                assert(buf@.skip(p1 as int).len() == 0);
            }
            return Err(CodecError::Truncated);
        }
        let _reserved = buf[p1];
        let p2 = p1 + 1;
        proof {
            assert(buf@.skip(p1 as int).skip(1) =~= buf@.skip(p2 as int));
        }
        // Compressed amount.
        let (ca, p3) = match read_varint2(buf, p2) {
            Ok(x) => x,
            Err(e) => {
                return Err(e);
            },
        };
        let amount = match decompress_txout_amt(ca) {
            Ok(a) => a,
            Err(e) => {
                return Err(e);
            },
        };
        proof {
            assert(buf@.skip(p2 as int).skip((p3 - p2) as int) =~= buf@.skip(p3 as int));
        }
        // Script type code and the payload length it implies.
        let (code, p4) = match read_varint2(buf, p3) {
            Ok(x) => x,
            Err(e) => {
                return Err(e);
            },
        };
        proof {
            assert(buf@.skip(p3 as int).skip((p4 - p3) as int) =~= buf@.skip(p4 as int));
        }
        let plen = script_payload_len(code);
        let remaining = buf.len() - p4;
        if plen > remaining as u64 {
            return Err(CodecError::Truncated);
        }
        let payload = read_bytes(buf, p4, plen as usize);
        let end = p4 + plen as usize;
        proof {
            assert(buf@.skip(p4 as int).take(plen as int) =~= buf@.subrange(
                p4 as int,
                (p4 + plen) as int,
            ));
            lemma_compress_of_decompress(ca as nat);
        }
        Ok(
            (
                TxOutUndo {
                    is_coin_base,
                    height,
                    amount,
                    script_pubkey: CompressedScript { script_code: code, payload },
                },
                end,
            ),
        )
    }

    /// The exact length in bytes of this record's wire encoding.
    pub fn get_size(&self) -> (r: usize)
        requires
            self.wf(),
        ensures
            r == spec_txout_undo_bytes(self@).len(),
    {
        let mut scratch: Vec<u8> = Vec::new();
        self.consensus_encode(&mut scratch);
        scratch.len()
    }
}

/// The concatenated encodings of a run of undo records, in order.
pub open spec fn spec_txouts_bytes(ms: Seq<TxOutUndoModel>) -> Seq<u8>
    decreases ms.len(),
{
    if ms.len() == 0 {
        Seq::empty()
    } else {
        spec_txout_undo_bytes(ms[0]) + spec_txouts_bytes(ms.skip(1))
    }
}

/// The wire encoding of a `TxUndo`: a compact-size count followed by each
/// record's encoding in order.
pub open spec fn spec_tx_undo_bytes(ms: Seq<TxOutUndoModel>) -> Seq<u8> {
    compact_size_bytes(ms.len()) + spec_txouts_bytes(ms)
}

/// Every record of the run can be encoded and the count fits its field.
pub open spec fn txundo_model_wf(ms: Seq<TxOutUndoModel>) -> bool {
    &&& ms.len() <= u64::MAX
    &&& forall|i: int| 0 <= i < ms.len() ==> txout_model_wf(#[trigger] ms[i])
}

/// What decoding `n` consecutive undo records off the front of `s` gives.
pub open spec fn spec_decode_txouts(s: Seq<u8>, n: nat) -> Result<
    (Seq<TxOutUndoModel>, nat),
    CodecError,
>
    decreases n,
{
    if n == 0 {
        Ok((Seq::empty(), 0))
    } else {
        match spec_decode_txout(s) {
            Err(e) => Err(e),
            Ok((m, k)) => match spec_decode_txouts(s.skip(k as int), (n - 1) as nat) {
                Err(e) => Err(e),
                Ok((ms, c)) => Ok((seq![m] + ms, k + c)),
            },
        }
    }
}

/// What decoding a whole `TxUndo` off the front of `s` gives.
pub open spec fn spec_decode_tx_undo(s: Seq<u8>) -> Result<(Seq<TxOutUndoModel>, nat), CodecError> {
    match compact_size_read(s) {
        Err(e) => Err(e),
        Ok((n, k)) => match spec_decode_txouts(s.skip(k as int), n) {
            Err(e) => Err(e),
            Ok((ms, c)) => Ok((ms, k + c)),
        },
    }
}

proof fn lemma_txouts_bytes_push(q: Seq<TxOutUndoModel>, m: TxOutUndoModel)
    ensures
        spec_txouts_bytes(q.push(m)) == spec_txouts_bytes(q) + spec_txout_undo_bytes(m),
    decreases q.len(),
{
    reveal_with_fuel(spec_txouts_bytes, 3);
    if q.len() == 0 {
        assert(q.push(m)[0] == m);
        assert(q.push(m).skip(1) =~= Seq::<TxOutUndoModel>::empty());
        assert(spec_txout_undo_bytes(m) + Seq::<u8>::empty() =~= spec_txout_undo_bytes(m));
        assert(Seq::<u8>::empty() + spec_txout_undo_bytes(m) =~= spec_txout_undo_bytes(m));
    } else {
        assert(q.push(m)[0] == q[0]);
        assert(q.push(m).skip(1) =~= q.skip(1).push(m));
        lemma_txouts_bytes_push(q.skip(1), m);
        assert(spec_txout_undo_bytes(q[0]) + (spec_txouts_bytes(q.skip(1)) + spec_txout_undo_bytes(
            m,
        )) =~= (spec_txout_undo_bytes(q[0]) + spec_txouts_bytes(q.skip(1)))
            + spec_txout_undo_bytes(m));
    }
    assert(spec_txouts_bytes(q.push(m)) =~= spec_txouts_bytes(q) + spec_txout_undo_bytes(m));
}

/// A Bitcoin undo transaction: the prior state of every output spent by
/// the inputs of one transaction, in input order.
#[derive(Clone, Debug, PartialEq, Eq)]
pub struct TxUndo {
    /// One undo record per input of the original transaction.
    pub output_undo: Vec<TxOutUndo>,
}

impl View for TxUndo {
    type V = Seq<TxOutUndoModel>;

    open spec fn view(&self) -> Seq<TxOutUndoModel> {
        self.output_undo@.map(|i: int, t: TxOutUndo| t@)
    }
}

impl TxUndo {
    /// Every contained record can be encoded.
    pub open spec fn wf(self) -> bool {
        txundo_model_wf(self@)
    }

    /// Appends the wire encoding of this transaction's undo data to `out`.
    pub fn consensus_encode(&self, out: &mut Vec<u8>)
        requires
            self.wf(),
        ensures
            final(out)@ == old(out)@ + spec_tx_undo_bytes(self@),
    {
        let ghost base = out@;
        write_compact_size(out, self.output_undo.len() as u64);
        let ghost mid = out@;
        let mut i: usize = 0;
        proof {
            assert(self@.take(0) =~= Seq::<TxOutUndoModel>::empty());
            assert(mid + Seq::<u8>::empty() =~= mid);
        }
        while i < self.output_undo.len()
            invariant
                i <= self.output_undo@.len(),
                self.wf(),
                mid == base + compact_size_bytes(self@.len()),
                out@ == mid + spec_txouts_bytes(self@.take(i as int)),
            decreases self.output_undo@.len() - i,
        {
            let ghost pre = out@;
            proof {
                assert(self@[i as int] == self.output_undo@[i as int]@);
                assert(txout_model_wf(self@[i as int]));
            }
            self.output_undo[i].consensus_encode(out);
            proof {
                assert(self@.take(i as int + 1) =~= self@.take(i as int).push(self@[i as int]));
                lemma_txouts_bytes_push(self@.take(i as int), self@[i as int]);
                assert(mid + spec_txouts_bytes(self@.take(i as int)) + spec_txout_undo_bytes(
                    self@[i as int],
                ) =~= mid + (spec_txouts_bytes(self@.take(i as int)) + spec_txout_undo_bytes(
                    self@[i as int],
                )));
            }
            i = i + 1;
        }
        proof {
            assert(self@.take(self@.len() as int) =~= self@);
            assert(base + compact_size_bytes(self@.len()) + spec_txouts_bytes(self@) =~= base + (
            compact_size_bytes(self@.len()) + spec_txouts_bytes(self@)));
        }
    }

    /// Decodes one transaction's undo data from `buf` starting at `pos`.
    pub fn consensus_decode(buf: &Vec<u8>, pos: usize) -> (r: Result<(TxUndo, usize), CodecError>)
        requires
            pos <= buf@.len(),
        ensures
            match r {
                Ok((t, end)) => {
                    &&& pos < end <= buf@.len()
                    &&& t.wf()
                    &&& spec_decode_tx_undo(buf@.skip(pos as int)) == Ok::<_, CodecError>(
                        (t@, (end - pos) as nat),
                    )
                },
                Err(e) => spec_decode_tx_undo(buf@.skip(pos as int)) == Err::<
                    (Seq<TxOutUndoModel>, nat),
                    _,
                >(e),
            },
    {
        let ghost s = buf@.skip(pos as int);
        let (count, p0) = match read_compact_size(buf, pos) {
            Ok(x) => x,
            Err(e) => {
                return Err(e);
            },
        };
        proof {
            assert(s.skip((p0 - pos) as int) =~= buf@.skip(p0 as int));
        }
        let mut outs: Vec<TxOutUndo> = Vec::new();
        let mut p: usize = p0;
        let mut i: u64 = 0;
        proof {
            assert(outs@.map(|j: int, t: TxOutUndo| t@) =~= Seq::<TxOutUndoModel>::empty());
        }
        while i < count
            invariant
                pos < p0 <= p <= buf@.len(),
                i <= count,
                outs@.len() == i,
                forall|j: int| 0 <= j < outs@.len() ==> (#[trigger] outs@[j]).wf(),
                compact_size_read(buf@.skip(pos as int)) == Ok::<(nat, nat), CodecError>(
                    ((count as nat), ((p0 - pos) as nat)),
                ),
                ({
                    let models = outs@.map(|j: int, t: TxOutUndo| t@);
                    match spec_decode_txouts(buf@.skip(p as int), (count - i) as nat) {
                        Ok((ms, c)) => spec_decode_txouts(buf@.skip(p0 as int), count as nat)
                            == Ok::<_, CodecError>((models + ms, (p - p0) as nat + c)),
                        Err(e) => spec_decode_txouts(buf@.skip(p0 as int), count as nat) == Err::<
                            (Seq<TxOutUndoModel>, nat),
                            _,
                        >(e),
                    }
                }),
            decreases count - i,
        {
            let ghost models = outs@.map(|j: int, t: TxOutUndo| t@);
            let (t, np) = match TxOutUndo::consensus_decode(buf, p) {
                Ok(x) => x,
                Err(e) => {
                    proof {
                        assert(buf@.skip(pos as int).skip((p0 - pos) as int) =~= buf@.skip(
                            p0 as int,
                        ));
                    }
                    return Err(e);
                },
            };
            proof {
                assert(buf@.skip(p as int).skip((np - p) as int) =~= buf@.skip(np as int));
                let inner = spec_decode_txouts(buf@.skip(np as int), (count - i - 1) as nat);
                match inner {
                    Ok((ms2, c2)) => {
                        assert(models + (seq![t@] + ms2) =~= models.push(t@) + ms2);
                    },
                    Err(_) => {},
                }
            }
            outs.push(t);
            proof {
                assert(outs@.map(|j: int, t: TxOutUndo| t@) =~= models.push(t@));
            }
            p = np;
            i = i + 1;
        }
        proof {
            let models = outs@.map(|j: int, t: TxOutUndo| t@);
            assert(models + Seq::<TxOutUndoModel>::empty() =~= models);
            assert(buf@.skip(pos as int).skip((p0 - pos) as int) =~= buf@.skip(p0 as int));
        }
        Ok((TxUndo { output_undo: outs }, p))
    }

    /// The exact length in bytes of this transaction's undo encoding.
    pub fn get_size(&self) -> (r: usize)
        requires
            self.wf(),
        ensures
            r == spec_tx_undo_bytes(self@).len(),
    {
        let mut scratch: Vec<u8> = Vec::new();
        self.consensus_encode(&mut scratch);
        scratch.len()
    }
}

/// The concatenated encodings of a run of transaction undo entries.
pub open spec fn spec_txundos_bytes(bs: Seq<Seq<TxOutUndoModel>>) -> Seq<u8>
    decreases bs.len(),
{
    if bs.len() == 0 {
        Seq::empty()
    } else {
        spec_tx_undo_bytes(bs[0]) + spec_txundos_bytes(bs.skip(1))
    }
}

/// The wire encoding of a `BlockUndo`: a compact-size count followed by
/// each transaction's undo encoding in block order.
pub open spec fn spec_block_undo_bytes(bs: Seq<Seq<TxOutUndoModel>>) -> Seq<u8> {
    compact_size_bytes(bs.len()) + spec_txundos_bytes(bs)
}

/// Every transaction entry can be encoded and the count fits its field.
pub open spec fn block_model_wf(bs: Seq<Seq<TxOutUndoModel>>) -> bool {
    &&& bs.len() <= u64::MAX
    &&& forall|i: int| 0 <= i < bs.len() ==> txundo_model_wf(#[trigger] bs[i])
}

/// What decoding `n` consecutive transaction undo entries off the front of
/// `s` gives.
pub open spec fn spec_decode_txundos(s: Seq<u8>, n: nat) -> Result<
    (Seq<Seq<TxOutUndoModel>>, nat),
    CodecError,
>
    decreases n,
{
    if n == 0 {
        Ok((Seq::empty(), 0))
    } else {
        match spec_decode_tx_undo(s) {
            Err(e) => Err(e),
            Ok((ms, k)) => match spec_decode_txundos(s.skip(k as int), (n - 1) as nat) {
                Err(e) => Err(e),
                Ok((bs, c)) => Ok((seq![ms] + bs, k + c)),
            },
        }
    }
}

/// What decoding a whole `BlockUndo` off the front of `s` gives.
pub open spec fn spec_decode_block_undo(s: Seq<u8>) -> Result<
    (Seq<Seq<TxOutUndoModel>>, nat),
    CodecError,
> {
    match compact_size_read(s) {
        Err(e) => Err(e),
        Ok((n, k)) => match spec_decode_txundos(s.skip(k as int), n) {
            Err(e) => Err(e),
            Ok((bs, c)) => Ok((bs, k + c)),
        },
    }
}

proof fn lemma_txundos_bytes_push(q: Seq<Seq<TxOutUndoModel>>, ms: Seq<TxOutUndoModel>)
    ensures
        spec_txundos_bytes(q.push(ms)) == spec_txundos_bytes(q) + spec_tx_undo_bytes(ms),
    decreases q.len(),
{
    reveal_with_fuel(spec_txundos_bytes, 3);
    if q.len() == 0 {
        assert(q.push(ms)[0] == ms);
        assert(q.push(ms).skip(1) =~= Seq::<Seq<TxOutUndoModel>>::empty());
        assert(spec_tx_undo_bytes(ms) + Seq::<u8>::empty() =~= spec_tx_undo_bytes(ms));
        assert(Seq::<u8>::empty() + spec_tx_undo_bytes(ms) =~= spec_tx_undo_bytes(ms));
    } else {
        assert(q.push(ms)[0] == q[0]);
        assert(q.push(ms).skip(1) =~= q.skip(1).push(ms));
        lemma_txundos_bytes_push(q.skip(1), ms);
        assert(spec_tx_undo_bytes(q[0]) + (spec_txundos_bytes(q.skip(1)) + spec_tx_undo_bytes(ms))
            =~= (spec_tx_undo_bytes(q[0]) + spec_txundos_bytes(q.skip(1))) + spec_tx_undo_bytes(
            ms,
        ));
    }
    assert(spec_txundos_bytes(q.push(ms)) =~= spec_txundos_bytes(q) + spec_tx_undo_bytes(ms));
}

/// A Bitcoin undo block: the prior state of every output spent by a block,
/// one entry per non-coinbase transaction, in block order.
#[derive(Clone, Debug, PartialEq, Eq)]
pub struct BlockUndo {
    /// One undo entry per transaction in the block, excluding the coinbase
    /// transaction.
    pub txdata_undo: Vec<TxUndo>,
}

impl View for BlockUndo {
    type V = Seq<Seq<TxOutUndoModel>>;

    open spec fn view(&self) -> Seq<Seq<TxOutUndoModel>> {
        self.txdata_undo@.map(|i: int, t: TxUndo| t@)
    }
}

impl BlockUndo {
    /// Every contained entry can be encoded.
    pub open spec fn wf(self) -> bool {
        block_model_wf(self@)
    }

    /// Appends the wire encoding of this block's undo data to `out`.
    pub fn consensus_encode(&self, out: &mut Vec<u8>)
        requires
            self.wf(),
        ensures
            final(out)@ == old(out)@ + spec_block_undo_bytes(self@),
    {
        let ghost base = out@;
        write_compact_size(out, self.txdata_undo.len() as u64);
        let ghost mid = out@;
        let mut i: usize = 0;
        proof {
            assert(self@.take(0) =~= Seq::<Seq<TxOutUndoModel>>::empty());
            assert(mid + Seq::<u8>::empty() =~= mid);
        }
        while i < self.txdata_undo.len()
            invariant
                i <= self.txdata_undo@.len(),
                self.wf(),
                mid == base + compact_size_bytes(self@.len()),
                out@ == mid + spec_txundos_bytes(self@.take(i as int)),
            decreases self.txdata_undo@.len() - i,
        {
            proof {
                assert(self@[i as int] == self.txdata_undo@[i as int]@);
                assert(txundo_model_wf(self@[i as int]));
            }
            self.txdata_undo[i].consensus_encode(out);
            proof {
                assert(self@.take(i as int + 1) =~= self@.take(i as int).push(self@[i as int]));
                lemma_txundos_bytes_push(self@.take(i as int), self@[i as int]);
                assert(mid + spec_txundos_bytes(self@.take(i as int)) + spec_tx_undo_bytes(
                    self@[i as int],
                ) =~= mid + (spec_txundos_bytes(self@.take(i as int)) + spec_tx_undo_bytes(
                    self@[i as int],
                )));
            }
            i = i + 1;
        }
        proof {
            assert(self@.take(self@.len() as int) =~= self@);
            assert(base + compact_size_bytes(self@.len()) + spec_txundos_bytes(self@) =~= base + (
            compact_size_bytes(self@.len()) + spec_txundos_bytes(self@)));
        }
    }

    /// Decodes one block's undo data from `buf` starting at `pos`.
    #[verifier::rlimit(60)]
    pub fn consensus_decode(buf: &Vec<u8>, pos: usize) -> (r: Result<
        (BlockUndo, usize),
        CodecError,
    >)
        requires
            pos <= buf@.len(),
        ensures
            match r {
                Ok((b, end)) => {
                    &&& pos < end <= buf@.len()
                    &&& b.wf()
                    &&& spec_decode_block_undo(buf@.skip(pos as int)) == Ok::<_, CodecError>(
                        (b@, (end - pos) as nat),
                    )
                },
                Err(e) => spec_decode_block_undo(buf@.skip(pos as int)) == Err::<
                    (Seq<Seq<TxOutUndoModel>>, nat),
                    _,
                >(e),
            },
    {
        let ghost s = buf@.skip(pos as int);
        let (count, p0) = match read_compact_size(buf, pos) {
            Ok(x) => x,
            Err(e) => {
                return Err(e);
            },
        };
        proof {
            assert(s.skip((p0 - pos) as int) =~= buf@.skip(p0 as int));
        }
        let mut txs: Vec<TxUndo> = Vec::new();
        let mut p: usize = p0;
        let mut i: u64 = 0;
        proof {
            assert(txs@.map(|j: int, t: TxUndo| t@) =~= Seq::<Seq<TxOutUndoModel>>::empty());
        }
        while i < count
            invariant
                pos < p0 <= p <= buf@.len(),
                i <= count,
                txs@.len() == i,
                forall|j: int| 0 <= j < txs@.len() ==> (#[trigger] txs@[j]).wf(),
                compact_size_read(buf@.skip(pos as int)) == Ok::<(nat, nat), CodecError>(
                    ((count as nat), ((p0 - pos) as nat)),
                ),
                ({
                    let models = txs@.map(|j: int, t: TxUndo| t@);
                    match spec_decode_txundos(buf@.skip(p as int), (count - i) as nat) {
                        Ok((bs, c)) => spec_decode_txundos(buf@.skip(p0 as int), count as nat)
                            == Ok::<_, CodecError>((models + bs, (p - p0) as nat + c)),
                        Err(e) => spec_decode_txundos(buf@.skip(p0 as int), count as nat) == Err::<
                            (Seq<Seq<TxOutUndoModel>>, nat),
                            _,
                        >(e),
                    }
                }),
            decreases count - i,
        {
            let ghost models = txs@.map(|j: int, t: TxUndo| t@);
            let (t, np) = match TxUndo::consensus_decode(buf, p) {
                Ok(x) => x,
                Err(e) => {
                    proof {
                        assert(buf@.skip(pos as int).skip((p0 - pos) as int) =~= buf@.skip(
                            p0 as int,
                        ));
                    }
                    return Err(e);
                },
            };
            proof {
                assert(buf@.skip(p as int).skip((np - p) as int) =~= buf@.skip(np as int));
                let inner = spec_decode_txundos(buf@.skip(np as int), (count - i - 1) as nat);
                match inner {
                    Ok((bs2, c2)) => {
                        assert(models + (seq![t@] + bs2) =~= models.push(t@) + bs2);
                    },
                    Err(_) => {},
                }
            }
            txs.push(t);
            proof {
                assert(txs@.map(|j: int, t: TxUndo| t@) =~= models.push(t@));
            }
            p = np;
            i = i + 1;
        }
        proof {
            let models = txs@.map(|j: int, t: TxUndo| t@);
            assert(models + Seq::<Seq<TxOutUndoModel>>::empty() =~= models);
            assert(buf@.skip(pos as int).skip((p0 - pos) as int) =~= buf@.skip(p0 as int));
        }
        Ok((BlockUndo { txdata_undo: txs }, p))
    }

    /// The exact wire-encoded byte length of this block's undo data: the
    /// count prefix plus the sum of each transaction entry's encoding.
    pub fn get_size(&self) -> (r: usize)
        requires
            self.wf(),
        ensures
            r == spec_block_undo_bytes(self@).len(),
    {
        let mut scratch: Vec<u8> = Vec::new();
        self.consensus_encode(&mut scratch);
        scratch.len()
    }
}

/// Walks a decode across the three integer fields and the reserved byte of
/// an encoded record, leaving `tail` in place of the payload: the decode
/// succeeds exactly when `tail` still holds a full payload.
#[verifier::rlimit(80)]
proof fn lemma_decode_txout_fields(m: TxOutUndoModel, tail: Seq<u8>)
    requires
        txout_model_wf(m),
    ensures
        ({
            let head = varint2_bytes(spec_pack_height(m.height, m.is_coin_base)) + seq![0u8]
                + varint2_bytes(compress_amount(m.amount)) + varint2_bytes(m.script_code);
            let plen = m.script_payload.len();
            if tail.len() >= plen {
                spec_decode_txout(head + tail) == Ok::<_, CodecError>(
                    (
                        TxOutUndoModel {
                            is_coin_base: m.is_coin_base,
                            height: m.height,
                            amount: m.amount,
                            script_code: m.script_code,
                            script_payload: tail.take(plen as int),
                        },
                        head.len() + plen,
                    ),
                )
            } else {
                spec_decode_txout(head + tail) == Err::<(TxOutUndoModel, nat), CodecError>(
                    CodecError::Truncated,
                )
            }
        }),
{
    let hv = spec_pack_height(m.height, m.is_coin_base);
    let a = varint2_bytes(hv);
    let b = varint2_bytes(compress_amount(m.amount));
    let c = varint2_bytes(m.script_code);
    let head = a + seq![0u8] + b + c;
    let s = head + tail;
    assert(s =~= a + (seq![0u8] + b + c + tail));
    lemma_varint2_round_trip(hv, seq![0u8] + b + c + tail);
    assert(varint2_read(s) == Some((hv, a.len())));
    let s1 = s.skip(a.len() as int);
    assert(s1 =~= seq![0u8] + b + c + tail);
    assert(s1.len() > 0);
    let s2 = s1.skip(1);
    assert(s2 =~= b + (c + tail));
    lemma_varint2_round_trip(compress_amount(m.amount), c + tail);
    assert(varint2_read(s2) == Some((compress_amount(m.amount), b.len())));
    lemma_decompress_of_compress(m.amount);
    let s3 = s2.skip(b.len() as int);
    assert(s3 =~= c + tail);
    lemma_varint2_round_trip(m.script_code, tail);
    assert(varint2_read(s3) == Some((m.script_code, c.len())));
    let s4 = s3.skip(c.len() as int);
    assert(s4 =~= tail);
    lemma_pack_height_round_trip(m.height, m.is_coin_base);
    let plen = m.script_payload.len();
    if tail.len() >= plen {
        assert(s4.take(plen as int) == tail.take(plen as int));
        assert(head.len() == a.len() + 1 + b.len() + c.len());
    }
}

/// Round trip of one record: its encoding at the front of any byte string
/// decodes back to the same record and consumes exactly the encoding.
pub proof fn lemma_txout_undo_round_trip(m: TxOutUndoModel, rest: Seq<u8>)
    requires
        txout_model_wf(m),
    ensures
        spec_decode_txout(spec_txout_undo_bytes(m) + rest) == Ok::<_, CodecError>(
            (m, spec_txout_undo_bytes(m).len()),
        ),
{
    let head = varint2_bytes(spec_pack_height(m.height, m.is_coin_base)) + seq![0u8]
        + varint2_bytes(compress_amount(m.amount)) + varint2_bytes(m.script_code);
    lemma_decode_txout_fields(m, m.script_payload + rest);
    assert(spec_txout_undo_bytes(m) + rest =~= head + (m.script_payload + rest));
    let plen = m.script_payload.len();
    assert((m.script_payload + rest).take(plen as int) =~= m.script_payload);
    assert(TxOutUndoModel {
        is_coin_base: m.is_coin_base,
        height: m.height,
        amount: m.amount,
        script_code: m.script_code,
        script_payload: m.script_payload,
    } =~= m);
    assert(spec_txout_undo_bytes(m).len() == head.len() + plen);
}

/// A buffer missing the final payload byte of a record fails with a
/// truncated-input error, never a silent short read.
pub proof fn lemma_txout_undo_truncated(m: TxOutUndoModel)
    requires
        txout_model_wf(m),
        m.script_payload.len() >= 1,
    ensures
        spec_decode_txout(spec_txout_undo_bytes(m).drop_last()) == Err::<
            (TxOutUndoModel, nat),
            CodecError,
        >(CodecError::Truncated),
{
    let head = varint2_bytes(spec_pack_height(m.height, m.is_coin_base)) + seq![0u8]
        + varint2_bytes(compress_amount(m.amount)) + varint2_bytes(m.script_code);
    let cut = m.script_payload.drop_last();
    lemma_decode_txout_fields(m, cut);
    assert(spec_txout_undo_bytes(m).drop_last() =~= head + cut);
    assert(cut.len() < m.script_payload.len());
}

#[verifier::rlimit(60)]
proof fn lemma_txouts_round_trip(ms: Seq<TxOutUndoModel>, rest: Seq<u8>)
    requires
        txundo_model_wf(ms),
    ensures
        spec_decode_txouts(spec_txouts_bytes(ms) + rest, ms.len()) == Ok::<_, CodecError>(
            (ms, spec_txouts_bytes(ms).len()),
        ),
    decreases ms.len(),
{
    if ms.len() == 0 {
        assert(spec_txouts_bytes(ms) + rest =~= rest);
        assert(ms =~= Seq::<TxOutUndoModel>::empty());
    } else {
        let m0 = ms[0];
        let tailms = ms.skip(1);
        assert(txout_model_wf(m0));
        assert forall|i: int| 0 <= i < tailms.len() implies txout_model_wf(
            #[trigger] tailms[i],
        ) by {
            assert(tailms[i] == ms[i + 1]);
        }
        lemma_txout_undo_round_trip(m0, spec_txouts_bytes(tailms) + rest);
        let s = spec_txouts_bytes(ms) + rest;
        let k0 = spec_txout_undo_bytes(m0).len();
        assert(s =~= spec_txout_undo_bytes(m0) + (spec_txouts_bytes(tailms) + rest));
        assert(spec_decode_txout(s) == Ok::<_, CodecError>((m0, k0)));
        assert(s.skip(k0 as int) =~= spec_txouts_bytes(tailms) + rest);
        lemma_txouts_round_trip(tailms, rest);
        assert(seq![m0] + tailms =~= ms);
    }
}

/// Round trip of one transaction's undo data: its encoding at the front of
/// any byte string decodes back to the same records and consumes exactly
/// the encoding.
pub proof fn lemma_tx_undo_round_trip(ms: Seq<TxOutUndoModel>, rest: Seq<u8>)
    requires
        txundo_model_wf(ms),
    ensures
        spec_decode_tx_undo(spec_tx_undo_bytes(ms) + rest) == Ok::<_, CodecError>(
            (ms, spec_tx_undo_bytes(ms).len()),
        ),
{
    let cnt = compact_size_bytes(ms.len());
    lemma_compact_size_round_trip(ms.len(), spec_txouts_bytes(ms) + rest);
    let s = spec_tx_undo_bytes(ms) + rest;
    assert(s =~= cnt + (spec_txouts_bytes(ms) + rest));
    assert(compact_size_read(s) == Ok::<(nat, nat), CodecError>((ms.len(), cnt.len())));
    assert(s.skip(cnt.len() as int) =~= spec_txouts_bytes(ms) + rest);
    lemma_txouts_round_trip(ms, rest);
}

#[verifier::rlimit(60)]
proof fn lemma_txundos_round_trip(bs: Seq<Seq<TxOutUndoModel>>, rest: Seq<u8>)
    requires
        block_model_wf(bs),
    ensures
        spec_decode_txundos(spec_txundos_bytes(bs) + rest, bs.len()) == Ok::<_, CodecError>(
            (bs, spec_txundos_bytes(bs).len()),
        ),
    decreases bs.len(),
{
    if bs.len() == 0 {
        assert(spec_txundos_bytes(bs) + rest =~= rest);
        assert(bs =~= Seq::<Seq<TxOutUndoModel>>::empty());
    } else {
        let b0 = bs[0];
        let tailbs = bs.skip(1);
        assert(txundo_model_wf(b0));
        assert forall|i: int| 0 <= i < tailbs.len() implies txundo_model_wf(
            #[trigger] tailbs[i],
        ) by {
            assert(tailbs[i] == bs[i + 1]);
        }
        lemma_tx_undo_round_trip(b0, spec_txundos_bytes(tailbs) + rest);
        let s = spec_txundos_bytes(bs) + rest;
        let k0 = spec_tx_undo_bytes(b0).len();
        assert(s =~= spec_tx_undo_bytes(b0) + (spec_txundos_bytes(tailbs) + rest));
        assert(spec_decode_tx_undo(s) == Ok::<_, CodecError>((b0, k0)));
        assert(s.skip(k0 as int) =~= spec_txundos_bytes(tailbs) + rest);
        lemma_txundos_round_trip(tailbs, rest);
        assert(seq![b0] + tailbs =~= bs);
    }
}

/// Round trip and count consistency of a whole block's undo data: the
/// encoding decodes back to the same entries and the decode consumes
/// exactly the encoded length that `get_size` reports.
pub proof fn lemma_block_undo_round_trip(bs: Seq<Seq<TxOutUndoModel>>, rest: Seq<u8>)
    requires
        block_model_wf(bs),
    ensures
        spec_decode_block_undo(spec_block_undo_bytes(bs) + rest) == Ok::<_, CodecError>(
            (bs, spec_block_undo_bytes(bs).len()),
        ),
{
    let cnt = compact_size_bytes(bs.len());
    lemma_compact_size_round_trip(bs.len(), spec_txundos_bytes(bs) + rest);
    let s = spec_block_undo_bytes(bs) + rest;
    assert(s =~= cnt + (spec_txundos_bytes(bs) + rest));
    assert(compact_size_read(s) == Ok::<(nat, nat), CodecError>((bs.len(), cnt.len())));
    assert(s.skip(cnt.len() as int) =~= spec_txundos_bytes(bs) + rest);
    lemma_txundos_round_trip(bs, rest);
}

} // verus!
