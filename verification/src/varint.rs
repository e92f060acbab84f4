//! The two self-delimiting unsigned-integer wire encodings.
//!
//! The *standard* compact-size encoding prefixes sequence counts: one byte
//! for small values, else a marker byte followed by a little-endian field.
//! The *alternate* encoding packs seven value bits per byte, most
//! significant group first, with a continuation bit and an off-by-one twist
//! that makes every byte string decode to at most one value. The two must
//! never be interchanged.

use vstd::prelude::*;

use vstd::arithmetic::div_mod::lemma_fundamental_div_mod;

use crate::CodecError;

verus! {

/// `128^k` over the naturals.
pub open spec fn pow128(k: nat) -> nat
    decreases k,
{
    if k == 0 {
        1
    } else {
        128 * pow128((k - 1) as nat)
    }
}

/// The leading bytes of the alternate encoding of a value whose low seven
/// bits have been split off: each byte carries seven value bits plus the
/// continuation bit, and each step down subtracts one (the encoding is
/// bijective, so no byte string is wasted).
pub open spec fn varint2_hi_bytes(n: nat) -> Seq<u8>
    decreases n,
{
    if n < 128 {
        seq![(n + 128) as u8]
    } else {
        varint2_hi_bytes((n / 128 - 1) as nat).push(((n % 128) + 128) as u8)
    }
}

/// The alternate (continuation-bit) encoding of `n`.
pub open spec fn varint2_bytes(n: nat) -> Seq<u8> {
    if n < 128 {
        seq![n as u8]
    } else {
        varint2_hi_bytes((n / 128 - 1) as nat).push((n % 128) as u8)
    }
}

/// One step of alternate-encoding decode: reads bytes off the front of `s`
/// into the accumulator `acc` until a byte without the continuation bit
/// ends the value. Returns the value and how many bytes it took, or `None`
/// when `s` ends first.
pub open spec fn varint2_read_rec(s: Seq<u8>, acc: nat) -> Option<(nat, nat)>
    decreases s.len(),
{
    if s.len() == 0 {
        None
    } else {
        let b = s[0];
        let acc2 = acc * 128 + (b as nat) % 128;
        if b >= 128 {
            match varint2_read_rec(s.skip(1), acc2 + 1) {
                Some((v, k)) => Some((v, (k + 1) as nat)),
                None => None,
            }
        } else {
            Some((acc2, 1))
        }
    }
}

/// What decoding an alternate-encoded integer off the front of `s` gives.
pub open spec fn varint2_read(s: Seq<u8>) -> Option<(nat, nat)> {
    varint2_read_rec(s, 0)
}

/// Reads one alternate-encoded integer from `buf` starting at `pos`.
///
/// Fails with `Truncated` when the buffer ends inside the value and with
/// `Overflow` when the encoded value does not fit 64 bits.
pub fn read_varint2(buf: &Vec<u8>, pos: usize) -> (r: Result<(u64, usize), CodecError>)
    requires
        pos <= buf@.len(),
    ensures
        match r {
            Ok((v, end)) => {
                &&& pos < end <= buf@.len()
                &&& varint2_read(buf@.skip(pos as int)) == Some(((v as nat), ((end - pos) as nat)))
            },
            Err(e) => match varint2_read(buf@.skip(pos as int)) {
                None => e == CodecError::Truncated,
                Some((v, k)) => v > u64::MAX && e == CodecError::Overflow,
            },
        },
{
    let mut i: usize = pos;
    let mut acc: u128 = 0;
    let ghost mut gacc: nat = 0nat;
    loop
        invariant
            pos <= i <= buf@.len(),
            gacc <= u64::MAX ==> acc == gacc,
            gacc > u64::MAX ==> acc > u64::MAX && acc <= gacc,
            acc <= 0x10000000000000000u128,
            ({
                let full = varint2_read_rec(buf@.skip(pos as int), 0);
                match varint2_read_rec(buf@.skip(i as int), gacc) {
                    None => full is None,
                    Some((v, k)) => full == Some((v, (k + i - pos) as nat)),
                }
            }),
        decreases buf@.len() - i,
    {
        if i == buf.len() {
            proof {
                assert(buf@.skip(i as int).len() == 0);
            }
            return Err(CodecError::Truncated);
        }
        let b = buf[i];
        proof {
            assert(buf@.skip(i as int)[0] == buf@[i as int]);
            assert(buf@.skip(i as int).skip(1) =~= buf@.skip(i as int + 1));
        }
        let low: u128 = (b % 128) as u128;
        if b >= 128 {
            let ghost old_gacc = gacc;
            proof {
                gacc = gacc * 128 + (b as nat) % 128 + 1;
                if old_gacc > u64::MAX {
                    // 128 * old_gacc >= 128 * acc is linear in the constant.
                    assert(old_gacc * 128 >= acc * 128);
                }
            }
            acc = acc * 128 + low + 1;
            if acc > 0xFFFFFFFFFFFFFFFFu128 {
                acc = 0x10000000000000000u128;
            }
            i = i + 1;
        } else {
            let ghost v_final: nat = gacc * 128 + (b as nat) % 128;
            proof {
                assert(varint2_read_rec(buf@.skip(i as int), gacc) == Some((v_final, 1nat)));
                if gacc > u64::MAX {
                    assert(gacc * 128 >= acc * 128);
                }
            }
            let w: u128 = acc * 128 + low;
            if w > 0xFFFFFFFFFFFFFFFFu128 {
                return Err(CodecError::Overflow);
            } else {
                return Ok((w as u64, i + 1));
            }
        }
    }
}

/// Appends the alternate encoding of `n` to `out`.
pub fn write_varint2(out: &mut Vec<u8>, n: u64)
    ensures
        final(out)@ == old(out)@ + varint2_bytes(n as nat),
{
    let ghost base = out@;
    // Build the encoding back to front, then append it reversed.
    let mut tmp: Vec<u8> = Vec::new();
    tmp.push((n % 128) as u8);
    let mut m: u64 = n;
    while m >= 128
        invariant
            m < 128 ==> varint2_bytes(n as nat) == tmp@.reverse(),
            m >= 128 ==> varint2_bytes(n as nat) == varint2_hi_bytes((m / 128 - 1) as nat)
                + tmp@.reverse(),
        decreases m,
    {
        m = m / 128 - 1;
        let ghost pre = tmp@;
        tmp.push((m % 128 + 128) as u8);
        proof {
            assert(pre.push((m % 128 + 128) as u8).reverse() =~= seq![(m % 128 + 128) as u8]
                + pre.reverse());
            if m >= 128 {
                assert(varint2_hi_bytes(m as nat) == varint2_hi_bytes((m / 128 - 1) as nat).push(
                    ((m % 128) + 128) as u8,
                ));
                assert(varint2_hi_bytes((m / 128 - 1) as nat).push((m % 128 + 128) as u8)
                    + pre.reverse() =~= varint2_hi_bytes((m / 128 - 1) as nat) + (seq![
                    (m % 128 + 128) as u8,
                ] + pre.reverse()));
            } else {
                assert(varint2_hi_bytes(m as nat) == seq![(m + 128) as u8]);
            }
        }
    }
    let mut j: usize = tmp.len();
    proof {
        assert(tmp@.reverse().take((tmp@.len() - j) as int) =~= Seq::<u8>::empty());
        assert(out@ == base + Seq::<u8>::empty());
    }
    while j > 0
        invariant
            j <= tmp@.len(),
            varint2_bytes(n as nat) == tmp@.reverse(),
            out@ == base + tmp@.reverse().take((tmp@.len() - j) as int),
        decreases j,
    {
        j = j - 1;
        let ghost pre_out = out@;
        out.push(tmp[j]);
        proof {
            let rev = tmp@.reverse();
            let k = (tmp@.len() - j - 1) as int;
            assert(rev[k] == tmp@[j as int]);
            assert(rev.take(k + 1) =~= rev.take(k).push(tmp@[j as int]));
            assert(pre_out.push(tmp@[j as int]) =~= base + rev.take(k + 1));
        }
    }
    proof {
        assert(tmp@.reverse().take(tmp@.len() as int) =~= tmp@.reverse());
    }
}

/// Reading the leading group bytes multiplies the accumulator past them and
/// adds the group value plus one.
proof fn lemma_varint2_read_hi(m: nat, s: Seq<u8>, acc: nat)
    ensures
        ({
            let hi = varint2_hi_bytes(m);
            varint2_read_rec(hi + s, acc) == match varint2_read_rec(
                s,
                acc * pow128(hi.len()) + m + 1,
            ) {
                Some((v, k)) => Some((v, (k + hi.len()) as nat)),
                None => None::<(nat, nat)>,
            }
        }),
    decreases m,
{
    let hi = varint2_hi_bytes(m);
    if m < 128 {
        let b = (m + 128) as u8;
        assert(hi == seq![b]);
        assert((hi + s)[0] == b);
        assert((hi + s).skip(1) =~= s);
        reveal_with_fuel(pow128, 3);
        assert(pow128(1) == 128);
        assert((b as nat) % 128 == m);
    } else {
        let mp = (m / 128 - 1) as nat;
        let b = ((m % 128) + 128) as u8;
        let hip = varint2_hi_bytes(mp);
        assert(hi == hip.push(b));
        assert(hi + s =~= hip + (seq![b] + s));
        lemma_varint2_read_hi(mp, seq![b] + s, acc);
        let acc1 = acc * pow128(hip.len()) + mp + 1;
        assert((seq![b] + s)[0] == b);
        assert(b >= 128);
        assert((b as nat) % 128 == m % 128);
        assert((seq![b] + s).skip(1) =~= s);
        lemma_fundamental_div_mod(m as int, 128);
        assert(acc1 * 128 + m % 128 + 1 == acc * pow128(hi.len()) + m + 1) by (nonlinear_arith)
            requires
                acc1 == acc * pow128(hip.len()) + mp + 1,
                mp + 1 == m / 128,
                m == 128 * (m / 128) + m % 128,
                pow128(hi.len()) == 128 * pow128(hip.len()),
                hi.len() == hip.len() + 1,
        ;
        assert(pow128((hip.len() + 1) as nat) == 128 * pow128(hip.len()));
    }
}

/// Decoding reads back exactly what encoding wrote: the alternate encoding
/// of `n` at the front of any byte string decodes to `n` and consumes
/// precisely the encoding's bytes.
pub proof fn lemma_varint2_round_trip(n: nat, rest: Seq<u8>)
    ensures
        varint2_read(varint2_bytes(n) + rest) == Some((n, varint2_bytes(n).len())),
{
    let bs = varint2_bytes(n);
    if n < 128 {
        assert((bs + rest)[0] == n as u8);
        assert((n as u8) < 128);
    } else {
        let mp = (n / 128 - 1) as nat;
        let b = (n % 128) as u8;
        let hip = varint2_hi_bytes(mp);
        assert(bs == hip.push(b));
        assert(bs + rest =~= hip + (seq![b] + rest));
        lemma_varint2_read_hi(mp, seq![b] + rest, 0);
        let acc1 = 0 * pow128(hip.len()) + mp + 1;
        assert(acc1 == mp + 1);
        assert((seq![b] + rest)[0] == b);
        assert(b < 128);
        assert((b as nat) % 128 == n % 128);
        lemma_fundamental_div_mod(n as int, 128);
        assert(acc1 * 128 + (b as nat) % 128 == n);
        assert(varint2_read_rec(seq![b] + rest, acc1) == Some((n, 1nat)));
        assert(bs.len() == hip.len() + 1);
    }
}

/// `256^k` over the naturals.
pub open spec fn pow256(k: nat) -> nat
    decreases k,
{
    if k == 0 {
        1
    } else {
        256 * pow256((k - 1) as nat)
    }
}

/// The `k` little-endian bytes of `n`.
pub open spec fn le_bytes(n: nat, k: nat) -> Seq<u8>
    decreases k,
{
    if k == 0 {
        Seq::empty()
    } else {
        seq![(n % 256) as u8] + le_bytes(n / 256, (k - 1) as nat)
    }
}

/// The value that a little-endian byte string stands for.
pub open spec fn le_val(s: Seq<u8>) -> nat
    decreases s.len(),
{
    if s.len() == 0 {
        0
    } else {
        s[0] as nat + 256 * le_val(s.skip(1))
    }
}

proof fn lemma_le_bytes_len(n: nat, k: nat)
    ensures
        le_bytes(n, k).len() == k,
    decreases k,
{
    if k > 0 {
        lemma_le_bytes_len(n / 256, (k - 1) as nat);
    }
}

proof fn lemma_le_val_bound(s: Seq<u8>)
    ensures
        le_val(s) < pow256(s.len()),
    decreases s.len(),
{
    if s.len() > 0 {
        lemma_le_val_bound(s.skip(1));
    }
}

/// The little-endian bytes of `n` read back as `n` when `n` fits them.
proof fn lemma_le_round_trip(n: nat, k: nat)
    requires
        n < pow256(k),
    ensures
        le_val(le_bytes(n, k)) == n,
    decreases k,
{
    if k == 0 {
    } else {
        lemma_fundamental_div_mod(n as int, 256);
        assert(n / 256 < pow256((k - 1) as nat)) by {
            assert(256 * (n / 256) <= n);
            assert(n < 256 * pow256((k - 1) as nat));
            assert(256 * (n / 256) < 256 * pow256((k - 1) as nat));
        }
        lemma_le_round_trip(n / 256, (k - 1) as nat);
        let bs = le_bytes(n, k);
        assert(bs[0] == (n % 256) as u8);
        assert(bs.skip(1) =~= le_bytes(n / 256, (k - 1) as nat));
    }
}

/// The standard compact-size encoding of `n`: sequence counts on the wire.
pub open spec fn compact_size_bytes(n: nat) -> Seq<u8> {
    if n < 0xFD {
        seq![n as u8]
    } else if n <= 0xFFFF {
        seq![0xFDu8] + le_bytes(n, 2)
    } else if n <= 0xFFFFFFFF {
        seq![0xFEu8] + le_bytes(n, 4)
    } else {
        seq![0xFFu8] + le_bytes(n, 8)
    }
}

/// What decoding a compact-size integer off the front of `s` gives: the
/// value and the bytes consumed, `Truncated` when `s` ends inside the
/// field, and `NonMinimal` when a wider form encodes a value a narrower
/// form could carry.
pub open spec fn compact_size_read(s: Seq<u8>) -> Result<(nat, nat), CodecError> {
    if s.len() == 0 {
        Err(CodecError::Truncated)
    } else if s[0] < 0xFD {
        Ok((s[0] as nat, 1))
    } else if s[0] == 0xFD {
        if s.len() < 3 {
            Err(CodecError::Truncated)
        } else {
            let v = le_val(s.subrange(1, 3));
            if v < 0xFD {
                Err(CodecError::NonMinimal)
            } else {
                Ok((v, 3))
            }
        }
    } else if s[0] == 0xFE {
        if s.len() < 5 {
            Err(CodecError::Truncated)
        } else {
            let v = le_val(s.subrange(1, 5));
            if v <= 0xFFFF {
                Err(CodecError::NonMinimal)
            } else {
                Ok((v, 5))
            }
        }
    } else {
        if s.len() < 9 {
            Err(CodecError::Truncated)
        } else {
            let v = le_val(s.subrange(1, 9));
            if v <= 0xFFFFFFFF {
                Err(CodecError::NonMinimal)
            } else {
                Ok((v, 9))
            }
        }
    }
}

proof fn lemma_pow256_mono(a: nat, b: nat)
    requires
        a <= b,
    ensures
        pow256(a) <= pow256(b),
    decreases b,
{
    if a < b {
        lemma_pow256_mono(a, (b - 1) as nat);
    }
}

/// Reads `k` little-endian bytes from `buf` at `pos`.
fn read_le(buf: &Vec<u8>, pos: usize, k: usize) -> (r: u64)
    requires
        k <= 8,
        pos + k <= buf@.len(),
    ensures
        r == le_val(buf@.subrange(pos as int, (pos + k) as int)),
{
    let blen: usize = buf.len();
    let mut j: usize = k;
    let mut acc: u64 = 0;
    while j > 0
        invariant
            j <= k <= 8,
            blen == buf@.len(),
            pos + k <= buf@.len(),
            acc == le_val(buf@.subrange((pos + j) as int, (pos + k) as int)),
            acc < pow256((k - j) as nat),
        decreases j,
    {
        proof {
            lemma_pow256_mono((k - j) as nat, 7);
            reveal_with_fuel(pow256, 9);
        }
        j = j - 1;
        let b = buf[pos + j];
        acc = (b as u64) + 256 * acc;
        proof {
            let sub = buf@.subrange((pos + j) as int, (pos + k) as int);
            assert(sub[0] == buf@[(pos + j) as int]);
            assert(sub.skip(1) =~= buf@.subrange((pos + j + 1) as int, (pos + k) as int));
            lemma_le_val_bound(sub);
            assert(sub.len() == k - j);
        }
    }
    proof {
        assert(buf@.subrange((pos + j) as int, (pos + k) as int) =~= buf@.subrange(
            pos as int,
            (pos + k) as int,
        ));
    }
    acc
}

/// Appends the `k` little-endian bytes of `v` to `out`.
fn write_le(out: &mut Vec<u8>, v: u64, k: usize)
    ensures
        final(out)@ == old(out)@ + le_bytes(v as nat, k as nat),
{
    let ghost base = out@;
    let mut q: u64 = v;
    let mut j: usize = 0;
    proof {
        assert(out@.subrange(base.len() as int, out@.len() as int) =~= Seq::<u8>::empty());
    }
    while j < k
        invariant
            j <= k,
            out@.len() == base.len() + j,
            out@.subrange(0, base.len() as int) == base,
            le_bytes(v as nat, k as nat) == out@.subrange(base.len() as int, out@.len() as int)
                + le_bytes(q as nat, (k - j) as nat),
        decreases k - j,
    {
        let ghost pre = out@;
        let b = (q % 256) as u8;
        out.push(b);
        proof {
            let added = pre.subrange(base.len() as int, pre.len() as int);
            assert(out@.subrange(0, base.len() as int) =~= base);
            assert(out@.subrange(base.len() as int, out@.len() as int) =~= added.push(b));
            assert(le_bytes(q as nat, (k - j) as nat) == seq![b] + le_bytes(
                (q / 256) as nat,
                (k - j - 1) as nat,
            ));
            assert(added + (seq![b] + le_bytes((q / 256) as nat, (k - j - 1) as nat))
                =~= added.push(b) + le_bytes((q / 256) as nat, (k - j - 1) as nat));
        }
        q = q / 256;
        j = j + 1;
    }
    proof {
        assert(le_bytes(q as nat, 0) =~= Seq::<u8>::empty());
        let added = out@.subrange(base.len() as int, out@.len() as int);
        assert(le_bytes(v as nat, k as nat) == added + Seq::<u8>::empty());
        assert(added + Seq::<u8>::empty() =~= added);
        assert(out@ =~= base + added);
    }
}

/// Reads one standard compact-size integer from `buf` starting at `pos`.
pub fn read_compact_size(buf: &Vec<u8>, pos: usize) -> (r: Result<(u64, usize), CodecError>)
    requires
        pos <= buf@.len(),
    ensures
        match r {
            Ok((v, end)) => {
                &&& pos < end <= buf@.len()
                &&& compact_size_read(buf@.skip(pos as int)) == Ok::<(nat, nat), CodecError>(
                    ((v as nat), ((end - pos) as nat)),
                )
            },
            Err(e) => compact_size_read(buf@.skip(pos as int)) == Err::<(nat, nat), CodecError>(e),
        },
{
    let n = buf.len();
    let ghost s = buf@.skip(pos as int);
    if pos == n {
        return Err(CodecError::Truncated);
    }
    let b = buf[pos];
    proof {
        assert(s[0] == buf@[pos as int]);
    }
    if b < 0xFD {
        Ok((b as u64, pos + 1))
    } else if b == 0xFD {
        if n - pos < 3 {
            return Err(CodecError::Truncated);
        }
        let v = read_le(buf, pos + 1, 2);
        proof {
            assert(buf@.subrange((pos + 1) as int, (pos + 3) as int) =~= s.subrange(1, 3));
        }
        if v < 0xFD {
            Err(CodecError::NonMinimal)
        } else {
            Ok((v, pos + 3))
        }
    } else if b == 0xFE {
        if n - pos < 5 {
            return Err(CodecError::Truncated);
        }
        let v = read_le(buf, pos + 1, 4);
        proof {
            assert(buf@.subrange((pos + 1) as int, (pos + 5) as int) =~= s.subrange(1, 5));
        }
        if v <= 0xFFFF {
            Err(CodecError::NonMinimal)
        } else {
            Ok((v, pos + 5))
        }
    } else {
        if n - pos < 9 {
            return Err(CodecError::Truncated);
        }
        let v = read_le(buf, pos + 1, 8);
        proof {
            assert(buf@.subrange((pos + 1) as int, (pos + 9) as int) =~= s.subrange(1, 9));
        }
        if v <= 0xFFFFFFFF {
            Err(CodecError::NonMinimal)
        } else {
            Ok((v, pos + 9))
        }
    }
}

/// Appends the standard compact-size encoding of `n` to `out`.
pub fn write_compact_size(out: &mut Vec<u8>, n: u64)
    ensures
        final(out)@ == old(out)@ + compact_size_bytes(n as nat),
{
    let ghost base = out@;
    if n < 0xFD {
        out.push(n as u8);
        proof {
            assert(out@ =~= base + seq![n as u8]);
        }
    } else if n <= 0xFFFF {
        out.push(0xFD);
        let ghost mid = out@;
        write_le(out, n, 2);
        proof {
            assert(mid =~= base + seq![0xFDu8]);
            assert(base + seq![0xFDu8] + le_bytes(n as nat, 2) =~= base + (seq![0xFDu8] + le_bytes(
                n as nat,
                2,
            )));
        }
    } else if n <= 0xFFFFFFFF {
        out.push(0xFE);
        let ghost mid = out@;
        write_le(out, n, 4);
        proof {
            assert(mid =~= base + seq![0xFEu8]);
            assert(base + seq![0xFEu8] + le_bytes(n as nat, 4) =~= base + (seq![0xFEu8] + le_bytes(
                n as nat,
                4,
            )));
        }
    } else {
        out.push(0xFF);
        let ghost mid = out@;
        write_le(out, n, 8);
        proof {
            assert(mid =~= base + seq![0xFFu8]);
            assert(base + seq![0xFFu8] + le_bytes(n as nat, 8) =~= base + (seq![0xFFu8] + le_bytes(
                n as nat,
                8,
            )));
        }
    }
}

/// Decoding reads back exactly what encoding wrote: the compact-size
/// encoding of `n` at the front of any byte string decodes to `n` and
/// consumes precisely the encoding's bytes.
pub proof fn lemma_compact_size_round_trip(n: nat, rest: Seq<u8>)
    requires
        n <= u64::MAX,
    ensures
        compact_size_read(compact_size_bytes(n) + rest) == Ok::<(nat, nat), CodecError>(
            (n, compact_size_bytes(n).len()),
        ),
{
    let bs = compact_size_bytes(n);
    let s = bs + rest;
    if n < 0xFD {
        assert(s[0] == n as u8);
    } else if n <= 0xFFFF {
        assert(s[0] == 0xFDu8);
        lemma_le_bytes_len(n, 2);
        assert(pow256(2) == 65536) by {
            reveal_with_fuel(pow256, 3);
        }
        lemma_le_round_trip(n, 2);
        assert(s.subrange(1, 3) =~= le_bytes(n, 2));
        assert(bs.len() == 3);
    } else if n <= 0xFFFFFFFF {
        assert(s[0] == 0xFEu8);
        lemma_le_bytes_len(n, 4);
        assert(pow256(4) == 0x100000000) by {
            reveal_with_fuel(pow256, 5);
        }
        lemma_le_round_trip(n, 4);
        assert(s.subrange(1, 5) =~= le_bytes(n, 4));
        assert(bs.len() == 5);
    } else {
        assert(s[0] == 0xFFu8);
        lemma_le_bytes_len(n, 8);
        assert(pow256(8) == 0x10000000000000000) by {
            reveal_with_fuel(pow256, 9);
        }
        lemma_le_round_trip(n, 8);
        assert(s.subrange(1, 9) =~= le_bytes(n, 8));
        assert(bs.len() == 9);
    }
}

} // verus!
