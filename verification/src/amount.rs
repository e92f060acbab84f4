//! The amount compression scheme: a digit/exponent packing of satoshi
//! amounts that favours round decimal values, and its exact inverse.

use vstd::prelude::*;

use vstd::arithmetic::div_mod::{
    lemma_fundamental_div_mod, lemma_fundamental_div_mod_converse,
};
use vstd::arithmetic::mul::lemma_mul_inequality;

use crate::CodecError;

verus! {

/// `10^e` over the naturals.
pub open spec fn pow10(e: nat) -> nat
    decreases e,
{
    if e == 0 {
        1
    } else {
        10 * pow10((e - 1) as nat)
    }
}

proof fn lemma_pow10_pos(e: nat)
    ensures
        pow10(e) >= 1,
    decreases e,
{
    if e > 0 {
        lemma_pow10_pos((e - 1) as nat);
    }
}

proof fn lemma_pow10_mono(a: nat, b: nat)
    requires
        a <= b,
    ensures
        pow10(a) <= pow10(b),
    decreases b,
{
    if a < b {
        lemma_pow10_mono(a, (b - 1) as nat);
        lemma_pow10_pos((b - 1) as nat);
    }
}

/// The satoshi amount that the packed integer `c` stands for.
///
/// A non-zero packed value is `1 + 10 * rest + e` where `e` is a decimal
/// exponent; `rest` holds either the leading digits together with the last
/// non-zero digit (when `e < 9`) or the full leading digits (when `e == 9`).
pub open spec fn decompress_amount(c: nat) -> nat {
    if c == 0 {
        0
    } else {
        let x = (c - 1) as nat;
        let e = x % 10;
        let v = x / 10;
        if e < 9 {
            ((v / 9) * 10 + v % 9 + 1) * pow10(e)
        } else {
            (v + 1) * pow10(9)
        }
    }
}

/// Compression of a positive amount `n * 10^e` whose trailing-zero count
/// below `e` has already been stripped: strips further factors of ten (at
/// most `9 - e` of them), then packs digits and exponent.
pub open spec fn compress_pos(n: nat, e: nat) -> nat
    recommends
        n > 0,
        e <= 9,
    decreases 9 - e,
{
    if e < 9 && n % 10 == 0 {
        compress_pos(n / 10, e + 1)
    } else if e < 9 {
        (1 + ((n / 10) * 9 + (n % 10 - 1)) * 10 + e) as nat
    } else {
        (1 + (n - 1) * 10 + 9) as nat
    }
}

/// The packed integer that stands for the satoshi amount `a`: the exact
/// inverse of [`decompress_amount`].
pub open spec fn compress_amount(a: nat) -> nat {
    if a == 0 {
        0
    } else {
        compress_pos(a, 0)
    }
}

/// `10^e` as a machine integer; the codec only ever needs exponents up to 9.
fn pow10_u64(e: u64) -> (r: u64)
    requires
        e <= 9,
    ensures
        r == pow10(e as nat),
{
    let mut r: u64 = 1;
    let mut i: u64 = 0;
    while i < e
        invariant
            i <= e <= 9,
            r == pow10(i as nat),
        decreases e - i,
    {
        proof {
            lemma_pow10_mono(i as nat, 8);
            reveal_with_fuel(pow10, 10);
        }
        r = r * 10;
        i = i + 1;
    }
    r
}

/// `q == x / d` and `r == x % d`, stated once so the decomposition proofs
/// below stay short.
proof fn lemma_div_mod_parts(x: nat, d: nat, q: nat, r: nat)
    requires
        d > 0,
        r < d,
        x == q * d + r,
    ensures
        q == x / d,
        r == x % d,
{
    lemma_fundamental_div_mod_converse(x as int, d as int, q as int, r as int);
}

/// Decompresses a packed amount integer back to a satoshi count.
///
/// Fails only when the decompressed amount would not fit 64 bits, which no
/// conformant encoder produces.
pub fn decompress_txout_amt(value_compressed: u64) -> (r: Result<u64, CodecError>)
    ensures
        match r {
            Ok(a) => a == decompress_amount(value_compressed as nat),
            Err(e) => {
                &&& e == CodecError::Overflow
                &&& decompress_amount(value_compressed as nat) > u64::MAX
            },
        },
{
    if value_compressed == 0 {
        return Ok(0);
    }
    let x = value_compressed - 1;
    let exponent = x % 10;
    let v = x / 10;
    let n: u64;
    if exponent < 9 {
        let last_digit = v % 9 + 1;
        proof {
            assert((v / 9) * 10 + 9 <= u64::MAX) by (nonlinear_arith)
                requires
                    v <= u64::MAX / 10,
                    v / 9 <= v,
            ;
        }
        n = (v / 9) * 10 + last_digit;
    } else {
        n = v + 1;
    }
    let p = pow10_u64(exponent);
    proof {
        lemma_pow10_pos(exponent as nat);
    }
    if n <= u64::MAX / p {
        proof {
            lemma_mul_inequality(n as int, (u64::MAX / p) as int, p as int);
            lemma_fundamental_div_mod(u64::MAX as int, p as int);
        }
        Ok(n * p)
    } else {
        proof {
            // n > u64::MAX / p, so n * p exceeds u64::MAX.
            lemma_fundamental_div_mod(u64::MAX as int, p as int);
            let q = u64::MAX as int / p as int;
            let rem = u64::MAX as int % p as int;
            assert(n as int * p as int > u64::MAX as int) by (nonlinear_arith)
                requires
                    n as int > q,
                    p as int >= 1,
                    u64::MAX as int == p as int * q + rem,
                    rem < p as int,
            ;
        }
        Err(CodecError::Overflow)
    }
}

/// Compresses a satoshi amount to its packed integer, the exact inverse of
/// [`decompress_txout_amt`].
///
/// Fails only when the packed integer would not fit 64 bits, which can
/// happen for large amounts ending in a non-zero digit.
pub fn compress_txout_amt(amount: u64) -> (r: Result<u64, CodecError>)
    ensures
        match r {
            Ok(c) => c == compress_amount(amount as nat),
            Err(e) => {
                &&& e == CodecError::Overflow
                &&& compress_amount(amount as nat) > u64::MAX
            },
        },
{
    if amount == 0 {
        return Ok(0);
    }
    let mut n: u64 = amount;
    let mut e: u64 = 0;
    proof {
        assert(pow10(0) == 1);
        assert(amount as nat * 1 == amount as nat);
    }
    while n % 10 == 0 && e < 9
        invariant
            n >= 1,
            e <= 9,
            amount as nat == n as nat * pow10(e as nat),
            compress_pos(n as nat, e as nat) == compress_amount(amount as nat),
        decreases 9 - e,
    {
        proof {
            lemma_fundamental_div_mod(n as int, 10);
            assert((n / 10) as nat * pow10((e + 1) as nat) == n as nat * pow10(e as nat))
                by (nonlinear_arith)
                requires
                    n as int == 10 * (n as int / 10),
                    pow10((e + 1) as nat) == 10 * pow10(e as nat),
            ;
        }
        n = n / 10;
        e = e + 1;
    }
    if e < 9 {
        // The last digit of n is now 1..=9.
        let d = n % 10;
        proof {
            assert((n / 10) * 9 + 9 <= u64::MAX) by (nonlinear_arith)
                requires
                    n as int / 10 <= u64::MAX as int / 10,
            ;
        }
        let t = (n / 10) * 9 + (d - 1);
        let bound = (u64::MAX - 1 - e) / 10;
        if t <= bound {
            proof {
                lemma_mul_inequality(t as int, bound as int, 10);
                lemma_fundamental_div_mod((u64::MAX - 1 - e) as int, 10);
            }
            Ok(1 + t * 10 + e)
        } else {
            proof {
                lemma_fundamental_div_mod((u64::MAX - 1 - e) as int, 10);
                let q = (u64::MAX - 1 - e) as int / 10;
                let rem = (u64::MAX - 1 - e) as int % 10;
                assert(t as int * 10 > (u64::MAX - 1 - e) as int) by (nonlinear_arith)
                    requires
                        t as int > q,
                        (u64::MAX - 1 - e) as int == 10 * q + rem,
                        rem < 10,
                ;
            }
            Err(CodecError::Overflow)
        }
    } else {
        // amount == n * 10^9 fits 64 bits, so n is small and the packed
        // value cannot overflow.
        proof {
            reveal_with_fuel(pow10, 10);
            assert(n <= 18446744073) by (nonlinear_arith)
                requires
                    n as nat * 1000000000nat <= u64::MAX as nat,
            ;
        }
        Ok(1 + (n - 1) * 10 + 9)
    }
}

/// Decompressing `compress_pos(n, e)` gives back `n * 10^e`.
proof fn lemma_decompress_compress_pos(n: nat, e: nat)
    requires
        n > 0,
        e <= 9,
    ensures
        decompress_amount(compress_pos(n, e)) == n * pow10(e),
    decreases 9 - e,
{
    if e < 9 && n % 10 == 0 {
        lemma_decompress_compress_pos(n / 10, e + 1);
        lemma_fundamental_div_mod(n as int, 10);
        assert((n / 10) * pow10(e + 1) == n * pow10(e)) by (nonlinear_arith)
            requires
                n as int == 10 * (n as int / 10),
                pow10(e + 1) == 10 * pow10(e),
        ;
    } else if e < 9 {
        let d = n % 10;
        let w = (n / 10) * 9 + (d - 1) as nat;
        let c = (1 + w * 10 + e) as nat;
        assert(compress_pos(n, e) == c);
        lemma_div_mod_parts((c - 1) as nat, 10, w, e);
        lemma_div_mod_parts(w, 9, n / 10, (d - 1) as nat);
        lemma_fundamental_div_mod(n as int, 10);
        assert(decompress_amount(c) == ((w / 9) * 10 + w % 9 + 1) * pow10(e));
        assert((w / 9) * 10 + w % 9 + 1 == n);
    } else {
        let c = (1 + (n - 1) * 10 + 9) as nat;
        assert(compress_pos(n, e) == c);
        lemma_div_mod_parts((c - 1) as nat, 10, (n - 1) as nat, 9);
        assert(decompress_amount(c) == n * pow10(9));
    }
}

/// Amount compression loses nothing: decompressing the packed form of any
/// amount gives the amount back.
pub proof fn lemma_decompress_of_compress(a: nat)
    ensures
        decompress_amount(compress_amount(a)) == a,
{
    if a > 0 {
        lemma_decompress_compress_pos(a, 0);
        assert(pow10(0) == 1);
        assert(a * 1 == a);
    }
}

/// Stripping `k` factors of ten one at a time reaches `compress_pos(n, e + k)`.
proof fn lemma_compress_pos_strip(n: nat, e: nat, k: nat)
    requires
        n > 0,
        e + k <= 9,
        n % 10 != 0 || e + k == 9,
    ensures
        compress_pos(n * pow10(k), e) == compress_pos(n, e + k),
    decreases k,
{
    if k == 0 {
        assert(pow10(0) == 1);
        assert(n * 1 == n);
    } else {
        let m = n * pow10(k);
        lemma_pow10_pos((k - 1) as nat);
        assert(m == (n * pow10((k - 1) as nat)) * 10 && m % 10 == 0 && m / 10 == n * pow10(
            (k - 1) as nat,
        )) by (nonlinear_arith)
            requires
                pow10(k) == 10 * pow10((k - 1) as nat),
                m == n * pow10(k),
        ;
        assert(m > 0) by (nonlinear_arith)
            requires
                n > 0,
                pow10(k) > 0,
                m == n * pow10(k),
        ;
        assert(compress_pos(m, e) == compress_pos(m / 10, e + 1));
        lemma_compress_pos_strip(n, e + 1, (k - 1) as nat);
    }
}

/// Amount decompression is canonical: compressing the amount that any packed
/// integer stands for gives that packed integer back.
pub proof fn lemma_compress_of_decompress(c: nat)
    ensures
        compress_amount(decompress_amount(c)) == c,
{
    if c > 0 {
        let x = (c - 1) as nat;
        let e = x % 10;
        let v = x / 10;
        lemma_fundamental_div_mod(x as int, 10);
        if e < 9 {
            let d = (v % 9 + 1) as nat;
            let n = ((v / 9) * 10 + d) as nat;
            lemma_fundamental_div_mod(v as int, 9);
            lemma_div_mod_parts(n, 10, v / 9, d);
            lemma_pow10_pos(e);
            assert(n * pow10(e) > 0) by (nonlinear_arith)
                requires
                    n > 0,
                    pow10(e) > 0,
            ;
            assert(decompress_amount(c) == n * pow10(e));
            lemma_compress_pos_strip(n, 0, e);
            assert(compress_pos(n, e) == (1 + ((n / 10) * 9 + (n % 10 - 1)) * 10 + e) as nat);
            assert((n / 10) * 9 + (n % 10 - 1) as nat == v);
        } else {
            let n = (v + 1) as nat;
            lemma_pow10_pos(9);
            assert(n * pow10(9) > 0) by (nonlinear_arith)
                requires
                    n > 0,
                    pow10(9) > 0,
            ;
            assert(decompress_amount(c) == n * pow10(9));
            lemma_compress_pos_strip(n, 0, 9);
            assert(compress_pos(n, 9) == (1 + (n - 1) * 10 + 9) as nat);
        }
    }
}

} // verus!
