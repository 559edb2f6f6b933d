//! Numbers in photometric files: decimal integer literals, and single-precision
//! floating-point values held as their IEEE 754 binary32 bit patterns.
//!
//! The library does no floating-point arithmetic. A number token is read as a
//! float by the caller (`str::parse::<f32>`), and the library receives what came
//! back as a `FloatReading`: `Some(bits)` where the token is a float literal, with
//! `bits == value.to_bits()`, and `None` where it is not. What the parsers decide
//! from a float (truncation to an integer, comparisons) is defined here on the bits.
use vstd::prelude::*;
use vstd::arithmetic::power2::*;

verus! {

/// What reading a token as an `f32` gave: the IEEE 754 bits of the value, or
/// `None` where the token is no float literal.
pub type FloatReading = Option<u32>;

/// An ASCII decimal digit.
pub open spec fn is_digit(c: char) -> bool {
    48 <= (c as u32) <= 57
}

/// The value of the decimal digits `s`.
pub open spec fn digits_value(s: Seq<char>) -> nat
    decreases s.len(),
{
    if s.len() == 0 {
        0
    } else {
        digits_value(s.drop_last()) * 10 + ((s.last() as u32) - 48) as nat
    }
}

/// Whether every character of `s` is a decimal digit.
pub open spec fn all_digits(s: Seq<char>) -> bool {
    forall|i: int| 0 <= i < s.len() ==> is_digit(#[trigger] s[i])
}

/// The `i32` that `s` denotes as `i32::from_str` reads it: an optional `+` or `-`,
/// then one or more decimal digits, with a value in range; `None` otherwise.
pub open spec fn i32_literal(s: Seq<char>) -> Option<i32> {
    let signed = s.len() > 0 && (s[0] == '-' || s[0] == '+');
    let body = if signed {
        s.drop_first()
    } else {
        s
    };
    let v: int = if signed && s[0] == '-' {
        -digits_value(body)
    } else {
        digits_value(body) as int
    };
    if body.len() == 0 || !all_digits(body) || v < i32::MIN || v > i32::MAX {
        None
    } else {
        Some(v as i32)
    }
}

/// Reads `s` as `i32::from_str` does.
pub fn parse_i32_literal(s: &[char]) -> (r: Option<i32>)
    ensures
        r == i32_literal(s@),
{
    let n = s.len();
    let signed = n > 0 && (s[0] == '-' || s[0] == '+');
    let negative = signed && s[0] == '-';
    let start: usize = if signed {
        1
    } else {
        0
    };
    let ghost body = if signed {
        s@.drop_first()
    } else {
        s@
    };
    assert(body =~= s@.skip(start as int));
    if start == n {
        return None;
    }
    let limit: u64 = 0x8000_0000;
    let mut acc: u64 = 0;
    let mut big = false;
    let mut i = start;
    while i < n
        invariant
            start <= i <= n == s@.len(),
            limit == 0x8000_0000,
            signed == (s@.len() > 0 && (s@[0] == '-' || s@[0] == '+')),
            negative == (signed && s@[0] == '-'),
            body == (if signed {
                s@.drop_first()
            } else {
                s@
            }),
            body == s@.skip(start as int),
            all_digits(body.take(i - start)),
            big ==> digits_value(body.take(i - start)) > limit,
            !big ==> acc == digits_value(body.take(i - start)) && acc <= limit,
        decreases n - i,
    {
        let c = s[i];
        if !((c as u32) >= 48 && (c as u32) <= 57) {
            assert(body[i - start] == c);
            assert(!is_digit(body[i - start]));
            assert(!all_digits(body));
            return None;
        }
        let d = (c as u32 - 48) as u64;
        let ghost pre = body.take(i - start);
        let ghost post = body.take(i - start + 1);
        assert(post.drop_last() =~= pre);
        assert(post.last() == c);
        assert(digits_value(post) == digits_value(pre) * 10 + d);
        if !big {
            let next = acc * 10 + d;
            if next > limit {
                big = true;
            } else {
                acc = next;
            }
        }
        i += 1;
        assert forall|j: int| 0 <= j < post.len() implies is_digit(#[trigger] post[j]) by {
            if j < pre.len() {
                assert(post[j] == pre[j]);
            }
        }
    }
    assert(body.take(n - start) =~= body);
    if big {
        return None;
    }
    if negative {
        Some((0 - acc as i64) as i32)
    } else if acc > 0x7fff_ffff {
        None
    } else {
        Some(acc as i32)
    }
}

/// Whether the sign bit of the binary32 pattern `b` is set.
pub open spec fn f32_sign_set(b: u32) -> bool {
    b >= 0x8000_0000
}

/// The biased exponent field of the binary32 pattern `b` (0 to 255).
pub open spec fn f32_exponent(b: u32) -> int {
    (b % 0x8000_0000) as int / 0x80_0000
}

/// The fraction field of the binary32 pattern `b`.
pub open spec fn f32_fraction(b: u32) -> int {
    b as int % 0x80_0000
}

/// Whether `b` is a NaN.
pub open spec fn f32_is_nan(b: u32) -> bool {
    f32_exponent(b) == 255 && f32_fraction(b) != 0
}

/// The significand of `b`: the fraction, with the implicit leading one unless `b` is
/// subnormal or zero.
pub open spec fn f32_significand(b: u32) -> nat {
    if f32_exponent(b) == 0 {
        f32_fraction(b) as nat
    } else {
        (f32_fraction(b) + 0x80_0000) as nat
    }
}

/// The magnitude of the value of a non-NaN `b`, truncated toward zero: the
/// significand times 2 to the power of the exponent less 150 (the exponent taken
/// as 1 for subnormals). Infinity gives a number beyond every `i32`.
pub open spec fn f32_trunc_magnitude(b: u32) -> nat {
    let e = f32_exponent(b);
    if e >= 150 {
        f32_significand(b) * pow2((e - 150) as nat)
    } else {
        f32_significand(b) / pow2((150 - if e == 0 {
            1
        } else {
            e
        }) as nat)
    }
}

/// The value of `value as i32` for the `f32` whose bits are `b`: truncation toward
/// zero, saturating at the bounds of `i32`, with NaN giving 0.
pub open spec fn f32_to_i32(b: u32) -> i32 {
    if f32_is_nan(b) {
        0
    } else {
        let t = f32_trunc_magnitude(b);
        if f32_sign_set(b) {
            if t >= 0x8000_0000 {
                i32::MIN
            } else {
                (-t) as i32
            }
        } else {
            if t > 0x7fff_ffff {
                i32::MAX
            } else {
                t as i32
            }
        }
    }
}

/// Computes `value as i32` for the `f32` whose bits are `b`.
pub fn f32_bits_to_i32(b: u32) -> (r: i32)
    ensures
        r == f32_to_i32(b),
{
    let e: u32 = (b % 0x8000_0000) / 0x80_0000;
    let frac: u32 = b % 0x80_0000;
    assert(e == f32_exponent(b));
    if e == 255 && frac != 0 {
        return 0;
    }
    let sig: u64 = if e == 0 {
        frac as u64
    } else {
        frac as u64 + 0x80_0000
    };
    assert(sig == f32_significand(b));
    assert(sig < 0x100_0000);
    let t: u64;
    if e >= 158 {
        proof {
            if e > 158 {
                lemma_pow2_strictly_increases(8, (e - 150) as nat);
            }
            lemma2_to64();
            let p = pow2((e - 150) as nat);
            assert(sig * p >= 0x80_0000 * 256) by (nonlinear_arith)
                requires
                    sig >= 0x80_0000,
                    p >= 256,
            ;
            assert(f32_trunc_magnitude(b) == sig * p);
        }
        t = 0x8000_0000;
    } else if e >= 150 {
        let k = e - 150;
        let mut p: u64 = 1;
        let mut j: u32 = 0;
        proof {
            lemma2_to64();
        }
        while j < k
            invariant
                j <= k <= 7,
                p == pow2(j as nat),
                p <= 128,
            decreases k - j,
        {
            proof {
                lemma_pow2_unfold((j + 1) as nat);
                lemma_pow2_strictly_increases((j + 1) as nat, 8);
                lemma2_to64();
            }
            p = p * 2;
            j += 1;
        }
        proof {
            assert(sig * p < 0x100_0000 * 128) by (nonlinear_arith)
                requires
                    sig < 0x100_0000,
                    p <= 128,
            ;
        }
        t = sig * p;
        assert(t == f32_trunc_magnitude(b));
    } else {
        let low: u32 = if e == 0 {
            1
        } else {
            e
        };
        let shift: u32 = 150 - low;
        if shift >= 25 {
            proof {
                lemma_pow2_strictly_increases(24, shift as nat);
                lemma2_to64();
                let p = pow2(shift as nat);
                assert(sig < p);
                assert((sig as nat) / p == 0) by (nonlinear_arith)
                    requires
                        sig < p,
                        p > 0,
                ;
                assert(f32_trunc_magnitude(b) == (sig as nat) / p);
            }
            t = 0;
        } else {
            let mut p: u64 = 1;
            let mut j: u32 = 0;
            proof {
                lemma2_to64();
            }
            while j < shift
                invariant
                    j <= shift <= 24,
                    p == pow2(j as nat),
                    p <= 0x100_0000,
                decreases shift - j,
            {
                proof {
                    lemma_pow2_unfold((j + 1) as nat);
                    if j + 1 < 24 {
                        lemma_pow2_strictly_increases((j + 1) as nat, 24);
                    }
                    lemma2_to64();
                }
                p = p * 2;
                j += 1;
            }
            t = sig / p;
            assert(t == f32_trunc_magnitude(b));
        }
    }
    assert(t == f32_trunc_magnitude(b) || (t == 0x8000_0000 && f32_trunc_magnitude(b) >= t));
    if b >= 0x8000_0000 {
        if t >= 0x8000_0000 {
            i32::MIN
        } else {
            (0 - t as i64) as i32
        }
    } else {
        if t > 0x7fff_ffff {
            i32::MAX
        } else {
            t as i32
        }
    }
}

/// A key that orders the non-NaN binary32 patterns as their values are ordered,
/// with both zeros equal.
pub open spec fn f32_order_key(b: u32) -> int {
    if f32_sign_set(b) {
        0x8000_0000 - b
    } else {
        b as int
    }
}

/// `a <= b` for the `f32` values whose bits are `a` and `b` (false where either is NaN).
pub open spec fn f32_le(a: u32, b: u32) -> bool {
    !f32_is_nan(a) && !f32_is_nan(b) && f32_order_key(a) <= f32_order_key(b)
}

/// Whether `b` is a NaN.
pub fn f32_bits_is_nan(b: u32) -> (r: bool)
    ensures
        r == f32_is_nan(b),
{
    let e: u32 = (b % 0x8000_0000) / 0x80_0000;
    let frac: u32 = b % 0x80_0000;
    e == 255 && frac != 0
}

/// Computes `a <= b` for the `f32` values whose bits are `a` and `b`.
pub fn f32_bits_le(a: u32, b: u32) -> (r: bool)
    ensures
        r == f32_le(a, b),
{
    if f32_bits_is_nan(a) || f32_bits_is_nan(b) {
        return false;
    }
    let ka: i64 = if a >= 0x8000_0000 {
        0x8000_0000i64 - a as i64
    } else {
        a as i64
    };
    let kb: i64 = if b >= 0x8000_0000 {
        0x8000_0000i64 - b as i64
    } else {
        b as i64
    };
    ka <= kb
}

} // verus!
