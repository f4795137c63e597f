//! Numbers as IEEE 754 binary64 bit patterns, and the two conversions
//! between them and integers.
//!
//! A pattern holds, from the top, one sign bit, eleven exponent bits and
//! fifty-two fraction bits. Nothing here uses floating-point arithmetic.

use vstd::arithmetic::power2::{
    lemma2_to64, lemma2_to64_rest, lemma_pow2_adds, lemma_pow2_pos, lemma_pow2_strictly_increases,
    lemma_pow2_unfold, pow2,
};
use vstd::bits::{lemma_u64_shl_is_mul, lemma_u64_shr_is_div};
use vstd::prelude::*;

verus! {

/// The pattern of positive zero.
pub const ZERO: u64 = 0;

/// Two to the power fifty-two: the weight of the exponent field, and the
/// hidden top bit of a normal number's significand.
pub open spec fn hidden() -> int {
    0x10_0000_0000_0000
}

/// The sign bit.
pub open spec fn negative(bits: u64) -> bool {
    bits >= 0x8000_0000_0000_0000
}

/// The exponent field, from 0 to 2047.
pub open spec fn exponent(bits: u64) -> int {
    (bits as int / hidden()) % 0x800
}

/// The fraction field.
pub open spec fn fraction(bits: u64) -> int {
    bits as int % hidden()
}

/// True when the pattern is a NaN.
pub open spec fn is_nan(bits: u64) -> bool {
    exponent(bits) == 0x7ff && fraction(bits) != 0
}

/// The whole part of the magnitude of a number that is no NaN: the
/// significand shifted by the exponent, fraction bits dropped. For an
/// infinity it is larger than every 64-bit integer.
pub open spec fn whole(bits: u64) -> int {
    let e = exponent(bits);
    let m = fraction(bits) + hidden();
    if e < 1023 {
        0
    } else if e <= 1075 {
        m / (pow2((1075 - e) as nat) as int)
    } else {
        m * pow2((e - 1075) as nat)
    }
}

/// The number as a 64-bit integer: rounded toward zero, held to the
/// integer range where it lies beyond it, and zero for a NaN.
pub open spec fn truncated(bits: u64) -> int {
    if is_nan(bits) {
        0
    } else if negative(bits) {
        if whole(bits) >= 0x8000_0000_0000_0000 {
            i64::MIN as int
        } else {
            -whole(bits)
        }
    } else {
        if whole(bits) >= 0x8000_0000_0000_0000 {
            i64::MAX as int
        } else {
            whole(bits)
        }
    }
}

/// The fields of a pattern, by shifts and masks.
proof fn lemma_fields(bits: u64)
    ensures
        (bits >> 63 == 1) == negative(bits),
        ((bits >> 52) & 0x7ff) as int == exponent(bits),
        (bits & 0xf_ffff_ffff_ffff) as int == fraction(bits),
        0 <= exponent(bits) < 0x800,
        0 <= fraction(bits) < hidden(),
{
    assert((bits >> 63 == 1) == (bits >= 0x8000_0000_0000_0000)) by (bit_vector);
    assert((bits >> 52) & 0x7ff == (bits / 0x10_0000_0000_0000) % 0x800) by (bit_vector);
    assert(bits & 0xf_ffff_ffff_ffff == bits % 0x10_0000_0000_0000) by (bit_vector);
}

/// Converts a number to an integer as a cast does: toward zero, saturating,
/// and zero for a NaN.
pub fn truncate(bits: u64) -> (r: i64)
    ensures
        r == truncated(bits),
{
    proof {
        lemma_fields(bits);
        lemma2_to64();
    }
    let minus = bits >> 63 == 1;
    let e = (bits >> 52) & 0x7ff;
    let f = bits & 0xf_ffff_ffff_ffff;
    if e == 0x7ff && f != 0 {
        return 0;
    }
    if e < 1023 {
        return 0;
    }
    let m: u64 = f + 0x10_0000_0000_0000;
    if e >= 1086 {
        proof {
            let k = (e - 1075) as nat;
            if k > 11 {
                lemma_pow2_strictly_increases(11, k);
            }
            assert(m * pow2(k) >= 0x8000_0000_0000_0000) by (nonlinear_arith)
                requires
                    m >= 0x10_0000_0000_0000,
                    pow2(k) >= 2048,
            ;
        }
        return if minus {
            i64::MIN
        } else {
            i64::MAX
        };
    }
    let w: u64 = if e <= 1075 {
        let k = 1075 - e;
        proof {
            lemma_u64_shr_is_div(m, k);
        }
        m >> k
    } else {
        let k = e - 1075;
        proof {
            if k < 10 {
                lemma_pow2_strictly_increases(k as nat, 10);
            }
            assert(m * pow2(k as nat) < 0x8000_0000_0000_0000) by (nonlinear_arith)
                requires
                    m < 0x20_0000_0000_0000,
                    pow2(k as nat) <= 1024,
            ;
            lemma_u64_shl_is_mul(m, k);
        }
        m << k
    };
    assert(w == whole(bits));
    assert(w < 0x8000_0000_0000_0000) by {
        if e <= 1075 {
            let d = pow2((1075 - e) as nat) as int;
            let n = m as int;
            lemma_pow2_pos((1075 - e) as nat);
            assert(n / d <= n) by (nonlinear_arith)
                requires
                    n >= 0,
                    d > 0,
            ;
        }
    }
    if minus {
        -(w as i64)
    } else {
        w as i64
    }
}

/// The number of bits of `n`: the least `k` with `n` below two to the `k`.
pub open spec fn bit_length(n: nat) -> nat
    decreases n,
{
    if n == 0 {
        0
    } else {
        1 + bit_length(n / 2)
    }
}

/// `n` rounded to the nearest integer of at most 53 significant bits; of
/// two that are equally near, the one whose last kept bit is zero.
pub open spec fn rounded(n: nat) -> nat {
    let k = bit_length(n);
    if k <= 53 {
        n
    } else {
        let unit = pow2((k - 53) as nat);
        let q = n / unit;
        let rest = n % unit;
        if 2 * rest > unit || (2 * rest == unit && q % 2 == 1) {
            (q + 1) * unit
        } else {
            q * unit
        }
    }
}

/// The pattern of the number `v`, negated if `minus`, for a `v` above zero
/// of at most 53 significant bits: its significand is `v` shifted until it
/// has exactly 53 bits, its exponent field says by how much.
pub open spec fn pattern(minus: bool, v: nat) -> int {
    let k = bit_length(v);
    let m = if k <= 53 {
        v * pow2((53 - k) as nat)
    } else {
        v / pow2((k - 53) as nat)
    };
    (if minus {
        0x8000_0000_0000_0000int
    } else {
        0int
    }) + (1022 + k) * hidden() + (m - hidden())
}

/// The pattern of the number nearest to the integer `i`.
pub open spec fn encoded(i: int) -> int {
    if i == 0 {
        0
    } else if i < 0 {
        pattern(true, rounded((-i) as nat))
    } else {
        pattern(false, rounded(i as nat))
    }
}

/// A number above zero lies between the two powers of two that its
/// number of bits names.
pub proof fn lemma_bit_length(n: nat)
    requires
        n > 0,
    ensures
        bit_length(n) >= 1,
        pow2((bit_length(n) - 1) as nat) <= n < pow2(bit_length(n)),
    decreases n,
{
    lemma2_to64();
    if n >= 2 {
        lemma_bit_length(n / 2);
        lemma_pow2_unfold(bit_length(n));
        lemma_pow2_unfold((bit_length(n) - 1) as nat);
    } else {
        assert(bit_length(0) == 0);
        assert(bit_length(1) == 1);
    }
}

/// A number between two neighbouring powers of two has the number of bits
/// of the upper one.
pub proof fn lemma_bit_length_is(n: nat, k: nat)
    requires
        k >= 1,
        pow2((k - 1) as nat) <= n < pow2(k),
    ensures
        bit_length(n) == k,
{
    lemma_pow2_pos((k - 1) as nat);
    lemma_bit_length(n);
    let b = bit_length(n);
    if b < k {
        if b < k - 1 {
            lemma_pow2_strictly_increases(b, (k - 1) as nat);
        }
    } else if b > k {
        if k < b - 1 {
            lemma_pow2_strictly_increases(k, (b - 1) as nat);
        }
    }
}

/// The number of bits of `a`.
fn length(a: u64) -> (k: u32)
    ensures
        k == bit_length(a as nat),
        k <= 64,
{
    let mut k: u32 = 0;
    let mut t: u64 = a;
    proof {
        lemma2_to64();
        if a > 0 {
            lemma_bit_length(a as nat);
            if bit_length(a as nat) > 64 {
                lemma_pow2_strictly_increases(64, (bit_length(a as nat) - 1) as nat);
            }
        }
    }
    while t > 0
        invariant
            bit_length(a as nat) == k + bit_length(t as nat),
            bit_length(a as nat) <= 64,
        decreases t,
    {
        t = t / 2;
        k = k + 1;
    }
    k
}

/// Puts a pattern together from its sign, the number of bits `k` of the
/// value and its 53-bit significand `m`.
fn pack(minus: bool, k: u32, m: u64) -> (r: u64)
    requires
        k <= 65,
        hidden() <= m < 2 * hidden(),
    ensures
        r == (if minus {
            0x8000_0000_0000_0000int
        } else {
            0int
        }) + (1022 + k) * hidden() + (m - hidden()),
{
    let e: u64 = 1022 + k as u64;
    assert(e * 0x10_0000_0000_0000 <= 1087 * 0x10_0000_0000_0000) by (nonlinear_arith)
        requires
            e <= 1087,
    ;
    let low: u64 = e * 0x10_0000_0000_0000 + (m - 0x10_0000_0000_0000);
    if minus {
        low + 0x8000_0000_0000_0000
    } else {
        low
    }
}

/// Converts an integer to the nearest number, as a cast does.
pub fn from_int(i: i64) -> (r: u64)
    ensures
        r == encoded(i as int),
{
    if i == 0 {
        return 0;
    }
    let minus = i < 0;
    let a: u64 = if i == i64::MIN {
        0x8000_0000_0000_0000
    } else if minus {
        (-i) as u64
    } else {
        i as u64
    };
    let ghost n = a as nat;
    let k = length(a);
    proof {
        lemma2_to64();
        lemma2_to64_rest();
        lemma_bit_length(n);
    }
    if k <= 53 {
        let s = 53 - k;
        proof {
            lemma_pow2_adds((k - 1) as nat, s as nat);
            lemma_pow2_adds(k as nat, s as nat);
            lemma_pow2_pos(s as nat);
            assert(n * pow2(s as nat) < pow2(53) && n * pow2(s as nat) >= pow2(52))
                by (nonlinear_arith)
                requires
                    pow2((k - 1) as nat) <= n < pow2(k as nat),
                    pow2((k - 1) as nat) * pow2(s as nat) == pow2(52),
                    pow2(k as nat) * pow2(s as nat) == pow2(53),
                    pow2(s as nat) > 0,
            ;
            lemma_u64_shl_is_mul(a, s as u64);
        }
        let m = a << (s as u64);
        pack(minus, k, m)
    } else {
        let s = k - 53;
        proof {
            lemma_pow2_adds(52, s as nat);
            lemma_pow2_adds(53, s as nat);
            lemma_pow2_pos(s as nat);
            if s < 11 {
                lemma_pow2_strictly_increases(s as nat, 11);
            }
            lemma_u64_shl_is_mul(1, s as u64);
        }
        let unit: u64 = 1u64 << (s as u64);
        let q = a / unit;
        let rest = a % unit;
        let ghost u = unit as nat;
        assert(u == pow2(s as nat));
        assert(pow2(52) <= q < pow2(53)) by (nonlinear_arith)
            requires
                q == n / u,
                u > 0,
                pow2(52) * u <= n < pow2(53) * u,
        ;
        let up = 2 * rest > unit || (2 * rest == unit && q % 2 == 1);
        let q2 = if up {
            q + 1
        } else {
            q
        };
        let ghost v = (q2 * unit) as nat;
        assert(v == rounded(n));
        if q2 == 0x20_0000_0000_0000 {
            proof {
                lemma_pow2_adds(53, s as nat);
                lemma_pow2_unfold((k + 1) as nat);
                lemma_bit_length_is(v, (k + 1) as nat);
                lemma_pow2_unfold((s + 1) as nat);
                assert(v / (2 * u) == 0x10_0000_0000_0000) by (nonlinear_arith)
                    requires
                        v == 0x20_0000_0000_0000 * u,
                        u > 0,
                ;
            }
            pack(minus, k + 1, 0x10_0000_0000_0000)
        } else {
            proof {
                assert(pow2(52) * u <= q2 * u < pow2(53) * u) by (nonlinear_arith)
                    requires
                        pow2(52) <= q2 < pow2(53),
                        u > 0,
                ;
                lemma_bit_length_is(v, k as nat);
                assert(v / u == q2) by (nonlinear_arith)
                    requires
                        v == q2 * u,
                        u > 0,
                ;
            }
            pack(minus, k, q2)
        }
    }
}

/// An integer of at most 53 bits goes to a number and back unchanged.
pub proof fn lemma_exact(i: int)
    requires
        -0x20_0000_0000_0000 < i < 0x20_0000_0000_0000,
    ensures
        0 <= encoded(i) <= u64::MAX,
        truncated(encoded(i) as u64) == i,
{
    lemma2_to64();
    lemma2_to64_rest();
    if i != 0 {
        let v: nat = if i < 0 {
            (-i) as nat
        } else {
            i as nat
        };
        lemma_bit_length(v);
        let k = bit_length(v);
        if k > 53 {
            lemma_pow2_strictly_increases(53, (k - 1) as nat);
        }
        assert(rounded(v) == v);
        let up = pow2((53 - k) as nat) as int;
        let m = v * up;
        lemma_pow2_pos((53 - k) as nat);
        lemma_pow2_adds((k - 1) as nat, (53 - k) as nat);
        lemma_pow2_adds(k, (53 - k) as nat);
        assert(hidden() <= m < 2 * hidden()) by (nonlinear_arith)
            requires
                m == v * up,
                pow2((k - 1) as nat) <= v < pow2(k),
                pow2((k - 1) as nat) * up == hidden(),
                pow2(k) * up == 2 * hidden(),
                up > 0,
        ;
        let sign: int = if i < 0 {
            0x8000_0000_0000_0000
        } else {
            0
        };
        let e = 1022 + k;
        let bits = sign + e * hidden() + (m - hidden());
        assert(bits == encoded(i));
        assert(0 <= bits <= u64::MAX && bits / hidden() == (if i < 0 {
            2048int
        } else {
            0int
        }) + e && bits % hidden() == m - hidden()) by (nonlinear_arith)
            requires
                bits == sign + e * hidden() + (m - hidden()),
                sign == (if i < 0 {
                    0x8000_0000_0000_0000int
                } else {
                    0int
                }),
                hidden() == 0x10_0000_0000_0000,
                hidden() <= m < 2 * hidden(),
                1023 <= e <= 1075,
        ;
        let b = bits as u64;
        assert(exponent(b) == e);
        assert(fraction(b) == m - hidden());
        assert(negative(b) == (i < 0));
        assert(1075 - e == 53 - k);
        assert(m / up == v) by (nonlinear_arith)
            requires
                m == v * up,
                up > 0,
        ;
        assert(whole(b) == v);
    }
}

} // verus!
