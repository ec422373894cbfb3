//! IEEE 754 numbers held by their bit patterns.
//!
//! Coordinates arrive as binary64 and bounding boxes are stored as binary32.
//! Everything the index asks of them (comparison, widening, the floor of a
//! multiple) is a question about integers: every finite binary64 value is a
//! whole multiple of the smallest subnormal, two to the power of -1074. A
//! value is modelled by that multiple.

use vstd::arithmetic::div_mod::lemma_fundamental_div_mod_converse;
use vstd::arithmetic::power2::{
    lemma2_to64, lemma2_to64_rest, lemma_pow2_adds, lemma_pow2_pos, lemma_pow2_strictly_increases,
    lemma_pow2_unfold, pow2,
};
use vstd::prelude::*;

verus! {

/// A number as the standard orders it. `Finite(n)` stands for `n` smallest
/// subnormals of binary64, so that one is `Finite(unit())`.
pub enum Number {
    Nan,
    NegInf,
    Finite(int),
    PosInf,
}

/// How many smallest subnormals make up one.
pub open spec fn unit() -> int {
    pow2(1074) as int
}

/// The whole number `n` as a [`Number`].
pub open spec fn whole(n: int) -> Number {
    Number::Finite(n * unit())
}

/// `a <= b`; false whenever one of them is not a number.
pub open spec fn number_le(a: Number, b: Number) -> bool {
    match (a, b) {
        (Number::Nan, _) => false,
        (_, Number::Nan) => false,
        (Number::NegInf, _) => true,
        (_, Number::PosInf) => true,
        (Number::Finite(x), Number::Finite(y)) => x <= y,
        _ => false,
    }
}

/// `a < b`; false whenever one of them is not a number.
pub open spec fn number_lt(a: Number, b: Number) -> bool {
    number_le(a, b) && !number_le(b, a)
}

/// The nearest 16-bit signed integer.
pub open spec fn saturate16(n: int) -> int {
    if n < -0x8000 {
        -0x8000
    } else if n > 0x7fff {
        0x7fff
    } else {
        n
    }
}

/// The floor of `scale * a` as a 16-bit signed integer: out-of-range values
/// saturate, and what is not a number gives zero.
pub open spec fn floor16(a: Number, scale: int) -> int {
    match a {
        Number::Nan => 0,
        Number::NegInf => -0x8000,
        Number::Finite(n) => saturate16((n * scale) / unit()),
        Number::PosInf => 0x7fff,
    }
}

/// The magnitude of the binary64 number whose bits below the sign are `b`.
pub open spec fn double_magnitude(b: int) -> int {
    if b / 0x10_0000_0000_0000 == 0 {
        b % 0x10_0000_0000_0000
    } else {
        (0x10_0000_0000_0000 + b % 0x10_0000_0000_0000) * pow2(
            (b / 0x10_0000_0000_0000 - 1) as nat,
        )
    }
}

/// The magnitude of the binary32 number whose bits below the sign are `b`.
pub open spec fn single_magnitude(b: int) -> int {
    if b / 0x80_0000 == 0 {
        (b % 0x80_0000) * pow2(925)
    } else {
        (0x80_0000 + b % 0x80_0000) * pow2((b / 0x80_0000 - 1) as nat) * pow2(925)
    }
}

/// A binary64 number.
#[derive(Clone, Copy, Debug, PartialEq, Eq, Structural)]
pub struct Double {
    pub bits: u64,
}

/// A binary32 number.
#[derive(Clone, Copy, Debug, PartialEq, Eq, Structural)]
pub struct Single {
    pub bits: u32,
}

/// The larger of two patterns below the sign is the larger number.
proof fn lemma_magnitude_increases(a: int, b: int)
    requires
        0 <= a < b,
    ensures
        0 <= double_magnitude(a) < double_magnitude(b),
{
    let ea = a / 0x10_0000_0000_0000;
    let eb = b / 0x10_0000_0000_0000;
    let fa = a % 0x10_0000_0000_0000;
    let fb = b % 0x10_0000_0000_0000;
    if ea == 0 {
        if eb > 0 {
            let p = pow2((eb - 1) as nat) as int;
            lemma_pow2_pos((eb - 1) as nat);
            assert((0x10_0000_0000_0000 + fb) * p >= 0x10_0000_0000_0000) by (nonlinear_arith)
                requires
                    p >= 1,
                    fb >= 0,
            ;
        }
    } else if ea == eb {
        let p = pow2((ea - 1) as nat) as int;
        lemma_pow2_pos((ea - 1) as nat);
        assert(0 <= (0x10_0000_0000_0000 + fa) * p < (0x10_0000_0000_0000 + fb) * p)
            by (nonlinear_arith)
            requires
                p >= 1,
                0 <= fa < fb,
        ;
    } else {
        let p = pow2((ea - 1) as nat) as int;
        let q = pow2((eb - 1) as nat) as int;
        lemma_pow2_pos((ea - 1) as nat);
        lemma_pow2_unfold(ea as nat);
        if ea < eb - 1 {
            lemma_pow2_strictly_increases(ea as nat, (eb - 1) as nat);
        }
        assert(0 <= (0x10_0000_0000_0000 + fa) * p < (0x10_0000_0000_0000 + fb) * q)
            by (nonlinear_arith)
            requires
                p >= 1,
                q >= 2 * p,
                0 <= fa < 0x10_0000_0000_0000,
                0 <= fb,
        ;
    }
}

/// Powers of two between 38 and 52 lie between their neighbours.
proof fn lemma_pow2_ladder(n: nat)
    requires
        38 <= n <= 52,
    ensures
        0x40_0000_0000 <= pow2(n) <= 0x10_0000_0000_0000,
{
    lemma2_to64();
    lemma2_to64_rest();
    if n > 38 {
        lemma_pow2_strictly_increases(38, n);
    }
    if n < 52 {
        lemma_pow2_strictly_increases(n, 52);
    }
}

/// The floor of a number whose scaled magnitude is under one.
proof fn lemma_below_one(x: Double, k: nat)
    requires
        k <= 8,
        x.low_bits() / 0x10_0000_0000_0000 + k < 1023,
    ensures
        floor16(x.number(), pow2(k) as int) == if x.negative() && x.low_bits() != 0 {
            -1int
        } else {
            0
        },
{
    let b = x.low_bits();
    let e = b / 0x10_0000_0000_0000;
    let f = b % 0x10_0000_0000_0000;
    let m = double_magnitude(b);
    let s = pow2(k) as int;
    lemma_pow2_pos(k);
    lemma_pow2_pos(1074);
    if b > 0 {
        lemma_magnitude_increases(0, b);
    }
    assert(m * s < unit()) by {
        lemma2_to64_rest();
        if e == 0 {
            lemma_pow2_adds(52, k);
            lemma_pow2_strictly_increases(52 + k, 1074);
            assert(f * s < 0x10_0000_0000_0000 * s) by (nonlinear_arith)
                requires
                    f < 0x10_0000_0000_0000,
                    s >= 1,
            ;
        } else {
            let p = pow2((e - 1) as nat) as int;
            lemma_pow2_pos((e - 1) as nat);
            lemma_pow2_adds((e - 1) as nat, k);
            lemma_pow2_adds(53, (e - 1 + k) as nat);
            if 53 + (e - 1 + k) < 1074 {
                lemma_pow2_strictly_increases((53 + (e - 1 + k)) as nat, 1074);
            }
            assert(((0x10_0000_0000_0000 + f) * p) * s < 0x20_0000_0000_0000 * (p * s))
                by (nonlinear_arith)
                requires
                    0 <= f < 0x10_0000_0000_0000,
                    p >= 1,
                    s >= 1,
            ;
        }
    }
    assert(m * s >= 0) by (nonlinear_arith)
        requires
            m >= 0,
            s >= 1,
    ;
    if b > 0 {
        assert(m * s > 0) by (nonlinear_arith)
            requires
                m > 0,
                s >= 1,
        ;
    }
    if x.negative() {
        assert((-m) * s == -(m * s)) by (nonlinear_arith);
        if b == 0 {
            lemma_fundamental_div_mod_converse((-m) * s, unit(), 0, 0);
        } else {
            lemma_fundamental_div_mod_converse((-m) * s, unit(), -1, unit() - m * s);
        }
    } else {
        lemma_fundamental_div_mod_converse(m * s, unit(), 0, m * s);
    }
}

/// The floor of a finite number whose scaled magnitude exceeds 16 bits.
proof fn lemma_beyond_range(x: Double, k: nat)
    requires
        k <= 8,
        x.low_bits() / 0x10_0000_0000_0000 + k >= 1038,
        x.low_bits() / 0x10_0000_0000_0000 != 0x7ff,
    ensures
        floor16(x.number(), pow2(k) as int) == if x.negative() {
            -0x8000int
        } else {
            0x7fffint
        },
{
    let b = x.low_bits();
    let e = b / 0x10_0000_0000_0000;
    let f = b % 0x10_0000_0000_0000;
    let m = double_magnitude(b);
    let s = pow2(k) as int;
    let p = pow2((e - 1) as nat) as int;
    lemma_pow2_pos(k);
    lemma_pow2_pos((e - 1) as nat);
    lemma_pow2_pos(1074);
    assert(m * s >= 0x8000 * unit()) by {
        lemma2_to64();
        lemma2_to64_rest();
        lemma_pow2_adds((e - 1) as nat, k);
        lemma_pow2_adds(52, (e - 1 + k) as nat);
        lemma_pow2_adds(15, 1074);
        if 52 + (e - 1 + k) > 1089 {
            lemma_pow2_strictly_increases(1089, (52 + (e - 1 + k)) as nat);
        }
        assert(((0x10_0000_0000_0000 + f) * p) * s >= 0x10_0000_0000_0000 * (p * s))
            by (nonlinear_arith)
            requires
                0 <= f,
                p >= 1,
                s >= 1,
        ;
    }
    let u = unit();
    if x.negative() {
        let q = ((-m) * s) / u;
        assert((-m) * s == -(m * s)) by (nonlinear_arith);
        assert(q <= -0x8000) by (nonlinear_arith)
            requires
                q == ((-m) * s) / u,
                (-m) * s <= -0x8000 * u,
                u >= 1,
        ;
    } else {
        let q = (m * s) / u;
        assert(q >= 0x8000) by (nonlinear_arith)
            requires
                q == (m * s) / u,
                m * s >= 0x8000 * u,
                u >= 1,
        ;
    }
}

/// The floor of a number whose scaled magnitude is at least one and fits in
/// 16 bits, from the quotient of its significand.
proof fn lemma_in_range(x: Double, k: nat, d: int, q: int, r: int)
    requires
        k <= 8,
        x.low_bits() / 0x10_0000_0000_0000 >= 1,
        1023 <= x.low_bits() / 0x10_0000_0000_0000 + k < 1038,
        d == pow2((1075 - (x.low_bits() / 0x10_0000_0000_0000 + k)) as nat),
        q == (0x10_0000_0000_0000 + x.low_bits() % 0x10_0000_0000_0000) / d,
        r == (0x10_0000_0000_0000 + x.low_bits() % 0x10_0000_0000_0000) % d,
    ensures
        0 <= q < 0x8000,
        0 <= r < d,
        floor16(x.number(), pow2(k) as int) == if !x.negative() {
            q
        } else if r == 0 {
            -q
        } else {
            -q - 1
        },
{
    let b = x.low_bits();
    let e = b / 0x10_0000_0000_0000;
    let f = b % 0x10_0000_0000_0000;
    let g = 0x10_0000_0000_0000 + f;
    let m = double_magnitude(b);
    let s = pow2(k) as int;
    let p = pow2((e - 1) as nat) as int;
    let u = unit();
    lemma_pow2_pos(k);
    lemma_pow2_pos((e - 1) as nat);
    lemma_pow2_pos((1075 - (e + k)) as nat);
    lemma_pow2_adds((e - 1) as nat, k);
    lemma_pow2_adds((e - 1 + k) as nat, (1075 - (e + k)) as nat);
    let t = p * s;
    assert(u == t * d);
    vstd::arithmetic::div_mod::lemma_fundamental_div_mod(g, d);
    assert(g == d * q + r);
    assert(q < 0x8000) by {
        lemma2_to64_rest();
        lemma_pow2_ladder((1075 - (e + k)) as nat);
        assert(q < 0x8000) by (nonlinear_arith)
            requires
                g == d * q + r,
                g < 0x20_0000_0000_0000,
                d >= 0x40_0000_0000,
                r >= 0,
        ;
    }
    assert(q >= 0) by (nonlinear_arith)
        requires
            g == d * q + r,
            g > 0,
            r < d,
            d >= 1,
    ;
    assert(t >= 1) by (nonlinear_arith)
        requires
            t == p * s,
            p >= 1,
            s >= 1,
    ;
    assert(m * s == q * u + r * t) by (nonlinear_arith)
        requires
            m == g * p,
            t == p * s,
            u == t * d,
            g == d * q + r,
    ;
    assert(0 <= r * t < u) by (nonlinear_arith)
        requires
            0 <= r < d,
            u == t * d,
            t >= 1,
    ;
    if !x.negative() {
        lemma_fundamental_div_mod_converse(m * s, u, q, r * t);
    } else {
        assert((-m) * s == -(m * s)) by (nonlinear_arith);
        if r == 0 {
            assert((-q) * u == -(q * u)) by (nonlinear_arith);
            assert(r * t == 0) by (nonlinear_arith)
                requires
                    r == 0,
            ;
            lemma_fundamental_div_mod_converse((-m) * s, u, -q, 0);
        } else {
            assert((-q - 1) * u == -(q * u) - u) by (nonlinear_arith);
            assert(r * t > 0) by (nonlinear_arith)
                requires
                    r > 0,
                    t >= 1,
            ;
            lemma_fundamental_div_mod_converse((-m) * s, u, -q - 1, u - r * t);
        }
    }
}

impl Double {
    /// The sign bit.
    pub open spec fn negative(self) -> bool {
        self.bits >= 0x8000_0000_0000_0000
    }

    /// The bits below the sign.
    pub open spec fn low_bits(self) -> int {
        self.bits as int % 0x8000_0000_0000_0000
    }

    /// The number itself.
    pub open spec fn number(self) -> Number {
        let exponent = self.low_bits() / 0x10_0000_0000_0000;
        let fraction = self.low_bits() % 0x10_0000_0000_0000;
        if exponent == 0x7ff {
            if fraction != 0 {
                Number::Nan
            } else if self.negative() {
                Number::NegInf
            } else {
                Number::PosInf
            }
        } else if self.negative() {
            Number::Finite(-double_magnitude(self.low_bits()))
        } else {
            Number::Finite(double_magnitude(self.low_bits()))
        }
    }

    /// Whether `self <= other`.
    pub fn le(self, other: Double) -> (r: bool)
        ensures
            r == number_le(self.number(), other.number()),
    {
        let a: u64 = self.bits % 0x8000_0000_0000_0000;
        let b: u64 = other.bits % 0x8000_0000_0000_0000;
        let infinity: u64 = 0x7ff0_0000_0000_0000;
        if a > infinity || b > infinity {
            return false;
        }
        proof {
            if a < b {
                lemma_magnitude_increases(a as int, b as int);
            }
            if b < a {
                lemma_magnitude_increases(b as int, a as int);
            }
            if 0 < a {
                lemma_magnitude_increases(0, a as int);
            }
            if 0 < b {
                lemma_magnitude_increases(0, b as int);
            }
        }
        let a_negative: bool = self.bits >= 0x8000_0000_0000_0000;
        let b_negative: bool = other.bits >= 0x8000_0000_0000_0000;
        if a_negative {
            if b_negative {
                b <= a
            } else {
                true
            }
        } else if b_negative {
            a == 0 && b == 0
        } else {
            a <= b
        }
    }

    /// Whether `self < other`.
    pub fn lt(self, other: Double) -> (r: bool)
        ensures
            r == number_lt(self.number(), other.number()),
    {
        self.le(other) && !other.le(self)
    }

    /// The floor of `self`, saturated to 16 bits; zero if it is not a number.
    pub fn floor(self) -> (r: i16)
        ensures
            r as int == floor16(self.number(), 1),
    {
        proof {
            lemma2_to64();
        }
        self.floor_shifted(0)
    }

    /// The floor of `4 * self`, saturated to 16 bits; zero if it is not a
    /// number.
    pub fn floor_quarters(self) -> (r: i16)
        ensures
            r as int == floor16(self.number(), 4),
    {
        proof {
            lemma2_to64();
        }
        self.floor_shifted(2)
    }

    /// The floor of `self` times two to the power of `k`, saturated to 16
    /// bits; zero if it is not a number.
    fn floor_shifted(self, k: u64) -> (r: i16)
        requires
            k <= 8,
        ensures
            r as int == floor16(self.number(), pow2(k as nat) as int),
    {
        let low: u64 = self.bits % 0x8000_0000_0000_0000;
        let negative: bool = self.bits >= 0x8000_0000_0000_0000;
        let exponent: u64 = low / 0x10_0000_0000_0000;
        let fraction: u64 = low % 0x10_0000_0000_0000;
        if exponent == 0x7ff {
            if fraction != 0 {
                0
            } else if negative {
                -0x8000
            } else {
                0x7fff
            }
        } else if exponent + k < 1023 {
            proof {
                lemma_below_one(self, k as nat);
            }
            if negative && low != 0 {
                -1
            } else {
                0
            }
        } else if exponent + k >= 1038 {
            proof {
                lemma_beyond_range(self, k as nat);
            }
            if negative {
                -0x8000
            } else {
                0x7fff
            }
        } else {
            let significand: u64 = 0x10_0000_0000_0000 + fraction;
            let shift: u64 = 1075 - (exponent + k);
            proof {
                lemma2_to64();
                lemma2_to64_rest();
                vstd::bits::lemma_u64_shl_is_mul(1, shift);
                lemma_pow2_ladder(shift as nat);
            }
            let divisor: u64 = 1u64 << shift;
            let quotient: u64 = significand / divisor;
            let remainder: u64 = significand % divisor;
            proof {
                lemma_in_range(self, k as nat, divisor as int, quotient as int, remainder as int);
            }
            if !negative {
                quotient as i16
            } else if remainder == 0 {
                -(quotient as i16)
            } else {
                -(quotient as i16) - 1
            }
        }
    }
}

/// A shifted significand keeps its value when the exponent follows.
proof fn lemma_widened(bits: int, e: nat, m: int, n: int)
    requires
        1 <= e,
        0x80_0000 <= m < 0x100_0000,
        bits == e * 0x10_0000_0000_0000 + (m - 0x80_0000) * 0x2000_0000,
        m * pow2(28 + e) == n,
    ensures
        double_magnitude(bits) == n,
{
    assert(bits / 0x10_0000_0000_0000 == e);
    assert(bits % 0x10_0000_0000_0000 == (m - 0x80_0000) * 0x2000_0000);
    lemma2_to64();
    lemma_pow2_adds(29, (e - 1) as nat);
    let p = pow2((e - 1) as nat) as int;
    assert((m * 0x2000_0000) * p == m * (0x2000_0000 * p)) by (nonlinear_arith);
}

impl Single {
    /// The sign bit.
    pub open spec fn negative(self) -> bool {
        self.bits >= 0x8000_0000
    }

    /// The bits below the sign.
    pub open spec fn low_bits(self) -> int {
        self.bits as int % 0x8000_0000
    }

    /// The number itself.
    pub open spec fn number(self) -> Number {
        let exponent = self.low_bits() / 0x80_0000;
        let fraction = self.low_bits() % 0x80_0000;
        if exponent == 0xff {
            if fraction != 0 {
                Number::Nan
            } else if self.negative() {
                Number::NegInf
            } else {
                Number::PosInf
            }
        } else if self.negative() {
            Number::Finite(-single_magnitude(self.low_bits()))
        } else {
            Number::Finite(single_magnitude(self.low_bits()))
        }
    }

    /// The same number as a binary64.
    pub fn widen(self) -> (r: Double)
        ensures
            r.number() == self.number(),
    {
        let low: u32 = self.bits % 0x8000_0000;
        let exponent: u64 = (low / 0x80_0000) as u64;
        let fraction: u64 = (low % 0x80_0000) as u64;
        let sign: u64 = if self.bits >= 0x8000_0000 {
            0x8000_0000_0000_0000
        } else {
            0
        };
        if exponent == 0xff {
            return Double { bits: sign + 0x7ff0_0000_0000_0000 + fraction * 0x2000_0000 };
        }
        if low == 0 {
            assert(0int * pow2(925) == 0);
            return Double { bits: sign };
        }
        let mut significand: u64 = fraction;
        let mut wide_exponent: u64 = exponent + 896;
        if exponent > 0 {
            significand = fraction + 0x80_0000;
            proof {
                lemma_pow2_adds((exponent - 1) as nat, 925);
                let p = pow2((exponent - 1) as nat) as int;
                let q = pow2(925) as int;
                assert((significand * p) * q == significand * (p * q)) by (nonlinear_arith);
            }
        } else {
            wide_exponent = 897;
            proof {
                lemma2_to64();
            }
            while significand < 0x80_0000
                invariant
                    0 < significand < 0x100_0000,
                    0 < fraction < 0x80_0000,
                    874 <= wide_exponent <= 897,
                    significand >= pow2((897 - wide_exponent) as nat),
                    significand * pow2((28 + wide_exponent) as nat) == fraction * pow2(925),
                decreases wide_exponent,
            {
                proof {
                    lemma2_to64();
                    if wide_exponent == 874 {
                        assert(pow2(23) == 0x80_0000);
                    }
                    lemma_pow2_unfold((898 - wide_exponent) as nat);
                    lemma_pow2_unfold((28 + wide_exponent) as nat);
                    let h = pow2((27 + wide_exponent) as nat) as int;
                    assert(significand * (2 * h) == (2 * significand) * h) by (nonlinear_arith);
                }
                significand = 2 * significand;
                wide_exponent = wide_exponent - 1;
            }
        }
        let r = Double {
            bits: sign + wide_exponent * 0x10_0000_0000_0000 + (significand - 0x80_0000)
                * 0x2000_0000,
        };
        proof {
            lemma_widened(
                r.low_bits(),
                wide_exponent as nat,
                significand as int,
                single_magnitude(self.low_bits()),
            );
        }
        r
    }
}

} // verus!
