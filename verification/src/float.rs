//! Binary floating-point numbers in integer arithmetic: each operation returns the exact
//! result rounded to nearest, ties to even, bit for bit as the hardware formats do.

use crate::number::{
    binary32, binary64, bit_length, floor_root, fraction32, nearest, units, zero32,
    Format, Num,
};
use crate::order::lemma_order_by_digits;
use crate::rounding::{
    lemma_append_none, lemma_bit_length_bounds, lemma_bit_length_drop,
    lemma_bit_length_more_than, lemma_pow2_monotone, lemma_pow2_zero, lemma_round_compress,
    lemma_round_digits, lemma_round_holds,
};
use vstd::arithmetic::div_mod::{
    lemma_fundamental_div_mod, lemma_fundamental_div_mod_converse, lemma_mod_bound,
};
use vstd::arithmetic::power2::{
    lemma2_to64, lemma_pow2_adds, lemma_pow2_pos, lemma_pow2_strictly_increases,
    lemma_pow2_unfold, pow2,
};
use vstd::bits::lemma_u128_shr_is_div;
use vstd::prelude::*;

verus! {

/// What kind of value a float is.
#[derive(Debug, Clone, Copy, PartialEq, Eq, Structural)]
enum Class {
    Nan,
    Infinite,
    Finite,
}

/// A number with `P` significant binary digits and exponents up to `E`.
#[derive(Debug, Clone, Copy)]
pub struct Float<const P: u32, const E: u32> {
    class: Class,
    neg: bool,
    mant: u64,
    exp: i32,
}

/// A 32-bit number.
pub type Single = Float<24, 127>;

/// A 64-bit number.
pub type Double = Float<53, 1023>;

impl<const P: u32, const E: u32> View for Float<P, E> {
    type V = Num;

    closed spec fn view(&self) -> Num {
        match self.class {
            Class::Nan => Num::Nan,
            Class::Infinite => Num::Infinite { neg: self.neg },
            Class::Finite => Num::Finite {
                neg: self.neg,
                mant: self.mant as nat,
                exp: self.exp as int,
            },
        }
    }
}

proof fn lemma_one_shl(k: u32)
    requires
        k < 128,
    ensures
        (1u128 << k) == pow2(k as nat),
    decreases k,
{
    lemma_pow2_zero();
    if k == 0 {
        assert((1u128 << 0u32) == 1) by (bit_vector);
    } else {
        let j = (k - 1) as u32;
        lemma_one_shl(j);
        lemma_pow2_unfold(k as nat);
        assert((1u128 << k) == 2 * (1u128 << j)) by (bit_vector)
            requires
                0 < k < 128,
                j == k - 1,
        ;
    }
}

proof fn lemma_pow2_u128()
    ensures
        pow2(53) == 0x20_0000_0000_0000,
        pow2(64) == 0x1_0000_0000_0000_0000,
        pow2(126) == 0x4000_0000_0000_0000_0000_0000_0000_0000,
        pow2(127) == 0x8000_0000_0000_0000_0000_0000_0000_0000,
{
    lemma2_to64();
    vstd::arithmetic::power2::lemma2_to64_rest();
    lemma_pow2_adds(63, 63);
    lemma_pow2_adds(64, 63);
}

/// One halving step of the digit count.
fn drop_digits(v: u128, k: u32) -> (r: u128)
    requires
        k < 128,
        v >= pow2(k as nat),
    ensures
        bit_length(r as nat) == bit_length(v as nat) - k,
        r == v as nat / pow2(k as nat),
        r > 0,
{
    proof {
        lemma_u128_shr_is_div(v, k as u128);
        lemma_bit_length_drop(v as nat, k as nat);
        assert(v >> k == v >> (k as u128)) by (bit_vector);
    }
    v >> k
}

/// The number of binary digits.
fn digits(n: u128) -> (r: u32)
    ensures
        r == bit_length(n as nat),
        r <= 128,
{
    let mut v: u128 = n;
    let mut len: u32 = 0;
    proof {
        lemma_pow2_u128();
        lemma2_to64();
    }
    if v >= 0x1_0000_0000_0000_0000 {
        v = drop_digits(v, 64);
        len = 64;
        assert(v < 0x1_0000_0000_0000_0000) by (nonlinear_arith)
            requires
                v == n as nat / 0x1_0000_0000_0000_0000nat,
        ;
    }
    if v >= 0x1_0000_0000 {
        v = drop_digits(v, 32);
        len = len + 32;
    }
    assert(v < 0x1_0000_0000);
    if v >= 0x1_0000 {
        v = drop_digits(v, 16);
        len = len + 16;
    }
    assert(v < 0x1_0000);
    if v >= 0x100 {
        v = drop_digits(v, 8);
        len = len + 8;
    }
    assert(v < 0x100);
    if v >= 0x10 {
        v = drop_digits(v, 4);
        len = len + 4;
    }
    assert(v < 0x10);
    if v >= 4 {
        v = drop_digits(v, 2);
        len = len + 2;
    }
    if v >= 2 {
        v = drop_digits(v, 1);
        len = len + 1;
    }
    assert(v < 2);
    if v >= 1 {
        len = len + 1;
        assert(bit_length(1) == 1) by {
            assert(bit_length(0) == 0);
        }
    }
    len
}

/// The integer nearest to `n / 2^drop`.
fn nearest_quotient(n: u128, drop: u32, sticky: bool) -> (r: u128)
    requires
        drop >= 1,
        n < pow2(126),
    ensures
        r == nearest(n as nat, drop as nat, sticky),
{
    proof {
        lemma_pow2_u128();
        lemma_pow2_pos(drop as nat);
    }
    if drop > 127 {
        proof {
            lemma_pow2_monotone(127, (drop - 1) as nat);
            lemma_pow2_monotone(127, drop as nat);
            lemma_fundamental_div_mod_converse(n as int, pow2(drop as nat) as int, 0, n as int);
        }
        return 0;
    }
    let unit: u128 = 1u128 << drop;
    let half: u128 = 1u128 << (drop - 1);
    let quotient: u128 = n >> drop;
    proof {
        lemma_one_shl(drop);
        lemma_one_shl((drop - 1) as u32);
        lemma_pow2_pos((drop - 1) as nat);
        lemma_u128_shr_is_div(n, drop as u128);
        assert(n >> drop == n >> (drop as u128)) by (bit_vector);
        lemma_fundamental_div_mod(n as int, unit as int);
        lemma_mod_bound(n as int, unit as int);
        assert(quotient * unit == unit * quotient) by (nonlinear_arith);
    }
    let rest: u128 = n - quotient * unit;
    if rest > half || (rest == half && (sticky || quotient % 2 == 1)) {
        assert(quotient < pow2(126)) by (nonlinear_arith)
            requires
                n == quotient * unit + rest,
                rest >= half,
                half >= 1,
                unit >= 1,
                n < pow2(126),
                rest >= 0,
        ;
        quotient + 1
    } else {
        quotient
    }
}

impl<const P: u32, const E: u32> Float<P, E> {
    /// The format of these numbers.
    pub open spec fn format() -> Format {
        Format { precision: P as nat, max_exponent: E as int }
    }

    #[verifier::type_invariant]
    spec fn well_formed(self) -> bool {
        Self::format().valid() && Self::format().holds(self@)
    }

    fn nan() -> (r: Self)
        requires
            Self::format().valid(),
        ensures
            r@ == Num::Nan,
    {
        Float { class: Class::Nan, neg: false, mant: 0, exp: 0 }
    }

    fn infinite(neg: bool) -> (r: Self)
        requires
            Self::format().valid(),
        ensures
            r@ == (Num::Infinite { neg }),
    {
        Float { class: Class::Infinite, neg, mant: 0, exp: 0 }
    }

    fn finite(neg: bool, mant: u64, exp: i32) -> (r: Self)
        requires
            Self::format().valid(),
            Self::format().holds(Num::Finite { neg, mant: mant as nat, exp: exp as int }),
        ensures
            r@ == (Num::Finite { neg, mant: mant as nat, exp: exp as int }),
    {
        Float { class: Class::Finite, neg, mant, exp }
    }

    fn signed_zero(neg: bool) -> (r: Self)
        requires
            Self::format().valid(),
        ensures
            r@ == Self::format().zero(neg),
    {
        proof {
            lemma_pow2_pos(P as nat);
        }
        Self::finite(neg, 0, 2 - E as i32 - P as i32)
    }

    /// `n * 2^x`, or with `sticky` a number just above it, rounded.
    fn rounded(neg: bool, n: u128, x: i32, sticky: bool) -> (r: Self)
        requires
            Self::format().valid(),
            n < pow2(126),
            -5000 <= x <= 5000,
        ensures
            r@ == Self::format().round(neg, n as nat, x as int, sticky),
    {
        let ghost f = Self::format();
        if n == 0 {
            return Self::signed_zero(neg);
        }
        proof {
            lemma_round_holds(f, neg, n as nat, x as int, sticky);
            lemma_round_digits(f, n as nat, x as int, sticky);
            lemma_bit_length_bounds(n as nat);
            lemma_pow2_u128();
            lemma_pow2_monotone(P as nat, 53);
            lemma_pow2_pos((P - 1) as nat);
            lemma_pow2_strictly_increases((P - 1) as nat, P as nat);
        }
        let len: i32 = digits(n) as i32;
        let min_exp: i32 = 2 - E as i32 - P as i32;
        let mut e: i32 = x + len - P as i32;
        if e < min_exp {
            e = min_exp;
        }
        let mant: u64;
        if e <= x {
            let k: u64 = (x - e) as u64;
            proof {
                assert(k <= 53);
                lemma_pow2_pos(k as nat);
                lemma_one_shl(k as u32);
                let d = pow2(k as nat);
                assert(n <= n * d) by (nonlinear_arith)
                    requires
                        d >= 1,
                ;
                lemma_pow2_monotone(k as nat, 53);
            }
            let unit: u128 = 1u128 << (k as u32);
            mant = (n * unit) as u64;
        } else {
            mant = nearest_quotient(n, (e - x) as u32, sticky) as u64;
        }
        proof {
            lemma_one_shl(P);
            lemma_one_shl((P - 1) as u32);
        }
        let full: u64 = (1u128 << P) as u64;
        let carried: bool = mant == full;
        let m: u64 = if carried {
            (1u128 << (P - 1)) as u64
        } else {
            mant
        };
        let top: i32 = if carried {
            e + 1
        } else {
            e
        };
        if top > E as i32 + 1 - P as i32 {
            Self::infinite(neg)
        } else {
            Self::finite(neg, m, top)
        }
    }

    /// The number with the other sign.
    pub fn neg(self) -> (r: Self)
        ensures
            r@ == self@.minus(),
    {
        proof {
            use_type_invariant(&self);
        }
        Float { class: self.class, neg: !self.neg, mant: self.mant, exp: self.exp }
    }

    /// The number without its sign.
    pub fn abs(self) -> (r: Self)
        ensures
            r@ == self@.magnitude(),
    {
        proof {
            use_type_invariant(&self);
        }
        Float { class: self.class, neg: false, mant: self.mant, exp: self.exp }
    }

    /// Whether the number is neither infinite nor not-a-number.
    pub fn is_finite(self) -> (r: bool)
        ensures
            r == (self@ is Finite),
    {
        self.class == Class::Finite
    }

    /// Whether the number is finite and its last digit stands for no more than `2^limit`.
    pub fn is_as_fine_as(self, limit: i32) -> (r: bool)
        ensures
            r == (self@ is Finite && self@->Finite_exp <= limit),
            Self::format().holds(self@),
    {
        proof {
            use_type_invariant(&self);
        }
        self.class == Class::Finite && self.exp <= limit
    }

    /// The sum of two finite numbers of which `high` has no smaller exponent.
    fn finite_sum(high: Self, low: Self) -> (r: Self)
        requires
            high@ is Finite,
            low@ is Finite,
            high@->exp >= low@->exp,
        ensures
            r@ == high@.plus(Self::format(), low@),
    {
        proof {
            use_type_invariant(&high);
            use_type_invariant(&low);
        }
        let ghost f = Self::format();
        let gap: i32 = high.exp - low.exp;
        let ghost big = (high.mant as nat * pow2(gap as nat)) as int;
        proof {
            lemma_pow2_u128();
            lemma_pow2_zero();
            lemma_pow2_monotone(P as nat, 53);
            lemma_append_none(low.mant as nat);
            assert(units(high@, low.exp as int) == if high.neg {
                -big
            } else {
                big
            });
            assert(units(low@, low.exp as int) == if low.neg {
                -(low.mant as int)
            } else {
                low.mant as int
            });
        }
        let same: bool = high.neg == low.neg;
        if gap <= 60 {
            let unit: u128 = 1u128 << (gap as u32);
            proof {
                lemma_one_shl(gap as u32);
                lemma_pow2_monotone(gap as nat, 60);
                lemma_pow2_adds(53, 60);
                lemma_pow2_monotone(113, 126);
                lemma_pow2_strictly_increases(113, 125);
                lemma_pow2_unfold(126);
                let d = pow2(gap as nat);
                assert(high.mant * d <= pow2(53) * pow2(60)) by (nonlinear_arith)
                    requires
                        high.mant <= pow2(53),
                        d <= pow2(60),
                ;
            }
            let scaled: u128 = high.mant as u128 * unit;
            let other: u128 = low.mant as u128;
            if same {
                if scaled + other == 0 {
                    Self::signed_zero(high.neg)
                } else {
                    Self::rounded(high.neg, scaled + other, low.exp, false)
                }
            } else if scaled == other {
                Self::signed_zero(false)
            } else if scaled > other {
                Self::rounded(high.neg, scaled - other, low.exp, false)
            } else {
                Self::rounded(low.neg, other - scaled, low.exp, false)
            }
        } else {
            let k: i32 = gap - 2;
            let sticky: bool = low.mant != 0;
            proof {
                lemma_pow2_pos((P - 1) as nat);
            }
            let quads: u128 = if same || !sticky {
                high.mant as u128 * 4
            } else {
                high.mant as u128 * 4 - 1
            };
            proof {
                let d = pow2(k as nat) as int;
                lemma_pow2_pos(k as nat);
                lemma_pow2_adds(k as nat, 2);
                assert(pow2(2) == 4) by {
                    lemma2_to64();
                }
                lemma_pow2_monotone(53, k as nat);
                lemma_pow2_strictly_increases(53, k as nat);
                let v = if same {
                    big + low.mant
                } else {
                    big - low.mant
                };
                assert(big == high.mant * 4 * d) by (nonlinear_arith)
                    requires
                        big == high.mant * (d * 4),
                ;
                let rest = if same || !sticky {
                    low.mant as int
                } else {
                    d - low.mant
                };
                assert(v == quads * d + rest) by (nonlinear_arith)
                    requires
                        big == high.mant * 4 * d,
                        v == (if same {
                            big + low.mant
                        } else {
                            big - low.mant
                        }),
                        sticky == (low.mant != 0),
                        quads == (if same || !sticky {
                            high.mant * 4
                        } else {
                            high.mant * 4 - 1
                        }),
                        rest == (if same || !sticky {
                            low.mant as int
                        } else {
                            d - low.mant
                        }),
                ;
                lemma_fundamental_div_mod_converse(v, d, quads as int, rest);
                lemma_pow2_pos((P - 1) as nat);
                lemma_pow2_unfold(P as nat);
                lemma_pow2_adds(P as nat, k as nat);
                let full = pow2(P as nat) as int;
                assert(quads >= full);
                assert(v >= full * d) by (nonlinear_arith)
                    requires
                        v == quads * d + rest,
                        quads >= full,
                        d > 0,
                        rest >= 0,
                ;
                lemma_bit_length_more_than(v as nat, P as nat + k as nat);
                lemma_pow2_monotone(k as nat, P as nat + k as nat);
                lemma_round_compress(f, high.neg, v as nat, low.exp as int, false, k as nat);
                lemma_pow2_monotone(64, 126);
            }
            Self::rounded(high.neg, quads, low.exp + k, sticky)
        }
    }

    /// The sum.
    pub fn add(self, other: Self) -> (r: Self)
        ensures
            r@ == self@.plus(Self::format(), other@),
    {
        proof {
            use_type_invariant(&self);
            use_type_invariant(&other);
        }
        match (self.class, other.class) {
            (Class::Nan, _) => self,
            (_, Class::Nan) => other,
            (Class::Infinite, Class::Infinite) => if self.neg == other.neg {
                self
            } else {
                Self::nan()
            },
            (Class::Infinite, _) => self,
            (_, Class::Infinite) => other,
            (Class::Finite, Class::Finite) => if self.exp >= other.exp {
                Self::finite_sum(self, other)
            } else {
                Self::finite_sum(other, self)
            },
        }
    }

    /// The difference.
    pub fn sub(self, other: Self) -> (r: Self)
        ensures
            r@ == self@.less(Self::format(), other@),
    {
        self.add(other.neg())
    }

    /// The product.
    pub fn mul(self, other: Self) -> (r: Self)
        ensures
            r@ == self@.times(Self::format(), other@),
    {
        proof {
            use_type_invariant(&self);
            use_type_invariant(&other);
        }
        let neg: bool = self.neg != other.neg;
        match (self.class, other.class) {
            (Class::Nan, _) => self,
            (_, Class::Nan) => other,
            (Class::Finite, Class::Finite) => {
                proof {
                    lemma_pow2_u128();
                    lemma_pow2_monotone(P as nat, 53);
                    lemma_pow2_adds(53, 53);
                    lemma_pow2_strictly_increases(106, 126);
                    assert(self.mant * other.mant <= pow2(53) * pow2(53)) by (nonlinear_arith)
                        requires
                            self.mant <= pow2(53),
                            other.mant <= pow2(53),
                    ;
                }
                Self::rounded(
                    neg,
                    self.mant as u128 * other.mant as u128,
                    self.exp + other.exp,
                    false,
                )
            },
            _ => {
                let zero: bool = (self.class == Class::Finite && self.mant == 0) || (other.class
                    == Class::Finite && other.mant == 0);
                if zero {
                    Self::nan()
                } else {
                    Self::infinite(neg)
                }
            },
        }
    }

    /// Whether the number is less than another.
    pub fn lt(self, other: Self) -> (r: bool)
        ensures
            r == self@.below(other@),
            Self::format().holds(self@),
            Self::format().holds(other@),
    {
        proof {
            use_type_invariant(&self);
            use_type_invariant(&other);
        }
        match (self.class, other.class) {
            (Class::Nan, _) => false,
            (_, Class::Nan) => false,
            (Class::Infinite, Class::Infinite) => self.neg && !other.neg,
            (Class::Infinite, _) => self.neg,
            (_, Class::Infinite) => !other.neg,
            (Class::Finite, Class::Finite) => {
                proof {
                    lemma_order_by_digits(Self::format(), self@, other@);
                }
                let smaller: bool = self.exp < other.exp || (self.exp == other.exp && self.mant
                    < other.mant);
                let equal: bool = self.exp == other.exp && self.mant == other.mant;
                if self.neg && other.neg {
                    !smaller && !equal
                } else if self.neg {
                    self.mant != 0 || other.mant != 0
                } else if other.neg {
                    false
                } else {
                    smaller
                }
            },
        }
    }

    /// Whether the number is at most another.
    pub fn le(self, other: Self) -> (r: bool)
        ensures
            r == self@.at_most(other@),
            Self::format().holds(self@),
            Self::format().holds(other@),
    {
        proof {
            use_type_invariant(&self);
            use_type_invariant(&other);
        }
        match (self.class, other.class) {
            (Class::Nan, _) => false,
            (_, Class::Nan) => false,
            _ => !other.lt(self),
        }
    }
}

/// There is a largest number whose square is at most `n`.
pub proof fn lemma_floor_root_exists(n: nat)
    ensures
        floor_root(n) * floor_root(n) <= n < (floor_root(n) + 1) * (floor_root(n) + 1),
    decreases n,
{
    if n == 0 {
        let r: nat = n;
        assert(r * r <= n < (r + 1) * (r + 1)) by (nonlinear_arith)
            requires
                n == 0,
                r == n,
        ;
    } else {
        let before = (n - 1) as nat;
        lemma_floor_root_exists(before);
        let r = floor_root(before);
        if n < (r + 1) * (r + 1) {
            assert(r * r <= n < (r + 1) * (r + 1));
        } else {
            let s = r + 1;
            assert(n < (s + 1) * (s + 1)) by (nonlinear_arith)
                requires
                    n - 1 < (r + 1) * (r + 1),
                    s == r + 1,
            ;
            assert(s * s <= n < (s + 1) * (s + 1));
        }
    }
}

/// No other number than the root has a square at most `n` and a next one above.
pub proof fn lemma_floor_root(n: nat, r: nat)
    requires
        r * r <= n < (r + 1) * (r + 1),
    ensures
        floor_root(n) == r,
{
    let s = floor_root(n);
    assert(s * s <= n < (s + 1) * (s + 1));
    assert(s == r) by (nonlinear_arith)
        requires
            s * s <= n < (s + 1) * (s + 1),
            r * r <= n < (r + 1) * (r + 1),
    ;
}

/// The largest number whose square is at most `n`.
fn integer_root(n: u128) -> (r: u128)
    requires
        n < pow2(74),
    ensures
        r == floor_root(n as nat),
        r * r <= n,
        r < pow2(37),
{
    proof {
        lemma2_to64();
        vstd::arithmetic::power2::lemma2_to64_rest();
        lemma_pow2_adds(37, 37);
    }
    let mut low: u128 = 0;
    let mut high: u128 = 0x20_0000_0000;
    while high - low > 1
        invariant
            low * low <= n < high * high,
            low < high <= 0x20_0000_0000,
        decreases high - low,
    {
        let mid: u128 = low + (high - low) / 2;
        assert(mid * mid <= 0x20_0000_0000 * 0x20_0000_0000) by (nonlinear_arith)
            requires
                mid <= 0x20_0000_0000,
        ;
        if mid * mid <= n {
            low = mid;
        } else {
            high = mid;
        }
    }
    proof {
        assert(high == low + 1);
        lemma_floor_root(n as nat, low as nat);
    }
    low
}

pub proof fn lemma_encoding_units()
    ensures
        binary32().exponent_unit() == 0x80_0000,
        binary32().infinity_bits() == 0x7f80_0000,
        binary32().sign_unit() == 0x8000_0000,
        binary64().exponent_unit() == 0x10_0000_0000_0000,
        binary64().infinity_bits() == 0x7ff0_0000_0000_0000,
        binary64().sign_unit() == 0x8000_0000_0000_0000,
        pow2(24) == 0x100_0000,
        pow2(53) == 0x20_0000_0000_0000,
{
    lemma2_to64();
    vstd::arithmetic::power2::lemma2_to64_rest();
    assert(255 * 0x80_0000 == 0x7f80_0000) by (nonlinear_arith);
    assert(256 * 0x80_0000 == 0x8000_0000) by (nonlinear_arith);
    assert(2047 * 0x10_0000_0000_0000 == 0x7ff0_0000_0000_0000) by (nonlinear_arith);
    assert(2048 * 0x10_0000_0000_0000 == 0x8000_0000_0000_0000) by (nonlinear_arith);
}

impl Single {
    /// The value with the given bit pattern.
    pub fn from_bits(bits: u32) -> (r: Self)
        ensures
            r@ == binary32().decode(bits as nat),
    {
        proof {
            lemma_encoding_units();
        }
        let neg: bool = bits >= 0x8000_0000;
        let rest: u32 = bits % 0x8000_0000;
        let biased: u32 = rest / 0x80_0000;
        let digits: u32 = rest % 0x80_0000;
        if biased == 255 {
            if digits == 0 {
                Self::infinite(neg)
            } else {
                Self::nan()
            }
        } else if biased == 0 {
            Self::finite(neg, digits as u64, -149)
        } else {
            Self::finite(neg, digits as u64 + 0x80_0000, biased as i32 - 150)
        }
    }

    /// The bit pattern of the value.
    pub fn to_bits(self) -> (r: u32)
        ensures
            r == binary32().encode(self@),
    {
        proof {
            use_type_invariant(&self);
            lemma_encoding_units();
        }
        let sign: u32 = if self.neg {
            0x8000_0000
        } else {
            0
        };
        match self.class {
            Class::Nan => 0x7fc0_0000,
            Class::Infinite => sign + 0x7f80_0000,
            Class::Finite => sign + (self.exp + 149) as u32 * 0x80_0000 + self.mant as u32,
        }
    }

    /// The value nearest to a whole number.
    pub fn from_whole(n: u64) -> (r: Self)
        ensures
            r@ == binary32().whole(n as nat),
    {
        proof {
            lemma_pow2_u128();
        }
        Self::rounded(false, n as u128, 0, false)
    }

    /// The quotient.
    pub fn div(self, other: Self) -> (r: Self)
        ensures
            r@ == self@.over(binary32(), other@),
    {
        proof {
            use_type_invariant(&self);
            use_type_invariant(&other);
        }
        let neg: bool = self.neg != other.neg;
        match (self.class, other.class) {
            (Class::Nan, _) => self,
            (_, Class::Nan) => other,
            (Class::Infinite, Class::Infinite) => Self::nan(),
            (Class::Infinite, _) => Self::infinite(neg),
            (_, Class::Infinite) => Self::signed_zero(neg),
            (Class::Finite, Class::Finite) => if other.mant == 0 {
                if self.mant == 0 {
                    Self::nan()
                } else {
                    Self::infinite(neg)
                }
            } else {
                proof {
                    lemma2_to64();
                    vstd::arithmetic::power2::lemma2_to64_rest();
                    lemma_pow2_u128();
                    let n = self.mant as int * 0x1_0000_0000_0000;
                    let d = other.mant as int;
                    lemma_fundamental_div_mod(n, d);
                    lemma_mod_bound(n, d);
                    assert(n / d <= n) by (nonlinear_arith)
                        requires
                            n == d * (n / d) + n % d,
                            n % d >= 0,
                            d >= 1,
                            n >= 0,
                    ;
                }
                let dividend: u128 = self.mant as u128 * 0x1_0000_0000_0000;
                let divisor: u128 = other.mant as u128;
                let quotient: u128 = dividend / divisor;
                let sticky: bool = dividend % divisor != 0;
                Self::rounded(neg, quotient, self.exp - other.exp - 48, sticky)
            },
        }
    }

    /// Positive zero.
    pub fn zero() -> (r: Self)
        ensures
            r@ == zero32(),
    {
        Self::signed_zero(false)
    }

    /// The number nearest to the fraction `n / d`.
    pub fn fraction(n: u32, d: u32) -> (r: Self)
        ensures
            r@ == fraction32(n as nat, d as nat),
    {
        Self::from_whole(n as u64).div(Self::from_whole(d as u64))
    }

    /// The square root.
    pub fn sqrt(self) -> (r: Self)
        ensures
            r@ == self@.root(binary32()),
    {
        proof {
            use_type_invariant(&self);
        }
        match self.class {
            Class::Nan => self,
            Class::Infinite => if self.neg {
                Self::nan()
            } else {
                self
            },
            Class::Finite => if self.mant == 0 {
                self
            } else if self.neg {
                Self::nan()
            } else {
                proof {
                    lemma2_to64();
                    vstd::arithmetic::power2::lemma2_to64_rest();
                    lemma_pow2_u128();
                    lemma_pow2_adds(37, 37);
                }
                let odd: bool = self.exp % 2 != 0;
                let unit: u128 = if odd {
                    0x2_0000_0000_0000
                } else {
                    0x1_0000_0000_0000
                };
                let k: i32 = if odd {
                    49
                } else {
                    48
                };
                let radicand: u128 = self.mant as u128 * unit;
                assert(radicand < pow2(74)) by (nonlinear_arith)
                    requires
                        radicand == self.mant * unit,
                        self.mant < 0x100_0000,
                        unit <= 0x2_0000_0000_0000,
                        pow2(74) == 0x20_0000_0000 * 0x20_0000_0000,
                ;
                let r: u128 = integer_root(radicand);
                let half: i32 = (self.exp - k) / 2;
                proof {
                    assert(k == 48 + (self.exp as int) % 2);
                    assert(half == (self.exp - k) as int / 2);
                }
                Self::rounded(false, r, half, r * r != radicand)
            },
        }
    }
}

impl Double {
    /// The value with the given bit pattern.
    pub fn from_bits(bits: u64) -> (r: Self)
        ensures
            r@ == binary64().decode(bits as nat),
    {
        proof {
            lemma_encoding_units();
        }
        let neg: bool = bits >= 0x8000_0000_0000_0000;
        let rest: u64 = bits % 0x8000_0000_0000_0000;
        let biased: u64 = rest / 0x10_0000_0000_0000;
        let digits: u64 = rest % 0x10_0000_0000_0000;
        if biased == 2047 {
            if digits == 0 {
                Self::infinite(neg)
            } else {
                Self::nan()
            }
        } else if biased == 0 {
            Self::finite(neg, digits, -1074)
        } else {
            Self::finite(neg, digits + 0x10_0000_0000_0000, biased as i32 - 1075)
        }
    }

    /// The bit pattern of the value.
    pub fn to_bits(self) -> (r: u64)
        ensures
            r == binary64().encode(self@),
    {
        proof {
            use_type_invariant(&self);
            lemma_encoding_units();
        }
        let sign: u64 = if self.neg {
            0x8000_0000_0000_0000
        } else {
            0
        };
        match self.class {
            Class::Nan => 0x7ff8_0000_0000_0000,
            Class::Infinite => sign + 0x7ff0_0000_0000_0000,
            Class::Finite => sign + (self.exp + 1074) as u64 * 0x10_0000_0000_0000 + self.mant,
        }
    }

    /// The value nearest to a whole number.
    pub fn from_whole(n: u64) -> (r: Self)
        ensures
            r@ == binary64().whole(n as nat),
    {
        proof {
            lemma_pow2_u128();
        }
        Self::rounded(false, n as u128, 0, false)
    }

    /// The 64-bit number with the value of a 32-bit one.
    pub fn from_single(v: Single) -> (r: Self)
        ensures
            r@ == binary64().convert(v@),
    {
        proof {
            use_type_invariant(&v);
            lemma_pow2_u128();
        }
        match v.class {
            Class::Nan => Self::nan(),
            Class::Infinite => Self::infinite(v.neg),
            Class::Finite => Self::rounded(v.neg, v.mant as u128, v.exp, false),
        }
    }
}

/// The values of a sequence of numbers.
pub open spec fn values<const P: u32, const E: u32>(s: Seq<Float<P, E>>) -> Seq<Num> {
    s.map_values(|v: Float<P, E>| v@)
}

} // verus!
