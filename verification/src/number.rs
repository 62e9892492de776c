//! The mathematics of binary floating point: the values of a format, rounding to the
//! nearest value with ties to even, and the arithmetic operations as exact results
//! rounded once.

use vstd::arithmetic::power2::pow2;
use vstd::prelude::*;

verus! {

/// A value of a binary floating-point format. All not-a-number patterns are one value.
///
/// `Finite` stands for `mant * 2^exp`, negated where `neg` holds; zero has a sign.
pub enum Num {
    Nan,
    Infinite { neg: bool },
    Finite { neg: bool, mant: nat, exp: int },
}

/// The number of binary digits of `n`; zero has none.
pub open spec fn bit_length(n: nat) -> nat
    decreases n,
{
    if n == 0 {
        0
    } else {
        1 + bit_length(n / 2)
    }
}

/// The integer nearest to `n / 2^drop`, the even one of two equally near.
///
/// `sticky` says that the dividend is not `n` but lies strictly between `n` and `n + 1`.
pub open spec fn nearest(n: nat, drop: nat, sticky: bool) -> nat {
    if drop == 0 {
        n
    } else {
        let quotient = n / pow2(drop);
        let rest = n % pow2(drop);
        let half = pow2((drop - 1) as nat);
        if rest > half || (rest == half && (sticky || quotient % 2 == 1)) {
            quotient + 1
        } else {
            quotient
        }
    }
}

/// A binary format with `precision` significant digits whose largest finite value lies
/// below `2^(max_exponent + 1)`.
pub struct Format {
    pub precision: nat,
    pub max_exponent: int,
}

/// The 32-bit format.
pub open spec fn binary32() -> Format {
    Format { precision: 24, max_exponent: 127 }
}

/// The 64-bit format.
pub open spec fn binary64() -> Format {
    Format { precision: 53, max_exponent: 1023 }
}

impl Format {
    pub open spec fn valid(self) -> bool {
        &&& 2 <= self.precision <= 53
        &&& self.precision <= self.max_exponent <= 1023
    }

    /// The exponent of the subnormal numbers: no digit lies below `2^min_exp`.
    pub open spec fn min_exp(self) -> int {
        2 - self.max_exponent - self.precision
    }

    /// The largest `exp` of a finite value.
    pub open spec fn max_exp(self) -> int {
        self.max_exponent + 1 - self.precision
    }

    /// The one way in which each value of the format is written: `mant` has `precision`
    /// digits, or fewer at the smallest exponent.
    pub open spec fn holds(self, v: Num) -> bool {
        match v {
            Num::Finite { neg, mant, exp } => {
                &&& mant < pow2(self.precision)
                &&& self.min_exp() <= exp <= self.max_exp()
                &&& exp == self.min_exp() || mant >= pow2((self.precision - 1) as nat)
            },
            _ => true,
        }
    }

    pub open spec fn zero(self, neg: bool) -> Num {
        Num::Finite { neg, mant: 0, exp: self.min_exp() }
    }

    /// The exponent at which `n * 2^x` is rounded.
    pub open spec fn quantum(self, n: nat, x: int) -> int {
        let e = x + bit_length(n) - self.precision;
        if e < self.min_exp() {
            self.min_exp()
        } else {
            e
        }
    }

    /// `mant * 2^exp` for a `mant` that rounding may have carried to `2^precision`;
    /// infinite beyond the largest finite value.
    pub open spec fn pack(self, neg: bool, mant: nat, exp: int) -> Num {
        let carried = mant == pow2(self.precision);
        let m = if carried {
            pow2((self.precision - 1) as nat)
        } else {
            mant
        };
        let e = if carried {
            exp + 1
        } else {
            exp
        };
        if e > self.max_exp() {
            Num::Infinite { neg }
        } else {
            Num::Finite { neg, mant: m, exp: e }
        }
    }

    /// The value of the format nearest to `n * 2^x`, ties to even. With `sticky`, to a
    /// number strictly between `n * 2^x` and `(n + 1) * 2^x`, of which `n` then holds
    /// more digits than the format keeps.
    pub open spec fn round(self, neg: bool, n: nat, x: int, sticky: bool) -> Num {
        if n == 0 {
            self.zero(neg)
        } else {
            let e = self.quantum(n, x);
            let m = if e <= x {
                n * pow2((x - e) as nat)
            } else {
                nearest(n, (e - x) as nat, sticky)
            };
            self.pack(neg, m, e)
        }
    }

    /// In the interchange encoding, the weight of the lowest bit of the exponent.
    pub open spec fn exponent_unit(self) -> nat {
        pow2((self.precision - 1) as nat)
    }

    /// The largest biased exponent, which the finite values leave unused.
    pub open spec fn exponent_top(self) -> nat {
        (2 * self.max_exponent + 1) as nat
    }

    /// The bit pattern of positive infinity.
    pub open spec fn infinity_bits(self) -> nat {
        self.exponent_top() * self.exponent_unit()
    }

    /// The weight of the sign bit.
    pub open spec fn sign_unit(self) -> nat {
        (self.exponent_top() + 1) * self.exponent_unit()
    }

    /// The value that a bit pattern of the interchange encoding stands for: a sign bit,
    /// then the biased exponent, then the digits after the leading one.
    pub open spec fn decode(self, bits: nat) -> Num {
        let field = self.exponent_unit();
        let neg = bits >= self.sign_unit();
        let biased = (bits % self.sign_unit()) / field;
        let digits = (bits % self.sign_unit()) % field;
        if biased == self.exponent_top() {
            if digits == 0 {
                Num::Infinite { neg }
            } else {
                Num::Nan
            }
        } else if biased == 0 {
            Num::Finite { neg, mant: digits, exp: self.min_exp() }
        } else {
            Num::Finite { neg, mant: digits + field, exp: biased - 1 + self.min_exp() }
        }
    }

    /// The bit pattern of a value; not-a-number is the positive quiet one.
    pub open spec fn encode(self, v: Num) -> nat {
        let sign = if v.negative() {
            self.sign_unit()
        } else {
            0
        };
        match v {
            Num::Nan => self.infinity_bits() + self.exponent_unit() / 2,
            Num::Infinite { .. } => sign + self.infinity_bits(),
            Num::Finite { mant, exp, .. } => sign + ((exp - self.min_exp()) as nat)
                * self.exponent_unit() + mant,
        }
    }

    /// The value nearest to one of another format.
    pub open spec fn convert(self, v: Num) -> Num {
        match v {
            Num::Finite { neg, mant, exp } => self.round(neg, mant, exp, false),
            _ => v,
        }
    }

    /// The value nearest to a whole number.
    pub open spec fn whole(self, n: nat) -> Num {
        self.round(false, n, 0, false)
    }
}

/// `v * 2^-x` for a finite `v` whose exponent is at least `x`.
pub open spec fn units(v: Num, x: int) -> int {
    match v {
        Num::Finite { neg, mant, exp } => {
            let n = (mant * pow2((exp - x) as nat)) as int;
            if neg {
                -n
            } else {
                n
            }
        },
        _ => 0,
    }
}

/// The smaller exponent of two finite values.
pub open spec fn common_exp(a: Num, b: Num) -> int {
    if a->exp <= b->exp {
        a->exp
    } else {
        b->exp
    }
}

/// The largest `r` with `r * r <= n`.
pub open spec fn floor_root(n: nat) -> nat {
    choose|r: nat| #![trigger r * r] r * r <= n < (r + 1) * (r + 1)
}

impl Num {
    pub open spec fn is_zero(self) -> bool {
        self matches Num::Finite { neg, mant, exp } && mant == 0
    }

    pub open spec fn negative(self) -> bool {
        match self {
            Num::Nan => false,
            Num::Infinite { neg } => neg,
            Num::Finite { neg, .. } => neg,
        }
    }

    /// The value with the other sign.
    pub open spec fn minus(self) -> Num {
        match self {
            Num::Nan => Num::Nan,
            Num::Infinite { neg } => Num::Infinite { neg: !neg },
            Num::Finite { neg, mant, exp } => Num::Finite { neg: !neg, mant, exp },
        }
    }

    /// The value without its sign.
    pub open spec fn magnitude(self) -> Num {
        match self {
            Num::Nan => Num::Nan,
            Num::Infinite { .. } => Num::Infinite { neg: false },
            Num::Finite { neg, mant, exp } => Num::Finite { neg: false, mant, exp },
        }
    }

    /// The sum, rounded. An exact sum of zero is positive unless both terms are negative.
    pub open spec fn plus(self, f: Format, other: Num) -> Num {
        match (self, other) {
            (Num::Nan, _) => Num::Nan,
            (_, Num::Nan) => Num::Nan,
            (Num::Infinite { neg: s }, Num::Infinite { neg: t }) => if s == t {
                self
            } else {
                Num::Nan
            },
            (Num::Infinite { .. }, _) => self,
            (_, Num::Infinite { .. }) => other,
            (Num::Finite { neg: s, .. }, Num::Finite { neg: t, .. }) => {
                let x = common_exp(self, other);
                let v = units(self, x) + units(other, x);
                if v == 0 {
                    f.zero(s && t)
                } else if v < 0 {
                    f.round(true, (-v) as nat, x, false)
                } else {
                    f.round(false, v as nat, x, false)
                }
            },
        }
    }

    /// The difference, rounded.
    pub open spec fn less(self, f: Format, other: Num) -> Num {
        self.plus(f, other.minus())
    }

    /// The product, rounded.
    pub open spec fn times(self, f: Format, other: Num) -> Num {
        let neg = self.negative() != other.negative();
        match (self, other) {
            (Num::Nan, _) => Num::Nan,
            (_, Num::Nan) => Num::Nan,
            (Num::Finite { mant: m, exp: x, .. }, Num::Finite { mant: n, exp: y, .. }) => f.round(
                neg,
                m * n,
                x + y,
                false,
            ),
            _ => if self.is_zero() || other.is_zero() {
                Num::Nan
            } else {
                Num::Infinite { neg }
            },
        }
    }

    /// The quotient, rounded. It is taken to `2 * precision` binary places first, which
    /// is more than the format keeps; what is left over only decides ties.
    pub open spec fn over(self, f: Format, other: Num) -> Num {
        let neg = self.negative() != other.negative();
        match (self, other) {
            (Num::Nan, _) => Num::Nan,
            (_, Num::Nan) => Num::Nan,
            (Num::Infinite { .. }, Num::Infinite { .. }) => Num::Nan,
            (Num::Infinite { .. }, _) => Num::Infinite { neg },
            (_, Num::Infinite { .. }) => f.zero(neg),
            (Num::Finite { mant: m, exp: x, .. }, Num::Finite { mant: n, exp: y, .. }) => if n
                == 0 {
                if m == 0 {
                    Num::Nan
                } else {
                    Num::Infinite { neg }
                }
            } else {
                let k = 2 * f.precision;
                let dividend = m * pow2(k);
                f.round(neg, dividend / n, x - y - k, dividend % n != 0)
            },
        }
    }

    /// The square root, rounded.
    pub open spec fn root(self, f: Format) -> Num {
        match self {
            Num::Nan => Num::Nan,
            Num::Infinite { neg } => if neg {
                Num::Nan
            } else {
                self
            },
            Num::Finite { neg, mant, exp } => if mant == 0 {
                self
            } else if neg {
                Num::Nan
            } else {
                let k = 2 * f.precision + exp % 2;
                let radicand = mant * pow2(k as nat);
                let r = floor_root(radicand);
                f.round(false, r, (exp - k) / 2, r * r != radicand)
            },
        }
    }

    /// Whether `self` is less than `other`; false where either is not a number.
    pub open spec fn below(self, other: Num) -> bool {
        match (self, other) {
            (Num::Nan, _) => false,
            (_, Num::Nan) => false,
            (Num::Infinite { neg: s }, Num::Infinite { neg: t }) => s && !t,
            (Num::Infinite { neg }, _) => neg,
            (_, Num::Infinite { neg }) => !neg,
            _ => {
                let x = common_exp(self, other);
                units(self, x) < units(other, x)
            },
        }
    }

    /// Whether `self` is at most `other`; false where either is not a number.
    pub open spec fn at_most(self, other: Num) -> bool {
        self !is Nan && other !is Nan && !other.below(self)
    }
}

/// The 32-bit sum.
pub open spec fn sum32(a: Num, b: Num) -> Num {
    a.plus(binary32(), b)
}

/// The 32-bit difference.
pub open spec fn diff32(a: Num, b: Num) -> Num {
    a.less(binary32(), b)
}

/// The 32-bit product.
pub open spec fn prod32(a: Num, b: Num) -> Num {
    a.times(binary32(), b)
}

/// The 32-bit quotient.
pub open spec fn quot32(a: Num, b: Num) -> Num {
    a.over(binary32(), b)
}

/// The 32-bit number nearest to a whole number.
pub open spec fn whole32(n: nat) -> Num {
    binary32().whole(n)
}

/// The 32-bit number nearest to the fraction `n / d`, for `n` and `d` that the format
/// holds exactly.
pub open spec fn fraction32(n: nat, d: nat) -> Num {
    quot32(whole32(n), whole32(d))
}

/// Positive zero of the 32-bit format.
pub open spec fn zero32() -> Num {
    binary32().zero(false)
}

/// The 64-bit number nearest to a whole number.
pub open spec fn whole64(n: nat) -> Num {
    binary64().whole(n)
}

/// The 64-bit sum.
pub open spec fn sum64(a: Num, b: Num) -> Num {
    a.plus(binary64(), b)
}

/// The 64-bit number with the value of a 32-bit one.
pub open spec fn widen(v: Num) -> Num {
    binary64().convert(v)
}

} // verus!
