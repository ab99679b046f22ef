//! Floating-point numbers by their bits.
//!
//! A number in the binary64 format is a multiple of 2 to the power -1074.
//! What a number is, is stated as that multiple: an integer.

use crate::text::Order;
use vstd::arithmetic::power2::pow2;
use vstd::arithmetic::power2;
use vstd::prelude::*;

verus! {

/// 2 to the power 52: the number of fractions, and the weight of the leading
/// bit that is not written down.
pub const FRACTIONS: u64 = 0x10_0000_0000_0000;

/// 2 to the power 63: the weight of the sign bit.
pub const SIGN: u64 = 0x8000_0000_0000_0000;

/// A 64-bit floating-point number, as the bits of its binary64 format.
#[derive(Debug, Clone, Copy)]
pub struct Float(pub u64);

/// The multiple of 2 to the power -1074 that bits without a sign stand for.
/// Infinity counts as the number that would come next.
pub open spec fn magnitude(bits: nat) -> nat {
    let exponent = bits / FRACTIONS as nat;
    let fraction = bits % FRACTIONS as nat;
    if exponent == 0 {
        fraction
    } else {
        (FRACTIONS + fraction) as nat * pow2((exponent - 1) as nat)
    }
}

impl Float {
    /// The bits do not stand for a number.
    pub open spec fn is_nan(self) -> bool {
        self.0 % SIGN > 2047 * FRACTIONS
    }

    /// The number in units of 2 to the power -1074.
    pub open spec fn scaled(self) -> int {
        if self.0 < SIGN {
            magnitude(self.0 as nat) as int
        } else {
            -(magnitude((self.0 - SIGN) as nat) as int)
        }
    }

    /// Both are numbers, and the same one.
    pub open spec fn equals(self, other: Float) -> bool {
        !self.is_nan() && !other.is_nan() && self.scaled() == other.scaled()
    }

    /// How the two compare as numbers, if both are.
    pub open spec fn order(self, other: Float) -> Option<Order> {
        if self.is_nan() || other.is_nan() {
            None
        } else {
            Some(int_order(self.scaled(), other.scaled()))
        }
    }

    /// How the number compares to an integer, if it is one.
    pub open spec fn order_to_int(self, n: int) -> Option<Order> {
        if self.is_nan() {
            None
        } else {
            Some(int_order(self.scaled(), n * pow2(1074)))
        }
    }
}

/// How two integers compare.
pub open spec fn int_order(a: int, b: int) -> Order {
    if a < b {
        Order::Less
    } else if a == b {
        Order::Equal
    } else {
        Order::Greater
    }
}

/// Larger bits stand for larger numbers.
proof fn lemma_magnitude_monotone(a: nat, b: nat)
    requires
        a < b,
    ensures
        magnitude(a) < magnitude(b),
{
    let unit = FRACTIONS as nat;
    let ea = a / unit;
    let eb = b / unit;
    let fa = a % unit;
    let fb = b % unit;
    assert(ea <= eb);
    if ea == eb {
        if ea > 0 {
            let p = pow2((ea - 1) as nat);
            power2::lemma_pow2_pos((ea - 1) as nat);
            assert((unit + fa) * p < (unit + fb) * p) by (nonlinear_arith)
                requires
                    fa < fb,
                    p > 0,
            ;
        }
    } else {
        let p = pow2((eb - 1) as nat);
        power2::lemma_pow2_pos((eb - 1) as nat);
        assert(unit * p <= (unit + fb) * p) by (nonlinear_arith)
            requires
                p > 0,
        ;
        if ea == 0 {
            assert(fa < unit * p) by (nonlinear_arith)
                requires
                    fa < unit,
                    p > 0,
            ;
        } else {
            let q = pow2((ea - 1) as nat);
            power2::lemma_pow2_pos((ea - 1) as nat);
            power2::lemma_pow2_unfold(ea);
            if ea < eb - 1 {
                power2::lemma_pow2_strictly_increases(ea, (eb - 1) as nat);
            }
            assert(2 * q <= p);
            assert((unit + fa) * q < unit * p) by (nonlinear_arith)
                requires
                    fa < unit,
                    2 * q <= p,
                    q > 0,
            ;
        }
    }
}

/// Numbers are ordered as their bits are.
proof fn lemma_bits_order(a: Float, b: Float)
    ensures
        ({
            let x = a.0 as nat % SIGN as nat;
            let y = b.0 as nat % SIGN as nat;
            let same = int_order(x as int, y as int);
            &&& a.0 < SIGN && b.0 < SIGN ==> int_order(a.scaled(), b.scaled()) == same
            &&& a.0 >= SIGN && b.0 >= SIGN ==> int_order(b.scaled(), a.scaled()) == same
            &&& a.0 < SIGN && b.0 >= SIGN ==> int_order(a.scaled(), b.scaled()) == (if x == 0 && y
                == 0 {
                Order::Equal
            } else {
                Order::Greater
            })
            &&& a.0 >= SIGN && b.0 < SIGN ==> int_order(a.scaled(), b.scaled()) == (if x == 0 && y
                == 0 {
                Order::Equal
            } else {
                Order::Less
            })
        }),
{
    let x = a.0 as nat % SIGN as nat;
    let y = b.0 as nat % SIGN as nat;
    if x < y {
        lemma_magnitude_monotone(x, y);
    } else if y < x {
        lemma_magnitude_monotone(y, x);
    }
    if x > 0 {
        lemma_magnitude_monotone(0, x);
    }
    if y > 0 {
        lemma_magnitude_monotone(0, y);
    }
}

/// Two numbers compare as they do in a larger unit.
proof fn lemma_order_in_units(a: int, b: int, unit: int)
    requires
        unit > 0,
    ensures
        int_order(a * unit, b * unit) == int_order(a, b),
{
    if a < b {
        assert(a * unit < b * unit) by (nonlinear_arith)
            requires
                a < b,
                unit > 0,
        ;
    } else if b < a {
        assert(b * unit < a * unit) by (nonlinear_arith)
            requires
                b < a,
                unit > 0,
        ;
    }
}

/// `x` times 2 to the power `times`.
fn doubled(x: u64, times: u64) -> (product: u128)
    requires
        times <= 53,
    ensures
        product == x * pow2(times as nat),
{
    let mut product: u128 = x as u128;
    let mut i: u64 = 0;
    proof {
        power2::lemma2_to64();
    }
    while i < times
        invariant
            i <= times <= 53,
            product == x * pow2(i as nat),
        decreases times - i,
    {
        proof {
            power2::lemma2_to64_rest();
            let p = pow2(i as nat);
            power2::lemma_pow2_strictly_increases(i as nat, 53);
            power2::lemma_pow2_unfold((i + 1) as nat);
            assert(2 * (x * p) == x * (2 * p)) by (nonlinear_arith);
            assert(x * p <= 0xffff_ffff_ffff_ffff * p) by (nonlinear_arith)
                requires
                    x <= 0xffff_ffff_ffff_ffff,
                    p >= 0,
            ;
        }
        product = product * 2;
        i += 1;
    }
    product
}

/// Compares two sizes.
fn order_of(a: u128, b: u128) -> (order: Order)
    ensures
        order == int_order(a as int, b as int),
{
    if a < b {
        Order::Less
    } else if a == b {
        Order::Equal
    } else {
        Order::Greater
    }
}

/// Compares a number without a sign to an integer without one.
fn compare_sizes(bits: u64, n: u64) -> (order: Order)
    requires
        n <= SIGN,
    ensures
        order == int_order(magnitude(bits as nat) as int, n * pow2(1074)),
{
    let exponent: u64 = bits / FRACTIONS;
    let fraction: u64 = bits % FRACTIONS;
    let ghost unit = pow2(1074);
    proof {
        power2::lemma2_to64();
        power2::lemma2_to64_rest();
        power2::lemma_pow2_strictly_increases(53, 1074);
        assert(n >= 1 ==> n * unit >= unit) by (nonlinear_arith)
            requires
                unit > 0,
        ;
        assert(0 * unit == 0);
    }
    if exponent == 0 {
        if n > 0 {
            return Order::Less;
        }
        return order_of(fraction as u128, 0);
    }
    let significand: u64 = FRACTIONS + fraction;
    let power: u64 = exponent - 1;
    let ghost weight = pow2(power as nat);
    proof {
        power2::lemma_pow2_pos(power as nat);
    }
    if power >= 1074 {
        let more: u64 = power - 1074;
        proof {
            let p = pow2(more as nat);
            power2::lemma_pow2_adds(more as nat, 1074);
            assert(significand * (p * unit) == (significand * p) * unit) by (nonlinear_arith);
            lemma_order_in_units(significand * p, n as int, unit as int);
            if more > 11 {
                if more > 12 {
                    power2::lemma_pow2_strictly_increases(12, more as nat);
                }
                assert(significand * p >= FRACTIONS * 4096) by (nonlinear_arith)
                    requires
                        significand >= FRACTIONS,
                        p >= 4096,
                ;
            }
        }
        if more > 11 {
            return Order::Greater;
        }
        order_of(doubled(significand, more), n as u128)
    } else {
        let less: u64 = 1074 - power;
        proof {
            let p = pow2(less as nat);
            power2::lemma_pow2_adds(less as nat, power as nat);
            assert(n * (p * weight) == (n * p) * weight) by (nonlinear_arith);
            lemma_order_in_units(significand as int, n * p, weight as int);
            if less > 53 {
                power2::lemma_pow2_strictly_increases(53, less as nat);
                assert(n >= 1 ==> n * p >= p) by (nonlinear_arith)
                    requires
                        p > 0,
                ;
                assert(0 * p == 0);
            }
        }
        if less > 53 {
            return if n > 0 {
                Order::Less
            } else {
                Order::Greater
            };
        }
        order_of(significand as u128, doubled(n, less))
    }
}

impl Float {
    /// The number with these bits.
    pub fn from_bits(bits: u64) -> (number: Self)
        ensures
            number == Float(bits),
    {
        Float(bits)
    }

    /// The bits of the number.
    pub fn to_bits(self) -> (bits: u64)
        ensures
            bits == self.0,
    {
        self.0
    }

    /// Compares two numbers. There is no answer if one of them is none.
    pub fn compare(self, other: Float) -> (order: Option<Order>)
        ensures
            order == self.order(other),
    {
        let x: u64 = self.0 % SIGN;
        let y: u64 = other.0 % SIGN;
        if x > 2047 * FRACTIONS || y > 2047 * FRACTIONS {
            return None;
        }
        proof {
            lemma_bits_order(self, other);
        }
        let negative = self.0 >= SIGN;
        if negative != (other.0 >= SIGN) {
            if x == 0 && y == 0 {
                Some(Order::Equal)
            } else if negative {
                Some(Order::Less)
            } else {
                Some(Order::Greater)
            }
        } else if x == y {
            Some(Order::Equal)
        } else if (x < y) != negative {
            Some(Order::Less)
        } else {
            Some(Order::Greater)
        }
    }

    /// Compares the number to an integer, exactly. There is no answer if it
    /// is none.
    pub fn compare_int(self, n: i64) -> (order: Option<Order>)
        ensures
            order == self.order_to_int(n as int),
    {
        let x: u64 = self.0 % SIGN;
        if x > 2047 * FRACTIONS {
            return None;
        }
        let ghost unit = pow2(1074);
        proof {
            power2::lemma_pow2_pos(1074);
            if x > 0 {
                lemma_magnitude_monotone(0, x as nat);
            }
            assert(n == 0 ==> n * unit == 0);
            assert(n < 0 ==> n * unit < 0) by (nonlinear_arith)
                requires
                    unit > 0,
            ;
            assert(n > 0 ==> n * unit > 0) by (nonlinear_arith)
                requires
                    unit > 0,
            ;
        }
        if self.0 < SIGN {
            if n < 0 {
                Some(Order::Greater)
            } else {
                Some(compare_sizes(x, n as u64))
            }
        } else if n < 0 {
            let size: u64 = (-1 - n) as u64 + 1;
            assert(-(size * unit) == n * unit) by (nonlinear_arith)
                requires
                    size == -n,
            ;
            match compare_sizes(x, size) {
                Order::Less => Some(Order::Greater),
                Order::Equal => Some(Order::Equal),
                Order::Greater => Some(Order::Less),
            }
        } else if x == 0 && n == 0 {
            Some(Order::Equal)
        } else {
            Some(Order::Less)
        }
    }
}

impl PartialEq for Float {
    fn eq(&self, other: &Float) -> (same: bool) {
        match self.compare(*other) {
            Some(Order::Equal) => true,
            _ => false,
        }
    }
}

impl vstd::std_specs::cmp::PartialEqSpecImpl for Float {
    open spec fn obeys_eq_spec() -> bool {
        true
    }

    open spec fn eq_spec(&self, other: &Float) -> bool {
        self.equals(*other)
    }
}

/// The numbers that bits stand for: a sign, a binary exponent and a fraction.
/// Numbers with the smallest exponent have no leading bit.
pub proof fn law_bits_of_a_number(negative: bool, exponent: nat, fraction: nat)
    requires
        exponent < 2048,
        fraction < 0x10_0000_0000_0000,
    ensures
        ({
            let low = exponent * 0x10_0000_0000_0000 + fraction;
            let x = Float(
                (if negative {
                    0x8000_0000_0000_0000 + low
                } else {
                    low
                }) as u64,
            );
            let size = if exponent == 0 {
                fraction
            } else {
                (0x10_0000_0000_0000 + fraction) * pow2((exponent - 1) as nat)
            };
            &&& x.scaled() == if negative {
                -(size as int)
            } else {
                size as int
            }
            &&& x.is_nan() <==> exponent == 2047 && fraction > 0
        }),
{
    let low = exponent * 0x10_0000_0000_0000 + fraction;
    assert(low < 0x8000_0000_0000_0000);
    assert(low / 0x10_0000_0000_0000 == exponent);
    assert(low % 0x10_0000_0000_0000 == fraction);
}

/// Numbers without a sign compare as their bits do, numbers with a sign the
/// other way round, and both zeros are equal. What is no number does not
/// compare.
pub proof fn law_numbers_compare_by_their_bits(a: Float, b: Float)
    ensures
        a.order(b) is None <==> a.0 % 0x8000_0000_0000_0000 > 0x7ff0_0000_0000_0000 || b.0
            % 0x8000_0000_0000_0000 > 0x7ff0_0000_0000_0000,
        a.order(b) is Some && a.0 < 0x8000_0000_0000_0000 && b.0 < 0x8000_0000_0000_0000
            ==> a.order(b) == Some(int_order(a.0 as int, b.0 as int)),
        a.order(b) is Some && a.0 >= 0x8000_0000_0000_0000 && b.0 >= 0x8000_0000_0000_0000
            ==> a.order(b) == Some(int_order(b.0 as int, a.0 as int)),
        a.order(b) is Some && a.0 < 0x8000_0000_0000_0000 && b.0 >= 0x8000_0000_0000_0000
            ==> a.order(b) == Some(
            if a.0 == 0 && b.0 == 0x8000_0000_0000_0000 {
                Order::Equal
            } else {
                Order::Greater
            },
        ),
{
    lemma_bits_order(a, b);
    lemma_bits_order(b, a);
}

/// Integers compare as integers do.
pub proof fn law_order_of_integers(a: int, b: int)
    ensures
        int_order(a, b) == Order::Less <==> a < b,
        int_order(a, b) == Order::Equal <==> a == b,
        int_order(a, b) == Order::Greater <==> a > b,
{
}

/// A number compares to integers as a number between them does: to every
/// integer that is not larger than another in the same way or a higher one.
pub proof fn law_number_among_integers(x: Float, n: int, m: int)
    requires
        n < m,
    ensures
        x.order_to_int(n) is None <==> x.is_nan(),
        x.order_to_int(n) == Some(Order::Less) ==> x.order_to_int(m) == Some(Order::Less),
        x.order_to_int(n) == Some(Order::Equal) ==> x.order_to_int(m) == Some(Order::Less),
        x.order_to_int(m) == Some(Order::Equal) ==> x.order_to_int(n) == Some(Order::Greater),
        x.order_to_int(m) == Some(Order::Greater) ==> x.order_to_int(n) == Some(Order::Greater),
{
    power2::lemma_pow2_pos(1074);
    assert(n * pow2(1074) < m * pow2(1074)) by (nonlinear_arith)
        requires
            n < m,
            pow2(1074) > 0,
    ;
}

} // verus!
