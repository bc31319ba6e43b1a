//! Double-precision numbers by their bit patterns: equality, order and the
//! conversion from integers, computed with integer arithmetic.

use vstd::arithmetic::power2::*;
use vstd::prelude::*;

verus! {

/// A double-precision number, held by its IEEE 754 bit pattern.
#[derive(Debug, Clone, Copy, PartialEq, Eq, Hash, Structural)]
pub struct F64 {
    pub bits: u64,
}

/// The weight of the sign bit.
pub const SIGN: u64 = 0x8000_0000_0000_0000;

/// The bit pattern of positive infinity.
pub const INFINITY: u64 = 0x7FF0_0000_0000_0000;

impl F64 {
    /// The bits below the sign. They grow with the absolute value.
    pub open spec fn magnitude(self) -> int {
        if self.bits >= SIGN {
            self.bits - SIGN
        } else {
            self.bits as int
        }
    }

    /// Whether the bit pattern is not a number.
    pub open spec fn nan(self) -> bool {
        self.magnitude() > INFINITY
    }

    /// Whether the bit pattern is a finite number.
    pub open spec fn finite(self) -> bool {
        self.magnitude() < INFINITY
    }

    /// The place of a number among the numbers: it grows with the value, and
    /// both zeros share one place.
    pub open spec fn place(self) -> int {
        if self.bits >= SIGN {
            -self.magnitude()
        } else {
            self.magnitude()
        }
    }

    /// Numeric equality. Nothing equals what is not a number.
    pub open spec fn equals(self, other: F64) -> bool {
        !self.nan() && !other.nan() && self.place() == other.place()
    }

    /// Numeric order. What is not a number is in no order.
    pub open spec fn less(self, other: F64) -> bool {
        !self.nan() && !other.nan() && self.place() < other.place()
    }

    /// The place in the total order that puts every bit pattern that is not a
    /// number behind all numbers, and holds them equal to each other.
    pub open spec fn rank(self) -> int {
        if self.nan() {
            i64::MAX as int
        } else {
            self.place()
        }
    }

    /// Whether the bit pattern is no number.
    pub fn is_nan(&self) -> (r: bool)
        ensures
            r == self.nan(),
    {
        let m: u64 = if self.bits >= SIGN {
            self.bits - SIGN
        } else {
            self.bits
        };
        m > INFINITY
    }

    /// Whether the bit pattern is a finite number.
    pub fn is_finite(&self) -> (r: bool)
        ensures
            r == self.finite(),
    {
        let m: u64 = if self.bits >= SIGN {
            self.bits - SIGN
        } else {
            self.bits
        };
        m < INFINITY
    }

    /// The place in the total order.
    pub fn order_key(&self) -> (r: i64)
        ensures
            r == self.rank(),
    {
        if self.is_nan() {
            i64::MAX
        } else if self.bits >= SIGN {
            -((self.bits - SIGN) as i64)
        } else {
            self.bits as i64
        }
    }

    /// Numeric equality.
    pub fn num_eq(&self, other: &F64) -> (r: bool)
        ensures
            r == self.equals(*other),
    {
        !self.is_nan() && !other.is_nan() && self.order_key() == other.order_key()
    }

    /// Numeric order.
    pub fn num_lt(&self, other: &F64) -> (r: bool)
        ensures
            r == self.less(*other),
    {
        !self.is_nan() && !other.is_nan() && self.order_key() < other.order_key()
    }
}

/// The position of the highest set bit.
pub open spec fn top_bit(m: nat) -> nat
    decreases m,
{
    if m <= 1 {
        0
    } else {
        1 + top_bit(m / 2)
    }
}

/// `m / 2^shift`, rounded to the nearest integer, ties to the even one.
pub open spec fn rounded(m: nat, shift: nat) -> nat {
    let q = m / pow2(shift);
    let r = m % pow2(shift);
    if 2 * r > pow2(shift) || (2 * r == pow2(shift) && q % 2 == 1) {
        q + 1
    } else {
        q
    }
}

/// The 53 leading bits of a positive integer, rounded to nearest.
pub open spec fn significand(m: nat) -> nat {
    let e = top_bit(m);
    if e <= 52 {
        m * pow2((52 - e) as nat)
    } else {
        rounded(m, (e - 52) as nat)
    }
}

/// The bit pattern of the double that is nearest to a natural number.
pub open spec fn nearest_bits(m: nat) -> nat {
    if m == 0 {
        0
    } else {
        (top_bit(m) + 1022) * 0x10_0000_0000_0000 + significand(m)
    }
}

proof fn lemma_top_bit(m: nat)
    requires
        m > 0,
    ensures
        pow2(top_bit(m)) <= m < 2 * pow2(top_bit(m)),
    decreases m,
{
    lemma2_to64();
    if m > 1 {
        lemma_top_bit(m / 2);
        lemma_pow2_unfold(top_bit(m));
    }
}

/// The power of two with exponent `k`.
fn power_of_two(k: u32) -> (r: u64)
    requires
        k < 64,
    ensures
        r == pow2(k as nat),
{
    let mut i: u32 = 0;
    let mut p: u64 = 1;
    proof {
        lemma2_to64();
        lemma2_to64_rest();
    }
    while i < k
        invariant
            i <= k < 64,
            p == pow2(i as nat),
        decreases k - i,
    {
        proof {
            lemma_pow2_unfold((i + 1) as nat);
            lemma2_to64();
            lemma2_to64_rest();
            if i < 62 {
                lemma_pow2_strictly_increases(i as nat, 62);
            }
        }
        p = p * 2;
        i = i + 1;
    }
    p
}

proof fn lemma_significand_range(m: nat)
    requires
        m > 0,
    ensures
        pow2(52) <= significand(m) <= pow2(53),
        top_bit(m) <= 52 ==> significand(m) < pow2(53),
{
    let e = top_bit(m);
    lemma_top_bit(m);
    lemma2_to64();
    lemma2_to64_rest();
    if e <= 52 {
        let k = pow2((52 - e) as nat);
        lemma_pow2_pos((52 - e) as nat);
        lemma_pow2_adds(e, (52 - e) as nat);
        assert(pow2(e) * k <= m * k < (2 * pow2(e)) * k) by (nonlinear_arith)
            requires
                pow2(e) <= m < 2 * pow2(e),
                k > 0,
        ;
        assert((2 * pow2(e)) * k == 2 * (pow2(e) * k)) by (nonlinear_arith);
        lemma_pow2_unfold(53);
    } else {
        let sh = (e - 52) as nat;
        let d = pow2(sh);
        lemma_pow2_pos(sh);
        lemma_pow2_adds(52, sh);
        let q = m / d;
        assert(pow2(52) <= q < 2 * pow2(52)) by (nonlinear_arith)
            requires
                pow2(52) * d <= m < 2 * (pow2(52) * d),
                q == m / d,
                d > 0,
        ;
        lemma_pow2_unfold(53);
    }
}

/// The bit pattern grows with the number, as long as no rounding happens.
proof fn lemma_exact_monotone(a: nat, b: nat)
    requires
        a < b <= 0x20_0000_0000_0000,
    ensures
        nearest_bits(a) < nearest_bits(b),
{
    lemma2_to64();
    lemma2_to64_rest();
    lemma_significand_range(b);
    lemma_top_bit(b);
    if a > 0 {
        lemma_significand_range(a);
        lemma_top_bit(a);
        let ea = top_bit(a);
        let eb = top_bit(b);
        if ea > eb {
            if ea > eb + 1 {
                lemma_pow2_strictly_increases((eb + 1) as nat, ea);
            }
            lemma_pow2_unfold((eb + 1) as nat);
            assert(false);
        }
        if ea > 52 {
            if ea > 53 {
                lemma_pow2_strictly_increases(53, ea);
            }
            assert(false);
        }
        if ea == eb {
            let k = pow2((52 - ea) as nat);
            lemma_pow2_pos((52 - ea) as nat);
            assert(a * k < b * k) by (nonlinear_arith)
                requires
                    a < b,
                    k > 0,
            ;
        }
    }
}

impl F64 {
    /// The bit pattern of the double nearest to an integer.
    pub open spec fn of_int(i: int) -> F64 {
        F64 {
            bits: if i < 0 {
                (SIGN + nearest_bits((-i) as nat)) as u64
            } else {
                nearest_bits(i as nat) as u64
            },
        }
    }

    /// Converts an integer to the nearest double, ties to the even one.
    pub fn from_i64(i: i64) -> (r: F64)
        ensures
            r == F64::of_int(i as int),
            r.finite(),
    {
        let m: u64 = if i < 0 {
            (-(i as i128)) as u64
        } else {
            i as u64
        };
        let bits: u64 = F64::nearest(m);
        if i < 0 {
            F64 { bits: SIGN + bits }
        } else {
            F64 { bits }
        }
    }

    /// Converts a natural number to the nearest double, ties to the even one.
    pub fn from_u64(n: u64) -> (r: F64)
        ensures
            r == F64::of_int(n as int),
            r.finite(),
    {
        F64 { bits: F64::nearest(n) }
    }

    fn nearest(m: u64) -> (r: u64)
        ensures
            r == nearest_bits(m as nat),
            r < INFINITY,
    {
        if m == 0 {
            return 0;
        }
        proof {
            lemma2_to64();
            lemma2_to64_rest();
            lemma_significand_range(m as nat);
        }
        let mut e: u32 = 0;
        let mut rest: u64 = m;
        while rest > 1
            invariant
                rest > 0,
                m > 0,
                top_bit(m as nat) == e + top_bit(rest as nat),
                e <= 64,
                rest < pow2((64 - e) as nat),
            decreases rest,
        {
            proof {
                lemma2_to64();
                if e == 64 {
                    assert(false);
                }
                lemma_pow2_unfold((64 - e) as nat);
            }
            rest = rest / 2;
            e = e + 1;
        }
        proof {
            if e == 64 {
                assert(false);
            }
        }
        let sig: u64 = if e <= 52 {
            let k: u64 = power_of_two(52 - e);
            proof {
                assert(m * k == significand(m as nat));
            }
            m * k
        } else {
            let d: u64 = power_of_two(e - 52);
            proof {
                lemma_pow2_pos((e - 52) as nat);
                if e < 63 {
                    lemma_pow2_strictly_increases((e - 52) as nat, 11);
                }
            }
            let q: u64 = m / d;
            let r: u64 = m % d;
            if 2 * r > d || (2 * r == d && q % 2 == 1) {
                proof {
                    assert(q + 1 == significand(m as nat));
                }
                q + 1
            } else {
                q
            }
        };
        (e as u64 + 1022) * 0x10_0000_0000_0000 + sig
    }
}

/// Integers of up to 53 bits keep their order, and so stay distinct, when they
/// are converted to doubles.
pub proof fn small_integers_convert_exactly(i: int, j: int)
    requires
        -0x20_0000_0000_0000 <= i < j <= 0x20_0000_0000_0000,
    ensures
        F64::of_int(i).less(F64::of_int(j)),
        !F64::of_int(i).equals(F64::of_int(j)),
{
    lemma_small_bits(i);
    lemma_small_bits(j);
    if i >= 0 {
        lemma_exact_monotone(i as nat, j as nat);
    } else if j < 0 {
        lemma_exact_monotone((-j) as nat, (-i) as nat);
    } else {
        lemma_exact_monotone(0, (-i) as nat);
    }
}

proof fn lemma_small_bits(i: int)
    requires
        -0x20_0000_0000_0000 <= i <= 0x20_0000_0000_0000,
    ensures
        nearest_bits(vstd::math::abs(i) as nat) < INFINITY,
{
    let m = vstd::math::abs(i) as nat;
    lemma2_to64();
    lemma2_to64_rest();
    if m > 0 {
        lemma_significand_range(m);
        lemma_top_bit(m);
        if top_bit(m) > 53 {
            lemma_pow2_strictly_increases(53, top_bit(m));
        }
    }
}

/// Every signed integer converts to a finite double.
pub proof fn integers_convert_to_numbers(i: i64)
    ensures
        F64::of_int(i as int).finite(),
        F64::of_int(i as int).place() == (if i < 0 {
            -(nearest_bits((-i) as nat) as int)
        } else {
            nearest_bits(i as nat) as int
        }),
{
    let m = vstd::math::abs(i as int) as nat;
    lemma2_to64();
    lemma2_to64_rest();
    if m > 0 {
        lemma_significand_range(m);
        lemma_top_bit(m);
        if top_bit(m) > 63 {
            lemma_pow2_strictly_increases(63, top_bit(m));
        }
    }
}

/// Every natural number of up to 64 bits converts to a finite double.
pub proof fn naturals_convert_to_numbers(n: u64)
    ensures
        F64::of_int(n as int).finite(),
{
    let m = n as nat;
    lemma2_to64();
    lemma2_to64_rest();
    if m > 0 {
        lemma_significand_range(m);
        lemma_top_bit(m);
        if top_bit(m) > 63 {
            if top_bit(m) > 64 {
                lemma_pow2_strictly_increases(64, top_bit(m));
            }
            assert(false);
        }
    }
}

/// From 53 bits on, no integer converts to a double below that of the first of
/// them.
proof fn lemma_large_stay_large(m: nat)
    requires
        m >= 0x20_0000_0000_0000,
    ensures
        nearest_bits(m) >= nearest_bits(0x20_0000_0000_0000),
{
    let first: nat = 0x20_0000_0000_0000;
    lemma2_to64();
    lemma2_to64_rest();
    lemma_top_bit(m);
    lemma_top_bit(first);
    lemma_significand_range(m);
    if top_bit(m) < 53 {
        if top_bit(m) < 52 {
            lemma_pow2_strictly_increases(top_bit(m), 52);
        }
        assert(false);
    }
    if top_bit(first) < 53 {
        if top_bit(first) < 52 {
            lemma_pow2_strictly_increases(top_bit(first), 52);
        }
        assert(false);
    }
    if top_bit(first) > 53 {
        lemma_pow2_strictly_increases(53, top_bit(first));
        assert(false);
    }
    assert(significand(first) == pow2(52));
}

/// An integer below 53 bits shares its double with no other integer.
pub proof fn small_integers_stand_alone(i: i64, j: i64)
    requires
        -0x20_0000_0000_0000 < i < 0x20_0000_0000_0000,
        i != j,
    ensures
        F64::of_int(i as int).place() != F64::of_int(j as int).place(),
{
    integers_convert_to_numbers(i);
    integers_convert_to_numbers(j);
    if -0x20_0000_0000_0000 <= j <= 0x20_0000_0000_0000 {
        if i < j {
            small_integers_convert_exactly(i as int, j as int);
        } else {
            small_integers_convert_exactly(j as int, i as int);
        }
    } else {
        lemma_large_stay_large(vstd::math::abs(j as int) as nat);
        lemma_exact_monotone(vstd::math::abs(i as int) as nat, 0x20_0000_0000_0000);
    }
}

/// A single-precision number, held by its IEEE 754 bit pattern.
#[derive(Debug, Clone, Copy, PartialEq, Eq, Hash, Structural)]
pub struct F32 {
    pub bits: u32,
}

/// The bit pattern of positive infinity in single precision.
pub const INFINITY_32: u32 = 0x7F80_0000;

impl F32 {
    /// The bits below the sign.
    pub open spec fn magnitude(self) -> int {
        if self.bits >= 0x8000_0000 {
            self.bits - 0x8000_0000
        } else {
            self.bits as int
        }
    }

    /// Whether the bit pattern is not a number.
    pub open spec fn nan(self) -> bool {
        self.magnitude() > INFINITY_32
    }

    /// The place in the order of numbers, behind which stands what is no number.
    pub open spec fn rank(self) -> int {
        if self.nan() {
            0x7FFF_FFFF
        } else if self.bits >= 0x8000_0000 {
            -self.magnitude()
        } else {
            self.magnitude()
        }
    }

    /// The place in the order.
    pub fn order_key(&self) -> (r: i64)
        ensures
            r == self.rank(),
    {
        let m: u32 = if self.bits >= 0x8000_0000 {
            self.bits - 0x8000_0000
        } else {
            self.bits
        };
        if m > INFINITY_32 {
            0x7FFF_FFFF
        } else if self.bits >= 0x8000_0000 {
            -(m as i64)
        } else {
            m as i64
        }
    }
}

// ---------------------------------------------------------------------------
// What bit patterns stand for
// ---------------------------------------------------------------------------

/// The absolute value that the bits below the sign stand for, with `p` bits of
/// fraction, in units of the smallest positive number: the exponent field tells
/// how often the significand is doubled, and the leading bit is not written
/// down but for the smallest exponent.
pub open spec fn magnitude_units(m: nat, p: nat) -> nat {
    if m / pow2(p) == 0 {
        m
    } else {
        (m % pow2(p) + pow2(p)) * pow2((m / pow2(p) - 1) as nat)
    }
}

/// The value of a double in units of the smallest positive one.
pub open spec fn double_units(f: F64) -> int {
    let m = magnitude_units((f.bits as nat) % 0x8000_0000_0000_0000, 52);
    if (f.bits as nat) < 0x8000_0000_0000_0000 {
        m as int
    } else {
        -(m as int)
    }
}

/// The value of a single in units of the smallest positive one.
pub open spec fn single_units(f: F32) -> int {
    let m = magnitude_units((f.bits as nat) % 0x8000_0000, 23);
    if (f.bits as nat) < 0x8000_0000 {
        m as int
    } else {
        -(m as int)
    }
}

proof fn lemma_units_grow(a: nat, b: nat, p: nat)
    requires
        a < b,
    ensures
        magnitude_units(a, p) < magnitude_units(b, p),
{
    let d = pow2(p);
    lemma_pow2_pos(p);
    let (ea, eb) = (a / d, b / d);
    let (ma, mb) = (a % d, b % d);
    assert(a == d * ea + ma && b == d * eb + mb && ma < d && mb < d && ea <= eb) by (nonlinear_arith)
        requires
            a < b,
            d > 0,
            ea == a / d,
            eb == b / d,
            ma == a % d,
            mb == b % d,
    ;
    if ea == eb {
        if ea > 0 {
            let k = pow2((ea - 1) as nat);
            lemma_pow2_pos((ea - 1) as nat);
            assert((ma + d) * k < (mb + d) * k) by (nonlinear_arith)
                requires
                    ma < mb,
                    k > 0,
            ;
        }
    } else {
        let k = pow2((eb - 1) as nat);
        lemma_pow2_pos((eb - 1) as nat);
        assert((mb + d) * k >= d * k) by (nonlinear_arith)
            requires
                k > 0,
                mb >= 0,
        ;
        if ea == 0 {
            assert(d * k >= d) by (nonlinear_arith)
                requires
                    k > 0,
                    d > 0,
            ;
            assert(a == ma) by (nonlinear_arith)
                requires
                    a == d * ea + ma,
                    ea == 0,
            ;
        } else {
            let j = pow2((ea - 1) as nat);
            lemma_pow2_pos((ea - 1) as nat);
            lemma_pow2_unfold(ea);
            if ea < eb - 1 {
                lemma_pow2_strictly_increases(ea, (eb - 1) as nat);
            }
            assert((ma + d) * j < d * k) by (nonlinear_arith)
                requires
                    ma < d,
                    j > 0,
                    2 * j <= k,
                    d > 0,
            ;
        }
    }
}

proof fn lemma_units_zero(p: nat)
    ensures
        magnitude_units(0, p) == 0,
{
    lemma_pow2_pos(p);
    assert(0nat / pow2(p) == 0) by (nonlinear_arith)
        requires
            pow2(p) > 0,
    ;
}

/// Doubles compare as the values that they stand for: the order and the
/// equality of bit patterns are those of the numbers, negative ones below
/// positive ones, and both zeros are equal.
pub proof fn doubles_compare_by_value(a: F64, b: F64)
    requires
        a.bits % 0x8000_0000_0000_0000 <= 0x7FF0_0000_0000_0000,
        b.bits % 0x8000_0000_0000_0000 <= 0x7FF0_0000_0000_0000,
    ensures
        !a.nan(),
        a.less(b) <==> double_units(a) < double_units(b),
        a.equals(b) <==> double_units(a) == double_units(b),
        a.rank() < b.rank() <==> double_units(a) < double_units(b),
        a.rank() == b.rank() <==> double_units(a) == double_units(b),
{
    let m = (a.bits as nat) % 0x8000_0000_0000_0000;
    let n = (b.bits as nat) % 0x8000_0000_0000_0000;
    lemma_units_zero(52);
    if m < n {
        lemma_units_grow(m, n, 52);
    }
    if n < m {
        lemma_units_grow(n, m, 52);
    }
    if 0 < m {
        lemma_units_grow(0, m, 52);
    }
    if 0 < n {
        lemma_units_grow(0, n, 52);
    }
}

/// A double pattern above that of infinity is no number: it equals nothing, not
/// even itself, is in no order, and ranks behind every number.
pub proof fn no_number_compares(a: F64, b: F64)
    requires
        a.bits % 0x8000_0000_0000_0000 > 0x7FF0_0000_0000_0000,
    ensures
        a.nan() && !a.finite(),
        !a.equals(b) && !b.equals(a) && !a.less(b) && !b.less(a),
        b.bits % 0x8000_0000_0000_0000 <= 0x7FF0_0000_0000_0000 ==> b.rank() < a.rank(),
        b.bits % 0x8000_0000_0000_0000 > 0x7FF0_0000_0000_0000 ==> b.rank() == a.rank(),
{
}

/// Distances rank as the numbers that their bit patterns stand for: a negative
/// one below every other, and of two negative ones the one with the greater
/// magnitude first.
pub proof fn singles_rank_by_value(a: F32, b: F32)
    requires
        a.bits % 0x8000_0000 <= 0x7F80_0000,
        b.bits % 0x8000_0000 <= 0x7F80_0000,
    ensures
        a.rank() < b.rank() <==> single_units(a) < single_units(b),
        a.rank() == b.rank() <==> single_units(a) == single_units(b),
        a.bits > 0x8000_0000 && b.bits < 0x8000_0000 ==> a.rank() < b.rank(),
        a.bits >= 0x8000_0000 && b.bits >= 0x8000_0000 ==> (a.rank() < b.rank() <==> a.bits > b.bits),
        a.bits < 0x8000_0000 && b.bits < 0x8000_0000 ==> (a.rank() < b.rank() <==> a.bits < b.bits),
{
    let m = (a.bits as nat) % 0x8000_0000;
    let n = (b.bits as nat) % 0x8000_0000;
    lemma_units_zero(23);
    if m < n {
        lemma_units_grow(m, n, 23);
    }
    if n < m {
        lemma_units_grow(n, m, 23);
    }
    if 0 < m {
        lemma_units_grow(0, m, 23);
    }
    if 0 < n {
        lemma_units_grow(0, n, 23);
    }
}

/// What is no number ranks behind every number, and with its like.
pub proof fn no_single_ranks_last(a: F32, b: F32)
    requires
        a.bits % 0x8000_0000 > 0x7F80_0000,
    ensures
        b.bits % 0x8000_0000 <= 0x7F80_0000 ==> b.rank() < a.rank(),
        b.bits % 0x8000_0000 > 0x7F80_0000 ==> b.rank() == a.rank(),
{
}

/// The pattern of the nearest double stands for its significand.
proof fn lemma_nearest_units(m: nat)
    requires
        0 < m <= u64::MAX,
    ensures
        nearest_bits(m) < INFINITY,
        magnitude_units(nearest_bits(m), 52) == significand(m) * pow2((top_bit(m) + 1022) as nat),
        top_bit(m) < 64,
{
    let e = top_bit(m);
    let d = pow2(52);
    lemma2_to64();
    lemma2_to64_rest();
    lemma_significand_range(m);
    lemma_top_bit(m);
    if e >= 64 {
        if e > 64 {
            lemma_pow2_strictly_increases(64, e);
        }
        assert(false);
    }
    let sig = significand(m);
    let b = nearest_bits(m);
    lemma_pow2_unfold(53);
    if sig < 2 * d {
        assert(b / d == e + 1023 && b % d == sig - d) by (nonlinear_arith)
            requires
                b == (e + 1022) * d + sig,
                d <= sig < 2 * d,
                d > 0,
        ;
    } else {
        assert(b / d == e + 1024 && b % d == 0) by (nonlinear_arith)
            requires
                b == (e + 1022) * d + sig,
                sig == 2 * d,
                d > 0,
        ;
        lemma_pow2_unfold((e + 1023) as nat);
        assert(d * (2 * pow2((e + 1022) as nat)) == (2 * d) * pow2((e + 1022) as nat)) by (nonlinear_arith);
    }
}

proof fn lemma_rounding_error(m: nat, shift: nat)
    ensures
        ({
            let err = rounded(m, shift) * pow2(shift) - m;
            &&& -(pow2(shift) as int) <= 2 * err <= pow2(shift)
            &&& (2 * err == pow2(shift) || 2 * err == -(pow2(shift) as int)) ==> rounded(m, shift) % 2 == 0
        }),
{
    let d = pow2(shift);
    lemma_pow2_pos(shift);
    let q = m / d;
    let r = m % d;
    assert(m == q * d + r && r < d) by (nonlinear_arith)
        requires
            q == m / d,
            r == m % d,
            d > 0,
    ;
    assert((q + 1) * d == q * d + d) by (nonlinear_arith);
}

/// How far the double of an integer is from it, in the units of [`double_units`].
pub open spec fn conversion_error(i: int) -> int {
    double_units(F64::of_int(i)) - i * pow2(1074)
}

/// An integer of up to 53 bits converts to the double that stands for it
/// exactly. `2^1074` units are one.
pub proof fn small_integers_keep_their_value(i: int)
    requires
        -0x20_0000_0000_0000 <= i <= 0x20_0000_0000_0000,
    ensures
        double_units(F64::of_int(i)) == i * pow2(1074),
{
    lemma2_to64();
    lemma2_to64_rest();
    lemma_units_zero(52);
    let m = vstd::math::abs(i) as nat;
    if m > 0 {
        lemma_nearest_units(m);
        lemma_top_bit(m);
        let e = top_bit(m);
        if e > 53 {
            lemma_pow2_strictly_increases(53, e);
            assert(false);
        }
        let big = pow2((e + 1022) as nat);
        if e <= 52 {
            let k = pow2((52 - e) as nat);
            lemma_pow2_adds((52 - e) as nat, (e + 1022) as nat);
            assert((m * k) * big == m * (k * big)) by (nonlinear_arith);
        } else {
            assert(m == 0x20_0000_0000_0000);
            assert(pow2(1) == 2);
            assert(significand(m) == pow2(52));
            lemma_pow2_adds(52, 1075);
            lemma_pow2_adds(53, 1074);
        }
        let u = pow2(1074);
        assert((-m) * u == -(m * u)) by (nonlinear_arith);
    } else {
        assert(0 * pow2(1074) == 0);
    }
}

/// A larger integer converts to a double within half the distance of the two
/// doubles around it; halfway between them the even one is taken. Integers from
/// `2^e` up to `2^(e + 1)` have doubles that are `2^(e - 52)` apart.
pub proof fn large_integers_are_rounded(i: int, e: nat)
    requires
        52 < e < 64,
        pow2(e) <= vstd::math::abs(i) < 2 * pow2(e),
        vstd::math::abs(i) <= u64::MAX,
    ensures
        -(pow2((e + 1022) as nat) as int) <= 2 * conversion_error(i) <= pow2((e + 1022) as nat),
        vstd::math::abs(2 * conversion_error(i)) == pow2((e + 1022) as nat) ==> F64::of_int(i).bits % 2
            == 0,
{
    lemma2_to64();
    lemma2_to64_rest();
    let m = vstd::math::abs(i) as nat;
    lemma_pow2_pos(e);
    lemma_nearest_units(m);
    lemma_top_bit(m);
    let t = top_bit(m);
    if t < e {
        lemma_pow2_unfold((t + 1) as nat);
        if t + 1 < e {
            lemma_pow2_strictly_increases((t + 1) as nat, e);
        }
        assert(false);
    }
    if t > e {
        lemma_pow2_unfold((e + 1) as nat);
        if e + 1 < t {
            lemma_pow2_strictly_increases((e + 1) as nat, t);
        }
        assert(false);
    }
    let sh = (e - 52) as nat;
    let d = pow2(sh);
    let sig = significand(m);
    assert(sig == rounded(m, sh));
    lemma_rounding_error(m, sh);
    let u = pow2(1074);
    lemma_pow2_adds(sh, 1074);
    let big = pow2((e + 1022) as nat);
    assert(big == d * u);
    let err = sig * d - m;
    assert(sig * big - m * u == err * u) by (nonlinear_arith)
        requires
            big == d * u,
            err == sig * d - m,
    ;
    lemma_pow2_pos(1074);
    assert(-(d * u) <= 2 * (err * u) <= d * u) by (nonlinear_arith)
        requires
            -(d as int) <= 2 * err <= d,
            u > 0,
    ;
    assert((-m) * u == -(m * u)) by (nonlinear_arith);
    if 2 * (err * u) == d * u || 2 * (err * u) == -(d * u) {
        assert(2 * err == d || 2 * err == -(d as int)) by (nonlinear_arith)
            requires
                2 * (err * u) == d * u || 2 * (err * u) == -(d * u),
                u > 0,
        ;
        assert(nearest_bits(m) % 2 == 0);
    }
}

/// The patterns of infinity are no finite numbers, and all below them are.
pub proof fn finite_patterns_are_below_infinity(f: F64)
    ensures
        f.finite() <==> f.bits % 0x8000_0000_0000_0000 < 0x7FF0_0000_0000_0000,
        f.nan() <==> f.bits % 0x8000_0000_0000_0000 > 0x7FF0_0000_0000_0000,
{
}

} // verus!
