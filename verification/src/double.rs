//! Doubles, as the whole numbers they are made of.
//!
//! A number on the wire is read as the double nearest to it, the even one of
//! two that are as near, and is written with the fewest places after the point
//! that read back as the same double.
use vstd::prelude::*;

use vstd::arithmetic::div_mod::lemma_fundamental_div_mod_converse;

use crate::big::Big;
use crate::strings::{decimal, digits_value, is_digit, parse_number};

verus! {

/// Two to the fifty-second: the least mantissa of all bits.
pub const LEAST: u64 = 0x10_0000_0000_0000;

/// Two to the fifty-third: past the largest mantissa.
pub const PAST: u64 = 0x20_0000_0000_0000;

/// The exponent of the smallest doubles.
pub const LOWEST: i16 = -1074;

/// The exponent that infinity alone has.
pub const ENDLESS: i16 = 972;

/// A double: `mantissa` times two to the `exponent`, below zero when it is
/// negative. Infinity is two to the thousand and twenty-fourth.
#[derive(Debug, Clone, Copy, PartialEq, Eq, Structural)]
pub struct Double {
    pub negative: bool,
    pub mantissa: u64,
    pub exponent: i16,
}

/// Two to the `n`.
pub open spec fn two_to(n: nat) -> nat
    decreases n,
{
    if n == 0 {
        1
    } else {
        2 * two_to((n - 1) as nat)
    }
}

/// Ten to the `n`.
pub open spec fn pow10(n: nat) -> nat
    decreases n,
{
    if n == 0 {
        1
    } else {
        10 * pow10((n - 1) as nat)
    }
}

/// The whole number nearest to a ratio, and the even one of two.
pub open spec fn nearest(num: nat, den: nat) -> nat {
    let q = num / den;
    let r = num % den;
    if 2 * r > den || (2 * r == den && q % 2 == 1) {
        q + 1
    } else {
        q
    }
}

/// The mantissa and the exponent of the double nearest to a ratio times two to
/// the `exponent`, which is the least exponent it may have.
pub open spec fn rounded(num: nat, den: nat, exponent: int) -> (nat, int)
    decreases ENDLESS - exponent,
{
    if exponent >= ENDLESS {
        (LEAST as nat, ENDLESS as int)
    } else if num < PAST * den {
        let m = nearest(num, den);
        if m == PAST {
            (LEAST as nat, exponent + 1)
        } else {
            (m, exponent)
        }
    } else {
        rounded(num, 2 * den, exponent + 1)
    }
}

/// The double nearest to a ratio.
pub open spec fn double_near(negative: bool, num: nat, den: nat) -> Double {
    let (m, e) = rounded(num * two_to(1074), den, LOWEST as int);
    Double { negative, mantissa: m as u64, exponent: e as i16 }
}

/// The double nearest to a whole number.
pub open spec fn double_of(n: int) -> Double {
    if n < 0 {
        double_near(true, (-n) as nat, 1)
    } else {
        double_near(false, n as nat, 1)
    }
}

/// The double nearest to the number whose digits are `d`, of which the last
/// `places` stand after the point; fewer than none when zeros follow.
pub open spec fn decimal_double(negative: bool, d: Seq<char>, places: int) -> Double {
    if places <= 0 {
        double_near(negative, digits_value(d) * pow10((-places) as nat), 1)
    } else {
        double_near(negative, digits_value(d), pow10(places as nat))
    }
}

impl Double {
    /// The mantissa has all its bits, but for the smallest doubles.
    pub open spec fn valid(self) -> bool {
        &&& self.mantissa < PAST
        &&& LOWEST <= self.exponent <= ENDLESS
        &&& self.mantissa < LEAST ==> self.exponent == LOWEST
        &&& self.exponent == ENDLESS ==> self.mantissa == LEAST
    }

    /// How far this is from zero, without what stands after the point.
    pub open spec fn floor(self) -> nat {
        if self.exponent >= 0 {
            self.mantissa as nat * two_to(self.exponent as nat)
        } else {
            self.mantissa as nat / two_to((-self.exponent) as nat)
        }
    }

    /// Nothing stands after the point.
    pub open spec fn whole(self) -> bool {
        self.exponent >= 0 || self.mantissa as nat % two_to((-self.exponent) as nat) == 0
    }

    /// This is a number, and not infinite.
    pub open spec fn finite(self) -> bool {
        self.exponent < ENDLESS
    }

    /// The count that this is: no less than zero, no larger than `max`, and
    /// without what stands after the point.
    pub open spec fn count(self, max: nat) -> Option<nat> {
        if self.negative && self.mantissa > 0 {
            None
        } else if self.floor() < max || (self.floor() == max && self.whole()) {
            Some(self.floor())
        } else {
            None
        }
    }

    /// The whole number that this is, when it is one: the nearest there is to
    /// it.
    pub open spec fn integer(self) -> Option<i64> {
        if !self.whole() {
            None
        } else if self.negative {
            Some(
                if self.floor() > 0x8000_0000_0000_0000 {
                    i64::MIN
                } else {
                    (-(self.floor() as int)) as i64
                },
            )
        } else {
            Some(
                if self.floor() > i64::MAX {
                    i64::MAX
                } else {
                    self.floor() as i64
                },
            )
        }
    }

    /// The amount that this is: what is below zero is none at all, and what is
    /// past the largest is the largest.
    pub open spec fn amount(self) -> u64 {
        if self.negative {
            0
        } else if self.floor() > u64::MAX {
            u64::MAX
        } else {
            self.floor() as u64
        }
    }

    /// The whole number nearest to this ten to the `p` over, leaving out the
    /// sign.
    pub open spec fn scaled(self, p: nat) -> nat {
        if self.exponent >= 0 {
            self.mantissa as nat * two_to(self.exponent as nat) * pow10(p)
        } else {
            nearest(self.mantissa as nat * pow10(p), two_to((-self.exponent) as nat))
        }
    }

    /// This, written with `p` places after the point, reads back as itself.
    pub open spec fn reads_back(self, p: nat) -> bool {
        double_near(self.negative, self.scaled(p), pow10(p)) == self
    }

    /// The fewest places after the point that read back, from `p` to seventeen;
    /// past those, all there are.
    pub open spec fn fewest(self, p: nat) -> nat
        decreases 18 - p,
    {
        if p > 17 {
            (-self.exponent) as nat
        } else if self.reads_back(p) {
            p
        } else {
            self.fewest(p + 1)
        }
    }

    /// How many places after the point this is written with.
    pub open spec fn places(self) -> nat {
        if self.exponent >= 0 {
            0
        } else {
            self.fewest(0)
        }
    }
}

// ---- powers ----

/// Powers of two multiply by adding.
pub proof fn lemma_two_to_add(a: nat, b: nat)
    ensures
        two_to(a + b) == two_to(a) * two_to(b),
    decreases b,
{
    if b == 0 {
        assert(two_to(a) * 1 == two_to(a)) by (nonlinear_arith);
    } else {
        lemma_two_to_add(a, (b - 1) as nat);
        assert(two_to(a) * (2 * two_to((b - 1) as nat)) == 2 * (two_to(a) * two_to(
            (b - 1) as nat,
        ))) by (nonlinear_arith);
    }
}

/// Powers of two grow.
pub proof fn lemma_two_to_grows(a: nat, b: nat)
    requires
        a <= b,
    ensures
        1 <= two_to(a) <= two_to(b),
        a < b ==> two_to(a) < two_to(b),
    decreases b,
{
    if a < b {
        lemma_two_to_grows(a, (b - 1) as nat);
    } else if a > 0 {
        lemma_two_to_grows((a - 1) as nat, (b - 1) as nat);
    }
}

/// Some powers of two.
pub proof fn lemma_two_to_values()
    ensures
        two_to(10) == 1024,
        two_to(52) == LEAST,
        two_to(53) == PAST,
        two_to(64) == 0x1_0000_0000_0000_0000,
        two_to(66) == 0x4_0000_0000_0000_0000,
        two_to(116) == 0x10_0000_0000_0000_0000_0000_0000_0000,
        two_to(121) == 0x200_0000_0000_0000_0000_0000_0000_0000,
        two_to(122) == 0x400_0000_0000_0000_0000_0000_0000_0000,
{
    reveal_with_fuel(two_to, 17);
    assert(two_to(16) == 0x1_0000);
    lemma_product(16, 0x1_0000, 16, 0x1_0000);
    lemma_product(32, 0x1_0000_0000, 16, 0x1_0000);
    lemma_product(48, 0x1_0000_0000_0000, 4, 16);
    lemma_product(48, 0x1_0000_0000_0000, 5, 32);
    lemma_product(32, 0x1_0000_0000, 32, 0x1_0000_0000);
    lemma_product(64, 0x1_0000_0000_0000_0000, 2, 4);
    lemma_product(64, 0x1_0000_0000_0000_0000, 52, LEAST as nat);
    lemma_product(116, 0x10_0000_0000_0000_0000_0000_0000_0000, 5, 32);
    lemma_product(116, 0x10_0000_0000_0000_0000_0000_0000_0000, 6, 64);
}

/// Two powers of two that are known, multiplied.
proof fn lemma_product(a: nat, x: nat, b: nat, y: nat)
    requires
        two_to(a) == x,
        two_to(b) == y,
    ensures
        two_to(a + b) == x * y,
{
    lemma_two_to_add(a, b);
}

/// Powers of ten multiply by adding.
pub proof fn lemma_pow10_add(a: nat, b: nat)
    ensures
        pow10(a + b) == pow10(a) * pow10(b),
    decreases b,
{
    if b == 0 {
        assert(pow10(a) * 1 == pow10(a)) by (nonlinear_arith);
    } else {
        lemma_pow10_add(a, (b - 1) as nat);
        assert(pow10(a) * (10 * pow10((b - 1) as nat)) == 10 * (pow10(a) * pow10(
            (b - 1) as nat,
        ))) by (nonlinear_arith);
    }
}

/// Powers of ten grow.
pub proof fn lemma_pow10_grows(a: nat, b: nat)
    requires
        a <= b,
    ensures
        1 <= pow10(a) <= pow10(b),
    decreases b,
{
    if a < b {
        lemma_pow10_grows(a, (b - 1) as nat);
    } else if a > 0 {
        lemma_pow10_grows((a - 1) as nat, (b - 1) as nat);
    }
}

/// A ten is three twos and more.
proof fn lemma_pow10_past_two(n: nat)
    ensures
        pow10(n) >= two_to(3 * n),
    decreases n,
{
    if n > 0 {
        lemma_pow10_past_two((n - 1) as nat);
        let k = (3 * n - 3) as nat;
        assert(two_to(k + 1) == 2 * two_to(k));
        assert(two_to(k + 2) == 2 * two_to(k + 1));
        assert(two_to(k + 3) == 2 * two_to(k + 2));
    }
}

/// Ten to the nineteenth.
proof fn lemma_pow10_values()
    ensures
        pow10(17) == 100_000_000_000_000_000,
        pow10(19) == 10_000_000_000_000_000_000,
{
    reveal_with_fuel(pow10, 20);
}

// ---- rounding ----

/// A rounded ratio lies next to it.
pub proof fn lemma_nearest(num: nat, den: nat, low: nat, high: nat)
    requires
        den > 0,
        low * den <= num < high * den,
    ensures
        low <= nearest(num, den) <= high,
{
    let q = num / den;
    assert(low <= q < high) by (nonlinear_arith)
        requires
            den > 0,
            low * den <= num < high * den,
            q == num / den,
    ;
}

/// A whole ratio is its own nearest.
proof fn lemma_nearest_exact(m: nat, den: nat)
    requires
        den > 0,
    ensures
        nearest(m * den, den) == m,
{
    lemma_fundamental_div_mod_converse((m * den) as int, den as int, m as int, 0);
}

/// Twice both is the same ratio.
proof fn lemma_nearest_twice(a: nat, b: nat)
    requires
        b > 0,
    ensures
        nearest(2 * a, 2 * b) == nearest(a, b),
{
    let q = a / b;
    let r = a % b;
    assert(a == b * q + r) by {
        vstd::arithmetic::div_mod::lemma_fundamental_div_mod(a as int, b as int);
    }
    assert(2 * a == (2 * b) * q + 2 * r) by (nonlinear_arith)
        requires
            a == b * q + r,
    ;
    assert(q * (2 * b) == (2 * b) * q) by (nonlinear_arith);
    lemma_fundamental_div_mod_converse((2 * a) as int, (2 * b) as int, q as int, (2 * r) as int);
}

/// Twice both is the same double.
proof fn lemma_rounded_twice(a: nat, b: nat, x: int)
    requires
        b > 0,
    ensures
        rounded(2 * a, 2 * b, x) == rounded(a, b, x),
    decreases ENDLESS - x,
{
    if x < ENDLESS {
        if a < PAST * b {
            lemma_nearest_twice(a, b);
        } else {
            lemma_rounded_twice(a, 2 * b, x + 1);
        }
    }
}

/// Where a ratio is large, the exponents below are passed over.
proof fn lemma_skip(n: nat, d: nat, t: nat, k: nat, x: int)
    requires
        d > 0,
        k <= t,
        n * two_to(k) >= LEAST * d,
        x + t - k <= ENDLESS,
    ensures
        rounded(n * two_to(t), d, x) == rounded(n * two_to(k), d, x + t - k),
    decreases t - k,
{
    if k < t {
        let s = (t - 1) as nat;
        lemma_two_to_grows(k + 1, t);
        assert(two_to(k + 1) == 2 * two_to(k));
        assert(n * two_to(t) >= PAST * d) by (nonlinear_arith)
            requires
                two_to(t) >= 2 * two_to(k),
                n * two_to(k) >= LEAST * d,
                PAST == 2 * LEAST,
        ;
        assert(n * two_to(t) == 2 * (n * two_to(s))) by (nonlinear_arith)
            requires
                two_to(t) == 2 * two_to(s),
        ;
        lemma_rounded_twice(n * two_to(s), d, x + 1);
        lemma_skip(n, d, s, k, x + 1);
    }
}

/// The mantissa and the exponent that a ratio is rounded to are of a double.
proof fn lemma_rounded_range(num: nat, den: nat, x: int)
    requires
        den > 0,
        LOWEST <= x <= ENDLESS,
        x == LOWEST || num >= LEAST * den,
    ensures
        rounded(num, den, x).0 < PAST,
        x <= rounded(num, den, x).1 <= ENDLESS,
        rounded(num, den, x).0 < LEAST ==> rounded(num, den, x).1 == LOWEST,
        rounded(num, den, x).1 == ENDLESS ==> rounded(num, den, x).0 == LEAST,
    decreases ENDLESS - x,
{
    if x < ENDLESS {
        if num < PAST * den {
            assert(0 * den <= num) by (nonlinear_arith);
            lemma_nearest(
                num,
                den,
                if num >= LEAST * den {
                    LEAST as nat
                } else {
                    0
                },
                PAST as nat,
            );
        } else {
            assert(LEAST * (2 * den) == PAST * den) by (nonlinear_arith)
                requires
                    PAST == 2 * LEAST,
            ;
            lemma_rounded_range(num, 2 * den, x + 1);
        }
    }
}

/// What is near a ratio is a double.
pub proof fn lemma_double_near_is_valid(negative: bool, num: nat, den: nat)
    requires
        den > 0,
    ensures
        double_near(negative, num, den).valid(),
        double_near(negative, num, den).negative == negative,
{
    lemma_rounded_range(num * two_to(1074), den, LOWEST as int);
}

/// The double nearest to a whole number is one.
pub proof fn lemma_double_of_is_valid(n: int)
    ensures
        double_of(n).valid(),
{
    if n < 0 {
        lemma_double_near_is_valid(true, (-n) as nat, 1);
    } else {
        lemma_double_near_is_valid(false, n as nat, 1);
    }
}

/// What is exactly a double is rounded to it.
proof fn lemma_exact(m: nat, e: int, num: nat, den: nat, x: int)
    requires
        den > 0,
        m < PAST,
        LOWEST <= x <= e <= ENDLESS,
        m < LEAST ==> e == LOWEST,
        e == ENDLESS ==> m == LEAST,
        num == m * den * two_to((e - x) as nat),
    ensures
        rounded(num, den, x) == (m, e),
    decreases e - x,
{
    if x == e {
        assert(m * den * 1 == m * den) by (nonlinear_arith);
        if x < ENDLESS {
            assert(m * den < PAST * den) by (nonlinear_arith)
                requires
                    m < PAST,
                    den > 0,
            ;
            lemma_nearest_exact(m, den);
        }
    } else {
        let k = (e - x - 1) as nat;
        lemma_two_to_grows(0, k);
        assert(two_to(k + 1) == 2 * two_to(k));
        assert(num >= PAST * den) by (nonlinear_arith)
            requires
                num == m * den * (2 * two_to(k)),
                two_to(k) >= 1,
                m >= LEAST,
                PAST == 2 * LEAST,
                den > 0,
        ;
        assert(num == m * (2 * den) * two_to(k)) by (nonlinear_arith)
            requires
                num == m * den * (2 * two_to(k)),
        ;
        lemma_exact(m, e, num, 2 * den, x + 1);
    }
}

/// What is exactly a double is nearest to it: `num` over `den` is the mantissa
/// times two to the exponent.
proof fn lemma_near_itself(n: Double, num: nat, den: nat)
    requires
        n.valid(),
        den > 0,
        n.exponent >= 0 ==> num == n.mantissa * two_to(n.exponent as nat) * den,
        n.exponent < 0 ==> num * two_to((-n.exponent) as nat) == n.mantissa * den,
    ensures
        double_near(n.negative, num, den) == n,
{
    let m = n.mantissa as nat;
    let e = n.exponent as int;
    let all = num * two_to(1074);
    if e >= 0 {
        lemma_two_to_add(e as nat, 1074);
        assert(all == m * den * two_to((e + 1074) as nat)) by (nonlinear_arith)
            requires
                all == num * two_to(1074),
                num == m * two_to(e as nat) * den,
                two_to((e + 1074) as nat) == two_to(e as nat) * two_to(1074),
        ;
    } else {
        lemma_two_to_add((-e) as nat, (e + 1074) as nat);
        assert(all == m * den * two_to((e + 1074) as nat)) by (nonlinear_arith)
            requires
                all == num * two_to(1074),
                num * two_to((-e) as nat) == m * den,
                two_to(1074) == two_to((-e) as nat) * two_to((e + 1074) as nat),
        ;
    }
    lemma_exact(m, e, all, den, LOWEST as int);
}

/// What is large enough is infinite.
proof fn lemma_endless(num: nat, den: nat, x: int)
    requires
        den > 0,
        LOWEST <= x < ENDLESS,
        num >= PAST * den * two_to((ENDLESS - 1 - x) as nat),
    ensures
        rounded(num, den, x) == (LEAST as nat, ENDLESS as int),
    decreases ENDLESS - x,
{
    let k = (ENDLESS - 1 - x) as nat;
    lemma_two_to_grows(0, k);
    assert(num >= PAST * den) by (nonlinear_arith)
        requires
            num >= PAST * den * two_to(k),
            two_to(k) >= 1,
    ;
    if x + 1 < ENDLESS {
        let j = (k - 1) as nat;
        assert(PAST * (2 * den) * two_to(j) == PAST * den * two_to(k)) by (nonlinear_arith)
            requires
                two_to(k) == 2 * two_to(j),
        ;
        lemma_endless(num, 2 * den, x + 1);
    } else {
        assert(rounded(num, 2 * den, x + 1) == (LEAST as nat, ENDLESS as int));
    }
}

/// A number of ten to the three hundred and forty-second or more is infinite.
proof fn lemma_huge(negative: bool, num: nat, den: nat)
    requires
        den > 0,
        num >= pow10(342) * den,
    ensures
        double_near(negative, num, den) == (Double {
            negative,
            mantissa: LEAST,
            exponent: ENDLESS,
        }),
{
    lemma_pow10_past_two(342);
    lemma_two_to_add(1024, 2);
    lemma_two_to_grows(0, 2);
    lemma_two_to_grows(0, 1074);
    lemma_two_to_values();
    lemma_two_to_add(53, 971);
    lemma_two_to_add(971, 1074);
    assert(two_to(1026) >= two_to(1024)) by {
        lemma_two_to_grows(1024, 1026);
    }
    let t = two_to(1074);
    assert(num * t >= PAST * den * two_to(2045)) by (nonlinear_arith)
        requires
            num >= pow10(342) * den,
            pow10(342) >= two_to(1024),
            two_to(1024) == PAST * two_to(971),
            two_to(2045) == two_to(971) * t,
            t >= 1,
    ;
    lemma_endless(num * t, den, LOWEST as int);
}

/// A number below a ten to the minus three hundred and fifty-ninth is zero.
proof fn lemma_tiny(negative: bool, num: nat, den: nat)
    requires
        num * pow10(359) <= den,
        den > 0,
    ensures
        double_near(negative, num, den) == (Double { negative, mantissa: 0, exponent: LOWEST }),
{
    lemma_pow10_past_two(359);
    lemma_two_to_grows(1076, 1077);
    lemma_two_to_grows(0, 1074);
    let t = two_to(1074);
    assert(two_to(1075) == 2 * t);
    assert(two_to(1076) == 2 * two_to(1075));
    let all = num * t;
    assert(4 * all <= den) by (nonlinear_arith)
        requires
            num * pow10(359) <= den,
            pow10(359) >= 4 * t,
            all == num * t,
    ;
    assert(all < den) by (nonlinear_arith)
        requires
            4 * all <= den,
            den > 0,
            all >= 0,
    ;
    assert(all < PAST * den) by (nonlinear_arith)
        requires
            all < den,
            PAST >= 1,
    ;
    assert(all / den == 0 && all % den == all) by {
        vstd::arithmetic::div_mod::lemma_basic_div(all as int, den as int);
        vstd::arithmetic::div_mod::lemma_small_mod(all, den);
    }
    assert(nearest(all, den) == 0);
}

/// The whole number nearest to a ratio.
pub fn nearest_to(num: u128, den: u128) -> (r: u128)
    requires
        0 < den <= 0x4000_0000_0000_0000_0000_0000_0000_0000,
        num < 0x4000_0000_0000_0000_0000_0000_0000_0000,
    ensures
        r == nearest(num as nat, den as nat),
{
    let q: u128 = num / den;
    let r: u128 = num % den;
    proof {
        assert(q <= num) by (nonlinear_arith)
            requires
                q == num / den,
                den >= 1,
        ;
    }
    if 2 * r > den || (2 * r == den && q % 2 == 1) {
        q + 1
    } else {
        q
    }
}

/// The double nearest to a ratio.
fn near(negative: bool, num: u64, den: u64) -> (r: Double)
    requires
        den > 0,
    ensures
        r == double_near(negative, num as nat, den as nat),
{
    if num == 0 {
        proof {
            assert(0 * two_to(1074) == 0) by (nonlinear_arith);
            lemma_nearest_exact(0, den as nat);
            assert(0 * den == 0) by (nonlinear_arith);
            assert(0 < PAST * den) by (nonlinear_arith)
                requires
                    den > 0,
            ;
        }
        return Double { negative, mantissa: 0, exponent: LOWEST };
    }
    let d0: u128 = den as u128;
    proof {
        assert(LEAST * d0 <= 0xf_ffff_ffff_ffff_fff0_0000_0000_0000) by (nonlinear_arith)
            requires
                d0 <= 0xffff_ffff_ffff_ffff,
                LEAST == 0x10_0000_0000_0000,
        ;
        lemma_two_to_values();
    }
    let least: u128 = LEAST as u128 * d0;
    let mut n: u128 = num as u128;
    let mut k: i16 = 0;
    proof {
        assert(num * 1 == num) by (nonlinear_arith);
    }
    while n < least
        invariant
            0 < num,
            least == LEAST * d0,
            least <= 0xf_ffff_ffff_ffff_fff0_0000_0000_0000,
            0 < n < 0x20_0000_0000_0000_0000_0000_0000_0000,
            0 <= k <= 116,
            n == num * two_to(k as nat),
            n >= two_to(k as nat),
        decreases 116 - k,
    {
        proof {
            lemma_two_to_values();
            if k >= 116 {
                assert(false);
            }
            assert(two_to((k + 1) as nat) == 2 * two_to(k as nat));
            assert(2 * (num * two_to(k as nat)) == num * (2 * two_to(k as nat))) by (
                nonlinear_arith);
        }
        n = n * 2;
        k += 1;
    }
    proof {
        lemma_skip(num as nat, den as nat, 1074, k as nat, LOWEST as int);
    }
    let ghost start = n;
    let mut d: u128 = d0;
    let mut x: i16 = -k;
    proof {
        lemma_two_to_grows(0, 0);
    }
    while n >= PAST as u128 * d
        invariant
            0 <= k <= 116,
            0 < d < 0x4_0000_0000_0000_0000,
            -k <= x <= 66,
            x + k <= 66,
            d >= two_to((x + k) as nat),
            n == start,
            n < 0x20_0000_0000_0000_0000_0000_0000_0000,
            rounded(start as nat, den as nat, -k as int) == rounded(n as nat, d as nat, x as int),
        decreases 0x4_0000_0000_0000_0000 - d,
    {
        proof {
            lemma_two_to_values();
            assert(2 * d < 0x4_0000_0000_0000_0000) by (nonlinear_arith)
                requires
                    n < 0x20_0000_0000_0000_0000_0000_0000_0000,
                    n >= PAST * d,
                    PAST == 0x20_0000_0000_0000,
            ;
            if x + k >= 66 {
                lemma_two_to_grows(66, (x + k) as nat);
                assert(false);
            }
            assert(two_to((x + k + 1) as nat) == 2 * two_to((x + k) as nat));
        }
        d = d * 2;
        x += 1;
    }
    let m: u128 = nearest_to(n, d);
    proof {
        assert(0 * d <= n) by (nonlinear_arith);
        lemma_nearest(n as nat, d as nat, 0, PAST as nat);
    }
    if m == PAST as u128 {
        Double { negative, mantissa: LEAST, exponent: x + 1 }
    } else {
        Double { negative, mantissa: m as u64, exponent: x }
    }
}

/// A number doubled `k` times.
fn doubled(n: &mut Big, k: u32)
    ensures
        final(n)@ == old(n)@ * two_to(k as nat),
{
    let ghost before = n@;
    let mut i: u32 = 0;
    proof {
        assert(before * 1 == before) by (nonlinear_arith);
    }
    while i < k
        invariant
            i <= k,
            n@ == before * two_to(i as nat),
        decreases k - i,
    {
        proof {
            assert(before * (2 * two_to(i as nat)) == (before * two_to(i as nat)) * 2) by (
                nonlinear_arith);
            assert(two_to((i + 1) as nat) == 2 * two_to(i as nat));
        }
        n.times(2, 0);
        i += 1;
    }
}

/// A number times ten, `k` times.
fn tenfold(n: &mut Big, k: u128)
    ensures
        final(n)@ == old(n)@ * pow10(k as nat),
{
    let ghost before = n@;
    let mut i: u128 = 0;
    proof {
        assert(before * 1 == before) by (nonlinear_arith);
    }
    while i < k
        invariant
            i <= k,
            n@ == before * pow10(i as nat),
        decreases k - i,
    {
        proof {
            assert(before * (10 * pow10(i as nat)) == (before * pow10(i as nat)) * 10) by (
                nonlinear_arith);
            assert(pow10((i + 1) as nat) == 10 * pow10(i as nat));
        }
        n.times(10, 0);
        i += 1;
    }
}

/// The double nearest to a ratio of any size.
fn near_big(negative: bool, top: Big, bottom: Big) -> (r: Double)
    requires
        bottom@ > 0,
    ensures
        r == double_near(negative, top@, bottom@),
{
    let mut num = top;
    let mut half = bottom;
    doubled(&mut num, 1074);
    doubled(&mut half, 52);
    let mut full = half.copy();
    full.times(2, 0);
    let ghost all = num@;
    let ghost mut d: nat = bottom@;
    let mut x: i16 = LOWEST;
    proof {
        lemma_two_to_values();
        assert(bottom@ * LEAST == LEAST * bottom@) by (nonlinear_arith);
    }
    while x < ENDLESS && !num.against(&full).0
        invariant
            LOWEST <= x <= ENDLESS,
            d > 0,
            num@ == all,
            half@ == LEAST * d,
            full@ == PAST * d,
            rounded(all, bottom@, LOWEST as int) == rounded(all, d, x as int),
        decreases ENDLESS - x,
    {
        half.times(2, 0);
        full.times(2, 0);
        proof {
            d = 2 * d;
        }
        x += 1;
    }
    if x >= ENDLESS {
        return Double { negative, mantissa: LEAST, exponent: ENDLESS };
    }
    let mut q: u64 = 0;
    let mut i: u32 = 0;
    proof {
        assert(all * 1 == all) by (nonlinear_arith);
        assert(2 * 0 * half@ == 0) by (nonlinear_arith);
    }
    while i < 53
        invariant
            i <= 53,
            d > 0,
            half@ == LEAST * d,
            num@ < 2 * half@,
            q < two_to(i as nat),
            all * two_to(i as nat) == 2 * q * half@ + num@,
        decreases 53 - i,
    {
        let ghost rest = num@;
        let ghost h = half@;
        let ghost was = q;
        proof {
            lemma_two_to_values();
            lemma_two_to_grows((i + 1) as nat, 53);
            assert(two_to((i + 1) as nat) == 2 * two_to(i as nat));
        }
        if num.against(&half).0 {
            q = 2 * q;
            proof {
                assert(all * (2 * two_to(i as nat)) == 2 * (2 * was) * h + 2 * rest) by (
                    nonlinear_arith)
                    requires
                        all * two_to(i as nat) == 2 * was * h + rest,
                ;
            }
        } else {
            q = 2 * q + 1;
            num.without(&half);
            proof {
                assert(all * (2 * two_to(i as nat)) == 2 * (2 * was + 1) * h + 2 * (rest - h)) by (
                    nonlinear_arith)
                    requires
                        all * two_to(i as nat) == 2 * was * h + rest,
                ;
            }
        }
        num.times(2, 0);
        i += 1;
    }
    let (below, above) = num.against(&half);
    proof {
        lemma_two_to_values();
        let rest = num@;
        let r = all - q * d;
        assert(rest == PAST * r) by (nonlinear_arith)
            requires
                all * PAST == 2 * q * (LEAST * d) + rest,
                r == all - q * d,
                PAST == 2 * LEAST,
        ;
        assert(0 <= r < d) by (nonlinear_arith)
            requires
                rest == PAST * r,
                0 <= rest < 2 * (LEAST * d),
                PAST == 2 * LEAST,
                LEAST > 0,
        ;
        assert(q * d == d * q) by (nonlinear_arith);
        lemma_fundamental_div_mod_converse(all as int, d as int, q as int, r as int);
        assert(above == (2 * r > d)) by (nonlinear_arith)
            requires
                above == (rest > LEAST * d),
                rest == PAST * r,
                PAST == 2 * LEAST,
                LEAST > 0,
        ;
        assert(below == (2 * r < d)) by (nonlinear_arith)
            requires
                below == (rest < LEAST * d),
                rest == PAST * r,
                PAST == 2 * LEAST,
                LEAST > 0,
        ;
    }
    let m: u64 = if above || (!below && q % 2 == 1) {
        q + 1
    } else {
        q
    };
    if m == PAST {
        Double { negative, mantissa: LEAST, exponent: x + 1 }
    } else {
        Double { negative, mantissa: m, exponent: x }
    }
}

/// Ten to the `k`.
fn ten_to(k: u32) -> (r: u64)
    requires
        k <= 19,
    ensures
        r == pow10(k as nat),
        r > 0,
{
    let mut r: u64 = 1;
    let mut i: u32 = 0;
    while i < k
        invariant
            i <= k <= 19,
            r == pow10(i as nat),
            r > 0,
        decreases k - i,
    {
        proof {
            lemma_pow10_values();
            lemma_pow10_grows((i + 1) as nat, 19);
            assert(pow10((i + 1) as nat) == 10 * pow10(i as nat));
        }
        r = r * 10;
        i += 1;
    }
    r
}

/// The value of some digits lies below ten to their number, and no lower than
/// the first of them when that is no zero.
proof fn lemma_digits_range(d: Seq<char>)
    requires
        forall|i: int| 0 <= i < d.len() ==> is_digit(#[trigger] d[i]),
    ensures
        digits_value(d) < pow10(d.len()),
        d.len() > 0 && d[0] != '0' ==> digits_value(d) >= pow10((d.len() - 1) as nat),
    decreases d.len(),
{
    if d.len() > 0 {
        let front = d.drop_last();
        assert forall|i: int| 0 <= i < front.len() implies is_digit(#[trigger] front[i]) by {
            assert(front[i] == d[i]);
        }
        lemma_digits_range(front);
        assert(is_digit(d.last()));
        assert(pow10(d.len()) == 10 * pow10((d.len() - 1) as nat));
        if d.len() > 1 {
            assert(front[0] == d[0]);
            assert(pow10((d.len() - 1) as nat) == 10 * pow10((d.len() - 2) as nat));
        } else {
            assert(digits_value(front) == 0);
        }
    }
}

/// A number whose digits all stand far behind the point is zero.
proof fn lemma_far_behind(negative: bool, d: Seq<char>, places: int)
    requires
        forall|i: int| 0 <= i < d.len() ==> is_digit(#[trigger] d[i]),
        places >= d.len() + 359,
    ensures
        decimal_double(negative, d, places) == (Double {
            negative,
            mantissa: 0,
            exponent: LOWEST,
        }),
{
    let v = digits_value(d);
    let den = pow10(places as nat);
    let more = pow10(359);
    lemma_digits_range(d);
    lemma_pow10_grows(0, places as nat);
    lemma_pow10_add(d.len(), 359);
    lemma_pow10_grows(d.len() + 359, places as nat);
    assert(v * more <= den) by (nonlinear_arith)
        requires
            v < pow10(d.len()),
            pow10(d.len() + 359) == pow10(d.len()) * more,
            pow10(d.len() + 359) <= den,
    ;
    lemma_tiny(negative, v, den);
}

/// A number that is not zero and is followed by enough zeros is infinite.
proof fn lemma_far_before(negative: bool, d: Seq<char>, places: int)
    requires
        places <= -342,
    ensures
        decimal_double(negative, d, places) == (if digits_value(d) == 0 {
            Double { negative, mantissa: 0, exponent: LOWEST }
        } else {
            Double { negative, mantissa: LEAST, exponent: ENDLESS }
        }),
{
    let v = digits_value(d);
    let more = pow10((-places) as nat);
    lemma_pow10_grows(342, (-places) as nat);
    if v == 0 {
        assert(0 * more == 0) by (nonlinear_arith);
        assert(0 * pow10(359) <= 1) by (nonlinear_arith);
        lemma_tiny(negative, 0, 1);
    } else {
        assert(v * more >= pow10(342) * 1) by (nonlinear_arith)
            requires
                v >= 1,
                more >= pow10(342),
        ;
        lemma_huge(negative, v * more, 1);
    }
}

/// How far the digits are from the point makes no difference past all doubles.
pub proof fn lemma_far(negative: bool, d: Seq<char>, a: int, b: int)
    requires
        forall|i: int| 0 <= i < d.len() ==> is_digit(#[trigger] d[i]),
        (a >= d.len() + 359 && b >= d.len() + 359) || (a <= -342 && b <= -342),
    ensures
        decimal_double(negative, d, a) == decimal_double(negative, d, b),
{
    if a > 0 {
        lemma_far_behind(negative, d, a);
        lemma_far_behind(negative, d, b);
    } else {
        lemma_far_before(negative, d, a);
        lemma_far_before(negative, d, b);
    }
}

/// Zeros in front change no value.
proof fn lemma_zeros_in_front(d: Seq<char>, n: int)
    requires
        0 <= n <= d.len(),
        forall|i: int| 0 <= i < n ==> #[trigger] d[i] == '0',
    ensures
        digits_value(d) == digits_value(d.skip(n)),
    decreases d.len(),
{
    if d.len() == n {
        assert(d.skip(n) =~= Seq::<char>::empty());
        if n > 0 {
            let front = d.drop_last();
            assert forall|i: int| 0 <= i < n - 1 implies #[trigger] front[i] == '0' by {
                assert(front[i] == d[i]);
            }
            lemma_zeros_in_front(front, n - 1);
            assert(front.skip(n - 1) =~= Seq::<char>::empty());
        }
    } else {
        let front = d.drop_last();
        assert forall|i: int| 0 <= i < n implies #[trigger] front[i] == '0' by {
            assert(front[i] == d[i]);
        }
        lemma_zeros_in_front(front, n);
        assert(d.skip(n).drop_last() =~= front.skip(n));
    }
}

/// The value of some digits.
fn value_of(d: &[char]) -> (r: Big)
    requires
        forall|i: int| 0 <= i < d@.len() ==> is_digit(#[trigger] d@[i]),
    ensures
        r@ == digits_value(d@),
{
    let mut r = Big::new(0);
    let mut i: usize = 0;
    proof {
        assert(d@.take(0) =~= Seq::<char>::empty());
    }
    while i < d.len()
        invariant
            i <= d@.len(),
            forall|i: int| 0 <= i < d@.len() ==> is_digit(#[trigger] d@[i]),
            r@ == digits_value(d@.take(i as int)),
        decreases d@.len() - i,
    {
        proof {
            assert(is_digit(d@[i as int]));
            assert(d@.take(i + 1).drop_last() =~= d@.take(i as int));
        }
        r.times(10, d[i] as u32 - 48);
        i += 1;
    }
    proof {
        assert(d@.take(i as int) =~= d@);
    }
    r
}

/// The double nearest to the number whose digits are `d`, of which the last
/// `places` stand after the point.
pub fn read_decimal(negative: bool, d: &[char], places: i128) -> (r: Double)
    requires
        forall|i: int| 0 <= i < d@.len() ==> is_digit(#[trigger] d@[i]),
        d@.len() > 0,
        -0x1_0000_0000_0000_0000_0000_0000 <= places <= 0x1_0000_0000_0000_0000_0000_0000,
    ensures
        r == decimal_double(negative, d@, places as int),
{
    let ghost v = digits_value(d@);
    proof {
        lemma_pow10_grows(0, 0);
        if places > 0 {
            lemma_pow10_grows(0, places as nat);
        } else {
            lemma_pow10_grows(0, (-places) as nat);
        }
        assert(is_digit(d@[0]));
    }
    if 0 <= places && places <= 19 {
        match parse_number(d, u64::MAX) {
            Some(n) => {
                proof {
                    assert(n * 1 == n) by (nonlinear_arith);
                }
                return near(negative, n, ten_to(places as u32));
            },
            None => {},
        }
    }
    let mut first: usize = 0;
    while first < d.len() && d[first] == '0'
        invariant
            first <= d@.len(),
            forall|i: int| 0 <= i < first ==> #[trigger] d@[i] == '0',
        decreases d@.len() - first,
    {
        first += 1;
    }
    let ghost kept = d@.skip(first as int);
    let count: i128 = (d.len() - first) as i128;
    proof {
        lemma_zeros_in_front(d@, first as int);
        assert forall|i: int| 0 <= i < kept.len() implies is_digit(#[trigger] kept[i]) by {
            assert(kept[i] == d@[i + first]);
        }
        lemma_digits_range(kept);
        if count > 0 {
            assert(kept[0] == d@[first as int]);
        }
    }
    if count == 0 {
        proof {
            assert(kept =~= Seq::<char>::empty());
            assert(v == 0);
            assert(0 * pow10((-places) as nat) == 0) by (nonlinear_arith);
            let den = if places > 0 {
                pow10(places as nat)
            } else {
                1
            };
            assert(0 * pow10(359) <= den) by (nonlinear_arith);
            lemma_tiny(negative, 0, den);
        }
        return Double { negative, mantissa: 0, exponent: LOWEST };
    }
    if count - 1 - places >= 342 {
        proof {
            if places <= 0 {
                let more = pow10((-places) as nat);
                lemma_pow10_add((count - 1) as nat, (-places) as nat);
                lemma_pow10_grows(342, (count - 1 - places) as nat);
                assert(v * more >= pow10(342) * 1) by (nonlinear_arith)
                    requires
                        v >= pow10((count - 1) as nat),
                        pow10((count - 1 - places) as nat) == pow10((count - 1) as nat) * more,
                        pow10((count - 1 - places) as nat) >= pow10(342),
                ;
                lemma_huge(negative, v * more, 1);
            } else {
                let den = pow10(places as nat);
                lemma_pow10_add(342, places as nat);
                lemma_pow10_grows((342 + places) as nat, (count - 1) as nat);
                lemma_huge(negative, v, den);
            }
        }
        return Double { negative, mantissa: LEAST, exponent: ENDLESS };
    }
    if places - count >= 359 {
        proof {
            let den = pow10(places as nat);
            let more = pow10(359);
            lemma_pow10_add(count as nat, 359);
            lemma_pow10_grows((count + 359) as nat, places as nat);
            assert(v * more <= den) by (nonlinear_arith)
                requires
                    v < pow10(count as nat),
                    pow10((count + 359) as nat) == pow10(count as nat) * more,
                    pow10((count + 359) as nat) <= den,
            ;
            lemma_tiny(negative, v, den);
        }
        return Double { negative, mantissa: 0, exponent: LOWEST };
    }
    let mut num = value_of(d);
    let mut den = Big::new(1);
    if places <= 0 {
        tenfold(&mut num, (-places) as u128);
    } else {
        tenfold(&mut den, places as u128);
        proof {
            assert(1 * pow10(places as nat) == pow10(places as nat)) by (nonlinear_arith);
        }
    }
    near_big(negative, num, den)
}

// ---- what a double comes to ----

/// Two to the `k`.
fn power(k: u32) -> (r: u128)
    requires
        k <= 121,
    ensures
        r == two_to(k as nat),
        0 < r <= 0x200_0000_0000_0000_0000_0000_0000_0000,
{
    let mut r: u128 = 1;
    let mut i: u32 = 0;
    proof {
        lemma_two_to_values();
    }
    while i < k
        invariant
            i <= k <= 121,
            r == two_to(i as nat),
            0 < r <= 0x200_0000_0000_0000_0000_0000_0000_0000,
        decreases k - i,
    {
        proof {
            lemma_two_to_values();
            lemma_two_to_grows((i + 1) as nat, 121);
            assert(two_to((i + 1) as nat) == 2 * two_to(i as nat));
        }
        r = r * 2;
        i += 1;
    }
    r
}

impl Double {
    /// How far this is from zero, without what stands after the point, when
    /// that fits; and whether anything stands there.
    fn parts(&self) -> (r: (Option<u64>, bool))
        ensures
            match r.0 {
                Some(n) => self.floor() == n,
                None => self.floor() > u64::MAX,
            },
            r.1 == self.whole(),
    {
        let m: u64 = self.mantissa;
        proof {
            lemma_two_to_values();
        }
        if self.exponent >= 0 {
            if m == 0 {
                proof {
                    assert(0 * two_to(self.exponent as nat) == 0) by (nonlinear_arith);
                }
                return (Some(0), true);
            }
            if self.exponent >= 64 {
                proof {
                    lemma_two_to_grows(64, self.exponent as nat);
                    assert(m * two_to(self.exponent as nat) >= two_to(self.exponent as nat)) by (
                        nonlinear_arith)
                        requires
                            m >= 1,
                    ;
                }
                return (None, true);
            }
            let p: u128 = power(self.exponent as u32);
            proof {
                lemma_two_to_grows(self.exponent as nat, 64);
                assert(m * p <= 0xffff_ffff_ffff_ffff * 0xffff_ffff_ffff_ffff) by (nonlinear_arith)
                    requires
                        m <= 0xffff_ffff_ffff_ffff,
                        p <= 0xffff_ffff_ffff_ffff,
                ;
            }
            let v: u128 = m as u128 * p;
            return if v > u64::MAX as u128 {
                (None, true)
            } else {
                (Some(v as u64), true)
            };
        }
        let k: u32 = (-(self.exponent as i32)) as u32;
        if k >= 64 {
            proof {
                lemma_two_to_grows(64, k as nat);
                vstd::arithmetic::div_mod::lemma_basic_div(m as int, two_to(k as nat) as int);
                vstd::arithmetic::div_mod::lemma_small_mod(m as nat, two_to(k as nat));
            }
            return (Some(0), m == 0);
        }
        let p: u128 = power(k);
        proof {
            assert(m as u128 / p <= m) by (nonlinear_arith)
                requires
                    p >= 1,
            ;
        }
        (Some((m as u128 / p) as u64), m as u128 % p == 0)
    }

    /// The count that this is, when it is one no larger than `max`.
    pub fn counted(&self, max: u64) -> (r: Option<u64>)
        ensures
            match r {
                Some(n) => self.count(max as nat) == Some(n as nat) && n <= max,
                None => self.count(max as nat) is None,
            },
    {
        if self.negative && self.mantissa > 0 {
            return None;
        }
        let (floor, whole) = self.parts();
        match floor {
            Some(n) => if n < max || (n == max && whole) {
                Some(n)
            } else {
                None
            },
            None => None,
        }
    }

    /// The whole number that this is, when it is one.
    pub fn as_integer(&self) -> (r: Option<i64>)
        ensures
            r == self.integer(),
    {
        let (floor, whole) = self.parts();
        if !whole {
            return None;
        }
        match floor {
            Some(n) => if self.negative {
                if n > 0x8000_0000_0000_0000 {
                    Some(i64::MIN)
                } else {
                    Some((-(n as i128)) as i64)
                }
            } else if n > i64::MAX as u64 {
                Some(i64::MAX)
            } else {
                Some(n as i64)
            },
            None => if self.negative {
                Some(i64::MIN)
            } else {
                Some(i64::MAX)
            },
        }
    }

    /// The amount that this is.
    pub fn as_amount(&self) -> (r: u64)
        ensures
            r == self.amount(),
    {
        if self.negative {
            return 0;
        }
        match self.parts().0 {
            Some(n) => n,
            None => u64::MAX,
        }
    }

    /// Whether this is a number, and not infinite.
    pub fn is_finite(&self) -> (r: bool)
        ensures
            r == self.finite(),
    {
        self.exponent < ENDLESS
    }

    /// The double nearest to a whole number.
    pub fn of(n: i64) -> (r: Double)
        ensures
            r == double_of(n as int),
            r.valid(),
    {
        proof {
            lemma_double_of_is_valid(n as int);
        }
        if n < 0 {
            near(true, (-(n as i128)) as u64, 1)
        } else {
            near(false, n as u64, 1)
        }
    }
}

// ---- how a double is written ----

/// Five to the `n`.
pub open spec fn five_to(n: nat) -> nat
    decreases n,
{
    if n == 0 {
        1
    } else {
        5 * five_to((n - 1) as nat)
    }
}

/// A ten is a five and a two.
proof fn lemma_fives_and_twos(n: nat)
    ensures
        pow10(n) == five_to(n) * two_to(n),
    decreases n,
{
    if n > 0 {
        let k = (n - 1) as nat;
        lemma_fives_and_twos(k);
        assert((5 * five_to(k)) * (2 * two_to(k)) == 10 * (five_to(k) * two_to(k))) by (
            nonlinear_arith);
        assert(five_to(n) == 5 * five_to(k));
        assert(two_to(n) == 2 * two_to(k));
    } else {
        assert(1 * 1 == 1) by (nonlinear_arith);
        assert(five_to(0) == 1 && two_to(0) == 1);
    }
}

/// With all the places there are, nothing is rounded.
proof fn lemma_all_places(n: Double)
    requires
        n.exponent < 0,
    ensures
        n.scaled((-n.exponent) as nat) == n.mantissa * five_to((-n.exponent) as nat),
        n.valid() ==> n.reads_back((-n.exponent) as nat),
{
    let k = (-n.exponent) as nat;
    let m = n.mantissa as nat;
    lemma_fives_and_twos(k);
    lemma_two_to_grows(0, k);
    lemma_pow10_grows(0, k);
    assert(m * pow10(k) == (m * five_to(k)) * two_to(k)) by (nonlinear_arith)
        requires
            pow10(k) == five_to(k) * two_to(k),
    ;
    lemma_nearest_exact(m * five_to(k), two_to(k));
    if n.valid() {
        lemma_near_itself(n, m * five_to(k), pow10(k));
    }
}

/// What [`Double::fewest`] finds reads back.
proof fn lemma_fewest(n: Double, p: nat)
    requires
        n.valid(),
        n.exponent < 0,
    ensures
        n.reads_back(n.fewest(p)),
    decreases 18 - p,
{
    if p > 17 {
        lemma_all_places(n);
    } else if !n.reads_back(p) {
        lemma_fewest(n, p + 1);
    }
}

/// A double, written with the places it is written with, reads back as itself.
pub proof fn law_a_double_reads_back(n: Double)
    requires
        n.valid(),
    ensures
        double_near(n.negative, n.scaled(n.places()), pow10(n.places())) == n,
{
    if n.exponent >= 0 {
        let v = n.mantissa as nat * two_to(n.exponent as nat);
        assert(v * 1 == v) by (nonlinear_arith);
        assert(pow10(0) == 1);
        lemma_near_itself(n, v, 1);
    } else {
        lemma_fewest(n, 0);
    }
}

/// A whole number of no more bits than a mantissa is exactly a double.
pub proof fn law_a_short_whole_number_is_exact(n: int)
    requires
        -(PAST as int) < n < PAST,
    ensures
        double_of(n).integer() == Some(n as i64),
{
    let size = if n < 0 {
        (-n) as nat
    } else {
        n as nat
    };
    lemma_double_of_is_valid(n);
    if size == 0 {
        assert(0 * two_to(1074) == 0) by (nonlinear_arith);
        lemma_nearest_exact(0, 1);
        lemma_two_to_grows(0, 1074);
        vstd::arithmetic::div_mod::lemma_basic_div(0, two_to(1074) as int);
        vstd::arithmetic::div_mod::lemma_small_mod(0, two_to(1074));
    } else {
        assert(two_to(0) == 1);
        assert(size * 1 == size) by (nonlinear_arith);
        lemma_short(n < 0, size, size, 0);
    }
}

/// A short whole number, as it is and as a mantissa of all bits.
proof fn lemma_short(negative: bool, n: nat, m: nat, k: nat)
    requires
        0 < m < PAST,
        k <= 52,
        m == n * two_to(k),
        m >= two_to(k),
    ensures
        double_near(negative, n, 1).whole(),
        double_near(negative, n, 1).floor() == n,
    decreases PAST - m,
{
    lemma_two_to_values();
    if m < LEAST {
        if k == 52 {
            assert(false);
        }
        assert(two_to(k + 1) == 2 * two_to(k));
        assert(n * (2 * two_to(k)) == 2 * (n * two_to(k))) by (nonlinear_arith);
        lemma_short(negative, n, 2 * m, k + 1);
    } else {
        let d = Double { negative, mantissa: m as u64, exponent: (-(k as int)) as i16 };
        assert(m * 1 == m) by (nonlinear_arith);
        if k == 0 {
            assert(n * 1 == n) by (nonlinear_arith);
            assert(n * 1 * 1 == n) by (nonlinear_arith);
        }
        lemma_near_itself(d, n, 1);
        lemma_two_to_grows(0, k);
        if k > 0 {
            lemma_fundamental_div_mod_converse(m as int, two_to(k) as int, n as int, 0);
        }
    }
}

/// A number of a hundred and twenty-eight bits.
fn wide(n: u128) -> (r: Big)
    ensures
        r@ == n,
{
    let high: u64 = (n / 0x1_0000_0000_0000_0000) as u64;
    let rest: u64 = (n % 0x1_0000_0000_0000_0000) as u64;
    let middle: u32 = (rest / 0x1_0000_0000) as u32;
    let low: u32 = (rest % 0x1_0000_0000) as u32;
    let mut r = Big::new(high);
    proof {
        reveal_with_fuel(two_to, 32);
        assert(two_to(31) == 0x8000_0000);
    }
    doubled(&mut r, 31);
    r.times(2, middle);
    doubled(&mut r, 31);
    r.times(2, low);
    r
}

impl Double {
    /// The digits that this is written with, without the point, and how many
    /// of them stand after it.
    pub fn spelled(&self) -> (r: (Vec<char>, u32))
        ensures
            r.1 == self.places(),
            r.0@ == decimal(self.scaled(self.places())),
            r.1 <= 0x8000,
    {
        let m: u64 = self.mantissa;
        if self.exponent >= 0 {
            let mut v = Big::new(m);
            doubled(&mut v, self.exponent as u32);
            proof {
                let all = m as nat * two_to(self.exponent as nat);
                assert(pow10(0) == 1);
                assert(all * 1 == all) by (nonlinear_arith);
            }
            return (v.digits(), 0);
        }
        let k: u32 = (-(self.exponent as i32)) as u32;
        let mut p: u32 = 0;
        while p <= 17
            invariant
                p <= 18,
                m == self.mantissa,
                self.exponent < 0,
                k == -self.exponent,
                self.fewest(0) == self.fewest(p as nat),
            decreases 18 - p,
        {
            let ten: u64 = ten_to(p);
            proof {
                lemma_two_to_values();
                lemma_pow10_values();
                lemma_pow10_grows(p as nat, 17);
                assert(m * ten <= 0xffff_ffff_ffff_ffff * 100_000_000_000_000_000) by (
                    nonlinear_arith)
                    requires
                        m <= 0xffff_ffff_ffff_ffff,
                        ten <= 100_000_000_000_000_000,
                ;
            }
            let top: u128 = m as u128 * ten as u128;
            let c: u128 = if k <= 121 {
                nearest_to(top, power(k))
            } else {
                proof {
                    lemma_two_to_grows(122, k as nat);
                    vstd::arithmetic::div_mod::lemma_basic_div(
                        top as int,
                        two_to(k as nat) as int,
                    );
                    vstd::arithmetic::div_mod::lemma_small_mod(top as nat, two_to(k as nat));
                }
                0
            };
            assert(c == self.scaled(p as nat));
            let back = if c <= u64::MAX as u128 {
                near(self.negative, c as u64, ten)
            } else {
                near_big(self.negative, wide(c), Big::new(ten))
            };
            if back == *self {
                return (wide(c).digits(), p);
            }
            p += 1;
        }
        let mut v = Big::new(m);
        let mut i: u32 = 0;
        proof {
            assert(m * 1 == m) by (nonlinear_arith);
        }
        while i < k
            invariant
                i <= k,
                v@ == m * five_to(i as nat),
            decreases k - i,
        {
            proof {
                assert(m * (5 * five_to(i as nat)) == (m * five_to(i as nat)) * 5) by (
                    nonlinear_arith);
                assert(five_to((i + 1) as nat) == 5 * five_to(i as nat));
            }
            v.times(5, 0);
            i += 1;
        }
        proof {
            lemma_all_places(*self);
        }
        (v.digits(), k)
    }
}

/// What is nearest to a ratio is off by no more than a half, and of two as near it
/// is the even one.
pub proof fn law_the_nearest_is_off_by_no_more_than_a_half(num: nat, den: nat)
    requires
        den > 0,
    ensures
        ({
            let n = nearest(num, den) as int;
            &&& -(den as int) <= 2 * (n * den - num) <= den
            &&& 2 * (n * den - num) == den || 2 * (n * den - num) == -(den as int) ==> n % 2 == 0
        }),
{
    let q = num / den;
    let r = num % den;
    vstd::arithmetic::div_mod::lemma_fundamental_div_mod(num as int, den as int);
    assert(num == den * q + r);
    assert(q * den == den * q && (q + 1) * den == den * q + den) by (nonlinear_arith);
}

/// An amount is what stands before the point, nothing when it is less than that,
/// and the most there is when it is more.
pub proof fn law_an_amount_stands_before_the_point(n: Double, max: nat)
    ensures
        n.negative ==> n.amount() == 0,
        !n.negative && n.floor() <= u64::MAX ==> n.amount() == n.floor(),
        !n.negative && n.floor() > u64::MAX ==> n.amount() == u64::MAX,
        n.count(max) matches Some(c) ==> c == n.floor() && c <= max && !(n.negative && n.mantissa
            > 0),
        n.exponent < 0 ==> ({
            let unit = two_to((-n.exponent) as nat);
            n.floor() * unit <= n.mantissa < (n.floor() + 1) * unit
        }),
        n.exponent >= 0 ==> n.floor() == n.mantissa as nat * two_to(n.exponent as nat),
{
    if n.exponent < 0 {
        let k = (-n.exponent) as nat;
        let unit = two_to(k);
        lemma_some_two_to(k);
        let m = n.mantissa as nat;
        let q = m / unit;
        assert(q * unit <= m < (q + 1) * unit) by (nonlinear_arith)
            requires
                q == m / unit,
                unit > 0,
        ;
    }
}

proof fn lemma_some_two_to(n: nat)
    ensures
        two_to(n) > 0,
    decreases n,
{
    if n > 0 {
        lemma_some_two_to((n - 1) as nat);
    }
}

}
