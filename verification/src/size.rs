//! How a number of bytes is written: `1.1 MB`, `312 kB`, `22 B`.
//!
//! The number is divided by a thousand in double precision until a unit fits,
//! and the quotient is written with one decimal below ten and none above. A
//! double is kept here as the two whole numbers it is made of, so that the
//! rounding of each division, and of the digits, is exactly a double's: to the
//! nearest, and to the even one of two that are as near.
use vstd::prelude::*;

use crate::double::{lemma_nearest, nearest, nearest_to, two_to, LEAST, PAST};
use crate::strings::{decimal, decimal_string};

verus! {

/// A double above zero: `mantissa` over two to the `scale`.
#[derive(Debug, Clone, Copy, PartialEq, Eq, Structural)]
pub struct Positive {
    pub mantissa: u64,
    pub scale: i32,
}

/// Below this a size has one decimal: the double nearest to 9.95.
pub open spec fn ten() -> Positive {
    Positive { mantissa: 5601352036542054, scale: 49 }
}

/// Below this a unit is kept: 999.5.
pub open spec fn thousand() -> Positive {
    Positive { mantissa: 8791694975696896, scale: 43 }
}

/// A mantissa that may have been rounded up past the largest.
pub open spec fn carried(mantissa: nat, scale: int) -> Positive {
    if mantissa == PAST {
        Positive { mantissa: LEAST, scale: (scale - 1) as i32 }
    } else {
        Positive { mantissa: mantissa as u64, scale: scale as i32 }
    }
}

impl Positive {
    /// The mantissa has all its bits.
    pub open spec fn normal(self) -> bool {
        LEAST <= self.mantissa < PAST
    }

    /// This is less than `other`, both being normal.
    pub open spec fn below(self, other: Positive) -> bool {
        self.scale > other.scale || (self.scale == other.scale && self.mantissa < other.mantissa)
    }

    /// The double nearest to a thousandth of this.
    pub open spec fn thousandth(self) -> Positive {
        let num = (self.mantissa * 4096) as nat;
        if num / 1000 >= 4 * PAST {
            carried(nearest(num, 8000), self.scale + 9)
        } else {
            carried(nearest(num, 4000), self.scale + 10)
        }
    }

    /// This `times` over, rounded to a whole number.
    pub open spec fn rounded(self, times: nat) -> nat {
        nearest(times * self.mantissa as nat, two_to(self.scale as nat))
    }
}

/// The double that a whole number below [`PAST`] is, over two to the `scale`.
pub open spec fn exactly(n: nat, scale: int) -> Positive
    decreases PAST - n,
{
    if 0 < n < LEAST {
        exactly(2 * n, scale + 1)
    } else {
        Positive { mantissa: n as u64, scale: scale as i32 }
    }
}

/// The double nearest to a whole number of [`PAST`] or more, `den` being two
/// to the `-scale`.
pub open spec fn shortened(n: nat, den: nat, scale: int) -> Positive
    decreases n - den,
{
    if den == 0 || den > n || n / den < PAST {
        carried(nearest(n, den), scale)
    } else {
        proof {
            assert(2 * den <= n) by (nonlinear_arith)
                requires
                    0 < den,
                    n / den >= PAST,
                    PAST >= 2,
            ;
        }
        shortened(n, 2 * den, scale - 1)
    }
}

/// The double nearest to a whole number.
pub open spec fn positive_of(n: nat) -> Positive {
    if n < PAST {
        exactly(n, 0)
    } else {
        shortened(n, 1, 0)
    }
}

/// The name of a unit.
pub open spec fn unit(k: int) -> Seq<char> {
    if k == 0 {
        " kB"@
    } else if k == 1 {
        " MB"@
    } else if k == 2 {
        " GB"@
    } else if k == 3 {
        " TB"@
    } else {
        " PB"@
    }
}

/// A size in units of a thousand to the `k + 1`, `d` being in the unit below.
pub open spec fn scaled(d: Positive, k: int) -> Seq<char>
    decreases 4 - k,
{
    let v = d.thousandth();
    if v.below(ten()) {
        decimal(v.rounded(10) / 10) + "."@ + decimal(v.rounded(10) % 10) + unit(k)
    } else if v.below(thousand()) || k >= 4 {
        decimal(v.rounded(1)) + unit(k)
    } else {
        scaled(v, k + 1)
    }
}

/// How a number of bytes is written.
pub open spec fn size_words(n: nat) -> Seq<char> {
    if n < 1000 {
        decimal(n) + " B"@
    } else {
        scaled(positive_of(n), 0)
    }
}

impl Positive {
    /// The double nearest to a thousandth of this.
    fn over_thousand(self) -> (r: Positive)
        requires
            self.normal(),
            -100 <= self.scale <= 1000,
        ensures
            r == self.thousandth(),
            r.normal(),
            self.scale + 8 <= r.scale <= self.scale + 10,
    {
        let num: u128 = self.mantissa as u128 * 4096;
        let past: u128 = 4 * PAST as u128;
        if num / 1000 >= past {
            proof {
                lemma_nearest(num as nat, 8000, LEAST as nat, PAST as nat);
            }
            carry(nearest_to(num, 8000), self.scale + 9)
        } else {
            proof {
                lemma_nearest(num as nat, 4000, LEAST as nat, PAST as nat);
            }
            carry(nearest_to(num, 4000), self.scale + 10)
        }
    }

    /// Whether this is less than `other`.
    fn is_below(self, other: Positive) -> (r: bool)
        ensures
            r == self.below(other),
    {
        self.scale > other.scale || (self.scale == other.scale && self.mantissa < other.mantissa)
    }

    /// This `times` over, rounded to a whole number.
    fn round(self, times: u64) -> (r: u64)
        requires
            self.normal(),
            0 <= self.scale <= 110,
            times <= 10,
        ensures
            r == self.rounded(times as nat),
    {
        let mut den: u128 = 1;
        let mut k: i32 = 0;
        while k < self.scale
            invariant
                0 <= k <= self.scale <= 110,
                den == two_to(k as nat),
            decreases self.scale - k,
        {
            proof {
                lemma_two_to_bound((k + 1) as nat);
                assert(two_to((k + 1) as nat) == 2 * two_to(k as nat));
            }
            den = den * 2;
            k += 1;
        }
        proof {
            lemma_two_to_bound(k as nat);
            assert(times * self.mantissa <= 10 * PAST) by (nonlinear_arith)
                requires
                    times <= 10,
                    self.mantissa < PAST,
            ;
        }
        let num: u128 = times as u128 * self.mantissa as u128;
        let r = nearest_to(num, den);
        proof {
            assert(num < 11 * PAST * den) by (nonlinear_arith)
                requires
                    num <= 10 * PAST,
                    den >= 1,
            ;
            assert(0 * den <= num) by (nonlinear_arith);
            lemma_nearest(num as nat, den as nat, 0, (11 * PAST) as nat);
        }
        r as u64
    }
}

/// Ten more doublings.
proof fn lemma_ten_more(n: nat)
    ensures
        two_to(n + 10) == 1024 * two_to(n),
{
    reveal_with_fuel(two_to, 11);
}

/// Two to the hundred and tenth.
proof fn lemma_two_to_110()
    ensures
        two_to(110) == 0x4000_0000_0000_0000_0000_0000_0000,
{
    lemma_ten_more(0);
    lemma_ten_more(10);
    lemma_ten_more(20);
    lemma_ten_more(30);
    lemma_ten_more(40);
    lemma_ten_more(50);
    lemma_ten_more(60);
    lemma_ten_more(70);
    lemma_ten_more(80);
    lemma_ten_more(90);
    lemma_ten_more(100);
}

/// Powers of two to the hundred and tenth.
proof fn lemma_two_to_bound(n: nat)
    requires
        n <= 110,
    ensures
        1 <= two_to(n) <= 0x4000_0000_0000_0000_0000_0000_0000,
    decreases 110 - n,
{
    if n < 110 {
        lemma_two_to_bound(n + 1);
        assert(two_to(n + 1) == 2 * two_to(n));
    } else {
        lemma_two_to_110();
    }
}

/// A mantissa that may have been rounded up past the largest.
fn carry(mantissa: u128, scale: i32) -> (r: Positive)
    requires
        LEAST <= mantissa <= PAST,
        -1000 <= scale <= 2000,
    ensures
        r == carried(mantissa as nat, scale as int),
        r.normal(),
        scale - 1 <= r.scale <= scale,
{
    if mantissa == PAST as u128 {
        Positive { mantissa: LEAST, scale: scale - 1 }
    } else {
        Positive { mantissa: mantissa as u64, scale }
    }
}

/// The double nearest to a whole number.
fn whole_double(n: u64) -> (r: Positive)
    requires
        n > 0,
    ensures
        r == positive_of(n as nat),
        r.normal(),
        -12 <= r.scale <= 52,
{
    if n < PAST {
        let mut m: u64 = n;
        let mut scale: i32 = 0;
        while m < LEAST
            invariant
                0 < m < PAST,
                0 <= scale <= 52,
                m >= two_to(scale as nat),
                exactly(n as nat, 0) == exactly(m as nat, scale as int),
            decreases PAST - m,
        {
            proof {
                if scale == 52 {
                    lemma_least();
                }
                assert(two_to((scale + 1) as nat) == 2 * two_to(scale as nat));
            }
            m = m * 2;
            scale += 1;
        }
        return Positive { mantissa: m, scale };
    }
    let mut den: u64 = 1;
    let mut scale: i32 = 0;
    while n / den >= PAST
        invariant
            n >= PAST,
            1 <= den <= 2048,
            -11 <= scale <= 0,
            den == two_to((-scale) as nat),
            shortened(n as nat, 1, 0) == shortened(n as nat, den as nat, scale as int),
            den > 1 ==> 2 * (n / den) + 1 >= PAST,
            den <= n,
        decreases 4096 - den,
    {
        proof {
            lemma_den_stops(n, den, scale);
            assert(two_to((-scale + 1) as nat) == 2 * two_to((-scale) as nat));
            assert(n / den >= PAST ==> 2 * (n / ((2 * den) as u64)) + 1 >= PAST) by (
                nonlinear_arith)
                requires
                    1 <= den <= 1024,
            ;
        }
        den = den * 2;
        scale -= 1;
    }
    proof {
        let q = n / den;
        assert(n < (q + 1) * den && q * den <= n) by (nonlinear_arith)
            requires
                q == n / den,
                den >= 1,
        ;
        assert(n < PAST * den) by (nonlinear_arith)
            requires
                n < (q + 1) * den,
                q + 1 <= PAST,
                den >= 1,
        ;
        assert(LEAST * den <= n) by (nonlinear_arith)
            requires
                q * den <= n,
                q >= LEAST,
                den >= 1,
        ;
        lemma_nearest(n as nat, den as nat, LEAST as nat, PAST as nat);
    }
    carry(nearest_to(n as u128, den as u128), scale)
}

/// Two to the fifty-second is [`LEAST`].
proof fn lemma_least()
    ensures
        two_to(52) == LEAST,
{
    reveal_with_fuel(two_to, 53);
}

/// A number of sixty-four bits is shortened by eleven at most.
proof fn lemma_den_stops(n: u64, den: u64, scale: i32)
    requires
        1 <= den <= 2048,
        -11 <= scale <= 0,
        den == two_to((-scale) as nat),
        n / den >= PAST,
    ensures
        den <= 1024,
        scale > -11,
{
    reveal_with_fuel(two_to, 12);
    assert(n / 2048 < PAST);
    if den == 2048 {
        assert(false);
    }
    if scale == -11 {
        assert(two_to(11) == 2048);
    }
    assert(den < 2048);
    assert(scale == 0 || scale == -1 || scale == -2 || scale == -3 || scale == -4 || scale == -5
        || scale == -6 || scale == -7 || scale == -8 || scale == -9 || scale == -10);
}

/// How a number of bytes is written.
pub fn sized(n: u64) -> (r: String)
    ensures
        r@ == size_words(n as nat),
{
    if n < 1000 {
        let mut out = decimal_string(n);
        out.append(" B");
        return out;
    }
    let small = Positive { mantissa: 5601352036542054, scale: 49 };
    let large = Positive { mantissa: 8791694975696896, scale: 43 };
    let mut d = whole_double(n);
    let mut k: u32 = 0;
    loop
        invariant
            k <= 4,
            d.normal(),
            -12 + 8 * k <= d.scale <= 52 + 10 * k,
            small == ten(),
            large == thousand(),
            size_words(n as nat) == scaled(d, k as int),
        decreases 4 - k,
    {
        let name = if k == 0 {
            " kB"
        } else if k == 1 {
            " MB"
        } else if k == 2 {
            " GB"
        } else if k == 3 {
            " TB"
        } else {
            " PB"
        };
        let v = d.over_thousand();
        if v.is_below(small) {
            let t = v.round(10);
            let mut out = decimal_string(t / 10);
            out.append(".");
            out.append(decimal_string(t % 10).as_str());
            out.append(name);
            return out;
        }
        if v.is_below(large) || k == 4 {
            let mut out = decimal_string(v.round(1));
            out.append(name);
            return out;
        }
        d = v;
        k += 1;
    }
}

/// Up to a thousand the bytes are counted, and each name of a larger unit is its
/// own.
pub proof fn law_few_bytes_are_counted(n: nat)
    requires
        n < 1000,
    ensures
        size_words(n) == decimal(n) + " B"@,
        unit(0) == " kB"@ && unit(1) == " MB"@ && unit(2) == " GB"@ && unit(3) == " TB"@ && unit(4)
            == " PB"@,
{
}

}
