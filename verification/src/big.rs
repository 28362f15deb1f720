//! Whole numbers of any size: what reading and writing a double takes when a
//! machine's numbers are too short for it.
use vstd::prelude::*;

use crate::strings::{decimal, decimal_chars};

verus! {

/// A whole number, its thirty-two bits of least worth first.
pub struct Big {
    pub limbs: Vec<u32>,
}

/// What the limb at `n` counts.
pub open spec fn worth(n: nat) -> nat
    decreases n,
{
    if n == 0 {
        1
    } else {
        0x1_0000_0000 * worth((n - 1) as nat)
    }
}

/// The limb at `i`, which is zero past the last there is.
pub open spec fn limb(s: Seq<u32>, i: int) -> nat {
    if 0 <= i < s.len() {
        s[i] as nat
    } else {
        0
    }
}

/// What the first `n` limbs come to.
pub open spec fn lowest(s: Seq<u32>, n: nat) -> nat
    decreases n,
{
    if n == 0 {
        0
    } else {
        lowest(s, (n - 1) as nat) + limb(s, n - 1) * worth((n - 1) as nat)
    }
}

impl View for Big {
    type V = nat;

    open spec fn view(&self) -> nat {
        lowest(self.limbs@, self.limbs@.len())
    }
}

/// The worth of a limb is above zero.
proof fn lemma_worth(n: nat)
    ensures
        worth(n) >= 1,
        worth(n + 1) == 0x1_0000_0000 * worth(n),
    decreases n,
{
    if n > 0 {
        lemma_worth((n - 1) as nat);
    }
}

/// The first `n` limbs come to less than the next is worth.
proof fn lemma_lowest_bound(s: Seq<u32>, n: nat)
    ensures
        lowest(s, n) < worth(n),
    decreases n,
{
    if n > 0 {
        let k = (n - 1) as nat;
        lemma_lowest_bound(s, k);
        lemma_worth(k);
        assert(lowest(s, n) < 0x1_0000_0000 * worth(k)) by (nonlinear_arith)
            requires
                lowest(s, n) == lowest(s, k) + limb(s, k as int) * worth(k),
                lowest(s, k) < worth(k),
                limb(s, k as int) <= 0xffff_ffff,
        ;
    }
}

/// Limbs past the last there is add nothing.
proof fn lemma_padded(s: Seq<u32>, n: nat)
    requires
        n >= s.len(),
    ensures
        lowest(s, n) == lowest(s, s.len()),
    decreases n,
{
    if n > s.len() {
        lemma_padded(s, (n - 1) as nat);
        assert(0 * worth((n - 1) as nat) == 0) by (nonlinear_arith);
    }
}

/// Only the first `n` limbs count among the first `n`.
proof fn lemma_same_front(s: Seq<u32>, t: Seq<u32>, n: nat)
    requires
        forall|i: int| 0 <= i < n ==> #[trigger] limb(s, i) == limb(t, i),
    ensures
        lowest(s, n) == lowest(t, n),
    decreases n,
{
    if n > 0 {
        lemma_same_front(s, t, (n - 1) as nat);
        assert(limb(s, n - 1) == limb(t, n - 1));
    }
}

/// A limb pushed adds what it is worth.
proof fn lemma_pushed(s: Seq<u32>, x: u32)
    ensures
        lowest(s.push(x), s.len() + 1) == lowest(s, s.len()) + x * worth(s.len()),
{
    lemma_same_front(s, s.push(x), s.len());
    assert(limb(s.push(x), s.len() as int) == x);
}

impl Big {
    /// A number of sixty-four bits.
    pub fn new(n: u64) -> (r: Big)
        ensures
            r@ == n,
    {
        let low: u32 = (n % 0x1_0000_0000) as u32;
        let high: u32 = (n / 0x1_0000_0000) as u32;
        let mut limbs: Vec<u32> = Vec::new();
        limbs.push(low);
        limbs.push(high);
        proof {
            lemma_two_limbs(limbs@);
        }
        Big { limbs }
    }

    /// The same number.
    pub fn copy(&self) -> (r: Big)
        ensures
            r@ == self@,
    {
        Big { limbs: self.limbs.clone() }
    }

    /// This `by` times over, and `more`.
    pub fn times(&mut self, by: u32, more: u32)
        ensures
            final(self)@ == old(self)@ * by + more,
    {
        let mut out: Vec<u32> = Vec::new();
        let mut carry: u32 = more;
        let mut i: usize = 0;
        let ghost s = self.limbs@;
        proof {
            assert(more * 1 == more) by (nonlinear_arith);
            assert(0 * by == 0) by (nonlinear_arith);
        }
        while i < self.limbs.len()
            invariant
                s == self.limbs@,
                i <= s.len(),
                out@.len() == i,
                lowest(out@, i as nat) + carry * worth(i as nat) == lowest(s, i as nat) * by + more,
            decreases s.len() - i,
        {
            let x: u32 = self.limbs[i];
            proof {
                assert(x * by + carry <= 0xffff_ffff * 0xffff_ffff + 0xffff_ffff) by (
                    nonlinear_arith)
                    requires
                        x <= 0xffff_ffff,
                        by <= 0xffff_ffff,
                        carry <= 0xffff_ffff,
                ;
                assert(x * by >= 0) by (nonlinear_arith)
                    requires
                        x >= 0,
                        by >= 0,
                ;
            }
            let t: u64 = x as u64 * by as u64 + carry as u64;
            let low: u32 = (t % 0x1_0000_0000) as u32;
            let high: u32 = (t / 0x1_0000_0000) as u32;
            proof {
                let w = worth(i as nat);
                lemma_worth(i as nat);
                lemma_pushed(out@, low);
                assert(limb(s, i as int) == x);
                assert(t == low + 0x1_0000_0000 * high);
                let before = lowest(s, i as nat);
                assert((lowest(out@, i as nat) + low * w) + high * (0x1_0000_0000 * w) == (before
                    + x * w) * by + more) by (nonlinear_arith)
                    requires
                        lowest(out@, i as nat) + carry * w == before * by + more,
                        x * by + carry == low + 0x1_0000_0000 * high,
                ;
            }
            out.push(low);
            carry = high;
            i += 1;
        }
        if carry > 0 {
            proof {
                lemma_pushed(out@, carry);
            }
            out.push(carry);
        } else {
            proof {
                assert(0 * worth(i as nat) == 0) by (nonlinear_arith);
            }
        }
        self.limbs = out;
    }

    /// How this stands to `other`: below it, and above it.
    pub fn against(&self, other: &Big) -> (r: (bool, bool))
        ensures
            r.0 == (self@ < other@),
            r.1 == (self@ > other@),
    {
        let n: usize = if self.limbs.len() < other.limbs.len() {
            other.limbs.len()
        } else {
            self.limbs.len()
        };
        let ghost a = self.limbs@;
        let ghost b = other.limbs@;
        let mut below: bool = false;
        let mut above: bool = false;
        let mut i: usize = 0;
        while i < n
            invariant
                a == self.limbs@,
                b == other.limbs@,
                i <= n,
                below == (lowest(a, i as nat) < lowest(b, i as nat)),
                above == (lowest(a, i as nat) > lowest(b, i as nat)),
            decreases n - i,
        {
            let x: u32 = if i < self.limbs.len() {
                self.limbs[i]
            } else {
                0
            };
            let y: u32 = if i < other.limbs.len() {
                other.limbs[i]
            } else {
                0
            };
            proof {
                let w = worth(i as nat);
                lemma_lowest_bound(a, i as nat);
                lemma_lowest_bound(b, i as nat);
                assert(limb(a, i as int) == x);
                assert(limb(b, i as int) == y);
                assert(x < y ==> x * w + w <= y * w) by (nonlinear_arith);
                assert(y < x ==> y * w + w <= x * w) by (nonlinear_arith);
            }
            if x < y {
                below = true;
                above = false;
            } else if y < x {
                below = false;
                above = true;
            }
            i += 1;
        }
        proof {
            lemma_padded(a, n as nat);
            lemma_padded(b, n as nat);
        }
        (below, above)
    }

    /// This without `other`, which is no larger.
    pub fn without(&mut self, other: &Big)
        requires
            other@ <= old(self)@,
        ensures
            final(self)@ == old(self)@ - other@,
    {
        let n: usize = if self.limbs.len() < other.limbs.len() {
            other.limbs.len()
        } else {
            self.limbs.len()
        };
        let ghost a = self.limbs@;
        let ghost b = other.limbs@;
        let mut out: Vec<u32> = Vec::new();
        let mut lent: u64 = 0;
        let mut i: usize = 0;
        proof {
            assert(0 * worth(0) == 0) by (nonlinear_arith);
        }
        while i < n
            invariant
                a == self.limbs@,
                b == other.limbs@,
                i <= n,
                lent <= 1,
                out@.len() == i,
                lowest(out@, i as nat) + lowest(b, i as nat) == lowest(a, i as nat) + lent * worth(
                    i as nat,
                ),
            decreases n - i,
        {
            let x: u32 = if i < self.limbs.len() {
                self.limbs[i]
            } else {
                0
            };
            let y: u32 = if i < other.limbs.len() {
                other.limbs[i]
            } else {
                0
            };
            let t: u64 = 0x1_0000_0000 + x as u64 - y as u64 - lent;
            let low: u32 = (t % 0x1_0000_0000) as u32;
            let next: u64 = 1 - t / 0x1_0000_0000;
            proof {
                let w = worth(i as nat);
                lemma_worth(i as nat);
                lemma_pushed(out@, low);
                assert(limb(a, i as int) == x);
                assert(limb(b, i as int) == y);
                assert(low + y + lent == x + 0x1_0000_0000 * next);
                assert((lowest(out@, i as nat) + low * w) + (lowest(b, i as nat) + y * w) == (
                lowest(a, i as nat) + x * w) + next * (0x1_0000_0000 * w)) by (nonlinear_arith)
                    requires
                        lowest(out@, i as nat) + lowest(b, i as nat) == lowest(a, i as nat) + lent
                            * w,
                        low + y + lent == x + 0x1_0000_0000 * next,
                ;
            }
            out.push(low);
            lent = next;
            i += 1;
        }
        proof {
            lemma_padded(a, n as nat);
            lemma_padded(b, n as nat);
            lemma_lowest_bound(out@, n as nat);
            if lent == 1 {
                assert(1 * worth(n as nat) == worth(n as nat)) by (nonlinear_arith);
                assert(false);
            }
            assert(0 * worth(n as nat) == 0) by (nonlinear_arith);
        }
        self.limbs = out;
    }

    /// This, when it fits sixty-four bits.
    pub fn small(&self) -> (r: Option<u64>)
        ensures
            match r {
                Some(n) => self@ == n,
                None => self@ > u64::MAX,
            },
    {
        let ghost s = self.limbs@;
        let mut i: usize = self.limbs.len();
        while i > 2 && self.limbs[i - 1] == 0
            invariant
                s == self.limbs@,
                i <= s.len(),
                lowest(s, i as nat) == self@,
            decreases i,
        {
            proof {
                assert(limb(s, i - 1) == 0);
                assert(0 * worth((i - 1) as nat) == 0) by (nonlinear_arith);
            }
            i -= 1;
        }
        if i > 2 {
            proof {
                let k = (i - 1) as nat;
                lemma_two_limbs(s);
                lemma_worth_grows(2, k);
                assert(limb(s, k as int) >= 1);
                assert(limb(s, k as int) * worth(k) >= worth(k)) by (nonlinear_arith)
                    requires
                        limb(s, k as int) >= 1,
                ;
            }
            return None;
        }
        let low: u32 = if i > 0 {
            self.limbs[0]
        } else {
            0
        };
        let high: u32 = if i > 1 {
            self.limbs[1]
        } else {
            0
        };
        proof {
            lemma_two_limbs(s);
        }
        let more: u64 = high as u64 * 0x1_0000_0000;
        Some(low as u64 + more)
    }

    /// A tenth of this, without what is left, and what is left.
    pub fn tenth(&self) -> (r: (Big, u32))
        ensures
            r.0@ == self@ / 10,
            r.1 == self@ % 10,
    {
        let n: usize = self.limbs.len();
        let ghost a = self.limbs@;
        let mut out: Vec<u32> = Vec::new();
        let mut k: usize = 0;
        while k < n
            invariant
                k <= n,
                out@.len() == k,
                forall|j: int| 0 <= j < k ==> #[trigger] out@[j] == 0,
            decreases n - k,
        {
            out.push(0);
            k += 1;
        }
        proof {
            lemma_nothing(out@, n as nat);
            assert(0 * worth(n as nat) == 0) by (nonlinear_arith);
        }
        let mut left: u64 = 0;
        let mut i: usize = n;
        while i > 0
            invariant
                a == self.limbs@,
                n == a.len(),
                i <= n,
                out@.len() == n,
                left < 10,
                forall|j: int| 0 <= j < i ==> #[trigger] out@[j] == 0,
                lowest(a, n as nat) == 10 * lowest(out@, n as nat) + left * worth(i as nat)
                    + lowest(a, i as nat),
            decreases i,
        {
            let x: u32 = self.limbs[i - 1];
            let t: u64 = left * 0x1_0000_0000 + x as u64;
            let q: u32 = (t / 10) as u32;
            let ghost before = out@;
            out.set(i - 1, q);
            proof {
                let k = (i - 1) as nat;
                let w = worth(k);
                lemma_worth(k);
                lemma_set(before, k as int, q, n as nat);
                assert(limb(a, k as int) == x);
                let rest = t % 10;
                assert(left * (0x1_0000_0000 * w) + x * w == 10 * (q * w) + rest * w) by (
                    nonlinear_arith)
                    requires
                        left * 0x1_0000_0000 + x == 10 * q + rest,
                ;
            }
            left = t % 10;
            i -= 1;
        }
        let r = Big { limbs: out };
        proof {
            assert(left * 1 == left) by (nonlinear_arith);
            assert(self@ == 10 * r@ + left);
        }
        (r, left as u32)
    }

    /// This in decimal.
    pub fn digits(&self) -> (r: Vec<char>)
        ensures
            r@ == decimal(self@),
        decreases self@,
    {
        match self.small() {
            Some(n) => decimal_chars(n),
            None => {
                let (tenth, last) = self.tenth();
                let mut out = tenth.digits();
                out.push((48 + last as u8) as char);
                out
            },
        }
    }
}

/// What two limbs come to.
proof fn lemma_two_limbs(s: Seq<u32>)
    ensures
        worth(2) == 0x1_0000_0000_0000_0000,
        lowest(s, 0) == 0,
        lowest(s, 1) == limb(s, 0),
        lowest(s, 2) == limb(s, 0) + 0x1_0000_0000 * limb(s, 1),
{
    assert(worth(0) == 1);
    assert(worth(1) == 0x1_0000_0000 * worth(0));
    assert(worth(2) == 0x1_0000_0000 * worth(1));
    assert(lowest(s, 0) == 0);
    assert(lowest(s, 1) == lowest(s, 0) + limb(s, 0) * worth(0));
    assert(lowest(s, 2) == lowest(s, 1) + limb(s, 1) * worth(1));
}

/// The worth of a limb is no less than that of one before it.
proof fn lemma_worth_grows(a: nat, b: nat)
    requires
        a <= b,
    ensures
        worth(a) <= worth(b),
    decreases b,
{
    if a < b {
        lemma_worth_grows(a, (b - 1) as nat);
        lemma_worth((b - 1) as nat);
    }
}

/// Limbs that are all zero come to nothing.
proof fn lemma_nothing(s: Seq<u32>, n: nat)
    requires
        forall|i: int| 0 <= i < s.len() ==> #[trigger] s[i] == 0,
    ensures
        lowest(s, n) == 0,
    decreases n,
{
    if n > 0 {
        lemma_nothing(s, (n - 1) as nat);
        assert(0 * worth((n - 1) as nat) == 0) by (nonlinear_arith);
    }
}

/// A limb that was zero adds what it is worth once it is set.
proof fn lemma_set(s: Seq<u32>, i: int, x: u32, n: nat)
    requires
        0 <= i < s.len(),
        s[i] == 0,
    ensures
        lowest(s.update(i, x), n) == lowest(s, n) + (if n > i {
            (x * worth(i as nat)) as nat
        } else {
            0
        }),
    decreases n,
{
    if n > 0 {
        let k = (n - 1) as nat;
        lemma_set(s, i, x, k);
        if k == i {
            assert(0 * worth(k) == 0) by (nonlinear_arith);
            assert(limb(s, i) == 0);
            assert(limb(s.update(i, x), i) == x);
        } else {
            assert(limb(s, k as int) == limb(s.update(i, x), k as int));
        }
    }
}

}
