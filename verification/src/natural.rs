//! Natural numbers of any size, for exact arithmetic.

use vstd::prelude::*;

verus! {

/// 2 to the power 32: the base of the limbs of a `Natural`.
pub open spec fn base() -> nat {
    0x1_0000_0000
}

/// The number whose limbs in base 2^32, lowest first, are `s`.
pub open spec fn limbs_value(s: Seq<u32>) -> nat
    decreases s.len(),
{
    if s.len() == 0 {
        0
    } else {
        s[0] as nat + base() * limbs_value(s.skip(1))
    }
}

/// `base()` to the power `k`.
pub open spec fn base_pow(k: nat) -> nat
    decreases k,
{
    if k == 0 {
        1
    } else {
        base() * base_pow((k - 1) as nat)
    }
}

/// 2 to the power `k`.
pub open spec fn pow2(k: nat) -> nat
    decreases k,
{
    if k == 0 {
        1
    } else {
        2 * pow2((k - 1) as nat)
    }
}

/// 10 to the power `k`.
pub open spec fn pow10(k: nat) -> nat
    decreases k,
{
    if k == 0 {
        1
    } else {
        10 * pow10((k - 1) as nat)
    }
}

pub proof fn lemma_pow2_pos(k: nat)
    ensures
        pow2(k) > 0,
    decreases k,
{
    if k > 0 {
        lemma_pow2_pos((k - 1) as nat);
    }
}

pub proof fn lemma_pow10_pos(k: nat)
    ensures
        pow10(k) > 0,
    decreases k,
{
    if k > 0 {
        lemma_pow10_pos((k - 1) as nat);
    }
}

pub proof fn lemma_pow2_sum(a: nat, b: nat)
    ensures
        pow2(a + b) == pow2(a) * pow2(b),
    decreases a,
{
    if a == 0 {
        assert(pow2(0) * pow2(b) == pow2(b)) by (nonlinear_arith)
            requires
                pow2(0) == 1,
        ;
    } else {
        lemma_pow2_sum((a - 1) as nat, b);
        let x = pow2((a - 1) as nat);
        let y = pow2(b);
        assert(2 * (x * y) == (2 * x) * y) by (nonlinear_arith);
        assert((a - 1) as nat + b == (a + b - 1) as nat);
    }
}

pub proof fn lemma_pow2_monotone(a: nat, b: nat)
    requires
        a <= b,
    ensures
        pow2(a) <= pow2(b),
    decreases b - a,
{
    if a < b {
        lemma_pow2_monotone(a, (b - 1) as nat);
        lemma_pow2_pos((b - 1) as nat);
    }
}

pub proof fn lemma_pow10_sum(a: nat, b: nat)
    ensures
        pow10(a + b) == pow10(a) * pow10(b),
    decreases a,
{
    if a == 0 {
        assert(pow10(0) * pow10(b) == pow10(b)) by (nonlinear_arith)
            requires
                pow10(0) == 1,
        ;
    } else {
        lemma_pow10_sum((a - 1) as nat, b);
        let x = pow10((a - 1) as nat);
        let y = pow10(b);
        assert(10 * (x * y) == (10 * x) * y) by (nonlinear_arith);
        assert((a - 1) as nat + b == (a + b - 1) as nat);
    }
}

pub proof fn lemma_pow10_monotone(a: nat, b: nat)
    requires
        a <= b,
    ensures
        pow10(a) <= pow10(b),
    decreases b - a,
{
    if a < b {
        lemma_pow10_monotone(a, (b - 1) as nat);
        lemma_pow10_pos((b - 1) as nat);
    }
}

/// Ten is more than eight.
pub proof fn lemma_pow10_pow2(k: nat)
    ensures
        pow2(3 * k) <= pow10(k),
    decreases k,
{
    if k > 0 {
        lemma_pow10_pow2((k - 1) as nat);
        reveal_with_fuel(pow2, 4);
        assert(pow2(3 * k) == 8 * pow2((3 * (k - 1)) as nat));
    }
}

/// Some powers of two.
pub proof fn lemma_pow2_values()
    ensures
        pow2(0) == 1,
        pow2(1) == 2,
        pow2(12) == 4096,
        pow2(16) == 0x1_0000,
        pow2(32) == 0x1_0000_0000,
        pow2(52) == 0x10_0000_0000_0000,
        pow2(53) == 0x20_0000_0000_0000,
        pow2(54) == 0x40_0000_0000_0000,
        pow2(63) == 0x8000_0000_0000_0000,
        pow2(64) == 0x1_0000_0000_0000_0000,
        pow2(117) == 0x20_0000_0000_0000_0000_0000_0000_0000,
        pow2(126) == 0x4000_0000_0000_0000_0000_0000_0000_0000,
        pow2(127) == 0x8000_0000_0000_0000_0000_0000_0000_0000,
        pow2(128) == 0x1_0000_0000_0000_0000_0000_0000_0000_0000,
{
    reveal_with_fuel(pow2, 17);
    lemma_pow2_sum(16, 16);
    lemma_pow2_sum(32, 12);
    lemma_pow2_sum(44, 8);
    lemma_pow2_sum(32, 32);
    lemma_pow2_sum(53, 64);
    lemma_pow2_sum(64, 64);
    assert(pow2(44) == 0x1000_0000_0000);
    assert(pow2(52) == 0x10_0000_0000_0000);
    assert(pow2(64) == 0x1_0000_0000_0000_0000);
    assert(pow2(64) == 2 * pow2(63));
    assert(pow2(128) == 2 * pow2(127));
    assert(pow2(127) == 2 * pow2(126));
}

/// The number that the limbs below `k` and those from `k` on add up to.
proof fn lemma_limbs_split(s: Seq<u32>, k: int)
    requires
        0 <= k <= s.len(),
    ensures
        limbs_value(s) == limbs_value(s.take(k)) + base_pow(k as nat) * limbs_value(s.skip(k)),
    decreases k,
{
    if k == 0 {
        assert(s.take(0) =~= Seq::empty());
        assert(s.skip(0) =~= s);
        let v = limbs_value(s);
        assert(base_pow(0) * v == v) by (nonlinear_arith)
            requires
                base_pow(0) == 1,
        ;
    } else {
        let t = s.skip(1);
        lemma_limbs_split(t, k - 1);
        assert(t.take(k - 1) =~= s.take(k).skip(1));
        assert(t.skip(k - 1) =~= s.skip(k));
        assert(s.take(k)[0] == s[0]);
        let b = base();
        let p = base_pow((k - 1) as nat);
        let lo = limbs_value(t.take(k - 1));
        let hi = limbs_value(s.skip(k));
        assert(b * (lo + p * hi) == b * lo + (b * p) * hi) by (nonlinear_arith);
    }
}

proof fn lemma_limbs_push(s: Seq<u32>, x: u32)
    ensures
        limbs_value(s.push(x)) == limbs_value(s) + base_pow(s.len()) * x,
{
    let t = s.push(x);
    lemma_limbs_split(t, s.len() as int);
    assert(t.take(s.len() as int) =~= s);
    assert(t.skip(s.len() as int) =~= seq![x]);
    assert(seq![x].skip(1) =~= Seq::empty());
    assert(limbs_value(Seq::empty()) == 0);
    assert(limbs_value(seq![x]) == x as nat);
}

proof fn lemma_limbs_bound(s: Seq<u32>)
    ensures
        limbs_value(s) < base_pow(s.len()),
    decreases s.len(),
{
    if s.len() > 0 {
        lemma_limbs_bound(s.skip(1));
        let v = limbs_value(s.skip(1));
        let p = base_pow((s.len() - 1) as nat);
        assert(base() * v + base() <= base() * p) by (nonlinear_arith)
            requires
                v + 1 <= p,
        ;
    }
}

/// A natural number of any size.
pub struct Natural {
    limbs: Vec<u32>,
}

impl View for Natural {
    type V = nat;

    closed spec fn view(&self) -> nat {
        limbs_value(self.limbs@)
    }
}

impl Natural {
    /// The highest limb is not zero.
    pub closed spec fn wf(&self) -> bool {
        self.limbs@.len() > 0 ==> self.limbs@.last() != 0
    }

    pub fn zero() -> (r: Natural)
        ensures
            r@ == 0,
            r.wf(),
    {
        Natural { limbs: Vec::new() }
    }

    /// Replaces the number by `self * m + a`.
    pub fn mul_small(&mut self, m: u32, a: u32)
        requires
            old(self).wf(),
            m > 0,
        ensures
            final(self).wf(),
            final(self)@ == old(self)@ * m + a,
    {
        let ghost s0 = self.limbs@;
        let mut carry: u64 = a as u64;
        let mut i: usize = 0;
        let n: usize = self.limbs.len();
        assert(s0.take(0) =~= Seq::empty());
        assert(self.limbs@.take(0) =~= Seq::empty());
        assert(base_pow(0) * carry == carry) by (nonlinear_arith)
            requires
                base_pow(0) == 1,
        ;
        assert(0 * (m as int) == 0);
        while i < n
            invariant
                i <= n,
                n == s0.len(),
                self.limbs@.len() == n,
                carry < 0x1_0000_0000,
                m > 0,
                forall|j: int| i <= j < n ==> self.limbs@[j] == s0[j],
                limbs_value(self.limbs@.take(i as int)) + base_pow(i as nat) * carry
                    == limbs_value(s0.take(i as int)) * m + a,
                n > 0 ==> s0[n - 1] != 0,
                i > 0 && i == n ==> (self.limbs@[n - 1] != 0 || carry > 0),
            decreases n - i,
        {
            let x: u32 = self.limbs[i];
            assert((x as u64) * (m as u64) + carry <= 0xffff_ffff_ffff_ffff) by (nonlinear_arith)
                requires
                    x <= 0xffff_ffff,
                    m <= 0xffff_ffff,
                    carry <= 0xffff_ffff,
            ;
            assert((x as u64) * (m as u64) <= 0xffff_ffff_ffff_ffff) by (nonlinear_arith)
                requires
                    x <= 0xffff_ffff,
                    m <= 0xffff_ffff,
            ;
            let t: u64 = (x as u64) * (m as u64) + carry;
            let low: u32 = (t % 0x1_0000_0000) as u32;
            let next: u64 = t / 0x1_0000_0000;
            let ghost before = self.limbs@;
            self.limbs.set(i, low);
            proof {
                lemma_limbs_push(before.take(i as int), low);
                lemma_limbs_push(s0.take(i as int), x);
                assert(self.limbs@.take(i + 1) =~= before.take(i as int).push(low));
                assert(s0.take(i + 1) =~= s0.take(i as int).push(x));
                let p = base_pow(i as nat) as int;
                let b = base() as int;
                let lo = limbs_value(before.take(i as int)) as int;
                let so = limbs_value(s0.take(i as int)) as int;
                let mi = m as int;
                let xi = x as int;
                let ti = t as int;
                let c = carry as int;
                let nx = next as int;
                let lw = low as int;
                assert(lo + p * lw + (b * p) * nx == (so + p * xi) * mi + a) by (nonlinear_arith)
                    requires
                        ti == xi * mi + c,
                        ti == b * nx + lw,
                        lo + p * c == so * mi + a,
                ;
                if i + 1 == n {
                    assert(t > 0) by (nonlinear_arith)
                        requires
                            t == (x as u64) * (m as u64) + carry,
                            x > 0,
                            m > 0,
                    ;
                }
            }
            carry = next;
            i += 1;
        }
        proof {
            assert(self.limbs@.take(n as int) =~= self.limbs@);
            assert(s0.take(n as int) =~= s0);
        }
        if carry > 0 {
            let ghost before = self.limbs@;
            self.limbs.push(carry as u32);
            proof {
                lemma_limbs_push(before, carry as u32);
            }
        }
    }

    pub fn from_u64(n: u64) -> (r: Natural)
        ensures
            r@ == n,
            r.wf(),
    {
        let mut limbs: Vec<u32> = Vec::new();
        if n > 0 {
            limbs.push((n % 0x1_0000_0000) as u32);
            if n >= 0x1_0000_0000 {
                limbs.push((n / 0x1_0000_0000) as u32);
                assert(limbs@.skip(1).skip(1) =~= Seq::empty());
                assert(limbs_value(limbs@.skip(1).skip(1)) == 0);
                assert(limbs_value(limbs@.skip(1)) == (n / 0x1_0000_0000) as nat);
            } else {
                assert(limbs@.skip(1) =~= Seq::empty());
            }
        }
        Natural { limbs }
    }

    pub fn copy(&self) -> (r: Natural)
        requires
            self.wf(),
        ensures
            r@ == self@,
            r.wf(),
    {
        let mut limbs: Vec<u32> = Vec::new();
        let mut i: usize = 0;
        while i < self.limbs.len()
            invariant
                i <= self.limbs@.len(),
                limbs@ == self.limbs@.take(i as int),
            decreases self.limbs@.len() - i,
        {
            limbs.push(self.limbs[i]);
            i += 1;
        }
        assert(limbs@ =~= self.limbs@);
        Natural { limbs }
    }

    proof fn lemma_nonzero(&self)
        requires
            self.wf(),
        ensures
            self.limbs@.len() > 0 ==> self@ >= base_pow((self.limbs@.len() - 1) as nat),
            self.limbs@.len() > 0 ==> self@ > 0,
    {
        if self.limbs@.len() > 0 {
            let s = self.limbs@;
            let k = s.len() - 1;
            lemma_limbs_push(s.drop_last(), s.last());
            assert(s.drop_last().push(s.last()) =~= s);
            lemma_base_pow_pos(k as nat);
            assert(base_pow(k as nat) * s.last() >= base_pow(k as nat)) by (nonlinear_arith)
                requires
                    s.last() >= 1,
            ;
        }
    }

    /// Whether the number is less than `other`.
    pub fn less(&self, other: &Natural) -> (r: bool)
        requires
            self.wf(),
            other.wf(),
        ensures
            r == (self@ < other@),
    {
        let n: usize = self.limbs.len();
        if n != other.limbs.len() {
            proof {
                lemma_limbs_bound(self.limbs@);
                lemma_limbs_bound(other.limbs@);
                self.lemma_nonzero();
                other.lemma_nonzero();
                if n < other.limbs@.len() {
                    lemma_base_pow_monotone(n as nat, (other.limbs@.len() - 1) as nat);
                } else {
                    lemma_base_pow_monotone(other.limbs@.len(), (n - 1) as nat);
                }
            }
            return n < other.limbs.len();
        }
        let mut i: usize = n;
        assert(self.limbs@.skip(n as int) =~= Seq::empty());
        assert(other.limbs@.skip(n as int) =~= Seq::empty());
        while i > 0
            invariant
                i <= n,
                n == self.limbs@.len(),
                n == other.limbs@.len(),
                limbs_value(self.limbs@.skip(i as int)) == limbs_value(other.limbs@.skip(i as int)),
            decreases i,
        {
            let x: u32 = self.limbs[i - 1];
            let y: u32 = other.limbs[i - 1];
            proof {
                assert(self.limbs@.skip(i - 1).skip(1) =~= self.limbs@.skip(i as int));
                assert(other.limbs@.skip(i - 1).skip(1) =~= other.limbs@.skip(i as int));
            }
            if x != y {
                proof {
                    let k = i - 1;
                    lemma_limbs_split(self.limbs@, k);
                    lemma_limbs_split(other.limbs@, k);
                    lemma_limbs_bound(self.limbs@.take(k));
                    lemma_limbs_bound(other.limbs@.take(k));
                    let p = base_pow(k as nat) as int;
                    let h1 = limbs_value(self.limbs@.skip(k)) as int;
                    let h2 = limbs_value(other.limbs@.skip(k)) as int;
                    if x < y {
                        assert(p * h1 + p <= p * h2) by (nonlinear_arith)
                            requires
                                h1 + 1 <= h2,
                                p >= 0,
                        ;
                    } else {
                        assert(p * h2 + p <= p * h1) by (nonlinear_arith)
                            requires
                                h2 + 1 <= h1,
                                p >= 0,
                        ;
                    }
                }
                return x < y;
            }
            i -= 1;
        }
        proof {
            assert(self.limbs@.skip(0) =~= self.limbs@);
            assert(other.limbs@.skip(0) =~= other.limbs@);
        }
        false
    }

    /// Takes `other` away from the number.
    pub fn subtract(&mut self, other: &Natural)
        requires
            old(self).wf(),
            other.wf(),
            other@ <= old(self)@,
        ensures
            final(self).wf(),
            final(self)@ == old(self)@ - other@,
    {
        let ghost s0 = self.limbs@;
        let ghost t0 = other.limbs@;
        let n: usize = self.limbs.len();
        proof {
            other.lemma_nonzero();
            lemma_limbs_bound(s0);
            if t0.len() > n {
                lemma_base_pow_monotone(n as nat, (t0.len() - 1) as nat);
            }
        }
        let mut borrow: u64 = 0;
        let mut i: usize = 0;
        assert(s0.take(0) =~= Seq::empty());
        assert(t0.take(0) =~= Seq::empty());
        assert(self.limbs@.take(0) =~= Seq::empty());
        while i < n
            invariant
                i <= n,
                n == s0.len(),
                t0 == other.limbs@,
                t0.len() <= n,
                self.limbs@.len() == n,
                borrow <= 1,
                forall|j: int| i <= j < n ==> self.limbs@[j] == s0[j],
                limbs_value(self.limbs@.take(i as int)) - base_pow(i as nat) * borrow
                    == limbs_value(s0.take(i as int)) - limbs_value(t0.take(min(i as int, t0.len() as int))),
            decreases n - i,
        {
            let x: u64 = self.limbs[i] as u64;
            let y: u64 = if i < other.limbs.len() {
                other.limbs[i] as u64
            } else {
                0
            };
            let (d, next): (u64, u64) = if x >= y + borrow {
                (x - y - borrow, 0)
            } else {
                (x + 0x1_0000_0000 - y - borrow, 1)
            };
            let ghost before = self.limbs@;
            self.limbs.set(i, d as u32);
            proof {
                lemma_limbs_push(before.take(i as int), d as u32);
                lemma_limbs_push(s0.take(i as int), x as u32);
                assert(self.limbs@.take(i + 1) =~= before.take(i as int).push(d as u32));
                assert(s0.take(i + 1) =~= s0.take(i as int).push(x as u32));
                let p = base_pow(i as nat) as int;
                let b = base() as int;
                let (xi, yi, di, bo, nb) = (x as int, y as int, d as int, borrow as int, next as int);
                let lo = limbs_value(before.take(i as int)) as int;
                let so = limbs_value(s0.take(i as int)) as int;
                let to = limbs_value(t0.take(min(i as int, t0.len() as int))) as int;
                if i < t0.len() {
                    lemma_limbs_push(t0.take(i as int), y as u32);
                    assert(t0.take(i + 1) =~= t0.take(i as int).push(y as u32));
                } else {
                    assert(p * 0 == 0) by (nonlinear_arith);
                }
                assert(b * nb == (if next == 1 { b } else { 0 })) by (nonlinear_arith)
                    requires
                        nb == next,
                        next <= 1,
                ;
                assert(lo + p * di - (b * p) * nb == (so + p * xi) - (to + p * yi))
                    by (nonlinear_arith)
                    requires
                        di == xi + b * nb - yi - bo,
                        lo - p * bo == so - to,
                ;
            }
            borrow = next;
            i += 1;
        }
        proof {
            assert(self.limbs@.take(n as int) =~= self.limbs@);
            assert(s0.take(n as int) =~= s0);
            assert(t0.take(t0.len() as int) =~= t0);
            lemma_limbs_bound(self.limbs@);
            let p = base_pow(n as nat) as int;
            if borrow == 1 {
                assert(p * 1 == p);
            }
            assert(p * 0 == 0) by (nonlinear_arith);
        }
        let mut len: usize = self.limbs.len();
        while len > 0 && self.limbs[len - 1] == 0
            invariant
                len <= self.limbs@.len(),
                len == self.limbs@.len(),
                limbs_value(self.limbs@) == limbs_value(s0) - limbs_value(t0),
            decreases len,
        {
            let ghost before = self.limbs@;
            self.limbs.pop();
            len -= 1;
            proof {
                lemma_limbs_push(self.limbs@, 0);
                assert(self.limbs@.push(0) =~= before);
                assert(base_pow(self.limbs@.len()) * 0 == 0);
            }
        }
    }

    /// Multiplies the number by 2 to the power `k`.
    pub fn shift_left(&mut self, k: usize)
        requires
            old(self).wf(),
        ensures
            final(self).wf(),
            final(self)@ == old(self)@ * pow2(k as nat),
    {
        let mut left: usize = k;
        let ghost start = self@;
        assert(start * pow2(0) == start) by (nonlinear_arith)
            requires
                pow2(0) == 1,
        ;
        while left >= 16
            invariant
                self.wf(),
                left <= k,
                self@ == start * pow2((k - left) as nat),
            decreases left,
        {
            let ghost v = self@;
            self.mul_small(65536, 0);
            proof {
                assert(pow2(16) == 65536) by {
                    reveal_with_fuel(pow2, 17);
                }
                lemma_pow2_sum((k - left) as nat, 16);
                let p = pow2((k - left) as nat);
                assert((start * p) * 65536 == start * (p * 65536)) by (nonlinear_arith);
                assert((k - left) as nat + 16 == (k - (left - 16)) as nat);
            }
            left -= 16;
        }
        while left > 0
            invariant
                self.wf(),
                left <= k,
                self@ == start * pow2((k - left) as nat),
            decreases left,
        {
            let ghost v = self@;
            self.mul_small(2, 0);
            proof {
                let p = pow2((k - left) as nat);
                assert((start * p) * 2 == start * (2 * p)) by (nonlinear_arith);
                assert(((k - left) as nat + 1 - 1) as nat == (k - left) as nat);
            }
            left -= 1;
        }
    }

    /// Multiplies the number by 10 to the power `k`.
    pub fn scale_decimal(&mut self, k: u128)
        requires
            old(self).wf(),
        ensures
            final(self).wf(),
            final(self)@ == old(self)@ * pow10(k as nat),
    {
        let mut left: u128 = k;
        let ghost start = self@;
        assert(start * pow10(0) == start) by (nonlinear_arith)
            requires
                pow10(0) == 1,
        ;
        while left > 0
            invariant
                self.wf(),
                left <= k,
                self@ == start * pow10((k - left) as nat),
            decreases left,
        {
            self.mul_small(10, 0);
            proof {
                let p = pow10((k - left) as nat);
                assert((start * p) * 10 == start * (10 * p)) by (nonlinear_arith);
                assert(((k - left) as nat + 1 - 1) as nat == (k - left) as nat);
            }
            left -= 1;
        }
    }

    /// A number `k` with `2^(k-1) <= self < 2^k`; 0 for zero.
    pub fn bits(&self) -> (r: u128)
        requires
            self.wf(),
        ensures
            self@ < pow2(r as nat),
            r > 0 ==> pow2((r - 1) as nat) <= self@,
            r == 0 ==> self@ == 0,
            r <= 0x100_0000_0000_0000_0000,
    {
        let n: usize = self.limbs.len();
        if n == 0 {
            return 0;
        }
        proof {
            self.lemma_nonzero();
            lemma_base_pow_pow2((n - 1) as nat);
        }
        let top: u32 = self.limbs[n - 1];
        let mut t: u32 = top;
        let mut k: u128 = 0;
        let ghost mut scale: nat = 1;
        while t > 0
            invariant
                scale == pow2(k as nat),
                t * scale <= top,
                top < (t + 1) * scale,
                k <= 32,
                k == 32 ==> t == 0,
                t as nat * scale <= top,
                (t > 0 ==> pow2(k as nat) <= top),
                k > 0 ==> pow2((k - 1) as nat) <= top,
                k == 0 ==> t == top,
            decreases t,
        {
            proof {
                let h = t / 2;
                assert((h as nat) * (2 * scale) <= t as nat * scale) by (nonlinear_arith)
                    requires
                        h == t / 2,
                ;
                assert((t as nat + 1) * scale <= (h as nat + 1) * (2 * scale)) by (nonlinear_arith)
                    requires
                        h == t / 2,
                ;
                if k == 31 {
                    reveal_with_fuel(pow2, 32);
                    assert(scale == 0x8000_0000);
                    assert(t < 2) by (nonlinear_arith)
                        requires
                            t as nat * 0x8000_0000 <= top,
                            top <= 0xffff_ffff,
                    ;
                }
                if h > 0 {
                    assert(2 * scale <= top) by (nonlinear_arith)
                        requires
                            (h as nat) * (2 * scale) <= top,
                            h > 0,
                    ;
                }
                scale = 2 * scale;
            }
            t = t / 2;
            k += 1;
        }
        proof {
            let s = self.limbs@;
            lemma_limbs_push(s.drop_last(), s.last());
            assert(s.drop_last().push(s.last()) =~= s);
            lemma_limbs_bound(s.drop_last());
            let m = (32 * (n - 1)) as nat;
            let p = pow2(m) as int;
            let x = top as int;
            let lo = limbs_value(s.drop_last()) as int;
            lemma_pow2_sum(m, k as nat);
            lemma_pow2_sum(m, (k - 1) as nat);
            let u = pow2(k as nat) as int;
            let l = pow2((k - 1) as nat) as int;
            assert((0 + 1) * scale == scale) by (nonlinear_arith);
            assert(lo + p * x < p * u) by (nonlinear_arith)
                requires
                    0 <= lo < p,
                    x + 1 <= u,
            ;
            assert(p * l <= lo + p * x) by (nonlinear_arith)
                requires
                    lo >= 0,
                    l <= x,
                    p >= 0,
            ;
        }
        32 * ((n - 1) as u128) + k
    }
}

/// The smaller of the two numbers.
pub open spec fn min(a: int, b: int) -> int {
    if a <= b {
        a
    } else {
        b
    }
}

proof fn lemma_base_pow_pos(k: nat)
    ensures
        base_pow(k) > 0,
    decreases k,
{
    if k > 0 {
        lemma_base_pow_pos((k - 1) as nat);
    }
}

proof fn lemma_base_pow_monotone(a: nat, b: nat)
    requires
        a <= b,
    ensures
        base_pow(a) <= base_pow(b),
    decreases b - a,
{
    if a < b {
        lemma_base_pow_monotone(a, (b - 1) as nat);
        lemma_base_pow_pos((b - 1) as nat);
    }
}

proof fn lemma_base_pow_pow2(k: nat)
    ensures
        base_pow(k) == pow2(32 * k),
    decreases k,
{
    if k > 0 {
        lemma_base_pow_pow2((k - 1) as nat);
        lemma_pow2_sum(32, (32 * (k - 1)) as nat);
        assert(pow2(32) == 0x1_0000_0000) by {
            reveal_with_fuel(pow2, 33);
        }
        assert(32 + (32 * (k - 1)) as nat == 32 * k);
    }
}

} // verus!
