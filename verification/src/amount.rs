use vstd::prelude::*;

verus! {

/// The base of the limbs of an amount.
pub open spec fn limb_base() -> nat {
    0x1_0000_0000_0000_0000
}

/// `limb_base()` to the power `n`.
pub open spec fn limb_pow(n: nat) -> nat
    decreases n,
{
    if n == 0 {
        1
    } else {
        limb_pow((n - 1) as nat) * limb_base()
    }
}

/// The number that little-endian limbs stand for.
pub open spec fn limbs_value(s: Seq<u64>) -> nat
    decreases s.len(),
{
    if s.len() == 0 {
        0
    } else {
        limbs_value(s.drop_last()) + (s.last() as nat) * limb_pow((s.len() - 1) as nat)
    }
}

/// The limb at `i`, zero past the end.
pub open spec fn limb_at(s: Seq<u64>, i: int) -> nat {
    if 0 <= i < s.len() {
        s[i] as nat
    } else {
        0
    }
}

/// The number that the first `n` limbs stand for, limbs past the end
/// counting as zero.
pub open spec fn limbs_value_upto(s: Seq<u64>, n: nat) -> nat
    decreases n,
{
    if n == 0 {
        0
    } else {
        limbs_value_upto(s, (n - 1) as nat) + limb_at(s, n - 1) * limb_pow((n - 1) as nat)
    }
}

proof fn lemma_limb_pow_positive(n: nat)
    ensures
        limb_pow(n) >= 1,
    decreases n,
{
    if n > 0 {
        lemma_limb_pow_positive((n - 1) as nat);
        let p = limb_pow((n - 1) as nat);
        assert(p * limb_base() >= 1) by (nonlinear_arith)
            requires
                p >= 1,
        ;
    }
}

proof fn lemma_upto_take(s: Seq<u64>, n: nat)
    requires
        n <= s.len(),
    ensures
        limbs_value_upto(s, n) == limbs_value(s.take(n as int)),
    decreases n,
{
    if n > 0 {
        lemma_upto_take(s, (n - 1) as nat);
        assert(s.take(n as int).drop_last() =~= s.take(n - 1));
    } else {
        assert(s.take(0).len() == 0);
    }
}

proof fn lemma_upto_past_end(s: Seq<u64>, n: nat)
    requires
        n >= s.len(),
    ensures
        limbs_value_upto(s, n) == limbs_value(s),
    decreases n,
{
    if n > s.len() {
        lemma_upto_past_end(s, (n - 1) as nat);
    } else {
        lemma_upto_take(s, n);
        assert(s.take(n as int) =~= s);
    }
}

/// Limbs stand for less than the base to the power of their number.
proof fn lemma_value_bound(s: Seq<u64>)
    ensures
        limbs_value(s) < limb_pow(s.len()),
    decreases s.len(),
{
    if s.len() > 0 {
        lemma_value_bound(s.drop_last());
        let v = limbs_value(s.drop_last());
        let p = limb_pow((s.len() - 1) as nat);
        let d = s.last() as nat;
        assert(v + d * p < p * limb_base()) by (nonlinear_arith)
            requires
                v < p,
                d < limb_base(),
        ;
    }
}

/// A number with a nonzero top limb is at least the base to the power of
/// the other limbs.
proof fn lemma_value_top(s: Seq<u64>)
    requires
        s.len() > 0,
        s.last() != 0,
    ensures
        limbs_value(s) >= limb_pow((s.len() - 1) as nat),
{
    let p = limb_pow((s.len() - 1) as nat);
    let d = s.last() as nat;
    assert(d * p >= p) by (nonlinear_arith)
        requires
            d >= 1,
            p >= 0,
    ;
}

proof fn lemma_small_powers()
    ensures
        limb_pow(0) == 1,
        limb_pow(1) == limb_base(),
        limb_pow(2) == limb_base() * limb_base(),
{
    reveal_with_fuel(limb_pow, 3);
}

proof fn lemma_value_short(s: Seq<u64>)
    requires
        s.len() <= 2,
    ensures
        s.len() == 0 ==> limbs_value(s) == 0,
        s.len() == 1 ==> limbs_value(s) == s[0],
        s.len() == 2 ==> limbs_value(s) == s[0] + s[1] * limb_base(),
{
    lemma_small_powers();
    reveal_with_fuel(limbs_value, 3);
    if s.len() == 2 {
        let t = s.drop_last();
        assert(t.drop_last().len() == 0);
        assert(limbs_value(t.drop_last()) == 0);
        assert(t.last() == s[0]);
        assert(limbs_value(t) == limbs_value(t.drop_last()) + (t.last() as nat) * limb_pow(0));
        assert(s.last() == s[1]);
        assert(limbs_value(s) == limbs_value(t) + (s.last() as nat) * limb_pow(1));
    }
    if s.len() == 1 {
        assert(s.drop_last().len() == 0);
        assert(limbs_value(s.drop_last()) == 0);
        assert(s.last() == s[0]);
        assert(limbs_value(s) == limbs_value(s.drop_last()) + (s.last() as nat) * limb_pow(0));
    }
}

proof fn lemma_value_push(s: Seq<u64>, d: u64)
    ensures
        limbs_value(s.push(d)) == limbs_value(s) + d * limb_pow(s.len()),
{
    assert(s.push(d).drop_last() =~= s);
}

/// A number of amounts of GNG, as large as needed: its limbs, least
/// significant first, with no zero limb on top.
#[derive(Clone, Debug, PartialEq, Eq)]
pub struct Amount {
    limbs: Vec<u64>,
}

impl View for Amount {
    type V = nat;

    closed spec fn view(&self) -> nat {
        limbs_value(self.limbs@)
    }
}

/// `a * b / c`, rounded down.
pub open spec fn floor_mul_div(a: nat, b: nat, c: nat) -> nat {
    (a * b / c) as nat
}

impl Amount {
    /// The limbs carry no zero limb on top.
    pub closed spec fn wf(&self) -> bool {
        self.limbs@.len() == 0 || self.limbs@.last() != 0
    }

    pub fn zero() -> (r: Amount)
        ensures
            r.wf(),
            r@ == 0,
    {
        Amount { limbs: Vec::new() }
    }

    pub fn from_u64(x: u64) -> (r: Amount)
        ensures
            r.wf(),
            r@ == x,
    {
        let mut limbs: Vec<u64> = Vec::new();
        if x != 0 {
            limbs.push(x);
        }
        proof {
            lemma_value_short(limbs@);
        }
        Amount { limbs }
    }

    pub fn from_u128(x: u128) -> (r: Amount)
        ensures
            r.wf(),
            r@ == x,
    {
        let low = (x % 0x1_0000_0000_0000_0000) as u64;
        let high = (x / 0x1_0000_0000_0000_0000) as u64;
        let mut limbs: Vec<u64> = Vec::new();
        if x != 0 {
            limbs.push(low);
            if high != 0 {
                limbs.push(high);
            }
        }
        proof {
            lemma_value_short(limbs@);
            assert(x == low + high * limb_base());
        }
        Amount { limbs }
    }

    /// The amount, where it fits in 128 bits.
    pub fn to_u128(&self) -> (r: Option<u128>)
        ensures
            match r {
                Some(v) => v == self@,
                None => self@ > u128::MAX,
            },
    {
        let c = self.duplicate();
        let n = c.limbs.len();
        if n <= 2 {
            proof {
                lemma_value_short(c.limbs@);
            }
        }
        if n == 0 {
            Some(0)
        } else if n == 1 {
            Some(c.limbs[0] as u128)
        } else if n == 2 {
            Some(c.limbs[0] as u128 + (c.limbs[1] as u128) * 0x1_0000_0000_0000_0000)
        } else {
            proof {
                lemma_value_top(c.limbs@);
                lemma_small_powers();
                lemma_pow_monotone(2, (n - 1) as nat);
            }
            None
        }
    }

    pub fn is_zero(&self) -> (r: bool)
        ensures
            r == (self@ == 0),
    {
        self.le(&Amount::zero())
    }

    /// Whether the amount is `x`.
    pub fn equals_u64(&self, x: u64) -> (r: bool)
        ensures
            r == (self@ == x),
    {
        let other = Amount::from_u64(x);
        self.le(&other) && other.le(self)
    }

    /// A copy of the amount.
    pub fn duplicate(&self) -> (r: Amount)
        ensures
            r.wf(),
            r@ == self@,
    {
        let mut limbs: Vec<u64> = Vec::new();
        let mut i: usize = 0;
        while i < self.limbs.len()
            invariant
                i <= self.limbs@.len(),
                limbs@ == self.limbs@.take(i as int),
            decreases self.limbs@.len() - i,
        {
            limbs.push(self.limbs[i]);
            i = i + 1;
            proof {
                assert(limbs@ =~= self.limbs@.take(i as int));
            }
        }
        proof {
            assert(limbs@ =~= self.limbs@);
        }
        Amount::normalized(limbs)
    }

    /// The amount with the zero limbs on top dropped.
    fn normalized(limbs: Vec<u64>) -> (r: Amount)
        ensures
            r.wf(),
            r@ == limbs_value(limbs@),
    {
        let mut limbs = limbs;
        let ghost value = limbs_value(limbs@);
        while limbs.len() > 0 && limbs[limbs.len() - 1] == 0
            invariant
                limbs_value(limbs@) == value,
            decreases limbs@.len(),
        {
            let ghost before = limbs@;
            limbs.pop();
            proof {
                assert(before.drop_last() =~= limbs@);
                assert(before.last() == 0);
                assert(limbs_value(before) == limbs_value(limbs@) + 0 * limb_pow((before.len() - 1) as nat));
            }
        }
        Amount { limbs }
    }

    /// The sum of the amounts.
    pub fn add(&self, other: &Amount) -> (r: Amount)
        ensures
            r.wf(),
            r@ == self@ + other@,
    {
        let a = &self.limbs;
        let b = &other.limbs;
        let n = if a.len() < b.len() { b.len() } else { a.len() };
        let mut res: Vec<u64> = Vec::new();
        let mut carry: u64 = 0;
        let mut i: usize = 0;
        while i < n
            invariant
                n >= a@.len(),
                n >= b@.len(),
                i <= n,
                res@.len() == i,
                carry <= 1,
                limbs_value(res@) + carry * limb_pow(i as nat) == limbs_value_upto(a@, i as nat)
                    + limbs_value_upto(b@, i as nat),
            decreases n - i,
        {
            let x: u64 = if i < a.len() { a[i] } else { 0 };
            let y: u64 = if i < b.len() { b[i] } else { 0 };
            let t: u128 = x as u128 + y as u128 + carry as u128;
            let d = (t % 0x1_0000_0000_0000_0000) as u64;
            let c = (t / 0x1_0000_0000_0000_0000) as u64;
            proof {
                let p = limb_pow(i as nat);
                lemma_value_push(res@, d);
                assert(t == d + c * limb_base());
                assert(x == limb_at(a@, i as int) && y == limb_at(b@, i as int));
                assert((x + y + carry) * p == d * p + c * (p * limb_base())) by (nonlinear_arith)
                    requires
                        x + y + carry == d + c * limb_base(),
                ;
                assert(limb_pow((i + 1) as nat) == p * limb_base());
                assert(carry * p + x * p + y * p == (x + y + carry) * p) by (nonlinear_arith);
            }
            res.push(d);
            carry = c;
            i = i + 1;
        }
        proof {
            lemma_upto_past_end(a@, n as nat);
            lemma_upto_past_end(b@, n as nat);
        }
        if carry != 0 {
            proof {
                lemma_value_push(res@, carry);
            }
            res.push(carry);
        }
        Amount::normalized(res)
    }

    /// The limbs of `a - b` with the borrow left at the top: the borrow is
    /// set exactly where `a < b`.
    fn sub_borrow(a: &Vec<u64>, b: &Vec<u64>) -> (r: (Vec<u64>, bool))
        ensures
            r.1 == (limbs_value(a@) < limbs_value(b@)),
            !r.1 ==> limbs_value(r.0@) == limbs_value(a@) - limbs_value(b@),
    {
        let n = if a.len() < b.len() { b.len() } else { a.len() };
        let mut res: Vec<u64> = Vec::new();
        let mut borrow: u64 = 0;
        let mut i: usize = 0;
        while i < n
            invariant
                n >= a@.len(),
                n >= b@.len(),
                i <= n,
                res@.len() == i,
                borrow <= 1,
                limbs_value(res@) - borrow * limb_pow(i as nat) == limbs_value_upto(a@, i as nat)
                    - limbs_value_upto(b@, i as nat),
            decreases n - i,
        {
            let x: u64 = if i < a.len() { a[i] } else { 0 };
            let y: u64 = if i < b.len() { b[i] } else { 0 };
            let (d, nb): (u64, u64) = if (x as u128) >= (y as u128) + (borrow as u128) {
                ((x as u128 - y as u128 - borrow as u128) as u64, 0)
            } else {
                ((x as u128 + 0x1_0000_0000_0000_0000 - y as u128 - borrow as u128) as u64, 1)
            };
            proof {
                let p = limb_pow(i as nat);
                lemma_value_push(res@, d);
                assert(x == limb_at(a@, i as int) && y == limb_at(b@, i as int));
                assert(x - y - borrow == d - nb * limb_base());
                assert((x - y - borrow) * p == d * p - nb * (p * limb_base())) by (nonlinear_arith)
                    requires
                        x - y - borrow == d - nb * limb_base(),
                ;
                assert(limb_pow((i + 1) as nat) == p * limb_base());
                assert(x * p - y * p - borrow * p == (x - y - borrow) * p) by (nonlinear_arith);
            }
            res.push(d);
            borrow = nb;
            i = i + 1;
        }
        proof {
            lemma_upto_past_end(a@, n as nat);
            lemma_upto_past_end(b@, n as nat);
            lemma_value_bound(res@);
            lemma_limb_pow_positive(n as nat);
        }
        (res, borrow == 1)
    }

    /// Whether the amount is at most `other`.
    pub fn le(&self, other: &Amount) -> (r: bool)
        ensures
            r == (self@ <= other@),
    {
        let (_, borrow) = Amount::sub_borrow(&other.limbs, &self.limbs);
        !borrow
    }

    /// The amount less `other`, which is at most the amount.
    pub fn sub(&self, other: &Amount) -> (r: Amount)
        requires
            other@ <= self@,
        ensures
            r.wf(),
            r@ == self@ - other@,
    {
        let (res, _) = Amount::sub_borrow(&self.limbs, &other.limbs);
        Amount::normalized(res)
    }

    /// The amount times `k`.
    fn mul_u64(&self, k: u64) -> (r: Vec<u64>)
        ensures
            limbs_value(r@) == self@ * k,
    {
        let a = &self.limbs;
        let n = a.len();
        let mut res: Vec<u64> = Vec::new();
        let mut carry: u64 = 0;
        let mut i: usize = 0;
        proof {
            assert(a@.take(0) =~= Seq::<u64>::empty());
            lemma_value_short(a@.take(0));
            lemma_value_short(res@);
        }
        while i < n
            invariant
                n == a@.len(),
                i <= n,
                res@.len() == i,
                limbs_value(res@) + carry * limb_pow(i as nat) == limbs_value(a@.take(i as int)) * k,
            decreases n - i,
        {
            let x = a[i];
            proof {
                assert(x * k <= 0xffff_ffff_ffff_fffe_0000_0000_0000_0001) by (nonlinear_arith)
                    requires
                        x <= 0xffff_ffff_ffff_ffffu64,
                        k <= 0xffff_ffff_ffff_ffffu64,
                ;
            }
            let t: u128 = (x as u128) * (k as u128) + carry as u128;
            let d = (t % 0x1_0000_0000_0000_0000) as u64;
            let c = (t / 0x1_0000_0000_0000_0000) as u64;
            proof {
                let p = limb_pow(i as nat);
                let v = limbs_value(a@.take(i as int));
                lemma_value_push(res@, d);
                assert(a@.take(i + 1).drop_last() =~= a@.take(i as int));
                assert(a@.take(i + 1).last() == x);
                assert(limbs_value(a@.take(i + 1)) == v + x * p);
                assert(t == d + c * limb_base());
                assert(limb_pow((i + 1) as nat) == p * limb_base());
                assert((v + x * p) * k == v * k + (x * k) * p) by (nonlinear_arith);
                assert((x * k + carry) * p == d * p + c * (p * limb_base())) by (nonlinear_arith)
                    requires
                        x * k + carry == d + c * limb_base(),
                ;
                assert(carry * p + (x * k) * p == (x * k + carry) * p) by (nonlinear_arith);
            }
            res.push(d);
            carry = c;
            i = i + 1;
        }
        proof {
            assert(a@.take(n as int) =~= a@);
        }
        if carry != 0 {
            proof {
                lemma_value_push(res@, carry);
            }
            res.push(carry);
        }
        res
    }

    /// `k` times the amount, divided by `c` and rounded down.
    pub fn mul_div(&self, k: u64, c: u64) -> (r: Amount)
        requires
            c > 0,
        ensures
            r.wf(),
            r@ == floor_mul_div(k as nat, self@, c as nat),
    {
        let a = self.mul_u64(k);
        let n = a.len();
        let mut q: Vec<u64> = Vec::new();
        let mut j: usize = 0;
        while j < n
            invariant
                j <= n,
                q@.len() == j,
                forall|t: int| 0 <= t < j ==> q@[t] == 0,
            decreases n - j,
        {
            q.push(0);
            j = j + 1;
        }
        let mut rem: u64 = 0;
        let mut i: usize = n;
        proof {
            lemma_value_short(a@.subrange(n as int, n as int));
            lemma_value_short(q@.subrange(n as int, n as int));
        }
        while i > 0
            invariant
                n == a@.len(),
                q@.len() == n,
                i <= n,
                rem < c,
                c > 0,
                limbs_value(a@.subrange(i as int, n as int)) == limbs_value(q@.subrange(i as int, n as int)) * c
                    + rem,
            decreases i,
        {
            let cur: u128 = (rem as u128) * 0x1_0000_0000_0000_0000 + a[i - 1] as u128;
            proof {
                assert(rem * limb_base() + a@[i - 1] < c * limb_base()) by (nonlinear_arith)
                    requires
                        rem < c,
                        a@[i - 1] < limb_base(),
                ;
            }
            proof {
                assert(cur / (c as u128) < limb_base()) by (nonlinear_arith)
                    requires
                        cur < c * limb_base(),
                        c > 0,
                ;
            }
            let digit = (cur / (c as u128)) as u64;
            let new_rem = (cur % (c as u128)) as u64;
            proof {
                assert(cur == digit * c + new_rem) by (nonlinear_arith)
                    requires
                        digit == cur / (c as u128),
                        new_rem == cur % (c as u128),
                        c > 0,
                ;
            }
            let ghost old_q = q@;
            q.set(i - 1, digit);
            proof {
                let hi = a@.subrange(i as int, n as int);
                let hq = old_q.subrange(i as int, n as int);
                assert(q@.subrange(i as int, n as int) =~= hq);
                lemma_value_front(a@.subrange(i - 1, n as int));
                lemma_value_front(q@.subrange(i - 1, n as int));
                assert(a@.subrange(i - 1, n as int).drop_first() =~= hi);
                assert(q@.subrange(i - 1, n as int).drop_first() =~= hq);
                let vh = limbs_value(hi);
                let vq = limbs_value(hq);
                let x = a@[i - 1] as int;
                assert(x + limb_base() * vh == (digit + limb_base() * vq) * c + new_rem) by (nonlinear_arith)
                    requires
                        vh == vq * c + rem,
                        rem * limb_base() + x == digit * c + new_rem,
                ;
            }
            rem = new_rem;
            i = i - 1;
        }
        proof {
            assert(a@.subrange(0, n as int) =~= a@);
            assert(q@.subrange(0, n as int) =~= q@);
            let v = limbs_value(q@);
            let total = limbs_value(a@);
            let sv = self@;
            assert(sv * k == k * sv) by (nonlinear_arith);
            assert(total / (c as nat) == v) by (nonlinear_arith)
                requires
                    total == v * c + rem,
                    rem < c,
                    c > 0,
                    v >= 0,
            ;
        }
        Amount::normalized(q)
    }
}

proof fn lemma_pow_monotone(m: nat, n: nat)
    requires
        m <= n,
    ensures
        limb_pow(m) <= limb_pow(n),
    decreases n,
{
    if n > m {
        lemma_pow_monotone(m, (n - 1) as nat);
        lemma_limb_pow_positive((n - 1) as nat);
        let p = limb_pow((n - 1) as nat);
        assert(p <= p * limb_base()) by (nonlinear_arith)
            requires
                p >= 1,
        ;
    }
}

/// Limbs are their lowest limb and the base times the rest.
proof fn lemma_value_front(s: Seq<u64>)
    requires
        s.len() > 0,
    ensures
        limbs_value(s) == s[0] + limb_base() * limbs_value(s.drop_first()),
    decreases s.len(),
{
    if s.len() == 1 {
        lemma_value_short(s);
        lemma_value_short(s.drop_first());
    } else {
        let t = s.drop_last();
        lemma_value_front(t);
        assert(t.drop_first() =~= s.drop_first().drop_last());
        assert(s.drop_first().last() == s.last());
        let n = (s.len() - 1) as nat;
        assert(limb_pow(n) == limb_pow((n - 1) as nat) * limb_base());
        assert(limbs_value(s) == limbs_value(t) + (s.last() as nat) * limb_pow(n));
        assert(limbs_value(s.drop_first()) == limbs_value(t.drop_first()) + (s.last() as nat) * limb_pow((n - 1) as nat));
        assert(t[0] == s[0]);
        let vr = limbs_value(t.drop_first());
        let d = s.last() as int;
        let p = limb_pow((n - 1) as nat) as int;
        assert(limb_base() * (vr + d * p) == limb_base() * vr + d * (p * limb_base())) by (nonlinear_arith);
    }
}

} // verus!
