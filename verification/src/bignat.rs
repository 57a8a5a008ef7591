//! Natural numbers of any size, as little-endian base-2^32 limbs. Route
//! weights are products of ratios of counters; comparing two of them exactly
//! means comparing products of many 32-bit factors.
use vstd::prelude::*;

verus! {

pub open spec fn limb_base() -> nat {
    0x1_0000_0000nat
}

/// `limb_base()` to the power `n`.
pub open spec fn limb_power(n: nat) -> nat
    decreases n,
{
    if n == 0 {
        1
    } else {
        limb_base() * limb_power((n - 1) as nat)
    }
}

/// The number the limbs `s` stand for, lowest limb first.
pub open spec fn limbs_value(s: Seq<u32>) -> nat
    decreases s.len(),
{
    if s.len() == 0 {
        0
    } else {
        (s[0] + limb_base() * limbs_value(s.drop_first())) as nat
    }
}

/// `s` read with as many zero limbs above it as it takes to reach length `n`.
pub open spec fn padded(s: Seq<u32>, n: nat) -> Seq<u32> {
    Seq::new(n, |i: int| if i < s.len() { s[i] } else { 0u32 })
}

/// Appending a limb adds it at the next power.
pub proof fn lemma_push_value(s: Seq<u32>, x: u32)
    ensures
        limbs_value(s.push(x)) == limbs_value(s) + x * limb_power(s.len()),
    decreases s.len(),
{
    if s.len() == 0 {
        assert(s.push(x).drop_first() =~= Seq::<u32>::empty());
        assert(limbs_value(Seq::<u32>::empty()) == 0);
        assert(s.push(x)[0] == x);
        assert(limbs_value(s.push(x)) == x);
        assert(limb_power(0) == 1);
        assert(limbs_value(s) == 0);
    } else {
        assert(s.push(x).drop_first() =~= s.drop_first().push(x));
        lemma_push_value(s.drop_first(), x);
        let a = limbs_value(s.drop_first());
        let p = limb_power((s.len() - 1) as nat);
        assert(s.push(x)[0] == s[0]);
        assert(limbs_value(s.push(x)) == s[0] + limb_base() * limbs_value(s.drop_first().push(x)));
        assert(limbs_value(s.drop_first().push(x)) == a + x * p);
        assert(limb_power(s.len()) == limb_base() * p);
        assert(limbs_value(s) == s[0] + limb_base() * a);
        assert(limb_base() * (a + x * p) == limb_base() * a + x * (limb_base() * p)) by (nonlinear_arith);
    }
}

/// Zero limbs on top change nothing.
pub proof fn lemma_padded_value(s: Seq<u32>, n: nat)
    requires
        s.len() <= n,
    ensures
        limbs_value(padded(s, n)) == limbs_value(s),
    decreases n - s.len(),
{
    if n == s.len() {
        assert(padded(s, n) =~= s);
    } else {
        lemma_padded_value(s, (n - 1) as nat);
        assert(padded(s, n) =~= padded(s, (n - 1) as nat).push(0u32));
        lemma_push_value(padded(s, (n - 1) as nat), 0u32);
    }
}

/// When the limbs from `k` up compare strictly, so do the whole numbers.
pub proof fn lemma_less_from(a: Seq<u32>, b: Seq<u32>, k: int)
    requires
        a.len() == b.len(),
        0 <= k <= a.len(),
        limbs_value(a.skip(k)) < limbs_value(b.skip(k)),
    ensures
        limbs_value(a) < limbs_value(b),
    decreases k,
{
    if k > 0 {
        assert(a.skip(k - 1).drop_first() =~= a.skip(k));
        assert(b.skip(k - 1).drop_first() =~= b.skip(k));
        let va = limbs_value(a.skip(k));
        let vb = limbs_value(b.skip(k));
        let x = a[k - 1];
        let y = b[k - 1];
        assert(x + limb_base() * va < y + limb_base() * vb) by (nonlinear_arith)
            requires
                va < vb,
                x < limb_base(),
                y >= 0,
        ;
        lemma_less_from(a, b, k - 1);
    } else {
        assert(a.skip(0) =~= a);
        assert(b.skip(0) =~= b);
    }
}

pub struct BigNat {
    limbs: Vec<u32>,
}

impl BigNat {
    pub closed spec fn value(&self) -> nat {
        limbs_value(self.limbs@)
    }

    pub fn one() -> (r: BigNat)
        ensures
            r.value() == 1,
    {
        let mut limbs = Vec::new();
        limbs.push(1u32);
        assert(limbs@.drop_first() =~= Seq::<u32>::empty());
        assert(limbs_value(Seq::<u32>::empty()) == 0);
        BigNat { limbs }
    }

    /// The product with a factor below 2^64.
    pub fn mul_small(&self, m: u64) -> (r: BigNat)
        ensures
            r.value() == self.value() * m,
    {
        let mut out: Vec<u32> = Vec::new();
        let mut carry: u64 = 0;
        let mut i: usize = 0;
        let ghost s = self.limbs@;
        assert(s.take(0) =~= Seq::<u32>::empty());
        assert(limbs_value(Seq::<u32>::empty()) == 0);
        assert(out@ =~= Seq::<u32>::empty());
        while i < self.limbs.len()
            invariant
                s == self.limbs@,
                0 <= i <= s.len(),
                out@.len() == i,
                limbs_value(out@) + carry * limb_power(i as nat) == limbs_value(s.take(i as int)) * m,
            decreases s.len() - i,
        {
            let x = self.limbs[i];
            assert((x as u128) * (m as u128) <= 0xffff_ffffu128 * 0xffff_ffff_ffff_ffffu128) by (nonlinear_arith)
                requires
                    x <= 0xffff_ffffu32,
                    m <= 0xffff_ffff_ffff_ffffu64,
            ;
            let t: u128 = (x as u128) * (m as u128) + (carry as u128);
            let lo: u32 = (t % 0x1_0000_0000u128) as u32;
            assert(t / 0x1_0000_0000u128 <= 0xffff_ffff_ffff_ffffu128);
            let hi: u64 = (t / 0x1_0000_0000u128) as u64;
            proof {
                lemma_push_value(out@, lo);
                lemma_push_value(s.take(i as int), x);
                assert(s.take(i + 1) =~= s.take(i as int).push(x));
                let p = limb_power(i as nat);
                assert(limb_power((i + 1) as nat) == limb_base() * p);
                let vo = limbs_value(out@);
                let vs = limbs_value(s.take(i as int));
                assert(t == lo + limb_base() * hi);
                assert(vo + lo * p + hi * (limb_base() * p) == (vs + x * p) * m) by (nonlinear_arith)
                    requires
                        vo + carry * p == vs * m,
                        t == lo + limb_base() * hi,
                        t == x * m + carry,
                ;
            }
            out.push(lo);
            carry = hi;
            i = i + 1;
        }
        assert(s.take(i as int) =~= s);
        let c0: u32 = (carry % 0x1_0000_0000u64) as u32;
        let c1: u32 = (carry / 0x1_0000_0000u64) as u32;
        proof {
            let n = out@.len();
            lemma_push_value(out@, c0);
            lemma_push_value(out@.push(c0), c1);
            assert(limb_power(n + 1) == limb_base() * limb_power(n));
            let p = limb_power(n);
            assert(carry == c0 + limb_base() * c1);
            assert(c0 * p + c1 * (limb_base() * p) == carry * p) by (nonlinear_arith)
                requires
                    carry == c0 + limb_base() * c1,
            ;
        }
        out.push(c0);
        out.push(c1);
        BigNat { limbs: out }
    }

    /// Whether this number is below `other`; `equal` says whether they are equal.
    pub fn compare_with(&self, other: &BigNat) -> (r: (bool, bool))
        ensures
            r.0 == (self.value() < other.value()),
            r.1 == (self.value() == other.value()),
    {
        let la = self.limbs.len();
        let lb = other.limbs.len();
        let n = if la < lb {
            lb
        } else {
            la
        };
        let ghost pa = padded(self.limbs@, n as nat);
        let ghost pb = padded(other.limbs@, n as nat);
        proof {
            lemma_padded_value(self.limbs@, n as nat);
            lemma_padded_value(other.limbs@, n as nat);
        }
        let mut k = n;
        while k > 0
            invariant
                k <= n,
                pa == padded(self.limbs@, n as nat),
                pb == padded(other.limbs@, n as nat),
                la == self.limbs@.len(),
                lb == other.limbs@.len(),
                pa.skip(k as int) == pb.skip(k as int),
                limbs_value(pa) == self.value(),
                limbs_value(pb) == other.value(),
                pa.len() == n && pb.len() == n,
            decreases k,
        {
            let x: u32 = if k - 1 < la {
                self.limbs[k - 1]
            } else {
                0
            };
            let y: u32 = if k - 1 < lb {
                other.limbs[k - 1]
            } else {
                0
            };
            assert(pa[k - 1] == x && pb[k - 1] == y);
            assert(pa.skip(k - 1).drop_first() =~= pa.skip(k as int));
            assert(pb.skip(k - 1).drop_first() =~= pb.skip(k as int));
            if x < y {
                proof {
                    assert(limbs_value(pa.skip(k - 1)) < limbs_value(pb.skip(k - 1)));
                    lemma_less_from(pa, pb, k - 1);
                }
                return (true, false);
            }
            if y < x {
                proof {
                    assert(limbs_value(pb.skip(k - 1)) < limbs_value(pa.skip(k - 1)));
                    lemma_less_from(pb, pa, k - 1);
                }
                return (false, false);
            }
            assert forall|j: int| 0 <= j < pa.skip(k - 1).len() implies #[trigger] pa.skip(k - 1)[j] == pb.skip(k - 1)[j] by {
                if j > 0 {
                    assert(pa.skip(k - 1)[j] == pa.skip(k as int)[j - 1]);
                    assert(pb.skip(k - 1)[j] == pb.skip(k as int)[j - 1]);
                }
            }
            assert(pa.skip(k - 1) =~= pb.skip(k - 1));
            k = k - 1;
        }
        assert(pa =~= pa.skip(0));
        assert(pb =~= pb.skip(0));
        (false, true)
    }
}

} // verus!
