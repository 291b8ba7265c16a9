//! Whole numbers of any size, as far as reading a decimal numeral needs them.
use vstd::arithmetic::power2::*;
use vstd::prelude::*;

verus! {

/// A whole number, its lowest 32 bits first.
pub struct Big {
    limbs: Vec<u32>,
}

/// The number that the limbs `s` make up.
spec fn value(s: Seq<u32>) -> nat
    decreases s.len(),
{
    if s.len() == 0 {
        0
    } else {
        value(s.drop_last()) + s.last() as nat * pow2((32 * (s.len() - 1)) as nat)
    }
}

impl View for Big {
    type V = nat;

    closed spec fn view(&self) -> nat {
        value(self.limbs@)
    }
}

/// The limb of `s` at `i`, zero above the last one.
spec fn limb(s: Seq<u32>, i: int) -> nat {
    if 0 <= i < s.len() {
        s[i] as nat
    } else {
        0
    }
}

/// The number that the lowest `k` limbs of `s` make up.
spec fn low(s: Seq<u32>, k: nat) -> nat
    decreases k,
{
    if k == 0 {
        0
    } else {
        low(s, (k - 1) as nat) + limb(s, k - 1) * pow2((32 * (k - 1)) as nat)
    }
}

/// The lowest limbs alone decide.
proof fn lemma_low_prefix(s: Seq<u32>, t: Seq<u32>, k: nat)
    requires
        forall|i: int| 0 <= i < k ==> limb(s, i) == limb(t, i),
    ensures
        low(s, k) == low(t, k),
    decreases k,
{
    if k > 0 {
        lemma_low_prefix(s, t, (k - 1) as nat);
    }
}

/// Limbs above the last one add nothing.
proof fn lemma_low_value(s: Seq<u32>, k: nat)
    requires
        k >= s.len(),
    ensures
        low(s, k) == value(s),
    decreases k,
{
    if k > s.len() {
        lemma_low_value(s, (k - 1) as nat);
        assert(0nat * pow2((32 * (k - 1)) as nat) == 0);
    } else if k > 0 {
        lemma_low_prefix(s, s.drop_last(), (k - 1) as nat);
        lemma_low_value(s.drop_last(), (k - 1) as nat);
    }
}

/// `k` limbs stay below the next power.
proof fn lemma_low_bound(s: Seq<u32>, k: nat)
    ensures
        low(s, k) < pow2(32 * k),
    decreases k,
{
    lemma2_to64();
    if k > 0 {
        lemma_low_bound(s, (k - 1) as nat);
        lemma_pow2_adds((32 * (k - 1)) as nat, 32);
        let p = pow2((32 * (k - 1)) as nat);
        let x = limb(s, k - 1);
        assert(x * p + p <= p * 0x1_0000_0000) by (nonlinear_arith)
            requires
                x < 0x1_0000_0000,
        ;
    }
}

impl Big {
    /// The number `n`.
    pub fn from_u32(n: u32) -> (r: Big)
        ensures
            r@ == n,
    {
        let mut limbs: Vec<u32> = Vec::new();
        limbs.push(n);
        proof {
            lemma2_to64();
            assert(limbs@.drop_last() =~= Seq::<u32>::empty());
            assert(value(limbs@.drop_last()) == 0);
            assert(n * 1 == n);
        }
        Big { limbs }
    }

    /// The number times `m`, plus `a`.
    pub fn mul_add(&self, m: u32, a: u32) -> (r: Big)
        ensures
            r@ == self@ * m + a,
    {
        let mut limbs: Vec<u32> = Vec::new();
        let mut carry: u64 = a as u64;
        let mut i: usize = 0;
        proof {
            lemma2_to64();
        }
        assert(low(self.limbs@, 0) * m == 0 && carry * pow2(0) == a) by (nonlinear_arith)
            requires
                low(self.limbs@, 0) == 0,
                pow2(0) == 1,
                carry == a,
        ;
        while i < self.limbs.len()
            invariant
                i <= self.limbs.len(),
                limbs.len() == i,
                carry <= 0xffff_ffff,
                value(limbs@) + carry * pow2((32 * i) as nat) == low(self.limbs@, i as nat) * m + a,
            decreases self.limbs.len() - i,
        {
            let x: u32 = self.limbs[i];
            assert(x * m + carry <= 0xffff_ffff * 0xffff_ffff + 0xffff_ffff) by (nonlinear_arith)
                requires
                    0 <= x <= 0xffff_ffff,
                    0 <= m <= 0xffff_ffff,
                    carry <= 0xffff_ffff,
            ;
            let t: u64 = x as u64 * m as u64 + carry;
            let ghost done = limbs@;
            let ghost old_carry = carry;
            let lowest: u32 = (t % 0x1_0000_0000) as u32;
            limbs.push(lowest);
            carry = t / 0x1_0000_0000;
            proof {
                let p = pow2((32 * i) as nat);
                let q = pow2((32 * (i + 1)) as nat);
                lemma2_to64();
                lemma_pow2_adds((32 * i) as nat, 32);
                assert(limbs@.drop_last() =~= done);
                let c = carry as nat;
                let l = lowest as nat;
                assert(t == l + 0x1_0000_0000 * c);
                let lo = low(self.limbs@, i as nat);
                assert(low(self.limbs@, (i + 1) as nat) == lo + x * p);
                assert(value(limbs@) == value(done) + l * p);
                assert(q == p * 0x1_0000_0000);
                assert((value(done) + l * p) + c * q == (lo + x * p) * m + a) by (nonlinear_arith)
                    requires
                        q == p * 0x1_0000_0000,
                        x * m + old_carry == l + 0x1_0000_0000 * c,
                        value(done) + old_carry * p == lo * m + a,
                ;
            }
            i = i + 1;
        }
        let ghost done = limbs@;
        limbs.push(carry as u32);
        proof {
            assert(limbs@.drop_last() =~= done);
            lemma_low_value(self.limbs@, i as nat);
        }
        Big { limbs }
    }

    /// The number times two to the power `shift`.
    pub fn shifted(&self, shift: u32) -> (r: Big)
        ensures
            r@ == self@ * pow2(shift as nat),
    {
        let mut r = self.mul_add(1, 0);
        let mut left: u32 = shift;
        proof {
            lemma2_to64();
            assert(r@ * pow2(shift as nat) == self@ * pow2(shift as nat)) by (nonlinear_arith)
                requires
                    r@ == self@ * 1 + 0,
            ;
        }
        while left >= 16
            invariant
                r@ * pow2(left as nat) == self@ * pow2(shift as nat),
            decreases left,
        {
            let ghost before = r@;
            r = r.mul_add(0x1_0000, 0);
            proof {
                lemma2_to64();
                lemma_pow2_adds(16, (left - 16) as nat);
                let q = pow2((left - 16) as nat);
                assert((before * 0x1_0000) * q == before * (0x1_0000 * q)) by (nonlinear_arith);
            }
            left = left - 16;
        }
        while left > 0
            invariant
                r@ * pow2(left as nat) == self@ * pow2(shift as nat),
            decreases left,
        {
            let ghost before = r@;
            r = r.mul_add(2, 0);
            proof {
                lemma_pow2_unfold(left as nat);
                let q = pow2((left - 1) as nat);
                assert((before * 2) * q == before * (2 * q)) by (nonlinear_arith);
            }
            left = left - 1;
        }
        assert(r@ * 1 == r@);
        proof {
            lemma2_to64();
        }
        r
    }

    /// Whether the number is at most `other`.
    pub fn le(&self, other: &Big) -> (r: bool)
        ensures
            r == (self@ <= other@),
    {
        let a = self.limbs.len();
        let b = other.limbs.len();
        let k = if a > b {
            a
        } else {
            b
        };
        let mut r = true;
        let mut i: usize = 0;
        while i < k
            invariant
                i <= k,
                a == self.limbs.len(),
                b == other.limbs.len(),
                r == (low(self.limbs@, i as nat) <= low(other.limbs@, i as nat)),
            decreases k - i,
        {
            let x: u32 = if i < a {
                self.limbs[i]
            } else {
                0
            };
            let y: u32 = if i < b {
                other.limbs[i]
            } else {
                0
            };
            proof {
                let p = pow2((32 * i) as nat);
                lemma_low_bound(self.limbs@, i as nat);
                lemma_low_bound(other.limbs@, i as nat);
                let u = low(self.limbs@, i as nat);
                let v = low(other.limbs@, i as nat);
                assert(low(self.limbs@, (i + 1) as nat) == u + x * p);
                assert(low(other.limbs@, (i + 1) as nat) == v + y * p);
                if x < y {
                    assert(x * p + p <= y * p) by (nonlinear_arith)
                        requires
                            x + 1 <= y,
                    ;
                } else if x > y {
                    assert(y * p + p <= x * p) by (nonlinear_arith)
                        requires
                            y + 1 <= x,
                    ;
                }
            }
            if x != y {
                r = x < y;
            }
            i = i + 1;
        }
        proof {
            lemma_low_value(self.limbs@, k as nat);
            lemma_low_value(other.limbs@, k as nat);
        }
        r
    }
}

} // verus!
