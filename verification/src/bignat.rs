//! Arbitrary-precision natural numbers, just large enough for the Viterbi
//! scoring in [`crate::chain`].
//!
//! Every probability handled by the row-regularity chain is a rational whose
//! denominator is determined by the position in the computation alone, so
//! ranking probabilities only ever compares products of bounded integers.
//! This module provides those products exactly: a value is a little-endian
//! sequence of base-2^32 limbs with no trailing zero limb, and the operations
//! needed by the chain (multiply by a machine word, add, strict comparison)
//! are verified against the mathematical value of the limb sequence.

use vstd::prelude::*;
use vstd::arithmetic::power::pow;
use vstd::arithmetic::mul::lemma_mul_inequality;

verus! {

/// The limb radix, 2^32.
pub const LIMB_BASE: u64 = 0x1_0000_0000;

/// Mathematical value of a little-endian limb sequence.
pub open spec fn val_of(s: Seq<u32>) -> int
    decreases s.len(),
{
    if s.len() == 0 {
        0
    } else {
        val_of(s.drop_last()) + s.last() * pow(LIMB_BASE as int, (s.len() - 1) as nat)
    }
}

/// One power step of the limb radix.
pub proof fn lemma_pow_step(n: nat)
    ensures
        pow(LIMB_BASE as int, n + 1) == LIMB_BASE * pow(LIMB_BASE as int, n),
{
    vstd::arithmetic::power::lemma_pow1(LIMB_BASE as int);
    vstd::arithmetic::power::lemma_pow_adds(LIMB_BASE as int, 1, n);
}

/// An exact non-negative integer of unbounded size.
pub struct BigNat {
    pub limbs: Vec<u32>,
}

pub proof fn lemma_val_nonneg(s: Seq<u32>)
    ensures
        0 <= val_of(s),
    decreases s.len(),
{
    if s.len() > 0 {
        lemma_val_nonneg(s.drop_last());
        vstd::arithmetic::power::lemma_pow_positive(LIMB_BASE as int, (s.len() - 1) as nat);
        lemma_mul_inequality(0, s.last() as int, pow(LIMB_BASE as int, (s.len() - 1) as nat));
    }
}

pub proof fn lemma_val_upper(s: Seq<u32>)
    ensures
        val_of(s) < pow(LIMB_BASE as int, s.len()),
    decreases s.len(),
{
    if s.len() == 0 {
        vstd::arithmetic::power::lemma_pow0(LIMB_BASE as int);
    } else {
        let p = pow(LIMB_BASE as int, (s.len() - 1) as nat);
        lemma_val_upper(s.drop_last());
        vstd::arithmetic::power::lemma_pow_positive(LIMB_BASE as int, (s.len() - 1) as nat);
        lemma_mul_inequality(s.last() as int, LIMB_BASE - 1, p);
        lemma_pow_step((s.len() - 1) as nat);
        assert(pow(LIMB_BASE as int, s.len()) == LIMB_BASE * p);
        assert(val_of(s) <= val_of(s.drop_last()) + (LIMB_BASE - 1) * p);
        assert((LIMB_BASE - 1) * p == LIMB_BASE * p - p) by (nonlinear_arith);
    }
}

pub proof fn lemma_val_lower(s: Seq<u32>)
    requires
        s.len() > 0,
        s.last() != 0,
    ensures
        val_of(s) >= pow(LIMB_BASE as int, (s.len() - 1) as nat),
{
    let p = pow(LIMB_BASE as int, (s.len() - 1) as nat);
    lemma_val_nonneg(s.drop_last());
    vstd::arithmetic::power::lemma_pow_positive(LIMB_BASE as int, (s.len() - 1) as nat);
    lemma_mul_inequality(1, s.last() as int, p);
}

/// Dropping a trailing zero limb keeps the value.
pub proof fn lemma_val_drop_zero(s: Seq<u32>)
    requires
        s.len() > 0,
        s.last() == 0,
    ensures
        val_of(s) == val_of(s.drop_last()),
{
}

/// Appending a limb adds its weighted value.
pub proof fn lemma_val_push(s: Seq<u32>, x: u32)
    ensures
        val_of(s.push(x)) == val_of(s) + x * pow(LIMB_BASE as int, s.len()),
{
    assert(s.push(x).drop_last() =~= s);
    assert(s.push(x).last() == x);
}

/// Two sequences of one length that agree at every index from `j` up have
/// values that differ only in their first `j` limbs.
pub proof fn lemma_val_eq_suffix(a: Seq<u32>, b: Seq<u32>, j: int)
    requires
        a.len() == b.len(),
        0 <= j <= a.len(),
        forall|k: int| j <= k < a.len() ==> a[k] == b[k],
    ensures
        val_of(a) - val_of(a.take(j)) == val_of(b) - val_of(b.take(j)),
    decreases a.len() - j,
{
    if j == a.len() {
        assert(a.take(j) =~= a);
        assert(b.take(j) =~= b);
    } else {
        lemma_val_eq_suffix(a, b, j + 1);
        assert(a.take(j + 1).drop_last() =~= a.take(j));
        assert(b.take(j + 1).drop_last() =~= b.take(j));
        assert(a.take(j + 1).last() == a[j]);
        assert(b.take(j + 1).last() == b[j]);
    }
}

impl BigNat {
    /// No trailing zero limb: the representation of each value is unique.
    pub open spec fn wf(&self) -> bool {
        self.limbs@.len() == 0 || self.limbs@.last() != 0
    }

    /// The integer this value stands for.
    pub open spec fn val(&self) -> int {
        val_of(self.limbs@)
    }

    pub fn zero() -> (r: BigNat)
        ensures
            r.wf(),
            r.val() == 0,
    {
        BigNat { limbs: Vec::new() }
    }

    pub fn from_u64(x: u64) -> (r: BigNat)
        ensures
            r.wf(),
            r.val() == x,
    {
        let mut limbs: Vec<u32> = Vec::new();
        limbs.push(1u32);
        proof {
            vstd::arithmetic::power::lemma_pow0(LIMB_BASE as int);
            assert(limbs@.drop_last() =~= Seq::<u32>::empty());
            assert(val_of(Seq::<u32>::empty()) == 0);
            assert(limbs@.last() == 1u32);
            assert(val_of(limbs@) == val_of(limbs@.drop_last()) + 1u32 * pow(LIMB_BASE as int, 0));
            assert(val_of(limbs@) == 1);
        }
        let one = BigNat { limbs };
        let r = one.times(x);
        proof {
            assert(1 * (x as int) == x as int);
        }
        r
    }

    /// An identical copy.
    pub fn duplicate(&self) -> (r: BigNat)
        ensures
            r.limbs@ == self.limbs@,
            r.val() == self.val(),
            r.wf() == self.wf(),
    {
        let mut limbs: Vec<u32> = Vec::new();
        let n = self.limbs.len();
        let mut i: usize = 0;
        while i < n
            invariant
                i <= n,
                n == self.limbs@.len(),
                limbs@ =~= self.limbs@.take(i as int),
            decreases n - i,
        {
            limbs.push(self.limbs[i]);
            i += 1;
        }
        proof {
            assert(limbs@ =~= self.limbs@);
        }
        BigNat { limbs }
    }

    /// Remove trailing zero limbs, restoring the unique representation.
    fn strip(limbs: &mut Vec<u32>)
        ensures
            val_of(final(limbs)@) == val_of(old(limbs)@),
            final(limbs)@.len() == 0 || final(limbs)@.last() != 0,
    {
        while limbs.len() > 0 && limbs[limbs.len() - 1] == 0
            invariant
                val_of(limbs@) == val_of(old(limbs)@),
            decreases limbs.len(),
        {
            proof {
                lemma_val_drop_zero(limbs@);
                assert(limbs@.drop_last() =~= limbs@.take(limbs@.len() - 1));
            }
            limbs.pop();
        }
    }

    /// Product with a machine word.
    pub fn times(&self, m: u64) -> (r: BigNat)
        ensures
            r.wf(),
            r.val() == self.val() * m,
    {
        let mut out: Vec<u32> = Vec::new();
        let mut carry: u64 = 0;
        let n = self.limbs.len();
        let mut i: usize = 0;
        while i < n
            invariant
                i <= n,
                n == self.limbs@.len(),
                out@.len() == i,
                val_of(out@) + carry * pow(LIMB_BASE as int, i as nat) == val_of(
                    self.limbs@.take(i as int),
                ) * m,
            decreases n - i,
        {
            let limb: u32 = self.limbs[i];
            proof {
                assert(limb as int * m as int <= (LIMB_BASE - 1) * (u64::MAX as int))
                    by (nonlinear_arith)
                    requires
                        0 <= limb as int <= LIMB_BASE - 1,
                        0 <= m as int <= u64::MAX as int,
                ;
            }
            let acc: u128 = (limb as u128) * (m as u128) + (carry as u128);
            let lo: u32 = (acc % (LIMB_BASE as u128)) as u32;
            let next_carry: u64 = (acc / (LIMB_BASE as u128)) as u64;
            proof {
                let p = pow(LIMB_BASE as int, i as nat);
                let vo = val_of(out@);
                let vt = val_of(self.limbs@.take(i as int));
                vstd::arithmetic::power::lemma_pow_positive(LIMB_BASE as int, i as nat);
                lemma_val_push(out@, lo);
                assert(self.limbs@.take(i + 1).drop_last() =~= self.limbs@.take(i as int));
                assert(self.limbs@.take(i + 1).last() == self.limbs@[i as int]);
                lemma_pow_step(i as nat);
                assert(acc as int == lo + next_carry * (LIMB_BASE as int)) by {
                    vstd::arithmetic::div_mod::lemma_fundamental_div_mod(
                        acc as int,
                        LIMB_BASE as int,
                    );
                }
                assert(lo * p + next_carry * (LIMB_BASE * p) == ((limb as int) * (m as int)
                    + carry) * p) by (nonlinear_arith)
                    requires
                        lo + next_carry * (LIMB_BASE as int) == (limb as int) * (m as int) + carry,
                ;
                assert(((limb as int) * (m as int) + carry) * p == (limb as int) * (m as int) * p
                    + carry * p) by (nonlinear_arith);
                assert((vt + limb * p) * m == vt * m + (limb as int) * (m as int) * p)
                    by (nonlinear_arith);
            }
            out.push(lo);
            carry = next_carry;
            i += 1;
        }
        proof {
            assert(self.limbs@.take(n as int) =~= self.limbs@);
        }
        while carry > 0
            invariant
                val_of(out@) + carry * pow(LIMB_BASE as int, out@.len() as nat) == val_of(
                    self.limbs@,
                ) * m,
            decreases carry,
        {
            let lo: u32 = (carry % LIMB_BASE) as u32;
            let next_carry: u64 = carry / LIMB_BASE;
            proof {
                let p = pow(LIMB_BASE as int, out@.len() as nat);
                lemma_val_push(out@, lo);
                lemma_pow_step(out@.len() as nat);
                assert(carry as int == lo + next_carry * (LIMB_BASE as int)) by {
                    vstd::arithmetic::div_mod::lemma_fundamental_div_mod(
                        carry as int,
                        LIMB_BASE as int,
                    );
                }
                assert(lo * p + next_carry * (LIMB_BASE * p) == (carry as int) * p)
                    by (nonlinear_arith)
                    requires
                        lo + next_carry * (LIMB_BASE as int) == carry as int,
                ;
            }
            out.push(lo);
            carry = next_carry;
        }
        Self::strip(&mut out);
        BigNat { limbs: out }
    }

    /// Value of the first `i` limbs, the whole value once `i` passes the end.
    pub open spec fn pref(s: Seq<u32>, i: int) -> int {
        if i <= s.len() {
            val_of(s.take(i))
        } else {
            val_of(s)
        }
    }

    proof fn lemma_pref_step(s: Seq<u32>, i: int)
        requires
            0 <= i,
        ensures
            Self::pref(s, i + 1) == Self::pref(s, i) + if i < s.len() {
                s[i] * pow(LIMB_BASE as int, i as nat)
            } else {
                0
            },
    {
        if i < s.len() {
            assert(s.take(i + 1).drop_last() =~= s.take(i));
            assert(s.take(i + 1).last() == s[i]);
        } else if i == s.len() {
            assert(s.take(i) =~= s);
        }
    }

    /// Sum of two values.
    pub fn plus(&self, other: &BigNat) -> (r: BigNat)
        ensures
            r.wf(),
            r.val() == self.val() + other.val(),
    {
        let mut out: Vec<u32> = Vec::new();
        let mut carry: u64 = 0;
        let an = self.limbs.len();
        let bn = other.limbs.len();
        let n = if an > bn {
            an
        } else {
            bn
        };
        let mut i: usize = 0;
        while i < n
            invariant
                i <= n,
                an == self.limbs@.len(),
                bn == other.limbs@.len(),
                n == if an > bn {
                    an as int
                } else {
                    bn as int
                },
                out@.len() == i,
                carry <= 1,
                val_of(out@) + carry * pow(LIMB_BASE as int, i as nat) == Self::pref(
                    self.limbs@,
                    i as int,
                ) + Self::pref(other.limbs@, i as int),
            decreases n - i,
        {
            let av: u32 = if i < an {
                self.limbs[i]
            } else {
                0
            };
            let bv: u32 = if i < bn {
                other.limbs[i]
            } else {
                0
            };
            let acc: u64 = (av as u64) + (bv as u64) + carry;
            let lo: u32 = (acc % LIMB_BASE) as u32;
            let next_carry: u64 = acc / LIMB_BASE;
            proof {
                let p = pow(LIMB_BASE as int, i as nat);
                lemma_val_push(out@, lo);
                lemma_pow_step(i as nat);
                Self::lemma_pref_step(self.limbs@, i as int);
                Self::lemma_pref_step(other.limbs@, i as int);
                assert(acc as int == lo + next_carry * (LIMB_BASE as int)) by {
                    vstd::arithmetic::div_mod::lemma_fundamental_div_mod(
                        acc as int,
                        LIMB_BASE as int,
                    );
                }
                assert(lo * p + next_carry * (LIMB_BASE * p) == (av + bv + carry) * p)
                    by (nonlinear_arith)
                    requires
                        lo + next_carry * (LIMB_BASE as int) == av + bv + carry,
                ;
                assert((av + bv + carry) * p == av * p + bv * p + carry * p) by (nonlinear_arith);
            }
            out.push(lo);
            carry = next_carry;
            i += 1;
        }
        if carry > 0 {
            proof {
                lemma_val_push(out@, carry as u32);
            }
            out.push(carry as u32);
        }
        proof {
            if an <= n {
                if an == n {
                    assert(self.limbs@.take(an as int) =~= self.limbs@);
                }
            }
            if bn == n {
                assert(other.limbs@.take(bn as int) =~= other.limbs@);
            }
            if an == n {
                assert(self.limbs@.take(an as int) =~= self.limbs@);
            }
        }
        Self::strip(&mut out);
        BigNat { limbs: out }
    }

    /// Strictly greater than.
    pub fn gt(&self, other: &BigNat) -> (r: bool)
        requires
            self.wf(),
            other.wf(),
        ensures
            r == (self.val() > other.val()),
    {
        let an = self.limbs.len();
        let bn = other.limbs.len();
        if an != bn {
            proof {
                if an > bn {
                    lemma_val_lower(self.limbs@);
                    lemma_val_upper(other.limbs@);
                    vstd::arithmetic::power::lemma_pow_increases(
                        LIMB_BASE as nat,
                        bn as nat,
                        (an - 1) as nat,
                    );
                } else {
                    lemma_val_lower(other.limbs@);
                    lemma_val_upper(self.limbs@);
                    vstd::arithmetic::power::lemma_pow_increases(
                        LIMB_BASE as nat,
                        an as nat,
                        (bn - 1) as nat,
                    );
                }
            }
            return an > bn;
        }
        let mut j = an;
        while j > 0
            invariant
                j <= an,
                an == self.limbs@.len(),
                an == other.limbs@.len(),
                forall|k: int| j <= k < an ==> self.limbs@[k] == other.limbs@[k],
            decreases j,
        {
            j -= 1;
            let av = self.limbs[j];
            let bv = other.limbs[j];
            if av != bv {
                proof {
                    Self::lemma_cmp_at(self.limbs@, other.limbs@, j as int);
                }
                return av > bv;
            }
        }
        proof {
            assert(self.limbs@ =~= other.limbs@);
        }
        false
    }

    /// With equal suffixes above `j` and a difference at `j`, the limb at `j`
    /// decides the order.
    proof fn lemma_cmp_at(a: Seq<u32>, b: Seq<u32>, j: int)
        requires
            a.len() == b.len(),
            0 <= j < a.len(),
            forall|k: int| j < k < a.len() ==> a[k] == b[k],
            a[j] != b[j],
        ensures
            (a[j] > b[j]) == (val_of(a) > val_of(b)),
    {
        let p = pow(LIMB_BASE as int, j as nat);
        lemma_val_eq_suffix(a, b, j + 1);
        assert(a.take(j + 1).drop_last() =~= a.take(j));
        assert(b.take(j + 1).drop_last() =~= b.take(j));
        assert(a.take(j + 1).last() == a[j]);
        assert(b.take(j + 1).last() == b[j]);
        lemma_val_upper(a.take(j));
        lemma_val_upper(b.take(j));
        lemma_val_nonneg(a.take(j));
        lemma_val_nonneg(b.take(j));
        assert(a.take(j).len() == j);
        assert(b.take(j).len() == j);
        vstd::arithmetic::power::lemma_pow_positive(LIMB_BASE as int, j as nat);
        if a[j] > b[j] {
            lemma_mul_inequality(1, a[j] - b[j], p);
            assert((a[j] - b[j]) * p == a[j] * p - b[j] * p) by (nonlinear_arith);
        } else {
            lemma_mul_inequality(1, b[j] - a[j], p);
            assert((b[j] - a[j]) * p == b[j] * p - a[j] * p) by (nonlinear_arith);
        }
    }
}

} // verus!
