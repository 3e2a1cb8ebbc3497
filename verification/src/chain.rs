//! Hidden Markov chain over per-row delimiter counts, scored by Viterbi
//! decoding.
//!
//! Three hidden states rank row regularity: `0` (steady strict), `1` (steady
//! flexible) and `2` (unsteady). Each row contributes one observation, the
//! count of candidate delimiters in it, classified against the maximum count
//! as `0` (the maximum), `1` (other) or `2` (zero). Transition and emission
//! probabilities are rationals; since every probability at step `t` of one
//! chain shares the denominator `3 * (1000 * (max + 1))^t`, the decoder
//! ranks probabilities by comparing the exact integer numerators, which the
//! [`crate::bignat`] module carries.
//!
//! The transition matrix drifts: after every per-state update the two
//! `unsteady -> steady` entries lose a hundredth (floored at zero) and the
//! `unsteady -> unsteady` entry gains two (capped at one), so early rows
//! find it ever easier to remain unsteady.

use vstd::prelude::*;
use crate::bignat::BigNat;
use vstd::arithmetic::power::pow;

verus! {

pub const STATE_STEADYSTRICT: usize = 0;

pub const STATE_STEADYFLEX: usize = 1;

pub const STATE_UNSTEADY: usize = 2;

/// Largest observation, zero for an empty sequence.
pub open spec fn max_obs(s: Seq<usize>) -> int
    decreases s.len(),
{
    if s.len() == 0 {
        0
    } else {
        let m = max_obs(s.drop_last());
        if s.last() > m {
            s.last() as int
        } else {
            m
        }
    }
}

/// Observation class of a count `f` against the maximum `maxv`.
pub open spec fn obs_kind(f: int, maxv: int) -> int {
    if f == maxv {
        0
    } else if f == 0 {
        2
    } else {
        1
    }
}

/// Transition numerator (over 100) from state `p` to state `s` after `k`
/// drift updates.
pub open spec fn trans_n(k: int, p: int, s: int) -> int {
    if p == 0 {
        if s == 0 {
            100
        } else {
            0
        }
    } else if p == 1 {
        if s == 1 {
            100
        } else {
            0
        }
    } else {
        if s == 2 {
            if 60 + 2 * k >= 100 {
                100
            } else {
                60 + 2 * k
            }
        } else {
            if 20 - k <= 0 {
                0
            } else {
                20 - k
            }
        }
    }
}

/// Emission numerator (over `10 * (maxv + 1)`) of observation class `o` in
/// state `s`.
pub open spec fn emit_n(maxv: int, s: int, o: int) -> int {
    if s == 0 {
        if o == 0 {
            10 * (maxv + 1)
        } else {
            0
        }
    } else if s == 1 {
        if o == 0 {
            7 * (maxv + 1)
        } else if o == 1 {
            3 * (maxv + 1)
        } else {
            0
        }
    } else {
        if o == 1 {
            10 * (maxv - 1)
        } else {
            10
        }
    }
}

/// Largest of three scores under the decoder's scan order: a later score
/// must be strictly greater to displace an earlier one.
pub open spec fn best3(t0: int, t1: int, t2: int) -> int {
    if t1 > t0 {
        if t2 > t1 {
            t2
        } else {
            t1
        }
    } else {
        if t2 > t0 {
            t2
        } else {
            t0
        }
    }
}

/// Index of the score that `best3` keeps.
pub open spec fn argmax3(t0: int, t1: int, t2: int) -> int {
    if t1 > t0 {
        if t2 > t1 {
            2
        } else {
            1
        }
    } else {
        if t2 > t0 {
            2
        } else {
            0
        }
    }
}

/// Viterbi probability numerator of state `s` after `t` observations, over
/// the common denominator `3 * (1000 * (maxv + 1))^t`.
pub open spec fn vprob(obs: Seq<usize>, maxv: int, t: nat, s: int) -> int
    decreases t,
{
    if t == 0 {
        1
    } else {
        let k = 3 * (t - 1) + s;
        let t0 = vprob(obs, maxv, (t - 1) as nat, 0) * trans_n(k, 0, s);
        let t1 = vprob(obs, maxv, (t - 1) as nat, 1) * trans_n(k, 1, s);
        let t2 = vprob(obs, maxv, (t - 1) as nat, 2) * trans_n(k, 2, s);
        best3(t0, t1, t2) * emit_n(maxv, s, obs_kind(obs[t - 1] as int, maxv))
    }
}

/// Predecessor state recorded for state `s` at step `t >= 1`.
pub open spec fn vprev(obs: Seq<usize>, maxv: int, t: nat, s: int) -> int {
    let k = 3 * (t - 1) + s;
    let t0 = vprob(obs, maxv, (t - 1) as nat, 0) * trans_n(k, 0, s);
    let t1 = vprob(obs, maxv, (t - 1) as nat, 1) * trans_n(k, 1, s);
    let t2 = vprob(obs, maxv, (t - 1) as nat, 2) * trans_n(k, 2, s);
    argmax3(t0, t1, t2)
}

/// Final state chosen after all observations: the most probable, the
/// lowest-indexed on ties.
pub open spec fn vfinal(obs: Seq<usize>, maxv: int) -> int {
    let n = obs.len();
    let p0 = vprob(obs, maxv, n, 0);
    let p1 = vprob(obs, maxv, n, 1);
    let p2 = vprob(obs, maxv, n, 2);
    argmax3(p0, p1, p2)
}

/// State standing at position `i` of the decoded path (of length
/// `obs.len() + 1`), read off by backtracking from the final state.
pub open spec fn vstate(obs: Seq<usize>, maxv: int, i: nat) -> int
    decreases obs.len() - i,
{
    if i >= obs.len() {
        vfinal(obs, maxv)
    } else {
        vprev(obs, maxv, (i + 1) as nat, vstate(obs, maxv, (i + 1) as nat))
    }
}

/// Final state of a chain: unsteady outright when no delimiter was ever
/// seen, otherwise the decoder's choice.
pub open spec fn cstate(obs: Seq<usize>) -> int {
    if max_obs(obs) == 0 {
        2
    } else {
        vfinal(obs, max_obs(obs))
    }
}

/// Final probability numerator of a chain, zero when no delimiter was seen.
pub open spec fn cnum(obs: Seq<usize>) -> int {
    if max_obs(obs) == 0 {
        0
    } else {
        vprob(obs, max_obs(obs), obs.len(), vfinal(obs, max_obs(obs)))
    }
}

/// Probabilities of two chains compared as rationals: numerator `an` over
/// denominator `3 * (1000 * (amax + 1))^at` against `bn` over the
/// corresponding denominator.
pub open spec fn rat_gt_spec(an: int, amax: int, at: nat, bn: int, bmax: int, bt: nat) -> bool {
    an * pow(1000 * (bmax + 1), bt) > bn * pow(1000 * (amax + 1), at)
}

/// Running best of the chain scan: the chain index chosen as delimiter, its
/// maximum count, its final state, and its final probability (numerator
/// with its denominator context). `winner` is negative while no chain has
/// displaced the initial threshold.
pub struct SelAcc {
    pub delim: int,
    pub freq: int,
    pub state: int,
    pub num: int,
    pub maxc: int,
    pub t: nat,
    pub winner: int,
}

/// Threshold the first chain has to beat: the unsteady state with
/// probability zero.
pub open spec fn init_acc() -> SelAcc {
    SelAcc { delim: 44, freq: 0, state: 2, num: 0, maxc: 0, t: 0, winner: -1 }
}

/// One step of the scan: chain `i` displaces the running best when its
/// final state is narrower, or equally narrow with a strictly greater
/// probability. A chain without observations is passed over.
pub open spec fn sel_step(acc: SelAcc, obs: Seq<usize>, i: int) -> SelAcc {
    if obs.len() == 0 {
        acc
    } else {
        let st = cstate(obs);
        let nm = cnum(obs);
        if st < acc.state || (st == acc.state && rat_gt_spec(
            nm,
            max_obs(obs),
            obs.len(),
            acc.num,
            acc.maxc,
            acc.t,
        )) {
            SelAcc {
                delim: i,
                freq: max_obs(obs),
                state: st,
                num: nm,
                maxc: max_obs(obs),
                t: obs.len(),
                winner: i,
            }
        } else {
            acc
        }
    }
}

pub open spec fn sel_from(chains: Seq<Seq<usize>>, i: int, acc: SelAcc) -> SelAcc
    decreases chains.len() - i,
{
    if i < 0 || i >= chains.len() {
        acc
    } else {
        sel_from(chains, i + 1, sel_step(acc, chains[i], i))
    }
}

/// The best chain over the whole scan.
pub open spec fn best_sel(chains: Seq<Seq<usize>>) -> SelAcc {
    sel_from(chains, 0, init_acc())
}

/// Observation sequences of a vector of chains.
pub open spec fn chain_views(chains: Seq<Chain>) -> Seq<Seq<usize>> {
    chains.map_values(|c: Chain| c.observations@)
}

/// Number of consecutive path positions from `i` on whose state differs
/// from `st`.
pub open spec fn pre_cnt(obs: Seq<usize>, maxv: int, st: int, i: nat) -> int
    decreases obs.len() + 1 - i,
{
    if i > obs.len() {
        0
    } else if vstate(obs, maxv, i) == st {
        0
    } else {
        1 + pre_cnt(obs, maxv, st, i + 1)
    }
}

/// Preamble rows read off the winning path: the consecutive positions past
/// the first two whose state differs from the best state, plus one for the
/// leading phantom state when there are any.
pub open spec fn preamble_of(obs: Seq<usize>, st: int) -> int {
    let c = pre_cnt(obs, max_obs(obs), st, 2);
    if c > 0 {
        c + 1
    } else {
        0
    }
}

/// Probability numerators are never negative.
pub proof fn lemma_vprob_nonneg(obs: Seq<usize>, maxv: int, t: nat, s: int)
    requires
        maxv >= 1,
        0 <= s < 3,
    ensures
        vprob(obs, maxv, t, s) >= 0,
    decreases t,
{
    if t > 0 {
        lemma_vprob_nonneg(obs, maxv, (t - 1) as nat, 0);
        lemma_vprob_nonneg(obs, maxv, (t - 1) as nat, 1);
        lemma_vprob_nonneg(obs, maxv, (t - 1) as nat, 2);
        let k = 3 * (t - 1) + s;
        let o = obs_kind(obs[t - 1] as int, maxv);
        vstd::arithmetic::mul::lemma_mul_nonnegative(
            vprob(obs, maxv, (t - 1) as nat, 0),
            trans_n(k, 0, s),
        );
        vstd::arithmetic::mul::lemma_mul_nonnegative(
            vprob(obs, maxv, (t - 1) as nat, 1),
            trans_n(k, 1, s),
        );
        vstd::arithmetic::mul::lemma_mul_nonnegative(
            vprob(obs, maxv, (t - 1) as nat, 2),
            trans_n(k, 2, s),
        );
        vstd::arithmetic::mul::lemma_mul_nonnegative(
            best3(
                vprob(obs, maxv, (t - 1) as nat, 0) * trans_n(k, 0, s),
                vprob(obs, maxv, (t - 1) as nat, 1) * trans_n(k, 1, s),
                vprob(obs, maxv, (t - 1) as nat, 2) * trans_n(k, 2, s),
            ),
            emit_n(maxv, s, o),
        );
    }
}

/// A scan over chains that never saw a delimiter keeps the threshold.
pub proof fn lemma_all_zero_sel(chains: Seq<Seq<usize>>, i: int)
    requires
        0 <= i <= chains.len(),
        forall|j: int| 0 <= j < chains.len() ==> max_obs(#[trigger] chains[j]) == 0,
    ensures
        sel_from(chains, i, init_acc()) == init_acc(),
    decreases chains.len() - i,
{
    if i < chains.len() {
        let obs = chains[i];
        if obs.len() > 0 {
            assert(cstate(obs) == 2 && cnum(obs) == 0);
            assert(!rat_gt_spec(0, max_obs(obs), obs.len(), 0, 0, 0)) by {
                vstd::arithmetic::power::lemma_pow_positive(1000int, obs.len());
                vstd::arithmetic::power::lemma_pow_positive(1000 * (max_obs(obs) + 1), 0nat);
            }
            assert(sel_step(init_acc(), obs, i) == init_acc());
        }
        lemma_all_zero_sel(chains, i + 1);
    }
}


/// Observations are machine words, so the largest one is too.
pub proof fn lemma_max_obs_bounds(s: Seq<usize>)
    ensures
        0 <= max_obs(s) <= usize::MAX,
    decreases s.len(),
{
    if s.len() > 0 {
        lemma_max_obs_bounds(s.drop_last());
    }
}

/// The count of differing path positions is bounded by the path length.
pub proof fn lemma_pre_cnt_bounds(obs: Seq<usize>, maxv: int, st: int, i: nat)
    ensures
        0 <= pre_cnt(obs, maxv, st, i),
        i <= obs.len() ==> pre_cnt(obs, maxv, st, i) <= obs.len() + 1 - i,
        i > obs.len() ==> pre_cnt(obs, maxv, st, i) == 0,
    decreases obs.len() + 1 - i,
{
    if i <= obs.len() && vstate(obs, maxv, i) != st {
        lemma_pre_cnt_bounds(obs, maxv, st, i + 1);
    }
}

/// The preamble never outruns the observations.
pub proof fn lemma_preamble_bounds(obs: Seq<usize>, st: int)
    ensures
        0 <= preamble_of(obs, st) <= obs.len(),
{
    lemma_pre_cnt_bounds(obs, max_obs(obs), st, 2);
}

/// Along the scan, the chosen delimiter is always the winning chain's
/// index, and without a winner the state is still the threshold's.
pub proof fn lemma_sel_delim(chains: Seq<Seq<usize>>, i: int, acc: SelAcc)
    requires
        0 <= i <= chains.len(),
        acc.winner >= -1,
        acc.winner >= 0 ==> acc.delim == acc.winner && acc.winner < chains.len() && acc.freq
            == max_obs(chains[acc.winner]),
        acc.winner == -1 ==> acc.state == 2 && acc.freq == 0,
    ensures
        sel_from(chains, i, acc).winner >= -1,
        sel_from(chains, i, acc).winner >= 0 ==> sel_from(chains, i, acc).delim == sel_from(
            chains,
            i,
            acc,
        ).winner && sel_from(chains, i, acc).winner < chains.len() && sel_from(chains, i, acc).freq
            == max_obs(chains[sel_from(chains, i, acc).winner]),
        sel_from(chains, i, acc).winner == -1 ==> sel_from(chains, i, acc).state == 2 && sel_from(
            chains,
            i,
            acc,
        ).freq == 0,
        0 <= sel_from(chains, i, acc).freq <= usize::MAX,
    decreases chains.len() - i,
{
    if i < chains.len() {
        lemma_sel_delim(chains, i + 1, sel_step(acc, chains[i], i));
    } else {
        if acc.winner >= 0 {
            lemma_max_obs_bounds(chains[acc.winner]);
        }
    }
}

/// One power step of an arbitrary base.
pub proof fn lemma_pow_step_any(b: int, n: nat)
    ensures
        pow(b, n + 1) == b * pow(b, n),
{
    vstd::arithmetic::power::lemma_pow1(b);
    vstd::arithmetic::power::lemma_pow_adds(b, 1, n);
}

/// `x` scaled by `(1000 * (m + 1))^t`, the denominator contribution of `t`
/// decoding steps of a chain whose maximum count is `m`.
pub fn scale_steps(x: &BigNat, m: usize, t: usize) -> (r: BigNat)
    requires
        x.wf(),
    ensures
        r.wf(),
        r.val() == x.val() * pow(1000 * (m + 1), t as nat),
{
    let mut cur = x.duplicate();
    proof {
        vstd::arithmetic::power::lemma_pow0(1000 * (m + 1));
        assert(x.val() * 1 == x.val()) by (nonlinear_arith);
    }
    let mut j: usize = 0;
    while j < t
        invariant
            j <= t,
            cur.wf(),
            cur.val() == x.val() * pow(1000 * (m + 1), j as nat),
        decreases t - j,
    {
        let ghost prev_val = cur.val();
        let y = cur.times(1000);
        let z = y.times(m as u64);
        let nxt = z.plus(&y);
        proof {
            lemma_pow_step_any(1000 * (m + 1), j as nat);
            assert(nxt.val() == prev_val * (1000 * (m + 1))) by (nonlinear_arith)
                requires
                    y.val() == prev_val * 1000,
                    z.val() == y.val() * (m as int),
                    nxt.val() == z.val() + y.val(),
            ;
            assert(prev_val * (1000 * (m + 1)) == x.val() * pow(1000 * (m + 1), (j + 1) as nat))
                by (nonlinear_arith)
                requires
                    prev_val == x.val() * pow(1000 * (m + 1), j as nat),
                    pow(1000 * (m + 1), (j + 1) as nat) == (1000 * (m + 1)) * pow(
                        1000 * (m + 1),
                        j as nat,
                    ),
            ;
        }
        cur = nxt;
        j += 1;
    }
    cur
}

/// Exact comparison of two chain probabilities given as numerators with
/// their denominator contexts.
pub fn rat_gt(an: &BigNat, amax: usize, at: usize, bn: &BigNat, bmax: usize, bt: usize) -> (r:
    bool)
    requires
        an.wf(),
        bn.wf(),
    ensures
        r == rat_gt_spec(an.val(), amax as int, at as nat, bn.val(), bmax as int, bt as nat),
{
    let a_scaled = scale_steps(an, bmax, bt);
    let b_scaled = scale_steps(bn, amax, at);
    a_scaled.gt(&b_scaled)
}

/// One scored iteration of the decoder: a probability numerator and the
/// predecessor state it came through.
pub struct VIteration {
    pub prob: BigNat,
    pub prev: Option<usize>,
}

/// Decoder output: the largest observation and the most probable state path,
/// one entry per path position.
pub struct ViterbiResults {
    pub max_delim_freq: usize,
    pub path: Vec<(usize, VIteration)>,
}

/// An ordered sequence of per-row delimiter counts.
pub struct Chain {
    pub observations: Vec<usize>,
}

/// Exact transition numerator, the drift count being `3 * t + s`.
fn trans_at(t: usize, s: usize, p: usize) -> (r: u64)
    requires
        s < 3,
        p < 3,
    ensures
        r == trans_n(3 * t + s, p as int, s as int),
        r <= 100,
{
    if p == 0 {
        if s == 0 {
            100
        } else {
            0
        }
    } else if p == 1 {
        if s == 1 {
            100
        } else {
            0
        }
    } else {
        if s == 2 {
            if t >= 7 {
                100
            } else {
                let k: u64 = 3 * (t as u64) + (s as u64);
                if 60 + 2 * k >= 100 {
                    100
                } else {
                    60 + 2 * k
                }
            }
        } else {
            if t >= 7 {
                0
            } else {
                let k: u64 = 3 * (t as u64) + (s as u64);
                if k >= 20 {
                    0
                } else {
                    20 - k
                }
            }
        }
    }
}

/// `y * (maxv + 1)`, exactly, whatever the machine size of `maxv`.
fn times_maxp1(y: &BigNat, maxv: usize) -> (r: BigNat)
    requires
        y.wf(),
    ensures
        r.wf(),
        r.val() == y.val() * (maxv + 1),
{
    let a = y.times(maxv as u64);
    let r = a.plus(y);
    proof {
        assert(y.val() * (maxv as int) + y.val() == y.val() * (maxv + 1)) by (nonlinear_arith);
    }
    r
}

/// `x` scaled by the emission numerator of `(s, o)`.
fn scale_emit(x: &BigNat, maxv: usize, s: usize, o: usize) -> (r: BigNat)
    requires
        x.wf(),
        maxv >= 1,
        s < 3,
        o < 3,
    ensures
        r.wf(),
        r.val() == x.val() * emit_n(maxv as int, s as int, o as int),
{
    if s == 0 {
        if o == 0 {
            let y = x.times(10);
            let r = times_maxp1(&y, maxv);
            proof {
                assert(x.val() * 10 * (maxv + 1) == x.val() * (10 * (maxv + 1)))
                    by (nonlinear_arith);
            }
            r
        } else {
            let r = BigNat::zero();
            proof {
                assert(x.val() * 0 == 0) by (nonlinear_arith);
            }
            r
        }
    } else if s == 1 {
        if o == 0 {
            let y = x.times(7);
            let r = times_maxp1(&y, maxv);
            proof {
                assert(x.val() * 7 * (maxv + 1) == x.val() * (7 * (maxv + 1)))
                    by (nonlinear_arith);
            }
            r
        } else if o == 1 {
            let y = x.times(3);
            let r = times_maxp1(&y, maxv);
            proof {
                assert(x.val() * 3 * (maxv + 1) == x.val() * (3 * (maxv + 1)))
                    by (nonlinear_arith);
            }
            r
        } else {
            let r = BigNat::zero();
            proof {
                assert(x.val() * 0 == 0) by (nonlinear_arith);
            }
            r
        }
    } else {
        if o == 1 {
            let y = x.times(10);
            let r = y.times((maxv - 1) as u64);
            proof {
                assert(x.val() * 10 * (maxv - 1) == x.val() * (10 * (maxv - 1)))
                    by (nonlinear_arith);
            }
            r
        } else {
            x.times(10)
        }
    }
}

/// One state of one decoding step: the best transition score into `s`
/// scaled by the emission, with the predecessor that won.
fn viterbi_step(prev: &Vec<BigNat>, t: usize, s: usize, maxv: usize, o: usize) -> (r: (
    BigNat,
    usize,
))
    requires
        prev@.len() == 3,
        forall|i: int| 0 <= i < 3 ==> (#[trigger] prev@[i]).wf(),
        s < 3,
        maxv >= 1,
        o < 3,
    ensures
        r.0.wf(),
        r.0.val() == best3(
            prev@[0].val() * trans_n(3 * t + s, 0, s as int),
            prev@[1].val() * trans_n(3 * t + s, 1, s as int),
            prev@[2].val() * trans_n(3 * t + s, 2, s as int),
        ) * emit_n(maxv as int, s as int, o as int),
        r.1 < 3,
        r.1 == argmax3(
            prev@[0].val() * trans_n(3 * t + s, 0, s as int),
            prev@[1].val() * trans_n(3 * t + s, 1, s as int),
            prev@[2].val() * trans_n(3 * t + s, 2, s as int),
        ),
{
    let tr0 = prev[0].times(trans_at(t, s, 0));
    let tr1 = prev[1].times(trans_at(t, s, 1));
    let tr2 = prev[2].times(trans_at(t, s, 2));
    if tr1.gt(&tr0) {
        if tr2.gt(&tr1) {
            (scale_emit(&tr2, maxv, s, o), 2)
        } else {
            (scale_emit(&tr1, maxv, s, o), 1)
        }
    } else {
        if tr2.gt(&tr0) {
            (scale_emit(&tr2, maxv, s, o), 2)
        } else {
            (scale_emit(&tr0, maxv, s, o), 0)
        }
    }
}

impl Default for Chain {
    /// A chain with no observations yet.
    fn default() -> (r: Chain)
        ensures
            r.observations@.len() == 0,
    {
        Chain::new()
    }
}

impl Chain {
    pub fn new() -> (r: Chain)
        ensures
            r.observations@.len() == 0,
    {
        Chain { observations: Vec::new() }
    }

    pub fn add_observation(&mut self, obs: usize)
        ensures
            final(self).observations@ == old(self).observations@.push(obs),
    {
        self.observations.push(obs);
    }

    /// The most probable state path given the observations.
    ///
    /// An empty observation sequence yields an empty path; an all-zero one
    /// yields the single unsteady-state entry with probability zero.
    /// Otherwise the path has one entry per position: the state that the
    /// backtracking reads off, its exact probability numerator, and the
    /// predecessor it came through (none at position zero).
    pub fn viterbi(&self) -> (r: ViterbiResults)
        ensures
            r.max_delim_freq == max_obs(self.observations@),
            self.observations@.len() == 0 ==> r.path@.len() == 0,
            self.observations@.len() > 0 && max_obs(self.observations@) == 0 ==> {
                &&& r.path@.len() == 1
                &&& r.path@[0].0 == STATE_UNSTEADY
                &&& r.path@[0].1.prev == Some(STATE_UNSTEADY)
                &&& r.path@[0].1.prob.wf()
                &&& r.path@[0].1.prob.val() == 0
            },
            self.observations@.len() > 0 && max_obs(self.observations@) > 0 ==> {
                let obs = self.observations@;
                let maxv = max_obs(obs);
                &&& r.path@.len() == obs.len() + 1
                &&& forall|i: int|
                    0 <= i <= obs.len() ==> (#[trigger] r.path@[i]).0 == vstate(obs, maxv, i as nat)
                &&& forall|i: int|
                    0 <= i <= obs.len() ==> (#[trigger] r.path@[i]).1.prob.wf()
                &&& forall|i: int|
                    0 <= i <= obs.len() ==> (#[trigger] r.path@[i]).1.prob.val() == vprob(
                        obs,
                        maxv,
                        i as nat,
                        vstate(obs, maxv, i as nat),
                    )
                &&& r.path@[0].1.prev is None
                &&& forall|i: int|
                    1 <= i <= obs.len() ==> (#[trigger] r.path@[i]).1.prev == Some(
                        vstate(obs, maxv, (i - 1) as nat) as usize,
                    )
            },
    {
        let n = self.observations.len();
        if n == 0 {
            return ViterbiResults { max_delim_freq: 0, path: Vec::new() };
        }
        // largest observation
        let mut maxv: usize = 0;
        let mut i: usize = 0;
        while i < n
            invariant
                i <= n,
                n == self.observations@.len(),
                maxv == max_obs(self.observations@.take(i as int)),
            decreases n - i,
        {
            proof {
                assert(self.observations@.take(i + 1).drop_last() =~= self.observations@.take(
                    i as int,
                ));
                assert(self.observations@.take(i + 1).last() == self.observations@[i as int]);
            }
            if self.observations[i] > maxv {
                maxv = self.observations[i];
            }
            i += 1;
        }
        proof {
            assert(self.observations@.take(n as int) =~= self.observations@);
        }
        if maxv == 0 {
            let mut path: Vec<(usize, VIteration)> = Vec::new();
            path.push((STATE_UNSTEADY, VIteration { prob: BigNat::zero(), prev: Some(
                STATE_UNSTEADY,
            ) }));
            return ViterbiResults { max_delim_freq: 0, path };
        }
        let ghost obs = self.observations@;

        // forward pass
        let mut probs_rows: Vec<Vec<BigNat>> = Vec::new();
        let mut row0: Vec<BigNat> = Vec::new();
        row0.push(BigNat::from_u64(1));
        row0.push(BigNat::from_u64(1));
        row0.push(BigNat::from_u64(1));
        probs_rows.push(row0);
        let mut prevs_rows: Vec<Vec<usize>> = Vec::new();
        let mut t: usize = 0;
        while t < n
            invariant
                t <= n,
                n == obs.len(),
                obs == self.observations@,
                maxv == max_obs(obs),
                maxv >= 1,
                probs_rows@.len() == t + 1,
                forall|j: int|
                    0 <= j <= t ==> (#[trigger] probs_rows@[j])@.len() == 3,
                forall|j: int, s: int|
                    0 <= j <= t && 0 <= s < 3 ==> (#[trigger] probs_rows@[j]@[s]).wf(),
                forall|j: int, s: int|
                    0 <= j <= t && 0 <= s < 3 ==> (#[trigger] probs_rows@[j]@[s]).val() == vprob(
                        obs,
                        maxv as int,
                        j as nat,
                        s,
                    ),
                prevs_rows@.len() == t,
                forall|j: int|
                    0 <= j < t ==> (#[trigger] prevs_rows@[j])@.len() == 3,
                forall|j: int, s: int|
                    0 <= j < t && 0 <= s < 3 ==> 0 <= (#[trigger] prevs_rows@[j]@[s]) < 3,
                forall|j: int, s: int|
                    0 <= j < t && 0 <= s < 3 ==> (#[trigger] prevs_rows@[j]@[s]) == vprev(
                        obs,
                        maxv as int,
                        (j + 1) as nat,
                        s,
                    ),
            decreases n - t,
        {
            let ob = self.observations[t];
            let o: usize = if ob == maxv {
                0
            } else if ob == 0 {
                2
            } else {
                1
            };
            proof {
                assert(o as int == obs_kind(obs[t as int] as int, maxv as int));
            }
            let prev: &Vec<BigNat> = &probs_rows[t];
            let (p0, q0) = viterbi_step(prev, t, 0, maxv, o);
            let (p1, q1) = viterbi_step(prev, t, 1, maxv, o);
            let (p2, q2) = viterbi_step(prev, t, 2, maxv, o);
            let mut new_row: Vec<BigNat> = Vec::new();
            new_row.push(p0);
            new_row.push(p1);
            new_row.push(p2);
            let mut new_prevs: Vec<usize> = Vec::new();
            new_prevs.push(q0);
            new_prevs.push(q1);
            new_prevs.push(q2);
            probs_rows.push(new_row);
            prevs_rows.push(new_prevs);
            t += 1;
        }

        // final state
        let last: &Vec<BigNat> = &probs_rows[n];
        let fs: usize = if last[1].gt(&last[0]) {
            if last[2].gt(&last[1]) {
                2
            } else {
                1
            }
        } else {
            if last[2].gt(&last[0]) {
                2
            } else {
                0
            }
        };
        proof {
            assert(fs as int == vfinal(obs, maxv as int));
        }

        // backtrack: rev_states[j] holds the state at path position n - j
        let mut rev_states: Vec<usize> = Vec::new();
        rev_states.push(fs);
        let mut i2: usize = n;
        while i2 > 0
            invariant
                i2 <= n,
                n == obs.len(),
                maxv == max_obs(obs),
                maxv >= 1,
                prevs_rows@.len() == n,
                forall|j: int|
                    0 <= j < n ==> (#[trigger] prevs_rows@[j])@.len() == 3,
                forall|j: int, s: int|
                    0 <= j < n && 0 <= s < 3 ==> 0 <= (#[trigger] prevs_rows@[j]@[s]) < 3,
                forall|j: int, s: int|
                    0 <= j < n && 0 <= s < 3 ==> (#[trigger] prevs_rows@[j]@[s]) == vprev(
                        obs,
                        maxv as int,
                        (j + 1) as nat,
                        s,
                    ),
                rev_states@.len() == n - i2 + 1,
                forall|j: int|
                    0 <= j <= n - i2 ==> 0 <= (#[trigger] rev_states@[j]) < 3,
                forall|j: int|
                    0 <= j <= n - i2 ==> (#[trigger] rev_states@[j]) == vstate(
                        obs,
                        maxv as int,
                        (n - j) as nat,
                    ),
            decreases i2,
        {
            i2 -= 1;
            let cur_state = rev_states[rev_states.len() - 1];
            let st = prevs_rows[i2][cur_state];
            proof {
                assert(rev_states@.last() == vstate(obs, maxv as int, (i2 + 1) as nat));
                assert(vstate(obs, maxv as int, i2 as nat) == vprev(
                    obs,
                    maxv as int,
                    (i2 + 1) as nat,
                    vstate(obs, maxv as int, (i2 + 1) as nat),
                ));
            }
            rev_states.push(st);
        }

        // assemble the path in forward order
        let mut path: Vec<(usize, VIteration)> = Vec::new();
        let total = rev_states.len();
        let mut idx: usize = 0;
        while idx < total
            invariant
                total == n + 1,
                idx <= n + 1,
                n == obs.len(),
                maxv == max_obs(obs),
                maxv >= 1,
                rev_states@.len() == n + 1,
                forall|j: int|
                    0 <= j <= n ==> 0 <= (#[trigger] rev_states@[j]) < 3,
                forall|j: int|
                    0 <= j <= n ==> (#[trigger] rev_states@[j]) == vstate(
                        obs,
                        maxv as int,
                        (n - j) as nat,
                    ),
                probs_rows@.len() == n + 1,
                forall|j: int|
                    0 <= j <= n ==> (#[trigger] probs_rows@[j])@.len() == 3,
                forall|j: int, s: int|
                    0 <= j <= n && 0 <= s < 3 ==> (#[trigger] probs_rows@[j]@[s]).wf(),
                forall|j: int, s: int|
                    0 <= j <= n && 0 <= s < 3 ==> (#[trigger] probs_rows@[j]@[s]).val() == vprob(
                        obs,
                        maxv as int,
                        j as nat,
                        s,
                    ),
                path@.len() == idx,
                forall|j: int|
                    0 <= j < idx ==> (#[trigger] path@[j]).0 == vstate(obs, maxv as int, j as nat),
                forall|j: int|
                    0 <= j < idx ==> (#[trigger] path@[j]).1.prob.wf(),
                forall|j: int|
                    0 <= j < idx ==> (#[trigger] path@[j]).1.prob.val() == vprob(
                        obs,
                        maxv as int,
                        j as nat,
                        vstate(obs, maxv as int, j as nat),
                    ),
                idx > 0 ==> path@[0].1.prev is None,
                forall|j: int|
                    1 <= j < idx ==> (#[trigger] path@[j]).1.prev == Some(
                        vstate(obs, maxv as int, (j - 1) as nat) as usize,
                    ),
            decreases total - idx,
        {
            let state = rev_states[n - idx];
            let prob = probs_rows[idx][state].duplicate();
            let prev: Option<usize> = if idx == 0 {
                None
            } else {
                Some(rev_states[n - (idx - 1)])
            };
            path.push((state, VIteration { prob, prev }));
            idx += 1;
        }
        ViterbiResults { max_delim_freq: maxv, path }
    }
}

} // verus!
