//! Value iteration over a frozen graph, and policy extraction.
//!
//! One sweep is a synchronous Bellman backup: every state's new value is the
//! maximum, over its enabled actions, of the action's expected value
//! `sum of probability * (reward + discount * shadow_value[to])`, computed
//! against the previous sweep's values only.  All quantities are fixed-point
//! (see [`crate::SCALE`]); the expected value divides once by `SCALE²`,
//! rounding toward minus infinity, so each sweep moves values by at most one
//! quantum beyond the exact contraction.

use crate::fixed::REWARD_MAX;
use crate::fixed::SCALE;
use crate::fixed::VALUE_MAX;
use crate::fixed::abs_i;
use crate::fixed::lemma_div_abs_bound;
use crate::fixed::lemma_div_diff_bound;
use crate::mdp::GroupView;
use crate::mdp::abox_of;
use crate::model::ActionView;
use crate::mdp::action_block;
use crate::mdp::distinct_identities;
use crate::mdp::enabled_groups;
use crate::mdp::lemma_built_from_exact;
use crate::mdp::lemma_built_from_wf;
use crate::mdp::lemma_groups_of_expansion;
use crate::mdp::results_tvs;
use crate::mdp::result_tv;
use crate::mdp::Mdp;
use crate::mdp::MdpView;
use crate::mdp::TransitionView;
use crate::mdp::group_views;
use crate::mdp::Transition;
use crate::mdp::trans_views;
use crate::model::ActionBox;
use crate::policy::Policy;
use crate::policy::policy_entry_view;
use vstd::arithmetic::div_mod::lemma_div_is_ordered;
use vstd::arithmetic::div_mod::lemma_div_multiples_vanish;
use vstd::arithmetic::div_mod::lemma_hoist_over_denominator;
use vstd::arithmetic::mul::lemma_mul_inequality;
use vstd::prelude::*;

verus! {

/// Values as mathematical integers.
pub open spec fn val_views(v: Seq<i64>) -> Seq<int> {
    v.map_values(|x: i64| x as int)
}

/// The scaled expected value of one transition list: the sum, over its
/// transitions, of `probability * (reward * SCALE + discount * vals[to])`.
/// This carries scale `SCALE³`; dividing once by `SCALE²` yields a value.
pub open spec fn q_sum(ts: Seq<TransitionView>, vals: Seq<int>, discount: int) -> int
    decreases ts.len(),
{
    if ts.len() == 0 {
        0
    } else {
        q_sum(ts.drop_last(), vals, discount) + {
            let t = ts.last();
            t.probability * (t.reward * (SCALE as int) + discount * vals[t.to])
        }
    }
}

/// The expected value of taking one action (one adjacency group) at a state.
pub open spec fn q_value(ts: Seq<TransitionView>, vals: Seq<int>, discount: int) -> int {
    q_sum(ts, vals, discount) / ((SCALE as int) * (SCALE as int))
}

/// One state's Bellman backup: the maximum expected value over its enabled
/// actions, earliest action winning ties; 0 where no action is enabled.
pub open spec fn best_q(groups: Seq<GroupView>, vals: Seq<int>, discount: int) -> int
    decreases groups.len(),
{
    if groups.len() == 0 {
        0
    } else if groups.len() == 1 {
        q_value(groups[0].transitions, vals, discount)
    } else {
        let prev = best_q(groups.drop_last(), vals, discount);
        let q = q_value(groups.last().transitions, vals, discount);
        if prev >= q {
            prev
        } else {
            q
        }
    }
}

/// One full synchronous sweep: every state backed up against `vals`.
pub open spec fn sweep(groups: Seq<Seq<GroupView>>, vals: Seq<int>, discount: int) -> Seq<int> {
    Seq::new(groups.len(), |i: int| best_q(groups[i], vals, discount))
}

/// The largest per-state absolute difference of two value vectors.
pub open spec fn max_delta(v: Seq<int>, w: Seq<int>) -> int
    decreases v.len(),
{
    if v.len() == 0 {
        0
    } else {
        let prev = max_delta(v.drop_last(), w.drop_last());
        let d = abs_i(v.last() - w.last());
        if prev >= d {
            prev
        } else {
            d
        }
    }
}

/// The total probability mass of a transition list.
pub open spec fn prob_sum(ts: Seq<TransitionView>) -> int
    decreases ts.len(),
{
    if ts.len() == 0 {
        0
    } else {
        prob_sum(ts.drop_last()) + ts.last().probability
    }
}

/// One transition the solver can do arithmetic on: probability within one
/// unit, reward within the solver's reward bound, target within `nstates`.
pub open spec fn trans_bounded(t: TransitionView, nstates: int) -> bool {
    &&& 0 <= t.probability <= SCALE as int
    &&& abs_i(t.reward) <= REWARD_MAX as int
    &&& 0 <= t.to < nstates
}

/// One adjacency group the solver can do arithmetic on: each transition
/// bounded and the branch probabilities summing to at most one unit.
pub open spec fn group_bounded(g: GroupView, nstates: int) -> bool {
    &&& forall|k: int| 0 <= k < g.transitions.len() ==> trans_bounded(
        #[trigger] g.transitions[k],
        nstates,
    )
    &&& prob_sum(g.transitions) <= SCALE as int
}

/// Every group of every state bounded: what the solver requires of a model.
pub open spec fn model_bounded(groups: Seq<Seq<GroupView>>) -> bool {
    forall|i: int, g: int|
        0 <= i < groups.len() && 0 <= g < groups[i].len() ==> group_bounded(
            #[trigger] groups[i][g],
            groups.len() as int,
        )
}

/// Every value within the solver's value bound.
pub open spec fn vals_bounded(v: Seq<int>) -> bool {
    forall|i: int| 0 <= i < v.len() ==> abs_i(#[trigger] v[i]) <= VALUE_MAX as int
}

/// Probability mass is nonnegative and grows along prefixes.
pub proof fn lemma_prob_sum_bounds(ts: Seq<TransitionView>, nstates: int)
    requires
        forall|k: int| 0 <= k < ts.len() ==> trans_bounded(#[trigger] ts[k], nstates),
    ensures
        0 <= prob_sum(ts),
    decreases ts.len(),
{
    if ts.len() > 0 {
        let front = ts.drop_last();
        assert(forall|k: int| 0 <= k < front.len() ==> front[k] == ts[k]);
        lemma_prob_sum_bounds(front, nstates);
    }
}

/// The scaled expected value is bounded by the probability mass times the
/// largest scaled term.
pub proof fn lemma_q_sum_bound(ts: Seq<TransitionView>, vals: Seq<int>, discount: int, nstates: int)
    requires
        forall|k: int| 0 <= k < ts.len() ==> trans_bounded(#[trigger] ts[k], nstates),
        vals.len() == nstates,
        vals_bounded(vals),
        0 <= discount <= SCALE as int,
    ensures
        abs_i(q_sum(ts, vals, discount)) <= prob_sum(ts) * (
        (REWARD_MAX as int) * (SCALE as int) + discount * (VALUE_MAX as int)),
    decreases ts.len(),
{
    let big = (REWARD_MAX as int) * (SCALE as int) + discount * (VALUE_MAX as int);
    if ts.len() > 0 {
        let front = ts.drop_last();
        assert(forall|k: int| 0 <= k < front.len() ==> front[k] == ts[k]);
        lemma_q_sum_bound(front, vals, discount, nstates);
        lemma_prob_sum_bounds(front, nstates);
        let t = ts.last();
        let term = t.probability * (t.reward * (SCALE as int) + discount * vals[t.to]);
        assert(abs_i(term) <= t.probability * big) by (nonlinear_arith)
            requires
                0 <= t.probability <= SCALE as int,
                abs_i(t.reward) <= REWARD_MAX as int,
                0 <= discount <= SCALE as int,
                abs_i(vals[t.to]) <= VALUE_MAX as int,
                term == t.probability * (t.reward * (SCALE as int) + discount * vals[t.to]),
                big == (REWARD_MAX as int) * (SCALE as int) + discount * (VALUE_MAX as int),
        ;
        assert(prob_sum(front) * big + t.probability * big == prob_sum(ts) * big)
            by (nonlinear_arith)
            requires
                prob_sum(ts) == prob_sum(front) + t.probability,
        ;
    }
}

/// The expected value of a bounded group over bounded values stays within
/// the value bound.
pub proof fn lemma_q_value_bound(
    ts: Seq<TransitionView>,
    vals: Seq<int>,
    discount: int,
    nstates: int,
)
    requires
        forall|k: int| 0 <= k < ts.len() ==> trans_bounded(#[trigger] ts[k], nstates),
        prob_sum(ts) <= SCALE as int,
        vals.len() == nstates,
        vals_bounded(vals),
        1 <= discount <= SCALE - 1,
    ensures
        abs_i(q_value(ts, vals, discount)) <= VALUE_MAX as int,
{
    let s = SCALE as int;
    let r = REWARD_MAX as int;
    let v = VALUE_MAX as int;
    let big = r * s + discount * v;
    lemma_q_sum_bound(ts, vals, discount, nstates);
    lemma_prob_sum_bounds(ts, nstates);
    assert(prob_sum(ts) * big <= s * big) by (nonlinear_arith)
        requires
            0 <= prob_sum(ts) <= s,
            big >= 0,
    ;
    // s * big <= (s * s) * (v - 1) exactly when discount <= s - 1, because
    // v == (r + 1) * s.
    assert(s * big <= (s * s) * (v - 1)) by (nonlinear_arith)
        requires
            big == r * s + discount * v,
            1 <= discount <= s - 1,
            v == (r + 1) * s,
            s >= 1,
            r >= 0,
    ;
    let q = q_sum(ts, vals, discount);
    lemma_div_abs_bound(q, s * s);
    lemma_div_is_ordered(abs_i(q), (s * s) * (v - 1), s * s);
    lemma_div_multiples_vanish(v - 1, s * s);
}

/// One sweep moves an expected value by at most `discount * d / SCALE` plus
/// one rounding quantum when the shadow values move by at most `d`.
pub proof fn lemma_q_sum_lipschitz(
    ts: Seq<TransitionView>,
    v: Seq<int>,
    w: Seq<int>,
    discount: int,
    d: int,
    nstates: int,
)
    requires
        forall|k: int| 0 <= k < ts.len() ==> trans_bounded(#[trigger] ts[k], nstates),
        v.len() == nstates,
        w.len() == nstates,
        forall|i: int| 0 <= i < nstates ==> abs_i(v[i] - w[i]) <= d,
        0 <= discount,
        0 <= d,
    ensures
        abs_i(q_sum(ts, v, discount) - q_sum(ts, w, discount)) <= prob_sum(ts) * (discount * d),
    decreases ts.len(),
{
    if ts.len() > 0 {
        let front = ts.drop_last();
        assert(forall|k: int| 0 <= k < front.len() ==> front[k] == ts[k]);
        lemma_q_sum_lipschitz(front, v, w, discount, d, nstates);
        lemma_prob_sum_bounds(front, nstates);
        let t = ts.last();
        let tv = t.probability * (t.reward * (SCALE as int) + discount * v[t.to]);
        let tw = t.probability * (t.reward * (SCALE as int) + discount * w[t.to]);
        assert(abs_i(tv - tw) <= t.probability * (discount * d)) by (nonlinear_arith)
            requires
                0 <= t.probability,
                0 <= discount,
                0 <= d,
                abs_i(v[t.to] - w[t.to]) <= d,
                tv == t.probability * (t.reward * (SCALE as int) + discount * v[t.to]),
                tw == t.probability * (t.reward * (SCALE as int) + discount * w[t.to]),
        ;
        assert(prob_sum(front) * (discount * d) + t.probability * (discount * d) == prob_sum(ts)
            * (discount * d)) by (nonlinear_arith)
            requires
                prob_sum(ts) == prob_sum(front) + t.probability,
        ;
    }
}

/// The per-group contraction: expected values move by at most
/// `discount * d / SCALE + 1`.
pub proof fn lemma_q_value_lipschitz(
    ts: Seq<TransitionView>,
    v: Seq<int>,
    w: Seq<int>,
    discount: int,
    d: int,
    nstates: int,
)
    requires
        forall|k: int| 0 <= k < ts.len() ==> trans_bounded(#[trigger] ts[k], nstates),
        prob_sum(ts) <= SCALE as int,
        v.len() == nstates,
        w.len() == nstates,
        forall|i: int| 0 <= i < nstates ==> abs_i(v[i] - w[i]) <= d,
        0 <= discount,
        0 <= d,
    ensures
        abs_i(q_value(ts, v, discount) - q_value(ts, w, discount)) <= (discount * d) / (
        SCALE as int) + 1,
{
    let s = SCALE as int;
    lemma_q_sum_lipschitz(ts, v, w, discount, d, nstates);
    lemma_prob_sum_bounds(ts, nstates);
    let a = q_sum(ts, v, discount);
    let b = q_sum(ts, w, discount);
    assert(prob_sum(ts) * (discount * d) <= s * (discount * d)) by (nonlinear_arith)
        requires
            0 <= prob_sum(ts) <= s,
            0 <= discount * d,
    ;
    lemma_div_diff_bound(a, b, s * s);
    lemma_div_is_ordered(abs_i(a - b), s * (discount * d), s * s);
    // (s * (discount * d)) / (s * s) == (discount * d) / s
    assert((s * (discount * d)) / (s * s) == (discount * d) / s) by {
        vstd::arithmetic::div_mod::lemma_div_denominator(s * (discount * d), s, s);
        lemma_div_multiples_vanish(discount * d, s);
        assert((s * (discount * d)) / s == discount * d);
    }
}


/// A state's backed-up value over a bounded model stays within the value
/// bound.
pub proof fn lemma_best_q_bound(groups: Seq<GroupView>, vals: Seq<int>, discount: int, nstates: int)
    requires
        forall|g: int| 0 <= g < groups.len() ==> group_bounded(#[trigger] groups[g], nstates),
        vals.len() == nstates,
        vals_bounded(vals),
        1 <= discount <= SCALE - 1,
    ensures
        abs_i(best_q(groups, vals, discount)) <= VALUE_MAX as int,
    decreases groups.len(),
{
    if groups.len() == 1 {
        lemma_q_value_bound(groups[0].transitions, vals, discount, nstates);
    } else if groups.len() > 1 {
        let front = groups.drop_last();
        assert(forall|g: int| 0 <= g < front.len() ==> front[g] == groups[g]);
        lemma_best_q_bound(front, vals, discount, nstates);
        lemma_q_value_bound(groups.last().transitions, vals, discount, nstates);
    }
}

/// The per-state contraction: one backup moves a state's value by at most
/// `discount * d / SCALE + 1` when the shadow values move by at most `d`.
pub proof fn lemma_best_q_lipschitz(
    groups: Seq<GroupView>,
    v: Seq<int>,
    w: Seq<int>,
    discount: int,
    d: int,
    nstates: int,
)
    requires
        forall|g: int| 0 <= g < groups.len() ==> group_bounded(#[trigger] groups[g], nstates),
        v.len() == nstates,
        w.len() == nstates,
        forall|i: int| 0 <= i < nstates ==> abs_i(v[i] - w[i]) <= d,
        0 <= discount,
        0 <= d,
    ensures
        abs_i(best_q(groups, v, discount) - best_q(groups, w, discount)) <= (discount * d) / (
        SCALE as int) + 1,
    decreases groups.len(),
{
    let s = SCALE as int;
    assert(0 <= discount * d) by (nonlinear_arith)
        requires
            0 <= discount,
            0 <= d,
    ;
    vstd::arithmetic::div_mod::lemma_div_pos_is_pos(discount * d, s);
    if groups.len() == 1 {
        lemma_q_value_lipschitz(groups[0].transitions, v, w, discount, d, nstates);
    } else if groups.len() > 1 {
        let front = groups.drop_last();
        assert(forall|g: int| 0 <= g < front.len() ==> front[g] == groups[g]);
        lemma_best_q_lipschitz(front, v, w, discount, d, nstates);
        lemma_q_value_lipschitz(groups.last().transitions, v, w, discount, d, nstates);
    }
}

/// The largest per-state difference dominates every per-state difference.
pub proof fn lemma_max_delta_ge(v: Seq<int>, w: Seq<int>)
    requires
        v.len() == w.len(),
    ensures
        0 <= max_delta(v, w),
        forall|i: int| 0 <= i < v.len() ==> abs_i(v[i] - w[i]) <= max_delta(v, w),
    decreases v.len(),
{
    if v.len() > 0 {
        let fv = v.drop_last();
        let fw = w.drop_last();
        assert(forall|i: int| 0 <= i < fv.len() ==> fv[i] == v[i] && fw[i] == w[i]);
        lemma_max_delta_ge(fv, fw);
    }
}

/// A bound on every per-state difference bounds the largest one.
pub proof fn lemma_max_delta_le(v: Seq<int>, w: Seq<int>, bound: int)
    requires
        v.len() == w.len(),
        0 <= bound,
        forall|i: int| 0 <= i < v.len() ==> abs_i(v[i] - w[i]) <= bound,
    ensures
        max_delta(v, w) <= bound,
    decreases v.len(),
{
    if v.len() > 0 {
        let fv = v.drop_last();
        let fw = w.drop_last();
        assert(forall|i: int| 0 <= i < fv.len() ==> fv[i] == v[i] && fw[i] == w[i]);
        lemma_max_delta_le(fv, fw, bound);
    }
}

/// The sweep contracts, up to one rounding quantum: backing every state up
/// against `v` and against `w` yields vectors no farther apart than
/// `discount * max_delta(v, w) / SCALE + 1`.  With `discount < SCALE` this
/// makes each sweep's largest per-state move shrink until it falls below any
/// tolerance above `SCALE / (SCALE - discount)`.
pub proof fn lemma_sweep_contraction(
    groups: Seq<Seq<GroupView>>,
    v: Seq<int>,
    w: Seq<int>,
    discount: int,
)
    requires
        model_bounded(groups),
        v.len() == groups.len(),
        w.len() == groups.len(),
        0 <= discount,
    ensures
        max_delta(sweep(groups, v, discount), sweep(groups, w, discount)) <= (discount * max_delta(
            v,
            w,
        )) / (SCALE as int) + 1,
{
    let s = SCALE as int;
    let d = max_delta(v, w);
    lemma_max_delta_ge(v, w);
    assert(0 <= discount * d) by (nonlinear_arith)
        requires
            0 <= discount,
            0 <= d,
    ;
    vstd::arithmetic::div_mod::lemma_div_pos_is_pos(discount * d, s);
    let sv = sweep(groups, v, discount);
    let sw = sweep(groups, w, discount);
    assert forall|i: int| 0 <= i < sv.len() implies abs_i(sv[i] - sw[i]) <= (discount * d) / s
        + 1 by {
        lemma_best_q_lipschitz(groups[i], v, w, discount, d, groups.len() as int);
    }
    lemma_max_delta_le(sv, sw, (discount * d) / s + 1);
}

/// A sweep over a bounded model keeps every value within the value bound.
pub proof fn lemma_sweep_bounded(groups: Seq<Seq<GroupView>>, vals: Seq<int>, discount: int)
    requires
        model_bounded(groups),
        vals.len() == groups.len(),
        vals_bounded(vals),
        1 <= discount <= SCALE - 1,
    ensures
        sweep(groups, vals, discount).len() == groups.len(),
        vals_bounded(sweep(groups, vals, discount)),
{
    let sv = sweep(groups, vals, discount);
    assert forall|i: int| 0 <= i < sv.len() implies abs_i(#[trigger] sv[i]) <= VALUE_MAX as int by {
        lemma_best_q_bound(groups[i], vals, discount, groups.len() as int);
    }
}


/// Prefixes carry no more probability mass than the whole list.
pub proof fn lemma_prob_sum_prefix(ts: Seq<TransitionView>, k: int, nstates: int)
    requires
        forall|j: int| 0 <= j < ts.len() ==> trans_bounded(#[trigger] ts[j], nstates),
        0 <= k <= ts.len(),
    ensures
        prob_sum(ts.take(k)) <= prob_sum(ts),
    decreases ts.len() - k,
{
    if k == ts.len() {
        assert(ts.take(k) =~= ts);
    } else {
        assert(ts.take(k + 1).drop_last() =~= ts.take(k));
        assert(ts.take(k + 1).last() == ts[k]);
        lemma_prob_sum_prefix(ts, k + 1, nstates);
    }
}

/// Copies a value vector.
pub(crate) fn copy_values(v: &Vec<i64>) -> (r: Vec<i64>)
    ensures
        r@ == v@,
{
    let mut r: Vec<i64> = Vec::new();
    let mut k: usize = 0;
    while k < v.len()
        invariant
            k <= v@.len(),
            r@ == v@.take(k as int),
        decreases v@.len() - k,
    {
        r.push(v[k]);
        proof {
            assert(r@ =~= v@.take(k + 1 as int));
        }
        k += 1;
    }
    proof {
        assert(v@.take(v@.len() as int) =~= v@);
    }
    r
}

/// The expected value of one action at one state: the fixed-point sum of
/// `probability * (reward + discount * vals[to])` over its transitions.
fn group_q(transitions: &Vec<Transition>, vals: &Vec<i64>, discount: i64) -> (r: i64)
    requires
        forall|k: int|
            0 <= k < transitions@.len() ==> trans_bounded(
                #[trigger] trans_views(transitions@)[k],
                vals@.len() as int,
            ),
        prob_sum(trans_views(transitions@)) <= SCALE as int,
        vals_bounded(val_views(vals@)),
        1 <= discount <= SCALE - 1,
    ensures
        r as int == q_value(trans_views(transitions@), val_views(vals@), discount as int),
        abs_i(r as int) <= VALUE_MAX as int,
{
    let ghost tsv = trans_views(transitions@);
    let ghost vv = val_views(vals@);
    let ghost big = (REWARD_MAX as int) * (SCALE as int) + (discount as int) * (VALUE_MAX as int);
    let mut acc: i128 = 0;
    let mut k: usize = 0;
    while k < transitions.len()
        invariant
            k <= transitions@.len(),
            tsv == trans_views(transitions@),
            vv == val_views(vals@),
            big == (REWARD_MAX as int) * (SCALE as int) + (discount as int) * (VALUE_MAX as int),
            forall|j: int| 0 <= j < tsv.len() ==> trans_bounded(#[trigger] tsv[j], vv.len() as int),
            prob_sum(tsv) <= SCALE as int,
            vals_bounded(vv),
            1 <= discount <= SCALE - 1,
            acc as int == q_sum(tsv.take(k as int), vv, discount as int),
            abs_i(acc as int) <= prob_sum(tsv.take(k as int)) * big,
        decreases transitions@.len() - k,
    {
        let ghost pre = tsv.take(k as int);
        proof {
            assert(forall|j: int| 0 <= j < pre.len() ==> pre[j] == tsv[j]);
            lemma_prob_sum_bounds(pre, vv.len() as int);
            lemma_prob_sum_prefix(tsv, k as int, vv.len() as int);
        }
        let t = &transitions[k];
        proof {
            assert(t@ == tsv[k as int]);
            assert(trans_bounded(tsv[k as int], vv.len() as int));
        }
        let p = t.probability() as i128;
        let rw = t.reward() as i128;
        let to = t.to();
        proof {
            assert(vv[to as int] == vals@[to as int] as int);
            assert(abs_i(vv[to as int]) <= VALUE_MAX as int);
        }
        let val = vals[to] as i128;
        let a1: i128 = rw * (SCALE as i128);
        proof {
            assert(abs_i((discount as int) * (val as int)) <= (SCALE as int) * (VALUE_MAX as int))
                by (nonlinear_arith)
                requires
                    1 <= discount <= SCALE - 1,
                    abs_i(val as int) <= VALUE_MAX as int,
            ;
        }
        let a2: i128 = (discount as i128) * val;
        let inner: i128 = a1 + a2;
        proof {
            assert(abs_i((p as int) * (inner as int)) <= (SCALE as int) * ((REWARD_MAX as int) * (
            SCALE as int) + (SCALE as int) * (VALUE_MAX as int))) by (nonlinear_arith)
                requires
                    0 <= p as int <= SCALE as int,
                    abs_i(inner as int) <= (REWARD_MAX as int) * (SCALE as int) + (SCALE as int)
                        * (VALUE_MAX as int),
            ;
        }
        let term: i128 = p * inner;
        proof {
            assert(abs_i(term as int) <= p as int * big) by (nonlinear_arith)
                requires
                    0 <= p as int <= SCALE as int,
                    abs_i(rw as int) <= REWARD_MAX as int,
                    1 <= discount <= SCALE - 1,
                    abs_i(val as int) <= VALUE_MAX as int,
                    term as int == p as int * (rw as int * (SCALE as int) + discount as int
                        * val as int),
                    big == (REWARD_MAX as int) * (SCALE as int) + (discount as int) * (
                    VALUE_MAX as int),
            ;
            assert(tsv.take(k + 1 as int).drop_last() =~= pre);
            assert(tsv.take(k + 1 as int).last() == tsv[k as int]);
            assert(forall|j: int|
                0 <= j < tsv.take(k + 1 as int).len() ==> tsv.take(k + 1 as int)[j] == tsv[j]);
            lemma_prob_sum_prefix(tsv, k + 1 as int, vv.len() as int);
            lemma_prob_sum_bounds(tsv.take(k + 1 as int), vv.len() as int);
            assert(prob_sum(pre) * big + p as int * big == prob_sum(tsv.take(k + 1 as int)) * big)
                by (nonlinear_arith)
                requires
                    prob_sum(tsv.take(k + 1 as int)) == prob_sum(pre) + p as int,
            ;
            assert(prob_sum(tsv.take(k + 1 as int)) * big <= (SCALE as int) * big)
                by (nonlinear_arith)
                requires
                    0 <= prob_sum(tsv.take(k + 1 as int)) <= SCALE as int,
                    big >= 0,
            ;
            assert(prob_sum(pre) * big <= (SCALE as int) * big) by (nonlinear_arith)
                requires
                    0 <= prob_sum(pre) <= SCALE as int,
                    big >= 0,
            ;
            assert((p as int) * big <= (SCALE as int) * big) by (nonlinear_arith)
                requires
                    0 <= p as int <= SCALE as int,
                    big >= 0,
            ;
            let bigmax = (REWARD_MAX as int) * (SCALE as int) + (SCALE as int) * (
            VALUE_MAX as int);
            assert(big <= bigmax) by (nonlinear_arith)
                requires
                    big == (REWARD_MAX as int) * (SCALE as int) + (discount as int) * (
                    VALUE_MAX as int),
                    bigmax == (REWARD_MAX as int) * (SCALE as int) + (SCALE as int) * (
                    VALUE_MAX as int),
                    1 <= discount <= SCALE - 1,
            ;
            assert((SCALE as int) * big <= (SCALE as int) * bigmax) by (nonlinear_arith)
                requires
                    big <= bigmax,
            ;
        }
        acc = acc + term;
        proof {
            assert(tsv.take(k + 1 as int).drop_last() =~= tsv.take(k as int));
            assert(tsv.take(k + 1 as int).last() == tsv[k as int]);
            assert(acc as int == q_sum(tsv.take(k + 1 as int), vv, discount as int));
        }
        k += 1;
    }
    proof {
        assert(tsv.take(tsv.len() as int) =~= tsv);
    }
    let ss: i128 = (SCALE as i128) * (SCALE as i128);
    let q = acc.checked_div_euclid(ss).unwrap();
    proof {
        lemma_q_value_bound(tsv, vv, discount as int, vv.len() as int);
    }
    q as i64
}

/// The largest per-state absolute difference of two value vectors.
fn compute_delta(v: &Vec<i64>, w: &Vec<i64>) -> (r: i64)
    requires
        v@.len() == w@.len(),
        vals_bounded(val_views(v@)),
        vals_bounded(val_views(w@)),
    ensures
        r as int == max_delta(val_views(v@), val_views(w@)),
        r >= 0,
{
    let ghost vv = val_views(v@);
    let ghost wv = val_views(w@);
    let mut best: i64 = 0;
    let mut k: usize = 0;
    while k < v.len()
        invariant
            k <= v@.len(),
            vv == val_views(v@),
            wv == val_views(w@),
            vv.len() == wv.len(),
            vals_bounded(vv),
            vals_bounded(wv),
            best as int == max_delta(vv.take(k as int), wv.take(k as int)),
            best >= 0,
        decreases v@.len() - k,
    {
        proof {
            assert(vv[k as int] == v@[k as int] as int);
            assert(wv[k as int] == w@[k as int] as int);
            assert(abs_i(vv[k as int]) <= VALUE_MAX as int);
            assert(abs_i(wv[k as int]) <= VALUE_MAX as int);
        }
        let a = v[k];
        let b = w[k];
        let d: i64 = if a >= b {
            a - b
        } else {
            b - a
        };
        if d > best {
            best = d;
        }
        proof {
            assert(vv.take(k + 1 as int).drop_last() =~= vv.take(k as int));
            assert(wv.take(k + 1 as int).drop_last() =~= wv.take(k as int));
            assert(vv.take(k + 1 as int).last() == vv[k as int]);
            assert(wv.take(k + 1 as int).last() == wv[k as int]);
        }
        k += 1;
    }
    proof {
        assert(vv.take(vv.len() as int) =~= vv);
        assert(wv.take(wv.len() as int) =~= wv);
    }
    best
}


/// The value-iteration working state: a value vector, its shadow copy from
/// the previous sweep, a read-only reference to the frozen graph, and the
/// fixed-point discount factor and convergence tolerance.
pub struct ValueIterationSolver<'a, S> {
    values: Vec<i64>,
    old_values: Vec<i64>,
    mdp: &'a Mdp<S>,
    discount: i64,
    tolerance: i64,
}

/// The mathematical content of a [`ValueIterationSolver`].
#[verifier::ext_equal]
pub ghost struct SolverView<S> {
    pub values: Seq<i64>,
    pub old_values: Seq<i64>,
    pub mdp: MdpView<S>,
    pub discount: int,
    pub tolerance: int,
}

impl<'a, S> View for ValueIterationSolver<'a, S> {
    type V = SolverView<S>;

    closed spec fn view(&self) -> SolverView<S> {
        SolverView {
            values: self.values@,
            old_values: self.old_values@,
            mdp: self.mdp@,
            discount: self.discount as int,
            tolerance: self.tolerance as int,
        }
    }
}

impl<S> SolverView<S> {
    /// The solver's working-state invariant: a sound bounded model, value
    /// vectors of the right length within the value bound, a discount
    /// strictly inside (0, 1), and a tolerance coarse enough to absorb the
    /// one-quantum rounding of each sweep.
    pub open spec fn wf(self) -> bool {
        &&& self.mdp.wf()
        &&& model_bounded(self.mdp.groups)
        &&& self.values.len() == self.mdp.states.len()
        &&& self.old_values.len() == self.mdp.states.len()
        &&& vals_bounded(val_views(self.values))
        &&& vals_bounded(val_views(self.old_values))
        &&& 1 <= self.discount <= SCALE - 1
        &&& 1 <= self.tolerance
        &&& ((SCALE as int) - self.discount) * self.tolerance > SCALE as int
    }
}

impl<'a, S> ValueIterationSolver<'a, S> {
    /// Wraps a frozen graph for solving: both value vectors start at zero.
    /// The discount and the tolerance are fixed-point; the tolerance must
    /// exceed `SCALE / (SCALE - discount)`, the one-quantum rounding floor
    /// below which a sweep's movement is not guaranteed to shrink.
    pub fn new(mdp: &'a Mdp<S>, discount: i64, tolerance: i64) -> (r: Self)
        requires
            mdp@.wf(),
            model_bounded(mdp@.groups),
            1 <= discount <= SCALE - 1,
            1 <= tolerance,
            ((SCALE as int) - discount) * tolerance > SCALE as int,
        ensures
            r@.wf(),
            r@.mdp == mdp@,
            r@.discount == discount,
            r@.tolerance == tolerance,
            r@.values.len() == mdp@.states.len(),
            forall|i: int| 0 <= i < r@.values.len() ==> r@.values[i] == 0,
            r@.old_values == r@.values,
    {
        let n = mdp.states().len();
        let mut values: Vec<i64> = Vec::new();
        let mut k: usize = 0;
        while k < n
            invariant
                k <= n,
                values@.len() == k,
                forall|i: int| 0 <= i < k ==> values@[i] == 0,
            decreases n - k,
        {
            values.push(0);
            k += 1;
        }
        let old_values = copy_values(&values);
        ValueIterationSolver { values, old_values, mdp, discount, tolerance }
    }

    /// One synchronous Bellman sweep: the current values become the shadow
    /// copy, and every state's value is recomputed from the shadow copy
    /// alone.
    fn iterate(&mut self)
        requires
            old(self)@.wf(),
        ensures
            final(self)@.wf(),
            final(self)@.mdp == old(self)@.mdp,
            final(self)@.discount == old(self)@.discount,
            final(self)@.tolerance == old(self)@.tolerance,
            final(self)@.old_values == old(self)@.values,
            val_views(final(self)@.values) == sweep(
                old(self)@.mdp.groups,
                val_views(old(self)@.values),
                old(self)@.discount,
            ),
    {
        let ghost mv = self.mdp@;
        let ghost v0 = self.values@;
        let ghost disc = self.discount as int;
        let ghost tol = self.tolerance as int;
        self.old_values = copy_values(&self.values);
        let mdp = self.mdp;
        let n = mdp.states().len();
        let ghost target = sweep(mv.groups, val_views(v0), disc);
        let mut i: usize = 0;
        while i < n
            invariant
                i <= n,
                mdp@ == mv,
                mv.wf(),
                model_bounded(mv.groups),
                n == mv.states.len(),
                1 <= disc <= SCALE - 1,
                self.mdp@ == mv,
                self.discount as int == disc,
                self.tolerance as int == tol,
                1 <= tol,
                ((SCALE as int) - disc) * tol > SCALE as int,
                self.old_values@ == v0,
                v0.len() == n,
                vals_bounded(val_views(v0)),
                target == sweep(mv.groups, val_views(v0), disc),
                self.values@.len() == n,
                forall|j: int| 0 <= j < i ==> (#[trigger] self.values@[j]) as int == target[j],
            decreases n - i,
        {
            let groups = mdp.actions(i);
            let ghost gv = mv.groups[i as int];
            let mut best: i64 = 0;
            if groups.len() > 0 {
                proof {
                    assert(group_views(groups@)[0] == gv[0]);
                    assert(group_bounded(gv[0], n as int));
                    assert(trans_views(groups@[0].1@) == gv[0].transitions);
                }
                best = group_q(&groups[0].1, &self.old_values, self.discount);
                let mut g: usize = 1;
                while g < groups.len()
                    invariant
                        1 <= g <= groups@.len(),
                        mv.wf(),
                        model_bounded(mv.groups),
                        (i as int) < mv.groups.len(),
                        group_views(groups@) == mv.groups[i as int],
                        gv == mv.groups[i as int],
                        n == mv.states.len(),
                        1 <= disc <= SCALE - 1,
                        self.discount as int == disc,
                        self.old_values@ == v0,
                        v0.len() == n,
                        vals_bounded(val_views(v0)),
                        best as int == best_q(gv.take(g as int), val_views(v0), disc),
                    decreases groups@.len() - g,
                {
                    proof {
                        assert(group_views(groups@)[g as int] == gv[g as int]);
                        assert(group_bounded(gv[g as int], n as int));
                        assert(trans_views(groups@[g as int].1@) == gv[g as int].transitions);
                    }
                    let q = group_q(&groups[g].1, &self.old_values, self.discount);
                    proof {
                        assert(gv.take(g + 1 as int).drop_last() =~= gv.take(g as int));
                        assert(gv.take(g + 1 as int).last() == gv[g as int]);
                        assert(gv.take(g + 1 as int).len() >= 2);
                    }
                    if best >= q {
                    } else {
                        best = q;
                    }
                    g += 1;
                }
                proof {
                    assert(gv.take(gv.len() as int) =~= gv);
                }
            } else {
                proof {
                    assert(gv.len() == 0);
                }
            }
            proof {
                assert(best as int == best_q(gv, val_views(v0), disc));
            }
            self.values.set(i, best);
            i += 1;
        }
        proof {
            assert(val_views(self.values@) =~= target);
            lemma_sweep_bounded(mv.groups, val_views(v0), disc);
        }
    }

    /// Repeats sweeps until the largest per-state move falls below the
    /// tolerance.  On return the values are exactly one sweep ahead of the
    /// shadow copy and the two differ by less than the tolerance; the
    /// contraction of [`lemma_sweep_contraction`] makes every sweep's
    /// movement strictly shrink until then, which is why this terminates.
    pub fn solve(&mut self)
        requires
            old(self)@.wf(),
        ensures
            final(self)@.wf(),
            final(self)@.mdp == old(self)@.mdp,
            final(self)@.discount == old(self)@.discount,
            final(self)@.tolerance == old(self)@.tolerance,
            val_views(final(self)@.values) == sweep(
                final(self)@.mdp.groups,
                val_views(final(self)@.old_values),
                final(self)@.discount,
            ),
            max_delta(val_views(final(self)@.values), val_views(final(self)@.old_values))
                < final(self)@.tolerance,
    {
        let ghost mv = self.mdp@;
        let ghost disc = self.discount as int;
        let ghost tol = self.tolerance as int;
        self.iterate();
        let mut delta = compute_delta(&self.values, &self.old_values);
        while delta >= self.tolerance
            invariant
                self@.wf(),
                self@.mdp == mv,
                self@.discount == disc,
                self@.tolerance == tol,
                val_views(self@.values) == sweep(mv.groups, val_views(self@.old_values), disc),
                delta as int == max_delta(
                    val_views(self@.values),
                    val_views(self@.old_values),
                ),
                delta >= 0,
            decreases delta,
        {
            let ghost d_old = delta as int;
            let ghost v_prev = self@.values;
            let ghost v_prev2 = self@.old_values;
            self.iterate();
            delta = compute_delta(&self.values, &self.old_values);
            proof {
                let s = SCALE as int;
                lemma_sweep_contraction(mv.groups, val_views(v_prev), val_views(v_prev2), disc);
                assert(delta as int <= (disc * d_old) / s + 1);
                // d_old >= tol and (s - disc) * tol > s force a strict drop.
                lemma_mul_inequality(tol, d_old, s - disc);
                assert((s - disc) * tol == tol * (s - disc)) by (nonlinear_arith);
                assert((s - disc) * d_old == d_old * (s - disc)) by (nonlinear_arith);
                assert(disc * d_old <= s * (d_old - 1) - 1) by (nonlinear_arith)
                    requires
                        (s - disc) * d_old > s,
                ;
                lemma_div_is_ordered(disc * d_old, s * (d_old - 1) - 1, s);
                lemma_hoist_over_denominator(-1, d_old - 1, s as nat);
                assert((-1 + (d_old - 1) * s) == s * (d_old - 1) - 1) by (nonlinear_arith);
                assert((s * (d_old - 1) - 1) / s == d_old - 2);
                assert(delta as int <= d_old - 1);
            }
        }
    }

    /// The current value vector, one entry per state (fixed-point).
    pub fn values(&self) -> (r: &Vec<i64>)
        ensures
            r@ == self@.values,
    {
        &self.values
    }
}


/// The index of the adjacency group whose expected value the backup keeps:
/// the earliest maximizer under the left-to-right fold.
pub open spec fn best_group(groups: Seq<GroupView>, vals: Seq<int>, discount: int) -> int
    decreases groups.len(),
{
    if groups.len() <= 1 {
        0
    } else {
        let p = best_group(groups.drop_last(), vals, discount);
        if best_q(groups.drop_last(), vals, discount) >= q_value(
            groups.last().transitions,
            vals,
            discount,
        ) {
            p
        } else {
            groups.len() - 1
        }
    }
}

/// What policy extraction selects at one state: no action where none is
/// enabled, else the identity of the earliest action of maximal expected
/// value.
pub open spec fn spec_policy_entry(
    groups: Seq<GroupView>,
    vals: Seq<int>,
    discount: int,
) -> Option<crate::model::ActionBoxView> {
    if groups.len() == 0 {
        None
    } else {
        Some(groups[best_group(groups, vals, discount)].action)
    }
}

/// Policy soundness: at every state with at least one enabled action, the
/// selected action's expected value is the backup's maximum, at least that
/// of every other enabled action there.
pub proof fn lemma_best_group_sound(groups: Seq<GroupView>, vals: Seq<int>, discount: int)
    requires
        groups.len() > 0,
    ensures
        0 <= best_group(groups, vals, discount) < groups.len(),
        q_value(groups[best_group(groups, vals, discount)].transitions, vals, discount) == best_q(
            groups,
            vals,
            discount,
        ),
        forall|g: int|
            0 <= g < groups.len() ==> q_value(#[trigger] groups[g].transitions, vals, discount)
                <= best_q(groups, vals, discount),
    decreases groups.len(),
{
    if groups.len() > 1 {
        let front = groups.drop_last();
        assert(forall|g: int| 0 <= g < front.len() ==> front[g] == groups[g]);
        lemma_best_group_sound(front, vals, discount);
    }
}

impl<'a, S> ValueIterationSolver<'a, S> {
    /// Extracts the policy: for every state, the expected value of each
    /// enabled action is recomputed from the converged values, and the
    /// earliest action of maximal expected value is selected; a state with
    /// no enabled action gets `None`.
    pub fn get_policy(&self) -> (r: Policy)
        requires
            self@.wf(),
        ensures
            r@.len() == self@.mdp.states.len(),
            forall|i: int| 0 <= i < r@.len() ==> r@[i] == spec_policy_entry(
                self@.mdp.groups[i],
                val_views(self@.values),
                self@.discount,
            ),
    {
        let ghost mv = self.mdp@;
        let ghost vv = val_views(self.values@);
        let ghost disc = self.discount as int;
        let mdp = self.mdp;
        let n = mdp.states().len();
        let mut actions: Vec<Option<ActionBox>> = Vec::new();
        let mut i: usize = 0;
        while i < n
            invariant
                i <= n,
                mdp@ == mv,
                mv.wf(),
                model_bounded(mv.groups),
                n == mv.states.len(),
                1 <= disc <= SCALE - 1,
                self.mdp@ == mv,
                self.discount as int == disc,
                vv == val_views(self.values@),
                vv.len() == n,
                vals_bounded(vv),
                actions@.len() == i,
                forall|j: int| 0 <= j < i ==> policy_entry_view(#[trigger] actions@[j])
                    == spec_policy_entry(mv.groups[j], vv, disc),
            decreases n - i,
        {
            let groups = mdp.actions(i);
            let ghost gv = mv.groups[i as int];
            if groups.len() == 0 {
                actions.push(None);
            } else {
                proof {
                    assert(group_views(groups@)[0] == gv[0]);
                    assert(group_bounded(gv[0], n as int));
                    assert(trans_views(groups@[0].1@) == gv[0].transitions);
                }
                let mut best: i64 = group_q(&groups[0].1, self.values(), self.discount);
                let mut best_idx: usize = 0;
                let mut g: usize = 1;
                while g < groups.len()
                    invariant
                        1 <= g <= groups@.len(),
                        best_idx < g,
                        mv.wf(),
                        model_bounded(mv.groups),
                        (i as int) < mv.groups.len(),
                        group_views(groups@) == mv.groups[i as int],
                        gv == mv.groups[i as int],
                        n == mv.states.len(),
                        1 <= disc <= SCALE - 1,
                        self.discount as int == disc,
                        vv == val_views(self.values@),
                        vv.len() == n,
                        vals_bounded(vv),
                        best as int == best_q(gv.take(g as int), vv, disc),
                        best_idx as int == best_group(gv.take(g as int), vv, disc),
                    decreases groups@.len() - g,
                {
                    proof {
                        assert(group_views(groups@)[g as int] == gv[g as int]);
                        assert(group_bounded(gv[g as int], n as int));
                        assert(trans_views(groups@[g as int].1@) == gv[g as int].transitions);
                    }
                    let q = group_q(&groups[g].1, self.values(), self.discount);
                    proof {
                        assert(gv.take(g + 1 as int).drop_last() =~= gv.take(g as int));
                        assert(gv.take(g + 1 as int).last() == gv[g as int]);
                        assert(gv.take(g + 1 as int).len() >= 2);
                    }
                    if best >= q {
                    } else {
                        best = q;
                        best_idx = g;
                    }
                    g += 1;
                }
                proof {
                    assert(gv.take(gv.len() as int) =~= gv);
                }
                let chosen = groups[best_idx].0.clone();
                proof {
                    assert(group_views(groups@)[best_idx as int] == gv[best_idx as int]);
                    assert(chosen@ == gv[best_idx as int].action);
                }
                actions.push(Some(chosen));
            }
            i += 1;
        }
        let r = Policy::new(actions);
        proof {
            assert(r@.len() == n as int);
            assert forall|j: int| 0 <= j < r@.len() implies r@[j] == spec_policy_entry(
                mv.groups[j],
                vv,
                disc,
            ) by {
                assert(r@[j] == policy_entry_view(actions@[j]));
            }
        }
        r
    }
}


/// The largest per-state difference does not depend on the order of its
/// arguments.
pub proof fn lemma_max_delta_sym(v: Seq<int>, w: Seq<int>)
    requires
        v.len() == w.len(),
    ensures
        max_delta(v, w) == max_delta(w, v),
    decreases v.len(),
{
    if v.len() > 0 {
        lemma_max_delta_sym(v.drop_last(), w.drop_last());
    }
}

/// The converged values satisfy the Bellman optimality equation within the
/// tolerance: when a vector is one sweep ahead of its shadow copy and moved
/// by less than the tolerance, backing it up once more moves every state by
/// less than the tolerance again.
pub proof fn lemma_bellman_residual(
    groups: Seq<Seq<GroupView>>,
    v: Seq<int>,
    w: Seq<int>,
    discount: int,
    tol: int,
)
    requires
        model_bounded(groups),
        v.len() == groups.len(),
        w.len() == groups.len(),
        v == sweep(groups, w, discount),
        max_delta(v, w) < tol,
        1 <= discount <= SCALE - 1,
        1 <= tol,
        ((SCALE as int) - discount) * tol > SCALE as int,
    ensures
        forall|i: int|
            0 <= i < v.len() ==> abs_i(v[i] - best_q(#[trigger] groups[i], v, discount)) < tol,
{
    let s = SCALE as int;
    lemma_max_delta_sym(v, w);
    lemma_sweep_contraction(groups, w, v, discount);
    let d = max_delta(w, v);
    let sv = sweep(groups, v, discount);
    lemma_max_delta_ge(v, sv);
    lemma_max_delta_ge(sweep(groups, w, discount), sv);
    // tol == 1 would force discount < 0, so tol >= 2 and d <= tol - 1.
    assert(tol >= 2) by (nonlinear_arith)
        requires
            ((SCALE as int) - discount) * tol > SCALE as int,
            1 <= discount <= SCALE - 1,
            1 <= tol,
            s == SCALE as int,
    ;
    assert(discount * d <= s * (tol - 1) - 1) by (nonlinear_arith)
        requires
            0 <= d <= tol - 1,
            1 <= discount <= s - 1,
            2 <= tol,
            s >= 2,
    ;
    lemma_max_delta_ge(w, v);
    assert(0 <= discount * d) by (nonlinear_arith)
        requires
            0 <= d,
            0 <= discount,
    ;
    lemma_div_is_ordered(discount * d, s * (tol - 1) - 1, s);
    lemma_hoist_over_denominator(-1, tol - 1, s as nat);
    assert((-1 + (tol - 1) * s) == s * (tol - 1) - 1) by (nonlinear_arith);
    assert((s * (tol - 1) - 1) / s == tol - 2);
    assert(max_delta(v, sv) <= (discount * d) / s + 1);
    assert forall|i: int|
        0 <= i < v.len() implies abs_i(v[i] - best_q(#[trigger] groups[i], v, discount)) < tol by {
        assert(sv[i] == best_q(groups[i], v, discount));
        assert(abs_i(v[i] - sv[i]) <= max_delta(v, sv));
    }
}


/// Decides, by one scan of the frozen graph, whether the solver's
/// arithmetic bounds hold of it: every probability within one unit, every
/// reward within the reward bound, every target index valid, and every
/// action's branch probabilities summing to at most one unit.
pub fn model_is_bounded<S>(m: &Mdp<S>) -> (r: bool)
    requires
        m@.wf(),
    ensures
        r == model_bounded(m@.groups),
{
    let ghost gs = m@.groups;
    let n = m.states().len();
    let mut i: usize = 0;
    while i < n
        invariant
            i <= n,
            gs == m@.groups,
            m@.wf(),
            n == m@.states.len(),
            forall|i2: int, g2: int|
                0 <= i2 < i && 0 <= g2 < gs[i2].len() ==> group_bounded(
                    #[trigger] gs[i2][g2],
                    gs.len() as int,
                ),
        decreases n - i,
    {
        let groups = m.actions(i);
        let mut g: usize = 0;
        while g < groups.len()
            invariant
                g <= groups@.len(),
                gs == m@.groups,
                m@.wf(),
                n == m@.states.len(),
                (i as int) < gs.len(),
                group_views(groups@) == gs[i as int],
                forall|g2: int|
                    0 <= g2 < g ==> group_bounded(#[trigger] gs[i as int][g2], gs.len() as int),
            decreases groups@.len() - g,
        {
            let ghost gv = gs[i as int][g as int];
            proof {
                assert(group_views(groups@)[g as int] == gv);
                assert(trans_views(groups@[g as int].1@) == gv.transitions);
            }
            let transitions = &groups[g].1;
            let mut acc: i128 = 0;
            let mut k: usize = 0;
            while k < transitions.len()
                invariant
                    k <= transitions@.len(),
                    gv.transitions == trans_views(transitions@),
                    n == m@.states.len(),
                    gs == m@.groups,
                    gs.len() == m@.states.len(),
                    (i as int) < gs.len(),
                    (g as int) < gs[i as int].len(),
                    gv == gs[i as int][g as int],
                    forall|k2: int|
                        0 <= k2 < k ==> trans_bounded(
                            #[trigger] gv.transitions[k2],
                            gs.len() as int,
                        ),
                    acc as int == prob_sum(gv.transitions.take(k as int)),
                    0 <= acc <= (k as i128) * (SCALE as i128),
                decreases transitions@.len() - k,
            {
                let t = &transitions[k];
                proof {
                    assert(t@ == gv.transitions[k as int]);
                }
                let p = t.probability();
                let rw = t.reward();
                let to = t.to();
                if !(0 <= p && p <= SCALE && -REWARD_MAX <= rw && rw <= REWARD_MAX && to < n) {
                    proof {
                        assert(!trans_bounded(gv.transitions[k as int], gs.len() as int));
                        assert(!group_bounded(gv, gs.len() as int));
                        assert(!model_bounded(gs)) by {
                            if model_bounded(gs) {
                                assert(group_bounded(gs[i as int][g as int], gs.len() as int));
                            }
                        }
                    }
                    return false;
                }
                proof {
                    assert(acc + p as i128 <= ((k + 1) as i128) * (SCALE as i128))
                        by (nonlinear_arith)
                        requires
                            0 <= acc <= (k as i128) * (SCALE as i128),
                            0 <= p as i128 <= SCALE as i128,
                    ;
                }
                acc = acc + p as i128;
                proof {
                    assert(gv.transitions.take(k + 1 as int).drop_last() =~= gv.transitions.take(
                        k as int,
                    ));
                    assert(gv.transitions.take(k + 1 as int).last() == gv.transitions[k as int]);
                }
                k += 1;
            }
            proof {
                assert(gv.transitions.take(gv.transitions.len() as int) =~= gv.transitions);
            }
            if acc > SCALE as i128 {
                proof {
                    assert(!group_bounded(gv, gs.len() as int));
                    assert(!model_bounded(gs)) by {
                        if model_bounded(gs) {
                            assert(group_bounded(gs[i as int][g as int], gs.len() as int));
                        }
                    }
                }
                return false;
            }
            g += 1;
        }
        i += 1;
    }
    true
}


/// The total probability mass of one action's candidate list.
pub open spec fn results_prob_sum<S>(results: Seq<crate::model::ActionResult<S>>) -> int
    decreases results.len(),
{
    if results.len() == 0 {
        0
    } else {
        results_prob_sum(results.drop_last()) + results.last().probability
    }
}

/// A resolved candidate list carries exactly its candidates' mass.
pub proof fn lemma_block_prob_sum<S, P, O>(
    from: int,
    a: ActionView<P, O>,
    results: Seq<crate::model::ActionResult<S>>,
    states: Seq<S>,
)
    ensures
        prob_sum(results_tvs(from, a, results, states)) == results_prob_sum(results),
    decreases results.len(),
{
    if results.len() > 0 {
        let front = results.drop_last();
        lemma_block_prob_sum(from, a, front, states);
        let tvs = results_tvs(from, a, results, states);
        assert(tvs.drop_last() =~= results_tvs(from, a, front, states));
        assert(tvs.last() == result_tv(from, a, results.last(), states));
    }
}

/// Every outcome branch of every declared action yields a probability
/// within one unit and a reward within the reward bound, whatever the
/// state.
pub open spec fn outcomes_bounded<S, P, O: crate::model::Outcome<S>>(
    av: Seq<ActionView<P, O>>,
) -> bool {
    forall|k: int, b: int, s: S|
        0 <= k < av.len() && 0 <= b < av[k].outcomes.len() ==> {
            let res = (#[trigger] av[k].outcomes[b].spec_apply(s));
            0 <= res.probability <= SCALE && abs_i(res.reward as int) <= REWARD_MAX as int
        }
}

/// Every declared action's branch probabilities sum to at most one unit,
/// whatever the state.
pub open spec fn outcome_mass_bounded<S, P, O: crate::model::Outcome<S>>(
    av: Seq<ActionView<P, O>>,
) -> bool {
    forall|k: int, s: S|
        0 <= k < av.len() ==> results_prob_sum(
            #[trigger] crate::model::branch_results(av[k].outcomes, s),
        ) <= SCALE as int
}

/// Each group of a state's adjacency is one declared action's group.
proof fn lemma_enabled_groups_elem<S, P: crate::model::Precondition<S>, O: crate::model::Outcome<
    S,
>>(av: Seq<ActionView<P, O>>, s: S, i: int, states: Seq<S>)
    ensures
        forall|g: int|
            0 <= g < enabled_groups(av, s, i, states).len() ==> exists|k: int|
                0 <= k < av.len() && crate::model::preconds_hold(#[trigger] av[k].preconditions, s)
                    && av[k].outcomes.len() > 0 && (#[trigger] enabled_groups(av, s, i, states)[g])
                    == (GroupView {
                    action: abox_of(av[k]),
                    transitions: action_block(av[k], s, i, states),
                }),
    decreases av.len(),
{
    if av.len() > 0 {
        let rest = av.skip(1);
        assert(forall|k: int| 0 <= k < rest.len() ==> rest[k] == av[k + 1]);
        lemma_enabled_groups_elem(rest, s, i, states);
        let eg = enabled_groups(av, s, i, states);
        let eg_rest = enabled_groups(rest, s, i, states);
        assert forall|g: int| 0 <= g < eg.len() implies exists|k: int|
            0 <= k < av.len() && crate::model::preconds_hold(#[trigger] av[k].preconditions, s)
                && av[k].outcomes.len() > 0 && (#[trigger] enabled_groups(av, s, i, states)[g])
                == (GroupView {
                action: abox_of(av[k]),
                transitions: action_block(av[k], s, i, states),
            }) by {
            if crate::model::preconds_hold(av[0].preconditions, s) && av[0].outcomes.len() > 0 {
                if g == 0 {
                    assert(eg[0] == (GroupView {
                        action: abox_of(av[0]),
                        transitions: action_block(av[0], s, i, states),
                    }));
                    assert(crate::model::preconds_hold(av[0].preconditions, s)
                        && av[0].outcomes.len() > 0);
                } else {
                    assert(eg[g] == eg_rest[g - 1]);
                    let k0 = choose|k0: int|
                        0 <= k0 < rest.len() && crate::model::preconds_hold(
                            #[trigger] rest[k0].preconditions,
                            s,
                        ) && rest[k0].outcomes.len() > 0 && eg_rest[g - 1] == (GroupView {
                            action: abox_of(rest[k0]),
                            transitions: action_block(rest[k0], s, i, states),
                        });
                    assert(av[k0 + 1] == rest[k0]);
                    assert(crate::model::preconds_hold(av[k0 + 1].preconditions, s));
                }
            } else {
                assert(eg[g] == eg_rest[g]);
                let k0 = choose|k0: int|
                    0 <= k0 < rest.len() && crate::model::preconds_hold(
                        #[trigger] rest[k0].preconditions,
                        s,
                    ) && rest[k0].outcomes.len() > 0 && eg_rest[g] == (GroupView {
                        action: abox_of(rest[k0]),
                        transitions: action_block(rest[k0], s, i, states),
                    });
                assert(av[k0 + 1] == rest[k0]);
                assert(crate::model::preconds_hold(av[k0 + 1].preconditions, s));
            }
        }
    }
}

/// A graph built from declarations with distinct identities, bounded
/// branches and bounded per-action mass satisfies the solver's arithmetic
/// bounds outright.
pub proof fn lemma_built_model_bounded<S, P: crate::model::Precondition<S>, O: crate::model::Outcome<
    S,
>>(m: MdpView<S>, initial: S, av: Seq<ActionView<P, O>>)
    requires
        m.is_built_from(initial, av),
        distinct_identities(av),
        outcomes_bounded(av),
        outcome_mass_bounded(av),
    ensures
        model_bounded(m.groups),
{
    lemma_built_from_wf(m, initial, av);
    lemma_built_from_exact(m, initial, av);
    assert forall|i: int, g: int|
        0 <= i < m.groups.len() && 0 <= g < m.groups[i].len() implies group_bounded(
        #[trigger] m.groups[i][g],
        m.groups.len() as int,
    ) by {
        let s = m.states[i];
        lemma_groups_of_expansion(av, s, i, m.states);
        assert(m.groups[i] == enabled_groups(av, s, i, m.states));
        lemma_enabled_groups_elem(av, s, i, m.states);
        let k = choose|k: int|
            0 <= k < av.len() && crate::model::preconds_hold(#[trigger] av[k].preconditions, s)
                && av[k].outcomes.len() > 0 && enabled_groups(av, s, i, m.states)[g] == (GroupView {
                action: abox_of(av[k]),
                transitions: action_block(av[k], s, i, m.states),
            });
        let grp = m.groups[i][g];
        let results = crate::model::branch_results(av[k].outcomes, s);
        assert(grp.transitions == results_tvs(i, av[k], results, m.states));
        assert forall|t: int| 0 <= t < grp.transitions.len() implies trans_bounded(
            #[trigger] grp.transitions[t],
            m.groups.len() as int,
        ) by {
            assert(grp.transitions[t] == result_tv(i, av[k], results[t], m.states));
            assert(results[t] == av[k].outcomes[t].spec_apply(s));
            // The target index is valid by the graph's well-formedness.
            assert(crate::mdp::group_wf(grp, i, m.states.len() as int));
        }
        lemma_block_prob_sum(i, av[k], results, m.states);
    }
}


/// Each sweep's largest per-state move is non-increasing: backing up
/// against two value vectors never drives them farther apart than they
/// were.  In particular, successive sweeps' deltas never grow.
pub proof fn lemma_sweep_delta_nonincreasing(
    groups: Seq<Seq<GroupView>>,
    v: Seq<int>,
    w: Seq<int>,
    discount: int,
)
    requires
        model_bounded(groups),
        v.len() == groups.len(),
        w.len() == groups.len(),
        1 <= discount <= SCALE - 1,
    ensures
        max_delta(sweep(groups, v, discount), sweep(groups, w, discount)) <= max_delta(v, w),
{
    let s = SCALE as int;
    let d = max_delta(v, w);
    lemma_max_delta_ge(v, w);
    if d == 0 {
        assert(v =~= w);
        lemma_max_delta_le(sweep(groups, v, discount), sweep(groups, w, discount), 0);
    } else {
        lemma_sweep_contraction(groups, v, w, discount);
        assert(discount * d <= s * d - 1) by (nonlinear_arith)
            requires
                1 <= d,
                1 <= discount <= s - 1,
                2 <= s,
        ;
        lemma_div_is_ordered(discount * d, s * d - 1, s);
        lemma_hoist_over_denominator(-1, d, s as nat);
        assert((-1 + d * s) == s * d - 1) by (nonlinear_arith);
        assert((s * d - 1) / s == d - 1);
    }
}

} // verus!
