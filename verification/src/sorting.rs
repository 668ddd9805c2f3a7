//! Stable ordering of matched rules by specificity.

use vstd::prelude::*;
use crate::style::{is_weaker, weaker, MatchedRule};

verus! {

/// Some place of `p` holds `i`.
pub open spec fn reaches(p: Seq<int>, i: int) -> bool {
    exists|k: int| 0 <= k < p.len() && #[trigger] p[k] == i
}

/// The rules stand in ascending order of specificity.
pub open spec fn ascending<'a>(rules: Seq<MatchedRule<'a>>) -> bool {
    forall|k1: int, k2: int|
        #![trigger rules[k1], rules[k2]]
        0 <= k1 < k2 < rules.len() ==> !weaker(rules[k2].0, rules[k1].0)
}

/// `after` holds the items of `before` in ascending order of specificity,
/// those of equal specificity in the order they had in `before`; `p[k]` is
/// the place in `before` of the item at place `k` of `after`.
pub open spec fn stably_orders<'a>(
    before: Seq<MatchedRule<'a>>,
    after: Seq<MatchedRule<'a>>,
    p: Seq<int>,
) -> bool {
    &&& after.len() == before.len()
    &&& p.len() == before.len()
    &&& forall|k: int|
        0 <= k < p.len() ==> 0 <= #[trigger] p[k] < before.len() && after[k] == before[p[k]]
    &&& forall|i: int| 0 <= i < before.len() ==> #[trigger] reaches(p, i)
    &&& forall|k1: int, k2: int|
        #![trigger after[k1], after[k2]]
        0 <= k1 < k2 < p.len() ==> !weaker(after[k2].0, after[k1].0) && (after[k1].0
            == after[k2].0 ==> p[k1] < p[k2])
}

/// Where two runs were each put in stable order and then merged in stable
/// order, the whole is in stable order: `p` traces each item through the
/// merge and through the ordering of its run.
proof fn lemma_stable_orders_compose<'a>(
    first: Seq<MatchedRule<'a>>,
    second: Seq<MatchedRule<'a>>,
    left: Seq<MatchedRule<'a>>,
    right: Seq<MatchedRule<'a>>,
    merged: Seq<MatchedRule<'a>>,
    pl: Seq<int>,
    pr: Seq<int>,
    pm: Seq<int>,
) -> (p: Seq<int>)
    requires
        stably_orders(first, left, pl),
        stably_orders(second, right, pr),
        stably_orders(left + right, merged, pm),
    ensures
        stably_orders(first + second, merged, p),
{
    let whole = first + second;
    let runs = left + right;
    let p = Seq::new(
        merged.len(),
        |k: int|
            if pm[k] < left.len() {
                pl[pm[k]]
            } else {
                first.len() + pr[pm[k] - left.len()]
            },
    );
    assert forall|k: int| 0 <= k < p.len() implies 0 <= #[trigger] p[k] < whole.len() && merged[k]
        == whole[p[k]] by {
        let m = pm[k];
        assert(merged[k] == runs[m]);
        if m < left.len() {
            assert(left[m] == first[pl[m]]);
        } else {
            assert(right[m - left.len()] == second[pr[m - left.len()]]);
        }
    }
    assert forall|i: int| 0 <= i < whole.len() implies #[trigger] reaches(p, i) by {
        let m = if i < first.len() {
            assert(reaches(pl, i));
            choose|m: int| 0 <= m < pl.len() && pl[m] == i
        } else {
            assert(reaches(pr, i - first.len()));
            let m = choose|m: int| 0 <= m < pr.len() && pr[m] == i - first.len();
            left.len() + m
        };
        assert(reaches(pm, m));
        let k = choose|k: int| 0 <= k < pm.len() && pm[k] == m;
        assert(p[k] == i);
    }
    assert forall|k1: int, k2: int|
        #![trigger merged[k1], merged[k2]]
        0 <= k1 < k2 < p.len() implies !weaker(merged[k2].0, merged[k1].0) && (merged[k1].0
        == merged[k2].0 ==> p[k1] < p[k2]) by {
        if merged[k1].0 == merged[k2].0 {
            let m1 = pm[k1];
            let m2 = pm[k2];
            assert(m1 < m2);
            assert(merged[k1] == runs[m1] && merged[k2] == runs[m2]);
            if m2 < left.len() {
                assert(left[m1].0 == left[m2].0);
            } else if m1 >= left.len() {
                assert(right[m1 - left.len()].0 == right[m2 - left.len()].0);
            } else {
                assert(0 <= pl[m1] < first.len());
                assert(0 <= pr[m2 - left.len()]);
            }
        }
    }
    p
}

/// Merges two runs that are each in ascending order of specificity into
/// one; of two items of equal specificity, one from `left` comes before one
/// from `right`.
fn merge<'a>(left: &Vec<MatchedRule<'a>>, right: &Vec<MatchedRule<'a>>) -> (merged: Vec<
    MatchedRule<'a>,
>)
    requires
        ascending(left@),
        ascending(right@),
    ensures
        exists|p: Seq<int>| stably_orders(left@ + right@, merged@, p),
{
    let ghost runs = left@ + right@;
    let ghost mut p: Seq<int> = Seq::empty();
    let mut merged: Vec<MatchedRule<'a>> = Vec::new();
    let mut i: usize = 0;
    let mut j: usize = 0;
    while i < left.len() || j < right.len()
        invariant
            ascending(left@),
            ascending(right@),
            runs == left@ + right@,
            i <= left.len(),
            j <= right.len(),
            merged.len() == i + j,
            p.len() == i + j,
            forall|k: int|
                0 <= k < p.len() ==> merged@[k] == runs[#[trigger] p[k]] && (0 <= p[k] < i
                    || left.len() <= p[k] < left.len() + j),
            forall|m: int| 0 <= m < i ==> #[trigger] reaches(p, m),
            forall|m: int| left.len() <= m < left.len() + j ==> #[trigger] reaches(p, m),
            forall|k1: int, k2: int|
                #![trigger merged@[k1], merged@[k2]]
                0 <= k1 < k2 < p.len() ==> !weaker(merged@[k2].0, merged@[k1].0) && (merged@[k1].0
                    == merged@[k2].0 ==> p[k1] < p[k2]),
            forall|k: int, m: int|
                #![trigger merged@[k], left@[m]]
                0 <= k < p.len() && i <= m < left.len() ==> !weaker(left@[m].0, merged@[k].0) && (
                p[k] >= left.len() ==> weaker(merged@[k].0, left@[m].0)),
            forall|k: int, m: int|
                #![trigger merged@[k], right@[m]]
                0 <= k < p.len() && j <= m < right.len() ==> !weaker(right@[m].0, merged@[k].0),
        decreases left.len() - i + (right.len() - j),
    {
        let from_left = if i == left.len() {
            false
        } else if j == right.len() {
            true
        } else {
            !is_weaker(&right[j].0, &left[i].0)
        };
        if from_left {
            merged.push(left[i]);
            proof {
                lemma_push_reaches(p, i as int);
                p = p.push(i as int);
            }
            i += 1;
        } else {
            merged.push(right[j]);
            proof {
                lemma_push_reaches(p, left.len() + j);
                p = p.push(left.len() + j);
            }
            j += 1;
        }
    }
    assert(stably_orders(runs, merged@, p));
    merged
}

/// What `p` reaches it still reaches with `place` added, and `place` too.
proof fn lemma_push_reaches(p: Seq<int>, place: int)
    ensures
        reaches(p.push(place), place),
        forall|m: int| reaches(p, m) ==> #[trigger] reaches(p.push(place), m),
{
    assert(p.push(place)[p.len() as int] == place);
    assert forall|m: int| reaches(p, m) implies #[trigger] reaches(p.push(place), m) by {
        let k = choose|k: int| 0 <= k < p.len() && p[k] == m;
        assert(p.push(place)[k] == m);
    }
}

/// Puts the rules from place `from` up to place `to` in stable order.
fn sorted_run<'a>(rules: &Vec<MatchedRule<'a>>, from: usize, to: usize) -> (sorted: Vec<
    MatchedRule<'a>,
>)
    requires
        from <= to <= rules.len(),
    ensures
        exists|p: Seq<int>| stably_orders(rules@.subrange(from as int, to as int), sorted@, p),
    decreases to - from,
{
    let ghost run = rules@.subrange(from as int, to as int);
    if to - from <= 1 {
        let mut sorted: Vec<MatchedRule<'a>> = Vec::new();
        if from < to {
            sorted.push(rules[from]);
        }
        proof {
            let p = Seq::new(run.len(), |k: int| k);
            assert forall|i: int| 0 <= i < run.len() implies #[trigger] reaches(p, i) by {
                assert(p[i] == i);
            }
            assert(stably_orders(run, sorted@, p));
        }
        sorted
    } else {
        let middle: usize = from + (to - from) / 2;
        let left = sorted_run(rules, from, middle);
        let right = sorted_run(rules, middle, to);
        let merged = merge(&left, &right);
        proof {
            let first = rules@.subrange(from as int, middle as int);
            let second = rules@.subrange(middle as int, to as int);
            assert(first + second =~= run);
            let pl = choose|p: Seq<int>| stably_orders(first, left@, p);
            let pr = choose|p: Seq<int>| stably_orders(second, right@, p);
            let pm = choose|p: Seq<int>| stably_orders(left@ + right@, merged@, p);
            let p = lemma_stable_orders_compose(
                first,
                second,
                left@,
                right@,
                merged@,
                pl,
                pr,
                pm,
            );
            assert(stably_orders(run, merged@, p));
        }
        merged
    }
}

/// Sorts matched rules by ascending specificity and keeps rules of equal
/// specificity in the order in which they came.
pub fn sort_by_specificity<'a>(rules: &mut Vec<MatchedRule<'a>>)
    ensures
        exists|p: Seq<int>| stably_orders(old(rules)@, final(rules)@, p),
{
    let sorted = sorted_run(rules, 0, rules.len());
    assert(rules@.subrange(0, rules.len() as int) =~= rules@);
    *rules = sorted;
}

} // verus!
