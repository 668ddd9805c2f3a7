//! The cascade: what the rules matched for an element resolve to.
//!
//! Each property that a matched rule sets takes the value of one
//! declaration, the one to which all others that set the property give way.
//! A declaration gives way to one from a rule of higher specificity, to one
//! from a later rule of the same specificity, and to a later one in its own
//! rule.

use vstd::prelude::*;
use vstd::hash_map::StringHashMap;
use crate::content_tree::ElementData;
use crate::sorting::{ascending, reaches, sort_by_specificity, stably_orders};
use crate::style::{lemma_matching_keeps_order, weaker, MatchedRule, Stylesheet, Value};

verus! {

/// The resolved properties of one node, by property name.
pub type PropertyMap = StringHashMap<Value>;

/// Declaration `j` of matched rule `i` sets the property `name`.
pub open spec fn declares<'a>(
    matched: Seq<MatchedRule<'a>>,
    i: int,
    j: int,
    name: Seq<char>,
) -> bool {
    &&& 0 <= i < matched.len()
    &&& 0 <= j < matched[i].1.declarations@.len()
    &&& matched[i].1.declarations@[j].name@ == name
}

/// Some matched rule sets the property `name`.
pub open spec fn declared<'a>(matched: Seq<MatchedRule<'a>>, name: Seq<char>) -> bool {
    exists|i: int, j: int| declares(matched, i, j, name)
}

/// The value that declaration `j` of matched rule `i` gives.
pub open spec fn value_at<'a>(matched: Seq<MatchedRule<'a>>, i: int, j: int) -> Value {
    matched[i].1.declarations@[j].value
}

/// Declaration `j1` of matched rule `i1` gives way to declaration `j2` of
/// matched rule `i2`: its rule is of lower specificity, or of the same
/// specificity and comes earlier, or both stand in one rule and it is not
/// the later of the two.
pub open spec fn yields<'a>(
    matched: Seq<MatchedRule<'a>>,
    i1: int,
    j1: int,
    i2: int,
    j2: int,
) -> bool {
    ||| weaker(matched[i1].0, matched[i2].0)
    ||| matched[i1].0 == matched[i2].0 && i1 < i2
    ||| i1 == i2 && j1 <= j2
}

/// Declaration `j` of matched rule `i` sets `name`, and every declaration
/// that sets `name` gives way to it.
pub open spec fn wins<'a>(matched: Seq<MatchedRule<'a>>, i: int, j: int, name: Seq<char>) -> bool {
    &&& declares(matched, i, j, name)
    &&& forall|i2: int, j2: int| #[trigger]
        declares(matched, i2, j2, name) ==> yields(matched, i2, j2, i, j)
}

/// What the matched rules resolve to: every property that one of them sets,
/// with the value of the declaration that wins it.
pub open spec fn cascade<'a>(matched: Seq<MatchedRule<'a>>) -> Map<Seq<char>, Value> {
    Map::new(
        |name: Seq<char>| declared(matched, name),
        |name: Seq<char>|
            {
                let (i, j) = choose|i: int, j: int| wins(matched, i, j, name);
                value_at(matched, i, j)
            },
    )
}

/// Resolves matched rules to one value for each property that they set.
///
/// The rules are put in ascending order of specificity, those of equal
/// specificity staying as they came, and then read in that order, each
/// declaration replacing what was set for its property before.
pub fn resolve_matched<'a>(matched: Vec<MatchedRule<'a>>) -> (values: PropertyMap)
    ensures
        values@ == cascade(matched@),
{
    let mut rules = matched;
    sort_by_specificity(&mut rules);
    let mut values: PropertyMap = StringHashMap::new();
    let mut r: usize = 0;
    while r < rules.len()
        invariant
            r <= rules.len(),
            values@ == merged(rules@, r as int, 0),
        decreases rules.len() - r,
    {
        let rule = rules[r].1;
        let mut d: usize = 0;
        while d < rule.declarations.len()
            invariant
                r < rules.len(),
                *rule == *rules@[r as int].1,
                d <= rule.declarations.len(),
                values@ == merged(rules@, r as int, d as int),
            decreases rule.declarations.len() - d,
        {
            let declaration = &rule.declarations[d];
            values.insert(declaration.name.clone(), declaration.value.clone());
            d += 1;
        }
        r += 1;
    }
    proof {
        let p = choose|p: Seq<int>| stably_orders(matched@, rules@, p);
        lemma_stable_order_keeps_cascade(matched@, rules@, p);
        lemma_merged_is_cascade(rules@);
    }
    values
}

/// A property takes the value of the declaration that wins it.
pub proof fn lemma_winner_gives_value<'a>(
    matched: Seq<MatchedRule<'a>>,
    i: int,
    j: int,
    name: Seq<char>,
)
    requires
        wins(matched, i, j, name),
    ensures
        cascade(matched).contains_key(name),
        cascade(matched)[name] == value_at(matched, i, j),
{
    let (ci, cj) = choose|ci: int, cj: int| wins(matched, ci, cj, name);
    assert(yields(matched, i, j, ci, cj));
    assert(yields(matched, ci, cj, i, j));
}

/// Every property that is set has a declaration that wins it.
pub proof fn lemma_winner_exists<'a>(matched: Seq<MatchedRule<'a>>, name: Seq<char>)
    requires
        declared(matched, name),
    ensures
        exists|i: int, j: int| wins(matched, i, j, name),
{
    let (i, j) = choose|i: int, j: int| declares(matched, i, j, name);
    assert(declares(matched, i, j, name) && before(i, j, matched.len() as int, 0));
    let top = lemma_leader_before(matched, name, matched.len() as int, 0);
    assert(wins(matched, top.0, top.1, name));
}

/// Where no rule is matched, no property is set.
pub proof fn lemma_nothing_matched<'a>(matched: Seq<MatchedRule<'a>>)
    requires
        matched.len() == 0,
    ensures
        cascade(matched) == Map::<Seq<char>, Value>::empty(),
{
    assert(cascade(matched) =~= Map::<Seq<char>, Value>::empty());
}

/// Sorting the matched rules by specificity, rules of equal specificity kept
/// in their order, changes nothing of what they resolve to.
pub proof fn lemma_stable_order_keeps_cascade<'a>(
    before: Seq<MatchedRule<'a>>,
    after: Seq<MatchedRule<'a>>,
    p: Seq<int>,
)
    requires
        stably_orders(before, after, p),
    ensures
        ascending(after),
        cascade(after) == cascade(before),
{
    assert forall|name: Seq<char>| declared(after, name) == declared(before, name) by {
        if declared(after, name) {
            let (k, j) = choose|k: int, j: int| declares(after, k, j, name);
            assert(declares(before, p[k], j, name));
        }
        if declared(before, name) {
            let (i, j) = choose|i: int, j: int| declares(before, i, j, name);
            assert(reaches(p, i));
            let k = choose|k: int| 0 <= k < p.len() && p[k] == i;
            assert(declares(after, k, j, name));
        }
    }
    assert forall|name: Seq<char>| declared(after, name) implies cascade(after)[name] == cascade(
        before,
    )[name] by {
        lemma_winner_exists(after, name);
        let (k, j) = choose|k: int, j: int| wins(after, k, j, name);
        assert forall|i2: int, j2: int| #[trigger]
            declares(before, i2, j2, name) implies yields(before, i2, j2, p[k], j) by {
            assert(reaches(p, i2));
            let k2 = choose|k2: int| 0 <= k2 < p.len() && p[k2] == i2;
            assert(declares(after, k2, j2, name));
            assert(after[k2] == before[i2] && after[k] == before[p[k]]);
        }
        lemma_winner_gives_value(after, k, j, name);
        lemma_winner_gives_value(before, p[k], j, name);
    }
    assert(cascade(after) =~= cascade(before));
}

/// Of the rules that apply to an element and set a property, the one to
/// which each of the others gives way decides: where each of the others is
/// of lower specificity than rule `a`, or of the same specificity and stands
/// before it in the stylesheet, the element gets the value that rule `a`
/// lists last for the property.
pub proof fn lemma_deciding_rule(
    style: Stylesheet,
    element: ElementData,
    a: int,
    j: int,
    name: Seq<char>,
)
    requires
        0 <= a < style.rules@.len(),
        style.rules@[a].applies_to(element),
        style.rules@[a].sets_last(j, name),
        forall|b: int|
            0 <= b < style.rules@.len() && b != a && (#[trigger] style.rules@[b]).applies_to(
                element,
            ) && style.rules@[b].sets(name) ==> weaker(
                style.rules@[b].weight_for(element),
                style.rules@[a].weight_for(element),
            ) || (style.rules@[b].weight_for(element) == style.rules@[a].weight_for(element) && b
                < a),
    ensures
        cascade(style.matching(element)).contains_key(name),
        cascade(style.matching(element))[name] == style.rules@[a].declarations@[j].value,
{
    let rules = style.rules@;
    let matched = style.matching(element);
    let places = lemma_matching_keeps_order(rules, element);
    let k = choose|k: int| 0 <= k < places.len() && #[trigger] places[k] == a;
    assert(matched[k] == (rules[a].weight_for(element), &rules[a]));
    assert forall|k2: int, j2: int| #[trigger] declares(matched, k2, j2, name) implies yields(
        matched,
        k2,
        j2,
        k,
        j,
    ) by {
        let b = places[k2];
        assert(matched[k2] == (rules[b].weight_for(element), &rules[b]));
        if k2 < k {
            assert(places[k2] < places[k]);
        }
        if k < k2 {
            assert(places[k] < places[k2]);
        }
        if b != a {
            assert(rules[b].declarations@[j2].name@ == name);
        }
    }
    lemma_winner_gives_value(matched, k, j, name);
}

/// A rule of higher specificity prevails wherever it stands: where each of
/// the other rules that apply to an element and set a property is of lower
/// specificity than rule `a`, the element gets the value that rule `a` lists
/// last for the property.
pub proof fn lemma_higher_specificity_prevails(
    style: Stylesheet,
    element: ElementData,
    a: int,
    j: int,
    name: Seq<char>,
)
    requires
        0 <= a < style.rules@.len(),
        style.rules@[a].applies_to(element),
        style.rules@[a].sets_last(j, name),
        forall|b: int|
            0 <= b < style.rules@.len() && b != a && (#[trigger] style.rules@[b]).applies_to(
                element,
            ) && style.rules@[b].sets(name) ==> weaker(
                style.rules@[b].weight_for(element),
                style.rules@[a].weight_for(element),
            ),
    ensures
        cascade(style.matching(element)).contains_key(name),
        cascade(style.matching(element))[name] == style.rules@[a].declarations@[j].value,
{
    lemma_deciding_rule(style, element, a, j, name);
}

/// Between rules of equal specificity the later one prevails: where each of
/// the other rules that apply to an element and set a property is of the
/// same specificity as rule `a` and stands before it in the stylesheet, the
/// element gets the value that rule `a` lists last for the property.
pub proof fn lemma_later_rule_breaks_tie(
    style: Stylesheet,
    element: ElementData,
    a: int,
    j: int,
    name: Seq<char>,
)
    requires
        0 <= a < style.rules@.len(),
        style.rules@[a].applies_to(element),
        style.rules@[a].sets_last(j, name),
        forall|b: int|
            0 <= b < style.rules@.len() && b != a && (#[trigger] style.rules@[b]).applies_to(
                element,
            ) && style.rules@[b].sets(name) ==> style.rules@[b].weight_for(element)
                == style.rules@[a].weight_for(element) && b < a,
    ensures
        cascade(style.matching(element)).contains_key(name),
        cascade(style.matching(element))[name] == style.rules@[a].declarations@[j].value,
{
    lemma_deciding_rule(style, element, a, j, name);
}

/// Within one rule the last declaration of a property prevails: where rule
/// `a` alone, of the rules that apply to an element, sets a property, the
/// element gets the value that the rule lists last for it.
pub proof fn lemma_last_declaration_prevails(
    style: Stylesheet,
    element: ElementData,
    a: int,
    j: int,
    name: Seq<char>,
)
    requires
        0 <= a < style.rules@.len(),
        style.rules@[a].applies_to(element),
        style.rules@[a].sets_last(j, name),
        forall|b: int|
            0 <= b < style.rules@.len() && b != a && (#[trigger] style.rules@[b]).applies_to(
                element,
            ) ==> !style.rules@[b].sets(name),
    ensures
        cascade(style.matching(element)).contains_key(name),
        cascade(style.matching(element))[name] == style.rules@[a].declarations@[j].value,
{
    lemma_deciding_rule(style, element, a, j, name);
}

/// Place `(i, j)` is read before place `(r, d)`, rule by rule and within a
/// rule declaration by declaration.
spec fn before(i: int, j: int, r: int, d: int) -> bool {
    i < r || (i == r && j < d)
}

/// `(r, d)` is a place at which reading `matched` can stand: before
/// declaration `d` of rule `r`, or behind the last rule.
spec fn cursor<'a>(matched: Seq<MatchedRule<'a>>, r: int, d: int) -> bool {
    &&& 0 <= r <= matched.len()
    &&& 0 <= d
    &&& r < matched.len() ==> d <= matched[r].1.declarations@.len()
    &&& r == matched.len() ==> d == 0
}

/// Among the declarations read before `(r, d)`, declaration `j` of rule `i`
/// sets `name` and every one that sets `name` gives way to it.
spec fn leads_before<'a>(
    matched: Seq<MatchedRule<'a>>,
    i: int,
    j: int,
    name: Seq<char>,
    r: int,
    d: int,
) -> bool {
    &&& declares(matched, i, j, name)
    &&& before(i, j, r, d)
    &&& forall|i2: int, j2: int| #[trigger]
        declares(matched, i2, j2, name) && before(i2, j2, r, d) ==> yields(matched, i2, j2, i, j)
}

/// Finds, among the declarations of `name` read before `(r, d)`, the one to
/// which the others give way.
proof fn lemma_leader_before<'a>(
    matched: Seq<MatchedRule<'a>>,
    name: Seq<char>,
    r: int,
    d: int,
) -> (top: (int, int))
    requires
        cursor(matched, r, d),
        exists|i: int, j: int| declares(matched, i, j, name) && before(i, j, r, d),
    ensures
        leads_before(matched, top.0, top.1, name, r, d),
    decreases r, d,
{
    if d > 0 {
        if exists|i: int, j: int| declares(matched, i, j, name) && before(i, j, r, d - 1) {
            let held = lemma_leader_before(matched, name, r, d - 1);
            if declares(matched, r, d - 1, name) && yields(matched, held.0, held.1, r, d - 1) {
                (r, d - 1)
            } else {
                held
            }
        } else {
            (r, d - 1)
        }
    } else {
        let above = matched[r - 1].1.declarations@.len() as int;
        let (i, j) = choose|i: int, j: int| declares(matched, i, j, name) && before(i, j, r, d);
        assert(declares(matched, i, j, name) && before(i, j, r - 1, above));
        lemma_leader_before(matched, name, r - 1, above)
    }
}

/// The mapping built by reading `matched` up to `(r, d)`: each declaration
/// read sets its property and replaces what an earlier one had set.
spec fn merged<'a>(matched: Seq<MatchedRule<'a>>, r: int, d: int) -> Map<Seq<char>, Value>
    decreases r, d,
{
    if d > 0 {
        let declaration = matched[r].1.declarations@[d - 1];
        merged(matched, r, d - 1).insert(declaration.name@, declaration.value)
    } else if r > 0 {
        merged(matched, r - 1, matched[r - 1].1.declarations@.len() as int)
    } else {
        Map::empty()
    }
}

/// Read in ascending order of specificity, the mapping built up to `(r, d)`
/// holds the properties set so far, each with the value of the declaration
/// to which the others read so far give way.
proof fn lemma_merged_before<'a>(matched: Seq<MatchedRule<'a>>, name: Seq<char>, r: int, d: int)
    requires
        ascending(matched),
        cursor(matched, r, d),
    ensures
        merged(matched, r, d).contains_key(name) <==> exists|i: int, j: int|
            declares(matched, i, j, name) && before(i, j, r, d),
        forall|i: int, j: int| #[trigger]
            leads_before(matched, i, j, name, r, d) ==> merged(matched, r, d)[name] == value_at(
                matched,
                i,
                j,
            ),
    decreases r, d,
{
    if d > 0 {
        lemma_merged_before(matched, name, r, d - 1);
        let set_here = declares(matched, r, d - 1, name);
        if set_here {
            assert(declares(matched, r, d - 1, name) && before(r, d - 1, r, d));
        }
        assert forall|i: int, j: int| #[trigger]
            leads_before(matched, i, j, name, r, d) implies merged(matched, r, d)[name]
            == value_at(matched, i, j) by {
            if set_here {
                assert(yields(matched, r, d - 1, i, j));
                if i < r {
                    assert(!weaker(matched[r].0, matched[i].0));
                }
            } else {
                assert(leads_before(matched, i, j, name, r, d - 1));
            }
        }
    } else if r > 0 {
        let above = matched[r - 1].1.declarations@.len() as int;
        lemma_merged_before(matched, name, r - 1, above);
        assert forall|i: int, j: int| #[trigger]
            leads_before(matched, i, j, name, r, d) implies merged(matched, r, d)[name]
            == value_at(matched, i, j) by {
            assert(leads_before(matched, i, j, name, r - 1, above));
        }
    }
}

/// Read in ascending order of specificity, rule by rule and declaration by
/// declaration, each property ends with the value of the declaration that
/// wins it.
proof fn lemma_merged_is_cascade<'a>(matched: Seq<MatchedRule<'a>>)
    requires
        ascending(matched),
    ensures
        merged(matched, matched.len() as int, 0) == cascade(matched),
{
    let end = matched.len() as int;
    assert forall|name: Seq<char>|
        merged(matched, end, 0).contains_key(name) == cascade(matched).contains_key(name) by {
        lemma_merged_before(matched, name, end, 0);
        if declared(matched, name) {
            let (i, j) = choose|i: int, j: int| declares(matched, i, j, name);
            assert(declares(matched, i, j, name) && before(i, j, end, 0));
        }
    }
    assert forall|name: Seq<char>| cascade(matched).contains_key(name) implies merged(
        matched,
        end,
        0,
    )[name] == cascade(matched)[name] by {
        lemma_merged_before(matched, name, end, 0);
        lemma_winner_exists(matched, name);
        let (i, j) = choose|i: int, j: int| wins(matched, i, j, name);
        lemma_winner_gives_value(matched, i, j, name);
        assert(leads_before(matched, i, j, name, end, 0));
    }
    assert(merged(matched, end, 0) =~= cascade(matched));
}

} // verus!
