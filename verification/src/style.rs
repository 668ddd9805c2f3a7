//! Stylesheets: values, declarations, selectors and rules, and the search
//! for the rules that apply to an element.

use vstd::prelude::*;
use crate::content_tree::ElementData;

verus! {

/// A measure of length.
#[derive(Debug, Clone, Copy, PartialEq, Eq)]
pub enum Unit {
    Px,
    Em,
}

/// A colour with its opacity.
#[derive(Debug, Clone, Copy, PartialEq, Eq)]
pub struct Color {
    pub r: u8,
    pub g: u8,
    pub b: u8,
    pub a: u8,
}

/// The value of a property.
#[derive(Debug, PartialEq, Eq)]
pub enum Value {
    Keyword(String),
    Length(u32, Unit),
    ColorValue(Color),
}

impl Clone for Value {
    fn clone(&self) -> (copy: Self)
        ensures
            copy == *self,
    {
        match self {
            Value::Keyword(word) => Value::Keyword(word.clone()),
            Value::Length(amount, unit) => Value::Length(*amount, *unit),
            Value::ColorValue(color) => Value::ColorValue(*color),
        }
    }
}

/// One property set to one value.
#[derive(Debug, PartialEq, Eq)]
pub struct Declaration {
    pub name: String,
    pub value: Value,
}

/// How strongly a selector binds: the number of identifiers, of classes and
/// of tag names it asks for, compared in this order.
pub type Specificity = (usize, usize, usize);

/// `a` is strictly weaker than `b`.
pub open spec fn weaker(a: Specificity, b: Specificity) -> bool {
    a.0 < b.0 || (a.0 == b.0 && (a.1 < b.1 || (a.1 == b.1 && a.2 < b.2)))
}

/// Tests whether `a` is strictly weaker than `b`.
pub fn is_weaker(a: &Specificity, b: &Specificity) -> (less: bool)
    ensures
        less == weaker(*a, *b),
{
    a.0 < b.0 || (a.0 == b.0 && (a.1 < b.1 || (a.1 == b.1 && a.2 < b.2)))
}

/// A simple selector: every part that is present must hold of the element.
#[derive(Debug, PartialEq, Eq)]
pub struct Selector {
    pub tag_name: Option<String>,
    pub id: Option<String>,
    pub class: Vec<String>,
}

impl Selector {
    /// The selector selects `element`: the element has the tag and the
    /// identifier that the selector names, and belongs to each of its
    /// classes.
    pub open spec fn selects(self, element: ElementData) -> bool {
        &&& self.tag_name matches Some(tag) ==> tag@ == element.tag_name@
        &&& self.id matches Some(id) ==> (element.id matches Some(own) && own@ == id@)
        &&& forall|k: int|
            0 <= k < self.class@.len() ==> element.has_class((#[trigger] self.class@[k])@)
    }

    /// The specificity of the selector.
    pub open spec fn weight(self) -> Specificity {
        (
            if self.id is Some { 1usize } else { 0usize },
            self.class@.len() as usize,
            if self.tag_name is Some { 1usize } else { 0usize },
        )
    }

    /// Tests whether the selector selects `element`.
    pub fn matches(&self, element: &ElementData) -> (hit: bool)
        ensures
            hit == self.selects(*element),
    {
        if let Some(tag) = &self.tag_name {
            if *tag != element.tag_name {
                return false;
            }
        }
        if let Some(id) = &self.id {
            match &element.id {
                Some(own) => {
                    if *own != *id {
                        return false;
                    }
                },
                None => {
                    return false;
                },
            }
        }
        let mut k: usize = 0;
        while k < self.class.len()
            invariant
                k <= self.class.len(),
                forall|earlier: int|
                    0 <= earlier < k ==> element.has_class((#[trigger] self.class@[earlier])@),
            decreases self.class.len() - k,
        {
            if !element.in_class(&self.class[k]) {
                return false;
            }
            k += 1;
        }
        true
    }

    /// Computes the specificity of the selector.
    pub fn specificity(&self) -> (s: Specificity)
        ensures
            s == self.weight(),
    {
        let ids: usize = if self.id.is_some() { 1 } else { 0 };
        let tags: usize = if self.tag_name.is_some() { 1 } else { 0 };
        (ids, self.class.len(), tags)
    }
}

/// A list of selectors with the declarations that hold where one of them
/// selects.
#[derive(Debug, PartialEq, Eq)]
pub struct Rule {
    pub selectors: Vec<Selector>,
    pub declarations: Vec<Declaration>,
}

impl Rule {
    /// One of the rule's selectors selects `element`.
    pub open spec fn applies_to(self, element: ElementData) -> bool {
        exists|k: int|
            0 <= k < self.selectors@.len() && (#[trigger] self.selectors@[k]).selects(element)
    }

    /// `s` is the specificity of the strongest selector of the rule that
    /// selects `element`.
    pub open spec fn has_weight(self, element: ElementData, s: Specificity) -> bool {
        &&& exists|k: int|
            0 <= k < self.selectors@.len() && (#[trigger] self.selectors@[k]).selects(element)
                && self.selectors@[k].weight() == s
        &&& forall|k: int|
            0 <= k < self.selectors@.len() && (#[trigger] self.selectors@[k]).selects(element)
                ==> !weaker(s, self.selectors@[k].weight())
    }

    /// The specificity with which the rule applies to `element`: that of the
    /// strongest of its selectors that select the element.
    pub open spec fn weight_for(self, element: ElementData) -> Specificity {
        choose|s: Specificity| self.has_weight(element, s)
    }

    /// One of the rule's declarations sets the property `name`.
    pub open spec fn sets(self, name: Seq<char>) -> bool {
        exists|j: int|
            0 <= j < self.declarations@.len() && (#[trigger] self.declarations@[j]).name@ == name
    }

    /// Declaration `j` is the last of the rule's declarations that sets the
    /// property `name`.
    pub open spec fn sets_last(self, j: int, name: Seq<char>) -> bool {
        &&& 0 <= j < self.declarations@.len()
        &&& self.declarations@[j].name@ == name
        &&& forall|later: int|
            j < later < self.declarations@.len() ==> (#[trigger] self.declarations@[later]).name@
                != name
    }

    /// The specificity with which the rule applies to `element`, if it does.
    pub fn specificity_for(&self, element: &ElementData) -> (found: Option<Specificity>)
        ensures
            found is Some <==> self.applies_to(*element),
            found matches Some(s) ==> self.has_weight(*element, s) && s == self.weight_for(
                *element,
            ),
    {
        let mut best: Option<Specificity> = None;
        let mut k: usize = 0;
        while k < self.selectors.len()
            invariant
                k <= self.selectors.len(),
                best is None ==> forall|earlier: int|
                    0 <= earlier < k ==> !(#[trigger] self.selectors@[earlier]).selects(*element),
                best matches Some(s) ==> {
                    &&& exists|earlier: int|
                        0 <= earlier < k && (#[trigger] self.selectors@[earlier]).selects(*element)
                            && self.selectors@[earlier].weight() == s
                    &&& forall|earlier: int|
                        0 <= earlier < k && (#[trigger] self.selectors@[earlier]).selects(*element)
                            ==> !weaker(s, self.selectors@[earlier].weight())
                },
            decreases self.selectors.len() - k,
        {
            let selector = &self.selectors[k];
            if selector.matches(element) {
                let s = selector.specificity();
                let stronger = match &best {
                    Some(held) => is_weaker(held, &s),
                    None => true,
                };
                if stronger {
                    best = Some(s);
                }
            }
            k += 1;
        }
        proof {
            if let Some(s) = best {
                lemma_weight_is_unique(*self, *element, s);
            }
        }
        best
    }
}

/// A rule applies to an element with one specificity only.
pub proof fn lemma_weight_is_unique(rule: Rule, element: ElementData, s: Specificity)
    requires
        rule.has_weight(element, s),
    ensures
        rule.weight_for(element) == s,
{
    let chosen = rule.weight_for(element);
    assert(rule.has_weight(element, chosen));
}

/// Finds the specificity of the strongest of the first `n` selectors of
/// `rule` that select `element`.
proof fn lemma_strongest_selector(rule: Rule, element: ElementData, n: int) -> (s: Specificity)
    requires
        0 <= n <= rule.selectors@.len(),
        exists|k: int| 0 <= k < n && (#[trigger] rule.selectors@[k]).selects(element),
    ensures
        exists|k: int|
            0 <= k < n && (#[trigger] rule.selectors@[k]).selects(element)
                && rule.selectors@[k].weight() == s,
        forall|k: int|
            0 <= k < n && (#[trigger] rule.selectors@[k]).selects(element) ==> !weaker(
                s,
                rule.selectors@[k].weight(),
            ),
    decreases n,
{
    let here = rule.selectors@[n - 1];
    if exists|k: int| 0 <= k < n - 1 && (#[trigger] rule.selectors@[k]).selects(element) {
        let held = lemma_strongest_selector(rule, element, n - 1);
        if here.selects(element) && weaker(held, here.weight()) {
            here.weight()
        } else {
            held
        }
    } else {
        here.weight()
    }
}

/// A rule that applies to an element does so with the specificity of the
/// strongest of its selectors that select the element.
pub proof fn lemma_weight_of_applying_rule(rule: Rule, element: ElementData)
    requires
        rule.applies_to(element),
    ensures
        rule.has_weight(element, rule.weight_for(element)),
{
    let s = lemma_strongest_selector(rule, element, rule.selectors@.len() as int);
    assert(rule.has_weight(element, s));
}

/// A rule found to apply to an element, with the specificity with which it
/// applies.
pub type MatchedRule<'a> = (Specificity, &'a Rule);

/// Rules in the order in which they were declared.
#[derive(Debug, PartialEq, Eq)]
pub struct Stylesheet {
    pub rules: Vec<Rule>,
}

/// Those of `rules` that apply to `element`, in their order, each with the
/// specificity with which it applies.
pub open spec fn matching_among<'a>(rules: Seq<Rule>, element: ElementData) -> Seq<
    MatchedRule<'a>,
> {
    rules.filter(|rule: Rule| rule.applies_to(element)).map_values(
        |rule: Rule| (rule.weight_for(element), &rule),
    )
}

impl Stylesheet {
    /// The rules that apply to `element`, in the order of the stylesheet, each
    /// with the specificity with which it applies.
    pub open spec fn matching<'a>(&'a self, element: ElementData) -> Seq<MatchedRule<'a>> {
        matching_among(self.rules@, element)
    }

    /// Collects the rules that apply to `element`, in the order of the
    /// stylesheet, each with the specificity with which it applies.
    pub fn matching_rules<'a>(&'a self, element: &ElementData) -> (matched: Vec<MatchedRule<'a>>)
        ensures
            matched@ == self.matching(*element),
    {
        let mut matched: Vec<MatchedRule<'a>> = Vec::new();
        let mut k: usize = 0;
        while k < self.rules.len()
            invariant
                k <= self.rules.len(),
                matched@ == matching_among(self.rules@.take(k as int), *element),
            decreases self.rules.len() - k,
        {
            let rule = &self.rules[k];
            if let Some(s) = rule.specificity_for(element) {
                matched.push((s, rule));
            }
            proof {
                lemma_matching_among_next(self.rules@, k as int, *element);
            }
            k += 1;
        }
        assert(self.rules@.take(k as int) =~= self.rules@);
        matched
    }
}

/// What the rule at place `k` adds to what the rules before it gave.
proof fn lemma_matching_among_next(rules: Seq<Rule>, k: int, element: ElementData)
    requires
        0 <= k < rules.len(),
    ensures
        matching_among(rules.take(k + 1), element) == if rules[k].applies_to(element) {
            matching_among(rules.take(k), element).push((rules[k].weight_for(element), &rules[k]))
        } else {
            matching_among(rules.take(k), element)
        },
{
    let applies = |rule: Rule| rule.applies_to(element);
    let weigh = |rule: Rule| (rule.weight_for(element), &rule);
    let seen = rules.take(k + 1);
    let earlier = rules.take(k);
    reveal(Seq::filter);
    assert(seen.drop_last() =~= earlier);
    if applies(rules[k]) {
        assert(earlier.filter(applies).push(rules[k]).map_values(weigh) =~= earlier.filter(
            applies,
        ).map_values(weigh).push(weigh(rules[k])));
    }
}

/// `places` lists, in ascending order, the places in `rules` of the rules
/// that apply to `element`.
pub open spec fn picks(rules: Seq<Rule>, element: ElementData, places: Seq<int>) -> bool {
    &&& forall|k: int|
        0 <= k < places.len() ==> 0 <= #[trigger] places[k] < rules.len()
            && rules[places[k]].applies_to(element)
    &&& forall|k1: int, k2: int|
        0 <= k1 < k2 < places.len() ==> #[trigger] places[k1] < #[trigger] places[k2]
    &&& forall|b: int|
        0 <= b < rules.len() && (#[trigger] rules[b]).applies_to(element) ==> exists|k: int|
            0 <= k < places.len() && #[trigger] places[k] == b
}

/// Matching keeps the order of the rules: what it finds are the rules that
/// apply, each once and with the specificity of the strongest of its
/// selectors that select the element, in the order in which they stand. The
/// result gives the place of each in `rules`.
pub proof fn lemma_matching_keeps_order(rules: Seq<Rule>, element: ElementData) -> (places: Seq<
    int,
>)
    ensures
        picks(rules, element, places),
        places.len() == matching_among(rules, element).len(),
        forall|k: int|
            0 <= k < places.len() ==> #[trigger] matching_among(rules, element)[k] == (
                rules[places[k]].weight_for(element),
                &rules[places[k]],
            ),
        forall|k: int|
            0 <= k < places.len() ==> rules[places[k]].has_weight(
                element,
                (#[trigger] matching_among(rules, element)[k]).0,
            ),
    decreases rules.len(),
{
    if rules.len() == 0 {
        reveal(Seq::filter);
        Seq::empty()
    } else {
        let last = rules.len() - 1;
        let earlier = lemma_matching_keeps_order(rules.take(last), element);
        lemma_matching_among_next(rules, last, element);
        assert(rules.take(last + 1) =~= rules);
        let places = if rules[last].applies_to(element) {
            lemma_weight_of_applying_rule(rules[last], element);
            earlier.push(last)
        } else {
            earlier
        };
        assert forall|b: int|
            0 <= b < rules.len() && (#[trigger] rules[b]).applies_to(element) implies exists|
            k: int,
        |
            0 <= k < places.len() && #[trigger] places[k] == b by {
            if b < last {
                assert(rules.take(last)[b].applies_to(element));
                let k = choose|k: int| 0 <= k < earlier.len() && #[trigger] earlier[k] == b;
                assert(places[k] == b);
            } else {
                assert(places[places.len() - 1] == b);
            }
        }
        places
    }
}

/// Where no rule applies to an element, matching finds nothing.
pub proof fn lemma_matching_none(rules: Seq<Rule>, element: ElementData)
    requires
        forall|b: int| 0 <= b < rules.len() ==> !(#[trigger] rules[b]).applies_to(element),
    ensures
        matching_among(rules, element).len() == 0,
{
    let places = lemma_matching_keeps_order(rules, element);
    if places.len() > 0 {
        assert(rules[places[0]].applies_to(element));
    }
}

} // verus!
