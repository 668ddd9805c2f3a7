use css_cascade::content_tree::ElementData;
use css_cascade::sorting::sort_by_specificity;
use css_cascade::style::{is_weaker, Declaration, Rule, Selector, Specificity, Stylesheet, Value};

fn person(tag_name: &str, id: Option<&str>, classes: &[&str]) -> ElementData {
    ElementData {
        tag_name: tag_name.to_string(),
        id: id.map(|name| name.to_string()),
        classes: classes.iter().map(|name| name.to_string()).collect(),
    }
}

fn selector(tag_name: Option<&str>, id: Option<&str>, classes: &[&str]) -> Selector {
    Selector {
        tag_name: tag_name.map(|name| name.to_string()),
        id: id.map(|name| name.to_string()),
        class: classes.iter().map(|name| name.to_string()).collect(),
    }
}

fn marked(selectors: Vec<Selector>, mark: &str) -> Rule {
    Rule {
        selectors,
        declarations: vec![Declaration {
            name: String::from("mark"),
            value: Value::Keyword(mark.to_string()),
        }],
    }
}

fn mark_of(rule: &Rule) -> String {
    match &rule.declarations[0].value {
        Value::Keyword(word) => word.clone(),
        _ => String::new(),
    }
}

#[test]
fn specificity_counts_ids_classes_and_tags() {
    assert_eq!(selector(Some("p"), Some("main"), &["a", "b"]).specificity(), (1, 2, 1));
    assert_eq!(selector(None, None, &[]).specificity(), (0, 0, 0));
    assert_eq!(selector(Some("p"), None, &[]).specificity(), (0, 0, 1));
    assert_eq!(selector(None, Some("main"), &[]).specificity(), (1, 0, 0));
    assert_eq!(selector(None, None, &["a", "b", "c"]).specificity(), (0, 3, 0));
}

#[test]
fn specificity_is_compared_part_by_part() {
    assert!(is_weaker(&(0, 0, 1), &(0, 1, 0)));
    assert!(is_weaker(&(0, 9, 9), &(1, 0, 0)));
    assert!(is_weaker(&(1, 2, 3), &(1, 2, 4)));
    assert!(is_weaker(&(1, 2, 3), &(1, 3, 0)));
    assert!(!is_weaker(&(1, 2, 3), &(1, 2, 3)));
    assert!(!is_weaker(&(1, 0, 0), &(0, 9, 9)));
    assert!(!is_weaker(&(0, 1, 0), &(0, 0, 1)));
}

#[test]
fn selector_matches_by_tag() {
    let paragraph = person("p", None, &[]);
    assert!(selector(Some("p"), None, &[]).matches(&paragraph));
    assert!(!selector(Some("div"), None, &[]).matches(&paragraph));
    assert!(!selector(Some("P"), None, &[]).matches(&paragraph));
}

#[test]
fn selector_matches_by_id() {
    assert!(selector(None, Some("main"), &[]).matches(&person("p", Some("main"), &[])));
    assert!(!selector(None, Some("main"), &[]).matches(&person("p", Some("side"), &[])));
    assert!(!selector(None, Some("main"), &[]).matches(&person("p", None, &[])));
}

#[test]
fn selector_matches_when_every_class_is_carried() {
    let noted = person("p", None, &["note", "wide"]);
    assert!(selector(None, None, &["note"]).matches(&noted));
    assert!(selector(None, None, &["wide", "note"]).matches(&noted));
    assert!(!selector(None, None, &["note", "tall"]).matches(&noted));
    assert!(!selector(None, None, &["note"]).matches(&person("p", None, &[])));
}

#[test]
fn selector_without_parts_matches_everything() {
    assert!(selector(None, None, &[]).matches(&person("p", None, &[])));
    assert!(selector(None, None, &[]).matches(&person("div", Some("main"), &["note"])));
}

#[test]
fn selector_needs_all_of_its_parts() {
    let full = selector(Some("p"), Some("main"), &["note"]);
    assert!(full.matches(&person("p", Some("main"), &["note", "wide"])));
    assert!(!full.matches(&person("div", Some("main"), &["note"])));
    assert!(!full.matches(&person("p", Some("side"), &["note"])));
    assert!(!full.matches(&person("p", Some("main"), &["wide"])));
}

#[test]
fn element_class_lookup() {
    let noted = person("p", None, &["note", "wide"]);
    assert!(noted.in_class(&String::from("note")));
    assert!(noted.in_class(&String::from("wide")));
    assert!(!noted.in_class(&String::from("tall")));
    assert!(!noted.in_class(&String::from("")));
    assert!(!person("p", None, &[]).in_class(&String::from("note")));
}

#[test]
fn rule_applies_with_its_strongest_matching_selector() {
    let rule = marked(
        vec![
            selector(Some("p"), None, &[]),
            selector(None, Some("main"), &[]),
            selector(None, None, &["note"]),
            selector(Some("div"), Some("main"), &["note"]),
        ],
        "x",
    );
    assert_eq!(rule.specificity_for(&person("p", Some("main"), &["note"])), Some((1, 0, 0)));
    assert_eq!(rule.specificity_for(&person("p", None, &["note"])), Some((0, 1, 0)));
    assert_eq!(rule.specificity_for(&person("p", None, &[])), Some((0, 0, 1)));
    assert_eq!(rule.specificity_for(&person("span", None, &[])), None);
    assert_eq!(rule.specificity_for(&person("div", Some("main"), &["note"])), Some((1, 1, 1)));
}

#[test]
fn rule_without_selectors_applies_to_nothing() {
    let rule = marked(vec![], "x");
    assert_eq!(rule.specificity_for(&person("p", None, &[])), None);
}

#[test]
fn matching_rules_keep_the_order_of_the_stylesheet() {
    let sheet = Stylesheet {
        rules: vec![
            marked(vec![selector(None, Some("main"), &[])], "a"),
            marked(vec![selector(Some("div"), None, &[])], "b"),
            marked(vec![selector(Some("p"), None, &[])], "c"),
            marked(vec![selector(None, None, &["note"])], "d"),
            marked(vec![selector(Some("p"), None, &["note"])], "e"),
        ],
    };
    let paragraph = person("p", Some("main"), &["note"]);
    let matched = sheet.matching_rules(&paragraph);
    let found: Vec<(Specificity, String)> =
        matched.iter().map(|(weight, rule)| (*weight, mark_of(rule))).collect();
    assert_eq!(
        found,
        vec![
            ((1, 0, 0), String::from("a")),
            ((0, 0, 1), String::from("c")),
            ((0, 1, 0), String::from("d")),
            ((0, 1, 1), String::from("e")),
        ]
    );
    assert!(std::ptr::eq(matched[0].1, &sheet.rules[0]));
    assert!(std::ptr::eq(matched[3].1, &sheet.rules[4]));
}

#[test]
fn matching_rules_of_an_unmatched_element_are_none() {
    let sheet = Stylesheet { rules: vec![marked(vec![selector(Some("div"), None, &[])], "a")] };
    assert!(sheet.matching_rules(&person("p", None, &[])).is_empty());
}

#[test]
fn sort_is_ascending_and_stable() {
    let rules: Vec<Rule> = ["a", "b", "c", "d", "e", "f", "g"]
        .iter()
        .map(|mark| marked(vec![], mark))
        .collect();
    let mut matched: Vec<(Specificity, &Rule)> = vec![
        ((0, 1, 0), &rules[0]),
        ((1, 0, 0), &rules[1]),
        ((0, 0, 1), &rules[2]),
        ((0, 1, 0), &rules[3]),
        ((1, 0, 0), &rules[4]),
        ((0, 0, 1), &rules[5]),
        ((0, 1, 0), &rules[6]),
    ];
    sort_by_specificity(&mut matched);
    let order: Vec<(Specificity, String)> =
        matched.iter().map(|(weight, rule)| (*weight, mark_of(rule))).collect();
    assert_eq!(
        order,
        vec![
            ((0, 0, 1), String::from("c")),
            ((0, 0, 1), String::from("f")),
            ((0, 1, 0), String::from("a")),
            ((0, 1, 0), String::from("d")),
            ((0, 1, 0), String::from("g")),
            ((1, 0, 0), String::from("b")),
            ((1, 0, 0), String::from("e")),
        ]
    );
}

#[test]
fn sort_agrees_with_a_stable_sort_on_many_rules() {
    let rules: Vec<Rule> = (0..200).map(|n| marked(vec![], &n.to_string())).collect();
    let mut matched: Vec<(Specificity, &Rule)> = rules
        .iter()
        .enumerate()
        .map(|(n, rule)| (((n * 7) % 3, (n * 5) % 4, (n * 11) % 2), rule))
        .collect();
    let mut expected = matched.clone();
    expected.sort_by(|(a, _), (b, _)| a.cmp(b));
    sort_by_specificity(&mut matched);
    assert_eq!(matched.len(), expected.len());
    for (ours, theirs) in matched.iter().zip(expected.iter()) {
        assert_eq!(ours.0, theirs.0);
        assert!(std::ptr::eq(ours.1, theirs.1));
    }
}

#[test]
fn sort_of_short_lists() {
    let only = marked(vec![], "a");
    let mut none: Vec<(Specificity, &Rule)> = Vec::new();
    sort_by_specificity(&mut none);
    assert!(none.is_empty());
    let mut one: Vec<(Specificity, &Rule)> = vec![((0, 0, 1), &only)];
    sort_by_specificity(&mut one);
    assert_eq!(one.len(), 1);
    assert_eq!(one[0].0, (0, 0, 1));
    let mut two: Vec<(Specificity, &Rule)> = vec![((0, 1, 0), &only), ((0, 0, 1), &only)];
    sort_by_specificity(&mut two);
    assert_eq!(two[0].0, (0, 0, 1));
    assert_eq!(two[1].0, (0, 1, 0));
}

#[test]
fn rule_with_several_matching_selectors_is_matched_once() {
    let sheet = Stylesheet {
        rules: vec![marked(
            vec![
                selector(Some("p"), None, &[]),
                selector(None, None, &["note"]),
                selector(Some("p"), None, &["note"]),
            ],
            "a",
        )],
    };
    let matched = sheet.matching_rules(&person("p", None, &["note"]));
    assert_eq!(matched.len(), 1);
    assert_eq!(matched[0].0, (0, 1, 1));
    assert!(std::ptr::eq(matched[0].1, &sheet.rules[0]));
}
