use rcss3::{
    matches_selector, parse_compound_selector, parse_selector, selector_specificity, specificity,
    Combinator, ElementLike, SelectorSegment, SimplePart,
};

struct FakeElement {
    tag: &'static str,
    classes: Vec<&'static str>,
    id: Option<&'static str>,
}

impl ElementLike for FakeElement {
    fn tag_name(&self) -> &str {
        self.tag
    }
    fn classes(&self) -> Vec<&str> {
        self.classes.clone()
    }
    fn id(&self) -> Option<&str> {
        self.id
    }
}

fn descendant(parts: Vec<SimplePart>) -> SelectorSegment {
    SelectorSegment { combinator: Combinator::Descendant, compound: parts }
}

fn el(tag: &'static str) -> FakeElement {
    FakeElement { tag, classes: vec![], id: None }
}

#[test]
fn parses_tag_class_and_id_selectors() {
    assert_eq!(parse_compound_selector("div"), Some(vec![SimplePart::Tag("div".to_string())]));
    assert_eq!(parse_compound_selector(".foo"), Some(vec![SimplePart::Class("foo".to_string())]));
    assert_eq!(parse_compound_selector("#bar"), Some(vec![SimplePart::Id("bar".to_string())]));
    assert_eq!(parse_compound_selector("*"), Some(vec![SimplePart::Universal]));
}

#[test]
fn parses_compound_tag_class_id_selector() {
    assert_eq!(
        parse_compound_selector("div.foo#bar"),
        Some(vec![
            SimplePart::Tag("div".to_string()),
            SimplePart::Class("foo".to_string()),
            SimplePart::Id("bar".to_string()),
        ])
    );
}

#[test]
fn matching_requires_every_part_to_match() {
    let el = FakeElement { tag: "div", classes: vec!["foo", "bar"], id: Some("x") };
    assert!(rcss3::selector::matches(&parse_compound_selector("div.foo#x").unwrap(), &el));
    assert!(!rcss3::selector::matches(&parse_compound_selector("span.foo#x").unwrap(), &el));
    assert!(!rcss3::selector::matches(&parse_compound_selector("div.missing").unwrap(), &el));
    assert!(rcss3::selector::matches(&parse_compound_selector("*").unwrap(), &el));
}

#[test]
fn specificity_orders_id_over_class_over_tag() {
    let id_sel = parse_compound_selector("#x").unwrap();
    let class_sel = parse_compound_selector(".x").unwrap();
    let tag_sel = parse_compound_selector("div").unwrap();
    assert!(specificity(&id_sel) > specificity(&class_sel));
    assert!(specificity(&class_sel) > specificity(&tag_sel));
}

#[test]
fn parses_descendant_combinator_selector() {
    assert_eq!(
        parse_selector("div p.foo"),
        Some(vec![
            descendant(vec![SimplePart::Tag("div".to_string())]),
            descendant(vec![SimplePart::Tag("p".to_string()), SimplePart::Class("foo".to_string())]),
        ])
    );
}

#[test]
fn descendant_combinator_matches_indirect_ancestor() {
    let root = el("div");
    let middle = el("section");
    let target = el("p");
    let selector = parse_selector("div p").unwrap();
    // ancestors[0] is the parent, ancestors[1] the grandparent.
    assert!(matches_selector(&selector, &target, &[&middle, &root], &[]));
}

#[test]
fn descendant_combinator_rejects_when_ancestor_missing() {
    let middle = el("section");
    let target = el("p");
    let selector = parse_selector("div p").unwrap();
    assert!(!matches_selector(&selector, &target, &[&middle], &[]));
}

#[test]
fn descendant_combinator_requires_selector_order_to_be_preserved() {
    // Both `div` and `p` are ancestors, but in the wrong order: the `p`
    // is outside the `div`.
    let outer_p = el("p");
    let inner_div = el("div");
    let target = el("span");
    let selector = parse_selector("div p span").unwrap();
    assert!(!matches_selector(&selector, &target, &[&inner_div, &outer_p], &[]));
}

#[test]
fn compound_parsing_stops_at_an_unsupported_character() {
    assert_eq!(parse_compound_selector("div>p"), Some(vec![SimplePart::Tag("div".to_string())]));
    assert_eq!(parse_compound_selector("  a.b  "), Some(vec![
        SimplePart::Tag("a".to_string()),
        SimplePart::Class("b".to_string()),
    ]));
    assert_eq!(parse_compound_selector(""), None);
    assert_eq!(parse_compound_selector("   "), None);
    assert_eq!(parse_compound_selector(">"), None);
    assert_eq!(parse_compound_selector("*.foo"), None);
    assert_eq!(parse_compound_selector("..#"), None);
}

#[test]
fn parses_all_combinators() {
    let sel = parse_selector("ul > li + li ~ .x").unwrap();
    let combinators: Vec<Combinator> = sel.iter().map(|s| s.combinator).collect();
    assert_eq!(
        combinators,
        vec![Combinator::Descendant, Combinator::Child, Combinator::AdjacentSibling, Combinator::GeneralSibling]
    );
    // A leading combinator has nothing to join: the first segment stays a descendant one.
    assert_eq!(parse_selector("> p"), Some(vec![descendant(vec![SimplePart::Tag("p".to_string())])]));
    assert_eq!(parse_selector("  "), None);
    assert_eq!(parse_selector("> + ~"), None);
}

#[test]
fn specificity_counts_each_kind() {
    assert_eq!(specificity(&parse_compound_selector("div.a.b#c").unwrap()), (1, 2, 1));
    assert_eq!(specificity(&parse_compound_selector("*").unwrap()), (0, 0, 0));
    assert_eq!(selector_specificity(&parse_selector("div p.foo #x").unwrap()), (1, 1, 2));
}

#[test]
fn child_combinator_needs_the_parent() {
    let sel = parse_selector("div > p").unwrap();
    let p = el("p");
    assert!(matches_selector(&sel, &p, &[&el("div")], &[]));
    assert!(!matches_selector(&sel, &p, &[&el("section"), &el("div")], &[]));
}

#[test]
fn matching_backtracks_over_ancestors() {
    // `a > b c`: the nearest `b` has no `a` parent, a farther one does.
    let sel = parse_selector("a > b c").unwrap();
    let target = el("c");
    assert!(matches_selector(&sel, &target, &[&el("b"), &el("x"), &el("b"), &el("a")], &[]));
    assert!(!matches_selector(&sel, &target, &[&el("b"), &el("x"), &el("b")], &[]));
}

#[test]
fn sibling_combinators_look_at_preceding_siblings() {
    let adjacent = parse_selector("h1 + p").unwrap();
    let general = parse_selector("h1 ~ p").unwrap();
    let p = el("p");
    let h1 = el("h1");
    let div = el("div");
    assert!(matches_selector(&adjacent, &p, &[], &[&h1]));
    assert!(!matches_selector(&adjacent, &p, &[], &[&div, &h1]));
    assert!(matches_selector(&general, &p, &[], &[&div, &h1]));
    assert!(!matches_selector(&general, &p, &[], &[&div]));
    // A sibling of an ancestor is not known, so this cannot match.
    let nested = parse_selector("h1 + div p").unwrap();
    assert!(!matches_selector(&nested, &p, &[&div], &[&h1]));
    // Ancestors of a sibling are the element's own ancestors.
    let up = parse_selector("section h1 ~ p").unwrap();
    assert!(matches_selector(&up, &p, &[&el("section")], &[&h1]));
}

#[test]
fn empty_selector_matches_nothing() {
    assert!(!matches_selector(&Vec::new(), &el("p"), &[], &[]));
    assert!(rcss3::selector::matches(&Vec::new(), &el("p")));
}

#[test]
fn class_and_id_matching() {
    let e = FakeElement { tag: "li", classes: vec!["a", "b"], id: None };
    assert!(rcss3::selector::matches(&parse_compound_selector(".b").unwrap(), &e));
    assert!(!rcss3::selector::matches(&parse_compound_selector("#b").unwrap(), &e));
    assert!(rcss3::selector::matches(&parse_compound_selector("LI").unwrap(), &FakeElement { tag: "LI", classes: vec![], id: None }));
    assert!(!rcss3::selector::matches(&parse_compound_selector("LI").unwrap(), &e));
}
