use rcss3::{compute_style, parse_stylesheet, style_to_string, ComputedStyle, ElementLike};

struct FakeElement {
    tag: &'static str,
    classes: Vec<&'static str>,
    id: Option<&'static str>,
}

impl ElementLike for FakeElement {
    fn tag_name(&self) -> &str {
        self.tag
    }
    fn classes(&self) -> Vec<&str> {
        self.classes.clone()
    }
    fn id(&self) -> Option<&str> {
        self.id
    }
}

#[test]
fn higher_specificity_wins_regardless_of_source_order() {
    let css = "#x { color: blue; } div { color: red; }";
    let rules = parse_stylesheet(css);
    let el = FakeElement { tag: "div", classes: vec![], id: Some("x") };
    let style = compute_style(&rules, &el, &[], &[]);
    assert_eq!(style.get("color"), Some(&"blue".to_string()));
}

#[test]
fn later_rule_wins_when_specificity_is_equal() {
    let css = ".a { color: red; } .b { color: blue; }";
    let rules = parse_stylesheet(css);
    let el = FakeElement { tag: "div", classes: vec!["a", "b"], id: None };
    let style = compute_style(&rules, &el, &[], &[]);
    assert_eq!(style.get("color"), Some(&"blue".to_string()));
}

#[test]
fn non_matching_rules_are_excluded() {
    let css = "span { color: red; }";
    let rules = parse_stylesheet(css);
    let el = FakeElement { tag: "div", classes: vec![], id: None };
    let style = compute_style(&rules, &el, &[], &[]);
    assert!(style.is_empty());
}

#[test]
fn distinct_properties_from_different_rules_are_merged() {
    let css = "div { color: red; } .foo { font-size: 12px; }";
    let rules = parse_stylesheet(css);
    let el = FakeElement { tag: "div", classes: vec!["foo"], id: None };
    let style = compute_style(&rules, &el, &[], &[]);
    assert_eq!(style.get("color"), Some(&"red".to_string()));
    assert_eq!(style.get("font-size"), Some(&"12px".to_string()));
}

#[test]
fn style_to_string_produces_deterministic_output() {
    let mut style = ComputedStyle::new();
    style.insert("color".to_string(), "red".to_string());
    style.insert("font-size".to_string(), "12px".to_string());
    assert_eq!(style_to_string(&style), "color: red; font-size: 12px;");
}

#[test]
fn descendant_combinator_matches_through_ancestor_chain() {
    let css = "div p { color: green; }";
    let rules = parse_stylesheet(css);
    let ancestor = FakeElement { tag: "div", classes: vec![], id: None };
    let el = FakeElement { tag: "p", classes: vec![], id: None };
    let style = compute_style(&rules, &el, &[&ancestor], &[]);
    assert_eq!(style.get("color"), Some(&"green".to_string()));
}

#[test]
fn descendant_combinator_does_not_match_without_matching_ancestor() {
    let css = "div p { color: green; }";
    let rules = parse_stylesheet(css);
    let ancestor = FakeElement { tag: "section", classes: vec![], id: None };
    let el = FakeElement { tag: "p", classes: vec![], id: None };
    let style = compute_style(&rules, &el, &[&ancestor], &[]);
    assert!(style.is_empty());
}

#[test]
fn child_combinator_only_matches_the_immediate_parent() {
    let css = "div > p { color: purple; }";
    let rules = parse_stylesheet(css);
    let parent = FakeElement { tag: "div", classes: vec![], id: None };
    let el = FakeElement { tag: "p", classes: vec![], id: None };
    let style = compute_style(&rules, &el, &[&parent], &[]);
    assert_eq!(style.get("color"), Some(&"purple".to_string()));

    let grandparent = FakeElement { tag: "div", classes: vec![], id: None };
    let non_matching_parent = FakeElement { tag: "section", classes: vec![], id: None };
    let style2 = compute_style(&rules, &el, &[&non_matching_parent, &grandparent], &[]);
    assert!(style2.is_empty());
}

#[test]
fn important_declaration_wins_over_higher_specificity_non_important() {
    let css = "#x { color: blue; } .a { color: red !important; }";
    let rules = parse_stylesheet(css);
    let el = FakeElement { tag: "div", classes: vec!["a"], id: Some("x") };
    let style = compute_style(&rules, &el, &[], &[]);
    assert_eq!(style.get("color"), Some(&"red".to_string()));
}

#[test]
fn later_important_wins_over_earlier_important_at_equal_specificity() {
    let css = ".a { color: red !important; } .b { color: blue !important; }";
    let rules = parse_stylesheet(css);
    let el = FakeElement { tag: "div", classes: vec!["a", "b"], id: None };
    let style = compute_style(&rules, &el, &[], &[]);
    assert_eq!(style.get("color"), Some(&"blue".to_string()));
}

#[test]
fn non_important_properties_are_unaffected_by_unrelated_important_declarations() {
    let css = "div { color: red !important; } .foo { font-size: 12px; }";
    let rules = parse_stylesheet(css);
    let el = FakeElement { tag: "div", classes: vec!["foo"], id: None };
    let style = compute_style(&rules, &el, &[], &[]);
    assert_eq!(style.get("color"), Some(&"red".to_string()));
    assert_eq!(style.get("font-size"), Some(&"12px".to_string()));
}

#[test]
fn media_query_that_matches_default_context_is_applied() {
    let css = "@media screen and (min-width: 768px) { .a { color: green; } }";
    let rules = parse_stylesheet(css);
    let el = FakeElement { tag: "div", classes: vec!["a"], id: None };
    let style = compute_style(&rules, &el, &[], &[]);
    assert_eq!(style.get("color"), Some(&"green".to_string()));
}

#[test]
fn media_query_that_does_not_match_default_context_is_excluded() {
    let css = "@media (max-width: 480px) { .a { color: green; } }";
    let rules = parse_stylesheet(css);
    let el = FakeElement { tag: "div", classes: vec!["a"], id: None };
    let style = compute_style(&rules, &el, &[], &[]);
    assert!(style.get("color").is_none());
}

#[test]
fn print_media_query_is_excluded_under_default_screen_context() {
    let css = "@media print { .a { color: green; } }";
    let rules = parse_stylesheet(css);
    let el = FakeElement { tag: "div", classes: vec!["a"], id: None };
    let style = compute_style(&rules, &el, &[], &[]);
    assert!(style.get("color").is_none());
}

#[test]
fn adjacent_sibling_combinator_only_matches_the_immediately_preceding_sibling() {
    let css = "li + li { color: orange; }";
    let rules = parse_stylesheet(css);
    let preceding = FakeElement { tag: "li", classes: vec![], id: None };
    let el = FakeElement { tag: "li", classes: vec![], id: None };
    let style = compute_style(&rules, &el, &[], &[&preceding]);
    assert_eq!(style.get("color"), Some(&"orange".to_string()));

    let style_no_sibling = compute_style(&rules, &el, &[], &[]);
    assert!(style_no_sibling.is_empty());
}

#[test]
fn readme_example_computes_the_expected_style() {
    let rules = parse_stylesheet("p { color: red; } .highlight { font-weight: bold; } div p { color: blue; }");
    let el = FakeElement { tag: "p", classes: vec!["highlight"], id: None };
    let style = compute_style(&rules, &el, &[], &[]);
    assert_eq!(style_to_string(&style), "color: red; font-weight: bold;");
}

#[test]
fn rule_weight_is_its_best_matching_selector() {
    // `.a, #x` matches through `#x`, so it outranks `.b.c` though written first.
    let rules = parse_stylesheet(".a, #x { color: red; } .b.c { color: blue; }");
    let el = FakeElement { tag: "div", classes: vec!["b", "c"], id: Some("x") };
    let style = compute_style(&rules, &el, &[], &[]);
    assert_eq!(style.get("color"), Some(&"red".to_string()));
}

#[test]
fn later_declaration_in_the_same_rule_wins() {
    let rules = parse_stylesheet("p { color: red; color: blue; margin: 1px !important; margin: 2px; }");
    let el = FakeElement { tag: "p", classes: vec![], id: None };
    let style = compute_style(&rules, &el, &[], &[]);
    assert_eq!(style.get("color"), Some(&"blue".to_string()));
    assert_eq!(style.get("margin"), Some(&"1px".to_string()));
}

#[test]
fn style_to_string_of_empty_and_single_styles() {
    assert_eq!(style_to_string(&ComputedStyle::new()), "");
    let mut style = ComputedStyle::new();
    style.insert("b".to_string(), "2".to_string());
    style.insert("a".to_string(), "1".to_string());
    style.insert("B".to_string(), "3".to_string());
    assert_eq!(style_to_string(&style), "B: 3; a: 1; b: 2;");
}
