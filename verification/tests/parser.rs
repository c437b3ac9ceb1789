use rcss3::{parse_stylesheet, Combinator, Declaration, MediaQuery, MediaType, SelectorSegment, SimplePart};

fn descendant(parts: Vec<SimplePart>) -> SelectorSegment {
    SelectorSegment { combinator: Combinator::Descendant, compound: parts }
}

fn decl(property: &str, value: &str) -> Declaration {
    Declaration { property: property.to_string(), value: value.to_string(), important: false }
}

fn important(property: &str, value: &str) -> Declaration {
    Declaration { property: property.to_string(), value: value.to_string(), important: true }
}

#[test]
fn parses_a_single_rule_with_multiple_declarations() {
    let rules = parse_stylesheet("p { color: red; font-size: 12px; }");
    assert_eq!(rules.len(), 1);
    assert_eq!(rules[0].selectors, vec![vec![descendant(vec![SimplePart::Tag("p".to_string())])]]);
    assert_eq!(rules[0].declarations, vec![decl("color", "red"), decl("font-size", "12px")]);
}

#[test]
fn comma_separated_selectors_share_one_rule() {
    let rules = parse_stylesheet("h1, h2 { margin: 0; }");
    assert_eq!(rules.len(), 1);
    assert_eq!(rules[0].selectors.len(), 2);
}

#[test]
fn comments_are_stripped_before_parsing() {
    let rules = parse_stylesheet("/* comment */ p { /* inline */ color: red; }");
    assert_eq!(rules.len(), 1);
    assert_eq!(rules[0].declarations, vec![decl("color", "red")]);
}

#[test]
fn multiple_rules_are_parsed_in_source_order() {
    let rules = parse_stylesheet("p { color: red; } .foo { color: blue; }");
    assert_eq!(rules.len(), 2);
    assert_eq!(rules[0].selectors[0], vec![descendant(vec![SimplePart::Tag("p".to_string())])]);
    assert_eq!(rules[1].selectors[0], vec![descendant(vec![SimplePart::Class("foo".to_string())])]);
}

#[test]
fn parses_descendant_combinator_in_stylesheet() {
    let rules = parse_stylesheet("div p { color: red; }");
    assert_eq!(rules.len(), 1);
    assert_eq!(
        rules[0].selectors[0],
        vec![descendant(vec![SimplePart::Tag("div".to_string())]), descendant(vec![SimplePart::Tag("p".to_string())])]
    );
}

#[test]
fn parses_child_and_adjacent_sibling_combinators_in_stylesheet() {
    let rules = parse_stylesheet("div > p { color: red; } li + li { color: blue; }");
    assert_eq!(rules.len(), 2);
    assert_eq!(
        rules[0].selectors[0],
        vec![
            descendant(vec![SimplePart::Tag("div".to_string())]),
            SelectorSegment { combinator: Combinator::Child, compound: vec![SimplePart::Tag("p".to_string())] },
        ]
    );
    assert_eq!(
        rules[1].selectors[0],
        vec![
            descendant(vec![SimplePart::Tag("li".to_string())]),
            SelectorSegment { combinator: Combinator::AdjacentSibling, compound: vec![SimplePart::Tag("li".to_string())] },
        ]
    );
}

#[test]
fn parses_general_sibling_combinator_in_stylesheet() {
    let rules = parse_stylesheet(".a ~ .b { color: green; }");
    assert_eq!(rules.len(), 1);
    assert_eq!(
        rules[0].selectors[0],
        vec![
            descendant(vec![SimplePart::Class("a".to_string())]),
            SelectorSegment { combinator: Combinator::GeneralSibling, compound: vec![SimplePart::Class("b".to_string())] },
        ]
    );
}

#[test]
fn important_suffix_is_recognised_in_any_case_and_spacing() {
    let rules = parse_stylesheet("p { color: red !important; margin: 0!IMPORTANT; padding: 1px ! important; top: !important }");
    assert_eq!(rules.len(), 1);
    assert_eq!(
        rules[0].declarations,
        vec![important("color", "red"), important("margin", "0"), decl("padding", "1px ! important")]
    );
}

#[test]
fn property_names_are_lowercased_and_values_kept() {
    let rules = parse_stylesheet("P { Font-Size : 12PX ; ; color red; : x; y: ; a: b: c }");
    assert_eq!(rules[0].declarations, vec![decl("font-size", "12PX"), decl("a", "b: c")]);
    assert_eq!(rules[0].selectors[0], vec![descendant(vec![SimplePart::Tag("P".to_string())])]);
}

#[test]
fn media_blocks_tag_their_rules() {
    let rules = parse_stylesheet("a { x: 1 } @media print and (max-width: 500px) { b { y: 2 } c, d { z: 3 } } e { w: 4 }");
    assert_eq!(rules.len(), 4);
    let q = MediaQuery { media_type: Some(MediaType::Print), max_width_px: Some(500), ..Default::default() };
    assert_eq!(rules[0].media, None);
    assert_eq!(rules[1].media, Some(q.clone()));
    assert_eq!(rules[2].media, Some(q));
    assert_eq!(rules[2].selectors.len(), 2);
    assert_eq!(rules[3].media, None);
    assert_eq!(rules[3].declarations, vec![decl("w", "4")]);
}

#[test]
fn nested_media_keeps_the_inner_condition() {
    let rules = parse_stylesheet("@media print { @media screen { a { x: 1 } } b { y: 2 } }");
    assert_eq!(rules.len(), 2);
    assert_eq!(rules[0].media.unwrap().media_type, Some(MediaType::Screen));
    assert_eq!(rules[1].media.unwrap().media_type, Some(MediaType::Print));
}

#[test]
fn unclosed_blocks_stop_parsing() {
    assert_eq!(parse_stylesheet("a { x: 1 } b { y: 2").len(), 1);
    assert_eq!(parse_stylesheet("@media print { a { x: 1 }").len(), 0);
    assert_eq!(parse_stylesheet("no blocks at all").len(), 0);
    assert_eq!(parse_stylesheet("").len(), 0);
    assert_eq!(parse_stylesheet("p { color: red; } /* open comment { b { c: d }").len(), 1);
}

#[test]
fn blocks_without_a_selector_give_no_rule() {
    let rules = parse_stylesheet("{ x: 1 } , { y: 2 } p { z: 3 }");
    assert_eq!(rules.len(), 1);
    assert_eq!(rules[0].declarations, vec![decl("z", "3")]);
}
