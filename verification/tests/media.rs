use rcss3::{media_query_matches, parse_media_query, MediaContext, MediaQuery, MediaType};

fn screen(width: u32) -> MediaContext {
    MediaContext { media_type: MediaType::Screen, viewport_width_px: width }
}

#[test]
fn parses_media_type_only() {
    assert_eq!(parse_media_query("screen"), MediaQuery { media_type: Some(MediaType::Screen), ..Default::default() });
    assert_eq!(parse_media_query("print"), MediaQuery { media_type: Some(MediaType::Print), ..Default::default() });
}

#[test]
fn parses_media_type_with_width_feature() {
    let q = parse_media_query("screen and (min-width: 768px)");
    assert_eq!(q, MediaQuery { media_type: Some(MediaType::Screen), min_width_px: Some(768), ..Default::default() });
}

#[test]
fn min_width_matches_when_viewport_is_at_or_above_threshold() {
    let q = parse_media_query("(min-width: 768px)");
    assert!(media_query_matches(&q, &MediaContext { media_type: MediaType::Screen, viewport_width_px: 768 }));
    assert!(media_query_matches(&q, &MediaContext { media_type: MediaType::Screen, viewport_width_px: 1024 }));
    assert!(!media_query_matches(&q, &MediaContext { media_type: MediaType::Screen, viewport_width_px: 500 }));
}

#[test]
fn media_type_mismatch_excludes_regardless_of_width() {
    let q = parse_media_query("print");
    assert!(!media_query_matches(&q, &MediaContext { media_type: MediaType::Screen, viewport_width_px: 1920 }));
    assert!(media_query_matches(&q, &MediaContext { media_type: MediaType::Print, viewport_width_px: 1920 }));
}

#[test]
fn parses_every_feature_and_keyword_case_insensitively() {
    let q = parse_media_query("PRINT and ( Max-Width : 1024px ) and (width: 800 px)");
    assert_eq!(
        q,
        MediaQuery { media_type: Some(MediaType::Print), min_width_px: None, max_width_px: Some(1024), width_px: Some(800) }
    );
    assert_eq!(parse_media_query("print and all"), MediaQuery::default());
}

#[test]
fn unknown_tokens_are_ignored() {
    assert_eq!(parse_media_query("tv and (orientation: landscape)"), MediaQuery::default());
    assert_eq!(parse_media_query(""), MediaQuery::default());
    assert_eq!(parse_media_query("(min-width 10px)"), MediaQuery::default());
    assert_eq!(parse_media_query("("), MediaQuery::default());
}

#[test]
fn malformed_width_values_clear_the_condition() {
    assert_eq!(parse_media_query("(min-width: 10em)").min_width_px, None);
    assert_eq!(parse_media_query("(min-width: 10px) and (min-width: x)").min_width_px, None);
    assert_eq!(parse_media_query("(max-width: +12px)").max_width_px, Some(12));
    assert_eq!(parse_media_query("(max-width: -12px)").max_width_px, None);
    assert_eq!(parse_media_query("(max-width: 4294967295px)").max_width_px, Some(4294967295));
    assert_eq!(parse_media_query("(max-width: 4294967296px)").max_width_px, None);
    assert_eq!(parse_media_query("(max-width: px)").max_width_px, None);
}

#[test]
fn width_conditions_bound_the_viewport() {
    let q = MediaQuery { media_type: None, min_width_px: Some(100), max_width_px: Some(200), width_px: None };
    assert!(media_query_matches(&q, &screen(100)));
    assert!(media_query_matches(&q, &screen(200)));
    assert!(!media_query_matches(&q, &screen(201)));
    assert!(!media_query_matches(&q, &screen(99)));
    let exact = MediaQuery { width_px: Some(640), ..Default::default() };
    assert!(media_query_matches(&exact, &screen(640)));
    assert!(!media_query_matches(&exact, &screen(641)));
}

#[test]
fn empty_query_matches_every_context() {
    let q = MediaQuery::default();
    assert!(media_query_matches(&q, &screen(0)));
    assert!(media_query_matches(&q, &MediaContext { media_type: MediaType::Print, viewport_width_px: 5 }));
}

#[test]
fn default_context_is_a_desktop_screen() {
    assert_eq!(MediaContext::default(), MediaContext { media_type: MediaType::Screen, viewport_width_px: 1920 });
}
