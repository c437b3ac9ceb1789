//! A CSS parser, selector matcher and cascade engine, independent of any
//! particular DOM: elements are reached through the `ElementLike` trait.
//!
//! - `parser`: stylesheets into rules (selectors, declarations, `@media`).
//! - `selector`: selectors, specificity, and matching against elements.
//! - `media`: `@media` queries and their evaluation.
//! - `cascade`: the computed style of an element.
//! - `text`: the character-level scanning the parsers share.

pub mod cascade;
pub mod media;
pub mod parser;
pub mod selector;
pub mod text;

pub use cascade::{compute_style, style_to_string, ComputedStyle};
pub use media::{media_query_matches, parse_media_query, MediaContext, MediaQuery, MediaType};
pub use parser::{parse_stylesheet, Declaration, Rule};
pub use selector::{
    matches_selector, parse_compound_selector, parse_selector, selector_specificity, specificity,
    Combinator, CompoundSelector, ElementLike, Selector, SelectorSegment, SimplePart,
};
