//! `@media` queries: parsing and evaluation.
//!
//! Supported syntax: `@media <media-type> [and (<feature>: <value>)]*`
//!   - media-type: `screen` / `print` / `all` (no type, or `all`, matches
//!     every `MediaContext::media_type`).
//!   - feature: `min-width` / `max-width` / `width`, with values of the form
//!     `<number>px` only.
//!   - features are joined with `and` only.
//! Unknown tokens (unknown media types, unknown feature names) do not make
//! the parse fail: the token is ignored, so it imposes no condition, while
//! the recognised conditions still apply.
use vstd::prelude::*;
use crate::text;
use crate::text::{chars_of, ends_with_exec, find_exec, lower_exec, split_exec, trim_range};

verus! {

broadcast use vstd::seq::group_seq_axioms;

/// The media type of an `@media` query. "No type" (absent or `all`) is
/// `None` in `MediaQuery::media_type`.
#[derive(Debug, Clone, Copy, PartialEq, Eq, Structural)]
pub enum MediaType {
    Screen,
    Print,
}

/// A parsed `@media` condition: the conjunction of all its fields, where a
/// `None` field imposes no condition.
#[derive(Debug, Clone, Copy, PartialEq, Eq, Structural)]
pub struct MediaQuery {
    pub media_type: Option<MediaType>,
    pub min_width_px: Option<u32>,
    pub max_width_px: Option<u32>,
    pub width_px: Option<u32>,
}

/// The output medium a cascade is computed for.
#[derive(Debug, Clone, Copy, PartialEq, Eq, Structural)]
pub struct MediaContext {
    pub media_type: MediaType,
    pub viewport_width_px: u32,
}

/// The query that imposes no condition.
pub open spec fn empty_query() -> MediaQuery {
    MediaQuery { media_type: None, min_width_px: None, max_width_px: None, width_px: None }
}

/// The default context: `screen`, 1920px wide (a desktop).
pub open spec fn default_context() -> MediaContext {
    MediaContext { media_type: MediaType::Screen, viewport_width_px: 1920 }
}

impl Default for MediaQuery {
    fn default() -> (q: Self)
        ensures
            q == empty_query(),
    {
        MediaQuery { media_type: None, min_width_px: None, max_width_px: None, width_px: None }
    }
}

impl Default for MediaContext {
    /// `screen`, 1920px wide (a desktop).
    fn default() -> (c: Self)
        ensures
            c == default_context(),
    {
        MediaContext { media_type: MediaType::Screen, viewport_width_px: 1920 }
    }
}

/// Whether `q` holds in `ctx`: every condition that `q` states holds.
pub open spec fn query_holds(q: MediaQuery, ctx: MediaContext) -> bool {
    &&& (q.media_type matches Some(t) ==> t == ctx.media_type)
    &&& (q.min_width_px matches Some(min) ==> ctx.viewport_width_px >= min)
    &&& (q.max_width_px matches Some(max) ==> ctx.viewport_width_px <= max)
    &&& (q.width_px matches Some(w) ==> ctx.viewport_width_px == w)
}

/// The query that states no condition holds in every context.
pub proof fn law_empty_query_holds_everywhere(ctx: MediaContext)
    ensures
        query_holds(empty_query(), ctx),
{
}

/// Whether `query` matches `ctx` (the conjunction of all its conditions).
pub fn media_query_matches(query: &MediaQuery, ctx: &MediaContext) -> (r: bool)
    ensures
        r == query_holds(*query, *ctx),
{
    if let Some(t) = query.media_type {
        if t != ctx.media_type {
            return false;
        }
    }
    if let Some(min) = query.min_width_px {
        if ctx.viewport_width_px < min {
            return false;
        }
    }
    if let Some(max) = query.max_width_px {
        if ctx.viewport_width_px > max {
            return false;
        }
    }
    if let Some(w) = query.width_px {
        if ctx.viewport_width_px != w {
            return false;
        }
    }
    true
}

pub open spec fn is_digit(c: char) -> bool {
    '0' <= c && c <= '9'
}

pub open spec fn digit_value(c: char) -> nat {
    (c as u32 - '0' as u32) as nat
}

/// The number written by the decimal digits `s`.
pub open spec fn digits_value(s: Seq<char>) -> nat
    decreases s.len(),
{
    if s.len() == 0 {
        0
    } else {
        digits_value(s.drop_last()) * 10 + digit_value(s.last())
    }
}

/// `s` without the `+` sign it may start with.
pub open spec fn unsigned_digits(s: Seq<char>) -> Seq<char> {
    if s.len() > 0 && s[0] == '+' {
        s.drop_first()
    } else {
        s
    }
}

/// Every character of `d` is an ASCII digit.
pub open spec fn all_digits(d: Seq<char>) -> bool {
    forall|i: int| 0 <= i < d.len() ==> is_digit(#[trigger] d[i])
}

/// `<u32 as FromStr>::from_str`: an optional `+`, then at least one ASCII
/// digit and nothing else, for a value that fits in a `u32`.
pub open spec fn parse_u32(s: Seq<char>) -> Option<u32> {
    let d = unsigned_digits(s);
    if d.len() > 0 && all_digits(d) && digits_value(d) <= u32::MAX {
        Some(digits_value(d) as u32)
    } else {
        None
    }
}

/// `parse_u32(v[lo..hi])`.
pub(crate) fn parse_u32_exec(v: &Vec<char>, lo: usize, hi: usize) -> (r: Option<u32>)
    requires
        lo <= hi <= v.len(),
    ensures
        r == parse_u32(v@.subrange(lo as int, hi as int)),
{
    let ghost s = v@.subrange(lo as int, hi as int);
    let start = if lo < hi && v[lo] == '+' {
        lo + 1
    } else {
        lo
    };
    let ghost d = v@.subrange(start as int, hi as int);
    assert(d == unsigned_digits(s));
    if start == hi {
        return None;
    }
    let mut value: u64 = 0;
    let mut over = false;
    let mut i = start;
    while i < hi
        invariant
            start <= i <= hi <= v.len(),
            d == v@.subrange(start as int, hi as int),
            s == v@.subrange(lo as int, hi as int),
            d == unsigned_digits(s),
            forall|k: int| start <= k < i ==> is_digit(#[trigger] v@[k]),
            !over ==> value == digits_value(v@.subrange(start as int, i as int)),
            !over ==> value <= u32::MAX,
            over ==> digits_value(v@.subrange(start as int, i as int)) > u32::MAX,
        decreases hi - i,
    {
        let c = v[i];
        if !('0' <= c && c <= '9') {
            assert(d[i - start] == c);
            assert(!all_digits(d));
            return None;
        }
        let ghost prev = v@.subrange(start as int, i as int);
        assert(v@.subrange(start as int, i + 1).drop_last() =~= prev);
        assert(digits_value(v@.subrange(start as int, i + 1)) == digits_value(prev) * 10
            + digit_value(c));
        if !over {
            let next = value * 10 + ((c as u32) - ('0' as u32)) as u64;
            if next > 4294967295 {
                over = true;
            } else {
                value = next;
            }
        }
        i = i + 1;
    }
    assert(v@.subrange(start as int, hi as int) =~= d);
    if over {
        None
    } else {
        Some(value as u32)
    }
}

/// A width value: `<number>px`, with whitespace allowed around the number.
pub open spec fn parse_px(s: Seq<char>) -> Option<u32> {
    let t = text::trim(s);
    if text::has_suffix(t, "px"@) {
        parse_u32(text::trim(t.subrange(0, t.len() - 2)))
    } else {
        None
    }
}

/// `parse_px(v[lo..hi])`.
fn parse_px_exec(v: &Vec<char>, lo: usize, hi: usize) -> (r: Option<u32>)
    requires
        lo <= hi <= v.len(),
    ensures
        r == parse_px(v@.subrange(lo as int, hi as int)),
{
    let (a, b) = trim_range(v, lo, hi);
    let px = chars_of("px");
    proof {
        reveal_strlit("px");
    }
    if !ends_with_exec(v, a, b, &px) {
        return None;
    }
    assert(px@.len() == 2);
    let (c, d) = trim_range(v, a, b - 2);
    assert(v@.subrange(a as int, b as int).subrange(0, (b - a) - 2) =~= v@.subrange(
        a as int,
        b - 2,
    ));
    parse_u32_exec(v, c, d)
}

/// The effect of one `and`-separated token on the query parsed so far.
pub open spec fn apply_media_token(q: MediaQuery, token: Seq<char>) -> MediaQuery {
    let t = text::trim(token);
    if t.len() == 0 {
        q
    } else if t.len() >= 2 && t[0] == '(' && t.last() == ')' {
        let inner = t.subrange(1, t.len() - 1);
        match text::find(inner, seq![':']) {
            None => q,
            Some(i) => {
                let key = text::lower(text::trim(inner.subrange(0, i)));
                let value = inner.subrange(i + 1, inner.len() as int);
                if key == "min-width"@ {
                    MediaQuery { min_width_px: parse_px(value), ..q }
                } else if key == "max-width"@ {
                    MediaQuery { max_width_px: parse_px(value), ..q }
                } else if key == "width"@ {
                    MediaQuery { width_px: parse_px(value), ..q }
                } else {
                    q
                }
            },
        }
    } else {
        let name = text::lower(t);
        if name == "screen"@ {
            MediaQuery { media_type: Some(MediaType::Screen), ..q }
        } else if name == "print"@ {
            MediaQuery { media_type: Some(MediaType::Print), ..q }
        } else if name == "all"@ {
            MediaQuery { media_type: None, ..q }
        } else {
            q
        }
    }
}

/// The tokens applied in order, starting from `q`.
pub open spec fn apply_media_tokens(q: MediaQuery, tokens: Seq<Seq<char>>) -> MediaQuery
    decreases tokens.len(),
{
    if tokens.len() == 0 {
        q
    } else {
        apply_media_token(apply_media_tokens(q, tokens.drop_last()), tokens.last())
    }
}

/// The query written between `@media` and `{`.
pub open spec fn media_query_of(s: Seq<char>) -> MediaQuery {
    apply_media_tokens(empty_query(), text::split(s, "and"@))
}

/// The feature a token names, if it is a parenthesised `name: value`
/// feature: the name, trimmed and lowercased.
pub open spec fn feature_name(token: Seq<char>) -> Option<Seq<char>> {
    let t = text::trim(token);
    if t.len() >= 2 && t[0] == '(' && t.last() == ')' {
        let inner = t.subrange(1, t.len() - 1);
        match text::find(inner, seq![':']) {
            Some(i) => Some(text::lower(text::trim(inner.subrange(0, i)))),
            None => None,
        }
    } else {
        None
    }
}

/// The token is a media type word (`screen`, `print` or `all`, in any
/// case), not a parenthesised feature.
pub open spec fn is_type_word(token: Seq<char>) -> bool {
    let t = text::trim(token);
    &&& !(t.len() >= 2 && t[0] == '(' && t.last() == ')')
    &&& (text::lower(t) == "screen"@ || text::lower(t) == "print"@ || text::lower(t) == "all"@)
}

pub open spec fn is_min_width_token(token: Seq<char>) -> bool {
    feature_name(token) == Some("min-width"@)
}

pub open spec fn is_max_width_token(token: Seq<char>) -> bool {
    feature_name(token) == Some("max-width"@)
}

pub open spec fn is_width_token(token: Seq<char>) -> bool {
    feature_name(token) == Some("width"@)
}

proof fn lemma_token_fields(q1: MediaQuery, q2: MediaQuery, token: Seq<char>)
    ensures
        is_min_width_token(token) ==> apply_media_token(q1, token).min_width_px == apply_media_token(
            q2,
            token,
        ).min_width_px,
        !is_min_width_token(token) ==> apply_media_token(q1, token).min_width_px == q1.min_width_px,
        is_max_width_token(token) ==> apply_media_token(q1, token).max_width_px == apply_media_token(
            q2,
            token,
        ).max_width_px,
        !is_max_width_token(token) ==> apply_media_token(q1, token).max_width_px == q1.max_width_px,
        is_width_token(token) ==> apply_media_token(q1, token).width_px == apply_media_token(
            q2,
            token,
        ).width_px,
        !is_width_token(token) ==> apply_media_token(q1, token).width_px == q1.width_px,
        is_type_word(token) ==> apply_media_token(q1, token).media_type == apply_media_token(
            q2,
            token,
        ).media_type,
        !is_type_word(token) ==> apply_media_token(q1, token).media_type == q1.media_type,
{
    reveal_strlit("min-width");
    reveal_strlit("max-width");
    reveal_strlit("width");
    reveal_strlit("screen");
    reveal_strlit("print");
    reveal_strlit("all");
    assert("max-width"@ != "min-width"@) by {
        assert("max-width"@[1] != "min-width"@[1]);
    }
    assert("width"@ != "min-width"@ && "width"@ != "max-width"@) by {
        assert("width"@.len() != "min-width"@.len());
    }
    let t = text::trim(token);
    if is_type_word(token) {
        assert(text::lower(t).len() == t.len());
        assert(t.len() > 0);
    }
}

proof fn lemma_fields_by_tokens(q1: MediaQuery, q2: MediaQuery, ts: Seq<Seq<char>>)
    ensures
        q1.min_width_px == q2.min_width_px ==> apply_media_tokens(q1, ts).min_width_px
            == apply_media_tokens(q2, ts.filter(|t: Seq<char>| is_min_width_token(t))).min_width_px,
        q1.max_width_px == q2.max_width_px ==> apply_media_tokens(q1, ts).max_width_px
            == apply_media_tokens(q2, ts.filter(|t: Seq<char>| is_max_width_token(t))).max_width_px,
        q1.width_px == q2.width_px ==> apply_media_tokens(q1, ts).width_px == apply_media_tokens(
            q2,
            ts.filter(|t: Seq<char>| is_width_token(t)),
        ).width_px,
        q1.media_type == q2.media_type ==> apply_media_tokens(q1, ts).media_type
            == apply_media_tokens(q2, ts.filter(|t: Seq<char>| is_type_word(t))).media_type,
    decreases ts.len(),
{
    reveal_with_fuel(Seq::<_>::filter, 1);
    if ts.len() > 0 {
        let pre = ts.drop_last();
        let last = ts.last();
        lemma_fields_by_tokens(q1, q2, pre);
        let a1 = apply_media_tokens(q1, pre);
        let fmin = pre.filter(|t: Seq<char>| is_min_width_token(t));
        let fmax = pre.filter(|t: Seq<char>| is_max_width_token(t));
        let fw = pre.filter(|t: Seq<char>| is_width_token(t));
        let fty = pre.filter(|t: Seq<char>| is_type_word(t));
        lemma_token_fields(a1, apply_media_tokens(q2, fmin), last);
        lemma_token_fields(a1, apply_media_tokens(q2, fmax), last);
        lemma_token_fields(a1, apply_media_tokens(q2, fw), last);
        lemma_token_fields(a1, apply_media_tokens(q2, fty), last);
        assert(fmin.push(last).drop_last() =~= fmin);
        assert(fmax.push(last).drop_last() =~= fmax);
        assert(fw.push(last).drop_last() =~= fw);
        assert(fty.push(last).drop_last() =~= fty);
    }
}

/// The fields of a parsed query are independent: each is decided by the
/// tokens that concern it alone (`min-width` features for `min_width_px`,
/// `max-width` features for `max_width_px`, `width` features for
/// `width_px`, media type words for `media_type`), whatever other tokens
/// stand around them.
pub proof fn law_media_fields_independent(s: Seq<char>)
    ensures
        ({
            let ts = text::split(s, "and"@);
            &&& media_query_of(s).min_width_px == apply_media_tokens(
                empty_query(),
                ts.filter(|t: Seq<char>| is_min_width_token(t)),
            ).min_width_px
            &&& media_query_of(s).max_width_px == apply_media_tokens(
                empty_query(),
                ts.filter(|t: Seq<char>| is_max_width_token(t)),
            ).max_width_px
            &&& media_query_of(s).width_px == apply_media_tokens(
                empty_query(),
                ts.filter(|t: Seq<char>| is_width_token(t)),
            ).width_px
            &&& media_query_of(s).media_type == apply_media_tokens(
                empty_query(),
                ts.filter(|t: Seq<char>| is_type_word(t)),
            ).media_type
        }),
{
    lemma_fields_by_tokens(empty_query(), empty_query(), text::split(s, "and"@));
}

/// Whether the two character sequences are equal.
pub(crate) fn chars_eq(a: &Vec<char>, b: &Vec<char>) -> (r: bool)
    ensures
        r == (a@ == b@),
{
    if a.len() != b.len() {
        return false;
    }
    let mut i: usize = 0;
    while i < a.len()
        invariant
            a.len() == b.len(),
            0 <= i <= a.len(),
            forall|k: int| 0 <= k < i ==> a@[k] == b@[k],
        decreases a.len() - i,
    {
        if a[i] != b[i] {
            return false;
        }
        i = i + 1;
    }
    assert(a@ =~= b@);
    true
}

fn apply_media_token_exec(q: MediaQuery, v: &Vec<char>, lo: usize, hi: usize) -> (r: MediaQuery)
    requires
        lo <= hi <= v.len(),
    ensures
        r == apply_media_token(q, v@.subrange(lo as int, hi as int)),
{
    let (a, b) = trim_range(v, lo, hi);
    let ghost t = v@.subrange(a as int, b as int);
    if a == b {
        return q;
    }
    assert(t.len() > 0 ==> t[0] == v@[a as int] && t.last() == v@[b - 1]);
    if b - a >= 2 && v[a] == '(' && v[b - 1] == ')' {
        let ghost inner = t.subrange(1, t.len() - 1);
        assert(inner =~= v@.subrange(a + 1, b - 1));
        let colon = vec![':'];
        assert(colon@ == seq![':']);
        match find_exec(v, a + 1, b - 1, &colon) {
            None => q,
            Some(i) => {
                let (ka, kb) = trim_range(v, a + 1, i);
                let key = lower_exec(v, ka, kb);
                assert(inner.subrange(0, i - (a + 1)) =~= v@.subrange(a + 1, i as int));
                assert(inner.subrange(i - (a + 1) + 1, inner.len() as int) =~= v@.subrange(
                    i + 1,
                    b - 1,
                ));
                if chars_eq(&key, &chars_of("min-width")) {
                    MediaQuery { min_width_px: parse_px_exec(v, i + 1, b - 1), ..q }
                } else if chars_eq(&key, &chars_of("max-width")) {
                    MediaQuery { max_width_px: parse_px_exec(v, i + 1, b - 1), ..q }
                } else if chars_eq(&key, &chars_of("width")) {
                    MediaQuery { width_px: parse_px_exec(v, i + 1, b - 1), ..q }
                } else {
                    q
                }
            },
        }
    } else {
        let name = lower_exec(v, a, b);
        if chars_eq(&name, &chars_of("screen")) {
            MediaQuery { media_type: Some(MediaType::Screen), ..q }
        } else if chars_eq(&name, &chars_of("print")) {
            MediaQuery { media_type: Some(MediaType::Print), ..q }
        } else if chars_eq(&name, &chars_of("all")) {
            MediaQuery { media_type: None, ..q }
        } else {
            q
        }
    }
}

/// `media_query_of(v[lo..hi])`.
pub(crate) fn parse_media_query_range(v: &Vec<char>, lo: usize, hi: usize) -> (q: MediaQuery)
    requires
        lo <= hi <= v.len(),
    ensures
        q == media_query_of(v@.subrange(lo as int, hi as int)),
{
    let and = chars_of("and");
    proof {
        reveal_strlit("and");
    }
    let tokens = split_exec(v, lo, hi, &and);
    let ghost toks = text::split(v@.subrange(lo as int, hi as int), "and"@);
    let mut q = MediaQuery::default();
    let mut k: usize = 0;
    while k < tokens.len()
        invariant
            lo <= hi <= v.len(),
            0 <= k <= tokens.len(),
            text::ranges_within(tokens@, lo as int, hi as int),
            text::pieces(v@, tokens@) == toks,
            q == apply_media_tokens(empty_query(), toks.take(k as int)),
        decreases tokens.len() - k,
    {
        let (a, b) = tokens[k];
        assert(lo <= tokens@[k as int].0 <= tokens@[k as int].1 <= hi);
        q = apply_media_token_exec(q, v, a, b);
        assert(toks.take(k + 1).drop_last() =~= toks.take(k as int));
        assert(toks[k as int] == v@.subrange(a as int, b as int));
        k = k + 1;
    }
    assert(toks.take(tokens.len() as int) =~= toks);
    q
}

/// Parses the text between `@media` and `{` (for example
/// `"screen and (min-width: 768px)"`). Unknown tokens are ignored.
pub fn parse_media_query(input: &str) -> (q: MediaQuery)
    ensures
        q == media_query_of(input@),
{
    let v = chars_of(input);
    assert(v@.subrange(0, v@.len() as int) =~= v@);
    parse_media_query_range(&v, 0, v.len())
}

} // verus!
