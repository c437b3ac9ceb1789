//! The stylesheet parser: comments are removed, the text is split into
//! `selectors { declarations }` blocks, and each declaration
//! (`property: value;`) is parsed, all in one sequential scan.
//!
//! Supported: comma-separated selector lists (`h1, h2 { ... }`),
//! semicolon-separated declarations, comments, a trailing `!important`
//! (`value!important` or `value !important`, in any letter case; `! important`
//! with a space after `!` is not recognised and stays part of the value), and
//! `@media` blocks (see `media` for the supported query syntax).
//! Not supported: custom properties, `{`, `}` or `;` inside strings, cascade
//! layers.
use vstd::prelude::*;
use crate::media::{self, MediaQuery, parse_media_query_range};
use crate::selector::{self, Selector, selector_range};
use crate::text;
use crate::text::{
    chars_of,
    ends_with_exec,
    find_exec,
    lower_exec,
    split_exec,
    starts_with_exec,
    string_of,
    trim_end_range,
    trim_range,
};

verus! {

broadcast use vstd::seq::group_seq_axioms;

/// One `property: value` declaration.
#[derive(Debug, Clone, PartialEq, Eq)]
pub struct Declaration {
    pub property: String,
    pub value: String,
    /// The declaration ended in `!important`: in the cascade it beats every
    /// declaration without it, whatever their specificities.
    pub important: bool,
}

/// One block of declarations and the selectors it applies to.
#[derive(Debug, Clone, PartialEq, Eq)]
pub struct Rule {
    /// A comma-separated selector list gives one rule with several
    /// selectors, all sharing the declarations.
    pub selectors: Vec<Selector>,
    pub declarations: Vec<Declaration>,
    /// The condition of the enclosing `@media` block; `None` (always
    /// applies) for a rule outside any `@media` block.
    pub media: Option<MediaQuery>,
}

/// The mathematical value of a `Declaration`.
pub struct DeclModel {
    pub property: Seq<char>,
    pub value: Seq<char>,
    pub important: bool,
}

/// The mathematical value of a `Rule`.
pub struct RuleModel {
    pub selectors: Seq<Seq<selector::SegmentModel>>,
    pub declarations: Seq<DeclModel>,
    pub media: Option<MediaQuery>,
}

impl View for Declaration {
    type V = DeclModel;

    open spec fn view(&self) -> DeclModel {
        DeclModel { property: self.property@, value: self.value@, important: self.important }
    }
}

impl DeepView for Declaration {
    type V = DeclModel;

    open spec fn deep_view(&self) -> DeclModel {
        self@
    }
}

impl View for Rule {
    type V = RuleModel;

    open spec fn view(&self) -> RuleModel {
        RuleModel {
            selectors: self.selectors.deep_view(),
            declarations: self.declarations.deep_view(),
            media: self.media,
        }
    }
}

impl DeepView for Rule {
    type V = RuleModel;

    open spec fn deep_view(&self) -> RuleModel {
        self@
    }
}

/// `s` with every `/* ... */` comment removed; an unterminated comment runs
/// to the end.
pub open spec fn strip_comments(s: Seq<char>) -> Seq<char>
    decreases s.len(),
{
    if s.len() == 0 {
        s
    } else if s.len() >= 2 && s[0] == '/' && s[1] == '*' {
        let t = s.subrange(2, s.len() as int);
        match text::find(t, seq!['*', '/']) {
            None => Seq::empty(),
            Some(i) => {
                proof {
                    text::lemma_find_from(t, seq!['*', '/'], 0);
                }
                strip_comments(t.subrange(i + 2, t.len() as int))
            },
        }
    } else {
        seq![s[0]] + strip_comments(s.subrange(1, s.len() as int))
    }
}

pub proof fn lemma_strip_comments_len(s: Seq<char>)
    ensures
        strip_comments(s).len() <= s.len(),
    decreases s.len(),
{
    if s.len() == 0 {
    } else if s.len() >= 2 && s[0] == '/' && s[1] == '*' {
        let t = s.subrange(2, s.len() as int);
        text::lemma_find_from(t, seq!['*', '/'], 0);
        match text::find(t, seq!['*', '/']) {
            None => {},
            Some(i) => {
                lemma_strip_comments_len(t.subrange(i + 2, t.len() as int));
            },
        }
    } else {
        lemma_strip_comments_len(s.subrange(1, s.len() as int));
    }
}

/// `strip_comments(v[lo..hi])`.
fn strip_comments_range(v: &Vec<char>, lo: usize, hi: usize) -> (r: Vec<char>)
    requires
        lo <= hi <= v.len(),
    ensures
        r@ == strip_comments(v@.subrange(lo as int, hi as int)),
{
    let close = vec!['*', '/'];
    assert(close@ == seq!['*', '/']);
    let mut out: Vec<char> = Vec::new();
    let mut i = lo;
    while i < hi
        invariant
            lo <= i <= hi <= v.len(),
            close@ == seq!['*', '/'],
            out@ + strip_comments(v@.subrange(i as int, hi as int)) == strip_comments(
                v@.subrange(lo as int, hi as int),
            ),
        decreases hi - i,
    {
        let ghost s = v@.subrange(i as int, hi as int);
        if i + 1 < hi && v[i] == '/' && v[i + 1] == '*' {
            let ghost t = s.subrange(2, s.len() as int);
            assert(t =~= v@.subrange(i + 2, hi as int));
            match find_exec(v, i + 2, hi, &close) {
                None => {
                    assert(strip_comments(s) =~= Seq::<char>::empty());
                    assert(out@ + strip_comments(v@.subrange(hi as int, hi as int)) =~= out@
                        + strip_comments(s));
                    i = hi;
                },
                Some(j) => {
                    assert(t.subrange(j - (i + 2) + 2, t.len() as int) =~= v@.subrange(
                        j + 2,
                        hi as int,
                    ));
                    i = j + 2;
                },
            }
        } else {
            let ghost before = out@;
            out.push(v[i]);
            assert(s.subrange(1, s.len() as int) =~= v@.subrange(i + 1, hi as int));
            assert(out@ + strip_comments(v@.subrange(i + 1, hi as int)) =~= before
                + strip_comments(s));
            i = i + 1;
        }
    }
    assert(out@ + strip_comments(v@.subrange(hi as int, hi as int)) =~= out@);
    out
}

/// The value without a trailing `!important` (matched in any letter case,
/// then trailing whitespace removed), and whether there was one.
pub open spec fn important_of(value: Seq<char>) -> (Seq<char>, bool) {
    if text::has_suffix(text::lower(value), "!important"@) {
        (text::trim_end(value.subrange(0, value.len() - "!important"@.len())), true)
    } else {
        (value, false)
    }
}

/// The declaration written by one `;`-separated piece: a lowercase property
/// name, a colon, a value; `None` when there is no colon or the property or
/// the value is empty.
pub open spec fn declaration_of(piece: Seq<char>) -> Option<DeclModel> {
    let d = text::trim(piece);
    match text::find(d, seq![':']) {
        None => None,
        Some(i) => {
            let property = text::lower(text::trim(d.subrange(0, i)));
            let (value, important) = important_of(
                text::trim(d.subrange(i + 1, d.len() as int)),
            );
            if property.len() == 0 || value.len() == 0 {
                None
            } else {
                Some(DeclModel { property, value, important })
            }
        },
    }
}

/// The declarations written by the pieces, in order, skipping the pieces
/// that write none.
pub open spec fn declarations_from(pieces: Seq<Seq<char>>) -> Seq<DeclModel>
    decreases pieces.len(),
{
    if pieces.len() == 0 {
        Seq::empty()
    } else {
        declarations_from(pieces.drop_last()) + match declaration_of(pieces.last()) {
            Some(d) => seq![d],
            None => Seq::empty(),
        }
    }
}

/// The declarations of a block (the text between `{` and `}`).
pub open spec fn declarations_of(block: Seq<char>) -> Seq<DeclModel> {
    declarations_from(text::split(block, seq![';']))
}

/// The selectors written by the pieces, in order, skipping the pieces that
/// write none.
pub open spec fn selectors_from(pieces: Seq<Seq<char>>) -> Seq<Seq<selector::SegmentModel>>
    decreases pieces.len(),
{
    if pieces.len() == 0 {
        Seq::empty()
    } else {
        selectors_from(pieces.drop_last()) + match selector::selector_of(
            text::trim(pieces.last()),
        ) {
            Some(sel) => seq![sel],
            None => Seq::empty(),
        }
    }
}

/// The selectors of a comma-separated selector list.
pub open spec fn selectors_of(list: Seq<char>) -> Seq<Seq<selector::SegmentModel>> {
    selectors_from(text::split(list, seq![',']))
}

/// The index in `s` of the `}` that closes a block whose `{` came just
/// before `s[i]`, where `depth` blocks are open at `s[i]`.
pub open spec fn close_from(s: Seq<char>, i: int, depth: int) -> Option<int>
    decreases s.len() - i,
{
    if i < 0 || i >= s.len() {
        None
    } else if s[i] == '{' {
        close_from(s, i + 1, depth + 1)
    } else if s[i] == '}' {
        if depth == 1 {
            Some(i)
        } else {
            close_from(s, i + 1, depth - 1)
        }
    } else {
        close_from(s, i + 1, depth)
    }
}

/// The index of the `}` that closes the block opened just before `s`,
/// counting the nested `{` and `}` in between.
pub open spec fn matching_close(s: Seq<char>) -> Option<int> {
    close_from(s, 0, 1)
}

pub proof fn lemma_close_from(s: Seq<char>, i: int, depth: int)
    requires
        0 <= i,
    ensures
        close_from(s, i, depth) matches Some(j) ==> i <= j < s.len() && s[j] == '}',
    decreases s.len() - i,
{
    if i < s.len() {
        if s[i] == '{' {
            lemma_close_from(s, i + 1, depth + 1);
        } else if s[i] == '}' {
            if depth != 1 {
                lemma_close_from(s, i + 1, depth - 1);
            }
        } else {
            lemma_close_from(s, i + 1, depth);
        }
    }
}

/// The rules with the media condition `q` given to those that have none.
pub open spec fn with_media(rules: Seq<RuleModel>, q: MediaQuery) -> Seq<RuleModel> {
    rules.map_values(
        |r: RuleModel|
            if r.media is None {
                RuleModel { media: Some(q), ..r }
            } else {
                r
            },
    )
}

/// The rules of the comment-free text `s`, in source order. Each block is
/// the text up to the next `{` (the prelude) and the block after it:
/// - an `@media` prelude takes the block up to its matching `}`; its rules
///   are parsed as a stylesheet of their own, and those without a media
///   condition get the one of this prelude;
/// - any other prelude is a selector list whose block runs to the next
///   `}`; it gives one rule when the list has a selector, none otherwise.
/// Parsing stops at a block that is never closed.
pub open spec fn rules_of(s: Seq<char>) -> Seq<RuleModel>
    decreases s.len(), 0int,
{
    match text::find(s, seq!['{']) {
        None => Seq::empty(),
        Some(open) => {
            proof {
                text::lemma_find_from(s, seq!['{'], 0);
            }
            let prelude = text::trim(s.subrange(0, open));
            let after = s.subrange(open + 1, s.len() as int);
            if text::has_prefix(prelude, "@media"@) {
                match matching_close(after) {
                    None => Seq::empty(),
                    Some(close) => {
                        proof {
                            lemma_close_from(after, 0, 1);
                        }
                        let q = media::media_query_of(
                            text::trim(prelude.subrange("@media"@.len() as int, prelude.len() as int)),
                        );
                        with_media(stylesheet_of(after.subrange(0, close)), q) + rules_of(
                            after.subrange(close + 1, after.len() as int),
                        )
                    },
                }
            } else {
                match text::find(after, seq!['}']) {
                    None => Seq::empty(),
                    Some(close) => {
                        proof {
                            text::lemma_find_from(after, seq!['}'], 0);
                        }
                        let selectors = selectors_of(prelude);
                        let rest = rules_of(after.subrange(close + 1, after.len() as int));
                        if selectors.len() == 0 {
                            rest
                        } else {
                            seq![
                                RuleModel {
                                    selectors,
                                    declarations: declarations_of(after.subrange(0, close)),
                                    media: None,
                                },
                            ] + rest
                        }
                    },
                }
            }
        },
    }
}

/// The rules of a stylesheet, in source order (the cascade gives later
/// rules precedence, so the order matters).
pub open spec fn stylesheet_of(css: Seq<char>) -> Seq<RuleModel>
    decreases css.len(), 1int,
{
    proof {
        lemma_strip_comments_len(css);
    }
    rules_of(strip_comments(css))
}

/// What the parser guarantees of every rule it produces: at least one
/// selector, each with at least one compound selector, each compound
/// selector non-empty and the first joined as a descendant; and
/// declarations with a non-empty lowercase property and a non-empty value.
pub open spec fn rule_well_formed(r: RuleModel) -> bool {
    &&& r.selectors.len() > 0
    &&& forall|k: int| 0 <= k < r.selectors.len() ==> selector_well_formed(#[trigger] r.selectors[k])
    &&& forall|k: int| 0 <= k < r.declarations.len() ==> declaration_well_formed(#[trigger] r.declarations[k])
}

pub open spec fn selector_well_formed(sel: Seq<selector::SegmentModel>) -> bool {
    &&& sel.len() > 0
    &&& sel[0].combinator == selector::Combinator::Descendant
    &&& forall|k: int| 0 <= k < sel.len() ==> (#[trigger] sel[k]).compound.len() > 0
}

pub open spec fn declaration_well_formed(d: DeclModel) -> bool {
    &&& d.property.len() > 0
    &&& d.value.len() > 0
    &&& text::lower(d.property) == d.property
}

proof fn lemma_lower_idempotent(s: Seq<char>)
    ensures
        text::lower(text::lower(s)) == text::lower(s),
{
    assert(text::lower(text::lower(s)) =~= text::lower(s));
}

proof fn lemma_scan_well_formed(ws: Seq<Seq<char>>)
    ensures
        selector::scan_words(ws).segments.len() > 0 ==> selector_well_formed(
            selector::scan_words(ws).segments,
        ),
    decreases ws.len(),
{
    if ws.len() > 0 {
        lemma_scan_well_formed(ws.drop_last());
        let st = selector::scan_words(ws.drop_last());
        let segs = selector::scan_words(ws).segments;
        if segs.len() > st.segments.len() {
            assert forall|k: int| 0 <= k < segs.len() implies (#[trigger] segs[k]).compound.len() > 0 by {
                if k < st.segments.len() {
                    assert(segs[k] == st.segments[k]);
                }
            }
        }
    }
}

proof fn lemma_selectors_from_well_formed(pieces: Seq<Seq<char>>)
    ensures
        forall|k: int|
            0 <= k < selectors_from(pieces).len() ==> selector_well_formed(
                #[trigger] selectors_from(pieces)[k],
            ),
    decreases pieces.len(),
{
    if pieces.len() > 0 {
        lemma_selectors_from_well_formed(pieces.drop_last());
        let w = text::words(text::trim(pieces.last()));
        lemma_scan_well_formed(w);
        let prev = selectors_from(pieces.drop_last());
        assert forall|k: int| 0 <= k < selectors_from(pieces).len() implies selector_well_formed(
            #[trigger] selectors_from(pieces)[k],
        ) by {
            if k < prev.len() {
                assert(selectors_from(pieces)[k] == prev[k]);
            }
        }
    }
}

proof fn lemma_declarations_from_well_formed(pieces: Seq<Seq<char>>)
    ensures
        forall|k: int|
            0 <= k < declarations_from(pieces).len() ==> declaration_well_formed(
                #[trigger] declarations_from(pieces)[k],
            ),
    decreases pieces.len(),
{
    if pieces.len() > 0 {
        lemma_declarations_from_well_formed(pieces.drop_last());
        let prev = declarations_from(pieces.drop_last());
        let d = text::trim(pieces.last());
        match text::find(d, seq![':']) {
            Some(i) => {
                lemma_lower_idempotent(text::trim(d.subrange(0, i)));
            },
            None => {},
        }
        assert forall|k: int| 0 <= k < declarations_from(pieces).len() implies declaration_well_formed(
            #[trigger] declarations_from(pieces)[k],
        ) by {
            if k < prev.len() {
                assert(declarations_from(pieces)[k] == prev[k]);
            }
        }
    }
}

proof fn lemma_rules_of_well_formed(s: Seq<char>)
    ensures
        forall|k: int| 0 <= k < rules_of(s).len() ==> rule_well_formed(#[trigger] rules_of(s)[k]),
    decreases s.len(), 0int,
{
    match text::find(s, seq!['{']) {
        None => {},
        Some(open) => {
            text::lemma_find_from(s, seq!['{'], 0);
            let prelude = text::trim(s.subrange(0, open));
            let after = s.subrange(open + 1, s.len() as int);
            if text::has_prefix(prelude, "@media"@) {
                match matching_close(after) {
                    None => {},
                    Some(close) => {
                        lemma_close_from(after, 0, 1);
                        let q = media::media_query_of(
                            text::trim(prelude.subrange("@media"@.len() as int, prelude.len() as int)),
                        );
                        let inner = stylesheet_of(after.subrange(0, close));
                        let rest = after.subrange(close + 1, after.len() as int);
                        lemma_stylesheet_well_formed(after.subrange(0, close));
                        lemma_rules_of_well_formed(rest);
                        let all = rules_of(s);
                        assert(all == with_media(inner, q) + rules_of(rest));
                        assert forall|k: int| 0 <= k < all.len() implies rule_well_formed(#[trigger] all[k]) by {
                            if k < inner.len() {
                                assert(rule_well_formed(inner[k]));
                                assert(all[k] == with_media(inner, q)[k]);
                            } else {
                                assert(all[k] == rules_of(rest)[k - inner.len()]);
                            }
                        }
                    },
                }
            } else {
                match text::find(after, seq!['}']) {
                    None => {},
                    Some(close) => {
                        text::lemma_find_from(after, seq!['}'], 0);
                        let rest = after.subrange(close + 1, after.len() as int);
                        lemma_rules_of_well_formed(rest);
                        lemma_selectors_from_well_formed(text::split(prelude, seq![',']));
                        lemma_declarations_from_well_formed(text::split(after.subrange(0, close), seq![';']));
                        let all = rules_of(s);
                        assert forall|k: int| 0 <= k < all.len() implies rule_well_formed(#[trigger] all[k]) by {
                            if selectors_of(prelude).len() > 0 {
                                if k > 0 {
                                    assert(all[k] == rules_of(rest)[k - 1]);
                                }
                            } else {
                                assert(all[k] == rules_of(rest)[k]);
                            }
                        }
                    },
                }
            }
        },
    }
}

proof fn lemma_stylesheet_well_formed(css: Seq<char>)
    ensures
        forall|k: int|
            0 <= k < stylesheet_of(css).len() ==> rule_well_formed(#[trigger] stylesheet_of(css)[k]),
    decreases css.len(), 1int,
{
    lemma_strip_comments_len(css);
    lemma_rules_of_well_formed(strip_comments(css));
    assert(stylesheet_of(css) == rules_of(strip_comments(css)));
}

/// Every rule `parse_stylesheet` produces has a selector, every selector a
/// compound selector (the first joined as a descendant), none of them
/// empty, and every declaration a non-empty lowercase property name and a
/// non-empty value.
pub proof fn law_parsed_rules_well_formed(css: Seq<char>)
    ensures
        forall|k: int|
            0 <= k < stylesheet_of(css).len() ==> rule_well_formed(#[trigger] stylesheet_of(css)[k]),
{
    lemma_stylesheet_well_formed(css);
}

/// A character with no role in the block structure: not a brace, `;`,
/// `:`, or `/` (which could open a comment).
pub open spec fn is_plain(c: char) -> bool {
    c != '{' && c != '}' && c != ';' && c != ':' && c != '/'
}

pub open spec fn all_plain(s: Seq<char>) -> bool {
    forall|i: int| 0 <= i < s.len() ==> is_plain(#[trigger] s[i])
}

proof fn lemma_lower_char_keeps_bang(c: char)
    ensures
        text::lower_char(c) == '!' ==> c == '!',
{
    if 'A' <= c && c <= 'Z' {
        assert((((c as u32) + 32) as char) as u32 == (c as u32) + 32);
    }
}

/// The declaration `prop: val` read from the whole of a block.
proof fn lemma_single_declaration(prop: Seq<char>, val: Seq<char>)
    requires
        all_plain(prop),
        all_plain(val),
        forall|i: int| 0 <= i < val.len() ==> #[trigger] val[i] != '!',
        text::trim(prop).len() > 0,
        text::trim(val).len() > 0,
    ensures
        declaration_of(prop + seq![':'] + val) == Some(
            DeclModel { property: text::lower(text::trim(prop)), value: text::trim(val), important: false },
        ),
{
    let block = prop + seq![':'] + val;
    let tp = text::trim_start(prop);
    text::lemma_trim_start(prop);
    assert(block =~= prop + (seq![':'] + val));
    text::lemma_trim_start_concat(prop, seq![':'] + val);
    assert(tp + (seq![':'] + val) =~= (tp + seq![':']) + val);
    text::lemma_trim_end_concat(tp + seq![':'], val);
    let d = text::trim(block);
    assert(d == (tp + seq![':']) + text::trim_end(val));
    assert forall|k: int| 0 <= k < tp.len() implies d[k] != ':' by {
        assert(d[k] == tp[k]);
        assert(tp[k] == prop[prop.len() - tp.len() + k]);
    }
    assert(d[tp.len() as int] == ':');
    text::lemma_find_char(d, ':', tp.len() as int);
    assert(d.subrange(0, tp.len() as int) =~= tp);
    assert(d.subrange((tp.len() + 1) as int, d.len() as int) =~= text::trim_end(val));
    text::lemma_trim_start_idempotent(prop);
    text::lemma_trim_commute(val);
    text::lemma_trim_start(val);
    text::lemma_trim_end_idempotent(text::trim_start(val));
    assert(text::trim(text::trim_end(val)) == text::trim(val));
    let tv = text::trim(val);
    text::lemma_trim_within(val);
    reveal_strlit("!important");
    assert(!text::has_suffix(text::lower(tv), "!important"@)) by {
        if text::has_suffix(text::lower(tv), "!important"@) {
            let k = tv.len() - 10;
            assert(text::lower(tv).subrange(k, tv.len() as int)[0] == "!important"@[0]);
            assert(text::lower(tv)[k] == text::lower_char(tv[k]));
            lemma_lower_char_keeps_bang(tv[k]);
            let (b, e) = choose|b: int, e: int| 0 <= b <= e <= val.len() && tv == val.subrange(b, e);
            assert(tv[k] == val[b + k]);
        }
    }
}

/// A rule's declarations are read from the whole text between its `{`
/// and its `}`, and rules come in source order: the stylesheet `S{P:V}`
/// followed by any text gives first one rule, whose only declaration gives
/// property `P` (trimmed, lowercased) the value `V` (trimmed), then the
/// rules of the text after it. This holds when `S` is a selector list and
/// `S`, `P` and `V` hold no brace, `;`, `:` or `/` (and `V` no `!`).
pub proof fn law_block_is_read_whole(sel: Seq<char>, prop: Seq<char>, val: Seq<char>, rest: Seq<char>)
    requires
        all_plain(sel),
        all_plain(prop),
        all_plain(val),
        forall|i: int| 0 <= i < val.len() ==> #[trigger] val[i] != '!',
        !text::has_prefix(text::trim(sel), "@media"@),
        selectors_of(text::trim(sel)).len() > 0,
        text::trim(prop).len() > 0,
        text::trim(val).len() > 0,
    ensures
        stylesheet_of(sel + seq!['{'] + prop + seq![':'] + val + seq!['}'] + rest) == seq![
            RuleModel {
                selectors: selectors_of(text::trim(sel)),
                declarations: seq![
                    DeclModel {
                        property: text::lower(text::trim(prop)),
                        value: text::trim(val),
                        important: false,
                    },
                ],
                media: None,
            },
        ] + stylesheet_of(rest),
{
    let block = prop + seq![':'] + val;
    let head = sel + seq!['{'] + block + seq!['}'];
    let css = head + rest;
    assert(css =~= sel + seq!['{'] + prop + seq![':'] + val + seq!['}'] + rest);
    let n = sel.len() as int;
    assert forall|i: int| 0 <= i < head.len() implies #[trigger] head[i] != '/' by {
        if i < n {
            assert(head[i] == sel[i]);
        } else if n < i < n + 1 + prop.len() {
            assert(head[i] == prop[i - n - 1]);
        } else if n + 1 + prop.len() < i < head.len() - 1 {
            assert(head[i] == val[i - n - 2 - prop.len()]);
        }
    }
    lemma_strip_comments_prefix(head, rest);
    lemma_strip_comments_len(css);
    let sr = strip_comments(rest);
    let x = head + sr;
    assert(stylesheet_of(css) == rules_of(x));
    assert forall|k: int| 0 <= k < n implies x[k] != '{' by {
        assert(x[k] == sel[k]);
    }
    text::lemma_find_char(x, '{', n);
    assert(x.subrange(0, n) =~= sel);
    let after = x.subrange(n + 1, x.len() as int);
    assert(after =~= block + seq!['}'] + sr);
    let close = block.len() as int;
    assert forall|k: int| 0 <= k < close implies after[k] != '}' by {
        if k < prop.len() {
            assert(after[k] == prop[k]);
        } else if k > prop.len() {
            assert(after[k] == val[k - prop.len() - 1]);
        }
    }
    text::lemma_find_char(after, '}', close);
    assert(after.subrange(0, close) =~= block);
    assert(after.subrange(close + 1, after.len() as int) =~= sr);
    lemma_strip_comments_len(rest);
    assert(rules_of(sr) == stylesheet_of(rest));
    assert forall|k: int| 0 <= k < block.len() implies block[k] != ';' by {
        if k < prop.len() {
            assert(block[k] == prop[k]);
        } else if k > prop.len() {
            assert(block[k] == val[k - prop.len() - 1]);
        }
    }
    text::lemma_find_char_absent(block, ';');
    assert(text::split(block, seq![';']) == seq![block]);
    lemma_single_declaration(prop, val);
    assert(seq![block].drop_last() =~= Seq::<Seq<char>>::empty());
    assert(seq![block].last() == block);
    let d = DeclModel { property: text::lower(text::trim(prop)), value: text::trim(val), important: false };
    assert(declarations_from(seq![block]) == declarations_from(Seq::<Seq<char>>::empty()) + seq![d]);
    assert(declarations_of(block) =~= seq![d]);
}

proof fn lemma_close_from_plain(s: Seq<char>, i: int, j: int, depth: int)
    requires
        0 <= i <= j <= s.len(),
        forall|k: int| i <= k < j ==> #[trigger] s[k] != '{' && s[k] != '}',
    ensures
        close_from(s, i, depth) == close_from(s, j, depth),
    decreases j - i,
{
    if i < j {
        lemma_close_from_plain(s, i + 1, j, depth);
    }
}

proof fn lemma_stylesheet_of_empty()
    ensures
        stylesheet_of(Seq::<char>::empty()) == Seq::<RuleModel>::empty(),
{
    let e = Seq::<char>::empty();
    lemma_strip_comments_len(e);
    text::lemma_find_char_absent(e, '{');
    assert(stylesheet_of(e) == rules_of(strip_comments(e)));
}

/// An `@media` block gives its rules the condition written after
/// `@media`: `@media Q { S{P:V} }` followed by any text gives first the
/// rule of `S{P:V}` with the condition `media_query_of(trim(Q))`, then the
/// rules of the text after it. This holds when `Q` holds no brace or `/`,
/// and `S`, `P`, `V` are as for `law_block_is_read_whole`.
#[verifier::rlimit(60)]
#[verifier::spinoff_prover]
pub proof fn law_media_block(
    q: Seq<char>,
    sel: Seq<char>,
    prop: Seq<char>,
    val: Seq<char>,
    rest: Seq<char>,
)
    requires
        forall|i: int| 0 <= i < q.len() ==> #[trigger] q[i] != '{' && q[i] != '}' && q[i] != '/',
        all_plain(sel),
        all_plain(prop),
        all_plain(val),
        forall|i: int| 0 <= i < val.len() ==> #[trigger] val[i] != '!',
        !text::has_prefix(text::trim(sel), "@media"@),
        selectors_of(text::trim(sel)).len() > 0,
        text::trim(prop).len() > 0,
        text::trim(val).len() > 0,
    ensures
        stylesheet_of(
            "@media"@ + q + seq!['{'] + sel + seq!['{'] + prop + seq![':'] + val + seq!['}', '}'] + rest,
        ) == seq![
            RuleModel {
                selectors: selectors_of(text::trim(sel)),
                declarations: seq![
                    DeclModel {
                        property: text::lower(text::trim(prop)),
                        value: text::trim(val),
                        important: false,
                    },
                ],
                media: Some(media::media_query_of(text::trim(q))),
            },
        ] + stylesheet_of(rest),
{
    reveal_strlit("@media");
    let m = "@media"@;
    let block = prop + seq![':'] + val;
    let inner = sel + seq!['{'] + block + seq!['}'];
    let head = m + q + seq!['{'] + inner + seq!['}'];
    let css = head + rest;
    assert(css =~= m + q + seq!['{'] + sel + seq!['{'] + prop + seq![':'] + val + seq!['}', '}'] + rest);
    let o = (m.len() + q.len()) as int;
    let n = sel.len() as int;
    assert forall|i: int| 0 <= i < head.len() implies #[trigger] head[i] != '/' by {
        if i < m.len() {
            assert(head[i] == m[i]);
        } else if i < o {
            assert(head[i] == q[i - m.len()]);
        } else if o < i < o + 1 + n {
            assert(head[i] == sel[i - o - 1]);
        } else if o + 1 + n < i < o + 2 + n + prop.len() {
            assert(head[i] == prop[i - o - 2 - n]);
        } else if o + 2 + n + prop.len() < i < o + 2 + n + block.len() {
            assert(head[i] == val[i - o - 3 - n - prop.len()]);
        }
    }
    lemma_strip_comments_prefix(head, rest);
    lemma_strip_comments_len(css);
    let sr = strip_comments(rest);
    let x = head + sr;
    assert(stylesheet_of(css) == rules_of(x));
    // the prelude
    assert forall|k: int| 0 <= k < o implies x[k] != '{' by {
        if k < m.len() {
            assert(x[k] == m[k]);
        } else {
            assert(x[k] == q[k - m.len()]);
        }
    }
    text::lemma_find_char(x, '{', o);
    assert(x.subrange(0, o) =~= m + q);
    assert(text::trim_start(m + q) == m + q);
    text::lemma_trim_end_concat(m, q);
    let prelude = text::trim(m + q);
    assert(prelude == m + text::trim_end(q));
    assert(prelude.subrange(0, 6) =~= m);
    assert(prelude.subrange(6, prelude.len() as int) =~= text::trim_end(q));
    text::lemma_trim_of_trim_end(q);
    // the block
    let after = x.subrange(o + 1, x.len() as int);
    assert(after =~= inner + seq!['}'] + sr);
    assert forall|k: int| 0 <= k < n implies #[trigger] after[k] != '{' && after[k] != '}' by {
        assert(after[k] == sel[k]);
    }
    lemma_close_from_plain(after, 0, n, 1);
    assert(after[n] == '{');
    assert forall|k: int| n + 1 <= k < n + 1 + block.len() implies #[trigger] after[k] != '{' && after[k] != '}' by {
        if k < n + 1 + prop.len() {
            assert(after[k] == prop[k - n - 1]);
        } else if k > n + 1 + prop.len() {
            assert(after[k] == val[k - n - 2 - prop.len()]);
        }
    }
    lemma_close_from_plain(after, n + 1, n + 1 + block.len(), 2);
    let c = inner.len() as int;
    assert(after[c - 1] == '}' && after[c] == '}');
    assert(close_from(after, c - 1, 2) == close_from(after, c, 1));
    assert(matching_close(after) == Some(c));
    assert(after.subrange(0, c) =~= inner);
    assert(after.subrange(c + 1, after.len() as int) =~= sr);
    lemma_strip_comments_len(rest);
    assert(rules_of(sr) == stylesheet_of(rest));
    law_block_is_read_whole(sel, prop, val, Seq::<char>::empty());
    assert(inner + Seq::<char>::empty() =~= sel + seq!['{'] + prop + seq![':'] + val + seq!['}'] + Seq::<char>::empty());
    lemma_stylesheet_of_empty();
    let rule = RuleModel {
        selectors: selectors_of(text::trim(sel)),
        declarations: seq![
            DeclModel { property: text::lower(text::trim(prop)), value: text::trim(val), important: false },
        ],
        media: None,
    };
    assert(stylesheet_of(inner) =~= seq![rule]);
    let mq = media::media_query_of(text::trim(q));
    assert(with_media(seq![rule], mq) =~= seq![RuleModel { media: Some(mq), ..rule }]);
}

proof fn lemma_strip_comments_prefix(a: Seq<char>, x: Seq<char>)
    requires
        forall|i: int| 0 <= i < a.len() ==> #[trigger] a[i] != '/',
    ensures
        strip_comments(a + x) == a + strip_comments(x),
    decreases a.len(),
{
    if a.len() > 0 {
        let r = a.subrange(1, a.len() as int);
        assert forall|i: int| 0 <= i < r.len() implies #[trigger] r[i] != '/' by {
            assert(r[i] == a[i + 1]);
        }
        lemma_strip_comments_prefix(r, x);
        assert((a + x)[0] == a[0]);
        assert((a + x).subrange(1, (a + x).len() as int) =~= r + x);
        assert(seq![a[0]] + (r + strip_comments(x)) =~= a + strip_comments(x));
    } else {
        assert(a + x =~= x);
        assert(a + strip_comments(x) =~= strip_comments(x));
    }
}

/// A comment is removed whole, up to its first `*/`, and the text around
/// it is kept: `a /* c */ b` strips to `a` followed by `b` stripped, when
/// `a` holds no `/` and `c` no `*/`.
pub proof fn law_comment_is_removed(a: Seq<char>, c: Seq<char>, b: Seq<char>)
    requires
        forall|i: int| 0 <= i < a.len() ==> #[trigger] a[i] != '/',
        forall|k: int| 0 <= k < c.len() - 1 ==> !(#[trigger] c[k] == '*' && c[k + 1] == '/'),
    ensures
        strip_comments(a + seq!['/', '*'] + c + seq!['*', '/'] + b) == a + strip_comments(b),
{
    let s = seq!['/', '*'] + c + seq!['*', '/'] + b;
    assert(a + seq!['/', '*'] + c + seq!['*', '/'] + b =~= a + s);
    lemma_strip_comments_prefix(a, s);
    let t = s.subrange(2, s.len() as int);
    assert(t =~= c + seq!['*', '/'] + b);
    let close = seq!['*', '/'];
    text::lemma_find_from(t, close, 0);
    assert(t.subrange(c.len() as int, (c.len() + 2) as int) =~= close);
    assert(text::occurs_at(t, c.len() as int, close));
    match text::find(t, close) {
        Some(j) => {
            if j < c.len() {
                assert(t.subrange(j, j + 2)[0] == t[j] && t.subrange(j, j + 2)[1] == t[j + 1]);
                if j + 1 < c.len() {
                    assert(t[j] == c[j] && t[j + 1] == c[j + 1]);
                } else {
                    assert(t[j + 1] == '*');
                }
            }
            assert(j == c.len());
        },
        None => {},
    }
    assert(t.subrange((c.len() + 2) as int, t.len() as int) =~= b);
    assert(s[0] == '/' && s[1] == '*');
    assert(strip_comments(s) == strip_comments(b));
}

/// `important_of(v[lo..hi])`, as the end of the value inside `v`.
fn important_range(v: &Vec<char>, lo: usize, hi: usize) -> (r: (usize, bool))
    requires
        lo <= hi <= v.len(),
    ensures
        lo <= r.0 <= hi,
        important_of(v@.subrange(lo as int, hi as int)) == (
            v@.subrange(lo as int, r.0 as int),
            r.1,
        ),
{
    let lowered = lower_exec(v, lo, hi);
    let mark = chars_of("!important");
    proof {
        reveal_strlit("!important");
    }
    if ends_with_exec(&lowered, 0, lowered.len(), &mark) {
        assert(lowered@.subrange(0, lowered@.len() as int) =~= lowered@);
        let end = trim_end_range(v, lo, hi - 10);
        assert(v@.subrange(lo as int, hi as int).subrange(0, (hi - lo) - 10) =~= v@.subrange(
            lo as int,
            hi - 10,
        ));
        (end, true)
    } else {
        assert(lowered@.subrange(0, lowered@.len() as int) =~= lowered@);
        (hi, false)
    }
}

/// `declaration_of(v[lo..hi])`.
fn declaration_range(v: &Vec<char>, lo: usize, hi: usize) -> (r: Option<Declaration>)
    requires
        lo <= hi <= v.len(),
    ensures
        r matches Some(d) ==> declaration_of(v@.subrange(lo as int, hi as int)) == Some(d@),
        r is None ==> declaration_of(v@.subrange(lo as int, hi as int)) is None,
{
    let (a, b) = trim_range(v, lo, hi);
    let ghost d = v@.subrange(a as int, b as int);
    let colon = vec![':'];
    assert(colon@ == seq![':']);
    match find_exec(v, a, b, &colon) {
        None => None,
        Some(i) => {
            assert(d.subrange(0, i - a) =~= v@.subrange(a as int, i as int));
            assert(d.subrange(i - a + 1, d.len() as int) =~= v@.subrange(i + 1, b as int));
            let (pa, pb) = trim_range(v, a, i);
            let property = lower_exec(v, pa, pb);
            let (va, vb) = trim_range(v, i + 1, b);
            let (end, important) = important_range(v, va, vb);
            if property.len() == 0 || end == va {
                None
            } else {
                let property = string_of(&property, 0, property.len());
                assert(property@ =~= text::lower(v@.subrange(pa as int, pb as int)));
                let value = string_of(v, va, end);
                Some(Declaration { property, value, important })
            }
        },
    }
}

/// `declarations_of(v[lo..hi])`.
fn declarations_range(v: &Vec<char>, lo: usize, hi: usize) -> (r: Vec<Declaration>)
    requires
        lo <= hi <= v.len(),
    ensures
        r.deep_view() == declarations_of(v@.subrange(lo as int, hi as int)),
{
    let semicolon = vec![';'];
    assert(semicolon@ == seq![';']);
    let pieces = split_exec(v, lo, hi, &semicolon);
    let ghost ps = text::split(v@.subrange(lo as int, hi as int), seq![';']);
    let mut out: Vec<Declaration> = Vec::new();
    let mut k: usize = 0;
    while k < pieces.len()
        invariant
            lo <= hi <= v.len(),
            0 <= k <= pieces.len(),
            text::ranges_within(pieces@, lo as int, hi as int),
            text::pieces(v@, pieces@) == ps,
            out.deep_view() == declarations_from(ps.take(k as int)),
        decreases pieces.len() - k,
    {
        let (a, b) = pieces[k];
        proof {
            assert(lo <= pieces@[k as int].0 <= pieces@[k as int].1 <= hi);
            assert(ps.take(k + 1).drop_last() =~= ps.take(k as int));
            assert(ps[k as int] == v@.subrange(a as int, b as int));
        }
        let ghost before = out.deep_view();
        match declaration_range(v, a, b) {
            Some(d) => {
                out.push(d);
                assert(out.deep_view() =~= before + seq![d@]);
            },
            None => {
                assert(before + Seq::<DeclModel>::empty() =~= before);
            },
        }
        k = k + 1;
    }
    assert(ps.take(pieces.len() as int) =~= ps);
    out
}

/// `selectors_of(v[lo..hi])`.
fn selectors_range(v: &Vec<char>, lo: usize, hi: usize) -> (r: Vec<Selector>)
    requires
        lo <= hi <= v.len(),
    ensures
        r.deep_view() == selectors_of(v@.subrange(lo as int, hi as int)),
{
    let comma = vec![','];
    assert(comma@ == seq![',']);
    let pieces = split_exec(v, lo, hi, &comma);
    let ghost ps = text::split(v@.subrange(lo as int, hi as int), seq![',']);
    let mut out: Vec<Selector> = Vec::new();
    let mut k: usize = 0;
    while k < pieces.len()
        invariant
            lo <= hi <= v.len(),
            0 <= k <= pieces.len(),
            text::ranges_within(pieces@, lo as int, hi as int),
            text::pieces(v@, pieces@) == ps,
            out.deep_view() == selectors_from(ps.take(k as int)),
        decreases pieces.len() - k,
    {
        let (a, b) = pieces[k];
        proof {
            assert(lo <= pieces@[k as int].0 <= pieces@[k as int].1 <= hi);
            assert(ps.take(k + 1).drop_last() =~= ps.take(k as int));
            assert(ps[k as int] == v@.subrange(a as int, b as int));
        }
        let (ta, tb) = trim_range(v, a, b);
        let ghost before = out.deep_view();
        match selector_range(v, ta, tb) {
            Some(sel) => {
                out.push(sel);
                assert(out.deep_view() =~= before + seq![sel.deep_view()]);
            },
            None => {
                assert(before + Seq::<Seq<selector::SegmentModel>>::empty() =~= before);
            },
        }
        k = k + 1;
    }
    assert(ps.take(pieces.len() as int) =~= ps);
    out
}

/// `matching_close(v[open + 1..hi])`, as an index into `v`.
fn matching_close_range(v: &Vec<char>, open: usize, hi: usize) -> (r: Option<usize>)
    requires
        open < hi <= v.len(),
    ensures
        match r {
            Some(c) => open < c < hi && matching_close(v@.subrange(open + 1, hi as int)) == Some(
                c - (open + 1),
            ),
            None => matching_close(v@.subrange(open + 1, hi as int)) is None,
        },
{
    let ghost s = v@.subrange(open + 1, hi as int);
    let mut depth: usize = 1;
    let mut i = open + 1;
    while i < hi
        invariant
            open < i <= hi <= v.len(),
            s == v@.subrange(open + 1, hi as int),
            1 <= depth <= i - open,
            matching_close(s) == close_from(s, i - (open + 1), depth as int),
        decreases hi - i,
    {
        let c = v[i];
        assert(s[i - (open + 1)] == c);
        if c == '{' {
            depth = depth + 1;
        } else if c == '}' {
            if depth == 1 {
                return Some(i);
            }
            depth = depth - 1;
        }
        i = i + 1;
    }
    None
}


/// The rules with the media condition `q` given to those that have none.
fn media_rules(rules: Vec<Rule>, q: MediaQuery) -> (r: Vec<Rule>)
    ensures
        r.deep_view() == with_media(rules.deep_view(), q),
{
    let ghost model = rules.deep_view();
    let mut rules = rules;
    let mut k: usize = 0;
    while k < rules.len()
        invariant
            0 <= k <= rules.len(),
            rules.len() == model.len(),
            forall|m: int| k <= m < rules.len() ==> #[trigger] rules@[m]@ == model[m],
            forall|m: int| 0 <= m < k ==> #[trigger] rules@[m]@ == with_media(model, q)[m],
        decreases rules.len() - k,
    {
        if rules[k].media.is_none() {
            let ghost old_rules = rules@;
            let mut rule = rules.remove(k);
            assert(rule@ == model[k as int]);
            rule.media = Some(q);
            assert(rule@ == RuleModel { media: Some(q), ..model[k as int] });
            rules.insert(k, rule);
            assert(rules@[k as int]@ == with_media(model, q)[k as int]);
            assert forall|m: int| 0 <= m < rules.len() && m != k implies #[trigger] rules@[m]
                == old_rules[m] by {}
        } else {
            assert(rules@[k as int]@ == with_media(model, q)[k as int]);
        }
        k = k + 1;
    }
    assert(rules.deep_view() =~= with_media(model, q));
    rules
}

/// `stylesheet_of(v[lo..hi])`.
fn stylesheet_range(v: &Vec<char>, lo: usize, hi: usize) -> (r: Vec<Rule>)
    requires
        lo <= hi <= v.len(),
    ensures
        r.deep_view() == stylesheet_of(v@.subrange(lo as int, hi as int)),
    decreases hi - lo, 2int,
{
    let css = strip_comments_range(v, lo, hi);
    proof {
        lemma_strip_comments_len(v@.subrange(lo as int, hi as int));
        assert(css@.subrange(0, css@.len() as int) =~= css@);
    }
    rules_range(&css, 0, css.len(), Ghost((hi - lo) as nat))
}

/// The first block of `rules_of(v[lo..hi])`: `None` when parsing stops
/// there, otherwise the rules of the block and where the rest begins.
fn first_block(v: &Vec<char>, lo: usize, hi: usize, Ghost(bound): Ghost<nat>) -> (r: Option<
    (Vec<Rule>, usize),
>)
    requires
        lo <= hi <= v.len(),
        hi - lo <= bound,
    ensures
        match r {
            None => rules_of(v@.subrange(lo as int, hi as int)) == Seq::<RuleModel>::empty(),
            Some((rs, next)) => lo < next <= hi && rules_of(v@.subrange(lo as int, hi as int))
                == rs.deep_view() + rules_of(v@.subrange(next as int, hi as int)),
        },
    decreases bound, 0int,
{
    let ghost s = v@.subrange(lo as int, hi as int);
    let open_brace = vec!['{'];
    assert(open_brace@ == seq!['{']);
    let open = match find_exec(v, lo, hi, &open_brace) {
        None => {
            return None;
        },
        Some(o) => o,
    };
    let (pa, pb) = trim_range(v, lo, open);
    assert(s.subrange(0, open - lo) =~= v@.subrange(lo as int, open as int));
    let ghost after = s.subrange(open - lo + 1, s.len() as int);
    assert(after =~= v@.subrange(open + 1, hi as int));
    let media_word = chars_of("@media");
    proof {
        reveal_strlit("@media");
    }
    if starts_with_exec(v, pa, pb, &media_word) {
        let close = match matching_close_range(v, open, hi) {
            None => {
                return None;
            },
            Some(c) => c,
        };
        let (ma, mb) = trim_range(v, pa + 6, pb);
        assert(v@.subrange(pa as int, pb as int).subrange(6, (pb - pa) as int) =~= v@.subrange(
            pa + 6,
            pb as int,
        ));
        let q = parse_media_query_range(v, ma, mb);
        assert(after.subrange(0, close - (open + 1)) =~= v@.subrange(open + 1, close as int));
        assert(after.subrange(close - (open + 1) + 1, after.len() as int) =~= v@.subrange(
            close + 1,
            hi as int,
        ));
        let inner = media_rules(stylesheet_range(v, open + 1, close), q);
        Some((inner, close + 1))
    } else {
        let close_brace = vec!['}'];
        assert(close_brace@ == seq!['}']);
        let close = match find_exec(v, open + 1, hi, &close_brace) {
            None => {
                return None;
            },
            Some(c) => c,
        };
        assert(after.subrange(0, close - (open + 1)) =~= v@.subrange(open + 1, close as int));
        assert(after.subrange(close - (open + 1) + 1, after.len() as int) =~= v@.subrange(
            close + 1,
            hi as int,
        ));
        let selectors = selectors_range(v, pa, pb);
        let mut rs: Vec<Rule> = Vec::new();
        if selectors.len() > 0 {
            let declarations = declarations_range(v, open + 1, close);
            let rule = Rule { selectors, declarations, media: None };
            rs.push(rule);
            assert(rs.deep_view() =~= seq![rule@]);
        } else {
            assert(rs.deep_view() + rules_of(v@.subrange(close + 1, hi as int)) =~= rules_of(
                v@.subrange(close + 1, hi as int),
            ));
        }
        Some((rs, close + 1))
    }
}

/// `rules_of(v[lo..hi])`; `bound` is the length the recursion is measured by.
fn rules_range(v: &Vec<char>, lo: usize, hi: usize, Ghost(bound): Ghost<nat>) -> (r: Vec<Rule>)
    requires
        lo <= hi <= v.len(),
        hi - lo <= bound,
    ensures
        r.deep_view() == rules_of(v@.subrange(lo as int, hi as int)),
    decreases bound, 1int,
{
    let mut rules: Vec<Rule> = Vec::new();
    let mut cur = lo;
    loop
        invariant
            lo <= cur <= hi <= v.len(),
            hi - lo <= bound,
            rules.deep_view() + rules_of(v@.subrange(cur as int, hi as int)) == rules_of(
                v@.subrange(lo as int, hi as int),
            ),
        decreases hi - cur,
    {
        let ghost before = rules.deep_view();
        match first_block(v, cur, hi, Ghost(bound)) {
            None => {
                assert(before + Seq::<RuleModel>::empty() =~= before);
                return rules;
            },
            Some((mut rs, next)) => {
                let ghost added = rs.deep_view();
                rules.append(&mut rs);
                assert(rules.deep_view() =~= before + added);
                assert(rules.deep_view() + rules_of(v@.subrange(next as int, hi as int)) =~= before
                    + (added + rules_of(v@.subrange(next as int, hi as int))));
                cur = next;
            },
        }
    }
}

/// Parses a whole stylesheet into its rules, in source order (the cascade
/// lets later rules win ties, so the order matters).
pub fn parse_stylesheet(css: &str) -> (r: Vec<Rule>)
    ensures
        r.deep_view() == stylesheet_of(css@),
{
    let v = chars_of(css);
    assert(v@.subrange(0, v@.len() as int) =~= v@);
    stylesheet_range(&v, 0, v.len())
}

} // verus!
