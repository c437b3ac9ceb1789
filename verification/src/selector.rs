//! Selectors, their specificity, and matching them against elements.
//!
//! A compound selector (`div.foo#bar`) is a list of simple parts: a tag
//! name, classes, ids, or the universal `*`. A selector is a list of
//! compound selectors joined by combinators: descendant (whitespace),
//! child (`>`), adjacent sibling (`+`) and general sibling (`~`).
use vstd::prelude::*;
use crate::text;
use crate::text::{chars_of, str_eq, string_of, trim_range, words_exec};

verus! {

broadcast use vstd::seq::group_seq_axioms;

/// One simple part of a compound selector.
#[derive(Debug, Clone, PartialEq, Eq)]
pub enum SimplePart {
    Tag(String),
    Class(String),
    Id(String),
    /// `*`: matches every element and adds nothing to the specificity.
    Universal,
}

/// A compound selector such as `div.foo#bar`: no combinators inside.
pub type CompoundSelector = Vec<SimplePart>;

/// How a compound selector relates to the one before it.
#[derive(Debug, Clone, Copy, PartialEq, Eq, Structural)]
pub enum Combinator {
    /// Whitespace: some ancestor matches the previous compound selector.
    Descendant,
    /// `>`: the parent matches the previous compound selector.
    Child,
    /// `+`: the immediately preceding sibling matches it.
    AdjacentSibling,
    /// `~`: some preceding sibling matches it.
    GeneralSibling,
}

/// One compound selector with the combinator that joins it to the
/// compound selector before it. The first segment of a selector has no
/// predecessor; its combinator is `Descendant`.
#[derive(Debug, Clone, PartialEq, Eq)]
pub struct SelectorSegment {
    pub combinator: Combinator,
    pub compound: CompoundSelector,
}

/// A complete selector, outermost compound first; the last segment is the
/// condition on the element itself.
pub type Selector = Vec<SelectorSegment>;

/// The mathematical value of a `SimplePart`.
pub enum PartModel {
    Tag(Seq<char>),
    Class(Seq<char>),
    Id(Seq<char>),
    Universal,
}

/// The mathematical value of a `SelectorSegment`.
pub struct SegmentModel {
    pub combinator: Combinator,
    pub compound: Seq<PartModel>,
}

impl View for SimplePart {
    type V = PartModel;

    open spec fn view(&self) -> PartModel {
        match self {
            SimplePart::Tag(s) => PartModel::Tag(s@),
            SimplePart::Class(s) => PartModel::Class(s@),
            SimplePart::Id(s) => PartModel::Id(s@),
            SimplePart::Universal => PartModel::Universal,
        }
    }
}

impl DeepView for SimplePart {
    type V = PartModel;

    open spec fn deep_view(&self) -> PartModel {
        self@
    }
}

impl View for SelectorSegment {
    type V = SegmentModel;

    open spec fn view(&self) -> SegmentModel {
        SegmentModel { combinator: self.combinator, compound: self.compound.deep_view() }
    }
}

impl DeepView for SelectorSegment {
    type V = SegmentModel;

    open spec fn deep_view(&self) -> SegmentModel {
        self@
    }
}

/// What matching reads of an element.
pub struct ElementModel {
    pub tag: Seq<char>,
    pub classes: Seq<Seq<char>>,
    pub id: Option<Seq<char>>,
}

/// The interface an element offers to selector matching, so that matching
/// does not depend on one particular DOM implementation.
///
/// An implementation describes its element through the three spec
/// functions, and its methods return what they describe. The default
/// descriptions are those of an element with an empty tag name, no class
/// and no id; an implementation that keeps them must return exactly that.
pub trait ElementLike {
    /// The tag name.
    closed spec fn tag_model(&self) -> Seq<char> {
        Seq::empty()
    }

    /// The class names, in order.
    closed spec fn classes_model(&self) -> Seq<Seq<char>> {
        Seq::empty()
    }

    /// The id, if the element has one.
    closed spec fn id_model(&self) -> Option<Seq<char>> {
        None
    }

    fn tag_name(&self) -> (r: &str)
        ensures
            r@ == self.tag_model(),
    ;

    fn classes(&self) -> (r: Vec<&str>)
        ensures
            r.deep_view() == self.classes_model(),
    ;

    fn id(&self) -> (r: Option<&str>)
        ensures
            r.deep_view() == self.id_model(),
    ;
}

pub open spec fn element_model<E: ElementLike + ?Sized>(e: &E) -> ElementModel {
    ElementModel { tag: e.tag_model(), classes: e.classes_model(), id: e.id_model() }
}

pub open spec fn element_models<E: ElementLike + ?Sized>(es: Seq<&E>) -> Seq<ElementModel> {
    es.map_values(|e: &E| element_model(e))
}

/// Whether one simple part holds of the element.
pub open spec fn part_matches(p: PartModel, e: ElementModel) -> bool {
    match p {
        PartModel::Tag(name) => e.tag == name,
        PartModel::Class(name) => e.classes.contains(name),
        PartModel::Id(name) => e.id == Some(name),
        PartModel::Universal => true,
    }
}

/// Whether every part of the compound selector holds of the element.
pub open spec fn compound_matches(c: Seq<PartModel>, e: ElementModel) -> bool {
    forall|i: int| 0 <= i < c.len() ==> part_matches(#[trigger] c[i], e)
}

fn part_matches_exec<E: ElementLike + ?Sized>(part: &SimplePart, el: &E) -> (r: bool)
    ensures
        r == part_matches(part@, element_model(el)),
{
    match part {
        SimplePart::Tag(name) => str_eq(el.tag_name(), name.as_str()),
        SimplePart::Class(name) => {
            let classes = el.classes();
            let ghost model = el.classes_model();
            let mut i: usize = 0;
            while i < classes.len()
                invariant
                    0 <= i <= classes.len(),
                    classes.deep_view() == model,
                    model == el.classes_model(),
                    part@ == PartModel::Class(name@),
                    forall|k: int| 0 <= k < i ==> model[k] != name@,
                decreases classes.len() - i,
            {
                assert(classes.deep_view()[i as int] == classes@[i as int]@);
                if str_eq(classes[i], name.as_str()) {
                    assert(model.len() == classes.len());
                    assert(model[i as int] == name@);
                    assert(model.contains(name@));
                    return true;
                }
                i = i + 1;
            }
            assert(!model.contains(name@)) by {
                assert(model.len() == classes.len());
            }
            false
        },
        SimplePart::Id(name) => match el.id() {
            Some(id) => str_eq(id, name.as_str()),
            None => false,
        },
        SimplePart::Universal => true,
    }
}

/// Whether every part of `selector` matches `el`.
pub fn matches<E: ElementLike + ?Sized>(selector: &CompoundSelector, el: &E) -> (r: bool)
    ensures
        r == compound_matches(selector.deep_view(), element_model(el)),
{
    let mut i: usize = 0;
    while i < selector.len()
        invariant
            0 <= i <= selector.len(),
            forall|k: int|
                0 <= k < i ==> part_matches(
                    #[trigger] selector.deep_view()[k],
                    element_model(el),
                ),
        decreases selector.len() - i,
    {
        if !part_matches_exec(&selector[i], el) {
            assert(selector.deep_view()[i as int] == selector@[i as int]@);
            return false;
        }
        assert(selector.deep_view()[i as int] == selector@[i as int]@);
        i = i + 1;
    }
    true
}

/// The number of parts of `c` for which `f` holds.
pub open spec fn count_parts(c: Seq<PartModel>, f: spec_fn(PartModel) -> bool) -> nat
    decreases c.len(),
{
    if c.len() == 0 {
        0
    } else {
        count_parts(c.drop_last(), f) + if f(c.last()) {
            1nat
        } else {
            0nat
        }
    }
}

pub open spec fn is_id(p: PartModel) -> bool {
    p is Id
}

pub open spec fn is_class(p: PartModel) -> bool {
    p is Class
}

pub open spec fn is_tag(p: PartModel) -> bool {
    p is Tag
}

/// CSS specificity: (number of ids, number of classes, number of tag
/// names). The universal selector counts in none of them.
pub open spec fn compound_specificity(c: Seq<PartModel>) -> (nat, nat, nat) {
    (count_parts(c, |p| is_id(p)), count_parts(c, |p| is_class(p)), count_parts(c, |p| is_tag(p)))
}

pub proof fn lemma_count_parts_prefix(c: Seq<PartModel>, i: int, f: spec_fn(PartModel) -> bool)
    requires
        0 <= i <= c.len(),
    ensures
        count_parts(c.take(i), f) <= count_parts(c, f),
    decreases c.len() - i,
{
    if i < c.len() {
        lemma_count_parts_prefix(c, i + 1, f);
        assert(c.take(i + 1).drop_last() =~= c.take(i));
    } else {
        assert(c.take(i) =~= c);
    }
}

/// Each component of the specificity fits in a `u32`.
pub open spec fn fits_u32(w: (nat, nat, nat)) -> bool {
    w.0 <= u32::MAX && w.1 <= u32::MAX && w.2 <= u32::MAX
}

/// The (ids, classes, tags) specificity of a compound selector. Tuples
/// compare lexicographically, so ids outrank classes, which outrank tags.
pub fn specificity(selector: &CompoundSelector) -> (r: (u32, u32, u32))
    requires
        fits_u32(compound_specificity(selector.deep_view())),
    ensures
        (r.0 as nat, r.1 as nat, r.2 as nat) == compound_specificity(selector.deep_view()),
{
    let ghost c = selector.deep_view();
    let mut ids: u32 = 0;
    let mut classes: u32 = 0;
    let mut tags: u32 = 0;
    let mut i: usize = 0;
    while i < selector.len()
        invariant
            0 <= i <= selector.len(),
            c == selector.deep_view(),
            fits_u32(compound_specificity(c)),
            ids == count_parts(c.take(i as int), |p| is_id(p)),
            classes == count_parts(c.take(i as int), |p| is_class(p)),
            tags == count_parts(c.take(i as int), |p| is_tag(p)),
        decreases selector.len() - i,
    {
        proof {
            assert(c.take(i + 1).drop_last() =~= c.take(i as int));
            assert(c.take(i + 1).last() == selector@[i as int]@);
            lemma_count_parts_prefix(c, i + 1, |p| is_id(p));
            lemma_count_parts_prefix(c, i + 1, |p| is_class(p));
            lemma_count_parts_prefix(c, i + 1, |p| is_tag(p));
        }
        match &selector[i] {
            SimplePart::Id(_) => ids = ids + 1,
            SimplePart::Class(_) => classes = classes + 1,
            SimplePart::Tag(_) => tags = tags + 1,
            SimplePart::Universal => {},
        }
        i = i + 1;
    }
    assert(c.take(selector.len() as int) =~= c);
    (ids, classes, tags)
}

/// The sum of the specificities of the compound selectors of `sel`.
pub open spec fn selector_specificity_of(sel: Seq<SegmentModel>) -> (nat, nat, nat)
    decreases sel.len(),
{
    if sel.len() == 0 {
        (0, 0, 0)
    } else {
        let a = selector_specificity_of(sel.drop_last());
        let b = compound_specificity(sel.last().compound);
        (a.0 + b.0, a.1 + b.1, a.2 + b.2)
    }
}

pub proof fn lemma_selector_specificity_prefix(sel: Seq<SegmentModel>, i: int)
    requires
        0 <= i <= sel.len(),
    ensures
        selector_specificity_of(sel.take(i)).0 <= selector_specificity_of(sel).0,
        selector_specificity_of(sel.take(i)).1 <= selector_specificity_of(sel).1,
        selector_specificity_of(sel.take(i)).2 <= selector_specificity_of(sel).2,
    decreases sel.len() - i,
{
    if i < sel.len() {
        lemma_selector_specificity_prefix(sel, i + 1);
        assert(sel.take(i + 1).drop_last() =~= sel.take(i));
    } else {
        assert(sel.take(i) =~= sel);
    }
}

/// The specificity of a selector: the sum of the specificities of its
/// compound selectors.
pub fn selector_specificity(selector: &Selector) -> (r: (u32, u32, u32))
    requires
        fits_u32(selector_specificity_of(selector.deep_view())),
    ensures
        (r.0 as nat, r.1 as nat, r.2 as nat) == selector_specificity_of(selector.deep_view()),
{
    let ghost sel = selector.deep_view();
    let mut acc: (u32, u32, u32) = (0, 0, 0);
    let mut i: usize = 0;
    while i < selector.len()
        invariant
            0 <= i <= selector.len(),
            sel == selector.deep_view(),
            fits_u32(selector_specificity_of(sel)),
            (acc.0 as nat, acc.1 as nat, acc.2 as nat) == selector_specificity_of(sel.take(i as int)),
        decreases selector.len() - i,
    {
        proof {
            assert(sel.take(i + 1).drop_last() =~= sel.take(i as int));
            assert(sel.take(i + 1).last() == sel[i as int]);
            lemma_selector_specificity_prefix(sel, i + 1);
            assert(sel[i as int].compound == selector@[i as int].compound.deep_view());
        }
        let (ids, classes, tags) = specificity(&selector[i].compound);
        acc = (acc.0 + ids, acc.1 + classes, acc.2 + tags);
        i = i + 1;
    }
    assert(sel.take(selector.len() as int) =~= sel);
    acc
}

/// The index of the first character of `s` at or after `i` for which `f`
/// holds, or `s.len()` when there is none.
pub open spec fn first_from(s: Seq<char>, i: int, f: spec_fn(char) -> bool) -> int
    decreases s.len() - i,
{
    if i < 0 || i >= s.len() {
        s.len() as int
    } else if f(s[i]) {
        i
    } else {
        first_from(s, i + 1, f)
    }
}

pub proof fn lemma_first_from(s: Seq<char>, i: int, f: spec_fn(char) -> bool)
    requires
        0 <= i <= s.len(),
    ensures
        i <= first_from(s, i, f) <= s.len(),
        forall|k: int| i <= k < first_from(s, i, f) ==> !f(#[trigger] s[k]),
        first_from(s, i, f) < s.len() ==> f(s[first_from(s, i, f)]),
    decreases s.len() - i,
{
    if i < s.len() && !f(s[i]) {
        lemma_first_from(s, i + 1, f);
    }
}

pub proof fn lemma_first_from_at(s: Seq<char>, i: int, j: int, f: spec_fn(char) -> bool)
    requires
        0 <= i <= j <= s.len(),
        forall|k: int| i <= k < j ==> !f(#[trigger] s[k]),
        j == s.len() || f(s[j]),
    ensures
        first_from(s, i, f) == j,
    decreases j - i,
{
    if i < j {
        lemma_first_from_at(s, i + 1, j, f);
    }
}

pub open spec fn is_name_char(c: char) -> bool {
    ||| ('a' <= c && c <= 'z')
    ||| ('A' <= c && c <= 'Z')
    ||| ('0' <= c && c <= '9')
    ||| c == '-'
    ||| c == '_'
}

pub open spec fn is_marker(c: char) -> bool {
    c == '.' || c == '#'
}

/// The characters a compound selector is made of.
pub open spec fn is_compound_char(c: char) -> bool {
    is_name_char(c) || is_marker(c)
}

/// The part named `name` after the marker `kind` (`.` for a class, `#` for
/// an id, none for a tag name).
pub open spec fn make_part(kind: Option<char>, name: Seq<char>) -> PartModel {
    match kind {
        Some(k) => if k == '.' {
            PartModel::Class(name)
        } else if k == '#' {
            PartModel::Id(name)
        } else {
            PartModel::Tag(name)
        },
        None => PartModel::Tag(name),
    }
}

/// The parts of the marker-separated text `p`, whose first name follows
/// the marker `kind`; empty names yield no part.
pub open spec fn parts_of(p: Seq<char>, kind: Option<char>) -> Seq<PartModel>
    decreases p.len(),
{
    let j = first_from(p, 0, |c| is_marker(c));
    let head = if j > 0 {
        seq![make_part(kind, p.subrange(0, j))]
    } else {
        Seq::<PartModel>::empty()
    };
    if j >= p.len() {
        head
    } else {
        proof {
            lemma_first_from(p, 0, |c| is_marker(c));
        }
        head + parts_of(p.subrange(j + 1, p.len() as int), Some(p[j]))
    }
}

/// The compound selector written by `s`: `*` alone, or the parts of the
/// longest prefix made of name characters, `.` and `#` (whatever follows
/// is ignored); `None` when no part results.
pub open spec fn compound_of(s: Seq<char>) -> Option<Seq<PartModel>> {
    let t = text::trim(s);
    if t.len() == 0 {
        None
    } else if t == seq!['*'] {
        Some(seq![PartModel::Universal])
    } else {
        let parts = parts_of(t.subrange(0, first_from(t, 0, |c| !is_compound_char(c))), None);
        if parts.len() == 0 {
            None
        } else {
            Some(parts)
        }
    }
}

fn is_name_char_exec(c: char) -> (r: bool)
    ensures
        r == is_name_char(c),
{
    ('a' <= c && c <= 'z') || ('A' <= c && c <= 'Z') || ('0' <= c && c <= '9') || c == '-' || c
        == '_'
}

fn make_part_exec(kind: Option<char>, name: String) -> (r: SimplePart)
    ensures
        r@ == make_part(kind, name@),
{
    match kind {
        Some(k) => if k == '.' {
            SimplePart::Class(name)
        } else if k == '#' {
            SimplePart::Id(name)
        } else {
            SimplePart::Tag(name)
        },
        None => SimplePart::Tag(name),
    }
}

/// `compound_of(v[lo..hi])`.
pub(crate) fn compound_range(v: &Vec<char>, lo: usize, hi: usize) -> (r: Option<CompoundSelector>)
    requires
        lo <= hi <= v.len(),
    ensures
        r matches Some(parts) ==> compound_of(v@.subrange(lo as int, hi as int)) == Some(
            parts.deep_view(),
        ),
        r is None ==> compound_of(v@.subrange(lo as int, hi as int)) is None,
{
    let (a, b) = trim_range(v, lo, hi);
    let ghost t = v@.subrange(a as int, b as int);
    if a == b {
        return None;
    }
    if b - a == 1 && v[a] == '*' {
        let mut parts: Vec<SimplePart> = Vec::new();
        parts.push(SimplePart::Universal);
        assert(t =~= seq!['*']);
        assert(parts.deep_view() =~= seq![PartModel::Universal]);
        return Some(parts);
    }
    assert(t != seq!['*']) by {
        if t == seq!['*'] {
            assert(t[0] == v@[a as int]);
        }
    }
    let mut e = a;
    while e < b && (is_name_char_exec(v[e]) || v[e] == '.' || v[e] == '#')
        invariant
            a <= e <= b <= v.len(),
            t == v@.subrange(a as int, b as int),
            forall|k: int| a <= k < e ==> is_compound_char(#[trigger] v@[k]),
        decreases b - e,
    {
        e = e + 1;
    }
    proof {
        assert forall|k: int| 0 <= k < e - a implies !(!is_compound_char(#[trigger] t[k])) by {
            assert(t[k] == v@[a + k]);
        }
        if e < b {
            assert(t[e - a] == v@[e as int]);
        }
        lemma_first_from_at(t, 0, e - a, |c| !is_compound_char(c));
        assert(t.subrange(0, e - a) =~= v@.subrange(a as int, e as int));
    }
    let ghost whole = v@.subrange(a as int, e as int);
    let mut parts: Vec<SimplePart> = Vec::new();
    let mut kind: Option<char> = None;
    let mut seg = a;
    let mut i = a;
    while i < e
        invariant
            a <= seg <= i <= e <= v.len(),
            whole == v@.subrange(a as int, e as int),
            forall|k: int| seg <= k < i ==> !is_marker(#[trigger] v@[k]),
            parts.deep_view() + parts_of(v@.subrange(seg as int, e as int), kind) == parts_of(
                whole,
                None,
            ),
        decreases e - i,
    {
        let c = v[i];
        if c == '.' || c == '#' {
            let ghost p = v@.subrange(seg as int, e as int);
            let ghost before = parts.deep_view();
            proof {
                assert forall|k: int| 0 <= k < i - seg implies !is_marker(#[trigger] p[k]) by {
                    assert(p[k] == v@[seg + k]);
                }
                assert(p[i - seg] == c);
                lemma_first_from_at(p, 0, i - seg, |c| is_marker(c));
                assert(p.subrange(0, i - seg) =~= v@.subrange(seg as int, i as int));
                assert(p.subrange(i - seg + 1, p.len() as int) =~= v@.subrange(i + 1, e as int));
            }
            if i > seg {
                let part = make_part_exec(kind, string_of(v, seg, i));
                parts.push(part);
                assert(parts.deep_view() =~= before.push(part@));
            }
            assert(parts.deep_view() + parts_of(v@.subrange(i + 1, e as int), Some(c)) =~= before
                + parts_of(p, kind));
            kind = Some(c);
            seg = i + 1;
        }
        i = i + 1;
    }
    proof {
        let p = v@.subrange(seg as int, e as int);
        assert forall|k: int| 0 <= k < e - seg implies !is_marker(#[trigger] p[k]) by {
            assert(p[k] == v@[seg + k]);
        }
        lemma_first_from_at(p, 0, e - seg, |c| is_marker(c));
        assert(p.subrange(0, e - seg) =~= p);
    }
    let ghost before = parts.deep_view();
    if e > seg {
        let part = make_part_exec(kind, string_of(v, seg, e));
        parts.push(part);
        assert(parts.deep_view() =~= before.push(part@));
    } else {
        assert(before + parts_of(v@.subrange(seg as int, e as int), kind) =~= before);
    }
    if parts.len() == 0 {
        None
    } else {
        Some(parts)
    }
}

/// Parses a single compound selector such as `div.foo#bar`, `*`, `.foo` or
/// `#bar`. Parsing stops at the first character that is not part of a
/// name, `.` or `#` (such as a combinator).
pub fn parse_compound_selector(input: &str) -> (r: Option<CompoundSelector>)
    ensures
        r matches Some(parts) ==> compound_of(input@) == Some(parts.deep_view()),
        r is None ==> compound_of(input@) is None,
{
    let v = chars_of(input);
    assert(v@.subrange(0, v@.len() as int) =~= v@);
    compound_range(&v, 0, v.len())
}

/// The combinator a whole word stands for, if it is one.
pub open spec fn combinator_of(w: Seq<char>) -> Option<Combinator> {
    if w == seq!['>'] {
        Some(Combinator::Child)
    } else if w == seq!['+'] {
        Some(Combinator::AdjacentSibling)
    } else if w == seq!['~'] {
        Some(Combinator::GeneralSibling)
    } else {
        None
    }
}

/// The segments read so far, and the combinator that joins the next
/// compound selector to them.
pub struct SelectorScan {
    pub segments: Seq<SegmentModel>,
    pub pending: Combinator,
}

/// The effect of one whitespace-separated word: a combinator word sets the
/// pending combinator; a word that parses as a compound selector adds a
/// segment (the first segment always with `Descendant`); any other word
/// is skipped.
pub open spec fn scan_word(st: SelectorScan, w: Seq<char>) -> SelectorScan {
    match combinator_of(w) {
        Some(c) => SelectorScan { segments: st.segments, pending: c },
        None => match compound_of(w) {
            Some(parts) => SelectorScan {
                segments: st.segments.push(
                    SegmentModel {
                        combinator: if st.segments.len() == 0 {
                            Combinator::Descendant
                        } else {
                            st.pending
                        },
                        compound: parts,
                    },
                ),
                pending: Combinator::Descendant,
            },
            None => st,
        },
    }
}

pub open spec fn scan_words(ws: Seq<Seq<char>>) -> SelectorScan
    decreases ws.len(),
{
    if ws.len() == 0 {
        SelectorScan { segments: Seq::empty(), pending: Combinator::Descendant }
    } else {
        scan_word(scan_words(ws.drop_last()), ws.last())
    }
}

/// The selector written by `s` (one selector, no commas); `None` when it
/// has no compound selector.
pub open spec fn selector_of(s: Seq<char>) -> Option<Seq<SegmentModel>> {
    let segs = scan_words(text::words(s)).segments;
    if segs.len() == 0 {
        None
    } else {
        Some(segs)
    }
}

fn combinator_range(v: &Vec<char>, lo: usize, hi: usize) -> (r: Option<Combinator>)
    requires
        lo <= hi <= v.len(),
    ensures
        r == combinator_of(v@.subrange(lo as int, hi as int)),
{
    let ghost w = v@.subrange(lo as int, hi as int);
    if hi - lo != 1 {
        assert(w != seq!['>'] && w != seq!['+'] && w != seq!['~']) by {
            if w == seq!['>'] || w == seq!['+'] || w == seq!['~'] {
                assert(w.len() == 1);
            }
        }
        return None;
    }
    let c = v[lo];
    assert(w =~= seq![c]);
    if c == '>' {
        Some(Combinator::Child)
    } else if c == '+' {
        Some(Combinator::AdjacentSibling)
    } else if c == '~' {
        Some(Combinator::GeneralSibling)
    } else {
        assert(w != seq!['>'] && w != seq!['+'] && w != seq!['~']) by {
            if w == seq!['>'] || w == seq!['+'] || w == seq!['~'] {
                assert(w[0] == c);
            }
        }
        None
    }
}

/// `selector_of(v[lo..hi])`.
pub(crate) fn selector_range(v: &Vec<char>, lo: usize, hi: usize) -> (r: Option<Selector>)
    requires
        lo <= hi <= v.len(),
    ensures
        r matches Some(sel) ==> selector_of(v@.subrange(lo as int, hi as int)) == Some(
            sel.deep_view(),
        ),
        r is None ==> selector_of(v@.subrange(lo as int, hi as int)) is None,
{
    let words = words_exec(v, lo, hi);
    let ghost ws = text::words(v@.subrange(lo as int, hi as int));
    let mut segments: Vec<SelectorSegment> = Vec::new();
    let mut pending = Combinator::Descendant;
    let mut k: usize = 0;
    while k < words.len()
        invariant
            lo <= hi <= v.len(),
            0 <= k <= words.len(),
            text::ranges_within(words@, lo as int, hi as int),
            text::pieces(v@, words@) == ws,
            segments.deep_view() == scan_words(ws.take(k as int)).segments,
            pending == scan_words(ws.take(k as int)).pending,
        decreases words.len() - k,
    {
        let (a, b) = words[k];
        proof {
            assert(lo <= words@[k as int].0 <= words@[k as int].1 <= hi);
            assert(ws.take(k + 1).drop_last() =~= ws.take(k as int));
            assert(ws[k as int] == v@.subrange(a as int, b as int));
        }
        match combinator_range(v, a, b) {
            Some(c) => {
                pending = c;
            },
            None => match compound_range(v, a, b) {
                Some(parts) => {
                    let combinator = if segments.len() == 0 {
                        Combinator::Descendant
                    } else {
                        pending
                    };
                    let ghost before = segments.deep_view();
                    let seg = SelectorSegment { combinator, compound: parts };
                    segments.push(seg);
                    assert(segments.deep_view() =~= before.push(seg@));
                    pending = Combinator::Descendant;
                },
                None => {},
            },
        }
        k = k + 1;
    }
    assert(ws.take(words.len() as int) =~= ws);
    if segments.len() == 0 {
        None
    } else {
        Some(segments)
    }
}

/// Parses one selector (no commas): compound selectors separated by
/// whitespace, with the combinator words `>`, `+` and `~` between them.
/// Words that are neither are skipped; `None` when no compound selector
/// remains.
pub fn parse_selector(input: &str) -> (r: Option<Selector>)
    ensures
        r matches Some(sel) ==> selector_of(input@) == Some(sel.deep_view()),
        r is None ==> selector_of(input@) is None,
{
    let v = chars_of(input);
    assert(v@.subrange(0, v@.len() as int) =~= v@);
    selector_range(&v, 0, v.len())
}

/// Whether the segments before `sel[n]` match, given that `sel[n]` matched
/// the element at a position: on the row of the element and its preceding
/// siblings (`on_row`; index 0 is the element itself, index `j + 1` is
/// `sib[j]`), or on the ancestor chain (`anc[k]`).
///
/// The siblings of an ancestor are not known, so a sibling combinator never
/// holds from an ancestor. The ancestors of a sibling are those of the
/// element.
pub open spec fn chain_matches(
    sel: Seq<SegmentModel>,
    n: int,
    on_row: bool,
    k: int,
    anc: Seq<ElementModel>,
    sib: Seq<ElementModel>,
) -> bool
    decreases n, anc.len() + sib.len() + 3,
{
    if n <= 0 {
        true
    } else if n >= sel.len() {
        false
    } else {
        let left = sel[n - 1].compound;
        let up = if on_row {
            0
        } else {
            k + 1
        };
        match sel[n].combinator {
            Combinator::Child => 0 <= up < anc.len() && compound_matches(left, anc[up])
                && chain_matches(sel, n - 1, false, up, anc, sib),
            Combinator::Descendant => 0 <= up < anc.len() && some_ancestor(sel, n, up, anc, sib),
            Combinator::AdjacentSibling => on_row && 0 <= k < sib.len() && compound_matches(
                left,
                sib[k],
            ) && chain_matches(sel, n - 1, true, k + 1, anc, sib),
            Combinator::GeneralSibling => on_row && 0 <= k < sib.len() && some_sibling(
                sel,
                n,
                k,
                anc,
                sib,
            ),
        }
    }
}

/// Some ancestor `anc[b]` with `b >= a` matches `sel[n - 1]`, and the rest
/// of the chain matches from there.
pub open spec fn some_ancestor(
    sel: Seq<SegmentModel>,
    n: int,
    a: int,
    anc: Seq<ElementModel>,
    sib: Seq<ElementModel>,
) -> bool
    decreases n, anc.len() + 1 - a,
{
    if n <= 0 || n >= sel.len() || a < 0 || a >= anc.len() {
        false
    } else {
        (compound_matches(sel[n - 1].compound, anc[a]) && chain_matches(
            sel,
            n - 1,
            false,
            a,
            anc,
            sib,
        )) || some_ancestor(sel, n, a + 1, anc, sib)
    }
}

/// Some preceding sibling `sib[i]` with `i >= j` matches `sel[n - 1]`, and
/// the rest of the chain matches from there.
pub open spec fn some_sibling(
    sel: Seq<SegmentModel>,
    n: int,
    j: int,
    anc: Seq<ElementModel>,
    sib: Seq<ElementModel>,
) -> bool
    decreases n, sib.len() + 1 - j,
{
    if n <= 0 || n >= sel.len() || j < 0 || j >= sib.len() {
        false
    } else {
        (compound_matches(sel[n - 1].compound, sib[j]) && chain_matches(
            sel,
            n - 1,
            true,
            j + 1,
            anc,
            sib,
        )) || some_sibling(sel, n, j + 1, anc, sib)
    }
}

/// Whether the selector matches the element `e`, whose ancestors are `anc`
/// (`anc[0]` the parent) and whose preceding siblings are `sib` (`sib[0]`
/// the immediately preceding one).
pub open spec fn selector_matches(
    sel: Seq<SegmentModel>,
    e: ElementModel,
    anc: Seq<ElementModel>,
    sib: Seq<ElementModel>,
) -> bool {
    sel.len() > 0 && compound_matches(sel.last().compound, e) && chain_matches(
        sel,
        sel.len() - 1,
        true,
        0,
        anc,
        sib,
    )
}

proof fn lemma_chain_more_ancestors(
    sel: Seq<SegmentModel>,
    n: int,
    on_row: bool,
    k: int,
    anc: Seq<ElementModel>,
    more: Seq<ElementModel>,
    sib: Seq<ElementModel>,
)
    requires
        chain_matches(sel, n, on_row, k, anc, sib),
    ensures
        chain_matches(sel, n, on_row, k, anc + more, sib),
    decreases n, anc.len() + sib.len() + 3,
{
    if n > 0 && n < sel.len() {
        let up = if on_row {
            0
        } else {
            k + 1
        };
        match sel[n].combinator {
            Combinator::Child => {
                assert((anc + more)[up] == anc[up]);
                lemma_chain_more_ancestors(sel, n - 1, false, up, anc, more, sib);
            },
            Combinator::Descendant => {
                lemma_some_ancestor_more(sel, n, up, anc, more, sib);
            },
            Combinator::AdjacentSibling => {
                lemma_chain_more_ancestors(sel, n - 1, true, k + 1, anc, more, sib);
            },
            Combinator::GeneralSibling => {
                lemma_some_sibling_more(sel, n, k, anc, more, sib);
            },
        }
    }
}

proof fn lemma_some_ancestor_more(
    sel: Seq<SegmentModel>,
    n: int,
    a: int,
    anc: Seq<ElementModel>,
    more: Seq<ElementModel>,
    sib: Seq<ElementModel>,
)
    requires
        some_ancestor(sel, n, a, anc, sib),
    ensures
        some_ancestor(sel, n, a, anc + more, sib),
    decreases n, anc.len() + 1 - a,
{
    assert((anc + more)[a] == anc[a]);
    if compound_matches(sel[n - 1].compound, anc[a]) && chain_matches(sel, n - 1, false, a, anc, sib) {
        lemma_chain_more_ancestors(sel, n - 1, false, a, anc, more, sib);
    } else {
        lemma_some_ancestor_more(sel, n, a + 1, anc, more, sib);
    }
}

proof fn lemma_some_sibling_more(
    sel: Seq<SegmentModel>,
    n: int,
    j: int,
    anc: Seq<ElementModel>,
    more: Seq<ElementModel>,
    sib: Seq<ElementModel>,
)
    requires
        some_sibling(sel, n, j, anc, sib),
    ensures
        some_sibling(sel, n, j, anc + more, sib),
    decreases n, sib.len() + 1 - j,
{
    if compound_matches(sel[n - 1].compound, sib[j]) && chain_matches(sel, n - 1, true, j + 1, anc, sib) {
        lemma_chain_more_ancestors(sel, n - 1, true, j + 1, anc, more, sib);
    } else {
        lemma_some_sibling_more(sel, n, j + 1, anc, more, sib);
    }
}

/// A selector that matches an element still matches it when the ancestor
/// chain is known further towards the root: descendant and child
/// combinators only need some suitable ancestor, in order.
pub proof fn law_more_ancestors_keep_match(
    sel: Seq<SegmentModel>,
    e: ElementModel,
    anc: Seq<ElementModel>,
    more: Seq<ElementModel>,
    sib: Seq<ElementModel>,
)
    requires
        selector_matches(sel, e, anc, sib),
    ensures
        selector_matches(sel, e, anc + more, sib),
{
    lemma_chain_more_ancestors(sel, sel.len() - 1, true, 0, anc, more, sib);
}

/// No segment is joined to the previous one by a child combinator.
pub open spec fn no_child_combinator(sel: Seq<SegmentModel>) -> bool {
    forall|i: int| 0 < i < sel.len() ==> (#[trigger] sel[i]).combinator != Combinator::Child
}

/// Where ancestor `k` lands once an element is inserted at `pos`.
pub open spec fn shifted(k: int, pos: int) -> int {
    if k < pos {
        k
    } else {
        k + 1
    }
}

proof fn lemma_some_ancestor_down(
    sel: Seq<SegmentModel>,
    n: int,
    a: int,
    b: int,
    anc: Seq<ElementModel>,
    sib: Seq<ElementModel>,
)
    requires
        some_ancestor(sel, n, b, anc, sib),
        0 <= a <= b,
    ensures
        some_ancestor(sel, n, a, anc, sib),
    decreases b - a,
{
    if a < b {
        lemma_some_ancestor_down(sel, n, a + 1, b, anc, sib);
    }
}

proof fn lemma_chain_insert(
    sel: Seq<SegmentModel>,
    n: int,
    on_row: bool,
    k: int,
    anc: Seq<ElementModel>,
    pos: int,
    x: ElementModel,
    sib: Seq<ElementModel>,
)
    requires
        no_child_combinator(sel),
        chain_matches(sel, n, on_row, k, anc, sib),
        0 <= pos <= anc.len(),
        !on_row ==> 0 <= k,
    ensures
        chain_matches(
            sel,
            n,
            on_row,
            if on_row {
                k
            } else {
                shifted(k, pos)
            },
            anc.insert(pos, x),
            sib,
        ),
    decreases n, anc.len() + sib.len() + 3,
{
    if n > 0 {
        let up = if on_row {
            0
        } else {
            k + 1
        };
        let up2 = if on_row {
            0
        } else {
            shifted(k, pos) + 1
        };
        match sel[n].combinator {
            Combinator::Child => {},
            Combinator::Descendant => {
                lemma_some_ancestor_insert(sel, n, up, anc, pos, x, sib, up2);
            },
            Combinator::AdjacentSibling => {
                lemma_chain_insert(sel, n - 1, true, k + 1, anc, pos, x, sib);
            },
            Combinator::GeneralSibling => {
                lemma_some_sibling_insert(sel, n, k, anc, pos, x, sib);
            },
        }
    }
}

proof fn lemma_some_ancestor_insert(
    sel: Seq<SegmentModel>,
    n: int,
    a: int,
    anc: Seq<ElementModel>,
    pos: int,
    x: ElementModel,
    sib: Seq<ElementModel>,
    a2: int,
)
    requires
        no_child_combinator(sel),
        some_ancestor(sel, n, a, anc, sib),
        0 <= pos <= anc.len(),
        0 <= a2 <= shifted(a, pos),
    ensures
        some_ancestor(sel, n, a2, anc.insert(pos, x), sib),
    decreases n, anc.len() + 1 - a,
{
    let anc2 = anc.insert(pos, x);
    if compound_matches(sel[n - 1].compound, anc[a]) && chain_matches(sel, n - 1, false, a, anc, sib) {
        lemma_chain_insert(sel, n - 1, false, a, anc, pos, x, sib);
        assert(anc2[shifted(a, pos)] == anc[a]);
        assert(some_ancestor(sel, n, shifted(a, pos), anc2, sib));
        lemma_some_ancestor_down(sel, n, a2, shifted(a, pos), anc2, sib);
    } else {
        lemma_some_ancestor_insert(sel, n, a + 1, anc, pos, x, sib, a2);
    }
}

proof fn lemma_some_sibling_insert(
    sel: Seq<SegmentModel>,
    n: int,
    j: int,
    anc: Seq<ElementModel>,
    pos: int,
    x: ElementModel,
    sib: Seq<ElementModel>,
)
    requires
        no_child_combinator(sel),
        some_sibling(sel, n, j, anc, sib),
        0 <= pos <= anc.len(),
    ensures
        some_sibling(sel, n, j, anc.insert(pos, x), sib),
    decreases n, sib.len() + 1 - j,
{
    if compound_matches(sel[n - 1].compound, sib[j]) && chain_matches(sel, n - 1, true, j + 1, anc, sib) {
        lemma_chain_insert(sel, n - 1, true, j + 1, anc, pos, x, sib);
    } else {
        lemma_some_sibling_insert(sel, n, j + 1, anc, pos, x, sib);
    }
}

/// Without child combinators, a selector that matches an element still
/// matches it when any element is inserted anywhere in its ancestor chain:
/// a descendant combinator needs a suitable ancestor somewhere above, in
/// order, not a direct parent.
pub proof fn law_inserted_ancestor_keeps_match(
    sel: Seq<SegmentModel>,
    e: ElementModel,
    anc: Seq<ElementModel>,
    pos: int,
    x: ElementModel,
    sib: Seq<ElementModel>,
)
    requires
        no_child_combinator(sel),
        0 <= pos <= anc.len(),
        selector_matches(sel, e, anc, sib),
    ensures
        selector_matches(sel, e, anc.insert(pos, x), sib),
{
    lemma_chain_insert(sel, sel.len() - 1, true, 0, anc, pos, x, sib);
}

/// No segment is joined to the previous one by an adjacent sibling
/// combinator.
pub open spec fn no_adjacent_combinator(sel: Seq<SegmentModel>) -> bool {
    forall|i: int| 0 < i < sel.len() ==> (#[trigger] sel[i]).combinator != Combinator::AdjacentSibling
}

/// Where position `k` of the row (0 the element, `j + 1` its sibling `j`)
/// lands once a sibling is inserted at `pos`.
pub open spec fn row_shifted(k: int, pos: int) -> int {
    if k == 0 {
        0
    } else {
        shifted(k - 1, pos) + 1
    }
}

proof fn lemma_some_sibling_down(
    sel: Seq<SegmentModel>,
    n: int,
    a: int,
    b: int,
    anc: Seq<ElementModel>,
    sib: Seq<ElementModel>,
)
    requires
        some_sibling(sel, n, b, anc, sib),
        0 <= a <= b,
    ensures
        some_sibling(sel, n, a, anc, sib),
    decreases b - a,
{
    if a < b {
        lemma_some_sibling_down(sel, n, a + 1, b, anc, sib);
    }
}

proof fn lemma_chain_sibling_insert(
    sel: Seq<SegmentModel>,
    n: int,
    on_row: bool,
    k: int,
    anc: Seq<ElementModel>,
    sib: Seq<ElementModel>,
    pos: int,
    x: ElementModel,
)
    requires
        no_adjacent_combinator(sel),
        chain_matches(sel, n, on_row, k, anc, sib),
        0 <= pos <= sib.len(),
        on_row ==> 0 <= k,
    ensures
        chain_matches(
            sel,
            n,
            on_row,
            if on_row {
                row_shifted(k, pos)
            } else {
                k
            },
            anc,
            sib.insert(pos, x),
        ),
    decreases n, anc.len() + sib.len() + 3,
{
    if n > 0 {
        let up = if on_row {
            0
        } else {
            k + 1
        };
        match sel[n].combinator {
            Combinator::Child => {
                lemma_chain_sibling_insert(sel, n - 1, false, up, anc, sib, pos, x);
            },
            Combinator::Descendant => {
                lemma_some_ancestor_sibling_insert(sel, n, up, anc, sib, pos, x);
            },
            Combinator::AdjacentSibling => {},
            Combinator::GeneralSibling => {
                lemma_some_sibling_insert_sibling(sel, n, k, anc, sib, pos, x, row_shifted(k, pos));
            },
        }
    }
}

proof fn lemma_some_ancestor_sibling_insert(
    sel: Seq<SegmentModel>,
    n: int,
    a: int,
    anc: Seq<ElementModel>,
    sib: Seq<ElementModel>,
    pos: int,
    x: ElementModel,
)
    requires
        no_adjacent_combinator(sel),
        some_ancestor(sel, n, a, anc, sib),
        0 <= pos <= sib.len(),
    ensures
        some_ancestor(sel, n, a, anc, sib.insert(pos, x)),
    decreases n, anc.len() + 1 - a,
{
    if compound_matches(sel[n - 1].compound, anc[a]) && chain_matches(sel, n - 1, false, a, anc, sib) {
        lemma_chain_sibling_insert(sel, n - 1, false, a, anc, sib, pos, x);
    } else {
        lemma_some_ancestor_sibling_insert(sel, n, a + 1, anc, sib, pos, x);
    }
}

proof fn lemma_some_sibling_insert_sibling(
    sel: Seq<SegmentModel>,
    n: int,
    j: int,
    anc: Seq<ElementModel>,
    sib: Seq<ElementModel>,
    pos: int,
    x: ElementModel,
    j2: int,
)
    requires
        no_adjacent_combinator(sel),
        some_sibling(sel, n, j, anc, sib),
        0 <= pos <= sib.len(),
        0 <= j2 <= shifted(j, pos),
    ensures
        some_sibling(sel, n, j2, anc, sib.insert(pos, x)),
    decreases n, sib.len() + 1 - j,
{
    let sib2 = sib.insert(pos, x);
    if compound_matches(sel[n - 1].compound, sib[j]) && chain_matches(sel, n - 1, true, j + 1, anc, sib) {
        lemma_chain_sibling_insert(sel, n - 1, true, j + 1, anc, sib, pos, x);
        assert(sib2[shifted(j, pos)] == sib[j]);
        assert(row_shifted(j + 1, pos) == shifted(j, pos) + 1);
        assert(some_sibling(sel, n, shifted(j, pos), anc, sib2));
        lemma_some_sibling_down(sel, n, j2, shifted(j, pos), anc, sib2);
    } else {
        lemma_some_sibling_insert_sibling(sel, n, j + 1, anc, sib, pos, x, j2);
    }
}

/// Without adjacent sibling combinators, a selector that matches an element
/// still matches it when any element is inserted anywhere among its
/// preceding siblings: a general sibling combinator needs a suitable
/// preceding sibling somewhere before, in order, not the immediately
/// preceding one.
pub proof fn law_inserted_sibling_keeps_match(
    sel: Seq<SegmentModel>,
    e: ElementModel,
    anc: Seq<ElementModel>,
    sib: Seq<ElementModel>,
    pos: int,
    x: ElementModel,
)
    requires
        no_adjacent_combinator(sel),
        0 <= pos <= sib.len(),
        selector_matches(sel, e, anc, sib),
    ensures
        selector_matches(sel, e, anc, sib.insert(pos, x)),
{
    lemma_chain_sibling_insert(sel, sel.len() - 1, true, 0, anc, sib, pos, x);
}

proof fn lemma_some_ancestor_one(sel: Seq<SegmentModel>, a: int, anc: Seq<ElementModel>, sib: Seq<ElementModel>)
    requires
        sel.len() == 2,
        0 <= a,
    ensures
        some_ancestor(sel, 1, a, anc, sib) <==> exists|i: int|
            a <= i < anc.len() && compound_matches(sel[0].compound, #[trigger] anc[i]),
    decreases anc.len() - a,
{
    if a < anc.len() {
        lemma_some_ancestor_one(sel, a + 1, anc, sib);
        assert(chain_matches(sel, 0, false, a, anc, sib));
        if compound_matches(sel[0].compound, anc[a]) {
            assert(some_ancestor(sel, 1, a, anc, sib));
        } else {
            assert(some_ancestor(sel, 1, a, anc, sib) == some_ancestor(sel, 1, a + 1, anc, sib));
            if exists|i: int| a <= i < anc.len() && compound_matches(sel[0].compound, #[trigger] anc[i]) {
                let i = choose|i: int| a <= i < anc.len() && compound_matches(sel[0].compound, #[trigger] anc[i]);
                assert(a + 1 <= i);
            }
        }
    }
}

proof fn lemma_some_sibling_one(sel: Seq<SegmentModel>, j: int, anc: Seq<ElementModel>, sib: Seq<ElementModel>)
    requires
        sel.len() == 2,
        0 <= j,
    ensures
        some_sibling(sel, 1, j, anc, sib) <==> exists|i: int|
            j <= i < sib.len() && compound_matches(sel[0].compound, #[trigger] sib[i]),
    decreases sib.len() - j,
{
    if j < sib.len() {
        lemma_some_sibling_one(sel, j + 1, anc, sib);
        assert(chain_matches(sel, 0, true, j + 1, anc, sib));
        if compound_matches(sel[0].compound, sib[j]) {
            assert(some_sibling(sel, 1, j, anc, sib));
        } else {
            assert(some_sibling(sel, 1, j, anc, sib) == some_sibling(sel, 1, j + 1, anc, sib));
            if exists|i: int| j <= i < sib.len() && compound_matches(sel[0].compound, #[trigger] sib[i]) {
                let i = choose|i: int| j <= i < sib.len() && compound_matches(sel[0].compound, #[trigger] sib[i]);
                assert(j + 1 <= i);
            }
        }
    }
}

/// The selector `A c B`.
pub open spec fn pair_selector(a: Seq<PartModel>, c: Combinator, b: Seq<PartModel>) -> Seq<SegmentModel> {
    seq![
        SegmentModel { combinator: Combinator::Descendant, compound: a },
        SegmentModel { combinator: c, compound: b },
    ]
}

/// What each combinator asks of `A c B`: `B` matches the element, and `A`
/// matches some ancestor (descendant), the parent (child), the immediately
/// preceding sibling (adjacent), or some preceding sibling (general).
pub proof fn law_combinator_meaning(
    a: Seq<PartModel>,
    b: Seq<PartModel>,
    c: Combinator,
    e: ElementModel,
    anc: Seq<ElementModel>,
    sib: Seq<ElementModel>,
)
    ensures
        selector_matches(pair_selector(a, c, b), e, anc, sib) <==> compound_matches(b, e) && match c {
            Combinator::Descendant => exists|i: int|
                0 <= i < anc.len() && compound_matches(a, #[trigger] anc[i]),
            Combinator::Child => anc.len() > 0 && compound_matches(a, anc[0]),
            Combinator::AdjacentSibling => sib.len() > 0 && compound_matches(a, sib[0]),
            Combinator::GeneralSibling => exists|i: int|
                0 <= i < sib.len() && compound_matches(a, #[trigger] sib[i]),
        },
{
    let sel = pair_selector(a, c, b);
    assert(sel.len() == 2 && sel[0].compound == a && sel[1].combinator == c && sel[1].compound == b);
    assert(sel.last() == sel[1]);
    lemma_some_ancestor_one(sel, 0, anc, sib);
    lemma_some_sibling_one(sel, 0, anc, sib);
    assert(chain_matches(sel, 0, false, 0, anc, sib));
    assert(chain_matches(sel, 0, true, 1, anc, sib));
    if anc.len() == 0 {
        assert(!(exists|i: int| 0 <= i < anc.len() && compound_matches(a, #[trigger] anc[i])));
    }
    if sib.len() == 0 {
        assert(!(exists|i: int| 0 <= i < sib.len() && compound_matches(a, #[trigger] sib[i])));
    }
}

/// A selector of one compound selector matches exactly the elements the
/// compound selector matches, whatever their ancestors and siblings.
pub proof fn law_single_compound_ignores_context(
    c: Seq<PartModel>,
    e: ElementModel,
    anc: Seq<ElementModel>,
    sib: Seq<ElementModel>,
)
    ensures
        selector_matches(
            seq![SegmentModel { combinator: Combinator::Descendant, compound: c }],
            e,
            anc,
            sib,
        ) == compound_matches(c, e),
{
}

/// A non-empty name made only of name characters (ASCII letters, digits,
/// `-` and `_`).
pub open spec fn is_name(n: Seq<char>) -> bool {
    n.len() > 0 && forall|i: int| 0 <= i < n.len() ==> is_name_char(#[trigger] n[i])
}

proof fn lemma_name_parts(n: Seq<char>, kind: Option<char>)
    requires
        is_name(n),
    ensures
        parts_of(n, kind) == seq![make_part(kind, n)],
{
    lemma_first_from_at(n, 0, n.len() as int, |c| is_marker(c));
    assert(n.subrange(0, n.len() as int) =~= n);
}

proof fn lemma_trim_of_unpadded(t: Seq<char>)
    requires
        t.len() > 0,
        !text::is_ws(t[0]),
        !text::is_ws(t.last()),
    ensures
        text::trim(t) == t,
{
    assert(text::trim_start(t) == t);
}

/// A name is read whole, `-` and `_` included: `n` alone is the tag name
/// `n`, `.n` the class `n`, and `#n` the id `n`.
pub proof fn law_names_are_read_whole(n: Seq<char>)
    requires
        is_name(n),
    ensures
        compound_of(n) == Some(seq![PartModel::Tag(n)]),
        compound_of(seq!['.'] + n) == Some(seq![PartModel::Class(n)]),
        compound_of(seq!['#'] + n) == Some(seq![PartModel::Id(n)]),
{
    lemma_name_parts(n, None);
    lemma_name_parts(n, Some('.'));
    lemma_name_parts(n, Some('#'));
    // the bare name
    assert(is_name_char(n[0]) && is_name_char(n.last()));
    lemma_trim_of_unpadded(n);
    assert(n != seq!['*']) by {
        if n == seq!['*'] {
            assert(is_name_char(n[0]));
        }
    }
    lemma_first_from_at(n, 0, n.len() as int, |c| !is_compound_char(c));
    assert(n.subrange(0, n.len() as int) =~= n);
    // with a marker in front
    let m = seq!['.', '#'];
    assert forall|k: int| 0 <= k < 2 implies {
        let t = seq![#[trigger] m[k]] + n;
        compound_of(t) == Some(seq![make_part(Some(m[k]), n)])
    } by {
        let c = m[k];
        let t = seq![c] + n;
        assert(t.last() == n.last());
        lemma_trim_of_unpadded(t);
        assert(t != seq!['*']) by {
            if t == seq!['*'] {
                assert(t[0] == c);
            }
        }
        assert forall|i: int| 0 <= i < t.len() implies !(!is_compound_char(#[trigger] t[i])) by {
            if i > 0 {
                assert(t[i] == n[i - 1]);
            }
        }
        lemma_first_from_at(t, 0, t.len() as int, |c| !is_compound_char(c));
        assert(t.subrange(0, t.len() as int) =~= t);
        lemma_first_from_at(t, 0, 0, |c| is_marker(c));
        assert(t.subrange(1, t.len() as int) =~= n);
        assert(parts_of(t, None) == Seq::<PartModel>::empty() + parts_of(n, Some(c)));
    }
    assert(m[0] == '.' && m[1] == '#');
}

proof fn lemma_parts_append(p: Seq<char>, kind: Option<char>, m: char, n: Seq<char>)
    requires
        is_marker(m),
        is_name(n),
    ensures
        parts_of(p + seq![m] + n, kind) == parts_of(p, kind) + seq![make_part(Some(m), n)],
    decreases p.len(),
{
    let q = p + seq![m] + n;
    let f = |c: char| is_marker(c);
    lemma_first_from(p, 0, f);
    let j = first_from(p, 0, f);
    assert forall|k: int| 0 <= k < j implies !f(#[trigger] q[k]) by {
        assert(q[k] == p[k]);
    }
    if j < p.len() {
        assert(q[j] == p[j]);
        lemma_first_from_at(q, 0, j, f);
        assert(q.subrange(0, j) =~= p.subrange(0, j));
        let r = p.subrange(j + 1, p.len() as int);
        assert(q.subrange(j + 1, q.len() as int) =~= r + seq![m] + n);
        lemma_parts_append(r, Some(p[j]), m, n);
        let head = if j > 0 {
            seq![make_part(kind, p.subrange(0, j))]
        } else {
            Seq::<PartModel>::empty()
        };
        assert(parts_of(q, kind) == head + parts_of(r + seq![m] + n, Some(p[j])));
        assert(parts_of(p, kind) == head + parts_of(r, Some(p[j])));
        assert(head + (parts_of(r, Some(p[j])) + seq![make_part(Some(m), n)]) =~= (head + parts_of(
            r,
            Some(p[j]),
        )) + seq![make_part(Some(m), n)]);
    } else {
        assert(q[j] == m);
        lemma_first_from_at(q, 0, j, f);
        assert(q.subrange(0, j) =~= p);
        assert(q.subrange(j + 1, q.len() as int) =~= n);
        lemma_name_parts(n, Some(m));
        assert(p.subrange(0, j) =~= p);
        let head = if j > 0 {
            seq![make_part(kind, p)]
        } else {
            Seq::<PartModel>::empty()
        };
        assert(parts_of(p, kind) == head);
        assert(parts_of(q, kind) == head + seq![make_part(Some(m), n)]);
    }
}

/// Appending `.n` or `#n` to a compound selector appends the class or id
/// `n` to its parts, after the parts already there.
pub proof fn law_compound_appends_part(t: Seq<char>, m: char, n: Seq<char>)
    requires
        t.len() > 0,
        forall|i: int| 0 <= i < t.len() ==> is_compound_char(#[trigger] t[i]),
        is_marker(m),
        is_name(n),
    ensures
        compound_of(t + seq![m] + n) == Some(
            match compound_of(t) {
                Some(ps) => ps,
                None => Seq::<PartModel>::empty(),
            }.push(
                if m == '.' {
                    PartModel::Class(n)
                } else {
                    PartModel::Id(n)
                },
            ),
        ),
{
    let q = t + seq![m] + n;
    let g = |c: char| !is_compound_char(c);
    assert(is_compound_char(t[0]) && is_name_char(n.last()));
    lemma_trim_of_unpadded(t);
    assert(t.last() == t[t.len() - 1]);
    assert(q[0] == t[0] && q.last() == n.last());
    lemma_trim_of_unpadded(q);
    assert forall|i: int| 0 <= i < q.len() implies !g(#[trigger] q[i]) by {
        if i < t.len() {
            assert(q[i] == t[i]);
        } else if i > t.len() {
            assert(q[i] == n[i - t.len() - 1]);
        }
    }
    lemma_first_from_at(q, 0, q.len() as int, g);
    assert(q.subrange(0, q.len() as int) =~= q);
    lemma_first_from_at(t, 0, t.len() as int, g);
    assert(t.subrange(0, t.len() as int) =~= t);
    assert(q != seq!['*']) by {
        if q == seq!['*'] {
            assert(q.len() == 1);
        }
    }
    assert(t != seq!['*']) by {
        if t == seq!['*'] {
            assert(is_compound_char(t[0]));
        }
    }
    lemma_parts_append(t, None, m, n);
    if parts_of(t, None).len() == 0 {
        assert(parts_of(t, None) + seq![make_part(Some(m), n)] =~= Seq::<PartModel>::empty().push(
            make_part(Some(m), n),
        ));
    }
}

/// The universal selector adds nothing to the specificity.
pub proof fn law_universal_adds_no_specificity(c: Seq<PartModel>)
    ensures
        compound_specificity(c.push(PartModel::Universal)) == compound_specificity(c),
{
    assert(c.push(PartModel::Universal).drop_last() =~= c);
}

fn chain_exec<E: ElementLike + ?Sized>(
    sel: &Selector,
    n: usize,
    on_row: bool,
    k: usize,
    ancestors: &[&E],
    siblings: &[&E],
) -> (r: bool)
    requires
        n < sel.len(),
    ensures
        r == chain_matches(
            sel.deep_view(),
            n as int,
            on_row,
            k as int,
            element_models(ancestors@),
            element_models(siblings@),
        ),
    decreases n,
{
    let ghost s = sel.deep_view();
    let ghost anc = element_models(ancestors@);
    let ghost sib = element_models(siblings@);
    if n == 0 {
        return true;
    }
    let left = &sel[n - 1].compound;
    assert(s[n - 1].compound == left.deep_view());
    assert(s[n as int].combinator == sel@[n as int].combinator);
    let up: usize = if on_row {
        0
    } else {
        if k >= ancestors.len() {
            assert(!(0 <= k + 1 < anc.len()));
            return false;
        }
        k + 1
    };
    match sel[n].combinator {
        Combinator::Child => {
            if up < ancestors.len() {
                assert(anc[up as int] == element_model(ancestors@[up as int]));
                matches(left, ancestors[up]) && chain_exec(sel, n - 1, false, up, ancestors, siblings)
            } else {
                false
            }
        },
        Combinator::Descendant => {
            let mut a = up;
            while a < ancestors.len()
                invariant
                    0 < n < sel.len(),
                    up <= a,
                    s == sel.deep_view(),
                    anc == element_models(ancestors@),
                    sib == element_models(siblings@),
                    left.deep_view() == s[n - 1].compound,
                    up < anc.len() ==> some_ancestor(s, n as int, up as int, anc, sib)
                        == some_ancestor(s, n as int, a as int, anc, sib),
                    chain_matches(s, n as int, on_row, k as int, anc, sib) == (0 <= up < anc.len()
                        && some_ancestor(s, n as int, up as int, anc, sib)),
                decreases ancestors.len() - a,
            {
                assert(anc[a as int] == element_model(ancestors@[a as int]));
                if matches(left, ancestors[a]) && chain_exec(sel, n - 1, false, a, ancestors, siblings) {
                    return true;
                }
                a = a + 1;
            }
            false
        },
        Combinator::AdjacentSibling => {
            if on_row && k < siblings.len() {
                assert(sib[k as int] == element_model(siblings@[k as int]));
                matches(left, siblings[k]) && chain_exec(sel, n - 1, true, k + 1, ancestors, siblings)
            } else {
                false
            }
        },
        Combinator::GeneralSibling => {
            if !on_row {
                return false;
            }
            let mut j = k;
            while j < siblings.len()
                invariant
                    0 < n < sel.len(),
                    on_row,
                    k <= j,
                    s == sel.deep_view(),
                    anc == element_models(ancestors@),
                    sib == element_models(siblings@),
                    left.deep_view() == s[n - 1].compound,
                    k < sib.len() ==> some_sibling(s, n as int, k as int, anc, sib)
                        == some_sibling(s, n as int, j as int, anc, sib),
                    chain_matches(s, n as int, on_row, k as int, anc, sib) == (on_row && 0 <= k
                        < sib.len() && some_sibling(s, n as int, k as int, anc, sib)),
                decreases siblings.len() - j,
            {
                assert(sib[j as int] == element_model(siblings@[j as int]));
                if matches(left, siblings[j]) && chain_exec(sel, n - 1, true, j + 1, ancestors, siblings) {
                    return true;
                }
                j = j + 1;
            }
            false
        },
    }
}

/// Whether `selector` matches `el`. `ancestors` runs from the parent
/// (`ancestors[0]`) towards the root; `preceding_siblings` runs from the
/// immediately preceding sibling (`preceding_siblings[0]`) backwards.
/// Descendant and child combinators look along `ancestors`; sibling
/// combinators look along `preceding_siblings`.
pub fn matches_selector<E: ElementLike + ?Sized>(
    selector: &Selector,
    el: &E,
    ancestors: &[&E],
    preceding_siblings: &[&E],
) -> (r: bool)
    ensures
        r == selector_matches(
            selector.deep_view(),
            element_model(el),
            element_models(ancestors@),
            element_models(preceding_siblings@),
        ),
{
    if selector.len() == 0 {
        return false;
    }
    let last = selector.len() - 1;
    assert(selector.deep_view().last().compound == selector@[last as int].compound.deep_view());
    matches(&selector[last].compound, el) && chain_exec(
        selector,
        last,
        true,
        0,
        ancestors,
        preceding_siblings,
    )
}

} // verus!
