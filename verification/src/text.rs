//! Character-level helpers shared by the parsers: whitespace, trimming,
//! pattern search and splitting, ASCII lowercasing, and the conversions
//! between `&str`/`String` and the `Vec<char>` buffers the parsers scan.
//!
//! Every scanning function works on a half-open range `lo..hi` of a
//! character buffer `v`, and its contract speaks of `v@.subrange(lo, hi)`.
use vstd::prelude::*;

verus! {

broadcast use vstd::seq::group_seq_axioms;

/// The Unicode `White_Space` characters, the set that `char::is_whitespace`,
/// `str::trim` and `str::split_whitespace` use.
pub open spec fn is_ws(c: char) -> bool {
    ||| ('\u{9}' <= c && c <= '\u{d}')
    ||| c == ' '
    ||| c == '\u{85}'
    ||| c == '\u{a0}'
    ||| c == '\u{1680}'
    ||| ('\u{2000}' <= c && c <= '\u{200a}')
    ||| c == '\u{2028}'
    ||| c == '\u{2029}'
    ||| c == '\u{202f}'
    ||| c == '\u{205f}'
    ||| c == '\u{3000}'
}

pub(crate) fn is_ws_char(c: char) -> (r: bool)
    ensures
        r == is_ws(c),
{
    ('\u{9}' <= c && c <= '\u{d}') || c == ' ' || c == '\u{85}' || c == '\u{a0}' || c == '\u{1680}'
        || ('\u{2000}' <= c && c <= '\u{200a}') || c == '\u{2028}' || c == '\u{2029}' || c
        == '\u{202f}' || c == '\u{205f}' || c == '\u{3000}'
}

/// `s` without its leading whitespace.
pub open spec fn trim_start(s: Seq<char>) -> Seq<char>
    decreases s.len(),
{
    if s.len() > 0 && is_ws(s[0]) {
        trim_start(s.drop_first())
    } else {
        s
    }
}

/// `s` without its trailing whitespace.
pub open spec fn trim_end(s: Seq<char>) -> Seq<char>
    decreases s.len(),
{
    if s.len() > 0 && is_ws(s.last()) {
        trim_end(s.drop_last())
    } else {
        s
    }
}

/// `s` without leading and trailing whitespace (`str::trim`).
pub open spec fn trim(s: Seq<char>) -> Seq<char> {
    trim_end(trim_start(s))
}

/// `p` occurs in `s` starting at index `i`.
pub open spec fn occurs_at(s: Seq<char>, i: int, p: Seq<char>) -> bool {
    0 <= i && i + p.len() <= s.len() && s.subrange(i, i + p.len()) == p
}

/// The first index at or after `i` where `p` occurs in `s`.
pub open spec fn find_from(s: Seq<char>, p: Seq<char>, i: int) -> Option<int>
    decreases s.len() + 1 - i,
{
    if i < 0 || i + p.len() > s.len() {
        None
    } else if occurs_at(s, i, p) {
        Some(i)
    } else {
        find_from(s, p, i + 1)
    }
}

/// The first index where `p` occurs in `s` (`str::find`).
pub open spec fn find(s: Seq<char>, p: Seq<char>) -> Option<int> {
    find_from(s, p, 0)
}

pub proof fn lemma_find_from(s: Seq<char>, p: Seq<char>, i: int)
    requires
        0 <= i,
    ensures
        match find_from(s, p, i) {
            Some(j) => i <= j && occurs_at(s, j, p) && forall|k: int|
                i <= k < j ==> !occurs_at(s, k, p),
            None => forall|k: int| i <= k ==> !occurs_at(s, k, p),
        },
    decreases s.len() + 1 - i,
{
    if i + p.len() > s.len() {
    } else if occurs_at(s, i, p) {
    } else {
        lemma_find_from(s, p, i + 1);
    }
}

/// The pieces of `s` between the non-overlapping occurrences of the
/// non-empty pattern `p`, left to right (`str::split`).
pub open spec fn split(s: Seq<char>, p: Seq<char>) -> Seq<Seq<char>>
    decreases s.len(),
{
    if p.len() == 0 {
        seq![s]
    } else {
        match find(s, p) {
            None => seq![s],
            Some(i) => {
                proof {
                    lemma_find_from(s, p, 0);
                }
                seq![s.subrange(0, i)] + split(s.subrange(i + p.len(), s.len() as int), p)
            },
        }
    }
}

/// The index of the first whitespace character of `s` at or after `i`,
/// or `s.len()` when there is none.
pub open spec fn ws_from(s: Seq<char>, i: int) -> int
    decreases s.len() - i,
{
    if i < 0 || i >= s.len() {
        s.len() as int
    } else if is_ws(s[i]) {
        i
    } else {
        ws_from(s, i + 1)
    }
}

pub proof fn lemma_ws_from(s: Seq<char>, i: int)
    requires
        0 <= i <= s.len(),
    ensures
        i <= ws_from(s, i) <= s.len(),
        forall|k: int| i <= k < ws_from(s, i) ==> !is_ws(s[k]),
        ws_from(s, i) < s.len() ==> is_ws(s[ws_from(s, i)]),
    decreases s.len() - i,
{
    if i < s.len() && !is_ws(s[i]) {
        lemma_ws_from(s, i + 1);
    }
}

pub proof fn lemma_trim_start(s: Seq<char>)
    ensures
        trim_start(s).len() <= s.len(),
        trim_start(s) == s.subrange(s.len() - trim_start(s).len(), s.len() as int),
        trim_start(s).len() > 0 ==> !is_ws(trim_start(s)[0]),
        forall|k: int| 0 <= k < s.len() - trim_start(s).len() ==> is_ws(s[k]),
    decreases s.len(),
{
    if s.len() > 0 && is_ws(s[0]) {
        lemma_trim_start(s.drop_first());
        assert forall|k: int| 0 <= k < s.len() - trim_start(s).len() implies is_ws(s[k]) by {
            if k > 0 {
                assert(s[k] == s.drop_first()[k - 1]);
            }
        }
        assert(s.drop_first().subrange(
            s.drop_first().len() - trim_start(s).len(),
            s.drop_first().len() as int,
        ) =~= s.subrange(s.len() - trim_start(s).len(), s.len() as int));
    } else {
        assert(s.subrange(0, s.len() as int) =~= s);
    }
}

pub proof fn lemma_trim_end(s: Seq<char>)
    ensures
        trim_end(s).len() <= s.len(),
        trim_end(s) == s.subrange(0, trim_end(s).len() as int),
        trim_end(s).len() > 0 ==> !is_ws(trim_end(s).last()),
        forall|k: int| trim_end(s).len() <= k < s.len() ==> is_ws(s[k]),
    decreases s.len(),
{
    if s.len() > 0 && is_ws(s.last()) {
        lemma_trim_end(s.drop_last());
        assert forall|k: int| trim_end(s).len() <= k < s.len() implies is_ws(s[k]) by {
            if k < s.len() - 1 {
                assert(s[k] == s.drop_last()[k]);
            }
        }
        assert(s.drop_last().subrange(0, trim_end(s).len() as int) =~= s.subrange(
            0,
            trim_end(s).len() as int,
        ));
    } else {
        assert(s.subrange(0, s.len() as int) =~= s);
    }
}

pub proof fn lemma_trim_start_idempotent(s: Seq<char>)
    ensures
        trim_start(trim_start(s)) == trim_start(s),
{
    lemma_trim_start(s);
}

pub proof fn lemma_trim_end_idempotent(s: Seq<char>)
    ensures
        trim_end(trim_end(s)) == trim_end(s),
{
    lemma_trim_end(s);
}

/// Trimming the end then the start is trimming the start then the end.
pub proof fn lemma_trim_commute(s: Seq<char>)
    ensures
        trim_start(trim_end(s)) == trim_end(trim_start(s)),
{
    lemma_trim_start(s);
    lemma_trim_end(s);
    let b = s.len() - trim_start(s).len();
    let e = trim_end(s).len() as int;
    if b == s.len() {
        if e > 0 {
            assert(is_ws(s[e - 1]));
            assert(trim_end(s).last() == s[e - 1]);
        }
        assert(trim_end(s) =~= Seq::<char>::empty());
        assert(trim_start(s) =~= Seq::<char>::empty());
    } else {
        assert(!is_ws(s[b]));
        assert(b < e);
        let x = trim_end(s);
        lemma_trim_start(x);
        let b2 = x.len() - trim_start(x).len();
        assert(b2 == b) by {
            if b2 < b {
                assert(trim_start(x)[0] == x[b2]);
                assert(x[b2] == s[b2]);
            } else if b2 > b {
                assert(x[b] == s[b]);
            }
        }
        let y = trim_start(s);
        lemma_trim_end(y);
        let e2 = trim_end(y).len() as int;
        assert(b + e2 == e) by {
            if b + e2 < e {
                assert(y[e - 1 - b] == s[e - 1]);
                assert(trim_end(s).last() == s[e - 1]);
            } else if b + e2 > e {
                assert(trim_end(y).last() == y[e2 - 1]);
                assert(y[e2 - 1] == s[b + e2 - 1]);
            }
        }
        assert(trim_start(x) =~= s.subrange(b, e));
        assert(trim_end(y) =~= s.subrange(b, e));
    }
}

/// Trimming the end first changes nothing to the trimmed result.
pub proof fn lemma_trim_of_trim_end(s: Seq<char>)
    ensures
        trim(trim_end(s)) == trim(s),
{
    lemma_trim_commute(s);
    lemma_trim_end_idempotent(trim_start(s));
}

/// `trim(s)` is a piece of `s`.
pub proof fn lemma_trim_within(s: Seq<char>)
    ensures
        exists|b: int, e: int| 0 <= b <= e <= s.len() && trim(s) == s.subrange(b, e),
{
    lemma_trim_start(s);
    let b = s.len() - trim_start(s).len();
    let y = trim_start(s);
    lemma_trim_end(y);
    let e = b + trim_end(y).len();
    assert(trim(s) =~= s.subrange(b, e));
}

/// Trimming `a + b` from the start, when `b` starts with a non-space.
pub proof fn lemma_trim_start_concat(a: Seq<char>, b: Seq<char>)
    requires
        b.len() > 0,
        !is_ws(b[0]),
    ensures
        trim_start(a + b) == trim_start(a) + b,
    decreases a.len(),
{
    if a.len() == 0 {
        assert(a + b =~= b);
        assert(trim_start(a) + b =~= b);
    } else if is_ws(a[0]) {
        assert((a + b).drop_first() =~= a.drop_first() + b);
        lemma_trim_start_concat(a.drop_first(), b);
    }
}

/// Trimming `a + b` from the end, when `a` ends with a non-space.
pub proof fn lemma_trim_end_concat(a: Seq<char>, b: Seq<char>)
    requires
        a.len() > 0,
        !is_ws(a.last()),
    ensures
        trim_end(a + b) == a + trim_end(b),
    decreases b.len(),
{
    if b.len() == 0 {
        assert(a + b =~= a);
        assert(a + trim_end(b) =~= a);
    } else if is_ws(b.last()) {
        assert((a + b).drop_last() =~= a + b.drop_last());
        lemma_trim_end_concat(a, b.drop_last());
    } else {
        assert((a + b).last() == b.last());
    }
}

/// The first occurrence of the character `c` in `s` is at `i`.
pub proof fn lemma_find_char(s: Seq<char>, c: char, i: int)
    requires
        0 <= i < s.len(),
        s[i] == c,
        forall|k: int| 0 <= k < i ==> s[k] != c,
    ensures
        find(s, seq![c]) == Some(i),
{
    lemma_find_from(s, seq![c], 0);
    assert(s.subrange(i, i + 1) =~= seq![c]);
    assert(occurs_at(s, i, seq![c]));
    match find(s, seq![c]) {
        Some(j) => {
            assert(s.subrange(j, j + 1)[0] == s[j]);
            assert(!(j < i));
        },
        None => {},
    }
}

/// `c` does not occur in `s`.
pub proof fn lemma_find_char_absent(s: Seq<char>, c: char)
    requires
        forall|k: int| 0 <= k < s.len() ==> s[k] != c,
    ensures
        find(s, seq![c]) is None,
{
    lemma_find_from(s, seq![c], 0);
    match find(s, seq![c]) {
        Some(j) => {
            assert(s.subrange(j, j + 1)[0] == s[j]);
        },
        None => {},
    }
}

/// The whitespace-separated words of `s` (`str::split_whitespace`).
pub open spec fn words(s: Seq<char>) -> Seq<Seq<char>>
    decreases s.len(),
{
    let t = trim_start(s);
    if t.len() == 0 {
        seq![]
    } else {
        let k = ws_from(t, 0);
        proof {
            lemma_trim_start(s);
            lemma_ws_from(t, 0);
        }
        seq![t.subrange(0, k)] + words(t.subrange(k, t.len() as int))
    }
}

/// `s` starts with `p`.
pub open spec fn has_prefix(s: Seq<char>, p: Seq<char>) -> bool {
    p.len() <= s.len() && s.subrange(0, p.len() as int) == p
}

/// `s` ends with `p`.
pub open spec fn has_suffix(s: Seq<char>, p: Seq<char>) -> bool {
    p.len() <= s.len() && s.subrange(s.len() - p.len(), s.len() as int) == p
}

/// ASCII lowercasing of one character (`char::to_ascii_lowercase`).
pub open spec fn lower_char(c: char) -> char {
    if 'A' <= c && c <= 'Z' {
        ((c as u32) + 32) as char
    } else {
        c
    }
}

/// ASCII lowercasing of a sequence (`str::to_ascii_lowercase`).
pub open spec fn lower(s: Seq<char>) -> Seq<char> {
    s.map_values(|c: char| lower_char(c))
}

pub(crate) fn lower_char_exec(c: char) -> (r: char)
    ensures
        r == lower_char(c),
{
    if 'A' <= c && c <= 'Z' {
        ((c as u8) + 32) as char
    } else {
        c
    }
}

/// The characters of `s`, in order.
pub(crate) fn chars_of(s: &str) -> (v: Vec<char>)
    ensures
        v@ == s@,
{
    broadcast use vstd::string::group_string_axioms;

    let mut v: Vec<char> = Vec::new();
    for c in it: s.chars()
        invariant
            it.seq() == s@,
            v@ == it.seq().take(it.index() as int),
    {
        v.push(c);
    }
    v
}

/// `std::string::String::from_iter` over the characters `v[lo..hi]`.
#[verifier::external_body]
pub(crate) fn string_of(v: &Vec<char>, lo: usize, hi: usize) -> (r: String)
    requires
        lo <= hi <= v.len(),
    ensures
        r@ == v@.subrange(lo as int, hi as int),
{
    String::from_iter(v[lo..hi].iter())
}

/// `<str as PartialEq>::eq`: two string slices are equal when they hold the
/// same characters.
#[verifier::external_body]
pub(crate) fn str_eq(a: &str, b: &str) -> (r: bool)
    ensures
        r == (a@ == b@),
{
    a == b
}

/// The start and end of `trim(v[lo..hi])` inside `v`.
pub(crate) fn trim_range(v: &Vec<char>, lo: usize, hi: usize) -> (r: (usize, usize))
    requires
        lo <= hi <= v.len(),
    ensures
        lo <= r.0 <= r.1 <= hi,
        v@.subrange(r.0 as int, r.1 as int) == trim(v@.subrange(lo as int, hi as int)),
{
    let mut a = lo;
    while a < hi && is_ws_char(v[a])
        invariant
            lo <= a <= hi <= v.len(),
            trim_start(v@.subrange(lo as int, hi as int)) == trim_start(
                v@.subrange(a as int, hi as int),
            ),
        decreases hi - a,
    {
        assert(v@.subrange(a as int, hi as int).drop_first() =~= v@.subrange(
            a + 1,
            hi as int,
        ));
        a = a + 1;
    }
    assert(trim_start(v@.subrange(a as int, hi as int)) == v@.subrange(a as int, hi as int));
    let mut b = hi;
    while b > a && is_ws_char(v[b - 1])
        invariant
            lo <= a <= b <= hi <= v.len(),
            trim(v@.subrange(lo as int, hi as int)) == trim_end(v@.subrange(a as int, b as int)),
        decreases b - a,
    {
        assert(v@.subrange(a as int, b as int).drop_last() =~= v@.subrange(
            a as int,
            b - 1,
        ));
        b = b - 1;
    }
    (a, b)
}

/// Whether `p` occurs in `v` at index `i`, inside the range ending at `hi`.
pub(crate) fn occurs_at_exec(v: &Vec<char>, i: usize, hi: usize, p: &Vec<char>) -> (r: bool)
    requires
        i <= hi <= v.len(),
    ensures
        r == (i + p.len() <= hi && v@.subrange(i as int, i + p.len()) == p@),
{
    if p.len() > hi - i {
        return false;
    }
    let mut k: usize = 0;
    while k < p.len()
        invariant
            i + p.len() <= hi <= v.len(),
            0 <= k <= p.len(),
            forall|m: int| 0 <= m < k ==> v@[i + m] == p@[m],
        decreases p.len() - k,
    {
        if v[i + k] != p[k] {
            assert(v@.subrange(i as int, i + p.len())[k as int] != p@[k as int]);
            return false;
        }
        k = k + 1;
    }
    assert(v@.subrange(i as int, i + p.len()) =~= p@);
    true
}

/// The first occurrence of `p` in `v[lo..hi]`, as an index into `v`.
pub(crate) fn find_exec(v: &Vec<char>, lo: usize, hi: usize, p: &Vec<char>) -> (r: Option<usize>)
    requires
        lo <= hi <= v.len(),
    ensures
        match r {
            Some(j) => lo <= j && j + p.len() <= hi && find(
                v@.subrange(lo as int, hi as int),
                p@,
            ) == Some(j - lo),
            None => find(v@.subrange(lo as int, hi as int), p@) is None,
        },
{
    let ghost s = v@.subrange(lo as int, hi as int);
    let mut i = lo;
    while i <= hi
        invariant
            lo <= i <= hi + 1,
            hi <= v.len(),
            s == v@.subrange(lo as int, hi as int),
            i <= hi ==> find(s, p@) == find_from(s, p@, i - lo),
            i > hi ==> find(s, p@) is None,
        decreases hi + 1 - i,
    {
        if occurs_at_exec(v, i, hi, p) {
            assert(s.subrange(i - lo, i - lo + p.len()) =~= v@.subrange(i as int, i + p.len()));
            return Some(i);
        }
        assert(!occurs_at(s, i - lo, p@)) by {
            if i + p.len() <= hi {
                assert(s.subrange(i - lo, i - lo + p.len()) =~= v@.subrange(
                    i as int,
                    i + p.len(),
                ));
            }
        }
        if i == hi {
            assert(find_from(s, p@, i - lo + 1) is None);
            return None;
        }
        i = i + 1;
    }
    None
}

/// The pieces of `v` named by a list of ranges.
pub open spec fn pieces(v: Seq<char>, r: Seq<(usize, usize)>) -> Seq<Seq<char>> {
    r.map_values(|x: (usize, usize)| v.subrange(x.0 as int, x.1 as int))
}

/// Every range of `r` lies inside `lo..hi`.
pub open spec fn ranges_within(r: Seq<(usize, usize)>, lo: int, hi: int) -> bool {
    forall|k: int| 0 <= k < r.len() ==> lo <= #[trigger] r[k].0 <= r[k].1 <= hi
}

pub proof fn lemma_pieces_push(v: Seq<char>, r: Seq<(usize, usize)>, x: (usize, usize))
    ensures
        pieces(v, r.push(x)) == pieces(v, r).push(v.subrange(x.0 as int, x.1 as int)),
{
    assert(pieces(v, r.push(x)) =~= pieces(v, r).push(v.subrange(x.0 as int, x.1 as int)));
}

/// `split(v[lo..hi], p)`, as ranges of `v`.
pub(crate) fn split_exec(v: &Vec<char>, lo: usize, hi: usize, p: &Vec<char>) -> (r: Vec<(usize, usize)>)
    requires
        lo <= hi <= v.len(),
        p.len() > 0,
    ensures
        ranges_within(r@, lo as int, hi as int),
        pieces(v@, r@) == split(v@.subrange(lo as int, hi as int), p@),
{
    let mut out: Vec<(usize, usize)> = Vec::new();
    let mut cur = lo;
    loop
        invariant
            lo <= cur <= hi <= v.len(),
            p.len() > 0,
            ranges_within(out@, lo as int, hi as int),
            pieces(v@, out@) + split(v@.subrange(cur as int, hi as int), p@) == split(
                v@.subrange(lo as int, hi as int),
                p@,
            ),
        decreases hi - cur,
    {
        let ghost t = v@.subrange(cur as int, hi as int);
        let ghost before = out@;
        match find_exec(v, cur, hi, p) {
            None => {
                out.push((cur, hi));
                proof {
                    lemma_pieces_push(v@, before, (cur, hi));
                    assert(split(t, p@) == seq![t]);
                    assert(pieces(v@, out@) =~= pieces(v@, before) + split(t, p@));
                }
                return out;
            },
            Some(j) => {
                out.push((cur, j));
                proof {
                    lemma_pieces_push(v@, before, (cur, j));
                    assert(t.subrange(0, j - cur) =~= v@.subrange(cur as int, j as int));
                    assert(t.subrange(j - cur + p.len(), t.len() as int) =~= v@.subrange(
                        j + p.len(),
                        hi as int,
                    ));
                    assert(split(t, p@) == seq![v@.subrange(cur as int, j as int)] + split(
                        v@.subrange(j + p.len(), hi as int),
                        p@,
                    ));
                    assert(pieces(v@, out@) + split(v@.subrange(j + p.len(), hi as int), p@)
                        =~= pieces(v@, before) + split(t, p@));
                }
                cur = j + p.len();
            },
        }
    }
}

/// `words(v[lo..hi])`, as ranges of `v`.
pub(crate) fn words_exec(v: &Vec<char>, lo: usize, hi: usize) -> (r: Vec<(usize, usize)>)
    requires
        lo <= hi <= v.len(),
    ensures
        ranges_within(r@, lo as int, hi as int),
        pieces(v@, r@) == words(v@.subrange(lo as int, hi as int)),
{
    let mut out: Vec<(usize, usize)> = Vec::new();
    let mut cur = lo;
    loop
        invariant
            lo <= cur <= hi <= v.len(),
            ranges_within(out@, lo as int, hi as int),
            pieces(v@, out@) + words(v@.subrange(cur as int, hi as int)) == words(
                v@.subrange(lo as int, hi as int),
            ),
        decreases hi - cur,
    {
        let ghost before = out@;
        let mut a = cur;
        while a < hi && is_ws_char(v[a])
            invariant
                cur <= a <= hi <= v.len(),
                trim_start(v@.subrange(cur as int, hi as int)) == trim_start(
                    v@.subrange(a as int, hi as int),
                ),
            decreases hi - a,
        {
            assert(v@.subrange(a as int, hi as int).drop_first() =~= v@.subrange(
                a + 1,
                hi as int,
            ));
            a = a + 1;
        }
        let ghost t = v@.subrange(a as int, hi as int);
        assert(trim_start(t) == t);
        if a == hi {
            assert(words(v@.subrange(cur as int, hi as int)) =~= Seq::<Seq<char>>::empty());
            assert(pieces(v@, out@) =~= pieces(v@, out@) + words(
                v@.subrange(cur as int, hi as int),
            ));
            return out;
        }
        let mut b = a;
        while b < hi && !is_ws_char(v[b])
            invariant
                a <= b <= hi <= v.len(),
                t == v@.subrange(a as int, hi as int),
                ws_from(t, 0) == ws_from(t, b - a),
            decreases hi - b,
        {
            b = b + 1;
        }
        proof {
            lemma_ws_from(t, 0);
            assert(ws_from(t, 0) == b - a);
            assert(t.subrange(0, b - a) =~= v@.subrange(a as int, b as int));
            assert(t.subrange(b - a, t.len() as int) =~= v@.subrange(b as int, hi as int));
        }
        out.push((a, b));
        proof {
            lemma_pieces_push(v@, before, (a, b));
            assert(words(v@.subrange(cur as int, hi as int)) == seq![v@.subrange(a as int, b as int)]
                + words(v@.subrange(b as int, hi as int)));
            assert(pieces(v@, out@) + words(v@.subrange(b as int, hi as int)) =~= pieces(
                v@,
                before,
            ) + words(v@.subrange(cur as int, hi as int)));
        }
        cur = b;
    }
}

/// `lower(v[lo..hi])`.
pub(crate) fn lower_exec(v: &Vec<char>, lo: usize, hi: usize) -> (r: Vec<char>)
    requires
        lo <= hi <= v.len(),
    ensures
        r@ == lower(v@.subrange(lo as int, hi as int)),
{
    let mut out: Vec<char> = Vec::new();
    let mut i = lo;
    while i < hi
        invariant
            lo <= i <= hi <= v.len(),
            out@ == lower(v@.subrange(lo as int, i as int)),
        decreases hi - i,
    {
        out.push(lower_char_exec(v[i]));
        assert(lower(v@.subrange(lo as int, i + 1)) =~= lower(v@.subrange(lo as int, i as int)).push(
            lower_char(v@[i as int]),
        ));
        i = i + 1;
    }
    out
}

/// Whether `v[lo..hi]` starts with `p`.
pub(crate) fn starts_with_exec(v: &Vec<char>, lo: usize, hi: usize, p: &Vec<char>) -> (r: bool)
    requires
        lo <= hi <= v.len(),
    ensures
        r == has_prefix(v@.subrange(lo as int, hi as int), p@),
{
    let r = occurs_at_exec(v, lo, hi, p);
    if p.len() <= hi - lo {
        assert(v@.subrange(lo as int, hi as int).subrange(0, p.len() as int) =~= v@.subrange(
            lo as int,
            lo + p.len(),
        ));
    }
    r
}

/// Whether `v[lo..hi]` ends with `p`.
pub(crate) fn ends_with_exec(v: &Vec<char>, lo: usize, hi: usize, p: &Vec<char>) -> (r: bool)
    requires
        lo <= hi <= v.len(),
    ensures
        r == has_suffix(v@.subrange(lo as int, hi as int), p@),
{
    if p.len() > hi - lo {
        return false;
    }
    let r = occurs_at_exec(v, hi - p.len(), hi, p);
    assert(v@.subrange(lo as int, hi as int).subrange(
        (hi - lo) - p.len(),
        (hi - lo) as int,
    ) =~= v@.subrange(hi - p.len(), hi as int));
    r
}

/// The end of `trim_end(v[lo..hi])` inside `v`.
pub(crate) fn trim_end_range(v: &Vec<char>, lo: usize, hi: usize) -> (r: usize)
    requires
        lo <= hi <= v.len(),
    ensures
        lo <= r <= hi,
        v@.subrange(lo as int, r as int) == trim_end(v@.subrange(lo as int, hi as int)),
{
    let mut b = hi;
    while b > lo && is_ws_char(v[b - 1])
        invariant
            lo <= b <= hi <= v.len(),
            trim_end(v@.subrange(lo as int, hi as int)) == trim_end(v@.subrange(lo as int, b as int)),
        decreases b - lo,
    {
        assert(v@.subrange(lo as int, b as int).drop_last() =~= v@.subrange(lo as int, b - 1));
        b = b - 1;
    }
    b
}

} // verus!
