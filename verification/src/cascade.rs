//! The cascade: which declaration gives each property its value for an
//! element.
//!
//! A rule takes part when its `@media` condition (if any) holds in the
//! default context (screen, 1920px) and one of its selectors matches the
//! element; its weight is the highest specificity among its matching
//! selectors. For each property, the declaration that wins is the one
//! ranked highest by, in order: `!important` beats normal, then the higher
//! weight, then the later rule, then the later declaration within the rule.
use std::collections::BTreeMap;
use vstd::prelude::*;
use crate::media::{self, MediaContext, media_query_matches};
use crate::parser::{self, Rule};
use crate::selector::{self, ElementLike, matches_selector, selector_specificity};
use crate::text::str_eq;

verus! {

broadcast use vstd::seq::group_seq_axioms;

/// The computed style: property name to value. Kept ordered by property
/// name, so that `style_to_string` is deterministic.
pub type ComputedStyle = BTreeMap<String, String>;

/// An element with its ancestors (`ancestors[0]` the parent) and its
/// preceding siblings (`siblings[0]` the immediately preceding one).
pub struct Target {
    pub element: selector::ElementModel,
    pub ancestors: Seq<selector::ElementModel>,
    pub siblings: Seq<selector::ElementModel>,
}

/// Lexicographic order on specificities.
pub open spec fn weight_lt(a: (nat, nat, nat), b: (nat, nat, nat)) -> bool {
    ||| a.0 < b.0
    ||| (a.0 == b.0 && a.1 < b.1)
    ||| (a.0 == b.0 && a.1 == b.1 && a.2 < b.2)
}

/// The highest specificity among the selectors that match the target.
pub open spec fn best_weight(sels: Seq<Seq<selector::SegmentModel>>, t: Target) -> Option<
    (nat, nat, nat),
>
    decreases sels.len(),
{
    if sels.len() == 0 {
        None
    } else {
        let prev = best_weight(sels.drop_last(), t);
        if selector::selector_matches(sels.last(), t.element, t.ancestors, t.siblings) {
            let w = selector::selector_specificity_of(sels.last());
            match prev {
                None => Some(w),
                Some(p) => Some(
                    if weight_lt(p, w) {
                        w
                    } else {
                        p
                    },
                ),
            }
        } else {
            prev
        }
    }
}

proof fn lemma_best_weight(sels: Seq<Seq<selector::SegmentModel>>, t: Target)
    ensures
        forall|k: int|
            0 <= k < sels.len() && selector::selector_matches(
                #[trigger] sels[k],
                t.element,
                t.ancestors,
                t.siblings,
            ) ==> best_weight(sels, t) is Some && !weight_lt(
                best_weight(sels, t).unwrap(),
                selector::selector_specificity_of(sels[k]),
            ),
        best_weight(sels, t) matches Some(w) ==> exists|k: int|
            0 <= k < sels.len() && selector::selector_matches(
                #[trigger] sels[k],
                t.element,
                t.ancestors,
                t.siblings,
            ) && w == selector::selector_specificity_of(sels[k]),
    decreases sels.len(),
{
    if sels.len() > 0 {
        let pre = sels.drop_last();
        lemma_best_weight(pre, t);
        assert forall|k: int| 0 <= k < pre.len() implies #[trigger] sels[k] == pre[k] by {}
        let last = sels.len() - 1;
        if let Some(w) = best_weight(sels, t) {
            if best_weight(pre, t) == Some(w) {
                let k = choose|k: int|
                    0 <= k < pre.len() && selector::selector_matches(
                        #[trigger] pre[k],
                        t.element,
                        t.ancestors,
                        t.siblings,
                    ) && w == selector::selector_specificity_of(pre[k]);
                assert(sels[k] == pre[k]);
            } else {
                assert(selector::selector_matches(sels[last], t.element, t.ancestors, t.siblings));
            }
        }
    }
}

/// A rule that takes part weighs the highest specificity of its selectors
/// that match: no matching selector is more specific, and some matching
/// selector is exactly that specific. A rule with no matching selector, or
/// whose `@media` condition fails, takes no part.
pub proof fn law_rule_weight_is_best_match(r: parser::RuleModel, t: Target)
    ensures
        !media_allows(r) ==> rule_weight(r, t) is None,
        media_allows(r) ==> forall|k: int|
            0 <= k < r.selectors.len() && selector::selector_matches(
                #[trigger] r.selectors[k],
                t.element,
                t.ancestors,
                t.siblings,
            ) ==> rule_weight(r, t) is Some && !weight_lt(
                rule_weight(r, t).unwrap(),
                selector::selector_specificity_of(r.selectors[k]),
            ),
        rule_weight(r, t) matches Some(w) ==> exists|k: int|
            0 <= k < r.selectors.len() && selector::selector_matches(
                #[trigger] r.selectors[k],
                t.element,
                t.ancestors,
                t.siblings,
            ) && w == selector::selector_specificity_of(r.selectors[k]),
{
    lemma_best_weight(r.selectors, t);
}

/// The rule's `@media` condition, if any, holds in the default context.
pub open spec fn media_allows(r: parser::RuleModel) -> bool {
    match r.media {
        Some(q) => media::query_holds(q, media::default_context()),
        None => true,
    }
}

/// The weight with which the rule takes part in the cascade for the
/// target, or `None` when it takes no part.
pub open spec fn rule_weight(r: parser::RuleModel, t: Target) -> Option<(nat, nat, nat)> {
    if media_allows(r) {
        best_weight(r.selectors, t)
    } else {
        None
    }
}

/// Declaration `j` of rule `i` is a candidate for property `p`.
pub open spec fn is_candidate(rules: Seq<parser::RuleModel>, t: Target, p: Seq<char>, i: int, j: int) -> bool {
    &&& 0 <= i < rules.len()
    &&& rule_weight(rules[i], t) is Some
    &&& 0 <= j < rules[i].declarations.len()
    &&& rules[i].declarations[j].property == p
}

/// Some declaration is a candidate for `p`.
pub open spec fn has_candidate(rules: Seq<parser::RuleModel>, t: Target, p: Seq<char>) -> bool {
    exists|i: int, j: int| is_candidate(rules, t, p, i, j)
}

/// Declaration `(i, j)` ranks above declaration `(i2, j2)`: important
/// first, then the higher weight, then the later rule, then the later
/// declaration.
pub open spec fn outranks(rules: Seq<parser::RuleModel>, t: Target, i: int, j: int, i2: int, j2: int) -> bool {
    let d = rules[i].declarations[j];
    let d2 = rules[i2].declarations[j2];
    let w = rule_weight(rules[i], t).unwrap();
    let w2 = rule_weight(rules[i2], t).unwrap();
    ||| (d.important && !d2.important)
    ||| (d.important == d2.important && weight_lt(w2, w))
    ||| (d.important == d2.important && w == w2 && (i2 < i || (i2 == i && j2 < j)))
}

/// Declaration `(i, j)` is the candidate for `p` that ranks above all the
/// others.
pub open spec fn is_winner(rules: Seq<parser::RuleModel>, t: Target, p: Seq<char>, i: int, j: int) -> bool {
    &&& is_candidate(rules, t, p, i, j)
    &&& forall|i2: int, j2: int|
        #![trigger is_candidate(rules, t, p, i2, j2)]
        is_candidate(rules, t, p, i2, j2) && (i2 != i || j2 != j) ==> outranks(rules, t, i, j, i2, j2)
}

/// The computed style of the target: every property that some candidate
/// declares, with the value of its winning declaration.
pub open spec fn cascade(rules: Seq<parser::RuleModel>, t: Target) -> Map<Seq<char>, Seq<char>> {
    Map::new(
        |p: Seq<char>| has_candidate(rules, t, p),
        |p: Seq<char>|
            {
                let (i, j) = choose|i: int, j: int| is_winner(rules, t, p, i, j);
                rules[i].declarations[j].value
            },
    )
}

pub proof fn lemma_outranks_total(rules: Seq<parser::RuleModel>, t: Target, p: Seq<char>, i: int, j: int, i2: int, j2: int)
    requires
        is_candidate(rules, t, p, i, j),
        is_candidate(rules, t, p, i2, j2),
        i != i2 || j != j2,
    ensures
        outranks(rules, t, i, j, i2, j2) != outranks(rules, t, i2, j2, i, j),
{
}

/// At most one candidate wins.
pub proof fn lemma_winner_unique(rules: Seq<parser::RuleModel>, t: Target, p: Seq<char>, i: int, j: int, i2: int, j2: int)
    requires
        is_winner(rules, t, p, i, j),
        is_winner(rules, t, p, i2, j2),
    ensures
        i == i2 && j == j2,
{
    if i != i2 || j != j2 {
        assert(is_candidate(rules, t, p, i2, j2));
        assert(is_candidate(rules, t, p, i, j));
        lemma_outranks_total(rules, t, p, i, j, i2, j2);
    }
}

pub proof fn lemma_outranks_transitive(
    rules: Seq<parser::RuleModel>,
    t: Target,
    p: Seq<char>,
    a: (int, int),
    b: (int, int),
    c: (int, int),
)
    requires
        is_candidate(rules, t, p, a.0, a.1),
        is_candidate(rules, t, p, b.0, b.1),
        is_candidate(rules, t, p, c.0, c.1),
        outranks(rules, t, a.0, a.1, b.0, b.1),
        outranks(rules, t, b.0, b.1, c.0, c.1),
    ensures
        outranks(rules, t, a.0, a.1, c.0, c.1),
{
}

/// The best candidate for `p` among the declarations `(i2, j2)` with
/// `i2 < i`, or `i2 == i` and `j2 < m`, given `prev`, the best one among
/// those with `i2 < i`.
proof fn best_in_rule(
    rules: Seq<parser::RuleModel>,
    t: Target,
    p: Seq<char>,
    i: int,
    m: int,
    prev: Option<(int, int)>,
) -> (r: Option<(int, int)>)
    requires
        0 <= i < rules.len(),
        0 <= m,
        match prev {
            None => forall|i2: int, j2: int|
                #![trigger is_candidate(rules, t, p, i2, j2)]
                is_candidate(rules, t, p, i2, j2) ==> i2 >= i,
            Some((bi, bj)) => {
                &&& is_candidate(rules, t, p, bi, bj)
                &&& bi < i
                &&& forall|i2: int, j2: int|
                    #![trigger is_candidate(rules, t, p, i2, j2)]
                    is_candidate(rules, t, p, i2, j2) && i2 < i && (i2 != bi || j2 != bj)
                        ==> outranks(rules, t, bi, bj, i2, j2)
            },
        },
    ensures
        match r {
            None => forall|i2: int, j2: int|
                #![trigger is_candidate(rules, t, p, i2, j2)]
                is_candidate(rules, t, p, i2, j2) ==> (i2 > i || (i2 == i && j2 >= m)),
            Some((bi, bj)) => {
                &&& is_candidate(rules, t, p, bi, bj)
                &&& (bi < i || (bi == i && bj < m))
                &&& forall|i2: int, j2: int|
                    #![trigger is_candidate(rules, t, p, i2, j2)]
                    is_candidate(rules, t, p, i2, j2) && (i2 < i || (i2 == i && j2 < m)) && (i2
                        != bi || j2 != bj) ==> outranks(rules, t, bi, bj, i2, j2)
            },
        },
    decreases m,
{
    if m == 0 {
        prev
    } else {
        let b = best_in_rule(rules, t, p, i, m - 1, prev);
        if is_candidate(rules, t, p, i, m - 1) {
            match b {
                None => Some((i, m - 1)),
                Some((bi, bj)) => {
                    if outranks(rules, t, i, m - 1, bi, bj) {
                        assert forall|i2: int, j2: int|
                            #![trigger is_candidate(rules, t, p, i2, j2)]
                            is_candidate(rules, t, p, i2, j2) && (i2 < i || (i2 == i && j2 < m))
                                && (i2 != i || j2 != m - 1) implies outranks(
                            rules,
                            t,
                            i,
                            m - 1,
                            i2,
                            j2,
                        ) by {
                            if i2 != bi || j2 != bj {
                                lemma_outranks_transitive(rules, t, p, (i, m - 1), (bi, bj), (i2, j2));
                            }
                        }
                        Some((i, m - 1))
                    } else {
                        lemma_outranks_total(rules, t, p, i, m - 1, bi, bj);
                        b
                    }
                },
            }
        } else {
            b
        }
    }
}

/// The best candidate for `p` among the declarations of `rules[..n]`.
proof fn best_in_prefix(rules: Seq<parser::RuleModel>, t: Target, p: Seq<char>, n: int) -> (r: Option<
    (int, int),
>)
    requires
        0 <= n <= rules.len(),
    ensures
        match r {
            None => forall|i2: int, j2: int|
                #![trigger is_candidate(rules, t, p, i2, j2)]
                is_candidate(rules, t, p, i2, j2) ==> i2 >= n,
            Some((bi, bj)) => {
                &&& is_candidate(rules, t, p, bi, bj)
                &&& bi < n
                &&& forall|i2: int, j2: int|
                    #![trigger is_candidate(rules, t, p, i2, j2)]
                    is_candidate(rules, t, p, i2, j2) && i2 < n && (i2 != bi || j2 != bj)
                        ==> outranks(rules, t, bi, bj, i2, j2)
            },
        },
    decreases n,
{
    if n == 0 {
        None
    } else {
        let prev = best_in_prefix(rules, t, p, n - 1);
        let m = rules[n - 1].declarations.len() as int;
        let r = best_in_rule(rules, t, p, n - 1, m, prev);
        assert forall|i2: int, j2: int|
            #![trigger is_candidate(rules, t, p, i2, j2)]
            is_candidate(rules, t, p, i2, j2) && i2 == n - 1 implies j2 < m by {}
        r
    }
}

/// Every property that some declaration is a candidate for has a winning
/// declaration.
pub proof fn law_winner_exists(rules: Seq<parser::RuleModel>, t: Target, p: Seq<char>)
    requires
        has_candidate(rules, t, p),
    ensures
        exists|i: int, j: int| is_winner(rules, t, p, i, j),
{
    let r = best_in_prefix(rules, t, p, rules.len() as int);
    let (i, j) = choose|i: int, j: int| is_candidate(rules, t, p, i, j);
    assert(is_candidate(rules, t, p, i, j));
    let (bi, bj) = r.unwrap();
    assert(is_winner(rules, t, p, bi, bj));
}

/// The value the cascade gives `p` is the value of its winning declaration.
pub proof fn law_cascade_value_is_winner(rules: Seq<parser::RuleModel>, t: Target, p: Seq<char>, i: int, j: int)
    requires
        is_winner(rules, t, p, i, j),
    ensures
        cascade(rules, t).contains_key(p),
        cascade(rules, t)[p] == rules[i].declarations[j].value,
{
    let (ci, cj) = choose|i: int, j: int| is_winner(rules, t, p, i, j);
    lemma_winner_unique(rules, t, p, i, j, ci, cj);
}

/// An `!important` candidate for a property beats every candidate that is
/// not, whatever their weights and positions: the value comes from an
/// important declaration.
pub proof fn law_important_beats_normal(rules: Seq<parser::RuleModel>, t: Target, p: Seq<char>, i: int, j: int)
    requires
        is_candidate(rules, t, p, i, j),
        rules[i].declarations[j].important,
    ensures
        exists|wi: int, wj: int|
            is_winner(rules, t, p, wi, wj) && rules[wi].declarations[wj].important
                && cascade(rules, t)[p] == rules[wi].declarations[wj].value,
{
    law_winner_exists(rules, t, p);
    let (wi, wj) = choose|wi: int, wj: int| is_winner(rules, t, p, wi, wj);
    law_cascade_value_is_winner(rules, t, p, wi, wj);
    if wi != i || wj != j {
        assert(outranks(rules, t, wi, wj, i, j));
    }
}

/// Between two candidates of the same importance, the one whose rule
/// weighs less (has lower specificity) never wins, whatever the order of
/// the rules.
pub proof fn law_higher_weight_wins(
    rules: Seq<parser::RuleModel>,
    t: Target,
    p: Seq<char>,
    i: int,
    j: int,
    i2: int,
    j2: int,
)
    requires
        is_candidate(rules, t, p, i, j),
        is_candidate(rules, t, p, i2, j2),
        rules[i].declarations[j].important == rules[i2].declarations[j2].important,
        weight_lt(rule_weight(rules[i2], t).unwrap(), rule_weight(rules[i], t).unwrap()),
    ensures
        !is_winner(rules, t, p, i2, j2),
{
    if is_winner(rules, t, p, i2, j2) {
        assert(outranks(rules, t, i2, j2, i, j));
    }
}

/// Between two candidates of the same importance and weight, the earlier
/// rule never wins: later rules win ties.
pub proof fn law_later_rule_wins_ties(
    rules: Seq<parser::RuleModel>,
    t: Target,
    p: Seq<char>,
    i: int,
    j: int,
    i2: int,
    j2: int,
)
    requires
        is_candidate(rules, t, p, i, j),
        is_candidate(rules, t, p, i2, j2),
        rules[i].declarations[j].important == rules[i2].declarations[j2].important,
        rule_weight(rules[i2], t) == rule_weight(rules[i], t),
        i2 < i,
    ensures
        !is_winner(rules, t, p, i2, j2),
{
    if is_winner(rules, t, p, i2, j2) {
        assert(outranks(rules, t, i2, j2, i, j));
    }
}

/// A rule that takes no part in the cascade for the target (none of its
/// selectors matches, or its `@media` condition does not hold) can be
/// removed from the stylesheet without changing the computed style.
pub proof fn law_excluded_rule_is_irrelevant(rules: Seq<parser::RuleModel>, t: Target, i: int)
    requires
        0 <= i < rules.len(),
        rule_weight(rules[i], t) is None,
    ensures
        cascade(rules.remove(i), t) == cascade(rules, t),
{
    let r2 = rules.remove(i);
    assert forall|a: int| 0 <= a < r2.len() implies #[trigger] r2[a] == rules[if a < i {
        a
    } else {
        a + 1
    }] by {}
    assert forall|p: Seq<char>, a: int, b: int| #[trigger]
        is_candidate(r2, t, p, a, b) implies is_candidate(rules, t, p, if a < i {
        a
    } else {
        a + 1
    }, b) by {}
    assert forall|p: Seq<char>, x: int, b: int| #[trigger]
        is_candidate(rules, t, p, x, b) implies x != i && is_candidate(r2, t, p, if x < i {
        x
    } else {
        x - 1
    }, b) by {
        let a = if x < i {
            x
        } else {
            x - 1
        };
        assert(r2[a] == rules[x]);
    }
    assert forall|p: Seq<char>| #[trigger]
        has_candidate(r2, t, p) == has_candidate(rules, t, p) by {
        if has_candidate(r2, t, p) {
            let (a, b) = choose|a: int, b: int| is_candidate(r2, t, p, a, b);
            assert(is_candidate(rules, t, p, if a < i {
                a
            } else {
                a + 1
            }, b));
        }
        if has_candidate(rules, t, p) {
            let (x, b) = choose|x: int, b: int| is_candidate(rules, t, p, x, b);
            assert(is_candidate(r2, t, p, if x < i {
                x
            } else {
                x - 1
            }, b));
        }
    }
    assert forall|p: Seq<char>| #[trigger]
        cascade(r2, t).contains_key(p) implies cascade(r2, t)[p] == cascade(rules, t)[p] by {
        law_winner_exists(rules, t, p);
        let (wi, wj) = choose|wi: int, wj: int| is_winner(rules, t, p, wi, wj);
        law_cascade_value_is_winner(rules, t, p, wi, wj);
        let a = if wi < i {
            wi
        } else {
            wi - 1
        };
        assert(is_candidate(r2, t, p, a, wj));
        assert forall|a2: int, b2: int|
            #![trigger is_candidate(r2, t, p, a2, b2)]
            is_candidate(r2, t, p, a2, b2) && (a2 != a || b2 != wj) implies outranks(
            r2,
            t,
            a,
            wj,
            a2,
            b2,
        ) by {
            let x2 = if a2 < i {
                a2
            } else {
                a2 + 1
            };
            assert(is_candidate(rules, t, p, x2, b2));
            assert(outranks(rules, t, wi, wj, x2, b2));
        }
        assert(is_winner(r2, t, p, a, wj));
        law_cascade_value_is_winner(r2, t, p, a, wj);
    }
    assert(cascade(r2, t) =~= cascade(rules, t));
}

pub open spec fn nat3(w: (u32, u32, u32)) -> (nat, nat, nat) {
    (w.0 as nat, w.1 as nat, w.2 as nat)
}

fn weight_lt_exec(a: (u32, u32, u32), b: (u32, u32, u32)) -> (r: bool)
    ensures
        r == weight_lt(nat3(a), nat3(b)),
{
    a.0 < b.0 || (a.0 == b.0 && a.1 < b.1) || (a.0 == b.0 && a.1 == b.1 && a.2 < b.2)
}

/// Every selector of every rule that can take part fits its specificity in
/// `u32`s.
pub open spec fn weights_fit(rules: Seq<parser::RuleModel>, t: Target) -> bool {
    forall|i: int, k: int|
        0 <= i < rules.len() && media_allows(rules[i]) && 0 <= k < rules[i].selectors.len()
            && selector::selector_matches(
            #[trigger] rules[i].selectors[k],
            t.element,
            t.ancestors,
            t.siblings,
        ) ==> selector::fits_u32(selector::selector_specificity_of(rules[i].selectors[k]))
}

/// `rule_weight(rules[i], t)`.
fn rule_weight_exec<E: ElementLike + ?Sized>(
    stylesheet: &[Rule],
    i: usize,
    el: &E,
    ancestors: &[&E],
    preceding_siblings: &[&E],
    Ghost(t): Ghost<Target>,
) -> (r: Option<(u32, u32, u32)>)
    requires
        i < stylesheet.len(),
        t == (Target {
            element: selector::element_model(el),
            ancestors: selector::element_models(ancestors@),
            siblings: selector::element_models(preceding_siblings@),
        }),
        weights_fit(stylesheet.deep_view(), t),
    ensures
        match r {
            Some(w) => rule_weight(stylesheet.deep_view()[i as int], t) == Some(nat3(w)),
            None => rule_weight(stylesheet.deep_view()[i as int], t) is None,
        },
{
    let ghost rules = stylesheet.deep_view();
    let rule = &stylesheet[i];
    assert(rules[i as int] == rule@);
    if let Some(query) = &rule.media {
        let ctx = MediaContext::default();
        if !media_query_matches(query, &ctx) {
            return None;
        }
    }
    assert(media_allows(rules[i as int]));
    let ghost sels = rule.selectors.deep_view();
    let mut best: Option<(u32, u32, u32)> = None;
    let mut k: usize = 0;
    while k < rule.selectors.len()
        invariant
            0 <= k <= rule.selectors.len(),
            i < stylesheet.len(),
            rules == stylesheet.deep_view(),
            rules[i as int] == rule@,
            sels == rule.selectors.deep_view(),
            media_allows(rules[i as int]),
            weights_fit(rules, t),
            t == (Target {
                element: selector::element_model(el),
                ancestors: selector::element_models(ancestors@),
                siblings: selector::element_models(preceding_siblings@),
            }),
            match best {
                Some(w) => best_weight(sels.take(k as int), t) == Some(nat3(w)),
                None => best_weight(sels.take(k as int), t) is None,
            },
        decreases rule.selectors.len() - k,
    {
        let sel = &rule.selectors[k];
        assert(sels[k as int] == sel.deep_view());
        assert(sels.take(k + 1).drop_last() =~= sels.take(k as int));
        assert(sels.take(k + 1).last() == sels[k as int]);
        if matches_selector(sel, el, ancestors, preceding_siblings) {
            assert(selector::selector_matches(rules[i as int].selectors[k as int], t.element, t.ancestors, t.siblings));
            let w = selector_specificity(sel);
            best = match best {
                None => Some(w),
                Some(p) => if weight_lt_exec(p, w) {
                    Some(w)
                } else {
                    Some(p)
                },
            };
        }
        k = k + 1;
    }
    assert(sels.take(rule.selectors.len() as int) =~= sels);
    best
}

/// `ComputedStyle::insert` (`BTreeMap::insert`): afterwards the map sends
/// `property` to `value` and every other key to what it sent it to before
/// (keys are compared by their characters).
#[verifier::external_body]
fn style_insert(style: &mut ComputedStyle, property: String, value: String)
    ensures
        final(style).deep_view() == old(style).deep_view().insert(property@, value@),
{
    style.insert(property, value);
}

/// The computed style of `el`: for each property declared by a rule that
/// takes part in the cascade, the value of the winning declaration.
///
/// `ancestors` runs from the parent (`ancestors[0]`) towards the root and
/// serves descendant and child combinators; `preceding_siblings` runs from
/// the immediately preceding sibling backwards and serves sibling
/// combinators. Pass `&[]` for either when no selector needs it. Rules
/// inside `@media` are evaluated against `MediaContext::default()` (screen,
/// 1920px).
pub fn compute_style<E: ElementLike + ?Sized>(
    stylesheet: &[Rule],
    el: &E,
    ancestors: &[&E],
    preceding_siblings: &[&E],
) -> (style: ComputedStyle)
    requires
        weights_fit(
            stylesheet.deep_view(),
            Target {
                element: selector::element_model(el),
                ancestors: selector::element_models(ancestors@),
                siblings: selector::element_models(preceding_siblings@),
            },
        ),
    ensures
        style.deep_view() == cascade(
            stylesheet.deep_view(),
            Target {
                element: selector::element_model(el),
                ancestors: selector::element_models(ancestors@),
                siblings: selector::element_models(preceding_siblings@),
            },
        ),
{
    let ghost t = Target {
        element: selector::element_model(el),
        ancestors: selector::element_models(ancestors@),
        siblings: selector::element_models(preceding_siblings@),
    };
    let ghost rules = stylesheet.deep_view();
    // The weight of each rule.
    let mut weights: Vec<Option<(u32, u32, u32)>> = Vec::new();
    let mut i: usize = 0;
    while i < stylesheet.len()
        invariant
            0 <= i <= stylesheet.len(),
            weights.len() == i,
            rules == stylesheet.deep_view(),
            weights_fit(rules, t),
            t == (Target {
                element: selector::element_model(el),
                ancestors: selector::element_models(ancestors@),
                siblings: selector::element_models(preceding_siblings@),
            }),
            forall|m: int|
                0 <= m < i ==> match #[trigger] weights@[m] {
                    Some(w) => rule_weight(rules[m], t) == Some(nat3(w)),
                    None => rule_weight(rules[m], t) is None,
                },
        decreases stylesheet.len() - i,
    {
        let w = rule_weight_exec(stylesheet, i, el, ancestors, preceding_siblings, Ghost(t));
        weights.push(w);
        i = i + 1;
    }
    let properties = candidate_properties(stylesheet, &weights, Ghost(t));
    let mut style = ComputedStyle::new();
    proof {
        broadcast use vstd::std_specs::btree::group_btree_axioms;
        vstd::std_specs::btree::lemma_btree_map_deepview_dom(style);
        assert(style.deep_view().dom() =~= Set::<Seq<char>>::empty());
        assert(style.deep_view() =~= Map::<Seq<char>, Seq<char>>::empty());
    }
    let mut k: usize = 0;
    while k < properties.len()
        invariant
            0 <= k <= properties.len(),
            rules == stylesheet.deep_view(),
            weights.len() == stylesheet.len(),
            forall|m: int|
                0 <= m < weights.len() ==> match #[trigger] weights@[m] {
                    Some(w) => rule_weight(rules[m], t) == Some(nat3(w)),
                    None => rule_weight(rules[m], t) is None,
                },
            forall|a: int, b: int|
                0 <= a < b < properties.len() ==> (#[trigger] properties@[a])@
                    != (#[trigger] properties@[b])@,
            forall|a: int|
                0 <= a < properties.len() ==> has_candidate(rules, t, (#[trigger] properties@[a])@),
            forall|p: Seq<char>, i: int, j: int|
                #![trigger is_candidate(rules, t, p, i, j)]
                is_candidate(rules, t, p, i, j) ==> exists|a: int|
                    0 <= a < properties.len() && (#[trigger] properties@[a])@ == p,
            style.deep_view().dom() == Set::new(
                |p: Seq<char>| exists|a: int| 0 <= a < k && (#[trigger] properties@[a])@ == p,
            ),
            forall|p: Seq<char>|
                #[trigger] style.deep_view().contains_key(p) ==> cascade(rules, t).contains_key(p)
                    && style.deep_view()[p] == cascade(rules, t)[p],
        decreases properties.len() - k,
    {
        let (wi, wj) = winner_of(stylesheet, &weights, &properties[k], Ghost(t));
        let value = stylesheet[wi].declarations[wj].value.clone();
        let property = properties[k].clone();
        proof {
            let p = properties@[k as int]@;
            assert(rules[wi as int].declarations[wj as int] == stylesheet@[wi as int].declarations@[wj as int]@);
            assert(cascade(rules, t).contains_key(p));
            let (ci, cj) = choose|i: int, j: int| is_winner(rules, t, p, i, j);
            lemma_winner_unique(rules, t, p, wi as int, wj as int, ci, cj);
            assert(cascade(rules, t)[p] == value@);
        }
        let ghost old_style = style.deep_view();
        style_insert(&mut style, property, value);
        proof {
            assert(style.deep_view().dom() =~= Set::new(
                |p: Seq<char>| exists|a: int| 0 <= a < k + 1 && (#[trigger] properties@[a])@ == p,
            )) by {
                assert forall|p: Seq<char>|
                    style.deep_view().dom().contains(p) implies exists|a: int|
                        0 <= a < k + 1 && (#[trigger] properties@[a])@ == p by {
                    if p != properties@[k as int]@ {
                        assert(old_style.contains_key(p));
                    }
                }
            }
        }
        k = k + 1;
    }
    proof {
        assert forall|p: Seq<char>| cascade(rules, t).contains_key(p) implies #[trigger] style.deep_view().contains_key(p) by {
            let (i, j) = choose|i: int, j: int| is_candidate(rules, t, p, i, j);
            assert(is_candidate(rules, t, p, i, j));
        }
        assert(style.deep_view() =~= cascade(rules, t));
    }
    style
}

/// The distinct property names of all the candidates.
fn candidate_properties(
    stylesheet: &[Rule],
    weights: &Vec<Option<(u32, u32, u32)>>,
    Ghost(t): Ghost<Target>,
) -> (r: Vec<String>)
    requires
        weights.len() == stylesheet.len(),
        forall|m: int|
            0 <= m < weights.len() ==> match #[trigger] weights@[m] {
                Some(w) => rule_weight(stylesheet.deep_view()[m], t) == Some(nat3(w)),
                None => rule_weight(stylesheet.deep_view()[m], t) is None,
            },
    ensures
        forall|a: int, b: int| 0 <= a < b < r.len() ==> (#[trigger] r@[a])@ != (#[trigger] r@[b])@,
        forall|a: int|
            0 <= a < r.len() ==> has_candidate(stylesheet.deep_view(), t, (#[trigger] r@[a])@),
        forall|p: Seq<char>, i: int, j: int|
            #![trigger is_candidate(stylesheet.deep_view(), t, p, i, j)]
            is_candidate(stylesheet.deep_view(), t, p, i, j) ==> exists|a: int|
                0 <= a < r.len() && (#[trigger] r@[a])@ == p,
{
    let ghost rules = stylesheet.deep_view();
    let mut out: Vec<String> = Vec::new();
    let mut i: usize = 0;
    while i < stylesheet.len()
        invariant
            0 <= i <= stylesheet.len(),
            rules == stylesheet.deep_view(),
            weights.len() == stylesheet.len(),
            forall|m: int|
                0 <= m < weights.len() ==> match #[trigger] weights@[m] {
                    Some(w) => rule_weight(rules[m], t) == Some(nat3(w)),
                    None => rule_weight(rules[m], t) is None,
                },
            forall|a: int, b: int|
                0 <= a < b < out.len() ==> (#[trigger] out@[a])@ != (#[trigger] out@[b])@,
            forall|a: int|
                0 <= a < out.len() ==> has_candidate(rules, t, (#[trigger] out@[a])@),
            forall|p: Seq<char>, i2: int, j: int|
                #![trigger is_candidate(rules, t, p, i2, j)]
                is_candidate(rules, t, p, i2, j) && i2 < i ==> exists|a: int|
                    0 <= a < out.len() && (#[trigger] out@[a])@ == p,
        decreases stylesheet.len() - i,
    {
        if weights[i].is_some() {
            let decls = &stylesheet[i].declarations;
            assert(rules[i as int].declarations == decls.deep_view());
            let mut j: usize = 0;
            while j < decls.len()
                invariant
                    0 <= i < stylesheet.len(),
                    0 <= j <= decls.len(),
                    rules == stylesheet.deep_view(),
                    rules[i as int].declarations == decls.deep_view(),
                    rule_weight(rules[i as int], t) is Some,
                    forall|a: int, b: int|
                        0 <= a < b < out.len() ==> (#[trigger] out@[a])@ != (#[trigger] out@[b])@,
                    forall|a: int|
                        0 <= a < out.len() ==> has_candidate(rules, t, (#[trigger] out@[a])@),
                    forall|p: Seq<char>, i2: int, j2: int|
                        #![trigger is_candidate(rules, t, p, i2, j2)]
                        is_candidate(rules, t, p, i2, j2) && (i2 < i || (i2 == i && j2 < j))
                            ==> exists|a: int| 0 <= a < out.len() && (#[trigger] out@[a])@ == p,
                decreases decls.len() - j,
            {
                let property = &decls[j].property;
                assert(rules[i as int].declarations[j as int].property == property@);
                assert(is_candidate(rules, t, property@, i as int, j as int));
                let mut found = false;
                let mut a: usize = 0;
                while a < out.len()
                    invariant
                        0 <= a <= out.len(),
                        found ==> exists|b: int| 0 <= b < out.len() && (#[trigger] out@[b])@ == property@,
                        !found ==> forall|b: int| 0 <= b < a ==> (#[trigger] out@[b])@ != property@,
                    decreases out.len() - a,
                {
                    if str_eq(out[a].as_str(), property.as_str()) {
                        found = true;
                    }
                    a = a + 1;
                }
                if !found {
                    let ghost before = out@;
                    out.push(property.clone());
                    assert(out@[before.len() as int]@ == property@);
                    assert forall|b: int| 0 <= b < out.len() implies has_candidate(rules, t, (#[trigger] out@[b])@) by {
                        if b < before.len() {
                            assert(out@[b] == before[b]);
                        } else {
                            assert(is_candidate(rules, t, out@[b]@, i as int, j as int));
                        }
                    }
                    assert forall|p: Seq<char>, i2: int, j2: int|
                        #![trigger is_candidate(rules, t, p, i2, j2)]
                        is_candidate(rules, t, p, i2, j2) && (i2 < i || (i2 == i && j2 < j + 1))
                            implies exists|b: int| 0 <= b < out.len() && (#[trigger] out@[b])@ == p by {
                        if i2 == i && j2 == j {
                            assert(out@[before.len() as int]@ == p);
                        } else {
                            let b = choose|b: int| 0 <= b < before.len() && (#[trigger] before[b])@ == p;
                            assert(out@[b] == before[b]);
                        }
                    }
                }
                j = j + 1;
            }
        } else {
            assert forall|p: Seq<char>, j: int| !is_candidate(rules, t, p, i as int, j) by {}
        }
        i = i + 1;
    }
    out
}

/// The winning declaration for `property`, which some candidate declares.
fn winner_of(
    stylesheet: &[Rule],
    weights: &Vec<Option<(u32, u32, u32)>>,
    property: &String,
    Ghost(t): Ghost<Target>,
) -> (r: (usize, usize))
    requires
        weights.len() == stylesheet.len(),
        forall|m: int|
            0 <= m < weights.len() ==> match #[trigger] weights@[m] {
                Some(w) => rule_weight(stylesheet.deep_view()[m], t) == Some(nat3(w)),
                None => rule_weight(stylesheet.deep_view()[m], t) is None,
            },
        has_candidate(stylesheet.deep_view(), t, property@),
    ensures
        is_winner(stylesheet.deep_view(), t, property@, r.0 as int, r.1 as int),
{
    let ghost rules = stylesheet.deep_view();
    let ghost p = property@;
    let mut best: Option<(usize, usize, bool, (u32, u32, u32))> = None;
    let mut i: usize = 0;
    while i < stylesheet.len()
        invariant
            0 <= i <= stylesheet.len(),
            rules == stylesheet.deep_view(),
            p == property@,
            weights.len() == stylesheet.len(),
            forall|m: int|
                0 <= m < weights.len() ==> match #[trigger] weights@[m] {
                    Some(w) => rule_weight(rules[m], t) == Some(nat3(w)),
                    None => rule_weight(rules[m], t) is None,
                },
            has_candidate(rules, t, p),
            match best {
                None => forall|i2: int, j2: int|
                    #![trigger is_candidate(rules, t, p, i2, j2)]
                    is_candidate(rules, t, p, i2, j2) ==> i2 >= i,
                Some((bi, bj, imp, w)) => {
                    &&& is_candidate(rules, t, p, bi as int, bj as int)
                    &&& bi < i
                    &&& imp == rules[bi as int].declarations[bj as int].important
                    &&& rule_weight(rules[bi as int], t) == Some(nat3(w))
                    &&& forall|i2: int, j2: int|
                        #![trigger is_candidate(rules, t, p, i2, j2)]
                        is_candidate(rules, t, p, i2, j2) && i2 < i && (i2 != bi || j2 != bj)
                            ==> outranks(rules, t, bi as int, bj as int, i2, j2)
                },
            },
        decreases stylesheet.len() - i,
    {
        if let Some(w) = weights[i] {
            let decls = &stylesheet[i].declarations;
            assert(rules[i as int].declarations == decls.deep_view());
            let mut j: usize = 0;
            while j < decls.len()
                invariant
                    0 <= i < stylesheet.len(),
                    0 <= j <= decls.len(),
                    rules == stylesheet.deep_view(),
                    p == property@,
                    rules[i as int].declarations == decls.deep_view(),
                    rule_weight(rules[i as int], t) == Some(nat3(w)),
                    match best {
                        None => forall|i2: int, j2: int|
                            #![trigger is_candidate(rules, t, p, i2, j2)]
                            is_candidate(rules, t, p, i2, j2) ==> (i2 > i || (i2 == i && j2 >= j)),
                        Some((bi, bj, imp, bw)) => {
                            &&& is_candidate(rules, t, p, bi as int, bj as int)
                            &&& (bi < i || (bi == i && bj < j))
                            &&& imp == rules[bi as int].declarations[bj as int].important
                            &&& rule_weight(rules[bi as int], t) == Some(nat3(bw))
                            &&& forall|i2: int, j2: int|
                                #![trigger is_candidate(rules, t, p, i2, j2)]
                                is_candidate(rules, t, p, i2, j2) && (i2 < i || (i2 == i && j2 < j))
                                    && (i2 != bi || j2 != bj) ==> outranks(
                                    rules,
                                    t,
                                    bi as int,
                                    bj as int,
                                    i2,
                                    j2,
                                )
                        },
                    },
                decreases decls.len() - j,
            {
                let d = &decls[j];
                assert(rules[i as int].declarations[j as int] == d@);
                if str_eq(d.property.as_str(), property.as_str()) {
                    assert(is_candidate(rules, t, p, i as int, j as int));
                    let replace = match best {
                        None => true,
                        Some((_, _, imp, bw)) => (d.important && !imp) || (d.important == imp
                            && !weight_lt_exec(w, bw)),
                    };
                    if replace {
                        best = Some((i, j, d.important, w));
                    }
                } else {
                    assert(!is_candidate(rules, t, p, i as int, j as int));
                }
                j = j + 1;
            }
        } else {
            assert forall|j: int| !is_candidate(rules, t, p, i as int, j) by {}
        }
        i = i + 1;
    }
    match best {
        Some((bi, bj, _, _)) => (bi, bj),
        None => {
            assert(false);
            (0, 0)
        },
    }
}

/// Lexicographic order on character sequences, comparing characters by
/// code point (the order of `String`'s `Ord`).
pub open spec fn chars_lt(a: Seq<char>, b: Seq<char>) -> bool
    decreases a.len(),
{
    if a.len() == 0 {
        b.len() > 0
    } else if b.len() == 0 {
        false
    } else if a[0] != b[0] {
        a[0] < b[0]
    } else {
        chars_lt(a.drop_first(), b.drop_first())
    }
}

/// `entries` lists the entries of `m` in increasing key order.
pub open spec fn is_listing(entries: Seq<(Seq<char>, Seq<char>)>, m: Map<Seq<char>, Seq<char>>) -> bool {
    &&& forall|i: int|
        0 <= i < entries.len() ==> m.contains_key(#[trigger] entries[i].0) && m[entries[i].0]
            == entries[i].1
    &&& forall|k: Seq<char>|
        #[trigger] m.contains_key(k) ==> exists|i: int| 0 <= i < entries.len() && #[trigger] entries[i].0 == k
    &&& forall|i: int, j: int| 0 <= i < j < entries.len() ==> chars_lt(#[trigger] entries[i].0, #[trigger] entries[j].0)
}

/// The items joined with `sep` between each two.
pub open spec fn join(items: Seq<Seq<char>>, sep: Seq<char>) -> Seq<char>
    decreases items.len(),
{
    if items.len() == 0 {
        Seq::empty()
    } else if items.len() == 1 {
        items[0]
    } else {
        join(items.drop_last(), sep) + sep + items.last()
    }
}

/// `property: value;` for one entry.
pub open spec fn entry_text(e: (Seq<char>, Seq<char>)) -> Seq<char> {
    e.0 + ": "@ + e.1 + ";"@
}

/// The entries written one after the other, separated by spaces.
pub open spec fn render(entries: Seq<(Seq<char>, Seq<char>)>) -> Seq<char> {
    join(entries.map_values(|e: (Seq<char>, Seq<char>)| entry_text(e)), " "@)
}

pub proof fn lemma_chars_lt_irreflexive(a: Seq<char>)
    ensures
        !chars_lt(a, a),
    decreases a.len(),
{
    if a.len() > 0 {
        lemma_chars_lt_irreflexive(a.drop_first());
    }
}

pub proof fn lemma_chars_lt_transitive(a: Seq<char>, b: Seq<char>, c: Seq<char>)
    requires
        chars_lt(a, b),
        chars_lt(b, c),
    ensures
        chars_lt(a, c),
    decreases a.len(),
{
    if a.len() > 0 && b.len() > 0 && c.len() > 0 && a[0] == b[0] && b[0] == c[0] {
        lemma_chars_lt_transitive(a.drop_first(), b.drop_first(), c.drop_first());
    }
}

pub proof fn lemma_chars_lt_total(a: Seq<char>, b: Seq<char>)
    requires
        a != b,
    ensures
        chars_lt(a, b) || chars_lt(b, a),
    decreases a.len(),
{
    if a.len() > 0 && b.len() > 0 && a[0] == b[0] {
        assert(a.drop_first() != b.drop_first()) by {
            if a.drop_first() == b.drop_first() {
                assert(a =~= seq![a[0]] + a.drop_first());
                assert(b =~= seq![b[0]] + b.drop_first());
            }
        }
        lemma_chars_lt_total(a.drop_first(), b.drop_first());
    } else if a.len() == 0 && b.len() == 0 {
        assert(a =~= b);
    }
}

/// A map has at most one listing: `style_to_string` writes a computed style
/// in exactly one way.
pub proof fn law_listing_unique(
    e1: Seq<(Seq<char>, Seq<char>)>,
    e2: Seq<(Seq<char>, Seq<char>)>,
    m: Map<Seq<char>, Seq<char>>,
)
    requires
        is_listing(e1, m),
        is_listing(e2, m),
    ensures
        e1 == e2,
    decreases e1.len(),
{
    if e1.len() == 0 {
        if e2.len() > 0 {
            assert(m.contains_key(e2[0].0));
        }
        assert(e1 =~= e2);
    } else if e2.len() == 0 {
        assert(m.contains_key(e1[0].0));
    } else {
        let k1 = e1[0].0;
        let k2 = e2[0].0;
        assert(m.contains_key(k1));
        assert(m.contains_key(k2));
        if k1 != k2 {
            let a = choose|a: int| 0 <= a < e1.len() && #[trigger] e1[a].0 == k2;
            let b = choose|b: int| 0 <= b < e2.len() && #[trigger] e2[b].0 == k1;
            assert(a != 0);
            assert(b != 0);
            assert(chars_lt(e1[0].0, e1[a].0));
            assert(chars_lt(e2[0].0, e2[b].0));
            lemma_chars_lt_transitive(k1, k2, k1);
            lemma_chars_lt_irreflexive(k1);
        }
        let m2 = m.remove(k1);
        let f1 = e1.drop_first();
        let f2 = e2.drop_first();
        assert forall|i: int| 0 <= i < f1.len() implies m2.contains_key(#[trigger] f1[i].0) && m2[f1[i].0]
            == f1[i].1 by {
            assert(f1[i] == e1[i + 1]);
            assert(chars_lt(e1[0].0, e1[i + 1].0));
            lemma_chars_lt_irreflexive(k1);
        }
        assert forall|i: int| 0 <= i < f2.len() implies m2.contains_key(#[trigger] f2[i].0) && m2[f2[i].0]
            == f2[i].1 by {
            assert(f2[i] == e2[i + 1]);
            assert(chars_lt(e2[0].0, e2[i + 1].0));
            lemma_chars_lt_irreflexive(k1);
        }
        assert forall|k: Seq<char>| #[trigger] m2.contains_key(k) implies exists|i: int|
            0 <= i < f1.len() && #[trigger] f1[i].0 == k by {
            let a = choose|a: int| 0 <= a < e1.len() && #[trigger] e1[a].0 == k;
            assert(f1[a - 1] == e1[a]);
        }
        assert forall|k: Seq<char>| #[trigger] m2.contains_key(k) implies exists|i: int|
            0 <= i < f2.len() && #[trigger] f2[i].0 == k by {
            let b = choose|b: int| 0 <= b < e2.len() && #[trigger] e2[b].0 == k;
            assert(f2[b - 1] == e2[b]);
        }
        assert forall|i: int, j: int| 0 <= i < j < f1.len() implies chars_lt(#[trigger] f1[i].0, #[trigger] f1[j].0) by {
            assert(f1[i] == e1[i + 1] && f1[j] == e1[j + 1]);
        }
        assert forall|i: int, j: int| 0 <= i < j < f2.len() implies chars_lt(#[trigger] f2[i].0, #[trigger] f2[j].0) by {
            assert(f2[i] == e2[i + 1] && f2[j] == e2[j + 1]);
        }
        law_listing_unique(f1, f2, m2);
        assert(e1[0] == e2[0]);
        assert(e1 =~= seq![e1[0]] + f1);
        assert(e2 =~= seq![e2[0]] + f2);
    }
}

/// `BTreeMap::iter`, collected: the entries of the style in increasing key
/// order (`String` keys order by their characters' code points).
#[verifier::external_body]
fn style_entries(style: &ComputedStyle) -> (r: Vec<(&String, &String)>)
    ensures
        is_listing(r@.map_values(|e: (&String, &String)| (e.0@, e.1@)), style.deep_view()),
{
    style.iter().collect()
}

/// The style as the text of an HTML `style` attribute:
/// `"prop: value; prop2: value2;"`, properties in increasing order.
pub fn style_to_string(style: &ComputedStyle) -> (r: String)
    ensures
        exists|entries: Seq<(Seq<char>, Seq<char>)>|
            is_listing(entries, style.deep_view()) && r@ == render(entries),
{
    let entries = style_entries(style);
    let ghost listing = entries@.map_values(|e: (&String, &String)| (e.0@, e.1@));
    let ghost items = listing.map_values(|e: (Seq<char>, Seq<char>)| entry_text(e));
    let mut out = String::new();
    let mut i: usize = 0;
    while i < entries.len()
        invariant
            0 <= i <= entries.len(),
            listing == entries@.map_values(|e: (&String, &String)| (e.0@, e.1@)),
            items == listing.map_values(|e: (Seq<char>, Seq<char>)| entry_text(e)),
            out@ == join(items.take(i as int), " "@),
        decreases entries.len() - i,
    {
        let ghost before = out@;
        if i > 0 {
            out.append(" ");
        }
        let (k, v) = entries[i];
        out.append(k.as_str());
        out.append(": ");
        out.append(v.as_str());
        out.append(";");
        proof {
            assert(items.take(i + 1).drop_last() =~= items.take(i as int));
            assert(items[i as int] == entry_text((k@, v@)));
            if i > 0 {
                assert(out@ =~= before + " "@ + items[i as int]);
            } else {
                assert(items.take(i + 1) =~= seq![items[0]]);
                assert(out@ =~= items[0]);
            }
        }
        i = i + 1;
    }
    assert(items.take(entries.len() as int) =~= items);
    assert(is_listing(listing, style.deep_view()) && out@ == render(listing));
    out
}

} // verus!
