//! Why the search finds what selectors mean.
//!
//! The search skips candidates. What it reports says which: after
//! `NotMatchedAndRestartFromClosestDescendant` no sibling before the element can match
//! either, and after `NotMatchedGlobally` no element further up can.

use crate::bloom::BloomFilter;
use crate::parser::{Combinator, ComplexSelector, SimpleSelector};
use crate::semantics::{
    candidates, compound_matches, filter_covers, filter_excludes, filter_knows, filter_rejects,
    immediate, search_status, selector_status, selects, simple_matches, simple_selects, verdict,
};
use crate::tree::{
    ancestors, at_or_above, at_or_before, in_tree, lemma_above, lemma_tree, preceding, Element,
};
use vstd::prelude::*;

verus! {

/// Whether no element that a combinator leads to is selected.
pub open spec fn none_selected<E: Element>(
    selector: ComplexSelector<E::Impl>,
    combinator: Combinator,
    element: E,
) -> bool {
    forall|i: int|
        0 <= i < candidates(element, combinator).len() && (immediate(combinator) ==> i == 0)
            ==> !selects(selector, #[trigger] candidates(element, combinator)[i])
}

/// The elements at or above an element are in its tree, and what covers the element covers
/// them.
proof fn lemma_above_covered<E: Element>(x: E, element: E, filter: Option<&BloomFilter>)
    requires
        in_tree(element),
        filter_covers(filter, element),
        at_or_above(x, element),
    ensures
        in_tree(x),
        filter_covers(filter, x),
{
    let m = lemma_above(x, element);
    if filter is Some {
        assert forall|i: int| 0 <= i < ancestors(x).len() implies filter_knows(
            *filter->0,
            #[trigger] ancestors(x)[i],
        ) by {
            assert(ancestors(x)[i] == ancestors(element)[i + m]);
        }
    }
}

/// The candidates of an element are at or above it.
proof fn lemma_candidate_above<E: Element>(element: E, combinator: Combinator, i: int)
    requires
        0 <= i < candidates(element, combinator).len(),
    ensures
        at_or_above(candidates(element, combinator)[i], element),
{
    let x = candidates(element, combinator)[i];
    match combinator {
        Combinator::Child | Combinator::Descendant => {
            assert(at_or_before(x, ancestors(element)[i]));
        },
        Combinator::NextSibling | Combinator::LaterSibling => {
            assert(preceding(element)[i] == x);
            assert(at_or_before(x, element));
        },
    }
}

/// A filter that covers an element rejects no selector of it.
proof fn lemma_filter<E: Element>(
    selector: ComplexSelector<E::Impl>,
    element: E,
    filter: BloomFilter,
)
    requires
        in_tree(element),
        filter_covers(Some(&filter), element),
        filter_rejects(selector, filter),
    ensures
        !selects(selector, element),
    decreases selector,
{
    let next = *(selector.next->0).0;
    let combinator = (selector.next->0).1;
    if selects(selector, element) {
        let line = candidates(element, combinator);
        let i = choose|i: int|
            0 <= i < candidates(element, combinator).len() && (immediate(combinator) ==> i == 0)
                && selects(next, #[trigger] candidates(element, combinator)[i]);
        let x = line[i];
        lemma_candidate_above(element, combinator, i);
        lemma_above_covered(x, element, Some(&filter));
        if filter_rejects(next, filter) {
            lemma_filter(next, x, filter);
        } else {
            let j = choose|j: int|
                0 <= j < next.compound_selector@.len() && filter_excludes(
                    #[trigger] next.compound_selector@[j],
                    filter,
                );
            assert(simple_selects(next.compound_selector@[j], x));
            assert(filter_knows(filter, ancestors(element)[i]));
        }
        assert(false);
    }
}

/// A condition is found to be met where it holds.
pub proof fn lemma_simple<E: Element>(
    simple: SimpleSelector<E::Impl>,
    element: E,
    filter: Option<&BloomFilter>,
)
    requires
        in_tree(element),
        filter_covers(filter, element),
    ensures
        simple_matches(simple, element, filter) == simple_selects(simple, element),
    decreases simple, 0nat, 0nat,
{
    if let SimpleSelector::Negation(negated) = simple {
        assert forall|i: int| 0 <= i < negated@.len() implies crate::semantics::complex_matches(
            *#[trigger] negated@[i],
            element,
            filter,
        ) == selects(*negated@[i], element) by {
            lemma_complex(*negated@[i], element, filter);
        }
    }
}

/// What each outcome of a search says of the selector.
pub proof fn lemma_complex<E: Element>(
    selector: ComplexSelector<E::Impl>,
    element: E,
    filter: Option<&BloomFilter>,
)
    requires
        in_tree(element),
        filter_covers(filter, element),
    ensures
        (selector_status(selector, element, filter) is Matched) == selects(selector, element),
        selector_status(selector, element, filter) is NotMatchedAndRestartFromClosestDescendant
            ==> forall|x: E| #[trigger] at_or_before(x, element) ==> !selects(selector, x),
        selector_status(selector, element, filter) is NotMatchedGlobally ==> forall|x: E|
            #[trigger] at_or_above(x, element) ==> !selects(selector, x),
    decreases selector, 0nat, 0nat,
{
    let compound = selector.compound_selector@;
    assert forall|i: int| 0 <= i < compound.len() implies simple_matches(
        #[trigger] compound[i],
        element,
        filter,
    ) == simple_selects(compound[i], element) by {
        lemma_simple(compound[i], element, filter);
    }
    if compound_matches(compound, element, filter) {
        if filter is Some && filter_rejects(selector, *filter->0) {
            assert forall|x: E| #[trigger] at_or_above(x, element) implies !selects(
                selector,
                x,
            ) by {
                lemma_above_covered(x, element, filter);
                lemma_filter(selector, x, *filter->0);
            }
            assert(at_or_above(element, element));
        } else if selector.next is Some {
            let next = *(selector.next->0).0;
            let combinator = (selector.next->0).1;
            lemma_search(next, combinator, element, 0, filter);
        }
    }
}

/// What each outcome of a search among candidates says, once those before the `k`-th are
/// known not to be selected.
proof fn lemma_search<E: Element>(
    selector: ComplexSelector<E::Impl>,
    combinator: Combinator,
    element: E,
    k: nat,
    filter: Option<&BloomFilter>,
)
    requires
        in_tree(element),
        filter_covers(filter, element),
        immediate(combinator) ==> k == 0,
        k <= candidates(element, combinator).len(),
        forall|j: int|
            0 <= j < k ==> !selects(selector, #[trigger] candidates(element, combinator)[j]),
    ensures
        ({
            let status = search_status(
                selector,
                combinator,
                candidates(element, combinator),
                k,
                filter,
            );
            &&& (status is Matched) == !none_selected(selector, combinator, element)
            &&& status is NotMatchedAndRestartFromClosestDescendant ==> forall|x: E| #[trigger]
                at_or_before(x, element) ==> none_selected(selector, combinator, x)
            &&& status is NotMatchedGlobally ==> forall|x: E| #[trigger]
                at_or_above(x, element) ==> none_selected(selector, combinator, x)
        }),
    decreases selector, 1nat, candidates(element, combinator).len() - k,
{
    let line = candidates(element, combinator);
    assert(at_or_before(element, element));
    assert(at_or_above(element, element));
    if k < line.len() {
        let y = line[k as int];
        lemma_candidate_above(element, combinator, k as int);
        lemma_above_covered(y, element, filter);
        lemma_complex(selector, y, filter);
        let status = selector_status(selector, y, filter);
        match verdict(status, combinator) {
            Some(_) => {
                if status is NotMatchedGlobally {
                    assert forall|x: E| #[trigger] at_or_above(x, element) implies none_selected(
                        selector,
                        combinator,
                        x,
                    ) by {
                        lemma_out_of_reach(selector, combinator, element, k, x);
                    }
                } else if status !is Matched {
                    assert forall|x: E| #[trigger] at_or_before(x, element) && (combinator is Child
                        || status
                        is NotMatchedAndRestartFromClosestDescendant) implies none_selected(
                        selector,
                        combinator,
                        x,
                    ) by {
                        lemma_out_of_siblings(selector, combinator, element, k, x);
                    }
                    assert(at_or_before(y, y));
                }
            },
            None => {
                lemma_search(selector, combinator, element, k + 1, filter);
            },
        }
    } else {
        match combinator {
            Combinator::Child | Combinator::Descendant => {
                assert forall|x: E| #[trigger] at_or_above(x, element) implies none_selected(
                    selector,
                    combinator,
                    x,
                ) by {
                    let m = lemma_above(x, element);
                    assert forall|i: int|
                        0 <= i < candidates(x, combinator).len() implies !selects(
                        selector,
                        #[trigger] candidates(x, combinator)[i],
                    ) by {
                        assert(candidates(x, combinator)[i] == line[i + m]);
                    }
                }
            },
            Combinator::NextSibling | Combinator::LaterSibling => {
                assert forall|x: E| #[trigger] at_or_before(x, element) implies none_selected(
                    selector,
                    combinator,
                    x,
                ) by {
                    let m = lemma_before(x, element);
                    assert forall|i: int|
                        0 <= i < candidates(x, combinator).len() implies !selects(
                        selector,
                        #[trigger] candidates(x, combinator)[i],
                    ) by {
                        assert(candidates(x, combinator)[i] == line[i + m]);
                    }
                }
            },
        }
    }
}

/// Where an element at or before another stands.
proof fn lemma_before<E: Element>(x: E, element: E) -> (m: int)
    requires
        in_tree(element),
        at_or_before(x, element),
    ensures
        0 <= m <= preceding(element).len(),
        preceding(x) == preceding(element).skip(m),
        x == (if m == 0 {
            element
        } else {
            preceding(element)[m - 1]
        }),
{
    lemma_tree(element);
    if x == element {
        assert(preceding(element).skip(0) =~= preceding(element));
        0
    } else {
        let j = preceding(element).index_of(x);
        assert(preceding(element)[j] == x);
        j + 1
    }
}

/// Where the `k`-th candidate fails at once with all elements above it, no element at or
/// above the starting point has a candidate left.
proof fn lemma_out_of_reach<E: Element>(
    selector: ComplexSelector<E::Impl>,
    combinator: Combinator,
    element: E,
    k: nat,
    x: E,
)
    requires
        in_tree(element),
        immediate(combinator) ==> k == 0,
        k < candidates(element, combinator).len(),
        forall|j: int|
            0 <= j < k ==> !selects(selector, #[trigger] candidates(element, combinator)[j]),
        forall|z: E| #[trigger]
            at_or_above(z, candidates(element, combinator)[k as int]) ==> !selects(selector, z),
        at_or_above(x, element),
    ensures
        none_selected(selector, combinator, x),
{
    let line = candidates(element, combinator);
    let y = line[k as int];
    lemma_tree(element);
    assert forall|i: int|
        0 <= i < candidates(x, combinator).len() && (immediate(combinator) ==> i
            == 0) implies !selects(selector, #[trigger] candidates(x, combinator)[i]) by {
        let z = candidates(x, combinator)[i];
        match combinator {
            Combinator::Child | Combinator::Descendant => {
                let m = lemma_above(x, element);
                assert(z == line[i + m]);
                if i + m > k {
                    assert(ancestors(y)[i + m - k - 1] == z);
                    assert(at_or_before(z, ancestors(y)[i + m - k - 1]));
                    assert(at_or_above(z, y));
                } else if i + m == k {
                    assert(at_or_above(z, y));
                }
            },
            Combinator::NextSibling | Combinator::LaterSibling => {
                if at_or_before(x, element) {
                    let m = lemma_before(x, element);
                    assert(z == line[i + m]);
                    if i + m > k {
                        assert(preceding(y)[i + m - k - 1] == z);
                        assert(at_or_before(z, y));
                        assert(at_or_above(z, y));
                    } else if i + m == k {
                        assert(at_or_above(z, y));
                    }
                } else {
                    let n = choose|n: int|
                        0 <= n < ancestors(element).len() && at_or_before(
                            x,
                            #[trigger] ancestors(element)[n],
                        );
                    let top = ancestors(element)[n];
                    let m = lemma_before(x, top);
                    assert(z == preceding(top)[i + m]);
                    assert(at_or_before(z, top));
                    assert(ancestors(y)[n] == top);
                    assert(at_or_above(z, y));
                }
            },
        }
    }
}

/// Where the `k`-th candidate fails with all siblings before it, or is the parent and
/// fails, no sibling before the starting point has a candidate left.
proof fn lemma_out_of_siblings<E: Element>(
    selector: ComplexSelector<E::Impl>,
    combinator: Combinator,
    element: E,
    k: nat,
    x: E,
)
    requires
        in_tree(element),
        combinator !is Descendant,
        immediate(combinator) ==> k == 0,
        k < candidates(element, combinator).len(),
        forall|j: int|
            0 <= j < k ==> !selects(selector, #[trigger] candidates(element, combinator)[j]),
        !selects(selector, candidates(element, combinator)[k as int]),
        combinator !is Child ==> forall|z: E| #[trigger]
            at_or_before(z, candidates(element, combinator)[k as int]) ==> !selects(selector, z),
        at_or_before(x, element),
    ensures
        none_selected(selector, combinator, x),
{
    let line = candidates(element, combinator);
    let y = line[k as int];
    lemma_tree(element);
    assert(at_or_above(x, element));
    let n = lemma_above(x, element);
    let m = lemma_before(x, element);
    assert forall|i: int|
        0 <= i < candidates(x, combinator).len() && (immediate(combinator) ==> i
            == 0) implies !selects(selector, #[trigger] candidates(x, combinator)[i]) by {
        let z = candidates(x, combinator)[i];
        if combinator is Child {
            assert(z == line[0]);
        } else {
            assert(z == line[i + m]);
            if i + m > k {
                assert(preceding(y)[i + m - k - 1] == z);
                assert(at_or_before(z, y));
            }
        }
    }
}

} // verus!
