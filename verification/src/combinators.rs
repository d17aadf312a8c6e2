//! How matching goes from the conditions on an element to the elements that the combinators
//! lead to, one step of a combinator at a time.

use crate::bloom::{BloomFilter, BloomHash};
use crate::laws::{law_matching_finds_what_is_selected, lemma_search_flags};
use crate::parser::{Combinator, ComplexSelector, Selector, SelectorImpl, SimpleSelector};
use crate::relations::{AFFECTED_BY_EMPTY, AFFECTED_BY_SIBLINGS};
use crate::semantics::{
    candidates, complex_matches, complex_relations, compound_matches, compound_relations,
    fast_rejection, filter_covers, filter_excludes, filter_knows, filter_rejects, immediate,
    list_matches,
    search_relations, search_status, selector_relations, selector_status, selects, simple_matches,
    simple_relations, verdict, SelectorMatchingResult,
};
use crate::tree::{
    ancestors, in_finite_document, in_tree, lemma_finite_document, lemma_line, lemma_line_step,
    lemma_line_tail, lemma_tree, preceding, walk, Element, Step,
};
use vstd::prelude::*;

verus! {

/// A selector without conditions and combinators matches every element, and sets no flag.
pub proof fn law_empty_selector<E: Element>(
    selector: ComplexSelector<E::Impl>,
    element: E,
    filter: Option<&BloomFilter>,
    flags: u32,
)
    requires
        selector.compound_selector@.len() == 0,
        selector.next is None,
    ensures
        selector_status(selector, element, filter) is Matched,
        complex_matches(selector, element, filter),
        selector_relations(selector, element, filter, flags) == flags,
        complex_relations(selector, element, filter, flags) == flags,
{
}

/// The conditions on an element are tested in turn, and each sets its flags, up to the first
/// that is not met. Where that is the first of all, matching goes on with the next candidate
/// of the closest combinator that has one; where it is met, the others decide.
pub proof fn law_conditions_in_turn<E: Element>(
    first: SimpleSelector<E::Impl>,
    rest: ComplexSelector<E::Impl>,
    selector: ComplexSelector<E::Impl>,
    element: E,
    filter: Option<&BloomFilter>,
    flags: u32,
)
    requires
        selector.compound_selector@ == seq![first] + rest.compound_selector@,
        selector.next == rest.next,
    ensures
        selector_status(selector, element, filter) == (if simple_matches(first, element, filter) {
            selector_status(rest, element, filter)
        } else {
            SelectorMatchingResult::NotMatchedAndRestartFromClosestLaterSibling
        }),
        complex_matches(selector, element, filter) == (simple_matches(first, element, filter)
            && complex_matches(rest, element, filter)),
        selector_relations(selector, element, filter, flags) == ({
            let after = simple_relations(first, element, filter, flags);
            if simple_matches(first, element, filter) {
                selector_relations(rest, element, filter, after)
            } else {
                after
            }
        }),
        complex_relations(selector, element, filter, flags) == ({
            let after = simple_relations(first, element, filter, flags);
            if simple_matches(first, element, filter) {
                complex_relations(rest, element, filter, after)
            } else {
                after
            }
        }),
{
    let whole = selector.compound_selector@;
    let tail = rest.compound_selector@;
    assert(whole[0] == first);
    assert forall|i: int| 0 <= i < tail.len() implies whole[i + 1] == #[trigger] tail[i] by {}
    let after = simple_relations(first, element, filter, flags);
    lemma_compound_tail(whole, tail, element, filter, 0, after);
    assert(compound_matches(whole, element, filter) == (simple_matches(first, element, filter)
        && compound_matches(tail, element, filter))) by {
        if compound_matches(whole, element, filter) {
            assert forall|i: int| 0 <= i < tail.len() implies simple_matches(
                #[trigger] tail[i],
                element,
                filter,
            ) by {
                assert(simple_matches(whole[i + 1], element, filter));
            }
        }
        if simple_matches(first, element, filter) && compound_matches(tail, element, filter) {
            assert forall|i: int| 0 <= i < whole.len() implies simple_matches(
                #[trigger] whole[i],
                element,
                filter,
            ) by {
                if i > 0 {
                    assert(simple_matches(tail[i - 1], element, filter));
                }
            }
        }
    }
    if filter is Some {
        law_filter_rejects(selector, *filter->0);
        law_filter_rejects(rest, *filter->0);
    }
}

proof fn lemma_compound_tail<E: Element>(
    whole: Seq<SimpleSelector<E::Impl>>,
    tail: Seq<SimpleSelector<E::Impl>>,
    element: E,
    filter: Option<&BloomFilter>,
    i: nat,
    flags: u32,
)
    requires
        whole.len() == tail.len() + 1,
        forall|j: int| 0 <= j < tail.len() ==> whole[j + 1] == #[trigger] tail[j],
    ensures
        compound_relations(whole, element, filter, i + 1, flags) == compound_relations(
            tail,
            element,
            filter,
            i,
            flags,
        ),
    decreases tail.len() - i,
{
    if i < tail.len() {
        assert(whole[i as int + 1] == tail[i as int]);
        let after = simple_relations(tail[i as int], element, filter, flags);
        lemma_compound_tail(whole, tail, element, filter, i + 1, after);
    }
}

/// A selector matches where the element meets all its conditions and what stands to their
/// left matches by itself. Where a condition is not met, matching goes on with the next
/// candidate of the closest combinator that has one.
pub proof fn law_conditions_and_context<E: Element>(
    selector: ComplexSelector<E::Impl>,
    bare: ComplexSelector<E::Impl>,
    element: E,
    filter: Option<&BloomFilter>,
)
    requires
        bare.compound_selector@.len() == 0,
        bare.next == selector.next,
    ensures
        ({
            let met = forall|i: int|
                0 <= i < selector.compound_selector@.len() ==> simple_matches(
                    #[trigger] selector.compound_selector@[i],
                    element,
                    filter,
                );
            &&& complex_matches(selector, element, filter) == (met && complex_matches(
                bare,
                element,
                filter,
            ))
            &&& selector_status(selector, element, filter) == (if met {
                selector_status(bare, element, filter)
            } else {
                SelectorMatchingResult::NotMatchedAndRestartFromClosestLaterSibling
            })
        }),
{
    if filter is Some {
        law_filter_rejects(selector, *filter->0);
        law_filter_rejects(bare, *filter->0);
    }
}

/// A child combinator leads to the parent alone, and a next-sibling combinator to the sibling
/// just before. Where there is none, the search fails, globally or from the closest
/// descendant combinator. Else it comes out as it does there, but that a parent which does
/// not match, and does not fail globally, fails from the closest descendant combinator. What
/// is found there is recorded, but for emptiness.
pub proof fn law_immediate_step<E: Element>(
    bare: ComplexSelector<E::Impl>,
    next: ComplexSelector<E::Impl>,
    combinator: Combinator,
    element: E,
    filter: Option<&BloomFilter>,
    flags: u32,
)
    requires
        in_finite_document(element),
        bare.compound_selector@.len() == 0,
        bare.next matches Some((n, c)) && *n == next && c == combinator,
        combinator is Child || combinator is NextSibling,
        filter is Some ==> !filter_rejects(bare, *filter->0),
    ensures
        combinator is Child ==> match element.parent() {
            None => {
                &&& selector_status(bare, element, filter) is NotMatchedGlobally
                &&& selector_relations(bare, element, filter, flags) == flags
            },
            Some(parent) => {
                let found = selector_status(next, parent, filter);
                &&& selector_status(bare, element, filter) == (if found is Matched || found
                    is NotMatchedGlobally {
                    found
                } else {
                    SelectorMatchingResult::NotMatchedAndRestartFromClosestDescendant
                })
                &&& selector_relations(bare, element, filter, flags) == flags | (
                selector_relations(next, parent, filter, 0) & !AFFECTED_BY_EMPTY)
            },
        },
        combinator is NextSibling ==> match element.prev_sibling() {
            None => {
                &&& selector_status(bare, element, filter)
                    is NotMatchedAndRestartFromClosestDescendant
                &&& selector_relations(bare, element, filter, flags) == flags
            },
            Some(sibling) => {
                &&& selector_status(bare, element, filter) == selector_status(
                    next,
                    sibling,
                    filter,
                )
                &&& selector_relations(bare, element, filter, flags) == flags | (
                selector_relations(next, sibling, filter, 0) & !AFFECTED_BY_EMPTY)
            },
        },
{
    lemma_first_candidate(element, combinator);
    lemma_nothing_found(flags);
}

/// A descendant combinator leads to the parent, and, unless that settles the search, as it
/// does where it matches or fails globally, on from there as from the element. Where there is
/// no parent the search fails globally. What is found on the way is recorded, but for
/// emptiness.
pub proof fn law_descendant_step<E: Element>(
    bare: ComplexSelector<E::Impl>,
    next: ComplexSelector<E::Impl>,
    element: E,
    filter: Option<&BloomFilter>,
    flags: u32,
)
    requires
        in_finite_document(element),
        bare.compound_selector@.len() == 0,
        bare.next matches Some((n, c)) && *n == next && c is Descendant,
        filter is Some ==> !filter_rejects(bare, *filter->0),
    ensures
        match element.parent() {
            None => {
                &&& selector_status(bare, element, filter) is NotMatchedGlobally
                &&& selector_relations(bare, element, filter, flags) == flags
            },
            Some(parent) => {
                let found = selector_status(next, parent, filter);
                let settled = found is Matched || found is NotMatchedGlobally;
                let after = flags | (selector_relations(next, parent, filter, 0)
                    & !AFFECTED_BY_EMPTY);
                &&& selector_status(bare, element, filter) == (if settled {
                    found
                } else {
                    selector_status(bare, parent, filter)
                })
                &&& selector_relations(bare, element, filter, flags) == (if settled {
                    after
                } else {
                    after | selector_relations(bare, parent, filter, 0)
                })
            },
        },
{
    lemma_first_candidate(element, Combinator::Descendant);
    lemma_nothing_found(flags);
    if element.parent() is Some {
        lemma_rest(bare, next, Combinator::Descendant, element, filter, flags);
    }
}

/// A later-sibling combinator leads to the sibling just before, and, unless that settles the
/// search, on from there as from the element. The search is settled where the sibling
/// matches, and where it fails globally or from the closest descendant combinator. Where
/// there is no sibling the search fails from the closest descendant combinator. What is found
/// on the way is recorded, but for emptiness.
pub proof fn law_later_sibling_step<E: Element>(
    bare: ComplexSelector<E::Impl>,
    next: ComplexSelector<E::Impl>,
    element: E,
    filter: Option<&BloomFilter>,
    flags: u32,
)
    requires
        in_finite_document(element),
        bare.compound_selector@.len() == 0,
        bare.next matches Some((n, c)) && *n == next && c is LaterSibling,
        filter is Some ==> !filter_rejects(bare, *filter->0),
    ensures
        match element.prev_sibling() {
            None => {
                &&& selector_status(bare, element, filter)
                    is NotMatchedAndRestartFromClosestDescendant
                &&& selector_relations(bare, element, filter, flags) == flags
            },
            Some(sibling) => {
                let found = selector_status(next, sibling, filter);
                let settled = found !is NotMatchedAndRestartFromClosestLaterSibling;
                let after = flags | (selector_relations(next, sibling, filter, 0)
                    & !AFFECTED_BY_EMPTY);
                &&& selector_status(bare, element, filter) == (if settled {
                    found
                } else {
                    selector_status(bare, sibling, filter)
                })
                &&& selector_relations(bare, element, filter, flags) == (if settled {
                    after
                } else {
                    after | selector_relations(bare, sibling, filter, 0)
                })
            },
        },
{
    lemma_first_candidate(element, Combinator::LaterSibling);
    lemma_nothing_found(flags);
    if element.prev_sibling() is Some {
        lemma_rest(bare, next, Combinator::LaterSibling, element, filter, flags);
    }
}

/// The element that a combinator leads to first.
spec fn nearest<E: Element>(element: E, combinator: Combinator) -> Option<E> {
    match combinator {
        Combinator::Child | Combinator::Descendant => element.parent(),
        Combinator::NextSibling | Combinator::LaterSibling => element.prev_sibling(),
    }
}

proof fn lemma_first_candidate<E: Element>(element: E, combinator: Combinator)
    requires
        in_finite_document(element),
    ensures
        nearest(element, combinator) is None ==> candidates(element, combinator).len() == 0,
        nearest(element, combinator) is Some ==> candidates(element, combinator).len() > 0
            && candidates(element, combinator)[0] == nearest(element, combinator)->0 && candidates(
            nearest(element, combinator)->0,
            combinator,
        ) == candidates(element, combinator).skip(1),
{
    lemma_finite_document(element);
    let way = match combinator {
        Combinator::Child | Combinator::Descendant => Step::Parent,
        Combinator::NextSibling | Combinator::LaterSibling => Step::PrevSibling,
    };
    let from = nearest(element, combinator);
    lemma_line(from, way);
    assert(walk(from, way, 0) == from);
    if from is Some {
        lemma_line_step(from, way, 0);
        lemma_line_tail(from, way, 0);
    }
}

proof fn lemma_nothing_found(flags: u32)
    ensures
        flags | (0 & !AFFECTED_BY_EMPTY) == flags,
{
    assert(flags | (0 & !AFFECTED_BY_EMPTY) == flags) by (bit_vector);
}

/// The search from the second candidate on is the search from the first one.
proof fn lemma_rest<E: Element>(
    bare: ComplexSelector<E::Impl>,
    next: ComplexSelector<E::Impl>,
    combinator: Combinator,
    element: E,
    filter: Option<&BloomFilter>,
    flags: u32,
)
    requires
        in_finite_document(element),
        nearest(element, combinator) is Some,
        bare.compound_selector@.len() == 0,
        bare.next matches Some((n, c)) && *n == next && c == combinator,
        filter is Some ==> !filter_rejects(bare, *filter->0),
    ensures
        ({
            let x = nearest(element, combinator)->0;
            let own = selector_relations(next, x, filter, 0);
            let decided = verdict(selector_status(next, x, filter), combinator);
            let after = flags | (own & !AFFECTED_BY_EMPTY);
            &&& selector_status(bare, element, filter) == (if decided is Some {
                decided->0
            } else {
                selector_status(bare, x, filter)
            })
            &&& selector_relations(bare, element, filter, flags) == (if decided is Some {
                after
            } else {
                after | selector_relations(bare, x, filter, 0)
            })
        }),
{
    lemma_first_candidate(element, combinator);
    let x = nearest(element, combinator)->0;
    let line = candidates(element, combinator);
    let own = selector_relations(next, x, filter, 0);
    let rest = search_relations(next, combinator, line.skip(1), 0, filter, 0);
    lemma_search_tail(next, combinator, line, 0, filter, own);
    lemma_search_flags(next, combinator, line.skip(1), 0, filter, own);
    assert(flags | ((own | rest) & !AFFECTED_BY_EMPTY) == (flags | (own & !AFFECTED_BY_EMPTY)) | (0
        | (rest & !AFFECTED_BY_EMPTY))) by (bit_vector);
}

proof fn lemma_search_tail<E: Element>(
    selector: ComplexSelector<E::Impl>,
    combinator: Combinator,
    line: Seq<E>,
    i: nat,
    filter: Option<&BloomFilter>,
    flags: u32,
)
    requires
        line.len() > 0,
    ensures
        search_status(selector, combinator, line, i + 1, filter) == search_status(
            selector,
            combinator,
            line.skip(1),
            i,
            filter,
        ),
        search_relations(selector, combinator, line, i + 1, filter, flags) == search_relations(
            selector,
            combinator,
            line.skip(1),
            i,
            filter,
            flags,
        ),
    decreases line.len() - i,
{
    if i + 1 < line.len() {
        let x = line.skip(1)[i as int];
        assert(x == line[i as int + 1]);
        let after = selector_relations(selector, x, filter, flags);
        lemma_search_tail(selector, combinator, line, i + 1, filter, after);
    }
}

/// In a tree, and with a filter that covers the ancestors of the element or none: what stands
/// to the left of a child combinator has to match the parent; of a descendant combinator, the
/// parent or an element that the parent descends from; of a next-sibling combinator, the
/// sibling just before; of a later-sibling combinator, that sibling or one before it.
pub proof fn law_what_combinators_reach<E: Element>(
    bare: ComplexSelector<E::Impl>,
    next: ComplexSelector<E::Impl>,
    combinator: Combinator,
    element: E,
    filter: Option<&BloomFilter>,
)
    requires
        in_tree(element),
        filter_covers(filter, element),
        bare.compound_selector@.len() == 0,
        bare.next matches Some((n, c)) && *n == next && c == combinator,
    ensures
        combinator is Child ==> complex_matches(bare, element, filter) == (element.parent() is Some
            && complex_matches(next, element.parent()->0, filter)),
        combinator is Descendant ==> complex_matches(bare, element, filter) == (element.parent()
            is Some && (complex_matches(next, element.parent()->0, filter) || complex_matches(
            bare,
            element.parent()->0,
            filter,
        ))),
        combinator is NextSibling ==> complex_matches(bare, element, filter) == (
        element.prev_sibling() is Some && complex_matches(
            next,
            element.prev_sibling()->0,
            filter,
        )),
        combinator is LaterSibling ==> complex_matches(bare, element, filter) == (
        element.prev_sibling() is Some && (complex_matches(
            next,
            element.prev_sibling()->0,
            filter,
        ) || complex_matches(bare, element.prev_sibling()->0, filter))),
{
    lemma_tree(element);
    lemma_first_candidate(element, combinator);
    law_matching_finds_what_is_selected(bare, element, filter);
    let line = candidates(element, combinator);
    if nearest(element, combinator) is Some {
        let x = nearest(element, combinator)->0;
        assert(x == line[0]);
        let upwards = combinator is Child || combinator is Descendant;
        assert(in_tree(x) && filter_covers(filter, x)) by {
            if upwards {
                assert(x == ancestors(element)[0]);
                assert(ancestors(x) == ancestors(element).skip(1));
                assert forall|i: int| 0 <= i < ancestors(x).len() && filter is Some implies
                    filter_knows(*filter->0, #[trigger] ancestors(x)[i]) by {
                    assert(ancestors(x)[i] == ancestors(element)[i + 1]);
                }
            } else {
                assert(x == preceding(element)[0]);
            }
        }
        law_matching_finds_what_is_selected(bare, x, filter);
        law_matching_finds_what_is_selected(next, x, filter);
        let rest = candidates(x, combinator);
        if selects(bare, element) {
            let i = choose|i: int|
                0 <= i < line.len() && (immediate(combinator) ==> i == 0)
                    && selects(next, #[trigger] line[i]);
            if i > 0 {
                assert(rest[i - 1] == line[i]);
            }
        }
        if selects(next, x) {
            assert(selects(next, line[0]));
        }
        if selects(bare, x) && !immediate(combinator) {
            let i = choose|i: int| 0 <= i < rest.len() && selects(next, #[trigger] rest[i]);
            assert(line[i + 1] == rest[i]);
        }
    }
}

/// A selector matches exactly where the search for a match comes out so; each of the three
/// failures is no match.
pub proof fn law_search_decides<E: Element>(
    selector: ComplexSelector<E::Impl>,
    element: E,
    filter: Option<&BloomFilter>,
)
    ensures
        complex_matches(selector, element, filter) == (selector_status(selector, element, filter)
            == SelectorMatchingResult::Matched),
{
}

/// A match of a selector whose rightmost combinator is one of siblings sets the flag of
/// siblings besides those that the search sets. Nothing else is added to these.
pub proof fn law_sibling_flag<E: Element>(
    selector: ComplexSelector<E::Impl>,
    element: E,
    filter: Option<&BloomFilter>,
    flags: u32,
)
    ensures
        ({
            let found = selector_relations(selector, element, filter, flags);
            let sideways = selector.next is Some && ((selector.next->0).1 is NextSibling || (
            selector.next->0).1 is LaterSibling);
            complex_relations(selector, element, filter, flags) == (if complex_matches(
                selector,
                element,
                filter,
            ) && sideways {
                found | AFFECTED_BY_SIBLINGS
            } else {
                found
            })
        }),
{
}

/// A filter excludes a name that it does not hold, and a local name only where it holds it
/// neither as written nor in lower case. It excludes no other condition.
pub proof fn law_filter_excludes<Impl: SelectorImpl>(
    simple: SimpleSelector<Impl>,
    filter: BloomFilter,
)
    ensures
        simple matches SimpleSelector::LocalName(local) ==> filter_excludes(simple, filter) == !(
        filter@.may_hold(local.name.hash()) || filter@.may_hold(local.lower_name.hash())),
        simple matches SimpleSelector::Namespace(namespace) ==> filter_excludes(simple, filter)
            == !filter@.may_hold(namespace.url.hash()),
        simple matches SimpleSelector::ID(id) ==> filter_excludes(simple, filter)
            == !filter@.may_hold(id.hash()),
        simple matches SimpleSelector::Class(class) ==> filter_excludes(simple, filter)
            == !filter@.may_hold(class.hash()),
        simple !is LocalName && simple !is Namespace && simple !is ID && simple !is Class
            ==> !filter_excludes(simple, filter),
{
}

/// A filter rejects a selector where it excludes a condition to the left of a descendant
/// combinator, or rejects what stands to the left of any combinator. The conditions on the
/// element itself do not matter.
pub proof fn law_filter_rejects<Impl: SelectorImpl>(
    selector: ComplexSelector<Impl>,
    filter: BloomFilter,
)
    ensures
        selector.next is None ==> !filter_rejects(selector, filter),
        selector.next matches Some((next, combinator)) ==> filter_rejects(selector, filter) == (
        filter_rejects(*next, filter) || (combinator is Descendant && exists|i: int|
            0 <= i < next.compound_selector@.len() && filter_excludes(
                #[trigger] next.compound_selector@[i],
                filter,
            ))),
{
}

/// A selector that the filter rejects fails globally where the conditions on the element are
/// met, and looks at no other element.
pub proof fn law_rejected_selector<E: Element>(
    bare: ComplexSelector<E::Impl>,
    element: E,
    filter: BloomFilter,
    flags: u32,
)
    requires
        bare.compound_selector@.len() == 0,
        filter_rejects(bare, filter),
    ensures
        selector_status(bare, element, Some(&filter)) is NotMatchedGlobally,
        !complex_matches(bare, element, Some(&filter)),
        selector_relations(bare, element, Some(&filter), flags) == flags,
        complex_relations(bare, element, Some(&filter), flags) == flags,
{
}

/// A selector is decided at once exactly where the element does not meet a condition on
/// itself or a filter rejects the selector, and then as the whole search decides it.
pub proof fn law_fast_rejection<E: Element>(
    selector: ComplexSelector<E::Impl>,
    element: E,
    filter: Option<&BloomFilter>,
)
    ensures
        fast_rejection(selector, element, filter) is Some == ((exists|i: int|
            0 <= i < selector.compound_selector@.len() && !simple_matches(
                #[trigger] selector.compound_selector@[i],
                element,
                filter,
            )) || (filter is Some && filter_rejects(selector, *filter->0))),
        fast_rejection(selector, element, filter) is Some ==> fast_rejection(
            selector,
            element,
            filter,
        ) == Some(selector_status(selector, element, filter)),
{
}

/// A filter covers the ancestors of an element where it knows the parent and covers the
/// ancestors of the parent. An element without a parent needs nothing, and so does matching
/// without a filter.
pub proof fn law_filter_covers<E: Element>(filter: Option<&BloomFilter>, element: E)
    requires
        in_finite_document(element),
    ensures
        filter is None || element.parent() is None ==> filter_covers(filter, element),
        filter is Some && element.parent() is Some ==> filter_covers(filter, element) == (
        filter_knows(*filter->0, element.parent()->0) && filter_covers(
            filter,
            element.parent()->0,
        )),
{
    lemma_first_candidate(element, Combinator::Descendant);
    if filter is Some && element.parent() is Some {
        let parent = element.parent()->0;
        assert(candidates(parent, Combinator::Descendant) == ancestors(parent));
        assert(ancestors(element)[0] == parent);
        if filter_covers(filter, element) {
            assert(filter_knows(*filter->0, ancestors(element)[0]));
            assert forall|i: int| 0 <= i < ancestors(parent).len() implies filter_knows(
                *filter->0,
                #[trigger] ancestors(parent)[i],
            ) by {
                assert(ancestors(parent)[i] == ancestors(element)[i + 1]);
            }
        }
        if filter_knows(*filter->0, parent) && filter_covers(filter, parent) {
            assert forall|i: int| 0 <= i < ancestors(element).len() implies filter_knows(
                *filter->0,
                #[trigger] ancestors(element)[i],
            ) by {
                if i > 0 {
                    assert(ancestors(parent)[i - 1] == ancestors(element)[i]);
                }
            }
        }
    }
}

/// A list of one selector matches where the selector does, unless it speaks of a
/// pseudo-element.
pub proof fn law_list_of_one<E: Element>(
    selector: Selector<E::Impl>,
    element: E,
    filter: Option<&BloomFilter>,
)
    ensures
        list_matches(seq![selector], element, filter) == (selector.pseudo_element is None
            && complex_matches(*selector.complex_selector, element, filter)),
{
    let list = seq![selector];
    assert(list[0] == selector);
}

} // verus!
