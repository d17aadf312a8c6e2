//! What holds of matching as a whole.

use crate::bloom::{BloomFilter, BloomHash};
use crate::conditions::lemma_filter_all;
use crate::parser::{Atom, Combinator, ComplexSelector, Selector, SelectorImpl, SimpleSelector};
use crate::relations::{
    speaks_of_child_index, AFFECTED_BY_EMPTY, AFFECTED_BY_FIRST_CHILD,
    AFFECTED_BY_FIRST_OF_TYPE, AFFECTED_BY_ID_SELECTOR, AFFECTED_BY_LAST_CHILD,
    AFFECTED_BY_LAST_OF_TYPE, AFFECTED_BY_NON_COMMON_STYLE_AFFECTING_ATTRIBUTE_SELECTOR,
    AFFECTED_BY_NTH_CHILD, AFFECTED_BY_NTH_LAST_CHILD, AFFECTED_BY_NTH_LAST_OF_TYPE,
    AFFECTED_BY_NTH_OF_TYPE, AFFECTED_BY_ONLY_CHILD, AFFECTED_BY_ONLY_OF_TYPE,
    AFFECTED_BY_PRESENTATIONAL_HINTS, AFFECTED_BY_PSEUDO_ELEMENTS, AFFECTED_BY_SIBLINGS,
    AFFECTED_BY_STATE, AFFECTED_BY_STYLE_ATTRIBUTE,
};
use crate::semantics::{
    begins_at_sibling, candidates, complex_matches, complex_relations, compound_matches,
    compound_relations, counted_with, exhausted, filter_covers, filter_knows, filter_rejects,
    first_child, left_part, negation_free, last_child, list_matches, list_selects,
    negated_relations, nth_matches, nth_value, relation_of, search_relations, search_status,
    selector_relations, selector_status, selects, simple_matches, simple_relations, verdict,
    SelectorMatchingResult,
};
use crate::soundness::lemma_complex;
use crate::tree::{
    at_or_above, at_or_before, following, in_finite_document, in_tree, lemma_finite_document,
    lemma_line, preceding, walk, Element, Step,
};
use std::sync::Arc;
use vstd::prelude::*;

verus! {

/// In a tree, and with a filter that covers the ancestors of the element or none, the
/// search finds a match exactly where the selector speaks of the element.
pub proof fn law_matching_finds_what_is_selected<E: Element>(
    selector: ComplexSelector<E::Impl>,
    element: E,
    filter: Option<&BloomFilter>,
)
    requires
        in_tree(element),
        filter_covers(filter, element),
    ensures
        complex_matches(selector, element, filter) == selects(selector, element),
{
    lemma_complex(selector, element, filter);
}

/// In a tree, and with a filter that covers the ancestors of the element or none, a list
/// matches exactly where one of its selectors without a pseudo-element speaks of the
/// element.
pub proof fn law_list_finds_what_is_selected<E: Element>(
    list: Seq<Selector<E::Impl>>,
    element: E,
    filter: Option<&BloomFilter>,
)
    requires
        in_tree(element),
        filter_covers(filter, element),
    ensures
        list_matches(list, element, filter) == list_selects(list, element),
{
    assert forall|i: int| 0 <= i < list.len() implies complex_matches(
        *(#[trigger] list[i]).complex_selector,
        element,
        filter,
    ) == selects(*list[i].complex_selector, element) by {
        lemma_complex(*list[i].complex_selector, element, filter);
    }
}

/// A filter that covers the ancestors of the element does not change what matches.
pub proof fn law_filter_changes_no_match<E: Element>(
    selector: ComplexSelector<E::Impl>,
    element: E,
    filter: BloomFilter,
)
    requires
        in_tree(element),
        filter_covers(Some(&filter), element),
    ensures
        complex_matches(selector, element, Some(&filter)) == complex_matches(
            selector,
            element,
            None,
        ),
{
    lemma_complex(selector, element, Some(&filter));
    lemma_complex(selector, element, None);
}

/// Whether names that are the same have the same hash.
pub open spec fn hash_respects_names<A: Atom>() -> bool {
    forall|left: A, right: A| #[trigger] left.same(&right) ==> left.hash() == right.hash()
}

/// A filter knows an element once it may hold the names of the element, where names that are
/// the same have the same hash.
pub proof fn law_filter_knows_what_it_holds<E: Element>(filter: BloomFilter, element: E)
    requires
        hash_respects_names::<<E::Impl as SelectorImpl>::LocalName>(),
        hash_respects_names::<<E::Impl as SelectorImpl>::NamespaceUrl>(),
        hash_respects_names::<<E::Impl as SelectorImpl>::Identifier>(),
        filter@.may_hold(element.local_name().hash()),
        filter@.may_hold(element.namespace().hash()),
        element.id() matches Some(id) ==> filter@.may_hold(id.hash()),
        forall|class: <E::Impl as SelectorImpl>::ClassName| #[trigger]
            element.in_class(class) ==> filter@.may_hold(class.hash()),
    ensures
        filter_knows(filter, element),
{
}

/// A filter goes on knowing an element when another value is inserted.
pub proof fn law_insertion_forgets_no_element<E: Element>(
    before: BloomFilter,
    after: BloomFilter,
    hash: u32,
    element: E,
)
    requires
        after@ == before@.with(hash),
        filter_knows(before, element),
    ensures
        filter_knows(after, element),
{
}

/// Once a search has failed in a way that restarts from the closest descendant
/// combinator, neither the element nor a sibling before it can be selected.
pub proof fn law_restart_from_descendant_skips_no_match<E: Element>(
    selector: ComplexSelector<E::Impl>,
    element: E,
    filter: Option<&BloomFilter>,
    x: E,
)
    requires
        in_tree(element),
        filter_covers(filter, element),
        selector_status(selector, element, filter) is NotMatchedAndRestartFromClosestDescendant,
        at_or_before(x, element),
    ensures
        !selects(selector, x),
{
    lemma_complex(selector, element, filter);
}

/// Once a search has failed globally, neither the element nor any ancestor can be
/// selected, nor any sibling before one of these.
pub proof fn law_global_failure_skips_no_match<E: Element>(
    selector: ComplexSelector<E::Impl>,
    element: E,
    filter: Option<&BloomFilter>,
    x: E,
)
    requires
        in_tree(element),
        filter_covers(filter, element),
        selector_status(selector, element, filter) is NotMatchedGlobally,
        at_or_above(x, element),
    ensures
        !selects(selector, x),
{
    lemma_complex(selector, element, filter);
}

/// How a search fails where the conditions on the element itself are met and no filter
/// rejects the selector: globally where a child or descendant combinator finds no
/// candidate; from the closest descendant combinator where a sibling combinator finds
/// none, or where the parent does not match; as the sibling does where the sibling of a
/// next-sibling combinator does not match.
pub proof fn law_failures<E: Element>(
    selector: ComplexSelector<E::Impl>,
    next: ComplexSelector<E::Impl>,
    combinator: Combinator,
    element: E,
    filter: Option<&BloomFilter>,
)
    requires
        in_finite_document(element),
        selector.next matches Some((n, c)) && *n == next && c == combinator,
        compound_matches(selector.compound_selector@, element, filter),
        filter is Some ==> !filter_rejects(selector, *filter->0),
    ensures
        (combinator is Child || combinator is Descendant) && element.parent() is None
            ==> selector_status(selector, element, filter) is NotMatchedGlobally,
        (combinator is NextSibling || combinator is LaterSibling) && element.prev_sibling() is None
            ==> selector_status(selector, element, filter)
            is NotMatchedAndRestartFromClosestDescendant,
        combinator is Child && element.parent() is Some ==> ({
            let found = selector_status(next, element.parent()->0, filter);
            selector_status(selector, element, filter) == (if found is Matched || found
                is NotMatchedGlobally {
                found
            } else {
                SelectorMatchingResult::NotMatchedAndRestartFromClosestDescendant
            })
        }),
        combinator is NextSibling && element.prev_sibling() is Some ==> selector_status(
            selector,
            element,
            filter,
        ) == selector_status(next, element.prev_sibling()->0, filter),
{
    lemma_finite_document(element);
    lemma_line(element.parent(), Step::Parent);
    lemma_line(element.prev_sibling(), Step::PrevSibling);
    assert(walk(element.parent(), Step::Parent, 0) == element.parent());
    assert(walk(element.prev_sibling(), Step::PrevSibling, 0) == element.prev_sibling());
}

/// How a search fails that has tried all candidates in vain: globally where no ancestor
/// matches, each failing so that the search goes on, and from the closest descendant
/// combinator where no sibling does.
pub proof fn law_exhaustion<E: Element>(
    selector: ComplexSelector<E::Impl>,
    next: ComplexSelector<E::Impl>,
    combinator: Combinator,
    element: E,
    filter: Option<&BloomFilter>,
)
    requires
        selector.next matches Some((n, c)) && *n == next && c == combinator,
        compound_matches(selector.compound_selector@, element, filter),
        filter is Some ==> !filter_rejects(selector, *filter->0),
        combinator is Descendant || combinator is LaterSibling,
        forall|i: int|
            0 <= i < candidates(element, combinator).len() ==> {
                let found = selector_status(
                    next,
                    #[trigger] candidates(element, combinator)[i],
                    filter,
                );
                ||| found is NotMatchedAndRestartFromClosestLaterSibling
                ||| combinator is Descendant && found is NotMatchedAndRestartFromClosestDescendant
            },
    ensures
        combinator is Descendant ==> selector_status(selector, element, filter)
            is NotMatchedGlobally,
        combinator is LaterSibling ==> selector_status(selector, element, filter)
            is NotMatchedAndRestartFromClosestDescendant,
{
    lemma_exhausted(next, combinator, candidates(element, combinator), 0, filter);
}

proof fn lemma_exhausted<E: Element>(
    selector: ComplexSelector<E::Impl>,
    combinator: Combinator,
    line: Seq<E>,
    k: nat,
    filter: Option<&BloomFilter>,
)
    requires
        forall|i: int|
            0 <= i < line.len() ==> verdict(
                selector_status(selector, #[trigger] line[i], filter),
                combinator,
            ) is None,
    ensures
        search_status(selector, combinator, line, k, filter) == exhausted(combinator),
    decreases line.len() - k,
{
    if k < line.len() {
        assert(verdict(selector_status(selector, line[k as int], filter), combinator) is None);
        lemma_exhausted(selector, combinator, line, k + 1, filter);
    }
}

/// An element that does not meet the conditions on itself fails so that the search goes on
/// with the next candidate.
pub proof fn law_failed_conditions<E: Element>(
    selector: ComplexSelector<E::Impl>,
    element: E,
    filter: Option<&BloomFilter>,
    i: int,
)
    requires
        0 <= i < selector.compound_selector@.len(),
        !simple_matches(selector.compound_selector@[i], element, filter),
    ensures
        selector_status(selector, element, filter)
            is NotMatchedAndRestartFromClosestLaterSibling,
{
}

/// Matching sets flags and clears none, and which it sets does not depend on those that
/// were set before.
pub proof fn law_flags_accumulate<E: Element>(
    selector: ComplexSelector<E::Impl>,
    element: E,
    filter: Option<&BloomFilter>,
    flags: u32,
)
    ensures
        complex_relations(selector, element, filter, flags) == flags | complex_relations(
            selector,
            element,
            filter,
            0,
        ),
        complex_relations(selector, element, filter, flags) & flags == flags,
{
    lemma_complex_flags(selector, element, filter, flags);
    let set = complex_relations(selector, element, filter, 0);
    assert((flags | set) & flags == flags) by (bit_vector);
}

proof fn lemma_union(flags: u32, first: u32, second: u32)
    ensures
        (flags | first) | second == flags | (first | second),
        flags | 0 == flags,
{
    assert((flags | first) | second == flags | (first | second)) by (bit_vector);
    assert(flags | 0 == flags) by (bit_vector);
}

proof fn lemma_simple_flags<E: Element>(
    simple: SimpleSelector<E::Impl>,
    element: E,
    filter: Option<&BloomFilter>,
    flags: u32,
)
    ensures
        simple_relations(simple, element, filter, flags) == flags | simple_relations(
            simple,
            element,
            filter,
            0,
        ),
    decreases simple, 0nat,
{
    match simple {
        SimpleSelector::Negation(negated) => {
            lemma_negated_flags(negated@, element, filter, 0, flags);
        },
        _ => {
            if let Some(flag) = relation_of(simple) {
                lemma_union(flags, 0, flag);
            }
            lemma_union(flags, 0, 0);
        },
    }
}

proof fn lemma_negated_flags<E: Element>(
    negated: Seq<Arc<ComplexSelector<E::Impl>>>,
    element: E,
    filter: Option<&BloomFilter>,
    i: nat,
    flags: u32,
)
    ensures
        negated_relations(negated, element, filter, i, flags) == flags | negated_relations(
            negated,
            element,
            filter,
            i,
            0,
        ),
    decreases negated, negated.len() - i,
{
    lemma_union(flags, 0, 0);
    if i < negated.len() {
        let this = *negated[i as int];
        let set = complex_relations(this, element, filter, 0);
        lemma_complex_flags(this, element, filter, flags);
        if complex_matches(this, element, filter) {
            let rest = negated_relations(negated, element, filter, i + 1, 0);
            lemma_negated_flags(negated, element, filter, i + 1, flags | set);
            lemma_negated_flags(negated, element, filter, i + 1, set);
            lemma_union(flags, set, rest);
        }
    }
}

proof fn lemma_compound_flags<E: Element>(
    compound: Seq<SimpleSelector<E::Impl>>,
    element: E,
    filter: Option<&BloomFilter>,
    i: nat,
    flags: u32,
)
    ensures
        compound_relations(compound, element, filter, i, flags) == flags | compound_relations(
            compound,
            element,
            filter,
            i,
            0,
        ),
    decreases compound, compound.len() - i,
{
    lemma_union(flags, 0, 0);
    if i < compound.len() {
        let this = compound[i as int];
        let set = simple_relations(this, element, filter, 0);
        lemma_simple_flags(this, element, filter, flags);
        if simple_matches(this, element, filter) {
            let rest = compound_relations(compound, element, filter, i + 1, 0);
            lemma_compound_flags(compound, element, filter, i + 1, flags | set);
            lemma_compound_flags(compound, element, filter, i + 1, set);
            lemma_union(flags, set, rest);
        }
    }
}

proof fn lemma_selector_flags<E: Element>(
    selector: ComplexSelector<E::Impl>,
    element: E,
    filter: Option<&BloomFilter>,
    flags: u32,
)
    ensures
        selector_relations(selector, element, filter, flags) == flags | selector_relations(
            selector,
            element,
            filter,
            0,
        ),
    decreases selector, 0nat,
{
    let compound = selector.compound_selector@;
    let set = compound_relations(compound, element, filter, 0, 0);
    lemma_compound_flags(compound, element, filter, 0, flags);
    if compound_matches(compound, element, filter) && !(filter is Some && filter_rejects(
        selector,
        *filter->0,
    )) && selector.next is Some {
        let next = *(selector.next->0).0;
        let combinator = (selector.next->0).1;
        let line = candidates(element, combinator);
        let rest = search_relations(next, combinator, line, 0, filter, 0);
        lemma_union(flags, set, rest & !AFFECTED_BY_EMPTY);
    }
}

/// What a search among candidates sets does not depend on the flags before it.
pub proof fn lemma_search_flags<E: Element>(
    selector: ComplexSelector<E::Impl>,
    combinator: Combinator,
    line: Seq<E>,
    i: nat,
    filter: Option<&BloomFilter>,
    flags: u32,
)
    ensures
        search_relations(selector, combinator, line, i, filter, flags) == flags
            | search_relations(selector, combinator, line, i, filter, 0),
    decreases selector, line.len() - i + 1,
{
    lemma_union(flags, 0, 0);
    if i < line.len() {
        let x = line[i as int];
        let set = selector_relations(selector, x, filter, 0);
        lemma_selector_flags(selector, x, filter, flags);
        if verdict(selector_status(selector, x, filter), combinator) is None {
            let rest = search_relations(selector, combinator, line, i + 1, filter, 0);
            lemma_search_flags(selector, combinator, line, i + 1, filter, flags | set);
            lemma_search_flags(selector, combinator, line, i + 1, filter, set);
            lemma_union(flags, set, rest);
        }
    }
}

proof fn lemma_complex_flags<E: Element>(
    selector: ComplexSelector<E::Impl>,
    element: E,
    filter: Option<&BloomFilter>,
    flags: u32,
)
    ensures
        complex_relations(selector, element, filter, flags) == flags | complex_relations(
            selector,
            element,
            filter,
            0,
        ),
    decreases selector, 1nat,
{
    lemma_selector_flags(selector, element, filter, flags);
    lemma_union(flags, selector_relations(selector, element, filter, 0), AFFECTED_BY_SIBLINGS);
}

/// The flag that an element matches `:empty` is set only for an element that is empty, not
/// for one that has an empty sibling or ancestor.
pub proof fn law_empty_flag_is_of_the_element<E: Element>(
    selector: ComplexSelector<E::Impl>,
    element: E,
    filter: Option<&BloomFilter>,
    flags: u32,
)
    ensures
        complex_relations(selector, element, filter, flags) & AFFECTED_BY_EMPTY != 0 ==> flags
            & AFFECTED_BY_EMPTY != 0 || element.empty(),
        selector_relations(selector, element, filter, flags) & AFFECTED_BY_EMPTY != 0 ==> flags
            & AFFECTED_BY_EMPTY != 0 || element.empty(),
    decreases selector, 1nat,
{
    let compound = selector.compound_selector@;
    lemma_compound_empty(compound, element, filter, 0, flags);
    let own = compound_relations(compound, element, filter, 0, flags);
    if selector.next is Some {
        let next = *(selector.next->0).0;
        let combinator = (selector.next->0).1;
        let rest = search_relations(
            next,
            combinator,
            candidates(element, combinator),
            0,
            filter,
            0,
        );
        assert((own | (rest & !AFFECTED_BY_EMPTY)) & AFFECTED_BY_EMPTY == own & AFFECTED_BY_EMPTY)
            by (bit_vector);
    }
    let after = selector_relations(selector, element, filter, flags);
    assert((after | AFFECTED_BY_SIBLINGS) & AFFECTED_BY_EMPTY == after & AFFECTED_BY_EMPTY)
        by (bit_vector);
}

proof fn lemma_compound_empty<E: Element>(
    compound: Seq<SimpleSelector<E::Impl>>,
    element: E,
    filter: Option<&BloomFilter>,
    i: nat,
    flags: u32,
)
    ensures
        compound_relations(compound, element, filter, i, flags) & AFFECTED_BY_EMPTY != 0 ==> flags
            & AFFECTED_BY_EMPTY != 0 || element.empty(),
    decreases compound, compound.len() - i,
{
    if i < compound.len() {
        let simple = compound[i as int];
        let after = simple_relations(simple, element, filter, flags);
        match simple {
            SimpleSelector::Negation(negated) => {
                lemma_negated_empty(negated@, element, filter, 0, flags);
            },
            _ => {
                if relation_of(simple) is Some {
                    lemma_flag_of(simple);
                    lemma_unmasked(flags, relation_of(simple)->0, AFFECTED_BY_EMPTY);
                }
            },
        }
        lemma_compound_empty(compound, element, filter, i + 1, after);
    }
}

proof fn lemma_negated_empty<E: Element>(
    negated: Seq<Arc<ComplexSelector<E::Impl>>>,
    element: E,
    filter: Option<&BloomFilter>,
    i: nat,
    flags: u32,
)
    ensures
        negated_relations(negated, element, filter, i, flags) & AFFECTED_BY_EMPTY != 0 ==> flags
            & AFFECTED_BY_EMPTY != 0 || element.empty(),
    decreases negated, negated.len() - i,
{
    if i < negated.len() {
        let this = *negated[i as int];
        law_empty_flag_is_of_the_element(this, element, filter, flags);
        let after = complex_relations(this, element, filter, flags);
        lemma_negated_empty(negated, element, filter, i + 1, after);
    }
}

/// The flags that no condition sets: those that are computed elsewhere, and the one that a
/// sibling combinator sets.
spec fn no_condition_flags() -> u32 {
    AFFECTED_BY_STYLE_ATTRIBUTE | AFFECTED_BY_PRESENTATIONAL_HINTS | AFFECTED_BY_PSEUDO_ELEMENTS
        | AFFECTED_BY_SIBLINGS
}

/// Which flags a condition can set.
proof fn lemma_flag_of<Impl: SelectorImpl>(simple: SimpleSelector<Impl>)
    requires
        relation_of(simple) is Some,
    ensures
        relation_of(simple)->0 & no_condition_flags() == 0,
        simple !is Empty ==> relation_of(simple)->0 & AFFECTED_BY_EMPTY == 0,
{
    let flag = relation_of(simple)->0;
    if simple is Empty {
        assert(AFFECTED_BY_EMPTY & no_condition_flags() == 0) by (bit_vector);
    } else {
        assert(flag & no_condition_flags() == 0 && flag & AFFECTED_BY_EMPTY == 0) by (bit_vector)
            requires
                flag == AFFECTED_BY_STATE || flag == AFFECTED_BY_ID_SELECTOR || flag
                    == AFFECTED_BY_NON_COMMON_STYLE_AFFECTING_ATTRIBUTE_SELECTOR || flag
                    == AFFECTED_BY_NTH_OF_TYPE || flag == AFFECTED_BY_NTH_LAST_OF_TYPE || flag
                    == AFFECTED_BY_FIRST_OF_TYPE || flag == AFFECTED_BY_LAST_OF_TYPE || flag
                    == AFFECTED_BY_ONLY_OF_TYPE || flag == AFFECTED_BY_NTH_CHILD || flag
                    == AFFECTED_BY_NTH_LAST_CHILD || flag == AFFECTED_BY_FIRST_CHILD || flag
                    == AFFECTED_BY_LAST_CHILD || flag == AFFECTED_BY_ONLY_CHILD,
        ;
    }
}

proof fn lemma_unmasked(flags: u32, more: u32, mask: u32)
    ensures
        more & mask == 0 ==> (flags | more) & mask == flags & mask,
        more & mask == 0 ==> (flags | (more & !AFFECTED_BY_EMPTY)) & mask == flags & mask,
{
    assert(more & mask == 0 ==> (flags | more) & mask == flags & mask) by (bit_vector);
    assert(more & mask == 0 ==> (flags | (more & !AFFECTED_BY_EMPTY)) & mask == flags & mask)
        by (bit_vector);
}

/// Whether a mask takes nothing but flags that no condition sets, and, where there may be
/// negations, not the one of the sibling combinators.
spec fn untouchable(mask: u32, negations: bool) -> bool {
    &&& mask & !no_condition_flags() == 0
    &&& negations ==> mask & AFFECTED_BY_SIBLINGS == 0
}

proof fn lemma_compound_keeps<E: Element>(
    compound: Seq<SimpleSelector<E::Impl>>,
    element: E,
    filter: Option<&BloomFilter>,
    i: nat,
    flags: u32,
    mask: u32,
)
    requires
        untouchable(mask, exists|j: int| 0 <= j < compound.len() && compound[j] is Negation),
    ensures
        compound_relations(compound, element, filter, i, flags) & mask == flags & mask,
    decreases compound, compound.len() - i,
{
    if i < compound.len() {
        let simple = compound[i as int];
        let after = simple_relations(simple, element, filter, flags);
        match simple {
            SimpleSelector::Negation(negated) => {
                lemma_negated_keeps(negated@, element, filter, 0, flags, mask);
            },
            _ => {
                if relation_of(simple) is Some {
                    let flag = relation_of(simple)->0;
                    lemma_flag_of(simple);
                    assert(flag & mask == 0) by (bit_vector)
                        requires
                            flag & no_condition_flags() == 0,
                            mask & !no_condition_flags() == 0,
                    ;
                    lemma_unmasked(flags, flag, mask);
                }
            },
        }
        lemma_compound_keeps(compound, element, filter, i + 1, after, mask);
    }
}

proof fn lemma_negated_keeps<E: Element>(
    negated: Seq<Arc<ComplexSelector<E::Impl>>>,
    element: E,
    filter: Option<&BloomFilter>,
    i: nat,
    flags: u32,
    mask: u32,
)
    requires
        untouchable(mask, true),
    ensures
        negated_relations(negated, element, filter, i, flags) & mask == flags & mask,
    decreases negated, negated.len() - i,
{
    if i < negated.len() {
        let this = *negated[i as int];
        lemma_selector_keeps(this, element, filter, flags, mask);
        let before = selector_relations(this, element, filter, flags);
        assert(AFFECTED_BY_SIBLINGS & mask == 0) by (bit_vector)
            requires
                mask & AFFECTED_BY_SIBLINGS == 0,
        ;
        lemma_unmasked(before, AFFECTED_BY_SIBLINGS, mask);
        let after = complex_relations(this, element, filter, flags);
        lemma_negated_keeps(negated, element, filter, i + 1, after, mask);
    }
}

proof fn lemma_selector_keeps<E: Element>(
    selector: ComplexSelector<E::Impl>,
    element: E,
    filter: Option<&BloomFilter>,
    flags: u32,
    mask: u32,
)
    requires
        untouchable(mask, !negation_free(selector)),
    ensures
        selector_relations(selector, element, filter, flags) & mask == flags & mask,
    decreases selector, 0nat,
{
    let compound = selector.compound_selector@;
    lemma_compound_keeps(compound, element, filter, 0, flags, mask);
    let own = compound_relations(compound, element, filter, 0, flags);
    if selector.next is Some {
        let next = *(selector.next->0).0;
        let combinator = (selector.next->0).1;
        let line = candidates(element, combinator);
        let rest = search_relations(next, combinator, line, 0, filter, 0);
        lemma_search_keeps(next, combinator, line, 0, filter, 0, mask);
        assert(0 & mask == 0) by (bit_vector);
        lemma_unmasked(own, rest, mask);
    }
}

proof fn lemma_search_keeps<E: Element>(
    selector: ComplexSelector<E::Impl>,
    combinator: Combinator,
    line: Seq<E>,
    k: nat,
    filter: Option<&BloomFilter>,
    flags: u32,
    mask: u32,
)
    requires
        untouchable(mask, !negation_free(selector)),
    ensures
        search_relations(selector, combinator, line, k, filter, flags) & mask == flags & mask,
    decreases selector, line.len() - k + 1,
{
    if k < line.len() {
        let x = line[k as int];
        lemma_selector_keeps(selector, x, filter, flags, mask);
        let after = selector_relations(selector, x, filter, flags);
        lemma_search_keeps(selector, combinator, line, k + 1, filter, after, mask);
    }
}

/// Matching touches none of the flags that are computed elsewhere: those of the style
/// attribute, of presentational hints and of pseudo-elements.
pub proof fn law_external_flags_are_kept<E: Element>(
    selector: ComplexSelector<E::Impl>,
    element: E,
    filter: Option<&BloomFilter>,
    flags: u32,
)
    ensures
        ({
            let external = AFFECTED_BY_STYLE_ATTRIBUTE | AFFECTED_BY_PRESENTATIONAL_HINTS
                | AFFECTED_BY_PSEUDO_ELEMENTS;
            complex_relations(selector, element, filter, flags) & external == flags & external
        }),
{
    let external = AFFECTED_BY_STYLE_ATTRIBUTE | AFFECTED_BY_PRESENTATIONAL_HINTS
        | AFFECTED_BY_PSEUDO_ELEMENTS;
    assert((AFFECTED_BY_STYLE_ATTRIBUTE | AFFECTED_BY_PRESENTATIONAL_HINTS
        | AFFECTED_BY_PSEUDO_ELEMENTS) & !no_condition_flags() == 0 && (AFFECTED_BY_STYLE_ATTRIBUTE
        | AFFECTED_BY_PRESENTATIONAL_HINTS | AFFECTED_BY_PSEUDO_ELEMENTS) & AFFECTED_BY_SIBLINGS
        == 0 && AFFECTED_BY_SIBLINGS & (AFFECTED_BY_STYLE_ATTRIBUTE
        | AFFECTED_BY_PRESENTATIONAL_HINTS | AFFECTED_BY_PSEUDO_ELEMENTS) == 0) by (bit_vector);
    lemma_selector_keeps(selector, element, filter, flags, external);
    let before = selector_relations(selector, element, filter, flags);
    lemma_unmasked(before, AFFECTED_BY_SIBLINGS, external);
}

/// A match that is determined by a sibling of the element is recorded as such.
pub proof fn law_sibling_matches_are_recorded<E: Element>(
    selector: ComplexSelector<E::Impl>,
    element: E,
    filter: Option<&BloomFilter>,
    flags: u32,
)
    requires
        complex_matches(selector, element, filter),
        begins_at_sibling(selector),
    ensures
        complex_relations(selector, element, filter, flags) & AFFECTED_BY_SIBLINGS != 0,
{
    let before = selector_relations(selector, element, filter, flags);
    assert((before | AFFECTED_BY_SIBLINGS) & AFFECTED_BY_SIBLINGS != 0) by (bit_vector);
}

/// Without a negation, the flag of the sibling combinators is set exactly where it was set
/// before, or where a selector matches that has a sibling combinator next to its rightmost
/// compound selector.
pub proof fn law_sibling_flag_without_negation<E: Element>(
    selector: ComplexSelector<E::Impl>,
    element: E,
    filter: Option<&BloomFilter>,
    flags: u32,
)
    requires
        negation_free(selector),
    ensures
        (complex_relations(selector, element, filter, flags) & AFFECTED_BY_SIBLINGS != 0) == (flags
            & AFFECTED_BY_SIBLINGS != 0 || (complex_matches(selector, element, filter)
            && begins_at_sibling(selector))),
{
    assert(AFFECTED_BY_SIBLINGS & !no_condition_flags() == 0) by (bit_vector);
    lemma_selector_keeps(selector, element, filter, flags, AFFECTED_BY_SIBLINGS);
    let before = selector_relations(selector, element, filter, flags);
    assert((before | AFFECTED_BY_SIBLINGS) & AFFECTED_BY_SIBLINGS != 0) by (bit_vector);
}

/// Where a selector matches, every condition in it that has a flag has set it: those on the
/// element, and, but for `:empty`, those on the elements that the combinators lead to.
pub proof fn law_matched_conditions_are_recorded<E: Element>(
    selector: ComplexSelector<E::Impl>,
    element: E,
    filter: Option<&BloomFilter>,
    flags: u32,
    n: nat,
    i: int,
)
    requires
        complex_matches(selector, element, filter),
        left_part(selector, n) is Some,
        0 <= i < left_part(selector, n)->0.compound_selector@.len(),
        relation_of(left_part(selector, n)->0.compound_selector@[i]) is Some,
        n > 0 ==> left_part(selector, n)->0.compound_selector@[i] !is Empty,
    ensures
        ({
            let flag = relation_of(left_part(selector, n)->0.compound_selector@[i])->0;
            complex_relations(selector, element, filter, flags) & flag == flag
        }),
{
    lemma_part_recorded(selector, element, filter, flags, n, i);
    lemma_kept(
        selector_relations(selector, element, filter, flags),
        AFFECTED_BY_SIBLINGS,
        relation_of(left_part(selector, n)->0.compound_selector@[i])->0,
    );
}

proof fn lemma_part_recorded<E: Element>(
    selector: ComplexSelector<E::Impl>,
    element: E,
    filter: Option<&BloomFilter>,
    flags: u32,
    n: nat,
    i: int,
)
    requires
        selector_status(selector, element, filter) is Matched,
        left_part(selector, n) is Some,
        0 <= i < left_part(selector, n)->0.compound_selector@.len(),
        relation_of(left_part(selector, n)->0.compound_selector@[i]) is Some,
        n > 0 ==> left_part(selector, n)->0.compound_selector@[i] !is Empty,
    ensures
        ({
            let flag = relation_of(left_part(selector, n)->0.compound_selector@[i])->0;
            selector_relations(selector, element, filter, flags) & flag == flag
        }),
    decreases selector, 0nat,
{
    let compound = selector.compound_selector@;
    let simple = left_part(selector, n)->0.compound_selector@[i];
    let flag = relation_of(simple)->0;
    let own = compound_relations(compound, element, filter, 0, flags);
    if n == 0 {
        lemma_recorded(compound, element, filter, 0, flags, i);
    }
    if selector.next is Some {
        let next = *(selector.next->0).0;
        let combinator = (selector.next->0).1;
        let line = candidates(element, combinator);
        let rest = search_relations(next, combinator, line, 0, filter, 0);
        if n == 0 {
            lemma_kept(own, rest & !AFFECTED_BY_EMPTY, flag);
        } else {
            lemma_search_recorded(next, combinator, line, 0, filter, 0, (n - 1) as nat, i);
            lemma_flag_of(simple);
            assert((own | (rest & !AFFECTED_BY_EMPTY)) & flag == flag) by (bit_vector)
                requires
                    rest & flag == flag,
                    flag & AFFECTED_BY_EMPTY == 0,
            ;
        }
    }
}

proof fn lemma_search_recorded<E: Element>(
    selector: ComplexSelector<E::Impl>,
    combinator: Combinator,
    line: Seq<E>,
    k: nat,
    filter: Option<&BloomFilter>,
    flags: u32,
    n: nat,
    i: int,
)
    requires
        search_status(selector, combinator, line, k, filter) is Matched,
        left_part(selector, n) is Some,
        0 <= i < left_part(selector, n)->0.compound_selector@.len(),
        relation_of(left_part(selector, n)->0.compound_selector@[i]) is Some,
        left_part(selector, n)->0.compound_selector@[i] !is Empty,
    ensures
        ({
            let flag = relation_of(left_part(selector, n)->0.compound_selector@[i])->0;
            search_relations(selector, combinator, line, k, filter, flags) & flag == flag
        }),
    decreases selector, line.len() - k + 1,
{
    let x = line[k as int];
    if verdict(selector_status(selector, x, filter), combinator) is Some {
        lemma_part_recorded(selector, x, filter, flags, n, i);
    } else {
        let after = selector_relations(selector, x, filter, flags);
        lemma_search_recorded(selector, combinator, line, k + 1, filter, after, n, i);
    }
}

proof fn lemma_kept(flags: u32, more: u32, flag: u32)
    requires
        flags & flag == flag,
    ensures
        (flags | more) & flag == flag,
{
    assert((flags | more) & flag == flag) by (bit_vector)
        requires
            flags & flag == flag,
    ;
}

proof fn lemma_recorded<E: Element>(
    compound: Seq<SimpleSelector<E::Impl>>,
    element: E,
    filter: Option<&BloomFilter>,
    k: nat,
    flags: u32,
    i: int,
)
    requires
        compound_matches(compound, element, filter),
        k <= i < compound.len(),
        relation_of(compound[i]) is Some,
    ensures
        compound_relations(compound, element, filter, k, flags) & relation_of(compound[i])->0
            == relation_of(compound[i])->0,
    decreases i - k,
{
    let flag = relation_of(compound[i])->0;
    let after = simple_relations(compound[k as int], element, filter, flags);
    assert(simple_matches(compound[k as int], element, filter));
    if k == i {
        assert(after == flags | flag);
        assert((flags | flag) & flag == flag) by (bit_vector);
        lemma_compound_flags(compound, element, filter, k + 1, after);
        lemma_kept(after, compound_relations(compound, element, filter, k + 1, 0), flag);
    } else {
        lemma_recorded(compound, element, filter, k + 1, after, i);
    }
}

/// Whether a condition speaks of where an element stands among its siblings.
pub open spec fn is_about_child_index<Impl: SelectorImpl>(simple: SimpleSelector<Impl>) -> bool {
    match simple {
        SimpleSelector::FirstChild
        | SimpleSelector::LastChild
        | SimpleSelector::OnlyChild
        | SimpleSelector::NthChild(_, _)
        | SimpleSelector::NthLastChild(_, _)
        | SimpleSelector::NthOfType(_, _)
        | SimpleSelector::NthLastOfType(_, _)
        | SimpleSelector::FirstOfType
        | SimpleSelector::LastOfType
        | SimpleSelector::OnlyOfType => true,
        _ => false,
    }
}

/// The flags that count as being affected by the child index are those of the conditions
/// that speak of it.
pub proof fn law_child_index_flags<Impl: SelectorImpl>(simple: SimpleSelector<Impl>)
    requires
        relation_of(simple) is Some,
    ensures
        speaks_of_child_index(relation_of(simple)->0) == is_about_child_index(simple),
{
    assert(speaks_of_child_index(AFFECTED_BY_NTH_OF_TYPE)) by (bit_vector);
    assert(speaks_of_child_index(AFFECTED_BY_NTH_LAST_OF_TYPE)) by (bit_vector);
    assert(speaks_of_child_index(AFFECTED_BY_FIRST_OF_TYPE)) by (bit_vector);
    assert(speaks_of_child_index(AFFECTED_BY_LAST_OF_TYPE)) by (bit_vector);
    assert(speaks_of_child_index(AFFECTED_BY_ONLY_OF_TYPE)) by (bit_vector);
    assert(speaks_of_child_index(AFFECTED_BY_NTH_CHILD)) by (bit_vector);
    assert(speaks_of_child_index(AFFECTED_BY_NTH_LAST_CHILD)) by (bit_vector);
    assert(speaks_of_child_index(AFFECTED_BY_FIRST_CHILD)) by (bit_vector);
    assert(speaks_of_child_index(AFFECTED_BY_LAST_CHILD)) by (bit_vector);
    assert(speaks_of_child_index(AFFECTED_BY_ONLY_CHILD)) by (bit_vector);
    assert(!speaks_of_child_index(AFFECTED_BY_STATE)) by (bit_vector);
    assert(!speaks_of_child_index(AFFECTED_BY_ID_SELECTOR)) by (bit_vector);
    assert(!speaks_of_child_index(AFFECTED_BY_NON_COMMON_STYLE_AFFECTING_ATTRIBUTE_SELECTOR))
        by (bit_vector);
    assert(!speaks_of_child_index(AFFECTED_BY_EMPTY)) by (bit_vector);
}

/// An element counts as affected by a child index where it was matched by where it, or an
/// element that the combinators lead to, stands among its siblings.
pub proof fn law_child_index_matches_are_recorded<E: Element>(
    selector: ComplexSelector<E::Impl>,
    element: E,
    filter: Option<&BloomFilter>,
    flags: u32,
    n: nat,
    i: int,
)
    requires
        complex_matches(selector, element, filter),
        left_part(selector, n) is Some,
        0 <= i < left_part(selector, n)->0.compound_selector@.len(),
        is_about_child_index(left_part(selector, n)->0.compound_selector@[i]),
    ensures
        speaks_of_child_index(complex_relations(selector, element, filter, flags)),
{
    let simple = left_part(selector, n)->0.compound_selector@[i];
    law_matched_conditions_are_recorded(selector, element, filter, flags, n, i);
    law_child_index_flags(simple);
    let flag = relation_of(simple)->0;
    let after = complex_relations(selector, element, filter, flags);
    assert(speaks_of_child_index(after)) by (bit_vector)
        requires
            after & flag == flag,
            speaks_of_child_index(flag),
    ;
}

/// The first and the last child are those that `nth-child` and `nth-last-child` count as
/// number one. None of this asks for a parent.
pub proof fn law_first_and_last_child<E: Element>(element: E)
    requires
        in_finite_document(element),
    ensures
        first_child(element) == nth_matches(element, 0, 1, false, false),
        last_child(element) == nth_matches(element, 0, 1, false, true),
{
    lemma_finite_document(element);
    lemma_line(element.prev_sibling(), Step::PrevSibling);
    lemma_line(element.next_sibling(), Step::NextSibling);
    assert(walk(element.prev_sibling(), Step::PrevSibling, 0) == element.prev_sibling());
    assert(walk(element.next_sibling(), Step::NextSibling, 0) == element.next_sibling());
    let all = counted_with(element, false);
    assert(preceding(element).filter(all) =~= preceding(element)) by {
        lemma_filter_all(preceding(element), all);
    }
    assert(following(element).filter(all) =~= following(element)) by {
        lemma_filter_all(following(element), all);
    }
    assert forall|n: nat| #[trigger] nth_value(0, 1, n) == 1 by {}
    assert(nth_value(0, 1, 0) == 1);
}

/// A list matches where one of its parts does; an empty list matches nothing.
pub proof fn law_lists_join<E: Element>(
    left: Seq<Selector<E::Impl>>,
    right: Seq<Selector<E::Impl>>,
    element: E,
    filter: Option<&BloomFilter>,
)
    ensures
        list_matches(left + right, element, filter) == (list_matches(left, element, filter)
            || list_matches(right, element, filter)),
        !list_matches(Seq::<Selector<E::Impl>>::empty(), element, filter),
{
    let whole = left + right;
    if list_matches(left, element, filter) {
        let i = choose|i: int|
            0 <= i < left.len() && left[i].pseudo_element is None && complex_matches(
                *(#[trigger] left[i]).complex_selector,
                element,
                filter,
            );
        assert(whole[i] == left[i]);
    }
    if list_matches(right, element, filter) {
        let i = choose|i: int|
            0 <= i < right.len() && right[i].pseudo_element is None && complex_matches(
                *(#[trigger] right[i]).complex_selector,
                element,
                filter,
            );
        assert(whole[left.len() + i] == right[i]);
    }
    if list_matches(whole, element, filter) {
        let i = choose|i: int|
            0 <= i < whole.len() && whole[i].pseudo_element is None && complex_matches(
                *(#[trigger] whole[i]).complex_selector,
                element,
                filter,
            );
        if i < left.len() {
            assert(whole[i] == left[i]);
        } else {
            assert(whole[i] == right[i - left.len()]);
        }
    }
}

/// A negation is met as soon as one of its selectors does not match, and not where all
/// match. So it is met wherever the negation of one of its selectors alone is met.
pub proof fn law_negation<E: Element>(
    negated: Vec<Arc<ComplexSelector<E::Impl>>>,
    element: E,
    filter: Option<&BloomFilter>,
)
    ensures
        simple_matches(SimpleSelector::Negation(negated), element, filter) == exists|i: int|
            0 <= i < negated@.len() && !complex_matches(
                *#[trigger] negated@[i],
                element,
                filter,
            ),
        forall|i: int, alone: Vec<Arc<ComplexSelector<E::Impl>>>|
            #![trigger negated@[i], alone@]
            0 <= i < negated@.len() && alone@ == seq![negated@[i]] && simple_matches(
                SimpleSelector::Negation(alone),
                element,
                filter,
            ) ==> simple_matches(SimpleSelector::Negation(negated), element, filter),
        negated@.len() == 1 ==> simple_matches(SimpleSelector::Negation(negated), element, filter)
            == !complex_matches(*negated@[0], element, filter),
{
    let simple = SimpleSelector::<E::Impl>::Negation(negated);
    assert(simple->Negation_0 == negated);
    assert forall|i: int, alone: Vec<Arc<ComplexSelector<E::Impl>>>|
        #![trigger negated@[i], alone@]
        0 <= i < negated@.len() && alone@ == seq![negated@[i]] && simple_matches(
            SimpleSelector::Negation(alone),
            element,
            filter,
        ) implies simple_matches(SimpleSelector::Negation(negated), element, filter) by {
        let one = SimpleSelector::<E::Impl>::Negation(alone);
        assert(one->Negation_0 == alone);
        assert(alone@[0] == negated@[i]);
    }
}

} // verus!
