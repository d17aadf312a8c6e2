//! What matching computes.
//!
//! There are two accounts. `selects` is the meaning of a selector: some choice of
//! elements meets every condition in it. `selector_status` and `selector_relations` say
//! what the search for such a choice finds, and what it records on the way.

use crate::bloom::{BloomFilter, BloomHash};
use crate::parser::{
    Atom, CaseSensitivity, Combinator, ComplexSelector, Selector, SelectorImpl, SimpleSelector,
};
use crate::relations::{
    AFFECTED_BY_EMPTY, AFFECTED_BY_FIRST_CHILD, AFFECTED_BY_FIRST_OF_TYPE,
    AFFECTED_BY_ID_SELECTOR, AFFECTED_BY_LAST_CHILD, AFFECTED_BY_LAST_OF_TYPE,
    AFFECTED_BY_NON_COMMON_STYLE_AFFECTING_ATTRIBUTE_SELECTOR, AFFECTED_BY_NTH_CHILD,
    AFFECTED_BY_NTH_LAST_CHILD, AFFECTED_BY_NTH_LAST_OF_TYPE, AFFECTED_BY_NTH_OF_TYPE,
    AFFECTED_BY_ONLY_CHILD, AFFECTED_BY_ONLY_OF_TYPE, AFFECTED_BY_SIBLINGS, AFFECTED_BY_STATE,
};
use crate::tree::{ancestors, following, preceding, Element};
use std::sync::Arc;
use vstd::prelude::*;

verus! {

/// A result of selector matching, includes 3 failure types,
///
///   NotMatchedAndRestartFromClosestLaterSibling
///   NotMatchedAndRestartFromClosestDescendant
///   NotMatchedGlobally
///
/// When NotMatchedGlobally appears, stop selector matching completely since
/// the succeeding selectors never matches.
/// It is raised when
///   Child combinator cannot find the candidate element.
///   Descendant combinator cannot find the candidate element.
///
/// When NotMatchedAndRestartFromClosestDescendant appears, the selector
/// matching does backtracking and restarts from the closest Descendant
/// combinator.
/// It is raised when
///   NextSibling combinator cannot find the candidate element.
///   LaterSibling combinator cannot find the candidate element.
///   Child combinator doesn't match on the found element.
///
/// When NotMatchedAndRestartFromClosestLaterSibling appears, the selector
/// matching does backtracking and restarts from the closest LaterSibling
/// combinator.
/// It is raised when
///   NextSibling combinator doesn't match on the found element.
///
/// For example, when the selector "d1 d2 a" is provided and we cannot *find*
/// an appropriate ancestor element for "d1", this selector matching raises
/// NotMatchedGlobally since even if "d2" is moved to more upper element, the
/// candidates for "d1" becomes less than before.
///
/// The next example is siblings. When the selector "b1 + b2 ~ d1 a" is
/// provided and we cannot *find* an appropriate brother element for b1,
/// the selector matching raises NotMatchedAndRestartFromClosestDescendant.
/// The selectors ("b1 + b2 ~") doesn't match and matching restart from "d1".
///
/// The additional example is child and sibling. When the selector
/// "b1 + c1 > b2 ~ d1 a" is provided and the selector "b1" doesn't match on
/// the element, this "b1" raises NotMatchedAndRestartFromClosestLaterSibling.
/// However since the selector "c1" raises
/// NotMatchedAndRestartFromClosestDescendant. So the selector
/// "b1 + c1 > b2 ~ " doesn't match and restart matching from "d1".
#[derive(Clone, Copy, Debug, PartialEq, Eq, Structural)]
pub enum SelectorMatchingResult {
    Matched,
    NotMatchedAndRestartFromClosestLaterSibling,
    NotMatchedAndRestartFromClosestDescendant,
    NotMatchedGlobally,
}

/// Whether two elements have the same local name and namespace.
pub open spec fn same_type<E: Element>(element: E, other: E) -> bool {
    element.local_name().same(&other.local_name()) && element.namespace().same(&other.namespace())
}

/// The siblings on one side of an element.
pub open spec fn siblings<E: Element>(element: E, after: bool) -> Seq<E> {
    if after {
        following(element)
    } else {
        preceding(element)
    }
}

/// Which siblings count for the place of an element: all, or those of its type.
pub open spec fn counted_with<E: Element>(element: E, of_type: bool) -> spec_fn(E) -> bool {
    |sibling: E| !of_type || same_type(element, sibling)
}

/// The place of an element among its siblings, or among those of its type, counted from
/// one, from the front or from the end.
pub open spec fn sibling_index<E: Element>(element: E, of_type: bool, from_end: bool) -> nat {
    1 + siblings(element, from_end).filter(counted_with(element, of_type)).len()
}

/// The values of `an+b`.
pub open spec fn nth_value(a: int, b: int, n: nat) -> int {
    a * n + b
}

/// Whether `an+b` takes a value for some `n`.
pub open spec fn nth_takes(a: int, b: int, value: nat) -> bool {
    exists|n: nat| value == #[trigger] nth_value(a, b, n)
}

/// Whether `an+b` takes the place of an element as its value.
pub open spec fn nth_matches<E: Element>(
    element: E,
    a: int,
    b: int,
    of_type: bool,
    from_end: bool,
) -> bool {
    nth_takes(a, b, sibling_index(element, of_type, from_end))
}

/// Whether no sibling stands before an element.
pub open spec fn first_child<E: Element>(element: E) -> bool {
    element.prev_sibling() is None
}

/// Whether no sibling stands after an element.
pub open spec fn last_child<E: Element>(element: E) -> bool {
    element.next_sibling() is None
}

/// Whether an element meets a condition that is not a negation.
pub open spec fn atomic_matches<E: Element>(simple: SimpleSelector<E::Impl>, element: E) -> bool {
    match simple {
        SimpleSelector::LocalName(local) => if element.html_in_html_document() {
            element.local_name().same(&local.lower_name)
        } else {
            element.local_name().same(&local.name)
        },
        SimpleSelector::Namespace(namespace) => element.namespace().same(&namespace.url),
        SimpleSelector::ID(id) => element.id() matches Some(own) && own.same(&id),
        SimpleSelector::Class(class) => element.in_class(class),
        SimpleSelector::AttrExists(attr) => element.attr_has(attr),
        SimpleSelector::AttrEqual(attr, value, case_sensitivity) => match case_sensitivity {
            CaseSensitivity::CaseSensitive => element.attr_equals(attr, value),
            CaseSensitivity::CaseInsensitive => element.attr_equals_ignore_ascii_case(attr, value),
        },
        SimpleSelector::AttrIncludes(attr, value) => element.attr_includes(attr, value),
        SimpleSelector::AttrDashMatch(attr, value) => element.attr_dash(attr, value),
        SimpleSelector::AttrPrefixMatch(attr, value) => element.attr_prefix(attr, value),
        SimpleSelector::AttrSubstringMatch(attr, value) => element.attr_substring(attr, value),
        SimpleSelector::AttrSuffixMatch(attr, value) => element.attr_suffix(attr, value),
        SimpleSelector::NonTSPseudoClass(pc) => element.in_state(pc),
        SimpleSelector::Root => element.root(),
        SimpleSelector::Empty => element.empty(),
        SimpleSelector::FirstChild => first_child(element),
        SimpleSelector::LastChild => last_child(element),
        SimpleSelector::OnlyChild => first_child(element) && last_child(element),
        SimpleSelector::NthChild(a, b) => nth_matches(element, a as int, b as int, false, false),
        SimpleSelector::NthLastChild(a, b) => nth_matches(element, a as int, b as int, false, true),
        SimpleSelector::NthOfType(a, b) => nth_matches(element, a as int, b as int, true, false),
        SimpleSelector::NthLastOfType(a, b) => nth_matches(element, a as int, b as int, true, true),
        SimpleSelector::FirstOfType => nth_matches(element, 0, 1, true, false),
        SimpleSelector::LastOfType => nth_matches(element, 0, 1, true, true),
        SimpleSelector::OnlyOfType => nth_matches(element, 0, 1, true, false) && nth_matches(
            element,
            0,
            1,
            true,
            true,
        ),
        SimpleSelector::Negation(_) => false,
    }
}

/// The elements that may match what stands to the left of a combinator, in the order in
/// which they are tried. Of the ancestors a child combinator tries the first alone, and
/// so does a next-sibling combinator of the preceding siblings.
pub open spec fn candidates<E: Element>(element: E, combinator: Combinator) -> Seq<E> {
    match combinator {
        Combinator::Child | Combinator::Descendant => ancestors(element),
        Combinator::NextSibling | Combinator::LaterSibling => preceding(element),
    }
}

/// Whether a combinator looks no further than one element.
pub open spec fn immediate(combinator: Combinator) -> bool {
    combinator is Child || combinator is NextSibling
}

/// Whether a condition holds of an element.
pub open spec fn simple_selects<E: Element>(simple: SimpleSelector<E::Impl>, element: E) -> bool
    decreases simple,
{
    match simple {
        SimpleSelector::Negation(negated) => !forall|i: int|
            0 <= i < negated@.len() ==> selects(*#[trigger] negated@[i], element),
        _ => atomic_matches(simple, element),
    }
}

/// Whether a selector speaks of an element: its conditions hold of the element, and what
/// stands to their left speaks of some element that stands to this one as the combinator
/// says.
pub open spec fn selects<E: Element>(selector: ComplexSelector<E::Impl>, element: E) -> bool
    decreases selector,
{
    &&& forall|i: int|
        0 <= i < selector.compound_selector@.len() ==> simple_selects(
            #[trigger] selector.compound_selector@[i],
            element,
        )
    &&& match selector.next {
        None => true,
        Some((next, combinator)) => exists|i: int|
            0 <= i < candidates(element, combinator).len() && (immediate(combinator) ==> i == 0)
                && selects(*next, #[trigger] candidates(element, combinator)[i]),
    }
}

/// Whether a filter shows that no ancestor can meet a condition.
pub open spec fn filter_excludes<Impl: SelectorImpl>(
    simple: SimpleSelector<Impl>,
    filter: BloomFilter,
) -> bool {
    match simple {
        SimpleSelector::LocalName(local) => !filter@.may_hold(local.name.hash())
            && !filter@.may_hold(local.lower_name.hash()),
        SimpleSelector::Namespace(namespace) => !filter@.may_hold(namespace.url.hash()),
        SimpleSelector::ID(id) => !filter@.may_hold(id.hash()),
        SimpleSelector::Class(class) => !filter@.may_hold(class.hash()),
        _ => false,
    }
}

/// Whether a filter of the ancestors excludes some compound selector to the left of a
/// descendant combinator.
pub open spec fn filter_rejects<Impl: SelectorImpl>(
    selector: ComplexSelector<Impl>,
    filter: BloomFilter,
) -> bool
    decreases selector,
{
    match selector.next {
        None => false,
        Some((next, combinator)) => {
            ||| combinator is Descendant && exists|i: int|
                0 <= i < next.compound_selector@.len() && filter_excludes(
                    #[trigger] next.compound_selector@[i],
                    filter,
                )
            ||| filter_rejects(*next, filter)
        },
    }
}

/// Whether a filter may hold every name by which an element can be selected.
pub open spec fn filter_knows<E: Element>(filter: BloomFilter, element: E) -> bool {
    &&& forall|name: <E::Impl as SelectorImpl>::LocalName| #[trigger]
        element.local_name().same(&name) ==> filter@.may_hold(name.hash())
    &&& forall|url: <E::Impl as SelectorImpl>::NamespaceUrl| #[trigger]
        element.namespace().same(&url) ==> filter@.may_hold(url.hash())
    &&& forall|id: <E::Impl as SelectorImpl>::Identifier|
        element.id() is Some && #[trigger] element.id()->0.same(&id) ==> filter@.may_hold(
            id.hash(),
        )
    &&& forall|class: <E::Impl as SelectorImpl>::ClassName| #[trigger]
        element.in_class(class) ==> filter@.may_hold(class.hash())
}

/// Whether a filter, if there is one, knows all ancestors of an element.
pub open spec fn filter_covers<E: Element>(filter: Option<&BloomFilter>, element: E) -> bool {
    filter is Some ==> forall|i: int|
        0 <= i < ancestors(element).len() ==> filter_knows(
            *filter->0,
            #[trigger] ancestors(element)[i],
        )
}

/// What a search reports when it has run out of candidates.
pub open spec fn exhausted(combinator: Combinator) -> SelectorMatchingResult {
    match combinator {
        Combinator::Child | Combinator::Descendant => SelectorMatchingResult::NotMatchedGlobally,
        Combinator::NextSibling
        | Combinator::LaterSibling => SelectorMatchingResult::NotMatchedAndRestartFromClosestDescendant,
    }
}

/// What a search reports once a candidate has given `result`, or nothing where it goes on
/// to the next candidate.
pub open spec fn verdict(result: SelectorMatchingResult, combinator: Combinator) -> Option<
    SelectorMatchingResult,
> {
    match result {
        SelectorMatchingResult::Matched | SelectorMatchingResult::NotMatchedGlobally => Some(
            result,
        ),
        _ => match combinator {
            Combinator::Child => Some(
                SelectorMatchingResult::NotMatchedAndRestartFromClosestDescendant,
            ),
            Combinator::NextSibling => Some(result),
            Combinator::LaterSibling => if result
                is NotMatchedAndRestartFromClosestDescendant {
                Some(result)
            } else {
                None
            },
            Combinator::Descendant => None,
        },
    }
}

/// Whether the search finds that an element meets a condition.
pub open spec fn simple_matches<E: Element>(
    simple: SimpleSelector<E::Impl>,
    element: E,
    filter: Option<&BloomFilter>,
) -> bool
    decreases simple, 0nat,
{
    match simple {
        SimpleSelector::Negation(negated) => !forall|i: int|
            0 <= i < negated@.len() ==> complex_matches(*#[trigger] negated@[i], element, filter),
        _ => atomic_matches(simple, element),
    }
}

/// Whether the search finds that an element meets all conditions of a compound selector.
pub open spec fn compound_matches<E: Element>(
    compound: Seq<SimpleSelector<E::Impl>>,
    element: E,
    filter: Option<&BloomFilter>,
) -> bool
    decreases compound, 0nat,
{
    forall|i: int|
        0 <= i < compound.len() ==> simple_matches(#[trigger] compound[i], element, filter)
}

/// Whether the search finds that a selector matches an element.
pub open spec fn complex_matches<E: Element>(
    selector: ComplexSelector<E::Impl>,
    element: E,
    filter: Option<&BloomFilter>,
) -> bool
    decreases selector, 1nat,
{
    selector_status(selector, element, filter) is Matched
}

/// How the search for a match of a selector on an element comes out.
pub open spec fn selector_status<E: Element>(
    selector: ComplexSelector<E::Impl>,
    element: E,
    filter: Option<&BloomFilter>,
) -> SelectorMatchingResult
    decreases selector, 0nat,
{
    if !compound_matches(selector.compound_selector@, element, filter) {
        SelectorMatchingResult::NotMatchedAndRestartFromClosestLaterSibling
    } else if filter is Some && filter_rejects(selector, *filter->0) {
        SelectorMatchingResult::NotMatchedGlobally
    } else {
        match selector.next {
            None => SelectorMatchingResult::Matched,
            Some((next, combinator)) => search_status(
                *next,
                combinator,
                candidates(element, combinator),
                0,
                filter,
            ),
        }
    }
}

/// How a compound selector and a filter decide a match at once, if they do.
pub open spec fn fast_rejection<E: Element>(
    selector: ComplexSelector<E::Impl>,
    element: E,
    filter: Option<&BloomFilter>,
) -> Option<SelectorMatchingResult> {
    if !compound_matches(selector.compound_selector@, element, filter) {
        Some(SelectorMatchingResult::NotMatchedAndRestartFromClosestLaterSibling)
    } else if filter is Some && filter_rejects(selector, *filter->0) {
        Some(SelectorMatchingResult::NotMatchedGlobally)
    } else {
        None
    }
}

/// How the search among the candidates from the `i`-th on comes out.
pub open spec fn search_status<E: Element>(
    selector: ComplexSelector<E::Impl>,
    combinator: Combinator,
    line: Seq<E>,
    i: nat,
    filter: Option<&BloomFilter>,
) -> SelectorMatchingResult
    decreases selector, line.len() - i + 1,
{
    if i >= line.len() {
        exhausted(combinator)
    } else {
        match verdict(selector_status(selector, line[i as int], filter), combinator) {
            Some(result) => result,
            None => search_status(selector, combinator, line, i + 1, filter),
        }
    }
}

/// The flag that a condition other than a negation sets where it is met.
pub open spec fn relation_of<Impl: SelectorImpl>(simple: SimpleSelector<Impl>) -> Option<u32> {
    match simple {
        SimpleSelector::ID(_) => Some(AFFECTED_BY_ID_SELECTOR),
        SimpleSelector::AttrExists(attr) => if Impl::attr_exists_shareable(attr) {
            None
        } else {
            Some(AFFECTED_BY_NON_COMMON_STYLE_AFFECTING_ATTRIBUTE_SELECTOR)
        },
        SimpleSelector::AttrEqual(attr, value, _) => if Impl::attr_equals_shareable(attr, value) {
            None
        } else {
            Some(AFFECTED_BY_NON_COMMON_STYLE_AFFECTING_ATTRIBUTE_SELECTOR)
        },
        SimpleSelector::AttrIncludes(_, _)
        | SimpleSelector::AttrDashMatch(_, _)
        | SimpleSelector::AttrPrefixMatch(_, _)
        | SimpleSelector::AttrSubstringMatch(_, _)
        | SimpleSelector::AttrSuffixMatch(_, _) => Some(
            AFFECTED_BY_NON_COMMON_STYLE_AFFECTING_ATTRIBUTE_SELECTOR,
        ),
        SimpleSelector::NonTSPseudoClass(_) => Some(AFFECTED_BY_STATE),
        SimpleSelector::Empty => Some(AFFECTED_BY_EMPTY),
        SimpleSelector::FirstChild => Some(AFFECTED_BY_FIRST_CHILD),
        SimpleSelector::LastChild => Some(AFFECTED_BY_LAST_CHILD),
        SimpleSelector::OnlyChild => Some(AFFECTED_BY_ONLY_CHILD),
        SimpleSelector::NthChild(_, _) => Some(AFFECTED_BY_NTH_CHILD),
        SimpleSelector::NthLastChild(_, _) => Some(AFFECTED_BY_NTH_LAST_CHILD),
        SimpleSelector::NthOfType(_, _) => Some(AFFECTED_BY_NTH_OF_TYPE),
        SimpleSelector::NthLastOfType(_, _) => Some(AFFECTED_BY_NTH_LAST_OF_TYPE),
        SimpleSelector::FirstOfType => Some(AFFECTED_BY_FIRST_OF_TYPE),
        SimpleSelector::LastOfType => Some(AFFECTED_BY_LAST_OF_TYPE),
        SimpleSelector::OnlyOfType => Some(AFFECTED_BY_ONLY_OF_TYPE),
        SimpleSelector::LocalName(_)
        | SimpleSelector::Namespace(_)
        | SimpleSelector::Class(_)
        | SimpleSelector::Root
        | SimpleSelector::Negation(_) => None,
    }
}

/// The flags after a condition has been tested, from those before.
pub open spec fn simple_relations<E: Element>(
    simple: SimpleSelector<E::Impl>,
    element: E,
    filter: Option<&BloomFilter>,
    flags: u32,
) -> u32
    decreases simple, 0nat,
{
    match simple {
        SimpleSelector::Negation(negated) => negated_relations(
            negated@,
            element,
            filter,
            0,
            flags,
        ),
        _ => match relation_of(simple) {
            Some(flag) if atomic_matches(simple, element) => flags | flag,
            _ => flags,
        },
    }
}

/// The flags after the selectors of a negation have been tested from the `i`-th on. The
/// first that does not match is the last that is tested.
pub open spec fn negated_relations<E: Element>(
    negated: Seq<Arc<ComplexSelector<E::Impl>>>,
    element: E,
    filter: Option<&BloomFilter>,
    i: nat,
    flags: u32,
) -> u32
    decreases negated, negated.len() - i,
{
    if i >= negated.len() {
        flags
    } else {
        let after = complex_relations(*negated[i as int], element, filter, flags);
        if complex_matches(*negated[i as int], element, filter) {
            negated_relations(negated, element, filter, i + 1, after)
        } else {
            after
        }
    }
}

/// The flags after the conditions of a compound selector have been tested from the `i`-th
/// on. The first that is not met is the last that is tested.
pub open spec fn compound_relations<E: Element>(
    compound: Seq<SimpleSelector<E::Impl>>,
    element: E,
    filter: Option<&BloomFilter>,
    i: nat,
    flags: u32,
) -> u32
    decreases compound, compound.len() - i,
{
    if i >= compound.len() {
        flags
    } else {
        let after = simple_relations(compound[i as int], element, filter, flags);
        if simple_matches(compound[i as int], element, filter) {
            compound_relations(compound, element, filter, i + 1, after)
        } else {
            after
        }
    }
}

/// The flags after a search for a match of a selector on an element. What the candidates
/// that a combinator leads to have set is added, but for the flag that says that the element
/// itself matches `:empty`.
pub open spec fn selector_relations<E: Element>(
    selector: ComplexSelector<E::Impl>,
    element: E,
    filter: Option<&BloomFilter>,
    flags: u32,
) -> u32
    decreases selector, 0nat,
{
    let after = compound_relations(selector.compound_selector@, element, filter, 0, flags);
    if !compound_matches(selector.compound_selector@, element, filter) || (filter is Some
        && filter_rejects(selector, *filter->0)) {
        after
    } else {
        match selector.next {
            None => after,
            Some((next, combinator)) => after | (search_relations(
                *next,
                combinator,
                candidates(element, combinator),
                0,
                filter,
                0,
            ) & !AFFECTED_BY_EMPTY),
        }
    }
}

/// The flags after a search among the candidates from the `i`-th on.
pub open spec fn search_relations<E: Element>(
    selector: ComplexSelector<E::Impl>,
    combinator: Combinator,
    line: Seq<E>,
    i: nat,
    filter: Option<&BloomFilter>,
    flags: u32,
) -> u32
    decreases selector, line.len() - i + 1,
{
    if i >= line.len() {
        flags
    } else {
        let after = selector_relations(selector, line[i as int], filter, flags);
        if verdict(selector_status(selector, line[i as int], filter), combinator) is Some {
            after
        } else {
            search_relations(selector, combinator, line, i + 1, filter, after)
        }
    }
}

/// What is left of a selector once `n` compound selectors are taken from its right.
pub open spec fn left_part<Impl: SelectorImpl>(
    selector: ComplexSelector<Impl>,
    n: nat,
) -> Option<ComplexSelector<Impl>>
    decreases selector,
{
    if n == 0 {
        Some(selector)
    } else {
        match selector.next {
            None => None,
            Some((next, _)) => left_part(*next, (n - 1) as nat),
        }
    }
}

/// Whether no condition in a selector is a negation.
pub open spec fn negation_free<Impl: SelectorImpl>(selector: ComplexSelector<Impl>) -> bool
    decreases selector,
{
    &&& forall|i: int|
        0 <= i < selector.compound_selector@.len()
            ==> !((#[trigger] selector.compound_selector@[i]) is Negation)
    &&& selector.next matches Some((next, _)) ==> negation_free(*next)
}

/// Whether a selector has a sibling combinator next to its rightmost compound selector.
pub open spec fn begins_at_sibling<Impl: SelectorImpl>(selector: ComplexSelector<Impl>) -> bool {
    selector.next matches Some((_, combinator)) && (combinator is NextSibling || combinator
        is LaterSibling)
}

/// The flags after a selector has been tested on an element.
pub open spec fn complex_relations<E: Element>(
    selector: ComplexSelector<E::Impl>,
    element: E,
    filter: Option<&BloomFilter>,
    flags: u32,
) -> u32
    decreases selector, 1nat,
{
    let after = selector_relations(selector, element, filter, flags);
    if complex_matches(selector, element, filter) && begins_at_sibling(selector) {
        after | AFFECTED_BY_SIBLINGS
    } else {
        after
    }
}

/// Whether some selector of a list that speaks of no pseudo-element matches an element.
pub open spec fn list_matches<E: Element>(
    list: Seq<Selector<E::Impl>>,
    element: E,
    filter: Option<&BloomFilter>,
) -> bool {
    exists|i: int|
        0 <= i < list.len() && list[i].pseudo_element is None && complex_matches(
            *(#[trigger] list[i]).complex_selector,
            element,
            filter,
        )
}

/// Whether some selector of a list that speaks of no pseudo-element speaks of an element.
pub open spec fn list_selects<E: Element>(list: Seq<Selector<E::Impl>>, element: E) -> bool {
    exists|i: int|
        0 <= i < list.len() && list[i].pseudo_element is None && selects(
            *(#[trigger] list[i]).complex_selector,
            element,
        )
}

} // verus!
