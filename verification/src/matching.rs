//! Matching of selectors against elements.

use crate::bloom::BloomFilter;
use crate::laws::{
    law_empty_flag_is_of_the_element, law_list_finds_what_is_selected,
    law_matching_finds_what_is_selected,
};
use crate::parser::{
    Atom, CaseSensitivity, Combinator, ComplexSelector, LocalName, Selector, SelectorImpl,
    SimpleSelector,
};
pub use crate::relations::{
    AFFECTED_BY_EMPTY, AFFECTED_BY_FIRST_CHILD, AFFECTED_BY_FIRST_OF_TYPE,
    AFFECTED_BY_ID_SELECTOR, AFFECTED_BY_LAST_CHILD, AFFECTED_BY_LAST_OF_TYPE,
    AFFECTED_BY_NON_COMMON_STYLE_AFFECTING_ATTRIBUTE_SELECTOR, AFFECTED_BY_NTH_CHILD,
    AFFECTED_BY_NTH_LAST_CHILD, AFFECTED_BY_NTH_LAST_OF_TYPE, AFFECTED_BY_NTH_OF_TYPE,
    AFFECTED_BY_ONLY_CHILD, AFFECTED_BY_ONLY_OF_TYPE, AFFECTED_BY_PRESENTATIONAL_HINTS,
    AFFECTED_BY_PSEUDO_ELEMENTS, AFFECTED_BY_SIBLINGS, AFFECTED_BY_STATE,
    AFFECTED_BY_STYLE_ATTRIBUTE, StyleRelations,
};
use crate::semantics::{
    candidates, complex_matches, complex_relations, compound_matches, compound_relations,
    counted_with, exhausted, fast_rejection, filter_covers, filter_excludes, filter_rejects,
    first_child, last_child, list_matches, list_selects, negated_relations, nth_matches,
    nth_value, search_relations, search_status, selector_relations, selector_status, selects,
    sibling_index, siblings, simple_matches, simple_relations,
};
pub use crate::semantics::SelectorMatchingResult;
use crate::tree::{
    ends, in_finite_document, in_tree, lemma_finite_document, lemma_line, lemma_line_step, line,
    walk, Element, Step,
};
use vstd::prelude::*;

verus! {

/// The bloom filter for descendant CSS selectors will have a <1% false positive rate until
/// it has this many selectors in it, then it will rapidly increase.
pub const RECOMMENDED_SELECTOR_BLOOM_FILTER_SIZE: usize = 4096;

/// Determines whether the given element matches any selector of the given list.
///
/// A selector that speaks of a pseudo-element matches no element.
pub fn matches<E: Element>(
    selector_list: &[Selector<E::Impl>],
    element: &E,
    parent_bf: Option<&BloomFilter>,
) -> (r: bool)
    requires
        in_finite_document(*element),
    ensures
        r == list_matches(selector_list@, *element, parent_bf),
        in_tree(*element) && filter_covers(parent_bf, *element) ==> r == list_selects(
            selector_list@,
            *element,
        ),
{
    proof {
        if in_tree(*element) && filter_covers(parent_bf, *element) {
            law_list_finds_what_is_selected(selector_list@, *element, parent_bf);
        }
    }
    let mut i: usize = 0;
    while i < selector_list.len()
        invariant
            in_finite_document(*element),
            i <= selector_list@.len(),
            forall|j: int|
                0 <= j < i ==> !((#[trigger] selector_list@[j]).pseudo_element is None
                    && complex_matches(
                    *selector_list@[j].complex_selector,
                    *element,
                    parent_bf,
                )),
        decreases selector_list@.len() - i,
    {
        let selector = &selector_list[i];
        if selector.pseudo_element.is_none() && matches_complex_selector(
            &*selector.complex_selector,
            element,
            parent_bf,
            &mut StyleRelations::empty(),
        ) {
            return true;
        }
        i += 1;
    }
    false
}

/// Determines whether the given element matches the given complex selector.
///
/// NB: If you add support for any new kinds of selectors to this routine, be sure that they
/// set a flag of `relations`, unless you are willing to update the logic that shares styles
/// between elements. Otherwise elements will start mistakenly sharing styles.
pub fn matches_complex_selector<E: Element>(
    selector: &ComplexSelector<E::Impl>,
    element: &E,
    parent_bf: Option<&BloomFilter>,
    relations: &mut StyleRelations,
) -> (r: bool)
    requires
        in_finite_document(*element),
    ensures
        r == complex_matches(*selector, *element, parent_bf),
        in_tree(*element) && filter_covers(parent_bf, *element) ==> r == selects(
            *selector,
            *element,
        ),
        final(relations)@ == complex_relations(*selector, *element, parent_bf, old(relations)@),
        final(relations)@ & AFFECTED_BY_EMPTY != 0 ==> old(relations)@ & AFFECTED_BY_EMPTY != 0
            || element.empty(),
    decreases *selector, 3nat,
{
    proof {
        if in_tree(*element) && filter_covers(parent_bf, *element) {
            law_matching_finds_what_is_selected(*selector, *element, parent_bf);
        }
        law_empty_flag_is_of_the_element(*selector, *element, parent_bf, relations@);
    }
    match matches_complex_selector_internal(selector, element, parent_bf, relations) {
        SelectorMatchingResult::Matched => {
            match &selector.next {
                Some((_, Combinator::NextSibling)) | Some((_, Combinator::LaterSibling)) => {
                    relations.insert(AFFECTED_BY_SIBLINGS);
                },
                _ => {},
            }
            true
        },
        _ => false,
    }
}

/// Quickly figures out whether or not the complex selector is worth doing more work on. If
/// the simple selectors don't match, or there's an ancestor selector that does not appear
/// in the parent bloom filter, we can exit early.
pub fn can_fast_reject<E: Element>(
    selector: &ComplexSelector<E::Impl>,
    element: &E,
    parent_bf: Option<&BloomFilter>,
    relations: &mut StyleRelations,
) -> (r: Option<SelectorMatchingResult>)
    requires
        in_finite_document(*element),
    ensures
        r == fast_rejection(*selector, *element, parent_bf),
        final(relations)@ == compound_relations(
            selector.compound_selector@,
            *element,
            parent_bf,
            0,
            old(relations)@,
        ),
    decreases *selector, 1nat,
{
    let mut i: usize = 0;
    while i < selector.compound_selector.len()
        invariant
            in_finite_document(*element),
            i <= selector.compound_selector@.len(),
            forall|j: int|
                0 <= j < i ==> simple_matches(
                    #[trigger] selector.compound_selector@[j],
                    *element,
                    parent_bf,
                ),
            compound_relations(
                selector.compound_selector@,
                *element,
                parent_bf,
                i as nat,
                relations@,
            ) == compound_relations(
                selector.compound_selector@,
                *element,
                parent_bf,
                0,
                old(relations)@,
            ),
        decreases selector.compound_selector@.len() - i,
    {
        if !matches_simple_selector(
            &selector.compound_selector[i],
            element,
            parent_bf,
            relations,
        ) {
            assert(!compound_matches(selector.compound_selector@, *element, parent_bf));
            return Some(SelectorMatchingResult::NotMatchedAndRestartFromClosestLaterSibling);
        }
        i += 1;
    }
    assert(compound_matches(selector.compound_selector@, *element, parent_bf));
    let bf: &BloomFilter = match parent_bf {
        None => return None,
        Some(bf) => bf,
    };

    // See if the bloom filter can exclude any of the descendant selectors, and
    // reject if we can.
    let mut current: &ComplexSelector<E::Impl> = selector;
    loop
        invariant
            filter_rejects(*current, *bf) == filter_rejects(*selector, *bf),
            parent_bf == Some(bf),
            compound_matches(selector.compound_selector@, *element, parent_bf),
            relations@ == compound_relations(
                selector.compound_selector@,
                *element,
                parent_bf,
                0,
                old(relations)@,
            ),
        ensures
            !filter_rejects(*selector, *bf),
        decreases *current,
    {
        let (next, combinator) = match &current.next {
            None => break,
            Some((next, combinator)) => (next, *combinator),
        };
        if let Combinator::Descendant = combinator {
            if compound_is_excluded(&next.compound_selector, bf) {
                return Some(SelectorMatchingResult::NotMatchedGlobally);
            }
        }
        current = &**next;
    }

    // Can't fast reject.
    None
}

/// Whether a filter excludes some condition of a compound selector.
fn compound_is_excluded<Impl: SelectorImpl>(
    compound: &Vec<SimpleSelector<Impl>>,
    bf: &BloomFilter,
) -> (r: bool)
    ensures
        r == exists|i: int|
            0 <= i < compound@.len() && filter_excludes(#[trigger] compound@[i], *bf),
{
    let mut i: usize = 0;
    while i < compound.len()
        invariant
            i <= compound@.len(),
            forall|j: int| 0 <= j < i ==> !filter_excludes(#[trigger] compound@[j], *bf),
        decreases compound@.len() - i,
    {
        let excluded = match &compound[i] {
            SimpleSelector::LocalName(LocalName { name, lower_name }) => !bf.might_contain(name)
                && !bf.might_contain(lower_name),
            SimpleSelector::Namespace(namespace) => !bf.might_contain(&namespace.url),
            SimpleSelector::ID(id) => !bf.might_contain(id),
            SimpleSelector::Class(class) => !bf.might_contain(class),
            _ => false,
        };
        assert(excluded == filter_excludes(compound@[i as int], *bf));
        if excluded {
            return true;
        }
        i += 1;
    }
    false
}

/// Searches for a match of the given complex selector on the given element, and says how
/// the search came out.
pub fn matches_complex_selector_internal<E: Element>(
    selector: &ComplexSelector<E::Impl>,
    element: &E,
    parent_bf: Option<&BloomFilter>,
    relations: &mut StyleRelations,
) -> (result: SelectorMatchingResult)
    requires
        in_finite_document(*element),
    ensures
        result == selector_status(*selector, *element, parent_bf),
        final(relations)@ == selector_relations(*selector, *element, parent_bf, old(relations)@),
        final(relations)@ & AFFECTED_BY_EMPTY != 0 ==> old(relations)@ & AFFECTED_BY_EMPTY != 0
            || element.empty(),
    decreases *selector, 2nat,
{
    proof {
        law_empty_flag_is_of_the_element(*selector, *element, parent_bf, relations@);
    }
    if let Some(result) = can_fast_reject(selector, element, parent_bf, relations) {
        return result;
    }
    match &selector.next {
        None => SelectorMatchingResult::Matched,
        Some((next_selector, combinator)) => {
            let mut found = StyleRelations::empty();
            let result = search_candidates(
                &**next_selector,
                *combinator,
                element,
                parent_bf,
                &mut found,
            );
            // Whether another element is empty says nothing of this one.
            relations.insert(found.bits() & !AFFECTED_BY_EMPTY);
            result
        },
    }
}

/// Tries the elements that a combinator leads to, one after the other.
fn search_candidates<E: Element>(
    selector: &ComplexSelector<E::Impl>,
    combinator: Combinator,
    element: &E,
    parent_bf: Option<&BloomFilter>,
    relations: &mut StyleRelations,
) -> (result: SelectorMatchingResult)
    requires
        in_finite_document(*element),
    ensures
        result == search_status(
            *selector,
            combinator,
            candidates(*element, combinator),
            0,
            parent_bf,
        ),
        final(relations)@ == search_relations(
            *selector,
            combinator,
            candidates(*element, combinator),
            0,
            parent_bf,
            old(relations)@,
        ),
    decreases *selector, 4nat,
{
    let (siblings, candidate_not_found) = match combinator {
        Combinator::Child => (false, SelectorMatchingResult::NotMatchedGlobally),
        Combinator::Descendant => (false, SelectorMatchingResult::NotMatchedGlobally),
        Combinator::NextSibling => (
            true,
            SelectorMatchingResult::NotMatchedAndRestartFromClosestDescendant,
        ),
        Combinator::LaterSibling => (
            true,
            SelectorMatchingResult::NotMatchedAndRestartFromClosestDescendant,
        ),
    };
    let mut next_element = if siblings {
        element.prev_sibling_element()
    } else {
        element.parent_element()
    };
    let ghost way = if siblings {
        Step::PrevSibling
    } else {
        Step::Parent
    };
    let ghost from = next_element;
    let ghost tried = candidates(*element, combinator);
    let ghost mut k: nat = 0;
    proof {
        lemma_finite_document(*element);
        lemma_line(from, way);
        assert(walk(from, way, 0) == from);
        if tried.len() > 0 {
            lemma_line_step(from, way, 0);
        }
    }
    loop
        invariant
            ends(from, way),
            tried == line(from, way),
            tried == candidates(*element, combinator),
            siblings == (way is PrevSibling),
            siblings == !(way is Parent),
            candidate_not_found == exhausted(combinator),
            k <= tried.len(),
            next_element == (if k < tried.len() {
                Some(tried[k as int])
            } else {
                None
            }),
            forall|i: int| 0 <= i < tried.len() ==> in_finite_document(#[trigger] tried[i]),
            search_status(*selector, combinator, tried, k, parent_bf) == search_status(
                *selector,
                combinator,
                tried,
                0,
                parent_bf,
            ),
            search_relations(*selector, combinator, tried, k, parent_bf, relations@)
                == search_relations(
                *selector,
                combinator,
                tried,
                0,
                parent_bf,
                old(relations)@,
            ),
        decreases tried.len() - k,
    {
        let element = match next_element {
            None => return candidate_not_found,
            Some(next_element) => next_element,
        };
        let result = matches_complex_selector_internal(selector, &element, parent_bf, relations);
        match (result, combinator) {
            // Return the status immediately.
            (SelectorMatchingResult::Matched, _) => return result,
            (SelectorMatchingResult::NotMatchedGlobally, _) => return result,
            // Upgrade the failure status to
            // NotMatchedAndRestartFromClosestDescendant.
            (
                _,
                Combinator::Child,
            ) => return SelectorMatchingResult::NotMatchedAndRestartFromClosestDescendant,
            // Return the status directly.
            (_, Combinator::NextSibling) => return result,
            // If the failure status is NotMatchedAndRestartFromClosestDescendant
            // and combinator is Combinator::LaterSibling, give up this
            // Combinator::LaterSibling matching and restart from the closest
            // descendant combinator.
            (
                SelectorMatchingResult::NotMatchedAndRestartFromClosestDescendant,
                Combinator::LaterSibling,
            ) => return result,
            // The Combinator::Descendant combinator and the status is
            // NotMatchedAndRestartFromClosestLaterSibling or
            // NotMatchedAndRestartFromClosestDescendant,
            // or the Combinator::LaterSibling combinator and the status is
            // NotMatchedAndRestartFromClosestLaterSibling
            // can continue to matching on the next candidate element.
            _ => {},
        }
        proof {
            lemma_line_step(from, way, k as int);
            k = k + 1;
        }
        next_element = if siblings {
            element.prev_sibling_element()
        } else {
            element.parent_element()
        };
    }
}

/// Determines whether the given element matches the given single selector.
///
/// NB: If you add support for any new kinds of selectors to this routine, be sure that they
/// set a flag of `relations`, unless you are willing to update the logic that shares styles
/// between elements. Otherwise elements will start mistakenly sharing styles.
pub fn matches_simple_selector<E: Element>(
    selector: &SimpleSelector<E::Impl>,
    element: &E,
    parent_bf: Option<&BloomFilter>,
    relations: &mut StyleRelations,
) -> (r: bool)
    requires
        in_finite_document(*element),
    ensures
        r == simple_matches(*selector, *element, parent_bf),
        final(relations)@ == simple_relations(*selector, *element, parent_bf, old(relations)@),
    decreases *selector, 0nat,
{
    match selector {
        SimpleSelector::LocalName(LocalName { name, lower_name }) => {
            let name = if element.is_html_element_in_html_document() {
                lower_name
            } else {
                name
            };
            element.get_local_name().is_same(name)
        },
        SimpleSelector::Namespace(namespace) => {
            element.get_namespace().is_same(&namespace.url)
        },
        SimpleSelector::ID(id) => {
            let matched = match element.get_id() {
                None => false,
                Some(attr) => attr.is_same(id),
            };
            relation_if(matched, AFFECTED_BY_ID_SELECTOR, relations)
        },
        SimpleSelector::Class(class) => { element.has_class(class) },
        SimpleSelector::AttrExists(attr) => {
            let matched = element.match_attr_has(attr);
            if matched && !<E::Impl as SelectorImpl>::attr_exists_selector_is_shareable(attr) {
                relations.insert(AFFECTED_BY_NON_COMMON_STYLE_AFFECTING_ATTRIBUTE_SELECTOR);
            }
            matched
        },
        SimpleSelector::AttrEqual(attr, value, case_sensitivity) => {
            let matched = match case_sensitivity {
                CaseSensitivity::CaseSensitive => element.match_attr_equals(attr, value),
                CaseSensitivity::CaseInsensitive => element.match_attr_equals_ignore_ascii_case(
                    attr,
                    value,
                ),
            };
            if matched && !<E::Impl as SelectorImpl>::attr_equals_selector_is_shareable(
                attr,
                value,
            ) {
                relations.insert(AFFECTED_BY_NON_COMMON_STYLE_AFFECTING_ATTRIBUTE_SELECTOR);
            }
            matched
        },
        SimpleSelector::AttrIncludes(attr, value) => {
            relation_if(
                element.match_attr_includes(attr, value),
                AFFECTED_BY_NON_COMMON_STYLE_AFFECTING_ATTRIBUTE_SELECTOR,
                relations,
            )
        },
        SimpleSelector::AttrDashMatch(attr, value) => {
            relation_if(
                element.match_attr_dash(attr, value),
                AFFECTED_BY_NON_COMMON_STYLE_AFFECTING_ATTRIBUTE_SELECTOR,
                relations,
            )
        },
        SimpleSelector::AttrPrefixMatch(attr, value) => {
            relation_if(
                element.match_attr_prefix(attr, value),
                AFFECTED_BY_NON_COMMON_STYLE_AFFECTING_ATTRIBUTE_SELECTOR,
                relations,
            )
        },
        SimpleSelector::AttrSubstringMatch(attr, value) => {
            relation_if(
                element.match_attr_substring(attr, value),
                AFFECTED_BY_NON_COMMON_STYLE_AFFECTING_ATTRIBUTE_SELECTOR,
                relations,
            )
        },
        SimpleSelector::AttrSuffixMatch(attr, value) => {
            relation_if(
                element.match_attr_suffix(attr, value),
                AFFECTED_BY_NON_COMMON_STYLE_AFFECTING_ATTRIBUTE_SELECTOR,
                relations,
            )
        },
        SimpleSelector::NonTSPseudoClass(pc) => {
            relation_if(element.match_non_ts_pseudo_class(pc), AFFECTED_BY_STATE, relations)
        },
        SimpleSelector::Root => {
            // We never share styles with an element with no parent, so no point
            // in creating a new StyleRelation.
            element.is_root()
        },
        SimpleSelector::Empty => {
            relation_if(element.is_empty(), AFFECTED_BY_EMPTY, relations)
        },
        SimpleSelector::FirstChild => {
            relation_if(matches_first_child(element), AFFECTED_BY_FIRST_CHILD, relations)
        },
        SimpleSelector::LastChild => {
            relation_if(matches_last_child(element), AFFECTED_BY_LAST_CHILD, relations)
        },
        SimpleSelector::OnlyChild => {
            relation_if(
                matches_first_child(element) && matches_last_child(element),
                AFFECTED_BY_ONLY_CHILD,
                relations,
            )
        },
        SimpleSelector::NthChild(a, b) => {
            relation_if(
                matches_generic_nth_child(element, *a, *b, false, false),
                AFFECTED_BY_NTH_CHILD,
                relations,
            )
        },
        SimpleSelector::NthLastChild(a, b) => {
            relation_if(
                matches_generic_nth_child(element, *a, *b, false, true),
                AFFECTED_BY_NTH_LAST_CHILD,
                relations,
            )
        },
        SimpleSelector::NthOfType(a, b) => {
            relation_if(
                matches_generic_nth_child(element, *a, *b, true, false),
                AFFECTED_BY_NTH_OF_TYPE,
                relations,
            )
        },
        SimpleSelector::NthLastOfType(a, b) => {
            relation_if(
                matches_generic_nth_child(element, *a, *b, true, true),
                AFFECTED_BY_NTH_LAST_OF_TYPE,
                relations,
            )
        },
        SimpleSelector::FirstOfType => {
            relation_if(
                matches_generic_nth_child(element, 0, 1, true, false),
                AFFECTED_BY_FIRST_OF_TYPE,
                relations,
            )
        },
        SimpleSelector::LastOfType => {
            relation_if(
                matches_generic_nth_child(element, 0, 1, true, true),
                AFFECTED_BY_LAST_OF_TYPE,
                relations,
            )
        },
        SimpleSelector::OnlyOfType => {
            relation_if(
                matches_generic_nth_child(element, 0, 1, true, false) && matches_generic_nth_child(
                    element,
                    0,
                    1,
                    true,
                    true,
                ),
                AFFECTED_BY_ONLY_OF_TYPE,
                relations,
            )
        },
        SimpleSelector::Negation(negated) => {
            let mut i: usize = 0;
            while i < negated.len()
                invariant
                    *selector == SimpleSelector::Negation(*negated),
                    in_finite_document(*element),
                    i <= negated@.len(),
                    forall|j: int|
                        0 <= j < i ==> complex_matches(
                            *#[trigger] negated@[j],
                            *element,
                            parent_bf,
                        ),
                    negated_relations(negated@, *element, parent_bf, i as nat, relations@)
                        == negated_relations(
                        negated@,
                        *element,
                        parent_bf,
                        0,
                        old(relations)@,
                    ),
                decreases negated@.len() - i,
            {
                assert(selector->Negation_0 == *negated);
                assert(decreases_to!(*selector => selector->Negation_0));
                if !matches_complex_selector(&*negated[i], element, parent_bf, relations) {
                    assert(simple_matches(*selector, *element, parent_bf));
                    return true;
                }
                i += 1;
            }
            false
        },
    }
}

/// Sets a flag where a condition is met, and hands the condition on.
fn relation_if(matched: bool, flag: u32, relations: &mut StyleRelations) -> (r: bool)
    ensures
        r == matched,
        final(relations)@ == (if matched {
            old(relations)@ | flag
        } else {
            old(relations)@
        }),
{
    if matched {
        relations.insert(flag);
    }
    matched
}

/// Determines whether `an+b` counts the given element, among all its siblings or those of
/// its type, from the front or from the end.
///
/// The place of the element is counted in 64 bits and compared in 128, so that no `a` and
/// `b` overflow.
pub fn matches_generic_nth_child<E: Element>(
    element: &E,
    a: i32,
    b: i32,
    is_of_type: bool,
    is_from_end: bool,
) -> (r: bool)
    requires
        in_finite_document(*element),
    ensures
        r == nth_matches(*element, a as int, b as int, is_of_type, is_from_end),
{
    // Selectors Level 4 changed from Level 3:
    // This can match without a parent element:
    // https://drafts.csswg.org/selectors-4/#child-index
    let mut index: u64 = 1;
    let mut next_sibling = if is_from_end {
        element.next_sibling_element()
    } else {
        element.prev_sibling_element()
    };
    let ghost way = if is_from_end {
        Step::NextSibling
    } else {
        Step::PrevSibling
    };
    let ghost from = next_sibling;
    let ghost all = siblings(*element, is_from_end);
    let ghost counts = counted_with(*element, is_of_type);
    let ghost mut k: int = 0;
    proof {
        lemma_finite_document(*element);
        lemma_line(from, way);
        assert(walk(from, way, 0) == from);
        if all.len() > 0 {
            lemma_line_step(from, way, 0);
        }
        reveal(Seq::filter);
        assert(all.take(0).filter(counts).len() == 0);
    }
    loop
        invariant
            ends(from, way),
            all == line(from, way),
            all.len() < u64::MAX,
            way == (if is_from_end {
                Step::NextSibling
            } else {
                Step::PrevSibling
            }),
            counts == counted_with(*element, is_of_type),
            0 <= k <= all.len(),
            next_sibling == (if k < all.len() {
                Some(all[k])
            } else {
                None
            }),
            index == 1 + all.take(k).filter(counts).len(),
            index <= 1 + k,
        ensures
            index == 1 + all.filter(counts).len(),
        decreases all.len() - k,
    {
        let sibling = match next_sibling {
            None => {
                assert(all.take(k) =~= all);
                break;
            },
            Some(next_sibling) => next_sibling,
        };
        proof {
            assert(all.take(k + 1) =~= all.take(k).push(all[k]));
            all.take(k).lemma_filter_len_push(counts, all[k]);
        }
        if is_of_type {
            if element.get_local_name().is_same(sibling.get_local_name())
                && element.get_namespace().is_same(sibling.get_namespace()) {
                index += 1;
            }
        } else {
            index += 1;
        }
        proof {
            lemma_line_step(from, way, k);
            k = k + 1;
        }
        next_sibling = if is_from_end {
            sibling.next_sibling_element()
        } else {
            sibling.prev_sibling_element()
        };
    }
    let offset: i128 = index as i128 - b as i128;
    proof {
        let ghost place = sibling_index(*element, is_of_type, is_from_end);
        assert(place == index);
        if a == 0 {
            assert(forall|n: nat| #[trigger] nth_value(a as int, b as int, n) == b)
                by (nonlinear_arith)
                requires
                    a == 0,
            ;
            assert(nth_value(a as int, b as int, 0) == b);
        } else {
            assert forall|n: nat|
                (place == #[trigger] nth_value(a as int, b as int, n)) == (offset == a * n) by {}
            if exists|n: nat| offset == #[trigger] (a * n) {
                let n = choose|n: nat| offset == #[trigger] (a * n);
                assert(place == nth_value(a as int, b as int, n));
            }
        }
    }
    let period: i128 = a as i128;
    if a == 0 {
        offset == 0
    } else {
        proof {
            lemma_truncating_division(offset as int, period as int);
        }
        offset / period >= 0 && offset % period == 0
    }
}

/// A truncating division gives a quotient that is not negative, and leaves nothing, where
/// the dividend is a multiple of the divisor.
proof fn lemma_truncating_division(offset: int, period: int)
    requires
        period != 0,
    ensures
        ({
            let size = if offset >= 0 {
                offset
            } else {
                -offset
            };
            let quotient = if offset >= 0 {
                size / period
            } else {
                -(size / period)
            };
            &&& -size <= size / period <= size
            &&& (quotient >= 0 && size % period == 0) == (exists|n: nat|
                offset == #[trigger] (period * n))
        }),
{
    let size = if offset >= 0 {
        offset
    } else {
        -offset
    };
    let quotient = if offset >= 0 {
        size / period
    } else {
        -(size / period)
    };
    assert(-size <= size / period <= size) by (nonlinear_arith)
        requires
            size >= 0,
            period != 0,
    ;
    assert(size == period * (size / period) + size % period) by (nonlinear_arith)
        requires
            period != 0,
    ;
    if quotient >= 0 && size % period == 0 {
        assert(period * (-(size / period)) == -(period * (size / period))) by (nonlinear_arith);
        assert(offset == period * (quotient as nat));
    }
    if exists|n: nat| offset == #[trigger] (period * n) {
        let n = choose|n: nat| offset == #[trigger] (period * n);
        let m: int = if offset >= 0 {
            n as int
        } else {
            -(n as int)
        };
        assert(size == period * m) by (nonlinear_arith)
            requires
                offset == period * n,
                m == (if offset >= 0 {
                    n as int
                } else {
                    -(n as int)
                }),
                size == (if offset >= 0 {
                    offset
                } else {
                    -offset
                }),
        ;
        assert(size % period == 0 && size / period == m) by (nonlinear_arith)
            requires
                size == period * m,
                period != 0,
        ;
    }
}

/// Determines whether the given element has no sibling before it.
pub fn matches_first_child<E: Element>(element: &E) -> (r: bool)
    ensures
        r == first_child(*element),
        r == (element.prev_sibling() is None),
{
    // Selectors Level 4 changed from Level 3:
    // This can match without a parent element:
    // https://drafts.csswg.org/selectors-4/#child-index
    element.prev_sibling_element().is_none()
}

/// Determines whether the given element has no sibling after it.
pub fn matches_last_child<E: Element>(element: &E) -> (r: bool)
    ensures
        r == last_child(*element),
        r == (element.next_sibling() is None),
{
    // Selectors Level 4 changed from Level 3:
    // This can match without a parent element:
    // https://drafts.csswg.org/selectors-4/#child-index
    element.next_sibling_element().is_none()
}

} // verus!
