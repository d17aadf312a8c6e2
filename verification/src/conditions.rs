//! What each single condition asks of an element, and the flag that it sets.

use crate::bloom::BloomFilter;
use crate::parser::{
    Atom, CaseSensitivity, ComplexSelector, LocalName, Namespace, SelectorImpl, SimpleSelector,
};
use crate::relations::{
    AFFECTED_BY_EMPTY, AFFECTED_BY_FIRST_CHILD, AFFECTED_BY_FIRST_OF_TYPE,
    AFFECTED_BY_ID_SELECTOR, AFFECTED_BY_LAST_CHILD, AFFECTED_BY_LAST_OF_TYPE,
    AFFECTED_BY_NON_COMMON_STYLE_AFFECTING_ATTRIBUTE_SELECTOR, AFFECTED_BY_NTH_CHILD,
    AFFECTED_BY_NTH_LAST_CHILD, AFFECTED_BY_NTH_LAST_OF_TYPE, AFFECTED_BY_NTH_OF_TYPE,
    AFFECTED_BY_ONLY_CHILD, AFFECTED_BY_ONLY_OF_TYPE, AFFECTED_BY_STATE,
};
use crate::semantics::{
    complex_matches, complex_relations, counted_with, negated_relations, nth_matches, nth_takes,
    nth_value, sibling_index, siblings, simple_matches, simple_relations,
};
use crate::tree::{lemma_listed_line, step, Element, Step};
use std::sync::Arc;
use vstd::prelude::*;

verus! {

/// A local name is compared in lower case with that of an HTML element in an HTML document,
/// and as written with that of any other element. So the answer does not depend on the
/// spelling that is not compared.
pub proof fn law_local_name<E: Element>(
    name: <E::Impl as SelectorImpl>::LocalName,
    lower_name: <E::Impl as SelectorImpl>::LocalName,
    other: <E::Impl as SelectorImpl>::LocalName,
    element: E,
    filter: Option<&BloomFilter>,
)
    ensures
        element.html_in_html_document() ==> simple_matches(
            SimpleSelector::LocalName(LocalName { name, lower_name }),
            element,
            filter,
        ) == element.local_name().same(&lower_name),
        !element.html_in_html_document() ==> simple_matches(
            SimpleSelector::LocalName(LocalName { name, lower_name }),
            element,
            filter,
        ) == element.local_name().same(&name),
        element.html_in_html_document() ==> simple_matches(
            SimpleSelector::LocalName(LocalName { name, lower_name }),
            element,
            filter,
        ) == simple_matches(
            SimpleSelector::LocalName(LocalName { name: other, lower_name }),
            element,
            filter,
        ),
        !element.html_in_html_document() ==> simple_matches(
            SimpleSelector::LocalName(LocalName { name, lower_name }),
            element,
            filter,
        ) == simple_matches(
            SimpleSelector::LocalName(LocalName { name, lower_name: other }),
            element,
            filter,
        ),
{
}

/// A namespace is met by the elements in it, and a class by its members.
pub proof fn law_namespace_and_class<E: Element>(
    url: <E::Impl as SelectorImpl>::NamespaceUrl,
    class: <E::Impl as SelectorImpl>::ClassName,
    element: E,
    filter: Option<&BloomFilter>,
)
    ensures
        simple_matches(SimpleSelector::Namespace(Namespace { url }), element, filter)
            == element.namespace().same(&url),
        simple_matches(SimpleSelector::Class(class), element, filter) == element.in_class(class),
{
}

/// An identifier is met by an element that has an identifier, and has this one.
pub proof fn law_id<E: Element>(
    id: <E::Impl as SelectorImpl>::Identifier,
    element: E,
    filter: Option<&BloomFilter>,
)
    ensures
        element.id() is None ==> !simple_matches(SimpleSelector::ID(id), element, filter),
        element.id() is Some ==> simple_matches(SimpleSelector::ID(id), element, filter)
            == element.id()->0.same(&id),
{
}

/// Each attribute selector asks the element its own question.
pub proof fn law_attributes<E: Element>(
    attr: <E::Impl as SelectorImpl>::AttrSelector,
    value: <E::Impl as SelectorImpl>::AttrValue,
    element: E,
    filter: Option<&BloomFilter>,
)
    ensures
        simple_matches(SimpleSelector::AttrExists(attr), element, filter) == element.attr_has(attr),
        simple_matches(
            SimpleSelector::AttrEqual(attr, value, CaseSensitivity::CaseSensitive),
            element,
            filter,
        ) == element.attr_equals(attr, value),
        simple_matches(
            SimpleSelector::AttrEqual(attr, value, CaseSensitivity::CaseInsensitive),
            element,
            filter,
        ) == element.attr_equals_ignore_ascii_case(attr, value),
        simple_matches(SimpleSelector::AttrIncludes(attr, value), element, filter)
            == element.attr_includes(attr, value),
        simple_matches(SimpleSelector::AttrDashMatch(attr, value), element, filter)
            == element.attr_dash(attr, value),
        simple_matches(SimpleSelector::AttrPrefixMatch(attr, value), element, filter)
            == element.attr_prefix(attr, value),
        simple_matches(SimpleSelector::AttrSubstringMatch(attr, value), element, filter)
            == element.attr_substring(attr, value),
        simple_matches(SimpleSelector::AttrSuffixMatch(attr, value), element, filter)
            == element.attr_suffix(attr, value),
{
}

/// The root, an empty element and an element in a state are what the document says they are.
pub proof fn law_states<E: Element>(
    pc: <E::Impl as SelectorImpl>::NonTSPseudoClass,
    element: E,
    filter: Option<&BloomFilter>,
)
    ensures
        simple_matches(SimpleSelector::NonTSPseudoClass(pc), element, filter) == element.in_state(
            pc,
        ),
        simple_matches(SimpleSelector::Root, element, filter) == element.root(),
        simple_matches(SimpleSelector::Empty, element, filter) == element.empty(),
{
}

/// A first child has no sibling before it, a last child none after it, and an only child
/// neither. Whether it has a parent does not matter.
pub proof fn law_first_last_and_only_child<E: Element>(element: E, filter: Option<&BloomFilter>)
    ensures
        simple_matches(SimpleSelector::FirstChild, element, filter) == (element.prev_sibling()
            is None),
        simple_matches(SimpleSelector::LastChild, element, filter) == (element.next_sibling()
            is None),
        simple_matches(SimpleSelector::OnlyChild, element, filter) == (element.prev_sibling()
            is None && element.next_sibling() is None),
{
}

/// Where `before` lists the siblings before an element, from the nearest one backwards, the
/// conditions that count from the front compare one more than their number, or than the
/// number of those with the local name and namespace of the element, with the values of
/// `an+b` for `n` from zero.
pub proof fn law_places_from_the_front<E: Element>(
    element: E,
    before: Seq<E>,
    a: i32,
    b: i32,
    filter: Option<&BloomFilter>,
)
    requires
        before.len() == 0 ==> element.prev_sibling() is None,
        before.len() > 0 ==> element.prev_sibling() == Some(before[0]),
        forall|i: int|
            0 <= i < before.len() ==> #[trigger] before[i].prev_sibling() == (if i + 1
                < before.len() {
                Some(before[i + 1])
            } else {
                None
            }),
    ensures
        simple_matches(SimpleSelector::NthChild(a, b), element, filter) == exists|n: nat|
            #[trigger] (a * n) + b == 1 + before.len(),
        simple_matches(SimpleSelector::NthOfType(a, b), element, filter) == exists|n: nat|
            #[trigger] (a * n) + b == 1 + before.filter(
                |sibling: E|
                    element.local_name().same(&sibling.local_name()) && element.namespace().same(
                        &sibling.namespace(),
                    ),
            ).len(),
        simple_matches(SimpleSelector::FirstOfType, element, filter) == forall|i: int|
            0 <= i < before.len() ==> !(element.local_name().same(
                &(#[trigger] before[i]).local_name(),
            ) && element.namespace().same(&before[i].namespace())),
{
    assert forall|i: int| 0 <= i < before.len() implies #[trigger] step(
        before[i],
        Step::PrevSibling,
    ) == (if i + 1 < before.len() {
        Some(before[i + 1])
    } else {
        None
    }) by {
        assert(before[i].prev_sibling() == step(before[i], Step::PrevSibling));
    }
    lemma_listed_line(element.prev_sibling(), Step::PrevSibling, before);
    assert(siblings(element, false) == before);
    lemma_places(element, before, a, b, false);
}

/// Where `after` lists the siblings after an element, from the nearest one onwards, the
/// conditions that count from the end compare one more than their number, or than the number
/// of those with the local name and namespace of the element, with the values of `an+b` for
/// `n` from zero.
pub proof fn law_places_from_the_end<E: Element>(
    element: E,
    after: Seq<E>,
    a: i32,
    b: i32,
    filter: Option<&BloomFilter>,
)
    requires
        after.len() == 0 ==> element.next_sibling() is None,
        after.len() > 0 ==> element.next_sibling() == Some(after[0]),
        forall|i: int|
            0 <= i < after.len() ==> #[trigger] after[i].next_sibling() == (if i + 1
                < after.len() {
                Some(after[i + 1])
            } else {
                None
            }),
    ensures
        simple_matches(SimpleSelector::NthLastChild(a, b), element, filter) == exists|n: nat|
            #[trigger] (a * n) + b == 1 + after.len(),
        simple_matches(SimpleSelector::NthLastOfType(a, b), element, filter) == exists|n: nat|
            #[trigger] (a * n) + b == 1 + after.filter(
                |sibling: E|
                    element.local_name().same(&sibling.local_name()) && element.namespace().same(
                        &sibling.namespace(),
                    ),
            ).len(),
        simple_matches(SimpleSelector::LastOfType, element, filter) == forall|i: int|
            0 <= i < after.len() ==> !(element.local_name().same(
                &(#[trigger] after[i]).local_name(),
            ) && element.namespace().same(&after[i].namespace())),
{
    assert forall|i: int| 0 <= i < after.len() implies #[trigger] step(
        after[i],
        Step::NextSibling,
    ) == (if i + 1 < after.len() {
        Some(after[i + 1])
    } else {
        None
    }) by {
        assert(after[i].next_sibling() == step(after[i], Step::NextSibling));
    }
    lemma_listed_line(element.next_sibling(), Step::NextSibling, after);
    assert(siblings(element, true) == after);
    lemma_places(element, after, a, b, true);
}

/// An element is the only one of its type where it is the first and the last of its type.
pub proof fn law_only_of_type<E: Element>(element: E, filter: Option<&BloomFilter>)
    ensures
        simple_matches(SimpleSelector::OnlyOfType, element, filter) == (simple_matches(
            SimpleSelector::FirstOfType,
            element,
            filter,
        ) && simple_matches(SimpleSelector::LastOfType, element, filter)),
{
}

/// What `an+b` counts, over a list of the siblings on one side.
proof fn lemma_places<E: Element>(element: E, listed: Seq<E>, a: i32, b: i32, from_end: bool)
    requires
        siblings(element, from_end) == listed,
    ensures
        nth_matches(element, a as int, b as int, false, from_end) == exists|n: nat|
            #[trigger] (a * n) + b == 1 + listed.len(),
        nth_matches(element, a as int, b as int, true, from_end) == exists|n: nat|
            #[trigger] (a * n) + b == 1 + listed.filter(
                |sibling: E|
                    element.local_name().same(&sibling.local_name()) && element.namespace().same(
                        &sibling.namespace(),
                    ),
            ).len(),
        nth_matches(element, 0, 1, true, from_end) == forall|i: int|
            0 <= i < listed.len() ==> !(element.local_name().same(
                &(#[trigger] listed[i]).local_name(),
            ) && element.namespace().same(&listed[i].namespace())),
{
    let of_type = |sibling: E|
        element.local_name().same(&sibling.local_name()) && element.namespace().same(
            &sibling.namespace(),
        );
    assert(of_type =~= counted_with(element, true));
    lemma_filter_all(listed, counted_with(element, false));
    lemma_takes(a as int, b as int, 1 + listed.len());
    lemma_takes(a as int, b as int, 1 + listed.filter(of_type).len());
    lemma_takes(0, 1, 1 + listed.filter(of_type).len());
    lemma_filter_none(listed, of_type);
    assert(sibling_index(element, false, from_end) == 1 + listed.len());
    assert(sibling_index(element, true, from_end) == 1 + listed.filter(of_type).len());
    assert(forall|i: int|
        0 <= i < listed.len() ==> of_type(#[trigger] listed[i]) == (element.local_name().same(
            &listed[i].local_name(),
        ) && element.namespace().same(&listed[i].namespace())));
}

proof fn lemma_takes(a: int, b: int, value: nat)
    ensures
        nth_takes(a, b, value) == exists|n: nat| #[trigger] (a * n) + b == value,
        a == 0 ==> nth_takes(a, b, value) == (b == value),
{
    if nth_takes(a, b, value) {
        let n = choose|n: nat| value == #[trigger] nth_value(a, b, n);
        assert((a * n) + b == value);
    }
    if exists|n: nat| #[trigger] (a * n) + b == value {
        let n = choose|n: nat| #[trigger] (a * n) + b == value;
        assert(value == nth_value(a, b, n));
    }
    if a == 0 {
        assert forall|n: nat| #[trigger] nth_value(a, b, n) == b by {
            assert(a * n == 0) by (nonlinear_arith)
                requires
                    a == 0,
            ;
        }
        assert(nth_value(a, b, 0) == b);
    }
}

/// A filter that takes everything leaves a sequence as it is.
pub proof fn lemma_filter_all<A>(s: Seq<A>, pred: spec_fn(A) -> bool)
    requires
        forall|x: A| #[trigger] pred(x),
    ensures
        s.filter(pred) == s,
    decreases s.len(),
{
    reveal(Seq::filter);
    if s.len() > 0 {
        lemma_filter_all(s.drop_last(), pred);
        assert(s.drop_last().push(s.last()) =~= s);
    }
}

/// A filter leaves nothing exactly where it takes nothing.
proof fn lemma_filter_none<A>(s: Seq<A>, pred: spec_fn(A) -> bool)
    ensures
        (s.filter(pred).len() == 0) == (forall|i: int|
            0 <= i < s.len() ==> !pred(#[trigger] s[i])),
    decreases s.len(),
{
    reveal(Seq::filter);
    if s.len() > 0 {
        let rest = s.drop_last();
        lemma_filter_none(rest, pred);
        assert(forall|i: int| 0 <= i < rest.len() ==> rest[i] == #[trigger] s[i]);
        if forall|i: int| 0 <= i < rest.len() ==> !pred(#[trigger] rest[i]) {
            assert(pred(s.last()) == pred(s[s.len() - 1]));
            assert forall|i: int| 0 <= i < s.len() && i != s.len() - 1 implies !pred(
                #[trigger] s[i],
            ) by {
                assert(rest[i] == s[i]);
            }
        } else {
            let i = choose|i: int| 0 <= i < rest.len() && pred(#[trigger] rest[i]);
            assert(pred(s[i]));
        }
    }
}

/// The conditions that set no flag, met or not: those on names, classes and the root.
pub proof fn law_conditions_without_flag<E: Element>(
    local: LocalName<E::Impl>,
    namespace: Namespace<E::Impl>,
    class: <E::Impl as SelectorImpl>::ClassName,
    element: E,
    filter: Option<&BloomFilter>,
    flags: u32,
)
    ensures
        simple_relations(SimpleSelector::LocalName(local), element, filter, flags) == flags,
        simple_relations(SimpleSelector::Namespace(namespace), element, filter, flags) == flags,
        simple_relations(SimpleSelector::Class(class), element, filter, flags) == flags,
        simple_relations(SimpleSelector::Root, element, filter, flags) == flags,
{
}

/// An attribute selector that is met records that, unless it asks whether the attribute is
/// there, or has a value, and styles may be shared all the same. One that is not met records
/// nothing.
pub proof fn law_attribute_flags<E: Element>(
    attr: <E::Impl as SelectorImpl>::AttrSelector,
    value: <E::Impl as SelectorImpl>::AttrValue,
    case_sensitivity: CaseSensitivity,
    element: E,
    filter: Option<&BloomFilter>,
    flags: u32,
)
    ensures
        ({
            let marked = flags | AFFECTED_BY_NON_COMMON_STYLE_AFFECTING_ATTRIBUTE_SELECTOR;
            let equals = if case_sensitivity is CaseSensitive {
                element.attr_equals(attr, value)
            } else {
                element.attr_equals_ignore_ascii_case(attr, value)
            };
            &&& simple_relations(SimpleSelector::AttrExists(attr), element, filter, flags) == (
            if element.attr_has(attr) && !<E::Impl as SelectorImpl>::attr_exists_shareable(attr) {
                marked
            } else {
                flags
            })
            &&& simple_relations(
                SimpleSelector::AttrEqual(attr, value, case_sensitivity),
                element,
                filter,
                flags,
            ) == (if equals && !<E::Impl as SelectorImpl>::attr_equals_shareable(attr, value) {
                marked
            } else {
                flags
            })
            &&& simple_relations(SimpleSelector::AttrIncludes(attr, value), element, filter, flags)
                == (if element.attr_includes(attr, value) {
                marked
            } else {
                flags
            })
            &&& simple_relations(SimpleSelector::AttrDashMatch(attr, value), element, filter, flags)
                == (if element.attr_dash(attr, value) {
                marked
            } else {
                flags
            })
            &&& simple_relations(
                SimpleSelector::AttrPrefixMatch(attr, value),
                element,
                filter,
                flags,
            ) == (if element.attr_prefix(attr, value) {
                marked
            } else {
                flags
            })
            &&& simple_relations(
                SimpleSelector::AttrSubstringMatch(attr, value),
                element,
                filter,
                flags,
            ) == (if element.attr_substring(attr, value) {
                marked
            } else {
                flags
            })
            &&& simple_relations(
                SimpleSelector::AttrSuffixMatch(attr, value),
                element,
                filter,
                flags,
            ) == (if element.attr_suffix(attr, value) {
                marked
            } else {
                flags
            })
        }),
{
}

/// An identifier, a state and emptiness are recorded where they are met, each by its own
/// flag.
pub proof fn law_state_flags<E: Element>(
    id: <E::Impl as SelectorImpl>::Identifier,
    pc: <E::Impl as SelectorImpl>::NonTSPseudoClass,
    element: E,
    filter: Option<&BloomFilter>,
    flags: u32,
)
    ensures
        simple_relations(SimpleSelector::ID(id), element, filter, flags) == (if element.id() is Some
            && element.id()->0.same(&id) {
            flags | AFFECTED_BY_ID_SELECTOR
        } else {
            flags
        }),
        simple_relations(SimpleSelector::NonTSPseudoClass(pc), element, filter, flags) == (
        if element.in_state(pc) {
            flags | AFFECTED_BY_STATE
        } else {
            flags
        }),
        simple_relations(SimpleSelector::Empty, element, filter, flags) == (if element.empty() {
            flags | AFFECTED_BY_EMPTY
        } else {
            flags
        }),
{
}

/// A condition on where an element stands among its siblings is recorded where it is met,
/// each by its own flag.
pub proof fn law_place_flags<E: Element>(
    a: i32,
    b: i32,
    element: E,
    filter: Option<&BloomFilter>,
    flags: u32,
)
    ensures
        ({
            let met = |simple: SimpleSelector<E::Impl>| simple_matches(simple, element, filter);
            let after = |simple: SimpleSelector<E::Impl>|
                simple_relations(simple, element, filter, flags);
            &&& after(SimpleSelector::FirstChild) == (if met(SimpleSelector::FirstChild) {
                flags | AFFECTED_BY_FIRST_CHILD
            } else {
                flags
            })
            &&& after(SimpleSelector::LastChild) == (if met(SimpleSelector::LastChild) {
                flags | AFFECTED_BY_LAST_CHILD
            } else {
                flags
            })
            &&& after(SimpleSelector::OnlyChild) == (if met(SimpleSelector::OnlyChild) {
                flags | AFFECTED_BY_ONLY_CHILD
            } else {
                flags
            })
            &&& after(SimpleSelector::NthChild(a, b)) == (if met(SimpleSelector::NthChild(a, b)) {
                flags | AFFECTED_BY_NTH_CHILD
            } else {
                flags
            })
            &&& after(SimpleSelector::NthLastChild(a, b)) == (if met(
                SimpleSelector::NthLastChild(a, b),
            ) {
                flags | AFFECTED_BY_NTH_LAST_CHILD
            } else {
                flags
            })
            &&& after(SimpleSelector::NthOfType(a, b)) == (if met(SimpleSelector::NthOfType(a, b)) {
                flags | AFFECTED_BY_NTH_OF_TYPE
            } else {
                flags
            })
            &&& after(SimpleSelector::NthLastOfType(a, b)) == (if met(
                SimpleSelector::NthLastOfType(a, b),
            ) {
                flags | AFFECTED_BY_NTH_LAST_OF_TYPE
            } else {
                flags
            })
            &&& after(SimpleSelector::FirstOfType) == (if met(SimpleSelector::FirstOfType) {
                flags | AFFECTED_BY_FIRST_OF_TYPE
            } else {
                flags
            })
            &&& after(SimpleSelector::LastOfType) == (if met(SimpleSelector::LastOfType) {
                flags | AFFECTED_BY_LAST_OF_TYPE
            } else {
                flags
            })
            &&& after(SimpleSelector::OnlyOfType) == (if met(SimpleSelector::OnlyOfType) {
                flags | AFFECTED_BY_ONLY_OF_TYPE
            } else {
                flags
            })
        }),
{
}

/// The selectors of a negation are tested in turn, and each sets its flags, up to the first
/// that does not match. A negation of nothing is not met, and sets none.
pub proof fn law_negation_in_turn<E: Element>(
    first: Arc<ComplexSelector<E::Impl>>,
    rest: Vec<Arc<ComplexSelector<E::Impl>>>,
    negated: Vec<Arc<ComplexSelector<E::Impl>>>,
    nothing: Vec<Arc<ComplexSelector<E::Impl>>>,
    element: E,
    filter: Option<&BloomFilter>,
    flags: u32,
)
    requires
        negated@ == seq![first] + rest@,
        nothing@.len() == 0,
    ensures
        simple_relations(SimpleSelector::Negation(negated), element, filter, flags) == ({
            let after = complex_relations(*first, element, filter, flags);
            if complex_matches(*first, element, filter) {
                simple_relations(SimpleSelector::Negation(rest), element, filter, after)
            } else {
                after
            }
        }),
        simple_matches(SimpleSelector::Negation(negated), element, filter) == (!complex_matches(
            *first,
            element,
            filter,
        ) || simple_matches(SimpleSelector::Negation(rest), element, filter)),
        simple_relations(SimpleSelector::Negation(nothing), element, filter, flags) == flags,
        !simple_matches(SimpleSelector::Negation(nothing), element, filter),
{
    let whole = SimpleSelector::<E::Impl>::Negation(negated);
    let tail = SimpleSelector::<E::Impl>::Negation(rest);
    let none = SimpleSelector::<E::Impl>::Negation(nothing);
    assert(whole->Negation_0 == negated);
    assert(tail->Negation_0 == rest);
    assert(none->Negation_0 == nothing);
    assert(negated@[0] == first);
    let this = *first;
    let after = complex_relations(this, element, filter, flags);
    lemma_negated_tail(negated@, rest@, element, filter, 0, after);
    assert forall|i: int| 0 <= i < rest@.len() implies negated@[i + 1] == #[trigger] rest@[i] by {}
    if simple_matches(tail, element, filter) {
        let i = choose|i: int|
            0 <= i < rest@.len() && !complex_matches(*#[trigger] rest@[i], element, filter);
        assert(!complex_matches(*negated@[i + 1], element, filter));
    }
    if simple_matches(whole, element, filter) && complex_matches(this, element, filter) {
        let i = choose|i: int|
            0 <= i < negated@.len() && !complex_matches(*#[trigger] negated@[i], element, filter);
        assert(!complex_matches(*rest@[i - 1], element, filter));
    }
}

proof fn lemma_negated_tail<E: Element>(
    negated: Seq<Arc<ComplexSelector<E::Impl>>>,
    rest: Seq<Arc<ComplexSelector<E::Impl>>>,
    element: E,
    filter: Option<&BloomFilter>,
    i: nat,
    flags: u32,
)
    requires
        negated.len() == rest.len() + 1,
        forall|j: int| 0 <= j < rest.len() ==> negated[j + 1] == #[trigger] rest[j],
    ensures
        negated_relations(negated, element, filter, i + 1, flags) == negated_relations(
            rest,
            element,
            filter,
            i,
            flags,
        ),
    decreases rest.len() - i,
{
    if i < rest.len() {
        assert(negated[i as int + 1] == rest[i as int]);
        let this = *rest[i as int];
        let after = complex_relations(this, element, filter, flags);
        lemma_negated_tail(negated, rest, element, filter, i + 1, after);
    }
}

} // verus!
