//! The elements of a document, as matching sees them.
//!
//! Matching walks a document only upwards and sideways: from an element to its
//! parent, to the sibling before it and to the sibling after it.

use crate::parser::SelectorImpl;
use vstd::prelude::*;

verus! {

/// An element of a document.
///
/// Each method answers a question about the element, and the specification function
/// above it names the answer. An implementation is free in what it answers; all that
/// is asked is that the same element gives the same answer each time.
pub trait Element: Sized {
    /// The names and values that selectors for these elements are made of.
    type Impl: SelectorImpl;

    /// The parent of this element.
    spec fn parent(&self) -> Option<Self>;

    /// The element just before this one under the same parent.
    spec fn prev_sibling(&self) -> Option<Self>;

    /// The element just after this one under the same parent.
    spec fn next_sibling(&self) -> Option<Self>;

    /// Whether this is an HTML element in an HTML document.
    spec fn html_in_html_document(&self) -> bool;

    /// The local name of this element.
    spec fn local_name(&self) -> <Self::Impl as SelectorImpl>::LocalName;

    /// The namespace of this element.
    spec fn namespace(&self) -> <Self::Impl as SelectorImpl>::NamespaceUrl;

    /// The identifier of this element, if it has one.
    spec fn id(&self) -> Option<<Self::Impl as SelectorImpl>::Identifier>;

    /// Whether this element belongs to a class.
    spec fn in_class(&self, name: <Self::Impl as SelectorImpl>::ClassName) -> bool;

    /// Whether this element has the attribute.
    spec fn attr_has(&self, attr: <Self::Impl as SelectorImpl>::AttrSelector) -> bool;

    /// Whether the attribute has exactly this value.
    spec fn attr_equals(
        &self,
        attr: <Self::Impl as SelectorImpl>::AttrSelector,
        value: <Self::Impl as SelectorImpl>::AttrValue,
    ) -> bool;

    /// Whether the attribute has this value, up to the case of ASCII letters.
    spec fn attr_equals_ignore_ascii_case(
        &self,
        attr: <Self::Impl as SelectorImpl>::AttrSelector,
        value: <Self::Impl as SelectorImpl>::AttrValue,
    ) -> bool;

    /// Whether this value is one of the words of the attribute.
    spec fn attr_includes(
        &self,
        attr: <Self::Impl as SelectorImpl>::AttrSelector,
        value: <Self::Impl as SelectorImpl>::AttrValue,
    ) -> bool;

    /// Whether the attribute is this value, alone or followed by a dash.
    spec fn attr_dash(
        &self,
        attr: <Self::Impl as SelectorImpl>::AttrSelector,
        value: <Self::Impl as SelectorImpl>::AttrValue,
    ) -> bool;

    /// Whether the attribute begins with this value.
    spec fn attr_prefix(
        &self,
        attr: <Self::Impl as SelectorImpl>::AttrSelector,
        value: <Self::Impl as SelectorImpl>::AttrValue,
    ) -> bool;

    /// Whether this value occurs in the attribute.
    spec fn attr_substring(
        &self,
        attr: <Self::Impl as SelectorImpl>::AttrSelector,
        value: <Self::Impl as SelectorImpl>::AttrValue,
    ) -> bool;

    /// Whether the attribute ends with this value.
    spec fn attr_suffix(
        &self,
        attr: <Self::Impl as SelectorImpl>::AttrSelector,
        value: <Self::Impl as SelectorImpl>::AttrValue,
    ) -> bool;

    /// Whether this element is in the state that a pseudo-class names.
    spec fn in_state(&self, pc: <Self::Impl as SelectorImpl>::NonTSPseudoClass) -> bool;

    /// Whether this element is the root of its document.
    spec fn root(&self) -> bool;

    /// Whether this element has no content.
    spec fn empty(&self) -> bool;

    fn parent_element(&self) -> (r: Option<Self>)
        ensures
            r == self.parent(),
    ;

    fn prev_sibling_element(&self) -> (r: Option<Self>)
        ensures
            r == self.prev_sibling(),
    ;

    fn next_sibling_element(&self) -> (r: Option<Self>)
        ensures
            r == self.next_sibling(),
    ;

    fn is_html_element_in_html_document(&self) -> (r: bool)
        ensures
            r == self.html_in_html_document(),
    ;

    fn get_local_name(&self) -> (r: &<Self::Impl as SelectorImpl>::LocalName)
        ensures
            *r == self.local_name(),
    ;

    fn get_namespace(&self) -> (r: &<Self::Impl as SelectorImpl>::NamespaceUrl)
        ensures
            *r == self.namespace(),
    ;

    fn get_id(&self) -> (r: Option<<Self::Impl as SelectorImpl>::Identifier>)
        ensures
            r == self.id(),
    ;

    fn has_class(&self, name: &<Self::Impl as SelectorImpl>::ClassName) -> (r: bool)
        ensures
            r == self.in_class(*name),
    ;

    fn match_attr_has(&self, attr: &<Self::Impl as SelectorImpl>::AttrSelector) -> (r: bool)
        ensures
            r == self.attr_has(*attr),
    ;

    fn match_attr_equals(
        &self,
        attr: &<Self::Impl as SelectorImpl>::AttrSelector,
        value: &<Self::Impl as SelectorImpl>::AttrValue,
    ) -> (r: bool)
        ensures
            r == self.attr_equals(*attr, *value),
    ;

    fn match_attr_equals_ignore_ascii_case(
        &self,
        attr: &<Self::Impl as SelectorImpl>::AttrSelector,
        value: &<Self::Impl as SelectorImpl>::AttrValue,
    ) -> (r: bool)
        ensures
            r == self.attr_equals_ignore_ascii_case(*attr, *value),
    ;

    fn match_attr_includes(
        &self,
        attr: &<Self::Impl as SelectorImpl>::AttrSelector,
        value: &<Self::Impl as SelectorImpl>::AttrValue,
    ) -> (r: bool)
        ensures
            r == self.attr_includes(*attr, *value),
    ;

    fn match_attr_dash(
        &self,
        attr: &<Self::Impl as SelectorImpl>::AttrSelector,
        value: &<Self::Impl as SelectorImpl>::AttrValue,
    ) -> (r: bool)
        ensures
            r == self.attr_dash(*attr, *value),
    ;

    fn match_attr_prefix(
        &self,
        attr: &<Self::Impl as SelectorImpl>::AttrSelector,
        value: &<Self::Impl as SelectorImpl>::AttrValue,
    ) -> (r: bool)
        ensures
            r == self.attr_prefix(*attr, *value),
    ;

    fn match_attr_substring(
        &self,
        attr: &<Self::Impl as SelectorImpl>::AttrSelector,
        value: &<Self::Impl as SelectorImpl>::AttrValue,
    ) -> (r: bool)
        ensures
            r == self.attr_substring(*attr, *value),
    ;

    fn match_attr_suffix(
        &self,
        attr: &<Self::Impl as SelectorImpl>::AttrSelector,
        value: &<Self::Impl as SelectorImpl>::AttrValue,
    ) -> (r: bool)
        ensures
            r == self.attr_suffix(*attr, *value),
    ;

    fn match_non_ts_pseudo_class(
        &self,
        pc: &<Self::Impl as SelectorImpl>::NonTSPseudoClass,
    ) -> (r: bool)
        ensures
            r == self.in_state(*pc),
    ;

    fn is_root(&self) -> (r: bool)
        ensures
            r == self.root(),
    ;

    fn is_empty(&self) -> (r: bool)
        ensures
            r == self.empty(),
    ;
}

/// A way to go from one element to another.
pub enum Step {
    Parent,
    PrevSibling,
    NextSibling,
}

/// The element one step away.
pub open spec fn step<E: Element>(element: E, way: Step) -> Option<E> {
    match way {
        Step::Parent => element.parent(),
        Step::PrevSibling => element.prev_sibling(),
        Step::NextSibling => element.next_sibling(),
    }
}

/// The element `n` steps away from `from`, if the document goes that far.
pub open spec fn walk<E: Element>(from: Option<E>, way: Step, n: nat) -> Option<E>
    decreases n,
{
    if n == 0 {
        from
    } else {
        match walk(from, way, (n - 1) as nat) {
            None => None,
            Some(element) => step(element, way),
        }
    }
}

/// Whether `n` is the number of elements on the way from `from`, itself included.
pub open spec fn ends_after<E: Element>(from: Option<E>, way: Step, n: nat) -> bool {
    &&& walk(from, way, n) is None
    &&& forall|m: nat| m < n ==> #[trigger] walk(from, way, m) is Some
}

/// Whether a walk from `from` comes to an end.
pub open spec fn ends<E: Element>(from: Option<E>, way: Step) -> bool {
    exists|n: nat| #[trigger] ends_after(from, way, n)
}

/// The elements that a walk from `from` meets, in order, `from` itself first.
pub open spec fn line<E: Element>(from: Option<E>, way: Step) -> Seq<E> {
    let n = choose|n: nat| #[trigger] ends_after(from, way, n);
    Seq::new(n, |i: int| walk(from, way, i as nat)->0)
}

/// The ancestors of an element, from its parent upwards.
pub open spec fn ancestors<E: Element>(element: E) -> Seq<E> {
    line(element.parent(), Step::Parent)
}

/// The siblings before an element, from the nearest one backwards.
pub open spec fn preceding<E: Element>(element: E) -> Seq<E> {
    line(element.prev_sibling(), Step::PrevSibling)
}

/// The siblings after an element, from the nearest one onwards.
pub open spec fn following<E: Element>(element: E) -> Seq<E> {
    line(element.next_sibling(), Step::NextSibling)
}

/// Whether a set of elements has no way out of it that leads to a parent or to a
/// preceding sibling, and no walk from one of its elements goes on for ever. The
/// siblings of an element can be counted in 64 bits.
pub open spec fn closed_and_finite<E: Element>(elements: Set<E>) -> bool {
    forall|element: E| #[trigger]
        elements.contains(element) ==> {
            &&& element.parent() matches Some(p) ==> elements.contains(p)
            &&& element.prev_sibling() matches Some(p) ==> elements.contains(p)
            &&& ends(element.parent(), Step::Parent)
            &&& ends(element.prev_sibling(), Step::PrevSibling)
            &&& ends(element.next_sibling(), Step::NextSibling)
            &&& preceding(element).len() < u64::MAX
            &&& following(element).len() < u64::MAX
        }
}

/// Whether siblings have the same parent, or all have none.
pub open spec fn siblings_share_parents<E: Element>(elements: Set<E>) -> bool {
    forall|element: E| #[trigger]
        elements.contains(element) ==> (element.prev_sibling() matches Some(p) ==> p.parent()
            == element.parent())
}

/// Whether every walk that matching makes from an element comes to an end.
pub open spec fn in_finite_document<E: Element>(element: E) -> bool {
    exists|elements: Set<E>| #[trigger]
        closed_and_finite(elements) && elements.contains(element)
}

/// Whether an element belongs to a document in which, besides, siblings have the same
/// parent.
pub open spec fn in_tree<E: Element>(element: E) -> bool {
    exists|elements: Set<E>| #[trigger]
        closed_and_finite(elements) && siblings_share_parents(elements) && elements.contains(
            element,
        )
}

/// A walk that ends meets as many elements as there are steps to its end.
pub proof fn lemma_line<E: Element>(from: Option<E>, way: Step)
    requires
        ends(from, way),
    ensures
        ends_after(from, way, line(from, way).len()),
        forall|i: int|
            0 <= i < line(from, way).len() ==> walk(from, way, i as nat) == Some(
                #[trigger] line(from, way)[i],
            ),
{
    let n = choose|n: nat| #[trigger] ends_after(from, way, n);
    assert(ends_after(from, way, n));
    assert(line(from, way).len() == n);
}

/// Each element on a line is one step from the one before it, and nothing follows the
/// last.
pub proof fn lemma_line_step<E: Element>(from: Option<E>, way: Step, i: int)
    requires
        ends(from, way),
        0 <= i < line(from, way).len(),
    ensures
        step(line(from, way)[i], way) == (if i + 1 < line(from, way).len() {
            Some(line(from, way)[i + 1])
        } else {
            None
        }),
        line(from, way)[0] == from->0,
{
    lemma_line(from, way);
    let n = line(from, way).len();
    assert(walk(from, way, i as nat) == Some(line(from, way)[i]));
    assert(walk(from, way, (i + 1) as nat) == step(line(from, way)[i], way));
    if i + 1 < n {
        assert(walk(from, way, (i + 1) as nat) == Some(line(from, way)[i + 1]));
    }
    assert(walk(from, way, 0) == Some(line(from, way)[0]));
}

/// Whether an element is another one or a sibling before it.
pub open spec fn at_or_before<E: Element>(x: E, element: E) -> bool {
    x == element || preceding(element).contains(x)
}

/// Whether an element is another one or an ancestor of it, or a sibling before one of
/// these.
pub open spec fn at_or_above<E: Element>(x: E, element: E) -> bool {
    at_or_before(x, element) || exists|i: int|
        0 <= i < ancestors(element).len() && at_or_before(x, #[trigger] ancestors(element)[i])
}

/// The number of steps to the end of a walk is unique.
proof fn lemma_ends_once<E: Element>(from: Option<E>, way: Step, n: nat)
    requires
        ends_after(from, way, n),
    ensures
        ends(from, way),
        line(from, way).len() == n,
{
    lemma_line(from, way);
    let m = line(from, way).len();
    assert(walk(from, way, m) is None);
    assert(walk(from, way, n) is None);
}

/// A walk goes on where another, that started earlier, has come to.
proof fn lemma_walk_shift<E: Element>(from: Option<E>, way: Step, i: nat, m: nat)
    requires
        walk(from, way, i) is Some,
    ensures
        walk(step(walk(from, way, i)->0, way), way, m) == walk(from, way, i + 1 + m),
    decreases m,
{
    if m > 0 {
        lemma_walk_shift(from, way, i, (m - 1) as nat);
    }
}

/// The walk from an element on a line meets the rest of the line.
pub proof fn lemma_line_tail<E: Element>(from: Option<E>, way: Step, i: int)
    requires
        ends(from, way),
        0 <= i < line(from, way).len(),
    ensures
        ends(step(line(from, way)[i], way), way),
        line(step(line(from, way)[i], way), way) == line(from, way).skip(i + 1),
{
    lemma_line(from, way);
    let whole = line(from, way);
    let start = step(whole[i], way);
    let n = (whole.len() - i - 1) as nat;
    assert(walk(from, way, i as nat) == Some(whole[i]));
    assert forall|m: nat| #[trigger] walk(start, way, m) == walk(from, way, (i + 1 + m) as nat) by {
        lemma_walk_shift(from, way, i as nat, m);
    }
    assert(walk(from, way, whole.len()) is None);
    assert(walk(start, way, n) is None);
    assert(ends_after(start, way, n));
    lemma_ends_once(start, way, n);
    lemma_line(start, way);
    assert forall|j: int| 0 <= j < n implies line(start, way)[j] == whole.skip(i + 1)[j] by {
        assert(walk(start, way, j as nat) == Some(line(start, way)[j]));
        assert(walk(from, way, (i + 1 + j) as nat) == Some(whole[i + 1 + j]));
    }
    assert(line(start, way) =~= whole.skip(i + 1));
}

/// A list of elements, each one step from the one before it and with nothing after the last,
/// is what a walk from its first element meets.
pub proof fn lemma_listed_line<E: Element>(from: Option<E>, way: Step, listed: Seq<E>)
    requires
        from == (if listed.len() > 0 {
            Some(listed[0])
        } else {
            None
        }),
        forall|i: int|
            0 <= i < listed.len() ==> #[trigger] step(listed[i], way) == (if i + 1 < listed.len() {
                Some(listed[i + 1])
            } else {
                None
            }),
    ensures
        ends(from, way),
        line(from, way) == listed,
{
    assert forall|m: nat| m < listed.len() implies #[trigger] walk(from, way, m) == Some(
        listed[m as int],
    ) by {
        lemma_listed_walk(from, way, listed, m);
    }
    if listed.len() > 0 {
        let last = (listed.len() - 1) as nat;
        assert(walk(from, way, last) == Some(listed[last as int]));
        assert(step(listed[last as int], way) is None);
    }
    assert(ends_after(from, way, listed.len()));
    lemma_ends_once(from, way, listed.len());
    lemma_line(from, way);
    assert forall|i: int| 0 <= i < listed.len() implies line(from, way)[i] == listed[i] by {
        assert(walk(from, way, i as nat) == Some(line(from, way)[i]));
    }
    assert(line(from, way) =~= listed);
}

proof fn lemma_listed_walk<E: Element>(from: Option<E>, way: Step, listed: Seq<E>, m: nat)
    requires
        from == (if listed.len() > 0 {
            Some(listed[0])
        } else {
            None
        }),
        forall|i: int|
            0 <= i < listed.len() ==> #[trigger] step(listed[i], way) == (if i + 1 < listed.len() {
                Some(listed[i + 1])
            } else {
                None
            }),
        m < listed.len(),
    ensures
        walk(from, way, m) == Some(listed[m as int]),
    decreases m,
{
    if m > 0 {
        lemma_listed_walk(from, way, listed, (m - 1) as nat);
        assert(step(listed[m - 1], way) == Some(listed[m as int]));
    }
}

/// What is needed of an element to walk from it, and from each element that a walk to its
/// ancestors or preceding siblings meets.
pub proof fn lemma_finite_document<E: Element>(element: E)
    requires
        in_finite_document(element),
    ensures
        ends(element.parent(), Step::Parent),
        ends(element.prev_sibling(), Step::PrevSibling),
        ends(element.next_sibling(), Step::NextSibling),
        preceding(element).len() < u64::MAX,
        following(element).len() < u64::MAX,
        forall|i: int|
            0 <= i < ancestors(element).len() ==> in_finite_document(
                #[trigger] ancestors(element)[i],
            ),
        forall|i: int|
            0 <= i < preceding(element).len() ==> in_finite_document(
                #[trigger] preceding(element)[i],
            ),
{
    let elements = choose|elements: Set<E>| #[trigger]
        closed_and_finite(elements) && elements.contains(element);
    assert forall|i: int| 0 <= i < ancestors(element).len() implies in_finite_document(
        #[trigger] ancestors(element)[i],
    ) by {
        lemma_line_stays(elements, element, Step::Parent, i);
    }
    assert forall|i: int| 0 <= i < preceding(element).len() implies in_finite_document(
        #[trigger] preceding(element)[i],
    ) by {
        lemma_line_stays(elements, element, Step::PrevSibling, i);
    }
}

/// A walk to ancestors or preceding siblings does not leave a closed set.
pub proof fn lemma_line_stays<E: Element>(elements: Set<E>, element: E, way: Step, i: int)
    requires
        closed_and_finite(elements),
        elements.contains(element),
        way is Parent || way is PrevSibling,
        0 <= i < line(step(element, way), way).len(),
    ensures
        elements.contains(line(step(element, way), way)[i]),
    decreases i,
{
    let from = step(element, way);
    lemma_line_step(from, way, i);
    lemma_line(from, way);
    if i > 0 {
        lemma_line_stays(elements, element, way, i - 1);
        lemma_line_step(from, way, i - 1);
    } else {
        assert(walk(from, way, 0) == Some(line(from, way)[0]));
    }
}

/// In a tree the elements that a walk meets are in the tree. The ancestors of a preceding
/// sibling are those of the element, and what precedes it precedes the element.
pub proof fn lemma_tree<E: Element>(element: E)
    requires
        in_tree(element),
    ensures
        in_finite_document(element),
        forall|i: int|
            0 <= i < ancestors(element).len() ==> in_tree(#[trigger] ancestors(element)[i])
                && ancestors(ancestors(element)[i]) == ancestors(element).skip(i + 1),
        forall|i: int|
            0 <= i < preceding(element).len() ==> in_tree(#[trigger] preceding(element)[i])
                && ancestors(preceding(element)[i]) == ancestors(element) && preceding(
                preceding(element)[i],
            ) == preceding(element).skip(i + 1),
{
    let elements = choose|elements: Set<E>| #[trigger]
        closed_and_finite(elements) && siblings_share_parents(elements) && elements.contains(
            element,
        );
    assert(in_finite_document(element));
    lemma_finite_document(element);
    assert forall|i: int| 0 <= i < ancestors(element).len() implies in_tree(
        #[trigger] ancestors(element)[i],
    ) && ancestors(ancestors(element)[i]) == ancestors(element).skip(i + 1) by {
        lemma_line_stays(elements, element, Step::Parent, i);
        lemma_line_tail(element.parent(), Step::Parent, i);
    }
    assert forall|i: int| 0 <= i < preceding(element).len() implies in_tree(
        #[trigger] preceding(element)[i],
    ) && ancestors(preceding(element)[i]) == ancestors(element) && preceding(preceding(element)[i])
        == preceding(element).skip(i + 1) by {
        lemma_line_stays(elements, element, Step::PrevSibling, i);
        lemma_line_tail(element.prev_sibling(), Step::PrevSibling, i);
        lemma_same_parent(elements, element, i);
    }
}

/// A preceding sibling has the parent of the element.
proof fn lemma_same_parent<E: Element>(elements: Set<E>, element: E, i: int)
    requires
        closed_and_finite(elements),
        siblings_share_parents(elements),
        elements.contains(element),
        0 <= i < preceding(element).len(),
    ensures
        preceding(element)[i].parent() == element.parent(),
    decreases i,
{
    let from = element.prev_sibling();
    lemma_line_step(from, Step::PrevSibling, i);
    lemma_line(from, Step::PrevSibling);
    if i > 0 {
        lemma_same_parent(elements, element, i - 1);
        lemma_line_stays(elements, element, Step::PrevSibling, i - 1);
        lemma_line_step(from, Step::PrevSibling, i - 1);
    } else {
        assert(walk(from, Step::PrevSibling, 0) == Some(preceding(element)[0]));
    }
}

/// Where the elements at or above an element stand: their ancestors are among its
/// ancestors.
pub proof fn lemma_above<E: Element>(x: E, element: E) -> (m: int)
    requires
        in_tree(element),
        at_or_above(x, element),
    ensures
        in_tree(x),
        0 <= m <= ancestors(element).len(),
        ancestors(x) == ancestors(element).skip(m),
        at_or_before(x, element) ==> m == 0,
{
    lemma_tree(element);
    if at_or_before(x, element) {
        if x != element {
            let j = preceding(element).index_of(x);
            assert(preceding(element)[j] == x);
        }
        assert(ancestors(element).skip(0) =~= ancestors(element));
        0
    } else {
        let i = choose|i: int|
            0 <= i < ancestors(element).len() && at_or_before(x, #[trigger] ancestors(element)[i]);
        let y = ancestors(element)[i];
        lemma_tree(y);
        if x != y {
            let j = preceding(y).index_of(x);
            assert(preceding(y)[j] == x);
        }
        i + 1
    }
}

/// Whether a step from an element of a set leads to another element of the set, of lower
/// rank, or nowhere.
pub open spec fn falls<E: Element>(elements: Set<E>, way: Step, rank: spec_fn(E) -> nat) -> bool {
    forall|x: E| #[trigger]
        elements.contains(x) ==> (step(x, way) matches Some(y) ==> elements.contains(y) && rank(y)
            < rank(x))
}

/// A walk along which a rank falls comes to an end after no more elements than the rank of
/// the first allows.
proof fn lemma_ranked_walk_ends<E: Element>(
    elements: Set<E>,
    from: Option<E>,
    way: Step,
    rank: spec_fn(E) -> nat,
)
    requires
        falls(elements, way, rank),
        from is Some ==> elements.contains(from->0),
    ensures
        ends(from, way),
        from is None ==> line(from, way).len() == 0,
        from is Some ==> line(from, way).len() <= rank(from->0) + 1,
    decreases
            (if from is Some {
                rank(from->0) + 1
            } else {
                0
            }),
{
    if from is None {
        assert(walk(from, way, 0) is None);
        assert(ends_after(from, way, 0));
        lemma_ends_once(from, way, 0);
    } else {
        let x = from->0;
        let rest = step(x, way);
        lemma_ranked_walk_ends(elements, rest, way, rank);
        lemma_line(rest, way);
        let n = line(rest, way).len() + 1;
        assert(walk(from, way, 0) == from);
        assert forall|m: nat| 0 < m implies #[trigger] walk(from, way, m) == walk(
            rest,
            way,
            (m - 1) as nat,
        ) by {
            lemma_walk_shift(from, way, 0, (m - 1) as nat);
        }
        assert(ends_after(from, way, n));
        lemma_ends_once(from, way, n);
    }
}

/// An element is in a finite document where each of the three ways to go from an element
/// stays within a set and lowers a rank, and in a tree where, besides, siblings have the
/// same parent.
pub proof fn law_ranked_document_is_finite<E: Element>(
    elements: Set<E>,
    element: E,
    depth: spec_fn(E) -> nat,
    place: spec_fn(E) -> nat,
    place_from_end: spec_fn(E) -> nat,
)
    requires
        elements.contains(element),
        falls(elements, Step::Parent, depth),
        falls(elements, Step::PrevSibling, place),
        falls(elements, Step::NextSibling, place_from_end),
        forall|x: E|
            #![trigger elements.contains(x)]
            elements.contains(x) ==> place(x) < u64::MAX && place_from_end(x) < u64::MAX,
    ensures
        in_finite_document(element),
        siblings_share_parents(elements) ==> in_tree(element),
{
    assert forall|x: E| #[trigger] elements.contains(x) implies ends(x.parent(), Step::Parent)
        && ends(x.prev_sibling(), Step::PrevSibling) && ends(x.next_sibling(), Step::NextSibling)
        && preceding(x).len() < u64::MAX && following(x).len() < u64::MAX by {
        lemma_ranked_walk_ends(elements, x.parent(), Step::Parent, depth);
        lemma_ranked_walk_ends(elements, x.prev_sibling(), Step::PrevSibling, place);
        lemma_ranked_walk_ends(elements, x.next_sibling(), Step::NextSibling, place_from_end);
    }
    assert(closed_and_finite(elements));
}

} // verus!
