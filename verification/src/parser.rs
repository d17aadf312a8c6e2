//! The parsed form of selectors.

use crate::bloom::BloomHash;
use std::sync::Arc;
use vstd::prelude::*;

verus! {

/// A name that can be compared with another of its kind.
pub trait Atom: BloomHash {
    /// Whether two names are the same.
    spec fn same(&self, other: &Self) -> bool;

    /// Compares two names.
    fn is_same(&self, other: &Self) -> (r: bool)
        ensures
            r == self.same(other),
    ;
}

/// Interned names are the same where their numbers are.
impl Atom for u64 {
    open spec fn same(&self, other: &u64) -> bool {
        *self == *other
    }

    fn is_same(&self, other: &u64) -> (r: bool)
        ensures
            r == (*self == *other),
    {
        *self == *other
    }
}

/// The names and values that selectors are made of.
pub trait SelectorImpl: Sized {
    /// What picks an attribute: its name, and the namespaces it may be in.
    type AttrSelector;

    type AttrValue;

    type Identifier: Atom;

    type ClassName: BloomHash;

    type LocalName: Atom;

    type NamespaceUrl: Atom;

    /// The pseudo-classes that do not speak of the structure of the document.
    type NonTSPseudoClass;

    type PseudoElement;

    /// Whether elements may share a style though an attribute was found on one of them.
    spec fn attr_exists_shareable(attr: Self::AttrSelector) -> bool;

    /// Whether elements may share a style though an attribute of one of them was found to
    /// have a value.
    spec fn attr_equals_shareable(attr: Self::AttrSelector, value: Self::AttrValue) -> bool;

    fn attr_exists_selector_is_shareable(attr: &Self::AttrSelector) -> (r: bool)
        ensures
            r == Self::attr_exists_shareable(*attr),
    ;

    fn attr_equals_selector_is_shareable(
        attr: &Self::AttrSelector,
        value: &Self::AttrValue,
    ) -> (r: bool)
        ensures
            r == Self::attr_equals_shareable(*attr, *value),
    ;
}

/// How the elements that two neighbouring compound selectors match stand to each other.
#[derive(Clone, Copy, Debug, PartialEq, Eq, Structural)]
pub enum Combinator {
    /// `>`
    Child,
    /// a space
    Descendant,
    /// `+`
    NextSibling,
    /// `~`
    LaterSibling,
}

/// How the value of an attribute is compared.
#[derive(Clone, Copy, Debug, PartialEq, Eq, Structural)]
pub enum CaseSensitivity {
    CaseSensitive,
    CaseInsensitive,
}

/// A local name, as written and in lower case.
pub struct LocalName<Impl: SelectorImpl> {
    pub name: Impl::LocalName,
    pub lower_name: Impl::LocalName,
}

/// A namespace.
pub struct Namespace<Impl: SelectorImpl> {
    pub url: Impl::NamespaceUrl,
}

/// A condition on one element.
pub enum SimpleSelector<Impl: SelectorImpl> {
    ID(Impl::Identifier),
    Class(Impl::ClassName),
    LocalName(LocalName<Impl>),
    Namespace(Namespace<Impl>),
    /// `[foo]`
    AttrExists(Impl::AttrSelector),
    /// `[foo=bar]`
    AttrEqual(Impl::AttrSelector, Impl::AttrValue, CaseSensitivity),
    /// `[foo~=bar]`
    AttrIncludes(Impl::AttrSelector, Impl::AttrValue),
    /// `[foo|=bar]`
    AttrDashMatch(Impl::AttrSelector, Impl::AttrValue),
    /// `[foo^=bar]`
    AttrPrefixMatch(Impl::AttrSelector, Impl::AttrValue),
    /// `[foo*=bar]`
    AttrSubstringMatch(Impl::AttrSelector, Impl::AttrValue),
    /// `[foo$=bar]`
    AttrSuffixMatch(Impl::AttrSelector, Impl::AttrValue),
    /// `:not(...)`
    Negation(Vec<Arc<ComplexSelector<Impl>>>),
    FirstChild,
    LastChild,
    OnlyChild,
    Root,
    Empty,
    /// The counts `a` and `b` of `an+b`.
    NthChild(i32, i32),
    NthLastChild(i32, i32),
    NthOfType(i32, i32),
    NthLastOfType(i32, i32),
    FirstOfType,
    LastOfType,
    OnlyOfType,
    NonTSPseudoClass(Impl::NonTSPseudoClass),
}

/// Compound selectors joined by combinators, the rightmost compound selector first.
pub struct ComplexSelector<Impl: SelectorImpl> {
    /// The conditions on the element itself.
    pub compound_selector: Vec<SimpleSelector<Impl>>,
    /// What stands to the left, and the combinator in between.
    pub next: Option<(Arc<ComplexSelector<Impl>>, Combinator)>,
}

/// A complex selector, and the pseudo-element that it speaks of, if any.
pub struct Selector<Impl: SelectorImpl> {
    pub complex_selector: Arc<ComplexSelector<Impl>>,
    pub pseudo_element: Option<Impl::PseudoElement>,
}

} // verus!
