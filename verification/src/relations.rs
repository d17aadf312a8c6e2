//! What a match has depended on.

use vstd::prelude::*;

verus! {

/// Whether this element has matched any rule that is determined by a sibling (when
/// using the `+` or `~` combinators).
pub const AFFECTED_BY_SIBLINGS: u32 = 1 << 0;

/// Whether this element is affected by any state (i.e., non tree-structural
/// pseudo-class).
pub const AFFECTED_BY_STATE: u32 = 1 << 1;

/// Whether this element is affected by an ID selector.
pub const AFFECTED_BY_ID_SELECTOR: u32 = 1 << 2;

/// Whether this element is affected by a non-common style-affecting attribute.
pub const AFFECTED_BY_NON_COMMON_STYLE_AFFECTING_ATTRIBUTE_SELECTOR: u32 = 1 << 3;

/// Whether this element matches the :empty pseudo class.
pub const AFFECTED_BY_EMPTY: u32 = 1 << 4;

/// Whether this element has a style attribute. Computed externally.
pub const AFFECTED_BY_STYLE_ATTRIBUTE: u32 = 1 << 5;

/// Whether this element is affected by presentational hints. Computed externally.
pub const AFFECTED_BY_PRESENTATIONAL_HINTS: u32 = 1 << 6;

/// Whether this element has pseudo-element styles. Computed externally.
pub const AFFECTED_BY_PSEUDO_ELEMENTS: u32 = 1 << 7;

/// :nth-of-type
pub const AFFECTED_BY_NTH_OF_TYPE: u32 = 1 << 8;

/// :nth-last-of-type
pub const AFFECTED_BY_NTH_LAST_OF_TYPE: u32 = 1 << 9;

/// :first-of-type
pub const AFFECTED_BY_FIRST_OF_TYPE: u32 = 1 << 10;

/// :last-of-type
pub const AFFECTED_BY_LAST_OF_TYPE: u32 = 1 << 11;

/// :only-of-type
pub const AFFECTED_BY_ONLY_OF_TYPE: u32 = 1 << 12;

/// :nth-child
pub const AFFECTED_BY_NTH_CHILD: u32 = 1 << 13;

/// :nth-last-child
pub const AFFECTED_BY_NTH_LAST_CHILD: u32 = 1 << 14;

/// :first-child
pub const AFFECTED_BY_FIRST_CHILD: u32 = 1 << 15;

/// :last-child
pub const AFFECTED_BY_LAST_CHILD: u32 = 1 << 16;

/// :only-child
pub const AFFECTED_BY_ONLY_CHILD: u32 = 1 << 17;

/// Set of flags that determine the different kind of elements affected by the selector
/// matching process.
///
/// This is used to implement efficient sharing.
#[derive(Clone, Copy, Debug, PartialEq, Eq, Structural)]
pub struct StyleRelations {
    bits: u32,
}

impl View for StyleRelations {
    type V = u32;

    closed spec fn view(&self) -> u32 {
        self.bits
    }
}

/// Whether a flag is set that speaks of where an element stands among its siblings.
pub open spec fn speaks_of_child_index(bits: u32) -> bool {
    ||| bits & AFFECTED_BY_NTH_OF_TYPE != 0
    ||| bits & AFFECTED_BY_NTH_LAST_OF_TYPE != 0
    ||| bits & AFFECTED_BY_FIRST_OF_TYPE != 0
    ||| bits & AFFECTED_BY_LAST_OF_TYPE != 0
    ||| bits & AFFECTED_BY_NTH_CHILD != 0
    ||| bits & AFFECTED_BY_NTH_LAST_CHILD != 0
    ||| bits & AFFECTED_BY_FIRST_CHILD != 0
    ||| bits & AFFECTED_BY_LAST_CHILD != 0
    ||| bits & AFFECTED_BY_ONLY_OF_TYPE != 0
    ||| bits & AFFECTED_BY_ONLY_CHILD != 0
}

impl StyleRelations {
    /// No flags.
    pub fn empty() -> (r: StyleRelations)
        ensures
            r@ == 0,
    {
        StyleRelations { bits: 0 }
    }

    /// The flags as the bits of a number.
    pub fn bits(&self) -> (r: u32)
        ensures
            r == self@,
    {
        self.bits
    }

    /// Sets all of the given flags.
    pub fn insert(&mut self, flags: u32)
        ensures
            final(self)@ == old(self)@ | flags,
    {
        self.bits = self.bits | flags;
    }

    /// Whether all of the given flags are set.
    pub fn contains(&self, flags: u32) -> (r: bool)
        ensures
            r == (self@ & flags == flags),
    {
        self.bits & flags == flags
    }

    /// Whether any of the given flags is set.
    pub fn intersects(&self, flags: u32) -> (r: bool)
        ensures
            r == (self@ & flags != 0),
    {
        self.bits & flags != 0
    }

    /// Whether the match depended on where the element stands among its siblings.
    pub fn affected_by_child_index(&self) -> (r: bool)
        ensures
            r == speaks_of_child_index(self@),
            r == (self@ & (AFFECTED_BY_NTH_OF_TYPE | AFFECTED_BY_NTH_LAST_OF_TYPE
                | AFFECTED_BY_FIRST_OF_TYPE | AFFECTED_BY_LAST_OF_TYPE | AFFECTED_BY_NTH_CHILD
                | AFFECTED_BY_NTH_LAST_CHILD | AFFECTED_BY_FIRST_CHILD | AFFECTED_BY_LAST_CHILD
                | AFFECTED_BY_ONLY_OF_TYPE | AFFECTED_BY_ONLY_CHILD) != 0),
    {
        let bits: u32 = self.bits;
        assert((bits & (AFFECTED_BY_NTH_OF_TYPE | AFFECTED_BY_NTH_LAST_OF_TYPE
            | AFFECTED_BY_FIRST_OF_TYPE | AFFECTED_BY_LAST_OF_TYPE | AFFECTED_BY_NTH_CHILD
            | AFFECTED_BY_NTH_LAST_CHILD | AFFECTED_BY_FIRST_CHILD | AFFECTED_BY_LAST_CHILD
            | AFFECTED_BY_ONLY_OF_TYPE | AFFECTED_BY_ONLY_CHILD) != 0) == speaks_of_child_index(
            bits,
        )) by (bit_vector);
        self.intersects(
            AFFECTED_BY_NTH_OF_TYPE | AFFECTED_BY_NTH_LAST_OF_TYPE | AFFECTED_BY_FIRST_OF_TYPE
                | AFFECTED_BY_LAST_OF_TYPE | AFFECTED_BY_NTH_CHILD | AFFECTED_BY_NTH_LAST_CHILD
                | AFFECTED_BY_FIRST_CHILD | AFFECTED_BY_LAST_CHILD | AFFECTED_BY_ONLY_OF_TYPE
                | AFFECTED_BY_ONLY_CHILD,
        )
    }
}

/// The flags of the ten conditions on the place of an element, which are the highest, decide
/// alone whether a child index matters: it does where any of them is set, and the others do
/// not change that.
pub proof fn law_child_index_is_of_the_places(bits: u32, others: u32)
    requires
        others < AFFECTED_BY_NTH_OF_TYPE,
    ensures
        speaks_of_child_index(bits) == (bits & 0x3ff00 != 0),
        speaks_of_child_index(bits | others) == speaks_of_child_index(bits),
        !speaks_of_child_index(others),
{
    assert(speaks_of_child_index(bits) == (bits & 0x3ff00 != 0)) by (bit_vector);
    assert(speaks_of_child_index(bits | others) == speaks_of_child_index(bits)
        && !speaks_of_child_index(others)) by (bit_vector)
        requires
            others < AFFECTED_BY_NTH_OF_TYPE,
    ;
}

} // verus!
