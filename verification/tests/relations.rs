use selectors::relations::{
    StyleRelations, AFFECTED_BY_EMPTY, AFFECTED_BY_FIRST_CHILD, AFFECTED_BY_FIRST_OF_TYPE,
    AFFECTED_BY_ID_SELECTOR, AFFECTED_BY_LAST_CHILD, AFFECTED_BY_LAST_OF_TYPE,
    AFFECTED_BY_NON_COMMON_STYLE_AFFECTING_ATTRIBUTE_SELECTOR, AFFECTED_BY_NTH_CHILD,
    AFFECTED_BY_NTH_LAST_CHILD, AFFECTED_BY_NTH_LAST_OF_TYPE, AFFECTED_BY_NTH_OF_TYPE,
    AFFECTED_BY_ONLY_CHILD, AFFECTED_BY_ONLY_OF_TYPE, AFFECTED_BY_PRESENTATIONAL_HINTS,
    AFFECTED_BY_PSEUDO_ELEMENTS, AFFECTED_BY_SIBLINGS, AFFECTED_BY_STATE,
    AFFECTED_BY_STYLE_ATTRIBUTE,
};

fn with(flag: u32) -> StyleRelations {
    let mut relations = StyleRelations::empty();
    relations.insert(flag);
    relations
}

#[test]
fn flags_are_the_bits_in_order() {
    let flags = [
        AFFECTED_BY_SIBLINGS,
        AFFECTED_BY_STATE,
        AFFECTED_BY_ID_SELECTOR,
        AFFECTED_BY_NON_COMMON_STYLE_AFFECTING_ATTRIBUTE_SELECTOR,
        AFFECTED_BY_EMPTY,
        AFFECTED_BY_STYLE_ATTRIBUTE,
        AFFECTED_BY_PRESENTATIONAL_HINTS,
        AFFECTED_BY_PSEUDO_ELEMENTS,
        AFFECTED_BY_NTH_OF_TYPE,
        AFFECTED_BY_NTH_LAST_OF_TYPE,
        AFFECTED_BY_FIRST_OF_TYPE,
        AFFECTED_BY_LAST_OF_TYPE,
        AFFECTED_BY_ONLY_OF_TYPE,
        AFFECTED_BY_NTH_CHILD,
        AFFECTED_BY_NTH_LAST_CHILD,
        AFFECTED_BY_FIRST_CHILD,
        AFFECTED_BY_LAST_CHILD,
        AFFECTED_BY_ONLY_CHILD,
    ];
    for (i, flag) in flags.iter().enumerate() {
        assert_eq!(*flag, 1u32 << i);
    }
}

#[test]
fn child_index_flags_affect_child_index() {
    assert!(!StyleRelations::empty().affected_by_child_index());
    for flag in [
        AFFECTED_BY_NTH_OF_TYPE,
        AFFECTED_BY_NTH_LAST_OF_TYPE,
        AFFECTED_BY_FIRST_OF_TYPE,
        AFFECTED_BY_LAST_OF_TYPE,
        AFFECTED_BY_NTH_CHILD,
        AFFECTED_BY_NTH_LAST_CHILD,
        AFFECTED_BY_FIRST_CHILD,
        AFFECTED_BY_LAST_CHILD,
        AFFECTED_BY_ONLY_OF_TYPE,
        AFFECTED_BY_ONLY_CHILD,
    ] {
        assert!(with(flag).affected_by_child_index());
        assert!(with(flag | AFFECTED_BY_STATE).affected_by_child_index());
    }
}

#[test]
fn other_flags_do_not_affect_child_index() {
    for flag in [
        AFFECTED_BY_SIBLINGS,
        AFFECTED_BY_STATE,
        AFFECTED_BY_ID_SELECTOR,
        AFFECTED_BY_NON_COMMON_STYLE_AFFECTING_ATTRIBUTE_SELECTOR,
        AFFECTED_BY_EMPTY,
        AFFECTED_BY_STYLE_ATTRIBUTE,
        AFFECTED_BY_PRESENTATIONAL_HINTS,
        AFFECTED_BY_PSEUDO_ELEMENTS,
    ] {
        assert!(!with(flag).affected_by_child_index());
    }
}

#[test]
fn flags_are_tested_all_or_any() {
    let relations = with(AFFECTED_BY_STATE | AFFECTED_BY_EMPTY);
    assert_eq!(relations.bits(), 0b10010);
    assert!(relations.contains(AFFECTED_BY_STATE));
    assert!(relations.contains(AFFECTED_BY_STATE | AFFECTED_BY_EMPTY));
    assert!(!relations.contains(AFFECTED_BY_STATE | AFFECTED_BY_SIBLINGS));
    assert!(relations.intersects(AFFECTED_BY_STATE | AFFECTED_BY_SIBLINGS));
    assert!(!relations.intersects(AFFECTED_BY_SIBLINGS));
}

#[test]
fn inserting_keeps_what_is_set() {
    let mut relations = with(AFFECTED_BY_STATE);
    relations.insert(AFFECTED_BY_STATE);
    relations.insert(AFFECTED_BY_EMPTY);
    assert_eq!(relations.bits(), AFFECTED_BY_STATE | AFFECTED_BY_EMPTY);
}
