use selectors::bloom::{BloomFilter, BloomHash};
use selectors::matching::{
    can_fast_reject, matches_complex_selector, matches_complex_selector_internal,
    matches_first_child, matches_generic_nth_child, matches_last_child, matches_simple_selector,
    SelectorMatchingResult, StyleRelations, AFFECTED_BY_EMPTY, AFFECTED_BY_FIRST_CHILD,
    AFFECTED_BY_FIRST_OF_TYPE, AFFECTED_BY_ID_SELECTOR, AFFECTED_BY_LAST_CHILD,
    AFFECTED_BY_LAST_OF_TYPE, AFFECTED_BY_NON_COMMON_STYLE_AFFECTING_ATTRIBUTE_SELECTOR,
    AFFECTED_BY_NTH_CHILD, AFFECTED_BY_NTH_LAST_CHILD, AFFECTED_BY_NTH_LAST_OF_TYPE,
    AFFECTED_BY_NTH_OF_TYPE, AFFECTED_BY_ONLY_CHILD, AFFECTED_BY_ONLY_OF_TYPE,
    AFFECTED_BY_PRESENTATIONAL_HINTS, AFFECTED_BY_PSEUDO_ELEMENTS, AFFECTED_BY_SIBLINGS,
    AFFECTED_BY_STATE, AFFECTED_BY_STYLE_ATTRIBUTE, RECOMMENDED_SELECTOR_BLOOM_FILTER_SIZE,
};
use selectors::parser::{
    Atom, CaseSensitivity, Combinator, ComplexSelector, LocalName, Namespace, Selector,
    SelectorImpl, SimpleSelector,
};
use selectors::tree::Element;
use std::sync::Arc;

const ATTRIBUTE: u32 = AFFECTED_BY_NON_COMMON_STYLE_AFFECTING_ATTRIBUTE_SELECTOR;

#[derive(Clone, Debug, PartialEq)]
struct Name(String);

// The specification functions of the traits have no use at run time: their bodies are never
// reached.

impl BloomHash for Name {
    fn hash(&self) -> u32 {
        unreachable!()
    }

    fn bloom_hash(&self) -> u32 {
        let mut hash: u32 = 0x811c_9dc5;
        for byte in self.0.bytes() {
            hash = (hash ^ u32::from(byte)).wrapping_mul(0x0100_0193);
        }
        hash
    }
}

impl Atom for Name {
    fn same(&self, _: &Name) -> bool {
        unreachable!()
    }

    fn is_same(&self, other: &Name) -> bool {
        self.0 == other.0
    }
}

fn name(text: &str) -> Name {
    Name(text.to_string())
}

struct Strings;

impl SelectorImpl for Strings {
    type AttrSelector = String;
    type AttrValue = String;
    type Identifier = Name;
    type ClassName = Name;
    type LocalName = Name;
    type NamespaceUrl = Name;
    type NonTSPseudoClass = String;
    type PseudoElement = String;

    fn attr_exists_shareable(_: String) -> bool {
        unreachable!()
    }

    fn attr_equals_shareable(_: String, _: String) -> bool {
        unreachable!()
    }

    fn attr_exists_selector_is_shareable(attr: &String) -> bool {
        attr == "hidden"
    }

    fn attr_equals_selector_is_shareable(attr: &String, value: &String) -> bool {
        attr == "dir" && value == "ltr"
    }
}

struct NodeData {
    parent: Option<usize>,
    prev: Option<usize>,
    next: Option<usize>,
    local_name: Name,
    namespace: Name,
    id: Option<Name>,
    classes: Vec<Name>,
    attrs: Vec<(String, String)>,
    states: Vec<String>,
    html: bool,
    has_children: bool,
}

struct Document {
    nodes: Vec<NodeData>,
}

impl Document {
    fn new() -> Document {
        Document { nodes: Vec::new() }
    }

    /// Appends an element as the last child of its parent.
    fn add(&mut self, parent: Option<usize>, local_name: &str) -> usize {
        let index = self.nodes.len();
        let mut prev = None;
        if let Some(p) = parent {
            self.nodes[p].has_children = true;
            for (i, node) in self.nodes.iter().enumerate() {
                if node.parent == parent {
                    prev = Some(i);
                }
            }
        }
        if let Some(p) = prev {
            self.nodes[p].next = Some(index);
        }
        self.nodes.push(NodeData {
            parent,
            prev,
            next: None,
            local_name: name(local_name),
            namespace: name("html"),
            id: None,
            classes: Vec::new(),
            attrs: Vec::new(),
            states: Vec::new(),
            html: false,
            has_children: false,
        });
        index
    }

    fn node(&self, index: usize) -> Node<'_> {
        Node { document: self, index }
    }
}

#[derive(Clone, Copy)]
struct Node<'a> {
    document: &'a Document,
    index: usize,
}

impl<'a> Node<'a> {
    fn data(&self) -> &'a NodeData {
        &self.document.nodes[self.index]
    }

    fn at(&self, index: Option<usize>) -> Option<Node<'a>> {
        match index {
            None => None,
            Some(index) => Some(self.document.node(index)),
        }
    }

    fn attr(&self, attr: &str) -> Option<&'a str> {
        for (key, value) in &self.data().attrs {
            if key == attr {
                return Some(value);
            }
        }
        None
    }
}

impl<'a> Element for Node<'a> {
    type Impl = Strings;

    fn parent(&self) -> Option<Node<'a>> {
        unreachable!()
    }

    fn prev_sibling(&self) -> Option<Node<'a>> {
        unreachable!()
    }

    fn next_sibling(&self) -> Option<Node<'a>> {
        unreachable!()
    }

    fn html_in_html_document(&self) -> bool {
        unreachable!()
    }

    fn local_name(&self) -> Name {
        unreachable!()
    }

    fn namespace(&self) -> Name {
        unreachable!()
    }

    fn id(&self) -> Option<Name> {
        unreachable!()
    }

    fn in_class(&self, _: Name) -> bool {
        unreachable!()
    }

    fn attr_has(&self, _: String) -> bool {
        unreachable!()
    }

    fn attr_equals(&self, _: String, _: String) -> bool {
        unreachable!()
    }

    fn attr_equals_ignore_ascii_case(&self, _: String, _: String) -> bool {
        unreachable!()
    }

    fn attr_includes(&self, _: String, _: String) -> bool {
        unreachable!()
    }

    fn attr_dash(&self, _: String, _: String) -> bool {
        unreachable!()
    }

    fn attr_prefix(&self, _: String, _: String) -> bool {
        unreachable!()
    }

    fn attr_substring(&self, _: String, _: String) -> bool {
        unreachable!()
    }

    fn attr_suffix(&self, _: String, _: String) -> bool {
        unreachable!()
    }

    fn in_state(&self, _: String) -> bool {
        unreachable!()
    }

    fn root(&self) -> bool {
        unreachable!()
    }

    fn empty(&self) -> bool {
        unreachable!()
    }

    fn parent_element(&self) -> Option<Node<'a>> {
        self.at(self.data().parent)
    }

    fn prev_sibling_element(&self) -> Option<Node<'a>> {
        self.at(self.data().prev)
    }

    fn next_sibling_element(&self) -> Option<Node<'a>> {
        self.at(self.data().next)
    }

    fn is_html_element_in_html_document(&self) -> bool {
        self.data().html
    }

    fn get_local_name(&self) -> &Name {
        &self.data().local_name
    }

    fn get_namespace(&self) -> &Name {
        &self.data().namespace
    }

    fn get_id(&self) -> Option<Name> {
        self.data().id.clone()
    }

    fn has_class(&self, name: &Name) -> bool {
        self.data().classes.contains(name)
    }

    fn match_attr_has(&self, attr: &String) -> bool {
        self.attr(attr).is_some()
    }

    fn match_attr_equals(&self, attr: &String, value: &String) -> bool {
        self.attr(attr) == Some(value.as_str())
    }

    fn match_attr_equals_ignore_ascii_case(&self, attr: &String, value: &String) -> bool {
        self.attr(attr).map_or(false, |v| v.eq_ignore_ascii_case(value))
    }

    fn match_attr_includes(&self, attr: &String, value: &String) -> bool {
        self.attr(attr).map_or(false, |v| v.split(' ').any(|word| word == value))
    }

    fn match_attr_dash(&self, attr: &String, value: &String) -> bool {
        let dashed = format!("{}-", value);
        self.attr(attr).map_or(false, |v| v == value || v.starts_with(&dashed))
    }

    fn match_attr_prefix(&self, attr: &String, value: &String) -> bool {
        self.attr(attr).map_or(false, |v| v.starts_with(value.as_str()))
    }

    fn match_attr_substring(&self, attr: &String, value: &String) -> bool {
        self.attr(attr).map_or(false, |v| v.contains(value.as_str()))
    }

    fn match_attr_suffix(&self, attr: &String, value: &String) -> bool {
        self.attr(attr).map_or(false, |v| v.ends_with(value.as_str()))
    }

    fn match_non_ts_pseudo_class(&self, pc: &String) -> bool {
        self.data().states.contains(pc)
    }

    fn is_root(&self) -> bool {
        self.data().parent.is_none()
    }

    fn is_empty(&self) -> bool {
        !self.data().has_children
    }
}

type Simple = SimpleSelector<Strings>;
type Complex = ComplexSelector<Strings>;

fn local(text: &str) -> Simple {
    SimpleSelector::LocalName(LocalName {
        name: name(text),
        lower_name: name(&text.to_ascii_lowercase()),
    })
}

fn class(text: &str) -> Simple {
    SimpleSelector::Class(name(text))
}

fn compound(simple: Vec<Simple>) -> Complex {
    ComplexSelector { compound_selector: simple, next: None }
}

fn joined(left: Complex, combinator: Combinator, simple: Vec<Simple>) -> Complex {
    ComplexSelector { compound_selector: simple, next: Some((Arc::new(left), combinator)) }
}

/// Local names with combinators between them, such as `"a > b c ~ d"`.
fn chain(text: &str) -> Complex {
    let mut words = text.split_ascii_whitespace();
    let mut selector = compound(vec![local(words.next().unwrap())]);
    let mut combinator = Combinator::Descendant;
    for word in words {
        match word {
            ">" => combinator = Combinator::Child,
            "+" => combinator = Combinator::NextSibling,
            "~" => combinator = Combinator::LaterSibling,
            _ => {
                selector = joined(selector, combinator, vec![local(word)]);
                combinator = Combinator::Descendant;
            }
        }
    }
    selector
}

fn test_simple(selector: &Simple, node: &Node<'_>) -> (bool, u32) {
    let mut relations = StyleRelations::empty();
    let r = matches_simple_selector(selector, node, None, &mut relations);
    (r, relations.bits())
}

fn test_complex(selector: &Complex, node: &Node<'_>) -> (bool, u32) {
    let mut relations = StyleRelations::empty();
    let r = matches_complex_selector(selector, node, None, &mut relations);
    (r, relations.bits())
}

fn status(selector: &Complex, node: &Node<'_>, bf: Option<&BloomFilter>) -> SelectorMatchingResult {
    matches_complex_selector_internal(selector, node, bf, &mut StyleRelations::empty())
}

/// A root with `count` children named in turn after the given names.
fn family(names: &[&str], count: usize) -> Document {
    let mut document = Document::new();
    let root = document.add(None, "root");
    for i in 0..count {
        document.add(Some(root), names[i % names.len()]);
    }
    document
}

#[test]
fn local_names() {
    let mut document = family(&["DIV"], 1);
    assert_eq!(test_simple(&local("DIV"), &document.node(1)), (true, 0));
    assert_eq!(test_simple(&local("div"), &document.node(1)), (false, 0));
    document.nodes[1].html = true;
    assert_eq!(test_simple(&local("DIV"), &document.node(1)), (false, 0));
    document.nodes[1].local_name = name("div");
    assert_eq!(test_simple(&local("DIV"), &document.node(1)), (true, 0));
    assert_eq!(test_simple(&local("p"), &document.node(1)), (false, 0));
}

#[test]
fn namespaces() {
    let document = family(&["a"], 1);
    let html = SimpleSelector::Namespace(Namespace { url: name("html") });
    let svg = SimpleSelector::Namespace(Namespace { url: name("svg") });
    assert_eq!(test_simple(&html, &document.node(1)), (true, 0));
    assert_eq!(test_simple(&svg, &document.node(1)), (false, 0));
}

#[test]
fn identifiers() {
    let mut document = family(&["a"], 2);
    document.nodes[1].id = Some(name("x"));
    let x = SimpleSelector::ID(name("x"));
    let y = SimpleSelector::ID(name("y"));
    assert_eq!(test_simple(&x, &document.node(1)), (true, AFFECTED_BY_ID_SELECTOR));
    assert_eq!(test_simple(&y, &document.node(1)), (false, 0));
    assert_eq!(test_simple(&x, &document.node(2)), (false, 0));
}

#[test]
fn classes() {
    let mut document = family(&["a"], 1);
    document.nodes[1].classes = vec![name("big"), name("red")];
    assert_eq!(test_simple(&class("red"), &document.node(1)), (true, 0));
    assert_eq!(test_simple(&class("blue"), &document.node(1)), (false, 0));
}

#[test]
fn attributes() {
    let mut document = family(&["a"], 1);
    document.nodes[1].attrs = vec![
        ("hidden".to_string(), "".to_string()),
        ("lang".to_string(), "en-US".to_string()),
        ("rel".to_string(), "next last".to_string()),
        ("dir".to_string(), "ltr".to_string()),
    ];
    let node = document.node(1);
    let attr = |text: &str| text.to_string();
    let cases: Vec<(Simple, bool, u32)> = vec![
        (SimpleSelector::AttrExists(attr("lang")), true, ATTRIBUTE),
        (SimpleSelector::AttrExists(attr("hidden")), true, 0),
        (SimpleSelector::AttrExists(attr("title")), false, 0),
        (
            SimpleSelector::AttrEqual(attr("lang"), attr("en-US"), CaseSensitivity::CaseSensitive),
            true,
            ATTRIBUTE,
        ),
        (
            SimpleSelector::AttrEqual(attr("lang"), attr("en-us"), CaseSensitivity::CaseSensitive),
            false,
            0,
        ),
        (
            SimpleSelector::AttrEqual(attr("lang"), attr("en-us"), CaseSensitivity::CaseInsensitive),
            true,
            ATTRIBUTE,
        ),
        (
            SimpleSelector::AttrEqual(attr("dir"), attr("ltr"), CaseSensitivity::CaseSensitive),
            true,
            0,
        ),
        (
            SimpleSelector::AttrEqual(attr("dir"), attr("LTR"), CaseSensitivity::CaseInsensitive),
            true,
            ATTRIBUTE,
        ),
        (SimpleSelector::AttrIncludes(attr("rel"), attr("last")), true, ATTRIBUTE),
        (SimpleSelector::AttrIncludes(attr("rel"), attr("las")), false, 0),
        (SimpleSelector::AttrDashMatch(attr("lang"), attr("en")), true, ATTRIBUTE),
        (SimpleSelector::AttrDashMatch(attr("lang"), attr("e")), false, 0),
        (SimpleSelector::AttrPrefixMatch(attr("lang"), attr("en-")), true, ATTRIBUTE),
        (SimpleSelector::AttrPrefixMatch(attr("lang"), attr("US")), false, 0),
        (SimpleSelector::AttrSubstringMatch(attr("lang"), attr("-U")), true, ATTRIBUTE),
        (SimpleSelector::AttrSubstringMatch(attr("lang"), attr("fr")), false, 0),
        (SimpleSelector::AttrSuffixMatch(attr("lang"), attr("US")), true, ATTRIBUTE),
        (SimpleSelector::AttrSuffixMatch(attr("lang"), attr("en")), false, 0),
    ];
    for (selector, matched, flags) in &cases {
        assert_eq!(test_simple(selector, &node), (*matched, *flags));
    }
}

#[test]
fn states_roots_and_empty_elements() {
    let mut document = family(&["a"], 1);
    document.nodes[1].states = vec!["hover".to_string()];
    let hover = SimpleSelector::NonTSPseudoClass("hover".to_string());
    let focus = SimpleSelector::NonTSPseudoClass("focus".to_string());
    assert_eq!(test_simple(&hover, &document.node(1)), (true, AFFECTED_BY_STATE));
    assert_eq!(test_simple(&focus, &document.node(1)), (false, 0));
    assert_eq!(test_simple(&SimpleSelector::Root, &document.node(0)), (true, 0));
    assert_eq!(test_simple(&SimpleSelector::Root, &document.node(1)), (false, 0));
    assert_eq!(test_simple(&SimpleSelector::Empty, &document.node(0)), (false, 0));
    assert_eq!(test_simple(&SimpleSelector::Empty, &document.node(1)), (true, AFFECTED_BY_EMPTY));
}

#[test]
fn children_by_position() {
    let document = family(&["a"], 3);
    let first = SimpleSelector::FirstChild;
    let last = SimpleSelector::LastChild;
    let only = SimpleSelector::OnlyChild;
    assert_eq!(test_simple(&first, &document.node(1)), (true, AFFECTED_BY_FIRST_CHILD));
    assert_eq!(test_simple(&first, &document.node(2)), (false, 0));
    assert_eq!(test_simple(&last, &document.node(3)), (true, AFFECTED_BY_LAST_CHILD));
    assert_eq!(test_simple(&last, &document.node(2)), (false, 0));
    assert_eq!(test_simple(&only, &document.node(1)), (false, 0));
    assert_eq!(test_simple(&only, &document.node(3)), (false, 0));
    // The root has no parent, and counts all the same.
    assert_eq!(test_simple(&only, &document.node(0)), (true, AFFECTED_BY_ONLY_CHILD));
    assert!(matches_first_child(&document.node(0)));
    assert!(matches_last_child(&document.node(0)));
}

#[test]
fn first_and_last_child_are_number_one() {
    let document = family(&["a", "b"], 4);
    for i in 0..5 {
        let node = document.node(i);
        assert_eq!(
            matches_first_child(&node),
            matches_generic_nth_child(&node, 0, 1, false, false)
        );
        assert_eq!(
            matches_last_child(&node),
            matches_generic_nth_child(&node, 0, 1, false, true)
        );
    }
}

#[test]
fn nth_child_takes_the_values_of_the_formula() {
    let document = family(&["a"], 8);
    let expected: [(i32, i32, &[usize]); 13] = [
        (2, 1, &[1, 3, 5, 7]),
        (2, 0, &[2, 4, 6, 8]),
        (2, -1, &[1, 3, 5, 7]),
        (3, 2, &[2, 5, 8]),
        (0, 4, &[4]),
        (0, 0, &[]),
        (0, -3, &[]),
        (1, 0, &[1, 2, 3, 4, 5, 6, 7, 8]),
        (1, 6, &[6, 7, 8]),
        (-1, 3, &[1, 2, 3]),
        (-2, 7, &[1, 3, 5, 7]),
        (-1, -1, &[]),
        (10, 9, &[]),
    ];
    for (a, b, places) in expected {
        for place in 1..9 {
            let node = document.node(place);
            let counted = places.contains(&place);
            let flags = if counted { AFFECTED_BY_NTH_CHILD } else { 0 };
            assert_eq!(test_simple(&SimpleSelector::NthChild(a, b), &node), (counted, flags));
            let node = document.node(9 - place);
            let flags = if counted { AFFECTED_BY_NTH_LAST_CHILD } else { 0 };
            assert_eq!(test_simple(&SimpleSelector::NthLastChild(a, b), &node), (counted, flags));
        }
    }
}

#[test]
fn nth_child_at_the_ends_of_the_range() {
    let document = family(&["a"], 2);
    let node = document.node(2);
    assert!(!matches_generic_nth_child(&node, i32::MIN, i32::MIN, false, false));
    assert!(matches_generic_nth_child(&node, 1, i32::MIN, false, false));
    assert!(!matches_generic_nth_child(&node, -1, i32::MIN, false, false));
    assert!(matches_generic_nth_child(&node, -1, i32::MAX, false, false));
    assert!(!matches_generic_nth_child(&node, i32::MAX, i32::MAX, false, false));
    assert!(matches_generic_nth_child(&node, i32::MAX, 2, false, false));
    assert!(matches_generic_nth_child(&node, i32::MIN, 2, false, false));
}

#[test]
fn children_by_type() {
    // a b a b a
    let document = family(&["a", "b"], 5);
    let nth = SimpleSelector::NthOfType(0, 2);
    let nth_last = SimpleSelector::NthLastOfType(0, 2);
    assert_eq!(test_simple(&nth, &document.node(3)), (true, AFFECTED_BY_NTH_OF_TYPE));
    assert_eq!(test_simple(&nth, &document.node(4)), (true, AFFECTED_BY_NTH_OF_TYPE));
    assert_eq!(test_simple(&nth, &document.node(5)), (false, 0));
    assert_eq!(test_simple(&nth_last, &document.node(2)), (true, AFFECTED_BY_NTH_LAST_OF_TYPE));
    assert_eq!(test_simple(&nth_last, &document.node(1)), (false, 0));
    let first = SimpleSelector::FirstOfType;
    let last = SimpleSelector::LastOfType;
    assert_eq!(test_simple(&first, &document.node(2)), (true, AFFECTED_BY_FIRST_OF_TYPE));
    assert_eq!(test_simple(&first, &document.node(3)), (false, 0));
    assert_eq!(test_simple(&last, &document.node(4)), (true, AFFECTED_BY_LAST_OF_TYPE));
    assert_eq!(test_simple(&last, &document.node(3)), (false, 0));
    let only = SimpleSelector::OnlyOfType;
    assert_eq!(test_simple(&only, &document.node(1)), (false, 0));
    let lone = family(&["a", "b", "c"], 3);
    assert_eq!(test_simple(&only, &lone.node(2)), (true, AFFECTED_BY_ONLY_OF_TYPE));
}

#[test]
fn types_differ_by_namespace() {
    let mut document = family(&["a"], 3);
    document.nodes[1].namespace = name("svg");
    assert_eq!(
        test_simple(&SimpleSelector::FirstOfType, &document.node(2)),
        (true, AFFECTED_BY_FIRST_OF_TYPE)
    );
    assert_eq!(test_simple(&SimpleSelector::FirstChild, &document.node(2)), (false, 0));
}

#[test]
fn negations() {
    let document = family(&["a", "b"], 2);
    let a = document.node(1);
    let not_a = SimpleSelector::Negation(vec![Arc::new(chain("a"))]);
    let not_b = SimpleSelector::Negation(vec![Arc::new(chain("b"))]);
    assert_eq!(test_simple(&not_a, &a), (false, 0));
    assert_eq!(test_simple(&not_b, &a), (true, 0));
    // A list is negated where one of its selectors does not match.
    let not_all = SimpleSelector::Negation(vec![Arc::new(chain("a")), Arc::new(chain("b"))]);
    assert_eq!(test_simple(&not_all, &a), (true, 0));
    let not_both = SimpleSelector::Negation(vec![Arc::new(chain("a")), Arc::new(chain("root a"))]);
    assert_eq!(test_simple(&not_both, &a), (false, 0));
    assert_eq!(test_simple(&SimpleSelector::Negation(vec![]), &a), (false, 0));
}

#[test]
fn negations_record_what_they_test() {
    let mut document = family(&["a", "b"], 2);
    document.nodes[1].id = Some(name("x"));
    let first = Arc::new(compound(vec![SimpleSelector::ID(name("x"))]));
    let second = Arc::new(compound(vec![local("b")]));
    let third = Arc::new(compound(vec![SimpleSelector::FirstChild]));
    let negation = SimpleSelector::Negation(vec![first.clone(), third.clone()]);
    assert_eq!(
        test_simple(&negation, &document.node(1)),
        (false, AFFECTED_BY_ID_SELECTOR | AFFECTED_BY_FIRST_CHILD)
    );
    // The second selector does not match, so the third is not tested.
    let negation = SimpleSelector::Negation(vec![first, second, third]);
    assert_eq!(test_simple(&negation, &document.node(1)), (true, AFFECTED_BY_ID_SELECTOR));
    // A sibling combinator inside a negation is recorded where it matches.
    let negation = SimpleSelector::Negation(vec![Arc::new(chain("a + b"))]);
    assert_eq!(test_simple(&negation, &document.node(2)), (false, AFFECTED_BY_SIBLINGS));
}

#[test]
fn compound_selectors_stop_at_the_first_failure() {
    let mut document = family(&["a"], 1);
    document.nodes[1].id = Some(name("x"));
    let met = compound(vec![
        SimpleSelector::FirstChild,
        SimpleSelector::ID(name("x")),
        SimpleSelector::LastChild,
    ]);
    assert_eq!(
        test_complex(&met, &document.node(1)),
        (true, AFFECTED_BY_FIRST_CHILD | AFFECTED_BY_ID_SELECTOR | AFFECTED_BY_LAST_CHILD)
    );
    let failed = compound(vec![
        SimpleSelector::FirstChild,
        SimpleSelector::ID(name("y")),
        SimpleSelector::LastChild,
    ]);
    assert_eq!(test_complex(&failed, &document.node(1)), (false, AFFECTED_BY_FIRST_CHILD));
    assert_eq!(test_complex(&compound(vec![]), &document.node(1)), (true, 0));
}

#[test]
fn combinators() {
    // root > (a, b > (c, d))
    let mut document = Document::new();
    let root = document.add(None, "root");
    let _a = document.add(Some(root), "a");
    let b = document.add(Some(root), "b");
    let c = document.add(Some(b), "c");
    let d = document.add(Some(b), "d");
    assert_eq!(test_complex(&chain("b > d"), &document.node(d)), (true, 0));
    assert_eq!(test_complex(&chain("root > d"), &document.node(d)), (false, 0));
    assert_eq!(test_complex(&chain("root d"), &document.node(d)), (true, 0));
    assert_eq!(test_complex(&chain("a d"), &document.node(d)), (false, 0));
    assert_eq!(test_complex(&chain("c + d"), &document.node(d)), (true, AFFECTED_BY_SIBLINGS));
    assert_eq!(test_complex(&chain("d + c"), &document.node(c)), (false, 0));
    assert_eq!(test_complex(&chain("a ~ b"), &document.node(b)), (true, AFFECTED_BY_SIBLINGS));
    // The sibling combinator does not stand next to the element.
    assert_eq!(test_complex(&chain("a + b > c"), &document.node(c)), (true, 0));
    assert_eq!(test_complex(&chain("root > b > c + d"), &document.node(d)), (true, AFFECTED_BY_SIBLINGS));
}

#[test]
fn later_siblings_are_all_tried() {
    let document = family(&["a", "b", "c", "d"], 4);
    assert_eq!(test_complex(&chain("a ~ d"), &document.node(4)), (true, AFFECTED_BY_SIBLINGS));
    assert_eq!(test_complex(&chain("a + d"), &document.node(4)), (false, 0));
    assert_eq!(test_complex(&chain("a + b ~ d"), &document.node(4)), (true, AFFECTED_BY_SIBLINGS));
    assert_eq!(test_complex(&chain("a + c ~ d"), &document.node(4)), (false, 0));
}

#[test]
fn flags_of_other_elements_are_recorded() {
    let mut document = family(&["a"], 1);
    document.nodes[0].id = Some(name("x"));
    let selector = joined(
        compound(vec![SimpleSelector::ID(name("x")), local("nope")]),
        Combinator::Child,
        vec![local("a")],
    );
    assert_eq!(test_complex(&selector, &document.node(1)), (false, AFFECTED_BY_ID_SELECTOR));
}

#[test]
fn an_empty_sibling_does_not_make_an_element_empty() {
    // root > (a, b > c)
    let mut document = Document::new();
    let root = document.add(None, "root");
    let a = document.add(Some(root), "a");
    let b = document.add(Some(root), "b");
    let c = document.add(Some(b), "c");
    let after_empty = joined(
        compound(vec![SimpleSelector::Empty]),
        Combinator::NextSibling,
        vec![],
    );
    assert_eq!(test_complex(&after_empty, &document.node(b)), (true, AFFECTED_BY_SIBLINGS));
    assert_eq!(test_complex(&after_empty, &document.node(a)), (false, 0));
    let below = joined(after_empty, Combinator::Child, vec![local("c")]);
    assert_eq!(test_complex(&below, &document.node(c)), (true, 0));
    // The flag stays where it was set before.
    let mut relations = StyleRelations::empty();
    relations.insert(AFFECTED_BY_EMPTY);
    assert!(matches_complex_selector(&below, &document.node(c), None, &mut relations));
    assert_eq!(relations.bits(), AFFECTED_BY_EMPTY);
    // An element that is empty itself has the flag, also where that is what is negated.
    let empty = compound(vec![SimpleSelector::Empty]);
    assert_eq!(test_complex(&empty, &document.node(c)), (true, AFFECTED_BY_EMPTY));
    let not_empty = compound(vec![SimpleSelector::Negation(vec![Arc::new(empty)])]);
    assert_eq!(test_complex(&not_empty, &document.node(c)), (false, AFFECTED_BY_EMPTY));
    assert_eq!(test_complex(&not_empty, &document.node(b)), (true, 0));
    // Nor does a negation take it from a sibling.
    let not_after_empty = compound(vec![SimpleSelector::Negation(vec![Arc::new(joined(
        compound(vec![SimpleSelector::Empty]),
        Combinator::NextSibling,
        vec![],
    ))])]);
    assert_eq!(test_complex(&not_after_empty, &document.node(b)), (false, AFFECTED_BY_SIBLINGS));
}

#[test]
fn an_empty_sibling_keeps_its_other_flags() {
    let mut document = family(&["a", "b"], 2);
    document.nodes[1].id = Some(name("x"));
    let selector = joined(
        compound(vec![
            SimpleSelector::Empty,
            SimpleSelector::ID(name("x")),
            SimpleSelector::FirstChild,
        ]),
        Combinator::NextSibling,
        vec![SimpleSelector::LastChild, SimpleSelector::Empty],
    );
    // Every condition of the chain is recorded; this element is empty itself.
    assert_eq!(
        test_complex(&selector, &document.node(2)),
        (
            true,
            AFFECTED_BY_ID_SELECTOR
                | AFFECTED_BY_FIRST_CHILD
                | AFFECTED_BY_LAST_CHILD
                | AFFECTED_BY_EMPTY
                | AFFECTED_BY_SIBLINGS
        )
    );
}

#[test]
fn external_flags_are_kept() {
    let external = AFFECTED_BY_STYLE_ATTRIBUTE
        | AFFECTED_BY_PRESENTATIONAL_HINTS
        | AFFECTED_BY_PSEUDO_ELEMENTS;
    assert_eq!(external, 0xe0);
    let document = family(&["a", "b"], 4);
    for set in [0, AFFECTED_BY_STYLE_ATTRIBUTE, AFFECTED_BY_PSEUDO_ELEMENTS, external] {
        for text in ["a", "a + b", "root a ~ b", "b + a"] {
            let mut relations = StyleRelations::empty();
            relations.insert(set);
            matches_complex_selector(&chain(text), &document.node(4), None, &mut relations);
            assert_eq!(relations.bits() & external, set);
        }
    }
}

#[test]
fn the_sibling_flag_needs_a_match_next_to_the_element() {
    let document = family(&["a", "b"], 2);
    assert_eq!(test_complex(&chain("a + b"), &document.node(2)), (true, AFFECTED_BY_SIBLINGS));
    assert_eq!(test_complex(&chain("x > a + b"), &document.node(2)), (false, 0));
    assert_eq!(test_complex(&chain("root > b"), &document.node(2)), (true, 0));
}

#[test]
fn flags_accumulate() {
    let document = family(&["a"], 1);
    let mut relations = StyleRelations::empty();
    relations.insert(AFFECTED_BY_STATE);
    let selector = compound(vec![SimpleSelector::FirstChild]);
    assert!(matches_complex_selector(&selector, &document.node(1), None, &mut relations));
    assert_eq!(relations.bits(), AFFECTED_BY_STATE | AFFECTED_BY_FIRST_CHILD);
    assert!(relations.affected_by_child_index());
    assert!(!matches_complex_selector(&chain("b"), &document.node(1), None, &mut relations));
    assert_eq!(relations.bits(), AFFECTED_BY_STATE | AFFECTED_BY_FIRST_CHILD);
}

#[test]
fn ancestors_not_found_fail_globally() {
    // "d1 d2 a" with no d1 above.
    let mut document = Document::new();
    let root = document.add(None, "root");
    let d2 = document.add(Some(root), "d2");
    let inner = document.add(Some(d2), "d2");
    let a = document.add(Some(inner), "a");
    assert_eq!(
        status(&chain("d1 d2 a"), &document.node(a), None),
        SelectorMatchingResult::NotMatchedGlobally
    );
    assert_eq!(
        status(&chain("d1 > root"), &document.node(root), None),
        SelectorMatchingResult::NotMatchedGlobally
    );
    assert_eq!(status(&chain("d2 a"), &document.node(a), None), SelectorMatchingResult::Matched);
}

#[test]
fn brothers_not_found_restart_from_the_descendant() {
    // "b1 + b2 ~ d1 a" where the first d1 has no b1 before its b2, and the outer has.
    let mut document = Document::new();
    let root = document.add(None, "root");
    let b1 = document.add(Some(root), "b1");
    let b2 = document.add(Some(root), "b2");
    let outer = document.add(Some(root), "d1");
    let inner_b2 = document.add(Some(outer), "b2");
    let inner = document.add(Some(outer), "d1");
    let a = document.add(Some(inner), "a");
    assert_eq!(
        status(&chain("b1 + b2"), &document.node(inner_b2), None),
        SelectorMatchingResult::NotMatchedAndRestartFromClosestDescendant
    );
    assert_eq!(
        status(&chain("b1 + b2 ~ d1"), &document.node(inner), None),
        SelectorMatchingResult::NotMatchedAndRestartFromClosestDescendant
    );
    assert_eq!(status(&chain("b1 + b2"), &document.node(b2), None), SelectorMatchingResult::Matched);
    assert_eq!(
        status(&chain("x ~ b1"), &document.node(b1), None),
        SelectorMatchingResult::NotMatchedAndRestartFromClosestDescendant
    );
    assert_eq!(test_complex(&chain("b1 + b2 ~ d1 a"), &document.node(a)), (true, 0));
}

#[test]
fn a_child_upgrades_the_failure() {
    // "b1 + c1 > b2 ~ d1 a" where b1 does not match on the element before c1.
    let mut document = Document::new();
    let root = document.add(None, "root");
    let _x = document.add(Some(root), "x");
    let c1 = document.add(Some(root), "c1");
    let b2 = document.add(Some(c1), "b2");
    let d1 = document.add(Some(c1), "d1");
    let a = document.add(Some(d1), "a");
    assert_eq!(
        status(&chain("b1 + c1"), &document.node(c1), None),
        SelectorMatchingResult::NotMatchedAndRestartFromClosestLaterSibling
    );
    assert_eq!(
        status(&chain("b1 + c1 > b2"), &document.node(b2), None),
        SelectorMatchingResult::NotMatchedAndRestartFromClosestDescendant
    );
    assert_eq!(
        status(&chain("b1 + c1 > b2 ~ d1"), &document.node(d1), None),
        SelectorMatchingResult::NotMatchedAndRestartFromClosestDescendant
    );
    // No other d1 is above, so the search for one ends.
    assert_eq!(
        status(&chain("b1 + c1 > b2 ~ d1 a"), &document.node(a), None),
        SelectorMatchingResult::NotMatchedGlobally
    );
    assert_eq!(
        status(&chain("y"), &document.node(a), None),
        SelectorMatchingResult::NotMatchedAndRestartFromClosestLaterSibling
    );
}

fn filter_of(names: &[&str]) -> BloomFilter {
    let mut filter = BloomFilter::new();
    for text in names {
        filter.insert(&name(text));
    }
    filter
}

#[test]
fn a_filter_rejects_at_once() {
    let mut document = family(&["a"], 1);
    document.nodes[0].id = Some(name("i"));
    document.nodes[0].classes = vec![name("c")];
    let node = document.node(1);
    let covering = filter_of(&["root", "html", "i", "c"]);
    let none = BloomFilter::new();
    let parts: [fn() -> Simple; 4] = [
        || local("root"),
        || SimpleSelector::Namespace(Namespace { url: name("html") }),
        || SimpleSelector::ID(name("i")),
        || class("c"),
    ];
    for part in parts {
        let selector = joined(compound(vec![part()]), Combinator::Descendant, vec![local("a")]);
        let mut relations = StyleRelations::empty();
        assert_eq!(can_fast_reject(&selector, &node, Some(&covering), &mut relations), None);
        assert_eq!(status(&selector, &node, Some(&covering)), SelectorMatchingResult::Matched);
        assert_eq!(
            can_fast_reject(&selector, &node, Some(&none), &mut relations),
            Some(SelectorMatchingResult::NotMatchedGlobally)
        );
        assert_eq!(status(&selector, &node, Some(&none)), SelectorMatchingResult::NotMatchedGlobally);
        assert_eq!(can_fast_reject(&selector, &node, None, &mut relations), None);
        assert_eq!(relations.bits(), 0);
    }
}

#[test]
fn a_filter_looks_at_descendant_combinators_only() {
    let document = family(&["x", "a"], 2);
    let node = document.node(2);
    let none = BloomFilter::new();
    let mut relations = StyleRelations::empty();
    assert_eq!(can_fast_reject(&chain("root > a"), &node, Some(&none), &mut relations), None);
    assert_eq!(can_fast_reject(&chain("x + a"), &node, Some(&none), &mut relations), None);
    assert_eq!(can_fast_reject(&chain("x ~ a"), &node, Some(&none), &mut relations), None);
    assert_eq!(
        can_fast_reject(&chain("root x ~ a"), &node, Some(&none), &mut relations),
        Some(SelectorMatchingResult::NotMatchedGlobally)
    );
    // Other conditions are not looked up.
    let selector = joined(
        compound(vec![SimpleSelector::Root]),
        Combinator::Descendant,
        vec![local("a")],
    );
    assert_eq!(can_fast_reject(&selector, &node, Some(&none), &mut relations), None);
}

#[test]
fn a_filter_may_hold_either_form_of_a_name() {
    let document = family(&["a"], 1);
    let node = document.node(1);
    let selector = chain("ROOT a");
    let mut relations = StyleRelations::empty();
    let upper = filter_of(&["ROOT"]);
    let lower = filter_of(&["root"]);
    let other = filter_of(&["Root"]);
    assert_eq!(can_fast_reject(&selector, &node, Some(&upper), &mut relations), None);
    assert_eq!(can_fast_reject(&selector, &node, Some(&lower), &mut relations), None);
    assert_eq!(
        can_fast_reject(&selector, &node, Some(&other), &mut relations),
        Some(SelectorMatchingResult::NotMatchedGlobally)
    );
}

#[test]
fn failed_conditions_come_before_the_filter() {
    let document = family(&["a"], 1);
    let node = document.node(1);
    let selector = joined(
        chain("root"),
        Combinator::Descendant,
        vec![SimpleSelector::FirstChild, local("b")],
    );
    let mut relations = StyleRelations::empty();
    assert_eq!(
        can_fast_reject(&selector, &node, Some(&BloomFilter::new()), &mut relations),
        Some(SelectorMatchingResult::NotMatchedAndRestartFromClosestLaterSibling)
    );
    assert_eq!(relations.bits(), AFFECTED_BY_FIRST_CHILD);
}

#[test]
fn lists_match_where_one_selector_does() {
    let document = family(&["a"], 1);
    let node = document.node(1);
    let plain = |text: &str| Selector::<Strings> {
        complex_selector: Arc::new(chain(text)),
        pseudo_element: None,
    };
    let before = |text: &str| Selector::<Strings> {
        complex_selector: Arc::new(chain(text)),
        pseudo_element: Some("before".to_string()),
    };
    assert!(!selectors::matching::matches(&[], &node, None));
    assert!(selectors::matching::matches(&[plain("a")], &node, None));
    assert!(!selectors::matching::matches(&[plain("b")], &node, None));
    assert!(selectors::matching::matches(&[plain("b"), plain("c"), plain("root > a")], &node, None));
    assert!(!selectors::matching::matches(&[before("a")], &node, None));
    assert!(selectors::matching::matches(&[before("a"), plain("a")], &node, None));
    assert!(!selectors::matching::matches(&[before("a"), plain("b")], &node, None));
    assert!(!selectors::matching::matches(&[plain("root a")], &node, Some(&BloomFilter::new())));
    assert!(selectors::matching::matches(&[plain("root a")], &node, Some(&filter_of(&["root"]))));
}

#[test]
fn recommended_filter_size() {
    assert_eq!(RECOMMENDED_SELECTOR_BLOOM_FILTER_SIZE, 4096);
}

struct Dice(u64);

impl Dice {
    fn roll(&mut self, sides: usize) -> usize {
        self.0 = self.0.wrapping_mul(6364136223846793005).wrapping_add(1442695040888963407);
        ((self.0 >> 33) % sides as u64) as usize
    }
}

/// The meaning of a selector made of local names, by trying everything.
fn means(selector: &Complex, node: &Node<'_>) -> bool {
    let mut scratch = StyleRelations::empty();
    for simple in &selector.compound_selector {
        if !matches_simple_selector(simple, node, None, &mut scratch) {
            return false;
        }
    }
    let (next, combinator) = match &selector.next {
        None => return true,
        Some((next, combinator)) => (next, *combinator),
    };
    let sideways = combinator == Combinator::NextSibling || combinator == Combinator::LaterSibling;
    let far = combinator == Combinator::Descendant || combinator == Combinator::LaterSibling;
    let step = |n: &Node<'_>| if sideways { n.data().prev } else { n.data().parent };
    let mut candidate = step(node);
    while let Some(index) = candidate {
        let other = node.document.node(index);
        if means(next, &other) {
            return true;
        }
        if !far {
            return false;
        }
        candidate = step(&other);
    }
    false
}

#[test]
fn the_search_finds_what_selectors_mean() {
    let names = ["a", "b", "c"];
    let combinators = [
        Combinator::Child,
        Combinator::Descendant,
        Combinator::NextSibling,
        Combinator::LaterSibling,
    ];
    let mut dice = Dice(7);
    let mut found = 0;
    for _ in 0..120 {
        let mut document = Document::new();
        document.add(None, names[dice.roll(3)]);
        for i in 1..12 {
            let parent = i - 1 - dice.roll(i.min(4));
            document.add(Some(parent), names[dice.roll(3)]);
        }
        for _ in 0..20 {
            let mut selector = chain(names[dice.roll(3)]);
            for _ in 0..dice.roll(5) {
                let combinator = combinators[dice.roll(4)];
                selector = joined(selector, combinator, vec![local(names[dice.roll(3)])]);
            }
            for index in 0..12 {
                let node = document.node(index);
                let mut filter = BloomFilter::new();
                let mut above = node.data().parent;
                while let Some(p) = above {
                    filter.insert(&document.nodes[p].local_name);
                    above = document.nodes[p].parent;
                }
                let expected = means(&selector, &node);
                let mut scratch = StyleRelations::empty();
                assert_eq!(matches_complex_selector(&selector, &node, None, &mut scratch), expected);
                assert_eq!(
                    matches_complex_selector(&selector, &node, Some(&filter), &mut scratch),
                    expected
                );
                if expected && selector.next.is_some() {
                    found += 1;
                }
            }
        }
    }
    assert!(found > 500);
}
