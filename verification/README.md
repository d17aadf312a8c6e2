# selectors

Matching of CSS selectors against the elements of a document, written in Rust and verified
with Verus.

- `src/parser.rs`: the parsed form of selectors.
- `src/tree.rs`: what matching asks of an element, and the walks it makes in a document.
- `src/bloom.rs`: a Bloom filter of the names above an element, by which most selectors are
  rejected early.
- `src/relations.rs`: the flags that record what a match has depended on.
- `src/semantics.rs`: what a selector means, and what the search for a match computes.
- `src/matching.rs`: the search.
- `src/soundness.rs`, `src/laws.rs`: why the search finds what selectors mean, and what else
  holds of it.

An application implements `SelectorImpl`, `Atom` and `BloomHash` for its names and `Element`
for its elements. The specification functions of these traits are never run: an
implementation in ordinary Rust may give them any body.
