# flams

The logic of FLAMS, the Flexiformal Annotation Management System, as a
library verified with Verus: the public functions in `src/` carry
contracts, and Verus proves every function there, helpers included, free
of panics and overflow and true to the contracts it has.

## Layout

- `src/extractor.rs`: the state of an FTML extraction run (narrative and
  content stacks, open paragraphs, problems and notations, arguments of
  terms) and its operations.
- `src/closing.rs`: what closing an FTML element does to that state.
- `src/dom.rs`: the parsed document as a tree, the byte ranges of its
  elements, the deletion of nodes, and the nodes that give terms and
  notations.
- `src/html_len.rs`, `src/text.rs`, `src/numbers.rs`: byte lengths of
  serialized HTML, character and white-space helpers, decimal text.
- `src/counters.rs`, `src/toc.rs`: section and paragraph numbering, the
  table of contents, and what an inputref'd document counts.
- `src/lsp_text.rs`, `src/lsp.rs`: LSP positions, edits, progress reports.
- `src/gitlab.rs`, `src/git_url.rs`: GitLab settings, OAuth set-up, the
  project cache, manifest lookup, remote URLs.
- `src/inventory.rs`, `src/learning_objects.rs`, `src/rules.rs`,
  `src/urls.rs`, `src/verbalization.rs`: the inventory of an archive,
  learning objects, the choice and running of extraction rules, request URLs and ids,
  verbalizations of symbol names.
- `src/verb_trie.rs`: symbols indexed by their verbalizations, and the
  search for those names in a text.
- `src/annotations.rs`: semantic highlighting of sTeX annotations.
- `src/omdoc.rs`: the OMDoc outline of a document's narrative.
- `app/`: the serde forms of the GitLab exchanges and the OAuth client.
- `tests/`: tests of the library on concrete values.

Calls into outside crates (`oauth2`, `urlencoding`, `waken_snowball`,
`radix_trie`) go through small trusted functions whose doc comments say what
their contracts claim.
