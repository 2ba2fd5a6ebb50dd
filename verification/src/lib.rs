//! FLAMS, the Flexiformal Annotation Management System: the extraction of
//! FTML documents, their numbering and tables of contents, the inventory of
//! archives, GitLab set-up, and the text handling of its language server.
pub mod extractor;
pub mod html_len;
pub mod text;
pub mod gitlab;
pub mod git_url;
pub mod lsp_text;
pub mod closing;
pub mod counters;
pub mod verbalization;
pub mod numbers;
pub mod lsp;
pub mod urls;
pub mod learning_objects;
pub mod inventory;
pub mod rules;
pub mod toc;
pub mod dom;
pub mod verb_trie;
pub mod annotations;
pub mod omdoc;
