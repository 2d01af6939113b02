//! Type-stripping support: position-preserving blanking of source text,
//! plain-text replacement, define tables and their guards over the
//! flattened syntax tree, dead-code folding decisions, and the string
//! helpers the pipeline shares.

pub mod blank_string;
pub mod blanker;
pub mod build_paths;
pub mod chars;
pub mod dce;
pub mod defines;
pub mod flattener;
pub mod fnv;
pub mod guards;
pub mod haystack;
pub mod identifier;
pub mod literal_text;
pub mod native;
pub mod replace;
pub mod replace_keys;
pub mod scopes;
pub mod scan_paths;
pub mod search;
pub mod source_text;
pub mod transpile;
pub mod tree;
pub mod transcode;
pub mod unicode;
pub mod utf8_lemmas;
