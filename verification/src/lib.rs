//! The tree behind an HTML build pipeline, with proofs.
//!
//! A document is parsed into an arena of nodes (`dom`), in which every node
//! has at most one parent and stands exactly once among the children of that
//! parent; every edit (`edit`, `copy`, `builder`, `construct`) keeps it so
//! (`laws`). The passes find what to change in one walk over the tree and
//! change it afterwards. The tree is written out by html5ever's serializer
//! (`serializer`). What surrounds a parse, the lines of errors and elements,
//! the void element filter and the steps of the read loop, is in `parser`,
//! `rcdom_with_line_numbers` and `void_filter`.

pub mod anchor_permanence;
pub mod annotate_attributes;
pub mod boilerplate;
pub mod builder;
pub mod construct;
pub mod copy;
pub mod dom;
pub mod edit;
pub mod edit_model;
pub mod errors;
pub mod interface_index;
pub mod io_utils;
pub mod laws;
pub mod model;
pub mod model_proofs;
pub mod names;
pub mod parser;
pub mod query;
pub mod rcdom_with_line_numbers;
pub mod represents;
pub mod rewrite;
pub mod scan;
pub mod self_link;
pub mod serializer;
pub mod shape;
pub mod string_map;
pub mod string_set;
pub mod tag_omission;
pub mod text;
pub mod variables;
pub mod void_filter;
