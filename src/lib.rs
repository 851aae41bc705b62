//! Structured queries over mapping/sequence/scalar documents: a parser for
//! dotted path expressions and an evaluator that walks a document along them.

pub mod cli;
pub mod laws;
pub mod node;
pub mod path;
pub mod traverse;

pub use cli::{output_lines, parse_print_mode, select_documents, DocIndexError, PrintMode};
pub use node::{convert_length, convert_single_node, get_node_structure, trim_document_start, Node};
pub use path::{
    char_is, is_child_filter, matches_pattern, next_special_char_is, next_specific_special_char,
    parse_array_indexing_operation, parse_path, split_child_filter, ArrayIndices, ParseError,
    PathElem, SPLAT,
};
pub use traverse::{
    extend_array_path, extend_hash_path, get_array_idx, is_child_filter_value_match,
    parse_array_child_filter, traverse, unwrap, visit, TraverseError, VisitedNode,
};
