//! Transformations of a configuration and the structures they use.

pub mod ambiguous_type;
pub mod comparable_type;
pub mod consolidate_url;
pub mod entities;
pub mod flatten_single_types;
pub mod index_map;
pub mod linter;
pub mod max_value_map;
pub mod nested_unions;
pub mod pair_set;
pub mod rename_args;
pub mod rename_types;
pub mod subgraph;
pub mod type_merger;
pub mod union_input_type;
