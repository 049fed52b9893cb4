use vstd::prelude::*;

pub mod handle;
pub mod text;
pub mod kinds;
pub mod leaf_nodes;
pub mod tree;
pub mod dom;
pub mod html;
pub mod range;
pub mod find_range;
pub mod iter;
pub mod find_extended_range;
pub mod dom_block_nodes;
pub mod list_methods;
pub mod insert_node;
pub mod split;
pub mod join_nodes;
pub mod errors;
pub mod location;
pub mod pattern_key;
pub mod composer;
pub mod markdown;
pub mod action_list;
pub mod html_formatter;
pub mod markdown_html;
pub mod to_tree;
pub mod laws;
pub mod unicode;
pub mod parser;
pub mod paragraphs;
pub mod replace;
pub mod insert_parent;

pub use handle::DomHandle;

verus! {

} // verus!
