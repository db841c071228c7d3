//! Canonical grouping of import declarations.
//!
//! The crate takes already-parsed `use` declarations, groups them by origin
//! category and by their (visibility, leading-separator) key, merges all
//! declarations of one key into a shared prefix tree, and re-serializes each
//! tree into minimal, canonically ordered nested-group syntax.

pub mod engine;
pub mod keys;
pub mod laws;
pub mod lex;
pub mod name;
pub mod render;
pub mod serialize;
pub mod tree;
pub mod walk;

pub use engine::format_uses;
pub use engine::UseItem;
pub use engine::UseMap;
pub use keys::category_of;
pub use keys::pair_category;
pub use keys::Category;
pub use keys::KeyV;
pub use keys::UseKey;
pub use keys::VisV;
pub use keys::Visibility;
pub use lex::lex_lt;
pub use lex::str_eq;
pub use lex::str_lt;
pub use name::name_eq;
pub use name::Name;
pub use name::NameV;
pub use render::render_statement;
pub use render::render_use_tree;
pub use tree::Node;
pub use tree::NodeV;
pub use tree::Tree;
pub use walk::walk_use_tree;
pub use walk::UseTree;
