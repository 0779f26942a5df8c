//! Reversal of sibling order in a directory tree, realized as a plan of
//! renames: a verified tree model, a verified ordering and reversal engine,
//! and a small in-memory filesystem model on which the plans can be replayed.

mod accessor;
mod fsmodel;
mod order;
mod plan;
mod reverse;
mod sort;
mod tree;

pub use accessor::dir_or_false;
pub use accessor::entries_or_empty;
pub use accessor::rename_message;
pub use fsmodel::FsEntry;
pub use fsmodel::FsModel;
pub use order::lex_le;
pub use order::lex_lt;
pub use order::path_cmp;
pub use order::str_eq;
pub use order::str_le;
pub use plan::expand_swaps;
pub use plan::plan_renames;
pub use reverse::RenameOp;
pub use reverse::SwapPair;
pub use reverse::reverse;
pub use sort::sort_trees;
pub use tree::Tree;
pub use tree::TreeV;
