pub mod common;
pub mod index;
pub mod index_copy;
pub mod index_iter;
pub mod index_tree;
