pub mod base;
pub mod bcj;
pub mod block;
pub mod check;
pub mod container;
pub mod delta;
pub mod filter;
pub mod index;
pub mod lzma12;
pub mod stream_flags;
pub mod version;
pub mod vli;
