pub mod arm;
pub mod arm64;
pub mod armthumb;
pub mod simple_coder;
pub mod stream;
pub mod simple_private;
