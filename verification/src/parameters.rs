pub mod filter;
pub mod primitives;
