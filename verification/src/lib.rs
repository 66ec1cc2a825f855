pub mod addressing;
pub mod codec;
pub mod errors;
pub mod mutation;
pub mod pipeline;
pub mod store;
pub mod traversal;
pub mod verification;
pub mod word;
