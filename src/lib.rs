//! Witness handles and the hi/lo codec for a circuit builder.
pub mod arena;
pub mod circuit;
pub mod codec;
pub mod decimal;
pub mod error;
pub mod store;
