//! Secret sharing over the scalar fields of BN254 and BLS12-381: replicated
//! three-party sharing, Shamir threshold sharing, the translation of the
//! first to the second, and the share containers that carry them.
pub mod codec;
pub mod container;
pub mod error;
pub mod field;
pub mod parse;
pub mod poly;
pub mod rep3;
pub mod shamir;
pub mod translate;
pub mod witness;
