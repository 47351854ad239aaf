//! Type inference for pure untyped lambda terms by reduction of an
//! interaction net.

pub mod infer;
pub mod lambda;
pub mod net;
pub mod util;
