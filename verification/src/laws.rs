//! What the library promises of its functions, in terms of what goes into a call and what comes out.
//!
//! `call_ensures(f, arguments, result)` reads: a call of `f` with these arguments may give this
//! result.

pub mod finding;
pub mod operands;
pub mod paths;
pub mod steps;
pub mod timing;
pub mod words;
