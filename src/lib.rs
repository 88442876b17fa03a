//! Conversion of tokenized infix arithmetic into postfix (Reverse Polish)
//! notation with the shunting-yard algorithm.

pub mod convert;
pub mod laws;
pub mod token;

pub use convert::shunting_yard;
