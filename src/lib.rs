//! Analysis of odd semiprimes `n = p * q`: trial-division factoring, and the rows that relate
//! the additive splits `n = a + b` to the factors, with their classification flags.

pub mod arith;
pub mod factor;
pub mod rows;
