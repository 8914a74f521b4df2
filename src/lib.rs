//! Finds the fraction with the smallest positive denominator that lies
//! strictly between two given fractions, using exact integer arithmetic.

pub mod error;
pub mod fraction;
pub mod input;
