//! A verified solver for the 24 game: given four integers, find an
//! arithmetic expression over `+ - * /` that combines each of them exactly
//! once and totals exactly 24, or report that none exists.  All candidate
//! evaluation uses exact rational arithmetic; no floating point anywhere.
pub mod arg_parsing;
pub mod expression;
pub mod maths;
