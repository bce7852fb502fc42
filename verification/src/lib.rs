//! Order-book decisions of an "evol cycler" market maker.
//!
//! Prices, volumes and expected-profit figures are floating-point numbers in
//! the trading engine around this library.  The library never does float
//! arithmetic: it works on *order keys*, integers that compare exactly as the
//! (non-NaN) floats they stand for, and decides which book levels to quote,
//! how deep a quote would sit, which knot segment a point falls into, and
//! which pair of quotes is the most profitable.
pub mod order;

pub mod search;
pub mod book;
pub mod profit;
