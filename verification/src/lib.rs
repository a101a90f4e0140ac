//! Navigation of sorted collections of `(key, value, time, delta)` update
//! tuples: a cursor protocol, the borrowed and owned forms of keys, and
//! combinators that present several sorted sources as one.

pub mod bytes;
pub mod order;
pub mod trace;
