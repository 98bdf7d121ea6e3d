//! Exhaustive enumeration of finite composite types.
//!
//! A [`shape::Shape`] describes the structure of a finite type: it is either
//! uninhabited, a single value, a product of components (a record or tuple),
//! a sum of alternatives (a tagged union), or a fixed-size repetition of one
//! component (an array).  The library computes how many distinct values such
//! a shape has ([`shape::cardinality`]) and materializes all of them, in the
//! documented mixed-radix order, as an indexable sequence
//! ([`enumerate::materialize`]).

pub mod buffer;
pub mod enumerate;
pub mod index;
pub mod laws;
pub mod order;
pub mod shape;
pub mod value;
