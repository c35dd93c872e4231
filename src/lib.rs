//! Geometric-equivalence classification of planes and quadric surfaces.
//!
//! Objects are compared pairwise within their group (planes, or all other
//! surfaces). Each coefficient position yields a scalar outcome; a pair is `Same`,
//! `Opposite` or `Different` by unanimity over its informative positions. The
//! verdicts of all pairs fold, in a fixed order, into a mapping from id to the
//! partner's id signed by the orientation.
//!
//! The floating-point tolerance tests themselves are made by the caller, which
//! hands the library their boolean results or the per-position outcomes.
use vstd::prelude::*;

pub mod classification;
pub mod engine;
pub mod pairs;
pub mod scale;

verus! {

} // verus!
