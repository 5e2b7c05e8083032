//! Adaptive banded pairwise sequence alignment under affine gap penalties.
//!
//! `scores` holds the substitution matrices and gap penalties, `dp` the
//! mathematical model of the (banded) dynamic programme together with the laws
//! it obeys, `scan` the executable aligner that computes it, and `traceback`
//! the reconstruction of an alignment from the columns an aligner kept.
use vstd::prelude::*;

pub mod dp;
pub mod scan;
pub mod scores;
pub mod traceback;

verus! {
} // verus!
