//! Lindenmayer systems: parallel string rewriting and turtle interpretation.
//!
//! A grammar (a seed string, rewrite rules, iteration count) is expanded into a
//! derived symbol string, which a stack-based turtle machine then turns into
//! a set of polylines.  Geometry is kept exact: a point is identified by the
//! sequence of headings (signed multiples of the unit turn angle) of the
//! forward moves that lead from the origin to it, so that a renderer can
//! evaluate coordinates with whatever angle and segment length it chooses.

use vstd::prelude::*;

pub mod rewrite;
pub mod system;
pub mod turtle;

verus! {

/// A typed failure of grammar construction or interpretation.
///
/// `UnbalancedBracket` carries the index of the offending `]` in the
/// interpreted string.
#[derive(Clone, Copy, Debug, PartialEq, Eq, Structural)]
pub enum LsError {
    /// A rule clause was empty after trimming and arrow removal.
    MalformedRule,
    /// A grammar symbol lies in the reserved placeholder range.
    PlaceholderCollision,
    /// A `]` was met while no `[` was open.
    UnbalancedBracket(usize),
}

} // verus!
