//! graph state, partial updates, and merging
//!
//! at any moment a run holds one complete [`State`]. nodes never mutate that
//! snapshot; they emit a [`StateDelta`] describing their contribution, and the
//! run folds each delta into the next snapshot with [`Merge`].
//!
//! ```text
//! State_0 ──Node──► Delta ──Merge──► State_1
//! ```

use vstd::prelude::*;

verus! {

/// graph state object at a single point in time.
///
/// concrete graphs define a struct and implement this marker so that bounds
/// can be expressed generally.
pub trait State {}

/// partial update on state emitted by a single node.
///
/// a delta holds only what a node changed; it is folded into the state by
/// [`Merge`].
pub trait StateDelta {}

/// reducer: how a delta of type `D` is folded into an accumulated state.
///
/// `D` defaults to the implementing type, so `impl Merge for MyState` gives
/// the reducer used when a node's delta has the shape of the state itself.
pub trait Merge<D = Self>: Sized {
    /// The state that merging `delta` into `self` produces.
    spec fn spec_merge(self, delta: D) -> Self;

    /// reduce `delta` into `self`, mutating the current state in place.
    fn merge(&mut self, delta: D)
        ensures
            *final(self) == old(self).spec_merge(delta),
    ;
}

} // verus!
