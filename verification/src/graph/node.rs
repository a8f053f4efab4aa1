//! nodes: read state and emit deltas
//!
//! a node is one unit of work. it takes the current [`State`] snapshot by
//! reference and returns a [`StateDelta`]; it never mutates the state itself,
//! the run merges the delta into the state. a node may have side effects
//! (model calls, tool use, remote connections, I/O): its delta need not be a
//! function of the state, and a run merges whatever delta comes back.
//!
//! ```text
//! run: &State ──► Delta ──run──► Merge ──► next State
//! ```

use vstd::prelude::*;

pub use crate::graph::id::{Next, NodeId};
use crate::graph::state::{Merge, State, StateDelta};

verus! {

/// a graph node reads a shared reference to the state and outputs a partial
/// update as a delta. the associated types tie each node to the state shape it
/// reads and the delta shape it emits; `State: Merge<Delta>` guarantees that a
/// run can always apply the node's output.
pub trait Node {
    /// graph state this node reads
    type State: State + Merge<Self::Delta>;

    /// partial update this node produces
    type Delta: StateDelta;

    /// Whether this node may emit `delta` when it runs against `state`. A node
    /// whose delta is a function of the state holds this for that delta alone;
    /// a node that asks an outside service holds it for every answer the
    /// service may give.
    spec fn spec_emits(&self, state: Self::State, delta: Self::Delta) -> bool;

    /// run the node against the current state. side effects belong here; the
    /// state change still comes back as a delta for the run to merge.
    fn run(&self, state: &Self::State) -> (delta: Self::Delta)
        ensures
            self.spec_emits(*state, delta),
    ;
}

} // verus!
