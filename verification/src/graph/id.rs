//! node identity and control flow
//!
//! graphs are keyed by `NodeId`. `NodeId::start()` and `NodeId::end()` are
//! sentinels: they mark where a run enters and leaves the graph and are never
//! runnable nodes themselves.

use vstd::prelude::*;
use vstd::utf8::{encode_utf8, encode_utf8_decode_utf8};

verus! {

/// name for a node slot in a graph definition
#[derive(Clone, Copy, Debug, Hash)]
pub struct NodeId(pub &'static str);

impl NodeId {
    /// graph entry; a run starts by asking the entry's router where to go
    pub fn start() -> (id: NodeId)
        ensures
            id@ == start_name(),
    {
        NodeId("__start__")
    }

    /// graph exit; routing here ends a run
    pub fn end() -> (id: NodeId)
        ensures
            id@ == end_name(),
    {
        NodeId("__end__")
    }
}

impl View for NodeId {
    type V = Seq<char>;

    /// a node id is its name
    open spec fn view(&self) -> Seq<char> {
        self.0@
    }
}

/// The name of the entry sentinel.
pub open spec fn start_name() -> Seq<char> {
    "__start__"@
}

/// The name of the exit sentinel.
pub open spec fn end_name() -> Seq<char> {
    "__end__"@
}

/// The two sentinels have different names.
pub proof fn lemma_sentinels_differ()
    ensures
        start_name() != end_name(),
{
    reveal_strlit("__start__");
    reveal_strlit("__end__");
    assert(start_name()[2] != end_name()[2]);
}

/// Compares two strings by their UTF-8 encodings.
fn same_text(a: &str, b: &str) -> (r: bool)
    ensures
        r == (a@ == b@),
{
    let x = a.as_bytes();
    let y = b.as_bytes();
    let n = x.len();
    if n != y.len() {
        return false;
    }
    let mut i: usize = 0;
    while i < n
        invariant
            n == x@.len(),
            n == y@.len(),
            x@ == encode_utf8(a@),
            y@ == encode_utf8(b@),
            0 <= i <= n,
            forall|j: int| 0 <= j < i ==> x@[j] == y@[j],
        decreases n - i,
    {
        if x[i] != y[i] {
            return false;
        }
        i = i + 1;
    }
    proof {
        assert(x@ =~= y@);
        encode_utf8_decode_utf8(a@);
        encode_utf8_decode_utf8(b@);
    }
    true
}

impl PartialEq for NodeId {
    fn eq(&self, other: &NodeId) -> (r: bool) {
        same_text(self.0, other.0)
    }
}

impl vstd::std_specs::cmp::PartialEqSpecImpl for NodeId {
    open spec fn obeys_eq_spec() -> bool {
        true
    }

    open spec fn eq_spec(&self, other: &NodeId) -> bool {
        self@ == other@
    }
}

impl Eq for NodeId {}

/// values that name a node: node ids themselves and static strings.
pub trait IntoNodeId {
    /// The name of the node this value names.
    spec fn spec_id(&self) -> Seq<char>;

    /// the node id this value names
    fn into_node_id(self) -> (id: NodeId)
        ensures
            id@ == self.spec_id(),
    ;
}

impl IntoNodeId for NodeId {
    open spec fn spec_id(&self) -> Seq<char> {
        self@
    }

    fn into_node_id(self) -> (id: NodeId) {
        self
    }
}

impl IntoNodeId for &'static str {
    open spec fn spec_id(&self) -> Seq<char> {
        self@
    }

    fn into_node_id(self) -> (id: NodeId) {
        NodeId(self)
    }
}

/// where to go after the current node finished and its delta was merged
#[derive(Clone, Copy, Debug)]
pub enum Next {
    /// continue at another node
    Node(NodeId),
    /// stop (`NodeId::end()`)
    End,
}

impl View for Next {
    /// `Some(name)` continues at the node `name`, `None` stops.
    type V = Option<Seq<char>>;

    open spec fn view(&self) -> Option<Seq<char>> {
        match self {
            Next::Node(id) => Some(id@),
            Next::End => None,
        }
    }
}

/// Where routing to the node named `name` leads: the exit sentinel stops,
/// every other name continues at that node.
pub open spec fn next_of(name: Seq<char>) -> Option<Seq<char>> {
    if name == end_name() {
        None
    } else {
        Some(name)
    }
}

impl Next {
    /// normalize `NodeId::end()` into `Next::End`
    pub fn from_node(id: NodeId) -> (n: Next)
        ensures
            n@ == next_of(id@),
    {
        if id == NodeId::end() {
            Next::End
        } else {
            Next::Node(id)
        }
    }
}

impl PartialEq for Next {
    fn eq(&self, other: &Next) -> (r: bool) {
        match (self, other) {
            (Next::Node(a), Next::Node(b)) => *a == *b,
            (Next::End, Next::End) => true,
            _ => false,
        }
    }
}

impl vstd::std_specs::cmp::PartialEqSpecImpl for Next {
    open spec fn obeys_eq_spec() -> bool {
        true
    }

    open spec fn eq_spec(&self, other: &Next) -> bool {
        self@ == other@
    }
}

impl Eq for Next {}

/// Names of the nodes a list of `Next` values points to.
pub open spec fn next_views(nexts: Seq<Next>) -> Seq<Option<Seq<char>>> {
    nexts.map_values(|n: Next| n@)
}

} // verus!
