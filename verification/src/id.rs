use vstd::prelude::*;

use core::cmp::Ordering;
use vstd::std_specs::cmp::PartialOrdSpec;

verus! {

/// Stable identifier for a node in a graph: a zero-based `u32` index.
#[derive(Clone, Copy, Debug, Eq, Hash, Ord, PartialEq, Structural)]
pub struct NodeId(u32);

impl PartialOrd for NodeId {
    /// Identifiers compare as their indices do.
    fn partial_cmp(&self, other: &Self) -> (r: Option<Ordering>) {
        if self.0 < other.0 {
            Some(Ordering::Less)
        } else if self.0 == other.0 {
            Some(Ordering::Equal)
        } else {
            Some(Ordering::Greater)
        }
    }
}

impl vstd::std_specs::cmp::PartialOrdSpecImpl for NodeId {
    open spec fn obeys_partial_cmp_spec() -> bool {
        true
    }

    open spec fn partial_cmp_spec(&self, other: &Self) -> Option<Ordering> {
        if self@ < other@ {
            Some(Ordering::Less)
        } else if self@ == other@ {
            Some(Ordering::Equal)
        } else {
            Some(Ordering::Greater)
        }
    }
}

impl View for NodeId {
    type V = nat;

    /// The zero-based index that this identifier names.
    closed spec fn view(&self) -> nat {
        self.0 as nat
    }
}

impl NodeId {
    /// The identifier whose index is `i` (meaningful for `0 <= i <= u32::MAX`).
    pub closed spec fn from_index(i: int) -> NodeId {
        NodeId(i as u32)
    }

    /// Creates a node identifier from a zero-based index.
    pub fn new(index: u32) -> (id: Self)
        ensures
            id@ == index,
            id == NodeId::from_index(index as int),
    {
        NodeId(index)
    }

    /// Returns this identifier as a zero-based `usize` index.
    pub fn index(self) -> (i: usize)
        ensures
            i == self@,
    {
        self.0 as usize
    }

    /// Returns this identifier as its compact `u32` representation.
    pub fn as_u32(self) -> (v: u32)
        ensures
            v == self@,
    {
        self.0
    }
}

/// Every identifier's index fits in a `u32`.
pub broadcast proof fn lemma_node_id_bound(id: NodeId)
    ensures
        #[trigger] id@ <= u32::MAX,
{
}

/// Two identifiers with the same index are the same identifier.
pub broadcast proof fn lemma_node_id_injective(a: NodeId, b: NodeId)
    ensures
        #[trigger] a@ == #[trigger] b@ <==> a == b,
{
}

/// `from_index` names the index it is given.
pub broadcast proof fn lemma_from_index(i: int)
    requires
        0 <= i <= u32::MAX,
    ensures
        (#[trigger] NodeId::from_index(i))@ == i,
{
}

/// Every identifier is `from_index` of its own index.
pub broadcast proof fn lemma_from_index_view(id: NodeId)
    ensures
        #[trigger] NodeId::from_index(id@ as int) == id,
{
}

/// Identifiers compare as their indices do: `a < b` exactly when `a@ < b@`,
/// and likewise for equality and `>`.
pub proof fn lemma_node_id_order(a: NodeId, b: NodeId)
    ensures
        (a.partial_cmp_spec(&b) == Some(Ordering::Less)) <==> a@ < b@,
        (a.partial_cmp_spec(&b) == Some(Ordering::Equal)) <==> a@ == b@,
        (a.partial_cmp_spec(&b) == Some(Ordering::Greater)) <==> a@ > b@,
{
}

pub broadcast group group_node_id {
    lemma_node_id_bound,
    lemma_node_id_injective,
    lemma_from_index,
    lemma_from_index_view,
}

} // verus!
