use vstd::prelude::*;

use crate::error::{validate_node_id, BuildError};
use crate::graph::{is_csr_of, is_permutation, is_relabeling, Graph};
use crate::id::NodeId;
use crate::reorder::{reorder_order, reorder_root, Reorder};

verus! {

broadcast use crate::id::group_node_id;

/// `v` as a `usize`, kept at `usize::MAX` where it would not fit.
pub open spec fn saturated(v: nat) -> usize {
    if v <= usize::MAX {
        v as usize
    } else {
        usize::MAX
    }
}

/// The count one past `len`, kept at `usize::MAX` where it would not fit.
pub open spec fn one_more(len: nat) -> usize {
    saturated(len + 1)
}

/// Mutable builder for an immutable `Graph`.
///
/// The builder accepts nodes and directed edges in insertion order. Calling
/// `build` consumes the builder and compacts the data into the graph's CSR
/// layout.
#[derive(Debug)]
pub struct GraphBuilder<N, E> {
    nodes: Vec<N>,
    edges: Vec<(NodeId, NodeId, E)>,
    reorder: Reorder,
}

impl<N, E> GraphBuilder<N, E> {
    /// What every builder keeps: both counts fit in `u32`, and every edge
    /// joins two nodes that were added before it.
    #[verifier::type_invariant]
    spec fn wf(self) -> bool {
        &&& self.nodes@.len() <= u32::MAX
        &&& self.edges@.len() <= u32::MAX
        &&& forall|k: int|
            0 <= k < self.edges@.len() ==> (#[trigger] self.edges@[k]).0@ < self.nodes@.len()
                && self.edges@[k].1@ < self.nodes@.len()
    }

    /// The node payloads added so far, in order.
    pub closed spec fn spec_nodes(&self) -> Seq<N> {
        self.nodes@
    }

    /// The edges added so far, as `(source, target, payload)` in order.
    pub closed spec fn spec_edges(&self) -> Seq<(NodeId, NodeId, E)> {
        self.edges@
    }

    /// The reordering strategy `build` applies.
    pub closed spec fn spec_reorder(&self) -> Reorder {
        self.reorder
    }

    /// Creates an empty graph builder.
    pub fn new() -> (b: Self)
        ensures
            b.spec_nodes() == Seq::<N>::empty(),
            b.spec_edges() == Seq::<(NodeId, NodeId, E)>::empty(),
            b.spec_reorder() == Reorder::Unchanged,
    {
        GraphBuilder { nodes: Vec::new(), edges: Vec::new(), reorder: Reorder::Unchanged }
    }

    /// Creates an empty graph builder with storage reserved up front.
    pub fn with_capacity(nodes: usize, edges: usize) -> (b: Self)
        ensures
            b.spec_nodes() == Seq::<N>::empty(),
            b.spec_edges() == Seq::<(NodeId, NodeId, E)>::empty(),
            b.spec_reorder() == Reorder::Unchanged,
    {
        GraphBuilder {
            nodes: Vec::with_capacity(nodes),
            edges: Vec::with_capacity(edges),
            reorder: Reorder::Unchanged,
        }
    }

    /// Sets the node reordering strategy to apply during `build`.
    pub fn reorder(&mut self, reorder: Reorder) -> (r: &mut Self)
        ensures
            r.spec_nodes() == old(self).spec_nodes(),
            r.spec_edges() == old(self).spec_edges(),
            r.spec_reorder() == reorder,
            *final(self) == *final(r),
    {
        proof {
            use_type_invariant(&*self);
        }
        self.reorder = reorder;
        self
    }

    /// Adds a node payload and returns its node ID, the index it was added
    /// at. A builder that already holds `u32::MAX` nodes refuses it.
    pub fn add_node(&mut self, data: N) -> (r: Result<NodeId, BuildError>)
        ensures
            old(self).spec_nodes().len() < u32::MAX ==> r == Ok::<NodeId, BuildError>(
                NodeId::from_index(old(self).spec_nodes().len() as int),
            ) && final(self).spec_nodes() == old(self).spec_nodes().push(data),
            old(self).spec_nodes().len() == u32::MAX ==> r == Err::<NodeId, BuildError>(
                BuildError::TooManyNodes { count: one_more(old(self).spec_nodes().len()) },
            ) && final(self).spec_nodes() == old(self).spec_nodes(),
            final(self).spec_edges() == old(self).spec_edges(),
            final(self).spec_reorder() == old(self).spec_reorder(),
    {
        proof {
            use_type_invariant(&*self);
        }
        let len = self.nodes.len();
        if len == 4294967295usize {
            return Err(BuildError::TooManyNodes { count: len.saturating_add(1) });
        }
        let id = NodeId::new(len as u32);
        let mut taken = GraphBuilder::new();
        core::mem::swap(self, &mut taken);
        proof {
            use_type_invariant(&taken);
        }
        let GraphBuilder { mut nodes, edges, reorder } = taken;
        nodes.push(data);
        *self = GraphBuilder { nodes, edges, reorder };
        Ok(id)
    }

    /// Adds a directed edge from `source` to `target`. An endpoint that names
    /// no node is refused (the source checked first), and so is an edge
    /// beyond `u32::MAX` edges.
    pub fn add_edge(&mut self, source: NodeId, target: NodeId, data: E) -> (r: Result<(), BuildError>)
        ensures
            ({
                let n = old(self).spec_nodes().len();
                let m = old(self).spec_edges().len();
                &&& source@ >= n ==> r == Err::<(), BuildError>(
                    BuildError::InvalidNodeId { id: source, node_count: n as usize },
                )
                &&& source@ < n && target@ >= n ==> r == Err::<(), BuildError>(
                    BuildError::InvalidNodeId { id: target, node_count: n as usize },
                )
                &&& source@ < n && target@ < n && m == u32::MAX ==> r == Err::<(), BuildError>(
                    BuildError::TooManyEdges { count: one_more(m) },
                )
                &&& source@ < n && target@ < n && m < u32::MAX ==> r == Ok::<(), BuildError>(())
                &&& r is Ok ==> final(self).spec_edges() == old(self).spec_edges().push((source, target, data))
                &&& r is Err ==> final(self).spec_edges() == old(self).spec_edges()
            }),
            final(self).spec_nodes() == old(self).spec_nodes(),
            final(self).spec_reorder() == old(self).spec_reorder(),
    {
        proof {
            use_type_invariant(&*self);
        }
        let n = self.nodes.len();
        if let Err(e) = validate_node_id(source, n) {
            return Err(e);
        }
        if let Err(e) = validate_node_id(target, n) {
            return Err(e);
        }
        let m = self.edges.len();
        if m == 4294967295usize {
            return Err(BuildError::TooManyEdges { count: m.saturating_add(1) });
        }
        let mut taken = GraphBuilder::new();
        core::mem::swap(self, &mut taken);
        proof {
            use_type_invariant(&taken);
        }
        let GraphBuilder { nodes, mut edges, reorder } = taken;
        edges.push((source, target, data));
        *self = GraphBuilder { nodes, edges, reorder };
        Ok(())
    }

    /// Returns the number of nodes currently held by the builder.
    pub fn node_count(&self) -> (n: usize)
        ensures
            n == self.spec_nodes().len(),
            n <= u32::MAX,
    {
        proof {
            use_type_invariant(self);
        }
        self.nodes.len()
    }

    /// Returns the number of edges currently held by the builder.
    pub fn edge_count(&self) -> (m: usize)
        ensures
            m == self.spec_edges().len(),
            m <= u32::MAX,
    {
        proof {
            use_type_invariant(self);
        }
        self.edges.len()
    }

    /// Consumes the builder and returns the compact graph of its nodes and
    /// edges, relabeled by its reordering strategy. A strategy whose root
    /// names no node is refused.
    pub fn build(self) -> (r: Result<Graph<N, E>, BuildError>)
        ensures
            ({
                let n = self.spec_nodes().len();
                let reorder = self.spec_reorder();
                &&& (reorder_root(reorder) matches Some(x) && x@ >= n) ==> r == Err::<Graph<N, E>, BuildError>(
                    BuildError::InvalidNodeId { id: reorder_root(reorder)->0, node_count: n as usize },
                )
                &&& !(reorder_root(reorder) matches Some(x) && x@ >= n) ==> (r matches Ok(g) && exists|base: Graph<N, E>|
                    is_csr_of(base, self.spec_nodes(), self.spec_edges()) && #[trigger] is_relabeling(
                        base,
                        g,
                        reorder_order(base.spec_adj(), reorder),
                    ) && is_permutation(reorder_order(base.spec_adj(), reorder), n))
            }),
    {
        proof {
            use_type_invariant(&self);
            crate::graph::lemma_no_invalid_endpoint_rev(self.edges@, self.nodes@.len() as int);
        }
        let GraphBuilder { nodes, edges, reorder } = self;
        let base = match Graph::from_edges(nodes, edges) {
            Ok(g) => g,
            Err(e) => {
                return Err(e);
            },
        };
        let ghost b = base;
        let r = base.into_reordered(reorder);
        proof {
            if r is Ok {
                assert(is_relabeling(b, r->Ok_0, reorder_order(b.spec_adj(), reorder)));
            }
        }
        r
    }
}

impl<N: Clone, E: Clone> Clone for GraphBuilder<N, E> {
    /// A builder with the same nodes, edges and strategy, whose payloads are
    /// clones of these.
    fn clone(&self) -> (b: Self)
        ensures
            b.spec_nodes().len() == self.spec_nodes().len(),
            forall|i: int| 0 <= i < self.spec_nodes().len() ==> cloned(self.spec_nodes()[i], #[trigger] b.spec_nodes()[i]),
            b.spec_edges().len() == self.spec_edges().len(),
            forall|k: int|
                0 <= k < self.spec_edges().len() ==> (#[trigger] b.spec_edges()[k]).0 == self.spec_edges()[k].0
                    && b.spec_edges()[k].1 == self.spec_edges()[k].1 && cloned(self.spec_edges()[k].2, b.spec_edges()[k].2),
            b.spec_reorder() == self.spec_reorder(),
    {
        proof {
            use_type_invariant(self);
        }
        let mut nodes: Vec<N> = Vec::with_capacity(self.nodes.len());
        let mut i: usize = 0;
        while i < self.nodes.len()
            invariant
                i <= self.nodes@.len(),
                nodes@.len() == i,
                forall|j: int| 0 <= j < i ==> cloned(self.nodes@[j], #[trigger] nodes@[j]),
            decreases self.nodes@.len() - i,
        {
            nodes.push(self.nodes[i].clone());
            i = i + 1;
        }
        let mut edges: Vec<(NodeId, NodeId, E)> = Vec::with_capacity(self.edges.len());
        let mut k: usize = 0;
        while k < self.edges.len()
            invariant
                k <= self.edges@.len(),
                edges@.len() == k,
                forall|j: int|
                    0 <= j < k ==> (#[trigger] edges@[j]).0 == self.edges@[j].0 && edges@[j].1 == self.edges@[j].1
                        && cloned(self.edges@[j].2, edges@[j].2),
            decreases self.edges@.len() - k,
        {
            let e = &self.edges[k];
            edges.push((e.0, e.1, e.2.clone()));
            k = k + 1;
        }
        GraphBuilder { nodes, edges, reorder: self.reorder }
    }
}

impl<N, E> Default for GraphBuilder<N, E> {
    /// An empty graph builder.
    fn default() -> (b: Self)
        ensures
            b.spec_nodes() == Seq::<N>::empty(),
            b.spec_edges() == Seq::<(NodeId, NodeId, E)>::empty(),
            b.spec_reorder() == Reorder::Unchanged,
    {
        Self::new()
    }
}

impl<N, E> Graph<N, E> {
    /// Creates an empty mutable builder for this graph type.
    pub fn builder() -> (b: GraphBuilder<N, E>)
        ensures
            b.spec_nodes() == Seq::<N>::empty(),
            b.spec_edges() == Seq::<(NodeId, NodeId, E)>::empty(),
            b.spec_reorder() == Reorder::Unchanged,
    {
        GraphBuilder::new()
    }
}

} // verus!
