use vstd::prelude::*;

use crate::error::{validate_node_id, BuildError};
use crate::id::NodeId;

use vstd::layout::size_of;

verus! {

broadcast use crate::id::group_node_id;

/// Sum of the first `i` entries of `c`.
pub open spec fn prefix_sum(c: Seq<u32>, i: int) -> int
    decreases i,
{
    if i <= 0 {
        0
    } else {
        prefix_sum(c, i - 1) + c[i - 1]
    }
}

/// Prefix sums grow with their length.
pub proof fn lemma_prefix_sum_mono(c: Seq<u32>, i: int, j: int)
    requires
        0 <= i <= j,
    ensures
        prefix_sum(c, i) <= prefix_sum(c, j),
    decreases j - i,
{
    if i < j {
        lemma_prefix_sum_mono(c, i, j - 1);
    }
}

/// A prefix sum only looks at the entries before its end.
pub proof fn lemma_prefix_sum_agree(c: Seq<u32>, d: Seq<u32>, i: int)
    requires
        0 <= i,
        forall|k: int| 0 <= k < i ==> c[k] == d[k],
    ensures
        prefix_sum(c, i) == prefix_sum(d, i),
    decreases i,
{
    if i > 0 {
        lemma_prefix_sum_agree(c, d, i - 1);
    }
}

/// Raising entry `s` to `v` raises every prefix sum that covers it by the difference.
pub proof fn lemma_prefix_sum_update(c: Seq<u32>, s: int, v: u32, i: int)
    requires
        0 <= s < c.len(),
        0 <= i <= c.len(),
    ensures
        prefix_sum(c.update(s, v), i) == prefix_sum(c, i) + (if s < i { v - c[s] } else { 0 }),
    decreases i,
{
    if i > 0 {
        lemma_prefix_sum_update(c, s, v, i - 1);
    }
}

/// Every position below the total lies in exactly one bucket `[prefix_sum(j), prefix_sum(j + 1))`.
pub proof fn lemma_bucket_of(c: Seq<u32>, n: int, p: int) -> (j: int)
    requires
        0 <= n,
        0 <= p < prefix_sum(c, n),
    ensures
        0 <= j < n,
        prefix_sum(c, j) <= p < prefix_sum(c, j + 1),
    decreases n,
{
    if p >= prefix_sum(c, n - 1) {
        n - 1
    } else {
        lemma_bucket_of(c, n - 1, p)
    }
}

/// The edges of `edges` whose source is node `j`, in input order.
pub open spec fn from_source<E>(edges: Seq<(NodeId, NodeId, E)>, j: int) -> Seq<(NodeId, NodeId, E)> {
    edges.filter(source_is::<E>(j))
}

/// Holds of the edges whose source is node `j`.
pub open spec fn source_is<E>(j: int) -> spec_fn((NodeId, NodeId, E)) -> bool {
    |e: (NodeId, NodeId, E)| e.0@ == j
}

/// `from_source` of a sequence with one more edge at the end.
pub proof fn lemma_from_source_push<E>(edges: Seq<(NodeId, NodeId, E)>, x: (NodeId, NodeId, E), j: int)
    ensures
        from_source(edges.push(x), j) == if x.0@ == j {
            from_source(edges, j).push(x)
        } else {
            from_source(edges, j)
        },
        from_source(edges, j).len() <= edges.len(),
{
    edges.lemma_filter_push(x, source_is::<E>(j));
    edges.lemma_filter_len(source_is::<E>(j));
}

/// `from_source` of a sequence with one more edge at the front.
pub proof fn lemma_from_source_prepend<E>(edges: Seq<(NodeId, NodeId, E)>, x: (NodeId, NodeId, E), j: int)
    ensures
        from_source(seq![x] + edges, j) == (if x.0@ == j {
            seq![x]
        } else {
            Seq::empty()
        }) + from_source(edges, j),
{
    edges.lemma_filter_prepend(x, source_is::<E>(j));
}

/// `from_source` distributes over concatenation.
pub proof fn lemma_from_source_add<E>(a: Seq<(NodeId, NodeId, E)>, b: Seq<(NodeId, NodeId, E)>, j: int)
    ensures
        from_source(a + b, j) == from_source(a, j) + from_source(b, j),
{
    Seq::filter_distributes_over_add(a, b, source_is::<E>(j));
}

/// No edge comes from any node of an empty sequence.
pub proof fn lemma_from_source_empty<E>(edges: Seq<(NodeId, NodeId, E)>, j: int)
    requires
        edges.len() == 0,
    ensures
        from_source(edges, j).len() == 0,
{
    reveal(Seq::filter);
}

/// The first endpoint, in input order (source before target), that does not
/// name one of `n` nodes.
pub open spec fn first_invalid_endpoint<E>(edges: Seq<(NodeId, NodeId, E)>, n: int) -> Option<NodeId>
    decreases edges.len(),
{
    if edges.len() == 0 {
        None
    } else {
        match first_invalid_endpoint(edges.drop_last(), n) {
            Some(id) => Some(id),
            None => {
                let e = edges.last();
                if e.0@ >= n {
                    Some(e.0)
                } else if e.1@ >= n {
                    Some(e.1)
                } else {
                    None
                }
            },
        }
    }
}

/// With no invalid endpoint, every endpoint names one of the `n` nodes.
pub proof fn lemma_no_invalid_endpoint<E>(edges: Seq<(NodeId, NodeId, E)>, n: int)
    requires
        first_invalid_endpoint(edges, n) is None,
    ensures
        forall|k: int| 0 <= k < edges.len() ==> (#[trigger] edges[k]).0@ < n && edges[k].1@ < n,
    decreases edges.len(),
{
    if edges.len() > 0 {
        lemma_no_invalid_endpoint(edges.drop_last(), n);
        assert forall|k: int| 0 <= k < edges.len() implies (#[trigger] edges[k]).0@ < n && edges[k].1@ < n by {
            if k < edges.len() - 1 {
                assert(edges[k] == edges.drop_last()[k]);
            }
        }
    }
}

/// With every endpoint naming one of the `n` nodes, none is invalid.
pub proof fn lemma_no_invalid_endpoint_rev<E>(edges: Seq<(NodeId, NodeId, E)>, n: int)
    requires
        forall|k: int| 0 <= k < edges.len() ==> (#[trigger] edges[k]).0@ < n && edges[k].1@ < n,
    ensures
        first_invalid_endpoint(edges, n) is None,
    decreases edges.len(),
{
    if edges.len() > 0 {
        assert forall|k: int| 0 <= k < edges.drop_last().len() implies (#[trigger] edges.drop_last()[k]).0@ < n
            && edges.drop_last()[k].1@ < n by {
            assert(edges.drop_last()[k] == edges[k]);
        }
        lemma_no_invalid_endpoint_rev(edges.drop_last(), n);
        assert(edges.last() == edges[edges.len() - 1]);
    }
}

/// An invalid endpoint found in a prefix is the first invalid endpoint of the whole sequence.
pub proof fn lemma_invalid_endpoint_prefix<E>(edges: Seq<(NodeId, NodeId, E)>, k: int, n: int)
    requires
        0 <= k <= edges.len(),
        first_invalid_endpoint(edges.take(k), n) is Some,
    ensures
        first_invalid_endpoint(edges, n) == first_invalid_endpoint(edges.take(k), n),
    decreases edges.len(),
{
    if k < edges.len() {
        assert(edges.drop_last().take(k) =~= edges.take(k));
        lemma_invalid_endpoint_prefix(edges.drop_last(), k, n);
    } else {
        assert(edges.take(k) =~= edges);
    }
}

/// `g` holds the nodes `nodes` and the edges `edges`: node `j` has the
/// payload `nodes[j]`, and its outgoing edges are the edges of `edges` whose
/// source is `j`, in input order.
pub open spec fn is_csr_of<N, E>(g: Graph<N, E>, nodes: Seq<N>, edges: Seq<(NodeId, NodeId, E)>) -> bool {
    &&& g.spec_nodes() == nodes
    &&& g.spec_edge_count() == edges.len()
    &&& g.spec_adj().len() == nodes.len()
    &&& g.spec_out_data().len() == nodes.len()
    &&& forall|j: int|
        0 <= j < nodes.len() ==> #[trigger] g.spec_adj()[j] == from_source(edges, j).map_values(
            |e: (NodeId, NodeId, E)| e.1,
        )
    &&& forall|j: int|
        0 <= j < nodes.len() ==> #[trigger] g.spec_out_data()[j] == from_source(edges, j).map_values(
            |e: (NodeId, NodeId, E)| e.2,
        )
}

/// CSR header for one node: its payload and the range of its outgoing edges.
#[derive(Debug)]
pub(crate) struct Node<N> {
    pub(crate) data: N,
    /// Offset of this node's first outgoing edge in the edge arrays.
    pub(crate) first_edge: u32,
    /// Number of edges in this node's contiguous outgoing range.
    pub(crate) edge_count: u32,
}

pub(crate) open spec fn counts_of<N>(nodes: Seq<Node<N>>) -> Seq<u32> {
    nodes.map_values(|x: Node<N>| x.edge_count)
}

/// A directed, immutable graph stored in compressed sparse row (CSR) form,
/// with edge targets and edge payloads in separate contiguous arrays.
#[derive(Debug)]
pub struct Graph<N, E> {
    nodes: Vec<Node<N>>,
    edge_targets: Vec<NodeId>,
    edge_data: Vec<E>,
}

/// Borrowed view of one outgoing edge.
#[derive(Debug)]
pub struct EdgeRef<'a, E> {
    target: NodeId,
    data: &'a E,
}

impl<'a, E> Clone for EdgeRef<'a, E> {
    fn clone(&self) -> (r: Self)
        ensures
            r == *self,
    {
        *self
    }
}

impl<'a, E> Copy for EdgeRef<'a, E> {
}

impl<'a, E> View for EdgeRef<'a, E> {
    type V = (NodeId, E);

    closed spec fn view(&self) -> (NodeId, E) {
        (self.target, *self.data)
    }
}

impl<'a, E> EdgeRef<'a, E> {
    /// Returns the edge target.
    pub fn target(self) -> (t: NodeId)
        ensures
            t == self@.0,
    {
        self.target
    }

    /// Returns the edge payload.
    pub fn data(self) -> (d: &'a E)
        ensures
            *d == self@.1,
    {
        self.data
    }
}

impl<N, E> Graph<N, E> {
    spec fn start(self, i: int) -> int {
        prefix_sum(counts_of(self.nodes@), i)
    }

    #[verifier::type_invariant]
    pub closed spec fn wf(self) -> bool {
        let n = self.nodes@.len();
        &&& n <= u32::MAX
        &&& self.edge_targets@.len() == self.edge_data@.len()
        &&& self.edge_targets@.len() <= u32::MAX
        &&& self.start(n as int) == self.edge_targets@.len()
        &&& forall|i: int| 0 <= i < n ==> self.nodes@[i].first_edge == self.start(i)
        &&& forall|k: int| 0 <= k < self.edge_targets@.len() ==> self.edge_targets@[k]@ < n
    }

    /// The node payloads, in node order.
    pub closed spec fn spec_nodes(&self) -> Seq<N> {
        self.nodes@.map_values(|x: Node<N>| x.data)
    }

    /// For each node, the targets of its outgoing edges in stored order.
    pub closed spec fn spec_adj(&self) -> Seq<Seq<NodeId>> {
        Seq::new(
            self.nodes@.len(),
            |i: int| self.edge_targets@.subrange(self.start(i), self.start(i + 1)),
        )
    }

    /// For each node, the payloads of its outgoing edges, parallel to `spec_adj`.
    pub closed spec fn spec_out_data(&self) -> Seq<Seq<E>> {
        Seq::new(
            self.nodes@.len(),
            |i: int| self.edge_data@.subrange(self.start(i), self.start(i + 1)),
        )
    }

    /// The number of edges in the graph.
    pub closed spec fn spec_edge_count(&self) -> nat {
        self.edge_targets@.len()
    }

    /// The number of nodes in the graph.
    pub open spec fn spec_node_count(&self) -> nat {
        self.spec_nodes().len()
    }

    /// The outgoing edges of node `i` as `(target, payload)` pairs in stored order.
    pub open spec fn spec_out_edges(&self, i: int) -> Seq<(NodeId, E)> {
        Seq::new(
            self.spec_adj()[i].len(),
            |k: int| (self.spec_adj()[i][k], self.spec_out_data()[i][k]),
        )
    }

    /// What every graph satisfies: counts fit in `u32`, the adjacency views
    /// have one entry per node, and every edge target names a node.
    pub open spec fn shape_ok(&self) -> bool {
        let n = self.spec_nodes().len();
        &&& n <= u32::MAX
        &&& self.spec_edge_count() <= u32::MAX
        &&& self.spec_adj().len() == n
        &&& self.spec_out_data().len() == n
        &&& forall|i: int| 0 <= i < n ==> #[trigger] self.spec_adj()[i].len() == self.spec_out_data()[i].len()
        &&& crate::paths::targets_valid(self.spec_adj())
        &&& crate::paths::total_degree(self.spec_adj(), n as int) == self.spec_edge_count()
    }

    proof fn lemma_start_bounds(self, i: int)
        requires
            self.wf(),
            0 <= i < self.nodes@.len(),
        ensures
            0 <= self.start(i) <= self.start(i + 1) <= self.edge_targets@.len(),
            self.start(i + 1) == self.start(i) + self.nodes@[i].edge_count,
    {
        lemma_prefix_sum_mono(counts_of(self.nodes@), 0, i);
        lemma_prefix_sum_mono(counts_of(self.nodes@), i + 1, self.nodes@.len() as int);
    }

    proof fn lemma_total_degree(self, i: int)
        requires
            self.wf(),
            0 <= i <= self.nodes@.len(),
        ensures
            crate::paths::total_degree(self.spec_adj(), i) == self.start(i),
        decreases i,
    {
        if i > 0 {
            self.lemma_total_degree(i - 1);
            self.lemma_start_bounds(i - 1);
        }
    }

    /// Every graph has the shape described by `shape_ok`.
    pub proof fn lemma_shape(self)
        requires
            self.wf(),
        ensures
            self.shape_ok(),
    {
        let n = self.nodes@.len();
        assert forall|i: int, k: int|
            0 <= i < self.spec_adj().len() && 0 <= k < self.spec_adj()[i].len() implies (#[trigger] self.spec_adj()[i][k])@ < self.spec_adj().len() by {
            self.lemma_start_bounds(i);
            assert(self.spec_adj()[i][k] == self.edge_targets@[self.start(i) + k]);
        }
        assert forall|i: int| 0 <= i < n implies #[trigger] self.spec_adj()[i].len() == self.spec_out_data()[i].len() by {
            self.lemma_start_bounds(i);
        }
        self.lemma_total_degree(n as int);
    }

    /// Returns the number of nodes in the graph.
    pub fn node_count(&self) -> (n: usize)
        ensures
            n == self.spec_node_count(),
            self.shape_ok(),
    {
        proof {
            use_type_invariant(self);
            self.lemma_shape();
        }
        self.nodes.len()
    }

    /// Returns the number of edges in the graph.
    pub fn edge_count(&self) -> (m: usize)
        ensures
            m == self.spec_edge_count(),
    {
        self.edge_targets.len()
    }

    /// Returns true when the graph has no nodes.
    pub fn is_empty(&self) -> (b: bool)
        ensures
            b == (self.spec_node_count() == 0),
    {
        self.nodes.len() == 0
    }

    /// Out-degree of node `u`, for a valid index.
    pub(crate) fn degree_at(&self, u: usize) -> (d: usize)
        requires
            u < self.spec_node_count(),
        ensures
            d == self.spec_adj()[u as int].len(),
    {
        proof {
            use_type_invariant(self);
            self.lemma_start_bounds(u as int);
        }
        self.nodes[u].edge_count as usize
    }

    /// Target of the `k`-th outgoing edge of node `u`.
    pub(crate) fn target_at(&self, u: usize, k: usize) -> (t: NodeId)
        requires
            u < self.spec_node_count(),
            k < self.spec_adj()[u as int].len(),
        ensures
            t == self.spec_adj()[u as int][k as int],
    {
        proof {
            use_type_invariant(self);
            self.lemma_start_bounds(u as int);
        }
        let i = self.nodes[u].first_edge as usize + k;
        self.edge_targets[i]
    }

    /// Payload of the `k`-th outgoing edge of node `u`.
    pub(crate) fn payload_at(&self, u: usize, k: usize) -> (d: &E)
        requires
            u < self.spec_node_count(),
            k < self.spec_adj()[u as int].len(),
        ensures
            *d == self.spec_out_data()[u as int][k as int],
    {
        proof {
            use_type_invariant(self);
            self.lemma_start_bounds(u as int);
        }
        let i = self.nodes[u].first_edge as usize + k;
        &self.edge_data[i]
    }
}


impl<N, E> Graph<N, E> {
    /// Builds a graph from node payloads, per-node out-degrees, and the edge
    /// arrays already grouped by source node.
    fn assemble(payloads: Vec<N>, counts: Vec<u32>, targets: Vec<NodeId>, data: Vec<E>) -> (g: Self)
        requires
            payloads@.len() == counts@.len(),
            payloads@.len() <= u32::MAX,
            targets@.len() == data@.len(),
            targets@.len() <= u32::MAX,
            prefix_sum(counts@, counts@.len() as int) == targets@.len(),
            forall|k: int| 0 <= k < targets@.len() ==> targets@[k]@ < payloads@.len(),
        ensures
            g.spec_nodes() == payloads@,
            g.spec_edge_count() == targets@.len(),
            g.spec_adj().len() == payloads@.len(),
            g.spec_out_data().len() == payloads@.len(),
            forall|i: int|
                0 <= i < payloads@.len() ==> #[trigger] g.spec_adj()[i] == targets@.subrange(
                    prefix_sum(counts@, i),
                    prefix_sum(counts@, i + 1),
                ),
            forall|i: int|
                0 <= i < payloads@.len() ==> #[trigger] g.spec_out_data()[i] == data@.subrange(
                    prefix_sum(counts@, i),
                    prefix_sum(counts@, i + 1),
                ),
    {
        let n = payloads.len();
        let ghost orig = payloads@;
        let mut payloads = payloads;
        let mut rev: Vec<N> = Vec::new();
        while payloads.len() > 0
            invariant
                payloads@.len() + rev@.len() == n,
                orig.len() == n,
                payloads@ == orig.take(payloads@.len() as int),
                forall|j: int| 0 <= j < rev@.len() ==> #[trigger] rev@[j] == orig[n - 1 - j],
            decreases payloads@.len(),
        {
            let x = payloads.pop().unwrap();
            rev.push(x);
        }
        let mut nodes: Vec<Node<N>> = Vec::with_capacity(n);
        let mut acc: u32 = 0;
        let mut i: usize = 0;
        while i < n
            invariant
                i <= n,
                n == counts@.len(),
                n == orig.len(),
                n <= u32::MAX,
                nodes@.len() == i,
                rev@.len() == n - i,
                prefix_sum(counts@, n as int) <= u32::MAX,
                forall|j: int| 0 <= j < rev@.len() ==> #[trigger] rev@[j] == orig[n - 1 - j],
                forall|j: int|
                    0 <= j < i ==> (#[trigger] nodes@[j]).data == orig[j] && nodes@[j].edge_count
                        == counts@[j] && nodes@[j].first_edge == prefix_sum(counts@, j),
                acc == prefix_sum(counts@, i as int),
            decreases n - i,
        {
            let x = rev.pop().unwrap();
            let c = counts[i];
            proof {
                lemma_prefix_sum_mono(counts@, i + 1, n as int);
            }
            nodes.push(Node { data: x, first_edge: acc, edge_count: c });
            acc = acc + c;
            i = i + 1;
        }
        proof {
            assert(counts_of(nodes@) =~= counts@);
        }
        let g = Graph { nodes, edge_targets: targets, edge_data: data };
        proof {
            assert(g.spec_nodes() =~= orig);
        }
        g
    }

    /// Builds an immutable directed graph from node payloads and directed
    /// `(source, target, payload)` edges.
    ///
    /// Outgoing edges are grouped by source node into contiguous ranges; the
    /// edges of one source keep their input order.
    pub fn from_edges(nodes: Vec<N>, edges: Vec<(NodeId, NodeId, E)>) -> (r: Result<Self, BuildError>)
        ensures
            nodes@.len() > u32::MAX ==> r == Err::<Self, BuildError>(
                BuildError::TooManyNodes { count: nodes@.len() as usize },
            ),
            nodes@.len() <= u32::MAX && edges@.len() > u32::MAX ==> r == Err::<Self, BuildError>(
                BuildError::TooManyEdges { count: edges@.len() as usize },
            ),
            nodes@.len() <= u32::MAX && edges@.len() <= u32::MAX ==> match first_invalid_endpoint(
                edges@,
                nodes@.len() as int,
            ) {
                Some(id) => r == Err::<Self, BuildError>(
                    BuildError::InvalidNodeId { id, node_count: nodes@.len() as usize },
                ),
                None => r is Ok,
            },
            r matches Ok(g) ==> is_csr_of(g, nodes@, edges@),
    {
        if nodes.len() > u32::MAX as usize {
            return Err(BuildError::TooManyNodes { count: nodes.len() });
        }
        let n = nodes.len();
        if edges.len() > u32::MAX as usize {
            return Err(BuildError::TooManyEdges { count: edges.len() });
        }
        let m = edges.len();
        let ghost input = edges@;

        // Every endpoint must name a node; report the first one that does not.
        let mut k: usize = 0;
        while k < m
            invariant
                m == input.len(),
                edges@ == input,
                n == nodes@.len(),
                n <= u32::MAX,
                m <= u32::MAX,
                k <= m,
                first_invalid_endpoint(input.take(k as int), n as int) is None,
            decreases m - k,
        {
            let s = edges[k].0;
            let t = edges[k].1;
            proof {
                assert(input.take(k + 1).drop_last() =~= input.take(k as int));
            }
            match validate_node_id(s, n) {
                Err(e) => {
                    proof {
                        lemma_invalid_endpoint_prefix(input, k + 1, n as int);
                    }
                    return Err(e);
                },
                Ok(()) => {},
            }
            match validate_node_id(t, n) {
                Err(e) => {
                    proof {
                        lemma_invalid_endpoint_prefix(input, k + 1, n as int);
                    }
                    return Err(e);
                },
                Ok(()) => {},
            }
            k = k + 1;
        }
        proof {
            assert(input.take(m as int) =~= input);
            lemma_no_invalid_endpoint(input, n as int);
        }

        // Out-degree of every node.
        let mut counts: Vec<u32> = Vec::with_capacity(n);
        let mut i: usize = 0;
        while i < n
            invariant
                i <= n,
                counts@.len() == i,
                forall|j: int| 0 <= j < i ==> counts@[j] == 0,
            decreases n - i,
        {
            counts.push(0);
            i = i + 1;
        }
        proof {
            assert forall|j: int| 0 <= j < n implies #[trigger] from_source(input.take(0), j).len() == 0 by {
                lemma_from_source_empty(input.take(0), j);
            }
            lemma_prefix_sum_zero(counts@, n as int);
        }
        let mut k: usize = 0;
        while k < m
            invariant
                m == input.len(),
                edges@ == input,
                k <= m,
                m <= u32::MAX,
                counts@.len() == n,
                forall|q: int| 0 <= q < m ==> (#[trigger] input[q]).0@ < n && input[q].1@ < n,
                forall|j: int| 0 <= j < n ==> counts@[j] == #[trigger] from_source(input.take(k as int), j).len(),
                prefix_sum(counts@, n as int) == k,
            decreases m - k,
        {
            let s = edges[k].0.index();
            let c = counts[s];
            proof {
                assert(input.take(k + 1) =~= input.take(k as int).push(input[k as int]));
                lemma_from_source_push(input.take(k as int), input[k as int], s as int);
                lemma_prefix_sum_update(counts@, s as int, (c + 1) as u32, n as int);
                assert forall|j: int| 0 <= j < n implies counts@.update(s as int, (c + 1) as u32)[j] == #[trigger] from_source(input.take(k + 1), j).len() by {
                    lemma_from_source_push(input.take(k as int), input[k as int], j);
                }
            }
            counts.set(s, c + 1);
            k = k + 1;
        }
        proof {
            assert(input.take(m as int) =~= input);
        }

        // cursor[j] starts at the end of node j's bucket.
        let mut cursor: Vec<usize> = Vec::with_capacity(n);
        let mut acc: usize = 0;
        let mut j: usize = 0;
        while j < n
            invariant
                j <= n,
                n == counts@.len(),
                prefix_sum(counts@, n as int) == m,
                cursor@.len() == j,
                acc == prefix_sum(counts@, j as int),
                forall|q: int| 0 <= q < j ==> cursor@[q] == prefix_sum(counts@, q + 1),
            decreases n - j,
        {
            proof {
                lemma_prefix_sum_mono(counts@, j + 1, n as int);
            }
            acc = acc + counts[j] as usize;
            cursor.push(acc);
            j = j + 1;
        }

        let mut targets: Vec<NodeId> = Vec::with_capacity(m);
        let mut slots: Vec<Option<E>> = Vec::with_capacity(m);
        let mut p: usize = 0;
        while p < m
            invariant
                p <= m,
                targets@.len() == p,
                slots@.len() == p,
                forall|q: int| 0 <= q < p ==> (#[trigger] targets@[q])@ == 0,
            decreases m - p,
        {
            targets.push(NodeId::new(0));
            slots.push(None);
            p = p + 1;
        }

        proof {
            if m > 0 {
                assert(input[0].0@ < n);
            }
        }
        // Take edges from the back and fill each bucket from its end, so that
        // every bucket keeps the input order.
        let mut edges = edges;
        let mut k: usize = m;
        while k > 0
            invariant
                m == input.len(),
                k <= m,
                edges@ == input.take(k as int),
                counts@.len() == n,
                cursor@.len() == n,
                targets@.len() == m,
                slots@.len() == m,
                prefix_sum(counts@, n as int) == m,
                forall|q: int| 0 <= q < m ==> (#[trigger] input[q]).0@ < n && input[q].1@ < n,
                forall|j: int| 0 <= j < n ==> counts@[j] == #[trigger] from_source(input, j).len(),
                forall|q: int| 0 <= q < m ==> (#[trigger] targets@[q])@ < n,
                forall|j: int| 0 <= j < n ==> #[trigger] cursor@[j] <= prefix_sum(counts@, j + 1),
                forall|j: int|
                    0 <= j < n ==> #[trigger] cursor@[j] == prefix_sum(counts@, j) + from_source(
                        input.take(k as int),
                        j,
                    ).len(),
                forall|j: int, q: int|
                    #![trigger cursor@[j], slots@[q]]
                    0 <= j < n && cursor@[j] <= q < prefix_sum(counts@, j + 1) ==> {
                        &&& slots@[q] == Some(from_source(input.subrange(k as int, m as int), j)[q - cursor@[j]].2)
                        &&& targets@[q] == from_source(input.subrange(k as int, m as int), j)[q - cursor@[j]].1
                    },
            decreases k,
        {
            let ghost old_cursor = cursor@;
            let ghost old_slots = slots@;
            let ghost old_targets = targets@;
            let (s, t, e) = edges.pop().unwrap();
            k = k - 1;
            let si = s.index();
            proof {
                assert(input.take(k + 1) =~= input.take(k as int).push(input[k as int]));
                assert(input[k as int] == (s, t, e));
                lemma_from_source_push(input.take(k as int), input[k as int], si as int);
                lemma_prefix_sum_mono(counts@, 0, si as int);
                lemma_prefix_sum_mono(counts@, si + 1, n as int);
            }
            let pos = cursor[si] - 1;
            cursor.set(si, pos);
            targets.set(pos, t);
            slots.set(pos, Some(e));
            proof {
                let inp = input;
                assert(inp.subrange(k as int, m as int) =~= seq![inp[k as int]] + inp.subrange(k + 1, m as int));
                assert forall|j: int| 0 <= j < n implies #[trigger] cursor@[j] == prefix_sum(counts@, j) + from_source(input.take(k as int), j).len() by {
                    lemma_from_source_push(input.take(k as int), input[k as int], j);
                }
                assert forall|j: int, q: int|
                    #![trigger cursor@[j], slots@[q]]
                    0 <= j < n && cursor@[j] <= q < prefix_sum(counts@, j + 1) implies {
                        &&& slots@[q] == Some(from_source(input.subrange(k as int, m as int), j)[q - cursor@[j]].2)
                        &&& targets@[q] == from_source(input.subrange(k as int, m as int), j)[q - cursor@[j]].1
                    } by {
                    lemma_from_source_prepend(inp.subrange(k + 1, m as int), inp[k as int], j);
                    let b_new = from_source(inp.subrange(k as int, m as int), j);
                    let b_old = from_source(inp.subrange(k + 1, m as int), j);
                    if j == si {
                        assert(b_new =~= seq![inp[k as int]] + b_old);
                        assert(inp.take(k + 1) + inp.subrange(k + 1, m as int) =~= inp);
                        lemma_from_source_add(inp.take(k + 1), inp.subrange(k + 1, m as int), j);
                        assert(counts@[j] == from_source(inp, j).len());
                        assert(old_cursor[j] == prefix_sum(counts@, j) + from_source(inp.take(k + 1), j).len());
                        assert(b_old.len() == prefix_sum(counts@, j + 1) - old_cursor[j]);
                        if q > pos {
                            assert(q >= old_cursor[j]);
                            assert(old_slots[q] == slots@[q]);
                            assert(old_targets[q] == targets@[q]);
                            assert(b_new[q - cursor@[j]] == b_old[q - old_cursor[j]]);
                        } else {
                            assert(b_new[0] == inp[k as int]);
                        }
                    } else {
                        assert(b_new =~= b_old);
                        lemma_from_source_push(input.take(k as int), input[k as int], j);
                        assert(old_cursor[j] == cursor@[j]);
                        assert(old_cursor[si as int] <= prefix_sum(counts@, si + 1));
                        assert(pos >= prefix_sum(counts@, si as int));
                        if j < si {
                            lemma_prefix_sum_mono(counts@, j + 1, si as int);
                        } else {
                            lemma_prefix_sum_mono(counts@, si + 1, j);
                            lemma_prefix_sum_mono(counts@, j + 1, n as int);
                            assert(q >= prefix_sum(counts@, j));
                        }
                        assert(q != pos);
                        assert(old_slots[q] == slots@[q]);
                        assert(old_targets[q] == targets@[q]);
                    }
                }
            }
        }
        proof {
            assert(input.subrange(0, m as int) =~= input);
            assert forall|j: int| 0 <= j < n implies #[trigger] from_source(input.take(0), j).len() == 0 by {
                lemma_from_source_empty(input.take(0), j);
            }
        }

        // Move the payloads out of their slots, in position order.
        let ghost placed = slots@;
        proof {
            assert forall|q: int| 0 <= q < m implies #[trigger] placed[q] is Some by {
                let j = lemma_bucket_of(counts@, n as int, q);
                assert(cursor@[j] == prefix_sum(counts@, j));
                assert(slots@[q] == placed[q]);
            }
            assert forall|j: int, q: int|
                0 <= j < n && 0 <= q < from_source(input, j).len() implies {
                    &&& placed[prefix_sum(counts@, j) + q] == Some((#[trigger] from_source(input, j)[q]).2)
                    &&& targets@[prefix_sum(counts@, j) + q] == from_source(input, j)[q].1
                } by {
                let pq = prefix_sum(counts@, j) + q;
                assert(cursor@[j] == prefix_sum(counts@, j));
                assert(slots@[pq] == placed[pq]);
            }
        }
        let mut data: Vec<E> = Vec::with_capacity(m);
        let mut p: usize = 0;
        while p < m
            invariant
                p <= m,
                slots@.len() == m,
                data@.len() == p,
                placed.len() == m,
                forall|q: int| 0 <= q < m ==> #[trigger] placed[q] is Some,
                forall|q: int| p <= q < m ==> slots@[q] == placed[q],
                forall|q: int| 0 <= q < p ==> Some(#[trigger] data@[q]) == placed[q],
            decreases m - p,
        {
            assert(slots@[p as int] == placed[p as int]);
            assert(placed[p as int] is Some);
            let mut tmp: Option<E> = None;
            slots.set_and_swap(p, &mut tmp);
            match tmp {
                Some(x) => {
                    data.push(x);
                },
                None => {
                    assert(false);
                },
            }
            p = p + 1;
        }

        let g = Self::assemble(nodes, counts, targets, data);
        proof {
            assert forall|j: int| 0 <= j < n implies #[trigger] g.spec_adj()[j] == from_source(input, j).map_values(|e: (NodeId, NodeId, E)| e.1) by {
                lemma_prefix_sum_mono(counts@, j + 1, n as int);
                lemma_prefix_sum_mono(counts@, 0, j);
                assert forall|q: int| 0 <= q < g.spec_adj()[j].len() implies g.spec_adj()[j][q] == from_source(input, j)[q].1 by {
                    assert(targets@[prefix_sum(counts@, j) + q] == from_source(input, j)[q].1);
                }
                assert(g.spec_adj()[j] =~= from_source(input, j).map_values(|e: (NodeId, NodeId, E)| e.1));
            }
            assert forall|j: int| 0 <= j < n implies #[trigger] g.spec_out_data()[j] == from_source(input, j).map_values(|e: (NodeId, NodeId, E)| e.2) by {
                lemma_prefix_sum_mono(counts@, j + 1, n as int);
                lemma_prefix_sum_mono(counts@, 0, j);
                assert forall|q: int| 0 <= q < g.spec_out_data()[j].len() implies g.spec_out_data()[j][q] == from_source(input, j)[q].2 by {
                    let pq = prefix_sum(counts@, j) + q;
                    assert(Some(data@[pq]) == placed[pq]);
                    assert(placed[pq] == Some(from_source(input, j)[q].2));
                }
                assert(g.spec_out_data()[j] =~= from_source(input, j).map_values(|e: (NodeId, NodeId, E)| e.2));
            }
        }
        Ok(g)
    }
}

/// A sum of zeros is zero.
pub proof fn lemma_prefix_sum_zero(c: Seq<u32>, i: int)
    requires
        0 <= i <= c.len(),
        forall|j: int| 0 <= j < i ==> c[j] == 0,
    ensures
        prefix_sum(c, i) == 0,
    decreases i,
{
    if i > 0 {
        lemma_prefix_sum_zero(c, i - 1);
    }
}


/// The outgoing edges of one node, yielded in stored order.
#[derive(Debug)]
pub struct Edges<'a, E> {
    targets: &'a Vec<NodeId>,
    data: &'a Vec<E>,
    pos: usize,
    end: usize,
}

impl<'a, E> Edges<'a, E> {
    #[verifier::type_invariant]
    closed spec fn inv(self) -> bool {
        &&& self.pos <= self.end
        &&& self.end <= self.targets@.len()
        &&& self.targets@.len() == self.data@.len()
    }
}

impl<'a, E> Clone for Edges<'a, E> {
    /// An independent cursor at the same position.
    fn clone(&self) -> (r: Self)
        ensures
            r@ == self@,
    {
        proof {
            use_type_invariant(self);
        }
        Edges { targets: self.targets, data: self.data, pos: self.pos, end: self.end }
    }
}

impl<'a, E> View for Edges<'a, E> {
    type V = Seq<(NodeId, E)>;

    /// The `(target, payload)` pairs not yet yielded.
    closed spec fn view(&self) -> Seq<(NodeId, E)> {
        Seq::new(
            (self.end - self.pos) as nat,
            |i: int| (self.targets@[self.pos + i], self.data@[self.pos + i]),
        )
    }
}

impl<'a, E> Edges<'a, E> {
    /// Yields the next outgoing edge, if any remains.
    pub fn next(&mut self) -> (r: Option<EdgeRef<'a, E>>)
        ensures
            old(self)@.len() == 0 ==> r is None && final(self)@ == old(self)@,
            old(self)@.len() > 0 ==> (r matches Some(e) && e@ == old(self)@[0] && final(self)@
                == old(self)@.drop_first()),
    {
        proof {
            use_type_invariant(&*self);
        }
        if self.pos < self.end {
            let targets: &'a Vec<NodeId> = self.targets;
            let data: &'a Vec<E> = self.data;
            let i = self.pos;
            let e = EdgeRef { target: targets[i], data: &data[i] };
            self.pos = i + 1;
            proof {
                assert(self@ =~= old(self)@.drop_first());
            }
            Some(e)
        } else {
            None
        }
    }

    /// Number of edges not yet yielded.
    pub fn len(&self) -> (n: usize)
        ensures
            n == self@.len(),
    {
        proof {
            use_type_invariant(self);
        }
        self.end - self.pos
    }

    /// Yields all remaining edges, in order.
    pub fn collect(self) -> (v: Vec<EdgeRef<'a, E>>)
        ensures
            v@.len() == self@.len(),
            forall|i: int| 0 <= i < v@.len() ==> (#[trigger] v@[i])@ == self@[i],
    {
        let ghost all = self@;
        let mut it = self;
        let mut v: Vec<EdgeRef<'a, E>> = Vec::new();
        loop
            invariant
                v@.len() + it@.len() == all.len(),
                forall|i: int| 0 <= i < it@.len() ==> #[trigger] it@[i] == all[v@.len() + i],
                forall|i: int| 0 <= i < v@.len() ==> (#[trigger] v@[i])@ == all[i],
            ensures
                it@.len() == 0,
            decreases it@.len(),
        {
            match it.next() {
                Some(e) => {
                    v.push(e);
                },
                None => {
                    break;
                },
            }
        }
        v
    }
}

/// The outgoing neighbor IDs of one node, in stored order.
#[derive(Debug)]
pub struct Neighbors<'a> {
    targets: &'a Vec<NodeId>,
    pos: usize,
    end: usize,
}

impl<'a> Neighbors<'a> {
    #[verifier::type_invariant]
    closed spec fn inv(self) -> bool {
        &&& self.pos <= self.end
        &&& self.end <= self.targets@.len()
    }
}

impl<'a> Clone for Neighbors<'a> {
    /// An independent cursor at the same position.
    fn clone(&self) -> (r: Self)
        ensures
            r@ == self@,
    {
        proof {
            use_type_invariant(self);
        }
        Neighbors { targets: self.targets, pos: self.pos, end: self.end }
    }
}

impl<'a> View for Neighbors<'a> {
    type V = Seq<NodeId>;

    /// The neighbor IDs not yet yielded.
    closed spec fn view(&self) -> Seq<NodeId> {
        self.targets@.subrange(self.pos as int, self.end as int)
    }
}

impl<'a> Neighbors<'a> {
    /// Yields the next neighbor from the front, if any remains.
    pub fn next(&mut self) -> (r: Option<NodeId>)
        ensures
            old(self)@.len() == 0 ==> r is None && final(self)@ == old(self)@,
            old(self)@.len() > 0 ==> r == Some(old(self)@[0]) && final(self)@ == old(self)@.drop_first(),
    {
        proof {
            use_type_invariant(&*self);
        }
        if self.pos < self.end {
            let t = self.targets[self.pos];
            self.pos = self.pos + 1;
            proof {
                assert(self@ =~= old(self)@.drop_first());
            }
            Some(t)
        } else {
            None
        }
    }

    /// Yields the next neighbor from the back, if any remains.
    pub fn next_back(&mut self) -> (r: Option<NodeId>)
        ensures
            old(self)@.len() == 0 ==> r is None && final(self)@ == old(self)@,
            old(self)@.len() > 0 ==> r == Some(old(self)@.last()) && final(self)@ == old(self)@.drop_last(),
    {
        proof {
            use_type_invariant(&*self);
        }
        if self.pos < self.end {
            let t = self.targets[self.end - 1];
            self.end = self.end - 1;
            proof {
                assert(self@ =~= old(self)@.drop_last());
            }
            Some(t)
        } else {
            None
        }
    }

    /// Number of neighbors not yet yielded.
    pub fn len(&self) -> (n: usize)
        ensures
            n == self@.len(),
    {
        proof {
            use_type_invariant(self);
        }
        self.end - self.pos
    }

    /// Yields all remaining neighbors, front to back.
    pub fn collect(self) -> (v: Vec<NodeId>)
        ensures
            v@ == self@,
    {
        let ghost all = self@;
        let mut it = self;
        let mut v: Vec<NodeId> = Vec::new();
        loop
            invariant
                v@ + it@ == all,
            ensures
                it@.len() == 0,
            decreases it@.len(),
        {
            let ghost before = it@;
            match it.next() {
                Some(x) => {
                    v.push(x);
                    proof {
                        assert(v@ + it@ =~= all);
                    }
                },
                None => {
                    break;
                },
            }
        }
        proof {
            assert(v@ =~= all);
        }
        v
    }
}

impl<N, E> Graph<N, E> {
    /// Returns the node payload for `id`, or `None` if the ID is out of bounds.
    pub fn node_data(&self, id: NodeId) -> (r: Option<&N>)
        ensures
            id@ < self.spec_node_count() ==> r == Some(&self.spec_nodes()[id@ as int]),
            id@ >= self.spec_node_count() ==> r is None,
    {
        let i = id.index();
        if i < self.nodes.len() {
            Some(&self.nodes[i].data)
        } else {
            None
        }
    }

    /// Returns the out-degree for `source`, or `None` if the ID is out of bounds.
    pub fn out_degree(&self, source: NodeId) -> (r: Option<usize>)
        ensures
            source@ < self.spec_node_count() ==> r == Some(self.spec_adj()[source@ as int].len() as usize),
            source@ >= self.spec_node_count() ==> r is None,
    {
        let i = source.index();
        if i < self.nodes.len() {
            Some(self.degree_at(i))
        } else {
            None
        }
    }

    /// Returns the outgoing edges of `source`, or `None` if the ID is out of bounds.
    pub fn edges_from(&self, source: NodeId) -> (r: Option<Edges<'_, E>>)
        ensures
            source@ < self.spec_node_count() ==> (r matches Some(it) && it@ == self.spec_out_edges(source@ as int)),
            source@ >= self.spec_node_count() ==> r is None,
    {
        proof {
            use_type_invariant(self);
        }
        let i = source.index();
        if i < self.nodes.len() {
            proof {
                self.lemma_start_bounds(i as int);
            }
            let start = self.nodes[i].first_edge as usize;
            let end = start + self.nodes[i].edge_count as usize;
            let it = Edges { targets: &self.edge_targets, data: &self.edge_data, pos: start, end };
            proof {
                assert(it@ =~= self.spec_out_edges(i as int));
            }
            Some(it)
        } else {
            None
        }
    }

    /// Returns the outgoing neighbor IDs of `source`, or `None` if the ID is out of bounds.
    pub fn neighbors(&self, source: NodeId) -> (r: Option<Neighbors<'_>>)
        ensures
            source@ < self.spec_node_count() ==> (r matches Some(it) && it@ == self.spec_adj()[source@ as int]),
            source@ >= self.spec_node_count() ==> r is None,
    {
        proof {
            use_type_invariant(self);
        }
        let i = source.index();
        if i < self.nodes.len() {
            proof {
                self.lemma_start_bounds(i as int);
            }
            let start = self.nodes[i].first_edge as usize;
            let end = start + self.nodes[i].edge_count as usize;
            Some(Neighbors { targets: &self.edge_targets, pos: start, end })
        } else {
            None
        }
    }
}

/// `order` lists each of the nodes `0..n` exactly once.
pub open spec fn is_permutation(order: Seq<NodeId>, n: nat) -> bool {
    &&& order.len() == n
    &&& order.no_duplicates()
    &&& forall|i: int| 0 <= i < order.len() ==> (#[trigger] order[i])@ < n
}

/// `new` is `old` with node `order[j]` renamed `j`, for every `j`: payloads,
/// outgoing edges and their order are kept, and edge targets are renamed.
pub open spec fn is_relabeling<N, E>(old: Graph<N, E>, new: Graph<N, E>, order: Seq<NodeId>) -> bool {
    let n = old.spec_node_count();
    &&& new.spec_node_count() == n
    &&& new.spec_edge_count() == old.spec_edge_count()
    &&& forall|j: int| 0 <= j < n ==> #[trigger] new.spec_nodes()[j] == old.spec_nodes()[order[j]@ as int]
    &&& forall|j: int| 0 <= j < n ==> #[trigger] new.spec_out_data()[j] == old.spec_out_data()[order[j]@ as int]
    &&& forall|j: int| 0 <= j < n ==> #[trigger] new.spec_adj()[j].len() == old.spec_adj()[order[j]@ as int].len()
    &&& forall|j: int, k: int|
        0 <= j < n && 0 <= k < new.spec_adj()[j].len() ==> order[(#[trigger] new.spec_adj()[j][k])@ as int]
            == old.spec_adj()[order[j]@ as int][k]
}

impl<N, E> Graph<N, E> {
    /// Relabels the nodes: node `order[j]` becomes node `j`.
    #[verifier::spinoff_prover]
    pub(crate) fn permuted(self, order: &Vec<NodeId>) -> (g: Self)
        requires
            is_permutation(order@, self.spec_node_count()),
        ensures
            is_relabeling(self, g, order@),
    {
        proof {
            use_type_invariant(&self);
            self.lemma_shape();
        }
        let ghost old = self;
        let ghost cnts = counts_of(self.nodes@);
        let n = self.nodes.len();
        let m = self.edge_targets.len();
        let Graph { nodes, edge_targets, edge_data } = self;
        let ghost old_nodes = nodes@;
        let ghost old_data = edge_data@;

        // old_to_new[order[j]] == j
        let mut old_to_new: Vec<NodeId> = Vec::with_capacity(n);
        let mut i: usize = 0;
        while i < n
            invariant
                i <= n,
                old_to_new@.len() == i,
            decreases n - i,
        {
            old_to_new.push(NodeId::new(0));
            i = i + 1;
        }
        let mut j: usize = 0;
        while j < n
            invariant
                j <= n,
                n == order@.len(),
                n <= u32::MAX,
                is_permutation(order@, n as nat),
                old_to_new@.len() == n,
                forall|q: int| 0 <= q < j ==> old_to_new@[(#[trigger] order@[q])@ as int] == NodeId::from_index(q),
            decreases n - j,
        {
            let o = order[j].index();
            old_to_new.set(o, NodeId::new(j as u32));
            j = j + 1;
        }
        proof {
            assert forall|x: NodeId| x@ < n implies (#[trigger] old_to_new@[x@ as int])@ < n && order@[old_to_new@[x@ as int]@ as int] == x by {
                crate::paths::lemma_distinct_full(order@, n as int, x);
                let q = choose|q: int| 0 <= q < order@.len() && order@[q] == x;
                assert(old_to_new@[order@[q]@ as int] == NodeId::from_index(q));
            }
        }

        // Slots that let payloads be moved out in any order.
        let mut nodes = nodes;
        let mut node_slots: Vec<Option<Node<N>>> = Vec::with_capacity(n);
        let mut i: usize = 0;
        while i < n
            invariant
                i <= n,
                node_slots@.len() == i,
            decreases n - i,
        {
            node_slots.push(None);
            i = i + 1;
        }
        let mut i: usize = n;
        while i > 0
            invariant
                i <= n,
                n == old_nodes.len(),
                nodes@ == old_nodes.take(i as int),
                node_slots@.len() == n,
                forall|x: int| i <= x < n ==> #[trigger] node_slots@[x] == Some(old_nodes[x]),
            decreases i,
        {
            let x = nodes.pop().unwrap();
            i = i - 1;
            node_slots.set(i, Some(x));
            proof {
                assert(nodes@ =~= old_nodes.take(i as int));
            }
        }
        let mut edge_data = edge_data;
        let mut data_slots: Vec<Option<E>> = Vec::with_capacity(m);
        let mut p: usize = 0;
        while p < m
            invariant
                p <= m,
                data_slots@.len() == p,
            decreases m - p,
        {
            data_slots.push(None);
            p = p + 1;
        }
        let mut p: usize = m;
        while p > 0
            invariant
                p <= m,
                m == old_data.len(),
                edge_data@ == old_data.take(p as int),
                data_slots@.len() == m,
                forall|x: int| p <= x < m ==> #[trigger] data_slots@[x] == Some(old_data[x]),
            decreases p,
        {
            let x = edge_data.pop().unwrap();
            p = p - 1;
            data_slots.set(p, Some(x));
            proof {
                assert(edge_data@ =~= old_data.take(p as int));
            }
        }

        proof {
            assert(order@.take(0) =~= Seq::<NodeId>::empty());
            assert forall|x: int, k: int|
                0 <= x < n && !order@.take(0).contains(NodeId::from_index(x)) && 0 <= k < cnts[x] implies #[trigger] data_slots@[prefix_sum(cnts, x) + k] == Some(old_data[prefix_sum(cnts, x) + k]) by {
                old.lemma_start_bounds(x);
            }
        }
        let mut payloads: Vec<N> = Vec::with_capacity(n);
        let mut counts: Vec<u32> = Vec::with_capacity(n);
        let mut new_targets: Vec<NodeId> = Vec::with_capacity(m);
        let mut new_data: Vec<E> = Vec::with_capacity(m);
        let ghost mut taken: Seq<int> = Seq::empty();
        let mut j: usize = 0;
        while j < n
            invariant
                j <= n,
                n == order@.len(),
                n == old_nodes.len(),
                n <= u32::MAX,
                m == old_data.len(),
                m == edge_targets@.len(),
                m <= u32::MAX,
                old.wf(),
                old_nodes == old.nodes@,
                old_data == old.edge_data@,
                edge_targets@ == old.edge_targets@,
                cnts == counts_of(old_nodes),
                is_permutation(order@, n as nat),
                old_to_new@.len() == n,
                forall|x: NodeId| x@ < n ==> (#[trigger] old_to_new@[x@ as int])@ < n && order@[old_to_new@[x@ as int]@ as int] == x,
                node_slots@.len() == n,
                data_slots@.len() == m,
                payloads@.len() == j,
                counts@.len() == j,
                new_targets@.len() == prefix_sum(counts@, j as int),
                new_data@.len() == new_targets@.len(),
                taken.len() == new_targets@.len(),
                taken.no_duplicates(),
                forall|i: int| 0 <= i < taken.len() ==> 0 <= #[trigger] taken[i] < m && data_slots@[taken[i]] is None,
                forall|x: int| 0 <= x < n && !order@.take(j as int).contains(NodeId::from_index(x)) ==> #[trigger] node_slots@[x] == Some(old_nodes[x]),
                forall|x: int, k: int|
                    0 <= x < n && !order@.take(j as int).contains(NodeId::from_index(x)) && 0 <= k < cnts[x] ==> #[trigger] data_slots@[prefix_sum(cnts, x) + k] == Some(old_data[prefix_sum(cnts, x) + k]),
                forall|x: int, k: int|
                    0 <= x < n && order@.take(j as int).contains(NodeId::from_index(x)) && 0 <= k < cnts[x] ==> #[trigger] taken.contains(prefix_sum(cnts, x) + k),
                forall|q: int| 0 <= q < j ==> #[trigger] payloads@[q] == old_nodes[order@[q]@ as int].data && counts@[q] == cnts[order@[q]@ as int],
                forall|q: int, k: int|
                    0 <= q < j && 0 <= k < counts@[q] ==> {
                        &&& #[trigger] new_targets@[prefix_sum(counts@, q) + k] == old_to_new@[edge_targets@[prefix_sum(cnts, order@[q]@ as int) + k]@ as int]
                        &&& new_data@[prefix_sum(counts@, q) + k] == old_data[prefix_sum(cnts, order@[q]@ as int) + k]
                    },
            decreases n - j,
        {
            let o = order[j].index();
            let ghost oo = o as int;
            proof {
                assert(!order@.take(j as int).contains(NodeId::from_index(oo))) by {
                    if order@.take(j as int).contains(NodeId::from_index(oo)) {
                        let q = choose|q: int| 0 <= q < j && order@.take(j as int)[q] == NodeId::from_index(oo);
                        assert(order@[q] == order@[j as int]);
                    }
                }
                assert(node_slots@[oo] == Some(old_nodes[oo]));
                old.lemma_start_bounds(oo);
                assert(prefix_sum(cnts, oo) == old.start(oo));
            }
            let mut tmp: Option<Node<N>> = None;
            node_slots.set_and_swap(o, &mut tmp);
            let node = tmp.unwrap();
            let Node { data, first_edge, edge_count } = node;
            let ghost c_before = counts@;
            payloads.push(data);
            counts.push(edge_count);
            let ghost base = new_targets@.len() as int;
            let ghost t_before = taken;
            let ghost nt_before = new_targets@;
            let ghost nd_before = new_data@;
            let ghost ds_before = data_slots@;
            let ghost st = prefix_sum(cnts, oo);
            proof {
                assert forall|i: int| st <= i < st + cnts[oo] implies #[trigger] ds_before[i] == Some(old_data[i]) by {
                    assert(data_slots@[prefix_sum(cnts, oo) + (i - st)] == Some(old_data[prefix_sum(cnts, oo) + (i - st)]));
                }
            }
            let mut k: usize = 0;
            while k < edge_count as usize
                invariant
                    k <= edge_count,
                    edge_count == cnts[oo],
                    first_edge == st,
                    0 <= oo < n,
                    st + cnts[oo] <= m,
                    m == old_data.len(),
                    m == edge_targets@.len(),
                    m <= u32::MAX,
                    n == old_nodes.len(),
                    old_to_new@.len() == n,
                    forall|i: int| 0 <= i < m ==> (#[trigger] edge_targets@[i])@ < n,
                    data_slots@.len() == m,
                    new_targets@.len() == base + k,
                    new_data@.len() == base + k,
                    taken.len() == base + k,
                    taken == t_before + Seq::new(k as nat, |i: int| st + i),
                    t_before.no_duplicates(),
                    forall|i: int| 0 <= i < t_before.len() ==> 0 <= #[trigger] t_before[i] < m && ds_before[t_before[i]] is None,
                    forall|i: int| 0 <= i < m && !(st <= i < st + k) ==> #[trigger] data_slots@[i] == ds_before[i],
                    forall|i: int| st + k <= i < st + cnts[oo] ==> #[trigger] ds_before[i] == Some(old_data[i]),
                    forall|i: int| st <= i < st + k ==> #[trigger] data_slots@[i] is None,
                    forall|q: int| 0 <= q < base ==> #[trigger] new_targets@[q] == nt_before[q] && new_data@[q] == nd_before[q],
                    forall|i: int| 0 <= i < k ==> #[trigger] new_targets@[base + i] == old_to_new@[edge_targets@[st + i]@ as int] && new_data@[base + i] == old_data[st + i],
                decreases edge_count - k,
            {
                let p = first_edge as usize + k;
                let t = edge_targets[p];
                new_targets.push(old_to_new[t.index()]);
                let mut d: Option<E> = None;
                data_slots.set_and_swap(p, &mut d);
                proof {
                    assert(d == Some(old_data[p as int]));
                }
                let ghost nt0 = new_targets@;
                new_data.push(d.unwrap());
                proof {
                    taken = taken.push(p as int);
                    assert(taken =~= t_before + Seq::new((k + 1) as nat, |i: int| st + i));
                    assert(new_targets@[base + k] == old_to_new@[edge_targets@[st + k]@ as int]);
                    assert(new_data@[base + k] == old_data[st + k]);
                    assert forall|i: int| 0 <= i < k + 1 implies #[trigger] new_targets@[base + i]
                        == old_to_new@[edge_targets@[st + i]@ as int] && new_data@[base + i] == old_data[st + i] by {
                        if i < k {
                            assert(new_targets@[base + i] == nt0[base + i]);
                        }
                    }
                }
                k = k + 1;
            }
            proof {
                assert(counts@.drop_last() =~= c_before);
                lemma_prefix_sum_agree(counts@, c_before, j as int);
                assert(prefix_sum(counts@, j + 1) == prefix_sum(counts@, j as int) + edge_count);
                assert forall|i: int, i2: int| 0 <= i < taken.len() && 0 <= i2 < taken.len() && i != i2 implies taken[i] != taken[i2] by {
                    if i >= t_before.len() && i2 < t_before.len() {
                        assert(ds_before[taken[i2]] is None);
                        assert(ds_before[taken[i]] == Some(old_data[taken[i]]));
                    } else if i < t_before.len() && i2 >= t_before.len() {
                        assert(ds_before[taken[i]] is None);
                        assert(ds_before[taken[i2]] == Some(old_data[taken[i2]]));
                    }
                }
                assert forall|i: int| 0 <= i < taken.len() implies 0 <= #[trigger] taken[i] < m && data_slots@[taken[i]] is None by {
                    if i < t_before.len() {
                        assert(t_before[i] == taken[i]);
                        if st <= taken[i] < st + edge_count {
                        } else {
                            assert(data_slots@[taken[i]] == ds_before[taken[i]]);
                        }
                    }
                }
                assert forall|x: int| 0 <= x < n && !order@.take(j + 1).contains(NodeId::from_index(x)) implies #[trigger] node_slots@[x] == Some(old_nodes[x]) by {
                    assert(order@.take(j + 1) =~= order@.take(j as int).push(order@[j as int]));
                    if order@.take(j as int).contains(NodeId::from_index(x)) {
                        let q = choose|q: int| 0 <= q < j && order@.take(j as int)[q] == NodeId::from_index(x);
                        assert(order@.take(j + 1)[q] == NodeId::from_index(x));
                    }
                    assert(order@.take(j + 1)[j as int] == order@[j as int]);
                    assert(NodeId::from_index(oo) == order@[j as int]);
                    if x == oo {
                        assert(order@.take(j + 1)[j as int] == NodeId::from_index(x));
                        assert(order@.take(j + 1).contains(NodeId::from_index(x)));
                    }
                }
                assert forall|x: int, k2: int|
                    0 <= x < n && !order@.take(j + 1).contains(NodeId::from_index(x)) && 0 <= k2 < cnts[x] implies #[trigger] data_slots@[prefix_sum(cnts, x) + k2] == Some(old_data[prefix_sum(cnts, x) + k2]) by {
                    assert(order@.take(j + 1) =~= order@.take(j as int).push(order@[j as int]));
                    if order@.take(j as int).contains(NodeId::from_index(x)) {
                        let q = choose|q: int| 0 <= q < j && order@.take(j as int)[q] == NodeId::from_index(x);
                        assert(order@.take(j + 1)[q] == NodeId::from_index(x));
                    }
                    assert(order@.take(j + 1)[j as int] == order@[j as int]);
                    assert(NodeId::from_index(oo) == order@[j as int]);
                    if x == oo {
                        assert(order@.take(j + 1)[j as int] == NodeId::from_index(x));
                        assert(order@.take(j + 1).contains(NodeId::from_index(x)));
                    }
                    old.lemma_start_bounds(x);
                    if x < oo {
                        lemma_prefix_sum_mono(cnts, x + 1, oo);
                    } else {
                        lemma_prefix_sum_mono(cnts, oo + 1, x);
                    }
                    assert(ds_before[prefix_sum(cnts, x) + k2] == Some(old_data[prefix_sum(cnts, x) + k2]));
                }
                assert forall|x: int, k2: int|
                    0 <= x < n && order@.take(j + 1).contains(NodeId::from_index(x)) && 0 <= k2 < cnts[x] implies #[trigger] taken.contains(prefix_sum(cnts, x) + k2) by {
                    assert(order@.take(j + 1) =~= order@.take(j as int).push(order@[j as int]));
                    if order@.take(j as int).contains(NodeId::from_index(x)) {
                        assert(t_before.contains(prefix_sum(cnts, x) + k2));
                        let i = choose|i: int| 0 <= i < t_before.len() && t_before[i] == prefix_sum(cnts, x) + k2;
                        assert(taken[i] == t_before[i]);
                    } else {
                        let q = choose|q: int| 0 <= q < j + 1 && #[trigger] order@.take(j + 1)[q] == NodeId::from_index(x);
                        assert(q == j);
                        assert(x == oo);
                        assert(taken[t_before.len() + k2] == st + k2);
                    }
                }
                assert forall|q: int| 0 <= q < j + 1 implies #[trigger] payloads@[q] == old_nodes[order@[q]@ as int].data && counts@[q] == cnts[order@[q]@ as int] by {
                }
                lemma_prefix_sum_agree(counts@, counts@.drop_last(), j as int);
                assert forall|q: int, k2: int|
                    0 <= q < j + 1 && 0 <= k2 < counts@[q] implies {
                        &&& #[trigger] new_targets@[prefix_sum(counts@, q) + k2] == old_to_new@[edge_targets@[prefix_sum(cnts, order@[q]@ as int) + k2]@ as int]
                        &&& new_data@[prefix_sum(counts@, q) + k2] == old_data[prefix_sum(cnts, order@[q]@ as int) + k2]
                    } by {
                    lemma_prefix_sum_agree(counts@, c_before, q);
                    if q < j {
                        lemma_prefix_sum_mono(c_before, q + 1, j as int);
                        lemma_prefix_sum_mono(c_before, 0, q);
                        assert(c_before[q] == counts@[q]);
                        assert(prefix_sum(c_before, q + 1) == prefix_sum(c_before, q) + counts@[q]);
                        assert(nt_before[prefix_sum(c_before, q) + k2] == old_to_new@[edge_targets@[prefix_sum(cnts, order@[q]@ as int) + k2]@ as int]);
                        assert(nd_before[prefix_sum(c_before, q) + k2] == old_data[prefix_sum(cnts, order@[q]@ as int) + k2]);
                        assert(new_targets@[prefix_sum(c_before, q) + k2] == nt_before[prefix_sum(c_before, q) + k2]);
                    } else {
                        assert(prefix_sum(counts@, q) == base);
                        assert(order@[q]@ == oo);
                        assert(new_targets@[base + k2] == old_to_new@[edge_targets@[st + k2]@ as int]);
                        assert(new_data@[base + k2] == old_data[st + k2]);
                    }
                }
            }
            j = j + 1;
        }
        proof {
            assert(order@.take(n as int) =~= order@);
            assert forall|i: int| 0 <= i < taken.len() implies 0 <= #[trigger] taken[i] < m by {
            }
            crate::paths::lemma_int_distinct_bound(taken, m as int);
            assert forall|p: int| 0 <= p < m implies #[trigger] taken.contains(p) by {
                let x = lemma_bucket_of(cnts, n as int, p);
                crate::paths::lemma_distinct_full(order@, n as int, NodeId::from_index(x));
                assert(taken.contains(prefix_sum(cnts, x) + (p - prefix_sum(cnts, x))));
            }
            crate::paths::lemma_int_covering_bound(taken, m as int);
            assert forall|k: int| 0 <= k < new_targets@.len() implies (#[trigger] new_targets@[k])@ < n by {
                let q = lemma_bucket_of(counts@, n as int, k);
                let x = order@[q];
                let k2 = k - prefix_sum(counts@, q);
                let i = prefix_sum(cnts, x@ as int) + k2;
                old.lemma_start_bounds(x@ as int);
                assert(payloads@[q] == old_nodes[order@[q]@ as int].data);
                assert(counts@[q] == cnts[x@ as int]);
                assert(0 <= k2 < counts@[q]);
                assert(edge_targets@[i]@ < n);
                assert(new_targets@[prefix_sum(counts@, q) + k2] == old_to_new@[edge_targets@[i]@ as int]);
            }
        }
        let g = Self::assemble(payloads, counts, new_targets, new_data);
        proof {
            assert forall|q: int| 0 <= q < n implies #[trigger] g.spec_nodes()[q] == old.spec_nodes()[order@[q]@ as int] by {
            }
            assert forall|q: int| 0 <= q < n implies #[trigger] g.spec_adj()[q].len() == old.spec_adj()[order@[q]@ as int].len() by {
                old.lemma_start_bounds(order@[q]@ as int);
                assert(payloads@[q] == old_nodes[order@[q]@ as int].data);
                lemma_prefix_sum_mono(counts@, q + 1, n as int);
                lemma_prefix_sum_mono(counts@, 0, q);
                assert(prefix_sum(counts@, q + 1) == prefix_sum(counts@, q) + counts@[q]);
                assert(g.spec_adj()[q].len() == counts@[q]);
            }
            assert forall|q: int| 0 <= q < n implies #[trigger] g.spec_out_data()[q] == old.spec_out_data()[order@[q]@ as int] by {
                let x = order@[q]@ as int;
                old.lemma_start_bounds(x);
                assert(payloads@[q] == old_nodes[order@[q]@ as int].data);
                lemma_prefix_sum_mono(counts@, q + 1, n as int);
                lemma_prefix_sum_mono(counts@, 0, q);
                assert forall|k: int| 0 <= k < g.spec_out_data()[q].len() implies g.spec_out_data()[q][k] == old.spec_out_data()[x][k] by {
                    assert(new_targets@[prefix_sum(counts@, q) + k] == old_to_new@[edge_targets@[prefix_sum(cnts, x) + k]@ as int]);
                    assert(new_data@[prefix_sum(counts@, q) + k] == old_data[prefix_sum(cnts, x) + k]);
                }
                assert(g.spec_out_data()[q] =~= old.spec_out_data()[x]);
            }
            assert forall|q: int, k: int| 0 <= q < n && 0 <= k < g.spec_adj()[q].len() implies order@[(#[trigger] g.spec_adj()[q][k])@ as int] == old.spec_adj()[order@[q]@ as int][k] by {
                let x = order@[q]@ as int;
                old.lemma_start_bounds(x);
                assert(payloads@[q] == old_nodes[order@[q]@ as int].data);
                lemma_prefix_sum_mono(counts@, q + 1, n as int);
                lemma_prefix_sum_mono(counts@, 0, q);
                assert(new_targets@[prefix_sum(counts@, q) + k] == old_to_new@[edge_targets@[prefix_sum(cnts, x) + k]@ as int]);
                assert(old.spec_adj()[x][k] == edge_targets@[prefix_sum(cnts, x) + k]);
            }
        }
        g
    }
}

/// Relabeling keeps the graph's shape: the new graph has an edge from `a` to
/// `b` exactly when the old graph has one from `order[a]` to `order[b]`.
pub proof fn lemma_relabeling_edges<N, E>(old: Graph<N, E>, new: Graph<N, E>, order: Seq<NodeId>, a: NodeId, b: NodeId)
    requires
        is_relabeling(old, new, order),
        is_permutation(order, old.spec_node_count()),
        old.shape_ok(),
        new.shape_ok(),
        a@ < old.spec_node_count(),
        b@ < old.spec_node_count(),
    ensures
        crate::paths::is_edge(new.spec_adj(), a, b) <==> crate::paths::is_edge(
            old.spec_adj(),
            order[a@ as int],
            order[b@ as int],
        ),
{
    let n = old.spec_node_count();
    let na = new.spec_adj()[a@ as int];
    let oa = old.spec_adj()[order[a@ as int]@ as int];
    assert(order[a@ as int]@ < n);
    if na.contains(b) {
        let k = choose|k: int| 0 <= k < na.len() && na[k] == b;
        assert(order[(new.spec_adj()[a@ as int][k])@ as int] == oa[k]);
    }
    if oa.contains(order[b@ as int]) {
        let k = choose|k: int| 0 <= k < oa.len() && oa[k] == order[b@ as int];
        let c = na[k];
        assert(order[(new.spec_adj()[a@ as int][k])@ as int] == oa[k]);
        assert(c@ < n);
        assert(order[c@ as int] == order[b@ as int]);
        assert(c == b);
    }
}

/// `b` has the shape of `a`: the same nodes and edges in the same order,
/// with every node and edge payload a clone of the one in `a`.
pub open spec fn is_clone_of<N: Clone, E: Clone>(a: Graph<N, E>, b: Graph<N, E>) -> bool {
    let n = a.spec_node_count();
    &&& b.spec_node_count() == n
    &&& b.spec_edge_count() == a.spec_edge_count()
    &&& b.spec_adj() == a.spec_adj()
    &&& forall|i: int| 0 <= i < n ==> cloned(a.spec_nodes()[i], #[trigger] b.spec_nodes()[i])
    &&& forall|i: int| 0 <= i < n ==> (#[trigger] b.spec_out_data()[i]).len() == a.spec_out_data()[i].len()
    &&& forall|i: int, k: int|
        0 <= i < n && 0 <= k < a.spec_out_data()[i].len() ==> cloned(
            a.spec_out_data()[i][k],
            #[trigger] b.spec_out_data()[i][k],
        )
}

impl<N: Clone, E: Clone> Clone for Graph<N, E> {
    /// A copy of the graph whose payloads are clones of these.
    fn clone(&self) -> (g: Self)
        ensures
            is_clone_of(*self, g),
    {
        proof {
            use_type_invariant(self);
        }
        let n = self.nodes.len();
        let m = self.edge_targets.len();
        let mut nodes: Vec<Node<N>> = Vec::with_capacity(n);
        let mut i: usize = 0;
        while i < n
            invariant
                i <= n,
                n == self.nodes@.len(),
                nodes@.len() == i,
                forall|j: int| 0 <= j < i ==> (#[trigger] nodes@[j]).first_edge == self.nodes@[j].first_edge
                    && nodes@[j].edge_count == self.nodes@[j].edge_count
                    && cloned(self.nodes@[j].data, nodes@[j].data),
            decreases n - i,
        {
            let node = &self.nodes[i];
            nodes.push(Node { data: node.data.clone(), first_edge: node.first_edge, edge_count: node.edge_count });
            i = i + 1;
        }
        let mut edge_targets: Vec<NodeId> = Vec::with_capacity(m);
        let mut edge_data: Vec<E> = Vec::with_capacity(m);
        let mut k: usize = 0;
        while k < m
            invariant
                k <= m,
                m == self.edge_targets@.len(),
                m == self.edge_data@.len(),
                edge_targets@ == self.edge_targets@.take(k as int),
                edge_data@.len() == k,
                forall|j: int| 0 <= j < k ==> cloned(self.edge_data@[j], #[trigger] edge_data@[j]),
            decreases m - k,
        {
            edge_targets.push(self.edge_targets[k]);
            edge_data.push(self.edge_data[k].clone());
            k = k + 1;
            proof {
                assert(edge_targets@ =~= self.edge_targets@.take(k as int));
            }
        }
        proof {
            assert(edge_targets@ =~= self.edge_targets@);
            assert(counts_of(nodes@) =~= counts_of(self.nodes@));
            assert(prefix_sum(counts_of(nodes@), n as int) == m);
            assert forall|j: int| 0 <= j < n implies (#[trigger] nodes@[j]).first_edge == prefix_sum(counts_of(nodes@), j) by {
                assert(self.nodes@[j].first_edge == self.start(j));
            }
        }
        let g = Graph { nodes, edge_targets, edge_data };
        proof {
            let a = *self;
            assert forall|i: int| 0 <= i <= n implies #[trigger] g.start(i) == a.start(i) by {}
            assert(g.spec_adj() =~= a.spec_adj());
            assert forall|i: int| 0 <= i < n implies cloned(a.spec_nodes()[i], #[trigger] g.spec_nodes()[i]) by {}
            assert forall|i: int| 0 <= i < n implies (#[trigger] g.spec_out_data()[i]).len() == a.spec_out_data()[i].len() by {
                a.lemma_start_bounds(i);
            }
            assert forall|i: int, k: int|
                0 <= i < n && 0 <= k < a.spec_out_data()[i].len() implies cloned(
                    a.spec_out_data()[i][k],
                    #[trigger] g.spec_out_data()[i][k],
                ) by {
                a.lemma_start_bounds(i);
                assert(g.spec_out_data()[i][k] == g.edge_data@[a.start(i) + k]);
                assert(a.spec_out_data()[i][k] == a.edge_data@[a.start(i) + k]);
            }
        }
        g
    }
}

/// `Vec::capacity` of std: how many elements `v` can hold without
/// reallocating. Assumed of it, from std's documentation: it is at least the
/// length, and the buffer it describes holds at most `isize::MAX` bytes (std
/// refuses to allocate more; a vector of zero-sized elements reports
/// `usize::MAX` and holds no bytes). Which capacity the allocator gave is not
/// stated.
#[verifier::external_body]
fn vec_capacity<T>(v: &Vec<T>) -> (c: usize)
    ensures
        c >= v@.len(),
        c * size_of::<T>() <= isize::MAX,
{
    v.capacity()
}

/// Bytes taken by `capacity` entries of `size` bytes each.
pub open spec fn arena_bytes(capacity: nat, size: nat) -> nat {
    capacity * size
}

impl<N, E> Graph<N, E> {
    /// The size in bytes of one node header with its payload.
    pub closed spec fn spec_node_entry_size() -> nat {
        size_of::<Node<N>>()
    }

    /// Returns the size of one internal node header plus its payload.
    pub fn node_entry_size() -> (s: usize)
        ensures
            s == Self::spec_node_entry_size(),
    {
        core::mem::size_of::<Node<N>>()
    }

    /// Returns the size of one internal edge target entry.
    pub fn edge_target_size() -> (s: usize)
        ensures
            s == size_of::<NodeId>(),
    {
        core::mem::size_of::<NodeId>()
    }

    /// Returns the size of one edge payload `E`.
    pub fn edge_payload_size() -> (s: usize)
        ensures
            s == size_of::<E>(),
    {
        core::mem::size_of::<E>()
    }

    /// Returns bytes allocated for the node arena: its capacity, at least the
    /// node count, times the entry size.
    pub fn node_storage_bytes(&self) -> (b: usize)
        ensures
            exists|c: nat| c >= self.spec_node_count() && b == #[trigger] arena_bytes(c, Self::spec_node_entry_size()),
    {
        let c = vec_capacity(&self.nodes);
        let s = Self::node_entry_size();
        proof {
            assert(c * s <= isize::MAX);
            assert(arena_bytes(c as nat, Self::spec_node_entry_size()) == c * s);
        }
        c * s
    }

    /// Returns bytes allocated for the edge target and payload arenas: each
    /// capacity, at least the edge count, times its entry size.
    pub fn edge_storage_bytes(&self) -> (b: usize)
        ensures
            exists|ct: nat, cd: nat|
                ct >= self.spec_edge_count() && cd >= self.spec_edge_count() && b == #[trigger] arena_bytes(
                    ct,
                    size_of::<NodeId>(),
                ) + #[trigger] arena_bytes(cd, size_of::<E>()),
    {
        proof {
            use_type_invariant(self);
        }
        let ct = vec_capacity(&self.edge_targets);
        let cd = vec_capacity(&self.edge_data);
        let st = Self::edge_target_size();
        let sd = Self::edge_payload_size();
        proof {
            assert(ct * st <= isize::MAX);
            assert(cd * sd <= isize::MAX);
        }
        let t = ct * st;
        let d = cd * sd;
        proof {
            assert(arena_bytes(ct as nat, size_of::<NodeId>()) == t);
            assert(arena_bytes(cd as nat, size_of::<E>()) == d);
        }
        t + d
    }

    /// Returns total bytes allocated across all graph arenas, kept at
    /// `usize::MAX` should the sum exceed it.
    pub fn total_storage_bytes(&self) -> (b: usize)
        ensures
            exists|cn: nat, ct: nat, cd: nat|
                cn >= self.spec_node_count() && ct >= self.spec_edge_count() && cd >= self.spec_edge_count() && b
                    == crate::builder::saturated(
                    #[trigger] arena_bytes(cn, Self::spec_node_entry_size()) + #[trigger] arena_bytes(
                        ct,
                        size_of::<NodeId>(),
                    ) + #[trigger] arena_bytes(cd, size_of::<E>()),
                ),
    {
        let nb = self.node_storage_bytes();
        let eb = self.edge_storage_bytes();
        nb.saturating_add(eb)
    }
}

} // verus!
