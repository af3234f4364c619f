# palmcds

Cache-conscious data structures for locality-sensitive workloads: an
immutable directed graph in compressed sparse row (CSR) form, with edge
targets and edge payloads in separate contiguous arrays. The library is
written in Verus: its functions carry contracts that Verus proves, resting on
one trusted statement about std's `Vec::capacity`.

## Layout

```
src/
  lib.rs         Crate root and re-exports.
  id.rs          NodeId, a compact u32 node identifier.
  error.rs       BuildError, its messages, and node-ID validation.
  graph.rs       Graph<N, E>: construction from edges, accessors, edge and
                 neighbor cursors, relabeling, cloning, storage figures.
  builder.rs     GraphBuilder<N, E>: mutable builder that compacts on build.
  paths.rs       Walks, reachability and cycles as specifications.
  search.rs      Breadth-first search as a specification, with the facts
                 proved of it.
  traversal.rs   Bfs / Dfs traversal cursors.
  levels.rs      Distances from a node; breadth-first order by distance.
  postorder.rs   Explicit-stack depth-first search: its preorder and its
                 finishing order.
  topo.rs        Kahn's algorithm as a specification.
  rcm.rs         Cuthill-McKee ordering, edges taken both ways, as a
                 specification.
  reorder.rs     Reorder strategies and graph relabeling.
  algorithms.rs  Topological sort, cycle detection, Dijkstra.
  shortest.rs    Routes and shortest distances as specifications.
  scc.rs         Strongly connected components (Tarjan).
tests/           Executable tests of the public API.
```

## What is proved

- `Graph::from_edges` groups the edges by source, keeping input order, and
  refuses exactly the inputs with too many nodes or edges or an endpoint that
  names no node.
- Breadth- and depth-first traversals yield exactly the nodes reachable from
  the start, each once, in the stated order; breadth-first order takes them
  in nondecreasing distance from the start, and depth-first order is the
  preorder of a search that follows edges in adjacency order.
- Every reordering relabels the graph by a permutation of its nodes, keeping
  payloads and edges. Topological relabeling makes every edge of an acyclic
  graph lead to a higher ID; reverse post-order relabeling does so for every
  edge out of a node reachable from the root, when no cycle is reachable
  from the root.
- `topological_sort` succeeds exactly on acyclic graphs and returns a
  topological order; `dijkstra` returns shortest distances (saturating at
  `u64::MAX`); `strongly_connected_components` returns the components of the
  graph in reverse topological order, each listed from its last discovered
  node to its first, in the order in which the depth-first visits of their
  first discovered nodes end.
