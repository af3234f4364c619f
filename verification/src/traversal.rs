use vstd::prelude::*;

use std::collections::VecDeque;

use crate::graph::Graph;
use crate::id::NodeId;
use crate::paths::reachable;
use crate::postorder::{
    dfs_preorder, dfs_visit, lemma_dfs_preorder_recursive, lemma_next_unvisited, lemma_post_step, lemma_post_step_order, lemma_pre_run,
    lemma_run_marks_reachable, lemma_search_from, post_inv, post_order_inv, pre_run,
    steps_left,
};
use crate::reorder::int_frames;
use crate::search::{
    lemma_scan, lemma_search_run, lemma_search_size, lemma_search_start,
    lemma_search_step, root_marks, scan, search_inv, search_run, search_step,
};

verus! {

broadcast use crate::id::group_node_id;

/// Scans the neighbors of `u` in adjacency order, marking each unmarked one
/// and appending it to `queue`.
pub(crate) fn scan_into_queue<N, E>(graph: &Graph<N, E>, u: NodeId, visited: &mut Vec<bool>, queue: &mut VecDeque<NodeId>)
    requires
        u@ < graph.spec_node_count(),
        old(visited)@.len() == graph.spec_node_count(),
    ensures
        final(visited)@ == scan(graph.spec_adj()[u@ as int], old(visited)@).0,
        final(queue)@ == old(queue)@ + scan(graph.spec_adj()[u@ as int], old(visited)@).1,
{
    let n = graph.node_count();
    let ui = u.index();
    let deg = graph.degree_at(ui);
    let ghost nbrs = graph.spec_adj()[u@ as int];
    let ghost v0 = visited@;
    let ghost q0 = queue@;
    proof {
        assert(nbrs.take(0) =~= Seq::<NodeId>::empty());
    }
    let mut k: usize = 0;
    while k < deg
        invariant
            k <= deg,
            deg == nbrs.len(),
            n == graph.spec_node_count(),
            ui == u@,
            u@ < n,
            nbrs == graph.spec_adj()[u@ as int],
            graph.shape_ok(),
            v0.len() == n,
            visited@ == scan(nbrs.take(k as int), v0).0,
            queue@ == q0 + scan(nbrs.take(k as int), v0).1,
        decreases deg - k,
    {
        proof {
            lemma_scan(nbrs.take(k as int), v0, n as nat);
            assert(nbrs.take(k + 1).drop_last() =~= nbrs.take(k as int));
        }
        let t = graph.target_at(ui, k);
        let ti = t.index();
        if !visited[ti] {
            visited.set(ti, true);
            queue.push_back(t);
        }
        k = k + 1;
        proof {
            assert(queue@ =~= q0 + scan(nbrs.take(k as int), v0).1);
        }
    }
    proof {
        assert(nbrs.take(deg as int) =~= nbrs);
    }
}

/// Scans `nbrs` in order, marking each unmarked entry and appending it to `queue`.
pub(crate) fn scan_seq_into_queue(nbrs: &Vec<NodeId>, visited: &mut Vec<bool>, queue: &mut VecDeque<NodeId>)
    requires
        forall|i: int| 0 <= i < nbrs@.len() ==> (#[trigger] nbrs@[i])@ < old(visited)@.len(),
    ensures
        final(visited)@ == scan(nbrs@, old(visited)@).0,
        final(queue)@ == old(queue)@ + scan(nbrs@, old(visited)@).1,
{
    let ghost v0 = visited@;
    let ghost q0 = queue@;
    let len = nbrs.len();
    proof {
        assert(nbrs@.take(0) =~= Seq::<NodeId>::empty());
    }
    let mut k: usize = 0;
    while k < len
        invariant
            k <= len,
            len == nbrs@.len(),
            forall|i: int| 0 <= i < nbrs@.len() ==> (#[trigger] nbrs@[i])@ < v0.len(),
            visited@ == scan(nbrs@.take(k as int), v0).0,
            queue@ == q0 + scan(nbrs@.take(k as int), v0).1,
        decreases len - k,
    {
        proof {
            assert forall|i: int| 0 <= i < nbrs@.take(k as int).len() implies (#[trigger] nbrs@.take(k as int)[i])@ < v0.len() by {
                assert(nbrs@.take(k as int)[i] == nbrs@[i]);
            }
            lemma_scan(nbrs@.take(k as int), v0, v0.len());
            assert(nbrs@.take(k + 1).drop_last() =~= nbrs@.take(k as int));
        }
        let t = nbrs[k];
        let ti = t.index();
        if !visited[ti] {
            visited.set(ti, true);
            queue.push_back(t);
        }
        k = k + 1;
        proof {
            assert(queue@ =~= q0 + scan(nbrs@.take(k as int), v0).1);
        }
    }
    proof {
        assert(nbrs@.take(len as int) =~= nbrs@);
    }
}

/// A copy of `v`.
fn copy_marks(v: &Vec<bool>) -> (r: Vec<bool>)
    ensures
        r@ == v@,
{
    let mut r: Vec<bool> = Vec::with_capacity(v.len());
    let mut i: usize = 0;
    while i < v.len()
        invariant
            i <= v@.len(),
            r@ == v@.take(i as int),
        decreases v@.len() - i,
    {
        r.push(v[i]);
        i = i + 1;
        proof {
            assert(r@ =~= v@.take(i as int));
        }
    }
    proof {
        assert(v@.take(v@.len() as int) =~= v@);
    }
    r
}

/// A copy of `q`.
fn copy_queue(q: &VecDeque<NodeId>) -> (r: VecDeque<NodeId>)
    ensures
        r@ == q@,
{
    let mut r: VecDeque<NodeId> = VecDeque::new();
    let mut i: usize = 0;
    while i < q.len()
        invariant
            i <= q@.len(),
            r@ == q@.take(i as int),
        decreases q@.len() - i,
    {
        r.push_back(q[i]);
        i = i + 1;
        proof {
            assert(r@ =~= q@.take(i as int));
        }
    }
    proof {
        assert(q@.take(q@.len() as int) =~= q@);
    }
    r
}

/// Breadth-first traversal over the nodes reachable from a start node.
pub struct Bfs<'a, N, E> {
    graph: &'a Graph<N, E>,
    visited: Vec<bool>,
    queue: VecDeque<NodeId>,
    root: Ghost<NodeId>,
    taken: Ghost<Seq<NodeId>>,
}

impl<'a, N, E> Clone for Bfs<'a, N, E> {
    /// An independent traversal in the same state.
    fn clone(&self) -> (r: Self)
        ensures
            r.wf() == self.wf(),
            r.adj() == self.adj(),
            r.root() == self.root(),
            r.taken() == self.taken(),
            r.marks() == self.marks(),
            r.frontier() == self.frontier(),
    {
        Bfs {
            graph: self.graph,
            visited: copy_marks(&self.visited),
            queue: copy_queue(&self.queue),
            root: Ghost(self.root@),
            taken: Ghost(self.taken@),
        }
    }
}

impl<'a, N, E> Bfs<'a, N, E> {
    /// The traversal state is consistent: see `search_inv`.
    pub closed spec fn wf(&self) -> bool {
        &&& self.graph.shape_ok()
        &&& search_inv(self.graph.spec_adj(), self.root@, self.taken@, self.visited@, self.queue@)
    }

    /// The adjacency lists of the graph being traversed.
    pub closed spec fn adj(&self) -> Seq<Seq<NodeId>> {
        self.graph.spec_adj()
    }

    /// The node the traversal started from.
    pub closed spec fn root(&self) -> NodeId {
        self.root@
    }

    /// The nodes yielded so far.
    pub closed spec fn taken(&self) -> Seq<NodeId> {
        self.taken@
    }

    /// The current marks: the nodes already queued or yielded.
    pub closed spec fn marks(&self) -> Seq<bool> {
        self.visited@
    }

    /// The queued nodes, front first.
    pub closed spec fn frontier(&self) -> Seq<NodeId> {
        self.queue@
    }

    pub(crate) fn new(graph: &'a Graph<N, E>, start: NodeId) -> (r: Option<Self>)
        ensures
            start@ < graph.spec_node_count() ==> (r matches Some(it) && it.wf() && it.adj() == graph.spec_adj()
                && it.root() == start && it.taken() == Seq::<NodeId>::empty() && it.marks()
                == root_marks(graph.spec_node_count(), start) && it.frontier() == seq![start]),
            start@ >= graph.spec_node_count() ==> r is None,
    {
        let n = graph.node_count();
        if start.index() >= n {
            return None;
        }
        let mut visited: Vec<bool> = Vec::with_capacity(n);
        let mut i: usize = 0;
        while i < n
            invariant
                i <= n,
                visited@.len() == i,
                forall|j: int| 0 <= j < i ==> visited@[j] == (j == start@),
            decreases n - i,
        {
            visited.push(i == start.index());
            i = i + 1;
        }
        let mut queue: VecDeque<NodeId> = VecDeque::new();
        queue.push_back(start);
        proof {
            lemma_search_start(graph.spec_adj(), start);
            assert(visited@ =~= root_marks(n as nat, start));
            assert(queue@ =~= seq![start]);
        }
        Some(Bfs { graph, visited, queue, root: Ghost(start), taken: Ghost(Seq::empty()) })
    }

    /// Yields the next node in breadth-first order, queueing its unmarked neighbors.
    pub fn next(&mut self) -> (r: Option<NodeId>)
        requires
            old(self).wf(),
        ensures
            final(self).wf(),
            final(self).adj() == old(self).adj(),
            final(self).root() == old(self).root(),
            old(self).frontier().len() == 0 ==> r is None && final(self).marks() == old(self).marks()
                && final(self).frontier() == old(self).frontier() && final(self).taken() == old(self).taken(),
            old(self).frontier().len() > 0 ==> ({
                let (marks, next) = search_step(old(self).adj(), old(self).marks(), old(self).frontier());
                &&& r == Some(old(self).frontier()[0])
                &&& final(self).marks() == marks
                &&& final(self).frontier() == next
                &&& final(self).taken() == old(self).taken().push(r->0)
            }),
    {
        match self.queue.pop_front() {
            None => None,
            Some(node) => {
                let ghost adj = self.graph.spec_adj();
                proof {
                    lemma_search_step(adj, self.root@, self.taken@, old(self).visited@, old(self).queue@);
                    assert(old(self).queue@[0]@ < adj.len());
                }
                scan_into_queue(self.graph, node, &mut self.visited, &mut self.queue);
                proof {
                    assert(self.queue@ =~= old(self).queue@.drop_first() + scan(adj[node@ as int], old(self).visited@).1);
                }
                self.taken = Ghost(self.taken@.push(node));
                Some(node)
            },
        }
    }

    /// Runs the traversal to its end. Returns the nodes yielded from here on,
    /// and the final marks.
    pub(crate) fn run(self) -> (r: (Vec<NodeId>, Vec<bool>))
        requires
            self.wf(),
        ensures
            ({
                let (out, marks) = search_run(self.adj(), self.marks(), self.frontier(), (self.adj().len() - self.taken().len()) as nat);
                &&& r.0@ == out
                &&& r.1@ == marks
                &&& search_inv(self.adj(), self.root(), self.taken() + out, marks, Seq::empty())
                &&& forall|x: NodeId| #[trigger] (self.taken() + out).contains(x) <==> reachable(self.adj(), self.root(), x)
            }),
    {
        proof {
            lemma_search_run(self.adj(), self.root(), self.taken(), self.marks(), self.frontier(), (self.adj().len() - self.taken().len()) as nat);
            lemma_search_size(self.adj(), self.root(), self.taken(), self.marks(), self.frontier());
        }
        let ghost adj = self.adj();
        let ghost n = adj.len();
        let ghost start = search_run(adj, self.marks(), self.frontier(), (n - self.taken().len()) as nat);
        let ghost t0 = self.taken();
        let mut it = self;
        let mut out: Vec<NodeId> = Vec::new();
        proof {
            let (rest, marks) = search_run(adj, it.marks(), it.frontier(), (n - t0.len()) as nat);
            assert(out@ + rest =~= rest);
        }
        loop
            invariant
                it.wf(),
                it.adj() == adj,
                n == adj.len(),
                it.taken() == t0 + out@,
                t0.len() + out@.len() <= n,
                start == ({
                    let (rest, marks) = search_run(adj, it.marks(), it.frontier(), (n - t0.len() - out@.len()) as nat);
                    (out@ + rest, marks)
                }),
            ensures
                it.frontier().len() == 0,
            decreases n - t0.len() - out@.len(),
        {
            proof {
                lemma_search_size(adj, it.root(), it.taken(), it.marks(), it.frontier());
            }
            let ghost before = it;
            match it.next() {
                Some(x) => {
                    out.push(x);
                    proof {
                        let fuel = (n - t0.len() - out@.len() + 1) as nat;
                        let (rest, marks) = search_run(adj, it.marks(), it.frontier(), (fuel - 1) as nat);
                        assert(out@ + rest =~= before_out(out@) + (seq![x] + rest));
                    }
                },
                None => {
                    break;
                },
            }
        }
        proof {
            let fuel = (n - t0.len() - out@.len()) as nat;
            assert(out@ + Seq::<NodeId>::empty() =~= out@);
        }
        (out, it.visited)
    }

    /// Yields all remaining nodes, in breadth-first order.
    pub fn collect(self) -> (v: Vec<NodeId>)
        requires
            self.wf(),
        ensures
            v@ == search_run(self.adj(), self.marks(), self.frontier(), (self.adj().len() - self.taken().len()) as nat).0,
            (self.taken() + v@).no_duplicates(),
            forall|x: NodeId| #[trigger] (self.taken() + v@).contains(x) <==> reachable(self.adj(), self.root(), x),
    {
        let (v, marks) = self.run();
        v
    }
}

/// Depth-first traversal over the nodes reachable from a start node.
pub struct Dfs<'a, N, E> {
    graph: &'a Graph<N, E>,
    visited: Vec<bool>,
    stack: Vec<(NodeId, usize)>,
    pending: Option<NodeId>,
    root: Ghost<NodeId>,
    taken: Ghost<Seq<NodeId>>,
    post: Ghost<Seq<NodeId>>,
}

impl<'a, N, E> Clone for Dfs<'a, N, E> {
    /// An independent traversal in the same state.
    fn clone(&self) -> (r: Self)
        ensures
            r.wf() == self.wf(),
            r.adj() == self.adj(),
            r.root() == self.root(),
            r.taken() == self.taken(),
            r.remaining() == self.remaining(),
            r.final_marks() == self.final_marks(),
    {
        let r = Dfs {
            graph: self.graph,
            visited: copy_marks(&self.visited),
            stack: copy_frames(&self.stack),
            pending: self.pending,
            root: Ghost(self.root@),
            taken: Ghost(self.taken@),
            post: Ghost(self.post@),
        };
        proof {
            assert(int_frames(r.stack@) == int_frames(self.stack@));
        }
        r
    }
}

/// A copy of `v`.
fn copy_frames(v: &Vec<(NodeId, usize)>) -> (r: Vec<(NodeId, usize)>)
    ensures
        r@ == v@,
{
    let mut r: Vec<(NodeId, usize)> = Vec::with_capacity(v.len());
    let mut i: usize = 0;
    while i < v.len()
        invariant
            i <= v@.len(),
            r@ == v@.take(i as int),
        decreases v@.len() - i,
    {
        r.push(v[i]);
        i = i + 1;
        proof {
            assert(r@ =~= v@.take(i as int));
        }
    }
    proof {
        assert(v@.take(v@.len() as int) =~= v@);
    }
    r
}

impl<'a, N, E> Dfs<'a, N, E> {
    /// The traversal state is consistent: an explicit-stack depth-first
    /// search (see `post_inv` and `post_order_inv`) whose marked nodes are
    /// the nodes yielded so far and the start node, if it is not yet yielded.
    pub closed spec fn wf(&self) -> bool {
        let adj = self.graph.spec_adj();
        let n = adj.len();
        let st = int_frames(self.stack@);
        &&& self.graph.shape_ok()
        &&& post_inv(adj, self.visited@, st, self.post@)
        &&& post_order_inv(adj, self.root@, self.visited@, st, self.post@)
        &&& self.root@@ < n
        &&& self.visited@[self.root@@ as int]
        &&& self.taken@.no_duplicates()
        &&& forall|i: int| 0 <= i < self.taken@.len() ==> (#[trigger] self.taken@[i])@ < n
        &&& forall|x: NodeId| x@ < n ==> (#[trigger] self.visited@[x@ as int] <==> (self.taken@.contains(x) || self.pending == Some(x)))
        &&& self.pending matches Some(r) ==> r == self.root@ && self.taken@.len() == 0
    }

    /// The adjacency lists of the graph being traversed.
    pub closed spec fn adj(&self) -> Seq<Seq<NodeId>> {
        self.graph.spec_adj()
    }

    /// The node the traversal started from.
    pub closed spec fn root(&self) -> NodeId {
        self.root@
    }

    /// The nodes yielded so far.
    pub closed spec fn taken(&self) -> Seq<NodeId> {
        self.taken@
    }

    /// The nodes still to be yielded, in depth-first preorder.
    pub closed spec fn remaining(&self) -> Seq<NodeId> {
        let st = int_frames(self.stack@);
        let pre = pre_run(self.graph.spec_adj(), self.visited@, st, self.post@, steps_left(self.graph.spec_adj().len(), st, self.post@)).0;
        match self.pending {
            Some(r) => seq![r] + pre,
            None => pre,
        }
    }

    /// The current marks: the nodes reached so far.
    pub closed spec fn marks(&self) -> Seq<bool> {
        self.visited@
    }

    /// The marks once the traversal has run to its end.
    pub closed spec fn final_marks(&self) -> Seq<bool> {
        let st = int_frames(self.stack@);
        pre_run(self.graph.spec_adj(), self.visited@, st, self.post@, steps_left(self.graph.spec_adj().len(), st, self.post@)).1
    }

    pub(crate) fn new(graph: &'a Graph<N, E>, start: NodeId) -> (r: Option<Self>)
        ensures
            start@ < graph.spec_node_count() ==> (r matches Some(it) && it.wf() && it.adj() == graph.spec_adj()
                && it.root() == start && it.taken() == Seq::<NodeId>::empty() && it.remaining()
                == dfs_preorder(graph.spec_adj(), start).0 && it.final_marks() == dfs_preorder(graph.spec_adj(), start).1),
            start@ >= graph.spec_node_count() ==> r is None,
    {
        let n = graph.node_count();
        if start.index() >= n {
            return None;
        }
        let mut visited: Vec<bool> = Vec::with_capacity(n);
        let mut i: usize = 0;
        while i < n
            invariant
                i <= n,
                visited@.len() == i,
                forall|j: int| 0 <= j < i ==> visited@[j] == (j == start@),
            decreases n - i,
        {
            visited.push(i == start.index());
            i = i + 1;
        }
        let mut stack: Vec<(NodeId, usize)> = Vec::new();
        stack.push((start, 0));
        let r = Dfs {
            graph,
            visited,
            stack,
            pending: Some(start),
            root: Ghost(start),
            taken: Ghost(Seq::empty()),
            post: Ghost(Seq::empty()),
        };
        proof {
            let adj = graph.spec_adj();
            assert(r.visited@ =~= root_marks(n as nat, start));
            assert(int_frames(r.stack@) =~= seq![(start, 0int)]);
            lemma_search_from(adj, start);
            assert forall|x: NodeId| x@ < n implies (#[trigger] r.visited@[x@ as int] <==> (r.taken@.contains(x) || r.pending == Some(x))) by {
            }
        }
        Some(r)
    }

    /// Yields the next node in depth-first preorder: first the start node,
    /// then, each time, the first unmarked neighbor, in adjacency order, of
    /// the deepest node on the search path that has one.
    pub fn next(&mut self) -> (r: Option<NodeId>)
        requires
            old(self).wf(),
        ensures
            final(self).wf(),
            final(self).adj() == old(self).adj(),
            final(self).root() == old(self).root(),
            final(self).final_marks() == old(self).final_marks(),
            old(self).remaining().len() == 0 ==> r is None && final(self).remaining() == old(self).remaining()
                && final(self).taken() == old(self).taken(),
            r is None ==> final(self).marks() == final(self).final_marks(),
            old(self).remaining().len() > 0 ==> r == Some(old(self).remaining()[0]) && final(self).remaining()
                == old(self).remaining().drop_first() && final(self).taken() == old(self).taken().push(r->0),
    {
        let ghost adj = self.graph.spec_adj();
        let n = self.graph.node_count();
        match self.pending {
            Some(r) => {
                self.pending = None;
                self.taken = Ghost(self.taken@.push(r));
                proof {
                    let t = self.taken@;
                    assert(t =~= seq![r]);
                    assert forall|x: NodeId| x@ < n implies (#[trigger] self.visited@[x@ as int] <==> (self.taken@.contains(x) || self.pending == Some(x))) by {
                        if x == r {
                            assert(t[0] == r);
                        }
                    }
                    assert((seq![r] + self.remaining()).drop_first() =~= self.remaining());
                }
                return Some(r);
            },
            None => {},
        }
        loop
            invariant
                self.wf(),
                self.pending is None,
                adj == self.graph.spec_adj(),
                n == adj.len(),
                self.graph == old(self).graph,
                self.root == old(self).root,
                self.taken == old(self).taken,
                self.final_marks() == old(self).final_marks(),
                self.remaining() == old(self).remaining(),
            decreases steps_left(n as nat, int_frames(self.stack@), self.post@),
        {
            let len = self.stack.len();
            let ghost frames0 = int_frames(self.stack@);
            let ghost v0 = self.visited@;
            let ghost p0 = self.post@;
            proof {
                crate::postorder::lemma_frame_nodes_count(frames0, p0, n as int);
            }
            if len == 0 {
                proof {
                    assert(frames0 =~= Seq::<(NodeId, int)>::empty());
                    assert(self.remaining() =~= Seq::<NodeId>::empty());
                }
                return None;
            }
            proof {
                lemma_post_step(adj, v0, frames0, p0);
                lemma_post_step_order(adj, self.root@, v0, frames0, p0);
                assert(frames0[len - 1] == (self.stack@[len - 1].0, self.stack@[len - 1].1 as int));
            }
            let (node, idx) = self.stack[len - 1];
            let ui = node.index();
            let j = self.graph.next_unvisited_at(ui, idx, &self.visited);
            let deg = self.graph.degree_at(ui);
            proof {
                lemma_next_unvisited(adj[ui as int], v0, idx as int);
            }
            if j < deg {
                let x = self.graph.target_at(ui, j);
                self.visited.set(x.index(), true);
                self.stack.set(len - 1, (node, j + 1));
                self.stack.push((x, 0));
                self.taken = Ghost(self.taken@.push(x));
                proof {
                    assert(int_frames(self.stack@) =~= frames0.drop_last().push((node, j + 1)).push((x, 0int)));
                    let t0 = old(self).taken@;
                    let t = self.taken@;
                    assert(!t0.contains(x));
                    assert(t.no_duplicates()) by {
                        assert forall|a: int, b: int| 0 <= a < t.len() && 0 <= b < t.len() && a != b implies t[a] != t[b] by {
                            if a == t0.len() {
                                assert(t0.contains(t0[b]));
                            } else if b == t0.len() {
                                assert(t0.contains(t0[a]));
                            }
                        }
                    }
                    assert forall|y: NodeId| y@ < n implies (#[trigger] self.visited@[y@ as int] <==> (self.taken@.contains(y) || self.pending == Some(y))) by {
                        if y == x {
                            assert(t[t0.len() as int] == x);
                        } else {
                            if t.contains(y) {
                                let k = choose|k: int| 0 <= k < t.len() && t[k] == y;
                                assert(t0[k] == y);
                            }
                            if t0.contains(y) {
                                let k = choose|k: int| 0 <= k < t0.len() && t0[k] == y;
                                assert(t[k] == y);
                            }
                        }
                    }
                    assert(self.remaining().len() + 1 == old(self).remaining().len());
                    assert(self.remaining() =~= old(self).remaining().drop_first());
                }
                return Some(x);
            } else {
                self.post = Ghost(self.post@.push(node));
                self.stack.pop();
                proof {
                    assert(int_frames(self.stack@) =~= frames0.drop_last());
                }
            }
        }
    }

    /// Runs the traversal to its end. Returns the nodes yielded from here on,
    /// and the final marks.
    pub(crate) fn run(self) -> (r: (Vec<NodeId>, Vec<bool>))
        requires
            self.wf(),
        ensures
            r.0@ == self.remaining(),
            r.1@ == self.final_marks(),
            (self.taken() + r.0@).no_duplicates(),
            forall|x: NodeId| #[trigger] (self.taken() + r.0@).contains(x) <==> reachable(self.adj(), self.root(), x),
            forall|x: NodeId| x@ < self.adj().len() ==> (#[trigger] r.1@[x@ as int] <==> reachable(self.adj(), self.root(), x)),
            r.1@.len() == self.adj().len(),
    {
        let ghost adj = self.adj();
        let ghost n = adj.len();
        let ghost t0 = self.taken();
        let ghost total = self.remaining();
        let ghost marks = self.final_marks();
        proof {
            self.lemma_remaining();
        }
        let mut it = self;
        let mut out: Vec<NodeId> = Vec::new();
        loop
            invariant
                it.wf(),
                it.adj() == adj,
                n == adj.len(),
                it.taken() == t0 + out@,
                total == out@ + it.remaining(),
                marks == it.final_marks(),
            ensures
                total == out@,
                marks == it.visited@,
            decreases it.remaining().len(),
        {
            let ghost before = it.remaining();
            match it.next() {
                Some(x) => {
                    out.push(x);
                    proof {
                        assert(total =~= out@ + it.remaining());
                    }
                },
                None => {
                    proof {
                        assert(total =~= out@);
                        assert(it.visited@ == marks);
                    }
                    break;
                },
            }
        }
        (out, it.visited)
    }

    /// What the remaining preorder holds: with the nodes already yielded,
    /// each node reachable from the start exactly once; and the marks it
    /// ends with are exactly the reachable nodes.
    proof fn lemma_remaining(&self)
        requires
            self.wf(),
        ensures
            (self.taken() + self.remaining()).no_duplicates(),
            forall|x: NodeId| #[trigger] (self.taken() + self.remaining()).contains(x) <==> reachable(self.adj(), self.root(), x),
            forall|x: NodeId| x@ < self.adj().len() ==> (#[trigger] self.final_marks()[x@ as int] <==> reachable(self.adj(), self.root(), x)),
            self.final_marks().len() == self.adj().len(),
    {
        let adj = self.adj();
        let n = adj.len();
        let st = int_frames(self.stack@);
        let fuel = steps_left(n, st, self.post@);
        crate::postorder::lemma_frame_nodes_count(st, self.post@, n as int);
        let base = match self.pending {
            Some(r) => seq![r],
            None => Seq::<NodeId>::empty(),
        };
        let t = self.taken@ + base;
        assert(t.no_duplicates()) by {
            if let Some(r) = self.pending {
                assert(self.taken@.len() == 0);
                assert(t =~= seq![r]);
            } else {
                assert(t =~= self.taken@);
            }
        }
        assert forall|i: int| 0 <= i < t.len() implies (#[trigger] t[i])@ < n by {
            if i < self.taken@.len() {
                assert(t[i] == self.taken@[i]);
            }
        }
        assert forall|x: NodeId| x@ < n implies (#[trigger] self.visited@[x@ as int] <==> t.contains(x)) by {
            if t.contains(x) {
                let k = choose|k: int| 0 <= k < t.len() && t[k] == x;
                if k < self.taken@.len() {
                    assert(self.taken@[k] == x);
                }
            }
            if self.taken@.contains(x) {
                let k = choose|k: int| 0 <= k < self.taken@.len() && self.taken@[k] == x;
                assert(t[k] == x);
            }
            if self.pending == Some(x) {
                assert(t[self.taken@.len() as int] == x);
            }
        }
        lemma_pre_run(adj, self.visited@, st, self.post@, fuel, t);
        lemma_run_marks_reachable(adj, self.root@, self.visited@, st, self.post@, fuel);
        crate::postorder::lemma_post_run(adj, self.visited@, st, self.post@, fuel);
        let (pre, m) = pre_run(adj, self.visited@, st, self.post@, fuel);
        assert(self.taken() + self.remaining() =~= t + pre);
        assert(m == self.final_marks());
        assert forall|x: NodeId| #[trigger] (self.taken() + self.remaining()).contains(x) <==> reachable(adj, self.root(), x) by {
            if reachable(adj, self.root(), x) {
                let w = choose|w: Seq<NodeId>| #[trigger] crate::paths::is_walk(adj, w) && w[0] == self.root() && w.last() == x;
                assert(w[w.len() - 1]@ < n);
                assert(m[x@ as int]);
            }
            if (t + pre).contains(x) {
                let k = choose|k: int| 0 <= k < (t + pre).len() && (t + pre)[k] == x;
                assert((t + pre)[k]@ < n);
                assert(m[x@ as int]);
            }
        }
    }

    /// Yields all remaining nodes, in depth-first preorder.
    pub fn collect(self) -> (v: Vec<NodeId>)
        requires
            self.wf(),
        ensures
            v@ == self.remaining(),
            (self.taken() + v@).no_duplicates(),
            forall|x: NodeId| #[trigger] (self.taken() + v@).contains(x) <==> reachable(self.adj(), self.root(), x),
    {
        let (v, marks) = self.run();
        v
    }
}

spec fn before_out(s: Seq<NodeId>) -> Seq<NodeId> {
    s.drop_last()
}

impl<N, E> Graph<N, E> {
    /// Returns a breadth-first traversal starting at `start`, or `None` if
    /// `start` is out of bounds.
    pub fn bfs(&self, start: NodeId) -> (r: Option<Bfs<'_, N, E>>)
        ensures
            start@ < self.spec_node_count() ==> (r matches Some(it) && it.wf() && it.adj() == self.spec_adj()
                && it.root() == start && it.taken() == Seq::<NodeId>::empty() && it.marks()
                == root_marks(self.spec_node_count(), start) && it.frontier() == seq![start]),
            start@ >= self.spec_node_count() ==> r is None,
    {
        Bfs::new(self, start)
    }

    /// Returns a depth-first traversal starting at `start`, or `None` if
    /// `start` is out of bounds. It yields the depth-first preorder: `start`,
    /// then, recursively, each neighbor in adjacency order not yet visited.
    pub fn dfs(&self, start: NodeId) -> (r: Option<Dfs<'_, N, E>>)
        ensures
            start@ < self.spec_node_count() ==> (r matches Some(it) && it.wf() && it.adj() == self.spec_adj()
                && it.root() == start && it.taken() == Seq::<NodeId>::empty() && it.remaining()
                == dfs_preorder(self.spec_adj(), start).0 && it.final_marks() == dfs_preorder(self.spec_adj(), start).1
                && it.remaining() == dfs_visit(
                    self.spec_adj(),
                    Seq::new(self.spec_node_count(), |i: int| false),
                    start,
                    self.spec_node_count(),
                ).1),
            start@ >= self.spec_node_count() ==> r is None,
    {
        let n = self.node_count();
        if start.index() < n {
            proof {
                lemma_dfs_preorder_recursive(self.spec_adj(), start);
            }
        }
        Dfs::new(self, start)
    }
}

} // verus!
