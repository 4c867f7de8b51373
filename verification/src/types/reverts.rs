//! Revert propagation down the call tree.

use std::collections::HashMap;
use vstd::prelude::*;

use crate::types::ingest_types::IngestTrace;

verus! {

broadcast use vstd::std_specs::hash::group_hash_axioms;

/// `a` is a proper prefix of `b`.
pub open spec fn strict_prefix(a: Seq<u32>, b: Seq<u32>) -> bool {
    a.len() < b.len() && a == b.take(a.len() as int)
}

/// Frame `j` is a failed frame above frame `i` in the call tree of their tx.
pub open spec fn failed_above(traces: Seq<IngestTrace>, i: int, j: int) -> bool {
    &&& 0 <= j < traces.len()
    &&& traces[j].tx_index == traces[i].tx_index
    &&& strict_prefix(traces[j].trace_address@, traces[i].trace_address@)
    &&& traces[j].status != 0
}

/// Some frame above frame `i` in the call tree of its tx failed.
pub open spec fn ancestor_failed(traces: Seq<IngestTrace>, i: int) -> bool {
    exists|j: int| failed_above(traces, i, j)
}

/// Frame `j` is a failed frame of the tx of frame `i`, at its address.
pub open spec fn failed_at(traces: Seq<IngestTrace>, i: int, j: int) -> bool {
    &&& 0 <= j < traces.len()
    &&& traces[j].tx_index == traces[i].tx_index
    &&& traces[j].trace_address@ == traces[i].trace_address@
    &&& traces[j].status != 0
}

/// A failure passes down the call tree one level at a time: a frame has a
/// failed ancestor exactly when its parent failed or has one.
pub proof fn law_failure_passes_down(traces: Seq<IngestTrace>, parent: int, child: int)
    requires
        0 <= parent < traces.len(),
        0 <= child < traces.len(),
        traces[parent].tx_index == traces[child].tx_index,
        traces[child].trace_address@.len() > 0,
        traces[parent].trace_address@ == traces[child].trace_address@.drop_last(),
    ensures
        ancestor_failed(traces, child) <==> ancestor_failed(traces, parent) || exists|j: int|
            failed_at(traces, parent, j),
{
    let a = traces[child].trace_address@;
    let b = traces[parent].trace_address@;
    if ancestor_failed(traces, child) {
        let j = choose|j: int| failed_above(traces, child, j);
        let c = traces[j].trace_address@;
        if c.len() == b.len() {
            assert(c =~= b);
            assert(failed_at(traces, parent, j));
        } else {
            assert(c =~= b.take(c.len() as int));
            assert(failed_above(traces, parent, j));
        }
    }
    if ancestor_failed(traces, parent) {
        let j = choose|j: int| failed_above(traces, parent, j);
        let c = traces[j].trace_address@;
        assert(c =~= a.take(c.len() as int));
        assert(failed_above(traces, child, j));
    }
    if exists|j: int| failed_at(traces, parent, j) {
        let j = choose|j: int| failed_at(traces, parent, j);
        assert(b =~= a.take(b.len() as int));
        assert(failed_above(traces, child, j));
    }
}

/// Where a frame stands: its tx, then its address in the call tree.
spec fn frame_path(tx_index: u32, address: Seq<u32>) -> Seq<u32> {
    seq![tx_index] + address
}

/// One past the largest step.
const STEPS: u128 = 0x1_0000_0000;

/// The key of the edge that leaves a node by a step.
spec fn edge_key(node: int, step: u32) -> int {
    node * STEPS + step
}

/// The paths of failed frames, as a tree: a node for each path and each of its
/// prefixes, and a mark on those that are whole paths.
struct FailedPaths {
    /// The node that an edge leads to.
    edges: HashMap<u128, usize>,
    /// Whether a node is marked.
    marks: Vec<bool>,
    /// The path of each node.
    paths: Ghost<Seq<Seq<u32>>>,
}

impl FailedPaths {
    /// A known edge leads to the node whose path is one step longer.
    spec fn edge_ok(self, key: u128) -> bool {
        let from = key / STEPS;
        let step = (key % STEPS) as u32;
        &&& from < self.marks@.len()
        &&& self.edges@[key] < self.marks@.len()
        &&& self.paths@[self.edges@[key] as int] == self.paths@[from as int].push(step)
    }

    /// Node `parent` is one step above `node`, and an edge says so.
    spec fn leads_to(self, parent: int, node: int) -> bool {
        &&& 0 <= parent < self.marks@.len()
        &&& self.paths@[parent] == self.paths@[node].drop_last()
        &&& self.edges@.contains_key(edge_key(parent, self.paths@[node].last()) as u128)
        &&& self.edges@[edge_key(parent, self.paths@[node].last()) as u128] == node
    }

    /// Every node but the first has a parent.
    spec fn has_parent(self, node: int) -> bool {
        self.paths@[node].len() > 0 && exists|parent: int| self.leads_to(parent, node)
    }

    spec fn wf(self) -> bool {
        &&& self.paths@.len() == self.marks@.len()
        &&& self.marks@.len() > 0
        &&& self.paths@[0] == Seq::<u32>::empty()
        &&& forall|key: u128| #[trigger] self.edges@.contains_key(key) ==> self.edge_ok(key)
        &&& forall|node: int| 0 < node < self.marks@.len() ==> #[trigger] self.has_parent(node)
        &&& forall|a: int, b: int|
            0 <= a < b < self.marks@.len() ==> #[trigger] self.paths@[a] != #[trigger] self.paths@[b]
    }

    /// A node has this path.
    spec fn is_node(self, node: int, path: Seq<u32>) -> bool {
        0 <= node < self.marks@.len() && self.paths@[node] == path
    }

    /// The tree has a node with this path.
    spec fn has_node(self, path: Seq<u32>) -> bool {
        exists|node: int| self.is_node(node, path)
    }

    /// A marked node has this path.
    spec fn is_mark(self, node: int, path: Seq<u32>) -> bool {
        self.is_node(node, path) && self.marks@[node]
    }

    /// The path is marked.
    spec fn marked(self, path: Seq<u32>) -> bool {
        exists|node: int| self.is_mark(node, path)
    }

    /// Whether the node that a path has, if it is `node`, is marked.
    proof fn lemma_marked(self, node: int)
        requires
            self.wf(),
            0 <= node < self.marks@.len(),
        ensures
            self.marked(self.paths@[node]) == self.marks@[node],
    {
        let path = self.paths@[node];
        if self.marks@[node] {
            assert(self.is_mark(node, path));
        }
        if self.marked(path) {
            let other = choose|other: int| self.is_mark(other, path);
            assert(self.paths@[other] == self.paths@[node]);
        }
    }

    /// The prefixes of a node's path are paths of nodes.
    proof fn lemma_prefix_is_node(self, path: Seq<u32>, n: int)
        requires
            self.wf(),
            self.has_node(path),
            0 <= n <= path.len(),
        ensures
            self.has_node(path.take(n)),
        decreases path.len(),
    {
        if n == path.len() {
            assert(path.take(n) =~= path);
        } else {
            let node = choose|node: int| self.is_node(node, path);
            assert(self.has_parent(node));
            let parent = choose|parent: int| self.leads_to(parent, node);
            assert(self.is_node(parent, path.drop_last()));
            self.lemma_prefix_is_node(path.drop_last(), n);
            assert(path.drop_last().take(n) =~= path.take(n));
        }
    }

    fn new() -> (tree: FailedPaths)
        ensures
            tree.wf(),
            forall|path: Seq<u32>| !#[trigger] tree.marked(path),
    {
        let mut marks: Vec<bool> = Vec::new();
        marks.push(false);
        let ghost paths = seq![Seq::<u32>::empty()];
        FailedPaths { edges: HashMap::new(), marks, paths: Ghost(paths) }
    }

    /// The node one step below `node`, if there is one.
    fn step(&self, node: usize, step: u32) -> (below: Option<usize>)
        requires
            self.wf(),
            node < self.marks@.len(),
        ensures
            match below {
                Some(below) => self.is_node(below as int, self.paths@[node as int].push(step)),
                None => {
                    &&& !self.has_node(self.paths@[node as int].push(step))
                    &&& !self.edges@.contains_key(edge_key(node as int, step) as u128)
                },
            },
    {
        let key: u128 = node as u128 * STEPS + step as u128;
        assert(key == edge_key(node as int, step));
        assert(key / STEPS == node && key % STEPS == step);
        match self.edges.get(&key) {
            Some(below) => {
                assert(self.edge_ok(key));
                Some(*below)
            },
            None => {
                proof {
                    let path = self.paths@[node as int].push(step);
                    if self.has_node(path) {
                        let other = choose|other: int| self.is_node(other, path);
                        assert(path.len() > 0 && self.paths@[0].len() == 0);
                        assert(self.has_parent(other));
                        let parent = choose|parent: int| self.leads_to(parent, other);
                        assert(path.drop_last() =~= self.paths@[node as int]);
                        assert(self.paths@[parent] == self.paths@[node as int]);
                        assert(parent == node);
                    }
                }
                None
            },
        }
    }

    /// The node one step below `node`, made where there is none.
    fn grow(&mut self, node: usize, step: u32) -> (below: usize)
        requires
            old(self).wf(),
            node < old(self).marks@.len(),
        ensures
            final(self).wf(),
            final(self).is_node(below as int, old(self).paths@[node as int].push(step)),
            forall|path: Seq<u32>| #[trigger] final(self).marked(path) == old(self).marked(path),
    {
        if let Some(below) = self.step(node, step) {
            return below;
        }
        let key: u128 = node as u128 * STEPS + step as u128;
        assert(key / STEPS == node && key % STEPS == step);
        let below: usize = self.marks.len();
        let ghost path = self.paths@[node as int].push(step);
        self.edges.insert(key, below);
        self.marks.push(false);
        self.paths = Ghost(self.paths@.push(path));
        proof {
            assert forall|k: u128| #[trigger] self.edges@.contains_key(k) implies self.edge_ok(
                k,
            ) by {
                if k != key {
                    assert(old(self).edges@.contains_key(k));
                    assert(old(self).edge_ok(k));
                }
            }
            assert forall|n: int| 0 < n < self.marks@.len() implies #[trigger] self.has_parent(
                n,
            ) by {
                if n == below {
                    assert(path.drop_last() =~= self.paths@[node as int]);
                    assert(self.leads_to(node as int, n));
                } else {
                    assert(old(self).has_parent(n));
                    let parent = choose|parent: int| old(self).leads_to(parent, n);
                    assert(self.leads_to(parent, n));
                }
            }
            assert forall|a: int, b: int| 0 <= a < b < self.marks@.len() implies #[trigger]
                self.paths@[a] != #[trigger] self.paths@[b] by {
                if b == below && self.paths@[a] == path {
                    assert(old(self).is_node(a, path));
                }
            }
            assert forall|p: Seq<u32>| #[trigger] self.marked(p) == old(self).marked(p) by {
                if self.marked(p) {
                    let n = choose|n: int| self.is_mark(n, p);
                    assert(old(self).is_mark(n, p));
                }
                if old(self).marked(p) {
                    let n = choose|n: int| old(self).is_mark(n, p);
                    assert(self.is_mark(n, p));
                }
            }
        }
        below
    }

    /// Marks the path of a frame.
    fn mark(&mut self, tx_index: u32, address: &[u32])
        requires
            old(self).wf(),
        ensures
            final(self).wf(),
            forall|path: Seq<u32>| #[trigger]
                final(self).marked(path) == (old(self).marked(path) || path == frame_path(
                    tx_index,
                    address@,
                )),
    {
        let ghost whole = frame_path(tx_index, address@);
        let mut node: usize = self.grow(0, tx_index);
        assert(old(self).paths@[0].push(tx_index) =~= whole.take(1));
        let mut d: usize = 0;
        while d < address.len()
            invariant
                self.wf(),
                whole == frame_path(tx_index, address@),
                d <= address@.len(),
                self.is_node(node as int, whole.take(d + 1)),
                forall|path: Seq<u32>| #[trigger] self.marked(path) == old(self).marked(path),
            decreases address@.len() - d,
        {
            assert(whole.take(d + 1).push(address@[d as int]) =~= whole.take(d + 2));
            node = self.grow(node, address[d]);
            d = d + 1;
        }
        assert(whole.take(d + 1) =~= whole);
        let ghost before = *self;
        self.marks.set(node, true);
        proof {
            assert forall|n: int| 0 < n < self.marks@.len() implies #[trigger] self.has_parent(
                n,
            ) by {
                assert(before.has_parent(n));
                let parent = choose|parent: int| before.leads_to(parent, n);
                assert(self.leads_to(parent, n));
            }
            assert forall|k: u128| #[trigger] self.edges@.contains_key(k) implies self.edge_ok(
                k,
            ) by {
                assert(before.edge_ok(k));
            }
            assert forall|p: Seq<u32>| #[trigger] self.marked(p) == (old(self).marked(p) || p
                == whole) by {
                assert(before.marked(p) == old(self).marked(p));
                if p == whole {
                    assert(self.is_mark(node as int, p));
                }
                if self.marked(p) && p != whole {
                    let n = choose|n: int| self.is_mark(n, p);
                    assert(before.is_mark(n, p));
                }
                if before.marked(p) {
                    let n = choose|n: int| before.is_mark(n, p);
                    assert(self.is_mark(n, p));
                }
            }
        }
    }

    /// Whether a path above that of a frame, but in its tx, is marked.
    fn marked_above(&self, tx_index: u32, address: &[u32]) -> (found: bool)
        requires
            self.wf(),
        ensures
            found == exists|n: int|
                0 <= n < address@.len() && self.marked(
                    frame_path(tx_index, #[trigger] address@.take(n)),
                ),
    {
        let ghost whole = frame_path(tx_index, address@);
        assert(self.paths@[0].push(tx_index) =~= whole.take(1));
        assert forall|n: int| 0 <= n <= address@.len() implies frame_path(
            tx_index,
            #[trigger] address@.take(n),
        ) == whole.take(n + 1) by {
            assert(frame_path(tx_index, address@.take(n)) =~= whole.take(n + 1));
        }
        let mut node: usize = match self.step(0, tx_index) {
            Some(node) => node,
            None => {
                proof {
                    self.lemma_nothing_below(whole, 1);
                }
                return false;
            },
        };
        let mut d: usize = 0;
        while d < address.len()
            invariant
                self.wf(),
                whole == frame_path(tx_index, address@),
                d <= address@.len(),
                self.is_node(node as int, whole.take(d + 1)),
                forall|n: int| 0 <= n < d ==> !self.marked(#[trigger] whole.take(n + 1)),
                forall|n: int|
                    0 <= n <= address@.len() ==> frame_path(tx_index, #[trigger] address@.take(n))
                        == whole.take(n + 1),
            decreases address@.len() - d,
        {
            proof {
                self.lemma_marked(node as int);
            }
            if self.marks[node] {
                assert(self.marked(frame_path(tx_index, address@.take(d as int))));
                return true;
            }
            assert(whole.take(d + 1).push(address@[d as int]) =~= whole.take(d + 2));
            node = match self.step(node, address[d]) {
                Some(below) => below,
                None => {
                    proof {
                        self.lemma_nothing_below(whole, d + 2);
                    }
                    return false;
                },
            };
            d = d + 1;
        }
        false
    }

    /// Where a prefix of a path is no node, no longer prefix is marked.
    proof fn lemma_nothing_below(self, whole: Seq<u32>, m: int)
        requires
            self.wf(),
            0 <= m <= whole.len(),
            !self.has_node(whole.take(m)),
        ensures
            forall|n: int| m <= n <= whole.len() ==> !self.marked(#[trigger] whole.take(n)),
    {
        assert forall|n: int| m <= n <= whole.len() implies !self.marked(
            #[trigger] whole.take(n),
        ) by {
            if self.marked(whole.take(n)) {
                let node = choose|node: int| self.is_mark(node, whole.take(n));
                assert(self.is_node(node, whole.take(n)));
                self.lemma_prefix_is_node(whole.take(n), m);
                assert(whole.take(n).take(m) =~= whole.take(m));
            }
        }
    }
}

/// Frame `j` failed, and has this path.
spec fn fails_at(traces: Seq<IngestTrace>, j: int, path: Seq<u32>) -> bool {
    traces[j].status != 0 && frame_path(traces[j].tx_index, traces[j].trace_address@) == path
}

/// One of the first `n` frames failed and has this path.
spec fn failed_path(traces: Seq<IngestTrace>, n: int, path: Seq<u32>) -> bool {
    exists|j: int| 0 <= j < n && #[trigger] fails_at(traces, j, path)
}

/// A frame has a failed ancestor exactly when a path above its own failed.
proof fn lemma_above(traces: Seq<IngestTrace>, i: int)
    requires
        0 <= i < traces.len(),
    ensures
        ancestor_failed(traces, i) <==> exists|n: int|
            0 <= n < traces[i].trace_address@.len() && failed_path(
                traces,
                traces.len() as int,
                frame_path(traces[i].tx_index, #[trigger] traces[i].trace_address@.take(n)),
            ),
{
    let a = traces[i].trace_address@;
    let tx = traces[i].tx_index;
    let len = traces.len() as int;
    if ancestor_failed(traces, i) {
        let j = choose|j: int| failed_above(traces, i, j);
        let n = traces[j].trace_address@.len() as int;
        assert(fails_at(traces, j, frame_path(tx, a.take(n))));
        assert(failed_path(traces, len, frame_path(tx, a.take(n))));
    }
    if exists|n: int|
        0 <= n < a.len() && failed_path(traces, len, frame_path(tx, #[trigger] a.take(n))) {
        let n = choose|n: int|
            0 <= n < a.len() && failed_path(traces, len, frame_path(tx, #[trigger] a.take(n)));
        let path = frame_path(tx, a.take(n));
        let j = choose|j: int| 0 <= j < len && #[trigger] fails_at(traces, j, path);
        let own = frame_path(traces[j].tx_index, traces[j].trace_address@);
        assert(own[0] == path[0]);
        assert(own.skip(1) =~= traces[j].trace_address@);
        assert(path.skip(1) =~= a.take(n));
        assert(failed_above(traces, i, j));
    }
}

/// For each frame, true iff an ancestor frame (same tx, strict `trace_address`
/// prefix) did not succeed. Frames may come in any order.
pub fn compute_ancestor_reverted(traces: &[IngestTrace]) -> (out: Vec<bool>)
    ensures
        out@.len() == traces@.len(),
        forall|i: int|
            0 <= i < traces@.len() ==> #[trigger] out@[i] == ancestor_failed(traces@, i),
{
    let mut tree = FailedPaths::new();
    let mut n: usize = 0;
    while n < traces.len()
        invariant
            n <= traces@.len(),
            tree.wf(),
            forall|path: Seq<u32>| #[trigger]
                tree.marked(path) == failed_path(traces@, n as int, path),
        decreases traces@.len() - n,
    {
        let ghost before = tree;
        if traces[n].status != 0 {
            tree.mark(traces[n].tx_index, &traces[n].trace_address);
        }
        proof {
            assert forall|path: Seq<u32>| #[trigger] tree.marked(path) == failed_path(
                traces@,
                n + 1,
                path,
            ) by {
                assert(before.marked(path) == failed_path(traces@, n as int, path));
                if before.marked(path) {
                    let j = choose|j: int| 0 <= j < n && #[trigger] fails_at(traces@, j, path);
                    assert(fails_at(traces@, j, path));
                }
                if fails_at(traces@, n as int, path) {
                    assert(failed_path(traces@, n + 1, path));
                }
            }
        }
        n = n + 1;
    }
    let mut out: Vec<bool> = Vec::with_capacity(traces.len());
    let mut i: usize = 0;
    while i < traces.len()
        invariant
            i <= traces@.len(),
            tree.wf(),
            forall|path: Seq<u32>| #[trigger]
                tree.marked(path) == failed_path(traces@, traces@.len() as int, path),
            out@.len() == i,
            forall|k: int| 0 <= k < i ==> #[trigger] out@[k] == ancestor_failed(traces@, k),
        decreases traces@.len() - i,
    {
        let reverted: bool = tree.marked_above(traces[i].tx_index, &traces[i].trace_address);
        proof {
            let a = traces@[i as int].trace_address@;
            let tx = traces@[i as int].tx_index;
            assert forall|m: int| 0 <= m < a.len() implies tree.marked(
                frame_path(tx, #[trigger] a.take(m)),
            ) == failed_path(traces@, traces@.len() as int, frame_path(tx, a.take(m))) by {}
            lemma_above(traces@, i as int);
        }
        out.push(reverted);
        i = i + 1;
    }
    out
}

} // verus!
