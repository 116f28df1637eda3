//! The parent→child index derived from one snapshot, and reachability
//! through it: direct children, and the set of all descendants, computed
//! by a breadth-first traversal that visits each pid at most once and so
//! terminates even on corrupted, cyclic parent links.

use vstd::prelude::*;
use crate::process::ProcessRecord;
use crate::process::ProcessSnapshot;
use crate::process::has_pid;
use crate::text::contains_u32;

verus! {

/// A record contributes an edge when its parent pid is present and is
/// itself a pid of the snapshot; dangling parents contribute nothing.
pub open spec fn record_links(procs: Seq<ProcessRecord>, rec: ProcessRecord) -> bool {
    rec.parent_pid is Some && has_pid(procs, rec.parent_pid->0)
}

/// The (parent, child) edges a snapshot induces, in snapshot order.
pub open spec fn spec_edges(procs: Seq<ProcessRecord>, s: Seq<ProcessRecord>) -> Seq<(u32, u32)>
    decreases s.len(),
{
    if s.len() == 0 {
        Seq::empty()
    } else {
        spec_edges(procs, s.drop_last()) + (if record_links(procs, s.last()) {
            seq![(s.last().parent_pid->0, s.last().pid)]
        } else {
            Seq::<(u32, u32)>::empty()
        })
    }
}

/// The index records an edge from `a` to `b`.
pub open spec fn step_edge(edges: Seq<(u32, u32)>, a: u32, b: u32) -> bool {
    exists|k: int| 0 <= k < edges.len() && #[trigger] edges[k].0 == a && edges[k].1 == b
}

/// There is a path of length at most `n` from `a` to `b` along the edges.
pub open spec fn reaches_within(edges: Seq<(u32, u32)>, a: u32, b: u32, n: nat) -> bool
    decreases n,
{
    if a == b {
        true
    } else if n == 0 {
        false
    } else {
        exists|m: u32| step_edge(edges, a, m) && reaches_within(edges, m, b, (n - 1) as nat)
    }
}

/// `b` is reachable from `a` along some path through the edges.
pub open spec fn reachable(edges: Seq<(u32, u32)>, a: u32, b: u32) -> bool {
    exists|n: nat| reaches_within(edges, a, b, n)
}

/// The strict descendants of `t`: every pid other than `t` reachable from
/// `t` along parent→child edges.
pub open spec fn descendant_set(edges: Seq<(u32, u32)>, t: u32) -> Set<u32> {
    Set::new(|d: u32| d != t && reachable(edges, t, d))
}

/// `t` together with its strict descendants: the owners a window may have
/// and still belong to `t`.
pub open spec fn family_set(edges: Seq<(u32, u32)>, t: u32) -> Set<u32> {
    descendant_set(edges, t).insert(t)
}

/// The direct children recorded for `p`, in index order.
pub open spec fn spec_children(edges: Seq<(u32, u32)>, p: u32) -> Seq<u32>
    decreases edges.len(),
{
    if edges.len() == 0 {
        Seq::empty()
    } else {
        spec_children(edges.drop_last(), p) + (if edges.last().0 == p {
            seq![edges.last().1]
        } else {
            Seq::<u32>::empty()
        })
    }
}

proof fn lemma_reach_extend(edges: Seq<(u32, u32)>, a: u32, b: u32, c: u32, n: nat)
    requires
        reaches_within(edges, a, b, n),
        step_edge(edges, b, c),
    ensures
        reaches_within(edges, a, c, n + 1),
    decreases n,
{
    if a == b {
        if a != c {
            assert(step_edge(edges, a, c));
            assert(reaches_within(edges, c, c, n));
        }
    } else {
        let m = choose|m: u32|
            step_edge(edges, a, m) && reaches_within(edges, m, b, (n - 1) as nat);
        lemma_reach_extend(edges, m, b, c, (n - 1) as nat);
        assert(step_edge(edges, a, m) && reaches_within(edges, m, c, n));
    }
}

proof fn lemma_closed_covers(edges: Seq<(u32, u32)>, vis: Seq<u32>, a: u32, d: u32, n: nat)
    requires
        vis.contains(a),
        forall|v: u32, c: u32|
            vis.contains(v) && #[trigger] step_edge(edges, v, c) ==> vis.contains(c),
        reaches_within(edges, a, d, n),
    ensures
        vis.contains(d),
    decreases n,
{
    if a != d {
        let m = choose|m: u32|
            step_edge(edges, a, m) && reaches_within(edges, m, d, (n - 1) as nat);
        assert(vis.contains(m));
        lemma_closed_covers(edges, vis, m, d, (n - 1) as nat);
    }
}

proof fn lemma_visited_bound(edges: Seq<(u32, u32)>, vis: Seq<u32>, pid: u32)
    requires
        vis.no_duplicates(),
        forall|k: int|
            0 <= k < vis.len() ==> #[trigger] vis[k] == pid || (exists|j: int|
                0 <= j < edges.len() && #[trigger] edges[j].1 == vis[k]),
    ensures
        vis.len() <= edges.len() + 1,
{
    broadcast use vstd::seq_lib::seq_to_set_is_finite;

    let children = edges.map_values(|e: (u32, u32)| e.1);
    let target = children.to_set().insert(pid);
    assert forall|x: u32| vis.to_set().contains(x) implies target.contains(x) by {
        let k = choose|k: int| 0 <= k < vis.len() && vis[k] == x;
        if x != pid {
            let j = choose|j: int| 0 <= j < edges.len() && edges[j].1 == vis[k];
            assert(children[j] == x);
            assert(children.contains(x));
        }
    }
    assert(vis.to_set().subset_of(target));
    vis.unique_seq_to_set();
    children.lemma_cardinality_of_set();
    assert(target.len() <= children.to_set().len() + 1);
    vstd::set_lib::lemma_len_subset(vis.to_set(), target);
}

proof fn lemma_contains_after_push(s: Seq<u32>, c: u32, x: u32)
    requires
        s.contains(x),
    ensures
        s.push(c).contains(x),
{
    let idx = choose|idx: int| 0 <= idx < s.len() && s[idx] == x;
    assert(s.push(c)[idx] == x);
}

proof fn lemma_push_no_duplicates(vis: Seq<u32>, c: u32)
    requires
        vis.no_duplicates(),
        !vis.contains(c),
    ensures
        vis.push(c).no_duplicates(),
{
    let w = vis.push(c);
    assert forall|i: int, j: int| 0 <= i < w.len() && 0 <= j < w.len() && i != j implies w[i]
        != w[j] by {
        if i < vis.len() && j < vis.len() {
            assert(vis[i] == w[i] && vis[j] == w[j]);
        } else if i < vis.len() {
            assert(w[j] == c);
            if vis[i] == c {
                assert(vis.contains(c));
            }
        } else {
            assert(w[i] == c);
            if vis[j] == c {
                assert(vis.contains(c));
            }
        }
    }
}

/// The parent→child adjacency of one snapshot. Built once; the edges
/// reflect exactly the parent pids of the snapshot it came from.
pub struct ProcessTreeIndex {
    pub edges: Vec<(u32, u32)>,
}

impl ProcessTreeIndex {
    /// Derives the index: one edge per record whose parent pid is present
    /// and itself listed in the snapshot.
    pub fn build(snapshot: &ProcessSnapshot) -> (r: ProcessTreeIndex)
        ensures
            r.edges@ == spec_edges(snapshot.procs@, snapshot.procs@),
    {
        let mut edges: Vec<(u32, u32)> = Vec::new();
        let mut i: usize = 0;
        while i < snapshot.procs.len()
            invariant
                0 <= i <= snapshot.procs@.len(),
                edges@ == spec_edges(snapshot.procs@, snapshot.procs@.take(i as int)),
            decreases snapshot.procs@.len() - i,
        {
            proof {
                assert(snapshot.procs@.take(i as int + 1).drop_last() =~= snapshot.procs@.take(
                    i as int,
                ));
                assert(snapshot.procs@.take(i as int + 1).last() == snapshot.procs@[i as int]);
            }
            let rec_parent = snapshot.procs[i].parent_pid;
            if let Some(pp) = rec_parent {
                if snapshot.contains_pid(pp) {
                    edges.push((pp, snapshot.procs[i].pid));
                    proof {
                        assert(record_links(snapshot.procs@, snapshot.procs@[i as int]));
                        assert(edges@ =~= spec_edges(
                            snapshot.procs@,
                            snapshot.procs@.take(i as int + 1),
                        ));
                    }
                } else {
                    proof {
                        assert(!record_links(snapshot.procs@, snapshot.procs@[i as int]));
                        assert(edges@ =~= spec_edges(
                            snapshot.procs@,
                            snapshot.procs@.take(i as int + 1),
                        ));
                    }
                }
            } else {
                proof {
                    assert(!record_links(snapshot.procs@, snapshot.procs@[i as int]));
                    assert(edges@ =~= spec_edges(
                        snapshot.procs@,
                        snapshot.procs@.take(i as int + 1),
                    ));
                }
            }
            i += 1;
        }
        proof {
            assert(snapshot.procs@.take(snapshot.procs@.len() as int) =~= snapshot.procs@);
        }
        ProcessTreeIndex { edges }
    }

    /// The direct children of `pid`, in index order; empty if none.
    pub fn children_of(&self, pid: u32) -> (r: Vec<u32>)
        ensures
            r@ == spec_children(self.edges@, pid),
            forall|c: u32| r@.contains(c) <==> step_edge(self.edges@, pid, c),
    {
        let mut out: Vec<u32> = Vec::new();
        let mut i: usize = 0;
        while i < self.edges.len()
            invariant
                0 <= i <= self.edges@.len(),
                out@ == spec_children(self.edges@.take(i as int), pid),
                forall|c: u32|
                    out@.contains(c) <==> (exists|k: int|
                        0 <= k < i && #[trigger] self.edges@[k].0 == pid && self.edges@[k].1 == c),
            decreases self.edges@.len() - i,
        {
            proof {
                assert(self.edges@.take(i as int + 1).drop_last() =~= self.edges@.take(i as int));
                assert(self.edges@.take(i as int + 1).last() == self.edges@[i as int]);
            }
            let ghost prev = out@;
            let e = self.edges[i];
            if e.0 == pid {
                out.push(e.1);
                proof {
                    assert(out@ =~= spec_children(self.edges@.take(i as int + 1), pid));
                    assert forall|c: u32| out@.contains(c) implies (exists|k: int|
                        0 <= k < i + 1 && #[trigger] self.edges@[k].0 == pid && self.edges@[k].1
                            == c) by {
                        let ix = choose|ix: int| 0 <= ix < out@.len() && out@[ix] == c;
                        if ix < prev.len() {
                            assert(prev[ix] == c);
                            assert(prev.contains(c));
                        } else {
                            assert(self.edges@[i as int].0 == pid && self.edges@[i as int].1 == c);
                        }
                    }
                    assert forall|c: u32|
                        (exists|k: int|
                            0 <= k < i + 1 && #[trigger] self.edges@[k].0 == pid
                                && self.edges@[k].1 == c) implies out@.contains(c) by {
                        let k = choose|k: int|
                            0 <= k < i + 1 && self.edges@[k].0 == pid && self.edges@[k].1 == c;
                        if k < i as int {
                            assert(prev.contains(c));
                            let ix = choose|ix: int| 0 <= ix < prev.len() && prev[ix] == c;
                            assert(out@[ix] == c);
                        } else {
                            assert(out@[out@.len() - 1] == c);
                        }
                    }
                }
            } else {
                proof {
                    assert(out@ =~= spec_children(self.edges@.take(i as int + 1), pid));
                    assert forall|c: u32|
                        (exists|k: int|
                            0 <= k < i + 1 && #[trigger] self.edges@[k].0 == pid
                                && self.edges@[k].1 == c) implies out@.contains(c) by {
                        let k = choose|k: int|
                            0 <= k < i + 1 && self.edges@[k].0 == pid && self.edges@[k].1 == c;
                        assert(k < i as int);
                    }
                }
            }
            i += 1;
        }
        proof {
            assert(self.edges@.take(self.edges@.len() as int) =~= self.edges@);
        }
        out
    }

    /// Every pid reachable from `pid` through the index, `pid` itself
    /// excluded. The traversal keeps a visited list and enqueues each pid
    /// at most once, so it terminates even when parent links form a cycle.
    pub fn descendants_of(&self, pid: u32) -> (r: Vec<u32>)
        ensures
            forall|d: u32| r@.contains(d) <==> descendant_set(self.edges@, pid).contains(d),
            !r@.contains(pid),
            r@.no_duplicates(),
    {
        broadcast use vstd::seq_lib::lemma_seq_contains_after_push;

        let ghost edges = self.edges@;
        let mut visited: Vec<u32> = Vec::new();
        visited.push(pid);
        let mut i: usize = 0;
        proof {
            assert(reaches_within(edges, pid, pid, 0));
            assert(reachable(edges, pid, pid));
        }
        while i < visited.len()
            invariant
                edges == self.edges@,
                1 <= visited@.len() <= edges.len() + 1,
                visited@[0] == pid,
                0 <= i <= visited@.len(),
                visited@.no_duplicates(),
                forall|k: int|
                    0 <= k < visited@.len() ==> #[trigger] visited@[k] == pid || (exists|j: int|
                        0 <= j < edges.len() && #[trigger] edges[j].1 == visited@[k]),
                forall|k: int|
                    0 <= k < visited@.len() ==> reachable(edges, pid, #[trigger] visited@[k]),
                forall|k: int, j: int|
                    #![trigger visited@[k], edges[j].0]
                    0 <= k < i && 0 <= j < edges.len() && edges[j].0 == visited@[k]
                        ==> visited@.contains(edges[j].1),
            decreases edges.len() + 1 - visited@.len(), visited@.len() - i,
        {
            let v = visited[i];
            let mut j: usize = 0;
            let ghost entry_len = visited@.len();
            while j < self.edges.len()
                invariant
                    edges == self.edges@,
                    0 <= i < visited@.len(),
                    entry_len <= visited@.len(),
                    1 <= visited@.len() <= edges.len() + 1,
                    v == visited@[i as int],
                    visited@[0] == pid,
                    0 <= j <= edges.len(),
                    visited@.no_duplicates(),
                    forall|k: int|
                        0 <= k < visited@.len() ==> #[trigger] visited@[k] == pid || (exists|
                            jj: int,
                        |
                            0 <= jj < edges.len() && #[trigger] edges[jj].1 == visited@[k]),
                    forall|k: int|
                        0 <= k < visited@.len() ==> reachable(
                            edges,
                            pid,
                            #[trigger] visited@[k],
                        ),
                    forall|k: int, jj: int|
                        #![trigger visited@[k], edges[jj].0]
                        0 <= k < i && 0 <= jj < edges.len() && edges[jj].0 == visited@[k]
                            ==> visited@.contains(edges[jj].1),
                    forall|jj: int|
                        0 <= jj < j && #[trigger] edges[jj].0 == v ==> visited@.contains(
                            edges[jj].1,
                        ),
                decreases edges.len() - j,
            {
                let e = self.edges[j];
                if e.0 == v {
                    let c = e.1;
                    if !contains_u32(&visited, c) {
                        let ghost prev = visited@;
                        proof {
                            assert(edges[j as int].0 == v && edges[j as int].1 == c);
                            assert(reachable(edges, pid, prev[i as int]));
                            lemma_push_no_duplicates(prev, c);
                            assert forall|k: int|
                                0 <= k < prev.push(c).len() implies #[trigger] prev.push(c)[k]
                                == pid || (exists|jj: int|
                                0 <= jj < edges.len() && #[trigger] edges[jj].1 == prev.push(
                                    c,
                                )[k]) by {
                                if k < prev.len() {
                                    assert(prev.push(c)[k] == prev[k]);
                                } else {
                                    assert(prev.push(c)[k] == c);
                                    assert(edges[j as int].1 == c);
                                }
                            }
                            lemma_visited_bound(edges, prev.push(c), pid);
                            let n = choose|n: nat|
                                #[trigger] reaches_within(edges, pid, prev[i as int], n);
                            assert(step_edge(edges, v, c));
                            lemma_reach_extend(edges, pid, v, c, n);
                            assert(reaches_within(edges, pid, c, n + 1));
                            assert(reachable(edges, pid, c));
                        }
                        visited.push(c);
                        proof {
                            assert(visited@ == prev.push(c));
                            assert(visited@[visited@.len() - 1] == c);
                            assert forall|k: int|
                                0 <= k < visited@.len() implies reachable(
                                edges,
                                pid,
                                #[trigger] visited@[k],
                            ) by {
                                if k < prev.len() {
                                    assert(visited@[k] == prev[k]);
                                    assert(reachable(edges, pid, prev[k]));
                                } else {
                                    assert(visited@[k] == c);
                                }
                            }
                            assert forall|k: int, jj: int|
                                #![trigger visited@[k], edges[jj].0]
                                0 <= k < i && 0 <= jj < edges.len() && edges[jj].0 == visited@[k]
                                 implies visited@.contains(edges[jj].1) by {
                                assert(visited@[k] == prev[k]);
                                assert(prev[k] == visited@[k]);
                                assert(edges[jj].0 == prev[k]);
                                assert(prev.contains(edges[jj].1));
                                lemma_contains_after_push(prev, c, edges[jj].1);
                            }
                            assert forall|jj: int|
                                0 <= jj < j + 1 && #[trigger] edges[jj].0 == v implies
                                visited@.contains(edges[jj].1) by {
                                if jj < j as int {
                                    assert(prev.contains(edges[jj].1));
                                    lemma_contains_after_push(prev, c, edges[jj].1);
                                } else {
                                    assert(edges[jj].1 == c);
                                    assert(visited@[visited@.len() - 1] == c);
                                }
                            }
                        }
                    } else {
                        proof {
                            assert forall|jj: int|
                                0 <= jj < j + 1 && #[trigger] edges[jj].0 == v implies
                                visited@.contains(edges[jj].1) by {
                                if jj == j as int {
                                    assert(edges[jj].1 == c);
                                    assert(visited@.contains(c));
                                }
                            }
                        }
                    }
                }
                j += 1;
            }
            i += 1;
        }
        let mut out: Vec<u32> = Vec::new();
        let mut k: usize = 1;
        while k < visited.len()
            invariant
                1 <= k <= visited@.len(),
                1 <= visited@.len(),
                out@ == visited@.subrange(1, k as int),
            decreases visited@.len() - k,
        {
            proof {
                assert(visited@.subrange(1, k as int + 1).drop_last() =~= visited@.subrange(
                    1,
                    k as int,
                ));
                assert(visited@.subrange(1, k as int + 1).last() == visited@[k as int]);
            }
            out.push(visited[k]);
            proof {
                assert(out@ =~= visited@.subrange(1, k as int + 1));
            }
            k += 1;
        }
        proof {
            assert(out@ == visited@.subrange(1, visited@.len() as int));
            assert forall|d: u32| out@.contains(d) implies descendant_set(edges, pid).contains(
                d,
            ) by {
                let ix = choose|ix: int| 0 <= ix < out@.len() && out@[ix] == d;
                assert(visited@[ix + 1] == d);
                if d == pid {
                    assert(visited@[0] == pid);
                    assert(false);
                }
                assert(reachable(edges, pid, visited@[ix + 1]));
            }
            assert forall|d: u32| descendant_set(edges, pid).contains(d) implies out@.contains(
                d,
            ) by {
                assert(d != pid);
                let n = choose|n: nat| #[trigger] reaches_within(edges, pid, d, n);
                assert(visited@.contains(pid)) by {
                    assert(visited@[0] == pid);
                }
                assert forall|v: u32, c: u32|
                    visited@.contains(v) && #[trigger] step_edge(edges, v, c) implies
                    visited@.contains(c) by {
                    let kk = choose|kk: int| 0 <= kk < visited@.len() && visited@[kk] == v;
                    let jj = choose|jj: int|
                        0 <= jj < edges.len() && #[trigger] edges[jj].0 == v && edges[jj].1 == c;
                    assert(edges[jj].0 == visited@[kk]);
                }
                lemma_closed_covers(edges, visited@, pid, d, n);
                let kk = choose|kk: int| 0 <= kk < visited@.len() && visited@[kk] == d;
                assert(kk != 0);
                assert(out@[kk - 1] == d);
            }
            assert forall|a: int, b: int|
                0 <= a < out@.len() && 0 <= b < out@.len() && a != b implies out@[a]
                != out@[b] by {
                assert(out@[a] == visited@[a + 1]);
                assert(out@[b] == visited@[b + 1]);
            }
            assert(out@.no_duplicates());
            assert(!out@.contains(pid)) by {
                if out@.contains(pid) {
                    let ix = choose|ix: int| 0 <= ix < out@.len() && out@[ix] == pid;
                    assert(visited@[ix + 1] == pid);
                    assert(visited@[0] == pid);
                }
            }
        }
        out
    }
}

} // verus!
