use vstd::prelude::*;
use vstd::set_lib::{lemma_int_range, lemma_len_subset, set_int_range};

use crate::graph::{Edge, Graph};

verus! {

/// Some edge of `edges` goes from `a` to `b`.
pub open spec fn has_edge(edges: Seq<Edge>, a: usize, b: usize) -> bool {
    exists|j: int| 0 <= j < edges.len() && edges[j].source == a && edges[j].target == b
}

/// `p` is a non-empty walk along `edges`.
pub open spec fn is_path(edges: Seq<Edge>, p: Seq<usize>) -> bool {
    &&& p.len() > 0
    &&& forall|i: int| 0 <= i < p.len() - 1 ==> #[trigger] has_edge(edges, p[i], p[i + 1])
}

/// `t` can be reached from `s` by following zero or more edges.
pub open spec fn reachable(edges: Seq<Edge>, s: usize, t: usize) -> bool {
    exists|p: Seq<usize>| is_path(edges, p) && p[0] == s && p.last() == t
}

/// Every edge that leaves a node reachable from `s` points at an index below
/// `n`: a search from `s` reads only those edges.
pub open spec fn reachable_targets_below(edges: Seq<Edge>, s: usize, n: nat) -> bool {
    forall|j: int|
        0 <= j < edges.len() && reachable(edges, s, #[trigger] edges[j].source) ==> edges[j].target
            < n
}

/// Every target of an edge leaving one of the first `k` entries of `r` is in `r`.
pub open spec fn closed_upto(edges: Seq<Edge>, r: Seq<usize>, k: int) -> bool {
    forall|i: int, j: int|
        0 <= i < k && 0 <= j < edges.len() && #[trigger] edges[j].source == #[trigger] r[i]
            ==> r.contains(edges[j].target)
}

/// Scanning `edges[..j]`, appends to `seen` each target of an edge from `u`
/// that is not yet in it.
pub open spec fn append_new_targets(edges: Seq<Edge>, seen: Seq<usize>, u: usize, j: nat) -> Seq<
    usize,
>
    decreases j,
{
    if j == 0 || j > edges.len() {
        seen
    } else {
        let prev = append_new_targets(edges, seen, u, (j - 1) as nat);
        let e = edges[j - 1];
        if e.source == u && !prev.contains(e.target) {
            prev.push(e.target)
        } else {
            prev
        }
    }
}

/// Breadth-first order: the entries of `order` from index `k` on are the queue;
/// each one taken from it appends its new targets, in edge order.
pub open spec fn bfs_from(edges: Seq<Edge>, n: nat, order: Seq<usize>, k: nat) -> Seq<usize>
    decreases n - k,
{
    if k < order.len() && k < n {
        bfs_from(edges, n, append_new_targets(edges, order, order[k as int], edges.len()), k + 1)
    } else {
        order
    }
}

/// The node ids that breadth-first search from `s` visits, in order.
pub open spec fn bfs_order(edges: Seq<Edge>, n: nat, s: usize) -> Seq<usize> {
    bfs_from(edges, n, seq![s], 0)
}

/// Scanning `edges[..j]`, pushes onto `stack` each target of an edge from `u`
/// that is not in `seen`.
pub open spec fn push_unseen_targets(
    edges: Seq<Edge>,
    seen: Seq<usize>,
    u: usize,
    stack: Seq<usize>,
    j: nat,
) -> Seq<usize>
    decreases j,
{
    if j == 0 || j > edges.len() {
        stack
    } else {
        let prev = push_unseen_targets(edges, seen, u, stack, (j - 1) as nat);
        let e = edges[j - 1];
        if e.source == u && !seen.contains(e.target) {
            prev.push(e.target)
        } else {
            prev
        }
    }
}

/// Depth-first order: pop the top of `stack`; an id already in `seen` is
/// dropped, a new one is appended to `seen` and its unseen targets are pushed
/// in edge order.
pub open spec fn dfs_from(edges: Seq<Edge>, n: nat, stack: Seq<usize>, seen: Seq<usize>) -> Seq<
    usize,
>
    decreases n - seen.len(), stack.len(),
{
    if stack.len() == 0 {
        seen
    } else {
        let x = stack.last();
        let rest = stack.drop_last();
        if seen.contains(x) {
            dfs_from(edges, n, rest, seen)
        } else if seen.len() < n {
            let seen2 = seen.push(x);
            dfs_from(edges, n, push_unseen_targets(edges, seen2, x, rest, edges.len()), seen2)
        } else {
            seen
        }
    }
}

/// The node ids that depth-first search from `s` visits, in order.
pub open spec fn dfs_order(edges: Seq<Edge>, n: nat, s: usize) -> Seq<usize> {
    dfs_from(edges, n, seq![s], seq![])
}

/// Every target of an edge leaving a member of `r` is in `r` or on `stack`.
pub open spec fn covered_by(edges: Seq<Edge>, r: Seq<usize>, stack: Seq<usize>) -> bool {
    forall|i: int, j: int|
        0 <= i < r.len() && 0 <= j < edges.len() && #[trigger] edges[j].source == #[trigger] r[i]
            ==> r.contains(edges[j].target) || stack.contains(edges[j].target)
}

proof fn lemma_reachable_start(edges: Seq<Edge>, s: usize)
    ensures
        reachable(edges, s, s),
{
    let p = seq![s];
    assert(is_path(edges, p) && p[0] == s && p.last() == s);
}

proof fn lemma_reachable_extend(edges: Seq<Edge>, s: usize, u: usize, j: int)
    requires
        reachable(edges, s, u),
        0 <= j < edges.len(),
        edges[j].source == u,
    ensures
        reachable(edges, s, edges[j].target),
{
    let p = choose|p: Seq<usize>| is_path(edges, p) && p[0] == s && p.last() == u;
    let q = p.push(edges[j].target);
    assert forall|i: int| 0 <= i < q.len() - 1 implies #[trigger] has_edge(edges, q[i], q[i + 1]) by {
        if i < p.len() - 1 {
            assert(has_edge(edges, p[i], p[i + 1]));
        } else {
            assert(edges[j].source == q[i] && edges[j].target == q[i + 1]);
        }
    }
    assert(is_path(edges, q) && q[0] == s && q.last() == edges[j].target);
}

/// Each entry of a walk that starts inside a closed `r` is in `r`.
proof fn lemma_closed_holds_path(edges: Seq<Edge>, r: Seq<usize>, p: Seq<usize>, i: int)
    requires
        is_path(edges, p),
        r.contains(p[0]),
        closed_upto(edges, r, r.len() as int),
        0 <= i < p.len(),
    ensures
        r.contains(p[i]),
    decreases i,
{
    if i > 0 {
        lemma_closed_holds_path(edges, r, p, i - 1);
        let h = i - 1;
        assert(has_edge(edges, p[h], p[h + 1]));
        let j = choose|j: int|
            0 <= j < edges.len() && edges[j].source == p[h] && edges[j].target == p[h + 1];
        let k = choose|k: int| 0 <= k < r.len() && r[k] == p[h];
        assert(edges[j].source == r[k]);
    }
}

/// A set of ids that holds `s` and every target of an edge leaving one of its
/// members holds every id reachable from `s`.
proof fn lemma_closed_holds_reachable(edges: Seq<Edge>, r: Seq<usize>, s: usize, t: usize)
    requires
        r.contains(s),
        closed_upto(edges, r, r.len() as int),
        reachable(edges, s, t),
    ensures
        r.contains(t),
{
    let p = choose|p: Seq<usize>| is_path(edges, p) && p[0] == s && p.last() == t;
    lemma_closed_holds_path(edges, r, p, p.len() - 1);
}

/// A sequence of distinct ids below `n` has at most `n` entries.
proof fn lemma_distinct_ids_bounded(r: Seq<usize>, n: nat)
    requires
        r.no_duplicates(),
        forall|i: int| 0 <= i < r.len() ==> #[trigger] r[i] < n,
    ensures
        r.len() <= n,
{
    let f = |x: usize| x as int;
    let m = r.map_values(f);
    assert forall|i: int, j: int| 0 <= i < m.len() && 0 <= j < m.len() && i != j implies m[i]
        != m[j] by {
        assert(r[i] != r[j]);
    }
    assert(m.no_duplicates());
    m.unique_seq_to_set();
    lemma_int_range(0, n as int);
    assert forall|x: int| m.to_set().contains(x) implies set_int_range(0, n as int).contains(x) by {
        let i = choose|i: int| 0 <= i < m.len() && m[i] == x;
        assert(r[i] < n);
    }
    lemma_len_subset(m.to_set(), set_int_range(0, n as int));
}

/// `n` flags, all false.
fn unvisited(n: usize) -> (v: Vec<bool>)
    ensures
        v@ == Seq::new(n as nat, |i: int| false),
{
    let mut v: Vec<bool> = Vec::new();
    while v.len() < n
        invariant
            v.len() <= n,
            v@ == Seq::new(v.len() as nat, |i: int| false),
        decreases n - v.len(),
    {
        v.push(false);
    }
    v
}

impl Graph {
    /// Visits the nodes reachable from `start_node_id` level by level; the
    /// edges leaving a node are followed in their stored order.
    pub fn breadth_first_search(&self, start_node_id: usize) -> (result: Vec<usize>)
        requires
            start_node_id < self@.nodes.len(),
            reachable_targets_below(self@.edges, start_node_id, self@.nodes.len()),
        ensures
            result@ == bfs_order(self@.edges, self@.nodes.len(), start_node_id),
            result@.len() > 0,
            result@[0] == start_node_id,
            result@.no_duplicates(),
            forall|t: usize| result@.contains(t) <==> reachable(self@.edges, start_node_id, t),
            forall|k: int|
                0 < k < result@.len() ==> exists|p: int|
                    0 <= p < k && has_edge(self@.edges, result@[p], #[trigger] result@[k]),
    {
        let n = self.nodes.len();
        let ghost edges = self@.edges;
        let mut visited = unvisited(n);
        let mut result: Vec<usize> = Vec::new();
        visited.set(start_node_id, true);
        result.push(start_node_id);
        proof {
            lemma_reachable_start(edges, start_node_id);
            assert forall|x: int| 0 <= x < n implies (visited@[x] <==> result@.contains(
                x as usize,
            )) by {
                if x == start_node_id as int {
                    assert(result@[0] == start_node_id);
                }
            }
        }
        let mut head: usize = 0;
        while head < result.len()
            invariant
                edges == self@.edges,
                n == self@.nodes.len(),
                reachable_targets_below(edges, start_node_id, n as nat),
                visited@.len() == n,
                head <= result@.len() <= n,
                result@.len() > 0,
                result@[0] == start_node_id,
                result@.no_duplicates(),
                forall|i: int| 0 <= i < result@.len() ==> #[trigger] result@[i] < n,
                forall|x: int| 0 <= x < n ==> (visited@[x] <==> result@.contains(x as usize)),
                forall|t: usize| result@.contains(t) ==> reachable(edges, start_node_id, t),
                forall|k: int|
                    0 < k < result@.len() ==> exists|p: int|
                        0 <= p < k && has_edge(edges, result@[p], #[trigger] result@[k]),
                closed_upto(edges, result@, head as int),
                bfs_from(edges, n as nat, result@, head as nat) == bfs_order(
                    edges,
                    n as nat,
                    start_node_id,
                ),
            decreases n - head,
        {
            let current_node_id = result[head];
            let ghost before = result@;
            let mut j: usize = 0;
            while j < self.edges.len()
                invariant
                    edges == self@.edges,
                    n == self@.nodes.len(),
                    reachable_targets_below(edges, start_node_id, n as nat),
                    visited@.len() == n,
                    head < before.len(),
                    current_node_id == before[head as int],
                    0 <= j <= edges.len(),
                    result@ == append_new_targets(edges, before, current_node_id, j as nat),
                    before.is_prefix_of(result@),
                    result@.len() <= n,
                    result@[0] == start_node_id,
                    result@.no_duplicates(),
                    forall|i: int| 0 <= i < result@.len() ==> #[trigger] result@[i] < n,
                    forall|x: int| 0 <= x < n ==> (visited@[x] <==> result@.contains(x as usize)),
                    forall|t: usize| result@.contains(t) ==> reachable(edges, start_node_id, t),
                    forall|k: int|
                        0 < k < result@.len() ==> exists|p: int|
                            0 <= p < k && has_edge(edges, result@[p], #[trigger] result@[k]),
                    closed_upto(edges, result@, head as int),
                    forall|jj: int|
                        0 <= jj < j && #[trigger] edges[jj].source == current_node_id
                            ==> result@.contains(edges[jj].target),
                decreases edges.len() - j,
            {
                let edge = self.edges[j];
                let ghost prev = result@;
                if edge.source == current_node_id {
                    let target = edge.target;
                    if !visited[target] {
                        proof {
                            assert(edges[j as int].target < n);
                            lemma_reachable_extend(edges, start_node_id, current_node_id, j as int);
                            let np = prev.push(target);
                            assert forall|i: int| 0 <= i < np.len() implies #[trigger] np[i] < n by {
                                if i < prev.len() {
                                    assert(prev[i] < n);
                                }
                            }
                            lemma_distinct_ids_bounded(np, n as nat);
                        }
                        visited.set(target, true);
                        result.push(target);
                        proof {
                            let r = result@;
                            assert(has_edge(edges, current_node_id, target));
                            assert forall|k: int| 0 < k < r.len() implies exists|p: int|
                                0 <= p < k && has_edge(edges, r[p], #[trigger] r[k]) by {
                                if k < prev.len() {
                                    let p = choose|p: int|
                                        0 <= p < k && has_edge(edges, prev[p], #[trigger] prev[k]);
                                    assert(r[p] == prev[p]);
                                } else {
                                    assert(r[head as int] == current_node_id);
                                }
                            }
                            assert forall|x: int| 0 <= x < n implies (visited@[x]
                                <==> r.contains(x as usize)) by {
                                if visited@[x] && x != target as int {
                                    assert(prev.contains(x as usize));
                                    let i = choose|i: int| 0 <= i < prev.len() && prev[i] == x as usize;
                                    assert(r[i] == x as usize);
                                }
                                if r.contains(x as usize) && x != target as int {
                                    let i = choose|i: int| 0 <= i < r.len() && r[i] == x as usize;
                                    assert(prev[i] == x as usize);
                                }
                                if x == target as int {
                                    assert(r[r.len() - 1] == target);
                                }
                            }
                            assert(before.is_prefix_of(r)) by {
                                assert forall|i: int| 0 <= i < before.len() implies before[i] == r[i] by {
                                    assert(before[i] == prev[i]);
                                }
                            }
                        }
                    }
                }
                proof {
                    let r = result@;
                    assert(r == append_new_targets(edges, before, current_node_id, (j + 1) as nat));
                    assert forall|i: int| 0 <= i < prev.len() implies r.contains(#[trigger] prev[i]) by {
                        assert(r[i] == prev[i]);
                    }
                    assert forall|i: int, jj: int|
                        0 <= i < head && 0 <= jj < edges.len() && #[trigger] edges[jj].source
                            == #[trigger] r[i] implies r.contains(edges[jj].target) by {
                        assert(r[i] == prev[i]);
                        assert(prev.contains(edges[jj].target));
                    }
                    assert forall|jj: int|
                        0 <= jj < j + 1 && #[trigger] edges[jj].source == current_node_id
                            implies r.contains(edges[jj].target) by {
                        if jj < j {
                            assert(prev.contains(edges[jj].target));
                        } else {
                            assert(visited@[edges[jj].target as int]);
                        }
                    }
                }
                j += 1;
            }
            proof {
                let r = result@;
                assert(r == append_new_targets(edges, before, before[head as int], edges.len()));
                assert(bfs_from(edges, n as nat, before, head as nat) == bfs_from(
                    edges,
                    n as nat,
                    r,
                    (head + 1) as nat,
                ));
                assert(before[head as int] == r[head as int]);
                assert(closed_upto(edges, r, head + 1)) by {
                    assert forall|i: int, jj: int|
                        0 <= i < head + 1 && 0 <= jj < edges.len() && #[trigger] edges[jj].source
                            == #[trigger] r[i] implies r.contains(edges[jj].target) by {
                        if i < head {
                        } else {
                            assert(edges[jj].source == current_node_id);
                        }
                    }
                }
            }
            head += 1;
        }
        proof {
            let r = result@;
            assert(r.contains(start_node_id)) by {
                assert(r[0] == start_node_id);
            }
            assert forall|t: usize| reachable(edges, start_node_id, t) implies r.contains(t) by {
                lemma_closed_holds_reachable(edges, r, start_node_id, t);
            }
        }
        result
    }

    /// Visits the nodes reachable from `start_node_id` with an explicit stack:
    /// the unvisited targets of a node are pushed in their stored edge order,
    /// so they are taken in the reverse of it.
    pub fn depth_first_search(&self, start_node_id: usize) -> (result: Vec<usize>)
        requires
            start_node_id < self@.nodes.len(),
            reachable_targets_below(self@.edges, start_node_id, self@.nodes.len()),
        ensures
            result@ == dfs_order(self@.edges, self@.nodes.len(), start_node_id),
            result@.len() > 0,
            result@[0] == start_node_id,
            result@.no_duplicates(),
            forall|t: usize| result@.contains(t) <==> reachable(self@.edges, start_node_id, t),
    {
        let n = self.nodes.len();
        let ghost edges = self@.edges;
        let mut stack: Vec<usize> = Vec::new();
        stack.push(start_node_id);
        let mut visited = unvisited(n);
        let mut result: Vec<usize> = Vec::new();
        proof {
            lemma_reachable_start(edges, start_node_id);
        }
        while stack.len() > 0
            invariant
                edges == self@.edges,
                n == self@.nodes.len(),
                reachable_targets_below(edges, start_node_id, n as nat),
                visited@.len() == n,
                result@.len() <= n,
                result@.len() == 0 ==> stack@ == seq![start_node_id],
                result@.len() > 0 ==> result@[0] == start_node_id,
                result@.no_duplicates(),
                forall|i: int| 0 <= i < result@.len() ==> #[trigger] result@[i] < n,
                forall|i: int| 0 <= i < stack@.len() ==> #[trigger] stack@[i] < n,
                forall|x: int| 0 <= x < n ==> (visited@[x] <==> result@.contains(x as usize)),
                forall|t: usize| result@.contains(t) ==> reachable(edges, start_node_id, t),
                forall|t: usize| stack@.contains(t) ==> reachable(edges, start_node_id, t),
                covered_by(edges, result@, stack@),
                dfs_from(edges, n as nat, stack@, result@) == dfs_order(
                    edges,
                    n as nat,
                    start_node_id,
                ),
            decreases n - result@.len(), stack@.len(),
        {
            let ghost popped_from = stack@;
            let current_node_id = match stack.pop() {
                Some(c) => c,
                None => start_node_id,
            };
            let ghost rest = stack@;
            proof {
                assert(current_node_id == popped_from.last());
                assert(rest == popped_from.drop_last());
                assert(popped_from.contains(current_node_id)) by {
                    assert(popped_from[popped_from.len() - 1] == current_node_id);
                }
                assert(current_node_id < n) by {
                    assert(popped_from[popped_from.len() - 1] < n);
                }
                assert forall|t: usize| rest.contains(t) implies popped_from.contains(t) by {
                    let i = choose|i: int| 0 <= i < rest.len() && rest[i] == t;
                    assert(popped_from[i] == t);
                }
                assert forall|i: int| 0 <= i < rest.len() implies #[trigger] rest[i] < n by {
                    assert(popped_from[i] < n);
                }
            }
            if !visited[current_node_id] {
                let ghost before = result@;
                proof {
                    let np = before.push(current_node_id);
                    assert forall|i: int| 0 <= i < np.len() implies #[trigger] np[i] < n by {
                        if i < before.len() {
                            assert(before[i] < n);
                        }
                    }
                    lemma_distinct_ids_bounded(np, n as nat);
                }
                visited.set(current_node_id, true);
                result.push(current_node_id);
                proof {
                    let r = result@;
                    assert(r.last() == current_node_id);
                    assert(r.contains(current_node_id)) by {
                        assert(r[r.len() - 1] == current_node_id);
                    }
                    assert forall|x: int| 0 <= x < n implies (visited@[x]
                        <==> r.contains(x as usize)) by {
                        if visited@[x] && x != current_node_id as int {
                            let i = choose|i: int| 0 <= i < before.len() && before[i] == x as usize;
                            assert(r[i] == x as usize);
                        }
                        if r.contains(x as usize) && x != current_node_id as int {
                            let i = choose|i: int| 0 <= i < r.len() && r[i] == x as usize;
                            assert(before[i] == x as usize);
                        }
                    }
                    assert forall|t: usize| r.contains(t) implies reachable(
                        edges,
                        start_node_id,
                        t,
                    ) by {
                        if t != current_node_id {
                            let i = choose|i: int| 0 <= i < r.len() && r[i] == t;
                            assert(before[i] == t);
                        }
                    }
                    if before.len() > 0 {
                        assert(r[0] == before[0]);
                    }
                }
                let mut j: usize = 0;
                while j < self.edges.len()
                    invariant
                        edges == self@.edges,
                        n == self@.nodes.len(),
                        reachable_targets_below(edges, start_node_id, n as nat),
                        visited@.len() == n,
                        0 <= j <= edges.len(),
                        result@ == before.push(current_node_id),
                        reachable(edges, start_node_id, current_node_id),
                        stack@ == push_unseen_targets(edges, result@, current_node_id, rest, j as nat),
                        rest.is_prefix_of(stack@),
                        forall|i: int| 0 <= i < stack@.len() ==> #[trigger] stack@[i] < n,
                        forall|x: int| 0 <= x < n ==> (visited@[x] <==> result@.contains(x as usize)),
                        forall|t: usize| stack@.contains(t) ==> reachable(edges, start_node_id, t),
                        forall|jj: int|
                            0 <= jj < j && #[trigger] edges[jj].source == current_node_id
                                ==> result@.contains(edges[jj].target) || stack@.contains(edges[jj].target),
                    decreases edges.len() - j,
                {
                    let edge = self.edges[j];
                    let ghost prev = stack@;
                    if edge.source == current_node_id {
                        let target = edge.target;
                        if !visited[target] {
                            proof {
                                assert(edges[j as int].target < n);
                                lemma_reachable_extend(edges, start_node_id, current_node_id, j as int);
                            }
                            stack.push(target);
                        }
                    }
                    proof {
                        let st = stack@;
                        assert forall|t: usize| prev.contains(t) implies st.contains(t) by {
                            let i = choose|i: int| 0 <= i < prev.len() && prev[i] == t;
                            assert(st[i] == t);
                        }
                        assert(rest.is_prefix_of(st)) by {
                            assert forall|i: int| 0 <= i < rest.len() implies rest[i] == st[i] by {
                                assert(rest[i] == prev[i]);
                            }
                        }
                        assert forall|t: usize| st.contains(t) implies reachable(
                            edges,
                            start_node_id,
                            t,
                        ) by {
                            let i = choose|i: int| 0 <= i < st.len() && st[i] == t;
                            if i < prev.len() {
                                assert(prev[i] == t);
                            }
                        }
                        assert forall|jj: int|
                            0 <= jj < j + 1 && #[trigger] edges[jj].source == current_node_id
                                implies result@.contains(edges[jj].target) || st.contains(
                                edges[jj].target,
                            ) by {
                            if jj == j && !visited@[edges[jj].target as int] {
                                assert(st[st.len() - 1] == edges[jj].target);
                            }
                        }
                    }
                    j += 1;
                }
                proof {
                    let r = result@;
                    let st = stack@;
                    assert forall|t: usize| rest.contains(t) implies st.contains(t) by {
                        let i = choose|i: int| 0 <= i < rest.len() && rest[i] == t;
                        assert(st[i] == t);
                    }
                    assert forall|i: int, jj: int|
                        0 <= i < r.len() && 0 <= jj < edges.len() && #[trigger] edges[jj].source
                            == #[trigger] r[i] implies r.contains(edges[jj].target) || st.contains(
                            edges[jj].target,
                        ) by {
                        let t = edges[jj].target;
                        if i < before.len() {
                            assert(before[i] == r[i]);
                            assert(before.contains(t) || popped_from.contains(t));
                            if before.contains(t) {
                                let k = choose|k: int| 0 <= k < before.len() && before[k] == t;
                                assert(r[k] == t);
                            } else if t != current_node_id {
                                let k = choose|k: int| 0 <= k < popped_from.len() && popped_from[k] == t;
                                assert(k < rest.len());
                                assert(rest[k] == t);
                            }
                        }
                    }
                    assert(!before.contains(current_node_id));
                    assert(dfs_from(edges, n as nat, popped_from, before) == dfs_from(
                        edges,
                        n as nat,
                        st,
                        r,
                    ));
                }
            } else {
                proof {
                    let r = result@;
                    assert(r.contains(current_node_id));
                    assert forall|i: int, jj: int|
                        0 <= i < r.len() && 0 <= jj < edges.len() && #[trigger] edges[jj].source
                            == #[trigger] r[i] implies r.contains(edges[jj].target) || rest.contains(
                            edges[jj].target,
                        ) by {
                        let t = edges[jj].target;
                        if !r.contains(t) {
                            assert(popped_from.contains(t));
                            let k = choose|k: int| 0 <= k < popped_from.len() && popped_from[k] == t;
                            assert(k < rest.len());
                            assert(rest[k] == t);
                        }
                    }
                    assert(dfs_from(edges, n as nat, popped_from, r) == dfs_from(
                        edges,
                        n as nat,
                        rest,
                        r,
                    ));
                }
            }
        }
        proof {
            let r = result@;
            assert(r.contains(start_node_id)) by {
                assert(r[0] == start_node_id);
            }
            assert(closed_upto(edges, r, r.len() as int)) by {
                assert forall|i: int, jj: int|
                    0 <= i < r.len() && 0 <= jj < edges.len() && #[trigger] edges[jj].source
                        == #[trigger] r[i] implies r.contains(edges[jj].target) by {
                    assert(!stack@.contains(edges[jj].target));
                }
            }
            assert forall|t: usize| reachable(edges, start_node_id, t) implies r.contains(t) by {
                lemma_closed_holds_reachable(edges, r, start_node_id, t);
            }
            assert(dfs_from(edges, n as nat, stack@, r) == r);
        }
        result
    }

    /// Whether a search from `start_node_id` stays within the node table: the
    /// start, and the target of every edge leaving a node reachable from it,
    /// lie below the node count.
    pub fn search_in_bounds(&self, start_node_id: usize) -> (ok: bool)
        ensures
            ok == (start_node_id < self@.nodes.len() && reachable_targets_below(
                self@.edges,
                start_node_id,
                self@.nodes.len(),
            )),
    {
        let n = self.nodes.len();
        let ghost edges = self@.edges;
        if start_node_id >= n {
            return false;
        }
        let mut visited = unvisited(n);
        let mut order: Vec<usize> = Vec::new();
        visited.set(start_node_id, true);
        order.push(start_node_id);
        proof {
            lemma_reachable_start(edges, start_node_id);
            assert forall|x: int| 0 <= x < n implies (visited@[x] <==> order@.contains(
                x as usize,
            )) by {
                if x == start_node_id as int {
                    assert(order@[0] == start_node_id);
                }
            }
        }
        let mut head: usize = 0;
        while head < order.len()
            invariant
                edges == self@.edges,
                n == self@.nodes.len(),
                start_node_id < n,
                visited@.len() == n,
                head <= order@.len() <= n,
                order@.len() > 0,
                order@[0] == start_node_id,
                order@.no_duplicates(),
                forall|i: int| 0 <= i < order@.len() ==> #[trigger] order@[i] < n,
                forall|x: int| 0 <= x < n ==> (visited@[x] <==> order@.contains(x as usize)),
                forall|t: usize| order@.contains(t) ==> reachable(edges, start_node_id, t),
                closed_upto(edges, order@, head as int),
                forall|i: int, jj: int|
                    0 <= i < head && 0 <= jj < edges.len() && #[trigger] edges[jj].source
                        == #[trigger] order@[i] ==> edges[jj].target < n,
            decreases n - head,
        {
            let current_node_id = order[head];
            let ghost before = order@;
            let mut j: usize = 0;
            while j < self.edges.len()
                invariant
                    edges == self@.edges,
                    n == self@.nodes.len(),
                    visited@.len() == n,
                    head < before.len(),
                    current_node_id == before[head as int],
                    0 <= j <= edges.len(),
                    before.is_prefix_of(order@),
                    order@.len() <= n,
                    order@[0] == start_node_id,
                    order@.no_duplicates(),
                    forall|i: int| 0 <= i < order@.len() ==> #[trigger] order@[i] < n,
                    forall|x: int| 0 <= x < n ==> (visited@[x] <==> order@.contains(x as usize)),
                    forall|t: usize| order@.contains(t) ==> reachable(edges, start_node_id, t),
                    closed_upto(edges, order@, head as int),
                    forall|i: int, jj: int|
                        0 <= i < head && 0 <= jj < edges.len() && #[trigger] edges[jj].source
                            == #[trigger] order@[i] ==> edges[jj].target < n,
                    forall|jj: int|
                        0 <= jj < j && #[trigger] edges[jj].source == current_node_id
                            ==> order@.contains(edges[jj].target) && edges[jj].target < n,
                decreases edges.len() - j,
            {
                let edge = self.edges[j];
                let ghost prev = order@;
                proof {
                    assert(prev[head as int] == current_node_id);
                    assert(prev.contains(current_node_id));
                }
                if edge.source == current_node_id {
                    let target = edge.target;
                    if target >= n {
                        proof {
                            assert(reachable(edges, start_node_id, edges[j as int].source));
                        }
                        return false;
                    }
                    if !visited[target] {
                        proof {
                            lemma_reachable_extend(edges, start_node_id, current_node_id, j as int);
                            let np = prev.push(target);
                            assert forall|i: int| 0 <= i < np.len() implies #[trigger] np[i] < n by {
                                if i < prev.len() {
                                    assert(prev[i] < n);
                                }
                            }
                            lemma_distinct_ids_bounded(np, n as nat);
                        }
                        visited.set(target, true);
                        order.push(target);
                        proof {
                            let r = order@;
                            assert forall|x: int| 0 <= x < n implies (visited@[x]
                                <==> r.contains(x as usize)) by {
                                if visited@[x] && x != target as int {
                                    let i = choose|i: int| 0 <= i < prev.len() && prev[i] == x as usize;
                                    assert(r[i] == x as usize);
                                }
                                if r.contains(x as usize) && x != target as int {
                                    let i = choose|i: int| 0 <= i < r.len() && r[i] == x as usize;
                                    assert(prev[i] == x as usize);
                                }
                                if x == target as int {
                                    assert(r[r.len() - 1] == target);
                                }
                            }
                            assert(before.is_prefix_of(r)) by {
                                assert forall|i: int| 0 <= i < before.len() implies before[i] == r[i] by {
                                    assert(before[i] == prev[i]);
                                }
                            }
                        }
                    }
                }
                proof {
                    let r = order@;
                    assert forall|i: int| 0 <= i < prev.len() implies r.contains(#[trigger] prev[i]) by {
                        assert(r[i] == prev[i]);
                    }
                    assert forall|i: int, jj: int|
                        0 <= i < head && 0 <= jj < edges.len() && #[trigger] edges[jj].source
                            == #[trigger] r[i] implies r.contains(edges[jj].target) by {
                        assert(r[i] == prev[i]);
                        assert(prev.contains(edges[jj].target));
                    }
                    assert forall|i: int, jj: int|
                        0 <= i < head && 0 <= jj < edges.len() && #[trigger] edges[jj].source
                            == #[trigger] r[i] implies edges[jj].target < n by {
                        assert(r[i] == prev[i]);
                    }
                    assert forall|jj: int|
                        0 <= jj < j + 1 && #[trigger] edges[jj].source == current_node_id
                            implies r.contains(edges[jj].target) && edges[jj].target < n by {
                        if jj < j {
                            assert(prev.contains(edges[jj].target));
                        } else {
                            assert(visited@[edges[jj].target as int]);
                        }
                    }
                }
                j += 1;
            }
            proof {
                let r = order@;
                assert(before[head as int] == r[head as int]);
                assert(closed_upto(edges, r, head + 1)) by {
                    assert forall|i: int, jj: int|
                        0 <= i < head + 1 && 0 <= jj < edges.len() && #[trigger] edges[jj].source
                            == #[trigger] r[i] implies r.contains(edges[jj].target) by {
                        if i == head {
                            assert(edges[jj].source == current_node_id);
                        }
                    }
                }
                assert forall|i: int, jj: int|
                    0 <= i < head + 1 && 0 <= jj < edges.len() && #[trigger] edges[jj].source
                        == #[trigger] r[i] implies edges[jj].target < n by {
                    if i == head {
                        assert(edges[jj].source == current_node_id);
                    }
                }
            }
            head += 1;
        }
        proof {
            let r = order@;
            assert(r.contains(start_node_id)) by {
                assert(r[0] == start_node_id);
            }
            assert forall|jj: int|
                0 <= jj < edges.len() && reachable(
                    edges,
                    start_node_id,
                    #[trigger] edges[jj].source,
                ) implies edges[jj].target < n by {
                lemma_closed_holds_reachable(edges, r, start_node_id, edges[jj].source);
                let i = choose|i: int| 0 <= i < r.len() && r[i] == edges[jj].source;
                assert(edges[jj].source == r[i]);
            }
        }
        true
    }
}

} // verus!
