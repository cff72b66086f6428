use vstd::prelude::*;

verus! {

/// A vertex: an integer id and a text label.
#[derive(Clone, Debug)]
pub struct Node {
    pub id: usize,
    pub label: String,
}

impl PartialEq for Node {
    fn eq(&self, o: &Node) -> (r: bool)
        ensures
            r == (self.id == o.id && self.label@ == o.label@),
    {
        self.id == o.id && self.label == o.label
    }
}

impl vstd::std_specs::cmp::PartialEqSpecImpl for Node {
    open spec fn obeys_eq_spec() -> bool {
        true
    }

    open spec fn eq_spec(&self, o: &Node) -> bool {
        self.id == o.id && self.label@ == o.label@
    }
}

impl Eq for Node {
}

/// A directed edge from `source` to `target`, both node ids.
#[derive(Clone, Copy, Debug, PartialEq, Eq, Structural)]
pub struct Edge {
    pub source: usize,
    pub target: usize,
}

/// A directed graph: its nodes and its edges, each in insertion order.
#[derive(Clone, Debug)]
pub struct Graph {
    pub nodes: Vec<Node>,
    pub edges: Vec<Edge>,
}

/// The mathematical content of a graph: the two sequences.
pub struct GraphModel {
    pub nodes: Seq<Node>,
    pub edges: Seq<Edge>,
}

/// Position of the first edge from `source` to `target`; `edges.len()` if
/// there is none.
pub open spec fn first_edge(edges: Seq<Edge>, source: usize, target: usize) -> nat
    decreases edges.len(),
{
    if edges.len() == 0 || edges[0] == (Edge { source, target }) {
        0
    } else {
        1 + first_edge(edges.drop_first(), source, target)
    }
}

/// Position of the first node with this id; `nodes.len()` if there is none.
pub open spec fn first_node(nodes: Seq<Node>, id: usize) -> nat
    decreases nodes.len(),
{
    if nodes.len() == 0 || nodes[0].id == id {
        0
    } else {
        1 + first_node(nodes.drop_first(), id)
    }
}

/// The edge touches the node `id`, as source or as target.
pub open spec fn touches(e: Edge, id: usize) -> bool {
    e.source == id || e.target == id
}

/// The test that keeps an edge when a node with this id is removed.
pub open spec fn untouched_by(id: usize) -> spec_fn(Edge) -> bool {
    |e: Edge| !touches(e, id)
}

impl GraphModel {
    /// Some edge goes from `source` to `target`.
    pub open spec fn contains_edge(self, source: usize, target: usize) -> bool {
        exists|i: int| 0 <= i < self.edges.len() && self.edges[i] == (Edge { source, target })
    }

    /// Some node has this id.
    pub open spec fn contains_node(self, id: usize) -> bool {
        exists|i: int| 0 <= i < self.nodes.len() && self.nodes[i].id == id
    }

    /// The graph without the first edge from `source` to `target`, if any.
    pub open spec fn edge_removed(self, source: usize, target: usize) -> GraphModel {
        let i = first_edge(self.edges, source, target);
        if i < self.edges.len() {
            GraphModel { nodes: self.nodes, edges: self.edges.remove(i as int) }
        } else {
            self
        }
    }

    /// The graph without the first node with this id and without every edge
    /// that touches the id; unchanged if no node has it.
    pub open spec fn node_removed(self, id: usize) -> GraphModel {
        let i = first_node(self.nodes, id);
        if i < self.nodes.len() {
            GraphModel {
                nodes: self.nodes.remove(i as int),
                edges: self.edges.filter(untouched_by(id)),
            }
        } else {
            self
        }
    }
}

impl View for Graph {
    type V = GraphModel;

    open spec fn view(&self) -> GraphModel {
        GraphModel { nodes: self.nodes@, edges: self.edges@ }
    }
}

impl Default for Graph {
    fn default() -> (g: Graph)
        ensures
            g@.nodes.len() == 0,
            g@.edges.len() == 0,
    {
        Graph::new()
    }
}

impl Graph {
    /// An empty graph.
    pub fn new() -> (g: Graph)
        ensures
            g@.nodes.len() == 0,
            g@.edges.len() == 0,
    {
        Graph { nodes: Vec::new(), edges: Vec::new() }
    }

    /// Appends a node; ids are not checked.
    pub fn add_node(&mut self, id: usize, label: String)
        ensures
            final(self)@.nodes == old(self)@.nodes.push(Node { id, label }),
            final(self)@.edges == old(self)@.edges,
    {
        self.nodes.push(Node { id, label });
    }

    /// Appends an edge; its endpoints are not checked.
    pub fn add_edge(&mut self, source: usize, target: usize)
        ensures
            final(self)@.edges == old(self)@.edges.push((Edge { source, target })),
            final(self)@.nodes == old(self)@.nodes,
    {
        self.edges.push(Edge { source, target });
    }

    /// Removes the first edge from `source` to `target`; returns whether one
    /// was found. Without a match the graph is left as it was.
    pub fn remove_edge(&mut self, source: usize, target: usize) -> (removed: bool)
        ensures
            removed == old(self)@.contains_edge(source, target),
            final(self)@ == old(self)@.edge_removed(source, target),
            !removed ==> final(self)@ == old(self)@,
    {
        let mut i: usize = 0;
        while i < self.edges.len()
            invariant
                self@ == old(self)@,
                0 <= i <= self.edges@.len(),
                forall|k: int| 0 <= k < i ==> #[trigger] self.edges@[k] != (Edge { source, target }),
            decreases self.edges@.len() - i,
        {
            let edge = self.edges[i];
            if edge.source == source && edge.target == target {
                proof {
                    assert(old(self)@.edges[i as int] == (Edge { source, target }));
                    lemma_first_edge(self.edges@, source, target);
                }
                self.edges.remove(i);
                return true;
            }
            i += 1;
        }
        proof {
            lemma_first_edge(self.edges@, source, target);
        }
        false
    }

    /// Removes the first node with this id together with every edge that
    /// touches the id; returns whether such a node was found. Without one
    /// neither nodes nor edges change.
    pub fn remove_node(&mut self, id: usize) -> (removed: bool)
        ensures
            removed == old(self)@.contains_node(id),
            final(self)@ == old(self)@.node_removed(id),
            !removed ==> final(self)@ == old(self)@,
    {
        let mut i: usize = 0;
        while i < self.nodes.len()
            invariant
                self@ == old(self)@,
                0 <= i <= self.nodes@.len(),
                forall|k: int| 0 <= k < i ==> #[trigger] self.nodes@[k].id != id,
            decreases self.nodes@.len() - i,
        {
            if self.nodes[i].id == id {
                proof {
                    assert(old(self)@.nodes[i as int].id == id);
                    lemma_first_node(self.nodes@, id);
                }
                self.nodes.remove(i);
                let kept = edges_not_touching(&self.edges, id);
                self.edges = kept;
                return true;
            }
            i += 1;
        }
        proof {
            lemma_first_node(self.nodes@, id);
        }
        false
    }
}

/// The edges of `edges` that do not touch `id`, in their order.
fn edges_not_touching(edges: &Vec<Edge>, id: usize) -> (kept: Vec<Edge>)
    ensures
        kept@ == edges@.filter(untouched_by(id)),
{
    let mut kept: Vec<Edge> = Vec::new();
    let mut j: usize = 0;
    while j < edges.len()
        invariant
            0 <= j <= edges@.len(),
            kept@ == edges@.subrange(0, j as int).filter(untouched_by(id)),
        decreases edges@.len() - j,
    {
        let edge = edges[j];
        proof {
            assert(edges@.subrange(0, j + 1) =~= edges@.subrange(0, j as int).push(edge));
            edges@.subrange(0, j as int).lemma_filter_push(edge, untouched_by(id));
            assert(untouched_by(id)(edge) == !touches(edge, id));
        }
        if edge.source != id && edge.target != id {
            kept.push(edge);
        }
        j += 1;
    }
    proof {
        assert(edges@.subrange(0, edges@.len() as int) =~= edges@);
    }
    kept
}

/// `first_edge` is the first match, and there is none before it.
pub proof fn lemma_first_edge(edges: Seq<Edge>, source: usize, target: usize)
    ensures
        first_edge(edges, source, target) <= edges.len(),
        first_edge(edges, source, target) < edges.len() ==> edges[first_edge(
            edges,
            source,
            target,
        ) as int] == (Edge { source, target }),
        forall|k: int|
            0 <= k < first_edge(edges, source, target) ==> #[trigger] edges[k] != (Edge {
                source,
                target,
            }),
        first_edge(edges, source, target) < edges.len() <==> (exists|k: int|
            0 <= k < edges.len() && edges[k] == (Edge { source, target })),
    decreases edges.len(),
{
    if edges.len() > 0 && edges[0] != (Edge { source, target }) {
        let rest = edges.drop_first();
        lemma_first_edge(rest, source, target);
        assert forall|k: int| 0 <= k < first_edge(edges, source, target) implies #[trigger] edges[k]
            != (Edge { source, target }) by {
            if k > 0 {
                assert(edges[k] == rest[k - 1]);
            }
        }
        if exists|k: int| 0 <= k < edges.len() && edges[k] == (Edge { source, target }) {
            let k = choose|k: int| 0 <= k < edges.len() && edges[k] == (Edge { source, target });
            assert(rest[k - 1] == edges[k]);
        }
        if first_edge(rest, source, target) < rest.len() {
            let f = first_edge(rest, source, target) as int;
            assert(edges[f + 1] == rest[f]);
        }
    }
}

/// `first_node` is the first match, and there is none before it.
pub proof fn lemma_first_node(nodes: Seq<Node>, id: usize)
    ensures
        first_node(nodes, id) <= nodes.len(),
        first_node(nodes, id) < nodes.len() ==> nodes[first_node(nodes, id) as int].id == id,
        forall|k: int| 0 <= k < first_node(nodes, id) ==> #[trigger] nodes[k].id != id,
        first_node(nodes, id) < nodes.len() <==> (exists|k: int|
            0 <= k < nodes.len() && nodes[k].id == id),
    decreases nodes.len(),
{
    if nodes.len() > 0 && nodes[0].id != id {
        let rest = nodes.drop_first();
        lemma_first_node(rest, id);
        assert forall|k: int| 0 <= k < first_node(nodes, id) implies #[trigger] nodes[k].id
            != id by {
            if k > 0 {
                assert(nodes[k] == rest[k - 1]);
            }
        }
        if exists|k: int| 0 <= k < nodes.len() && nodes[k].id == id {
            let k = choose|k: int| 0 <= k < nodes.len() && nodes[k].id == id;
            assert(rest[k - 1] == nodes[k]);
        }
        if first_node(rest, id) < rest.len() {
            let f = first_node(rest, id) as int;
            assert(nodes[f + 1] == rest[f]);
        }
    }
}

/// No two nodes share an id.
pub open spec fn ids_unique(nodes: Seq<Node>) -> bool {
    forall|i: int, j: int| 0 <= i < j < nodes.len() ==> nodes[i].id != nodes[j].id
}

/// Removing a node whose id occurs once leaves no node with that id and no
/// edge that touches it; the other nodes and the other edges stay, each in
/// their former order.
pub proof fn lemma_remove_node_cascades(g: GraphModel, n: usize)
    requires
        g.contains_node(n),
        ids_unique(g.nodes),
    ensures
        forall|i: int|
            0 <= i < g.node_removed(n).nodes.len() ==> #[trigger] g.node_removed(n).nodes[i].id
                != n,
        forall|k: int|
            0 <= k < g.node_removed(n).edges.len() ==> !touches(
                #[trigger] g.node_removed(n).edges[k],
                n,
            ),
        exists|i: int|
            0 <= i < g.nodes.len() && g.nodes[i].id == n && g.node_removed(n).nodes
                == g.nodes.remove(i),
        g.node_removed(n).edges == g.edges.filter(untouched_by(n)),
{
    lemma_first_node(g.nodes, n);
    let i = first_node(g.nodes, n) as int;
    let h = g.node_removed(n);
    assert(h.nodes == g.nodes.remove(i));
    assert forall|k: int| 0 <= k < h.nodes.len() implies #[trigger] h.nodes[k].id != n by {
        if k < i {
            assert(h.nodes[k] == g.nodes[k]);
            assert(g.nodes[k].id != g.nodes[i].id);
        } else {
            assert(h.nodes[k] == g.nodes[k + 1]);
            assert(g.nodes[i].id != g.nodes[k + 1].id);
        }
    }
    g.edges.filter_lemma(untouched_by(n));
    assert forall|k: int| 0 <= k < h.edges.len() implies !touches(#[trigger] h.edges[k], n) by {
        assert(untouched_by(n)(h.edges[k]));
    }
}

/// A removal that finds no match leaves the graph as it was.
pub proof fn lemma_missed_removal_is_noop(g: GraphModel, id: usize, source: usize, target: usize)
    ensures
        !g.contains_node(id) ==> g.node_removed(id) == g,
        !g.contains_edge(source, target) ==> g.edge_removed(source, target) == g,
{
    lemma_first_node(g.nodes, id);
    lemma_first_edge(g.edges, source, target);
}

} // verus!
