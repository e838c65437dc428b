use crate::adjacency::{first_copies, keys_of, Adjacency};
use crate::node::Node;
use vstd::prelude::*;

verus! {

/// What every graph variant offers to the search algorithms.
pub trait Graph {
    spec fn well_formed(&self) -> bool;

    /// The keys of the graph's nodes, one entry per node.
    spec fn node_keys(&self) -> Seq<Seq<char>>;

    spec fn has_key(&self, k: Seq<char>) -> bool;

    /// Whether an edge leads from key `a` to key `b`.
    spec fn has_edge(&self, a: Seq<char>, b: Seq<char>) -> bool;

    proof fn lemma_shape(&self)
        requires
            self.well_formed(),
        ensures
            self.node_keys().no_duplicates(),
            forall|k: Seq<char>| #[trigger] self.has_key(k) <==> self.node_keys().contains(k),
            forall|a: Seq<char>, b: Seq<char>| #[trigger]
                self.has_edge(a, b) ==> self.has_key(a) && self.has_key(b),
    ;

    fn has_node(&self, node: &Node) -> (r: bool)
        requires
            self.well_formed(),
        ensures
            r == self.has_key(node.id@),
    ;

    /// The nodes that edges from `node` lead to, each once, in increasing key
    /// order; `None` when `node` is not in the graph.
    fn neighbors(&self, node: &Node) -> (r: Option<Vec<Node>>)
        requires
            self.well_formed(),
        ensures
            r is Some <==> self.has_key(node.id@),
            r matches Some(v) ==> {
                &&& forall|c: int|
                    0 <= c < v.len() ==> self.has_key(#[trigger] v[c].id@) && self.has_edge(
                        node.id@,
                        v[c].id@,
                    )
                &&& forall|b: Seq<char>|
                    self.has_edge(node.id@, b) ==> exists|c: int|
                        0 <= c < v.len() && #[trigger] v[c].id@ == b
                &&& forall|c: int, d: int|
                    0 <= c < v.len() && 0 <= d < v.len() && c != d ==> #[trigger] v[c].id@
                        != #[trigger] v[d].id@
                &&& forall|c: int, d: int|
                    0 <= c < d < v.len() ==> crate::node::key_less(#[trigger] v[c].id@, #[trigger] v[d].id@)
            },
    ;
}

/// Whether key `k` is an endpoint of one of the pairs.
pub open spec fn mentions(edges: Seq<(Node, Node)>, k: Seq<char>) -> bool
    decreases edges.len(),
{
    if edges.len() == 0 {
        false
    } else {
        edges.last().0.id@ == k || edges.last().1.id@ == k || mentions(edges.drop_last(), k)
    }
}

/// Whether one of the pairs goes from key `a` to key `b`.
pub open spec fn joins(edges: Seq<(Node, Node)>, a: Seq<char>, b: Seq<char>) -> bool
    decreases edges.len(),
{
    if edges.len() == 0 {
        false
    } else {
        (edges.last().0.id@ == a && edges.last().1.id@ == b) || joins(edges.drop_last(), a, b)
    }
}

/// An undirected graph: every edge joins its two endpoints both ways.
pub struct SimpleGraph {
    pub data: Adjacency<()>,
}

impl Graph for SimpleGraph {
    open spec fn well_formed(&self) -> bool {
        &&& self.data.well_formed()
        &&& forall|a: Seq<char>, b: Seq<char>| #[trigger]
            self.data.has_edge(a, b) ==> self.data.has_edge(b, a)
    }

    open spec fn node_keys(&self) -> Seq<Seq<char>> {
        self.data.keys()
    }

    open spec fn has_key(&self, k: Seq<char>) -> bool {
        self.data.has_key(k)
    }

    open spec fn has_edge(&self, a: Seq<char>, b: Seq<char>) -> bool {
        self.data.has_edge(a, b)
    }

    proof fn lemma_shape(&self) {
    }

    fn has_node(&self, node: &Node) -> (r: bool) {
        self.data.find(&node.id).is_some()
    }

    fn neighbors(&self, node: &Node) -> (r: Option<Vec<Node>>) {
        self.data.neighbor_nodes(&node.id)
    }
}

impl SimpleGraph {
    pub fn new() -> (r: Self)
        ensures
            r.well_formed(),
            r.data.nodes@.len() == 0,
            forall|k: Seq<char>| !r.has_key(k),
            forall|a: Seq<char>, b: Seq<char>| !r.has_edge(a, b),
    {
        SimpleGraph { data: Adjacency::new() }
    }

    /// Adds `node` unless a node with its key is present; an existing node
    /// keeps its attributes.
    pub fn add_node(&mut self, node: Node)
        requires
            old(self).well_formed(),
        ensures
            final(self).well_formed(),
            old(self).has_key(node.id@) ==> *final(self) == *old(self),
            !old(self).has_key(node.id@) ==> final(self).data.nodes@ == old(self).data.nodes@.push(node),
            forall|k: Seq<char>| #[trigger]
                final(self).has_key(k) <==> (old(self).has_key(k) || k == node.id@),
            forall|a: Seq<char>, b: Seq<char>| #[trigger]
                final(self).has_edge(a, b) == old(self).has_edge(a, b),
    {
        let ghost g0 = self.data;
        self.data.insert_node(node);
        proof {
            assert forall|a: Seq<char>, b: Seq<char>| #[trigger]
                self.data.has_edge(a, b) implies self.data.has_edge(b, a) by {
                assert(self.data.label(a, b) == g0.label(a, b));
                assert(self.data.label(b, a) == g0.label(b, a));
                assert(g0.has_edge(a, b));
                assert(g0.has_edge(b, a));
            }
        }
    }

    /// Joins `source` and `target` both ways, adding either node if absent.
    pub fn add_edge(&mut self, source: Node, target: Node)
        requires
            old(self).well_formed(),
        ensures
            final(self).well_formed(),
            forall|k: Seq<char>| #[trigger]
                final(self).has_key(k) <==> (old(self).has_key(k) || k == source.id@ || k
                    == target.id@),
            forall|a: Seq<char>, b: Seq<char>| #[trigger]
                final(self).has_edge(a, b) <==> (old(self).has_edge(a, b) || (a == source.id@ && b
                    == target.id@) || (a == target.id@ && b == source.id@)),
    {
        let ghost s = source.id@;
        let ghost t = target.id@;
        let ghost g0 = self.data;
        let i = self.data.insert_node(source);
        let j = self.data.insert_node(target);
        let ghost g2 = self.data;
        self.data.set_label(i, j, ());
        let ghost g3 = self.data;
        self.data.set_label(j, i, ());
        proof {
            assert(self.data.keys() == g2.keys());
            assert(g2.keys()[i as int] == s);
            assert forall|k: Seq<char>| #[trigger]
                self.has_key(k) <==> (g0.has_key(k) || k == s || k == t) by {
                assert(self.data.has_key(k) == g2.has_key(k));
            }
            assert forall|a: Seq<char>, b: Seq<char>| #[trigger]
                self.has_edge(a, b) <==> (g0.has_edge(a, b) || (a == s && b == t) || (a == t && b
                    == s)) by {
                assert(g2.label(a, b) == g0.label(a, b));
            }
            assert forall|a: Seq<char>, b: Seq<char>| #[trigger]
                self.data.has_edge(a, b) implies self.data.has_edge(b, a) by {
                assert(g2.label(a, b) == g0.label(a, b));
                assert(g2.label(b, a) == g0.label(b, a));
                assert(g3.label(a, b) == if a == s && b == t { Some(()) } else { g2.label(a, b) });
                assert(g3.label(b, a) == if b == s && a == t { Some(()) } else { g2.label(b, a) });
                assert(self.data.label(b, a) == if b == t && a == s { Some(()) } else { g3.label(b, a) });
                assert(self.data.label(a, b) == if a == t && b == s { Some(()) } else { g3.label(a, b) });
                if g0.has_edge(a, b) {
                    assert(g0.has_edge(b, a));
                }
            }
        }
    }

    /// The graph holding exactly the pairs of the list, each joined both ways.
    pub fn from_edge_list(edge_list: Vec<(Node, Node)>) -> (r: Self)
        ensures
            r.well_formed(),
            forall|k: Seq<char>| #[trigger] r.has_key(k) <==> mentions(edge_list@, k),
            forall|a: Seq<char>, b: Seq<char>| #[trigger]
                r.has_edge(a, b) <==> (joins(edge_list@, a, b) || joins(edge_list@, b, a)),
    {
        let mut g = SimpleGraph::new();
        let mut k: usize = 0;
        while k < edge_list.len()
            invariant
                0 <= k <= edge_list.len(),
                g.well_formed(),
                forall|x: Seq<char>| #[trigger]
                    g.has_key(x) <==> mentions(edge_list@.subrange(0, k as int), x),
                forall|a: Seq<char>, b: Seq<char>| #[trigger]
                    g.has_edge(a, b) <==> (joins(edge_list@.subrange(0, k as int), a, b) || joins(
                        edge_list@.subrange(0, k as int),
                        b,
                        a,
                    )),
            decreases edge_list.len() - k,
        {
            let ghost prefix = edge_list@.subrange(0, k as int);
            let ghost next = edge_list@.subrange(0, k + 1);
            assert(next.drop_last() =~= prefix);
            g.add_edge(edge_list[k].0.duplicate(), edge_list[k].1.duplicate());
            k = k + 1;
        }
        assert(edge_list@.subrange(0, edge_list.len() as int) =~= edge_list@);
        g
    }

    /// The graph holding one node for each distinct key of the list (the
    /// first node with that key) and no edges.
    pub fn from_node_list(node_list: Vec<Node>) -> (r: Self)
        ensures
            r.well_formed(),
            forall|k: Seq<char>| #[trigger] r.has_key(k) <==> keys_of(node_list@).contains(k),
            first_copies(r.data.nodes@, node_list@, node_list.len() as int),
            forall|a: Seq<char>, b: Seq<char>| !r.has_edge(a, b),
    {
        let data = Adjacency::from_nodes(node_list);
        let r = Self { data };
        proof {
            assert forall|a: Seq<char>, b: Seq<char>| !r.data.has_edge(a, b) by {
                assert(r.data.label(a, b) is None);
            }
        }
        r
    }
}

/// A directed graph: an edge leads from its source to its target only.
pub struct DiGraph {
    pub data: Adjacency<()>,
}

impl Graph for DiGraph {
    open spec fn well_formed(&self) -> bool {
        self.data.well_formed()
    }

    open spec fn node_keys(&self) -> Seq<Seq<char>> {
        self.data.keys()
    }

    open spec fn has_key(&self, k: Seq<char>) -> bool {
        self.data.has_key(k)
    }

    open spec fn has_edge(&self, a: Seq<char>, b: Seq<char>) -> bool {
        self.data.has_edge(a, b)
    }

    proof fn lemma_shape(&self) {
    }

    fn has_node(&self, node: &Node) -> (r: bool) {
        self.data.find(&node.id).is_some()
    }

    fn neighbors(&self, node: &Node) -> (r: Option<Vec<Node>>) {
        self.data.neighbor_nodes(&node.id)
    }
}

impl DiGraph {
    pub fn new() -> (r: Self)
        ensures
            r.well_formed(),
            r.data.nodes@.len() == 0,
            forall|k: Seq<char>| !r.has_key(k),
            forall|a: Seq<char>, b: Seq<char>| !r.has_edge(a, b),
    {
        DiGraph { data: Adjacency::new() }
    }

    /// Adds `node` unless a node with its key is present; an existing node
    /// keeps its attributes.
    pub fn add_node(&mut self, node: Node)
        requires
            old(self).well_formed(),
        ensures
            final(self).well_formed(),
            old(self).has_key(node.id@) ==> *final(self) == *old(self),
            !old(self).has_key(node.id@) ==> final(self).data.nodes@ == old(self).data.nodes@.push(node),
            forall|k: Seq<char>| #[trigger]
                final(self).has_key(k) <==> (old(self).has_key(k) || k == node.id@),
            forall|a: Seq<char>, b: Seq<char>| #[trigger]
                final(self).has_edge(a, b) == old(self).has_edge(a, b),
    {
        self.data.insert_node(node);
    }

    /// Adds the edge from `source` to `target`, adding either node if absent.
    pub fn add_edge(&mut self, source: Node, target: Node)
        requires
            old(self).well_formed(),
        ensures
            final(self).well_formed(),
            forall|k: Seq<char>| #[trigger]
                final(self).has_key(k) <==> (old(self).has_key(k) || k == source.id@ || k
                    == target.id@),
            forall|a: Seq<char>, b: Seq<char>| #[trigger]
                final(self).has_edge(a, b) <==> (old(self).has_edge(a, b) || (a == source.id@ && b
                    == target.id@)),
    {
        let ghost s = source.id@;
        let ghost t = target.id@;
        let ghost g0 = self.data;
        let i = self.data.insert_node(source);
        let j = self.data.insert_node(target);
        let ghost g2 = self.data;
        self.data.set_label(i, j, ());
        proof {
            assert(self.data.keys() == g2.keys());
            assert(g2.keys()[i as int] == s);
            assert forall|k: Seq<char>| #[trigger]
                self.has_key(k) <==> (g0.has_key(k) || k == s || k == t) by {
                assert(self.data.has_key(k) == g2.has_key(k));
            }
            assert forall|a: Seq<char>, b: Seq<char>| #[trigger]
                self.has_edge(a, b) <==> (g0.has_edge(a, b) || (a == s && b == t)) by {
                assert(g2.label(a, b) == g0.label(a, b));
            }
        }
    }

    /// The graph holding exactly the edges of the list.
    pub fn from_edge_list(edge_list: Vec<(Node, Node)>) -> (r: Self)
        ensures
            r.well_formed(),
            forall|k: Seq<char>| #[trigger] r.has_key(k) <==> mentions(edge_list@, k),
            forall|a: Seq<char>, b: Seq<char>| #[trigger]
                r.has_edge(a, b) <==> joins(edge_list@, a, b),
    {
        let mut g = DiGraph::new();
        let mut k: usize = 0;
        while k < edge_list.len()
            invariant
                0 <= k <= edge_list.len(),
                g.well_formed(),
                forall|x: Seq<char>| #[trigger]
                    g.has_key(x) <==> mentions(edge_list@.subrange(0, k as int), x),
                forall|a: Seq<char>, b: Seq<char>| #[trigger]
                    g.has_edge(a, b) <==> joins(edge_list@.subrange(0, k as int), a, b),
            decreases edge_list.len() - k,
        {
            let ghost prefix = edge_list@.subrange(0, k as int);
            let ghost next = edge_list@.subrange(0, k + 1);
            assert(next.drop_last() =~= prefix);
            g.add_edge(edge_list[k].0.duplicate(), edge_list[k].1.duplicate());
            k = k + 1;
        }
        assert(edge_list@.subrange(0, edge_list.len() as int) =~= edge_list@);
        g
    }

    /// The graph holding one node for each distinct key of the list (the
    /// first node with that key) and no edges.
    pub fn from_node_list(node_list: Vec<Node>) -> (r: Self)
        ensures
            r.well_formed(),
            forall|k: Seq<char>| #[trigger] r.has_key(k) <==> keys_of(node_list@).contains(k),
            first_copies(r.data.nodes@, node_list@, node_list.len() as int),
            forall|a: Seq<char>, b: Seq<char>| !r.has_edge(a, b),
    {
        let data = Adjacency::from_nodes(node_list);
        let r = Self { data };
        proof {
            assert forall|a: Seq<char>, b: Seq<char>| !r.data.has_edge(a, b) by {
                assert(r.data.label(a, b) is None);
            }
        }
        r
    }
}


/// Whether key `k` is an endpoint of one of the weighted edges.
pub open spec fn mentions_weighted(edges: Seq<(Node, Node, u64)>, k: Seq<char>) -> bool
    decreases edges.len(),
{
    if edges.len() == 0 {
        false
    } else {
        edges.last().0.id@ == k || edges.last().1.id@ == k || mentions_weighted(
            edges.drop_last(),
            k,
        )
    }
}

/// The weight of the last of the weighted edges that goes from key `a` to
/// key `b`, if there is one.
pub open spec fn last_weight(edges: Seq<(Node, Node, u64)>, a: Seq<char>, b: Seq<char>) -> Option<
    u64,
>
    decreases edges.len(),
{
    if edges.len() == 0 {
        None
    } else if edges.last().0.id@ == a && edges.last().1.id@ == b {
        Some(edges.last().2)
    } else {
        last_weight(edges.drop_last(), a, b)
    }
}

/// `after` is `before` with the edge from key `s` to key `t` set to weight
/// `w`: both keys present, every other edge as it was.
pub open spec fn edge_set(
    before: WeightedGraph,
    after: WeightedGraph,
    s: Seq<char>,
    t: Seq<char>,
    w: u64,
) -> bool {
    &&& after.well_formed()
    &&& forall|k: Seq<char>| #[trigger] after.has_key(k) <==> (before.has_key(k) || k == s || k == t)
    &&& forall|a: Seq<char>, b: Seq<char>| #[trigger]
        after.weight(a, b) == if a == s && b == t {
            Some(w)
        } else {
            before.weight(a, b)
        }
}

/// A directed graph whose edges carry non-negative integer weights; there is
/// at most one edge from one node to another.
pub struct WeightedGraph {
    pub data: Adjacency<u64>,
}

impl Graph for WeightedGraph {
    open spec fn well_formed(&self) -> bool {
        self.data.well_formed()
    }

    open spec fn node_keys(&self) -> Seq<Seq<char>> {
        self.data.keys()
    }

    open spec fn has_key(&self, k: Seq<char>) -> bool {
        self.data.has_key(k)
    }

    open spec fn has_edge(&self, a: Seq<char>, b: Seq<char>) -> bool {
        self.data.has_edge(a, b)
    }

    proof fn lemma_shape(&self) {
    }

    fn has_node(&self, node: &Node) -> (r: bool) {
        self.data.find(&node.id).is_some()
    }

    fn neighbors(&self, node: &Node) -> (r: Option<Vec<Node>>) {
        self.data.neighbor_nodes(&node.id)
    }
}

impl WeightedGraph {
    /// The weight of the edge from key `a` to key `b`, if there is one.
    pub open spec fn weight(&self, a: Seq<char>, b: Seq<char>) -> Option<u64> {
        self.data.label(a, b)
    }

    pub fn new() -> (r: Self)
        ensures
            r.well_formed(),
            r.data.nodes@.len() == 0,
            forall|k: Seq<char>| !r.has_key(k),
            forall|a: Seq<char>, b: Seq<char>| r.weight(a, b) is None,
    {
        WeightedGraph { data: Adjacency::new() }
    }

    /// Adds `node` unless a node with its key is present; an existing node
    /// keeps its attributes.
    pub fn add_node(&mut self, node: Node)
        requires
            old(self).well_formed(),
        ensures
            final(self).well_formed(),
            old(self).has_key(node.id@) ==> *final(self) == *old(self),
            !old(self).has_key(node.id@) ==> final(self).data.nodes@ == old(self).data.nodes@.push(node),
            forall|k: Seq<char>| #[trigger]
                final(self).has_key(k) <==> (old(self).has_key(k) || k == node.id@),
            forall|a: Seq<char>, b: Seq<char>| #[trigger]
                final(self).weight(a, b) == old(self).weight(a, b),
    {
        self.data.insert_node(node);
    }

    /// Sets the weight of the edge from `source` to `target`, adding the
    /// edge, or either node, if absent; an existing edge gets the new weight.
    pub fn add_edge(&mut self, source: Node, target: Node, weight: u64)
        requires
            old(self).well_formed(),
        ensures
            edge_set(*old(self), *final(self), source.id@, target.id@, weight),
    {
        let ghost s = source.id@;
        let ghost t = target.id@;
        let ghost g0 = self.data;
        let i = self.data.insert_node(source);
        let j = self.data.insert_node(target);
        let ghost g2 = self.data;
        self.data.set_label(i, j, weight);
        proof {
            assert(self.data.keys() == g2.keys());
            assert(g2.keys()[i as int] == s);
            assert forall|k: Seq<char>| #[trigger]
                self.has_key(k) <==> (g0.has_key(k) || k == s || k == t) by {
                assert(self.data.has_key(k) == g2.has_key(k));
            }
            assert forall|a: Seq<char>, b: Seq<char>| #[trigger]
                self.weight(a, b) == if a == s && b == t {
                    Some(weight)
                } else {
                    g0.label(a, b)
                } by {
                assert(g2.label(a, b) == g0.label(a, b));
            }
        }
    }

    /// The graph holding the edges of the list; where the list repeats an
    /// edge, the last weight given stands.
    pub fn from_edge_list(edge_list: Vec<(Node, Node, u64)>) -> (r: Self)
        ensures
            r.well_formed(),
            forall|k: Seq<char>| #[trigger] r.has_key(k) <==> mentions_weighted(edge_list@, k),
            forall|a: Seq<char>, b: Seq<char>| #[trigger]
                r.weight(a, b) == last_weight(edge_list@, a, b),
    {
        let mut g = WeightedGraph::new();
        let mut k: usize = 0;
        while k < edge_list.len()
            invariant
                0 <= k <= edge_list.len(),
                g.well_formed(),
                forall|x: Seq<char>| #[trigger]
                    g.has_key(x) <==> mentions_weighted(edge_list@.subrange(0, k as int), x),
                forall|a: Seq<char>, b: Seq<char>| #[trigger]
                    g.weight(a, b) == last_weight(edge_list@.subrange(0, k as int), a, b),
            decreases edge_list.len() - k,
        {
            let ghost prefix = edge_list@.subrange(0, k as int);
            let ghost next = edge_list@.subrange(0, k + 1);
            assert(next.drop_last() =~= prefix);
            let (source, target, weight) = &edge_list[k];
            g.add_edge(source.duplicate(), target.duplicate(), *weight);
            k = k + 1;
        }
        assert(edge_list@.subrange(0, edge_list.len() as int) =~= edge_list@);
        g
    }

    /// The graph holding one node for each distinct key of the list (the
    /// first node with that key) and no edges.
    pub fn from_node_list(node_list: Vec<Node>) -> (r: Self)
        ensures
            r.well_formed(),
            forall|k: Seq<char>| #[trigger] r.has_key(k) <==> keys_of(node_list@).contains(k),
            first_copies(r.data.nodes@, node_list@, node_list.len() as int),
            forall|a: Seq<char>, b: Seq<char>| r.weight(a, b) is None,
    {
        let data = Adjacency::from_nodes(node_list);
        let r = Self { data };
        proof {
            assert forall|a: Seq<char>, b: Seq<char>| !r.data.has_edge(a, b) by {
                assert(r.data.label(a, b) is None);
            }
        }
        r
    }

    /// The weight of the edge from `source` to `target`, if there is one.
    pub fn get_edge_weight(&self, source: &Node, target: &Node) -> (r: Option<u64>)
        requires
            self.well_formed(),
        ensures
            r == self.weight(source.id@, target.id@),
    {
        self.data.get_label(&source.id, &target.id)
    }

    /// The edges leaving `node`, as (target, weight) pairs with one entry per
    /// target; `None` when `node` is not in the graph.
    pub fn neighbor_weights(&self, node: &Node) -> (r: Option<Vec<(Node, u64)>>)
        requires
            self.well_formed(),
        ensures
            r is Some <==> self.has_key(node.id@),
            r matches Some(v) ==> {
                &&& forall|c: int|
                    0 <= c < v.len() ==> self.has_key(#[trigger] v[c].0.id@) && self.weight(
                        node.id@,
                        v[c].0.id@,
                    ) == Some(v[c].1)
                &&& forall|b: Seq<char>|
                    self.weight(node.id@, b) is Some ==> exists|c: int|
                        0 <= c < v.len() && #[trigger] v[c].0.id@ == b
                &&& forall|c: int, d: int|
                    0 <= c < v.len() && 0 <= d < v.len() && c != d ==> #[trigger] v[c].0.id@
                        != #[trigger] v[d].0.id@
            },
    {
        let r = self.data.out_edges(&node.id);
        proof {
            if r is Some {
                let v = r->Some_0;
                assert forall|b: Seq<char>| self.weight(node.id@, b) is Some implies exists|c: int|
                    0 <= c < v.len() && #[trigger] v[c].0.id@ == b by {
                    assert(self.data.has_edge(node.id@, b));
                }
            }
        }
        r
    }
}


/// Setting the same edge twice leaves a single entry for it in the source's
/// edge list, carrying the later weight; every other edge is as before the
/// first call.
pub proof fn lemma_add_edge_twice(
    g0: WeightedGraph,
    g1: WeightedGraph,
    g2: WeightedGraph,
    s: Seq<char>,
    t: Seq<char>,
    w1: u64,
    w2: u64,
)
    requires
        g0.well_formed(),
        edge_set(g0, g1, s, t, w1),
        edge_set(g1, g2, s, t, w2),
    ensures
        g2.weight(s, t) == Some(w2),
        forall|a: Seq<char>, b: Seq<char>| !(a == s && b == t) ==> #[trigger] g2.weight(a, b) == g0.weight(a, b),
        ({
            let i = g2.data.index_of(s);
            let j = g2.data.index_of(t);
            exists|c: int|
                0 <= c < g2.data.lists[i].len() && g2.data.lists[i][c] == (j as usize, w2) && forall|d: int|
                    0 <= d < g2.data.lists[i].len() && #[trigger] g2.data.lists[i][d].0 == j as usize ==> d == c
        }),
{
    assert(g2.has_key(s) && g2.has_key(t));
    let i = g2.data.index_of(s);
    let j = g2.data.index_of(t);
    g2.data.lemma_has_key(s);
    g2.data.lemma_has_key(t);
    assert(g2.weight(s, t) == Some(w2));
    let ts = crate::adjacency::targets(g2.data.lists[i]@);
    let c = ts.index_of(j as usize);
    assert(ts.contains(j as usize));
    assert(ts[c] == j as usize);
    assert forall|d: int|
        0 <= d < g2.data.lists[i].len() && #[trigger] g2.data.lists[i][d].0 == j as usize implies d == c by {
        assert(ts[d] == j as usize);
    }
    assert(g2.data.lists[i][c] == (j as usize, w2));
}

/// Building a graph from a list of nodes keeps one node per key, whatever
/// the number of list entries with that key.
pub proof fn lemma_one_node_per_key<L: Copy>(adj: Adjacency<L>, nodes: Seq<Node>, k: Seq<char>)
    requires
        adj.well_formed(),
        forall|x: Seq<char>| #[trigger] adj.has_key(x) <==> keys_of(nodes).contains(x),
        keys_of(nodes).contains(k),
    ensures
        exists|i: int|
            0 <= i < adj.nodes.len() && adj.nodes[i].id@ == k && forall|j: int|
                0 <= j < adj.nodes.len() && #[trigger] adj.nodes[j].id@ == k ==> j == i,
{
    assert(adj.has_key(k));
    let i = adj.index_of(k);
    adj.lemma_has_key(k);
    assert(adj.keys()[i] == adj.nodes[i].id@);
    assert forall|j: int| 0 <= j < adj.nodes.len() && #[trigger] adj.nodes[j].id@ == k implies j == i by {
        assert(adj.keys()[j] == k);
    }
}

/// The last weight listed for an edge stands: looking up the endpoints of any
/// listed edge gives the weight of the last entry with those endpoints.
pub proof fn lemma_edge_list_round_trip(g: WeightedGraph, edges: Seq<(Node, Node, u64)>, c: int)
    requires
        forall|a: Seq<char>, b: Seq<char>| #[trigger] g.weight(a, b) == last_weight(edges, a, b),
        0 <= c < edges.len(),
    ensures
        exists|d: int|
            c <= d < edges.len() && edges[d].0.id@ == edges[c].0.id@ && edges[d].1.id@ == edges[c].1.id@
                && g.weight(edges[c].0.id@, edges[c].1.id@) == Some(edges[d].2) && forall|e: int|
                d < e < edges.len() ==> !(#[trigger] edges[e].0.id@ == edges[c].0.id@ && edges[e].1.id@
                == edges[c].1.id@),
        (forall|e: int|
            c < e < edges.len() ==> !(#[trigger] edges[e].0.id@ == edges[c].0.id@ && edges[e].1.id@
                == edges[c].1.id@)) ==> g.weight(edges[c].0.id@, edges[c].1.id@) == Some(edges[c].2),
{
    let d = lemma_last_weight(edges, edges[c].0.id@, edges[c].1.id@, c);
    assert(g.weight(edges[c].0.id@, edges[c].1.id@) == last_weight(edges, edges[c].0.id@, edges[c].1.id@));
}

proof fn lemma_last_weight(edges: Seq<(Node, Node, u64)>, a: Seq<char>, b: Seq<char>, c: int) -> (d: int)
    requires
        0 <= c < edges.len(),
        edges[c].0.id@ == a,
        edges[c].1.id@ == b,
    ensures
        c <= d < edges.len(),
        edges[d].0.id@ == a && edges[d].1.id@ == b,
        last_weight(edges, a, b) == Some(edges[d].2),
        forall|e: int| d < e < edges.len() ==> !(#[trigger] edges[e].0.id@ == a && edges[e].1.id@ == b),
    decreases edges.len(),
{
    let n = edges.len() - 1;
    if edges[n].0.id@ == a && edges[n].1.id@ == b {
        n
    } else {
        let d = lemma_last_weight(edges.drop_last(), a, b, c);
        assert forall|e: int| d < e < edges.len() implies !(#[trigger] edges[e].0.id@ == a && edges[e].1.id@ == b) by {
            if e < n {
                assert(edges[e] == edges.drop_last()[e]);
            }
        }
        d
    }
}

} // verus!
