use crate::algorithms::{below_all_routes, bfs_by, dijkstra, is_route, is_walk, reaches, rejected, route_cost};
use crate::adjacency::{first_copies, keys_of};
use crate::graph::{joins, last_weight, mentions, mentions_weighted, DiGraph, Graph, SimpleGraph, WeightedGraph};
use crate::node::Node;
use vstd::prelude::*;

verus! {

/// A graph of any of the three variants.
pub enum AnyGraph {
    Simple(SimpleGraph),
    Directed(DiGraph),
    Weighted(WeightedGraph),
}

impl Graph for AnyGraph {
    open spec fn well_formed(&self) -> bool {
        match self {
            AnyGraph::Simple(g) => g.well_formed(),
            AnyGraph::Directed(g) => g.well_formed(),
            AnyGraph::Weighted(g) => g.well_formed(),
        }
    }

    open spec fn node_keys(&self) -> Seq<Seq<char>> {
        match self {
            AnyGraph::Simple(g) => g.node_keys(),
            AnyGraph::Directed(g) => g.node_keys(),
            AnyGraph::Weighted(g) => g.node_keys(),
        }
    }

    open spec fn has_key(&self, k: Seq<char>) -> bool {
        match self {
            AnyGraph::Simple(g) => g.has_key(k),
            AnyGraph::Directed(g) => g.has_key(k),
            AnyGraph::Weighted(g) => g.has_key(k),
        }
    }

    open spec fn has_edge(&self, a: Seq<char>, b: Seq<char>) -> bool {
        match self {
            AnyGraph::Simple(g) => g.has_edge(a, b),
            AnyGraph::Directed(g) => g.has_edge(a, b),
            AnyGraph::Weighted(g) => g.has_edge(a, b),
        }
    }

    proof fn lemma_shape(&self) {
        match self {
            AnyGraph::Simple(g) => g.lemma_shape(),
            AnyGraph::Directed(g) => g.lemma_shape(),
            AnyGraph::Weighted(g) => g.lemma_shape(),
        }
    }

    fn has_node(&self, node: &Node) -> (r: bool) {
        match self {
            AnyGraph::Simple(g) => g.has_node(node),
            AnyGraph::Directed(g) => g.has_node(node),
            AnyGraph::Weighted(g) => g.has_node(node),
        }
    }

    fn neighbors(&self, node: &Node) -> (r: Option<Vec<Node>>) {
        match self {
            AnyGraph::Simple(g) => g.neighbors(node),
            AnyGraph::Directed(g) => g.neighbors(node),
            AnyGraph::Weighted(g) => g.neighbors(node),
        }
    }
}

/// Why a query on the registry could not run.
#[derive(Debug, PartialEq, Eq, Structural)]
pub enum QueryError {
    /// No graph is stored under the identifier.
    UnknownSession,
    /// The graph stored under the identifier has no edge weights.
    NotWeighted,
}

/// The map that a list of (identifier, graph) entries stands for: a later
/// entry for an identifier hides an earlier one.
pub open spec fn entries_map(s: Seq<(String, AnyGraph)>) -> Map<Seq<char>, AnyGraph>
    decreases s.len(),
{
    if s.len() == 0 {
        Map::empty()
    } else {
        entries_map(s.drop_last()).insert(s.last().0@, s.last().1)
    }
}

/// Relies on nanoid::format, called as the `nanoid!(10)` macro does, with
/// nanoid's default random source and URL-safe alphabet: whatever the random
/// bytes, it returns exactly 10 characters.
#[verifier::external_body]
fn assign_id() -> (r: String)
    ensures
        r@.len() == 10,
{
    nanoid::format(nanoid::rngs::default, &nanoid::alphabet::SAFE, 10)
}

/// The registry of graphs, keyed by session identifier.
pub struct Manager {
    pub sessions: Vec<(String, AnyGraph)>,
}

impl Manager {
    pub open spec fn view(&self) -> Map<Seq<char>, AnyGraph> {
        entries_map(self.sessions@)
    }

    /// Every stored graph is well formed.
    pub open spec fn well_formed(&self) -> bool {
        forall|i: int| 0 <= i < self.sessions.len() ==> (#[trigger] self.sessions[i]).1.well_formed()
    }

    pub fn new() -> (r: Manager)
        ensures
            r.well_formed(),
            r@ == Map::<Seq<char>, AnyGraph>::empty(),
    {
        Manager { sessions: Vec::new() }
    }

    /// Runs the goal search of `bfs_by` from `root` on the graph stored under
    /// `id`; `Err(UnknownSession)` when there is none.
    pub fn search<F: Fn(&Node) -> bool>(&self, id: &String, root: Node, goal_fn: F) -> (r: Result<
        Option<Node>,
        QueryError,
    >)
        requires
            self.well_formed(),
            forall|n: Node| #[trigger] goal_fn.requires((&n,)),
        ensures
            r == Err::<Option<Node>, QueryError>(QueryError::UnknownSession) <==> !self@.contains_key(id@),
            r matches Ok(Some(n)) ==> goal_fn.ensures((&n,), true) && reaches(self@[id@], root.id@, n.id@),
            r matches Ok(None) ==> forall|p: Seq<Seq<char>>|
                is_walk(self@[id@], p) && p[0] == root.id@ ==> rejected(goal_fn, #[trigger] p[p.len() - 1]),
    {
        match self.get(id) {
            None => Err(QueryError::UnknownSession),
            Some(g) => Ok(bfs_by(g, root, goal_fn)),
        }
    }

    /// Runs `dijkstra` from `root` to `target` on the graph stored under
    /// `id`; `Err(UnknownSession)` when there is none, `Err(NotWeighted)`
    /// when that graph has no edge weights.
    pub fn shortest_path(&self, id: &String, root: &Node, target: &Node) -> (r: Result<
        Option<(Vec<Node>, u64)>,
        QueryError,
    >)
        requires
            self.well_formed(),
        ensures
            r == Err::<Option<(Vec<Node>, u64)>, QueryError>(QueryError::UnknownSession) <==> !self@.contains_key(id@),
            r == Err::<Option<(Vec<Node>, u64)>, QueryError>(QueryError::NotWeighted) <==> (self@.contains_key(id@)
                && !(self@[id@] is Weighted)),
            r matches Ok(Some((path, cost))) ==> self@[id@] matches AnyGraph::Weighted(g) && {
                &&& is_route(g, keys_of(path@))
                &&& path[0].id@ == root.id@
                &&& path[path.len() - 1].id@ == target.id@
                &&& cost == route_cost(g, keys_of(path@))
                &&& below_all_routes(g, root.id@, target.id@, cost as int)
                &&& keys_of(path@).no_duplicates()
            },
            r matches Ok(None) ==> self@[id@] matches AnyGraph::Weighted(g) && below_all_routes(
                g,
                root.id@,
                target.id@,
                u64::MAX + 1,
            ),
    {
        match self.get(id) {
            None => Err(QueryError::UnknownSession),
            Some(AnyGraph::Weighted(g)) => Ok(dijkstra(g, root, target)),
            Some(_) => Err(QueryError::NotWeighted),
        }
    }

    /// Stores `g` under a fresh random identifier of 10 characters and
    /// returns the identifier.
    pub fn new_session(&mut self, g: AnyGraph) -> (id: String)
        requires
            old(self).well_formed(),
            g.well_formed(),
        ensures
            final(self).well_formed(),
            id@.len() == 10,
            final(self)@ == old(self)@.insert(id@, g),
    {
        let id = assign_id();
        self.sessions.push((id.clone(), g));
        proof {
            assert(self.sessions@.drop_last() =~= old(self).sessions@);
            assert forall|i: int| 0 <= i < self.sessions.len() implies (#[trigger] self.sessions[i]).1.well_formed() by {
                if i < old(self).sessions.len() {
                    assert(self.sessions[i] == old(self).sessions[i]);
                }
            }
        }
        id
    }

    /// The graph stored under `id`, if any.
    pub fn get(&self, id: &String) -> (r: Option<&AnyGraph>)
        requires
            self.well_formed(),
        ensures
            r is Some <==> self@.contains_key(id@),
            r matches Some(g) ==> *g == self@[id@] && g.well_formed(),
    {
        let ghost s = self.sessions@;
        let mut i: usize = self.sessions.len();
        assert(s.subrange(0, i as int) =~= s);
        while i > 0
            invariant
                s == self.sessions@,
                self.well_formed(),
                0 <= i <= s.len(),
                entries_map(s.subrange(0, i as int)).contains_key(id@) == entries_map(s).contains_key(
                    id@,
                ),
                entries_map(s).contains_key(id@) ==> entries_map(s.subrange(0, i as int))[id@]
                    == entries_map(s)[id@],
            decreases i,
        {
            assert(s.subrange(0, i as int).drop_last() =~= s.subrange(0, i - 1));
            if self.sessions[i - 1].0 == *id {
                return Some(&self.sessions[i - 1].1);
            }
            i = i - 1;
        }
        None
    }

    /// Registers the undirected graph built from `nodes`.
    pub fn create_simple_from_nodes(&mut self, nodes: Vec<Node>) -> (id: String)
        requires
            old(self).well_formed(),
        ensures
            final(self).well_formed(),
            final(self)@.remove(id@) == old(self)@.remove(id@),
            final(self)@.contains_key(id@),
            final(self)@[id@] matches AnyGraph::Simple(g) && g.well_formed() && (forall|k: Seq<char>|
                #[trigger] g.has_key(k) <==> keys_of(nodes@).contains(k)) && first_copies(g.data.nodes@, nodes@, nodes.len() as int) && (forall|a: Seq<char>, b: Seq<char>|
                !g.has_edge(a, b)),
    {
        let g = SimpleGraph::from_node_list(nodes);
        self.new_session(AnyGraph::Simple(g))
    }

    /// Registers the undirected graph built from `edges`.
    pub fn create_simple_from_edges(&mut self, edges: Vec<(Node, Node)>) -> (id: String)
        requires
            old(self).well_formed(),
        ensures
            final(self).well_formed(),
            final(self)@.remove(id@) == old(self)@.remove(id@),
            final(self)@.contains_key(id@),
            final(self)@[id@] matches AnyGraph::Simple(g) && g.well_formed() && (forall|k: Seq<char>|
                #[trigger] g.has_key(k) <==> mentions(edges@, k)) && (forall|a: Seq<char>, b: Seq<char>|
                #[trigger] g.has_edge(a, b) <==> (joins(edges@, a, b) || joins(edges@, b, a))),
    {
        let g = SimpleGraph::from_edge_list(edges);
        self.new_session(AnyGraph::Simple(g))
    }

    /// Registers the directed graph built from `nodes`.
    pub fn create_di_from_nodes(&mut self, nodes: Vec<Node>) -> (id: String)
        requires
            old(self).well_formed(),
        ensures
            final(self).well_formed(),
            final(self)@.remove(id@) == old(self)@.remove(id@),
            final(self)@.contains_key(id@),
            final(self)@[id@] matches AnyGraph::Directed(g) && g.well_formed() && (forall|k: Seq<char>|
                #[trigger] g.has_key(k) <==> keys_of(nodes@).contains(k)) && first_copies(g.data.nodes@, nodes@, nodes.len() as int) && (forall|a: Seq<char>, b: Seq<char>|
                !g.has_edge(a, b)),
    {
        let g = DiGraph::from_node_list(nodes);
        self.new_session(AnyGraph::Directed(g))
    }

    /// Registers the directed graph built from `edges`.
    pub fn create_di_from_edges(&mut self, edges: Vec<(Node, Node)>) -> (id: String)
        requires
            old(self).well_formed(),
        ensures
            final(self).well_formed(),
            final(self)@.remove(id@) == old(self)@.remove(id@),
            final(self)@.contains_key(id@),
            final(self)@[id@] matches AnyGraph::Directed(g) && g.well_formed() && (forall|k: Seq<char>|
                #[trigger] g.has_key(k) <==> mentions(edges@, k)) && (forall|a: Seq<char>, b: Seq<char>|
                #[trigger] g.has_edge(a, b) <==> joins(edges@, a, b)),
    {
        let g = DiGraph::from_edge_list(edges);
        self.new_session(AnyGraph::Directed(g))
    }

    /// Registers the weighted graph built from `nodes`.
    pub fn create_weighted_from_nodes(&mut self, nodes: Vec<Node>) -> (id: String)
        requires
            old(self).well_formed(),
        ensures
            final(self).well_formed(),
            final(self)@.remove(id@) == old(self)@.remove(id@),
            final(self)@.contains_key(id@),
            final(self)@[id@] matches AnyGraph::Weighted(g) && g.well_formed() && (forall|k: Seq<char>|
                #[trigger] g.has_key(k) <==> keys_of(nodes@).contains(k)) && first_copies(g.data.nodes@, nodes@, nodes.len() as int) && (forall|a: Seq<char>, b: Seq<char>|
                g.weight(a, b) is None),
    {
        let g = WeightedGraph::from_node_list(nodes);
        self.new_session(AnyGraph::Weighted(g))
    }

    /// Registers the weighted graph built from `edges`.
    pub fn create_weighted_from_edges(&mut self, edges: Vec<(Node, Node, u64)>) -> (id: String)
        requires
            old(self).well_formed(),
        ensures
            final(self).well_formed(),
            final(self)@.remove(id@) == old(self)@.remove(id@),
            final(self)@.contains_key(id@),
            final(self)@[id@] matches AnyGraph::Weighted(g) && g.well_formed() && (forall|k: Seq<char>|
                #[trigger] g.has_key(k) <==> mentions_weighted(edges@, k)) && (forall|a: Seq<char>, b: Seq<char>|
                #[trigger] g.weight(a, b) == last_weight(edges@, a, b)),
    {
        let g = WeightedGraph::from_edge_list(edges);
        self.new_session(AnyGraph::Weighted(g))
    }
}

} // verus!
