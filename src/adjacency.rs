use crate::node::{copies, key_less, key_lt, lemma_key_less_strict, lemma_key_less_transitive, Node};
use vstd::prelude::*;

verus! {

/// The handles that an edge list points at, in list order.
pub open spec fn targets<L>(list: Seq<(usize, L)>) -> Seq<usize> {
    list.map_values(|e: (usize, L)| e.0)
}

/// The keys of a list of nodes.
pub open spec fn keys_of(nodes: Seq<Node>) -> Seq<Seq<char>> {
    nodes.map_values(|n: Node| n.id@)
}

/// `node` copies `list[c]`, the first node of `list` with its key.
pub open spec fn first_copy_at(node: Node, list: Seq<Node>, c: int) -> bool {
    &&& copies(node, list[c])
    &&& forall|d: int| 0 <= d < c ==> list[d].id@ != list[c].id@
}

/// `node` copies the first node of `list[0..n]` with its key.
pub open spec fn has_first_copy(node: Node, list: Seq<Node>, n: int) -> bool {
    exists|c: int| 0 <= c < n && #[trigger] first_copy_at(node, list, c)
}

/// Each node of `arena` copies the first node of `list[0..n]` with its key.
pub open spec fn first_copies(arena: Seq<Node>, list: Seq<Node>, n: int) -> bool {
    forall|i: int| 0 <= i < arena.len() ==> #[trigger] has_first_copy(arena[i], list, n)
}

/// Copies the nodes of a list out of a list of (node, label) pairs.
fn nodes_only<L>(pairs: &Vec<(Node, L)>) -> (r: Vec<Node>)
    ensures
        r.len() == pairs.len(),
        forall|c: int| 0 <= c < r.len() ==> #[trigger] r[c].id@ == pairs[c].0.id@,
{
    let mut out: Vec<Node> = Vec::new();
    let mut k: usize = 0;
    while k < pairs.len()
        invariant
            0 <= k <= pairs.len(),
            out.len() == k,
            forall|c: int| 0 <= c < k ==> #[trigger] out[c].id@ == pairs[c].0.id@,
        decreases pairs.len() - k,
    {
        out.push(pairs[k].0.duplicate());
        k = k + 1;
    }
    out
}

/// Storage shared by every graph variant: an arena of nodes with distinct
/// keys, addressed by handle (position), and for each node the list of its
/// outgoing edges as (target handle, label) pairs, one per target.
pub struct Adjacency<L> {
    pub nodes: Vec<Node>,
    pub lists: Vec<Vec<(usize, L)>>,
}

impl<L: Copy> Adjacency<L> {
    /// The keys of the arena, by handle.
    pub open spec fn keys(&self) -> Seq<Seq<char>> {
        self.nodes@.map_values(|n: Node| n.id@)
    }

    pub open spec fn well_formed(&self) -> bool {
        &&& self.lists.len() == self.nodes.len()
        &&& self.keys().no_duplicates()
        &&& forall|i: int|
            0 <= i < self.lists.len() ==> (#[trigger] targets(self.lists[i]@)).no_duplicates()
        &&& forall|i: int, k: int|
            0 <= i < self.lists.len() && 0 <= k < self.lists[i].len() ==> (
            #[trigger] self.lists[i][k]).0 < self.nodes.len()
        &&& forall|i: int| 0 <= i < self.lists.len() ==> #[trigger] self.sorted_list(i)
    }

    /// The edge list of handle `i` runs in increasing key order of its
    /// targets.
    pub open spec fn sorted_list(&self, i: int) -> bool {
        forall|c: int, d: int|
            0 <= c < d < self.lists[i].len() ==> key_less(
                self.keys()[(#[trigger] self.lists[i][c]).0 as int],
                self.keys()[(#[trigger] self.lists[i][d]).0 as int],
            )
    }

    pub open spec fn has_key(&self, k: Seq<char>) -> bool {
        self.keys().contains(k)
    }

    /// The handle of key `k`.
    pub open spec fn index_of(&self, k: Seq<char>) -> int {
        self.keys().index_of(k)
    }

    /// The label of the edge from handle `i` to handle `j`, if there is one.
    pub open spec fn label_at(&self, i: int, j: int) -> Option<L> {
        let ts = targets(self.lists[i]@);
        if ts.contains(j as usize) {
            Some(self.lists[i][ts.index_of(j as usize)].1)
        } else {
            None
        }
    }

    /// The label of the edge from key `a` to key `b`, if there is one.
    pub open spec fn label(&self, a: Seq<char>, b: Seq<char>) -> Option<L> {
        if self.has_key(a) && self.has_key(b) {
            self.label_at(self.index_of(a), self.index_of(b))
        } else {
            None
        }
    }

    pub open spec fn has_edge(&self, a: Seq<char>, b: Seq<char>) -> bool {
        self.label(a, b) is Some
    }

    pub proof fn lemma_index_of(&self, i: int)
        requires
            self.well_formed(),
            0 <= i < self.nodes.len(),
        ensures
            self.has_key(self.keys()[i]),
            self.index_of(self.keys()[i]) == i,
    {
        let k = self.keys()[i];
        assert(self.keys().contains(k));
        let c = self.index_of(k);
        assert(self.keys()[c] == k);
    }

    pub proof fn lemma_has_key(&self, k: Seq<char>)
        requires
            self.well_formed(),
            self.has_key(k),
        ensures
            0 <= self.index_of(k) < self.nodes.len(),
            self.keys()[self.index_of(k)] == k,
    {
    }

    /// The `k`-th entry of the edge list of `i` gives the label of its edge.
    pub proof fn lemma_label_at(&self, i: int, k: int)
        requires
            self.well_formed(),
            0 <= i < self.nodes.len(),
            0 <= k < self.lists[i].len(),
        ensures
            self.label_at(i, self.lists[i][k].0 as int) == Some(self.lists[i][k].1),
    {
        let ts = targets(self.lists[i]@);
        let j = self.lists[i][k].0;
        assert(ts[k] == j);
        assert(ts.contains(j));
        let c = ts.index_of(j);
        assert(ts[c] == j);
    }

    pub fn new() -> (r: Self)
        ensures
            r.well_formed(),
            r.nodes@.len() == 0,
            forall|k: Seq<char>| !r.has_key(k),
    {
        Adjacency { nodes: Vec::new(), lists: Vec::new() }
    }

    /// The handle of the node with key `key`, if there is one.
    pub fn find(&self, key: &String) -> (r: Option<usize>)
        requires
            self.well_formed(),
        ensures
            match r {
                Some(i) => i < self.nodes.len() && self.keys()[i as int] == key@ && self.index_of(
                    key@,
                ) == i,
                None => !self.has_key(key@),
            },
    {
        let mut i: usize = 0;
        while i < self.nodes.len()
            invariant
                self.well_formed(),
                0 <= i <= self.nodes.len(),
                forall|j: int| 0 <= j < i ==> self.keys()[j] != key@,
            decreases self.nodes.len() - i,
        {
            if self.nodes[i].id == *key {
                proof {
                    self.lemma_index_of(i as int);
                }
                return Some(i);
            }
            i = i + 1;
        }
        None
    }

    /// Adds `node` unless its key is present already, and returns the handle
    /// of that key. An existing node keeps its attributes.
    pub fn insert_node(&mut self, node: Node) -> (i: usize)
        requires
            old(self).well_formed(),
        ensures
            final(self).well_formed(),
            i < final(self).nodes.len(),
            final(self).keys()[i as int] == node.id@,
            final(self).index_of(node.id@) == i,
            old(self).has_key(node.id@) ==> *final(self) == *old(self),
            !old(self).has_key(node.id@) ==> final(self).nodes@ == old(self).nodes@.push(node),
            old(self).nodes.len() <= final(self).nodes.len(),
            forall|h: int|
                0 <= h < old(self).nodes.len() ==> #[trigger] final(self).keys()[h] == old(
                    self,
                ).keys()[h],
            forall|k: Seq<char>| #[trigger]
                final(self).has_key(k) <==> (old(self).has_key(k) || k == node.id@),
            forall|a: Seq<char>, b: Seq<char>| #[trigger]
                final(self).label(a, b) == old(self).label(a, b),
    {
        match self.find(&node.id) {
            Some(i) => i,
            None => {
                let ghost prev = *self;
                let n = self.nodes.len();
                self.nodes.push(node);
                self.lists.push(Vec::new());
                proof {
                    assert(self.keys() =~= prev.keys().push(node.id@));
                    assert forall|i: int| 0 <= i < self.lists.len() implies (#[trigger] targets(
                        self.lists[i]@,
                    )).no_duplicates() by {
                        if i < n {
                            assert(self.lists[i] == prev.lists[i]);
                        } else {
                            assert(targets(self.lists[i]@) =~= Seq::<usize>::empty());
                        }
                    }
                    assert forall|h: int| 0 <= h < self.lists.len() implies #[trigger] self.sorted_list(h) by {
                        if h < n {
                            assert(self.lists[h] == prev.lists[h]);
                            assert(prev.sorted_list(h));
                            assert forall|c: int, d: int| 0 <= c < d < self.lists[h].len() implies key_less(
                                self.keys()[(#[trigger] self.lists[h][c]).0 as int],
                                self.keys()[(#[trigger] self.lists[h][d]).0 as int],
                            ) by {
                                assert(self.keys()[self.lists[h][c].0 as int] == prev.keys()[self.lists[h][c].0 as int]);
                                assert(self.keys()[self.lists[h][d].0 as int] == prev.keys()[self.lists[h][d].0 as int]);
                            }
                        }
                    }
                    self.lemma_index_of(n as int);
                    assert forall|k: Seq<char>| #[trigger]
                        self.has_key(k) <==> (prev.has_key(k) || k == node.id@) by {
                        if prev.has_key(k) {
                            let c = prev.index_of(k);
                            assert(self.keys()[c] == k);
                        }
                        if self.has_key(k) && k != node.id@ {
                            let c = self.index_of(k);
                            assert(prev.keys()[c] == k);
                        }
                    }
                    assert forall|a: Seq<char>, b: Seq<char>| #[trigger]
                        self.label(a, b) == prev.label(a, b) by {
                        if prev.has_key(a) && prev.has_key(b) {
                            let ia = prev.index_of(a);
                            let ib = prev.index_of(b);
                            prev.lemma_has_key(a);
                            prev.lemma_has_key(b);
                            self.lemma_index_of(ia);
                            self.lemma_index_of(ib);
                            assert(self.lists[ia] == prev.lists[ia]);
                        } else if self.has_key(a) && self.has_key(b) {
                            let ia = self.index_of(a);
                            let ib = self.index_of(b);
                            if ia == n {
                                assert(targets(self.lists[ia]@) =~= Seq::<usize>::empty());
                            } else {
                                assert(ib == n);
                                assert(self.lists[ia] == prev.lists[ia]);
                                assert(!targets(self.lists[ia]@).contains(n)) by {
                                    if targets(self.lists[ia]@).contains(n) {
                                        let c = choose|c: int|
                                            0 <= c < targets(self.lists[ia]@).len()
                                                && targets(self.lists[ia]@)[c] == n;
                                        assert(self.lists[ia][c].0 < n);
                                    }
                                }
                            }
                        }
                    }
                }
                n
            },
        }
    }

    /// Records the edge from handle `i` to handle `j` with label `l`,
    /// replacing the label of an edge that is there already.
    #[verifier::rlimit(100)]
    pub fn set_label(&mut self, i: usize, j: usize, l: L)
        requires
            old(self).well_formed(),
            i < old(self).nodes.len(),
            j < old(self).nodes.len(),
        ensures
            final(self).well_formed(),
            final(self).nodes == old(self).nodes,
            forall|a: Seq<char>, b: Seq<char>| #[trigger]
                final(self).label(a, b) == if a == old(self).keys()[i as int] && b == old(
                    self,
                ).keys()[j as int] {
                    Some(l)
                } else {
                    old(self).label(a, b)
                },
    {
        let ghost prev = *self;
        let mut k: usize = 0;
        let len = self.lists[i].len();
        while k < len && self.lists[i][k].0 != j
            invariant
                *self == prev,
                prev.well_formed(),
                i < prev.nodes.len(),
                len == prev.lists[i as int].len(),
                0 <= k <= len,
                forall|c: int| 0 <= c < k ==> prev.lists[i as int][c].0 != j,
            decreases len - k,
        {
            k = k + 1;
        }
        let ghost old_ts = targets(prev.lists[i as int]@);
        let ghost keys = prev.keys();
        let ghost ol = prev.lists[i as int]@;
        let ghost pos: int;
        if k < len {
            self.lists[i][k] = (j, l);
            proof {
                pos = k as int;
                assert(targets(self.lists[i as int]@) =~= old_ts);
                assert(self.lists[i as int][k as int].0 == j);
                assert(self.sorted_list(i as int)) by {
                    assert forall|c: int, d: int| 0 <= c < d < self.lists[i as int].len() implies key_less(
                        keys[(#[trigger] self.lists[i as int][c]).0 as int],
                        keys[(#[trigger] self.lists[i as int][d]).0 as int],
                    ) by {
                        assert(prev.sorted_list(i as int));
                        assert(ol[c].0 == self.lists[i as int][c].0);
                        assert(ol[d].0 == self.lists[i as int][d].0);
                    }
                }
            }
        } else {
            assert(!old_ts.contains(j));
            let mut p: usize = 0;
            while p < len && key_lt(&self.nodes[self.lists[i][p].0].id, &self.nodes[j].id)
                invariant
                    *self == prev,
                    prev.well_formed(),
                    keys == prev.keys(),
                    ol == prev.lists[i as int]@,
                    i < prev.nodes.len(),
                    j < prev.nodes.len(),
                    len == ol.len(),
                    0 <= p <= len,
                    forall|c: int| 0 <= c < p ==> key_less(#[trigger] keys[ol[c].0 as int], keys[j as int]),
                decreases len - p,
            {
                proof {
                    assert(keys[ol[p as int].0 as int] == self.nodes[ol[p as int].0 as int].id@);
                    assert(keys[j as int] == self.nodes[j as int].id@);
                }
                p = p + 1;
            }
            self.lists[i].insert(p, (j, l));
            proof {
                pos = p as int;
                let nl = self.lists[i as int]@;
                assert(nl =~= ol.insert(pos, (j, l)));
                assert(targets(nl) =~= old_ts.insert(pos, j));
                if p < len {
                    assert(keys[ol[pos].0 as int] == self.nodes[ol[pos].0 as int].id@);
                    assert(keys[j as int] == self.nodes[j as int].id@);
                    assert(old_ts[pos] == ol[pos].0);
                    assert(ol[pos].0 != j);
                    lemma_key_less_strict(keys[ol[pos].0 as int], keys[j as int]);
                    assert(key_less(keys[j as int], keys[ol[pos].0 as int]));
                }
                assert(self.sorted_list(i as int)) by {
                    assert(prev.sorted_list(i as int));
                    assert forall|c: int, d: int| 0 <= c < d < nl.len() implies key_less(
                        keys[(#[trigger] self.lists[i as int][c]).0 as int],
                        keys[(#[trigger] self.lists[i as int][d]).0 as int],
                    ) by {
                        if d < pos {
                            assert(nl[c] == ol[c] && nl[d] == ol[d]);
                        } else if d == pos {
                            assert(nl[c] == ol[c]);
                        } else if c == pos {
                            assert(nl[d] == ol[d - 1]);
                            if d - 1 > pos {
                                lemma_key_less_transitive(keys[j as int], keys[ol[pos].0 as int], keys[ol[d - 1].0 as int]);
                            }
                        } else if c < pos {
                            assert(nl[c] == ol[c] && nl[d] == ol[d - 1]);
                            if d - 1 > pos {
                                lemma_key_less_transitive(keys[ol[c].0 as int], keys[j as int], keys[ol[pos].0 as int]);
                                lemma_key_less_transitive(keys[ol[c].0 as int], keys[ol[pos].0 as int], keys[ol[d - 1].0 as int]);
                            } else {
                                lemma_key_less_transitive(keys[ol[c].0 as int], keys[j as int], keys[ol[pos].0 as int]);
                            }
                        } else {
                            assert(nl[c] == ol[c - 1] && nl[d] == ol[d - 1]);
                        }
                    }
                }
            }
        }
        proof {
            let nts = targets(self.lists[i as int]@);
            assert(self.keys() == prev.keys());
            assert(nts[pos] == j);
            assert forall|h: int| 0 <= h < self.lists.len() implies (#[trigger] targets(
                self.lists[h]@,
            )).no_duplicates() by {
                if h != i {
                    assert(self.lists[h] == prev.lists[h]);
                }
            }
            assert forall|h: int| 0 <= h < self.lists.len() implies #[trigger] self.sorted_list(h) by {
                if h != i {
                    assert(self.lists[h] == prev.lists[h]);
                    assert(prev.sorted_list(h));
                }
            }
            assert forall|h: int, c: int|
                0 <= h < self.lists.len() && 0 <= c < self.lists[h].len() implies (
            #[trigger] self.lists[h][c]).0 < self.nodes.len() by {
                if h != i {
                    assert(self.lists[h] == prev.lists[h]);
                } else if c != pos {
                    let oc = if c < pos || k < len { c } else { c - 1 };
                    assert(nts[c] == old_ts[oc]);
                    assert(prev.lists[h][oc].0 < self.nodes.len());
                }
            }
            self.lemma_label_at(i as int, pos);
            assert forall|a: Seq<char>, b: Seq<char>| #[trigger]
                self.label(a, b) == if a == prev.keys()[i as int] && b == prev.keys()[j as int] {
                    Some(l)
                } else {
                    prev.label(a, b)
                } by {
                prev.lemma_index_of(i as int);
                prev.lemma_index_of(j as int);
                if self.has_key(a) && self.has_key(b) {
                    let ia = self.index_of(a);
                    let ib = self.index_of(b);
                    prev.lemma_has_key(a);
                    prev.lemma_has_key(b);
                    if ia != i {
                        assert(self.lists[ia] == prev.lists[ia]);
                    } else if ib != j {
                        if old_ts.contains(ib as usize) {
                            let c = old_ts.index_of(ib as usize);
                            let nc = if c < pos || k < len { c } else { c + 1 };
                            assert(c != pos || k >= len);
                            assert(nts[nc] == old_ts[c]);
                            assert(self.lists[ia][nc] == prev.lists[ia][c]);
                            self.lemma_label_at(ia, nc);
                            prev.lemma_label_at(ia, c);
                        }
                        if nts.contains(ib as usize) {
                            let nc = nts.index_of(ib as usize);
                            assert(nc != pos);
                            let c = if nc < pos || k < len { nc } else { nc - 1 };
                            assert(old_ts[c] == nts[nc]);
                        }
                    }
                }
            }
        }
    }

    /// The edges leaving key `key`, as (copy of target node, label) pairs,
    /// or `None` when the key is absent.
    pub fn out_edges(&self, key: &String) -> (r: Option<Vec<(Node, L)>>)
        requires
            self.well_formed(),
        ensures
            r is Some <==> self.has_key(key@),
            r matches Some(v) ==> {
                &&& forall|c: int|
                    0 <= c < v.len() ==> self.has_key(#[trigger] v[c].0.id@) && self.label(
                        key@,
                        v[c].0.id@,
                    ) == Some(v[c].1)
                &&& forall|b: Seq<char>|
                    self.has_edge(key@, b) ==> exists|c: int|
                        0 <= c < v.len() && #[trigger] v[c].0.id@ == b
                &&& forall|c: int, d: int|
                    0 <= c < v.len() && 0 <= d < v.len() && c != d ==> #[trigger] v[c].0.id@
                        != #[trigger] v[d].0.id@
                &&& forall|c: int, d: int|
                    0 <= c < d < v.len() ==> key_less(#[trigger] v[c].0.id@, #[trigger] v[d].0.id@)
            },
    {
        let i = match self.find(key) {
            Some(i) => i,
            None => return None,
        };
        let ghost ts = targets(self.lists[i as int]@);
        let len = self.lists[i].len();
        let mut out: Vec<(Node, L)> = Vec::new();
        let mut k: usize = 0;
        while k < len
            invariant
                self.well_formed(),
                i < self.nodes.len(),
                self.keys()[i as int] == key@,
                self.index_of(key@) == i,
                ts == targets(self.lists[i as int]@),
                len == self.lists[i as int].len(),
                0 <= k <= len,
                out.len() == k,
                forall|c: int|
                    0 <= c < k ==> #[trigger] out[c].0.id@ == self.keys()[self.lists[i as int][c].0 as int]
                        && out[c].1 == self.lists[i as int][c].1,
            decreases len - k,
        {
            let (t, l) = self.lists[i][k];
            out.push((self.nodes[t].duplicate(), l));
            k = k + 1;
        }
        proof {
            assert forall|c: int| 0 <= c < out.len() implies self.has_key(#[trigger] out[c].0.id@)
                && self.label(key@, out[c].0.id@) == Some(out[c].1) by {
                let t = self.lists[i as int][c].0 as int;
                self.lemma_index_of(t);
                self.lemma_label_at(i as int, c);
            }
            assert forall|b: Seq<char>| self.has_edge(key@, b) implies exists|c: int|
                0 <= c < out.len() && #[trigger] out[c].0.id@ == b by {
                let ib = self.index_of(b);
                self.lemma_has_key(b);
                let c = ts.index_of(ib as usize);
                assert(ts[c] == ib);
                assert(out[c].0.id@ == b);
            }
            assert forall|c: int, d: int|
                0 <= c < out.len() && 0 <= d < out.len() && c != d implies #[trigger] out[c].0.id@
                != #[trigger] out[d].0.id@ by {
                assert(ts[c] != ts[d]);
            }
            assert forall|c: int, d: int| 0 <= c < d < out.len() implies key_less(
                #[trigger] out[c].0.id@,
                #[trigger] out[d].0.id@,
            ) by {
                assert(self.sorted_list(i as int));
                assert(key_less(
                    self.keys()[self.lists[i as int][c].0 as int],
                    self.keys()[self.lists[i as int][d].0 as int],
                ));
            }
        }
        Some(out)
    }

    /// The label of the edge from key `a` to key `b`, if there is one.
    pub fn get_label(&self, a: &String, b: &String) -> (r: Option<L>)
        requires
            self.well_formed(),
        ensures
            r == self.label(a@, b@),
    {
        let i = match self.find(a) {
            Some(i) => i,
            None => return None,
        };
        let j = match self.find(b) {
            Some(j) => j,
            None => return None,
        };
        let ghost ts = targets(self.lists[i as int]@);
        let len = self.lists[i].len();
        let mut k: usize = 0;
        while k < len
            invariant
                self.well_formed(),
                i < self.nodes.len(),
                ts == targets(self.lists[i as int]@),
                len == self.lists[i as int].len(),
                0 <= k <= len,
                forall|c: int| 0 <= c < k ==> ts[c] != j,
                j < self.nodes.len(),
                self.keys()[i as int] == a@,
                self.keys()[j as int] == b@,
                self.index_of(a@) == i,
                self.index_of(b@) == j,
            decreases len - k,
        {
            if self.lists[i][k].0 == j {
                proof {
                    self.lemma_label_at(i as int, k as int);
                    assert(self.has_key(a@) && self.has_key(b@));
                }
                return Some(self.lists[i][k].1);
            }
            k = k + 1;
        }
        proof {
            assert(self.has_key(a@) && self.has_key(b@));
            assert(!ts.contains(j));
        }
        None
    }

    /// The arena holding one node for each distinct key of `node_list` (a
    /// copy of the first node with that key) and no edges.
    pub fn from_nodes(node_list: Vec<Node>) -> (g: Self)
        ensures
            g.well_formed(),
            forall|k: Seq<char>| #[trigger] g.has_key(k) <==> keys_of(node_list@).contains(k),
            first_copies(g.nodes@, node_list@, node_list.len() as int),
            forall|a: Seq<char>, b: Seq<char>| #[trigger] g.label(a, b) is None,
    {
        let mut g = Adjacency::new();
        let mut k: usize = 0;
        while k < node_list.len()
            invariant
                0 <= k <= node_list.len(),
                g.well_formed(),
                forall|x: Seq<char>| #[trigger]
                    g.has_key(x) <==> keys_of(node_list@.subrange(0, k as int)).contains(x),
                first_copies(g.nodes@, node_list@, k as int),
                forall|a: Seq<char>, b: Seq<char>| #[trigger] g.label(a, b) is None,
            decreases node_list.len() - k,
        {
            let ghost prefix = keys_of(node_list@.subrange(0, k as int));
            let ghost next = keys_of(node_list@.subrange(0, k + 1));
            assert(next =~= prefix.push(node_list[k as int].id@));
            let ghost before = g.nodes@;
            let ghost fresh = !g.has_key(node_list[k as int].id@);
            g.insert_node(node_list[k].duplicate());
            k = k + 1;
            proof {
                let kk = k - 1;
                let ghost arena = g.nodes@;
                let ghost kn = k as int;
                assert forall|i: int| 0 <= i < arena.len() implies #[trigger] has_first_copy(arena[i], node_list@, kn) by {
                    if i < before.len() {
                        assert(g.nodes@[i] == before[i]);
                        assert(has_first_copy(before[i], node_list@, kk));
                        let c = choose|c: int| 0 <= c < kk && #[trigger] first_copy_at(before[i], node_list@, c);
                        assert(first_copy_at(arena[i], node_list@, c));
                    } else {
                        assert(fresh);
                        assert forall|d: int| 0 <= d < kk implies node_list@[d].id@ != node_list@[kk].id@ by {
                            if node_list@[d].id@ == node_list@[kk].id@ {
                                assert(prefix[d] == node_list@[d].id@);
                            }
                        }
                        assert(first_copy_at(arena[i], node_list@, kk));
                    }
                }
                assert(first_copies(arena, node_list@, kn));
                assert forall|x: Seq<char>| #[trigger] g.has_key(x) <==> next.contains(x) by {
                    if x == node_list[k - 1].id@ {
                        assert(next[k - 1] == x);
                    }
                    if prefix.contains(x) {
                        let c = choose|c: int| 0 <= c < prefix.len() && prefix[c] == x;
                        assert(next[c] == x);
                    }
                    if next.contains(x) && x != node_list[k - 1].id@ {
                        let c = choose|c: int| 0 <= c < next.len() && next[c] == x;
                        assert(prefix[c] == x);
                    }
                }
            }
        }
        assert(node_list@.subrange(0, node_list.len() as int) =~= node_list@);
        g
    }

    /// Copies of the nodes that edges from key `key` lead to, each once; `None`
    /// when the key is absent.
    pub fn neighbor_nodes(&self, key: &String) -> (r: Option<Vec<Node>>)
        requires
            self.well_formed(),
        ensures
            r is Some <==> self.has_key(key@),
            r matches Some(v) ==> {
                &&& forall|c: int|
                    0 <= c < v.len() ==> self.has_key(#[trigger] v[c].id@) && self.has_edge(
                        key@,
                        v[c].id@,
                    )
                &&& forall|b: Seq<char>|
                    self.has_edge(key@, b) ==> exists|c: int| 0 <= c < v.len() && #[trigger] v[c].id@ == b
                &&& forall|c: int, d: int|
                    0 <= c < v.len() && 0 <= d < v.len() && c != d ==> #[trigger] v[c].id@
                        != #[trigger] v[d].id@
                &&& forall|c: int, d: int|
                    0 <= c < d < v.len() ==> key_less(#[trigger] v[c].id@, #[trigger] v[d].id@)
            },
    {
        match self.out_edges(key) {
            Some(v) => {
                let r = nodes_only(&v);
                proof {
                    assert forall|b: Seq<char>| self.has_edge(key@, b) implies exists|c: int|
                        0 <= c < r.len() && #[trigger] r[c].id@ == b by {
                        let c = choose|c: int| 0 <= c < v.len() && #[trigger] v[c].0.id@ == b;
                        assert(r[c].id@ == b);
                    }
                    assert forall|c: int, d: int|
                        0 <= c < r.len() && 0 <= d < r.len() && c != d implies #[trigger] r[c].id@
                            != #[trigger] r[d].id@ by {
                        assert(v[c].0.id@ != v[d].0.id@);
                    }
                    assert forall|c: int, d: int| 0 <= c < d < r.len() implies key_less(
                        #[trigger] r[c].id@,
                        #[trigger] r[d].id@,
                    ) by {
                        assert(key_less(v[c].0.id@, v[d].0.id@));
                    }
                }
                Some(r)
            },
            None => None,
        }
    }
}

} // verus!
