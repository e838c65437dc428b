use std::collections::HashMap;
use vstd::prelude::*;
use vstd::std_specs::iter::IteratorSpec;

verus! {

/// A graph vertex. Its identity is its key `id` alone: two nodes with equal
/// keys are the same vertex, whatever attributes they carry.
#[derive(Clone, Debug)]
pub struct Node {
    pub id: String,
    pub data: Option<HashMap<String, String>>,
}

/// `a` is a copy of `b`: same key, same attributes.
pub open spec fn copies(a: Node, b: Node) -> bool {
    &&& a.id == b.id
    &&& (a.data is Some <==> b.data is Some)
    &&& (a.data is Some ==> a.data->Some_0@ == b.data->Some_0@)
}


/// Lexicographic order on keys, character by character.
pub open spec fn key_less(a: Seq<char>, b: Seq<char>) -> bool
    decreases a.len(),
{
    if a.len() == 0 {
        b.len() > 0
    } else if b.len() == 0 {
        false
    } else if a[0] != b[0] {
        a[0] < b[0]
    } else {
        key_less(a.drop_first(), b.drop_first())
    }
}

pub proof fn lemma_key_less_strict(a: Seq<char>, b: Seq<char>)
    ensures
        !(key_less(a, b) && key_less(b, a)),
        !key_less(a, a),
        a != b ==> key_less(a, b) || key_less(b, a),
    decreases a.len(),
{
    if a.len() > 0 && b.len() > 0 {
        lemma_key_less_strict(a.drop_first(), b.drop_first());
        if a[0] == b[0] && a != b {
            assert(a =~= seq![a[0]] + a.drop_first());
            assert(b =~= seq![b[0]] + b.drop_first());
        }
        lemma_key_less_strict(a.drop_first(), a.drop_first());
    } else if a.len() > 0 {
        lemma_key_less_strict(a.drop_first(), a.drop_first());
    } else if b.len() == 0 {
        assert(a =~= b);
    }
}

pub proof fn lemma_key_less_transitive(a: Seq<char>, b: Seq<char>, c: Seq<char>)
    requires
        key_less(a, b),
        key_less(b, c),
    ensures
        key_less(a, c),
    decreases a.len(),
{
    if a.len() > 0 && a[0] == b[0] && b[0] == c[0] {
        lemma_key_less_transitive(a.drop_first(), b.drop_first(), c.drop_first());
    }
}

/// Whether key `a` comes before key `b` in `key_less` order.
pub fn key_lt(a: &String, b: &String) -> (r: bool)
    ensures
        r == key_less(a@, b@),
{
    broadcast use vstd::string::axiom_spec_iter, vstd::string::next_postcondition;
    let mut ia = a.as_str().chars();
    let mut ib = b.as_str().chars();
    loop
        invariant
            ia.obeys_prophetic_iter_laws(),
            ib.obeys_prophetic_iter_laws(),
            key_less(ia.remaining(), ib.remaining()) == key_less(a@, b@),
            ia.decrease() is Some,
        decreases ia.decrease()->0,
    {
        match ia.next() {
            None => {
                return ib.next().is_some();
            },
            Some(ca) => match ib.next() {
                None => {
                    return false;
                },
                Some(cb) => {
                    if ca != cb {
                        return ca < cb;
                    }
                },
            },
        }
    }
}

impl Node {
    /// A node with the given key and an empty attribute map.
    pub fn new(id: String) -> (r: Node)
        ensures
            r.id == id,
            r.data matches Some(m) && m@ == Map::<String, String>::empty(),
    {
        Node { id, data: Some(HashMap::new()) }
    }

    /// A node with the given key and attributes.
    pub fn with_data(id: String, data: HashMap<String, String>) -> (r: Node)
        ensures
            r.id == id,
            r.data == Some(data),
    {
        Node { id, data: Some(data) }
    }

    /// A copy of this node: same key, same attributes.
    pub fn duplicate(&self) -> (r: Node)
        ensures
            copies(r, *self),
    {
        let data = match &self.data {
            Some(m) => Some(m.clone()),
            None => None,
        };
        Node { id: self.id.clone(), data }
    }
}

impl PartialEq for Node {
    fn eq(&self, other: &Node) -> (r: bool) {
        self.id == other.id
    }
}

impl vstd::std_specs::cmp::PartialEqSpecImpl for Node {
    open spec fn obeys_eq_spec() -> bool {
        true
    }

    open spec fn eq_spec(&self, other: &Node) -> bool {
        self.id@ == other.id@
    }
}

impl Eq for Node {
}

} // verus!
