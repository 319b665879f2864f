use crate::traverse::{traverse, TraverseResult, TraverseType};
use std::collections::hash_map::Entry;
use std::collections::HashMap;
use vstd::prelude::*;
use vstd::std_specs::hash::{axiom_spec_hash_map_iter, spec_hash_map_iter};
use vstd::std_specs::iter::IteratorSpec;

pub mod census;
pub mod harvest;
mod insertion;
mod lending;
mod removal;
pub mod shape;
pub mod view;

verus! {

broadcast use vstd::std_specs::hash::group_hash_axioms;

/// Whether a node stands for a stored key or only holds the tree together.
#[derive(Debug, PartialEq, Eq, Copy, Clone, Structural)]
pub enum NodeType {
    Key,
    Inner,
}

impl Default for NodeType {
    fn default() -> (r: Self)
        ensures
            r == NodeType::Inner,
    {
        NodeType::Inner
    }
}

/// How many edges leave a node, where there is at least one.
#[derive(Debug, PartialEq, Eq, Structural)]
pub enum EdgeType {
    Single,
    Branching(usize),
}

/// One node of the trie. The label is the fragment of the key that is consumed
/// on the way into the node; the edges are keyed by the first byte of the
/// child's label.
#[derive(Debug)]
pub struct Node<V> {
    label: Option<Vec<u8>>,
    value: Option<Box<V>>,
    tag: NodeType,
    edges: HashMap<u8, Box<Node<V>>>,
}

/// The number of nodes in the subtrees of the children of `m` whose edge
/// byte is below `upto`: of all nodes, or of those that hold a value.
pub open spec fn count_below<V>(m: Map<u8, Box<Node<V>>>, upto: int, all: bool) -> nat
    decreases m, upto,
{
    if upto <= 0 || !m.dom().finite() {
        0
    } else {
        let b = (upto - 1) as u8;
        count_below(m, upto - 1, all) + if m.contains_key(b) {
            m[b].tally(all)
        } else {
            0
        }
    }
}

impl<V> Node<V> {
    /// The label as a sequence of bytes, if the node has one.
    pub closed spec fn label_view(&self) -> Option<Seq<u8>> {
        match self.label {
            Some(l) => Some(l@),
            None => None,
        }
    }

    /// The stored value, if the node has one.
    pub closed spec fn value_view(&self) -> Option<V> {
        match self.value {
            Some(b) => Some(*b),
            None => None,
        }
    }

    /// The tag: key or inner node.
    pub closed spec fn tag_view(&self) -> NodeType {
        self.tag
    }

    /// The outgoing edges: first byte to child.
    pub closed spec fn children(&self) -> Map<u8, Box<Node<V>>> {
        self.edges@
    }

    /// The label's bytes; empty where the node has no label.
    pub open spec fn label_seq(&self) -> Seq<u8> {
        match self.label_view() {
            Some(l) => l,
            None => Seq::empty(),
        }
    }

    /// Every child is a well-formed subtree filed under the first byte of its label.
    pub open spec fn children_wf(&self) -> bool
        decreases self, 0int,
    {
        &&& self.children().dom().finite()
        &&& forall|b: u8| #[trigger]
            self.children().contains_key(b) ==> {
                &&& self.children()[b].label_seq().len() > 0
                &&& self.children()[b].label_seq()[0] == b
                &&& self.children()[b].wf_sub()
            }
    }

    /// A well-formed node below the root: it has a non-empty label, holds a
    /// value exactly when it is tagged as a key, and branches where it is not.
    pub open spec fn wf_sub(&self) -> bool
        decreases self, 1int,
    {
        &&& self.label_view() is Some
        &&& self.label_seq().len() > 0
        &&& (self.tag_view() is Key <==> self.value_view() is Some)
        &&& (self.tag_view() is Inner ==> self.children().len() >= 2)
        &&& self.children_wf()
    }

    /// What a root and a node below it have in common: well-formed
    /// children, and a value exactly where the node is tagged as a key.
    pub open spec fn wf_any(&self) -> bool {
        &&& self.children_wf()
        &&& (self.tag_view() is Key <==> self.value_view() is Some)
    }

    /// A well-formed root: no label, no value, well-formed children.
    pub open spec fn wf_root(&self) -> bool {
        &&& self.label_view() is None
        &&& self.tag_view() is Inner
        &&& self.value_view() is None
        &&& self.children_wf()
    }

    /// The child into which `k` leads from this node: the one filed under
    /// `k[0]`, where its label is a prefix of `k`.
    pub open spec fn step(&self, k: Seq<u8>) -> Option<Box<Node<V>>> {
        if k.len() > 0 && self.children().contains_key(k[0]) && self.children()[k[0]].label_seq().len()
            > 0 && self.children()[k[0]].label_seq().is_prefix_of(k) {
            Some(self.children()[k[0]])
        } else {
            None
        }
    }

    /// The value stored under `k`, counted from this node: the node's own
    /// label is not part of `k`.
    pub open spec fn lookup(&self, k: Seq<u8>) -> Option<V>
        decreases k.len(),
    {
        if k.len() == 0 {
            self.value_view()
        } else {
            match self.step(k) {
                Some(c) => c.lookup(k.skip(c.label_seq().len() as int)),
                None => None,
            }
        }
    }

    /// The deepest node that `k` leads to from this node.
    pub open spec fn last(&self, k: Seq<u8>) -> Node<V>
        decreases k.len(),
    {
        match self.step(k) {
            Some(c) => c.last(k.skip(c.label_seq().len() as int)),
            None => *self,
        }
    }

    /// What is left of `k` at the deepest node that it leads to.
    pub open spec fn rest(&self, k: Seq<u8>) -> Seq<u8>
        decreases k.len(),
    {
        match self.step(k) {
            Some(c) => c.rest(k.skip(c.label_seq().len() as int)),
            None => k,
        }
    }

    /// The nodes below this one that `k` leads through, nearest first.
    pub open spec fn path(&self, k: Seq<u8>) -> Seq<Node<V>>
        decreases k.len(),
    {
        match self.step(k) {
            Some(c) => seq![*c] + c.path(k.skip(c.label_seq().len() as int)),
            None => Seq::empty(),
        }
    }

    /// The number of nodes in this subtree: of all nodes, or of those that hold a value.
    pub open spec fn tally(&self, all: bool) -> nat
        decreases self,
    {
        (if all || self.value_view() is Some {
            1nat
        } else {
            0nat
        }) + count_below(self.children(), 256, all)
    }

    /// The number of stored values in this subtree.
    #[verifier::inline]
    pub open spec fn key_count(&self) -> nat {
        self.tally(false)
    }

    /// A node without children.
    pub fn new(label: Option<Vec<u8>>, tag: NodeType, value: Option<Box<V>>) -> (r: Self)
        ensures
            r.label_view() == (match label {
                Some(l) => Some(l@),
                None => None,
            }),
            r.tag_view() == tag,
            r.value_view() == (match value {
                Some(b) => Some(*b),
                None => None,
            }),
            r.children() == Map::<u8, Box<Node<V>>>::empty(),
    {
        Node { label, value, tag, edges: HashMap::new() }
    }

    /// The label's bytes.
    pub fn label(&self) -> (r: Option<&[u8]>)
        ensures
            match r {
                Some(s) => self.label_view() == Some(s@),
                None => self.label_view() is None,
            },
    {
        match &self.label {
            Some(l) => Some(l.as_slice()),
            None => None,
        }
    }

    /// Whether the node is tagged as a key.
    #[inline]
    pub fn is_key(&self) -> (r: bool)
        ensures
            r == (self.tag_view() is Key),
    {
        self.tag == NodeType::Key
    }

    /// Whether the node has no edge, one, or more.
    pub fn edge_type(&self) -> (r: Option<EdgeType>)
        ensures
            match r {
                None => self.children().len() == 0,
                Some(EdgeType::Single) => self.children().len() == 1,
                Some(EdgeType::Branching(count)) => count >= 2 && self.children().len() == count,
            },
    {
        let len: usize = self.edges.len();
        if len == 0 {
            None
        } else if len == 1 {
            Some(EdgeType::Single)
        } else {
            Some(EdgeType::Branching(len))
        }
    }

    /// The child filed under `first`.
    pub fn lookup_edge(&self, first: u8) -> (r: Option<&Box<Node<V>>>)
        ensures
            match r {
                Some(c) => self.children().contains_key(first) && self.children()[first] == *c,
                None => !self.children().contains_key(first),
            },
    {
        self.edges.get(&first)
    }

    /// The child filed under `first`, for writing.
    pub fn lookup_edge_mut(&mut self, first: u8) -> (r: Option<&mut Box<Node<V>>>)
        ensures
            final(self).label_view() == old(self).label_view(),
            final(self).value_view() == old(self).value_view(),
            final(self).tag_view() == old(self).tag_view(),
            match r {
                Some(c) => old(self).children().contains_key(first) && old(self).children()[first]
                    == *c && final(self).children() == old(self).children().insert(
                    first,
                    *final(c),
                ),
                None => !old(self).children().contains_key(first) && final(self).children() == old(
                    self,
                ).children(),
            },
    {
        match self.edges.entry(first) {
            Entry::Occupied(e) => Some(e.into_mut()),
            Entry::Vacant(_e) => {
                assert(old(self).children().remove(first) =~= old(self).children());
                None
            },
        }
    }

    fn next_helper(&mut self, key: u8) -> (r: Option<&mut Node<V>>)
        ensures
            final(self).label_view() == old(self).label_view(),
            final(self).value_view() == old(self).value_view(),
            final(self).tag_view() == old(self).tag_view(),
            match r {
                Some(c) => old(self).children().contains_key(key) && *old(self).children()[key]
                    == *c && final(self).children() == old(self).children().insert(
                    key,
                    Box::new(*final(c)),
                ),
                None => !old(self).children().contains_key(key) && final(self).children() == old(
                    self,
                ).children(),
            },
    {
        match self.lookup_edge_mut(key) {
            Some(b) => Some(&mut **b),
            None => None,
        }
    }
}

impl<V> View for Node<V> {
    type V = Map<Seq<u8>, V>;

    /// The keys stored below this node, each with its value.
    open spec fn view(&self) -> Map<Seq<u8>, V> {
        Map::new(|k: Seq<u8>| self.lookup(k) is Some, |k: Seq<u8>| self.lookup(k)->0)
    }
}

/// Two keys that share a prefix and agree behind it are equal.
pub proof fn lemma_same_rest(l: Seq<u8>, k: Seq<u8>, t: Seq<u8>)
    requires
        l.is_prefix_of(k),
        l.is_prefix_of(t),
        k.skip(l.len() as int) == t.skip(l.len() as int),
    ensures
        k == t,
{
    let n = l.len() as int;
    assert(k.skip(n).len() == k.len() - n);
    assert(t.skip(n).len() == t.len() - n);
    assert forall|i: int| 0 <= i < k.len() implies k[i] == t[i] by {
        if i < n {
            assert(k.subrange(0, n)[i] == l[i]);
            assert(t.subrange(0, n)[i] == l[i]);
        } else {
            assert(k.skip(n)[i - n] == k[i]);
            assert(t.skip(n)[i - n] == t[i]);
        }
    }
    assert(k =~= t);
}

/// A concatenation is a prefix of `k` exactly when its parts are, one after the other.
pub proof fn lemma_prefix_concat(a: Seq<u8>, b: Seq<u8>, k: Seq<u8>)
    ensures
        (a + b).is_prefix_of(k) <==> a.is_prefix_of(k) && b.is_prefix_of(k.skip(a.len() as int)),
        (a + b).is_prefix_of(k) ==> k.skip(a.len() as int).skip(b.len() as int) =~= k.skip(
            (a + b).len() as int,
        ),
{
    let n = a.len() as int;
    let m = b.len() as int;
    if (a + b).is_prefix_of(k) {
        assert forall|i: int| 0 <= i < n implies a[i] == k[i] by {
            assert(k.subrange(0, n + m)[i] == (a + b)[i]);
        }
        assert(a =~= k.subrange(0, n));
        assert forall|i: int| 0 <= i < m implies b[i] == k.skip(n)[i] by {
            assert(k.subrange(0, n + m)[i + n] == (a + b)[i + n]);
        }
        assert(b =~= k.skip(n).subrange(0, m));
    }
    if a.is_prefix_of(k) && b.is_prefix_of(k.skip(n)) {
        assert forall|i: int| 0 <= i < n + m implies (a + b)[i] == k[i] by {
            if i < n {
                assert(k.subrange(0, n)[i] == a[i]);
            } else {
                assert(k.skip(n).subrange(0, m)[i - n] == b[i - n]);
            }
        }
        assert((a + b) =~= k.subrange(0, n + m));
    }
}

/// The count over a map is the count over the map without `b`, and what `b` holds.
pub proof fn lemma_count_split<V>(m: Map<u8, Box<Node<V>>>, b: u8, upto: int, all: bool)
    requires
        m.dom().finite(),
        0 <= upto <= 256,
    ensures
        count_below(m, upto, all) == count_below(m.remove(b), upto, all) + (if b < upto
            && m.contains_key(b) {
            m[b].tally(all)
        } else {
            0
        }),
    decreases upto,
{
    if upto > 0 {
        lemma_count_split(m, b, upto - 1, all);
    }
}

/// There is nothing below a node without children.
pub proof fn lemma_count_empty<V>(m: Map<u8, Box<Node<V>>>, upto: int, all: bool)
    requires
        m.dom() =~= Set::<u8>::empty(),
    ensures
        count_below(m, upto, all) == 0,
    decreases upto,
{
    if upto > 0 {
        lemma_count_empty(m, upto - 1, all);
    }
}

/// What replacing or adding the child under `key` does to the count.
pub proof fn lemma_count_insert<V>(m: Map<u8, Box<Node<V>>>, key: u8, c: Box<Node<V>>, all: bool)
    requires
        m.dom().finite(),
    ensures
        count_below(m.insert(key, c), 256, all) + (if m.contains_key(key) {
            m[key].tally(all)
        } else {
            0
        }) == count_below(m, 256, all) + c.tally(all),
{
    lemma_count_split(m, key, 256, all);
    lemma_count_split(m.insert(key, c), key, 256, all);
    assert(m.insert(key, c).remove(key) =~= m.remove(key));
}

/// The number of nodes in the subtrees of `s` taken together: of all nodes,
/// or of those that hold a value.
pub open spec fn sum_counts<V>(s: Seq<Node<V>>, all: bool) -> nat
    decreases s.len(),
{
    if s.len() == 0 {
        0
    } else {
        sum_counts(s.drop_last(), all) + s.last().tally(all)
    }
}

/// One more subtree adds its own count.
pub proof fn lemma_sum_push<V>(s: Seq<Node<V>>, x: Node<V>, all: bool)
    ensures
        sum_counts(s.push(x), all) == sum_counts(s, all) + x.tally(all),
{
    assert(s.push(x).drop_last() =~= s);
}

/// The count of the first subtree stands apart from the rest.
pub proof fn lemma_sum_first<V>(s: Seq<Node<V>>, all: bool)
    requires
        s.len() > 0,
    ensures
        sum_counts(s, all) == s[0].tally(all) + sum_counts(s.skip(1), all),
    decreases s.len(),
{
    if s.len() == 1 {
        assert(s.skip(1) =~= Seq::<Node<V>>::empty());
        assert(s.drop_last() =~= Seq::<Node<V>>::empty());
    } else {
        lemma_sum_first(s.drop_last(), all);
        assert(s.skip(1).drop_last() =~= s.drop_last().skip(1));
    }
}

/// The children of a map, listed once each in any order, count as the map does.
pub proof fn lemma_sum_children<V>(m: Map<u8, Box<Node<V>>>, keys: Seq<u8>, nodes: Seq<Node<V>>, all: bool)
    requires
        m.dom().finite(),
        keys.len() == nodes.len(),
        keys.no_duplicates(),
        forall|i: int| 0 <= i < keys.len() ==> m.contains_key(#[trigger] keys[i]) && *m[keys[i]] == nodes[i],
        forall|b: u8| m.contains_key(b) ==> keys.contains(b),
    ensures
        sum_counts(nodes, all) == count_below(m, 256, all),
    decreases keys.len(),
{
    if keys.len() == 0 {
        assert forall|b: u8| !m.contains_key(b) by {
            if m.contains_key(b) {
                assert(keys.contains(b));
            }
        }
        lemma_count_empty(m, 256, all);
    } else {
        let last = keys.last();
        let m2 = m.remove(last);
        let keys2 = keys.drop_last();
        let nodes2 = nodes.drop_last();
        assert forall|b: u8| m2.contains_key(b) implies keys2.contains(b) by {
            assert(keys.contains(b));
            let i = choose|i: int| 0 <= i < keys.len() && keys[i] == b;
            assert(keys2[i] == b);
        }
        assert forall|i: int| 0 <= i < keys2.len() implies m2.contains_key(#[trigger] keys2[i])
            && *m2[keys2[i]] == nodes2[i] by {
            assert(keys[i] != keys[keys.len() - 1]);
        }
        lemma_sum_children(m2, keys2, nodes2, all);
        lemma_count_split(m, last, 256, all);
    }
}

impl<V> Node<V> {
    spec fn wf_node(&self, at_root: bool) -> bool {
        if at_root {
            self.wf_root()
        } else {
            self.wf_sub()
        }
    }

    spec fn shell_eq(&self, o: &Node<V>) -> bool {
        &&& self.label_view() == o.label_view()
        &&& self.tag_view() == o.tag_view()
        &&& self.value_view() == o.value_view()
    }

    /// `b` is this node after the entry under `t` was set to `nv`: to a
    /// value, or to none.
    spec fn put_post(&self, b: &Node<V>, t: Seq<u8>, nv: Option<V>) -> bool {
        &&& b.label_view() == self.label_view()
        &&& (t.len() > 0 ==> b.tag_view() == self.tag_view() && b.value_view() == self.value_view())
        &&& forall|k: Seq<u8>| #[trigger]
            b.lookup(k) == if k == t {
                nv
            } else {
                self.lookup(k)
            }
        &&& b.key_count() + (if self.lookup(t) is Some {
            1nat
        } else {
            0nat
        }) == self.key_count() + (if nv is Some {
            1nat
        } else {
            0nat
        })
    }

    /// A bridge that was just put in: it has one child and waits for a second
    /// one under the first byte of `nav`.
    spec fn half_built(&self, nav: Seq<u8>) -> bool {
        &&& self.label_view() is Some
        &&& self.label_seq().len() > 0
        &&& self.tag_view() is Inner
        &&& self.value_view() is None
        &&& self.children_wf()
        &&& self.children().len() == 1
        &&& nav.len() > 0
        &&& !self.children().contains_key(nav[0])
    }

    spec fn open_for(&self, nav: Seq<u8>, at_root: bool) -> bool {
        if at_root {
            self.wf_root()
        } else {
            self.wf_sub() || self.half_built(nav)
        }
    }

    /// What a node holds depends on its value and its children only.
    proof fn lemma_lookup_shell(&self, o: &Node<V>, k: Seq<u8>)
        requires
            self.value_view() == o.value_view(),
            self.children() == o.children(),
        ensures
            self.lookup(k) == o.lookup(k),
            self.key_count() == o.key_count(),
    {
        assert(self.step(k) == o.step(k));
    }

    /// The effect of a change below the child under `key`, seen from the parent.
    proof fn lemma_hang(
        &self,
        p2: &Node<V>,
        c1: &Node<V>,
        c2: &Node<V>,
        key: u8,
        nav: Seq<u8>,
        rest: Seq<u8>,
        nv: Option<V>,
    )
        requires
            nav.len() > 0,
            nav[0] == key,
            c1.label_seq().len() > 0,
            c1.label_seq()[0] == key,
            c1.label_seq().is_prefix_of(nav),
            rest == nav.skip(c1.label_seq().len() as int),
            self.children().dom().finite(),
            self.shell_eq(p2),
            p2.children() == self.children().insert(key, Box::new(*c2)),
            c1.put_post(c2, rest, nv),
            forall|k: Seq<u8>|
                k.len() > 0 && k[0] == key ==> #[trigger] self.lookup(k) == (if c1.label_seq().is_prefix_of(
                    k,
                ) {
                    c1.lookup(k.skip(c1.label_seq().len() as int))
                } else {
                    None
                }),
            c1.key_count() == (if self.children().contains_key(key) {
                self.children()[key].key_count()
            } else {
                0
            }),
        ensures
            self.put_post(p2, nav, nv),
    {
        let l = c1.label_seq();
        let n = l.len() as int;
        assert forall|k: Seq<u8>| #[trigger]
            p2.lookup(k) == if k == nav {
                nv
            } else {
                self.lookup(k)
            } by {
            if k.len() == 0 {
            } else if k[0] == key {
                assert(p2.children()[key] == Box::new(*c2));
                if l.is_prefix_of(k) {
                    assert(p2.step(k) == Some(Box::new(*c2)));
                    assert(p2.lookup(k) == c2.lookup(k.skip(n)));
                    if k.skip(n) == rest {
                        lemma_same_rest(l, k, nav);
                    }
                } else {
                    assert(p2.step(k) is None);
                }
            } else {
                assert(p2.children().contains_key(k[0]) == self.children().contains_key(k[0]));
                if self.children().contains_key(k[0]) {
                    assert(p2.children()[k[0]] == self.children()[k[0]]);
                }
                assert(p2.step(k) == self.step(k));
            }
        }
        assert(self.lookup(nav) == c1.lookup(rest));
        lemma_count_insert(self.children(), key, Box::new(*c2), false);
    }

    /// A parent stays well-formed when the child under `key` gives way to a
    /// well-formed one, or one is added there.
    proof fn lemma_wf_hang(&self, p2: &Node<V>, c2: &Node<V>, key: u8, nav: Seq<u8>, at_root: bool)
        requires
            self.open_for(nav, at_root),
            self.shell_eq(p2),
            p2.children() == self.children().insert(key, Box::new(*c2)),
            c2.wf_sub(),
            c2.label_seq()[0] == key,
            !self.wf_node(at_root) ==> nav.len() > 0 && nav[0] == key,
        ensures
            p2.wf_node(at_root),
    {
        assert(p2.children().dom() =~= self.children().dom().insert(key));
        assert forall|b: u8| #[trigger] p2.children().contains_key(b) implies {
            &&& p2.children()[b].label_seq().len() > 0
            &&& p2.children()[b].label_seq()[0] == b
            &&& p2.children()[b].wf_sub()
        } by {
            if b != key {
                assert(self.children().contains_key(b));
                assert(p2.children()[b] == self.children()[b]);
            }
        }
        assert(p2.children_wf());
        if self.children().contains_key(key) {
            assert(self.children().dom().insert(key) =~= self.children().dom());
        }
    }

    /// What it means for a node that its own value is set or taken, the
    /// children staying as they are.
    proof fn lemma_own_value(&self, b: &Node<V>, nv: Option<V>)
        requires
            b.label_view() == self.label_view(),
            b.children() == self.children(),
            b.value_view() == nv,
        ensures
            self.put_post(b, Seq::<u8>::empty(), nv),
    {
        let e = Seq::<u8>::empty();
        assert forall|k: Seq<u8>| #[trigger]
            b.lookup(k) == if k == e {
                nv
            } else {
                self.lookup(k)
            } by {
            if k.len() > 0 {
                assert(b.step(k) == self.step(k));
            } else {
                assert(k =~= e);
            }
        }
    }

    /// Nothing changes where a node stays as it is.
    proof fn lemma_put_same(&self, t: Seq<u8>)
        ensures
            self.put_post(self, t, self.lookup(t)),
    {
    }

    /// What a change under a key means for the map of the node.
    proof fn lemma_put_view(&self, b: &Node<V>, t: Seq<u8>, nv: Option<V>)
        requires
            self.put_post(b, t, nv),
        ensures
            b@ == (match nv {
                Some(v) => self@.insert(t, v),
                None => self@.remove(t),
            }),
            b.key_count() + (if self.lookup(t) is Some {
                1nat
            } else {
                0nat
            }) == self.key_count() + (if nv is Some {
                1nat
            } else {
                0nat
            }),
    {
        match nv {
            Some(v) => {
                assert(b@ =~= self@.insert(t, v));
            },
            None => {
                assert(b@ =~= self@.remove(t));
            },
        }
    }

    /// What a change below an existing child means for the parent.
    proof fn lemma_descend(&self, key: u8, nav: Seq<u8>, rest: Seq<u8>, nv: Option<V>, at_root: bool)
        requires
            self.wf_node(at_root),
            nav.len() > 0,
            nav[0] == key,
            self.step(nav) == Some(self.children()[key]),
            rest == nav.skip(self.children()[key].label_seq().len() as int),
        ensures
            self.lookup(nav) == self.children()[key].lookup(rest),
            forall|p2: Node<V>, c2: Node<V>|
                self.shell_eq(&p2) && p2.children() == self.children().insert(key, Box::new(c2))
                    && #[trigger] self.children()[key].put_post(&c2, rest, nv) && c2.wf_sub()
                    ==> #[trigger] self.put_post(&p2, nav, nv) && p2.wf_node(at_root),
    {
        let c1 = self.children()[key];
        assert forall|p2: Node<V>, c2: Node<V>|
            self.shell_eq(&p2) && p2.children() == self.children().insert(key, Box::new(c2))
                && #[trigger] c1.put_post(&c2, rest, nv) && c2.wf_sub() implies #[trigger] self.put_post(
            &p2,
            nav,
            nv,
        ) && p2.wf_node(at_root) by {
            assert forall|k: Seq<u8>| k.len() > 0 && k[0] == key implies #[trigger] self.lookup(k)
                == (if c1.label_seq().is_prefix_of(k) {
                c1.lookup(k.skip(c1.label_seq().len() as int))
            } else {
                None
            }) by {}
            self.lemma_hang(&p2, &*c1, &c2, key, nav, rest, nv);
            self.lemma_wf_hang(&p2, &c2, key, nav, at_root);
        }
    }

    /// A node with one edge has it under `only_key`.
    pub proof fn lemma_only_key(&self)
        requires
            self.children().dom().finite(),
            self.children().len() == 1,
        ensures
            self.children().dom() =~= set![self.only_key()],
    {
        let d = self.children().dom();
        assert(d.contains(d.choose()));
        let g = self.only_key();
        assert(d.contains(g));
        assert(d.remove(g).len() == 0);
        d.remove(g).lemma_len0_is_empty();
        assert forall|x: u8| d.contains(x) implies x == g by {
            if x != g {
                assert(d.remove(g).contains(x));
            }
        }
    }

    /// A node with two edges, one of them under `k`, has the other under `other_key(k)`.
    pub proof fn lemma_other_key(&self, k: u8)
        requires
            self.children().dom().finite(),
            self.children().len() == 2,
            self.children().contains_key(k),
        ensures
            self.other_key(k) != k,
            self.children().dom() =~= set![k, self.other_key(k)],
    {
        let d = self.children().dom();
        assert(d.remove(k).len() == 1);
        assert(d.remove(k).contains(d.remove(k).choose()));
        let g = self.other_key(k);
        assert(d.contains(g) && g != k);
        assert(d.remove(k).remove(g).len() == 0);
        d.remove(k).remove(g).lemma_len0_is_empty();
        assert forall|x: u8| d.contains(x) implies x == g || x == k by {
            if x != g && x != k {
                assert(d.remove(k).remove(g).contains(x));
            }
        }
    }

    /// The first node of a path and what follows it.
    pub proof fn lemma_first_step(&self, nav: Seq<u8>)
        requires
            self.children_wf(),
            self.path(nav).len() > 0,
        ensures
            nav.len() > 0,
            self.step(nav) == Some(self.children()[nav[0]]),
            *self.children()[nav[0]] == self.path(nav)[0],
            self.path(nav)[0].label_seq()[0] == nav[0],
            self.path(nav)[0].label_seq().is_prefix_of(nav),
            nav == self.path(nav)[0].label_seq() + nav.skip(self.path(nav)[0].label_seq().len() as int),
            self.path(nav)[0].path(nav.skip(self.path(nav)[0].label_seq().len() as int)) == self.path(
                nav,
            ).skip(1),
            self.path(nav)[0].rest(nav.skip(self.path(nav)[0].label_seq().len() as int)) == self.rest(
                nav,
            ),
    {
        let c = self.children()[nav[0]];
        let l = c.label_seq();
        let k2 = nav.skip(l.len() as int);
        assert(self.path(nav) == seq![*c] + c.path(k2));
        assert(c.path(k2) =~= self.path(nav).skip(1));
        assert(nav =~= l + k2);
        assert(l[0] == nav.subrange(0, l.len() as int)[0]);
    }

    /// Where a path has come to its end and nothing is left of the key, the key is empty.
    pub proof fn lemma_no_step(&self, nav: Seq<u8>)
        requires
            self.path(nav).len() == 0,
            self.rest(nav).len() == 0,
        ensures
            nav.len() == 0,
    {
        if self.step(nav) is Some {
            let c = self.step(nav)->0;
            assert(self.path(nav) == seq![*c] + c.path(nav.skip(c.label_seq().len() as int)));
        }
    }

    /// The outgoing edges, each with its byte, in the order in which the
    /// table hands them out.
    pub fn edge_list(&self) -> (r: Vec<(u8, &Node<V>)>)
        ensures
            r@.len() == self.children().len(),
            forall|i: int|
                0 <= i < r@.len() ==> self.children().contains_key((#[trigger] r@[i]).0)
                    && *self.children()[r@[i].0] == *r@[i].1,
            forall|i: int, j: int| 0 <= i < j < r@.len() ==> r@[i].0 != r@[j].0,
            forall|b: u8|
                self.children().contains_key(b) ==> exists|i: int|
                    0 <= i < r@.len() && (#[trigger] r@[i]).0 == b,
    {
        let mut out: Vec<(u8, &Node<V>)> = Vec::new();
        for pair in it: self.edges.iter()
            invariant
                out@.len() == it.index(),
                it.seq() == spec_hash_map_iter(&self.edges).remaining(),
                forall|i: int|
                    0 <= i < out@.len() ==> (#[trigger] out@[i]).0 == *it.seq()[i].0 && *out@[i].1
                        == **it.seq()[i].1,
        {
            let (k, c) = pair;
            out.push((*k, &**c));
        }
        proof {
            let s = spec_hash_map_iter(&self.edges).remaining();
            axiom_spec_hash_map_iter(&self.edges);
            assert forall|i: int, j: int| 0 <= i < j < out@.len() implies out@[i].0 != out@[j].0 by {
                if out@[i].0 == out@[j].0 {
                    assert(self.edges@.contains_key(*s[i].0));
                    assert(self.edges@.contains_key(*s[j].0));
                    assert(s[i] == s[j]);
                }
            }
            assert forall|i: int| 0 <= i < out@.len() implies self.children().contains_key(
                (#[trigger] out@[i]).0,
            ) && *self.children()[out@[i].0] == *out@[i].1 by {
                assert(self.edges@.contains_key(*s[i].0));
            }
            assert forall|b: u8| self.children().contains_key(b) implies exists|i: int|
                0 <= i < out@.len() && (#[trigger] out@[i]).0 == b by {
                assert(s.contains((&b, &self.edges@[b])));
                let i = choose|i: int| 0 <= i < s.len() && s[i] == (&b, &self.edges@[b]);
                assert(out@[i].0 == b);
            }
        }
        out
    }

    /// The byte of the only edge of a node that has one edge.
    pub open spec fn only_key(&self) -> u8 {
        choose|g: u8| self.children().contains_key(g)
    }

    /// The byte of the other edge of a node that has two, one of them under `k`.
    pub open spec fn other_key(&self, k: u8) -> u8 {
        choose|g: u8| self.children().contains_key(g) && g != k
    }

    /// The byte of the only edge.
    pub fn only_edge_key(&self) -> (g: u8)
        requires
            self.children().dom().finite(),
            self.children().len() == 1,
        ensures
            g == self.only_key(),
            self.children().contains_key(g),
            self.children().dom() =~= set![g],
    {
        let list = self.edge_list();
        proof {
            self.lemma_only_key();
            assert(self.children().contains_key(list@[0].0));
        }
        list[0].0
    }

    /// The byte of the edge that is not under `k`, where there are two.
    pub fn other_edge_key(&self, k: u8) -> (g: u8)
        requires
            self.children().dom().finite(),
            self.children().len() == 2,
            self.children().contains_key(k),
        ensures
            g == self.other_key(k),
            g != k,
            self.children().contains_key(g),
            self.children().dom() =~= set![k, g],
    {
        let list = self.edge_list();
        proof {
            self.lemma_other_key(k);
            assert(self.children().contains_key(list@[0].0));
            assert(self.children().contains_key(list@[1].0));
            assert(list@[0].0 != list@[1].0);
        }
        if list[0].0 != k {
            list[0].0
        } else {
            list[1].0
        }
    }

    /// Retrieves the value stored under `prefix`.
    pub fn search(&self, prefix: &[u8]) -> (r: Option<&V>)
        requires
            self.wf_root(),
        ensures
            match r {
                Some(v) => self@.contains_key(prefix@) && self@[prefix@] == *v,
                None => !self@.contains_key(prefix@),
            },
    {
        proof {
            self.lemma_lookup_last(prefix@);
            self.lemma_last_wf(prefix@);
        }
        match traverse(self, prefix, TraverseType::Search) {
            Some(TraverseResult::Terminal(true, n)) => match &n.value {
                Some(b) => Some(&**b),
                None => None,
            },
            _ => None,
        }
    }

    /// The walk along `k` ends where no step can be taken.
    pub proof fn lemma_rest_stuck(&self, k: Seq<u8>)
        ensures
            self.last(k).step(self.rest(k)) is None,
            self.path(k).len() == 0 ==> self.rest(k) == k,
        decreases k.len(),
    {
        match self.step(k) {
            Some(c) => {
                c.lemma_rest_stuck(k.skip(c.label_seq().len() as int));
                assert(self.path(k) == seq![*c] + c.path(k.skip(c.label_seq().len() as int)));
            },
            None => {},
        }
    }

    /// What is stored under a key that begins with `t` is found from the
    /// node that `t` leads to.
    pub proof fn lemma_lookup_extend(&self, t: Seq<u8>, x: Seq<u8>)
        ensures
            self.lookup(t + x) == self.last(t).lookup(self.rest(t) + x),
        decreases t.len(),
    {
        match self.step(t) {
            Some(c) => {
                let l = c.label_seq();
                let n = l.len() as int;
                assert((t + x)[0] == t[0]);
                assert((t + x).subrange(0, n) =~= t.subrange(0, n));
                assert(self.step(t + x) == Some(c));
                assert((t + x).skip(n) =~= t.skip(n) + x);
                c.lemma_lookup_extend(t.skip(n), x);
            },
            None => {},
        }
    }

    /// The node reached from this one by the edges `ks`, one byte for each edge.
    pub open spec fn descend(&self, ks: Seq<u8>) -> Option<Node<V>>
        decreases ks.len(),
    {
        if ks.len() == 0 {
            Some(*self)
        } else if self.children().contains_key(ks[0]) {
            self.children()[ks[0]].descend(ks.skip(1))
        } else {
            None
        }
    }

    /// Every node below a node with well-formed children is well-formed.
    pub proof fn lemma_descend_wf(&self, ks: Seq<u8>)
        requires
            self.children_wf(),
            ks.len() > 0,
            self.descend(ks) is Some,
        ensures
            self.descend(ks)->0.wf_sub(),
        decreases ks.len(),
    {
        let c = self.children()[ks[0]];
        assert(self.children().contains_key(ks[0]));
        assert(self.descend(ks) == c.descend(ks.skip(1)));
        assert(c.wf_sub());
        if ks.len() == 1 {
            assert(ks.skip(1).len() == 0);
            assert(c.descend(ks.skip(1)) == Some(*c));
        } else {
            c.lemma_descend_wf(ks.skip(1));
        }
    }

    /// The value under `k` is the value of the node that `k` leads to, where it leads to one.
    pub proof fn lemma_lookup_last(&self, k: Seq<u8>)
        ensures
            self.lookup(k) == if self.rest(k).len() == 0 {
                self.last(k).value_view()
            } else {
                None
            },
        decreases k.len(),
    {
        match self.step(k) {
            Some(c) => {
                c.lemma_lookup_last(k.skip(c.label_seq().len() as int));
            },
            None => {},
        }
    }

    /// Each node of a path is the child of the one before it, filed under the
    /// first byte of its label.
    pub proof fn lemma_path_links(&self, k: Seq<u8>)
        requires
            self.children_wf(),
        ensures
            self.path(k).len() > 0 ==> self.children().contains_key(self.path(k)[0].label_seq()[0])
                && *self.children()[self.path(k)[0].label_seq()[0]] == self.path(k)[0],
            forall|i: int|
                0 <= i < self.path(k).len() - 1 ==> (#[trigger] self.path(k)[i]).children().contains_key(
                    self.path(k)[i + 1].label_seq()[0],
                ) && *self.path(k)[i].children()[self.path(k)[i + 1].label_seq()[0]] == self.path(
                    k,
                )[i + 1],
        decreases k.len(),
    {
        match self.step(k) {
            Some(c) => {
                let k2 = k.skip(c.label_seq().len() as int);
                c.lemma_path_links(k2);
                let p = self.path(k);
                assert(p == seq![*c] + c.path(k2));
                assert(c.label_seq()[0] == k[0]);
                assert forall|i: int| 0 <= i < p.len() - 1 implies (#[trigger] p[i]).children().contains_key(
                    p[i + 1].label_seq()[0],
                ) && *p[i].children()[p[i + 1].label_seq()[0]] == p[i + 1] by {
                    assert(p[i + 1] == c.path(k2)[i]);
                    if i > 0 {
                        assert(p[i] == c.path(k2)[i - 1]);
                    }
                }
            },
            None => {},
        }
    }

    /// Below a node with well-formed children every node on a path is well-formed.
    pub proof fn lemma_last_wf(&self, k: Seq<u8>)
        requires
            self.children_wf(),
        ensures
            self.last(k).children_wf(),
            self.path(k).len() > 0 ==> self.last(k).wf_sub() && self.last(k) == self.path(k).last(),
            self.path(k).len() == 0 ==> self.last(k) == *self,
            forall|i: int| 0 <= i < self.path(k).len() ==> (#[trigger] self.path(k)[i]).wf_sub(),
        decreases k.len(),
    {
        match self.step(k) {
            Some(c) => {
                let k2 = k.skip(c.label_seq().len() as int);
                c.lemma_last_wf(k2);
                assert(self.path(k) == seq![*c] + c.path(k2));
                assert forall|i: int| 0 <= i < self.path(k).len() implies (#[trigger] self.path(
                    k,
                )[i]).wf_sub() by {
                    if i > 0 {
                        assert(self.path(k)[i] == c.path(k2)[i - 1]);
                    }
                }
            },
            None => {},
        }
    }
}

impl<V> Default for Node<V> {
    fn default() -> (r: Self)
        ensures
            r.wf_root(),
            r.children() == Map::<u8, Box<Node<V>>>::empty(),
    {
        Node { label: None, value: None, tag: NodeType::Inner, edges: HashMap::new() }
    }
}

} // verus!
