use crate::node::harvest::lists_children;
use crate::node::Node;
use vstd::prelude::*;

verus! {

broadcast use vstd::std_specs::hash::group_hash_axioms;

/// The parts of a node side by side: label, value, and the children with
/// their edge bytes, in the order in which the table hands them out.
pub struct NodeView<'a, V> {
    pub label: Option<&'a [u8]>,
    pub value: Option<&'a V>,
    pub edges: Vec<&'a Node<V>>,
    pub keys: Vec<u8>,
}

/// The label of a node, for reading, beside its value, for writing.
pub struct NodeViewMut<'a, V> {
    pub label: Option<&'a [u8]>,
    pub value: Option<&'a mut V>,
}

/// The parts of a node that was taken apart: its value and its children.
pub struct NodeViewOwned<V> {
    pub value: Option<V>,
    pub edges: Vec<Node<V>>,
}

impl<'a, V> NodeView<'a, V> {
    pub fn new(
        label: Option<&'a [u8]>,
        value: Option<&'a V>,
        edges: Vec<&'a Node<V>>,
        keys: Vec<u8>,
    ) -> (r: Self)
        ensures
            r.label == label,
            r.value == value,
            r.edges == edges,
            r.keys == keys,
    {
        NodeView { label, value, edges, keys }
    }

    /// The children as nodes.
    pub open spec fn nodes(&self) -> Seq<Node<V>> {
        self.edges@.map_values(|n: &Node<V>| *n)
    }
}

impl<'a, V> NodeViewMut<'a, V> {
    pub fn new(label: Option<&'a [u8]>, value: Option<&'a mut V>) -> (r: Self)
        ensures
            r.label == label,
            r.value == value,
    {
        NodeViewMut { label, value }
    }
}

impl<V> NodeViewOwned<V> {
    pub fn new(value: Option<V>, edges: Vec<Node<V>>) -> (r: Self)
        ensures
            r.value == value,
            r.edges == edges,
    {
        NodeViewOwned { value, edges }
    }
}

impl<V> Node<V> {
    /// The parts of this node, for reading.
    pub fn node_view(&self) -> (r: NodeView<'_, V>)
        ensures
            match r.label {
                Some(l) => self.label_view() == Some(l@),
                None => self.label_view() is None,
            },
            match r.value {
                Some(v) => self.value_view() == Some(*v),
                None => self.value_view() is None,
            },
            lists_children(self.children(), r.keys@, r.nodes()),
    {
        let list = self.edge_list();
        let mut edges: Vec<&Node<V>> = Vec::new();
        let mut keys: Vec<u8> = Vec::new();
        let mut i: usize = 0;
        while i < list.len()
            invariant
                i <= list@.len(),
                edges@.len() == i,
                keys@.len() == i,
                forall|j: int| 0 <= j < i ==> keys@[j] == list@[j].0 && edges@[j] == list@[j].1,
            decreases list@.len() - i,
        {
            keys.push(list[i].0);
            edges.push(list[i].1);
            i += 1;
        }
        let value: Option<&V> = match &self.value {
            Some(b) => Some(&**b),
            None => None,
        };
        let view = NodeView::new(self.label(), value, edges, keys);
        proof {
            let ks = view.keys@;
            let ns = view.nodes();
            assert forall|a: int, b: int| 0 <= a < ks.len() && 0 <= b < ks.len() && a != b implies ks[a]
                != ks[b] by {
                if a < b {
                    assert(list@[a].0 != list@[b].0);
                } else {
                    assert(list@[b].0 != list@[a].0);
                }
            }
            assert forall|j: int| 0 <= j < ks.len() implies self.children().contains_key(#[trigger] ks[j])
                && *self.children()[ks[j]] == ns[j] by {
                assert(self.children().contains_key(list@[j].0));
            }
            assert forall|b: u8| self.children().contains_key(b) implies ks.contains(b) by {
                let j = choose|j: int| 0 <= j < list@.len() && (#[trigger] list@[j]).0 == b;
                assert(ks[j] == b);
            }
        }
        view
    }

    /// The label of this node, for reading, beside its value, for writing.
    pub fn node_view_mut(&mut self) -> (r: NodeViewMut<'_, V>)
        ensures
            match r.label {
                Some(l) => old(self).label_view() == Some(l@),
                None => old(self).label_view() is None,
            },
            match r.value {
                Some(v) => old(self).value_view() == Some(*v) && final(self).value_view() == Some(
                    *final(v),
                ),
                None => old(self).value_view() is None && final(self).value_view() is None,
            },
            final(self).label_view() == old(self).label_view(),
            final(self).tag_view() == old(self).tag_view(),
            final(self).children() == old(self).children(),
    {
        let label: Option<&[u8]> = match &self.label {
            Some(l) => Some(l.as_slice()),
            None => None,
        };
        let value: Option<&mut V> = match &mut self.value {
            Some(b) => Some(&mut **b),
            None => None,
        };
        NodeViewMut::new(label, value)
    }

    /// Takes this node apart into its value and its children.
    pub fn node_view_owned(self) -> (r: NodeViewOwned<V>)
        ensures
            r.value == self.value_view(),
            exists|keys: Seq<u8>| lists_children(self.children(), keys, r.edges@),
    {
        let mut this = self;
        let ghost m0 = this.children();
        let keys: Vec<u8> = this.node_view().keys;
        let value = match this.value.take() {
            Some(b) => Some(*b),
            None => None,
        };
        let mut edges: Vec<Node<V>> = Vec::new();
        let mut i: usize = 0;
        while i < keys.len()
            invariant
                i <= keys@.len(),
                keys@.no_duplicates(),
                forall|j: int| 0 <= j < keys@.len() ==> m0.contains_key(#[trigger] keys@[j]),
                forall|j: int|
                    i <= j < keys@.len() ==> this.edges@.contains_key(#[trigger] keys@[j])
                        && this.edges@[keys@[j]] == m0[keys@[j]],
                edges@.len() == i,
                forall|j: int| 0 <= j < i ==> edges@[j] == *m0[keys@[j]],
            decreases keys@.len() - i,
        {
            let child = this.edges.remove(&keys[i]).unwrap();
            edges.push(*child);
            i += 1;
        }
        proof {
            assert(lists_children(m0, keys@, edges@));
        }
        NodeViewOwned::new(value, edges)
    }
}

} // verus!
