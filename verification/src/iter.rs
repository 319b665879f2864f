use crate::node::harvest::{
    harvest_sum, lemma_count_children, lemma_harvest_children, lemma_harvest_concat,
    lemma_harvest_push, lemma_sum_concat, lists_children, Item,
};
use crate::node::{lemma_sum_push, sum_counts, Node};
use crate::query::{holds, key_list, keys_below};
use vstd::multiset::Multiset;
use vstd::prelude::*;

verus! {

/// What an iteration hands out.
#[derive(Debug, Copy, Clone, PartialEq, Eq, Structural)]
pub enum IterationType {
    Labels,
    Values,
    ValuesMut,
    LabelsValues,
    LabelsValuesMut,
    ValuesOwned,
}

/// One step of an iteration, by kind.
pub enum NextType<'a, V> {
    LabelRef(Option<&'a [u8]>),
    ValueRef(Option<&'a V>),
    ValueRefMut(Option<&'a mut V>),
    ValueOwned(Option<V>),
    LeafPairRef(Option<(&'a [u8], &'a V)>),
    LeafPairRefMut(Option<(&'a [u8], &'a mut V)>),
}

/// A walk through all nodes of a subtree, depth first, over a stack of the
/// nodes still to visit. The order among the children of a node is the order
/// in which its table hands them out.
pub struct BaseIter<'a, V> {
    stack: Vec<&'a Node<V>>,
    size: usize,
}

/// A walk through all nodes of a subtree that takes the nodes apart.
pub struct BaseIterOwned<V> {
    stack: Vec<Node<V>>,
}

impl<'a, V> BaseIter<'a, V> {
    /// The nodes whose subtrees are still to visit.
    pub closed spec fn nodes(&self) -> Seq<Node<V>> {
        self.stack@.map_values(|n: &Node<V>| *n)
    }

    /// The number of keys that the iteration was made with.
    pub closed spec fn size_view(&self) -> usize {
        self.size
    }

    /// Every subtree still to visit has well-formed children.
    pub open spec fn wf(&self) -> bool {
        forall|i: int| 0 <= i < self.nodes().len() ==> (#[trigger] self.nodes()[i]).children_wf()
    }

    /// What an iteration of kind `t` has still to hand out.
    pub open spec fn pending(&self, t: IterationType) -> Multiset<Item<V>> {
        harvest_sum(self.nodes(), t)
    }

    pub fn new(node: &'a Node<V>, size: usize) -> (r: Self)
        ensures
            r.nodes() == seq![*node],
            r.size_view() == size,
    {
        let mut stack: Vec<&'a Node<V>> = Vec::new();
        stack.push(node);
        let r = BaseIter { stack, size };
        assert(r.nodes() =~= seq![*node]);
        r
    }

    /// The next node, in the order of the walk, that has what `itype` asks
    /// for, and with it the nodes before it that have not.
    pub fn next(&mut self, itype: IterationType) -> (r: Option<NextType<'a, V>>)
        requires
            old(self).wf(),
            itype is Labels || itype is Values || itype is LabelsValues,
        ensures
            final(self).wf(),
            final(self).size_view() == old(self).size_view(),
            match r {
                None => old(self).pending(itype).len() == 0 && final(self).nodes().len() == 0,
                Some(NextType::LabelRef(Some(l))) => itype is Labels && old(self).pending(itype)
                    == final(self).pending(itype).insert((Some(l@), None)),
                Some(NextType::ValueRef(Some(v))) => itype is Values && old(self).pending(itype)
                    == final(self).pending(itype).insert((None, Some(*v))),
                Some(NextType::LeafPairRef(Some((l, v)))) => itype is LabelsValues && old(self).pending(itype) == final(self).pending(itype).insert((Some(l@), Some(*v))),
                Some(_) => false,
            },
    {
        loop
            invariant
                self.wf(),
                self.size_view() == old(self).size_view(),
                self.pending(itype) == old(self).pending(itype),
                itype is Labels || itype is Values || itype is LabelsValues,
            decreases sum_counts(self.nodes(), true),
        {
            let ghost nodes0 = self.nodes();
            match self.stack.pop() {
                None => {
                    assert(self.nodes() =~= Seq::<Node<V>>::empty());
                    return None;
                },
                Some(n) => {
                    let view = n.node_view();
                    let ghost rest = self.nodes();
                    let ghost kids = view.nodes();
                    proof {
                        assert(rest =~= nodes0.drop_last());
                        assert(nodes0.last() == *n);
                        assert(n.children_wf());
                        assert(kids.take(0) =~= Seq::<Node<V>>::empty());
                        assert(rest + kids.take(0) =~= rest);
                    }
                    let mut i: usize = 0;
                    while i < view.edges.len()
                        invariant
                            i <= view.edges@.len(),
                            kids == view.nodes(),
                            self.size_view() == old(self).size_view(),
                            self.nodes() == rest + kids.take(i as int),
                            harvest_sum(self.nodes(), itype) == harvest_sum(rest, itype).add(
                                harvest_sum(kids.take(i as int), itype),
                            ),
                            sum_counts(self.nodes(), true) == sum_counts(rest, true) + sum_counts(
                                kids.take(i as int),
                                true,
                            ),
                        decreases view.edges@.len() - i,
                    {
                        let ghost before = self.nodes();
                        let child: &'a Node<V> = view.edges[i];
                        self.stack.push(child);
                        proof {
                            assert(self.nodes() =~= before.push(*child));
                            assert(kids.take(i + 1) =~= kids.take(i as int).push(*child));
                            assert(self.nodes() =~= rest + kids.take(i + 1));
                            lemma_harvest_push(before, *child, itype);
                            lemma_harvest_push(kids.take(i as int), *child, itype);
                            lemma_sum_push(before, *child, true);
                            lemma_sum_push(kids.take(i as int), *child, true);
                            assert(harvest_sum(self.nodes(), itype) =~= harvest_sum(rest, itype).add(
                                harvest_sum(kids.take(i + 1), itype),
                            ));
                        }
                        i += 1;
                    }
                    proof {
                        assert(kids.take(i as int) =~= kids);
                        lemma_harvest_children(n.children(), view.keys@, kids, itype);
                        lemma_count_children(n.children(), view.keys@, kids, true);
                        assert(harvest_sum(nodes0, itype) =~= harvest_sum(self.nodes(), itype).add(
                            n.own_harvest(itype),
                        ));
                        assert forall|j: int| 0 <= j < self.nodes().len() implies (
                        #[trigger] self.nodes()[j]).children_wf() by {
                            if j < rest.len() {
                                assert(self.nodes()[j] == nodes0[j]);
                            } else {
                                let b = view.keys@[j - rest.len()];
                                assert(n.children().contains_key(b));
                            }
                        }
                    }
                    match itype {
                        IterationType::Labels => {
                            if view.label.is_some() {
                                return Some(NextType::LabelRef(view.label));
                            }
                        },
                        IterationType::Values => {
                            if view.value.is_some() {
                                return Some(NextType::ValueRef(view.value));
                            }
                        },
                        IterationType::LabelsValues => {
                            if view.label.is_some() && view.value.is_some() {
                                return Some(
                                    NextType::LeafPairRef(
                                        Some((view.label.unwrap(), view.value.unwrap())),
                                    ),
                                );
                            }
                        },
                        _ => {
                            assert(false);
                        },
                    }
                    assert(n.own_harvest(itype) =~= Multiset::<Item<V>>::empty());
                    assert(harvest_sum(nodes0, itype) =~= harvest_sum(self.nodes(), itype));
                },
            }
        }
    }

    #[inline]
    pub fn size_hint(&self) -> (r: (usize, Option<usize>))
        ensures
            r == (self.size_view(), Some(self.size_view())),
    {
        (self.size, Some(self.size))
    }
}

impl<'a, V> Default for BaseIter<'a, V> {
    fn default() -> (r: Self)
        ensures
            r.nodes() == Seq::<Node<V>>::empty(),
            r.size_view() == 0,
    {
        let r = BaseIter { stack: Vec::new(), size: 0 };
        assert(r.nodes() =~= Seq::<Node<V>>::empty());
        r
    }
}

impl<V> BaseIterOwned<V> {
    /// The nodes whose subtrees are still to visit.
    pub closed spec fn nodes(&self) -> Seq<Node<V>> {
        self.stack@
    }

    /// Every subtree still to visit has well-formed children.
    pub open spec fn wf(&self) -> bool {
        forall|i: int| 0 <= i < self.nodes().len() ==> (#[trigger] self.nodes()[i]).children_wf()
    }

    /// The values that the iteration has still to hand out.
    pub open spec fn pending(&self) -> Multiset<Item<V>> {
        harvest_sum(self.nodes(), IterationType::ValuesOwned)
    }

    pub fn new(node: Node<V>) -> (r: Self)
        ensures
            r.nodes() == seq![node],
    {
        let mut stack: Vec<Node<V>> = Vec::new();
        stack.push(node);
        BaseIterOwned { stack }
    }

    /// The value of the next node, in the order of the walk, that has one.
    pub fn next(&mut self, itype: IterationType) -> (r: Option<NextType<'_, V>>)
        requires
            old(self).wf(),
            itype is ValuesOwned,
        ensures
            final(self).wf(),
            match r {
                None => old(self).pending().len() == 0 && final(self).nodes().len() == 0,
                Some(NextType::ValueOwned(Some(v))) => old(self).pending() == final(self).pending().insert((None, Some(v))),
                Some(_) => false,
            },
    {
        loop
            invariant
                self.wf(),
                self.pending() == old(self).pending(),
                itype is ValuesOwned,
            decreases sum_counts(self.nodes(), true),
        {
            let ghost nodes0 = self.nodes();
            match self.stack.pop() {
                None => {
                    return None;
                },
                Some(n) => {
                    let ghost rest = self.nodes();
                    let view_owned = n.node_view_owned();
                    let value = view_owned.value;
                    let mut edges = view_owned.edges;
                    let ghost kids = edges@;
                    self.stack.append(&mut edges);
                    proof {
                        let keys = choose|keys: Seq<u8>| lists_children(n.children(), keys, kids);
                        assert(rest =~= nodes0.drop_last());
                        lemma_harvest_concat(rest, kids, itype);
                        lemma_sum_concat(rest, kids, true);
                        lemma_harvest_children(n.children(), keys, kids, itype);
                        lemma_count_children(n.children(), keys, kids, true);
                        assert(harvest_sum(nodes0, itype) =~= harvest_sum(self.nodes(), itype).add(
                            n.own_harvest(itype),
                        ));
                        assert forall|j: int| 0 <= j < self.nodes().len() implies (
                        #[trigger] self.nodes()[j]).children_wf() by {
                            if j < rest.len() {
                                assert(self.nodes()[j] == nodes0[j]);
                            } else {
                                let b = keys[j - rest.len()];
                                assert(n.children().contains_key(b));
                            }
                        }
                    }
                    match itype {
                        IterationType::ValuesOwned => {
                            if value.is_some() {
                                return Some(NextType::ValueOwned(value));
                            }
                        },
                        _ => {
                            assert(false);
                        },
                    }
                    assert(n.own_harvest(itype) =~= Multiset::<Item<V>>::empty());
                    assert(harvest_sum(nodes0, itype) =~= harvest_sum(self.nodes(), itype));
                },
            }
        }
    }
}

impl<V> Default for BaseIterOwned<V> {
    fn default() -> (r: Self)
        ensures
            r.nodes() == Seq::<Node<V>>::empty(),
    {
        BaseIterOwned { stack: Vec::new() }
    }
}

/// Hands out the label of every node that has one.
pub struct LabelsIter<'a, V>(BaseIter<'a, V>);

/// Hands out the value of every key.
pub struct ValuesIter<'a, V>(BaseIter<'a, V>);

/// Hands out, for every key, the label of its node and its value.
pub struct LeafPairsIter<'a, V>(BaseIter<'a, V>);

/// Hands out the value of every key and takes the trie apart.
pub struct IntoIter<V>(BaseIterOwned<V>);

impl<'a, V> LabelsIter<'a, V> {
    pub closed spec fn base(&self) -> BaseIter<'a, V> {
        self.0
    }

    pub open spec fn wf(&self) -> bool {
        self.base().wf()
    }

    /// The labels still to hand out.
    pub open spec fn pending(&self) -> Multiset<Item<V>> {
        self.base().pending(IterationType::Labels)
    }

    pub fn new(node: &'a Node<V>, size: usize) -> (r: Self)
        ensures
            r.base().nodes() == seq![*node],
            r.base().size_view() == size,
    {
        LabelsIter(BaseIter::new(node, size))
    }

    pub fn next(&mut self) -> (r: Option<&'a [u8]>)
        requires
            old(self).wf(),
        ensures
            final(self).wf(),
            final(self).base().size_view() == old(self).base().size_view(),
            match r {
                Some(l) => old(self).pending() == final(self).pending().insert((Some(l@), None)),
                None => old(self).pending().len() == 0 && final(self).pending().len() == 0,
            },
    {
        match self.0.next(IterationType::Labels) {
            Some(NextType::LabelRef(l)) => l,
            Some(_) => {
                assert(false);
                None
            },
            None => None,
        }
    }

    pub fn size_hint(&self) -> (r: (usize, Option<usize>))
        ensures
            r == (self.base().size_view(), Some(self.base().size_view())),
    {
        self.0.size_hint()
    }
}

impl<'a, V> Default for LabelsIter<'a, V> {
    fn default() -> (r: Self)
        ensures
            r.base().nodes() == Seq::<Node<V>>::empty(),
            r.base().size_view() == 0,
    {
        LabelsIter(BaseIter::default())
    }
}

impl<'a, V> ValuesIter<'a, V> {
    pub closed spec fn base(&self) -> BaseIter<'a, V> {
        self.0
    }

    pub open spec fn wf(&self) -> bool {
        self.base().wf()
    }

    /// The values still to hand out.
    pub open spec fn pending(&self) -> Multiset<Item<V>> {
        self.base().pending(IterationType::Values)
    }

    pub fn new(node: &'a Node<V>, size: usize) -> (r: Self)
        ensures
            r.base().nodes() == seq![*node],
            r.base().size_view() == size,
    {
        ValuesIter(BaseIter::new(node, size))
    }

    pub fn next(&mut self) -> (r: Option<&'a V>)
        requires
            old(self).wf(),
        ensures
            final(self).wf(),
            final(self).base().size_view() == old(self).base().size_view(),
            match r {
                Some(v) => old(self).pending() == final(self).pending().insert((None, Some(*v))),
                None => old(self).pending().len() == 0 && final(self).pending().len() == 0,
            },
    {
        match self.0.next(IterationType::Values) {
            Some(NextType::ValueRef(v)) => v,
            Some(_) => {
                assert(false);
                None
            },
            None => None,
        }
    }

    pub fn size_hint(&self) -> (r: (usize, Option<usize>))
        ensures
            r == (self.base().size_view(), Some(self.base().size_view())),
    {
        self.0.size_hint()
    }
}

impl<'a, V> Default for ValuesIter<'a, V> {
    fn default() -> (r: Self)
        ensures
            r.base().nodes() == Seq::<Node<V>>::empty(),
            r.base().size_view() == 0,
    {
        ValuesIter(BaseIter::default())
    }
}

impl<'a, V> LeafPairsIter<'a, V> {
    pub closed spec fn base(&self) -> BaseIter<'a, V> {
        self.0
    }

    pub open spec fn wf(&self) -> bool {
        self.base().wf()
    }

    /// The pairs still to hand out.
    pub open spec fn pending(&self) -> Multiset<Item<V>> {
        self.base().pending(IterationType::LabelsValues)
    }

    pub fn new(node: &'a Node<V>, size: usize) -> (r: Self)
        ensures
            r.base().nodes() == seq![*node],
            r.base().size_view() == size,
    {
        LeafPairsIter(BaseIter::new(node, size))
    }

    pub fn next(&mut self) -> (r: Option<(&'a [u8], &'a V)>)
        requires
            old(self).wf(),
        ensures
            final(self).wf(),
            final(self).base().size_view() == old(self).base().size_view(),
            match r {
                Some((l, v)) => old(self).pending() == final(self).pending().insert(
                    (Some(l@), Some(*v)),
                ),
                None => old(self).pending().len() == 0 && final(self).pending().len() == 0,
            },
    {
        match self.0.next(IterationType::LabelsValues) {
            Some(NextType::LeafPairRef(p)) => p,
            Some(_) => {
                assert(false);
                None
            },
            None => None,
        }
    }

    pub fn size_hint(&self) -> (r: (usize, Option<usize>))
        ensures
            r == (self.base().size_view(), Some(self.base().size_view())),
    {
        self.0.size_hint()
    }
}

impl<'a, V> Default for LeafPairsIter<'a, V> {
    fn default() -> (r: Self)
        ensures
            r.base().nodes() == Seq::<Node<V>>::empty(),
            r.base().size_view() == 0,
    {
        LeafPairsIter(BaseIter::default())
    }
}

impl<V> IntoIter<V> {
    pub closed spec fn base(&self) -> BaseIterOwned<V> {
        self.0
    }

    pub open spec fn wf(&self) -> bool {
        self.base().wf()
    }

    /// The values still to hand out.
    pub open spec fn pending(&self) -> Multiset<Item<V>> {
        self.base().pending()
    }

    pub fn new(node: Node<V>) -> (r: Self)
        ensures
            r.base().nodes() == seq![node],
    {
        IntoIter(BaseIterOwned::new(node))
    }

    pub fn next(&mut self) -> (r: Option<V>)
        requires
            old(self).wf(),
        ensures
            final(self).wf(),
            match r {
                Some(v) => old(self).pending() == final(self).pending().insert((None, Some(v))),
                None => old(self).pending().len() == 0 && final(self).pending().len() == 0,
            },
    {
        match self.0.next(IterationType::ValuesOwned) {
            Some(NextType::ValueOwned(v)) => v,
            Some(_) => {
                assert(false);
                None
            },
            None => None,
        }
    }
}

impl<V> Default for IntoIter<V> {
    fn default() -> (r: Self)
        ensures
            r.base().nodes() == Seq::<Node<V>>::empty(),
    {
        IntoIter(BaseIterOwned::default())
    }
}

/// A walk through the keys of a trie that lends each value for writing. It
/// holds the root for the time of the walk and the keys still to visit, and
/// reaches each value from the root.
pub struct BaseIterMut<'a, V> {
    pub root: Option<&'a mut Node<V>>,
    pub stack: Vec<Vec<u8>>,
    pub size: usize,
}

impl<'a, V> BaseIterMut<'a, V> {
    /// The keys still to visit; the last one comes next.
    pub open spec fn keys(&self) -> Seq<Seq<u8>> {
        key_list(self.stack@)
    }

    /// The number of keys that the iteration was made with.
    pub open spec fn size_view(&self) -> usize {
        self.size
    }

    /// The root is well-formed, and the keys still to visit are keys of the
    /// trie, each listed once.
    pub open spec fn wf(&self) -> bool {
        match self.root {
            Some(root) => {
                &&& root.wf_root()
                &&& self.keys().no_duplicates()
                &&& forall|i: int|
                    0 <= i < self.keys().len() ==> root@.contains_key(#[trigger] self.keys()[i])
            },
            None => self.keys().len() == 0,
        }
    }

    pub fn new(node: &'a mut Node<V>, size: usize) -> (r: Self)
        requires
            old(node).wf_root(),
        ensures
            r.wf(),
            r.size_view() == size,
            r.root matches Some(x) && *x == *old(node) && *final(x) == *final(node),
            forall|k: Seq<u8>| #[trigger] r.keys().contains(k) <==> old(node)@.contains_key(k),
    {
        let keys = keys_below(&*node, Vec::new());
        proof {
            assert forall|k: Seq<u8>| #[trigger] key_list(keys@).contains(k) <==> node@.contains_key(
                k,
            ) by {
                assert(k.skip(0) =~= k);
                assert(Seq::<u8>::empty().is_prefix_of(k));
                assert(holds(*node, Seq::<u8>::empty(), k) <==> node@.contains_key(k));
            }
            assert forall|i: int| 0 <= i < key_list(keys@).len() implies node@.contains_key(
                #[trigger] key_list(keys@)[i],
            ) by {
                assert(key_list(keys@).contains(key_list(keys@)[i]));
            }
        }
        BaseIterMut { root: Some(node), stack: keys, size }
    }

    /// The value of the next key, for writing, and with it the label of its
    /// node where `itype` asks for pairs.
    pub fn next(&mut self, itype: IterationType) -> (r: Option<NextType<'_, V>>)
        requires
            old(self).wf(),
            itype is ValuesMut || itype is LabelsValuesMut,
        ensures
            r is Some <==> old(self).keys().len() > 0,
            final(self).wf(),
            final(self).size_view() == old(self).size_view(),
            old(self).root is None ==> final(self).root is None,
            old(self).root is Some ==> final(self).root is Some
                && *final(final(self).root->0) == *final(old(self).root->0),
            match r {
                None => final(self).keys() == old(self).keys() && (old(self).root is Some
                    ==> *final(self).root->0 == *old(self).root->0),
                Some(step) => {
                    let k = old(self).keys().last();
                    let before = *old(self).root->0;
                    let after = *final(self).root->0;
                    &&& final(self).keys() == old(self).keys().drop_last()
                    &&& after.key_count() == before.key_count()
                    &&& match step {
                        NextType::ValueRefMut(Some(v)) => itype is ValuesMut && *v == before@[k]
                            && after@ == before@.insert(k, *final(v)),
                        NextType::LeafPairRefMut(Some((l, v))) => itype is LabelsValuesMut && Some(
                            l@,
                        ) == before.last(k).label_view() && *v == before@[k] && after@
                            == before@.insert(k, *final(v)),
                        _ => false,
                    }
                },
            },
    {
        let ghost keys0 = self.keys();
        match self.stack.pop() {
            None => None,
            Some(key) => {
                proof {
                    assert(self.keys() =~= keys0.drop_last());
                    assert(key@ == keys0.last());
                    assert(keys0.drop_last().no_duplicates());
                    assert forall|i: int| 0 <= i < keys0.len() - 1 implies keys0.drop_last()[i]
                        == keys0[i] by {}
                }
                match &mut self.root {
                    Some(root) => match root.search_mut(key.as_slice()) {
                        Some((label, value)) => {
                            match itype {
                                IterationType::ValuesMut => Some(
                                    NextType::ValueRefMut(Some(value)),
                                ),
                                _ => Some(NextType::LeafPairRefMut(Some((label, value)))),
                            }
                        },
                        None => {
                            assert(false);
                            None
                        },
                    },
                    None => {
                        assert(false);
                        None
                    },
                }
            },
        }
    }

    #[inline]
    pub fn size_hint(&self) -> (r: (usize, Option<usize>))
        ensures
            r == (self.size_view(), Some(self.size_view())),
    {
        (self.size, Some(self.size))
    }
}

impl<'a, V> Default for BaseIterMut<'a, V> {
    fn default() -> (r: Self)
        ensures
            r.wf(),
            r.root is None,
            r.keys() == Seq::<Seq<u8>>::empty(),
            r.size_view() == 0,
    {
        let r = BaseIterMut { root: None, stack: Vec::new(), size: 0 };
        assert(r.keys() =~= Seq::<Seq<u8>>::empty());
        r
    }
}

/// Lends the value of every key for writing.
pub struct ValuesIterMut<'a, V>(pub BaseIterMut<'a, V>);

/// Lends, for every key, the label of its node for reading and its value for writing.
pub struct LeafPairsIterMut<'a, V>(pub BaseIterMut<'a, V>);

impl<'a, V> ValuesIterMut<'a, V> {
    pub fn new(node: &'a mut Node<V>, size: usize) -> (r: Self)
        requires
            old(node).wf_root(),
        ensures
            r.0.wf(),
            r.0.size_view() == size,
            r.0.root matches Some(x) && *x == *old(node) && *final(x) == *final(node),
            forall|k: Seq<u8>| #[trigger] r.0.keys().contains(k) <==> old(node)@.contains_key(k),
    {
        ValuesIterMut(BaseIterMut::new(node, size))
    }

    /// The value of the next key, for writing.
    pub fn next(&mut self) -> (r: Option<&mut V>)
        requires
            old(self).0.wf(),
        ensures
            r is Some <==> old(self).0.keys().len() > 0,
            final(self).0.wf(),
            final(self).0.size_view() == old(self).0.size_view(),
            old(self).0.root is None ==> final(self).0.root is None,
            old(self).0.root is Some ==> final(self).0.root is Some
                && *final(final(self).0.root->0) == *final(old(self).0.root->0),
            match r {
                None => final(self).0.keys() == old(self).0.keys() && (old(self).0.root is Some
                    ==> *final(self).0.root->0 == *old(self).0.root->0),
                Some(v) => {
                    let k = old(self).0.keys().last();
                    let before = *old(self).0.root->0;
                    let after = *final(self).0.root->0;
                    &&& final(self).0.keys() == old(self).0.keys().drop_last()
                    &&& after.key_count() == before.key_count()
                    &&& *v == before@[k]
                    &&& after@ == before@.insert(k, *final(v))
                },
            },
    {
        match self.0.next(IterationType::ValuesMut) {
            Some(NextType::ValueRefMut(v)) => v,
            Some(_) => {
                assert(false);
                None
            },
            None => None,
        }
    }

    pub fn size_hint(&self) -> (r: (usize, Option<usize>))
        ensures
            r == (self.0.size_view(), Some(self.0.size_view())),
    {
        self.0.size_hint()
    }
}

impl<'a, V> Default for ValuesIterMut<'a, V> {
    fn default() -> (r: Self)
        ensures
            r.0.wf(),
            r.0.root is None,
            r.0.keys() == Seq::<Seq<u8>>::empty(),
            r.0.size_view() == 0,
    {
        ValuesIterMut(BaseIterMut::default())
    }
}

impl<'a, V> LeafPairsIterMut<'a, V> {
    pub fn new(node: &'a mut Node<V>, size: usize) -> (r: Self)
        requires
            old(node).wf_root(),
        ensures
            r.0.wf(),
            r.0.size_view() == size,
            r.0.root matches Some(x) && *x == *old(node) && *final(x) == *final(node),
            forall|k: Seq<u8>| #[trigger] r.0.keys().contains(k) <==> old(node)@.contains_key(k),
    {
        LeafPairsIterMut(BaseIterMut::new(node, size))
    }

    /// The label of the node of the next key, and its value for writing.
    pub fn next(&mut self) -> (r: Option<(&[u8], &mut V)>)
        requires
            old(self).0.wf(),
        ensures
            r is Some <==> old(self).0.keys().len() > 0,
            final(self).0.wf(),
            final(self).0.size_view() == old(self).0.size_view(),
            old(self).0.root is None ==> final(self).0.root is None,
            old(self).0.root is Some ==> final(self).0.root is Some
                && *final(final(self).0.root->0) == *final(old(self).0.root->0),
            match r {
                None => final(self).0.keys() == old(self).0.keys() && (old(self).0.root is Some
                    ==> *final(self).0.root->0 == *old(self).0.root->0),
                Some((l, v)) => {
                    let k = old(self).0.keys().last();
                    let before = *old(self).0.root->0;
                    let after = *final(self).0.root->0;
                    &&& final(self).0.keys() == old(self).0.keys().drop_last()
                    &&& after.key_count() == before.key_count()
                    &&& Some(l@) == before.last(k).label_view()
                    &&& *v == before@[k]
                    &&& after@ == before@.insert(k, *final(v))
                },
            },
    {
        match self.0.next(IterationType::LabelsValuesMut) {
            Some(NextType::LeafPairRefMut(p)) => p,
            Some(_) => {
                assert(false);
                None
            },
            None => None,
        }
    }

    pub fn size_hint(&self) -> (r: (usize, Option<usize>))
        ensures
            r == (self.0.size_view(), Some(self.0.size_view())),
    {
        self.0.size_hint()
    }
}

impl<'a, V> Default for LeafPairsIterMut<'a, V> {
    fn default() -> (r: Self)
        ensures
            r.0.wf(),
            r.0.root is None,
            r.0.keys() == Seq::<Seq<u8>>::empty(),
            r.0.size_view() == 0,
    {
        LeafPairsIterMut(BaseIterMut::default())
    }
}

impl<V> Node<V> {
    /// An iteration over the keys below this node: for each, the label of
    /// its node and its value.
    pub fn iter(&self, size: usize) -> (r: LeafPairsIter<'_, V>)
        ensures
            r.base().nodes() == seq![*self],
            r.base().size_view() == size,
    {
        LeafPairsIter::new(self, size)
    }

    /// An iteration over the keys below this root that lends, for each, the
    /// label of its node for reading and its value for writing.
    pub fn iter_mut(&mut self, size: usize) -> (r: LeafPairsIterMut<'_, V>)
        requires
            old(self).wf_root(),
        ensures
            r.0.wf(),
            r.0.size_view() == size,
            r.0.root matches Some(x) && *x == *old(self) && *final(x) == *final(self),
            forall|k: Seq<u8>| #[trigger] r.0.keys().contains(k) <==> old(self)@.contains_key(k),
    {
        LeafPairsIterMut::new(self, size)
    }

    /// An iteration over the labels of this node and of all nodes below it.
    pub fn labels(&self, size: usize) -> (r: LabelsIter<'_, V>)
        ensures
            r.base().nodes() == seq![*self],
            r.base().size_view() == size,
    {
        LabelsIter::new(self, size)
    }

    /// An iteration over the values stored at this node and below it.
    pub fn values(&self, size: usize) -> (r: ValuesIter<'_, V>)
        ensures
            r.base().nodes() == seq![*self],
            r.base().size_view() == size,
    {
        ValuesIter::new(self, size)
    }

    /// An iteration over the keys below this root that lends each value for writing.
    pub fn values_mut(&mut self, size: usize) -> (r: ValuesIterMut<'_, V>)
        requires
            old(self).wf_root(),
        ensures
            r.0.wf(),
            r.0.size_view() == size,
            r.0.root matches Some(x) && *x == *old(self) && *final(x) == *final(self),
            forall|k: Seq<u8>| #[trigger] r.0.keys().contains(k) <==> old(self)@.contains_key(k),
    {
        ValuesIterMut::new(self, size)
    }
}

} // verus!
