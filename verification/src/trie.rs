use crate::iter::{
    IntoIter, IterationType, LabelsIter, LeafPairsIter, LeafPairsIterMut, ValuesIter, ValuesIterMut,
};
use crate::node::harvest::{lemma_harvest_one, Item};
use crate::node::Node;
use vstd::multiset::Multiset;
use crate::query::{all_keys, key_list, longest_prefix};
use vstd::prelude::*;

verus! {

/// A map from byte strings to values, kept as a radix trie: keys that share
/// a prefix share the nodes of that prefix, and a node that would have one
/// child and no value is merged with that child.
#[derive(Debug)]
pub struct Trie<V> {
    size: usize,
    root: Option<Node<V>>,
}

/// The map that a sequence of insertions builds, later pairs overwriting
/// earlier ones. Nothing is stored under the empty key.
pub open spec fn pairs_map<V>(pairs: Seq<(Seq<u8>, V)>) -> Map<Seq<u8>, V>
    decreases pairs.len(),
{
    if pairs.len() == 0 {
        Map::empty()
    } else {
        let before = pairs_map(pairs.drop_last());
        if pairs.last().0.len() == 0 {
            before
        } else {
            before.insert(pairs.last().0, pairs.last().1)
        }
    }
}

impl<V> View for Trie<V> {
    type V = Map<Seq<u8>, V>;

    /// The keys of the trie, each with its value.
    open spec fn view(&self) -> Map<Seq<u8>, V> {
        match self.root_view() {
            Some(root) => root@,
            None => Map::empty(),
        }
    }
}

impl<V> Trie<V> {
    /// The root node, once there has been an insertion.
    pub closed spec fn root_view(&self) -> Option<Node<V>> {
        self.root
    }

    /// The number of keys that the trie counts.
    pub closed spec fn len(&self) -> nat {
        self.size as nat
    }

    /// The root is well-formed, and the count is the number of values stored below it.
    pub open spec fn wf(&self) -> bool {
        match self.root_view() {
            Some(root) => root.wf_root() && self.len() == root.key_count(),
            None => self.len() == 0,
        }
    }

    /// A trie without keys.
    pub fn new() -> (r: Self)
        ensures
            r.wf(),
            r@ == Map::<Seq<u8>, V>::empty(),
            r.len() == 0,
            r.root_view() is None,
    {
        Trie { size: 0, root: None }
    }

    /// The value stored under `token`.
    pub fn search(&self, token: &[u8]) -> (r: Option<&V>)
        requires
            self.wf(),
        ensures
            match r {
                Some(v) => self@.contains_key(token@) && self@[token@] == *v,
                None => !self@.contains_key(token@),
            },
    {
        match &self.root {
            Some(n) => n.search(token),
            None => None,
        }
    }

    /// Stores `value` under `token` and returns the value that it replaces.
    /// Nothing is stored under the empty token.
    pub fn insert(&mut self, token: &[u8], value: V) -> (r: Option<V>)
        requires
            old(self).wf(),
            old(self).len() < usize::MAX,
        ensures
            final(self).wf(),
            token@.len() == 0 ==> r is None && final(self)@ == old(self)@ && final(self).len() == old(
                self,
            ).len(),
            token@.len() > 0 ==> {
                &&& final(self)@ == old(self)@.insert(token@, value)
                &&& r == (if old(self)@.contains_key(token@) {
                    Some(old(self)@[token@])
                } else {
                    None
                })
                &&& final(self).len() == old(self).len() + (if r is None {
                    1nat
                } else {
                    0nat
                })
            },
    {
        if token.len() == 0 {
            return None;
        }
        if self.root.is_none() {
            let fresh: Node<V> = Node::default();
            proof {
                crate::node::lemma_count_empty(fresh.children(), 256, false);
                assert(fresh@ =~= Map::<Seq<u8>, V>::empty()) by {
                    assert forall|k: Seq<u8>| fresh.lookup(k) is None by {
                        if k.len() > 0 {
                            assert(fresh.step(k) is None);
                        }
                    }
                }
            }
            self.root = Some(fresh);
        }
        let result = match self.root.as_mut() {
            Some(n) => n.insert(token, value),
            None => None,
        };
        if result.is_none() {
            self.size += 1;
        }
        result
    }

    /// Removes the value stored under `token` and returns it.
    pub fn remove(&mut self, token: &[u8]) -> (r: Option<V>)
        requires
            old(self).wf(),
        ensures
            final(self).wf(),
            final(self)@ == old(self)@.remove(token@),
            r == (if old(self)@.contains_key(token@) {
                Some(old(self)@[token@])
            } else {
                None
            }),
            final(self).len() + (if r is Some {
                1nat
            } else {
                0nat
            }) == old(self).len(),
    {
        let result = match self.root.as_mut() {
            Some(n) => n.remove(token),
            None => {
                assert(old(self)@.remove(token@) =~= old(self)@);
                None
            },
        };
        if result.is_some() {
            self.size -= 1;
        }
        result
    }

    /// The longest key that is a prefix of `token`. There is none where
    /// `token` parts from the trie inside a label with bytes of both left over.
    pub fn longest_prefix(&self, token: &[u8]) -> (r: Option<Vec<u8>>)
        requires
            self.wf(),
        ensures
            match r {
                Some(key) => {
                    &&& self@.contains_key(key@)
                    &&& key@.is_prefix_of(token@)
                    &&& forall|k: Seq<u8>|
                        #[trigger] self@.contains_key(k) && k.is_prefix_of(token@) ==> k.len()
                            <= key@.len()
                },
                None => (self.root_view() matches Some(root) && root.diverges(token@)) || forall|
                    k: Seq<u8>,
                | #[trigger] self@.contains_key(k) ==> !k.is_prefix_of(token@),
            },
            r is Some ==> (self.root_view() matches Some(root) && !root.diverges(token@)),
    {
        match &self.root {
            Some(n) => longest_prefix(n, token),
            None => None,
        }
    }

    /// All keys that begin with `token`, in no particular order. There are
    /// none to return where no walk along `token` ends at a node or inside a
    /// label, and for the empty token.
    pub fn all_keys(&self, token: &[u8]) -> (r: Option<Vec<Vec<u8>>>)
        requires
            self.wf(),
        ensures
            r is Some <==> (self.root_view() matches Some(root) && token@.len() > 0 && (root.rest(
                token@,
            ).len() == 0 || root.ends_in_label(token@))),
            match r {
                Some(keys) => {
                    &&& key_list(keys@).no_duplicates()
                    &&& forall|k: Seq<u8>|
                        #![trigger key_list(keys@).contains(k)]
                        #![trigger self@.contains_key(k)]
                        key_list(keys@).contains(k) <==> self@.contains_key(k) && token@.is_prefix_of(
                            k,
                        )
                },
                None => token@.len() > 0 ==> forall|k: Seq<u8>|
                    #[trigger] self@.contains_key(k) ==> !token@.is_prefix_of(k),
            },
    {
        match &self.root {
            Some(n) => all_keys(n, token),
            None => None,
        }
    }

    /// Whether the trie counts no key.
    pub fn is_empty(&self) -> (r: bool)
        ensures
            r == (self.len() == 0),
    {
        self.size == 0
    }

    /// Forgets every key.
    pub fn clear(&mut self)
        ensures
            final(self).wf(),
            final(self)@ == Map::<Seq<u8>, V>::empty(),
            final(self).len() == 0,
            final(self).root_view() is None,
    {
        self.root = None;
        self.size = 0
    }

    /// The root node, once there has been an insertion.
    pub fn root(&self) -> (r: Option<&Node<V>>)
        ensures
            match r {
                Some(n) => self.root_view() == Some(*n),
                None => self.root_view() is None,
            },
    {
        self.root.as_ref()
    }

    /// The trie that holds `pairs`, inserted one after the other: where a
    /// key comes twice, its last value stays.
    pub fn from_pairs(pairs: Vec<(Vec<u8>, V)>) -> (r: Self)
        ensures
            r.wf(),
            r@ == pairs_map(pairs@.map_values(|e: (Vec<u8>, V)| (e.0@, e.1))),
    {
        let mut trie = Trie::new();
        // the pairs are taken from the end, so they are turned round first
        let mut pairs = pairs;
        let ghost all = pairs@.map_values(|e: (Vec<u8>, V)| (e.0@, e.1));
        let ghost total = pairs@.len();
        let mut rest: Vec<(Vec<u8>, V)> = Vec::new();
        while pairs.len() > 0
            invariant
                rest@.len() + pairs@.len() == total,
                all.len() == total,
                forall|i: int| 0 <= i < pairs@.len() ==> all[i] == (#[trigger] pairs@[i].0@, pairs@[i].1),
                forall|i: int|
                    0 <= i < rest@.len() ==> all[total - 1 - i] == (#[trigger] rest@[i].0@, rest@[i].1),
            decreases pairs@.len(),
        {
            let e = pairs.pop().unwrap();
            rest.push(e);
        }
        let ghost mut done: int = 0;
        assert(all.take(0) =~= Seq::empty());
        assert(rest.len() == total);
        while rest.len() > 0
            invariant
                trie.wf(),
                all.len() == total,
                0 <= done <= total,
                rest@.len() + done == total,
                trie.len() <= done,
                total <= usize::MAX,
                trie@ == pairs_map(all.take(done)),
                forall|i: int|
                    0 <= i < rest@.len() ==> all[total - 1 - i] == (#[trigger] rest@[i].0@, rest@[i].1),
            decreases rest@.len(),
        {
            let (key, val) = rest.pop().unwrap();
            proof {
                assert(all.take(done + 1).drop_last() =~= all.take(done));
                assert(all.take(done + 1).last() == all[done]);
            }
            trie.insert(key.as_slice(), val);
            proof {
                done = done + 1;
            }
        }
        assert(all.take(total as int) =~= all);
        trie
    }
}

impl<V> Trie<V> {
    /// What an iteration of kind `t` finds in the trie.
    pub open spec fn harvest(&self, t: IterationType) -> Multiset<Item<V>> {
        match self.root_view() {
            Some(root) => root.harvest(t),
            None => Multiset::empty(),
        }
    }

    /// An iteration over the keys: for each, the label of its node and its value.
    pub fn iter(&self) -> (r: LeafPairsIter<'_, V>)
        requires
            self.wf(),
        ensures
            r.wf(),
            r.pending() == self.harvest(IterationType::LabelsValues),
            r.base().size_view() == self.len(),
    {
        match &self.root {
            Some(root) => {
                proof {
                    lemma_harvest_one(*root, IterationType::LabelsValues);
                }
                LeafPairsIter::new(root, self.size)
            },
            None => LeafPairsIter::default(),
        }
    }

    /// An iteration over the labels of all nodes.
    pub fn labels(&self) -> (r: LabelsIter<'_, V>)
        requires
            self.wf(),
        ensures
            r.wf(),
            r.pending() == self.harvest(IterationType::Labels),
            r.base().size_view() == self.len(),
    {
        match &self.root {
            Some(root) => {
                proof {
                    lemma_harvest_one(*root, IterationType::Labels);
                }
                LabelsIter::new(root, self.size)
            },
            None => LabelsIter::default(),
        }
    }

    /// An iteration over the values of all keys: as many as the trie counts.
    pub fn values(&self) -> (r: ValuesIter<'_, V>)
        requires
            self.wf(),
        ensures
            r.wf(),
            r.pending() == self.harvest(IterationType::Values),
            r.pending().len() == self.len(),
            r.base().size_view() == self.len(),
    {
        match &self.root {
            Some(root) => {
                proof {
                    lemma_harvest_one(*root, IterationType::Values);
                    root.lemma_harvest_len(IterationType::Values);
                }
                ValuesIter::new(root, self.size)
            },
            None => ValuesIter::default(),
        }
    }

    /// An iteration over the keys that lends each value for writing. The
    /// trie gets its root back, as the iteration leaves it, when the
    /// iteration ends.
    pub fn values_mut(&mut self) -> (r: ValuesIterMut<'_, V>)
        requires
            old(self).wf(),
        ensures
            r.0.wf(),
            r.0.size_view() == old(self).len(),
            forall|k: Seq<u8>| #[trigger] r.0.keys().contains(k) <==> old(self)@.contains_key(k),
            match r.0.root {
                Some(x) => old(self).root_view() == Some(*x) && final(self).root_view() == Some(
                    *final(x),
                ),
                None => old(self).root_view() is None && final(self).root_view() is None,
            },
            final(self).len() == old(self).len(),
    {
        match self.root.as_mut() {
            Some(root) => ValuesIterMut::new(root, self.size),
            None => ValuesIterMut::default(),
        }
    }

    /// An iteration over the keys that lends, for each, the label of its
    /// node for reading and its value for writing. The trie gets its root
    /// back, as the iteration leaves it, when the iteration ends.
    pub fn iter_mut(&mut self) -> (r: LeafPairsIterMut<'_, V>)
        requires
            old(self).wf(),
        ensures
            r.0.wf(),
            r.0.size_view() == old(self).len(),
            forall|k: Seq<u8>| #[trigger] r.0.keys().contains(k) <==> old(self)@.contains_key(k),
            match r.0.root {
                Some(x) => old(self).root_view() == Some(*x) && final(self).root_view() == Some(
                    *final(x),
                ),
                None => old(self).root_view() is None && final(self).root_view() is None,
            },
            final(self).len() == old(self).len(),
    {
        match self.root.as_mut() {
            Some(root) => LeafPairsIterMut::new(root, self.size),
            None => LeafPairsIterMut::default(),
        }
    }

    /// An iteration over the values of all keys that takes the trie apart.
    pub fn into_iter(self) -> (r: IntoIter<V>)
        requires
            self.wf(),
        ensures
            r.wf(),
            r.pending() == self.harvest(IterationType::ValuesOwned),
            r.pending().len() == self.len(),
    {
        match self.root {
            Some(root) => {
                proof {
                    lemma_harvest_one(root, IterationType::ValuesOwned);
                    root.lemma_harvest_len(IterationType::ValuesOwned);
                }
                IntoIter::new(root)
            },
            None => IntoIter::default(),
        }
    }
}

impl<V> Default for Trie<V> {
    fn default() -> (r: Self)
        ensures
            r.wf(),
            r@ == Map::<Seq<u8>, V>::empty(),
            r.len() == 0,
    {
        Trie::new()
    }
}

} // verus!
