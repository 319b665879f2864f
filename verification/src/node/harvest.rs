use crate::iter::IterationType;
use crate::node::{count_below, sum_counts, Node};
use vstd::multiset::Multiset;
use vstd::prelude::*;

verus! {

/// What an iteration hands out for one node: its label, its value, or both.
pub type Item<V> = (Option<Seq<u8>>, Option<V>);

impl IterationType {
    /// What this kind of iteration takes from a node with this label and
    /// this value: labels from every node that has one, values from every
    /// node that has one, pairs from the nodes that have both.
    pub open spec fn pick<V>(self, label: Option<Seq<u8>>, value: Option<V>) -> Option<Item<V>> {
        match self {
            IterationType::Labels => match label {
                Some(l) => Some((Some(l), None)),
                None => None,
            },
            IterationType::Values | IterationType::ValuesMut | IterationType::ValuesOwned => match value {
                Some(v) => Some((None, Some(v))),
                None => None,
            },
            IterationType::LabelsValues | IterationType::LabelsValuesMut => match (label, value) {
                (Some(l), Some(v)) => Some((Some(l), Some(v))),
                _ => None,
            },
        }
    }
}

/// What an iteration finds in the subtrees of the children of `m` whose edge
/// byte is below `upto`.
pub open spec fn harvest_below<V>(m: Map<u8, Box<Node<V>>>, upto: int, t: IterationType) -> Multiset<
    Item<V>,
>
    decreases m, upto,
{
    if upto <= 0 || !m.dom().finite() {
        Multiset::empty()
    } else {
        let b = (upto - 1) as u8;
        harvest_below(m, upto - 1, t).add(
            if m.contains_key(b) {
                m[b].harvest(t)
            } else {
                Multiset::empty()
            },
        )
    }
}

/// What an iteration finds in the subtrees of `s` taken together.
pub open spec fn harvest_sum<V>(s: Seq<Node<V>>, t: IterationType) -> Multiset<Item<V>>
    decreases s.len(),
{
    if s.len() == 0 {
        Multiset::empty()
    } else {
        harvest_sum(s.drop_last(), t).add(s.last().harvest(t))
    }
}

impl<V> Node<V> {
    /// What an iteration takes from this node itself.
    pub open spec fn own_harvest(&self, t: IterationType) -> Multiset<Item<V>> {
        match t.pick(self.label_view(), self.value_view()) {
            Some(x) => Multiset::singleton(x),
            None => Multiset::empty(),
        }
    }

    /// What an iteration finds in this subtree.
    pub open spec fn harvest(&self, t: IterationType) -> Multiset<Item<V>>
        decreases self,
    {
        self.own_harvest(t).add(harvest_below(self.children(), 256, t))
    }

    /// There are as many values to find in a subtree as it counts keys.
    pub proof fn lemma_harvest_len(&self, t: IterationType)
        requires
            t is Values || t is ValuesMut || t is ValuesOwned,
        ensures
            self.harvest(t).len() == self.key_count(),
        decreases self, 0int,
    {
        lemma_harvest_below_len(self.children(), 256, t);
    }
}

/// There are as many values to find below a map as it counts keys.
pub proof fn lemma_harvest_below_len<V>(m: Map<u8, Box<Node<V>>>, upto: int, t: IterationType)
    requires
        t is Values || t is ValuesMut || t is ValuesOwned,
    ensures
        harvest_below(m, upto, t).len() == count_below(m, upto, false),
    decreases m, upto,
{
    if upto > 0 && m.dom().finite() {
        lemma_harvest_below_len(m, upto - 1, t);
        let b = (upto - 1) as u8;
        if m.contains_key(b) {
            m[b].lemma_harvest_len(t);
        }
    }
}

impl<V> Node<V> {
    /// Every label found in a subtree with well-formed children, the label
    /// of its root aside, is not empty.
    pub proof fn lemma_labels_not_empty(&self, x: Item<V>)
        requires
            self.children_wf(),
            harvest_below(self.children(), 256, IterationType::Labels).count(x) > 0,
        ensures
            x.0 is Some,
            x.0->0.len() > 0,
        decreases self, 0int,
    {
        lemma_labels_below_not_empty(self.children(), 256, x);
    }
}

/// Every label found below a map of well-formed subtrees is not empty.
pub proof fn lemma_labels_below_not_empty<V>(m: Map<u8, Box<Node<V>>>, upto: int, x: Item<V>)
    requires
        0 <= upto <= 256,
        forall|b: u8| #[trigger] m.contains_key(b) ==> m[b].wf_sub(),
        harvest_below(m, upto, IterationType::Labels).count(x) > 0,
    ensures
        x.0 is Some,
        x.0->0.len() > 0,
    decreases m, upto,
{
    if upto > 0 && m.dom().finite() {
        let b = (upto - 1) as u8;
        if harvest_below(m, upto - 1, IterationType::Labels).count(x) > 0 {
            lemma_labels_below_not_empty(m, upto - 1, x);
        } else {
            assert(m.contains_key(b));
            let c = m[b];
            assert(c.wf_sub());
            assert(c.harvest(IterationType::Labels).count(x) > 0);
            assert(c.own_harvest(IterationType::Labels) == vstd::multiset::Multiset::singleton(
                (Some(c.label_seq()), None::<V>),
            ));
            if c.own_harvest(IterationType::Labels).count(x) > 0 {
                assert(x == (Some(c.label_seq()), None::<V>));
            } else {
                assert(harvest_below(c.children(), 256, IterationType::Labels).count(x) > 0);
                c.lemma_labels_not_empty(x);
            }
        }
    }
}

impl<V> Node<V> {
    /// Every value found in a subtree with well-formed children is the
    /// value of one of its keys.
    pub proof fn lemma_value_has_key(&self, x: Item<V>)
        requires
            self.children_wf(),
            self.harvest(IterationType::Values).count(x) > 0,
        ensures
            x.0 is None,
            x.1 is Some,
            exists|k: Seq<u8>| #[trigger] self.lookup(k) == x.1,
        decreases self, 257int,
    {
        if self.own_harvest(IterationType::Values).count(x) > 0 {
            assert(self.lookup(Seq::<u8>::empty()) == x.1);
        } else {
            lemma_value_below_has_key(*self, 256, x);
        }
    }

    /// The value of every key is found in the subtree.
    pub proof fn lemma_key_has_value(&self, k: Seq<u8>)
        requires
            self.children_wf(),
            self.lookup(k) is Some,
        ensures
            self.harvest(IterationType::Values).count((None, self.lookup(k))) > 0,
        decreases k.len(),
    {
        if k.len() > 0 {
            let c = self.children()[k[0]];
            assert(self.step(k) == Some(c));
            assert(c.wf_sub());
            c.lemma_key_has_value(k.skip(c.label_seq().len() as int));
            lemma_harvest_split(self.children(), k[0], 256, IterationType::Values);
        }
    }
}

/// Every value found below the edges under `upto` is the value of a key
/// that goes through one of them.
pub proof fn lemma_value_below_has_key<V>(n: Node<V>, upto: int, x: Item<V>)
    requires
        n.children_wf(),
        0 <= upto <= 256,
        harvest_below(n.children(), upto, IterationType::Values).count(x) > 0,
    ensures
        x.0 is None,
        x.1 is Some,
        exists|k: Seq<u8>| #[trigger] n.lookup(k) == x.1,
    decreases n, upto,
{
    let m = n.children();
    if upto > 0 {
        let b = (upto - 1) as u8;
        if harvest_below(m, upto - 1, IterationType::Values).count(x) > 0 {
            lemma_value_below_has_key(n, upto - 1, x);
        } else {
            assert(m.contains_key(b));
            let c = m[b];
            let l = c.label_seq();
            assert(c.wf_sub());
            assert(c.harvest(IterationType::Values).count(x) > 0);
            c.lemma_value_has_key(x);
            let k2 = choose|k: Seq<u8>| #[trigger] c.lookup(k) == x.1;
            let k = l + k2;
            assert(k[0] == l[0]);
            assert(k.subrange(0, l.len() as int) =~= l);
            assert(n.step(k) == Some(c));
            assert(k.skip(l.len() as int) =~= k2);
            assert(n.lookup(k) == x.1);
        }
    }
}

/// What is found below a map is what is found below the map without `b`, and what `b` holds.
pub proof fn lemma_harvest_split<V>(m: Map<u8, Box<Node<V>>>, b: u8, upto: int, t: IterationType)
    requires
        m.dom().finite(),
        0 <= upto <= 256,
    ensures
        harvest_below(m, upto, t) == harvest_below(m.remove(b), upto, t).add(
            if b < upto && m.contains_key(b) {
                m[b].harvest(t)
            } else {
                Multiset::empty()
            },
        ),
    decreases upto,
{
    if upto > 0 {
        lemma_harvest_split(m, b, upto - 1, t);
    }
    assert(harvest_below(m, upto, t) =~= harvest_below(m.remove(b), upto, t).add(
        if b < upto && m.contains_key(b) {
            m[b].harvest(t)
        } else {
            Multiset::empty()
        },
    ));
}

/// There is nothing to find below a node without children.
pub proof fn lemma_harvest_empty<V>(m: Map<u8, Box<Node<V>>>, upto: int, t: IterationType)
    requires
        m.dom() =~= Set::<u8>::empty(),
    ensures
        harvest_below(m, upto, t) == Multiset::<Item<V>>::empty(),
    decreases upto,
{
    if upto > 0 {
        lemma_harvest_empty(m, upto - 1, t);
    }
    assert(harvest_below(m, upto, t) =~= Multiset::<Item<V>>::empty());
}

/// One more subtree adds what it holds.
pub proof fn lemma_harvest_push<V>(s: Seq<Node<V>>, x: Node<V>, t: IterationType)
    ensures
        harvest_sum(s.push(x), t) == harvest_sum(s, t).add(x.harvest(t)),
{
    assert(s.push(x).drop_last() =~= s);
}

/// What is found in two rows of subtrees, one after the other.
pub proof fn lemma_harvest_concat<V>(a: Seq<Node<V>>, b: Seq<Node<V>>, t: IterationType)
    ensures
        harvest_sum(a + b, t) == harvest_sum(a, t).add(harvest_sum(b, t)),
    decreases b.len(),
{
    if b.len() == 0 {
        assert(a + b =~= a);
        assert(harvest_sum(a, t).add(harvest_sum(b, t)) =~= harvest_sum(a, t));
    } else {
        lemma_harvest_concat(a, b.drop_last(), t);
        assert((a + b).drop_last() =~= a + b.drop_last());
        assert((a + b).last() == b.last());
        assert(harvest_sum(a + b, t) =~= harvest_sum(a, t).add(harvest_sum(b, t)));
    }
}

/// The count of two rows of subtrees, one after the other.
pub proof fn lemma_sum_concat<V>(a: Seq<Node<V>>, b: Seq<Node<V>>, all: bool)
    ensures
        sum_counts(a + b, all) == sum_counts(a, all) + sum_counts(b, all),
    decreases b.len(),
{
    if b.len() == 0 {
        assert(a + b =~= a);
    } else {
        lemma_sum_concat(a, b.drop_last(), all);
        assert((a + b).drop_last() =~= a + b.drop_last());
        assert((a + b).last() == b.last());
    }
}

/// What is found in a single subtree, taken as a row.
pub proof fn lemma_harvest_one<V>(x: Node<V>, t: IterationType)
    ensures
        harvest_sum(seq![x], t) == x.harvest(t),
{
    let none = Seq::<Node<V>>::empty();
    lemma_harvest_push(none, x, t);
    assert(none.push(x) =~= seq![x]);
    assert(harvest_sum(none, t) =~= Multiset::<Item<V>>::empty());
    assert(harvest_sum(seq![x], t) =~= x.harvest(t));
}

/// The children of a map, listed once each in any order, hold what the map holds.
pub proof fn lemma_harvest_children<V>(
    m: Map<u8, Box<Node<V>>>,
    keys: Seq<u8>,
    nodes: Seq<Node<V>>,
    t: IterationType,
)
    requires
        lists_children(m, keys, nodes),
    ensures
        harvest_sum(nodes, t) == harvest_below(m, 256, t),
    decreases keys.len(),
{
    if keys.len() == 0 {
        assert forall|b: u8| !m.contains_key(b) by {
            if m.contains_key(b) {
                assert(keys.contains(b));
            }
        }
        lemma_harvest_empty(m, 256, t);
    } else {
        let last = keys.last();
        let m2 = m.remove(last);
        let keys2 = keys.drop_last();
        let nodes2 = nodes.drop_last();
        assert forall|b: u8| m2.contains_key(b) implies keys2.contains(b) by {
            assert(keys.contains(b));
            let i = choose|i: int| 0 <= i < keys.len() && keys[i] == b;
            assert(keys2[i] == b);
        }
        assert forall|i: int| 0 <= i < keys2.len() implies m2.contains_key(#[trigger] keys2[i])
            && *m2[keys2[i]] == nodes2[i] by {
            assert(keys[i] != keys[keys.len() - 1]);
        }
        lemma_harvest_children(m2, keys2, nodes2, t);
        lemma_harvest_split(m, last, 256, t);
    }
}

/// `keys` and `nodes` list the children of `m`, each once, byte and node side by side.
pub open spec fn lists_children<V>(m: Map<u8, Box<Node<V>>>, keys: Seq<u8>, nodes: Seq<Node<V>>) -> bool {
    &&& m.dom().finite()
    &&& keys.len() == nodes.len()
    &&& keys.no_duplicates()
    &&& forall|i: int|
        0 <= i < keys.len() ==> m.contains_key(#[trigger] keys[i]) && *m[keys[i]] == nodes[i]
    &&& forall|b: u8| m.contains_key(b) ==> keys.contains(b)
}

/// The children of a map, listed once each in any order, count as the map does.
pub proof fn lemma_count_children<V>(
    m: Map<u8, Box<Node<V>>>,
    keys: Seq<u8>,
    nodes: Seq<Node<V>>,
    all: bool,
)
    requires
        lists_children(m, keys, nodes),
    ensures
        sum_counts(nodes, all) == count_below(m, 256, all),
{
    crate::node::lemma_sum_children(m, keys, nodes, all);
}

} // verus!
