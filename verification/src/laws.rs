use crate::iter::IterationType;
use crate::node::harvest::{lemma_harvest_empty, Item};
use crate::node::Node;
use crate::trie::Trie;
use vstd::prelude::*;

verus! {

/// Every label that an iteration over a well-formed trie hands out is not empty.
pub proof fn labels_are_not_empty<V>(trie: Trie<V>, x: Item<V>)
    requires
        trie.wf(),
        trie.harvest(IterationType::Labels).count(x) > 0,
    ensures
        x.0 is Some,
        x.0->0.len() > 0,
{
    let root = trie.root_view()->0;
    assert(root.own_harvest(IterationType::Labels) =~= vstd::multiset::Multiset::empty());
    root.lemma_labels_not_empty(x);
}

/// In a well-formed trie every node below the root has a label that is not
/// empty, holds a value exactly when it is tagged as a key, and has two
/// edges or more when it is not: no inner node has one edge alone.
pub proof fn nodes_are_compressed<V>(trie: Trie<V>, edges: Seq<u8>)
    requires
        trie.wf(),
        edges.len() > 0,
        trie.root_view() matches Some(root) && root.descend(edges) is Some,
    ensures
        ({
            let n = trie.root_view()->0.descend(edges)->0;
            &&& n.label_seq().len() > 0
            &&& (n.tag_view() is Key <==> n.value_view() is Some)
            &&& (n.tag_view() is Inner ==> n.children().len() >= 2)
        }),
{
    trie.root_view()->0.lemma_descend_wf(edges);
}

/// In a well-formed trie the edge bytes of a node are the first bytes of
/// the labels of its children: each child is filed under the first byte of
/// its label, and under no other.
pub proof fn edges_are_first_bytes<V>(trie: Trie<V>, edges: Seq<u8>)
    requires
        trie.wf(),
        trie.root_view() matches Some(root) && root.descend(edges) is Some,
    ensures
        ({
            let n = trie.root_view()->0.descend(edges)->0;
            &&& forall|b: u8| #[trigger]
                n.children().contains_key(b) ==> n.children()[b].label_seq().len() > 0
                    && n.children()[b].label_seq()[0] == b
            &&& n.children().dom() =~= Set::new(
                |b: u8|
                    exists|c: Box<Node<V>>| #[trigger]
                        n.children().values().contains(c) && c.label_seq().len() > 0
                            && c.label_seq()[0] == b,
            )
        }),
{
    let root = trie.root_view()->0;
    let n = root.descend(edges)->0;
    if edges.len() > 0 {
        root.lemma_descend_wf(edges);
    }
    assert(n.children_wf());
    assert forall|b: u8| n.children().contains_key(b) implies exists|c: Box<Node<V>>| #[trigger]
        n.children().values().contains(c) && c.label_seq().len() > 0 && c.label_seq()[0] == b by {
        let c = n.children()[b];
        assert(n.children().values().contains(c));
    }
    assert forall|b: u8|
        (exists|c: Box<Node<V>>| #[trigger]
            n.children().values().contains(c) && c.label_seq().len() > 0 && c.label_seq()[0]
                == b) implies n.children().contains_key(b) by {
        let c = choose|c: Box<Node<V>>| #[trigger]
            n.children().values().contains(c) && c.label_seq().len() > 0 && c.label_seq()[0] == b;
        let b2 = choose|b2: u8| n.children().contains_key(b2) && n.children()[b2] == c;
        assert(n.children().contains_key(b2));
    }
}

/// Two well-formed tries that hold the same keys, each with the same value,
/// are the same tree: what an insertion or a removal leaves behind is told
/// by the keys it leaves. Every kind of iteration finds the same in both.
pub proof fn same_keys_same_tree<V>(a: Trie<V>, b: Trie<V>, t: IterationType)
    requires
        a.wf(),
        b.wf(),
        a@ == b@,
    ensures
        a.root_view() is Some && b.root_view() is Some ==> a.root_view()->0.alike(
            &b.root_view()->0,
            true,
        ),
        a.harvest(t) == b.harvest(t),
{
    match (a.root_view(), b.root_view()) {
        (Some(x), Some(y)) => {
            assert(x.same_keys(&y, true)) by {
                assert forall|k: Seq<u8>|
                    (#[trigger] x.lookup(k) is Some <==> y.lookup(k) is Some) && x.lookup(k)
                        == y.lookup(k) by {
                    assert(x@.contains_key(k) == y@.contains_key(k));
                    if x@.contains_key(k) {
                        assert(x@[k] == y@[k]);
                    }
                }
            }
            x.lemma_same_keys_same_tree(&y, true);
            x.lemma_alike_harvest(&y, true, t);
        },
        (Some(x), None) => {
            lemma_no_keys_no_harvest(x, t);
        },
        (None, Some(y)) => {
            lemma_no_keys_no_harvest(y, t);
        },
        (None, None) => {},
    }
}

/// Two well-formed tries that hold the same keys, whatever the values, have
/// the same shape: the same labels, tags and edges. Writing to the values
/// changes no label.
pub proof fn same_key_set_same_labels<V>(a: Trie<V>, b: Trie<V>)
    requires
        a.wf(),
        b.wf(),
        a@.dom() == b@.dom(),
    ensures
        a.root_view() is Some && b.root_view() is Some ==> a.root_view()->0.alike(
            &b.root_view()->0,
            false,
        ),
        a.harvest(IterationType::Labels) == b.harvest(IterationType::Labels),
{
    match (a.root_view(), b.root_view()) {
        (Some(x), Some(y)) => {
            assert(x.same_keys(&y, false)) by {
                assert forall|k: Seq<u8>| #[trigger]
                    x.lookup(k) is Some <==> y.lookup(k) is Some by {
                    assert(x@.dom().contains(k) == y@.dom().contains(k));
                }
            }
            x.lemma_same_keys_same_tree(&y, false);
            x.lemma_alike_harvest(&y, false, IterationType::Labels);
        },
        (Some(x), None) => {
            assert(x@ =~= Map::<Seq<u8>, V>::empty());
            lemma_no_keys_no_harvest(x, IterationType::Labels);
        },
        (None, Some(y)) => {
            assert(y@ =~= Map::<Seq<u8>, V>::empty());
            lemma_no_keys_no_harvest(y, IterationType::Labels);
        },
        (None, None) => {},
    }
}

/// A well-formed root without keys has no children, and there is nothing to find below it.
proof fn lemma_no_keys_no_harvest<V>(root: Node<V>, t: IterationType)
    requires
        root.wf_root(),
        root@ == Map::<Seq<u8>, V>::empty(),
    ensures
        root.harvest(t) == vstd::multiset::Multiset::<Item<V>>::empty(),
{
    assert forall|x: u8| !root.children().contains_key(x) by {
        if root.children().contains_key(x) {
            let c = root.children()[x];
            assert(c.wf_sub());
            c.lemma_holds_a_key();
            let k = choose|k: Seq<u8>| #[trigger] c.lookup(k) is Some;
            root.lemma_lookup_through(x, k);
            assert(root@.contains_key(c.label_seq() + k));
        }
    }
    assert(root.children().dom() =~= Set::<u8>::empty());
    lemma_harvest_empty(root.children(), 256, t);
    assert(root.own_harvest(t) =~= vstd::multiset::Multiset::<Item<V>>::empty());
    assert(root.harvest(t) =~= vstd::multiset::Multiset::<Item<V>>::empty());
}

/// A well-formed trie holds finitely many keys, and counts them.
pub proof fn size_is_the_number_of_keys<V>(trie: Trie<V>)
    requires
        trie.wf(),
    ensures
        trie@.dom().finite(),
        trie@.dom().len() == trie.len(),
{
    match trie.root_view() {
        Some(root) => {
            root.lemma_keys_counted();
        },
        None => {},
    }
}

/// A well-formed trie counts as many keys as an iteration over its values hands out.
pub proof fn size_is_the_number_of_values<V>(trie: Trie<V>)
    requires
        trie.wf(),
    ensures
        trie.harvest(IterationType::Values).len() == trie.len(),
{
    match trie.root_view() {
        Some(root) => {
            root.lemma_harvest_len(IterationType::Values);
        },
        None => {},
    }
}

/// What an iteration over the values of a well-formed trie hands out is
/// the value of a key, and the value of every key is handed out.
pub proof fn values_belong_to_keys<V>(trie: Trie<V>, x: Item<V>, key: Seq<u8>)
    requires
        trie.wf(),
    ensures
        trie.harvest(IterationType::Values).count(x) > 0 ==> x.0 is None && exists|k: Seq<u8>|
            #[trigger] trie@.contains_key(k) && Some(trie@[k]) == x.1,
        trie@.contains_key(key) ==> trie.harvest(IterationType::Values).count(
            (None, Some(trie@[key])),
        ) > 0,
{
    match trie.root_view() {
        Some(root) => {
            if root.harvest(IterationType::Values).count(x) > 0 {
                root.lemma_value_has_key(x);
                let k = choose|k: Seq<u8>| #[trigger] root.lookup(k) == x.1;
                assert(trie@.contains_key(k) && Some(trie@[k]) == x.1);
            }
            if trie@.contains_key(key) {
                root.lemma_key_has_value(key);
            }
        },
        None => {},
    }
}

/// A value that was inserted is found under its key, and stays there while
/// other keys are inserted and removed.
pub proof fn inserted_value_is_found<V>(
    before: Trie<V>,
    after: Trie<V>,
    later: Trie<V>,
    key: Seq<u8>,
    value: V,
    other: Seq<u8>,
    other_value: V,
)
    requires
        key.len() > 0,
        after@ == before@.insert(key, value),
        other != key,
        later@ == after@.insert(other, other_value) || later@ == after@.remove(other),
    ensures
        after@.contains_key(key) && after@[key] == value,
        later@.contains_key(key) && later@[key] == value,
{
}

/// Of two insertions under one key the second value stays, and an empty
/// trie counts one key after both.
pub proof fn second_insert_replaces<V>(
    empty: Trie<V>,
    once: Trie<V>,
    twice: Trie<V>,
    key: Seq<u8>,
    first: V,
    second: V,
)
    requires
        key.len() > 0,
        empty@ == Map::<Seq<u8>, V>::empty(),
        empty.len() == 0,
        once@ == empty@.insert(key, first),
        once.len() == empty.len() + (if empty@.contains_key(key) {
            0nat
        } else {
            1nat
        }),
        twice@ == once@.insert(key, second),
        twice.len() == once.len() + (if once@.contains_key(key) {
            0nat
        } else {
            1nat
        }),
    ensures
        twice@.contains_key(key) && twice@[key] == second,
        twice.len() == 1,
        twice@ == empty@.insert(key, second),
{
    assert(twice@ =~= empty@.insert(key, second));
}

/// Removing a key that was just inserted, and was not there before, gives
/// the inserted value back and leaves the trie as it was: the same keys with
/// the same values, and the same count.
pub proof fn remove_undoes_insert<V>(
    before: Trie<V>,
    with: Trie<V>,
    after: Trie<V>,
    key: Seq<u8>,
    value: V,
    removed: Option<V>,
)
    requires
        key.len() > 0,
        !before@.contains_key(key),
        with@ == before@.insert(key, value),
        with.len() == before.len() + 1,
        after@ == with@.remove(key),
        removed == (if with@.contains_key(key) {
            Some(with@[key])
        } else {
            None
        }),
        after.len() + (if removed is Some {
            1nat
        } else {
            0nat
        }) == with.len(),
    ensures
        removed == Some(value),
        !after@.contains_key(key),
        after@ == before@,
        after.len() == before.len(),
{
    assert(after@ =~= before@);
}

} // verus!
