use crate::iter::IterationType;
use crate::node::harvest::{harvest_below, Item};
use crate::node::Node;
use vstd::prelude::*;

verus! {

impl<V> Node<V> {
    /// The same tree: the same label and tag, a value in both or in
    /// neither, and the same subtrees under the same edge bytes. Where
    /// `exact`, the values are the same too.
    pub open spec fn alike(&self, o: &Node<V>, exact: bool) -> bool
        decreases self,
    {
        &&& self.label_view() == o.label_view()
        &&& self.tag_view() == o.tag_view()
        &&& (self.value_view() is Some <==> o.value_view() is Some)
        &&& (exact ==> self.value_view() == o.value_view())
        &&& self.children().dom() =~= o.children().dom()
        &&& forall|x: u8| #[trigger]
            self.children().contains_key(x) ==> self.children()[x].alike(&*o.children()[x], exact)
    }

    /// The same keys: under each key both nodes hold a value, or neither
    /// does. Where `exact`, they hold the same value.
    pub open spec fn same_keys(&self, o: &Node<V>, exact: bool) -> bool {
        forall|k: Seq<u8>|
            (#[trigger] self.lookup(k) is Some <==> o.lookup(k) is Some) && (exact ==> self.lookup(k)
                == o.lookup(k))
    }

    /// What is stored under the label of a child followed by `k` is what
    /// the child stores under `k`.
    pub proof fn lemma_lookup_through(&self, x: u8, k: Seq<u8>)
        requires
            self.children_wf(),
            self.children().contains_key(x),
        ensures
            (self.children()[x].label_seq() + k).len() > 0,
            (self.children()[x].label_seq() + k)[0] == x,
            self.lookup(self.children()[x].label_seq() + k) == self.children()[x].lookup(k),
    {
        let c = self.children()[x];
        let l = c.label_seq();
        let key = l + k;
        assert(key[0] == l[0]);
        assert(key.subrange(0, l.len() as int) =~= l);
        assert(self.step(key) == Some(c));
        assert(key.skip(l.len() as int) =~= k);
    }

    /// A key that is not empty goes through the child under its first byte.
    pub proof fn lemma_lookup_first(&self, k: Seq<u8>)
        requires
            self.children_wf(),
            k.len() > 0,
            self.lookup(k) is Some,
        ensures
            self.children().contains_key(k[0]),
            self.children()[k[0]].label_seq().is_prefix_of(k),
            k == self.children()[k[0]].label_seq() + k.skip(
                self.children()[k[0]].label_seq().len() as int,
            ),
            self.lookup(k) == self.children()[k[0]].lookup(
                k.skip(self.children()[k[0]].label_seq().len() as int),
            ),
    {
        let c = self.children()[k[0]];
        let l = c.label_seq();
        assert(self.step(k) == Some(c));
        assert(k =~= l + k.skip(l.len() as int));
    }

    /// A well-formed subtree holds a key.
    pub proof fn lemma_holds_a_key(&self)
        requires
            self.wf_sub(),
        ensures
            exists|k: Seq<u8>| #[trigger] self.lookup(k) is Some,
        decreases self,
    {
        if self.value_view() is Some {
            assert(self.lookup(Seq::<u8>::empty()) is Some);
        } else {
            let d = self.children().dom();
            assert(d.len() >= 2);
            let x = d.choose();
            assert(d.contains(x));
            let c = self.children()[x];
            assert(c.wf_sub());
            c.lemma_holds_a_key();
            let k2 = choose|k: Seq<u8>| #[trigger] c.lookup(k) is Some;
            self.lemma_lookup_through(x, k2);
            assert(self.lookup(c.label_seq() + k2) is Some);
        }
    }

    /// Where two nodes hold the same keys, the label of a child of the one
    /// is not a proper prefix of the label of the child of the other under
    /// the same byte: the keys below a well-formed child do not all go on
    /// with the same byte.
    proof fn lemma_label_not_shorter(&self, o: &Node<V>, x: u8)
        requires
            self.children_wf(),
            o.children_wf(),
            forall|k: Seq<u8>| #[trigger] self.lookup(k) is Some <==> o.lookup(k) is Some,
            self.children().contains_key(x),
            o.children().contains_key(x),
        ensures
            !(self.children()[x].label_seq().len() < o.children()[x].label_seq().len()),
    {
        let ca = self.children()[x];
        let cb = o.children()[x];
        let la = ca.label_seq();
        let lb = cb.label_seq();
        assert(ca.wf_sub());
        if la.len() < lb.len() {
            // every key below `ca` goes on with the byte `lb[la.len()]`
            assert forall|k: Seq<u8>| #[trigger] ca.lookup(k) is Some implies k.len() > 0 && k[0]
                == lb[la.len() as int] by {
                self.lemma_lookup_through(x, k);
                let key = la + k;
                assert(o.lookup(key) is Some);
                o.lemma_lookup_first(key);
                assert(lb.is_prefix_of(key));
                assert(key.subrange(0, lb.len() as int)[la.len() as int] == lb[la.len() as int]);
                assert(key[la.len() as int] == k[0]);
            }
            if ca.value_view() is Some {
                assert(ca.lookup(Seq::<u8>::empty()) is Some);
            } else {
                let d = ca.children().dom();
                assert(d.len() >= 2);
                let x1 = d.choose();
                assert(d.contains(x1));
                assert(d.remove(x1).len() >= 1);
                let x2 = d.remove(x1).choose();
                assert(d.remove(x1).contains(x2));
                let c1 = ca.children()[x1];
                let c2 = ca.children()[x2];
                assert(c1.wf_sub() && c2.wf_sub());
                c1.lemma_holds_a_key();
                c2.lemma_holds_a_key();
                let k1 = choose|k: Seq<u8>| #[trigger] c1.lookup(k) is Some;
                let k2 = choose|k: Seq<u8>| #[trigger] c2.lookup(k) is Some;
                ca.lemma_lookup_through(x1, k1);
                ca.lemma_lookup_through(x2, k2);
                assert(ca.lookup(c1.label_seq() + k1) is Some);
                assert(ca.lookup(c2.label_seq() + k2) is Some);
            }
        }
    }

    /// Two nodes with well-formed children, the same label and the same
    /// keys are the same tree.
    pub proof fn lemma_same_keys_same_tree(&self, o: &Node<V>, exact: bool)
        requires
            self.wf_any(),
            o.wf_any(),
            self.label_view() == o.label_view(),
            self.same_keys(o, exact),
        ensures
            self.alike(o, exact),
        decreases self,
    {
        let none = Seq::<u8>::empty();
        assert(self.lookup(none) is Some <==> o.lookup(none) is Some);
        assert forall|k: Seq<u8>| #[trigger] self.lookup(k) is Some <==> o.lookup(k) is Some by {}
        assert forall|k: Seq<u8>| #[trigger] o.lookup(k) is Some <==> self.lookup(k) is Some by {
            assert(self.lookup(k) is Some <==> o.lookup(k) is Some);
        }
        assert forall|x: u8| self.children().contains_key(x) implies o.children().contains_key(
            x,
        ) by {
            let c = self.children()[x];
            assert(c.wf_sub());
            c.lemma_holds_a_key();
            let k2 = choose|k: Seq<u8>| #[trigger] c.lookup(k) is Some;
            self.lemma_lookup_through(x, k2);
            let key = c.label_seq() + k2;
            assert(self.lookup(key) is Some <==> o.lookup(key) is Some);
            o.lemma_lookup_first(key);
        }
        assert forall|x: u8| o.children().contains_key(x) implies self.children().contains_key(
            x,
        ) by {
            let c = o.children()[x];
            assert(c.wf_sub());
            c.lemma_holds_a_key();
            let k2 = choose|k: Seq<u8>| #[trigger] c.lookup(k) is Some;
            o.lemma_lookup_through(x, k2);
            let key = c.label_seq() + k2;
            assert(self.lookup(key) is Some <==> o.lookup(key) is Some);
            self.lemma_lookup_first(key);
        }
        assert(self.children().dom() =~= o.children().dom());
        assert forall|x: u8| #[trigger] self.children().contains_key(x) implies self.children()[x].alike(
            &*o.children()[x],
            exact,
        ) by {
            let ca = self.children()[x];
            let cb = o.children()[x];
            let la = ca.label_seq();
            let lb = cb.label_seq();
            assert(ca.wf_sub() && cb.wf_sub());
            self.lemma_label_not_shorter(o, x);
            o.lemma_label_not_shorter(self, x);
            assert(la.len() == lb.len());
            ca.lemma_holds_a_key();
            let k2 = choose|k: Seq<u8>| #[trigger] ca.lookup(k) is Some;
            self.lemma_lookup_through(x, k2);
            let key = la + k2;
            assert(self.lookup(key) is Some <==> o.lookup(key) is Some);
            o.lemma_lookup_first(key);
            assert(la =~= lb) by {
                assert(key.subrange(0, la.len() as int) =~= la);
            }
            assert forall|k: Seq<u8>|
                (#[trigger] ca.lookup(k) is Some <==> cb.lookup(k) is Some) && (exact ==> ca.lookup(k)
                    == cb.lookup(k)) by {
                self.lemma_lookup_through(x, k);
                o.lemma_lookup_through(x, k);
                assert(self.lookup(la + k) is Some <==> o.lookup(la + k) is Some);
            }
            ca.lemma_same_keys_same_tree(&*cb, exact);
        }
    }

    /// The same tree holds the same labels, and where the values are the
    /// same too, the same for every kind of iteration.
    pub proof fn lemma_alike_harvest(&self, o: &Node<V>, exact: bool, t: IterationType)
        requires
            self.alike(o, exact),
            exact || t is Labels,
        ensures
            self.harvest(t) == o.harvest(t),
        decreases self, 257int,
    {
        lemma_alike_harvest_below(*self, *o, exact, 256, t);
    }
}

/// The same trees under the same edge bytes hold the same labels, and where
/// the values are the same too, the same for every kind of iteration.
pub proof fn lemma_alike_harvest_below<V>(
    a: Node<V>,
    b: Node<V>,
    exact: bool,
    upto: int,
    t: IterationType,
)
    requires
        a.alike(&b, exact),
        exact || t is Labels,
        0 <= upto <= 256,
    ensures
        harvest_below(a.children(), upto, t) == harvest_below(b.children(), upto, t),
    decreases a, upto,
{
    if upto > 0 {
        lemma_alike_harvest_below(a, b, exact, upto - 1, t);
        let x = (upto - 1) as u8;
        assert(a.children().dom().finite() == b.children().dom().finite());
        if a.children().dom().finite() && a.children().contains_key(x) {
            assert(b.children().contains_key(x));
            a.children()[x].lemma_alike_harvest(&*b.children()[x], exact, t);
        }
    }
}

} // verus!
