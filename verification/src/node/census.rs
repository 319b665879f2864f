use crate::node::{count_below, Node};
use vstd::prelude::*;
use vstd::relations::injective_on;
use vstd::set_lib::{lemma_map_size, lemma_set_disjoint_lens};

verus! {

/// The keys below `n` whose first byte is below `upto`.
pub open spec fn keys_through<V>(n: Node<V>, upto: int) -> Set<Seq<u8>> {
    Set::new(|k: Seq<u8>| k.len() > 0 && k[0] < upto && n.lookup(k) is Some)
}

impl<V> Node<V> {
    /// A node with well-formed children holds finitely many keys: as many
    /// as it counts.
    pub proof fn lemma_keys_counted(&self)
        requires
            self.children_wf(),
        ensures
            self@.dom().finite(),
            self@.dom().len() == self.key_count(),
        decreases self, 257int,
    {
        lemma_keys_through(*self, 256);
        let below = keys_through(*self, 256);
        let none = Seq::<u8>::empty();
        if self.value_view() is Some {
            assert(self@.dom() =~= below.insert(none)) by {
                assert forall|k: Seq<u8>| self@.dom().contains(k) <==> below.insert(none).contains(
                    k,
                ) by {
                    if k.len() == 0 {
                        assert(k =~= none);
                    }
                }
            }
            assert(!below.contains(none));
        } else {
            assert(self@.dom() =~= below);
        }
    }
}

/// The keys that go through the edges below `upto` are as many as the
/// subtrees under these edges count.
pub proof fn lemma_keys_through<V>(n: Node<V>, upto: int)
    requires
        n.children_wf(),
        0 <= upto <= 256,
    ensures
        keys_through(n, upto).finite(),
        keys_through(n, upto).len() == count_below(n.children(), upto, false),
    decreases n, upto,
{
    if upto == 0 {
        assert(keys_through(n, 0) =~= Set::<Seq<u8>>::empty());
    } else {
        lemma_keys_through(n, upto - 1);
        let b = (upto - 1) as u8;
        let lower = keys_through(n, upto - 1);
        if n.children().contains_key(b) {
            let c = n.children()[b];
            let l = c.label_seq();
            assert(c.wf_sub());
            c.lemma_keys_counted();
            let f = |k: Seq<u8>| l + k;
            let keys = c@.dom();
            let img = keys.map(f);
            assert(injective_on(f, keys)) by {
                assert forall|k1: Seq<u8>, k2: Seq<u8>|
                    keys.contains(k1) && keys.contains(k2) && #[trigger] f(k1) == #[trigger] f(
                        k2,
                    ) implies k1 == k2 by {
                    assert((l + k1).skip(l.len() as int) =~= k1);
                    assert((l + k2).skip(l.len() as int) =~= k2);
                }
            }
            lemma_map_size(keys, img, f);
            assert(keys_through(n, upto) =~= lower + img) by {
                assert forall|k: Seq<u8>| keys_through(n, upto).contains(k) <==> (lower
                    + img).contains(k) by {
                    if keys_through(n, upto).contains(k) && !lower.contains(k) {
                        assert(k[0] == b);
                        assert(n.step(k) == Some(c));
                        let k2 = k.skip(l.len() as int);
                        assert(k =~= l + k2);
                        assert(keys.contains(k2));
                        assert(f(k2) == k);
                        assert(img.contains(k));
                    }
                    if img.contains(k) {
                        let k2 = choose|k2: Seq<u8>| keys.contains(k2) && f(k2) == k;
                        assert(k[0] == l[0]);
                        assert(k.subrange(0, l.len() as int) =~= l);
                        assert(n.step(k) == Some(c));
                        assert(k.skip(l.len() as int) =~= k2);
                    }
                }
            }
            assert(lower.disjoint(img)) by {
                assert forall|k: Seq<u8>| !(lower.contains(k) && img.contains(k)) by {
                    if img.contains(k) {
                        let k2 = choose|k2: Seq<u8>| keys.contains(k2) && f(k2) == k;
                        assert(k[0] == l[0]);
                    }
                }
            }
            lemma_set_disjoint_lens(lower, img);
        } else {
            assert(keys_through(n, upto) =~= lower) by {
                assert forall|k: Seq<u8>| keys_through(n, upto).contains(k) implies lower.contains(
                    k,
                ) by {
                    if k[0] == b {
                        assert(n.step(k) is None);
                    }
                }
            }
        }
    }
}

} // verus!
