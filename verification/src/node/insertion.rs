use crate::node::{lemma_count_empty, lemma_count_split, lemma_prefix_concat, Node, NodeType};
use crate::traverse::{traverse_match, SuffixType};
use vstd::prelude::*;
use vstd::slice::slice_to_vec;

verus! {

broadcast use vstd::std_specs::hash::group_hash_axioms;

impl<V> Node<V> {
    /// The node at which an insertion ends, before the value is written.
    spec fn target_ok(&self) -> bool {
        &&& self.label_view() is Some
        &&& self.label_seq().len() > 0
        &&& self.children_wf()
        &&& (self.wf_sub() || self.value_view() is None)
    }

    /// A fresh bridge over `c`: labelled `common`, with `c` below it under the rest of its label.
    spec fn bridges(&self, c: Node<V>, common: Seq<u8>, sfx: Seq<u8>) -> bool {
        &&& self.label_view() == Some(common)
        &&& self.tag_view() is Inner
        &&& self.value_view() is None
        &&& self.children().dom() =~= set![sfx[0]]
        &&& self.children()[sfx[0]].label_view() == Some(sfx)
        &&& self.children()[sfx[0]].tag_view() == c.tag_view()
        &&& self.children()[sfx[0]].value_view() == c.value_view()
        &&& self.children()[sfx[0]].children() == c.children()
    }

    /// Putting a bridge over a child changes nothing that the parent holds.
    proof fn lemma_bridge(&self, b1: &Node<V>, key: u8, common: Seq<u8>, sfx: Seq<u8>)
        requires
            self.children().contains_key(key),
            self.children()[key].label_seq() == common + sfx,
            common.len() > 0,
            sfx.len() > 0,
            b1.bridges(*self.children()[key], common, sfx),
        ensures
            b1.key_count() == self.children()[key].key_count(),
            forall|k: Seq<u8>|
                k.len() > 0 && k[0] == key ==> #[trigger] self.lookup(k) == (if common.is_prefix_of(
                    k,
                ) {
                    b1.lookup(k.skip(common.len() as int))
                } else {
                    None
                }),
    {
        let c = self.children()[key];
        let c1 = b1.children()[sfx[0]];
        assert(b1.children().contains_key(sfx[0]));
        c1.lemma_lookup_shell(&*c, Seq::empty());
        lemma_count_split(b1.children(), sfx[0], 256, false);
        lemma_count_empty(b1.children().remove(sfx[0]), 256, false);
        assert forall|k: Seq<u8>| k.len() > 0 && k[0] == key implies #[trigger] self.lookup(k) == (
        if common.is_prefix_of(k) {
            b1.lookup(k.skip(common.len() as int))
        } else {
            None
        }) by {
            lemma_prefix_concat(common, sfx, k);
            let k2 = k.skip(common.len() as int);
            if common.is_prefix_of(k) {
                if k2.len() == 0 {
                    assert(!sfx.is_prefix_of(k2));
                } else if sfx.is_prefix_of(k2) {
                    assert(k2[0] == k2.subrange(0, sfx.len() as int)[0]);
                    assert(b1.step(k2) == Some(c1));
                    c1.lemma_lookup_shell(&*c, k2.skip(sfx.len() as int));
                } else {
                    assert(b1.step(k2) is None);
                }
            }
        }
    }

    /// Puts a new inner node between this node and its child under
    /// `byte_key`: the bridge takes the first part of the child's label, the
    /// child keeps the rest and moves below the bridge.
    fn insert_bridge(&mut self, byte_key: u8, common: Vec<u8>, suffix_edge: Vec<u8>) -> (r: &mut Box<
        Node<V>,
    >)
        requires
            old(self).children().contains_key(byte_key),
            common@.len() > 0,
            suffix_edge@.len() > 0,
        ensures
            old(self).shell_eq(final(self)),
            r.bridges(*old(self).children()[byte_key], common@, suffix_edge@),
            final(self).children() == old(self).children().insert(byte_key, *final(r)),
    {
        let ghost m0 = self.children();
        let mut bridge_node = Node::new(Some(common), NodeType::Inner, None);
        let mut old_node: Box<Node<V>> = self.edges.remove(&byte_key).unwrap();
        let next_byte_key = suffix_edge[0];
        old_node.label = Some(suffix_edge);
        bridge_node.edges.insert(next_byte_key, old_node);
        let boxed = Box::new(bridge_node);
        assert(boxed.children().dom() =~= set![next_byte_key]);
        assert forall|c: Box<Node<V>>| #[trigger]
            m0.remove(byte_key).insert(byte_key, boxed).insert(byte_key, c) == m0.insert(
                byte_key,
                c,
            ) by {
            assert(m0.remove(byte_key).insert(byte_key, boxed).insert(byte_key, c) =~= m0.insert(
                byte_key,
                c,
            ));
        }
        self.edges.insert(byte_key, boxed);
        self.lookup_edge_mut(byte_key).unwrap()
    }

    /// Stores `value` under `token` and returns the value that it replaces.
    /// Nothing is stored under the empty token.
    #[verifier::rlimit(50)]
    pub fn insert(&mut self, token: &[u8], value: V) -> (r: Option<V>)
        requires
            old(self).wf_root(),
        ensures
            final(self).wf_root(),
            token@.len() == 0 ==> r is None && *final(self) == *old(self),
            token@.len() > 0 ==> {
                &&& r == old(self).lookup(token@)
                &&& final(self)@ == old(self)@.insert(token@, value)
                &&& final(self).key_count() == old(self).key_count() + if r is None {
                    1nat
                } else {
                    0nat
                }
            },
    {
        if token.len() == 0 {
            return None;
        }
        let ghost root0 = *self;
        let ghost v = value;
        let mut current: &mut Node<V> = self;
        let mut nav_token: &[u8] = token;
        let ghost mut at_root = true;
        let ghost mut nav = token@;

        loop
            invariant_except_break
                nav == nav_token@,
                nav.len() > 0,
                current.open_for(nav, at_root),
            invariant
                root0.lookup(token@) == current.lookup(nav),
                (current.put_post(final(current), nav, Some(v)) && final(current).wf_node(at_root))
                    ==> (root0.put_post(&*after_borrow(self), token@, Some(v)) && (*after_borrow(
                    self,
                )).wf_root()),
            ensures
                nav.len() == 0,
                !at_root,
                current.target_ok(),
            decreases nav_token@.len(),
        {
            let ghost prev = *current;
            match traverse_match(current, nav_token) {
                Some(m) => {
                    let edge_key = m.edge_key;
                    let ghost c = prev.children()[edge_key];
                    let ghost l = c.label_seq();
                    let ghost n = m.common@.len() as int;
                    assert(l.take(n) == nav.take(n));
                    assert(l =~= l.take(n) + l.skip(n));
                    assert(prev.wf_node(at_root));
                    assert(prev.children().contains_key(edge_key));
                    assert(c.wf_sub());
                    match m.leftover {
                        SuffixType::Empty => {
                            proof {
                                assert(l.skip(n).len() == 0);
                                assert(l =~= l.take(n));
                                assert(l.is_prefix_of(nav));
                                assert(nav.skip(n).len() == 0);
                                let rest = nav.skip(n);
                                assert(rest =~= Seq::<u8>::empty());
                                assert(prev.step(nav) == Some(c));
                                prev.lemma_descend(edge_key, nav, rest, Some(v), at_root);
                                nav = rest;
                                at_root = false;
                            }
                            current = current.next_helper(edge_key).unwrap();
                            break ;
                        },
                        SuffixType::OnlyToken(sufxt) => {
                            proof {
                                assert(l.skip(n).len() == 0);
                                assert(l =~= l.take(n));
                                assert(l.is_prefix_of(nav));
                                assert(prev.step(nav) == Some(c));
                                prev.lemma_descend(edge_key, nav, sufxt@, Some(v), at_root);
                                nav = sufxt@;
                                at_root = false;
                            }
                            nav_token = sufxt;
                            current = current.next_helper(edge_key).unwrap();
                        },
                        SuffixType::OnlyEdge(sufxe) => {
                            let interior_label1 = slice_to_vec(m.common);
                            let interior_label2 = slice_to_vec(sufxe);
                            proof {
                                assert(nav.skip(n).len() == 0);
                                assert(nav =~= nav.take(n));
                                let rest = nav.skip(n);
                                assert(rest =~= Seq::<u8>::empty());
                                assert(!l.is_prefix_of(nav));
                                assert(prev.step(nav) is None);
                                prev.lemma_bridged(edge_key, nav, rest, n, Some(v), at_root);
                                nav = rest;
                                at_root = false;
                            }
                            let temp_box = current.insert_bridge(
                                edge_key,
                                interior_label1,
                                interior_label2,
                            );
                            current = &mut **temp_box;
                            proof {
                                current.lemma_bridge_wf(*c, l.take(n), l.skip(n));
                            }
                            break ;
                        },
                        SuffixType::BothEdgeToken(sufxe, sufxt) => {
                            let interior_label1 = slice_to_vec(m.common);
                            let interior_label2 = slice_to_vec(sufxe);
                            proof {
                                assert(l[n] != nav[n]);
                                assert(!l.is_prefix_of(nav)) by {
                                    if l.is_prefix_of(nav) {
                                        assert(l[n] == nav.subrange(0, l.len() as int)[n]);
                                    }
                                }
                                assert(prev.step(nav) is None);
                                prev.lemma_bridged(edge_key, nav, sufxt@, n, Some(v), at_root);
                                nav = sufxt@;
                                at_root = false;
                            }
                            nav_token = sufxt;
                            let temp_box = current.insert_bridge(
                                edge_key,
                                interior_label1,
                                interior_label2,
                            );
                            current = &mut **temp_box;
                            proof {
                                current.lemma_bridge_wf(*c, l.take(n), l.skip(n));
                                assert(current.children().len() == 1);
                                assert(l.skip(n)[0] == l[n]);
                                assert(nav[0] != l.skip(n)[0]);
                            }
                        },
                    }
                },
                None => {
                    let key = nav_token[0];
                    let label = slice_to_vec(nav_token);
                    let leaf = Node::new(Some(label), NodeType::Key, None);
                    proof {
                        let rest = nav.skip(nav.len() as int);
                        assert(rest =~= Seq::<u8>::empty());
                        assert(prev.step(nav) is None);
                        prev.lemma_leaf(&leaf, nav, Some(v), at_root);
                        assert forall|x: Box<Node<V>>| #[trigger]
                            prev.children().insert(key, Box::new(leaf)).insert(key, x)
                                == prev.children().insert(key, x) by {
                            assert(prev.children().insert(key, Box::new(leaf)).insert(key, x)
                                =~= prev.children().insert(key, x));
                        }
                        assert(leaf.lookup(rest) is None);
                        nav = rest;
                        at_root = false;
                    }
                    current.edges.insert(key, Box::new(leaf));
                    current = current.next_helper(key).unwrap();
                    break ;
                },
            }
        }

        let ghost target = *current;
        let old_value = match current.tag {
            NodeType::Inner => {
                current.tag = NodeType::Key;
                current.value = Some(Box::new(value));
                None
            },
            NodeType::Key => {
                let taken = current.value.take();
                current.value = Some(Box::new(value));
                match taken {
                    Some(b) => Some(*b),
                    None => None,
                }
            },
        };
        proof {
            assert(nav =~= Seq::<u8>::empty());
            target.lemma_own_value(&*current, Some(v));
            assert(current.wf_sub());
        }
        proof {
            let fin = *final(self);
            root0.lemma_put_view(&fin, token@, Some(v));
        }
        old_value
    }

    /// What a change at or below a bridge that is about to be put in means for the parent.
    proof fn lemma_bridged(&self, key: u8, nav: Seq<u8>, rest: Seq<u8>, n: int, nv: Option<V>, at_root: bool)
        requires
            self.wf_node(at_root),
            nav.len() > 0,
            nav[0] == key,
            self.children().contains_key(key),
            1 <= n < self.children()[key].label_seq().len(),
            n <= nav.len(),
            self.children()[key].label_seq().take(n) == nav.take(n),
            rest == nav.skip(n),
            self.step(nav) is None,
        ensures
            forall|b1: Node<V>|
                #![trigger b1.bridges(*self.children()[key], self.children()[key].label_seq().take(n), self.children()[key].label_seq().skip(n))]
                b1.bridges(
                    *self.children()[key],
                    self.children()[key].label_seq().take(n),
                    self.children()[key].label_seq().skip(n),
                ) ==> self.lookup(nav) == b1.lookup(rest),
            forall|b1: Node<V>, p2: Node<V>, c2: Node<V>|
                b1.bridges(
                    *self.children()[key],
                    self.children()[key].label_seq().take(n),
                    self.children()[key].label_seq().skip(n),
                ) && self.shell_eq(&p2) && p2.children() == self.children().insert(
                    key,
                    Box::new(c2),
                ) && #[trigger] b1.put_post(&c2, rest, nv) && c2.wf_sub()
                    ==> #[trigger] self.put_post(&p2, nav, nv) && p2.wf_node(at_root),
    {
        let c = self.children()[key];
        let l = c.label_seq();
        let common = l.take(n);
        let sfx = l.skip(n);
        assert(l =~= common + sfx);
        assert(common =~= nav.subrange(0, n));
        assert(common.is_prefix_of(nav));
        assert forall|b1: Node<V>| #![trigger b1.bridges(*c, common, sfx)] b1.bridges(*c, common, sfx) implies self.lookup(nav) == b1.lookup(rest) by {
            self.lemma_bridge(&b1, key, common, sfx);
        }
        assert forall|b1: Node<V>, p2: Node<V>, c2: Node<V>|
            b1.bridges(*c, common, sfx) && self.shell_eq(&p2) && p2.children()
                == self.children().insert(key, Box::new(c2)) && #[trigger] b1.put_post(
                &c2,
                rest,
                nv,
            ) && c2.wf_sub() implies #[trigger] self.put_post(&p2, nav, nv) && p2.wf_node(
            at_root,
        ) by {
            self.lemma_bridge(&b1, key, common, sfx);
            self.lemma_hang(&p2, &b1, &c2, key, nav, rest, nv);
            self.lemma_wf_hang(&p2, &c2, key, nav, at_root);
        }
    }

    /// A fresh bridge over a well-formed child has well-formed children.
    proof fn lemma_bridge_wf(&self, c: Node<V>, common: Seq<u8>, sfx: Seq<u8>)
        requires
            self.bridges(c, common, sfx),
            c.wf_sub(),
            common.len() > 0,
            sfx.len() > 0,
        ensures
            self.children_wf(),
            self.children().len() == 1,
            self.target_ok(),
    {
        let c1 = self.children()[sfx[0]];
        assert(c1.children_wf() == c.children_wf());
        assert(c1.wf_sub());
        assert(self.children().dom().finite());
        assert(set![sfx[0]].len() == 1);
    }

    /// What a new leaf under a free edge byte means for the parent.
    proof fn lemma_leaf(&self, leaf: &Node<V>, nav: Seq<u8>, nv: Option<V>, at_root: bool)
        requires
            self.open_for(nav, at_root),
            nav.len() > 0,
            !self.children().contains_key(nav[0]),
            leaf.label_view() == Some(nav),
            leaf.value_view() is None,
            leaf.children() == Map::<u8, Box<Node<V>>>::empty(),
        ensures
            self.lookup(nav) is None,
            leaf.children_wf(),
            leaf.target_ok(),
            forall|p2: Node<V>, c2: Node<V>|
                self.shell_eq(&p2) && p2.children() == self.children().insert(nav[0], Box::new(c2))
                    && #[trigger] leaf.put_post(&c2, Seq::<u8>::empty(), nv) && c2.wf_sub()
                    ==> #[trigger] self.put_post(&p2, nav, nv) && p2.wf_node(at_root),
    {
        let key = nav[0];
        let rest = Seq::<u8>::empty();
        assert(nav.skip(nav.len() as int) =~= rest);
        assert(self.step(nav) is None);
        lemma_count_empty(leaf.children(), 256, false);
        assert forall|p2: Node<V>, c2: Node<V>|
            self.shell_eq(&p2) && p2.children() == self.children().insert(key, Box::new(c2))
                && #[trigger] leaf.put_post(&c2, rest, nv) && c2.wf_sub() implies #[trigger] self.put_post(
            &p2,
            nav,
            nv,
        ) && p2.wf_node(at_root) by {
            assert forall|k: Seq<u8>| k.len() > 0 && k[0] == key implies #[trigger] self.lookup(k)
                == (if nav.is_prefix_of(k) {
                leaf.lookup(k.skip(nav.len() as int))
            } else {
                None
            }) by {
                assert(self.step(k) is None);
                let k2 = k.skip(nav.len() as int);
                if nav.is_prefix_of(k) && k2.len() > 0 {
                    assert(leaf.step(k2) is None);
                }
            }
            self.lemma_hang(&p2, leaf, &c2, key, nav, rest, nv);
            self.lemma_wf_hang(&p2, &c2, key, nav, at_root);
        }
    }
}

} // verus!
