use crate::node::Node;
use crate::traverse::{traverse_match, SuffixType};
use vstd::prelude::*;

verus! {

impl<V> Node<V> {
    /// The label of the node of the key `prefix`, and the value stored under
    /// the key, for writing. Whatever is written, the keys stay as they are.
    #[verifier::rlimit(50)]
    pub fn search_mut(&mut self, prefix: &[u8]) -> (r: Option<(&[u8], &mut V)>)
        requires
            old(self).wf_root(),
        ensures
            r is Some <==> old(self)@.contains_key(prefix@),
            final(self).wf_root(),
            final(self).key_count() == old(self).key_count(),
            match r {
                Some((l, v)) => {
                    &&& *v == old(self)@[prefix@]
                    &&& Some(l@) == old(self).last(prefix@).label_view()
                    &&& final(self)@ == old(self)@.insert(prefix@, *final(v))
                },
                None => final(self)@ == old(self)@,
            },
    {
        let ghost root0 = *self;
        let ghost token = prefix@;
        proof {
            root0.lemma_lookup_last(token);
            root0.lemma_put_same(token);
            root0.lemma_put_view(&root0, token, root0.lookup(token));
            assert(root0@.remove(token) =~= root0@ || root0@.contains_key(token));
            if root0@.contains_key(token) {
                assert(root0@.insert(token, root0@[token]) =~= root0@);
            }
        }
        if prefix.len() == 0 {
            return None;
        }
        let mut current: &mut Node<V> = self;
        let mut nav_token: &[u8] = prefix;
        let mut alive = true;
        let ghost mut at_root = true;
        let ghost mut nav = token;

        loop
            invariant_except_break
                nav == nav_token@,
                nav.len() > 0,
                alive,
            invariant
                current.wf_node(at_root),
                root0.wf_root(),
                root0.lookup(token) == current.lookup(nav),
                root0.last(token) == current.last(nav),
                root0.rest(token) == current.rest(nav),
                forall|nv: Option<V>|
                    (#[trigger] current.put_post(final(current), nav, nv) && final(current).wf_node(at_root))
                        ==> (root0.put_post(&*after_borrow(self), token, nv) && (*after_borrow(
                        self,
                    )).wf_root()),
            ensures
                alive ==> nav.len() == 0 && !at_root,
                !alive ==> current.lookup(nav) is None,
            decreases nav_token@.len(),
        {
            let ghost prev = *current;
            match traverse_match(current, nav_token) {
                Some(m) => {
                    let edge_key = m.edge_key;
                    let ghost c = prev.children()[edge_key];
                    let ghost l = c.label_seq();
                    let ghost n = m.common@.len() as int;
                    assert(l.take(n) == nav.take(n));
                    assert(c.wf_sub());
                    match m.leftover {
                        SuffixType::Empty => {
                            proof {
                                assert(l.skip(n).len() == 0);
                                assert(l =~= l.take(n));
                                assert(l.is_prefix_of(nav));
                                assert(nav.skip(n).len() == 0);
                                let rest = nav.skip(n);
                                assert(rest =~= Seq::<u8>::empty());
                                assert(prev.step(nav) == Some(c));
                                assert forall|nv: Option<V>, p2: Node<V>, c2: Node<V>|
                                    #![trigger p2.children(), c.put_post(&c2, rest, nv)]
                                    prev.shell_eq(&p2) && p2.children() == prev.children().insert(
                                        edge_key,
                                        Box::new(c2),
                                    ) && c.put_post(&c2, rest, nv) && c2.wf_sub() implies prev.put_post(
                                    &p2,
                                    nav,
                                    nv,
                                ) && p2.wf_node(at_root) by {
                                    prev.lemma_descend(edge_key, nav, rest, nv, at_root);
                                }
                                nav = rest;
                                at_root = false;
                            }
                            current = current.next_helper(edge_key).unwrap();
                            break ;
                        },
                        SuffixType::OnlyToken(sufxt) => {
                            proof {
                                assert(l.skip(n).len() == 0);
                                assert(l =~= l.take(n));
                                assert(l.is_prefix_of(nav));
                                assert(prev.step(nav) == Some(c));
                                let rest = sufxt@;
                                assert forall|nv: Option<V>, p2: Node<V>, c2: Node<V>|
                                    #![trigger p2.children(), c.put_post(&c2, rest, nv)]
                                    prev.shell_eq(&p2) && p2.children() == prev.children().insert(
                                        edge_key,
                                        Box::new(c2),
                                    ) && c.put_post(&c2, rest, nv) && c2.wf_sub() implies prev.put_post(
                                    &p2,
                                    nav,
                                    nv,
                                ) && p2.wf_node(at_root) by {
                                    prev.lemma_descend(edge_key, nav, rest, nv, at_root);
                                }
                                nav = rest;
                                at_root = false;
                            }
                            nav_token = sufxt;
                            current = current.next_helper(edge_key).unwrap();
                        },
                        _ => {
                            proof {
                                assert(l.skip(n).len() > 0);
                                assert(!l.is_prefix_of(nav)) by {
                                    if l.is_prefix_of(nav) {
                                        if n < nav.len() {
                                            assert(l[n] == nav.subrange(0, l.len() as int)[n]);
                                        }
                                    }
                                }
                                assert(prev.step(nav) is None);
                            }
                            alive = false;
                            break ;
                        },
                    }
                },
                None => {
                    assert(prev.step(nav) is None);
                    alive = false;
                    break ;
                },
            }
        }

        let ghost target = *current;
        proof {
            target.lemma_put_same(nav);
            assert forall|b: Node<V>, nv: Option<V>| #[trigger]
                root0.put_post(&b, token, nv) implies b@ == (match nv {
                Some(v) => root0@.insert(token, v),
                None => root0@.remove(token),
            }) && b.key_count() + (if root0.lookup(token) is Some {
                1nat
            } else {
                0nat
            }) == root0.key_count() + (if nv is Some {
                1nat
            } else {
                0nat
            }) by {
                root0.lemma_put_view(&b, token, nv);
            }
            if alive && target.value_view() is Some {
                assert(nav =~= Seq::<u8>::empty());
                assert(target.wf_sub());
                assert forall|b: Node<V>|
                    #![trigger b.children()]
                    b.label_view() == target.label_view() && b.children() == target.children()
                        && b.tag_view() == target.tag_view() && b.value_view() is Some implies target.put_post(
                    &b,
                    nav,
                    b.value_view(),
                ) && b.wf_sub() by {
                    target.lemma_own_value(&b, b.value_view());
                }
            }
        }
        if alive {
            let view = current.node_view_mut();
            match (view.label, view.value) {
                (Some(l), Some(v)) => {
                    assert(target.put_post(&*after_borrow(current), nav, Some(*final(v))));
                    assert((*after_borrow(current)).wf_sub());
                    assert(root0.put_post(&*after_borrow(self), token, Some(*final(v))));
                    Some((l, v))
                },
                _ => {
                    assert(target.put_post(&*after_borrow(current), nav, None));
                    assert(root0.put_post(&*after_borrow(self), token, None));
                    None
                },
            }
        } else {
            assert(root0.put_post(&*after_borrow(self), token, None));
            None
        }
    }
}

} // verus!
