use crate::delete::{capture, directive, edge_byte, Cursor, Playback};
use crate::node::{lemma_count_empty, lemma_count_insert, lemma_count_split, lemma_prefix_concat, Node, NodeType};
use vstd::prelude::*;

verus! {

broadcast use vstd::std_specs::hash::group_hash_axioms;

impl<V> Node<V> {
    /// This node stands where `y` stood: it is `s` under the label of `y`
    /// followed by its own.
    spec fn merged_from(&self, y: Node<V>, s: Node<V>) -> bool {
        &&& self.label_view() == Some(y.label_seq() + s.label_seq())
        &&& self.tag_view() == s.tag_view()
        &&& self.value_view() == s.value_view()
        &&& self.children() == s.children()
    }

    /// The node at a level of a path that starts at `root`.
    spec fn level_node(root: Node<V>, p: Seq<Node<V>>, i: int) -> Node<V> {
        if i == 0 {
            root
        } else {
            p[i - 1]
        }
    }

    /// Takes the child under `edge_key` out and puts its child under
    /// `merge_key` in its place, under both labels joined. Returns the child
    /// that was taken out.
    fn handle_passthrough(&mut self, edge_key: u8, merge_key: u8) -> (r: Box<Node<V>>)
        requires
            old(self).children().contains_key(edge_key),
            old(self).children()[edge_key].label_view() is Some,
            old(self).children()[edge_key].children().contains_key(merge_key),
            old(self).children()[edge_key].children()[merge_key].label_view() is Some,
        ensures
            old(self).shell_eq(final(self)),
            final(self).children().contains_key(edge_key),
            final(self).children() == old(self).children().insert(
                edge_key,
                final(self).children()[edge_key],
            ),
            final(self).children()[edge_key].merged_from(
                *old(self).children()[edge_key],
                *old(self).children()[edge_key].children()[merge_key],
            ),
            r.tag_view() == old(self).children()[edge_key].tag_view(),
            r.value_view() == old(self).children()[edge_key].value_view(),
            r.children() == old(self).children()[edge_key].children().remove(merge_key),
    {
        let mut passthrough = self.edges.remove(&edge_key).unwrap();
        let mut merged = passthrough.edges.remove(&merge_key).unwrap();
        let mut la = passthrough.label.take().unwrap();
        let mut lb = merged.label.take().unwrap();
        la.append(&mut lb);
        merged.label = Some(la);
        self.edges.insert(edge_key, merged);
        assert(self.children() =~= old(self).children().insert(edge_key, self.children()[edge_key]));
        passthrough
    }

    /// What the loss of a leaf child means for its parent.
    proof fn lemma_pruned(&self, key: u8, nav: Seq<u8>, at_root: bool)
        requires
            self.wf_node(at_root),
            self.children().contains_key(key),
            self.children()[key].value_view() is Some,
            self.children()[key].children().dom() =~= Set::<u8>::empty(),
            nav == self.children()[key].label_seq(),
            !at_root && self.tag_view() is Inner ==> self.children().len() >= 3,
        ensures
            forall|x2: Node<V>|
                self.shell_eq(&x2) && x2.children() == self.children().remove(key)
                    ==> #[trigger] self.put_post(&x2, nav, None) && x2.wf_node(at_root),
    {
        reveal_with_fuel(Node::lookup, 4);
        let t = self.children()[key];
        assert(t.wf_sub());
        assert(nav[0] == key);
        assert forall|x2: Node<V>|
            self.shell_eq(&x2) && x2.children() == self.children().remove(
                key,
            ) implies #[trigger] self.put_post(&x2, nav, None) && x2.wf_node(at_root) by {
            assert forall|k: Seq<u8>| #[trigger]
                x2.lookup(k) == if k == nav {
                    None
                } else {
                    self.lookup(k)
                } by {
                if k.len() == 0 {
                } else if k[0] == key {
                    assert(x2.step(k) is None);
                    if nav.is_prefix_of(k) {
                        let k2 = k.skip(nav.len() as int);
                        if k2.len() == 0 {
                            assert(k =~= nav);
                        } else {
                            assert(t.step(k2) is None);
                        }
                    }
                } else {
                    assert(x2.children().contains_key(k[0]) == self.children().contains_key(k[0]));
                    assert(x2.step(k) == self.step(k));
                }
            }
            assert(nav.skip(nav.len() as int) =~= Seq::<u8>::empty());
            assert(nav.is_prefix_of(nav));
            assert(self.step(nav) == Some(t));
            assert(self.lookup(nav) == t.lookup(Seq::<u8>::empty()));
            lemma_count_split(self.children(), key, 256, false);
            lemma_count_empty(t.children(), 256, false);
            assert(x2.children().dom() =~= self.children().dom().remove(key));
            assert forall|b: u8| #[trigger] x2.children().contains_key(b) implies {
                &&& x2.children()[b].label_seq().len() > 0
                &&& x2.children()[b].label_seq()[0] == b
                &&& x2.children()[b].wf_sub()
            } by {
                assert(self.children().contains_key(b));
            }
        }
    }

    /// What it means for a parent that its child, a key with one child of
    /// its own, gives way to that child under both labels.
    proof fn lemma_merge_single(&self, c: u8, g: u8, nav: Seq<u8>, at_root: bool)
        requires
            self.wf_node(at_root),
            self.children().contains_key(c),
            self.children()[c].value_view() is Some,
            self.children()[c].children().dom() =~= set![g],
            nav == self.children()[c].label_seq(),
        ensures
            forall|x2: Node<V>, m: Node<V>|
                self.shell_eq(&x2) && x2.children() == self.children().insert(c, Box::new(m))
                    && #[trigger] m.merged_from(*self.children()[c], *self.children()[c].children()[g])
                    ==> #[trigger] self.put_post(&x2, nav, None) && x2.wf_node(at_root),
    {
        reveal_with_fuel(Node::lookup, 4);
        let y = self.children()[c];
        let s = y.children()[g];
        assert(y.wf_sub());
        assert(y.children().contains_key(g));
        assert(s.wf_sub());
        let ly = y.label_seq();
        let ls = s.label_seq();
        assert forall|x2: Node<V>, m: Node<V>|
            self.shell_eq(&x2) && x2.children() == self.children().insert(c, Box::new(m))
                && #[trigger] m.merged_from(*y, *s) implies #[trigger] self.put_post(&x2, nav, None)
            && x2.wf_node(at_root) by {
            let lm = ly + ls;
            assert(m.label_seq() == lm);
            assert forall|k: Seq<u8>| #[trigger]
                x2.lookup(k) == if k == nav {
                    None
                } else {
                    self.lookup(k)
                } by {
                if k.len() == 0 {
                } else if k[0] == c {
                    lemma_prefix_concat(ly, ls, k);
                    assert(x2.children()[c] == Box::new(m));
                    let k2 = k.skip(ly.len() as int);
                    if lm.is_prefix_of(k) {
                        assert(x2.step(k) == Some(Box::new(m)));
                        m.lemma_lookup_shell(&*s, k.skip(lm.len() as int));
                        assert(k2[0] == k2.subrange(0, ls.len() as int)[0]);
                        assert(y.step(k2) == Some(s));
                        assert(k.len() > nav.len());
                    } else {
                        assert(x2.step(k) is None);
                        if ly.is_prefix_of(k) {
                            if k2.len() == 0 {
                                assert(k =~= nav);
                            } else {
                                assert(y.step(k2) is None);
                            }
                        }
                    }
                } else {
                    assert(x2.children().contains_key(k[0]) == self.children().contains_key(k[0]));
                    if self.children().contains_key(k[0]) {
                        assert(x2.children()[k[0]] == self.children()[k[0]]);
                    }
                    assert(x2.step(k) == self.step(k));
                }
            }
            assert(nav.skip(nav.len() as int) =~= Seq::<u8>::empty());
            assert(nav.is_prefix_of(nav));
            assert(self.step(nav) == Some(y));
            assert(self.lookup(nav) == y.lookup(Seq::<u8>::empty()));
            m.lemma_lookup_shell(&*s, Seq::<u8>::empty());
            lemma_count_insert(self.children(), c, Box::new(m), false);
            lemma_count_split(y.children(), g, 256, false);
            lemma_count_empty(y.children().remove(g), 256, false);
            assert(m.children_wf() == s.children_wf());
            assert(m.wf_sub());
            assert(lm[0] == ly[0]);
            self.lemma_wf_hang(&x2, &m, c, nav, at_root);
        }
    }

    /// What it means for a parent that its child, an inner node with a leaf
    /// under `t` and one other child, gives way to that other child under
    /// both labels.
    proof fn lemma_merge_pruned(&self, c: u8, g: u8, t: u8, nav: Seq<u8>, at_root: bool)
        requires
            self.wf_node(at_root),
            self.children().contains_key(c),
            self.children()[c].value_view() is None,
            self.children()[c].children().dom() =~= set![t, g],
            g != t,
            self.children()[c].children()[t].value_view() is Some,
            self.children()[c].children()[t].children().dom() =~= Set::<u8>::empty(),
            nav == self.children()[c].label_seq() + self.children()[c].children()[t].label_seq(),
        ensures
            forall|x2: Node<V>, m: Node<V>|
                self.shell_eq(&x2) && x2.children() == self.children().insert(c, Box::new(m))
                    && #[trigger] m.merged_from(*self.children()[c], *self.children()[c].children()[g])
                    ==> #[trigger] self.put_post(&x2, nav, None) && x2.wf_node(at_root),
    {
        reveal_with_fuel(Node::lookup, 4);
        let y = self.children()[c];
        let s = y.children()[g];
        let leaf = y.children()[t];
        assert(y.wf_sub());
        assert(y.children().contains_key(g));
        assert(y.children().contains_key(t));
        assert(s.wf_sub());
        assert(leaf.wf_sub());
        let ly = y.label_seq();
        let ls = s.label_seq();
        let lt = leaf.label_seq();
        assert forall|x2: Node<V>, m: Node<V>|
            self.shell_eq(&x2) && x2.children() == self.children().insert(c, Box::new(m))
                && #[trigger] m.merged_from(*y, *s) implies #[trigger] self.put_post(&x2, nav, None)
            && x2.wf_node(at_root) by {
            let lm = ly + ls;
            assert(m.label_seq() == lm);
            assert forall|k: Seq<u8>| #[trigger]
                x2.lookup(k) == if k == nav {
                    None
                } else {
                    self.lookup(k)
                } by {
                if k.len() == 0 {
                } else if k[0] == c {
                    lemma_prefix_concat(ly, ls, k);
                    lemma_prefix_concat(ly, lt, k);
                    assert(x2.children()[c] == Box::new(m));
                    let k2 = k.skip(ly.len() as int);
                    if lm.is_prefix_of(k) {
                        assert(x2.step(k) == Some(Box::new(m)));
                        m.lemma_lookup_shell(&*s, k.skip(lm.len() as int));
                        assert(k2[0] == k2.subrange(0, ls.len() as int)[0]);
                        assert(y.step(k2) == Some(s));
                        if k == nav {
                            assert(lt.is_prefix_of(k2));
                            assert(k2[0] == k2.subrange(0, lt.len() as int)[0]);
                        }
                    } else {
                        assert(x2.step(k) is None);
                        if ly.is_prefix_of(k) {
                            if k2.len() == 0 {
                                assert(k.len() < nav.len());
                            } else if k2[0] == t {
                                if lt.is_prefix_of(k2) {
                                    let k3 = k2.skip(lt.len() as int);
                                    assert(y.step(k2) == Some(leaf));
                                    if k3.len() == 0 {
                                        assert(k =~= nav);
                                    } else {
                                        assert(leaf.step(k3) is None);
                                        assert(k.len() > nav.len());
                                    }
                                } else {
                                    assert(y.step(k2) is None);
                                    assert(!nav.is_prefix_of(k));
                                    assert(k != nav) by {
                                        if k == nav {
                                            assert(nav.subrange(0, nav.len() as int) =~= nav);
                                        }
                                    }
                                }
                            } else {
                                assert(y.step(k2) is None);
                                assert(k != nav) by {
                                    if k == nav {
                                        assert(lt.is_prefix_of(k2));
                                        assert(k2[0] == k2.subrange(0, lt.len() as int)[0]);
                                    }
                                }
                            }
                        } else {
                            assert(k != nav) by {
                                if k == nav {
                                    assert(nav.subrange(0, nav.len() as int) =~= nav);
                                }
                            }
                        }
                    }
                } else {
                    assert(x2.children().contains_key(k[0]) == self.children().contains_key(k[0]));
                    if self.children().contains_key(k[0]) {
                        assert(x2.children()[k[0]] == self.children()[k[0]]);
                    }
                    assert(x2.step(k) == self.step(k));
                    assert(nav[0] == ly[0]);
                }
            }
            lemma_prefix_concat(ly, lt, nav);
            assert(nav.subrange(0, nav.len() as int) =~= nav);
            assert(ly.is_prefix_of(nav));
            let n2 = nav.skip(ly.len() as int);
            assert(n2 =~= lt);
            assert(self.step(nav) == Some(y));
            assert(n2.is_prefix_of(n2));
            assert(n2[0] == t);
            assert(y.step(n2) == Some(leaf));
            assert(n2.skip(lt.len() as int) =~= Seq::<u8>::empty());
            assert(self.lookup(nav) == leaf.lookup(Seq::<u8>::empty()));
            m.lemma_lookup_shell(&*s, Seq::<u8>::empty());
            lemma_count_insert(self.children(), c, Box::new(m), false);
            lemma_count_split(y.children(), g, 256, false);
            lemma_count_split(y.children().remove(g), t, 256, false);
            lemma_count_empty(y.children().remove(g).remove(t), 256, false);
            lemma_count_empty(leaf.children(), 256, false);
            assert(m.children_wf() == s.children_wf());
            assert(m.wf_sub());
            assert(lm[0] == ly[0]);
            self.lemma_wf_hang(&x2, &m, c, nav, at_root);
        }
    }

    /// Makes this node an inner node and takes its value.
    fn unmark(&mut self) -> (r: Option<V>)
        ensures
            r == old(self).value_view(),
            final(self).value_view() is None,
            final(self).tag_view() is Inner,
            final(self).label_view() == old(self).label_view(),
            final(self).children() == old(self).children(),
    {
        self.tag = NodeType::Inner;
        match self.value.take() {
            Some(b) => Some(*b),
            None => None,
        }
    }

    /// Takes the child under `key` out.
    fn prune(&mut self, key: u8) -> (r: Box<Node<V>>)
        requires
            old(self).children().contains_key(key),
        ensures
            r == old(self).children()[key],
            old(self).shell_eq(final(self)),
            final(self).children() == old(self).children().remove(key),
    {
        self.edges.remove(&key).unwrap()
    }

    /// Removes the value stored under `prefix` and returns it. The removal
    /// is planned first and then carried out in one walk down from this node:
    /// through the levels that the plan keeps, to the node where it cuts or
    /// merges; the steps that follow work on what was taken out.
    #[verifier::rlimit(100)]
    #[verifier::spinoff_prover]
    pub fn remove(&mut self, prefix: &[u8]) -> (r: Option<V>)
        requires
            old(self).wf_root(),
        ensures
            final(self).wf_root(),
            r == old(self).lookup(prefix@),
            final(self)@ == old(self)@.remove(prefix@),
            final(self).key_count() + (if r is Some {
                1nat
            } else {
                0nat
            }) == old(self).key_count(),
    {
        let ghost root0 = *self;
        let ghost token = prefix@;
        proof {
            root0.lemma_lookup_last(token);
            root0.lemma_last_wf(token);
            root0.lemma_path_links(token);
        }
        let mut replay = match capture(self, prefix) {
            Some(plan) => plan,
            None => {
                assert(root0@.remove(token) =~= root0@);
                return None;
            },
        };
        let ghost plan = replay@;
        let ghost p = root0.path(token);
        let ghost n = p.len() as int;
        let total = replay.len();
        assert(n >= 1);

        let mut current: &mut Node<V> = self;
        let mut counter: usize = 0;
        let ghost mut nav = token;
        let ghost mut at_root = true;
        assert(p.skip(0) =~= p);

        loop
            invariant
                root0.wf_root(),
                p == root0.path(token),
                n == p.len(),
                n >= 1,
                n + 1 <= usize::MAX,
                forall|i: int| 0 <= i < n ==> (#[trigger] p[i]).wf_sub(),
                plan.len() == n + 1,
                forall|j: int| 0 <= j <= n ==> #[trigger] plan[j] == directive(root0, token, n - j),
                counter <= n,
                replay@ == plan.take(n + 1 - counter),
                *current == Self::level_node(root0, p, counter as int),
                at_root == (counter == 0),
                current.path(nav) == p.skip(counter as int),
                current.rest(nav).len() == 0,
                forall|j: int| 0 <= j < counter ==> #[trigger] directive(root0, token, j) is Keep,
                (current.put_post(final(current), nav, None) && final(current).wf_node(at_root))
                    ==> (root0.put_post(&*after_borrow(self), token, None) && (*after_borrow(
                    self,
                )).wf_root()),
            ensures
                !(directive(root0, token, counter as int) is Keep),
            decreases replay@.len(),
        {
            let item = replay[replay.len() - 1];
            assert(item == directive(root0, token, counter as int));
            match item {
                Playback::Keep(Cursor::Link(level, edge_key)) if level == counter => {
                    let ghost prev = *current;
                    let ghost i = counter as int;
                    proof {
                        assert(i < n);
                        prev.lemma_first_step(nav);
                        assert(p.skip(i)[0] == p[i]);
                        assert(p.skip(i).skip(1) =~= p.skip(i + 1));
                        let rest = nav.skip(p[i].label_seq().len() as int);
                        prev.lemma_descend(edge_key, nav, rest, None, at_root);
                        nav = rest;
                        at_root = false;
                    }
                    replay.pop();
                    current = current.next_helper(edge_key).unwrap();
                    counter += 1;
                },
                _ => {
                    break ;
                },
            }
        }

        let item = replay.pop().unwrap();
        let ghost prev = *current;
        let ghost i = counter as int;
        proof {
            assert(item == directive(root0, token, i));
            if i < n {
                prev.lemma_first_step(nav);
                assert(p.skip(i)[0] == p[i]);
                assert(p.skip(i).skip(1) =~= p.skip(i + 1));
            }
        }
        let value = match item {
            Playback::Unmark(Cursor::Node(level)) if level == counter => {
                proof {
                    assert(i == n);
                    assert(p.skip(n) =~= Seq::<Node<V>>::empty());
                    prev.lemma_no_step(nav);
                    assert(directive(root0, token, n - 1) is Keep);
                }
                let taken = current.unmark();
                proof {
                    assert(nav =~= Seq::<u8>::empty());
                    prev.lemma_own_value(&*current, None);
                    assert(current.wf_sub());
                }
                taken
            },
            Playback::Prune(Cursor::Link(level, edge_key)) if level == counter => {
                proof {
                    assert(i == n - 1);
                    let rest = nav.skip(p[i].label_seq().len() as int);
                    p[i].lemma_no_step(rest);
                    assert(nav =~= p[i].label_seq());
                    assert(p[i].children().dom().finite());
                    p[i].children().dom().lemma_len0_is_empty();
                    if i >= 1 {
                        assert(directive(root0, token, i - 1) is Keep);
                    }
                    prev.lemma_pruned(edge_key, nav, at_root);
                }
                let mut leaf = current.prune(edge_key);
                proof {
                    assert(prev.put_post(&*current, nav, None));
                    assert(current.wf_node(at_root));
                }
                counter += 1;
                match replay.pop() {
                    Some(Playback::Unmark(Cursor::Node(below))) if below == counter => leaf.unmark(),
                    _ => {
                        assert(false);
                        None
                    },
                }
            },
            Playback::Merge(Cursor::DoubleLink(level, child_key, merge_key)) if level == counter => {
                proof {
                    assert(i < n);
                    let rest = nav.skip(p[i].label_seq().len() as int);
                    if i == n - 1 && p[n - 1].children().len() == 1 {
                        p[i].lemma_only_key();
                        p[i].lemma_no_step(rest);
                        assert(nav =~= p[i].label_seq());
                        prev.lemma_merge_single(child_key, merge_key, nav, at_root);
                    } else {
                        assert(i == n - 2);
                        p[i].lemma_other_key(edge_byte(p, i + 1));
                        p[i].lemma_first_step(rest);
                        assert(p.skip(i + 1)[0] == p[i + 1]);
                        assert(p.skip(i + 1).skip(1) =~= p.skip(i + 2));
                        let rest2 = rest.skip(p[i + 1].label_seq().len() as int);
                        p[i + 1].lemma_no_step(rest2);
                        assert(rest =~= p[i + 1].label_seq());
                        assert(p[i + 1].children().dom().finite());
                        p[i + 1].children().dom().lemma_len0_is_empty();
                        prev.lemma_merge_pruned(
                            child_key,
                            merge_key,
                            edge_byte(p, i + 1),
                            nav,
                            at_root,
                        );
                    }
                    assert(p[i].children().contains_key(merge_key));
                    assert(p[i].children()[merge_key].wf_sub());
                }
                let mut passed = current.handle_passthrough(child_key, merge_key);
                proof {
                    assert(current.children()[child_key].merged_from(
                        *prev.children()[child_key],
                        *prev.children()[child_key].children()[merge_key],
                    ));
                    assert(prev.put_post(&*current, nav, None));
                    assert(current.wf_node(at_root));
                }
                counter += 1;
                match replay.pop() {
                    Some(Playback::Unmark(Cursor::Node(below))) if below == counter => {
                        passed.unmark()
                    },
                    Some(Playback::Prune(Cursor::Link(below, edge_key))) if below == counter => {
                        let mut leaf = passed.prune(edge_key);
                        counter += 1;
                        match replay.pop() {
                            Some(Playback::Unmark(Cursor::Node(last))) if last == counter => {
                                leaf.unmark()
                            },
                            _ => {
                                assert(false);
                                None
                            },
                        }
                    },
                    _ => {
                        assert(false);
                        None
                    },
                }
            },
            _ => {
                assert(false);
                None
            },
        };
        proof {
            let fin = *final(self);
            root0.lemma_put_view(&fin, token, None);
        }
        value
    }
}

} // verus!
