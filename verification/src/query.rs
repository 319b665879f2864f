use crate::node::{lemma_prefix_concat, lemma_sum_children, lemma_sum_first, lemma_sum_push, sum_counts, Node};
use crate::traverse::{frames_of, traverse, TraverseItem, TraverseResult, TraverseType};
use std::collections::VecDeque;
use vstd::prelude::*;
use vstd::slice::slice_to_vec;

verus! {

/// The byte strings of a list of keys.
pub open spec fn key_list(keys: Seq<Vec<u8>>) -> Seq<Seq<u8>> {
    keys.map_values(|v: Vec<u8>| v@)
}

/// `k` is a key of the subtree of `n`, where `n` stands at `at`.
pub open spec fn holds<V>(n: Node<V>, at: Seq<u8>, k: Seq<u8>) -> bool {
    at.is_prefix_of(k) && n.lookup(k.skip(at.len() as int)) is Some
}

/// `k` is a key of one of the subtrees that wait in `q`.
spec fn covered<V>(q: Seq<(Node<V>, Seq<u8>)>, k: Seq<u8>) -> bool {
    exists|i: int| 0 <= i < q.len() && holds((#[trigger] q[i]).0, q[i].1, k)
}

/// What a queue of node references and byte strings stands for.
spec fn queue_view<V>(q: Seq<(&Node<V>, Vec<u8>)>) -> Seq<(Node<V>, Seq<u8>)> {
    q.map_values(|e: (&Node<V>, Vec<u8>)| (*e.0, e.1@))
}

spec fn queue_nodes<V>(q: Seq<(&Node<V>, Vec<u8>)>) -> Seq<Node<V>> {
    q.map_values(|e: (&Node<V>, Vec<u8>)| *e.0)
}

/// The keys below `start` are those found so far and those of the subtrees
/// that wait; no subtree that waits stands above a key found or above
/// another that waits.
spec fn search_inv<V>(
    start: Node<V>,
    seed: Seq<u8>,
    res: Seq<Seq<u8>>,
    q: Seq<(Node<V>, Seq<u8>)>,
) -> bool {
    &&& forall|k: Seq<u8>| #[trigger] holds(start, seed, k) <==> (res.contains(k) || covered(q, k))
    &&& res.no_duplicates()
    &&& forall|i: int, j: int|
        0 <= i < q.len() && 0 <= j < res.len() ==> !(#[trigger] q[i]).1.is_prefix_of(
            #[trigger] res[j],
        )
    &&& forall|i: int, j: int|
        0 <= i < q.len() && 0 <= j < q.len() && i != j ==> !(#[trigger] q[i]).1.is_prefix_of(
            (#[trigger] q[j]).1,
        )
    &&& forall|i: int| 0 <= i < q.len() ==> (#[trigger] q[i]).0.wf_any()
}

proof fn lemma_prefix_app(a: Seq<u8>, l: Seq<u8>)
    ensures
        a.is_prefix_of(a + l),
        a.is_prefix_of(a),
{
    assert((a + l).subrange(0, a.len() as int) =~= a);
    assert(a.subrange(0, a.len() as int) =~= a);
}

proof fn lemma_prefix_trans(a: Seq<u8>, b: Seq<u8>, c: Seq<u8>)
    requires
        a.is_prefix_of(b),
        b.is_prefix_of(c),
    ensures
        a.is_prefix_of(c),
{
    assert forall|i: int| 0 <= i < a.len() implies a[i] == c[i] by {
        assert(b.subrange(0, a.len() as int)[i] == a[i]);
        assert(c.subrange(0, b.len() as int)[i] == b[i]);
    }
    assert(a =~= c.subrange(0, a.len() as int));
}

/// Two prefixes of one string: one is a prefix of the other.
proof fn lemma_prefix_comparable(a: Seq<u8>, b: Seq<u8>, k: Seq<u8>)
    requires
        a.is_prefix_of(k),
        b.is_prefix_of(k),
    ensures
        a.len() <= b.len() ==> a.is_prefix_of(b),
        b.len() <= a.len() ==> b.is_prefix_of(a),
{
    if a.len() <= b.len() {
        assert forall|i: int| 0 <= i < a.len() implies a[i] == b[i] by {
            assert(k.subrange(0, a.len() as int)[i] == a[i]);
            assert(k.subrange(0, b.len() as int)[i] == b[i]);
        }
        assert(a =~= b.subrange(0, a.len() as int));
    }
    if b.len() <= a.len() {
        assert forall|i: int| 0 <= i < b.len() implies a[i] == b[i] by {
            assert(k.subrange(0, a.len() as int)[i] == a[i]);
            assert(k.subrange(0, b.len() as int)[i] == b[i]);
        }
        assert(b =~= a.subrange(0, b.len() as int));
    }
}

/// The keys of a subtree are the key of its root, where that holds a value,
/// and the keys of the subtrees of its children.
proof fn lemma_expand<V>(cur: Node<V>, at: Seq<u8>, kids: Seq<(u8, Node<V>)>, k: Seq<u8>)
    requires
        cur.children_wf(),
        forall|i: int|
            0 <= i < kids.len() ==> cur.children().contains_key((#[trigger] kids[i]).0)
                && *cur.children()[kids[i].0] == kids[i].1,
        forall|b: u8|
            cur.children().contains_key(b) ==> exists|i: int|
                0 <= i < kids.len() && (#[trigger] kids[i]).0 == b,
    ensures
        holds(cur, at, k) <==> ((k == at && cur.value_view() is Some) || exists|j: int|
            0 <= j < kids.len() && holds((#[trigger] kids[j]).1, at + kids[j].1.label_seq(), k)),
{
    let k1 = k.skip(at.len() as int);
    if holds(cur, at, k) {
        if k1.len() == 0 {
            assert(k =~= at);
        } else {
            let c = cur.children()[k1[0]];
            let l = c.label_seq();
            assert(cur.step(k1) == Some(c));
            let j = choose|j: int| 0 <= j < kids.len() && (#[trigger] kids[j]).0 == k1[0];
            assert(kids[j].1 == *c);
            lemma_prefix_concat(at, l, k);
            assert(holds(kids[j].1, at + kids[j].1.label_seq(), k));
        }
    }
    if k == at && cur.value_view() is Some {
        lemma_prefix_app(at, at);
        assert(k1 =~= Seq::<u8>::empty());
    }
    if exists|j: int|
        0 <= j < kids.len() && holds((#[trigger] kids[j]).1, at + kids[j].1.label_seq(), k) {
        let j = choose|j: int|
            0 <= j < kids.len() && holds((#[trigger] kids[j]).1, at + kids[j].1.label_seq(), k);
        let c = kids[j].1;
        let l = c.label_seq();
        assert(cur.children().contains_key(kids[j].0));
        lemma_prefix_concat(at, l, k);
        assert(k1[0] == k1.subrange(0, l.len() as int)[0]);
        assert(cur.step(k1) == Some(cur.children()[kids[j].0]));
    }
}

/// Taking the first subtree off the queue and putting its children at the
/// end keeps the queue and the keys found a record of the search.
proof fn lemma_search_step<V>(
    start: Node<V>,
    seed: Seq<u8>,
    res: Seq<Seq<u8>>,
    q: Seq<(Node<V>, Seq<u8>)>,
    kids: Seq<(u8, Node<V>)>,
    res2: Seq<Seq<u8>>,
    q2: Seq<(Node<V>, Seq<u8>)>,
)
    requires
        search_inv(start, seed, res, q),
        q.len() > 0,
        forall|i: int|
            0 <= i < kids.len() ==> q[0].0.children().contains_key((#[trigger] kids[i]).0)
                && *q[0].0.children()[kids[i].0] == kids[i].1,
        forall|i: int, j: int| 0 <= i < j < kids.len() ==> kids[i].0 != kids[j].0,
        forall|b: u8|
            q[0].0.children().contains_key(b) ==> exists|i: int|
                0 <= i < kids.len() && (#[trigger] kids[i]).0 == b,
        q2.len() == q.len() - 1 + kids.len(),
        forall|i: int| 0 <= i < q.len() - 1 ==> q2[i] == q[i + 1],
        forall|j: int|
            0 <= j < kids.len() ==> q2[q.len() - 1 + j] == (kids[j].1, q[0].1 + kids[j].1.label_seq()),
        res2 == (if q[0].0.value_view() is Some {
            res.push(q[0].1)
        } else {
            res
        }),
    ensures
        search_inv(start, seed, res2, q2),
{
    let cur = q[0].0;
    let at = q[0].1;
    let t = q.len() - 1;
    assert(cur.wf_any());
    lemma_prefix_app(at, at);
    assert forall|j: int| 0 <= j < kids.len() implies (#[trigger] kids[j]).1.wf_sub()
        && kids[j].1.label_seq()[0] == kids[j].0 by {
        assert(cur.children().contains_key(kids[j].0));
    }
    assert forall|k: Seq<u8>| #[trigger] holds(start, seed, k) <==> (res2.contains(k) || covered(
        q2,
        k,
    )) by {
        lemma_expand(cur, at, kids, k);
        if res.contains(k) {
            let j = choose|j: int| 0 <= j < res.len() && res[j] == k;
            assert(res2[j] == k);
        }
        if covered(q, k) {
            let i = choose|i: int| 0 <= i < q.len() && holds((#[trigger] q[i]).0, q[i].1, k);
            if i == 0 {
                if k == at && cur.value_view() is Some {
                    assert(res2[res.len() as int] == k);
                } else {
                    let j = choose|j: int|
                        0 <= j < kids.len() && holds(
                            (#[trigger] kids[j]).1,
                            at + kids[j].1.label_seq(),
                            k,
                        );
                    assert(holds(q2[t + j].0, q2[t + j].1, k));
                }
            } else {
                assert(holds(q2[i - 1].0, q2[i - 1].1, k));
            }
        }
        if res2.contains(k) && !res.contains(k) {
            let j = choose|j: int| 0 <= j < res2.len() && res2[j] == k;
            assert(j == res.len());
            assert(holds(q[0].0, q[0].1, k));
        }
        if covered(q2, k) {
            let i = choose|i: int| 0 <= i < q2.len() && holds((#[trigger] q2[i]).0, q2[i].1, k);
            if i < t {
                assert(holds(q[i + 1].0, q[i + 1].1, k));
            } else {
                let j = i - t;
                assert(holds(kids[j].1, at + kids[j].1.label_seq(), k));
                assert(holds(q[0].0, q[0].1, k));
            }
        }
    }
    assert(res2.no_duplicates()) by {
        if cur.value_view() is Some {
            assert forall|j: int| 0 <= j < res.len() implies res[j] != at by {
                assert(!q[0].1.is_prefix_of(res[j]));
            }
        }
    }
    assert forall|i: int, j: int| 0 <= i < q2.len() && 0 <= j < res2.len() implies !(
    #[trigger] q2[i]).1.is_prefix_of(#[trigger] res2[j]) by {
        if q2[i].1.is_prefix_of(res2[j]) {
            if i < t {
                assert(q2[i] == q[i + 1]);
                if j < res.len() {
                    assert(!q[i + 1].1.is_prefix_of(res[j]));
                } else {
                    assert(!q[i + 1].1.is_prefix_of(q[0].1));
                }
            } else {
                let l = kids[i - t].1.label_seq();
                assert(q2[i].1 == at + l);
                lemma_prefix_app(at, l);
                if j < res.len() {
                    lemma_prefix_trans(at, at + l, res[j]);
                    assert(!q[0].1.is_prefix_of(res[j]));
                }
            }
        }
    }
    assert forall|i: int, j: int|
        0 <= i < q2.len() && 0 <= j < q2.len() && i != j implies !(#[trigger] q2[i]).1.is_prefix_of(
        (#[trigger] q2[j]).1,
    ) by {
        if q2[i].1.is_prefix_of(q2[j].1) {
            if i < t && j < t {
                assert(!q[i + 1].1.is_prefix_of(q[j + 1].1));
            } else if i < t {
                let l = kids[j - t].1.label_seq();
                lemma_prefix_app(at, l);
                lemma_prefix_comparable(q[i + 1].1, at, at + l);
                assert(!q[i + 1].1.is_prefix_of(q[0].1));
                assert(!q[0].1.is_prefix_of(q[i + 1].1));
            } else if j < t {
                let l = kids[i - t].1.label_seq();
                lemma_prefix_app(at, l);
                lemma_prefix_trans(at, at + l, q[j + 1].1);
                assert(!q[0].1.is_prefix_of(q[j + 1].1));
            } else {
                let l1 = kids[i - t].1.label_seq();
                let l2 = kids[j - t].1.label_seq();
                lemma_prefix_concat(at, l1, at + l2);
                assert((at + l2).skip(at.len() as int) =~= l2);
                assert(l1[0] == l2.subrange(0, l1.len() as int)[0]);
                assert(kids[i - t].0 == kids[j - t].0);
            }
        }
    }
    assert forall|i: int| 0 <= i < q2.len() implies (#[trigger] q2[i]).0.wf_any() by {
        if i < t {
            assert(q2[i] == q[i + 1]);
        } else {
            assert(kids[i - t].1.wf_sub());
        }
    }
}

/// The keys that begin with `prefix` are the keys below the node that the
/// walk along `prefix` ends at.
proof fn lemma_keys_below<V>(root: Node<V>, prefix: Seq<u8>, k: Seq<u8>)
    requires
        root.children_wf(),
        prefix.len() > 0,
        prefix.is_prefix_of(k),
    ensures
        root.rest(prefix).len() == 0 ==> (root.lookup(k) is Some <==> holds(
            root.last(prefix),
            prefix,
            k,
        )),
        root.ends_in_label(prefix) ==> (root.lookup(k) is Some <==> holds(
            *root.last(prefix).children()[root.rest(prefix)[0]],
            prefix + root.last(prefix).children()[root.rest(prefix)[0]].label_seq().skip(
                root.rest(prefix).len() as int,
            ),
            k,
        )),
        root.rest(prefix).len() > 0 && !root.ends_in_label(prefix) ==> root.lookup(k) is None,
{
    let x = k.skip(prefix.len() as int);
    assert(k =~= prefix + x);
    root.lemma_lookup_extend(prefix, x);
    root.lemma_last_wf(prefix);
    root.lemma_rest_stuck(prefix);
    let m = root.last(prefix);
    let r = root.rest(prefix);
    if r.len() == 0 {
        assert(r + x =~= x);
    } else {
        assert((r + x)[0] == r[0]);
        if m.children().contains_key(r[0]) {
            let c = m.children()[r[0]];
            let lc = c.label_seq();
            assert(c.wf_sub());
            if r.is_prefix_of(lc) {
                let sfx = lc.skip(r.len() as int);
                assert(lc =~= r + sfx);
                lemma_prefix_concat(r, sfx, r + x);
                assert((r + x).skip(r.len() as int) =~= x);
                lemma_prefix_concat(prefix, sfx, k);
                lemma_prefix_app(r, x);
                if sfx.is_prefix_of(x) {
                    assert(m.step(r + x) == Some(c));
                    assert((r + x).skip(lc.len() as int) =~= x.skip(sfx.len() as int));
                    assert(k.skip((prefix + sfx).len() as int) =~= x.skip(sfx.len() as int));
                } else {
                    assert(m.step(r + x) is None);
                }
            } else {
                lemma_prefix_app(r, x);
                if lc.is_prefix_of(r + x) {
                    lemma_prefix_comparable(lc, r, r + x);
                    assert(m.step(r) is None);
                }
                assert(m.step(r + x) is None);
            }
        } else {
            assert(m.step(r + x) is None);
        }
    }
}

/// The keys of the subtree of `current`, where `current` stands at `seed`:
/// each key once, in the order of a walk through the subtree level by level.
pub fn keys_below<V>(current: &Node<V>, seed: Vec<u8>) -> (result: Vec<Vec<u8>>)
    requires
        current.wf_any(),
    ensures
        key_list(result@).no_duplicates(),
        forall|k: Seq<u8>| #[trigger] key_list(result@).contains(k) <==> holds(*current, seed@, k),
{
    let mut result: Vec<Vec<u8>> = Vec::new();
    let mut backlog: VecDeque<(&Node<V>, Vec<u8>)> = VecDeque::new();
    let ghost start = *current;
    let ghost seed0 = seed@;
    backlog.push_back((current, seed));
    proof {
        let q = queue_view(backlog@);
        let res = key_list(result@);
        assert forall|k: Seq<u8>| #[trigger] holds(start, seed0, k) <==> (res.contains(k)
            || covered(q, k)) by {
            if holds(start, seed0, k) {
                assert(holds(q[0].0, q[0].1, k));
            }
        }
        assert(search_inv(start, seed0, res, q));
    }

    while backlog.len() > 0
        invariant
            search_inv(start, seed0, key_list(result@), queue_view(backlog@)),
        decreases sum_counts(queue_nodes(backlog@), true),
    {
        let ghost q = queue_view(backlog@);
        let ghost res = key_list(result@);
        let ghost nodes0 = queue_nodes(backlog@);
        let (current, bytes) = backlog.pop_front().unwrap();
        let ghost tail = backlog@;
        let edges = current.edge_list();
        let ghost kids = edges@.map_values(|e: (u8, &Node<V>)| (e.0, *e.1));
        let ghost kid_nodes = edges@.map_values(|e: (u8, &Node<V>)| *e.1);
        let ghost kid_keys = edges@.map_values(|e: (u8, &Node<V>)| e.0);
        proof {
            assert(q[0].0 == *current);
            assert(current.wf_any());
            lemma_sum_first(nodes0, true);
            assert(nodes0.skip(1) =~= queue_nodes(tail));
            assert(kid_nodes.take(0) =~= Seq::<Node<V>>::empty());
        }
        let mut j: usize = 0;
        while j < edges.len()
            invariant
                j <= edges@.len(),
                current.wf_any(),
                kid_nodes == edges@.map_values(|e: (u8, &Node<V>)| *e.1),
                forall|i: int|
                    0 <= i < edges@.len() ==> current.children().contains_key(
                        (#[trigger] edges@[i]).0,
                    ) && *current.children()[edges@[i].0] == *edges@[i].1,
                backlog@.len() == tail.len() + j,
                forall|i: int| 0 <= i < tail.len() ==> backlog@[i] == tail[i],
                forall|i: int|
                    0 <= i < j ==> *(#[trigger] backlog@[tail.len() + i]).0 == *edges@[i].1
                        && backlog@[tail.len() + i].1@ == bytes@ + edges@[i].1.label_seq(),
                sum_counts(queue_nodes(backlog@), true) == sum_counts(queue_nodes(tail), true)
                    + sum_counts(kid_nodes.take(j as int), true),
            decreases edges@.len() - j,
        {
            let child: &Node<V> = edges[j].1;
            proof {
                assert(current.children().contains_key(edges@[j as int].0));
                assert(child.wf_sub());
            }
            let mut child_bytes = slice_to_vec(bytes.as_slice());
            let label_slice = child.label().unwrap();
            child_bytes.reserve(label_slice.len());
            child_bytes.extend_from_slice(label_slice);
            assert(child_bytes@ =~= bytes@ + child.label_seq());
            let ghost before = backlog@;
            backlog.push_back((child, child_bytes));
            proof {
                assert(queue_nodes(backlog@) =~= queue_nodes(before).push(*child));
                lemma_sum_push(queue_nodes(before), *child, true);
                assert(kid_nodes.take(j + 1) =~= kid_nodes.take(j as int).push(*child));
                lemma_sum_push(kid_nodes.take(j as int), *child, true);
            }
            j += 1;
        }
        let is_key = current.is_key();
        proof {
            assert(kid_nodes.take(j as int) =~= kid_nodes);
            assert(kid_keys.no_duplicates()) by {
                assert forall|a: int, b: int|
                    0 <= a < kid_keys.len() && 0 <= b < kid_keys.len() && a != b implies kid_keys[a]
                    != kid_keys[b] by {
                    if a < b {
                        assert(edges@[a].0 != edges@[b].0);
                    } else {
                        assert(edges@[b].0 != edges@[a].0);
                    }
                }
            }
            assert forall|b: u8| current.children().contains_key(b) implies kid_keys.contains(
                b,
            ) by {
                let i = choose|i: int| 0 <= i < edges@.len() && (#[trigger] edges@[i]).0 == b;
                assert(kid_keys[i] == b);
            }
            assert forall|i: int| 0 <= i < kid_keys.len() implies current.children().contains_key(
                #[trigger] kid_keys[i],
            ) && *current.children()[kid_keys[i]] == kid_nodes[i] by {
                assert(current.children().contains_key(edges@[i].0));
            }
            lemma_sum_children(current.children(), kid_keys, kid_nodes, true);
            let q2 = queue_view(backlog@);
            let res2 = if current.value_view() is Some {
                res.push(bytes@)
            } else {
                res
            };
            assert forall|i: int| 0 <= i < q.len() - 1 implies q2[i] == q[i + 1] by {
                assert(backlog@[i] == tail[i]);
            }
            assert forall|i: int| 0 <= i < kids.len() implies q[0].0.children().contains_key(
                (#[trigger] kids[i]).0,
            ) && *q[0].0.children()[kids[i].0] == kids[i].1 by {
                assert(current.children().contains_key(edges@[i].0));
            }
            assert forall|b: u8| q[0].0.children().contains_key(b) implies exists|i: int|
                0 <= i < kids.len() && (#[trigger] kids[i]).0 == b by {
                let i = choose|i: int| 0 <= i < edges@.len() && (#[trigger] edges@[i]).0 == b;
                assert(kids[i].0 == b);
            }
            assert forall|i: int, j: int| 0 <= i < j < kids.len() implies kids[i].0 != kids[j].0 by {
                assert(edges@[i].0 != edges@[j].0);
            }
            lemma_search_step(start, seed0, res, q, kids, res2, q2);
        }
        if is_key {
            result.push(bytes);
            assert(key_list(result@) =~= res.push(bytes@));
        }
        assert(key_list(result@) =~= if current.value_view() is Some {
            res.push(bytes@)
        } else {
            res
        });
    }

    proof {
        assert forall|k: Seq<u8>| #[trigger] key_list(result@).contains(k) <==> holds(
            start,
            seed0,
            k,
        ) by {
            assert(!covered(queue_view(backlog@), k));
        }
    }
    result
}

/// All keys that begin with `prefix`, in no particular order. There are
/// none to return where no walk along `prefix` ends at a node or inside a
/// label, and for the empty prefix.
pub fn all_keys<V>(node: &Node<V>, prefix: &[u8]) -> (r: Option<Vec<Vec<u8>>>)
    requires
        node.wf_root(),
    ensures
        r is Some <==> prefix@.len() > 0 && (node.rest(prefix@).len() == 0 || node.ends_in_label(
            prefix@,
        )),
        match r {
            Some(keys) => {
                &&& key_list(keys@).no_duplicates()
                &&& forall|k: Seq<u8>|
                    #![trigger key_list(keys@).contains(k)]
                    #![trigger node@.contains_key(k)]
                    key_list(keys@).contains(k) <==> node@.contains_key(k) && prefix@.is_prefix_of(k)
            },
            None => prefix@.len() > 0 ==> forall|k: Seq<u8>|
                #[trigger] node@.contains_key(k) ==> !prefix@.is_prefix_of(k),
        },
{
    proof {
        node.lemma_last_wf(prefix@);
    }
    let found = match traverse(node, prefix, TraverseType::Search) {
        Some(found) => found,
        None => {
            proof {
                if prefix@.len() > 0 {
                    assert forall|k: Seq<u8>| #[trigger] node@.contains_key(k) implies !prefix@.is_prefix_of(
                        k,
                    ) by {
                        if prefix@.is_prefix_of(k) {
                            lemma_keys_below(*node, prefix@, k);
                        }
                    }
                }
            }
            return None;
        },
    };
    let mut leftover: Option<&[u8]> = None;
    let current: &Node<V> = match found {
        TraverseResult::Terminal(_, n) => n,
        TraverseResult::PartialTerminal(_, n, extra) => {
            leftover = Some(extra);
            n
        },
        _ => {
            assert(false);
            return None;
        },
    };

    let mut seed = slice_to_vec(prefix);
    match leftover {
        None => {},
        Some(extra) => {
            seed.extend_from_slice(extra);
            assert(seed@ =~= prefix@ + extra@);
        },
    }
    let ghost start = *current;
    let ghost seed0 = seed@;
    proof {
        let m = node.last(prefix@);
        let r = node.rest(prefix@);
        if r.len() > 0 {
            assert(m.children().contains_key(r[0]));
            assert(current.wf_sub());
            assert(seed0 =~= prefix@ + current.label_seq().skip(r.len() as int));
        } else {
            assert(node.path(prefix@).len() > 0) by {
                if node.path(prefix@).len() == 0 {
                    node.lemma_rest_stuck(prefix@);
                }
            }
        }
    }
    let result = keys_below(current, seed);
    proof {
        let keys = key_list(result@);
        assert forall|k: Seq<u8>|
            #![trigger keys.contains(k)]
            #![trigger node@.contains_key(k)]
            keys.contains(k) <==> node@.contains_key(k) && prefix@.is_prefix_of(k) by {
            if holds(start, seed0, k) {
                lemma_prefix_app(prefix@, seed0.skip(prefix@.len() as int));
                assert(seed0 =~= prefix@ + seed0.skip(prefix@.len() as int));
                lemma_prefix_trans(prefix@, seed0, k);
            }
            if prefix@.is_prefix_of(k) {
                lemma_keys_below(*node, prefix@, k);
            }
        }
    }
    Some(result)
}

/// The labels of the first `i` nodes of a path, one after the other.
pub open spec fn spelled<V>(p: Seq<Node<V>>, i: int) -> Seq<u8>
    decreases i,
{
    if i <= 0 {
        Seq::empty()
    } else {
        spelled(p, i - 1) + p[i - 1].label_seq()
    }
}

proof fn lemma_spelled_shift<V>(c: Node<V>, q: Seq<Node<V>>, i: int)
    requires
        1 <= i <= q.len() + 1,
    ensures
        spelled(seq![c] + q, i) == c.label_seq() + spelled(q, i - 1),
    decreases i,
{
    let p = seq![c] + q;
    if i == 1 {
        assert(spelled(p, 0) =~= Seq::<u8>::empty());
        assert(spelled(q, 0) =~= Seq::<u8>::empty());
        assert(spelled(p, 1) =~= c.label_seq() + spelled(q, 0));
    } else {
        lemma_spelled_shift(c, q, i - 1);
        assert(p[i - 1] == q[i - 2]);
        assert(spelled(p, i) =~= c.label_seq() + spelled(q, i - 1));
    }
}

/// What the first `i` labels of the path of `t` spell is a prefix of `t`,
/// and holds what the node holds that it leads to.
proof fn lemma_spelled<V>(root: Node<V>, t: Seq<u8>, i: int)
    requires
        root.children_wf(),
        1 <= i <= root.path(t).len(),
    ensures
        spelled(root.path(t), i).is_prefix_of(t),
        spelled(root.path(t), i).len() > 0,
        root.lookup(spelled(root.path(t), i)) == root.path(t)[i - 1].value_view(),
    decreases t.len(),
{
    root.lemma_first_step(t);
    let c = root.children()[t[0]];
    let l = c.label_seq();
    let t2 = t.skip(l.len() as int);
    let p = root.path(t);
    let q = c.path(t2);
    assert(c.wf_sub());
    assert(p =~= seq![*c] + q);
    lemma_spelled_shift(*c, q, i);
    lemma_prefix_app(l, l);
    if i == 1 {
        assert(spelled(q, 0) =~= Seq::<u8>::empty());
        assert(spelled(p, 1) =~= l);
        assert(root.step(l) == Some(c));
        assert(l.skip(l.len() as int) =~= Seq::<u8>::empty());
        assert(c.lookup(Seq::<u8>::empty()) == c.value_view());
        assert(root.lookup(l) == c.lookup(l.skip(l.len() as int)));
    } else {
        assert(t2.len() < t.len());
        lemma_spelled(*c, t2, i - 1);
        let s2 = spelled(q, i - 1);
        lemma_prefix_concat(l, s2, t);
        lemma_prefix_app(l, s2);
        assert((l + s2)[0] == l[0]);
        assert(root.step(l + s2) == Some(c));
        assert((l + s2).skip(l.len() as int) =~= s2);
        assert(root.lookup(l + s2) == c.lookup(s2));
        assert(p[i - 1] == q[i - 2]);
    }
}

/// A key that is a prefix of `t` is spelled by the first labels of the path of `t`.
proof fn lemma_prefix_key<V>(root: Node<V>, t: Seq<u8>, k: Seq<u8>)
    requires
        root.children_wf(),
        k.is_prefix_of(t),
        k.len() > 0,
        root.lookup(k) is Some,
    ensures
        exists|i: int| 1 <= i <= root.path(t).len() && k == #[trigger] spelled(root.path(t), i),
    decreases t.len(),
{
    let c = root.step(k)->0;
    let l = c.label_seq();
    assert(k[0] == k.subrange(0, 1)[0]);
    assert(k[0] == t.subrange(0, k.len() as int)[0]);
    lemma_prefix_trans(l, k, t);
    assert(root.step(t) == Some(c));
    let t2 = t.skip(l.len() as int);
    let k2 = k.skip(l.len() as int);
    let p = root.path(t);
    assert(p == seq![*c] + c.path(t2));
    assert(k2.is_prefix_of(t2)) by {
        assert forall|j: int| 0 <= j < k2.len() implies k2[j] == t2[j] by {
            assert(t.subrange(0, k.len() as int)[j + l.len()] == k[j + l.len()]);
        }
        assert(k2 =~= t2.subrange(0, k2.len() as int));
    }
    if k2.len() == 0 {
        lemma_spelled_shift(*c, c.path(t2), 1);
        assert(spelled(c.path(t2), 0) =~= Seq::<u8>::empty());
        assert(k =~= l);
        assert(k =~= spelled(p, 1));
    } else {
        assert(c.wf_sub());
        lemma_prefix_key(*c, t2, k2);
        let i2 = choose|i: int| 1 <= i <= c.path(t2).len() && k2 == #[trigger] spelled(c.path(t2), i);
        lemma_spelled_shift(*c, c.path(t2), i2 + 1);
        assert(k =~= l + k2);
        assert(k == spelled(p, i2 + 1));
    }
}

/// What more labels spell is at least as long.
proof fn lemma_spelled_grows<V>(p: Seq<Node<V>>, i: int, j: int)
    requires
        0 <= i <= j,
    ensures
        spelled(p, i).len() <= spelled(p, j).len(),
    decreases j - i,
{
    if i < j {
        lemma_spelled_grows(p, i, j - 1);
    }
}

/// The longest key that is a prefix of `prefix`. There is none where
/// `prefix` parts from the trie inside a label with bytes of both left over.
pub fn longest_prefix<V>(node: &Node<V>, prefix: &[u8]) -> (r: Option<Vec<u8>>)
    requires
        node.wf_root(),
    ensures
        match r {
            Some(key) => {
                &&& !node.diverges(prefix@)
                &&& node@.contains_key(key@)
                &&& key@.is_prefix_of(prefix@)
                &&& forall|k: Seq<u8>|
                    #[trigger] node@.contains_key(k) && k.is_prefix_of(prefix@) ==> k.len()
                        <= key@.len()
            },
            None => node.diverges(prefix@) || forall|k: Seq<u8>|
                #[trigger] node@.contains_key(k) ==> !k.is_prefix_of(prefix@),
        },
{
    let ghost token = prefix@;
    let ghost p = node.path(token);
    let ghost n = p.len() as int;
    proof {
        node.lemma_last_wf(token);
    }
    let mut stack = match traverse(node, prefix, TraverseType::FoldOrPartial) {
        Some(TraverseResult::Stack(s)) => s,
        Some(_) => {
            assert(false);
            return None;
        },
        None => {
            proof {
                if token.len() == 0 {
                    assert forall|k: Seq<u8>| #[trigger] node@.contains_key(k) implies !k.is_prefix_of(
                        token,
                    ) by {
                        if k.is_prefix_of(token) {
                            assert(k.len() == 0);
                        }
                    }
                }
            }
            return None;
        },
    };
    let ghost frames = stack@;
    let mut result: Option<Vec<u8>> = None;
    let ghost mut found: int = 0;

    while stack.len() > 0
        invariant
            node.wf_root(),
            p == node.path(token),
            n == p.len(),
            forall|i: int| 0 <= i < n ==> (#[trigger] p[i]).wf_sub(),
            frames_of(frames, *node, p),
            stack@.len() <= n + 1,
            stack@ == frames.take(stack@.len() as int),
            0 <= found <= n,
            forall|j: int|
                found <= j < n && stack@.len() <= j + 1 ==> !((#[trigger] p[j]).tag_view() is Key),
            match result {
                Some(key) => found >= 1 && key@ == spelled(p, found) && p[found - 1].tag_view() is Key
                    && stack@.len() <= 1,
                None => found == 0,
            },
        decreases stack@.len(),
    {
        let ghost idx = stack@.len() - 1;
        let TraverseItem { node: here, next_key: _, label, level } = stack.pop().unwrap();
        let last_label = label;
        assert(frames[idx].level == idx);
        if here.is_key() {
            assert(idx >= 1);
            assert(*here == p[idx - 1]);
            let mut prefixes: Vec<u8> = Vec::with_capacity(level);
            let mut i: usize = 1;
            assert(spelled(p, 0) =~= Seq::<u8>::empty());
            while i < stack.len()
                invariant
                    1 <= i,
                    i <= stack@.len() || stack@.len() == 0,
                    stack@.len() == idx,
                    idx <= n,
                    n == p.len(),
                    stack@ == frames.take(idx),
                    frames_of(frames, *node, p),
                    prefixes@ == spelled(p, i - 1),
                decreases stack@.len() - i,
            {
                assert(stack@[i as int] == frames[i as int]);
                assert(frames[i as int].label_seq() == p[i - 1].label_view());
                if let Some(l) = stack[i].label {
                    prefixes.extend_from_slice(l);
                    assert(prefixes@ =~= spelled(p, i - 1) + l@);
                } else {
                    assert(prefixes@ =~= spelled(p, i - 1) + p[i - 1].label_seq());
                }
                i += 1;
            }
            stack.truncate(1);
            assert(frames[idx].label_seq() == p[idx - 1].label_view());
            prefixes.extend_from_slice(last_label.unwrap());
            assert(prefixes@ =~= spelled(p, idx - 1) + p[idx - 1].label_seq());
            result = Some(prefixes);
            proof {
                found = idx;
                assert(stack@ =~= frames.take(stack@.len() as int));
            }
        }
    }

    proof {
        match &result {
            Some(key) => {
                lemma_spelled(*node, token, found);
                assert forall|k: Seq<u8>|
                    #[trigger] node@.contains_key(k) && k.is_prefix_of(token) implies k.len()
                    <= key@.len() by {
                    if k.len() > 0 {
                        lemma_prefix_key(*node, token, k);
                        let i = choose|i: int| 1 <= i <= n && k == #[trigger] spelled(p, i);
                        lemma_spelled(*node, token, i);
                        assert(p[i - 1].wf_sub());
                        assert(i <= found);
                        lemma_spelled_grows(p, i, found);
                    }
                }
            },
            None => {
                assert forall|k: Seq<u8>| #[trigger] node@.contains_key(k) implies !k.is_prefix_of(
                    token,
                ) by {
                    if k.is_prefix_of(token) {
                        if k.len() > 0 {
                            lemma_prefix_key(*node, token, k);
                            let i = choose|i: int| 1 <= i <= n && k == #[trigger] spelled(p, i);
                            lemma_spelled(*node, token, i);
                            assert(p[i - 1].wf_sub());
                        }
                    }
                }
            },
        }
    }
    result
}

} // verus!
