use crate::node::Node;
use vstd::prelude::*;

verus! {

/// What a walk down the trie records and returns.
#[derive(Debug, Copy, Clone, PartialEq, Eq, Structural)]
pub enum TraverseType {
    Search,
    Fold,
    /// As `Fold`, but a walk that ends early keeps what it has found.
    FoldOrPartial,
}

/// What is left of an edge label and of the token once their common prefix is taken away.
#[derive(Debug)]
pub enum SuffixType<'a, 'b> {
    Empty,
    OnlyToken(&'b [u8]),
    BothEdgeToken(&'a [u8], &'b [u8]),
    OnlyEdge(&'a [u8]),
}

/// One step of a walk: the child that was reached, the bytes that label and
/// token share, and what is left of both.
pub struct KeyMatch<'a, 'b, V> {
    pub next: &'a Node<V>,
    pub common: &'a [u8],
    pub leftover: SuffixType<'a, 'b>,
    pub edge_key: u8,
}

/// A frame of the path that a folding walk records.
pub struct TraverseItem<'a, V> {
    pub node: &'a Node<V>,
    /// The edge byte taken out of this node; 0 in the last frame.
    pub next_key: u8,
    pub label: Option<&'a [u8]>,
    pub level: usize,
}

/// What a walk returns: the frames of its path, or the node it ended at
/// with its tag, a key or not.
pub enum TraverseResult<'a, V> {
    Stack(Vec<TraverseItem<'a, V>>),
    /// The token ends inside the label of this node; the bytes are the rest of the label.
    PartialTerminal(bool, &'a Node<V>, &'a [u8]),
    Terminal(bool, &'a Node<V>),
}

impl<'a, 'b, V> KeyMatch<'a, 'b, V> {
    pub fn new(
        next: &'a Node<V>,
        common: &'a [u8],
        leftover: SuffixType<'a, 'b>,
        edge_key: u8,
    ) -> (r: Self)
        ensures
            r.next == next,
            r.common == common,
            r.leftover == leftover,
            r.edge_key == edge_key,
    {
        KeyMatch { next, common, leftover, edge_key }
    }
}

impl<'a, 'b> SuffixType<'a, 'b> {
    /// What is left of the edge label.
    pub open spec fn edge_part(self) -> Seq<u8> {
        match self {
            SuffixType::Empty => Seq::empty(),
            SuffixType::OnlyToken(_) => Seq::empty(),
            SuffixType::BothEdgeToken(e, _) => e@,
            SuffixType::OnlyEdge(e) => e@,
        }
    }

    /// What is left of the token.
    pub open spec fn token_part(self) -> Seq<u8> {
        match self {
            SuffixType::Empty => Seq::empty(),
            SuffixType::OnlyToken(t) => t@,
            SuffixType::BothEdgeToken(_, t) => t@,
            SuffixType::OnlyEdge(_) => Seq::empty(),
        }
    }

    /// The variant names exactly the parts that are not empty.
    pub open spec fn wf(self) -> bool {
        match self {
            SuffixType::Empty => true,
            SuffixType::OnlyToken(t) => t@.len() > 0,
            SuffixType::BothEdgeToken(e, t) => e@.len() > 0 && t@.len() > 0,
            SuffixType::OnlyEdge(e) => e@.len() > 0,
        }
    }

    pub fn new(edge_suffix: &'a [u8], token_suffix: &'b [u8]) -> (r: Self)
        ensures
            r.wf(),
            r.edge_part() == edge_suffix@,
            r.token_part() == token_suffix@,
    {
        if edge_suffix.len() == 0 {
            if token_suffix.len() == 0 {
                assert(edge_suffix@ =~= Seq::empty());
                assert(token_suffix@ =~= Seq::empty());
                SuffixType::Empty
            } else {
                assert(edge_suffix@ =~= Seq::empty());
                SuffixType::OnlyToken(token_suffix)
            }
        } else if token_suffix.len() == 0 {
            assert(token_suffix@ =~= Seq::empty());
            SuffixType::OnlyEdge(edge_suffix)
        } else {
            SuffixType::BothEdgeToken(edge_suffix, token_suffix)
        }
    }
}

/// `n` is the length of the longest common prefix of `a` and `b`.
pub open spec fn common_len(a: Seq<u8>, b: Seq<u8>, n: int) -> bool {
    &&& 0 <= n <= a.len()
    &&& n <= b.len()
    &&& a.take(n) == b.take(n)
    &&& (n < a.len() && n < b.len() ==> a[n] != b[n])
}

/// One step down from `node`: the edge for the first byte of `token`, if
/// there is one, and how far its label and the token agree.
pub fn traverse_match<'a, 'b, V>(node: &'a Node<V>, token: &'b [u8]) -> (r: Option<
    KeyMatch<'a, 'b, V>,
>)
    requires
        token@.len() > 0,
        node.children_wf(),
    ensures
        match r {
            None => !node.children().contains_key(token@[0]),
            Some(m) => {
                &&& node.children().contains_key(token@[0])
                &&& *m.next == *node.children()[token@[0]]
                &&& m.edge_key == token@[0]
                &&& m.common@.len() >= 1
                &&& common_len(m.next.label_seq(), token@, m.common@.len() as int)
                &&& m.common@ == token@.take(m.common@.len() as int)
                &&& m.leftover.wf()
                &&& m.leftover.edge_part() == m.next.label_seq().skip(m.common@.len() as int)
                &&& m.leftover.token_part() == token@.skip(m.common@.len() as int)
            },
        },
{
    let edge_key = token[0];
    match node.lookup_edge(edge_key) {
        Some(box_ref) => {
            let next_node: &'a Node<V> = &**box_ref;
            let label: &'a [u8] = match next_node.label() {
                Some(l) => l,
                None => {
                    assert(false);
                    vstd::pervasive::unreached()
                },
            };
            let mut index: usize = 0;
            while index < token.len() && index < label.len() && token[index] == label[index]
                invariant
                    index <= token@.len(),
                    index <= label@.len(),
                    label@.take(index as int) == token@.take(index as int),
                decreases token@.len() - index,
            {
                assert(label@.take(index + 1) =~= label@.take(index as int).push(label@[index as int]));
                assert(token@.take(index + 1) =~= token@.take(index as int).push(token@[index as int]));
                index += 1;
            }
            let (common, edge_suffix) = label.split_at(index);
            let (_, token_suffix) = token.split_at(index);
            if common.len() == 0 {
                assert(label@[0] == token@[0]);
                assert(false);
                return None;
            }
            let leftover = SuffixType::new(edge_suffix, token_suffix);
            Some(KeyMatch::new(next_node, common, leftover, edge_key))
        },
        None => None,
    }
}

impl<'a, V> TraverseItem<'a, V> {
    /// The recorded label as a sequence of bytes.
    pub open spec fn label_seq(self) -> Option<Seq<u8>> {
        match self.label {
            Some(l) => Some(l@),
            None => None,
        }
    }
}

impl<V> Node<V> {
    /// `k` stops inside the label of a child of the deepest node it leads to.
    pub open spec fn ends_in_label(&self, k: Seq<u8>) -> bool {
        let m = self.last(k);
        let r = self.rest(k);
        r.len() > 0 && m.children().contains_key(r[0]) && r.is_prefix_of(
            m.children()[r[0]].label_seq(),
        )
    }

    /// `k` parts from the label of a child of the deepest node it leads to,
    /// with bytes of both left over.
    pub open spec fn diverges(&self, k: Seq<u8>) -> bool {
        let m = self.last(k);
        let r = self.rest(k);
        r.len() > 0 && m.children().contains_key(r[0]) && !r.is_prefix_of(
            m.children()[r[0]].label_seq(),
        )
    }
}

/// `s` holds one frame for `root` and one for each node of `path`, in order.
pub open spec fn frames_of<V>(
    s: Seq<TraverseItem<'_, V>>,
    root: Node<V>,
    path: Seq<Node<V>>,
) -> bool {
    &&& s.len() == path.len() + 1
    &&& *s[0].node == root
    &&& s[0].label is None
    &&& forall|i: int| 0 <= i < s.len() ==> (#[trigger] s[i]).level == i
    &&& forall|i: int|
        1 <= i < s.len() ==> *(#[trigger] s[i]).node == path[i - 1] && s[i].label_seq() == path[i
            - 1].label_view()
    &&& forall|i: int| 0 <= i < s.len() - 1 ==> (#[trigger] s[i]).next_key == path[i].label_seq()[0]
    &&& s[s.len() - 1].next_key == 0
}

/// Records `node` as the next frame of a folding walk, and in the frame
/// before it the edge byte that led here.
fn traverse_fold_helper<'a, V>(
    node: &'a Node<V>,
    level: usize,
    stack: &mut Vec<TraverseItem<'a, V>>,
    traverse_type: TraverseType,
)
    requires
        node.wf_sub(),
        old(stack)@.len() > 0,
    ensures
        traverse_type is Search ==> final(stack)@ == old(stack)@,
        !(traverse_type is Search) ==> {
            let n = old(stack)@.len() as int;
            &&& final(stack)@.len() == n + 1
            &&& forall|i: int| 0 <= i < n - 1 ==> final(stack)@[i] == old(stack)@[i]
            &&& final(stack)@[n - 1].node == old(stack)@[n - 1].node
            &&& final(stack)@[n - 1].label == old(stack)@[n - 1].label
            &&& final(stack)@[n - 1].level == old(stack)@[n - 1].level
            &&& final(stack)@[n - 1].next_key == node.label_seq()[0]
            &&& *final(stack)@[n].node == *node
            &&& final(stack)@[n].next_key == 0
            &&& final(stack)@[n].level == level
            &&& final(stack)@[n].label_seq() == node.label_view()
        },
{
    match traverse_type {
        TraverseType::Fold | TraverseType::FoldOrPartial => {
            if let Some(common) = node.label() {
                if let Some(mut item) = stack.pop() {
                    item.next_key = common[0];
                    stack.push(item);
                }
            }
            stack.push(TraverseItem { node, next_key: 0, label: node.label(), level });
        },
        _ => (),
    }
}

/// Walks down from `node` along `token`, one edge label after the other.
///
/// A search returns the node that the token ends at, or the child inside
/// whose label it ends; a fold returns the frames of the whole path, root
/// first; a partial fold also returns them where the walk ends early, but on
/// an edge or inside a label.
pub fn traverse<'a, 'b, V>(
    node: &'a Node<V>,
    token: &'b [u8],
    traverse_type: TraverseType,
) -> (r: Option<TraverseResult<'a, V>>)
    requires
        node.children_wf(),
    ensures
        token@.len() == 0 ==> r is None,
        token@.len() > 0 ==> match traverse_type {
            TraverseType::Search => match r {
                Some(TraverseResult::Terminal(k, n)) => {
                    &&& node.rest(token@).len() == 0
                    &&& *n == node.last(token@)
                    &&& k == (n.tag_view() is Key)
                },
                Some(TraverseResult::PartialTerminal(k, n, sfx)) => {
                    &&& node.ends_in_label(token@)
                    &&& *n == *node.last(token@).children()[node.rest(token@)[0]]
                    &&& n.label_seq() == node.rest(token@) + sfx@
                    &&& sfx@.len() > 0
                    &&& k == (n.tag_view() is Key)
                },
                Some(TraverseResult::Stack(_)) => false,
                None => node.rest(token@).len() > 0 && !node.ends_in_label(token@),
            },
            TraverseType::Fold => match r {
                Some(TraverseResult::Stack(s)) => node.rest(token@).len() == 0 && frames_of(
                    s@,
                    *node,
                    node.path(token@),
                ),
                Some(_) => false,
                None => node.rest(token@).len() > 0,
            },
            TraverseType::FoldOrPartial => match r {
                Some(TraverseResult::Stack(s)) => !node.diverges(token@) && frames_of(
                    s@,
                    *node,
                    node.path(token@),
                ),
                Some(_) => false,
                None => node.diverges(token@),
            },
        },
{
    if token.len() == 0 {
        return None;
    }
    let mut stack: Vec<TraverseItem<'a, V>> = Vec::new();
    let mut current: &'a Node<V> = node;
    let mut level: usize = 0;
    let mut nav_token: &'b [u8] = token;
    let ghost mut done: Seq<Node<V>> = Seq::empty();

    stack.push(TraverseItem { node: current, next_key: 0, label: None, level });
    assert(node.path(token@) =~= done + current.path(nav_token@));

    loop
        invariant
            nav_token@.len() > 0,
            node.children_wf(),
            current.children_wf(),
            node.last(token@) == current.last(nav_token@),
            node.rest(token@) == current.rest(nav_token@),
            node.path(token@) == done + current.path(nav_token@),
            level == done.len(),
            level + nav_token@.len() <= token@.len(),
            token@.len() <= usize::MAX,
            stack@.len() > 0,
            traverse_type is Search || frames_of(stack@, *node, done),
        decreases nav_token@.len(),
    {
        level += 1;
        let ghost nav = nav_token@;
        match traverse_match(current, nav_token) {
            Some(m) => {
                let next: &'a Node<V> = m.next;
                let ghost l = next.label_seq();
                let ghost n = m.common@.len() as int;
                assert(l.take(n) == nav.take(n));
                match m.leftover {
                    SuffixType::Empty => {
                        assert(l.skip(n).len() == 0);
                        assert(l =~= l.take(n));
                        assert(l.is_prefix_of(nav));
                        assert(current.step(nav) == Some(current.children()[nav[0]]));
                        assert(current.rest(nav) == next.rest(nav.skip(n)));
                        assert(current.last(nav) == next.last(nav.skip(n)));
                        assert(current.path(nav) == seq![*next] + next.path(nav.skip(n)));
                        assert(nav.skip(n) =~= Seq::<u8>::empty());
                        assert(next.path(nav.skip(n)) =~= Seq::<Node<V>>::empty());
                        let ghost old_stack = stack@;
                        traverse_fold_helper(next, level, &mut stack, traverse_type);
                        proof {
                            let done2 = done.push(*next);
                            assert(node.path(token@) =~= done2);
                            if !(traverse_type is Search) {
                                lemma_frames_push(old_stack, stack@, *node, done, *next);
                            }
                        }
                        return Some(
                            match traverse_type {
                                TraverseType::Search => TraverseResult::Terminal(
                                    next.is_key(),
                                    next,
                                ),
                                _ => TraverseResult::Stack(stack),
                            },
                        );
                    },
                    SuffixType::OnlyToken(sufx) => {
                        assert(l.skip(n).len() == 0);
                        assert(l =~= l.take(n));
                        assert(l.is_prefix_of(nav));
                        assert(current.step(nav) == Some(current.children()[nav[0]]));
                        assert(current.rest(nav) == next.rest(nav.skip(n)));
                        assert(current.last(nav) == next.last(nav.skip(n)));
                        assert(current.path(nav) == seq![*next] + next.path(nav.skip(n)));
                        let ghost old_stack = stack@;
                        traverse_fold_helper(next, level, &mut stack, traverse_type);
                        proof {
                            if !(traverse_type is Search) {
                                lemma_frames_push(old_stack, stack@, *node, done, *next);
                            }
                            assert(done + current.path(nav) =~= done.push(*next) + next.path(
                                sufx@,
                            ));
                            done = done.push(*next);
                        }
                        current = next;
                        nav_token = sufx;
                    },
                    SuffixType::OnlyEdge(sufx) => {
                        assert(!l.is_prefix_of(nav)) by {
                            if l.is_prefix_of(nav) {
                                assert(l.len() <= nav.len());
                            }
                        }
                        assert(nav.skip(n).len() == 0);
                        assert(nav.len() == n);
                        assert(nav =~= nav.take(n));
                        assert(nav.is_prefix_of(l));
                        assert(l =~= nav + sufx@);
                        assert(current.path(nav) =~= Seq::<Node<V>>::empty());
                        assert(node.path(token@) =~= done);
                        match traverse_type {
                            TraverseType::Search => {
                                return Some(
                                    TraverseResult::PartialTerminal(next.is_key(), next, sufx),
                                );
                            },
                            TraverseType::FoldOrPartial => {
                                return Some(TraverseResult::Stack(stack));
                            },
                            TraverseType::Fold => {
                                return None;
                            },
                        }
                    },
                    SuffixType::BothEdgeToken(sufxe, sufxt) => {
                        assert(n < l.len() && n < nav.len());
                        assert(l[n] != nav[n]);
                        assert(!l.is_prefix_of(nav)) by {
                            if l.is_prefix_of(nav) {
                                assert(l[n] == nav.subrange(0, l.len() as int)[n]);
                            }
                        }
                        assert(!nav.is_prefix_of(l)) by {
                            if nav.is_prefix_of(l) {
                                assert(nav[n] == l.subrange(0, nav.len() as int)[n]);
                            }
                        }
                        return None;
                    },
                }
            },
            None => {
                assert(current.path(nav) =~= Seq::<Node<V>>::empty());
                assert(node.path(token@) =~= done);
                match traverse_type {
                    TraverseType::FoldOrPartial => {
                        return Some(TraverseResult::Stack(stack));
                    },
                    _ => {
                        return None;
                    },
                }
            },
        }
    }
}

/// A frame pushed for the next node of a path keeps the frames a record of the path.
proof fn lemma_frames_push<V>(
    s: Seq<TraverseItem<'_, V>>,
    s2: Seq<TraverseItem<'_, V>>,
    root: Node<V>,
    done: Seq<Node<V>>,
    next: Node<V>,
)
    requires
        frames_of(s, root, done),
        next.label_seq().len() > 0,
        s2.len() == s.len() + 1,
        forall|i: int| 0 <= i < s.len() - 1 ==> s2[i] == s[i],
        s2[s.len() - 1].node == s[s.len() - 1].node,
        s2[s.len() - 1].label == s[s.len() - 1].label,
        s2[s.len() - 1].level == s[s.len() - 1].level,
        s2[s.len() - 1].next_key == next.label_seq()[0],
        *s2[s.len() as int].node == next,
        s2[s.len() as int].next_key == 0,
        s2[s.len() as int].level == s.len(),
        s2[s.len() as int].label_seq() == next.label_view(),
    ensures
        frames_of(s2, root, done.push(next)),
{
    let p2 = done.push(next);
    let n = s.len() as int;
    assert forall|i: int| 0 <= i < s2.len() implies (#[trigger] s2[i]).level == i by {
        if i < n - 1 {
            assert(s2[i] == s[i]);
        }
    }
    assert forall|i: int| 1 <= i < s2.len() implies *(#[trigger] s2[i]).node == p2[i - 1]
        && s2[i].label_seq() == p2[i - 1].label_view() by {
        if i < n - 1 {
            assert(s2[i] == s[i]);
        } else if i == n - 1 {
            assert(*s[i].node == done[i - 1]);
        }
    }
    assert forall|i: int| 0 <= i < s2.len() - 1 implies (#[trigger] s2[i]).next_key
        == p2[i].label_seq()[0] by {
        if i < n - 1 {
            assert(s2[i] == s[i]);
        }
    }
    if n - 1 > 0 {
        assert(s2[0] == s[0]);
    }
}

} // verus!
