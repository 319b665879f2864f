use crate::node::{EdgeType, Node};
use crate::traverse::{frames_of, traverse, TraverseItem, TraverseResult, TraverseType};
use vstd::prelude::*;

verus! {

/// Where a step of a removal applies: a node by its level, the root being at
/// level 0, an edge out of the node at a level, or an edge and the one that
/// follows it.
#[derive(Debug, PartialEq, Eq, Copy, Clone, Structural)]
pub enum Cursor {
    Node(usize),
    Link(usize, u8),
    DoubleLink(usize, u8, u8),
}

/// One step of a removal.
#[derive(Debug, PartialEq, Eq, Copy, Clone, Structural)]
pub enum Playback {
    /// Takes the value out of the node and makes it an inner node.
    Unmark(Cursor),
    /// Removes the child under the edge.
    Prune(Cursor),
    /// The edge byte of a merge whose step is not written yet.
    MergeTemp(u8),
    /// Puts the grandchild in the child's place, under both labels joined.
    Merge(Cursor),
    /// Goes down the edge.
    Keep(Cursor),
}

/// How far the planning of a removal has come.
#[derive(Debug, PartialEq, Eq, Hash, Copy, Clone, Structural)]
pub enum Status {
    Deleted,
    DeletedPruned,
    Merged,
}

/// What the next frame of the path has to do.
#[derive(Debug, PartialEq, Eq, Hash, Copy, Clone, Structural)]
pub enum Action {
    Prune,
    Merge,
    Noop,
}

/// The edge byte that leads from level `i` of a path to level `i + 1`.
pub open spec fn edge_byte<V>(path: Seq<Node<V>>, i: int) -> u8 {
    path[i].label_seq()[0]
}

/// The step that the removal of `token` takes at level `i`.
///
/// The node of the key loses its value. Where it is a leaf its parent drops
/// it, and where that leaves an inner node below the root with one child, the
/// grandparent merges the two. Where the node of the key has one child, its
/// parent merges the two. Every other level is passed through.
pub open spec fn directive<V>(root: Node<V>, token: Seq<u8>, i: int) -> Playback {
    let p = root.path(token);
    let n = p.len() as int;
    let t = p[n - 1];
    if i >= n {
        Playback::Unmark(Cursor::Node(n as usize))
    } else if i == n - 1 && t.children().len() == 0 {
        Playback::Prune(Cursor::Link(i as usize, edge_byte(p, i)))
    } else if i == n - 1 && t.children().len() == 1 {
        Playback::Merge(Cursor::DoubleLink(i as usize, edge_byte(p, i), t.only_key()))
    } else if i == n - 2 && t.children().len() == 0 && p[i].tag_view() is Inner
        && p[i].children().len() == 2 {
        Playback::Merge(
            Cursor::DoubleLink(i as usize, edge_byte(p, i), p[i].other_key(edge_byte(p, i + 1))),
        )
    } else {
        Playback::Keep(Cursor::Link(i as usize, edge_byte(p, i)))
    }
}

/// The plan for the removal of `token`: one step for each level of its path,
/// the deepest first. There is none where `token` is not a key.
pub open spec fn plan_of<V>(root: Node<V>, token: Seq<u8>) -> Option<Seq<Playback>> {
    if token.len() > 0 && root.rest(token).len() == 0 && root.last(token).tag_view() is Key {
        let n = root.path(token).len() as int;
        Some(Seq::new((n + 1) as nat, |j: int| directive(root, token, n - j)))
    } else {
        None
    }
}

/// Plans the removal of `prefix` from the trie below `current`, without
/// changing it. The plan is carried out from its last step to its first.
pub fn capture<V>(current: &Node<V>, prefix: &[u8]) -> (r: Option<Vec<Playback>>)
    requires
        current.wf_root(),
    ensures
        match r {
            Some(plan) => plan_of(*current, prefix@) == Some(plan@),
            None => plan_of(*current, prefix@) is None,
        },
        r is Some <==> current@.contains_key(prefix@),
{
    let mut replay: Vec<Playback> = Vec::new();
    let mut status: Status = Status::Deleted;
    let mut action: Action = Action::Noop;

    proof {
        current.lemma_lookup_last(prefix@);
        current.lemma_last_wf(prefix@);
        current.lemma_path_links(prefix@);
    }
    let result = match traverse(current, prefix, TraverseType::Fold) {
        Some(result) => result,
        None => {
            return None;
        },
    };
    let mut stack = match result {
        TraverseResult::Stack(s) => s,
        _ => {
            assert(false);
            return None;
        },
    };
    let ghost token = prefix@;
    let ghost p = current.path(token);
    let ghost n = p.len() as int;
    let ghost frames = stack@;
    let ghost mut merge_with: u8 = 0;
    assert(n >= 1);

    if let Some(TraverseItem { node, next_key: _, label: _, level }) = stack.pop() {
        assert(*node == p[n - 1]);
        if node.is_key() {
            replay.push(Playback::Unmark(Cursor::Node(level)));
            match node.edge_type() {
                None => {
                    action = Action::Prune;
                },
                Some(EdgeType::Single) => {
                    let merge_key = node.only_edge_key();
                    replay.push(Playback::MergeTemp(merge_key));
                    proof {
                        merge_with = merge_key;
                    }
                    action = Action::Merge;
                },
                _ => (),
            }
        } else {
            return None;
        }
    }
    let ghost mut core: Seq<Playback> = seq![directive(*current, token, n)];

    while stack.len() > 0
        invariant
            current.wf_root(),
            p == current.path(token),
            n == p.len(),
            n >= 1,
            forall|i: int| 0 <= i < n ==> (#[trigger] p[i]).wf_sub(),
            forall|i: int|
                0 <= i < n - 1 ==> (#[trigger] p[i]).children().contains_key(edge_byte(p, i + 1)),
            frames_of(frames, *current, p),
            stack@.len() <= n,
            stack@ == frames.take(stack@.len() as int),
            replay@ == core + (if action is Merge {
                seq![Playback::MergeTemp(merge_with)]
            } else {
                Seq::<Playback>::empty()
            }),
            core.len() == n + 1 - stack@.len(),
            forall|idx: int| 0 <= idx < core.len() ==> core[idx] == directive(*current, token, n - idx),
            action is Merge ==> stack@.len() >= 1,
            stack@.len() >= 1 ==> directive(*current, token, stack@.len() - 1) == (match action {
                Action::Prune => Playback::Prune(
                    Cursor::Link((stack@.len() - 1) as usize, edge_byte(p, stack@.len() - 1)),
                ),
                Action::Merge => Playback::Merge(
                    Cursor::DoubleLink(
                        (stack@.len() - 1) as usize,
                        edge_byte(p, stack@.len() - 1),
                        merge_with,
                    ),
                ),
                Action::Noop => Playback::Keep(
                    Cursor::Link((stack@.len() - 1) as usize, edge_byte(p, stack@.len() - 1)),
                ),
            }),
        decreases stack@.len(),
    {
        let ghost j = stack@.len() as int;
        let TraverseItem { node, next_key, label: _, level } = stack.pop().unwrap();
        assert(frames[j - 1].level == j - 1);
        assert(next_key == edge_byte(p, j - 1));
        assert(j - 1 >= 1 ==> *node == p[j - 2]);

        match action {
            Action::Prune => {
                replay.push(Playback::Prune(Cursor::Link(level, next_key)));
                status = Status::DeletedPruned;
            },
            Action::Merge => {
                match replay.pop() {
                    Some(Playback::MergeTemp(merge_key)) => {
                        replay.push(
                            Playback::Merge(Cursor::DoubleLink(level, next_key, merge_key)),
                        );
                        status = Status::Merged;
                    },
                    _ => {
                        assert(false);
                    },
                }
            },
            Action::Noop => {
                replay.push(Playback::Keep(Cursor::Link(level, next_key)));
            },
        }
        proof {
            core = core.push(directive(*current, token, j - 1));
            assert(replay@ =~= core);
        }

        let branches_in_two = match node.edge_type() {
            Some(EdgeType::Branching(count)) => count == 2,
            _ => false,
        };
        if action == Action::Prune && status == Status::DeletedPruned && stack.len() > 0
            && !node.is_key() && branches_in_two {
            let merge_key = node.other_edge_key(next_key);
            replay.push(Playback::MergeTemp(merge_key));
            proof {
                merge_with = merge_key;
            }
            action = Action::Merge;
        } else {
            action = Action::Noop;
        }
    }

    assert(replay@ =~= Seq::new((n + 1) as nat, |j: int| directive(*current, token, n - j)));
    if replay.len() == 0 {
        None
    } else {
        Some(replay)
    }
}

} // verus!
