use radix_trie::delete::{capture, Cursor, Playback};
use radix_trie::node::{EdgeType, Node, NodeType};
use radix_trie::query::{all_keys, keys_below, longest_prefix};
use radix_trie::traverse::{traverse, traverse_match, KeyMatch, SuffixType, TraverseResult, TraverseType};
use radix_trie::trie::Trie;
use std::collections::{BTreeMap, BTreeSet};

fn sample() -> Trie<i32> {
    let mut trie = Trie::new();
    for (key, value) in [("and", 77), ("anthemion", 7), ("anti", 2), ("anthem", 1)] {
        trie.insert(key.as_bytes(), value);
    }
    trie
}

fn labels_of(trie: &Trie<i32>) -> BTreeSet<String> {
    let mut set = BTreeSet::new();
    let mut labels = trie.labels();
    while let Some(bytes) = labels.next() {
        set.insert(String::from_utf8(bytes.to_vec()).unwrap());
    }
    set
}

fn sorted(keys: Option<Vec<Vec<u8>>>) -> Vec<String> {
    let mut v: Vec<String> = keys
        .unwrap_or_default()
        .into_iter()
        .map(|k| String::from_utf8(k).unwrap())
        .collect();
    v.sort();
    v
}

#[test]
fn search_finds_keys_only() {
    let trie = sample();
    assert_eq!(trie.search("anthem".as_bytes()), Some(&1));
    assert_eq!(trie.search("ant".as_bytes()), None);
    assert_eq!(trie.search("anthemion".as_bytes()), Some(&7));
    assert_eq!(trie.search("an".as_bytes()), None);
    assert_eq!(trie.search("anthemions".as_bytes()), None);
    assert_eq!(trie.search("x".as_bytes()), None);
}

#[test]
fn labels_after_each_removal() {
    let mut trie = sample();
    let set = |names: &[&str]| names.iter().map(|s| s.to_string()).collect::<BTreeSet<_>>();
    assert_eq!(labels_of(&trie), set(&["an", "d", "hem", "i", "ion", "t"]));
    assert_eq!(trie.remove("and".as_bytes()), Some(77));
    assert_eq!(labels_of(&trie), set(&["ant", "hem", "i", "ion"]));
    assert_eq!(trie.remove("anthem".as_bytes()), Some(1));
    assert_eq!(labels_of(&trie), set(&["ant", "hemion", "i"]));
    assert_eq!(trie.remove("anthemion".as_bytes()), Some(7));
    assert_eq!(labels_of(&trie), set(&["anti"]));
    assert_eq!(trie.remove("anti".as_bytes()), Some(2));
    assert_eq!(labels_of(&trie), set(&[]));
    assert!(trie.is_empty());
}

#[test]
fn plan_for_a_leaf_below_a_key() {
    let trie = sample();
    let plan = capture(trie.root().unwrap(), "anthemion".as_bytes()).unwrap();
    assert_eq!(
        plan,
        vec![
            Playback::Unmark(Cursor::Node(4)),
            Playback::Prune(Cursor::Link(3, b'i')),
            Playback::Keep(Cursor::Link(2, b'h')),
            Playback::Keep(Cursor::Link(1, b't')),
            Playback::Keep(Cursor::Link(0, b'a')),
        ]
    );
}

#[test]
fn plan_for_a_key_with_one_child() {
    let trie = sample();
    let plan = capture(trie.root().unwrap(), "anthem".as_bytes()).unwrap();
    assert_eq!(
        plan,
        vec![
            Playback::Unmark(Cursor::Node(3)),
            Playback::Merge(Cursor::DoubleLink(2, b'h', b'i')),
            Playback::Keep(Cursor::Link(1, b't')),
            Playback::Keep(Cursor::Link(0, b'a')),
        ]
    );
}

#[test]
fn plan_for_a_key_with_two_children() {
    let mut trie = sample();
    trie.insert("an".as_bytes(), 5);
    let plan = capture(trie.root().unwrap(), "an".as_bytes()).unwrap();
    assert_eq!(
        plan,
        vec![Playback::Unmark(Cursor::Node(1)), Playback::Keep(Cursor::Link(0, b'a'))]
    );
    assert_eq!(trie.remove("an".as_bytes()), Some(5));
    assert_eq!(sorted(trie.all_keys("a".as_bytes())), vec!["and", "anthem", "anthemion", "anti"]);
}

#[test]
fn no_plan_where_there_is_no_key() {
    let trie = sample();
    let root = trie.root().unwrap();
    assert_eq!(capture(root, "ant".as_bytes()), None);
    assert_eq!(capture(root, "an".as_bytes()), None);
    assert_eq!(capture(root, "anthe".as_bytes()), None);
    assert_eq!(capture(root, "zebra".as_bytes()), None);
    assert_eq!(capture(root, "".as_bytes()), None);
}

#[test]
fn removing_what_is_not_there_changes_nothing() {
    let mut trie = sample();
    assert_eq!(trie.remove("ant".as_bytes()), None);
    assert_eq!(trie.remove("anthemio".as_bytes()), None);
    assert_eq!(trie.remove("b".as_bytes()), None);
    assert_eq!(sorted(trie.all_keys("a".as_bytes())), vec!["and", "anthem", "anthemion", "anti"]);
    assert_eq!(trie.values().size_hint(), (4, Some(4)));
}

#[test]
fn insert_splits_an_edge_where_the_key_ends_inside_a_label() {
    let mut trie: Trie<i32> = Trie::new();
    assert_eq!(trie.insert("anthem".as_bytes(), 1), None);
    assert_eq!(labels_of(&trie), BTreeSet::from(["anthem".to_string()]));
    assert_eq!(trie.insert("ant".as_bytes(), 2), None);
    assert_eq!(labels_of(&trie), BTreeSet::from(["ant".to_string(), "hem".to_string()]));
    assert_eq!(trie.search("ant".as_bytes()), Some(&2));
    assert_eq!(trie.search("anthem".as_bytes()), Some(&1));
    assert_eq!(trie.values().size_hint(), (2, Some(2)));
}

#[test]
fn insert_splits_an_edge_where_key_and_label_part() {
    let mut trie: Trie<i32> = Trie::new();
    assert_eq!(trie.insert("anthem".as_bytes(), 1), None);
    assert_eq!(trie.insert("anti".as_bytes(), 2), None);
    assert_eq!(
        labels_of(&trie),
        BTreeSet::from(["ant".to_string(), "hem".to_string(), "i".to_string()])
    );
    assert_eq!(trie.search("ant".as_bytes()), None);
    assert_eq!(trie.search("anti".as_bytes()), Some(&2));
    assert_eq!(trie.search("anthem".as_bytes()), Some(&1));
}

#[test]
fn insert_twice_keeps_the_second_value_and_one_key() {
    let mut trie: Trie<i32> = Trie::new();
    assert_eq!(trie.insert("key".as_bytes(), 1), None);
    assert_eq!(trie.insert("key".as_bytes(), 2), Some(1));
    assert_eq!(trie.search("key".as_bytes()), Some(&2));
    assert_eq!(trie.values().size_hint(), (1, Some(1)));
}

#[test]
fn remove_undoes_insert() {
    let mut trie = sample();
    assert_eq!(trie.insert("antler".as_bytes(), 9), None);
    assert_eq!(trie.values().size_hint(), (5, Some(5)));
    assert_eq!(trie.remove("antler".as_bytes()), Some(9));
    assert_eq!(trie.search("antler".as_bytes()), None);
    assert_eq!(trie.values().size_hint(), (4, Some(4)));
    assert_eq!(labels_of(&trie), labels_of(&sample()));
}

#[test]
fn longest_prefix_is_the_longest_key_on_the_path() {
    let trie = sample();
    assert_eq!(trie.longest_prefix("anthemio".as_bytes()), Some("anthem".as_bytes().to_vec()));
    assert_eq!(trie.longest_prefix("anthemion".as_bytes()), Some("anthemion".as_bytes().to_vec()));
    assert_eq!(trie.longest_prefix("anthemions".as_bytes()), Some("anthemion".as_bytes().to_vec()));
    assert_eq!(trie.longest_prefix("andes".as_bytes()), Some("and".as_bytes().to_vec()));
    assert_eq!(trie.longest_prefix("an".as_bytes()), None);
    assert_eq!(trie.longest_prefix("b".as_bytes()), None);
}

#[test]
fn longest_prefix_gives_up_where_the_token_parts_inside_a_label() {
    let trie = sample();
    // "anthem" is a key and a prefix, but the walk parts from "ion" after "i"
    assert_eq!(trie.longest_prefix("anthemix".as_bytes()), None);
    assert_eq!(longest_prefix(trie.root().unwrap(), "anthex".as_bytes()), None);
}

#[test]
fn all_keys_from_inside_a_label() {
    let trie = sample();
    assert_eq!(sorted(trie.all_keys("anthe".as_bytes())), vec!["anthem", "anthemion"]);
    assert_eq!(sorted(trie.all_keys("a".as_bytes())), vec!["and", "anthem", "anthemion", "anti"]);
    assert_eq!(sorted(trie.all_keys("anthemion".as_bytes())), vec!["anthemion"]);
    assert_eq!(trie.all_keys("anthemions".as_bytes()), None);
    assert_eq!(trie.all_keys("ax".as_bytes()), None);
    assert_eq!(trie.all_keys("anthex".as_bytes()), None);
    assert_eq!(all_keys(trie.root().unwrap(), "".as_bytes()), None);
}

#[test]
fn keys_below_the_root_are_all_keys() {
    let trie = sample();
    let mut keys = keys_below(trie.root().unwrap(), Vec::new());
    keys.sort();
    assert_eq!(
        keys,
        vec![
            "and".as_bytes().to_vec(),
            "anthem".as_bytes().to_vec(),
            "anthemion".as_bytes().to_vec(),
            "anti".as_bytes().to_vec()
        ]
    );
}

#[test]
fn traverse_match_tells_the_four_residuals() {
    let trie = sample();
    let root = trie.root().unwrap();
    let m: KeyMatch<i32> = traverse_match(root, "an".as_bytes()).unwrap();
    assert_eq!(m.common, "an".as_bytes());
    assert_eq!(m.edge_key, b'a');
    assert!(matches!(m.leftover, SuffixType::Empty));
    let m = traverse_match(root, "and".as_bytes()).unwrap();
    assert!(matches!(m.leftover, SuffixType::OnlyToken(t) if t == "d".as_bytes()));
    let m = traverse_match(root, "a".as_bytes()).unwrap();
    assert_eq!(m.common, "a".as_bytes());
    assert!(matches!(m.leftover, SuffixType::OnlyEdge(e) if e == "n".as_bytes()));
    let m = traverse_match(root, "ax".as_bytes()).unwrap();
    assert!(matches!(m.leftover,
        SuffixType::BothEdgeToken(e, t) if e == "n".as_bytes() && t == "x".as_bytes()));
    assert!(traverse_match(root, "b".as_bytes()).is_none());
}

#[test]
fn suffix_type_names_what_is_left() {
    assert!(matches!(SuffixType::new(&[], &[]), SuffixType::Empty));
    assert!(matches!(SuffixType::new(&[], &[1]), SuffixType::OnlyToken(t) if t == [1]));
    assert!(matches!(SuffixType::new(&[2], &[]), SuffixType::OnlyEdge(e) if e == [2]));
    assert!(matches!(SuffixType::new(&[2], &[1]), SuffixType::BothEdgeToken(e, t) if e == [2] && t == [1]));
}

#[test]
fn traverse_by_mode() {
    let trie = sample();
    let root = trie.root().unwrap();
    match traverse(root, "anthem".as_bytes(), TraverseType::Search) {
        Some(TraverseResult::Terminal(true, n)) => assert_eq!(n.label(), Some("hem".as_bytes())),
        _ => panic!("a key is a terminal"),
    }
    match traverse(root, "ant".as_bytes(), TraverseType::Search) {
        Some(TraverseResult::Terminal(false, n)) => assert_eq!(n.label(), Some("t".as_bytes())),
        _ => panic!("an inner node is a terminal"),
    }
    match traverse(root, "anthe".as_bytes(), TraverseType::Search) {
        Some(TraverseResult::PartialTerminal(true, n, rest)) => {
            assert_eq!(n.label(), Some("hem".as_bytes()));
            assert_eq!(rest, "m".as_bytes());
        }
        _ => panic!("the token ends inside a label"),
    }
    assert!(traverse(root, "anthex".as_bytes(), TraverseType::Search).is_none());
    assert!(traverse(root, "".as_bytes(), TraverseType::Search).is_none());
    match traverse(root, "anthem".as_bytes(), TraverseType::Fold) {
        Some(TraverseResult::Stack(frames)) => {
            let levels: Vec<usize> = frames.iter().map(|f| f.level).collect();
            let next: Vec<u8> = frames.iter().map(|f| f.next_key).collect();
            assert_eq!(levels, vec![0, 1, 2, 3]);
            assert_eq!(next, vec![b'a', b't', b'h', 0]);
            assert_eq!(frames[0].label, None);
            assert_eq!(frames[3].label, Some("hem".as_bytes()));
        }
        _ => panic!("the path of a key folds"),
    }
    assert!(traverse(root, "anthe".as_bytes(), TraverseType::Fold).is_none());
    match traverse(root, "anthe".as_bytes(), TraverseType::FoldOrPartial) {
        Some(TraverseResult::Stack(frames)) => assert_eq!(frames.len(), 3),
        _ => panic!("a partial fold keeps what it found"),
    }
    match traverse(root, "antx".as_bytes(), TraverseType::FoldOrPartial) {
        Some(TraverseResult::Stack(frames)) => assert_eq!(frames.len(), 3),
        _ => panic!("a partial fold keeps what it found at a dead end"),
    }
    assert!(traverse(root, "anthex".as_bytes(), TraverseType::FoldOrPartial).is_none());
}

#[test]
fn node_parts() {
    let node: Node<i32> = Node::new(Some(vec![1, 2]), NodeType::Key, Some(Box::new(5)));
    assert!(node.is_key());
    assert_eq!(node.label(), Some(&[1u8, 2][..]));
    assert_eq!(node.edge_type(), None);
    assert!(node.lookup_edge(1).is_none());
    assert!(node.edge_list().is_empty());
    let view = node.node_view();
    assert_eq!(view.value, Some(&5));
    assert!(view.keys.is_empty());
    let owned = node.node_view_owned();
    assert_eq!(owned.value, Some(5));
    assert!(owned.edges.is_empty());

    let trie = sample();
    let root = trie.root().unwrap();
    assert!(!root.is_key());
    assert_eq!(root.label(), None);
    assert_eq!(root.edge_type(), Some(EdgeType::Single));
    let an = root.lookup_edge(b'a').unwrap();
    assert_eq!(an.edge_type(), Some(EdgeType::Branching(2)));
    assert_eq!(an.other_edge_key(b'd'), b't');
    assert_eq!(root.only_edge_key(), b'a');
    assert_eq!(NodeType::default(), NodeType::Inner);
}

#[test]
fn search_mut_lends_the_value_of_a_key() {
    let mut root: Node<i32> = Node::default();
    root.insert("anthem".as_bytes(), 1);
    root.insert("anti".as_bytes(), 2);
    match root.search_mut("anti".as_bytes()) {
        Some((label, value)) => {
            assert_eq!(label, "i".as_bytes());
            *value = 20;
        }
        None => panic!("a key has a value"),
    }
    assert!(root.search_mut("ant".as_bytes()).is_none());
    assert!(root.search_mut("an".as_bytes()).is_none());
    assert!(root.search_mut("".as_bytes()).is_none());
    assert_eq!(root.search("anti".as_bytes()), Some(&20));
    assert_eq!(root.search("anthem".as_bytes()), Some(&1));
}

#[test]
fn from_pairs_keeps_the_last_value_of_a_key() {
    let trie: Trie<i32> = Trie::from_pairs(vec![
        ("a".as_bytes().to_vec(), 1),
        ("b".as_bytes().to_vec(), 2),
        ("".as_bytes().to_vec(), 3),
        ("a".as_bytes().to_vec(), 4),
    ]);
    assert_eq!(trie.search("a".as_bytes()), Some(&4));
    assert_eq!(trie.search("b".as_bytes()), Some(&2));
    assert_eq!(trie.search("".as_bytes()), None);
    assert_eq!(trie.values().size_hint(), (2, Some(2)));
}

#[test]
fn clear_forgets_everything() {
    let mut trie = sample();
    trie.clear();
    assert!(trie.is_empty());
    assert!(trie.root().is_none());
    assert_eq!(trie.search("and".as_bytes()), None);
    assert!(trie.labels().next().is_none());
    assert!(trie.iter().next().is_none());
    assert!(trie.values_mut().next().is_none());
    assert!(trie.iter_mut().next().is_none());
    assert!(Trie::<i32>::default().into_iter().next().is_none());
}

fn check_shape(node: &Node<i32>, is_root: bool, keys: &mut usize) {
    let view = node.node_view();
    if is_root {
        assert!(view.label.is_none());
        assert!(view.value.is_none());
    } else {
        assert!(!view.label.unwrap().is_empty());
        assert_eq!(node.is_key(), view.value.is_some());
        if !node.is_key() {
            assert!(view.edges.len() >= 2);
        }
    }
    if view.value.is_some() {
        *keys += 1;
    }
    let first_bytes: BTreeSet<u8> = view.edges.iter().map(|c| c.label().unwrap()[0]).collect();
    let edge_bytes: BTreeSet<u8> = view.keys.iter().cloned().collect();
    assert_eq!(first_bytes, edge_bytes);
    assert_eq!(edge_bytes.len(), view.keys.len());
    for (byte, child) in view.keys.iter().zip(view.edges.iter()) {
        assert_eq!(child.label().unwrap()[0], *byte);
        check_shape(child, false, keys);
    }
}

#[test]
fn edges_are_filed_under_first_bytes() {
    let trie = sample();
    let mut keys = 0;
    check_shape(trie.root().unwrap(), true, &mut keys);
    assert_eq!(keys, 4);
}

#[test]
fn matches_a_map_under_mixed_operations() {
    let mut trie: Trie<i32> = Trie::new();
    let mut model: BTreeMap<Vec<u8>, i32> = BTreeMap::new();
    let mut state: u64 = 0x2545_f491_4f6c_dd1d;
    let mut next = |bound: u64| {
        state ^= state << 13;
        state ^= state >> 7;
        state ^= state << 17;
        state % bound
    };
    for round in 0..4000 {
        let len = next(5) as usize;
        let key: Vec<u8> = (0..len).map(|_| b'a' + next(3) as u8).collect();
        match next(4) {
            0 | 1 => {
                let expected = if key.is_empty() { None } else { model.insert(key.clone(), round) };
                assert_eq!(trie.insert(&key, round), expected);
            }
            2 => assert_eq!(trie.remove(&key), model.remove(&key)),
            _ => {
                assert_eq!(trie.search(&key), model.get(&key));
                let mut expected: Vec<Vec<u8>> =
                    model.keys().filter(|k| k.starts_with(&key)).cloned().collect();
                expected.sort();
                let mut found = trie.all_keys(&key).unwrap_or_default();
                found.sort();
                if !key.is_empty() {
                    assert_eq!(found, expected);
                }
            }
        }
        assert_eq!(trie.is_empty(), model.is_empty());
        assert_eq!(trie.values().size_hint().0, model.len());
        if let Some(root) = trie.root() {
            let mut keys = 0;
            check_shape(root, true, &mut keys);
            assert_eq!(keys, model.len());
        }
    }
    let mut values: Vec<i32> = Vec::new();
    let mut it = trie.values();
    while let Some(v) = it.next() {
        values.push(*v);
    }
    values.sort();
    let mut expected: Vec<i32> = model.values().cloned().collect();
    expected.sort();
    assert_eq!(values, expected);
}

#[test]
fn replacing_a_value_keeps_the_size() {
    let mut trie = sample();
    assert_eq!(trie.values().size_hint(), (4, Some(4)));
    assert_eq!(trie.insert("anthem".as_bytes(), 98), Some(1));
    assert_eq!(trie.search("anthem".as_bytes()), Some(&98));
    assert_eq!(trie.values().size_hint(), (4, Some(4)));
}

#[test]
fn remove_after_replacing_takes_the_key_away() {
    let mut trie: Trie<i32> = Trie::new();
    trie.insert("a".as_bytes(), 1);
    assert_eq!(trie.insert("a".as_bytes(), 2), Some(1));
    assert_eq!(trie.remove("a".as_bytes()), Some(2));
    assert!(trie.is_empty());
}
