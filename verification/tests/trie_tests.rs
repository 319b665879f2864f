use radix_trie::delete::{capture, Cursor as C, Playback as P};
use radix_trie::trie::Trie;
use std::collections::BTreeSet;

fn labels_helper(trie: &Trie<i32>) -> BTreeSet<String> {
    let mut set = BTreeSet::new();
    let mut labels = trie.labels();
    while let Some(bytes) = labels.next() {
        set.insert(std::str::from_utf8(bytes).unwrap().to_string());
    }
    set
}

fn build<V: Clone>(pairs: &[(&str, V)]) -> Trie<V> {
    let mut trie = Trie::new();
    for (key, value) in pairs.iter() {
        trie.insert(key.as_bytes(), value.clone());
    }
    trie
}

fn build_rev<V: Clone>(pairs: &[(&str, V)]) -> Trie<V> {
    let mut trie = Trie::new();
    for (key, value) in pairs.iter().rev() {
        trie.insert(key.as_bytes(), value.clone());
    }
    trie
}

fn keys_helper<'a>(keys: Option<&'a Vec<Vec<u8>>>) -> Vec<&'a str> {
    if let Some(k) = keys {
        let mut v = k
            .iter()
            .map(|bytes| std::str::from_utf8(bytes).unwrap())
            .collect::<Vec<_>>();
        v.sort_unstable();
        v
    } else {
        vec![]
    }
}

#[test]
fn check_delete_plan() {
    let mut trie: Trie<i32> =
        build_rev(&[("anthem", 1), ("anti", 2), ("anthemion", 7), ("and", 77)]);

    let result = vec!["anthemion", "anthem", "and", "anti"];

    let mut i = 0;

    let root = trie.root();
    let pb = capture(root.unwrap(), result[i].as_bytes()).unwrap();

    assert_eq!(
        pb,
        vec![
            P::Unmark(C::Node(4)),
            P::Prune(C::Link(3, 105)),
            P::Keep(C::Link(2, 104)),
            P::Keep(C::Link(1, 116)),
            P::Keep(C::Link(0, 97))
        ]
    );

    trie.remove(result[i].as_bytes());
    i += 1;

    let root = trie.root();
    let pb = capture(root.unwrap(), result[i].as_bytes()).unwrap();

    assert_eq!(
        pb,
        vec![
            P::Unmark(C::Node(3)),
            P::Prune(C::Link(2, 104)),
            P::Merge(C::DoubleLink(1, 116, 105)),
            P::Keep(C::Link(0, 97))
        ]
    );

    trie.remove(result[i].as_bytes());
    i += 1;

    let root = trie.root();
    let pb = capture(root.unwrap(), result[i].as_bytes()).unwrap();

    assert_eq!(
        pb,
        vec![
            P::Unmark(C::Node(2)),
            P::Prune(C::Link(1, 100)),
            P::Merge(C::DoubleLink(0, 97, 116))
        ]
    );

    trie.remove(result[i].as_bytes());
    i += 1;

    let root = trie.root();
    let pb = capture(root.unwrap(), "anti".as_bytes()).unwrap();

    assert_eq!(pb, vec![P::Unmark(C::Node(1)), P::Prune(C::Link(0, 97))]);

    trie.remove(result[i].as_bytes());

    assert!(trie.is_empty());
}

#[test]
fn search_basic() {
    let trie: Trie<i32> = build(&[("anthem", 1), ("anti", 2), ("anthemion", 7), ("and", 77)]);
    assert_eq!(&1, trie.search("anthem".as_bytes()).unwrap());
    assert_eq!(None, trie.search("ant".as_bytes()))
}

#[test]
fn search_with_remove() {
    let mut trie: Trie<&str> = build(&[
        ("anthem", "one"),
        ("anti", "two"),
        ("anthemion", "seven"),
        ("and", "seventy-seven"),
    ]);
    assert_eq!(&"two", trie.search("anti".as_bytes()).unwrap());
    assert_eq!(Some("two"), trie.remove("anti".as_bytes()));
    assert_eq!(None, trie.search("anti".as_bytes()));
}

#[test]
fn search_with_replace_insert() {
    let mut trie: Trie<i32> = build(&[("anthem", 1), ("anti", 2), ("anthemion", 7), ("and", 77)]);
    assert_eq!(&1, trie.search("anthem".as_bytes()).unwrap());
    assert_eq!(Some(1), trie.insert("anthem".as_bytes(), 98));
    assert_eq!(&98, trie.search("anthem".as_bytes()).unwrap());
}

#[test]
fn search_with_replace_insert_w_reference_values() {
    let important: u16 = 42;
    let i = &important;
    let vip: u16 = 98;

    let mut trie: Trie<&u16> = build(&[("anthem", i), ("anti", i), ("anthemion", i), ("and", i)]);
    assert_eq!(&i, trie.search("anthem".as_bytes()).unwrap());
    assert_eq!(Some(i), trie.insert("anthem".as_bytes(), &vip));
    assert_eq!(&&vip, trie.search("anthem".as_bytes()).unwrap());
}

#[test]
fn check_all_keys() {
    let trie: Trie<i32> = build(&[("anthem", 1), ("anti", 2), ("anthemion", 7), ("and", 77)]);

    let mut keys = trie.all_keys("ant".as_bytes()).unwrap();
    keys.sort();

    let nested = vec![
        vec![97, 110, 116, 104, 101, 109],
        vec![97, 110, 116, 104, 101, 109, 105, 111, 110],
        vec![97, 110, 116, 105],
    ];

    let flattened: Vec<u8> = nested.iter().flat_map(|v| v.iter()).cloned().collect();
    let keys_flattened: Vec<u8> = keys.iter().flat_map(|v| v.iter()).cloned().collect();

    assert_eq!(flattened, keys_flattened);

    let result = keys_helper(Some(&keys));

    assert_eq!(vec!["anthem", "anthemion", "anti"], result);
}

#[test]
fn check_longest_prefix() {
    let trie: Trie<i32> = build(&[("anthem", 1), ("anti", 2), ("anthemion", 7), ("and", 77)]);

    let result = trie.longest_prefix("anthemio".as_bytes()).unwrap();

    assert_eq!("anthem", std::str::from_utf8(&result).unwrap());
}

#[test]
fn passthru_removes() {
    let mut trie: Trie<i32> = build(&[("anthem", 1), ("anti", 2), ("anthemion", 7), ("and", 77)]);

    let keys = trie.all_keys("an".as_bytes());
    let result = keys_helper(keys.as_ref());

    assert_eq!(vec!["and", "anthem", "anthemion", "anti"], result);

    // a passthrough that is followed by a pruned edge
    assert_eq!(2, trie.remove("anti".as_bytes()).unwrap());
    assert_eq!(None, trie.search("anti".as_bytes()));
    assert_eq!(&1, trie.search("anthem".as_bytes()).unwrap());

    // a passthrough that has a child
    assert_eq!(1, trie.remove("anthem".as_bytes()).unwrap());

    let keys = trie.all_keys("an".as_bytes());
    let result = keys_helper(keys.as_ref());

    assert_eq!(vec!["and", "anthemion"], result);
}

#[test]
fn delete_all() {
    let mut trie: Trie<i32> = build(&[("anthem", 1), ("anti", 2), ("anthemion", 7), ("and", 77)]);

    let keys = trie.all_keys("an".as_bytes());
    let result = keys_helper(keys.as_ref());

    assert_eq!(vec!["and", "anthem", "anthemion", "anti"], result);

    for (i, k) in result.iter().skip(1).enumerate() {
        trie.remove(k.as_bytes());

        let keys = trie.all_keys("an".as_bytes());
        let v: Vec<&str> = keys_helper(keys.as_ref());

        match i {
            0 => assert_eq!(v, vec!["and", "anthemion", "anti"]),
            1 => assert_eq!(v, vec!["and", "anti"]),
            2 => assert_eq!(v, vec!["and"]),
            _ => (),
        }

        assert_eq!(trie.remove("nonexistent1".as_bytes()), None);
    }

    assert_eq!(trie.remove("and".as_bytes()).unwrap(), 77);
    assert_eq!(trie.all_keys("an".as_bytes()), None);
    assert_eq!(trie.remove("nonexistent2".as_bytes()), None);
    assert_eq!(trie.is_empty(), true);
}

#[test]
fn remove_below_a_root_with_two_edges() {
    let mut trie: Trie<i32> = build(&[("a", 1), ("b", 2)]);
    let plan = capture(trie.root().unwrap(), "a".as_bytes()).unwrap();
    assert_eq!(plan, vec![P::Unmark(C::Node(1)), P::Prune(C::Link(0, 97))]);
    assert_eq!(trie.remove("a".as_bytes()), Some(1));
    assert_eq!(trie.search("a".as_bytes()), None);
    assert_eq!(trie.search("b".as_bytes()), Some(&2));
    assert_eq!(trie.remove("b".as_bytes()), Some(2));
    assert!(trie.is_empty());
}

#[test]
fn empty_token_is_never_a_key() {
    let mut trie: Trie<i32> = Trie::new();
    assert_eq!(trie.insert("".as_bytes(), 5), None);
    assert!(trie.is_empty());
    assert_eq!(trie.search("".as_bytes()), None);
    assert_eq!(trie.remove("".as_bytes()), None);
    trie.insert("x".as_bytes(), 1);
    assert_eq!(trie.insert("".as_bytes(), 5), None);
    assert_eq!(trie.search("".as_bytes()), None);
    assert_eq!(trie.remove("".as_bytes()), None);
    assert_eq!(trie.all_keys("".as_bytes()), None);
    assert_eq!(trie.longest_prefix("".as_bytes()), None);
    assert!(!trie.is_empty());
}

#[test]
fn check_compessed_labels() {
    let mut trie: Trie<i32> = build(&[("anthem", 1), ("anti", 2), ("anthemion", 7), ("and", 77)]);

    let keys = trie.all_keys("an".as_bytes());
    let keys_vec: Vec<String> = keys_helper(keys.as_ref()).iter().map(|s| s.to_string()).collect();

    assert_eq!(vec!["and", "anthem", "anthemion", "anti"], keys_vec);

    for (i, k) in keys_vec.iter().enumerate() {
        let set = labels_helper(&trie);

        // each removal prunes or merges labels
        match i {
            0 => assert_eq!(set, BTreeSet::from(["an", "d", "hem", "i", "ion", "t"].map(String::from))),
            1 => assert_eq!(set, BTreeSet::from(["ant", "hem", "i", "ion"].map(String::from))),
            2 => assert_eq!(set, BTreeSet::from(["ant", "hemion", "i"].map(String::from))),
            3 => assert_eq!(set, BTreeSet::from(["anti"].map(String::from))),
            _ => (),
        }

        trie.remove(k.as_bytes());
    }
    assert!(labels_helper(&trie).is_empty());
}

#[test]
fn check_values_into_iter() {
    let trie: Trie<i32> = build(&[("anthem", 1), ("anti", 2), ("anthemion", 7), ("and", 77)]);
    let mut vec1 = BTreeSet::new();
    let mut it = trie.into_iter();
    while let Some(mut v) = it.next() {
        v = v + 1;
        vec1.insert(v);
    }
    assert_eq!(vec1, BTreeSet::from([2, 3, 8, 78]));
}

#[test]
fn check_leafpairs_iter() {
    let trie: Trie<i32> = build(&[("anthem", 1), ("anti", 2), ("anthemion", 7), ("and", 77)]);
    let mut set: BTreeSet<(&[u8], &i32)> = BTreeSet::new();
    let mut it = trie.iter();
    while let Some(pair) = it.next() {
        set.insert(pair);
    }
    assert_eq!(
        BTreeSet::from([
            ("d".as_bytes(), &77),
            ("hem".as_bytes(), &1),
            ("i".as_bytes(), &2),
            ("ion".as_bytes(), &7)
        ]),
        set
    )
}

#[test]
fn size_is_the_number_of_values() {
    let mut trie: Trie<i32> = build(&[("anthem", 1), ("anti", 2), ("anthemion", 7), ("and", 77)]);
    trie.remove("anti".as_bytes());
    trie.insert("b".as_bytes(), 3);
    trie.insert("anthem".as_bytes(), 4);
    let mut n = 0;
    let mut it = trie.values();
    assert_eq!(it.size_hint(), (4, Some(4)));
    while let Some(_) = it.next() {
        n += 1;
    }
    assert_eq!(n, 4);
    assert!(Trie::<i32>::new().values().next().is_none());
}

#[test]
fn check_values_iter() {
    let mut trie: Trie<i32> = build(&[("anthem", 1), ("anti", 2), ("anthemion", 7), ("and", 77)]);

    let mut values = trie.values_mut();
    while let Some(v) = values.next() {
        *v = *v * 5;
    }
    assert_eq!(5, trie.remove("anthem".as_bytes()).unwrap());

    let mut set2 = BTreeSet::new();
    let mut values = trie.values();
    while let Some(v) = values.next() {
        set2.insert(v);
    }
    assert_eq!(BTreeSet::from([&10, &35, &385]), set2)
}

#[test]
fn leaf_pairs_lend_values_beside_labels() {
    let mut trie: Trie<i32> = build(&[("anthem", 1), ("anti", 2), ("anthemion", 7), ("and", 77)]);
    let mut seen = BTreeSet::new();
    let mut pairs = trie.iter_mut();
    assert_eq!(pairs.size_hint(), (4, Some(4)));
    while let Some((label, value)) = pairs.next() {
        seen.insert((label.to_vec(), *value));
        *value += 1;
    }
    assert_eq!(
        seen,
        BTreeSet::from([
            ("d".as_bytes().to_vec(), 77),
            ("hem".as_bytes().to_vec(), 1),
            ("i".as_bytes().to_vec(), 2),
            ("ion".as_bytes().to_vec(), 7)
        ])
    );
    assert_eq!(trie.search("and".as_bytes()), Some(&78));
    assert_eq!(trie.search("anthemion".as_bytes()), Some(&8));
}
