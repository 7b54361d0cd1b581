use prefix_tree::PatriciaTrie;
use prefix_tree::PrefixSearch;

#[test]
fn test_new_trie_is_empty() {
    let pfx: PatriciaTrie<u32> = PatriciaTrie::new();
    assert_eq!(pfx.len(), 0);
    assert!(pfx.is_empty());
    assert!(!pfx.contains_prefix(b""));
    assert!(pfx.continuations(b"").is_empty());
    assert!(pfx.prefix_matches(b"anything").is_empty());
}

#[test]
fn test_insert_get_round_trip() {
    let mut pfx: PatriciaTrie<usize> = PatriciaTrie::new();
    let keys: [&[u8]; 6] = [b"", b"a", b"ab", b"abc", b"b", b"ba"];
    for (i, k) in keys.iter().enumerate() {
        assert_eq!(pfx.insert(k, i), None);
    }
    assert_eq!(pfx.len(), keys.len());
    for (i, k) in keys.iter().enumerate() {
        assert_eq!(pfx.get(k), Some(&i));
    }
}

#[test]
fn test_replace_keeps_len() {
    let mut pfx: PatriciaTrie<u32> = PatriciaTrie::new();
    assert_eq!(pfx.insert(b"key", 1), None);
    assert_eq!(pfx.insert(b"key", 2), Some(1));
    assert_eq!(pfx.len(), 1);
    assert_eq!(pfx.get(b"key"), Some(&2));
}

#[test]
fn test_delete_round_trip() {
    let mut pfx: PatriciaTrie<u32> = PatriciaTrie::new();
    pfx.insert(b"alpha", 7);
    pfx.insert(b"alp", 8);
    assert_eq!(pfx.delete(b"alpha"), Some(7));
    assert_eq!(pfx.get(b"alpha"), None);
    assert_eq!(pfx.len(), 1);
}

#[test]
fn test_delete_absent_is_noop() {
    let mut pfx: PatriciaTrie<u32> = PatriciaTrie::new();
    pfx.insert(b"alpha", 7);
    assert_eq!(pfx.delete(b"beta"), None);
    assert_eq!(pfx.delete(b"alphabet"), None);
    assert_eq!(pfx.delete(b""), None);
    assert_eq!(pfx.len(), 1);
    assert_eq!(pfx.get(b"alpha"), Some(&7));
}

#[test]
fn test_prefix_containment() {
    let mut pfx: PatriciaTrie<u32> = PatriciaTrie::new();
    let word: &[u8] = b"containment";
    pfx.insert(word, 1);
    for j in 0..=word.len() {
        assert!(pfx.contains_prefix(&word[..j]));
    }
    assert!(!pfx.contains_prefix(b"containments"));
    assert!(!pfx.contains_prefix(b"x"));
}

#[test]
fn test_continuations_completeness() {
    let mut pfx: PatriciaTrie<u32> = PatriciaTrie::new();
    pfx.insert(b"", 0);
    pfx.insert(b"he", 1);
    pfx.insert(b"hell", 2);
    pfx.insert(b"hello", 3);
    pfx.insert(b"help", 4);
    pfx.insert(b"world", 5);

    let mut got: Vec<(Vec<u8>, u32)> = pfx
        .continuations(b"he")
        .into_iter()
        .map(|(k, v)| (k, *v))
        .collect();
    got.sort();
    let expected: Vec<(Vec<u8>, u32)> = vec![
        (b"he".to_vec(), 1),
        (b"hell".to_vec(), 2),
        (b"hello".to_vec(), 3),
        (b"help".to_vec(), 4),
    ];
    assert_eq!(got, expected);

    let mut all: Vec<(Vec<u8>, u32)> = pfx
        .continuations(b"")
        .into_iter()
        .map(|(k, v)| (k, *v))
        .collect();
    all.sort();
    assert_eq!(all.len(), 6);
    assert_eq!(all[0], (b"".to_vec(), 0));

    assert!(pfx.continuations(b"hex").is_empty());
}

#[test]
fn test_empty_key_in_prefix_matches() {
    let mut pfx: PatriciaTrie<u32> = PatriciaTrie::new();
    pfx.insert(b"", 9);
    pfx.insert(b"a", 10);
    assert_eq!(pfx.prefix_matches(b""), vec![(0, &9)]);
    assert_eq!(pfx.prefix_matches(b"a"), vec![(0, &9), (1, &10)]);
    assert_eq!(pfx.delete(b""), Some(9));
    assert_eq!(pfx.prefix_matches(b"a"), vec![(1, &10)]);
}

#[test]
fn test_split_and_merge_edges() {
    // force a mid-edge split, then deletions that collapse it again
    let mut pfx: PatriciaTrie<u32> = PatriciaTrie::new();
    pfx.insert(b"romane", 1);
    pfx.insert(b"romanus", 2);
    pfx.insert(b"romulus", 3);
    pfx.insert(b"rubens", 4);
    pfx.insert(b"ruber", 5);
    assert_eq!(pfx.len(), 5);
    assert_eq!(pfx.get(b"romane"), Some(&1));
    assert_eq!(pfx.get(b"romanus"), Some(&2));
    assert_eq!(pfx.get(b"romulus"), Some(&3));
    assert_eq!(pfx.get(b"rubens"), Some(&4));
    assert_eq!(pfx.get(b"ruber"), Some(&5));
    assert!(pfx.contains_prefix(b"rom"));
    assert!(!pfx.contains_prefix(b"rx"));
    assert_eq!(pfx.delete(b"romanus"), Some(2));
    assert_eq!(pfx.delete(b"romane"), Some(1));
    assert_eq!(pfx.get(b"romulus"), Some(&3));
    assert!(!pfx.contains_prefix(b"roman"));
    assert!(pfx.contains_prefix(b"rom"));
    assert_eq!(pfx.len(), 3);
}
