use prefix_tree::AdaptiveRadixTrie;
use prefix_tree::PrefixSearch;

#[test]
fn test_art_scenario() {
    let mut pfx: AdaptiveRadixTrie<usize> = AdaptiveRadixTrie::new();
    assert_eq!(pfx.get(b"hello"), None);
    assert!(!pfx.contains(b""));
    assert_eq!(pfx.insert(b"", 4), None);
    assert_eq!(pfx.insert(b"h", 5), None);
    assert_eq!(pfx.insert(b"hello", 1), None);
    assert_eq!(pfx.delete(b"hello"), Some(1));
    assert_eq!(pfx.delete(b"hello "), None);
    pfx.insert(b"hello", 1);
    pfx.insert(b"hell", 2);
    pfx.insert(b"hello world", 3);
    assert_eq!(pfx.prefix_matches(b""), vec![(0, &4)]);
    assert_eq!(
        pfx.prefix_matches(b"hello my friend"),
        vec![(0, &4), (1, &5), (4, &2), (5, &1)]
    );
    assert_eq!(
        pfx.prefix_matches(b"hello world!"),
        vec![(0, &4), (1, &5), (4, &2), (5, &1), (11, &3)]
    );
    assert_eq!(pfx.get(b"hello"), Some(&1));
    assert_eq!(pfx.get(b"hell"), Some(&2));
    assert_eq!(pfx.get(b"hello world"), Some(&3));
    assert!(pfx.contains(b"hell"));
    assert!(!pfx.contains(b"hel"));
    assert!(pfx.contains_prefix(b"hel"));
    assert!(pfx.contains(b""));
    assert!(!pfx.contains(b"hello world!"));
    assert_eq!(pfx.delete(b"hello"), Some(1));
    assert_eq!(pfx.get(b"hello"), None);
    assert!(pfx.contains_prefix(b"hello "));
}

#[test]
fn test_art_replace_and_len() {
    let mut pfx: AdaptiveRadixTrie<u32> = AdaptiveRadixTrie::new();
    assert!(pfx.is_empty());
    assert_eq!(pfx.insert(b"key", 1), None);
    assert_eq!(pfx.len(), 1);
    assert_eq!(pfx.insert(b"key", 2), Some(1));
    assert_eq!(pfx.len(), 1);
    assert_eq!(pfx.get(b"key"), Some(&2));
    assert_eq!(pfx.delete(b"key"), Some(2));
    assert_eq!(pfx.delete(b"key"), None);
    assert_eq!(pfx.len(), 0);
}

#[test]
fn test_art_wide_fanout_promotes_and_demotes() {
    // all 256 one-byte keys force the root's children through every layout
    let mut pfx: AdaptiveRadixTrie<u16> = AdaptiveRadixTrie::new();
    for b in 0..=255u8 {
        assert_eq!(pfx.insert(&[b, b, b], b as u16), None);
    }
    assert_eq!(pfx.len(), 256);
    for b in 0..=255u8 {
        assert_eq!(pfx.get(&[b, b, b]), Some(&(b as u16)));
        assert!(pfx.contains_prefix(&[b]));
    }
    let all = pfx.continuations(b"");
    assert_eq!(all.len(), 256);
    // delete back down through every band
    for b in 0..=254u8 {
        assert_eq!(pfx.delete(&[b, b, b]), Some(b as u16));
    }
    assert_eq!(pfx.len(), 1);
    assert_eq!(pfx.get(&[255, 255, 255]), Some(&255));
    assert!(!pfx.contains_prefix(&[0]));
}
