//! The large word-list scenario, run against both engines: ten thousand
//! distinct generated words inserted with their index as value, read back,
//! probed by half-length prefix, then thinned to the odd-indexed half.

use prefix_tree::{AdaptiveRadixTrie, PatriciaTrie, PrefixSearch};

const SYLLABLES: [&str; 10] = ["ba", "ce", "di", "fo", "gu", "ha", "je", "ki", "lo", "mu"];

fn words() -> Vec<Vec<u8>> {
    let mut out = Vec::new();
    for a in 0..10 {
        for b in 0..10 {
            for c in 0..10 {
                for d in 0..10 {
                    let mut w = Vec::new();
                    w.extend_from_slice(SYLLABLES[a].as_bytes());
                    w.extend_from_slice(SYLLABLES[b].as_bytes());
                    w.extend_from_slice(SYLLABLES[c].as_bytes());
                    w.extend_from_slice(SYLLABLES[d].as_bytes());
                    out.push(w);
                }
            }
        }
    }
    out
}

fn run_scenario<T: PrefixSearch<Value = usize>>(pfx: &mut T) {
    let ws = words();
    assert_eq!(ws.len(), 10_000);
    for (i, w) in ws.iter().enumerate() {
        assert_eq!(pfx.insert(w, i), None);
    }
    assert_eq!(pfx.len(), ws.len());
    for (i, w) in ws.iter().enumerate() {
        assert_eq!(pfx.get(w), Some(&i));
        assert!(pfx.contains_prefix(&w[..w.len() / 2 + 1]));
    }
    for (i, w) in ws.iter().enumerate() {
        if i % 2 == 0 {
            assert_eq!(pfx.delete(w), Some(i));
        }
    }
    for (i, w) in ws.iter().enumerate() {
        if i % 2 == 0 {
            assert_eq!(pfx.get(w), None);
        } else {
            assert_eq!(pfx.get(w), Some(&i));
        }
    }
    assert_eq!(pfx.len(), ws.len() / 2);
}

#[test]
fn test_word_list_patricia() {
    let mut pfx: PatriciaTrie<usize> = PatriciaTrie::new();
    run_scenario(&mut pfx);
}

#[test]
fn test_word_list_art() {
    let mut pfx: AdaptiveRadixTrie<usize> = AdaptiveRadixTrie::new();
    run_scenario(&mut pfx);
}
