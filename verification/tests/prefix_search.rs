use prefix_tree::PatriciaTrie;
use prefix_tree::PrefixSearch;

#[test]
fn test_prefix_search() {
    let mut pfx: PatriciaTrie<usize> = PatriciaTrie::new();
    assert_eq!(pfx.get(b"hello"), None);
    assert_eq!(pfx.get(b""), None);
    assert!(!pfx.contains(b""));
    pfx.insert(b"", 4);
    pfx.insert(b"h", 5);
    pfx.insert(b"hello", 1);
    assert_eq!(pfx.delete(b"hello"), Some(1));
    assert_eq!(pfx.delete(b"hello "), None);
    pfx.insert(b"hello", 1);
    pfx.insert(b"hell", 2);
    pfx.insert(b"hello world", 3);
    assert_eq!(pfx.prefix_matches(b""), vec![(0, &4)]);
    assert_eq!(
        pfx.prefix_matches(b"hello my friend"),
        vec![(0, &4), (1, &5), (4, &2), (5, &1)]
    );
    assert_eq!(
        pfx.prefix_matches(b"hello world!"),
        vec![(0, &4), (1, &5), (4, &2), (5, &1), (11, &3)]
    );
    assert_eq!(pfx.get(b"hello"), Some(&1));
    assert_eq!(pfx.get(b"hell"), Some(&2));
    assert_eq!(pfx.get(b"hello world"), Some(&3));
    assert!(pfx.contains(b"hell"));
    assert!(!pfx.contains(b"hel"));
    assert!(pfx.contains_prefix(b"hel"));
    assert!(pfx.contains(b"hello"));
    assert!(pfx.contains(b""));
    assert!(!pfx.contains(b"hello world!"));
    assert!(!pfx.contains(b"test"));
    assert_eq!(pfx.get(b"hello"), Some(&1));
    assert_eq!(pfx.delete(b"hello"), Some(1));
    assert_eq!(pfx.get(b"hello"), None);
    // "hello world" still extends the deleted key
    assert!(pfx.contains_prefix(b"hello "));
}

fn load_words() -> Vec<String> {
    // a deterministic word list with shared prefixes of every length
    let syllables = ["an", "be", "cor", "dis", "el", "fun", "gra", "hel", "in", "jo", "kin", "lo"];
    let mut words = Vec::new();
    for a in 0..syllables.len() {
        for b in 0..syllables.len() {
            words.push(format!("{}{}", syllables[a], syllables[b]));
            for c in 0..syllables.len() {
                if (a + b + c) % 3 == 0 {
                    words.push(format!("{}{}{}", syllables[a], syllables[b], syllables[c]));
                }
            }
        }
    }
    words.sort();
    words.dedup();
    words
}

struct Lcg(u64);

impl Lcg {
    fn next(&mut self, bound: usize) -> usize {
        self.0 = self.0.wrapping_mul(6364136223846793005).wrapping_add(1442695040888963407);
        ((self.0 >> 33) as usize) % bound
    }
}

fn load_prefixes(words: &[String], n: usize) -> Vec<Vec<u8>> {
    // sample n random prefixes from the words
    let mut rng = Lcg(22);
    let mut prefixes = Vec::new();
    for _ in 0..n {
        let w = words[rng.next(words.len())].as_bytes();
        let len = rng.next(w.len() + 1);
        prefixes.push(w[..len.max(2).min(w.len())].to_vec());
    }
    prefixes
}

#[test]
fn test_prefix_matches() {
    let words = load_words();
    let prefixes = load_prefixes(&words, 200);

    let mut pfx: PatriciaTrie<usize> = PatriciaTrie::new();
    words.iter().enumerate().for_each(|(i, w)| {
        pfx.insert(w.as_bytes(), i);
    });

    for prefix in &prefixes {
        let path = pfx.prefix_matches(prefix);
        let path_words: Vec<_> = path
            .iter()
            .map(|(n, &i)| (&prefix[..*n], words[i].as_bytes()))
            .collect();
        assert!(
            path_words.iter().all(|&(p, w)| p == w),
            "{:?}",
            path_words
                .iter()
                .map(|(p, w)| { (String::from_utf8_lossy(p), String::from_utf8_lossy(w)) })
                .collect::<Vec<_>>()
        );
        for (i, word) in words.iter().enumerate() {
            if prefix[..] == *word.as_bytes() {
                assert!(
                    path.last() == Some(&(word.len(), &i)),
                    "last of {:?} not equal to ({}, {i})",
                    path,
                    word.len()
                );
            } else if prefix.starts_with(word.as_bytes()) {
                assert!(path.iter().any(|(_, &idx)| idx == i));
            } else {
                assert!(path.iter().all(|(_, &idx)| idx != i));
            }
        }
    }
}

#[test]
fn test_insert_delete_contains_prefix() {
    let words = load_words();

    let mut pfx: PatriciaTrie<usize> = PatriciaTrie::new();
    words.iter().enumerate().for_each(|(i, w)| {
        pfx.insert(w.as_bytes(), i);
    });

    for (i, word) in words.iter().enumerate() {
        assert_eq!(pfx.get(word.as_bytes()), Some(&i));
        let bytes = word.as_bytes();
        assert!(pfx.contains_prefix(&bytes[..=bytes.len() / 2]));
    }

    for (i, word) in words.iter().enumerate() {
        let even = i % 2 == 0;
        if even {
            assert_eq!(pfx.delete(word.as_bytes()), Some(i));
            assert_eq!(pfx.get(word.as_bytes()), None);
        } else {
            assert_eq!(pfx.get(word.as_bytes()), Some(&i));
        }
    }
    assert_eq!(pfx.len(), words.len() / 2);
}
