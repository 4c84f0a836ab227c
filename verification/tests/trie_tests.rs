use ternary_trie::trie::{Trie, TrieError};
use ternary_trie::trie_node::TrieValueType;

#[test]
fn search_empty_trie() {
    let mut t = Trie::new();
    let result = t.search(&[0, 1, 2]);
    assert!(result.is_none());
}

#[test]
fn insert_empty_trie() {
    let mut t = Trie::new();
    let value = TrieValueType::new(vec![2, 3]);
    let key = [5u8];

    t.insert(&key, &value).unwrap();

    let actual = t.search(&key);
    assert!(actual.is_some());
    assert_eq!(actual.unwrap(), value);

    let actual = t.search(&[5, 4]);
    assert!(actual.is_none());
}

#[test]
fn insert_multi_byte() {
    let mut t = Trie::new();
    let value = TrieValueType::new(vec![2, 3]);
    let key = [5u8, 8u8, 9u8];

    t.insert(&key, &value).unwrap();

    let actual = t.search(&key);
    assert!(actual.is_some());
    assert_eq!(actual.unwrap(), value);

    let actual = t.search(&[5, 4]);
    assert!(actual.is_none());
}

#[test]
fn insert_many() {
    let vectors = vec![
        ("grapefruit", TrieValueType::new(vec![1u8])),
        ("grapes", TrieValueType::new(vec![2u8])),
        ("apple", TrieValueType::new(vec![3u8])),
        ("applesauce", TrieValueType::new(vec![4u8])),
        ("jelly", TrieValueType::new(vec![5u8])),
        ("yams", TrieValueType::new(vec![6u8])),
    ];

    let mut t = Trie::new();

    for (k, v) in &vectors {
        let key = k.as_bytes();
        t.insert(key, v).unwrap();
    }

    assert_eq!(vectors.len(), t.len());

    for (k, v) in &vectors {
        let key = k.as_bytes();
        let actual = t.search(key);
        assert!(actual.is_some(), "Failed to find key {}", k);
        assert_eq!(actual.unwrap(), *v);
    }
}

#[test]
fn test_longest_match() {
    let data = vec![
        ("abcdefgh", TrieValueType::new(vec![1u8])),
        ("abcd", TrieValueType::new(vec![2u8])),
    ];
    let vectors: Vec<(&str, Option<(TrieValueType, usize)>)> = vec![
        ("abcdefgh", Some((TrieValueType::new(vec![1u8]), 8))),
        ("abcd", Some((TrieValueType::new(vec![2u8]), 4))),
        ("ab", None),
        ("abcde", Some((TrieValueType::new(vec![2u8]), 4))),
        ("abcdefghi", Some((TrieValueType::new(vec![1u8]), 8))),
    ];

    let mut t = Trie::new();

    for (k, v) in &data {
        let key = k.as_bytes();
        t.insert(key, v).unwrap();
    }

    for (k, v) in &vectors {
        let key = k.as_bytes();
        let actual = t.longest_match(key);
        assert_eq!(actual, *v, "Failed for key {}", k);
    }
}

#[test]
fn test_round_trip_fresh() {
    let mut t = Trie::new();
    let value = TrieValueType::new(vec![10, 20, 30]);
    let key = [0u8, 255u8, 128u8];

    t.insert(&key, &value).unwrap();

    assert_eq!(t.search(&key), Some(value));
}

#[test]
fn test_longest_match_empty_trie() {
    let mut t = Trie::new();
    assert_eq!(t.longest_match(&[1, 2, 3]), None);
    assert_eq!(t.longest_match(&[]), None);
}

#[test]
fn test_negative_lookup() {
    let mut t = Trie::new();
    let value = TrieValueType::new(vec![7]);
    let key = b"carrot";

    t.insert(key, &value).unwrap();

    // The key with a suffix appended.
    assert!(t.search(b"carrots").is_none());
    // A strict prefix of the key.
    assert!(t.search(b"carro").is_none());
    // A divergent byte mid-path.
    assert!(t.search(b"carpot").is_none());
    // A divergent first byte.
    assert!(t.search(b"barrot").is_none());
    // The key itself is still found.
    assert!(t.search(b"carrot").is_some());
}

#[test]
fn test_len_counts_distinct_keys() {
    let mut t = Trie::new();
    assert!(t.is_empty());
    assert_eq!(t.len(), 0);

    let keys: [&[u8]; 5] = [b"a", b"ab", b"abc", b"b", b"ba"];
    for (i, key) in keys.iter().enumerate() {
        let value = TrieValueType::new(vec![i as u8]);
        t.insert(key, &value).unwrap();
        assert_eq!(t.len(), i + 1);
    }
    assert!(!t.is_empty());
}

#[test]
fn test_duplicate_insert() {
    let mut t = Trie::new();
    let first = TrieValueType::new(vec![1]);
    let second = TrieValueType::new(vec![2]);
    let key = b"pear";

    t.insert(key, &first).unwrap();
    let len_before = t.len();

    let result = t.insert(key, &second);
    assert_eq!(result, Err(TrieError::DuplicateKey));
    assert_eq!(t.len(), len_before);

    // The first value is untouched.
    assert_eq!(t.search(key), Some(first));
}

#[test]
fn test_empty_key_insert() {
    let mut t = Trie::new();
    let value = TrieValueType::new(vec![1]);

    let result = t.insert(&[], &value);
    assert_eq!(result, Err(TrieError::InvalidArgument));
    assert_eq!(t.len(), 0);

    t.insert(b"kiwi", &value).unwrap();
    let result = t.insert(&[], &value);
    assert_eq!(result, Err(TrieError::InvalidArgument));
    assert_eq!(t.len(), 1);
}

#[test]
fn test_usage_counter() {
    let mut t = Trie::new();
    let value = TrieValueType::new(vec![9]);
    t.insert(b"abc", &value).unwrap();
    t.insert(b"abd", &value).unwrap();

    assert_eq!(t.uses(b"abc"), 0);

    let n = 5;
    for _ in 0..n {
        assert!(t.search(b"abc").is_some());
    }
    assert_eq!(t.uses(b"abc"), n);

    // Unrelated cells stay at 0.
    assert_eq!(t.uses(b"abd"), 0);
    // A failed lookup bumps nothing: "ab" ends on a cell without a value.
    assert!(t.search(b"ab").is_none());
    assert_eq!(t.uses(b"ab"), 0);
    assert_eq!(t.uses(b"abc"), n);
}

#[test]
fn test_longest_match_usage_counter() {
    let mut t = Trie::new();
    let short = TrieValueType::new(vec![1]);
    let long = TrieValueType::new(vec![2]);
    t.insert(b"ab", &short).unwrap();
    t.insert(b"abcd", &long).unwrap();

    // Only the cell that produced the returned match is bumped.
    assert_eq!(t.longest_match(b"abcz"), Some((short.clone(), 2)));
    assert_eq!(t.uses(b"ab"), 1);
    assert_eq!(t.uses(b"abcd"), 0);

    assert_eq!(t.longest_match(b"abcdef"), Some((long.clone(), 4)));
    assert_eq!(t.uses(b"ab"), 1);
    assert_eq!(t.uses(b"abcd"), 1);

    // A miss bumps nothing.
    assert_eq!(t.longest_match(b"zz"), None);
    assert_eq!(t.uses(b"ab"), 1);
    assert_eq!(t.uses(b"abcd"), 1);
}
