use keyboard_evolve::xgrams::{cache_checksum, clean_char, normalize, Gram, Xgrams};

fn chars(s: &str) -> Vec<char> {
    s.chars().collect()
}

fn count(x: &Xgrams, key: &str) -> u64 {
    x.count_of(&chars(key))
}

#[test]
fn aabba_counts_unigrams_and_bigrams() {
    let x = Xgrams::from_chars(&chars("aabba"));
    assert_eq!(count(&x, "a"), 3);
    assert_eq!(count(&x, "b"), 2);
    assert_eq!(x.x1.entries.len(), 2);
    assert_eq!(count(&x, "aa"), 1);
    assert_eq!(count(&x, "ab"), 1);
    assert_eq!(count(&x, "bb"), 1);
    assert_eq!(count(&x, "ba"), 1);
    assert_eq!(x.x2.entries.len(), 4);
}

#[test]
fn longer_grams_follow_typing_order() {
    let x = Xgrams::from_chars(&chars("abcdef"));
    assert_eq!(count(&x, "abc"), 1);
    assert_eq!(count(&x, "cba"), 0);
    assert_eq!(count(&x, "abcd"), 1);
    assert_eq!(count(&x, "bcdef"), 1);
    assert_eq!(x.x5.entries.len(), 2);
    assert_eq!(count(&x, "abcdef"), 0);
    assert_eq!(count(&x, ""), 0);
}

#[test]
fn empty_text_has_empty_tables() {
    let x = Xgrams::from_chars(&Vec::new());
    assert!(x.x1.entries.is_empty() && x.x2.entries.is_empty() && x.x5.entries.is_empty());
}

#[test]
fn normalization_maps_space_capitals_and_drops_digits() {
    assert_eq!(normalize(&chars("A b1!")), chars("#a_b"));
    assert_eq!(normalize(&chars("Ärger")), chars("#ärger"));
    assert_eq!(normalize(&chars("42.,;")), Vec::<char>::new());
}

#[test]
fn clean_char_follows_the_given_tests() {
    assert_eq!(clean_char(' ', false, false, false, &vec![]), vec!['_']);
    assert_eq!(clean_char('7', true, true, false, &vec![]), Vec::<char>::new());
    assert_eq!(clean_char('Q', true, false, true, &vec!['q']), vec!['#', 'q']);
    assert_eq!(clean_char('q', true, false, false, &vec!['q']), vec!['q']);
    assert_eq!(clean_char('-', false, false, false, &vec![]), Vec::<char>::new());
}

#[test]
fn capitals_count_a_shift_stroke() {
    let x = Xgrams::from_chars(&chars("Ab"));
    assert_eq!(count(&x, "#"), 1);
    assert_eq!(count(&x, "#a"), 1);
    assert_eq!(count(&x, "#ab"), 1);
}

fn all_counts(x: &Xgrams) -> Vec<(String, u64)> {
    let mut v: Vec<(String, u64)> = Vec::new();
    for t in [&x.x1.entries, &x.x2.entries, &x.x3.entries, &x.x4.entries, &x.x5.entries] {
        for g in t.iter() {
            v.push((g.key.iter().collect(), g.count));
        }
    }
    v.sort();
    v
}

#[test]
fn merge_order_does_not_change_counts() {
    let texts = ["the quick fox", "jumps over", "the lazy dog the end"];
    let forward: Vec<Xgrams> = texts.iter().map(|t| Xgrams::from_chars(&chars(t))).collect();
    let backward: Vec<Xgrams> =
        texts.iter().rev().map(|t| Xgrams::from_chars(&chars(t))).collect();
    let a = Xgrams::sum(forward);
    let b = Xgrams::sum(backward);
    assert_eq!(all_counts(&a), all_counts(&b));
    assert_eq!(count(&a, "the"), 3);
    assert_eq!(count(&a, "_"), 7);
}

#[test]
fn merge_adds_counts_key_by_key() {
    let a = Xgrams::from_chars(&chars("aab"));
    let b = Xgrams::from_chars(&chars("abc"));
    let m = a.merge(b);
    assert_eq!(count(&m, "a"), 3);
    assert_eq!(count(&m, "ab"), 2);
    assert_eq!(count(&m, "c"), 1);
    assert!(m.stack.is_empty());
}

#[test]
fn add_char_keeps_a_window_of_five() {
    let mut x = Xgrams::new();
    for c in "abcdefg".chars() {
        x.add_char(c);
    }
    assert_eq!(x.stack, chars("cdefg"));
    assert_eq!(count(&x, "cdefg"), 1);
}

#[test]
fn stored_tables_read_back_with_equal_counts() {
    let x = Xgrams::from_chars(&chars("Hello world, hello again"));
    let export = |t: &Vec<Gram>| -> Vec<(String, u64)> {
        t.iter().map(|g| (g.key.iter().collect(), g.count)).collect()
    };
    let stored: Vec<Vec<(String, u64)>> =
        vec![export(&x.x1.entries), export(&x.x2.entries), export(&x.x3.entries), export(&x.x4.entries), export(&x.x5.entries)];
    let bytes = bincode::serialize(&stored).unwrap();
    let back: Vec<Vec<(String, u64)>> = bincode::deserialize(&bytes).unwrap();
    let import = |t: &Vec<(String, u64)>| -> Vec<Gram> {
        t.iter().map(|(k, c)| Gram { key: k.chars().collect(), count: *c }).collect()
    };
    let y = Xgrams::from_tables(
        import(&back[0]),
        import(&back[1]),
        import(&back[2]),
        import(&back[3]),
        import(&back[4]),
    )
    .unwrap();
    assert_eq!(all_counts(&x), all_counts(&y));
}

#[test]
fn from_tables_rejects_duplicate_or_misfit_keys() {
    let g = |k: &str, c: u64| Gram { key: chars(k), count: c };
    assert!(Xgrams::from_tables(vec![g("a", 1), g("a", 2)], vec![], vec![], vec![], vec![]).is_none());
    assert!(Xgrams::from_tables(vec![g("ab", 1)], vec![], vec![], vec![], vec![]).is_none());
    let ok = Xgrams::from_tables(vec![g("a", 4)], vec![g("ab", 2)], vec![], vec![], vec![]).unwrap();
    assert_eq!(count(&ok, "a"), 4);
    assert_eq!(count(&ok, "ab"), 2);
}

#[test]
fn cache_checksum_hashes_paths_dir_and_size() {
    let paths = vec![b"texts/a.txt".to_vec(), b"texts/b.txt".to_vec()];
    let dir = b"texts".to_vec();
    let expected = crc32fast::hash(b"texts/a.txttexts/b.txttexts1234");
    assert_eq!(cache_checksum(&paths, &dir, 1234), expected);
    assert_ne!(cache_checksum(&paths, &dir, 1235), expected);
    assert_eq!(cache_checksum(&vec![], &vec![], 0), crc32fast::hash(b"0"));
}
