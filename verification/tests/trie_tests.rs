use boggle::trie::FindWordResult;
use boggle::trie::Trie;

fn dict(words: &[&str]) -> Vec<String> {
    words.iter().map(|w| w.to_string()).collect()
}

#[test]
fn test_from_dict() {
    let t = Trie::from_dict(dict(&["hello", "any"]));
    assert_eq!(t.find_word("any").0, FindWordResult::Complete);
    assert_eq!(t.find_word("blarg").0, FindWordResult::Absent);
    let partial = t.find_word("hell");
    assert_eq!(partial.0, FindWordResult::Partial);
    if let Some(p) = partial.1 {
        assert_eq!(p.value().unwrap(), 'l');
        assert_eq!(p.find_word("o").0, FindWordResult::Complete);
        assert_eq!(p.find_word("p").0, FindWordResult::Absent);
    }
}

#[test]
fn test_round_trip_every_inserted_word_is_complete() {
    let words = ["cart", "carton", "any", "a", "qat"];
    let t = Trie::from_dict(dict(&words));
    for w in words.iter() {
        assert_eq!(t.find_word(w).0, FindWordResult::Complete);
    }
}

#[test]
fn test_prefix_monotonicity_scenario() {
    let t = Trie::from_dict(dict(&["carton"]));
    for p in ["c", "ca", "car", "cart", "carto", "carton"].iter() {
        assert_ne!(t.find_word(p).0, FindWordResult::Absent);
    }
    assert_eq!(t.find_word("carton").0, FindWordResult::Complete);
    assert_eq!(t.find_word("cartons").0, FindWordResult::Absent);
}

#[test]
fn test_insert_same_word_twice_is_idempotent() {
    let once = Trie::from_dict(dict(&["hello"]));
    let twice = Trie::from_dict(dict(&["hello", "hello"]));
    for p in ["h", "hello", "hell", "hellos", "x", ""].iter() {
        assert_eq!(once.find_word(p).0, twice.find_word(p).0);
    }
}

#[test]
fn test_empty_index_is_absent_after_first_character() {
    let t = Trie::new_root();
    assert_eq!(t.find_word("a").0, FindWordResult::Absent);
    assert_eq!(t.find_word("word").0, FindWordResult::Absent);
}

#[test]
fn test_new_node_check() {
    let t = Trie::new('x', false);
    assert!(t.check('x'));
    let t = Trie::new('x', true);
    assert!(!t.check('y'));
    let root = Trie::new_root();
    assert!(root.value().is_none());
    assert!(!root.check('x'));
}
