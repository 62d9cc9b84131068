use word_generator::table::ProbabilityTable;
use word_generator::{generate_words, WordGenError};
use word_generator::sampler::{generate_word, generate_multiple_words};

/// How often the table records `c` right after the context `key`.
fn lookup(t: &ProbabilityTable, key: &str, c: char) -> u64 {
    let kv: Vec<char> = key.chars().collect();
    for e in &t.entries {
        if e.key == kv {
            for cc in &e.counts {
                if cc.ch == c {
                    return cc.n;
                }
            }
            return 0;
        }
    }
    0
}

fn corpus(words: &[&str]) -> Vec<String> {
    words.iter().map(|w| w.to_string()).collect()
}

#[test]
fn table_generate_words_works() {
    let words = corpus(&["cat", "cat"]);
    let table = ProbabilityTable::from_words(&words, 3).unwrap();
    assert_eq!(table.generate_words(15).unwrap().len(), 15);
}

#[test]
fn table_consticency() {
    let words = corpus(&["cat", "car", "can"]);
    let table = ProbabilityTable::from_words(&words, 3).unwrap();
    for e in &table.entries {
        assert_eq!(e.key.len(), 3);
    }
    assert!(table.entries.len() > 0);
}

#[test]
fn scenario_cat_car_can_counts() {
    // Padded stream per word: " cat", " car", " can" -> " cat car can".
    let words = corpus(&["cat", "car", "can"]);
    let table = ProbabilityTable::from_words(&words, 1).unwrap();
    assert_eq!(lookup(&table, " ", 'c'), 3);
    assert_eq!(lookup(&table, "c", 'a'), 3);
    assert_eq!(lookup(&table, "a", 't'), 1);
    assert_eq!(lookup(&table, "a", 'r'), 1);
    assert_eq!(lookup(&table, "a", 'n'), 1);
    assert_eq!(lookup(&table, "t", ' '), 1);
    assert_eq!(lookup(&table, "r", ' '), 1);
    assert_eq!(lookup(&table, "a", 'x'), 0);
    assert_eq!(lookup(&table, "n", ' '), 0);
    assert_eq!(table.entries.len(), 5);
}

#[test]
fn scenario_cat_car_can_sampling() {
    // The context "n" was never observed with a successor, so a walk that
    // draws 'n' fails with MissingContext; any successful batch holds five
    // words, each starting with 'c', sorted by non-decreasing length.
    let words = corpus(&["cat", "car", "can"]);
    let table = ProbabilityTable::from_words(&words, 1).unwrap();
    match table.generate_words(5) {
        Ok(list) => {
            assert_eq!(list.len(), 5);
            for w in &list {
                assert!(w.starts_with('c'));
            }
            for pair in list.windows(2) {
                assert!(pair[0].chars().count() <= pair[1].chars().count());
            }
        }
        Err(e) => assert_eq!(e, WordGenError::MissingContext),
    }
}

#[test]
fn zero_accuracy_rejected() {
    let words = corpus(&["cat"]);
    assert_eq!(
        ProbabilityTable::from_words(&words, 0).unwrap_err(),
        WordGenError::InvalidConfiguration
    );
    assert_eq!(
        generate_words(&words, 0, 5).unwrap_err(),
        WordGenError::InvalidConfiguration
    );
}

#[test]
fn empty_corpus_rejected() {
    let words: Vec<String> = Vec::new();
    assert_eq!(
        ProbabilityTable::from_words(&words, 2).unwrap_err(),
        WordGenError::InsufficientCorpus
    );
    assert_eq!(
        generate_words(&words, 2, 5).unwrap_err(),
        WordGenError::InsufficientCorpus
    );
}

#[test]
fn empty_word_corpus_rejected() {
    // One empty word pads to exactly one separator: no window has a
    // successor, so the table would be empty.
    let words = corpus(&[""]);
    assert_eq!(
        ProbabilityTable::from_words(&words, 1).unwrap_err(),
        WordGenError::InsufficientCorpus
    );
}

#[test]
fn missing_context_surfaces_as_error() {
    // Stream " ab": the walk draws 'a', then 'b', and reaches the context
    // "b", which was never observed with a successor.
    let words = corpus(&["ab"]);
    let table = ProbabilityTable::from_words(&words, 1).unwrap();
    assert_eq!(generate_word(&table).unwrap_err(), WordGenError::MissingContext);
    assert_eq!(
        table.generate_words(3).unwrap_err(),
        WordGenError::MissingContext
    );
}

#[test]
fn endless_walk_hits_length_limit() {
    // Stream " aa": 'a' always follows, a separator never does, so the walk
    // stops at the length limit instead of spinning forever.
    let words = corpus(&["aa"]);
    let table = ProbabilityTable::from_words(&words, 1).unwrap();
    assert_eq!(
        generate_word(&table).unwrap_err(),
        WordGenError::LengthLimitExceeded
    );
}

#[test]
fn deterministic_corpus_always_terminates() {
    // Stream " a a": the only walk is 'a' then ' ', giving the word "a".
    let words = corpus(&["a", "a"]);
    let table = ProbabilityTable::from_words(&words, 1).unwrap();
    for _ in 0..50 {
        assert_eq!(generate_word(&table).unwrap(), "a");
    }
    assert_eq!(lookup(&table, " ", 'a'), 2);
    assert_eq!(lookup(&table, "a", ' '), 1);
}

#[test]
fn words_are_lowercased() {
    // "AB" and "ab" both lowercase to "ab", so the pair is tallied twice.
    let words = corpus(&["AB", "ab"]);
    let table = ProbabilityTable::from_words(&words, 1).unwrap();
    assert_eq!(lookup(&table, "a", 'b'), 2);
    assert_eq!(lookup(&table, "A", 'B'), 0);
}

#[test]
fn output_sorted_by_length() {
    // Words "ab" and "b" are both reachable; every context the walk can
    // reach has a successor, so batches always succeed.
    let words = corpus(&["ab", "b", "ab", "b"]);
    let table = ProbabilityTable::from_words(&words, 1).unwrap();
    let list = generate_multiple_words(&table, 30).unwrap();
    assert_eq!(list.len(), 30);
    for pair in list.windows(2) {
        assert!(pair[0].chars().count() <= pair[1].chars().count());
    }
    for w in &list {
        assert!(!w.contains(' '));
    }
}

#[test]
fn zero_words_requested() {
    let words = corpus(&["cat", "cat"]);
    let table = ProbabilityTable::from_words(&words, 2).unwrap();
    assert_eq!(table.generate_words(0).unwrap(), Vec::<String>::new());
    assert_eq!(generate_words(&words, 2, 0).unwrap(), Vec::<String>::new());
}

#[test]
fn end_to_end_generation() {
    let words = corpus(&["cat", "cat"]);
    let list = generate_words(&words, 3, 4).unwrap();
    assert_eq!(list, vec!["cat", "cat", "cat", "cat"]);
}

#[test]
fn count_conservation_example() {
    // " cat car can": the context "a" is seen as a window with a successor
    // three times, and its tallies are 1 + 1 + 1.
    let words = corpus(&["cat", "car", "can"]);
    let table = ProbabilityTable::from_words(&words, 1).unwrap();
    let kv: Vec<char> = vec!['a'];
    let mut total: u64 = 0;
    for e in &table.entries {
        if e.key == kv {
            for cc in &e.counts {
                total += cc.n;
            }
        }
    }
    assert_eq!(total, 3);
}

#[test]
fn from_chars_counts() {
    // Characters handed to from_chars are tallied as they stand.
    let words: Vec<Vec<char>> = vec![vec!['a'], vec!['a']];
    let table = ProbabilityTable::from_chars(&words, 1).unwrap();
    assert_eq!(lookup(&table, " ", 'a'), 2);
    assert_eq!(lookup(&table, "a", ' '), 1);
    assert_eq!(table.accuracy, 1);

    let upper: Vec<Vec<char>> = vec![vec!['A'], vec!['A']];
    let t2 = ProbabilityTable::from_chars(&upper, 1).unwrap();
    assert_eq!(lookup(&t2, " ", 'A'), 2);
    assert_eq!(lookup(&t2, " ", 'a'), 0);
}
