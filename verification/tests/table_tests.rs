use rainbowtable::hashing::hash;
use rainbowtable::table::{LookupError, RainbowTable};

fn wordlist() -> Vec<String> {
    vec![
        String::from("aardvark"),
        String::from("apple"),
        String::from("zebra"),
    ]
}

#[test]
fn empty_table_count() {
    let rt = RainbowTable::new(5, 8);
    assert_eq!(rt.get_chain_count(), 0);
}

#[test]
fn chain_identity_one_iteration() {
    let rt = RainbowTable::new(1, 8);
    assert_eq!(rt.calc_chain("whatever").unwrap(), "whatever");
    let rt0 = RainbowTable::new(0, 8);
    assert_eq!(rt0.calc_chain("whatever").unwrap(), "whatever");
}

#[test]
fn chain_output_shape() {
    let rt = RainbowTable::new(5, 8);
    let end = rt.calc_chain("seed").unwrap();
    assert_eq!(end.chars().count(), 8);
    assert!(end.chars().all(|c| c.is_ascii_lowercase()));
}

#[test]
fn scenario_three_words_fill_and_lookup() {
    let mut rt = RainbowTable::new(5, 8);
    rt.fill(&wordlist()).unwrap();
    assert_eq!(rt.get_chain_count(), 3);
    let target = hash("apple", 8);
    assert_eq!(rt.lookup(&target).unwrap(), Some(String::from("apple")));
}

#[test]
fn lookup_completeness_fresh_table() {
    let mut rt = RainbowTable::new(5, 8);
    rt.fill(&wordlist()).unwrap();
    for word in wordlist() {
        let target = hash(&word, 8);
        assert_eq!(rt.lookup(&target).unwrap(), Some(word));
    }
}

#[test]
fn lookup_miss_returns_none() {
    let mut rt = RainbowTable::new(5, 8);
    rt.fill(&wordlist()).unwrap();
    // A digest derived from a word outside the wordlist and outside all
    // intermediate chain columns.
    let target = hash("zzzzz", 8);
    assert_eq!(rt.lookup(&target).unwrap(), None);
}

#[test]
fn lookup_soundness() {
    let mut rt = RainbowTable::new(5, 8);
    rt.fill(&wordlist()).unwrap();
    for probe in ["aaaaaaaa", "00000000", "deadbeef"] {
        if let Some(found) = rt.lookup(probe).unwrap() {
            assert_eq!(hash(&found, 8), probe);
        }
    }
}

#[test]
fn fill_parallel_matches_sequential_fill() {
    let mut seq_rt = RainbowTable::new(5, 8);
    seq_rt.fill(&wordlist()).unwrap();
    let mut par_rt = RainbowTable::new(5, 8);
    par_rt.fill_parallel(&wordlist()).unwrap();
    assert_eq!(seq_rt.get_chain_count(), par_rt.get_chain_count());
    assert_eq!(seq_rt.save_to_string(), par_rt.save_to_string());
    for word in wordlist() {
        let target = hash(&word, 8);
        assert_eq!(
            seq_rt.lookup(&target).unwrap(),
            par_rt.lookup(&target).unwrap()
        );
    }
}

#[test]
fn invalid_match_is_skipped() {
    // A tampered table maps apple's endpoint to a different seed: the
    // replayed plaintext fails validation, and the lookup passes over the
    // false positive instead of returning a wrong answer.
    let rt = RainbowTable::new(5, 8);
    let apple_end = rt.calc_chain("apple").unwrap();
    let mut tampered = RainbowTable::new(5, 8);
    tampered.load_from_records(&[(String::from("aardvark"), apple_end)]);
    let target = hash("apple", 8);
    assert_eq!(tampered.lookup(&target).unwrap(), None);
}

#[test]
fn invalid_match_error_details() {
    let rt = RainbowTable::new(5, 8);
    let apple_end = rt.calc_chain("apple").unwrap();
    let mut tampered = RainbowTable::new(5, 8);
    tampered.load_from_records(&[(String::from("aardvark"), apple_end.clone())]);
    let target = hash("apple", 8);
    // Column 1 is where the target actually sits, so the tampered seed is
    // replayed there and fails validation.
    match tampered.lookup_for_iteration(&target, 1) {
        Err(LookupError::InvalidMatch {
            hash: h,
            iteration,
            first_column,
            last_column,
            plaintext,
        }) => {
            assert_eq!(h, target);
            assert_eq!(iteration, 1);
            assert_eq!(first_column, "aardvark");
            assert_eq!(last_column, apple_end);
            assert_eq!(plaintext, "aardvark");
        }
        other => panic!("expected an invalid-match error, got {:?}", other),
    }
}

#[test]
fn lookup_empty_target_is_not_found() {
    let mut rt = RainbowTable::new(5, 8);
    rt.fill(&wordlist()).unwrap();
    assert_eq!(rt.lookup("").unwrap(), None);
}
