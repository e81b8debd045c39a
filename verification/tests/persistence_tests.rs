use rainbowtable::codec::LoadError;
use rainbowtable::hashing::hash;
use rainbowtable::table::RainbowTable;

fn wordlist() -> Vec<String> {
    vec![
        String::from("aardvark"),
        String::from("apple"),
        String::from("zebra"),
    ]
}

#[test]
fn save_load_round_trip() {
    let mut rt = RainbowTable::new(5, 8);
    rt.fill(&wordlist()).unwrap();
    let saved = rt.save_to_string();
    let mut reloaded = RainbowTable::new(5, 8);
    reloaded.load_from_string(&saved).unwrap();
    assert_eq!(reloaded.get_chain_count(), 3);
    assert_eq!(reloaded.save_to_string(), saved);
}

#[test]
fn save_load_preserves_lookups() {
    let mut rt = RainbowTable::new(5, 8);
    rt.fill(&wordlist()).unwrap();
    let saved = rt.save_to_string();
    let mut reloaded = RainbowTable::new(5, 8);
    reloaded.load_from_string(&saved).unwrap();
    for word in wordlist() {
        let target = hash(&word, 8);
        assert_eq!(rt.lookup(&target).unwrap(), reloaded.lookup(&target).unwrap());
        assert_eq!(reloaded.lookup(&target).unwrap(), Some(word));
    }
}

#[test]
fn quoted_fields_round_trip() {
    let mut rt = RainbowTable::new(5, 8);
    rt.load_from_records(&[
        (String::from("we,ird\"seed"), String::from("endpointa")),
        (String::from("plain"), String::from("endpointb")),
    ]);
    let saved = rt.save_to_string();
    let mut reloaded = RainbowTable::new(5, 8);
    reloaded.load_from_string(&saved).unwrap();
    assert_eq!(reloaded.get_chain_count(), 2);
    assert_eq!(reloaded.save_to_string(), saved);
}

#[test]
fn record_format_is_seed_then_endpoint() {
    let mut rt = RainbowTable::new(5, 8);
    rt.load_from_records(&[(String::from("someseed"), String::from("someend"))]);
    assert_eq!(rt.save_to_string(), "someseed,someend\n");
}

#[test]
fn malformed_single_field_record() {
    let mut rt = RainbowTable::new(5, 8);
    assert_eq!(rt.load_from_string("onlyonefield\n"), Err(LoadError::Malformed));
    assert_eq!(rt.load_from_string("a,b\nbad\n"), Err(LoadError::Malformed));
    // A failed load leaves the table unchanged.
    rt.load_from_records(&[(String::from("s"), String::from("e"))]);
    let _ = rt.load_from_string("broken");
    assert_eq!(rt.get_chain_count(), 1);
}

#[test]
fn malformed_unterminated_quote() {
    let mut rt = RainbowTable::new(5, 8);
    assert_eq!(rt.load_from_string("\"abc,x\n"), Err(LoadError::Malformed));
}

#[test]
fn empty_lines_are_skipped() {
    let mut rt = RainbowTable::new(5, 8);
    rt.load_from_string("a,b\n\nc,d\n").unwrap();
    assert_eq!(rt.get_chain_count(), 2);
}

#[test]
fn crlf_records_load() {
    let mut rt = RainbowTable::new(5, 8);
    rt.load_from_string("a,b\r\nc,d\r\n").unwrap();
    assert_eq!(rt.get_chain_count(), 2);
    assert_eq!(rt.save_to_string(), "a,b\nc,d\n");
}

#[test]
fn extra_fields_ignored() {
    let mut rt = RainbowTable::new(5, 8);
    rt.load_from_string("a,b,c\n").unwrap();
    assert_eq!(rt.get_chain_count(), 1);
    assert_eq!(rt.save_to_string(), "a,b\n");
}

#[test]
fn duplicate_endpoints_last_write_wins() {
    let mut rt = RainbowTable::new(5, 8);
    rt.load_from_string("first,same\nsecond,same\n").unwrap();
    assert_eq!(rt.get_chain_count(), 1);
    assert_eq!(rt.save_to_string(), "second,same\n");
}

#[test]
fn quoted_seed_parses() {
    let mut rt = RainbowTable::new(5, 8);
    rt.load_from_string("\"we,ird\"\"q\",endp\n").unwrap();
    assert_eq!(rt.get_chain_count(), 1);
    assert_eq!(rt.save_to_string(), "\"we,ird\"\"q\",endp\n");
}
