use ircqrs::{index_quoteentries, parse_u32, Corpus, CorpusError, QuoteError};

fn file(name: &str, text: &str) -> (String, Vec<u8>) {
    (name.to_string(), text.as_bytes().to_vec())
}

fn test_corpus() -> Corpus {
    let files = vec![
        file("10.txt", "just some chatter\n"),
        file("5.txt", "<person1> hello there!\n"),
        file("9.txt", "<person1> hi\n* bl\u{221a}\u{2022}haj waves \n<person2> hey\n"),
        file("6.txt", "nobody speaks here\n"),
    ];
    index_quoteentries(&files).unwrap()
}

#[test]
fn check_indexed_quoteentries() {
    assert_eq!(test_corpus().list_ids(), vec![5, 6, 9, 10]);
}

#[test]
fn quote_text_is_returned() {
    let c = test_corpus();
    assert_eq!(c.get_quote(5), Ok("<person1> hello there!\n"));
}

#[test]
fn missing_quote_is_not_found() {
    let c = test_corpus();
    assert_eq!(c.get_quote(7), Err(QuoteError::NotFound));
    assert_eq!(c.get_quote(0), Err(QuoteError::NotFound));
    assert_eq!(c.get_quote(11), Err(QuoteError::NotFound));
}

#[test]
fn invalid_utf8_is_reported_apart_from_missing() {
    let files = vec![
        file("1.txt", "<a> ok\n"),
        ("2.txt".to_string(), vec![b'<', b'b', b'>', 0xff, 0xfe]),
    ];
    let c = index_quoteentries(&files).unwrap();
    assert_eq!(c.list_ids(), vec![1, 2]);
    assert_eq!(c.get_quote(2), Err(QuoteError::InvalidEncoding));
    assert_eq!(c.get_quote(1), Ok("<a> ok\n"));
}

#[test]
fn unparsable_name_is_an_integrity_error() {
    let files = vec![file("1.txt", "a"), file("notes.txt", "b")];
    assert_eq!(index_quoteentries(&files).err(), Some(CorpusError::UnparsableName));
    let files = vec![file("12.md", "a")];
    assert_eq!(index_quoteentries(&files).err(), Some(CorpusError::UnparsableName));
    let files = vec![file(".txt", "a")];
    assert_eq!(index_quoteentries(&files).err(), Some(CorpusError::UnparsableName));
    let files = vec![file("4294967296.txt", "a")];
    assert_eq!(index_quoteentries(&files).err(), Some(CorpusError::UnparsableName));
}

#[test]
fn unparsable_name_wins_over_duplicate() {
    let files = vec![file("3.txt", "a"), file("03.txt", "b"), file("x.txt", "c")];
    assert_eq!(index_quoteentries(&files).err(), Some(CorpusError::UnparsableName));
}

#[test]
fn duplicate_id_is_an_integrity_error() {
    let files = vec![file("3.txt", "a"), file("7.txt", "b"), file("003.txt", "c")];
    assert_eq!(index_quoteentries(&files).err(), Some(CorpusError::DuplicateId));
}

#[test]
fn largest_id_is_accepted() {
    let files = vec![file("4294967295.txt", "a"), file("+0.txt", "b")];
    let c = index_quoteentries(&files).unwrap();
    assert_eq!(c.list_ids(), vec![0, 4294967295]);
    let b = c.get_bounds();
    assert_eq!((b.min, b.max), (0, 4294967295));
}

#[test]
fn listed_ids_ascend_within_bounds() {
    let files = vec![
        file("42.txt", ""),
        file("7.txt", ""),
        file("100.txt", ""),
        file("8.txt", ""),
    ];
    let c = index_quoteentries(&files).unwrap();
    let ids = c.list_ids();
    assert_eq!(ids, vec![7, 8, 42, 100]);
    let b = c.get_bounds();
    assert_eq!((b.min, b.max), (7, 100));
    for w in ids.windows(2) {
        assert!(w[0] < w[1]);
    }
    for id in ids {
        assert!(b.min <= id && id <= b.max);
    }
}

#[test]
fn empty_corpus_has_zero_bounds() {
    let c = index_quoteentries(&Vec::new()).unwrap();
    assert_eq!(c.len(), 0);
    assert_eq!(c.list_ids(), Vec::<u32>::new());
    let b = c.get_bounds();
    assert_eq!((b.min, b.max), (0, 0));
    assert_eq!(c.get_random_id(), 0);
}

#[test]
fn random_ids_come_from_the_corpus() {
    let c = test_corpus();
    let ids = c.list_ids();
    let mut seen = std::collections::BTreeSet::new();
    for _ in 0..10000 {
        let id = c.get_random_id();
        assert!(ids.contains(&id));
        seen.insert(id);
    }
    assert!(seen.len() >= 2);
}

#[test]
fn random_id_of_single_quote() {
    let c = index_quoteentries(&vec![file("17.txt", "x")]).unwrap();
    for _ in 0..100 {
        assert_eq!(c.get_random_id(), 17);
    }
}

#[test]
fn id_at_follows_ascending_order() {
    let c = test_corpus();
    assert_eq!(c.id_at(0), 5);
    assert_eq!(c.id_at(3), 10);
}

#[test]
fn decimal_ids_parse_like_rust() {
    assert_eq!(parse_u32("42"), Some(42));
    assert_eq!(parse_u32("+7"), Some(7));
    assert_eq!(parse_u32("007"), Some(7));
    assert_eq!(parse_u32("4294967295"), Some(4294967295));
    assert_eq!(parse_u32("4294967296"), None);
    assert_eq!(parse_u32(""), None);
    assert_eq!(parse_u32("+"), None);
    assert_eq!(parse_u32("-1"), None);
    assert_eq!(parse_u32("12a"), None);
    assert_eq!(parse_u32(" 1"), None);
}
