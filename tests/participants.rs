use std::collections::BTreeMap;

use ircqrs::{
    extract_participants, index_participants, index_quoteentries, line_participant, step, Corpus,
    ParseState, ParticipantIndex, Step,
};

fn file(name: &str, text: &str) -> (String, Vec<u8>) {
    (name.to_string(), text.as_bytes().to_vec())
}

fn corpus_of(files: Vec<(String, Vec<u8>)>) -> Corpus {
    index_quoteentries(&files).unwrap()
}

fn as_map(index: &ParticipantIndex) -> BTreeMap<String, Vec<u32>> {
    let mut out = BTreeMap::new();
    for p in index.list_participants() {
        out.insert(p.name.clone(), p.quotes.clone());
    }
    out
}

fn as_pairs(index: &ParticipantIndex) -> Vec<(String, Vec<u32>)> {
    index
        .list_participants()
        .iter()
        .map(|p| (p.name.clone(), p.quotes.clone()))
        .collect()
}

#[test]
fn check_indexed_participants() {
    let c = corpus_of(vec![
        file("10.txt", "just some chatter\n"),
        file("5.txt", "<person1> hello there!\n"),
        file("9.txt", "<person1> hi\n* bl\u{221a}\u{2022}haj waves \n<person2> hey\n"),
        file("6.txt", "nobody speaks here\n"),
    ]);
    let mut expected = BTreeMap::new();
    expected.insert("bl√•haj".to_string(), vec![9]);
    expected.insert("person1".to_string(), vec![5, 9]);
    expected.insert("person2".to_string(), vec![9]);

    assert_eq!(as_map(&index_participants(&c)), expected);
}

#[test]
fn multibyte_names_are_indexed() {
    let c = corpus_of(vec![
        file("5.txt", "<person1> hello there!\n"),
        file("6.txt", "nothing to see\n"),
        file("9.txt", "<person1> hi\n* blåhaj waves \n<person2> hey\n"),
        file("10.txt", "more chatter\n"),
    ]);
    let index = index_participants(&c);
    assert_eq!(index.get_participant("person1"), Some(&vec![5, 9]));
    assert_eq!(index.get_participant("person2"), Some(&vec![9]));
    assert_eq!(index.get_participant("blåhaj"), Some(&vec![9]));
    assert_eq!(index.get_participant("person3"), None);
    assert_eq!(index.len(), 3);
}

#[test]
fn participants_are_listed_in_byte_order() {
    let c = corpus_of(vec![file(
        "1.txt",
        "<zed> a\n<Émile> b\n<alice> c\n<Bob> d\n<> e\n",
    )]);
    let names: Vec<String> = as_pairs(&index_participants(&c)).into_iter().map(|p| p.0).collect();
    assert_eq!(names, vec!["", "Bob", "alice", "zed", "Émile"]);
}

#[test]
fn extractor_reads_message_and_action_lines() {
    assert_eq!(extract_participants("<alice> hi"), vec!["alice"]);
    assert_eq!(extract_participants("* alice waves"), vec!["alice"]);
    assert_eq!(extract_participants("no marker here"), Vec::<String>::new());
}

#[test]
fn extractor_per_line_keeps_each_line() {
    let text = "<alice> hi\n<alice> hi";
    let per_line: Vec<String> = text.split('\n').filter_map(line_participant).collect();
    assert_eq!(per_line, vec!["alice", "alice"]);
    assert_eq!(extract_participants(text), vec!["alice"]);
    let c = corpus_of(vec![file("3.txt", text)]);
    assert_eq!(index_participants(&c).get_participant("alice"), Some(&vec![3]));
}

#[test]
fn extractor_keeps_non_adjacent_repeats() {
    assert_eq!(
        extract_participants("<a> x\n<b> y\n<a> z\n"),
        vec!["a", "b", "a"]
    );
    let c = corpus_of(vec![file("4.txt", "<a> x\n<b> y\n<a> z\n")]);
    assert_eq!(index_participants(&c).get_participant("a"), Some(&vec![4]));
}

#[test]
fn extractor_star_without_space_aborts() {
    assert_eq!(extract_participants("*no space then more"), Vec::<String>::new());
    assert_eq!(line_participant("*no space then more"), None);
}

#[test]
fn extractor_empty_angle_name() {
    assert_eq!(extract_participants("<>"), vec![""]);
    assert_eq!(line_participant("<>"), Some(String::new()));
}

#[test]
fn extractor_two_spaces_after_star_gives_empty_name() {
    assert_eq!(extract_participants("*  waves"), vec![""]);
}

#[test]
fn extractor_unterminated_names_give_nothing() {
    assert_eq!(extract_participants("<alice hi"), Vec::<String>::new());
    assert_eq!(extract_participants("* alice"), Vec::<String>::new());
    assert_eq!(extract_participants("*"), Vec::<String>::new());
    assert_eq!(extract_participants(""), Vec::<String>::new());
}

#[test]
fn extractor_names_do_not_span_lines() {
    assert_eq!(extract_participants("<alice\nbob> hi\n<carol> x"), vec!["carol"]);
    assert_eq!(extract_participants("* al\nice x\n\n* dave y"), vec!["dave"]);
}

#[test]
fn extractor_marker_must_start_the_line() {
    assert_eq!(extract_participants(" <alice> hi\nx* bob y"), Vec::<String>::new());
}

#[test]
fn line_participant_stops_at_newline() {
    assert_eq!(line_participant("<alice> hi\n<bob> yo"), Some("alice".to_string()));
    assert_eq!(line_participant("hello\n<bob> yo"), None);
}

#[test]
fn step_follows_the_transition_table() {
    assert_eq!(step(ParseState::Start, '<'), Step::Next(ParseState::InAngleName));
    assert_eq!(step(ParseState::Start, '*'), Step::Next(ParseState::AfterStar));
    assert_eq!(step(ParseState::Start, 'a'), Step::Abort);
    assert_eq!(step(ParseState::InAngleName, 'a'), Step::Next(ParseState::InAngleName));
    assert_eq!(step(ParseState::InAngleName, ' '), Step::Next(ParseState::InAngleName));
    assert_eq!(step(ParseState::InAngleName, '>'), Step::Complete);
    assert_eq!(step(ParseState::AfterStar, ' '), Step::Next(ParseState::InStarName));
    assert_eq!(step(ParseState::AfterStar, 'a'), Step::Abort);
    assert_eq!(step(ParseState::InStarName, 'a'), Step::Next(ParseState::InStarName));
    assert_eq!(step(ParseState::InStarName, '>'), Step::Next(ParseState::InStarName));
    assert_eq!(step(ParseState::InStarName, ' '), Step::Complete);
    assert_eq!(step(ParseState::InAngleName, '\n'), Step::Abort);
    assert_eq!(step(ParseState::InStarName, '\n'), Step::Abort);
}

#[test]
fn unreadable_quotes_are_skipped() {
    let files = vec![
        file("1.txt", "<a> one\n"),
        ("2.txt".to_string(), vec![b'<', b'b', b'>', b' ', 0xc3]),
        file("3.txt", "<b> three\n"),
    ];
    let index = index_participants(&corpus_of(files));
    assert_eq!(as_pairs(&index), vec![("a".to_string(), vec![1]), ("b".to_string(), vec![3])]);
}

#[test]
fn index_is_the_same_when_built_twice() {
    let c = corpus_of(vec![
        file("5.txt", "<person1> hello there!\n"),
        file("9.txt", "<person1> hi\n* blåhaj waves \n<person2> hey\n"),
        file("2.txt", "* zoe sighs\n<person2> ok\n"),
    ]);
    let first = as_pairs(&index_participants(&c));
    let second = as_pairs(&index_participants(&c));
    assert_eq!(first, second);
    assert_eq!(
        first,
        vec![
            ("blåhaj".to_string(), vec![9]),
            ("person1".to_string(), vec![5, 9]),
            ("person2".to_string(), vec![2, 9]),
            ("zoe".to_string(), vec![2]),
        ]
    );
}

#[test]
fn empty_corpus_has_no_participants() {
    let index = index_participants(&corpus_of(Vec::new()));
    assert_eq!(index.len(), 0);
    assert_eq!(index.get_participant(""), None);
}
