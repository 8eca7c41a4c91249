use ircqrs::{index_quoteentries, resolve_quote, Bounds, QuoteHtml, QuotePage};

#[test]
fn navigation_clamps_at_the_ends() {
    let b = Bounds { min: 5, max: 10 };
    assert_eq!(b.navigation(5), (5, 6));
    assert_eq!(b.navigation(10), (9, 10));
    assert_eq!(b.navigation(7), (6, 8));
}

#[test]
fn navigation_outside_the_range_points_inside() {
    let b = Bounds { min: 5, max: 10 };
    assert_eq!(b.navigation(2), (5, 5));
    assert_eq!(b.navigation(40), (10, 10));
    assert_eq!(b.navigation(0), (5, 5));
    assert_eq!(b.navigation(u32::MAX), (10, 10));
}

#[test]
fn navigation_of_empty_corpus() {
    let b = Bounds { min: 0, max: 0 };
    assert_eq!(b.navigation(0), (0, 0));
    assert_eq!(b.navigation(3), (0, 0));
}

#[test]
fn navigation_does_not_check_gaps() {
    let b = Bounds { min: 1, max: 9 };
    assert_eq!(b.navigation(5), (4, 6));
}

#[test]
fn quote_page_carries_navigation() {
    let q = QuoteHtml::new(Bounds { min: 5, max: 10 }, 9, "hi".to_string());
    assert_eq!((q.first, q.last, q.previous, q.next), (5, 10, 8, 10));
    assert_eq!(q.quote, "hi");
}

#[test]
fn quote_requests_resolve() {
    let files = vec![
        ("5.txt".to_string(), b"<person1> hello there!\n".to_vec()),
        ("6.txt".to_string(), vec![0xff]),
    ];
    let c = index_quoteentries(&files).unwrap();
    assert!(matches!(resolve_quote(&c, "5"), QuotePage::Found(5, "<person1> hello there!\n")));
    assert!(matches!(resolve_quote(&c, "7"), QuotePage::Missing(7)));
    assert!(matches!(resolve_quote(&c, "6"), QuotePage::Unreadable(6)));
    assert!(matches!(resolve_quote(&c, "abc"), QuotePage::NotAnId));
    assert!(matches!(resolve_quote(&c, "99999999999"), QuotePage::NotAnId));
}

#[test]
fn test_quote_retrieval() {
    let files = vec![
        ("5.txt".to_string(), b"<person1> hello there!\n".to_vec()),
        ("6.txt".to_string(), b"nothing\n".to_vec()),
        ("9.txt".to_string(), b"<person1> hi\n".to_vec()),
        ("10.txt".to_string(), b"bye\n".to_vec()),
    ];
    let c = index_quoteentries(&files).unwrap();
    let expected = QuoteHtml::new(c.get_bounds(), 5, "<person1> hello there!\n".to_string());
    match resolve_quote(&c, "5") {
        QuotePage::Found(id, text) => {
            let got = QuoteHtml::new(c.get_bounds(), id, text.to_string());
            assert_eq!(
                (got.first, got.last, got.previous, got.next, got.quote),
                (expected.first, expected.last, expected.previous, expected.next, expected.quote)
            );
            assert_eq!((expected.first, expected.last, expected.previous, expected.next), (5, 10, 5, 6));
        }
        _ => panic!("quote 5 should be found"),
    }
}
