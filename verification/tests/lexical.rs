use seekstorm_core::lexical::posting::{Posting, PostingError};
use seekstorm_core::lexical::query::{parse_query, QueryError};

#[test]
fn test_posting_roundtrip() {
    let posting = Posting::new(1, "hello".to_string(), 42, vec![0, 5, 10]);
    let bytes = posting.encode().unwrap();
    let restored = Posting::decode(&bytes).unwrap();

    assert_eq!(restored.field_id, 1);
    assert_eq!(restored.term, "hello");
    assert_eq!(restored.doc_id, 42);
    assert_eq!(restored.term_freq, 3);
    assert_eq!(restored.positions, vec![0, 5, 10]);
}

#[test]
fn test_posting_empty_positions() {
    let posting = Posting::new(2, "world".to_string(), 100, vec![]);
    let bytes = posting.encode().unwrap();
    let restored = Posting::decode(&bytes).unwrap();

    assert_eq!(restored.term_freq, 0);
    assert!(restored.positions.is_empty());
}

#[test]
fn test_posting_bad_magic() {
    let bad = b"XXXX0000000000000000";
    assert!(Posting::decode(bad).is_err());
}

#[test]
fn posting_bytes_are_big_endian() {
    let posting = Posting::new(0x01020304, "ab".to_string(), 7, vec![258]);
    let bytes = posting.encode().unwrap();
    let expected: Vec<u8> = vec![
        83, 75, 76, 80, 1, 2, 3, 4, 0, 0, 0, 0, 0, 0, 0, 7, 0, 0, 0, 1, 0, 0, 0, 2, 97, 98, 0, 0, 0, 1, 0, 0, 1, 2,
    ];
    assert_eq!(bytes, expected);
}

#[test]
fn posting_decode_errors() {
    let good = Posting::new(1, "hello".to_string(), 42, vec![0, 5]).encode().unwrap();
    assert!(matches!(Posting::decode(&good[..23]), Err(PostingError::TooShort { len: 23 })));
    let mut magic = good.clone();
    magic[0] = 0;
    assert!(matches!(Posting::decode(&magic), Err(PostingError::BadMagic)));
    assert!(matches!(Posting::decode(&good[..28]), Err(PostingError::TruncatedTerm)));
    let mut utf8 = good.clone();
    utf8[24] = 0xff;
    assert!(matches!(Posting::decode(&utf8), Err(PostingError::TermNotUtf8)));
    assert!(matches!(Posting::decode(&good[..31]), Err(PostingError::TruncatedPositionCount)));
    assert!(matches!(Posting::decode(&good[..40]), Err(PostingError::TruncatedPositions)));
    let mut longer = good.clone();
    longer.push(9);
    assert_eq!(Posting::decode(&longer).unwrap().positions, vec![0, 5]);
}

#[test]
fn test_parse_simple_term() {
    let q = parse_query("hello").unwrap();
    assert_eq!(q.terms.len(), 1);
    assert_eq!(q.terms[0].field, None);
    assert_eq!(q.terms[0].text, "hello");
}

#[test]
fn test_parse_field_term() {
    let q = parse_query("title:hello").unwrap();
    assert_eq!(q.terms.len(), 1);
    assert_eq!(q.terms[0].field, Some("title".to_string()));
    assert_eq!(q.terms[0].text, "hello");
}

#[test]
fn test_parse_multiple_terms() {
    let q = parse_query("title:hello world").unwrap();
    assert_eq!(q.terms.len(), 2);
    assert_eq!(q.terms[0].field, Some("title".to_string()));
    assert_eq!(q.terms[0].text, "hello");
    assert_eq!(q.terms[1].field, None);
    assert_eq!(q.terms[1].text, "world");
}

#[test]
fn test_parse_empty_query() {
    assert!(parse_query("").is_err());
}

#[test]
fn test_parse_invalid_field_term() {
    assert!(parse_query("title:").is_err());
    assert!(parse_query(":hello").is_err());
}

#[test]
fn query_errors_and_edges() {
    assert!(matches!(parse_query(" \t\u{3000}"), Err(QueryError::Empty)));
    match parse_query("ok a: :b") {
        Err(QueryError::InvalidTerm { term }) => assert_eq!(term, "a:"),
        _ => panic!("expected an invalid term"),
    }
    let q = parse_query("time:12:30").unwrap();
    assert_eq!(q.terms[0].field, Some("time".to_string()));
    assert_eq!(q.terms[0].text, "12:30");
}
