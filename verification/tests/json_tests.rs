use jsonpb::json::{escape_string, unescape_string, Iter, Token};

#[test]
fn test_parse_json() {
    let s = b"{\"animals\":{\"dog\":[{\"name\":\"Rufus\",\"age\":15},{\"name\":\"Marty\",\"age\":null}]}}";
    let mut it = Iter::new(s);
    while let Some(t) = it.next_token() {
        println!("{:?}", t);
        assert!(!matches!(t, Token::Invalid(_)));
    }
}

#[test]
fn test_escape_string() {
    let mut o1 = Vec::new();
    escape_string(b"\t", &mut o1);
    assert_eq!(String::from_utf8(o1).unwrap(), "\\t");
    let mut o2 = Vec::new();
    escape_string(b"123\tabc", &mut o2);
    assert_eq!(String::from_utf8(o2).unwrap(), "123\\tabc");
}

#[test]
fn test_unescape_string() {
    let mut o1 = Vec::new();
    unescape_string(b"123\\tabc", &mut o1).unwrap();
    assert_eq!(String::from_utf8(o1).unwrap(), "123\tabc");
    let mut o2 = Vec::new();
    unescape_string(b"\\u4f60\\u597d", &mut o2).unwrap();
    assert_eq!(String::from_utf8(o2).unwrap(), "你好");
}

#[test]
fn test_unescape_unicode_bytes() {
    // the two scalar escapes expand to the six UTF-8 bytes
    let mut o = Vec::new();
    unescape_string(b"\\u4f60\\u597d", &mut o).unwrap();
    assert_eq!(o, vec![0xE4, 0xBD, 0xA0, 0xE5, 0xA5, 0xBD]);
    // and escaping those bytes passes them through unchanged
    let mut back = Vec::new();
    escape_string(&o, &mut back);
    assert_eq!(back, vec![0xE4, 0xBD, 0xA0, 0xE5, 0xA5, 0xBD]);
}

#[test]
fn test_escape_quote_and_slash() {
    let mut o = Vec::new();
    escape_string(b"a\"b/c\\d", &mut o);
    assert_eq!(String::from_utf8(o).unwrap(), "a\\\"b\\/c\\\\d");
}

#[test]
fn test_unescape_rejects_bad_escape() {
    let mut o = Vec::new();
    assert!(unescape_string(b"\\q", &mut o).is_err());
    let mut o2 = Vec::new();
    assert!(unescape_string(b"\\u12", &mut o2).is_err());
    let mut o3 = Vec::new();
    assert!(unescape_string(b"\\ud800", &mut o3).is_err());
    let mut o4 = Vec::new();
    assert!(unescape_string(b"tail\\", &mut o4).is_err());
}

#[test]
fn test_tokenizer_positions() {
    let mut it = Iter::new(b"  { \"k\" : -12e3 , [ ] null true false }");
    assert!(matches!(it.next_token(), Some(Token::Object)));
    match it.next_token() {
        Some(Token::Str(s)) => assert_eq!(s, b"\"k\""),
        t => panic!("unexpected token {:?}", t),
    }
    assert!(matches!(it.next_token(), Some(Token::Colon)));
    match it.next_token() {
        Some(Token::Number(s)) => assert_eq!(s, b"-12e3"),
        t => panic!("unexpected token {:?}", t),
    }
    assert!(matches!(it.next_token(), Some(Token::Comma)));
    assert!(matches!(it.next_token(), Some(Token::Array)));
    assert!(matches!(it.next_token(), Some(Token::ArrayClose)));
    assert!(matches!(it.next_token(), Some(Token::Null)));
    assert!(matches!(it.next_token(), Some(Token::True)));
    assert!(matches!(it.next_token(), Some(Token::False)));
    assert!(matches!(it.next_token(), Some(Token::ObjectClose)));
    assert!(it.next_token().is_none());
    assert!(it.eof());
}
