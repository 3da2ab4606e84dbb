use std::rc::Rc;

use jsonpb::json::Iter;
use jsonpb::metadata::{Field, Kind, Message};
use jsonpb::proto::{Decoder, Encoder};
use jsonpb::trans::{trans_json_to_proto, trans_proto_to_json, Error};

fn printable(s: &[u8]) -> String {
    s.iter().map(|&v| v.to_string()).collect::<Vec<_>>().join(" ")
}

fn get_msg_elem_type() -> Kind {
    Kind::Message(Rc::new(Message::new(
        "pbmsg.Elem".to_string(),
        vec![
            Field { name: "a".to_string(), tag: 1, kind: Kind::Int32, repeated: false },
            Field { name: "s".to_string(), tag: 2, kind: Kind::Str, repeated: false },
        ],
        true,
    )))
}

fn get_msg_foo_embed_type() -> Kind {
    Kind::Message(Rc::new(Message::new(
        "pbmsg.Foo.Embed".to_string(),
        vec![
            Field { name: "a".to_string(), tag: 1, kind: Kind::Int32, repeated: false },
            Field { name: "b".to_string(), tag: 2, kind: Kind::Str, repeated: false },
        ],
        true,
    )))
}

fn get_msg_foo_type() -> Message {
    Message::new(
        "pbmsg.Foo".to_string(),
        vec![
            Field { name: "a".to_string(), tag: 1, kind: Kind::Str, repeated: false },
            Field { name: "b".to_string(), tag: 2, kind: Kind::Bool, repeated: false },
            Field { name: "c".to_string(), tag: 3, kind: Kind::Int32, repeated: false },
            Field { name: "d".to_string(), tag: 4, kind: get_msg_foo_embed_type(), repeated: false },
            Field { name: "e".to_string(), tag: 5, kind: Kind::Int32, repeated: true },
            Field { name: "f".to_string(), tag: 6, kind: Kind::Str, repeated: true },
            Field { name: "g".to_string(), tag: 7, kind: get_msg_elem_type(), repeated: true },
        ],
        true,
    )
}

fn encode(s: &str, msg: &Message) -> Result<Vec<u8>, Error> {
    let mut enc = Encoder::new();
    let mut it = Iter::new(s.as_bytes());
    trans_json_to_proto(&mut enc, &mut it, msg)?;
    Ok(enc.into_inner())
}

fn decode(s: &[u8], msg: &Message) -> Result<String, Error> {
    let mut buf = Vec::new();
    let mut dec = Decoder::new(s);
    trans_proto_to_json(&mut buf, &mut dec, msg)?;
    Ok(String::from_utf8(buf).unwrap())
}

fn test_trans_json_to_proto(s: &str) {
    println!("input: {}", s);
    let mut enc = Encoder::new();
    let mut it = Iter::new(s.as_bytes());
    let r = trans_json_to_proto(&mut enc, &mut it, &get_msg_foo_type());
    assert!(r.is_ok());
    println!("output: {}", printable(enc.as_bytes()));
}

#[test]
fn test_trans_json_to_proto_case0() {
    let s = r#"{}"#;
    test_trans_json_to_proto(s);
}

#[test]
fn test_trans_json_to_proto_case1() {
    let s = r#"{"a":"a","b":true,"c":1,"d":{"a":2,"b":"b"},"e":[3,4,5],"f":["f0","f1","f2"],"g":[{"a":6,"s":"s0"},{"a":7,"s":"s1"}]}"#;
    test_trans_json_to_proto(s);
}

#[test]
fn test_trans_json_to_proto_case2() {
    let s = r#"{"a":"","b":false,"c":0,"d":{"a":0,"b":""},"e":[0,0,0],"f":["","",""],"g":[{"a":0,"s":""},{"a":0,"s":""},{"a":0,"s":""},{"a":0,"s":""},{"a":0,"s":""},{"a":0,"s":""},{"a":0,"s":""},{"a":0,"s":""}]}"#;
    test_trans_json_to_proto(s);
}

fn test_trans_proto_to_json(s: &[u8], msg: &Message) {
    println!("input: {}", printable(s));
    let mut buf = Vec::new();
    let mut dec = Decoder::new(s);
    let r = trans_proto_to_json(&mut buf, &mut dec, msg);
    assert!(r.is_ok());
    println!("output: {}", ::std::str::from_utf8(&buf).unwrap());
}

#[test]
fn test_trans_proto_to_json_case0() {
    test_trans_proto_to_json(&[], &get_msg_foo_type());
}

#[test]
fn test_trans_proto_to_json_case1() {
    test_trans_proto_to_json(
        &[
            34, 0, 42, 3, 0, 0, 0, 50, 0, 50, 0, 50, 0, 58, 0, 58, 0, 58, 0, 58, 0, 58, 0, 58, 0,
            58, 0, 58, 0,
        ],
        &get_msg_foo_type(),
    );
}

#[test]
fn test_trans_proto_to_json_case2() {
    test_trans_proto_to_json(
        &[
            10, 1, 97, 16, 1, 24, 1, 34, 5, 8, 2, 18, 1, 98, 42, 3, 3, 4, 5, 50, 2, 102, 48, 50, 2,
            102, 49, 50, 2, 102, 50, 58, 6, 8, 6, 18, 2, 115, 48, 58, 6, 8, 7, 18, 2, 115, 49,
        ],
        &get_msg_foo_type(),
    );
}

#[test]
fn test_trans_proto_to_json_case3() {
    test_trans_proto_to_json(
        &[10, 5, 104, 101, 108, 108, 111],
        &Message::new(
            "pbmsg.RawData".to_string(),
            vec![Field { name: "a".to_string(), tag: 1, kind: Kind::Bytes, repeated: false }],
            false,
        ),
    );
}

const POPULATED_JSON: &str = r#"{"a":"a","b":true,"c":1,"d":{"a":2,"b":"b"},"e":[3,4,5],"f":["f0","f1","f2"],"g":[{"a":6,"s":"s0"},{"a":7,"s":"s1"}]}"#;

const POPULATED_PB: &[u8] = &[
    0x0A, 0x01, 0x61, 0x10, 0x01, 0x18, 0x01, 0x22, 0x05, 0x08, 0x02, 0x12, 0x01, 0x62, 0x2A,
    0x03, 0x03, 0x04, 0x05, 0x32, 0x02, 0x66, 0x30, 0x32, 0x02, 0x66, 0x31, 0x32, 0x02, 0x66,
    0x32, 0x3A, 0x06, 0x08, 0x06, 0x12, 0x02, 0x73, 0x30, 0x3A, 0x06, 0x08, 0x07, 0x12, 0x02,
    0x73, 0x31,
];

#[test]
fn test_scenario_empty() {
    let foo = get_msg_foo_type();
    assert_eq!(encode("{}", &foo).unwrap(), Vec::<u8>::new());
    assert_eq!(decode(&[], &foo).unwrap(), "{}");
}

#[test]
fn test_scenario_all_defaults_explicit() {
    let foo = get_msg_foo_type();
    let s = r#"{"a":"","b":false,"c":0,"d":{"a":0,"b":""},"e":[0,0,0],"f":["","",""],"g":[{"a":0,"s":""}]}"#;
    assert_eq!(
        encode(s, &foo).unwrap(),
        vec![34, 0, 42, 3, 0, 0, 0, 50, 0, 50, 0, 50, 0, 58, 0]
    );
}

#[test]
fn test_scenario_populated_roundtrip() {
    let foo = get_msg_foo_type();
    assert_eq!(encode(POPULATED_JSON, &foo).unwrap(), POPULATED_PB.to_vec());
    assert_eq!(decode(POPULATED_PB, &foo).unwrap(), POPULATED_JSON);
}

#[test]
fn test_unknown_tag_survives() {
    let foo = get_msg_foo_type();
    // tag 99, LEN wire: key = 99<<3|2 = 794 = varint [154, 6]
    let with_unknown: &[u8] = &[10, 1, 97, 154, 6, 3, 1, 2, 3, 16, 1];
    let without: &[u8] = &[10, 1, 97, 16, 1];
    assert_eq!(decode(with_unknown, &foo).unwrap(), decode(without, &foo).unwrap());
}

#[test]
fn test_unknown_json_keys_skipped() {
    let foo = get_msg_foo_type();
    let s = r#"{"zzz":{"deep":[1,{"x":[[]]},"s"],"t":null},"c":1,"also":[true,false]}"#;
    assert_eq!(encode(s, &foo).unwrap(), vec![24, 1]);
}

#[test]
fn test_null_handling() {
    let foo = get_msg_foo_type();
    // null for a message-typed or repeated field encodes as nothing
    assert_eq!(encode(r#"{"d":null,"e":null}"#, &foo).unwrap(), Vec::<u8>::new());
    // null for a scalar field is a type mismatch
    assert!(matches!(encode(r#"{"c":null}"#, &foo), Err(Error::TypeMismatch)));
    assert!(matches!(encode(r#"{"a":null}"#, &foo), Err(Error::TypeMismatch)));
}

#[test]
fn test_bytes_field_base64() {
    let raw = Message::new(
        "pbmsg.RawData".to_string(),
        vec![Field { name: "a".to_string(), tag: 1, kind: Kind::Bytes, repeated: false }],
        true,
    );
    assert_eq!(decode(&[10, 5, 104, 101, 108, 108, 111], &raw).unwrap(), r#"{"a":"aGVsbG8="}"#);
    assert_eq!(
        encode(r#"{"a":"aGVsbG8="}"#, &raw).unwrap(),
        vec![10, 5, 104, 101, 108, 108, 111]
    );
    assert!(matches!(encode(r#"{"a":"!!"}"#, &raw), Err(Error::Wrap(_))));
}

#[test]
fn test_string_escaping_on_output() {
    let m = Message::new(
        "pbmsg.Text".to_string(),
        vec![Field { name: "a".to_string(), tag: 1, kind: Kind::Str, repeated: false }],
        true,
    );
    // a literal tab byte and a literal quote get escaped
    assert_eq!(decode(&[10, 2, 9, 34], &m).unwrap(), "{\"a\":\"\\t\\\"\"}");
}

#[test]
fn test_map_field() {
    let entry = Rc::new(Message::new(
        "pbmsg.MapField.Entry".to_string(),
        vec![
            Field { name: "key".to_string(), tag: 1, kind: Kind::Str, repeated: false },
            Field { name: "value".to_string(), tag: 2, kind: Kind::Int32, repeated: false },
        ],
        true,
    ));
    let m = Message::new(
        "pbmsg.MapField".to_string(),
        vec![Field { name: "m".to_string(), tag: 1, kind: Kind::MapEntry(entry), repeated: false }],
        true,
    );
    let pb = encode(r#"{"m":{"k":5}}"#, &m).unwrap();
    assert_eq!(pb, vec![10, 5, 10, 1, 107, 16, 5]);
    assert_eq!(decode(&pb, &m).unwrap(), r#"{"m":{"k":5}}"#);
    // an entirely-default pair produces no record
    assert_eq!(encode(r#"{"m":{"":0}}"#, &m).unwrap(), Vec::<u8>::new());
}

#[test]
fn test_numeric_kinds() {
    let m = Message::new(
        "pbmsg.Nums".to_string(),
        vec![
            Field { name: "u".to_string(), tag: 1, kind: Kind::Uint64, repeated: false },
            Field { name: "i".to_string(), tag: 2, kind: Kind::Int32, repeated: false },
            Field { name: "z".to_string(), tag: 3, kind: Kind::Sint64, repeated: false },
            Field { name: "x".to_string(), tag: 4, kind: Kind::Fixed32, repeated: false },
            Field { name: "y".to_string(), tag: 5, kind: Kind::Sfixed64, repeated: false },
        ],
        true,
    );
    let s = r#"{"u":18446744073709551615,"i":-1,"z":-233,"x":987,"y":-2}"#;
    let pb = encode(s, &m).unwrap();
    assert_eq!(decode(&pb, &m).unwrap(), s);
    // a malformed number wraps its parse failure
    assert!(matches!(encode(r#"{"i":1.5}"#, &m), Err(Error::Wrap(_))));
    assert!(matches!(encode(r#"{"u":-1}"#, &m), Err(Error::Wrap(_))));
}

#[test]
fn test_eof_and_bad_lead() {
    let foo = get_msg_foo_type();
    assert!(matches!(encode("", &foo), Err(Error::UnexpectedEof)));
    assert!(matches!(encode("{\"a\":\"x\"", &foo), Err(Error::UnexpectedEof)));
    assert!(matches!(encode("[]", &foo), Err(Error::UnexpectedToken)));
    // wire type disagreeing with the schema
    assert!(matches!(decode(&[13, 1, 0, 0, 0], &foo), Err(Error::InvalidWireType)));
}

#[test]
fn test_packed_repeated_single_record() {
    let foo = get_msg_foo_type();
    // three elements, exactly one LEN record with concatenated varints
    assert_eq!(encode(r#"{"e":[3,4,5]}"#, &foo).unwrap(), vec![42, 3, 3, 4, 5]);
    // empty array, no record
    assert_eq!(encode(r#"{"e":[]}"#, &foo).unwrap(), Vec::<u8>::new());
    // booleans pack as single varints, zeros included
    let m = Message::new(
        "pbmsg.Flags".to_string(),
        vec![Field { name: "b".to_string(), tag: 1, kind: Kind::Bool, repeated: true }],
        true,
    );
    assert_eq!(encode(r#"{"b":[true,false,true]}"#, &m).unwrap(), vec![10, 3, 1, 0, 1]);
    assert_eq!(decode(&[10, 3, 1, 0, 1], &m).unwrap(), r#"{"b":[true,false,true]}"#);
}

#[test]
fn test_lookup_by_tag_and_name() {
    let foo = get_msg_foo_type();
    assert_eq!(foo.get_name(), "pbmsg.Foo");
    assert_eq!(foo.get_fields().len(), 7);
    assert_eq!(foo.get_by_tag(5).unwrap().name, "e");
    assert!(foo.get_by_tag(8).is_none());
    assert_eq!(foo.get_by_name("g").unwrap().tag, 7);
    assert!(foo.get_by_name("nope").is_none());
    // a sparse tag space selects the sorted index; lookups still agree
    let sparse = Message::new(
        "pbmsg.Sparse".to_string(),
        vec![
            Field { name: "p".to_string(), tag: 1000, kind: Kind::Int32, repeated: false },
            Field { name: "q".to_string(), tag: 3, kind: Kind::Int32, repeated: false },
            Field { name: "r".to_string(), tag: 77, kind: Kind::Int32, repeated: false },
        ],
        false,
    );
    assert_eq!(sparse.get_by_tag(1000).unwrap().name, "p");
    assert_eq!(sparse.get_by_tag(3).unwrap().name, "q");
    assert_eq!(sparse.get_by_tag(77).unwrap().name, "r");
    assert!(sparse.get_by_tag(4).is_none());
    assert!(sparse.get_by_tag(0).is_none());
}

#[test]
fn test_invalid_utf8_key() {
    let foo = get_msg_foo_type();
    // a key whose bytes are not valid UTF-8 wraps the decode failure
    let raw: &[u8] = &[123, 34, 0xFF, 34, 58, 49, 125];  // {"<0xFF>":1}
    let mut enc = Encoder::new();
    let mut it = Iter::new(raw);
    assert!(matches!(
        trans_json_to_proto(&mut enc, &mut it, &foo),
        Err(Error::Wrap(_))
    ));
}

#[test]
fn test_map_defaults() {
    let entry = Rc::new(Message::new(
        "pbmsg.MapField.Entry".to_string(),
        vec![
            Field { name: "key".to_string(), tag: 1, kind: Kind::Str, repeated: false },
            Field { name: "value".to_string(), tag: 2, kind: Kind::Int32, repeated: false },
        ],
        true,
    ));
    let m = Message::new(
        "pbmsg.MapField".to_string(),
        vec![Field { name: "m".to_string(), tag: 1, kind: Kind::MapEntry(entry), repeated: false }],
        true,
    );
    // value absent on the wire: the kind's JSON default is written
    assert_eq!(decode(&[10, 3, 10, 1, 107], &m).unwrap(), r#"{"m":{"k":0}}"#);
    // key absent on the wire: the empty string is used
    assert_eq!(decode(&[10, 2, 16, 5], &m).unwrap(), r#"{"m":{"":5}}"#);
    // several entries separate with commas
    assert_eq!(
        decode(&[10, 5, 10, 1, 107, 16, 5, 10, 5, 10, 1, 108, 16, 6], &m).unwrap(),
        r#"{"m":{"k":5,"l":6}}"#
    );
}

#[test]
fn test_lax_separators() {
    let foo = get_msg_foo_type();
    // commas and colons are tolerated anywhere, and whitespace is skipped
    let s = "{ \"c\" 1 ,, \"b\" : true }";
    assert_eq!(encode(s, &foo).unwrap(), vec![24, 1, 16, 1]);
}

#[test]
fn test_defaults_decode_exact() {
    let foo = get_msg_foo_type();
    assert_eq!(
        decode(
            &[34, 0, 42, 3, 0, 0, 0, 50, 0, 50, 0, 50, 0, 58, 0, 58, 0],
            &foo
        )
        .unwrap(),
        r#"{"d":{},"e":[0,0,0],"f":["","",""],"g":[{},{}]}"#
    );
}

#[test]
fn test_duplicate_singular_records_concatenate() {
    let foo = get_msg_foo_type();
    // records repeating a singular tag run their values together: grouping
    // happens by tag, and a scalar field opens no collection
    assert_eq!(decode(&[24, 1, 24, 2], &foo).unwrap(), r#"{"c":12}"#);
}

#[test]
fn test_unknown_fixed_tag_skipped() {
    let foo = get_msg_foo_type();
    // tag 99 with a 4-byte payload: key = 99<<3|5 = 797 = varint [157, 6]
    assert_eq!(decode(&[157, 6, 1, 0, 0, 0, 24, 1], &foo).unwrap(), r#"{"c":1}"#);
}

#[test]
fn test_repeated_bytes_field() {
    let m = Message::new(
        "pbmsg.Blobs".to_string(),
        vec![Field { name: "b".to_string(), tag: 1, kind: Kind::Bytes, repeated: true }],
        true,
    );
    let pb = encode(r#"{"b":["aGk=",""]}"#, &m).unwrap();
    assert_eq!(pb, vec![10, 2, 104, 105, 10, 0]);
    assert_eq!(decode(&pb, &m).unwrap(), r#"{"b":["aGk=",""]}"#);
}

#[test]
fn test_map_key_kind_must_be_string() {
    let entry = Rc::new(Message::new(
        "pbmsg.BadMap.Entry".to_string(),
        vec![
            Field { name: "key".to_string(), tag: 1, kind: Kind::Int32, repeated: false },
            Field { name: "value".to_string(), tag: 2, kind: Kind::Int32, repeated: false },
        ],
        true,
    ));
    let m = Message::new(
        "pbmsg.BadMap".to_string(),
        vec![Field { name: "m".to_string(), tag: 1, kind: Kind::MapEntry(entry), repeated: false }],
        true,
    );
    assert!(matches!(decode(&[10, 4, 8, 1, 16, 5], &m), Err(Error::Wrap(_))));
}

#[test]
fn test_string_end_rule() {
    let foo = get_msg_foo_type();
    // the tokenizer never terminates a string at a quote preceded by a
    // backslash, so a string value ending in an escaped backslash fails to
    // tokenize rather than round-tripping
    assert!(encode(r#"{"a":"\\"}"#, &foo).is_err());
}
