use bytes::Bytes;
use respite::{
    RespConfig, RespError, RespMap, RespPoll, RespPrimitive, RespReader, RespSet, RespValue,
};

fn read_value_from(input: &str) -> Result<Option<RespValue>, RespError> {
    let mut reader = RespReader::new(RespConfig::default());
    reader.feed(input.as_bytes());
    reader.finish();
    match reader.value() {
        RespPoll::Ready(result) => result,
        RespPoll::Pending => panic!("a reader whose source has ended cannot be pending"),
    }
}

fn assert_value(input: &str, expected: RespValue) {
    let value = read_value_from(input).expect("must be Ok(…)");
    assert_eq!(value, Some(expected));
}

fn value_error(input: &str) -> RespError {
    read_value_from(input).expect_err("must be Err(…)")
}

fn string(text: &'static str) -> RespValue {
    RespValue::String(text.into())
}

fn key(text: &'static str) -> RespPrimitive {
    RespPrimitive::String(text.into())
}

fn map_of(pairs: Vec<(RespPrimitive, RespValue)>) -> RespMap {
    let mut map = RespMap::new();
    for (key, value) in pairs {
        assert!(map.insert(key, value).is_none());
    }
    map
}

fn set_of(members: Vec<RespPrimitive>) -> RespSet {
    let mut set = RespSet::new();
    for member in members {
        assert!(set.insert(member));
    }
    set
}

#[test]
fn read_array_value() {
    assert_value(
        "*2\r\n$3\r\nfoo\r\n#t\r\n",
        RespValue::Array(vec![string("foo"), RespValue::Boolean(true)]),
    );
    assert_value(
        "*3\r\n$1\r\nx\r\n$-1\r\n$-1\r\n",
        RespValue::Array(vec![string("x"), RespValue::Nil, RespValue::Nil]),
    );
}

#[test]
fn read_bignum_value() {
    assert_value("(123\r\n", RespValue::Bignum("123".into()));
}

#[test]
fn read_simple_string_value() {
    assert_value("+foo\r\n", string("foo"));
    assert_value(
        "*2\r\n+foo\r\n#t\r\n",
        RespValue::Array(vec![string("foo"), RespValue::Boolean(true)]),
    );
}

#[test]
fn read_map_value() {
    assert_value(
        "%2\r\n$3\r\nfoo\r\n:1\r\n$3\r\nbar\r\n:2\r\n",
        RespValue::Mapping(map_of(vec![
            (key("foo"), RespValue::Integer(1)),
            (key("bar"), RespValue::Integer(2)),
        ])),
    );
}

#[test]
fn read_map_value_in_any_order() {
    assert_value(
        "%3\r\n$3\r\nfoo\r\n:1\r\n_\r\n:3\r\n:7\r\n:2\r\n",
        RespValue::Mapping(map_of(vec![
            (RespPrimitive::Integer(7), RespValue::Integer(2)),
            (RespPrimitive::Nil, RespValue::Integer(3)),
            (key("foo"), RespValue::Integer(1)),
        ])),
    );
}

#[test]
fn read_set_value() {
    assert_value(
        "~2\r\n$3\r\nfoo\r\n$3\r\nbar\r\n",
        RespValue::Members(set_of(vec![key("foo"), key("bar")])),
    );
    assert_value(
        "~2\r\n$3\r\nbar\r\n$3\r\nfoo\r\n",
        RespValue::Members(set_of(vec![key("foo"), key("bar")])),
    );
}

#[test]
fn invalid_map() {
    assert!(matches!(
        value_error("%2\r\n$3\r\nfoo\r\n:1\r\n$3\r\nfoo\r\n:2\r\n"),
        RespError::InvalidMap
    ));
    assert!(matches!(
        value_error("%2\r\n$3\r\nfoo\r\n:1\r\n+foo\r\n:1\r\n"),
        RespError::InvalidMap
    ));
    assert!(matches!(
        value_error("|2\r\n:1\r\n:1\r\n:+1\r\n:2\r\n"),
        RespError::InvalidMap
    ));
}

#[test]
fn invalid_set() {
    assert!(matches!(
        value_error("~2\r\n$3\r\nfoo\r\n$3\r\nfoo\r\n"),
        RespError::InvalidSet
    ));
    assert!(matches!(value_error("~3\r\n_\r\n:1\r\n$-1\r\n"), RespError::InvalidSet));
}

#[test]
fn keys_and_members_must_be_primitives() {
    assert!(matches!(value_error("~1\r\n#t\r\n"), RespError::RespPrimitive));
    assert!(matches!(value_error("%1\r\n*0\r\n:1\r\n"), RespError::RespPrimitive));
    assert!(matches!(value_error("%1\r\n,1.5\r\n"), RespError::RespPrimitive));
    assert!(matches!(value_error("|1\r\n-ERR\r\n:1\r\n"), RespError::RespPrimitive));
}

#[test]
fn aggregates_need_all_their_values() {
    assert!(matches!(value_error("*2\r\n:1\r\n"), RespError::EndOfInput));
    assert!(matches!(value_error("%1\r\n:1\r\n"), RespError::EndOfInput));
    assert!(matches!(value_error("~1\r\n"), RespError::EndOfInput));
    assert!(matches!(value_error(">1\r\n"), RespError::EndOfInput));
    assert!(matches!(value_error("*18446744073709551615\r\n"), RespError::EndOfInput));
    assert!(matches!(value_error("*2\r\n:1\r\n:x\r\n"), RespError::InvalidInteger));
}

#[test]
fn read_nil_value() {
    assert_value("*2\r\n_\r\n_\r\n", RespValue::Array(vec![RespValue::Nil, RespValue::Nil]));
}

#[test]
fn read_push_value() {
    assert_value(
        ">2\r\n+one\r\n+two\r\n",
        RespValue::Push(vec![string("one"), string("two")]),
    );
}

#[test]
fn read_double_value() {
    assert_value(",2.5\r\n", RespValue::Double("2.5".into()));
}

#[test]
fn read_verbatim_value() {
    assert_value("=7\r\ntxt:abc\r\n", RespValue::Verbatim("txt".into(), "abc".into()));
    assert_value(
        "*2\r\n=7\r\ntxt:abc\r\n:1\r\n",
        RespValue::Array(vec![
            RespValue::Verbatim("txt".into(), "abc".into()),
            RespValue::Integer(1),
        ]),
    );
}

#[test]
fn read_string_value() {
    assert_value("$-1\r\n", RespValue::Nil);
    assert_value("$3\r\nabc\r\n", string("abc"));
}

#[test]
fn read_error() {
    assert_value("-ERR foo\r\n", RespValue::Error("ERR foo".into()));
    assert_value("!7\r\nERR foo\r\n", RespValue::Error("ERR foo".into()));
}

#[test]
fn read_attribute_value() {
    assert_value(
        "|2\r\n$3\r\nfoo\r\n:1\r\n$3\r\nbar\r\n:2\r\n",
        RespValue::Attribute(map_of(vec![
            (key("foo"), RespValue::Integer(1)),
            (key("bar"), RespValue::Integer(2)),
        ])),
    );
}

#[test]
fn read_nested_value() {
    assert_value(
        "*2\r\n%1\r\n+k\r\n~2\r\n:2\r\n:1\r\n*0\r\n",
        RespValue::Array(vec![
            RespValue::Mapping(map_of(vec![(
                key("k"),
                RespValue::Members(set_of(vec![
                    RespPrimitive::Integer(1),
                    RespPrimitive::Integer(2),
                ])),
            )])),
            RespValue::Array(vec![]),
        ]),
    );
}

#[test]
fn read_no_value() {
    assert_eq!(read_value_from("").unwrap(), None);
}

#[test]
fn values_cancel_safety() {
    let mut reader = RespReader::new(RespConfig::default());
    reader.feed(b"*2\r\n:1\r\n");
    assert!(matches!(reader.value(), RespPoll::Pending));
    assert_eq!(reader.buffered(), 8);
    reader.feed(b":2\r\n");
    match reader.value() {
        RespPoll::Ready(Ok(Some(value))) => assert_eq!(
            value,
            RespValue::Array(vec![RespValue::Integer(1), RespValue::Integer(2)])
        ),
        other => panic!("unexpected {:?}", other),
    }
    assert_eq!(reader.buffered(), 0);
}

#[test]
fn values_arrive_byte_by_byte() {
    let input = b"%2\r\n+a\r\n*2\r\n:1\r\n$2\r\nxy\r\n:5\r\n~1\r\n_\r\n+next\r\n";
    let mut reader = RespReader::new(RespConfig::default());
    let mut values = Vec::new();
    for byte in input.iter() {
        reader.feed(&[*byte]);
        loop {
            match reader.value() {
                RespPoll::Ready(Ok(Some(value))) => values.push(value),
                RespPoll::Ready(other) => panic!("unexpected {:?}", other),
                RespPoll::Pending => break,
            }
        }
    }
    assert_eq!(
        values,
        vec![
            RespValue::Mapping(map_of(vec![
                (
                    key("a"),
                    RespValue::Array(vec![RespValue::Integer(1), string("xy")]),
                ),
                (RespPrimitive::Integer(5), RespValue::Members(set_of(vec![RespPrimitive::Nil]))),
            ])),
            string("next"),
        ]
    );
}

#[test]
fn map_replaces_and_finds() {
    let mut map = RespMap::new();
    assert_eq!(map.len(), 0);
    assert!(map.insert(key("b"), RespValue::Integer(1)).is_none());
    assert!(map.insert(key("a"), RespValue::Integer(2)).is_none());
    assert!(map.insert(RespPrimitive::Nil, RespValue::Integer(3)).is_none());
    assert!(map.insert(RespPrimitive::Integer(-4), RespValue::Integer(4)).is_none());
    assert!(map.insert(key("ab"), RespValue::Integer(5)).is_none());
    assert_eq!(map.insert(key("a"), RespValue::Integer(6)), Some(RespValue::Integer(2)));
    assert_eq!(map.len(), 5);
    assert_eq!(map.get(&key("a")), Some(&RespValue::Integer(6)));
    assert_eq!(map.get(&key("ab")), Some(&RespValue::Integer(5)));
    assert_eq!(map.get(&key("c")), None);
    assert_eq!(map.get(&RespPrimitive::Integer(4)), None);
    let keys: Vec<RespPrimitive> = map.entries().iter().map(|entry| entry.0.clone()).collect();
    assert_eq!(
        keys,
        vec![RespPrimitive::Integer(-4), RespPrimitive::Nil, key("a"), key("ab"), key("b")]
    );
    let mut sorted = keys.clone();
    sorted.sort();
    assert_eq!(keys, sorted);
}

#[test]
fn set_keeps_each_member_once() {
    let mut set = RespSet::new();
    assert!(set.insert(key("x")));
    assert!(set.insert(key("")));
    assert!(set.insert(RespPrimitive::Integer(i64::MAX)));
    assert!(set.insert(RespPrimitive::Integer(i64::MIN)));
    assert!(!set.insert(RespPrimitive::String(Bytes::from(vec![b'x']))));
    assert!(set.insert(RespPrimitive::Nil));
    assert!(!set.insert(RespPrimitive::Nil));
    assert_eq!(set.len(), 5);
    assert!(set.contains(&key("x")));
    assert!(!set.contains(&key("y")));
    let mut sorted = set.members().clone();
    sorted.sort();
    assert_eq!(set.members(), &sorted);
}

#[test]
fn read_deeply_nested_value() {
    let depth = 100_000;
    let mut input = Vec::new();
    for _ in 0..depth {
        input.extend_from_slice(b"*1\r\n");
    }
    let mut reader = RespReader::new(RespConfig::default());
    reader.feed(&input);
    assert!(matches!(reader.value(), RespPoll::Pending));
    reader.feed(b":1\r\n");
    let mut value = match reader.value() {
        RespPoll::Ready(Ok(Some(value))) => value,
        _ => panic!("expected a value"),
    };
    assert_eq!(reader.buffered(), 0);
    let mut found = 0;
    loop {
        match value {
            RespValue::Array(mut items) => {
                assert_eq!(items.len(), 1);
                found += 1;
                value = items.pop().unwrap();
            }
            other => {
                assert_eq!(other, RespValue::Integer(1));
                break;
            }
        }
    }
    assert_eq!(found, depth);
}

#[test]
fn read_deeply_nested_maps_and_sets() {
    let depth = 20_000;
    let mut input = Vec::new();
    for _ in 0..depth {
        input.extend_from_slice(b"%1\r\n+k\r\n>2\r\n:0\r\n");
    }
    input.extend_from_slice(b"~1\r\n_\r\n");
    let mut reader = RespReader::new(RespConfig::default());
    reader.feed(&input);
    reader.finish();
    let mut value = match reader.value() {
        RespPoll::Ready(Ok(Some(value))) => value,
        _ => panic!("expected a value"),
    };
    let mut found = 0;
    loop {
        match value {
            RespValue::Mapping(map) => {
                let mut entries = map.into_entries();
                assert_eq!(entries.len(), 1);
                let (only, push) = entries.pop().unwrap();
                assert_eq!(only, key("k"));
                let mut items = match push {
                    RespValue::Push(items) => items,
                    _ => panic!("expected a push"),
                };
                assert_eq!(items.len(), 2);
                found += 1;
                value = items.pop().unwrap();
                assert_eq!(items.pop(), Some(RespValue::Integer(0)));
            }
            other => {
                assert_eq!(other, RespValue::Members(set_of(vec![RespPrimitive::Nil])));
                break;
            }
        }
    }
    assert_eq!(found, depth);
}

#[test]
fn value_with_exact_limits() {
    let mut reader = RespReader::new(RespConfig::default());
    reader.feed(b"*2\r\n$2\r\nab\r\n$3\r\nabc\r\n");
    assert!(matches!(
        reader.value_with(2, 100),
        RespPoll::Ready(Err(RespError::InvalidBlobLength))
    ));
    assert_eq!(reader.buffered(), 5);
    let mut reader = RespReader::new(RespConfig::default());
    reader.feed(b"*2\r\n$2\r\nab\r\n$3\r\nabc\r\n");
    match reader.value_with(3, 0) {
        RespPoll::Ready(Ok(Some(value))) => {
            assert_eq!(value, RespValue::Array(vec![string("ab"), string("abc")]))
        }
        other => panic!("unexpected {:?}", other),
    }
}
