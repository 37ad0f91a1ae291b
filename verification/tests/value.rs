use respite::{RespError, RespMap, RespPrimitive, RespSet, RespValue};

#[test]
fn array() {
    assert_eq!(RespValue::Array(vec![]), RespValue::Array(Vec::new()));
    assert_eq!(
        RespValue::Array(vec![RespValue::Array(vec![])]),
        RespValue::Array(vec![RespValue::Array(Vec::new())])
    );
    assert_eq!(RespValue::Array(vec![1i64.into()]), RespValue::Array(vec![RespValue::Integer(1)]));
    assert_eq!(
        RespValue::Array(vec![1i64.into(), 2i64.into()]),
        RespValue::Array(vec![RespValue::Integer(1), RespValue::Integer(2)])
    );
    assert_ne!(
        RespValue::Array(vec![1i64.into(), 2i64.into()]),
        RespValue::Array(vec![2i64.into(), 1i64.into()])
    );
}

#[test]
fn bignum() {
    assert_eq!(
        RespValue::Bignum("1234".into()),
        RespValue::Bignum(bytes::Bytes::from_static(b"1234"))
    );
}

#[test]
fn boolean() {
    assert_eq!(RespValue::Boolean(true), RespValue::from(true));
    assert_eq!(RespValue::Boolean(false), RespValue::from(false));
    assert_eq!(
        RespValue::Array(vec![true.into(), false.into()]),
        RespValue::Array(vec![RespValue::Boolean(true), RespValue::Boolean(false)])
    );
}

#[test]
fn string() {
    assert_eq!(RespValue::String("1234".into()), RespValue::from("1234"));
    assert_eq!(RespValue::String("1234".into()), RespValue::from(String::from("1234")));
    assert_eq!(RespValue::String("1234".into()), RespValue::from(b"1234"));
    assert_eq!(RespValue::String("1234".into()), RespValue::from(b"1234".to_vec()));
    assert_eq!(RespValue::String("é".into()), RespValue::from(vec![0xc3, 0xa9]));
}

#[test]
fn integer() {
    assert_eq!(RespValue::Integer(1i64), RespValue::from(1i64));
    assert_eq!(RespValue::Integer(-1i64), RespValue::from(-1));
    assert_eq!(RespValue::Integer(i32::MIN as i64), RespValue::from(i32::MIN));
}

#[test]
fn map() {
    let mut map = RespMap::new();
    map.insert("x".into(), "1".into());
    map.insert(1i64.into(), RespValue::Double("1".into()));
    map.insert(RespPrimitive::Nil, RespValue::Nil);
    let mut other = RespMap::new();
    other.insert(RespPrimitive::Nil, RespValue::Nil);
    other.insert(String::from("x").into(), "1".into());
    other.insert(1i64.into(), RespValue::Double("1".into()));
    assert_eq!(RespValue::Mapping(map.clone()), RespValue::Mapping(other));
    assert_ne!(RespValue::Mapping(map.clone()), RespValue::Attribute(map));
}

#[test]
fn nil() {
    assert_eq!(RespValue::Nil, RespValue::Nil);
    assert_ne!(RespValue::Nil, RespValue::Integer(0));
}

#[test]
fn push() {
    assert_eq!(RespValue::Push(vec![]), RespValue::Push(Vec::new()));
    assert_ne!(RespValue::Push(vec![]), RespValue::Array(vec![]));
    assert_eq!(RespValue::Push(vec![1i64.into()]), RespValue::Push(vec![RespValue::Integer(1)]));
}

#[test]
fn set() {
    let mut set = RespSet::new();
    set.insert("x".into());
    set.insert("y".into());
    set.insert(RespPrimitive::Nil);
    let mut other = RespSet::new();
    other.insert(RespPrimitive::Nil);
    other.insert("y".into());
    other.insert("x".into());
    other.insert("y".into());
    assert_eq!(RespValue::Members(set), RespValue::Members(other));
}

#[test]
fn verbatim() {
    assert_eq!(
        RespValue::Verbatim("txt".into(), "abc".into()),
        RespValue::Verbatim(bytes::Bytes::from("txt"), bytes::Bytes::from("abc"))
    );
}

#[test]
fn error() {
    assert_eq!(
        RespValue::Error("ERR stuff".into()),
        RespValue::Error(bytes::Bytes::from("ERR stuff"))
    );
}

#[test]
fn text_values() {
    let value = RespValue::Verbatim("txt".into(), "abc".into());
    assert_eq!(value.text(), Some("abc"));

    let value = RespValue::String("abc".into());
    assert_eq!(value.text(), Some("abc"));

    let value = RespValue::Nil;
    assert_eq!(value.text(), None);

    let value = RespValue::Integer(23);
    assert_eq!(value.text(), None);
}

#[test]
fn text_must_be_utf8() {
    assert_eq!(RespValue::String(vec![0xff, 0xfe].into()).text(), None);
    assert_eq!(RespValue::Error(vec![0xc3].into()).error(), None);
    assert_eq!(RespValue::String("é".into()).text(), Some("é"));
    assert_eq!(RespValue::Error("abc".into()).text(), None);
}

#[test]
fn error_values() {
    let value = RespValue::Verbatim("txt".into(), "abc".into());
    assert_eq!(value.error(), None);

    let value = RespValue::String("abc".into());
    assert_eq!(value.error(), None);

    let value = RespValue::Nil;
    assert_eq!(value.error(), None);

    let value = RespValue::Integer(23);
    assert_eq!(value.error(), None);

    let value = RespValue::Error("error".into());
    assert_eq!(value.error(), Some("error"));
}

#[test]
fn integer_values() {
    let value = RespValue::Verbatim("txt".into(), "abc".into());
    assert_eq!(value.integer(), None);

    let value = RespValue::String("abc".into());
    assert_eq!(value.integer(), None);

    let value = RespValue::Nil;
    assert_eq!(value.integer(), None);

    let value = RespValue::Integer(23);
    assert_eq!(value.integer(), Some(23));

    let value = RespValue::Error("error".into());
    assert_eq!(value.integer(), None);
}

#[test]
fn array_values() {
    let mut value = RespValue::Verbatim("txt".into(), "abc".into());
    assert_eq!(value.array(), None);

    let mut value = RespValue::String("abc".into());
    assert_eq!(value.array(), None);

    let mut value = RespValue::Nil;
    assert_eq!(value.array(), None);

    let mut value = RespValue::Integer(23);
    assert_eq!(value.array(), None);

    let mut value = RespValue::Error("error".into());
    assert_eq!(value.array(), None);

    let mut value = RespValue::Array(vec![RespValue::Integer(1), RespValue::Integer(2)]);
    assert_eq!(
        value.array(),
        Some(&mut vec![RespValue::Integer(1), RespValue::Integer(2)])
    );
    value.array().unwrap().push(RespValue::Nil);
    assert_eq!(
        value,
        RespValue::Array(vec![RespValue::Integer(1), RespValue::Integer(2), RespValue::Nil])
    );
}

#[test]
fn primitives_from_values() {
    assert_eq!(RespPrimitive::try_from(RespValue::Integer(4)).unwrap(), RespPrimitive::Integer(4));
    assert_eq!(RespPrimitive::try_from(RespValue::Nil).unwrap(), RespPrimitive::Nil);
    assert_eq!(
        RespPrimitive::try_from(RespValue::String("a".into())).unwrap(),
        RespPrimitive::from("a")
    );
    for value in [
        RespValue::Boolean(true),
        RespValue::Array(vec![]),
        RespValue::Error("a".into()),
        RespValue::Bignum("1".into()),
        RespValue::Double("1".into()),
        RespValue::Verbatim("txt".into(), "a".into()),
        RespValue::Members(RespSet::new()),
        RespValue::Mapping(RespMap::new()),
    ] {
        assert!(matches!(RespPrimitive::try_from(value), Err(RespError::RespPrimitive)));
    }
}

#[test]
fn clones_are_equal() {
    let mut map = RespMap::new();
    map.insert("k".into(), RespValue::Array(vec!["a".into(), 1i64.into()]));
    let mut set = RespSet::new();
    set.insert(3i64.into());
    let value = RespValue::Push(vec![
        RespValue::Attribute(map),
        RespValue::Members(set),
        RespValue::Verbatim("txt".into(), "x".into()),
    ]);
    assert_eq!(value.clone(), value);
}

#[test]
fn primitives_are_ordered() {
    let mut all = vec![
        RespPrimitive::from("b"),
        RespPrimitive::Nil,
        RespPrimitive::from(""),
        RespPrimitive::from(7i64),
        RespPrimitive::from("ab"),
        RespPrimitive::from(-7i64),
        RespPrimitive::from(String::from("a")),
    ];
    let mut set = RespSet::new();
    for primitive in all.iter() {
        assert!(set.insert(primitive.clone()));
    }
    all.sort();
    assert_eq!(set.members(), &all);
}

#[test]
fn error_messages() {
    assert_eq!(RespError::EndOfInput.to_string(), "unexpected end of input");
    assert_eq!(RespError::InvalidBoolean.to_string(), "invalid boolean");
    assert_eq!(RespError::InvalidBlobLength.to_string(), "invalid blob length");
    assert_eq!(RespError::InvalidDouble.to_string(), "invalid double");
    assert_eq!(RespError::InvalidInteger.to_string(), "invalid integer");
    assert_eq!(RespError::InvalidMap.to_string(), "invalid map");
    assert_eq!(RespError::InvalidSet.to_string(), "invalid set");
    assert_eq!(RespError::InvalidVerbatim.to_string(), "invalid verbatim");
    assert_eq!(RespError::Newline.to_string(), "newline is not allowed in this frame");
    assert_eq!(RespError::Version.to_string(), "unsupported in the current version");
    assert_eq!(
        RespError::RespPrimitive.to_string(),
        "map keys and set values must be primitives"
    );
    assert_eq!(RespError::TooBigInline.to_string(), "too big inline request");
    assert_eq!(RespError::Unexpected(b'\n', b'x').to_string(), "expected '\\n', got 'x'");
    assert_eq!(RespError::UnknownType(b'?').to_string(), "unknown resp type: '?'");
    assert_eq!(RespError::InvalidInline.to_string(), "invalid inline command");
    let io = RespError::IO(std::io::Error::new(std::io::ErrorKind::Other, "broken"));
    assert_eq!(io.to_string(), "io error");
}
