use structs::json::Json;
use structs::jsonpath::{_index, index_array, parse_index, Path};

#[test]
fn trim_path() {
    let p = Path::new("a");
    assert_eq!((Some(Path::new("a")), None), p._trim(0));
    let p = Path::new("a.b");
    assert_eq!((Some(Path::new("a")), Some("b")), p._trim(1));
    let p = Path::new("a.b.c");
    assert_eq!((Some(Path::new("a.b")), Some("c")), p._trim(1));
    let p = Path::new("a.b.c");
    assert_eq!((Some(Path::new("a")), Some("b")), p._trim(2));
    let p = Path::new("a.b.c");
    assert_eq!((None, None), p._trim(3));
    let p = Path::new("a.b.c");
    assert_eq!((None, None), p._trim(100));
}

#[test]
fn first_path() {
    let p = Path::new("a");
    assert_eq!((Some("a"), None), p.first());
    let p = Path::new("a.b");
    assert_eq!((Some("a"), Some(Path::new("b"))), p.first());
    let p = Path::new("a.b.c");
    assert_eq!((Some("a"), Some(Path::new("b.c"))), p.first());
    let p = Path::new("");
    assert_eq!((None, None), p.first());
}

#[test]
fn last_path() {
    let p = Path::new("a");
    assert_eq!((None, Some("a")), p.last());
    let p = Path::new("a.b");
    assert_eq!((Some(Path::new("a")), Some("b")), p.last());
    let p = Path::new("a.b.c");
    assert_eq!((Some(Path::new("a.b")), Some("c")), p.last());
    let p = Path::new("");
    assert_eq!((None, None), p.last());
}

#[test]
fn find_path() {
    let v: Json = Json::parse(
        r#"{
      "str": "Hello!",
      "arr": [1, 2, 3],
      "num": 123,
      "bool": true,
      "sub1": {
        "a": 1,
        "b": 2,
        "c": 3
      },
      "sub2": {
        "A": {"one": 1},
        "B": {"two": 2},
        "C": {"three": 3}
      }
    }"#,
    )
    .unwrap();

    let p = Path::new("str");
    assert_eq!((Some(&Json::String("Hello!".to_string())), None), p.deref(&v));
    let p = Path::new("str.invalid");
    assert_eq!((Some(&Json::String("Hello!".to_string())), Some(Path::new("invalid"))), p.deref(&v));
    let p = Path::new("num");
    assert_eq!((Some(&Json::Number(123.into())), None), p.deref(&v));
    let p = Path::new("num.invalid");
    assert_eq!((Some(&Json::Number(123.into())), Some(Path::new("invalid"))), p.deref(&v));
    let p = Path::new("num.invalid.nonsense");
    assert_eq!((Some(&Json::Number(123.into())), Some(Path::new("invalid.nonsense"))), p.deref(&v));

    let p = Path::new("str.invalid");
    assert_eq!((None, Some(Path::new("invalid"))), p.find(&v));
    let p = Path::new("num.invalid");
    assert_eq!((None, Some(Path::new("invalid"))), p.find(&v));
    let p = Path::new("sub1.a");
    assert_eq!((Some(&Json::Number(1.into())), None), p.find(&v));
    let p = Path::new("sub1.a.invalid");
    assert_eq!((None, Some(Path::new("invalid"))), p.find(&v));
    let p = Path::new("sub1.a.invalid.nonsense");
    assert_eq!((None, Some(Path::new("invalid.nonsense"))), p.find(&v));

    let p = Path::new("sub2.A.one");
    assert_eq!((Some(&Json::Number(1.into())), None), p.find(&v));
    let p = Path::new("sub2.B.two");
    assert_eq!((Some(&Json::Number(2.into())), None), p.find(&v));
    let p = Path::new("sub2.B.two.invalid");
    assert_eq!((None, Some(Path::new("invalid"))), p.find(&v));
    let p = Path::new("sub2.B.two.invalid.nonsense");
    assert_eq!((None, Some(Path::new("invalid.nonsense"))), p.find(&v));
}

#[test]
fn next_splits_at_first_separator() {
    assert_eq!((Some("a"), Some("b.c")), Path::new("a.b.c").next());
    assert_eq!((Some("a"), None), Path::new("a").next());
    assert_eq!((Some("a"), Some("")), Path::new("a.").next());
    assert_eq!((Some(""), Some("a")), Path::new(".a").next());
    assert_eq!((None, None), Path::new("").next());
}

#[test]
fn first_and_last_trim_white_space() {
    assert_eq!((Some("a"), Some(Path::new("b"))), Path::new("  a.b\t").first());
    assert_eq!((Some(Path::new("a")), Some("b")), Path::new(" a.b \n").last());
    assert_eq!((None, None), Path::new("   ").last());
}

#[test]
fn has_next_and_path_text() {
    assert!(Path::new("a.b")._has_next());
    assert!(!Path::new("ab")._has_next());
    assert_eq!("a.b", Path::new("a.b")._path());
}

#[test]
fn value_needs_a_full_match() {
    let v = Json::parse(r#"{"a": {"b": [10, 20, 30]}}"#).unwrap();
    assert_eq!(Some(&Json::Number(20.into())), Path::new("a.b.1").value(&v));
    assert_eq!(Some(&Json::Number(30.into())), Path::new("a.b.+2").value(&v));
    assert_eq!(Some(&Json::Number(10.into())), Path::new("a.b.00").value(&v));
    assert_eq!(None, Path::new("a.b.3").value(&v));
    assert_eq!(None, Path::new("a.b.-1").value(&v));
    assert_eq!(None, Path::new("a.c").value(&v));
    assert_eq!(None, Path::new("").value(&v));
}

#[test]
fn array_indices() {
    assert_eq!(Some(7), parse_index("7"));
    assert_eq!(Some(7), parse_index("+7"));
    assert_eq!(Some(7), parse_index("007"));
    assert_eq!(None, parse_index(""));
    assert_eq!(None, parse_index("+"));
    assert_eq!(None, parse_index("-1"));
    assert_eq!(None, parse_index("1a"));
    assert_eq!(Some(usize::MAX), parse_index(&usize::MAX.to_string()));
    assert_eq!(None, parse_index("18446744073709551616"));
    let v = Json::parse("[1, 2]").unwrap();
    assert_eq!(Some(1), _index(&v, "1"));
    assert_eq!(None, _index(&v, "2"));
    assert_eq!(None, _index(&Json::Null, "0"));
    if let Json::Array(a) = &v {
        assert_eq!(Some(0), index_array(a, "0"));
        assert_eq!(None, index_array(a, "x"));
    }
}

#[test]
fn insert_value_sets_nested_slots() {
    let v = Json::parse(r#"{"a": {"b": [1, 2]}, "c": 3}"#).unwrap();
    let x = Json::parse(r#"{"z": true}"#).unwrap();
    let w = Path::new("a.b.0").insert_value(&v, &x).unwrap();
    assert_eq!(r#"{"a":{"b":[{"z":true},2]},"c":3}"#, w.to_json());
    let w = Path::new("a.new").insert_value(&v, &x).unwrap();
    assert_eq!(r#"{"a":{"b":[1,2],"new":{"z":true}},"c":3}"#, w.to_json());
    assert_eq!(Err(structs::error::Error::Malformed), Path::new("a.b.5").insert_value(&v, &x));
    assert_eq!(Err(structs::error::Error::Malformed), Path::new("c.d").insert_value(&v, &x));
    assert_eq!(Err(structs::error::Error::NotFound), Path::new("q.r").insert_value(&v, &x));
    assert_eq!(r#"{"a":{"b":[1,2]},"c":3}"#, v.to_json());
}

#[test]
fn set_value_replaces_only_what_exists() {
    let v = Json::parse(r#"{"a": {"b": [1, 2]}, "c": 3}"#).unwrap();
    let x = Json::parse(r#"{"z": true}"#).unwrap();
    let w = Path::new("a.b.0").set_value(&v, &x).unwrap();
    assert_eq!(r#"{"a":{"b":[{"z":true},2]},"c":3}"#, w.to_json());
    let w = Path::new(" c ").set_value(&v, &x).unwrap();
    assert_eq!(r#"{"a":{"b":[1,2]},"c":{"z":true}}"#, w.to_json());
    assert_eq!(Err(structs::error::Error::NotFound), Path::new("a.new").set_value(&v, &x));
    assert_eq!(Err(structs::error::Error::NotFound), Path::new("a.b.5").set_value(&v, &x));
    assert_eq!(Err(structs::error::Error::NotFound), Path::new("c.d").set_value(&v, &x));
    assert_eq!(Err(structs::error::Error::NotFound), Path::new("").set_value(&v, &x));
    let empty = Json::parse("{}").unwrap();
    assert_eq!(Err(structs::error::Error::NotFound), Path::new("x").set_value(&empty, &x));
    assert_eq!(r#"{"a":{"b":[1,2]},"c":3}"#, v.to_json());
}
