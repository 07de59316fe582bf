use structs::client::{found_data, range_lines, raw_value, set_outcome};
use structs::error::Error;
use structs::json::{print_raw, Json};
use structs::rpc::Operation;
use structs::text::{compare, same, split_char, trim};

#[test]
fn reply_data() {
    assert_eq!(Ok("1".to_string()), found_data(&Operation::new_found("a", "1")));
    assert_eq!(Err(Error::NotFound), found_data(&Operation::new_none("a")));
    assert_eq!(Err(Error::Malformed), found_data(&Operation::new("found", &["a"], None)));
    assert_eq!(Err(Error::Malformed), found_data(&Operation::new_ok()));
}

#[test]
fn set_outcomes() {
    assert_eq!(Ok(()), set_outcome(&Operation::new_ok()));
    assert_eq!(Err(Error::RemoteError(Some("Not found".to_string()))), set_outcome(&Operation::new_error("Not found")));
    assert_eq!(Err(Error::Unexpected), set_outcome(&Operation::new_none("a")));
    assert_eq!("Remote error: Not found", Error::RemoteError(Some("Not found".to_string())).message());
}

#[test]
fn raw_rendering() {
    assert_eq!(Ok("hello world".to_string()), raw_value(r#""hello world""#));
    assert_eq!(Ok("123".to_string()), raw_value("123"));
    assert_eq!(Ok("-1.5".to_string()), raw_value("-1.5"));
    assert_eq!(Ok("true".to_string()), raw_value("true"));
    assert_eq!(Ok("null".to_string()), raw_value("null"));
    assert_eq!(Ok(r#"{"a":[1,2]}"#.to_string()), raw_value(r#"{ "a" : [1, 2] }"#));
    assert_eq!(Err(Error::SerdeError), raw_value("{"));
    assert_eq!("x", print_raw(&Json::String("x".to_string())));
}

#[test]
fn range_listing() {
    assert_eq!(Ok(vec!["0".to_string(), "1".to_string()]), range_lines("[0,1]"));
    assert_eq!(Ok(vec!["a".to_string(), "b".to_string()]), range_lines(r#"["a","b"]"#));
    assert_eq!(Err(Error::Malformed), range_lines(r#"{"a":1}"#));
    assert_eq!(Err(Error::SerdeError), range_lines("[1,"));
}

#[test]
fn json_text_is_compact_and_sorted() {
    let v = Json::parse(" { \"b\" : 1 , \"a\" : [ true , null ] } ").unwrap();
    assert_eq!(r#"{"a":[true,null],"b":1}"#, v.to_json());
    assert_eq!(v, v.copy());
    assert_eq!(Err(Error::SerdeError), Json::parse("nope"));
}

#[test]
fn text_helpers() {
    assert_eq!("a b", trim(" \t a b \n"));
    assert_eq!("", trim("   "));
    assert_eq!(vec!["a".to_string(), "".to_string(), "b".to_string()], split_char("a..b", '.'));
    assert!(compare("Z", "a") < 0);
    assert!(compare("ab", "a") > 0);
    assert_eq!(0, compare("é", "é"));
    assert!(compare("z", "é") < 0);
    assert!(same("x", "x"));
    assert!(!same("x", "y"));
}
