use structs::error::Error;
use structs::json::Json;
use structs::rpc::Operation;
use structs::service::{run_stop, Action, Store, Wake, Watch, Watchdog};
use structs::duration::Duration;

fn reply(store: &mut Store, op: Operation) -> Operation {
    match store.handle(&op, false) {
        Action::Reply(r) => r,
        other => panic!("expected a reply, got {:?}", other),
    }
}

fn shape(op: &Operation) -> (String, Vec<String>, Option<String>) {
    (op.name().to_string(), op.args().to_vec(), op.data().clone())
}

fn found(path: &str, data: &str) -> (String, Vec<String>, Option<String>) {
    ("found".to_string(), vec![path.to_string()], Some(data.to_string()))
}

fn none(path: &str) -> (String, Vec<String>, Option<String>) {
    ("none".to_string(), vec![path.to_string()], None)
}

fn ok() -> (String, Vec<String>, Option<String>) {
    ("ok".to_string(), vec![], None)
}

#[test]
fn scenario_set_then_get_object() {
    let mut s = Store::new();
    assert_eq!(ok(), shape(&reply(&mut s, Operation::new_set("a", r#"{"x":1}"#))));
    assert_eq!(found("a", r#"{"x":1}"#), shape(&reply(&mut s, Operation::new_get("a"))));
    assert_eq!(found("a.x", "1"), shape(&reply(&mut s, Operation::new_get("a.x"))));
}

#[test]
fn scenario_range_of_array() {
    let mut s = Store::new();
    assert_eq!(ok(), shape(&reply(&mut s, Operation::new_set("b", "[1,2,3]"))));
    assert_eq!(found("b", "[0,1,2]"), shape(&reply(&mut s, Operation::new_range("b"))));
}

#[test]
fn scenario_nested_set_under_missing_key() {
    let mut s = Store::new();
    let r = reply(&mut s, Operation::new_set("c.y", r#"{"z":1}"#));
    assert_eq!(("error".to_string(), vec![], Some("Not found".to_string())), shape(&r));
    assert_eq!(0, s.len());
    assert_eq!(none("c"), shape(&reply(&mut s, Operation::new_get("c"))));
}

#[test]
fn scenario_delete_then_get() {
    let mut s = Store::new();
    reply(&mut s, Operation::new_set("a", r#"{"x":1}"#));
    assert_eq!(ok(), shape(&reply(&mut s, Operation::new_delete("a"))));
    assert_eq!(none("a"), shape(&reply(&mut s, Operation::new_get("a"))));
}

#[test]
fn scenario_stop() {
    let mut s = Store::new();
    match s.handle(&Operation::new_shutdown(), false) {
        Action::ReplyAndStop(r) => assert_eq!(ok(), shape(&r)),
        other => panic!("expected a stop, got {:?}", other),
    }
    assert_eq!(ok(), shape(&run_stop(&Operation::new_shutdown())));
}

#[test]
fn set_then_get_gives_the_value_back() {
    let mut s = Store::new();
    for (k, v) in [("k", "null"), ("k", "true"), ("n", "-12.5"), ("s", r#""hi there""#), ("o", r#"{"b":[1,{"c":null}],"a":"x"}"#)] {
        reply(&mut s, Operation::new_set(k, v));
        let want = Json::parse(v).unwrap().to_json();
        assert_eq!(found(k, &want), shape(&reply(&mut s, Operation::new_get(k))));
    }
}

#[test]
fn delete_of_missing_key_still_replies_ok() {
    let mut s = Store::new();
    assert_eq!(ok(), shape(&reply(&mut s, Operation::new_delete("ghost"))));
    assert_eq!(none("ghost"), shape(&reply(&mut s, Operation::new_get("ghost"))));
    reply(&mut s, Operation::new_set("a", r#"{"b":1}"#));
    assert_eq!(ok(), shape(&reply(&mut s, Operation::new_delete("a.b"))));
    assert_eq!(none("a"), shape(&reply(&mut s, Operation::new_get("a"))));
}

#[test]
fn nested_set_keeps_siblings() {
    let mut s = Store::new();
    reply(&mut s, Operation::new_set("k", r#"{"p":{"q":1,"r":2},"l":[5,6]}"#));
    assert_eq!(ok(), shape(&reply(&mut s, Operation::new_set("k.p.q", r#"[true]"#))));
    assert_eq!(found("k.p.q", "[true]"), shape(&reply(&mut s, Operation::new_get("k.p.q"))));
    assert_eq!(found("k.p.r", "2"), shape(&reply(&mut s, Operation::new_get("k.p.r"))));
    assert_eq!(found("k.l", "[5,6]"), shape(&reply(&mut s, Operation::new_get("k.l"))));
    assert_eq!(ok(), shape(&reply(&mut s, Operation::new_set("k.l.1", "7"))));
    assert_eq!(found("k.l", "[5,7]"), shape(&reply(&mut s, Operation::new_get("k.l"))));
    assert_eq!(ok(), shape(&reply(&mut s, Operation::new_set("k.new", "0"))));
    assert_eq!(found("k", r#"{"l":[5,7],"new":0,"p":{"q":[true],"r":2}}"#), shape(&reply(&mut s, Operation::new_get("k"))));
}

#[test]
fn failed_nested_set_leaves_the_value() {
    let mut s = Store::new();
    reply(&mut s, Operation::new_set("k", r#"{"l":[5,6],"n":1}"#));
    let r = reply(&mut s, Operation::new_set("k.l.9", "0"));
    assert_eq!(("error".to_string(), vec![], Some("Malformed".to_string())), shape(&r));
    let r = reply(&mut s, Operation::new_set("k.n.x", "0"));
    assert_eq!(("error".to_string(), vec![], Some("Malformed".to_string())), shape(&r));
    let r = reply(&mut s, Operation::new_set("k.m.x", "0"));
    assert_eq!(("error".to_string(), vec![], Some("Not found".to_string())), shape(&r));
    assert_eq!(found("k", r#"{"l":[5,6],"n":1}"#), shape(&reply(&mut s, Operation::new_get("k"))));
}

#[test]
fn range_of_object_scalar_and_missing() {
    let mut s = Store::new();
    reply(&mut s, Operation::new_set("o", r#"{"zeta":1,"alpha":2,"Mid":3}"#));
    reply(&mut s, Operation::new_set("n", "5"));
    assert_eq!(found("o", r#"["Mid","alpha","zeta"]"#), shape(&reply(&mut s, Operation::new_range("o"))));
    assert_eq!(none("n"), shape(&reply(&mut s, Operation::new_range("n"))));
    assert_eq!(none("x"), shape(&reply(&mut s, Operation::new_range("x"))));
    assert_eq!(none("o.q"), shape(&reply(&mut s, Operation::new_range("o.q"))));
    reply(&mut s, Operation::new_set("e", "[]"));
    assert_eq!(found("e", "[]"), shape(&reply(&mut s, Operation::new_range("e"))));
}

#[test]
fn malformed_requests_get_no_reply() {
    let mut s = Store::new();
    match s.handle(&Operation::new("get", &[], None), false) {
        Action::Drop(e) => assert_eq!(Error::Malformed, e),
        other => panic!("unexpected {:?}", other),
    }
    match s.handle(&Operation::new("set", &["a"], Some("{oops")), false) {
        Action::Drop(e) => assert_eq!(Error::SerdeError, e),
        other => panic!("unexpected {:?}", other),
    }
    match s.handle(&Operation::new("get", &[""], None), false) {
        Action::Drop(e) => assert_eq!(Error::Malformed, e),
        other => panic!("unexpected {:?}", other),
    }
    match s.handle(&Operation::new("delete", &["a", "b"], None), false) {
        Action::Drop(e) => assert_eq!(Error::Malformed, e),
        other => panic!("unexpected {:?}", other),
    }
    assert_eq!(0, s.len());
}

#[test]
fn set_without_payload_stores_null() {
    let mut s = Store::new();
    assert_eq!(ok(), shape(&reply(&mut s, Operation::new("set", &["a"], None))));
    assert_eq!(found("a", "null"), shape(&reply(&mut s, Operation::new_get("a"))));
}

#[test]
fn unknown_verb_gets_an_error_reply() {
    let mut s = Store::new();
    let r = reply(&mut s, Operation::new("frobnicate", &["a"], None));
    assert_eq!(("error".to_string(), vec![], Some("Unexpected".to_string())), shape(&r));
}

#[test]
fn finalize_stops_when_the_last_key_goes() {
    let mut s = Store::new();
    s.handle(&Operation::new_set("a", "1"), true);
    s.handle(&Operation::new_set("b", "2"), true);
    match s.handle(&Operation::new_delete("a"), true) {
        Action::Reply(r) => assert_eq!(ok(), shape(&r)),
        other => panic!("unexpected {:?}", other),
    }
    match s.handle(&Operation::new_delete("b"), true) {
        Action::ReplyAndStop(r) => assert_eq!(ok(), shape(&r)),
        other => panic!("unexpected {:?}", other),
    }
}

#[test]
fn without_finalize_an_empty_store_goes_on() {
    let mut s = Store::new();
    s.handle(&Operation::new_set("a", "1"), false);
    match s.handle(&Operation::new_delete("a"), false) {
        Action::Reply(r) => assert_eq!(ok(), shape(&r)),
        other => panic!("unexpected {:?}", other),
    }
}

#[test]
fn watchdog_resets_on_requests() {
    let w = Watchdog::new(Duration::from_secs(60));
    assert_eq!(Watch::Wait(60), w.start());
    assert_eq!(Watch::Wait(60), w.on_wake(Wake::Request));
    assert_eq!(Watch::Shutdown, w.on_wake(Wake::Elapsed));
    assert_eq!(Watch::Quit, w.on_wake(Wake::Closed));
}

#[test]
fn fetch_and_write_directly() {
    let mut s = Store::new();
    assert_eq!(Ok(()), s.write("k", None, Json::parse(r#"{"a":[1]}"#).unwrap()));
    assert_eq!(Ok(()), s.write("k", Some("a.0"), Json::Bool(false)));
    assert_eq!(Ok(&Json::Bool(false)), s.fetch("k.a.0"));
    assert_eq!(Err(Error::NotFound), s.write("j", Some("a"), Json::Null));
    assert_eq!(Err(Error::NotFound), s.fetch("j"));
    assert_eq!(Err(Error::Malformed), s.fetch(""));
    s.remove("k");
    assert_eq!(0, s.len());
}

#[test]
fn differently_written_indices_name_the_same_slot() {
    let mut s = Store::new();
    reply(&mut s, Operation::new_set("k", r#"{"l":[{"y":1}]}"#));
    assert_eq!(ok(), shape(&reply(&mut s, Operation::new_set("k.l.0.y", "2"))));
    assert_eq!(found("k.l.00", r#"{"y":2}"#), shape(&reply(&mut s, Operation::new_get("k.l.00"))));
}
