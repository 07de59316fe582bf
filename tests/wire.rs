use structs::error::Error;
use structs::rpc::{carries_payload, encode, expect, read_head, read_payload, Frame, Operation, Request, Socket};

#[test]
fn verb_line_without_payload() {
    match read_head(Some("get a.b\n")).unwrap() {
        Frame::Done(Some(op)) => {
            assert_eq!("get", op.name());
            assert_eq!(vec!["a.b".to_string()], op.args().to_vec());
            assert_eq!(&None, op.data());
        },
        other => panic!("unexpected {:?}", other),
    }
}

#[test]
fn verb_line_with_payload() {
    let pending = match read_head(Some("set k\n")).unwrap() {
        Frame::NeedPayload(op) => op,
        other => panic!("unexpected {:?}", other),
    };
    let op = read_payload(pending, Some(" {\"a\":1} \n")).unwrap();
    assert_eq!("set", op.name());
    assert_eq!(&Some("{\"a\":1}".to_string()), op.data());
    let pending = match read_head(Some("error")).unwrap() {
        Frame::NeedPayload(op) => op,
        other => panic!("unexpected {:?}", other),
    };
    assert_eq!(Err(Error::Malformed), read_payload(pending, None));
}

#[test]
fn end_of_stream_and_empty_lines() {
    assert!(matches!(read_head(None), Ok(Frame::Done(None))));
    assert!(matches!(read_head(Some("  \n")), Err(Error::Malformed)));
}

#[test]
fn tokens_split_on_single_spaces() {
    match read_head(Some("ok  x")).unwrap() {
        Frame::Done(Some(op)) => {
            assert_eq!("ok", op.name());
            assert_eq!(vec!["".to_string(), "x".to_string()], op.args().to_vec());
        },
        other => panic!("unexpected {:?}", other),
    }
}

#[test]
fn payload_verbs() {
    assert!(carries_payload("set"));
    assert!(carries_payload("found"));
    assert!(carries_payload("error"));
    assert!(!carries_payload("get"));
    assert!(!carries_payload("ok"));
}

#[test]
fn frames_are_written_as_lines() {
    assert_eq!("found a\n{\"x\":1}\n", encode(&Operation::new_found("a", "{\"x\":1}")));
    assert_eq!("ok\n", encode(&Operation::new_ok()));
    assert_eq!("get a\n", encode(&Operation::new_get("a")));
    assert_eq!("set k\n[1]\n", encode(&Operation::new_set("k", " [1] ")));
    assert_eq!("error\nNot found\n", encode(&Operation::new_error("Not found")));
    assert_eq!("stop\n", encode(&Operation::new_shutdown()));
    assert_eq!("delete k\n", encode(&Operation::new_delete("k")));
    assert_eq!("range k\n", encode(&Operation::new_range("k")));
    assert_eq!("none k\n", encode(&Operation::new_none("k")));
}

#[test]
fn expected_replies() {
    let op = expect(Some(Operation::new_ok()), &["ok"]).unwrap();
    assert_eq!("ok", op.name());
    assert_eq!(Err(Error::Unexpected), expect(Some(Operation::new_none("a")), &["ok", "found"]));
    assert_eq!(Err(Error::Unexpected), expect(None, &["ok"]));
}

#[test]
fn requests_carry_one_reply() {
    let (tx, rx) = std::sync::mpsc::channel();
    let mut req = Request::new(Operation::new_get("a"), tx);
    assert_eq!("get", req.name());
    assert_eq!("get", req.operation().name());
    assert_eq!(Ok(()), req.send(Operation::new_none("a")));
    assert_eq!("none", rx.recv().unwrap().name());
    drop(rx);
    assert_eq!(Err(Error::SendError), req.send(Operation::new_ok()));
}

#[test]
fn endpoint_removal_is_claimed_once() {
    let mut s = Socket::new("/tmp/structs.sock");
    assert_eq!("/tmp/structs.sock", s.path());
    assert!(s.claim_removal());
    assert!(!s.claim_removal());
    assert!(!s.claim_removal());
}
