use figma_code_dl::content::ContentBlock;
use figma_code_dl::json::{parse_json, Json};
use figma_code_dl::mcp::{
    after_attempt, answer_form, carries_answer, error_detail, extract_result, is_error, next_answer, take_event,
    AnswerError, AnswerForm, Attempt, Next, Retry, SseEvent,
};

#[test]
fn take_event_parses_message() {
    let mut buf = b"event: message\ndata: {\"id\":1}\n\n".to_vec();
    let ev = take_event(&mut buf).unwrap();
    assert_eq!(ev.event.as_deref(), Some("message"));
    assert_eq!(ev.data, "{\"id\":1}");
    assert!(buf.is_empty());
}

#[test]
fn take_event_joins_multiline_data() {
    let mut buf = b"event: message\ndata: a\ndata: b\n\n".to_vec();
    let ev = take_event(&mut buf).unwrap();
    assert_eq!(ev.data, "a\nb");
}

#[test]
fn take_event_none_when_incomplete() {
    let raw = b"event: message\ndata: partial";
    let mut buf = raw.to_vec();
    assert!(take_event(&mut buf).is_none());
    assert_eq!(buf.len(), raw.len());
}

#[test]
fn extract_result_errors_on_jsonrpc_error() {
    let v = parse_json(r#"{"jsonrpc":"2.0","id":1,"error":{"code":-1,"message":"bad"}}"#).unwrap();
    assert!(extract_result(&v, 1).is_err());
}

#[test]
fn extract_result_ok() {
    let v = parse_json(r#"{"jsonrpc":"2.0","id":1,"result":{"x":1}}"#).unwrap();
    let r = match extract_result(&v, 1) {
        Ok(r) => r,
        Err(_) => panic!("there is a result"),
    };
    assert!(matches!(r.get("x"), Some(Json::Number(n)) if n.natural == Some(1)));
}

#[test]
fn events_end_at_a_blank_line_of_either_kind() {
    let mut buf = b"data:a\r\ndata:  b\r\n\r\nrest".to_vec();
    let ev = take_event(&mut buf).unwrap();
    assert_eq!(ev.event, None);
    assert_eq!(ev.data, "a\n b");
    assert_eq!(buf, b"rest");
    let mut mixed = b"data:x\r\n\n".to_vec();
    assert_eq!(take_event(&mut mixed).unwrap().data, "x\r");
}

#[test]
fn an_event_waits_for_whole_characters() {
    let mut buf = "data: é\n\n".as_bytes().to_vec();
    buf.push(0xc3);
    assert!(take_event(&mut buf).is_none());
    assert_eq!(buf.len(), 11);
    buf.push(0xa9);
    assert_eq!(take_event(&mut buf).unwrap().data, "é");
    assert_eq!(buf, "é".as_bytes());
}

#[test]
fn what_follows_does_not_change_an_event() {
    let mut a = b"event: x \ndata: 1\n\n".to_vec();
    let mut b = b"event: x \ndata: 1\n\ndata: 2\n\n".to_vec();
    let (x, y) = (take_event(&mut a).unwrap(), take_event(&mut b).unwrap());
    assert_eq!((x.event, x.data), (y.event, y.data));
    assert_eq!(b, b"data: 2\n\n");
}

#[test]
fn the_answer_with_the_id_is_found() {
    let mut buf = b"event: ping\ndata: {\"id\":7}\n\ndata: junk\n\ndata: {\"id\":6}\n\ndata: {\"id\":7,\"result\":1}\n\nmore".to_vec();
    let a = next_answer(&mut buf, 7).unwrap();
    assert_eq!(a.text, "{\"id\":7,\"result\":1}");
    assert!(extract_result(&a.value, 7).is_ok());
    assert_eq!(buf, b"more");
    assert!(next_answer(&mut buf, 7).is_none());
    assert_eq!(buf, b"more");
}

#[test]
fn every_reason_for_no_result() {
    let wrong = parse_json(r#"{"id":2,"result":1}"#).unwrap();
    assert!(matches!(
        extract_result(&wrong, 1),
        Err(AnswerError::WrongId { id: 2, expected: 1 })
    ));
    let none = parse_json(r#"{"id":1}"#).unwrap();
    assert!(matches!(extract_result(&none, 1), Err(AnswerError::NoResult)));
    let failed = parse_json(r#"{"id":2,"error":null,"result":1}"#).unwrap();
    assert!(matches!(
        extract_result(&failed, 1),
        Err(AnswerError::Failed(Json::Null))
    ));
    let no_id = parse_json(r#"{"id":"1","result":1}"#).unwrap();
    assert!(extract_result(&no_id, 1).is_ok());
}

#[test]
fn the_content_type_tells_the_form() {
    assert_eq!(answer_form("application/json; charset=utf-8"), AnswerForm::Single);
    assert_eq!(answer_form("text/event-stream"), AnswerForm::Stream);
    assert_eq!(answer_form("text/html"), AnswerForm::Unknown);
}

#[test]
fn failed_tools_say_so() {
    assert!(is_error(&parse_json(r#"{"isError":true}"#).unwrap()));
    assert!(!is_error(&parse_json(r#"{"isError":false}"#).unwrap()));
    assert!(!is_error(&parse_json(r#"{"isError":1}"#).unwrap()));
    let block = |text: &str| ContentBlock {
        block_type: "text".into(),
        text: text.into(),
        data: None,
        mime_type: None,
    };
    assert_eq!(error_detail(&vec![block("a"), block("b")]), "a\nb");
    assert_eq!(error_detail(&vec![]), "");
}

#[test]
fn calls_are_tried_again_while_the_node_is_missing() {
    let retry = Retry::with_inactive_retry(3, 200);
    let missing = Attempt::Failed("x: No node could be found here".into());
    let other = Attempt::Failed("no".into());
    assert_eq!(
        after_attempt(&retry, 1, &missing),
        Next::Wait { interval_ms: 200, announce: true }
    );
    assert_eq!(
        after_attempt(&retry, 2, &missing),
        Next::Wait { interval_ms: 200, announce: false }
    );
    assert_eq!(after_attempt(&retry, 3, &missing), Next::Fail);
    assert_eq!(after_attempt(&retry, 1, &other), Next::Fail);
    assert_eq!(
        after_attempt(&retry, 3, &Attempt::Answered),
        Next::Return { waited_ms: 400 }
    );
    assert_eq!(Retry::with_inactive_retry(0, 1).attempts, 1);
    assert_eq!(after_attempt(&Retry::once(), 1, &missing), Next::Fail);
}

#[test]
fn answers_come_in_messages_with_their_id() {
    let event = |name: Option<&str>| SseEvent { event: name.map(String::from), data: String::new() };
    let value = parse_json(r#"{"id":3}"#).unwrap();
    assert!(carries_answer(&event(None), &value, 3));
    assert!(carries_answer(&event(Some("message")), &value, 3));
    assert!(!carries_answer(&event(Some("ping")), &value, 3));
    assert!(!carries_answer(&event(None), &value, 4));
    assert!(!carries_answer(&event(None), &parse_json(r#"{"id":"3"}"#).unwrap(), 3));
}

#[test]
fn the_first_final_attempt_ends_a_series() {
    let missing = || Attempt::Failed("No node could be found".into());
    let run = |attempts: u32, outcomes: Vec<Attempt>| -> (u32, Next) {
        let retry = Retry::with_inactive_retry(attempts, 5);
        let mut k = 1;
        loop {
            match after_attempt(&retry, k, &outcomes[k as usize - 1]) {
                Next::Wait { interval_ms, .. } => {
                    assert_eq!(interval_ms, 5);
                    k += 1;
                }
                end => return (k, end),
            }
        }
    };
    assert_eq!(run(4, vec![missing(), missing(), Attempt::Answered]), (3, Next::Return { waited_ms: 10 }));
    assert_eq!(run(2, vec![missing(), missing(), Attempt::Answered]), (2, Next::Fail));
    assert_eq!(run(4, vec![missing(), Attempt::Failed("no".into())]), (2, Next::Fail));
    assert_eq!(run(0, vec![missing()]), (1, Next::Fail));
}

#[test]
fn an_event_stays_whatever_comes_behind_it() {
    for (event, more, data) in [
        ("data: a\n\n", "data: b\r\n\r\n", "a"),
        ("data: a\r\n\r\n", "data: b\r\n\r\nrest", "a"),
        ("data: é\r\n\r\n", "\r\n", "é"),
    ] {
        let mut buf = format!("{}{}", event, more).into_bytes();
        assert_eq!(take_event(&mut buf).unwrap().data, data);
        assert_eq!(buf, more.as_bytes());
    }
}
