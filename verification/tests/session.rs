use figma_code_dl::json::{parse_json, Json};
use figma_code_dl::mcp::{tool_reply, ToolReply};
use figma_code_dl::session::{
    design_context_arguments, initialize_request, initialized_notice, screenshot_arguments,
    tool_request, variable_defs_arguments, Action, Event, Opening, Session, PROTOCOL_VERSION,
};

fn shown(j: &Json) -> String {
    match j {
        Json::Null => "null".into(),
        Json::Bool(b) => b.to_string(),
        Json::Number(n) => n.natural.unwrap().to_string(),
        Json::Text(t) => format!("'{}'", t),
        Json::Array(l) => format!("[{}]", l.iter().map(shown).collect::<Vec<_>>().join(",")),
        Json::Object(l) => format!(
            "{{{}}}",
            l.iter().map(|m| format!("{}:{}", m.0, shown(&m.1))).collect::<Vec<_>>().join(",")
        ),
    }
}

#[test]
fn requests_hold_what_the_protocol_asks_for() {
    assert_eq!(
        shown(&initialize_request(1, "figma-code-dl", "0.1.0")),
        format!(
            "{{jsonrpc:'2.0',id:1,method:'initialize',params:{{protocolVersion:'{}',capabilities:{{}},clientInfo:{{name:'figma-code-dl',version:'0.1.0'}}}}}}",
            PROTOCOL_VERSION
        )
    );
    assert_eq!(
        shown(&initialized_notice()),
        "{jsonrpc:'2.0',method:'notifications/initialized'}"
    );
    assert_eq!(
        shown(&tool_request(7, "t", variable_defs_arguments("1:2"))),
        "{jsonrpc:'2.0',id:7,method:'tools/call',params:{name:'t',arguments:{nodeId:'1:2',clientFrameworks:'react',clientLanguages:'typescript'}}}"
    );
    assert_eq!(
        shown(&screenshot_arguments("1:2", true)),
        "{nodeId:'1:2',contentsOnly:true}"
    );
    assert_eq!(
        shown(&design_context_arguments("1:2", None)),
        "{nodeId:'1:2',forceCode:true,clientFrameworks:'react',clientLanguages:'typescript'}"
    );
    assert!(shown(&design_context_arguments("1:2", Some("/a"))).ends_with(",dirForAssetWrites:'/a'}"));
}

#[test]
fn a_session_is_opened_step_by_step() {
    let mut s = Session::new();
    let forms = vec![
        ("Accept".to_string(), "application/json, text/event-stream".to_string()),
        ("Content-Type".to_string(), "application/json".to_string()),
    ];
    assert_eq!(s.headers(), forms);
    let (at, body) = s.ask("c", "v");
    assert_eq!(at, Opening::Asked(1));
    assert!(shown(&body).contains("id:1,method:'initialize'"));
    let result = parse_json(r#"{"protocolVersion":"x"}"#).unwrap();
    let (at, action) = s.step(at, Event::Answered { session_header: Some("sid".into()), result });
    assert_eq!((at, action), (Opening::Noticed, Action::SendNotice));
    assert_eq!(&s.headers()[..2], &forms[..]);
    assert_eq!(
        &s.headers()[2..],
        &[
            ("Mcp-Session-Id".to_string(), "sid".to_string()),
            ("MCP-Protocol-Version".to_string(), "x".to_string())
        ]
    );
    let (at, action) = s.step(at, Event::Accepted);
    assert_eq!((at, action), (Opening::Open, Action::Finish));
    assert_eq!(s.take_id(), 2);
    assert_eq!(s.take_id(), 3);
}

#[test]
fn a_session_can_be_refused_twice() {
    let mut s = Session::new();
    let (at, _) = s.ask("c", "v");
    assert_eq!(s.step(at, Event::Refused), (at, Action::FailRequest));
    assert_eq!(s.step(Opening::Noticed, Event::Refused), (Opening::Noticed, Action::FailNotice));
    assert_eq!(s.step(at, Event::Accepted).1, Action::Ignore);
    assert_eq!(s.step(Opening::Open, Event::Refused).1, Action::Ignore);
}

#[test]
fn what_is_known_of_a_session_stays() {
    let mut s = Session::new();
    s.open(Some("a".into()), &Json::Null);
    s.open(None, &parse_json(r#"{"protocolVersion":1}"#).unwrap());
    assert_eq!(s.session_id.as_deref(), Some("a"));
    assert_eq!(s.protocol_version, None);
    s.next_id = u64::MAX;
    assert_eq!(s.take_id(), u64::MAX);
    assert_eq!(s.take_id(), 0);
}

#[test]
fn results_of_tools() {
    let kind = |t: &str| tool_reply(&parse_json(t).unwrap());
    assert_eq!(kind(r#"{"isError":true}"#), ToolReply::NoContent);
    assert_eq!(kind(r#"{"content":[],"isError":true}"#), ToolReply::Failed);
    assert_eq!(kind(r#"{"content":[]}"#), ToolReply::Answered);
}
