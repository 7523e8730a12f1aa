//! A session with the Dev Mode server: what is asked, and what is kept of the
//! answers for the requests that follow.

use vstd::prelude::*;
use vstd::string::*;

use crate::chars::text_or_none;
use crate::json::{
    add_member, add_text, law_member, member, members_of, natural, no_members,
    text_of as json_text, Json, JsonNumber, JsonView,
};

verus! {

/// The version of the protocol that is asked for.
pub const PROTOCOL_VERSION: &'static str = "2025-03-26";

// ---------------------------------------------------------------------------
// Requests
// ---------------------------------------------------------------------------

/// An object with the given members.
pub open spec fn object(members: Seq<(Seq<char>, JsonView)>) -> JsonView {
    JsonView::Object(members)
}

/// A request with the given id, method and parameters.
pub open spec fn request_of(id: u64, method: Seq<char>, params: JsonView) -> JsonView {
    object(
        seq![
            ("jsonrpc"@, JsonView::Text("2.0"@)),
            ("id"@, natural(id)),
            ("method"@, JsonView::Text(method)),
            ("params"@, params),
        ],
    )
}

/// A request with the given id, method and parameters.
pub fn request(id: u64, method: &str, params: Json) -> (res: Json)
    ensures
        res@ == request_of(id, method@, params@),
{
    let mut members = no_members();
    add_text(&mut members, "jsonrpc", "2.0");
    add_member(&mut members, "id", Json::Number(JsonNumber { natural: Some(id), double: None }));
    add_text(&mut members, "method", method);
    add_member(&mut members, "params", params);
    assert(members_of(members) =~= request_of(id, method@, params@)->Object_0);
    Json::Object(members)
}

/// The request that opens a session.
pub open spec fn initialize_body(id: u64, client: Seq<char>, version: Seq<char>) -> JsonView {
    let info = object(
        seq![("name"@, JsonView::Text(client)), ("version"@, JsonView::Text(version))],
    );
    request_of(
        id,
        "initialize"@,
        object(
            seq![
                ("protocolVersion"@, JsonView::Text(PROTOCOL_VERSION@)),
                ("capabilities"@, object(seq![])),
                ("clientInfo"@, info),
            ],
        ),
    )
}

/// The request that opens a session.
pub fn initialize_request(id: u64, client: &str, version: &str) -> (res: Json)
    ensures
        res@ == initialize_body(id, client@, version@),
{
    let mut info = no_members();
    add_text(&mut info, "name", client);
    add_text(&mut info, "version", version);
    assert(members_of(info) =~= seq![
        ("name"@, JsonView::Text(client@)),
        ("version"@, JsonView::Text(version@)),
    ]);
    let mut params = no_members();
    let capabilities = Json::Object(no_members());
    let client_info = Json::Object(info);
    add_text(&mut params, "protocolVersion", PROTOCOL_VERSION);
    add_member(&mut params, "capabilities", capabilities);
    add_member(&mut params, "clientInfo", client_info);
    assert(members_of(params) =~= seq![
        ("protocolVersion"@, JsonView::Text(PROTOCOL_VERSION@)),
        ("capabilities"@, capabilities@),
        ("clientInfo"@, client_info@),
    ]);
    request(id, "initialize", Json::Object(params))
}

/// The notice that the session is open. It has no id: there is no answer.
pub fn initialized_notice() -> (res: Json)
    ensures
        res@ == object(
            seq![
                ("jsonrpc"@, JsonView::Text("2.0"@)),
                ("method"@, JsonView::Text("notifications/initialized"@)),
            ],
        ),
{
    let mut members = no_members();
    add_text(&mut members, "jsonrpc", "2.0");
    add_text(&mut members, "method", "notifications/initialized");
    assert(members_of(members) =~= seq![
        ("jsonrpc"@, JsonView::Text("2.0"@)),
        ("method"@, JsonView::Text("notifications/initialized"@)),
    ]);
    Json::Object(members)
}

/// The request that calls a tool.
pub fn tool_request(id: u64, name: &str, arguments: Json) -> (res: Json)
    ensures
        res@ == request_of(
            id,
            "tools/call"@,
            object(seq![("name"@, JsonView::Text(name@)), ("arguments"@, arguments@)]),
        ),
{
    let mut params = no_members();
    add_text(&mut params, "name", name);
    add_member(&mut params, "arguments", arguments);
    assert(members_of(params) =~= seq![
        ("name"@, JsonView::Text(name@)),
        ("arguments"@, arguments@),
    ]);
    request(id, "tools/call", Json::Object(params))
}

/// The arguments of `get_variable_defs`.
pub fn variable_defs_arguments(node_id: &str) -> (res: Json)
    ensures
        res@ == object(
            seq![
                ("nodeId"@, JsonView::Text(node_id@)),
                ("clientFrameworks"@, JsonView::Text("react"@)),
                ("clientLanguages"@, JsonView::Text("typescript"@)),
            ],
        ),
{
    let mut members = no_members();
    add_text(&mut members, "nodeId", node_id);
    add_text(&mut members, "clientFrameworks", "react");
    add_text(&mut members, "clientLanguages", "typescript");
    assert(members_of(members) =~= seq![
        ("nodeId"@, JsonView::Text(node_id@)),
        ("clientFrameworks"@, JsonView::Text("react"@)),
        ("clientLanguages"@, JsonView::Text("typescript"@)),
    ]);
    Json::Object(members)
}

/// The arguments of `get_screenshot`.
pub fn screenshot_arguments(node_id: &str, contents_only: bool) -> (res: Json)
    ensures
        res@ == object(
            seq![
                ("nodeId"@, JsonView::Text(node_id@)),
                ("contentsOnly"@, JsonView::Bool(contents_only)),
            ],
        ),
{
    let mut members = no_members();
    add_text(&mut members, "nodeId", node_id);
    add_member(&mut members, "contentsOnly", Json::Bool(contents_only));
    assert(members_of(members) =~= seq![
        ("nodeId"@, JsonView::Text(node_id@)),
        ("contentsOnly"@, JsonView::Bool(contents_only)),
    ]);
    Json::Object(members)
}

/// The arguments of `get_design_context`, without the directory for assets.
pub open spec fn design_context_members(node_id: Seq<char>) -> Seq<(Seq<char>, JsonView)> {
    seq![
        ("nodeId"@, JsonView::Text(node_id)),
        ("forceCode"@, JsonView::Bool(true)),
        ("clientFrameworks"@, JsonView::Text("react"@)),
        ("clientLanguages"@, JsonView::Text("typescript"@)),
    ]
}

/// The arguments of `get_design_context`, with the directory that assets are
/// written to where one is given.
pub fn design_context_arguments(node_id: &str, assets_dir: Option<&str>) -> (res: Json)
    ensures
        res@ == object(
            match assets_dir {
                Some(dir) => design_context_members(node_id@).push(
                    ("dirForAssetWrites"@, JsonView::Text(dir@)),
                ),
                None => design_context_members(node_id@),
            },
        ),
{
    let mut members = no_members();
    add_text(&mut members, "nodeId", node_id);
    add_member(&mut members, "forceCode", Json::Bool(true));
    add_text(&mut members, "clientFrameworks", "react");
    add_text(&mut members, "clientLanguages", "typescript");
    assert(members_of(members) =~= design_context_members(node_id@));
    if let Some(dir) = assets_dir {
        add_text(&mut members, "dirForAssetWrites", dir);
    }
    Json::Object(members)
}

// ---------------------------------------------------------------------------
// The session
// ---------------------------------------------------------------------------

/// What is known of a session.
#[derive(Debug)]
pub struct Session {
    /// What the server calls the session.
    pub session_id: Option<String>,
    /// The version of the protocol that the server speaks.
    pub protocol_version: Option<String>,
    /// The id of the next request.
    pub next_id: u64,
}

/// The session with its texts taken by view.
pub struct SessionView {
    pub session_id: Option<Seq<char>>,
    pub protocol_version: Option<Seq<char>>,
    pub next_id: u64,
}

impl View for Session {
    type V = SessionView;

    open spec fn view(&self) -> SessionView {
        SessionView {
            session_id: text_or_none(self.session_id),
            protocol_version: text_or_none(self.protocol_version),
            next_id: self.next_id,
        }
    }
}

/// The id behind `id`; behind the last comes zero.
pub open spec fn id_after(id: u64) -> u64 {
    if id == u64::MAX {
        0
    } else {
        (id + 1) as u64
    }
}

/// The headers that go with every request: the forms in which it comes and in
/// which the answer may come, what the server calls the session and the
/// version that it speaks, as far as these are known.
pub open spec fn headers_of(s: SessionView) -> Seq<(Seq<char>, Seq<char>)> {
    let forms = seq![
        ("Accept"@, "application/json, text/event-stream"@),
        ("Content-Type"@, "application/json"@),
    ];
    let first = match s.session_id {
        Some(id) => forms.push(("Mcp-Session-Id"@, id)),
        None => forms,
    };
    match s.protocol_version {
        Some(version) => first.push(("MCP-Protocol-Version"@, version)),
        None => first,
    }
}

/// The session once it was opened by an answer with the given header and
/// result: what the answer does not say stays as it was.
pub open spec fn opened(s: SessionView, header: Option<Seq<char>>, result: JsonView) -> SessionView {
    SessionView {
        session_id: match header {
            Some(id) => Some(id),
            None => s.session_id,
        },
        protocol_version: match json_text(member(result, "protocolVersion"@)) {
            Some(version) => Some(version),
            None => s.protocol_version,
        },
        ..s
    }
}

/// Headers with their texts taken by view.
pub open spec fn headers_view(l: Seq<(String, String)>) -> Seq<(Seq<char>, Seq<char>)> {
    l.map_values(|h: (String, String)| (h.0@, h.1@))
}

impl Session {
    /// A session that is not open yet.
    pub fn new() -> (res: Self)
        ensures
            res@ == (SessionView { session_id: None, protocol_version: None, next_id: 1 }),
    {
        Session { session_id: None, protocol_version: None, next_id: 1 }
    }

    /// The id for a request. No other request gets it.
    pub fn take_id(&mut self) -> (res: u64)
        ensures
            res == old(self)@.next_id,
            final(self)@ == (SessionView { next_id: id_after(res), ..old(self)@ }),
    {
        let id: u64 = self.next_id;
        self.next_id = if id == u64::MAX {
            0
        } else {
            id + 1
        };
        id
    }

    /// The headers that go with a request.
    pub fn headers(&self) -> (res: Vec<(String, String)>)
        ensures
            headers_view(res@) == headers_of(self@),
    {
        let mut res: Vec<(String, String)> = Vec::new();
        res.push(("Accept".to_string(), "application/json, text/event-stream".to_string()));
        res.push(("Content-Type".to_string(), "application/json".to_string()));
        if let Some(id) = &self.session_id {
            res.push(("Mcp-Session-Id".to_string(), id.clone()));
        }
        if let Some(version) = &self.protocol_version {
            res.push(("MCP-Protocol-Version".to_string(), version.clone()));
        }
        assert(headers_view(res@) =~= headers_of(self@));
        res
    }

    /// Keep what the answer to the first request says: the header that names
    /// the session, and the version in the result.
    pub fn open(&mut self, header: Option<String>, result: &Json)
        ensures
            final(self)@ == opened(old(self)@, text_or_none(header), result@),
    {
        if header.is_some() {
            self.session_id = header;
        }
        if let Some(version) = result.get_text("protocolVersion") {
            self.protocol_version = Some(version.to_string());
        }
    }
}

/// What a session is called, and the version that was agreed on, are sent with
/// every request from then on, unless the server says otherwise.
pub proof fn law_session_is_echoed(
    s: SessionView,
    id: Seq<char>,
    version: Seq<char>,
    result: JsonView,
)
    requires
        json_text(member(result, "protocolVersion"@)) == Some(version),
    ensures
        headers_of(opened(s, Some(id), result)) == seq![
            ("Accept"@, "application/json, text/event-stream"@),
            ("Content-Type"@, "application/json"@),
            ("Mcp-Session-Id"@, id),
            ("MCP-Protocol-Version"@, version),
        ],
        forall|later: JsonView|
            json_text(#[trigger] member(later, "protocolVersion"@)) is None ==> headers_of(
                opened(opened(s, Some(id), result), None, later),
            ) == headers_of(opened(s, Some(id), result)),
{
    assert(headers_of(opened(s, Some(id), result)) =~= seq![
        ("Accept"@, "application/json, text/event-stream"@),
        ("Content-Type"@, "application/json"@),
        ("Mcp-Session-Id"@, id),
        ("MCP-Protocol-Version"@, version),
    ]);
}

/// Requests do not change the headers of those that follow.
pub proof fn law_ids_leave_headers(s: SessionView, id: u64)
    ensures
        headers_of(SessionView { next_id: id, ..s }) == headers_of(s),
{
}

// ---------------------------------------------------------------------------
// Opening a session
// ---------------------------------------------------------------------------

/// How far the opening of a session is.
#[derive(Clone, Copy, PartialEq, Eq, Structural, Debug)]
pub enum Opening {
    /// The first request has been sent, with this id.
    Asked(u64),
    /// The notice has been sent.
    Noticed,
    Open,
}

/// What the server did.
#[derive(Debug)]
pub enum Event {
    /// It refused the last message.
    Refused,
    /// It answered the first request with this result, and named the session.
    Answered { session_header: Option<String>, result: Json },
    /// It took the notice.
    Accepted,
}

/// What to do next.
#[derive(Clone, Copy, PartialEq, Eq, Structural, Debug)]
pub enum Action {
    SendNotice,
    /// The session is open.
    Finish,
    /// The first request was refused.
    FailRequest,
    /// The notice was refused.
    FailNotice,
    /// The event does not fit.
    Ignore,
}

/// What follows from an event: the next step, what to do, and what is known of
/// the session.
pub open spec fn after_event(s: SessionView, at: Opening, event: Event) -> (
    Opening,
    Action,
    SessionView,
) {
    match (at, event) {
        (Opening::Asked(_), Event::Refused) => (at, Action::FailRequest, s),
        (Opening::Asked(_), Event::Answered { session_header, result }) => (
            Opening::Noticed,
            Action::SendNotice,
            opened(s, text_or_none(session_header), result@),
        ),
        (Opening::Noticed, Event::Refused) => (at, Action::FailNotice, s),
        (Opening::Noticed, Event::Accepted) => (Opening::Open, Action::Finish, s),
        _ => (at, Action::Ignore, s),
    }
}

impl Session {
    /// Start to open the session: the step that it is at, and the first
    /// request.
    pub fn ask(&mut self, client: &str, version: &str) -> (res: (Opening, Json))
        ensures
            res.0 == Opening::Asked(old(self)@.next_id),
            final(self)@ == (SessionView { next_id: id_after(old(self)@.next_id), ..old(self)@ }),
            res.1@ == initialize_body(old(self)@.next_id, client@, version@),
    {
        let id: u64 = self.take_id();
        (Opening::Asked(id), initialize_request(id, client, version))
    }

    /// Take in what the server did.
    pub fn step(&mut self, at: Opening, event: Event) -> (res: (Opening, Action))
        ensures
            (res.0, res.1, final(self)@) == after_event(old(self)@, at, event),
    {
        match (at, event) {
            (Opening::Asked(_), Event::Refused) => (at, Action::FailRequest),
            (Opening::Asked(_), Event::Answered { session_header, result }) => {
                self.open(session_header, &result);
                (Opening::Noticed, Action::SendNotice)
            },
            (Opening::Noticed, Event::Refused) => (at, Action::FailNotice),
            (Opening::Noticed, Event::Accepted) => (Opening::Open, Action::Finish),
            _ => (at, Action::Ignore),
        }
    }
}

/// A session is open only after the first request was answered and the notice
/// taken.
pub proof fn law_opening_takes_both_steps(s: SessionView, at: Opening, event: Event)
    ensures
        after_event(s, at, event).1 == Action::Finish ==> at == Opening::Noticed && event
            is Accepted,
        after_event(s, at, event).0 == Opening::Noticed && at != Opening::Noticed ==> at is Asked
            && event is Answered,
{
}

/// Once a session was opened, every request carries the name that the answer
/// to the first one gave it and the version that it agreed on, not the one that
/// was asked for.
pub proof fn law_handshake(
    s: SessionView,
    id: u64,
    header: String,
    version: Seq<char>,
    result: Json,
)
    requires
        json_text(member(result@, "protocolVersion"@)) == Some(version),
    ensures
        ({
            let answered = Event::Answered { session_header: Some(header), result };
            let first = after_event(s, Opening::Asked(id), answered);
            let second = after_event(first.2, first.0, Event::Accepted);
            &&& first.1 == Action::SendNotice
            &&& second.0 == Opening::Open
            &&& second.1 == Action::Finish
            &&& headers_of(second.2) == seq![
                ("Accept"@, "application/json, text/event-stream"@),
                ("Content-Type"@, "application/json"@),
                ("Mcp-Session-Id"@, header@),
                ("MCP-Protocol-Version"@, version),
            ]
        }),
{
    law_session_is_echoed(s, header@, version, result@);
}

/// The ids of requests that follow each other are numbers that do.
pub proof fn law_ids_follow(id: u64)
    ensures
        id < u64::MAX ==> id_after(id) == id + 1,
        id_after(id) != id,
{
}

/// A request says what it asks for: its id, its method and its parameters can
/// be read from it, beside the version of the protocol for requests.
pub proof fn law_request(id: u64, method: Seq<char>, params: JsonView)
    ensures
        ({
            let j = request_of(id, method, params);
            &&& member(j, "jsonrpc"@) == Some(JsonView::Text("2.0"@))
            &&& member(j, "id"@) == Some(natural(id))
            &&& member(j, "method"@) == Some(JsonView::Text(method))
            &&& member(j, "params"@) == Some(params)
            &&& member(j, "result"@) is None
        }),
{
    reveal_strlit("jsonrpc");
    reveal_strlit("id");
    reveal_strlit("method");
    reveal_strlit("params");
    reveal_strlit("result");
    let members = seq![
        ("jsonrpc"@, JsonView::Text("2.0"@)),
        ("id"@, natural(id)),
        ("method"@, JsonView::Text(method)),
        ("params"@, params),
    ];
    assert("method"@[0] != "params"@[0] && "method"@[0] != "result"@[0] && "params"@[0]
        != "result"@[0]);
    assert("jsonrpc"@.len() == 7 && "id"@.len() == 2);
    law_member(members, "jsonrpc"@, 0);
    law_member(members, "id"@, 1);
    law_member(members, "method"@, 2);
    law_member(members, "params"@, 3);
    law_member(members, "result"@, 0);
}

/// The request that opens a session asks for the version of the protocol, and
/// says who asks.
pub proof fn law_initialize(id: u64, client: Seq<char>, version: Seq<char>)
    ensures
        ({
            let j = initialize_body(id, client, version);
            let params = member(j, "params"@)->0;
            let info = member(params, "clientInfo"@)->0;
            &&& member(j, "method"@) == Some(JsonView::Text("initialize"@))
            &&& member(j, "id"@) == Some(natural(id))
            &&& member(params, "protocolVersion"@) == Some(JsonView::Text(PROTOCOL_VERSION@))
            &&& member(info, "name"@) == Some(JsonView::Text(client))
            &&& member(info, "version"@) == Some(JsonView::Text(version))
        }),
{
    reveal_strlit("protocolVersion");
    reveal_strlit("capabilities");
    reveal_strlit("clientInfo");
    reveal_strlit("name");
    reveal_strlit("version");
    let info = seq![("name"@, JsonView::Text(client)), ("version"@, JsonView::Text(version))];
    let params = seq![
        ("protocolVersion"@, JsonView::Text(PROTOCOL_VERSION@)),
        ("capabilities"@, object(seq![])),
        ("clientInfo"@, object(info)),
    ];
    assert("protocolVersion"@.len() == 15 && "capabilities"@.len() == 12 && "clientInfo"@.len()
        == 10 && "name"@.len() == 4 && "version"@.len() == 7);
    assert(params[2].0 == "clientInfo"@ && params[1].0 == "capabilities"@);
    law_request(id, "initialize"@, object(params));
    law_member(params, "protocolVersion"@, 0);
    law_member(params, "clientInfo"@, 2);
    law_member(info, "name"@, 0);
    law_member(info, "version"@, 1);
}

/// The design of a node is asked for by the id of the node, for React and
/// TypeScript, and with its code whatever its size.
pub proof fn law_design_context(node_id: Seq<char>)
    ensures
        ({
            let j = object(design_context_members(node_id));
            &&& member(j, "nodeId"@) == Some(JsonView::Text(node_id))
            &&& member(j, "forceCode"@) == Some(JsonView::Bool(true))
            &&& member(j, "clientFrameworks"@) == Some(JsonView::Text("react"@))
            &&& member(j, "clientLanguages"@) == Some(JsonView::Text("typescript"@))
        }),
{
    reveal_strlit("nodeId");
    reveal_strlit("forceCode");
    reveal_strlit("clientFrameworks");
    reveal_strlit("clientLanguages");
    let members = design_context_members(node_id);
    assert("nodeId"@.len() == 6 && "forceCode"@.len() == 9 && "clientFrameworks"@.len() == 16
        && "clientLanguages"@.len() == 15);
    law_member(members, "nodeId"@, 0);
    law_member(members, "forceCode"@, 1);
    law_member(members, "clientFrameworks"@, 2);
    law_member(members, "clientLanguages"@, 3);
}

/// The headers always name the forms of requests and answers; what the server
/// calls the session and the version are sent exactly where they are known.
pub proof fn law_headers(s: SessionView)
    ensures
        headers_of(s).len() == 2 + (if s.session_id is Some {
            1nat
        } else {
            0
        }) + (if s.protocol_version is Some {
            1nat
        } else {
            0
        }),
        headers_of(s)[0] == ("Accept"@, "application/json, text/event-stream"@),
        headers_of(s)[1] == ("Content-Type"@, "application/json"@),
        s.session_id matches Some(id) ==> headers_of(s)[2] == ("Mcp-Session-Id"@, id),
        s.protocol_version matches Some(v) ==> headers_of(s).last() == ("MCP-Protocol-Version"@, v),
{
}

/// What the server refuses ends the opening, as the step that it was asked for,
/// and nothing is learned of the session; an event that does not belong to a
/// step changes nothing.
pub proof fn law_refusals(s: SessionView, id: u64, event: Event)
    ensures
        after_event(s, Opening::Asked(id), Event::Refused).1 == Action::FailRequest,
        after_event(s, Opening::Noticed, Event::Refused).1 == Action::FailNotice,
        after_event(s, Opening::Asked(id), Event::Refused).2 == s,
        after_event(s, Opening::Noticed, event).2 == s,
        after_event(s, Opening::Open, event) == (Opening::Open, Action::Ignore, s),
        after_event(s, Opening::Asked(id), Event::Accepted) == (
            Opening::Asked(id),
            Action::Ignore,
            s,
        ),
{
}

} // verus!
