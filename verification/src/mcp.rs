//! Talking to the Dev Mode server: the events of its streams, its answers, and
//! when a call is tried again.

use vstd::prelude::*;
use vstd::string::*;
use vstd::utf8::{decode_utf8, decode_utf8_encode_utf8, encode_utf8_decode_utf8, valid_utf8};

use crate::chars::{
    chars_of, ends_with, has_prefix, has_suffix, join, joined, law_joined, law_lines,
    law_starts_and_ends, lines_from, position, split_lines, starts_with, strip_prefix, stripped,
    text_or_none, trim, trimmed, views,
};
use crate::content::{blocks_view, BlockView, ContentBlock};
use crate::json::{json_of_text, member, parse_json, Json, JsonView};
use crate::text::{
    bytes_of, cut, find, find_from, lemma_ascii_boundary, lemma_ascii_text, lemma_cut,
    lemma_cut_all, lemma_find_from, lemma_utf8_injective, occurs_at, occurs_in, same, slice, utf8,
};

verus! {

// ---------------------------------------------------------------------------
// Events
// ---------------------------------------------------------------------------

/// One event of a stream: its name, where it has one, and its data.
#[derive(Debug)]
pub struct SseEvent {
    pub event: Option<String>,
    pub data: String,
}

/// An event with its texts taken by view.
pub struct EventView {
    pub event: Option<Seq<char>>,
    pub data: Seq<char>,
}

impl View for SseEvent {
    type V = EventView;

    open spec fn view(&self) -> EventView {
        EventView { event: text_or_none(self.event), data: self.data@ }
    }
}

/// A line without its line end, which is a line feed with or without a
/// carriage return before it.
pub open spec fn without_line_end(line: Seq<char>) -> Seq<char> {
    if ends_with(line, "\n"@) {
        let l = line.drop_last();
        if ends_with(l, "\r"@) {
            l.drop_last()
        } else {
            l
        }
    } else {
        line
    }
}

/// The name and the lines of data of an event, read line by line.
pub open spec fn fields(lines: Seq<Seq<char>>) -> (Option<Seq<char>>, Seq<Seq<char>>)
    decreases lines.len(),
{
    if lines.len() == 0 {
        (None, Seq::empty())
    } else {
        let (event, data) = fields(lines.drop_last());
        let line = without_line_end(lines.last());
        match stripped(line, "event:"@) {
            Some(rest) => (Some(trimmed(rest)), data),
            None => match stripped(line, "data:"@) {
                Some(rest) => (
                    event,
                    data.push(
                        match stripped(rest, " "@) {
                            Some(text) => text,
                            None => rest,
                        },
                    ),
                ),
                None => (event, data),
            },
        }
    }
}

/// The event that a text holds.
pub open spec fn event_of(text: Seq<char>) -> EventView {
    let (event, data) = fields(lines_from(text, 0));
    EventView { event, data: joined(data, "\n"@) }
}

/// Where the first event of a buffer ends, and where the next one starts: at a
/// blank line.
pub open spec fn event_bounds(b: Seq<u8>) -> Option<(int, int)> {
    match find_from(b, utf8("\n\n"@), 0) {
        Some(i) => Some((i, i + 2)),
        None => match find_from(b, utf8("\r\n\r\n"@), 0) {
            Some(i) => Some((i, i + 4)),
            None => None,
        },
    }
}

/// The first event of a buffer, and where the next one starts. There is none
/// while the buffer ends inside a character or holds no blank line.
pub open spec fn first_event(b: Seq<u8>) -> Option<(EventView, int)> {
    match event_bounds(b) {
        Some((end, next)) => if valid_utf8(b) {
            Some((event_of(cut(decode_utf8(b), 0, end)), next))
        } else {
            None
        },
        None => None,
    }
}

/// `std::str::from_utf8`: the bytes as a text, where they are the encoding of
/// one.
#[verifier::external_body]
fn text_from(bytes: &[u8]) -> (res: Option<&str>)
    ensures
        match res {
            Some(text) => utf8(text@) == bytes@,
            None => !valid_utf8(bytes@),
        },
{
    std::str::from_utf8(bytes).ok()
}

fn strip_line_end<'a>(line: &'a str) -> (res: &'a str)
    ensures
        res@ == without_line_end(line@),
{
    proof {
        reveal_strlit("\n");
        reveal_strlit("\r");
    }
    if !has_suffix(line, "\n") {
        return line;
    }
    let n: usize = line.unicode_len();
    let l = line.substring_char(0, n - 1);
    assert(l@ =~= line@.drop_last());
    if has_suffix(l, "\r") {
        let res = l.substring_char(0, n - 2);
        assert(res@ =~= l@.drop_last());
        res
    } else {
        l
    }
}

/// Read the event that a text holds.
pub fn read_event(text: &str) -> (res: SseEvent)
    ensures
        res@ == event_of(text@),
{
    let lines = split_lines(text);
    let ghost all = views(lines@);
    let mut event: Option<String> = None;
    let mut data: Vec<String> = Vec::new();
    let mut i: usize = 0;
    assert(views(data@) =~= fields(all.take(0)).1);
    while i < lines.len()
        invariant
            i <= lines@.len(),
            all == views(lines@),
            fields(all.take(i as int)) == (text_or_none(event), views(data@)),
        decreases lines@.len() - i,
    {
        let ghost before = views(data@);
        assert(all[i as int] == lines@[i as int]@);
        assert(all.take(i + 1).drop_last() =~= all.take(i as int));
        let line = strip_line_end(lines[i].as_str());
        match strip_prefix(line, "event:") {
            Some(rest) => {
                event = Some(trim(rest).to_string());
            },
            None => match strip_prefix(line, "data:") {
                Some(rest) => {
                    let text: String = match strip_prefix(rest, " ") {
                        Some(text) => text.to_string(),
                        None => rest.to_string(),
                    };
                    data.push(text);
                    assert(views(data@) =~= before.push(text@));
                },
                None => {},
            },
        }
        i += 1;
    }
    assert(all.take(i as int) =~= all);
    SseEvent { event, data: join(&data, "\n") }
}

proof fn lemma_blank_lines()
    ensures
        utf8("\n\n"@) == seq![0x0au8, 0x0a],
        utf8("\r\n\r\n"@) == seq![0x0du8, 0x0a, 0x0d, 0x0a],
{
    reveal_strlit("\n\n");
    reveal_strlit("\r\n\r\n");
    lemma_ascii_text("\n\n"@);
    lemma_ascii_text("\r\n\r\n"@);
    assert(utf8("\n\n"@) =~= seq![0x0au8, 0x0a]);
    assert(utf8("\r\n\r\n"@) =~= seq![0x0du8, 0x0a, 0x0d, 0x0a]);
}

pub proof fn lemma_event_bounds(b: Seq<u8>)
    ensures
        match event_bounds(b) {
            Some((end, next)) => 0 <= end < next <= b.len() && b[end] < 0x80,
            None => true,
        },
{
    lemma_blank_lines();
    lemma_find_from(b, utf8("\n\n"@), 0);
    lemma_find_from(b, utf8("\r\n\r\n"@), 0);
    if let Some(i) = find_from(b, utf8("\n\n"@), 0) {
        assert(b.subrange(i, i + 2)[0] == b[i]);
    } else if let Some(i) = find_from(b, utf8("\r\n\r\n"@), 0) {
        assert(b.subrange(i, i + 4)[0] == b[i]);
    }
}

/// Take the first event out of a buffer. Nothing is taken where it is not
/// complete.
pub fn take_event(buf: &mut Vec<u8>) -> (res: Option<SseEvent>)
    ensures
        match res {
            Some(event) => {
                &&& first_event(old(buf)@) is Some
                &&& (first_event(old(buf)@)->0).0 == event@
                &&& final(buf)@ == old(buf)@.skip((first_event(old(buf)@)->0).1)
                &&& final(buf)@.len() < old(buf)@.len()
            },
            None => first_event(old(buf)@) is None && final(buf)@ == old(buf)@,
        },
{
    let ghost b = buf@;
    let (event, next): (SseEvent, usize) = match text_from(buf.as_slice()) {
        None => {
            return None;
        },
        Some(text) => {
            proof {
                reveal(utf8);
                encode_utf8_decode_utf8(text@);
                vstd::utf8::encode_utf8_valid_utf8(text@);
                lemma_event_bounds(b);
                lemma_cut_all(text@);
            }
            let bytes = bytes_of(text);
            let h: usize = bytes.len();
            assert(h == b.len());
            let (end, next): (usize, usize) = match find(bytes, bytes_of("\n\n"), 0) {
                Some(i) => (i, i + 2),
                None => match find(bytes, bytes_of("\r\n\r\n"), 0) {
                    Some(i) => (i, i + 4),
                    None => {
                        return None;
                    },
                },
            };
            proof {
                lemma_ascii_boundary(text@, end as int);
            }
            (read_event(slice(text, 0, end)), next)
        },
    };
    let rest = buf.split_off(next);
    assert(rest@ =~= b.skip(next as int));
    *buf = rest;
    Some(event)
}

proof fn lemma_found_stays(b: Seq<u8>, more: Seq<u8>, needle: Seq<u8>)
    requires
        find_from(b, needle, 0) is Some,
    ensures
        find_from(b + more, needle, 0) == find_from(b, needle, 0),
{
    let c = b + more;
    let n = needle.len() as int;
    lemma_find_from(b, needle, 0);
    lemma_find_from(c, needle, 0);
    let i = find_from(b, needle, 0)->0;
    assert(c.subrange(i, i + n) =~= b.subrange(i, i + n));
    assert(occurs_at(c, needle, i));
    let j = find_from(c, needle, 0)->0;
    if j < i {
        assert(c.subrange(j, j + n) =~= b.subrange(j, j + n));
        assert(occurs_at(b, needle, j));
    }
}

/// An event that is complete in a buffer is the same whatever comes behind it,
/// be it ended by two line feeds or by two line ends of two characters. Left
/// out is where only what comes behind it brings two line feeds: these end an
/// event before the others do.
pub proof fn law_event_stays(b: Seq<u8>, more: Seq<u8>)
    requires
        valid_utf8(b),
        valid_utf8(b + more),
        occurs_in(b, utf8("\n\n"@)) || (occurs_in(b, utf8("\r\n\r\n"@)) && !occurs_in(
            b + more,
            utf8("\n\n"@),
        )),
    ensures
        first_event(b) is Some,
        first_event(b + more) == first_event(b),
{
    let c = b + more;
    lemma_blank_lines();
    lemma_find_from(b, utf8("\n\n"@), 0);
    lemma_find_from(c, utf8("\n\n"@), 0);
    lemma_find_from(b, utf8("\r\n\r\n"@), 0);
    let needle = if occurs_in(b, utf8("\n\n"@)) {
        utf8("\n\n"@)
    } else {
        utf8("\r\n\r\n"@)
    };
    lemma_found_stays(b, more, needle);
    let i = find_from(b, needle, 0)->0;
    assert(event_bounds(c) == event_bounds(b));
    let (s, t) = (decode_utf8(b), decode_utf8(c));
    reveal(utf8);
    decode_utf8_encode_utf8(b);
    decode_utf8_encode_utf8(c);
    assert(utf8(s) == b && utf8(t) == c);
    lemma_event_bounds(b);
    lemma_ascii_boundary(s, i);
    lemma_ascii_boundary(t, i);
    lemma_cut_all(s);
    lemma_cut_all(t);
    lemma_cut(s, 0, i);
    lemma_cut(t, 0, i);
    assert(b.subrange(0, i) =~= c.subrange(0, i));
    lemma_utf8_injective(cut(s, 0, i), cut(t, 0, i));
}

// ---------------------------------------------------------------------------
// Answers
// ---------------------------------------------------------------------------

/// The natural number that a value is.
pub open spec fn natural_of(j: Option<JsonView>) -> Option<u64> {
    match j {
        Some(JsonView::Number(n)) => n.natural,
        _ => None,
    }
}

/// The id of an answer.
pub open spec fn answer_id(j: JsonView) -> Option<u64> {
    natural_of(member(j, "id"@))
}

fn id_of(j: &Json) -> (res: Option<u64>)
    ensures
        res == answer_id(j@),
{
    match j.get("id") {
        Some(Json::Number(n)) => n.natural,
        _ => None,
    }
}

/// An event that carries an answer: it is called `message` or not at all.
pub open spec fn is_message(event: EventView) -> bool {
    match event.event {
        Some(name) => name == "message"@,
        None => true,
    }
}

/// The answer with the given id that an event carries.
pub open spec fn answer_in(event: EventView, id: u64) -> Option<JsonView> {
    match json_of_text(event.data) {
        Some(j) => if is_message(event) && answer_id(j) == Some(id) {
            Some(j)
        } else {
            None
        },
        None => None,
    }
}

/// The first answer with the given id in a buffer, and what is left of the
/// buffer: what comes behind it, or behind the last complete event where there
/// is no such answer.
pub open spec fn answer_from(b: Seq<u8>, id: u64) -> (Option<EventView>, Seq<u8>)
    decreases b.len(),
{
    proof {
        lemma_event_bounds(b);
    }
    match first_event(b) {
        None => (None, b),
        Some((event, next)) => if answer_in(event, id) is Some {
            (Some(event), b.skip(next))
        } else {
            answer_from(b.skip(next), id)
        },
    }
}

/// Whether an event whose data is the given value carries the answer with the
/// given id.
pub fn carries_answer(event: &SseEvent, value: &Json, id: u64) -> (res: bool)
    ensures
        res == (is_message(event@) && answer_id(value@) == Some(id)),
{
    let named = match &event.event {
        Some(name) => same(name.as_str(), "message"),
        None => true,
    };
    named && id_of(value) == Some(id)
}

/// An answer: its text, and the value that it is.
#[derive(Debug)]
pub struct Answer {
    pub text: String,
    pub value: Json,
}

/// Look for the answer with the given id among the events of a buffer. All the
/// events before it are taken out, and it with them.
pub fn next_answer(buf: &mut Vec<u8>, expected_id: u64) -> (res: Option<Answer>)
    ensures
        final(buf)@ == answer_from(old(buf)@, expected_id).1,
        match (res, answer_from(old(buf)@, expected_id).0) {
            (Some(answer), Some(event)) => {
                &&& answer.text@ == event.data
                &&& answer_in(event, expected_id) == Some(answer.value@)
            },
            (None, None) => true,
            _ => false,
        },
{
    loop
        invariant
            answer_from(buf@, expected_id) == answer_from(old(buf)@, expected_id),
        decreases buf@.len(),
    {
        match take_event(buf) {
            None => {
                return None;
            },
            Some(event) => {
                if let Some(value) = parse_json(event.data.as_str()) {
                    if carries_answer(&event, &value, expected_id) {
                        return Some(Answer { text: event.data, value });
                    }
                }
            },
        }
    }
}

/// An answer that was found has the id that was looked for.
pub proof fn law_answer_has_its_id(b: Seq<u8>, id: u64)
    ensures
        match answer_from(b, id).0 {
            Some(event) => answer_in(event, id) is Some && answer_id(answer_in(event, id)->0)
                == Some(id),
            None => true,
        },
    decreases b.len(),
{
    lemma_event_bounds(b);
    if let Some((event, next)) = first_event(b) {
        if answer_in(event, id) is None {
            law_answer_has_its_id(b.skip(next), id);
        }
    }
}

/// Why an answer gives no result.
#[derive(Debug)]
pub enum AnswerError<'a> {
    /// It says that the call failed.
    Failed(&'a Json),
    /// It is the answer to another call.
    WrongId { id: u64, expected: u64 },
    /// It has no result.
    NoResult,
}

/// The result of an answer. An error in it comes first, then an id that is not
/// the expected one; an answer without an id counts as the expected one.
pub fn extract_result<'a>(value: &'a Json, expected_id: u64) -> (res: Result<
    &'a Json,
    AnswerError<'a>,
>)
    ensures
        match res {
            Ok(result) => {
                &&& member(value@, "error"@) is None
                &&& answer_id(value@) is None || answer_id(value@) == Some(expected_id)
                &&& member(value@, "result"@) == Some(result@)
            },
            Err(AnswerError::Failed(error)) => member(value@, "error"@) == Some(error@),
            Err(AnswerError::WrongId { id, expected }) => {
                &&& member(value@, "error"@) is None
                &&& answer_id(value@) == Some(id)
                &&& id != expected_id
                &&& expected == expected_id
            },
            Err(AnswerError::NoResult) => {
                &&& member(value@, "error"@) is None
                &&& answer_id(value@) is None || answer_id(value@) == Some(expected_id)
                &&& member(value@, "result"@) is None
            },
        },
{
    if let Some(error) = value.get("error") {
        return Err(AnswerError::Failed(error));
    }
    if let Some(id) = id_of(value) {
        if id != expected_id {
            return Err(AnswerError::WrongId { id, expected: expected_id });
        }
    }
    match value.get("result") {
        Some(result) => Ok(result),
        None => Err(AnswerError::NoResult),
    }
}

/// How an answer comes.
#[derive(Clone, Copy, PartialEq, Eq, Structural, Debug)]
pub enum AnswerForm {
    /// As one JSON value.
    Single,
    /// In a stream of events.
    Stream,
    /// In a form that is not understood.
    Unknown,
}

/// How an answer of the given content type comes.
pub open spec fn form_of(content_type: Seq<char>) -> AnswerForm {
    if starts_with(content_type, "application/json"@) {
        AnswerForm::Single
    } else if starts_with(content_type, "text/event-stream"@) {
        AnswerForm::Stream
    } else {
        AnswerForm::Unknown
    }
}

pub fn answer_form(content_type: &str) -> (res: AnswerForm)
    ensures
        res == form_of(content_type@),
{
    if has_prefix(content_type, "application/json") {
        AnswerForm::Single
    } else if has_prefix(content_type, "text/event-stream") {
        AnswerForm::Stream
    } else {
        AnswerForm::Unknown
    }
}

/// Whether the result of a tool says that the tool failed.
pub fn is_error(result: &Json) -> (res: bool)
    ensures
        res == (member(result@, "isError"@) == Some(JsonView::Bool(true))),
{
    match result.get("isError") {
        Some(Json::Bool(b)) => *b,
        _ => false,
    }
}

/// What the result of a tool comes to.
#[derive(Clone, Copy, PartialEq, Eq, Structural, Debug)]
pub enum ToolReply {
    /// It has no content.
    NoContent,
    /// It has content, which says why the tool failed.
    Failed,
    Answered,
}

/// What the result of a tool comes to.
pub fn tool_reply(result: &Json) -> (res: ToolReply)
    ensures
        res == (if member(result@, "content"@) is None {
            ToolReply::NoContent
        } else if member(result@, "isError"@) == Some(JsonView::Bool(true)) {
            ToolReply::Failed
        } else {
            ToolReply::Answered
        }),
{
    if result.get("content").is_none() {
        ToolReply::NoContent
    } else if is_error(result) {
        ToolReply::Failed
    } else {
        ToolReply::Answered
    }
}

/// The texts of the blocks.
pub open spec fn texts_of(blocks: Seq<BlockView>) -> Seq<Seq<char>> {
    blocks.map_values(|b: BlockView| b.text)
}

/// What the blocks of a failed tool say, one line for each.
pub fn error_detail(blocks: &Vec<ContentBlock>) -> (res: String)
    ensures
        res@ == joined(texts_of(blocks_view(blocks@)), "\n"@),
{
    let ghost all = texts_of(blocks_view(blocks@));
    let mut texts: Vec<String> = Vec::new();
    let mut i: usize = 0;
    while i < blocks.len()
        invariant
            i <= blocks@.len(),
            all == texts_of(blocks_view(blocks@)),
            views(texts@) == all.take(i as int),
        decreases blocks@.len() - i,
    {
        let ghost before = views(texts@);
        let text = blocks[i].text.clone();
        assert(all[i as int] == text@);
        texts.push(text);
        i += 1;
        assert(views(texts@) =~= before.push(text@));
        assert(views(texts@) =~= all.take(i as int));
    }
    assert(views(texts@) =~= all);
    join(&texts, "\n")
}

// ---------------------------------------------------------------------------
// Trying again
// ---------------------------------------------------------------------------

/// How often a call is tried while the right tab is not open yet, and how long
/// to wait in between.
#[derive(Clone, Copy, Debug)]
pub struct Retry {
    pub attempts: u32,
    pub interval_ms: u64,
}

impl Retry {
    /// A call is tried once.
    pub fn once() -> (res: Self)
        ensures
            res == (Retry { attempts: 1, interval_ms: 300 }),
    {
        Retry { attempts: 1, interval_ms: 300 }
    }

    /// A call is tried up to `attempts` times, and at least once.
    pub fn with_inactive_retry(attempts: u32, interval_ms: u64) -> (res: Self)
        ensures
            res.interval_ms == interval_ms,
            res.attempts == if attempts == 0 {
                1
            } else {
                attempts
            },
    {
        Retry {
            attempts: if attempts == 0 {
                1
            } else {
                attempts
            },
            interval_ms,
        }
    }
}

/// What an attempt came to.
#[derive(Debug)]
pub enum Attempt {
    Answered,
    /// It failed, with this message.
    Failed(String),
}

/// What to do after an attempt.
#[derive(Clone, Copy, PartialEq, Eq, Structural, Debug)]
pub enum Next {
    /// Hand the answer back; and after how many milliseconds of waiting.
    Return { waited_ms: u64 },
    /// Hand the failure back.
    Fail,
    /// Wait, then try again; and whether to say so.
    Wait { interval_ms: u64, announce: bool },
}

/// The message of a failure that may pass: the node is not in the open tab.
pub open spec fn may_pass(message: Seq<char>) -> bool {
    occurs_in(message, "No node could be found"@)
}

/// What to do after the given attempt, where the first is 1.
pub open spec fn decided(retry: Retry, attempt: u32, outcome: Attempt) -> Next {
    match outcome {
        Attempt::Answered => Next::Return {
            waited_ms: (((attempt - 1) * retry.interval_ms) % 0x1_0000_0000_0000_0000) as u64,
        },
        Attempt::Failed(message) => if !may_pass(message@) || attempt >= retry.attempts {
            Next::Fail
        } else {
            Next::Wait { interval_ms: retry.interval_ms, announce: attempt == 1 }
        },
    }
}

/// Decide what to do after an attempt. The time waited is taken modulo 2^64.
pub fn after_attempt(retry: &Retry, attempt: u32, outcome: &Attempt) -> (res: Next)
    requires
        attempt >= 1,
    ensures
        res == decided(*retry, attempt, *outcome),
{
    match outcome {
        Attempt::Answered => {
            let waited: u64 = ((attempt - 1) as u64).wrapping_mul(retry.interval_ms);
            Next::Return { waited_ms: waited }
        },
        Attempt::Failed(message) => {
            let hay = chars_of(message.as_str());
            let needle = chars_of("No node could be found");
            if position(&hay, &needle, 0).is_none() || attempt >= retry.attempts {
                Next::Fail
            } else {
                Next::Wait { interval_ms: retry.interval_ms, announce: attempt == 1 }
            }
        },
    }
}

/// No call is tried more often than it may be: after the last attempt nothing
/// is waited for.
pub proof fn law_attempts_end(retry: Retry, attempt: u32, outcome: Attempt)
    ensures
        decided(retry, attempt, outcome) is Wait ==> attempt < retry.attempts,
{
}

/// A failure that does not pass is handed back at once.
pub proof fn law_other_failures_are_final(retry: Retry, attempt: u32, message: String)
    requires
        !may_pass(message@),
    ensures
        decided(retry, attempt, Attempt::Failed(message)) == Next::Fail,
{
}

/// An outcome is handed back: it is an answer, it is a failure that does not
/// pass, or no more attempts are left.
pub open spec fn is_final(retry: Retry, attempt: int, outcome: Attempt) -> bool {
    attempt >= retry.attempts || match outcome {
        Attempt::Answered => true,
        Attempt::Failed(message) => !may_pass(message@),
    }
}

/// The attempt that ends a call, from the given one on, where `outcomes` says
/// what each attempt comes to: the calls are made until something else than
/// waiting is decided.
pub open spec fn last_attempt(retry: Retry, outcomes: Seq<Attempt>, attempt: int) -> int
    decreases retry.attempts - attempt,
{
    if 1 <= attempt < retry.attempts && decided(
        retry,
        attempt as u32,
        outcomes[attempt - 1],
    ) is Wait {
        last_attempt(retry, outcomes, attempt + 1)
    } else {
        attempt
    }
}

proof fn lemma_last_attempt(retry: Retry, outcomes: Seq<Attempt>, attempt: int)
    requires
        1 <= attempt <= retry.attempts,
    ensures
        ({
            let k = last_attempt(retry, outcomes, attempt);
            &&& attempt <= k <= retry.attempts
            &&& is_final(retry, k, outcomes[k - 1])
            &&& forall|j: int|
                attempt <= j < k ==> !is_final(retry, j, #[trigger] outcomes[j - 1]) && decided(
                    retry,
                    j as u32,
                    outcomes[j - 1],
                ) == (Next::Wait { interval_ms: retry.interval_ms, announce: j == 1 })
        }),
    decreases retry.attempts - attempt,
{
    if attempt < retry.attempts && decided(
        retry,
        attempt as u32,
        outcomes[attempt - 1],
    ) is Wait {
        lemma_last_attempt(retry, outcomes, attempt + 1);
    }
}

/// Over a whole series of attempts the outcome that is handed back is that of
/// the first attempt that is final. It comes within the given number of
/// attempts, at least one is made, and before each of the others the same time
/// is waited.
pub proof fn law_first_final_attempt(retry: Retry, outcomes: Seq<Attempt>)
    requires
        1 <= retry.attempts,
    ensures
        ({
            let k = last_attempt(retry, outcomes, 1);
            &&& 1 <= k <= retry.attempts
            &&& is_final(retry, k, outcomes[k - 1])
            &&& forall|j: int|
                1 <= j < k ==> !is_final(retry, j, #[trigger] outcomes[j - 1]) && decided(
                    retry,
                    j as u32,
                    outcomes[j - 1],
                ) == (Next::Wait { interval_ms: retry.interval_ms, announce: j == 1 })
            &&& match outcomes[k - 1] {
                Attempt::Answered => decided(retry, k as u32, outcomes[k - 1]) is Return,
                Attempt::Failed(_) => decided(retry, k as u32, outcomes[k - 1]) == Next::Fail,
            }
            &&& retry.attempts == 1 ==> k == 1
        }),
{
    lemma_last_attempt(retry, outcomes, 1);
}

// ---------------------------------------------------------------------------
// Laws
// ---------------------------------------------------------------------------

/// A line end is taken off a line, and nothing else of it.
pub proof fn law_without_line_end(line: Seq<char>)
    requires
        !line.contains('\n'),
    ensures
        line.len() == 0 || line.last() != '\r' ==> without_line_end(line + "\n"@) == line,
        without_line_end(line + "\r\n"@) == line,
        without_line_end(line) == line,
{
    reveal_strlit("\n");
    reveal_strlit("\r");
    reveal_strlit("\r\n");
    let (a, b) = (line + "\n"@, line + "\r\n"@);
    assert(a.subrange(a.len() - 1, a.len() as int) =~= "\n"@);
    assert(a.drop_last() =~= line);
    assert(b.subrange(b.len() - 1, b.len() as int) =~= "\n"@);
    let c = b.drop_last();
    assert(c.subrange(c.len() - 1, c.len() as int) =~= "\r"@);
    assert(c.drop_last() =~= line);
    if ends_with(line, "\r"@) {
        assert(line.subrange(line.len() - 1, line.len() as int)[0] == line.last());
    }
    if ends_with(line, "\n"@) {
        assert(line.subrange(line.len() - 1, line.len() as int)[0] == line.last());
        assert(line.contains(line.last()));
    }
}

/// The lines of an event are read one by one: the data of all of them in their
/// order, and the name that the last line with one gives.
pub proof fn law_fields(a: Seq<Seq<char>>, b: Seq<Seq<char>>)
    ensures
        fields(a + b).1 == fields(a).1 + fields(b).1,
        fields(a + b).0 == (match fields(b).0 {
            Some(name) => Some(name),
            None => fields(a).0,
        }),
    decreases b.len(),
{
    if b.len() == 0 {
        assert(a + b =~= a);
        assert(fields(a).1 + fields(b).1 =~= fields(a).1);
    } else {
        law_fields(a, b.drop_last());
        assert((a + b).drop_last() =~= a + b.drop_last());
        assert((a + b).last() == b.last());
        assert(fields(a + b).1 =~= fields(a).1 + fields(b).1);
    }
}

proof fn lemma_still_one_line(s: Seq<char>, t: Seq<char>)
    requires
        !s.contains('\n'),
        !t.contains('\n'),
    ensures
        !(s + t).contains('\n'),
{
    if (s + t).contains('\n') {
        let i = choose|i: int| 0 <= i < (s + t).len() && (s + t)[i] == '\n';
        if i < s.len() {
            assert(s[i] == '\n');
        } else {
            assert(t[i - s.len()] == '\n');
        }
    }
}

proof fn lemma_one_field(line: Seq<char>)
    requires
        !line.contains('\n'),
    ensures
        fields(seq![line]) == (match stripped(line, "event:"@) {
            Some(rest) => (Some(trimmed(rest)), Seq::<Seq<char>>::empty()),
            None => match stripped(line, "data:"@) {
                Some(rest) => (
                    None,
                    seq![match stripped(rest, " "@) {
                        Some(text) => text,
                        None => rest,
                    }],
                ),
                None => (None, Seq::empty()),
            },
        }),
{
    let none = Seq::<Seq<char>>::empty();
    law_without_line_end(line);
    assert(seq![line].drop_last() =~= none);
    assert(fields(none) == (None::<Seq<char>>, none));
    assert forall|t: Seq<char>| #[trigger] none.push(t) == seq![t] by {
        assert(none.push(t) =~= seq![t]);
    }
}

/// A line of data gives its text, with or without one space in front of it.
pub proof fn law_data_line(text: Seq<char>)
    requires
        !text.contains('\n'),
    ensures
        fields(seq!["data: "@ + text]) == (None::<Seq<char>>, seq![text]),
        text.len() == 0 || text[0] != ' ' ==> fields(seq!["data:"@ + text]) == (
            None::<Seq<char>>,
            seq![text],
        ),
{
    reveal_strlit("data: ");
    reveal_strlit("data:");
    reveal_strlit("event:");
    reveal_strlit(" ");
    let (a, b) = ("data: "@ + text, "data:"@ + text);
    lemma_still_one_line("data: "@, text);
    lemma_still_one_line("data:"@, text);
    lemma_one_field(a);
    lemma_one_field(b);
    law_starts_and_ends("data:"@, " "@ + text, a);
    law_starts_and_ends("data:"@, text, b);
    law_starts_and_ends(" "@, text, text);
    assert(a =~= "data:"@ + (" "@ + text));
    assert(a[0] == 'd' && b[0] == 'd');
    if starts_with(a, "event:"@) {
        assert(a.subrange(0, 6)[0] == a[0]);
    }
    if starts_with(b, "event:"@) {
        assert(b.subrange(0, 6)[0] == b[0]);
    }
    if text.len() > 0 && text[0] != ' ' && starts_with(text, " "@) {
        assert(text.subrange(0, 1)[0] == text[0]);
    }
}

/// A line with the name of the event gives it without white space at its ends;
/// a line that is neither of data nor of the name gives nothing.
pub proof fn law_other_lines(text: Seq<char>, line: Seq<char>)
    requires
        !text.contains('\n'),
        !line.contains('\n'),
    ensures
        fields(seq!["event:"@ + text]) == (Some(trimmed(text)), Seq::<Seq<char>>::empty()),
        !"data:"@.is_prefix_of(line) && !"event:"@.is_prefix_of(line) ==> fields(seq![line]) == (
            None::<Seq<char>>,
            Seq::<Seq<char>>::empty(),
        ),
{
    reveal_strlit("event:");
    lemma_still_one_line("event:"@, text);
    lemma_one_field("event:"@ + text);
    lemma_one_field(line);
    law_starts_and_ends("event:"@, text, line);
    law_starts_and_ends("data:"@, text, line);
}

/// The first event of a buffer ends at the first two line feeds, and where
/// there are none at the first two line ends of two bytes; the next one starts
/// right behind them.
pub proof fn law_event_bounds(b: Seq<u8>, i: int)
    requires
        0 <= i,
    ensures
        i + 2 <= b.len() && b[i] == 10 && b[i + 1] == 10 && (forall|j: int|
            0 <= j < i ==> !(#[trigger] b[j] == 10 && b[j + 1] == 10)) ==> event_bounds(b) == Some(
            (i, i + 2),
        ),
        (forall|j: int| 0 <= j < b.len() - 1 ==> !(#[trigger] b[j] == 10 && b[j + 1] == 10)) && i
            + 4 <= b.len() && b[i] == 13 && b[i + 1] == 10 && b[i + 2] == 13 && b[i + 3] == 10 && (
        forall|j: int|
            0 <= j < i ==> !(#[trigger] b[j] == 13 && b[j + 1] == 10 && b[j + 2] == 13 && b[j + 3]
                == 10)) ==> event_bounds(b) == Some((i, i + 4)),
{
    lemma_blank_lines();
    let (n, c) = (utf8("\n\n"@), utf8("\r\n\r\n"@));
    lemma_find_from(b, n, 0);
    lemma_find_from(b, c, 0);
    assert forall|j: int| occurs_at(b, n, j) <==> 0 <= j && j + 2 <= b.len() && b[j] == 10 && b[j
        + 1] == 10 by {
        if 0 <= j && j + 2 <= b.len() {
            assert(b.subrange(j, j + 2)[0] == b[j] && b.subrange(j, j + 2)[1] == b[j + 1]);
            if b[j] == 10 && b[j + 1] == 10 {
                assert(b.subrange(j, j + 2) =~= n);
            }
        }
    }
    assert forall|j: int| occurs_at(b, c, j) <==> 0 <= j && j + 4 <= b.len() && b[j] == 13 && b[j
        + 1] == 10 && b[j + 2] == 13 && b[j + 3] == 10 by {
        if 0 <= j && j + 4 <= b.len() {
            let s = b.subrange(j, j + 4);
            assert(s[0] == b[j] && s[1] == b[j + 1] && s[2] == b[j + 2] && s[3] == b[j + 3]);
            if b[j] == 13 && b[j + 1] == 10 && b[j + 2] == 13 && b[j + 3] == 10 {
                assert(s =~= c);
            }
        }
    }
    if i + 2 <= b.len() && b[i] == 10 && b[i + 1] == 10 {
        assert(occurs_at(b, n, i));
    }
    if i + 4 <= b.len() && b[i] == 13 && b[i + 1] == 10 && b[i + 2] == 13 && b[i + 3] == 10 {
        assert(occurs_at(b, c, i));
    }
}

/// An answer is what a message carries that has the id as its number.
pub proof fn law_answer_in(event: EventView, id: u64)
    ensures
        match answer_in(event, id) {
            Some(j) => {
                &&& event.event is None || event.event == Some("message"@)
                &&& json_of_text(event.data) == Some(j)
                &&& member(j, "id"@) matches Some(JsonView::Number(n)) && n.natural == Some(id)
            },
            None => {
                ||| event.event matches Some(name) && name != "message"@
                ||| json_of_text(event.data) is None
                ||| !(member(json_of_text(event.data)->0, "id"@) matches Some(JsonView::Number(n))
                    && n.natural == Some(id))
            },
        },
{
}

/// What is left of a buffer behind its first `k` events.
pub open spec fn behind_events(b: Seq<u8>, k: nat) -> Seq<u8>
    decreases k,
{
    if k == 0 {
        b
    } else {
        match first_event(behind_events(b, (k - 1) as nat)) {
            Some((_, next)) => behind_events(b, (k - 1) as nat).skip(next),
            None => behind_events(b, (k - 1) as nat),
        }
    }
}

/// The `k`-th event of a buffer.
pub open spec fn event_at(b: Seq<u8>, k: nat) -> Option<EventView> {
    match first_event(behind_events(b, k)) {
        Some((event, _)) => Some(event),
        None => None,
    }
}

proof fn lemma_behind_first(b: Seq<u8>, k: nat)
    requires
        first_event(b) is Some,
    ensures
        behind_events(b, k + 1) == behind_events(b.skip((first_event(b)->0).1), k),
    decreases k,
{
    assert(behind_events(b, 0) == b);
    if k > 0 {
        lemma_behind_first(b, (k - 1) as nat);
    } else {
        reveal_with_fuel(behind_events, 2);
    }
}

/// The answer is the first event of the buffer that carries it, whatever
/// number of other events come before; and what is left is what comes behind
/// it. Where there is none, no complete event carries it.
pub proof fn law_answer_is_first(b: Seq<u8>, id: u64) -> (k: nat)
    ensures
        forall|j: nat|
            #![trigger event_at(b, j)]
            j < k ==> event_at(b, j) is Some && answer_in(event_at(b, j)->0, id) is None,
        match answer_from(b, id).0 {
            Some(event) => event_at(b, k) == Some(event) && answer_in(event, id) is Some
                && answer_from(b, id).1 == behind_events(b, k + 1),
            None => event_at(b, k) is None && answer_from(b, id).1 == behind_events(b, k),
        },
    decreases b.len(),
{
    lemma_event_bounds(b);
    assert(behind_events(b, 0) == b);
    match first_event(b) {
        None => 0,
        Some((event, next)) => if answer_in(event, id) is Some {
            reveal_with_fuel(behind_events, 2);
            0
        } else {
            let r = b.skip(next);
            let k = law_answer_is_first(r, id);
            lemma_behind_first(b, k);
            lemma_behind_first(b, k + 1);
            assert forall|j: nat|
                #![trigger event_at(b, j)]
                j < k + 1 implies event_at(b, j) is Some && answer_in(
                event_at(b, j)->0,
                id,
            ) is None by {
                if j > 0 {
                    lemma_behind_first(b, (j - 1) as nat);
                    assert(event_at(b, j) == event_at(r, (j - 1) as nat));
                }
            }
            assert(event_at(b, k + 1) == event_at(r, k));
            k + 1
        },
    }
}

/// A failed call is tried again exactly where its message says that no node
/// could be found and attempts are left; the time waited for an answer is that
/// between the attempts.
pub proof fn law_decided(retry: Retry, attempt: u32, message: String, at: int)
    requires
        attempt >= 1,
    ensures
        occurs_at(message@, "No node could be found"@, at) && attempt < retry.attempts ==> decided(
            retry,
            attempt,
            Attempt::Failed(message),
        ) == (Next::Wait { interval_ms: retry.interval_ms, announce: attempt == 1 }),
        attempt >= retry.attempts ==> decided(retry, attempt, Attempt::Failed(message))
            == Next::Fail,
        (forall|j: int| !#[trigger] occurs_at(message@, "No node could be found"@, j)) ==> decided(
            retry,
            attempt,
            Attempt::Failed(message),
        ) == Next::Fail,
        (attempt - 1) * retry.interval_ms <= u64::MAX ==> decided(retry, attempt, Attempt::Answered)
            == (Next::Return { waited_ms: ((attempt - 1) * retry.interval_ms) as u64 }),
{
    lemma_find_from(message@, "No node could be found"@, 0);
    assert(0 <= (attempt - 1) * retry.interval_ms) by (nonlinear_arith)
        requires
            attempt >= 1,
    ;
}

/// An answer comes as one value or as a stream where its content type starts
/// with that of JSON or of event streams, whatever follows.
pub proof fn law_forms(rest: Seq<char>, content_type: Seq<char>)
    ensures
        form_of("application/json"@ + rest) == AnswerForm::Single,
        form_of("text/event-stream"@ + rest) == AnswerForm::Stream,
        form_of(content_type) == AnswerForm::Unknown <==> !"application/json"@.is_prefix_of(
            content_type,
        ) && !"text/event-stream"@.is_prefix_of(content_type),
{
    let (json, stream) = ("application/json"@, "text/event-stream"@);
    reveal_strlit("application/json");
    reveal_strlit("text/event-stream");
    law_starts_and_ends(json, rest, content_type);
    law_starts_and_ends(stream, rest, content_type);
    law_starts_and_ends(json, rest, stream + rest);
    if starts_with(stream + rest, json) {
        assert((stream + rest).subrange(0, json.len() as int)[0] == json[0]);
    }
}

/// An event of one line of data carries just that; of two, both with a line end
/// between them.
pub proof fn law_data_of_event(a: Seq<char>, b: Seq<char>)
    requires
        !a.contains('\n'),
        !b.contains('\n'),
        a.len() == 0 || a.last() != '\r',
        b.len() == 0 || b.last() != '\r',
    ensures
        event_of("data: "@ + a + "\n"@).data == a,
        event_of("data: "@ + a + "\n"@).event is None,
        event_of("data: "@ + a + "\n"@ + ("data: "@ + b + "\n"@)).data == a + "\n"@ + b,
{
    reveal_strlit("data: ");
    reveal_strlit("\n");
    reveal_strlit("data:");
    reveal_strlit("event:");
    reveal_strlit(" ");
    let (p, nl) = ("data: "@, seq!['\n']);
    let (x, y) = (p + a, p + b);
    assert("\n"@ =~= nl);
    lemma_still_one_line(p, a);
    lemma_still_one_line(p, b);
    law_without_line_end(x);
    law_without_line_end(y);
    law_lines(x, Seq::empty());
    law_lines(x, y + nl);
    law_lines(y, Seq::empty());
    law_lines(Seq::empty(), Seq::empty());
    let none: Seq<char> = Seq::empty();
    assert(x + nl + none =~= x + nl);
    assert(y + nl + none =~= y + nl);
    let (k, l) = (seq![x + nl], seq![y + nl]);
    let no_lines: Seq<Seq<char>> = Seq::empty();
    assert(lines_from(none, 0) =~= no_lines);
    assert(k + no_lines =~= k);
    assert(l + no_lines =~= l);
    lemma_data_line(a);
    lemma_data_line(b);
    law_fields(k, l);
    law_joined(seq![a], seq![b], a, "\n"@);
    law_joined(seq![a], seq![b], b, "\n"@);
}

proof fn lemma_data_line(a: Seq<char>)
    requires
        without_line_end("data: "@ + a + "\n"@) == "data: "@ + a,
    ensures
        fields(seq!["data: "@ + a + "\n"@]) == (None::<Seq<char>>, seq![a]),
{
    reveal_strlit("data: ");
    reveal_strlit("data:");
    reveal_strlit("event:");
    reveal_strlit(" ");
    let x = "data: "@ + a;
    let line = x + "\n"@;
    let none: Seq<Seq<char>> = Seq::empty();
    assert(seq![line].drop_last() =~= none);
    law_starts_and_ends("data:"@, " "@ + a, x);
    law_starts_and_ends(" "@, a, x);
    law_starts_and_ends("event:"@, a, x);
    assert(x =~= "data:"@ + (" "@ + a));
    if "event:"@.is_prefix_of(x) {
        assert(x[0] == "event:"@[0]);
    }
    assert(fields(none).1.push(a) =~= seq![a]);
}

} // verus!
