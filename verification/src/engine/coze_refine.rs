//! Text refinement through a Coze workflow: what goes into the request, and
//! how the server-sent-event stream that comes back is read.
//!
//! The HTTP exchange itself is done by the caller: [`CozeRefineEngine::plan`]
//! says whether a request is needed and with what, and
//! [`CozeRefineEngine::read_response`] turns the response body into the
//! refined text.

use vstd::prelude::*;

use crate::chars::{
    append_chars, chars_of, decimal_int, i64_decimal, lines, lines_of, starts_with,
    starts_with_chars, string_from_chars, string_of, strip_prefixes, strip_prefixes_chars, trim,
    trim_chars, views,
};
use crate::json::{json_field, json_field_of, JsonField, JsonFieldView};

verus! {

/// Errors of the stream parser.
pub enum SseError {
    /// The body has no line at all.
    EmptyResponse,
    /// No `Message` (or `_interrupt`) event carried an output.
    NoMessageEvents,
    /// The stream ended with an `Error` event whose data is JSON.
    Api { code: i64, message: String },
}

pub enum SseErrorView {
    EmptyResponse,
    NoMessageEvents,
    Api { code: i64, message: Seq<char> },
}

impl View for SseError {
    type V = SseErrorView;

    open spec fn view(&self) -> SseErrorView {
        match self {
            SseError::EmptyResponse => SseErrorView::EmptyResponse,
            SseError::NoMessageEvents => SseErrorView::NoMessageEvents,
            SseError::Api { code, message } => SseErrorView::Api { code: *code, message: message@ },
        }
    }
}

impl SseError {
    /// The text of the error, as the caller reports it.
    pub fn message(&self) -> (r: String)
        ensures
            r@ == sse_error_text(self@),
    {
        match self {
            SseError::EmptyResponse => string_of("Empty response"),
            SseError::NoMessageEvents => string_of("No Message events found in response"),
            SseError::Api { code, message } => {
                let mut v = chars_of("Coze API error ");
                let c = i64_decimal(*code);
                append_chars(&mut v, c.as_slice());
                let sep = chars_of(": ");
                append_chars(&mut v, sep.as_slice());
                let m = chars_of(message.as_str());
                append_chars(&mut v, m.as_slice());
                string_from_chars(v.as_slice())
            },
        }
    }
}

pub open spec fn sse_error_text(e: SseErrorView) -> Seq<char> {
    match e {
        SseErrorView::EmptyResponse => "Empty response"@,
        SseErrorView::NoMessageEvents => "No Message events found in response"@,
        SseErrorView::Api { code, message } => "Coze API error "@ + decimal_int(code as int)
            + ": "@ + message,
    }
}

/// The state of the stream reader between two lines.
pub struct SseState {
    pub event_type: Seq<char>,
    pub data: Seq<char>,
    pub collecting: bool,
    pub outputs: Seq<Seq<char>>,
}

pub open spec fn sse_initial() -> SseState {
    SseState {
        event_type: Seq::empty(),
        data: Seq::empty(),
        collecting: false,
        outputs: Seq::empty(),
    }
}

/// Events whose data carries refined text.
pub open spec fn is_message_event(e: Seq<char>) -> bool {
    e == "Message"@ || e == "_interrupt"@
}

/// The text a field gives when it holds a string.
pub open spec fn field_text(f: JsonFieldView) -> Option<Seq<char>> {
    match f {
        JsonFieldView::Str(o) => Some(o),
        _ => None,
    }
}

/// The output of one event's data: the `output` string of the JSON object
/// that the `content` string of the data holds.
pub open spec fn message_output(data: Seq<char>) -> Option<Seq<char>> {
    if data.len() == 0 {
        None
    } else {
        match json_field_of(data, "content"@) {
            JsonFieldView::Str(c) => field_text(json_field_of(c, "output"@)),
            _ => None,
        }
    }
}

/// The error that an `Error` event reports, from its `error_code` field
/// (`-1` when not an integer) and its `error_message` field (`"unknown"`
/// when not a string); none when the data is not JSON.
pub open spec fn error_from_fields(code: JsonFieldView, message: JsonFieldView) -> Option<(i64, Seq<char>)> {
    match code {
        JsonFieldView::Invalid => None,
        f => {
            let c = match f {
                JsonFieldView::Int(i) => i,
                _ => -1i64,
            };
            let m = match message {
                JsonFieldView::Str(m) => m,
                _ => "unknown"@,
            };
            Some((c, m))
        },
    }
}

/// The error that an `Error` event's data reports, when the data is JSON.
pub open spec fn api_error(data: Seq<char>) -> Option<(i64, Seq<char>)> {
    if data.len() == 0 {
        None
    } else {
        error_from_fields(json_field_of(data, "error_code"@), json_field_of(data, "error_message"@))
    }
}

/// The outputs after an event has ended: the event's output is added when it
/// is a message event with one.
pub open spec fn flush_outputs(st: SseState) -> Seq<Seq<char>> {
    if is_message_event(st.event_type) {
        match message_output(st.data) {
            Some(o) => st.outputs.push(o),
            None => st.outputs,
        }
    } else {
        st.outputs
    }
}

/// How one line of the stream changes the reader's state. Blank lines are
/// skipped; `event:` sets the event type; `data:` starts the data; while data
/// is collected, an `id:` line ends the event and any other line continues
/// the data.
pub open spec fn sse_step(st: SseState, raw: Seq<char>) -> SseState {
    let line = trim(raw);
    if line.len() == 0 {
        st
    } else if starts_with(line, "event:"@) {
        SseState { event_type: trim(strip_prefixes(line, "event:"@)), ..st }
    } else if starts_with(line, "data:"@) {
        SseState { collecting: true, data: trim(strip_prefixes(line, "data:"@)), ..st }
    } else if st.collecting {
        if starts_with(line, "id:"@) {
            SseState {
                event_type: Seq::empty(),
                data: Seq::empty(),
                collecting: false,
                outputs: flush_outputs(st),
            }
        } else {
            SseState { data: st.data + line, ..st }
        }
    } else {
        st
    }
}

/// The reader's state after the given lines.
pub open spec fn sse_fold(ls: Seq<Seq<char>>) -> SseState
    decreases ls.len(),
{
    if ls.len() == 0 {
        sse_initial()
    } else {
        sse_step(sse_fold(ls.drop_last()), ls.last())
    }
}

/// What the stream `body` yields: the concatenated outputs of its message
/// events, or an error.
pub open spec fn sse_result(body: Seq<char>) -> Result<Seq<char>, SseErrorView> {
    let ls = lines(body);
    if ls.len() == 0 {
        Err(SseErrorView::EmptyResponse)
    } else {
        let st = sse_fold(ls);
        let pending = st.collecting && st.data.len() > 0;
        let outputs = if pending {
            flush_outputs(st)
        } else {
            st.outputs
        };
        if pending && st.event_type == "Error"@ && api_error(st.data) is Some {
            let (code, message) = api_error(st.data).unwrap();
            Err(SseErrorView::Api { code, message })
        } else if outputs.len() == 0 {
            Err(SseErrorView::NoMessageEvents)
        } else {
            Ok(outputs.flatten())
        }
    }
}

/// The reader's state after the lines `ls`, read from `st` on.
pub open spec fn sse_fold_from(st: SseState, ls: Seq<Seq<char>>) -> SseState
    decreases ls.len(),
{
    if ls.len() == 0 {
        st
    } else {
        sse_fold_from(sse_step(st, ls[0]), ls.drop_first())
    }
}

proof fn lemma_fold_from_push(st: SseState, ls: Seq<Seq<char>>, x: Seq<char>)
    ensures
        sse_fold_from(st, ls.push(x)) == sse_step(sse_fold_from(st, ls), x),
    decreases ls.len(),
{
    if ls.len() > 0 {
        assert(ls.push(x).drop_first() =~= ls.drop_first().push(x));
        assert(ls.push(x)[0] == ls[0]);
        lemma_fold_from_push(sse_step(st, ls[0]), ls.drop_first(), x);
    } else {
        assert(ls.push(x).drop_first() =~= Seq::<Seq<char>>::empty());
        assert(ls.push(x)[0] == x);
        assert(sse_fold_from(sse_step(st, x), Seq::<Seq<char>>::empty()) == sse_step(st, x));
    }
}

proof fn lemma_fold_is_fold_from(ls: Seq<Seq<char>>)
    ensures
        sse_fold(ls) == sse_fold_from(sse_initial(), ls),
    decreases ls.len(),
{
    if ls.len() > 0 {
        lemma_fold_is_fold_from(ls.drop_last());
        lemma_fold_from_push(sse_initial(), ls.drop_last(), ls.last());
        assert(ls.drop_last().push(ls.last()) =~= ls);
    }
}

proof fn lemma_fold_from_concat(st: SseState, a: Seq<Seq<char>>, b: Seq<Seq<char>>)
    ensures
        sse_fold_from(st, a + b) == sse_fold_from(sse_fold_from(st, a), b),
    decreases a.len(),
{
    if a.len() > 0 {
        assert((a + b).drop_first() =~= a.drop_first() + b);
        assert((a + b)[0] == a[0]);
        lemma_fold_from_concat(sse_step(st, a[0]), a.drop_first(), b);
    } else {
        assert(a + b =~= b);
    }
}

/// A line is read as its trimmed text, so a final `'\r'` changes nothing.
proof fn lemma_step_strip_cr(st: SseState, l: Seq<char>)
    ensures
        sse_step(st, crate::chars::strip_cr(l)) == sse_step(st, l),
{
    crate::chars::lemma_trim_strip_cr(l);
}

/// Reading the lines of `b` closed by a line ending leaves the reader as
/// reading the lines of `b` does.
proof fn lemma_fold_lines_closed(st: SseState, b: Seq<char>)
    ensures
        sse_fold_from(st, crate::chars::lines_closed(b)) == sse_fold_from(st, lines(b)),
    decreases b.len(),
{
    crate::chars::lemma_index_of_bound(b, '\n');
    match crate::chars::index_of(b, '\n') {
        Some(k) => {
            let first = crate::chars::strip_cr(b.subrange(0, k as int));
            let rest = b.subrange((k + 1) as int, b.len() as int);
            let lc = crate::chars::lines_closed(b);
            let ln = lines(b);
            assert(lc == seq![first] + crate::chars::lines_closed(rest));
            assert(ln == seq![first] + lines(rest));
            assert(lc.drop_first() =~= crate::chars::lines_closed(rest));
            assert(ln.drop_first() =~= lines(rest));
            lemma_fold_lines_closed(sse_step(st, first), rest);
        },
        None => {
            lemma_step_strip_cr(st, b);
            let lc = crate::chars::lines_closed(b);
            assert(lc.drop_first() =~= Seq::<Seq<char>>::empty());
            if b.len() == 0 {
                assert(trim(Seq::<char>::empty()) =~= Seq::<char>::empty());
            } else {
                assert(lines(b).drop_first() =~= Seq::<Seq<char>>::empty());
            }
        },
    }
}

/// The event that a line names, read as the stream reader reads an `event:` line.
pub open spec fn event_line_name(line: Seq<char>) -> Seq<char> {
    trim(strip_prefixes(trim(line), "event:"@))
}

/// The data that a `data:` line carries, read as the stream reader reads it.
pub open spec fn data_line_value(line: Seq<char>) -> Seq<char> {
    trim(strip_prefixes(trim(line), "data:"@))
}

/// The reader's state after a stream `body` followed, after a blank line, by
/// an `id:` line, an `event:` line and a `data:` line: collecting the data of
/// the named event, with the outputs that `body` yields.
proof fn lemma_event_block_state(
    body: Seq<char>,
    id_line: Seq<char>,
    event_line: Seq<char>,
    data_line: Seq<char>,
)
    requires
        crate::chars::index_of(id_line, '\n') is None,
        crate::chars::index_of(event_line, '\n') is None,
        crate::chars::index_of(data_line, '\n') is None,
        starts_with(trim(id_line), "id:"@),
        starts_with(trim(event_line), "event:"@),
        starts_with(trim(data_line), "data:"@),
    ensures
        ({
            let whole = body + seq!['\n', '\n'] + id_line + seq!['\n'] + event_line + seq!['\n'] + data_line;
            let st0 = sse_fold(lines(body));
            let st4 = sse_fold(lines(whole));
            &&& lines(whole).len() > 0
            &&& st4.collecting
            &&& st4.event_type == event_line_name(event_line)
            &&& st4.data == data_line_value(data_line)
            &&& st4.outputs == if st0.collecting && st0.data.len() > 0 {
                flush_outputs(st0)
            } else {
                st0.outputs
            }
        }),
{
    reveal_strlit("id:");
    reveal_strlit("event:");
    reveal_strlit("data:");
    let nl = seq!['\n'];
    let e = Seq::<char>::empty();
    let r3 = event_line + nl + data_line;
    let r2 = id_line + nl + r3;
    let r1 = e + nl + r2;
    let whole = body + seq!['\n', '\n'] + id_line + seq!['\n'] + event_line + seq!['\n'] + data_line;
    assert(whole =~= body + nl + r1);
    crate::chars::lemma_lines_joined(body, r1);
    crate::chars::lemma_lines_joined(e, r2);
    crate::chars::lemma_lines_joined(id_line, r3);
    crate::chars::lemma_lines_joined(event_line, data_line);
    crate::chars::lemma_lines_single(id_line);
    crate::chars::lemma_lines_single(event_line);
    crate::chars::lemma_lines_single(data_line);
    crate::chars::lemma_lines_single(e);
    assert(trim(data_line).len() > 0);
    assert(data_line.len() > 0);
    let tail = seq![
        e,
        crate::chars::strip_cr(id_line),
        crate::chars::strip_cr(event_line),
        data_line,
    ];
    assert(crate::chars::lines_closed(e) == seq![crate::chars::strip_cr(e)]);
    assert(crate::chars::strip_cr(e) =~= e);
    assert(lines(whole) =~= crate::chars::lines_closed(body) + tail);
    let ls0 = lines(body);
    let st0 = sse_fold(ls0);
    lemma_fold_is_fold_from(ls0);
    lemma_fold_is_fold_from(lines(whole));
    lemma_fold_from_concat(sse_initial(), crate::chars::lines_closed(body), tail);
    lemma_fold_lines_closed(sse_initial(), body);
    assert(sse_fold(lines(whole)) == sse_fold_from(st0, tail));
    // The blank line.
    let st1 = sse_step(st0, e);
    assert(trim(e) =~= e);
    assert(st1 == st0);
    // The `id:` line.
    lemma_step_strip_cr(st1, id_line);
    let st2 = sse_step(st1, id_line);
    let tid = trim(id_line);
    assert("id:"@[0] == 'i');
    assert(tid.subrange(0, 3)[0] == tid[0]);
    assert(tid[0] == 'i');
    assert("event:"@[0] == 'e');
    assert("data:"@[0] == 'd');
    assert(!starts_with(tid, "event:"@));
    assert(!starts_with(tid, "data:"@));
    // The `event:` line.
    lemma_step_strip_cr(st2, event_line);
    let st3 = sse_step(st2, event_line);
    assert(st3.event_type == event_line_name(event_line));
    assert(st3.outputs == st2.outputs);
    // The `data:` line.
    let st4 = sse_step(st3, data_line);
    let td = trim(data_line);
    assert(td.subrange(0, 5)[0] == td[0]);
    assert(td[0] == 'd');
    assert(!starts_with(td, "event:"@));
    assert(st4.collecting);
    assert(st4.event_type == st3.event_type);
    assert(st4.outputs == st2.outputs);
    let tail1 = tail.drop_first();
    let tail2 = tail1.drop_first();
    let tail3 = tail2.drop_first();
    assert(tail1 =~= seq![crate::chars::strip_cr(id_line), crate::chars::strip_cr(event_line), data_line]);
    assert(tail2 =~= seq![crate::chars::strip_cr(event_line), data_line]);
    assert(tail3 =~= seq![data_line]);
    assert(tail3.drop_first() =~= Seq::<Seq<char>>::empty());
    assert(sse_fold_from(st3, tail3) == sse_fold_from(sse_step(st3, tail3[0]), tail3.drop_first()));
    assert(sse_fold_from(st3, tail3) == st4);
    assert(sse_step(st2, tail2[0]) == st3);
    assert(sse_fold_from(st2, tail2) == sse_fold_from(sse_step(st2, tail2[0]), tail3));
    assert(sse_step(st1, tail1[0]) == st2);
    assert(sse_fold_from(st1, tail1) == sse_fold_from(sse_step(st1, tail1[0]), tail2));
    assert(sse_step(st0, tail[0]) == st1);
    assert(sse_fold_from(st0, tail) == sse_fold_from(sse_step(st0, tail[0]), tail1));
    assert(sse_fold_from(st0, tail) == st4);
    let pending0 = st0.collecting && st0.data.len() > 0;
    let outputs0 = if pending0 { flush_outputs(st0) } else { st0.outputs };
    assert(st2.outputs == outputs0);
}

/// Appending, after a blank line, an event that carries no text (an `id:`
/// line, an `event:` line naming an event other than `Message`, `_interrupt`
/// and `Error`, and a `data:` line) to a stream that yields text leaves that
/// text unchanged.
pub proof fn lemma_sse_append_other_event(
    body: Seq<char>,
    id_line: Seq<char>,
    event_line: Seq<char>,
    data_line: Seq<char>,
)
    requires
        sse_result(body) is Ok,
        crate::chars::index_of(id_line, '\n') is None,
        crate::chars::index_of(event_line, '\n') is None,
        crate::chars::index_of(data_line, '\n') is None,
        starts_with(trim(id_line), "id:"@),
        starts_with(trim(event_line), "event:"@),
        !is_message_event(event_line_name(event_line)),
        event_line_name(event_line) != "Error"@,
        starts_with(trim(data_line), "data:"@),
    ensures
        sse_result(body + seq!['\n', '\n'] + id_line + seq!['\n'] + event_line + seq!['\n'] + data_line)
            == sse_result(body),
{
    lemma_event_block_state(body, id_line, event_line, data_line);
    let whole = body + seq!['\n', '\n'] + id_line + seq!['\n'] + event_line + seq!['\n'] + data_line;
    let st4 = sse_fold(lines(whole));
    assert(flush_outputs(st4) == st4.outputs);
}

/// A stream that ends with an `Error` event whose data is JSON with an
/// integer `error_code` and a string `error_message` is answered with that
/// error, whatever the stream held before it (messages with output too).
pub proof fn lemma_sse_trailing_error(
    body: Seq<char>,
    id_line: Seq<char>,
    event_line: Seq<char>,
    data_line: Seq<char>,
    code: i64,
    message: Seq<char>,
)
    requires
        crate::chars::index_of(id_line, '\n') is None,
        crate::chars::index_of(event_line, '\n') is None,
        crate::chars::index_of(data_line, '\n') is None,
        starts_with(trim(id_line), "id:"@),
        starts_with(trim(event_line), "event:"@),
        event_line_name(event_line) == "Error"@,
        starts_with(trim(data_line), "data:"@),
        data_line_value(data_line).len() > 0,
        json_field_of(data_line_value(data_line), "error_code"@) == JsonFieldView::Int(code),
        json_field_of(data_line_value(data_line), "error_message"@) == JsonFieldView::Str(message),
    ensures
        sse_result(body + seq!['\n', '\n'] + id_line + seq!['\n'] + event_line + seq!['\n'] + data_line)
            == Err::<Seq<char>, SseErrorView>(SseErrorView::Api { code, message }),
{
    lemma_event_block_state(body, id_line, event_line, data_line);
}

/// The reader's state, in executable form.
struct SseReader {
    event_type: Vec<char>,
    data: Vec<char>,
    collecting: bool,
    outputs: Vec<Vec<char>>,
}

impl View for SseReader {
    type V = SseState;

    closed spec fn view(&self) -> SseState {
        SseState {
            event_type: self.event_type@,
            data: self.data@,
            collecting: self.collecting,
            outputs: views(self.outputs@),
        }
    }
}

/// Are the two character sequences equal?
pub fn eq_chars(a: &[char], b: &[char]) -> (r: bool)
    ensures
        r == (a@ == b@),
{
    if a.len() != b.len() {
        return false;
    }
    let mut i: usize = 0;
    while i < a.len()
        invariant
            a@.len() == b@.len(),
            i <= a@.len(),
            forall|j: int| 0 <= j < i ==> a@[j] == b@[j],
        decreases a@.len() - i,
    {
        if a[i] != b[i] {
            return false;
        }
        i = i + 1;
    }
    assert(a@ =~= b@);
    true
}

fn is_message_event_exec(e: &[char]) -> (r: bool)
    ensures
        r == is_message_event(e@),
{
    let m = chars_of("Message");
    let i = chars_of("_interrupt");
    eq_chars(e, m.as_slice()) || eq_chars(e, i.as_slice())
}

/// The text of a field that holds a string.
pub fn text_of_field(f: JsonField) -> (r: Option<String>)
    ensures
        match r {
            Some(o) => field_text(f@) == Some(o@),
            None => field_text(f@) is None,
        },
{
    match f {
        JsonField::Str(o) => Some(o),
        _ => None,
    }
}

/// The code and message of an `Error` event, from its `error_code` and
/// `error_message` fields.
pub fn error_of_fields(code: JsonField, message: JsonField) -> (r: Option<(i64, String)>)
    ensures
        match r {
            Some((c, m)) => error_from_fields(code@, message@) == Some((c, m@)),
            None => error_from_fields(code@, message@) is None,
        },
{
    match code {
        JsonField::Invalid => None,
        f => {
            let c: i64 = match f {
                JsonField::Int(i) => i,
                _ => -1,
            };
            let m = match message {
                JsonField::Str(m) => m,
                _ => string_of("unknown"),
            };
            Some((c, m))
        },
    }
}

/// The `output` string inside the `content` string of an event's data
/// (`extract_output_from_data`).
fn extract_output_from_data(data: &[char]) -> (r: Option<Vec<char>>)
    ensures
        match r {
            Some(o) => message_output(data@) == Some(o@),
            None => message_output(data@) is None,
        },
{
    if data.len() == 0 {
        return None;
    }
    let text = string_from_chars(data);
    match json_field(text.as_str(), "content") {
        JsonField::Str(c) => match text_of_field(json_field(c.as_str(), "output")) {
            Some(o) => Some(chars_of(o.as_str())),
            None => None,
        },
        _ => None,
    }
}

/// The code and message of an `Error` event's data (`extract_error_from_data`).
fn extract_error_from_data(data: &[char]) -> (r: Option<(i64, String)>)
    ensures
        match r {
            Some((c, m)) => api_error(data@) == Some((c, m@)),
            None => api_error(data@) is None,
        },
{
    if data.len() == 0 {
        return None;
    }
    let text = string_from_chars(data);
    let code = json_field(text.as_str(), "error_code");
    let message = json_field(text.as_str(), "error_message");
    error_of_fields(code, message)
}

impl SseReader {
    fn flush(&mut self)
        ensures
            final(self)@.outputs == flush_outputs(old(self)@),
            final(self)@.event_type == old(self)@.event_type,
            final(self)@.data == old(self)@.data,
            final(self)@.collecting == old(self)@.collecting,
    {
        if is_message_event_exec(self.event_type.as_slice()) {
            if let Some(o) = extract_output_from_data(self.data.as_slice()) {
                let ghost before = self.outputs@;
                self.outputs.push(o);
                proof {
                    assert(views(self.outputs@) =~= views(before).push(o@));
                }
            }
        }
    }

    fn step(&mut self, raw: &[char])
        ensures
            final(self)@ == sse_step(old(self)@, raw@),
    {
        let line = trim_chars(raw);
        if line.len() == 0 {
            return;
        }
        let ev = chars_of("event:");
        let da = chars_of("data:");
        let id = chars_of("id:");
        if starts_with_chars(line.as_slice(), ev.as_slice()) {
            let stripped = strip_prefixes_chars(line.as_slice(), ev.as_slice());
            self.event_type = trim_chars(stripped.as_slice());
        } else if starts_with_chars(line.as_slice(), da.as_slice()) {
            let stripped = strip_prefixes_chars(line.as_slice(), da.as_slice());
            self.collecting = true;
            self.data = trim_chars(stripped.as_slice());
        } else if self.collecting {
            if starts_with_chars(line.as_slice(), id.as_slice()) {
                self.flush();
                self.event_type = Vec::new();
                self.data = Vec::new();
                self.collecting = false;
            } else {
                append_chars(&mut self.data, line.as_slice());
            }
        }
    }
}

/// Reads a Coze `stream_run` response: the concatenated `output` strings of
/// its `Message` and `_interrupt` events, or why there are none.
pub fn parse_sse_output(body: &str) -> (r: Result<String, SseError>)
    ensures
        match r {
            Ok(s) => sse_result(body@) == Ok::<Seq<char>, SseErrorView>(s@),
            Err(e) => sse_result(body@) == Err::<Seq<char>, SseErrorView>(e@),
        },
{
    let b = chars_of(body);
    let ls = lines_of(b.as_slice());
    if ls.len() == 0 {
        return Err(SseError::EmptyResponse);
    }
    let mut st = SseReader {
        event_type: Vec::new(),
        data: Vec::new(),
        collecting: false,
        outputs: Vec::new(),
    };
    proof {
        assert(views(st.outputs@) =~= Seq::<Seq<char>>::empty());
        assert(st.event_type@ =~= Seq::<char>::empty());
        assert(st.data@ =~= Seq::<char>::empty());
        assert(st@ == sse_initial());
        assert(views(ls@).take(0) =~= Seq::<Seq<char>>::empty());
    }
    let mut i: usize = 0;
    while i < ls.len()
        invariant
            i <= ls@.len(),
            views(ls@) == lines(body@),
            st@ == sse_fold(views(ls@).take(i as int)),
        decreases ls@.len() - i,
    {
        st.step(ls[i].as_slice());
        proof {
            let t = views(ls@).take(i + 1);
            assert(t.drop_last() =~= views(ls@).take(i as int));
            assert(t.last() == ls@[i as int]@);
        }
        i = i + 1;
    }
    proof {
        assert(views(ls@).take(ls@.len() as int) =~= views(ls@));
    }
    let pending = st.collecting && st.data.len() > 0;
    if pending {
        st.flush();
        let err = chars_of("Error");
        if eq_chars(st.event_type.as_slice(), err.as_slice()) {
            if let Some((code, message)) = extract_error_from_data(st.data.as_slice()) {
                return Err(SseError::Api { code, message });
            }
        }
    }
    if st.outputs.len() == 0 {
        return Err(SseError::NoMessageEvents);
    }
    let mut out: Vec<char> = Vec::new();
    let mut k: usize = 0;
    while k < st.outputs.len()
        invariant
            k <= st.outputs@.len(),
            out@ == views(st.outputs@).take(k as int).flatten(),
        decreases st.outputs@.len() - k,
    {
        proof {
            views(st.outputs@).take(k as int).lemma_flatten_push(st.outputs@[k as int]@);
            assert(views(st.outputs@).take(k + 1) =~= views(st.outputs@).take(k as int).push(
                st.outputs@[k as int]@,
            ));
        }
        append_chars(&mut out, st.outputs[k].as_slice());
        k = k + 1;
    }
    proof {
        assert(views(st.outputs@).take(k as int) =~= views(st.outputs@));
    }
    Ok(string_from_chars(out.as_slice()))
}

/// The Coze workflow engine; the HTTP call itself is made by the caller with
/// the timeout held here.
pub struct CozeRefineEngine {
    timeout_secs: u64,
}

/// Why a Coze refinement did not produce text.
pub enum CozeError {
    MissingApiKey,
    MissingWorkflowId,
    EmptyBody,
    EmptyOutput,
    Stream(SseError),
}

/// What to do for a refinement request.
pub enum CozePlan {
    /// The trimmed input is empty: it is the answer, no request is made.
    Done(String),
    /// Send the trimmed `input` to workflow `workflow_id` with `api_key`.
    Send { input: String, api_key: String, workflow_id: String },
}

impl CozeRefineEngine {
    pub fn new(timeout_secs: u64) -> (r: Self)
        ensures
            r.timeout_secs() == timeout_secs,
    {
        CozeRefineEngine { timeout_secs }
    }

    pub closed spec fn spec_timeout_secs(&self) -> u64 {
        self.timeout_secs
    }

    #[verifier::when_used_as_spec(spec_timeout_secs)]
    pub fn timeout_secs(&self) -> (r: u64)
        ensures
            r == self.spec_timeout_secs(),
    {
        self.timeout_secs
    }

    /// The first half of `refine`: trim the input; an empty input is its own
    /// answer; otherwise both the API key and the workflow id are needed.
    pub fn plan(text: &str, api_key: Option<String>, workflow_id: Option<String>) -> (r: Result<
        CozePlan,
        CozeError,
    >)
        ensures
            trim(text@).len() == 0 ==> (r matches Ok(CozePlan::Done(s)) && s@ == trim(text@)),
            trim(text@).len() > 0 && api_key is None ==> r matches Err(CozeError::MissingApiKey),
            trim(text@).len() > 0 && api_key is Some && workflow_id is None ==> r matches Err(
                CozeError::MissingWorkflowId,
            ),
            trim(text@).len() > 0 && api_key is Some && workflow_id is Some ==> (r matches Ok(
                CozePlan::Send { input, api_key: k, workflow_id: w },
            ) && input@ == trim(text@) && k == api_key.unwrap() && w
                == workflow_id.unwrap()),
    {
        let t = trim_chars(chars_of(text).as_slice());
        if t.len() == 0 {
            return Ok(CozePlan::Done(string_from_chars(t.as_slice())));
        }
        let k = match api_key {
            Some(k) => k,
            None => return Err(CozeError::MissingApiKey),
        };
        let w = match workflow_id {
            Some(w) => w,
            None => return Err(CozeError::MissingWorkflowId),
        };
        Ok(CozePlan::Send { input: string_from_chars(t.as_slice()), api_key: k, workflow_id: w })
    }

    /// The second half of `refine`: the refined text in a response body.
    pub fn read_response(body: &str) -> (r: Result<String, CozeError>)
        ensures
            trim(body@).len() == 0 ==> r matches Err(CozeError::EmptyBody),
            trim(body@).len() > 0 ==> match sse_result(body@) {
                Err(e) => r matches Err(CozeError::Stream(e2)) && e2@ == e,
                Ok(o) => if trim(o).len() == 0 {
                    r matches Err(CozeError::EmptyOutput)
                } else {
                    r matches Ok(s) && s@ == o
                },
            },
    {
        let b = chars_of(body);
        if trim_chars(b.as_slice()).len() == 0 {
            return Err(CozeError::EmptyBody);
        }
        match parse_sse_output(body) {
            Err(e) => Err(CozeError::Stream(e)),
            Ok(o) => {
                if trim_chars(chars_of(o.as_str()).as_slice()).len() == 0 {
                    Err(CozeError::EmptyOutput)
                } else {
                    Ok(o)
                }
            },
        }
    }
}

impl CozeError {
    /// The text of the error, as the caller reports it.
    pub fn message(&self) -> (r: String)
        ensures
            r@ == match self {
                CozeError::MissingApiKey => "Coze API key not configured"@,
                CozeError::MissingWorkflowId => "Coze Workflow ID not configured"@,
                CozeError::EmptyBody => "Coze returned empty response"@,
                CozeError::EmptyOutput => "Coze returned empty output"@,
                CozeError::Stream(e) => sse_error_text(e@),
            },
    {
        match self {
            CozeError::MissingApiKey => string_of("Coze API key not configured"),
            CozeError::MissingWorkflowId => string_of("Coze Workflow ID not configured"),
            CozeError::EmptyBody => string_of("Coze returned empty response"),
            CozeError::EmptyOutput => string_of("Coze returned empty output"),
            CozeError::Stream(e) => e.message(),
        }
    }
}

} // verus!
