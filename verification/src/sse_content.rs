//! The server-sent events (SSE) content format: events, their text form, and
//! the comparison of an expected event stream with an actual one.
//!
//! A stream is a sequence of lines separated by `'\n'` (carriage returns at the
//! end of a line are dropped). A line `name:value` sets a field of the event
//! being read (`id`, `event`, `data` or `retry`), a line starting with `':'` is
//! a comment, and an empty line ends the event, if any field was set. Several
//! `data` lines are joined with `'\n'`; `id` and `event` values are trimmed of
//! ASCII whitespace; `retry` is kept only when it is a decimal `u64`.
use vstd::prelude::*;

use crate::rules;
use crate::rules::{MatchRule, RuleView};
use crate::text;

verus! {

/// One server-sent event.
pub struct SseEvent {
    pub event: Option<String>,
    pub id: Option<String>,
    pub data: String,
    pub retry: Option<u64>,
}

/// The mathematical content of an [`SseEvent`].
pub struct SseEventView {
    pub event: Option<Seq<char>>,
    pub id: Option<Seq<char>>,
    pub data: Seq<char>,
    pub retry: Option<u64>,
}

pub open spec fn opt_text(o: Option<String>) -> Option<Seq<char>> {
    match o {
        Some(s) => Some(s@),
        None => None,
    }
}

impl View for SseEvent {
    type V = SseEventView;

    open spec fn view(&self) -> SseEventView {
        SseEventView {
            event: opt_text(self.event),
            id: opt_text(self.id),
            data: self.data@,
            retry: self.retry,
        }
    }
}

pub open spec fn events_view(es: Seq<SseEvent>) -> Seq<SseEventView> {
    es.map_values(|e: SseEvent| e@)
}

pub open spec fn empty_event() -> SseEventView {
    SseEventView { event: None, id: None, data: Seq::<char>::empty(), retry: None }
}

pub open spec fn id_field() -> Seq<char> {
    seq!['i', 'd', ':']
}

pub open spec fn event_field() -> Seq<char> {
    seq!['e', 'v', 'e', 'n', 't', ':']
}

pub open spec fn data_field() -> Seq<char> {
    seq!['d', 'a', 't', 'a', ':']
}

pub open spec fn retry_field() -> Seq<char> {
    seq!['r', 'e', 't', 'r', 'y', ':']
}

pub open spec fn starts_with(s: Seq<char>, p: Seq<char>) -> bool {
    p.len() <= s.len() && s.take(p.len() as int) == p
}

// ---------------------------------------------------------------------------
// Reading a stream
// ---------------------------------------------------------------------------

/// Where the reader stands: the events read so far and the event being read.
pub struct ParseState {
    pub events: Seq<SseEventView>,
    pub current: SseEventView,
    /// Whether a field of the current event was set.
    pub has_content: bool,
    /// Whether a `data` line of the current event was read.
    pub data_seen: bool,
}

pub open spec fn initial_state() -> ParseState {
    ParseState {
        events: Seq::<SseEventView>::empty(),
        current: empty_event(),
        has_content: false,
        data_seen: false,
    }
}

/// The state after reading one line (carriage returns at its end already dropped).
pub open spec fn read_line(st: ParseState, line: Seq<char>) -> ParseState {
    if line.len() == 0 {
        if st.has_content {
            ParseState {
                events: st.events.push(st.current),
                current: empty_event(),
                has_content: false,
                data_seen: false,
            }
        } else {
            st
        }
    } else if line[0] == ':' {
        st
    } else if starts_with(line, id_field()) {
        ParseState {
            current: SseEventView { id: Some(text::trim(line.skip(3))), ..st.current },
            has_content: true,
            ..st
        }
    } else if starts_with(line, event_field()) {
        ParseState {
            current: SseEventView { event: Some(text::trim(line.skip(6))), ..st.current },
            has_content: true,
            ..st
        }
    } else if starts_with(line, data_field()) {
        let value = line.skip(5);
        let data = if st.data_seen {
            st.current.data + seq!['\n'] + value
        } else {
            value
        };
        ParseState {
            current: SseEventView { data: data, ..st.current },
            has_content: true,
            data_seen: true,
            ..st
        }
    } else if starts_with(line, retry_field()) {
        let retry = match text::parse_u64(text::trim(line.skip(6))) {
            Some(n) => Some(n),
            None => st.current.retry,
        };
        ParseState { current: SseEventView { retry: retry, ..st.current }, has_content: true, ..st }
    } else {
        st
    }
}

/// The state after reading `lines` in order, starting from `st`.
pub open spec fn read_lines(st: ParseState, lines: Seq<Seq<char>>) -> ParseState
    decreases lines.len(),
{
    if lines.len() == 0 {
        st
    } else {
        read_line(read_lines(st, lines.drop_last()), text::strip_trailing_cr(lines.last()))
    }
}

/// The events that the text `t` holds. A last event that no empty line ends
/// is not part of the result.
pub open spec fn parse_events(t: Seq<char>) -> Seq<SseEventView> {
    read_lines(initial_state(), text::split_lines(t)).events
}

// ---------------------------------------------------------------------------
// Writing a stream
// ---------------------------------------------------------------------------

pub open spec fn optional_line(name: Seq<char>, value: Option<Seq<char>>) -> Seq<Seq<char>> {
    match value {
        Some(v) => seq![name + v],
        None => Seq::<Seq<char>>::empty(),
    }
}

pub open spec fn retry_line(retry: Option<u64>) -> Seq<Seq<char>> {
    match retry {
        Some(n) => seq![retry_field() + text::decimal(n as nat)],
        None => Seq::<Seq<char>>::empty(),
    }
}

pub open spec fn data_line(piece: Seq<char>) -> Seq<char> {
    data_field() + piece
}

/// Whether the text of an event has `data` lines: unless its data is empty and
/// another field is present.
pub open spec fn writes_data(e: SseEventView) -> bool {
    e.data.len() > 0 || (e.id is None && e.event is None && e.retry is None)
}

/// The `data` lines of an event: one per line of its data, if it writes any.
pub open spec fn data_lines(e: SseEventView) -> Seq<Seq<char>> {
    if writes_data(e) {
        text::split_lines(e.data).map_values(|p: Seq<char>| data_line(p))
    } else {
        Seq::<Seq<char>>::empty()
    }
}

/// The lines of an event: `id`, `event` and `retry` where present, its `data`
/// lines, then the empty line that ends the event.
pub open spec fn event_lines(e: SseEventView) -> Seq<Seq<char>> {
    optional_line(id_field(), e.id) + optional_line(event_field(), e.event) + retry_line(e.retry)
        + data_lines(e) + seq![Seq::<char>::empty()]
}

/// The text of one event.
pub open spec fn format_event(e: SseEventView) -> Seq<char> {
    text::join_lines(event_lines(e))
}

pub open spec fn stream_lines(es: Seq<SseEventView>) -> Seq<Seq<char>>
    decreases es.len(),
{
    if es.len() == 0 {
        Seq::<Seq<char>>::empty()
    } else {
        stream_lines(es.drop_last()) + event_lines(es.last())
    }
}

/// The text of a stream: the lines of its events, in order.
pub open spec fn format_events(es: Seq<SseEventView>) -> Seq<char> {
    text::join_lines(stream_lines(es))
}

/// An event whose text reads back as the same event: `id` and `event` hold no
/// newline and no whitespace at their ends, and no line of `data` ends with a
/// carriage return.
pub open spec fn well_formed(e: SseEventView) -> bool {
    &&& (e.id matches Some(s) ==> text::has_no_newline(s) && text::is_trimmed(s))
    &&& (e.event matches Some(s) ==> text::has_no_newline(s) && text::is_trimmed(s))
    &&& forall|i: int|
        0 <= i < text::split_lines(e.data).len() ==> no_trailing_cr(#[trigger] text::split_lines(e.data)[i])
}

pub open spec fn no_trailing_cr(s: Seq<char>) -> bool {
    s.len() == 0 || s.last() != '\r'
}

pub open spec fn all_well_formed(es: Seq<SseEventView>) -> bool {
    forall|i: int| 0 <= i < es.len() ==> well_formed(#[trigger] es[i])
}

// ---------------------------------------------------------------------------
// Reading what was written
// ---------------------------------------------------------------------------

/// A reader between events: nothing of a next event read yet.
pub open spec fn between_events(st: ParseState) -> bool {
    st.current == empty_event() && !st.has_content && !st.data_seen
}

proof fn lemma_read_lines_concat(st: ParseState, a: Seq<Seq<char>>, b: Seq<Seq<char>>)
    ensures
        read_lines(st, a + b) == read_lines(read_lines(st, a), b),
    decreases b.len(),
{
    if b.len() == 0 {
        assert(a + b =~= a);
    } else {
        lemma_read_lines_concat(st, a, b.drop_last());
        assert((a + b).drop_last() =~= a + b.drop_last());
        assert((a + b).last() == b.last());
    }
}

proof fn lemma_read_one_line(st: ParseState, l: Seq<char>)
    ensures
        read_lines(st, seq![l]) == read_line(st, text::strip_trailing_cr(l)),
{
    assert(seq![l].drop_last() =~= Seq::<Seq<char>>::empty());
    assert(seq![l].last() == l);
    assert(read_lines(st, Seq::<Seq<char>>::empty()) == st);
}

proof fn lemma_read_no_lines(st: ParseState)
    ensures
        read_lines(st, Seq::<Seq<char>>::empty()) == st,
{
}

proof fn lemma_strip_keeps(l: Seq<char>)
    requires
        no_trailing_cr(l),
    ensures
        text::strip_trailing_cr(l) == l,
{
}

/// Reading the `data` lines of the pieces `ps` sets the data to the pieces
/// joined with newlines.
proof fn lemma_read_data_lines(st: ParseState, ps: Seq<Seq<char>>)
    requires
        !st.data_seen,
        ps.len() >= 1,
        forall|i: int| 0 <= i < ps.len() ==> no_trailing_cr(#[trigger] ps[i]),
    ensures
        read_lines(st, ps.map_values(|p: Seq<char>| data_line(p))) == (ParseState {
            current: SseEventView { data: text::join_with_newlines(ps), ..st.current },
            has_content: true,
            data_seen: true,
            ..st
        }),
    decreases ps.len(),
{
    let ls = ps.map_values(|p: Seq<char>| data_line(p));
    let init = ps.drop_last();
    assert(ls.drop_last() =~= init.map_values(|p: Seq<char>| data_line(p)));
    let p = ps.last();
    let line = data_line(p);
    assert(ls.last() == line);
    assert(no_trailing_cr(p));
    assert(no_trailing_cr(line)) by {
        if p.len() > 0 {
            assert(line.last() == p.last());
        }
    }
    lemma_strip_keeps(line);
    assert(line[0] == 'd');
    assert(line.take(5) =~= data_field());
    assert(line.skip(5) =~= p);
    assert(!starts_with(line, id_field())) by {
        assert(line.take(3)[0] != id_field()[0]);
    }
    assert(!starts_with(line, event_field())) by {
        if line.len() >= 6 {
            assert(line.take(6)[0] != event_field()[0]);
        }
    }
    assert(read_lines(st, ls) == read_line(read_lines(st, ls.drop_last()), line));
    if ps.len() == 1 {
        assert(init.map_values(|p: Seq<char>| data_line(p)) =~= Seq::<Seq<char>>::empty());
        assert(read_lines(st, ls.drop_last()) == st);
        assert(text::join_with_newlines(ps) == p);
    } else {
        assert forall|i: int| 0 <= i < init.len() implies no_trailing_cr(#[trigger] init[i]) by {
            assert(init[i] == ps[i]);
        }
        lemma_read_data_lines(st, init);
        assert(ps.drop_last() == init);
        assert(text::join_with_newlines(ps) == text::join_with_newlines(init) + seq!['\n'] + p);
    }
}

/// Reading the lines of a well-formed event between events adds that event.
proof fn lemma_read_event(st: ParseState, e: SseEventView)
    requires
        between_events(st),
        well_formed(e),
    ensures
        read_lines(st, event_lines(e)) == (ParseState {
            events: st.events.push(e),
            current: empty_event(),
            has_content: false,
            data_seen: false,
        }),
{
    let l1 = optional_line(id_field(), e.id);
    let l2 = optional_line(event_field(), e.event);
    let l3 = retry_line(e.retry);
    let pieces = text::split_lines(e.data);
    let ld = data_lines(e);
    let le = seq![Seq::<char>::empty()];
    assert(event_lines(e) == l1 + l2 + l3 + ld + le);
    lemma_read_lines_concat(st, l1 + l2 + l3 + ld, le);
    lemma_read_lines_concat(st, l1 + l2 + l3, ld);
    lemma_read_lines_concat(st, l1 + l2, l3);
    lemma_read_lines_concat(st, l1, l2);
    // the `id` line
    let s1 = read_lines(st, l1);
    match e.id {
        Some(v) => {
            let line = id_field() + v;
            lemma_read_one_line(st, line);
            assert(no_trailing_cr(line)) by {
                if v.len() > 0 {
                    assert(line.last() == v.last());
                }
            }
            lemma_strip_keeps(line);
            assert(line.take(3) =~= id_field());
            assert(line.skip(3) =~= v);
            text::lemma_trim_trimmed(v);
            assert(s1.current == SseEventView { id: Some(v), ..empty_event() });
            assert(s1.has_content);
        },
        None => {
            lemma_read_no_lines(st);
        },
    }
    assert(!s1.data_seen);
    assert(s1.events == st.events);
    assert(s1.current.id == e.id);
    assert(s1.current.event is None && s1.current.retry is None);
    assert(s1.current.data.len() == 0);
    // the `event` line
    let s2 = read_lines(s1, l2);
    match e.event {
        Some(v) => {
            let line = event_field() + v;
            lemma_read_one_line(s1, line);
            assert(no_trailing_cr(line)) by {
                if v.len() > 0 {
                    assert(line.last() == v.last());
                }
            }
            lemma_strip_keeps(line);
            assert(line.take(6) =~= event_field());
            assert(line.skip(6) =~= v);
            assert(!starts_with(line, id_field())) by {
                assert(line.take(3)[0] != id_field()[0]);
            }
            text::lemma_trim_trimmed(v);
        },
        None => {
            lemma_read_no_lines(s1);
        },
    }
    assert(!s2.data_seen);
    assert(s2.events == st.events);
    assert(s2.current.id == e.id);
    assert(s2.current.event == e.event);
    assert(s2.current.retry is None);
    assert(s2.current.data.len() == 0);
    // the `retry` line
    let s3 = read_lines(s2, l3);
    match e.retry {
        Some(n) => {
            let digits = text::decimal(n as nat);
            let line = retry_field() + digits;
            lemma_read_one_line(s2, line);
            text::lemma_parse_decimal(n);
            text::lemma_decimal_roundtrip(n as nat);
            assert(line.last() == digits.last());
            assert(no_trailing_cr(line));
            lemma_strip_keeps(line);
            assert(line.take(6) =~= retry_field());
            assert(line.skip(6) =~= digits);
            assert(!starts_with(line, id_field())) by {
                assert(line.take(3)[0] != id_field()[0]);
            }
            assert(!starts_with(line, event_field())) by {
                assert(line.take(6)[0] != event_field()[0]);
            }
            assert(!starts_with(line, data_field())) by {
                assert(line.take(5)[0] != data_field()[0]);
            }
        },
        None => {
            lemma_read_no_lines(s2);
        },
    }
    assert(!s3.data_seen);
    assert(s3.events == st.events);
    assert(s3.current.id == e.id);
    assert(s3.current.event == e.event);
    assert(s3.current.retry == e.retry);
    assert(s3.current.data.len() == 0);
    assert(s3.has_content == (e.id is Some || e.event is Some || e.retry is Some));
    // the `data` lines
    let s4 = read_lines(s3, ld);
    if writes_data(e) {
        text::lemma_split_lines_len(e.data);
        lemma_read_data_lines(s3, pieces);
        text::lemma_join_split(e.data);
    } else {
        lemma_read_no_lines(s3);
        assert(s4.current.data =~= e.data);
    }
    assert(s4.current == e);
    assert(s4.has_content);
    // the empty line
    lemma_read_one_line(s4, Seq::<char>::empty());
}

/// Reading the lines of well-formed events between events adds those events.
proof fn lemma_read_stream(st: ParseState, es: Seq<SseEventView>)
    requires
        between_events(st),
        all_well_formed(es),
    ensures
        read_lines(st, stream_lines(es)) == (ParseState {
            events: st.events + es,
            current: empty_event(),
            has_content: false,
            data_seen: false,
        }),
    decreases es.len(),
{
    if es.len() == 0 {
        assert(st.events + es =~= st.events);
    } else {
        let init = es.drop_last();
        assert(all_well_formed(init)) by {
            assert forall|i: int| 0 <= i < init.len() implies well_formed(#[trigger] init[i]) by {
                assert(init[i] == es[i]);
            }
        }
        lemma_read_stream(st, init);
        lemma_read_lines_concat(st, stream_lines(init), event_lines(es.last()));
        assert(well_formed(es[es.len() - 1]));
        lemma_read_event(read_lines(st, stream_lines(init)), es.last());
        assert(st.events + init.push(es.last()) =~= st.events + es);
        assert(init.push(es.last()) =~= es);
    }
}

/// Every line of an event's text is free of newlines.
proof fn lemma_event_lines_no_newline(e: SseEventView)
    requires
        well_formed(e),
    ensures
        forall|i: int|
            0 <= i < event_lines(e).len() ==> text::has_no_newline(#[trigger] event_lines(e)[i]),
{
    let ls = event_lines(e);
    let pieces = text::split_lines(e.data);
    text::lemma_split_lines_no_newline(e.data);
    text::lemma_decimal_roundtrip(0);
    assert forall|i: int| 0 <= i < ls.len() implies text::has_no_newline(#[trigger] ls[i]) by {
        let l = ls[i];
        assert forall|k: int| 0 <= k < l.len() implies l[k] != '\n' by {
            let l1 = optional_line(id_field(), e.id);
            let l2 = optional_line(event_field(), e.event);
            let l3 = retry_line(e.retry);
            let ld = data_lines(e);
            if i < l1.len() {
                assert(l == id_field() + e.id->0);
            } else if i < l1.len() + l2.len() {
                assert(l == event_field() + e.event->0);
            } else if i < l1.len() + l2.len() + l3.len() {
                text::lemma_decimal_roundtrip(e.retry->0 as nat);
                let d = text::decimal(e.retry->0 as nat);
                assert(l == retry_field() + d);
                if k >= 6 {
                    assert(text::is_digit(d[k - 6]));
                }
            } else if i < l1.len() + l2.len() + l3.len() + ld.len() {
                let j = i - l1.len() - l2.len() - l3.len();
                assert(l == data_line(pieces[j]));
                assert(text::has_no_newline(pieces[j]));
            } else {
                assert(l.len() == 0);
            }
        }
    }
}

proof fn lemma_stream_lines_no_newline(es: Seq<SseEventView>)
    requires
        all_well_formed(es),
    ensures
        forall|i: int|
            0 <= i < stream_lines(es).len() ==> text::has_no_newline(#[trigger] stream_lines(es)[i]),
    decreases es.len(),
{
    if es.len() > 0 {
        let init = es.drop_last();
        assert(all_well_formed(init)) by {
            assert forall|i: int| 0 <= i < init.len() implies well_formed(#[trigger] init[i]) by {
                assert(init[i] == es[i]);
            }
        }
        lemma_stream_lines_no_newline(init);
        assert(well_formed(es[es.len() - 1]));
        lemma_event_lines_no_newline(es.last());
        let a = stream_lines(init);
        let b = event_lines(es.last());
        assert forall|i: int| 0 <= i < (a + b).len() implies text::has_no_newline(#[trigger] (a
            + b)[i]) by {
            if i < a.len() {
                assert((a + b)[i] == a[i]);
            } else {
                assert((a + b)[i] == b[i - a.len()]);
            }
        }
    }
}

/// Law: reading the text of well-formed events gives those events back.
pub proof fn lemma_parse_format_roundtrip(es: Seq<SseEventView>)
    requires
        all_well_formed(es),
    ensures
        parse_events(format_events(es)) == es,
{
    let ls = stream_lines(es);
    lemma_stream_lines_no_newline(es);
    text::lemma_split_join_lines(ls);
    lemma_read_stream(initial_state(), es);
    assert(Seq::<SseEventView>::empty() + es =~= es);
    lemma_read_lines_concat(initial_state(), ls, seq![Seq::<char>::empty()]);
    lemma_read_one_line(read_lines(initial_state(), ls), Seq::<char>::empty());
    assert(ls.push(Seq::<char>::empty()) =~= ls + seq![Seq::<char>::empty()]);
}

/// Law: the bytes that `format_sse_content` writes for well-formed events are
/// valid UTF-8, and `parse_sse_content` reads the same events back from them.
pub proof fn lemma_content_roundtrip(es: Seq<SseEventView>)
    requires
        all_well_formed(es),
    ensures
        vstd::utf8::valid_utf8(vstd::utf8::encode_utf8(format_events(es))),
        parse_events(vstd::utf8::decode_utf8(vstd::utf8::encode_utf8(format_events(es)))) == es,
{
    vstd::utf8::encode_utf8_valid_utf8(format_events(es));
    vstd::utf8::encode_utf8_decode_utf8(format_events(es));
    lemma_parse_format_roundtrip(es);
}

// ---------------------------------------------------------------------------
// What a reader reads is well formed
// ---------------------------------------------------------------------------

pub open spec fn state_well_formed(st: ParseState) -> bool {
    all_well_formed(st.events) && well_formed(st.current)
}

proof fn lemma_read_line_well_formed(st: ParseState, line: Seq<char>)
    requires
        state_well_formed(st),
        text::has_no_newline(line),
        no_trailing_cr(line),
    ensures
        state_well_formed(read_line(st, line)),
{
    let next = read_line(st, line);
    assert(text::split_lines(Seq::<char>::empty()) == seq![Seq::<char>::empty()]);
    if line.len() == 0 {
        if st.has_content {
            assert forall|i: int| 0 <= i < next.events.len() implies well_formed(
                #[trigger] next.events[i],
            ) by {
                if i < st.events.len() {
                    assert(next.events[i] == st.events[i]);
                }
            }
        }
    } else if line[0] == ':' {
    } else if starts_with(line, id_field()) || starts_with(line, event_field()) || starts_with(
        line,
        retry_field(),
    ) {
        let k: int = if starts_with(line, id_field()) {
            3
        } else {
            6
        };
        let v = line.skip(k);
        assert(text::has_no_newline(v)) by {
            assert forall|i: int| 0 <= i < v.len() implies v[i] != '\n' by {
                assert(v[i] == line[i + k]);
            }
        }
        text::lemma_trim_result(v);
    } else if starts_with(line, data_field()) {
        let v = line.skip(5);
        assert(text::has_no_newline(v)) by {
            assert forall|i: int| 0 <= i < v.len() implies v[i] != '\n' by {
                assert(v[i] == line[i + 5]);
            }
        }
        assert(no_trailing_cr(v)) by {
            if v.len() > 0 {
                assert(v.last() == line.last());
            }
        }
        if st.data_seen {
            text::lemma_split_add_line(st.current.data, v);
            let ps = text::split_lines(st.current.data);
            assert forall|i: int|
                0 <= i < ps.push(v).len() implies no_trailing_cr(#[trigger] ps.push(v)[i]) by {
                if i < ps.len() {
                    assert(ps.push(v)[i] == ps[i]);
                }
            }
        } else {
            text::lemma_split_single_line(v);
        }
    }
}

proof fn lemma_read_lines_well_formed(st: ParseState, ls: Seq<Seq<char>>)
    requires
        state_well_formed(st),
        forall|i: int| 0 <= i < ls.len() ==> text::has_no_newline(#[trigger] ls[i]),
    ensures
        state_well_formed(read_lines(st, ls)),
    decreases ls.len(),
{
    if ls.len() > 0 {
        let init = ls.drop_last();
        assert forall|i: int| 0 <= i < init.len() implies text::has_no_newline(#[trigger] init[i]) by {
            assert(init[i] == ls[i]);
        }
        lemma_read_lines_well_formed(st, init);
        let l = ls.last();
        assert(text::has_no_newline(l)) by {
            assert(l == ls[ls.len() - 1]);
        }
        text::lemma_strip_trailing_cr(l);
        let sl = text::strip_trailing_cr(l);
        assert(text::has_no_newline(sl)) by {
            assert forall|i: int| 0 <= i < sl.len() implies sl[i] != '\n' by {
                assert(sl[i] == l[i]);
            }
        }
        lemma_read_line_well_formed(read_lines(st, init), sl);
    }
}

/// Law: every event read from a text is well formed, so that its text reads
/// back as the same event.
pub proof fn lemma_parsed_events_well_formed(t: Seq<char>)
    ensures
        all_well_formed(parse_events(t)),
{
    text::lemma_split_lines_no_newline(t);
    assert(text::split_lines(Seq::<char>::empty()) == seq![Seq::<char>::empty()]);
    assert(state_well_formed(initial_state()));
    lemma_read_lines_well_formed(initial_state(), text::split_lines(t));
}

/// Law: writing the events read from a text, and reading that again, gives the
/// same events.
pub proof fn lemma_parse_format_parse(t: Seq<char>)
    ensures
        parse_events(format_events(parse_events(t))) == parse_events(t),
{
    lemma_parsed_events_well_formed(t);
    lemma_parse_format_roundtrip(parse_events(t));
}

// ---------------------------------------------------------------------------
// The reader and the writer
// ---------------------------------------------------------------------------

pub open spec fn opt_chars(o: Option<Vec<char>>) -> Option<Seq<char>> {
    match o {
        Some(v) => Some(v@),
        None => None,
    }
}

fn id_name() -> (v: Vec<char>)
    ensures
        v@ == id_field(),
{
    let v = vec!['i', 'd', ':'];
    assert(v@ =~= id_field());
    v
}

fn event_name() -> (v: Vec<char>)
    ensures
        v@ == event_field(),
{
    let v = vec!['e', 'v', 'e', 'n', 't', ':'];
    assert(v@ =~= event_field());
    v
}

fn data_name() -> (v: Vec<char>)
    ensures
        v@ == data_field(),
{
    let v = vec!['d', 'a', 't', 'a', ':'];
    assert(v@ =~= data_field());
    v
}

fn retry_name() -> (v: Vec<char>)
    ensures
        v@ == retry_field(),
{
    let v = vec!['r', 'e', 't', 'r', 'y', ':'];
    assert(v@ =~= retry_field());
    v
}

fn has_prefix(s: &Vec<char>, p: &Vec<char>) -> (b: bool)
    ensures
        b == starts_with(s@, p@),
{
    if p.len() > s.len() {
        return false;
    }
    let mut i: usize = 0;
    while i < p.len()
        invariant
            p.len() <= s.len(),
            i <= p.len(),
            forall|k: int| 0 <= k < i ==> s@[k] == p@[k],
        decreases p.len() - i,
    {
        if s[i] != p[i] {
            assert(s@.take(p.len() as int)[i as int] != p@[i as int]);
            return false;
        }
        i += 1;
    }
    assert(s@.take(p.len() as int) =~= p@);
    true
}

fn append_chars(out: &mut Vec<char>, v: &Vec<char>)
    ensures
        final(out)@ == old(out)@ + v@,
{
    let mut i: usize = 0;
    while i < v.len()
        invariant
            i <= v.len(),
            out@ == old(out)@ + v@.take(i as int),
        decreases v.len() - i,
    {
        out.push(v[i]);
        i += 1;
        assert(out@ =~= old(out)@ + v@.take(i as int));
    }
    assert(v@.take(v.len() as int) =~= v@);
}

fn string_of_opt(o: &Option<Vec<char>>) -> (r: Option<String>)
    ensures
        opt_text(r) == opt_chars(*o),
{
    match o {
        Some(v) => Some(text::string_of(v)),
        None => None,
    }
}

/// The reader's state with the fields of the current event as characters.
struct Reader {
    events: Vec<SseEvent>,
    id: Option<Vec<char>>,
    event: Option<Vec<char>>,
    data: Vec<char>,
    retry: Option<u64>,
    has_content: bool,
    data_seen: bool,
}

impl Reader {
    spec fn state(&self) -> ParseState {
        ParseState {
            events: events_view(self.events@),
            current: SseEventView {
                event: opt_chars(self.event),
                id: opt_chars(self.id),
                data: self.data@,
                retry: self.retry,
            },
            has_content: self.has_content,
            data_seen: self.data_seen,
        }
    }

    fn new() -> (r: Reader)
        ensures
            r.state() == initial_state(),
    {
        let r = Reader {
            events: Vec::new(),
            id: None,
            event: None,
            data: Vec::new(),
            retry: None,
            has_content: false,
            data_seen: false,
        };
        assert(events_view(r.events@) =~= Seq::<SseEventView>::empty());
        r
    }

    fn end_event(&mut self)
        requires
            old(self).has_content,
        ensures
            final(self).state() == read_line(old(self).state(), Seq::<char>::empty()),
    {
        let e = SseEvent {
            event: string_of_opt(&self.event),
            id: string_of_opt(&self.id),
            data: text::string_of(&self.data),
            retry: self.retry,
        };
        let ghost old_events = self.events@;
        self.events.push(e);
        assert(events_view(self.events@) =~= events_view(old_events).push(e@));
        self.id = None;
        self.event = None;
        self.data = Vec::new();
        self.retry = None;
        self.has_content = false;
        self.data_seen = false;
    }

    fn read_line(&mut self, line: &Vec<char>)
        ensures
            final(self).state() == read_line(old(self).state(), text::strip_trailing_cr(line@)),
    {
        let mut n = line.len();
        assert(line@.take(n as int) =~= line@);
        while n > 0 && line[n - 1] == '\r'
            invariant
                n <= line.len(),
                text::strip_trailing_cr(line@) == text::strip_trailing_cr(line@.take(n as int)),
            decreases n,
        {
            assert(line@.take(n as int).drop_last() =~= line@.take(n - 1));
            n -= 1;
        }
        let l = text::sub_chars(line, 0, n);
        assert(l@ =~= line@.take(n as int));
        assert(text::strip_trailing_cr(l@) == l@);
        let ghost st = self.state();
        assert(l@ == text::strip_trailing_cr(line@));
        if n == 0 {
            if self.has_content {
                self.end_event();
            }
            assert(l@ =~= Seq::<char>::empty());
        } else if l[0] == ':' {
        } else if has_prefix(&l, &id_name()) {
            self.id = Some(text::trim_chars_from(&l, 3));
            self.has_content = true;
            assert(self.state() =~= read_line(st, l@));
        } else if has_prefix(&l, &event_name()) {
            self.event = Some(text::trim_chars_from(&l, 6));
            self.has_content = true;
            assert(self.state() =~= read_line(st, l@));
        } else if has_prefix(&l, &data_name()) {
            let mut v = text::sub_chars(&l, 5, n);
            assert(v@ =~= l@.skip(5));
            let ghost vv = v@;
            if self.data_seen {
                self.data.push('\n');
                self.data.append(&mut v);
                assert(self.data@ =~= st.current.data + seq!['\n'] + vv);
            } else {
                self.data = v;
            }
            self.has_content = true;
            self.data_seen = true;
            assert(self.state() =~= read_line(st, l@));
        } else if has_prefix(&l, &retry_name()) {
            let value = text::trim_chars_from(&l, 6);
            match text::parse_u64_chars(&value) {
                Some(r) => {
                    self.retry = Some(r);
                },
                None => {},
            }
            self.has_content = true;
            assert(self.state() =~= read_line(st, l@));
        }
    }
}

impl SseEvent {
    /// Reads the events of an SSE text.
    pub fn parse(content: &str) -> (events: Vec<SseEvent>)
        ensures
            events_view(events@) == parse_events(content@),
    {
        let cs = text::chars_of(content);
        let mut reader = Reader::new();
        let mut line: Vec<char> = Vec::new();
        let mut i: usize = 0;
        proof {
            assert(cs@.take(0) =~= Seq::<char>::empty());
            assert(text::split_lines(Seq::<char>::empty()).drop_last() =~= Seq::<
                Seq<char>,
            >::empty());
        }
        while i < cs.len()
            invariant
                i <= cs.len(),
                cs@ == content@,
                line@ == text::split_lines(cs@.take(i as int)).last(),
                reader.state() == read_lines(
                    initial_state(),
                    text::split_lines(cs@.take(i as int)).drop_last(),
                ),
            decreases cs.len() - i,
        {
            let c = cs[i];
            let ghost before = text::split_lines(cs@.take(i as int));
            proof {
                text::lemma_split_lines_len(cs@.take(i as int));
                assert(cs@.take(i + 1).drop_last() =~= cs@.take(i as int));
                assert(cs@.take(i + 1).last() == c);
            }
            if c == '\n' {
                reader.read_line(&line);
                line = Vec::new();
                proof {
                    let after = text::split_lines(cs@.take(i + 1));
                    assert(after == before.push(Seq::<char>::empty()));
                    assert(after.drop_last() =~= before);
                    assert(before.drop_last().push(before.last()) =~= before);
                }
            } else {
                line.push(c);
                proof {
                    let after = text::split_lines(cs@.take(i + 1));
                    assert(after.drop_last() =~= before.drop_last());
                }
            }
            i += 1;
        }
        reader.read_line(&line);
        proof {
            assert(cs@.take(cs.len() as int) =~= cs@);
            text::lemma_split_lines_len(cs@);
        }
        reader.events
    }

    /// The text of this event: its `id`, `event` and `retry` lines where
    /// present, one `data` line per line of its data, and an empty line.
    pub fn format(&self) -> (s: String)
        ensures
            s@ == format_event(self@),
    {
        let mut out: Vec<char> = Vec::new();
        write_event(&mut out, self);
        assert(Seq::<char>::empty() + format_event(self@) =~= format_event(self@));
        text::string_of(&out)
    }
}

proof fn lemma_join_lines_concat(a: Seq<Seq<char>>, b: Seq<Seq<char>>)
    ensures
        text::join_lines(a + b) == text::join_lines(a) + text::join_lines(b),
    decreases b.len(),
{
    if b.len() == 0 {
        assert(a + b =~= a);
        assert(text::join_lines(a) + Seq::<char>::empty() =~= text::join_lines(a));
    } else {
        lemma_join_lines_concat(a, b.drop_last());
        assert((a + b).drop_last() =~= a + b.drop_last());
        assert((a + b).last() == b.last());
        assert(text::join_lines(a) + text::join_lines(b.drop_last()) + b.last() + seq!['\n']
            =~= text::join_lines(a) + (text::join_lines(b.drop_last()) + b.last() + seq!['\n']));
    }
}

proof fn lemma_join_one_line(l: Seq<char>)
    ensures
        text::join_lines(seq![l]) == l + seq!['\n'],
{
    assert(seq![l].drop_last() =~= Seq::<Seq<char>>::empty());
    assert(seq![l].last() == l);
    assert(text::join_lines(Seq::<Seq<char>>::empty()) == Seq::<char>::empty());
    assert(Seq::<char>::empty() + l + seq!['\n'] =~= l + seq!['\n']);
}

/// The `data` lines of `d`, but for the newline that ends the last one.
pub open spec fn data_block_open(d: Seq<char>) -> Seq<char> {
    let ps = text::split_lines(d);
    text::join_lines(ps.drop_last().map_values(|p: Seq<char>| data_line(p))) + data_line(ps.last())
}

/// Appends a `name:value` line to `out`.
fn write_field(out: &mut Vec<char>, name: &Vec<char>, value: &Vec<char>)
    ensures
        final(out)@ == old(out)@ + text::join_lines(seq![name@ + value@]),
{
    append_chars(out, name);
    append_chars(out, value);
    out.push('\n');
    proof {
        lemma_join_one_line(name@ + value@);
        assert(final(out)@ =~= old(out)@ + (name@ + value@ + seq!['\n']));
    }
}

/// Appends the `data` lines of `d` to `out`.
fn write_data(out: &mut Vec<char>, d: &Vec<char>)
    ensures
        final(out)@ == old(out)@ + text::join_lines(
            text::split_lines(d@).map_values(|p: Seq<char>| data_line(p)),
        ),
{
    let name = data_name();
    append_chars(out, &name);
    let ghost start = old(out)@;
    proof {
        assert(d@.take(0) =~= Seq::<char>::empty());
        let ps = text::split_lines(Seq::<char>::empty());
        assert(ps.drop_last().map_values(|p: Seq<char>| data_line(p)) =~= Seq::<
            Seq<char>,
        >::empty());
        assert(data_line(ps.last()) =~= data_field());
        assert(out@ =~= start + data_block_open(d@.take(0)));
    }
    let mut i: usize = 0;
    while i < d.len()
        invariant
            i <= d.len(),
            name@ == data_field(),
            out@ == start + data_block_open(d@.take(i as int)),
        decreases d.len() - i,
    {
        let c = d[i];
        let ghost t = d@.take(i as int);
        let ghost ps = text::split_lines(t);
        proof {
            text::lemma_split_lines_len(t);
            assert(d@.take(i + 1).drop_last() =~= t);
            assert(d@.take(i + 1).last() == c);
        }
        if c == '\n' {
            out.push('\n');
            append_chars(out, &name);
            proof {
                let ps2 = text::split_lines(d@.take(i + 1));
                assert(ps2 == ps.push(Seq::<char>::empty()));
                assert(ps2.drop_last() =~= ps);
                let f = |p: Seq<char>| data_line(p);
                assert(ps.map_values(f).drop_last() =~= ps.drop_last().map_values(f));
                assert(ps.map_values(f).last() == data_line(ps.last()));
                assert(data_line(Seq::<char>::empty()) =~= data_field());
                assert(out@ =~= start + data_block_open(d@.take(i + 1)));
            }
        } else {
            out.push(c);
            proof {
                let ps2 = text::split_lines(d@.take(i + 1));
                assert(ps2.drop_last() =~= ps.drop_last());
                assert(ps2.last() == ps.last().push(c));
                assert(data_line(ps.last().push(c)) =~= data_line(ps.last()).push(c));
                assert(out@ =~= start + data_block_open(d@.take(i + 1)));
            }
        }
        i += 1;
    }
    out.push('\n');
    proof {
        assert(d@.take(d.len() as int) =~= d@);
        let ps = text::split_lines(d@);
        text::lemma_split_lines_len(d@);
        let f = |p: Seq<char>| data_line(p);
        assert(ps.map_values(f).drop_last() =~= ps.drop_last().map_values(f));
        assert(ps.map_values(f).last() == data_line(ps.last()));
        assert(out@ =~= start + text::join_lines(ps.map_values(f)));
    }
}

/// Appends the text of `e` to `out`.
fn write_event(out: &mut Vec<char>, e: &SseEvent)
    ensures
        final(out)@ == old(out)@ + format_event(e@),
{
    let ghost v = e@;
    let ghost start = old(out)@;
    let ghost l1 = optional_line(id_field(), v.id);
    let ghost l2 = optional_line(event_field(), v.event);
    let ghost l3 = retry_line(v.retry);
    let ghost ld = data_lines(v);
    let ghost le = seq![Seq::<char>::empty()];
    match &e.id {
        Some(s) => {
            write_field(out, &id_name(), &text::chars_of(s.as_str()));
        },
        None => {},
    }
    assert(out@ == start + text::join_lines(l1));
    match &e.event {
        Some(s) => {
            write_field(out, &event_name(), &text::chars_of(s.as_str()));
        },
        None => {},
    }
    proof {
        lemma_join_lines_concat(l1, l2);
        assert(out@ =~= start + text::join_lines(l1 + l2));
    }
    match e.retry {
        Some(r) => {
            let mut digits: Vec<char> = Vec::new();
            text::push_decimal(&mut digits, r);
            assert(digits@ =~= text::decimal(r as nat));
            write_field(out, &retry_name(), &digits);
        },
        None => {},
    }
    proof {
        lemma_join_lines_concat(l1 + l2, l3);
        assert(out@ =~= start + text::join_lines(l1 + l2 + l3));
    }
    let data = text::chars_of(e.data.as_str());
    if data.len() > 0 || (e.id.is_none() && e.event.is_none() && e.retry.is_none()) {
        write_data(out, &data);
    } else {
        assert(text::join_lines(ld) =~= Seq::<char>::empty());
        assert(out@ =~= out@ + text::join_lines(ld));
    }
    proof {
        lemma_join_lines_concat(l1 + l2 + l3, ld);
        assert(out@ =~= start + text::join_lines(l1 + l2 + l3 + ld));
    }
    out.push('\n');
    proof {
        lemma_join_lines_concat(l1 + l2 + l3 + ld, le);
        lemma_join_one_line(Seq::<char>::empty());
        assert(Seq::<char>::empty() + seq!['\n'] =~= seq!['\n']);
        assert(out@ =~= start + text::join_lines(l1 + l2 + l3 + ld + le));
    }
}

/// The text of a stream of events, encoded in UTF-8.
pub fn format_sse_content(events: &Vec<SseEvent>) -> (content: Vec<u8>)
    ensures
        content@ == vstd::utf8::encode_utf8(format_events(events_view(events@))),
{
    let mut out: Vec<char> = Vec::new();
    let mut i: usize = 0;
    while i < events.len()
        invariant
            i <= events.len(),
            out@ == format_events(events_view(events@.take(i as int))),
        decreases events.len() - i,
    {
        write_event(&mut out, &events[i]);
        proof {
            let es = events_view(events@.take(i + 1));
            assert(es.drop_last() =~= events_view(events@.take(i as int)));
            assert(es.last() == events@[i as int]@);
            lemma_join_lines_concat(stream_lines(es.drop_last()), event_lines(es.last()));
        }
        i += 1;
    }
    assert(events@.take(events.len() as int) =~= events@);
    let s = text::string_of(&out);
    text::utf8_bytes(&s)
}

/// Why an SSE content could not be read.
pub enum SseParseError {
    /// The content is not valid UTF-8 text.
    InvalidUtf8,
}

impl SseParseError {
    /// A description of the error.
    pub fn message(&self) -> (s: String)
        ensures
            s@ == "content is not valid UTF-8"@,
    {
        match self {
            SseParseError::InvalidUtf8 => String::from_str("content is not valid UTF-8"),
        }
    }
}

/// The events of an SSE content given as bytes: an error exactly when the bytes
/// are not valid UTF-8.
pub fn parse_sse_content(content: &[u8]) -> (r: Result<Vec<SseEvent>, SseParseError>)
    ensures
        r is Ok <==> vstd::utf8::valid_utf8(content@),
        r matches Ok(es) ==> events_view(es@) == parse_events(vstd::utf8::decode_utf8(content@)),
{
    match text::utf8_decode(content) {
        Some(s) => Ok(SseEvent::parse(s.as_str())),
        None => Err(SseParseError::InvalidUtf8),
    }
}

// ---------------------------------------------------------------------------
// Comparing an expected stream with an actual one
// ---------------------------------------------------------------------------

/// A difference found between expected and actual content.
pub struct ContentMismatch {
    /// The expected bytes, where one item is concerned.
    pub expected: Option<Vec<u8>>,
    /// The actual bytes, where one item is concerned.
    pub actual: Option<Vec<u8>>,
    /// What differs, in words.
    pub mismatch: String,
    /// Where it differs, as a matching rule expression.
    pub path: String,
    pub diff: String,
    /// The part of the interaction concerned.
    pub mismatch_type: String,
}

pub struct ContentMismatchView {
    pub expected: Option<Seq<u8>>,
    pub actual: Option<Seq<u8>>,
    pub mismatch: Seq<char>,
    pub path: Seq<char>,
    pub diff: Seq<char>,
    pub mismatch_type: Seq<char>,
}

pub open spec fn opt_bytes(o: Option<Vec<u8>>) -> Option<Seq<u8>> {
    match o {
        Some(v) => Some(v@),
        None => None,
    }
}

impl View for ContentMismatch {
    type V = ContentMismatchView;

    open spec fn view(&self) -> ContentMismatchView {
        ContentMismatchView {
            expected: opt_bytes(self.expected),
            actual: opt_bytes(self.actual),
            mismatch: self.mismatch@,
            path: self.path@,
            diff: self.diff@,
            mismatch_type: self.mismatch_type@,
        }
    }
}

pub open spec fn mismatches_view(ms: Seq<ContentMismatch>) -> Seq<ContentMismatchView> {
    ms.map_values(|m: ContentMismatch| m@)
}

// ---------------------------------------------------------------------------
// Paths of the matching rules
// ---------------------------------------------------------------------------

/// The rules of a comparison, by the path of the value they apply to.
pub open spec fn rule_table_view(table: Seq<(String, Vec<MatchRule>)>) -> Seq<(Seq<char>, Seq<RuleView>)> {
    table.map_values(|e: (String, Vec<MatchRule>)| (e.0@, rules::rules_view(e.1@)))
}

/// The rules listed under `path` (the last entry for it), or none.
pub open spec fn rules_at(table: Seq<(Seq<char>, Seq<RuleView>)>, path: Seq<char>) -> Seq<RuleView>
    decreases table.len(),
{
    if table.len() == 0 {
        Seq::<RuleView>::empty()
    } else if table.last().0 == path {
        table.last().1
    } else {
        rules_at(table.drop_last(), path)
    }
}

pub open spec fn id_path() -> Seq<char> {
    "$.id"@
}

pub open spec fn retry_path() -> Seq<char> {
    "$.retry"@
}

pub open spec fn is_ascii_letter(c: char) -> bool {
    ('a' <= c <= 'z') || ('A' <= c <= 'Z')
}

/// `t` can follow a `.` in a path: a letter or `_`, then letters, digits and `_`.
pub open spec fn is_identifier(t: Seq<char>) -> bool {
    &&& t.len() > 0
    &&& (is_ascii_letter(t[0]) || t[0] == '_')
    &&& forall|i: int|
        0 <= i < t.len() ==> is_ascii_letter(#[trigger] t[i]) || text::is_digit(t[i]) || t[i] == '_'
}

/// `t` with a backslash before each backslash and quote.
pub open spec fn escape_key(t: Seq<char>) -> Seq<char>
    decreases t.len(),
{
    if t.len() == 0 {
        Seq::<char>::empty()
    } else {
        let c = t.last();
        let tail = if c == '\\' || c == '\'' {
            seq!['\\', c]
        } else {
            seq![c]
        };
        escape_key(t.drop_last()) + tail
    }
}

/// The path step to the field named `t`.
pub open spec fn key_step(t: Seq<char>) -> Seq<char> {
    if is_identifier(t) {
        "."@ + t
    } else {
        "['"@ + escape_key(t) + "']"@
    }
}

/// The path of the data of events of type `event`: `$.data` for events without
/// a type, `$.data.name` (or `$.data['name']`) for typed ones.
pub open spec fn data_path(event: Option<Seq<char>>) -> Seq<char> {
    match event {
        None => "$.data"@,
        Some(t) => "$.data"@ + key_step(t),
    }
}

// ---------------------------------------------------------------------------
// Comparing an expected stream with an actual one
// ---------------------------------------------------------------------------

/// Whether the actual event `a` matches the expected event `e` under the rules
/// of `table`: same event type; the id and the retry time, where `e` has them,
/// present in `a` and matching; and the data matching.
pub open spec fn event_matches(
    table: Seq<(Seq<char>, Seq<RuleView>)>,
    e: SseEventView,
    a: SseEventView,
) -> bool {
    &&& a.event == e.event
    &&& match e.id {
        Some(i) => match a.id {
            Some(j) => rules::value_matches(rules_at(table, id_path()), i, j),
            None => false,
        },
        None => true,
    }
    &&& match e.retry {
        Some(r) => match a.retry {
            Some(q) => rules::value_matches(
                rules_at(table, retry_path()),
                text::decimal(r as nat),
                text::decimal(q as nat),
            ),
            None => false,
        },
        None => true,
    }
    &&& rules::value_matches(rules_at(table, data_path(e.event)), e.data, a.data)
}

/// Some event of `actual` matches `e`.
pub open spec fn found_in(
    table: Seq<(Seq<char>, Seq<RuleView>)>,
    e: SseEventView,
    actual: Seq<SseEventView>,
) -> bool {
    exists|j: int| 0 <= j < actual.len() && event_matches(table, e, #[trigger] actual[j])
}

/// The mismatch for the expected event at `index`, which no actual event matches.
pub open spec fn missing_event_mismatch(index: nat, e: SseEventView) -> ContentMismatchView {
    ContentMismatchView {
        expected: Some(vstd::utf8::encode_utf8(format_event(e))),
        actual: None,
        mismatch: "No actual SSE event matches expected event "@ + text::decimal(index),
        path: "$["@ + text::decimal(index) + "]"@,
        diff: Seq::<char>::empty(),
        mismatch_type: "body"@,
    }
}

/// The mismatches of the first `k` expected events, in order.
pub open spec fn unmatched_events(
    table: Seq<(Seq<char>, Seq<RuleView>)>,
    expected: Seq<SseEventView>,
    actual: Seq<SseEventView>,
    k: nat,
) -> Seq<ContentMismatchView>
    decreases k,
{
    if k == 0 {
        Seq::<ContentMismatchView>::empty()
    } else {
        let prev = unmatched_events(table, expected, actual, (k - 1) as nat);
        if found_in(table, expected[k - 1], actual) {
            prev
        } else {
            prev.push(missing_event_mismatch((k - 1) as nat, expected[k - 1]))
        }
    }
}

/// The mismatches between an expected and an actual stream: one for each
/// expected event that no actual event matches, in order. The actual stream may
/// hold more events, in any order.
pub open spec fn compare_events(
    table: Seq<(Seq<char>, Seq<RuleView>)>,
    expected: Seq<SseEventView>,
    actual: Seq<SseEventView>,
) -> Seq<ContentMismatchView> {
    unmatched_events(table, expected, actual, expected.len())
}

proof fn lemma_unmatched_empty(
    table: Seq<(Seq<char>, Seq<RuleView>)>,
    e: Seq<SseEventView>,
    a: Seq<SseEventView>,
    k: nat,
)
    requires
        k <= e.len(),
    ensures
        unmatched_events(table, e, a, k).len() == 0 <==> forall|i: int|
            0 <= i < k ==> found_in(table, #[trigger] e[i], a),
    decreases k,
{
    if k > 0 {
        lemma_unmatched_empty(table, e, a, (k - 1) as nat);
    }
}

/// Law: a comparison finds no mismatch exactly when each expected event is
/// matched by some actual event.
pub proof fn lemma_compare_events_empty_iff_found(
    table: Seq<(Seq<char>, Seq<RuleView>)>,
    e: Seq<SseEventView>,
    a: Seq<SseEventView>,
)
    ensures
        compare_events(table, e, a).len() == 0 <==> forall|i: int|
            0 <= i < e.len() ==> found_in(table, #[trigger] e[i], a),
{
    lemma_unmatched_empty(table, e, a, e.len());
}

/// Law: without matching rules, every event matches itself, so a stream
/// compared with itself has no mismatch.
pub proof fn lemma_compare_events_self(es: Seq<SseEventView>)
    ensures
        compare_events(Seq::<(Seq<char>, Seq<RuleView>)>::empty(), es, es).len() == 0,
{
    let table = Seq::<(Seq<char>, Seq<RuleView>)>::empty();
    assert forall|i: int| 0 <= i < es.len() implies found_in(table, #[trigger] es[i], es) by {
        assert(event_matches(table, es[i], es[i]));
    }
    lemma_compare_events_empty_iff_found(table, es, es);
}

/// Law: events added to the actual stream never make a comparison fail that
/// succeeded without them.
pub proof fn lemma_compare_events_more_actual(
    table: Seq<(Seq<char>, Seq<RuleView>)>,
    e: Seq<SseEventView>,
    a: Seq<SseEventView>,
    extra: Seq<SseEventView>,
)
    requires
        compare_events(table, e, a).len() == 0,
    ensures
        compare_events(table, e, a + extra).len() == 0,
{
    lemma_compare_events_empty_iff_found(table, e, a);
    lemma_compare_events_empty_iff_found(table, e, a + extra);
    assert forall|i: int| 0 <= i < e.len() implies found_in(table, #[trigger] e[i], a + extra) by {
        assert(found_in(table, e[i], a));
        let j = choose|j: int| 0 <= j < a.len() && event_matches(table, e[i], #[trigger] a[j]);
        assert((a + extra)[j] == a[j]);
    }
}

proof fn lemma_decimal_injective(r: u64, q: u64)
    ensures
        text::decimal(r as nat) == text::decimal(q as nat) <==> r == q,
{
    text::lemma_decimal_roundtrip(r as nat);
    text::lemma_decimal_roundtrip(q as nat);
}

/// Law: where no rule is given for the id, an expected id must be matched by
/// an equal id; where none is given for the retry time, by an equal retry
/// time; where none is given for the data, by equal data. The event type must
/// always be equal.
pub proof fn lemma_unruled_fields_must_be_equal(
    table: Seq<(Seq<char>, Seq<RuleView>)>,
    e: SseEventView,
    a: SseEventView,
)
    requires
        event_matches(table, e, a),
    ensures
        a.event == e.event,
        rules_at(table, id_path()).len() == 0 && e.id is Some ==> a.id == e.id,
        rules_at(table, retry_path()).len() == 0 && e.retry is Some ==> a.retry == e.retry,
        rules_at(table, data_path(e.event)).len() == 0 ==> a.data == e.data,
{
    if let Some(r) = e.retry {
        if let Some(q) = a.retry {
            lemma_decimal_injective(r, q);
        }
    }
}

/// Law: without matching rules, an actual event matches an expected one
/// exactly when it has the same type and data, and the same id and retry time
/// wherever the expected event has them.
pub proof fn lemma_event_matches_without_rules(e: SseEventView, a: SseEventView)
    ensures
        event_matches(Seq::<(Seq<char>, Seq<RuleView>)>::empty(), e, a) <==> {
            &&& a.event == e.event
            &&& a.data == e.data
            &&& e.id is Some ==> a.id == e.id
            &&& e.retry is Some ==> a.retry == e.retry
        },
{
    if let Some(r) = e.retry {
        if let Some(q) = a.retry {
            lemma_decimal_injective(r, q);
        }
    }
}

/// Law: a type rule on the data of events of a type lets events of that type
/// match whatever their data, where the expected event has no id and no retry
/// time.
pub proof fn lemma_type_rule_accepts_any_data(
    event: Option<Seq<char>>,
    e: SseEventView,
    a: SseEventView,
)
    requires
        e.event == event,
        a.event == event,
        e.id is None,
        e.retry is None,
    ensures
        event_matches(seq![(data_path(event), seq![RuleView::Type])], e, a),
{
    let table = seq![(data_path(event), seq![RuleView::Type])];
    assert(table.drop_last() =~= Seq::<(Seq<char>, Seq<RuleView>)>::empty());
    assert(rules_at(table, data_path(event)) == seq![RuleView::Type]);
}

proof fn lemma_field_line_prefix(p: Seq<char>, v: Seq<char>)
    ensures
        starts_with(p + v, p),
        (p + v).skip(p.len() as int) == v,
{
    assert((p + v).take(p.len() as int) =~= p);
    assert((p + v).skip(p.len() as int) =~= v);
}

/// Law: consecutive `data` lines of one event are joined with a newline, in
/// the order they were read; the first one replaces nothing read before it.
pub proof fn lemma_data_lines_join(st: ParseState, v1: Seq<char>, v2: Seq<char>)
    requires
        !st.data_seen,
    ensures
        read_line(read_line(st, data_field() + v1), data_field() + v2).current.data == v1 + seq!['\n']
            + v2,
        read_line(read_line(st, data_field() + v1), data_field() + v2).events == st.events,
{
    lemma_field_line_prefix(data_field(), v1);
    lemma_field_line_prefix(data_field(), v2);
    let l1 = data_field() + v1;
    let l2 = data_field() + v2;
    assert(l1[0] == 'd' && l2[0] == 'd');
    assert(!starts_with(l1, id_field())) by {
        assert(l1.take(3)[0] == 'd');
    }
    assert(!starts_with(l1, event_field())) by {
        if l1.len() >= 6 {
            assert(l1.take(6)[0] == 'd');
        }
    }
    assert(!starts_with(l2, id_field())) by {
        assert(l2.take(3)[0] == 'd');
    }
    assert(!starts_with(l2, event_field())) by {
        if l2.len() >= 6 {
            assert(l2.take(6)[0] == 'd');
        }
    }
}

/// Law: an empty line ends the event being read, adding it to the events read,
/// where a field of it was set; otherwise it changes nothing.
pub proof fn lemma_blank_line_ends_event(st: ParseState)
    ensures
        st.has_content ==> read_line(st, Seq::<char>::empty()).events == st.events.push(st.current),
        st.has_content ==> read_line(st, Seq::<char>::empty()).current == empty_event(),
        !st.has_content ==> read_line(st, Seq::<char>::empty()) == st,
{
}

/// Law: an `id` line sets the id of the event being read to its value trimmed
/// of whitespace, and a `retry` line holding a decimal `u64` sets the retry
/// time to that number.
pub proof fn lemma_id_and_retry_lines(st: ParseState, v: Seq<char>, n: u64)
    ensures
        read_line(st, id_field() + v).current.id == Some(text::trim(v)),
        read_line(st, retry_field() + text::decimal(n as nat)).current.retry == Some(n),
        read_line(st, id_field() + v).has_content,
{
    lemma_field_line_prefix(id_field(), v);
    let r = retry_field() + text::decimal(n as nat);
    lemma_field_line_prefix(retry_field(), text::decimal(n as nat));
    assert(r[0] == 'r');
    assert(!starts_with(r, id_field())) by {
        assert(r.take(3)[0] == 'r');
    }
    assert(!starts_with(r, event_field())) by {
        assert(r.take(6)[0] == 'r');
    }
    assert(!starts_with(r, data_field())) by {
        assert(r.take(5)[0] == 'r');
    }
    text::lemma_parse_decimal(n);
}

/// A line that sets no field: not empty, not a comment, and naming none of
/// `id`, `event`, `data` and `retry`.
pub open spec fn unknown_field_line(l: Seq<char>) -> bool {
    &&& l.len() > 0
    &&& l[0] != ':'
    &&& !starts_with(l, id_field())
    &&& !starts_with(l, event_field())
    &&& !starts_with(l, data_field())
    &&& !starts_with(l, retry_field())
}

/// Law: a line of an unknown field changes nothing: it neither sets a field
/// nor starts or ends an event.
pub proof fn lemma_unknown_line_ignored(st: ParseState, l: Seq<char>)
    requires
        unknown_field_line(l),
    ensures
        read_line(st, l) == st,
{
}

/// Law: a comment line changes nothing.
pub proof fn lemma_comment_line_ignored(st: ParseState, l: Seq<char>)
    requires
        l.len() > 0,
        l[0] == ':',
    ensures
        read_line(st, l) == st,
{
}

/// Law: lines of unknown fields can be taken out of a stream without changing
/// what is read from it.
pub proof fn lemma_unknown_lines_removable(st: ParseState, a: Seq<Seq<char>>, l: Seq<char>, b: Seq<Seq<char>>)
    requires
        unknown_field_line(text::strip_trailing_cr(l)),
    ensures
        read_lines(st, a + seq![l] + b) == read_lines(st, a + b),
{
    lemma_read_lines_concat(st, a + seq![l], b);
    lemma_read_lines_concat(st, a, seq![l]);
    lemma_read_one_line(read_lines(st, a), l);
    lemma_read_lines_concat(st, a, b);
}

proof fn lemma_split_first_line(v: Seq<char>, t: Seq<char>)
    requires
        text::has_no_newline(v),
    ensures
        text::split_lines(v + seq!['\n'] + t) == seq![v] + text::split_lines(t),
    decreases t.len(),
{
    let p = v + seq!['\n'];
    if t.len() == 0 {
        assert(p + t =~= v + seq!['\n'] + Seq::<char>::empty());
        text::lemma_split_add_line(v, Seq::<char>::empty());
        text::lemma_split_single_line(v);
        assert(text::split_lines(Seq::<char>::empty()) == seq![Seq::<char>::empty()]);
        assert(seq![v].push(Seq::<char>::empty()) =~= seq![v] + seq![Seq::<char>::empty()]);
    } else {
        lemma_split_first_line(v, t.drop_last());
        text::lemma_split_lines_len(t.drop_last());
        assert((p + t).drop_last() =~= p + t.drop_last());
        assert((p + t).last() == t.last());
        assert(v + seq!['\n'] + t =~= p + t);
        assert(v + seq!['\n'] + t.drop_last() =~= p + t.drop_last());
        let prev = text::split_lines(t.drop_last());
        if t.last() == '\n' {
            assert((seq![v] + prev).push(Seq::<char>::empty()) =~= seq![v] + prev.push(Seq::<char>::empty()));
        } else {
            let whole = seq![v] + prev;
            assert(whole.last() == prev.last());
            assert(whole.update(whole.len() - 1, whole.last().push(t.last())) =~= seq![v] + prev.update(
                prev.len() - 1,
                prev.last().push(t.last()),
            ));
        }
    }
}

/// Law: a stream that starts with a line of an unknown field holds the same
/// events as the stream without that line.
pub proof fn lemma_unknown_first_line_ignored(l: Seq<char>, t: Seq<char>)
    requires
        text::has_no_newline(l),
        unknown_field_line(text::strip_trailing_cr(l)),
    ensures
        parse_events(l + seq!['\n'] + t) == parse_events(t),
{
    lemma_split_first_line(l, t);
    let e = Seq::<Seq<char>>::empty();
    lemma_unknown_lines_removable(initial_state(), e, l, text::split_lines(t));
    assert(e + seq![l] + text::split_lines(t) =~= seq![l] + text::split_lines(t));
    assert(e + text::split_lines(t) =~= text::split_lines(t));
}

fn opt_string_eq(a: &Option<String>, b: &Option<String>) -> (r: bool)
    ensures
        r == (opt_text(*a) == opt_text(*b)),
{
    match (a, b) {
        (Some(x), Some(y)) => *x == *y,
        (None, None) => true,
        _ => false,
    }
}

fn event_bytes(e: &SseEvent) -> (b: Vec<u8>)
    ensures
        b@ == vstd::utf8::encode_utf8(format_event(e@)),
{
    let s = e.format();
    text::utf8_bytes(&s)
}

fn chars_string(parts: Vec<char>) -> (s: String)
    ensures
        s@ == parts@,
{
    text::string_of(&parts)
}

/// The position of the rules listed under `path` in `table` (the last entry for
/// it), if any.
fn rules_index(table: &Vec<(String, Vec<MatchRule>)>, path: &String) -> (r: Option<usize>)
    ensures
        match r {
            Some(i) => i < table.len() && rules_at(rule_table_view(table@), path@)
                == rules::rules_view(table@[i as int].1@),
            None => rules_at(rule_table_view(table@), path@).len() == 0,
        },
{
    let ghost tv = rule_table_view(table@);
    let mut k = table.len();
    assert(tv.take(k as int) =~= tv);
    while k > 0
        invariant
            k <= table.len(),
            tv == rule_table_view(table@),
            rules_at(tv, path@) == rules_at(tv.take(k as int), path@),
        decreases k,
    {
        assert(tv.take(k - 1) =~= tv.take(k as int).drop_last());
        if table[k - 1].0 == *path {
            return Some(k - 1);
        }
        k -= 1;
    }
    None
}

/// Whether `actual` matches `expected` under the rules listed under `path`.
fn matches_at(table: &Vec<(String, Vec<MatchRule>)>, path: &String, expected: &String, actual: &String) -> (b: bool)
    ensures
        b == rules::value_matches(rules_at(rule_table_view(table@), path@), expected@, actual@),
{
    match rules_index(table, path) {
        Some(i) => rules::value_matches_rules(&table[i].1, expected, actual),
        None => *actual == *expected,
    }
}

fn decimal_string(n: u64) -> (s: String)
    ensures
        s@ == text::decimal(n as nat),
{
    let mut v: Vec<char> = Vec::new();
    text::push_decimal(&mut v, n);
    assert(v@ =~= text::decimal(n as nat));
    text::string_of(&v)
}

fn is_identifier_chars(t: &Vec<char>) -> (b: bool)
    ensures
        b == is_identifier(t@),
{
    if t.len() == 0 {
        return false;
    }
    let c0 = t[0];
    if !(('a' <= c0 && c0 <= 'z') || ('A' <= c0 && c0 <= 'Z') || c0 == '_') {
        return false;
    }
    let mut i: usize = 0;
    while i < t.len()
        invariant
            i <= t.len(),
            forall|j: int|
                0 <= j < i ==> is_ascii_letter(#[trigger] t@[j]) || text::is_digit(t@[j]) || t@[j] == '_',
        decreases t.len() - i,
    {
        let c = t[i];
        if !(('a' <= c && c <= 'z') || ('A' <= c && c <= 'Z') || ('0' <= c && c <= '9') || c == '_') {
            assert(!(is_ascii_letter(t@[i as int]) || text::is_digit(t@[i as int]) || t@[i as int] == '_'));
            return false;
        }
        i += 1;
    }
    true
}

fn push_escaped(out: &mut Vec<char>, t: &Vec<char>)
    ensures
        final(out)@ == old(out)@ + escape_key(t@),
{
    let mut i: usize = 0;
    while i < t.len()
        invariant
            i <= t.len(),
            out@ == old(out)@ + escape_key(t@.take(i as int)),
        decreases t.len() - i,
    {
        let c = t[i];
        if c == '\\' || c == '\'' {
            out.push('\\');
        }
        out.push(c);
        assert(t@.take(i + 1).drop_last() =~= t@.take(i as int));
        i += 1;
        assert(out@ =~= old(out)@ + escape_key(t@.take(i as int)));
    }
    assert(t@.take(t.len() as int) =~= t@);
}

/// The path of the data of events of type `event`, as `data_path` says.
pub fn data_path_of(event: &Option<String>) -> (p: String)
    ensures
        p@ == data_path(opt_text(*event)),
{
    let mut out: Vec<char> = Vec::new();
    text::push_str_chars(&mut out, "$.data");
    match event {
        None => {},
        Some(t) => {
            let tc = text::chars_of(t.as_str());
            if is_identifier_chars(&tc) {
                text::push_str_chars(&mut out, ".");
            } else {
                text::push_str_chars(&mut out, "['");
                push_escaped(&mut out, &tc);
                text::push_str_chars(&mut out, "']");
            }
            if is_identifier_chars(&tc) {
                let mut k: usize = 0;
                let ghost before = out@;
                while k < tc.len()
                    invariant
                        k <= tc.len(),
                        out@ == before + tc@.take(k as int),
                    decreases tc.len() - k,
                {
                    out.push(tc[k]);
                    k += 1;
                    assert(out@ =~= before + tc@.take(k as int));
                }
                assert(tc@.take(tc.len() as int) =~= tc@);
            }
        },
    }
    proof {
        match opt_text(*event) {
            None => {},
            Some(t) => {
                assert(out@ =~= data_path(opt_text(*event)));
            },
        }
    }
    text::string_of(&out)
}

/// Whether the actual event `a` matches the expected event `e`, as
/// `event_matches` says.
pub fn event_matches_rules(table: &Vec<(String, Vec<MatchRule>)>, e: &SseEvent, a: &SseEvent) -> (b: bool)
    ensures
        b == event_matches(rule_table_view(table@), e@, a@),
{
    if !opt_string_eq(&a.event, &e.event) {
        return false;
    }
    let id_ok = match &e.id {
        Some(i) => match &a.id {
            Some(j) => matches_at(table, &String::from_str("$.id"), i, j),
            None => false,
        },
        None => true,
    };
    if !id_ok {
        return false;
    }
    let retry_ok = match e.retry {
        Some(r) => match a.retry {
            Some(q) => matches_at(table, &String::from_str("$.retry"), &decimal_string(r), &decimal_string(q)),
            None => false,
        },
        None => true,
    };
    if !retry_ok {
        return false;
    }
    matches_at(table, &data_path_of(&e.event), &e.data, &a.data)
}

fn make_missing_mismatch(index: usize, e: &SseEvent) -> (m: ContentMismatch)
    ensures
        m@ == missing_event_mismatch(index as nat, e@),
{
    let mut msg: Vec<char> = Vec::new();
    text::push_str_chars(&mut msg, "No actual SSE event matches expected event ");
    text::push_decimal(&mut msg, index as u64);
    let mut path: Vec<char> = Vec::new();
    text::push_str_chars(&mut path, "$[");
    text::push_decimal(&mut path, index as u64);
    text::push_str_chars(&mut path, "]");
    let m = ContentMismatch {
        expected: Some(event_bytes(e)),
        actual: None,
        mismatch: chars_string(msg),
        path: chars_string(path),
        diff: String::new(),
        mismatch_type: String::from_str("body"),
    };
    assert(m@.mismatch =~= missing_event_mismatch(index as nat, e@).mismatch);
    assert(m@.path =~= missing_event_mismatch(index as nat, e@).path);
    m
}

/// Whether some event of `actual` matches `e`.
fn find_match(table: &Vec<(String, Vec<MatchRule>)>, e: &SseEvent, actual: &Vec<SseEvent>) -> (b: bool)
    ensures
        b == found_in(rule_table_view(table@), e@, events_view(actual@)),
{
    let ghost av = events_view(actual@);
    let mut j: usize = 0;
    while j < actual.len()
        invariant
            j <= actual.len(),
            av == events_view(actual@),
            forall|k: int| 0 <= k < j ==> !event_matches(rule_table_view(table@), e@, #[trigger] av[k]),
        decreases actual.len() - j,
    {
        if event_matches_rules(table, e, &actual[j]) {
            assert(event_matches(rule_table_view(table@), e@, av[j as int]));
            return true;
        }
        j += 1;
    }
    false
}

/// Compares an expected stream of events with an actual one under matching
/// rules given by path, as `compare_events` says.
pub fn compare_sse_events(
    expected: &Vec<SseEvent>,
    actual: &Vec<SseEvent>,
    rules: &Vec<(String, Vec<MatchRule>)>,
) -> (r: Vec<ContentMismatch>)
    ensures
        mismatches_view(r@) == compare_events(
            rule_table_view(rules@),
            events_view(expected@),
            events_view(actual@),
        ),
{
    let ghost ev = events_view(expected@);
    let ghost av = events_view(actual@);
    let ghost tv = rule_table_view(rules@);
    let mut r: Vec<ContentMismatch> = Vec::new();
    let mut i: usize = 0;
    while i < expected.len()
        invariant
            i <= expected.len(),
            ev == events_view(expected@),
            av == events_view(actual@),
            tv == rule_table_view(rules@),
            mismatches_view(r@) == unmatched_events(tv, ev, av, i as nat),
        decreases expected.len() - i,
    {
        if !find_match(rules, &expected[i], actual) {
            let m = make_missing_mismatch(i, &expected[i]);
            let ghost before = r@;
            r.push(m);
            assert(mismatches_view(r@) =~= mismatches_view(before).push(m@));
        }
        i += 1;
    }
    r
}

} // verus!
