//! The plugin's SSE mock servers: the registry of running servers, the address
//! a server binds to, and what a server answers on each connection.
use vstd::prelude::*;

use crate::sse_content;
use crate::sse_content::{ContentMismatch, SseEvent};
use crate::text;

verus! {

/// The result of one request that a mock server received.
pub struct MockServerResult {
    pub path: String,
    pub error: String,
    pub mismatches: Vec<ContentMismatch>,
}

/// A running mock server.
pub struct MockServer {
    pub port: u32,
    pub address: String,
    pub pact: String,
    pub results: Vec<MockServerResult>,
}

/// The running mock servers, by key. A server registered under a key that is
/// already present replaces the former one.
pub struct MockServerRegistry {
    entries: Vec<(String, MockServer)>,
}

pub open spec fn entries_map(entries: Seq<(String, MockServer)>) -> Map<Seq<char>, MockServer>
    decreases entries.len(),
{
    if entries.len() == 0 {
        Map::empty()
    } else {
        entries_map(entries.drop_last()).insert(entries.last().0@, entries.last().1)
    }
}

impl MockServerRegistry {
    /// The servers, by the characters of their keys.
    pub closed spec fn servers(&self) -> Map<Seq<char>, MockServer> {
        entries_map(self.entries@)
    }

    /// A registry without servers.
    pub fn new() -> (r: MockServerRegistry)
        ensures
            r.servers() == Map::<Seq<char>, MockServer>::empty(),
    {
        MockServerRegistry { entries: Vec::new() }
    }

    /// Registers `server` under `key`.
    pub fn insert(&mut self, key: String, server: MockServer)
        ensures
            final(self).servers() == old(self).servers().insert(key@, server),
    {
        let ghost before = self.entries@;
        self.entries.push((key, server));
        assert(self.entries@.drop_last() =~= before);
    }

    /// The server registered under `key`.
    pub fn get(&self, key: &String) -> (r: Option<&MockServer>)
        ensures
            match r {
                Some(s) => self.servers().contains_key(key@) && self.servers()[key@] == *s,
                None => !self.servers().contains_key(key@),
            },
    {
        let mut i = self.entries.len();
        assert(self.entries@.take(i as int) =~= self.entries@);
        while i > 0
            invariant
                i <= self.entries.len(),
                entries_map(self.entries@).contains_key(key@) == entries_map(
                    self.entries@.take(i as int),
                ).contains_key(key@),
                entries_map(self.entries@).contains_key(key@) ==> entries_map(self.entries@)[key@]
                    == entries_map(self.entries@.take(i as int))[key@],
            decreases i,
        {
            let ghost prefix = self.entries@.take(i as int);
            assert(prefix.drop_last() =~= self.entries@.take(i - 1));
            assert(prefix.last() == self.entries@[i - 1]);
            if self.entries[i - 1].0 == *key {
                return Some(&self.entries[i - 1].1);
            }
            i -= 1;
        }
        None
    }

    /// Starts to track a mock server bound to `address` and `port` for `pact`,
    /// under a new random key, which is returned. The server has no results yet.
    pub fn start_mock_server(&mut self, address: String, port: u32, pact: String) -> (key: String)
        ensures
            is_uuid_v4_text(key@),
            final(self).servers().contains_key(key@),
            final(self).servers()[key@].port == port,
            final(self).servers()[key@].address == address,
            final(self).servers()[key@].pact == pact,
            final(self).servers()[key@].results@.len() == 0,
            final(self).servers().remove(key@) == old(self).servers().remove(key@),
    {
        let key = new_server_key();
        let server = MockServer { port, address, pact, results: Vec::new() };
        let stored_key = key.clone();
        self.insert(stored_key, server);
        proof {
            assert(final(self).servers().remove(key@) =~= old(self).servers().remove(key@));
        }
        key
    }

    /// Whether the server under `key` is all well, and its results: a server
    /// without results is, and so is an unknown key, which has no results.
    pub fn mock_server_results(&self, key: &String) -> (r: (bool, &[MockServerResult]))
        ensures
            match self.servers().get(key@) {
                Some(s) => r.0 == (s.results@.len() == 0) && r.1@ == s.results@,
                None => r.0 && r.1@.len() == 0,
            },
    {
        match self.get(key) {
            Some(server) => (server.results.len() == 0, server.results.as_slice()),
            None => (true, &[]),
        }
    }
}

pub open spec fn is_lower_hex(c: char) -> bool {
    ('0' <= c && c <= '9') || ('a' <= c && c <= 'f')
}

/// The hyphenated lowercase text of a version-4 UUID: 36 characters, hex digits
/// in groups of 8-4-4-4-12, the version digit `4`, and a variant digit among
/// `8`, `9`, `a`, `b`.
pub open spec fn is_uuid_v4_text(s: Seq<char>) -> bool {
    &&& s.len() == 36
    &&& forall|i: int|
        0 <= i < 36 ==> if i == 8 || i == 13 || i == 18 || i == 23 {
            s[i] == '-'
        } else {
            is_lower_hex(#[trigger] s[i])
        }
    &&& s[14] == '4'
    &&& (s[19] == '8' || s[19] == '9' || s[19] == 'a' || s[19] == 'b')
}

/// Calls `uuid::Uuid::new_v4`, which draws random bits and sets the version and
/// variant bits, and writes the UUID with `to_string`, in its hyphenated
/// lowercase form. Which UUID is drawn is not stated.
#[verifier::external_body]
fn new_server_key() -> (key: String)
    ensures
        is_uuid_v4_text(key@),
{
    uuid::Uuid::new_v4().to_string()
}

/// The address a mock server binds to: the host interface, a colon and the port.
pub fn mock_server_address(host: &String, port: u32) -> (r: String)
    ensures
        r@ == host@ + ":"@ + text::decimal(port as nat),
{
    let mut out = text::chars_of(host.as_str());
    text::push_str_chars(&mut out, ":");
    text::push_decimal(&mut out, port as u64);
    text::string_of(&out)
}

/// The HTTP response head with which a mock server opens an event stream.
pub open spec fn response_head() -> Seq<char> {
    "HTTP/1.1 200 OK\r\nContent-Type: text/event-stream\r\nCache-Control: no-cache\r\nConnection: keep-alive\r\n\r\n"@
}

/// The event that a mock server sends on each connection.
pub open spec fn greeting_event() -> sse_content::SseEventView {
    sse_content::SseEventView {
        event: Some("message"@),
        id: None,
        data: "Hello from SSE mock server!"@,
        retry: Some(3000),
    }
}

/// The event that a mock server sends on each connection.
pub fn greeting() -> (e: SseEvent)
    ensures
        e@ == greeting_event(),
{
    SseEvent {
        event: Some(String::from_str("message")),
        id: None,
        data: String::from_str("Hello from SSE mock server!"),
        retry: Some(3000),
    }
}

/// What a mock server writes on a connection, in order: the response head,
/// then the text of its greeting event, both in UTF-8.
pub fn sse_connection_output() -> (r: (Vec<u8>, Vec<u8>))
    ensures
        r.0@ == vstd::utf8::encode_utf8(response_head()),
        r.1@ == vstd::utf8::encode_utf8(sse_content::format_event(greeting_event())),
{
    let head = String::from_str(
        "HTTP/1.1 200 OK\r\nContent-Type: text/event-stream\r\nCache-Control: no-cache\r\nConnection: keep-alive\r\n\r\n",
    );
    let event_text = greeting().format();
    (text::utf8_bytes(&head), text::utf8_bytes(&event_text))
}

/// What the listener of a mock server gave on one attempt to accept.
pub enum AcceptEvent {
    /// A connection was accepted.
    Accepted,
    /// Accepting failed.
    Failed,
}

/// What the mock server does next.
pub enum AcceptAction {
    /// Answer the connection on a task of its own and accept again.
    ServeAndContinue,
    /// Stop accepting.
    Stop,
}

/// One step of a mock server's accept loop: every accepted connection is
/// answered and the loop goes on; the first failure to accept ends it.
pub fn accept_step(event: AcceptEvent) -> (a: AcceptAction)
    ensures
        (event is Accepted) <==> (a is ServeAndContinue),
        (event is Failed) <==> (a is Stop),
{
    match event {
        AcceptEvent::Accepted => AcceptAction::ServeAndContinue,
        AcceptEvent::Failed => AcceptAction::Stop,
    }
}

} // verus!
