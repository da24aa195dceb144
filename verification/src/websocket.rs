//! Proxied WebSocket sessions: the request that opens one, and the sessions kept open.
use vstd::prelude::*;
use tungstenite::http::Request;
use tungstenite::http::header::{HeaderName, HeaderValue};
use crate::error::{AgentException, error2, error3};
use crate::ids::{lemma_session_id_injective, make_id, session_id};
use crate::messages::{MessageBuffer, WebSocketData};
use crate::registry::Registry;

verus! {

#[verifier::external_type_specification]
#[verifier::external_body]
#[verifier::reject_recursive_types(T)]
pub struct ExRequest<T>(Request<T>);

/// The URI that `http` parses from `url`, as `Uri`'s `Display` writes it, or the message
/// (the `Display` of the `http::Error` from the request builder) with which it refuses `url`.
pub uninterp spec fn uri_parse(url: Seq<char>) -> Result<Seq<char>, Seq<char>>;

/// The URI of a request, as `Uri`'s `Display` writes it.
pub uninterp spec fn request_uri(r: Request<()>) -> Seq<char>;

/// The headers of a request: each name, as `http` keeps it, to the text of its value.
pub uninterp spec fn request_headers(r: Request<()>) -> Map<Seq<char>, Seq<char>>;

/// A character an HTTP header name may hold (a `tchar` of RFC 9110; `http` lower-cases letters).
pub open spec fn is_token_char(c: char) -> bool {
    ('a' <= c && c <= 'z') || ('A' <= c && c <= 'Z') || ('0' <= c && c <= '9') || c == '!' || c == '#'
        || c == '$' || c == '%' || c == '&' || c == '\'' || c == '*' || c == '+' || c == '-' || c == '.'
        || c == '^' || c == '_' || c == '`' || c == '|' || c == '~'
}

/// The names `HeaderName::from_bytes` accepts: 1 to 65535 token characters.
pub open spec fn valid_header_name(s: Seq<char>) -> bool {
    0 < s.len() <= 65535 && forall|i: int| 0 <= i < s.len() ==> is_token_char(#[trigger] s[i])
}

/// The values `HeaderValue::from_str` accepts: no control character but tab, no DEL.
pub open spec fn valid_header_value(s: Seq<char>) -> bool {
    forall|i: int| 0 <= i < s.len() ==> {
        let u = (#[trigger] s[i]) as u32;
        (u >= 32 && u != 127) || u == 9
    }
}

/// `s` with its ASCII capitals turned into small letters, as `http` keeps a header name.
pub open spec fn ascii_lower(s: Seq<char>) -> Seq<char> {
    s.map_values(|c: char| if 'A' <= c && c <= 'Z' { ((c as u32) + 32) as char } else { c })
}

/// The fewest headers a request holds when `http` refuses to add one more: its header
/// table never grows past 32768 slots, and it only asks to once it holds a fifth of them.
pub open spec fn header_capacity_floor() -> nat {
    6554
}

/// A URI that parsed, as it prints.
pub open spec fn parsed_uri(t: Seq<char>) -> Result<Seq<char>, Seq<char>> {
    Ok(t)
}

/// A request without headers.
pub open spec fn no_headers() -> Map<Seq<char>, Seq<char>> {
    Map::empty()
}

/// A URI refused with message `t`.
pub open spec fn refused_uri(t: Seq<char>) -> Result<Seq<char>, Seq<char>> {
    Err(t)
}

/// Why `http` would not add a header.
enum HeaderRefusal {
    Name(String),
    Value(String),
    Full(String),
}

/// `Request::builder().uri(url).body(())`, with the builder's error written out by its
/// `Display`: a request with the URI that `uri_parse` names and no headers, or that error.
#[verifier::external_body]
fn request_for_url(url: &String) -> (r: Result<Request<()>, String>)
    ensures
        r is Ok <==> uri_parse(url@) is Ok,
        r matches Ok(q) ==> uri_parse(url@) == parsed_uri(request_uri(q)),
        r matches Ok(q) ==> request_headers(q) == no_headers(),
        r matches Err(t) ==> uri_parse(url@) == refused_uri(t@),
{
    Request::builder().uri(url).body(()).map_err(|e| e.to_string())
}

/// `HeaderName::from_bytes` on the bytes of `name`, `HeaderValue::from_str` on `value`,
/// then `request.headers_mut().try_insert` of the pair, each error written out by its
/// `Display`. The name is kept lower-cased, and replaces any value the header had.
/// `try_insert` refuses only when the table cannot grow, which needs at least
/// `header_capacity_floor()` headers already there; the request's headers are then as they were.
#[verifier::external_body]
fn insert_header(request: &mut Request<()>, name: &String, value: &String) -> (r: Result<(), HeaderRefusal>)
    ensures
        r matches Err(HeaderRefusal::Name(_)) <==> !valid_header_name(name@),
        valid_header_name(name@) ==> (r matches Err(HeaderRefusal::Value(_)) <==> !valid_header_value(value@)),
        r matches Err(HeaderRefusal::Value(_)) ==> valid_header_name(name@),
        r matches Err(HeaderRefusal::Name(t)) ==> t@ == "invalid HTTP header name"@,
        r matches Err(HeaderRefusal::Value(t)) ==> t@ == "failed to parse header value"@,
        r matches Err(HeaderRefusal::Full(t)) ==> t@ == "max size reached"@,
        r matches Err(HeaderRefusal::Full(_)) ==> request_headers(*old(request)).dom().len() >= header_capacity_floor(),
        r is Ok ==> request_headers(*final(request)) == request_headers(*old(request)).insert(ascii_lower(name@), value@),
        r is Err ==> request_headers(*final(request)) == request_headers(*old(request)),
        request_uri(*final(request)) == request_uri(*old(request)),
{
    let n = HeaderName::from_bytes(name.as_bytes()).map_err(|e| HeaderRefusal::Name(e.to_string()))?;
    let v = HeaderValue::from_str(value.as_str()).map_err(|e| HeaderRefusal::Value(e.to_string()))?;
    request.headers_mut().try_insert(n, v).map(|_| ()).map_err(|e| HeaderRefusal::Full(e.to_string()))
}

/// The header pairs as plain text.
pub open spec fn header_views(h: Seq<(String, String)>) -> Seq<(Seq<char>, Seq<char>)> {
    h.map_values(|p: (String, String)| (p.0@, p.1@))
}

/// Every pair has a name and a value that `http` accepts.
pub open spec fn headers_valid(h: Seq<(Seq<char>, Seq<char>)>) -> bool {
    forall|j: int| 0 <= j < h.len() ==> valid_header_name(#[trigger] h[j].0) && valid_header_value(h[j].1)
}

/// The headers a request holds once the pairs are set in order: each lower-cased name to
/// the last value given for it.
pub open spec fn headers_map(h: Seq<(Seq<char>, Seq<char>)>) -> Map<Seq<char>, Seq<char>>
    decreases h.len(),
{
    if h.len() == 0 {
        Map::empty()
    } else {
        headers_map(h.drop_last()).insert(ascii_lower(h.last().0), h.last().1)
    }
}

/// The complaint about the first header, in order, that `http` refuses, if any.
pub open spec fn header_error(h: Seq<(Seq<char>, Seq<char>)>) -> Option<Seq<char>>
    decreases h.len(),
{
    if h.len() == 0 {
        None
    } else if !valid_header_name(h[0].0) {
        Some("Invalid header name '"@ + h[0].0 + "': "@ + "invalid HTTP header name"@)
    } else if !valid_header_value(h[0].1) {
        Some("Invalid header value for '"@ + h[0].0 + "': "@ + "failed to parse header value"@)
    } else {
        header_error(h.drop_first())
    }
}

/// Why a WebSocket request for `url` with `headers` cannot be built, if it cannot.
pub open spec fn request_error(url: Seq<char>, h: Seq<(Seq<char>, Seq<char>)>) -> Option<Seq<char>> {
    match uri_parse(url) {
        Err(t) => Some("Invalid WebSocket URL '"@ + url + "': "@ + t),
        Ok(_) => header_error(h),
    }
}

/// The message when `http` has no room left for the header named `name`.
pub open spec fn full_message(name: Seq<char>) -> Seq<char> {
    "Cannot add header '"@ + name + "': "@ + "max size reached"@
}

/// `m` reports that the header at some position, valid like all before it, found no room
/// in a request that already held `header_capacity_floor()` headers.
pub open spec fn refused_for_room(url: Seq<char>, h: Seq<(Seq<char>, Seq<char>)>, m: Seq<char>) -> bool {
    &&& uri_parse(url) is Ok
    &&& exists|i: int|
        #![trigger h.take(i)]
        0 <= i < h.len() && headers_valid(h.take(i + 1))
            && headers_map(h.take(i)).dom().len() >= header_capacity_floor()
            && m == full_message(h[i].0)
}

/// A valid prefix followed by a valid pair is a valid prefix one longer.
proof fn lemma_valid_prefix_grows(h: Seq<(Seq<char>, Seq<char>)>, i: int)
    requires
        0 <= i < h.len(),
        headers_valid(h.take(i)),
        valid_header_name(h[i].0),
        valid_header_value(h[i].1),
    ensures
        headers_valid(h.take(i + 1)),
{
    assert forall|j: int| 0 <= j < h.take(i + 1).len() implies valid_header_name(#[trigger] h.take(i + 1)[j].0)
        && valid_header_value(h.take(i + 1)[j].1) by {
        if j < i {
            assert(h.take(i + 1)[j] == h.take(i)[j]);
        }
    }
}

/// Setting `h` in order leaves at most as many headers as there are pairs.
pub proof fn lemma_headers_map_len(h: Seq<(Seq<char>, Seq<char>)>)
    ensures
        headers_map(h).dom().finite(),
        headers_map(h).dom().len() <= h.len(),
    decreases h.len(),
{
    if h.len() > 0 {
        lemma_headers_map_len(h.drop_last());
    }
}

/// The handshake request for a WebSocket at `url` with the given headers, in order, or the
/// error for the URL or the first header that `http` refuses. Its URI is the one `http`
/// parses from `url` and its headers are the pairs, names lower-cased, the last value of a
/// name winning. A request that would need more than `header_capacity_floor()` headers may
/// instead be refused for want of room.
pub fn websocket_request(url: &String, headers: &Vec<(String, String)>) -> (r: Result<Request<()>, AgentException>)
    ensures
        r matches Ok(q) ==> request_error(url@, header_views(headers@)) is None
            && uri_parse(url@) == Ok::<Seq<char>, Seq<char>>(request_uri(q))
            && request_headers(q) == headers_map(header_views(headers@)),
        r matches Err(e) ==> request_error(url@, header_views(headers@)) == Some(e.message@)
            || refused_for_room(url@, header_views(headers@), e.message@),
        request_error(url@, header_views(headers@)) is None && headers@.len() <= header_capacity_floor() ==> r is Ok,
{
    let mut request = match request_for_url(url) {
        Ok(req) => req,
        Err(t) => {
            let e = error3("Invalid WebSocket URL '", url.as_str(), "': ");
            let mut m = e.message;
            m.append(t.as_str());
            return Err(AgentException { message: m });
        },
    };
    let ghost uri = request_uri(request);
    let ghost hs = header_views(headers@);
    assert(hs.skip(0) =~= hs);
    assert(hs.take(0) =~= Seq::<(Seq<char>, Seq<char>)>::empty());
    let mut i: usize = 0;
    while i < headers.len()
        invariant
            uri_parse(url@) == Ok::<Seq<char>, Seq<char>>(uri),
            request_uri(request) == uri,
            hs.len() == headers@.len(),
            0 <= i <= headers@.len(),
            hs == header_views(headers@),
            header_error(hs) == header_error(hs.skip(i as int)),
            headers_valid(hs.take(i as int)),
            request_headers(request) == headers_map(hs.take(i as int)),
        decreases headers@.len() - i,
    {
        let ghost rest = hs.skip(i as int);
        let ghost before = request_headers(request);
        assert(rest[0] == (headers@[i as int].0@, headers@[i as int].1@));
        let (key, value) = (&headers[i].0, &headers[i].1);
        match insert_header(&mut request, key, value) {
            Ok(()) => {},
            Err(HeaderRefusal::Name(t)) => {
                let e = error3("Invalid header name '", key.as_str(), "': ");
                let mut m = e.message;
                m.append(t.as_str());
                assert(header_error(rest) == Some(m@));
                return Err(AgentException { message: m });
            },
            Err(HeaderRefusal::Value(t)) => {
                let e = error3("Invalid header value for '", key.as_str(), "': ");
                let mut m = e.message;
                m.append(t.as_str());
                assert(header_error(rest) == Some(m@));
                return Err(AgentException { message: m });
            },
            Err(HeaderRefusal::Full(t)) => {
                let e = error3("Cannot add header '", key.as_str(), "': ");
                let mut m = e.message;
                m.append(t.as_str());
                proof {
                    lemma_headers_map_len(hs.take(i as int));
                    lemma_valid_prefix_grows(hs, i as int);
                    assert(m@ == full_message(hs[i as int].0));
                }
                return Err(AgentException { message: m });
            },
        }
        proof {
            assert(hs.take(i + 1).drop_last() =~= hs.take(i as int));
            assert(hs.take(i + 1).last() == hs[i as int]);
            lemma_valid_prefix_grows(hs, i as int);
        }
        assert(rest.drop_first() =~= hs.skip(i + 1));
        i = i + 1;
    }
    assert(hs.skip(i as int) =~= Seq::<(Seq<char>, Seq<char>)>::empty());
    assert(hs.take(i as int) =~= hs);
    Ok(request)
}

/// What the client sends on a session: binary data when it gave any, else its text.
pub enum Outgoing {
    Binary(Vec<u8>),
    Text(String),
}

/// Picks the frame to send: binary when `binary_data` is not empty, else `text_data`.
pub fn outgoing_message(binary_data: Vec<u8>, text_data: String) -> (m: Outgoing)
    ensures
        binary_data@.len() > 0 ==> m == Outgoing::Binary(binary_data),
        binary_data@.len() == 0 ==> m == Outgoing::Text(text_data),
{
    if binary_data.len() > 0 { Outgoing::Binary(binary_data) } else { Outgoing::Text(text_data) }
}

/// Answers a poll of a session from its buffer: the messages since the last poll, and
/// whether the connection is open.
pub fn read_data(buffer: &mut MessageBuffer) -> (d: WebSocketData)
    ensures
        d.messages@ == old(buffer).queued(),
        d.connected == old(buffer).is_connected(),
        final(buffer).queued().len() == 0,
        final(buffer).is_connected() == old(buffer).is_connected(),
{
    let (messages, connected) = buffer.drain();
    WebSocketData { messages, connected }
}

/// The open WebSocket sessions, each under its id `ws-<n>`. `S` reaches a session's socket
/// and message buffer.
pub struct WebSocketManager<S> {
    sessions: Registry<S>,
    counter: u64,
}

impl<S> WebSocketManager<S> {
    pub closed spec fn sessions(&self) -> Map<Seq<char>, S> {
        self.sessions.map()
    }

    pub closed spec fn issued(&self) -> nat {
        self.counter as nat
    }

    /// The table is well formed, and every session is under an id already handed out.
    pub closed spec fn wf(&self) -> bool {
        &&& self.sessions.wf()
        &&& forall|k: Seq<char>| #[trigger] self.sessions.map().dom().contains(k)
            ==> exists|j: nat| 1 <= j <= self.counter && k == session_id("ws"@, j)
    }

    pub fn new() -> (m: Self)
        ensures
            m.wf(),
            m.sessions() == Map::<Seq<char>, S>::empty(),
            m.issued() == 0,
    {
        WebSocketManager { sessions: Registry::new(), counter: 0 }
    }

    /// How many ids have been handed out.
    pub fn issued_count(&self) -> (n: u64)
        ensures
            n == self.issued(),
    {
        self.counter
    }

    /// Keeps a newly connected session under the next id, which it answers. That id is
    /// `ws-<n>` for the `n`-th session connected, and no open session has it.
    pub fn connect(&mut self, session: S) -> (id: String)
        requires
            old(self).wf(),
            old(self).issued() < u64::MAX,
        ensures
            final(self).wf(),
            final(self).issued() == old(self).issued() + 1,
            id@ == session_id("ws"@, final(self).issued()),
            !old(self).sessions().dom().contains(id@),
            final(self).sessions() == old(self).sessions().insert(id@, session),
    {
        self.counter = self.counter + 1;
        let id = make_id("ws", self.counter);
        proof {
            if self.sessions.map().dom().contains(id@) {
                let j = choose|j: nat| 1 <= j <= self.counter - 1 && id@ == session_id("ws"@, j);
                lemma_session_id_injective("ws"@, "ws"@, j, self.counter as nat);
            }
        }
        self.sessions.insert(id.clone(), session);
        proof {
            assert forall|k: Seq<char>| #[trigger] self.sessions.map().dom().contains(k)
                implies exists|j: nat| 1 <= j <= self.counter && k == session_id("ws"@, j) by {
                if k == id@ {
                    assert(1 <= self.counter as nat <= self.counter && k == session_id("ws"@, self.counter as nat));
                } else {
                    assert(old(self).sessions.map().dom().contains(k));
                }
            }
        }
        id
    }

    /// The session under `session_id`, or the error for an unknown one.
    pub fn session(&self, session_id: &str) -> (r: Result<&S, AgentException>)
        requires
            self.wf(),
        ensures
            r is Ok <==> self.sessions().dom().contains(session_id@),
            r matches Ok(s) ==> *s == self.sessions()[session_id@],
            r matches Err(e) ==> e.message@ == "WebSocket session not found: "@ + session_id@,
    {
        match self.sessions.get(session_id) {
            Some(s) => Ok(s),
            None => Err(error2("WebSocket session not found: ", session_id)),
        }
    }

    /// Drops the session under `session_id`, if there is one, and hands it back to be closed.
    pub fn close(&mut self, session_id: &str) -> (r: Option<S>)
        requires
            old(self).wf(),
        ensures
            final(self).wf(),
            r is Some <==> old(self).sessions().dom().contains(session_id@),
            r matches Some(s) ==> s == old(self).sessions()[session_id@],
            final(self).sessions() == old(self).sessions().remove(session_id@),
            final(self).issued() == old(self).issued(),
    {
        self.sessions.remove(session_id)
    }
}

} // verus!
