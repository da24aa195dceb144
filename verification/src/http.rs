//! The HTTP client's decisions: which methods it sends, and how replies are reported.
use vstd::prelude::*;
use crate::error::{AgentException, error2};
use crate::text::{chars_of, range_equals, str_uppercase, to_uppercase};

verus! {

/// The methods the agent sends.
#[derive(Debug, PartialEq, Eq, Structural)]
pub enum HttpMethod {
    Get,
    Delete,
    Post,
}

/// The method that an upper-cased method name stands for, if the agent supports it.
pub open spec fn method_named(upper: Seq<char>) -> Option<HttpMethod> {
    if upper == "GET"@ {
        Some(HttpMethod::Get)
    } else if upper == "DELETE"@ {
        Some(HttpMethod::Delete)
    } else if upper == "POST"@ {
        Some(HttpMethod::Post)
    } else {
        None
    }
}

/// The methods the agent sends are GET, DELETE and POST, named in capitals once the
/// request's method is upper-cased; every other name is refused.
pub proof fn law_method_table(upper: Seq<char>)
    ensures
        method_named("GET"@) == Some(HttpMethod::Get),
        method_named("DELETE"@) == Some(HttpMethod::Delete),
        method_named("POST"@) == Some(HttpMethod::Post),
        upper != "GET"@ && upper != "DELETE"@ && upper != "POST"@ ==> method_named(upper) is None,
{
    reveal_strlit("GET");
    reveal_strlit("DELETE");
    reveal_strlit("POST");
    assert("DELETE"@.len() != "GET"@.len());
    assert("POST"@.len() != "GET"@.len() && "POST"@.len() != "DELETE"@.len());
}

/// Reads the method of a request, in any case; other methods are refused.
pub fn http_method(method: &str) -> (r: Result<HttpMethod, AgentException>)
    ensures
        r is Ok <==> method_named(str_uppercase(method@)) is Some,
        r matches Ok(m) ==> method_named(str_uppercase(method@)) == Some(m),
        r matches Err(e) ==> e.message@ == "Unsupported HTTP method: "@ + method@,
{
    let upper = to_uppercase(method);
    let u = chars_of(upper.as_str());
    assert(u@.subrange(0, u@.len() as int) =~= u@);
    if range_equals(&u, 0, u.len(), &chars_of("GET")) {
        Ok(HttpMethod::Get)
    } else if range_equals(&u, 0, u.len(), &chars_of("DELETE")) {
        Ok(HttpMethod::Delete)
    } else if range_equals(&u, 0, u.len(), &chars_of("POST")) {
        Ok(HttpMethod::Post)
    } else {
        Err(error2("Unsupported HTTP method: ", method))
    }
}

/// The reply to a proxied request: status, body, and the headers when there are any.
#[derive(Debug)]
pub struct HttpResponse {
    pub status_code: i32,
    pub body: Vec<u8>,
    pub headers: Option<Vec<(String, String)>>,
}

/// The headers that have a text value, in order.
pub open spec fn text_headers(h: Seq<(String, Option<String>)>) -> Seq<(String, String)>
    decreases h.len(),
{
    if h.len() == 0 {
        Seq::empty()
    } else {
        let r = text_headers(h.drop_last());
        match h.last().1 {
            Some(v) => r.push((h.last().0, v)),
            None => r,
        }
    }
}

/// The reply for a server's answer: its status, its body, and each header whose value is
/// text (`None` when there is none).
pub fn http_response(status: u16, headers: Vec<(String, Option<String>)>, body: Vec<u8>) -> (r: HttpResponse)
    ensures
        r.status_code == status as i32,
        r.body == body,
        r.headers is None <==> text_headers(headers@).len() == 0,
        r.headers matches Some(h) ==> h@ == text_headers(headers@),
{
    let mut kept: Vec<(String, String)> = Vec::new();
    let mut i: usize = 0;
    assert(headers@.take(0) =~= Seq::<(String, Option<String>)>::empty());
    while i < headers.len()
        invariant
            0 <= i <= headers@.len(),
            kept@ == text_headers(headers@.take(i as int)),
        decreases headers@.len() - i,
    {
        assert(headers@.take(i + 1).drop_last() =~= headers@.take(i as int));
        match &headers[i].1 {
            Some(v) => {
                let name = headers[i].0.clone();
                let value = v.clone();
                kept.push((name, value));
            },
            None => {},
        }
        i = i + 1;
    }
    assert(headers@.take(i as int) =~= headers@);
    let hs = if kept.len() == 0 { None } else { Some(kept) };
    HttpResponse { status_code: status as i32, body, headers: hs }
}

/// The reply when the server answered with an error status: that status, nothing else.
pub fn status_response(status: u16) -> (r: HttpResponse)
    ensures
        r.status_code == status as i32,
        r.body@.len() == 0,
        r.headers is None,
{
    HttpResponse { status_code: status as i32, body: Vec::new(), headers: None }
}

/// Whether a header has a text value.
pub open spec fn has_text(p: (String, Option<String>)) -> bool {
    p.1 is Some
}

/// A header with a text value, as the reply reports it.
pub open spec fn as_text(p: (String, Option<String>)) -> (String, String) {
    (p.0, p.1->Some_0)
}

/// The reply keeps every header whose value is text, in the order the server gave them,
/// and no other: they are the text-valued headers, each with its value, and there are as
/// many of them as there are text-valued headers.
pub proof fn law_reply_keeps_every_text_header(h: Seq<(String, Option<String>)>)
    ensures
        text_headers(h) == h.filter(|p: (String, Option<String>)| has_text(p)).map_values(
            |p: (String, Option<String>)| as_text(p),
        ),
        text_headers(h).len() == h.filter(|p: (String, Option<String>)| has_text(p)).len(),
        forall|i: int| 0 <= i < h.len() && #[trigger] h[i].1 is Some
            ==> text_headers(h).contains((h[i].0, h[i].1->Some_0)),
    decreases h.len(),
{
    let pred = |p: (String, Option<String>)| has_text(p);
    let f = |p: (String, Option<String>)| as_text(p);
    reveal_with_fuel(Seq::filter, 1);
    if h.len() > 0 {
        law_reply_keeps_every_text_header(h.drop_last());
        assert(h.filter(pred) == if pred(h.last()) { h.drop_last().filter(pred).push(h.last()) } else {
            h.drop_last().filter(pred)
        });
        if pred(h.last()) {
            assert(h.filter(pred).map_values(f) =~= h.drop_last().filter(pred).map_values(f).push(f(h.last())));
        }
        assert forall|i: int| 0 <= i < h.len() && #[trigger] h[i].1 is Some
            implies text_headers(h).contains((h[i].0, h[i].1->Some_0)) by {
            if i < h.len() - 1 {
                assert(h.drop_last()[i] == h[i]);
                let r = text_headers(h.drop_last());
                assert(r.contains((h[i].0, h[i].1->Some_0)));
                let w = choose|w: int| 0 <= w < r.len() && r[w] == (h[i].0, h[i].1->Some_0);
                assert(text_headers(h)[w] == r[w]);
            } else {
                assert(h.last() == h[i]);
                assert(text_headers(h).last() == (h[i].0, h[i].1->Some_0));
            }
        }
    } else {
        assert(h.filter(pred) =~= Seq::<(String, Option<String>)>::empty());
    }
}

} // verus!
