//! The error that the agent's operations report to a client.
use vstd::prelude::*;

verus! {

/// A failed request, with the message the client sees.
#[derive(Debug)]
pub struct AgentException {
    pub message: String,
}

/// An error whose message is `a`, then `b`, then `c`.
pub fn error3(a: &str, b: &str, c: &str) -> (e: AgentException)
    ensures
        e.message@ == a@ + b@ + c@,
{
    let mut m = String::new();
    m.append(a);
    m.append(b);
    m.append(c);
    assert(m@ =~= a@ + b@ + c@);
    AgentException { message: m }
}

/// An error whose message is `a` followed by `b`.
pub fn error2(a: &str, b: &str) -> (e: AgentException)
    ensures
        e.message@ == a@ + b@,
{
    let mut m = String::new();
    m.append(a);
    m.append(b);
    assert(m@ =~= a@ + b@);
    AgentException { message: m }
}

} // verus!
