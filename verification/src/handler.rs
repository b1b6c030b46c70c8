//! The function table for spawned servers.
//!
//! A closure cannot cross an isolation boundary, so a server is spawned with
//! an index into a table of known handlers plus a separately transferred
//! captured state. Each handler is a plain state transition: from the owned
//! state and a request to the new state and the response.

use crate::codec::Value;
use vstd::prelude::*;

verus! {

/// The known handler functions a server can be spawned with.
#[derive(Clone, Copy, PartialEq, Eq, Structural, Debug)]
pub enum Handler {
    /// State and requests are integers; each request is added to the state
    /// (wrapping) and the new state is the response.
    Accumulate,
    /// The state is kept and the request itself is the response.
    Echo,
    /// Panics on every request.
    Crash,
}

/// Addition that wraps around the 64-bit boundary.
pub open spec fn wrap_add(a: u64, b: u64) -> u64 {
    if a + b <= u64::MAX {
        (a + b) as u64
    } else {
        (a + b - 0x1_0000_0000_0000_0000) as u64
    }
}

/// What a handler does with one request: `Some((state, response))`, or
/// `None` where the handler aborts the unit — it panics, or the state or
/// request bytes do not match the type the handler statically expects (a
/// protocol contract violation, fatal by design).
pub open spec fn handler_result(h: Handler, state: Value, request: Value) -> Option<
    (Value, Value),
> {
    match h {
        Handler::Accumulate => match (state, request) {
            (Value::Int(s), Value::Int(m)) => Some(
                (Value::Int(wrap_add(s, m)), Value::Int(wrap_add(s, m))),
            ),
            _ => None,
        },
        Handler::Echo => Some((state, request)),
        Handler::Crash => None,
    }
}

/// Runs one request against the owned state. `None` reports that the
/// handler aborted; the state is then left as it was (the unit is about to
/// be unwound and never reads it again).
pub fn apply_handler(h: Handler, state: &mut Value, request: Value) -> (r: Option<Value>)
    ensures
        match handler_result(h, *old(state), request) {
            Some(sr) => r == Some(sr.1) && *final(state) == sr.0,
            None => r == None::<Value> && *final(state) == *old(state),
        },
{
    match h {
        Handler::Accumulate => {
            let s = *state;
            match (s, request) {
                (Value::Int(a), Value::Int(m)) => {
                    let t = wrapping_add_u64(a, m);
                    *state = Value::Int(t);
                    Some(Value::Int(t))
                },
                _ => None,
            }
        },
        Handler::Echo => Some(request),
        Handler::Crash => None,
    }
}

/// 64-bit addition, wrapping on overflow.
pub fn wrapping_add_u64(a: u64, b: u64) -> (r: u64)
    ensures
        r == wrap_add(a, b),
{
    if b <= u64::MAX - a {
        a + b
    } else {
        b - (u64::MAX - a) - 1
    }
}

/// The responses a server gives to a sequence of requests handled one after
/// the other from a starting state; the run stops early if the handler
/// aborts.
pub open spec fn run_requests(h: Handler, state: Value, requests: Seq<Value>) -> Seq<Value>
    decreases requests.len(),
{
    if requests.len() == 0 {
        Seq::empty()
    } else {
        match handler_result(h, state, requests[0]) {
            Some(sr) => seq![sr.1] + run_requests(h, sr.0, requests.drop_first()),
            None => Seq::empty(),
        }
    }
}

/// Integers wrapped as message values.
pub open spec fn ints(xs: Seq<u64>) -> Seq<Value> {
    xs.map_values(|x: u64| Value::Int(x))
}

/// The running (wrapping) sums of a sequence, starting from `start`: element
/// `i` is `start` plus the first `i + 1` inputs.
pub open spec fn running_sums(start: u64, xs: Seq<u64>) -> Seq<u64>
    decreases xs.len(),
{
    if xs.len() == 0 {
        Seq::empty()
    } else {
        seq![wrap_add(start, xs[0])] + running_sums(wrap_add(start, xs[0]), xs.drop_first())
    }
}

/// An accumulator server is sequentially consistent: starting from any
/// state, its responses to any sequence of integer requests are exactly the
/// running sums of those requests. Each successful `request` call applies
/// `handler_result` to the server's state exactly once, so a chain of
/// requests from one caller realizes `run_requests`.
pub proof fn lemma_accumulator_cumulative(start: u64, requests: Seq<u64>)
    ensures
        run_requests(Handler::Accumulate, Value::Int(start), ints(requests)) == ints(
            running_sums(start, requests),
        ),
    decreases requests.len(),
{
    if requests.len() == 0 {
        assert(run_requests(Handler::Accumulate, Value::Int(start), ints(requests)) =~= ints(
            running_sums(start, requests),
        ));
    } else {
        let t = wrap_add(start, requests[0]);
        lemma_accumulator_cumulative(t, requests.drop_first());
        assert(ints(requests).drop_first() =~= ints(requests.drop_first()));
        assert(ints(requests)[0] == Value::Int(requests[0]));
        assert(run_requests(Handler::Accumulate, Value::Int(start), ints(requests)) =~= ints(
            running_sums(start, requests),
        ));
    }
}

} // verus!
