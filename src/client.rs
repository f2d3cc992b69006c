//! The request/response correlation engine: it allocates request ids, keeps
//! the table of pending completions, frames outbound messages and routes each
//! inbound response to the completion that waits for it.
use crate::json::{
    as_str, as_u64, classify, decimal_of, decimal_text, digit_char, get_field, json_field,
    json_number, json_object, json_str, json_string, json_text, json_u64, map_insert, new_map,
    number_value, object_value, rpc_kind_of, string_value, to_json_text, Members, RpcKind,
};
use crate::parsing::{
    all_digits, decimal_usize, digits_value, find_from, header_block_spec, header_line_spec,
    header_parts, line_at, line_end, lowered, message_end, message_spec, occurs_at, parsed_json,
    pieces_of, trim_end, trim_start, trimmed, unsigned_digits, ErrorShape, HeaderProgress,
};
use std::collections::HashMap;
use vstd::prelude::*;
use vstd::utf8::{encode_scalar, encode_utf8, is_ascii_chars};

verus! {

broadcast use vstd::std_specs::hash::group_hash_axioms;

/// The frame that carries a JSON text: a `Content-Length` header with the
/// text's length in UTF-8 bytes, a blank line, and the text.
pub open spec fn frame_of(text: Seq<char>) -> Seq<char> {
    "Content-Length: "@ + decimal_of(encode_utf8(text).len()) + "\r\n\r\n"@ + text
}

/// Generates a Language Server Protocol message that carries `msg`.
pub fn prepare_lsp_json(msg: &serde_json::Value) -> (r: Result<String, serde_json::Error>)
    ensures
        match r {
            Ok(frame) => json_text(*msg) matches Some(t) && frame@ == frame_of(t),
            Err(_) => json_text(*msg) is None,
        },
{
    let request = match to_json_text(msg) {
        Ok(t) => t,
        Err(e) => {
            return Err(e);
        },
    };
    let frame = "Content-Length: ".to_owned().concat(decimal_text(request.as_str().len()).as_str());
    let frame = frame.concat("\r\n\r\n").concat(request.as_str());
    Ok(frame)
}

/// The members of an outbound message: JSON-RPC 2.0, the method and its
/// parameters.
pub open spec fn message_members(method: Seq<char>, params: serde_json::Value) -> Members {
    Members::empty().insert("jsonrpc"@, json_string("2.0"@)).insert(
        "method"@,
        json_string(method),
    ).insert("params"@, params)
}

/// The request with this id, method and parameters.
pub open spec fn request_value(id: usize, method: Seq<char>, params: serde_json::Value) -> serde_json::Value {
    json_object(message_members(method, params).insert("id"@, json_number(id)))
}

/// The notification with this method and parameters.
pub open spec fn notification_value(method: Seq<char>, params: serde_json::Value) -> serde_json::Value {
    json_object(message_members(method, params))
}

fn message_map(method: &str, params: serde_json::Value) -> (r: crate::json::JsonMap)
    ensures
        crate::json::map_members(r) == message_members(method@, params),
{
    let mut m = new_map();
    map_insert(&mut m, "jsonrpc", string_value("2.0"));
    map_insert(&mut m, "method", string_value(method));
    map_insert(&mut m, "params", params);
    m
}

/// The id that a response carries: a JSON string of decimal digits, or a JSON
/// number.
pub open spec fn id_spec(id: Option<serde_json::Value>) -> Option<usize> {
    match id {
        None => None,
        Some(v) => match json_str(v) {
            Some(s) => decimal_usize(s),
            None => match json_u64(v) {
                Some(n) => if n <= usize::MAX {
                    Some(n as usize)
                } else {
                    None
                },
                None => None,
            },
        },
    }
}

/// Reads the id of a response.
pub fn number_from_id(id: Option<&serde_json::Value>) -> (r: Option<usize>)
    ensures
        r == id_spec(
            match id {
                Some(v) => Some(*v),
                None => None,
            },
        ),
{
    let v = match id {
        Some(v) => v,
        None => {
            return None;
        },
    };
    match as_str(v) {
        Some(s) => match crate::parsing::parse_usize(s) {
            Ok(n) => Some(n),
            Err(_) => None,
        },
        None => match as_u64(v) {
            Some(n) => if n <= usize::MAX as u64 {
                Some(n as usize)
            } else {
                None
            },
            None => None,
        },
    }
}

/// Why an inbound message cannot be routed; each one is a broken peer or a
/// broken engine.
#[derive(Debug, Clone, Copy, PartialEq, Eq, Structural)]
pub enum Violation {
    /// The message is no JSON-RPC message.
    NotRpc,
    /// A response without an `id`.
    MissingId,
    /// A response whose `id` is neither a number nor a string of digits.
    BadId,
    /// A success response without a `result`.
    MissingResult,
    /// A response to no request in flight.
    UnknownId(usize),
}

/// What becomes of an inbound message.
pub enum Delivery<C> {
    /// A request or a notification from the server: it is logged and dropped.
    Ignored(RpcKind),
    /// A response: the completion of its request, and the outcome to hand it.
    Complete(C, Result<serde_json::Value, serde_json::Value>),
}

/// The shape of an inbound message, as jsonrpc-lite reads its JSON text.
pub open spec fn kind_spec(msg: serde_json::Value) -> Option<RpcKind> {
    match json_text(msg) {
        Some(t) => rpc_kind_of(t),
        None => None,
    }
}

/// The id of a response, or why it has none that can be used.
pub open spec fn response_id_spec(msg: serde_json::Value) -> Result<usize, Violation> {
    match json_field(msg, "id"@) {
        None => Err(Violation::MissingId),
        Some(v) => match id_spec(Some(v)) {
            Some(id) => Ok(id),
            None => Err(Violation::BadId),
        },
    }
}

/// Where an inbound message goes, given the pending table: `Ok(Some((id,
/// success)))` for a response that completes the request `id`, `Ok(None)` for a
/// message that is dropped.
pub open spec fn route_spec<C>(pending: Map<usize, C>, msg: serde_json::Value) -> Result<
    Option<(usize, bool)>,
    Violation,
> {
    match kind_spec(msg) {
        None => Err(Violation::NotRpc),
        Some(RpcKind::Request) => Ok(None),
        Some(RpcKind::Notification) => Ok(None),
        Some(k) => match response_id_spec(msg) {
            Err(v) => Err(v),
            Ok(id) => if k == RpcKind::Success && json_field(msg, "result"@) is None {
                Err(Violation::MissingResult)
            } else if !pending.contains_key(id) {
                Err(Violation::UnknownId(id))
            } else {
                Ok(Some((id, k == RpcKind::Success)))
            },
        },
    }
}

/// What one call does to the table of pending completions.
pub enum Step {
    /// A request took this id.
    Issue(usize),
    /// The response to this id was routed to its completion.
    Deliver(usize),
    /// Nothing was issued or delivered.
    Quiet,
}

/// One call of the engine, from state `a` to state `b`.
pub open spec fn session_step<C>(a: LanguageServer<C>, b: LanguageServer<C>, step: Step) -> bool {
    match step {
        Step::Issue(id) => {
            &&& id == a.next_id()
            &&& b.next_id() == a.next_id() + 1
            &&& b.pending().contains_key(id)
            &&& b.pending() == a.pending().insert(id, b.pending()[id])
        },
        Step::Deliver(id) => {
            &&& a.pending().contains_key(id)
            &&& b.next_id() == a.next_id()
            &&& b.pending() == a.pending().remove(id)
        },
        Step::Quiet => {
            &&& b.next_id() == a.next_id()
            &&& b.pending() == a.pending()
        },
    }
}

/// A session: the states of one engine, and the step of each call between
/// two of them.
pub open spec fn is_session<C>(states: Seq<LanguageServer<C>>, steps: Seq<Step>) -> bool {
    &&& states.len() == steps.len() + 1
    &&& forall|k: int| 0 <= k < states.len() ==> #[trigger] states[k].wf()
    &&& forall|k: int|
        0 <= k < steps.len() ==> #[trigger] session_step(states[k], states[k + 1], steps[k])
}

/// The state of the engine: the completions of the requests in flight, by id,
/// and the id that the next request takes.
pub struct LanguageServer<C> {
    pending: HashMap<usize, C>,
    next_id: usize,
}

impl<C> LanguageServer<C> {
    /// The completions of the requests in flight, by id.
    pub closed spec fn pending(&self) -> Map<usize, C> {
        self.pending@
    }

    /// The id that the next request takes.
    pub closed spec fn next_id(&self) -> nat {
        self.next_id as nat
    }

    /// Every id in flight was handed out before the next one, and ids start
    /// at 1.
    pub open spec fn wf(&self) -> bool {
        &&& self.next_id() >= 1
        &&& forall|id: usize| #[trigger] self.pending().contains_key(id) ==> id < self.next_id()
    }

    pub fn new() -> (r: Self)
        ensures
            r.wf(),
            r.pending() == Map::<usize, C>::empty(),
            r.next_id() == 1,
    {
        LanguageServer { pending: HashMap::new(), next_id: 1 }
    }

    /// Whether another request can take an id.
    pub fn can_issue(&self) -> (r: bool)
        ensures
            r == (self.next_id() < usize::MAX),
    {
        self.next_id < usize::MAX
    }

    /// Takes the next id for a request to `method` with `params`, records
    /// `completion` under it, and gives the id and the frame to send. Where the
    /// request cannot be written as JSON, nothing changes.
    pub fn send_request(&mut self, method: &str, params: serde_json::Value, completion: C) -> (r:
        Result<(usize, String), serde_json::Error>)
        requires
            old(self).wf(),
            old(self).next_id() < usize::MAX,
        ensures
            final(self).wf(),
            match r {
                Ok((id, frame)) => {
                    &&& id == old(self).next_id()
                    &&& json_text(request_value(id, method@, params)) matches Some(t)
                    &&& frame@ == frame_of(t)
                    &&& final(self).next_id() == old(self).next_id() + 1
                    &&& final(self).pending() == old(self).pending().insert(id, completion)
                    &&& session_step(*old(self), *final(self), Step::Issue(id))
                },
                Err(_) => {
                    &&& json_text(request_value(old(self).next_id() as usize, method@, params)) is None
                    &&& final(self).next_id() == old(self).next_id()
                    &&& final(self).pending() == old(self).pending()
                    &&& session_step(*old(self), *final(self), Step::Quiet)
                },
            },
    {
        let id = self.next_id;
        let mut m = message_map(method, params);
        map_insert(&mut m, "id", number_value(id));
        let request = object_value(m);
        let frame = match prepare_lsp_json(&request) {
            Ok(f) => f,
            Err(e) => {
                return Err(e);
            },
        };
        self.pending.insert(id, completion);
        self.next_id = id + 1;
        assert forall|k: usize| #[trigger] self.pending().contains_key(k) implies k
            < self.next_id() by {
            if k != id {
                assert(old(self).pending().contains_key(k));
            }
        }
        Ok((id, frame))
    }

    /// Gives the frame of a notification to `method` with `params`; no id is
    /// taken and nothing is recorded.
    pub fn send_notification(&self, method: &str, params: serde_json::Value) -> (r: Result<
        String,
        serde_json::Error,
    >)
        ensures
            match r {
                Ok(frame) => json_text(notification_value(method@, params)) matches Some(t)
                    && frame@ == frame_of(t),
                Err(_) => json_text(notification_value(method@, params)) is None,
            },
    {
        let notification = object_value(message_map(method, params));
        prepare_lsp_json(&notification)
    }

    /// Routes an inbound message. A response takes the completion of its
    /// request out of the table and hands it back with the outcome: the whole
    /// message, as `Ok` for a success and as `Err` for an error.
    pub fn handle_msg(&mut self, msg: serde_json::Value) -> (r: Result<Delivery<C>, Violation>)
        requires
            old(self).wf(),
        ensures
            final(self).wf(),
            final(self).next_id() == old(self).next_id(),
            match route_spec(old(self).pending(), msg) {
                Err(v) => r == Err::<Delivery<C>, Violation>(v) && final(self).pending() == old(
                    self,
                ).pending() && session_step(*old(self), *final(self), Step::Quiet),
                Ok(None) => r matches Ok(Delivery::Ignored(k)) && kind_spec(msg) == Some(k)
                    && final(self).pending() == old(self).pending() && session_step(
                    *old(self),
                    *final(self),
                    Step::Quiet,
                ),
                Ok(Some((id, success))) => r matches Ok(Delivery::Complete(c, outcome)) && c
                    == old(self).pending()[id] && outcome == (if success {
                    Ok::<serde_json::Value, serde_json::Value>(msg)
                } else {
                    Err(msg)
                }) && final(self).pending() == old(self).pending().remove(id) && session_step(
                    *old(self),
                    *final(self),
                    Step::Deliver(id),
                ),
            },
    {
        let kind = match to_json_text(&msg) {
            Ok(text) => classify(text.as_str()),
            Err(_) => None,
        };
        let kind = match kind {
            Some(k) => k,
            None => {
                return Err(Violation::NotRpc);
            },
        };
        match kind {
            RpcKind::Request => {
                return Ok(Delivery::Ignored(kind));
            },
            RpcKind::Notification => {
                return Ok(Delivery::Ignored(kind));
            },
            _ => {},
        }
        let id = match get_field(&msg, "id") {
            None => {
                return Err(Violation::MissingId);
            },
            Some(v) => match number_from_id(Some(v)) {
                Some(id) => id,
                None => {
                    return Err(Violation::BadId);
                },
            },
        };
        let success = match kind {
            RpcKind::Success => true,
            _ => false,
        };
        if success && get_field(&msg, "result").is_none() {
            return Err(Violation::MissingResult);
        }
        match self.pending.remove(&id) {
            None => Err(Violation::UnknownId(id)),
            Some(c) => if success {
                Ok(Delivery::Complete(c, Ok(msg)))
            } else {
                Ok(Delivery::Complete(c, Err(msg)))
            },
        }
    }
}

/// Along a session, `next_id` never falls.
proof fn lemma_next_id_grows<C>(states: Seq<LanguageServer<C>>, steps: Seq<Step>, i: int, j: int)
    requires
        is_session(states, steps),
        0 <= i <= j < states.len(),
    ensures
        states[i].next_id() <= states[j].next_id(),
    decreases j - i,
{
    if i < j {
        lemma_next_id_grows(states, steps, i, j - 1);
        assert(session_step(states[j - 1], states[(j - 1) + 1], steps[j - 1]));
    }
}

/// Request ids strictly increase along a session: of two requests, the later
/// one has the greater id, so no two requests share an id.
pub proof fn lemma_request_ids_increase<C>(
    states: Seq<LanguageServer<C>>,
    steps: Seq<Step>,
    i: int,
    j: int,
)
    requires
        is_session(states, steps),
        0 <= i < j < steps.len(),
        steps[i] is Issue,
        steps[j] is Issue,
    ensures
        steps[i]->Issue_0 < steps[j]->Issue_0,
{
    assert(session_step(states[i], states[i + 1], steps[i]));
    assert(session_step(states[j], states[j + 1], steps[j]));
    lemma_next_id_grows(states, steps, i + 1, j);
}

/// Once the response to a request has been delivered, its id is in flight no
/// more for the rest of the session.
proof fn lemma_delivered_stays_out<C>(
    states: Seq<LanguageServer<C>>,
    steps: Seq<Step>,
    i: int,
    k: int,
)
    requires
        is_session(states, steps),
        0 <= i < steps.len(),
        steps[i] is Deliver,
        i < k < states.len(),
    ensures
        !states[k].pending().contains_key(steps[i]->Deliver_0),
        steps[i]->Deliver_0 < states[k].next_id(),
    decreases k - i,
{
    let id = steps[i]->Deliver_0;
    assert(session_step(states[i], states[i + 1], steps[i]));
    assert(states[i].wf());
    if k > i + 1 {
        lemma_delivered_stays_out(states, steps, i, k - 1);
        assert(session_step(states[k - 1], states[(k - 1) + 1], steps[k - 1]));
    }
}

/// A completion is delivered at most once: no two steps of a session deliver
/// the response to one id.
pub proof fn lemma_delivered_at_most_once<C>(
    states: Seq<LanguageServer<C>>,
    steps: Seq<Step>,
    i: int,
    j: int,
)
    requires
        is_session(states, steps),
        0 <= i < j < steps.len(),
        steps[i] is Deliver,
        steps[j] is Deliver,
    ensures
        steps[i]->Deliver_0 != steps[j]->Deliver_0,
{
    lemma_delivered_stays_out(states, steps, i, j);
    assert(session_step(states[j], states[j + 1], steps[j]));
}


proof fn lemma_decimal_of(n: nat)
    ensures
        all_digits(decimal_of(n)),
        digits_value(decimal_of(n)) == n,
    decreases n,
{
    let d = decimal_of(n);
    assert(digit_char(n % 10) as int - '0' as int == n % 10);
    if n < 10 {
        assert(d.drop_last() =~= Seq::<char>::empty());
        assert(d.last() == digit_char(n % 10));
        assert(digits_value(d) == digits_value(d.drop_last()) * 10 + (d.last() as int - '0' as int));
    } else {
        lemma_decimal_of(n / 10);
        assert(d.drop_last() == decimal_of(n / 10));
        assert(d.last() == digit_char(n % 10));
        assert(n == (n / 10) * 10 + n % 10);
        assert(digits_value(d) == digits_value(d.drop_last()) * 10 + (d.last() as int - '0' as int));
        assert(all_digits(d)) by {
            assert forall|i: int| 0 <= i < d.len() implies '0' <= #[trigger] d[i] && d[i] <= '9' by {
                if i < d.len() - 1 {
                    assert(d[i] == decimal_of(n / 10)[i]);
                }
            }
        }
    }
}

proof fn lemma_encode_concat(a: Seq<char>, b: Seq<char>)
    ensures
        encode_utf8(a + b) == encode_utf8(a) + encode_utf8(b),
    decreases a.len(),
{
    if a.len() > 0 {
        assert((a + b).drop_first() == a.drop_first() + b);
        lemma_encode_concat(a.drop_first(), b);
        assert((a + b)[0] == a[0]);
        assert(encode_utf8(a + b) == encode_scalar((a + b)[0] as u32) + encode_utf8((a + b).drop_first()));
        assert(encode_utf8(a) == encode_scalar(a[0] as u32) + encode_utf8(a.drop_first()));
        assert(encode_utf8(a + b) =~= encode_utf8(a) + encode_utf8(b));
    } else {
        assert(a + b =~= b);
        assert(encode_utf8(a) =~= Seq::<u8>::empty());
        assert(encode_utf8(a) + encode_utf8(b) =~= encode_utf8(b));
    }
}


proof fn lemma_line_end_at(b: Seq<u8>, p: int, q: int)
    requires
        0 <= p <= q < b.len(),
        forall|k: int| p <= k < q ==> b[k] != 10u8,
        b[q] == 10u8,
    ensures
        line_end(b, p) == q + 1,
    decreases q - p,
{
    if p < q {
        lemma_line_end_at(b, p + 1, q);
    }
}

proof fn lemma_find_none(s: Seq<char>, sep: Seq<char>, i: int)
    requires
        sep.len() > 0,
        forall|k: int| 0 <= k < s.len() ==> s[k] != sep[0],
    ensures
        find_from(s, sep, i) is None,
    decreases s.len() - i,
{
    if !(i < 0 || i + sep.len() > s.len()) {
        assert(s.subrange(i, i + sep.len())[0] == s[i]);
        lemma_find_none(s, sep, i + 1);
    }
}

proof fn lemma_find_skip(s: Seq<char>, sep: Seq<char>, i: int, j: int)
    requires
        0 <= i <= j,
        sep.len() > 0,
        forall|k: int| i <= k < j && k < s.len() ==> s[k] != sep[0],
    ensures
        find_from(s, sep, i) == find_from(s, sep, j),
    decreases j - i,
{
    if i < j && i + sep.len() <= s.len() {
        assert(s.subrange(i, i + sep.len())[0] == s[i]);
        lemma_find_skip(s, sep, i + 1, j);
    } else if i < j {
        assert(find_from(s, sep, j) is None);
    }
}


/// The header line that the writer emits for a body of `n` bytes.
pub open spec fn length_line(n: nat) -> Seq<char> {
    "Content-Length: "@ + decimal_of(n) + "\r\n"@
}

proof fn lemma_length_line(n: nat)
    requires
        n <= usize::MAX,
    ensures
        header_line_spec(None, length_line(n)) == Ok::<HeaderProgress, ErrorShape>(
            HeaderProgress::Continue(Some(n as usize)),
        ),
{
    reveal_strlit("Content-Length: ");
    reveal_strlit("\r\n");
    reveal_strlit(": ");
    reveal_strlit("content-length");
    reveal_strlit("content-type");
    let cl = "Content-Length: "@;
    let crlf = "\r\n"@;
    let d = decimal_of(n);
    lemma_decimal_of(n);
    let h1 = length_line(n);
    let sep = ": "@;
    assert(h1.len() == 18 + d.len());
    assert forall|k: int| 0 <= k < d.len() implies #[trigger] h1[16 + k] == d[k] by {}
    assert(h1[16 + d.len() as int] == '\r');
    assert(h1[17 + d.len() as int] == '\n');
    // the line splits at the separator after the name, and only there
    lemma_find_skip(h1, sep, 0, 14);
    assert(h1.subrange(14, 16) =~= sep);
    assert(occurs_at(h1, sep, 14));
    assert(find_from(h1, sep, 0) == Some(14int));
    let rest = h1.skip(16);
    assert(rest =~= d + crlf);
    assert forall|k: int| 0 <= k < rest.len() implies rest[k] != sep[0] by {
        if k < d.len() {
            assert(rest[k] == d[k]);
        }
    }
    lemma_find_none(rest, sep, 0);
    assert(pieces_of(rest, sep) == seq![rest]);
    let name = h1.take(14);
    assert(pieces_of(h1, sep) =~= seq![name, rest]);
    // the name, trimmed and lower-cased
    assert(name =~= "Content-Length"@) by {
        reveal_strlit("Content-Length");
    }
    assert(trim_start(name) == name);
    assert(trim_end(name) == name);
    assert(is_ascii_chars(name));
    assert(lowered(trimmed(name)) =~= "content-length"@);
    // the value, trimmed and lower-cased
    assert(trim_start(rest) == rest);
    assert(rest.drop_last().drop_last() =~= d);
    assert(trim_end(rest) == trim_end(rest.drop_last()));
    assert(trim_end(rest.drop_last()) == trim_end(d));
    assert(d.last() == d[d.len() - 1]);
    assert(trim_end(d) == d);
    assert(is_ascii_chars(d));
    assert(lowered(trimmed(rest)) =~= d);
    assert(unsigned_digits(d) == d);
    let parts = header_parts(h1);
    assert(parts.len() == 2);
    assert(parts[0] == "content-length"@);
    assert(parts[0] != "content-type"@);
    assert(parts[1] == d);
    assert(trimmed(h1).len() > 0) by {
        assert(trim_start(h1) == h1);
        assert(h1.drop_last().drop_last() =~= cl + d);
        assert(trim_end(h1) == trim_end(h1.drop_last()));
        assert(trim_end(h1.drop_last()) == trim_end(cl + d));
        assert((cl + d).last() == d[d.len() - 1]);
        assert(trim_end(cl + d) == cl + d);
    }
}


/// A frame that the writer made reads back whole: the reader hands its JSON
/// parser exactly the text that the writer framed, and stops at the frame's
/// end.
pub proof fn lemma_frame_round_trip(t: Seq<char>)
    requires
        encode_utf8(t).len() <= usize::MAX,
    ensures
        message_spec(encode_utf8(frame_of(t)), 0) == match parsed_json(t) {
            Some(v) => Ok::<serde_json::Value, ErrorShape>(v),
            None => Err(ErrorShape::Json),
        },
        message_end(encode_utf8(frame_of(t)), 0) == encode_utf8(frame_of(t)).len(),
{
    broadcast use vstd::utf8::encode_utf8_valid_utf8, vstd::utf8::encode_utf8_decode_utf8;

    reveal_strlit("Content-Length: ");
    reveal_strlit("\r\n");
    reveal_strlit("\r\n\r\n");
    let n = encode_utf8(t).len();
    let d = decimal_of(n);
    lemma_decimal_of(n);
    lemma_length_line(n);
    let crlf = "\r\n"@;
    let h1 = length_line(n);
    let head = h1 + crlf;
    assert(frame_of(t) =~= head + t);
    lemma_encode_concat(head, t);
    lemma_encode_concat(h1, crlf);
    let b = encode_utf8(frame_of(t));
    let l1 = h1.len() as int;
    assert(l1 == 18 + d.len());
    assert(is_ascii_chars(h1)) by {
        assert forall|k: int| 0 <= k < h1.len() implies '\0' <= #[trigger] h1[k] && h1[k] <= '\u{7f}' by {
            if 16 <= k < 16 + d.len() {
                assert(h1[k] == d[k - 16]);
            }
        }
    }
    assert(is_ascii_chars(crlf));
    vstd::utf8::is_ascii_chars_encode_utf8(h1);
    vstd::utf8::is_ascii_chars_encode_utf8(crlf);
    let e1 = encode_utf8(h1);
    let e2 = encode_utf8(crlf);
    let et = encode_utf8(t);
    assert(b == e1 + e2 + et);
    // the first line ends at the first line feed
    assert forall|k: int| 0 <= k < l1 - 1 implies b[k] != 10u8 by {
        assert(b[k] == e1[k]);
        assert(e1[k] == h1[k] as u8);
        if 16 <= k < 16 + d.len() {
            assert(h1[k] == d[k - 16]);
        }
    }
    assert(b[l1 - 1] == e1[l1 - 1]);
    assert(h1[l1 - 1] == '\n');
    lemma_line_end_at(b, 0, l1 - 1);
    assert(line_at(b, 0) =~= e1);
    // the second line is blank
    assert(b[l1] == e2[0]);
    assert(b[l1 + 1] == e2[1]);
    assert(b[l1] != 10u8);
    lemma_line_end_at(b, l1, l1 + 1);
    assert(line_at(b, l1) =~= e2);
    assert(trim_start(crlf) =~= Seq::<char>::empty()) by {
        let once = crlf.drop_first();
        assert(once[0] == '\n');
        assert(once.drop_first() =~= Seq::<char>::empty());
        assert(trim_start(crlf) == trim_start(once));
        assert(trim_start(once) == trim_start(once.drop_first()));
    }
    assert(header_line_spec(Some(n as usize), crlf) == Ok::<HeaderProgress, ErrorShape>(
        HeaderProgress::Body(n as usize),
    ));
    assert(header_block_spec(b, l1, Some(n as usize)) == Ok::<(usize, int), ErrorShape>(
        (n as usize, l1 + 2),
    ));
    assert(header_block_spec(b, 0, None) == Ok::<(usize, int), ErrorShape>(
        (n as usize, l1 + 2),
    ));
    // the body is the framed text
    assert(b.subrange(l1 + 2, l1 + 2 + n) =~= et);
}

} // verus!
