//! The node session: identity, the grow-only counter, and dispatch of
//! decoded requests to reply payloads.
//!
//! [`Node::dispatch`] is the pure step function of the session: from the
//! current state and one request payload to the next state and an optional
//! reply payload. [`Node::step`] is the whole per-line pipeline: decode,
//! dispatch, encode, with a log line instead of a reply for peer-reported
//! errors and for lines that do not decode.

use vstd::prelude::*;
use vstd::string::StringExecFns;
use crate::codec;
use crate::codec::DecodeError;
use crate::protocol::{Message, MessageView, Payload, PayloadView, spec_reply};

verus! {

/// One node's local state: its identifier, the cluster membership it was
/// told at initialization, and the counter.
pub struct Node {
    pub id: Option<String>,
    pub node_ids: Vec<String>,
    pub counter: i32,
}

/// Mathematical model of a [`Node`].
pub ghost struct NodeView {
    pub id: Option<Seq<char>>,
    pub node_ids: Seq<Seq<char>>,
    pub counter: i32,
}

impl View for Node {
    type V = NodeView;

    open spec fn view(&self) -> NodeView {
        NodeView {
            id: self.id.deep_view(),
            node_ids: self.node_ids.deep_view(),
            counter: self.counter,
        }
    }
}

/// What one line of input leads to on the output side: a protocol reply, a
/// local log line, or nothing.
pub enum Output {
    Reply(String),
    Log(String),
    Silent,
}

/// Mathematical model of an [`Output`].
pub ghost enum OutputView {
    Reply(Seq<char>),
    Log(Seq<char>),
    Silent,
}

impl View for Output {
    type V = OutputView;

    open spec fn view(&self) -> OutputView {
        match self {
            Output::Reply(s) => OutputView::Reply(s@),
            Output::Log(s) => OutputView::Log(s@),
            Output::Silent => OutputView::Silent,
        }
    }
}

/// The session step function: from a state and one request payload to the
/// next state and the reply payload, if any. `Init` stores the identity and
/// is answered with `InitOk`; `Add` grows the counter, wrapping at the
/// integer width, and is answered with `AddOk`; `Read` leaves the state
/// unchanged and is answered with a snapshot of the counter; every other
/// payload leaves the state unchanged and is not answered.
pub open spec fn spec_dispatch(st: NodeView, p: PayloadView) -> (NodeView, Option<PayloadView>) {
    match p {
        PayloadView::Init { node_id, node_ids } => (
            NodeView { id: Some(node_id), node_ids, counter: st.counter },
            Some(PayloadView::InitOk),
        ),
        PayloadView::Add { delta } => (
            NodeView { counter: st.counter.wrapping_add(delta), ..st },
            Some(PayloadView::AddOk),
        ),
        PayloadView::Read => (st, Some(PayloadView::ReadOk { value: st.counter })),
        _ => (st, None),
    }
}

/// One whole envelope processed: the reply, when there is one, answers the
/// request with source and destination swapped and `in_reply_to` set.
pub open spec fn spec_process(st: NodeView, m: MessageView) -> (NodeView, Option<MessageView>) {
    let sr = spec_dispatch(st, m.body.rest);
    match sr.1 {
        Some(p) => (sr.0, Some(spec_reply(m, p))),
        None => (sr.0, None),
    }
}

/// The log line for a peer-reported error payload.
pub open spec fn spec_error_log(code: int, text: Seq<char>) -> Seq<char> {
    seq!['['] + codec::enc_i32(code) + ("]: ")@ + text
}

/// The log line for a line that does not decode.
pub open spec fn spec_decode_log() -> Seq<char> {
    ("could not decode line")@
}

/// One whole line processed: a line that decodes to a request is dispatched
/// and its reply encoded; a decoded `Error` payload is logged and not
/// answered; a sound envelope with an unknown `type` tag is dropped in
/// silence; any other line is logged as undecodable and skipped.
pub open spec fn spec_step(st: NodeView, line: Seq<char>) -> (NodeView, OutputView) {
    match codec::spec_decode(line) {
        None => (
            st,
            if codec::is_unknown_type(line) {
                OutputView::Silent
            } else {
                OutputView::Log(spec_decode_log())
            },
        ),
        Some(m) => match m.body.rest {
            PayloadView::Error { code, text } => (
                st,
                OutputView::Log(spec_error_log(code as int, text)),
            ),
            _ => {
                let sr = spec_process(st, m);
                match sr.1 {
                    Some(r) => (sr.0, OutputView::Reply(codec::spec_encode(r))),
                    None => (sr.0, OutputView::Silent),
                }
            },
        },
    }
}

/// An element-exact copy of a vector of strings.
fn clone_strings(v: &Vec<String>) -> (r: Vec<String>)
    ensures
        r@ == v@,
{
    let mut r: Vec<String> = Vec::new();
    let mut k: usize = 0;
    while k < v.len()
        invariant
            k <= v.len(),
            r@ == v@.subrange(0, k as int),
        decreases v.len() - k,
    {
        r.push(v[k].clone());
        proof {
            assert(r@ =~= v@.subrange(0, k as int + 1));
        }
        k = k + 1;
    }
    proof {
        assert(r@ =~= v@);
    }
    r
}

impl Node {
    /// A fresh node: no identity yet, no known peers, counter at zero.
    pub fn new() -> (r: Node)
        ensures
            r@ == (NodeView { id: None, node_ids: Seq::<Seq<char>>::empty(), counter: 0 }),
    {
        let r = Node { id: None, node_ids: Vec::new(), counter: 0 };
        proof {
            assert(r@.node_ids =~= Seq::<Seq<char>>::empty());
        }
        r
    }

    /// This node's identifier, if `Init` has been handled.
    pub fn get_id(&self) -> (r: Option<String>)
        ensures
            r.deep_view() == self@.id,
    {
        match &self.id {
            Some(s) => Some(s.clone()),
            None => None,
        }
    }

    /// The cluster membership this node was told at initialization.
    pub fn get_node_ids(&self) -> (r: Vec<String>)
        ensures
            r.deep_view() == self@.node_ids,
    {
        clone_strings(&self.node_ids)
    }

    /// Handle one request payload: update the state and return the reply
    /// payload, if the request calls for one, as [`spec_dispatch`] says.
    pub fn dispatch(&mut self, req: &Payload) -> (r: Option<Payload>)
        ensures
            final(self)@ == spec_dispatch(old(self)@, req@).0,
            match r {
                Some(p) => spec_dispatch(old(self)@, req@).1 == Some(p@),
                None => spec_dispatch(old(self)@, req@).1 is None,
            },
    {
        match req {
            Payload::Init { node_id, node_ids } => {
                self.id = Some(node_id.clone());
                self.node_ids = clone_strings(node_ids);
                Some(Payload::InitOk)
            },
            Payload::Add { delta } => {
                self.counter = self.counter.wrapping_add(*delta);
                Some(Payload::AddOk)
            },
            Payload::Read => Some(Payload::ReadOk { value: self.counter }),
            Payload::InitOk => None,
            Payload::AddOk => None,
            Payload::ReadOk { .. } => None,
            Payload::Error { .. } => None,
        }
    }

    /// Handle one decoded envelope: dispatch its payload and wrap the reply,
    /// if any, in an envelope correlated with the request.
    pub fn process(&mut self, msg: &Message) -> (r: Option<Message>)
        ensures
            final(self)@ == spec_process(old(self)@, msg@).0,
            match r {
                Some(m) => spec_process(old(self)@, msg@).1 == Some(m@),
                None => spec_process(old(self)@, msg@).1 is None,
            },
    {
        match self.dispatch(&msg.body.rest) {
            Some(p) => Some(msg.reply(p)),
            None => None,
        }
    }

    /// Handle one raw input line, as [`spec_step`] says: decode it, dispatch
    /// the request and encode the reply. A line that does not decode is
    /// answered with a log line, not a reply, and leaves the state unchanged,
    /// so a malformed line never stops the session; a sound envelope with an
    /// unknown `type` tag is dropped in silence; a peer-reported `Error`
    /// payload is logged and not answered.
    pub fn step(&mut self, line: &str) -> (r: Output)
        ensures
            final(self)@ == spec_step(old(self)@, line@).0,
            r@ == spec_step(old(self)@, line@).1,
    {
        match codec::decode(line) {
            Err(DecodeError::UnknownType) => Output::Silent,
            Err(DecodeError::Malformed) => Output::Log(String::from_str("could not decode line")),
            Ok(m) => match &m.body.rest {
                Payload::Error { code, text } => {
                    let mut log = String::new();
                    codec::push_char(&mut log, '[');
                    codec::encode_i32(&mut log, *code);
                    log.append("]: ");
                    log.append(text.as_str());
                    proof {
                        assert(log@ =~= spec_error_log(*code as int, text@));
                    }
                    Output::Log(log)
                },
                _ => match self.process(&m) {
                    Some(rep) => Output::Reply(codec::encode(&rep)),
                    None => Output::Silent,
                },
            },
        }
    }
}

// ---------------------------------------------------------------------------
// Laws of the session.
// ---------------------------------------------------------------------------

/// The unique value in `i32` range congruent to `x` modulo two to the 32.
pub open spec fn wrap_i32(x: int) -> i32 {
    let m = x % 0x1_0000_0000;
    if m > 0x7fff_ffff {
        (m - 0x1_0000_0000) as i32
    } else {
        m as i32
    }
}

/// `x % 2^32` in terms of `wrap_i32(x)`.
proof fn lemma_wrap_mod(x: int)
    ensures
        x % 0x1_0000_0000 == if wrap_i32(x) >= 0 {
            wrap_i32(x) as int
        } else {
            wrap_i32(x) as int + 0x1_0000_0000
        },
{
    vstd::arithmetic::div_mod::lemma_mod_bound(x, 0x1_0000_0000);
}

/// Wrapping a value already in range is the identity.
proof fn lemma_wrap_id(x: int)
    requires
        -0x8000_0000 <= x <= 0x7fff_ffff,
    ensures
        wrap_i32(x) == x as i32,
{
    if x >= 0 {
        vstd::arithmetic::div_mod::lemma_fundamental_div_mod_converse_mod(x, 0x1_0000_0000, 0, x);
    } else {
        vstd::arithmetic::div_mod::lemma_fundamental_div_mod_converse_mod(
            x,
            0x1_0000_0000,
            -1,
            x + 0x1_0000_0000,
        );
    }
}

/// The machine's wrapping addition computes the wrapped mathematical sum.
proof fn lemma_wrapping_is_wrap(w: i32, d: i32)
    ensures
        w.wrapping_add(d) == wrap_i32(w as int + d as int),
{
    let x = w as int + d as int;
    if x > 0x7fff_ffff {
        vstd::arithmetic::div_mod::lemma_fundamental_div_mod_converse_mod(x, 0x1_0000_0000, 0, x);
    } else if x < -0x8000_0000 {
        vstd::arithmetic::div_mod::lemma_fundamental_div_mod_converse_mod(
            x,
            0x1_0000_0000,
            -1,
            x + 0x1_0000_0000,
        );
    } else {
        lemma_wrap_id(x);
    }
}

/// Wrapping an intermediate sum does not change the final wrapped sum.
proof fn lemma_wrap_wrap(a: int, z: int)
    ensures
        wrap_i32(wrap_i32(a) as int + z) == wrap_i32(a + z),
{
    let m: int = 0x1_0000_0000;
    let w = wrap_i32(a) as int;
    lemma_wrap_mod(a);
    vstd::arithmetic::div_mod::lemma_fundamental_div_mod(a, m);
    let q = a / m;
    if w >= 0 {
        assert(a + z == m * q + (w + z));
        vstd::arithmetic::div_mod::lemma_mod_multiples_vanish(q, w + z, m);
    } else {
        assert(a + z == m * (q + 1) + (w + z)) by {
            assert(m * (q + 1) == m * q + m);
        }
        vstd::arithmetic::div_mod::lemma_mod_multiples_vanish(q + 1, w + z, m);
    }
}

/// The state after a whole sequence of request payloads.
pub open spec fn spec_run(st: NodeView, reqs: Seq<PayloadView>) -> NodeView
    decreases reqs.len(),
{
    if reqs.len() == 0 {
        st
    } else {
        spec_run(spec_dispatch(st, reqs[0]).0, reqs.subrange(1, reqs.len() as int))
    }
}

/// The sum of the deltas of the `Add` requests in a sequence.
pub open spec fn sum_deltas(reqs: Seq<PayloadView>) -> int
    decreases reqs.len(),
{
    if reqs.len() == 0 {
        0
    } else {
        (match reqs[0] {
            PayloadView::Add { delta } => delta as int,
            _ => 0,
        }) + sum_deltas(reqs.subrange(1, reqs.len() as int))
    }
}

/// Correlation: every reply produced for a request answers it: its
/// `in_reply_to` equals the request's `msg_id` (absence propagating as
/// absence), its source and destination are the request's swapped, and it
/// carries no `msg_id` of its own.
pub proof fn lemma_correlation(st: NodeView, m: MessageView)
    ensures
        spec_process(st, m).1 matches Some(r) ==> r.body.in_reply_to == m.body.msg_id && r.src
            == m.dest && r.dest == m.src && r.body.msg_id is None,
{
}

/// Counter accumulation: a run of `Add` and `Read` requests leaves the
/// counter at the starting value plus the sum of the deltas, wrapped at the
/// integer width, whatever `Read`s are interleaved; a `Read` issued then
/// reports exactly that value; and the node's identity is untouched.
pub proof fn lemma_counter_accumulates(st: NodeView, reqs: Seq<PayloadView>)
    requires
        forall|k: int| 0 <= k < reqs.len() ==> reqs[k] is Add || reqs[k] is Read,
    ensures
        spec_run(st, reqs).counter == wrap_i32(st.counter as int + sum_deltas(reqs)),
        spec_run(st, reqs).id == st.id,
        spec_run(st, reqs).node_ids == st.node_ids,
        spec_dispatch(spec_run(st, reqs), PayloadView::Read).1 == Some(
            PayloadView::ReadOk { value: wrap_i32(st.counter as int + sum_deltas(reqs)) },
        ),
    decreases reqs.len(),
{
    if reqs.len() == 0 {
        lemma_wrap_id(st.counter as int);
    } else {
        let rest = reqs.subrange(1, reqs.len() as int);
        assert(forall|k: int| 0 <= k < rest.len() ==> rest[k] is Add || rest[k] is Read);
        let st1 = spec_dispatch(st, reqs[0]).0;
        lemma_counter_accumulates(st1, rest);
        match reqs[0] {
            PayloadView::Add { delta } => {
                lemma_wrapping_is_wrap(st.counter, delta);
                assert(st1.counter as int == wrap_i32(st.counter as int + delta as int) as int);
                lemma_wrap_wrap(st.counter as int + delta as int, sum_deltas(rest));
            },
            _ => {
                assert(reqs[0] is Read);
            },
        }
    }
}

/// Idempotence of `Read`: a `Read` does not change the state, so two
/// consecutive `Read`s with no `Add` between them report the same value.
pub proof fn lemma_read_idempotent(st: NodeView)
    ensures
        spec_dispatch(st, PayloadView::Read).0 == st,
        spec_dispatch(spec_dispatch(st, PayloadView::Read).0, PayloadView::Read).1 == spec_dispatch(
            st,
            PayloadView::Read,
        ).1,
{
}

/// A sound envelope with an unrecognized message kind produces no output
/// line at all and leaves the state unchanged.
pub proof fn lemma_unknown_silent(st: NodeView, line: Seq<char>)
    requires
        codec::is_unknown_type(line),
    ensures
        spec_step(st, line).0 == st,
        spec_step(st, line).1 is Silent,
{
}

/// Correlation at the wire level: whenever a line makes the session emit a
/// reply line, the input line decodes to a request, the reply line decodes
/// to its answer, and the answer points back at the request: source and
/// destination swapped, `in_reply_to` equal to the request's `msg_id`, and
/// no `msg_id` of its own.
pub proof fn lemma_step_correlation(st: NodeView, line: Seq<char>)
    ensures
        spec_step(st, line).1 matches OutputView::Reply(out) ==> {
            let req = codec::spec_decode(line)->Some_0;
            let rep = codec::spec_decode(out);
            &&& codec::spec_decode(line) is Some
            &&& rep is Some
            &&& rep->Some_0.src == req.dest
            &&& rep->Some_0.dest == req.src
            &&& rep->Some_0.body.in_reply_to == req.body.msg_id
            &&& rep->Some_0.body.msg_id is None
        },
{
    if spec_step(st, line).1 is Reply {
        let req = codec::spec_decode(line)->Some_0;
        let p = spec_dispatch(st, req.body.rest).1->Some_0;
        codec::lemma_round_trip(spec_reply(req, p));
    }
}

} // verus!
