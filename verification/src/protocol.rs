//! The wire data model: an envelope (`Message`) wrapping a tagged payload
//! (`Body` / `Payload`), together with pure reply construction.

use vstd::prelude::*;

verus! {

/// The tagged payload of a wire message: the message kind together with the
/// kind's own fields. Requests carry `Init`, `Add` or `Read`; replies carry
/// `InitOk`, `AddOk` or `ReadOk`; `Error` is a peer-reported failure that is
/// only logged.
#[derive(Debug, Clone, PartialEq, Eq)]
pub enum Payload {
    Init { node_id: String, node_ids: Vec<String> },
    Add { delta: i32 },
    Read,
    InitOk,
    AddOk,
    ReadOk { value: i32 },
    Error { code: i32, text: String },
}

/// Mathematical model of a [`Payload`]: strings become character sequences.
pub ghost enum PayloadView {
    Init { node_id: Seq<char>, node_ids: Seq<Seq<char>> },
    Add { delta: i32 },
    Read,
    InitOk,
    AddOk,
    ReadOk { value: i32 },
    Error { code: i32, text: Seq<char> },
}

impl View for Payload {
    type V = PayloadView;

    open spec fn view(&self) -> PayloadView {
        match self {
            Payload::Init { node_id, node_ids } => PayloadView::Init {
                node_id: node_id@,
                node_ids: node_ids.deep_view(),
            },
            Payload::Add { delta } => PayloadView::Add { delta: *delta },
            Payload::Read => PayloadView::Read,
            Payload::InitOk => PayloadView::InitOk,
            Payload::AddOk => PayloadView::AddOk,
            Payload::ReadOk { value } => PayloadView::ReadOk { value: *value },
            Payload::Error { code, text } => PayloadView::Error { code: *code, text: text@ },
        }
    }
}

/// The inner body of an envelope: the payload plus the two optional
/// correlation fields. `msg_id` is set by the originator of a request;
/// `in_reply_to` is set on a reply to the `msg_id` of the request answered.
#[derive(Debug, Clone, PartialEq, Eq)]
pub struct Body {
    pub msg_id: Option<i32>,
    pub in_reply_to: Option<i32>,
    pub rest: Payload,
}

/// Mathematical model of a [`Body`].
pub ghost struct BodyView {
    pub msg_id: Option<i32>,
    pub in_reply_to: Option<i32>,
    pub rest: PayloadView,
}

impl View for Body {
    type V = BodyView;

    open spec fn view(&self) -> BodyView {
        BodyView { msg_id: self.msg_id, in_reply_to: self.in_reply_to, rest: self.rest@ }
    }
}

/// The outer envelope of every wire message: source and destination node
/// identifiers around one body. One envelope is one wire line.
#[derive(Debug, Clone, PartialEq, Eq)]
pub struct Message {
    pub src: String,
    pub dest: String,
    pub body: Body,
}

/// Mathematical model of a [`Message`].
pub ghost struct MessageView {
    pub src: Seq<char>,
    pub dest: Seq<char>,
    pub body: BodyView,
}

impl View for Message {
    type V = MessageView;

    open spec fn view(&self) -> MessageView {
        MessageView { src: self.src@, dest: self.dest@, body: self.body@ }
    }
}

/// What a reply to request `m` carrying payload `p` looks like: source and
/// destination swapped, no `msg_id` of its own, and `in_reply_to` equal to the
/// request's `msg_id` (absence propagates as absence).
pub open spec fn spec_reply(m: MessageView, p: PayloadView) -> MessageView {
    MessageView {
        src: m.dest,
        dest: m.src,
        body: BodyView { msg_id: None, in_reply_to: m.body.msg_id, rest: p },
    }
}

impl Message {
    /// Build the reply envelope to this request, carrying payload `resp`.
    /// Pure construction: writing the line out is the caller's concern.
    pub fn reply(&self, resp: Payload) -> (r: Message)
        ensures
            r@ == spec_reply(self@, resp@),
    {
        Message {
            src: self.dest.clone(),
            dest: self.src.clone(),
            body: Body { msg_id: None, in_reply_to: self.body.msg_id, rest: resp },
        }
    }
}

} // verus!
