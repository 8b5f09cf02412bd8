//! The data model of the protocol: envelopes, bodies and tagged payloads,
//! together with their mathematical views and well-formedness.

use vstd::prelude::*;

verus! {

/// The tagged content of a body. The set of recognized variants is closed
/// here, but the wire format is open: a tag that matches no known variant
/// decodes to `Unknown`, which the dispatcher answers with no reply.
#[derive(Debug, Clone, PartialEq, Eq)]
pub enum Payload {
    /// Request to echo text back.
    Echo { echo: String },
    /// Reply carrying the same text.
    EchoOk { echo: String },
    /// Handshake assigning this node its identity and the cluster membership.
    Init { node_id: String, node_ids: Vec<String> },
    /// Handshake acknowledgement.
    InitOk,
    /// A tag that matches no known variant; kept so that the dispatcher can
    /// treat it as a no-op rather than a failure.
    Unknown { tag: String },
}

/// The inner record of an envelope: the two correlation identifiers and the
/// tagged payload. On the wire `id` is the key `msg_id` and `reply_to` the
/// key `in_reply_to`.
#[derive(Debug, Clone, PartialEq, Eq)]
pub struct Body {
    pub id: Option<u64>,
    pub reply_to: Option<u64>,
    pub payload: Payload,
}

/// The outer message record: source, destination and body. On the wire the
/// destination is the key `dest`.
#[derive(Debug, Clone, PartialEq, Eq)]
pub struct Message {
    pub src: String,
    pub dst: String,
    pub body: Body,
}

/// Mathematical view of a `Payload`.
pub enum PayloadV {
    Echo { echo: Seq<char> },
    EchoOk { echo: Seq<char> },
    Init { node_id: Seq<char>, node_ids: Seq<Seq<char>> },
    InitOk,
    Unknown { tag: Seq<char> },
}

/// Mathematical view of a `Body`.
pub struct BodyV {
    pub id: Option<u64>,
    pub reply_to: Option<u64>,
    pub payload: PayloadV,
}

/// Mathematical view of a `Message`.
pub struct MessageV {
    pub src: Seq<char>,
    pub dst: Seq<char>,
    pub body: BodyV,
}

impl View for Payload {
    type V = PayloadV;

    open spec fn view(&self) -> PayloadV {
        match self {
            Payload::Echo { echo } => PayloadV::Echo { echo: echo@ },
            Payload::EchoOk { echo } => PayloadV::EchoOk { echo: echo@ },
            Payload::Init { node_id, node_ids } => PayloadV::Init {
                node_id: node_id@,
                node_ids: node_ids.deep_view(),
            },
            Payload::InitOk => PayloadV::InitOk,
            Payload::Unknown { tag } => PayloadV::Unknown { tag: tag@ },
        }
    }
}

impl View for Body {
    type V = BodyV;

    open spec fn view(&self) -> BodyV {
        BodyV { id: self.id, reply_to: self.reply_to, payload: self.payload@ }
    }
}

impl View for Message {
    type V = MessageV;

    open spec fn view(&self) -> MessageV {
        MessageV { src: self.src@, dst: self.dst@, body: self.body@ }
    }
}

/// The wire tag of each recognized payload variant.
pub open spec fn known_tag(t: Seq<char>) -> bool {
    t == "echo"@ || t == "echo_ok"@ || t == "init"@ || t == "init_ok"@
}

/// A payload is well formed when an `Unknown` variant does not shadow a
/// recognized tag; the decoder only ever builds `Unknown` for tags outside
/// the recognized set.
pub open spec fn wf_payload(p: PayloadV) -> bool {
    match p {
        PayloadV::Unknown { tag } => !known_tag(tag),
        _ => true,
    }
}

/// A message is well formed when its payload is.
pub open spec fn wf_message(m: MessageV) -> bool {
    wf_payload(m.body.payload)
}

} // verus!
