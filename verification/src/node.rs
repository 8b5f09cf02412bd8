//! Node state and dispatcher: holds the node's identity and its
//! monotonically increasing message-id counter, and decides for each
//! incoming envelope whether and what to reply.

use vstd::prelude::*;

use crate::protocol::{Body, Message, MessageV, Payload, PayloadV};

verus! {

/// The id stamped on the message processed next, as a function of the
/// counter so far and the incoming message's own id: one past the larger of
/// the two, so that the node's ids stay strictly increasing relative to
/// everything it has seen, not merely to what it has emitted.
pub open spec fn next_id(cur: int, incoming: Option<int>) -> int {
    (match incoming {
        Option::Some(i) => if i > cur { i } else { cur },
        Option::None => cur,
    }) + 1
}

/// The ids a node assigns, one per processed message, when its counter
/// starts at `cur` and the incoming ids are `ins`.
pub open spec fn run_ids(cur: int, ins: Seq<Option<int>>) -> Seq<int>
    decreases ins.len(),
{
    if ins.len() == 0 {
        Seq::empty()
    } else {
        seq![next_id(cur, ins[0])] + run_ids(next_id(cur, ins[0]), ins.drop_first())
    }
}

/// Every id a node assigns lies strictly above the counter it started from.
proof fn lemma_run_ids_above_start(cur: int, ins: Seq<Option<int>>)
    ensures
        forall|k: int| 0 <= k < run_ids(cur, ins).len() ==> cur < #[trigger] run_ids(cur, ins)[k],
    decreases ins.len(),
{
    if ins.len() > 0 {
        let first = next_id(cur, ins[0]);
        lemma_run_ids_above_start(first, ins.drop_first());
        assert forall|k: int| 0 <= k < run_ids(cur, ins).len() implies cur < #[trigger] run_ids(
            cur,
            ins,
        )[k] by {
            if k > 0 {
                assert(run_ids(cur, ins)[k] == run_ids(first, ins.drop_first())[k - 1]);
            }
        }
    }
}

/// For every sequence of inputs, the ids a node assigns to the messages it
/// sends out are strictly increasing: each processed message draws a fresh
/// id strictly above everything assigned before it.
pub proof fn lemma_run_ids_strictly_increasing(cur: int, ins: Seq<Option<int>>)
    ensures
        forall|a: int, b: int|
            0 <= a < b < run_ids(cur, ins).len() ==> #[trigger] run_ids(cur, ins)[a]
                < #[trigger] run_ids(cur, ins)[b],
    decreases ins.len(),
{
    if ins.len() > 0 {
        let first = next_id(cur, ins[0]);
        lemma_run_ids_strictly_increasing(first, ins.drop_first());
        lemma_run_ids_above_start(first, ins.drop_first());
        assert forall|a: int, b: int|
            0 <= a < b < run_ids(cur, ins).len() implies #[trigger] run_ids(cur, ins)[a]
            < #[trigger] run_ids(cur, ins)[b] by {
            let rest = run_ids(first, ins.drop_first());
            if a == 0 {
                assert(run_ids(cur, ins)[b] == rest[b - 1]);
                assert(first < run_ids(cur, ins)[b]);
            } else {
                assert(run_ids(cur, ins)[a] == rest[a - 1]);
                assert(run_ids(cur, ins)[b] == rest[b - 1]);
            }
        }
    }
}

/// Process-wide node state: the identity assigned by the handshake and the
/// counter from which outgoing message ids are drawn.
pub struct EchoNode {
    pub node_id: Option<String>,
    pub msg_id: u64,
}

impl EchoNode {
    /// A fresh node: no identity yet, counter at zero.
    pub fn new() -> (r: EchoNode)
        ensures
            r.node_id is None,
            r.msg_id == 0,
    {
        EchoNode { node_id: None, msg_id: 0 }
    }

    /// Handles one decoded envelope: advances the id counter, answers
    /// `Echo` with `EchoOk` and `Init` with `InitOk` (recording the assigned
    /// identity), and ignores every other payload. The reply, when there is
    /// one, carries the fresh id, answers the request's id, and flows back
    /// from the request's destination to its source.
    pub fn handle(&mut self, input: Message) -> (r: Option<Message>)
        requires
            old(self).msg_id < u64::MAX,
            input.body.id matches Some(i) ==> i < u64::MAX,
        ensures
            final(self).msg_id == next_id(
                old(self).msg_id as int,
                match input.body.id {
                    Option::Some(i) => Some(i as int),
                    Option::None => None,
                },
            ),
            old(self).msg_id < final(self).msg_id,
            match input@.body.payload {
                PayloadV::Echo { echo } => {
                    &&& final(self).node_id == old(self).node_id
                    &&& r matches Some(rep) && rep@ == (MessageV {
                        src: input@.dst,
                        dst: input@.src,
                        body: crate::protocol::BodyV {
                            id: Some(final(self).msg_id),
                            reply_to: input.body.id,
                            payload: PayloadV::EchoOk { echo },
                        },
                    })
                },
                PayloadV::Init { node_id, node_ids } => {
                    &&& final(self).node_id matches Some(n) && n@ == node_id
                    &&& r matches Some(rep) && rep@ == (MessageV {
                        src: node_id,
                        dst: input@.src,
                        body: crate::protocol::BodyV {
                            id: Some(final(self).msg_id),
                            reply_to: input.body.id,
                            payload: PayloadV::InitOk,
                        },
                    })
                },
                _ => {
                    &&& final(self).node_id == old(self).node_id
                    &&& r is None
                },
            },
    {
        self.msg_id = (match input.body.id {
            Some(incoming_id) => if incoming_id > self.msg_id { incoming_id } else { self.msg_id },
            None => self.msg_id,
        }) + 1;

        match input.body.payload {
            Payload::Echo { echo } => {
                let body = Body {
                    id: Some(self.msg_id),
                    reply_to: input.body.id,
                    payload: Payload::EchoOk { echo },
                };
                Some(Message { src: input.dst, dst: input.src, body })
            },
            Payload::Init { node_id, node_ids: _ } => {
                let reply_src = node_id.clone();
                self.node_id = Some(node_id);
                Some(Message {
                    src: reply_src,
                    dst: input.src,
                    body: Body {
                        id: Some(self.msg_id),
                        reply_to: input.body.id,
                        payload: Payload::InitOk,
                    },
                })
            },
            _ => None,
        }
    }
}

} // verus!
