//! The node's lifecycle state machine: uninitialized until the first `init`
//! message, then ready, answering `echo` requests with `echo_ok` replies
//! whose ids count up from 1.

use crate::msg::{Body, BodyView, Message, MessageView, Payload, PayloadView};
use vstd::prelude::*;

verus! {

/// The lifecycle state of a node.
#[derive(Debug, Clone)]
pub enum NodeState {
    /// No `init` message has been handled yet; the node has no identity.
    Initializing,
    /// The node was assigned `self_id` and will use `next_message_id` for
    /// its next reply.
    Ready { self_id: String, next_message_id: usize },
}

/// Mathematical model of a [`NodeState`].
pub enum NodeStateView {
    Initializing,
    Ready { self_id: Seq<char>, next_message_id: usize },
}

impl View for NodeState {
    type V = NodeStateView;

    open spec fn view(&self) -> NodeStateView {
        match self {
            NodeState::Initializing => NodeStateView::Initializing,
            NodeState::Ready { self_id, next_message_id } => NodeStateView::Ready {
                self_id: self_id@,
                next_message_id: *next_message_id,
            },
        }
    }
}

/// A fatal protocol violation; the caller is expected to stop the node.
#[derive(Clone, Copy, Debug, PartialEq, Eq, Structural)]
pub enum ProtocolError {
    /// A message arrived whose `destination` is not this node's id.
    MisroutedMessage,
    /// A second `init` arrived after the node was already ready.
    UnexpectedInit,
}

/// What one step of the state machine does: move to a new state and reply,
/// move to a new state silently, or fail without changing state.
pub enum StepView {
    Reply(NodeStateView, MessageView),
    Silent(NodeStateView),
    Failed(ProtocolError),
}

/// The reply to `m` that carries `id`, answers `m.body.id`, and holds
/// `payload`: addressed back to `m`'s sender, sent as `m`'s receiver.
pub open spec fn reply_to(m: MessageView, id: usize, payload: PayloadView) -> MessageView {
    MessageView {
        source: m.destination,
        destination: m.source,
        body: BodyView { id: Some(id), in_reply_to: m.body.id, payload },
    }
}

/// One step of the node state machine: from a state and an incoming message
/// to the outcome the node must produce.
///
/// While initializing, only `init` is acted on: it makes the node ready and
/// is acknowledged with an `init_ok` carrying id 0, the counter then starting
/// at 1. While ready, a misrouted message or a second `init` is a fatal
/// error, an `echo` is answered with an `echo_ok` carrying the counter's
/// value, and reply-type payloads are ignored.
pub open spec fn step(s: NodeStateView, m: MessageView) -> StepView {
    match s {
        NodeStateView::Initializing => match m.body.payload {
            PayloadView::Init { node_id, node_ids } => StepView::Reply(
                NodeStateView::Ready { self_id: node_id, next_message_id: 1 },
                reply_to(m, 0, PayloadView::InitOk),
            ),
            _ => StepView::Silent(s),
        },
        NodeStateView::Ready { self_id, next_message_id } => {
            if m.destination != self_id {
                StepView::Failed(ProtocolError::MisroutedMessage)
            } else {
                match m.body.payload {
                    PayloadView::Echo { echo } => StepView::Reply(
                        NodeStateView::Ready {
                            self_id,
                            next_message_id: (next_message_id + 1) as usize,
                        },
                        reply_to(m, next_message_id, PayloadView::EchoOk { echo }),
                    ),
                    PayloadView::Init { .. } => StepView::Failed(ProtocolError::UnexpectedInit),
                    _ => StepView::Silent(s),
                }
            }
        },
    }
}

/// Law: a valid `init` received while initializing makes the node ready,
/// with the assigned id and the counter at 1, and is answered by exactly one
/// `init_ok` whose id is 0 and whose `in_reply_to` is the `init`'s own id,
/// addressed back to the `init`'s sender.
pub proof fn lemma_init_makes_ready(s: NodeStateView, m: MessageView)
    requires
        s is Initializing,
        m.body.payload matches PayloadView::Init { .. },
    ensures
        step(s, m) matches StepView::Reply(s2, reply) && {
            &&& s2 == (NodeStateView::Ready {
                self_id: m.body.payload->Init_node_id,
                next_message_id: 1,
            })
            &&& reply == reply_to(m, 0, PayloadView::InitOk)
            &&& reply.body.id == Some(0usize)
            &&& reply.body.in_reply_to == m.body.id
            &&& reply.body.payload is InitOk
            &&& reply.source == m.destination
            &&& reply.destination == m.source
        },
{
}

/// Law: an `echo` received while ready and correctly addressed is answered
/// by an `echo_ok` whose `echo` is the request's `echo` unchanged, whose id
/// is the counter's value, and whose `in_reply_to` is the request's id.
pub proof fn lemma_echo_reply(s: NodeStateView, m: MessageView)
    requires
        s is Ready,
        m.destination == s->Ready_self_id,
        m.body.payload matches PayloadView::Echo { .. },
    ensures
        step(s, m) matches StepView::Reply(s2, reply) && {
            &&& reply.body.payload == (PayloadView::EchoOk {
                echo: m.body.payload->Echo_echo,
            })
            &&& reply.body.id == Some(s->Ready_next_message_id)
            &&& reply.body.in_reply_to == m.body.id
            &&& reply.source == m.destination
            &&& reply.destination == m.source
            &&& s2 == (NodeStateView::Ready {
                self_id: s->Ready_self_id,
                next_message_id: (s->Ready_next_message_id + 1) as usize,
            })
        },
{
}

/// Law: across two successive `echo` replies from the same node the reply
/// ids increase by exactly 1.  The counter bound is a machine limit.
pub proof fn lemma_echo_ids_increase(s: NodeStateView, m1: MessageView, m2: MessageView)
    requires
        s is Ready,
        s->Ready_next_message_id < usize::MAX,
        m1.destination == s->Ready_self_id,
        m2.destination == s->Ready_self_id,
        m1.body.payload is Echo,
        m2.body.payload is Echo,
    ensures
        step(s, m1) is Reply,
        step(s, m1)->Reply_1.body.id == Some(s->Ready_next_message_id),
        step(step(s, m1)->Reply_0, m2) is Reply,
        step(step(s, m1)->Reply_0, m2)->Reply_1.body.id == Some(
            (s->Ready_next_message_id + 1) as usize,
        ),
{
}

/// Law: reply ids start at 1: the `init_ok` reply carries the reserved id 0,
/// and the first `echo` reply after initialization carries id 1.
pub proof fn lemma_first_echo_id_is_one(s: NodeStateView, m1: MessageView, m2: MessageView)
    requires
        s is Initializing,
        m1.body.payload matches PayloadView::Init { .. },
        m2.destination == m1.body.payload->Init_node_id,
        m2.body.payload is Echo,
    ensures
        step(s, m1) is Reply,
        step(s, m1)->Reply_1.body.id == Some(0usize),
        step(step(s, m1)->Reply_0, m2) is Reply,
        step(step(s, m1)->Reply_0, m2)->Reply_1.body.id == Some(1usize),
{
}

/// Law: an `echo` received before `init` produces no reply and no error,
/// and leaves the node uninitialized.
pub proof fn lemma_echo_before_init_ignored(s: NodeStateView, m: MessageView)
    requires
        s is Initializing,
        m.body.payload is Echo,
    ensures
        step(s, m) == StepView::Silent(s),
{
}

/// Law: a second `init`, received while ready and correctly addressed, is a
/// fatal protocol error.
pub proof fn lemma_second_init_fails(s: NodeStateView, m: MessageView)
    requires
        s is Ready,
        m.destination == s->Ready_self_id,
        m.body.payload matches PayloadView::Init { .. },
    ensures
        step(s, m) == StepView::Failed(ProtocolError::UnexpectedInit),
{
}

/// Law: a message whose `destination` is not the ready node's own id is a
/// fatal protocol error, whatever its payload.
pub proof fn lemma_misrouted_fails(s: NodeStateView, m: MessageView)
    requires
        s is Ready,
        m.destination != s->Ready_self_id,
    ensures
        step(s, m) == StepView::Failed(ProtocolError::MisroutedMessage),
{
}

/// A node of the echo protocol: holds the lifecycle state, owned by one
/// control loop and mutated only through [`EchoNode::handle`].
pub struct EchoNode {
    pub state: NodeState,
}

impl EchoNode {
    /// The reply counter has room to advance: a machine limit, not part of
    /// the protocol.
    pub open spec fn counter_in_range(self) -> bool {
        self.state@ matches NodeStateView::Ready { next_message_id, .. }
            ==> next_message_id < usize::MAX
    }

    /// A fresh node, not yet initialized.
    pub fn new() -> (n: EchoNode)
        ensures
            n.state@ is Initializing,
    {
        EchoNode { state: NodeState::Initializing }
    }

    /// Handle one incoming message: produce the reply [`step`] prescribes,
    /// mutate the state exactly as it prescribes, and fail exactly when it
    /// prescribes, leaving the state unchanged then.
    pub fn handle(&mut self, message: Message) -> (r: Result<Option<Message>, ProtocolError>)
        requires
            old(self).counter_in_range(),
        ensures
            match step(old(self).state@, message@) {
                StepView::Reply(s2, reply) => {
                    &&& final(self).state@ == s2
                    &&& r matches Ok(Some(rm)) && rm@ == reply
                },
                StepView::Silent(s2) => {
                    &&& final(self).state@ == s2
                    &&& r matches Ok(o) && o is None
                },
                StepView::Failed(e) => {
                    &&& final(self).state@ == old(self).state@
                    &&& r matches Err(e2) && e2 == e
                },
            },
    {
        match &self.state {
            NodeState::Initializing => match message.body.payload {
                Payload::Init { node_id, node_ids: _ } => {
                    let reply = Message {
                        source: message.destination,
                        destination: message.source,
                        body: Body {
                            id: Some(0),
                            in_reply_to: message.body.id,
                            payload: Payload::InitOk,
                        },
                    };
                    self.state = NodeState::Ready { self_id: node_id, next_message_id: 1 };
                    Ok(Some(reply))
                },
                _ => Ok(None),
            },
            NodeState::Ready { self_id, next_message_id } => {
                if message.destination == *self_id {
                    match message.body.payload {
                        Payload::Echo { echo } => {
                            let id = *next_message_id;
                            let sid = self_id.clone();
                            let reply = Message {
                                source: message.destination,
                                destination: message.source,
                                body: Body {
                                    id: Some(id),
                                    in_reply_to: message.body.id,
                                    payload: Payload::EchoOk { echo },
                                },
                            };
                            self.state = NodeState::Ready {
                                self_id: sid,
                                next_message_id: id + 1,
                            };
                            Ok(Some(reply))
                        },
                        Payload::Init { .. } => Err(ProtocolError::UnexpectedInit),
                        _ => Ok(None),
                    }
                } else {
                    Err(ProtocolError::MisroutedMessage)
                }
            },
        }
    }
}

} // verus!
