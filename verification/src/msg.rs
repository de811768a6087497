//! The wire-level message model: an envelope (`source`, `destination`,
//! `body`) around a body holding the optional correlation ids and a tagged
//! payload.

use vstd::prelude::*;

verus! {

/// The typed content of a message, discriminated on the wire by a `type`
/// string field.
#[derive(Debug, Clone)]
pub enum Payload {
    /// Assigns the receiving node its identifier and lists every node in the
    /// cluster.
    Init { node_id: String, node_ids: Vec<String> },
    /// Acknowledges an `Init`; carries no fields.
    InitOk,
    /// Asks the node to echo an arbitrary string back.
    Echo { echo: String },
    /// Carries the echoed string.
    EchoOk { echo: String },
}

/// The body of a message: the sender's optional message id, the optional id
/// of the message being answered, and the payload.
#[derive(Debug, Clone)]
pub struct Body {
    /// `msg_id` on the wire: unique per sending node, used to correlate
    /// replies.
    pub id: Option<usize>,
    /// Echoes the `id` of the message being answered; absent on a message
    /// that is not a reply.
    pub in_reply_to: Option<usize>,
    pub payload: Payload,
}

/// The envelope around every message.
#[derive(Debug, Clone)]
pub struct Message {
    /// `src` on the wire.
    pub source: String,
    /// `dest` on the wire.
    pub destination: String,
    pub body: Body,
}

/// Mathematical model of a [`Payload`], with strings as character sequences.
pub enum PayloadView {
    Init { node_id: Seq<char>, node_ids: Seq<Seq<char>> },
    InitOk,
    Echo { echo: Seq<char> },
    EchoOk { echo: Seq<char> },
}

/// Mathematical model of a [`Body`].
pub struct BodyView {
    pub id: Option<usize>,
    pub in_reply_to: Option<usize>,
    pub payload: PayloadView,
}

/// Mathematical model of a [`Message`].
pub struct MessageView {
    pub source: Seq<char>,
    pub destination: Seq<char>,
    pub body: BodyView,
}

impl View for Payload {
    type V = PayloadView;

    open spec fn view(&self) -> PayloadView {
        match self {
            Payload::Init { node_id, node_ids } => PayloadView::Init {
                node_id: node_id@,
                node_ids: node_ids.deep_view(),
            },
            Payload::InitOk => PayloadView::InitOk,
            Payload::Echo { echo } => PayloadView::Echo { echo: echo@ },
            Payload::EchoOk { echo } => PayloadView::EchoOk { echo: echo@ },
        }
    }
}

impl View for Body {
    type V = BodyView;

    open spec fn view(&self) -> BodyView {
        BodyView { id: self.id, in_reply_to: self.in_reply_to, payload: self.payload@ }
    }
}

impl View for Message {
    type V = MessageView;

    open spec fn view(&self) -> MessageView {
        MessageView {
            source: self.source@,
            destination: self.destination@,
            body: self.body@,
        }
    }
}

} // verus!
