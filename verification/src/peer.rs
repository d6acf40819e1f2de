//! The peer rights protocol: requesting views on another client's image,
//! granting or rejecting them, increasing views later, and the offline
//! fallback that forwards an unacknowledged grant to the server cluster.
//! Sockets and timers live outside the library; these types decide every
//! transition, and the decisions are exact functions of the state and the
//! event.

use vstd::prelude::*;

use crate::carrier::{encode_access_rights, rights_row, Image};

verus! {

/// A control message between peers. The approved grant itself is not a
/// message: it travels as a chunked carrier.
pub enum PeerMessage {
    ImageRequest { requesting_client_id: String, image_id: String, views: u16 },
    ImageRejection { image_id: String, views: u16 },
    RejectionAck { image_id: String, status: String },
    IncreaseViewsRequest { image_id: String, views: u16, user_id: String },
    IncreaseApproved { image_id: String, views: u16 },
    IncreaseRejected { image_id: String, views: u16 },
    IncreaseApprovedAck { image_id: String, status: String },
    IncreaseRejectedAck { image_id: String, status: String },
}

/// Where the client's listener routes an inbound peer message: grant
/// replies go straight to the rights store, everything else waits for the
/// user.
pub enum ListenerRoute {
    /// Merge into the rights store: the views, and whether they were
    /// granted.
    RightsStoreUpdate { image_id: String, views: u16, approved: bool },
    /// Hand to the user-facing queue.
    UserQueue { msg: PeerMessage },
}

/// Classifies one inbound peer message for the client's listener loop.
pub fn route_peer_message(msg: PeerMessage) -> (r: ListenerRoute)
    ensures
        msg matches PeerMessage::IncreaseApproved { image_id, views } ==> r
            == (ListenerRoute::RightsStoreUpdate { image_id, views, approved: true }),
        msg matches PeerMessage::IncreaseRejected { image_id, views } ==> r
            == (ListenerRoute::RightsStoreUpdate { image_id, views, approved: false }),
        !(msg is IncreaseApproved) && !(msg is IncreaseRejected) ==> r == (ListenerRoute::UserQueue {
            msg,
        }),
{
    match msg {
        PeerMessage::IncreaseApproved { image_id, views } => ListenerRoute::RightsStoreUpdate {
            image_id,
            views,
            approved: true,
        },
        PeerMessage::IncreaseRejected { image_id, views } => ListenerRoute::RightsStoreUpdate {
            image_id,
            views,
            approved: false,
        },
        other => ListenerRoute::UserQueue { msg: other },
    }
}

// --- the requester's exchange ----------------------------------------------------

/// The requester's side of one `(image_id, views)` exchange.
pub enum RequesterPhase {
    /// Nothing sent yet.
    Idle,
    /// The request is out; a carrier, a rejection, or a timeout comes next.
    AwaitingReply,
    /// The carrier arrived and was stored.
    Stored,
    /// The owner rejected; the rejection was acknowledged.
    Rejected,
    /// No reply within the timeout.
    Failed,
}

/// What arrived (or did not) while awaiting the owner's reply.
pub enum RequesterEvent {
    CarrierReceived,
    RejectionReceived,
    TimedOut,
}

/// What the requester must put on the wire after a step.
pub enum RequesterAction {
    /// Nothing to send.
    Stay,
    /// Send the `image_request` message to the owner.
    SendImageRequest { requesting_client_id: String, image_id: String, views: u16 },
    /// Acknowledge the rejection to the owner.
    SendRejectionAck { image_id: String },
}

/// One requester-side exchange for an image.
pub struct RequesterExchange {
    pub image_id: String,
    pub views: u16,
    pub phase: RequesterPhase,
}

impl RequesterExchange {
    pub fn new(image_id: String, views: u16) -> (r: RequesterExchange)
        ensures
            r.image_id == image_id,
            r.views == views,
            r.phase is Idle,
    {
        RequesterExchange { image_id, views, phase: RequesterPhase::Idle }
    }

    /// Sends the request: only from idle, and the exchange then awaits the
    /// reply.
    pub fn start(&mut self, requesting_client_id: String) -> (a: RequesterAction)
        requires
            old(self).phase is Idle,
        ensures
            final(self).phase is AwaitingReply,
            final(self).image_id == old(self).image_id,
            final(self).views == old(self).views,
            a == (RequesterAction::SendImageRequest {
                requesting_client_id,
                image_id: old(self).image_id,
                views: old(self).views,
            }),
    {
        self.phase = RequesterPhase::AwaitingReply;
        RequesterAction::SendImageRequest {
            requesting_client_id,
            image_id: self.image_id.clone(),
            views: self.views,
        }
    }

    /// Feeds one event. Only the awaiting phase moves: a carrier stores the
    /// exchange, a rejection acknowledges and ends it with zero views, a
    /// timeout fails it. Every other phase ignores every event.
    pub fn on_event(&mut self, event: &RequesterEvent) -> (a: RequesterAction)
        ensures
            final(self).image_id == old(self).image_id,
            final(self).views == old(self).views,
            old(self).phase is AwaitingReply && event is CarrierReceived ==> final(self).phase
                is Stored && a is Stay,
            old(self).phase is AwaitingReply && event is RejectionReceived ==> final(self).phase
                is Rejected && a == (RequesterAction::SendRejectionAck {
                image_id: old(self).image_id,
            }),
            old(self).phase is AwaitingReply && event is TimedOut ==> final(self).phase is Failed
                && a is Stay,
            !(old(self).phase is AwaitingReply) ==> *final(self) == *old(self) && a is Stay,
    {
        match self.phase {
            RequesterPhase::AwaitingReply => {
                match event {
                    RequesterEvent::CarrierReceived => {
                        self.phase = RequesterPhase::Stored;
                        RequesterAction::Stay
                    },
                    RequesterEvent::RejectionReceived => {
                        self.phase = RequesterPhase::Rejected;
                        RequesterAction::SendRejectionAck { image_id: self.image_id.clone() }
                    },
                    RequesterEvent::TimedOut => {
                        self.phase = RequesterPhase::Failed;
                        RequesterAction::Stay
                    },
                }
            },
            _ => RequesterAction::Stay,
        }
    }
}

// --- the owner's decisions --------------------------------------------------------

/// What the owner sends back to an `image_request`.
pub enum ResponderAction {
    /// Approved: the outer carrier to deliver by chunked transport.
    SendCarrier { outer: Image, image_id: String, views: u16 },
    /// Rejected: the single-datagram rejection, to be acknowledged.
    SendRejection { image_id: String, views: u16 },
}

/// Decides the owner's answer to an `image_request`: an approved request
/// gets the inner carrier wrapped with exactly the granted views; a
/// rejected one gets the rejection message with the views echoed back,
/// without touching the carrier.
pub fn respond_to_request(inner: &Image, image_id: &String, requested_views: u16, approved: bool)
    -> (a: ResponderAction)
    requires
        approved ==> (inner.wf() && inner.width >= 2 && inner.height < u32::MAX && 4 * (
        inner.width as int) * (inner.height as int + 1) <= usize::MAX),
    ensures
        approved ==> (a matches ResponderAction::SendCarrier { outer, image_id: iid, views }
            && outer.wf() && outer.width == inner.width && outer.height == inner.height + 1
            && outer.pixels@ =~= inner.pixels@ + rights_row(inner.width as nat, requested_views)
            && iid == image_id && views == requested_views),
        !approved ==> a == (ResponderAction::SendRejection {
            image_id: *image_id,
            views: requested_views,
        }),
{
    if approved {
        let outer = encode_access_rights(inner, requested_views);
        ResponderAction::SendCarrier { outer, image_id: image_id.clone(), views: requested_views }
    } else {
        ResponderAction::SendRejection { image_id: image_id.clone(), views: requested_views }
    }
}

/// The owner's reply to an `increase_views_request`.
pub fn respond_to_increase_views(image_id: &String, requested_views: u16, approved: bool) -> (m:
    PeerMessage)
    ensures
        approved ==> m == (PeerMessage::IncreaseApproved {
            image_id: *image_id,
            views: requested_views,
        }),
        !approved ==> m == (PeerMessage::IncreaseRejected {
            image_id: *image_id,
            views: requested_views,
        }),
{
    if approved {
        PeerMessage::IncreaseApproved { image_id: image_id.clone(), views: requested_views }
    } else {
        PeerMessage::IncreaseRejected { image_id: image_id.clone(), views: requested_views }
    }
}

/// What the owner does after waiting for the viewer's acknowledgement.
pub enum GrantFollowUp {
    /// Acknowledged, or nothing owed: the exchange is over.
    Done,
    /// An approved grant went unacknowledged: forward it to the servers as a
    /// `change-view` so the directory queues it for the viewer's next
    /// sign-in.
    ForwardChangeView { peer_address: String, image_id: String, requested_views: u16 },
}

/// Decides the owner's follow-up once the acknowledgement window closes: an
/// approved but unacknowledged grant is forwarded to the cluster, exactly
/// once; a rejection, acknowledged or not, is dropped silently.
pub fn grant_follow_up(
    peer_address: &String,
    image_id: &String,
    requested_views: u16,
    approved: bool,
    ack_received: bool,
) -> (f: GrantFollowUp)
    ensures
        approved && !ack_received ==> f == (GrantFollowUp::ForwardChangeView {
            peer_address: *peer_address,
            image_id: *image_id,
            requested_views,
        }),
        !approved || ack_received ==> f is Done,
{
    if approved && !ack_received {
        GrantFollowUp::ForwardChangeView {
            peer_address: peer_address.clone(),
            image_id: image_id.clone(),
            requested_views,
        }
    } else {
        GrantFollowUp::Done
    }
}

} // verus!
