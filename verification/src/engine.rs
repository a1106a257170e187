//! The per-peer conversation state machine, and the passive listener's
//! first-frame rules.
//!
//! The driver owns the socket; it feeds every received frame in as an
//! event and performs the returned action. The machine itself decides.
use vstd::prelude::*;

use crate::codec::{Decoded, DecodedSpec, Message, MessageSpec, VersionMsg};

verus! {

/// The wall-clock ceiling on one whole conversation, in seconds.
pub const CONVERSATION_TIMEOUT_SECS: u64 = 60;

/// The ceiling on the first frame's payload read by the passive listener.
pub const LISTENER_MAX_FIRST_PAYLOAD: u32 = 1024;

/// Returns whether the listener may read a first frame of this payload
/// length.
pub fn listener_first_frame_ok(len: u32) -> (r: bool)
    ensures
        r == (len <= LISTENER_MAX_FIRST_PAYLOAD),
{
    len <= LISTENER_MAX_FIRST_PAYLOAD
}

/// Where an outbound conversation stands after our `version` went out.
#[derive(Clone, Copy, PartialEq, Eq, Structural, Debug)]
pub enum ConvState {
    VersionSent,
    AwaitingVerack,
    AwaitingAddr,
    Done,
    Failed,
}

/// What the driver observed on the wire.
#[derive(Clone, Copy, PartialEq, Eq, Structural, Debug)]
pub enum ConvEvent {
    RecvVersion,
    RecvVerack,
    RecvPing { nonce: u64 },
    RecvAddrGossip,
    RecvUnknown,
    RecvFailed,
}

/// What the driver must do next.
#[derive(Clone, Copy, PartialEq, Eq, Structural, Debug)]
pub enum ConvAction {
    /// Book the success and handshake rows, then send `sendaddrv2`
    /// followed by `verack`.
    RecordPeerAndReply,
    /// Send `getaddr`.
    SendGetAddr,
    /// Answer a ping, echoing its nonce.
    SendPong { nonce: u64 },
    /// Hand the gossip to the ingest pipeline and close normally.
    IngestGossip,
    /// Close the socket and book a failure.
    CloseFailed,
    /// Consume and discard the frame.
    Ignore,
}

/// The transition relation of the handshake: version, then verack, then
/// address gossip, answering pings and discarding unknown commands; a
/// recv failure or a message out of turn fails the conversation.
pub open spec fn spec_conv_step(s: ConvState, e: ConvEvent) -> (ConvState, ConvAction) {
    match (s, e) {
        (ConvState::VersionSent, ConvEvent::RecvVersion) => (
            ConvState::AwaitingVerack,
            ConvAction::RecordPeerAndReply,
        ),
        (ConvState::AwaitingVerack, ConvEvent::RecvVerack) => (
            ConvState::AwaitingAddr,
            ConvAction::SendGetAddr,
        ),
        (ConvState::AwaitingAddr, ConvEvent::RecvPing { nonce }) => (
            ConvState::AwaitingAddr,
            ConvAction::SendPong { nonce },
        ),
        (ConvState::AwaitingAddr, ConvEvent::RecvAddrGossip) => (
            ConvState::Done,
            ConvAction::IngestGossip,
        ),
        (_, ConvEvent::RecvUnknown) => (s, ConvAction::Ignore),
        (ConvState::Done, _) => (ConvState::Done, ConvAction::Ignore),
        (ConvState::Failed, _) => (ConvState::Failed, ConvAction::Ignore),
        _ => (ConvState::Failed, ConvAction::CloseFailed),
    }
}

/// Advances the conversation by one observed event.
pub fn conv_step(s: ConvState, e: ConvEvent) -> (r: (ConvState, ConvAction))
    ensures
        r == spec_conv_step(s, e),
{
    match (s, e) {
        (ConvState::VersionSent, ConvEvent::RecvVersion) => (
            ConvState::AwaitingVerack,
            ConvAction::RecordPeerAndReply,
        ),
        (ConvState::AwaitingVerack, ConvEvent::RecvVerack) => (
            ConvState::AwaitingAddr,
            ConvAction::SendGetAddr,
        ),
        (ConvState::AwaitingAddr, ConvEvent::RecvPing { nonce }) => (
            ConvState::AwaitingAddr,
            ConvAction::SendPong { nonce },
        ),
        (ConvState::AwaitingAddr, ConvEvent::RecvAddrGossip) => (
            ConvState::Done,
            ConvAction::IngestGossip,
        ),
        (_, ConvEvent::RecvUnknown) => (s, ConvAction::Ignore),
        (ConvState::Done, _) => (ConvState::Done, ConvAction::Ignore),
        (ConvState::Failed, _) => (ConvState::Failed, ConvAction::Ignore),
        _ => (ConvState::Failed, ConvAction::CloseFailed),
    }
}

/// The event a decoded frame raises.
pub open spec fn spec_event_of(d: DecodedSpec) -> ConvEvent {
    match d {
        DecodedSpec::Known(m) => match m {
            MessageSpec::Version(_) => ConvEvent::RecvVersion,
            MessageSpec::Verack => ConvEvent::RecvVerack,
            MessageSpec::Ping(n) => ConvEvent::RecvPing { nonce: n },
            MessageSpec::Addr(_) => ConvEvent::RecvAddrGossip,
            MessageSpec::AddrV2(_) => ConvEvent::RecvAddrGossip,
            _ => ConvEvent::RecvUnknown,
        },
        DecodedSpec::UnknownCmd => ConvEvent::RecvUnknown,
        DecodedSpec::Malformed => ConvEvent::RecvFailed,
    }
}

/// Maps a decode outcome to the event the machine consumes.
pub fn event_of_decoded(d: &Decoded) -> (r: ConvEvent)
    ensures
        r == spec_event_of(d@),
{
    match d {
        Decoded::Known(m) => match m {
            Message::Version(_) => ConvEvent::RecvVersion,
            Message::Verack => ConvEvent::RecvVerack,
            Message::Ping(n) => ConvEvent::RecvPing { nonce: *n },
            Message::Addr(_) => ConvEvent::RecvAddrGossip,
            Message::AddrV2(_) => ConvEvent::RecvAddrGossip,
            _ => ConvEvent::RecvUnknown,
        },
        Decoded::UnknownCmd => ConvEvent::RecvUnknown,
        Decoded::Malformed => ConvEvent::RecvFailed,
    }
}

/// Whether the listener records a first frame: only a `version` counts as
/// evidence of reachability, everything else is dropped.
pub open spec fn spec_inbound_records(d: DecodedSpec) -> bool {
    d matches DecodedSpec::Known(MessageSpec::Version(_))
}

/// Extracts the `version` of an inbound first frame, if that is what it
/// was.
pub fn inbound_version(d: Decoded) -> (r: Option<VersionMsg>)
    ensures
        r is Some <==> spec_inbound_records(d@),
        r matches Some(v) ==> d@ == DecodedSpec::Known(MessageSpec::Version(v@)),
{
    match d {
        Decoded::Known(Message::Version(v)) => Some(v),
        _ => None,
    }
}

} // verus!
