//! The four choke and interest flags of one connection.
use vstd::prelude::*;
use crate::peer::Message;

verus! {

#[derive(Debug, Clone, Copy, PartialEq, Eq, Structural)]
pub struct PeerState {
    pub am_choking: bool,
    pub am_interested: bool,
    pub peer_choking: bool,
    pub peer_interested: bool,
}

/// A new connection: both sides choke and neither is interested.
pub open spec fn initial_state() -> PeerState {
    PeerState { am_choking: true, am_interested: false, peer_choking: true, peer_interested: false }
}

/// What a message from the peer does to the flags.
pub open spec fn after_message(s: PeerState, m: Message) -> PeerState {
    match m {
        Message::Choke => PeerState { peer_choking: true, ..s },
        Message::Unchoke => PeerState { peer_choking: false, ..s },
        Message::Interested => PeerState { peer_interested: true, ..s },
        Message::NotInterested => PeerState { peer_interested: false, ..s },
        _ => s,
    }
}

impl Default for PeerState {
    fn default() -> (r: Self)
        ensures
            r == initial_state(),
    {
        PeerState { am_choking: true, am_interested: false, peer_choking: true, peer_interested: false }
    }
}

impl PeerState {
    pub fn new() -> (r: Self)
        ensures
            r == initial_state(),
    {
        PeerState { am_choking: true, am_interested: false, peer_choking: true, peer_interested: false }
    }

    /// Applies a message the peer sent.
    pub fn on_message(&mut self, message: &Message)
        ensures
            *final(self) == after_message(*old(self), *message),
    {
        match message {
            Message::Choke => self.peer_choking = true,
            Message::Unchoke => self.peer_choking = false,
            Message::Interested => self.peer_interested = true,
            Message::NotInterested => self.peer_interested = false,
            _ => {},
        }
    }

    pub fn set_interested(&mut self, interested: bool)
        ensures
            *final(self) == (PeerState { am_interested: interested, ..*old(self) }),
    {
        self.am_interested = interested;
    }

    pub fn set_choking(&mut self, choking: bool)
        ensures
            *final(self) == (PeerState { am_choking: choking, ..*old(self) }),
    {
        self.am_choking = choking;
    }

    /// We may request blocks: we are interested and the peer does not choke us.
    pub fn can_request(&self) -> (r: bool)
        ensures
            r == (self.am_interested && !self.peer_choking),
    {
        self.am_interested && !self.peer_choking
    }

    /// We may upload: we do not choke the peer and it is interested.
    pub fn may_upload(&self) -> (r: bool)
        ensures
            r == (!self.am_choking && self.peer_interested),
    {
        !self.am_choking && self.peer_interested
    }
}

/// Messages from the peer change only the peer's flags; ours stay as we
/// set them.
pub proof fn law_messages_keep_our_flags(s: PeerState, m: Message)
    ensures
        after_message(s, m).am_choking == s.am_choking,
        after_message(s, m).am_interested == s.am_interested,
{
}

} // verus!
