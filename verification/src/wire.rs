//! Datagram tags.
//!
//! Every datagram starts with a one-byte tag; the tag spaces of the two
//! directions are disjoint enumerations.  An out-of-range byte decodes to
//! `None` and the datagram is dropped as foreign traffic: the transport is
//! best-effort and garbage is expected, not fatal.

use vstd::prelude::*;

verus! {

/// Tags of client-to-server datagrams.
#[derive(Clone, Copy, Debug, PartialEq, Eq, Structural)]
pub enum ClientPacket {
    Join,
    Leave,
    KeepAlive,
    Chat,
    WorldClick,
}

/// Tags of server-to-client datagrams.
#[derive(Clone, Copy, Debug, PartialEq, Eq, Structural)]
pub enum ServerPacket {
    JoinResult,
    ClientJoin,
    ClientLeave,
    Chat,
    ChunkModified,
}

impl ClientPacket {
    /// The byte this tag is sent as.
    pub open spec fn spec_byte(self) -> u8 {
        match self {
            ClientPacket::Join => 0,
            ClientPacket::Leave => 1,
            ClientPacket::KeepAlive => 2,
            ClientPacket::Chat => 3,
            ClientPacket::WorldClick => 4,
        }
    }

    /// The tag a byte decodes to, if any.
    pub open spec fn spec_from_byte(b: u8) -> Option<ClientPacket> {
        if b == 0 {
            Some(ClientPacket::Join)
        } else if b == 1 {
            Some(ClientPacket::Leave)
        } else if b == 2 {
            Some(ClientPacket::KeepAlive)
        } else if b == 3 {
            Some(ClientPacket::Chat)
        } else if b == 4 {
            Some(ClientPacket::WorldClick)
        } else {
            None
        }
    }

    pub fn to_byte(self) -> (b: u8)
        ensures
            b == self.spec_byte(),
    {
        match self {
            ClientPacket::Join => 0,
            ClientPacket::Leave => 1,
            ClientPacket::KeepAlive => 2,
            ClientPacket::Chat => 3,
            ClientPacket::WorldClick => 4,
        }
    }

    pub fn from_byte(b: u8) -> (r: Option<ClientPacket>)
        ensures
            r == Self::spec_from_byte(b),
    {
        if b == 0 {
            Some(ClientPacket::Join)
        } else if b == 1 {
            Some(ClientPacket::Leave)
        } else if b == 2 {
            Some(ClientPacket::KeepAlive)
        } else if b == 3 {
            Some(ClientPacket::Chat)
        } else if b == 4 {
            Some(ClientPacket::WorldClick)
        } else {
            None
        }
    }
}

/// Decoding a tag undoes encoding it, and an encoded tag is never mistaken
/// for another: the tag byte pins the variant down.
pub proof fn lemma_client_tag_round_trip(t: ClientPacket)
    ensures
        ClientPacket::spec_from_byte(t.spec_byte()) == Some(t),
{
}

impl ServerPacket {
    /// The byte this tag is sent as.
    pub open spec fn spec_byte(self) -> u8 {
        match self {
            ServerPacket::JoinResult => 0,
            ServerPacket::ClientJoin => 1,
            ServerPacket::ClientLeave => 2,
            ServerPacket::Chat => 3,
            ServerPacket::ChunkModified => 4,
        }
    }

    /// The tag a byte decodes to, if any.
    pub open spec fn spec_from_byte(b: u8) -> Option<ServerPacket> {
        if b == 0 {
            Some(ServerPacket::JoinResult)
        } else if b == 1 {
            Some(ServerPacket::ClientJoin)
        } else if b == 2 {
            Some(ServerPacket::ClientLeave)
        } else if b == 3 {
            Some(ServerPacket::Chat)
        } else if b == 4 {
            Some(ServerPacket::ChunkModified)
        } else {
            None
        }
    }

    pub fn to_byte(self) -> (b: u8)
        ensures
            b == self.spec_byte(),
    {
        match self {
            ServerPacket::JoinResult => 0,
            ServerPacket::ClientJoin => 1,
            ServerPacket::ClientLeave => 2,
            ServerPacket::Chat => 3,
            ServerPacket::ChunkModified => 4,
        }
    }

    pub fn from_byte(b: u8) -> (r: Option<ServerPacket>)
        ensures
            r == Self::spec_from_byte(b),
    {
        if b == 0 {
            Some(ServerPacket::JoinResult)
        } else if b == 1 {
            Some(ServerPacket::ClientJoin)
        } else if b == 2 {
            Some(ServerPacket::ClientLeave)
        } else if b == 3 {
            Some(ServerPacket::Chat)
        } else if b == 4 {
            Some(ServerPacket::ChunkModified)
        } else {
            None
        }
    }
}

/// Decoding a tag undoes encoding it.
pub proof fn lemma_server_tag_round_trip(t: ServerPacket)
    ensures
        ServerPacket::spec_from_byte(t.spec_byte()) == Some(t),
{
}

} // verus!
