//! Network endpoints and outbound datagrams, as plain values.
//!
//! The protocol core never touches a socket: the surrounding program hands
//! it the sender of each datagram and carries away the `(address, bytes)`
//! pairs it produces.

use vstd::prelude::*;

verus! {

/// A network endpoint: an opaque host identifier and a port.  Two datagrams
/// come from the same host exactly when their `ip` fields are equal; the
/// surrounding program maps real socket addresses to this form one-to-one.
#[derive(Clone, Copy, Debug, PartialEq, Eq, Structural)]
pub struct NetAddr {
    pub ip: u128,
    pub port: u16,
}

/// An outbound datagram: where it goes and the bytes to send.
pub struct OutMsg {
    pub to: NetAddr,
    pub bytes: Vec<u8>,
}

/// The mathematical content of an outbound datagram.
#[verifier::ext_equal]
pub ghost struct OutMsgV {
    pub to: NetAddr,
    pub bytes: Seq<u8>,
}

impl View for OutMsg {
    type V = OutMsgV;

    open spec fn view(&self) -> OutMsgV {
        OutMsgV { to: self.to, bytes: self.bytes@ }
    }
}

/// The contents of a list of outbound datagrams.
pub open spec fn msgs_view(v: Seq<OutMsg>) -> Seq<OutMsgV> {
    v.map_values(|m: OutMsg| m@)
}

} // verus!
