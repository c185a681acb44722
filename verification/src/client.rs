//! The client's side of the session.
//!
//! The session walks Disconnected → Connecting (Join sent, awaiting a
//! JoinResult) → Connected (slot id held) → Disconnected again on an
//! explicit Leave.  There is no automatic reconnect.  The session owns no
//! socket: each request produces the datagram to send, and the surrounding
//! program passes received datagrams back in.  Requests made before a
//! successful Join produce nothing rather than panic.

use vstd::prelude::*;
use vstd::string::StrSliceExecFns;
use vstd::utf8::encode_utf8;

use crate::codec::{decode_world, spec_decode_world, encode_position, pos_encodable, spec_encode_position};
use crate::net::NetAddr;
use crate::wire::{ClientPacket, ServerPacket};
use crate::world::{Position, World};

verus! {

/// Why a session request failed before any datagram went out.  "No room on
/// the server" is deliberately not here: a denied Join is an answer, not an
/// error.
#[derive(Clone, Copy, Debug, PartialEq, Eq, Structural)]
pub enum NetworkError {
    EmptyUsername,
    InvalidAddress,
}

/// Where the session stands.
#[derive(Clone, Copy, Debug, PartialEq, Eq, Structural)]
pub enum SessionState {
    Disconnected,
    Connecting,
    Connected,
}

/// Running state of the address parser: how many dotted groups are
/// complete, the number being read, and the host value built so far.
#[derive(Clone, Copy, Debug, PartialEq, Eq, Structural)]
pub struct AddrParse {
    pub ok: bool,
    pub sect: u8,
    pub digits: u8,
    pub cur: u32,
    pub acc: u32,
}

/// The parser's numbers stay inside their fields: a group below 256, a port
/// below 65536, and the host accumulator below 256 to the power of the
/// groups finished.
pub open spec fn addr_parse_wf(st: AddrParse) -> bool {
    &&& st.sect <= 4
    &&& (st.sect <= 3 ==> st.cur <= 255)
    &&& st.cur <= 65535
    &&& (st.sect == 0 ==> st.acc == 0)
    &&& (st.sect == 1 ==> st.acc <= 0xFF)
    &&& (st.sect == 2 ==> st.acc <= 0xFFFF)
    &&& (st.sect == 3 ==> st.acc <= 0xFF_FFFF)
}

/// The parser's rejected state.
pub open spec fn spec_addr_fail() -> AddrParse {
    AddrParse { ok: false, sect: 0, digits: 0, cur: 0, acc: 0 }
}

/// One byte of a dotted-quad address with port, `a.b.c.d:p`: a digit grows
/// the current number, a dot closes one of the first three groups, a colon
/// closes the fourth and opens the port; anything else rejects.
pub open spec fn spec_addr_step(st: AddrParse, c: u8) -> AddrParse {
    if !st.ok {
        st
    } else if 48 <= c <= 57 {
        let d = (c - 48) as u32;
        if st.sect <= 3 {
            if st.cur * 10 + d <= 255 {
                AddrParse {
                    cur: (st.cur * 10 + d) as u32,
                    digits: if st.digits == 255 {
                        255u8
                    } else {
                        (st.digits + 1) as u8
                    },
                    ..st
                }
            } else {
                spec_addr_fail()
            }
        } else {
            if st.cur * 10 + d <= 65535 {
                AddrParse {
                    cur: (st.cur * 10 + d) as u32,
                    digits: if st.digits == 255 {
                        255u8
                    } else {
                        (st.digits + 1) as u8
                    },
                    ..st
                }
            } else {
                spec_addr_fail()
            }
        }
    } else if c == 46 {
        if st.sect <= 2 && st.digits > 0 {
            AddrParse {
                ok: true,
                sect: (st.sect + 1) as u8,
                digits: 0,
                cur: 0,
                acc: (st.acc * 256 + st.cur) as u32,
            }
        } else {
            spec_addr_fail()
        }
    } else if c == 58 {
        if st.sect == 3 && st.digits > 0 {
            AddrParse {
                ok: true,
                sect: 4,
                digits: 0,
                cur: 0,
                acc: (st.acc * 256 + st.cur) as u32,
            }
        } else {
            spec_addr_fail()
        }
    } else {
        spec_addr_fail()
    }
}

/// The parser run over a whole byte string.
pub open spec fn spec_addr_fold(b: Seq<u8>) -> AddrParse
    decreases b.len(),
{
    if b.len() == 0 {
        AddrParse { ok: true, sect: 0, digits: 0, cur: 0, acc: 0 }
    } else {
        spec_addr_step(spec_addr_fold(b.drop_last()), b.last())
    }
}

/// The endpoint a byte string names, if it has the form `a.b.c.d:p` with
/// each group below 256 and the port below 65536.  The host value is the
/// four groups read big-endian.
pub open spec fn spec_parse_addr(b: Seq<u8>) -> Option<NetAddr> {
    let st = spec_addr_fold(b);
    if st.ok && st.sect == 4 && st.digits > 0 {
        Some(NetAddr { ip: st.acc as u128, port: st.cur as u16 })
    } else {
        None
    }
}

fn addr_step(st: AddrParse, c: u8) -> (r: AddrParse)
    requires
        addr_parse_wf(st),
    ensures
        r == spec_addr_step(st, c),
        addr_parse_wf(r),
{
    let fail = AddrParse { ok: false, sect: 0, digits: 0, cur: 0, acc: 0 };
    if !st.ok {
        st
    } else if 48 <= c && c <= 57 {
        let d = (c - 48) as u32;
        let limit: u32 = if st.sect <= 3 {
            255
        } else {
            65535
        };
        if st.cur * 10 + d <= limit {
            AddrParse {
                cur: st.cur * 10 + d,
                digits: if st.digits == 255 {
                    255
                } else {
                    st.digits + 1
                },
                ..st
            }
        } else {
            fail
        }
    } else if c == 46 {
        if st.sect <= 2 && st.digits > 0 {
            AddrParse { ok: true, sect: st.sect + 1, digits: 0, cur: 0, acc: st.acc * 256 + st.cur }
        } else {
            fail
        }
    } else if c == 58 {
        if st.sect == 3 && st.digits > 0 {
            AddrParse { ok: true, sect: 4, digits: 0, cur: 0, acc: st.acc * 256 + st.cur }
        } else {
            fail
        }
    } else {
        fail
    }
}

/// Parse a textual `a.b.c.d:p` endpoint from its bytes.
pub fn parse_addr(b: &[u8]) -> (r: Option<NetAddr>)
    ensures
        r == spec_parse_addr(b@),
{
    let n = b.len();
    let mut st = AddrParse { ok: true, sect: 0, digits: 0, cur: 0, acc: 0 };
    let mut i: usize = 0;
    proof {
        assert(b@.take(0) =~= Seq::<u8>::empty());
    }
    while i < n
        invariant
            n == b@.len(),
            i <= n,
            st == spec_addr_fold(b@.take(i as int)),
            addr_parse_wf(st),
        decreases n - i,
    {
        proof {
            assert(b@.take(i as int + 1).drop_last() =~= b@.take(i as int));
            assert(b@.take(i as int + 1).last() == b@[i as int]);
        }
        st = addr_step(st, *vstd::slice::slice_index_get(b, i));
        i = i + 1;
    }
    proof {
        assert(b@.take(n as int) =~= b@);
    }
    if st.ok && st.sect == 4 && st.digits > 0 {
        Some(NetAddr { ip: st.acc as u128, port: st.cur as u16 })
    } else {
        None
    }
}

/// The client's session facade, less the socket: the remote address and
/// username to join with, the state of the handshake, the slot id the
/// server granted, and the keep-alive call counter.
pub struct ClientSession {
    pub ip: String,
    pub username: String,
    pub state: SessionState,
    pub client_id: Option<u8>,
    pub keep_alive_timer: u16,
}

/// How many calls of the keep-alive pump pass between KeepAlive datagrams.
/// The period is counted in calls, not wall-clock time.
pub const KEEP_ALIVE_PERIOD: u16 = 500;

impl ClientSession {
    /// A connected session holds the slot id the server granted.
    pub open spec fn wf(&self) -> bool {
        self.state is Connected ==> self.client_id is Some
    }

    /// A fresh disconnected session pointed at the default local server.
    pub fn new() -> (s: ClientSession)
        ensures
            s.wf(),
            s.ip@ == "127.0.0.1:8080"@,
            s.username@ == Seq::<char>::empty(),
            s.state is Disconnected,
            s.client_id is None,
            s.keep_alive_timer == 0,
    {
        ClientSession {
            ip: String::from_str("127.0.0.1:8080"),
            username: String::new(),
            state: SessionState::Disconnected,
            client_id: None,
            keep_alive_timer: 0,
        }
    }

    /// The endpoint the `ip` field names, if it parses.
    pub fn remote_addr(&self) -> (r: Option<NetAddr>)
        ensures
            r == spec_parse_addr(encode_utf8(self.ip@)),
    {
        parse_addr(self.ip.as_str().as_bytes())
    }

    /// Start a join: validate the username and the address — the username
    /// check comes before anything would touch the network — and hand back
    /// the Join datagram, moving to Connecting.  On a session that is
    /// already connected there is nothing to do.
    pub fn join_request(&mut self) -> (r: Result<Option<Vec<u8>>, NetworkError>)
        requires
            old(self).wf(),
        ensures
            final(self).wf(),
            final(self).ip == old(self).ip,
            final(self).username == old(self).username,
            final(self).client_id == old(self).client_id,
            final(self).keep_alive_timer == old(self).keep_alive_timer,
            match r {
                Result::Ok(Option::None) => old(self).state is Connected && final(self).state
                    == old(self).state,
                Result::Ok(Option::Some(d)) => {
                    &&& !(old(self).state is Connected)
                    &&& old(self).username@.len() > 0
                    &&& spec_parse_addr(encode_utf8(old(self).ip@)) is Some
                    &&& d@ == seq![ClientPacket::Join.spec_byte()] + encode_utf8(
                        old(self).username@,
                    )
                    &&& final(self).state is Connecting
                },
                Result::Err(e) => {
                    &&& final(self).state == old(self).state
                    &&& !(old(self).state is Connected)
                    &&& (e == NetworkError::EmptyUsername <==> old(self).username@.len() == 0)
                    &&& (e == NetworkError::InvalidAddress ==> old(self).username@.len() > 0
                        && spec_parse_addr(encode_utf8(old(self).ip@)) is None)
                },
            },
    {
        match self.state {
            SessionState::Connected => Ok(None),
            _ => {
                if self.username.as_str().unicode_len() == 0 {
                    return Err(NetworkError::EmptyUsername);
                }
                if self.remote_addr().is_none() {
                    return Err(NetworkError::InvalidAddress);
                }
                let mut d: Vec<u8> = Vec::new();
                d.push(ClientPacket::Join.to_byte());
                let mut nb = self.username.as_str().as_bytes_vec();
                d.append(&mut nb);
                self.state = SessionState::Connecting;
                proof {
                    assert(d@ =~= seq![ClientPacket::Join.spec_byte()] + encode_utf8(
                        self.username@,
                    ));
                }
                Ok(Some(d))
            },
        }
    }

    /// Take the one reply to a Join.  A JoinResult longer than its tag and
    /// slot byte means the server let us in: hold the slot id, move to
    /// Connected, and decode the world snapshot that rides along.  A bare
    /// JoinResult means the server did not — that is an answer, not an
    /// error, and the session stays where it was.
    pub fn handle_join_reply(&mut self, reply: &[u8]) -> (r: Option<(u8, Option<World>)>)
        requires
            old(self).wf(),
        ensures
            final(self).wf(),
            final(self).ip == old(self).ip,
            final(self).username == old(self).username,
            final(self).keep_alive_timer == old(self).keep_alive_timer,
            ({
                let granted = !(old(self).state is Connected) && reply@.len() >= 2 && reply@[0]
                    == ServerPacket::JoinResult.spec_byte();
                match r {
                    Option::Some((id, w)) => {
                        &&& granted
                        &&& id == reply@[1]
                        &&& final(self).state is Connected
                        &&& final(self).client_id == Some(reply@[1])
                        &&& (match w {
                            Option::Some(world) => world.wf() && spec_decode_world(
                                reply@.subrange(2, reply@.len() as int),
                            ) == Some(world@),
                            Option::None => spec_decode_world(
                                reply@.subrange(2, reply@.len() as int),
                            ) is None,
                        })
                    },
                    Option::None => !granted && final(self).state == old(self).state
                        && final(self).client_id == old(self).client_id,
                }
            }),
    {
        match self.state {
            SessionState::Connected => None,
            _ => {
                if reply.len() < 2 {
                    return None;
                }
                let tag = *vstd::slice::slice_index_get(reply, 0);
                if tag != 0 {
                    proof {
                        assert(ServerPacket::JoinResult.spec_byte() == 0);
                    }
                    return None;
                }
                let id = *vstd::slice::slice_index_get(reply, 1);
                self.state = SessionState::Connected;
                self.client_id = Some(id);
                let snapshot = vstd::slice::slice_subrange(reply, 2, reply.len());
                proof {
                    assert(snapshot@ =~= reply@.subrange(2, reply@.len() as int));
                }
                let w = decode_world(snapshot);
                Some((id, w))
            },
        }
    }

    /// Leave the server: hand back the Leave datagram and tear the local
    /// state down at once — no acknowledgement exists for Leave, so the
    /// teardown must not wait for one.  Disconnected and Connecting
    /// sessions have nothing to send.
    pub fn leave(&mut self) -> (r: Option<Vec<u8>>)
        requires
            old(self).wf(),
        ensures
            final(self).wf(),
            final(self).ip == old(self).ip,
            final(self).username == old(self).username,
            final(self).keep_alive_timer == old(self).keep_alive_timer,
            match r {
                Option::Some(d) => {
                    &&& old(self).state is Connected
                    &&& d@ == seq![
                        ClientPacket::Leave.spec_byte(),
                        old(self).client_id->0,
                    ]
                    &&& final(self).state is Disconnected
                    &&& final(self).client_id is None
                },
                Option::None => !(old(self).state is Connected)
                    && final(self).state == old(self).state
                    && final(self).client_id == old(self).client_id,
            },
    {
        match self.state {
            SessionState::Connected => {
                let id = match self.client_id {
                    Some(id) => id,
                    None => {
                        proof {
                            assert(false);
                        }
                        0
                    },
                };
                let mut d: Vec<u8> = Vec::new();
                d.push(ClientPacket::Leave.to_byte());
                d.push(id);
                self.state = SessionState::Disconnected;
                self.client_id = None;
                proof {
                    assert(d@ =~= seq![ClientPacket::Leave.spec_byte(), old(self).client_id->0]);
                }
                Some(d)
            },
            _ => None,
        }
    }

    /// Pump the keep-alive timer: every `KEEP_ALIVE_PERIOD`-th call on a
    /// connected session produces a KeepAlive datagram.  The period counts
    /// calls, so its real-world length follows the caller's polling rate.
    pub fn keep_alive_tick(&mut self) -> (r: Option<Vec<u8>>)
        requires
            old(self).wf(),
        ensures
            final(self).wf(),
            final(self).ip == old(self).ip,
            final(self).username == old(self).username,
            final(self).state == old(self).state,
            final(self).client_id == old(self).client_id,
            match r {
                Option::Some(d) => {
                    &&& old(self).state is Connected
                    &&& old(self).keep_alive_timer == KEEP_ALIVE_PERIOD
                    &&& d@ == seq![
                        ClientPacket::KeepAlive.spec_byte(),
                        old(self).client_id->0,
                    ]
                    &&& final(self).keep_alive_timer == 1
                },
                Option::None => {
                    &&& !(old(self).state is Connected && old(self).keep_alive_timer
                        == KEEP_ALIVE_PERIOD)
                    &&& (old(self).state is Connected ==> final(self).keep_alive_timer as int == (
                    if old(self).keep_alive_timer < u16::MAX {
                        old(self).keep_alive_timer + 1
                    } else {
                        old(self).keep_alive_timer as int
                    }))
                    &&& (!(old(self).state is Connected)
                        ==> final(self).keep_alive_timer == old(self).keep_alive_timer)
                },
            },
    {
        match self.state {
            SessionState::Connected => {
                let id = match self.client_id {
                    Some(id) => id,
                    None => {
                        proof {
                            assert(false);
                        }
                        0
                    },
                };
                let mut sent: Option<Vec<u8>> = None;
                if self.keep_alive_timer == KEEP_ALIVE_PERIOD {
                    let mut d: Vec<u8> = Vec::new();
                    d.push(ClientPacket::KeepAlive.to_byte());
                    d.push(id);
                    proof {
                        assert(d@ =~= seq![
                            ClientPacket::KeepAlive.spec_byte(),
                            old(self).client_id->0,
                        ]);
                    }
                    sent = Some(d);
                    self.keep_alive_timer = 0;
                }
                if self.keep_alive_timer < u16::MAX {
                    self.keep_alive_timer = self.keep_alive_timer + 1;
                }
                sent
            },
            _ => None,
        }
    }

    /// Frame a chat line for the server.  Before a successful Join there is
    /// nothing to send and nothing happens.
    pub fn send_chat_message(&self, message: &str) -> (r: Option<Vec<u8>>)
        requires
            self.wf(),
        ensures
            match r {
                Option::Some(d) => self.state is Connected && d@ == seq![
                    ClientPacket::Chat.spec_byte(),
                    self.client_id->0,
                ] + encode_utf8(message@),
                Option::None => !(self.state is Connected),
            },
    {
        match self.state {
            SessionState::Connected => {
                let id = match self.client_id {
                    Some(id) => id,
                    None => {
                        proof {
                            assert(false);
                        }
                        0
                    },
                };
                let mut d: Vec<u8> = Vec::new();
                d.push(ClientPacket::Chat.to_byte());
                d.push(id);
                let mut mb = message.as_bytes_vec();
                d.append(&mut mb);
                proof {
                    assert(d@ =~= seq![ClientPacket::Chat.spec_byte(), self.client_id->0]
                        + encode_utf8(message@));
                }
                Some(d)
            },
            _ => None,
        }
    }

    /// Frame a world click for the server.  Before a successful Join, or
    /// for a position too large for the wire, nothing is sent.
    pub fn send_client_world_click(&self, position: &Position) -> (r: Option<Vec<u8>>)
        requires
            self.wf(),
        ensures
            match r {
                Option::Some(d) => self.state is Connected && pos_encodable(*position) && d@
                    == seq![
                    ClientPacket::WorldClick.spec_byte(),
                    self.client_id->0,
                ] + spec_encode_position(*position),
                Option::None => !(self.state is Connected) || !pos_encodable(*position),
            },
    {
        match self.state {
            SessionState::Connected => {
                if position.x > 0xFFFF_FFFF as usize || position.y > 0xFFFF_FFFF as usize {
                    return None;
                }
                let id = match self.client_id {
                    Some(id) => id,
                    None => {
                        proof {
                            assert(false);
                        }
                        0
                    },
                };
                let mut d: Vec<u8> = Vec::new();
                d.push(ClientPacket::WorldClick.to_byte());
                d.push(id);
                let mut pb = encode_position(position);
                d.append(&mut pb);
                proof {
                    assert(d@ =~= seq![ClientPacket::WorldClick.spec_byte(), self.client_id->0]
                        + spec_encode_position(*position));
                }
                Some(d)
            },
            _ => None,
        }
    }
}

/// Split a received server datagram into its tag and payload, as the
/// renderer consumes them.  An unknown tag comes back as `None` with the
/// payload untouched; an empty datagram carries nothing.
pub fn decode_server_message(data: &[u8]) -> (r: (Option<ServerPacket>, Vec<u8>))
    ensures
        data@.len() == 0 ==> r.0 is None && r.1@ == Seq::<u8>::empty(),
        data@.len() > 0 ==> r.0 == ServerPacket::spec_from_byte(data@[0]) && r.1@ == data@.subrange(
            1,
            data@.len() as int,
        ),
{
    if data.len() == 0 {
        return (None, Vec::new());
    }
    let tag = ServerPacket::from_byte(*vstd::slice::slice_index_get(data, 0));
    let payload = vstd::slice::slice_to_vec(vstd::slice::slice_subrange(data, 1, data.len()));
    (tag, payload)
}

} // verus!
