//! The server's session state machine.
//!
//! One `ServerState` holds the fixed slot pool, the roster of players
//! parallel to it, and the authoritative world.  The dispatch loop feeds
//! every received datagram to [`ServerState::handle_datagram`]; a fixed-rate
//! timer calls [`ServerState::tick`].  Both return the datagrams to send,
//! and neither ever panics: malformed input and trust violations fall
//! through as no-ops, which is the designed response to garbage on a
//! best-effort transport.
//!
//! The slot array and the roster are parallel: a slot holds an address
//! exactly when the roster holds a player at the same index, and the two are
//! always mutated together.

use vstd::prelude::*;

use vstd::utf8::{decode_utf8, encode_utf8, valid_utf8};

use crate::codec::{
    decode_position, decode_text, encode_chunk, encode_roster, encode_world, name_encodable,
    pos_encodable, roster_view, spec_decode_position, spec_encode_chunk, spec_encode_roster,
    spec_encode_world, spec_trim_nul,
};
use crate::net::{msgs_view, NetAddr, OutMsg, OutMsgV};
use crate::wire::{ClientPacket, ServerPacket};
use crate::world::{
    lemma_chunk_index_decomposes, spec_chunk_index, spec_set_global_tile, world_v_wf, Player, Tile,
    TileType, World, WorldV, CHUNK_SIZE,
};

verus! {

/// One connection slot: the endpoint on file and the ticks since its last
/// liveness signal.
#[derive(Clone, Copy, Debug, PartialEq, Eq, Structural)]
pub struct ClientSlot {
    pub addr: NetAddr,
    pub last_heard: u32,
}

/// The mathematical content of the server's state.
#[verifier::ext_equal]
pub ghost struct ServerStateV {
    pub slots: Seq<Option<ClientSlot>>,
    pub players: Seq<Option<Seq<char>>>,
    pub world: WorldV,
}

/// The server's shared state: slot pool, roster, world, and the liveness
/// threshold in ticks.
pub struct ServerState {
    pub slots: Vec<Option<ClientSlot>>,
    pub players: Vec<Option<Player>>,
    pub world: World,
    pub timeout_ticks: u32,
}

impl View for ServerState {
    type V = ServerStateV;

    open spec fn view(&self) -> ServerStateV {
        ServerStateV {
            slots: self.slots@,
            players: roster_view(self.players@),
            world: self.world@,
        }
    }
}

/// The slot pool and the roster line up: same length, occupied together,
/// every username fits the wire, and the pool is small enough that a slot
/// id fits its byte.
pub open spec fn state_v_wf(s: ServerStateV) -> bool {
    &&& s.slots.len() == s.players.len()
    &&& s.slots.len() <= 0xFF
    &&& forall|i: int|
        0 <= i < s.slots.len() ==> ((#[trigger] s.slots[i]) is Some <==> s.players[i] is Some)
    &&& forall|i: int|
        0 <= i < s.players.len() ==> ((#[trigger] s.players[i]) is Some ==> name_encodable(
            s.players[i]->0,
        ))
    &&& world_v_wf(s.world)
}

/// The lowest free slot index, or `-1` when every slot is taken.
pub open spec fn spec_first_free(slots: Seq<Option<ClientSlot>>) -> int
    decreases slots.len(),
{
    if slots.len() == 0 {
        -1
    } else if slots[0] is None {
        0
    } else {
        let r = spec_first_free(slots.drop_first());
        if r == -1 {
            -1
        } else {
            r + 1
        }
    }
}

/// How many slots are free.
pub open spec fn spec_free_count(slots: Seq<Option<ClientSlot>>) -> nat
    decreases slots.len(),
{
    if slots.len() == 0 {
        0
    } else {
        (if slots[0] is None {
            1nat
        } else {
            0nat
        }) + spec_free_count(slots.drop_first())
    }
}

/// What `spec_first_free` finds: `-1` exactly when the pool is full, and
/// otherwise the lowest free index.
pub proof fn lemma_first_free(slots: Seq<Option<ClientSlot>>)
    ensures
        -1 <= spec_first_free(slots) < slots.len(),
        spec_first_free(slots) == -1 <==> spec_free_count(slots) == 0,
        spec_first_free(slots) == -1 ==> forall|i: int|
            0 <= i < slots.len() ==> (#[trigger] slots[i]) is Some,
        spec_first_free(slots) >= 0 ==> slots[spec_first_free(slots)] is None && forall|i: int|
            0 <= i < spec_first_free(slots) ==> (#[trigger] slots[i]) is Some,
    decreases slots.len(),
{
    if slots.len() == 0 {
    } else {
        lemma_first_free(slots.drop_first());
        let d = slots.drop_first();
        if slots[0] is None {
        } else {
            let r = spec_first_free(d);
            if r == -1 {
                assert forall|i: int| 0 <= i < slots.len() implies (#[trigger] slots[i]) is Some by {
                    if i > 0 {
                        assert(d[i - 1] == slots[i]);
                    }
                }
            } else {
                assert(d[r] == slots[r + 1]);
                assert forall|i: int| 0 <= i < r + 1 implies (#[trigger] slots[i]) is Some by {
                    if i > 0 {
                        assert(d[i - 1] == slots[i]);
                    }
                }
            }
        }
    }
}

/// The lowest free index pins `spec_first_free` down.
pub proof fn lemma_first_free_at(slots: Seq<Option<ClientSlot>>, k: int)
    requires
        0 <= k < slots.len(),
        slots[k] is None,
        forall|i: int| 0 <= i < k ==> (#[trigger] slots[i]) is Some,
    ensures
        spec_first_free(slots) == k,
    decreases slots.len(),
{
    if k == 0 {
    } else {
        assert(forall|i: int|
            0 <= i < slots.drop_first().len() ==> #[trigger] slots.drop_first()[i] == slots[i + 1]);
        lemma_first_free_at(slots.drop_first(), k - 1);
    }
}

/// Scan for the lowest free slot.
fn first_free(slots: &Vec<Option<ClientSlot>>) -> (r: Option<usize>)
    ensures
        match r {
            Some(k) => k < slots@.len() && spec_first_free(slots@) == k,
            None => spec_first_free(slots@) == -1,
        },
{
    let n = slots.len();
    let mut i: usize = 0;
    while i < n
        invariant
            n == slots@.len(),
            i <= n,
            forall|j: int| 0 <= j < i ==> (#[trigger] slots@[j]) is Some,
        decreases n - i,
    {
        if slots[i].is_none() {
            proof {
                lemma_first_free_at(slots@, i as int);
            }
            return Some(i);
        }
        i = i + 1;
    }
    proof {
        lemma_first_free(slots@);
    }
    None
}

/// A datagram as sent: the tag byte, then the payload.
pub open spec fn spec_packet_bytes(tag: ServerPacket, payload: Seq<u8>) -> Seq<u8> {
    seq![tag.spec_byte()] + payload
}

/// Frame a server packet: the tag byte, then the payload.
pub fn packet_bytes(tag: ServerPacket, payload: &Vec<u8>) -> (r: Vec<u8>)
    ensures
        r@ == spec_packet_bytes(tag, payload@),
{
    let mut r: Vec<u8> = Vec::new();
    r.push(tag.to_byte());
    let n = payload.len();
    let mut i: usize = 0;
    while i < n
        invariant
            n == payload@.len(),
            i <= n,
            r@ =~= seq![tag.spec_byte()] + payload@.take(i as int),
        decreases n - i,
    {
        r.push(payload[i]);
        i = i + 1;
    }
    proof {
        assert(payload@.take(n as int) =~= payload@);
        assert(r@ =~= spec_packet_bytes(tag, payload@));
    }
    r
}

/// One copy of `bytes` to every occupied slot, in slot order.
pub open spec fn spec_broadcast(slots: Seq<Option<ClientSlot>>, bytes: Seq<u8>) -> Seq<OutMsgV>
    decreases slots.len(),
{
    if slots.len() == 0 {
        Seq::empty()
    } else {
        let prefix = spec_broadcast(slots.drop_last(), bytes);
        match slots[slots.len() - 1] {
            Option::Some(c) => prefix.push(OutMsgV { to: c.addr, bytes }),
            Option::None => prefix,
        }
    }
}

/// Build one datagram per occupied slot.  Delivery is per recipient: a send
/// that fails for one must not keep the rest from being attempted.
pub fn broadcast_messages(
    slots: &Vec<Option<ClientSlot>>,
    tag: ServerPacket,
    payload: &Vec<u8>,
) -> (out: Vec<OutMsg>)
    ensures
        msgs_view(out@) == spec_broadcast(slots@, spec_packet_bytes(tag, payload@)),
{
    let mut out: Vec<OutMsg> = Vec::new();
    let n = slots.len();
    let mut i: usize = 0;
    while i < n
        invariant
            n == slots@.len(),
            i <= n,
            msgs_view(out@) =~= spec_broadcast(slots@.take(i as int), spec_packet_bytes(
                tag,
                payload@,
            )),
        decreases n - i,
    {
        proof {
            assert(slots@.take(i as int + 1).drop_last() =~= slots@.take(i as int));
        }
        match &slots[i] {
            Option::Some(c) => {
                let bytes = packet_bytes(tag, payload);
                out.push(OutMsg { to: c.addr, bytes });
            },
            Option::None => {},
        }
        i = i + 1;
        proof {
            assert(msgs_view(out@) =~= spec_broadcast(slots@.take(i as int), spec_packet_bytes(
                tag,
                payload@,
            )));
        }
    }
    proof {
        assert(slots@.take(n as int) =~= slots@);
    }
    out
}

impl ServerState {
    /// The state's representation is well formed.
    pub open spec fn wf(&self) -> bool {
        &&& state_v_wf(self@)
        &&& self.world.wf()
    }

    /// A fresh server: `capacity` free slots, an empty roster, the given
    /// world, and the given liveness threshold in ticks.
    pub fn new(world: World, capacity: usize, timeout_ticks: u32) -> (s: ServerState)
        requires
            world.wf(),
            capacity <= 0xFF,
        ensures
            s.wf(),
            s@.slots == Seq::new(capacity as nat, |i: int| Option::<ClientSlot>::None),
            s@.players == Seq::new(capacity as nat, |i: int| Option::<Seq<char>>::None),
            s@.world == world@,
            s.timeout_ticks == timeout_ticks,
    {
        let mut slots: Vec<Option<ClientSlot>> = Vec::new();
        let mut players: Vec<Option<Player>> = Vec::new();
        let mut i: usize = 0;
        while i < capacity
            invariant
                i <= capacity,
                slots@ =~= Seq::new(i as nat, |j: int| Option::<ClientSlot>::None),
                players@ =~= Seq::new(i as nat, |j: int| Option::<Player>::None),
            decreases capacity - i,
        {
            slots.push(None);
            players.push(None);
            i = i + 1;
        }
        let s = ServerState { slots, players, world, timeout_ticks };
        proof {
            assert(s@.players =~= Seq::new(capacity as nat, |i: int| Option::<Seq<char>>::None));
        }
        s
    }
}

/// The username a Join payload carries: its bytes, NUL-trimmed, as UTF-8.
pub open spec fn spec_join_name(raw: Seq<u8>) -> Seq<char> {
    decode_utf8(spec_trim_nul(raw))
}

/// A Join succeeds when the username decodes, fits a roster entry, and a
/// slot is free.  A full pool drops the request silently: the protocol has
/// no refusal packet, and "no room" is not an error.
pub open spec fn spec_join_granted(s: ServerStateV, raw: Seq<u8>) -> bool {
    &&& valid_utf8(spec_trim_nul(raw))
    &&& name_encodable(spec_join_name(raw))
    &&& spec_first_free(s.slots) >= 0
}

/// The state after a granted Join: the lowest free slot takes the sender's
/// address with a fresh liveness clock, and the roster entry beside it takes
/// the username.
pub open spec fn spec_join_state(s: ServerStateV, sender: NetAddr, raw: Seq<u8>) -> ServerStateV {
    let k = spec_first_free(s.slots);
    ServerStateV {
        slots: s.slots.update(k, Some(ClientSlot { addr: sender, last_heard: 0 })),
        players: s.players.update(k, Some(spec_join_name(raw))),
        world: s.world,
    }
}

/// What a granted Join sends: a JoinResult with the slot id and the world
/// snapshot back to the joiner, then a ClientJoin with the updated roster to
/// every occupied slot, the joiner included.
pub open spec fn spec_join_msgs(s: ServerStateV, sender: NetAddr, raw: Seq<u8>) -> Seq<OutMsgV> {
    let k = spec_first_free(s.slots);
    let s2 = spec_join_state(s, sender, raw);
    seq![
        OutMsgV {
            to: sender,
            bytes: seq![ServerPacket::JoinResult.spec_byte(), k as u8] + spec_encode_world(s.world),
        },
    ] + spec_broadcast(
        s2.slots,
        spec_packet_bytes(ServerPacket::ClientJoin, spec_encode_roster(s2.players)),
    )
}

/// A Join request either takes the lowest free slot or changes nothing.
pub open spec fn spec_handle_join(s: ServerStateV, sender: NetAddr, raw: Seq<u8>) -> (
    ServerStateV,
    Seq<OutMsgV>,
) {
    if spec_join_granted(s, raw) {
        (spec_join_state(s, sender, raw), spec_join_msgs(s, sender, raw))
    } else {
        (s, Seq::empty())
    }
}

/// The state with slot `id` and its roster entry freed together.
pub open spec fn spec_free_slot(s: ServerStateV, id: int) -> ServerStateV {
    ServerStateV { slots: s.slots.update(id, None), players: s.players.update(id, None), ..s }
}

/// What freeing a slot announces: a ClientLeave with the updated roster to
/// every slot still occupied.
pub open spec fn spec_leave_msgs(s2: ServerStateV) -> Seq<OutMsgV> {
    spec_broadcast(
        s2.slots,
        spec_packet_bytes(ServerPacket::ClientLeave, spec_encode_roster(s2.players)),
    )
}

/// A Leave frees the slot the datagram names.  Freeing a free slot is a
/// harmless no-op, so Leave and the timeout sweep cannot trip each other.
/// The sender's address is not checked against the slot: Leave alone, of
/// the id-bearing messages, carries no such check in this protocol.
pub open spec fn spec_handle_leave(s: ServerStateV, id: u8) -> (ServerStateV, Seq<OutMsgV>) {
    if (id as int) < s.slots.len() {
        let s2 = spec_free_slot(s, id as int);
        (s2, spec_leave_msgs(s2))
    } else {
        (s, Seq::empty())
    }
}

/// A KeepAlive resets the slot's liveness clock, but only when the sender's
/// host matches the address on file; a mismatch changes nothing.
pub open spec fn spec_keep_alive(s: ServerStateV, sender: NetAddr, id: u8) -> ServerStateV {
    if (id as int) < s.slots.len() && s.slots[id as int] is Some && s.slots[id as int]->0.addr.ip
        == sender.ip {
        ServerStateV {
            slots: s.slots.update(
                id as int,
                Some(ClientSlot { addr: s.slots[id as int]->0.addr, last_heard: 0 }),
            ),
            ..s
        }
    } else {
        s
    }
}

impl ServerState {
    /// Handle a Join request: scan for the lowest free slot, reply with a
    /// JoinResult carrying the slot id and the world snapshot, and announce
    /// the updated roster to everyone.  A full pool, or a username that does
    /// not decode, drops the datagram.
    pub fn handle_join(&mut self, sender: NetAddr, raw: &[u8]) -> (out: Vec<OutMsg>)
        requires
            old(self).wf(),
        ensures
            final(self).wf(),
            final(self)@ == spec_handle_join(old(self)@, sender, raw@).0,
            msgs_view(out@) == spec_handle_join(old(self)@, sender, raw@).1,
    {
        let trimmed = crate::codec::trim_nul(raw);
        if trimmed.len() > 0xFFFF {
            proof {
                if valid_utf8(trimmed@) {
                    vstd::utf8::decode_utf8_encode_utf8(trimmed@);
                }
                assert(!spec_join_granted(self@, raw@));
            }
            return Vec::new();
        }
        let name = match crate::codec::bytes_to_string(trimmed.as_slice()) {
            Some(s) => s,
            None => {
                return Vec::new();
            },
        };
        proof {
            vstd::utf8::decode_utf8_encode_utf8(trimmed@);
            assert(name_encodable(name@));
        }
        match first_free(&self.slots) {
            None => Vec::new(),
            Some(k) => {
                let ghost s0 = self@;
                self.slots.set(k, Some(ClientSlot { addr: sender, last_heard: 0 }));
                self.players.set(k, Some(Player { username: name }));
                proof {
                    assert(self@.players =~= spec_join_state(s0, sender, raw@).players);
                    assert(self@ =~= spec_join_state(s0, sender, raw@));
                    assert(state_v_wf(self@));
                }
                let mut reply: Vec<u8> = Vec::new();
                reply.push(ServerPacket::JoinResult.to_byte());
                reply.push(k as u8);
                let mut wb = encode_world(&self.world);
                reply.append(&mut wb);
                proof {
                    assert(reply@ =~= seq![
                        ServerPacket::JoinResult.spec_byte(),
                        (k as int) as u8,
                    ] + spec_encode_world(s0.world));
                }
                let roster_payload = encode_roster(&self.players);
                let mut bcast = broadcast_messages(
                    &self.slots,
                    ServerPacket::ClientJoin,
                    &roster_payload,
                );
                let mut out: Vec<OutMsg> = Vec::new();
                out.push(OutMsg { to: sender, bytes: reply });
                out.append(&mut bcast);
                proof {
                    assert(msgs_view(out@) =~~= spec_join_msgs(s0, sender, raw@));
                }
                out
            },
        }
    }

    /// Handle a Leave naming slot `id`: free the slot and its roster entry
    /// together and announce the shrunken roster to everyone left.  An id
    /// beyond the pool drops the datagram.
    pub fn handle_leave(&mut self, id: u8) -> (out: Vec<OutMsg>)
        requires
            old(self).wf(),
        ensures
            final(self).wf(),
            final(self)@ == spec_handle_leave(old(self)@, id).0,
            msgs_view(out@) == spec_handle_leave(old(self)@, id).1,
    {
        if (id as usize) < self.slots.len() {
            let ghost s0 = self@;
            self.slots.set(id as usize, None);
            self.players.set(id as usize, None);
            proof {
                assert(self@.players =~= spec_free_slot(s0, id as int).players);
                assert(self@ =~= spec_free_slot(s0, id as int));
            }
            let roster_payload = encode_roster(&self.players);
            broadcast_messages(&self.slots, ServerPacket::ClientLeave, &roster_payload)
        } else {
            Vec::new()
        }
    }

    /// Handle a KeepAlive naming slot `id`: reset that slot's liveness
    /// clock when the sender's host matches the address on file.  A
    /// mismatch, an empty slot or an id beyond the pool changes nothing.
    pub fn handle_keep_alive(&mut self, sender: NetAddr, id: u8)
        requires
            old(self).wf(),
        ensures
            final(self).wf(),
            final(self)@ == spec_keep_alive(old(self)@, sender, id),
    {
        if (id as usize) < self.slots.len() {
            match slot_at(&self.slots, id as usize) {
                Some(c) => {
                    if verify_client(sender, c.addr) {
                        let ghost s0 = self@;
                        self.slots.set(
                            id as usize,
                            Some(ClientSlot { addr: c.addr, last_heard: 0 }),
                        );
                        proof {
                            assert(self@ =~= spec_keep_alive(s0, sender, id));
                        }
                    }
                },
                None => {},
            }
        }
    }
}

/// A Chat is relayed when the sender's host matches the address on file for
/// the slot it names and the text decodes.
pub open spec fn spec_chat_ok(s: ServerStateV, sender: NetAddr, id: u8, text: Seq<u8>) -> bool {
    &&& (id as int) < s.slots.len()
    &&& s.slots[id as int] is Some
    &&& s.slots[id as int]->0.addr.ip == sender.ip
    &&& valid_utf8(spec_trim_nul(text))
}

/// The line a chat broadcast carries: the sender's username, a separator,
/// and the text.
pub open spec fn spec_chat_message(name: Seq<char>, text: Seq<char>) -> Seq<char> {
    name + seq![':', ' '] + text
}

/// A Chat mutates nothing; when accepted it echoes the prefixed line to
/// every occupied slot, the sender included.
pub open spec fn spec_handle_chat(s: ServerStateV, sender: NetAddr, id: u8, text: Seq<u8>) -> Seq<
    OutMsgV,
> {
    if spec_chat_ok(s, sender, id, text) {
        let msg = spec_chat_message(s.players[id as int]->0, decode_utf8(spec_trim_nul(text)));
        spec_broadcast(s.slots, spec_packet_bytes(ServerPacket::Chat, encode_utf8(msg)))
    } else {
        Seq::empty()
    }
}

/// A WorldClick is applied when the sender's host matches the address on
/// file, the payload is a position, and that position lies inside the
/// world; it then turns the clicked tile to sand.  An out-of-range or
/// malformed click changes nothing — in particular it cannot crash the
/// server, which a bare array index here would.
pub open spec fn spec_click_ok(s: ServerStateV, sender: NetAddr, id: u8, payload: Seq<u8>) -> bool {
    &&& (id as int) < s.slots.len()
    &&& s.slots[id as int] is Some
    &&& s.slots[id as int]->0.addr.ip == sender.ip
    &&& spec_decode_position(payload) is Some
    &&& (spec_decode_position(payload)->0.x as int) < s.world.width * CHUNK_SIZE
    &&& (spec_decode_position(payload)->0.y as int) < s.world.height * CHUNK_SIZE
}

/// An accepted WorldClick updates one tile and broadcasts the chunk that
/// holds it — the delta, not the whole world — to every occupied slot.
pub open spec fn spec_handle_click(
    s: ServerStateV,
    sender: NetAddr,
    id: u8,
    payload: Seq<u8>,
) -> (ServerStateV, Seq<OutMsgV>) {
    if spec_click_ok(s, sender, id, payload) {
        let p = spec_decode_position(payload)->0;
        let w2 = spec_set_global_tile(s.world, p.x as int, p.y as int, Tile { ty: TileType::Sand });
        let k = spec_chunk_index(
            w2.height,
            p.x as int / CHUNK_SIZE as int,
            p.y as int / CHUNK_SIZE as int,
        );
        (
            ServerStateV { world: w2, ..s },
            spec_broadcast(
                s.slots,
                spec_packet_bytes(ServerPacket::ChunkModified, spec_encode_chunk(w2.chunks[k])),
            ),
        )
    } else {
        (s, Seq::empty())
    }
}

impl ServerState {
    /// Handle a Chat naming slot `id`: when the sender's host matches the
    /// address on file, prefix the text with the slot's username and echo it
    /// to every occupied slot.  A mismatch is ignored without reply; it
    /// never disconnects the slot's holder.
    pub fn handle_chat(&self, sender: NetAddr, id: u8, text: &[u8]) -> (out: Vec<OutMsg>)
        requires
            self.wf(),
        ensures
            msgs_view(out@) == spec_handle_chat(self@, sender, id, text@),
    {
        if (id as usize) >= self.slots.len() {
            return Vec::new();
        }
        match slot_at(&self.slots, id as usize) {
            Some(c) => {
                if !verify_client(sender, c.addr) {
                    return Vec::new();
                }
                let t = match decode_text(text) {
                    Some(t) => t,
                    None => {
                        return Vec::new();
                    },
                };
                match player_at(&self.players, id as usize) {
                    Some(p) => {
                        let mut msg = p.username.clone();
                        msg.append(": ");
                        msg.append(t.as_str());
                        proof {
                            reveal_strlit(": ");
                            assert(": "@ =~= seq![':', ' ']);
                            assert(msg@ =~= spec_chat_message(
                                self@.players[id as int]->0,
                                decode_utf8(spec_trim_nul(text@)),
                            ));
                        }
                        let payload = msg.as_str().as_bytes_vec();
                        broadcast_messages(&self.slots, ServerPacket::Chat, &payload)
                    },
                    None => {
                        proof {
                            assert(false);
                        }
                        Vec::new()
                    },
                }
            },
            None => Vec::new(),
        }
    }

    /// Handle a WorldClick naming slot `id`: when the sender's host matches
    /// the address on file and the payload decodes to a position inside the
    /// world, turn that tile to sand and broadcast the modified chunk to
    /// every occupied slot.  Anything else — a mismatched host, a malformed
    /// payload, a coordinate out of range — changes nothing.
    pub fn handle_world_click(&mut self, sender: NetAddr, id: u8, payload: &[u8]) -> (out: Vec<
        OutMsg,
    >)
        requires
            old(self).wf(),
        ensures
            final(self).wf(),
            final(self)@ == spec_handle_click(old(self)@, sender, id, payload@).0,
            msgs_view(out@) == spec_handle_click(old(self)@, sender, id, payload@).1,
    {
        if (id as usize) >= self.slots.len() {
            return Vec::new();
        }
        match slot_at(&self.slots, id as usize) {
            Some(c) => {
                if !verify_client(sender, c.addr) {
                    return Vec::new();
                }
                let p = match decode_position(payload) {
                    Some(p) => p,
                    None => {
                        return Vec::new();
                    },
                };
                if p.x >= self.world.width * CHUNK_SIZE || p.y >= self.world.height * CHUNK_SIZE {
                    return Vec::new();
                }
                let ghost s0 = self@;
                self.world.set_global_tile(p.x, p.y, Tile { ty: TileType::Sand });
                proof {
                    assert(self@ =~= spec_handle_click(s0, sender, id, payload@).0);
                }
                let cx = p.x / CHUNK_SIZE;
                let cy = p.y / CHUNK_SIZE;
                proof {
                    vstd::arithmetic::div_mod::lemma_multiply_divide_lt(
                        p.x as int,
                        CHUNK_SIZE as int,
                        self@.world.width as int,
                    );
                    vstd::arithmetic::div_mod::lemma_multiply_divide_lt(
                        p.y as int,
                        CHUNK_SIZE as int,
                        self@.world.height as int,
                    );
                    assert(self@.world.width * CHUNK_SIZE == CHUNK_SIZE as int
                        * self@.world.width as int) by (nonlinear_arith);
                    assert(self@.world.height * CHUNK_SIZE == CHUNK_SIZE as int
                        * self@.world.height as int) by (nonlinear_arith);
                }
                let chunk = self.world.chunk_at(cx, cy);
                proof {
                    let k = spec_chunk_index(self@.world.height, cx as int, cy as int);
                    crate::world::lemma_chunk_index_in_range(
                        self@.world.width,
                        self@.world.height,
                        cx as int,
                        cy as int,
                    );
                    lemma_chunk_index_decomposes(self@.world.height, cx as int, cy as int);
                    assert(pos_encodable(self@.world.chunks[k].position));
                }
                let chunk_payload = encode_chunk(chunk);
                broadcast_messages(&self.slots, ServerPacket::ChunkModified, &chunk_payload)
            },
            None => Vec::new(),
        }
    }
}

/// What one received datagram does to the state and what it sends back.
/// Byte 0 is the tag; an unknown tag, or a datagram too short for its tag's
/// header, is dropped without reply.
pub open spec fn spec_handle_datagram(s: ServerStateV, sender: NetAddr, data: Seq<u8>) -> (
    ServerStateV,
    Seq<OutMsgV>,
) {
    if data.len() == 0 {
        (s, Seq::empty())
    } else {
        match ClientPacket::spec_from_byte(data[0]) {
            Option::None => (s, Seq::empty()),
            Option::Some(ClientPacket::Join) => spec_handle_join(s, sender, data.drop_first()),
            Option::Some(ClientPacket::Leave) => if data.len() >= 2 {
                spec_handle_leave(s, data[1])
            } else {
                (s, Seq::empty())
            },
            Option::Some(ClientPacket::KeepAlive) => if data.len() >= 2 {
                (spec_keep_alive(s, sender, data[1]), Seq::empty())
            } else {
                (s, Seq::empty())
            },
            Option::Some(ClientPacket::Chat) => if data.len() >= 2 {
                (s, spec_handle_chat(s, sender, data[1], data.subrange(2, data.len() as int)))
            } else {
                (s, Seq::empty())
            },
            Option::Some(ClientPacket::WorldClick) => if data.len() >= 2 {
                spec_handle_click(s, sender, data[1], data.subrange(2, data.len() as int))
            } else {
                (s, Seq::empty())
            },
        }
    }
}

/// A slot's liveness clock after one tick.
pub open spec fn spec_bump(lh: u32) -> u32 {
    if lh == u32::MAX {
        lh
    } else {
        (lh + 1) as u32
    }
}

/// What the sweep does to one slot: age it, and free it — with the same
/// ClientLeave broadcast an explicit Leave produces — once it has outlived
/// the threshold.
pub open spec fn spec_tick_step(s: ServerStateV, timeout: u32, k: int) -> (
    ServerStateV,
    Seq<OutMsgV>,
) {
    match s.slots[k] {
        Option::None => (s, Seq::empty()),
        Option::Some(c) => {
            if spec_bump(c.last_heard) > timeout {
                let s2 = spec_free_slot(s, k);
                (s2, spec_leave_msgs(s2))
            } else {
                (
                    ServerStateV {
                        slots: s.slots.update(
                            k,
                            Some(ClientSlot { addr: c.addr, last_heard: spec_bump(c.last_heard) }),
                        ),
                        ..s
                    },
                    Seq::empty(),
                )
            }
        },
    }
}

/// The sweep over the first `n` slots, in slot order.
pub open spec fn spec_tick_upto(s: ServerStateV, timeout: u32, n: nat) -> (
    ServerStateV,
    Seq<OutMsgV>,
)
    decreases n,
{
    if n == 0 {
        (s, Seq::empty())
    } else {
        let r1 = spec_tick_upto(s, timeout, (n - 1) as nat);
        let r2 = spec_tick_step(r1.0, timeout, n - 1);
        (r2.0, r1.1 + r2.1)
    }
}

/// One full liveness sweep.
pub open spec fn spec_tick(s: ServerStateV, timeout: u32) -> (ServerStateV, Seq<OutMsgV>) {
    spec_tick_upto(s, timeout, s.slots.len())
}

impl ServerState {
    /// Dispatch one received datagram by its tag byte.  Protocol garbage —
    /// an empty datagram, an unknown tag, a truncated header — is dropped
    /// without reply or crash.
    pub fn handle_datagram(&mut self, sender: NetAddr, data: &[u8]) -> (out: Vec<OutMsg>)
        requires
            old(self).wf(),
        ensures
            final(self).wf(),
            final(self)@ == spec_handle_datagram(old(self)@, sender, data@).0,
            msgs_view(out@) == spec_handle_datagram(old(self)@, sender, data@).1,
    {
        if data.len() == 0 {
            return Vec::new();
        }
        let tag = match ClientPacket::from_byte(*vstd::slice::slice_index_get(data, 0)) {
            Some(t) => t,
            None => {
                return Vec::new();
            },
        };
        match tag {
            ClientPacket::Join => {
                let payload = vstd::slice::slice_subrange(data, 1, data.len());
                proof {
                    assert(payload@ =~= data@.drop_first());
                }
                self.handle_join(sender, payload)
            },
            ClientPacket::Leave => {
                if data.len() >= 2 {
                    self.handle_leave(*vstd::slice::slice_index_get(data, 1))
                } else {
                    Vec::new()
                }
            },
            ClientPacket::KeepAlive => {
                if data.len() >= 2 {
                    self.handle_keep_alive(sender, *vstd::slice::slice_index_get(data, 1));
                }
                Vec::new()
            },
            ClientPacket::Chat => {
                if data.len() >= 2 {
                    let text = vstd::slice::slice_subrange(data, 2, data.len());
                    proof {
                        assert(text@ =~= data@.subrange(2, data@.len() as int));
                    }
                    self.handle_chat(sender, *vstd::slice::slice_index_get(data, 1), text)
                } else {
                    Vec::new()
                }
            },
            ClientPacket::WorldClick => {
                if data.len() >= 2 {
                    let payload = vstd::slice::slice_subrange(data, 2, data.len());
                    proof {
                        assert(payload@ =~= data@.subrange(2, data@.len() as int));
                    }
                    self.handle_world_click(sender, *vstd::slice::slice_index_get(data, 1), payload)
                } else {
                    Vec::new()
                }
            },
        }
    }

    /// One pass of the liveness sweep: age every occupied slot by one tick
    /// and force out each one that has gone quiet past the threshold,
    /// exactly as a Leave would — the slot and its roster entry freed
    /// together and a ClientLeave broadcast to everyone still connected.
    pub fn tick(&mut self) -> (out: Vec<OutMsg>)
        requires
            old(self).wf(),
        ensures
            final(self).wf(),
            final(self)@ == spec_tick(old(self)@, old(self).timeout_ticks).0,
            msgs_view(out@) == spec_tick(old(self)@, old(self).timeout_ticks).1,
            final(self).timeout_ticks == old(self).timeout_ticks,
    {
        let ghost s0 = self@;
        let ghost t = self.timeout_ticks;
        let mut out: Vec<OutMsg> = Vec::new();
        let n = self.slots.len();
        let mut k: usize = 0;
        while k < n
            invariant
                self.wf(),
                n == s0.slots.len(),
                self.slots@.len() == n,
                self.players@.len() == n,
                k <= n,
                self.timeout_ticks == t,
                self@ == spec_tick_upto(s0, t, k as nat).0,
                msgs_view(out@) == spec_tick_upto(s0, t, k as nat).1,
            decreases n - k,
        {
            let ghost before = self@;
            let ghost out_before = msgs_view(out@);
            match slot_at(&self.slots, k) {
                Some(c) => {
                    let lh = if c.last_heard == u32::MAX {
                        c.last_heard
                    } else {
                        c.last_heard + 1
                    };
                    if lh > self.timeout_ticks {
                        self.slots.set(k, None);
                        self.players.set(k, None);
                        proof {
                            assert(self@.players =~= spec_free_slot(before, k as int).players);
                            assert(self@ =~= spec_free_slot(before, k as int));
                        }
                        let roster_payload = encode_roster(&self.players);
                        let mut msgs = broadcast_messages(
                            &self.slots,
                            ServerPacket::ClientLeave,
                            &roster_payload,
                        );
                        out.append(&mut msgs);
                    } else {
                        self.slots.set(k, Some(ClientSlot { addr: c.addr, last_heard: lh }));
                        proof {
                            assert(self@ =~= spec_tick_step(before, t, k as int).0);
                        }
                    }
                },
                None => {},
            }
            proof {
                assert(self@ =~~= spec_tick_step(before, t, k as int).0);
                assert(msgs_view(out@) =~~= out_before + spec_tick_step(before, t, k as int).1);
                assert(self@ =~~= spec_tick_upto(s0, t, (k + 1) as nat).0);
                assert(msgs_view(out@) =~~= spec_tick_upto(s0, t, (k + 1) as nat).1);
            }
            k = k + 1;
        }
        out
    }
}

/// How many slots are occupied, counted in slot order.
pub open spec fn spec_occupied_count(slots: Seq<Option<ClientSlot>>) -> nat
    decreases slots.len(),
{
    if slots.len() == 0 {
        0
    } else {
        spec_occupied_count(slots.drop_last()) + (if slots[slots.len() - 1] is Some {
            1nat
        } else {
            0nat
        })
    }
}

/// What a broadcast is: one message per occupied slot, all carrying the
/// same bytes, each addressed to the slot's endpoint — and nothing else.
pub proof fn lemma_broadcast_structure(slots: Seq<Option<ClientSlot>>, bytes: Seq<u8>)
    ensures
        spec_broadcast(slots, bytes).len() == spec_occupied_count(slots),
        forall|m: OutMsgV|
            #[trigger] spec_broadcast(slots, bytes).contains(m) ==> m.bytes == bytes && exists|j: int|
                0 <= j < slots.len() && slots[j] is Some && slots[j]->0.addr == m.to,
        forall|j: int|
            0 <= j < slots.len() && (#[trigger] slots[j]) is Some ==> spec_broadcast(
                slots,
                bytes,
            ).contains(OutMsgV { to: slots[j]->0.addr, bytes }),
    decreases slots.len(),
{
    if slots.len() == 0 {
    } else {
        lemma_broadcast_structure(slots.drop_last(), bytes);
        let d = slots.drop_last();
        let l = slots.len() - 1;
        let b = spec_broadcast(slots, bytes);
        let bd = spec_broadcast(d, bytes);
        assert(forall|j: int| 0 <= j < l ==> #[trigger] d[j] == slots[j]);
        assert forall|m: OutMsgV| #[trigger] b.contains(m) implies m.bytes == bytes && exists|j: int|
            0 <= j < slots.len() && slots[j] is Some && slots[j]->0.addr == m.to by {
            if slots[l] is Some && m == (OutMsgV { to: slots[l]->0.addr, bytes }) {
                assert(slots[l] is Some && slots[l]->0.addr == m.to);
            } else {
                assert(bd.contains(m));
            }
        }
        assert forall|j: int| 0 <= j < slots.len() && (#[trigger] slots[j]) is Some implies b
            .contains(OutMsgV { to: slots[j]->0.addr, bytes }) by {
            if j < l {
                assert(d[j] == slots[j]);
                assert(d[j] is Some);
                assert(bd.contains(OutMsgV { to: d[j]->0.addr, bytes }));
                let i = choose|i: int|
                    0 <= i < bd.len() && bd[i] == (OutMsgV { to: d[j]->0.addr, bytes });
                assert(b[i] == bd[i]);
            } else {
                assert(b[b.len() - 1] == (OutMsgV { to: slots[j]->0.addr, bytes }));
            }
        }
    }
}

/// Occupying a free slot lowers the free count by one.
pub proof fn lemma_free_count_occupy(slots: Seq<Option<ClientSlot>>, k: int, c: ClientSlot)
    requires
        0 <= k < slots.len(),
        slots[k] is None,
    ensures
        spec_free_count(slots.update(k, Some(c))) == spec_free_count(slots) - 1,
    decreases slots.len(),
{
    let u = slots.update(k, Some(c));
    if k == 0 {
        assert(u.drop_first() =~= slots.drop_first());
    } else {
        assert(u.drop_first() =~= slots.drop_first().update(k - 1, Some(c)));
        lemma_free_count_occupy(slots.drop_first(), k - 1, c);
    }
}

/// A run of Join attempts, applied in order, and the slot ids granted along
/// the way.
pub open spec fn spec_run_joins(s: ServerStateV, reqs: Seq<(NetAddr, Seq<u8>)>) -> (
    ServerStateV,
    Seq<int>,
)
    decreases reqs.len(),
{
    if reqs.len() == 0 {
        (s, Seq::empty())
    } else {
        let granted0 = spec_join_granted(s, reqs[0].1);
        let s1 = spec_handle_join(s, reqs[0].0, reqs[0].1).0;
        let rest = spec_run_joins(s1, reqs.drop_first());
        if granted0 {
            (rest.0, seq![spec_first_free(s.slots)] + rest.1)
        } else {
            rest
        }
    }
}

/// Join attempts with no intervening Leave fill exactly
/// `min(attempts, free slots)` slots.  Each grant takes the lowest slot
/// free at its time — the first grant takes the lowest slot free at the
/// start — no slot is ever granted twice, an occupied slot stays occupied,
/// and once the pool is full the remaining attempts change nothing.
pub proof fn lemma_join_run_fills_free_slots(s: ServerStateV, reqs: Seq<(NetAddr, Seq<u8>)>)
    requires
        forall|i: int|
            0 <= i < reqs.len() ==> valid_utf8(spec_trim_nul((#[trigger] reqs[i]).1))
                && name_encodable(spec_join_name(reqs[i].1)),
    ensures
        ({
            let fin = spec_run_joins(s, reqs).0;
            let granted = spec_run_joins(s, reqs).1;
            &&& granted.len() == vstd::math::min(
                reqs.len() as int,
                spec_free_count(s.slots) as int,
            )
            &&& granted.len() > 0 ==> granted[0] == spec_first_free(s.slots)
            &&& forall|i: int, j: int| 0 <= i < j < granted.len() ==> granted[i] != granted[j]
            &&& forall|i: int|
                0 <= i < granted.len() ==> 0 <= #[trigger] granted[i] < s.slots.len()
                    && s.slots[granted[i]] is None && fin.slots[granted[i]] is Some
            &&& spec_free_count(fin.slots) == spec_free_count(s.slots) - granted.len()
            &&& fin.slots.len() == s.slots.len()
            &&& forall|i: int|
                0 <= i < s.slots.len() && (#[trigger] s.slots[i]) is Some ==> fin.slots[i] is Some
        }),
    decreases reqs.len(),
{
    lemma_first_free(s.slots);
    if reqs.len() == 0 {
    } else {
        let granted0 = spec_join_granted(s, reqs[0].1);
        let s1 = spec_handle_join(s, reqs[0].0, reqs[0].1).0;
        assert(valid_utf8(spec_trim_nul(reqs[0].1)) && name_encodable(spec_join_name(reqs[0].1)));
        assert(forall|i: int|
            0 <= i < reqs.drop_first().len() ==> #[trigger] reqs.drop_first()[i] == reqs[i + 1]);
        lemma_join_run_fills_free_slots(s1, reqs.drop_first());
        let rest = spec_run_joins(s1, reqs.drop_first());
        let fin = spec_run_joins(s, reqs).0;
        let granted = spec_run_joins(s, reqs).1;
        assert(fin == rest.0);
        if granted0 {
            let k0 = spec_first_free(s.slots);
            assert(0 <= k0 < s.slots.len() && s.slots[k0] is None);
            lemma_free_count_occupy(s.slots, k0, ClientSlot { addr: reqs[0].0, last_heard: 0 });
            assert(spec_free_count(s1.slots) == spec_free_count(s.slots) - 1);
            assert(spec_free_count(s.slots) >= 1);
            assert(granted =~= seq![k0] + rest.1);
            assert(granted[0] == k0);
            assert(forall|i: int| 1 <= i < granted.len() ==> granted[i] == #[trigger] rest.1[i - 1]);
            assert(s1.slots[k0] is Some);
            assert(fin.slots[k0] is Some);
            assert forall|i: int|
                1 <= i < granted.len() implies 0 <= #[trigger] granted[i] < s.slots.len()
                && s.slots[granted[i]] is None && fin.slots[granted[i]] is Some by {
                let g = rest.1[i - 1];
                assert(0 <= g < s1.slots.len() && s1.slots[g] is None && fin.slots[g] is Some);
                assert(g != k0);
                assert(s.slots[g] == s1.slots[g]);
            }
            assert forall|i: int, j: int|
                0 <= i < j < granted.len() implies granted[i] != granted[j] by {
                if i == 0 {
                    let g = rest.1[j - 1];
                    assert(s1.slots[g] is None);
                } else {
                    assert(rest.1[i - 1] != rest.1[j - 1]);
                }
            }
            assert forall|i: int|
                0 <= i < s.slots.len() && (#[trigger] s.slots[i]) is Some implies fin.slots[i]
                is Some by {
                assert(s1.slots[i] is Some);
            }
        } else {
            assert(spec_first_free(s.slots) == -1);
            assert(spec_free_count(s.slots) == 0);
            assert(s1 == s);
        }
    }
}

/// After a granted Join, an immediate Leave by the granted id restores the
/// pool and the roster exactly: the slot is free again, and the next Join
/// will take it as before.
pub proof fn lemma_join_then_leave_restores(s: ServerStateV, sender: NetAddr, raw: Seq<u8>)
    requires
        state_v_wf(s),
        spec_join_granted(s, raw),
    ensures
        ({
            let k = spec_first_free(s.slots);
            let s1 = spec_handle_join(s, sender, raw).0;
            let s2 = spec_handle_leave(s1, k as u8).0;
            &&& 0 <= k < s.slots.len()
            &&& s2.slots == s.slots
            &&& s2.players == s.players
            &&& s2.world == s.world
            &&& spec_first_free(s2.slots) == k
        }),
{
    lemma_first_free(s.slots);
    let k = spec_first_free(s.slots);
    let s1 = spec_handle_join(s, sender, raw).0;
    let s2 = spec_handle_leave(s1, k as u8).0;
    assert(s2.slots =~= s.slots);
    assert(s2.players =~= s.players);
}

/// An identity-bearing datagram — KeepAlive, Chat or WorldClick — whose
/// source host differs from the address on file for the slot it names
/// changes no state and sends nothing.
pub proof fn lemma_wrong_host_is_ignored(
    s: ServerStateV,
    sender: NetAddr,
    id: u8,
    payload: Seq<u8>,
)
    requires
        (id as int) < s.slots.len(),
        s.slots[id as int] is Some,
        s.slots[id as int]->0.addr.ip != sender.ip,
    ensures
        spec_keep_alive(s, sender, id) == s,
        spec_handle_chat(s, sender, id, payload) == Seq::<OutMsgV>::empty(),
        spec_handle_click(s, sender, id, payload).0 == s,
        spec_handle_click(s, sender, id, payload).1 == Seq::<OutMsgV>::empty(),
{
}

/// A slot that has outlived the liveness threshold is freed by the sweep
/// exactly as a Leave would free it, with one ClientLeave broadcast whose
/// recipients are the slots still occupied afterwards — the freed slot is
/// not among them.
pub proof fn lemma_timeout_frees_slot(s: ServerStateV, timeout: u32, k: int)
    requires
        0 <= k < s.slots.len(),
        s.slots[k] is Some,
        spec_bump(s.slots[k]->0.last_heard) > timeout,
    ensures
        ({
            let s2 = spec_tick_step(s, timeout, k).0;
            let msgs = spec_tick_step(s, timeout, k).1;
            &&& s2 == spec_free_slot(s, k)
            &&& msgs == spec_leave_msgs(s2)
            &&& s2.slots[k] is None
            &&& forall|m: OutMsgV|
                #[trigger] msgs.contains(m) ==> exists|j: int|
                    0 <= j < s2.slots.len() && j != k && s2.slots[j] is Some && s2.slots[j]->0.addr
                        == m.to
            &&& forall|j: int|
                0 <= j < s2.slots.len() && (#[trigger] s2.slots[j]) is Some ==> msgs.contains(
                    OutMsgV {
                        to: s2.slots[j]->0.addr,
                        bytes: spec_packet_bytes(
                            ServerPacket::ClientLeave,
                            spec_encode_roster(s2.players),
                        ),
                    },
                )
        }),
{
    let s2 = spec_tick_step(s, timeout, k).0;
    lemma_broadcast_structure(
        s2.slots,
        spec_packet_bytes(ServerPacket::ClientLeave, spec_encode_roster(s2.players)),
    );
}

/// A WorldClick at a coordinate outside the world changes nothing: no
/// chunk is touched and nothing is sent.
pub proof fn lemma_out_of_range_click_is_ignored(
    s: ServerStateV,
    sender: NetAddr,
    id: u8,
    payload: Seq<u8>,
)
    requires
        spec_decode_position(payload) is Some ==> {
            let p = spec_decode_position(payload)->0;
            (p.x as int) >= s.world.width * CHUNK_SIZE || (p.y as int) >= s.world.height
                * CHUNK_SIZE
        },
    ensures
        spec_handle_click(s, sender, id, payload).0 == s,
        spec_handle_click(s, sender, id, payload).1 == Seq::<OutMsgV>::empty(),
{
}

/// What the sweep leaves of one slot: freed if it outlived the threshold,
/// otherwise kept with its clock advanced.
pub open spec fn spec_slot_after_tick(slot: Option<ClientSlot>, timeout: u32) -> Option<
    ClientSlot,
> {
    match slot {
        Option::None => Option::None,
        Option::Some(c) => {
            if spec_bump(c.last_heard) > timeout {
                Option::None
            } else {
                Option::Some(ClientSlot { addr: c.addr, last_heard: spec_bump(c.last_heard) })
            }
        },
    }
}

proof fn lemma_tick_upto_slotwise(s: ServerStateV, timeout: u32, n: nat)
    requires
        n <= s.slots.len(),
        s.slots.len() == s.players.len(),
    ensures
        ({
            let fin = spec_tick_upto(s, timeout, n).0;
            &&& fin.slots.len() == s.slots.len()
            &&& fin.players.len() == s.players.len()
            &&& fin.world == s.world
            &&& forall|k: int|
                0 <= k < n ==> #[trigger] fin.slots[k] == spec_slot_after_tick(s.slots[k], timeout)
            &&& forall|k: int|
                0 <= k < n ==> #[trigger] fin.players[k] == (if s.slots[k] is Some
                    && spec_slot_after_tick(s.slots[k], timeout) is None {
                    Option::<Seq<char>>::None
                } else {
                    s.players[k]
                })
            &&& forall|k: int| n <= k < s.slots.len() ==> #[trigger] fin.slots[k] == s.slots[k]
            &&& forall|k: int| n <= k < s.players.len() ==> #[trigger] fin.players[k] == s.players[k]
        }),
    decreases n,
{
    if n > 0 {
        lemma_tick_upto_slotwise(s, timeout, (n - 1) as nat);
        let mid = spec_tick_upto(s, timeout, (n - 1) as nat).0;
        assert(mid.slots[n - 1] == s.slots[n - 1]);
        let fin = spec_tick_upto(s, timeout, n).0;
        assert(fin == spec_tick_step(mid, timeout, n - 1).0);
        match mid.slots[n - 1] {
            Option::None => {
                assert(fin == mid);
                assert(fin.players[n - 1] == s.players[n - 1]);
            },
            Option::Some(c) => {
                if spec_bump(c.last_heard) > timeout {
                    assert(fin.slots =~= mid.slots.update(n - 1, Option::None));
                    assert(fin.players =~= mid.players.update(n - 1, Option::<Seq<char>>::None));
                } else {
                    assert(fin.slots =~= mid.slots.update(
                        n - 1,
                        Option::Some(
                            ClientSlot { addr: c.addr, last_heard: spec_bump(c.last_heard) },
                        ),
                    ));
                    assert(fin.players == mid.players);
                }
            },
        }
    }
}

/// What one whole sweep does, slot by slot: every slot that outlived the
/// threshold is freed together with its roster entry, every other occupied
/// slot keeps its address with its clock advanced by one tick, and free
/// slots, the roster beside them, and the world are untouched.
pub proof fn lemma_tick_slotwise(s: ServerStateV, timeout: u32)
    requires
        s.slots.len() == s.players.len(),
    ensures
        ({
            let fin = spec_tick(s, timeout).0;
            &&& fin.slots.len() == s.slots.len()
            &&& fin.world == s.world
            &&& forall|k: int|
                0 <= k < s.slots.len() ==> #[trigger] fin.slots[k] == spec_slot_after_tick(
                    s.slots[k],
                    timeout,
                )
            &&& forall|k: int|
                0 <= k < s.players.len() ==> #[trigger] fin.players[k] == (
                if s.slots[k] is Some && spec_slot_after_tick(s.slots[k], timeout) is None {
                    Option::<Seq<char>>::None
                } else {
                    s.players[k]
                })
        }),
{
    lemma_tick_upto_slotwise(s, timeout, s.slots.len());
}

/// The sender's host matches the address on file.  Only the host is
/// compared: a reply from a new port of the same machine still counts.
pub fn verify_client(sender: NetAddr, on_file: NetAddr) -> (r: bool)
    ensures
        r == (sender.ip == on_file.ip),
{
    sender.ip == on_file.ip
}

/// Read one roster entry.
fn player_at<'a>(players: &'a Vec<Option<Player>>, i: usize) -> (r: &'a Option<Player>)
    requires
        i < players@.len(),
    ensures
        *r == players@[i as int],
{
    &players[i]
}

/// Read one slot from the pool.
fn slot_at(slots: &Vec<Option<ClientSlot>>, i: usize) -> (r: Option<ClientSlot>)
    requires
        i < slots@.len(),
    ensures
        r == slots@[i as int],
{
    slots[i]
}

} // verus!
