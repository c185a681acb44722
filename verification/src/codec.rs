//! Binary encoding of protocol payloads.
//!
//! Integers travel little-endian.  A position is its two coordinates as
//! `u32`s; a tile is one byte; a chunk is its position followed by its tiles
//! in row-major order; a world is its dimensions followed by its chunks in
//! row-major order; a roster is a count byte followed by one entry per slot.
//! There is no length prefix around a whole payload: the datagram boundary
//! is the frame boundary, so a port to a stream transport would have to add
//! its own framing.
//!
//! Decoding never fails loudly: malformed bytes decode to `None` and the
//! datagram is dropped as protocol garbage.

use vstd::bytes::{
    spec_u16_from_le_bytes, spec_u16_to_le_bytes, spec_u32_from_le_bytes, spec_u32_to_le_bytes,
    u16_from_le_bytes, u16_to_le_bytes, u32_from_le_bytes, u32_to_le_bytes,
};
use vstd::prelude::*;
use vstd::string::StrSliceExecFns;
use vstd::utf8::{decode_utf8, encode_utf8, valid_utf8};

use crate::grid::tile_grid_from_vec;
use crate::world::{
    world_v_wf, Chunk, ChunkV, Player, Position, Tile, TileType, World, WorldV, CHUNK_AREA,
    CHUNK_SIZE,
};

verus! {

/// Both coordinates fit the wire's `u32` fields.
pub open spec fn pos_encodable(p: Position) -> bool {
    &&& p.x <= 0xFFFF_FFFF
    &&& p.y <= 0xFFFF_FFFF
}

/// A position on the wire: `x` then `y`, four little-endian bytes each.
pub open spec fn spec_encode_position(p: Position) -> Seq<u8> {
    spec_u32_to_le_bytes(p.x as u32) + spec_u32_to_le_bytes(p.y as u32)
}

/// The position eight bytes decode to; anything but eight bytes is garbage.
pub open spec fn spec_decode_position(b: Seq<u8>) -> Option<Position> {
    if b.len() == 8 {
        Some(
            Position {
                x: spec_u32_from_le_bytes(b.subrange(0, 4)) as usize,
                y: spec_u32_from_le_bytes(b.subrange(4, 8)) as usize,
            },
        )
    } else {
        None
    }
}

pub fn encode_position(p: &Position) -> (r: Vec<u8>)
    requires
        pos_encodable(*p),
    ensures
        r@ == spec_encode_position(*p),
{
    let mut r = u32_to_le_bytes(p.x as u32);
    let mut y = u32_to_le_bytes(p.y as u32);
    r.append(&mut y);
    r
}

pub fn decode_position(b: &[u8]) -> (r: Option<Position>)
    ensures
        r == spec_decode_position(b@),
{
    if b.len() == 8 {
        let x = u32_from_le_bytes(vstd::slice::slice_subrange(b, 0, 4));
        let y = u32_from_le_bytes(vstd::slice::slice_subrange(b, 4, 8));
        Some(Position { x: x as usize, y: y as usize })
    } else {
        None
    }
}

/// Decoding a position undoes encoding it.
pub proof fn lemma_position_round_trip(p: Position)
    requires
        pos_encodable(p),
    ensures
        spec_decode_position(spec_encode_position(p)) == Some(p),
{
    vstd::bytes::lemma_auto_spec_u32_to_from_le_bytes();
    let b = spec_encode_position(p);
    assert(b.subrange(0, 4) =~= spec_u32_to_le_bytes(p.x as u32));
    assert(b.subrange(4, 8) =~= spec_u32_to_le_bytes(p.y as u32));
}

/// The byte a tile is sent as.
pub open spec fn spec_tile_byte(t: Tile) -> u8 {
    match t.ty {
        TileType::Grass => 0,
        TileType::Sand => 1,
    }
}

/// The tile a byte decodes to, if any.
pub open spec fn spec_tile_from_byte(b: u8) -> Option<Tile> {
    if b == 0 {
        Some(Tile { ty: TileType::Grass })
    } else if b == 1 {
        Some(Tile { ty: TileType::Sand })
    } else {
        None
    }
}

pub fn tile_byte(t: Tile) -> (b: u8)
    ensures
        b == spec_tile_byte(t),
{
    match t.ty {
        TileType::Grass => 0,
        TileType::Sand => 1,
    }
}

pub fn tile_from_byte(b: u8) -> (r: Option<Tile>)
    ensures
        r == spec_tile_from_byte(b),
{
    if b == 0 {
        Some(Tile { ty: TileType::Grass })
    } else if b == 1 {
        Some(Tile { ty: TileType::Sand })
    } else {
        None
    }
}

/// Decoding a tile byte undoes encoding it.
pub proof fn lemma_tile_round_trip(t: Tile)
    ensures
        spec_tile_from_byte(spec_tile_byte(t)) == Some(t),
{
}

/// A chunk's content fits the wire.
pub open spec fn chunk_encodable(c: ChunkV) -> bool {
    &&& pos_encodable(c.position)
    &&& c.tiles.len() == CHUNK_AREA
}

/// A chunk on the wire: its grid position, then its tiles in row-major
/// order, one byte each.
pub open spec fn spec_encode_chunk(c: ChunkV) -> Seq<u8> {
    spec_encode_position(c.position) + Seq::new(c.tiles.len(), |i: int| spec_tile_byte(c.tiles[i]))
}

/// The bytes have a chunk's exact length and every tile byte is in range.
pub open spec fn chunk_bytes_ok(b: Seq<u8>) -> bool {
    &&& b.len() == 8 + CHUNK_AREA
    &&& forall|i: int| 0 <= i < CHUNK_AREA ==> spec_tile_from_byte(#[trigger] b[8 + i]) is Some
}

/// The chunk a byte string decodes to, if any.
pub open spec fn spec_decode_chunk(b: Seq<u8>) -> Option<ChunkV> {
    if chunk_bytes_ok(b) {
        Some(
            ChunkV {
                position: spec_decode_position(b.subrange(0, 8))->0,
                tiles: Seq::new(CHUNK_AREA as nat, |i: int| spec_tile_from_byte(b[8 + i])->0),
            },
        )
    } else {
        None
    }
}

pub fn encode_chunk(c: &Chunk) -> (r: Vec<u8>)
    requires
        c.wf(),
        pos_encodable(c@.position),
    ensures
        r@ == spec_encode_chunk(c@),
{
    let mut r = encode_position(&c.position);
    let mut i: usize = 0;
    while i < CHUNK_AREA
        invariant
            c.wf(),
            pos_encodable(c@.position),
            i <= CHUNK_AREA,
            r@ =~= spec_encode_position(c@.position) + Seq::new(
                i as nat,
                |j: int| spec_tile_byte(c@.tiles[j]),
            ),
        decreases CHUNK_AREA - i,
    {
        let x = i / CHUNK_SIZE;
        let y = i % CHUNK_SIZE;
        proof {
            vstd::arithmetic::div_mod::lemma_multiply_divide_lt(
                i as int,
                CHUNK_SIZE as int,
                CHUNK_SIZE as int,
            );
            vstd::arithmetic::div_mod::lemma_mod_division_less_than_divisor(
                i as int,
                CHUNK_SIZE as int,
            );
            vstd::arithmetic::div_mod::lemma_fundamental_div_mod(i as int, CHUNK_SIZE as int);
        }
        let t = c.tile_at(x, y);
        r.push(tile_byte(t));
        i = i + 1;
        proof {
            assert(r@ =~= spec_encode_position(c@.position) + Seq::new(
                i as nat,
                |j: int| spec_tile_byte(c@.tiles[j]),
            ));
        }
    }
    proof {
        assert(r@ =~= spec_encode_chunk(c@));
    }
    r
}

pub fn decode_chunk(b: &[u8]) -> (r: Option<Chunk>)
    ensures
        match r {
            Some(c) => c.wf() && spec_decode_chunk(b@) == Some(c@),
            None => spec_decode_chunk(b@) is None,
        },
{
    if b.len() != 8 + CHUNK_AREA {
        return None;
    }
    let position = match decode_position(vstd::slice::slice_subrange(b, 0, 8)) {
        Some(p) => p,
        None => {
            return None;
        },
    };
    let mut tiles: Vec<Tile> = Vec::new();
    let mut i: usize = 0;
    while i < CHUNK_AREA
        invariant
            b@.len() == 8 + CHUNK_AREA,
            i <= CHUNK_AREA,
            tiles@.len() == i,
            forall|j: int|
                0 <= j < i ==> spec_tile_from_byte(#[trigger] b@[8 + j]) is Some && tiles@[j]
                    == spec_tile_from_byte(b@[8 + j])->0,
        decreases CHUNK_AREA - i,
    {
        match tile_from_byte(*vstd::slice::slice_index_get(b, 8 + i)) {
            Some(t) => tiles.push(t),
            None => {
                proof {
                    assert(spec_tile_from_byte(b@[8 + i as int]) is None);
                }
                return None;
            },
        }
        i = i + 1;
    }
    let g = tile_grid_from_vec(CHUNK_SIZE, CHUNK_SIZE, tiles);
    let c = Chunk { position, tiles: g };
    proof {
        assert(chunk_bytes_ok(b@));
        assert(b@.subrange(0, 8).len() == 8);
        assert(c@.tiles =~= Seq::new(CHUNK_AREA as nat, |i: int| spec_tile_from_byte(b@[8 + i])->0));
        assert(c@ =~= spec_decode_chunk(b@)->0);
    }
    Some(c)
}

/// Decoding a chunk undoes encoding it.
pub proof fn lemma_chunk_round_trip(c: ChunkV)
    requires
        chunk_encodable(c),
    ensures
        spec_decode_chunk(spec_encode_chunk(c)) == Some(c),
{
    lemma_position_round_trip(c.position);
    let b = spec_encode_chunk(c);
    assert(b.subrange(0, 8) =~= spec_encode_position(c.position));
    assert forall|i: int| 0 <= i < CHUNK_AREA implies spec_tile_from_byte(#[trigger] b[8 + i])
        == Some(c.tiles[i]) by {
        assert(b[8 + i] == spec_tile_byte(c.tiles[i]));
        lemma_tile_round_trip(c.tiles[i]);
    }
    assert(chunk_bytes_ok(b));
    assert(spec_decode_chunk(b)->0 =~= c);
}

/// Bytes one chunk takes on the wire.
pub const CHUNK_WIRE_LEN: usize = 152;

/// A chunk list on the wire: each chunk's encoding in order.
pub open spec fn spec_encode_chunk_seq(cs: Seq<ChunkV>) -> Seq<u8>
    decreases cs.len(),
{
    if cs.len() == 0 {
        Seq::empty()
    } else {
        spec_encode_chunk(cs[0]) + spec_encode_chunk_seq(cs.drop_first())
    }
}

/// A world on the wire: width and height as little-endian `u32`s, then the
/// chunks in row-major order.
pub open spec fn spec_encode_world(w: WorldV) -> Seq<u8> {
    spec_u32_to_le_bytes(w.width as u32) + spec_u32_to_le_bytes(w.height as u32)
        + spec_encode_chunk_seq(w.chunks)
}

/// The byte range of the `k`-th chunk in an encoded world.
pub open spec fn spec_world_chunk_slice(b: Seq<u8>, k: int) -> Seq<u8> {
    b.subrange(8 + CHUNK_WIRE_LEN * k, 8 + CHUNK_WIRE_LEN * (k + 1))
}

/// Every chunk range decodes, and the chunk at index `k` carries grid
/// position `(k / height, k % height)`.
pub open spec fn world_chunks_ok(b: Seq<u8>, n: int, height: int) -> bool {
    forall|k: int|
        0 <= k < n ==> {
            let c = spec_decode_chunk(#[trigger] spec_world_chunk_slice(b, k));
            c is Some && c->0.position == (Position {
                x: (k / height) as usize,
                y: (k % height) as usize,
            })
        }
}

/// The world a byte string decodes to, if any.  The dimensions must be in
/// range, the length must match them exactly, and every chunk must decode
/// and sit at the position its index calls for.
pub open spec fn spec_decode_world(b: Seq<u8>) -> Option<WorldV> {
    if b.len() < 8 {
        None
    } else {
        let w = spec_u32_from_le_bytes(b.subrange(0, 4)) as int;
        let h = spec_u32_from_le_bytes(b.subrange(4, 8)) as int;
        if w <= 0xFFFF && h <= 0xFFFF && b.len() == 8 + CHUNK_WIRE_LEN * (w * h)
            && world_chunks_ok(b, w * h, h) {
            Some(
                WorldV {
                    chunks: Seq::new(
                        (w * h) as nat,
                        |k: int| spec_decode_chunk(spec_world_chunk_slice(b, k))->0,
                    ),
                    width: w as nat,
                    height: h as nat,
                },
            )
        } else {
            None
        }
    }
}

proof fn lemma_encode_chunk_seq_push(cs: Seq<ChunkV>, c: ChunkV)
    ensures
        spec_encode_chunk_seq(cs.push(c)) =~= spec_encode_chunk_seq(cs) + spec_encode_chunk(c),
    decreases cs.len(),
{
    vstd::bytes::lemma_auto_spec_u32_to_from_le_bytes();
    if cs.len() == 0 {
        assert(cs.push(c)[0] == c);
        assert(cs.push(c).drop_first() =~= Seq::<ChunkV>::empty());
        assert(spec_encode_chunk_seq(cs.push(c).drop_first()) =~= Seq::<u8>::empty());
    } else {
        assert(cs.push(c).drop_first() =~= cs.drop_first().push(c));
        lemma_encode_chunk_seq_push(cs.drop_first(), c);
        assert(cs.push(c)[0] == cs[0]);
    }
}

proof fn lemma_encode_chunk_seq_len(cs: Seq<ChunkV>)
    requires
        forall|i: int| 0 <= i < cs.len() ==> (#[trigger] cs[i]).tiles.len() == CHUNK_AREA,
    ensures
        spec_encode_chunk_seq(cs).len() == CHUNK_WIRE_LEN * cs.len(),
    decreases cs.len(),
{
    vstd::bytes::lemma_auto_spec_u32_to_from_le_bytes();
    if cs.len() == 0 {
    } else {
        lemma_encode_chunk_seq_len(cs.drop_first());
        assert(spec_encode_chunk(cs[0]).len() == CHUNK_WIRE_LEN);
    }
}

proof fn lemma_encode_chunk_seq_slice(cs: Seq<ChunkV>, k: int)
    requires
        forall|i: int| 0 <= i < cs.len() ==> (#[trigger] cs[i]).tiles.len() == CHUNK_AREA,
        0 <= k < cs.len(),
    ensures
        spec_encode_chunk_seq(cs).subrange(
            CHUNK_WIRE_LEN * k,
            CHUNK_WIRE_LEN * (k + 1),
        ) =~= spec_encode_chunk(cs[k]),
    decreases k,
{
    vstd::bytes::lemma_auto_spec_u32_to_from_le_bytes();
    lemma_encode_chunk_seq_len(cs);
    assert(spec_encode_chunk(cs[0]).len() == CHUNK_WIRE_LEN);
    if k == 0 {
    } else {
        lemma_encode_chunk_seq_slice(cs.drop_first(), k - 1);
        lemma_encode_chunk_seq_len(cs.drop_first());
    }
}

pub fn encode_world(w: &World) -> (r: Vec<u8>)
    requires
        w.wf(),
    ensures
        r@ == spec_encode_world(w@),
{
    let mut r = u32_to_le_bytes(w.width as u32);
    let mut hb = u32_to_le_bytes(w.height as u32);
    r.append(&mut hb);
    let ghost header = spec_u32_to_le_bytes(w.width as u32) + spec_u32_to_le_bytes(
        w.height as u32,
    );
    let n = w.chunks.len();
    let mut k: usize = 0;
    while k < n
        invariant
            w.wf(),
            n == w.chunks@.len(),
            k <= n,
            header == spec_u32_to_le_bytes(w@.width as u32) + spec_u32_to_le_bytes(
                w@.height as u32,
            ),
            r@ =~= header + spec_encode_chunk_seq(w@.chunks.take(k as int)),
        decreases n - k,
    {
        proof {
            vstd::bytes::lemma_auto_spec_u32_to_from_le_bytes();
            if w.height == 0 {
                assert(w@.chunks.len() == w@.width * 0);
                assert(w@.width * 0 == 0) by (nonlinear_arith);
            } else {
                assert(w@.width * w@.height == w@.height * w@.width) by (nonlinear_arith);
                vstd::arithmetic::div_mod::lemma_multiply_divide_lt(
                    k as int,
                    w@.height as int,
                    w@.width as int,
                );
                vstd::arithmetic::div_mod::lemma_mod_division_less_than_divisor(
                    k as int,
                    w@.height as int,
                );
                vstd::arithmetic::div_mod::lemma_div_pos_is_pos(k as int, w@.height as int);
            }
            assert(pos_encodable(w@.chunks[k as int].position));
            lemma_encode_chunk_seq_push(w@.chunks.take(k as int), w@.chunks[k as int]);
            assert(w@.chunks.take(k as int + 1) =~= w@.chunks.take(k as int).push(
                w@.chunks[k as int],
            ));
        }
        let mut cb = encode_chunk(&w.chunks[k]);
        r.append(&mut cb);
        k = k + 1;
    }
    proof {
        assert(w@.chunks.take(n as int) =~= w@.chunks);
        assert(r@ =~= spec_encode_world(w@));
    }
    r
}

pub fn decode_world(b: &[u8]) -> (r: Option<World>)
    ensures
        match r {
            Some(w) => w.wf() && spec_decode_world(b@) == Some(w@),
            None => spec_decode_world(b@) is None,
        },
{
    if b.len() < 8 {
        return None;
    }
    let wdim32 = u32_from_le_bytes(vstd::slice::slice_subrange(b, 0, 4));
    let hdim32 = u32_from_le_bytes(vstd::slice::slice_subrange(b, 4, 8));
    if wdim32 > 0xFFFF || hdim32 > 0xFFFF {
        return None;
    }
    let wdim = wdim32 as usize;
    let hdim = hdim32 as usize;
    proof {
        assert(wdim * hdim <= 0xFFFF * 0xFFFF) by (nonlinear_arith)
            requires
                wdim <= 0xFFFF,
                hdim <= 0xFFFF,
        ;
    }
    let n = wdim * hdim;
    let body = b.len() - 8;
    if body / CHUNK_WIRE_LEN != n || body % CHUNK_WIRE_LEN != 0 {
        proof {
            vstd::arithmetic::div_mod::lemma_fundamental_div_mod(
                body as int,
                CHUNK_WIRE_LEN as int,
            );
        }
        return None;
    }
    proof {
        vstd::arithmetic::div_mod::lemma_fundamental_div_mod(body as int, CHUNK_WIRE_LEN as int);
        assert(b@.len() == 8 + CHUNK_WIRE_LEN * (n as int));
    }
    let mut chunks: Vec<Chunk> = Vec::new();
    let mut k: usize = 0;
    while k < n
        invariant
            n == wdim * hdim,
            wdim <= 0xFFFF,
            hdim <= 0xFFFF,
            wdim == wdim32 as usize,
            hdim == hdim32 as usize,
            wdim32 == spec_u32_from_le_bytes(b@.subrange(0, 4)),
            hdim32 == spec_u32_from_le_bytes(b@.subrange(4, 8)),
            b@.len() == 8 + CHUNK_WIRE_LEN * (n as int),
            8 + CHUNK_WIRE_LEN * (n as int) <= usize::MAX,
            k <= n,
            chunks@.len() == k,
            forall|j: int|
                0 <= j < k ==> {
                    let c = spec_decode_chunk(#[trigger] spec_world_chunk_slice(b@, j));
                    c is Some && c->0.position == (Position {
                        x: (j / hdim as int) as usize,
                        y: (j % hdim as int) as usize,
                    })
                },
            forall|j: int|
                0 <= j < k ==> (#[trigger] chunks@[j])@ == spec_decode_chunk(
                    spec_world_chunk_slice(b@, j),
                )->0 && chunks@[j].wf(),
        decreases n - k,
    {
        proof {
            assert(CHUNK_WIRE_LEN * (k as int) + CHUNK_WIRE_LEN <= CHUNK_WIRE_LEN * (n as int)) by (nonlinear_arith)
                requires
                    k < n,
            ;
            assert(CHUNK_WIRE_LEN * (k as int) >= 0) by (nonlinear_arith)
                requires
                    k >= 0,
            ;
        }
        let off = 8 + CHUNK_WIRE_LEN * k;
        let cs = vstd::slice::slice_subrange(b, off, off + CHUNK_WIRE_LEN);
        proof {
            assert(cs@ =~= spec_world_chunk_slice(b@, k as int));
        }
        match decode_chunk(cs) {
            Some(c) => {
                proof {
                    if hdim == 0 {
                        assert(wdim * 0 == 0) by (nonlinear_arith);
                    }
                }
                let ex = k / hdim;
                let ey = k % hdim;
                if c.position.x != ex || c.position.y != ey {
                    proof {
                        assert(!world_chunks_ok(b@, n as int, hdim as int));
                        assert(spec_decode_world(b@) is None);
                    }
                    return None;
                }
                chunks.push(c);
            },
            None => {
                proof {
                    assert(spec_decode_chunk(spec_world_chunk_slice(b@, k as int)) is None);
                    assert(!world_chunks_ok(b@, n as int, hdim as int));
                    assert(spec_decode_world(b@) is None);
                }
                return None;
            },
        }
        k = k + 1;
    }
    let w = World { chunks, width: wdim, height: hdim };
    proof {
        assert(world_chunks_ok(b@, n as int, hdim as int));
        assert(w@.chunks =~= Seq::new(
            (wdim as int * hdim as int) as nat,
            |j: int| spec_decode_chunk(spec_world_chunk_slice(b@, j))->0,
        ));
        assert(spec_decode_world(b@)->0 =~= w@);
        assert(world_v_wf(w@));
    }
    Some(w)
}

/// Decoding a world undoes encoding it.
pub proof fn lemma_world_round_trip(w: WorldV)
    requires
        world_v_wf(w),
    ensures
        spec_decode_world(spec_encode_world(w)) == Some(w),
{
    let b = spec_encode_world(w);
    vstd::bytes::lemma_auto_spec_u32_to_from_le_bytes();
    assert(b.subrange(0, 4) =~= spec_u32_to_le_bytes(w.width as u32));
    assert(b.subrange(4, 8) =~= spec_u32_to_le_bytes(w.height as u32));
    lemma_encode_chunk_seq_len(w.chunks);
    let n = w.chunks.len() as int;
    assert(b.len() == 8 + CHUNK_WIRE_LEN * n);
    assert forall|k: int| 0 <= k < n implies {
        let c = spec_decode_chunk(#[trigger] spec_world_chunk_slice(b, k));
        c == Some(w.chunks[k])
    } by {
        assert(CHUNK_WIRE_LEN * k + CHUNK_WIRE_LEN <= CHUNK_WIRE_LEN * n) by (nonlinear_arith)
            requires
                k < n,
        ;
        assert(CHUNK_WIRE_LEN * k >= 0) by (nonlinear_arith)
            requires
                k >= 0,
        ;
        lemma_encode_chunk_seq_slice(w.chunks, k);
        assert(spec_world_chunk_slice(b, k) =~= spec_encode_chunk_seq(w.chunks).subrange(
            CHUNK_WIRE_LEN * k,
            CHUNK_WIRE_LEN * (k + 1),
        ));
        if w.height == 0 {
            assert(w.width * 0 == 0) by (nonlinear_arith);
        } else {
            assert(w.width * w.height == w.height * w.width) by (nonlinear_arith);
            vstd::arithmetic::div_mod::lemma_multiply_divide_lt(k, w.height as int, w.width as int);
            vstd::arithmetic::div_mod::lemma_mod_division_less_than_divisor(k, w.height as int);
            vstd::arithmetic::div_mod::lemma_div_pos_is_pos(k, w.height as int);
        }
        assert(pos_encodable(w.chunks[k].position));
        lemma_chunk_round_trip(w.chunks[k]);
    }
    assert(world_chunks_ok(b, n, w.height as int));
    assert(b.len() == 8 + CHUNK_WIRE_LEN * (w.width * w.height));
    assert(spec_decode_world(b) is Some);
    assert(spec_decode_world(b)->0 =~= w);
}

/// Bytes with leading zero bytes removed.
pub open spec fn drop_leading_nul(b: Seq<u8>) -> Seq<u8>
    decreases b.len(),
{
    if b.len() > 0 && b[0] == 0 {
        drop_leading_nul(b.drop_first())
    } else {
        b
    }
}

/// Bytes with trailing zero bytes removed.
pub open spec fn drop_trailing_nul(b: Seq<u8>) -> Seq<u8>
    decreases b.len(),
{
    if b.len() > 0 && b[b.len() - 1] == 0 {
        drop_trailing_nul(b.drop_last())
    } else {
        b
    }
}

/// Bytes with NUL padding removed from both ends.  NUL is a one-byte UTF-8
/// scalar, so trimming zero bytes is trimming NUL characters.
pub open spec fn spec_trim_nul(b: Seq<u8>) -> Seq<u8> {
    drop_leading_nul(drop_trailing_nul(b))
}

pub fn trim_nul(b: &[u8]) -> (r: Vec<u8>)
    ensures
        r@ == spec_trim_nul(b@),
{
    let mut end: usize = b.len();
    proof {
        assert(b@.subrange(0, end as int) =~= b@);
    }
    while end > 0 && *vstd::slice::slice_index_get(b, end - 1) == 0
        invariant
            end <= b@.len(),
            drop_trailing_nul(b@) == drop_trailing_nul(b@.subrange(0, end as int)),
        decreases end,
    {
        proof {
            let s = b@.subrange(0, end as int);
            assert(s.drop_last() =~= b@.subrange(0, end - 1));
        }
        end = end - 1;
    }
    proof {
        assert(drop_trailing_nul(b@.subrange(0, end as int)) == b@.subrange(0, end as int));
    }
    let mut start: usize = 0;
    while start < end && *vstd::slice::slice_index_get(b, start) == 0
        invariant
            start <= end <= b@.len(),
            drop_trailing_nul(b@) == b@.subrange(0, end as int),
            drop_leading_nul(b@.subrange(0, end as int)) == drop_leading_nul(
                b@.subrange(start as int, end as int),
            ),
        decreases end - start,
    {
        proof {
            let s = b@.subrange(start as int, end as int);
            assert(s.drop_first() =~= b@.subrange(start + 1, end as int));
        }
        start = start + 1;
    }
    proof {
        assert(drop_leading_nul(b@.subrange(start as int, end as int)) == b@.subrange(
            start as int,
            end as int,
        ));
    }
    vstd::slice::slice_to_vec(vstd::slice::slice_subrange(b, start, end))
}

/// Relies on `str::from_utf8`, which returns `Ok` exactly on valid UTF-8
/// input, and on `str::to_string`: the string's characters are the ones the
/// bytes encode.
#[verifier::external_body]
pub(crate) fn bytes_to_string(v: &[u8]) -> (r: Option<String>)
    ensures
        r is Some ==> valid_utf8(v@) && r->0@ == decode_utf8(v@),
        r is None ==> !valid_utf8(v@),
{
    match core::str::from_utf8(v) {
        Ok(s) => Some(s.to_string()),
        Err(_) => None,
    }
}

/// NUL-trim, then decode UTF-8 text, as usernames and chat lines are read
/// off the wire; `None` on invalid UTF-8 (the datagram is dropped).
pub fn decode_text(b: &[u8]) -> (r: Option<String>)
    ensures
        r is Some ==> valid_utf8(spec_trim_nul(b@)) && r->0@ == decode_utf8(spec_trim_nul(b@)),
        r is None ==> !valid_utf8(spec_trim_nul(b@)),
{
    let t = trim_nul(b);
    bytes_to_string(t.as_slice())
}

/// A username fits a length-prefixed wire entry.
pub open spec fn name_encodable(n: Seq<char>) -> bool {
    encode_utf8(n).len() <= 0xFFFF
}

/// A roster fits the wire: the count fits its byte and every name fits its
/// entry.
pub open spec fn roster_encodable(r: Seq<Option<Seq<char>>>) -> bool {
    &&& r.len() <= 0xFF
    &&& forall|i: int| 0 <= i < r.len() ==> ((#[trigger] r[i]) is Some ==> name_encodable(r[i]->0))
}

/// The usernames a roster of players stands for, slot by slot.
pub open spec fn roster_view(players: Seq<Option<Player>>) -> Seq<Option<Seq<char>>> {
    players.map_values(
        |p: Option<Player>|
            match p {
                Option::Some(pl) => Option::Some(pl@),
                Option::None => Option::None,
            },
    )
}

/// A roster entry on the wire: `0` for a free slot; `1`, a little-endian
/// `u16` byte length, and the UTF-8 username for an occupied one.
pub open spec fn spec_encode_roster_entry(e: Option<Seq<char>>) -> Seq<u8> {
    match e {
        Option::None => seq![0u8],
        Option::Some(n) => seq![1u8] + spec_u16_to_le_bytes(encode_utf8(n).len() as u16)
            + encode_utf8(n),
    }
}

/// A roster's entries on the wire, in slot order.
pub open spec fn spec_encode_roster_seq(r: Seq<Option<Seq<char>>>) -> Seq<u8>
    decreases r.len(),
{
    if r.len() == 0 {
        Seq::empty()
    } else {
        spec_encode_roster_entry(r[0]) + spec_encode_roster_seq(r.drop_first())
    }
}

/// A roster on the wire: the slot count, then one entry per slot.
pub open spec fn spec_encode_roster(r: Seq<Option<Seq<char>>>) -> Seq<u8> {
    seq![r.len() as u8] + spec_encode_roster_seq(r)
}

/// Parse exactly `n` roster entries, consuming the bytes completely.
pub open spec fn spec_decode_roster_entries(b: Seq<u8>, n: nat) -> Option<Seq<Option<Seq<char>>>>
    decreases n,
{
    if n == 0 {
        if b.len() == 0 {
            Some(Seq::empty())
        } else {
            None
        }
    } else if b.len() == 0 {
        None
    } else if b[0] == 0 {
        match spec_decode_roster_entries(b.drop_first(), (n - 1) as nat) {
            Option::Some(rest) => Some(seq![Option::<Seq<char>>::None] + rest),
            Option::None => None,
        }
    } else if b[0] == 1 {
        if b.len() < 3 {
            None
        } else {
            let l = spec_u16_from_le_bytes(b.subrange(1, 3)) as int;
            if b.len() < 3 + l {
                None
            } else {
                let nb = b.subrange(3, 3 + l);
                if valid_utf8(nb) {
                    match spec_decode_roster_entries(
                        b.subrange(3 + l, b.len() as int),
                        (n - 1) as nat,
                    ) {
                        Option::Some(rest) => Some(seq![Option::Some(decode_utf8(nb))] + rest),
                        Option::None => None,
                    }
                } else {
                    None
                }
            }
        }
    } else {
        None
    }
}

/// The roster a byte string decodes to, if any: a count byte, then exactly
/// that many entries with nothing left over.
pub open spec fn spec_decode_roster(b: Seq<u8>) -> Option<Seq<Option<Seq<char>>>> {
    if b.len() == 0 {
        None
    } else {
        spec_decode_roster_entries(b.drop_first(), b[0] as nat)
    }
}

proof fn lemma_encode_roster_seq_push(r: Seq<Option<Seq<char>>>, e: Option<Seq<char>>)
    ensures
        spec_encode_roster_seq(r.push(e)) =~= spec_encode_roster_seq(r)
            + spec_encode_roster_entry(e),
    decreases r.len(),
{
    if r.len() == 0 {
        assert(r.push(e)[0] == e);
        assert(r.push(e).drop_first() =~= Seq::<Option<Seq<char>>>::empty());
        assert(spec_encode_roster_seq(r.push(e).drop_first()) =~= Seq::<u8>::empty());
    } else {
        assert(r.push(e).drop_first() =~= r.drop_first().push(e));
        lemma_encode_roster_seq_push(r.drop_first(), e);
        assert(r.push(e)[0] == r[0]);
    }
}

pub fn encode_roster(players: &Vec<Option<Player>>) -> (r: Vec<u8>)
    requires
        roster_encodable(roster_view(players@)),
    ensures
        r@ == spec_encode_roster(roster_view(players@)),
{
    let ghost rv = roster_view(players@);
    let mut r: Vec<u8> = Vec::new();
    r.push(players.len() as u8);
    let n = players.len();
    let mut i: usize = 0;
    while i < n
        invariant
            roster_encodable(rv),
            rv == roster_view(players@),
            rv.len() == players@.len(),
            n == players@.len(),
            i <= n,
            r@ =~= seq![players@.len() as u8] + spec_encode_roster_seq(rv.take(i as int)),
        decreases n - i,
    {
        proof {
            lemma_encode_roster_seq_push(rv.take(i as int), rv[i as int]);
            assert(rv.take(i as int + 1) =~= rv.take(i as int).push(rv[i as int]));
        }
        match &players[i] {
            Option::None => {
                r.push(0u8);
            },
            Option::Some(p) => {
                r.push(1u8);
                let nb = p.username.as_str().as_bytes_vec();
                let mut lb = u16_to_le_bytes(nb.len() as u16);
                r.append(&mut lb);
                let mut nb = nb;
                r.append(&mut nb);
            },
        }
        i = i + 1;
        proof {
            assert(r@ =~= seq![players@.len() as u8] + spec_encode_roster_seq(rv.take(i as int)));
        }
    }
    proof {
        assert(rv.take(n as int) =~= rv);
        assert(r@ =~= spec_encode_roster(rv));
    }
    r
}

pub fn decode_roster(b: &[u8]) -> (r: Option<Vec<Option<Player>>>)
    ensures
        match r {
            Some(v) => spec_decode_roster(b@) == Some(roster_view(v@)) && roster_encodable(
                roster_view(v@),
            ),
            None => spec_decode_roster(b@) is None,
        },
{
    if b.len() == 0 {
        return None;
    }
    let count = *vstd::slice::slice_index_get(b, 0) as usize;
    let mut out: Vec<Option<Player>> = Vec::new();
    let mut pos: usize = 1;
    let mut parsed: usize = 0;
    while parsed < count
        invariant
            1 <= pos <= b@.len(),
            parsed <= count,
            count == b@[0] as usize,
            out@.len() == parsed,
            roster_encodable(roster_view(out@)),
            spec_decode_roster_entries(b@.subrange(1, b@.len() as int), count as nat) == (
            match spec_decode_roster_entries(
                b@.subrange(pos as int, b@.len() as int),
                (count - parsed) as nat,
            ) {
                Option::Some(rest) => Option::Some(roster_view(out@) + rest),
                Option::None => Option::<Seq<Option<Seq<char>>>>::None,
            }),
        decreases count - parsed,
    {
        let ghost tail = b@.subrange(pos as int, b@.len() as int);
        let ghost m = (count - parsed) as nat;
        if pos >= b.len() {
            proof {
                assert(tail.len() == 0);
                assert(spec_decode_roster_entries(tail, m) is None);
            }
            return None;
        }
        let marker = *vstd::slice::slice_index_get(b, pos);
        proof {
            assert(tail[0] == b@[pos as int]);
        }
        if marker == 0 {
            proof {
                assert(tail.drop_first() =~= b@.subrange(pos + 1, b@.len() as int));
                assert(roster_view(out@.push(Option::None)) =~= roster_view(out@) + seq![
                    Option::<Seq<char>>::None,
                ]);
                lemma_concat_assoc_entries(
                    roster_view(out@),
                    seq![Option::<Seq<char>>::None],
                    spec_decode_roster_entries(tail.drop_first(), (m - 1) as nat),
                );
            }
            out.push(None);
            pos = pos + 1;
        } else if marker == 1 {
            if b.len() - pos < 3 {
                proof {
                    assert(tail.len() < 3);
                    assert(spec_decode_roster_entries(tail, m) is None);
                }
                return None;
            }
            let lb = vstd::slice::slice_subrange(b, pos + 1, pos + 3);
            let l = u16_from_le_bytes(lb) as usize;
            proof {
                assert(tail.subrange(1, 3) =~= b@.subrange(pos + 1, pos + 3));
            }
            if b.len() - (pos + 3) < l {
                proof {
                    assert(tail.len() < 3 + l);
                    assert(spec_decode_roster_entries(tail, m) is None);
                }
                return None;
            }
            let nb = vstd::slice::slice_subrange(b, pos + 3, pos + 3 + l);
            proof {
                assert(nb@ =~= tail.subrange(3, 3 + l as int));
            }
            match bytes_to_string(nb) {
                Some(s) => {
                    proof {
                        vstd::utf8::decode_utf8_encode_utf8(nb@);
                        assert(tail.subrange(3 + l as int, tail.len() as int) =~= b@.subrange(
                            pos + 3 + l,
                            b@.len() as int,
                        ));
                        assert(roster_view(out@.push(Option::Some(Player { username: s })))
                            =~= roster_view(out@) + seq![Option::Some(decode_utf8(nb@))]);
                        lemma_concat_assoc_entries(
                            roster_view(out@),
                            seq![Option::Some(decode_utf8(nb@))],
                            spec_decode_roster_entries(
                                tail.subrange(3 + l as int, tail.len() as int),
                                (m - 1) as nat,
                            ),
                        );
                    }
                    out.push(Some(Player { username: s }));
                    pos = pos + 3 + l;
                },
                None => {
                    proof {
                        assert(spec_decode_roster_entries(tail, m) is None);
                    }
                    return None;
                },
            }
        } else {
            proof {
                assert(spec_decode_roster_entries(tail, m) is None);
            }
            return None;
        }
        parsed = parsed + 1;
    }
    if pos != b.len() {
        proof {
            assert(b@.subrange(pos as int, b@.len() as int).len() != 0);
            assert(spec_decode_roster_entries(b@.subrange(pos as int, b@.len() as int), 0) is None);
        }
        return None;
    }
    proof {
        assert(b@.subrange(pos as int, b@.len() as int).len() == 0);
        assert(spec_decode_roster_entries(b@.subrange(pos as int, b@.len() as int), 0)
            == Option::<Seq<Option<Seq<char>>>>::Some(Seq::empty()));
        assert(roster_view(out@) + Seq::<Option<Seq<char>>>::empty() =~= roster_view(out@));
    }
    Some(out)
}

proof fn lemma_concat_assoc_entries(
    a: Seq<Option<Seq<char>>>,
    b: Seq<Option<Seq<char>>>,
    rest: Option<Seq<Option<Seq<char>>>>,
)
    ensures
        rest is Some ==> (a + b) + rest->0 =~= a + (b + rest->0),
{
}

/// Decoding a roster undoes encoding it.
pub proof fn lemma_roster_round_trip(r: Seq<Option<Seq<char>>>)
    requires
        roster_encodable(r),
    ensures
        spec_decode_roster(spec_encode_roster(r)) == Some(r),
{
    let b = spec_encode_roster(r);
    assert(b[0] == r.len() as u8);
    assert(b.drop_first() =~= spec_encode_roster_seq(r));
    lemma_roster_entries_round_trip(r);
}

proof fn lemma_roster_entries_round_trip(r: Seq<Option<Seq<char>>>)
    requires
        forall|i: int| 0 <= i < r.len() ==> ((#[trigger] r[i]) is Some ==> name_encodable(r[i]->0)),
    ensures
        spec_decode_roster_entries(spec_encode_roster_seq(r), r.len()) == Some(r),
    decreases r.len(),
{
    vstd::bytes::lemma_auto_spec_u16_to_from_le_bytes();
    if r.len() == 0 {
        assert(spec_encode_roster_seq(r) =~= Seq::<u8>::empty());
        assert(Seq::<Option<Seq<char>>>::empty() =~= r);
    } else {
        lemma_roster_entries_round_trip(r.drop_first());
        let b = spec_encode_roster_seq(r);
        let e = spec_encode_roster_entry(r[0]);
        let rest = spec_encode_roster_seq(r.drop_first());
        match r[0] {
            Option::None => {
                assert(b[0] == 0);
                assert(b.drop_first() =~= rest);
                assert(seq![Option::<Seq<char>>::None] + r.drop_first() =~= r);
            },
            Option::Some(n) => {
                vstd::utf8::encode_utf8_valid_utf8(n);
                vstd::utf8::encode_utf8_decode_utf8(n);
                let nb = encode_utf8(n);
                let l = nb.len() as int;
                assert(e.len() == 3 + l);
                assert(b[0] == 1);
                assert(b.subrange(1, 3) =~= spec_u16_to_le_bytes(l as u16));
                assert(spec_u16_from_le_bytes(b.subrange(1, 3)) as int == l);
                assert(b.subrange(3, 3 + l) =~= nb);
                assert(b.subrange(3 + l, b.len() as int) =~= rest);
                assert(seq![Option::Some(decode_utf8(nb))] + r.drop_first() =~= r);
            },
        }
    }
}

} // verus!
