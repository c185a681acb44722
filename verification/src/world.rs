//! The shared game world: tiles, chunks, players and positions.
//!
//! The world is a `width x height` grid of fixed-size chunks; each chunk is a
//! `CHUNK_SIZE x CHUNK_SIZE` grid of tiles and carries its own grid position.
//! A world-space coordinate decomposes into a chunk position (division by
//! `CHUNK_SIZE`) and a tile position within that chunk (the remainder).

use vstd::prelude::*;

use crate::grid::{
    tile_grid_clone, tile_grid_dim, tile_grid_filled, tile_grid_get, tile_grid_seq, tile_grid_set,
    TileGrid,
};

verus! {

/// Side length of a chunk, in tiles.
pub const CHUNK_SIZE: usize = 12;

/// Number of tiles in a chunk.
pub const CHUNK_AREA: usize = 144;

/// What a tile is made of.
#[derive(Clone, Copy, Debug, PartialEq, Eq, Structural)]
pub enum TileType {
    Grass,
    Sand,
}

/// One cell of the world.
#[derive(Clone, Copy, Debug, PartialEq, Eq, Structural)]
pub struct Tile {
    pub ty: TileType,
}

/// A 2D coordinate: world-space tile coordinates in click events, and
/// chunk-grid indices in chunk positions.
#[derive(Clone, Copy, Debug, PartialEq, Eq, Hash, Structural)]
pub struct Position {
    pub x: usize,
    pub y: usize,
}

/// A player on the roster, known by username.
#[derive(Debug)]
pub struct Player {
    pub username: String,
}

impl View for Player {
    type V = Seq<char>;

    open spec fn view(&self) -> Seq<char> {
        self.username@
    }
}

impl PartialEq for Player {
    fn eq(&self, other: &Player) -> (r: bool) {
        self.username == other.username
    }
}

impl vstd::std_specs::cmp::PartialEqSpecImpl for Player {
    open spec fn obeys_eq_spec() -> bool {
        true
    }

    open spec fn eq_spec(&self, other: &Player) -> bool {
        self.username@ == other.username@
    }
}

/// The mathematical content of a chunk: its grid position and its tiles in
/// row-major order (tile `(x, y)` at `x * CHUNK_SIZE + y`).
#[verifier::ext_equal]
pub ghost struct ChunkV {
    pub position: Position,
    pub tiles: Seq<Tile>,
}

/// One square patch of the world.
pub struct Chunk {
    pub position: Position,
    pub tiles: TileGrid,
}

impl View for Chunk {
    type V = ChunkV;

    open spec fn view(&self) -> ChunkV {
        ChunkV { position: self.position, tiles: tile_grid_seq(&self.tiles) }
    }
}

impl Chunk {
    /// The chunk's tile grid has the fixed chunk shape.
    pub open spec fn wf(&self) -> bool {
        &&& tile_grid_dim(&self.tiles) == (CHUNK_SIZE as nat, CHUNK_SIZE as nat)
        &&& tile_grid_seq(&self.tiles).len() == CHUNK_AREA
    }

    /// A fresh all-grass chunk at the given grid position.
    pub fn new(position: Position) -> (c: Chunk)
        ensures
            c.wf(),
            c@.position == position,
            c@.tiles == Seq::new(CHUNK_AREA as nat, |i: int| Tile { ty: TileType::Grass }),
    {
        Chunk { position, tiles: tile_grid_filled(CHUNK_SIZE, CHUNK_SIZE, Tile { ty: TileType::Grass }) }
    }

    /// The tile at `(x, y)` within this chunk.
    pub fn tile_at(&self, x: usize, y: usize) -> (t: Tile)
        requires
            self.wf(),
            x < CHUNK_SIZE,
            y < CHUNK_SIZE,
        ensures
            t == self@.tiles[x as int * CHUNK_SIZE as int + y as int],
    {
        tile_grid_get(&self.tiles, x, y)
    }

    /// Replace the tile at `(x, y)` within this chunk.
    pub fn set_tile(&mut self, x: usize, y: usize, t: Tile)
        requires
            old(self).wf(),
            x < CHUNK_SIZE,
            y < CHUNK_SIZE,
        ensures
            final(self).wf(),
            final(self)@.position == old(self)@.position,
            final(self)@.tiles == old(self)@.tiles.update(
                x as int * CHUNK_SIZE as int + y as int,
                t,
            ),
    {
        tile_grid_set(&mut self.tiles, x, y, t);
    }
}

/// The mathematical content of a world: its chunk grid in row-major order
/// (chunk `(x, y)` at `x * height + y`) and its dimensions in chunks.
#[verifier::ext_equal]
pub ghost struct WorldV {
    pub chunks: Seq<ChunkV>,
    pub width: nat,
    pub height: nat,
}

/// The authoritative shared game state: a grid of chunks.
pub struct World {
    pub chunks: Vec<Chunk>,
    pub width: usize,
    pub height: usize,
}

impl View for World {
    type V = WorldV;

    open spec fn view(&self) -> WorldV {
        WorldV {
            chunks: self.chunks@.map_values(|c: Chunk| c@),
            width: self.width as nat,
            height: self.height as nat,
        }
    }
}

/// Row-major index of chunk position `(x, y)` in a world of the given height.
pub open spec fn spec_chunk_index(height: nat, x: int, y: int) -> int {
    x * height + y
}

/// A world's content is well formed: the chunk list matches the dimensions,
/// every chunk has the fixed shape, and the chunk at index `k` carries grid
/// position `(k / height, k % height)`.
pub open spec fn world_v_wf(w: WorldV) -> bool {
    &&& w.chunks.len() == w.width * w.height
    &&& w.width <= 0xFFFF
    &&& w.height <= 0xFFFF
    &&& forall|k: int|
        0 <= k < w.chunks.len() ==> (#[trigger] w.chunks[k]).tiles.len() == CHUNK_AREA
    &&& forall|k: int|
        0 <= k < w.chunks.len() ==> (#[trigger] w.chunks[k]).position == (Position {
            x: (k / w.height as int) as usize,
            y: (k % w.height as int) as usize,
        })
}

impl World {
    /// The world's representation is well formed: its content is, and every
    /// chunk's grid has the fixed chunk shape.
    pub open spec fn wf(&self) -> bool {
        &&& world_v_wf(self@)
        &&& forall|k: int| 0 <= k < self.chunks@.len() ==> (#[trigger] self.chunks@[k]).wf()
    }

    /// A fresh all-grass world of `width x height` chunks.
    pub fn new(width: usize, height: usize) -> (w: World)
        requires
            width <= 0xFFFF,
            height <= 0xFFFF,
        ensures
            w.wf(),
            w@.width == width,
            w@.height == height,
            forall|k: int|
                0 <= k < w@.chunks.len() ==> (#[trigger] w@.chunks[k]).tiles == Seq::new(
                    CHUNK_AREA as nat,
                    |i: int| Tile { ty: TileType::Grass },
                ),
    {
        let mut chunks: Vec<Chunk> = Vec::new();
        let mut x: usize = 0;
        while x < width
            invariant
                x <= width,
                width <= 0xFFFF,
                height <= 0xFFFF,
                chunks@.len() == x * height,
                forall|k: int| 0 <= k < chunks@.len() ==> (#[trigger] chunks@[k]).wf(),
                forall|k: int|
                    0 <= k < chunks@.len() ==> (#[trigger] chunks@[k])@.position == (Position {
                        x: (k / height as int) as usize,
                        y: (k % height as int) as usize,
                    }),
                forall|k: int|
                    0 <= k < chunks@.len() ==> (#[trigger] chunks@[k])@.tiles == Seq::new(
                        CHUNK_AREA as nat,
                        |i: int| Tile { ty: TileType::Grass },
                    ),
            decreases width - x,
        {
            let mut y: usize = 0;
            while y < height
                invariant
                    x < width,
                    y <= height,
                    width <= 0xFFFF,
                    height <= 0xFFFF,
                    chunks@.len() == x * height + y,
                    forall|k: int| 0 <= k < chunks@.len() ==> (#[trigger] chunks@[k]).wf(),
                    forall|k: int|
                        0 <= k < chunks@.len() ==> (#[trigger] chunks@[k])@.position == (Position {
                            x: (k / height as int) as usize,
                            y: (k % height as int) as usize,
                        }),
                    forall|k: int|
                        0 <= k < chunks@.len() ==> (#[trigger] chunks@[k])@.tiles == Seq::new(
                            CHUNK_AREA as nat,
                            |i: int| Tile { ty: TileType::Grass },
                        ),
                decreases height - y,
            {
                let c = Chunk::new(Position { x, y });
                proof {
                    lemma_chunk_index_decomposes(height as nat, x as int, y as int);
                }
                chunks.push(c);
                y = y + 1;
            }
            proof {
                assert((x + 1) * height == x * height + height) by (nonlinear_arith);
            }
            x = x + 1;
        }
        World { chunks, width, height }
    }

    /// The chunk at grid position `(cx, cy)`.
    pub fn chunk_at(&self, cx: usize, cy: usize) -> (c: &Chunk)
        requires
            self.wf(),
            cx < self@.width,
            cy < self@.height,
        ensures
            c.wf(),
            c@ == self@.chunks[spec_chunk_index(self@.height, cx as int, cy as int)],
    {
        proof {
            lemma_chunk_index_in_range(self@.width, self@.height, cx as int, cy as int);
            assert(cx * self.height <= 0xFFFF * 0xFFFF) by (nonlinear_arith)
                requires
                    cx <= 0xFFFF,
                    self.height <= 0xFFFF,
            ;
        }
        &self.chunks[cx * self.height + cy]
    }

    /// Replace the tile at world-space coordinate `(x, y)`.
    ///
    /// The coordinate decomposes into the chunk at `(x / CHUNK_SIZE,
    /// y / CHUNK_SIZE)` and the tile `(x % CHUNK_SIZE, y % CHUNK_SIZE)`
    /// within it; only that tile changes.
    pub fn set_global_tile(&mut self, x: usize, y: usize, t: Tile)
        requires
            old(self).wf(),
            (x as int) < old(self)@.width * CHUNK_SIZE,
            (y as int) < old(self)@.height * CHUNK_SIZE,
        ensures
            final(self).wf(),
            final(self)@ == spec_set_global_tile(old(self)@, x as int, y as int, t),
    {
        let cx = x / CHUNK_SIZE;
        let cy = y / CHUNK_SIZE;
        let tx = x % CHUNK_SIZE;
        let ty = y % CHUNK_SIZE;
        proof {
            vstd::arithmetic::div_mod::lemma_multiply_divide_lt(
                x as int,
                CHUNK_SIZE as int,
                self@.width as int,
            );
            vstd::arithmetic::div_mod::lemma_multiply_divide_lt(
                y as int,
                CHUNK_SIZE as int,
                self@.height as int,
            );
            assert(self@.width * CHUNK_SIZE == CHUNK_SIZE as int * self@.width as int)
                by (nonlinear_arith);
            assert(self@.height * CHUNK_SIZE == CHUNK_SIZE as int * self@.height as int)
                by (nonlinear_arith);
            vstd::arithmetic::div_mod::lemma_mod_division_less_than_divisor(
                x as int,
                CHUNK_SIZE as int,
            );
            vstd::arithmetic::div_mod::lemma_mod_division_less_than_divisor(
                y as int,
                CHUNK_SIZE as int,
            );
            lemma_chunk_index_in_range(self@.width, self@.height, cx as int, cy as int);
            assert(cx * self.height <= 0xFFFF * 0xFFFF) by (nonlinear_arith)
                requires
                    cx <= 0xFFFF,
                    self.height <= 0xFFFF,
            ;
        }
        let k = cx * self.height + cy;
        let position = self.chunks[k].position;
        let mut tiles = tile_grid_clone(&self.chunks[k].tiles);
        tile_grid_set(&mut tiles, tx, ty, t);
        self.chunks.set(k, Chunk { position, tiles });
        proof {
            assert(self@.chunks =~= spec_set_global_tile(old(self)@, x as int, y as int, t).chunks);
            assert(self@ =~= spec_set_global_tile(old(self)@, x as int, y as int, t));
        }
    }

    /// Install a chunk received from the wire, locating the one to replace
    /// by its grid position.  Returns `false`, changing nothing, when the
    /// position lies outside this world's chunk grid.
    pub fn replace_chunk(&mut self, c: Chunk) -> (ok: bool)
        requires
            old(self).wf(),
            c.wf(),
        ensures
            final(self).wf(),
            ok == ((c@.position.x as int) < old(self)@.width && (c@.position.y as int) < old(
                self,
            )@.height),
            ok ==> final(self)@ == (WorldV {
                chunks: old(self)@.chunks.update(
                    spec_chunk_index(old(self)@.height, c@.position.x as int, c@.position.y as int),
                    c@,
                ),
                ..old(self)@
            }),
            !ok ==> final(self)@ == old(self)@,
    {
        if c.position.x < self.width && c.position.y < self.height {
            proof {
                lemma_chunk_index_in_range(
                    self@.width,
                    self@.height,
                    c@.position.x as int,
                    c@.position.y as int,
                );
                lemma_chunk_index_decomposes(
                    self@.height,
                    c@.position.x as int,
                    c@.position.y as int,
                );
                assert(c.position.x * self.height <= 0xFFFF * 0xFFFF) by (nonlinear_arith)
                    requires
                        c.position.x <= 0xFFFF,
                        self.height <= 0xFFFF,
                ;
            }
            let k = c.position.x * self.height + c.position.y;
            self.chunks.set(k, c);
            proof {
                assert(self@.chunks =~= old(self)@.chunks.update(
                    spec_chunk_index(
                        old(self)@.height,
                        self.chunks@[k as int]@.position.x as int,
                        self.chunks@[k as int]@.position.y as int,
                    ),
                    self.chunks@[k as int]@,
                ));
            }
            true
        } else {
            false
        }
    }
}

/// The world after a click at world-space `(x, y)`: the chunk holding that
/// coordinate keeps its position, and only the clicked tile within it
/// changes.
pub open spec fn spec_set_global_tile(w: WorldV, x: int, y: int, t: Tile) -> WorldV {
    let k = spec_chunk_index(w.height, x / CHUNK_SIZE as int, y / CHUNK_SIZE as int);
    let ti = (x % CHUNK_SIZE as int) * CHUNK_SIZE as int + (y % CHUNK_SIZE as int);
    WorldV {
        chunks: w.chunks.update(
            k,
            ChunkV { position: w.chunks[k].position, tiles: w.chunks[k].tiles.update(ti, t) },
        ),
        ..w
    }
}

/// `x * height + y` decomposes back into `(x, y)` when `y < height`.
pub proof fn lemma_chunk_index_decomposes(height: nat, x: int, y: int)
    requires
        0 <= x,
        0 <= y < height,
    ensures
        (x * height + y) / height as int == x,
        (x * height + y) % height as int == y,
{
    let h = height as int;
    vstd::arithmetic::div_mod::lemma_div_multiples_vanish_fancy(x, y, h);
    vstd::arithmetic::div_mod::lemma_fundamental_div_mod_converse(x * h + y, h, x, y);
}

/// An in-range chunk position indexes inside the chunk list.
pub proof fn lemma_chunk_index_in_range(width: nat, height: nat, x: int, y: int)
    requires
        0 <= x < width,
        0 <= y < height,
    ensures
        0 <= spec_chunk_index(height, x, y) < width * height,
{
    let h = height as int;
    let w = width as int;
    assert(x * h + y < w * h) by (nonlinear_arith)
        requires
            0 <= x < w,
            0 <= y < h,
    ;
    assert(0 <= x * h) by (nonlinear_arith)
        requires
            0 <= x,
            0 <= h,
    ;
}

} // verus!
