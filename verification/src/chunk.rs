use vstd::prelude::*;
use crate::block::{Block, BlockView, WATER_ID, AIR_ID};
use crate::set_blocks::{SetBlocks, block_key, spec_block_key, stored_value, UNSET_ID};
use crate::trees::{ChangeBlock, TreeState, tree_state, planted, tree_offsets, tree_in_range, chunk_shape, width_of, height_of, set_tree,
    LEAF_ID, stored_kept, lemma_stored_kept_trans, lemma_tree_keeps_stored, leaf_falls_on, lemma_offsets_depth, lemma_tree_elsewhere, lemma_planted_shape};

verus! {

/// One corner of one face of a block in a chunk's mesh: the block's indices
/// in the chunk, the face (0 to 5) and the corner of the face (0 to 5). The
/// caller turns it into a drawn vertex with the block model of `block_id`.
#[derive(Clone, Copy, Debug, PartialEq, Eq, Structural)]
pub struct MeshVertex {
    pub i: usize,
    pub k: usize,
    pub j: usize,
    pub side: usize,
    pub corner: usize,
    pub block_id: u8,
}

/// The abstract value of a chunk.
#[verifier::ext_equal]
pub struct ChunkView {
    pub blocks: Seq<Seq<Seq<BlockView>>>,
    pub grid_x: i32,
    pub grid_z: i32,
    pub vertices: Seq<MeshVertex>,
    pub transparencies: Seq<bool>,
    pub world_gen_seed: u32,
    pub underground_height: u8,
    pub sky_height: u8,
    pub mid_height: u8,
    pub chunk_distance: usize,
    pub visible_layers: Seq<bool>,
}

/// A square column of blocks, `blocks[i][k][j]` with `j` the height, placed
/// at `(grid_x, grid_z)` in the world's grid of chunks, with the mesh that was
/// last built from it.
pub struct Chunk {
    pub blocks: Vec<Vec<Vec<Block>>>,
    pub grid_x: i32,
    pub grid_z: i32,
    pub vertices: Vec<MeshVertex>,
    pub transparencies: Vec<bool>,
    pub world_gen_seed: u32,
    pub underground_height: u8,
    pub sky_height: u8,
    pub mid_height: u8,
    pub chunk_distance: usize,
    pub visible_layers: Vec<bool>,
}

impl DeepView for Chunk {
    type V = ChunkView;

    open spec fn deep_view(&self) -> ChunkView {
        ChunkView {
            blocks: self.blocks.deep_view(),
            grid_x: self.grid_x,
            grid_z: self.grid_z,
            vertices: self.vertices@,
            transparencies: self.transparencies@,
            world_gen_seed: self.world_gen_seed,
            underground_height: self.underground_height,
            sky_height: self.sky_height,
            mid_height: self.mid_height,
            chunk_distance: self.chunk_distance,
            visible_layers: self.visible_layers@,
        }
    }
}

/// A chunk's block array: `w` by `w` columns of one height `h`, with `w` and
/// `h` at least one.
pub open spec fn chunk_square(b: Seq<Seq<Seq<BlockView>>>) -> bool {
    &&& b.len() >= 1
    &&& b[0][0].len() >= 1
    &&& is_box(b, b.len() as int, b.len() as int, b[0][0].len() as int)
}

/// `b` holds `w` rows of `d` columns of `h` blocks each.
pub open spec fn is_box(b: Seq<Seq<Seq<BlockView>>>, w: int, d: int, h: int) -> bool {
    &&& b.len() == w
    &&& forall|x: int| 0 <= x < w ==> #[trigger] b[x].len() == d
    &&& forall|x: int, y: int| 0 <= x < w && 0 <= y < d ==> #[trigger] b[x][y].len() == h
}

/// The kind of the block at height `bh` in a column whose top block is at
/// height `max`, with water up to `wl` and rock below `ug`. In biome 2 the
/// ground is sand over stone; elsewhere grass over dirt over stone, sand at
/// the water's edge, and a trunk of wood above the top of a column that has a
/// plant and stands clear of the water.
pub open spec fn spec_block_type(bh: int, max: int, wl: int, has_plant: bool, ug: int, biome: int) -> u8 {
    if biome == 2 {
        if bh < ug {
            1
        } else if bh > max {
            if bh < wl { 3 } else { 240 }
        } else if bh == max {
            6
        } else if max - bh < 3 && bh > wl + 2 {
            6
        } else {
            1
        }
    } else {
        if has_plant && bh > wl && wl + 2 < max && bh < max + 6 && bh > max {
            5
        } else if bh < ug {
            1
        } else if bh > max {
            if bh < wl { 3 } else { 240 }
        } else if bh == max {
            if bh > wl + 2 { 0 } else { 6 }
        } else if max - bh < 3 && bh > wl + 2 {
            2
        } else {
            1
        }
    }
}

/// The byte sums that the choice of a block's kind evaluates stay below 256.
pub open spec fn block_type_in_range(bh: int, max: int, wl: int, has_plant: bool, ug: int, biome: int) -> bool {
    if biome == 2 {
        (ug <= bh < max && max - bh < 3) ==> wl + 2 <= 255
    } else {
        &&& (has_plant && bh > wl) ==> wl + 2 <= 255
        &&& (has_plant && bh > wl && wl + 2 < max) ==> max + 6 <= 255
        &&& (ug <= bh && bh == max) ==> wl + 2 <= 255
        &&& (ug <= bh < max && max - bh < 3) ==> wl + 2 <= 255
    }
}

/// The kind of block at height `block_height` of a column; see
/// `spec_block_type`.
pub fn get_block_type(
    block_height: u8,
    max_collumn_height: u8,
    water_level: u8,
    has_plant: bool,
    underground_height: u8,
    _sky_height: u8,
    _height_limitt: u8,
    biome: u8,
) -> (r: u8)
    requires
        block_type_in_range(block_height as int, max_collumn_height as int, water_level as int, has_plant,
            underground_height as int, biome as int),
    ensures
        r == spec_block_type(block_height as int, max_collumn_height as int, water_level as int, has_plant,
            underground_height as int, biome as int),
{
    if biome == 2 {
        if block_height < underground_height {
            return 1;
        }
        if block_height > max_collumn_height {
            if block_height < water_level {
                return 3;
            } else {
                return 240;
            }
        }
        if block_height == max_collumn_height {
            return 6;
        }
        if max_collumn_height - block_height < 3 && block_height > water_level + 2 {
            return 6;
        }
        return 1;
    } else {
        if has_plant && block_height > water_level && water_level + 2 < max_collumn_height
            && block_height < max_collumn_height + 6 && block_height > max_collumn_height {
            return 5;
        }
        if block_height < underground_height {
            return 1;
        }
        if block_height > max_collumn_height {
            if block_height < water_level {
                return 3;
            } else {
                return 240;
            }
        }
        if block_height == max_collumn_height {
            if block_height > water_level + 2 {
                return 0;
            } else {
                return 6;
            }
        }
        if max_collumn_height - block_height < 3 && block_height > water_level + 2 {
            return 2;
        }
        return 1;
    }
}

/// The block stored for indices `(i, k, j)` of the chunk at `(grid_x, grid_z)`,
/// or 241 when none is stored.
pub fn get_set_block(set_blocks: &SetBlocks, grid_x: i32, grid_z: i32, i: usize, k: usize, j: usize) -> (r: u8)
    ensures
        r == stored_value(set_blocks@, spec_block_key(grid_x as int, grid_z as int, i as int, k as int, j as int)),
{
    let key = block_key(grid_x, grid_z, i as i128, k as i128, j as i128);
    match set_blocks.get(&key) {
        Some(value) => value,
        None => 241,
    }
}

/// Forgets the block stored for indices `(i, k, j)` of the chunk at
/// `(grid_x, grid_z)`.
pub fn remove_key(set_blocks: &mut SetBlocks, grid_x: i32, grid_z: i32, i: usize, k: usize, j: usize)
    ensures
        final(set_blocks)@ == old(set_blocks)@.remove(spec_block_key(grid_x as int, grid_z as int, i as int, k as int, j as int)),
{
    let key = block_key(grid_x, grid_z, i as i128, k as i128, j as i128);
    set_blocks.remove(&key);
}

/// What terrain generation decided for one column of a chunk: the height of
/// its top block above the rock layer, whether it grows a plant, and its biome.
pub type ColumnValues = (u8, bool, u8);

/// Cell `(i2, k2, j2)` comes before cell `(i, k, j)` in the order in which a
/// chunk is filled.
pub open spec fn earlier(i2: int, k2: int, j2: int, i: int, k: int, j: int) -> bool {
    i2 < i || (i2 == i && k2 < k) || (i2 == i && k2 == k && j2 < j)
}

/// A cell of a `w` by `w` by `h` chunk that comes before `(i, k, j)` has the
/// stored-block key `key`.
pub open spec fn key_taken_before(w: int, h: int, grid_x: i32, grid_z: i32, key: Seq<u8>, i: int, k: int, j: int) -> bool {
    exists|i2: int, k2: int, j2: int|
        0 <= i2 < w && 0 <= k2 < w && 0 <= j2 < h && earlier(i2, k2, j2, i, k, j)
            && #[trigger] spec_block_key(grid_x as int, grid_z as int, i2, k2, j2) == key
}

/// The stored blocks once the cells before `(i, k, j)` were filled: a stored
/// leaf that a cell before it has read is used up and dropped. (The store is
/// read row by row, and a row reads it as it was when the row began; see
/// `filled_id`.)
pub open spec fn stored_after(m: Map<Seq<u8>, u8>, w: int, h: int, grid_x: i32, grid_z: i32, i: int, k: int, j: int) -> Map<Seq<u8>, u8> {
    Map::new(
        |key: Seq<u8>| m.contains_key(key) && !(m[key] == 7 && key_taken_before(w, h, grid_x, grid_z, key, i, k, j)),
        |key: Seq<u8>| m[key],
    )
}

/// The kind given to cell `(i, k, j)`: the block stored for it, in the store
/// as it was when row `i` began, when there is one; and otherwise the kind of
/// terrain its column calls for.
pub open spec fn filled_id(
    m: Map<Seq<u8>, u8>, columns: Seq<Seq<ColumnValues>>, w: int, h: int, grid_x: i32, grid_z: i32,
    water_level: u8, underground_height: u8, i: int, k: int, j: int,
) -> u8 {
    let v = stored_value(stored_after(m, w, h, grid_x, grid_z, i, 0, 0), spec_block_key(grid_x as int, grid_z as int, i, k, j));
    let c = columns[i][k];
    if v == 241 {
        spec_block_type((j as u8) as int, underground_height + c.0, water_level as int, c.1, underground_height as int, c.2 as int)
    } else {
        v
    }
}

/// The cells of the chunk before `(i, k, j)` carry their filled kinds; the
/// others are as in `b`.
pub open spec fn filled_before(
    b: Seq<Seq<Seq<BlockView>>>, m: Map<Seq<u8>, u8>, columns: Seq<Seq<ColumnValues>>, grid_x: i32, grid_z: i32,
    water_level: u8, underground_height: u8, i: int, k: int, j: int,
) -> Seq<Seq<Seq<BlockView>>> {
    let w = b.len() as int;
    let h = b[0][0].len() as int;
    Seq::new(b.len(), |x: int| Seq::new(b[x].len(), |y: int| Seq::new(b[x][y].len(), |z: int|
        if earlier(x, y, z, i, k, j) {
            BlockView { id: filled_id(m, columns, w, h, grid_x, grid_z, water_level, underground_height, x, y, z), ..b[x][y][z] }
        } else {
            b[x][y][z]
        })))
}

/// The columns cover the chunk and the kinds of its cells can be computed
/// without a byte sum overflowing.
pub open spec fn fill_in_range(
    b: Seq<Seq<Seq<BlockView>>>, columns: Seq<Seq<ColumnValues>>, water_level: u8, underground_height: u8,
) -> bool {
    let w = b.len() as int;
    let h = b[0][0].len() as int;
    &&& columns.len() >= w
    &&& forall|x: int| 0 <= x < w ==> #[trigger] columns[x].len() >= w
    &&& forall|x: int, y: int| 0 <= x < w && 0 <= y < w ==> underground_height + (#[trigger] columns[x][y]).0 <= 255
    &&& forall|x: int, y: int, z: int| 0 <= x < w && 0 <= y < w && 0 <= z < h ==>
        #[trigger] cell_in_range(columns, water_level, underground_height, x, y, z)
}

/// The kind of the cell at height `z` of column `(x, y)` can be computed
/// without a byte sum overflowing.
pub open spec fn cell_in_range(columns: Seq<Seq<ColumnValues>>, water_level: u8, underground_height: u8, x: int, y: int, z: int) -> bool {
    block_type_in_range((z as u8) as int, underground_height + columns[x][y].0, water_level as int,
        columns[x][y].1, underground_height as int, columns[x][y].2 as int)
}

/// A cell of row `i` before `(i, k, j)` has the key `key`.
#[verifier::opaque]
pub open spec fn row_taken(w: int, h: int, grid_x: i32, grid_z: i32, key: Seq<u8>, i: int, k: int, j: int) -> bool {
    exists|k2: int, j2: int|
        0 <= k2 < w && 0 <= j2 < h && earlier(i, k2, j2, i, k, j)
            && #[trigger] spec_block_key(grid_x as int, grid_z as int, i, k2, j2) == key
}

/// Some of the first `n` cells `(i, k, j)` listed in `used` has the key `key`.
pub open spec fn listed(used: Seq<(usize, usize)>, n: int, grid_x: i32, grid_z: i32, i: int, key: Seq<u8>) -> bool {
    exists|t: int| 0 <= t < n && #[trigger] spec_block_key(grid_x as int, grid_z as int, i, used[t].0 as int, used[t].1 as int) == key
}

proof fn lemma_row_roll_column(w: int, h: int, grid_x: i32, grid_z: i32, i: int, k: int)
    requires
        h >= 0,
    ensures
        forall|key: Seq<u8>| row_taken(w, h, grid_x, grid_z, key, i, k, h) == row_taken(w, h, grid_x, grid_z, key, i, k + 1, 0),
{
    reveal(row_taken);
    assert forall|key: Seq<u8>| row_taken(w, h, grid_x, grid_z, key, i, k, h) == row_taken(w, h, grid_x, grid_z, key, i, k + 1, 0) by {
        if row_taken(w, h, grid_x, grid_z, key, i, k, h) {
            let (k2, j2) = choose|k2: int, j2: int|
                0 <= k2 < w && 0 <= j2 < h && earlier(i, k2, j2, i, k, h)
                    && #[trigger] spec_block_key(grid_x as int, grid_z as int, i, k2, j2) == key;
            assert(earlier(i, k2, j2, i, k + 1, 0));
        }
        if row_taken(w, h, grid_x, grid_z, key, i, k + 1, 0) {
            let (k2, j2) = choose|k2: int, j2: int|
                0 <= k2 < w && 0 <= j2 < h && earlier(i, k2, j2, i, k + 1, 0)
                    && #[trigger] spec_block_key(grid_x as int, grid_z as int, i, k2, j2) == key;
            assert(earlier(i, k2, j2, i, k, h));
        }
    }
}

proof fn lemma_row_step_cell(w: int, h: int, grid_x: i32, grid_z: i32, i: int, k: int, j: int)
    requires
        0 <= k < w,
        0 <= j < h,
    ensures
        forall|key2: Seq<u8>| row_taken(w, h, grid_x, grid_z, key2, i, k, j + 1)
            == (row_taken(w, h, grid_x, grid_z, key2, i, k, j) || key2 == spec_block_key(grid_x as int, grid_z as int, i, k, j)),
{
    reveal(row_taken);
    let key = spec_block_key(grid_x as int, grid_z as int, i, k, j);
    assert forall|key2: Seq<u8>| row_taken(w, h, grid_x, grid_z, key2, i, k, j + 1)
        == (row_taken(w, h, grid_x, grid_z, key2, i, k, j) || key2 == key) by {
        if row_taken(w, h, grid_x, grid_z, key2, i, k, j + 1) {
            let (k2, j2) = choose|k2: int, j2: int|
                0 <= k2 < w && 0 <= j2 < h && earlier(i, k2, j2, i, k, j + 1)
                    && #[trigger] spec_block_key(grid_x as int, grid_z as int, i, k2, j2) == key2;
            if !(k2 == k && j2 == j) {
                assert(earlier(i, k2, j2, i, k, j));
            }
        }
        if key2 == key {
            assert(earlier(i, k, j, i, k, j + 1));
        }
        if row_taken(w, h, grid_x, grid_z, key2, i, k, j) {
            let (k2, j2) = choose|k2: int, j2: int|
                0 <= k2 < w && 0 <= j2 < h && earlier(i, k2, j2, i, k, j)
                    && #[trigger] spec_block_key(grid_x as int, grid_z as int, i, k2, j2) == key2;
            assert(earlier(i, k2, j2, i, k, j + 1));
        }
    }
}

/// The store once row `i` is done is the store it began with, less the
/// leaves that a cell of the row read.
proof fn lemma_row_done(m: Map<Seq<u8>, u8>, w: int, h: int, grid_x: i32, grid_z: i32, i: int)
    requires
        0 <= i < w,
    ensures
        ({
            let s = stored_after(m, w, h, grid_x, grid_z, i, 0, 0);
            stored_after(m, w, h, grid_x, grid_z, i + 1, 0, 0) =~= Map::new(
                |key: Seq<u8>| s.contains_key(key) && !(s[key] == 7 && row_taken(w, h, grid_x, grid_z, key, i, w, 0)),
                |key: Seq<u8>| s[key],
            )
        }),
{
    reveal(row_taken);
    assert forall|key: Seq<u8>| key_taken_before(w, h, grid_x, grid_z, key, i + 1, 0, 0)
        == (key_taken_before(w, h, grid_x, grid_z, key, i, 0, 0) || row_taken(w, h, grid_x, grid_z, key, i, w, 0)) by {
        if key_taken_before(w, h, grid_x, grid_z, key, i + 1, 0, 0) {
            let (i2, k2, j2) = choose|i2: int, k2: int, j2: int|
                0 <= i2 < w && 0 <= k2 < w && 0 <= j2 < h && earlier(i2, k2, j2, i + 1, 0, 0)
                    && #[trigger] spec_block_key(grid_x as int, grid_z as int, i2, k2, j2) == key;
            if i2 < i {
                assert(earlier(i2, k2, j2, i, 0, 0));
            } else {
                assert(earlier(i, k2, j2, i, w, 0));
            }
        }
        if key_taken_before(w, h, grid_x, grid_z, key, i, 0, 0) {
            let (i2, k2, j2) = choose|i2: int, k2: int, j2: int|
                0 <= i2 < w && 0 <= k2 < w && 0 <= j2 < h && earlier(i2, k2, j2, i, 0, 0)
                    && #[trigger] spec_block_key(grid_x as int, grid_z as int, i2, k2, j2) == key;
            assert(earlier(i2, k2, j2, i + 1, 0, 0));
        }
        if row_taken(w, h, grid_x, grid_z, key, i, w, 0) {
            let (k2, j2) = choose|k2: int, j2: int|
                0 <= k2 < w && 0 <= j2 < h && earlier(i, k2, j2, i, w, 0)
                    && #[trigger] spec_block_key(grid_x as int, grid_z as int, i, k2, j2) == key;
            assert(0 <= i < w);
            assert(earlier(i, k2, j2, i + 1, 0, 0));
        }
    }
}

/// Gives every block of the chunk its kind: the block stored for it if any,
/// and otherwise the terrain kind of its column and height. Each row reads
/// the store as it was when the row began; the leaves a row read are then
/// dropped from the store.
pub fn fill_blocks(
    blocks: &mut Vec<Vec<Vec<Block>>>,
    columns: &Vec<Vec<ColumnValues>>,
    set_blocks: &mut SetBlocks,
    grid_x: i32,
    grid_z: i32,
    water_level: u8,
    underground_height: u8,
    sky_height: u8,
    mid_height: u8,
)
    requires
        chunk_square(old(blocks).deep_view()),
        fill_in_range(old(blocks).deep_view(), columns.deep_view(), water_level, underground_height),
        mid_height + underground_height + sky_height <= 255,
    ensures
        final(blocks).deep_view() =~~= filled_before(old(blocks).deep_view(), old(set_blocks)@, columns.deep_view(), grid_x, grid_z,
            water_level, underground_height, old(blocks).deep_view().len() as int, 0, 0),
        final(set_blocks)@ =~= stored_after(old(set_blocks)@, old(blocks).deep_view().len() as int,
            old(blocks).deep_view()[0][0].len() as int, grid_x, grid_z, old(blocks).deep_view().len() as int, 0, 0),
{
    let ghost b0 = blocks.deep_view();
    let ghost m0 = set_blocks@;
    let ghost w = b0.len() as int;
    let ghost h = b0[0][0].len() as int;
    let n = blocks.len();
    let mut i: usize = 0;
    while i < n
        invariant
            n == w,
            0 <= i <= n,
            chunk_square(b0),
            h == b0[0][0].len(),
            w == b0.len(),
            fill_in_range(b0, columns.deep_view(), water_level, underground_height),
            mid_height + underground_height + sky_height <= 255,
            blocks.deep_view() =~~= filled_before(b0, m0, columns.deep_view(), grid_x, grid_z, water_level, underground_height, i as int, 0, 0),
            set_blocks@ =~= stored_after(m0, w, h, grid_x, grid_z, i as int, 0, 0),
        decreases n - i,
    {
        let ghost s = set_blocks@;
        let mut used: Vec<(usize, usize)> = Vec::new();
        assert forall|key: Seq<u8>| #![trigger listed(used@, used@.len() as int, grid_x, grid_z, i as int, key)] listed(used@, used@.len() as int, grid_x, grid_z, i as int, key)
            == (s.contains_key(key) && s[key] == 7 && row_taken(w, h, grid_x, grid_z, key, i as int, 0, 0)) by {
            reveal(row_taken);
            if row_taken(w, h, grid_x, grid_z, key, i as int, 0, 0) {
                let (k2, j2) = choose|k2: int, j2: int|
                    0 <= k2 < w && 0 <= j2 < h && earlier(i as int, k2, j2, i as int, 0, 0)
                        && #[trigger] spec_block_key(grid_x as int, grid_z as int, i as int, k2, j2) == key;
            }
        }
        assert(b0[i as int].len() == w);
        assert(blocks.deep_view()[i as int].len() == blocks@[i as int]@.len());
        let row_len = blocks[i].len();
        let mut k: usize = 0;
        while k < row_len
            invariant
                n == w,
                0 <= i < n,
                row_len == w,
                0 <= k <= row_len,
                chunk_square(b0),
                h == b0[0][0].len(),
                w == b0.len(),
                fill_in_range(b0, columns.deep_view(), water_level, underground_height),
                mid_height + underground_height + sky_height <= 255,
                blocks.deep_view() =~~= filled_before(b0, m0, columns.deep_view(), grid_x, grid_z, water_level, underground_height, i as int, k as int, 0),
                s == stored_after(m0, w, h, grid_x, grid_z, i as int, 0, 0),
                set_blocks@ == s,
                forall|key: Seq<u8>| #![trigger listed(used@, used@.len() as int, grid_x, grid_z, i as int, key)] listed(used@, used@.len() as int, grid_x, grid_z, i as int, key)
                    == (s.contains_key(key) && s[key] == 7 && row_taken(w, h, grid_x, grid_z, key, i as int, k as int, 0)),
            decreases row_len - k,
        {
            assert(columns.deep_view()[i as int].len() >= w);
            let col = columns[i][k];
            assert(b0[i as int][k as int].len() == h);
            assert(blocks.deep_view()[i as int][k as int].len() == blocks@[i as int]@[k as int]@.len()) by {
                let fb = filled_before(b0, m0, columns.deep_view(), grid_x, grid_z, water_level, underground_height, i as int, k as int, 0);
                assert(fb.len() == w);
                assert(blocks.deep_view().len() == w);
                assert(blocks@.len() == w);
                assert(blocks.deep_view()[i as int] == blocks@[i as int].deep_view());
                assert(fb[i as int].len() == w);
                assert(fb[i as int][k as int].len() == h);
            }
            let col_len = blocks[i][k].len();
            let mut j: usize = 0;
            while j < col_len
                invariant
                    n == w,
                    0 <= i < n,
                    row_len == w,
                    0 <= k < row_len,
                    col_len == h,
                    0 <= j <= col_len,
                    col == columns.deep_view()[i as int][k as int],
                    chunk_square(b0),
                    h == b0[0][0].len(),
                    w == b0.len(),
                    fill_in_range(b0, columns.deep_view(), water_level, underground_height),
                    mid_height + underground_height + sky_height <= 255,
                    blocks.deep_view() =~~= filled_before(b0, m0, columns.deep_view(), grid_x, grid_z, water_level, underground_height, i as int, k as int, j as int),
                    s == stored_after(m0, w, h, grid_x, grid_z, i as int, 0, 0),
                    set_blocks@ == s,
                    forall|key: Seq<u8>| #![trigger listed(used@, used@.len() as int, grid_x, grid_z, i as int, key)] listed(used@, used@.len() as int, grid_x, grid_z, i as int, key)
                        == (s.contains_key(key) && s[key] == 7 && row_taken(w, h, grid_x, grid_z, key, i as int, k as int, j as int)),
                decreases col_len - j,
            {
                let ghost cell_key = spec_block_key(grid_x as int, grid_z as int, i as int, k as int, j as int);
                let ghost old_used = used@;
                let mut number = get_set_block(set_blocks, grid_x, grid_z, i, k, j);
                if number == 7 {
                    used.push((k, j));
                }
                proof {
                    lemma_row_step_cell(w, h, grid_x, grid_z, i as int, k as int, j as int);
                    assert forall|key: Seq<u8>| #![trigger listed(used@, used@.len() as int, grid_x, grid_z, i as int, key)] listed(used@, used@.len() as int, grid_x, grid_z, i as int, key)
                        == (listed(old_used, old_used.len() as int, grid_x, grid_z, i as int, key) || (number == 7 && key == cell_key)) by {
                        if listed(used@, used@.len() as int, grid_x, grid_z, i as int, key) {
                            let t = choose|t: int| 0 <= t < used@.len()
                                && #[trigger] spec_block_key(grid_x as int, grid_z as int, i as int, used@[t].0 as int, used@[t].1 as int) == key;
                            if t < old_used.len() {
                                assert(used@[t] == old_used[t]);
                            } else {
                                assert(number == 7);
                                assert(used@[t] == (k, j));
                                assert(key == cell_key);
                            }
                        }
                        if listed(old_used, old_used.len() as int, grid_x, grid_z, i as int, key) {
                            let t = choose|t: int| 0 <= t < old_used.len()
                                && #[trigger] spec_block_key(grid_x as int, grid_z as int, i as int, old_used[t].0 as int, old_used[t].1 as int) == key;
                            assert(used@[t] == old_used[t]);
                            assert(spec_block_key(grid_x as int, grid_z as int, i as int, used@[t].0 as int, used@[t].1 as int) == key);
                        }
                        if number == 7 && key == cell_key {
                            let t = old_used.len() as int;
                            assert(used@[t] == (k, j));
                            assert(spec_block_key(grid_x as int, grid_z as int, i as int, used@[t].0 as int, used@[t].1 as int) == key);
                        }
                    }
                }
                if number == 241 {
                    assert(cell_in_range(columns.deep_view(), water_level, underground_height, i as int, k as int, j as int));
                    number = get_block_type(#[verifier::truncate] (j as u8), underground_height + col.0, water_level, col.1,
                        underground_height, sky_height, mid_height + underground_height + sky_height, col.2);
                }
                assert(number == filled_id(m0, columns.deep_view(), w, h, grid_x, grid_z, water_level, underground_height,
                    i as int, k as int, j as int));
                let ghost before = blocks.deep_view();
                assert(before[i as int] == blocks@[i as int].deep_view());
                assert(before[i as int][k as int] == blocks@[i as int]@[k as int].deep_view());
                blocks[i][k][j].regenerate(number);
                proof {
                    let after = blocks.deep_view();
                    let target = filled_before(b0, m0, columns.deep_view(), grid_x, grid_z, water_level, underground_height, i as int, k as int, j + 1);
                    assert(after[i as int] == blocks@[i as int].deep_view());
                    assert(after[i as int][k as int] == blocks@[i as int]@[k as int].deep_view());
                    assert forall|x: int| 0 <= x < after.len() implies #[trigger] after[x] =~~= target[x] by {
                        assert(b0[x].len() == w);
                        if x == i {
                            assert forall|y: int| 0 <= y < after[x].len() implies #[trigger] after[x][y] =~~= target[x][y] by {
                                assert(b0[x][y].len() == h);
                                if y == k {
                                    assert forall|z: int| 0 <= z < after[x][y].len() implies #[trigger] after[x][y][z] == target[x][y][z] by {
                                        if z == j {
                                            assert(after[x][y] == blocks@[i as int]@[k as int].deep_view());
                                            assert(after[x][y][z] == blocks@[i as int]@[k as int]@[j as int]@);
                                            assert(before[x][y][z] == b0[x][y][z]);
                                        } else {
                                            assert(after[x][y][z] == before[x][y][z]);
                                        }
                                    }
                                } else {
                                    assert(after[x][y] == before[x][y]);
                                }
                            }
                        } else {
                            assert(after[x] == before[x]);
                        }
                    }
                }
                j = j + 1;
            }
            proof {
                lemma_row_roll_column(w, h, grid_x, grid_z, i as int, k as int);
                let a = filled_before(b0, m0, columns.deep_view(), grid_x, grid_z, water_level, underground_height, i as int, k as int, h);
                let c = filled_before(b0, m0, columns.deep_view(), grid_x, grid_z, water_level, underground_height, i as int, k + 1, 0);
                assert forall|x: int| 0 <= x < a.len() implies #[trigger] a[x] =~~= c[x] by {
                    assert(b0[x].len() == w);
                    assert forall|y: int| 0 <= y < a[x].len() implies #[trigger] a[x][y] =~~= c[x][y] by {
                        assert(b0[x][y].len() == h);
                    }
                }
            }
            k = k + 1;
        }
        let mut r: usize = 0;
        while r < used.len()
            invariant
                0 <= r <= used@.len(),
                set_blocks@ =~= Map::new(
                    |key: Seq<u8>| s.contains_key(key) && !listed(used@, r as int, grid_x, grid_z, i as int, key),
                    |key: Seq<u8>| s[key],
                ),
            decreases used@.len() - r,
        {
            let ghost before = set_blocks@;
            let ghost rkey = spec_block_key(grid_x as int, grid_z as int, i as int, used@[r as int].0 as int, used@[r as int].1 as int);
            remove_key(set_blocks, grid_x, grid_z, i, used[r].0, used[r].1);
            proof {
                assert forall|key: Seq<u8>| listed(used@, r + 1, grid_x, grid_z, i as int, key)
                    == (listed(used@, r as int, grid_x, grid_z, i as int, key) || key == rkey) by {
                    if listed(used@, r + 1, grid_x, grid_z, i as int, key) {
                        let t = choose|t: int| 0 <= t < r + 1
                            && #[trigger] spec_block_key(grid_x as int, grid_z as int, i as int, used@[t].0 as int, used@[t].1 as int) == key;
                    }
                    if key == rkey {
                        assert(spec_block_key(grid_x as int, grid_z as int, i as int, used@[r as int].0 as int, used@[r as int].1 as int) == key);
                    }
                }
                assert(set_blocks@ =~= Map::new(
                    |key: Seq<u8>| s.contains_key(key) && !listed(used@, r + 1, grid_x, grid_z, i as int, key),
                    |key: Seq<u8>| s[key],
                ));
            }
            r = r + 1;
        }
        proof {
            lemma_row_done(m0, w, h, grid_x, grid_z, i as int);
            assert(set_blocks@ =~= stored_after(m0, w, h, grid_x, grid_z, i + 1, 0, 0));
            let a = filled_before(b0, m0, columns.deep_view(), grid_x, grid_z, water_level, underground_height, i as int, w, 0);
            let c = filled_before(b0, m0, columns.deep_view(), grid_x, grid_z, water_level, underground_height, i + 1, 0, 0);
            assert forall|x: int| 0 <= x < a.len() implies #[trigger] a[x] =~~= c[x] by {
                assert(b0[x].len() == w);
            }
        }
        i = i + 1;
    }
}

/// A fresh `w` by `w` by `h` block array of stone.
pub open spec fn fresh_blocks(w: int, h: int) -> Seq<Seq<Seq<BlockView>>> {
    Seq::new(w as nat, |x: int| Seq::new(w as nat, |y: int| Seq::new(h as nat, |z: int|
        BlockView { id: 1, visible: true, sides: Seq::empty() })))
}

/// Builds a fresh `w` by `w` by `h` block array of stone.
pub fn new_blocks(w: usize, h: usize) -> (b: Vec<Vec<Vec<Block>>>)
    ensures
        b.deep_view() =~~= fresh_blocks(w as int, h as int),
{
    let mut b: Vec<Vec<Vec<Block>>> = Vec::new();
    let mut i: usize = 0;
    while i < w
        invariant
            i <= w,
            b@.len() == i,
            forall|x: int| 0 <= x < i ==> (#[trigger] b@[x]).deep_view() =~~= fresh_blocks(w as int, h as int)[0],
        decreases w - i,
    {
        let mut row: Vec<Vec<Block>> = Vec::new();
        let mut k: usize = 0;
        while k < w
            invariant
                k <= w,
                row@.len() == k,
                forall|y: int| 0 <= y < k ==> (#[trigger] row@[y]).deep_view() =~~= fresh_blocks(w as int, h as int)[0][0],
            decreases w - k,
        {
            let mut col: Vec<Block> = Vec::new();
            let mut j: usize = 0;
            while j < h
                invariant
                    j <= h,
                    col@.len() == j,
                    forall|z: int| 0 <= z < j ==> (#[trigger] col@[z])@ == (BlockView { id: 1, visible: true, sides: Seq::empty() }),
                decreases h - j,
            {
                col.push(Block::init(1));
                j = j + 1;
            }
            assert(col.deep_view() =~~= fresh_blocks(w as int, h as int)[0][0]);
            row.push(col);
            k = k + 1;
        }
        assert(row.deep_view() =~~= fresh_blocks(w as int, h as int)[0]);
        b.push(row);
        i = i + 1;
    }
    assert forall|x: int| 0 <= x < w implies #[trigger] b.deep_view()[x] =~~= fresh_blocks(w as int, h as int)[x] by {
        assert(b.deep_view()[x] == b@[x].deep_view());
    }
    b
}

/// The trunk tops of the trees a chunk grows: grid coordinates and block
/// indices.
pub type TreeSite = (i32, i32, usize, usize, usize);

/// The effect of planting the trees of `trees` in order.
pub open spec fn planted_all(
    s: TreeState, chunk_i: usize, chunk_k: usize, chunk_distance: usize, j_max: usize, trees: Seq<TreeSite>,
) -> TreeState
    decreases trees.len(),
{
    if trees.len() == 0 {
        s
    } else {
        let t = trees.last();
        planted(planted_all(s, chunk_i, chunk_k, chunk_distance, j_max, trees.drop_last()),
            chunk_i, chunk_k, t.0, t.1, (t.2 as isize) as int, (t.3 as isize) as int, t.4 as int, chunk_distance, j_max,
            tree_offsets())
    }
}

/// The blocks a chunk starts from: its own when it is generated again, fresh
/// stone otherwise.
pub open spec fn base_blocks(old_blocks: Seq<Seq<Seq<BlockView>>>, overwrite: bool, w: int, h: int) -> Seq<Seq<Seq<BlockView>>> {
    if overwrite { old_blocks } else { fresh_blocks(w, h) }
}

/// The state after a chunk was generated: its blocks filled from the columns
/// and the stored blocks, then the trees planted.
pub open spec fn generated(
    s: TreeState, overwrite: bool, w: int, h: int, columns: Seq<Seq<ColumnValues>>, trees: Seq<TreeSite>,
    chunk_i: usize, chunk_k: usize, grid_x: i32, grid_z: i32, water_level: u8, underground_height: u8, chunk_distance: usize,
) -> TreeState {
    let b1 = base_blocks(s.blocks, overwrite, w, h);
    let hh = b1[0][0].len() as int;
    let ww = b1.len() as int;
    let filled = TreeState {
        blocks: filled_before(b1, s.set_blocks, columns, grid_x, grid_z, water_level, underground_height, ww, 0, 0),
        change_block: s.change_block,
        set_blocks: stored_after(s.set_blocks, ww, hh, grid_x, grid_z, ww, 0, 0),
    };
    planted_all(filled, chunk_i, chunk_k, chunk_distance, h as usize, trees)
}

proof fn lemma_filled_shape(
    b: Seq<Seq<Seq<BlockView>>>, m: Map<Seq<u8>, u8>, columns: Seq<Seq<ColumnValues>>, grid_x: i32, grid_z: i32,
    water_level: u8, underground_height: u8, i: int, k: int, j: int,
)
    requires
        chunk_square(b),
    ensures
        ({
            let f = filled_before(b, m, columns, grid_x, grid_z, water_level, underground_height, i, k, j);
            &&& chunk_square(f)
            &&& f.len() == b.len()
            &&& f[0].len() == b[0].len()
            &&& f[0][0].len() == b[0][0].len()
        }),
{
    let f = filled_before(b, m, columns, grid_x, grid_z, water_level, underground_height, i, k, j);
    assert(b[0].len() == b.len());
    assert forall|x: int| 0 <= x < b.len() implies #[trigger] f[x].len() == b.len() by {
        assert(b[x].len() == b.len());
    }
    assert forall|x: int, y: int| 0 <= x < b.len() && 0 <= y < b.len() implies #[trigger] f[x][y].len() == b[0][0].len() by {
        assert(b[x].len() == b.len());
        assert(b[x][y].len() == b[0][0].len());
    }
}

/// Generates a chunk's blocks from the terrain decided for its columns and
/// from the stored blocks, then plants its trees; see `generated`. Unless
/// `overwrite`, the chunk starts from fresh stone of the chunk's width and
/// of height `mid_height + underground_height + sky_height`.
pub fn generate_chunk(
    change_block: &mut Vec<ChangeBlock>,
    chunk_i: usize,
    chunk_k: usize,
    blocks: &mut Vec<Vec<Vec<Block>>>,
    square_chunk_width: usize,
    columns: &Vec<Vec<ColumnValues>>,
    trees: &Vec<TreeSite>,
    grid_x: i32,
    grid_z: i32,
    mid_height: u8,
    underground_height: u8,
    sky_height: u8,
    overwrite: bool,
    set_blocks: &mut SetBlocks,
    chunk_distance: usize,
)
    requires
        underground_height <= 244,
        mid_height + underground_height + sky_height <= 255,
        !overwrite ==> old(blocks)@.len() == 0 && square_chunk_width >= 1 && mid_height + underground_height + sky_height >= 1,
        overwrite ==> chunk_square(old(blocks).deep_view()),
        fill_in_range(base_blocks(old(blocks).deep_view(), overwrite, square_chunk_width as int,
            (mid_height + underground_height + sky_height) as int), columns.deep_view(), (11 + underground_height) as u8, underground_height),
        forall|t: int| 0 <= t < trees@.len() ==> tree_in_range(
            width_of(base_blocks(old(blocks).deep_view(), overwrite, square_chunk_width as int, (mid_height + underground_height + sky_height) as int)),
            height_of(base_blocks(old(blocks).deep_view(), overwrite, square_chunk_width as int, (mid_height + underground_height + sky_height) as int)),
            chunk_i, chunk_k, (#[trigger] trees@[t]).0, trees@[t].1, trees@[t].2, trees@[t].3, trees@[t].4, chunk_distance,
            (mid_height + underground_height + sky_height) as usize),
    ensures
        tree_state(final(blocks), final(change_block), final(set_blocks)) =~~= generated(
            tree_state(old(blocks), old(change_block), old(set_blocks)), overwrite, square_chunk_width as int,
            (mid_height + underground_height + sky_height) as int, columns.deep_view(), trees@, chunk_i, chunk_k, grid_x, grid_z,
            (11 + underground_height) as u8, underground_height, chunk_distance),
        ({
            let b = base_blocks(old(blocks).deep_view(), overwrite, square_chunk_width as int,
                (mid_height + underground_height + sky_height) as int);
            &&& chunk_square(final(blocks).deep_view())
            &&& final(blocks).deep_view().len() == b.len()
            &&& final(blocks).deep_view()[0][0].len() == b[0][0].len()
        }),
{
    let water_level: u8 = 11 + underground_height;
    let height: u8 = mid_height + underground_height + sky_height;
    let ghost s0 = tree_state(blocks, change_block, set_blocks);
    if !overwrite {
        *blocks = new_blocks(square_chunk_width, height as usize);
    }
    let ghost b1 = blocks.deep_view();
    assert(b1 =~~= base_blocks(s0.blocks, overwrite, square_chunk_width as int, height as int));
    assert(b1[0].len() == b1.len());
    fill_blocks(blocks, columns, set_blocks, grid_x, grid_z, water_level, underground_height, sky_height, mid_height);
    proof {
        lemma_filled_shape(b1, s0.set_blocks, columns.deep_view(), grid_x, grid_z, water_level, underground_height, b1.len() as int, 0, 0);
    }
    let ghost s1 = tree_state(blocks, change_block, set_blocks);
    assert(chunk_shape(blocks.deep_view()));
    assert(width_of(blocks.deep_view()) == width_of(b1));
    let mut t: usize = 0;
    while t < trees.len()
        invariant
            t <= trees@.len(),
            chunk_shape(blocks.deep_view()),
            width_of(blocks.deep_view()) == width_of(b1),
            height_of(blocks.deep_view()) == height_of(b1),
            forall|u: int| 0 <= u < trees@.len() ==> tree_in_range(width_of(b1), height_of(b1),
                chunk_i, chunk_k, (#[trigger] trees@[u]).0, trees@[u].1, trees@[u].2, trees@[u].3, trees@[u].4, chunk_distance,
                height as usize),
            tree_state(blocks, change_block, set_blocks) =~~= planted_all(s1, chunk_i, chunk_k, chunk_distance, height as usize,
                trees@.take(t as int)),
        decreases trees@.len() - t,
    {
        let tree = trees[t];
        assert(tree_in_range(width_of(b1), height_of(b1), chunk_i, chunk_k, tree.0, tree.1, tree.2, tree.3, tree.4, chunk_distance, height as usize));
        let ghost before = blocks.deep_view();
        set_tree(change_block, chunk_i, chunk_k, blocks, set_blocks, tree.0, tree.1, tree.2, tree.3, tree.4, chunk_distance,
            height as usize);
        proof {
            let after = blocks.deep_view();
            assert(after[0].len() == before[0].len());
            assert(after[0][0].len() == before[0][0].len());
            assert forall|x: int| 0 <= x < width_of(after) implies #[trigger] after[x].len() == width_of(after) by {
                assert(before[x].len() == width_of(before));
            }
            assert forall|x: int, y: int| 0 <= x < width_of(after) && 0 <= y < width_of(after) implies #[trigger] after[x][y].len() == height_of(after) by {
                assert(before[x].len() == width_of(before));
                assert(before[x][y].len() == height_of(before));
            }
        }
        assert(trees@.take(t + 1).drop_last() =~= trees@.take(t as int));
        t = t + 1;
    }
    assert(trees@.take(trees@.len() as int) =~= trees@);
}

/// The six corners of face `side` of the block of kind `id` at `(i, k, j)`.
pub open spec fn face_vertices(i: usize, k: usize, j: usize, side: int, id: u8) -> Seq<MeshVertex> {
    Seq::new(6, |c: int| MeshVertex { i, k, j, side: side as usize, corner: c as usize, block_id: id })
}

/// The corners of the first `n` entries of `sides` that are shown faces;
/// entries past the sixth name no face.
pub open spec fn faces_mesh(b: BlockView, i: usize, k: usize, j: usize, n: int) -> Seq<MeshVertex>
    decreases n,
{
    if n <= 0 {
        Seq::empty()
    } else {
        faces_mesh(b, i, k, j, n - 1) + if b.sides[n - 1] && n - 1 < 6 {
            face_vertices(i, k, j, n - 1, b.id)
        } else {
            Seq::empty()
        }
    }
}

/// The mesh of a block: the corners of its shown faces when it is drawn.
pub open spec fn block_mesh(b: BlockView, i: usize, k: usize, j: usize) -> Seq<MeshVertex> {
    if b.visible { faces_mesh(b, i, k, j, b.sides.len() as int) } else { Seq::empty() }
}

/// A drawn corner is see-through when its block is water.
pub open spec fn transparency(v: MeshVertex) -> bool {
    v.block_id == WATER_ID
}

pub open spec fn transparencies_of(vs: Seq<MeshVertex>) -> Seq<bool> {
    vs.map_values(|v: MeshVertex| transparency(v))
}

impl Block {
    /// Appends the mesh of this block, placed at `(i, k, j)` of its chunk, and
    /// whether each corner is see-through.
    pub fn get_mesh(&self, i: usize, k: usize, j: usize, vertices: &mut Vec<MeshVertex>, transparencies: &mut Vec<bool>)
        ensures
            final(vertices)@ == old(vertices)@ + block_mesh(self@, i, k, j),
            final(transparencies)@ == old(transparencies)@ + transparencies_of(block_mesh(self@, i, k, j)),
    {
        if self.visible {
            let mut t: usize = 0;
            while t < self.sides.len()
                invariant
                    t <= self.sides@.len(),
                    self.visible,
                    vertices@ == old(vertices)@ + faces_mesh(self@, i, k, j, t as int),
                    transparencies@ == old(transparencies)@ + transparencies_of(faces_mesh(self@, i, k, j, t as int)),
                decreases self.sides@.len() - t,
            {
                let ghost vs0 = vertices@;
                let ghost ts0 = transparencies@;
                if self.sides[t] && t < 6 {
                    let mut n: usize = 0;
                    while n < 6
                        invariant
                            n <= 6,
                            t < 6,
                            vertices@ == vs0 + face_vertices(i, k, j, t as int, self.id).take(n as int),
                            transparencies@ == ts0 + transparencies_of(face_vertices(i, k, j, t as int, self.id).take(n as int)),
                        decreases 6 - n,
                    {
                        let v = MeshVertex { i, k, j, side: t, corner: n, block_id: self.id };
                        vertices.push(v);
                        transparencies.push(self.is_transparent());
                        assert(face_vertices(i, k, j, t as int, self.id).take(n + 1) =~= face_vertices(i, k, j, t as int, self.id).take(n as int).push(v));
                        assert(vertices@ =~= vs0 + face_vertices(i, k, j, t as int, self.id).take(n + 1));
                        assert(transparencies@ =~= ts0 + transparencies_of(face_vertices(i, k, j, t as int, self.id).take(n + 1)));
                        n = n + 1;
                    }
                    assert(face_vertices(i, k, j, t as int, self.id).take(6) =~= face_vertices(i, k, j, t as int, self.id));
                }
                assert(faces_mesh(self@, i, k, j, t + 1) == faces_mesh(self@, i, k, j, t as int) + if self@.sides[t as int] && t < 6 {
                    face_vertices(i, k, j, t as int, self.id)
                } else {
                    Seq::empty()
                });
                assert(vertices@ =~= old(vertices)@ + faces_mesh(self@, i, k, j, t + 1));
                assert(transparencies@ =~= old(transparencies)@ + transparencies_of(faces_mesh(self@, i, k, j, t + 1)));
                t = t + 1;
            }
        } else {
            assert(vertices@ =~= old(vertices)@ + block_mesh(self@, i, k, j));
            assert(transparencies@ =~= old(transparencies)@ + transparencies_of(block_mesh(self@, i, k, j)));
        }
    }
}

/// The meshes of blocks `(i, 0, j)` to `(i, n - 1, j)`.
pub open spec fn row_mesh(b: Seq<Seq<Seq<BlockView>>>, i: int, j: int, n: int) -> Seq<MeshVertex>
    decreases n,
{
    if n <= 0 {
        Seq::empty()
    } else {
        row_mesh(b, i, j, n - 1) + block_mesh(b[i][n - 1][j], i as usize, (n - 1) as usize, j as usize)
    }
}

/// The meshes of layer `j` of rows `0` to `n - 1`.
pub open spec fn layer_mesh(b: Seq<Seq<Seq<BlockView>>>, j: int, n: int) -> Seq<MeshVertex>
    decreases n,
{
    if n <= 0 {
        Seq::empty()
    } else {
        layer_mesh(b, j, n - 1) + row_mesh(b, n - 1, j, b[n - 1].len() as int)
    }
}

/// The mesh of layers `0` to `n - 1` that are marked visible, layer by layer.
pub open spec fn chunk_mesh(b: Seq<Seq<Seq<BlockView>>>, layers: Seq<bool>, n: int) -> Seq<MeshVertex>
    decreases n,
{
    if n <= 0 {
        Seq::empty()
    } else {
        chunk_mesh(b, layers, n - 1) + if layers[n - 1] { layer_mesh(b, n - 1, b.len() as int) } else { Seq::empty() }
    }
}

/// The corners of `vs` sorted into those that are opaque and those that are
/// see-through, by the first `n` flags of `ts`, keeping their order.
pub open spec fn split_mesh(vs: Seq<MeshVertex>, ts: Seq<bool>, n: int) -> (Seq<MeshVertex>, Seq<MeshVertex>)
    decreases n,
{
    if n <= 0 {
        (Seq::empty(), Seq::empty())
    } else {
        let p = split_mesh(vs, ts, n - 1);
        if ts[n - 1] != true { (p.0.push(vs[n - 1]), p.1) } else { (p.0, p.1.push(vs[n - 1])) }
    }
}

/// Layer `m` of the blocks holds a visible block.
pub open spec fn layer_visible(b: Seq<Seq<Seq<BlockView>>>, m: int) -> bool {
    exists|x: int, y: int| 0 <= x < b.len() && 0 <= y < b[x].len() && (#[trigger] b[x][y][m]).visible
}

impl Chunk {
    /// Generates a chunk at indices `(i, k)` of the world's grid and grid
    /// coordinates `(grid_x, grid_z)` from the terrain decided for its
    /// columns; its blocks are those of `generate_chunk` from fresh stone,
    /// and it has no mesh and no visible layers yet.
    pub fn init(
        change_block: &mut Vec<ChangeBlock>,
        i: usize,
        k: usize,
        grid_x: i32,
        grid_z: i32,
        columns: &Vec<Vec<ColumnValues>>,
        trees: &Vec<TreeSite>,
        square_chunk_width: usize,
        world_gen_seed: u32,
        mid_height: u8,
        set_blocks: &mut SetBlocks,
        underground_height: u8,
        sky_height: u8,
        chunk_distance: usize,
    ) -> (c: Chunk)
        requires
            underground_height <= 244,
            mid_height + underground_height + sky_height <= 255,
            square_chunk_width >= 1,
            mid_height + underground_height + sky_height >= 1,
            fill_in_range(fresh_blocks(square_chunk_width as int, (mid_height + underground_height + sky_height) as int),
                columns.deep_view(), (11 + underground_height) as u8, underground_height),
            forall|t: int| 0 <= t < trees@.len() ==> tree_in_range(square_chunk_width as int,
                (mid_height + underground_height + sky_height) as int,
                i, k, (#[trigger] trees@[t]).0, trees@[t].1, trees@[t].2, trees@[t].3, trees@[t].4, chunk_distance,
                (mid_height + underground_height + sky_height) as usize),
        ensures
            ({
                let g = generated(TreeState { blocks: Seq::empty(), change_block: old(change_block)@, set_blocks: old(set_blocks)@ },
                    false, square_chunk_width as int, (mid_height + underground_height + sky_height) as int, columns.deep_view(),
                    trees@, i, k, grid_x, grid_z, (11 + underground_height) as u8, underground_height, chunk_distance);
                &&& c.deep_view() =~~= (ChunkView {
                    blocks: g.blocks,
                    grid_x,
                    grid_z,
                    vertices: Seq::empty(),
                    transparencies: Seq::empty(),
                    world_gen_seed,
                    underground_height,
                    sky_height,
                    mid_height,
                    chunk_distance,
                    visible_layers: Seq::empty(),
                })
                &&& final(change_block)@ == g.change_block
                &&& final(set_blocks)@ == g.set_blocks
            }),
        is_box(c.deep_view().blocks, square_chunk_width as int, square_chunk_width as int,
            (mid_height + underground_height + sky_height) as int),
    {
        let mut blocks: Vec<Vec<Vec<Block>>> = Vec::new();
        assert(blocks.deep_view() =~~= Seq::empty());
        assert(width_of(fresh_blocks(square_chunk_width as int, (mid_height + underground_height + sky_height) as int)) == square_chunk_width);
        generate_chunk(change_block, i, k, &mut blocks, square_chunk_width, columns, trees, grid_x, grid_z, mid_height,
            underground_height, sky_height, false, set_blocks, chunk_distance);
        Chunk {
            blocks,
            grid_x,
            grid_z,
            vertices: Vec::new(),
            transparencies: Vec::new(),
            world_gen_seed,
            underground_height,
            sky_height,
            mid_height,
            chunk_distance,
            visible_layers: Vec::new(),
        }
    }

    /// Generates the chunk's blocks again, at indices `(i, k)` of the world's
    /// grid, from the terrain decided for its columns; see `generate_chunk`.
    pub fn regenerate(
        &mut self,
        change_block: &mut Vec<ChangeBlock>,
        i: usize,
        k: usize,
        set_blocks: &mut SetBlocks,
        columns: &Vec<Vec<ColumnValues>>,
        trees: &Vec<TreeSite>,
    )
        requires
            old(self).underground_height <= 244,
            old(self).mid_height + old(self).underground_height + old(self).sky_height <= 255,
            chunk_square(old(self).blocks.deep_view()),
            fill_in_range(old(self).blocks.deep_view(), columns.deep_view(), (11 + old(self).underground_height) as u8,
                old(self).underground_height),
            forall|t: int| 0 <= t < trees@.len() ==> tree_in_range(width_of(old(self).blocks.deep_view()),
                height_of(old(self).blocks.deep_view()),
                i, k, (#[trigger] trees@[t]).0, trees@[t].1, trees@[t].2, trees@[t].3, trees@[t].4, old(self).chunk_distance,
                (old(self).mid_height + old(self).underground_height + old(self).sky_height) as usize),
        ensures
            ({
                let c = old(self).deep_view();
                let g = generated(TreeState { blocks: c.blocks, change_block: old(change_block)@, set_blocks: old(set_blocks)@ },
                    true, c.blocks.len() as int, (c.mid_height + c.underground_height + c.sky_height) as int, columns.deep_view(),
                    trees@, i, k, c.grid_x, c.grid_z, (11 + c.underground_height) as u8, c.underground_height, c.chunk_distance);
                &&& final(self).deep_view() =~~= (ChunkView { blocks: g.blocks, ..c })
                &&& final(change_block)@ == g.change_block
                &&& final(set_blocks)@ == g.set_blocks
            }),
        chunk_square(final(self).blocks.deep_view()),
        final(self).blocks.deep_view().len() == old(self).blocks.deep_view().len(),
        final(self).blocks.deep_view()[0][0].len() == old(self).blocks.deep_view()[0][0].len(),
    {
        let ghost b0 = self.blocks.deep_view();
        assert(b0[0].len() == b0.len());
        assert(b0[0] == self.blocks@[0].deep_view());
        let chunk_length = self.blocks[0].len();
        generate_chunk(change_block, i, k, &mut self.blocks, chunk_length, columns, trees, self.grid_x, self.grid_z,
            self.mid_height, self.underground_height, self.sky_height, true, set_blocks, self.chunk_distance);
    }

    /// The chunk's coordinates in the world's grid.
    pub fn get_grid(&self) -> (r: (i32, i32))
        ensures
            r == (self.grid_x, self.grid_z),
    {
        (self.grid_x, self.grid_z)
    }

    /// Rebuilds the mesh from the blocks of the visible layers, layer by layer
    /// from the bottom; see `chunk_mesh`.
    pub fn build_mesh(&mut self)
        requires
            chunk_square(old(self).blocks.deep_view()),
            old(self).visible_layers@.len() >= old(self).blocks.deep_view()[0][0].len(),
        ensures
            ({
                let c = old(self).deep_view();
                let mesh = chunk_mesh(c.blocks, c.visible_layers, c.blocks[0][0].len() as int);
                final(self).deep_view() =~~= (ChunkView { vertices: mesh, transparencies: transparencies_of(mesh), ..c })
            }),
    {
        let ghost c = self.deep_view();
        let ghost b = c.blocks;
        self.vertices.clear();
        self.transparencies.clear();
        assert(b[0] == self.blocks@[0].deep_view());
        assert(b[0].len() == b.len());
        let h = self.blocks[0][0].len();
        let n = self.blocks.len();
        let mut j: usize = 0;
        while j < h
            invariant
                j <= h,
                h == b[0][0].len(),
                n == b.len(),
                chunk_square(b),
                self.blocks.deep_view() == b,
                self.visible_layers@ == c.visible_layers,
                c.visible_layers.len() >= h,
                self.vertices@ == chunk_mesh(b, c.visible_layers, j as int),
                self.transparencies@ == transparencies_of(self.vertices@),
                self.deep_view() =~~= (ChunkView { vertices: self.vertices@, transparencies: self.transparencies@, ..c }),
            decreases h - j,
        {
            let ghost before = self.vertices@;
            if self.visible_layers[j] {
                let mut i: usize = 0;
                while i < n
                    invariant
                        i <= n,
                        j < h,
                        h == b[0][0].len(),
                        n == b.len(),
                        chunk_square(b),
                        self.blocks.deep_view() == b,
                        self.visible_layers@ == c.visible_layers,
                        self.vertices@ == before + layer_mesh(b, j as int, i as int),
                        self.transparencies@ == transparencies_of(self.vertices@),
                        self.deep_view() =~~= (ChunkView { vertices: self.vertices@, transparencies: self.transparencies@, ..c }),
                    decreases n - i,
                {
                    let ghost before_row = self.vertices@;
                    assert(b[i as int] == self.blocks@[i as int].deep_view());
                    assert(b[i as int].len() == n);
                    let row_len = self.blocks[i].len();
                    let mut k: usize = 0;
                    while k < row_len
                        invariant
                            k <= row_len,
                            i < n,
                            j < h,
                            row_len == b[i as int].len(),
                            row_len == n,
                            h == b[0][0].len(),
                            n == b.len(),
                            chunk_square(b),
                            self.blocks.deep_view() == b,
                            self.visible_layers@ == c.visible_layers,
                            self.vertices@ == before_row + row_mesh(b, i as int, j as int, k as int),
                            self.transparencies@ == transparencies_of(self.vertices@),
                            self.deep_view() =~~= (ChunkView { vertices: self.vertices@, transparencies: self.transparencies@, ..c }),
                        decreases row_len - k,
                    {
                        assert(b[i as int][k as int].len() == h);
                        assert(b[i as int] == self.blocks@[i as int].deep_view());
                        assert(b[i as int][k as int] == self.blocks@[i as int]@[k as int].deep_view());
                        let ghost v0 = self.vertices@;
                        self.blocks[i][k][j].get_mesh(i, k, j, &mut self.vertices, &mut self.transparencies);
                        assert(transparencies_of(v0 + block_mesh(b[i as int][k as int][j as int], i, k, j)) =~=
                            transparencies_of(v0) + transparencies_of(block_mesh(b[i as int][k as int][j as int], i, k, j)));
                        assert(self.vertices@ =~= before_row + row_mesh(b, i as int, j as int, k + 1));
                        k = k + 1;
                    }
                    assert(self.vertices@ =~= before + layer_mesh(b, j as int, i + 1));
                    i = i + 1;
                }
            }
            assert(self.vertices@ =~= chunk_mesh(b, c.visible_layers, j + 1));
            j = j + 1;
        }
    }

    /// Hands out the mesh sorted into its opaque and see-through corners (see
    /// `split_mesh`) and empties it.
    pub fn populate_mesh(&mut self) -> (r: (Vec<MeshVertex>, Vec<MeshVertex>))
        requires
            old(self).transparencies@.len() >= old(self).vertices@.len(),
        ensures
            r.0@ == split_mesh(old(self).vertices@, old(self).transparencies@, old(self).vertices@.len() as int).0,
            r.1@ == split_mesh(old(self).vertices@, old(self).transparencies@, old(self).vertices@.len() as int).1,
            final(self).deep_view() =~~= (ChunkView { vertices: Seq::empty(), ..old(self).deep_view() }),
    {
        let mut non_transparent_vertices: Vec<MeshVertex> = Vec::new();
        let mut transparent_vertices: Vec<MeshVertex> = Vec::new();
        let mut i: usize = 0;
        while i < self.vertices.len()
            invariant
                i <= self.vertices@.len(),
                self.vertices@.len() <= self.transparencies@.len(),
                non_transparent_vertices@ == split_mesh(self.vertices@, self.transparencies@, i as int).0,
                transparent_vertices@ == split_mesh(self.vertices@, self.transparencies@, i as int).1,
            decreases self.vertices@.len() - i,
        {
            if self.transparencies[i] != true {
                non_transparent_vertices.push(self.vertices[i]);
            } else {
                transparent_vertices.push(self.vertices[i]);
            }
            i = i + 1;
        }
        self.vertices.clear();
        (non_transparent_vertices, transparent_vertices)
    }

    /// Replaces the flags of which layers are drawn.
    pub fn set_layer_visibility(&mut self, visible_layers: Vec<bool>)
        ensures
            final(self).deep_view() =~~= (ChunkView { visible_layers: visible_layers@, ..old(self).deep_view() }),
    {
        self.visible_layers = visible_layers;
    }

    /// Marks layer `m` drawn exactly when one of its blocks is visible.
    pub fn changed_block_visibility(&mut self, m: usize)
        requires
            m < old(self).visible_layers@.len(),
            forall|x: int, y: int| 0 <= x < old(self).blocks.deep_view().len() && 0 <= y < old(self).blocks.deep_view()[x].len()
                ==> m < #[trigger] old(self).blocks.deep_view()[x][y].len(),
        ensures
            final(self).deep_view() =~~= (ChunkView {
                visible_layers: old(self).visible_layers@.update(m as int, layer_visible(old(self).blocks.deep_view(), m as int)),
                ..old(self).deep_view()
            }),
    {
        let ghost b = self.blocks.deep_view();
        let mut visible = false;
        let mut i: usize = 0;
        while i < self.blocks.len()
            invariant
                i <= b.len(),
                self.blocks.deep_view() == b,
                forall|x: int, y: int| 0 <= x < b.len() && 0 <= y < b[x].len() ==> m < #[trigger] b[x][y].len(),
                visible == exists|x: int, y: int| 0 <= x < i && 0 <= y < b[x].len() && (#[trigger] b[x][y][m as int]).visible,
            decreases b.len() - i,
        {
            assert(b[i as int] == self.blocks@[i as int].deep_view());
            let mut k: usize = 0;
            while k < self.blocks[i].len()
                invariant
                    i < b.len(),
                    k <= b[i as int].len(),
                    self.blocks.deep_view() == b,
                    b[i as int] == self.blocks@[i as int].deep_view(),
                    forall|x: int, y: int| 0 <= x < b.len() && 0 <= y < b[x].len() ==> m < #[trigger] b[x][y].len(),
                    visible == ((exists|x: int, y: int| 0 <= x < i && 0 <= y < b[x].len() && (#[trigger] b[x][y][m as int]).visible)
                        || exists|y: int| 0 <= y < k && (#[trigger] b[i as int][y][m as int]).visible),
                decreases b[i as int].len() - k,
            {
                assert(b[i as int][k as int] == self.blocks@[i as int]@[k as int].deep_view());
                assert(m < b[i as int][k as int].len());
                let v = self.blocks[i][k][m].visible;
                assert(v == b[i as int][k as int][m as int].visible);
                if v {
                    visible = true;
                }
                assert((exists|y: int| 0 <= y < k + 1 && (#[trigger] b[i as int][y][m as int]).visible) ==
                    ((exists|y: int| 0 <= y < k && (#[trigger] b[i as int][y][m as int]).visible) || v)) by {
                    if exists|y: int| 0 <= y < k + 1 && (#[trigger] b[i as int][y][m as int]).visible {
                        let y = choose|y: int| 0 <= y < k + 1 && (#[trigger] b[i as int][y][m as int]).visible;
                        if y < k {
                            assert(b[i as int][y][m as int].visible);
                        }
                    }
                    if v {
                        assert(b[i as int][k as int][m as int].visible);
                    }
                }
                k = k + 1;
            }
            assert(visible == exists|x: int, y: int| 0 <= x < i + 1 && 0 <= y < b[x].len() && (#[trigger] b[x][y][m as int]).visible) by {
                if visible {
                    if exists|y: int| 0 <= y < b[i as int].len() && (#[trigger] b[i as int][y][m as int]).visible {
                        let y = choose|y: int| 0 <= y < b[i as int].len() && (#[trigger] b[i as int][y][m as int]).visible;
                        assert(b[i as int][y][m as int].visible);
                    }
                }
            }
            i = i + 1;
        }
        self.visible_layers.set(m, visible);
    }
}


/// The kind chosen for a block is one of grass, stone, dirt, water, wood,
/// sand and air; below the rock layer it is stone unless a trunk grows
/// there, and in biome 2 neither grass, dirt nor wood grows.
pub proof fn lemma_block_type_kinds(bh: int, max: int, wl: int, has_plant: bool, ug: int, biome: int)
    ensures
        ({
            let r = spec_block_type(bh, max, wl, has_plant, ug, biome);
            &&& r == 0 || r == 1 || r == 2 || r == 3 || r == 5 || r == 6 || r == AIR_ID
            &&& bh < ug && r != 5 ==> r == 1
            &&& biome == 2 ==> r != 0 && r != 2 && r != 5
            &&& r == WATER_ID ==> max < bh < wl
        }),
{
}

/// When a chunk is filled, a cell whose key holds a stored block gets that
/// block, unless it is a leaf that a cell of an earlier row already took
/// (cells of one row all read the store as the row found it); a cell whose
/// key holds nothing, or a leaf already taken, gets the kind its column
/// calls for.
pub proof fn lemma_fill_reads_stored(
    m: Map<Seq<u8>, u8>, columns: Seq<Seq<ColumnValues>>, w: int, h: int, grid_x: i32, grid_z: i32,
    water_level: u8, underground_height: u8, i: int, k: int, j: int,
)
    ensures
        ({
            let key = spec_block_key(grid_x as int, grid_z as int, i, k, j);
            let c = columns[i][k];
            &&& (m.contains_key(key) && m[key] != UNSET_ID && (m[key] != LEAF_ID || !key_taken_before(w, h, grid_x, grid_z, key, i, 0, 0)))
                ==> filled_id(m, columns, w, h, grid_x, grid_z, water_level, underground_height, i, k, j) == m[key]
            &&& (!m.contains_key(key) || (m[key] == LEAF_ID && key_taken_before(w, h, grid_x, grid_z, key, i, 0, 0)))
                ==> filled_id(m, columns, w, h, grid_x, grid_z, water_level, underground_height, i, k, j)
                == spec_block_type((j as u8) as int, underground_height + c.0, water_level as int, c.1, underground_height as int, c.2 as int)
        }),
{
}

proof fn lemma_trees_keep_stored(
    s: TreeState, chunk_i: usize, chunk_k: usize, chunk_distance: usize, j_max: usize, trees: Seq<TreeSite>,
)
    ensures
        stored_kept(s.set_blocks, planted_all(s, chunk_i, chunk_k, chunk_distance, j_max, trees).set_blocks),
    decreases trees.len(),
{
    if trees.len() > 0 {
        let t = trees.last();
        let p = planted_all(s, chunk_i, chunk_k, chunk_distance, j_max, trees.drop_last());
        lemma_trees_keep_stored(s, chunk_i, chunk_k, chunk_distance, j_max, trees.drop_last());
        lemma_tree_keeps_stored(p, chunk_i, chunk_k, t.0, t.1, (t.2 as isize) as int, (t.3 as isize) as int, t.4 as int,
            chunk_distance, j_max, tree_offsets());
        lemma_stored_kept_trans(s.set_blocks, p.set_blocks, planted_all(s, chunk_i, chunk_k, chunk_distance, j_max, trees).set_blocks);
    } else {
        assert(stored_kept(s.set_blocks, s.set_blocks));
    }
}

/// No leaf of the trees of `trees` falls on `(x, y, z)`.
pub open spec fn no_leaf_on(trees: Seq<TreeSite>, x: int, y: int, z: int) -> bool {
    forall|t: int| 0 <= t < trees.len() ==> !leaf_falls_on(tree_offsets(), ((#[trigger] trees[t]).2 as isize) as int,
        (trees[t].3 as isize) as int, trees[t].4 as int, x, y, z)
}

proof fn lemma_trees_elsewhere(
    s: TreeState, chunk_i: usize, chunk_k: usize, chunk_distance: usize, j_max: usize, trees: Seq<TreeSite>,
    x: int, y: int, z: int,
)
    requires
        chunk_shape(s.blocks),
        forall|t: int| 0 <= t < trees.len() ==> (#[trigger] trees[t]).4 >= 2,
        0 <= x < width_of(s.blocks),
        0 <= y < width_of(s.blocks),
        0 <= z < height_of(s.blocks),
        no_leaf_on(trees, x, y, z),
    ensures
        ({
            let p = planted_all(s, chunk_i, chunk_k, chunk_distance, j_max, trees).blocks;
            &&& p[x][y][z] == s.blocks[x][y][z]
            &&& chunk_shape(p)
            &&& width_of(p) == width_of(s.blocks)
            &&& height_of(p) == height_of(s.blocks)
        }),
    decreases trees.len(),
{
    if trees.len() > 0 {
        let d = trees.drop_last();
        let t = trees.last();
        assert(trees[trees.len() - 1] == t);
        assert forall|u: int| 0 <= u < d.len() implies (#[trigger] d[u]).4 >= 2 by {
            assert(d[u] == trees[u]);
        }
        assert forall|u: int| 0 <= u < d.len() implies !leaf_falls_on(tree_offsets(), ((#[trigger] d[u]).2 as isize) as int,
            (d[u].3 as isize) as int, d[u].4 as int, x, y, z) by {
            assert(d[u] == trees[u]);
        }
        lemma_trees_elsewhere(s, chunk_i, chunk_k, chunk_distance, j_max, d, x, y, z);
        let p = planted_all(s, chunk_i, chunk_k, chunk_distance, j_max, d);
        lemma_offsets_depth();
        assert forall|u: int| 0 <= u < tree_offsets().len() implies #[trigger] tree_offsets()[u].2 <= t.4 as int by {
            assert(tree_offsets()[u].2 <= 2);
        }
        lemma_tree_elsewhere(p, chunk_i, chunk_k, t.0, t.1, (t.2 as isize) as int, (t.3 as isize) as int, t.4 as int,
            chunk_distance, j_max, tree_offsets(), x, y, z);
    }
}

/// Generating a chunk keeps every stored block other than a leaf, and
/// stores nothing new but leaves.
pub proof fn lemma_generation_keeps_stored(
    s: TreeState, overwrite: bool, w: int, h: int, columns: Seq<Seq<ColumnValues>>, trees: Seq<TreeSite>,
    chunk_i: usize, chunk_k: usize, grid_x: i32, grid_z: i32, water_level: u8, underground_height: u8, chunk_distance: usize,
    key: Seq<u8>,
)
    ensures
        ({
            let g = generated(s, overwrite, w, h, columns, trees, chunk_i, chunk_k, grid_x, grid_z, water_level,
                underground_height, chunk_distance).set_blocks;
            &&& s.set_blocks.contains_key(key) && s.set_blocks[key] != LEAF_ID ==> g.contains_key(key) && g[key] == s.set_blocks[key]
            &&& g.contains_key(key) && !s.set_blocks.contains_key(key) ==> g[key] == LEAF_ID
        }),
{
    let b1 = base_blocks(s.blocks, overwrite, w, h);
    let hh = b1[0][0].len() as int;
    let ww = b1.len() as int;
    let filled = TreeState {
        blocks: filled_before(b1, s.set_blocks, columns, grid_x, grid_z, water_level, underground_height, ww, 0, 0),
        change_block: s.change_block,
        set_blocks: stored_after(s.set_blocks, ww, hh, grid_x, grid_z, ww, 0, 0),
    };
    lemma_trees_keep_stored(filled, chunk_i, chunk_k, chunk_distance, h as usize, trees);
    let g = planted_all(filled, chunk_i, chunk_k, chunk_distance, h as usize, trees).set_blocks;
    if s.set_blocks.contains_key(key) && s.set_blocks[key] != LEAF_ID {
        assert(filled.set_blocks.contains_key(key));
        assert(filled.set_blocks[key] == s.set_blocks[key]);
    }
    if g.contains_key(key) && !s.set_blocks.contains_key(key) {
        assert(!filled.set_blocks.contains_key(key));
    }
}

/// A cell whose key holds a stored block, neither a leaf nor the value that
/// marks no block, shows that block once its chunk is generated, unless a
/// leaf of one of the chunk's own trees falls on it.
pub proof fn lemma_generated_shows_stored(
    s: TreeState, overwrite: bool, w: int, h: int, columns: Seq<Seq<ColumnValues>>, trees: Seq<TreeSite>,
    chunk_i: usize, chunk_k: usize, grid_x: i32, grid_z: i32, water_level: u8, underground_height: u8, chunk_distance: usize,
    x: int, y: int, z: int,
)
    requires
        chunk_square(base_blocks(s.blocks, overwrite, w, h)),
        0 <= x < base_blocks(s.blocks, overwrite, w, h).len(),
        0 <= y < base_blocks(s.blocks, overwrite, w, h).len(),
        0 <= z < base_blocks(s.blocks, overwrite, w, h)[0][0].len(),
        s.set_blocks.contains_key(spec_block_key(grid_x as int, grid_z as int, x, y, z)),
        s.set_blocks[spec_block_key(grid_x as int, grid_z as int, x, y, z)] != LEAF_ID,
        s.set_blocks[spec_block_key(grid_x as int, grid_z as int, x, y, z)] != UNSET_ID,
        forall|t: int| 0 <= t < trees.len() ==> (#[trigger] trees[t]).4 >= 2,
        no_leaf_on(trees, x, y, z),
    ensures
        generated(s, overwrite, w, h, columns, trees, chunk_i, chunk_k, grid_x, grid_z, water_level, underground_height,
            chunk_distance).blocks[x][y][z].id == s.set_blocks[spec_block_key(grid_x as int, grid_z as int, x, y, z)],
{
    let b1 = base_blocks(s.blocks, overwrite, w, h);
    let hh = b1[0][0].len() as int;
    let ww = b1.len() as int;
    let fb = filled_before(b1, s.set_blocks, columns, grid_x, grid_z, water_level, underground_height, ww, 0, 0);
    let filled = TreeState {
        blocks: fb,
        change_block: s.change_block,
        set_blocks: stored_after(s.set_blocks, ww, hh, grid_x, grid_z, ww, 0, 0),
    };
    lemma_filled_shape(b1, s.set_blocks, columns, grid_x, grid_z, water_level, underground_height, ww, 0, 0);
    assert(b1[0].len() == ww);
    assert(b1[x].len() == ww);
    assert(b1[x][y].len() == hh);
    assert(fb[x][y][z].id == filled_id(s.set_blocks, columns, ww, hh, grid_x, grid_z, water_level, underground_height, x, y, z));
    lemma_fill_reads_stored(s.set_blocks, columns, ww, hh, grid_x, grid_z, water_level, underground_height, x, y, z);
    assert(fb[0].len() == ww);
    assert(chunk_shape(fb));
    lemma_trees_elsewhere(filled, chunk_i, chunk_k, chunk_distance, h as usize, trees, x, y, z);
}


/// Corner `v` belongs to a shown face, one of the six, of a drawn block of a
/// drawn layer of `b`, and carries that block's kind.
pub open spec fn corner_shown(b: Seq<Seq<Seq<BlockView>>>, layers: Seq<bool>, v: MeshVertex) -> bool {
    &&& v.i < b.len()
    &&& v.k < b[v.i as int].len()
    &&& v.j < b[v.i as int][v.k as int].len()
    &&& v.j < layers.len()
    &&& layers[v.j as int]
    &&& b[v.i as int][v.k as int][v.j as int].visible
    &&& v.side < 6
    &&& v.side < b[v.i as int][v.k as int][v.j as int].sides.len()
    &&& b[v.i as int][v.k as int][v.j as int].sides[v.side as int]
    &&& v.corner < 6
    &&& v.block_id == b[v.i as int][v.k as int][v.j as int].id
}

pub open spec fn all_shown(vs: Seq<MeshVertex>, b: Seq<Seq<Seq<BlockView>>>, layers: Seq<bool>) -> bool {
    forall|t: int| 0 <= t < vs.len() ==> corner_shown(b, layers, #[trigger] vs[t])
}

proof fn lemma_all_shown_add(a: Seq<MeshVertex>, c: Seq<MeshVertex>, b: Seq<Seq<Seq<BlockView>>>, layers: Seq<bool>)
    requires
        all_shown(a, b, layers),
        all_shown(c, b, layers),
    ensures
        all_shown(a + c, b, layers),
{
    assert forall|t: int| 0 <= t < (a + c).len() implies corner_shown(b, layers, #[trigger] (a + c)[t]) by {
        if t < a.len() {
            assert((a + c)[t] == a[t]);
        } else {
            assert((a + c)[t] == c[t - a.len()]);
        }
    }
}

proof fn lemma_faces_shown(b: Seq<Seq<Seq<BlockView>>>, layers: Seq<bool>, i: int, k: int, j: int, n: int)
    requires
        0 <= i < b.len() <= usize::MAX,
        0 <= k < b[i].len() <= usize::MAX,
        0 <= j < b[i][k].len() <= usize::MAX,
        j < layers.len(),
        layers[j],
        b[i][k][j].visible,
        n <= b[i][k][j].sides.len(),
    ensures
        all_shown(faces_mesh(b[i][k][j], i as usize, k as usize, j as usize, n), b, layers),
    decreases n,
{
    if n > 0 {
        let bl = b[i][k][j];
        lemma_faces_shown(b, layers, i, k, j, n - 1);
        if bl.sides[n - 1] && n - 1 < 6 {
            let f = face_vertices(i as usize, k as usize, j as usize, n - 1, bl.id);
            assert forall|t: int| 0 <= t < f.len() implies corner_shown(b, layers, #[trigger] f[t]) by {}
            lemma_all_shown_add(faces_mesh(bl, i as usize, k as usize, j as usize, n - 1), f, b, layers);
        } else {
            assert(faces_mesh(bl, i as usize, k as usize, j as usize, n) =~= faces_mesh(bl, i as usize, k as usize, j as usize, n - 1));
        }
    }
}

proof fn lemma_row_shown(b: Seq<Seq<Seq<BlockView>>>, layers: Seq<bool>, i: int, j: int, n: int)
    requires
        0 <= i < b.len() <= usize::MAX,
        n <= b[i].len() <= usize::MAX,
        forall|y: int| 0 <= y < b[i].len() ==> j < #[trigger] b[i][y].len() <= usize::MAX,
        0 <= j < layers.len(),
        layers[j],
    ensures
        all_shown(row_mesh(b, i, j, n), b, layers),
    decreases n,
{
    if n > 0 {
        lemma_row_shown(b, layers, i, j, n - 1);
        let bl = b[i][n - 1][j];
        assert(j < b[i][n - 1].len());
        if bl.visible {
            lemma_faces_shown(b, layers, i, n - 1, j, bl.sides.len() as int);
        }
        lemma_all_shown_add(row_mesh(b, i, j, n - 1), block_mesh(bl, i as usize, (n - 1) as usize, j as usize), b, layers);
    }
}

proof fn lemma_layer_shown(b: Seq<Seq<Seq<BlockView>>>, layers: Seq<bool>, j: int, n: int)
    requires
        chunk_square(b),
        b.len() <= usize::MAX,
        b[0][0].len() <= usize::MAX,
        n <= b.len(),
        0 <= j < b[0][0].len(),
        j < layers.len(),
        layers[j],
    ensures
        all_shown(layer_mesh(b, j, n), b, layers),
    decreases n,
{
    if n > 0 {
        lemma_layer_shown(b, layers, j, n - 1);
        assert(b[n - 1].len() == b.len());
        assert forall|y: int| 0 <= y < b[n - 1].len() implies j < #[trigger] b[n - 1][y].len() <= usize::MAX by {
            assert(b[n - 1][y].len() == b[0][0].len());
        }
        lemma_row_shown(b, layers, n - 1, j, b[n - 1].len() as int);
        lemma_all_shown_add(layer_mesh(b, j, n - 1), row_mesh(b, n - 1, j, b[n - 1].len() as int), b, layers);
    }
}

/// Every corner of a chunk's mesh belongs to a shown face of a drawn block
/// of a drawn layer, and carries that block's kind: hidden blocks, faces
/// that touch another solid block and layers that are not drawn add
/// nothing.
pub proof fn lemma_mesh_sound(b: Seq<Seq<Seq<BlockView>>>, layers: Seq<bool>, n: int)
    requires
        chunk_square(b),
        b.len() <= usize::MAX,
        b[0][0].len() <= usize::MAX,
        n <= b[0][0].len(),
        n <= layers.len(),
    ensures
        all_shown(chunk_mesh(b, layers, n), b, layers),
    decreases n,
{
    if n > 0 {
        lemma_mesh_sound(b, layers, n - 1);
        if layers[n - 1] {
            lemma_layer_shown(b, layers, n - 1, b.len() as int);
            lemma_all_shown_add(chunk_mesh(b, layers, n - 1), layer_mesh(b, n - 1, b.len() as int), b, layers);
        } else {
            assert(chunk_mesh(b, layers, n) =~= chunk_mesh(b, layers, n - 1));
        }
    }
}

/// Sorting a mesh by the see-through flags of its corners keeps every corner
/// and its order: the first part is the opaque corners and the second the
/// water corners, in mesh order.
pub proof fn lemma_split_is_filter(vs: Seq<MeshVertex>, n: int)
    requires
        0 <= n <= vs.len(),
    ensures
        split_mesh(vs, transparencies_of(vs), n).0 == vs.take(n).filter(|v: MeshVertex| !transparency(v)),
        split_mesh(vs, transparencies_of(vs), n).1 == vs.take(n).filter(|v: MeshVertex| transparency(v)),
        split_mesh(vs, transparencies_of(vs), n).0.len() + split_mesh(vs, transparencies_of(vs), n).1.len() == n,
    decreases n,
{
    reveal(Seq::filter);
    let t = vs.take(n);
    if n == 0 {
        assert(t =~= Seq::<MeshVertex>::empty());
    } else {
        lemma_split_is_filter(vs, n - 1);
        assert(t.drop_last() =~= vs.take(n - 1));
        assert(t.last() == vs[n - 1]);
    }
}


proof fn lemma_contains_add(a: Seq<MeshVertex>, c: Seq<MeshVertex>, v: MeshVertex)
    ensures
        a.contains(v) ==> (a + c).contains(v),
        c.contains(v) ==> (a + c).contains(v),
{
    if a.contains(v) {
        let t = choose|t: int| 0 <= t < a.len() && a[t] == v;
        assert((a + c)[t] == v);
    }
    if c.contains(v) {
        let t = choose|t: int| 0 <= t < c.len() && c[t] == v;
        assert((a + c)[a.len() + t] == v);
    }
}

proof fn lemma_faces_complete(bl: BlockView, i: usize, k: usize, j: usize, n: int, t: int, corner: int)
    requires
        0 <= t < n,
        n <= bl.sides.len(),
        t < 6,
        bl.sides[t],
        0 <= corner < 6,
    ensures
        faces_mesh(bl, i, k, j, n).contains(MeshVertex { i, k, j, side: t as usize, corner: corner as usize, block_id: bl.id }),
    decreases n,
{
    let v = MeshVertex { i, k, j, side: t as usize, corner: corner as usize, block_id: bl.id };
    let last = if bl.sides[n - 1] && n - 1 < 6 { face_vertices(i, k, j, n - 1, bl.id) } else { Seq::empty() };
    if t == n - 1 {
        assert(last[corner] == v);
        lemma_contains_add(faces_mesh(bl, i, k, j, n - 1), last, v);
    } else {
        lemma_faces_complete(bl, i, k, j, n - 1, t, corner);
        lemma_contains_add(faces_mesh(bl, i, k, j, n - 1), last, v);
    }
}

proof fn lemma_row_complete(b: Seq<Seq<Seq<BlockView>>>, i: int, j: int, n: int, y: int, v: MeshVertex)
    requires
        0 <= y < n,
        block_mesh(b[i][y][j], i as usize, y as usize, j as usize).contains(v),
    ensures
        row_mesh(b, i, j, n).contains(v),
    decreases n,
{
    let last = block_mesh(b[i][n - 1][j], i as usize, (n - 1) as usize, j as usize);
    if y < n - 1 {
        lemma_row_complete(b, i, j, n - 1, y, v);
    }
    lemma_contains_add(row_mesh(b, i, j, n - 1), last, v);
}

proof fn lemma_layer_complete(b: Seq<Seq<Seq<BlockView>>>, j: int, n: int, x: int, v: MeshVertex)
    requires
        0 <= x < n,
        row_mesh(b, x, j, b[x].len() as int).contains(v),
    ensures
        layer_mesh(b, j, n).contains(v),
    decreases n,
{
    if x < n - 1 {
        lemma_layer_complete(b, j, n - 1, x, v);
    }
    lemma_contains_add(layer_mesh(b, j, n - 1), row_mesh(b, n - 1, j, b[n - 1].len() as int), v);
}

proof fn lemma_chunk_complete(b: Seq<Seq<Seq<BlockView>>>, layers: Seq<bool>, n: int, z: int, v: MeshVertex)
    requires
        0 <= z < n,
        layers[z],
        layer_mesh(b, z, b.len() as int).contains(v),
    ensures
        chunk_mesh(b, layers, n).contains(v),
    decreases n,
{
    if z < n - 1 {
        lemma_chunk_complete(b, layers, n - 1, z, v);
    }
    let last = if layers[n - 1] { layer_mesh(b, n - 1, b.len() as int) } else { Seq::empty() };
    lemma_contains_add(chunk_mesh(b, layers, n - 1), last, v);
}

/// Every shown face, one of the six, of a drawn block of a drawn layer is
/// in the chunk's mesh with all six of its corners.
pub proof fn lemma_mesh_complete(
    b: Seq<Seq<Seq<BlockView>>>, layers: Seq<bool>, n: int, x: int, y: int, z: int, t: int, corner: int,
)
    requires
        chunk_square(b),
        n <= b[0][0].len(),
        0 <= x < b.len(),
        0 <= y < b.len(),
        0 <= z < n,
        layers[z],
        b[x][y][z].visible,
        0 <= t < 6,
        t < b[x][y][z].sides.len(),
        b[x][y][z].sides[t],
        0 <= corner < 6,
    ensures
        chunk_mesh(b, layers, n).contains(MeshVertex {
            i: x as usize, k: y as usize, j: z as usize, side: t as usize, corner: corner as usize, block_id: b[x][y][z].id,
        }),
{
    let bl = b[x][y][z];
    let v = MeshVertex { i: x as usize, k: y as usize, j: z as usize, side: t as usize, corner: corner as usize, block_id: bl.id };
    lemma_faces_complete(bl, x as usize, y as usize, z as usize, bl.sides.len() as int, t, corner);
    assert(block_mesh(bl, x as usize, y as usize, z as usize).contains(v));
    assert(b[x].len() == b.len());
    lemma_row_complete(b, x, z, b[x].len() as int, y, v);
    lemma_layer_complete(b, z, b.len() as int, x, v);
    lemma_chunk_complete(b, layers, n, z, v);
}

proof fn lemma_planted_all_shape(
    s: TreeState, chunk_i: usize, chunk_k: usize, chunk_distance: usize, j_max: usize, trees: Seq<TreeSite>,
)
    requires
        chunk_shape(s.blocks),
        forall|t: int| 0 <= t < trees.len() ==> (#[trigger] trees[t]).4 >= 2,
    ensures
        ({
            let p = planted_all(s, chunk_i, chunk_k, chunk_distance, j_max, trees).blocks;
            &&& chunk_shape(p)
            &&& width_of(p) == width_of(s.blocks)
            &&& height_of(p) == height_of(s.blocks)
        }),
    decreases trees.len(),
{
    if trees.len() > 0 {
        let d = trees.drop_last();
        let t = trees.last();
        assert(trees[trees.len() - 1] == t);
        assert forall|u: int| 0 <= u < d.len() implies (#[trigger] d[u]).4 >= 2 by {
            assert(d[u] == trees[u]);
        }
        lemma_planted_all_shape(s, chunk_i, chunk_k, chunk_distance, j_max, d);
        let p = planted_all(s, chunk_i, chunk_k, chunk_distance, j_max, d);
        lemma_offsets_depth();
        assert forall|u: int| 0 <= u < tree_offsets().len() implies #[trigger] tree_offsets()[u].2 <= t.4 as int by {
            assert(tree_offsets()[u].2 <= 2);
        }
        lemma_planted_shape(p, chunk_i, chunk_k, t.0, t.1, (t.2 as isize) as int, (t.3 as isize) as int, t.4 as int,
            chunk_distance, j_max, tree_offsets());
    }
}

/// Generating a chunk again keeps the dimensions of its blocks.
pub proof fn lemma_regenerated_shape(
    s: TreeState, w: int, h: int, columns: Seq<Seq<ColumnValues>>, trees: Seq<TreeSite>,
    chunk_i: usize, chunk_k: usize, grid_x: i32, grid_z: i32, water_level: u8, underground_height: u8, chunk_distance: usize,
)
    requires
        chunk_square(s.blocks),
        forall|t: int| 0 <= t < trees.len() ==> (#[trigger] trees[t]).4 >= 2,
    ensures
        is_box(generated(s, true, w, h, columns, trees, chunk_i, chunk_k, grid_x, grid_z, water_level, underground_height,
            chunk_distance).blocks, s.blocks.len() as int, s.blocks.len() as int, s.blocks[0][0].len() as int),
{
    let b1 = s.blocks;
    let hh = b1[0][0].len() as int;
    let ww = b1.len() as int;
    let fb = filled_before(b1, s.set_blocks, columns, grid_x, grid_z, water_level, underground_height, ww, 0, 0);
    let filled = TreeState {
        blocks: fb,
        change_block: s.change_block,
        set_blocks: stored_after(s.set_blocks, ww, hh, grid_x, grid_z, ww, 0, 0),
    };
    lemma_filled_shape(b1, s.set_blocks, columns, grid_x, grid_z, water_level, underground_height, ww, 0, 0);
    assert(fb[0].len() == ww);
    assert(chunk_shape(fb));
    lemma_planted_all_shape(filled, chunk_i, chunk_k, chunk_distance, h as usize, trees);
}

} // verus!
