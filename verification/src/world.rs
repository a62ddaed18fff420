use vstd::prelude::*;
use crate::block::{Block, BlockView, WATER_ID, AIR_ID};
use crate::chunk::{Chunk, ChunkView, is_box, ColumnValues, TreeSite, generated, fresh_blocks, fill_in_range, chunk_square,
    chunk_mesh, transparencies_of, layer_visible, no_leaf_on, lemma_generated_shows_stored, lemma_regenerated_shape};
use crate::trees::{TreeState, tree_in_range, LEAF_ID};
use crate::set_blocks::{SetBlocks, block_key, spec_block_key, stored_value, UNSET_ID};
use crate::trees::{same_shape, ChangeBlock};

verus! {

/// The height of the columns of a grid of chunks.
pub open spec fn grid_height(g: Seq<Seq<ChunkView>>) -> int {
    g[0][0].blocks[0][0].len() as int
}

/// A square grid of chunks, each of `w` by `w` columns of one common height.
pub open spec fn grid_wf(g: Seq<Seq<ChunkView>>, w: int) -> bool {
    &&& w >= 2
    &&& g.len() >= 1
    &&& forall|x: int| 0 <= x < g.len() ==> #[trigger] g[x].len() == g.len()
    &&& forall|x: int, y: int|
        0 <= x < g.len() && 0 <= y < g.len() ==> is_box(#[trigger] g[x][y].blocks, w, w, grid_height(g))
    &&& grid_height(g) >= 1
}

/// The indices name a block of the grid.
pub open spec fn in_grid(g: Seq<Seq<ChunkView>>, w: int, i: int, k: int, j: int, l: int, m: int) -> bool {
    &&& 0 <= i < g.len()
    &&& 0 <= k < g.len()
    &&& 0 <= j < w
    &&& 0 <= l < w
    &&& 0 <= m < grid_height(g)
}

pub open spec fn block_at(g: Seq<Seq<ChunkView>>, i: int, k: int, j: int, l: int, m: int) -> BlockView {
    g[i][k].blocks[j][l][m]
}

/// A face of a block of kind `id` next to `neighbour` is shown: the neighbour
/// is air, or it is water and the block is not.
pub open spec fn exposes(id: u8, neighbour: BlockView) -> bool {
    neighbour.id == AIR_ID || (id != WATER_ID && neighbour.id == WATER_ID)
}

/// Which of the six faces (+z, -z, +x, -x, -y, +y, in the chunk's `j`, `l`,
/// `m` order) of the block at `(i, k, j, l, m)` are shown. A face on the
/// outer layer of its chunk, or at the bottom or top of its column, is
/// shown; any other face is shown when the block next to it exposes it.
pub open spec fn spec_sides(g: Seq<Seq<ChunkView>>, w: int, i: int, k: int, j: int, l: int, m: int) -> Seq<bool> {
    let h = grid_height(g);
    let id = block_at(g, i, k, j, l, m).id;
    seq![
        if j == w - 1 { true } else { exposes(id, block_at(g, i, k, j + 1, l, m)) },
        if j == 0 { true } else { exposes(id, block_at(g, i, k, j - 1, l, m)) },
        if l == w - 1 { true } else { exposes(id, block_at(g, i, k, j, l + 1, m)) },
        if l == 0 { true } else { exposes(id, block_at(g, i, k, j, l - 1, m)) },
        if m == 0 { true } else { exposes(id, block_at(g, i, k, j, l, m - 1)) },
        if m == h - 1 { true } else { exposes(id, block_at(g, i, k, j, l, m + 1)) },
    ]
}

pub open spec fn any_side(s: Seq<bool>) -> bool {
    exists|t: int| 0 <= t < s.len() && s[t]
}

/// The block at `(i, k, j, l, m)` once its faces were checked: air is hidden;
/// a block with a shown face is visible and keeps the faces; any other block
/// is hidden and keeps its former faces.
pub open spec fn checked_block(g: Seq<Seq<ChunkView>>, w: int, i: int, k: int, j: int, l: int, m: int) -> BlockView {
    let b = block_at(g, i, k, j, l, m);
    let s = spec_sides(g, w, i, k, j, l, m);
    if b.id == AIR_ID {
        BlockView { visible: false, ..b }
    } else if any_side(s) {
        BlockView { visible: true, sides: s, ..b }
    } else {
        BlockView { visible: false, ..b }
    }
}

/// `g` with the block at `(i, k, j, l, m)` replaced by `b`.
pub open spec fn with_block(g: Seq<Seq<ChunkView>>, i: int, k: int, j: int, l: int, m: int, b: BlockView) -> Seq<Seq<ChunkView>> {
    let c = g[i][k];
    g.update(i, g[i].update(k, ChunkView {
        blocks: c.blocks.update(j, c.blocks[j].update(l, c.blocks[j][l].update(m, b))),
        ..c
    }))
}

fn exposes_block(id: u8, neighbour: &Block) -> (r: bool)
    ensures
        r == exposes(id, neighbour@),
{
    neighbour.is_air() || (id != WATER_ID && neighbour.is_water())
}

proof fn lemma_grid_index(cg: &Vec<Vec<Chunk>>, i: int, k: int, j: int, l: int)
    requires
        0 <= i < cg.deep_view().len(),
        0 <= k < cg.deep_view()[i].len(),
        0 <= j < cg.deep_view()[i][k].blocks.len(),
        0 <= l < cg.deep_view()[i][k].blocks[j].len(),
    ensures
        cg@.len() == cg.deep_view().len(),
        cg@[i]@.len() == cg.deep_view()[i].len(),
        cg@[i]@[k].blocks@.len() == cg.deep_view()[i][k].blocks.len(),
        cg@[i]@[k].blocks@[j]@.len() == cg.deep_view()[i][k].blocks[j].len(),
        cg@[i]@[k].blocks@[j]@[l]@.len() == cg.deep_view()[i][k].blocks[j][l].len(),
        forall|m: int| 0 <= m < cg.deep_view()[i][k].blocks[j][l].len() ==>
            #[trigger] cg@[i]@[k].blocks@[j]@[l]@[m]@ == cg.deep_view()[i][k].blocks[j][l][m],
{
    assert(cg.deep_view()[i] == cg@[i].deep_view());
    assert(cg.deep_view()[i][k] == cg@[i]@[k].deep_view());
    assert(cg.deep_view()[i][k].blocks[j] == cg@[i]@[k].blocks@[j].deep_view());
    assert(cg.deep_view()[i][k].blocks[j][l] == cg@[i]@[k].blocks@[j]@[l].deep_view());
}

fn neighbour_exposes(cg: &Vec<Vec<Chunk>>, w: usize, id: u8, i: usize, k: usize, j: usize, l: usize, m: usize) -> (r: bool)
    requires
        grid_wf(cg.deep_view(), w as int),
        in_grid(cg.deep_view(), w as int, i as int, k as int, j as int, l as int, m as int),
    ensures
        r == exposes(id, block_at(cg.deep_view(), i as int, k as int, j as int, l as int, m as int)),
{
    let ghost g = cg.deep_view();
    assert(g[i as int].len() == g.len());
    assert(is_box(g[i as int][k as int].blocks, w as int, w as int, grid_height(g)));
    proof {
        lemma_grid_index(cg, i as int, k as int, j as int, l as int);
    }
    exposes_block(id, &cg[i][k].blocks[j][l][m])
}

/// Which faces of the block at `(i, k, j, l, m)` are shown.
fn block_sides(cg: &Vec<Vec<Chunk>>, i: usize, k: usize, j: usize, l: usize, m: usize, w: usize, id: u8) -> (sides: Vec<bool>)
    requires
        grid_wf(cg.deep_view(), w as int),
        in_grid(cg.deep_view(), w as int, i as int, k as int, j as int, l as int, m as int),
        id == block_at(cg.deep_view(), i as int, k as int, j as int, l as int, m as int).id,
    ensures
        sides@ == spec_sides(cg.deep_view(), w as int, i as int, k as int, j as int, l as int, m as int),
{
    let ghost g = cg.deep_view();
    assert(g[0].len() == g.len());
    assert(is_box(g[0][0].blocks, w as int, w as int, grid_height(g)));
    proof {
        lemma_grid_index(cg, 0, 0, 0, 0);
    }
    let h = cg[0][0].blocks[0][0].len();
    let mut sides: Vec<bool> = Vec::new();
    let s0 = if j == w - 1 { true } else { neighbour_exposes(cg, w, id, i, k, j + 1, l, m) };
    sides.push(s0);
    let s1 = if j == 0 { true } else { neighbour_exposes(cg, w, id, i, k, j - 1, l, m) };
    sides.push(s1);
    let s2 = if l == w - 1 { true } else { neighbour_exposes(cg, w, id, i, k, j, l + 1, m) };
    sides.push(s2);
    let s3 = if l == 0 { true } else { neighbour_exposes(cg, w, id, i, k, j, l - 1, m) };
    sides.push(s3);
    let s4 = if m == 0 { true } else { neighbour_exposes(cg, w, id, i, k, j, l, m - 1) };
    sides.push(s4);
    let s5 = if m == h - 1 { true } else { neighbour_exposes(cg, w, id, i, k, j, l, m + 1) };
    sides.push(s5);
    assert(sides@ =~= spec_sides(g, w as int, i as int, k as int, j as int, l as int, m as int));
    sides
}

fn any_true(sides: &Vec<bool>) -> (r: bool)
    ensures
        r == any_side(sides@),
{
    let mut visible: bool = false;
    let mut t: usize = 0;
    while t < sides.len()
        invariant
            t <= sides@.len(),
            visible == exists|u: int| 0 <= u < t && sides@[u],
        decreases sides@.len() - t,
    {
        if sides[t] {
            visible = true;
        }
        t = t + 1;
    }
    visible
}

/// Decides which faces of the block at `(i, k, j, l, m)` are shown, and
/// whether the block is drawn.
pub fn check_block_sides(chunk_grid: &mut Vec<Vec<Chunk>>, i: usize, k: usize, j: usize, l: usize, m: usize, chunk_width: usize)
    requires
        grid_wf(old(chunk_grid).deep_view(), chunk_width as int),
        in_grid(old(chunk_grid).deep_view(), chunk_width as int, i as int, k as int, j as int, l as int, m as int),
    ensures
        final(chunk_grid).deep_view() =~~= with_block(old(chunk_grid).deep_view(), i as int, k as int, j as int, l as int, m as int,
            checked_block(old(chunk_grid).deep_view(), chunk_width as int, i as int, k as int, j as int, l as int, m as int)),
{
    let ghost g = chunk_grid.deep_view();
    let ghost w = chunk_width as int;
    assert(g[i as int].len() == g.len());
    assert(is_box(g[i as int][k as int].blocks, w, w, grid_height(g)));
    proof {
        lemma_grid_index(chunk_grid, i as int, k as int, j as int, l as int);
    }
    let block_id = chunk_grid[i][k].blocks[j][l][m].id;
    if chunk_grid[i][k].blocks[j][l][m].is_air() {
        chunk_grid[i][k].blocks[j][l][m].visible = false;
        return;
    }
    let sides = block_sides(chunk_grid, i, k, j, l, m, chunk_width, block_id);
    let visible = any_true(&sides);
    if visible {
        chunk_grid[i][k].blocks[j][l][m].visible = true;
        chunk_grid[i][k].blocks[j][l][m].sides = sides;
    } else {
        chunk_grid[i][k].blocks[j][l][m].visible = false;
    }
}

/// Stores `id` for indices `(i, k, j)` of the chunk at `(grid_x, grid_z)`,
/// replacing what was stored there.
pub fn check_and_set_block(set_blocks: &mut SetBlocks, grid_x: i32, grid_z: i32, i: usize, k: usize, j: usize, id: u8)
    ensures
        final(set_blocks)@ == old(set_blocks)@.insert(spec_block_key(grid_x as int, grid_z as int, i as int, k as int, j as int), id),
{
    let key = block_key(grid_x, grid_z, i as i128, k as i128, j as i128);
    if set_blocks.contains_key(&key) {
        set_blocks.remove(&key);
        set_blocks.insert(key, id);
    } else {
        set_blocks.insert(key, id);
    }
    proof {
        assert(set_blocks@ =~= old(set_blocks)@.insert(spec_block_key(grid_x as int, grid_z as int, i as int, k as int, j as int), id));
    }
}

/// The grid with the block at `c` checked; see `checked_block`.
pub open spec fn check_cell(g: Seq<Seq<ChunkView>>, w: int, c: (int, int, int, int, int)) -> Seq<Seq<ChunkView>> {
    with_block(g, c.0, c.1, c.2, c.3, c.4, checked_block(g, w, c.0, c.1, c.2, c.3, c.4))
}

/// Two grids of chunks have the same dimensions everywhere.
pub open spec fn grid_same_shape(a: Seq<Seq<ChunkView>>, b: Seq<Seq<ChunkView>>) -> bool {
    &&& a.len() == b.len()
    &&& forall|x: int| 0 <= x < b.len() ==> #[trigger] a[x].len() == b[x].len()
    &&& forall|x: int, y: int| 0 <= x < b.len() && 0 <= y < b[x].len() ==> same_shape(#[trigger] a[x][y].blocks, b[x][y].blocks)
}

/// A grid with the dimensions of a well-formed grid is well formed.
pub proof fn lemma_same_shape_wf(a: Seq<Seq<ChunkView>>, b: Seq<Seq<ChunkView>>, w: int)
    requires
        grid_wf(b, w),
        grid_same_shape(a, b),
    ensures
        grid_wf(a, w),
        grid_height(a) == grid_height(b),
{
    assert(b[0].len() == b.len());
    assert(is_box(b[0][0].blocks, w, w, grid_height(b)));
    assert(same_shape(a[0][0].blocks, b[0][0].blocks));
    assert(a[0][0].blocks[0].len() == b[0][0].blocks[0].len());
    assert(a[0][0].blocks[0][0].len() == b[0][0].blocks[0][0].len());
    assert forall|x: int, y: int| 0 <= x < a.len() && 0 <= y < a.len() implies is_box(#[trigger] a[x][y].blocks, w, w, grid_height(a)) by {
        assert(b[x].len() == b.len());
        assert(is_box(b[x][y].blocks, w, w, grid_height(b)));
        assert(same_shape(a[x][y].blocks, b[x][y].blocks));
        assert forall|p: int| 0 <= p < w implies #[trigger] a[x][y].blocks[p].len() == w by {
            assert(b[x][y].blocks[p].len() == w);
        }
        assert forall|p: int, q: int| 0 <= p < w && 0 <= q < w implies #[trigger] a[x][y].blocks[p][q].len() == grid_height(a) by {
            assert(b[x][y].blocks[p].len() == w);
            assert(b[x][y].blocks[p][q].len() == grid_height(b));
        }
    }
}

/// Replacing one block of a well-formed grid keeps its dimensions, its
/// chunks' other fields and its well-formedness.
pub proof fn lemma_with_block_shape(g: Seq<Seq<ChunkView>>, w: int, i: int, k: int, j: int, l: int, m: int, b: BlockView)
    requires
        grid_wf(g, w),
        in_grid(g, w, i, k, j, l, m),
    ensures
        grid_same_shape(with_block(g, i, k, j, l, m, b), g),
        grid_wf(with_block(g, i, k, j, l, m, b), w),
        grid_height(with_block(g, i, k, j, l, m, b)) == grid_height(g),
        forall|x: int, y: int| 0 <= x < g.len() && 0 <= y < g[x].len() ==>
            (#[trigger] with_block(g, i, k, j, l, m, b)[x][y]).visible_layers == g[x][y].visible_layers,
        same_frame(with_block(g, i, k, j, l, m, b), g),
{
    let g2 = with_block(g, i, k, j, l, m, b);
    let c = g[i][k];
    assert(g[i].len() == g.len());
    assert(is_box(c.blocks, w, w, grid_height(g)));
    assert(c.blocks[j].len() == w);
    assert(c.blocks[j][l].len() == grid_height(g));
    let col = c.blocks[j][l].update(m, b);
    let slab = c.blocks[j].update(l, col);
    let bl = c.blocks.update(j, slab);
    let row = g[i].update(k, ChunkView { blocks: bl, ..c });
    assert(g2 == g.update(i, row));
    assert forall|x: int| 0 <= x < g.len() implies #[trigger] g2[x].len() == g[x].len() by {
        if x == i { assert(g2[x] == row); } else { assert(g2[x] == g[x]); }
    }
    assert forall|x: int, y: int| 0 <= x < g.len() && 0 <= y < g[x].len() implies same_shape(#[trigger] g2[x][y].blocks, g[x][y].blocks) by {
        if x == i && y == k {
            assert(g2[x][y].blocks == bl);
            assert forall|p: int| 0 <= p < c.blocks.len() implies #[trigger] bl[p].len() == c.blocks[p].len() by {
                if p == j { assert(bl[p] == slab); } else { assert(bl[p] == c.blocks[p]); }
            }
            assert forall|p: int, q: int| 0 <= p < c.blocks.len() && 0 <= q < c.blocks[p].len() implies #[trigger] bl[p][q].len() == c.blocks[p][q].len() by {
                if p == j {
                    assert(bl[p] == slab);
                    if q == l { assert(bl[p][q] == col); } else { assert(bl[p][q] == c.blocks[p][q]); }
                } else {
                    assert(bl[p] == c.blocks[p]);
                }
            }
        } else if x == i {
            assert(g2[x] == row);
            assert(g2[x][y] == g[x][y]);
        } else {
            assert(g2[x] == g[x]);
        }
    }
    assert forall|x: int, y: int| 0 <= x < g.len() && 0 <= y < g[x].len() implies
        (#[trigger] g2[x][y]).visible_layers == g[x][y].visible_layers
            && g2[x][y] == (ChunkView { blocks: g2[x][y].blocks, ..g[x][y] }) by {
        if x == i {
            assert(g2[x] == row);
            if y != k {
                assert(g2[x][y] == g[x][y]);
            }
        } else {
            assert(g2[x] == g[x]);
        }
    }
    lemma_same_shape_wf(g2, g, w);
}

/// `a` differs from `b` at most in what its chunks' blocks hold: the
/// dimensions, and every other field of every chunk, are the same.
pub open spec fn same_frame(a: Seq<Seq<ChunkView>>, b: Seq<Seq<ChunkView>>) -> bool {
    &&& grid_same_shape(a, b)
    &&& forall|x: int, y: int| 0 <= x < b.len() && 0 <= y < b[x].len() ==>
        #[trigger] a[x][y] == (ChunkView { blocks: a[x][y].blocks, ..b[x][y] })
}

proof fn lemma_same_frame_trans(a: Seq<Seq<ChunkView>>, b: Seq<Seq<ChunkView>>, c: Seq<Seq<ChunkView>>)
    requires
        same_frame(a, b),
        same_frame(b, c),
    ensures
        same_frame(a, c),
{
    assert forall|x: int, y: int| 0 <= x < c.len() && 0 <= y < c[x].len() implies
        same_shape(#[trigger] a[x][y].blocks, c[x][y].blocks) by {
        assert(same_shape(a[x][y].blocks, b[x][y].blocks));
        assert(same_shape(b[x][y].blocks, c[x][y].blocks));
        let p = a[x][y].blocks;
        let q = b[x][y].blocks;
        let r = c[x][y].blocks;
        assert forall|u: int| 0 <= u < r.len() implies #[trigger] p[u].len() == r[u].len() by {
            assert(q[u].len() == r[u].len());
        }
        assert forall|u: int, v: int| 0 <= u < r.len() && 0 <= v < r[u].len() implies #[trigger] p[u][v].len() == r[u][v].len() by {
            assert(q[u].len() == r[u].len());
            assert(q[u][v].len() == r[u][v].len());
        }
    }
    assert forall|x: int, y: int| 0 <= x < c.len() && 0 <= y < c[x].len() implies
        #[trigger] a[x][y] == (ChunkView { blocks: a[x][y].blocks, ..c[x][y] }) by {
        assert(b[x][y] == (ChunkView { blocks: b[x][y].blocks, ..c[x][y] }));
        assert(a[x][y] == (ChunkView { blocks: a[x][y].blocks, ..b[x][y] }));
    }
}

proof fn lemma_check_cell_frame(g: Seq<Seq<ChunkView>>, w: int, c: Cell)
    requires
        grid_wf(g, w),
        in_grid(g, w, c.0, c.1, c.2, c.3, c.4),
    ensures
        same_frame(check_cell(g, w, c), g),
        grid_wf(check_cell(g, w, c), w),
        grid_height(check_cell(g, w, c)) == grid_height(g),
        check_cell(g, w, c).len() == g.len(),
{
    lemma_with_block_shape(g, w, c.0, c.1, c.2, c.3, c.4, checked_block(g, w, c.0, c.1, c.2, c.3, c.4));
}

/// Puts `unbuilt` in front of the queue.
pub fn push_unbuilt_to_start(unbuilt: (usize, usize, bool, bool, bool), vector: &mut Vec<(usize, usize, bool, bool, bool)>)
    ensures
        final(vector)@ == seq![unbuilt] + old(vector)@,
{
    let mut unbuilt_part: Vec<(usize, usize, bool, bool, bool)> = vec![unbuilt];
    unbuilt_part.append(vector);
    *vector = unbuilt_part;
    assert(vector@ =~= seq![unbuilt] + old(vector)@);
}

/// A chunk that waits for its mesh to be rebuilt: its indices in the grid,
/// whether its faces are to be checked first, whether it is to be generated
/// again, and whether that was done.
pub type Unbuilt = (usize, usize, bool, bool, bool);

pub type Cell = (int, int, int, int, int);

/// The part of a voxel world that is not drawing: the grid of loaded chunks,
/// the chunks whose meshes wait to be rebuilt, the stored blocks, and the
/// queued changes to loaded chunks.
pub struct World {
    pub chunk_width: usize,
    pub chunk_grid: Vec<Vec<Chunk>>,
    pub unbuilt_models: Vec<Unbuilt>,
    pub set_blocks: SetBlocks,
    pub change_block: Vec<ChangeBlock>,
}

/// The block at `c`, then the one above and the one below it in its column.
pub open spec fn around_column(g: Seq<Seq<ChunkView>>, w: int, c: Cell) -> Seq<Seq<ChunkView>> {
    let (i, k, j, l, m) = c;
    let h = grid_height(g);
    let g1 = check_cell(g, w, (i, k, j, l, m));
    let g2 = if h != 1 && m != h - 1 && m < h + 1 { check_cell(g1, w, (i, k, j, l, m + 1)) } else { g1 };
    if h != 1 && m != 0 { check_cell(g2, w, (i, k, j, l, m - 1)) } else { g2 }
}

/// The neighbour with the lower `j`: in the chunk, or on its edge the last
/// block of the previous chunk, which then goes to the front of the queue.
pub open spec fn around_j_minus(g: Seq<Seq<ChunkView>>, w: int, u: Seq<Unbuilt>, c: Cell) -> (Seq<Seq<ChunkView>>, Seq<Unbuilt>) {
    let (i, k, j, l, m) = c;
    if j != 0 {
        (check_cell(g, w, (i, k, j - 1, l, m)), u)
    } else if i != 0 {
        (check_cell(g, w, (i - 1, k, w - 1, l, m)), seq![((i - 1) as usize, k as usize, false, false, false)] + u)
    } else {
        (g, u)
    }
}

/// The neighbour with the higher `j`, as `around_j_minus`.
pub open spec fn around_j_plus(g: Seq<Seq<ChunkView>>, w: int, u: Seq<Unbuilt>, c: Cell) -> (Seq<Seq<ChunkView>>, Seq<Unbuilt>) {
    let (i, k, j, l, m) = c;
    if j != w - 1 {
        (check_cell(g, w, (i, k, j + 1, l, m)), u)
    } else if i != g.len() - 1 {
        (check_cell(g, w, (i + 1, k, 0, l, m)), seq![((i + 1) as usize, k as usize, false, false, false)] + u)
    } else {
        (g, u)
    }
}

/// The neighbour with the lower `l`, as `around_j_minus`.
pub open spec fn around_l_minus(g: Seq<Seq<ChunkView>>, w: int, u: Seq<Unbuilt>, c: Cell) -> (Seq<Seq<ChunkView>>, Seq<Unbuilt>) {
    let (i, k, j, l, m) = c;
    if l != 0 {
        (check_cell(g, w, (i, k, j, l - 1, m)), u)
    } else if k != 0 {
        (check_cell(g, w, (i, k - 1, j, w - 1, m)), seq![(i as usize, (k - 1) as usize, false, false, false)] + u)
    } else {
        (g, u)
    }
}

/// The neighbour with the higher `l`, as `around_j_minus`.
pub open spec fn around_l_plus(g: Seq<Seq<ChunkView>>, w: int, u: Seq<Unbuilt>, c: Cell) -> (Seq<Seq<ChunkView>>, Seq<Unbuilt>) {
    let (i, k, j, l, m) = c;
    if l != w - 1 {
        (check_cell(g, w, (i, k, j, l + 1, m)), u)
    } else if k != g[i].len() - 1 {
        (check_cell(g, w, (i, k + 1, j, 0, m)), seq![(i as usize, (k + 1) as usize, false, false, false)] + u)
    } else {
        (g, u)
    }
}

/// The grid and queue after the faces around the block at `c` were checked:
/// the block and its column neighbours, then its four neighbours across
/// `j` and `l`; finally the block's own chunk goes to the front of the queue.
pub open spec fn around(g: Seq<Seq<ChunkView>>, w: int, u: Seq<Unbuilt>, c: Cell) -> (Seq<Seq<ChunkView>>, Seq<Unbuilt>) {
    let g3 = around_column(g, w, c);
    let p4 = around_j_minus(g3, w, u, c);
    let p5 = around_j_plus(p4.0, w, p4.1, c);
    let p6 = around_l_minus(p5.0, w, p5.1, c);
    let p7 = around_l_plus(p6.0, w, p6.1, c);
    (p7.0, seq![(c.0 as usize, c.1 as usize, false, false, false)] + p7.1)
}

fn check_cell_step(chunk_grid: &mut Vec<Vec<Chunk>>, i: usize, k: usize, j: usize, l: usize, m: usize, w: usize)
    requires
        grid_wf(old(chunk_grid).deep_view(), w as int),
        in_grid(old(chunk_grid).deep_view(), w as int, i as int, k as int, j as int, l as int, m as int),
    ensures
        final(chunk_grid).deep_view() == check_cell(old(chunk_grid).deep_view(), w as int, (i as int, k as int, j as int, l as int, m as int)),
        grid_wf(final(chunk_grid).deep_view(), w as int),
        grid_height(final(chunk_grid).deep_view()) == grid_height(old(chunk_grid).deep_view()),
        final(chunk_grid).deep_view().len() == old(chunk_grid).deep_view().len(),
        layers_ok(old(chunk_grid).deep_view()) ==> layers_ok(final(chunk_grid).deep_view()),
{
    proof {
        lemma_with_block_shape(chunk_grid.deep_view(), w as int, i as int, k as int, j as int, l as int, m as int,
            checked_block(chunk_grid.deep_view(), w as int, i as int, k as int, j as int, l as int, m as int));
    }
    check_block_sides(chunk_grid, i, k, j, l, m, w);
    proof {
        let g0 = old(chunk_grid).deep_view();
        let g1 = chunk_grid.deep_view();
        if layers_ok(g0) {
            assert forall|x: int, y: int| 0 <= x < g1.len() && 0 <= y < g1.len() implies
                (#[trigger] g1[x][y]).visible_layers.len() >= grid_height(g1) by {
                assert(g0[x].len() == g0.len());
                assert(g1[x][y].visible_layers == g0[x][y].visible_layers);
            }
        }
    }
}

/// Every chunk of the grid has a visibility flag for each of its layers.
pub open spec fn layers_ok(g: Seq<Seq<ChunkView>>) -> bool {
    forall|x: int, y: int| 0 <= x < g.len() && 0 <= y < g.len() ==> (#[trigger] g[x][y]).visible_layers.len() >= grid_height(g)
}

/// A world whose grid of chunks is well formed.
pub open spec fn world_wf(world: &World) -> bool {
    &&& grid_wf(world.chunk_grid.deep_view(), world.chunk_width as int)
    &&& layers_ok(world.chunk_grid.deep_view())
}

/// `after` differs from `before` at most in its grid and queue, and its grid
/// is well formed with the same dimensions.
pub open spec fn grid_changed(before: &World, after: &World) -> bool {
    &&& world_wf(after)
    &&& after.chunk_width == before.chunk_width
    &&& grid_height(after.chunk_grid.deep_view()) == grid_height(before.chunk_grid.deep_view())
    &&& after.chunk_grid.deep_view().len() == before.chunk_grid.deep_view().len()
    &&& after.set_blocks@ == before.set_blocks@
    &&& after.change_block@ == before.change_block@
}

fn check_column_around(world: &mut World, i: usize, k: usize, j: usize, l: usize, m: usize)
    requires
        world_wf(old(world)),
        in_grid(old(world).chunk_grid.deep_view(), old(world).chunk_width as int, i as int, k as int, j as int, l as int, m as int),
    ensures
        final(world).chunk_grid.deep_view() == around_column(old(world).chunk_grid.deep_view(), old(world).chunk_width as int,
            (i as int, k as int, j as int, l as int, m as int)),
        final(world).unbuilt_models@ == old(world).unbuilt_models@,
        grid_changed(old(world), final(world)),
{
    let w = world.chunk_width;
    let ghost g = world.chunk_grid.deep_view();
    assert(g[i as int].len() == g.len());
    assert(is_box(g[i as int][k as int].blocks, w as int, w as int, grid_height(g)));
    proof {
        lemma_grid_index(&world.chunk_grid, i as int, k as int, j as int, l as int);
    }
    let h = world.chunk_grid[i][k].blocks[j][l].len();
    check_cell_step(&mut world.chunk_grid, i, k, j, l, m, w);
    if h != 1 && m != h - 1 && m <= h {
        check_cell_step(&mut world.chunk_grid, i, k, j, l, m + 1, w);
    }
    if h != 1 && m != 0 {
        check_cell_step(&mut world.chunk_grid, i, k, j, l, m - 1, w);
    }
}

fn check_j_minus(world: &mut World, i: usize, k: usize, j: usize, l: usize, m: usize)
    requires
        world_wf(old(world)),
        in_grid(old(world).chunk_grid.deep_view(), old(world).chunk_width as int, i as int, k as int, j as int, l as int, m as int),
    ensures
        (final(world).chunk_grid.deep_view(), final(world).unbuilt_models@) == around_j_minus(old(world).chunk_grid.deep_view(),
            old(world).chunk_width as int, old(world).unbuilt_models@, (i as int, k as int, j as int, l as int, m as int)),
        grid_changed(old(world), final(world)),
{
    let w = world.chunk_width;
    if j != 0 {
        check_cell_step(&mut world.chunk_grid, i, k, j - 1, l, m, w);
    } else if i != 0 {
        check_cell_step(&mut world.chunk_grid, i - 1, k, w - 1, l, m, w);
        push_unbuilt_to_start((i - 1, k, false, false, false), &mut world.unbuilt_models);
    }
}

fn check_j_plus(world: &mut World, i: usize, k: usize, j: usize, l: usize, m: usize)
    requires
        world_wf(old(world)),
        in_grid(old(world).chunk_grid.deep_view(), old(world).chunk_width as int, i as int, k as int, j as int, l as int, m as int),
    ensures
        (final(world).chunk_grid.deep_view(), final(world).unbuilt_models@) == around_j_plus(old(world).chunk_grid.deep_view(),
            old(world).chunk_width as int, old(world).unbuilt_models@, (i as int, k as int, j as int, l as int, m as int)),
        grid_changed(old(world), final(world)),
{
    let w = world.chunk_width;
    let n = world.chunk_grid.len();
    if j != w - 1 {
        check_cell_step(&mut world.chunk_grid, i, k, j + 1, l, m, w);
    } else if i != n - 1 {
        check_cell_step(&mut world.chunk_grid, i + 1, k, 0, l, m, w);
        push_unbuilt_to_start((i + 1, k, false, false, false), &mut world.unbuilt_models);
    }
}

fn check_l_minus(world: &mut World, i: usize, k: usize, j: usize, l: usize, m: usize)
    requires
        world_wf(old(world)),
        in_grid(old(world).chunk_grid.deep_view(), old(world).chunk_width as int, i as int, k as int, j as int, l as int, m as int),
    ensures
        (final(world).chunk_grid.deep_view(), final(world).unbuilt_models@) == around_l_minus(old(world).chunk_grid.deep_view(),
            old(world).chunk_width as int, old(world).unbuilt_models@, (i as int, k as int, j as int, l as int, m as int)),
        grid_changed(old(world), final(world)),
{
    let w = world.chunk_width;
    if l != 0 {
        check_cell_step(&mut world.chunk_grid, i, k, j, l - 1, m, w);
    } else if k != 0 {
        check_cell_step(&mut world.chunk_grid, i, k - 1, j, w - 1, m, w);
        push_unbuilt_to_start((i, k - 1, false, false, false), &mut world.unbuilt_models);
    }
}

fn check_l_plus(world: &mut World, i: usize, k: usize, j: usize, l: usize, m: usize)
    requires
        world_wf(old(world)),
        in_grid(old(world).chunk_grid.deep_view(), old(world).chunk_width as int, i as int, k as int, j as int, l as int, m as int),
    ensures
        (final(world).chunk_grid.deep_view(), final(world).unbuilt_models@) == around_l_plus(old(world).chunk_grid.deep_view(),
            old(world).chunk_width as int, old(world).unbuilt_models@, (i as int, k as int, j as int, l as int, m as int)),
        grid_changed(old(world), final(world)),
{
    let w = world.chunk_width;
    let ghost g = world.chunk_grid.deep_view();
    assert(g[i as int].len() == g.len());
    assert(g[i as int] == world.chunk_grid@[i as int].deep_view());
    if l != w - 1 {
        check_cell_step(&mut world.chunk_grid, i, k, j, l + 1, m, w);
    } else if k != world.chunk_grid[i].len() - 1 {
        check_cell_step(&mut world.chunk_grid, i, k + 1, j, 0, m, w);
        push_unbuilt_to_start((i, k + 1, false, false, false), &mut world.unbuilt_models);
    }
}

/// Checks the faces of the block at `(i, k, j, l, m)` and of the blocks
/// around it, and queues the chunks whose meshes change; see `around`.
pub fn check_blocks_around_block(world: &mut World, i: usize, k: usize, j: usize, l: usize, m: usize)
    requires
        world_wf(old(world)),
        in_grid(old(world).chunk_grid.deep_view(), old(world).chunk_width as int, i as int, k as int, j as int, l as int, m as int),
    ensures
        (final(world).chunk_grid.deep_view(), final(world).unbuilt_models@) == around(old(world).chunk_grid.deep_view(),
            old(world).chunk_width as int, old(world).unbuilt_models@, (i as int, k as int, j as int, l as int, m as int)),
        grid_changed(old(world), final(world)),
{
    check_column_around(world, i, k, j, l, m);
    check_j_minus(world, i, k, j, l, m);
    check_j_plus(world, i, k, j, l, m);
    check_l_minus(world, i, k, j, l, m);
    check_l_plus(world, i, k, j, l, m);
    push_unbuilt_to_start((i, k, false, false, false), &mut world.unbuilt_models);
}

/// The grid after the blocks `(i, k, j, l, 0)` to `(i, k, j, l, n - 1)` were
/// checked in order.
pub open spec fn check_column_cells(g: Seq<Seq<ChunkView>>, w: int, i: int, k: int, j: int, l: int, n: int) -> Seq<Seq<ChunkView>>
    decreases n,
{
    if n <= 0 {
        g
    } else {
        check_cell(check_column_cells(g, w, i, k, j, l, n - 1), w, (i, k, j, l, n - 1))
    }
}

/// The grid after the columns `(i, k, j, 0)` to `(i, k, j, n - 1)` were
/// checked in order.
pub open spec fn check_slab_cells(g: Seq<Seq<ChunkView>>, w: int, h: int, i: int, k: int, j: int, n: int) -> Seq<Seq<ChunkView>>
    decreases n,
{
    if n <= 0 {
        g
    } else {
        check_column_cells(check_slab_cells(g, w, h, i, k, j, n - 1), w, i, k, j, n - 1, h)
    }
}

/// The grid after the slabs `(i, k, 0)` to `(i, k, n - 1)` of chunk `(i, k)`
/// were checked in order.
pub open spec fn check_chunk_cells(g: Seq<Seq<ChunkView>>, w: int, h: int, i: int, k: int, n: int) -> Seq<Seq<ChunkView>>
    decreases n,
{
    if n <= 0 {
        g
    } else {
        check_slab_cells(check_chunk_cells(g, w, h, i, k, n - 1), w, h, i, k, n - 1, w)
    }
}

/// The grid after chunks `(i, 0)` to `(i, n - 1)` were checked in order.
pub open spec fn check_row_chunks(g: Seq<Seq<ChunkView>>, w: int, h: int, i: int, n: int) -> Seq<Seq<ChunkView>>
    decreases n,
{
    if n <= 0 {
        g
    } else {
        check_chunk_cells(check_row_chunks(g, w, h, i, n - 1), w, h, i, n - 1, w)
    }
}

/// The grid after rows `0` to `n - 1` of chunks were checked in order.
pub open spec fn check_all_chunks(g: Seq<Seq<ChunkView>>, w: int, h: int, n: int) -> Seq<Seq<ChunkView>>
    decreases n,
{
    if n <= 0 {
        g
    } else {
        check_row_chunks(check_all_chunks(g, w, h, n - 1), w, h, n - 1, g.len() as int)
    }
}

/// Checks the faces of every block of chunk `(i, k)`, slab by slab.
pub fn check_chunk_visibility(world: &mut World, i: usize, k: usize)
    requires
        world_wf(old(world)),
        i < old(world).chunk_grid.deep_view().len(),
        k < old(world).chunk_grid.deep_view().len(),
    ensures
        final(world).chunk_grid.deep_view() == check_chunk_cells(old(world).chunk_grid.deep_view(), old(world).chunk_width as int,
            grid_height(old(world).chunk_grid.deep_view()), i as int, k as int, old(world).chunk_width as int),
        final(world).unbuilt_models@ == old(world).unbuilt_models@,
        grid_changed(old(world), final(world)),
{
    let ghost g0 = world.chunk_grid.deep_view();
    let ghost h = grid_height(g0);
    let w = world.chunk_width;
    let ghost set0 = world.set_blocks@;
    let ghost cb0 = world.change_block@;
    let ghost ub0 = world.unbuilt_models@;
    let mut j: usize = 0;
    while j < w
        invariant
            j <= w,
            w == world.chunk_width,
            world_wf(world),
            i < g0.len(),
            k < g0.len(),
            world.chunk_grid.deep_view().len() == g0.len(),
            grid_height(world.chunk_grid.deep_view()) == h,
            world.chunk_grid.deep_view() == check_chunk_cells(g0, w as int, h, i as int, k as int, j as int),
            world.set_blocks@ == set0,
            world.change_block@ == cb0,
            world.unbuilt_models@ == ub0,
        decreases w - j,
    {
        let mut l: usize = 0;
        while l < w
            invariant
                l <= w,
                j < w,
                w == world.chunk_width,
                world_wf(world),
                i < g0.len(),
                k < g0.len(),
                world.chunk_grid.deep_view().len() == g0.len(),
                grid_height(world.chunk_grid.deep_view()) == h,
                world.chunk_grid.deep_view() == check_slab_cells(check_chunk_cells(g0, w as int, h, i as int, k as int, j as int),
                    w as int, h, i as int, k as int, j as int, l as int),
                world.set_blocks@ == set0,
                world.change_block@ == cb0,
                world.unbuilt_models@ == ub0,
            decreases w - l,
        {
            let ghost g = world.chunk_grid.deep_view();
            assert(g[i as int].len() == g.len());
            assert(is_box(g[i as int][k as int].blocks, w as int, w as int, h));
            proof {
                lemma_grid_index(&world.chunk_grid, i as int, k as int, j as int, l as int);
            }
            let col_len = world.chunk_grid[i][k].blocks[j][l].len();
            let mut m: usize = 0;
            while m < col_len
                invariant
                    m <= col_len,
                    col_len == h,
                    l < w,
                    j < w,
                    w == world.chunk_width,
                    world_wf(world),
                    i < g0.len(),
                    k < g0.len(),
                    world.chunk_grid.deep_view().len() == g0.len(),
                    grid_height(world.chunk_grid.deep_view()) == h,
                    world.chunk_grid.deep_view() == check_column_cells(
                        check_slab_cells(check_chunk_cells(g0, w as int, h, i as int, k as int, j as int), w as int, h, i as int, k as int, j as int, l as int),
                        w as int, i as int, k as int, j as int, l as int, m as int),
                    world.set_blocks@ == set0,
                    world.change_block@ == cb0,
                    world.unbuilt_models@ == ub0,
                decreases col_len - m,
            {
                check_cell_step(&mut world.chunk_grid, i, k, j, l, m, w);
                m = m + 1;
            }
            l = l + 1;
        }
        j = j + 1;
    }
}

/// Checks the faces of every block of every chunk, chunk by chunk.
pub fn check_visibility(world: &mut World)
    requires
        world_wf(old(world)),
    ensures
        final(world).chunk_grid.deep_view() == check_all_chunks(old(world).chunk_grid.deep_view(), old(world).chunk_width as int,
            grid_height(old(world).chunk_grid.deep_view()), old(world).chunk_grid.deep_view().len() as int),
        final(world).unbuilt_models@ == old(world).unbuilt_models@,
        grid_changed(old(world), final(world)),
{
    let ghost g0 = world.chunk_grid.deep_view();
    let ghost h = grid_height(g0);
    let ghost set0 = world.set_blocks@;
    let ghost cb0 = world.change_block@;
    let ghost ub0 = world.unbuilt_models@;
    let ghost w0 = world.chunk_width;
    let n = world.chunk_grid.len();
    let mut i: usize = 0;
    while i < n
        invariant
            i <= n,
            n == g0.len(),
            world_wf(world),
            world.chunk_width == w0,
            world.chunk_grid.deep_view().len() == g0.len(),
            grid_height(world.chunk_grid.deep_view()) == h,
            world.chunk_grid.deep_view() == check_all_chunks(g0, w0 as int, h, i as int),
            world.set_blocks@ == set0,
            world.change_block@ == cb0,
            world.unbuilt_models@ == ub0,
        decreases n - i,
    {
        let ghost g = world.chunk_grid.deep_view();
        assert(g[i as int].len() == g.len());
        assert(g[i as int] == world.chunk_grid@[i as int].deep_view());
        let row_len = world.chunk_grid[i].len();
        let mut k: usize = 0;
        while k < row_len
            invariant
                k <= row_len,
                row_len == n,
                i < n,
                n == g0.len(),
                world_wf(world),
                world.chunk_width == w0,
                world.chunk_grid.deep_view().len() == g0.len(),
                grid_height(world.chunk_grid.deep_view()) == h,
                world.chunk_grid.deep_view() == check_row_chunks(check_all_chunks(g0, w0 as int, h, i as int), w0 as int, h, i as int, k as int),
                world.set_blocks@ == set0,
                world.change_block@ == cb0,
                world.unbuilt_models@ == ub0,
            decreases row_len - k,
        {
            check_chunk_visibility(world, i, k);
            k = k + 1;
        }
        i = i + 1;
    }
}

/// The abstract value of a world.
#[verifier::ext_equal]
pub struct WorldView {
    pub chunk_width: usize,
    pub grid: Seq<Seq<ChunkView>>,
    pub unbuilt: Seq<Unbuilt>,
    pub set_blocks: Map<Seq<u8>, u8>,
    pub change_block: Seq<ChangeBlock>,
}

impl View for World {
    type V = WorldView;

    open spec fn view(&self) -> WorldView {
        WorldView {
            chunk_width: self.chunk_width,
            grid: self.chunk_grid.deep_view(),
            unbuilt: self.unbuilt_models@,
            set_blocks: self.set_blocks@,
            change_block: self.change_block@,
        }
    }
}

/// The last item moved to the front.
pub open spec fn rotated_right<T>(s: Seq<T>) -> Seq<T> {
    if s.len() == 0 { s } else { seq![s.last()] + s.drop_last() }
}

/// The first item moved to the back.
pub open spec fn rotated_left<T>(s: Seq<T>) -> Seq<T> {
    if s.len() == 0 { s } else { s.drop_first().push(s[0]) }
}

fn rotate_right<T>(v: &mut Vec<T>)
    ensures
        final(v)@ == rotated_right(old(v)@),
{
    if v.len() > 0 {
        let x = v.pop().unwrap();
        v.insert(0, x);
        assert(v@ =~= rotated_right(old(v)@));
    }
}

fn rotate_left<T>(v: &mut Vec<T>)
    ensures
        final(v)@ == rotated_left(old(v)@),
{
    if v.len() > 0 {
        let x = v.remove(0);
        v.push(x);
        assert(v@ =~= rotated_left(old(v)@));
    }
}

/// A chunk moved to grid coordinates `(gx, gz)`.
pub open spec fn with_coords(c: ChunkView, gx: int, gz: int) -> ChunkView {
    ChunkView { grid_x: gx as i32, grid_z: gz as i32, ..c }
}

/// The grid after the world moved one chunk in direction `dir`. For 2 (and
/// more than one row) the last row wraps round to the front and takes the
/// place one step before the former first row; for 4 the first row wraps
/// round to the back, one step after the former last row. For 1 and 3 every
/// row does the same with its chunks, along the other axis. Any other
/// direction leaves the grid as it is.
pub open spec fn moved_grid(g: Seq<Seq<ChunkView>>, dir: usize) -> Seq<Seq<ChunkView>> {
    let n = g.len() as int;
    if dir == 2 && n >= 2 {
        let r = rotated_right(g);
        r.update(0, Seq::new(r[0].len(), |y: int| with_coords(r[0][y], g[0][y].grid_x - 1, g[0][y].grid_z as int)))
    } else if dir == 4 && n >= 2 {
        let r = rotated_left(g);
        r.update(n - 1, Seq::new(r[n - 1].len(), |y: int| with_coords(r[n - 1][y], g[n - 1][y].grid_x + 1, g[n - 1][y].grid_z as int)))
    } else if dir == 1 {
        Seq::new(g.len(), |x: int| {
            let row = rotated_right(g[x]);
            row.update(0, with_coords(row[0], g[x][0].grid_x as int, g[x][0].grid_z - 1))
        })
    } else if dir == 3 {
        Seq::new(g.len(), |x: int| {
            let row = rotated_left(g[x]);
            row.update(n - 1, with_coords(row[n - 1], g[x][n - 1].grid_x as int, g[x][n - 1].grid_z + 1))
        })
    } else {
        g
    }
}

/// The three chunks queued for the `t`-th row or column when the world
/// moves in direction `dir`: the chunk that wrapped round, to be checked and
/// generated again, and its two neighbours, to be checked.
pub open spec fn move_pushes(n: int, dir: usize, t: int) -> Seq<Unbuilt> {
    let tt = t as usize;
    if dir == 2 {
        seq![(0usize, tt, true, true, false), (1usize, tt, true, false, false), ((n - 1) as usize, tt, true, false, false)]
    } else if dir == 4 {
        seq![((n - 1) as usize, tt, true, true, false), ((n - 2) as usize, tt, true, false, false), (0usize, tt, true, false, false)]
    } else if dir == 1 {
        seq![(tt, 0usize, true, true, false), (tt, 1usize, true, false, false), (tt, (n - 1) as usize, true, false, false)]
    } else {
        seq![(tt, (n - 1) as usize, true, true, false), (tt, (n - 2) as usize, true, false, false), (tt, 0usize, true, false, false)]
    }
}

/// `u` followed by the pushes of rows or columns `0` to `c - 1`.
pub open spec fn pushes_upto(u: Seq<Unbuilt>, n: int, dir: usize, c: int) -> Seq<Unbuilt>
    decreases c,
{
    if c <= 0 { u } else { pushes_upto(u, n, dir, c - 1) + move_pushes(n, dir, c - 1) }
}

/// The queue after the world moved in direction `dir`.
pub open spec fn moved_unbuilt(u: Seq<Unbuilt>, n: int, dir: usize) -> Seq<Unbuilt> {
    if ((dir == 2 || dir == 4) && n >= 2) || dir == 1 || dir == 3 { pushes_upto(u, n, dir, n) } else { u }
}

/// Moving in direction `dir` keeps grid coordinates in range, and a move
/// in direction 3 has at least two chunks per row.
pub open spec fn move_in_range(g: Seq<Seq<ChunkView>>, dir: usize) -> bool {
    let n = g.len() as int;
    &&& dir == 2 && n >= 2 ==> forall|y: int| 0 <= y < n ==> (#[trigger] g[0][y]).grid_x > i32::MIN
    &&& dir == 4 && n >= 2 ==> forall|y: int| 0 <= y < n ==> (#[trigger] g[n - 1][y]).grid_x < i32::MAX
    &&& dir == 1 ==> forall|x: int| 0 <= x < n ==> (#[trigger] g[x][0]).grid_z > i32::MIN
    &&& dir == 3 ==> n >= 2 && forall|x: int| 0 <= x < n ==> (#[trigger] g[x][n - 1]).grid_z < i32::MAX
}

proof fn lemma_rotate_deep(a: &Vec<Vec<Chunk>>, b: &Vec<Vec<Chunk>>, right: bool)
    requires
        b@ == (if right { rotated_right(a@) } else { rotated_left(a@) }),
    ensures
        b.deep_view() =~~= (if right { rotated_right(a.deep_view()) } else { rotated_left(a.deep_view()) }),
{
    let av = a.deep_view();
    let bv = b.deep_view();
    if a@.len() > 0 {
        assert forall|x: int| 0 <= x < bv.len() implies #[trigger] bv[x] == (if right { rotated_right(av) } else { rotated_left(av) })[x] by {
            if right {
                if x == 0 { assert(b@[x] == a@[a@.len() - 1]); } else { assert(b@[x] == a@[x - 1]); }
            } else {
                if x == a@.len() - 1 { assert(b@[x] == a@[0]); } else { assert(b@[x] == a@[x + 1]); }
            }
        }
    }
}

proof fn lemma_rotate_row_deep(a: &Vec<Chunk>, b: &Vec<Chunk>, right: bool)
    requires
        b@ == (if right { rotated_right(a@) } else { rotated_left(a@) }),
    ensures
        b.deep_view() =~~= (if right { rotated_right(a.deep_view()) } else { rotated_left(a.deep_view()) }),
{
    let av = a.deep_view();
    let bv = b.deep_view();
    if a@.len() > 0 {
        assert forall|x: int| 0 <= x < bv.len() implies #[trigger] bv[x] == (if right { rotated_right(av) } else { rotated_left(av) })[x] by {
            if right {
                if x == 0 { assert(b@[x] == a@[a@.len() - 1]); } else { assert(b@[x] == a@[x - 1]); }
            } else {
                if x == a@.len() - 1 { assert(b@[x] == a@[0]); } else { assert(b@[x] == a@[x + 1]); }
            }
        }
    }
}

fn push_three(u: &mut Vec<Unbuilt>, a: Unbuilt, b: Unbuilt, c: Unbuilt)
    ensures
        final(u)@ == old(u)@ + seq![a, b, c],
{
    u.push(a);
    u.push(b);
    u.push(c);
    assert(u@ =~= old(u)@ + seq![a, b, c]);
}

/// Where chunk `(x, y)` of the moved grid was before the move.
pub open spec fn moved_from(n: int, dir: usize, x: int, y: int) -> (int, int) {
    if dir == 2 && n >= 2 {
        (if x == 0 { n - 1 } else { x - 1 }, y)
    } else if dir == 4 && n >= 2 {
        (if x == n - 1 { 0 } else { x + 1 }, y)
    } else if dir == 1 {
        (x, if y == 0 { n - 1 } else { y - 1 })
    } else if dir == 3 {
        (x, if y == n - 1 { 0 } else { y + 1 })
    } else {
        (x, y)
    }
}

/// Chunk `(x, y)` of a moved grid is chunk `moved_from(..)` of the grid
/// before the move, with the same blocks, mesh and layer flags.
pub proof fn lemma_moved_chunk(g: Seq<Seq<ChunkView>>, dir: usize, x: int, y: int)
    requires
        forall|a: int| 0 <= a < g.len() ==> #[trigger] g[a].len() == g.len(),
        0 <= x < g.len(),
        0 <= y < g.len(),
    ensures
        ({
            let f = moved_from(g.len() as int, dir, x, y);
            let c = moved_grid(g, dir)[x][y];
            let o = g[f.0][f.1];
            &&& 0 <= f.0 < g.len()
            &&& 0 <= f.1 < g.len()
            &&& c.blocks == o.blocks
            &&& c.visible_layers == o.visible_layers
            &&& c.vertices == o.vertices
            &&& c.transparencies == o.transparencies
            &&& moved_grid(g, dir)[x].len() == g.len()
        }),
        moved_grid(g, dir).len() == g.len(),
{
    let n = g.len() as int;
    assert(g[x].len() == n);
    assert(g[n - 1].len() == n);
    assert(g[0].len() == n);
}

/// A grid moved in any direction keeps its shape and its chunks' layer
/// flags.
pub proof fn lemma_moved_wf(g: Seq<Seq<ChunkView>>, w: int, dir: usize)
    requires
        grid_wf(g, w),
        layers_ok(g),
    ensures
        grid_wf(moved_grid(g, dir), w),
        layers_ok(moved_grid(g, dir)),
        grid_height(moved_grid(g, dir)) == grid_height(g),
        moved_grid(g, dir).len() == g.len(),
{
    let m = moved_grid(g, dir);
    let n = g.len() as int;
    lemma_moved_chunk(g, dir, 0, 0);
    let f0 = moved_from(n, dir, 0, 0);
    assert(is_box(g[f0.0][f0.1].blocks, w, w, grid_height(g)));
    assert(is_box(g[0][0].blocks, w, w, grid_height(g)));
    assert(g[f0.0][f0.1].blocks[0].len() == w);
    assert(grid_height(m) == grid_height(g));
    assert forall|x: int| 0 <= x < m.len() implies #[trigger] m[x].len() == m.len() by {
        lemma_moved_chunk(g, dir, x, 0);
    }
    assert forall|x: int, y: int| 0 <= x < m.len() && 0 <= y < m.len() implies is_box(#[trigger] m[x][y].blocks, w, w, grid_height(m)) by {
        lemma_moved_chunk(g, dir, x, y);
        let f = moved_from(n, dir, x, y);
        assert(is_box(g[f.0][f.1].blocks, w, w, grid_height(g)));
    }
    assert forall|x: int, y: int| 0 <= x < m.len() && 0 <= y < m.len() implies (#[trigger] m[x][y]).visible_layers.len() >= grid_height(m) by {
        lemma_moved_chunk(g, dir, x, y);
        let f = moved_from(n, dir, x, y);
        assert(g[f.0][f.1].visible_layers.len() >= grid_height(g));
    }
}

impl World {
    /// Moves the world one chunk in direction `change_direction` and queues
    /// the chunks that need their faces checked, or to be generated again;
    /// see `moved_grid` and `moved_unbuilt`.
    pub fn move_chunks(&mut self, change_direction: usize)
        requires
            world_wf(old(self)),
            move_in_range(old(self)@.grid, change_direction),
        ensures
            final(self)@ =~~= (WorldView {
                grid: moved_grid(old(self)@.grid, change_direction),
                unbuilt: moved_unbuilt(old(self)@.unbuilt, old(self)@.grid.len() as int, change_direction),
                ..old(self)@
            }),
            world_wf(final(self)),
    {
        proof {
            lemma_moved_wf(old(self)@.grid, old(self).chunk_width as int, change_direction);
        }
        let ghost g = self@.grid;
        let ghost u0 = self@.unbuilt;
        let length = self.chunk_grid.len();
        assert(forall|x: int| 0 <= x < g.len() ==> #[trigger] g[x].len() == g.len());
        if change_direction == 2 && length >= 2 {
            let ghost a = self.chunk_grid@;
            rotate_right(&mut self.chunk_grid);
            proof { lemma_rotate_deep(&old(self).chunk_grid, &self.chunk_grid, true); }
            let ghost r = rotated_right(g);
            let mut k: usize = 0;
            while k < length
                invariant
                    k <= length,
                    length == g.len(),
                    length >= 2,
                    forall|x: int| 0 <= x < g.len() ==> #[trigger] g[x].len() == g.len(),
                    move_in_range(g, change_direction),
                    change_direction == 2,
                    r == rotated_right(g),
                    self.chunk_grid.deep_view() =~~= r.update(0, Seq::new(r[0].len(), |y: int|
                        if y < k { with_coords(r[0][y], g[0][y].grid_x - 1, g[0][y].grid_z as int) } else { r[0][y] })),
                    self.unbuilt_models@ == pushes_upto(u0, length as int, change_direction, k as int),
                    self.chunk_width == old(self).chunk_width,
                    self.set_blocks@ == old(self).set_blocks@,
                    self.change_block@ == old(self).change_block@,
                decreases length - k,
            {
                let ghost cur = self.chunk_grid.deep_view();
                assert(cur[1] == self.chunk_grid@[1].deep_view());
                assert(cur[1][k as int] == g[0][k as int]);
                assert(g[0].len() == length);
                let grid = self.chunk_grid[1][k].get_grid();
                assert(cur[0] == self.chunk_grid@[0].deep_view());
                assert(cur[0].len() == length);
                let ghost c0 = self.chunk_grid@[0]@[k as int];
                assert(cur[0][k as int] == c0.deep_view());
                self.chunk_grid[0][k].grid_x = grid.0 - 1;
                self.chunk_grid[0][k].grid_z = grid.1;
                proof {
                    let nw = self.chunk_grid.deep_view();
                    assert(nw[0] == self.chunk_grid@[0].deep_view());
                    assert forall|x: int| 0 <= x < nw.len() && x != 0 implies #[trigger] nw[x] == cur[x] by {
                        assert(nw[x] == self.chunk_grid@[x].deep_view());
                    }
                    let target = r.update(0, Seq::new(r[0].len(), |y: int|
                        if y < k + 1 { with_coords(r[0][y], g[0][y].grid_x - 1, g[0][y].grid_z as int) } else { r[0][y] }));
                    assert forall|y: int| 0 <= y < nw[0].len() implies #[trigger] nw[0][y] == target[0][y] by {
                        if y != k {
                            assert(nw[0][y] == cur[0][y]);
                        } else {
                            assert(nw[0][y] == self.chunk_grid@[0]@[y].deep_view());
                            assert(nw[0][y] =~~= ChunkView { grid_x: (grid.0 - 1) as i32, grid_z: grid.1, ..c0.deep_view() });
                        }
                    }
                    assert(nw[0] =~~= target[0]);
                    assert forall|x: int| 0 <= x < nw.len() implies #[trigger] nw[x] =~~= target[x] by {
                        if x != 0 {
                            assert(nw[x] == cur[x]);
                        }
                    }
                }
                push_three(&mut self.unbuilt_models,
                    (0, k, true, true, false), (1, k, true, false, false), (length - 1, k, true, false, false));
                    assert(move_pushes(length as int, change_direction, k as int) == seq![(0usize, k, true, true, false), (1usize, k, true, false, false), ((length - 1) as usize, k, true, false, false)]);
                k = k + 1;
            }
        } else if change_direction == 4 && length >= 2 {
            rotate_left(&mut self.chunk_grid);
            proof { lemma_rotate_deep(&old(self).chunk_grid, &self.chunk_grid, false); }
            let ghost r = rotated_left(g);
            let mut k: usize = 0;
            while k < length
                invariant
                    k <= length,
                    length == g.len(),
                    length >= 2,
                    forall|x: int| 0 <= x < g.len() ==> #[trigger] g[x].len() == g.len(),
                    move_in_range(g, change_direction),
                    change_direction == 4,
                    r == rotated_left(g),
                    self.chunk_grid.deep_view() =~~= r.update(length - 1, Seq::new(r[length - 1].len(), |y: int|
                        if y < k { with_coords(r[length - 1][y], g[length - 1][y].grid_x + 1, g[length - 1][y].grid_z as int) } else { r[length - 1][y] })),
                    self.unbuilt_models@ == pushes_upto(u0, length as int, change_direction, k as int),
                    self.chunk_width == old(self).chunk_width,
                    self.set_blocks@ == old(self).set_blocks@,
                    self.change_block@ == old(self).change_block@,
                decreases length - k,
            {
                let ghost cur = self.chunk_grid.deep_view();
                assert(cur[length - 2] == self.chunk_grid@[length - 2].deep_view());
                assert(cur[length - 2][k as int] == g[length - 1][k as int]);
                assert(g[length - 1].len() == length);
                let grid = self.chunk_grid[length - 2][k].get_grid();
                assert(cur[length - 1] == self.chunk_grid@[length - 1].deep_view());
                assert(cur[length - 1].len() == length);
                let ghost c0 = self.chunk_grid@[length - 1]@[k as int];
                assert(cur[length - 1][k as int] == c0.deep_view());
                self.chunk_grid[length - 1][k].grid_x = grid.0 + 1;
                self.chunk_grid[length - 1][k].grid_z = grid.1;
                proof {
                    let nw = self.chunk_grid.deep_view();
                    let last = length - 1;
                    assert(nw[last] == self.chunk_grid@[last].deep_view());
                    assert forall|x: int| 0 <= x < nw.len() && x != last implies #[trigger] nw[x] == cur[x] by {
                        assert(nw[x] == self.chunk_grid@[x].deep_view());
                    }
                    let target = r.update(last, Seq::new(r[last].len(), |y: int|
                        if y < k + 1 { with_coords(r[last][y], g[last][y].grid_x + 1, g[last][y].grid_z as int) } else { r[last][y] }));
                    assert forall|y: int| 0 <= y < nw[last].len() implies #[trigger] nw[last][y] == target[last][y] by {
                        if y != k {
                            assert(nw[last][y] == cur[last][y]);
                        } else {
                            assert(nw[last][y] == self.chunk_grid@[last]@[y].deep_view());
                            assert(nw[last][y] =~~= ChunkView { grid_x: (grid.0 + 1) as i32, grid_z: grid.1, ..c0.deep_view() });
                        }
                    }
                    assert(nw[last] =~~= target[last]);
                    assert forall|x: int| 0 <= x < nw.len() implies #[trigger] nw[x] =~~= target[x] by {
                        if x != last {
                            assert(nw[x] == cur[x]);
                        }
                    }
                }
                push_three(&mut self.unbuilt_models,
                    (length - 1, k, true, true, false), (length - 2, k, true, false, false), (0, k, true, false, false));
                    assert(move_pushes(length as int, change_direction, k as int) == seq![((length - 1) as usize, k, true, true, false), ((length - 2) as usize, k, true, false, false), (0usize, k, true, false, false)]);
                k = k + 1;
            }
        } else if change_direction == 1 || change_direction == 3 {
            let mut i: usize = 0;
            while i < length
                invariant
                    i <= length,
                    length == g.len(),
                    forall|x: int| 0 <= x < g.len() ==> #[trigger] g[x].len() == g.len(),
                    move_in_range(g, change_direction),
                    change_direction == 1 || change_direction == 3,
                    self.chunk_grid.deep_view().len() == length,
                    forall|x: int| 0 <= x < length ==> (#[trigger] self.chunk_grid.deep_view()[x]) ==
                        if x < i { moved_grid(g, change_direction)[x] } else { g[x] },
                    self.unbuilt_models@ == pushes_upto(u0, length as int, change_direction, i as int),
                    self.chunk_width == old(self).chunk_width,
                    self.set_blocks@ == old(self).set_blocks@,
                    self.change_block@ == old(self).change_block@,
                decreases length - i,
            {
                let ghost cur = self.chunk_grid.deep_view();
                assert(cur[i as int] == g[i as int]);
                assert(cur[i as int] == self.chunk_grid@[i as int].deep_view());
                let ghost row0 = self.chunk_grid@[i as int];
                if change_direction == 1 {
                    rotate_right(&mut self.chunk_grid[i]);
                    proof { lemma_rotate_row_deep(&row0, &self.chunk_grid@[i as int], true); }
                    let src: usize = if length >= 2 { 1 } else { 0 };
                    assert(self.chunk_grid.deep_view()[i as int] == self.chunk_grid@[i as int].deep_view());
                    let grid = self.chunk_grid[i][src].get_grid();
                    self.chunk_grid[i][0].grid_x = grid.0;
                    self.chunk_grid[i][0].grid_z = grid.1 - 1;
                    proof {
                        let nw = self.chunk_grid.deep_view();
                        assert(nw[i as int] == self.chunk_grid@[i as int].deep_view());
                        assert(nw[i as int] =~~= moved_grid(g, change_direction)[i as int]);
                        assert forall|x: int| 0 <= x < length && x != i implies #[trigger] nw[x] == cur[x] by {
                            assert(nw[x] == self.chunk_grid@[x].deep_view());
                        }
                    }
                    push_three(&mut self.unbuilt_models,
                        (i, 0, true, true, false), (i, 1, true, false, false), (i, length - 1, true, false, false));
                        assert(move_pushes(length as int, change_direction, i as int) == seq![(i, 0usize, true, true, false), (i, 1usize, true, false, false), (i, (length - 1) as usize, true, false, false)]);
                } else {
                    rotate_left(&mut self.chunk_grid[i]);
                    proof { lemma_rotate_row_deep(&row0, &self.chunk_grid@[i as int], false); }
                    assert(self.chunk_grid.deep_view()[i as int] == self.chunk_grid@[i as int].deep_view());
                    let grid = self.chunk_grid[i][length - 2].get_grid();
                    self.chunk_grid[i][length - 1].grid_x = grid.0;
                    self.chunk_grid[i][length - 1].grid_z = grid.1 + 1;
                    proof {
                        let nw = self.chunk_grid.deep_view();
                        assert(nw[i as int] == self.chunk_grid@[i as int].deep_view());
                        assert(nw[i as int] =~~= moved_grid(g, change_direction)[i as int]);
                        assert forall|x: int| 0 <= x < length && x != i implies #[trigger] nw[x] == cur[x] by {
                            assert(nw[x] == self.chunk_grid@[x].deep_view());
                        }
                    }
                    push_three(&mut self.unbuilt_models,
                        (i, length - 1, true, true, false), (i, length - 2, true, false, false), (i, 0, true, false, false));
                        assert(move_pushes(length as int, change_direction, i as int) == seq![(i, (length - 1) as usize, true, true, false), (i, (length - 2) as usize, true, false, false), (i, 0usize, true, false, false)]);
                }
                i = i + 1;
            }
            assert(self.chunk_grid.deep_view() =~~= moved_grid(g, change_direction));
        }
    }
}

/// What generating the chunk at `(i, k)` gives, and leaves of the queued
/// changes and stored blocks; see `Chunk::init`.
pub open spec fn init_chunk(
    cb: Seq<ChangeBlock>, sb: Map<Seq<u8>, u8>, i: usize, k: usize, columns: Seq<Seq<ColumnValues>>, trees: Seq<TreeSite>,
    w: usize, seed: u32, mid: u8, ug: u8, sky: u8, n: usize,
) -> (ChunkView, Seq<ChangeBlock>, Map<Seq<u8>, u8>) {
    let g = generated(TreeState { blocks: Seq::empty(), change_block: cb, set_blocks: sb }, false, w as int,
        (mid + ug + sky) as int, columns, trees, i, k, i as i32, k as i32, (11 + ug) as u8, ug, n);
    (ChunkView {
        blocks: g.blocks,
        grid_x: i as i32,
        grid_z: k as i32,
        vertices: Seq::empty(),
        transparencies: Seq::empty(),
        world_gen_seed: seed,
        underground_height: ug,
        sky_height: sky,
        mid_height: mid,
        chunk_distance: n,
        visible_layers: Seq::empty(),
    }, g.change_block, g.set_blocks)
}

/// The grid being generated: the finished rows, the chunks of the current
/// row, and the queued changes and stored blocks so far.
pub struct GenState {
    pub rows: Seq<Seq<ChunkView>>,
    pub change_block: Seq<ChangeBlock>,
    pub set_blocks: Map<Seq<u8>, u8>,
}

/// The grid after the chunks of rows `0` to `i - 1` and the chunks `0` to
/// `c - 1` of row `i` were generated in order; the current row is the last
/// of `rows`.
pub open spec fn gen_upto(
    cb: Seq<ChangeBlock>, sb: Map<Seq<u8>, u8>, columns: Seq<Seq<Seq<Seq<ColumnValues>>>>, trees: Seq<Seq<Seq<TreeSite>>>,
    w: usize, seed: u32, mid: u8, ug: u8, sky: u8, n: usize, i: int, c: int,
) -> GenState
    decreases i, c,
{
    if i <= 0 {
        GenState { rows: Seq::empty(), change_block: cb, set_blocks: sb }
    } else if c <= 0 {
        let p = gen_upto(cb, sb, columns, trees, w, seed, mid, ug, sky, n, i - 1, n as int);
        GenState { rows: p.rows.push(Seq::empty()), ..p }
    } else {
        let p = gen_upto(cb, sb, columns, trees, w, seed, mid, ug, sky, n, i, c - 1);
        let r = init_chunk(p.change_block, p.set_blocks, (i - 1) as usize, (c - 1) as usize, columns[i - 1][c - 1],
            trees[i - 1][c - 1], w, seed, mid, ug, sky, n);
        GenState {
            rows: p.rows.update(i - 1, p.rows[i - 1].push(r.0)),
            change_block: r.1,
            set_blocks: r.2,
        }
    }
}

/// The number of rows and columns of the grid: the number of chunks out
/// from the player, made odd.
pub open spec fn grid_side(render_out_from_player: usize) -> int {
    if render_out_from_player % 2 == 0 { render_out_from_player + 1 } else { render_out_from_player as int }
}

/// Everything that generating the chunk at `(i, k)` asks of the terrain
/// decided for it.
pub open spec fn chunk_inputs_ok(
    columns: Seq<Seq<Seq<Seq<ColumnValues>>>>, trees: Seq<Seq<Seq<TreeSite>>>, w: usize, mid: u8, ug: u8, sky: u8, n: usize,
    i: int, k: int,
) -> bool {
    &&& fill_in_range(fresh_blocks(w as int, (mid + ug + sky) as int), columns[i][k], (11 + ug) as u8, ug)
    &&& forall|t: int| 0 <= t < trees[i][k].len() ==> tree_in_range(w as int, (mid + ug + sky) as int,
        i as usize, k as usize, (#[trigger] trees[i][k][t]).0, trees[i][k][t].1, trees[i][k][t].2, trees[i][k][t].3,
        trees[i][k][t].4, n, (mid + ug + sky) as usize)
}

/// Rows `0` to `i - 1` of the grid hold `n` chunks each, and row `i` holds
/// `k`, each of `w` by `w` columns of height `h`.
pub open spec fn chunks_shaped_upto(g: Seq<Seq<ChunkView>>, i: int, n: int, w: int, h: int, k: int) -> bool {
    &&& forall|x: int| 0 <= x < i ==> #[trigger] g[x].len() == n
    &&& (i < g.len() ==> g[i].len() == k)
    &&& forall|x: int, y: int| 0 <= x < g.len() && 0 <= y < g[x].len() ==> is_box(#[trigger] g[x][y].blocks, w, w, h)
}

/// A square `n` by `n` grid of chunks of `w` by `w` columns of height `h`.
pub open spec fn chunks_shaped(g: Seq<Seq<ChunkView>>, n: int, w: int, h: int) -> bool {
    &&& g.len() == n
    &&& forall|x: int| 0 <= x < n ==> #[trigger] g[x].len() == n
    &&& forall|x: int, y: int| 0 <= x < n && 0 <= y < n ==> is_box(#[trigger] g[x][y].blocks, w, w, h)
}

/// Generates the square grid of chunks, row by row; chunk `(i, k)` has grid
/// coordinates `(i, k)` and is generated from `columns[i][k]` and
/// `trees[i][k]`; see `gen_upto`.
pub fn generate_chunks(
    chunk_grid: &mut Vec<Vec<Chunk>>,
    change_block: &mut Vec<ChangeBlock>,
    square_chunk_width: usize,
    render_out_from_player: usize,
    world_gen_seed: u32,
    mid_height: u8,
    set_blocks: &mut SetBlocks,
    underground_height: u8,
    sky_height: u8,
    columns: &Vec<Vec<Vec<Vec<ColumnValues>>>>,
    trees: &Vec<Vec<Vec<TreeSite>>>,
)
    requires
        old(chunk_grid)@.len() == 0,
        render_out_from_player < usize::MAX,
        grid_side(render_out_from_player) <= i32::MAX,
        underground_height <= 244,
        mid_height + underground_height + sky_height <= 255,
        square_chunk_width >= 1,
        mid_height + underground_height + sky_height >= 1,
        columns.deep_view().len() >= grid_side(render_out_from_player),
        trees.deep_view().len() >= grid_side(render_out_from_player),
        forall|x: int| 0 <= x < grid_side(render_out_from_player) ==> #[trigger] columns.deep_view()[x].len() >= grid_side(render_out_from_player)
            && trees.deep_view()[x].len() >= grid_side(render_out_from_player),
        forall|x: int, y: int| 0 <= x < grid_side(render_out_from_player) && 0 <= y < grid_side(render_out_from_player) ==>
            #[trigger] chunk_inputs_ok(columns.deep_view(), trees.deep_view(), square_chunk_width, mid_height, underground_height,
                sky_height, grid_side(render_out_from_player) as usize, x, y),
    ensures
        ({
            let n = grid_side(render_out_from_player);
            let r = gen_upto(old(change_block)@, old(set_blocks)@, columns.deep_view(), trees.deep_view(), square_chunk_width,
                world_gen_seed, mid_height, underground_height, sky_height, n as usize, n, n);
            &&& final(chunk_grid).deep_view() =~~= r.rows
            &&& final(change_block)@ == r.change_block
            &&& final(set_blocks)@ == r.set_blocks
        }),
        chunks_shaped(final(chunk_grid).deep_view(), grid_side(render_out_from_player), square_chunk_width as int,
            (mid_height + underground_height + sky_height) as int),
{
    let chunk_width: usize = if render_out_from_player % 2 == 0 { render_out_from_player + 1 } else { render_out_from_player };
    let ghost n = chunk_width as int;
    let ghost cb0 = change_block@;
    let ghost sb0 = set_blocks@;
    let ghost cols = columns.deep_view();
    let ghost trs = trees.deep_view();
    let mut i: usize = 0;
    while i < chunk_width
        invariant
            i <= chunk_width,
            n == chunk_width,
            n == grid_side(render_out_from_player),
            n <= i32::MAX,
            cols == columns.deep_view(),
            trs == trees.deep_view(),
            underground_height <= 244,
            mid_height + underground_height + sky_height <= 255,
            square_chunk_width >= 1,
            mid_height + underground_height + sky_height >= 1,
            cols.len() >= n,
            trs.len() >= n,
            forall|x: int| 0 <= x < n ==> #[trigger] cols[x].len() >= n && trs[x].len() >= n,
            forall|x: int, y: int| 0 <= x < n && 0 <= y < n ==>
                #[trigger] chunk_inputs_ok(cols, trs, square_chunk_width, mid_height, underground_height, sky_height, n as usize, x, y),
            chunk_grid.deep_view() =~~= gen_upto(cb0, sb0, cols, trs, square_chunk_width, world_gen_seed, mid_height,
                underground_height, sky_height, n as usize, i as int, n).rows,
            change_block@ == gen_upto(cb0, sb0, cols, trs, square_chunk_width, world_gen_seed, mid_height,
                underground_height, sky_height, n as usize, i as int, n).change_block,
            set_blocks@ == gen_upto(cb0, sb0, cols, trs, square_chunk_width, world_gen_seed, mid_height,
                underground_height, sky_height, n as usize, i as int, n).set_blocks,
            chunk_grid@.len() == i,
            chunks_shaped_upto(chunk_grid.deep_view(), i as int, n, square_chunk_width as int,
                (mid_height + underground_height + sky_height) as int, 0),
        decreases chunk_width - i,
    {
        let collumn: Vec<Chunk> = Vec::new();
        let ghost before_row = chunk_grid.deep_view();
        chunk_grid.push(collumn);
        proof {
            let after = chunk_grid.deep_view();
            assert forall|x: int| 0 <= x < i implies #[trigger] after[x] == before_row[x] by {
                assert(after[x] == chunk_grid@[x].deep_view());
            }
            assert(after[i as int] =~~= Seq::<ChunkView>::empty());
        }
        proof {
            let p = gen_upto(cb0, sb0, cols, trs, square_chunk_width, world_gen_seed, mid_height,
                underground_height, sky_height, n as usize, i + 1, 0);
            assert(chunk_grid.deep_view() =~~= p.rows) by {
                assert(chunk_grid.deep_view()[i as int] =~~= Seq::<ChunkView>::empty());
            }
        }
        let mut k: usize = 0;
        while k < chunk_width
            invariant
                i < chunk_width,
                k <= chunk_width,
                n == chunk_width,
                n <= i32::MAX,
                cols == columns.deep_view(),
                trs == trees.deep_view(),
                underground_height <= 244,
                mid_height + underground_height + sky_height <= 255,
                square_chunk_width >= 1,
                mid_height + underground_height + sky_height >= 1,
                cols.len() >= n,
                trs.len() >= n,
                forall|x: int| 0 <= x < n ==> #[trigger] cols[x].len() >= n && trs[x].len() >= n,
                forall|x: int, y: int| 0 <= x < n && 0 <= y < n ==>
                    #[trigger] chunk_inputs_ok(cols, trs, square_chunk_width, mid_height, underground_height, sky_height, n as usize, x, y),
                chunk_grid.deep_view() =~~= gen_upto(cb0, sb0, cols, trs, square_chunk_width, world_gen_seed, mid_height,
                    underground_height, sky_height, n as usize, i + 1, k as int).rows,
                change_block@ == gen_upto(cb0, sb0, cols, trs, square_chunk_width, world_gen_seed, mid_height,
                    underground_height, sky_height, n as usize, i + 1, k as int).change_block,
                set_blocks@ == gen_upto(cb0, sb0, cols, trs, square_chunk_width, world_gen_seed, mid_height,
                    underground_height, sky_height, n as usize, i + 1, k as int).set_blocks,
                chunk_grid@.len() == i + 1,
                chunks_shaped_upto(chunk_grid.deep_view(), i as int, n, square_chunk_width as int,
                    (mid_height + underground_height + sky_height) as int, k as int),
            decreases chunk_width - k,
        {
            assert(chunk_inputs_ok(cols, trs, square_chunk_width, mid_height, underground_height, sky_height, n as usize, i as int, k as int));
            assert(cols[i as int].len() >= n);
            assert(cols[i as int] == columns@[i as int].deep_view());
            assert(trs[i as int] == trees@[i as int].deep_view());
            assert(cols[i as int][k as int] == columns@[i as int]@[k as int].deep_view());
            assert(trs[i as int][k as int] == trees@[i as int]@[k as int].deep_view());
            assert(trees@[i as int]@[k as int].deep_view() =~= trees@[i as int]@[k as int]@);
            let chunk = Chunk::init(change_block, i, k, i as i32, k as i32, &columns[i][k], &trees[i][k], square_chunk_width,
                world_gen_seed, mid_height, set_blocks, underground_height, sky_height, chunk_width);
            let ghost before = chunk_grid.deep_view();
            let ghost cv = chunk.deep_view();
            chunk_grid[i].push(chunk);
            proof {
                let after = chunk_grid.deep_view();
                assert(after[i as int] == chunk_grid@[i as int].deep_view());
                assert(after[i as int][k as int] == cv);
                assert forall|x: int, y: int| 0 <= x < after.len() && 0 <= y < after[x].len() implies
                    is_box(#[trigger] after[x][y].blocks, square_chunk_width as int, square_chunk_width as int,
                        (mid_height + underground_height + sky_height) as int) by {
                    assert(after[x] == chunk_grid@[x].deep_view());
                    if x != i || y != k {
                        assert(after[x][y] == before[x][y]);
                    }
                }
                assert forall|x: int| 0 <= x < i implies #[trigger] after[x].len() == n by {
                    assert(after[x] == before[x]);
                }
            }
            proof {
                let p = gen_upto(cb0, sb0, cols, trs, square_chunk_width, world_gen_seed, mid_height,
                    underground_height, sky_height, n as usize, i + 1, k + 1);
                let after = chunk_grid.deep_view();
                assert(after[i as int] == chunk_grid@[i as int].deep_view());
                assert forall|x: int| 0 <= x < after.len() implies #[trigger] after[x] =~~= p.rows[x] by {
                    if x != i {
                        assert(after[x] == chunk_grid@[x].deep_view());
                    }
                }
            }
            k = k + 1;
        }
        i = i + 1;
    }
}

/// A chunk whose layer flags say, for each layer, whether it holds a visible
/// block.
pub open spec fn with_layers(c: ChunkView) -> ChunkView {
    ChunkView { visible_layers: Seq::new(c.blocks[0][0].len(), |m: int| layer_visible(c.blocks, m)), ..c }
}

/// A chunk whose mesh was rebuilt; see `Chunk::build_mesh`.
pub open spec fn built(c: ChunkView) -> ChunkView {
    let mesh = chunk_mesh(c.blocks, c.visible_layers, c.blocks[0][0].len() as int);
    ChunkView { vertices: mesh, transparencies: transparencies_of(mesh), ..c }
}

pub open spec fn map_grid(g: Seq<Seq<ChunkView>>, f: spec_fn(ChunkView) -> ChunkView) -> Seq<Seq<ChunkView>> {
    Seq::new(g.len(), |x: int| Seq::new(g[x].len(), |y: int| f(g[x][y])))
}

fn refresh_layers(chunk: &mut Chunk)
    requires
        chunk_square(old(chunk).blocks.deep_view()),
    ensures
        final(chunk).deep_view() =~~= with_layers(old(chunk).deep_view()),
{
    let ghost b = chunk.blocks.deep_view();
    assert(b[0] == chunk.blocks@[0].deep_view());
    assert(b[0].len() == b.len());
    let h = chunk.blocks[0][0].len();
    let layers: Vec<bool> = vec![false; h];
    chunk.set_layer_visibility(layers);
    let mut m: usize = 0;
    while m < h
        invariant
            m <= h,
            h == b[0][0].len(),
            chunk_square(b),
            chunk.blocks.deep_view() == b,
            chunk.visible_layers@.len() == h,
            forall|t: int| 0 <= t < m ==> #[trigger] chunk.visible_layers@[t] == layer_visible(b, t),
            chunk.deep_view() =~~= (ChunkView { visible_layers: chunk.visible_layers@, ..old(chunk).deep_view() }),
        decreases h - m,
    {
        assert forall|x: int, y: int| 0 <= x < b.len() && 0 <= y < b[x].len() implies m < #[trigger] b[x][y].len() by {
            assert(b[x].len() == b.len());
        }
        chunk.changed_block_visibility(m);
        m = m + 1;
    }
    assert(chunk.visible_layers@ =~= Seq::new(b[0][0].len(), |t: int| layer_visible(b, t)));
}

/// Rebuilds the mesh of chunk `(i, k)`.
pub fn build_mesh_single(world: &mut World, i: usize, k: usize)
    requires
        world_wf(old(world)),
        i < old(world)@.grid.len(),
        k < old(world)@.grid.len(),
    ensures
        final(world)@ =~~= (WorldView {
            grid: old(world)@.grid.update(i as int, old(world)@.grid[i as int].update(k as int, built(old(world)@.grid[i as int][k as int]))),
            ..old(world)@
        }),
        world_wf(final(world)),
{
    let ghost g = world@.grid;
    let ghost w = world.chunk_width as int;
    assert(g[i as int].len() == g.len());
    assert(is_box(g[i as int][k as int].blocks, w, w, grid_height(g)));
    assert(g[i as int] == world.chunk_grid@[i as int].deep_view());
    assert(g[i as int][k as int].blocks[0].len() == w);
    world.chunk_grid[i][k].build_mesh();
    proof {
        let g2 = world@.grid;
        let target = g.update(i as int, g[i as int].update(k as int, built(g[i as int][k as int])));
        assert(g2[i as int] == world.chunk_grid@[i as int].deep_view());
        assert forall|x: int| 0 <= x < g2.len() implies #[trigger] g2[x] =~~= target[x] by {
            assert(g2[x] == world.chunk_grid@[x].deep_view());
        }
        assert(g2 =~~= target);
        assert forall|x: int| 0 <= x < g2.len() implies #[trigger] g2[x].len() == g2.len() by {
            assert(g[x].len() == g.len());
        }
        assert forall|x: int, y: int| 0 <= x < g2.len() && 0 <= y < g2.len() implies
            #[trigger] g2[x][y].blocks == g[x][y].blocks && g2[x][y].visible_layers == g[x][y].visible_layers by {
            assert(g[x].len() == g.len());
        }
        assert(g2[0][0].blocks == g[0][0].blocks);
    }
}

/// Rebuilds the meshes of all chunks, row by row.
pub fn build_mesh(world: &mut World)
    requires
        world_wf(old(world)),
    ensures
        final(world)@ =~~= (WorldView { grid: map_grid(old(world)@.grid, |c: ChunkView| built(c)), ..old(world)@ }),
        world_wf(final(world)),
{
    let ghost g = world@.grid;
    let n = world.chunk_grid.len();
    let mut i: usize = 0;
    while i < n
        invariant
            i <= n,
            n == g.len(),
            forall|x: int| 0 <= x < g.len() ==> #[trigger] g[x].len() == g.len(),
            world_wf(world),
            world@ =~~= (WorldView {
                grid: Seq::new(g.len(), |x: int| if x < i { Seq::new(g[x].len(), |y: int| built(g[x][y])) } else { g[x] }),
                ..old(world)@
            }),
        decreases n - i,
    {
        assert(g[i as int].len() == g.len());
        let mut k: usize = 0;
        while k < n
            invariant
                k <= n,
                i < n,
                n == g.len(),
                g[i as int].len() == n,
                world_wf(world),
                world@ =~~= (WorldView {
                    grid: Seq::new(g.len(), |x: int| if x < i { Seq::new(g[x].len(), |y: int| built(g[x][y])) }
                        else if x == i { Seq::new(g[x].len(), |y: int| if y < k { built(g[x][y]) } else { g[x][y] }) }
                        else { g[x] }),
                    ..old(world)@
                }),
            decreases n - k,
        {
            build_mesh_single(world, i, k);
            k = k + 1;
        }
        i = i + 1;
    }
}

/// The world once generated: the chunks of `generate_chunks`, their faces
/// checked, their layer flags set, and their meshes built.
pub open spec fn new_world(
    w: usize, render_out_from_player: usize, seed: u32, mid: u8, ug: u8, sky: u8,
    columns: Seq<Seq<Seq<Seq<ColumnValues>>>>, trees: Seq<Seq<Seq<TreeSite>>>,
) -> WorldView {
    let n = grid_side(render_out_from_player);
    let r = gen_upto(Seq::empty(), Map::empty(), columns, trees, w, seed, mid, ug, sky, n as usize, n, n);
    let checked = check_all_chunks(map_grid(r.rows, |c: ChunkView| with_layers(c)), w as int, (mid + ug + sky) as int, n);
    WorldView {
        chunk_width: w,
        grid: map_grid(checked, |c: ChunkView| built(c)),
        unbuilt: Seq::empty(),
        set_blocks: r.set_blocks,
        change_block: r.change_block,
    }
}

impl World {
    /// Generates the world around the player: `chunks_layers_from_player`
    /// chunks each way (made odd) of `square_chunk_width` by
    /// `square_chunk_width` columns, from the terrain decided for each chunk's
    /// columns; see `new_world`.
    pub fn new(
        square_chunk_width: usize,
        chunks_layers_from_player: usize,
        world_gen_seed: u32,
        mid_height: u8,
        underground_height: u8,
        sky_height: u8,
        columns: &Vec<Vec<Vec<Vec<ColumnValues>>>>,
        trees: &Vec<Vec<Vec<TreeSite>>>,
    ) -> (world: World)
        requires
            square_chunk_width >= 2,
            chunks_layers_from_player < usize::MAX,
            grid_side(chunks_layers_from_player) <= i32::MAX,
            underground_height <= 244,
            mid_height + underground_height + sky_height <= 255,
            mid_height + underground_height + sky_height >= 1,
            columns.deep_view().len() >= grid_side(chunks_layers_from_player),
            trees.deep_view().len() >= grid_side(chunks_layers_from_player),
            forall|x: int| 0 <= x < grid_side(chunks_layers_from_player) ==> #[trigger] columns.deep_view()[x].len() >= grid_side(chunks_layers_from_player)
                && trees.deep_view()[x].len() >= grid_side(chunks_layers_from_player),
            forall|x: int, y: int| 0 <= x < grid_side(chunks_layers_from_player) && 0 <= y < grid_side(chunks_layers_from_player) ==>
                #[trigger] chunk_inputs_ok(columns.deep_view(), trees.deep_view(), square_chunk_width, mid_height, underground_height,
                    sky_height, grid_side(chunks_layers_from_player) as usize, x, y),
        ensures
            world@ =~~= new_world(square_chunk_width, chunks_layers_from_player, world_gen_seed, mid_height, underground_height,
                sky_height, columns.deep_view(), trees.deep_view()),
            world_wf(&world),
    {
        let mut world = World {
            chunk_width: square_chunk_width,
            chunk_grid: Vec::new(),
            unbuilt_models: Vec::new(),
            set_blocks: SetBlocks::new(),
            change_block: Vec::new(),
        };
        generate_chunks(&mut world.chunk_grid, &mut world.change_block, square_chunk_width, chunks_layers_from_player,
            world_gen_seed, mid_height, &mut world.set_blocks, underground_height, sky_height, columns, trees);
        let ghost g0 = world@.grid;
        let ghost w1 = world@;
        let ghost n = grid_side(chunks_layers_from_player);
        let ghost h = (mid_height + underground_height + sky_height) as int;
        let len = world.chunk_grid.len();
        let mut i: usize = 0;
        while i < len
            invariant
                i <= len,
                len == n,
                chunks_shaped(g0, n, square_chunk_width as int, h),
                h >= 1,
                n >= 1,
                square_chunk_width >= 2,
                world.chunk_grid@.len() == len,
                world@ =~~= (WorldView {
                    grid: Seq::new(g0.len(), |x: int| if x < i { Seq::new(g0[x].len(), |y: int| with_layers(g0[x][y])) } else { g0[x] }),
                    ..w1
                }),
            decreases len - i,
        {
            let mut k: usize = 0;
            assert(g0[i as int].len() == n);
            while k < len
                invariant
                    k <= len,
                    i < len,
                    len == n,
                    chunks_shaped(g0, n, square_chunk_width as int, h),
                    h >= 1,
                    square_chunk_width >= 2,
                    world.chunk_grid@.len() == len,
                    world@ =~~= (WorldView {
                        grid: Seq::new(g0.len(), |x: int| if x < i { Seq::new(g0[x].len(), |y: int| with_layers(g0[x][y])) }
                            else if x == i { Seq::new(g0[x].len(), |y: int| if y < k { with_layers(g0[x][y]) } else { g0[x][y] }) }
                            else { g0[x] }),
                        ..w1
                    }),
                decreases len - k,
            {
                let ghost before = world.chunk_grid.deep_view();
                assert(before[i as int] == world.chunk_grid@[i as int].deep_view());
                assert(before[i as int][k as int] == g0[i as int][k as int]);
                assert(is_box(g0[i as int][k as int].blocks, square_chunk_width as int, square_chunk_width as int, h));
                assert(g0[i as int][k as int].blocks[0].len() == square_chunk_width);
                assert(chunk_square(g0[i as int][k as int].blocks));
                refresh_layers(&mut world.chunk_grid[i][k]);
                proof {
                    let after = world.chunk_grid.deep_view();
                    let target = Seq::new(g0.len(), |x: int| if x < i { Seq::new(g0[x].len(), |y: int| with_layers(g0[x][y])) }
                        else if x == i { Seq::new(g0[x].len(), |y: int| if y < k + 1 { with_layers(g0[x][y]) } else { g0[x][y] }) }
                        else { g0[x] });
                    assert(after[i as int] == world.chunk_grid@[i as int].deep_view());
                    assert forall|x: int| 0 <= x < after.len() implies #[trigger] after[x] =~~= target[x] by {
                        assert(after[x] == world.chunk_grid@[x].deep_view());
                        if x == i {
                            assert forall|y: int| 0 <= y < after[x].len() implies #[trigger] after[x][y] =~~= target[x][y] by {
                                if y != k {
                                    assert(after[x][y] == before[x][y]);
                                }
                            }
                        } else {
                            assert(after[x] == before[x]);
                        }
                    }
                }
                k = k + 1;
            }
            i = i + 1;
        }
        proof {
            let g1 = world@.grid;
            assert(g1 =~~= map_grid(g0, |c: ChunkView| with_layers(c)));
            assert(g0[0].len() == n);
            assert forall|x: int, y: int| 0 <= x < n && 0 <= y < n implies #[trigger] g1[x][y].blocks == g0[x][y].blocks by {
                assert(g0[x].len() == n);
            }
            assert(is_box(g0[0][0].blocks, square_chunk_width as int, square_chunk_width as int, h));
            assert(grid_height(g1) == h);
            assert forall|x: int, y: int| 0 <= x < n && 0 <= y < n implies is_box(#[trigger] g1[x][y].blocks, square_chunk_width as int,
                square_chunk_width as int, grid_height(g1)) by {
                assert(g0[x].len() == n);
            }
            assert forall|x: int| 0 <= x < n implies #[trigger] g1[x].len() == g1.len() by {
                assert(g0[x].len() == n);
            }
            assert forall|x: int, y: int| 0 <= x < n && 0 <= y < n implies (#[trigger] g1[x][y]).visible_layers.len() >= grid_height(g1) by {
                assert(g0[x].len() == n);
                assert(is_box(g0[x][y].blocks, square_chunk_width as int, square_chunk_width as int, h));
                assert(g0[x][y].blocks[0].len() == square_chunk_width);
            }
        }
        check_visibility(&mut world);
        build_mesh(&mut world);
        world
    }
}

/// The first queued chunk is to be generated again (and there is more queued).
pub open spec fn needs_regeneration(u: Seq<Unbuilt>) -> bool {
    u.len() > 1 && u[0].3 && !u[0].4
}

/// The world after chunk `(i, k)` was generated again from `columns` and
/// `trees`; see `Chunk::regenerate`.
pub open spec fn regenerated(wv: WorldView, columns: Seq<Seq<ColumnValues>>, trees: Seq<TreeSite>, i: int, k: int) -> WorldView {
    let c = wv.grid[i][k];
    let g = generated(TreeState { blocks: c.blocks, change_block: wv.change_block, set_blocks: wv.set_blocks },
        true, c.blocks.len() as int, (c.mid_height + c.underground_height + c.sky_height) as int, columns,
        trees, i as usize, k as usize, c.grid_x, c.grid_z, (11 + c.underground_height) as u8, c.underground_height, c.chunk_distance);
    WorldView {
        grid: wv.grid.update(i, wv.grid[i].update(k, ChunkView { blocks: g.blocks, ..c })),
        change_block: g.change_block,
        set_blocks: g.set_blocks,
        ..wv
    }
}

/// The world after the first queued chunk was handled: generated again if
/// asked, its faces checked if asked, its mesh rebuilt, and taken off the
/// queue.
pub open spec fn first_unbuilt_step(wv: WorldView, columns: Seq<Seq<ColumnValues>>, trees: Seq<TreeSite>) -> WorldView {
    let u = wv.unbuilt;
    if u.len() == 0 {
        wv
    } else {
        let i = u[0].0 as int;
        let k = u[0].1 as int;
        let w1 = if needs_regeneration(u) { regenerated(wv, columns, trees, i, k) } else { wv };
        let g2 = if u[0].2 {
            check_chunk_cells(w1.grid, wv.chunk_width as int, grid_height(w1.grid), i, k, wv.chunk_width as int)
        } else {
            w1.grid
        };
        WorldView { grid: g2.update(i, g2[i].update(k, built(g2[i][k]))), unbuilt: u.drop_first(), ..w1 }
    }
}

/// Every queued chunk lies in an `n` by `n` grid.
pub open spec fn unbuilt_in_grid(u: Seq<Unbuilt>, n: int) -> bool {
    forall|t: int| 0 <= t < u.len() ==> (#[trigger] u[t]).0 < n && u[t].1 < n
}

/// Every queued change names a block of the grid.
pub open spec fn changes_in_grid(cb: Seq<ChangeBlock>, g: Seq<Seq<ChunkView>>, w: int) -> bool {
    forall|t: int| 0 <= t < cb.len() ==> in_grid(g, w, (#[trigger] cb[t]).0 as int, cb[t].1 as int, cb[t].2 as int, cb[t].3 as int, cb[t].4 as int)
}

/// The grid and queue after the first `n` queued changes were made, each
/// followed by checking the faces around the changed block.
pub open spec fn apply_changes(g: Seq<Seq<ChunkView>>, w: int, u: Seq<Unbuilt>, cb: Seq<ChangeBlock>, n: int) -> (Seq<Seq<ChunkView>>, Seq<Unbuilt>)
    decreases n,
{
    if n <= 0 {
        (g, u)
    } else {
        let p = apply_changes(g, w, u, cb, n - 1);
        let c = cb[n - 1];
        let g1 = with_block(p.0, c.0 as int, c.1 as int, c.2 as int, c.3 as int, c.4 as int,
            BlockView { id: c.5, ..block_at(p.0, c.0 as int, c.1 as int, c.2 as int, c.3 as int, c.4 as int) });
        around(g1, w, p.1, (c.0 as int, c.1 as int, c.2 as int, c.3 as int, c.4 as int))
    }
}

/// The grid after the meshes of the first `n` chunks of `u` were rebuilt in
/// order.
pub open spec fn build_listed(g: Seq<Seq<ChunkView>>, u: Seq<Unbuilt>, n: int) -> Seq<Seq<ChunkView>>
    decreases n,
{
    if n <= 0 {
        g
    } else {
        let p = build_listed(g, u, n - 1);
        let i = u[n - 1].0 as int;
        let k = u[n - 1].1 as int;
        p.update(i, p[i].update(k, built(p[i][k])))
    }
}

/// The world after the queued changes were made, when nothing waits in the
/// queue of chunks: each change is made and the faces around it checked,
/// then the chunks this queued get their meshes rebuilt, and both queues are
/// emptied.
pub open spec fn changes_step(wv: WorldView) -> WorldView {
    if wv.change_block.len() != 0 && wv.unbuilt.len() == 0 {
        let p = apply_changes(wv.grid, wv.chunk_width as int, wv.unbuilt, wv.change_block, wv.change_block.len() as int);
        WorldView { grid: build_listed(p.0, p.1, p.1.len() as int), unbuilt: Seq::empty(), change_block: Seq::empty(), ..wv }
    } else {
        wv
    }
}

/// What regenerating the first queued chunk asks of the terrain decided for
/// it.
pub open spec fn regeneration_inputs_ok(wv: WorldView, columns: Seq<Seq<ColumnValues>>, trees: Seq<TreeSite>) -> bool {
    needs_regeneration(wv.unbuilt) ==> {
        let c = wv.grid[wv.unbuilt[0].0 as int][wv.unbuilt[0].1 as int];
        &&& c.underground_height <= 244
        &&& c.mid_height + c.underground_height + c.sky_height <= 255
        &&& fill_in_range(c.blocks, columns, (11 + c.underground_height) as u8, c.underground_height)
        &&& forall|t: int| 0 <= t < trees.len() ==> tree_in_range(c.blocks.len() as int, c.blocks[0][0].len() as int,
            wv.unbuilt[0].0, wv.unbuilt[0].1, (#[trigger] trees[t]).0, trees[t].1, trees[t].2, trees[t].3, trees[t].4, c.chunk_distance,
            (c.mid_height + c.underground_height + c.sky_height) as usize)
    }
}

proof fn lemma_around_in_grid(g: Seq<Seq<ChunkView>>, w: int, u: Seq<Unbuilt>, c: Cell)
    requires
        grid_wf(g, w),
        in_grid(g, w, c.0, c.1, c.2, c.3, c.4),
        unbuilt_in_grid(u, g.len() as int),
    ensures
        unbuilt_in_grid(around(g, w, u, c).1, g.len() as int),
{
    assert(g[c.0].len() == g.len());
    let g3 = around_column(g, w, c);
    let p4 = around_j_minus(g3, w, u, c);
    let p5 = around_j_plus(p4.0, w, p4.1, c);
    let p6 = around_l_minus(p5.0, w, p5.1, c);
    let p7 = around_l_plus(p6.0, w, p6.1, c);
    assert(unbuilt_in_grid(p4.1, g.len() as int));
    assert(unbuilt_in_grid(p5.1, g.len() as int));
    assert(unbuilt_in_grid(p6.1, g.len() as int));
    assert(unbuilt_in_grid(p7.1, g.len() as int));
    let r = seq![(c.0 as usize, c.1 as usize, false, false, false)] + p7.1;
    assert forall|t: int| 0 <= t < r.len() implies (#[trigger] r[t]).0 < g.len() && r[t].1 < g.len() by {
        if t > 0 {
            assert(r[t] == p7.1[t - 1]);
        }
    }
}

impl World {
    /// Handles the first queued chunk; see `first_unbuilt_step`. Returns the
    /// chunk whose mesh was rebuilt, if any.
    pub fn update_first_unbuilt(&mut self, columns: &Vec<Vec<ColumnValues>>, trees: &Vec<TreeSite>) -> (built_chunks: Vec<(usize, usize)>)
        requires
            world_wf(old(self)),
            unbuilt_in_grid(old(self)@.unbuilt, old(self)@.grid.len() as int),
            regeneration_inputs_ok(old(self)@, columns.deep_view(), trees@),
        ensures
            final(self)@ =~~= first_unbuilt_step(old(self)@, columns.deep_view(), trees@),
            world_wf(final(self)),
            unbuilt_in_grid(final(self)@.unbuilt, final(self)@.grid.len() as int),
            final(self)@.grid.len() == old(self)@.grid.len(),
            built_chunks@ == (if old(self)@.unbuilt.len() == 0 { Seq::<(usize, usize)>::empty() } else {
                seq![(old(self)@.unbuilt[0].0, old(self)@.unbuilt[0].1)]
            }),
    {
        let mut built_chunks: Vec<(usize, usize)> = Vec::new();
        if self.unbuilt_models.len() == 0 {
            return built_chunks;
        }
        let ghost wv = self@;
        let u0 = self.unbuilt_models[0];
        let i = u0.0;
        let k = u0.1;
        let ghost g = self@.grid;
        let ghost w = self.chunk_width as int;
        assert(g[i as int].len() == g.len());
        assert(is_box(g[i as int][k as int].blocks, w, w, grid_height(g)));
        if self.unbuilt_models.len() > 1 && u0.3 && !u0.4 {
            assert(g[i as int] == self.chunk_grid@[i as int].deep_view());
            let ghost before = self.chunk_grid.deep_view();
            assert(g[i as int][k as int].blocks[0].len() == w);
            self.chunk_grid[i][k].regenerate(&mut self.change_block, i, k, &mut self.set_blocks, columns, trees);
            self.unbuilt_models.set(0, (u0.0, u0.1, u0.2, u0.3, true));
            proof {
                let after = self.chunk_grid.deep_view();
                let target = regenerated(wv, columns.deep_view(), trees@, i as int, k as int);
                assert(after[i as int] == self.chunk_grid@[i as int].deep_view());
                assert forall|x: int| 0 <= x < after.len() implies #[trigger] after[x] =~~= target.grid[x] by {
                    assert(after[x] == self.chunk_grid@[x].deep_view());
                    if x == i {
                        assert forall|y: int| 0 <= y < after[x].len() implies #[trigger] after[x][y] =~~= target.grid[x][y] by {
                            if y != k {
                                assert(after[x][y] == before[x][y]);
                            }
                        }
                    } else {
                        assert(after[x] == before[x]);
                    }
                }
                assert(after =~~= target.grid);
                let a = after;
                assert forall|x: int| 0 <= x < a.len() implies #[trigger] a[x].len() == a.len() by {
                    assert(g[x].len() == g.len());
                }
                assert forall|x: int, y: int| 0 <= x < a.len() && 0 <= y < a.len() implies
                    (#[trigger] a[x][y]).visible_layers == g[x][y].visible_layers && a[x][y].blocks.len() == g[x][y].blocks.len()
                    && (a[x][y].blocks.len() > 0 ==> a[x][y].blocks[0].len() == g[x][y].blocks[0].len())
                    && (a[x][y].blocks.len() > 0 && a[x][y].blocks[0].len() > 0 ==> a[x][y].blocks[0][0].len() == g[x][y].blocks[0][0].len())
                    && is_box(a[x][y].blocks, w, w, grid_height(g)) by {
                    assert(g[x].len() == g.len());
                    assert(is_box(g[x][y].blocks, w, w, grid_height(g)));
                    if x == i && y == k {
                        assert(chunk_square(a[x][y].blocks));
                    }
                }
                assert(grid_height(a) == grid_height(g));
                assert(grid_wf(a, w));
                assert(layers_ok(a));
            }
        }
        let ghost w1 = if needs_regeneration(wv.unbuilt) { regenerated(wv, columns.deep_view(), trees@, i as int, k as int) } else { wv };
        assert(self.chunk_grid.deep_view() =~~= w1.grid);
        if u0.2 {
            check_chunk_visibility(self, i, k);
        }
        build_mesh_single(self, i, k);
        self.unbuilt_models.remove(0);
        built_chunks.push((i, k));
        proof {
            let u1 = self.unbuilt_models@;
            assert(u1 =~= wv.unbuilt.drop_first());
            assert forall|t: int| 0 <= t < u1.len() implies (#[trigger] u1[t]).0 < self@.grid.len() && u1[t].1 < self@.grid.len() by {
                assert(u1[t] == wv.unbuilt[t + 1]);
            }
            assert(built_chunks@ =~= seq![(i, k)]);
        }
        built_chunks
    }
}

fn set_block_id(chunk_grid: &mut Vec<Vec<Chunk>>, i: usize, k: usize, j: usize, l: usize, m: usize, w: usize, id: u8)
    requires
        grid_wf(old(chunk_grid).deep_view(), w as int),
        layers_ok(old(chunk_grid).deep_view()),
        in_grid(old(chunk_grid).deep_view(), w as int, i as int, k as int, j as int, l as int, m as int),
    ensures
        final(chunk_grid).deep_view() =~~= with_block(old(chunk_grid).deep_view(), i as int, k as int, j as int, l as int, m as int,
            BlockView { id, ..block_at(old(chunk_grid).deep_view(), i as int, k as int, j as int, l as int, m as int) }),
        grid_wf(final(chunk_grid).deep_view(), w as int),
        layers_ok(final(chunk_grid).deep_view()),
        grid_height(final(chunk_grid).deep_view()) == grid_height(old(chunk_grid).deep_view()),
        final(chunk_grid).deep_view().len() == old(chunk_grid).deep_view().len(),
{
    let ghost g = chunk_grid.deep_view();
    let ghost b = BlockView { id, ..block_at(g, i as int, k as int, j as int, l as int, m as int) };
    proof {
        lemma_with_block_shape(g, w as int, i as int, k as int, j as int, l as int, m as int, b);
    }
    assert(g[i as int].len() == g.len());
    assert(is_box(g[i as int][k as int].blocks, w as int, w as int, grid_height(g)));
    proof {
        lemma_grid_index(chunk_grid, i as int, k as int, j as int, l as int);
    }
    chunk_grid[i][k].blocks[j][l][m].id = id;
    proof {
        let g1 = chunk_grid.deep_view();
        assert(g1 =~~= with_block(g, i as int, k as int, j as int, l as int, m as int, b));
        assert forall|x: int, y: int| 0 <= x < g1.len() && 0 <= y < g1.len() implies
            (#[trigger] g1[x][y]).visible_layers.len() >= grid_height(g1) by {
            assert(g[x].len() == g.len());
        }
    }
}

/// The chunks of `u` by their indices.
pub open spec fn listed_chunks(u: Seq<Unbuilt>) -> Seq<(usize, usize)> {
    u.map_values(|e: Unbuilt| (e.0, e.1))
}

impl World {
    /// When no chunk is queued, makes the queued block changes and rebuilds
    /// the meshes this queued; see `changes_step`. Returns those chunks in
    /// order.
    pub fn apply_change_blocks(&mut self) -> (built_chunks: Vec<(usize, usize)>)
        requires
            world_wf(old(self)),
            unbuilt_in_grid(old(self)@.unbuilt, old(self)@.grid.len() as int),
            changes_in_grid(old(self)@.change_block, old(self)@.grid, old(self).chunk_width as int),
        ensures
            final(self)@ =~~= changes_step(old(self)@),
            world_wf(final(self)),
            built_chunks@ == (if old(self)@.change_block.len() != 0 && old(self)@.unbuilt.len() == 0 {
                listed_chunks(apply_changes(old(self)@.grid, old(self).chunk_width as int, old(self)@.unbuilt,
                    old(self)@.change_block, old(self)@.change_block.len() as int).1)
            } else {
                Seq::<(usize, usize)>::empty()
            }),
    {
        let mut built_chunks: Vec<(usize, usize)> = Vec::new();
        if self.change_block.len() != 0 && self.unbuilt_models.len() == 0 {
            let ghost wv = self@;
            let ghost w = self.chunk_width as int;
            let ghost h = grid_height(wv.grid);
            let ghost n = wv.grid.len() as int;
            let count = self.change_block.len();
            let mut t: usize = 0;
            while t < count
                invariant
                    t <= count,
                    count == wv.change_block.len(),
                    self.change_block@ == wv.change_block,
                    self.chunk_width == wv.chunk_width,
                    w == wv.chunk_width as int,
                    self.set_blocks@ == wv.set_blocks,
                    world_wf(self),
                    grid_height(self@.grid) == h,
                    self@.grid.len() == n,
                    n == wv.grid.len(),
                    h == grid_height(wv.grid),
                    changes_in_grid(wv.change_block, wv.grid, w),
                    unbuilt_in_grid(self@.unbuilt, n),
                    (self@.grid, self@.unbuilt) == apply_changes(wv.grid, w, wv.unbuilt, wv.change_block, t as int),
                decreases count - t,
            {
                let c = self.change_block[t];
                let ghost g = self@.grid;
                assert(in_grid(wv.grid, w, c.0 as int, c.1 as int, c.2 as int, c.3 as int, c.4 as int));
                let cw = self.chunk_width;
                set_block_id(&mut self.chunk_grid, c.0, c.1, c.2, c.3, c.4, cw, c.5);
                proof {
                    lemma_around_in_grid(self@.grid, w, self@.unbuilt, (c.0 as int, c.1 as int, c.2 as int, c.3 as int, c.4 as int));
                }
                check_blocks_around_block(self, c.0, c.1, c.2, c.3, c.4);
                t = t + 1;
            }
            self.change_block.clear();
            let ghost gp = self@.grid;
            let ghost up = self@.unbuilt;
            let count2 = self.unbuilt_models.len();
            let mut k: usize = 0;
            while k < count2
                invariant
                    k <= count2,
                    count2 == up.len(),
                    self.unbuilt_models@ == up,
                    unbuilt_in_grid(up, n),
                    self@.grid.len() == n,
                    world_wf(self),
                    self.chunk_width == wv.chunk_width,
                    self.set_blocks@ == wv.set_blocks,
                    self.change_block@ == Seq::<ChangeBlock>::empty(),
                    self@.grid == build_listed(gp, up, k as int),
                    built_chunks@ == listed_chunks(up).take(k as int),
                decreases count2 - k,
            {
                let e = self.unbuilt_models[k];
                assert(up[k as int] == e);
                build_mesh_single(self, e.0, e.1);
                built_chunks.push((e.0, e.1));
                assert(built_chunks@ =~= listed_chunks(up).take(k + 1));
                k = k + 1;
            }
            self.unbuilt_models.clear();
            assert(built_chunks@ =~= listed_chunks(up));
        }
        built_chunks
    }

    /// Whether every queued chunk lies in the grid.
    pub fn queued_chunks_in_grid(&self) -> (r: bool)
        ensures
            r == unbuilt_in_grid(self@.unbuilt, self@.grid.len() as int),
    {
        let n = self.chunk_grid.len();
        let mut t: usize = 0;
        while t < self.unbuilt_models.len()
            invariant
                n == self@.grid.len(),
                t <= self@.unbuilt.len(),
                unbuilt_in_grid(self@.unbuilt.take(t as int), n as int),
            decreases self@.unbuilt.len() - t,
        {
            let u = self.unbuilt_models[t];
            if u.0 >= n || u.1 >= n {
                assert(!unbuilt_in_grid(self@.unbuilt, n as int)) by {
                    assert(self@.unbuilt[t as int] == u);
                }
                return false;
            }
            assert forall|x: int| 0 <= x < t + 1 implies (#[trigger] self@.unbuilt.take(t + 1)[x]).0 < n
                && self@.unbuilt.take(t + 1)[x].1 < n by {
                if x < t {
                    assert(self@.unbuilt.take(t + 1)[x] == self@.unbuilt.take(t as int)[x]);
                }
            }
            t = t + 1;
        }
        assert(self@.unbuilt.take(t as int) =~= self@.unbuilt);
        true
    }

    /// Whether every queued block change names a block of the grid.
    pub fn queued_changes_in_grid(&self) -> (r: bool)
        requires
            world_wf(self),
        ensures
            r == changes_in_grid(self@.change_block, self@.grid, self.chunk_width as int),
    {
        let ghost g = self@.grid;
        let n = self.chunk_grid.len();
        let w = self.chunk_width;
        assert(g[0].len() == g.len());
        assert(is_box(g[0][0].blocks, w as int, w as int, grid_height(g)));
        proof {
            lemma_grid_index(&self.chunk_grid, 0, 0, 0, 0);
        }
        let h = self.chunk_grid[0][0].blocks[0][0].len();
        let mut t: usize = 0;
        while t < self.change_block.len()
            invariant
                n == g.len(),
                g == self@.grid,
                w == self.chunk_width,
                h == grid_height(g),
                t <= self@.change_block.len(),
                changes_in_grid(self@.change_block.take(t as int), g, w as int),
            decreases self@.change_block.len() - t,
        {
            let c = self.change_block[t];
            if c.0 >= n || c.1 >= n || c.2 >= w || c.3 >= w || c.4 >= h {
                assert(!changes_in_grid(self@.change_block, g, w as int)) by {
                    assert(self@.change_block[t as int] == c);
                }
                return false;
            }
            assert forall|x: int| 0 <= x < t + 1 implies in_grid(g, w as int,
                (#[trigger] self@.change_block.take(t + 1)[x]).0 as int, self@.change_block.take(t + 1)[x].1 as int,
                self@.change_block.take(t + 1)[x].2 as int, self@.change_block.take(t + 1)[x].3 as int,
                self@.change_block.take(t + 1)[x].4 as int) by {
                if x < t {
                    assert(self@.change_block.take(t + 1)[x] == self@.change_block.take(t as int)[x]);
                }
            }
            t = t + 1;
        }
        assert(self@.change_block.take(t as int) =~= self@.change_block);
        true
    }

    /// Handles the first queued chunk (see `first_unbuilt_step`), then, when
    /// nothing is left in the queue, the queued block changes (see
    /// `changes_step`). Returns the chunks whose meshes were rebuilt, in
    /// order; `columns` and `trees` are the terrain decided for the first
    /// queued chunk, used when it is to be generated again.
    pub fn update_models(&mut self, columns: &Vec<Vec<ColumnValues>>, trees: &Vec<TreeSite>) -> (built_chunks: Vec<(usize, usize)>)
        requires
            world_wf(old(self)),
            unbuilt_in_grid(old(self)@.unbuilt, old(self)@.grid.len() as int),
            regeneration_inputs_ok(old(self)@, columns.deep_view(), trees@),
            changes_in_grid(first_unbuilt_step(old(self)@, columns.deep_view(), trees@).change_block,
                first_unbuilt_step(old(self)@, columns.deep_view(), trees@).grid, old(self).chunk_width as int),
        ensures
            final(self)@ =~~= changes_step(first_unbuilt_step(old(self)@, columns.deep_view(), trees@)),
            world_wf(final(self)),
            ({
                let f = first_unbuilt_step(old(self)@, columns.deep_view(), trees@);
                built_chunks@ == (if old(self)@.unbuilt.len() == 0 { Seq::<(usize, usize)>::empty() } else {
                    seq![(old(self)@.unbuilt[0].0, old(self)@.unbuilt[0].1)]
                }) + (if f.change_block.len() != 0 && f.unbuilt.len() == 0 {
                    listed_chunks(apply_changes(f.grid, f.chunk_width as int, f.unbuilt, f.change_block, f.change_block.len() as int).1)
                } else {
                    Seq::<(usize, usize)>::empty()
                })
            }),
    {
        let mut first = self.update_first_unbuilt(columns, trees);
        assert(self@.chunk_width == old(self).chunk_width);
        let mut rest = self.apply_change_blocks();
        first.append(&mut rest);
        first
    }
}

/// The index a block lookup reports when it found nothing.
pub const NOT_FOUND: usize = 9999;

/// A block lookup's result: chunk indices in the grid and block indices in
/// the chunk.
pub type BlockIndex = (usize, usize, usize, usize, usize);

/// A lookup found a block: no index is `NOT_FOUND`.
pub open spec fn found(b: BlockIndex) -> bool {
    b.0 != NOT_FOUND && b.1 != NOT_FOUND && b.2 != NOT_FOUND && b.3 != NOT_FOUND && b.4 != NOT_FOUND
}

pub open spec fn index_in_grid(g: Seq<Seq<ChunkView>>, w: int, b: BlockIndex) -> bool {
    in_grid(g, w, b.0 as int, b.1 as int, b.2 as int, b.3 as int, b.4 as int)
}

/// What a lookup found: nothing (0), water (1) or another block (2).
pub open spec fn found_kind(g: Seq<Seq<ChunkView>>, b: BlockIndex) -> usize {
    if !found(b) {
        0
    } else if block_at(g, b.0 as int, b.1 as int, b.2 as int, b.3 as int, b.4 as int).id == WATER_ID {
        1
    } else {
        2
    }
}

/// Where a player can go, from what is at head and at foot height: 2 when
/// either is in a block, 1 when either is in water, 0 when both are free.
pub open spec fn move_kind(up: usize, down: usize) -> usize {
    if up == 2 || down == 2 {
        2
    } else if up == 1 || down == 1 {
        1
    } else {
        0
    }
}

/// The world after the block at `b` was broken: stored as air for its
/// chunk, made air and hidden, and the faces around it checked; see `placed`.
pub open spec fn destroyed(wv: WorldView, b: BlockIndex) -> WorldView {
    placed(wv, b, AIR_ID)
}

/// The world after a block of kind `id` was placed at `at`: stored under the
/// key of `at` (its chunk's grid coordinates and its own indices), set at
/// `at` and hidden, and the faces around `at` checked.
pub open spec fn placed(wv: WorldView, at: BlockIndex, id: u8) -> WorldView {
    let c = wv.grid[at.0 as int][at.1 as int];
    let key = spec_block_key(c.grid_x as int, c.grid_z as int, at.2 as int, at.3 as int, at.4 as int);
    let g1 = with_block(wv.grid, at.0 as int, at.1 as int, at.2 as int, at.3 as int, at.4 as int,
        BlockView { id, visible: false, ..block_at(wv.grid, at.0 as int, at.1 as int, at.2 as int, at.3 as int, at.4 as int) });
    let r = around(g1, wv.chunk_width as int, wv.unbuilt, (at.0 as int, at.1 as int, at.2 as int, at.3 as int, at.4 as int));
    WorldView { grid: r.0, unbuilt: r.1, set_blocks: wv.set_blocks.insert(key, id), ..wv }
}

fn set_block_hidden(chunk_grid: &mut Vec<Vec<Chunk>>, b: BlockIndex, w: usize, id: u8)
    requires
        grid_wf(old(chunk_grid).deep_view(), w as int),
        layers_ok(old(chunk_grid).deep_view()),
        index_in_grid(old(chunk_grid).deep_view(), w as int, b),
    ensures
        final(chunk_grid).deep_view() =~~= with_block(old(chunk_grid).deep_view(), b.0 as int, b.1 as int, b.2 as int, b.3 as int, b.4 as int,
            BlockView { id, visible: false, ..block_at(old(chunk_grid).deep_view(), b.0 as int, b.1 as int, b.2 as int, b.3 as int, b.4 as int) }),
        grid_wf(final(chunk_grid).deep_view(), w as int),
        layers_ok(final(chunk_grid).deep_view()),
        grid_height(final(chunk_grid).deep_view()) == grid_height(old(chunk_grid).deep_view()),
        final(chunk_grid).deep_view().len() == old(chunk_grid).deep_view().len(),
{
    let ghost g = chunk_grid.deep_view();
    let ghost nb = BlockView { id, visible: false, ..block_at(g, b.0 as int, b.1 as int, b.2 as int, b.3 as int, b.4 as int) };
    proof {
        lemma_with_block_shape(g, w as int, b.0 as int, b.1 as int, b.2 as int, b.3 as int, b.4 as int, nb);
    }
    assert(g[b.0 as int].len() == g.len());
    assert(is_box(g[b.0 as int][b.1 as int].blocks, w as int, w as int, grid_height(g)));
    proof {
        lemma_grid_index(chunk_grid, b.0 as int, b.1 as int, b.2 as int, b.3 as int);
    }
    chunk_grid[b.0][b.1].blocks[b.2][b.3][b.4].id = id;
    chunk_grid[b.0][b.1].blocks[b.2][b.3][b.4].visible = false;
    proof {
        let g1 = chunk_grid.deep_view();
        assert(g1 =~~= with_block(g, b.0 as int, b.1 as int, b.2 as int, b.3 as int, b.4 as int, nb));
        assert forall|x: int, y: int| 0 <= x < g1.len() && 0 <= y < g1.len() implies
            (#[trigger] g1[x][y]).visible_layers.len() >= grid_height(g1) by {
            assert(g[x].len() == g.len());
        }
    }
}

impl World {
    /// Breaks the block at `block_index`, which a lookup found; see
    /// `destroyed`.
    pub fn destroy_block_at(&mut self, block_index: BlockIndex)
        requires
            world_wf(old(self)),
            index_in_grid(old(self)@.grid, old(self).chunk_width as int, block_index),
        ensures
            final(self)@ =~~= destroyed(old(self)@, block_index),
            world_wf(final(self)),
    {
        let ghost g = self@.grid;
        assert(g[block_index.0 as int].len() == g.len());
        assert(g[block_index.0 as int] == self.chunk_grid@[block_index.0 as int].deep_view());
        let grid = self.chunk_grid[block_index.0][block_index.1].get_grid();
        check_and_set_block(&mut self.set_blocks, grid.0, grid.1, block_index.2, block_index.3, block_index.4, AIR_ID);
        let w = self.chunk_width;
        set_block_hidden(&mut self.chunk_grid, block_index, w, AIR_ID);
        check_blocks_around_block(self, block_index.0, block_index.1, block_index.2, block_index.3, block_index.4);
    }

    /// Places a block of kind `selected_block` at `block_index`, the free
    /// block before the block the player looks at; see `placed`.
    pub fn place_block_at(&mut self, block_index: BlockIndex, selected_block: u8)
        requires
            world_wf(old(self)),
            index_in_grid(old(self)@.grid, old(self).chunk_width as int, block_index),
        ensures
            final(self)@ =~~= placed(old(self)@, block_index, selected_block),
            world_wf(final(self)),
    {
        let ghost g = self@.grid;
        let at = block_index;
        assert(g[at.0 as int].len() == g.len());
        assert(g[at.0 as int] == self.chunk_grid@[at.0 as int].deep_view());
        let grid = self.chunk_grid[at.0][at.1].get_grid();
        check_and_set_block(&mut self.set_blocks, grid.0, grid.1, at.2, at.3, at.4, selected_block);
        let w = self.chunk_width;
        set_block_hidden(&mut self.chunk_grid, at, w, selected_block);
        check_blocks_around_block(self, at.0, at.1, at.2, at.3, at.4);
    }

    /// Where the player can go, from the lookups at head height (`up`) and
    /// at foot height (`down`); see `move_kind` and `found_kind`.
    pub fn move_to_direction(&self, up: BlockIndex, down: BlockIndex) -> (r: usize)
        requires
            world_wf(self),
            found(up) ==> index_in_grid(self@.grid, self.chunk_width as int, up),
            found(down) ==> index_in_grid(self@.grid, self.chunk_width as int, down),
        ensures
            r == move_kind(found_kind(self@.grid, up), found_kind(self@.grid, down)),
    {
        let block_up = self.found_kind(up);
        let block_down = self.found_kind(down);
        if block_up == 2 || block_down == 2 {
            2
        } else if block_up == 1 || block_down == 1 {
            1
        } else {
            0
        }
    }

    fn found_kind(&self, b: BlockIndex) -> (r: usize)
        requires
            world_wf(self),
            found(b) ==> index_in_grid(self@.grid, self.chunk_width as int, b),
        ensures
            r == found_kind(self@.grid, b),
    {
        if b.0 != NOT_FOUND && b.1 != NOT_FOUND && b.2 != NOT_FOUND && b.3 != NOT_FOUND && b.4 != NOT_FOUND {
            let ghost g = self@.grid;
            let w = self.chunk_width;
            assert(g[b.0 as int].len() == g.len());
            assert(is_box(g[b.0 as int][b.1 as int].blocks, w as int, w as int, grid_height(g)));
            proof {
                lemma_grid_index(&self.chunk_grid, b.0 as int, b.1 as int, b.2 as int, b.3 as int);
            }
            if self.chunk_grid[b.0][b.1].blocks[b.2][b.3][b.4].is_water() {
                1
            } else {
                2
            }
        } else {
            0
        }
    }

    /// Whether the indices of a lookup name a block of the grid.
    pub fn index_in_grid(&self, b: BlockIndex) -> (r: bool)
        requires
            world_wf(self),
        ensures
            r == index_in_grid(self@.grid, self.chunk_width as int, b),
    {
        let ghost g = self@.grid;
        let n = self.chunk_grid.len();
        if b.0 >= n || b.1 >= n || b.2 >= self.chunk_width || b.3 >= self.chunk_width {
            return false;
        }
        assert(g[0].len() == g.len());
        assert(is_box(g[0][0].blocks, self.chunk_width as int, self.chunk_width as int, grid_height(g)));
        proof {
            lemma_grid_index(&self.chunk_grid, 0, 0, 0, 0);
        }
        b.4 < self.chunk_grid[0][0].blocks[0][0].len()
    }
}

/// What the search for a place to put the player does next: stop there,
/// look one block lower, or one block higher.
#[derive(Clone, Copy, Debug, PartialEq, Eq, Structural)]
pub enum SpawnStep {
    Found,
    Down,
    Up,
}

/// One step of the search for where to put the player above the ground,
/// from what the lookup at the current height found (`None` when nothing,
/// `Some(true)` for air, `Some(false)` for a block) and the search's status
/// (2 after a block, 1 after air or nothing, 0 at the start): in air or
/// nothing it goes down unless it just came up out of a block, in a block it
/// goes up unless it just came down through air.
pub fn spawn_step(lookup: Option<bool>, status: usize) -> (r: SpawnStep)
    ensures
        r == (match lookup {
            Some(false) => if status == 1 { SpawnStep::Found } else { SpawnStep::Up },
            _ => if status == 2 { SpawnStep::Found } else { SpawnStep::Down },
        }),
{
    match lookup {
        Some(is_air) => {
            if is_air {
                if status == 2 { SpawnStep::Found } else { SpawnStep::Down }
            } else {
                if status == 1 { SpawnStep::Found } else { SpawnStep::Up }
            }
        },
        None => {
            if status == 2 { SpawnStep::Found } else { SpawnStep::Down }
        },
    }
}


proof fn lemma_around_frame(g: Seq<Seq<ChunkView>>, w: int, u: Seq<Unbuilt>, c: Cell)
    requires
        grid_wf(g, w),
        in_grid(g, w, c.0, c.1, c.2, c.3, c.4),
    ensures
        same_frame(around(g, w, u, c).0, g),
        grid_wf(around(g, w, u, c).0, w),
        grid_height(around(g, w, u, c).0) == grid_height(g),
        around(g, w, u, c).0.len() == g.len(),
{
    let (i, k, j, l, m) = c;
    let h = grid_height(g);
    let n = g.len() as int;
    assert(g[i].len() == n);
    let g1 = check_cell(g, w, (i, k, j, l, m));
    lemma_check_cell_frame(g, w, (i, k, j, l, m));
    let g2 = if h != 1 && m != h - 1 && m < h + 1 { check_cell(g1, w, (i, k, j, l, m + 1)) } else { g1 };
    if h != 1 && m != h - 1 && m < h + 1 {
        lemma_check_cell_frame(g1, w, (i, k, j, l, m + 1));
        lemma_same_frame_trans(g2, g1, g);
    }
    let g3 = if h != 1 && m != 0 { check_cell(g2, w, (i, k, j, l, m - 1)) } else { g2 };
    if h != 1 && m != 0 {
        lemma_check_cell_frame(g2, w, (i, k, j, l, m - 1));
        lemma_same_frame_trans(g3, g2, g);
    }
    assert(g3 == around_column(g, w, c));
    let p4 = around_j_minus(g3, w, u, c);
    if j != 0 {
        lemma_check_cell_frame(g3, w, (i, k, j - 1, l, m));
        lemma_same_frame_trans(p4.0, g3, g);
    } else if i != 0 {
        lemma_check_cell_frame(g3, w, (i - 1, k, w - 1, l, m));
        lemma_same_frame_trans(p4.0, g3, g);
    }
    let p5 = around_j_plus(p4.0, w, p4.1, c);
    if j != w - 1 {
        lemma_check_cell_frame(p4.0, w, (i, k, j + 1, l, m));
        lemma_same_frame_trans(p5.0, p4.0, g);
    } else if i != n - 1 {
        lemma_check_cell_frame(p4.0, w, (i + 1, k, 0, l, m));
        lemma_same_frame_trans(p5.0, p4.0, g);
    }
    let p6 = around_l_minus(p5.0, w, p5.1, c);
    if l != 0 {
        lemma_check_cell_frame(p5.0, w, (i, k, j, l - 1, m));
        lemma_same_frame_trans(p6.0, p5.0, g);
    } else if k != 0 {
        lemma_check_cell_frame(p5.0, w, (i, k - 1, j, w - 1, m));
        lemma_same_frame_trans(p6.0, p5.0, g);
    }
    let p7 = around_l_plus(p6.0, w, p6.1, c);
    assert(p6.0[i].len() == n);
    if l != w - 1 {
        lemma_check_cell_frame(p6.0, w, (i, k, j, l + 1, m));
        lemma_same_frame_trans(p7.0, p6.0, g);
    } else if k != p6.0[i].len() - 1 {
        lemma_check_cell_frame(p6.0, w, (i, k + 1, j, 0, m));
        lemma_same_frame_trans(p7.0, p6.0, g);
    }
}

/// A block stored for a position is what a later lookup of it reports; a
/// lookup of a position with another key reports what it did before; and a
/// position whose stored block was forgotten reports that none is stored.
pub proof fn lemma_store_read_back(
    m: Map<Seq<u8>, u8>, grid_x: i32, grid_z: i32, i: usize, k: usize, j: usize, id: u8,
    grid_x2: i32, grid_z2: i32, i2: usize, k2: usize, j2: usize,
)
    ensures
        ({
            let key = spec_block_key(grid_x as int, grid_z as int, i as int, k as int, j as int);
            let key2 = spec_block_key(grid_x2 as int, grid_z2 as int, i2 as int, k2 as int, j2 as int);
            &&& stored_value(m.insert(key, id), key) == id
            &&& stored_value(m.remove(key), key) == UNSET_ID
            &&& key2 != key ==> stored_value(m.insert(key, id), key2) == stored_value(m, key2)
            &&& key2 != key ==> stored_value(m.remove(key), key2) == stored_value(m, key2)
        }),
{
}

/// After its faces were checked, a block keeps its kind and is drawn
/// exactly when it is not air and one of its faces is shown; a drawn block
/// shows exactly the faces that touch air, water (unless it is water
/// itself), or the end of its chunk; the top and bottom faces of a column
/// are always shown; so a block other than air on the outer layer of its
/// chunk is drawn.
pub proof fn lemma_checked_visibility(g: Seq<Seq<ChunkView>>, w: int, i: int, k: int, j: int, l: int, m: int)
    ensures
        ({
            let b = checked_block(g, w, i, k, j, l, m);
            let s = spec_sides(g, w, i, k, j, l, m);
            &&& b.id == block_at(g, i, k, j, l, m).id
            &&& b.visible == (block_at(g, i, k, j, l, m).id != AIR_ID && any_side(s))
            &&& b.visible ==> b.sides == s
            &&& s.len() == 6
            &&& m == 0 ==> s[4]
            &&& m == grid_height(g) - 1 ==> s[5]
            &&& j == w - 1 ==> s[0]
            &&& j == 0 ==> s[1]
            &&& l == w - 1 ==> s[2]
            &&& l == 0 ==> s[3]
            &&& (block_at(g, i, k, j, l, m).id != AIR_ID && (j == 0 || j == w - 1 || l == 0 || l == w - 1
                || m == 0 || m == grid_height(g) - 1)) ==> b.visible && b.sides == s
        }),
{
}

/// Placing a block of kind `id` (air when it is broken) stores it under its
/// own key, and leaves every chunk where it was, with its coordinates and
/// dimensions.
pub proof fn lemma_edited_block_stored(wv: WorldView, b: BlockIndex, id: u8)
    requires
        grid_wf(wv.grid, wv.chunk_width as int),
        index_in_grid(wv.grid, wv.chunk_width as int, b),
    ensures
        ({
            let c = wv.grid[b.0 as int][b.1 as int];
            let d = placed(wv, b, id);
            &&& d.set_blocks.contains_key(spec_block_key(c.grid_x as int, c.grid_z as int, b.2 as int, b.3 as int, b.4 as int))
            &&& d.set_blocks[spec_block_key(c.grid_x as int, c.grid_z as int, b.2 as int, b.3 as int, b.4 as int)] == id
            &&& same_frame(d.grid, wv.grid)
            &&& grid_wf(d.grid, wv.chunk_width as int)
            &&& grid_height(d.grid) == grid_height(wv.grid)
        }),
{
    let w = wv.chunk_width as int;
    let g = wv.grid;
    let nb = BlockView { id, visible: false, ..block_at(g, b.0 as int, b.1 as int, b.2 as int, b.3 as int, b.4 as int) };
    let g1 = with_block(g, b.0 as int, b.1 as int, b.2 as int, b.3 as int, b.4 as int, nb);
    lemma_with_block_shape(g, w, b.0 as int, b.1 as int, b.2 as int, b.3 as int, b.4 as int, nb);
    lemma_around_frame(g1, w, wv.unbuilt, (b.0 as int, b.1 as int, b.2 as int, b.3 as int, b.4 as int));
    lemma_same_frame_trans(placed(wv, b, id).grid, g1, g);
}

/// Generating chunk `(i, k)` again gives each of its cells whose key holds a
/// stored block, neither a leaf nor the value that marks no block, that
/// block, unless a leaf of one of the chunk's own trees falls on it.
pub proof fn lemma_regeneration_reads_store(
    wv: WorldView, columns: Seq<Seq<ColumnValues>>, trees: Seq<TreeSite>, i: int, k: int, x: int, y: int, z: int,
)
    requires
        grid_wf(wv.grid, wv.chunk_width as int),
        in_grid(wv.grid, wv.chunk_width as int, i, k, x, y, z),
        wv.set_blocks.contains_key(spec_block_key(wv.grid[i][k].grid_x as int, wv.grid[i][k].grid_z as int, x, y, z)),
        wv.set_blocks[spec_block_key(wv.grid[i][k].grid_x as int, wv.grid[i][k].grid_z as int, x, y, z)] != LEAF_ID,
        wv.set_blocks[spec_block_key(wv.grid[i][k].grid_x as int, wv.grid[i][k].grid_z as int, x, y, z)] != UNSET_ID,
        forall|t: int| 0 <= t < trees.len() ==> (#[trigger] trees[t]).4 >= 2,
        no_leaf_on(trees, x, y, z),
    ensures
        regenerated(wv, columns, trees, i, k).grid[i][k].blocks[x][y][z].id
            == wv.set_blocks[spec_block_key(wv.grid[i][k].grid_x as int, wv.grid[i][k].grid_z as int, x, y, z)],
{
    let w = wv.chunk_width as int;
    let g = wv.grid;
    let c = g[i][k];
    assert(g[i].len() == g.len());
    assert(is_box(c.blocks, w, w, grid_height(g)));
    assert(c.blocks[0].len() == w);
    assert(c.blocks[0][0].len() == grid_height(g));
    assert(chunk_square(c.blocks));
    lemma_generated_shows_stored(TreeState { blocks: c.blocks, change_block: wv.change_block, set_blocks: wv.set_blocks },
        true, c.blocks.len() as int, (c.mid_height + c.underground_height + c.sky_height) as int, columns, trees,
        i as usize, k as usize, c.grid_x, c.grid_z, (11 + c.underground_height) as u8, c.underground_height, c.chunk_distance,
        x, y, z);
}

/// A placed block, neither a leaf nor the value that marks no block, is
/// there again when its chunk is generated again right after, unless a leaf
/// of one of the chunk's own trees falls on it; a broken block is air.
pub proof fn lemma_placed_block_regenerates(
    wv: WorldView, b: BlockIndex, id: u8, columns: Seq<Seq<ColumnValues>>, trees: Seq<TreeSite>,
)
    requires
        grid_wf(wv.grid, wv.chunk_width as int),
        index_in_grid(wv.grid, wv.chunk_width as int, b),
        id != LEAF_ID,
        id != UNSET_ID,
        forall|t: int| 0 <= t < trees.len() ==> (#[trigger] trees[t]).4 >= 2,
        no_leaf_on(trees, b.2 as int, b.3 as int, b.4 as int),
    ensures
        regenerated(placed(wv, b, id), columns, trees, b.0 as int, b.1 as int).grid[b.0 as int][b.1 as int]
            .blocks[b.2 as int][b.3 as int][b.4 as int].id == id,
        regenerated(destroyed(wv, b), columns, trees, b.0 as int, b.1 as int).grid[b.0 as int][b.1 as int]
            .blocks[b.2 as int][b.3 as int][b.4 as int].id == AIR_ID,
{
    lemma_placed_regenerates_one(wv, b, id, columns, trees);
    lemma_placed_regenerates_one(wv, b, AIR_ID, columns, trees);
}

proof fn lemma_placed_regenerates_one(
    wv: WorldView, b: BlockIndex, id: u8, columns: Seq<Seq<ColumnValues>>, trees: Seq<TreeSite>,
)
    requires
        grid_wf(wv.grid, wv.chunk_width as int),
        index_in_grid(wv.grid, wv.chunk_width as int, b),
        id != LEAF_ID,
        id != UNSET_ID,
        forall|t: int| 0 <= t < trees.len() ==> (#[trigger] trees[t]).4 >= 2,
        no_leaf_on(trees, b.2 as int, b.3 as int, b.4 as int),
    ensures
        regenerated(placed(wv, b, id), columns, trees, b.0 as int, b.1 as int).grid[b.0 as int][b.1 as int]
            .blocks[b.2 as int][b.3 as int][b.4 as int].id == id,
{
    let d = placed(wv, b, id);
    lemma_edited_block_stored(wv, b, id);
    assert(wv.grid[b.0 as int].len() == wv.grid.len());
    assert(d.grid[b.0 as int][b.1 as int] == (ChunkView { blocks: d.grid[b.0 as int][b.1 as int].blocks, ..wv.grid[b.0 as int][b.1 as int] }));
    lemma_regeneration_reads_store(d, columns, trees, b.0 as int, b.1 as int, b.2 as int, b.3 as int, b.4 as int);
}

/// The chunks of a square grid have consecutive grid coordinates: chunk
/// `(x, y)` lies `x` chunks along and `y` chunks across from chunk `(0, 0)`.
pub open spec fn coords_consistent(g: Seq<Seq<ChunkView>>) -> bool {
    &&& g.len() >= 1
    &&& forall|x: int| 0 <= x < g.len() ==> #[trigger] g[x].len() == g.len()
    &&& forall|x: int, y: int| 0 <= x < g.len() && 0 <= y < g.len() ==>
        (#[trigger] g[x][y]).grid_x == g[0][0].grid_x + x && g[x][y].grid_z == g[0][0].grid_z + y
}

/// How far a move in direction `dir` shifts the grid's coordinates, along
/// and across.
pub open spec fn move_shift(dir: usize) -> (int, int) {
    if dir == 2 { (-1, 0) } else if dir == 4 { (1, 0) } else if dir == 1 { (0, -1) } else if dir == 3 { (0, 1) } else { (0, 0) }
}

/// Moving a grid of at least two by two chunks whose coordinates are
/// consecutive keeps them consecutive, and shifts them by one chunk in the
/// direction of the move.
pub proof fn lemma_move_keeps_coords(g: Seq<Seq<ChunkView>>, dir: usize)
    requires
        coords_consistent(g),
        g.len() >= 2,
        move_in_range(g, dir),
    ensures
        coords_consistent(moved_grid(g, dir)),
        moved_grid(g, dir)[0][0].grid_x == g[0][0].grid_x + move_shift(dir).0,
        moved_grid(g, dir)[0][0].grid_z == g[0][0].grid_z + move_shift(dir).1,
{
    let n = g.len() as int;
    let mg = moved_grid(g, dir);
    assert(g[0].len() == n);
    assert(g[n - 1].len() == n);
    assert forall|x: int| 0 <= x < n implies #[trigger] mg[x].len() == n by {
        lemma_moved_chunk(g, dir, x, 0);
    }
    if dir == 2 {
        assert((g[0][0]).grid_x > i32::MIN);
        assert(mg[0][0].grid_x == g[0][0].grid_x - 1);
        assert(mg[0][0].grid_z == g[0][0].grid_z);
        assert forall|x: int, y: int| 0 <= x < n && 0 <= y < n implies
            (#[trigger] mg[x][y]).grid_x == mg[0][0].grid_x + x && mg[x][y].grid_z == mg[0][0].grid_z + y by {
            assert(g[0][y].grid_x > i32::MIN);
            if x > 0 {
                assert(g[x - 1].len() == n);
                assert(mg[x][y] == g[x - 1][y]);
            }
        }
    } else if dir == 4 {
        assert(g[n - 1][0].grid_x < i32::MAX);
        assert(mg[0][0] == g[1][0]);
        assert forall|x: int, y: int| 0 <= x < n && 0 <= y < n implies
            (#[trigger] mg[x][y]).grid_x == mg[0][0].grid_x + x && mg[x][y].grid_z == mg[0][0].grid_z + y by {
            assert(g[n - 1][y].grid_x < i32::MAX);
            if x < n - 1 {
                assert(g[x + 1].len() == n);
                assert(mg[x][y] == g[x + 1][y]);
            }
        }
    } else if dir == 1 {
        assert(g[0][0].grid_z > i32::MIN);
        assert forall|x: int, y: int| 0 <= x < n && 0 <= y < n implies
            (#[trigger] mg[x][y]).grid_x == mg[0][0].grid_x + x && mg[x][y].grid_z == mg[0][0].grid_z + y by {
            assert(g[x].len() == n);
            assert(g[x][0].grid_z > i32::MIN);
            if y > 0 {
                assert(mg[x][y] == g[x][y - 1]);
            }
        }
    } else if dir == 3 {
        assert(mg[0][0] == g[0][1]);
        assert forall|x: int, y: int| 0 <= x < n && 0 <= y < n implies
            (#[trigger] mg[x][y]).grid_x == mg[0][0].grid_x + x && mg[x][y].grid_z == mg[0][0].grid_z + y by {
            assert(g[x].len() == n);
            assert(g[x][n - 1].grid_z < i32::MAX);
            if y < n - 1 {
                assert(mg[x][y] == g[x][y + 1]);
            }
        }
    }
}

/// Moving a grid of at least two by two chunks with consecutive coordinates
/// one chunk and then back gives the grid it was.
pub proof fn lemma_move_back_restores(g: Seq<Seq<ChunkView>>, dir: usize)
    requires
        coords_consistent(g),
        g.len() >= 2,
        1 <= dir <= 4,
        move_in_range(g, dir),
    ensures
        moved_grid(moved_grid(g, dir), if dir == 1 { 3usize } else if dir == 3 { 1usize } else if dir == 2 { 4usize } else { 2usize }) == g,
{
    let n = g.len() as int;
    let back: usize = if dir == 1 { 3usize } else if dir == 3 { 1usize } else if dir == 2 { 4usize } else { 2usize };
    let g1 = moved_grid(g, dir);
    let g2 = moved_grid(g1, back);
    lemma_move_keeps_coords(g, dir);
    assert(g[0].len() == n);
    assert(g[n - 1].len() == n);
    assert(g1.len() == n);
    assert(g1[0].len() == n);
    assert(g1[n - 1].len() == n);
    assert forall|x: int| 0 <= x < n implies #[trigger] g2[x] =~= g[x] by {
        assert(g[x].len() == n);
        assert(g1[x].len() == n);
        assert forall|y: int| 0 <= y < n implies #[trigger] g2[x][y] == g[x][y] by {
            assert(g1[x][y].grid_x == g1[0][0].grid_x + x);
            assert(g[x][y].grid_x == g[0][0].grid_x + x);
            if dir == 2 {
                if x < n - 1 {
                    assert(g2[x] == g1[x + 1]);
                    assert(g1[x + 1] == g[x]);
                } else {
                    assert(g1[n - 1] == g[n - 2]);
                    assert(g[n - 2].len() == n);
                    assert(g[n - 2][y].grid_x == g[0][0].grid_x + n - 2);
                }
            } else if dir == 4 {
                if x > 0 {
                    assert(g2[x] == g1[x - 1]);
                    assert(g1[x - 1] == g[x]);
                } else {
                    assert(g1[0] == g[1]);
                    assert(g[1].len() == n);
                    assert(g[1][y].grid_x == g[0][0].grid_x + 1);
                }
            } else if dir == 1 {
                if y < n - 1 {
                    assert(g2[x][y] == g1[x][y + 1]);
                    assert(g1[x][y + 1] == g[x][y]);
                } else {
                    assert(g1[x][n - 1] == g[x][n - 2]);
                    assert(g[x][n - 2].grid_z == g[0][0].grid_z + n - 2);
                }
            } else {
                if y > 0 {
                    assert(g2[x][y] == g1[x][y - 1]);
                    assert(g1[x][y - 1] == g[x][y]);
                } else {
                    assert(g1[x][0] == g[x][1]);
                    assert(g[x][1].grid_z == g[0][0].grid_z + 1);
                }
            }
        }
    }
    assert(g2 =~= g);
}

proof fn lemma_pushes_in_grid(u: Seq<Unbuilt>, n: int, dir: usize, c: int)
    requires
        unbuilt_in_grid(u, n),
        2 <= n,
        c <= n,
    ensures
        unbuilt_in_grid(pushes_upto(u, n, dir, c), n),
    decreases c,
{
    if c > 0 {
        lemma_pushes_in_grid(u, n, dir, c - 1);
        let p = pushes_upto(u, n, dir, c - 1);
        let q = move_pushes(n, dir, c - 1);
        let r = p + q;
        assert forall|t: int| 0 <= t < r.len() implies (#[trigger] r[t]).0 < n && r[t].1 < n by {
            if t >= p.len() {
                assert(r[t] == q[t - p.len()]);
            } else {
                assert(r[t] == p[t]);
            }
        }
    }
}

/// Moving a grid of at least two by two chunks queues only chunks of the
/// grid.
pub proof fn lemma_move_queues_in_grid(u: Seq<Unbuilt>, n: int, dir: usize)
    requires
        unbuilt_in_grid(u, n),
        n >= 2,
    ensures
        unbuilt_in_grid(moved_unbuilt(u, n, dir), n),
{
    lemma_pushes_in_grid(u, n, dir, n);
}

/// One update of the models takes exactly one chunk off the queue, when
/// there is one, and queues no chunk outside the grid; once at most one
/// chunk was queued, no block change is left waiting.
pub proof fn lemma_update_progress(wv: WorldView, columns: Seq<Seq<ColumnValues>>, trees: Seq<TreeSite>, n: int)
    ensures
        ({
            let f = changes_step(first_unbuilt_step(wv, columns, trees));
            &&& f.unbuilt.len() == (if wv.unbuilt.len() == 0 { 0 } else { wv.unbuilt.len() - 1 })
            &&& unbuilt_in_grid(wv.unbuilt, n) ==> unbuilt_in_grid(f.unbuilt, n)
            &&& wv.unbuilt.len() <= 1 ==> f.change_block.len() == 0
            &&& f.chunk_width == wv.chunk_width
        }),
{
    let s = first_unbuilt_step(wv, columns, trees);
    let f = changes_step(s);
    if wv.unbuilt.len() > 0 {
        assert(s.unbuilt == wv.unbuilt.drop_first());
        if unbuilt_in_grid(wv.unbuilt, n) {
            assert forall|t: int| 0 <= t < s.unbuilt.len() implies (#[trigger] s.unbuilt[t]).0 < n && s.unbuilt[t].1 < n by {
                assert(s.unbuilt[t] == wv.unbuilt[t + 1]);
            }
        }
    }
}


/// `a` has the dimensions of grid `b`, and each of its chunks the grid
/// coordinates of the chunk of `b` at the same place.
pub open spec fn same_coords(a: Seq<Seq<ChunkView>>, b: Seq<Seq<ChunkView>>) -> bool {
    &&& a.len() == b.len()
    &&& forall|x: int| 0 <= x < b.len() ==> #[trigger] a[x].len() == b[x].len()
    &&& forall|x: int, y: int| 0 <= x < b.len() && 0 <= y < b[x].len() ==>
        (#[trigger] a[x][y]).grid_x == b[x][y].grid_x && a[x][y].grid_z == b[x][y].grid_z
}

/// Every row of the grid holds as many chunks as the grid has rows.
pub open spec fn square(g: Seq<Seq<ChunkView>>) -> bool {
    forall|x: int| 0 <= x < g.len() ==> #[trigger] g[x].len() == g.len()
}

proof fn lemma_same_coords_trans(a: Seq<Seq<ChunkView>>, b: Seq<Seq<ChunkView>>, c: Seq<Seq<ChunkView>>)
    requires
        same_coords(a, b),
        same_coords(b, c),
    ensures
        same_coords(a, c),
{
}

proof fn lemma_same_coords_consistent(a: Seq<Seq<ChunkView>>, b: Seq<Seq<ChunkView>>)
    requires
        same_coords(a, b),
        coords_consistent(b),
    ensures
        coords_consistent(a),
        a[0][0].grid_x == b[0][0].grid_x,
        a[0][0].grid_z == b[0][0].grid_z,
{
    assert(b[0].len() == b.len());
}

proof fn lemma_update_chunk_coords(g: Seq<Seq<ChunkView>>, i: int, k: int, c: ChunkView)
    requires
        0 <= i < g.len(),
        0 <= k < g[i].len(),
        c.grid_x == g[i][k].grid_x,
        c.grid_z == g[i][k].grid_z,
    ensures
        same_coords(g.update(i, g[i].update(k, c)), g),
{
    let g2 = g.update(i, g[i].update(k, c));
    assert forall|x: int| 0 <= x < g.len() implies #[trigger] g2[x].len() == g[x].len() by {
        if x != i {
            assert(g2[x] == g[x]);
        }
    }
    assert forall|x: int, y: int| 0 <= x < g.len() && 0 <= y < g[x].len() implies
        (#[trigger] g2[x][y]).grid_x == g[x][y].grid_x && g2[x][y].grid_z == g[x][y].grid_z by {
        if x != i {
            assert(g2[x] == g[x]);
        }
    }
}

proof fn lemma_check_cell_coords(g: Seq<Seq<ChunkView>>, w: int, c: Cell)
    requires
        0 <= c.0 < g.len(),
        0 <= c.1 < g[c.0].len(),
    ensures
        same_coords(check_cell(g, w, c), g),
{
    let ch = g[c.0][c.1];
    let b = checked_block(g, w, c.0, c.1, c.2, c.3, c.4);
    lemma_update_chunk_coords(g, c.0, c.1, ChunkView {
        blocks: ch.blocks.update(c.2, ch.blocks[c.2].update(c.3, ch.blocks[c.2][c.3].update(c.4, b))),
        ..ch
    });
}

proof fn lemma_column_coords(g: Seq<Seq<ChunkView>>, w: int, i: int, k: int, j: int, l: int, n: int)
    requires
        0 <= i < g.len(),
        0 <= k < g[i].len(),
    ensures
        same_coords(check_column_cells(g, w, i, k, j, l, n), g),
    decreases n,
{
    if n > 0 {
        lemma_column_coords(g, w, i, k, j, l, n - 1);
        let p = check_column_cells(g, w, i, k, j, l, n - 1);
        lemma_check_cell_coords(p, w, (i, k, j, l, n - 1));
        lemma_same_coords_trans(check_column_cells(g, w, i, k, j, l, n), p, g);
    }
}

proof fn lemma_slab_coords(g: Seq<Seq<ChunkView>>, w: int, h: int, i: int, k: int, j: int, n: int)
    requires
        0 <= i < g.len(),
        0 <= k < g[i].len(),
    ensures
        same_coords(check_slab_cells(g, w, h, i, k, j, n), g),
    decreases n,
{
    if n > 0 {
        lemma_slab_coords(g, w, h, i, k, j, n - 1);
        let p = check_slab_cells(g, w, h, i, k, j, n - 1);
        lemma_column_coords(p, w, i, k, j, n - 1, h);
        lemma_same_coords_trans(check_slab_cells(g, w, h, i, k, j, n), p, g);
    }
}

proof fn lemma_chunk_cells_coords(g: Seq<Seq<ChunkView>>, w: int, h: int, i: int, k: int, n: int)
    requires
        0 <= i < g.len(),
        0 <= k < g[i].len(),
    ensures
        same_coords(check_chunk_cells(g, w, h, i, k, n), g),
    decreases n,
{
    if n > 0 {
        lemma_chunk_cells_coords(g, w, h, i, k, n - 1);
        let p = check_chunk_cells(g, w, h, i, k, n - 1);
        lemma_slab_coords(p, w, h, i, k, n - 1, w);
        lemma_same_coords_trans(check_chunk_cells(g, w, h, i, k, n), p, g);
    }
}

proof fn lemma_row_chunks_coords(g: Seq<Seq<ChunkView>>, w: int, h: int, i: int, n: int)
    requires
        0 <= i < g.len(),
        n <= g[i].len(),
    ensures
        same_coords(check_row_chunks(g, w, h, i, n), g),
    decreases n,
{
    if n > 0 {
        lemma_row_chunks_coords(g, w, h, i, n - 1);
        let p = check_row_chunks(g, w, h, i, n - 1);
        lemma_chunk_cells_coords(p, w, h, i, n - 1, w);
        lemma_same_coords_trans(check_row_chunks(g, w, h, i, n), p, g);
    }
}

proof fn lemma_all_chunks_coords(g: Seq<Seq<ChunkView>>, w: int, h: int, n: int)
    requires
        square(g),
        n <= g.len(),
    ensures
        same_coords(check_all_chunks(g, w, h, n), g),
    decreases n,
{
    if n > 0 {
        lemma_all_chunks_coords(g, w, h, n - 1);
        let p = check_all_chunks(g, w, h, n - 1);
        assert(g[n - 1].len() == g.len());
        lemma_row_chunks_coords(p, w, h, n - 1, g.len() as int);
        lemma_same_coords_trans(check_all_chunks(g, w, h, n), p, g);
    }
}

proof fn lemma_around_column_coords(g: Seq<Seq<ChunkView>>, w: int, c: Cell)
    requires
        0 <= c.0 < g.len(),
        0 <= c.1 < g[c.0].len(),
    ensures
        same_coords(around_column(g, w, c), g),
{
    let (i, k, j, l, m) = c;
    let h = grid_height(g);
    let g1 = check_cell(g, w, (i, k, j, l, m));
    lemma_check_cell_coords(g, w, (i, k, j, l, m));
    let g2 = if h != 1 && m != h - 1 && m < h + 1 { check_cell(g1, w, (i, k, j, l, m + 1)) } else { g1 };
    if h != 1 && m != h - 1 && m < h + 1 {
        lemma_check_cell_coords(g1, w, (i, k, j, l, m + 1));
        lemma_same_coords_trans(g2, g1, g);
    }
    if h != 1 && m != 0 {
        lemma_check_cell_coords(g2, w, (i, k, j, l, m - 1));
        lemma_same_coords_trans(check_cell(g2, w, (i, k, j, l, m - 1)), g2, g);
    }
}

/// The step of `around` towards one neighbour keeps the coordinates and
/// queues only chunks of the grid.
spec fn around_step_ok(g: Seq<Seq<ChunkView>>, p: (Seq<Seq<ChunkView>>, Seq<Unbuilt>)) -> bool {
    same_coords(p.0, g) && unbuilt_in_grid(p.1, g.len() as int)
}

proof fn lemma_around_neighbours_coords(g: Seq<Seq<ChunkView>>, w: int, u: Seq<Unbuilt>, c: Cell)
    requires
        square(g),
        0 <= c.0 < g.len(),
        0 <= c.1 < g.len(),
        unbuilt_in_grid(u, g.len() as int),
    ensures
        around_step_ok(g, around_j_minus(g, w, u, c)),
        around_step_ok(g, around_j_plus(g, w, u, c)),
        around_step_ok(g, around_l_minus(g, w, u, c)),
        around_step_ok(g, around_l_plus(g, w, u, c)),
{
    let (i, k, j, l, m) = c;
    let n = g.len() as int;
    assert(g[i].len() == n);
    if j != 0 {
        lemma_check_cell_coords(g, w, (i, k, j - 1, l, m));
    } else if i != 0 {
        assert(g[i - 1].len() == n);
        lemma_check_cell_coords(g, w, (i - 1, k, w - 1, l, m));
    }
    if j != w - 1 {
        lemma_check_cell_coords(g, w, (i, k, j + 1, l, m));
    } else if i != n - 1 {
        assert(g[i + 1].len() == n);
        lemma_check_cell_coords(g, w, (i + 1, k, 0, l, m));
    }
    if l != 0 {
        lemma_check_cell_coords(g, w, (i, k, j, l - 1, m));
    } else if k != 0 {
        lemma_check_cell_coords(g, w, (i, k - 1, j, w - 1, m));
    }
    if l != w - 1 {
        lemma_check_cell_coords(g, w, (i, k, j, l + 1, m));
    } else if k != g[i].len() - 1 {
        lemma_check_cell_coords(g, w, (i, k + 1, j, 0, m));
    }
}

proof fn lemma_square_coords(a: Seq<Seq<ChunkView>>, b: Seq<Seq<ChunkView>>)
    requires
        same_coords(a, b),
        square(b),
    ensures
        square(a),
{
    assert forall|x: int| 0 <= x < a.len() implies #[trigger] a[x].len() == a.len() by {
        assert(b[x].len() == b.len());
    }
}

proof fn lemma_around_coords(g: Seq<Seq<ChunkView>>, w: int, u: Seq<Unbuilt>, c: Cell)
    requires
        square(g),
        0 <= c.0 < g.len(),
        0 <= c.1 < g.len(),
        unbuilt_in_grid(u, g.len() as int),
    ensures
        same_coords(around(g, w, u, c).0, g),
        unbuilt_in_grid(around(g, w, u, c).1, g.len() as int),
{
    let n = g.len() as int;
    assert(g[c.0].len() == n);
    let g3 = around_column(g, w, c);
    lemma_around_column_coords(g, w, c);
    lemma_square_coords(g3, g);
    let p4 = around_j_minus(g3, w, u, c);
    lemma_around_neighbours_coords(g3, w, u, c);
    lemma_same_coords_trans(p4.0, g3, g);
    lemma_square_coords(p4.0, g);
    let p5 = around_j_plus(p4.0, w, p4.1, c);
    lemma_around_neighbours_coords(p4.0, w, p4.1, c);
    lemma_same_coords_trans(p5.0, p4.0, g);
    lemma_square_coords(p5.0, g);
    let p6 = around_l_minus(p5.0, w, p5.1, c);
    lemma_around_neighbours_coords(p5.0, w, p5.1, c);
    lemma_same_coords_trans(p6.0, p5.0, g);
    lemma_square_coords(p6.0, g);
    let p7 = around_l_plus(p6.0, w, p6.1, c);
    lemma_around_neighbours_coords(p6.0, w, p6.1, c);
    lemma_same_coords_trans(p7.0, p6.0, g);
    let r = seq![(c.0 as usize, c.1 as usize, false, false, false)] + p7.1;
    assert forall|t: int| 0 <= t < r.len() implies (#[trigger] r[t]).0 < n && r[t].1 < n by {
        if t > 0 {
            assert(r[t] == p7.1[t - 1]);
        }
    }
}

proof fn lemma_apply_changes_coords(g: Seq<Seq<ChunkView>>, w: int, u: Seq<Unbuilt>, cb: Seq<ChangeBlock>, n: int)
    requires
        square(g),
        unbuilt_in_grid(u, g.len() as int),
        changes_in_grid(cb, g, w),
        n <= cb.len(),
    ensures
        same_coords(apply_changes(g, w, u, cb, n).0, g),
        unbuilt_in_grid(apply_changes(g, w, u, cb, n).1, g.len() as int),
    decreases n,
{
    if n > 0 {
        lemma_apply_changes_coords(g, w, u, cb, n - 1);
        let p = apply_changes(g, w, u, cb, n - 1);
        let c = cb[n - 1];
        assert(in_grid(g, w, c.0 as int, c.1 as int, c.2 as int, c.3 as int, c.4 as int));
        let ch = p.0[c.0 as int][c.1 as int];
        let nb = BlockView { id: c.5, ..block_at(p.0, c.0 as int, c.1 as int, c.2 as int, c.3 as int, c.4 as int) };
        let g1 = with_block(p.0, c.0 as int, c.1 as int, c.2 as int, c.3 as int, c.4 as int, nb);
        assert(g[c.0 as int].len() == g.len());
        lemma_update_chunk_coords(p.0, c.0 as int, c.1 as int, ChunkView {
            blocks: ch.blocks.update(c.2 as int, ch.blocks[c.2 as int].update(c.3 as int, ch.blocks[c.2 as int][c.3 as int].update(c.4 as int, nb))),
            ..ch
        });
        lemma_same_coords_trans(g1, p.0, g);
        assert forall|x: int| 0 <= x < g1.len() implies #[trigger] g1[x].len() == g1.len() by {
            assert(g[x].len() == g.len());
        }
        lemma_around_coords(g1, w, p.1, (c.0 as int, c.1 as int, c.2 as int, c.3 as int, c.4 as int));
        lemma_same_coords_trans(apply_changes(g, w, u, cb, n).0, g1, g);
    }
}

proof fn lemma_build_listed_coords(g: Seq<Seq<ChunkView>>, u: Seq<Unbuilt>, n: int)
    requires
        square(g),
        unbuilt_in_grid(u, g.len() as int),
        n <= u.len(),
    ensures
        same_coords(build_listed(g, u, n), g),
    decreases n,
{
    if n > 0 {
        lemma_build_listed_coords(g, u, n - 1);
        let p = build_listed(g, u, n - 1);
        let i = u[n - 1].0 as int;
        let k = u[n - 1].1 as int;
        assert(g[i].len() == g.len());
        lemma_update_chunk_coords(p, i, k, built(p[i][k]));
        lemma_same_coords_trans(build_listed(g, u, n), p, g);
    }
}

/// An update of the models leaves every chunk where it is in the grid, with
/// its grid coordinates.
pub proof fn lemma_update_keeps_coords(wv: WorldView, columns: Seq<Seq<ColumnValues>>, trees: Seq<TreeSite>)
    requires
        square(wv.grid),
        unbuilt_in_grid(wv.unbuilt, wv.grid.len() as int),
        changes_in_grid(first_unbuilt_step(wv, columns, trees).change_block,
            first_unbuilt_step(wv, columns, trees).grid, wv.chunk_width as int),
    ensures
        same_coords(changes_step(first_unbuilt_step(wv, columns, trees)).grid, wv.grid),
        coords_consistent(wv.grid) ==> coords_consistent(changes_step(first_unbuilt_step(wv, columns, trees)).grid),
{
    let s = first_unbuilt_step(wv, columns, trees);
    let u = wv.unbuilt;
    let n = wv.grid.len() as int;
    if u.len() > 0 {
        let i = u[0].0 as int;
        let k = u[0].1 as int;
        assert(u[0].0 < n && u[0].1 < n);
        assert(wv.grid[i].len() == n);
        let w1 = if needs_regeneration(u) { regenerated(wv, columns, trees, i, k) } else { wv };
        if needs_regeneration(u) {
            let c = wv.grid[i][k];
            let gen = generated(TreeState { blocks: c.blocks, change_block: wv.change_block, set_blocks: wv.set_blocks },
                true, c.blocks.len() as int, (c.mid_height + c.underground_height + c.sky_height) as int, columns,
                trees, i as usize, k as usize, c.grid_x, c.grid_z, (11 + c.underground_height) as u8, c.underground_height, c.chunk_distance);
            lemma_update_chunk_coords(wv.grid, i, k, ChunkView { blocks: gen.blocks, ..c });
        }
        assert(same_coords(w1.grid, wv.grid));
        let g2 = if u[0].2 {
            check_chunk_cells(w1.grid, wv.chunk_width as int, grid_height(w1.grid), i, k, wv.chunk_width as int)
        } else {
            w1.grid
        };
        if u[0].2 {
            lemma_chunk_cells_coords(w1.grid, wv.chunk_width as int, grid_height(w1.grid), i, k, wv.chunk_width as int);
            lemma_same_coords_trans(g2, w1.grid, wv.grid);
        }
        lemma_update_chunk_coords(g2, i, k, built(g2[i][k]));
        lemma_same_coords_trans(s.grid, g2, wv.grid);
    }
    assert(same_coords(s.grid, wv.grid));
    assert(square(s.grid));
    if s.change_block.len() != 0 && s.unbuilt.len() == 0 {
        let p = apply_changes(s.grid, s.chunk_width as int, s.unbuilt, s.change_block, s.change_block.len() as int);
        lemma_apply_changes_coords(s.grid, s.chunk_width as int, s.unbuilt, s.change_block, s.change_block.len() as int);
        lemma_build_listed_coords(p.0, p.1, p.1.len() as int);
        lemma_same_coords_trans(changes_step(s).grid, p.0, s.grid);
        lemma_same_coords_trans(changes_step(s).grid, s.grid, wv.grid);
    }
    if coords_consistent(wv.grid) {
        lemma_same_coords_consistent(changes_step(s).grid, wv.grid);
    }
}

/// Breaking or placing a block leaves every chunk where it is in the grid,
/// with its grid coordinates.
pub proof fn lemma_block_edits_keep_coords(wv: WorldView, at: BlockIndex, id: u8)
    requires
        square(wv.grid),
        0 <= at.0 < wv.grid.len(),
        0 <= at.1 < wv.grid.len(),
        unbuilt_in_grid(wv.unbuilt, wv.grid.len() as int),
    ensures
        same_coords(destroyed(wv, at).grid, wv.grid),
        same_coords(placed(wv, at, id).grid, wv.grid),
        coords_consistent(wv.grid) ==> coords_consistent(destroyed(wv, at).grid) && coords_consistent(placed(wv, at, id).grid),
{
    let g = wv.grid;
    let c = g[at.0 as int][at.1 as int];
    assert(g[at.0 as int].len() == g.len());
    let cell = (at.0 as int, at.1 as int, at.2 as int, at.3 as int, at.4 as int);
    let air = BlockView { id: AIR_ID, visible: false, ..block_at(g, at.0 as int, at.1 as int, at.2 as int, at.3 as int, at.4 as int) };
    let put = BlockView { id, visible: false, ..block_at(g, at.0 as int, at.1 as int, at.2 as int, at.3 as int, at.4 as int) };
    let ga = with_block(g, at.0 as int, at.1 as int, at.2 as int, at.3 as int, at.4 as int, air);
    let gp = with_block(g, at.0 as int, at.1 as int, at.2 as int, at.3 as int, at.4 as int, put);
    lemma_update_chunk_coords(g, at.0 as int, at.1 as int, ChunkView {
        blocks: c.blocks.update(at.2 as int, c.blocks[at.2 as int].update(at.3 as int, c.blocks[at.2 as int][at.3 as int].update(at.4 as int, air))),
        ..c
    });
    lemma_update_chunk_coords(g, at.0 as int, at.1 as int, ChunkView {
        blocks: c.blocks.update(at.2 as int, c.blocks[at.2 as int].update(at.3 as int, c.blocks[at.2 as int][at.3 as int].update(at.4 as int, put))),
        ..c
    });
    assert forall|x: int| 0 <= x < ga.len() implies #[trigger] ga[x].len() == ga.len() by {
        assert(g[x].len() == g.len());
    }
    assert forall|x: int| 0 <= x < gp.len() implies #[trigger] gp[x].len() == gp.len() by {
        assert(g[x].len() == g.len());
    }
    lemma_around_coords(ga, wv.chunk_width as int, wv.unbuilt, cell);
    lemma_around_coords(gp, wv.chunk_width as int, wv.unbuilt, cell);
    lemma_same_coords_trans(destroyed(wv, at).grid, ga, g);
    lemma_same_coords_trans(placed(wv, at, id).grid, gp, g);
    if coords_consistent(g) {
        lemma_same_coords_consistent(destroyed(wv, at).grid, g);
        lemma_same_coords_consistent(placed(wv, at, id).grid, g);
    }
}


proof fn lemma_gen_coords(
    cb: Seq<ChangeBlock>, sb: Map<Seq<u8>, u8>, columns: Seq<Seq<Seq<Seq<ColumnValues>>>>, trees: Seq<Seq<Seq<TreeSite>>>,
    w: usize, seed: u32, mid: u8, ug: u8, sky: u8, n: usize, i: int, c: int,
)
    requires
        0 <= i <= n,
        0 <= c <= n,
        n <= i32::MAX,
    ensures
        ({
            let r = gen_upto(cb, sb, columns, trees, w, seed, mid, ug, sky, n, i, c).rows;
            &&& r.len() == i
            &&& forall|x: int| 0 <= x < i - 1 ==> #[trigger] r[x].len() == n
            &&& i > 0 ==> r[i - 1].len() == c
            &&& forall|x: int, y: int| 0 <= x < r.len() && 0 <= y < r[x].len() ==>
                (#[trigger] r[x][y]).grid_x == x && r[x][y].grid_z == y
        }),
    decreases i, c,
{
    if i > 0 {
        if c <= 0 {
            lemma_gen_coords(cb, sb, columns, trees, w, seed, mid, ug, sky, n, i - 1, n as int);
        } else {
            lemma_gen_coords(cb, sb, columns, trees, w, seed, mid, ug, sky, n, i, c - 1);
            let p = gen_upto(cb, sb, columns, trees, w, seed, mid, ug, sky, n, i, c - 1);
            let r = gen_upto(cb, sb, columns, trees, w, seed, mid, ug, sky, n, i, c).rows;
            assert(r == p.rows.update(i - 1, p.rows[i - 1].push(init_chunk(p.change_block, p.set_blocks, (i - 1) as usize,
                (c - 1) as usize, columns[i - 1][c - 1], trees[i - 1][c - 1], w, seed, mid, ug, sky, n).0)));
            assert forall|x: int, y: int| 0 <= x < r.len() && 0 <= y < r[x].len() implies
                (#[trigger] r[x][y]).grid_x == x && r[x][y].grid_z == y by {
                if x != i - 1 {
                    assert(r[x] == p.rows[x]);
                } else if y < c - 1 {
                    assert(r[x][y] == p.rows[x][y]);
                }
            }
            assert forall|x: int| 0 <= x < i - 1 implies #[trigger] r[x].len() == n by {
                assert(r[x] == p.rows[x]);
            }
        }
    }
}

/// A new world is a square grid whose chunks have consecutive grid
/// coordinates, chunk `(0, 0)` at `(0, 0)`.
pub proof fn lemma_new_world_coords(
    w: usize, render_out_from_player: usize, seed: u32, mid: u8, ug: u8, sky: u8,
    columns: Seq<Seq<Seq<Seq<ColumnValues>>>>, trees: Seq<Seq<Seq<TreeSite>>>,
)
    requires
        render_out_from_player < usize::MAX,
        grid_side(render_out_from_player) <= i32::MAX,
    ensures
        coords_consistent(new_world(w, render_out_from_player, seed, mid, ug, sky, columns, trees).grid),
        new_world(w, render_out_from_player, seed, mid, ug, sky, columns, trees).grid[0][0].grid_x == 0,
        new_world(w, render_out_from_player, seed, mid, ug, sky, columns, trees).grid[0][0].grid_z == 0,
{
    let n = grid_side(render_out_from_player);
    let r = gen_upto(Seq::empty(), Map::empty(), columns, trees, w, seed, mid, ug, sky, n as usize, n, n);
    lemma_gen_coords(Seq::empty(), Map::empty(), columns, trees, w, seed, mid, ug, sky, n as usize, n, n);
    let layered = map_grid(r.rows, |c: ChunkView| with_layers(c));
    assert(square(layered)) by {
        assert forall|x: int| 0 <= x < layered.len() implies #[trigger] layered[x].len() == layered.len() by {
            if x < n - 1 {
                assert(r.rows[x].len() == n);
            }
        }
    }
    assert(coords_consistent(layered)) by {
        assert forall|x: int| 0 <= x < layered.len() implies #[trigger] layered[x].len() == layered.len() by {
            if x < n - 1 {
                assert(r.rows[x].len() == n);
            }
        }
        assert forall|x: int, y: int| 0 <= x < layered.len() && 0 <= y < layered.len() implies
            (#[trigger] layered[x][y]).grid_x == layered[0][0].grid_x + x && layered[x][y].grid_z == layered[0][0].grid_z + y by {
            if x < n - 1 {
                assert(r.rows[x].len() == n);
            }
            assert(r.rows[0].len() == n);
            assert(r.rows[x][y].grid_x == x);
            assert(r.rows[0][0].grid_x == 0);
        }
    }
    let checked = check_all_chunks(layered, w as int, (mid + ug + sky) as int, n);
    lemma_all_chunks_coords(layered, w as int, (mid + ug + sky) as int, n);
    lemma_same_coords_consistent(checked, layered);
    let g = map_grid(checked, |c: ChunkView| built(c));
    assert(same_coords(g, checked));
    lemma_same_coords_consistent(g, checked);
}

/// Where chunk `(a, b)` of the grid goes when the world moves in direction
/// `dir`; the inverse of `moved_from`.
pub open spec fn moved_to(n: int, dir: usize, a: int, b: int) -> (int, int) {
    if dir == 2 && n >= 2 {
        (if a == n - 1 { 0 } else { a + 1 }, b)
    } else if dir == 4 && n >= 2 {
        (if a == 0 { n - 1 } else { a - 1 }, b)
    } else if dir == 1 {
        (a, if b == n - 1 { 0 } else { b + 1 })
    } else if dir == 3 {
        (a, if b == 0 { n - 1 } else { b - 1 })
    } else {
        (a, b)
    }
}

/// A move only rearranges the chunks of a square grid: every chunk of the
/// moved grid is a chunk of the grid before the move, with at most its grid
/// coordinates changed, and every chunk before the move lands at exactly one
/// place; no chunk is made, dropped or doubled.
pub proof fn lemma_move_permutes(g: Seq<Seq<ChunkView>>, dir: usize)
    requires
        square(g),
    ensures
        moved_grid(g, dir).len() == g.len(),
        forall|x: int| 0 <= x < g.len() ==> #[trigger] moved_grid(g, dir)[x].len() == g.len(),
        forall|x: int, y: int| 0 <= x < g.len() && 0 <= y < g.len() ==> {
            let f = moved_from(g.len() as int, dir, x, y);
            &&& 0 <= f.0 < g.len()
            &&& 0 <= f.1 < g.len()
            &&& #[trigger] moved_grid(g, dir)[x][y] == with_coords(g[f.0][f.1], moved_grid(g, dir)[x][y].grid_x as int,
                moved_grid(g, dir)[x][y].grid_z as int)
        },
        forall|a: int, b: int| 0 <= a < g.len() && 0 <= b < g.len() ==> {
            let t = #[trigger] moved_to(g.len() as int, dir, a, b);
            &&& 0 <= t.0 < g.len()
            &&& 0 <= t.1 < g.len()
            &&& moved_from(g.len() as int, dir, t.0, t.1) == (a, b)
        },
        forall|x: int, y: int, x2: int, y2: int|
            0 <= x < g.len() && 0 <= y < g.len() && 0 <= x2 < g.len() && 0 <= y2 < g.len()
            && #[trigger] moved_from(g.len() as int, dir, x, y) == #[trigger] moved_from(g.len() as int, dir, x2, y2)
            ==> x == x2 && y == y2,
{
    let n = g.len() as int;
    let mg = moved_grid(g, dir);
    if n > 0 {
        lemma_moved_chunk(g, dir, 0, 0);
    }
    assert forall|x: int| 0 <= x < n implies #[trigger] mg[x].len() == n by {
        lemma_moved_chunk(g, dir, x, 0);
    }
    assert forall|x: int, y: int| 0 <= x < n && 0 <= y < n implies {
        let f = moved_from(n, dir, x, y);
        &&& 0 <= f.0 < n
        &&& 0 <= f.1 < n
        &&& #[trigger] mg[x][y] == with_coords(g[f.0][f.1], mg[x][y].grid_x as int, mg[x][y].grid_z as int)
    } by {
        lemma_moved_chunk(g, dir, x, y);
        let f = moved_from(n, dir, x, y);
        assert(g[x].len() == n);
        assert(g[0].len() == n);
        assert(g[n - 1].len() == n);
        if dir == 2 && n >= 2 {
            if x > 0 {
                assert(mg[x][y] == g[x - 1][y]);
            }
        } else if dir == 4 && n >= 2 {
            if x < n - 1 {
                assert(mg[x][y] == g[x + 1][y]);
            }
        } else if dir == 1 {
            if y > 0 {
                assert(mg[x][y] == g[x][y - 1]);
            }
        } else if dir == 3 {
            if y < n - 1 {
                assert(mg[x][y] == g[x][y + 1]);
            }
        }
    }
}

proof fn lemma_with_block_at(g: Seq<Seq<ChunkView>>, w: int, c: Cell, b: BlockView, p: Cell)
    requires
        grid_wf(g, w),
        in_grid(g, w, c.0, c.1, c.2, c.3, c.4),
        in_grid(g, w, p.0, p.1, p.2, p.3, p.4),
    ensures
        block_at(with_block(g, c.0, c.1, c.2, c.3, c.4, b), p.0, p.1, p.2, p.3, p.4)
            == (if p == c { b } else { block_at(g, p.0, p.1, p.2, p.3, p.4) }),
{
    let ch = g[c.0][c.1];
    assert(g[c.0].len() == g.len());
    assert(g[p.0].len() == g.len());
    assert(is_box(ch.blocks, w, w, grid_height(g)));
    assert(is_box(g[p.0][p.1].blocks, w, w, grid_height(g)));
    let col = ch.blocks[c.2][c.3].update(c.4, b);
    let slab = ch.blocks[c.2].update(c.3, col);
    let bl = ch.blocks.update(c.2, slab);
    let row = g[c.0].update(c.1, ChunkView { blocks: bl, ..ch });
    let g2 = g.update(c.0, row);
    assert(with_block(g, c.0, c.1, c.2, c.3, c.4, b) == g2);
    if p.0 == c.0 {
        assert(g2[p.0] == row);
        if p.1 == c.1 {
            assert(g2[p.0][p.1].blocks == bl);
            if p.2 == c.2 {
                assert(bl[p.2] == slab);
                if p.3 == c.3 {
                    assert(slab[p.3] == col);
                } else {
                    assert(slab[p.3] == ch.blocks[c.2][p.3]);
                }
            } else {
                assert(bl[p.2] == ch.blocks[p.2]);
            }
        } else {
            assert(g2[p.0][p.1] == g[p.0][p.1]);
        }
    } else {
        assert(g2[p.0] == g[p.0]);
    }
}

/// Every block of the grid `a` has the kind of the block at the same place
/// of the grid `b`.
pub open spec fn same_ids(a: Seq<Seq<ChunkView>>, b: Seq<Seq<ChunkView>>, w: int) -> bool {
    forall|p: Cell| in_grid(b, w, p.0, p.1, p.2, p.3, p.4) ==>
        (#[trigger] block_at(a, p.0, p.1, p.2, p.3, p.4)).id == block_at(b, p.0, p.1, p.2, p.3, p.4).id
}

proof fn lemma_check_cell_ids(g: Seq<Seq<ChunkView>>, w: int, c: Cell)
    requires
        grid_wf(g, w),
        in_grid(g, w, c.0, c.1, c.2, c.3, c.4),
    ensures
        same_ids(check_cell(g, w, c), g, w),
        grid_wf(check_cell(g, w, c), w),
        grid_height(check_cell(g, w, c)) == grid_height(g),
        check_cell(g, w, c).len() == g.len(),
{
    lemma_check_cell_frame(g, w, c);
    assert forall|p: Cell| in_grid(g, w, p.0, p.1, p.2, p.3, p.4) implies
        (#[trigger] block_at(check_cell(g, w, c), p.0, p.1, p.2, p.3, p.4)).id == block_at(g, p.0, p.1, p.2, p.3, p.4).id by {
        lemma_with_block_at(g, w, c, checked_block(g, w, c.0, c.1, c.2, c.3, c.4), p);
    }
}

proof fn lemma_same_ids_trans(a: Seq<Seq<ChunkView>>, b: Seq<Seq<ChunkView>>, c: Seq<Seq<ChunkView>>, w: int)
    requires
        same_ids(a, b, w),
        same_ids(b, c, w),
        c.len() == b.len(),
        grid_height(b) == grid_height(c),
    ensures
        same_ids(a, c, w),
{
    assert forall|p: Cell| in_grid(c, w, p.0, p.1, p.2, p.3, p.4) implies
        (#[trigger] block_at(a, p.0, p.1, p.2, p.3, p.4)).id == block_at(c, p.0, p.1, p.2, p.3, p.4).id by {
        assert(in_grid(b, w, p.0, p.1, p.2, p.3, p.4));
    }
}

proof fn lemma_around_ids(g: Seq<Seq<ChunkView>>, w: int, u: Seq<Unbuilt>, c: Cell)
    requires
        grid_wf(g, w),
        in_grid(g, w, c.0, c.1, c.2, c.3, c.4),
    ensures
        same_ids(around(g, w, u, c).0, g, w),
{
    let (i, k, j, l, m) = c;
    let h = grid_height(g);
    let n = g.len() as int;
    assert(g[i].len() == n);
    let g1 = check_cell(g, w, (i, k, j, l, m));
    lemma_check_cell_ids(g, w, (i, k, j, l, m));
    let g2 = if h != 1 && m != h - 1 && m < h + 1 { check_cell(g1, w, (i, k, j, l, m + 1)) } else { g1 };
    if h != 1 && m != h - 1 && m < h + 1 {
        lemma_check_cell_ids(g1, w, (i, k, j, l, m + 1));
        lemma_same_ids_trans(g2, g1, g, w);
    }
    let g3 = if h != 1 && m != 0 { check_cell(g2, w, (i, k, j, l, m - 1)) } else { g2 };
    if h != 1 && m != 0 {
        lemma_check_cell_ids(g2, w, (i, k, j, l, m - 1));
        lemma_same_ids_trans(g3, g2, g, w);
    }
    assert(g3 == around_column(g, w, c));
    let p4 = around_j_minus(g3, w, u, c);
    if j != 0 {
        lemma_check_cell_ids(g3, w, (i, k, j - 1, l, m));
        lemma_same_ids_trans(p4.0, g3, g, w);
    } else if i != 0 {
        lemma_check_cell_ids(g3, w, (i - 1, k, w - 1, l, m));
        lemma_same_ids_trans(p4.0, g3, g, w);
    }
    let p5 = around_j_plus(p4.0, w, p4.1, c);
    if j != w - 1 {
        lemma_check_cell_ids(p4.0, w, (i, k, j + 1, l, m));
        lemma_same_ids_trans(p5.0, p4.0, g, w);
    } else if i != n - 1 {
        lemma_check_cell_ids(p4.0, w, (i + 1, k, 0, l, m));
        lemma_same_ids_trans(p5.0, p4.0, g, w);
    }
    let p6 = around_l_minus(p5.0, w, p5.1, c);
    if l != 0 {
        lemma_check_cell_ids(p5.0, w, (i, k, j, l - 1, m));
        lemma_same_ids_trans(p6.0, p5.0, g, w);
    } else if k != 0 {
        lemma_check_cell_ids(p5.0, w, (i, k - 1, j, w - 1, m));
        lemma_same_ids_trans(p6.0, p5.0, g, w);
    }
    let p7 = around_l_plus(p6.0, w, p6.1, c);
    assert(p6.0[i].len() == n);
    if l != w - 1 {
        lemma_check_cell_ids(p6.0, w, (i, k, j, l + 1, m));
        lemma_same_ids_trans(p7.0, p6.0, g, w);
    } else if k != p6.0[i].len() - 1 {
        lemma_check_cell_ids(p6.0, w, (i, k + 1, j, 0, m));
        lemma_same_ids_trans(p7.0, p6.0, g, w);
    }
}

/// The kind the block at `p` has after the first `n` changes of `cb` were
/// made to a grid where it had kind `d`: that of the last change to `p`.
pub open spec fn last_change(cb: Seq<ChangeBlock>, n: int, p: Cell, d: u8) -> u8
    decreases n,
{
    if n <= 0 {
        d
    } else if (cb[n - 1].0 as int, cb[n - 1].1 as int, cb[n - 1].2 as int, cb[n - 1].3 as int, cb[n - 1].4 as int) == p {
        cb[n - 1].5
    } else {
        last_change(cb, n - 1, p, d)
    }
}

/// Making queued block changes gives each block the kind of the last change
/// made to it, and leaves every other block's kind as it was; the faces
/// checked around the changes change no kind.
pub proof fn lemma_changes_last_wins(g: Seq<Seq<ChunkView>>, w: int, u: Seq<Unbuilt>, cb: Seq<ChangeBlock>, n: int, p: Cell)
    requires
        grid_wf(g, w),
        changes_in_grid(cb, g, w),
        n <= cb.len(),
        in_grid(g, w, p.0, p.1, p.2, p.3, p.4),
    ensures
        block_at(apply_changes(g, w, u, cb, n).0, p.0, p.1, p.2, p.3, p.4).id
            == last_change(cb, n, p, block_at(g, p.0, p.1, p.2, p.3, p.4).id),
        grid_wf(apply_changes(g, w, u, cb, n).0, w),
        grid_height(apply_changes(g, w, u, cb, n).0) == grid_height(g),
        apply_changes(g, w, u, cb, n).0.len() == g.len(),
    decreases n,
{
    if n > 0 {
        lemma_changes_last_wins(g, w, u, cb, n - 1, p);
        let pr = apply_changes(g, w, u, cb, n - 1);
        let c = cb[n - 1];
        let cell = (c.0 as int, c.1 as int, c.2 as int, c.3 as int, c.4 as int);
        assert(in_grid(g, w, cell.0, cell.1, cell.2, cell.3, cell.4));
        let nb = BlockView { id: c.5, ..block_at(pr.0, cell.0, cell.1, cell.2, cell.3, cell.4) };
        let g1 = with_block(pr.0, cell.0, cell.1, cell.2, cell.3, cell.4, nb);
        lemma_with_block_shape(pr.0, w, cell.0, cell.1, cell.2, cell.3, cell.4, nb);
        lemma_with_block_at(pr.0, w, cell, nb, p);
        lemma_around_ids(g1, w, pr.1, cell);
        lemma_around_frame(g1, w, pr.1, cell);
        assert(in_grid(g1, w, p.0, p.1, p.2, p.3, p.4));
    }
}

/// `a` has the kinds of `g` everywhere, and at `p` the block of `g`, checked
/// if `done`.
spec fn tracks(a: Seq<Seq<ChunkView>>, g: Seq<Seq<ChunkView>>, w: int, p: Cell, done: bool) -> bool {
    &&& grid_wf(a, w)
    &&& a.len() == g.len()
    &&& grid_height(a) == grid_height(g)
    &&& same_ids(a, g, w)
    &&& block_at(a, p.0, p.1, p.2, p.3, p.4) == (if done {
        checked_block(g, w, p.0, p.1, p.2, p.3, p.4)
    } else {
        block_at(g, p.0, p.1, p.2, p.3, p.4)
    })
}

proof fn lemma_same_id_at(a: Seq<Seq<ChunkView>>, g: Seq<Seq<ChunkView>>, w: int, q: Cell)
    requires
        same_ids(a, g, w),
        in_grid(g, w, q.0, q.1, q.2, q.3, q.4),
    ensures
        block_at(a, q.0, q.1, q.2, q.3, q.4).id == block_at(g, q.0, q.1, q.2, q.3, q.4).id,
{
}

/// Checking a block reads only the kinds of its neighbours, so a grid with
/// the same kinds gives the same result, also where the block was checked
/// already.
proof fn lemma_checked_same_ids(a: Seq<Seq<ChunkView>>, g: Seq<Seq<ChunkView>>, w: int, p: Cell)
    requires
        grid_wf(g, w),
        a.len() == g.len(),
        grid_height(a) == grid_height(g),
        same_ids(a, g, w),
        in_grid(g, w, p.0, p.1, p.2, p.3, p.4),
        block_at(a, p.0, p.1, p.2, p.3, p.4) == block_at(g, p.0, p.1, p.2, p.3, p.4)
            || block_at(a, p.0, p.1, p.2, p.3, p.4) == checked_block(g, w, p.0, p.1, p.2, p.3, p.4),
    ensures
        checked_block(a, w, p.0, p.1, p.2, p.3, p.4) == checked_block(g, w, p.0, p.1, p.2, p.3, p.4),
{
    let (i, k, j, l, m) = p;
    let h = grid_height(g);
    if j != w - 1 { lemma_same_id_at(a, g, w, (i, k, j + 1, l, m)); }
    if j != 0 { lemma_same_id_at(a, g, w, (i, k, j - 1, l, m)); }
    if l != w - 1 { lemma_same_id_at(a, g, w, (i, k, j, l + 1, m)); }
    if l != 0 { lemma_same_id_at(a, g, w, (i, k, j, l - 1, m)); }
    if m != 0 { lemma_same_id_at(a, g, w, (i, k, j, l, m - 1)); }
    if m != h - 1 { lemma_same_id_at(a, g, w, (i, k, j, l, m + 1)); }
    assert(spec_sides(a, w, i, k, j, l, m) =~= spec_sides(g, w, i, k, j, l, m));
}

proof fn lemma_track_step(a: Seq<Seq<ChunkView>>, g: Seq<Seq<ChunkView>>, w: int, p: Cell, done: bool, q: Cell)
    requires
        tracks(a, g, w, p, done),
        grid_wf(g, w),
        in_grid(g, w, p.0, p.1, p.2, p.3, p.4),
        in_grid(g, w, q.0, q.1, q.2, q.3, q.4),
    ensures
        tracks(check_cell(a, w, q), g, w, p, done || q == p),
{
    let a2 = check_cell(a, w, q);
    lemma_check_cell_ids(a, w, q);
    lemma_same_ids_trans(a2, a, g, w);
    lemma_with_block_at(a, w, q, checked_block(a, w, q.0, q.1, q.2, q.3, q.4), p);
    if q == p {
        lemma_checked_same_ids(a, g, w, p);
    }
}

/// `p` shares a face with `c` in a grid of chunks `w` blocks wide: it lies
/// above or below it, or next to it along `j` or `l`, in the next chunk
/// where `c` is on the edge of its own.
pub open spec fn face_neighbour(w: int, c: Cell, p: Cell) -> bool {
    let (i, k, j, l, m) = c;
    ||| p == (i, k, j, l, m + 1)
    ||| p == (i, k, j, l, m - 1)
    ||| (j > 0 && p == (i, k, j - 1, l, m))
    ||| (j == 0 && p == (i - 1, k, w - 1, l, m))
    ||| (j < w - 1 && p == (i, k, j + 1, l, m))
    ||| (j == w - 1 && p == (i + 1, k, 0int, l, m))
    ||| (l > 0 && p == (i, k, j, l - 1, m))
    ||| (l == 0 && p == (i, k - 1, j, w - 1, m))
    ||| (l < w - 1 && p == (i, k, j, l + 1, m))
    ||| (l == w - 1 && p == (i, k + 1, j, 0int, m))
}

/// Checking around a block leaves it, and every block of the grid that
/// shares a face with it, with exactly the faces its neighbours in the given
/// grid call for.
pub proof fn lemma_around_checks_neighbours(g: Seq<Seq<ChunkView>>, w: int, u: Seq<Unbuilt>, c: Cell, p: Cell)
    requires
        grid_wf(g, w),
        in_grid(g, w, c.0, c.1, c.2, c.3, c.4),
        in_grid(g, w, p.0, p.1, p.2, p.3, p.4),
        p == c || face_neighbour(w, c, p),
    ensures
        block_at(around(g, w, u, c).0, p.0, p.1, p.2, p.3, p.4) == checked_block(g, w, p.0, p.1, p.2, p.3, p.4),
{
    let (i, k, j, l, m) = c;
    let h = grid_height(g);
    let n = g.len() as int;
    assert(g[i].len() == n);
    assert(same_ids(g, g, w));
    assert(tracks(g, g, w, p, false));
    let g1 = check_cell(g, w, (i, k, j, l, m));
    lemma_track_step(g, g, w, p, false, (i, k, j, l, m));
    let d1 = (i, k, j, l, m) == p;
    let up = h != 1 && m != h - 1 && m < h + 1;
    let g2 = if up { check_cell(g1, w, (i, k, j, l, m + 1)) } else { g1 };
    if up {
        lemma_track_step(g1, g, w, p, d1, (i, k, j, l, m + 1));
    }
    let d2 = d1 || (up && (i, k, j, l, m + 1) == p);
    let down = h != 1 && m != 0;
    let g3 = if down { check_cell(g2, w, (i, k, j, l, m - 1)) } else { g2 };
    if down {
        lemma_track_step(g2, g, w, p, d2, (i, k, j, l, m - 1));
    }
    let d3 = d2 || (down && (i, k, j, l, m - 1) == p);
    assert(g3 == around_column(g, w, c));
    assert(tracks(g3, g, w, p, d3));
    let p4 = around_j_minus(g3, w, u, c);
    let mut d4 = d3;
    if j != 0 {
        lemma_track_step(g3, g, w, p, d3, (i, k, j - 1, l, m));
        d4 = d3 || (i, k, j - 1, l, m) == p;
    } else if i != 0 {
        lemma_track_step(g3, g, w, p, d3, (i - 1, k, w - 1, l, m));
        d4 = d3 || (i - 1, k, w - 1, l, m) == p;
    }
    assert(tracks(p4.0, g, w, p, d4));
    let p5 = around_j_plus(p4.0, w, p4.1, c);
    let mut d5 = d4;
    if j != w - 1 {
        lemma_track_step(p4.0, g, w, p, d4, (i, k, j + 1, l, m));
        d5 = d4 || (i, k, j + 1, l, m) == p;
    } else if i != n - 1 {
        lemma_track_step(p4.0, g, w, p, d4, (i + 1, k, 0, l, m));
        d5 = d4 || (i + 1, k, 0int, l, m) == p;
    }
    assert(tracks(p5.0, g, w, p, d5));
    let p6 = around_l_minus(p5.0, w, p5.1, c);
    let mut d6 = d5;
    if l != 0 {
        lemma_track_step(p5.0, g, w, p, d5, (i, k, j, l - 1, m));
        d6 = d5 || (i, k, j, l - 1, m) == p;
    } else if k != 0 {
        lemma_track_step(p5.0, g, w, p, d5, (i, k - 1, j, w - 1, m));
        d6 = d5 || (i, k - 1, j, w - 1, m) == p;
    }
    assert(tracks(p6.0, g, w, p, d6));
    let p7 = around_l_plus(p6.0, w, p6.1, c);
    assert(p6.0[i].len() == n);
    let mut d7 = d6;
    if l != w - 1 {
        lemma_track_step(p6.0, g, w, p, d6, (i, k, j, l + 1, m));
        d7 = d6 || (i, k, j, l + 1, m) == p;
    } else if k != p6.0[i].len() - 1 {
        lemma_track_step(p6.0, g, w, p, d6, (i, k + 1, j, 0, m));
        d7 = d6 || (i, k + 1, j, 0int, m) == p;
    }
    assert(tracks(p7.0, g, w, p, d7));
    assert(d7);
}

/// Placing a block of kind `id` at `at` (breaking one places air) leaves
/// the block at `at`, and every block that shares a face with it, with
/// exactly the faces that the grid holding the new block calls for, so no
/// face next to the change is left shown or hidden wrongly.
pub proof fn lemma_edit_checks_neighbours(wv: WorldView, at: BlockIndex, id: u8, p: Cell)
    requires
        grid_wf(wv.grid, wv.chunk_width as int),
        index_in_grid(wv.grid, wv.chunk_width as int, at),
        in_grid(wv.grid, wv.chunk_width as int, p.0, p.1, p.2, p.3, p.4),
        p == (at.0 as int, at.1 as int, at.2 as int, at.3 as int, at.4 as int)
            || face_neighbour(wv.chunk_width as int, (at.0 as int, at.1 as int, at.2 as int, at.3 as int, at.4 as int), p),
    ensures
        ({
            let c = (at.0 as int, at.1 as int, at.2 as int, at.3 as int, at.4 as int);
            let e = with_block(wv.grid, c.0, c.1, c.2, c.3, c.4,
                BlockView { id, ..block_at(wv.grid, c.0, c.1, c.2, c.3, c.4) });
            block_at(placed(wv, at, id).grid, p.0, p.1, p.2, p.3, p.4) == checked_block(e, wv.chunk_width as int, p.0, p.1, p.2, p.3, p.4)
        }),
{
    let w = wv.chunk_width as int;
    let c = (at.0 as int, at.1 as int, at.2 as int, at.3 as int, at.4 as int);
    let old_b = block_at(wv.grid, c.0, c.1, c.2, c.3, c.4);
    let e = with_block(wv.grid, c.0, c.1, c.2, c.3, c.4, BlockView { id, ..old_b });
    let g1 = with_block(wv.grid, c.0, c.1, c.2, c.3, c.4, BlockView { id, visible: false, ..old_b });
    lemma_with_block_shape(wv.grid, w, c.0, c.1, c.2, c.3, c.4, BlockView { id, visible: false, ..old_b });
    lemma_with_block_shape(wv.grid, w, c.0, c.1, c.2, c.3, c.4, BlockView { id, ..old_b });
    lemma_around_checks_neighbours(g1, w, wv.unbuilt, c, p);
    assert forall|q: Cell| in_grid(e, w, q.0, q.1, q.2, q.3, q.4) implies
        (#[trigger] block_at(g1, q.0, q.1, q.2, q.3, q.4)).id == block_at(e, q.0, q.1, q.2, q.3, q.4).id by {
        lemma_with_block_at(wv.grid, w, c, BlockView { id, visible: false, ..old_b }, q);
        lemma_with_block_at(wv.grid, w, c, BlockView { id, ..old_b }, q);
    }
    lemma_with_block_at(wv.grid, w, c, BlockView { id, visible: false, ..old_b }, p);
    lemma_with_block_at(wv.grid, w, c, BlockView { id, ..old_b }, p);
    if p != c {
        lemma_checked_same_ids(g1, e, w, p);
    } else {
        assert(spec_sides(g1, w, p.0, p.1, p.2, p.3, p.4) =~= spec_sides(e, w, p.0, p.1, p.2, p.3, p.4)) by {
            let (i, k, j, l, m) = p;
            let h = grid_height(e);
            if j != w - 1 { lemma_same_id_at(g1, e, w, (i, k, j + 1, l, m)); }
            if j != 0 { lemma_same_id_at(g1, e, w, (i, k, j - 1, l, m)); }
            if l != w - 1 { lemma_same_id_at(g1, e, w, (i, k, j, l + 1, m)); }
            if l != 0 { lemma_same_id_at(g1, e, w, (i, k, j, l - 1, m)); }
            if m != 0 { lemma_same_id_at(g1, e, w, (i, k, j, l, m - 1)); }
            if m != h - 1 { lemma_same_id_at(g1, e, w, (i, k, j, l, m + 1)); }
        }
    }
}

proof fn lemma_pushes_upto_at(u: Seq<Unbuilt>, n: int, dir: usize, c: int, t: int)
    requires
        0 <= t < c,
    ensures
        pushes_upto(u, n, dir, c).len() == u.len() + 3 * c,
        pushes_upto(u, n, dir, c)[u.len() + 3 * t] == move_pushes(n, dir, t)[0],
    decreases c,
{
    let p = pushes_upto(u, n, dir, c - 1);
    let q = move_pushes(n, dir, c - 1);
    assert(q.len() == 3);
    assert(pushes_upto(u, n, dir, c) == p + q);
    if t < c - 1 {
        lemma_pushes_upto_at(u, n, dir, c - 1, t);
        assert((p + q)[u.len() + 3 * t] == p[u.len() + 3 * t]);
    } else {
        if c - 1 > 0 {
            lemma_pushes_upto_at(u, n, dir, c - 1, 0);
        }
        assert(p.len() == u.len() + 3 * (c - 1));
        assert((p + q)[u.len() + 3 * t] == q[0]);
    }
}

/// A move queues every chunk that comes to stand for another place of the
/// world: each chunk of the moved grid whose grid coordinates differ from
/// the ones it had before the move is queued, to have its faces checked and
/// to be generated again for its new place, which was not done yet. No
/// chunk keeps the terrain of its old place under its new coordinates.
pub proof fn lemma_move_regenerates_new_places(g: Seq<Seq<ChunkView>>, u: Seq<Unbuilt>, dir: usize, x: int, y: int)
    requires
        square(g),
        g.len() >= 2,
        0 <= x < g.len(),
        0 <= y < g.len(),
        ({
            let f = moved_from(g.len() as int, dir, x, y);
            let c = moved_grid(g, dir)[x][y];
            c.grid_x != g[f.0][f.1].grid_x || c.grid_z != g[f.0][f.1].grid_z
        }),
    ensures
        exists|t: int| 0 <= t < moved_unbuilt(u, g.len() as int, dir).len()
            && #[trigger] moved_unbuilt(u, g.len() as int, dir)[t] == (x as usize, y as usize, true, true, false),
{
    let n = g.len() as int;
    assert(g[x].len() == n);
    assert(g[0].len() == n);
    assert(g[n - 1].len() == n);
    let m = moved_unbuilt(u, n, dir);
    if dir == 2 {
        if x != 0 {
            assert(moved_grid(g, dir)[x][y] == g[x - 1][y]);
        }
        lemma_pushes_upto_at(u, n, dir, n, y);
        assert(m[u.len() + 3 * y] == (x as usize, y as usize, true, true, false));
    } else if dir == 4 {
        if x != n - 1 {
            assert(moved_grid(g, dir)[x][y] == g[x + 1][y]);
        }
        lemma_pushes_upto_at(u, n, dir, n, y);
        assert(m[u.len() + 3 * y] == (x as usize, y as usize, true, true, false));
    } else if dir == 1 {
        if y != 0 {
            assert(moved_grid(g, dir)[x][y] == g[x][y - 1]);
        }
        lemma_pushes_upto_at(u, n, dir, n, x);
        assert(m[u.len() + 3 * x] == (x as usize, y as usize, true, true, false));
    } else if dir == 3 {
        if y != n - 1 {
            assert(moved_grid(g, dir)[x][y] == g[x][y + 1]);
        }
        lemma_pushes_upto_at(u, n, dir, n, x);
        assert(m[u.len() + 3 * x] == (x as usize, y as usize, true, true, false));
    }
}

proof fn lemma_regenerated_wf(wv: WorldView, columns: Seq<Seq<ColumnValues>>, trees: Seq<TreeSite>)
    requires
        grid_wf(wv.grid, wv.chunk_width as int),
        wv.unbuilt.len() > 0,
        unbuilt_in_grid(wv.unbuilt, wv.grid.len() as int),
        needs_regeneration(wv.unbuilt),
        regeneration_inputs_ok(wv, columns, trees),
    ensures
        ({
            let r = regenerated(wv, columns, trees, wv.unbuilt[0].0 as int, wv.unbuilt[0].1 as int).grid;
            &&& grid_wf(r, wv.chunk_width as int)
            &&& r.len() == wv.grid.len()
            &&& grid_height(r) == grid_height(wv.grid)
        }),
{
    let w = wv.chunk_width as int;
    let g = wv.grid;
    let n = g.len() as int;
    let h = grid_height(g);
    let i = wv.unbuilt[0].0 as int;
    let k = wv.unbuilt[0].1 as int;
    assert(wv.unbuilt[0].0 < n && wv.unbuilt[0].1 < n);
    assert(g[i].len() == n);
    let c = g[i][k];
    assert(is_box(c.blocks, w, w, h));
    assert(c.blocks[0].len() == w);
    assert(chunk_square(c.blocks));
    assert forall|t: int| 0 <= t < trees.len() implies (#[trigger] trees[t]).4 >= 2 by {
        assert(tree_in_range(c.blocks.len() as int, c.blocks[0][0].len() as int,
            wv.unbuilt[0].0, wv.unbuilt[0].1, trees[t].0, trees[t].1, trees[t].2, trees[t].3, trees[t].4, c.chunk_distance,
            (c.mid_height + c.underground_height + c.sky_height) as usize));
    }
    lemma_regenerated_shape(TreeState { blocks: c.blocks, change_block: wv.change_block, set_blocks: wv.set_blocks },
        c.blocks.len() as int, (c.mid_height + c.underground_height + c.sky_height) as int, columns, trees,
        i as usize, k as usize, c.grid_x, c.grid_z, (11 + c.underground_height) as u8, c.underground_height, c.chunk_distance);
    let r = regenerated(wv, columns, trees, i, k).grid;
    assert(g[0].len() == n);
    assert(is_box(g[0][0].blocks, w, w, h));
    assert(g[0][0].blocks[0].len() == w);
    assert(r[i][k].blocks[0].len() == w);
    assert(grid_height(r) == h);
    assert forall|x: int| 0 <= x < r.len() implies #[trigger] r[x].len() == r.len() by {
        assert(g[x].len() == n);
    }
    assert forall|x: int, y: int| 0 <= x < r.len() && 0 <= y < r.len() implies is_box(#[trigger] r[x][y].blocks, w, w, grid_height(r)) by {
        assert(g[x].len() == n);
        if !(x == i && y == k) {
            assert(r[x][y] == g[x][y]);
        }
    }
}

/// The cell `p` of chunk `(i, k)` comes before `(j, l, m)` in the order in
/// which the chunk's cells are checked.
spec fn checked_before(i: int, k: int, j: int, l: int, m: int, p: Cell) -> bool {
    p.0 == i && p.1 == k && (p.2 < j || (p.2 == j && (p.3 < l || (p.3 == l && p.4 < m))))
}

/// `a` has the kinds of `g` everywhere; the cells of chunk `(i, k)` before
/// `(j, l, m)` are checked against `g` and every other block is as in `g`.
spec fn tracks_chunk(a: Seq<Seq<ChunkView>>, g: Seq<Seq<ChunkView>>, w: int, i: int, k: int, j: int, l: int, m: int) -> bool {
    &&& grid_wf(a, w)
    &&& a.len() == g.len()
    &&& grid_height(a) == grid_height(g)
    &&& same_ids(a, g, w)
    &&& forall|p: Cell| in_grid(g, w, p.0, p.1, p.2, p.3, p.4) ==>
        #[trigger] block_at(a, p.0, p.1, p.2, p.3, p.4) == (if checked_before(i, k, j, l, m, p) {
            checked_block(g, w, p.0, p.1, p.2, p.3, p.4)
        } else {
            block_at(g, p.0, p.1, p.2, p.3, p.4)
        })
}

proof fn lemma_tracks_chunk_step(a: Seq<Seq<ChunkView>>, g: Seq<Seq<ChunkView>>, w: int, i: int, k: int, j: int, l: int, m: int)
    requires
        grid_wf(g, w),
        tracks_chunk(a, g, w, i, k, j, l, m),
        in_grid(g, w, i, k, j, l, m),
    ensures
        tracks_chunk(check_cell(a, w, (i, k, j, l, m)), g, w, i, k, j, l, m + 1),
{
    let q = (i, k, j, l, m);
    let a2 = check_cell(a, w, q);
    lemma_check_cell_ids(a, w, q);
    lemma_same_ids_trans(a2, a, g, w);
    assert forall|p: Cell| in_grid(g, w, p.0, p.1, p.2, p.3, p.4) implies
        #[trigger] block_at(a2, p.0, p.1, p.2, p.3, p.4) == (if checked_before(i, k, j, l, m + 1, p) {
            checked_block(g, w, p.0, p.1, p.2, p.3, p.4)
        } else {
            block_at(g, p.0, p.1, p.2, p.3, p.4)
        }) by {
        lemma_with_block_at(a, w, q, checked_block(a, w, i, k, j, l, m), p);
        assert(block_at(a, p.0, p.1, p.2, p.3, p.4) == (if checked_before(i, k, j, l, m, p) {
            checked_block(g, w, p.0, p.1, p.2, p.3, p.4)
        } else {
            block_at(g, p.0, p.1, p.2, p.3, p.4)
        }));
        if p == q {
            lemma_checked_same_ids(a, g, w, p);
        }
    }
}

proof fn lemma_tracks_chunk_same(a: Seq<Seq<ChunkView>>, g: Seq<Seq<ChunkView>>, w: int, i: int, k: int,
    j1: int, l1: int, m1: int, j2: int, l2: int, m2: int)
    requires
        tracks_chunk(a, g, w, i, k, j1, l1, m1),
        forall|p: Cell| in_grid(g, w, p.0, p.1, p.2, p.3, p.4) ==>
            checked_before(i, k, j1, l1, m1, p) == checked_before(i, k, j2, l2, m2, p),
    ensures
        tracks_chunk(a, g, w, i, k, j2, l2, m2),
{
    assert forall|p: Cell| in_grid(g, w, p.0, p.1, p.2, p.3, p.4) implies
        #[trigger] block_at(a, p.0, p.1, p.2, p.3, p.4) == (if checked_before(i, k, j2, l2, m2, p) {
            checked_block(g, w, p.0, p.1, p.2, p.3, p.4)
        } else {
            block_at(g, p.0, p.1, p.2, p.3, p.4)
        }) by {
        assert(checked_before(i, k, j1, l1, m1, p) == checked_before(i, k, j2, l2, m2, p));
    }
}

proof fn lemma_column_cells_track(a: Seq<Seq<ChunkView>>, g: Seq<Seq<ChunkView>>, w: int, i: int, k: int, j: int, l: int, n: int)
    requires
        grid_wf(g, w),
        tracks_chunk(a, g, w, i, k, j, l, 0),
        0 <= i < g.len(),
        0 <= k < g.len(),
        0 <= j < w,
        0 <= l < w,
        0 <= n <= grid_height(g),
    ensures
        tracks_chunk(check_column_cells(a, w, i, k, j, l, n), g, w, i, k, j, l, n),
    decreases n,
{
    if n > 0 {
        lemma_column_cells_track(a, g, w, i, k, j, l, n - 1);
        lemma_tracks_chunk_step(check_column_cells(a, w, i, k, j, l, n - 1), g, w, i, k, j, l, n - 1);
    }
}

proof fn lemma_slab_cells_track(a: Seq<Seq<ChunkView>>, g: Seq<Seq<ChunkView>>, w: int, h: int, i: int, k: int, j: int, n: int)
    requires
        grid_wf(g, w),
        h == grid_height(g),
        tracks_chunk(a, g, w, i, k, j, 0, 0),
        0 <= i < g.len(),
        0 <= k < g.len(),
        0 <= j < w,
        0 <= n <= w,
    ensures
        tracks_chunk(check_slab_cells(a, w, h, i, k, j, n), g, w, i, k, j, n, 0),
    decreases n,
{
    if n > 0 {
        lemma_slab_cells_track(a, g, w, h, i, k, j, n - 1);
        let b = check_slab_cells(a, w, h, i, k, j, n - 1);
        lemma_column_cells_track(b, g, w, i, k, j, n - 1, h);
        lemma_tracks_chunk_same(check_column_cells(b, w, i, k, j, n - 1, h), g, w, i, k, j, n - 1, h, j, n, 0);
    }
}

proof fn lemma_chunk_cells_track(a: Seq<Seq<ChunkView>>, g: Seq<Seq<ChunkView>>, w: int, h: int, i: int, k: int, n: int)
    requires
        grid_wf(g, w),
        h == grid_height(g),
        tracks_chunk(a, g, w, i, k, 0, 0, 0),
        0 <= i < g.len(),
        0 <= k < g.len(),
        0 <= n <= w,
    ensures
        tracks_chunk(check_chunk_cells(a, w, h, i, k, n), g, w, i, k, n, 0, 0),
    decreases n,
{
    if n > 0 {
        lemma_chunk_cells_track(a, g, w, h, i, k, n - 1);
        let b = check_chunk_cells(a, w, h, i, k, n - 1);
        lemma_tracks_chunk_same(b, g, w, i, k, n - 1, 0, 0, n - 1, 0, 0);
        lemma_slab_cells_track(b, g, w, h, i, k, n - 1, w);
        lemma_tracks_chunk_same(check_slab_cells(b, w, h, i, k, n - 1, w), g, w, i, k, n - 1, w, 0, n, 0, 0);
    }
}

/// Handling the first queued chunk when its faces are to be checked leaves
/// every block of that chunk with exactly the faces its neighbours in the
/// resulting grid call for, whether or not the chunk was generated again
/// first: no block keeps faces from the terrain it had before.
pub proof fn lemma_first_step_checks_chunk(wv: WorldView, columns: Seq<Seq<ColumnValues>>, trees: Seq<TreeSite>, p: Cell)
    requires
        grid_wf(wv.grid, wv.chunk_width as int),
        unbuilt_in_grid(wv.unbuilt, wv.grid.len() as int),
        regeneration_inputs_ok(wv, columns, trees),
        wv.unbuilt.len() > 0,
        wv.unbuilt[0].2,
        p.0 == wv.unbuilt[0].0,
        p.1 == wv.unbuilt[0].1,
        in_grid(wv.grid, wv.chunk_width as int, p.0, p.1, p.2, p.3, p.4),
    ensures
        ({
            let r = first_unbuilt_step(wv, columns, trees).grid;
            block_at(r, p.0, p.1, p.2, p.3, p.4) == checked_block(r, wv.chunk_width as int, p.0, p.1, p.2, p.3, p.4)
        }),
{
    let w = wv.chunk_width as int;
    let u = wv.unbuilt;
    let n = wv.grid.len() as int;
    let i = u[0].0 as int;
    let k = u[0].1 as int;
    assert(u[0].0 < n && u[0].1 < n);
    let w1 = if needs_regeneration(u) { regenerated(wv, columns, trees, i, k) } else { wv };
    if needs_regeneration(u) {
        lemma_regenerated_wf(wv, columns, trees);
    }
    let g1 = w1.grid;
    let h = grid_height(g1);
    assert(same_ids(g1, g1, w));
    assert(tracks_chunk(g1, g1, w, i, k, 0, 0, 0));
    lemma_chunk_cells_track(g1, g1, w, h, i, k, w);
    let g2 = check_chunk_cells(g1, w, h, i, k, w);
    let r = g2.update(i, g2[i].update(k, built(g2[i][k])));
    assert(r == first_unbuilt_step(wv, columns, trees).grid);
    assert(g2[i].len() == n);
    assert(g2[0].len() == n);
    assert forall|q: Cell| in_grid(g2, w, q.0, q.1, q.2, q.3, q.4) implies
        #[trigger] block_at(r, q.0, q.1, q.2, q.3, q.4) == block_at(g2, q.0, q.1, q.2, q.3, q.4) by {
        if q.0 == i {
            if q.1 == k {
                assert(r[q.0][q.1].blocks == g2[q.0][q.1].blocks);
            } else {
                assert(r[q.0][q.1] == g2[q.0][q.1]);
            }
        } else {
            assert(r[q.0] == g2[q.0]);
        }
    }
    assert(r[0][0].blocks == g2[0][0].blocks);
    assert(grid_height(r) == grid_height(g2));
    assert(same_ids(r, g1, w)) by {
        assert forall|q: Cell| in_grid(g1, w, q.0, q.1, q.2, q.3, q.4) implies
            (#[trigger] block_at(r, q.0, q.1, q.2, q.3, q.4)).id == block_at(g1, q.0, q.1, q.2, q.3, q.4).id by {
            assert(block_at(r, q.0, q.1, q.2, q.3, q.4) == block_at(g2, q.0, q.1, q.2, q.3, q.4));
            lemma_same_id_at(g2, g1, w, q);
        }
    }
    assert(block_at(r, p.0, p.1, p.2, p.3, p.4) == block_at(g2, p.0, p.1, p.2, p.3, p.4));
    assert(block_at(g2, p.0, p.1, p.2, p.3, p.4) == checked_block(g1, w, p.0, p.1, p.2, p.3, p.4));
    lemma_checked_same_ids(r, g1, w, p);
}

proof fn lemma_prepend_keeps(x: Seq<Unbuilt>, f: Unbuilt, u: Seq<Unbuilt>, e: Unbuilt)
    requires
        x.len() >= u.len(),
        x.subrange(x.len() - u.len(), x.len() as int) == u,
    ensures
        (seq![f] + x).len() >= u.len(),
        (seq![f] + x).subrange((seq![f] + x).len() - u.len(), (seq![f] + x).len() as int) == u,
        (seq![f] + x)[0] == f,
        x.contains(e) ==> (seq![f] + x).contains(e),
{
    let y = seq![f] + x;
    assert(y.subrange(y.len() - u.len(), y.len() as int) =~= x.subrange(x.len() - u.len(), x.len() as int));
    if x.contains(e) {
        let t = choose|t: int| 0 <= t < x.len() && x[t] == e;
        assert(y[t + 1] == e);
    }
}

/// Checking around a block queues its own chunk first, to have its mesh
/// rebuilt, and queues every other chunk in which a block sharing a face
/// with it lies; the queue it was given stays behind these, unchanged.
pub proof fn lemma_around_queues_chunks(g: Seq<Seq<ChunkView>>, w: int, u: Seq<Unbuilt>, c: Cell, p: Cell)
    requires
        grid_wf(g, w),
        in_grid(g, w, c.0, c.1, c.2, c.3, c.4),
    ensures
        ({
            let q = around(g, w, u, c).1;
            &&& q[0] == (c.0 as usize, c.1 as usize, false, false, false)
            &&& q.len() >= u.len() + 1
            &&& q.subrange(q.len() - u.len(), q.len() as int) == u
            &&& (face_neighbour(w, c, p) && in_grid(g, w, p.0, p.1, p.2, p.3, p.4) && (p.0 != c.0 || p.1 != c.1)) ==>
                q.contains((p.0 as usize, p.1 as usize, false, false, false))
        }),
{
    let (i, k, j, l, m) = c;
    let n = g.len() as int;
    let e = (p.0 as usize, p.1 as usize, false, false, false);
    let cross = face_neighbour(w, c, p) && in_grid(g, w, p.0, p.1, p.2, p.3, p.4) && (p.0 != c.0 || p.1 != c.1);
    assert(u.subrange(0, u.len() as int) =~= u);
    let g3 = around_column(g, w, c);
    lemma_around_frame(g, w, u, c);
    let p4 = around_j_minus(g3, w, u, c);
    if j == 0 && i != 0 {
        lemma_prepend_keeps(u, ((i - 1) as usize, k as usize, false, false, false), u, e);
    }
    assert(p4.1.len() >= u.len() && p4.1.subrange(p4.1.len() - u.len(), p4.1.len() as int) == u);
    assert(cross && p.0 == i - 1 ==> p4.1.contains(e));
    let p5 = around_j_plus(p4.0, w, p4.1, c);
    if j == w - 1 && i != p4.0.len() - 1 {
        lemma_prepend_keeps(p4.1, ((i + 1) as usize, k as usize, false, false, false), u, e);
    }
    assert(p5.1.len() >= u.len() && p5.1.subrange(p5.1.len() - u.len(), p5.1.len() as int) == u);
    assert(cross && p.0 != i ==> p5.1.contains(e));
    let p6 = around_l_minus(p5.0, w, p5.1, c);
    if l == 0 && k != 0 {
        lemma_prepend_keeps(p5.1, (i as usize, (k - 1) as usize, false, false, false), u, e);
    }
    assert(p6.1.len() >= u.len() && p6.1.subrange(p6.1.len() - u.len(), p6.1.len() as int) == u);
    assert(cross && (p.0 != i || p.1 == k - 1) ==> p6.1.contains(e));
    let p7 = around_l_plus(p6.0, w, p6.1, c);
    assert(p6.0[i].len() == n) by {
        lemma_around_frame(g, w, u, c);
    }
    if l == w - 1 && k != p6.0[i].len() - 1 {
        lemma_prepend_keeps(p6.1, (i as usize, (k + 1) as usize, false, false, false), u, e);
    }
    assert(p7.1.len() >= u.len() && p7.1.subrange(p7.1.len() - u.len(), p7.1.len() as int) == u);
    assert(cross ==> p7.1.contains(e));
    lemma_prepend_keeps(p7.1, (i as usize, k as usize, false, false, false), u, e);
}

proof fn lemma_pushes_upto_shape(u: Seq<Unbuilt>, n: int, dir: usize, c: int)
    requires
        0 <= c,
    ensures
        pushes_upto(u, n, dir, c).len() == u.len() + 3 * c,
        pushes_upto(u, n, dir, c).take(u.len() as int) == u,
        forall|t: int, r: int| 0 <= t < c && 0 <= r < 3 ==>
            #[trigger] pushes_upto(u, n, dir, c)[u.len() + 3 * t + r] == move_pushes(n, dir, t)[r],
    decreases c,
{
    if c > 0 {
        lemma_pushes_upto_shape(u, n, dir, c - 1);
        let p = pushes_upto(u, n, dir, c - 1);
        let q = move_pushes(n, dir, c - 1);
        assert(q.len() == 3);
        assert(pushes_upto(u, n, dir, c) == p + q);
        assert((p + q).take(u.len() as int) =~= p.take(u.len() as int));
        assert forall|t: int, r: int| 0 <= t < c && 0 <= r < 3 implies
            #[trigger] pushes_upto(u, n, dir, c)[u.len() + 3 * t + r] == move_pushes(n, dir, t)[r] by {
            if t < c - 1 {
                assert((p + q)[u.len() + 3 * t + r] == p[u.len() + 3 * t + r]);
            } else {
                assert((p + q)[u.len() + 3 * t + r] == q[r]);
            }
        }
    } else {
        assert(u.take(u.len() as int) =~= u);
    }
}

/// A move keeps the queue it was given in front and adds three chunks of
/// the grid for each row (or column) across the move, all to have their
/// faces checked and none marked done: the chunk that came to a new place,
/// to be generated again, and the chunk next to it further in, which now
/// borders it.
pub proof fn lemma_move_queue(u: Seq<Unbuilt>, n: int, dir: usize, t: int)
    requires
        n >= 2,
        1 <= dir <= 4,
        0 <= t < n,
    ensures
        ({
            let m = moved_unbuilt(u, n, dir);
            &&& m.len() == u.len() + 3 * n
            &&& m.take(u.len() as int) == u
            &&& forall|x: int| u.len() <= x < m.len() ==> (#[trigger] m[x]).2 && !m[x].4 && m[x].0 < n && m[x].1 < n
            &&& dir == 2 ==> m.contains((0usize, t as usize, true, true, false)) && m.contains((1usize, t as usize, true, false, false))
            &&& dir == 4 ==> m.contains(((n - 1) as usize, t as usize, true, true, false))
                && m.contains(((n - 2) as usize, t as usize, true, false, false))
            &&& dir == 1 ==> m.contains((t as usize, 0usize, true, true, false)) && m.contains((t as usize, 1usize, true, false, false))
            &&& dir == 3 ==> m.contains((t as usize, (n - 1) as usize, true, true, false))
                && m.contains((t as usize, (n - 2) as usize, true, false, false))
        }),
{
    let m = moved_unbuilt(u, n, dir);
    lemma_pushes_upto_shape(u, n, dir, n);
    assert forall|x: int| u.len() <= x < m.len() implies (#[trigger] m[x]).2 && !m[x].4 && m[x].0 < n && m[x].1 < n by {
        let d = x - u.len();
        let tt = d / 3;
        let r = d % 3;
        assert(x == u.len() + 3 * tt + r);
        assert(m[u.len() + 3 * tt + r] == move_pushes(n, dir, tt)[r]);
    }
    assert(m[u.len() + 3 * t + 0] == move_pushes(n, dir, t)[0]);
    assert(m[u.len() + 3 * t + 1] == move_pushes(n, dir, t)[1]);
}

/// When the first queued chunk is to be generated again, handling it gives
/// each of its cells whose key holds a stored block, neither a leaf nor the
/// value that marks no block, that block, unless a leaf of one of the
/// chunk's own trees falls on it; checking its faces and rebuilding its mesh
/// change no kind.
pub proof fn lemma_first_step_reads_store(wv: WorldView, columns: Seq<Seq<ColumnValues>>, trees: Seq<TreeSite>, p: Cell)
    requires
        grid_wf(wv.grid, wv.chunk_width as int),
        unbuilt_in_grid(wv.unbuilt, wv.grid.len() as int),
        regeneration_inputs_ok(wv, columns, trees),
        needs_regeneration(wv.unbuilt),
        p.0 == wv.unbuilt[0].0,
        p.1 == wv.unbuilt[0].1,
        in_grid(wv.grid, wv.chunk_width as int, p.0, p.1, p.2, p.3, p.4),
        wv.set_blocks.contains_key(spec_block_key(wv.grid[p.0][p.1].grid_x as int, wv.grid[p.0][p.1].grid_z as int, p.2, p.3, p.4)),
        wv.set_blocks[spec_block_key(wv.grid[p.0][p.1].grid_x as int, wv.grid[p.0][p.1].grid_z as int, p.2, p.3, p.4)] != LEAF_ID,
        wv.set_blocks[spec_block_key(wv.grid[p.0][p.1].grid_x as int, wv.grid[p.0][p.1].grid_z as int, p.2, p.3, p.4)] != UNSET_ID,
        no_leaf_on(trees, p.2, p.3, p.4),
    ensures
        block_at(first_unbuilt_step(wv, columns, trees).grid, p.0, p.1, p.2, p.3, p.4).id
            == wv.set_blocks[spec_block_key(wv.grid[p.0][p.1].grid_x as int, wv.grid[p.0][p.1].grid_z as int, p.2, p.3, p.4)],
{
    let w = wv.chunk_width as int;
    let u = wv.unbuilt;
    let n = wv.grid.len() as int;
    let i = u[0].0 as int;
    let k = u[0].1 as int;
    assert(u[0].0 < n && u[0].1 < n);
    let c = wv.grid[i][k];
    assert(wv.grid[i].len() == n);
    assert forall|t: int| 0 <= t < trees.len() implies (#[trigger] trees[t]).4 >= 2 by {
        assert(tree_in_range(c.blocks.len() as int, c.blocks[0][0].len() as int,
            u[0].0, u[0].1, trees[t].0, trees[t].1, trees[t].2, trees[t].3, trees[t].4, c.chunk_distance,
            (c.mid_height + c.underground_height + c.sky_height) as usize));
    }
    lemma_regeneration_reads_store(wv, columns, trees, i, k, p.2, p.3, p.4);
    lemma_regenerated_wf(wv, columns, trees);
    let g1 = regenerated(wv, columns, trees, i, k).grid;
    let h = grid_height(g1);
    let g2 = if u[0].2 { check_chunk_cells(g1, w, h, i, k, w) } else { g1 };
    if u[0].2 {
        assert(same_ids(g1, g1, w));
        assert(tracks_chunk(g1, g1, w, i, k, 0, 0, 0));
        lemma_chunk_cells_track(g1, g1, w, h, i, k, w);
        lemma_same_id_at(g2, g1, w, p);
    }
    let r = g2.update(i, g2[i].update(k, built(g2[i][k])));
    assert(r == first_unbuilt_step(wv, columns, trees).grid);
    assert(r[i][k].blocks == g2[i][k].blocks);
}

} // verus!
