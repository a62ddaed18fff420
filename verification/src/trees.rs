use vstd::prelude::*;
use crate::block::{Block, BlockView};
use crate::chunk::is_box;
use crate::set_blocks::{SetBlocks, block_key, spec_block_key};

verus! {

/// The identifier of leaves.
pub const LEAF_ID: u8 = 7;

/// A block to set later: chunk indices in the world's grid, block indices in
/// the chunk, and the new kind.
pub type ChangeBlock = (usize, usize, usize, usize, usize, u8);

/// What planting leaves acts on: the chunk's blocks, the queue of changes to
/// neighbouring chunks that are loaded, and the stored blocks of chunks that
/// are not.
#[verifier::ext_equal]
pub struct TreeState {
    pub blocks: Seq<Seq<Seq<BlockView>>>,
    pub change_block: Seq<ChangeBlock>,
    pub set_blocks: Map<Seq<u8>, u8>,
}

/// `a` and `b` have the same dimensions everywhere.
pub open spec fn same_shape(a: Seq<Seq<Seq<BlockView>>>, b: Seq<Seq<Seq<BlockView>>>) -> bool {
    &&& a.len() == b.len()
    &&& forall|x: int| 0 <= x < b.len() ==> #[trigger] a[x].len() == b[x].len()
    &&& forall|x: int, y: int| 0 <= x < b.len() && 0 <= y < b[x].len() ==> #[trigger] a[x][y].len() == b[x][y].len()
}

/// The width of a chunk's block array.
pub open spec fn width_of(b: Seq<Seq<Seq<BlockView>>>) -> int {
    b[0].len() as int
}

/// The height of a chunk's block array.
pub open spec fn height_of(b: Seq<Seq<Seq<BlockView>>>) -> int {
    b[0][0].len() as int
}

/// A chunk's block array: square, of one height, and not empty.
pub open spec fn chunk_shape(b: Seq<Seq<Seq<BlockView>>>) -> bool {
    &&& b.len() >= 1
    &&& width_of(b) >= 1
    &&& height_of(b) >= 1
    &&& is_box(b, width_of(b), width_of(b), height_of(b))
}

/// The position `(i, k, j)` lies outside a chunk of width `w` and height `h`.
pub open spec fn outside(w: int, h: int, i: int, k: int, j: int) -> bool {
    i < 0 || k < 0 || i > w - 1 || k > w - 1 || j > h - 1
}

/// An index that leaves the chunk, moved into the neighbouring chunk.
pub open spec fn wrap_index(x: int, w: int) -> int {
    if x < 0 { w + x } else if x > w - 1 { x - w } else { x }
}

/// The step, -1, 0 or 1, to the neighbouring chunk that an index falls in.
pub open spec fn chunk_step(x: int, w: int) -> int {
    if x < 0 { -1 } else if x > w - 1 { 1 } else { 0 }
}

/// The chunk index after the step.
pub open spec fn stepped_chunk(c: usize, x: int, w: int) -> int {
    (c as i32) as int + chunk_step(x, w)
}

/// The neighbouring chunk is one that the world has loaded.
pub open spec fn chunk_loaded(ci: int, ck: int, chunk_distance: usize) -> bool {
    (chunk_distance as i32) - 1 >= ck && (chunk_distance as i32) - 1 >= ci && 0 <= ck && 0 <= ci
}

/// The arithmetic of placing a leaf at `(i, k, j)` stays in range.
pub open spec fn tree_block_in_range(
    w: int, h: int, chunk_i: usize, chunk_k: usize, grid_x: i32, grid_z: i32,
    i: int, k: int, j: int, chunk_distance: usize, j_max: usize,
) -> bool {
    j_max > j ==> {
        &&& 1 <= w <= isize::MAX
        &&& 1 <= h
        &&& outside(w, h, i, k, j) ==> {
            &&& i < 0 ==> grid_x > i32::MIN && (chunk_i as i32) > i32::MIN
            &&& i > w - 1 ==> grid_x < i32::MAX && (chunk_i as i32) < i32::MAX
            &&& k < 0 ==> grid_z > i32::MIN && (chunk_k as i32) > i32::MIN
            &&& k > w - 1 ==> grid_z < i32::MAX && (chunk_k as i32) < i32::MAX
            &&& (chunk_distance as i32) > i32::MIN
        }
    }
}

/// The effect of placing a leaf at `(i, k, j)` of the chunk at indices
/// `(chunk_i, chunk_k)` and grid coordinates `(grid_x, grid_z)`. Below
/// `j_max`: inside the chunk the block becomes a leaf; outside it, the
/// position is moved into the neighbouring chunk; if that chunk is loaded the
/// change is queued, and otherwise the leaf is stored for it unless a block is
/// stored there already.
pub open spec fn tree_block_effect(
    s: TreeState, chunk_i: usize, chunk_k: usize, grid_x: i32, grid_z: i32,
    i: int, k: int, j: int, chunk_distance: usize, j_max: usize,
) -> TreeState {
    let b = s.blocks;
    let w = width_of(b);
    if !(j_max > j) {
        s
    } else if outside(w, height_of(b), i, k, j) {
        let ci = stepped_chunk(chunk_i, i, w);
        let ck = stepped_chunk(chunk_k, k, w);
        let i_set = wrap_index(i, w);
        let k_set = wrap_index(k, w);
        if chunk_loaded(ci, ck, chunk_distance) {
            TreeState {
                change_block: s.change_block.push(
                    ((ci as i32) as usize, (ck as i32) as usize, (i_set as isize) as usize, (k_set as isize) as usize, j as usize, LEAF_ID),
                ),
                ..s
            }
        } else {
            let key = spec_block_key(grid_x + chunk_step(i, w), grid_z + chunk_step(k, w), i_set, k_set, j);
            if s.set_blocks.contains_key(key) {
                s
            } else {
                TreeState { set_blocks: s.set_blocks.insert(key, LEAF_ID), ..s }
            }
        }
    } else {
        TreeState {
            blocks: b.update(i, b[i].update(k, b[i][k].update(j, BlockView { id: LEAF_ID, ..b[i][k][j] }))),
            ..s
        }
    }
}

pub open spec fn tree_state(blocks: &Vec<Vec<Vec<Block>>>, change_block: &Vec<ChangeBlock>, set_blocks: &SetBlocks) -> TreeState {
    TreeState { blocks: blocks.deep_view(), change_block: change_block@, set_blocks: set_blocks@ }
}

/// Places a leaf at `(i, k, j)`; see `tree_block_effect`.
pub fn set_tree_block(
    change_block: &mut Vec<ChangeBlock>,
    chunk_i: usize,
    chunk_k: usize,
    blocks: &mut Vec<Vec<Vec<Block>>>,
    set_blocks: &mut SetBlocks,
    grid_x: i32,
    grid_z: i32,
    i: isize,
    k: isize,
    j: usize,
    chunk_distance: usize,
    j_max: usize,
)
    requires
        j_max > j ==> chunk_shape(old(blocks).deep_view()),
        tree_block_in_range(width_of(old(blocks).deep_view()), height_of(old(blocks).deep_view()), chunk_i, chunk_k,
            grid_x, grid_z, i as int, k as int, j as int, chunk_distance, j_max),
    ensures
        tree_state(final(blocks), final(change_block), final(set_blocks)) =~~= tree_block_effect(
            tree_state(old(blocks), old(change_block), old(set_blocks)),
            chunk_i, chunk_k, grid_x, grid_z, i as int, k as int, j as int, chunk_distance, j_max),
{
    let ghost b = blocks.deep_view();
    if j_max > j {
        assert(b[0].len() == blocks@[0]@.len());
        assert(b[0] == blocks@[0].deep_view());
        assert(b[0][0].len() == blocks@[0]@[0]@.len());
        let w = blocks[0].len();
        let h = blocks[0][0].len();
        if i < 0 || k < 0 || i > (w - 1) as isize || k > (w - 1) as isize || j > h - 1 {
            let mut chunk_i_mut = #[verifier::truncate] (chunk_i as i32);
            let mut chunk_k_mut = #[verifier::truncate] (chunk_k as i32);
            let mut grid_x_set = grid_x;
            let mut grid_z_set = grid_z;
            let mut i_set = i;
            let mut k_set = k;

            if i < 0 {
                i_set = w as isize + i;
                grid_x_set = grid_x_set - 1;
                chunk_i_mut = chunk_i_mut - 1;
            } else if i > w as isize - 1 {
                i_set = i - w as isize;
                grid_x_set = grid_x_set + 1;
                chunk_i_mut = chunk_i_mut + 1;
            }

            if k < 0 {
                k_set = w as isize + k;
                grid_z_set = grid_z_set - 1;
                chunk_k_mut = chunk_k_mut - 1;
            } else if k > w as isize - 1 {
                k_set = k - w as isize;
                grid_z_set = grid_z_set + 1;
                chunk_k_mut = chunk_k_mut + 1;
            }

            let distance = #[verifier::truncate] (chunk_distance as i32);
            if (distance - 1) >= chunk_k_mut && (distance - 1) >= chunk_i_mut
                && 0 <= chunk_k_mut && 0 <= chunk_i_mut {
                change_block.push((chunk_i_mut as usize, chunk_k_mut as usize, i_set as usize, k_set as usize, j, LEAF_ID));
            } else {
                let key = block_key(grid_x_set, grid_z_set, i_set as i128, k_set as i128, j as i128);
                if !set_blocks.contains_key(&key) {
                    set_blocks.insert(key, LEAF_ID);
                }
            }
        } else {
            assert(b[i as int].len() == w);
            assert(b[i as int] == blocks@[i as int].deep_view());
            assert(b[i as int][k as int] == blocks@[i as int]@[k as int].deep_view());
            assert(b[i as int][k as int].len() == h);
            assert(blocks@[i as int]@[k as int]@.len() == h);
            blocks[i as usize][k as usize][j].id = LEAF_ID;
        }
    }
}


/// The leaves of a tree around the top of its trunk at `(i, k, j)`, as
/// offsets `(di, dk, dj)` to the position `(i + di, k + dk, j - dj)`, in the
/// order they are placed: a cross at the top and two wider layers below.
pub open spec fn tree_offsets() -> Seq<(isize, isize, usize)> {
    seq![
        (0isize, 0isize, 0usize),
        (1isize, 0isize, 0usize),
        (0isize, 1isize, 0usize),
        (0isize, -1isize, 0usize),
        (-1isize, 0isize, 0usize),
        (1isize, 0isize, 1usize),
        (1isize, 1isize, 1usize),
        (1isize, -1isize, 1usize),
        (0isize, 1isize, 1usize),
        (0isize, -1isize, 1usize),
        (-1isize, 0isize, 1usize),
        (-1isize, 1isize, 1usize),
        (-1isize, -1isize, 1usize),
        (2isize, 0isize, 2usize),
        (2isize, 1isize, 2usize),
        (2isize, -1isize, 2usize),
        (2isize, 0isize, 1usize),
        (2isize, 1isize, 1usize),
        (2isize, -1isize, 1usize),
        (-2isize, 0isize, 1usize),
        (-2isize, 1isize, 1usize),
        (-2isize, -1isize, 1usize),
        (0isize, -2isize, 1usize),
        (-1isize, -2isize, 1usize),
        (1isize, -2isize, 1usize),
        (0isize, 2isize, 1usize),
        (-1isize, 2isize, 1usize),
        (1isize, 2isize, 1usize),
        (1isize, 0isize, 2usize),
        (1isize, 1isize, 2usize),
        (1isize, -1isize, 2usize),
        (0isize, 1isize, 2usize),
        (0isize, -1isize, 2usize),
        (-1isize, 0isize, 2usize),
        (-1isize, 1isize, 2usize),
        (-1isize, -1isize, 2usize),
        (2isize, 0isize, 2usize),
        (2isize, 1isize, 2usize),
        (2isize, -1isize, 2usize),
        (-2isize, 0isize, 2usize),
        (-2isize, 1isize, 2usize),
        (-2isize, -1isize, 2usize),
        (0isize, -2isize, 2usize),
        (-1isize, -2isize, 2usize),
        (1isize, -2isize, 2usize),
        (0isize, 2isize, 2usize),
        (-1isize, 2isize, 2usize),
        (1isize, 2isize, 2usize),
        (2isize, 2isize, 2usize),
        (-2isize, 2isize, 2usize),
        (2isize, -2isize, 2usize),
        (-2isize, -2isize, 2usize)
    ]
}

/// The effect of placing the leaves of `offs` in order.
pub open spec fn planted(
    s: TreeState, chunk_i: usize, chunk_k: usize, grid_x: i32, grid_z: i32,
    i: int, k: int, j: int, chunk_distance: usize, j_max: usize, offs: Seq<(isize, isize, usize)>,
) -> TreeState
    decreases offs.len(),
{
    if offs.len() == 0 {
        s
    } else {
        let o = offs.last();
        tree_block_effect(
            planted(s, chunk_i, chunk_k, grid_x, grid_z, i, k, j, chunk_distance, j_max, offs.drop_last()),
            chunk_i, chunk_k, grid_x, grid_z, i + o.0, k + o.1, j - o.2, chunk_distance, j_max,
        )
    }
}

/// The arithmetic of planting a tree at `(i, k, j)` stays in range.
pub open spec fn tree_in_range(
    w: int, h: int, chunk_i: usize, chunk_k: usize, grid_x: i32, grid_z: i32,
    i: usize, k: usize, j: usize, chunk_distance: usize, j_max: usize,
) -> bool {
    &&& j >= 2
    &&& isize::MIN + 2 <= (i as isize) <= isize::MAX - 2
    &&& isize::MIN + 2 <= (k as isize) <= isize::MAX - 2
    &&& forall|t: int| 0 <= t < tree_offsets().len() ==> tree_block_in_range(w, h, chunk_i, chunk_k, grid_x, grid_z,
        (i as isize) + (#[trigger] tree_offsets()[t]).0, (k as isize) + tree_offsets()[t].1, j - tree_offsets()[t].2,
        chunk_distance, j_max)
}

proof fn lemma_effect_keeps_shape(
    s: TreeState, chunk_i: usize, chunk_k: usize, grid_x: i32, grid_z: i32,
    i: int, k: int, j: int, chunk_distance: usize, j_max: usize,
)
    requires
        chunk_shape(s.blocks),
        0 <= j,
    ensures
        ({
            let b2 = tree_block_effect(s, chunk_i, chunk_k, grid_x, grid_z, i, k, j, chunk_distance, j_max).blocks;
            &&& chunk_shape(b2)
            &&& width_of(b2) == width_of(s.blocks)
            &&& height_of(b2) == height_of(s.blocks)
            &&& same_shape(b2, s.blocks)
        }),
{
    let b = s.blocks;
    let b2 = tree_block_effect(s, chunk_i, chunk_k, grid_x, grid_z, i, k, j, chunk_distance, j_max).blocks;
    if j_max > j && !outside(width_of(b), height_of(b), i, k, j) {
        assert(b[i].len() == width_of(b));
        assert(b[i][k].len() == height_of(b));
        let col = b[i][k].update(j, BlockView { id: LEAF_ID, ..b[i][k][j] });
        let row = b[i].update(k, col);
        assert(b2 == b.update(i, row));
        assert forall|x: int| 0 <= x < width_of(b) implies #[trigger] b2[x].len() == width_of(b) by {
            assert(b[x].len() == width_of(b));
        }
        assert forall|x: int, y: int| 0 <= x < width_of(b) && 0 <= y < width_of(b) implies #[trigger] b2[x][y].len() == height_of(b) by {
            assert(b[x][y].len() == height_of(b));
            if x == i {
                assert(b2[x] == row);
                if y == k {
                    assert(b2[x][y] == col);
                } else {
                    assert(b2[x][y] == b[x][y]);
                }
            } else {
                assert(b2[x] == b[x]);
            }
        }
        assert(b2[0].len() == width_of(b));
        assert(b2[0][0].len() == height_of(b));
        assert forall|x: int| 0 <= x < b.len() implies #[trigger] b2[x].len() == b[x].len() by {
            if x == i { assert(b2[x] == row); } else { assert(b2[x] == b[x]); }
        }
        assert forall|x: int, y: int| 0 <= x < b.len() && 0 <= y < b[x].len() implies #[trigger] b2[x][y].len() == b[x][y].len() by {
            if x == i {
                assert(b2[x] == row);
                if y == k { assert(b2[x][y] == col); } else { assert(b2[x][y] == b[x][y]); }
            } else {
                assert(b2[x] == b[x]);
            }
        }
    }
}

/// Plants the leaves of a tree whose trunk tops out at `(i, k, j)`; see
/// `tree_offsets` and `planted`.
pub fn set_tree(
    change_block: &mut Vec<ChangeBlock>,
    chunk_i: usize,
    chunk_k: usize,
    blocks: &mut Vec<Vec<Vec<Block>>>,
    set_blocks: &mut SetBlocks,
    grid_x: i32,
    grid_z: i32,
    i: usize,
    k: usize,
    j: usize,
    chunk_distance: usize,
    j_max: usize,
)
    requires
        chunk_shape(old(blocks).deep_view()),
        tree_in_range(width_of(old(blocks).deep_view()), height_of(old(blocks).deep_view()), chunk_i, chunk_k, grid_x,
            grid_z, i, k, j, chunk_distance, j_max),
    ensures
        same_shape(final(blocks).deep_view(), old(blocks).deep_view()),
        tree_state(final(blocks), final(change_block), final(set_blocks)) =~~= planted(
            tree_state(old(blocks), old(change_block), old(set_blocks)),
            chunk_i, chunk_k, grid_x, grid_z, (i as isize) as int, (k as isize) as int, j as int, chunk_distance, j_max,
            tree_offsets()),
{
    let offsets: Vec<(isize, isize, usize)> = vec![
        (0, 0, 0),
        (1, 0, 0),
        (0, 1, 0),
        (0, -1, 0),
        (-1, 0, 0),
        (1, 0, 1),
        (1, 1, 1),
        (1, -1, 1),
        (0, 1, 1),
        (0, -1, 1),
        (-1, 0, 1),
        (-1, 1, 1),
        (-1, -1, 1),
        (2, 0, 2),
        (2, 1, 2),
        (2, -1, 2),
        (2, 0, 1),
        (2, 1, 1),
        (2, -1, 1),
        (-2, 0, 1),
        (-2, 1, 1),
        (-2, -1, 1),
        (0, -2, 1),
        (-1, -2, 1),
        (1, -2, 1),
        (0, 2, 1),
        (-1, 2, 1),
        (1, 2, 1),
        (1, 0, 2),
        (1, 1, 2),
        (1, -1, 2),
        (0, 1, 2),
        (0, -1, 2),
        (-1, 0, 2),
        (-1, 1, 2),
        (-1, -1, 2),
        (2, 0, 2),
        (2, 1, 2),
        (2, -1, 2),
        (-2, 0, 2),
        (-2, 1, 2),
        (-2, -1, 2),
        (0, -2, 2),
        (-1, -2, 2),
        (1, -2, 2),
        (0, 2, 2),
        (-1, 2, 2),
        (1, 2, 2),
        (2, 2, 2),
        (-2, 2, 2),
        (2, -2, 2),
        (-2, -2, 2)
    ];
    assert(offsets@ =~= tree_offsets());
    let ii: isize = #[verifier::truncate] (i as isize);
    let kk: isize = #[verifier::truncate] (k as isize);
    let ghost s0 = tree_state(blocks, change_block, set_blocks);
    let ghost b0 = s0.blocks;
    let mut t: usize = 0;
    while t < offsets.len()
        invariant
            offsets@ == tree_offsets(),
            t <= offsets@.len(),
            ii as int == (i as isize) as int,
            kk as int == (k as isize) as int,
            tree_in_range(width_of(b0), height_of(b0), chunk_i, chunk_k, grid_x, grid_z, i, k, j, chunk_distance, j_max),
            chunk_shape(b0),
            chunk_shape(blocks.deep_view()),
            same_shape(blocks.deep_view(), b0),
            width_of(blocks.deep_view()) == width_of(b0),
            height_of(blocks.deep_view()) == height_of(b0),
            tree_state(blocks, change_block, set_blocks) =~~= planted(s0, chunk_i, chunk_k, grid_x, grid_z,
                ii as int, kk as int, j as int, chunk_distance, j_max, tree_offsets().take(t as int)),
        decreases offsets@.len() - t,
    {
        let o = offsets[t];
        let ghost st = tree_state(blocks, change_block, set_blocks);
        assert(tree_block_in_range(width_of(b0), height_of(b0), chunk_i, chunk_k, grid_x, grid_z,
            ii + tree_offsets()[t as int].0, kk + tree_offsets()[t as int].1, j - tree_offsets()[t as int].2,
            chunk_distance, j_max));
        proof {
            lemma_effect_keeps_shape(st, chunk_i, chunk_k, grid_x, grid_z, ii + o.0, kk + o.1, j - o.2, chunk_distance, j_max);
        }
        set_tree_block(change_block, chunk_i, chunk_k, blocks, set_blocks, grid_x, grid_z, ii + o.0, kk + o.1, j - o.2,
            chunk_distance, j_max);
        assert(tree_offsets().take(t + 1).drop_last() =~= tree_offsets().take(t as int));
        t = t + 1;
    }
    assert(tree_offsets().take(52) =~= tree_offsets());
}


/// Every block stored in `before` is stored in `after` with the same kind,
/// and whatever `after` stores besides is a leaf.
pub open spec fn stored_kept(before: Map<Seq<u8>, u8>, after: Map<Seq<u8>, u8>) -> bool {
    &&& forall|key: Seq<u8>| #[trigger] before.contains_key(key) ==> after.contains_key(key) && after[key] == before[key]
    &&& forall|key: Seq<u8>| #[trigger] after.contains_key(key) && !before.contains_key(key) ==> after[key] == LEAF_ID
}

/// Keeping the stored blocks twice keeps them.
pub proof fn lemma_stored_kept_trans(a: Map<Seq<u8>, u8>, b: Map<Seq<u8>, u8>, c: Map<Seq<u8>, u8>)
    requires
        stored_kept(a, b),
        stored_kept(b, c),
    ensures
        stored_kept(a, c),
{
    assert forall|key: Seq<u8>| #[trigger] c.contains_key(key) && !a.contains_key(key) implies c[key] == LEAF_ID by {
        if b.contains_key(key) {
            assert(b[key] == LEAF_ID);
        }
    }
}

/// Placing a leaf never changes or drops a stored block, and stores nothing
/// but a leaf.
pub proof fn lemma_leaf_keeps_stored(
    s: TreeState, chunk_i: usize, chunk_k: usize, grid_x: i32, grid_z: i32,
    i: int, k: int, j: int, chunk_distance: usize, j_max: usize,
)
    ensures
        stored_kept(s.set_blocks,
            tree_block_effect(s, chunk_i, chunk_k, grid_x, grid_z, i, k, j, chunk_distance, j_max).set_blocks),
{
}

/// Planting a tree never changes or drops a stored block, and stores nothing
/// but leaves.
pub proof fn lemma_tree_keeps_stored(
    s: TreeState, chunk_i: usize, chunk_k: usize, grid_x: i32, grid_z: i32,
    i: int, k: int, j: int, chunk_distance: usize, j_max: usize, offs: Seq<(isize, isize, usize)>,
)
    ensures
        stored_kept(s.set_blocks,
            planted(s, chunk_i, chunk_k, grid_x, grid_z, i, k, j, chunk_distance, j_max, offs).set_blocks),
    decreases offs.len(),
{
    if offs.len() > 0 {
        let p = planted(s, chunk_i, chunk_k, grid_x, grid_z, i, k, j, chunk_distance, j_max, offs.drop_last());
        let o = offs.last();
        lemma_tree_keeps_stored(s, chunk_i, chunk_k, grid_x, grid_z, i, k, j, chunk_distance, j_max, offs.drop_last());
        lemma_leaf_keeps_stored(p, chunk_i, chunk_k, grid_x, grid_z, i + o.0, k + o.1, j - o.2, chunk_distance, j_max);
        lemma_stored_kept_trans(s.set_blocks, p.set_blocks,
            planted(s, chunk_i, chunk_k, grid_x, grid_z, i, k, j, chunk_distance, j_max, offs).set_blocks);
    } else {
        assert(stored_kept(s.set_blocks, s.set_blocks));
    }
}

/// Some leaf of `offs` around `(i, k, j)` falls on `(x, y, z)`.
pub open spec fn leaf_falls_on(offs: Seq<(isize, isize, usize)>, i: int, k: int, j: int, x: int, y: int, z: int) -> bool {
    exists|u: int| 0 <= u < offs.len() && i + (#[trigger] offs[u]).0 == x && k + offs[u].1 == y && j - offs[u].2 == z
}

/// The leaves of a tree lie at most two blocks below the top of its trunk.
pub proof fn lemma_offsets_depth()
    ensures
        tree_offsets().len() == 52,
        forall|u: int| 0 <= u < tree_offsets().len() ==> #[trigger] tree_offsets()[u].2 <= 2,
{
    assert(tree_offsets().len() == 52);
    assert forall|u: int| 0 <= u < tree_offsets().len() implies #[trigger] tree_offsets()[u].2 <= 2 by {
        assert(tree_offsets()[u].2 <= 2);
    }
}

proof fn lemma_leaf_elsewhere(
    s: TreeState, chunk_i: usize, chunk_k: usize, grid_x: i32, grid_z: i32,
    i: int, k: int, j: int, chunk_distance: usize, j_max: usize, x: int, y: int, z: int,
)
    requires
        chunk_shape(s.blocks),
        0 <= j,
        0 <= x < width_of(s.blocks),
        0 <= y < width_of(s.blocks),
        0 <= z < height_of(s.blocks),
        !(i == x && k == y && j == z),
    ensures
        tree_block_effect(s, chunk_i, chunk_k, grid_x, grid_z, i, k, j, chunk_distance, j_max).blocks[x][y][z] == s.blocks[x][y][z],
{
    let b = s.blocks;
    if j_max > j && !outside(width_of(b), height_of(b), i, k, j) {
        assert(b[i].len() == width_of(b));
        assert(b[i][k].len() == height_of(b));
        assert(b[x].len() == width_of(b));
        assert(b[x][y].len() == height_of(b));
        let col = b[i][k].update(j, BlockView { id: LEAF_ID, ..b[i][k][j] });
        let row = b[i].update(k, col);
        let b2 = b.update(i, row);
        if x == i {
            if y == k {
                assert(col[z] == b[i][k][z]);
            } else {
                assert(row[y] == b[i][y]);
            }
        } else {
            assert(b2[x] == b[x]);
        }
    }
}

/// A tree leaves every block on which none of its leaves falls as it was.
pub proof fn lemma_tree_elsewhere(
    s: TreeState, chunk_i: usize, chunk_k: usize, grid_x: i32, grid_z: i32,
    i: int, k: int, j: int, chunk_distance: usize, j_max: usize, offs: Seq<(isize, isize, usize)>,
    x: int, y: int, z: int,
)
    requires
        chunk_shape(s.blocks),
        forall|u: int| 0 <= u < offs.len() ==> #[trigger] offs[u].2 <= j,
        0 <= x < width_of(s.blocks),
        0 <= y < width_of(s.blocks),
        0 <= z < height_of(s.blocks),
        !leaf_falls_on(offs, i, k, j, x, y, z),
    ensures
        ({
            let p = planted(s, chunk_i, chunk_k, grid_x, grid_z, i, k, j, chunk_distance, j_max, offs).blocks;
            &&& p[x][y][z] == s.blocks[x][y][z]
            &&& chunk_shape(p)
            &&& width_of(p) == width_of(s.blocks)
            &&& height_of(p) == height_of(s.blocks)
        }),
    decreases offs.len(),
{
    if offs.len() > 0 {
        let d = offs.drop_last();
        let o = offs.last();
        assert forall|u: int| 0 <= u < d.len() implies #[trigger] d[u].2 <= j by {
            assert(d[u] == offs[u]);
        }
        assert(!leaf_falls_on(d, i, k, j, x, y, z)) by {
            if leaf_falls_on(d, i, k, j, x, y, z) {
                let u = choose|u: int| 0 <= u < d.len() && i + (#[trigger] d[u]).0 == x && k + d[u].1 == y && j - d[u].2 == z;
                assert(d[u] == offs[u]);
            }
        }
        lemma_tree_elsewhere(s, chunk_i, chunk_k, grid_x, grid_z, i, k, j, chunk_distance, j_max, d, x, y, z);
        let p = planted(s, chunk_i, chunk_k, grid_x, grid_z, i, k, j, chunk_distance, j_max, d);
        assert(offs[offs.len() - 1] == o);
        assert(o.2 <= j);
        lemma_leaf_elsewhere(p, chunk_i, chunk_k, grid_x, grid_z, i + o.0, k + o.1, j - o.2, chunk_distance, j_max, x, y, z);
        lemma_effect_keeps_shape(p, chunk_i, chunk_k, grid_x, grid_z, i + o.0, k + o.1, j - o.2, chunk_distance, j_max);
    }
}

/// A leaf placed inside its chunk becomes a leaf there and touches nothing
/// else. A leaf that falls past an edge of its chunk (below index 0 or past
/// `w - 1` along `i` or `k`, or above the top) goes to the same place of the
/// world in the neighbouring chunk across that edge: the chunk one step
/// further along each axis it crossed, at the index shifted back by one
/// chunk width. When that chunk is loaded the change is queued for it;
/// otherwise the leaf is stored under that chunk's key, its grid
/// coordinates stepped the same way, unless a block is stored there
/// already.
pub proof fn lemma_leaf_lands_in_its_chunk(
    s: TreeState, chunk_i: usize, chunk_k: usize, grid_x: i32, grid_z: i32,
    i: int, k: int, j: int, chunk_distance: usize, j_max: usize,
)
    requires
        chunk_shape(s.blocks),
        width_of(s.blocks) <= isize::MAX,
        0 <= j < j_max,
        -width_of(s.blocks) <= i < 2 * width_of(s.blocks),
        -width_of(s.blocks) <= k < 2 * width_of(s.blocks),
    ensures
        ({
            let w = width_of(s.blocks);
            let r = tree_block_effect(s, chunk_i, chunk_k, grid_x, grid_z, i, k, j, chunk_distance, j_max);
            let di: int = if i < 0 { -1 } else if i >= w { 1 } else { 0 };
            let dk: int = if k < 0 { -1 } else if k >= w { 1 } else { 0 };
            let ni = i - di * w;
            let nk = k - dk * w;
            let ci = (chunk_i as i32) as int + di;
            let ck = (chunk_k as i32) as int + dk;
            let key = spec_block_key(grid_x + di, grid_z + dk, ni, nk, j);
            &&& 0 <= ni < w
            &&& 0 <= nk < w
            &&& (0 <= i < w && 0 <= k < w && j < height_of(s.blocks)) ==> {
                &&& r.blocks[i][k][j] == (BlockView { id: LEAF_ID, ..s.blocks[i][k][j] })
                &&& same_shape(r.blocks, s.blocks)
                &&& r.change_block == s.change_block
                &&& r.set_blocks == s.set_blocks
            }
            &&& !(0 <= i < w && 0 <= k < w && j < height_of(s.blocks)) ==> {
                &&& r.blocks == s.blocks
                &&& if 0 <= ci < (chunk_distance as i32) && 0 <= ck < (chunk_distance as i32) {
                    &&& r.change_block == s.change_block.push((ci as usize, ck as usize, ni as usize, nk as usize, j as usize, LEAF_ID))
                    &&& r.set_blocks == s.set_blocks
                } else {
                    &&& r.change_block == s.change_block
                    &&& r.set_blocks == (if s.set_blocks.contains_key(key) { s.set_blocks } else { s.set_blocks.insert(key, LEAF_ID) })
                }
            }
        }),
{
    let w = width_of(s.blocks);
    lemma_effect_keeps_shape(s, chunk_i, chunk_k, grid_x, grid_z, i, k, j, chunk_distance, j_max);
    if 0 <= i < w && 0 <= k < w && j < height_of(s.blocks) {
        let b = s.blocks;
        assert(b[i].len() == w);
    }
}

/// Planting leaves keeps the dimensions of the chunk's blocks.
pub proof fn lemma_planted_shape(
    s: TreeState, chunk_i: usize, chunk_k: usize, grid_x: i32, grid_z: i32,
    i: int, k: int, j: int, chunk_distance: usize, j_max: usize, offs: Seq<(isize, isize, usize)>,
)
    requires
        chunk_shape(s.blocks),
        forall|u: int| 0 <= u < offs.len() ==> #[trigger] offs[u].2 <= j,
    ensures
        ({
            let p = planted(s, chunk_i, chunk_k, grid_x, grid_z, i, k, j, chunk_distance, j_max, offs).blocks;
            &&& chunk_shape(p)
            &&& width_of(p) == width_of(s.blocks)
            &&& height_of(p) == height_of(s.blocks)
        }),
    decreases offs.len(),
{
    if offs.len() > 0 {
        let d = offs.drop_last();
        let o = offs.last();
        assert forall|u: int| 0 <= u < d.len() implies #[trigger] d[u].2 <= j by {
            assert(d[u] == offs[u]);
        }
        lemma_planted_shape(s, chunk_i, chunk_k, grid_x, grid_z, i, k, j, chunk_distance, j_max, d);
        let p = planted(s, chunk_i, chunk_k, grid_x, grid_z, i, k, j, chunk_distance, j_max, d);
        assert(offs[offs.len() - 1] == o);
        lemma_effect_keeps_shape(p, chunk_i, chunk_k, grid_x, grid_z, i + o.0, k + o.1, j - o.2, chunk_distance, j_max);
    }
}

} // verus!
