use minecraft_rust::block::Block;
use minecraft_rust::chunk::{get_block_type, get_set_block, new_blocks, Chunk, ColumnValues, MeshVertex, TreeSite};
use minecraft_rust::set_blocks::{SetBlocks, UNSET_ID};
use minecraft_rust::trees::{set_tree, set_tree_block, ChangeBlock, LEAF_ID};
use minecraft_rust::world::check_and_set_block;

fn flat_columns(w: usize, top: u8) -> Vec<Vec<ColumnValues>> {
    vec![vec![(top, false, 0u8); w]; w]
}

#[test]
fn block_type_below_rock_is_stone() {
    assert_eq!(get_block_type(0, 5, 11, false, 1, 0, 0, 0), 1);
    assert_eq!(get_block_type(0, 20, 11, false, 1, 0, 0, 2), 1);
}

#[test]
fn block_type_above_ground_is_water_or_air() {
    assert_eq!(get_block_type(8, 5, 11, false, 0, 0, 0, 0), 3);
    assert_eq!(get_block_type(10, 5, 11, false, 0, 0, 0, 0), 3);
    assert_eq!(get_block_type(11, 5, 11, false, 0, 0, 0, 0), 240);
    assert_eq!(get_block_type(12, 5, 11, false, 0, 0, 0, 2), 240);
}

#[test]
fn block_type_top_is_grass_high_and_sand_low() {
    assert_eq!(get_block_type(20, 20, 11, false, 0, 0, 0, 0), 0);
    assert_eq!(get_block_type(14, 14, 11, false, 0, 0, 0, 0), 0);
    assert_eq!(get_block_type(13, 13, 11, false, 0, 0, 0, 0), 6);
    assert_eq!(get_block_type(12, 12, 11, false, 0, 0, 0, 0), 6);
}

#[test]
fn block_type_dirt_lies_under_grass() {
    assert_eq!(get_block_type(19, 20, 11, false, 0, 0, 0, 0), 2);
    assert_eq!(get_block_type(18, 20, 11, false, 0, 0, 0, 0), 2);
    assert_eq!(get_block_type(17, 20, 11, false, 0, 0, 0, 0), 1);
    assert_eq!(get_block_type(13, 14, 11, false, 0, 0, 0, 0), 1);
}

#[test]
fn block_type_trunk_grows_over_plants() {
    assert_eq!(get_block_type(21, 20, 11, true, 0, 0, 0, 0), 5);
    assert_eq!(get_block_type(25, 20, 11, true, 0, 0, 0, 0), 5);
    assert_eq!(get_block_type(26, 20, 11, true, 0, 0, 0, 0), 240);
    assert_eq!(get_block_type(20, 20, 11, true, 0, 0, 0, 0), 0);
    assert_eq!(get_block_type(14, 13, 11, true, 0, 0, 0, 0), 240);
}

#[test]
fn block_type_sand_biome() {
    assert_eq!(get_block_type(20, 20, 11, true, 0, 0, 0, 2), 6);
    assert_eq!(get_block_type(22, 20, 11, true, 0, 0, 0, 2), 240);
    assert_eq!(get_block_type(19, 20, 11, false, 0, 0, 0, 2), 6);
    assert_eq!(get_block_type(17, 20, 11, false, 0, 0, 0, 2), 1);
    assert_eq!(get_block_type(9, 5, 11, false, 0, 0, 0, 2), 3);
}

#[test]
fn new_blocks_are_visible_stone() {
    let b = new_blocks(2, 3);
    assert_eq!(b.len(), 2);
    for row in &b {
        assert_eq!(row.len(), 2);
        for col in row {
            assert_eq!(col.len(), 3);
            for block in col {
                assert_eq!(block.id, 1);
                assert!(block.visible);
            }
        }
    }
}

#[test]
fn init_fills_columns_from_terrain() {
    let mut cb: Vec<ChangeBlock> = Vec::new();
    let mut sb = SetBlocks::new();
    let trees: Vec<TreeSite> = Vec::new();
    let c = Chunk::init(&mut cb, 0, 0, 3, -2, &flat_columns(2, 5), &trees, 2, 42, 14, &mut sb, 0, 1, 3);
    assert_eq!(c.get_grid(), (3, -2));
    assert_eq!(c.blocks.len(), 2);
    assert_eq!(c.blocks[1].len(), 2);
    assert_eq!(c.blocks[1][1].len(), 15);
    let expected: Vec<u8> = vec![1, 1, 1, 1, 1, 6, 3, 3, 3, 3, 3, 240, 240, 240, 240];
    for x in 0..2 {
        for y in 0..2 {
            let ids: Vec<u8> = c.blocks[x][y].iter().map(|b| b.id).collect();
            assert_eq!(ids, expected);
        }
    }
    assert!(c.vertices.is_empty());
    assert!(c.visible_layers.is_empty());
    assert!(cb.is_empty());
}

#[test]
fn init_shows_stored_blocks_and_uses_up_stored_leaves() {
    let mut cb: Vec<ChangeBlock> = Vec::new();
    let mut sb = SetBlocks::new();
    check_and_set_block(&mut sb, 3, -2, 0, 1, 2, 0);
    check_and_set_block(&mut sb, 3, -2, 1, 1, 13, LEAF_ID);
    let trees: Vec<TreeSite> = Vec::new();
    let c = Chunk::init(&mut cb, 0, 0, 3, -2, &flat_columns(2, 5), &trees, 2, 42, 14, &mut sb, 0, 1, 3);
    assert_eq!(c.blocks[0][1][2].id, 0);
    assert_eq!(c.blocks[1][1][13].id, LEAF_ID);
    assert_eq!(c.blocks[0][0][2].id, 1);
    assert_eq!(get_set_block(&sb, 3, -2, 0, 1, 2), 0);
    assert_eq!(get_set_block(&sb, 3, -2, 1, 1, 13), UNSET_ID);
}

#[test]
fn regenerate_keeps_stored_blocks() {
    let mut cb: Vec<ChangeBlock> = Vec::new();
    let mut sb = SetBlocks::new();
    let trees: Vec<TreeSite> = Vec::new();
    let mut c = Chunk::init(&mut cb, 0, 0, 3, -2, &flat_columns(2, 5), &trees, 2, 42, 14, &mut sb, 0, 1, 3);
    check_and_set_block(&mut sb, 3, -2, 1, 0, 4, 240);
    c.regenerate(&mut cb, 0, 0, &mut sb, &flat_columns(2, 2), &trees);
    assert_eq!(c.blocks[0][0][2].id, 6);
    assert_eq!(c.blocks[0][0][3].id, 3);
    assert_eq!(c.blocks[1][0][4].id, 240);
    assert_eq!(c.blocks[1][1][4].id, 3);
    assert_eq!(get_set_block(&sb, 3, -2, 1, 0, 4), 240);
}

#[test]
fn a_tree_inside_the_chunk_sets_leaves() {
    let mut cb: Vec<ChangeBlock> = Vec::new();
    let mut sb = SetBlocks::new();
    let mut blocks = new_blocks(5, 10);
    set_tree(&mut cb, 1, 1, &mut blocks, &mut sb, 0, 0, 2, 2, 8, 3, 10);
    assert_eq!(blocks[2][2][8].id, LEAF_ID);
    assert_eq!(blocks[3][2][8].id, LEAF_ID);
    assert_eq!(blocks[2][1][8].id, LEAF_ID);
    assert_eq!(blocks[4][4][6].id, LEAF_ID);
    assert_eq!(blocks[0][0][6].id, LEAF_ID);
    assert_eq!(blocks[3][3][8].id, 1);
    assert_eq!(blocks[0][4][7].id, 1);
    assert_eq!(blocks[2][2][5].id, 1);
    assert!(cb.is_empty());
}

#[test]
fn leaves_past_the_edge_go_to_the_loaded_neighbour() {
    let mut cb: Vec<ChangeBlock> = Vec::new();
    let mut sb = SetBlocks::new();
    let mut blocks = new_blocks(5, 10);
    set_tree_block(&mut cb, 1, 1, &mut blocks, &mut sb, 0, 0, -1, 0, 8, 3, 10);
    assert_eq!(cb, vec![(0usize, 1usize, 4usize, 0usize, 8usize, LEAF_ID)]);
    set_tree_block(&mut cb, 1, 1, &mut blocks, &mut sb, 0, 0, 5, 6, 7, 3, 10);
    assert_eq!(cb[1], (2usize, 2usize, 0usize, 1usize, 7usize, LEAF_ID));
}

#[test]
fn leaves_past_the_edge_are_stored_for_an_unloaded_chunk() {
    let mut cb: Vec<ChangeBlock> = Vec::new();
    let mut sb = SetBlocks::new();
    let mut blocks = new_blocks(5, 10);
    set_tree_block(&mut cb, 1, 1, &mut blocks, &mut sb, 4, 9, -1, 0, 8, 1, 10);
    assert!(cb.is_empty());
    assert_eq!(get_set_block(&sb, 3, 9, 4, 0, 8), LEAF_ID);
}

#[test]
fn a_leaf_never_replaces_a_stored_block() {
    let mut cb: Vec<ChangeBlock> = Vec::new();
    let mut sb = SetBlocks::new();
    check_and_set_block(&mut sb, 3, 9, 4, 0, 8, 2);
    let mut blocks = new_blocks(5, 10);
    set_tree_block(&mut cb, 1, 1, &mut blocks, &mut sb, 4, 9, -1, 0, 8, 1, 10);
    assert_eq!(get_set_block(&sb, 3, 9, 4, 0, 8), 2);
}

#[test]
fn a_leaf_above_the_limit_is_not_placed() {
    let mut cb: Vec<ChangeBlock> = Vec::new();
    let mut sb = SetBlocks::new();
    let mut blocks = new_blocks(5, 10);
    set_tree_block(&mut cb, 1, 1, &mut blocks, &mut sb, 0, 0, 1, 1, 10, 3, 10);
    assert!(cb.is_empty());
    for row in &blocks {
        for col in row {
            for b in col {
                assert_eq!(b.id, 1);
            }
        }
    }
}

fn block_with(id: u8, sides: Vec<bool>) -> Block {
    let mut b = Block::init(id);
    b.sides = sides;
    b
}

fn two_block_chunk(layers: Vec<bool>) -> Chunk {
    Chunk {
        blocks: vec![vec![vec![
            block_with(1, vec![true, false, false, false, false, true]),
            block_with(3, vec![false, false, false, false, false, true]),
        ]]],
        grid_x: 0,
        grid_z: 0,
        vertices: Vec::new(),
        transparencies: Vec::new(),
        world_gen_seed: 1,
        underground_height: 0,
        sky_height: 0,
        mid_height: 2,
        chunk_distance: 1,
        visible_layers: layers,
    }
}

#[test]
fn get_mesh_gives_six_corners_per_shown_face() {
    let b = block_with(2, vec![false, true, false, false, true, false]);
    let mut vs: Vec<MeshVertex> = Vec::new();
    let mut ts: Vec<bool> = Vec::new();
    b.get_mesh(4, 5, 6, &mut vs, &mut ts);
    assert_eq!(vs.len(), 12);
    assert_eq!(ts, vec![false; 12]);
    assert_eq!(vs[0], MeshVertex { i: 4, k: 5, j: 6, side: 1, corner: 0, block_id: 2 });
    assert_eq!(vs[11], MeshVertex { i: 4, k: 5, j: 6, side: 4, corner: 5, block_id: 2 });
    let mut hidden = block_with(2, vec![true; 6]);
    hidden.set_invisible();
    hidden.get_mesh(0, 0, 0, &mut vs, &mut ts);
    assert_eq!(vs.len(), 12);
}

#[test]
fn build_mesh_draws_shown_faces_of_drawn_layers() {
    let mut c = two_block_chunk(vec![true, true]);
    c.build_mesh();
    assert_eq!(c.vertices.len(), 18);
    assert_eq!(c.vertices[0].side, 0);
    assert_eq!(c.vertices[6].side, 5);
    assert_eq!(c.vertices[12].block_id, 3);
    assert_eq!(c.transparencies[11], false);
    assert_eq!(c.transparencies[12], true);
    let (opaque, see_through) = c.populate_mesh();
    assert_eq!(opaque.len(), 12);
    assert_eq!(see_through.len(), 6);
    assert!(opaque.iter().all(|v| v.block_id == 1));
    assert!(see_through.iter().all(|v| v.block_id == 3 && v.j == 1));
    assert!(c.vertices.is_empty());
}

#[test]
fn build_mesh_skips_layers_not_drawn() {
    let mut c = two_block_chunk(vec![false, true]);
    c.build_mesh();
    assert_eq!(c.vertices.len(), 6);
    assert!(c.vertices.iter().all(|v| v.j == 1));
}

#[test]
fn layer_flags_follow_block_visibility() {
    let mut c = two_block_chunk(vec![false, false]);
    c.changed_block_visibility(1);
    assert_eq!(c.visible_layers, vec![false, true]);
    c.blocks[0][0][0].set_invisible();
    c.changed_block_visibility(0);
    assert_eq!(c.visible_layers, vec![false, true]);
    c.set_layer_visibility(vec![true, true]);
    c.changed_block_visibility(0);
    assert_eq!(c.visible_layers, vec![false, true]);
}

#[test]
fn a_stored_leaf_goes_to_every_cell_with_its_key_in_the_first_row_that_has_it() {
    let mut cb: Vec<ChangeBlock> = Vec::new();
    let mut sb = SetBlocks::new();
    check_and_set_block(&mut sb, 0, 0, 1, 11, 2, LEAF_ID);
    check_and_set_block(&mut sb, 0, 0, 1, 11, 3, 2);
    let trees: Vec<TreeSite> = Vec::new();
    let c = Chunk::init(&mut cb, 0, 0, 0, 0, &flat_columns(12, 5), &trees, 12, 42, 14, &mut sb, 0, 1, 3);
    assert_eq!(c.blocks[1][1][12].id, LEAF_ID);
    assert_eq!(c.blocks[1][11][2].id, LEAF_ID);
    assert_eq!(c.blocks[11][1][2].id, 1);
    assert_eq!(c.blocks[1][1][13].id, 2);
    assert_eq!(c.blocks[1][11][3].id, 2);
    assert_eq!(c.blocks[11][1][3].id, 2);
    assert_eq!(get_set_block(&sb, 0, 0, 1, 11, 2), UNSET_ID);
    assert_eq!(get_set_block(&sb, 0, 0, 1, 11, 3), 2);
}

#[test]
fn cells_of_one_row_sharing_a_key_both_get_the_stored_leaf() {
    let mut cb: Vec<ChangeBlock> = Vec::new();
    let mut sb = SetBlocks::new();
    check_and_set_block(&mut sb, 0, 0, 5, 1, 23, LEAF_ID);
    let trees: Vec<TreeSite> = Vec::new();
    let c = Chunk::init(&mut cb, 0, 0, 0, 0, &flat_columns(13, 5), &trees, 13, 42, 23, &mut sb, 0, 1, 3);
    assert_eq!(c.blocks[5][1][23].id, LEAF_ID);
    assert_eq!(c.blocks[5][12][3].id, LEAF_ID);
    assert_eq!(get_set_block(&sb, 0, 0, 5, 1, 23), UNSET_ID);
}
