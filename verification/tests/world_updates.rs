use minecraft_rust::chunk::{get_set_block, ColumnValues, TreeSite};
use minecraft_rust::set_blocks::UNSET_ID;
use minecraft_rust::world::{check_block_sides, push_unbuilt_to_start, spawn_step, SpawnStep, World, NOT_FOUND};

fn flat_columns(w: usize, top: u8) -> Vec<Vec<ColumnValues>> {
    vec![vec![(top, false, 0u8); w]; w]
}

fn small_world() -> World {
    let columns: Vec<Vec<Vec<Vec<ColumnValues>>>> = vec![vec![flat_columns(4, 5); 3]; 3];
    let trees: Vec<Vec<Vec<TreeSite>>> = vec![vec![Vec::new(); 3]; 3];
    World::new(4, 2, 7, 14, 0, 1, &columns, &trees)
}

fn coords(world: &World) -> Vec<Vec<(i32, i32)>> {
    world.chunk_grid.iter().map(|row| row.iter().map(|c| c.get_grid()).collect()).collect()
}

#[test]
fn a_new_world_is_a_square_grid_with_consecutive_coordinates() {
    let world = small_world();
    assert_eq!(world.chunk_grid.len(), 3);
    for (x, row) in world.chunk_grid.iter().enumerate() {
        assert_eq!(row.len(), 3);
        for (y, c) in row.iter().enumerate() {
            assert_eq!(c.get_grid(), (x as i32, y as i32));
            assert_eq!(c.blocks.len(), 4);
            assert_eq!(c.blocks[0][0].len(), 15);
        }
    }
    assert!(world.unbuilt_models.is_empty());
    assert!(world.change_block.is_empty());
}

#[test]
fn only_exposed_blocks_are_drawn() {
    let world = small_world();
    let centre = &world.chunk_grid[1][1];
    assert!(centre.blocks[1][1][0].visible);
    assert_eq!(centre.blocks[1][1][0].sides, vec![false, false, false, false, true, false]);
    assert!(!centre.blocks[1][1][3].visible);
    assert!(!centre.blocks[2][2][4].visible);
    assert!(centre.blocks[1][2][5].visible);
    assert_eq!(centre.blocks[1][2][5].sides, vec![false, false, false, false, false, true]);
    assert!(!centre.blocks[2][1][7].visible);
    assert!(centre.blocks[2][1][10].visible);
    assert!(!centre.blocks[2][1][12].visible);
}

#[test]
fn blocks_at_the_end_of_a_chunk_show_that_face() {
    let world = small_world();
    let centre = &world.chunk_grid[1][1];
    assert!(centre.blocks[0][1][3].visible);
    assert_eq!(centre.blocks[0][1][3].sides, vec![false, true, false, false, false, false]);
    assert!(centre.blocks[3][3][7].visible);
    assert_eq!(centre.blocks[3][3][7].sides, vec![true, false, true, false, false, false]);
    assert!(!centre.blocks[0][0][12].visible);
    let edge = &world.chunk_grid[2][1];
    assert!(edge.blocks[3][0][3].visible);
    assert!(edge.blocks[3][0][3].sides[0] && edge.blocks[3][0][3].sides[3]);
}

#[test]
fn meshes_hold_only_the_shown_faces() {
    let world = small_world();
    let centre = &world.chunk_grid[1][1];
    assert_eq!(centre.visible_layers, vec![true; 15]);
    assert_eq!(centre.vertices.len(), 1344);
    assert_eq!(centre.transparencies.iter().filter(|t| **t).count(), 576);
    assert!(centre.vertices.iter().all(|v| match v.side {
        0 => v.i == 3,
        1 => v.i == 0,
        2 => v.k == 3,
        3 => v.k == 0,
        4 => v.j == 0,
        _ => v.j == 5 || v.j == 10,
    }));
}

#[test]
fn moving_shifts_coordinates_and_queues_the_wrapped_row() {
    let mut world = small_world();
    world.move_chunks(2);
    let c = coords(&world);
    for x in 0..3 {
        for y in 0..3 {
            assert_eq!(c[x][y], (x as i32 - 1, y as i32));
        }
    }
    assert_eq!(world.unbuilt_models.len(), 9);
    assert_eq!(world.unbuilt_models[0], (0, 0, true, true, false));
    assert_eq!(world.unbuilt_models[1], (1, 0, true, false, false));
    assert_eq!(world.unbuilt_models[2], (2, 0, true, false, false));
    assert_eq!(world.unbuilt_models[8], (2, 2, true, false, false));
    assert!(world.unbuilt_models.iter().all(|u| u.0 < 3 && u.1 < 3));
}

#[test]
fn moving_back_restores_the_grid() {
    let mut world = small_world();
    world.move_chunks(3);
    let c = coords(&world);
    assert_eq!(c[0][0], (0, 1));
    assert_eq!(c[2][2], (2, 3));
    world.move_chunks(1);
    let c = coords(&world);
    for x in 0..3 {
        for y in 0..3 {
            assert_eq!(c[x][y], (x as i32, y as i32));
        }
    }
    world.move_chunks(4);
    world.move_chunks(2);
    assert_eq!(coords(&world)[1][2], (1, 2));
    assert_eq!(world.unbuilt_models.len(), 36);
}

#[test]
fn an_unknown_direction_changes_nothing() {
    let mut world = small_world();
    world.move_chunks(0);
    world.move_chunks(7);
    assert_eq!(coords(&world)[2][0], (2, 0));
    assert!(world.unbuilt_models.is_empty());
}

#[test]
fn an_update_handles_one_queued_chunk() {
    let mut world = small_world();
    world.move_chunks(2);
    let trees: Vec<TreeSite> = Vec::new();
    let built = world.update_models(&flat_columns(4, 2), &trees);
    assert_eq!(built, vec![(0, 0)]);
    assert_eq!(world.unbuilt_models.len(), 8);
    assert_eq!(world.chunk_grid[0][0].blocks[1][1][2].id, 6);
    assert_eq!(world.chunk_grid[0][1].blocks[1][1][2].id, 1);
    let built = world.update_models(&flat_columns(4, 2), &trees);
    assert_eq!(built, vec![(1, 0)]);
    assert_eq!(world.unbuilt_models.len(), 7);
}

#[test]
fn an_update_of_an_empty_queue_builds_nothing() {
    let mut world = small_world();
    let trees: Vec<TreeSite> = Vec::new();
    let built = world.update_models(&flat_columns(4, 5), &trees);
    assert!(built.is_empty());
}

#[test]
fn breaking_a_block_makes_it_air_and_stores_it() {
    let mut world = small_world();
    world.destroy_block_at((1, 1, 0, 0, 5));
    let centre = &world.chunk_grid[1][1];
    assert_eq!(centre.blocks[0][0][5].id, 240);
    assert!(!centre.blocks[0][0][5].visible);
    assert!(centre.blocks[0][0][4].visible);
    assert!(centre.blocks[0][0][4].sides[5]);
    assert_eq!(get_set_block(&world.set_blocks, 1, 1, 0, 0, 5), 240);
    assert_eq!(world.unbuilt_models, vec![(1, 1, false, false, false), (1, 0, false, false, false), (0, 1, false, false, false)]);
}

#[test]
fn a_broken_block_stays_air_when_its_chunk_is_generated_again() {
    let mut world = small_world();
    world.destroy_block_at((1, 1, 0, 0, 5));
    let trees: Vec<TreeSite> = Vec::new();
    world.chunk_grid[1][1].regenerate(&mut world.change_block, 1, 1, &mut world.set_blocks, &flat_columns(4, 5), &trees);
    assert_eq!(world.chunk_grid[1][1].blocks[0][0][5].id, 240);
    assert_eq!(world.chunk_grid[1][1].blocks[1][0][5].id, 6);
}

#[test]
fn the_queue_drains_one_chunk_per_update() {
    let mut world = small_world();
    world.destroy_block_at((1, 1, 0, 0, 5));
    let trees: Vec<TreeSite> = Vec::new();
    assert_eq!(world.update_models(&flat_columns(4, 5), &trees), vec![(1, 1)]);
    assert_eq!(world.update_models(&flat_columns(4, 5), &trees), vec![(1, 0)]);
    assert_eq!(world.update_models(&flat_columns(4, 5), &trees), vec![(0, 1)]);
    assert!(world.unbuilt_models.is_empty());
}

#[test]
fn placing_stores_the_block_under_its_own_key() {
    let mut world = small_world();
    world.place_block_at((1, 1, 0, 0, 11), 2);
    assert_eq!(world.chunk_grid[1][1].blocks[0][0][11].id, 2);
    assert_eq!(get_set_block(&world.set_blocks, 1, 1, 0, 0, 11), 2);
    assert_eq!(get_set_block(&world.set_blocks, 1, 1, 0, 0, 10), UNSET_ID);
}

#[test]
fn a_placed_block_is_there_when_its_chunk_is_generated_again() {
    let mut world = small_world();
    world.place_block_at((1, 1, 0, 0, 11), 2);
    let trees: Vec<TreeSite> = Vec::new();
    world.chunk_grid[1][1].regenerate(&mut world.change_block, 1, 1, &mut world.set_blocks, &flat_columns(4, 5), &trees);
    assert_eq!(world.chunk_grid[1][1].blocks[0][0][11].id, 2);
    assert_eq!(world.chunk_grid[1][1].blocks[1][0][11].id, 240);
}

#[test]
fn where_a_player_can_go() {
    let world = small_world();
    let none = (NOT_FOUND, NOT_FOUND, NOT_FOUND, NOT_FOUND, NOT_FOUND);
    assert_eq!(world.move_to_direction(none, none), 0);
    assert_eq!(world.move_to_direction(none, (1, 1, 0, 0, 7)), 1);
    assert_eq!(world.move_to_direction((1, 1, 0, 0, 7), (1, 1, 0, 0, 3)), 2);
    assert_eq!(world.move_to_direction((1, 1, 0, 0, 3), none), 2);
    assert_eq!(world.move_to_direction((1, 1, 0, 0, 8), (1, 1, 0, 0, 7)), 1);
}

#[test]
fn lookups_are_checked_against_the_grid() {
    let world = small_world();
    assert!(world.index_in_grid((2, 2, 1, 1, 14)));
    assert!(!world.index_in_grid((3, 0, 0, 0, 0)));
    assert!(!world.index_in_grid((0, 0, 4, 0, 0)));
    assert!(!world.index_in_grid((0, 0, 0, 0, 15)));
}

#[test]
fn a_buried_block_stays_hidden_when_checked() {
    let mut world = small_world();
    check_block_sides(&mut world.chunk_grid, 1, 1, 1, 1, 4, 4);
    assert!(!world.chunk_grid[1][1].blocks[1][1][4].visible);
    check_block_sides(&mut world.chunk_grid, 1, 1, 0, 0, 12, 4);
    assert!(!world.chunk_grid[1][1].blocks[0][0][12].visible);
}

#[test]
fn spawn_search_steps() {
    assert_eq!(spawn_step(Some(true), 0), SpawnStep::Down);
    assert_eq!(spawn_step(Some(true), 2), SpawnStep::Found);
    assert_eq!(spawn_step(Some(false), 1), SpawnStep::Found);
    assert_eq!(spawn_step(Some(false), 0), SpawnStep::Up);
    assert_eq!(spawn_step(None, 2), SpawnStep::Found);
    assert_eq!(spawn_step(None, 1), SpawnStep::Down);
}

#[test]
fn push_to_start_puts_in_front() {
    let mut v = vec![(1, 2, false, false, false)];
    push_unbuilt_to_start((3, 4, true, false, true), &mut v);
    assert_eq!(v, vec![(3, 4, true, false, true), (1, 2, false, false, false)]);
}

#[test]
fn updates_and_edits_keep_every_chunk_in_place() {
    let mut world = small_world();
    let before = coords(&world);
    world.destroy_block_at((0, 2, 1, 1, 5));
    world.place_block_at((2, 0, 0, 0, 11), 1);
    assert_eq!(coords(&world), before);
    let trees: Vec<TreeSite> = Vec::new();
    while !world.unbuilt_models.is_empty() {
        world.update_models(&flat_columns(4, 5), &trees);
    }
    assert_eq!(coords(&world), before);
    world.move_chunks(4);
    let trees_after: Vec<TreeSite> = Vec::new();
    world.update_models(&flat_columns(4, 5), &trees_after);
    let c = coords(&world);
    for x in 0..3 {
        for y in 0..3 {
            assert_eq!(c[x][y], (x as i32 + 1, y as i32));
        }
    }
}

#[test]
fn queues_are_checked_against_the_grid() {
    let mut world = small_world();
    assert!(world.queued_chunks_in_grid());
    assert!(world.queued_changes_in_grid());
    world.unbuilt_models.push((3, 0, false, false, false));
    assert!(!world.queued_chunks_in_grid());
    world.unbuilt_models.clear();
    world.change_block.push((0, 0, 3, 3, 14, 7));
    assert!(world.queued_changes_in_grid());
    world.change_block.push((0, 0, 4, 0, 0, 7));
    assert!(!world.queued_changes_in_grid());
}

#[test]
fn queued_changes_are_made_once_no_chunk_waits() {
    let mut world = small_world();
    world.change_block.push((1, 1, 1, 1, 12, 7));
    let trees: Vec<TreeSite> = Vec::new();
    let first = world.update_first_unbuilt(&flat_columns(4, 5), &trees);
    assert!(first.is_empty());
    assert!(world.queued_changes_in_grid());
    let built = world.apply_change_blocks();
    assert_eq!(built, vec![(1, 1)]);
    assert_eq!(world.chunk_grid[1][1].blocks[1][1][12].id, 7);
    assert!(world.chunk_grid[1][1].blocks[1][1][12].visible);
    assert!(world.change_block.is_empty());
    assert!(world.unbuilt_models.is_empty());
}

#[test]
fn the_last_queued_change_to_a_block_wins() {
    let mut world = small_world();
    world.change_block.push((1, 1, 1, 1, 12, 7));
    world.change_block.push((1, 1, 1, 1, 12, 1));
    assert!(world.queued_changes_in_grid());
    let built = world.apply_change_blocks();
    assert_eq!(built, vec![(1, 1), (1, 1)]);
    assert_eq!(world.chunk_grid[1][1].blocks[1][1][12].id, 1);
}

#[test]
fn moving_carries_each_chunk_whole_to_its_next_place() {
    let mut world = small_world();
    world.chunk_grid[0][1].blocks[1][2][12].id = 7;
    world.chunk_grid[1][2].blocks[3][0][13].id = 1;
    world.move_chunks(2);
    assert_eq!(world.chunk_grid[1][1].get_grid(), (0, 1));
    assert_eq!(world.chunk_grid[1][1].blocks[1][2][12].id, 7);
    assert_eq!(world.chunk_grid[2][2].get_grid(), (1, 2));
    assert_eq!(world.chunk_grid[2][2].blocks[3][0][13].id, 1);
    let mut seen: Vec<(i32, i32)> = coords(&world).into_iter().flatten().collect();
    seen.sort();
    seen.dedup();
    assert_eq!(seen.len(), 9);
}
