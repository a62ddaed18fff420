use minecraft_rust::block::{Block, BlockId, AIR_ID, WATER_ID};
use minecraft_rust::chunk::{get_set_block, remove_key};
use minecraft_rust::set_blocks::{block_key, SetBlocks, UNSET_ID};
use minecraft_rust::world::check_and_set_block;

#[test]
fn block_ids_have_their_numbers() {
    assert_eq!(BlockId::GRASS.id(), 0);
    assert_eq!(BlockId::STONE.id(), 1);
    assert_eq!(BlockId::DIRT.id(), 2);
    assert_eq!(BlockId::WATER.id(), 3);
    assert_eq!(BlockId::AIR.id(), 240);
    assert_eq!(BlockId::AIR.id(), AIR_ID);
    assert_eq!(BlockId::WATER.id(), WATER_ID);
}

#[test]
fn a_new_block_is_visible_with_no_faces() {
    let b = Block::init(5);
    assert_eq!(b.id, 5);
    assert!(b.visible);
    assert!(b.sides.is_empty());
}

#[test]
fn regenerate_changes_only_the_kind() {
    let mut b = Block::init(1);
    b.sides = vec![true, false, true, false, true, false];
    b.set_invisible();
    b.regenerate(3);
    assert_eq!(b.id, 3);
    assert!(!b.visible);
    assert_eq!(b.sides, vec![true, false, true, false, true, false]);
}

#[test]
fn air_and_water_tests() {
    let air = Block::init(AIR_ID);
    let water = Block::init(WATER_ID);
    let stone = Block::init(1);
    assert!(air.is_air() && !air.is_water() && !air.is_transparent());
    assert!(water.is_water() && water.is_transparent() && !water.is_air());
    assert!(!stone.is_air() && !stone.is_water() && !stone.is_transparent());
}

#[test]
fn keys_are_the_decimal_numbers_run_together() {
    assert_eq!(block_key(1, -2, 3, 4, 5), b"1-2345".to_vec());
    assert_eq!(block_key(0, 0, 0, 0, 0), b"00000".to_vec());
    assert_eq!(block_key(-10, 207, 15, 0, 69), b"-1020715069".to_vec());
    assert_eq!(block_key(i32::MIN, i32::MAX, 0, 1, 2), b"-21474836482147483647012".to_vec());
}

#[test]
fn distinct_positions_can_share_a_key() {
    assert_eq!(block_key(1, 12, 3, 0, 0), block_key(11, 2, 3, 0, 0));
    assert_eq!(block_key(0, 0, 1, 12, 5), block_key(0, 0, 11, 2, 5));
}

#[test]
fn store_insert_get_remove() {
    let mut s = SetBlocks::new();
    let k1 = block_key(0, 0, 1, 2, 3);
    let k2 = block_key(0, 0, 1, 2, 4);
    assert_eq!(s.get(&k1), None);
    assert!(!s.contains_key(&k1));
    s.insert(k1.clone(), 7);
    s.insert(k2.clone(), 2);
    assert_eq!(s.get(&k1), Some(7));
    assert_eq!(s.get(&k2), Some(2));
    s.insert(k1.clone(), 9);
    assert_eq!(s.get(&k1), Some(9));
    s.remove(&k1);
    assert_eq!(s.get(&k1), None);
    assert_eq!(s.get(&k2), Some(2));
    s.remove(&k1);
    assert_eq!(s.get(&k2), Some(2));
}

#[test]
fn a_lookup_reads_back_the_stored_block() {
    let mut s = SetBlocks::new();
    assert_eq!(get_set_block(&s, 3, -4, 1, 2, 3), UNSET_ID);
    check_and_set_block(&mut s, 3, -4, 1, 2, 3, 240);
    assert_eq!(get_set_block(&s, 3, -4, 1, 2, 3), 240);
    assert_eq!(get_set_block(&s, 3, -4, 1, 2, 4), UNSET_ID);
    check_and_set_block(&mut s, 3, -4, 1, 2, 3, 6);
    assert_eq!(get_set_block(&s, 3, -4, 1, 2, 3), 6);
    check_and_set_block(&mut s, 3, -4, 1, 2, 4, 1);
    assert_eq!(get_set_block(&s, 3, -4, 1, 2, 3), 6);
    remove_key(&mut s, 3, -4, 1, 2, 3);
    assert_eq!(get_set_block(&s, 3, -4, 1, 2, 3), UNSET_ID);
    assert_eq!(get_set_block(&s, 3, -4, 1, 2, 4), 1);
}

#[test]
fn colliding_positions_read_each_others_block() {
    let mut s = SetBlocks::new();
    check_and_set_block(&mut s, 1, 12, 3, 0, 0, 2);
    assert_eq!(get_set_block(&s, 11, 2, 3, 0, 0), 2);
}
