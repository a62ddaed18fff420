use minecraft_rust::input::{FallOutcome, InputAction, InputState, Key, MouseButton};

#[test]
fn a_new_player_walks_with_stone_selected() {
    let s = InputState::new();
    assert!(!s.flying && !s.mesh && !s.in_liquid && !s.touched_ground);
    assert!(s.keyboard_ctrl);
    assert_eq!(s.selected_block, 4);
    assert_eq!(s.keyboard_space_frames, 0);
}

#[test]
fn movement_keys_are_held_until_released() {
    let mut s = InputState::new();
    let start = s;
    assert_eq!(s.process_key(Key::W, true), InputAction::Nothing);
    assert!(s.keyboard_w);
    s.process_key(Key::W, false);
    assert_eq!(s, start);
    s.process_key(Key::A, true);
    s.process_key(Key::D, true);
    s.process_key(Key::S, true);
    assert!(s.keyboard_a && s.keyboard_d && s.keyboard_s);
    s.process_key(Key::A, false);
    assert!(!s.keyboard_a && s.keyboard_d);
}

#[test]
fn e_switches_flying() {
    let mut s = InputState::new();
    s.keyboard_ctrl = false;
    s.process_key(Key::E, true);
    assert!(s.flying);
    s.process_key(Key::E, false);
    assert!(s.flying);
    s.process_key(Key::E, true);
    assert!(!s.flying);
    assert!(s.keyboard_ctrl);
}

#[test]
fn number_keys_select_blocks() {
    let mut s = InputState::new();
    s.process_key(Key::Key1, true);
    assert_eq!(s.selected_block, 0);
    s.process_key(Key::Key7, true);
    assert_eq!(s.selected_block, 6);
    s.process_key(Key::Key3, true);
    assert_eq!(s.selected_block, 2);
    s.process_key(Key::Other, true);
    assert_eq!(s.selected_block, 2);
}

#[test]
fn f_breaks_a_block() {
    let mut s = InputState::new();
    assert_eq!(s.process_key(Key::F, true), InputAction::DestroyBlock);
    assert_eq!(s.process_key(Key::F, false), InputAction::DestroyBlock);
}

#[test]
fn space_jumps_only_from_the_ground() {
    let mut s = InputState::new();
    assert_eq!(s.process_key(Key::Space, true), InputAction::Nothing);
    assert!(!s.keyboard_space);
    s.touched_ground = true;
    assert_eq!(s.process_key(Key::Space, true), InputAction::Jump);
    assert!(s.keyboard_space && !s.touched_ground && !s.keyboard_ctrl);
}

#[test]
fn space_in_water_swims_and_sinks_again() {
    let mut s = InputState::new();
    s.in_liquid = true;
    assert_eq!(s.process_key(Key::Space, true), InputAction::Nothing);
    assert!(s.keyboard_space && !s.keyboard_ctrl);
    s.process_key(Key::Space, false);
    assert!(!s.keyboard_space && s.keyboard_ctrl);
}

#[test]
fn flying_rises_and_sinks_with_space_and_control() {
    let mut s = InputState::new();
    s.process_key(Key::E, true);
    s.keyboard_ctrl = false;
    s.process_key(Key::Space, true);
    assert!(s.keyboard_space);
    s.process_key(Key::Space, false);
    assert!(!s.keyboard_space && !s.keyboard_ctrl);
    s.process_key(Key::LControl, true);
    assert!(s.keyboard_ctrl);
    s.process_key(Key::LControl, false);
    assert!(!s.keyboard_ctrl);
}

#[test]
fn control_does_nothing_when_walking() {
    let mut s = InputState::new();
    s.keyboard_ctrl = false;
    s.process_key(Key::LControl, true);
    assert!(!s.keyboard_ctrl);
}

#[test]
fn a_held_mouse_button_acts_once() {
    let mut s = InputState::new();
    assert_eq!(s.process_mouse_button(MouseButton::Left, true), InputAction::DestroyBlock);
    assert_eq!(s.process_mouse_button(MouseButton::Left, true), InputAction::Nothing);
    assert_eq!(s.process_mouse_button(MouseButton::Right, true), InputAction::Nothing);
    assert_eq!(s.process_mouse_button(MouseButton::Left, false), InputAction::Nothing);
    assert_eq!(s.process_mouse_button(MouseButton::Right, true), InputAction::PlaceBlock);
    s.process_mouse_button(MouseButton::Right, false);
    assert_eq!(s.process_mouse_button(MouseButton::Other, true), InputAction::Nothing);
    assert!(!s.mouse_button_clicked);
}

#[test]
fn the_window_player_takes_every_event_as_a_press() {
    let mut s = InputState::new();
    assert_eq!(s.player_key(Key::Escape), InputAction::Close);
    assert_eq!(s.player_key(Key::Q), InputAction::ToggleMesh);
    assert!(s.mesh);
    s.player_key(Key::W);
    assert!(!s.keyboard_w);
    s.player_key(Key::A);
    assert!(s.keyboard_s);
    s.player_key(Key::S);
    assert!(s.keyboard_a);
    s.player_key(Key::Down);
    assert!(s.keyboard_d);
    s.player_key(Key::Key2);
    assert_eq!(s.selected_block, 1);
}

#[test]
fn the_window_player_clicks_once() {
    let mut s = InputState::new();
    assert_eq!(s.player_mouse_button(MouseButton::Right), InputAction::PlaceBlock);
    assert_eq!(s.player_mouse_button(MouseButton::Left), InputAction::Nothing);
    assert!(s.mouse_button_clicked);
}

#[test]
fn walking_into_water_and_out() {
    let mut s = InputState::new();
    s.touched_ground = true;
    assert!(!s.walk_moved(2));
    assert!(!s.walk_moved(3));
    assert!(s.walk_moved(1));
    assert!(s.in_liquid && s.touched_ground);
    assert!(s.walk_moved(0));
    assert!(!s.in_liquid && !s.touched_ground);
}

#[test]
fn a_jump_lasts_ten_steps() {
    let mut s = InputState::new();
    s.keyboard_space = true;
    for step in 0..10 {
        assert!(s.jump_begin());
        assert!(s.jump_moved(0));
        assert_eq!(s.keyboard_space_frames, step + 1);
    }
    assert!(!s.jump_begin());
    assert_eq!(s.keyboard_space_frames, 0);
    assert!(!s.keyboard_space && s.keyboard_ctrl);
}

#[test]
fn a_blocked_jump_ends() {
    let mut s = InputState::new();
    s.keyboard_space = true;
    assert!(s.jump_begin());
    assert!(!s.jump_moved(2));
    assert!(!s.keyboard_space && s.keyboard_ctrl);
    assert_eq!(s.keyboard_space_frames, 0);
}

#[test]
fn swimming_up_to_the_surface() {
    let mut s = InputState::new();
    s.in_liquid = true;
    s.keyboard_space = true;
    s.touched_ground = true;
    assert!(s.swim_up_moved(1));
    assert!(s.in_liquid && s.keyboard_space);
    assert!(s.swim_up_moved(0));
    assert!(!s.in_liquid && !s.keyboard_space && s.keyboard_ctrl && !s.touched_ground);
    assert!(!s.swim_up_moved(2));
}

#[test]
fn falling_until_landing() {
    let mut s = InputState::new();
    assert_eq!(s.fall_moved(0), FallOutcome::Moved { accelerate: true });
    assert_eq!(s.fall_moved(1), FallOutcome::Moved { accelerate: true });
    assert!(s.in_liquid);
    assert_eq!(s.fall_moved(1), FallOutcome::Moved { accelerate: false });
    assert_eq!(s.fall_moved(2), FallOutcome::Landed);
    assert!(s.touched_ground);
    assert_eq!(s.fall_moved(3), FallOutcome::Landed);
}

#[test]
fn flying_moves() {
    let mut s = InputState::new();
    assert!(s.fly_moved(1));
    assert!(s.in_liquid);
    assert!(s.fly_moved(0));
    assert!(!s.in_liquid);
    assert!(!s.fly_moved(2));
    assert!(!s.in_liquid);
}
