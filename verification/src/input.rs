use vstd::prelude::*;

verus! {

/// The keys the player uses.
#[derive(Clone, Copy, Debug, PartialEq, Eq, Structural)]
pub enum Key {
    Space,
    LControl,
    A,
    D,
    W,
    S,
    Q,
    E,
    F,
    Key1,
    Key2,
    Key3,
    Key4,
    Key5,
    Key6,
    Key7,
    Escape,
    Down,
    Other,
}

/// The mouse buttons.
#[derive(Clone, Copy, Debug, PartialEq, Eq, Structural)]
pub enum MouseButton {
    Left,
    Right,
    Other,
}

/// What the caller does after an input event.
#[derive(Clone, Copy, Debug, PartialEq, Eq, Structural)]
pub enum InputAction {
    Nothing,
    /// Break the block the player looks at.
    DestroyBlock,
    /// Place the selected block before the block the player looks at.
    PlaceBlock,
    /// Start a jump: the upward speed is set to its jump value.
    Jump,
    /// Close the game.
    Close,
    /// Switch between drawing faces and drawing edges.
    ToggleMesh,
}

/// The held keys and the modes of the player that are not positions or
/// speeds.
#[derive(Clone, Copy, Debug, PartialEq, Eq, Structural)]
pub struct InputState {
    pub mesh: bool,
    pub flying: bool,
    pub mouse_button_clicked: bool,
    pub keyboard_w: bool,
    pub keyboard_a: bool,
    pub keyboard_s: bool,
    pub keyboard_d: bool,
    pub keyboard_space: bool,
    pub keyboard_space_frames: usize,
    pub touched_ground: bool,
    pub keyboard_ctrl: bool,
    pub selected_block: u8,
    pub in_liquid: bool,
}

/// The block kind that a number key selects.
pub open spec fn selected_by(key: Key) -> Option<u8> {
    match key {
        Key::Key1 => Some(0u8),
        Key::Key2 => Some(1u8),
        Key::Key3 => Some(2u8),
        Key::Key4 => Some(3u8),
        Key::Key5 => Some(4u8),
        Key::Key6 => Some(5u8),
        Key::Key7 => Some(6u8),
        _ => None,
    }
}

/// The state and action after the space key went down: walking, it jumps
/// off the ground or swims up in water; flying, it rises.
pub open spec fn space_pressed(s: InputState) -> (InputState, InputAction) {
    if s.flying {
        (InputState { keyboard_space: true, ..s }, InputAction::Nothing)
    } else if s.in_liquid {
        (InputState { keyboard_space: true, touched_ground: false, keyboard_ctrl: false, ..s }, InputAction::Nothing)
    } else if s.touched_ground {
        (InputState { keyboard_space: true, keyboard_ctrl: false, touched_ground: false, ..s }, InputAction::Jump)
    } else {
        (s, InputAction::Nothing)
    }
}

/// The state after the space key went up while held: swimming, it sinks
/// again; flying, it stops rising.
pub open spec fn space_released(s: InputState) -> InputState {
    if !s.keyboard_space {
        s
    } else if s.in_liquid && !s.flying {
        InputState { keyboard_space: false, keyboard_ctrl: true, ..s }
    } else if s.flying {
        InputState { keyboard_space: false, keyboard_ctrl: false, ..s }
    } else {
        s
    }
}

/// The state and action after a key of the camera went down (`pressed`) or
/// up.
pub open spec fn key_transition(s: InputState, key: Key, pressed: bool) -> (InputState, InputAction) {
    match key {
        Key::Space => if pressed { space_pressed(s) } else { (space_released(s), InputAction::Nothing) },
        Key::LControl => if pressed {
            if s.flying { (InputState { keyboard_ctrl: true, ..s }, InputAction::Nothing) } else { (s, InputAction::Nothing) }
        } else if s.keyboard_ctrl && s.flying {
            (InputState { keyboard_ctrl: false, ..s }, InputAction::Nothing)
        } else {
            (s, InputAction::Nothing)
        },
        Key::A => (InputState { keyboard_a: pressed, ..s }, InputAction::Nothing),
        Key::D => (InputState { keyboard_d: pressed, ..s }, InputAction::Nothing),
        Key::W => (InputState { keyboard_w: pressed, ..s }, InputAction::Nothing),
        Key::S => (InputState { keyboard_s: pressed, ..s }, InputAction::Nothing),
        Key::E => if !pressed {
            (s, InputAction::Nothing)
        } else if !s.flying {
            (InputState { flying: true, ..s }, InputAction::Nothing)
        } else {
            (InputState { flying: false, keyboard_ctrl: true, ..s }, InputAction::Nothing)
        },
        Key::F => (s, InputAction::DestroyBlock),
        _ => match selected_by(key) {
            Some(b) => (InputState { selected_block: b, ..s }, InputAction::Nothing),
            None => (s, InputAction::Nothing),
        },
    }
}

/// The state and action after a mouse button went down (`pressed`) or up:
/// a first press of the left button breaks a block and of the right one
/// places a block; another button does nothing.
pub open spec fn button_transition(s: InputState, button: MouseButton, pressed: bool) -> (InputState, InputAction) {
    if pressed {
        if s.mouse_button_clicked {
            (s, InputAction::Nothing)
        } else {
            match button {
                MouseButton::Left => (InputState { mouse_button_clicked: true, ..s }, InputAction::DestroyBlock),
                MouseButton::Right => (InputState { mouse_button_clicked: true, ..s }, InputAction::PlaceBlock),
                MouseButton::Other => (s, InputAction::Nothing),
            }
        }
    } else {
        (InputState { mouse_button_clicked: false, ..s }, InputAction::Nothing)
    }
}

/// The state after the second pass over a key event of the window player:
/// the release of W, S, A, D, the space key and the control key.
pub open spec fn player_release(s: InputState, key: Key) -> InputState {
    match key {
        Key::W => InputState { keyboard_w: false, ..s },
        Key::S => InputState { keyboard_s: false, ..s },
        Key::A => InputState { keyboard_a: false, ..s },
        Key::D => InputState { keyboard_d: false, ..s },
        Key::Space => if s.in_liquid && !s.flying {
            InputState { keyboard_space: false, keyboard_ctrl: true, ..s }
        } else if s.flying {
            InputState { keyboard_space: false, keyboard_ctrl: false, ..s }
        } else {
            s
        },
        Key::LControl => if s.flying { InputState { keyboard_ctrl: false, ..s } } else { s },
        _ => s,
    }
}

/// The state and action after the first pass over a key event of the
/// window player, which takes every key event as a key going down.
pub open spec fn player_press(s: InputState, key: Key) -> (InputState, InputAction) {
    match key {
        Key::Escape => (s, InputAction::Close),
        Key::Q => (InputState { mesh: !s.mesh, ..s }, InputAction::ToggleMesh),
        Key::E => if !s.flying {
            (InputState { flying: true, ..s }, InputAction::Nothing)
        } else {
            (InputState { flying: false, keyboard_ctrl: true, ..s }, InputAction::Nothing)
        },
        Key::Space => space_pressed(s),
        Key::LControl => if s.flying { (InputState { keyboard_ctrl: true, ..s }, InputAction::Nothing) } else { (s, InputAction::Nothing) },
        Key::W => (InputState { keyboard_w: true, ..s }, InputAction::Nothing),
        Key::A => (InputState { keyboard_s: true, ..s }, InputAction::Nothing),
        Key::S => (InputState { keyboard_a: true, ..s }, InputAction::Nothing),
        Key::Down => (InputState { keyboard_d: true, ..s }, InputAction::Nothing),
        _ => match selected_by(key) {
            Some(b) => (InputState { selected_block: b, ..s }, InputAction::Nothing),
            None => (s, InputAction::Nothing),
        },
    }
}

/// The state and action after a key event of the window player: the first
/// pass, then the second.
pub open spec fn player_key_transition(s: InputState, key: Key) -> (InputState, InputAction) {
    let p = player_press(s, key);
    (player_release(p.0, key), p.1)
}

/// The state and action after a mouse button event of the window player,
/// which takes every button event as a button going down: a first event of
/// the left button breaks a block and of the right one places a block.
pub open spec fn player_button_transition(s: InputState, button: MouseButton) -> (InputState, InputAction) {
    if s.mouse_button_clicked {
        (s, InputAction::Nothing)
    } else {
        (InputState { mouse_button_clicked: true, ..s }, match button {
            MouseButton::Left => InputAction::DestroyBlock,
            MouseButton::Right => InputAction::PlaceBlock,
            MouseButton::Other => InputAction::Nothing,
        })
    }
}

/// A move whose target was found free (0) or in water (1) is made.
pub open spec fn move_allowed(move_location: usize) -> bool {
    move_location == 0 || move_location == 1
}

/// The state after a walking move was tried: when it is made, the player is
/// in water exactly when the target is water, and leaving water lifts it off
/// the ground.
pub open spec fn walked(s: InputState, move_location: usize) -> InputState {
    if !move_allowed(move_location) {
        s
    } else if move_location == 1 {
        InputState { in_liquid: true, ..s }
    } else if s.in_liquid {
        InputState { touched_ground: false, in_liquid: false, ..s }
    } else {
        InputState { in_liquid: false, ..s }
    }
}

/// How a fall went.
#[derive(Clone, Copy, Debug, PartialEq, Eq, Structural)]
pub enum FallOutcome {
    /// The player moved down; the fall speeds up (below its limit) when
    /// `accelerate`.
    Moved { accelerate: bool },
    /// The player stands on the ground; the fall speed is reset.
    Landed,
}

impl InputState {
    /// The state of a player who has just come into the world.
    pub fn new() -> (s: InputState)
        ensures
            s == (InputState {
                mesh: false,
                flying: false,
                mouse_button_clicked: false,
                keyboard_w: false,
                keyboard_a: false,
                keyboard_s: false,
                keyboard_d: false,
                keyboard_space: false,
                keyboard_space_frames: 0,
                touched_ground: false,
                keyboard_ctrl: true,
                selected_block: 4,
                in_liquid: false,
            }),
    {
        InputState {
            mesh: false,
            flying: false,
            mouse_button_clicked: false,
            keyboard_w: false,
            keyboard_a: false,
            keyboard_s: false,
            keyboard_d: false,
            keyboard_space: false,
            keyboard_space_frames: 0,
            touched_ground: false,
            keyboard_ctrl: true,
            selected_block: 4,
            in_liquid: false,
        }
    }

    /// Takes a key going down (`pressed`) or up; see `key_transition`.
    #[verifier::rlimit(50)]
    pub fn process_key(&mut self, key: Key, pressed: bool) -> (action: InputAction)
        ensures
            (*final(self), action) == key_transition(*old(self), key, pressed),
    {
        match key {
            Key::Space => self.space_key(pressed),
            Key::LControl => self.control_key(pressed),
            Key::A => {
                if pressed {
                    self.keyboard_a = true;
                } else if self.keyboard_a {
                    self.keyboard_a = false;
                }
                InputAction::Nothing
            },
            Key::D => {
                if pressed {
                    self.keyboard_d = true;
                } else if self.keyboard_d {
                    self.keyboard_d = false;
                }
                InputAction::Nothing
            },
            Key::W => {
                if pressed {
                    self.keyboard_w = true;
                } else if self.keyboard_w {
                    self.keyboard_w = false;
                }
                InputAction::Nothing
            },
            Key::S => {
                if pressed {
                    self.keyboard_s = true;
                } else if self.keyboard_s {
                    self.keyboard_s = false;
                }
                InputAction::Nothing
            },
            Key::E => {
                if pressed {
                    if !self.flying {
                        self.flying = true;
                    } else {
                        self.flying = false;
                        self.keyboard_ctrl = true;
                    }
                }
                InputAction::Nothing
            },
            Key::F => InputAction::DestroyBlock,
            Key::Key1 => {
                self.selected_block = 0;
                InputAction::Nothing
            },
            Key::Key2 => {
                self.selected_block = 1;
                InputAction::Nothing
            },
            Key::Key3 => {
                self.selected_block = 2;
                InputAction::Nothing
            },
            Key::Key4 => {
                self.selected_block = 3;
                InputAction::Nothing
            },
            Key::Key5 => {
                self.selected_block = 4;
                InputAction::Nothing
            },
            Key::Key6 => {
                self.selected_block = 5;
                InputAction::Nothing
            },
            Key::Key7 => {
                self.selected_block = 6;
                InputAction::Nothing
            },
            _ => InputAction::Nothing,
        }
    }

    fn space_key(&mut self, pressed: bool) -> (action: InputAction)
        ensures
            (*final(self), action) == key_transition(*old(self), Key::Space, pressed),
    {
        if pressed {
            if !self.flying {
                if self.in_liquid {
                    self.keyboard_space = true;
                    self.touched_ground = false;
                    self.keyboard_ctrl = false;
                }
                if self.touched_ground && !self.in_liquid {
                    self.keyboard_space = true;
                    self.keyboard_ctrl = false;
                    self.touched_ground = false;
                    return InputAction::Jump;
                }
            } else {
                self.keyboard_space = true;
            }
        } else if self.keyboard_space {
            if self.in_liquid && !self.flying {
                self.keyboard_space = false;
                self.keyboard_ctrl = true;
            } else if self.flying {
                self.keyboard_space = false;
                self.keyboard_ctrl = false;
            }
        }
        InputAction::Nothing
    }

    fn control_key(&mut self, pressed: bool) -> (action: InputAction)
        ensures
            (*final(self), action) == key_transition(*old(self), Key::LControl, pressed),
    {
        if pressed {
            if self.flying {
                self.keyboard_ctrl = true;
            }
        } else if self.keyboard_ctrl {
            if self.flying {
                self.keyboard_ctrl = false;
            }
        }
        InputAction::Nothing
    }

    fn player_press_key(&mut self, key: Key) -> (action: InputAction)
        ensures
            (*final(self), action) == player_press(*old(self), key),
    {
        match key {
            Key::Escape => InputAction::Close,
            Key::Q => {
                self.mesh = !self.mesh;
                InputAction::ToggleMesh
            },
            Key::E => {
                if !self.flying {
                    self.flying = true;
                } else {
                    self.flying = false;
                    self.keyboard_ctrl = true;
                }
                InputAction::Nothing
            },
            Key::Space => self.space_key(true),
            Key::LControl => self.control_key(true),
            Key::W => {
                self.keyboard_w = true;
                InputAction::Nothing
            },
            Key::A => {
                self.keyboard_s = true;
                InputAction::Nothing
            },
            Key::S => {
                self.keyboard_a = true;
                InputAction::Nothing
            },
            Key::Down => {
                self.keyboard_d = true;
                InputAction::Nothing
            },
            Key::Key1 | Key::Key2 | Key::Key3 | Key::Key4 | Key::Key5 | Key::Key6 | Key::Key7 => {
                self.process_key(key, true)
            },
            _ => InputAction::Nothing,
        }
    }

    fn player_release_key(&mut self, key: Key)
        ensures
            *final(self) == player_release(*old(self), key),
    {
        match key {
            Key::W => {
                self.keyboard_w = false;
            },
            Key::S => {
                self.keyboard_s = false;
            },
            Key::A => {
                self.keyboard_a = false;
            },
            Key::D => {
                self.keyboard_d = false;
            },
            Key::Space => {
                if self.in_liquid && !self.flying {
                    self.keyboard_space = false;
                    self.keyboard_ctrl = true;
                } else if self.flying {
                    self.keyboard_space = false;
                    self.keyboard_ctrl = false;
                }
            },
            Key::LControl => {
                if self.flying {
                    self.keyboard_ctrl = false;
                }
            },
            _ => {},
        }
    }

    /// Takes a key event of the window player; see `player_key_transition`.
    pub fn player_key(&mut self, key: Key) -> (action: InputAction)
        ensures
            (*final(self), action) == player_key_transition(*old(self), key),
    {
        let action = self.player_press_key(key);
        self.player_release_key(key);
        action
    }

    /// Takes a mouse button event of the window player; see
    /// `player_button_transition`.
    pub fn player_mouse_button(&mut self, button: MouseButton) -> (action: InputAction)
        ensures
            (*final(self), action) == player_button_transition(*old(self), button),
    {
        if !self.mouse_button_clicked {
            let action = match button {
                MouseButton::Left => InputAction::DestroyBlock,
                MouseButton::Right => InputAction::PlaceBlock,
                MouseButton::Other => InputAction::Nothing,
            };
            self.mouse_button_clicked = true;
            action
        } else {
            InputAction::Nothing
        }
    }

    /// Takes a mouse button going down (`pressed`) or up; see
    /// `button_transition`.
    pub fn process_mouse_button(&mut self, button: MouseButton, pressed: bool) -> (action: InputAction)
        ensures
            (*final(self), action) == button_transition(*old(self), button, pressed),
    {
        if pressed {
            if !self.mouse_button_clicked {
                match button {
                    MouseButton::Left => {
                        self.mouse_button_clicked = true;
                        InputAction::DestroyBlock
                    },
                    MouseButton::Right => {
                        self.mouse_button_clicked = true;
                        InputAction::PlaceBlock
                    },
                    MouseButton::Other => InputAction::Nothing,
                }
            } else {
                InputAction::Nothing
            }
        } else {
            if self.mouse_button_clicked {
                self.mouse_button_clicked = false;
            }
            InputAction::Nothing
        }
    }

    /// Records a walking move that was tried, and whether it is made; see
    /// `walked`.
    pub fn walk_moved(&mut self, move_location: usize) -> (moved: bool)
        ensures
            moved == move_allowed(move_location),
            *final(self) == walked(*old(self), move_location),
    {
        if move_location == 0 || move_location == 1 {
            if move_location == 1 {
                self.in_liquid = true;
            } else {
                if self.in_liquid {
                    self.touched_ground = false;
                }
                self.in_liquid = false;
            }
            true
        } else {
            false
        }
    }

    /// Starts a step of a jump: it goes on for ten steps, after which the
    /// jump ends and the player falls again. Returns whether the step is
    /// tried.
    pub fn jump_begin(&mut self) -> (go_on: bool)
        ensures
            go_on == (old(self).keyboard_space_frames < 10),
            *final(self) == (if go_on {
                InputState { keyboard_ctrl: false, ..*old(self) }
            } else {
                InputState { keyboard_ctrl: true, keyboard_space: false, keyboard_space_frames: 0, ..*old(self) }
            }),
    {
        self.keyboard_ctrl = false;
        if self.keyboard_space_frames < 10 {
            true
        } else {
            self.keyboard_space = false;
            self.keyboard_ctrl = true;
            self.keyboard_space_frames = 0;
            false
        }
    }

    /// Records a jump step that was tried: when it is made the step is
    /// counted and water is entered or left as in a walk; when it is blocked
    /// the jump ends. Returns whether it is made.
    pub fn jump_moved(&mut self, move_location: usize) -> (moved: bool)
        requires
            old(self).keyboard_space_frames < 10,
        ensures
            moved == move_allowed(move_location),
            *final(self) == (if moved {
                walked(InputState { keyboard_space_frames: (old(self).keyboard_space_frames + 1) as usize, ..*old(self) }, move_location)
            } else {
                InputState { keyboard_space: false, keyboard_ctrl: true, keyboard_space_frames: 0, ..*old(self) }
            }),
    {
        if move_location == 0 || move_location == 1 {
            self.keyboard_space_frames = self.keyboard_space_frames + 1;
            self.walk_moved(move_location)
        } else {
            self.keyboard_space = false;
            self.keyboard_ctrl = true;
            self.keyboard_space_frames = 0;
            false
        }
    }

    /// Records a swim upward that was tried: when it is made and reaches the
    /// surface, the player leaves the water and stops rising. Returns whether
    /// it is made.
    pub fn swim_up_moved(&mut self, move_location: usize) -> (moved: bool)
        ensures
            moved == move_allowed(move_location),
            *final(self) == (if !moved {
                *old(self)
            } else if move_location == 1 {
                InputState { in_liquid: true, ..*old(self) }
            } else {
                InputState {
                    touched_ground: if old(self).in_liquid { false } else { old(self).touched_ground },
                    keyboard_space: false,
                    keyboard_ctrl: true,
                    in_liquid: false,
                    ..*old(self)
                }
            }),
    {
        if move_location == 0 || move_location == 1 {
            if move_location == 1 {
                self.in_liquid = true;
            } else {
                if self.in_liquid {
                    self.touched_ground = false;
                }
                self.keyboard_space = false;
                self.keyboard_ctrl = true;
                self.in_liquid = false;
            }
            true
        } else {
            false
        }
    }

    /// Records a fall that was tried: when it is made the player is in water
    /// exactly when the target is water, and the fall speeds up unless the
    /// player was in water; otherwise the player has landed.
    pub fn fall_moved(&mut self, move_location: usize) -> (r: FallOutcome)
        ensures
            r == (if move_allowed(move_location) {
                FallOutcome::Moved { accelerate: !old(self).in_liquid }
            } else {
                FallOutcome::Landed
            }),
            *final(self) == (if move_allowed(move_location) {
                InputState { in_liquid: move_location == 1, ..*old(self) }
            } else {
                InputState { touched_ground: true, ..*old(self) }
            }),
    {
        if move_location == 0 || move_location == 1 {
            let accelerate = !self.in_liquid;
            self.in_liquid = move_location == 1;
            FallOutcome::Moved { accelerate }
        } else {
            self.touched_ground = true;
            FallOutcome::Landed
        }
    }

    /// Records a flying move up or down that was tried: when it is made the
    /// player is in water exactly when the target is water. Returns whether
    /// it is made.
    pub fn fly_moved(&mut self, move_location: usize) -> (moved: bool)
        ensures
            moved == move_allowed(move_location),
            *final(self) == (if moved { InputState { in_liquid: move_location == 1, ..*old(self) } } else { *old(self) }),
    {
        if move_location == 0 || move_location == 1 {
            self.in_liquid = move_location == 1;
            true
        } else {
            false
        }
    }
}


/// Whether the movement key `key` (W, A, S or D) is held in `s`.
pub open spec fn movement_held(s: InputState, key: Key) -> bool {
    match key {
        Key::W => s.keyboard_w,
        Key::A => s.keyboard_a,
        Key::S => s.keyboard_s,
        Key::D => s.keyboard_d,
        _ => false,
    }
}

/// A movement key is held from the event that presses it to the event that
/// releases it, and pressing and then releasing it leaves the state as it
/// was before it was held.
pub proof fn lemma_movement_key_round_trip(s: InputState, key: Key)
    requires
        key == Key::W || key == Key::A || key == Key::S || key == Key::D,
    ensures
        movement_held(key_transition(s, key, true).0, key),
        !movement_held(key_transition(s, key, false).0, key),
        key_transition(s, key, true).1 == InputAction::Nothing,
        !movement_held(s, key) ==> key_transition(key_transition(s, key, true).0, key, false).0 == s,
{
}

/// A press of E switches flying on and off, so two presses leave it as it
/// was; a release of E changes nothing.
pub proof fn lemma_fly_toggle(s: InputState)
    ensures
        key_transition(s, Key::E, true).0.flying == !s.flying,
        key_transition(key_transition(s, Key::E, true).0, Key::E, true).0.flying == s.flying,
        key_transition(s, Key::E, false).0 == s,
{
}

/// A number key from 1 to 7 selects the block kinds 0 to 6.
pub proof fn lemma_number_keys_select(s: InputState)
    ensures
        key_transition(s, Key::Key1, true).0.selected_block == 0,
        key_transition(s, Key::Key2, true).0.selected_block == 1,
        key_transition(s, Key::Key3, true).0.selected_block == 2,
        key_transition(s, Key::Key4, true).0.selected_block == 3,
        key_transition(s, Key::Key5, true).0.selected_block == 4,
        key_transition(s, Key::Key6, true).0.selected_block == 5,
        key_transition(s, Key::Key7, true).0.selected_block == 6,
{
}

/// A held mouse button acts once: the first press of the left button breaks
/// a block and of the right one places a block; any press after it does
/// nothing until a release, after which a press acts again.
pub proof fn lemma_click_once(s: InputState, button: MouseButton, other: MouseButton)
    requires
        !s.mouse_button_clicked,
        button != MouseButton::Other,
    ensures
        button_transition(s, button, true).1 == (if button == MouseButton::Left {
            InputAction::DestroyBlock
        } else {
            InputAction::PlaceBlock
        }),
        button_transition(button_transition(s, button, true).0, other, true).1 == InputAction::Nothing,
        button_transition(button_transition(button_transition(s, button, true).0, other, false).0, button, true).1
            == button_transition(s, button, true).1,
{
}

/// The control key only lowers a flying player: walking, pressing or
/// releasing it changes nothing (so a tap leaves the state as it was);
/// flying, it is held from the press to the release and nothing else
/// changes. It never asks for an action.
pub proof fn lemma_control_only_when_flying(s: InputState, pressed: bool)
    ensures
        key_transition(s, Key::LControl, pressed).1 == InputAction::Nothing,
        !s.flying ==> key_transition(s, Key::LControl, pressed).0 == s,
        !s.flying ==> key_transition(key_transition(s, Key::LControl, true).0, Key::LControl, false).0 == s,
        !s.flying ==> player_key_transition(s, Key::LControl).0 == s,
        s.flying ==> key_transition(s, Key::LControl, pressed).0.keyboard_ctrl == pressed,
        s.flying ==> (InputState { keyboard_ctrl: s.keyboard_ctrl, ..key_transition(s, Key::LControl, pressed).0 }) == s,
        s.flying ==> !player_key_transition(s, Key::LControl).0.keyboard_ctrl,
{
}

/// The space key asks for a jump exactly when the player walks on the
/// ground out of water, and for nothing else. Flying, a press and a release
/// rise and stop again, leaving the control key up; swimming, they swim up
/// off the ground and then sink again.
pub proof fn lemma_space_key(s: InputState)
    ensures
        (key_transition(s, Key::Space, true).1 == InputAction::Jump) == (!s.flying && !s.in_liquid && s.touched_ground),
        key_transition(s, Key::Space, true).1 == InputAction::Jump || key_transition(s, Key::Space, true).1 == InputAction::Nothing,
        key_transition(s, Key::Space, false).1 == InputAction::Nothing,
        (s.flying || s.in_liquid || s.touched_ground) ==> key_transition(s, Key::Space, true).0.keyboard_space,
        s.flying ==> key_transition(key_transition(s, Key::Space, true).0, Key::Space, false).0
            == (InputState { keyboard_space: false, keyboard_ctrl: false, ..s }),
        !s.flying && s.in_liquid ==> key_transition(key_transition(s, Key::Space, true).0, Key::Space, false).0
            == (InputState { keyboard_space: false, keyboard_ctrl: true, touched_ground: false, ..s }),
        !s.keyboard_space ==> key_transition(s, Key::Space, false).0 == s,
{
}

} // verus!
