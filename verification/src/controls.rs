use vstd::prelude::*;
use crate::bms_loader::Key;

verus! {

/// What a key of the keyboard asks for when it goes down.
#[derive(Debug, Copy, Clone, PartialEq, Eq, Structural)]
pub enum Command {
    /// Scroll faster.
    SpeedUp,
    /// Scroll slower.
    SpeedDown,
    /// Stop playing.
    Cancel,
    /// The key of a lane went down.
    Press(Key),
    /// Nothing.
    Ignore,
}

/// The code of the arrow that points up.
pub const KEY_UP: i32 = 0x4000_0052;

/// The code of the arrow that points down.
pub const KEY_DOWN: i32 = 0x4000_0051;

/// The code of the escape key.
pub const KEY_ESCAPE: i32 = 0x1b;

/// The code of the space bar.
pub const KEY_SPACE: i32 = 0x20;

/// The lane that a key of the keyboard plays, by the key's code: `a` the
/// turntable; `z` and `j` the first key, `s` the second, `x` and `k` the
/// third, `d` the fourth, `c` and `l` the fifth, `f` the sixth, `v` and `;`
/// the seventh.
pub open spec fn lane_of_code(code: i32) -> Option<Key> {
    if code == 0x61 {
        Some(Key::P1_SCRATCH)
    } else if code == 0x7a || code == 0x6a {
        Some(Key::P1_KEY1)
    } else if code == 0x73 {
        Some(Key::P1_KEY2)
    } else if code == 0x78 || code == 0x6b {
        Some(Key::P1_KEY3)
    } else if code == 0x64 {
        Some(Key::P1_KEY4)
    } else if code == 0x63 || code == 0x6c {
        Some(Key::P1_KEY5)
    } else if code == 0x66 {
        Some(Key::P1_KEY6)
    } else if code == 0x76 || code == 0x3b {
        Some(Key::P1_KEY7)
    } else {
        None
    }
}

/// The lane that a key of the keyboard plays.
#[verifier::when_used_as_spec(lane_of_code)]
pub fn key_mapping(code: i32) -> (lane: Option<Key>)
    ensures
        lane == lane_of_code(code),
        match lane {
            Some(key) => key.is_visible(),
            None => true,
        },
{
    if code == 0x61 {
        Some(Key::P1_SCRATCH)
    } else if code == 0x7a || code == 0x6a {
        Some(Key::P1_KEY1)
    } else if code == 0x73 {
        Some(Key::P1_KEY2)
    } else if code == 0x78 || code == 0x6b {
        Some(Key::P1_KEY3)
    } else if code == 0x64 {
        Some(Key::P1_KEY4)
    } else if code == 0x63 || code == 0x6c {
        Some(Key::P1_KEY5)
    } else if code == 0x66 {
        Some(Key::P1_KEY6)
    } else if code == 0x76 || code == 0x3b {
        Some(Key::P1_KEY7)
    } else {
        None
    }
}

/// What a key of the keyboard asks for when it goes down: the arrows
/// change the speed, escape stops, the space bar does nothing, and any
/// other key presses its lane if it has one.
pub open spec fn command_of_code(code: i32) -> Command {
    if code == KEY_UP {
        Command::SpeedUp
    } else if code == KEY_DOWN {
        Command::SpeedDown
    } else if code == KEY_ESCAPE {
        Command::Cancel
    } else if code == KEY_SPACE {
        Command::Ignore
    } else {
        match lane_of_code(code) {
            Some(key) => Command::Press(key),
            None => Command::Ignore,
        }
    }
}

/// What a key of the keyboard asks for when it goes down.
pub fn key_command(code: i32) -> (command: Command)
    ensures
        command == command_of_code(code),
{
    if code == KEY_UP {
        Command::SpeedUp
    } else if code == KEY_DOWN {
        Command::SpeedDown
    } else if code == KEY_ESCAPE {
        Command::Cancel
    } else if code == KEY_SPACE {
        Command::Ignore
    } else {
        match key_mapping(code) {
            Some(key) => Command::Press(key),
            None => Command::Ignore,
        }
    }
}

/// The lane whose key went up with a key of the keyboard: that of the
/// key, but for the arrows, which let go of nothing.
pub fn released_lane(code: i32) -> (lane: Option<Key>)
    ensures
        lane == if code == KEY_UP || code == KEY_DOWN {
            None
        } else {
            lane_of_code(code)
        },
{
    if code == KEY_UP || code == KEY_DOWN {
        None
    } else {
        key_mapping(code)
    }
}

} // verus!
