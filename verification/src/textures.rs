use vstd::prelude::*;
use crate::bms_loader::Key;
use crate::bms_player::Judge;

verus! {

/// The textures that the screen is made of.
#[allow(non_camel_case_types)]
#[derive(Debug, Copy, Clone, Hash, PartialEq, Eq, Structural)]
pub enum TextureLabel {
    BACKGROUND,
    LANE_BG,
    NOTE_BLUE,
    NOTE_RED,
    NOTE_WHITE,
    JUDGE_PERFECT,
    JUDGE_GREAT,
    JUDGE_GOOD,
    JUDGE_BAD,
    JUDGE_POOR,
    RED_BEAM,
    WHITE_BEAM,
    BLUE_BEAM,
}

/// The colour of a lane: white for the odd keys, blue for the even keys,
/// red for the turntable.
#[derive(Debug, Copy, Clone, PartialEq, Eq, Structural)]
pub enum LaneColor {
    White,
    Blue,
    Red,
}

/// The colour of the lane of a key; none for a lane that is not shown.
pub open spec fn lane_color_spec(key: Key) -> Option<LaneColor> {
    match key {
        Key::P1_KEY1 | Key::P1_KEY3 | Key::P1_KEY5 | Key::P1_KEY7 => Some(LaneColor::White),
        Key::P1_KEY2 | Key::P1_KEY4 | Key::P1_KEY6 => Some(LaneColor::Blue),
        Key::P1_SCRATCH => Some(LaneColor::Red),
        _ => None,
    }
}

/// The colour of the lane of a key.
#[verifier::when_used_as_spec(lane_color_spec)]
pub fn lane_color(key: Key) -> (color: Option<LaneColor>)
    ensures
        color == lane_color_spec(key),
        color.is_some() == key.is_visible(),
{
    match key {
        Key::P1_KEY1 | Key::P1_KEY3 | Key::P1_KEY5 | Key::P1_KEY7 => Some(LaneColor::White),
        Key::P1_KEY2 | Key::P1_KEY4 | Key::P1_KEY6 => Some(LaneColor::Blue),
        Key::P1_SCRATCH => Some(LaneColor::Red),
        _ => None,
    }
}

/// The texture of the notes of a lane; none for a lane that is not shown.
pub fn note_texture(key: Key) -> (label: Option<TextureLabel>)
    ensures
        label == match lane_color_spec(key) {
            Some(LaneColor::White) => Some(TextureLabel::NOTE_WHITE),
            Some(LaneColor::Blue) => Some(TextureLabel::NOTE_BLUE),
            Some(LaneColor::Red) => Some(TextureLabel::NOTE_RED),
            None => None,
        },
{
    match lane_color(key) {
        Some(LaneColor::White) => Some(TextureLabel::NOTE_WHITE),
        Some(LaneColor::Blue) => Some(TextureLabel::NOTE_BLUE),
        Some(LaneColor::Red) => Some(TextureLabel::NOTE_RED),
        None => None,
    }
}

/// The texture of the beam that shows that the key of a lane is down; none
/// for a lane that is not shown.
pub fn beam_texture(key: Key) -> (label: Option<TextureLabel>)
    ensures
        label == match lane_color_spec(key) {
            Some(LaneColor::White) => Some(TextureLabel::WHITE_BEAM),
            Some(LaneColor::Blue) => Some(TextureLabel::BLUE_BEAM),
            Some(LaneColor::Red) => Some(TextureLabel::RED_BEAM),
            None => None,
        },
{
    match lane_color(key) {
        Some(LaneColor::White) => Some(TextureLabel::WHITE_BEAM),
        Some(LaneColor::Blue) => Some(TextureLabel::BLUE_BEAM),
        Some(LaneColor::Red) => Some(TextureLabel::RED_BEAM),
        None => None,
    }
}

/// The texture that shows a grade.
pub open spec fn judge_texture_spec(judge: Judge) -> TextureLabel {
    match judge {
        Judge::PGREAT => TextureLabel::JUDGE_PERFECT,
        Judge::GREAT => TextureLabel::JUDGE_GREAT,
        Judge::GOOD => TextureLabel::JUDGE_GOOD,
        Judge::BAD => TextureLabel::JUDGE_BAD,
        Judge::POOR => TextureLabel::JUDGE_POOR,
    }
}

/// The texture that shows a grade.
#[verifier::when_used_as_spec(judge_texture_spec)]
pub fn judge_texture(judge: Judge) -> (label: TextureLabel)
    ensures
        label == judge_texture_spec(judge),
{
    match judge {
        Judge::PGREAT => TextureLabel::JUDGE_PERFECT,
        Judge::GREAT => TextureLabel::JUDGE_GREAT,
        Judge::GOOD => TextureLabel::JUDGE_GOOD,
        Judge::BAD => TextureLabel::JUDGE_BAD,
        Judge::POOR => TextureLabel::JUDGE_POOR,
    }
}

} // verus!
