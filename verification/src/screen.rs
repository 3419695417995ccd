//! The fixed layout and timing configuration of the playfield: one set of
//! process-wide constants consumed at construction time.

use vstd::prelude::*;
use crate::geometry::Color;

verus! {

pub const GAME_SIZE_W: i32 = 320;
pub const GAME_SIZE_H: i32 = 210;
pub const SKY_TO_GROUND: i32 = 195;

pub const GAME_DOT_LEFT: i32 = 66;
pub const GAME_DOT_RIGHT: i32 = 244;
pub const GAME_DOT_SIZE_W: i32 = 4;
pub const GAME_DOT_SIZE_H: i32 = 5;
pub const SHIP_SIZE_W: i32 = 16;
pub const SHIP_SIZE_H: i32 = 10;
pub const SHIELD_SIZE_W: i32 = 16;
pub const SHIELD_SIZE_H: i32 = 18;
pub const SHIELD1_POS_X: i32 = 84;
pub const SHIELD1_POS_Y: i32 = 157;
pub const SHIELD2_POS_X: i32 = 148;
pub const SHIELD2_POS_Y: i32 = 157;
pub const SHIELD3_POS_X: i32 = 212;
pub const SHIELD3_POS_Y: i32 = 157;

pub const ENEMY_SIZE_W: i32 = 16;
pub const ENEMY_SIZE_H: i32 = 10;
pub const ENEMY_START_POS_X: i32 = 44;
pub const ENEMY_START_POS_Y: i32 = 31;
pub const ENEMY_END_POS_X: i32 = 98;
pub const ENEMIES_PER_ROW: i32 = 6;
pub const ENEMIES_NUM: i32 = 6;
pub const ENEMY_Y_SPACE: i32 = 8;
pub const ENEMY_X_SPACE: i32 = 16;
pub const ENEMY_DELTA: i32 = 2;
pub const ENEMY_PERIOD: i32 = 32;

pub const DEATH_TIME: i32 = 29;
pub const DEATH_HIT_1: i32 = 5;
pub const DEATH_HIT_N: i32 = 8;

pub const LASER_SIZE_W: i32 = 2;
pub const LASER_SIZE_H1: i32 = 11;

pub const SHIP_SPEED: i32 = 3;
pub const LASER_SPEED: i32 = 3;
pub const ENEMY_SHOT_DELAY: i32 = 50;
pub const SCORE_PER_ENEMY: i32 = 10;

/// Leftmost ship position of the travel corridor:
/// `GAME_DOT_LEFT + GAME_DOT_SIZE_W / 2`.
pub const SHIP_LIMIT_X1: i32 = 68;

/// Rightmost ship position of the travel corridor:
/// `GAME_DOT_RIGHT + GAME_DOT_SIZE_W / 2 - SHIP_SIZE_W`.
pub const SHIP_LIMIT_X2: i32 = 230;

pub open spec fn spec_ship_color() -> Color {
    Color::spec_rgb(35, 129, 59)
}

/// The ship's fill color.
#[verifier::when_used_as_spec(spec_ship_color)]
pub fn ship_color() -> (c: Color)
    ensures
        c == spec_ship_color(),
{
    Color::rgb(35, 129, 59)
}

pub open spec fn spec_enemy_color() -> Color {
    Color::spec_rgb(132, 132, 36)
}

/// The enemies' fill color.
#[verifier::when_used_as_spec(spec_enemy_color)]
pub fn enemy_color() -> (c: Color)
    ensures
        c == spec_enemy_color(),
{
    Color::rgb(132, 132, 36)
}

pub open spec fn spec_laser_color() -> Color {
    Color::spec_rgb(144, 144, 144)
}

/// The lasers' fill color.
#[verifier::when_used_as_spec(spec_laser_color)]
pub fn laser_color() -> (c: Color)
    ensures
        c == spec_laser_color(),
{
    Color::rgb(144, 144, 144)
}

pub open spec fn spec_shield_color() -> Color {
    Color::spec_rgb(172, 80, 48)
}

/// The shields' pixel color.
#[verifier::when_used_as_spec(spec_shield_color)]
pub fn shield_color() -> (c: Color)
    ensures
        c == spec_shield_color(),
{
    Color::rgb(172, 80, 48)
}

pub open spec fn spec_ground_color() -> Color {
    Color::spec_rgb(76, 80, 28)
}

/// The ground strip's color.
#[verifier::when_used_as_spec(spec_ground_color)]
pub fn ground_color() -> (c: Color)
    ensures
        c == spec_ground_color(),
{
    Color::rgb(76, 80, 28)
}

pub open spec fn spec_left_dot_color() -> Color {
    Color::spec_rgb(64, 124, 64)
}

/// The left corridor marker's color.
#[verifier::when_used_as_spec(spec_left_dot_color)]
pub fn left_dot_color() -> (c: Color)
    ensures
        c == spec_left_dot_color(),
{
    Color::rgb(64, 124, 64)
}

pub open spec fn spec_right_dot_color() -> Color {
    Color::spec_rgb(160, 132, 68)
}

/// The right corridor marker's color.
#[verifier::when_used_as_spec(spec_right_dot_color)]
pub fn right_dot_color() -> (c: Color)
    ensures
        c == spec_right_dot_color(),
{
    Color::rgb(160, 132, 68)
}

} // verus!
