use tb_spaceinvaders::entity::{Enemy, InvaderSprites, Orientation};
use tb_spaceinvaders::geometry::{Color, Direction, Input, Rect};
use tb_spaceinvaders::screen;
use tb_spaceinvaders::draw::Drawable;
use tb_spaceinvaders::sprite::{
    destructive_collide, load_sprite, load_sprite_default, shield_sprite, solid_sprite,
};
use tb_spaceinvaders::state::State;

#[test]
pub fn test_shield_sprite_size() {
    let sprite = shield_sprite();
    assert_eq!(screen::SHIELD_SIZE_W, sprite.width());
    assert_eq!(screen::SHIELD_SIZE_H, sprite.height());
}

#[test]
fn load_sprite_parses_text_art() {
    let red = Color::rgb(200, 0, 0);
    let sprite = load_sprite_default("X.\n.X\n", red, 1).expect("valid picture");
    assert_eq!(sprite.data.len(), 2);
    assert_eq!(sprite.data[0].len(), 2);
    assert_eq!(sprite.data[0][0], red);
    assert_eq!(sprite.data[0][1], Color::invisible());
    assert_eq!(sprite.data[1][0], Color::invisible());
    assert_eq!(sprite.data[1][1], red);
    // A final row without a trailing line break still counts.
    let sprite2 = load_sprite_default("X.\n.X", red, 1).expect("valid picture");
    assert_eq!(sprite.data, sprite2.data);
}

#[test]
fn load_sprite_rejects_unknown_symbol() {
    let red = Color::rgb(200, 0, 0);
    let err = load_sprite("X.Z\n", red, 'X', '.', 1).expect_err("Z is not a pixel");
    assert_eq!(err.found, 'Z');
    assert_eq!(err.expected_on, 'X');
    assert_eq!(err.expected_off, '.');
}

#[test]
fn destructive_collide_erases_covered_on_pixels() {
    let mut sprite = shield_sprite();
    let rect = Rect::new(0, 0, 4, 4);
    let hit = destructive_collide(&rect, 0, 0, &mut sprite.data);
    assert!(hit);
    for r in 0..4 {
        for c in 0..4 {
            assert_eq!(sprite.data[r][c].a, 0);
        }
    }
    // Pixels outside the rectangle are untouched.
    assert!(sprite.data[4][4].a != 0);
    // A second pass over the same hole changes nothing.
    let hit2 = destructive_collide(&rect, 0, 0, &mut sprite.data);
    assert!(!hit2);
}

fn bank_with_marked_colors() -> InvaderSprites {
    let mut init = Vec::new();
    let mut flip = Vec::new();
    let mut hit = Vec::new();
    for i in 0..6u8 {
        init.push(solid_sprite(10, 16, Color::rgb(1, i, 0)));
        flip.push(solid_sprite(10, 16, Color::rgb(2, i, 0)));
    }
    for i in 0..4u8 {
        hit.push(solid_sprite(10, 16, Color::rgb(3, i, 0)));
    }
    InvaderSprites { init, flip, hit }
}

#[test]
fn invader_sprite_selection() {
    let bank = bank_with_marked_colors();
    let mut e = Enemy::new(44, 31, 2, 0, 12);
    // Idle: keyed by (row, orientation).
    let s = tb_spaceinvaders::entity::get_invader_sprite(&e, &bank);
    assert_eq!(s.data[0][0], Color::rgb(1, 2, 0));
    e.orientation = Orientation::FLIP;
    let s = tb_spaceinvaders::entity::get_invader_sprite(&e, &bank);
    assert_eq!(s.data[0][0], Color::rgb(2, 2, 0));
    // Dying: the hit band grows as the countdown approaches zero.
    for (dc, band) in [(29, 0u8), (25, 0), (24, 1), (17, 1), (16, 2), (9, 2), (8, 3), (1, 3)] {
        e.death_counter = Some(dc);
        let s = tb_spaceinvaders::entity::get_invader_sprite(&e, &bank);
        assert_eq!(s.data[0][0], Color::rgb(3, band, 0));
    }
}

#[test]
fn encode_decode_round_trip_mid_game() {
    let bank = InvaderSprites::solid();
    let mut state = State::new();
    let mut fire = Input::none();
    fire.button1 = true;
    // Play some frames so that shields are dented, lasers fly and a
    // countdown runs.
    state.enemy_shot_delay = 2;
    state.ship_laser = Some(tb_spaceinvaders::entity::Laser::new(50, 35, Direction::Up));
    for _ in 0..40 {
        state.update_mut(fire, &bank);
    }
    let record = state.encode_state();
    let back = tb_spaceinvaders::codec::decode_state(&record).expect("own record decodes");
    assert_eq!(back, state);
    // And the record re-encodes identically.
    assert_eq!(back.encode_state(), record);
}

#[test]
fn decode_rejects_malformed_records() {
    let state = State::new();
    let record = state.encode_state();
    assert!(tb_spaceinvaders::codec::decode_state(&Vec::new()).is_none());
    // Truncated record.
    let mut cut = record.clone();
    cut.pop();
    assert!(tb_spaceinvaders::codec::decode_state(&cut).is_none());
    // Trailing junk.
    let mut long = record.clone();
    long.push(0);
    assert!(tb_spaceinvaders::codec::decode_state(&long).is_none());
    // A boolean tag out of range (the ship laser presence slot).
    let mut bad = record.clone();
    bad[11] = 7;
    assert!(tb_spaceinvaders::codec::decode_state(&bad).is_none());
}

#[test]
fn draw_snapshot_matches_state() {
    let bank = InvaderSprites::solid();
    let ship_sprite = solid_sprite(10, 16, screen::ship_color());
    let state = State::new();
    let out = state.draw(&bank, &ship_sprite);
    // Backdrop (4 rects) + ship + 3 shields + 36 enemies, no lasers.
    assert_eq!(out.len(), 4 + 1 + 3 + 36);
    match &out[0] {
        Drawable::Rect { color, x, y, w, h } => {
            assert_eq!((*x, *y, *w, *h), (0, 0, 320, 210));
            assert_eq!(*color, Color::black());
        },
        _ => panic!("backdrop must be a rectangle"),
    }
    // With negative lives only the backdrop is drawn.
    let mut dead = State::new();
    dead.lives = -1;
    assert_eq!(dead.draw(&bank, &ship_sprite).len(), 4);
}

#[test]
fn game_size_is_fixed() {
    let mut sim = tb_spaceinvaders::state::SpaceInvaders;
    assert_eq!(sim.game_size(), (320, 210));
    let s = sim.new_game();
    assert_eq!(s.enemies.len(), 36);
}
