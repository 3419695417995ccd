use tb_spaceinvaders::entity::{InvaderSprites, Laser};
use tb_spaceinvaders::geometry::{Direction, Input};
use tb_spaceinvaders::screen;
use tb_spaceinvaders::sprite::shield_sprite;
use tb_spaceinvaders::state::State;

fn no_input() -> Input {
    Input::none()
}

fn fire_input() -> Input {
    let mut i = Input::none();
    i.button1 = true;
    i
}

#[test]
pub fn test_create_new_state() {
    let state = State::new();
    assert_eq!(None, state.ship_laser);
}

#[test]
fn new_game_has_full_roster_and_shields() {
    let state = State::new();
    assert_eq!(state.enemies.len(), 36);
    assert_eq!(state.shields.len(), 3);
    assert_eq!(state.enemy_lasers.len(), 0);
    assert_eq!(state.ship_laser, None);
    assert_eq!(state.lives, 0);
    assert_eq!(state.score, 0);
    assert_eq!(state.enemy_shot_delay, 50);
    // Shields start undamaged: identical to the canonical shield bitmap at
    // their fixed posts.
    let base = shield_sprite();
    assert_eq!(state.shields[0].data, base.data);
    assert_eq!((state.shields[0].x, state.shields[0].y), (84, 157));
    assert_eq!((state.shields[1].x, state.shields[1].y), (148, 157));
    assert_eq!((state.shields[2].x, state.shields[2].y), (212, 157));
    // Identity equals roster index, row/col follow the grid.
    for (i, e) in state.enemies.iter().enumerate() {
        assert_eq!(e.id as usize, i);
        assert_eq!(e.row, (i / 6) as i32);
        assert_eq!(e.col, (i % 6) as i32);
        assert!(e.alive);
        assert_eq!(e.death_counter, None);
    }
}

#[test]
fn fire_spawns_one_laser_centered_above_ship() {
    let bank = InvaderSprites::solid();
    let mut state = State::new();
    state.update_mut(fire_input(), &bank);
    let laser = state.ship_laser.expect("a laser must spawn");
    // Spawned at the ship's horizontal center, on its top edge, then moved
    // three one-pixel sub-steps upward within the same frame.
    assert_eq!(laser.x, screen::SHIP_LIMIT_X1 + screen::SHIP_SIZE_W / 2);
    assert_eq!(laser.y, screen::SKY_TO_GROUND - screen::SHIP_SIZE_H - 3);
    assert_eq!(laser.movement, Direction::Up);
    assert_eq!(laser.t, 0);
    assert!(laser.is_visible());
}

#[test]
fn spawning_while_laser_alive_is_refused() {
    let bank = InvaderSprites::solid();
    let mut state = State::new();
    // Plant a laser far from everything, then hold fire.
    state.ship_laser = Some(Laser::new(10, 100, Direction::Up));
    state.update_mut(fire_input(), &bank);
    let laser = state.ship_laser.expect("the old laser is still there");
    // The old laser only moved; no fresh laser appeared at the ship.
    assert_eq!(laser.x, 10);
    assert_eq!(laser.y, 97);
}

#[test]
fn laser_hit_starts_countdown_and_scores_once_done() {
    let bank = InvaderSprites::solid();
    let mut state = State::new();
    // A laser overlapping enemy 0's pixels (enemy 0 sits at (44, 31)).
    state.ship_laser = Some(Laser::new(50, 35, Direction::Up));
    state.update_mut(no_input(), &bank);
    // The laser was consumed by the pre-movement collision pass and the
    // countdown started (29), then the animation tick took it to 28.
    assert_eq!(state.ship_laser, None);
    assert_eq!(state.enemies[0].death_counter, Some(28));
    assert!(state.enemies[0].alive);
    assert_eq!(state.score, 0);
    for _ in 0..27 {
        state.update_mut(no_input(), &bank);
    }
    assert_eq!(state.enemies[0].death_counter, Some(1));
    assert_eq!(state.score, 0);
    state.update_mut(no_input(), &bank);
    // The frame the countdown completes: enemy removed, exactly +10.
    assert_eq!(state.enemies[0].death_counter, None);
    assert!(!state.enemies[0].alive);
    assert_eq!(state.score, 10);
    // A dying enemy hit again absorbs the laser without a new countdown.
    let mut state2 = State::new();
    state2.ship_laser = Some(Laser::new(50, 35, Direction::Up));
    state2.update_mut(no_input(), &bank);
    state2.ship_laser = Some(Laser::new(50, 35, Direction::Up));
    state2.update_mut(no_input(), &bank);
    assert_eq!(state2.ship_laser, None);
    assert_eq!(state2.enemies[0].death_counter, Some(27));
}

#[test]
fn enemy_laser_below_playfield_is_removed() {
    let bank = InvaderSprites::solid();
    let mut state = State::new();
    let mut l = Laser::new(10, 209, Direction::Down);
    l.t = 0;
    state.enemy_lasers.push(l);
    state.update_mut(no_input(), &bank);
    // 209 + 3 = 212 > 210: cleaned up in the same frame.
    assert_eq!(state.enemy_lasers.len(), 0);
}

#[test]
fn ship_clamps_exactly_at_corridor_bounds() {
    let bank = InvaderSprites::solid();
    let mut state = State::new();
    state.ship.x = screen::SHIP_LIMIT_X1;
    let mut left = Input::none();
    left.left = true;
    state.update_mut(left, &bank);
    assert_eq!(state.ship.x, screen::SHIP_LIMIT_X1);
    state.ship.x = screen::SHIP_LIMIT_X2 - 1;
    let mut right = Input::none();
    right.right = true;
    state.update_mut(right, &bank);
    assert_eq!(state.ship.x, screen::SHIP_LIMIT_X2);
    state.update_mut(right, &bank);
    assert_eq!(state.ship.x, screen::SHIP_LIMIT_X2);
    // Left wins when both directions are held.
    state.ship.x = 100;
    let mut both = Input::none();
    both.left = true;
    both.right = true;
    state.update_mut(both, &bank);
    assert_eq!(state.ship.x, 97);
}

#[test]
fn blink_parity_is_t_mod_4() {
    let mut l = Laser::new(0, 0, Direction::Down);
    for t in 0..12 {
        l.t = t;
        assert_eq!(l.is_visible(), t % 4 < 2);
    }
}

#[test]
fn volley_fires_one_laser_per_living_column() {
    let bank = InvaderSprites::solid();
    let mut state = State::new();
    state.enemy_shot_delay = 1;
    state.update_mut(no_input(), &bank);
    // Every column still has a living member: six lasers in one volley.
    assert_eq!(state.enemy_lasers.len(), 6);
    assert_eq!(state.enemy_shot_delay, 50);
    for l in &state.enemy_lasers {
        assert_eq!(l.movement, Direction::Down);
        assert_eq!(l.t, 0);
    }
}

#[test]
fn active_weapons_are_bottom_of_each_column() {
    let mut state = State::new();
    let ids = state.active_weapon_enemy_ids();
    // The frontmost (greatest-row) living enemy of each column.
    assert_eq!(ids, vec![30, 31, 32, 33, 34, 35]);
    // Kill the bottom of column 2: its replacement is the row above.
    state.enemies[32].alive = false;
    let ids = state.active_weapon_enemy_ids();
    assert_eq!(ids, vec![30, 31, 26, 33, 34, 35]);
}

#[test]
fn enemy_identity_stable_across_frames() {
    let bank = InvaderSprites::solid();
    let mut state = State::new();
    let before: Vec<(i32, i32, u32)> =
        state.enemies.iter().map(|e| (e.row, e.col, e.id)).collect();
    for _ in 0..100 {
        state.update_mut(fire_input(), &bank);
    }
    let after: Vec<(i32, i32, u32)> =
        state.enemies.iter().map(|e| (e.row, e.col, e.id)).collect();
    assert_eq!(before, after);
}

#[test]
fn formation_marches_in_lock_step_and_reverses() {
    let bank = InvaderSprites::solid();
    let mut state = State::new();
    let x0: Vec<i32> = state.enemies.iter().map(|e| e.x).collect();
    // The phase counter starts at 32; the first move happens on frame 33.
    for _ in 0..32 {
        state.update_mut(no_input(), &bank);
    }
    for (e, x) in state.enemies.iter().zip(&x0) {
        assert_eq!(e.x, *x);
    }
    state.update_mut(no_input(), &bank);
    for (e, x) in state.enemies.iter().zip(&x0) {
        assert_eq!(e.x, *x + 2);
    }
}

fn count_on(s: &tb_spaceinvaders::sprite::SpriteData) -> usize {
    s.data
        .iter()
        .map(|row| row.iter().filter(|c| c.a != 0).count())
        .sum()
}

#[test]
fn shields_erode_monotonically() {
    let bank = InvaderSprites::solid();
    let mut state = State::new();
    let full = count_on(&state.shields[0]);
    assert_eq!(full, 16 * 18);
    // An enemy laser just above shield 1 erodes it and is consumed.
    state.enemy_lasers.push(Laser::new(84, 150, Direction::Down));
    state.update_mut(no_input(), &bank);
    assert_eq!(state.enemy_lasers.len(), 0);
    let after = count_on(&state.shields[0]);
    assert!(after < full);
    // Further frames never bring pixels back.
    let mut last = after;
    for _ in 0..10 {
        state.update_mut(no_input(), &bank);
        let now = count_on(&state.shields[0]);
        assert!(now <= last);
        last = now;
    }
    // The other shields were not touched.
    assert_eq!(count_on(&state.shields[1]), full);
    assert_eq!(count_on(&state.shields[2]), full);
}

#[test]
fn player_laser_erodes_shield_from_below() {
    let bank = InvaderSprites::solid();
    let mut state = State::new();
    let full = count_on(&state.shields[1]);
    // Fired from under shield 2 (anchored at (148, 157), 16 by 18).
    state.ship_laser = Some(Laser::new(150, 176, Direction::Up));
    state.update_mut(no_input(), &bank);
    assert_eq!(state.ship_laser, None);
    assert!(count_on(&state.shields[1]) < full);
}
