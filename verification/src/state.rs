//! The root game state and the per-frame phases that do not move
//! projectiles: ship movement and clamping, laser spawning, the pixel-exact
//! player-laser-versus-enemy resolution, the formation patrol tick, death
//! animations with scoring, enemy fire targeting, and off-screen cleanup.
//!
//! Every phase has a specification-level transition function on [`StateV`];
//! each executable method is proved to compute exactly that function.

use vstd::prelude::*;
use itertools::Itertools;
use crate::entity::{
    sviews, get_invader_sprite, spec_invader_sprite, Enemy, InvaderSprites, InvaderSpritesV,
    Laser, Orientation, Player,
};
use crate::geometry::{Direction, Input};
use crate::screen;
use crate::sprite::{any_on_in_rect, shield_sprite, solid_grid, SpriteData, SpriteV};

verus! {

/// The root aggregate of one game: everything a frame step reads or writes.
#[derive(Clone, Debug, PartialEq)]
pub struct State {
    pub lives: i32,
    pub score: i32,
    /// The ship is a rectangular actor (logically).
    pub ship: Player,
    /// At most one player laser can exist; spawning while one is alive is
    /// refused, which this `Option` makes structural.
    pub ship_laser: Option<Laser>,
    /// Shields are destructible, so their pixel grids are part of the state.
    pub shields: Vec<SpriteData>,
    /// The roster: dense, index-addressable, never reordered; an enemy's
    /// `id` equals its index here.
    pub enemies: Vec<Enemy>,
    /// Frames until the next enemy volley is due.
    pub enemy_shot_delay: i32,
    /// The currently live enemy lasers.
    pub enemy_lasers: Vec<Laser>,
}

/// The mathematical value of a [`State`].
pub ghost struct StateV {
    pub lives: i32,
    pub score: i32,
    pub ship: Player,
    pub ship_laser: Option<Laser>,
    pub shields: Seq<SpriteV>,
    pub enemies: Seq<Enemy>,
    pub enemy_shot_delay: i32,
    pub enemy_lasers: Seq<Laser>,
}

impl View for State {
    type V = StateV;

    open spec fn view(&self) -> StateV {
        StateV {
            lives: self.lives,
            score: self.score,
            ship: self.ship,
            ship_laser: self.ship_laser,
            shields: sviews(self.shields@),
            enemies: self.enemies@,
            enemy_shot_delay: self.enemy_shot_delay,
            enemy_lasers: self.enemy_lasers@,
        }
    }
}

/// A shield bitmap a frame step can work with: a non-empty grid of bounded
/// size (its bounding rectangle must fit the machine integers).
pub open spec fn wf_shield(s: SpriteV) -> bool {
    &&& 1 <= s.grid.len() <= 100000
    &&& s.grid[0].len() <= 100000
}

/// The number of roster entries, `ENEMIES_NUM * ENEMIES_PER_ROW`.
pub const ROSTER_SIZE: i32 = 36;

/// How many roster entries are no longer alive.
pub open spec fn count_dead(enemies: Seq<Enemy>) -> int
    decreases enemies.len(),
{
    if enemies.len() == 0 {
        0
    } else {
        count_dead(enemies.drop_last()) + if enemies.last().alive {
            0int
        } else {
            1int
        }
    }
}

/// The dead count is bounded by the roster size.
pub proof fn lemma_count_dead_bounds(enemies: Seq<Enemy>)
    ensures
        0 <= count_dead(enemies) <= enemies.len(),
    decreases enemies.len(),
{
    if enemies.len() > 0 {
        lemma_count_dead_bounds(enemies.drop_last());
    }
}

/// A roster of living enemies has a dead count of zero.
pub proof fn lemma_count_dead_none(enemies: Seq<Enemy>)
    requires
        forall|i: int| 0 <= i < enemies.len() ==> (#[trigger] enemies[i]).alive,
    ensures
        count_dead(enemies) == 0,
    decreases enemies.len(),
{
    if enemies.len() > 0 {
        lemma_count_dead_none(enemies.drop_last());
    }
}

/// Replacing one entry by one with the same life state keeps the dead
/// count.
pub proof fn lemma_count_dead_update(enemies: Seq<Enemy>, i: int, e2: Enemy)
    requires
        0 <= i < enemies.len(),
        e2.alive == enemies[i].alive,
    ensures
        count_dead(enemies.update(i, e2)) == count_dead(enemies),
    decreases enemies.len(),
{
    if i == enemies.len() - 1 {
        assert(enemies.update(i, e2).drop_last() =~= enemies.drop_last());
    } else {
        assert(enemies.update(i, e2).drop_last() =~= enemies.drop_last().update(i, e2));
        lemma_count_dead_update(enemies.drop_last(), i, e2);
    }
}

/// A per-entry change that never touches the life state keeps the dead
/// count.
pub proof fn lemma_count_dead_map(enemies: Seq<Enemy>, f: spec_fn(Enemy) -> Enemy)
    requires
        forall|e: Enemy| (#[trigger] f(e)).alive == e.alive,
    ensures
        count_dead(enemies.map_values(f)) == count_dead(enemies),
    decreases enemies.len(),
{
    if enemies.len() > 0 {
        assert(enemies.map_values(f).drop_last() =~= enemies.drop_last().map_values(f));
        lemma_count_dead_map(enemies.drop_last(), f);
    }
}

impl StateV {
    /// Well-formedness of a game state, with `slack` pixels of leeway on the
    /// vertical laser bounds: in between the movement phases and the
    /// off-screen cleanup a projectile may sit up to one frame's travel
    /// beyond the playfield.
    pub open spec fn wf_at(self, slack: int) -> bool {
        &&& self.ship.wf()
        &&& (self.ship_laser matches Some(l) ==> l.wf() && l.movement == Direction::Up && l.y
            >= -slack)
        &&& forall|i: int| 0 <= i < self.shields.len() ==> wf_shield(#[trigger] self.shields[i])
        &&& self.enemies.len() == ROSTER_SIZE
        &&& forall|i: int|
            0 <= i < self.enemies.len() ==> (#[trigger] self.enemies[i]).wf()
                && self.enemies[i].id == i
        &&& forall|i: int|
            0 <= i < self.enemy_lasers.len() ==> (#[trigger] self.enemy_lasers[i]).wf()
                && self.enemy_lasers[i].movement == Direction::Down && self.enemy_lasers[i].y
                <= screen::GAME_SIZE_H + slack
        &&& 0 <= self.enemy_shot_delay <= screen::ENEMY_SHOT_DELAY
        &&& 0 <= self.score
        &&& self.score == screen::SCORE_PER_ENEMY * count_dead(self.enemies)
    }

    /// Well-formedness at a frame boundary: every reachable state satisfies
    /// it after a full frame step, and the step preserves it.
    pub open spec fn wf(self) -> bool {
        self.wf_at(0)
    }
}

/// The enemy placed at roster index `i` when a game starts.
pub open spec fn spec_initial_enemy(i: int) -> Enemy {
    let row = i / (screen::ENEMIES_PER_ROW as int);
    let col = i % (screen::ENEMIES_PER_ROW as int);
    Enemy {
        x: (screen::ENEMY_START_POS_X + col * (screen::ENEMY_SIZE_W + screen::ENEMY_X_SPACE)) as i32,
        y: (screen::ENEMY_START_POS_Y + row * (screen::ENEMY_SIZE_H + screen::ENEMY_Y_SPACE)) as i32,
        row: row as i32,
        col: col as i32,
        id: i as u32,
        alive: true,
        death_counter: None,
        move_counter: screen::ENEMY_PERIOD,
        move_right: true,
        orientation: Orientation::INIT,
    }
}

/// The undamaged shield bitmap anchored at `(x, y)`.
pub open spec fn spec_initial_shield(x: int, y: int) -> SpriteV {
    SpriteV {
        x,
        y,
        grid: solid_grid(
            screen::SHIELD_SIZE_H as int,
            screen::SHIELD_SIZE_W as int,
            screen::spec_shield_color(),
        ),
    }
}

/// The state a new game starts in: full roster, three undamaged shields, no
/// projectiles, score zero.
pub open spec fn spec_new_state() -> StateV {
    StateV {
        lives: 0,
        score: 0,
        ship: Player {
            x: screen::SHIP_LIMIT_X1,
            y: (screen::SKY_TO_GROUND - screen::SHIP_SIZE_H) as i32,
            w: screen::SHIP_SIZE_W,
            h: screen::SHIP_SIZE_H,
            speed: screen::SHIP_SPEED,
            color: screen::spec_ship_color(),
        },
        ship_laser: None,
        shields: seq![
            spec_initial_shield(screen::SHIELD1_POS_X as int, screen::SHIELD1_POS_Y as int),
            spec_initial_shield(screen::SHIELD2_POS_X as int, screen::SHIELD2_POS_Y as int),
            spec_initial_shield(screen::SHIELD3_POS_X as int, screen::SHIELD3_POS_Y as int),
        ],
        enemies: Seq::new(ROSTER_SIZE as nat, |i: int| spec_initial_enemy(i)),
        enemy_shot_delay: screen::ENEMY_SHOT_DELAY,
        enemy_lasers: Seq::empty(),
    }
}

impl State {
    /// A fresh game; see [`spec_new_state`].
    pub fn new() -> (s: State)
        ensures
            s@ == spec_new_state(),
            s@.wf(),
    {
        let player_start_x = screen::SHIP_LIMIT_X1;
        let player_start_y = screen::SKY_TO_GROUND - screen::SHIP_SIZE_H;
        let mut shields: Vec<SpriteData> = Vec::new();
        let base = shield_sprite();
        shields.push(base.translate(screen::SHIELD1_POS_X, screen::SHIELD1_POS_Y));
        shields.push(base.translate(screen::SHIELD2_POS_X, screen::SHIELD2_POS_Y));
        shields.push(base.translate(screen::SHIELD3_POS_X, screen::SHIELD3_POS_Y));

        let mut enemies: Vec<Enemy> = Vec::new();
        let x0 = screen::ENEMY_START_POS_X;
        let y0 = screen::ENEMY_START_POS_Y;
        let x_offset = screen::ENEMY_SIZE_W + screen::ENEMY_X_SPACE;
        let y_offset = screen::ENEMY_SIZE_H + screen::ENEMY_Y_SPACE;
        let mut j: i32 = 0;
        while j < screen::ENEMIES_NUM
            invariant
                0 <= j <= screen::ENEMIES_NUM,
                x0 == screen::ENEMY_START_POS_X,
                y0 == screen::ENEMY_START_POS_Y,
                x_offset == screen::ENEMY_SIZE_W + screen::ENEMY_X_SPACE,
                y_offset == screen::ENEMY_SIZE_H + screen::ENEMY_Y_SPACE,
                enemies@.len() == j * screen::ENEMIES_PER_ROW,
                forall|k: int| 0 <= k < enemies@.len() ==> enemies@[k] == spec_initial_enemy(k),
            decreases screen::ENEMIES_NUM - j,
        {
            let mut i: i32 = 0;
            while i < screen::ENEMIES_PER_ROW
                invariant
                    0 <= j < screen::ENEMIES_NUM,
                    0 <= i <= screen::ENEMIES_PER_ROW,
                    x0 == screen::ENEMY_START_POS_X,
                    y0 == screen::ENEMY_START_POS_Y,
                    x_offset == screen::ENEMY_SIZE_W + screen::ENEMY_X_SPACE,
                    y_offset == screen::ENEMY_SIZE_H + screen::ENEMY_Y_SPACE,
                    enemies@.len() == j * screen::ENEMIES_PER_ROW + i,
                    forall|k: int| 0 <= k < enemies@.len() ==> enemies@[k] == spec_initial_enemy(k),
                decreases screen::ENEMIES_PER_ROW - i,
            {
                let x = x0 + i * x_offset;
                let y = y0 + j * y_offset;
                let id = enemies.len() as u32;
                enemies.push(Enemy::new(x, y, j, i, id));
                proof {
                    let k = enemies@.len() - 1;
                    assert(k == j * screen::ENEMIES_PER_ROW + i);
                    assert(k / 6 == j && k % 6 == i) by (nonlinear_arith)
                        requires
                            k == j * 6 + i,
                            0 <= i < 6,
                            0 <= j < 6,
                    ;
                    assert(enemies@[k] == spec_initial_enemy(k));
                }
                i += 1;
            }
            j += 1;
        }

        let s = State {
            lives: 0,
            score: 0,
            ship: Player::new(player_start_x, player_start_y),
            ship_laser: None,
            enemy_shot_delay: screen::ENEMY_SHOT_DELAY,
            shields,
            enemies,
            enemy_lasers: Vec::new(),
        };
        proof {
            assert(s@.shields =~= spec_new_state().shields);
            assert(s@.enemies =~= spec_new_state().enemies);
            assert(s@ == spec_new_state());
            assert forall|i: int| 0 <= i < s@.enemies.len() implies (
                #[trigger] s@.enemies[i]).wf() && s@.enemies[i].id == i by {
                assert(s@.enemies[i] == spec_initial_enemy(i));
                assert(0 <= i / 6 < 6 && 0 <= i % 6 < 6) by (nonlinear_arith)
                    requires
                        0 <= i < 36,
                ;
                assert((i / 6) * 6 + (i % 6) == i) by (nonlinear_arith);
            }
            assert forall|i: int| 0 <= i < s@.shields.len() implies wf_shield(
                #[trigger] s@.shields[i],
            ) by {
                assert(s@.shields[i].grid.len() == screen::SHIELD_SIZE_H);
                assert(s@.shields[i].grid[0].len() == screen::SHIELD_SIZE_W);
            }
            lemma_count_dead_none(s@.enemies);
        }
        s
    }

    /// Remaining lives.  No transition of this core decrements it; a loss
    /// condition is a collaborator's concern.
    pub fn lives(&self) -> (l: i32)
        ensures
            l == self@.lives,
    {
        self.lives
    }

    /// Current score.
    pub fn score(&self) -> (sc: i32)
        ensures
            sc == self@.score,
    {
        self.score
    }
}

/// The whole game as a simulation factory: fixed playfield size, fresh
/// starting states.
pub struct SpaceInvaders;

impl SpaceInvaders {
    /// The playfield dimensions in pixels.
    pub fn game_size(&self) -> (s: (i32, i32))
        ensures
            s.0 == screen::GAME_SIZE_W,
            s.1 == screen::GAME_SIZE_H,
    {
        (screen::GAME_SIZE_W, screen::GAME_SIZE_H)
    }

    /// Start a new game.
    pub fn new_game(&mut self) -> (s: State)
        ensures
            s@ == spec_new_state(),
            s@.wf(),
            *final(self) == *old(self),
    {
        State::new()
    }

    /// This variant's behavior is fully deterministic; there is no seed to
    /// reset, so the call changes nothing.
    pub fn reset_seed(&mut self, _seed: u32)
        ensures
            *final(self) == *old(self),
    {
    }
}

} // verus!

verus! {

/// Ship movement for one input sample: if both directions are held, left
/// wins; afterwards the position is clamped into the travel corridor, never
/// beyond either bound.
pub open spec fn spec_move_ship(s: StateV, input: Input) -> StateV {
    let x1 = if input.left {
        s.ship.x - s.ship.speed
    } else if input.right {
        s.ship.x + s.ship.speed
    } else {
        s.ship.x as int
    };
    let x2 = if x1 > screen::SHIP_LIMIT_X2 {
        screen::SHIP_LIMIT_X2 as int
    } else if x1 < screen::SHIP_LIMIT_X1 {
        screen::SHIP_LIMIT_X1 as int
    } else {
        x1
    };
    StateV { ship: Player { x: x2 as i32, ..s.ship }, ..s }
}

/// The player spawn rule: a new laser appears only if none exists and fire
/// is asserted; it starts centered on the ship's top edge, moving upward,
/// with its blink counter at zero.  While a laser is alive the spawn is a
/// no-op.
pub open spec fn spec_spawn_ship_laser(s: StateV, fire: bool) -> StateV {
    if s.ship_laser is None && fire {
        StateV {
            ship_laser: Some(
                Laser::spec_new(
                    (s.ship.x + s.ship.w / 2) as i32,
                    s.ship.y,
                    Direction::Up,
                ),
            ),
            ..s
        }
    } else {
        s
    }
}

/// Pixel-exact player-laser-versus-enemy test: broad-phase rectangle
/// overlap, then an "on" pixel of the enemy's active sprite inside the
/// laser's rectangle.
pub open spec fn spec_enemy_hit(l: Laser, e: Enemy, bank: InvaderSpritesV) -> bool {
    &&& l.spec_rect().spec_intersects(e.spec_rect())
    &&& any_on_in_rect(spec_invader_sprite(bank, e).grid, e.x as int, e.y as int, l.spec_rect())
}

/// The first living enemy at index `i` or later whose shape the laser
/// overlaps, in roster order.
pub open spec fn spec_first_hit_from(
    l: Laser,
    enemies: Seq<Enemy>,
    bank: InvaderSpritesV,
    i: int,
) -> Option<int>
    decreases enemies.len() - i,
{
    if i < 0 || i >= enemies.len() {
        None
    } else if enemies[i].alive && spec_enemy_hit(l, enemies[i], bank) {
        Some(i)
    } else {
        spec_first_hit_from(l, enemies, bank, i + 1)
    }
}

/// Resolution of the player laser against the roster: on a hit the laser is
/// consumed, and the enemy's death countdown starts unless it is already
/// running (a second hit is absorbed).  Without a laser or a hit, nothing
/// changes.
pub open spec fn spec_laser_enemy_collisions(s: StateV, bank: InvaderSpritesV) -> StateV {
    match s.ship_laser {
        None => s,
        Some(l) => match spec_first_hit_from(l, s.enemies, bank, 0) {
            None => s,
            Some(i) => {
                let e = s.enemies[i];
                let e2 = if e.death_counter is None {
                    Enemy { death_counter: Some(screen::DEATH_TIME), ..e }
                } else {
                    e
                };
                StateV { ship_laser: None, enemies: s.enemies.update(i, e2), ..s }
            },
        },
    }
}

/// One patrol tick for the whole formation.
pub open spec fn spec_enemy_shift_all(s: StateV) -> StateV {
    StateV { enemies: s.enemies.map_values(|e: Enemy| e.spec_shift()), ..s }
}

/// One death-animation tick for a single enemy: a running countdown counts
/// down; reaching zero clears it and marks the enemy not alive.
pub open spec fn spec_tick_enemy(e: Enemy) -> Enemy {
    match e.death_counter {
        Some(d) => if d == 1 {
            Enemy { death_counter: None, alive: false, ..e }
        } else {
            Enemy { death_counter: Some((d - 1) as i32), ..e }
        },
        None => e,
    }
}

/// How many enemies complete their death animation on this tick.
pub open spec fn spec_completing_count(enemies: Seq<Enemy>) -> int
    decreases enemies.len(),
{
    if enemies.len() == 0 {
        0
    } else {
        spec_completing_count(enemies.drop_last()) + if enemies.last().death_counter == Some(
            1i32,
        ) {
            1int
        } else {
            0int
        }
    }
}

/// The death-animation phase: every countdown ticks, and the score gains
/// exactly `SCORE_PER_ENEMY` for each enemy whose countdown completes on
/// this very frame — the one and only scoring rule.
pub open spec fn spec_enemy_animation(s: StateV) -> StateV {
    StateV {
        enemies: s.enemies.map_values(|e: Enemy| spec_tick_enemy(e)),
        score: (s.score + screen::SCORE_PER_ENEMY * spec_completing_count(s.enemies)) as i32,
        ..s
    }
}

/// The enemy lasers still on the playfield after cleanup, in order.
pub open spec fn spec_kept_lasers(lasers: Seq<Laser>) -> Seq<Laser>
    decreases lasers.len(),
{
    if lasers.len() == 0 {
        lasers
    } else {
        let prev = spec_kept_lasers(lasers.drop_last());
        if lasers.last().y > screen::GAME_SIZE_H {
            prev
        } else {
            prev.push(lasers.last())
        }
    }
}

/// Off-screen cleanup: the player laser is deleted once above the top of
/// the playfield, and every enemy laser below the bottom is deleted, the
/// survivors keeping their order.
pub open spec fn spec_miss_check(s: StateV) -> StateV {
    let ship_laser = match s.ship_laser {
        Some(l) => if l.y < 0 {
            None
        } else {
            Some(l)
        },
        None => None,
    };
    StateV { ship_laser, enemy_lasers: spec_kept_lasers(s.enemy_lasers), ..s }
}

impl State {
    /// Find the enemy, if any, hit by the player laser, consume the laser
    /// and start the enemy's death timer; see
    /// [`spec_laser_enemy_collisions`].
    pub fn laser_enemy_collisions(&mut self, bank: &InvaderSprites)
        requires
            old(self)@.wf_at(screen::LASER_SPEED as int),
            bank.wf(),
        ensures
            final(self)@ == spec_laser_enemy_collisions(old(self)@, bank@),
            final(self)@.wf_at(screen::LASER_SPEED as int),
            old(self)@.wf() ==> final(self)@.wf(),
    {
        let mut hit: Option<u32> = None;
        match self.ship_laser {
            Some(laser) => {
                let laser_rect = laser.rect();
                let mut idx: usize = 0;
                while idx < self.enemies.len() && hit.is_none()
                    invariant
                        bank.wf(),
                        *self == *old(self),
                        self@.wf_at(screen::LASER_SPEED as int),
                        laser == self.ship_laser->Some_0,
                        laser_rect == laser.spec_rect(),
                        idx <= self.enemies@.len(),
                        match hit {
                            None => spec_first_hit_from(laser, self.enemies@, bank@, 0)
                                == spec_first_hit_from(laser, self.enemies@, bank@, idx as int),
                            Some(eid) => {
                                &&& idx < self.enemies@.len()
                                &&& eid == idx as u32
                                &&& self.enemies@[idx as int].alive
                                &&& spec_first_hit_from(laser, self.enemies@, bank@, 0) == Some(
                                    idx as int,
                                )
                            },
                        },
                    decreases
                            self.enemies@.len() - idx,
                            (if hit is Some {
                                0int
                            } else {
                                1int
                            }),
                {
                    let e = self.enemies[idx];
                    let mut found = false;
                    if e.alive {
                        if laser_rect.intersects(&e.rect()) {
                            let sprite = get_invader_sprite(&e, bank);
                            if laser_rect.collides_visible(e.x, e.y, &sprite.data) {
                                hit = Some(e.id);
                                found = true;
                            }
                        }
                    }
                    if !found {
                        idx += 1;
                    }
                }
            },
            None => {},
        }

        match hit {
            Some(eid) => {
                self.ship_laser = None;
                let i = eid as usize;
                let mut e = self.enemies[i];
                let ghost e0 = e;
                if e.death_counter.is_none() {
                    e.death_counter = Some(screen::DEATH_TIME);
                }
                self.enemies[i] = e;
                proof {
                    if e0.death_counter is Some {
                        assert(self.enemies@ =~= old(self).enemies@.update(i as int, e0));
                    }
                    assert(final(self)@ == spec_laser_enemy_collisions(old(self)@, bank@));
                    lemma_count_dead_update(old(self).enemies@, i as int, e);
                    assert forall|k: int| 0 <= k < self.enemies@.len() implies (
                        #[trigger] self.enemies@[k]).wf() && self.enemies@[k].id == k by {
                        if k == i as int {
                            assert(self.enemies@[k] == e);
                            assert(old(self).enemies@[k].wf());
                        } else {
                            assert(self.enemies@[k] == old(self).enemies@[k]);
                        }
                    }
                }
            },
            None => {
                proof {
                    assert(final(self)@ == spec_laser_enemy_collisions(old(self)@, bank@));
                }
            },
        }
    }

    /// Advance the whole formation one patrol tick; see
    /// [`spec_enemy_shift_all`].
    pub fn enemy_shift(&mut self)
        requires
            old(self)@.wf(),
        ensures
            final(self)@ == spec_enemy_shift_all(old(self)@),
            final(self)@.wf(),
    {
        let mut idx: usize = 0;
        while idx < self.enemies.len()
            invariant
                old(self)@.wf(),
                self.lives == old(self).lives,
                self.score == old(self).score,
                self.ship == old(self).ship,
                self.ship_laser == old(self).ship_laser,
                self.shields == old(self).shields,
                self.enemy_shot_delay == old(self).enemy_shot_delay,
                self.enemy_lasers == old(self).enemy_lasers,
                idx <= self.enemies@.len(),
                self.enemies@.len() == old(self).enemies@.len(),
                forall|k: int|
                    0 <= k < idx ==> self.enemies@[k] == (#[trigger] old(self).enemies@[k]).spec_shift()
                        && self.enemies@[k].wf(),
                forall|k: int|
                    idx <= k < self.enemies@.len() ==> self.enemies@[k] == old(self).enemies@[k],
            decreases self.enemies@.len() - idx,
        {
            let mut e = self.enemies[idx];
            e.enemy_shift();
            self.enemies[idx] = e;
            idx += 1;
        }
        proof {
            assert(self.enemies@ =~= old(self).enemies@.map_values(|e: Enemy| e.spec_shift()));
            assert(final(self)@ == spec_enemy_shift_all(old(self)@));
            lemma_count_dead_map(old(self).enemies@, |e: Enemy| e.spec_shift());
            assert forall|i: int| 0 <= i < self.enemies@.len() implies (
                #[trigger] self.enemies@[i]).wf() && self.enemies@[i].id == i by {
                assert(self.enemies@[i] == old(self).enemies@[i].spec_shift());
            }
        }
    }

    /// Tick every running death animation, scoring each enemy whose
    /// countdown completes; see [`spec_enemy_animation`].
    pub fn enemy_animation(&mut self)
        requires
            old(self)@.wf(),
        ensures
            final(self)@ == spec_enemy_animation(old(self)@),
            final(self)@.wf(),
    {
        proof {
            lemma_count_dead_bounds(self.enemies@);
        }
        let mut new_enemies: Vec<Enemy> = Vec::new();
        let mut gained: i32 = 0;
        let mut idx: usize = 0;
        while idx < self.enemies.len()
            invariant
                *self == *old(self),
                self@.wf(),
                idx <= self.enemies@.len(),
                new_enemies@.len() == idx,
                forall|k: int|
                    0 <= k < idx ==> new_enemies@[k] == spec_tick_enemy(
                        #[trigger] self.enemies@[k],
                    ),
                gained == screen::SCORE_PER_ENEMY * spec_completing_count(
                    self.enemies@.take(idx as int),
                ),
                0 <= gained <= screen::SCORE_PER_ENEMY * idx,
            decreases self.enemies@.len() - idx,
        {
            let mut e = self.enemies[idx];
            match e.death_counter {
                Some(dc) => {
                    let dc = dc - 1;
                    if dc == 0 {
                        e.death_counter = None;
                        e.alive = false;
                        gained = gained + screen::SCORE_PER_ENEMY;
                    } else {
                        e.death_counter = Some(dc);
                    }
                },
                None => {},
            }
            new_enemies.push(e);
            proof {
                assert(self.enemies@.take(idx + 1).drop_last() =~= self.enemies@.take(idx as int));
                assert(self.enemies@.take(idx + 1).last() == self.enemies@[idx as int]);
                assert(new_enemies@[idx as int] == spec_tick_enemy(self.enemies@[idx as int]));
            }
            idx += 1;
        }
        proof {
            assert(self.enemies@.take(self.enemies@.len() as int) =~= self.enemies@);
            assert(new_enemies@ =~= self.enemies@.map_values(|e: Enemy| spec_tick_enemy(e)));
        }
        self.enemies = new_enemies;
        self.score = self.score + gained;
        proof {
            assert(final(self)@ == spec_enemy_animation(old(self)@));
            assert forall|i: int|
                0 <= i < old(self).enemies@.len() implies (!(#[trigger] old(
                self,
            ).enemies@[i]).alive ==> old(self).enemies@[i].death_counter is None) by {
                assert(old(self)@.enemies[i].wf());
            }
            lemma_count_dead_tick(old(self).enemies@);
            assert(count_dead(self.enemies@) == count_dead(old(self).enemies@)
                + spec_completing_count(old(self).enemies@));
            assert forall|i: int| 0 <= i < self.enemy_lasers@.len() implies (
                #[trigger] self.enemy_lasers@[i]).wf() && self.enemy_lasers@[i].movement
                == Direction::Down && self.enemy_lasers@[i].y <= screen::GAME_SIZE_H by {
                assert(self.enemy_lasers@[i] == old(self)@.enemy_lasers[i]);
            }
            assert forall|i: int| 0 <= i < self.enemies@.len() implies (
                #[trigger] self.enemies@[i]).wf() && self.enemies@[i].id == i by {
                assert(self.enemies@[i] == spec_tick_enemy(old(self).enemies@[i]));
                assert(old(self).enemies@[i].wf());
            }
        }
    }

    /// Delete the player laser once it has left the top of the playfield,
    /// and every enemy laser that has left the bottom; see
    /// [`spec_miss_check`].
    pub fn laser_miss_check(&mut self)
        requires
            old(self)@.wf_at(screen::LASER_SPEED as int),
        ensures
            final(self)@ == spec_miss_check(old(self)@),
            final(self)@.wf(),
    {
        match self.ship_laser {
            Some(laser) => {
                if laser.y < 0 {
                    self.ship_laser = None;
                }
            },
            None => {},
        }

        let mut kept: Vec<Laser> = Vec::new();
        let mut idx: usize = 0;
        while idx < self.enemy_lasers.len()
            invariant
                self.enemy_lasers == old(self).enemy_lasers,
                idx <= self.enemy_lasers@.len(),
                kept@ == spec_kept_lasers(self.enemy_lasers@.take(idx as int)),
            decreases self.enemy_lasers@.len() - idx,
        {
            let l = self.enemy_lasers[idx];
            proof {
                assert(self.enemy_lasers@.take(idx + 1).drop_last() =~= self.enemy_lasers@.take(
                    idx as int,
                ));
                assert(self.enemy_lasers@.take(idx + 1).last() == self.enemy_lasers@[idx as int]);
            }
            if l.y <= screen::GAME_SIZE_H {
                kept.push(l);
            }
            idx += 1;
        }
        proof {
            assert(self.enemy_lasers@.take(self.enemy_lasers@.len() as int)
                =~= self.enemy_lasers@);
        }
        self.enemy_lasers = kept;
        proof {
            assert(final(self)@ == spec_miss_check(old(self)@));
            lemma_kept_lasers_wf(old(self)@.enemy_lasers);
        }
    }
}

/// Cleanup keeps only lasers from the original list, so their
/// well-formedness carries over.
proof fn lemma_kept_lasers_wf(lasers: Seq<Laser>)
    ensures
        forall|i: int|
            0 <= i < spec_kept_lasers(lasers).len() ==> exists|j: int|
                0 <= j < lasers.len() && #[trigger] spec_kept_lasers(lasers)[i] == lasers[j],
        forall|i: int|
            0 <= i < spec_kept_lasers(lasers).len() ==> (#[trigger] spec_kept_lasers(
                lasers,
            )[i]).y <= screen::GAME_SIZE_H,
    decreases lasers.len(),
{
    if lasers.len() > 0 {
        lemma_kept_lasers_wf(lasers.drop_last());
        assert forall|i: int| 0 <= i < spec_kept_lasers(lasers).len() implies exists|j: int|
            0 <= j < lasers.len() && #[trigger] spec_kept_lasers(lasers)[i] == lasers[j] by {
            let prev = spec_kept_lasers(lasers.drop_last());
            if i < prev.len() {
                let j = choose|j: int|
                    0 <= j < lasers.drop_last().len() && prev[i] == lasers.drop_last()[j];
                assert(spec_kept_lasers(lasers)[i] == lasers[j]);
            } else {
                assert(spec_kept_lasers(lasers)[i] == lasers[lasers.len() - 1]);
            }
        }
    }
}

} // verus!

verus! {

/// First-occurrence deduplication: each value keeps its first copy, in the
/// original order.
pub open spec fn spec_dedup(s: Seq<i32>) -> Seq<i32>
    decreases s.len(),
{
    if s.len() == 0 {
        s
    } else {
        let prev = spec_dedup(s.drop_last());
        if s.drop_last().contains(s.last()) {
            prev
        } else {
            prev.push(s.last())
        }
    }
}

/// Relies on itertools' `unique`: it yields each distinct element once,
/// keeping the first occurrence of each and the input's order.
#[verifier::external_body]
fn distinct_in_order(xs: &Vec<i32>) -> (out: Vec<i32>)
    ensures
        out@ == spec_dedup(xs@),
{
    xs.iter().cloned().unique().collect()
}

/// The columns of the living enemies, one entry per living enemy, in roster
/// order.
pub open spec fn spec_alive_cols(enemies: Seq<Enemy>) -> Seq<i32>
    decreases enemies.len(),
{
    if enemies.len() == 0 {
        Seq::empty()
    } else {
        let prev = spec_alive_cols(enemies.drop_last());
        if enemies.last().alive {
            prev.push(enemies.last().col)
        } else {
            prev
        }
    }
}

/// The living enemy of column `col` with the greatest row — the column's
/// frontmost member; among equal rows the latest in roster order wins.
pub open spec fn spec_bottom_in_col(enemies: Seq<Enemy>, col: i32) -> Option<Enemy>
    decreases enemies.len(),
{
    if enemies.len() == 0 {
        None
    } else {
        let prev = spec_bottom_in_col(enemies.drop_last(), col);
        let e = enemies.last();
        if e.alive && e.col == col && (match prev {
            None => true,
            Some(p) => e.row >= p.row,
        }) {
            Some(e)
        } else {
            prev
        }
    }
}

/// The ids of the enemies that may fire: for each column that still has a
/// living member (first-occurrence order), its frontmost living enemy.
pub open spec fn spec_active_ids(enemies: Seq<Enemy>) -> Seq<u32> {
    spec_dedup(spec_alive_cols(enemies)).map_values(
        |c: i32| spec_bottom_in_col(enemies, c)->Some_0.id,
    )
}

/// Deduplication only keeps values of the input.
proof fn lemma_dedup_contains(s: Seq<i32>, x: i32)
    requires
        spec_dedup(s).contains(x),
    ensures
        s.contains(x),
    decreases s.len(),
{
    if s.len() > 0 {
        let prev = spec_dedup(s.drop_last());
        if s.drop_last().contains(s.last()) {
            lemma_dedup_contains(s.drop_last(), x);
            let j = choose|j: int| 0 <= j < s.drop_last().len() && s.drop_last()[j] == x;
            assert(s[j] == x);
        } else {
            if prev.contains(x) {
                lemma_dedup_contains(s.drop_last(), x);
                let j = choose|j: int| 0 <= j < s.drop_last().len() && s.drop_last()[j] == x;
                assert(s[j] == x);
            } else {
                assert(x == s.last());
                assert(s[s.len() - 1] == x);
            }
        }
    }
}

/// A column listed among the living columns has a living member.
proof fn lemma_alive_cols_exists(enemies: Seq<Enemy>, c: i32)
    requires
        spec_alive_cols(enemies).contains(c),
    ensures
        exists|j: int|
            0 <= j < enemies.len() && (#[trigger] enemies[j]).alive && enemies[j].col == c,
    decreases enemies.len(),
{
    if enemies.len() > 0 {
        let prev = spec_alive_cols(enemies.drop_last());
        if enemies.last().alive && enemies.last().col == c && !prev.contains(c) {
            assert(enemies[enemies.len() - 1].alive && enemies[enemies.len() - 1].col == c);
        } else {
            if prev.contains(c) {
                lemma_alive_cols_exists(enemies.drop_last(), c);
                let j = choose|j: int|
                    0 <= j < enemies.drop_last().len() && (#[trigger] enemies.drop_last()[j]).alive
                        && enemies.drop_last()[j].col == c;
                assert(enemies[j].alive && enemies[j].col == c);
            } else {
                assert(enemies.last().alive && enemies.last().col == c);
                assert(enemies[enemies.len() - 1].alive && enemies[enemies.len() - 1].col == c);
            }
        }
    }
}

/// The frontmost living enemy of a column is a roster entry, and it exists
/// as soon as the column has any living member.
proof fn lemma_bottom_in_col_props(enemies: Seq<Enemy>, c: i32)
    ensures
        spec_bottom_in_col(enemies, c) matches Some(e) ==> exists|j: int|
            0 <= j < enemies.len() && #[trigger] enemies[j] == e,
        (exists|j: int|
            0 <= j < enemies.len() && (#[trigger] enemies[j]).alive && enemies[j].col == c)
            ==> spec_bottom_in_col(enemies, c) is Some,
    decreases enemies.len(),
{
    if enemies.len() > 0 {
        lemma_bottom_in_col_props(enemies.drop_last(), c);
        if spec_bottom_in_col(enemies, c) is Some {
            let e = spec_bottom_in_col(enemies, c)->Some_0;
            if spec_bottom_in_col(enemies, c) == spec_bottom_in_col(enemies.drop_last(), c) {
                let j = choose|j: int|
                    0 <= j < enemies.drop_last().len() && #[trigger] enemies.drop_last()[j] == e;
                assert(enemies[j] == e);
            } else {
                assert(enemies[enemies.len() - 1] == e);
            }
        }
        if exists|j: int|
            0 <= j < enemies.len() && (#[trigger] enemies[j]).alive && enemies[j].col == c {
            let j = choose|j: int|
                0 <= j < enemies.len() && (#[trigger] enemies[j]).alive && enemies[j].col == c;
            if j < enemies.len() - 1 {
                assert(enemies.drop_last()[j].alive && enemies.drop_last()[j].col == c);
            }
        }
    }
}

impl State {
    /// The ids of the enemies at the bottom of their columns, the ones that
    /// fire a volley; see [`spec_active_ids`].
    pub fn active_weapon_enemy_ids(&self) -> (out: Vec<u32>)
        ensures
            out@ == spec_active_ids(self@.enemies),
    {
        let mut cols: Vec<i32> = Vec::new();
        let mut idx: usize = 0;
        while idx < self.enemies.len()
            invariant
                idx <= self.enemies@.len(),
                cols@ == spec_alive_cols(self.enemies@.take(idx as int)),
            decreases self.enemies@.len() - idx,
        {
            let e = self.enemies[idx];
            proof {
                assert(self.enemies@.take(idx + 1).drop_last() =~= self.enemies@.take(idx as int));
                assert(self.enemies@.take(idx + 1).last() == self.enemies@[idx as int]);
            }
            if e.alive {
                cols.push(e.col);
            }
            idx += 1;
        }
        proof {
            assert(self.enemies@.take(self.enemies@.len() as int) =~= self.enemies@);
        }

        let columns = distinct_in_order(&cols);
        let ghost dcols = spec_dedup(spec_alive_cols(self.enemies@));

        let mut out: Vec<u32> = Vec::new();
        let mut k: usize = 0;
        while k < columns.len()
            invariant
                columns@ == dcols,
                dcols == spec_dedup(spec_alive_cols(self.enemies@)),
                k <= dcols.len(),
                out@.len() == k,
                forall|kk: int|
                    0 <= kk < k ==> out@[kk] == spec_bottom_in_col(
                        self.enemies@,
                        dcols[kk],
                    )->Some_0.id,
            decreases columns@.len() - k,
        {
            let c = columns[k];
            let mut best: Option<Enemy> = None;
            let mut j: usize = 0;
            while j < self.enemies.len()
                invariant
                    j <= self.enemies@.len(),
                    best == spec_bottom_in_col(self.enemies@.take(j as int), c),
                decreases self.enemies@.len() - j,
            {
                let e = self.enemies[j];
                proof {
                    assert(self.enemies@.take(j + 1).drop_last() =~= self.enemies@.take(j as int));
                    assert(self.enemies@.take(j + 1).last() == self.enemies@[j as int]);
                }
                let replace = e.alive && e.col == c && (match best {
                    None => true,
                    Some(b) => e.row >= b.row,
                });
                if replace {
                    best = Some(e);
                }
                j += 1;
            }
            proof {
                assert(self.enemies@.take(self.enemies@.len() as int) =~= self.enemies@);
                assert(dcols.contains(c));
                lemma_dedup_contains(spec_alive_cols(self.enemies@), c);
                lemma_alive_cols_exists(self.enemies@, c);
                lemma_bottom_in_col_props(self.enemies@, c);
                assert(best is Some);
            }
            let b = best.unwrap();
            out.push(b.id);
            k += 1;
        }
        proof {
            assert(out@ =~= spec_active_ids(self@.enemies));
        }
        out
    }
}

/// The laser an enemy fires: downward from the center of its rectangle.
pub open spec fn spec_spawn_enemy_laser(e: Enemy) -> Laser {
    Laser::spec_new(
        e.spec_rect().spec_center_x() as i32,
        e.spec_rect().spec_center_y() as i32,
        Direction::Down,
    )
}

/// The enemy fire phase: with more than one enemy laser alive nothing
/// happens; otherwise the shot delay counts down, and on reaching zero it
/// reloads and every active column's frontmost enemy fires in the same
/// frame.
pub open spec fn spec_enemy_fire(s: StateV) -> StateV {
    if s.enemy_lasers.len() > 1 {
        s
    } else {
        let d = s.enemy_shot_delay - 1;
        if d <= 0 {
            StateV {
                enemy_shot_delay: screen::ENEMY_SHOT_DELAY,
                enemy_lasers: s.enemy_lasers + spec_active_ids(s.enemies).map_values(
                    |id: u32| spec_spawn_enemy_laser(s.enemies[id as int]),
                ),
                ..s
            }
        } else {
            StateV { enemy_shot_delay: d as i32, ..s }
        }
    }
}

impl State {
    /// Attempt an enemy volley; see [`spec_enemy_fire`].
    pub fn enemy_fire_lasers(&mut self)
        requires
            old(self)@.wf(),
        ensures
            final(self)@ == spec_enemy_fire(old(self)@),
            final(self)@.wf(),
    {
        if self.enemy_lasers.len() > 1 {
            return ;
        }
        self.enemy_shot_delay = self.enemy_shot_delay - 1;
        if self.enemy_shot_delay <= 0 {
            self.enemy_shot_delay = screen::ENEMY_SHOT_DELAY;

            let ids = self.active_weapon_enemy_ids();
            let ghost idseq = spec_active_ids(old(self)@.enemies);
            let mut k: usize = 0;
            while k < ids.len()
                invariant
                    old(self)@.wf(),
                    ids@ == idseq,
                    idseq == spec_active_ids(old(self)@.enemies),
                    k <= idseq.len(),
                    self.lives == old(self).lives,
                    self.score == old(self).score,
                    self.ship == old(self).ship,
                    self.ship_laser == old(self).ship_laser,
                    self.shields == old(self).shields,
                    self.enemies == old(self).enemies,
                    self.enemy_shot_delay == screen::ENEMY_SHOT_DELAY,
                    self.enemy_lasers@ == old(self).enemy_lasers@ + idseq.take(k as int).map_values(
                        |id: u32| spec_spawn_enemy_laser(old(self)@.enemies[id as int]),
                    ),
                decreases ids@.len() - k,
            {
                let eid = ids[k];
                proof {
                    let cols = spec_dedup(spec_alive_cols(old(self)@.enemies));
                    assert(idseq[k as int] == spec_bottom_in_col(
                        old(self)@.enemies,
                        cols[k as int],
                    )->Some_0.id);
                    assert(cols.contains(cols[k as int]));
                    lemma_dedup_contains(spec_alive_cols(old(self)@.enemies), cols[k as int]);
                    lemma_alive_cols_exists(old(self)@.enemies, cols[k as int]);
                    lemma_bottom_in_col_props(old(self)@.enemies, cols[k as int]);
                    assert(spec_bottom_in_col(old(self)@.enemies, cols[k as int]) is Some);
                    let e = spec_bottom_in_col(old(self)@.enemies, cols[k as int])->Some_0;
                    let j = choose|j: int|
                        0 <= j < old(self)@.enemies.len() && #[trigger] old(self)@.enemies[j] == e;
                    assert(old(self)@.enemies[j].id == j);
                    assert(eid == j);
                    assert(0 <= eid < self.enemies@.len());
                    assert(self.enemies@[eid as int].wf());
                }
                let enemy = self.enemies[eid as usize];
                let start = enemy.rect();
                let shot = Laser::new(start.center_x(), start.center_y(), Direction::Down);
                self.enemy_lasers.push(shot);
                proof {
                    assert(idseq.take(k + 1).drop_last() =~= idseq.take(k as int));
                    assert(self.enemy_lasers@ =~= old(self).enemy_lasers@ + idseq.take(
                        k + 1,
                    ).map_values(
                        |id: u32| spec_spawn_enemy_laser(old(self)@.enemies[id as int]),
                    ));
                }
                k += 1;
            }
            proof {
                assert(idseq.take(idseq.len() as int) =~= idseq);
                assert(final(self)@ == spec_enemy_fire(old(self)@));
                assert forall|i: int| 0 <= i < self.enemy_lasers@.len() implies (
                    #[trigger] self.enemy_lasers@[i]).wf() && self.enemy_lasers@[i].movement
                    == Direction::Down && self.enemy_lasers@[i].y <= screen::GAME_SIZE_H by {
                    if i < old(self).enemy_lasers@.len() {
                        assert(self.enemy_lasers@[i] == old(self)@.enemy_lasers[i]);
                    } else {
                        let kk = i - old(self).enemy_lasers@.len();
                        let id = idseq[kk];
                        let cols = spec_dedup(spec_alive_cols(old(self)@.enemies));
                        assert(idseq[kk] == spec_bottom_in_col(
                            old(self)@.enemies,
                            cols[kk],
                        )->Some_0.id);
                        assert(cols.contains(cols[kk]));
                        lemma_dedup_contains(spec_alive_cols(old(self)@.enemies), cols[kk]);
                        lemma_alive_cols_exists(old(self)@.enemies, cols[kk]);
                        lemma_bottom_in_col_props(old(self)@.enemies, cols[kk]);
                        assert(spec_bottom_in_col(old(self)@.enemies, cols[kk]) is Some);
                        let e = spec_bottom_in_col(old(self)@.enemies, cols[kk])->Some_0;
                        let j = choose|j: int|
                            0 <= j < old(self)@.enemies.len() && #[trigger] old(
                                self,
                            )@.enemies[j] == e;
                        assert(old(self)@.enemies[j].wf());
                        assert(self.enemy_lasers@[i] == spec_spawn_enemy_laser(
                            old(self)@.enemies[id as int],
                        ));
                        assert(old(self)@.enemies[id as int].y <= 121 + 10);
                        assert(self.enemy_lasers@[i].y <= screen::GAME_SIZE_H);
                    }
                }
            }
        }
    }
}

} // verus!

verus! {

/// One animation tick flips exactly the completing enemies from alive to
/// dead, so the dead count grows by the completing count — scoring and
/// removal stay in lock-step.
pub proof fn lemma_count_dead_tick(enemies: Seq<Enemy>)
    requires
        forall|i: int|
            0 <= i < enemies.len() ==> (!(#[trigger] enemies[i]).alive
                ==> enemies[i].death_counter is None),
    ensures
        count_dead(enemies.map_values(|e: Enemy| spec_tick_enemy(e))) == count_dead(enemies)
            + spec_completing_count(enemies),
    decreases enemies.len(),
{
    if enemies.len() > 0 {
        assert(enemies.map_values(|e: Enemy| spec_tick_enemy(e)).drop_last()
            =~= enemies.drop_last().map_values(|e: Enemy| spec_tick_enemy(e)));
        assert(forall|i: int|
            0 <= i < enemies.drop_last().len() ==> (!(#[trigger] enemies.drop_last()[i]).alive
                ==> enemies.drop_last()[i].death_counter is None));
        lemma_count_dead_tick(enemies.drop_last());
        assert(!enemies.last().alive ==> enemies.last().death_counter is None);
    }
}

} // verus!
