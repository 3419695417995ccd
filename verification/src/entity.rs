//! The value types of the simulation — player ship, laser, enemy — with
//! their geometric accessors, the enemy patrol step, and the selection of an
//! enemy's active sprite.

use vstd::prelude::*;
use crate::geometry::{Color, Direction, Rect};
use crate::screen;
use crate::sprite::{solid_grid, solid_sprite, SpriteData, SpriteV};

verus! {

/// The two-frame idle animation of an enemy.
#[allow(non_camel_case_types)]
#[derive(Clone, Copy, PartialEq, Eq, Structural, Debug)]
pub enum Orientation {
    INIT,
    FLIP,
}

/// The player ship: a rectangular actor bounded to a horizontal corridor.
#[derive(Clone, Copy, PartialEq, Eq, Structural, Debug)]
pub struct Player {
    pub x: i32,
    pub y: i32,
    pub w: i32,
    pub h: i32,
    /// Pixels moved per frame of held input.
    pub speed: i32,
    pub color: Color,
}

/// A projectile, shared by the ship and the enemies.
#[derive(Clone, Copy, PartialEq, Eq, Structural, Debug)]
pub struct Laser {
    pub x: i32,
    pub y: i32,
    pub w: i32,
    pub h: i32,
    /// Frame counter driving the blink pattern.
    pub t: i32,
    /// The direction the laser advances in.
    pub movement: Direction,
    /// Pixels advanced per frame, one sub-step at a time.
    pub speed: i32,
    pub color: Color,
}

/// One enemy of the formation.  `id` is its index in the roster and never
/// changes; `row` and `col` are its grid cell, fixed at creation.
#[derive(Clone, Copy, PartialEq, Eq, Structural, Debug)]
pub struct Enemy {
    pub x: i32,
    pub y: i32,
    pub row: i32,
    pub col: i32,
    pub id: u32,
    pub alive: bool,
    /// Frames left of the death animation; `None` when not dying.
    pub death_counter: Option<i32>,
    pub move_counter: i32,
    pub move_right: bool,
    pub orientation: Orientation,
}

impl Player {
    /// The well-formedness every reachable ship satisfies: the fixed size,
    /// speed and color, a vertical anchor on the ground line, and a
    /// horizontal position inside the travel corridor.
    pub open spec fn wf(self) -> bool {
        &&& self.w == screen::SHIP_SIZE_W
        &&& self.h == screen::SHIP_SIZE_H
        &&& self.speed == screen::SHIP_SPEED
        &&& self.color == screen::spec_ship_color()
        &&& screen::SHIP_LIMIT_X1 <= self.x <= screen::SHIP_LIMIT_X2
        &&& 0 <= self.y <= screen::GAME_SIZE_H
    }

    pub fn new(x: i32, y: i32) -> (p: Player)
        ensures
            p == (Player {
                x,
                y,
                w: screen::SHIP_SIZE_W,
                h: screen::SHIP_SIZE_H,
                speed: screen::SHIP_SPEED,
                color: screen::spec_ship_color(),
            }),
    {
        Player {
            x,
            y,
            w: screen::SHIP_SIZE_W,
            h: screen::SHIP_SIZE_H,
            speed: screen::SHIP_SPEED,
            color: screen::ship_color(),
        }
    }

    pub open spec fn spec_rect(&self) -> Rect {
        Rect { x: self.x, y: self.y, w: self.w, h: self.h }
    }

    /// The ship's bounding rectangle.
    #[verifier::when_used_as_spec(spec_rect)]
    pub fn rect(&self) -> (r: Rect)
        ensures
            r == self.spec_rect(),
    {
        Rect::new(self.x, self.y, self.w, self.h)
    }
}

impl Laser {
    /// The shape, speed, color and coordinate bounds every laser satisfies;
    /// the tight per-frame vertical bounds live in the state's
    /// well-formedness, which allows a movement phase's worth of slack
    /// between movement and cleanup.
    pub open spec fn wf(self) -> bool {
        &&& self.w == screen::LASER_SIZE_W
        &&& self.h == screen::LASER_SIZE_H1
        &&& self.speed == screen::LASER_SPEED
        &&& self.color == screen::spec_laser_color()
        &&& self.t >= 0
        &&& 0 <= self.x <= screen::GAME_SIZE_W
        &&& -100000 <= self.y <= 100000
    }

    pub fn new(x: i32, y: i32, dir: Direction) -> (l: Laser)
        ensures
            l == Laser::spec_new(x, y, dir),
    {
        Laser {
            x,
            y,
            w: screen::LASER_SIZE_W,
            h: screen::LASER_SIZE_H1,
            t: 0,
            color: screen::laser_color(),
            movement: dir,
            speed: screen::LASER_SPEED,
        }
    }

    /// The value `Laser::new` returns: blink counter at zero, the fixed
    /// shape, speed and color, moving in `dir`.
    pub open spec fn spec_new(x: i32, y: i32, dir: Direction) -> Laser {
        Laser {
            x,
            y,
            w: screen::LASER_SIZE_W,
            h: screen::LASER_SIZE_H1,
            t: 0,
            color: screen::spec_laser_color(),
            movement: dir,
            speed: screen::LASER_SPEED,
        }
    }

    /// Blink parity: a laser is visible exactly when `t mod 4 < 2`,
    /// independent of its position or any collision state.
    pub open spec fn spec_is_visible(&self) -> bool {
        self.t % 4 < 2
    }

    #[verifier::when_used_as_spec(spec_is_visible)]
    pub fn is_visible(&self) -> (b: bool)
        requires
            self.t >= 0,
        ensures
            b == self.spec_is_visible(),
    {
        self.t % 4 < 2
    }

    pub open spec fn spec_rect(&self) -> Rect {
        Rect { x: self.x, y: self.y, w: self.w, h: self.h }
    }

    /// The laser's bounding rectangle.
    #[verifier::when_used_as_spec(spec_rect)]
    pub fn rect(&self) -> (r: Rect)
        ensures
            r == self.spec_rect(),
    {
        Rect::new(self.x, self.y, self.w, self.h)
    }
}

/// The leftmost patrol position of an enemy in column `col`.
pub open spec fn patrol_start(col: int) -> int {
    screen::ENEMY_START_POS_X + col * (screen::ENEMY_SIZE_W + screen::ENEMY_X_SPACE)
}

/// The rightmost patrol position of an enemy in column `col`.
pub open spec fn patrol_end(col: int) -> int {
    screen::ENEMY_END_POS_X + col * (screen::ENEMY_SIZE_W + screen::ENEMY_X_SPACE)
}

impl Enemy {
    /// The well-formedness every roster entry satisfies: grid cell within
    /// the formation, identity determined by the cell, position on the
    /// column's patrol segment at even offset, vertical anchor fixed by the
    /// row, timers within their ranges, and no death countdown on an enemy
    /// already removed.
    pub open spec fn wf(self) -> bool {
        &&& 0 <= self.row < screen::ENEMIES_NUM
        &&& 0 <= self.col < screen::ENEMIES_PER_ROW
        &&& self.id == self.row * screen::ENEMIES_PER_ROW + self.col
        &&& patrol_start(self.col as int) <= self.x <= patrol_end(self.col as int)
        &&& (self.x - patrol_start(self.col as int)) % 2 == 0
        &&& self.y == screen::ENEMY_START_POS_Y + self.row * (screen::ENEMY_SIZE_H
            + screen::ENEMY_Y_SPACE)
        &&& 0 <= self.move_counter <= screen::ENEMY_PERIOD
        &&& (self.death_counter matches Some(d) ==> 1 <= d <= screen::DEATH_TIME)
        &&& (!self.alive ==> self.death_counter is None)
    }

    pub fn new(x: i32, y: i32, row: i32, col: i32, id: u32) -> (e: Enemy)
        ensures
            e == (Enemy {
                x,
                y,
                row,
                col,
                id,
                alive: true,
                death_counter: None,
                move_counter: screen::ENEMY_PERIOD,
                move_right: true,
                orientation: Orientation::INIT,
            }),
    {
        Enemy {
            x,
            y,
            row,
            col,
            id,
            alive: true,
            death_counter: None,
            move_counter: screen::ENEMY_PERIOD,
            move_right: true,
            orientation: Orientation::INIT,
        }
    }

    pub open spec fn spec_rect(&self) -> Rect {
        Rect { x: self.x, y: self.y, w: screen::ENEMY_SIZE_W, h: screen::ENEMY_SIZE_H }
    }

    /// The enemy's bounding rectangle (the formation's fixed cell size).
    #[verifier::when_used_as_spec(spec_rect)]
    pub fn rect(&self) -> (r: Rect)
        ensures
            r == self.spec_rect(),
    {
        Rect::new(self.x, self.y, screen::ENEMY_SIZE_W, screen::ENEMY_SIZE_H)
    }

    /// One patrol tick: when the phase counter reaches zero the enemy steps
    /// `ENEMY_DELTA` pixels, reverses at its column's bounds, toggles its
    /// orientation and reloads the counter; otherwise the counter counts
    /// down.  Row, column, identity and life state never change.
    pub open spec fn spec_shift(self) -> Enemy {
        if self.move_counter == 0 {
            let start = patrol_start(self.col as int);
            let end = patrol_end(self.col as int);
            let move_right = if self.x == start {
                true
            } else if self.x == end {
                false
            } else {
                self.move_right
            };
            let x = if move_right {
                (self.x + screen::ENEMY_DELTA) as i32
            } else {
                (self.x - screen::ENEMY_DELTA) as i32
            };
            let orientation = match self.orientation {
                Orientation::INIT => Orientation::FLIP,
                Orientation::FLIP => Orientation::INIT,
            };
            Enemy { x, move_right, orientation, move_counter: screen::ENEMY_PERIOD, ..self }
        } else {
            Enemy { move_counter: (self.move_counter - 1) as i32, ..self }
        }
    }

    /// The per-enemy patrol step; see [`Enemy::spec_shift`].
    pub fn enemy_shift(&mut self)
        requires
            old(self).wf(),
        ensures
            *final(self) == old(self).spec_shift(),
            final(self).wf(),
    {
        if self.move_counter == 0 {
            let width = screen::ENEMY_SIZE_W;
            let delta = screen::ENEMY_DELTA;
            let pad = screen::ENEMY_X_SPACE;
            let start = screen::ENEMY_START_POS_X + self.col * (width + pad);
            let end = screen::ENEMY_END_POS_X + self.col * (width + pad);
            self.move_right = if self.x == start {
                true
            } else if self.x == end {
                false
            } else {
                self.move_right
            };
            self.x = if self.move_right {
                self.x + delta
            } else {
                self.x - delta
            };
            self.orientation = match self.orientation {
                Orientation::INIT => Orientation::FLIP,
                Orientation::FLIP => Orientation::INIT,
            };
            self.move_counter = screen::ENEMY_PERIOD;
        } else {
            self.move_counter = self.move_counter - 1;
        }
    }
}

/// The band of the 4-frame hit animation a death countdown falls in: the
/// damage shown increases as the countdown approaches zero.
pub open spec fn hit_band(dc: int) -> int {
    if dc > screen::DEATH_TIME - screen::DEATH_HIT_1 {
        0
    } else if dc > screen::DEATH_TIME - screen::DEATH_HIT_1 - screen::DEATH_HIT_N {
        1
    } else if dc > screen::DEATH_TIME - screen::DEATH_HIT_1 - 2 * screen::DEATH_HIT_N {
        2
    } else {
        3
    }
}

/// The sprite bank for the enemy formation: one idle sprite per row for each
/// orientation, plus the four frames of the shared hit animation.
pub struct InvaderSprites {
    pub init: Vec<SpriteData>,
    pub flip: Vec<SpriteData>,
    pub hit: Vec<SpriteData>,
}

/// The mathematical value of an [`InvaderSprites`] bank.
pub ghost struct InvaderSpritesV {
    pub init: Seq<SpriteV>,
    pub flip: Seq<SpriteV>,
    pub hit: Seq<SpriteV>,
}

/// A sequence of sprites as a sequence of their values.
pub open spec fn sviews(s: Seq<SpriteData>) -> Seq<SpriteV> {
    s.map_values(|x: SpriteData| x@)
}

impl View for InvaderSprites {
    type V = InvaderSpritesV;

    open spec fn view(&self) -> InvaderSpritesV {
        InvaderSpritesV { init: sviews(self.init@), flip: sviews(self.flip@), hit: sviews(self.hit@) }
    }
}

impl InvaderSprites {
    /// One idle sprite per formation row and orientation, four hit frames.
    pub open spec fn wf(self) -> bool {
        &&& self@.init.len() == screen::ENEMIES_NUM
        &&& self@.flip.len() == screen::ENEMIES_NUM
        &&& self@.hit.len() == 4
    }

    /// A bank of fully opaque enemy-sized blocks, for callers that do not
    /// carry pixel art: every sprite cell is "on".
    pub fn solid() -> (s: InvaderSprites)
        ensures
            s.wf(),
            forall|i: int|
                0 <= i < screen::ENEMIES_NUM ==> #[trigger] s@.init[i].grid == solid_grid(
                    screen::ENEMY_SIZE_H as int,
                    screen::ENEMY_SIZE_W as int,
                    screen::spec_enemy_color(),
                ),
            forall|i: int|
                0 <= i < screen::ENEMIES_NUM ==> #[trigger] s@.flip[i].grid == solid_grid(
                    screen::ENEMY_SIZE_H as int,
                    screen::ENEMY_SIZE_W as int,
                    screen::spec_enemy_color(),
                ),
            forall|i: int|
                0 <= i < 4 ==> #[trigger] s@.hit[i].grid == solid_grid(
                    screen::ENEMY_SIZE_H as int,
                    screen::ENEMY_SIZE_W as int,
                    screen::spec_enemy_color(),
                ),
    {
        let mut init: Vec<SpriteData> = Vec::new();
        let mut flip: Vec<SpriteData> = Vec::new();
        let mut hit: Vec<SpriteData> = Vec::new();
        let rows = screen::ENEMY_SIZE_H as usize;
        let cols = screen::ENEMY_SIZE_W as usize;
        let mut i: usize = 0;
        while i < 6
            invariant
                rows == screen::ENEMY_SIZE_H as usize,
                cols == screen::ENEMY_SIZE_W as usize,
                i <= 6,
                init@.len() == i,
                flip@.len() == i,
                forall|j: int|
                    0 <= j < i ==> #[trigger] init@[j]@.grid == solid_grid(
                        screen::ENEMY_SIZE_H as int,
                        screen::ENEMY_SIZE_W as int,
                        screen::spec_enemy_color(),
                    ),
                forall|j: int|
                    0 <= j < i ==> #[trigger] flip@[j]@.grid == solid_grid(
                        screen::ENEMY_SIZE_H as int,
                        screen::ENEMY_SIZE_W as int,
                        screen::spec_enemy_color(),
                    ),
            decreases 6 - i,
        {
            init.push(solid_sprite(rows, cols, screen::enemy_color()));
            flip.push(solid_sprite(rows, cols, screen::enemy_color()));
            proof {
                assert(init@[i as int]@.grid == solid_grid(
                    screen::ENEMY_SIZE_H as int,
                    screen::ENEMY_SIZE_W as int,
                    screen::spec_enemy_color(),
                ));
                assert(flip@[i as int]@.grid == solid_grid(
                    screen::ENEMY_SIZE_H as int,
                    screen::ENEMY_SIZE_W as int,
                    screen::spec_enemy_color(),
                ));
            }
            i += 1;
        }
        let mut i: usize = 0;
        while i < 4
            invariant
                rows == screen::ENEMY_SIZE_H as usize,
                cols == screen::ENEMY_SIZE_W as usize,
                i <= 4,
                hit@.len() == i,
                forall|j: int|
                    0 <= j < i ==> #[trigger] hit@[j]@.grid == solid_grid(
                        screen::ENEMY_SIZE_H as int,
                        screen::ENEMY_SIZE_W as int,
                        screen::spec_enemy_color(),
                    ),
            decreases 4 - i,
        {
            hit.push(solid_sprite(rows, cols, screen::enemy_color()));
            proof {
                assert(hit@[i as int]@.grid == solid_grid(
                    screen::ENEMY_SIZE_H as int,
                    screen::ENEMY_SIZE_W as int,
                    screen::spec_enemy_color(),
                ));
            }
            i += 1;
        }
        let s = InvaderSprites { init, flip, hit };
        proof {
            assert forall|j: int| 0 <= j < 6 implies #[trigger] s@.init[j].grid == solid_grid(
                screen::ENEMY_SIZE_H as int,
                screen::ENEMY_SIZE_W as int,
                screen::spec_enemy_color(),
            ) by {
                assert(s@.init[j] == s.init@[j]@);
            }
            assert forall|j: int| 0 <= j < 6 implies #[trigger] s@.flip[j].grid == solid_grid(
                screen::ENEMY_SIZE_H as int,
                screen::ENEMY_SIZE_W as int,
                screen::spec_enemy_color(),
            ) by {
                assert(s@.flip[j] == s.flip@[j]@);
            }
            assert forall|j: int| 0 <= j < 4 implies #[trigger] s@.hit[j].grid == solid_grid(
                screen::ENEMY_SIZE_H as int,
                screen::ENEMY_SIZE_W as int,
                screen::spec_enemy_color(),
            ) by {
                assert(s@.hit[j] == s.hit@[j]@);
            }
        }
        s
    }
}

/// The sprite an enemy currently shows: while a death countdown runs, the
/// hit frame of the countdown's band; otherwise the idle sprite keyed by
/// (row, orientation).
pub open spec fn spec_invader_sprite(bank: InvaderSpritesV, e: Enemy) -> SpriteV {
    match e.death_counter {
        Some(dc) => bank.hit[hit_band(dc as int)],
        None => match e.orientation {
            Orientation::INIT => bank.init[e.row as int],
            Orientation::FLIP => bank.flip[e.row as int],
        },
    }
}

/// Select an enemy's active sprite from the bank; see
/// [`spec_invader_sprite`].
pub fn get_invader_sprite<'a>(enemy: &Enemy, bank: &'a InvaderSprites) -> (s: &'a SpriteData)
    requires
        bank.wf(),
        0 <= enemy.row < screen::ENEMIES_NUM,
        enemy.death_counter matches Some(d) ==> 1 <= d <= screen::DEATH_TIME,
    ensures
        s@ == spec_invader_sprite(bank@, *enemy),
{
    match enemy.death_counter {
        Some(dc) => {
            let band: usize = if dc > screen::DEATH_TIME - screen::DEATH_HIT_1 {
                0
            } else if dc > screen::DEATH_TIME - screen::DEATH_HIT_1 - screen::DEATH_HIT_N {
                1
            } else if dc > screen::DEATH_TIME - screen::DEATH_HIT_1 - 2 * screen::DEATH_HIT_N {
                2
            } else {
                3
            };
            proof {
                assert(bank@.hit[band as int] == bank.hit@[band as int]@);
            }
            &bank.hit[band]
        },
        None => {
            let row = enemy.row as usize;
            match enemy.orientation {
                Orientation::INIT => {
                    proof {
                        assert(bank@.init[row as int] == bank.init@[row as int]@);
                    }
                    &bank.init[row]
                },
                Orientation::FLIP => {
                    proof {
                        assert(bank@.flip[row as int] == bank.flip@[row as int]@);
                    }
                    &bank.flip[row]
                },
            }
        },
    }
}

} // verus!
