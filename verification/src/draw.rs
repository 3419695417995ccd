//! The per-frame snapshot: a list of drawing primitives (filled rectangles
//! and bitmap blits) from which an external renderer reproduces the frame
//! exactly.  Score-digit rendering belongs to a collaborator and is not
//! part of the snapshot.  When `lives` is negative only the background is
//! emitted: no ship, shields, enemies or projectiles.

use vstd::prelude::*;
use crate::entity::{Enemy, InvaderSprites, InvaderSpritesV, Laser, spec_invader_sprite};
use crate::geometry::Color;
use crate::screen;
use crate::sprite::{copy_grid, SpriteData, SpriteV};
use crate::state::{State, StateV};

verus! {

/// One drawing primitive.
#[derive(Clone, Debug, PartialEq)]
pub enum Drawable {
    /// A filled rectangle.
    Rect { color: Color, x: i32, y: i32, w: i32, h: i32 },
    /// A bitmap blitted at a position.
    Sprite { x: i32, y: i32, sprite: SpriteData },
    /// A destructible bitmap drawn at its own anchor.
    DestructibleSprite { sprite: SpriteData },
}

/// The mathematical value of a [`Drawable`].
pub ghost enum DrawV {
    Rect { color: Color, x: int, y: int, w: int, h: int },
    Sprite { x: int, y: int, sprite: SpriteV },
    DestructibleSprite { sprite: SpriteV },
}

impl View for Drawable {
    type V = DrawV;

    open spec fn view(&self) -> DrawV {
        match self {
            Drawable::Rect { color, x, y, w, h } => DrawV::Rect {
                color: *color,
                x: *x as int,
                y: *y as int,
                w: *w as int,
                h: *h as int,
            },
            Drawable::Sprite { x, y, sprite } => DrawV::Sprite {
                x: *x as int,
                y: *y as int,
                sprite: sprite@,
            },
            Drawable::DestructibleSprite { sprite } => DrawV::DestructibleSprite {
                sprite: sprite@,
            },
        }
    }
}

/// A list of drawables as a list of their values.
pub open spec fn draws_view(s: Seq<Drawable>) -> Seq<DrawV> {
    s.map_values(|d: Drawable| d@)
}

/// The fixed backdrop: playfield, ground strip, the two corridor markers.
pub open spec fn spec_backdrop() -> Seq<DrawV> {
    seq![
        DrawV::Rect {
            color: Color::spec_black(),
            x: 0,
            y: 0,
            w: screen::GAME_SIZE_W as int,
            h: screen::GAME_SIZE_H as int,
        },
        DrawV::Rect {
            color: screen::spec_ground_color(),
            x: 0,
            y: screen::SKY_TO_GROUND as int,
            w: screen::GAME_SIZE_W as int,
            h: screen::GAME_SIZE_H - screen::SKY_TO_GROUND,
        },
        DrawV::Rect {
            color: screen::spec_left_dot_color(),
            x: screen::GAME_DOT_LEFT as int,
            y: screen::SKY_TO_GROUND + 1,
            w: screen::GAME_DOT_SIZE_W as int,
            h: screen::GAME_DOT_SIZE_H as int,
        },
        DrawV::Rect {
            color: screen::spec_right_dot_color(),
            x: screen::GAME_DOT_RIGHT as int,
            y: screen::SKY_TO_GROUND + 1,
            w: screen::GAME_DOT_SIZE_W as int,
            h: screen::GAME_DOT_SIZE_H as int,
        },
    ]
}

/// The shield blits, in list order.
pub open spec fn spec_shield_draws(shields: Seq<SpriteV>) -> Seq<DrawV>
    decreases shields.len(),
{
    if shields.len() == 0 {
        Seq::empty()
    } else {
        spec_shield_draws(shields.drop_last()).push(
            DrawV::DestructibleSprite { sprite: shields.last() },
        )
    }
}

/// The blits of the living enemies, in roster order, each showing its
/// active sprite.
pub open spec fn spec_enemy_draws(enemies: Seq<Enemy>, bank: InvaderSpritesV) -> Seq<DrawV>
    decreases enemies.len(),
{
    if enemies.len() == 0 {
        Seq::empty()
    } else {
        let prev = spec_enemy_draws(enemies.drop_last(), bank);
        let e = enemies.last();
        if e.alive {
            prev.push(
                DrawV::Sprite {
                    x: e.x as int,
                    y: e.y as int,
                    sprite: spec_invader_sprite(bank, e),
                },
            )
        } else {
            prev
        }
    }
}

/// The rectangle a laser draws as.
pub open spec fn spec_laser_rect(l: Laser) -> DrawV {
    DrawV::Rect { color: l.color, x: l.x as int, y: l.y as int, w: l.w as int, h: l.h as int }
}

/// The rectangles of the currently visible enemy lasers, in list order.
pub open spec fn spec_laser_draws(lasers: Seq<Laser>) -> Seq<DrawV>
    decreases lasers.len(),
{
    if lasers.len() == 0 {
        Seq::empty()
    } else {
        let prev = spec_laser_draws(lasers.drop_last());
        if lasers.last().spec_is_visible() {
            prev.push(spec_laser_rect(lasers.last()))
        } else {
            prev
        }
    }
}

/// The whole frame snapshot: the backdrop; then, unless `lives` is
/// negative, the ship, the shields, the living enemies, and every laser in
/// its visible blink phase.
pub open spec fn spec_draw(s: StateV, bank: InvaderSpritesV, ship_sprite: SpriteV) -> Seq<
    DrawV,
> {
    if s.lives < 0 {
        spec_backdrop()
    } else {
        let ship = seq![
            DrawV::Sprite { x: s.ship.x as int, y: s.ship.y as int, sprite: ship_sprite },
        ];
        let shields = spec_shield_draws(s.shields);
        let enemies = spec_enemy_draws(s.enemies, bank);
        let ship_laser = match s.ship_laser {
            Some(l) => if l.spec_is_visible() {
                seq![spec_laser_rect(l)]
            } else {
                Seq::empty()
            },
            None => Seq::empty(),
        };
        spec_backdrop() + ship + shields + enemies + ship_laser + spec_laser_draws(
            s.enemy_lasers,
        )
    }
}

/// A deep copy of a sprite, for placing one into a snapshot.
fn clone_sprite(s: &SpriteData) -> (out: SpriteData)
    ensures
        out@ == s@,
{
    SpriteData { x: s.x, y: s.y, data: copy_grid(&s.data) }
}

impl State {
    /// Emit the drawing primitives of the current frame; see [`spec_draw`].
    /// The sprite bank supplies the enemies' pixel art and `ship_sprite`
    /// the ship's.
    pub fn draw(&self, bank: &InvaderSprites, ship_sprite: &SpriteData) -> (out: Vec<Drawable>)
        requires
            self@.wf_at(screen::LASER_SPEED as int),
            bank.wf(),
        ensures
            draws_view(out@) == spec_draw(self@, bank@, ship_sprite@),
    {
        let mut out: Vec<Drawable> = Vec::new();
        out.push(
            Drawable::Rect {
                color: Color::black(),
                x: 0,
                y: 0,
                w: screen::GAME_SIZE_W,
                h: screen::GAME_SIZE_H,
            },
        );
        out.push(
            Drawable::Rect {
                color: screen::ground_color(),
                x: 0,
                y: screen::SKY_TO_GROUND,
                w: screen::GAME_SIZE_W,
                h: screen::GAME_SIZE_H - screen::SKY_TO_GROUND,
            },
        );
        out.push(
            Drawable::Rect {
                color: screen::left_dot_color(),
                x: screen::GAME_DOT_LEFT,
                y: screen::SKY_TO_GROUND + 1,
                w: screen::GAME_DOT_SIZE_W,
                h: screen::GAME_DOT_SIZE_H,
            },
        );
        out.push(
            Drawable::Rect {
                color: screen::right_dot_color(),
                x: screen::GAME_DOT_RIGHT,
                y: screen::SKY_TO_GROUND + 1,
                w: screen::GAME_DOT_SIZE_W,
                h: screen::GAME_DOT_SIZE_H,
            },
        );
        proof {
            assert(draws_view(out@) =~= spec_backdrop());
        }
        if self.lives < 0 {
            return out;
        }

        out.push(
            Drawable::Sprite {
                x: self.ship.x,
                y: self.ship.y,
                sprite: clone_sprite(ship_sprite),
            },
        );
        let ghost base1 = spec_backdrop() + seq![
            DrawV::Sprite {
                x: self@.ship.x as int,
                y: self@.ship.y as int,
                sprite: ship_sprite@,
            },
        ];
        proof {
            assert(draws_view(out@) =~= base1);
        }

        let mut i: usize = 0;
        while i < self.shields.len()
            invariant
                i <= self@.shields.len(),
                self@.shields == crate::entity::sviews(self.shields@),
                base1 == spec_backdrop() + seq![
                    DrawV::Sprite {
                        x: self@.ship.x as int,
                        y: self@.ship.y as int,
                        sprite: ship_sprite@,
                    },
                ],
                draws_view(out@) == base1 + spec_shield_draws(self@.shields.take(i as int)),
            decreases self@.shields.len() - i,
        {
            let ghost before = draws_view(out@);
            let d = Drawable::DestructibleSprite { sprite: clone_sprite(&self.shields[i]) };
            proof {
                assert(self@.shields[i as int] == self.shields@[i as int]@);
                assert(d@ == (DrawV::DestructibleSprite { sprite: self@.shields[i as int] }));
            }
            out.push(d);
            proof {
                assert(draws_view(out@) =~= before.push(d@));
                assert(self@.shields.take(i + 1).drop_last() =~= self@.shields.take(i as int));
                assert(self@.shields.take(i + 1).last() == self@.shields[i as int]);
                assert(spec_shield_draws(self@.shields.take(i + 1)) == spec_shield_draws(
                    self@.shields.take(i as int),
                ).push(d@));
                assert(before.push(d@) =~= base1 + spec_shield_draws(self@.shields.take(i + 1)));
            }
            i += 1;
        }
        let ghost base2 = base1 + spec_shield_draws(self@.shields);
        proof {
            assert(self@.shields.take(self@.shields.len() as int) =~= self@.shields);
        }

        let mut i: usize = 0;
        while i < self.enemies.len()
            invariant
                bank.wf(),
                self@.wf_at(screen::LASER_SPEED as int),
                i <= self@.enemies.len(),
                self@.enemies == self.enemies@,
                draws_view(out@) == base2 + spec_enemy_draws(
                    self@.enemies.take(i as int),
                    bank@,
                ),
            decreases self@.enemies.len() - i,
        {
            let e = self.enemies[i];
            proof {
                assert(self@.enemies[i as int].wf());
                assert(self@.enemies.take(i + 1).drop_last() =~= self@.enemies.take(i as int));
                assert(self@.enemies.take(i + 1).last() == self@.enemies[i as int]);
            }
            if e.alive {
                let sprite = crate::entity::get_invader_sprite(&e, bank);
                let ghost before = draws_view(out@);
                let d = Drawable::Sprite { x: e.x, y: e.y, sprite: clone_sprite(sprite) };
                proof {
                    assert(d@ == (DrawV::Sprite {
                        x: e.x as int,
                        y: e.y as int,
                        sprite: spec_invader_sprite(bank@, e),
                    }));
                }
                out.push(d);
                proof {
                    assert(draws_view(out@) =~= before.push(d@));
                    assert(spec_enemy_draws(self@.enemies.take(i + 1), bank@)
                        == spec_enemy_draws(self@.enemies.take(i as int), bank@).push(d@));
                    assert(before.push(d@) =~= base2 + spec_enemy_draws(
                        self@.enemies.take(i + 1),
                        bank@,
                    ));
                }
            }
            i += 1;
        }
        let ghost base3 = base2 + spec_enemy_draws(self@.enemies, bank@);
        proof {
            assert(self@.enemies.take(self@.enemies.len() as int) =~= self@.enemies);
        }

        match &self.ship_laser {
            Some(laser) => {
                if laser.is_visible() {
                    out.push(
                        Drawable::Rect {
                            color: laser.color,
                            x: laser.x,
                            y: laser.y,
                            w: laser.w,
                            h: laser.h,
                        },
                    );
                }
            },
            None => {},
        }
        let ghost base4 = base3 + (match self@.ship_laser {
            Some(l) => if l.spec_is_visible() {
                seq![spec_laser_rect(l)]
            } else {
                Seq::<DrawV>::empty()
            },
            None => Seq::<DrawV>::empty(),
        });
        proof {
            assert(draws_view(out@) =~= base4);
        }

        let mut i: usize = 0;
        while i < self.enemy_lasers.len()
            invariant
                self@.wf_at(screen::LASER_SPEED as int),
                i <= self@.enemy_lasers.len(),
                self@.enemy_lasers == self.enemy_lasers@,
                draws_view(out@) == base4 + spec_laser_draws(self@.enemy_lasers.take(i as int)),
            decreases self@.enemy_lasers.len() - i,
        {
            let laser = self.enemy_lasers[i];
            proof {
                assert(self@.enemy_lasers[i as int].wf());
                assert(self@.enemy_lasers.take(i + 1).drop_last() =~= self@.enemy_lasers.take(
                    i as int,
                ));
                assert(self@.enemy_lasers.take(i + 1).last() == self@.enemy_lasers[i as int]);
            }
            if laser.is_visible() {
                let ghost before = draws_view(out@);
                let d = Drawable::Rect {
                    color: laser.color,
                    x: laser.x,
                    y: laser.y,
                    w: laser.w,
                    h: laser.h,
                };
                proof {
                    assert(d@ == spec_laser_rect(laser));
                }
                out.push(d);
                proof {
                    assert(draws_view(out@) =~= before.push(d@));
                    assert(spec_laser_draws(self@.enemy_lasers.take(i + 1)) == spec_laser_draws(
                        self@.enemy_lasers.take(i as int),
                    ).push(d@));
                    assert(before.push(d@) =~= base4 + spec_laser_draws(
                        self@.enemy_lasers.take(i + 1),
                    ));
                }
            }
            i += 1;
        }
        proof {
            assert(self@.enemy_lasers.take(self@.enemy_lasers.len() as int)
                =~= self@.enemy_lasers);
            assert(draws_view(out@) =~= spec_draw(self@, bank@, ship_sprite@));
        }
        out
    }
}

} // verus!
