//! The projectile and collision resolver: destructive shield tests, the
//! one-pixel-at-a-time movement of both laser kinds (so that fast
//! projectiles cannot tunnel through thin destructible geometry), and the
//! full per-frame state transition in its fixed phase order.

use vstd::prelude::*;
use crate::entity::{InvaderSprites, InvaderSpritesV, Laser};
use crate::geometry::{Color, Direction, Input, Rect};
use crate::screen;
use crate::sprite::{any_on_in_rect, destructive_collide, erase_grid, SpriteData, SpriteV};
use crate::entity::sviews;
use crate::state::{
    spec_enemy_animation, spec_enemy_fire, spec_enemy_shift_all, spec_laser_enemy_collisions,
    spec_miss_check, spec_move_ship, spec_spawn_ship_laser, wf_shield, State, StateV,
};

verus! {

/// Broad-phase overlap between a projectile rectangle and a shield's
/// bounding box (whose width is taken from the grid's first row).
pub open spec fn spec_broad_overlap(sv: SpriteV, r: Rect) -> bool {
    &&& r.x < sv.x + sv.grid[0].len()
    &&& sv.x < r.x + r.w
    &&& r.y < sv.y + sv.grid.len()
    &&& sv.y < r.y + r.h
}

/// A destructive hit on one shield: broad-phase overlap and at least one
/// covered "on" pixel.
pub open spec fn spec_shield_hit(sv: SpriteV, r: Rect) -> bool {
    spec_broad_overlap(sv, r) && any_on_in_rect(sv.grid, sv.x, sv.y, r)
}

/// The first shield at index `i` or later that the rectangle destructively
/// hits.
pub open spec fn spec_first_shield_hit_from(shields: Seq<SpriteV>, r: Rect, i: int) -> Option<
    int,
>
    decreases shields.len() - i,
{
    if i < 0 || i >= shields.len() {
        None
    } else if spec_shield_hit(shields[i], r) {
        Some(i)
    } else {
        spec_first_shield_hit_from(shields, r, i + 1)
    }
}

/// The first shield the rectangle destructively hits, in list order.
pub open spec fn spec_first_shield_hit(shields: Seq<SpriteV>, r: Rect) -> Option<int> {
    spec_first_shield_hit_from(shields, r, 0)
}

/// A shield after erosion by a projectile rectangle.
pub open spec fn spec_eroded_shield(sv: SpriteV, r: Rect) -> SpriteV {
    SpriteV { grid: erase_grid(sv.grid, sv.x, sv.y, r), ..sv }
}

/// The shield list after one destructive test: only the first shield hit is
/// eroded, every other shield keeps its pixels.
pub open spec fn spec_shields_after(shields: Seq<SpriteV>, r: Rect) -> Seq<SpriteV> {
    match spec_first_shield_hit(shields, r) {
        None => shields,
        Some(i) => shields.update(i, spec_eroded_shield(shields[i], r)),
    }
}

/// Erosion that covers no "on" pixel leaves the grid unchanged.
proof fn lemma_erase_noop(grid: Seq<Seq<Color>>, ax: int, ay: int, r: Rect)
    requires
        !any_on_in_rect(grid, ax, ay, r),
    ensures
        erase_grid(grid, ax, ay, r) == grid,
{
    assert forall|rr: int| 0 <= rr < grid.len() implies erase_grid(grid, ax, ay, r)[rr]
        == grid[rr] by {
        assert forall|cc: int| 0 <= cc < grid[rr].len() implies erase_grid(
            grid,
            ax,
            ay,
            r,
        )[rr][cc] == grid[rr][cc] by {
            if grid[rr][cc].spec_is_visible() && r.spec_contains_point(ax + cc, ay + rr) {
                assert(any_on_in_rect(grid, ax, ay, r));
            }
        }
        assert(erase_grid(grid, ax, ay, r)[rr] =~= grid[rr]);
    }
    assert(erase_grid(grid, ax, ay, r) =~~= grid);
}

/// Test a projectile rectangle against each shield in order and erode the
/// first one destructively hit; see [`spec_shields_after`].
fn shields_laser_check(shields: &mut Vec<SpriteData>, laser: &Rect) -> (hit: bool)
    requires
        forall|i: int|
            0 <= i < old(shields)@.len() ==> wf_shield(#[trigger] sviews(old(shields)@)[i]),
    ensures
        sviews(final(shields)@) == spec_shields_after(sviews(old(shields)@), *laser),
        hit == (spec_first_shield_hit(sviews(old(shields)@), *laser) is Some),
        forall|i: int|
            0 <= i < final(shields)@.len() ==> wf_shield(#[trigger] sviews(final(shields)@)[i]),
{
    let ghost sh0 = sviews(old(shields)@);
    let mut i: usize = 0;
    while i < shields.len()
        invariant
            sviews(shields@) == sh0,
            sh0 == sviews(old(shields)@),
            forall|k: int| 0 <= k < sh0.len() ==> wf_shield(#[trigger] sh0[k]),
            i <= sh0.len(),
            shields@.len() == sh0.len(),
            spec_first_shield_hit_from(sh0, *laser, 0) == spec_first_shield_hit_from(
                sh0,
                *laser,
                i as int,
            ),
        decreases sh0.len() - i,
    {
        proof {
            assert(sh0[i as int] == shields@[i as int]@);
        }
        let sx = shields[i].x;
        let sy = shields[i].y;
        let w = shields[i].width();
        let h = shields[i].height();
        let shield_rect = Rect::new(sx, sy, w, h);
        if laser.intersects(&shield_rect) {
            let ghost pre = shields@;
            let mut sd = shields.remove(i);
            let destroyed = destructive_collide(laser, sx, sy, &mut sd.data);
            shields.insert(i, sd);
            proof {
                assert(shields@ =~= pre.update(i as int, sd));
                assert(sviews(shields@) =~~= sh0.update(i as int, sd@));
            }
            if destroyed {
                proof {
                    assert(spec_shield_hit(sh0[i as int], *laser));
                    assert(spec_first_shield_hit_from(sh0, *laser, i as int) == Some(i as int));
                    assert(sviews(shields@) =~~= spec_shields_after(sh0, *laser));
                    assert forall|k: int| 0 <= k < shields@.len() implies wf_shield(
                        #[trigger] sviews(shields@)[k]) by {
                        assert(sviews(shields@)[k] == shields@[k]@);
                        if k == i as int {
                            assert(shields@[k]@.grid.len() == sh0[k].grid.len());
                            assert(shields@[k]@.grid[0].len() == sh0[k].grid[0].len());
                        } else {
                            assert(shields@[k]@ == sh0[k]);
                        }
                    }
                }
                return true;
            }
            proof {
                lemma_erase_noop(sh0[i as int].grid, sh0[i as int].x, sh0[i as int].y, *laser);
                assert(sd@.grid == sh0[i as int].grid);
                assert(sd@ == sh0[i as int]);
                assert(sviews(shields@) =~~= sh0);
                assert(!spec_shield_hit(sh0[i as int], *laser));
            }
        } else {
            proof {
                assert(!spec_broad_overlap(sh0[i as int], *laser));
                assert(!spec_shield_hit(sh0[i as int], *laser));
            }
        }
        i += 1;
    }
    proof {
        assert(spec_first_shield_hit(sh0, *laser) is None);
    }
    false
}

impl State {
    /// Destructive test of a projectile rectangle against the shields:
    /// erodes the first shield hit and reports whether any pixel changed;
    /// see [`spec_shields_after`].
    pub fn laser_shield_check(&mut self, laser: &Rect) -> (hit: bool)
        requires
            old(self)@.wf_at(screen::LASER_SPEED as int),
        ensures
            final(self)@ == (StateV {
                shields: spec_shields_after(old(self)@.shields, *laser),
                ..old(self)@
            }),
            hit == (spec_first_shield_hit(old(self)@.shields, *laser) is Some),
            final(self)@.wf_at(screen::LASER_SPEED as int),
            old(self)@.wf() ==> final(self)@.wf(),
    {
        shields_laser_check(&mut self.shields, laser)
    }
}

/// One enemy laser's in-frame travel: up to `k` one-pixel steps downward,
/// the shields retested after every step; the first destructive hit erodes
/// that shield and consumes the laser.
pub open spec fn spec_step_laser_down(l: Laser, shields: Seq<SpriteV>, k: nat) -> (Option<
    Laser,
>, Seq<SpriteV>)
    decreases k,
{
    if k == 0 {
        (Some(l), shields)
    } else {
        let l1 = Laser { y: (l.y + 1) as i32, ..l };
        if spec_first_shield_hit(shields, l1.spec_rect()) is Some {
            (None, spec_shields_after(shields, l1.spec_rect()))
        } else {
            spec_step_laser_down(l1, shields, (k - 1) as nat)
        }
    }
}

/// All enemy lasers moved in list order, each sub-stepped against the
/// shields the earlier lasers may already have eroded; consumed lasers drop
/// out, survivors keep their order.
pub open spec fn spec_move_enemy_lasers(lasers: Seq<Laser>, shields: Seq<SpriteV>) -> (Seq<
    Laser,
>, Seq<SpriteV>)
    decreases lasers.len(),
{
    if lasers.len() == 0 {
        (lasers, shields)
    } else {
        let first = spec_step_laser_down(lasers[0], shields, lasers[0].speed as nat);
        let rest = spec_move_enemy_lasers(lasers.drop_first(), first.1);
        match first.0 {
            Some(l) => (seq![l] + rest.0, rest.1),
            None => rest,
        }
    }
}

/// Advance one enemy laser by its speed in one-pixel sub-steps; see
/// [`spec_step_laser_down`].
fn step_enemy_laser(l: Laser, shields: &mut Vec<SpriteData>) -> (res: Option<Laser>)
    requires
        l.wf(),
        forall|i: int|
            0 <= i < old(shields)@.len() ==> wf_shield(#[trigger] sviews(old(shields)@)[i]),
    ensures
        (res, sviews(final(shields)@)) == spec_step_laser_down(
            l,
            sviews(old(shields)@),
            l.speed as nat,
        ),
        forall|i: int|
            0 <= i < final(shields)@.len() ==> wf_shield(#[trigger] sviews(final(shields)@)[i]),
        res matches Some(l2) ==> l2 == (Laser { y: (l.y + l.speed) as i32, ..l }),
{
    let mut cur = l;
    let mut step: i32 = 0;
    let ghost sh0 = sviews(shields@);
    while step < screen::LASER_SPEED
        invariant
            l.wf(),
            0 <= step <= screen::LASER_SPEED,
            cur == (Laser { y: (l.y + step) as i32, ..l }),
            forall|i: int|
                0 <= i < shields@.len() ==> wf_shield(#[trigger] sviews(shields@)[i]),
            spec_step_laser_down(l, sviews(old(shields)@), l.speed as nat)
                == spec_step_laser_down(
                cur,
                sviews(shields@),
                (screen::LASER_SPEED - step) as nat,
            ),
        decreases screen::LASER_SPEED - step,
    {
        cur.y = cur.y + 1;
        let r = cur.rect();
        let hit = shields_laser_check(shields, &r);
        if hit {
            return None;
        }
        step += 1;
    }
    Some(cur)
}

} // verus!

verus! {

impl State {
    /// Move every enemy laser one pixel at a time with the shields retested
    /// after each pixel; see [`spec_move_enemy_lasers`].
    pub fn enemy_laser_movement(&mut self)
        requires
            old(self)@.wf(),
        ensures
            final(self)@ == (StateV {
                enemy_lasers: spec_move_enemy_lasers(
                    old(self)@.enemy_lasers,
                    old(self)@.shields,
                ).0,
                shields: spec_move_enemy_lasers(old(self)@.enemy_lasers, old(self)@.shields).1,
                ..old(self)@
            }),
            final(self)@.wf_at(screen::LASER_SPEED as int),
    {
        let ghost l0 = old(self)@.enemy_lasers;
        let ghost sh0 = old(self)@.shields;
        proof {
            assert(l0.skip(0) =~= l0);
            assert(Seq::<Laser>::empty() + spec_move_enemy_lasers(l0, sh0).0
                =~= spec_move_enemy_lasers(l0, sh0).0);
        }
        let mut kept: Vec<Laser> = Vec::new();
        let mut idx: usize = 0;
        while idx < self.enemy_lasers.len()
            invariant
                old(self)@.wf(),
                self.lives == old(self).lives,
                self.score == old(self).score,
                self.ship == old(self).ship,
                self.ship_laser == old(self).ship_laser,
                self.enemies == old(self).enemies,
                self.enemy_shot_delay == old(self).enemy_shot_delay,
                self.enemy_lasers == old(self).enemy_lasers,
                l0 == old(self)@.enemy_lasers,
                sh0 == old(self)@.shields,
                idx <= l0.len(),
                forall|i: int|
                    0 <= i < self.shields@.len() ==> wf_shield(
                        #[trigger] sviews(self.shields@)[i],
                    ),
                spec_move_enemy_lasers(l0, sh0).0 == kept@ + spec_move_enemy_lasers(
                    l0.skip(idx as int),
                    sviews(self.shields@),
                ).0,
                spec_move_enemy_lasers(l0, sh0).1 == spec_move_enemy_lasers(
                    l0.skip(idx as int),
                    sviews(self.shields@),
                ).1,
                forall|i: int|
                    0 <= i < kept@.len() ==> (#[trigger] kept@[i]).wf() && kept@[i].movement
                        == Direction::Down && kept@[i].y <= screen::GAME_SIZE_H
                        + screen::LASER_SPEED,
            decreases l0.len() - idx,
        {
            let l = self.enemy_lasers[idx];
            let ghost pre = sviews(self.shields@);
            let ghost tail = l0.skip(idx as int);
            let res = step_enemy_laser(l, &mut self.shields);
            proof {
                assert(tail[0] == l0[idx as int]);
                assert(tail.drop_first() =~= l0.skip(idx as int + 1));
                assert(l.speed == screen::LASER_SPEED);
            }
            match res {
                Some(l2) => {
                    kept.push(l2);
                    proof {
                        let rest = spec_move_enemy_lasers(
                            l0.skip(idx as int + 1),
                            sviews(self.shields@),
                        );
                        assert(spec_move_enemy_lasers(tail, pre).0 == seq![l2] + rest.0);
                        assert(kept@.drop_last() + (seq![l2] + rest.0) =~= kept@ + rest.0);
                    }
                },
                None => {},
            }
            idx += 1;
        }
        proof {
            assert(l0.skip(l0.len() as int) =~= Seq::<Laser>::empty());
            assert(spec_move_enemy_lasers(
                Seq::<Laser>::empty(),
                sviews(self.shields@),
            ).0 =~= Seq::<Laser>::empty());
            assert(kept@ + Seq::<Laser>::empty() =~= kept@);
        }
        self.enemy_lasers = kept;
        proof {
            assert(final(self)@ == (StateV {
                enemy_lasers: spec_move_enemy_lasers(l0, sh0).0,
                shields: spec_move_enemy_lasers(l0, sh0).1,
                ..old(self)@
            }));
        }
    }
}

/// The player laser's in-frame travel: up to `k` one-pixel steps upward;
/// after each pixel the laser is retested against the shields (a
/// destructive hit erodes the shield, consumes the laser and ends the
/// movement) and then against the enemies, exactly as at the start of the
/// frame.
pub open spec fn spec_ship_laser_steps(s: StateV, bank: InvaderSpritesV, k: nat) -> StateV
    decreases k,
{
    if k == 0 {
        s
    } else {
        match s.ship_laser {
            None => s,
            Some(l) => {
                let l1 = Laser { y: (l.y - 1) as i32, ..l };
                let s1 = StateV { ship_laser: Some(l1), ..s };
                if spec_first_shield_hit(s1.shields, l1.spec_rect()) is Some {
                    StateV {
                        ship_laser: None,
                        shields: spec_shields_after(s1.shields, l1.spec_rect()),
                        ..s1
                    }
                } else {
                    spec_ship_laser_steps(
                        spec_laser_enemy_collisions(s1, bank),
                        bank,
                        (k - 1) as nat,
                    )
                }
            },
        }
    }
}

/// One full frame transition, in the fixed phase order: ship movement and
/// clamping, conditional laser spawn, the pre-movement collision pass, the
/// formation patrol tick, death-animation ticks with scoring, the enemy
/// volley attempt, enemy laser movement, player laser movement, and the
/// off-screen cleanup.
pub open spec fn spec_update(s: StateV, input: Input, bank: InvaderSpritesV) -> StateV {
    let s1 = spec_move_ship(s, input);
    let s2 = spec_spawn_ship_laser(s1, input.button1);
    let s3 = spec_laser_enemy_collisions(s2, bank);
    let s4 = spec_enemy_shift_all(s3);
    let s5 = spec_enemy_animation(s4);
    let s6 = spec_enemy_fire(s5);
    let s7 = StateV {
        enemy_lasers: spec_move_enemy_lasers(s6.enemy_lasers, s6.shields).0,
        shields: spec_move_enemy_lasers(s6.enemy_lasers, s6.shields).1,
        ..s6
    };
    let s8 = match s7.ship_laser {
        Some(l) => spec_ship_laser_steps(s7, bank, l.speed as nat),
        None => s7,
    };
    spec_miss_check(s8)
}

impl State {
    /// Consume one input sample and advance the simulation one frame; see
    /// [`spec_update`].
    pub fn update_mut(&mut self, buttons: Input, bank: &InvaderSprites)
        requires
            old(self)@.wf(),
            bank.wf(),
        ensures
            final(self)@ == spec_update(old(self)@, buttons, bank@),
            final(self)@.wf(),
    {
        if buttons.left {
            self.ship.x = self.ship.x - self.ship.speed;
        } else if buttons.right {
            self.ship.x = self.ship.x + self.ship.speed;
        }
        if self.ship.x > screen::SHIP_LIMIT_X2 {
            self.ship.x = screen::SHIP_LIMIT_X2;
        } else if self.ship.x < screen::SHIP_LIMIT_X1 {
            self.ship.x = screen::SHIP_LIMIT_X1;
        }
        let ghost s1 = spec_move_ship(old(self)@, buttons);
        proof {
            assert(self@ == s1);
            assert(self@.wf());
        }

        if self.ship_laser.is_none() && buttons.button1 {
            self.ship_laser = Some(
                Laser::new(self.ship.x + self.ship.w / 2, self.ship.y, Direction::Up),
            );
        }
        let ghost s2 = spec_spawn_ship_laser(s1, buttons.button1);
        proof {
            assert(self@ == s2);
            assert(self@.wf());
        }

        self.laser_enemy_collisions(bank);
        let ghost s3 = spec_laser_enemy_collisions(s2, bank@);
        proof {
            assert(self@ == s3);
        }
        self.enemy_shift();
        let ghost s4 = spec_enemy_shift_all(s3);
        self.enemy_animation();
        let ghost s5 = spec_enemy_animation(s4);
        self.enemy_fire_lasers();
        let ghost s6 = spec_enemy_fire(s5);
        self.enemy_laser_movement();
        let ghost s7 = StateV {
            enemy_lasers: spec_move_enemy_lasers(s6.enemy_lasers, s6.shields).0,
            shields: spec_move_enemy_lasers(s6.enemy_lasers, s6.shields).1,
            ..s6
        };
        proof {
            assert(self@ == s7);
            assert(self@.wf_at(screen::LASER_SPEED as int));
        }

        let ghost s8 = match s7.ship_laser {
            Some(l) => spec_ship_laser_steps(s7, bank@, l.speed as nat),
            None => s7,
        };
        if self.ship_laser.is_some() {
            let laser_speed = match &self.ship_laser {
                Some(l) => l.speed,
                None => 0,
            };
            proof {
                assert(laser_speed == screen::LASER_SPEED);
                assert(s7.ship_laser->Some_0.y >= 0);
            }
            let ghost sl = s7;
            let mut step: i32 = 0;
            while step < laser_speed
                invariant
                    bank.wf(),
                    laser_speed == screen::LASER_SPEED,
                    0 <= step <= laser_speed,
                    self@.wf_at(screen::LASER_SPEED as int),
                    self@.ship_laser matches Some(l) ==> l.y >= -step,
                    s8 == spec_ship_laser_steps(self@, bank@, (laser_speed - step) as nat),
                decreases laser_speed - step,
            {
                match &mut self.ship_laser {
                    Some(laser) => {
                        laser.y = laser.y - 1;
                    },
                    None => {},
                }
                if self.ship_laser.is_some() {
                    let l = match &self.ship_laser {
                        Some(l) => *l,
                        None => Laser::new(0, 0, Direction::Up),
                    };
                    let r = l.rect();
                    let hit = self.laser_shield_check(&r);
                    if hit {
                        let ghost mid = self@;
                        self.ship_laser = None;
                        proof {
                            assert(mid.wf_at(screen::LASER_SPEED as int));
                            assert(self@.shields == mid.shields);
                            assert forall|i: int|
                                0 <= i < self@.shields.len() implies wf_shield(
                                #[trigger] self@.shields[i]) by {
                                assert(self@.shields[i] == mid.shields[i]);
                            }
                            assert(self@.wf_at(screen::LASER_SPEED as int));
                        }
                    } else {
                        self.laser_enemy_collisions(bank);
                    }
                }
                step += 1;
            }
            proof {
                assert(s8 == spec_ship_laser_steps(self@, bank@, 0nat));
                assert(self@ == s8);
            }
        } else {
            proof {
                assert(self@ == s8);
            }
        }

        self.laser_miss_check();
        proof {
            assert(final(self)@ == spec_miss_check(s8));
            assert(final(self)@ == spec_update(old(self)@, buttons, bank@));
        }
    }
}

} // verus!
