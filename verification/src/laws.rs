//! The frame-level laws of the simulation, proved once and for all over the
//! specification-level transition [`spec_update`]: the single-laser spawn
//! rule, monotonic shield erosion, score monotonicity in lock-step with
//! enemy removal, and the stability of every enemy's identity.

use vstd::prelude::*;
use crate::entity::{Enemy, InvaderSpritesV, Laser};
use crate::geometry::Input;
use crate::screen;
use crate::sprite::SpriteV;
use crate::state::{
    count_dead, lemma_count_dead_bounds, lemma_count_dead_map, lemma_count_dead_tick,
    spec_completing_count, spec_enemy_animation, spec_enemy_fire, spec_enemy_shift_all,
    spec_laser_enemy_collisions, spec_miss_check, spec_move_ship, spec_spawn_ship_laser,
    spec_tick_enemy, StateV,
};
use crate::resolver::{
    spec_eroded_shield, spec_first_shield_hit, spec_move_enemy_lasers, spec_shields_after,
    spec_ship_laser_steps, spec_step_laser_down, spec_update,
};

verus! {

/// At most one player laser: while one is alive, asking to spawn another is
/// a no-op — the state (and in particular the existing laser) is unchanged.
/// That the count after any frame is zero or one is structural: the state
/// holds the player laser in an `Option`.
pub proof fn lemma_spawn_refused_while_laser_alive(s: StateV, fire: bool)
    requires
        s.ship_laser is Some,
    ensures
        spec_spawn_ship_laser(s, fire) == s,
{
}

/// Erosion is reflexive: a shield has eroded (vacuously) from itself.
proof fn lemma_eroded_refl(a: SpriteV)
    ensures
        a.eroded_from(a),
{
}

/// Erosion composes: pixels only ever disappear along a chain of frames.
proof fn lemma_eroded_trans(a: SpriteV, b: SpriteV, c: SpriteV)
    requires
        a.eroded_from(b),
        b.eroded_from(c),
    ensures
        a.eroded_from(c),
{
    assert forall|r: int, c_: int| a.pixel_on(r, c_) implies c.pixel_on(r, c_) by {
        assert(b.pixel_on(r, c_));
    }
}

/// A first-hit search yields an index in range, pointing at a hit shield.
proof fn lemma_first_shield_hit_bounds(shields: Seq<SpriteV>, r: crate::geometry::Rect, i: int)
    ensures
        crate::resolver::spec_first_shield_hit_from(shields, r, i) matches Some(j) ==> i <= j
            < shields.len(),
    decreases shields.len() - i,
{
    if 0 <= i < shields.len() {
        lemma_first_shield_hit_bounds(shields, r, i + 1);
    }
}

/// A first-hit search over the roster yields an index in range, pointing at
/// a living enemy.
proof fn lemma_first_hit_bounds(l: Laser, enemies: Seq<Enemy>, bank: InvaderSpritesV, i: int)
    ensures
        crate::state::spec_first_hit_from(l, enemies, bank, i) matches Some(j) ==> i <= j
            < enemies.len() && enemies[j].alive,
    decreases enemies.len() - i,
{
    if 0 <= i < enemies.len() {
        lemma_first_hit_bounds(l, enemies, bank, i + 1);
    }
}

/// Erosion by one rectangle turns pixels off and nothing else.
proof fn lemma_eroded_shield_erodes(sv: SpriteV, r: crate::geometry::Rect)
    ensures
        spec_eroded_shield(sv, r).eroded_from(sv),
{
    let e = spec_eroded_shield(sv, r);
    assert(e.grid.len() == sv.grid.len());
    assert(forall|rr: int| 0 <= rr < e.grid.len() ==> e.grid[rr].len() == sv.grid[rr].len());
    assert forall|rr: int, cc: int| e.pixel_on(rr, cc) implies sv.pixel_on(rr, cc) by {
        assert(e.grid[rr][cc].spec_is_visible());
    }
}

/// One destructive test only ever turns pixels off, in every shield.
proof fn lemma_shields_after_erode(shields: Seq<SpriteV>, r: crate::geometry::Rect)
    ensures
        spec_shields_after(shields, r).len() == shields.len(),
        forall|i: int|
            0 <= i < shields.len() ==> (#[trigger] spec_shields_after(shields, r)[i]).eroded_from(
                shields[i],
            ),
{
    lemma_first_shield_hit_bounds(shields, r, 0);
    assert forall|i: int| 0 <= i < shields.len() implies (#[trigger] spec_shields_after(
        shields,
        r,
    )[i]).eroded_from(shields[i]) by {
        match spec_first_shield_hit(shields, r) {
            None => {
                lemma_eroded_refl(shields[i]);
            },
            Some(j) => {
                if i == j {
                    assert(spec_shields_after(shields, r)[i] == spec_eroded_shield(
                        shields[i],
                        r,
                    ));
                    lemma_eroded_shield_erodes(shields[i], r);
                } else {
                    lemma_eroded_refl(shields[i]);
                }
            },
        }
    }
}

/// An enemy laser's sub-stepped travel only erodes the shields.
proof fn lemma_step_laser_erodes(l: Laser, shields: Seq<SpriteV>, k: nat)
    ensures
        spec_step_laser_down(l, shields, k).1.len() == shields.len(),
        forall|i: int|
            0 <= i < shields.len() ==> (#[trigger] spec_step_laser_down(
                l,
                shields,
                k,
            ).1[i]).eroded_from(shields[i]),
    decreases k,
{
    if k == 0 {
        assert forall|i: int| 0 <= i < shields.len() implies (#[trigger] spec_step_laser_down(
            l,
            shields,
            k,
        ).1[i]).eroded_from(shields[i]) by {
            lemma_eroded_refl(shields[i]);
        }
    } else {
        let l1 = Laser { y: (l.y + 1) as i32, ..l };
        if spec_first_shield_hit(shields, l1.spec_rect()) is Some {
            lemma_shields_after_erode(shields, l1.spec_rect());
        } else {
            lemma_step_laser_erodes(l1, shields, (k - 1) as nat);
        }
    }
}

/// Moving the whole enemy laser list only erodes the shields.
proof fn lemma_move_lasers_erode(lasers: Seq<Laser>, shields: Seq<SpriteV>)
    ensures
        spec_move_enemy_lasers(lasers, shields).1.len() == shields.len(),
        forall|i: int|
            0 <= i < shields.len() ==> (#[trigger] spec_move_enemy_lasers(
                lasers,
                shields,
            ).1[i]).eroded_from(shields[i]),
    decreases lasers.len(),
{
    if lasers.len() == 0 {
        assert forall|i: int| 0 <= i < shields.len() implies (#[trigger] spec_move_enemy_lasers(
            lasers,
            shields,
        ).1[i]).eroded_from(shields[i]) by {
            lemma_eroded_refl(shields[i]);
        }
    } else {
        let first = spec_step_laser_down(lasers[0], shields, lasers[0].speed as nat);
        lemma_step_laser_erodes(lasers[0], shields, lasers[0].speed as nat);
        lemma_move_lasers_erode(lasers.drop_first(), first.1);
        assert forall|i: int| 0 <= i < shields.len() implies (#[trigger] spec_move_enemy_lasers(
            lasers,
            shields,
        ).1[i]).eroded_from(shields[i]) by {
            lemma_eroded_trans(
                spec_move_enemy_lasers(lasers, shields).1[i],
                first.1[i],
                shields[i],
            );
        }
    }
}

/// Resolution of the player laser against the roster never moves, renames
/// or revives an enemy: only a death countdown can start.
proof fn lemma_collisions_frame(s: StateV, bank: InvaderSpritesV)
    ensures
        spec_laser_enemy_collisions(s, bank).shields == s.shields,
        spec_laser_enemy_collisions(s, bank).score == s.score,
        spec_laser_enemy_collisions(s, bank).lives == s.lives,
        spec_laser_enemy_collisions(s, bank).enemy_lasers == s.enemy_lasers,
        spec_laser_enemy_collisions(s, bank).enemies.len() == s.enemies.len(),
        forall|i: int|
            0 <= i < s.enemies.len() ==> {
                let e2 = #[trigger] spec_laser_enemy_collisions(s, bank).enemies[i];
                e2.row == s.enemies[i].row && e2.col == s.enemies[i].col && e2.id
                    == s.enemies[i].id && e2.alive == s.enemies[i].alive && e2.x
                    == s.enemies[i].x && e2.y == s.enemies[i].y && (s.enemies[i].death_counter
                    is Some ==> e2.death_counter == s.enemies[i].death_counter) && (
                !s.enemies[i].alive ==> e2 == s.enemies[i])
            },
{
    if s.ship_laser is Some {
        lemma_first_hit_bounds(s.ship_laser->Some_0, s.enemies, bank, 0);
    }
}

/// The player laser's sub-stepped travel erodes shields, keeps the score
/// and every enemy's identity, position and life state.
proof fn lemma_ship_steps_frame(s: StateV, bank: InvaderSpritesV, k: nat)
    ensures
        spec_ship_laser_steps(s, bank, k).shields.len() == s.shields.len(),
        forall|i: int|
            0 <= i < s.shields.len() ==> (#[trigger] spec_ship_laser_steps(
                s,
                bank,
                k,
            ).shields[i]).eroded_from(s.shields[i]),
        spec_ship_laser_steps(s, bank, k).score == s.score,
        spec_ship_laser_steps(s, bank, k).lives == s.lives,
        spec_ship_laser_steps(s, bank, k).enemies.len() == s.enemies.len(),
        forall|i: int|
            0 <= i < s.enemies.len() ==> {
                let e2 = #[trigger] spec_ship_laser_steps(s, bank, k).enemies[i];
                e2.row == s.enemies[i].row && e2.col == s.enemies[i].col && e2.id
                    == s.enemies[i].id && e2.alive == s.enemies[i].alive
            },
    decreases k,
{
    if k == 0 || s.ship_laser is None {
        assert forall|i: int| 0 <= i < s.shields.len() implies (#[trigger] spec_ship_laser_steps(
            s,
            bank,
            k,
        ).shields[i]).eroded_from(s.shields[i]) by {
            lemma_eroded_refl(s.shields[i]);
        }
    } else {
        let l = s.ship_laser->Some_0;
        let l1 = Laser { y: (l.y - 1) as i32, ..l };
        let s1 = StateV { ship_laser: Some(l1), ..s };
        if spec_first_shield_hit(s1.shields, l1.spec_rect()) is Some {
            lemma_shields_after_erode(s1.shields, l1.spec_rect());
        } else {
            let s2 = spec_laser_enemy_collisions(s1, bank);
            lemma_collisions_frame(s1, bank);
            lemma_ship_steps_frame(s2, bank, (k - 1) as nat);
            assert forall|i: int|
                0 <= i < s.shields.len() implies (#[trigger] spec_ship_laser_steps(
                s,
                bank,
                k,
            ).shields[i]).eroded_from(s.shields[i]) by {
                lemma_eroded_refl(s.shields[i]);
                lemma_eroded_trans(
                    spec_ship_laser_steps(s, bank, k).shields[i],
                    s2.shields[i],
                    s.shields[i],
                );
            }
        }
    }
}

/// Equal life states, entry for entry, give equal dead counts.
proof fn lemma_count_dead_pointwise(a: Seq<Enemy>, b: Seq<Enemy>)
    requires
        a.len() == b.len(),
        forall|i: int| 0 <= i < a.len() ==> (#[trigger] a[i]).alive == b[i].alive,
    ensures
        count_dead(a) == count_dead(b),
    decreases a.len(),
{
    if a.len() > 0 {
        lemma_count_dead_pointwise(a.drop_last(), b.drop_last());
    }
}

/// The completing count lies between zero and the roster size.
proof fn lemma_completing_nonneg(enemies: Seq<Enemy>)
    ensures
        0 <= spec_completing_count(enemies) <= enemies.len(),
    decreases enemies.len(),
{
    if enemies.len() > 0 {
        lemma_completing_nonneg(enemies.drop_last());
    }
}

/// The shared walk through one frame's phases, carrying every law at once.
proof fn lemma_update_phases(s: StateV, input: Input, bank: InvaderSpritesV)
    requires
        s.wf(),
    ensures
        spec_update(s, input, bank).shields.len() == s.shields.len(),
        forall|i: int|
            0 <= i < s.shields.len() ==> (#[trigger] spec_update(
                s,
                input,
                bank,
            ).shields[i]).eroded_from(s.shields[i]),
        spec_update(s, input, bank).enemies.len() == s.enemies.len(),
        forall|i: int|
            0 <= i < s.enemies.len() ==> {
                let e2 = #[trigger] spec_update(s, input, bank).enemies[i];
                e2.row == s.enemies[i].row && e2.col == s.enemies[i].col && e2.id
                    == s.enemies[i].id
            },
        count_dead(spec_update(s, input, bank).enemies) >= count_dead(s.enemies),
        spec_update(s, input, bank).score == s.score + screen::SCORE_PER_ENEMY * (count_dead(
            spec_update(s, input, bank).enemies,
        ) - count_dead(s.enemies)),
        spec_update(s, input, bank).lives == s.lives,
{
    let s1 = spec_move_ship(s, input);
    let s2 = spec_spawn_ship_laser(s1, input.button1);
    let s3 = spec_laser_enemy_collisions(s2, bank);
    let s4 = spec_enemy_shift_all(s3);
    let s5 = spec_enemy_animation(s4);
    let s6 = spec_enemy_fire(s5);
    let s7 = StateV {
        enemy_lasers: spec_move_enemy_lasers(s6.enemy_lasers, s6.shields).0,
        shields: spec_move_enemy_lasers(s6.enemy_lasers, s6.shields).1,
        ..s6
    };
    let s8 = match s7.ship_laser {
        Some(l) => spec_ship_laser_steps(s7, bank, l.speed as nat),
        None => s7,
    };
    let s9 = spec_miss_check(s8);
    assert(spec_update(s, input, bank) == s9);

    lemma_collisions_frame(s2, bank);

    // Shields are untouched up to the movement phases, then only eroded.
    assert(s6.shields == s.shields);
    lemma_move_lasers_erode(s6.enemy_lasers, s6.shields);
    lemma_ship_steps_frame(s7, bank, match s7.ship_laser {
        Some(l) => l.speed as nat,
        None => 0nat,
    });
    assert forall|i: int| 0 <= i < s.shields.len() implies (#[trigger] s9.shields[i]).eroded_from(
        s.shields[i],
    ) by {
        assert(s9.shields[i] == s8.shields[i]);
        if s7.ship_laser is Some {
            lemma_eroded_trans(s8.shields[i], s7.shields[i], s.shields[i]);
        } else {
            lemma_eroded_refl(s8.shields[i]);
        }
    }

    // Enemy identity through each phase.
    assert forall|i: int| 0 <= i < s.enemies.len() implies {
        let e2 = #[trigger] s9.enemies[i];
        e2.row == s.enemies[i].row && e2.col == s.enemies[i].col && e2.id == s.enemies[i].id
    } by {
        assert(s3.enemies[i].row == s.enemies[i].row && s3.enemies[i].col == s.enemies[i].col
            && s3.enemies[i].id == s.enemies[i].id);
        assert(s4.enemies[i] == s3.enemies[i].spec_shift());
        assert(s5.enemies[i] == spec_tick_enemy(s4.enemies[i]));
        assert(s6.enemies == s5.enemies && s7.enemies == s6.enemies);
        assert(s9.enemies[i] == s8.enemies[i]);
    }

    // The dead count and the score move in lock-step, only in the
    // animation phase.
    assert(count_dead(s3.enemies) == count_dead(s.enemies)) by {
        if s2.ship_laser is Some {
            match crate::state::spec_first_hit_from(s2.ship_laser->Some_0, s2.enemies, bank, 0) {
                None => {},
                Some(i) => {
                    lemma_count_dead_pointwise(s3.enemies, s.enemies);
                },
            }
        }
    }
    assert(count_dead(s4.enemies) == count_dead(s3.enemies)) by {
        lemma_count_dead_map(s3.enemies, |e: Enemy| e.spec_shift());
    }
    assert forall|i: int|
        0 <= i < s4.enemies.len() implies (!(#[trigger] s4.enemies[i]).alive
        ==> s4.enemies[i].death_counter is None) by {
        assert(s4.enemies[i] == s3.enemies[i].spec_shift());
        assert(s.enemies[i].wf());
        if !s4.enemies[i].alive {
            assert(!s3.enemies[i].alive);
            assert(!s.enemies[i].alive);
            assert(s3.enemies[i] == s.enemies[i]);
            assert(s.enemies[i].death_counter is None);
        }
    }
    lemma_count_dead_tick(s4.enemies);
    assert(count_dead(s5.enemies) == count_dead(s4.enemies) + spec_completing_count(s4.enemies));
    lemma_completing_nonneg(s4.enemies);
    lemma_count_dead_bounds(s.enemies);
    assert(s4.score == s.score);
    assert(s.score == screen::SCORE_PER_ENEMY * count_dead(s.enemies));
    assert(0 <= s4.score + screen::SCORE_PER_ENEMY * spec_completing_count(s4.enemies)
        <= 0x7fffffff);
    assert(s5.score == s4.score + screen::SCORE_PER_ENEMY * spec_completing_count(s4.enemies));
    assert(count_dead(s8.enemies) == count_dead(s5.enemies)) by {
        if s7.ship_laser is Some {
            lemma_count_dead_pointwise(s8.enemies, s7.enemies);
        }
    }
    assert(s9.enemies == s8.enemies && s9.score == s8.score && s8.score == s5.score);
}

/// Monotonic shield erosion: over any frame, every shield keeps its shape
/// and its set of "on" pixels only shrinks.
pub proof fn lemma_frame_shields_monotonic(s: StateV, input: Input, bank: InvaderSpritesV)
    requires
        s.wf(),
    ensures
        spec_update(s, input, bank).shields.len() == s.shields.len(),
        forall|i: int|
            0 <= i < s.shields.len() ==> (#[trigger] spec_update(
                s,
                input,
                bank,
            ).shields[i]).eroded_from(s.shields[i]),
{
    lemma_update_phases(s, input, bank);
}

/// Score monotonicity: the score never decreases, and it moves by exactly
/// `SCORE_PER_ENEMY` for each enemy removed this frame — an enemy is
/// removed at most once, so no enemy is ever scored twice.
pub proof fn lemma_frame_score_monotonic(s: StateV, input: Input, bank: InvaderSpritesV)
    requires
        s.wf(),
    ensures
        spec_update(s, input, bank).score >= s.score,
        spec_update(s, input, bank).score == s.score + screen::SCORE_PER_ENEMY * (count_dead(
            spec_update(s, input, bank).enemies,
        ) - count_dead(s.enemies)),
        count_dead(spec_update(s, input, bank).enemies) >= count_dead(s.enemies),
{
    lemma_update_phases(s, input, bank);
}

/// Enemy identity stability: across any frame the roster keeps its size and
/// every entry its `(row, col, id)` triple.
pub proof fn lemma_frame_enemy_identity(s: StateV, input: Input, bank: InvaderSpritesV)
    requires
        s.wf(),
    ensures
        spec_update(s, input, bank).enemies.len() == s.enemies.len(),
        forall|i: int|
            0 <= i < s.enemies.len() ==> {
                let e2 = #[trigger] spec_update(s, input, bank).enemies[i];
                e2.row == s.enemies[i].row && e2.col == s.enemies[i].col && e2.id
                    == s.enemies[i].id
            },
{
    lemma_update_phases(s, input, bank);
}

} // verus!
