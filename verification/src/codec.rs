//! Persistence: the whole game state round-trips through a flat,
//! self-delimiting record of 64-bit integers.  `encode_state` writes the
//! record; `decode_state` reads one back and is proved to return exactly
//! the encoded state — and to accept nothing that is not the encoding of a
//! state.  Malformed records fail, with no partial recovery.

use vstd::prelude::*;
use crate::entity::{Enemy, Laser, Orientation, Player};
use crate::geometry::{Color, Direction};
use crate::sprite::{SpriteData, SpriteV};
use crate::state::{State, StateV};

verus! {

/// The value fits the 32-bit signed range.
pub open spec fn in_i32(v: i64) -> bool {
    i32::MIN <= v <= i32::MAX
}

/// The value fits an unsigned 32-bit identity.
pub open spec fn in_u32(v: i64) -> bool {
    0 <= v <= u32::MAX
}

/// The value is a color channel.
pub open spec fn in_u8(v: i64) -> bool {
    0 <= v <= 255
}

/// The value is a boolean tag.
pub open spec fn is_tag(v: i64) -> bool {
    v == 0 || v == 1
}

pub open spec fn dir_code(d: Direction) -> i64 {
    match d {
        Direction::Up => 0,
        Direction::Down => 1,
        Direction::Left => 2,
        Direction::Right => 3,
    }
}

pub open spec fn dir_of(v: i64) -> Direction {
    if v == 0 {
        Direction::Up
    } else if v == 1 {
        Direction::Down
    } else if v == 2 {
        Direction::Left
    } else {
        Direction::Right
    }
}

pub open spec fn orient_code(o: Orientation) -> i64 {
    match o {
        Orientation::INIT => 0,
        Orientation::FLIP => 1,
    }
}

pub open spec fn bool_code(b: bool) -> i64 {
    if b {
        1
    } else {
        0
    }
}

/// A laser as eleven slots: position, shape, blink counter, direction,
/// speed, color.
pub open spec fn enc_laser(l: Laser) -> Seq<i64> {
    seq![
        l.x as i64,
        l.y as i64,
        l.w as i64,
        l.h as i64,
        l.t as i64,
        dir_code(l.movement),
        l.speed as i64,
        l.color.r as i64,
        l.color.g as i64,
        l.color.b as i64,
        l.color.a as i64,
    ]
}

pub open spec fn dec_laser(t: Seq<i64>) -> Option<(Laser, int)> {
    if t.len() >= 11 && in_i32(t[0]) && in_i32(t[1]) && in_i32(t[2]) && in_i32(t[3]) && in_i32(
        t[4],
    ) && 0 <= t[5] <= 3 && in_i32(t[6]) && in_u8(t[7]) && in_u8(t[8]) && in_u8(t[9]) && in_u8(
        t[10],
    ) {
        Some(
            (
                Laser {
                    x: t[0] as i32,
                    y: t[1] as i32,
                    w: t[2] as i32,
                    h: t[3] as i32,
                    t: t[4] as i32,
                    movement: dir_of(t[5]),
                    speed: t[6] as i32,
                    color: Color { r: t[7] as u8, g: t[8] as u8, b: t[9] as u8, a: t[10] as u8 },
                },
                11,
            ),
        )
    } else {
        None
    }
}

/// The ship as nine slots: position, shape, speed, color.
pub open spec fn enc_player(p: Player) -> Seq<i64> {
    seq![
        p.x as i64,
        p.y as i64,
        p.w as i64,
        p.h as i64,
        p.speed as i64,
        p.color.r as i64,
        p.color.g as i64,
        p.color.b as i64,
        p.color.a as i64,
    ]
}

pub open spec fn dec_player(t: Seq<i64>) -> Option<(Player, int)> {
    if t.len() >= 9 && in_i32(t[0]) && in_i32(t[1]) && in_i32(t[2]) && in_i32(t[3]) && in_i32(
        t[4],
    ) && in_u8(t[5]) && in_u8(t[6]) && in_u8(t[7]) && in_u8(t[8]) {
        Some(
            (
                Player {
                    x: t[0] as i32,
                    y: t[1] as i32,
                    w: t[2] as i32,
                    h: t[3] as i32,
                    speed: t[4] as i32,
                    color: Color { r: t[5] as u8, g: t[6] as u8, b: t[7] as u8, a: t[8] as u8 },
                },
                9,
            ),
        )
    } else {
        None
    }
}

/// An enemy as eleven slots; a missing death countdown is the pair `(0, 0)`.
pub open spec fn enc_enemy(e: Enemy) -> Seq<i64> {
    seq![
        e.x as i64,
        e.y as i64,
        e.row as i64,
        e.col as i64,
        e.id as i64,
        bool_code(e.alive),
        match e.death_counter {
            Some(_) => 1i64,
            None => 0i64,
        },
        match e.death_counter {
            Some(d) => d as i64,
            None => 0i64,
        },
        e.move_counter as i64,
        bool_code(e.move_right),
        orient_code(e.orientation),
    ]
}

pub open spec fn dec_enemy(t: Seq<i64>) -> Option<(Enemy, int)> {
    if t.len() >= 11 && in_i32(t[0]) && in_i32(t[1]) && in_i32(t[2]) && in_i32(t[3]) && in_u32(
        t[4],
    ) && is_tag(t[5]) && is_tag(t[6]) && in_i32(t[7]) && (t[6] == 0 ==> t[7] == 0) && in_i32(
        t[8],
    ) && is_tag(t[9]) && is_tag(t[10]) {
        Some(
            (
                Enemy {
                    x: t[0] as i32,
                    y: t[1] as i32,
                    row: t[2] as i32,
                    col: t[3] as i32,
                    id: t[4] as u32,
                    alive: t[5] == 1,
                    death_counter: if t[6] == 1 {
                        Some(t[7] as i32)
                    } else {
                        None
                    },
                    move_counter: t[8] as i32,
                    move_right: t[9] == 1,
                    orientation: if t[10] == 1 {
                        Orientation::FLIP
                    } else {
                        Orientation::INIT
                    },
                },
                11,
            ),
        )
    } else {
        None
    }
}

/// A pixel as four slots.
pub open spec fn enc_color(c: Color) -> Seq<i64> {
    seq![c.r as i64, c.g as i64, c.b as i64, c.a as i64]
}

pub open spec fn dec_color(t: Seq<i64>) -> Option<(Color, int)> {
    if t.len() >= 4 && in_u8(t[0]) && in_u8(t[1]) && in_u8(t[2]) && in_u8(t[3]) {
        Some((Color { r: t[0] as u8, g: t[1] as u8, b: t[2] as u8, a: t[3] as u8 }, 4))
    } else {
        None
    }
}

/// A row of pixels, first to last.
pub open spec fn enc_colors(s: Seq<Color>) -> Seq<i64>
    decreases s.len(),
{
    if s.len() == 0 {
        Seq::empty()
    } else {
        enc_color(s[0]) + enc_colors(s.skip(1))
    }
}

pub open spec fn dec_colors_n(t: Seq<i64>, n: nat) -> Option<(Seq<Color>, int)>
    decreases n,
{
    if n == 0 {
        Some((Seq::empty(), 0))
    } else {
        match dec_color(t) {
            None => None,
            Some((c, u1)) => match dec_colors_n(t.skip(u1), (n - 1) as nat) {
                None => None,
                Some((s, u2)) => Some((seq![c] + s, u1 + u2)),
            },
        }
    }
}

/// A length-prefixed pixel row.
pub open spec fn enc_row(s: Seq<Color>) -> Seq<i64> {
    seq![s.len() as i64] + enc_colors(s)
}

pub open spec fn dec_row(t: Seq<i64>) -> Option<(Seq<Color>, int)> {
    if t.len() >= 1 && t[0] >= 0 {
        match dec_colors_n(t.skip(1), t[0] as nat) {
            None => None,
            Some((s, u)) => Some((s, 1 + u)),
        }
    } else {
        None
    }
}

/// The rows of a grid, first to last.
pub open spec fn enc_rows(g: Seq<Seq<Color>>) -> Seq<i64>
    decreases g.len(),
{
    if g.len() == 0 {
        Seq::empty()
    } else {
        enc_row(g[0]) + enc_rows(g.skip(1))
    }
}

pub open spec fn dec_rows_n(t: Seq<i64>, n: nat) -> Option<(Seq<Seq<Color>>, int)>
    decreases n,
{
    if n == 0 {
        Some((Seq::empty(), 0))
    } else {
        match dec_row(t) {
            None => None,
            Some((r, u1)) => match dec_rows_n(t.skip(u1), (n - 1) as nat) {
                None => None,
                Some((g, u2)) => Some((seq![r] + g, u1 + u2)),
            },
        }
    }
}

/// A length-prefixed pixel grid.
pub open spec fn enc_grid(g: Seq<Seq<Color>>) -> Seq<i64> {
    seq![g.len() as i64] + enc_rows(g)
}

pub open spec fn dec_grid(t: Seq<i64>) -> Option<(Seq<Seq<Color>>, int)> {
    if t.len() >= 1 && t[0] >= 0 {
        match dec_rows_n(t.skip(1), t[0] as nat) {
            None => None,
            Some((g, u)) => Some((g, 1 + u)),
        }
    } else {
        None
    }
}

/// A destructible bitmap: anchor, then its grid.
pub open spec fn enc_sprite(sv: SpriteV) -> Seq<i64> {
    seq![sv.x as i64, sv.y as i64] + enc_grid(sv.grid)
}

pub open spec fn dec_sprite(t: Seq<i64>) -> Option<(SpriteV, int)> {
    if t.len() >= 2 && in_i32(t[0]) && in_i32(t[1]) {
        match dec_grid(t.skip(2)) {
            None => None,
            Some((g, u)) => Some((SpriteV { x: t[0] as int, y: t[1] as int, grid: g }, 2 + u)),
        }
    } else {
        None
    }
}

pub open spec fn enc_sprites_list(s: Seq<SpriteV>) -> Seq<i64>
    decreases s.len(),
{
    if s.len() == 0 {
        Seq::empty()
    } else {
        enc_sprite(s[0]) + enc_sprites_list(s.skip(1))
    }
}

pub open spec fn dec_sprites_n(t: Seq<i64>, n: nat) -> Option<(Seq<SpriteV>, int)>
    decreases n,
{
    if n == 0 {
        Some((Seq::empty(), 0))
    } else {
        match dec_sprite(t) {
            None => None,
            Some((sv, u1)) => match dec_sprites_n(t.skip(u1), (n - 1) as nat) {
                None => None,
                Some((s, u2)) => Some((seq![sv] + s, u1 + u2)),
            },
        }
    }
}

/// The length-prefixed shield list.
pub open spec fn enc_sprites(s: Seq<SpriteV>) -> Seq<i64> {
    seq![s.len() as i64] + enc_sprites_list(s)
}

pub open spec fn dec_sprites(t: Seq<i64>) -> Option<(Seq<SpriteV>, int)> {
    if t.len() >= 1 && t[0] >= 0 {
        match dec_sprites_n(t.skip(1), t[0] as nat) {
            None => None,
            Some((s, u)) => Some((s, 1 + u)),
        }
    } else {
        None
    }
}

pub open spec fn enc_enemies_list(s: Seq<Enemy>) -> Seq<i64>
    decreases s.len(),
{
    if s.len() == 0 {
        Seq::empty()
    } else {
        enc_enemy(s[0]) + enc_enemies_list(s.skip(1))
    }
}

pub open spec fn dec_enemies_n(t: Seq<i64>, n: nat) -> Option<(Seq<Enemy>, int)>
    decreases n,
{
    if n == 0 {
        Some((Seq::empty(), 0))
    } else {
        match dec_enemy(t) {
            None => None,
            Some((e, u1)) => match dec_enemies_n(t.skip(u1), (n - 1) as nat) {
                None => None,
                Some((s, u2)) => Some((seq![e] + s, u1 + u2)),
            },
        }
    }
}

/// The length-prefixed roster.
pub open spec fn enc_enemies(s: Seq<Enemy>) -> Seq<i64> {
    seq![s.len() as i64] + enc_enemies_list(s)
}

pub open spec fn dec_enemies(t: Seq<i64>) -> Option<(Seq<Enemy>, int)> {
    if t.len() >= 1 && t[0] >= 0 {
        match dec_enemies_n(t.skip(1), t[0] as nat) {
            None => None,
            Some((s, u)) => Some((s, 1 + u)),
        }
    } else {
        None
    }
}

pub open spec fn enc_lasers_list(s: Seq<Laser>) -> Seq<i64>
    decreases s.len(),
{
    if s.len() == 0 {
        Seq::empty()
    } else {
        enc_laser(s[0]) + enc_lasers_list(s.skip(1))
    }
}

pub open spec fn dec_lasers_n(t: Seq<i64>, n: nat) -> Option<(Seq<Laser>, int)>
    decreases n,
{
    if n == 0 {
        Some((Seq::empty(), 0))
    } else {
        match dec_laser(t) {
            None => None,
            Some((l, u1)) => match dec_lasers_n(t.skip(u1), (n - 1) as nat) {
                None => None,
                Some((s, u2)) => Some((seq![l] + s, u1 + u2)),
            },
        }
    }
}

/// The length-prefixed enemy laser list.
pub open spec fn enc_lasers(s: Seq<Laser>) -> Seq<i64> {
    seq![s.len() as i64] + enc_lasers_list(s)
}

pub open spec fn dec_lasers(t: Seq<i64>) -> Option<(Seq<Laser>, int)> {
    if t.len() >= 1 && t[0] >= 0 {
        match dec_lasers_n(t.skip(1), t[0] as nat) {
            None => None,
            Some((s, u)) => Some((s, 1 + u)),
        }
    } else {
        None
    }
}

/// The optional player laser: a presence tag, then the laser if present.
pub open spec fn enc_opt_laser(o: Option<Laser>) -> Seq<i64> {
    match o {
        None => seq![0i64],
        Some(l) => seq![1i64] + enc_laser(l),
    }
}

pub open spec fn dec_opt_laser(t: Seq<i64>) -> Option<(Option<Laser>, int)> {
    if t.len() >= 1 && is_tag(t[0]) {
        if t[0] == 0 {
            Some((None, 1))
        } else {
            match dec_laser(t.skip(1)) {
                None => None,
                Some((l, u)) => Some((Some(l), 1 + u)),
            }
        }
    } else {
        None
    }
}

/// The whole game state, every field in a fixed order.
pub open spec fn enc_state(sv: StateV) -> Seq<i64> {
    seq![sv.lives as i64, sv.score as i64] + (enc_player(sv.ship) + (enc_opt_laser(
        sv.ship_laser,
    ) + (enc_sprites(sv.shields) + (enc_enemies(sv.enemies) + (seq![sv.enemy_shot_delay as i64]
        + enc_lasers(sv.enemy_lasers))))))
}

pub open spec fn dec_state(t: Seq<i64>) -> Option<(StateV, int)> {
    if t.len() >= 2 && in_i32(t[0]) && in_i32(t[1]) {
        match dec_player(t.skip(2)) {
            None => None,
            Some((ship, u1)) => match dec_opt_laser(t.skip(2 + u1)) {
                None => None,
                Some((sl, u2)) => match dec_sprites(t.skip(2 + u1 + u2)) {
                    None => None,
                    Some((shields, u3)) => match dec_enemies(t.skip(2 + u1 + u2 + u3)) {
                        None => None,
                        Some((enemies, u4)) => {
                            let t5 = t.skip(2 + u1 + u2 + u3 + u4);
                            if t5.len() >= 1 && in_i32(t5[0]) {
                                match dec_lasers(t5.skip(1)) {
                                    None => None,
                                    Some((lasers, u6)) => Some(
                                        (
                                            StateV {
                                                lives: t[0] as i32,
                                                score: t[1] as i32,
                                                ship,
                                                ship_laser: sl,
                                                shields,
                                                enemies,
                                                enemy_shot_delay: t5[0] as i32,
                                                enemy_lasers: lasers,
                                            },
                                            2 + u1 + u2 + u3 + u4 + 1 + u6,
                                        ),
                                    ),
                                }
                            } else {
                                None
                            }
                        },
                    },
                },
            },
        }
    } else {
        None
    }
}

/// A pixel row short enough for its length prefix.
pub open spec fn row_ok(r: Seq<Color>) -> bool {
    r.len() <= i64::MAX
}

/// A grid short enough for its length prefixes.
pub open spec fn grid_ok(g: Seq<Seq<Color>>) -> bool {
    g.len() <= i64::MAX && forall|i: int| 0 <= i < g.len() ==> row_ok(#[trigger] g[i])
}

/// A bitmap whose anchor fits the machine integers and whose grid fits its
/// length prefixes.
pub open spec fn sprite_ok(sv: SpriteV) -> bool {
    &&& i32::MIN <= sv.x <= i32::MAX
    &&& i32::MIN <= sv.y <= i32::MAX
    &&& grid_ok(sv.grid)
}

/// A state value the record format can hold exactly: anchors within the
/// machine integers and every list short enough for its length prefix.
/// Every state held in memory satisfies these machine limits.
pub open spec fn encodable(sv: StateV) -> bool {
    &&& sv.shields.len() <= i64::MAX
    &&& forall|i: int| 0 <= i < sv.shields.len() ==> sprite_ok(#[trigger] sv.shields[i])
    &&& sv.enemies.len() <= i64::MAX
    &&& sv.enemy_lasers.len() <= i64::MAX
}

} // verus!

verus! {

/// Concatenation splits cleanly at the boundary.
proof fn lemma_concat_parts<A>(a: Seq<A>, b: Seq<A>)
    ensures
        (a + b).skip(a.len() as int) == b,
        (a + b).take(a.len() as int) == a,
{
    assert((a + b).skip(a.len() as int) =~= b);
    assert((a + b).take(a.len() as int) =~= a);
}

/// A prefix of `u1 + u2` slots is the first `u1` plus the next `u2`.
proof fn lemma_take_split<A>(t: Seq<A>, u1: int, u2: int)
    requires
        0 <= u1,
        0 <= u2,
        u1 + u2 <= t.len(),
    ensures
        t.take(u1 + u2) == t.take(u1) + t.skip(u1).take(u2),
{
    assert(t.take(u1 + u2) =~= t.take(u1) + t.skip(u1).take(u2));
}

proof fn lemma_dec_enc_laser(l: Laser, rest: Seq<i64>)
    ensures
        dec_laser(enc_laser(l) + rest) == Some((l, 11int)),
{
    let t = enc_laser(l) + rest;
    assert(t[0] == l.x as i64 && t[1] == l.y as i64 && t[2] == l.w as i64 && t[3] == l.h as i64
        && t[4] == l.t as i64 && t[5] == dir_code(l.movement) && t[6] == l.speed as i64 && t[7]
        == l.color.r as i64 && t[8] == l.color.g as i64 && t[9] == l.color.b as i64 && t[10]
        == l.color.a as i64);
    assert(dec_laser(t)->Some_0.0 == l);
}

proof fn lemma_sound_laser(t: Seq<i64>)
    ensures
        dec_laser(t) matches Some(p) ==> p.1 == 11 && t.len() >= 11 && t.take(11)
            == enc_laser(p.0),
{
    if dec_laser(t) is Some {
        let l = dec_laser(t)->Some_0.0;
        assert(t.take(11) =~= enc_laser(l));
    }
}

proof fn lemma_dec_enc_player(p: Player, rest: Seq<i64>)
    ensures
        dec_player(enc_player(p) + rest) == Some((p, 9int)),
{
    let t = enc_player(p) + rest;
    assert(t[0] == p.x as i64 && t[1] == p.y as i64 && t[2] == p.w as i64 && t[3] == p.h as i64
        && t[4] == p.speed as i64 && t[5] == p.color.r as i64 && t[6] == p.color.g as i64 && t[7]
        == p.color.b as i64 && t[8] == p.color.a as i64);
    assert(dec_player(t)->Some_0.0 == p);
}

proof fn lemma_sound_player(t: Seq<i64>)
    ensures
        dec_player(t) matches Some(p) ==> p.1 == 9 && t.len() >= 9 && t.take(9) == enc_player(
            p.0,
        ),
{
    if dec_player(t) is Some {
        let pl = dec_player(t)->Some_0.0;
        assert(t.take(9) =~= enc_player(pl));
    }
}

proof fn lemma_dec_enc_enemy(e: Enemy, rest: Seq<i64>)
    ensures
        dec_enemy(enc_enemy(e) + rest) == Some((e, 11int)),
{
    let t = enc_enemy(e) + rest;
    assert(t[0] == e.x as i64 && t[1] == e.y as i64 && t[2] == e.row as i64 && t[3]
        == e.col as i64 && t[4] == e.id as i64 && t[5] == bool_code(e.alive) && t[8]
        == e.move_counter as i64 && t[9] == bool_code(e.move_right) && t[10] == orient_code(
        e.orientation,
    ));
    assert(t[6] == enc_enemy(e)[6] && t[7] == enc_enemy(e)[7]);
    assert(dec_enemy(t)->Some_0.0 == e);
}

proof fn lemma_sound_enemy(t: Seq<i64>)
    ensures
        dec_enemy(t) matches Some(p) ==> p.1 == 11 && t.len() >= 11 && t.take(11) == enc_enemy(
            p.0,
        ),
{
    if dec_enemy(t) is Some {
        let e = dec_enemy(t)->Some_0.0;
        assert(t.take(11) =~= enc_enemy(e));
    }
}

proof fn lemma_dec_enc_color(c: Color, rest: Seq<i64>)
    ensures
        dec_color(enc_color(c) + rest) == Some((c, 4int)),
{
    let t = enc_color(c) + rest;
    assert(t[0] == c.r as i64 && t[1] == c.g as i64 && t[2] == c.b as i64 && t[3] == c.a as i64);
    assert(dec_color(t)->Some_0.0 == c);
}

proof fn lemma_sound_color(t: Seq<i64>)
    ensures
        dec_color(t) matches Some(p) ==> p.1 == 4 && t.len() >= 4 && t.take(4) == enc_color(p.0),
{
    if dec_color(t) is Some {
        let c = dec_color(t)->Some_0.0;
        assert(t.take(4) =~= enc_color(c));
    }
}

proof fn lemma_dec_enc_colors(s: Seq<Color>, rest: Seq<i64>)
    ensures
        dec_colors_n(enc_colors(s) + rest, s.len()) == Some((s, enc_colors(s).len() as int)),
    decreases s.len(),
{
    if s.len() == 0 {
        assert(enc_colors(s) + rest =~= rest);
    } else {
        let t = enc_colors(s) + rest;
        assert(t =~= enc_color(s[0]) + (enc_colors(s.skip(1)) + rest));
        lemma_dec_enc_color(s[0], enc_colors(s.skip(1)) + rest);
        lemma_concat_parts(enc_color(s[0]), enc_colors(s.skip(1)) + rest);
        lemma_dec_enc_colors(s.skip(1), rest);
        assert(seq![s[0]] + s.skip(1) =~= s);
    }
}

proof fn lemma_sound_colors(t: Seq<i64>, n: nat)
    ensures
        dec_colors_n(t, n) matches Some(p) ==> p.0.len() == n && 0 <= p.1 <= t.len() && t.take(
            p.1,
        ) == enc_colors(p.0),
    decreases n,
{
    if n > 0 && dec_colors_n(t, n) is Some {
        let c = dec_color(t)->Some_0.0;
        lemma_sound_color(t);
        lemma_sound_colors(t.skip(4), (n - 1) as nat);
        let s2 = dec_colors_n(t.skip(4), (n - 1) as nat)->Some_0.0;
        let u2 = dec_colors_n(t.skip(4), (n - 1) as nat)->Some_0.1;
        lemma_take_split(t, 4, u2);
        let s = seq![c] + s2;
        assert(s[0] == c && s.skip(1) =~= s2);
        assert(enc_colors(s) == enc_color(c) + enc_colors(s2));
        assert(t.take(4 + u2) == enc_colors(s));
    }
}

proof fn lemma_dec_enc_row(s: Seq<Color>, rest: Seq<i64>)
    requires
        row_ok(s),
    ensures
        dec_row(enc_row(s) + rest) == Some((s, enc_row(s).len() as int)),
{
    let t = enc_row(s) + rest;
    assert(t[0] == s.len() as i64);
    assert(t.skip(1) =~= enc_colors(s) + rest);
    lemma_dec_enc_colors(s, rest);
}

proof fn lemma_sound_row(t: Seq<i64>)
    ensures
        dec_row(t) matches Some(p) ==> 1 <= p.1 <= t.len() && t.take(p.1) == enc_row(p.0)
            && row_ok(p.0),
{
    if dec_row(t) is Some {
        let n = t[0] as nat;
        lemma_sound_colors(t.skip(1), n);
        let s = dec_colors_n(t.skip(1), n)->Some_0.0;
        let u = dec_colors_n(t.skip(1), n)->Some_0.1;
        lemma_take_split(t, 1, u);
        assert(t.take(1) =~= seq![t[0]]);
        assert(seq![t[0]] =~= seq![s.len() as i64]);
        assert(t.take(1 + u) == enc_row(s));
    }
}

proof fn lemma_dec_enc_rows(g: Seq<Seq<Color>>, rest: Seq<i64>)
    requires
        forall|i: int| 0 <= i < g.len() ==> row_ok(#[trigger] g[i]),
    ensures
        dec_rows_n(enc_rows(g) + rest, g.len()) == Some((g, enc_rows(g).len() as int)),
    decreases g.len(),
{
    if g.len() == 0 {
        assert(enc_rows(g) + rest =~= rest);
    } else {
        let t = enc_rows(g) + rest;
        assert(t =~= enc_row(g[0]) + (enc_rows(g.skip(1)) + rest));
        assert(row_ok(g[0]));
        lemma_dec_enc_row(g[0], enc_rows(g.skip(1)) + rest);
        assert(forall|i: int| 0 <= i < g.skip(1).len() ==> row_ok(#[trigger] g.skip(1)[i]));
        lemma_concat_parts(enc_row(g[0]), enc_rows(g.skip(1)) + rest);
        lemma_dec_enc_rows(g.skip(1), rest);
        assert(seq![g[0]] + g.skip(1) =~= g);
    }
}

proof fn lemma_sound_rows(t: Seq<i64>, n: nat)
    ensures
        dec_rows_n(t, n) matches Some(p) ==> p.0.len() == n && 0 <= p.1 <= t.len() && t.take(p.1)
            == enc_rows(p.0) && (forall|i: int| 0 <= i < p.0.len() ==> row_ok(#[trigger] p.0[i])),
    decreases n,
{
    if n > 0 && dec_rows_n(t, n) is Some {
        let r = dec_row(t)->Some_0.0;
        let u1 = dec_row(t)->Some_0.1;
        lemma_sound_row(t);
        lemma_sound_rows(t.skip(u1), (n - 1) as nat);
        let g2 = dec_rows_n(t.skip(u1), (n - 1) as nat)->Some_0.0;
        let u2 = dec_rows_n(t.skip(u1), (n - 1) as nat)->Some_0.1;
        lemma_take_split(t, u1, u2);
        let g = seq![r] + g2;
        assert(g[0] == r && g.skip(1) =~= g2);
        assert(enc_rows(g) == enc_row(r) + enc_rows(g2));
        assert(t.take(u1 + u2) == enc_rows(g));
    }
}

proof fn lemma_dec_enc_grid(g: Seq<Seq<Color>>, rest: Seq<i64>)
    requires
        grid_ok(g),
    ensures
        dec_grid(enc_grid(g) + rest) == Some((g, enc_grid(g).len() as int)),
{
    let t = enc_grid(g) + rest;
    assert(t[0] == g.len() as i64);
    assert(t.skip(1) =~= enc_rows(g) + rest);
    lemma_dec_enc_rows(g, rest);
}

proof fn lemma_sound_grid(t: Seq<i64>)
    ensures
        dec_grid(t) matches Some(p) ==> 1 <= p.1 <= t.len() && t.take(p.1) == enc_grid(p.0)
            && grid_ok(p.0),
{
    if dec_grid(t) is Some {
        let n = t[0] as nat;
        lemma_sound_rows(t.skip(1), n);
        let g = dec_rows_n(t.skip(1), n)->Some_0.0;
        let u = dec_rows_n(t.skip(1), n)->Some_0.1;
        lemma_take_split(t, 1, u);
        assert(t.take(1) =~= seq![t[0]]);
        assert(seq![t[0]] =~= seq![g.len() as i64]);
        assert(t.take(1 + u) == enc_grid(g));
    }
}

proof fn lemma_dec_enc_sprite(sv: SpriteV, rest: Seq<i64>)
    requires
        sprite_ok(sv),
    ensures
        dec_sprite(enc_sprite(sv) + rest) == Some((sv, enc_sprite(sv).len() as int)),
{
    let t = enc_sprite(sv) + rest;
    assert(t[0] == sv.x as i64 && t[1] == sv.y as i64);
    assert(t.skip(2) =~= enc_grid(sv.grid) + rest);
    lemma_dec_enc_grid(sv.grid, rest);
    assert(dec_sprite(t)->Some_0.0 == sv);
}

proof fn lemma_sound_sprite(t: Seq<i64>)
    ensures
        dec_sprite(t) matches Some(p) ==> 2 <= p.1 <= t.len() && t.take(p.1) == enc_sprite(p.0)
            && sprite_ok(p.0),
{
    if dec_sprite(t) is Some {
        lemma_sound_grid(t.skip(2));
        let g = dec_grid(t.skip(2))->Some_0.0;
        let u = dec_grid(t.skip(2))->Some_0.1;
        lemma_take_split(t, 2, u);
        let sv = dec_sprite(t)->Some_0.0;
        assert(t.take(2) =~= seq![sv.x as i64, sv.y as i64]);
        assert(t.take(2 + u) == enc_sprite(sv));
    }
}

proof fn lemma_dec_enc_sprites_list(s: Seq<SpriteV>, rest: Seq<i64>)
    requires
        forall|i: int| 0 <= i < s.len() ==> sprite_ok(#[trigger] s[i]),
    ensures
        dec_sprites_n(enc_sprites_list(s) + rest, s.len()) == Some(
            (s, enc_sprites_list(s).len() as int),
        ),
    decreases s.len(),
{
    if s.len() == 0 {
        assert(enc_sprites_list(s) + rest =~= rest);
    } else {
        let t = enc_sprites_list(s) + rest;
        assert(t =~= enc_sprite(s[0]) + (enc_sprites_list(s.skip(1)) + rest));
        assert(sprite_ok(s[0]));
        lemma_dec_enc_sprite(s[0], enc_sprites_list(s.skip(1)) + rest);
        assert(forall|i: int| 0 <= i < s.skip(1).len() ==> sprite_ok(#[trigger] s.skip(1)[i]));
        lemma_concat_parts(enc_sprite(s[0]), enc_sprites_list(s.skip(1)) + rest);
        lemma_dec_enc_sprites_list(s.skip(1), rest);
        assert(seq![s[0]] + s.skip(1) =~= s);
    }
}

proof fn lemma_sound_sprites_list(t: Seq<i64>, n: nat)
    ensures
        dec_sprites_n(t, n) matches Some(p) ==> p.0.len() == n && 0 <= p.1 <= t.len() && t.take(
            p.1,
        ) == enc_sprites_list(p.0) && (forall|i: int| 0 <= i < p.0.len() ==> sprite_ok(
            #[trigger] p.0[i],
        )),
    decreases n,
{
    if n > 0 && dec_sprites_n(t, n) is Some {
        let sv = dec_sprite(t)->Some_0.0;
        let u1 = dec_sprite(t)->Some_0.1;
        lemma_sound_sprite(t);
        lemma_sound_sprites_list(t.skip(u1), (n - 1) as nat);
        let s2 = dec_sprites_n(t.skip(u1), (n - 1) as nat)->Some_0.0;
        let u2 = dec_sprites_n(t.skip(u1), (n - 1) as nat)->Some_0.1;
        lemma_take_split(t, u1, u2);
        let s = seq![sv] + s2;
        assert(s[0] == sv && s.skip(1) =~= s2);
        assert(enc_sprites_list(s) == enc_sprite(sv) + enc_sprites_list(s2));
        assert(t.take(u1 + u2) == enc_sprites_list(s));
    }
}

proof fn lemma_dec_enc_sprites(s: Seq<SpriteV>, rest: Seq<i64>)
    requires
        s.len() <= i64::MAX,
        forall|i: int| 0 <= i < s.len() ==> sprite_ok(#[trigger] s[i]),
    ensures
        dec_sprites(enc_sprites(s) + rest) == Some((s, enc_sprites(s).len() as int)),
{
    let t = enc_sprites(s) + rest;
    assert(t[0] == s.len() as i64);
    assert(t.skip(1) =~= enc_sprites_list(s) + rest);
    lemma_dec_enc_sprites_list(s, rest);
}

proof fn lemma_sound_sprites(t: Seq<i64>)
    ensures
        dec_sprites(t) matches Some(p) ==> 1 <= p.1 <= t.len() && t.take(p.1) == enc_sprites(p.0)
            && p.0.len() <= i64::MAX && (forall|i: int| 0 <= i < p.0.len() ==> sprite_ok(
            #[trigger] p.0[i],
        )),
{
    if dec_sprites(t) is Some {
        let n = t[0] as nat;
        lemma_sound_sprites_list(t.skip(1), n);
        let s = dec_sprites_n(t.skip(1), n)->Some_0.0;
        let u = dec_sprites_n(t.skip(1), n)->Some_0.1;
        lemma_take_split(t, 1, u);
        assert(t.take(1) =~= seq![t[0]]);
        assert(seq![t[0]] =~= seq![s.len() as i64]);
        assert(t.take(1 + u) == enc_sprites(s));
    }
}

proof fn lemma_dec_enc_enemies_list(s: Seq<Enemy>, rest: Seq<i64>)
    ensures
        dec_enemies_n(enc_enemies_list(s) + rest, s.len()) == Some(
            (s, enc_enemies_list(s).len() as int),
        ),
    decreases s.len(),
{
    if s.len() == 0 {
        assert(enc_enemies_list(s) + rest =~= rest);
    } else {
        let t = enc_enemies_list(s) + rest;
        assert(t =~= enc_enemy(s[0]) + (enc_enemies_list(s.skip(1)) + rest));
        lemma_dec_enc_enemy(s[0], enc_enemies_list(s.skip(1)) + rest);
        lemma_concat_parts(enc_enemy(s[0]), enc_enemies_list(s.skip(1)) + rest);
        lemma_dec_enc_enemies_list(s.skip(1), rest);
        assert(seq![s[0]] + s.skip(1) =~= s);
    }
}

proof fn lemma_sound_enemies_list(t: Seq<i64>, n: nat)
    ensures
        dec_enemies_n(t, n) matches Some(p) ==> p.0.len() == n && 0 <= p.1 <= t.len() && t.take(
            p.1,
        ) == enc_enemies_list(p.0),
    decreases n,
{
    if n > 0 && dec_enemies_n(t, n) is Some {
        let e = dec_enemy(t)->Some_0.0;
        lemma_sound_enemy(t);
        lemma_sound_enemies_list(t.skip(11), (n - 1) as nat);
        let s2 = dec_enemies_n(t.skip(11), (n - 1) as nat)->Some_0.0;
        let u2 = dec_enemies_n(t.skip(11), (n - 1) as nat)->Some_0.1;
        lemma_take_split(t, 11, u2);
        let s = seq![e] + s2;
        assert(s[0] == e && s.skip(1) =~= s2);
        assert(enc_enemies_list(s) == enc_enemy(e) + enc_enemies_list(s2));
        assert(t.take(11 + u2) == enc_enemies_list(s));
    }
}

proof fn lemma_dec_enc_enemies(s: Seq<Enemy>, rest: Seq<i64>)
    requires
        s.len() <= i64::MAX,
    ensures
        dec_enemies(enc_enemies(s) + rest) == Some((s, enc_enemies(s).len() as int)),
{
    let t = enc_enemies(s) + rest;
    assert(t[0] == s.len() as i64);
    assert(t.skip(1) =~= enc_enemies_list(s) + rest);
    lemma_dec_enc_enemies_list(s, rest);
}

proof fn lemma_sound_enemies(t: Seq<i64>)
    ensures
        dec_enemies(t) matches Some(p) ==> 1 <= p.1 <= t.len() && t.take(p.1) == enc_enemies(p.0)
            && p.0.len() <= i64::MAX,
{
    if dec_enemies(t) is Some {
        let n = t[0] as nat;
        lemma_sound_enemies_list(t.skip(1), n);
        let s = dec_enemies_n(t.skip(1), n)->Some_0.0;
        let u = dec_enemies_n(t.skip(1), n)->Some_0.1;
        lemma_take_split(t, 1, u);
        assert(t.take(1) =~= seq![t[0]]);
        assert(seq![t[0]] =~= seq![s.len() as i64]);
        assert(t.take(1 + u) == enc_enemies(s));
    }
}

proof fn lemma_dec_enc_lasers_list(s: Seq<Laser>, rest: Seq<i64>)
    ensures
        dec_lasers_n(enc_lasers_list(s) + rest, s.len()) == Some(
            (s, enc_lasers_list(s).len() as int),
        ),
    decreases s.len(),
{
    if s.len() == 0 {
        assert(enc_lasers_list(s) + rest =~= rest);
    } else {
        let t = enc_lasers_list(s) + rest;
        assert(t =~= enc_laser(s[0]) + (enc_lasers_list(s.skip(1)) + rest));
        lemma_dec_enc_laser(s[0], enc_lasers_list(s.skip(1)) + rest);
        lemma_concat_parts(enc_laser(s[0]), enc_lasers_list(s.skip(1)) + rest);
        lemma_dec_enc_lasers_list(s.skip(1), rest);
        assert(seq![s[0]] + s.skip(1) =~= s);
    }
}

proof fn lemma_sound_lasers_list(t: Seq<i64>, n: nat)
    ensures
        dec_lasers_n(t, n) matches Some(p) ==> p.0.len() == n && 0 <= p.1 <= t.len() && t.take(
            p.1,
        ) == enc_lasers_list(p.0),
    decreases n,
{
    if n > 0 && dec_lasers_n(t, n) is Some {
        let l = dec_laser(t)->Some_0.0;
        lemma_sound_laser(t);
        lemma_sound_lasers_list(t.skip(11), (n - 1) as nat);
        let s2 = dec_lasers_n(t.skip(11), (n - 1) as nat)->Some_0.0;
        let u2 = dec_lasers_n(t.skip(11), (n - 1) as nat)->Some_0.1;
        lemma_take_split(t, 11, u2);
        let s = seq![l] + s2;
        assert(s[0] == l && s.skip(1) =~= s2);
        assert(enc_lasers_list(s) == enc_laser(l) + enc_lasers_list(s2));
        assert(t.take(11 + u2) == enc_lasers_list(s));
    }
}

proof fn lemma_dec_enc_lasers(s: Seq<Laser>, rest: Seq<i64>)
    requires
        s.len() <= i64::MAX,
    ensures
        dec_lasers(enc_lasers(s) + rest) == Some((s, enc_lasers(s).len() as int)),
{
    let t = enc_lasers(s) + rest;
    assert(t[0] == s.len() as i64);
    assert(t.skip(1) =~= enc_lasers_list(s) + rest);
    lemma_dec_enc_lasers_list(s, rest);
}

proof fn lemma_sound_lasers(t: Seq<i64>)
    ensures
        dec_lasers(t) matches Some(p) ==> 1 <= p.1 <= t.len() && t.take(p.1) == enc_lasers(p.0)
            && p.0.len() <= i64::MAX,
{
    if dec_lasers(t) is Some {
        let n = t[0] as nat;
        lemma_sound_lasers_list(t.skip(1), n);
        let s = dec_lasers_n(t.skip(1), n)->Some_0.0;
        let u = dec_lasers_n(t.skip(1), n)->Some_0.1;
        lemma_take_split(t, 1, u);
        assert(t.take(1) =~= seq![t[0]]);
        assert(seq![t[0]] =~= seq![s.len() as i64]);
        assert(t.take(1 + u) == enc_lasers(s));
    }
}

proof fn lemma_dec_enc_opt_laser(o: Option<Laser>, rest: Seq<i64>)
    ensures
        dec_opt_laser(enc_opt_laser(o) + rest) == Some((o, enc_opt_laser(o).len() as int)),
{
    let t = enc_opt_laser(o) + rest;
    match o {
        None => {
            assert(t[0] == 0i64);
        },
        Some(l) => {
            assert(t[0] == 1i64);
            assert(t.skip(1) =~= enc_laser(l) + rest);
            lemma_dec_enc_laser(l, rest);
        },
    }
}

proof fn lemma_sound_opt_laser(t: Seq<i64>)
    ensures
        dec_opt_laser(t) matches Some(p) ==> 1 <= p.1 <= t.len() && t.take(p.1) == enc_opt_laser(
            p.0,
        ),
{
    if dec_opt_laser(t) is Some {
        if t[0] == 0 {
            assert(t.take(1) =~= enc_opt_laser(None));
        } else {
            lemma_sound_laser(t.skip(1));
            let l = dec_laser(t.skip(1))->Some_0.0;
            lemma_take_split(t, 1, 11);
            assert(t.take(1) =~= seq![1i64]);
            assert(t.take(12) == enc_opt_laser(Some(l)));
        }
    }
}

/// Decoding the encoding of any machine-representable state gives that
/// state back, consuming the whole record: the round trip is exact,
/// field for field, shield pixels included.
#[verifier::rlimit(100)]
/// Skipping twice is skipping the sum.
proof fn lemma_skip_skip<A>(t: Seq<A>, a: int, b: int)
    requires
        0 <= a,
        0 <= b,
        a + b <= t.len(),
    ensures
        t.skip(a).skip(b) == t.skip(a + b),
{
    assert(t.skip(a).skip(b) =~= t.skip(a + b));
}

/// The record of a state, followed by anything, splits into its fields.
proof fn lemma_state_layout(sv: StateV, rest: Seq<i64>)
    ensures
        (enc_state(sv) + rest).skip(2) == enc_player(sv.ship) + (enc_opt_laser(sv.ship_laser) + (
        enc_sprites(sv.shields) + (enc_enemies(sv.enemies) + (seq![sv.enemy_shot_delay as i64] + (
        enc_lasers(sv.enemy_lasers) + rest))))),
        (enc_state(sv) + rest)[0] == sv.lives as i64,
        (enc_state(sv) + rest)[1] == sv.score as i64,
{
    let a0 = seq![sv.lives as i64, sv.score as i64];
    let e1 = enc_player(sv.ship);
    let e2 = enc_opt_laser(sv.ship_laser);
    let e3 = enc_sprites(sv.shields);
    let e4 = enc_enemies(sv.enemies);
    let a5 = seq![sv.enemy_shot_delay as i64];
    let e6 = enc_lasers(sv.enemy_lasers);
    vstd::seq_lib::lemma_concat_associative(a5, e6, rest);
    vstd::seq_lib::lemma_concat_associative(e4, a5 + e6, rest);
    vstd::seq_lib::lemma_concat_associative(e4, a5, e6);
    vstd::seq_lib::lemma_concat_associative(e3, e4 + (a5 + e6), rest);
    vstd::seq_lib::lemma_concat_associative(e3, e4, a5 + e6);
    vstd::seq_lib::lemma_concat_associative(e2, e3 + (e4 + (a5 + e6)), rest);
    vstd::seq_lib::lemma_concat_associative(e2, e3, e4 + (a5 + e6));
    vstd::seq_lib::lemma_concat_associative(e1, e2 + (e3 + (e4 + (a5 + e6))), rest);
    vstd::seq_lib::lemma_concat_associative(e1, e2, e3 + (e4 + (a5 + e6)));
    vstd::seq_lib::lemma_concat_associative(a0, e1 + (e2 + (e3 + (e4 + (a5 + e6)))), rest);
    lemma_concat_parts(a0, e1 + (e2 + (e3 + (e4 + (a5 + (e6 + rest))))));
}

/// Evaluate the state decoder once every field decoder's result is known.
proof fn lemma_dec_state_eval(t: Seq<i64>, sv: StateV, u1: int, u2: int, u3: int, u4: int, u6: int)
    requires
        t.len() >= 2,
        in_i32(t[0]),
        in_i32(t[1]),
        t[0] == sv.lives as i64,
        t[1] == sv.score as i64,
        dec_player(t.skip(2)) == Some((sv.ship, u1)),
        dec_opt_laser(t.skip(2 + u1)) == Some((sv.ship_laser, u2)),
        dec_sprites(t.skip(2 + u1 + u2)) == Some((sv.shields, u3)),
        dec_enemies(t.skip(2 + u1 + u2 + u3)) == Some((sv.enemies, u4)),
        t.skip(2 + u1 + u2 + u3 + u4).len() >= 1,
        in_i32(t.skip(2 + u1 + u2 + u3 + u4)[0]),
        t.skip(2 + u1 + u2 + u3 + u4)[0] == sv.enemy_shot_delay as i64,
        dec_lasers(t.skip(2 + u1 + u2 + u3 + u4).skip(1)) == Some((sv.enemy_lasers, u6)),
    ensures
        dec_state(t) == Some((sv, 2 + u1 + u2 + u3 + u4 + 1 + u6)),
{
    assert(dec_state(t)->Some_0.0 == sv);
}

#[verifier::rlimit(100)]
pub proof fn lemma_dec_enc_state(sv: StateV, rest: Seq<i64>)
    requires
        encodable(sv),
    ensures
        dec_state(enc_state(sv) + rest) == Some((sv, enc_state(sv).len() as int)),
{
    let t = enc_state(sv) + rest;
    let e1 = enc_player(sv.ship);
    let e2 = enc_opt_laser(sv.ship_laser);
    let e3 = enc_sprites(sv.shields);
    let e4 = enc_enemies(sv.enemies);
    let a5 = seq![sv.enemy_shot_delay as i64];
    let e6 = enc_lasers(sv.enemy_lasers);
    let t6 = e6 + rest;
    let t5 = a5 + t6;
    let t4 = e4 + t5;
    let t3 = e3 + t4;
    let t2 = e2 + t3;
    let t1 = e1 + t2;
    let u1 = e1.len() as int;
    let u2 = e2.len() as int;
    let u3 = e3.len() as int;
    let u4 = e4.len() as int;
    let u6 = e6.len() as int;

    lemma_state_layout(sv, rest);
    assert(t.skip(2) == t1);
    lemma_dec_enc_player(sv.ship, t2);
    lemma_concat_parts(e1, t2);
    lemma_skip_skip(t, 2, u1);
    assert(t.skip(2 + u1) == t2);
    lemma_dec_enc_opt_laser(sv.ship_laser, t3);
    lemma_concat_parts(e2, t3);
    lemma_skip_skip(t, 2 + u1, u2);
    assert(t.skip(2 + u1 + u2) == t3);
    lemma_dec_enc_sprites(sv.shields, t4);
    lemma_concat_parts(e3, t4);
    lemma_skip_skip(t, 2 + u1 + u2, u3);
    assert(t.skip(2 + u1 + u2 + u3) == t4);
    lemma_dec_enc_enemies(sv.enemies, t5);
    lemma_concat_parts(e4, t5);
    lemma_skip_skip(t, 2 + u1 + u2 + u3, u4);
    assert(t.skip(2 + u1 + u2 + u3 + u4) == t5);
    assert(t5[0] == sv.enemy_shot_delay as i64);
    lemma_concat_parts(a5, t6);
    assert(t5.skip(1) == t6);
    lemma_dec_enc_lasers(sv.enemy_lasers, rest);
    lemma_dec_state_eval(t, sv, u1, u2, u3, u4, u6);
    assert(enc_state(sv).len() == 2 + u1 + u2 + u3 + u4 + 1 + u6);
}

/// A record that decodes at all is exactly the encoding of the decoded
/// state: nothing malformed is accepted.
#[verifier::rlimit(100)]
/// The record of a state, left-associated into its seven fields.
proof fn lemma_enc_state_parts(sv: StateV)
    ensures
        enc_state(sv) == seq![sv.lives as i64, sv.score as i64] + enc_player(sv.ship)
            + enc_opt_laser(sv.ship_laser) + enc_sprites(sv.shields) + enc_enemies(sv.enemies)
            + seq![sv.enemy_shot_delay as i64] + enc_lasers(sv.enemy_lasers),
{
    let a0 = seq![sv.lives as i64, sv.score as i64];
    let e1 = enc_player(sv.ship);
    let e2 = enc_opt_laser(sv.ship_laser);
    let e3 = enc_sprites(sv.shields);
    let e4 = enc_enemies(sv.enemies);
    let a5 = seq![sv.enemy_shot_delay as i64];
    let e6 = enc_lasers(sv.enemy_lasers);
    vstd::seq_lib::lemma_concat_associative(a0, e1, e2 + (e3 + (e4 + (a5 + e6))));
    vstd::seq_lib::lemma_concat_associative(a0 + e1, e2, e3 + (e4 + (a5 + e6)));
    vstd::seq_lib::lemma_concat_associative(a0 + e1 + e2, e3, e4 + (a5 + e6));
    vstd::seq_lib::lemma_concat_associative(a0 + e1 + e2 + e3, e4, a5 + e6);
    vstd::seq_lib::lemma_concat_associative(a0 + e1 + e2 + e3 + e4, a5, e6);
}

#[verifier::rlimit(100)]
pub proof fn lemma_sound_state(t: Seq<i64>)
    ensures
        dec_state(t) matches Some(p) ==> 0 <= p.1 <= t.len() && t.take(p.1) == enc_state(p.0)
            && encodable(p.0),
{
    if dec_state(t) is Some {
        let sv = dec_state(t)->Some_0.0;
        lemma_sound_player(t.skip(2));
        let u1 = dec_player(t.skip(2))->Some_0.1;
        lemma_sound_opt_laser(t.skip(2 + u1));
        let u2 = dec_opt_laser(t.skip(2 + u1))->Some_0.1;
        lemma_sound_sprites(t.skip(2 + u1 + u2));
        let u3 = dec_sprites(t.skip(2 + u1 + u2))->Some_0.1;
        lemma_sound_enemies(t.skip(2 + u1 + u2 + u3));
        let u4 = dec_enemies(t.skip(2 + u1 + u2 + u3))->Some_0.1;
        let t5 = t.skip(2 + u1 + u2 + u3 + u4);
        lemma_sound_lasers(t5.skip(1));
        let u6 = dec_lasers(t5.skip(1))->Some_0.1;
        let used = 2 + u1 + u2 + u3 + u4 + 1 + u6;

        assert(t.skip(2).skip(u1) =~= t.skip(2 + u1));
        assert(t.skip(2 + u1).skip(u2) =~= t.skip(2 + u1 + u2));
        assert(t.skip(2 + u1 + u2).skip(u3) =~= t.skip(2 + u1 + u2 + u3));
        assert(t.skip(2 + u1 + u2 + u3).skip(u4) =~= t5);
        assert(t5.skip(1) =~= t.skip(2 + u1 + u2 + u3 + u4 + 1));

        let a0 = t.take(2);
        let p1 = t.skip(2).take(u1);
        let p2 = t.skip(2 + u1).take(u2);
        let p3 = t.skip(2 + u1 + u2).take(u3);
        let p4 = t.skip(2 + u1 + u2 + u3).take(u4);
        let a5 = t5.take(1);
        let p6 = t5.skip(1).take(u6);

        assert(p1 == enc_player(sv.ship));
        assert(p2 == enc_opt_laser(sv.ship_laser));
        assert(p3 == enc_sprites(sv.shields));
        assert(p4 == enc_enemies(sv.enemies));
        assert(p6 == enc_lasers(sv.enemy_lasers));
        assert(a0 =~= seq![sv.lives as i64, sv.score as i64]);
        assert(a5 =~= seq![sv.enemy_shot_delay as i64]);

        lemma_take_split(t, 2, u1);
        assert(t.take(2 + u1) == a0 + p1);
        lemma_take_split(t, 2 + u1, u2);
        assert(t.take(2 + u1 + u2) == a0 + p1 + p2);
        lemma_take_split(t, 2 + u1 + u2, u3);
        assert(t.take(2 + u1 + u2 + u3) == a0 + p1 + p2 + p3);
        lemma_take_split(t, 2 + u1 + u2 + u3, u4);
        assert(t.take(2 + u1 + u2 + u3 + u4) == a0 + p1 + p2 + p3 + p4);
        lemma_take_split(t, 2 + u1 + u2 + u3 + u4, 1);
        assert(t.skip(2 + u1 + u2 + u3 + u4).take(1) == a5);
        assert(t.take(2 + u1 + u2 + u3 + u4 + 1) == a0 + p1 + p2 + p3 + p4 + a5);
        lemma_take_split(t, 2 + u1 + u2 + u3 + u4 + 1, u6);
        assert(t.skip(2 + u1 + u2 + u3 + u4 + 1).take(u6) == p6);
        assert(t.take(used) == a0 + p1 + p2 + p3 + p4 + a5 + p6);
        lemma_enc_state_parts(sv);
        assert(t.take(used) == enc_state(sv));
    }
}

} // verus!

verus! {

/// Appending one element extends the element list's record at its end.
proof fn lemma_enc_colors_snoc(s: Seq<Color>, c: Color)
    ensures
        enc_colors(s.push(c)) == enc_colors(s) + enc_color(c),
    decreases s.len(),
{
    if s.len() == 0 {
        let p = s.push(c);
        assert(p[0] == c);
        assert(p.skip(1) =~= Seq::<Color>::empty());
        assert(enc_colors(p.skip(1)) == Seq::<i64>::empty());
        assert(enc_colors(p) == enc_color(p[0]) + enc_colors(p.skip(1)));
        assert(enc_colors(p) =~= enc_color(c));
        assert(enc_colors(s) + enc_color(c) =~= enc_color(c));
    } else {
        assert(s.push(c)[0] == s[0]);
        assert(s.push(c).skip(1) =~= s.skip(1).push(c));
        lemma_enc_colors_snoc(s.skip(1), c);
        vstd::seq_lib::lemma_concat_associative(enc_color(s[0]), enc_colors(s.skip(1)), enc_color(c));
    }
}

proof fn lemma_enc_rows_snoc(g: Seq<Seq<Color>>, r: Seq<Color>)
    ensures
        enc_rows(g.push(r)) == enc_rows(g) + enc_row(r),
    decreases g.len(),
{
    if g.len() == 0 {
        let p = g.push(r);
        assert(p[0] == r);
        assert(p.skip(1) =~= Seq::<Seq<Color>>::empty());
        assert(enc_rows(p.skip(1)) == Seq::<i64>::empty());
        assert(enc_rows(p) == enc_row(p[0]) + enc_rows(p.skip(1)));
        assert(enc_rows(p) =~= enc_row(r));
        assert(enc_rows(g) + enc_row(r) =~= enc_row(r));
    } else {
        assert(g.push(r)[0] == g[0]);
        assert(g.push(r).skip(1) =~= g.skip(1).push(r));
        lemma_enc_rows_snoc(g.skip(1), r);
        vstd::seq_lib::lemma_concat_associative(enc_row(g[0]), enc_rows(g.skip(1)), enc_row(r));
    }
}

proof fn lemma_enc_sprites_snoc(s: Seq<SpriteV>, sv: SpriteV)
    ensures
        enc_sprites_list(s.push(sv)) == enc_sprites_list(s) + enc_sprite(sv),
    decreases s.len(),
{
    if s.len() == 0 {
        let p = s.push(sv);
        assert(p[0] == sv);
        assert(p.skip(1) =~= Seq::<SpriteV>::empty());
        assert(enc_sprites_list(p.skip(1)) == Seq::<i64>::empty());
        assert(enc_sprites_list(p) == enc_sprite(p[0]) + enc_sprites_list(p.skip(1)));
        assert(enc_sprites_list(p) =~= enc_sprite(sv));
        assert(enc_sprites_list(s) + enc_sprite(sv) =~= enc_sprite(sv));
    } else {
        assert(s.push(sv)[0] == s[0]);
        assert(s.push(sv).skip(1) =~= s.skip(1).push(sv));
        lemma_enc_sprites_snoc(s.skip(1), sv);
        vstd::seq_lib::lemma_concat_associative(
            enc_sprite(s[0]),
            enc_sprites_list(s.skip(1)),
            enc_sprite(sv),
        );
    }
}

proof fn lemma_enc_enemies_snoc(s: Seq<Enemy>, e: Enemy)
    ensures
        enc_enemies_list(s.push(e)) == enc_enemies_list(s) + enc_enemy(e),
    decreases s.len(),
{
    if s.len() == 0 {
        let p = s.push(e);
        assert(p[0] == e);
        assert(p.skip(1) =~= Seq::<Enemy>::empty());
        assert(enc_enemies_list(p.skip(1)) == Seq::<i64>::empty());
        assert(enc_enemies_list(p) == enc_enemy(p[0]) + enc_enemies_list(p.skip(1)));
        assert(enc_enemies_list(p) =~= enc_enemy(e));
        assert(enc_enemies_list(s) + enc_enemy(e) =~= enc_enemy(e));
    } else {
        assert(s.push(e)[0] == s[0]);
        assert(s.push(e).skip(1) =~= s.skip(1).push(e));
        lemma_enc_enemies_snoc(s.skip(1), e);
        vstd::seq_lib::lemma_concat_associative(
            enc_enemy(s[0]),
            enc_enemies_list(s.skip(1)),
            enc_enemy(e),
        );
    }
}

proof fn lemma_enc_lasers_snoc(s: Seq<Laser>, l: Laser)
    ensures
        enc_lasers_list(s.push(l)) == enc_lasers_list(s) + enc_laser(l),
    decreases s.len(),
{
    if s.len() == 0 {
        let p = s.push(l);
        assert(p[0] == l);
        assert(p.skip(1) =~= Seq::<Laser>::empty());
        assert(enc_lasers_list(p.skip(1)) == Seq::<i64>::empty());
        assert(enc_lasers_list(p) == enc_laser(p[0]) + enc_lasers_list(p.skip(1)));
        assert(enc_lasers_list(p) =~= enc_laser(l));
        assert(enc_lasers_list(s) + enc_laser(l) =~= enc_laser(l));
    } else {
        assert(s.push(l)[0] == s[0]);
        assert(s.push(l).skip(1) =~= s.skip(1).push(l));
        lemma_enc_lasers_snoc(s.skip(1), l);
        vstd::seq_lib::lemma_concat_associative(
            enc_laser(s[0]),
            enc_lasers_list(s.skip(1)),
            enc_laser(l),
        );
    }
}

/// Append a laser's eleven slots.
fn push_laser(out: &mut Vec<i64>, l: &Laser)
    ensures
        final(out)@ == old(out)@ + enc_laser(*l),
{
    out.push(l.x as i64);
    out.push(l.y as i64);
    out.push(l.w as i64);
    out.push(l.h as i64);
    out.push(l.t as i64);
    out.push(
        match l.movement {
            Direction::Up => 0i64,
            Direction::Down => 1i64,
            Direction::Left => 2i64,
            Direction::Right => 3i64,
        },
    );
    out.push(l.speed as i64);
    out.push(l.color.r as i64);
    out.push(l.color.g as i64);
    out.push(l.color.b as i64);
    out.push(l.color.a as i64);
    proof {
        assert(final(out)@ =~= old(out)@ + enc_laser(*l));
    }
}

/// Append the ship's nine slots.
fn push_player(out: &mut Vec<i64>, p: &Player)
    ensures
        final(out)@ == old(out)@ + enc_player(*p),
{
    out.push(p.x as i64);
    out.push(p.y as i64);
    out.push(p.w as i64);
    out.push(p.h as i64);
    out.push(p.speed as i64);
    out.push(p.color.r as i64);
    out.push(p.color.g as i64);
    out.push(p.color.b as i64);
    out.push(p.color.a as i64);
    proof {
        assert(final(out)@ =~= old(out)@ + enc_player(*p));
    }
}

/// Append an enemy's eleven slots.
fn push_enemy(out: &mut Vec<i64>, e: &Enemy)
    ensures
        final(out)@ == old(out)@ + enc_enemy(*e),
{
    out.push(e.x as i64);
    out.push(e.y as i64);
    out.push(e.row as i64);
    out.push(e.col as i64);
    out.push(e.id as i64);
    out.push(if e.alive { 1i64 } else { 0i64 });
    match e.death_counter {
        Some(d) => {
            out.push(1i64);
            out.push(d as i64);
        },
        None => {
            out.push(0i64);
            out.push(0i64);
        },
    }
    out.push(e.move_counter as i64);
    out.push(if e.move_right { 1i64 } else { 0i64 });
    out.push(
        match e.orientation {
            Orientation::INIT => 0i64,
            Orientation::FLIP => 1i64,
        },
    );
    proof {
        assert(final(out)@ =~= old(out)@ + enc_enemy(*e));
    }
}

/// Append a length-prefixed pixel grid.
fn push_grid(out: &mut Vec<i64>, data: &Vec<Vec<Color>>)
    requires
        grid_ok(crate::sprite::gview(data@)),
    ensures
        final(out)@ == old(out)@ + enc_grid(crate::sprite::gview(data@)),
{
    let ghost g = crate::sprite::gview(data@);
    out.push(data.len() as i64);
    let mut r: usize = 0;
    while r < data.len()
        invariant
            g == crate::sprite::gview(data@),
            grid_ok(g),
            r <= g.len(),
            data@.len() == g.len(),
            out@ == old(out)@ + (seq![g.len() as i64] + enc_rows(g.take(r as int))),
        decreases g.len() - r,
    {
        proof {
            assert(g[r as int] == data@[r as int]@);
        }
        out.push(data[r].len() as i64);
        let ghost row = g[r as int];
        let row_len = data[r].len();
        let mut c: usize = 0;
        while c < row_len
            invariant
                g == crate::sprite::gview(data@),
                r < g.len(),
                data@.len() == g.len(),
                row == g[r as int],
                row == data@[r as int]@,
                row_len == row.len(),
                c <= row_len,
                out@ == old(out)@ + (seq![g.len() as i64] + (enc_rows(g.take(r as int)) + (seq![
                    row.len() as i64,
                ] + enc_colors(row.take(c as int))))),
            decreases row_len - c,
        {
            let px = data[r][c];
            out.push(px.r as i64);
            out.push(px.g as i64);
            out.push(px.b as i64);
            out.push(px.a as i64);
            proof {
                lemma_enc_colors_snoc(row.take(c as int), row[c as int]);
                assert(row.take(c as int).push(row[c as int]) =~= row.take(c + 1));
                assert(out@ =~= old(out)@ + (seq![g.len() as i64] + (enc_rows(g.take(r as int))
                    + (seq![row.len() as i64] + enc_colors(row.take(c + 1))))));
            }
            c += 1;
        }
        proof {
            assert(row.take(row.len() as int) =~= row);
            lemma_enc_rows_snoc(g.take(r as int), row);
            assert(g.take(r as int).push(row) =~= g.take(r + 1));
            assert(out@ =~= old(out)@ + (seq![g.len() as i64] + enc_rows(g.take(r + 1))));
        }
        r += 1;
    }
    proof {
        assert(g.take(g.len() as int) =~= g);
        assert(final(out)@ =~= old(out)@ + enc_grid(g));
    }
}

impl State {
    /// Serialize the state into its flat record; every field and every
    /// shield pixel is written.  The length bounds are machine limits that
    /// any state held in memory satisfies.
    #[verifier::rlimit(100)]
    pub fn encode_state(&self) -> (out: Vec<i64>)
        requires
            encodable(self@),
        ensures
            out@ == enc_state(self@),
    {
        let mut out: Vec<i64> = Vec::new();
        out.push(self.lives as i64);
        out.push(self.score as i64);
        let ghost a0 = seq![self@.lives as i64, self@.score as i64];
        proof {
            assert(out@ =~= a0);
        }
        push_player(&mut out, &self.ship);
        match &self.ship_laser {
            Some(l) => {
                out.push(1i64);
                push_laser(&mut out, l);
                proof {
                    vstd::seq_lib::lemma_concat_associative(
                        a0 + enc_player(self@.ship),
                        seq![1i64],
                        enc_laser(self@.ship_laser->Some_0),
                    );
                    assert((seq![1i64] + enc_laser(self@.ship_laser->Some_0)) =~= enc_opt_laser(
                        self@.ship_laser,
                    ));
                    assert(out@ =~= a0 + enc_player(self@.ship) + enc_opt_laser(
                        self@.ship_laser,
                    ));
                }
            },
            None => {
                out.push(0i64);
                proof {
                    assert(out@ =~= a0 + enc_player(self@.ship) + enc_opt_laser(
                        self@.ship_laser,
                    ));
                }
            },
        }
        out.push(self.shields.len() as i64);
        let ghost base = a0 + enc_player(self@.ship) + enc_opt_laser(self@.ship_laser) + seq![
            self@.shields.len() as i64,
        ];
        proof {
            assert(out@ =~= base);
        }
        let mut i: usize = 0;
        while i < self.shields.len()
            invariant
                encodable(self@),
                i <= self@.shields.len(),
                base == a0 + enc_player(self@.ship) + enc_opt_laser(self@.ship_laser) + seq![
                    self@.shields.len() as i64,
                ],
                a0 == seq![self@.lives as i64, self@.score as i64],
                out@ == base + enc_sprites_list(self@.shields.take(i as int)),
            decreases self@.shields.len() - i,
        {
            proof {
                assert(self@.shields[i as int] == self.shields@[i as int]@);
                assert(sprite_ok(self@.shields[i as int]));
            }
            out.push(self.shields[i].x as i64);
            out.push(self.shields[i].y as i64);
            push_grid(&mut out, &self.shields[i].data);
            proof {
                let sv = self@.shields[i as int];
                lemma_enc_sprites_snoc(self@.shields.take(i as int), sv);
                assert(self@.shields.take(i as int).push(sv) =~= self@.shields.take(i + 1));
                assert(out@ =~= base + enc_sprites_list(self@.shields.take(i + 1)));
            }
            i += 1;
        }
        proof {
            assert(self@.shields.take(self@.shields.len() as int) =~= self@.shields);
        }
        out.push(self.enemies.len() as i64);
        let ghost base2 = base + enc_sprites_list(self@.shields) + seq![
            self@.enemies.len() as i64,
        ];
        proof {
            assert(out@ =~= base2);
        }
        let mut i: usize = 0;
        while i < self.enemies.len()
            invariant
                i <= self@.enemies.len(),
                self@.enemies == self.enemies@,
                out@ == base2 + enc_enemies_list(self@.enemies.take(i as int)),
            decreases self@.enemies.len() - i,
        {
            push_enemy(&mut out, &self.enemies[i]);
            proof {
                lemma_enc_enemies_snoc(
                    self@.enemies.take(i as int),
                    self@.enemies[i as int],
                );
                assert(self@.enemies.take(i as int).push(self@.enemies[i as int])
                    =~= self@.enemies.take(i + 1));
                assert(out@ =~= base2 + enc_enemies_list(self@.enemies.take(i + 1)));
            }
            i += 1;
        }
        proof {
            assert(self@.enemies.take(self@.enemies.len() as int) =~= self@.enemies);
        }
        out.push(self.enemy_shot_delay as i64);
        out.push(self.enemy_lasers.len() as i64);
        let ghost base3 = base2 + enc_enemies_list(self@.enemies) + seq![
            self@.enemy_shot_delay as i64,
            self@.enemy_lasers.len() as i64,
        ];
        proof {
            assert(out@ =~= base3);
        }
        let mut i: usize = 0;
        while i < self.enemy_lasers.len()
            invariant
                i <= self@.enemy_lasers.len(),
                self@.enemy_lasers == self.enemy_lasers@,
                out@ == base3 + enc_lasers_list(self@.enemy_lasers.take(i as int)),
            decreases self@.enemy_lasers.len() - i,
        {
            push_laser(&mut out, &self.enemy_lasers[i]);
            proof {
                lemma_enc_lasers_snoc(
                    self@.enemy_lasers.take(i as int),
                    self@.enemy_lasers[i as int],
                );
                assert(self@.enemy_lasers.take(i as int).push(self@.enemy_lasers[i as int])
                    =~= self@.enemy_lasers.take(i + 1));
                assert(out@ =~= base3 + enc_lasers_list(self@.enemy_lasers.take(i + 1)));
            }
            i += 1;
        }
        proof {
            assert(self@.enemy_lasers.take(self@.enemy_lasers.len() as int)
                =~= self@.enemy_lasers);
            let sv = self@;
            let a0s = seq![sv.lives as i64, sv.score as i64];
            let e1 = enc_player(sv.ship);
            let e2 = enc_opt_laser(sv.ship_laser);
            let ls = seq![sv.shields.len() as i64];
            let le = seq![sv.enemies.len() as i64];
            let a5l = seq![sv.enemy_shot_delay as i64, sv.enemy_lasers.len() as i64];
            vstd::seq_lib::lemma_concat_associative(
                a0s + e1 + e2,
                ls,
                enc_sprites_list(sv.shields),
            );
            assert(base + enc_sprites_list(sv.shields) == a0s + e1 + e2 + enc_sprites(
                sv.shields,
            ));
            vstd::seq_lib::lemma_concat_associative(
                a0s + e1 + e2 + enc_sprites(sv.shields),
                le,
                enc_enemies_list(sv.enemies),
            );
            assert(base2 + enc_enemies_list(sv.enemies) == a0s + e1 + e2 + enc_sprites(
                sv.shields,
            ) + enc_enemies(sv.enemies));
            assert(a5l =~= seq![sv.enemy_shot_delay as i64] + seq![
                sv.enemy_lasers.len() as i64,
            ]);
            vstd::seq_lib::lemma_concat_associative(
                a0s + e1 + e2 + enc_sprites(sv.shields) + enc_enemies(sv.enemies),
                seq![sv.enemy_shot_delay as i64],
                seq![sv.enemy_lasers.len() as i64],
            );
            let big = a0s + e1 + e2 + enc_sprites(sv.shields) + enc_enemies(sv.enemies) + seq![
                sv.enemy_shot_delay as i64,
            ];
            assert(base3 == big + seq![sv.enemy_lasers.len() as i64]);
            vstd::seq_lib::lemma_concat_associative(
                big,
                seq![sv.enemy_lasers.len() as i64],
                enc_lasers_list(sv.enemy_lasers),
            );
            assert(out@ == big + enc_lasers(sv.enemy_lasers));
            lemma_enc_state_parts(sv);
            assert(out@ == enc_state(sv));
        }
        out
    }
}

} // verus!

verus! {

/// Each pixel takes exactly four slots.
proof fn lemma_enc_colors_len(s: Seq<Color>)
    ensures
        enc_colors(s).len() == 4 * s.len(),
    decreases s.len(),
{
    if s.len() > 0 {
        lemma_enc_colors_len(s.skip(1));
    }
}

/// Each row takes at least one slot.
proof fn lemma_enc_rows_len(g: Seq<Seq<Color>>)
    ensures
        enc_rows(g).len() >= g.len(),
    decreases g.len(),
{
    if g.len() > 0 {
        lemma_enc_rows_len(g.skip(1));
    }
}

/// Each bitmap takes at least one slot.
proof fn lemma_enc_sprites_len(s: Seq<SpriteV>)
    ensures
        enc_sprites_list(s).len() >= s.len(),
    decreases s.len(),
{
    if s.len() > 0 {
        lemma_enc_sprites_len(s.skip(1));
    }
}

/// Each enemy takes eleven slots.
proof fn lemma_enc_enemies_len(s: Seq<Enemy>)
    ensures
        enc_enemies_list(s).len() == 11 * s.len(),
    decreases s.len(),
{
    if s.len() > 0 {
        lemma_enc_enemies_len(s.skip(1));
    }
}

/// Each laser takes eleven slots.
proof fn lemma_enc_lasers_len(s: Seq<Laser>)
    ensures
        enc_lasers_list(s).len() == 11 * s.len(),
    decreases s.len(),
{
    if s.len() > 0 {
        lemma_enc_lasers_len(s.skip(1));
    }
}

/// Read one laser record.
fn read_laser(data: &Vec<i64>, pos: usize) -> (r: Option<(Laser, usize)>)
    requires
        pos <= data@.len(),
    ensures
        match dec_laser(data@.skip(pos as int)) {
            None => r is None,
            Some(p) => r == Some((p.0, (pos + p.1) as usize)),
        },
        r matches Some(q) ==> pos <= q.1 <= data@.len(),
{
    proof {
        assert(forall|k: int|
            0 <= k < data@.len() - pos ==> #[trigger] data@.skip(pos as int)[k] == data@[pos
                + k]);
    }
    if data.len() - pos < 11 {
        return None;
    }
    let v0 = data[pos];
    let v1 = data[pos + 1];
    let v2 = data[pos + 2];
    let v3 = data[pos + 3];
    let v4 = data[pos + 4];
    let v5 = data[pos + 5];
    let v6 = data[pos + 6];
    let v7 = data[pos + 7];
    let v8 = data[pos + 8];
    let v9 = data[pos + 9];
    let v10 = data[pos + 10];
    let lo = i32::MIN as i64;
    let hi = i32::MAX as i64;
    if lo <= v0 && v0 <= hi && lo <= v1 && v1 <= hi && lo <= v2 && v2 <= hi && lo <= v3 && v3
        <= hi && lo <= v4 && v4 <= hi && 0 <= v5 && v5 <= 3 && lo <= v6 && v6 <= hi && 0 <= v7
        && v7 <= 255 && 0 <= v8 && v8 <= 255 && 0 <= v9 && v9 <= 255 && 0 <= v10 && v10 <= 255 {
        let movement = if v5 == 0 {
            Direction::Up
        } else if v5 == 1 {
            Direction::Down
        } else if v5 == 2 {
            Direction::Left
        } else {
            Direction::Right
        };
        Some(
            (
                Laser {
                    x: v0 as i32,
                    y: v1 as i32,
                    w: v2 as i32,
                    h: v3 as i32,
                    t: v4 as i32,
                    movement,
                    speed: v6 as i32,
                    color: Color { r: v7 as u8, g: v8 as u8, b: v9 as u8, a: v10 as u8 },
                },
                pos + 11,
            ),
        )
    } else {
        None
    }
}

/// Read the ship record.
fn read_player(data: &Vec<i64>, pos: usize) -> (r: Option<(Player, usize)>)
    requires
        pos <= data@.len(),
    ensures
        match dec_player(data@.skip(pos as int)) {
            None => r is None,
            Some(p) => r == Some((p.0, (pos + p.1) as usize)),
        },
        r matches Some(q) ==> pos <= q.1 <= data@.len(),
{
    proof {
        assert(forall|k: int|
            0 <= k < data@.len() - pos ==> #[trigger] data@.skip(pos as int)[k] == data@[pos
                + k]);
    }
    if data.len() - pos < 9 {
        return None;
    }
    let v0 = data[pos];
    let v1 = data[pos + 1];
    let v2 = data[pos + 2];
    let v3 = data[pos + 3];
    let v4 = data[pos + 4];
    let v5 = data[pos + 5];
    let v6 = data[pos + 6];
    let v7 = data[pos + 7];
    let v8 = data[pos + 8];
    let lo = i32::MIN as i64;
    let hi = i32::MAX as i64;
    if lo <= v0 && v0 <= hi && lo <= v1 && v1 <= hi && lo <= v2 && v2 <= hi && lo <= v3 && v3
        <= hi && lo <= v4 && v4 <= hi && 0 <= v5 && v5 <= 255 && 0 <= v6 && v6 <= 255 && 0 <= v7
        && v7 <= 255 && 0 <= v8 && v8 <= 255 {
        Some(
            (
                Player {
                    x: v0 as i32,
                    y: v1 as i32,
                    w: v2 as i32,
                    h: v3 as i32,
                    speed: v4 as i32,
                    color: Color { r: v5 as u8, g: v6 as u8, b: v7 as u8, a: v8 as u8 },
                },
                pos + 9,
            ),
        )
    } else {
        None
    }
}

/// Read one enemy record.
fn read_enemy(data: &Vec<i64>, pos: usize) -> (r: Option<(Enemy, usize)>)
    requires
        pos <= data@.len(),
    ensures
        match dec_enemy(data@.skip(pos as int)) {
            None => r is None,
            Some(p) => r == Some((p.0, (pos + p.1) as usize)),
        },
        r matches Some(q) ==> pos <= q.1 <= data@.len(),
{
    proof {
        assert(forall|k: int|
            0 <= k < data@.len() - pos ==> #[trigger] data@.skip(pos as int)[k] == data@[pos
                + k]);
    }
    if data.len() - pos < 11 {
        return None;
    }
    let v0 = data[pos];
    let v1 = data[pos + 1];
    let v2 = data[pos + 2];
    let v3 = data[pos + 3];
    let v4 = data[pos + 4];
    let v5 = data[pos + 5];
    let v6 = data[pos + 6];
    let v7 = data[pos + 7];
    let v8 = data[pos + 8];
    let v9 = data[pos + 9];
    let v10 = data[pos + 10];
    let lo = i32::MIN as i64;
    let hi = i32::MAX as i64;
    let ok = lo <= v0 && v0 <= hi && lo <= v1 && v1 <= hi && lo <= v2 && v2 <= hi && lo <= v3
        && v3 <= hi && 0 <= v4 && v4 <= u32::MAX as i64 && (v5 == 0 || v5 == 1) && (v6 == 0 || v6
        == 1) && lo <= v7 && v7 <= hi && (v6 != 0 || v7 == 0) && lo <= v8 && v8 <= hi && (v9
        == 0 || v9 == 1) && (v10 == 0 || v10 == 1);
    if ok {
        Some(
            (
                Enemy {
                    x: v0 as i32,
                    y: v1 as i32,
                    row: v2 as i32,
                    col: v3 as i32,
                    id: v4 as u32,
                    alive: v5 == 1,
                    death_counter: if v6 == 1 {
                        Some(v7 as i32)
                    } else {
                        None
                    },
                    move_counter: v8 as i32,
                    move_right: v9 == 1,
                    orientation: if v10 == 1 {
                        Orientation::FLIP
                    } else {
                        Orientation::INIT
                    },
                },
                pos + 11,
            ),
        )
    } else {
        None
    }
}

/// Read a length-prefixed pixel row.
fn read_row(data: &Vec<i64>, pos: usize) -> (r: Option<(Vec<Color>, usize)>)
    requires
        pos <= data@.len(),
    ensures
        match dec_row(data@.skip(pos as int)) {
            None => r is None,
            Some(p) => r matches Some(q) && q.0@ == p.0 && q.1 == pos + p.1,
        },
        r matches Some(q) ==> pos <= q.1 <= data@.len(),
{
    let ghost t = data@.skip(pos as int);
    if data.len() == pos {
        return None;
    }
    let n64 = data[pos];
    proof {
        assert(t[0] == n64);
    }
    if n64 < 0 {
        return None;
    }
    let ghost t1 = data@.skip(pos as int + 1);
    proof {
        assert(t.skip(1) =~= t1);
    }
    let remaining = data.len() - (pos + 1);
    if (n64 as u64) > (remaining / 4) as u64 {
        proof {
            lemma_sound_colors(t1, n64 as nat);
            if dec_colors_n(t1, n64 as nat) is Some {
                let p2 = dec_colors_n(t1, n64 as nat)->Some_0;
                lemma_enc_colors_len(p2.0);
                assert(p2.1 == enc_colors(p2.0).len());
                assert(false);
            }
        }
        return None;
    }
    let n = n64 as usize;
    let mut acc: Vec<Color> = Vec::new();
    let mut cur: usize = pos + 1;
    let mut i: usize = 0;
    while i < n
        invariant
            pos + 1 <= cur <= data@.len(),
            data@.len() <= usize::MAX,
            i <= n,
            acc@.len() == i,
            pos < data@.len(),
            t1 == data@.skip(pos as int + 1),
            data@.skip(pos as int)[0] == n64,
            data@.skip(pos as int).skip(1) == t1,
            n64 >= 0,
            n == n64 as nat,
            match dec_colors_n(data@.skip(cur as int), (n - i) as nat) {
                None => dec_colors_n(t1, n as nat) is None,
                Some(p2) => dec_colors_n(t1, n as nat) == Some(
                    (acc@ + p2.0, (cur - (pos + 1)) + p2.1),
                ),
            },
        decreases n - i,
    {
        let ghost tc = data@.skip(cur as int);
        proof {
            assert(forall|k: int|
                0 <= k < data@.len() - cur ==> #[trigger] tc[k] == data@[cur + k]);
        }
        if data.len() - cur < 4 {
            proof {
                assert(dec_color(tc) is None);
            }
            return None;
        }
        let v0 = data[cur];
        let v1 = data[cur + 1];
        let v2 = data[cur + 2];
        let v3 = data[cur + 3];
        if !(0 <= v0 && v0 <= 255 && 0 <= v1 && v1 <= 255 && 0 <= v2 && v2 <= 255 && 0 <= v3
            && v3 <= 255) {
            proof {
                assert(dec_color(tc) is None);
            }
            return None;
        }
        let c = Color { r: v0 as u8, g: v1 as u8, b: v2 as u8, a: v3 as u8 };
        proof {
            assert(dec_color(tc) == Some((c, 4int)));
            lemma_skip_skip(data@, cur as int, 4);
            let p3 = dec_colors_n(data@.skip(cur as int + 4), (n - i - 1) as nat);
            if p3 is Some {
                assert(acc@ + (seq![c] + p3->Some_0.0) =~= acc@.push(c) + p3->Some_0.0);
            }
        }
        acc.push(c);
        cur = cur + 4;
        i += 1;
    }
    proof {
        assert(dec_colors_n(data@.skip(cur as int), 0nat) == Some(
            (Seq::<Color>::empty(), 0int),
        ));
        assert(acc@ + Seq::<Color>::empty() =~= acc@);
        assert(dec_colors_n(t1, n as nat) == Some((acc@, (cur - (pos + 1)) as int)));
    }
    Some((acc, cur))
}

/// Read a length-prefixed pixel grid.
fn read_grid(data: &Vec<i64>, pos: usize) -> (r: Option<(Vec<Vec<Color>>, usize)>)
    requires
        pos <= data@.len(),
    ensures
        match dec_grid(data@.skip(pos as int)) {
            None => r is None,
            Some(p) => r matches Some(q) && crate::sprite::gview(q.0@) == p.0 && q.1 == pos
                + p.1,
        },
        r matches Some(q) ==> pos <= q.1 <= data@.len(),
{
    let ghost t = data@.skip(pos as int);
    if data.len() == pos {
        return None;
    }
    let n64 = data[pos];
    proof {
        assert(t[0] == n64);
    }
    if n64 < 0 {
        return None;
    }
    let ghost t1 = data@.skip(pos as int + 1);
    proof {
        assert(t.skip(1) =~= t1);
    }
    let remaining = data.len() - (pos + 1);
    if (n64 as u64) > remaining as u64 {
        proof {
            lemma_sound_rows(t1, n64 as nat);
            if dec_rows_n(t1, n64 as nat) is Some {
                let p2 = dec_rows_n(t1, n64 as nat)->Some_0;
                lemma_enc_rows_len(p2.0);
                assert(p2.1 == enc_rows(p2.0).len());
                assert(false);
            }
        }
        return None;
    }
    let n = n64 as usize;
    let mut acc: Vec<Vec<Color>> = Vec::new();
    let mut cur: usize = pos + 1;
    let mut i: usize = 0;
    while i < n
        invariant
            pos + 1 <= cur <= data@.len(),
            data@.len() <= usize::MAX,
            i <= n,
            acc@.len() == i,
            pos < data@.len(),
            t1 == data@.skip(pos as int + 1),
            data@.skip(pos as int)[0] == n64,
            data@.skip(pos as int).skip(1) == t1,
            n64 >= 0,
            n == n64 as nat,
            match dec_rows_n(data@.skip(cur as int), (n - i) as nat) {
                None => dec_rows_n(t1, n as nat) is None,
                Some(p2) => dec_rows_n(t1, n as nat) == Some(
                    (crate::sprite::gview(acc@) + p2.0, (cur - (pos + 1)) + p2.1),
                ),
            },
        decreases n - i,
    {
        let row = read_row(data, cur);
        match row {
            None => {
                return None;
            },
            Some((rowv, cur2)) => {
                proof {
                    let p1 = dec_row(data@.skip(cur as int))->Some_0;
                    lemma_skip_skip(data@, cur as int, p1.1);
                    let p3 = dec_rows_n(data@.skip(cur as int + p1.1), (n - i - 1) as nat);
                    if p3 is Some {
                        assert(crate::sprite::gview(acc@.push(rowv)) =~= crate::sprite::gview(
                            acc@,
                        ).push(rowv@));
                        assert(crate::sprite::gview(acc@) + (seq![p1.0] + p3->Some_0.0)
                            =~= crate::sprite::gview(acc@).push(rowv@) + p3->Some_0.0);
                    }
                }
                acc.push(rowv);
                cur = cur2;
                i += 1;
            },
        }
    }
    proof {
        assert(dec_rows_n(data@.skip(cur as int), 0nat) == Some(
            (Seq::<Seq<Color>>::empty(), 0int),
        ));
        assert(crate::sprite::gview(acc@) + Seq::<Seq<Color>>::empty() =~= crate::sprite::gview(
            acc@,
        ));
        assert(dec_rows_n(t1, n as nat) == Some(
            (crate::sprite::gview(acc@), (cur - (pos + 1)) as int),
        ));
    }
    Some((acc, cur))
}

/// Read one bitmap: anchor, then grid.
fn read_sprite(data: &Vec<i64>, pos: usize) -> (r: Option<(SpriteData, usize)>)
    requires
        pos <= data@.len(),
    ensures
        match dec_sprite(data@.skip(pos as int)) {
            None => r is None,
            Some(p) => r matches Some(q) && q.0@ == p.0 && q.1 == pos + p.1,
        },
        r matches Some(q) ==> pos <= q.1 <= data@.len(),
{
    let ghost t = data@.skip(pos as int);
    proof {
        assert(forall|k: int| 0 <= k < data@.len() - pos ==> #[trigger] t[k] == data@[pos + k]);
    }
    if data.len() - pos < 2 {
        return None;
    }
    let v0 = data[pos];
    let v1 = data[pos + 1];
    let lo = i32::MIN as i64;
    let hi = i32::MAX as i64;
    if !(lo <= v0 && v0 <= hi && lo <= v1 && v1 <= hi) {
        return None;
    }
    proof {
        lemma_skip_skip(data@, pos as int, 2);
        assert(t.skip(2) == data@.skip(pos as int + 2));
    }
    match read_grid(data, pos + 2) {
        None => None,
        Some((g, cur)) => {
            let sd = SpriteData { x: v0 as i32, y: v1 as i32, data: g };
            proof {
                assert(sd@ == dec_sprite(t)->Some_0.0);
            }
            Some((sd, cur))
        },
    }
}

/// Read the optional player laser.
fn read_opt_laser(data: &Vec<i64>, pos: usize) -> (r: Option<(Option<Laser>, usize)>)
    requires
        pos <= data@.len(),
    ensures
        match dec_opt_laser(data@.skip(pos as int)) {
            None => r is None,
            Some(p) => r == Some((p.0, (pos + p.1) as usize)),
        },
        r matches Some(q) ==> pos <= q.1 <= data@.len(),
{
    let ghost t = data@.skip(pos as int);
    if data.len() == pos {
        return None;
    }
    let tag = data[pos];
    proof {
        assert(t[0] == tag);
    }
    if tag == 0 {
        Some((None, pos + 1))
    } else if tag == 1 {
        proof {
            lemma_skip_skip(data@, pos as int, 1);
            assert(t.skip(1) == data@.skip(pos as int + 1));
        }
        match read_laser(data, pos + 1) {
            None => None,
            Some((l, cur)) => Some((Some(l), cur)),
        }
    } else {
        None
    }
}

} // verus!

verus! {

/// Read the length-prefixed shield list.
fn read_sprites(data: &Vec<i64>, pos: usize) -> (r: Option<(Vec<SpriteData>, usize)>)
    requires
        pos <= data@.len(),
    ensures
        match dec_sprites(data@.skip(pos as int)) {
            None => r is None,
            Some(p) => r matches Some(q) && crate::entity::sviews(q.0@) == p.0 && q.1 == pos
                + p.1,
        },
        r matches Some(q) ==> pos <= q.1 <= data@.len(),
{
    let ghost t = data@.skip(pos as int);
    if data.len() == pos {
        return None;
    }
    let n64 = data[pos];
    proof {
        assert(t[0] == n64);
    }
    if n64 < 0 {
        return None;
    }
    let ghost t1 = data@.skip(pos as int + 1);
    proof {
        assert(t.skip(1) =~= t1);
    }
    let remaining = data.len() - (pos + 1);
    if (n64 as u64) > remaining as u64 {
        proof {
            lemma_sound_sprites_list(t1, n64 as nat);
            if dec_sprites_n(t1, n64 as nat) is Some {
                let p2 = dec_sprites_n(t1, n64 as nat)->Some_0;
                lemma_enc_sprites_len(p2.0);
                assert(p2.1 == enc_sprites_list(p2.0).len());
                assert(false);
            }
        }
        return None;
    }
    let n = n64 as usize;
    let mut acc: Vec<SpriteData> = Vec::new();
    let mut cur: usize = pos + 1;
    let mut i: usize = 0;
    while i < n
        invariant
            pos + 1 <= cur <= data@.len(),
            data@.len() <= usize::MAX,
            i <= n,
            acc@.len() == i,
            pos < data@.len(),
            t1 == data@.skip(pos as int + 1),
            data@.skip(pos as int)[0] == n64,
            data@.skip(pos as int).skip(1) == t1,
            n64 >= 0,
            n == n64 as nat,
            match dec_sprites_n(data@.skip(cur as int), (n - i) as nat) {
                None => dec_sprites_n(t1, n as nat) is None,
                Some(p2) => dec_sprites_n(t1, n as nat) == Some(
                    (crate::entity::sviews(acc@) + p2.0, (cur - (pos + 1)) + p2.1),
                ),
            },
        decreases n - i,
    {
        let sp = read_sprite(data, cur);
        match sp {
            None => {
                return None;
            },
            Some((sd, cur2)) => {
                proof {
                    let p1 = dec_sprite(data@.skip(cur as int))->Some_0;
                    lemma_skip_skip(data@, cur as int, p1.1);
                    let p3 = dec_sprites_n(data@.skip(cur as int + p1.1), (n - i - 1) as nat);
                    if p3 is Some {
                        assert(crate::entity::sviews(acc@.push(sd)) =~= crate::entity::sviews(
                            acc@,
                        ).push(sd@));
                        assert(crate::entity::sviews(acc@) + (seq![p1.0] + p3->Some_0.0)
                            =~= crate::entity::sviews(acc@).push(sd@) + p3->Some_0.0);
                    }
                }
                acc.push(sd);
                cur = cur2;
                i += 1;
            },
        }
    }
    proof {
        assert(dec_sprites_n(data@.skip(cur as int), 0nat) == Some(
            (Seq::<SpriteV>::empty(), 0int),
        ));
        assert(crate::entity::sviews(acc@) + Seq::<SpriteV>::empty() =~= crate::entity::sviews(
            acc@,
        ));
        assert(dec_sprites_n(t1, n as nat) == Some(
            (crate::entity::sviews(acc@), (cur - (pos + 1)) as int),
        ));
    }
    Some((acc, cur))
}

/// Read the length-prefixed roster.
fn read_enemies(data: &Vec<i64>, pos: usize) -> (r: Option<(Vec<Enemy>, usize)>)
    requires
        pos <= data@.len(),
    ensures
        match dec_enemies(data@.skip(pos as int)) {
            None => r is None,
            Some(p) => r matches Some(q) && q.0@ == p.0 && q.1 == pos + p.1,
        },
        r matches Some(q) ==> pos <= q.1 <= data@.len(),
{
    let ghost t = data@.skip(pos as int);
    if data.len() == pos {
        return None;
    }
    let n64 = data[pos];
    proof {
        assert(t[0] == n64);
    }
    if n64 < 0 {
        return None;
    }
    let ghost t1 = data@.skip(pos as int + 1);
    proof {
        assert(t.skip(1) =~= t1);
    }
    let remaining = data.len() - (pos + 1);
    if (n64 as u64) > remaining as u64 {
        proof {
            lemma_sound_enemies_list(t1, n64 as nat);
            if dec_enemies_n(t1, n64 as nat) is Some {
                let p2 = dec_enemies_n(t1, n64 as nat)->Some_0;
                lemma_enc_enemies_len(p2.0);
                assert(p2.1 == enc_enemies_list(p2.0).len());
                assert(false);
            }
        }
        return None;
    }
    let n = n64 as usize;
    let mut acc: Vec<Enemy> = Vec::new();
    let mut cur: usize = pos + 1;
    let mut i: usize = 0;
    while i < n
        invariant
            pos + 1 <= cur <= data@.len(),
            data@.len() <= usize::MAX,
            i <= n,
            acc@.len() == i,
            pos < data@.len(),
            t1 == data@.skip(pos as int + 1),
            data@.skip(pos as int)[0] == n64,
            data@.skip(pos as int).skip(1) == t1,
            n64 >= 0,
            n == n64 as nat,
            match dec_enemies_n(data@.skip(cur as int), (n - i) as nat) {
                None => dec_enemies_n(t1, n as nat) is None,
                Some(p2) => dec_enemies_n(t1, n as nat) == Some(
                    (acc@ + p2.0, (cur - (pos + 1)) + p2.1),
                ),
            },
        decreases n - i,
    {
        let sp = read_enemy(data, cur);
        match sp {
            None => {
                return None;
            },
            Some((e, cur2)) => {
                proof {
                    let p1 = dec_enemy(data@.skip(cur as int))->Some_0;
                    assert(e == p1.0);
                    assert(p1.1 == 11);
                    assert(data@.skip(cur as int).len() >= 11);
                    assert(cur2 == cur + p1.1);
                    lemma_skip_skip(data@, cur as int, p1.1);
                    let p3 = dec_enemies_n(data@.skip(cur as int + p1.1), (n - i - 1) as nat);
                    if p3 is Some {
                        vstd::seq_lib::lemma_concat_associative(acc@, seq![e], p3->Some_0.0);
                        assert(acc@ + seq![e] =~= acc@.push(e));
                        assert(acc@ + (seq![e] + p3->Some_0.0) =~= acc@.push(e) + p3->Some_0.0);
                    }
                }
                acc.push(e);
                cur = cur2;
                i += 1;
            },
        }
    }
    proof {
        assert(dec_enemies_n(data@.skip(cur as int), 0nat) == Some(
            (Seq::<Enemy>::empty(), 0int),
        ));
        assert(acc@ + Seq::<Enemy>::empty() =~= acc@);
        assert(dec_enemies_n(t1, n as nat) == Some((acc@, (cur - (pos + 1)) as int)));
    }
    Some((acc, cur))
}

/// Read the length-prefixed enemy laser list.
fn read_lasers(data: &Vec<i64>, pos: usize) -> (r: Option<(Vec<Laser>, usize)>)
    requires
        pos <= data@.len(),
    ensures
        match dec_lasers(data@.skip(pos as int)) {
            None => r is None,
            Some(p) => r matches Some(q) && q.0@ == p.0 && q.1 == pos + p.1,
        },
        r matches Some(q) ==> pos <= q.1 <= data@.len(),
{
    let ghost t = data@.skip(pos as int);
    if data.len() == pos {
        return None;
    }
    let n64 = data[pos];
    proof {
        assert(t[0] == n64);
    }
    if n64 < 0 {
        return None;
    }
    let ghost t1 = data@.skip(pos as int + 1);
    proof {
        assert(t.skip(1) =~= t1);
    }
    let remaining = data.len() - (pos + 1);
    if (n64 as u64) > remaining as u64 {
        proof {
            lemma_sound_lasers_list(t1, n64 as nat);
            if dec_lasers_n(t1, n64 as nat) is Some {
                let p2 = dec_lasers_n(t1, n64 as nat)->Some_0;
                lemma_enc_lasers_len(p2.0);
                assert(p2.1 == enc_lasers_list(p2.0).len());
                assert(false);
            }
        }
        return None;
    }
    let n = n64 as usize;
    let mut acc: Vec<Laser> = Vec::new();
    let mut cur: usize = pos + 1;
    let mut i: usize = 0;
    while i < n
        invariant
            pos + 1 <= cur <= data@.len(),
            data@.len() <= usize::MAX,
            i <= n,
            acc@.len() == i,
            pos < data@.len(),
            t1 == data@.skip(pos as int + 1),
            data@.skip(pos as int)[0] == n64,
            data@.skip(pos as int).skip(1) == t1,
            n64 >= 0,
            n == n64 as nat,
            match dec_lasers_n(data@.skip(cur as int), (n - i) as nat) {
                None => dec_lasers_n(t1, n as nat) is None,
                Some(p2) => dec_lasers_n(t1, n as nat) == Some(
                    (acc@ + p2.0, (cur - (pos + 1)) + p2.1),
                ),
            },
        decreases n - i,
    {
        let sp = read_laser(data, cur);
        match sp {
            None => {
                return None;
            },
            Some((l, cur2)) => {
                proof {
                    let p1 = dec_laser(data@.skip(cur as int))->Some_0;
                    assert(l == p1.0);
                    assert(p1.1 == 11);
                    assert(data@.skip(cur as int).len() >= 11);
                    assert(cur2 == cur + p1.1);
                    lemma_skip_skip(data@, cur as int, p1.1);
                    let p3 = dec_lasers_n(data@.skip(cur as int + p1.1), (n - i - 1) as nat);
                    if p3 is Some {
                        vstd::seq_lib::lemma_concat_associative(acc@, seq![l], p3->Some_0.0);
                        assert(acc@ + seq![l] =~= acc@.push(l));
                        assert(acc@ + (seq![l] + p3->Some_0.0) =~= acc@.push(l) + p3->Some_0.0);
                    }
                }
                acc.push(l);
                cur = cur2;
                i += 1;
            },
        }
    }
    proof {
        assert(dec_lasers_n(data@.skip(cur as int), 0nat) == Some(
            (Seq::<Laser>::empty(), 0int),
        ));
        assert(acc@ + Seq::<Laser>::empty() =~= acc@);
        assert(dec_lasers_n(t1, n as nat) == Some((acc@, (cur - (pos + 1)) as int)));
    }
    Some((acc, cur))
}

/// Rebuild a state from its flat record.  Exactly the encodings of states
/// are accepted: decoding the record of any machine-representable state
/// gives that state back field for field, and any record that is not such
/// an encoding — wrong tags, out-of-range values, truncated or trailing
/// slots — is rejected whole.
#[verifier::rlimit(100)]
pub fn decode_state(data: &Vec<i64>) -> (r: Option<State>)
    ensures
        r matches Some(st) ==> data@ == enc_state(st@),
        forall|sv: StateV|
            encodable(sv) && data@ == enc_state(sv) ==> (r matches Some(st2) && st2@ == sv),
{
    proof {
        assert(data@.skip(0) =~= data@);
        lemma_sound_state(data@);
        assert forall|sv: StateV| encodable(sv) && data@ == enc_state(sv) implies dec_state(
            data@,
        ) == Some((sv, data@.len() as int)) by {
            lemma_dec_enc_state(sv, Seq::<i64>::empty());
            assert(enc_state(sv) + Seq::<i64>::empty() =~= enc_state(sv));
        }
    }
    if data.len() < 2 {
        return None;
    }
    let v0 = data[0];
    let v1 = data[1];
    let lo = i32::MIN as i64;
    let hi = i32::MAX as i64;
    if !(lo <= v0 && v0 <= hi && lo <= v1 && v1 <= hi) {
        return None;
    }
    let r1 = read_player(data, 2);
    let (ship, p1) = match r1 {
        None => {
            return None;
        },
        Some(q) => q,
    };
    let r2 = read_opt_laser(data, p1);
    let (ship_laser, p2) = match r2 {
        None => {
            return None;
        },
        Some(q) => q,
    };
    let r3 = read_sprites(data, p2);
    let (shields, p3) = match r3 {
        None => {
            return None;
        },
        Some(q) => q,
    };
    let r4 = read_enemies(data, p3);
    let (enemies, p4) = match r4 {
        None => {
            return None;
        },
        Some(q) => q,
    };
    proof {
        lemma_skip_skip(data@, 2, dec_player(data@.skip(2))->Some_0.1);
        lemma_skip_skip(data@, p1 as int, dec_opt_laser(data@.skip(p1 as int))->Some_0.1);
        lemma_skip_skip(data@, p2 as int, dec_sprites(data@.skip(p2 as int))->Some_0.1);
        lemma_skip_skip(data@, p3 as int, dec_enemies(data@.skip(p3 as int))->Some_0.1);
    }
    if data.len() == p4 {
        return None;
    }
    let v5 = data[p4];
    proof {
        assert(data@.skip(p4 as int)[0] == v5);
    }
    if !(lo <= v5 && v5 <= hi) {
        return None;
    }
    proof {
        lemma_skip_skip(data@, p4 as int, 1);
    }
    let r6 = read_lasers(data, p4 + 1);
    let (enemy_lasers, p6) = match r6 {
        None => {
            return None;
        },
        Some(q) => q,
    };
    if p6 != data.len() {
        return None;
    }
    let st = State {
        lives: v0 as i32,
        score: v1 as i32,
        ship,
        ship_laser,
        shields,
        enemies,
        enemy_shot_delay: v5 as i32,
        enemy_lasers,
    };
    proof {
        let p = dec_state(data@)->Some_0;
        assert(st@ == p.0);
        assert(data@.take(data@.len() as int) =~= data@);
    }
    Some(st)
}

} // verus!
