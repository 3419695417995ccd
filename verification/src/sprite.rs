//! Destructible bitmaps and the pixel-level collision engine: a sprite is a
//! grid of on/off pixel cells anchored at a position.  The engine answers
//! whether a rectangle covers any "on" pixel (read-only test, used for enemy
//! hits) and can erase the covered "on" pixels (erosion, used for shields).
//! A text-art parser turns `X`/`.` pictures into pixel grids.

use vstd::prelude::*;
use crate::geometry::{Color, Rect};
use crate::screen;

verus! {

/// A pixel grid with an anchor position.  The cell at row `r`, column `c`
/// covers the screen point `(x + c, y + r)`.
#[derive(Clone, Debug, PartialEq, Eq)]
pub struct SpriteData {
    pub x: i32,
    pub y: i32,
    pub data: Vec<Vec<Color>>,
}

/// The mathematical value of a [`SpriteData`]: anchor plus pixel grid.
pub ghost struct SpriteV {
    pub x: int,
    pub y: int,
    pub grid: Seq<Seq<Color>>,
}

/// The grid of a `Vec`-of-rows bitmap as a sequence of sequences.
pub open spec fn gview(rows: Seq<Vec<Color>>) -> Seq<Seq<Color>> {
    rows.map_values(|r: Vec<Color>| r@)
}

impl View for SpriteData {
    type V = SpriteV;

    open spec fn view(&self) -> SpriteV {
        SpriteV { x: self.x as int, y: self.y as int, grid: gview(self.data@) }
    }
}

impl SpriteV {
    /// The grid has an "on" pixel at cell (r, c).
    pub open spec fn pixel_on(self, r: int, c: int) -> bool {
        &&& 0 <= r < self.grid.len()
        &&& 0 <= c < self.grid[r].len()
        &&& self.grid[r][c].spec_is_visible()
    }

    /// The set of "on" cells only ever shrinks under erosion; this is the
    /// order the monotonicity contracts use.
    pub open spec fn eroded_from(self, earlier: SpriteV) -> bool {
        &&& self.x == earlier.x
        &&& self.y == earlier.y
        &&& self.grid.len() == earlier.grid.len()
        &&& forall|r: int|
            0 <= r < self.grid.len() ==> self.grid[r].len() == earlier.grid[r].len()
        &&& forall|r: int, c: int| self.pixel_on(r, c) ==> earlier.pixel_on(r, c)
    }
}

/// Some "on" pixel of `grid`, anchored at `(ax, ay)`, lies inside `rect`.
pub open spec fn any_on_in_rect(grid: Seq<Seq<Color>>, ax: int, ay: int, rect: Rect) -> bool {
    exists|r: int, c: int|
        0 <= r < grid.len() && 0 <= c < grid[r].len() && grid[r][c].spec_is_visible()
            && rect.spec_contains_point(ax + c, ay + r)
}

/// The grid after erosion by `rect`: every covered "on" pixel is turned off,
/// all other cells keep their value.
pub open spec fn erase_grid(grid: Seq<Seq<Color>>, ax: int, ay: int, rect: Rect) -> Seq<
    Seq<Color>,
> {
    Seq::new(
        grid.len(),
        |r: int|
            Seq::new(
                grid[r].len(),
                |c: int|
                    if grid[r][c].spec_is_visible() && rect.spec_contains_point(ax + c, ay + r) {
                        Color::spec_invisible()
                    } else {
                        grid[r][c]
                    },
            ),
    )
}

impl Rect {
    /// Pixel-exact, read-only hit test: does this rectangle cover any "on"
    /// pixel of the grid anchored at `(x, y)`?  The grid is not changed.
    pub fn collides_visible(&self, x: i32, y: i32, data: &Vec<Vec<Color>>) -> (b: bool)
        ensures
            b == any_on_in_rect(gview(data@), x as int, y as int, *self),
    {
        let mut r: usize = 0;
        while r < data.len()
            invariant
                r <= data@.len(),
                forall|rr: int, cc: int|
                    0 <= rr < r && 0 <= cc < data@[rr]@.len() && data@[rr]@[cc].spec_is_visible()
                        ==> !self.spec_contains_point(x + cc, y + rr),
            decreases data@.len() - r,
        {
            let row_len = data[r].len();
            let mut c: usize = 0;
            while c < row_len
                invariant
                    r < data@.len(),
                    row_len == data@[r as int]@.len(),
                    c <= row_len,
                    forall|cc: int|
                        0 <= cc < c && data@[r as int]@[cc].spec_is_visible()
                            ==> !self.spec_contains_point(x + cc, y + r),
                decreases row_len - c,
            {
                if data[r][c].is_visible() {
                    let px = x as i128 + c as i128;
                    let py = y as i128 + r as i128;
                    let inside = self.x as i128 <= px && px < self.x as i128 + self.w as i128
                        && self.y as i128 <= py && py < self.y as i128 + self.h as i128;
                    if inside {
                        proof {
                            assert(gview(data@)[r as int] == data@[r as int]@);
                        }
                        return true;
                    }
                }
                c += 1;
            }
            r += 1;
        }
        proof {
            assert forall|rr: int, cc: int|
                0 <= rr < gview(data@).len() && 0 <= cc < gview(data@)[rr].len() && gview(
                    data@,
                )[rr][cc].spec_is_visible() implies !self.spec_contains_point(
                x + cc,
                y + rr,
            ) by {
                assert(gview(data@)[rr] == data@[rr]@);
            }
        }
        false
    }
}

/// Destructive pixel-exact collision: erase every "on" pixel of the grid
/// (anchored at `(x, y)`) that `rect` covers, and report whether at least one
/// pixel changed.
pub fn destructive_collide(rect: &Rect, x: i32, y: i32, data: &mut Vec<Vec<Color>>) -> (hit: bool)
    ensures
        gview(final(data)@) == erase_grid(gview(old(data)@), x as int, y as int, *rect),
        hit == any_on_in_rect(gview(old(data)@), x as int, y as int, *rect),
{
    let hit = rect.collides_visible(x, y, data);
    let ghost g0: Seq<Seq<Color>> = gview(data@);
    let mut r: usize = 0;
    while r < data.len()
        invariant
            g0 == gview(old(data)@),
            r <= data@.len(),
            data@.len() == g0.len(),
            forall|rr: int| r <= rr < g0.len() ==> data@[rr]@ == g0[rr],
            forall|rr: int|
                0 <= rr < r ==> data@[rr]@ == erase_grid(g0, x as int, y as int, *rect)[rr],
        decreases data@.len() - r,
    {
        let row_len = data[r].len();
        let mut c: usize = 0;
        while c < row_len
            invariant
                g0 == gview(old(data)@),
                r < data@.len(),
                data@.len() == g0.len(),
                row_len == g0[r as int].len(),
                c <= row_len,
                forall|rr: int| r < rr < g0.len() ==> data@[rr]@ == g0[rr],
                forall|rr: int|
                    0 <= rr < r ==> data@[rr]@ == erase_grid(g0, x as int, y as int, *rect)[rr],
                data@[r as int]@.len() == row_len,
                forall|cc: int|
                    c <= cc < row_len ==> data@[r as int]@[cc] == g0[r as int][cc],
                forall|cc: int|
                    0 <= cc < c ==> data@[r as int]@[cc] == erase_grid(
                        g0,
                        x as int,
                        y as int,
                        *rect,
                    )[r as int][cc],
            decreases row_len - c,
        {
            if data[r][c].is_visible() {
                let px = x as i128 + c as i128;
                let py = y as i128 + r as i128;
                let inside = rect.x as i128 <= px && px < rect.x as i128 + rect.w as i128
                    && rect.y as i128 <= py && py < rect.y as i128 + rect.h as i128;
                if inside {
                    data[r][c] = Color::invisible();
                }
            }
            c += 1;
        }
        r += 1;
    }
    proof {
        assert(gview(data@) =~~= erase_grid(g0, x as int, y as int, *rect));
    }
    hit
}

impl SpriteData {
    /// A sprite from a pixel grid, anchored at the origin.
    pub fn new(data: Vec<Vec<Color>>) -> (s: SpriteData)
        ensures
            s@.x == 0,
            s@.y == 0,
            s@.grid == gview(data@),
    {
        SpriteData { x: 0, y: 0, data }
    }

    /// Width in pixels, taken from the first row.
    pub fn width(&self) -> (w: i32)
        requires
            self@.grid.len() > 0,
            self@.grid[0].len() <= i32::MAX,
        ensures
            w == self@.grid[0].len(),
    {
        proof {
            assert(gview(self.data@)[0] == self.data@[0]@);
        }
        self.data[0].len() as i32
    }

    /// Height in pixels.
    pub fn height(&self) -> (h: i32)
        requires
            self@.grid.len() <= i32::MAX,
        ensures
            h == self@.grid.len(),
    {
        self.data.len() as i32
    }

    /// The same pixel grid re-anchored at `(x, y)`.
    pub fn translate(&self, x: i32, y: i32) -> (s: SpriteData)
        ensures
            s@.x == x as int,
            s@.y == y as int,
            s@.grid == self@.grid,
    {
        let data = copy_grid(&self.data);
        SpriteData { x, y, data }
    }
}

/// An element-by-element copy of a pixel grid.
pub fn copy_grid(data: &Vec<Vec<Color>>) -> (out: Vec<Vec<Color>>)
    ensures
        gview(out@) == gview(data@),
{
    let mut out: Vec<Vec<Color>> = Vec::new();
    let mut r: usize = 0;
    while r < data.len()
        invariant
            r <= data@.len(),
            out@.len() == r,
            forall|rr: int| 0 <= rr < r ==> out@[rr]@ == data@[rr]@,
        decreases data@.len() - r,
    {
        let row_len = data[r].len();
        let mut row: Vec<Color> = Vec::new();
        let mut c: usize = 0;
        while c < row_len
            invariant
                r < data@.len(),
                row_len == data@[r as int]@.len(),
                c <= row_len,
                row@.len() == c,
                forall|cc: int| 0 <= cc < c ==> row@[cc] == data@[r as int]@[cc],
            decreases row_len - c,
        {
            row.push(data[r][c]);
            c += 1;
        }
        proof {
            assert(row@ =~= data@[r as int]@);
        }
        out.push(row);
        r += 1;
    }
    proof {
        assert(gview(out@) =~~= gview(data@));
    }
    out
}

/// The undamaged shield bitmap: a fully opaque block of the shield size,
/// anchored at the origin until translated to its post.
pub fn shield_sprite() -> (s: SpriteData)
    ensures
        s@.x == 0,
        s@.y == 0,
        s@.grid == solid_grid(
            screen::SHIELD_SIZE_H as int,
            screen::SHIELD_SIZE_W as int,
            screen::spec_shield_color(),
        ),
{
    let s = solid_sprite(
        screen::SHIELD_SIZE_H as usize,
        screen::SHIELD_SIZE_W as usize,
        screen::shield_color(),
    );
    s
}

/// A `rows` by `cols` grid filled with one color.
pub open spec fn solid_grid(rows: int, cols: int, color: Color) -> Seq<Seq<Color>> {
    Seq::new(rows as nat, |r: int| Seq::new(cols as nat, |c: int| color))
}

/// A fully opaque rectangular sprite, anchored at the origin.
pub fn solid_sprite(rows: usize, cols: usize, color: Color) -> (s: SpriteData)
    ensures
        s@.x == 0,
        s@.y == 0,
        s@.grid == solid_grid(rows as int, cols as int, color),
{
    let mut data: Vec<Vec<Color>> = Vec::new();
    let mut r: usize = 0;
    while r < rows
        invariant
            r <= rows,
            data@.len() == r,
            forall|rr: int|
                0 <= rr < r ==> data@[rr]@ == Seq::new(cols as nat, |c: int| color),
        decreases rows - r,
    {
        let mut row: Vec<Color> = Vec::new();
        let mut c: usize = 0;
        while c < cols
            invariant
                c <= cols,
                row@.len() == c,
                forall|cc: int| 0 <= cc < c ==> row@[cc] == color,
            decreases cols - c,
        {
            row.push(color);
            c += 1;
        }
        proof {
            assert(row@ =~= Seq::new(cols as nat, |c: int| color));
        }
        data.push(row);
        r += 1;
    }
    proof {
        assert(gview(data@) =~~= solid_grid(rows as int, cols as int, color));
    }
    SpriteData { x: 0, y: 0, data }
}

} // verus!

verus! {

/// One parse error: `found` is a character of the picture that is neither
/// the on symbol nor the off symbol (nor a line break).
#[derive(Clone, Copy, PartialEq, Eq, Structural, Debug)]
pub struct SpriteError {
    pub found: char,
    pub expected_on: char,
    pub expected_off: char,
}

/// The rows completed and the row still open after reading `s`: a line break
/// closes the open row, the on symbol appends `color`, the off symbol appends
/// the invisible pixel, and any other character fails the whole parse.
pub open spec fn parse_partial(s: Seq<char>, on: char, off: char, color: Color) -> Option<
    (Seq<Seq<Color>>, Seq<Color>),
>
    decreases s.len(),
{
    if s.len() == 0 {
        Some((Seq::empty(), Seq::empty()))
    } else {
        match parse_partial(s.drop_last(), on, off, color) {
            None => None,
            Some((rows, cur)) => {
                let ch = s.last();
                if ch == '\n' {
                    Some((rows.push(cur), Seq::empty()))
                } else if ch == on {
                    Some((rows, cur.push(color)))
                } else if ch == off {
                    Some((rows, cur.push(Color::spec_invisible())))
                } else {
                    None
                }
            },
        }
    }
}

/// The pixel grid described by a text picture, if every character is valid.
/// A final row without a trailing line break still counts.
pub open spec fn spec_parse_sprite(s: Seq<char>, on: char, off: char, color: Color) -> Option<
    Seq<Seq<Color>>,
> {
    match parse_partial(s, on, off, color) {
        None => None,
        Some((rows, cur)) => if cur.len() == 0 {
            Some(rows)
        } else {
            Some(rows.push(cur))
        },
    }
}

/// Once a prefix fails to parse, every longer prefix fails too.
proof fn lemma_parse_none_persists(s: Seq<char>, j: int, on: char, off: char, color: Color)
    requires
        0 <= j <= s.len(),
        parse_partial(s.take(j), on, off, color) is None,
    ensures
        parse_partial(s, on, off, color) is None,
    decreases s.len() - j,
{
    if j < s.len() {
        assert(s.take(j + 1).drop_last() =~= s.take(j));
        lemma_parse_none_persists(s, j + 1, on, off, color);
    } else {
        assert(s.take(j) =~= s);
    }
}

/// Turn a text picture into a sprite: `on_symbol` cells get `on_color`, and
/// `off_symbol` cells get the invisible pixel.  Any other character (apart
/// from the line breaks that separate rows) is a parse error that names it.
pub fn load_sprite(
    data: &str,
    on_color: Color,
    on_symbol: char,
    off_symbol: char,
    _scale: i32,
) -> (res: Result<SpriteData, SpriteError>)
    requires
        data@.len() > 0,
    ensures
        res matches Ok(sp) ==> {
            &&& spec_parse_sprite(data@, on_symbol, off_symbol, on_color) == Some(sp@.grid)
            &&& sp@.x == 0
            &&& sp@.y == 0
        },
        res is Ok <==> spec_parse_sprite(data@, on_symbol, off_symbol, on_color) is Some,
        res matches Err(e) ==> {
            &&& e.expected_on == on_symbol
            &&& e.expected_off == off_symbol
            &&& e.found != '\n' && e.found != on_symbol && e.found != off_symbol
            &&& exists|i: int| 0 <= i < data@.len() && data@[i] == e.found
        },
{
    let n = data.unicode_len();
    let mut rows: Vec<Vec<Color>> = Vec::new();
    let mut cur: Vec<Color> = Vec::new();
    let mut i: usize = 0;
    while i < n
        invariant
            n == data@.len(),
            i <= n,
            parse_partial(data@.take(i as int), on_symbol, off_symbol, on_color) == Some(
                (gview(rows@), cur@),
            ),
        decreases n - i,
    {
        let ch = data.get_char(i);
        proof {
            assert(data@.take(i + 1).drop_last() =~= data@.take(i as int));
            assert(data@.take(i + 1).last() == data@[i as int]);
        }
        if ch == '\n' {
            rows.push(cur);
            cur = Vec::new();
            proof {
                assert(gview(rows@) =~~= parse_partial(
                    data@.take(i + 1),
                    on_symbol,
                    off_symbol,
                    on_color,
                )->Some_0.0);
            }
        } else if ch == on_symbol {
            cur.push(on_color);
        } else if ch == off_symbol {
            cur.push(Color::invisible());
        } else {
            proof {
                lemma_parse_none_persists(data@, i + 1, on_symbol, off_symbol, on_color);
            }
            return Err(
                SpriteError { found: ch, expected_on: on_symbol, expected_off: off_symbol },
            );
        }
        i += 1;
    }
    proof {
        assert(data@.take(n as int) =~= data@);
    }
    if cur.len() > 0 {
        rows.push(cur);
        proof {
            assert(gview(rows@) =~~= spec_parse_sprite(
                data@,
                on_symbol,
                off_symbol,
                on_color,
            )->Some_0);
        }
        Ok(SpriteData { x: 0, y: 0, data: rows })
    } else {
        Ok(SpriteData { x: 0, y: 0, data: rows })
    }
}

/// `load_sprite` with the conventional `X` (on) and `.` (off) symbols.
pub fn load_sprite_default(data: &str, on_color: Color, scale: i32) -> (res: Result<
    SpriteData,
    SpriteError,
>)
    requires
        data@.len() > 0,
    ensures
        res matches Ok(sp) ==> {
            &&& spec_parse_sprite(data@, 'X', '.', on_color) == Some(sp@.grid)
            &&& sp@.x == 0
            &&& sp@.y == 0
        },
        res is Ok <==> spec_parse_sprite(data@, 'X', '.', on_color) is Some,
        res matches Err(e) ==> {
            &&& e.expected_on == 'X'
            &&& e.expected_off == '.'
            &&& e.found != '\n' && e.found != 'X' && e.found != '.'
            &&& exists|i: int| 0 <= i < data@.len() && data@[i] == e.found
        },
{
    load_sprite(data, on_color, 'X', '.', scale)
}

} // verus!
