//! Plain geometric and input value types: RGBA colors, axis-aligned
//! rectangles with broad-phase intersection, movement directions, and the
//! per-frame input sample.

use vstd::prelude::*;

verus! {

/// An RGBA color; a pixel of a destructible bitmap is "on" exactly when its
/// alpha channel is non-zero.
#[derive(Clone, Copy, PartialEq, Eq, Structural, Debug)]
pub struct Color {
    pub r: u8,
    pub g: u8,
    pub b: u8,
    pub a: u8,
}

impl Color {
    /// An "on" pixel: alpha is non-zero.
    pub open spec fn spec_is_visible(&self) -> bool {
        self.a != 0
    }

    #[verifier::when_used_as_spec(spec_is_visible)]
    pub fn is_visible(&self) -> (b: bool)
        ensures
            b == self.spec_is_visible(),
    {
        self.a != 0
    }

    pub open spec fn spec_rgb(r: u8, g: u8, b: u8) -> Color {
        Color { r, g, b, a: 255 }
    }

    /// A fully opaque color from its three channels.
    #[verifier::when_used_as_spec(spec_rgb)]
    pub fn rgb(r: u8, g: u8, b: u8) -> (c: Color)
        ensures
            c == Color::spec_rgb(r, g, b),
    {
        Color { r, g, b, a: 255 }
    }

    pub open spec fn spec_invisible() -> Color {
        Color { r: 0, g: 0, b: 0, a: 0 }
    }

    /// The "off" pixel value: fully transparent black.
    #[verifier::when_used_as_spec(spec_invisible)]
    pub fn invisible() -> (c: Color)
        ensures
            c == Color::spec_invisible(),
    {
        Color { r: 0, g: 0, b: 0, a: 0 }
    }

    pub open spec fn spec_black() -> Color {
        Color { r: 0, g: 0, b: 0, a: 255 }
    }

    #[verifier::when_used_as_spec(spec_black)]
    pub fn black() -> (c: Color)
        ensures
            c == Color::spec_black(),
    {
        Color { r: 0, g: 0, b: 0, a: 255 }
    }
}

/// An axis-aligned rectangle: position of the top-left corner plus size.
#[derive(Clone, Copy, PartialEq, Eq, Structural, Debug)]
pub struct Rect {
    pub x: i32,
    pub y: i32,
    pub w: i32,
    pub h: i32,
}

impl Rect {
    pub fn new(x: i32, y: i32, w: i32, h: i32) -> (r: Rect)
        ensures
            r == (Rect { x, y, w, h }),
    {
        Rect { x, y, w, h }
    }

    /// The point (px, py) lies inside the rectangle.
    pub open spec fn spec_contains_point(self, px: int, py: int) -> bool {
        &&& self.x <= px < self.x + self.w
        &&& self.y <= py < self.y + self.h
    }

    /// The two rectangles overlap in at least one point.
    pub open spec fn spec_intersects(self, other: Rect) -> bool {
        &&& self.x < other.x + other.w
        &&& other.x < self.x + self.w
        &&& self.y < other.y + other.h
        &&& other.y < self.y + self.h
    }

    /// Broad-phase overlap test; arithmetic is widened so that any pair of
    /// rectangles can be compared.
    pub fn intersects(&self, other: &Rect) -> (b: bool)
        ensures
            b == self.spec_intersects(*other),
    {
        let sx = self.x as i64;
        let sy = self.y as i64;
        let sw = self.w as i64;
        let sh = self.h as i64;
        let ox = other.x as i64;
        let oy = other.y as i64;
        let ow = other.w as i64;
        let oh = other.h as i64;
        sx < ox + ow && ox < sx + sw && sy < oy + oh && oy < sy + sh
    }

    /// Whether (px, py) lies inside the rectangle, widened against overflow.
    pub fn contains_point(&self, px: i32, py: i32) -> (b: bool)
        ensures
            b == self.spec_contains_point(px as int, py as int),
    {
        let sx = self.x as i64;
        let sy = self.y as i64;
        let sw = self.w as i64;
        let sh = self.h as i64;
        sx <= px as i64 && (px as i64) < sx + sw && sy <= py as i64 && (py as i64) < sy + sh
    }

    pub open spec fn spec_center_x(self) -> int {
        self.x + self.w / 2
    }

    pub open spec fn spec_center_y(self) -> int {
        self.y + self.h / 2
    }

    /// Horizontal center, rounded down.
    pub fn center_x(&self) -> (c: i32)
        requires
            self.w >= 0,
            self.x + self.w / 2 <= i32::MAX,
        ensures
            c as int == self.spec_center_x(),
    {
        self.x + self.w / 2
    }

    /// Vertical center, rounded down.
    pub fn center_y(&self) -> (c: i32)
        requires
            self.h >= 0,
            self.y + self.h / 2 <= i32::MAX,
        ensures
            c as int == self.spec_center_y(),
    {
        self.y + self.h / 2
    }
}

/// The direction a projectile advances in, one pixel per sub-step.
#[derive(Clone, Copy, PartialEq, Eq, Structural, Debug)]
pub enum Direction {
    Up,
    Down,
    Left,
    Right,
}

/// One input sample: the button state consumed by a single frame step.
#[derive(Clone, Copy, PartialEq, Eq, Structural, Debug)]
pub struct Input {
    pub left: bool,
    pub right: bool,
    pub up: bool,
    pub down: bool,
    pub button1: bool,
    pub button2: bool,
}

impl Input {
    /// The all-released input sample.
    pub fn none() -> (i: Input)
        ensures
            i == (Input {
                left: false,
                right: false,
                up: false,
                down: false,
                button1: false,
                button2: false,
            }),
    {
        Input { left: false, right: false, up: false, down: false, button1: false, button2: false }
    }
}

} // verus!
