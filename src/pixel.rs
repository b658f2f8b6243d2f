use vstd::prelude::*;

verus! {

/// A colour of the sample records written to test files.
#[derive(Debug, Clone, Copy, PartialEq, Eq, Structural)]
pub enum Color {
    R,
    G,
    B,
}

impl Color {
    /// The code under which the colour is stored: 1, 2 and 3.
    pub fn code(&self) -> (r: u8)
        ensures
            *self == Color::R ==> r == 1,
            *self == Color::G ==> r == 2,
            *self == Color::B ==> r == 3,
    {
        match self {
            Color::R => 1,
            Color::G => 2,
            Color::B => 3,
        }
    }
}

/// A wide sample record: a position, a colour and fifty integer fields.
#[derive(Debug, Clone, Copy, PartialEq, Eq, Structural)]
pub struct Pixel {
    pub x: i64,
    pub y: i64,
    pub color: Color,
    pub field1: i32,
    pub field2: i32,
    pub field3: i32,
    pub field4: i32,
    pub field5: i32,
    pub field6: i32,
    pub field7: i32,
    pub field8: i32,
    pub field9: i32,
    pub field10: i32,
    pub field11: i32,
    pub field12: i32,
    pub field13: i32,
    pub field14: i32,
    pub field15: i32,
    pub field16: i32,
    pub field17: i32,
    pub field18: i32,
    pub field19: i32,
    pub field20: i32,
    pub field21: i32,
    pub field22: i32,
    pub field23: i32,
    pub field24: i32,
    pub field25: i32,
    pub field26: i32,
    pub field27: i32,
    pub field28: i32,
    pub field29: i32,
    pub field30: i32,
    pub field31: i32,
    pub field32: i32,
    pub field33: i32,
    pub field34: i32,
    pub field35: i32,
    pub field36: i32,
    pub field37: i32,
    pub field38: i32,
    pub field39: i32,
    pub field40: i32,
    pub field41: i32,
    pub field42: i32,
    pub field43: i32,
    pub field44: i32,
    pub field45: i32,
    pub field46: i32,
    pub field47: i32,
    pub field48: i32,
    pub field49: i32,
    pub field50: i32,
}

impl Pixel {
    /// A record at `(x, y)` of colour `color`, with every other field zero.
    pub fn new(x: i64, y: i64, color: Color) -> (r: Self)
        ensures
            r.x == x,
            r.y == y,
            r.color == color,
            r.field1 == 0,
            r.field2 == 0,
            r.field3 == 0,
            r.field4 == 0,
            r.field5 == 0,
            r.field6 == 0,
            r.field7 == 0,
            r.field8 == 0,
            r.field9 == 0,
            r.field10 == 0,
            r.field11 == 0,
            r.field12 == 0,
            r.field13 == 0,
            r.field14 == 0,
            r.field15 == 0,
            r.field16 == 0,
            r.field17 == 0,
            r.field18 == 0,
            r.field19 == 0,
            r.field20 == 0,
            r.field21 == 0,
            r.field22 == 0,
            r.field23 == 0,
            r.field24 == 0,
            r.field25 == 0,
            r.field26 == 0,
            r.field27 == 0,
            r.field28 == 0,
            r.field29 == 0,
            r.field30 == 0,
            r.field31 == 0,
            r.field32 == 0,
            r.field33 == 0,
            r.field34 == 0,
            r.field35 == 0,
            r.field36 == 0,
            r.field37 == 0,
            r.field38 == 0,
            r.field39 == 0,
            r.field40 == 0,
            r.field41 == 0,
            r.field42 == 0,
            r.field43 == 0,
            r.field44 == 0,
            r.field45 == 0,
            r.field46 == 0,
            r.field47 == 0,
            r.field48 == 0,
            r.field49 == 0,
            r.field50 == 0,
    {
        Self {
            x,
            y,
            color,
            field1: 0,
            field2: 0,
            field3: 0,
            field4: 0,
            field5: 0,
            field6: 0,
            field7: 0,
            field8: 0,
            field9: 0,
            field10: 0,
            field11: 0,
            field12: 0,
            field13: 0,
            field14: 0,
            field15: 0,
            field16: 0,
            field17: 0,
            field18: 0,
            field19: 0,
            field20: 0,
            field21: 0,
            field22: 0,
            field23: 0,
            field24: 0,
            field25: 0,
            field26: 0,
            field27: 0,
            field28: 0,
            field29: 0,
            field30: 0,
            field31: 0,
            field32: 0,
            field33: 0,
            field34: 0,
            field35: 0,
            field36: 0,
            field37: 0,
            field38: 0,
            field39: 0,
            field40: 0,
            field41: 0,
            field42: 0,
            field43: 0,
            field44: 0,
            field45: 0,
            field46: 0,
            field47: 0,
            field48: 0,
            field49: 0,
            field50: 0,
        }
    }
}

} // verus!
