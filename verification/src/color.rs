//! The colors that entities are drawn in.
use vstd::prelude::*;

verus! {

/// A named color, or one given by its red, green, blue and alpha components
/// as the bit patterns of `f32` values between 0 and 1.
#[derive(PartialEq, Eq, Structural, Clone, Copy, Debug)]
pub enum Color {
    Red,
    LightRed,
    Green,
    LightGreen,
    Blue,
    LightBlue,
    White,
    LightGray,
    Black,
    LightBlack,
    Yellow,
    LightYellow,
    Cyan,
    LightCyan,
    Magenta,
    LightMagenta,
    Custom(u32, u32, u32, u32),
}

/// The bit patterns of the `f32` component values the named colors use.
pub const C0: u32 = 0x0000_0000;

pub const C02: u32 = 0x3e4c_cccd;

pub const C05: u32 = 0x3f00_0000;

pub const C06: u32 = 0x3f19_999a;

pub const C085: u32 = 0x3f59_999a;

pub const C1: u32 = 0x3f80_0000;

/// The red, green, blue and alpha components of a color, as bit patterns of
/// `f32` values: 0, 0.2, 0.5, 0.6, 0.85 or 1 for the named colors, and the
/// given components for a custom one.
pub open spec fn components(c: Color) -> [u32; 4] {
    match c {
        Color::Red => [C1, C0, C0, C1],
        Color::LightRed => [C1, C05, C05, C1],
        Color::Green => [C0, C1, C0, C1],
        Color::LightGreen => [C05, C1, C05, C1],
        Color::Blue => [C0, C0, C1, C1],
        Color::LightBlue => [C05, C05, C1, C1],
        Color::White => [C1, C1, C1, C1],
        Color::LightGray => [C085, C085, C085, C1],
        Color::Black => [C0, C0, C0, C1],
        Color::LightBlack => [C02, C02, C02, C1],
        Color::Yellow => [C1, C1, C0, C1],
        Color::LightYellow => [C1, C1, C06, C1],
        Color::Cyan => [C0, C1, C1, C1],
        Color::LightCyan => [C06, C1, C1, C1],
        Color::Magenta => [C1, C0, C1, C1],
        Color::LightMagenta => [C1, C06, C1, C1],
        Color::Custom(r, g, b, a) => [r, g, b, a],
    }
}

impl Color {
    /// The red, green, blue and alpha components, as `f32` bit patterns.
    pub fn to_rgba_bits(&self) -> (r: [u32; 4])
        ensures
            r == components(*self),
    {
        match self {
            Color::Red => [C1, C0, C0, C1],
            Color::LightRed => [C1, C05, C05, C1],
            Color::Green => [C0, C1, C0, C1],
            Color::LightGreen => [C05, C1, C05, C1],
            Color::Blue => [C0, C0, C1, C1],
            Color::LightBlue => [C05, C05, C1, C1],
            Color::White => [C1, C1, C1, C1],
            Color::LightGray => [C085, C085, C085, C1],
            Color::Black => [C0, C0, C0, C1],
            Color::LightBlack => [C02, C02, C02, C1],
            Color::Yellow => [C1, C1, C0, C1],
            Color::LightYellow => [C1, C1, C06, C1],
            Color::Cyan => [C0, C1, C1, C1],
            Color::LightCyan => [C06, C1, C1, C1],
            Color::Magenta => [C1, C0, C1, C1],
            Color::LightMagenta => [C1, C06, C1, C1],
            Color::Custom(r, g, b, a) => [*r, *g, *b, *a],
        }
    }
}

/// How the named colors are made. Every named color is opaque. A primary
/// (red, green, blue) is full in its own channel and empty in the other two.
/// A secondary (yellow, cyan, magenta) is full exactly where one of its two
/// primaries is. The light variant of a primary keeps its full channel and
/// raises the others to one half; that of a secondary raises its empty
/// channel to 0.6. White, black and the two grays have three equal channels,
/// at 1, 0, 0.85 and 0.2. A custom color is the components it was given.
pub proof fn law_color_components(r: u32, g: u32, b: u32, a: u32)
    ensures
        forall|c: Color| !(c is Custom) ==> (#[trigger] components(c))@[3] == C1,
        forall|i: int| 0 <= i < 3 ==> (#[trigger] components(Color::Red)@[i]) == if i == 0 {
            C1
        } else {
            C0
        },
        forall|i: int| 0 <= i < 3 ==> (#[trigger] components(Color::Green)@[i]) == if i == 1 {
            C1
        } else {
            C0
        },
        forall|i: int| 0 <= i < 3 ==> (#[trigger] components(Color::Blue)@[i]) == if i == 2 {
            C1
        } else {
            C0
        },
        forall|i: int|
            0 <= i < 3 ==> (#[trigger] components(Color::Yellow)@[i]) == if components(Color::Red)@[i]
                == C1 || components(Color::Green)@[i] == C1 {
                C1
            } else {
                C0
            },
        forall|i: int|
            0 <= i < 3 ==> (#[trigger] components(Color::Cyan)@[i]) == if components(Color::Green)@[i]
                == C1 || components(Color::Blue)@[i] == C1 {
                C1
            } else {
                C0
            },
        forall|i: int|
            0 <= i < 3 ==> (#[trigger] components(Color::Magenta)@[i]) == if components(Color::Red)@[i]
                == C1 || components(Color::Blue)@[i] == C1 {
                C1
            } else {
                C0
            },
        forall|i: int|
            0 <= i < 3 ==> (#[trigger] components(Color::LightRed)@[i]) == if components(Color::Red)@[i]
                == C1 {
                C1
            } else {
                C05
            },
        forall|i: int|
            0 <= i < 3 ==> (#[trigger] components(Color::LightGreen)@[i]) == if components(
                Color::Green,
            )@[i] == C1 {
                C1
            } else {
                C05
            },
        forall|i: int|
            0 <= i < 3 ==> (#[trigger] components(Color::LightBlue)@[i]) == if components(Color::Blue)@[i]
                == C1 {
                C1
            } else {
                C05
            },
        forall|i: int|
            0 <= i < 3 ==> (#[trigger] components(Color::LightYellow)@[i]) == if components(
                Color::Yellow,
            )@[i] == C1 {
                C1
            } else {
                C06
            },
        forall|i: int|
            0 <= i < 3 ==> (#[trigger] components(Color::LightCyan)@[i]) == if components(Color::Cyan)@[i]
                == C1 {
                C1
            } else {
                C06
            },
        forall|i: int|
            0 <= i < 3 ==> (#[trigger] components(Color::LightMagenta)@[i]) == if components(
                Color::Magenta,
            )@[i] == C1 {
                C1
            } else {
                C06
            },
        forall|i: int|
            0 <= i < 3 ==> {
                &&& (#[trigger] components(Color::White)@[i]) == C1
                &&& components(Color::Black)@[i] == C0
                &&& components(Color::LightGray)@[i] == C085
                &&& components(Color::LightBlack)@[i] == C02
            },
        components(Color::Custom(r, g, b, a)) == [r, g, b, a],
{
    assert forall|i: int| 0 <= i < 3 implies (#[trigger] components(Color::Red)@[i]) == if i == 0 {
        C1
    } else {
        C0
    } by {
        assert(i == 0 || i == 1 || i == 2);
    }
    assert forall|i: int| 0 <= i < 3 implies (#[trigger] components(Color::Green)@[i]) == if i == 1 {
        C1
    } else {
        C0
    } by {
        assert(i == 0 || i == 1 || i == 2);
    }
    assert forall|i: int| 0 <= i < 3 implies (#[trigger] components(Color::Blue)@[i]) == if i == 2 {
        C1
    } else {
        C0
    } by {
        assert(i == 0 || i == 1 || i == 2);
    }
}

} // verus!
