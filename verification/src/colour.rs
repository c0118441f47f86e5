use vstd::prelude::*;

verus! {

/// Classification of a raw RGB pixel value: one of the 18 standard Piet
/// palette cells (6 hues at 3 lightness levels), pure black, pure white,
/// or anything else.
#[derive(Clone, Copy, Debug, PartialEq, Eq, Structural, Hash)]
pub enum Colour {
    Colour { hue: u8, lightness: u8 },
    Black,
    White,
    Other,
}

/// The palette cell, if any, that an exact RGB triple denotes.
pub open spec fn spec_classify(r: u8, g: u8, b: u8) -> Colour {
    if r == 255 && g == 192 && b == 192 {
        Colour::Colour { hue: 0, lightness: 0 }
    } else if r == 255 && g == 0 && b == 0 {
        Colour::Colour { hue: 0, lightness: 1 }
    } else if r == 192 && g == 0 && b == 0 {
        Colour::Colour { hue: 0, lightness: 2 }
    } else if r == 255 && g == 255 && b == 192 {
        Colour::Colour { hue: 1, lightness: 0 }
    } else if r == 255 && g == 255 && b == 0 {
        Colour::Colour { hue: 1, lightness: 1 }
    } else if r == 192 && g == 192 && b == 0 {
        Colour::Colour { hue: 1, lightness: 2 }
    } else if r == 192 && g == 255 && b == 192 {
        Colour::Colour { hue: 2, lightness: 0 }
    } else if r == 0 && g == 255 && b == 0 {
        Colour::Colour { hue: 2, lightness: 1 }
    } else if r == 0 && g == 192 && b == 0 {
        Colour::Colour { hue: 2, lightness: 2 }
    } else if r == 192 && g == 255 && b == 255 {
        Colour::Colour { hue: 3, lightness: 0 }
    } else if r == 0 && g == 255 && b == 255 {
        Colour::Colour { hue: 3, lightness: 1 }
    } else if r == 0 && g == 192 && b == 192 {
        Colour::Colour { hue: 3, lightness: 2 }
    } else if r == 192 && g == 192 && b == 255 {
        Colour::Colour { hue: 4, lightness: 0 }
    } else if r == 0 && g == 0 && b == 255 {
        Colour::Colour { hue: 4, lightness: 1 }
    } else if r == 0 && g == 0 && b == 192 {
        Colour::Colour { hue: 4, lightness: 2 }
    } else if r == 255 && g == 192 && b == 255 {
        Colour::Colour { hue: 5, lightness: 0 }
    } else if r == 255 && g == 0 && b == 255 {
        Colour::Colour { hue: 5, lightness: 1 }
    } else if r == 192 && g == 0 && b == 192 {
        Colour::Colour { hue: 5, lightness: 2 }
    } else if r == 0 && g == 0 && b == 0 {
        Colour::Black
    } else if r == 255 && g == 255 && b == 255 {
        Colour::White
    } else {
        Colour::Other
    }
}

impl Colour {
    /// A palette cell always has a hue below 6 and a lightness below 3.
    pub open spec fn wf(self) -> bool {
        match self {
            Colour::Colour { hue, lightness } => hue < 6 && lightness < 3,
            _ => true,
        }
    }

    pub open spec fn is_black(self) -> bool {
        self is Black
    }

    pub open spec fn is_white(self) -> bool {
        self is White
    }

    pub open spec fn is_other(self) -> bool {
        self is Other
    }

    /// Classifies a raw RGB triple. Pure and total: the 18 standard palette
    /// triples map to their cell, pure black and pure white to their own
    /// variants, and every other value to `Other`.
    pub fn from_rgb(r: u8, g: u8, b: u8) -> (c: Colour)
        ensures
            c == spec_classify(r, g, b),
            c.wf(),
    {
        match (r, g, b) {
            (255, 192, 192) => Colour::Colour { hue: 0, lightness: 0 },
            (255, 0, 0) => Colour::Colour { hue: 0, lightness: 1 },
            (192, 0, 0) => Colour::Colour { hue: 0, lightness: 2 },
            (255, 255, 192) => Colour::Colour { hue: 1, lightness: 0 },
            (255, 255, 0) => Colour::Colour { hue: 1, lightness: 1 },
            (192, 192, 0) => Colour::Colour { hue: 1, lightness: 2 },
            (192, 255, 192) => Colour::Colour { hue: 2, lightness: 0 },
            (0, 255, 0) => Colour::Colour { hue: 2, lightness: 1 },
            (0, 192, 0) => Colour::Colour { hue: 2, lightness: 2 },
            (192, 255, 255) => Colour::Colour { hue: 3, lightness: 0 },
            (0, 255, 255) => Colour::Colour { hue: 3, lightness: 1 },
            (0, 192, 192) => Colour::Colour { hue: 3, lightness: 2 },
            (192, 192, 255) => Colour::Colour { hue: 4, lightness: 0 },
            (0, 0, 255) => Colour::Colour { hue: 4, lightness: 1 },
            (0, 0, 192) => Colour::Colour { hue: 4, lightness: 2 },
            (255, 192, 255) => Colour::Colour { hue: 5, lightness: 0 },
            (255, 0, 255) => Colour::Colour { hue: 5, lightness: 1 },
            (192, 0, 192) => Colour::Colour { hue: 5, lightness: 2 },
            (0, 0, 0) => Colour::Black,
            (255, 255, 255) => Colour::White,
            _ => Colour::Other,
        }
    }
}

} // verus!
