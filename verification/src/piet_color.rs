//! The twenty colours a Piet program is drawn with, their one-character
//! symbols in text form, their RGB values, and their places in the
//! hue/lightness table that encodes Piet commands.

use vstd::prelude::*;

verus! {

/// A colour of a Piet image.
#[derive(Copy, Clone, Eq, Hash, PartialEq, Debug, Structural)]
pub enum ValidColor {
    White,
    Black,
    VeryPaleRed,
    VeryPaleYellow,
    VeryPaleGreen,
    VeryPaleCyan,
    VeryPaleBlue,
    VeryPaleMagenta,
    Red,
    Yellow,
    Green,
    Cyan,
    Blue,
    Magenta,
    StrongRed,
    StrongYellow,
    StrongGreen,
    StrongCyan,
    StrongBlue,
    StrongMagenta,
}

/// The one-character symbol that stands for a colour in text form.
pub open spec fn symbol_char(c: ValidColor) -> char {
    match c {
        ValidColor::White => '\u{26aa}',
        ValidColor::Black => '\u{26ab}',
        ValidColor::VeryPaleRed => '\u{2764}',
        ValidColor::VeryPaleYellow => '\u{1f9e1}',
        ValidColor::VeryPaleGreen => '\u{1f49b}',
        ValidColor::VeryPaleCyan => '\u{1f49a}',
        ValidColor::VeryPaleBlue => '\u{1f499}',
        ValidColor::VeryPaleMagenta => '\u{1f49c}',
        ValidColor::Red => '\u{1f534}',
        ValidColor::Yellow => '\u{1f7e0}',
        ValidColor::Green => '\u{1f7e1}',
        ValidColor::Cyan => '\u{1f7e2}',
        ValidColor::Blue => '\u{1f535}',
        ValidColor::Magenta => '\u{1f7e3}',
        ValidColor::StrongRed => '\u{1f7e5}',
        ValidColor::StrongYellow => '\u{1f7e7}',
        ValidColor::StrongGreen => '\u{1f7e8}',
        ValidColor::StrongCyan => '\u{1f7e9}',
        ValidColor::StrongBlue => '\u{1f7e6}',
        ValidColor::StrongMagenta => '\u{1f7ea}',
    }
}

/// The colour whose symbol is `ch`; any other character reads as white.
pub open spec fn color_of_char(ch: char) -> ValidColor {
    if ch == '\u{26ab}' {
        ValidColor::Black
    } else if ch == '\u{2764}' {
        ValidColor::VeryPaleRed
    } else if ch == '\u{1f9e1}' {
        ValidColor::VeryPaleYellow
    } else if ch == '\u{1f49b}' {
        ValidColor::VeryPaleGreen
    } else if ch == '\u{1f49a}' {
        ValidColor::VeryPaleCyan
    } else if ch == '\u{1f499}' {
        ValidColor::VeryPaleBlue
    } else if ch == '\u{1f49c}' {
        ValidColor::VeryPaleMagenta
    } else if ch == '\u{1f534}' {
        ValidColor::Red
    } else if ch == '\u{1f7e0}' {
        ValidColor::Yellow
    } else if ch == '\u{1f7e1}' {
        ValidColor::Green
    } else if ch == '\u{1f7e2}' {
        ValidColor::Cyan
    } else if ch == '\u{1f535}' {
        ValidColor::Blue
    } else if ch == '\u{1f7e3}' {
        ValidColor::Magenta
    } else if ch == '\u{1f7e5}' {
        ValidColor::StrongRed
    } else if ch == '\u{1f7e7}' {
        ValidColor::StrongYellow
    } else if ch == '\u{1f7e8}' {
        ValidColor::StrongGreen
    } else if ch == '\u{1f7e9}' {
        ValidColor::StrongCyan
    } else if ch == '\u{1f7e6}' {
        ValidColor::StrongBlue
    } else if ch == '\u{1f7ea}' {
        ValidColor::StrongMagenta
    } else {
        ValidColor::White
    }
}

/// The colour a text symbol stands for: a one-character string holding a
/// colour's symbol gives that colour, anything else gives white.
pub open spec fn color_of_text(s: Seq<char>) -> ValidColor {
    if s.len() == 1 {
        color_of_char(s[0])
    } else {
        ValidColor::White
    }
}

/// The RGB triple of a colour.
pub open spec fn rgb_of(c: ValidColor) -> (u8, u8, u8) {
    match c {
        ValidColor::White => (255, 255, 255),
        ValidColor::Black => (0, 0, 0),
        ValidColor::VeryPaleRed => (255, 192, 192),
        ValidColor::VeryPaleYellow => (255, 255, 192),
        ValidColor::VeryPaleGreen => (192, 255, 192),
        ValidColor::VeryPaleCyan => (192, 255, 255),
        ValidColor::VeryPaleBlue => (192, 192, 255),
        ValidColor::VeryPaleMagenta => (255, 192, 255),
        ValidColor::Red => (255, 0, 0),
        ValidColor::Yellow => (255, 255, 0),
        ValidColor::Green => (0, 255, 0),
        ValidColor::Cyan => (0, 255, 255),
        ValidColor::Blue => (0, 0, 255),
        ValidColor::Magenta => (255, 0, 255),
        ValidColor::StrongRed => (192, 0, 0),
        ValidColor::StrongYellow => (192, 192, 0),
        ValidColor::StrongGreen => (0, 192, 0),
        ValidColor::StrongCyan => (0, 192, 192),
        ValidColor::StrongBlue => (0, 0, 192),
        ValidColor::StrongMagenta => (192, 0, 192),
    }
}

/// Place of a chromatic colour in the command table: `(hue, lightness)`
/// with hue in 0..6 and lightness in 0..3 (pale, normal, strong);
/// `None` for white and black.
pub open spec fn table_place(c: ValidColor) -> Option<(usize, usize)> {
    match c {
        ValidColor::White => None,
        ValidColor::Black => None,
        ValidColor::VeryPaleRed => Some((0, 0)),
        ValidColor::VeryPaleYellow => Some((1, 0)),
        ValidColor::VeryPaleGreen => Some((2, 0)),
        ValidColor::VeryPaleCyan => Some((3, 0)),
        ValidColor::VeryPaleBlue => Some((4, 0)),
        ValidColor::VeryPaleMagenta => Some((5, 0)),
        ValidColor::Red => Some((0, 1)),
        ValidColor::Yellow => Some((1, 1)),
        ValidColor::Green => Some((2, 1)),
        ValidColor::Cyan => Some((3, 1)),
        ValidColor::Blue => Some((4, 1)),
        ValidColor::Magenta => Some((5, 1)),
        ValidColor::StrongRed => Some((0, 2)),
        ValidColor::StrongYellow => Some((1, 2)),
        ValidColor::StrongGreen => Some((2, 2)),
        ValidColor::StrongCyan => Some((3, 2)),
        ValidColor::StrongBlue => Some((4, 2)),
        ValidColor::StrongMagenta => Some((5, 2)),
    }
}

/// The chromatic colour at `(hue, lightness)` of the command table.
pub open spec fn table_color(hue: usize, lightness: usize) -> ValidColor {
    if lightness == 0 {
        if hue == 0 {
            ValidColor::VeryPaleRed
        } else if hue == 1 {
            ValidColor::VeryPaleYellow
        } else if hue == 2 {
            ValidColor::VeryPaleGreen
        } else if hue == 3 {
            ValidColor::VeryPaleCyan
        } else if hue == 4 {
            ValidColor::VeryPaleBlue
        } else {
            ValidColor::VeryPaleMagenta
        }
    } else if lightness == 1 {
        if hue == 0 {
            ValidColor::Red
        } else if hue == 1 {
            ValidColor::Yellow
        } else if hue == 2 {
            ValidColor::Green
        } else if hue == 3 {
            ValidColor::Cyan
        } else if hue == 4 {
            ValidColor::Blue
        } else {
            ValidColor::Magenta
        }
    } else {
        if hue == 0 {
            ValidColor::StrongRed
        } else if hue == 1 {
            ValidColor::StrongYellow
        } else if hue == 2 {
            ValidColor::StrongGreen
        } else if hue == 3 {
            ValidColor::StrongCyan
        } else if hue == 4 {
            ValidColor::StrongBlue
        } else {
            ValidColor::StrongMagenta
        }
    }
}

/// Every colour, in declaration order.
pub fn all_colors() -> (r: Vec<ValidColor>)
    ensures
        r@.len() == 20,
        forall|c: ValidColor| #[trigger] r@.contains(c),
        forall|i: int, j: int| 0 <= i < j < 20 ==> r@[i] != r@[j],
{
    let r = vec![
        ValidColor::White,
        ValidColor::Black,
        ValidColor::VeryPaleRed,
        ValidColor::VeryPaleYellow,
        ValidColor::VeryPaleGreen,
        ValidColor::VeryPaleCyan,
        ValidColor::VeryPaleBlue,
        ValidColor::VeryPaleMagenta,
        ValidColor::Red,
        ValidColor::Yellow,
        ValidColor::Green,
        ValidColor::Cyan,
        ValidColor::Blue,
        ValidColor::Magenta,
        ValidColor::StrongRed,
        ValidColor::StrongYellow,
        ValidColor::StrongGreen,
        ValidColor::StrongCyan,
        ValidColor::StrongBlue,
        ValidColor::StrongMagenta,
    ];
    assert forall|c: ValidColor| #[trigger] r@.contains(c) by {
        match c {
            ValidColor::White => assert(r@[0] == c),
            ValidColor::Black => assert(r@[1] == c),
            ValidColor::VeryPaleRed => assert(r@[2] == c),
            ValidColor::VeryPaleYellow => assert(r@[3] == c),
            ValidColor::VeryPaleGreen => assert(r@[4] == c),
            ValidColor::VeryPaleCyan => assert(r@[5] == c),
            ValidColor::VeryPaleBlue => assert(r@[6] == c),
            ValidColor::VeryPaleMagenta => assert(r@[7] == c),
            ValidColor::Red => assert(r@[8] == c),
            ValidColor::Yellow => assert(r@[9] == c),
            ValidColor::Green => assert(r@[10] == c),
            ValidColor::Cyan => assert(r@[11] == c),
            ValidColor::Blue => assert(r@[12] == c),
            ValidColor::Magenta => assert(r@[13] == c),
            ValidColor::StrongRed => assert(r@[14] == c),
            ValidColor::StrongYellow => assert(r@[15] == c),
            ValidColor::StrongGreen => assert(r@[16] == c),
            ValidColor::StrongCyan => assert(r@[17] == c),
            ValidColor::StrongBlue => assert(r@[18] == c),
            ValidColor::StrongMagenta => assert(r@[19] == c),
        }
    }
    r
}

impl ValidColor {
    /// The colour's symbol character.
    pub fn symbol(self) -> (r: char)
        ensures
            r == symbol_char(self),
    {
        match self {
            ValidColor::White => '\u{26aa}',
            ValidColor::Black => '\u{26ab}',
            ValidColor::VeryPaleRed => '\u{2764}',
            ValidColor::VeryPaleYellow => '\u{1f9e1}',
            ValidColor::VeryPaleGreen => '\u{1f49b}',
            ValidColor::VeryPaleCyan => '\u{1f49a}',
            ValidColor::VeryPaleBlue => '\u{1f499}',
            ValidColor::VeryPaleMagenta => '\u{1f49c}',
            ValidColor::Red => '\u{1f534}',
            ValidColor::Yellow => '\u{1f7e0}',
            ValidColor::Green => '\u{1f7e1}',
            ValidColor::Cyan => '\u{1f7e2}',
            ValidColor::Blue => '\u{1f535}',
            ValidColor::Magenta => '\u{1f7e3}',
            ValidColor::StrongRed => '\u{1f7e5}',
            ValidColor::StrongYellow => '\u{1f7e7}',
            ValidColor::StrongGreen => '\u{1f7e8}',
            ValidColor::StrongCyan => '\u{1f7e9}',
            ValidColor::StrongBlue => '\u{1f7e6}',
            ValidColor::StrongMagenta => '\u{1f7ea}',
        }
    }

    /// The colour's symbol as text.
    pub fn into_str(self) -> (r: &'static str)
        ensures
            r@ == seq![symbol_char(self)],
    {
        match self {
            ValidColor::White => {
                proof {
                    reveal_strlit("\u{26aa}");
                }
                "\u{26aa}"
            },
            ValidColor::Black => {
                proof {
                    reveal_strlit("\u{26ab}");
                }
                "\u{26ab}"
            },
            ValidColor::VeryPaleRed => {
                proof {
                    reveal_strlit("\u{2764}");
                }
                "\u{2764}"
            },
            ValidColor::VeryPaleYellow => {
                proof {
                    reveal_strlit("\u{1f9e1}");
                }
                "\u{1f9e1}"
            },
            ValidColor::VeryPaleGreen => {
                proof {
                    reveal_strlit("\u{1f49b}");
                }
                "\u{1f49b}"
            },
            ValidColor::VeryPaleCyan => {
                proof {
                    reveal_strlit("\u{1f49a}");
                }
                "\u{1f49a}"
            },
            ValidColor::VeryPaleBlue => {
                proof {
                    reveal_strlit("\u{1f499}");
                }
                "\u{1f499}"
            },
            ValidColor::VeryPaleMagenta => {
                proof {
                    reveal_strlit("\u{1f49c}");
                }
                "\u{1f49c}"
            },
            ValidColor::Red => {
                proof {
                    reveal_strlit("\u{1f534}");
                }
                "\u{1f534}"
            },
            ValidColor::Yellow => {
                proof {
                    reveal_strlit("\u{1f7e0}");
                }
                "\u{1f7e0}"
            },
            ValidColor::Green => {
                proof {
                    reveal_strlit("\u{1f7e1}");
                }
                "\u{1f7e1}"
            },
            ValidColor::Cyan => {
                proof {
                    reveal_strlit("\u{1f7e2}");
                }
                "\u{1f7e2}"
            },
            ValidColor::Blue => {
                proof {
                    reveal_strlit("\u{1f535}");
                }
                "\u{1f535}"
            },
            ValidColor::Magenta => {
                proof {
                    reveal_strlit("\u{1f7e3}");
                }
                "\u{1f7e3}"
            },
            ValidColor::StrongRed => {
                proof {
                    reveal_strlit("\u{1f7e5}");
                }
                "\u{1f7e5}"
            },
            ValidColor::StrongYellow => {
                proof {
                    reveal_strlit("\u{1f7e7}");
                }
                "\u{1f7e7}"
            },
            ValidColor::StrongGreen => {
                proof {
                    reveal_strlit("\u{1f7e8}");
                }
                "\u{1f7e8}"
            },
            ValidColor::StrongCyan => {
                proof {
                    reveal_strlit("\u{1f7e9}");
                }
                "\u{1f7e9}"
            },
            ValidColor::StrongBlue => {
                proof {
                    reveal_strlit("\u{1f7e6}");
                }
                "\u{1f7e6}"
            },
            ValidColor::StrongMagenta => {
                proof {
                    reveal_strlit("\u{1f7ea}");
                }
                "\u{1f7ea}"
            },
        }
    }

    /// The colour a symbol character stands for; other characters are white.
    pub fn from_char(ch: char) -> (r: ValidColor)
        ensures
            r == color_of_char(ch),
    {
        if ch == '\u{26ab}' {
            ValidColor::Black
        } else if ch == '\u{2764}' {
            ValidColor::VeryPaleRed
        } else if ch == '\u{1f9e1}' {
            ValidColor::VeryPaleYellow
        } else if ch == '\u{1f49b}' {
            ValidColor::VeryPaleGreen
        } else if ch == '\u{1f49a}' {
            ValidColor::VeryPaleCyan
        } else if ch == '\u{1f499}' {
            ValidColor::VeryPaleBlue
        } else if ch == '\u{1f49c}' {
            ValidColor::VeryPaleMagenta
        } else if ch == '\u{1f534}' {
            ValidColor::Red
        } else if ch == '\u{1f7e0}' {
            ValidColor::Yellow
        } else if ch == '\u{1f7e1}' {
            ValidColor::Green
        } else if ch == '\u{1f7e2}' {
            ValidColor::Cyan
        } else if ch == '\u{1f535}' {
            ValidColor::Blue
        } else if ch == '\u{1f7e3}' {
            ValidColor::Magenta
        } else if ch == '\u{1f7e5}' {
            ValidColor::StrongRed
        } else if ch == '\u{1f7e7}' {
            ValidColor::StrongYellow
        } else if ch == '\u{1f7e8}' {
            ValidColor::StrongGreen
        } else if ch == '\u{1f7e9}' {
            ValidColor::StrongCyan
        } else if ch == '\u{1f7e6}' {
            ValidColor::StrongBlue
        } else if ch == '\u{1f7ea}' {
            ValidColor::StrongMagenta
        } else {
            ValidColor::White
        }
    }

    /// The colour a text symbol stands for: white unless `s` is exactly one
    /// colour symbol.
    pub fn from_str(s: &str) -> (r: ValidColor)
        ensures
            r == color_of_text(s@),
    {
        if s.unicode_len() == 1 {
            ValidColor::from_char(s.get_char(0))
        } else {
            ValidColor::White
        }
    }

    /// The colour's RGB triple.
    pub fn to_rgb(self) -> (r: (u8, u8, u8))
        ensures
            r == rgb_of(self),
    {
        match self {
            ValidColor::White => (255, 255, 255),
            ValidColor::Black => (0, 0, 0),
            ValidColor::VeryPaleRed => (255, 192, 192),
            ValidColor::VeryPaleYellow => (255, 255, 192),
            ValidColor::VeryPaleGreen => (192, 255, 192),
            ValidColor::VeryPaleCyan => (192, 255, 255),
            ValidColor::VeryPaleBlue => (192, 192, 255),
            ValidColor::VeryPaleMagenta => (255, 192, 255),
            ValidColor::Red => (255, 0, 0),
            ValidColor::Yellow => (255, 255, 0),
            ValidColor::Green => (0, 255, 0),
            ValidColor::Cyan => (0, 255, 255),
            ValidColor::Blue => (0, 0, 255),
            ValidColor::Magenta => (255, 0, 255),
            ValidColor::StrongRed => (192, 0, 0),
            ValidColor::StrongYellow => (192, 192, 0),
            ValidColor::StrongGreen => (0, 192, 0),
            ValidColor::StrongCyan => (0, 192, 192),
            ValidColor::StrongBlue => (0, 0, 192),
            ValidColor::StrongMagenta => (192, 0, 192),
        }
    }

    /// The colour with exactly this RGB triple; any other triple is white.
    pub fn from_rgb(rgb: (u8, u8, u8)) -> (r: ValidColor)
        ensures
            (exists|c: ValidColor| rgb_of(c) == rgb) ==> rgb_of(r) == rgb,
            !(exists|c: ValidColor| rgb_of(c) == rgb) ==> r == ValidColor::White,
    {
        let (red, green, blue) = rgb;
        let r = if red == 255 && green == 192 && blue == 192 {
            ValidColor::VeryPaleRed
        } else if red == 255 && green == 255 && blue == 192 {
            ValidColor::VeryPaleYellow
        } else if red == 192 && green == 255 && blue == 192 {
            ValidColor::VeryPaleGreen
        } else if red == 192 && green == 255 && blue == 255 {
            ValidColor::VeryPaleCyan
        } else if red == 192 && green == 192 && blue == 255 {
            ValidColor::VeryPaleBlue
        } else if red == 255 && green == 192 && blue == 255 {
            ValidColor::VeryPaleMagenta
        } else if red == 255 && green == 0 && blue == 0 {
            ValidColor::Red
        } else if red == 255 && green == 255 && blue == 0 {
            ValidColor::Yellow
        } else if red == 0 && green == 255 && blue == 0 {
            ValidColor::Green
        } else if red == 0 && green == 255 && blue == 255 {
            ValidColor::Cyan
        } else if red == 0 && green == 0 && blue == 255 {
            ValidColor::Blue
        } else if red == 255 && green == 0 && blue == 255 {
            ValidColor::Magenta
        } else if red == 192 && green == 0 && blue == 0 {
            ValidColor::StrongRed
        } else if red == 192 && green == 192 && blue == 0 {
            ValidColor::StrongYellow
        } else if red == 0 && green == 192 && blue == 0 {
            ValidColor::StrongGreen
        } else if red == 0 && green == 192 && blue == 192 {
            ValidColor::StrongCyan
        } else if red == 0 && green == 0 && blue == 192 {
            ValidColor::StrongBlue
        } else if red == 192 && green == 0 && blue == 192 {
            ValidColor::StrongMagenta
        } else if red == 0 && green == 0 && blue == 0 {
            ValidColor::Black
        } else {
            ValidColor::White
        };
        proof {
            if !(exists|c: ValidColor| rgb_of(c) == rgb) {
                assert(rgb_of(r) == rgb ==> false);
            }
        }
        r
    }

    /// The colour's place in the command table, if it is chromatic.
    pub fn table_place(self) -> (r: Option<(usize, usize)>)
        ensures
            r == table_place(self),
    {
        match self {
            ValidColor::White => None,
            ValidColor::Black => None,
            ValidColor::VeryPaleRed => Some((0, 0)),
            ValidColor::VeryPaleYellow => Some((1, 0)),
            ValidColor::VeryPaleGreen => Some((2, 0)),
            ValidColor::VeryPaleCyan => Some((3, 0)),
            ValidColor::VeryPaleBlue => Some((4, 0)),
            ValidColor::VeryPaleMagenta => Some((5, 0)),
            ValidColor::Red => Some((0, 1)),
            ValidColor::Yellow => Some((1, 1)),
            ValidColor::Green => Some((2, 1)),
            ValidColor::Cyan => Some((3, 1)),
            ValidColor::Blue => Some((4, 1)),
            ValidColor::Magenta => Some((5, 1)),
            ValidColor::StrongRed => Some((0, 2)),
            ValidColor::StrongYellow => Some((1, 2)),
            ValidColor::StrongGreen => Some((2, 2)),
            ValidColor::StrongCyan => Some((3, 2)),
            ValidColor::StrongBlue => Some((4, 2)),
            ValidColor::StrongMagenta => Some((5, 2)),
        }
    }

    /// The chromatic colour at `(hue, lightness)` of the command table.
    pub fn from_table(hue: usize, lightness: usize) -> (r: ValidColor)
        requires
            hue < 6,
            lightness < 3,
        ensures
            r == table_color(hue, lightness),
    {
        if lightness == 0 {
            if hue == 0 {
                ValidColor::VeryPaleRed
            } else if hue == 1 {
                ValidColor::VeryPaleYellow
            } else if hue == 2 {
                ValidColor::VeryPaleGreen
            } else if hue == 3 {
                ValidColor::VeryPaleCyan
            } else if hue == 4 {
                ValidColor::VeryPaleBlue
            } else {
                ValidColor::VeryPaleMagenta
            }
        } else if lightness == 1 {
            if hue == 0 {
                ValidColor::Red
            } else if hue == 1 {
                ValidColor::Yellow
            } else if hue == 2 {
                ValidColor::Green
            } else if hue == 3 {
                ValidColor::Cyan
            } else if hue == 4 {
                ValidColor::Blue
            } else {
                ValidColor::Magenta
            }
        } else {
            if hue == 0 {
                ValidColor::StrongRed
            } else if hue == 1 {
                ValidColor::StrongYellow
            } else if hue == 2 {
                ValidColor::StrongGreen
            } else if hue == 3 {
                ValidColor::StrongCyan
            } else if hue == 4 {
                ValidColor::StrongBlue
            } else {
                ValidColor::StrongMagenta
            }
        }
    }
}

/// Reading a colour's symbol gives the colour back.
pub proof fn lemma_symbol_round_trip(c: ValidColor)
    ensures
        color_of_char(symbol_char(c)) == c,
        color_of_text(seq![symbol_char(c)]) == c,
{
}

/// Distinct colours have distinct symbols.
pub proof fn lemma_symbols_distinct(c: ValidColor, d: ValidColor)
    requires
        c != d,
    ensures
        symbol_char(c) != symbol_char(d),
{
    lemma_symbol_round_trip(c);
    lemma_symbol_round_trip(d);
}

/// Reading a colour's RGB triple gives the colour back: no other colour
/// has the same triple.
pub proof fn lemma_rgb_round_trip(c: ValidColor)
    ensures
        forall|d: ValidColor| rgb_of(d) == rgb_of(c) ==> d == c,
{
}

/// The table place of a chromatic colour leads back to it, and every table
/// cell holds a colour whose place is that cell.
pub proof fn lemma_table_round_trip(c: ValidColor, hue: usize, lightness: usize)
    ensures
        table_place(c) matches Some((h, l)) ==> h < 6 && l < 3 && table_color(h, l) == c,
        hue < 6 && lightness < 3 ==> table_place(table_color(hue, lightness)) == Some((hue, lightness)),
        table_place(c) is None <==> (c == ValidColor::White || c == ValidColor::Black),
{
}

} // verus!
