use vstd::prelude::*;

verus! {

/// Content of one board cell, fixed once the map is generated.
#[derive(Debug, Copy, Clone, Eq, PartialEq, Structural)]
pub enum Tile {
    Bomb,
    BombNeighbor(u8),
    Empty,
}

/// The character of a decimal digit `d < 10`.
pub open spec fn digit_char(d: nat) -> char {
    if d == 0 {
        '0'
    } else if d == 1 {
        '1'
    } else if d == 2 {
        '2'
    } else if d == 3 {
        '3'
    } else if d == 4 {
        '4'
    } else if d == 5 {
        '5'
    } else if d == 6 {
        '6'
    } else if d == 7 {
        '7'
    } else if d == 8 {
        '8'
    } else {
        '9'
    }
}

/// Decimal notation of `n`, without leading zeros.
pub open spec fn decimal(n: nat) -> Seq<char>
    decreases n,
{
    if n < 10 {
        seq![digit_char(n)]
    } else {
        decimal(n / 10) + seq![digit_char(n % 10)]
    }
}

fn digit_str(d: u16) -> (s: &'static str)
    requires
        d < 10,
    ensures
        s@ == seq![digit_char(d as nat)],
{
    match d {
        0 => {
            proof {
                reveal_strlit("0");
            }
            "0"
        },
        1 => {
            proof {
                reveal_strlit("1");
            }
            "1"
        },
        2 => {
            proof {
                reveal_strlit("2");
            }
            "2"
        },
        3 => {
            proof {
                reveal_strlit("3");
            }
            "3"
        },
        4 => {
            proof {
                reveal_strlit("4");
            }
            "4"
        },
        5 => {
            proof {
                reveal_strlit("5");
            }
            "5"
        },
        6 => {
            proof {
                reveal_strlit("6");
            }
            "6"
        },
        7 => {
            proof {
                reveal_strlit("7");
            }
            "7"
        },
        8 => {
            proof {
                reveal_strlit("8");
            }
            "8"
        },
        _ => {
            proof {
                reveal_strlit("9");
            }
            "9"
        },
    }
}

/// Appends the decimal notation of `n` to `out`.
pub fn append_decimal(out: &mut String, n: u16)
    ensures
        final(out)@ == old(out)@ + decimal(n as nat),
    decreases n,
{
    if n >= 10 {
        append_decimal(out, n / 10);
    }
    out.append(digit_str(n % 10));
    proof {
        if n >= 10 {
            assert(final(out)@ =~= old(out)@ + decimal(n as nat));
        }
    }
}

impl Tile {
    /// Text shown for the tile in a console dump of the map.
    pub open spec fn glyph(self) -> Seq<char> {
        match self {
            Tile::Bomb => seq!['*'],
            Tile::BombNeighbor(v) => decimal(v as nat),
            Tile::Empty => seq![' '],
        }
    }

    pub fn is_bomb(&self) -> (r: bool)
        ensures
            r == (*self is Bomb),
    {
        match self {
            Tile::Bomb => true,
            _ => false,
        }
    }

    /// The tile as text: `*` for a bomb, the count for a bomb neighbor, a space when empty.
    pub fn console_output(&self) -> (s: String)
        ensures
            s@ == self.glyph(),
    {
        let mut s = String::new();
        match self {
            Tile::Bomb => {
                proof {
                    reveal_strlit("*");
                }
                s.append("*");
            },
            Tile::BombNeighbor(v) => {
                append_decimal(&mut s, *v as u16);
            },
            Tile::Empty => {
                proof {
                    reveal_strlit(" ");
                }
                s.append(" ");
            },
        }
        s
    }
}

} // verus!
