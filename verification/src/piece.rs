//! The primitive value types of the game: the two players, one square's
//! occupant, and the actions a piece can take.

use vstd::prelude::*;

verus! {

/// The two players. Black starts on the rows nearest `y = 0`, Red on the rows
/// nearest `y = 7`.
#[derive(Clone, Copy, Debug, PartialEq, Eq, Structural)]
pub enum Color {
    Black,
    Red,
}

/// One square's occupant: empty, or a piece of a color whose second field is
/// the king flag.
#[derive(Clone, Copy, Debug, PartialEq, Eq, Structural)]
pub enum Piece {
    Filled(Color, bool),
    Empty,
}

/// An action of the side to move. `Move(x, y, nx, ny)` slides the piece at
/// `(x, y)` to the adjacent empty diagonal square `(nx, ny)`.
/// `Capture(x, y, nx, ny, cx, cy)` jumps the piece at `(x, y)` over the
/// opposing piece at `(cx, cy)` into the empty square `(nx, ny)`.
/// Actions are pure value data: they do not reference board state.
#[derive(Clone, Copy, Debug, PartialEq, Eq, Structural)]
pub enum Action {
    Move(usize, usize, usize, usize),
    Capture(usize, usize, usize, usize, usize, usize),
}

impl Color {
    /// The other player.
    pub open spec fn spec_opposite(self) -> Color {
        match self {
            Color::Black => Color::Red,
            Color::Red => Color::Black,
        }
    }

    pub fn opposite(&self) -> (r: Color)
        ensures
            r == self.spec_opposite(),
            r.spec_opposite() == *self,
    {
        match self {
            Color::Black => Color::Red,
            Color::Red => Color::Black,
        }
    }
}

/// `opposite` is an involution: applying it twice gives the color back.
pub proof fn lemma_opposite_involutive(c: Color)
    ensures
        c.spec_opposite().spec_opposite() == c,
        c.spec_opposite() != c,
{
}

/// The four diagonal directions, in the order they are scanned:
/// `(1, 1), (-1, 1), (1, -1), (-1, -1)`. `dir_dx(d)` and `dir_dy(d)` are the
/// components of direction `d` in `[0, 4)`.
pub open spec fn dir_dx(d: int) -> int {
    if d == 0 || d == 2 {
        1
    } else {
        -1
    }
}

pub open spec fn dir_dy(d: int) -> int {
    if d < 2 {
        1
    } else {
        -1
    }
}

impl Piece {
    /// Which directions the piece may take: a king all four, a man only the
    /// two pointing toward the opponent's back rank (increasing `y` for
    /// Black, decreasing for Red), an empty square none.
    pub open spec fn spec_dir_allowed(self, d: int) -> bool {
        match self {
            Piece::Filled(c, king) => 0 <= d < 4 && (king || (c == Color::Black && d < 2) || (
            c == Color::Red && d >= 2)),
            Piece::Empty => false,
        }
    }

    /// The row on which the piece's color is promoted to king: 7 for Black,
    /// 0 for Red, and the never-reachable sentinel 4 for an empty square.
    pub open spec fn spec_king_y_con(self) -> int {
        match self {
            Piece::Filled(c, _) => spec_king_row(c),
            Piece::Empty => 4,
        }
    }

    pub fn king_y_con(&self) -> (r: usize)
        ensures
            r == self.spec_king_y_con(),
    {
        match self {
            Piece::Filled(color, _) => match color {
                Color::Black => 7,
                Color::Red => 0,
            },
            Piece::Empty => 4,
        }
    }

    /// One character per piece, as a board rendering shows it:
    /// `b`/`B` for a Black man/king, `r`/`R` for a Red man/king,
    /// `_` for an empty square.
    pub fn symbol(&self) -> (r: char)
        ensures
            r == match *self {
                Piece::Filled(Color::Black, false) => 'b',
                Piece::Filled(Color::Black, true) => 'B',
                Piece::Filled(Color::Red, false) => 'r',
                Piece::Filled(Color::Red, true) => 'R',
                Piece::Empty => '_',
            },
    {
        match self {
            Piece::Filled(Color::Black, false) => 'b',
            Piece::Filled(Color::Black, true) => 'B',
            Piece::Filled(Color::Red, false) => 'r',
            Piece::Filled(Color::Red, true) => 'R',
            Piece::Empty => '_',
        }
    }
}

/// The back rank of a color's opponent, where its men become kings.
pub open spec fn spec_king_row(c: Color) -> int {
    if c == Color::Black {
        7
    } else {
        0
    }
}

/// Executable twin of `Piece::spec_dir_allowed`.
pub fn dir_allowed(p: Piece, d: usize) -> (r: bool)
    ensures
        r == p.spec_dir_allowed(d as int),
{
    match p {
        Piece::Filled(c, king) => d < 4 && (king || (c == Color::Black && d < 2) || (c
            == Color::Red && d >= 2)),
        Piece::Empty => false,
    }
}

} // verus!
