//! The board: a flattened 8×8 grid of pieces plus whose turn it is and who
//! moved last, with legal-move generation under the forced-capture rule,
//! action execution with king promotion and capture-chain turn retention,
//! and uniformly random move application for playouts.

use vstd::prelude::*;
use crate::moves::MoveMemHandler;
use crate::piece::{dir_dx, dir_dy, dir_allowed, spec_king_row, Action, Color, Piece};
use crate::list::STATIC_SIZE;

verus! {

/// Mathematical model of a board: the 64 squares in row-major order
/// (square `(x, y)` at index `y * 8 + x`), the side to move, and the side
/// that moved last (`None` only before any action was ever executed).
#[verifier::ext_equal]
pub struct BoardView {
    pub grid: Seq<Piece>,
    pub turn: Color,
    pub last: Option<Color>,
}

pub struct Board {
    internal_state: [Piece; 64],
    current_turn: Color,
    last_turn: Option<Color>,
}

impl View for Board {
    type V = BoardView;

    closed spec fn view(&self) -> BoardView {
        BoardView { grid: self.internal_state@, turn: self.current_turn, last: self.last_turn }
    }
}

/// A board's model always has exactly 64 squares.
pub broadcast proof fn lemma_board_view_len(b: Board)
    ensures
        (#[trigger] b@).grid.len() == 64,
{
}

/// Whether `(x, y)` lies on the 8×8 board.
pub open spec fn on_board(x: int, y: int) -> bool {
    0 <= x < 8 && 0 <= y < 8
}

/// The row-major index of square `(x, y)`.
pub open spec fn sq(x: int, y: int) -> int {
    y * 8 + x
}

/// The action, if any, that the piece at `(x, y)` has in direction
/// `(dx, dy)`: a simple move if the adjacent diagonal square is on the board
/// and empty, a capture if it holds an opposing piece and the landing square
/// behind it is on the board and empty, nothing otherwise.
pub open spec fn spec_action_at(g: Seq<Piece>, x: int, y: int, dx: int, dy: int) -> Option<
    Action,
> {
    let cx = x + dx;
    let cy = y + dy;
    let mx = x + 2 * dx;
    let my = y + 2 * dy;
    match g[sq(x, y)] {
        Piece::Filled(c, _) => if !on_board(cx, cy) {
            None
        } else {
            match g[sq(cx, cy)] {
                Piece::Empty => Some(
                    Action::Move(x as usize, y as usize, cx as usize, cy as usize),
                ),
                Piece::Filled(c2, _) => if c2 != c && on_board(mx, my) && g[sq(mx, my)] is Empty {
                    Some(
                        Action::Capture(
                            x as usize,
                            y as usize,
                            mx as usize,
                            my as usize,
                            cx as usize,
                            cy as usize,
                        ),
                    )
                } else {
                    None
                },
            }
        },
        Piece::Empty => None,
    }
}

/// Whether the piece at `(x, y)` has at least one capture available in any of
/// its allowed directions.
pub open spec fn spec_piece_has_capture(g: Seq<Piece>, x: int, y: int) -> bool {
    on_board(x, y) && exists|d: int|
        0 <= d < 4 && g[sq(x, y)].spec_dir_allowed(d) && (spec_action_at(
            g,
            x,
            y,
            dir_dx(d),
            dir_dy(d),
        ) matches Some(a) && a is Capture)
}

/// The piece with its king flag raised if it stands on row `y` and that row
/// is its color's promotion row.
pub open spec fn spec_promote(p: Piece, y: int) -> Piece {
    match p {
        Piece::Filled(c, k) => Piece::Filled(c, k || y == spec_king_row(c)),
        Piece::Empty => Piece::Empty,
    }
}

/// What executing an action needs of the board so that the board stays a
/// legal-state space: all its coordinates on the board, and a piece on the
/// origin square.
pub open spec fn action_wf(g: Seq<Piece>, a: Action) -> bool {
    match a {
        Action::Move(x, y, nx, ny) => on_board(x as int, y as int) && on_board(
            nx as int,
            ny as int,
        ) && g[sq(x as int, y as int)] is Filled,
        Action::Capture(x, y, nx, ny, cx, cy) => on_board(x as int, y as int) && on_board(
            nx as int,
            ny as int,
        ) && on_board(cx as int, cy as int) && g[sq(x as int, y as int)] is Filled,
    }
}

/// The grid after a capture: origin and captured square cleared, the moved
/// piece (promoted if it reached its back rank) on the landing square.
pub open spec fn spec_capture_grid(
    g: Seq<Piece>,
    x: int,
    y: int,
    nx: int,
    ny: int,
    cx: int,
    cy: int,
) -> Seq<Piece> {
    let p = g[sq(x, y)];
    g.update(sq(x, y), Piece::Empty).update(sq(cx, cy), Piece::Empty).update(
        sq(nx, ny),
        spec_promote(p, ny),
    )
}

/// The board after executing `a`. A simple move always ends the turn. A
/// capture ends the turn only when the just-moved piece has no further
/// capture from its landing square; while a capture chain continues, the
/// mover keeps the turn and `last` is not yet recorded.
pub open spec fn spec_execute(b: BoardView, a: Action) -> BoardView {
    match a {
        Action::Move(x, y, nx, ny) => {
            let p = b.grid[sq(x as int, y as int)];
            let g1 = b.grid.update(sq(x as int, y as int), Piece::Empty).update(
                sq(nx as int, ny as int),
                spec_promote(p, ny as int),
            );
            BoardView { grid: g1, turn: b.turn.spec_opposite(), last: Some(b.turn) }
        },
        Action::Capture(x, y, nx, ny, cx, cy) => {
            let g1 = spec_capture_grid(
                b.grid,
                x as int,
                y as int,
                nx as int,
                ny as int,
                cx as int,
                cy as int,
            );
            if spec_piece_has_capture(g1, nx as int, ny as int) {
                BoardView { grid: g1, turn: b.turn, last: b.last }
            } else {
                BoardView { grid: g1, turn: b.turn.spec_opposite(), last: Some(b.turn) }
            }
        },
    }
}

impl Board {
    pub fn get_current_color(&self) -> (r: Color)
        ensures
            r == self@.turn,
    {
        return self.current_turn;
    }

    pub fn get_last_turn(&self) -> (r: Option<Color>)
        ensures
            r == self@.last,
    {
        return self.last_turn;
    }

    /// A fully empty board with `starting_color` to move.
    pub fn new(starting_color: Color) -> (r: Self)
        ensures
            r@.grid.len() == 64,
            forall|i: int| 0 <= i < 64 ==> r@.grid[i] == Piece::Empty,
            r@.turn == starting_color,
            r@.last is None,
    {
        Self { internal_state: [Piece::Empty; 64], current_turn: starting_color, last_turn: None }
    }

    /// An identical, independently owned copy of the board.
    pub fn clone(&self) -> (r: Self)
        ensures
            r@ == self@,
    {
        Self {
            internal_state: self.internal_state,
            current_turn: self.current_turn,
            last_turn: self.last_turn,
        }
    }

    /// The occupant of `(x, y)`, or `None` exactly when the coordinates are
    /// off the board.
    pub fn get_piece(&self, x: usize, y: usize) -> (r: Option<Piece>)
        ensures
            r == if on_board(x as int, y as int) {
                Some(self@.grid[sq(x as int, y as int)])
            } else {
                None::<Piece>
            },
    {
        if x >= 8 || y >= 8 {
            return None;
        }
        let ptr = y * 8 + x;
        return Some(self.internal_state[ptr]);
    }

    /// Puts `piece` on `(x, y)`, which must be on the board.
    pub fn set_piece(&mut self, x: usize, y: usize, piece: Piece)
        requires
            x < 8,
            y < 8,
        ensures
            final(self)@.grid == old(self)@.grid.update(sq(x as int, y as int), piece),
            final(self)@.turn == old(self)@.turn,
            final(self)@.last == old(self)@.last,
    {
        let ptr = y * 8 + x;
        self.internal_state[ptr] = piece;
    }

    /// Raises the king flag of the piece at `(x, y)`. Kinging an empty square
    /// would mean the board left its legal-state space, so the square must be
    /// occupied.
    fn king_piece(&mut self, x: usize, y: usize)
        requires
            x < 8,
            y < 8,
            old(self)@.grid[sq(x as int, y as int)] is Filled,
        ensures
            final(self)@.grid == old(self)@.grid.update(
                sq(x as int, y as int),
                match old(self)@.grid[sq(x as int, y as int)] {
                    Piece::Filled(c, _) => Piece::Filled(c, true),
                    Piece::Empty => Piece::Empty,
                },
            ),
            final(self)@.turn == old(self)@.turn,
            final(self)@.last == old(self)@.last,
    {
        let ptr = y * 8 + x;
        match self.internal_state[ptr] {
            Piece::Filled(color, _) => {
                self.internal_state[ptr] = Piece::Filled(color, true);
            },
            Piece::Empty => {
                // unreachable under the precondition
            },
        }
    }

    /// The action available in direction `(xd, yd)` to the piece at `(x, y)`,
    /// which the caller has already read from the board.
    fn get_action(&self, x: usize, y: usize, xd: i32, yd: i32, piece: Piece) -> (r: Option<
        Action,
    >)
        requires
            on_board(x as int, y as int),
            piece == self@.grid[sq(x as int, y as int)],
            xd == 1 || xd == -1,
            yd == 1 || yd == -1,
        ensures
            r == spec_action_at(self@.grid, x as int, y as int, xd as int, yd as int),
    {
        match piece {
            Piece::Filled(self_color, _) => {
                let cx_i = x as i32 + xd;
                let cy_i = y as i32 + yd;
                if cx_i < 0 || cx_i >= 8 || cy_i < 0 || cy_i >= 8 {
                    return None;
                }
                let cx = cx_i as usize;
                let cy = cy_i as usize;
                match self.internal_state[cy * 8 + cx] {
                    Piece::Empty => Some(Action::Move(x, y, cx, cy)),
                    Piece::Filled(cap_color, _) => {
                        if cap_color == self_color {
                            return None;
                        }
                        let mx_i = x as i32 + 2 * xd;
                        let my_i = y as i32 + 2 * yd;
                        if mx_i < 0 || mx_i >= 8 || my_i < 0 || my_i >= 8 {
                            return None;
                        }
                        let mx = mx_i as usize;
                        let my = my_i as usize;
                        match self.internal_state[my * 8 + mx] {
                            Piece::Empty => Some(Action::Capture(x, y, mx, my, cx, cy)),
                            Piece::Filled(_, _) => None,
                        }
                    },
                }
            },
            Piece::Empty => None,
        }
    }

    /// Whether the piece at `(x, y)` still has a capture available — the
    /// test that decides whether a capture chain continues.
    fn piece_has_capture(&self, x: usize, y: usize) -> (r: bool)
        ensures
            r == spec_piece_has_capture(self@.grid, x as int, y as int),
    {
        if x >= 8 || y >= 8 {
            return false;
        }
        let piece = self.internal_state[y * 8 + x];
        let mut d: usize = 0;
        while d < 4
            invariant
                x < 8,
                y < 8,
                d <= 4,
                piece == self@.grid[sq(x as int, y as int)],
                forall|dd: int|
                    0 <= dd < d ==> !(self@.grid[sq(x as int, y as int)].spec_dir_allowed(dd)
                        && (spec_action_at(self@.grid, x as int, y as int, dir_dx(dd), dir_dy(dd))
                        matches Some(a) && a is Capture)),
            decreases 4 - d,
        {
            if dir_allowed(piece, d) {
                let xd: i32 = if d == 0 || d == 2 {
                    1
                } else {
                    -1
                };
                let yd: i32 = if d < 2 {
                    1
                } else {
                    -1
                };
                match self.get_action(x, y, xd, yd, piece) {
                    Some(action) => match action {
                        Action::Capture(_, _, _, _, _, _) => {
                            return true;
                        },
                        Action::Move(_, _, _, _) => {},
                    },
                    None => {},
                }
            }
            d = d + 1;
        }
        return false;
    }

    /// Executes `action` on the board: the origin square (and for a capture
    /// the captured square) becomes empty, the landing square receives the
    /// piece, promoted to king if it reached its color's back rank. A simple
    /// move records `last` and passes the turn; a capture does so only when
    /// the moved piece has no further capture from its landing square,
    /// otherwise the mover keeps the turn.
    pub fn execute_action(&mut self, action: Action)
        requires
            action_wf(old(self)@.grid, action),
        ensures
            final(self)@ == spec_execute(old(self)@, action),
    {
        match action {
            Action::Move(x, y, nx, ny) => {
                let piece = self.get_piece(x, y).unwrap();
                self.set_piece(x, y, Piece::Empty);
                self.set_piece(nx, ny, piece);
                if ny == piece.king_y_con() {
                    self.king_piece(nx, ny);
                }
                proof {
                    assert(self@.grid =~= old(self)@.grid.update(
                        sq(x as int, y as int),
                        Piece::Empty,
                    ).update(sq(nx as int, ny as int), spec_promote(piece, ny as int)));
                }
                self.last_turn = Some(self.current_turn);
                self.current_turn = self.current_turn.opposite();
                proof {
                    assert(final(self)@ =~= spec_execute(old(self)@, action));
                }
            },
            Action::Capture(x, y, nx, ny, cx, cy) => {
                let piece = self.get_piece(x, y).unwrap();
                self.set_piece(x, y, Piece::Empty);
                self.set_piece(cx, cy, Piece::Empty);
                self.set_piece(nx, ny, piece);
                if ny == piece.king_y_con() {
                    self.king_piece(nx, ny);
                }
                proof {
                    assert(self@.grid =~= spec_capture_grid(
                        old(self)@.grid,
                        x as int,
                        y as int,
                        nx as int,
                        ny as int,
                        cx as int,
                        cy as int,
                    ));
                }
                if !self.piece_has_capture(nx, ny) {
                    self.last_turn = Some(self.current_turn);
                    self.current_turn = self.current_turn.opposite();
                }
                proof {
                    assert(final(self)@ =~= spec_execute(old(self)@, action));
                }
            },
        }
    }

    /// Places the two sides' starting men: 12 Black men on the three rows
    /// nearest `y = 0` and 12 Red men on the three rows nearest `y = 7`, on
    /// the squares with `(x + y)` even; every other square keeps what it
    /// held, so the standard starting position arises from a fresh board.
    pub fn reset(&mut self)
        ensures
            forall|x: int, y: int|
                on_board(x, y) ==> final(self)@.grid[sq(x, y)] == spec_reset_piece(
                    old(self)@.grid[sq(x, y)],
                    x,
                    y,
                ),
            final(self)@.turn == old(self)@.turn,
            final(self)@.last == old(self)@.last,
    {
        let mut y: usize = 0;
        while y < 3
            invariant
                y <= 3,
                self@.turn == old(self)@.turn,
                self@.last == old(self)@.last,
                forall|i: int|
                    0 <= i < 64 ==> self@.grid[i] == if i < 8 * y {
                        spec_reset_black(old(self)@.grid[i], i % 8, i / 8)
                    } else {
                        old(self)@.grid[i]
                    },
            decreases 3 - y,
        {
            let mut x: usize = 0;
            while x < 8
                invariant
                    y < 3,
                    x <= 8,
                    self@.turn == old(self)@.turn,
                    self@.last == old(self)@.last,
                    forall|i: int|
                        0 <= i < 64 ==> self@.grid[i] == if i < 8 * y + x {
                            spec_reset_black(old(self)@.grid[i], i % 8, i / 8)
                        } else {
                            old(self)@.grid[i]
                        },
                decreases 8 - x,
            {
                if (x + y) % 2 == 0 {
                    self.set_piece(x, y, Piece::Filled(Color::Black, false));
                }
                x = x + 1;
            }
            y = y + 1;
        }
        proof {
            let ghost g0 = old(self)@.grid;
            assert(forall|i: int|
                0 <= i < 64 ==> self@.grid[i] == spec_reset_black(g0[i], i % 8, i / 8));
        }
        let ghost mid = self@;
        let mut y: usize = 5;
        while y < 8
            invariant
                5 <= y <= 8,
                self@.turn == mid.turn,
                self@.last == mid.last,
                forall|i: int|
                    0 <= i < 64 ==> self@.grid[i] == if 40 <= i < 8 * y {
                        spec_reset_red(mid.grid[i], i % 8, i / 8)
                    } else {
                        mid.grid[i]
                    },
            decreases 8 - y,
        {
            let mut x: usize = 0;
            while x < 8
                invariant
                    5 <= y < 8,
                    x <= 8,
                    self@.turn == mid.turn,
                    self@.last == mid.last,
                    forall|i: int|
                        0 <= i < 64 ==> self@.grid[i] == if 40 <= i < 8 * y + x {
                            spec_reset_red(mid.grid[i], i % 8, i / 8)
                        } else {
                            mid.grid[i]
                        },
                decreases 8 - x,
            {
                if (x + y) % 2 == 0 {
                    self.set_piece(x, y, Piece::Filled(Color::Red, false));
                }
                x = x + 1;
            }
            y = y + 1;
        }
        proof {
            let ghost g0 = old(self)@.grid;
            assert forall|x: int, y: int| on_board(x, y) implies final(self)@.grid[sq(x, y)]
                == spec_reset_piece(g0[sq(x, y)], x, y) by {
                let i = sq(x, y);
                assert(0 <= i < 64);
                assert(i % 8 == x && i / 8 == y);
            }
        }
    }
}

impl Board {
    /// Feeds the candidate of one direction of one square to the
    /// accumulator.
    fn extract_actions(
        &self,
        x: usize,
        y: usize,
        move_handler: &mut MoveMemHandler,
        xd: i32,
        yd: i32,
        piece: Piece,
    )
        requires
            on_board(x as int, y as int),
            piece == self@.grid[sq(x as int, y as int)],
            xd == 1 || xd == -1,
            yd == 1 || yd == -1,
        ensures
            final(move_handler).spec_captures() == mm_after_cand(
                old(move_handler).spec_captures(),
                old(move_handler).spec_moves(),
                spec_action_at(self@.grid, x as int, y as int, xd as int, yd as int),
            ).0,
            final(move_handler).spec_moves() == mm_after_cand(
                old(move_handler).spec_captures(),
                old(move_handler).spec_moves(),
                spec_action_at(self@.grid, x as int, y as int, xd as int, yd as int),
            ).1,
    {
        let action_maybe = self.get_action(x, y, xd, yd, piece);
        if let Some(action) = action_maybe {
            let room = match action {
                Action::Capture(_, _, _, _, _, _) => !move_handler.contains_capture()
                    || move_handler.len() < STATIC_SIZE,
                Action::Move(_, _, _, _) => move_handler.contains_capture()
                    || move_handler.len() < STATIC_SIZE,
            };
            if room {
                move_handler.add_action(action);
            }
        }
    }

    /// Feeds every candidate of the square `(x, y)`, which holds a piece of
    /// the side to move, to the accumulator, in direction order.
    #[verifier::rlimit(60)]
    fn get_actions(&self, x: usize, y: usize, move_handler: &mut MoveMemHandler)
        requires
            on_board(x as int, y as int),
            self@.grid[sq(x as int, y as int)] matches Piece::Filled(c, _) && c == self@.turn,
            old(move_handler).spec_captures() == first_n(
                spec_captures_upto(self@.grid, self@.turn, 4 * sq(x as int, y as int)),
                STATIC_SIZE as int,
            ),
            old(move_handler).spec_moves() == first_n(
                spec_premoves_upto(self@.grid, self@.turn, 4 * sq(x as int, y as int)),
                STATIC_SIZE as int,
            ),
        ensures
            final(move_handler).spec_captures() == first_n(
                spec_captures_upto(self@.grid, self@.turn, 4 * sq(x as int, y as int) + 4),
                STATIC_SIZE as int,
            ),
            final(move_handler).spec_moves() == first_n(
                spec_premoves_upto(self@.grid, self@.turn, 4 * sq(x as int, y as int) + 4),
                STATIC_SIZE as int,
            ),
    {
        let piece = self.get_piece(x, y).unwrap();
        let ghost s = sq(x as int, y as int);
        let mut d: usize = 0;
        while d < 4
            invariant
                on_board(x as int, y as int),
                s == sq(x as int, y as int),
                piece == self@.grid[s],
                piece matches Piece::Filled(c, _) && c == self@.turn,
                d <= 4,
                move_handler.spec_captures() == first_n(
                    spec_captures_upto(self@.grid, self@.turn, 4 * s + d),
                    STATIC_SIZE as int,
                ),
                move_handler.spec_moves() == first_n(
                    spec_premoves_upto(self@.grid, self@.turn, 4 * s + d),
                    STATIC_SIZE as int,
                ),
            decreases 4 - d,
        {
            proof {
                assert((4 * s + d) / 4 == s);
                assert((4 * s + d) % 4 == d as int);
                lemma_scan_step(self@.grid, self@.turn, 4 * s + d);
            }
            if dir_allowed(piece, d) {
                let xd: i32 = if d == 0 || d == 2 {
                    1
                } else {
                    -1
                };
                let yd: i32 = if d < 2 {
                    1
                } else {
                    -1
                };
                self.extract_actions(x, y, move_handler, xd, yd, piece);
                proof {
                    assert(spec_cand(self@.grid, self@.turn, 4 * s + d) == spec_action_at(
                        self@.grid,
                        x as int,
                        y as int,
                        xd as int,
                        yd as int,
                    ));
                }
            } else {
                proof {
                    assert(spec_cand(self@.grid, self@.turn, 4 * s + d) is None);
                }
            }
            d = d + 1;
        }
    }

    /// Collects every legal action of the side to move into `move_mem`:
    /// all its captures if it has any anywhere on the board, otherwise all
    /// its simple moves, scanning squares row-major and directions in their
    /// fixed order, truncated to the accumulator's capacity.
    pub fn get_all_actions(&self, move_mem: &mut MoveMemHandler)
        ensures
            final(move_mem).spec_actions() == spec_avail_actions(self@),
            spec_all_actions(self@).len() <= STATIC_SIZE ==> final(move_mem).spec_actions()
                == spec_all_actions(self@),
            final(move_mem).spec_captures().len() > 0 <==> spec_captures(self@).len() > 0,
    {
        move_mem.clear();
        let mut y: usize = 0;
        while y < 8
            invariant
                y <= 8,
                move_mem.spec_captures() == first_n(
                    spec_captures_upto(self@.grid, self@.turn, 32 * y),
                    STATIC_SIZE as int,
                ),
                move_mem.spec_moves() == first_n(
                    spec_premoves_upto(self@.grid, self@.turn, 32 * y),
                    STATIC_SIZE as int,
                ),
            decreases 8 - y,
        {
            let mut x: usize = 0;
            while x < 8
                invariant
                    y < 8,
                    x <= 8,
                    move_mem.spec_captures() == first_n(
                        spec_captures_upto(self@.grid, self@.turn, 4 * (8 * y + x)),
                        STATIC_SIZE as int,
                    ),
                    move_mem.spec_moves() == first_n(
                        spec_premoves_upto(self@.grid, self@.turn, 4 * (8 * y + x)),
                        STATIC_SIZE as int,
                    ),
                decreases 8 - x,
            {
                let ghost s = sq(x as int, y as int);
                proof {
                    assert(s == 8 * y + x);
                }
                let piece = self.get_piece(x, y).unwrap();
                let mut scanned = false;
                match piece {
                    Piece::Filled(c, _) => {
                        if c == self.current_turn {
                            self.get_actions(x, y, move_mem);
                            scanned = true;
                        }
                    },
                    Piece::Empty => {},
                }
                if !scanned {
                    proof {
                        lemma_skip_square(self@.grid, self@.turn, s);
                    }
                }
                x = x + 1;
            }
            y = y + 1;
        }
        proof {
            if spec_captures(self@).len() == 0 {
                lemma_premoves_eq_moves(self@.grid, self@.turn, 256);
            } else {
                assert(move_mem.spec_captures().len() > 0);
            }
        }
    }

    /// Plays one uniformly random legal action for the side to move. Where
    /// that side has no action at all it has lost: the opponent is returned
    /// and the board is left untouched. `move_mem` is left empty either way.
    pub fn make_random_move(&mut self, move_mem: &mut MoveMemHandler) -> (r: Option<Color>)
        ensures
            (r is Some) <==> spec_all_actions(old(self)@).len() == 0,
            r is Some ==> final(self)@ == old(self)@ && r == Some(
                old(self)@.turn.spec_opposite(),
            ),
            r is None ==> exists|i: int|
                0 <= i < spec_avail_actions(old(self)@).len() && final(self)@ == spec_execute(
                    old(self)@,
                    spec_avail_actions(old(self)@)[i],
                ),
            final(move_mem).spec_captures().len() == 0 && final(move_mem).spec_moves().len()
                == 0,
    {
        move_mem.clear();
        self.get_all_actions(move_mem);
        if !move_mem.has_actions() {
            let r = Some(self.current_turn.opposite());
            move_mem.clear();
            return r;
        }
        let act = move_mem.get_random_move();
        proof {
            let b = self@;
            let i = choose|i: int|
                0 <= i < move_mem.spec_actions().len() && act == move_mem.spec_actions()[i];
            lemma_all_actions_wf(b);
            assert(spec_avail_actions(b)[i] == spec_all_actions(b)[i]);
            assert(action_wf(b.grid, act));
        }
        self.execute_action(act);
        move_mem.clear();
        None
    }
}

/// Every candidate the scan can yield is executable: its coordinates lie on
/// the board and its origin square is occupied.
proof fn lemma_cand_wf(g: Seq<Piece>, turn: Color, k: int)
    requires
        0 <= k < 256,
        g.len() == 64,
    ensures
        spec_cand(g, turn, k) matches Some(a) ==> action_wf(g, a),
{
    let s = k / 4;
    let x = s % 8;
    let y = s / 8;
    assert(0 <= s < 64);
    assert(on_board(x, y));
    assert(sq(x, y) == s);
}

/// Every capture among the first `k` candidates is an executable `Capture`.
proof fn lemma_captures_upto_wf(g: Seq<Piece>, turn: Color, k: int)
    requires
        0 <= k <= 256,
        g.len() == 64,
    ensures
        forall|i: int|
            0 <= i < spec_captures_upto(g, turn, k).len() ==> action_wf(
                g,
                #[trigger] spec_captures_upto(g, turn, k)[i],
            ) && spec_captures_upto(g, turn, k)[i] is Capture,
    decreases k,
{
    if k > 0 {
        lemma_captures_upto_wf(g, turn, k - 1);
        lemma_cand_wf(g, turn, k - 1);
    }
}

/// Every simple move among the first `k` candidates is an executable `Move`.
proof fn lemma_moves_upto_wf(g: Seq<Piece>, turn: Color, k: int)
    requires
        0 <= k <= 256,
        g.len() == 64,
    ensures
        forall|i: int|
            0 <= i < spec_moves_upto(g, turn, k).len() ==> action_wf(
                g,
                #[trigger] spec_moves_upto(g, turn, k)[i],
            ) && spec_moves_upto(g, turn, k)[i] is Move,
    decreases k,
{
    if k > 0 {
        lemma_moves_upto_wf(g, turn, k - 1);
        lemma_cand_wf(g, turn, k - 1);
    }
}

/// Every action move generation yields is executable, and is a `Capture`
/// exactly where the side to move has a capture somewhere.
pub proof fn lemma_all_actions_wf(b: BoardView)
    requires
        b.grid.len() == 64,
    ensures
        forall|i: int|
            0 <= i < spec_all_actions(b).len() ==> action_wf(
                b.grid,
                #[trigger] spec_all_actions(b)[i],
            ),
{
    lemma_captures_upto_wf(b.grid, b.turn, 256);
    lemma_moves_upto_wf(b.grid, b.turn, 256);
}

/// The capture prefix only grows along the scan.
proof fn lemma_captures_mono(g: Seq<Piece>, turn: Color, k1: int, k2: int)
    requires
        0 <= k1 <= k2,
    ensures
        spec_captures_upto(g, turn, k1).len() <= spec_captures_upto(g, turn, k2).len(),
    decreases k2 - k1,
{
    if k1 < k2 {
        lemma_captures_mono(g, turn, k1, k2 - 1);
    }
}

/// A non-empty capture prefix contains the capture of some candidate.
proof fn lemma_captures_witness(g: Seq<Piece>, turn: Color, k: int)
    requires
        spec_captures_upto(g, turn, k).len() > 0,
    ensures
        exists|j: int|
            0 <= j < k && (#[trigger] spec_cand(g, turn, j) matches Some(a) && a is Capture),
    decreases k,
{
    if k > 0 {
        if !(spec_cand(g, turn, k - 1) matches Some(a) && a is Capture) {
            assert(spec_captures_upto(g, turn, k) =~= spec_captures_upto(g, turn, k - 1));
            lemma_captures_witness(g, turn, k - 1);
        }
    }
}

/// Mandatory capture: the side to move has a capture available somewhere on
/// the board exactly where its capture list is non-empty; in that case move
/// generation yields only captures, otherwise only simple moves.
pub proof fn lemma_mandatory_capture(b: BoardView)
    requires
        b.grid.len() == 64,
    ensures
        (spec_captures(b).len() > 0) <==> (exists|j: int|
            0 <= j < 256 && (#[trigger] spec_cand(b.grid, b.turn, j) matches Some(a)
                && a is Capture)),
        spec_captures(b).len() > 0 ==> forall|i: int|
            0 <= i < spec_all_actions(b).len() ==> (#[trigger] spec_all_actions(b)[i]) is Capture,
        spec_captures(b).len() == 0 ==> forall|i: int|
            0 <= i < spec_all_actions(b).len() ==> (#[trigger] spec_all_actions(b)[i]) is Move,
        spec_captures(b).len() > 0 ==> forall|i: int|
            0 <= i < spec_avail_actions(b).len() ==> (#[trigger] spec_avail_actions(b)[i])
                is Capture,
        spec_captures(b).len() == 0 ==> forall|i: int|
            0 <= i < spec_avail_actions(b).len() ==> (#[trigger] spec_avail_actions(b)[i])
                is Move,
{
    lemma_captures_upto_wf(b.grid, b.turn, 256);
    lemma_moves_upto_wf(b.grid, b.turn, 256);
    if spec_captures(b).len() > 0 {
        lemma_captures_witness(b.grid, b.turn, 256);
    }
    if exists|j: int|
        0 <= j < 256 && (#[trigger] spec_cand(b.grid, b.turn, j) matches Some(a)
            && a is Capture) {
        let j = choose|j: int|
            0 <= j < 256 && (#[trigger] spec_cand(b.grid, b.turn, j) matches Some(a)
                && a is Capture);
        assert(spec_captures_upto(b.grid, b.turn, j + 1).len() > 0);
        lemma_captures_mono(b.grid, b.turn, j + 1, 256);
    }
    assert forall|i: int| 0 <= i < spec_avail_actions(b).len() implies spec_avail_actions(b)[i]
        == spec_all_actions(b)[i] by {}
}

/// Mandatory capture, stated over the squares: the side to move has a
/// non-empty capture list exactly where some square holds one of its pieces
/// with a capture available.
#[verifier::rlimit(100)]
pub proof fn lemma_capture_available_iff(b: BoardView)
    requires
        b.grid.len() == 64,
    ensures
        (spec_captures(b).len() > 0) <==> (exists|x: int, y: int|
            #[trigger] spec_piece_has_capture(b.grid, x, y) && (b.grid[sq(x, y)] matches
            Piece::Filled(c, _) && c == b.turn)),
{
    lemma_mandatory_capture(b);
    if spec_captures(b).len() > 0 {
        let k = choose|j: int|
            0 <= j < 256 && (#[trigger] spec_cand(b.grid, b.turn, j) matches Some(a)
                && a is Capture);
        let s = k / 4;
        let d = k % 4;
        let x = s % 8;
        let y = s / 8;
        assert(sq(x, y) == s);
        assert(on_board(x, y));
        assert(b.grid[s].spec_dir_allowed(d));
        assert(spec_action_at(b.grid, x, y, dir_dx(d), dir_dy(d)) matches Some(a) && a is Capture);
        assert(spec_piece_has_capture(b.grid, x, y));
    }
    if exists|x: int, y: int|
        #[trigger] spec_piece_has_capture(b.grid, x, y) && (b.grid[sq(x, y)] matches
        Piece::Filled(c, _) && c == b.turn) {
        let (x, y) = choose|x: int, y: int|
            #[trigger] spec_piece_has_capture(b.grid, x, y) && (b.grid[sq(x, y)] matches
            Piece::Filled(c, _) && c == b.turn);
        let d = choose|d: int|
            0 <= d < 4 && b.grid[sq(x, y)].spec_dir_allowed(d) && (spec_action_at(
                b.grid,
                x,
                y,
                dir_dx(d),
                dir_dy(d),
            ) matches Some(a) && a is Capture);
        let k = 4 * sq(x, y) + d;
        assert(k / 4 == sq(x, y));
        assert(k % 4 == d);
        assert(0 <= k < 256);
        assert(spec_cand(b.grid, b.turn, k) matches Some(a) && a is Capture);
    }
}

/// Kinging: after an action, the landing square holds the moved piece, a
/// king exactly where it already was one or its landing row is its color's
/// back rank; the vacated squares are empty; every other square is
/// untouched. In particular no action ever demotes a king.
pub proof fn lemma_kinging(b: BoardView, a: Action)
    requires
        b.grid.len() == 64,
        action_wf(b.grid, a),
    ensures
        match a {
            Action::Move(x, y, nx, ny) => {
                let post = spec_execute(b, a);
                &&& (b.grid[sq(x as int, y as int)] matches Piece::Filled(c, k)
                    ==> post.grid[sq(nx as int, ny as int)] == Piece::Filled(
                    c,
                    k || ny as int == spec_king_row(c),
                ))
                &&& (sq(x as int, y as int) != sq(nx as int, ny as int) ==> post.grid[sq(
                    x as int,
                    y as int,
                )] is Empty)
                &&& (forall|i: int|
                    0 <= i < 64 && i != sq(x as int, y as int) && i != sq(nx as int, ny as int)
                        ==> #[trigger] post.grid[i] == b.grid[i])
            },
            Action::Capture(x, y, nx, ny, cx, cy) => {
                let post = spec_execute(b, a);
                &&& (b.grid[sq(x as int, y as int)] matches Piece::Filled(c, k)
                    ==> post.grid[sq(nx as int, ny as int)] == Piece::Filled(
                    c,
                    k || ny as int == spec_king_row(c),
                ))
                &&& (sq(x as int, y as int) != sq(nx as int, ny as int) ==> post.grid[sq(
                    x as int,
                    y as int,
                )] is Empty)
                &&& (sq(cx as int, cy as int) != sq(nx as int, ny as int) ==> post.grid[sq(
                    cx as int,
                    cy as int,
                )] is Empty)
                &&& (forall|i: int|
                    0 <= i < 64 && i != sq(x as int, y as int) && i != sq(nx as int, ny as int)
                        && i != sq(cx as int, cy as int) ==> #[trigger] post.grid[i] == b.grid[i])
            },
        },
{
}

/// The number of squares among the first `k` that hold exactly the piece
/// `Piece::Filled(c, king)`.
pub open spec fn count_pieces(g: Seq<Piece>, c: Color, king: bool, k: int) -> int
    decreases k,
{
    if k <= 0 {
        0
    } else {
        count_pieces(g, c, king, k - 1) + if g[k - 1] == Piece::Filled(c, king) {
            1int
        } else {
            0int
        }
    }
}

/// Reset invariant: from an all-empty board, `reset` yields exactly 12 Black
/// men and 12 Red men and no kings at all, Black on rows 0 to 2 and Red on
/// rows 5 to 7, only on squares with `(x + y)` even; every other square is
/// empty.
#[verifier::rlimit(60)]
pub proof fn lemma_reset_position(pre: Seq<Piece>, post: Seq<Piece>)
    requires
        pre.len() == 64,
        post.len() == 64,
        forall|i: int| 0 <= i < 64 ==> pre[i] == Piece::Empty,
        forall|x: int, y: int|
            on_board(x, y) ==> post[sq(x, y)] == spec_reset_piece(pre[sq(x, y)], x, y),
    ensures
        count_pieces(post, Color::Black, false, 64) == 12,
        count_pieces(post, Color::Red, false, 64) == 12,
        count_pieces(post, Color::Black, true, 64) == 0,
        count_pieces(post, Color::Red, true, 64) == 0,
        forall|x: int, y: int| on_board(x, y) && (x + y) % 2 != 0 ==> post[sq(x, y)] is Empty,
        forall|x: int, y: int|
            on_board(x, y) && post[sq(x, y)] == Piece::Filled(Color::Black, false) ==> 0 <= y < 3
                && (x + y) % 2 == 0,
        forall|x: int, y: int|
            on_board(x, y) && post[sq(x, y)] == Piece::Filled(Color::Red, false) ==> 5 <= y < 8 && (
            x + y) % 2 == 0,
        forall|x: int, y: int|
            on_board(x, y) && 3 <= y < 5 ==> post[sq(x, y)] is Empty,
{
    let target = Seq::new(64, |i: int| spec_reset_piece(Piece::Empty, i % 8, i / 8));
    assert forall|i: int| 0 <= i < 64 implies post[i] == target[i] by {
        let x = i % 8;
        let y = i / 8;
        assert(sq(x, y) == i);
        assert(on_board(x, y));
    }
    assert(post =~= target);
    assert(count_pieces(target, Color::Black, false, 64) == 12) by {
        reveal_with_fuel(count_pieces, 65);
    }
    assert(count_pieces(target, Color::Red, false, 64) == 12) by {
        reveal_with_fuel(count_pieces, 65);
    }
    assert(count_pieces(target, Color::Black, true, 64) == 0) by {
        reveal_with_fuel(count_pieces, 65);
    }
    assert(count_pieces(target, Color::Red, true, 64) == 0) by {
        reveal_with_fuel(count_pieces, 65);
    }
    assert forall|x: int, y: int| on_board(x, y) implies post[sq(x, y)] == spec_reset_piece(
        Piece::Empty,
        x,
        y,
    ) by {
        assert(pre[sq(x, y)] == Piece::Empty);
    }
}

/// Executing an action keeps the board an 8×8 grid.
pub proof fn lemma_execute_grid_len(b: BoardView, a: Action)
    requires
        b.grid.len() == 64,
        action_wf(b.grid, a),
    ensures
        spec_execute(b, a).grid.len() == 64,
{
}

/// The Black half of the reset rule: rows 0 to 2 gain a Black man on the
/// squares with `(x + y)` even.
pub open spec fn spec_reset_black(p: Piece, x: int, y: int) -> Piece {
    if (x + y) % 2 == 0 && 0 <= y < 3 {
        Piece::Filled(Color::Black, false)
    } else {
        p
    }
}

/// The Red half of the reset rule: rows 5 to 7 gain a Red man on the squares
/// with `(x + y)` even.
pub open spec fn spec_reset_red(p: Piece, x: int, y: int) -> Piece {
    if (x + y) % 2 == 0 && 5 <= y < 8 {
        Piece::Filled(Color::Red, false)
    } else {
        p
    }
}

/// What `reset` leaves on square `(x, y)`: the starting man of the row's
/// side, or the square's previous occupant outside the starting rows.
pub open spec fn spec_reset_piece(p: Piece, x: int, y: int) -> Piece {
    spec_reset_red(spec_reset_black(p, x, y), x, y)
}

/// Candidate number `k` of the board scan. Candidates are indexed by square
/// (row-major) and direction, `k = 4 * (y * 8 + x) + d`; a square contributes
/// only where it holds a piece of the side to move, in its allowed
/// directions.
pub open spec fn spec_cand(g: Seq<Piece>, turn: Color, k: int) -> Option<Action> {
    let s = k / 4;
    let d = k % 4;
    let x = s % 8;
    let y = s / 8;
    match g[s] {
        Piece::Filled(c, _) => if c == turn && g[s].spec_dir_allowed(d) {
            spec_action_at(g, x, y, dir_dx(d), dir_dy(d))
        } else {
            None
        },
        Piece::Empty => None,
    }
}

/// The captures among the first `k` candidates, in scan order.
pub open spec fn spec_captures_upto(g: Seq<Piece>, turn: Color, k: int) -> Seq<Action>
    decreases k,
{
    if k <= 0 {
        Seq::empty()
    } else {
        spec_captures_upto(g, turn, k - 1) + (match spec_cand(g, turn, k - 1) {
            Some(a) => if a is Capture {
                seq![a]
            } else {
                Seq::empty()
            },
            None => Seq::empty(),
        })
    }
}

/// The simple moves among the first `k` candidates, in scan order.
pub open spec fn spec_moves_upto(g: Seq<Piece>, turn: Color, k: int) -> Seq<Action>
    decreases k,
{
    if k <= 0 {
        Seq::empty()
    } else {
        spec_moves_upto(g, turn, k - 1) + (match spec_cand(g, turn, k - 1) {
            Some(a) => if a is Move {
                seq![a]
            } else {
                Seq::empty()
            },
            None => Seq::empty(),
        })
    }
}

/// The simple moves the scan encounters before its first capture — the ones
/// the accumulator actually stores. Once a capture appears, later simple
/// moves are discarded on arrival.
pub open spec fn spec_premoves_upto(g: Seq<Piece>, turn: Color, k: int) -> Seq<Action>
    decreases k,
{
    if k <= 0 {
        Seq::empty()
    } else {
        spec_premoves_upto(g, turn, k - 1) + (match spec_cand(g, turn, k - 1) {
            Some(a) => if a is Move && spec_captures_upto(g, turn, k - 1).len() == 0 {
                seq![a]
            } else {
                Seq::empty()
            },
            None => Seq::empty(),
        })
    }
}

/// All capture actions of the side to move, in scan order.
pub open spec fn spec_captures(b: BoardView) -> Seq<Action> {
    spec_captures_upto(b.grid, b.turn, 256)
}

/// All simple-move actions of the side to move, in scan order.
pub open spec fn spec_moves(b: BoardView) -> Seq<Action> {
    spec_moves_upto(b.grid, b.turn, 256)
}

/// Every legal action of the side to move: all its captures if it has any
/// anywhere on the board (captures are mandatory), otherwise all its simple
/// moves.
pub open spec fn spec_all_actions(b: BoardView) -> Seq<Action> {
    if spec_captures(b).len() > 0 {
        spec_captures(b)
    } else {
        spec_moves(b)
    }
}

/// The first `n` elements of `s`, or all of `s` where it is shorter.
pub open spec fn first_n(s: Seq<Action>, n: int) -> Seq<Action> {
    if s.len() <= n {
        s
    } else {
        s.take(n)
    }
}

/// What move generation yields: the legal actions of the side to move,
/// truncated to the accumulator's capacity.
pub open spec fn spec_avail_actions(b: BoardView) -> Seq<Action> {
    first_n(spec_all_actions(b), STATIC_SIZE as int)
}

/// How the accumulator advances on one candidate: a capture is appended to
/// the capture list while room remains; a simple move is appended to the
/// move list only while no capture was seen and room remains.
pub open spec fn mm_after_cand(caps: Seq<Action>, mvs: Seq<Action>, c: Option<Action>) -> (
    Seq<Action>,
    Seq<Action>,
) {
    match c {
        Some(a) => if a is Capture {
            (
                if caps.len() < STATIC_SIZE {
                    caps.push(a)
                } else {
                    caps
                },
                mvs,
            )
        } else {
            (
                caps,
                if caps.len() == 0 && mvs.len() < STATIC_SIZE {
                    mvs.push(a)
                } else {
                    mvs
                },
            )
        },
        None => (caps, mvs),
    }
}

/// One scan step: advancing the stored capped prefixes past candidate `k` is
/// exactly the accumulator's behaviour on that candidate.
proof fn lemma_scan_step(g: Seq<Piece>, turn: Color, k: int)
    requires
        0 <= k,
    ensures
        first_n(spec_captures_upto(g, turn, k + 1), STATIC_SIZE as int) == mm_after_cand(
            first_n(spec_captures_upto(g, turn, k), STATIC_SIZE as int),
            first_n(spec_premoves_upto(g, turn, k), STATIC_SIZE as int),
            spec_cand(g, turn, k),
        ).0,
        first_n(spec_premoves_upto(g, turn, k + 1), STATIC_SIZE as int) == mm_after_cand(
            first_n(spec_captures_upto(g, turn, k), STATIC_SIZE as int),
            first_n(spec_premoves_upto(g, turn, k), STATIC_SIZE as int),
            spec_cand(g, turn, k),
        ).1,
{
    let full_caps = spec_captures_upto(g, turn, k);
    let full_pre = spec_premoves_upto(g, turn, k);
    let caps = first_n(full_caps, STATIC_SIZE as int);
    let mvs = first_n(full_pre, STATIC_SIZE as int);
    match spec_cand(g, turn, k) {
        Some(a) => {
            if a is Capture {
                assert(spec_captures_upto(g, turn, k + 1) =~= full_caps.push(a));
                assert(spec_premoves_upto(g, turn, k + 1) =~= full_pre);
                lemma_first_n_push(full_caps, a);
            } else {
                assert(spec_captures_upto(g, turn, k + 1) =~= full_caps);
                if full_caps.len() == 0 {
                    assert(spec_premoves_upto(g, turn, k + 1) =~= full_pre.push(a));
                    lemma_first_n_push(full_pre, a);
                    assert(caps.len() == 0);
                } else {
                    assert(spec_premoves_upto(g, turn, k + 1) =~= full_pre);
                    assert(caps.len() > 0);
                }
            }
        },
        None => {
            assert(spec_captures_upto(g, turn, k + 1) =~= full_caps);
            assert(spec_premoves_upto(g, turn, k + 1) =~= full_pre);
        },
    }
}

/// Appending to a sequence and then capping keeps the cap: while the
/// sequence is under the cap the new element enters, afterwards the capped
/// prefix no longer changes.
proof fn lemma_first_n_push(s: Seq<Action>, a: Action)
    ensures
        first_n(s.push(a), STATIC_SIZE as int) == if s.len() < STATIC_SIZE {
            first_n(s, STATIC_SIZE as int).push(a)
        } else {
            first_n(s, STATIC_SIZE as int)
        },
{
    if s.len() < STATIC_SIZE {
        assert(first_n(s.push(a), STATIC_SIZE as int) =~= first_n(s, STATIC_SIZE as int).push(a));
    } else {
        assert(first_n(s.push(a), STATIC_SIZE as int) =~= first_n(s, STATIC_SIZE as int));
    }
}

/// A square without a piece of the side to move contributes no candidate.
proof fn lemma_skip_square(g: Seq<Piece>, turn: Color, s: int)
    requires
        0 <= s < 64,
        !(g[s] matches Piece::Filled(c, _) && c == turn),
    ensures
        spec_captures_upto(g, turn, 4 * s + 4) == spec_captures_upto(g, turn, 4 * s),
        spec_premoves_upto(g, turn, 4 * s + 4) == spec_premoves_upto(g, turn, 4 * s),
{
    assert forall|d: int| 0 <= d < 4 implies (#[trigger] spec_cand(g, turn, 4 * s + d)) is None by {
        assert((4 * s + d) / 4 == s);
    }
    assert(spec_captures_upto(g, turn, 4 * s + 1) =~= spec_captures_upto(g, turn, 4 * s));
    assert(spec_captures_upto(g, turn, 4 * s + 2) =~= spec_captures_upto(g, turn, 4 * s + 1));
    assert(spec_captures_upto(g, turn, 4 * s + 3) =~= spec_captures_upto(g, turn, 4 * s + 2));
    assert(spec_captures_upto(g, turn, 4 * s + 4) =~= spec_captures_upto(g, turn, 4 * s + 3));
    assert(spec_premoves_upto(g, turn, 4 * s + 1) =~= spec_premoves_upto(g, turn, 4 * s));
    assert(spec_premoves_upto(g, turn, 4 * s + 2) =~= spec_premoves_upto(g, turn, 4 * s + 1));
    assert(spec_premoves_upto(g, turn, 4 * s + 3) =~= spec_premoves_upto(g, turn, 4 * s + 2));
    assert(spec_premoves_upto(g, turn, 4 * s + 4) =~= spec_premoves_upto(g, turn, 4 * s + 3));
}

/// While no capture has been collected, the stored simple moves are all of
/// the side's simple moves.
proof fn lemma_premoves_eq_moves(g: Seq<Piece>, turn: Color, k: int)
    requires
        spec_captures_upto(g, turn, k).len() == 0,
    ensures
        spec_premoves_upto(g, turn, k) == spec_moves_upto(g, turn, k),
    decreases k,
{
    if k > 0 {
        assert(spec_captures_upto(g, turn, k - 1).len() == 0);
        lemma_premoves_eq_moves(g, turn, k - 1);
    }
    assert(spec_premoves_upto(g, turn, k) =~= spec_moves_upto(g, turn, k));
}

} // verus!
