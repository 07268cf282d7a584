//! The model of positions and moves that the codec works on.
//!
//! A position is an N-by-N board (3 <= N <= 8) of optional stacks together
//! with the side to move. A stack records the kind of its top piece and the
//! owner of every piece in it, bottom to top (`true` = first player). A move
//! is either a placement of a piece on a square or a spread from a square in
//! one direction, described by a non-empty, non-full drop-pattern bitmask.

use vstd::prelude::*;

verus! {

/// Kind of the top piece of a stack, or of a placed piece.
#[derive(Clone, Copy, PartialEq, Eq, Structural, Debug)]
pub enum Piece {
    Flat,
    Wall,
    Cap,
}

/// Direction of a spread move.
#[derive(Clone, Copy, PartialEq, Eq, Structural, Debug)]
pub enum Direction {
    Up,
    Down,
    Left,
    Right,
}

/// A board square. Column and row both count from zero; the codec supports
/// coordinates up to 7 (boards up to 8 by 8).
#[derive(Clone, Copy, PartialEq, Eq, Structural, Debug)]
pub struct Square {
    pub column: u8,
    pub row: u8,
}

/// What a move does: place a piece, or spread a stack with a drop-pattern
/// bitmask over at most 8 squares.
#[derive(Clone, Copy, PartialEq, Eq, Structural, Debug)]
pub enum MoveKind {
    Place(Piece),
    Spread(Direction, u8),
}

/// One move: a square and what happens there.
#[derive(Clone, Copy, PartialEq, Eq, Structural, Debug)]
pub struct GameMove {
    pub square: Square,
    pub kind: MoveKind,
}

/// A move the codec can represent: the square fits in 3 bits per coordinate,
/// and a spread pattern is neither empty (nothing dropped) nor full (a spread
/// over all 8 steps is impossible on boards of size at most 8).
pub open spec fn valid_move(m: GameMove) -> bool {
    &&& m.square.column < 8
    &&& m.square.row < 8
    &&& match m.kind {
        MoveKind::Place(_) => true,
        MoveKind::Spread(_, mask) => mask != 0x00 && mask != 0xff,
    }
}

/// One stack of pieces on a square.
#[derive(Clone, Debug)]
pub struct Stack {
    /// Kind of the piece on top. Every piece below the top is a flat.
    pub piece: Piece,
    /// Owner of each piece, bottom to top. `true` = first player.
    pub colors: Vec<bool>,
}

/// Mathematical view of a stack.
pub ghost struct StackV {
    pub piece: Piece,
    pub colors: Seq<bool>,
}

impl View for Stack {
    type V = StackV;

    open spec fn view(&self) -> StackV {
        StackV { piece: self.piece, colors: self.colors@ }
    }
}

/// A full board position: the board size N, the side to move
/// (`true` = first player), and one optional stack per square in
/// row-major order (`board[row * size + column]`).
#[derive(Clone, Debug)]
pub struct Position {
    pub size: u8,
    pub to_move: bool,
    pub board: Vec<Option<Stack>>,
}

/// Mathematical view of a position.
pub ghost struct PositionV {
    pub size: u8,
    pub to_move: bool,
    pub board: Seq<Option<StackV>>,
}

impl View for Position {
    type V = PositionV;

    open spec fn view(&self) -> PositionV {
        PositionV {
            size: self.size,
            to_move: self.to_move,
            board: self.board@.map_values(
                |s: Option<Stack>|
                    match s {
                        Some(st) => Some(st@),
                        None => None,
                    },
            ),
        }
    }
}

/// A stack the codec can represent: at least one piece, fewer than 128.
pub open spec fn wf_stack(s: StackV) -> bool {
    1 <= s.colors.len() < 128
}

/// A position the codec can represent: a supported board size, a square for
/// every cell, and representable stacks throughout.
pub open spec fn wf_position(p: PositionV) -> bool {
    &&& 3 <= p.size <= 8
    &&& p.board.len() == p.size * p.size
    &&& forall|i: int|
        0 <= i < p.board.len() ==> match #[trigger] p.board[i] {
            Some(s) => wf_stack(s),
            None => true,
        }
}

/// Stack equality in the model: same top piece, same owner sequence.
pub open spec fn stack_eq(a: StackV, b: StackV) -> bool {
    a.piece == b.piece && a.colors == b.colors
}

/// Square-content equality in the model.
pub open spec fn square_eq(a: Option<StackV>, b: Option<StackV>) -> bool {
    match (a, b) {
        (None, None) => true,
        (Some(x), Some(y)) => stack_eq(x, y),
        _ => false,
    }
}

/// Board equality: same size, same side to move, same contents on every
/// square. This is the equality the delta predictor decides by.
pub open spec fn position_eq(a: PositionV, b: PositionV) -> bool {
    &&& a.size == b.size
    &&& a.to_move == b.to_move
    &&& a.board.len() == b.board.len()
    &&& forall|i: int| 0 <= i < a.board.len() ==> square_eq(#[trigger] a.board[i], #[trigger] b.board[i])
}

/// Decides stack equality.
pub fn stacks_equal(a: &Stack, b: &Stack) -> (r: bool)
    ensures
        r == stack_eq(a@, b@),
{
    if a.piece != b.piece {
        return false;
    }
    if a.colors.len() != b.colors.len() {
        assert(a@.colors != b@.colors);
        return false;
    }
    let n = a.colors.len();
    let mut i: usize = 0;
    while i < n
        invariant
            n == a.colors.len() == b.colors.len(),
            0 <= i <= n,
            forall|j: int| 0 <= j < i ==> a.colors[j] == b.colors[j],
        decreases n - i,
    {
        if a.colors[i] != b.colors[i] {
            assert(a@.colors != b@.colors);
            return false;
        }
        i = i + 1;
    }
    assert(a@.colors =~= b@.colors);
    true
}

/// Decides square-content equality.
pub fn squares_equal(a: &Option<Stack>, b: &Option<Stack>) -> (r: bool)
    ensures
        r == square_eq(
            match a {
                Some(s) => Some(s@),
                None => None,
            },
            match b {
                Some(s) => Some(s@),
                None => None,
            },
        ),
{
    match (a, b) {
        (None, None) => true,
        (Some(x), Some(y)) => stacks_equal(x, y),
        _ => false,
    }
}

/// Decides board equality, the comparison the delta predictor uses.
pub fn positions_equal(a: &Position, b: &Position) -> (r: bool)
    ensures
        r == position_eq(a@, b@),
{
    if a.size != b.size || a.to_move != b.to_move || a.board.len() != b.board.len() {
        return false;
    }
    let n = a.board.len();
    let mut i: usize = 0;
    while i < n
        invariant
            n == a.board.len() == b.board.len(),
            0 <= i <= n,
            forall|j: int| 0 <= j < i ==> square_eq(a@.board[j], b@.board[j]),
        decreases n - i,
    {
        if !squares_equal(&a.board[i], &b.board[i]) {
            assert(!square_eq(a@.board[i as int], b@.board[i as int]));
            return false;
        }
        i = i + 1;
    }
    true
}

} // verus!
