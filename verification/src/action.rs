//! The two-byte move code.
//!
//! The first byte is `0x00` for the terminal/absolute marker (no move: an
//! absolute state follows, or the policy list ends), `0xff` for a placement,
//! and any other value for a spread's drop-pattern bitmask. The second byte
//! packs the square (low 3 bits column, next 3 bits row) and, in the top two
//! bits, the placed piece kind or the spread direction.

use vstd::prelude::*;
use crate::game::{Direction, GameMove, MoveKind, Piece, Square, valid_move};

verus! {

/// Why a decode failed.
#[derive(Clone, Copy, PartialEq, Eq, Structural, Debug)]
pub enum DecodeError {
    /// The stream ended in the middle of an entry.
    Truncated,
    /// A placement code carried an undefined piece-kind value.
    InvalidAction,
    /// A serialized stack claimed to hold no pieces.
    EmptyStack,
}

/// The top-two-bits code of a move: the placed piece kind or the spread
/// direction.
pub open spec fn move_two_bits(m: GameMove) -> u8 {
    match m.kind {
        MoveKind::Place(Piece::Flat) => 0b01,
        MoveKind::Place(Piece::Wall) => 0b10,
        MoveKind::Place(Piece::Cap) => 0b11,
        MoveKind::Spread(Direction::Up, _) => 0b00,
        MoveKind::Spread(Direction::Down, _) => 0b01,
        MoveKind::Spread(Direction::Left, _) => 0b10,
        MoveKind::Spread(Direction::Right, _) => 0b11,
    }
}

/// The first byte of a move code: `0xff` for a placement, the drop-pattern
/// bitmask for a spread.
pub open spec fn move_first_byte(m: GameMove) -> u8 {
    match m.kind {
        MoveKind::Place(_) => 0xff,
        MoveKind::Spread(_, mask) => mask,
    }
}

/// The second byte of a move code: kind or direction in the top two bits,
/// then the row, then the column.
pub open spec fn move_second_byte(m: GameMove) -> u8 {
    (move_two_bits(m) << 6u8) | (m.square.row << 3u8) | m.square.column
}

/// The bytes an optional move encodes to: the single terminal/absolute marker
/// byte, or the two-byte move code.
pub open spec fn action_bytes(a: Option<GameMove>) -> Seq<u8> {
    match a {
        None => seq![0u8],
        Some(m) => seq![move_first_byte(m), move_second_byte(m)],
    }
}

/// What decoding an action at byte `i` yields: the optional move and the
/// index just past it, or `None` when the bytes are truncated or carry an
/// undefined placement kind.
pub open spec fn dec_action(bytes: Seq<u8>, i: int) -> Option<(Option<GameMove>, int)> {
    if i < 0 || i >= bytes.len() {
        None
    } else if bytes[i] == 0x00 {
        Some((None, i + 1))
    } else if i + 1 >= bytes.len() {
        None
    } else {
        let first = bytes[i];
        let second = bytes[i + 1];
        let square = Square { column: second & 0b111, row: (second >> 3u8) & 0b111 };
        let top = second >> 6u8;
        if first == 0xff {
            if top == 0b01 {
                Some((Some(GameMove { square, kind: MoveKind::Place(Piece::Flat) }), i + 2))
            } else if top == 0b10 {
                Some((Some(GameMove { square, kind: MoveKind::Place(Piece::Wall) }), i + 2))
            } else if top == 0b11 {
                Some((Some(GameMove { square, kind: MoveKind::Place(Piece::Cap) }), i + 2))
            } else {
                None
            }
        } else {
            let dir = if top == 0b00 {
                Direction::Up
            } else if top == 0b01 {
                Direction::Down
            } else if top == 0b10 {
                Direction::Left
            } else {
                Direction::Right
            };
            Some((Some(GameMove { square, kind: MoveKind::Spread(dir, first) }), i + 2))
        }
    }
}

/// Unpacking the second byte of a move code gives back the square and the
/// top-two-bits code that were packed.
proof fn lemma_second_byte_unpack(m: GameMove)
    requires
        valid_move(m),
    ensures
        move_second_byte(m) & 0b111 == m.square.column,
        (move_second_byte(m) >> 3u8) & 0b111 == m.square.row,
        move_second_byte(m) >> 6u8 == move_two_bits(m),
{
    let t = move_two_bits(m);
    let r = m.square.row;
    let c = m.square.column;
    assert(t < 4);
    assert((((t << 6u8) | (r << 3u8) | c) & 0b111) == c && ((((t << 6u8) | (r << 3u8) | c) >> 3u8)
        & 0b111) == r && (((t << 6u8) | (r << 3u8) | c) >> 6u8) == t) by (bit_vector)
        requires
            t < 4 && r < 8 && c < 8,
    ;
}

/// Round trip of the move code: wherever the bytes of a representable
/// optional move stand in a stream, decoding there gives that move back and
/// stops just past it.
pub proof fn lemma_action_round_trip(bytes: Seq<u8>, i: int, a: Option<GameMove>)
    requires
        match a {
            Some(m) => valid_move(m),
            None => true,
        },
        0 <= i,
        i + action_bytes(a).len() <= bytes.len(),
        bytes.subrange(i, i + action_bytes(a).len()) == action_bytes(a),
    ensures
        dec_action(bytes, i) == Some((a, i + action_bytes(a).len())),
{
    match a {
        None => {
            assert(bytes[i] == action_bytes(a)[0]);
        },
        Some(m) => {
            assert(bytes[i] == action_bytes(a)[0]);
            assert(bytes[i + 1] == action_bytes(a)[1]);
            lemma_second_byte_unpack(m);
            match m.kind {
                MoveKind::Place(_) => {
                },
                MoveKind::Spread(_, mask) => {
                    assert(move_first_byte(m) == mask);
                },
            }
        },
    }
}

/// Appends the code of an optional move: the terminal/absolute marker byte
/// for `None`, the two-byte move code otherwise.
pub fn write_action(out: &mut Vec<u8>, action: Option<&GameMove>)
    requires
        match action {
            Some(m) => valid_move(*m),
            None => true,
        },
    ensures
        final(out)@ == old(out)@ + action_bytes(
            match action {
                Some(m) => Some(*m),
                None => None,
            },
        ),
{
    let m = match action {
        None => {
            out.push(0x00);
            assert(out@ =~= old(out)@ + action_bytes(None::<GameMove>));
            return ;
        },
        Some(m) => m,
    };
    let first = match m.kind {
        MoveKind::Spread(_, mask) => mask,
        MoveKind::Place(_) => 0xff,
    };
    let two: u8 = match m.kind {
        MoveKind::Place(Piece::Flat) => 0b01,
        MoveKind::Place(Piece::Wall) => 0b10,
        MoveKind::Place(Piece::Cap) => 0b11,
        MoveKind::Spread(Direction::Up, _) => 0b00,
        MoveKind::Spread(Direction::Down, _) => 0b01,
        MoveKind::Spread(Direction::Left, _) => 0b10,
        MoveKind::Spread(Direction::Right, _) => 0b11,
    };
    let second = (two << 6u8) | (m.square.row << 3u8) | m.square.column;
    out.push(first);
    out.push(second);
    assert(out@ =~= old(out)@ + action_bytes(Some(*m)));
}

/// Reads one optional move code at `*pos`, advancing `*pos` past it. `None`
/// is the terminal/absolute marker. Fails on a truncated stream or an
/// undefined placement kind.
pub fn read_action(bytes: &Vec<u8>, pos: &mut usize) -> (r: Result<Option<GameMove>, DecodeError>)
    requires
        *old(pos) <= bytes@.len(),
    ensures
        *final(pos) <= bytes@.len(),
        match r {
            Ok(a) => {
                &&& dec_action(bytes@, *old(pos) as int) == Some((a, *final(pos) as int))
                &&& match a {
                    Some(m) => valid_move(m),
                    None => true,
                }
            },
            Err(e) => {
                &&& dec_action(bytes@, *old(pos) as int) == None::<(Option<GameMove>, int)>
                &&& *final(pos) == *old(pos)
                &&& e != DecodeError::EmptyStack
            },
        },
{
    if *pos >= bytes.len() {
        return Err(DecodeError::Truncated);
    }
    let first = bytes[*pos];
    if first == 0x00 {
        *pos = *pos + 1;
        return Ok(None);
    }
    if *pos + 1 >= bytes.len() {
        return Err(DecodeError::Truncated);
    }
    let second = bytes[*pos + 1];
    let column = second & 0b111;
    let row = (second >> 3u8) & 0b111;
    let top = second >> 6u8;
    assert(column < 8 && row < 8) by {
        assert((second & 0b111) < 8 && ((second >> 3u8) & 0b111) < 8) by (bit_vector);
    }
    let square = Square { column, row };
    let kind = if first == 0xff {
        if top == 0b01 {
            MoveKind::Place(Piece::Flat)
        } else if top == 0b10 {
            MoveKind::Place(Piece::Wall)
        } else if top == 0b11 {
            MoveKind::Place(Piece::Cap)
        } else {
            return Err(DecodeError::InvalidAction);
        }
    } else {
        if top == 0b00 {
            MoveKind::Spread(Direction::Up, first)
        } else if top == 0b01 {
            MoveKind::Spread(Direction::Down, first)
        } else if top == 0b10 {
            MoveKind::Spread(Direction::Left, first)
        } else {
            MoveKind::Spread(Direction::Right, first)
        }
    };
    *pos = *pos + 2;
    Ok(Some(GameMove { square, kind }))
}

} // verus!
