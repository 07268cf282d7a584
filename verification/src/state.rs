//! The packed bit serialization of a full board position.
//!
//! One bit for the side to move, then for each square in row-major order: an
//! occupancy bit; for an occupied square a blocking bit (flat or not) and,
//! for a blocking piece, a road bit (capstone or wall); then a tall-stack
//! bit. A tall stack stores its height as 7 bits, least significant first,
//! followed by one owner bit per piece, bottom to top; a single piece stores
//! its owner bit alone.

use vstd::prelude::*;
use vstd::arithmetic::div_mod::lemma_fundamental_div_mod_converse;
use crate::action::DecodeError;
use crate::bits::{
    BitIterator, bit_in, bit_u8, bytes_of_bits, pack_bits, stream_bits,
};
use crate::game::{Piece, Position, PositionV, Stack, StackV, wf_position, wf_stack};

verus! {

/// The bits that introduce a stack's top piece: flat, wall or capstone.
pub open spec fn piece_bits(p: Piece) -> Seq<bool> {
    match p {
        Piece::Flat => seq![false],
        Piece::Wall => seq![true, false],
        Piece::Cap => seq![true, true],
    }
}

/// A stack height as 7 bits, least significant first.
pub open spec fn size7_bits(n: u8) -> Seq<bool> {
    Seq::new(7, |k: int| (n >> (k as u8)) & 1 == 1)
}

/// The value of the 7 height bits at `i`, least significant first.
pub open spec fn val7(bits: Seq<bool>, i: int) -> u8 {
    bit_u8(bit_in(bits, i)) | (bit_u8(bit_in(bits, i + 1)) << 1u8) | (bit_u8(
        bit_in(bits, i + 2),
    ) << 2u8) | (bit_u8(bit_in(bits, i + 3)) << 3u8) | (bit_u8(bit_in(bits, i + 4)) << 4u8)
        | (bit_u8(bit_in(bits, i + 5)) << 5u8) | (bit_u8(bit_in(bits, i + 6)) << 6u8)
}

/// The bits of one stack: top piece, then either the tall-stack marker with
/// height and one owner bit per piece (bottom to top), or the single owner
/// bit.
pub open spec fn stack_bits(s: StackV) -> Seq<bool> {
    piece_bits(s.piece) + if s.colors.len() > 1 {
        seq![true] + size7_bits(s.colors.len() as u8) + s.colors
    } else {
        seq![false, s.colors[0]]
    }
}

/// The bits of one square: the occupancy bit, then the stack if there is one.
pub open spec fn square_bits(o: Option<StackV>) -> Seq<bool> {
    match o {
        None => seq![false],
        Some(s) => seq![true] + stack_bits(s),
    }
}

/// The bits of a row-major square sequence.
pub open spec fn squares_bits(sqs: Seq<Option<StackV>>) -> Seq<bool>
    decreases sqs.len(),
{
    if sqs.len() == 0 {
        Seq::empty()
    } else {
        square_bits(sqs[0]) + squares_bits(sqs.skip(1))
    }
}

/// The full bit serialization of a position: side to move, then every square.
pub open spec fn state_bits(p: PositionV) -> Seq<bool> {
    seq![p.to_move] + squares_bits(p.board)
}

/// What decoding a stack's tall-stack marker and owner bits at bit `j`
/// yields, the top piece being already known.
pub open spec fn dec_tail(bits: Seq<bool>, j: int, piece: Piece) -> Option<(StackV, int)> {
    if j < 0 || j >= bits.len() {
        None
    } else if bits[j] {
        if j + 8 > bits.len() {
            None
        } else {
            let n = val7(bits, j + 1);
            if n == 0 {
                None
            } else if j + 8 + n > bits.len() {
                None
            } else {
                Some((StackV { piece, colors: bits.subrange(j + 8, j + 8 + n) }, j + 8 + n))
            }
        }
    } else {
        if j + 1 >= bits.len() {
            None
        } else {
            Some((StackV { piece, colors: seq![bits[j + 1]] }, j + 2))
        }
    }
}

/// What decoding one stack at bit `i` yields (the occupancy bit is already
/// consumed): the stack and the index just past it, or `None` when the bits
/// run out or the height field is zero.
pub open spec fn dec_stack(bits: Seq<bool>, i: int) -> Option<(StackV, int)> {
    if i < 0 || i >= bits.len() {
        None
    } else {
        let blocking = bits[i];
        if blocking && i + 1 >= bits.len() {
            None
        } else {
            let piece = if !blocking {
                Piece::Flat
            } else if bits[i + 1] {
                Piece::Cap
            } else {
                Piece::Wall
            };
            let j = if blocking {
                i + 2
            } else {
                i + 1
            };
            dec_tail(bits, j, piece)
        }
    }
}

/// What decoding one square at bit `i` yields.
pub open spec fn dec_square(bits: Seq<bool>, i: int) -> Option<(Option<StackV>, int)> {
    if i < 0 || i >= bits.len() {
        None
    } else if !bits[i] {
        Some((None, i + 1))
    } else {
        match dec_stack(bits, i + 1) {
            None => None,
            Some((s, j)) => Some((Some(s), j)),
        }
    }
}

/// What decoding `count` squares in a row yields.
pub open spec fn dec_squares(bits: Seq<bool>, i: int, count: nat) -> Option<
    (Seq<Option<StackV>>, int),
>
    decreases count,
{
    if count == 0 {
        Some((Seq::empty(), i))
    } else {
        match dec_square(bits, i) {
            None => None,
            Some((sq, j)) => match dec_squares(bits, j, (count - 1) as nat) {
                None => None,
                Some((rest, k)) => Some((seq![sq] + rest, k)),
            },
        }
    }
}

/// What decoding a whole position of the given size at bit `i` yields.
pub open spec fn dec_state(bits: Seq<bool>, i: int, size: u8) -> Option<(PositionV, int)> {
    if i < 0 || i >= bits.len() {
        None
    } else {
        let to_move = bits[i];
        match dec_squares(bits, i + 1, (size * size) as nat) {
            None => None,
            Some((board, j)) => Some((PositionV { size, to_move, board }, j)),
        }
    }
}

/// Reading back 7 height bits yields the height they were written from.
proof fn lemma_val7_of_size7(bits: Seq<bool>, i: int, n: u8)
    requires
        n < 128,
        0 <= i,
        i + 7 <= bits.len(),
        forall|k: int| 0 <= k < 7 ==> bits[i + k] == size7_bits(n)[k],
    ensures
        val7(bits, i) == n,
{
    assert(((n >> 0u8) & 1) <= 1 && ((n >> 1u8) & 1) <= 1 && ((n >> 2u8) & 1) <= 1 && ((n >> 3u8)
        & 1) <= 1 && ((n >> 4u8) & 1) <= 1 && ((n >> 5u8) & 1) <= 1 && ((n >> 6u8) & 1) <= 1)
        by (bit_vector);
    let b0 = bit_u8(bit_in(bits, i));
    let b1 = bit_u8(bit_in(bits, i + 1));
    let b2 = bit_u8(bit_in(bits, i + 2));
    let b3 = bit_u8(bit_in(bits, i + 3));
    let b4 = bit_u8(bit_in(bits, i + 4));
    let b5 = bit_u8(bit_in(bits, i + 5));
    let b6 = bit_u8(bit_in(bits, i + 6));
    assert(bits[i + 0] == size7_bits(n)[0]);
    assert(bits[i + 1] == size7_bits(n)[1]);
    assert(bits[i + 2] == size7_bits(n)[2]);
    assert(bits[i + 3] == size7_bits(n)[3]);
    assert(bits[i + 4] == size7_bits(n)[4]);
    assert(bits[i + 5] == size7_bits(n)[5]);
    assert(bits[i + 6] == size7_bits(n)[6]);
    assert(b0 == (n >> 0u8) & 1);
    assert(b1 == (n >> 1u8) & 1);
    assert(b2 == (n >> 2u8) & 1);
    assert(b3 == (n >> 3u8) & 1);
    assert(b4 == (n >> 4u8) & 1);
    assert(b5 == (n >> 5u8) & 1);
    assert(b6 == (n >> 6u8) & 1);
    assert((((n >> 0u8) & 1) | (((n >> 1u8) & 1) << 1u8) | (((n >> 2u8) & 1) << 2u8) | (((n >> 3u8)
        & 1) << 3u8) | (((n >> 4u8) & 1) << 4u8) | (((n >> 5u8) & 1) << 5u8) | (((n >> 6u8) & 1)
        << 6u8)) == n) by (bit_vector)
        requires
            n < 128,
    ;
}

/// Round trip of one stack: wherever a representable stack's bits stand in a
/// stream, decoding there gives that stack back.
pub proof fn lemma_stack_round_trip(bits: Seq<bool>, i: int, s: StackV)
    requires
        wf_stack(s),
        0 <= i,
        i + stack_bits(s).len() <= bits.len(),
        bits.subrange(i, i + stack_bits(s).len()) == stack_bits(s),
    ensures
        dec_stack(bits, i) == Some((s, i + stack_bits(s).len())),
{
    let sb = stack_bits(s);
    let pl = piece_bits(s.piece).len() as int;
    assert forall|k: int| 0 <= k < sb.len() implies bits[i + k] == #[trigger] sb[k] by {
        assert(bits.subrange(i, i + sb.len())[k] == bits[i + k]);
    }
    let j = i + pl;
    assert(bits[i + 0] == sb[0]);
    if pl == 2 {
        assert(bits[i + 1] == sb[1]);
        assert(sb[1] == piece_bits(s.piece)[1]);
    }
    assert(sb[0] == piece_bits(s.piece)[0]);
    if s.colors.len() > 1 {
        let n = s.colors.len() as u8;
        assert(bits[i + pl] == sb[pl]);
        assert(sb[pl] == true);
        assert forall|k: int| 0 <= k < 7 implies bits[j + 1 + k] == size7_bits(n)[k] by {
            assert(bits[i + (pl + 1 + k)] == sb[pl + 1 + k]);
            assert(sb[pl + 1 + k] == size7_bits(n)[k]);
        }
        lemma_val7_of_size7(bits, j + 1, n);
        assert(val7(bits, j + 1) == n);
        assert(bits.subrange(j + 8, j + 8 + n) =~= s.colors) by {
            assert forall|k: int| 0 <= k < n implies bits.subrange(j + 8, j + 8 + n)[k]
                == s.colors[k] by {
                assert(bits[i + (pl + 8 + k)] == sb[pl + 8 + k]);
                assert(sb[pl + 8 + k] == s.colors[k]);
            }
        }
        match dec_stack(bits, i) {
            Some((d, e)) => {
                assert(d.piece == s.piece);
                assert(d.colors =~= s.colors);
                assert(d == s);
                assert(e == i + sb.len());
            },
            None => {
                assert(false);
            },
        }
    } else {
        assert(s.colors.len() == 1);
        assert(bits[i + pl] == sb[pl]);
        assert(sb[pl] == false);
        assert(bits[i + (pl + 1)] == sb[pl + 1]);
        assert(sb[pl + 1] == s.colors[0]);
        match dec_stack(bits, i) {
            Some((d, e)) => {
                assert(d.piece == s.piece);
                assert(d.colors =~= s.colors);
                assert(d == s);
                assert(e == i + sb.len());
            },
            None => {
                assert(false);
            },
        }
    }
}

/// Round trip of a square sequence: decoding as many squares as were encoded
/// gives the sequence back.
pub proof fn lemma_squares_round_trip(bits: Seq<bool>, i: int, sqs: Seq<Option<StackV>>)
    requires
        forall|k: int|
            0 <= k < sqs.len() ==> match #[trigger] sqs[k] {
                Some(s) => wf_stack(s),
                None => true,
            },
        0 <= i,
        i + squares_bits(sqs).len() <= bits.len(),
        bits.subrange(i, i + squares_bits(sqs).len()) == squares_bits(sqs),
    ensures
        dec_squares(bits, i, sqs.len()) == Some((sqs, i + squares_bits(sqs).len())),
    decreases sqs.len(),
{
    if sqs.len() == 0 {
        assert(dec_squares(bits, i, 0) == Some((Seq::<Option<StackV>>::empty(), i)));
        assert(sqs =~= Seq::<Option<StackV>>::empty());
    } else {
        let qb = square_bits(sqs[0]);
        let rest = squares_bits(sqs.skip(1));
        let all = squares_bits(sqs);
        assert(all == qb + rest);
        assert forall|k: int| 0 <= k < all.len() implies bits[i + k] == #[trigger] all[k] by {
            assert(bits.subrange(i, i + all.len())[k] == bits[i + k]);
        }
        let qn = qb.len() as int;
        match sqs[0] {
            None => {
                assert(bits[i + 0] == all[0]);
                assert(all[0] == false);
                assert(dec_square(bits, i) == Some((None::<StackV>, i + 1)));
            },
            Some(s) => {
                assert(bits[i + 0] == all[0]);
                assert(all[0] == true);
                assert(bits.subrange(i + 1, i + 1 + stack_bits(s).len()) =~= stack_bits(s)) by {
                    assert forall|k: int|
                        0 <= k < stack_bits(s).len() implies bits.subrange(
                        i + 1,
                        i + 1 + stack_bits(s).len(),
                    )[k] == stack_bits(s)[k] by {
                        assert(bits[i + (1 + k)] == all[1 + k]);
                        assert(all[1 + k] == qb[1 + k]);
                        assert(qb[1 + k] == stack_bits(s)[k]);
                    }
                }
                lemma_stack_round_trip(bits, i + 1, s);
                assert(dec_square(bits, i) == Some((Some(s), i + qn)));
            },
        }
        let j = i + qn;
        assert(bits.subrange(j, j + rest.len()) =~= rest) by {
            assert forall|k: int| 0 <= k < rest.len() implies bits.subrange(j, j + rest.len())[k]
                == rest[k] by {
                assert(bits[i + (qn + k)] == all[qn + k]);
                assert(all[qn + k] == rest[k]);
            }
        }
        assert(forall|k: int|
            0 <= k < sqs.skip(1).len() ==> match #[trigger] sqs.skip(1)[k] {
                Some(s) => wf_stack(s),
                None => true,
            }) by {
            assert(forall|k: int| 0 <= k < sqs.skip(1).len() ==> sqs.skip(1)[k] == #[trigger] sqs[k
                + 1]);
        }
        lemma_squares_round_trip(bits, j, sqs.skip(1));
        assert(dec_squares(bits, j, sqs.skip(1).len()) == Some((sqs.skip(1), j + rest.len())));
        assert(seq![sqs[0]] + sqs.skip(1) =~= sqs);
        assert(dec_squares(bits, i, sqs.len()) == Some((sqs, i + all.len())));
    }
}

/// Round trip of a full position (the board round-trip law): wherever the
/// bit serialization of a representable position stands in a bit stream,
/// decoding a position of that size there yields it back, whole stacks,
/// owner sequences and side to move included.
pub proof fn lemma_state_round_trip(bits: Seq<bool>, i: int, p: PositionV)
    requires
        wf_position(p),
        0 <= i,
        i + state_bits(p).len() <= bits.len(),
        bits.subrange(i, i + state_bits(p).len()) == state_bits(p),
    ensures
        dec_state(bits, i, p.size) == Some((p, i + state_bits(p).len())),
{
    let sb = state_bits(p);
    assert forall|k: int| 0 <= k < sb.len() implies bits[i + k] == #[trigger] sb[k] by {
        assert(bits.subrange(i, i + sb.len())[k] == bits[i + k]);
    }
    assert(bits[i + 0] == sb[0]);
    assert(sb[0] == p.to_move);
    let qb = squares_bits(p.board);
    assert(bits.subrange(i + 1, i + 1 + qb.len()) =~= qb) by {
        assert forall|k: int| 0 <= k < qb.len() implies bits.subrange(i + 1, i + 1 + qb.len())[k]
            == qb[k] by {
            assert(bits[i + (1 + k)] == sb[1 + k]);
            assert(sb[1 + k] == qb[k]);
        }
    }
    lemma_squares_round_trip(bits, i + 1, p.board);
    assert(p.board.len() == (p.size * p.size) as nat);
    match dec_state(bits, i, p.size) {
        Some((d, e)) => {
            assert(d == p);
            assert(e == i + sb.len());
        },
        None => {
            assert(false);
        },
    }
}

/// Appending one square extends the bit serialization by that square's bits.
pub proof fn lemma_squares_bits_snoc(sqs: Seq<Option<StackV>>, x: Option<StackV>)
    ensures
        squares_bits(sqs.push(x)) == squares_bits(sqs) + square_bits(x),
    decreases sqs.len(),
{
    if sqs.len() == 0 {
        assert(sqs.push(x)[0] == x);
        assert(sqs.push(x).skip(1) =~= Seq::<Option<StackV>>::empty());
        assert(squares_bits(sqs.push(x)) == square_bits(x) + squares_bits(sqs.push(x).skip(1)));
        assert(squares_bits(sqs.push(x).skip(1)) == Seq::<bool>::empty());
        assert(squares_bits(sqs) == Seq::<bool>::empty());
        assert(squares_bits(sqs.push(x)) =~= squares_bits(sqs) + square_bits(x));
    } else {
        assert(sqs.push(x).skip(1) =~= sqs.skip(1).push(x));
        lemma_squares_bits_snoc(sqs.skip(1), x);
        assert(sqs.push(x)[0] == sqs[0]);
        assert(squares_bits(sqs.push(x)) == square_bits(sqs[0]) + squares_bits(
            sqs.skip(1).push(x),
        ));
        assert(squares_bits(sqs.push(x)) == square_bits(sqs[0]) + (squares_bits(sqs.skip(1))
            + square_bits(x)));
        assert(squares_bits(sqs) == square_bits(sqs[0]) + squares_bits(sqs.skip(1)));
        assert(squares_bits(sqs.push(x)) =~= squares_bits(sqs) + square_bits(x));
    }
}

/// A square's bits number at most 138.
pub proof fn lemma_square_bits_len(x: Option<StackV>)
    requires
        match x {
            Some(s) => wf_stack(s),
            None => true,
        },
    ensures
        1 <= square_bits(x).len() <= 138,
{
}

/// Pushes the 7 height bits of `n`, least significant first.
fn push_size7(bits: &mut Vec<bool>, n: u8)
    requires
        n < 128,
    ensures
        final(bits)@ == old(bits)@ + size7_bits(n),
{
    bits.push((n >> 0u8) & 1 == 1);
    bits.push((n >> 1u8) & 1 == 1);
    bits.push((n >> 2u8) & 1 == 1);
    bits.push((n >> 3u8) & 1 == 1);
    bits.push((n >> 4u8) & 1 == 1);
    bits.push((n >> 5u8) & 1 == 1);
    bits.push((n >> 6u8) & 1 == 1);
    assert(bits@ =~= old(bits)@ + size7_bits(n));
}

/// Pushes the bits of one square.
fn push_square_bits(bits: &mut Vec<bool>, square: &Option<Stack>)
    requires
        match square {
            Some(s) => wf_stack(s@),
            None => true,
        },
    ensures
        final(bits)@ == old(bits)@ + square_bits(
            match square {
                Some(s) => Some(s@),
                None => None,
            },
        ),
{
    let s = match square {
        None => {
            bits.push(false);
            assert(bits@ =~= old(bits)@ + square_bits(None::<StackV>));
            return ;
        },
        Some(s) => s,
    };
    bits.push(true);
    match s.piece {
        Piece::Flat => {
            bits.push(false);
        },
        Piece::Wall => {
            bits.push(true);
            bits.push(false);
        },
        Piece::Cap => {
            bits.push(true);
            bits.push(true);
        },
    }
    if s.colors.len() > 1 {
        bits.push(true);
        push_size7(bits, s.colors.len() as u8);
        let n = s.colors.len();
        let mut k: usize = 0;
        while k < n
            invariant
                n == s.colors.len(),
                0 <= k <= n,
                bits@ =~= old(bits)@ + seq![true] + piece_bits(s.piece) + seq![true] + size7_bits(
                    n as u8,
                ) + s.colors@.take(k as int),
            decreases n - k,
        {
            bits.push(s.colors[k]);
            assert(s.colors@.take(k + 1) =~= s.colors@.take(k as int).push(s.colors@[k as int]));
            k = k + 1;
        }
        assert(s.colors@.take(n as int) =~= s.colors@);
        assert(bits@ =~= old(bits)@ + square_bits(Some(s@)));
    } else {
        bits.push(false);
        bits.push(s.colors[0]);
        assert(bits@ =~= old(bits)@ + square_bits(Some(s@)));
    }
}

/// Serializes a position into packed bytes: exactly its bit serialization,
/// zero-padded to the next byte boundary.
pub fn encode_state(p: &Position) -> (r: Vec<u8>)
    requires
        wf_position(p@),
    ensures
        r@ == bytes_of_bits(state_bits(p@)),
{
    let mut bits: Vec<bool> = Vec::new();
    bits.push(p.to_move);
    assert(bits@ =~= seq![p@.to_move] + squares_bits(p@.board.take(0)));
    let n = p.board.len();
    assert(n == p@.board.len());
    let mut i: usize = 0;
    while i < n
        invariant
            wf_position(p@),
            n == p.board.len() == p@.board.len(),
            0 <= i <= n,
            bits@ =~= seq![p@.to_move] + squares_bits(p@.board.take(i as int)),
            bits@.len() <= 1 + 138 * i,
        decreases n - i,
    {
        let ghost prev = bits@;
        push_square_bits(&mut bits, &p.board[i]);
        proof {
            assert(p@.board[i as int] == match p.board@[i as int] {
                Some(s) => Some(s@),
                None => None::<StackV>,
            });
            lemma_squares_bits_snoc(p@.board.take(i as int), p@.board[i as int]);
            assert(p@.board.take(i + 1) =~= p@.board.take(i as int).push(p@.board[i as int]));
            assert(bits@ =~= seq![p@.to_move] + squares_bits(p@.board.take(i + 1)));
            lemma_square_bits_len(p@.board[i as int]);
        }
        i = i + 1;
    }
    proof {
        assert(p@.board.take(n as int) =~= p@.board);
        assert(bits@ =~= state_bits(p@));
        assert(p@.size * p@.size <= 64) by (nonlinear_arith)
            requires
                p@.size <= 8,
        ;
        assert(n <= 64);
    }
    pack_bits(&bits)
}

/// Reads a stack's tall-stack marker, height and owner bits at the cursor,
/// the top piece being already known.
fn read_tail(it: &mut BitIterator, bytes: &Vec<u8>, pos: &mut usize, piece: Piece) -> (r: Result<
    Stack,
    DecodeError,
>)
    requires
        old(it).wf(bytes@, *old(pos) as int),
    ensures
        final(it).wf(bytes@, *final(pos) as int),
        final(it).read >= 1,
        *old(pos) <= *final(pos) <= bytes@.len(),
        ({
            let bits = stream_bits(bytes@);
            let j = old(it).cursor(*old(pos) as int);
            match r {
                Ok(s) => {
                    &&& dec_tail(bits, j, piece) == Some(
                        (s@, final(it).cursor(*final(pos) as int)),
                    )
                    &&& wf_stack(s@)
                },
                Err(_) => dec_tail(bits, j, piece) == None::<(StackV, int)>,
            }
        }),
{
    let ghost bits = stream_bits(bytes@);
    let ghost j = it.cursor(*pos as int);
    let Some(big) = it.next(bytes, pos) else { return Err(DecodeError::Truncated) };
    if big {
        let Some(h0) = it.next(bytes, pos) else { return Err(DecodeError::Truncated) };
        let Some(h1) = it.next(bytes, pos) else { return Err(DecodeError::Truncated) };
        let Some(h2) = it.next(bytes, pos) else { return Err(DecodeError::Truncated) };
        let Some(h3) = it.next(bytes, pos) else { return Err(DecodeError::Truncated) };
        let Some(h4) = it.next(bytes, pos) else { return Err(DecodeError::Truncated) };
        let Some(h5) = it.next(bytes, pos) else { return Err(DecodeError::Truncated) };
        let Some(h6) = it.next(bytes, pos) else { return Err(DecodeError::Truncated) };
        let b0: u8 = if h0 {
            1
        } else {
            0
        };
        let b1: u8 = if h1 {
            1
        } else {
            0
        };
        let b2: u8 = if h2 {
            1
        } else {
            0
        };
        let b3: u8 = if h3 {
            1
        } else {
            0
        };
        let b4: u8 = if h4 {
            1
        } else {
            0
        };
        let b5: u8 = if h5 {
            1
        } else {
            0
        };
        let b6: u8 = if h6 {
            1
        } else {
            0
        };
        let size = b0 | (b1 << 1u8) | (b2 << 2u8) | (b3 << 3u8) | (b4 << 4u8) | (b5 << 5u8) | (b6
            << 6u8);
        assert(size == val7(bits, j + 1));
        assert(size < 128) by {
            assert((b0 | (b1 << 1u8) | (b2 << 2u8) | (b3 << 3u8) | (b4 << 4u8) | (b5 << 5u8) | (b6
                << 6u8)) < 128) by (bit_vector)
                requires
                    b0 <= 1 && b1 <= 1 && b2 <= 1 && b3 <= 1 && b4 <= 1 && b5 <= 1 && b6 <= 1,
            ;
        }
        if size == 0 {
            return Err(DecodeError::EmptyStack);
        }
        let mut colors: Vec<bool> = Vec::new();
        let mut k: u8 = 0;
        while k < size
            invariant
                it.wf(bytes@, *pos as int),
                it.read >= 1,
                *old(pos) <= *pos <= bytes@.len(),
                0 < size < 128,
                0 <= k <= size,
                colors@.len() == k as int,
                it.cursor(*pos as int) == j + 8 + k,
                0 <= j,
                j + 8 + k <= bits.len(),
                bits == stream_bits(bytes@),
                size == val7(bits, j + 1),
                colors@ =~= bits.subrange(j + 8, j + 8 + k),
                old(it).cursor(*old(pos) as int) == j,
                j + 8 <= bits.len(),
                bits[j] == true,
            decreases size - k,
        {
            let Some(color) = it.next(bytes, pos) else {
                assert(j + 8 + k >= bits.len());
                assert(j + 8 + size > bits.len());
                return Err(DecodeError::Truncated);
            };
            assert(color == bits[j + 8 + k]);
            colors.push(color);
            assert(colors@ =~= bits.subrange(j + 8, j + 8 + (k + 1)));
            k = k + 1;
        }
        assert(j + 8 + size <= bits.len());
        let s = Stack { piece, colors };
        assert(s@.colors =~= bits.subrange(j + 8, j + 8 + size));
        assert(dec_tail(bits, j, piece) == Some((s@, j + 8 + size)));
        Ok(s)
    } else {
        let Some(color) = it.next(bytes, pos) else { return Err(DecodeError::Truncated) };
        let mut colors: Vec<bool> = Vec::new();
        colors.push(color);
        let s = Stack { piece, colors };
        assert(s@.colors =~= seq![bits[j + 1]]);
        assert(dec_tail(bits, j, piece) == Some((s@, j + 2)));
        Ok(s)
    }
}

/// Reads one square (occupancy bit and, if occupied, the whole stack) at the
/// cursor.
fn read_square(it: &mut BitIterator, bytes: &Vec<u8>, pos: &mut usize) -> (r: Result<
    Option<Stack>,
    DecodeError,
>)
    requires
        old(it).wf(bytes@, *old(pos) as int),
    ensures
        final(it).wf(bytes@, *final(pos) as int),
        final(it).read >= 1,
        *old(pos) <= *final(pos) <= bytes@.len(),
        ({
            let bits = stream_bits(bytes@);
            let c = old(it).cursor(*old(pos) as int);
            match r {
                Ok(sq) => {
                    &&& dec_square(bits, c) == Some(
                        (
                            match sq {
                                Some(s) => Some(s@),
                                None => None::<StackV>,
                            },
                            final(it).cursor(*final(pos) as int),
                        ),
                    )
                    &&& match sq {
                        Some(s) => wf_stack(s@),
                        None => true,
                    }
                },
                Err(_) => dec_square(bits, c) == None::<(Option<StackV>, int)>,
            }
        }),
{
    let ghost bits = stream_bits(bytes@);
    let Some(occupied) = it.next(bytes, pos) else { return Err(DecodeError::Truncated) };
    if !occupied {
        return Ok(None);
    }
    let ghost c1 = it.cursor(*pos as int);
    let Some(blocking) = it.next(bytes, pos) else { return Err(DecodeError::Truncated) };
    let piece = if blocking {
        let Some(road) = it.next(bytes, pos) else { return Err(DecodeError::Truncated) };
        if road {
            Piece::Cap
        } else {
            Piece::Wall
        }
    } else {
        Piece::Flat
    };
    let s = match read_tail(it, bytes, pos, piece) {
        Ok(s) => s,
        Err(e) => {
            return Err(e);
        },
    };
    Ok(Some(s))
}


/// Deserializes a position of the given size at `*pos`, advancing `*pos` to
/// the byte just past the padded bit serialization. Succeeds exactly where
/// the bit-level decoder does.
pub fn decode_state(bytes: &Vec<u8>, pos: &mut usize, size: u8) -> (r: Result<
    Position,
    DecodeError,
>)
    requires
        3 <= size <= 8,
        *old(pos) <= bytes@.len(),
    ensures
        *old(pos) <= *final(pos) <= bytes@.len(),
        match dec_state(stream_bits(bytes@), 8 * (*old(pos) as int), size) {
            Some((pv, end)) => {
                &&& match r {
                    Ok(p) => p@ == pv && wf_position(pv) && 8 * (*final(pos) as int) - 8 < end <= 8
                        * (*final(pos) as int),
                    Err(_) => false,
                }
            },
            None => r matches Err(_),
        },
{
    let ghost bits = stream_bits(bytes@);
    let ghost start = 8 * (*old(pos) as int);
    let mut it = BitIterator::new();
    assert(it.cursor(*pos as int) == start);
    let Some(to_move) = it.next(bytes, pos) else {
        assert(start >= bits.len());
        return Err(DecodeError::Truncated);
    };
    assert(to_move == bits[start]);
    assert((size as usize) * (size as usize) == (size * size) as int && (size as usize) * (
    size as usize) <= 64) by (nonlinear_arith)
        requires
            3 <= size <= 8,
    ;
    let total = (size as usize) * (size as usize);
    let mut board: Vec<Option<Stack>> = Vec::new();
    let mut k: usize = 0;
    while k < total
        invariant
            3 <= size <= 8,
            total == (size * size) as nat,
            total <= 64,
            it.wf(bytes@, *pos as int),
            it.read >= 1,
            *old(pos) <= *pos <= bytes@.len(),
            bits == stream_bits(bytes@),
            start == 8 * (*old(pos) as int),
            0 <= k <= total,
            board@.len() == k as int,
            forall|q: int|
                0 <= q < k ==> match #[trigger] board@[q] {
                    Some(s) => wf_stack(s@),
                    None => true,
                },
            ({
                let bview = board@.map_values(
                    |s: Option<Stack>|
                        match s {
                            Some(st) => Some(st@),
                            None => None::<StackV>,
                        },
                );
                match dec_squares(bits, it.cursor(*pos as int), (total - k) as nat) {
                    Some((rest, end)) => dec_squares(bits, start + 1, total as nat) == Some(
                        (bview + rest, end),
                    ),
                    None => dec_squares(bits, start + 1, total as nat) == None::<
                        (Seq<Option<StackV>>, int),
                    >,
                }
            }),
        decreases total - k,
    {
        let ghost c = it.cursor(*pos as int);
        let ghost bview_old = board@.map_values(
            |s: Option<Stack>|
                match s {
                    Some(st) => Some(st@),
                    None => None::<StackV>,
                },
        );
        let sq = match read_square(&mut it, bytes, pos) {
            Ok(sq) => sq,
            Err(e) => {
                assert(dec_square(bits, c) == None::<(Option<StackV>, int)>);
                assert(dec_squares(bits, c, (total - k) as nat) == None::<
                    (Seq<Option<StackV>>, int),
                >);
                return Err(e);
            },
        };
        let ghost sqv = match &sq {
            Some(s) => Some(s@),
            None => None::<StackV>,
        };
        board.push(sq);
        proof {
            let c2 = it.cursor(*pos as int);
            assert(dec_square(bits, c) == Some((sqv, c2)));
            let bview = board@.map_values(
                |s: Option<Stack>|
                    match s {
                        Some(st) => Some(st@),
                        None => None::<StackV>,
                    },
            );
            assert(bview =~= bview_old.push(sqv));
            assert(dec_squares(bits, c, (total - k) as nat) == match dec_squares(
                bits,
                c2,
                (total - k - 1) as nat,
            ) {
                Some((rest, end)) => Some((seq![sqv] + rest, end)),
                None => None,
            });
            match dec_squares(bits, c2, (total - k - 1) as nat) {
                Some((rest, end)) => {
                    assert(bview_old + (seq![sqv] + rest) =~= bview + rest);
                },
                None => {},
            }
        }
        k = k + 1;
    }
    proof {
        assert(dec_squares(bits, it.cursor(*pos as int), 0) == Some(
            (Seq::<Option<StackV>>::empty(), it.cursor(*pos as int)),
        ));
        let bview = board@.map_values(
            |s: Option<Stack>|
                match s {
                    Some(st) => Some(st@),
                    None => None::<StackV>,
                },
        );
        assert(bview + Seq::<Option<StackV>>::empty() =~= bview);
    }
    let p = Position { size, to_move, board };
    proof {
        let end = it.cursor(*pos as int);
        assert(dec_state(bits, start, size) == Some((p@, end)));
        assert(wf_position(p@)) by {
            assert(p@.board.len() == total as int);
            assert(forall|q: int|
                0 <= q < p@.board.len() ==> match #[trigger] p@.board[q] {
                    Some(s) => wf_stack(s),
                    None => true,
                });
        }
        assert(8 * (*pos as int) - 8 < end <= 8 * (*pos as int)) by {
            if it.read >= 8 {
            } else {
            }
        }
    }
    Ok(p)
}

/// `*pos` after a decode is the byte just past the consumed bits: decoding
/// resumes at the following byte boundary.
pub proof fn lemma_pos_of_end(end: int, pos: int)
    requires
        8 * pos - 8 < end <= 8 * pos,
    ensures
        pos == (end + 7) / 8,
{
    lemma_fundamental_div_mod_converse(end + 7, 8, pos, end + 7 - 8 * pos);
}

} // verus!
