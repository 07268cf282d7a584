//! Byte-level round trips of the codec: moves, values, boards, policies and
//! whole entries.

use compress_targets::action::{read_action, write_action, DecodeError};
use compress_targets::bits::BitIterator;
use compress_targets::game::{
    positions_equal, Direction, GameMove, MoveKind, Piece, Position, Square, Stack,
};
use compress_targets::policy::{actions_match_policy, complete_policy, read_policy, write_policy};
use compress_targets::state::{decode_state, encode_state};
use compress_targets::stream::{decode_entry, encode_entry, find_matching_action};
use compress_targets::value::{read_value, write_value};

fn place(column: u8, row: u8, piece: Piece) -> GameMove {
    GameMove {
        square: Square { column, row },
        kind: MoveKind::Place(piece),
    }
}

fn spread(column: u8, row: u8, direction: Direction, mask: u8) -> GameMove {
    GameMove {
        square: Square { column, row },
        kind: MoveKind::Spread(direction, mask),
    }
}

fn empty_board(size: u8) -> Position {
    let mut board = Vec::new();
    for _ in 0..(size as usize * size as usize) {
        board.push(None);
    }
    Position {
        size,
        to_move: true,
        board,
    }
}

#[test]
fn action_round_trip_placements() {
    for column in 0..8u8 {
        for row in 0..8u8 {
            for piece in [Piece::Flat, Piece::Wall, Piece::Cap] {
                let m = place(column, row, piece);
                let mut out = Vec::new();
                write_action(&mut out, Some(&m));
                assert_eq!(out.len(), 2);
                assert_eq!(out[0], 0xff);
                let mut pos = 0;
                let back = read_action(&out, &mut pos).unwrap();
                assert_eq!(back, Some(m));
                assert_eq!(pos, 2);
            }
        }
    }
}

#[test]
fn action_round_trip_spreads() {
    for mask in 1..=254u8 {
        for direction in [
            Direction::Up,
            Direction::Down,
            Direction::Left,
            Direction::Right,
        ] {
            let m = spread(3, 5, direction, mask);
            let mut out = Vec::new();
            write_action(&mut out, Some(&m));
            assert_eq!(out.len(), 2);
            assert_eq!(out[0], mask);
            let mut pos = 0;
            let back = read_action(&out, &mut pos).unwrap();
            assert_eq!(back, Some(m));
        }
    }
}

#[test]
fn action_terminal_marker() {
    let mut out = Vec::new();
    write_action(&mut out, None);
    assert_eq!(out, vec![0x00]);
    let mut pos = 0;
    assert_eq!(read_action(&out, &mut pos).unwrap(), None);
    assert_eq!(pos, 1);
}

#[test]
fn action_decode_errors() {
    let mut pos = 0;
    assert_eq!(
        read_action(&Vec::new(), &mut pos),
        Err(DecodeError::Truncated)
    );
    // A placement whose top two bits are the undefined kind value.
    let bad = vec![0xffu8, 0x12];
    let mut pos = 0;
    assert_eq!(read_action(&bad, &mut pos), Err(DecodeError::InvalidAction));
    // A two-byte code cut short.
    let cut = vec![0xffu8];
    let mut pos = 0;
    assert_eq!(read_action(&cut, &mut pos), Err(DecodeError::Truncated));
}

#[test]
fn bit_iterator_walks_lsb_first() {
    let bytes = vec![0xb4u8];
    let expected = [false, false, true, false, true, true, false, true];
    let mut it = BitIterator::new();
    let mut pos = 0;
    for want in expected {
        assert_eq!(it.next(&bytes, &mut pos), Some(want));
    }
    assert_eq!(it.next(&bytes, &mut pos), None);
    assert_eq!(pos, 1);
}

#[test]
fn value_round_trip_codes() {
    for v in [0u16, 1, 255, 256, 32767, 32768, 65535] {
        let mut out = Vec::new();
        write_value(&mut out, v);
        assert_eq!(out.len(), 2);
        assert_eq!(out[0], (v & 0xff) as u8);
        assert_eq!(out[1], (v >> 8) as u8);
        let mut pos = 0;
        assert_eq!(read_value(&out, &mut pos).unwrap(), v);
    }
}

#[test]
fn value_quantization_round_trip() {
    // The quantizer maps [-1, 1] onto the 65536 codes; going through a code
    // and back moves a value by at most one quantization step, and the
    // mapping is monotonic.
    let mut previous = -1.0f64;
    for step in 0..=256u32 {
        let v = -1.0 + 2.0 * f64::from(step) / 256.0;
        let code = (((v + 1.0) / 2.0) * 65535.0).round() as u16;
        let mut out = Vec::new();
        write_value(&mut out, code);
        let mut pos = 0;
        let back_code = read_value(&out, &mut pos).unwrap();
        assert_eq!(back_code, code);
        let back = f64::from(back_code) / 65535.0 * 2.0 - 1.0;
        assert!((back - v).abs() <= 1.0 / 65535.0 * 2.0);
        assert!(back >= previous);
        previous = back;
    }
}

#[test]
fn state_round_trip_empty_boards() {
    for size in 3..=8u8 {
        let p = empty_board(size);
        let bytes = encode_state(&p);
        let mut pos = 0;
        let back = decode_state(&bytes, &mut pos, size).unwrap();
        assert!(positions_equal(&p, &back));
        assert_eq!(pos, bytes.len());
    }
}

#[test]
fn state_round_trip_stacks() {
    let mut p = empty_board(5);
    p.to_move = false;
    // A lone flat, a wall, a capstone.
    p.board[0] = Some(Stack {
        piece: Piece::Flat,
        colors: vec![true],
    });
    p.board[7] = Some(Stack {
        piece: Piece::Wall,
        colors: vec![false],
    });
    p.board[12] = Some(Stack {
        piece: Piece::Cap,
        colors: vec![true],
    });
    // Tall stacks, including one of height 3 under a capstone.
    p.board[13] = Some(Stack {
        piece: Piece::Cap,
        colors: vec![false, true, true],
    });
    p.board[24] = Some(Stack {
        piece: Piece::Flat,
        colors: vec![true, false, false, true, false],
    });
    let bytes = encode_state(&p);
    let mut pos = 0;
    let back = decode_state(&bytes, &mut pos, 5).unwrap();
    assert!(positions_equal(&p, &back));
    assert_eq!(back.board[24].as_ref().unwrap().colors, vec![
        true, false, false, true, false
    ]);
}

#[test]
fn state_round_trip_tall_stack_max() {
    let mut p = empty_board(3);
    let mut colors = Vec::new();
    for i in 0..127 {
        colors.push(i % 3 == 0);
    }
    p.board[4] = Some(Stack {
        piece: Piece::Wall,
        colors: colors.clone(),
    });
    let bytes = encode_state(&p);
    let mut pos = 0;
    let back = decode_state(&bytes, &mut pos, 3).unwrap();
    assert!(positions_equal(&p, &back));
    assert_eq!(back.board[4].as_ref().unwrap().colors, colors);
}

#[test]
fn state_decode_rejects_empty_stack() {
    // side-to-move 1; first square occupied, flat, tall-stack marker set,
    // then a zero height: the stream is corrupt.
    let bytes = vec![0x0bu8, 0x00];
    let mut pos = 0;
    let r = decode_state(&bytes, &mut pos, 3);
    assert!(matches!(r, Err(DecodeError::EmptyStack)));
}

#[test]
fn state_decode_rejects_truncation() {
    let p = empty_board(4);
    let bytes = encode_state(&p);
    let cut = bytes[..bytes.len() - 1].to_vec();
    let mut pos = 0;
    assert!(decode_state(&cut, &mut pos, 4).is_err());
}

#[test]
fn policy_round_trip() {
    let entries = vec![
        (place(0, 0, Piece::Flat), 0u16),
        (spread(1, 2, Direction::Right, 0b101), 40000u16),
        (place(2, 2, Piece::Cap), 65535u16),
    ];
    let mut out = Vec::new();
    write_policy(&mut out, &entries);
    // Three four-byte entries and the terminal marker.
    assert_eq!(out.len(), 13);
    assert_eq!(out[12], 0x00);
    let mut pos = 0;
    let back = read_policy(&out, &mut pos).unwrap();
    assert_eq!(back, entries);
    assert_eq!(pos, 13);
}

#[test]
fn policy_completion_marks_pruned_moves() {
    // Moves missing from the stream (pruned below the probability floor)
    // come back marked for the floor; kept moves keep their codes; the
    // result is exactly the legal-move set, in order.
    let legal = vec![
        place(0, 0, Piece::Flat),
        place(1, 0, Piece::Flat),
        place(2, 0, Piece::Flat),
    ];
    let decoded = vec![(place(1, 0, Piece::Flat), 123u16)];
    let completed = complete_policy(&legal, &decoded);
    assert_eq!(completed.len(), 3);
    assert_eq!(completed[0], (legal[0], None));
    assert_eq!(completed[1], (legal[1], Some(123)));
    assert_eq!(completed[2], (legal[2], None));
}

#[test]
fn policy_validation_compares_moves_in_order() {
    let a = vec![place(0, 0, Piece::Flat), place(1, 0, Piece::Flat)];
    let b = vec![place(0, 0, Piece::Flat), place(1, 0, Piece::Flat)];
    let c = vec![place(1, 0, Piece::Flat), place(0, 0, Piece::Flat)];
    assert!(actions_match_policy(&a, &b));
    assert!(!actions_match_policy(&a, &c));
    assert!(!actions_match_policy(&a, &vec![place(0, 0, Piece::Flat)]));
}

#[test]
fn entry_relative_round_trip() {
    // The target is one move away from the previous position: the entry
    // stores only that move, and decoding hands it back so the caller can
    // replay it.
    let mut target = empty_board(3);
    target.to_move = false;
    target.board[0] = Some(Stack {
        piece: Piece::Flat,
        colors: vec![false],
    });
    let mv = place(0, 0, Piece::Flat);
    let candidates = vec![
        (place(1, 1, Piece::Flat), empty_board(3)),
        (mv, target.clone()),
    ];
    assert_eq!(find_matching_action(&candidates, &target), Some(mv));
    let policy = vec![(place(1, 0, Piece::Flat), 500u16)];
    let bytes = encode_entry(&candidates, &target, 777, &policy);
    assert_ne!(bytes[0], 0x00);
    let mut pos = 0;
    let entry = decode_entry(&bytes, &mut pos, 3).unwrap();
    assert_eq!(entry.action, Some(mv));
    assert!(entry.state.is_none());
    assert_eq!(entry.value, 777);
    assert_eq!(entry.policy, policy);
    assert_eq!(pos, bytes.len());
}

#[test]
fn entry_absolute_round_trip() {
    // No candidate reproduces the target: the entry stores the whole board,
    // and decoding reproduces it whatever came before.
    let mut target = empty_board(4);
    target.board[5] = Some(Stack {
        piece: Piece::Cap,
        colors: vec![true, false],
    });
    let candidates = vec![(place(0, 0, Piece::Flat), empty_board(4))];
    assert_eq!(find_matching_action(&candidates, &target), None);
    let policy = vec![(spread(1, 1, Direction::Up, 3), 60000u16)];
    let bytes = encode_entry(&candidates, &target, 1, &policy);
    assert_eq!(bytes[0], 0x00);
    let mut pos = 0;
    let entry = decode_entry(&bytes, &mut pos, 4).unwrap();
    assert_eq!(entry.action, None);
    let state = entry.state.unwrap();
    assert!(positions_equal(&state, &target));
    assert_eq!(entry.value, 1);
    assert_eq!(entry.policy, policy);
    assert_eq!(pos, bytes.len());
}

#[test]
fn entry_first_match_wins() {
    // Two candidates reproduce the target; the first one in iteration order
    // is the one written.
    let target = empty_board(3);
    let first = spread(0, 0, Direction::Up, 1);
    let second = spread(0, 0, Direction::Right, 1);
    let candidates = vec![
        (place(2, 2, Piece::Wall), {
            let mut p = empty_board(3);
            p.to_move = false;
            p
        }),
        (first, target.clone()),
        (second, target.clone()),
    ];
    assert_eq!(find_matching_action(&candidates, &target), Some(first));
}

#[test]
fn end_to_end_small_board() {
    // One record on an empty 3-by-3 board, first player to move, value 0,
    // the whole probability on one placement.
    let target = empty_board(3);
    let value_code = (((0.0f64 + 1.0) / 2.0) * 65535.0).round() as u16;
    assert_eq!(value_code, 32768);
    let best = place(0, 0, Piece::Flat);
    // ln(1.0) == 0, so probability 1 quantizes to code 0.
    let policy = vec![(best, 0u16)];
    let bytes = encode_entry(&Vec::new(), &target, value_code, &policy);
    assert_eq!(
        bytes,
        vec![0x00, 0x01, 0x00, 0x00, 0x80, 0xff, 0x40, 0x00, 0x00, 0x00]
    );

    let mut pos = 0;
    let entry = decode_entry(&bytes, &mut pos, 3).unwrap();
    let state = entry.state.unwrap();
    assert!(positions_equal(&state, &target));
    assert_eq!(entry.value, 32768);
    let decoded_value = f64::from(entry.value) / 65535.0 * 2.0 - 1.0;
    assert!(decoded_value.abs() <= 1.0 / 65535.0);

    // The legal moves of the opening position: a placement on each square.
    let mut legal = Vec::new();
    for row in 0..3u8 {
        for column in 0..3u8 {
            legal.push(place(column, row, Piece::Flat));
        }
    }
    let completed = complete_policy(&legal, &entry.policy);
    assert_eq!(completed.len(), legal.len());

    // Rebuild probabilities the way the decoder's caller does: kept codes
    // through the logarithmic scale, pruned moves at the floor, then
    // renormalize.
    let log_min = 1e-5f64.ln();
    let mut probabilities = Vec::new();
    for (_, code) in &completed {
        let p = match code {
            Some(c) => (f64::from(*c) * log_min / 65535.0).exp(),
            None => 1e-5,
        };
        probabilities.push(p);
    }
    let sum: f64 = probabilities.iter().sum();
    for p in probabilities.iter_mut() {
        *p /= sum;
    }
    let total: f64 = probabilities.iter().sum();
    assert!((total - 1.0).abs() < 1e-12);
    // The kept move carries the largest probability; every pruned move sits
    // at the same renormalized floor.
    assert!(probabilities[0] > probabilities[1]);
    for p in &probabilities[1..] {
        assert!((p - probabilities[1]).abs() < 1e-15);
    }
}

#[test]
fn decode_entry_rejects_truncation() {
    let target = empty_board(3);
    let policy = vec![(place(0, 0, Piece::Flat), 0u16)];
    let bytes = encode_entry(&Vec::new(), &target, 100, &policy);
    for cut_len in 0..bytes.len() {
        let cut = bytes[..cut_len].to_vec();
        let mut pos = 0;
        assert!(decode_entry(&cut, &mut pos, 3).is_err());
    }
}
