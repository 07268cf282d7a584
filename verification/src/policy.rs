//! The policy section of an entry: each kept move's two-byte code followed by
//! its two-byte quantized probability, closed by one terminal marker byte.
//!
//! Entries below the probability floor are pruned before this layer and are
//! simply not written. After decoding, [`complete_policy`] rebuilds the full
//! list over the legal-move set: moves missing from the stream come back
//! marked for the probability floor.

use vstd::prelude::*;
use crate::action::{DecodeError, action_bytes, dec_action, lemma_action_round_trip, read_action, write_action};
use crate::game::{GameMove, valid_move};
use crate::value::{dec_value, lemma_value_round_trip, read_value, value_bytes, write_value};

verus! {

/// The four bytes of one kept policy entry.
pub open spec fn entry_bytes(e: (GameMove, u16)) -> Seq<u8> {
    action_bytes(Some(e.0)) + value_bytes(e.1)
}

/// The bytes of the kept policy entries, in order, without the terminal
/// marker.
pub open spec fn policy_entries_bytes(entries: Seq<(GameMove, u16)>) -> Seq<u8>
    decreases entries.len(),
{
    if entries.len() == 0 {
        Seq::empty()
    } else {
        entry_bytes(entries[0]) + policy_entries_bytes(entries.skip(1))
    }
}

/// The bytes of a whole policy section: the kept entries, then the terminal
/// marker.
pub open spec fn policy_bytes(entries: Seq<(GameMove, u16)>) -> Seq<u8> {
    policy_entries_bytes(entries) + seq![0u8]
}

/// Appending one entry extends the section by that entry's bytes.
pub proof fn lemma_policy_entries_snoc(entries: Seq<(GameMove, u16)>, e: (GameMove, u16))
    ensures
        policy_entries_bytes(entries.push(e)) == policy_entries_bytes(entries) + entry_bytes(e),
    decreases entries.len(),
{
    if entries.len() == 0 {
        assert(entries.push(e)[0] == e);
        assert(entries.push(e).skip(1) =~= Seq::<(GameMove, u16)>::empty());
        assert(policy_entries_bytes(entries.push(e)) == entry_bytes(e) + policy_entries_bytes(
            entries.push(e).skip(1),
        ));
        assert(policy_entries_bytes(entries.push(e)) =~= policy_entries_bytes(entries)
            + entry_bytes(e));
    } else {
        assert(entries.push(e).skip(1) =~= entries.skip(1).push(e));
        lemma_policy_entries_snoc(entries.skip(1), e);
        assert(entries.push(e)[0] == entries[0]);
        assert(policy_entries_bytes(entries.push(e)) == entry_bytes(entries[0])
            + policy_entries_bytes(entries.skip(1).push(e)));
        assert(policy_entries_bytes(entries) == entry_bytes(entries[0]) + policy_entries_bytes(
            entries.skip(1),
        ));
        assert(policy_entries_bytes(entries.push(e)) =~= policy_entries_bytes(entries)
            + entry_bytes(e));
    }
}

/// What decoding a policy section at byte `i` yields: the kept entries and
/// the index just past the terminal marker.
pub open spec fn dec_policy(bytes: Seq<u8>, i: int) -> Option<(Seq<(GameMove, u16)>, int)>
    decreases bytes.len() - i,
{
    match dec_action(bytes, i) {
        None => None,
        Some((None, j)) => Some((Seq::empty(), j)),
        Some((Some(m), j)) => match dec_value(bytes, j) {
            None => None,
            Some((v, j2)) => match dec_policy(bytes, j2) {
                None => None,
                Some((rest, end)) => Some((seq![(m, v)] + rest, end)),
            },
        },
    }
}

/// Round trip of the policy section: wherever the bytes of a representable
/// policy stand in a stream, decoding there gives exactly the kept entries
/// back, in order.
pub proof fn lemma_policy_round_trip(bytes: Seq<u8>, i: int, entries: Seq<(GameMove, u16)>)
    requires
        forall|k: int| 0 <= k < entries.len() ==> valid_move((#[trigger] entries[k]).0),
        0 <= i,
        i + policy_bytes(entries).len() <= bytes.len(),
        bytes.subrange(i, i + policy_bytes(entries).len()) == policy_bytes(entries),
    ensures
        dec_policy(bytes, i) == Some((entries, i + policy_bytes(entries).len())),
    decreases entries.len(),
{
    let pb = policy_bytes(entries);
    assert forall|k: int| 0 <= k < pb.len() implies bytes[i + k] == #[trigger] pb[k] by {
        assert(bytes.subrange(i, i + pb.len())[k] == bytes[i + k]);
    }
    if entries.len() == 0 {
        assert(policy_entries_bytes(entries) == Seq::<u8>::empty());
        assert(bytes[i + 0] == pb[0]);
        assert(pb[0] == 0u8);
        assert(dec_action(bytes, i) == Some((None::<GameMove>, i + 1)));
        assert(entries =~= Seq::<(GameMove, u16)>::empty());
    } else {
        let e = entries[0];
        let eb = entry_bytes(e);
        let restb = policy_entries_bytes(entries.skip(1));
        assert(policy_entries_bytes(entries) == eb + restb);
        assert(valid_move(e.0));
        assert(bytes.subrange(i, i + 2) =~= action_bytes(Some(e.0))) by {
            assert forall|k: int| 0 <= k < 2 implies bytes.subrange(i, i + 2)[k] == action_bytes(
                Some(e.0),
            )[k] by {
                assert(bytes[i + k] == pb[k]);
                assert(pb[k] == (policy_entries_bytes(entries))[k]);
                assert((policy_entries_bytes(entries))[k] == eb[k]);
                assert(eb[k] == action_bytes(Some(e.0))[k]);
            }
        }
        lemma_action_round_trip(bytes, i, Some(e.0));
        assert(dec_action(bytes, i) == Some((Some(e.0), i + 2)));
        assert(bytes.subrange(i + 2, i + 4) =~= value_bytes(e.1)) by {
            assert forall|k: int| 0 <= k < 2 implies bytes.subrange(i + 2, i + 4)[k] == value_bytes(
                e.1,
            )[k] by {
                assert(bytes[i + (2 + k)] == pb[2 + k]);
                assert(pb[2 + k] == (policy_entries_bytes(entries))[2 + k]);
                assert((policy_entries_bytes(entries))[2 + k] == eb[2 + k]);
                assert(eb[2 + k] == value_bytes(e.1)[k]);
            }
        }
        lemma_value_round_trip(bytes, i + 2, e.1);
        let j2 = i + 4;
        let tail = policy_bytes(entries.skip(1));
        assert(bytes.subrange(j2, j2 + tail.len()) =~= tail) by {
            assert forall|k: int| 0 <= k < tail.len() implies bytes.subrange(j2, j2 + tail.len())[k]
                == tail[k] by {
                assert(bytes[i + (4 + k)] == pb[4 + k]);
                assert(pb[4 + k] == if 4 + k < eb.len() + restb.len() {
                    (policy_entries_bytes(entries))[4 + k]
                } else {
                    0u8
                });
                if k < restb.len() {
                    assert((policy_entries_bytes(entries))[4 + k] == restb[k]);
                    assert(tail[k] == restb[k]);
                } else {
                    assert(tail[k] == 0u8);
                }
            }
        }
        assert(forall|k: int|
            0 <= k < entries.skip(1).len() ==> valid_move((#[trigger] entries.skip(1)[k]).0)) by {
            assert(forall|k: int|
                0 <= k < entries.skip(1).len() ==> entries.skip(1)[k] == #[trigger] entries[k + 1]);
        }
        lemma_policy_round_trip(bytes, j2, entries.skip(1));
        assert(dec_policy(bytes, j2) == Some((entries.skip(1), j2 + tail.len())));
        assert(seq![e] + entries.skip(1) =~= entries);
        assert(dec_policy(bytes, i) == Some((entries, i + pb.len())));
    }
}

/// Appends a whole policy section: every kept entry in order, then the
/// terminal marker.
pub fn write_policy(out: &mut Vec<u8>, entries: &Vec<(GameMove, u16)>)
    requires
        forall|k: int| 0 <= k < entries@.len() ==> valid_move((#[trigger] entries@[k]).0),
    ensures
        final(out)@ == old(out)@ + policy_bytes(entries@),
{
    let n = entries.len();
    let mut k: usize = 0;
    while k < n
        invariant
            n == entries@.len(),
            0 <= k <= n,
            forall|q: int| 0 <= q < entries@.len() ==> valid_move((#[trigger] entries@[q]).0),
            out@ =~= old(out)@ + policy_entries_bytes(entries@.take(k as int)),
        decreases n - k,
    {
        let (m, v) = entries[k];
        write_action(out, Some(&m));
        write_value(out, v);
        proof {
            lemma_policy_entries_snoc(entries@.take(k as int), entries@[k as int]);
            assert(entries@.take(k + 1) =~= entries@.take(k as int).push(entries@[k as int]));
            assert(out@ =~= old(out)@ + policy_entries_bytes(entries@.take(k + 1)));
        }
        k = k + 1;
    }
    assert(entries@.take(n as int) =~= entries@);
    write_action(out, None);
    assert(out@ =~= old(out)@ + policy_bytes(entries@));
}

/// Reads a whole policy section at `*pos`, advancing `*pos` past its
/// terminal marker. Succeeds exactly where the byte-level decoder does.
pub fn read_policy(bytes: &Vec<u8>, pos: &mut usize) -> (r: Result<
    Vec<(GameMove, u16)>,
    DecodeError,
>)
    requires
        *old(pos) <= bytes@.len(),
    ensures
        *old(pos) <= *final(pos) <= bytes@.len(),
        match r {
            Ok(entries) => {
                &&& dec_policy(bytes@, *old(pos) as int) == Some((entries@, *final(pos) as int))
                &&& forall|k: int|
                    0 <= k < entries@.len() ==> valid_move((#[trigger] entries@[k]).0)
            },
            Err(_) => dec_policy(bytes@, *old(pos) as int) == None::<(Seq<(GameMove, u16)>, int)>,
        },
{
    let ghost start = *old(pos) as int;
    let mut entries: Vec<(GameMove, u16)> = Vec::new();
    loop
        invariant
            *pos <= bytes@.len(),
            start == *old(pos) as int,
            start <= *pos as int,
            forall|k: int| 0 <= k < entries@.len() ==> valid_move((#[trigger] entries@[k]).0),
            ({
                match dec_policy(bytes@, *pos as int) {
                    Some((rest, end)) => dec_policy(bytes@, start) == Some((entries@ + rest, end)),
                    None => dec_policy(bytes@, start) == None::<(Seq<(GameMove, u16)>, int)>,
                }
            }),
        decreases bytes@.len() - *pos as int,
    {
        let ghost cur = *pos as int;
        let ghost entries_old = entries@;
        let a = match read_action(bytes, pos) {
            Ok(a) => a,
            Err(e) => {
                return Err(e);
            },
        };
        let m = match a {
            None => {
                assert(dec_policy(bytes@, cur) == Some((Seq::<(GameMove, u16)>::empty(), *pos as int)));
                assert(entries@ + Seq::<(GameMove, u16)>::empty() =~= entries@);
                return Ok(entries);
            },
            Some(m) => m,
        };
        let v = match read_value(bytes, pos) {
            Ok(v) => v,
            Err(e) => {
                return Err(e);
            },
        };
        entries.push((m, v));
        proof {
            let c2 = *pos as int;
            assert(dec_policy(bytes@, cur) == match dec_policy(bytes@, c2) {
                Some((rest, end)) => Some((seq![(m, v)] + rest, end)),
                None => None,
            });
            match dec_policy(bytes@, c2) {
                Some((rest, end)) => {
                    assert(entries_old + (seq![(m, v)] + rest) =~= entries@ + rest);
                },
                None => {},
            }
        }
    }
}

/// The quantized probability the stream kept for a move: the first entry
/// with that move, if any was written.
pub open spec fn policy_lookup(entries: Seq<(GameMove, u16)>, m: GameMove) -> Option<u16>
    decreases entries.len(),
{
    if entries.len() == 0 {
        None
    } else if entries[0].0 == m {
        Some(entries[0].1)
    } else {
        policy_lookup(entries.skip(1), m)
    }
}

/// Looks a move up among the decoded entries.
fn lookup_move(entries: &Vec<(GameMove, u16)>, m: &GameMove) -> (r: Option<u16>)
    ensures
        r == policy_lookup(entries@, *m),
{
    let n = entries.len();
    let mut k: usize = 0;
    assert(entries@.skip(0) =~= entries@);
    while k < n
        invariant
            n == entries@.len(),
            0 <= k <= n,
            policy_lookup(entries@, *m) == policy_lookup(entries@.skip(k as int), *m),
        decreases n - k,
    {
        assert(entries@.skip(k as int)[0] == entries@[k as int]);
        if entries[k].0 == *m {
            return Some(entries[k].1);
        }
        assert(entries@.skip(k as int).skip(1) =~= entries@.skip(k + 1));
        k = k + 1;
    }
    assert(entries@.skip(n as int).len() == 0);
    None
}

/// Rebuilds the full policy over the legal-move set: every legal move in
/// order, each carrying its decoded probability code where the stream kept
/// one and nothing where it was pruned — a pruned move reappears, marked for
/// the probability floor, and no move outside the legal set appears.
pub fn complete_policy(legal: &Vec<GameMove>, decoded: &Vec<(GameMove, u16)>) -> (r: Vec<
    (GameMove, Option<u16>),
>)
    ensures
        r@.len() == legal@.len(),
        forall|i: int| 0 <= i < legal@.len() ==> (#[trigger] r@[i]).0 == legal@[i],
        forall|i: int|
            0 <= i < legal@.len() ==> (#[trigger] r@[i]).1 == policy_lookup(decoded@, legal@[i]),
{
    let n = legal.len();
    let mut r: Vec<(GameMove, Option<u16>)> = Vec::new();
    let mut i: usize = 0;
    while i < n
        invariant
            n == legal@.len(),
            0 <= i <= n,
            r@.len() == i as int,
            forall|q: int| 0 <= q < i ==> (#[trigger] r@[q]).0 == legal@[q],
            forall|q: int|
                0 <= q < i ==> (#[trigger] r@[q]).1 == policy_lookup(decoded@, legal@[q]),
        decreases n - i,
    {
        let m = legal[i];
        let found = lookup_move(decoded, &m);
        r.push((m, found));
        i = i + 1;
    }
    r
}

/// Decides whether the policy's moves are exactly the legal moves, in order:
/// the validation every record must pass before it is encoded.
pub fn actions_match_policy(policy_moves: &Vec<GameMove>, real_actions: &Vec<GameMove>) -> (r: bool)
    ensures
        r <==> policy_moves@ == real_actions@,
{
    if policy_moves.len() != real_actions.len() {
        assert(policy_moves@ != real_actions@);
        return false;
    }
    let n = policy_moves.len();
    let mut i: usize = 0;
    while i < n
        invariant
            n == policy_moves@.len() == real_actions@.len(),
            0 <= i <= n,
            forall|j: int| 0 <= j < i ==> policy_moves@[j] == real_actions@[j],
        decreases n - i,
    {
        if policy_moves[i] != real_actions[i] {
            assert(policy_moves@ != real_actions@);
            return false;
        }
        i = i + 1;
    }
    assert(policy_moves@ =~= real_actions@);
    true
}

} // verus!
