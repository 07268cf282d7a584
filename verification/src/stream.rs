//! One compressed entry, and the delta decision that shapes it.
//!
//! An entry is either relative — the two-byte code of the one legal move
//! that turns the previous position into this one — or absolute — the
//! terminal/absolute marker followed by the packed board serialization.
//! Either form is followed by the quantized value and the policy section.
//! Decoding an entry needs the decoder's current position only to replay a
//! relative move, which the caller does with the game engine; everything the
//! stream holds is reconstructed here.

use vstd::prelude::*;
use vstd::arithmetic::div_mod::{lemma_fundamental_div_mod, lemma_fundamental_div_mod_converse};
use crate::action::{
    DecodeError, action_bytes, dec_action, lemma_action_round_trip, read_action, write_action,
};
use crate::bits::{
    bytes_of_bits, lemma_stream_bits_slice, lemma_stream_of_packed, stream_bits,
};
use crate::game::{GameMove, Position, PositionV, position_eq, positions_equal, valid_move, wf_position};
use crate::policy::{
    dec_policy, lemma_policy_round_trip, policy_bytes, read_policy, write_policy,
};
use crate::state::{
    dec_state, decode_state, encode_state, lemma_pos_of_end, lemma_state_round_trip, state_bits,
};
use crate::value::{dec_value, lemma_value_round_trip, read_value, value_bytes, write_value};

verus! {

/// The mathematical view of the candidate moves: each move paired with the
/// position it produces from the previous position.
pub open spec fn candidate_views(candidates: Seq<(GameMove, Position)>) -> Seq<
    (GameMove, PositionV),
> {
    candidates.map_values(|c: (GameMove, Position)| (c.0, c.1@))
}

/// The delta decision: the index of the first candidate whose resulting
/// position is board-equal to the target, if any is.
pub open spec fn delta_choice(cands: Seq<(GameMove, PositionV)>, target: PositionV) -> Option<int>
    decreases cands.len(),
{
    if cands.len() == 0 {
        None
    } else if position_eq(cands[0].1, target) {
        Some(0)
    } else {
        match delta_choice(cands.skip(1), target) {
            Some(k) => Some(k + 1),
            None => None,
        }
    }
}

/// The delta decision is sound: a chosen candidate is board-equal to the
/// target and is the first such; no choice means no candidate matches.
pub proof fn lemma_delta_choice(cands: Seq<(GameMove, PositionV)>, target: PositionV)
    ensures
        match delta_choice(cands, target) {
            Some(k) => {
                &&& 0 <= k < cands.len()
                &&& position_eq(cands[k].1, target)
                &&& forall|j: int| 0 <= j < k ==> !position_eq((#[trigger] cands[j]).1, target)
            },
            None => forall|j: int|
                0 <= j < cands.len() ==> !position_eq((#[trigger] cands[j]).1, target),
        },
    decreases cands.len(),
{
    if cands.len() != 0 && !position_eq(cands[0].1, target) {
        lemma_delta_choice(cands.skip(1), target);
        let s = cands.skip(1);
        assert(forall|j: int| 0 <= j < s.len() ==> #[trigger] s[j] == cands[j + 1]);
        match delta_choice(s, target) {
            Some(k) => {
                assert(s[k] == cands[k + 1]);
                assert forall|j: int| 0 <= j < k + 1 implies !position_eq(
                    (#[trigger] cands[j]).1,
                    target,
                ) by {
                    if j > 0 {
                        assert(s[j - 1] == cands[j]);
                        assert(!position_eq(s[j - 1].1, target));
                    }
                }
            },
            None => {
                assert forall|j: int| 0 <= j < cands.len() implies !position_eq(
                    (#[trigger] cands[j]).1,
                    target,
                ) by {
                    if j > 0 {
                        assert(s[j - 1] == cands[j]);
                        assert(!position_eq(s[j - 1].1, target));
                    }
                }
            },
        }
    }
}

/// The delta decision is complete: if some candidate matches and none
/// before it does, it is the choice; if none matches, there is no choice.
pub proof fn lemma_delta_choice_of_first(
    cands: Seq<(GameMove, PositionV)>,
    target: PositionV,
    k: int,
)
    requires
        0 <= k < cands.len(),
        position_eq(cands[k].1, target),
        forall|j: int| 0 <= j < k ==> !position_eq((#[trigger] cands[j]).1, target),
    ensures
        delta_choice(cands, target) == Some(k),
    decreases k,
{
    if k == 0 {
    } else {
        assert(!position_eq(cands[0].1, target));
        assert(forall|j: int|
            0 <= j < cands.skip(1).len() ==> cands.skip(1)[j] == #[trigger] cands[j + 1]);
        assert(cands.skip(1)[k - 1] == cands[k]);
        lemma_delta_choice_of_first(cands.skip(1), target, k - 1);
    }
}

/// If no candidate matches, there is no delta choice.
pub proof fn lemma_delta_choice_none(cands: Seq<(GameMove, PositionV)>, target: PositionV)
    requires
        forall|j: int| 0 <= j < cands.len() ==> !position_eq((#[trigger] cands[j]).1, target),
    ensures
        delta_choice(cands, target) == None::<int>,
    decreases cands.len(),
{
    if cands.len() != 0 {
        assert(forall|j: int|
            0 <= j < cands.skip(1).len() ==> cands.skip(1)[j] == #[trigger] cands[j + 1]);
        lemma_delta_choice_none(cands.skip(1), target);
    }
}

/// Scans the candidate moves in order and picks the first whose resulting
/// position is board-equal to the target: the delta predictor's decision.
pub fn find_matching_action(candidates: &Vec<(GameMove, Position)>, target: &Position) -> (r:
    Option<GameMove>)
    ensures
        match delta_choice(candidate_views(candidates@), target@) {
            Some(k) => r == Some(candidates@[k].0),
            None => r == None::<GameMove>,
        },
{
    let n = candidates.len();
    let ghost cv = candidate_views(candidates@);
    let mut i: usize = 0;
    while i < n
        invariant
            n == candidates@.len(),
            cv == candidate_views(candidates@),
            cv.len() == n as int,
            forall|q: int| 0 <= q < n ==> #[trigger] cv[q] == (candidates@[q].0, candidates@[q].1@),
            0 <= i <= n,
            forall|j: int| 0 <= j < i ==> !position_eq((#[trigger] cv[j]).1, target@),
        decreases n - i,
    {
        if positions_equal(&candidates[i].1, target) {
            proof {
                lemma_delta_choice_of_first(cv, target@, i as int);
            }
            return Some(candidates[i].0);
        }
        i = i + 1;
    }
    proof {
        lemma_delta_choice_none(cv, target@);
    }
    None
}

/// The bytes of one entry: the chosen move's code, or the terminal/absolute
/// marker and the packed board, then the quantized value, then the policy
/// section.
pub open spec fn stream_entry_bytes(
    action: Option<GameMove>,
    state: PositionV,
    value: u16,
    policy: Seq<(GameMove, u16)>,
) -> Seq<u8> {
    (match action {
        Some(m) => action_bytes(Some(m)),
        None => action_bytes(None) + bytes_of_bits(state_bits(state)),
    }) + value_bytes(value) + policy_bytes(policy)
}

/// One decoded entry: the relative move or the absolute position, the
/// quantized value, and the kept policy entries.
pub struct Entry {
    /// The move of a relative entry; nothing for an absolute one.
    pub action: Option<GameMove>,
    /// The position of an absolute entry; nothing for a relative one.
    pub state: Option<Position>,
    /// The quantized outcome value.
    pub value: u16,
    /// The kept policy entries, in stream order.
    pub policy: Vec<(GameMove, u16)>,
}

/// Mathematical view of a decoded entry.
pub ghost struct EntryV {
    pub action: Option<GameMove>,
    pub state: Option<PositionV>,
    pub value: u16,
    pub policy: Seq<(GameMove, u16)>,
}

impl View for Entry {
    type V = EntryV;

    open spec fn view(&self) -> EntryV {
        EntryV {
            action: self.action,
            state: match self.state {
                Some(p) => Some(p@),
                None => None,
            },
            value: self.value,
            policy: self.policy@,
        }
    }
}

/// What decoding one entry at byte `i` yields, for a stream of boards of the
/// given size: the entry and the index just past it.
pub open spec fn dec_entry(bytes: Seq<u8>, i: int, size: u8) -> Option<(EntryV, int)> {
    match dec_action(bytes, i) {
        None => None,
        Some((Some(m), j)) => match dec_value(bytes, j) {
            None => None,
            Some((v, j2)) => match dec_policy(bytes, j2) {
                None => None,
                Some((pol, end)) => Some(
                    (EntryV { action: Some(m), state: None, value: v, policy: pol }, end),
                ),
            },
        },
        Some((None, j)) => match dec_state(stream_bits(bytes), 8 * j, size) {
            None => None,
            Some((pv, endbit)) => {
                let j2 = (endbit + 7) / 8;
                match dec_value(bytes, j2) {
                    None => None,
                    Some((v, j3)) => match dec_policy(bytes, j3) {
                        None => None,
                        Some((pol, end)) => Some(
                            (EntryV { action: None, state: Some(pv), value: v, policy: pol }, end),
                        ),
                    },
                }
            },
        },
    }
}

/// Round trip of one entry. A relative entry decodes back to exactly the
/// move the delta predictor chose, so replaying it on the previous position
/// reproduces the target; an absolute entry decodes back to the whole
/// target position, whatever the previous position was.
#[verifier::rlimit(100)]
pub proof fn lemma_entry_round_trip(
    bytes: Seq<u8>,
    i: int,
    action: Option<GameMove>,
    state: PositionV,
    value: u16,
    policy: Seq<(GameMove, u16)>,
)
    requires
        wf_position(state),
        match action {
            Some(m) => valid_move(m),
            None => true,
        },
        forall|k: int| 0 <= k < policy.len() ==> valid_move((#[trigger] policy[k]).0),
        0 <= i,
        i + stream_entry_bytes(action, state, value, policy).len() <= bytes.len(),
        bytes.subrange(i, i + stream_entry_bytes(action, state, value, policy).len())
            == stream_entry_bytes(action, state, value, policy),
    ensures
        dec_entry(bytes, i, state.size) == Some(
            (
                EntryV {
                    action,
                    state: match action {
                        Some(_) => None,
                        None => Some(state),
                    },
                    value,
                    policy,
                },
                i + stream_entry_bytes(action, state, value, policy).len(),
            ),
        ),
{
    let eb = stream_entry_bytes(action, state, value, policy);
    let vb = value_bytes(value);
    let pb = policy_bytes(policy);
    assert forall|k: int| 0 <= k < eb.len() implies bytes[i + k] == #[trigger] eb[k] by {
        assert(bytes.subrange(i, i + eb.len())[k] == bytes[i + k]);
    }
    match action {
        Some(m) => {
            let ab = action_bytes(Some(m));
            assert(eb == (ab + vb) + pb);
            assert(bytes.subrange(i, i + 2) =~= ab) by {
                assert forall|k: int| 0 <= k < 2 implies bytes.subrange(i, i + 2)[k] == ab[k] by {
                    assert(bytes[i + k] == eb[k]);
                    assert(eb[k] == ab[k]);
                }
            }
            lemma_action_round_trip(bytes, i, Some(m));
            assert(bytes.subrange(i + 2, i + 4) =~= vb) by {
                assert forall|k: int| 0 <= k < 2 implies bytes.subrange(i + 2, i + 4)[k]
                    == vb[k] by {
                    assert(bytes[i + (2 + k)] == eb[2 + k]);
                    assert(eb[2 + k] == vb[k]);
                }
            }
            lemma_value_round_trip(bytes, i + 2, value);
            assert(bytes.subrange(i + 4, i + 4 + pb.len()) =~= pb) by {
                assert forall|k: int| 0 <= k < pb.len() implies bytes.subrange(
                    i + 4,
                    i + 4 + pb.len(),
                )[k] == pb[k] by {
                    assert(bytes[i + (4 + k)] == eb[4 + k]);
                    assert(eb[4 + k] == pb[k]);
                }
            }
            lemma_policy_round_trip(bytes, i + 4, policy);
            assert(dec_policy(bytes, i + 4) == Some((policy, i + eb.len())));
        },
        None => {
            let sb = state_bits(state);
            let packed = bytes_of_bits(sb);
            let bn = packed.len() as int;
            assert(eb == ((action_bytes(None) + packed) + vb) + pb);
            assert(bytes[i + 0] == eb[0]);
            assert(eb[0] == 0u8);
            assert(i < bytes.len());
            assert(dec_action(bytes, i) == Some((None::<GameMove>, i + 1)));
            assert(bytes.subrange(i + 1, i + 1 + bn) =~= packed) by {
                assert forall|q: int| 0 <= q < bn implies bytes.subrange(i + 1, i + 1 + bn)[q]
                    == packed[q] by {
                    assert(bytes[i + (1 + q)] == eb[1 + q]);
                    assert(eb[1 + q] == (action_bytes(None) + packed)[1 + q]);
                    assert((action_bytes(None) + packed)[1 + q] == packed[q]);
                }
            }
            let bits = stream_bits(bytes);
            let ls = sb.len() as int;
            lemma_stream_of_packed(sb);
            assert(ls <= 8 * bn);
            lemma_stream_bits_slice(bytes, i + 1, bn);
            assert(8 * (i + 1) + ls <= bits.len());
            assert(bits.subrange(8 * (i + 1), 8 * (i + 1) + ls) =~= sb) by {
                assert forall|t: int| 0 <= t < ls implies bits.subrange(
                    8 * (i + 1),
                    8 * (i + 1) + ls,
                )[t] == sb[t] by {
                    assert(bits[8 * (i + 1) + t] == stream_bits(bytes.subrange(i + 1, i + 1 + bn))[t]);
                    assert(stream_bits(bytes.subrange(i + 1, i + 1 + bn)) == stream_bits(packed));
                    assert(stream_bits(packed)[t] == sb[t]);
                }
            }
            lemma_state_round_trip(bits, 8 * (i + 1), state);
            assert(dec_state(bits, 8 * (i + 1), state.size) == Some((state, 8 * (i + 1) + ls)));
            let endbit = 8 * (i + 1) + ls;
            assert((endbit + 7) / 8 == i + 1 + bn) by {
                lemma_fundamental_div_mod((ls + 7) as int, 8);
                assert(ls + 7 == 8 * ((ls + 7) / 8) + ((ls + 7) % 8));
                assert(bn == (ls + 7) / 8);
                lemma_fundamental_div_mod_converse(
                    endbit + 7,
                    8,
                    i + 1 + bn,
                    (ls + 7) % 8,
                );
            }
            let j2 = i + 1 + bn;
            assert(bytes.subrange(j2, j2 + 2) =~= vb) by {
                assert forall|k: int| 0 <= k < 2 implies bytes.subrange(j2, j2 + 2)[k] == vb[k] by {
                    assert(bytes[i + (1 + bn + k)] == eb[1 + bn + k]);
                    assert(eb[1 + bn + k] == vb[k]);
                }
            }
            lemma_value_round_trip(bytes, j2, value);
            assert(bytes.subrange(j2 + 2, j2 + 2 + pb.len()) =~= pb) by {
                assert forall|k: int| 0 <= k < pb.len() implies bytes.subrange(
                    j2 + 2,
                    j2 + 2 + pb.len(),
                )[k] == pb[k] by {
                    assert(bytes[i + (3 + bn + k)] == eb[3 + bn + k]);
                    assert(eb[3 + bn + k] == pb[k]);
                }
            }
            lemma_policy_round_trip(bytes, j2 + 2, policy);
            assert(dec_policy(bytes, j2 + 2) == Some((policy, i + eb.len())));
        },
    }
}

/// Delta and fallback correctness, end to end over the bytes the encoder
/// emits. When some candidate move reproduces the target, the entry is
/// relative and decodes back to the first such move — the one whose
/// candidate position is board-equal to the target, so replaying it on the
/// previous position reproduces the target. When no candidate matches, the
/// entry is absolute and decodes back to the whole target position,
/// whatever the previous position was. Value and policy come back unchanged
/// either way.
pub proof fn lemma_codec_round_trip(
    bytes: Seq<u8>,
    candidates: Seq<(GameMove, PositionV)>,
    target: PositionV,
    value: u16,
    policy: Seq<(GameMove, u16)>,
)
    requires
        wf_position(target),
        forall|k: int| 0 <= k < candidates.len() ==> valid_move((#[trigger] candidates[k]).0),
        forall|k: int| 0 <= k < policy.len() ==> valid_move((#[trigger] policy[k]).0),
        bytes == match delta_choice(candidates, target) {
            Some(k) => stream_entry_bytes(Some(candidates[k].0), target, value, policy),
            None => stream_entry_bytes(None, target, value, policy),
        },
    ensures
        match delta_choice(candidates, target) {
            Some(k) => {
                &&& position_eq(candidates[k].1, target)
                &&& forall|j: int| 0 <= j < k ==> !position_eq((#[trigger] candidates[j]).1, target)
                &&& dec_entry(bytes, 0, target.size) == Some(
                    (
                        EntryV {
                            action: Some(candidates[k].0),
                            state: None,
                            value,
                            policy,
                        },
                        bytes.len() as int,
                    ),
                )
            },
            None => {
                &&& forall|j: int|
                    0 <= j < candidates.len() ==> !position_eq(
                        (#[trigger] candidates[j]).1,
                        target,
                    )
                &&& dec_entry(bytes, 0, target.size) == Some(
                    (
                        EntryV { action: None, state: Some(target), value, policy },
                        bytes.len() as int,
                    ),
                )
            },
        },
{
    lemma_delta_choice(candidates, target);
    assert(bytes.subrange(0, bytes.len() as int) =~= bytes);
    match delta_choice(candidates, target) {
        Some(k) => {
            lemma_entry_round_trip(bytes, 0, Some(candidates[k].0), target, value, policy);
        },
        None => {
            lemma_entry_round_trip(bytes, 0, None, target, value, policy);
        },
    }
}

/// Encodes one entry. The delta predictor scans the candidate moves — each
/// legal move of the previous position paired with the position it yields —
/// and the first one board-equal to the target is written as a relative
/// entry; when none matches, the target is written whole as an absolute
/// entry.
pub fn encode_entry(
    candidates: &Vec<(GameMove, Position)>,
    target: &Position,
    value: u16,
    policy: &Vec<(GameMove, u16)>,
) -> (r: Vec<u8>)
    requires
        wf_position(target@),
        forall|k: int| 0 <= k < candidates@.len() ==> valid_move((#[trigger] candidates@[k]).0),
        forall|k: int| 0 <= k < policy@.len() ==> valid_move((#[trigger] policy@[k]).0),
    ensures
        match delta_choice(candidate_views(candidates@), target@) {
            Some(k) => r@ == stream_entry_bytes(Some(candidates@[k].0), target@, value, policy@),
            None => r@ == stream_entry_bytes(None, target@, value, policy@),
        },
{
    let mut out: Vec<u8> = Vec::new();
    let chosen = find_matching_action(candidates, target);
    match chosen {
        Some(m) => {
            proof {
                lemma_delta_choice(candidate_views(candidates@), target@);
            }
            write_action(&mut out, Some(&m));
            write_value(&mut out, value);
            write_policy(&mut out, policy);
            assert(out@ =~= stream_entry_bytes(Some(m), target@, value, policy@));
            out
        },
        None => {
            write_action(&mut out, None);
            let mut state_bytes = encode_state(target);
            out.append(&mut state_bytes);
            write_value(&mut out, value);
            write_policy(&mut out, policy);
            assert(out@ =~= stream_entry_bytes(None, target@, value, policy@));
            out
        },
    }
}

/// Decodes one entry at `*pos`, advancing `*pos` past it. A relative entry
/// carries its move; an absolute entry carries its whole position; the
/// caller replays a relative move on its current position. Succeeds exactly
/// where the byte-level decoder does.
pub fn decode_entry(bytes: &Vec<u8>, pos: &mut usize, size: u8) -> (r: Result<Entry, DecodeError>)
    requires
        3 <= size <= 8,
        *old(pos) <= bytes@.len(),
    ensures
        *old(pos) <= *final(pos) <= bytes@.len(),
        match dec_entry(bytes@, *old(pos) as int, size) {
            Some((ev, end)) => match r {
                Ok(e) => e@ == ev && end == *final(pos) as int && match ev.state {
                    Some(pv) => wf_position(pv),
                    None => true,
                },
                Err(_) => false,
            },
            None => r matches Err(_),
        },
{
    let a = match read_action(bytes, pos) {
        Ok(a) => a,
        Err(e) => {
            return Err(e);
        },
    };
    match a {
        Some(m) => {
            let value = match read_value(bytes, pos) {
                Ok(v) => v,
                Err(e) => {
                    return Err(e);
                },
            };
            let policy = match read_policy(bytes, pos) {
                Ok(p) => p,
                Err(e) => {
                    return Err(e);
                },
            };
            Ok(Entry { action: Some(m), state: None, value, policy })
        },
        None => {
            let ghost j = *pos as int;
            let state = match decode_state(bytes, pos, size) {
                Ok(p) => p,
                Err(e) => {
                    return Err(e);
                },
            };
            proof {
                match dec_state(stream_bits(bytes@), 8 * j, size) {
                    Some((pv, endbit)) => {
                        lemma_pos_of_end(endbit, *pos as int);
                    },
                    None => {
                        assert(false);
                    },
                }
            }
            let value = match read_value(bytes, pos) {
                Ok(v) => v,
                Err(e) => {
                    return Err(e);
                },
            };
            let policy = match read_policy(bytes, pos) {
                Ok(p) => p,
                Err(e) => {
                    return Err(e);
                },
            };
            Ok(Entry { action: None, state: Some(state), value, policy })
        },
    }
}

} // verus!
