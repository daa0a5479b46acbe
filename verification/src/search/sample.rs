use vstd::prelude::*;
use crate::board::position_export::BitPosition;
use crate::board::types::Side;
use crate::utils::bits::{bit8, lemma_bit8_or_single, lemma_bit8_zero};

verus! {

/// Slots of the policy head on the largest board: 121 origins, four
/// directions, ten distances.
pub const ACTIONS: usize = 4840;

/// Bytes of a legal-move mask: one bit per policy slot.
pub const LEGAL_MASK_BYTES: usize = 605;

/// Flag bit: the policy target comes from a full search.
pub const FLAG_POLICY_VALID: u8 = 1;

/// Flag bit: the sample is the last move of its game.
pub const FLAG_LAST_OF_GAME: u8 = 2;

/// The corner value of a game that did not end by a corner escape.
pub const KING_CORNER_NONE: u8 = 255;

/// Which corner of the 11x11 board the king stands on: 0 for a1, 1 for k1,
/// 2 for a11, 3 for k11, `KING_CORNER_NONE` elsewhere.
pub fn king_corner_index(king_sq: isize) -> (r: u8)
    ensures
        r == (if king_sq == 0 {
            0u8
        } else if king_sq == 10 {
            1u8
        } else if king_sq == 110 {
            2u8
        } else if king_sq == 120 {
            3u8
        } else {
            KING_CORNER_NONE
        }),
{
    if king_sq == 0 {
        0
    } else if king_sq == 10 {
        1
    } else if king_sq == 110 {
        2
    } else if king_sq == 120 {
        3
    } else {
        KING_CORNER_NONE
    }
}

/// Bit `i` of a byte string, least significant bit of each byte first.
pub open spec fn mask_bit(data: Seq<u8>, i: int) -> bool {
    bit8(data[i / 8], i % 8)
}

/// The policy slots that are legal moves, one bit each.
pub struct LegalMask {
    pub data: Vec<u8>,
}

impl LegalMask {
    pub open spec fn wf(&self) -> bool {
        self.data@.len() == LEGAL_MASK_BYTES
    }

    /// Whether slot `i` is marked.
    pub open spec fn marked(&self, i: int) -> bool {
        mask_bit(self.data@, i)
    }

    pub fn new() -> (m: Self)
        ensures
            m.wf(),
            forall|i: int| 0 <= i < ACTIONS ==> !#[trigger] m.marked(i),
    {
        let mut data: Vec<u8> = Vec::new();
        let mut k: usize = 0;
        while k < LEGAL_MASK_BYTES
            invariant
                k <= LEGAL_MASK_BYTES,
                data@.len() == k,
                forall|j: int| 0 <= j < k ==> #[trigger] data@[j] == 0u8,
            decreases LEGAL_MASK_BYTES - k,
        {
            data.push(0);
            k += 1;
        }
        let m = LegalMask { data };
        proof {
            assert forall|i: int| 0 <= i < ACTIONS implies !#[trigger] m.marked(i) by {
                lemma_bit8_zero(i % 8);
            }
        }
        m
    }

    /// Unmarks every slot.
    pub fn clear(&mut self)
        requires
            old(self).wf(),
        ensures
            final(self).wf(),
            forall|i: int| 0 <= i < ACTIONS ==> !#[trigger] final(self).marked(i),
    {
        let mut k: usize = 0;
        while k < LEGAL_MASK_BYTES
            invariant
                k <= LEGAL_MASK_BYTES,
                self.data@.len() == LEGAL_MASK_BYTES,
                forall|j: int| 0 <= j < k ==> #[trigger] self.data@[j] == 0u8,
            decreases LEGAL_MASK_BYTES - k,
        {
            self.data.set(k, 0);
            k += 1;
        }
        proof {
            assert forall|i: int| 0 <= i < ACTIONS implies !#[trigger] self.marked(i) by {
                lemma_bit8_zero(i % 8);
            }
        }
    }

    /// Marks slot `action_index`; every other slot keeps its mark.
    pub fn set(&mut self, action_index: usize)
        requires
            old(self).wf(),
            action_index < ACTIONS,
        ensures
            final(self).wf(),
            final(self).marked(action_index as int),
            forall|i: int| 0 <= i < ACTIONS && i != action_index ==> #[trigger] final(self).marked(i) == old(self).marked(i),
    {
        let byte = action_index / 8;
        let bit = (action_index % 8) as u8;
        let v = self.data[byte] | (1u8 << bit);
        let ghost before = self.data@;
        self.data.set(byte, v);
        proof {
            lemma_bit8_or_single(before[byte as int], bit, bit);
            assert forall|i: int| 0 <= i < ACTIONS && i != action_index implies #[trigger] self.marked(i) == old(self).marked(i) by {
                if i / 8 == byte as int {
                    lemma_bit8_or_single(before[byte as int], bit, (i % 8) as u8);
                    assert(i % 8 != bit as int) by (nonlinear_arith)
                        requires
                            i / 8 == action_index / 8,
                            bit == action_index % 8,
                            i != action_index,
                            0 <= i,
                    ;
                }
            }
        }
    }

    /// Whether slot `action_index` is marked.
    pub fn is_set(&self, action_index: usize) -> (b: bool)
        requires
            self.wf(),
            action_index < ACTIONS,
        ensures
            b == self.marked(action_index as int),
    {
        let byte = action_index / 8;
        let bit = (action_index % 8) as u8;
        (self.data[byte] >> bit) & 1u8 == 1u8
    }

    /// The mask as stored.
    pub fn as_bytes(&self) -> (b: &[u8])
        ensures
            b@ == self.data@,
    {
        self.data.as_slice()
    }
}

/// One visited move of the search and how often it was visited.
#[derive(Clone, Copy, Debug, PartialEq, Eq, Structural)]
pub struct PolicyTarget {
    pub move_index: u16,
    pub visits: u16,
}

/// A training sample waiting for its game's result.
pub struct PendingSample {
    pub bit_position: BitPosition,
    pub legal_mask: LegalMask,
    pub policy: Vec<PolicyTarget>,
    pub value: i8,
    pub root_q: i8,
    pub flags: u8,
    pub king_corner: u8,
}

/// The value target: 1 when the side to move won, -1 when it lost, 0 for
/// no result.
pub open spec fn spec_value(stm: Side, result: Option<Side>) -> i8 {
    match result {
        None => 0i8,
        Some(w) => if w == stm {
            1i8
        } else {
            -1i8
        },
    }
}

fn compute_value(side_to_move: Side, result: Option<Side>) -> (v: i8)
    ensures
        v == spec_value(side_to_move, result),
{
    match result {
        None => 0,
        Some(winner) => {
            if winner == side_to_move {
                1
            } else {
                -1
            }
        },
    }
}

/// The bytes of a `u16`, least significant first.
pub open spec fn le16(x: u16) -> Seq<u8> {
    seq![(x % 256) as u8, (x / 256) as u8]
}

pub open spec fn policy_bytes(p: Seq<PolicyTarget>) -> Seq<u8>
    decreases p.len(),
{
    if p.len() == 0 {
        Seq::empty()
    } else {
        policy_bytes(p.drop_last()) + le16(p.last().move_index) + le16(p.last().visits)
    }
}

fn push_le16(out: &mut Vec<u8>, x: u16)
    ensures
        final(out)@ == old(out)@ + le16(x),
{
    out.push((x % 256) as u8);
    out.push((x / 256) as u8);
    proof {
        assert(final(out)@ =~= old(out)@ + le16(x));
    }
}

impl PendingSample {
    pub open spec fn wf(&self) -> bool {
        &&& self.bit_position.wf()
        &&& self.legal_mask.wf()
        &&& self.policy@.len() < 65536
    }

    /// A sample from a packed position, its legal moves and the visit
    /// counts of the searched moves, with a full-search policy and no corner.
    pub fn from_manual(
        bit_position: BitPosition,
        legal_mask: LegalMask,
        policy: Vec<(u16, u16)>,
        value: i8,
        root_q: i8,
    ) -> (s: Self)
        ensures
            s.bit_position == bit_position,
            s.legal_mask == legal_mask,
            s.policy@.len() == policy@.len(),
            forall|i: int|
                0 <= i < policy@.len() ==> (#[trigger] s.policy@[i]).move_index == policy@[i].0 && s.policy@[i].visits
                    == policy@[i].1,
            s.value == value,
            s.root_q == root_q,
            s.flags == FLAG_POLICY_VALID,
            s.king_corner == KING_CORNER_NONE,
    {
        let mut targets: Vec<PolicyTarget> = Vec::new();
        let mut i: usize = 0;
        while i < policy.len()
            invariant
                i <= policy@.len(),
                targets@.len() == i,
                forall|k: int|
                    0 <= k < i ==> (#[trigger] targets@[k]).move_index == policy@[k].0 && targets@[k].visits
                        == policy@[k].1,
            decreases policy@.len() - i,
        {
            let (move_index, visits) = policy[i];
            targets.push(PolicyTarget { move_index, visits });
            i += 1;
        }
        PendingSample {
            bit_position,
            legal_mask,
            policy: targets,
            value,
            root_q,
            flags: FLAG_POLICY_VALID,
            king_corner: KING_CORNER_NONE,
        }
    }

    /// The record as stored: position, legal mask, policy length and
    /// targets (little endian), value, root value, flags, corner.
    pub open spec fn record(&self) -> Seq<u8> {
        self.bit_position.planes@.push(self.bit_position.stm).push(self.bit_position.rep) + self.legal_mask.data@
            + le16(self.policy@.len() as u16) + policy_bytes(self.policy@) + seq![
            self.value as u8,
            self.root_q as u8,
            self.flags,
            self.king_corner,
        ]
    }

    /// The record as stored, as one block of bytes.
    pub fn to_bytes(&self) -> (b: Vec<u8>)
        requires
            self.wf(),
        ensures
            b@ == self.record(),
    {
        let mut buf = self.bit_position.as_bytes();
        let mask = self.legal_mask.as_bytes();
        let ghost start = buf@;
        let mut i: usize = 0;
        while i < mask.len()
            invariant
                i <= mask@.len(),
                buf@ == start + mask@.subrange(0, i as int),
            decreases mask@.len() - i,
        {
            buf.push(mask[i]);
            proof {
                assert(mask@.subrange(0, i + 1) =~= mask@.subrange(0, i as int).push(mask@[i as int]));
            }
            i += 1;
        }
        proof {
            assert(mask@.subrange(0, mask@.len() as int) =~= mask@);
        }
        push_le16(&mut buf, self.policy.len() as u16);
        let ghost head = buf@;
        let mut k: usize = 0;
        while k < self.policy.len()
            invariant
                k <= self.policy@.len(),
                buf@ == head + policy_bytes(self.policy@.subrange(0, k as int)),
            decreases self.policy@.len() - k,
        {
            let t = self.policy[k];
            push_le16(&mut buf, t.move_index);
            push_le16(&mut buf, t.visits);
            proof {
                let pre = self.policy@.subrange(0, k as int);
                assert(self.policy@.subrange(0, k + 1).drop_last() =~= pre);
                assert(buf@ =~= head + policy_bytes(self.policy@.subrange(0, k + 1)));
            }
            k += 1;
        }
        proof {
            assert(self.policy@.subrange(0, self.policy@.len() as int) =~= self.policy@);
        }
        buf.push(self.value as u8);
        buf.push(self.root_q as u8);
        buf.push(self.flags);
        buf.push(self.king_corner);
        proof {
            assert(buf@ =~= self.bit_position.planes@.push(self.bit_position.stm).push(self.bit_position.rep)
                + self.legal_mask.data@ + le16(self.policy@.len() as u16) + policy_bytes(self.policy@) + seq![
                self.value as u8,
                self.root_q as u8,
                self.flags,
                self.king_corner,
            ]);
        }
        buf
    }

    /// Appends the record to `out` in one block.
    pub fn write_to(&self, out: &mut Vec<u8>)
        requires
            self.wf(),
        ensures
            final(out)@ == old(out)@ + self.record(),
    {
        let buf = self.to_bytes();
        let ghost start = out@;
        let mut i: usize = 0;
        while i < buf.len()
            invariant
                i <= buf@.len(),
                out@ == start + buf@.subrange(0, i as int),
            decreases buf@.len() - i,
        {
            out.push(buf[i]);
            proof {
                assert(buf@.subrange(0, i + 1) =~= buf@.subrange(0, i as int).push(buf@[i as int]));
            }
            i += 1;
        }
        proof {
            assert(buf@.subrange(0, i as int) =~= buf@);
        }
    }

    /// Sets the value target from the game's result, for the side to move
    /// of the packed position.
    pub fn set_value_from_result(&mut self, result: Option<Side>)
        ensures
            final(self).value == spec_value(
                if old(self).bit_position.stm == 0 {
                    Side::ATTACKERS
                } else {
                    Side::DEFENDERS
                },
                result,
            ),
            *final(self) == (PendingSample { value: final(self).value, ..*old(self) }),
    {
        let stm_side = if self.bit_position.stm == 0 {
            Side::ATTACKERS
        } else {
            Side::DEFENDERS
        };
        self.value = compute_value(stm_side, result);
    }

    pub fn set_policy_valid(&mut self, valid: bool)
        ensures
            final(self).flags == (if valid {
                old(self).flags | FLAG_POLICY_VALID
            } else {
                old(self).flags & !FLAG_POLICY_VALID
            }),
            *final(self) == (PendingSample { flags: final(self).flags, ..*old(self) }),
    {
        if valid {
            self.flags = self.flags | FLAG_POLICY_VALID;
        } else {
            self.flags = self.flags & !FLAG_POLICY_VALID;
        }
    }

    pub fn set_last_of_game(&mut self)
        ensures
            final(self).flags == old(self).flags | FLAG_LAST_OF_GAME,
            *final(self) == (PendingSample { flags: final(self).flags, ..*old(self) }),
    {
        self.flags = self.flags | FLAG_LAST_OF_GAME;
    }

    pub fn set_king_corner(&mut self, corner: u8)
        ensures
            *final(self) == (PendingSample { king_corner: corner, ..*old(self) }),
    {
        self.king_corner = corner;
    }

    pub fn bit_position(&self) -> (b: &BitPosition)
        ensures
            b == &self.bit_position,
    {
        &self.bit_position
    }
}

} // verus!
