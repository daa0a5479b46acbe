use vstd::prelude::*;
use crate::board::constants::SQS;
use crate::board::types::{Piece, Square};

verus! {

/// Number of network inputs: one per piece kind and square, and the side to move.
pub const INPUTS: usize = 364;

/// Width of the hidden layer.
pub const HIDDEN: usize = 256;

/// Quantisation factor of the first layer.
pub const QA: i32 = 1000;

/// Quantisation factor of the second layer.
pub const QB: i32 = 600;

/// Output scale.
pub const SCALE: i32 = 400;

/// The input that tells the side to move.
pub const STM_BIT: usize = 363;

/// First-layer weights, input-major: row `i` holds the `HIDDEN` weights of input `i`.
pub type Weights1 = Vec<i16>;

/// Second-layer weights, one per hidden unit.
pub type Weights2 = Vec<i16>;

/// A two-layer network whose hidden layer is kept up to date as inputs are
/// switched on and off.
pub struct NNUE {
    pub inputs: Vec<u8>,
    pub acc: Vec<i32>,
    pub w1: Weights1,
    pub w2: Weights2,
    pub eval: i32,
}

/// The weight of input `i` for hidden unit `h`.
pub open spec fn w1_at(w1: Seq<i16>, i: int, h: int) -> int {
    w1[i * HIDDEN + h] as int
}

/// The sum, over the active inputs below `k`, of their weights for hidden unit `h`.
pub open spec fn acc_sum(w1: Seq<i16>, inputs: Seq<u8>, h: int, k: int) -> int
    decreases k,
{
    if k <= 0 {
        0
    } else {
        acc_sum(w1, inputs, h, k - 1) + if inputs[k - 1] == 1 {
            w1_at(w1, k - 1, h)
        } else {
            0
        }
    }
}

/// The second layer over hidden units below `k`: rectified activations times weights.
pub open spec fn out_sum(acc: Seq<i32>, w2: Seq<i16>, k: int) -> int
    decreases k,
{
    if k <= 0 {
        0
    } else {
        out_sum(acc, w2, k - 1) + (if acc[k - 1] > 0 {
            acc[k - 1] as int
        } else {
            0
        }) * w2[k - 1]
    }
}

/// Division rounding towards zero.
pub open spec fn div_trunc(a: int, d: int) -> int {
    if a >= 0 {
        a / d
    } else {
        -((-a) / d)
    }
}

/// The network's output for a hidden layer, rescaled and taken as an `i32`.
pub open spec fn spec_evaluate(acc: Seq<i32>, w2: Seq<i16>) -> i32 {
    div_trunc(out_sum(acc, w2, HIDDEN as int) * SCALE, QA * QB) as i32
}

/// The input of `piece` on `square`.
pub open spec fn spec_nnue_index(piece: Piece, square: int) -> int {
    let k = match piece {
        Piece::ATTACKER => 0int,
        Piece::DEFENDER => 1int,
        _ => 2int,
    };
    k * SQS + square
}

proof fn lemma_acc_bound(w1: Seq<i16>, inputs: Seq<u8>, h: int, k: int)
    requires
        0 <= k <= INPUTS,
        0 <= h < HIDDEN,
        w1.len() == INPUTS * HIDDEN,
    ensures
        -32768 * k <= acc_sum(w1, inputs, h, k) <= 32767 * k,
    decreases k,
{
    if k > 0 {
        lemma_acc_bound(w1, inputs, h, k - 1);
    }
}

proof fn lemma_acc_update(w1: Seq<i16>, inputs: Seq<u8>, h: int, k: int, idx: int, v: u8)
    requires
        0 <= idx < inputs.len(),
        0 <= k <= inputs.len(),
    ensures
        acc_sum(w1, inputs.update(idx, v), h, k) == acc_sum(w1, inputs, h, k) + if idx < k {
            (if v == 1 {
                w1_at(w1, idx, h)
            } else {
                0
            }) - (if inputs[idx] == 1 {
                w1_at(w1, idx, h)
            } else {
                0
            })
        } else {
            0
        },
    decreases k,
{
    if k > 0 {
        lemma_acc_update(w1, inputs, h, k - 1, idx, v);
    }
}

proof fn lemma_out_bound(acc: Seq<i32>, w2: Seq<i16>, k: int)
    requires
        0 <= k <= acc.len(),
        k <= w2.len(),
        forall|h: int| 0 <= h < k ==> -32768 * INPUTS <= #[trigger] acc[h] <= 32767 * INPUTS,
    ensures
        -(k * 11927552 * 32768) <= out_sum(acc, w2, k) <= k * 11927552 * 32768,
    decreases k,
{
    if k > 0 {
        lemma_out_bound(acc, w2, k - 1);
        let a = if acc[k - 1] > 0 {
            acc[k - 1] as int
        } else {
            0
        };
        let w = w2[k - 1] as int;
        assert(-(11927552 * 32768) <= a * w <= 11927552 * 32768) by (nonlinear_arith)
            requires
                0 <= a <= 11927552,
                -32768 <= w <= 32767,
        ;
        assert((k - 1) * 11927552 * 32768 + 11927552 * 32768 == k * 11927552 * 32768) by (nonlinear_arith);
    }
}

impl NNUE {
    /// The inputs are flags, the hidden layer holds, for each unit, the sum of
    /// the weights of the active inputs, and the weights have their shapes.
    pub open spec fn wf(&self) -> bool {
        &&& self.inputs@.len() == INPUTS
        &&& self.acc@.len() == HIDDEN
        &&& self.w1@.len() == INPUTS * HIDDEN
        &&& self.w2@.len() == HIDDEN
        &&& forall|i: int| 0 <= i < INPUTS ==> #[trigger] self.inputs@[i] <= 1
        &&& forall|h: int|
            0 <= h < HIDDEN ==> #[trigger] self.acc@[h] == acc_sum(self.w1@, self.inputs@, h, INPUTS as int)
    }

    /// A network with every input off.
    pub fn new(w1: Weights1, w2: Weights2) -> (nn: Self)
        requires
            w1@.len() == INPUTS * HIDDEN,
            w2@.len() == HIDDEN,
        ensures
            nn.wf(),
            nn.w1 == w1,
            nn.w2 == w2,
            nn.eval == 0,
            forall|i: int| 0 <= i < INPUTS ==> #[trigger] nn.inputs@[i] == 0,
    {
        let (inputs, acc) = Self::zeroed();
        let nn = NNUE { inputs, acc, w1, w2, eval: 0 };
        proof {
            assert forall|h: int| 0 <= h < HIDDEN implies #[trigger] nn.acc@[h] == acc_sum(
                nn.w1@,
                nn.inputs@,
                h,
                INPUTS as int,
            ) by {
                Self::lemma_all_off(nn.w1@, nn.inputs@, h, INPUTS as int);
            }
        }
        nn
    }

    fn zeroed() -> (r: (Vec<u8>, Vec<i32>))
        ensures
            r.0@.len() == INPUTS,
            r.1@.len() == HIDDEN,
            forall|i: int| 0 <= i < INPUTS ==> #[trigger] r.0@[i] == 0,
            forall|h: int| 0 <= h < HIDDEN ==> #[trigger] r.1@[h] == 0,
    {
        let mut inputs: Vec<u8> = Vec::new();
        let mut i: usize = 0;
        while i < INPUTS
            invariant
                i <= INPUTS,
                inputs@.len() == i,
                forall|k: int| 0 <= k < i ==> #[trigger] inputs@[k] == 0,
            decreases INPUTS - i,
        {
            inputs.push(0);
            i += 1;
        }
        let mut acc: Vec<i32> = Vec::new();
        let mut h: usize = 0;
        while h < HIDDEN
            invariant
                h <= HIDDEN,
                acc@.len() == h,
                forall|k: int| 0 <= k < h ==> #[trigger] acc@[k] == 0,
            decreases HIDDEN - h,
        {
            acc.push(0);
            h += 1;
        }
        (inputs, acc)
    }

    proof fn lemma_all_off(w1: Seq<i16>, inputs: Seq<u8>, h: int, k: int)
        requires
            0 <= k <= inputs.len(),
            forall|i: int| 0 <= i < inputs.len() ==> #[trigger] inputs[i] == 0,
        ensures
            acc_sum(w1, inputs, h, k) == 0,
        decreases k,
    {
        if k > 0 {
            Self::lemma_all_off(w1, inputs, h, k - 1);
        }
    }

    /// Switches every input off.
    pub fn reset(&mut self)
        requires
            old(self).wf(),
        ensures
            final(self).wf(),
            final(self).w1 == old(self).w1,
            final(self).w2 == old(self).w2,
            final(self).eval == 0,
            forall|i: int| 0 <= i < INPUTS ==> #[trigger] final(self).inputs@[i] == 0,
    {
        let (inputs, acc) = Self::zeroed();
        self.inputs = inputs;
        self.acc = acc;
        self.eval = 0;
        proof {
            assert forall|h: int| 0 <= h < HIDDEN implies #[trigger] self.acc@[h] == acc_sum(
                self.w1@,
                self.inputs@,
                h,
                INPUTS as int,
            ) by {
                Self::lemma_all_off(self.w1@, self.inputs@, h, INPUTS as int);
            }
        }
    }

    /// Switches every input off.
    pub fn clear(&mut self)
        requires
            old(self).wf(),
        ensures
            final(self).wf(),
            final(self).w1 == old(self).w1,
            final(self).w2 == old(self).w2,
            final(self).eval == 0,
            forall|i: int| 0 <= i < INPUTS ==> #[trigger] final(self).inputs@[i] == 0,
    {
        self.reset();
    }

    /// Switches input `idx` on and adds its weights to the hidden layer.
    pub fn set_input(&mut self, idx: usize)
        requires
            old(self).wf(),
            idx < INPUTS,
        ensures
            final(self).wf(),
            final(self).inputs@ == old(self).inputs@.update(idx as int, 1u8),
            final(self).w1 == old(self).w1,
            final(self).w2 == old(self).w2,
            final(self).eval == old(self).eval,
    {
        self.switch_input(idx, 1);
    }

    /// Switches input `idx` off and takes its weights off the hidden layer.
    pub fn reset_input(&mut self, idx: usize)
        requires
            old(self).wf(),
            idx < INPUTS,
        ensures
            final(self).wf(),
            final(self).inputs@ == old(self).inputs@.update(idx as int, 0u8),
            final(self).w1 == old(self).w1,
            final(self).w2 == old(self).w2,
            final(self).eval == old(self).eval,
    {
        self.switch_input(idx, 0);
    }

    fn switch_input(&mut self, idx: usize, v: u8)
        requires
            old(self).wf(),
            idx < INPUTS,
            v <= 1,
        ensures
            final(self).wf(),
            final(self).inputs@ == old(self).inputs@.update(idx as int, v),
            final(self).w1 == old(self).w1,
            final(self).w2 == old(self).w2,
            final(self).eval == old(self).eval,
    {
        if self.inputs[idx] == v {
            proof {
                assert(self.inputs@ =~= self.inputs@.update(idx as int, v));
            }
            return;
        }
        let ghost before = self.inputs@;
        self.inputs.set(idx, v);
        let start = idx * HIDDEN;
        let mut h: usize = 0;
        while h < HIDDEN
            invariant
                self.inputs@ == before.update(idx as int, v),
                before.len() == INPUTS,
                before[idx as int] != v,
                forall|i: int| 0 <= i < INPUTS ==> #[trigger] before[i] <= 1,
                forall|i: int| 0 <= i < INPUTS ==> #[trigger] self.inputs@[i] <= 1,
                self.acc@.len() == HIDDEN,
                self.w1@.len() == INPUTS * HIDDEN,
                self.w2@.len() == HIDDEN,
                start == idx * HIDDEN,
                idx < INPUTS,
                v <= 1,
                h <= HIDDEN,
                forall|k: int| 0 <= k < h ==> #[trigger] self.acc@[k] == acc_sum(self.w1@, self.inputs@, k, INPUTS as int),
                forall|k: int| h <= k < HIDDEN ==> #[trigger] self.acc@[k] == acc_sum(self.w1@, before, k, INPUTS as int),
                self.w1 == old(self).w1,
                self.w2 == old(self).w2,
                self.eval == old(self).eval,
            decreases HIDDEN - h,
        {
            proof {
                lemma_acc_update(self.w1@, before, h as int, INPUTS as int, idx as int, v);
                lemma_acc_bound(self.w1@, before, h as int, INPUTS as int);
                lemma_acc_bound(self.w1@, self.inputs@, h as int, INPUTS as int);
                assert(idx * HIDDEN + h < INPUTS * HIDDEN) by (nonlinear_arith)
                    requires
                        idx < INPUTS,
                        h < HIDDEN,
                ;
            }
            let w = self.w1[start + h] as i32;
            let a = self.acc[h];
            proof {
                assert(w == w1_at(self.w1@, idx as int, h as int));
                assert(a == acc_sum(self.w1@, before, h as int, INPUTS as int));
            }
            if v == 1 {
                self.acc.set(h, a + w);
            } else {
                self.acc.set(h, a - w);
            }
            proof {
                assert(self.acc@[h as int] == acc_sum(self.w1@, self.inputs@, h as int, INPUTS as int));
            }
            h += 1;
        }
    }

    /// The network's output from its hidden layer.
    pub fn evaluate(&self) -> (r: i32)
        requires
            self.wf(),
        ensures
            r == spec_evaluate(self.acc@, self.w2@),
    {
        proof {
            assert forall|h: int| 0 <= h < HIDDEN implies -32768 * INPUTS <= #[trigger] self.acc@[h] <= 32767 * INPUTS by {
                lemma_acc_bound(self.w1@, self.inputs@, h, INPUTS as int);
            }
        }
        let mut sum: i64 = 0;
        let mut h: usize = 0;
        while h < HIDDEN
            invariant
                self.wf(),
                h <= HIDDEN,
                forall|k: int| 0 <= k < HIDDEN ==> -32768 * INPUTS <= #[trigger] self.acc@[k] <= 32767 * INPUTS,
                sum == out_sum(self.acc@, self.w2@, h as int),
            decreases HIDDEN - h,
        {
            proof {
                lemma_out_bound(self.acc@, self.w2@, h as int + 1);
                lemma_out_bound(self.acc@, self.w2@, h as int);
            }
            let a = self.acc[h];
            let x: i64 = if a > 0 {
                a as i64
            } else {
                0
            };
            let w = self.w2[h] as i64;
            proof {
                assert(-(11927552 * 32768) <= x * w <= 11927552 * 32768) by (nonlinear_arith)
                    requires
                        0 <= x <= 11927552,
                        -32768 <= w <= 32767,
                ;
            }
            sum = sum + x * w;
            h += 1;
        }
        proof {
            lemma_out_bound(self.acc@, self.w2@, HIDDEN as int);
            assert(-(256 * 11927552 * 32768) <= sum <= 256 * 11927552 * 32768);
            assert(-(256 * 11927552 * 32768 * 400) <= sum * 400 <= 256 * 11927552 * 32768 * 400) by (nonlinear_arith)
                requires
                    -(256 * 11927552 * 32768) <= sum <= 256 * 11927552 * 32768,
            ;
        }
        let scaled = sum * (SCALE as i64);
        let d: i64 = (QA as i64) * (QB as i64);
        let q: i64 = if scaled >= 0 {
            scaled / d
        } else {
            -((-scaled) / d)
        };
        q as i32
    }
}

/// Switching an input on and then off again gives the network back as it
/// was: the same inputs, the same hidden layer and so the same output.
pub proof fn lemma_set_then_reset_restores(a: NNUE, b: NNUE, c: NNUE, idx: int)
    requires
        a.wf(),
        b.wf(),
        c.wf(),
        0 <= idx < INPUTS,
        a.inputs@[idx] == 0,
        b.inputs@ == a.inputs@.update(idx, 1u8),
        b.w1 == a.w1,
        b.w2 == a.w2,
        c.inputs@ == b.inputs@.update(idx, 0u8),
        c.w1 == b.w1,
        c.w2 == b.w2,
    ensures
        c.inputs@ == a.inputs@,
        c.acc@ == a.acc@,
        spec_evaluate(c.acc@, c.w2@) == spec_evaluate(a.acc@, a.w2@),
{
    assert(c.inputs@ =~= a.inputs@);
    assert forall|h: int| 0 <= h < HIDDEN implies c.acc@[h] == a.acc@[h] by {
        assert(c.acc@[h] == acc_sum(c.w1@, c.inputs@, h, INPUTS as int));
        assert(a.acc@[h] == acc_sum(a.w1@, a.inputs@, h, INPUTS as int));
    }
    assert(c.acc@ =~= a.acc@);
}

/// The input that stands for `piece` on `square`.
pub fn calculate_nnue_index(piece: Piece, square: Square) -> (r: usize)
    requires
        piece != Piece::EMPTY,
        square < SQS,
    ensures
        r == spec_nnue_index(piece, square as int),
{
    let k: usize = match piece {
        Piece::ATTACKER => 0,
        Piece::DEFENDER => 1,
        _ => 2,
    };
    k * SQS + square
}

/// First-layer weights given hidden unit by hidden unit, laid out input by
/// input as the accumulator reads them: entry `h * INPUTS + i` moves to
/// `i * HIDDEN + h`.
pub fn fc1_input_major(hidden_major: &Vec<i16>) -> (out: Weights1)
    requires
        hidden_major@.len() == INPUTS * HIDDEN,
    ensures
        out@.len() == INPUTS * HIDDEN,
        forall|i: int, h: int|
            0 <= i < INPUTS && 0 <= h < HIDDEN ==> #[trigger] out@[i * HIDDEN + h] == hidden_major@[h * INPUTS + i],
{
    let mut out: Vec<i16> = Vec::new();
    let mut i: usize = 0;
    while i < INPUTS
        invariant
            hidden_major@.len() == INPUTS * HIDDEN,
            i <= INPUTS,
            out@.len() == i * HIDDEN,
            forall|a: int, b: int|
                0 <= a < i && 0 <= b < HIDDEN ==> #[trigger] out@[a * HIDDEN + b] == hidden_major@[b * INPUTS + a],
        decreases INPUTS - i,
    {
        let mut h: usize = 0;
        while h < HIDDEN
            invariant
                hidden_major@.len() == INPUTS * HIDDEN,
                i < INPUTS,
                h <= HIDDEN,
                out@.len() == i * HIDDEN + h,
                forall|a: int, b: int|
                    0 <= a < i && 0 <= b < HIDDEN ==> #[trigger] out@[a * HIDDEN + b] == hidden_major@[b * INPUTS + a],
                forall|b: int| 0 <= b < h ==> #[trigger] out@[i * HIDDEN + b] == hidden_major@[b * INPUTS + i],
            decreases HIDDEN - h,
        {
            proof {
                assert(h * INPUTS + i < INPUTS * HIDDEN) by (nonlinear_arith)
                    requires
                        h < HIDDEN,
                        i < INPUTS,
                ;
            }
            let w = hidden_major[h * INPUTS + i];
            let ghost before = out@;
            out.push(w);
            proof {
                assert forall|a: int, b: int|
                    0 <= a < i && 0 <= b < HIDDEN implies #[trigger] out@[a * HIDDEN + b] == hidden_major@[b * INPUTS
                    + a] by {
                    assert(a * HIDDEN + b < i * HIDDEN) by (nonlinear_arith)
                        requires
                            a < i,
                            b < HIDDEN,
                    ;
                    assert(out@[a * HIDDEN + b] == before[a * HIDDEN + b]);
                }
            }
            h += 1;
        }
        proof {
            assert((i + 1) * HIDDEN == i * HIDDEN + HIDDEN) by (nonlinear_arith);
        }
        i += 1;
    }
    out
}

} // verus!
