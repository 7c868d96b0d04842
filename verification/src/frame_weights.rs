//! What the frames of a chunk weigh for a beam, and the context that it gathers from them.
//!
//! Numbers are binary32 numbers, given by their bits. The arithmetic is handed in as functions;
//! which numbers meet, and in which order they are added up, is stated here.

use vstd::prelude::*;
use vstd::slice::slice_subrange;

use crate::attention;
use crate::attention::{copy_values, BeamContext, BeamMemory, ChunkValues};
use crate::kernels;
use crate::kernels::{fold_strided, offset};
use crate::normalization;
use crate::normalization::gather_all;

verus! {

/// How many sums of a product are kept side by side.
pub const DOT_LANES: usize = 4;

/// The arithmetic of frames: `bend` and `bend_stop` of a sum of two or three numbers, `take` of a
/// sum and two factors, `plus`, `mask` of a logit, `weigh` of a weight by a logit, `decay` of a
/// product by what is stopped, `hold` of a weight by a product, and `spend` of what is not held.
pub struct FrameArithmetic<B, S, F, P, M, W, D, H, G> {
    pub bend: B,
    pub bend_stop: S,
    pub take: F,
    pub plus: P,
    pub mask: M,
    pub weigh: W,
    pub decay: D,
    pub hold: H,
    pub spend: G,
}

/// The frames that a beam looks at, its queries, and the weights of the channels.
pub struct FrameRows<'a> {
    pub at_h: &'a [u32],
    pub chunk_at_h: &'a [u32],
    pub enc_mem_h: &'a [u32],
    pub conformer_mask: &'a [u32],
    pub query: &'a [u32],
    pub query_stop: &'a [u32],
    pub weight_at_v: &'a [u32],
    pub weight_at_v_stop: &'a [u32],
}

/// The content of the rows.
#[verifier::ext_equal]
pub struct Rows {
    pub at_h: Seq<u32>,
    pub chunk_at_h: Seq<u32>,
    pub enc_mem_h: Seq<u32>,
    pub conformer_mask: Seq<u32>,
    pub query: Seq<u32>,
    pub query_stop: Seq<u32>,
    pub weight_at_v: Seq<u32>,
    pub weight_at_v_stop: Seq<u32>,
}

impl View for FrameRows<'_> {
    type V = Rows;

    open spec fn view(&self) -> Rows {
        Rows {
            at_h: self.at_h@,
            chunk_at_h: self.chunk_at_h@,
            enc_mem_h: self.enc_mem_h@,
            conformer_mask: self.conformer_mask@,
            query: self.query@,
            query_stop: self.query_stop@,
            weight_at_v: self.weight_at_v@,
            weight_at_v_stop: self.weight_at_v_stop@,
        }
    }
}

impl Rows {
    /// All rows are as wide as the weights, and there is a row for each frame.
    pub open spec fn wf(self) -> bool {
        let hidden = self.weight_at_v.len();
        let frames = self.conformer_mask.len();
        &&& self.weight_at_v_stop.len() == hidden
        &&& self.query.len() == hidden
        &&& self.query_stop.len() == hidden
        &&& self.at_h.len() == frames * hidden
        &&& self.chunk_at_h.len() == frames * hidden
        &&& self.enc_mem_h.len() == frames * hidden
    }
}

/// How many of `count` channels fall into a lane.
pub open spec fn lane_length(count: int, lane: int) -> int {
    (count - lane + DOT_LANES - 1) / DOT_LANES as int
}

/// The sum of one lane of a product.
pub open spec fn lane_dot<F: Fn(u32, u32, u32) -> u32>(
    take: F,
    values: Seq<u32>,
    weights: Seq<u32>,
    lane: int,
    result: u32,
) -> bool {
    kernels::folds(
        take,
        kernels::strided(
            values,
            lane,
            DOT_LANES as int,
            weights,
            lane,
            DOT_LANES as int,
            lane_length(weights.len() as int, lane),
        ),
        0,
        result,
    )
}

/// The product of values with weights: each lane is added to those before it.
pub open spec fn dot<F: Fn(u32, u32, u32) -> u32, P: Fn(u32, u32) -> u32>(
    take: F,
    plus: P,
    values: Seq<u32>,
    weights: Seq<u32>,
    result: u32,
) -> bool {
    exists|sums: (u32, u32, u32, u32), first: u32, second: u32|
        {
            &&& lane_dot(take, values, weights, 0, sums.0)
            &&& lane_dot(take, values, weights, 1, sums.1)
            &&& lane_dot(take, values, weights, 2, sums.2)
            &&& lane_dot(take, values, weights, 3, sums.3)
            &&& #[trigger] call_ensures(plus, (sums.1, sums.0), first)
            &&& #[trigger] call_ensures(plus, (sums.2, first), second)
            &&& #[trigger] call_ensures(plus, (sums.3, second), result)
        }
}

/// Multiplies values with weights.
pub fn dot_float32<F: Fn(u32, u32, u32) -> u32, P: Fn(u32, u32) -> u32>(
    take: &F,
    plus: &P,
    values: &[u32],
    weights: &[u32],
) -> (result: u32)
    requires
        forall|sum: u32, value: u32, weight: u32| call_requires(*take, (sum, value, weight)),
        forall|one: u32, other: u32| call_requires(*plus, (one, other)),
        values@.len() == weights@.len(),
    ensures
        dot(*take, *plus, values@, weights@, result),
{
    let count: usize = weights.len();
    let whole: usize = count / 4;
    let rest: usize = count % 4;
    let zeroth: usize = whole + if rest > 0 { 1usize } else { 0 };
    let first: usize = whole + if rest > 1 { 1usize } else { 0 };
    let second: usize = whole + if rest > 2 { 1usize } else { 0 };
    let sums: (u32, u32, u32, u32) = (
        fold_strided(take, 0u32, values, 0, DOT_LANES, weights, 0, DOT_LANES, zeroth),
        fold_strided(take, 0u32, values, 1, DOT_LANES, weights, 1, DOT_LANES, first),
        fold_strided(take, 0u32, values, 2, DOT_LANES, weights, 2, DOT_LANES, second),
        fold_strided(take, 0u32, values, 3, DOT_LANES, weights, 3, DOT_LANES, whole),
    );
    let one: u32 = plus(sums.1, sums.0);
    let two: u32 = plus(sums.2, one);
    plus(sums.3, two)
}

/// What is chosen of a frame.
pub open spec fn chooses<
    B: Fn(u32, u32) -> u32,
    F: Fn(u32, u32, u32) -> u32,
    P: Fn(u32, u32) -> u32,
    M: Fn(u32, u32) -> u32,
    W: Fn(u32, u32) -> u32,
>(
    bend: B,
    take: F,
    plus: P,
    mask: M,
    weigh: W,
    rows: Rows,
    position: int,
    alpha: u32,
    choose: u32,
) -> bool {
    let hidden = rows.weight_at_v.len() as int;
    exists|bent: Seq<u32>, logit: u32, masked: u32|
        {
            &&& bent.len() == hidden
            &&& forall|channel: int|
                0 <= channel < hidden ==> call_ensures(
                    bend,
                    (
                        rows.at_h[kernels::cell(position, channel, hidden)],
                        rows.query[channel],
                    ),
                    #[trigger] bent[channel],
                )
            &&& #[trigger] dot(take, plus, bent, rows.weight_at_v, logit)
            &&& #[trigger] call_ensures(mask, (logit, rows.conformer_mask[position]), masked)
            &&& call_ensures(weigh, (alpha, masked), choose)
        }
}

/// What is stopped at a frame.
pub open spec fn stops<
    S: Fn(u32, u32, u32) -> u32,
    F: Fn(u32, u32, u32) -> u32,
    P: Fn(u32, u32) -> u32,
    W: Fn(u32, u32) -> u32,
>(
    bend_stop: S,
    take: F,
    plus: P,
    weigh: W,
    rows: Rows,
    position: int,
    prefix: Seq<u32>,
    alpha: u32,
    stop: u32,
) -> bool {
    let hidden = rows.weight_at_v.len() as int;
    exists|bent: Seq<u32>, logit: u32|
        {
            &&& bent.len() == hidden
            &&& forall|channel: int|
                0 <= channel < hidden ==> call_ensures(
                    bend_stop,
                    (
                        prefix[channel],
                        rows.query_stop[channel],
                        rows.chunk_at_h[kernels::cell(position, channel, hidden)],
                    ),
                    #[trigger] bent[channel],
                )
            &&& #[trigger] dot(take, plus, bent, rows.weight_at_v_stop, logit)
            &&& call_ensures(weigh, (alpha, logit), stop)
        }
}

/// What was chosen so far, after one more frame.
pub open spec fn extends_prefix<F: Fn(u32, u32, u32) -> u32>(
    take: F,
    rows: Rows,
    position: int,
    choose: u32,
    before: Seq<u32>,
    after: Seq<u32>,
) -> bool {
    let hidden = rows.weight_at_v.len() as int;
    &&& after.len() == hidden
    &&& forall|channel: int|
        0 <= channel < hidden ==> call_ensures(
            take,
            (
                before[channel],
                rows.enc_mem_h[kernels::cell(position, channel, hidden)],
                choose,
            ),
            #[trigger] after[channel],
        )
}

/// What the frames weigh, after one more frame.
pub open spec fn weighs_frame<
    B: Fn(u32, u32) -> u32,
    S: Fn(u32, u32, u32) -> u32,
    F: Fn(u32, u32, u32) -> u32,
    P: Fn(u32, u32) -> u32,
    M: Fn(u32, u32) -> u32,
    W: Fn(u32, u32) -> u32,
    D: Fn(u32, u32) -> u32,
    H: Fn(u32, u32) -> u32,
    G: Fn(u32, u32) -> u32,
>(
    with: FrameArithmetic<B, S, F, P, M, W, D, H, G>,
    rows: Rows,
    position: int,
    alpha: u32,
    before: attention::Chunk,
    after: attention::Chunk,
) -> bool {
    let held = after.alpha.last();
    exists|choose: u32, stop: u32|
        {
            &&& #[trigger] chooses(
                with.bend,
                with.take,
                with.plus,
                with.mask,
                with.weigh,
                rows,
                position,
                alpha,
                choose,
            )
            &&& #[trigger] stops(
                with.bend_stop,
                with.take,
                with.plus,
                with.weigh,
                rows,
                position,
                before.prefix,
                alpha,
                stop,
            )
            &&& call_ensures(with.decay, (before.product, stop), after.product)
            &&& after.alpha == before.alpha.push(held)
            &&& call_ensures(with.hold, (after.product, alpha), held)
            &&& after.beta == before.beta.push(after.beta.last())
            &&& call_ensures(with.spend, (held, choose), after.beta.last())
            &&& extends_prefix(with.take, rows, position, choose, before.prefix, after.prefix)
        }
}

/// What `count` frames from `begin` on weigh, one after the other.
pub open spec fn weighs_frames<
    B: Fn(u32, u32) -> u32,
    S: Fn(u32, u32, u32) -> u32,
    F: Fn(u32, u32, u32) -> u32,
    P: Fn(u32, u32) -> u32,
    M: Fn(u32, u32) -> u32,
    W: Fn(u32, u32) -> u32,
    D: Fn(u32, u32) -> u32,
    H: Fn(u32, u32) -> u32,
    G: Fn(u32, u32) -> u32,
>(
    with: FrameArithmetic<B, S, F, P, M, W, D, H, G>,
    rows: Rows,
    memory: attention::Memory,
    begin: int,
    count: int,
    result: attention::Chunk,
) -> bool
    decreases count,
{
    if count <= 0 {
        result == (attention::Chunk {
            alpha: Seq::empty(),
            beta: Seq::empty(),
            prefix: memory.prefix,
            product: memory.product,
        })
    } else {
        exists|before: attention::Chunk|
            {
                &&& weighs_frames(with, rows, memory, begin, count - 1, before)
                &&& #[trigger] weighs_frame(
                    with,
                    rows,
                    begin + count - 1,
                    memory.current[begin + count - 1],
                    before,
                    result,
                )
            }
    }
}

/// The functions may be called on any numbers.
pub open spec fn computes<
    B: Fn(u32, u32) -> u32,
    S: Fn(u32, u32, u32) -> u32,
    F: Fn(u32, u32, u32) -> u32,
    P: Fn(u32, u32) -> u32,
    M: Fn(u32, u32) -> u32,
    W: Fn(u32, u32) -> u32,
    D: Fn(u32, u32) -> u32,
    H: Fn(u32, u32) -> u32,
    G: Fn(u32, u32) -> u32,
>(with: FrameArithmetic<B, S, F, P, M, W, D, H, G>) -> bool {
    &&& forall|one: u32, other: u32| call_requires(with.bend, (one, other))
    &&& forall|one: u32, other: u32, third: u32| call_requires(with.bend_stop, (one, other, third))
    &&& forall|sum: u32, value: u32, weight: u32| call_requires(with.take, (sum, value, weight))
    &&& forall|one: u32, other: u32| call_requires(with.plus, (one, other))
    &&& forall|logit: u32, mask: u32| call_requires(with.mask, (logit, mask))
    &&& forall|alpha: u32, logit: u32| call_requires(with.weigh, (alpha, logit))
    &&& forall|product: u32, stop: u32| call_requires(with.decay, (product, stop))
    &&& forall|product: u32, alpha: u32| call_requires(with.hold, (product, alpha))
    &&& forall|alpha: u32, choose: u32| call_requires(with.spend, (alpha, choose))
}

impl<
    B: Fn(u32, u32) -> u32,
    S: Fn(u32, u32, u32) -> u32,
    F: Fn(u32, u32, u32) -> u32,
    P: Fn(u32, u32) -> u32,
    M: Fn(u32, u32) -> u32,
    W: Fn(u32, u32) -> u32,
    D: Fn(u32, u32) -> u32,
    H: Fn(u32, u32) -> u32,
    G: Fn(u32, u32) -> u32,
> FrameArithmetic<B, S, F, P, M, W, D, H, G> {
    /// What to choose of a frame.
    fn choose_frame(&self, rows: &FrameRows, position: usize, alpha: u32) -> (choose: u32)
        requires
            computes(*self),
            rows@.wf(),
            position < rows.conformer_mask@.len(),
        ensures
            chooses(
                self.bend,
                self.take,
                self.plus,
                self.mask,
                self.weigh,
                rows@,
                position as int,
                alpha,
                choose,
            ),
    {
        let hidden: usize = rows.weight_at_v.len();
        let len: usize = rows.at_h.len();
        let start: usize = offset(position, hidden, rows.conformer_mask.len(), len);
        let mut bent: Vec<u32> = Vec::new();
        for channel in 0..hidden
            invariant
                computes(*self),
                rows@.wf(),
                hidden == rows.weight_at_v@.len(),
                start == position * hidden,
                start + hidden <= len == rows.at_h@.len(),
                bent@.len() == channel,
                forall|place: int|
                    0 <= place < channel ==> call_ensures(
                        self.bend,
                        (
                            rows.at_h@[kernels::cell(position as int, place, hidden as int)],
                            rows.query@[place],
                        ),
                        #[trigger] bent@[place],
                    ),
        {
            let ghost before = bent@;
            let value: u32 = (self.bend)(rows.at_h[start + channel], rows.query[channel]);
            bent.push(value);
            assert(forall|place: int| 0 <= place < channel ==> #[trigger] bent@[place]
                == before[place]);
        }
        let logit: u32 = dot_float32(&self.take, &self.plus, &bent, rows.weight_at_v);
        let masked: u32 = (self.mask)(logit, rows.conformer_mask[position]);
        (self.weigh)(alpha, masked)
    }

    /// What to stop at a frame.
    fn stop_frame(&self, rows: &FrameRows, position: usize, prefix: &Vec<u32>, alpha: u32) -> (stop:
        u32)
        requires
            computes(*self),
            rows@.wf(),
            position < rows.conformer_mask@.len(),
            prefix@.len() == rows.weight_at_v@.len(),
        ensures
            stops(
                self.bend_stop,
                self.take,
                self.plus,
                self.weigh,
                rows@,
                position as int,
                prefix@,
                alpha,
                stop,
            ),
    {
        let hidden: usize = rows.weight_at_v.len();
        let len: usize = rows.chunk_at_h.len();
        let start: usize = offset(position, hidden, rows.conformer_mask.len(), len);
        let mut bent: Vec<u32> = Vec::new();
        for channel in 0..hidden
            invariant
                computes(*self),
                rows@.wf(),
                hidden == rows.weight_at_v@.len() == prefix@.len(),
                start == position * hidden,
                start + hidden <= len == rows.chunk_at_h@.len(),
                bent@.len() == channel,
                forall|place: int|
                    0 <= place < channel ==> call_ensures(
                        self.bend_stop,
                        (
                            prefix@[place],
                            rows.query_stop@[place],
                            rows.chunk_at_h@[kernels::cell(position as int, place, hidden as int)],
                        ),
                        #[trigger] bent@[place],
                    ),
        {
            let ghost before = bent@;
            let value: u32 = (self.bend_stop)(
                prefix[channel],
                rows.query_stop[channel],
                rows.chunk_at_h[start + channel],
            );
            bent.push(value);
            assert(forall|place: int| 0 <= place < channel ==> #[trigger] bent@[place]
                == before[place]);
        }
        let logit: u32 = dot_float32(&self.take, &self.plus, &bent, rows.weight_at_v_stop);
        (self.weigh)(alpha, logit)
    }

    /// What was chosen so far, after one more frame.
    fn extend_prefix(
        &self,
        rows: &FrameRows,
        position: usize,
        choose: u32,
        prefix: &Vec<u32>,
    ) -> (after: Vec<u32>)
        requires
            computes(*self),
            rows@.wf(),
            position < rows.conformer_mask@.len(),
            prefix@.len() == rows.weight_at_v@.len(),
        ensures
            extends_prefix(self.take, rows@, position as int, choose, prefix@, after@),
    {
        let hidden: usize = rows.weight_at_v.len();
        let len: usize = rows.enc_mem_h.len();
        let start: usize = offset(position, hidden, rows.conformer_mask.len(), len);
        let mut after: Vec<u32> = Vec::new();
        for channel in 0..hidden
            invariant
                computes(*self),
                hidden == prefix@.len(),
                start == position * hidden,
                start + hidden <= len == rows.enc_mem_h@.len(),
                after@.len() == channel,
                forall|place: int|
                    0 <= place < channel ==> call_ensures(
                        self.take,
                        (
                            prefix@[place],
                            rows.enc_mem_h@[kernels::cell(position as int, place, hidden as int)],
                            choose,
                        ),
                        #[trigger] after@[place],
                    ),
        {
            let ghost before = after@;
            let value: u32 = (self.take)(prefix[channel], rows.enc_mem_h[start + channel], choose);
            after.push(value);
            assert(forall|place: int| 0 <= place < channel ==> #[trigger] after@[place]
                == before[place]);
        }
        after
    }

    /// What the frames from `begin` to `end` weigh for a beam.
    pub fn weigh_frames(&self, rows: &FrameRows, memory: &BeamMemory, begin: usize, end: usize) -> (
    result: ChunkValues)
        requires
            computes(*self),
            rows@.wf(),
            begin <= end <= rows.conformer_mask@.len(),
            end <= memory.alpha_current@.len(),
            memory.choose_prefix@.len() == rows.weight_at_v@.len(),
        ensures
            weighs_frames(*self, rows@, memory@, begin as int, end - begin, result@),
            result@.alpha.len() == end - begin,
            result@.beta.len() == end - begin,
            result@.prefix.len() == rows.weight_at_v@.len(),
    {
        let hidden: usize = rows.weight_at_v.len();
        let mut values: ChunkValues = ChunkValues {
            alpha: Vec::new(),
            beta: Vec::new(),
            choose_prefix: copy_values(&memory.choose_prefix, memory.choose_prefix.len()),
            stop_product: memory.stop_product,
        };
        assert(memory@.prefix.take(memory@.prefix.len() as int) =~= memory@.prefix);
        assert(values@ =~= attention::Chunk {
            alpha: Seq::empty(),
            beta: Seq::empty(),
            prefix: memory@.prefix,
            product: memory@.product,
        });
        for position in begin..end
            invariant
                computes(*self),
                rows@.wf(),
                hidden == rows.weight_at_v@.len(),
                begin <= end <= rows.conformer_mask@.len(),
                end <= memory.alpha_current@.len(),
                values@.prefix.len() == hidden,
                values@.alpha.len() == position - begin,
                values@.beta.len() == position - begin,
                weighs_frames(*self, rows@, memory@, begin as int, position - begin, values@),
        {
            let ghost before = values@;
            let alpha: u32 = memory.alpha_current[position];
            let choose: u32 = self.choose_frame(rows, position, alpha);
            let stop: u32 = self.stop_frame(rows, position, &values.choose_prefix, alpha);
            values.stop_product = (self.decay)(values.stop_product, stop);
            let held: u32 = (self.hold)(values.stop_product, alpha);
            values.alpha.push(held);
            let spent: u32 = (self.spend)(held, choose);
            values.beta.push(spent);
            values.choose_prefix =
            self.extend_prefix(rows, position, choose, &values.choose_prefix);
            proof {
                let after = values@;
                assert(after.alpha =~= before.alpha.push(held));
                assert(after.beta =~= before.beta.push(spent));
                assert(weighs_frame(*self, rows@, position as int, alpha, before, after));
                let count = position + 1 - begin;
                assert(begin + count - 1 == position);
                assert(weighs_frame(
                    *self,
                    rows@,
                    begin + count - 1,
                    memory@.current[begin + count - 1],
                    before,
                    after,
                ));
            }
        }
        values
    }

    /// The context that a beam gathers from the frames from `begin` to `end`, and the sum of their
    /// shares.
    pub fn gather_context(
        &self,
        conformer_output: &[u32],
        memory: &BeamMemory,
        begin: usize,
        end: usize,
        frames: usize,
        hidden: usize,
    ) -> (result: BeamContext)
        requires
            computes(*self),
            conformer_output@.len() == frames * hidden,
            begin <= end <= frames,
            end <= memory.beta@.len(),
        ensures
            gathers_context(
                self.take,
                self.plus,
                conformer_output@,
                memory@.beta,
                begin as int,
                end as int,
                hidden as int,
                result@,
            ),
    {
        let count: usize = end - begin;
        let len: usize = conformer_output.len();
        let mut context: Vec<u32> = Vec::new();
        for channel in 0..hidden
            invariant
                computes(*self),
                len == conformer_output@.len() == frames * hidden,
                begin <= end <= frames,
                end <= memory.beta@.len(),
                count == end - begin,
                context@.len() == channel,
                forall|place: int|
                    0 <= place < channel ==> context_channel(
                        self.take,
                        conformer_output@,
                        memory@.beta,
                        begin as int,
                        end as int,
                        hidden as int,
                        place,
                        #[trigger] context@[place],
                    ),
        {
            let ghost before = context@;
            let mut start: usize = 0;
            if count > 0 {
                proof {
                    kernels::lemma_cell_inside(
                        begin as int,
                        frames as int,
                        channel as int,
                        hidden as int,
                    );
                    kernels::lemma_cell_inside(
                        end - 1,
                        frames as int,
                        channel as int,
                        hidden as int,
                    );
                    assert(begin * hidden + channel + (count - 1) * hidden == (end - 1) * hidden
                        + channel) by (nonlinear_arith)
                        requires
                            count == end - begin,
                    ;
                }
                start = begin * hidden + channel;
            }
            let sum: u32 = fold_strided(
                &self.take,
                0u32,
                &memory.beta,
                begin,
                1,
                conformer_output,
                start,
                hidden,
                count,
            );
            proof {
                assert(kernels::strided(
                    memory@.beta,
                    begin as int,
                    1,
                    conformer_output@,
                    start as int,
                    hidden as int,
                    count as int,
                ) =~= kernels::strided(
                    memory@.beta,
                    begin as int,
                    1,
                    conformer_output@,
                    kernels::cell(begin as int, channel as int, hidden as int),
                    hidden as int,
                    count as int,
                ));
            }
            context.push(sum);
            assert(forall|place: int| 0 <= place < channel ==> #[trigger] context@[place]
                == before[place]);
        }
        let beta_sum: u32 = gather_all(&self.plus, 0u32, slice_subrange(&memory.beta, begin, end));
        BeamContext { context, beta_sum }
    }
}

/// One channel of a context: the shares of the frames with their outputs.
pub open spec fn context_channel<F: Fn(u32, u32, u32) -> u32>(
    take: F,
    output: Seq<u32>,
    beta: Seq<u32>,
    begin: int,
    end: int,
    hidden: int,
    channel: int,
    value: u32,
) -> bool {
    kernels::folds(
        take,
        kernels::strided(
            beta,
            begin,
            1,
            output,
            kernels::cell(begin, channel, hidden),
            hidden,
            end - begin,
        ),
        0,
        value,
    )
}

/// The context of the frames from `begin` to `end`, and the sum of their shares.
pub open spec fn gathers_context<F: Fn(u32, u32, u32) -> u32, P: Fn(u32, u32) -> u32>(
    take: F,
    plus: P,
    output: Seq<u32>,
    beta: Seq<u32>,
    begin: int,
    end: int,
    hidden: int,
    result: attention::Context,
) -> bool {
    &&& result.context.len() == hidden
    &&& forall|channel: int|
        0 <= channel < hidden ==> context_channel(
            take,
            output,
            beta,
            begin,
            end,
            hidden,
            channel,
            #[trigger] result.context[channel],
        )
    &&& normalization::gathers(plus, beta.subrange(begin, end), 0, result.beta_sum)
}

/// Products and sums of numbers that are exact.
pub open spec fn exact_products<F: Fn(u32, u32, u32) -> u32>(take: F) -> bool {
    forall|sum: u32, one: u32, other: u32, result: u32|
        #[trigger] call_ensures(take, (sum, one, other), result) ==> result == sum + one * other
}

/// Sums of numbers that are exact.
pub open spec fn exact_sums<P: Fn(u32, u32) -> u32>(plus: P) -> bool {
    forall|one: u32, other: u32, result: u32|
        #[trigger] call_ensures(plus, (one, other), result) ==> result == one + other
}

proof fn lemma_fold_total<F: Fn(u32, u32, u32) -> u32>(
    take: F,
    pairs: Seq<(u32, u32)>,
    terms: spec_fn(int) -> int,
    result: u32,
)
    requires
        exact_products(take),
        kernels::folds(take, pairs, 0, result),
        forall|index: int|
            0 <= index < pairs.len() ==> #[trigger] terms(index) == pairs[index].0 * pairs[index].1,
    ensures
        result == kernels::total(terms, pairs.len() as int),
    decreases pairs.len(),
{
    if pairs.len() > 0 {
        let shorter = pairs.drop_last();
        let before = choose|before: u32|
            {
                &&& kernels::folds(take, shorter, 0, before)
                &&& #[trigger] call_ensures(take, (before, pairs.last().0, pairs.last().1), result)
            };
        lemma_fold_total(take, shorter, terms, before);
        assert(terms(pairs.len() - 1) == pairs.last().0 * pairs.last().1);
    }
}

proof fn lemma_gather_total<P: Fn(u32, u32) -> u32>(plus: P, values: Seq<u32>, result: u32)
    requires
        exact_sums(plus),
        normalization::gathers(plus, values, 0, result),
    ensures
        result == kernels::total(|index: int| values[index] as int, values.len() as int),
    decreases values.len(),
{
    if values.len() > 0 {
        let shorter = values.drop_last();
        let before = choose|before: u32|
            {
                &&& normalization::gathers(plus, shorter, 0, before)
                &&& #[trigger] call_ensures(plus, (before, values.last()), result)
            };
        lemma_gather_total(plus, shorter, before);
        kernels::lemma_same_total(
            |index: int| shorter[index] as int,
            |index: int| values[index] as int,
            shorter.len() as int,
        );
    }
}

/// A sum over places can be taken lane by lane, also where the last places fill only some lanes.
proof fn lemma_total_of_lanes(terms: spec_fn(int) -> int, count: int)
    requires
        0 <= count,
    ensures
        kernels::total(terms, count) == kernels::total(
            |index: int| terms(4 * index),
            lane_length(count, 0),
        ) + kernels::total(|index: int| terms(4 * index + 1), lane_length(count, 1))
            + kernels::total(|index: int| terms(4 * index + 2), lane_length(count, 2))
            + kernels::total(|index: int| terms(4 * index + 3), lane_length(count, 3)),
    decreases count,
{
    if count > 0 {
        lemma_total_of_lanes(terms, count - 1);
        let lane = (count - 1) % 4;
        let place = (count - 1) / 4;
        assert(count - 1 == 4 * place + lane);
    }
}

/// With exact numbers, the product of values with weights is the sum over all channels.
pub proof fn law_dots_are_inner_products<F: Fn(u32, u32, u32) -> u32, P: Fn(u32, u32) -> u32>(
    take: F,
    plus: P,
    values: Seq<u32>,
    weights: Seq<u32>,
    result: u32,
)
    requires
        exact_products(take),
        exact_sums(plus),
        dot(take, plus, values, weights, result),
    ensures
        result == kernels::total(
            |index: int| values[index] * weights[index],
            weights.len() as int,
        ),
{
    let count = weights.len() as int;
    let terms = |index: int| values[index] * weights[index];
    let (sums, first, second) = choose|sums: (u32, u32, u32, u32), first: u32, second: u32|
        {
            &&& lane_dot(take, values, weights, 0, sums.0)
            &&& lane_dot(take, values, weights, 1, sums.1)
            &&& lane_dot(take, values, weights, 2, sums.2)
            &&& lane_dot(take, values, weights, 3, sums.3)
            &&& #[trigger] call_ensures(plus, (sums.1, sums.0), first)
            &&& #[trigger] call_ensures(plus, (sums.2, first), second)
            &&& #[trigger] call_ensures(plus, (sums.3, second), result)
        };
    lemma_lane_dot(take, values, weights, 0, |index: int| terms(4 * index), sums.0);
    lemma_lane_dot(take, values, weights, 1, |index: int| terms(4 * index + 1), sums.1);
    lemma_lane_dot(take, values, weights, 2, |index: int| terms(4 * index + 2), sums.2);
    lemma_lane_dot(take, values, weights, 3, |index: int| terms(4 * index + 3), sums.3);
    lemma_total_of_lanes(terms, count);
}

proof fn lemma_lane_dot<F: Fn(u32, u32, u32) -> u32>(
    take: F,
    values: Seq<u32>,
    weights: Seq<u32>,
    lane: int,
    terms: spec_fn(int) -> int,
    result: u32,
)
    requires
        exact_products(take),
        0 <= lane < 4,
        lane_dot(take, values, weights, lane, result),
        forall|index: int|
            #[trigger] terms(index) == values[4 * index + lane] * weights[4 * index + lane],
    ensures
        result == kernels::total(terms, lane_length(weights.len() as int, lane)),
{
    let length = lane_length(weights.len() as int, lane);
    assert(length >= 0);
    let pairs = kernels::strided(
        values,
        lane,
        DOT_LANES as int,
        weights,
        lane,
        DOT_LANES as int,
        length,
    );
    lemma_fold_total(take, pairs, terms, result);
}

/// With exact numbers, the context of frames is the outputs of those frames, each by its share, and
/// their shares are added up.
pub proof fn law_contexts_weigh_their_frames<F: Fn(u32, u32, u32) -> u32, P: Fn(u32, u32) -> u32>(
    take: F,
    plus: P,
    output: Seq<u32>,
    beta: Seq<u32>,
    begin: int,
    end: int,
    hidden: int,
    channel: int,
    result: attention::Context,
)
    requires
        exact_products(take),
        exact_sums(plus),
        0 <= begin <= end <= beta.len(),
        0 <= channel < hidden,
        gathers_context(take, plus, output, beta, begin, end, hidden, result),
    ensures
        result.context[channel] == kernels::total(
            |index: int|
                beta[begin + index] * output[kernels::cell(begin + index, channel, hidden)],
            end - begin,
        ),
        result.beta_sum == kernels::total(|index: int| beta[begin + index] as int, end - begin),
{
    let terms = |index: int|
        beta[begin + index] * output[kernels::cell(begin + index, channel, hidden)];
    let pairs = kernels::strided(
        beta,
        begin,
        1,
        output,
        kernels::cell(begin, channel, hidden),
        hidden,
        end - begin,
    );
    assert(context_channel(
        take,
        output,
        beta,
        begin,
        end,
        hidden,
        channel,
        result.context[channel],
    ));
    assert forall|index: int| 0 <= index < pairs.len() implies #[trigger] terms(index)
        == pairs[index].0 * pairs[index].1 by {
        assert(kernels::cell(begin + index, channel, hidden) == kernels::cell(
            begin,
            channel,
            hidden,
        ) + index * hidden) by (nonlinear_arith)
            requires
                kernels::cell(begin + index, channel, hidden) == (begin + index) * hidden + channel,
                kernels::cell(begin, channel, hidden) == begin * hidden + channel,
        ;
    }
    lemma_fold_total(take, pairs, terms, result.context[channel]);
    let shares = beta.subrange(begin, end);
    lemma_gather_total(plus, shares, result.beta_sum);
    kernels::lemma_same_total(
        |index: int| shares[index] as int,
        |index: int| beta[begin + index] as int,
        end - begin,
    );
}

}
