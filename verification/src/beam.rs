//! Beam search over decoder scores.
//!
//! Scores are binary32 numbers, given by their bits. The two float computations of a step are
//! handed in as functions: how two scores are merged, and how the score of a path is normalised.

use vstd::arithmetic::div_mod::*;
use vstd::multiset::Multiset;
use vstd::prelude::*;
use vstd::slice::slice_subrange;

use crate::kernels;
use crate::rank;
use crate::rank::stable_descending;
use crate::topk;
use crate::topk::{number_place, select_top_k};

verus! {

/// The shape of the scores and of the search.
#[derive(Clone, Copy, Debug)]
pub struct BeamSearchConfig {
    pub beam_width: usize,
    pub input_score_count: usize,
    pub search_score_count: usize,
    pub merge_target_score_id: usize,
    pub eos_score_id: usize,
    pub score_floor: u32,
    pub step_divisor: usize,
}

/// Why a search cannot start or go on.
#[derive(Clone, Copy, Debug, PartialEq, Eq, Structural)]
pub enum BeamError {
    /// The configuration is not valid.
    Configuration,
    /// The search is already complete.
    Complete,
    /// The scores do not have the shape of the active beams.
    Shape,
    /// A flag uses unsupported bits.
    Flag,
    /// A score to select from is not finite.
    Selection,
}

impl Default for BeamSearchConfig {
    fn default() -> (result: Self)
        ensures
            result.beam_width == 8,
            result.input_score_count == 14_832,
            result.search_score_count == 14_831,
            result.merge_target_score_id == 14_828,
            result.eos_score_id == 14_830,
            result.score_floor == 0xc69c_4000,
            result.step_divisor == 8,
    {
        BeamSearchConfig {
            beam_width: 8,
            input_score_count: 14_832,
            search_score_count: 14_831,
            merge_target_score_id: 14_828,
            eos_score_id: 14_830,
            score_floor: 0xc69c_4000,
            step_divisor: 8,
        }
    }
}

impl BeamSearchConfig {
    /// The score positions lie in the row, and the row is as wide as the beam.
    pub open spec fn valid(self) -> bool {
        &&& 0 < self.beam_width <= self.search_score_count <= self.input_score_count
        &&& self.merge_target_score_id < self.search_score_count
        &&& self.eos_score_id < self.search_score_count
        &&& self.merge_target_score_id != self.eos_score_id
        &&& self.step_divisor > 0
    }

    /// Checks the configuration.
    pub fn validate(self) -> (result: Result<Self, BeamError>)
        ensures
            result == if self.valid() {
                Ok(self)
            } else {
                Err::<Self, BeamError>(BeamError::Configuration)
            },
    {
        if self.beam_width == 0 || self.search_score_count == 0 || self.search_score_count
            > self.input_score_count || self.beam_width > self.search_score_count
            || self.merge_target_score_id >= self.search_score_count || self.eos_score_id
            >= self.search_score_count || self.merge_target_score_id == self.eos_score_id
            || self.step_divisor == 0 {
            return Err(BeamError::Configuration);
        }
        Ok(self)
    }

    /// The token that ends a path.
    pub fn eos_token(self) -> (result: i32)
        requires
            self.eos_score_id < i32::MAX,
        ensures
            result == self.eos_score_id + 1,
    {
        self.eos_score_id as i32 + 1
    }
}

/// A path through the search.
#[derive(Debug)]
pub struct BeamCandidate {
    pub normalized_score: u32,
    pub acoustic_score: u32,
    pub parent: usize,
    pub token: i32,
    pub step: usize,
    pub path: Vec<i32>,
    pub terminal: bool,
}

/// The content of a candidate.
#[verifier::ext_equal]
pub struct Candidate {
    pub normalized: u32,
    pub acoustic: u32,
    pub parent: int,
    pub token: i32,
    pub step: int,
    pub path: Seq<i32>,
    pub terminal: bool,
}

impl View for BeamCandidate {
    type V = Candidate;

    open spec fn view(&self) -> Candidate {
        Candidate {
            normalized: self.normalized_score,
            acoustic: self.acoustic_score,
            parent: self.parent as int,
            token: self.token,
            step: self.step as int,
            path: self.path@,
            terminal: self.terminal,
        }
    }
}

/// The contents of candidates.
pub open spec fn candidate_views(candidates: Seq<BeamCandidate>) -> Seq<Candidate> {
    Seq::new(candidates.len(), |index: int| candidates[index]@)
}

/// The candidate that every search starts from.
pub open spec fn root() -> Candidate {
    Candidate {
        normalized: 0,
        acoustic: 0,
        parent: 0,
        token: 0,
        step: 0,
        path: Seq::empty(),
        terminal: false,
    }
}

/// The keys by which candidates are ranked.
pub open spec fn ranking_keys(candidates: Seq<Candidate>) -> Seq<u64> {
    Seq::new(
        candidates.len(),
        |index: int| (topk::place(candidates[index].normalized) + 0x8000_0000) as u64,
    )
}

/// The ranks of candidates.
pub open spec fn ranking(candidates: Seq<Candidate>) -> Seq<usize> {
    choose|order: Seq<usize>|
        rank::is_ranking(ranking_keys(candidates), order, candidates.len() as int)
}

/// The candidates by descending score; candidates with equal scores keep their order.
pub open spec fn ranked(candidates: Seq<Candidate>) -> Seq<Candidate> {
    Seq::new(candidates.len(), |index: int| candidates[ranking(candidates)[index] as int])
}

/// The first candidates, as many as the beam is wide.
pub open spec fn survivors(candidates: Seq<Candidate>, width: int) -> Seq<Candidate> {
    if candidates.len() <= width {
        candidates
    } else {
        candidates.take(width)
    }
}

/// The candidates that have come to an end, or that have not.
pub open spec fn with_ending(candidates: Seq<Candidate>, terminal: bool) -> Seq<Candidate>
    decreases candidates.len(),
{
    if candidates.len() == 0 {
        Seq::empty()
    } else if candidates.last().terminal == terminal {
        with_ending(candidates.drop_last(), terminal).push(candidates.last())
    } else {
        with_ending(candidates.drop_last(), terminal)
    }
}

/// The content of a search.
#[verifier::ext_equal]
pub struct Search {
    pub config: BeamSearchConfig,
    pub step: int,
    pub active: Seq<Candidate>,
    pub finished: Seq<Candidate>,
    pub first_eos: Option<int>,
    pub done: bool,
}

impl Search {
    /// The configuration is valid, the search is done when no path is active, and no more paths
    /// are kept than the beam is wide.
    pub open spec fn wf(self) -> bool {
        &&& self.config.valid()
        &&& self.done == (self.active.len() == 0)
        &&& self.active.len() + self.finished.len() <= self.config.beam_width
    }

    /// A search before its first step.
    pub open spec fn fresh(config: BeamSearchConfig) -> Search {
        Search {
            config,
            step: 0,
            active: seq![root()],
            finished: Seq::empty(),
            first_eos: None,
            done: false,
        }
    }
}

/// Row `index` of a matrix.
pub open spec fn row(cells: Seq<u32>, width: int, index: int) -> Seq<u32> {
    cells.subrange(index * width, (index + 1) * width)
}

/// Bits zero and one are the only ones that a flag may use.
pub open spec fn known_flags(flags: Seq<i32>) -> bool {
    forall|index: int| 0 <= index < flags.len() ==> 0 <= #[trigger] flags[index] <= 3
}

/// `output` is a row of scores after the decoder's flag was heeded. An odd flag leaves just the
/// end of path and the merge target; a flag under two merges the score of the end of path into
/// that of the merge target.
pub open spec fn heeds_flag<M: Fn(u32, u32) -> u32>(
    merge: M,
    config: BeamSearchConfig,
    source: Seq<u32>,
    flag: i32,
    output: Seq<u32>,
) -> bool {
    let target = config.merge_target_score_id as int;
    let eos = config.eos_score_id as int;
    &&& output.len() == config.search_score_count
    &&& forall|index: int|
        0 <= index < output.len() && index != target && index != eos ==> (
        #[trigger] output[index]) == if flag % 2 == 1 {
            config.score_floor
        } else {
            source[index]
        }
    &&& output[eos] == if flag < 2 {
        config.score_floor
    } else {
        source[eos]
    }
    &&& target != eos ==> if flag < 2 {
        call_ensures(merge, (source[target], source[eos]), output[target])
    } else if flag == 3 {
        output[target] == 0
    } else {
        output[target] == source[target]
    }
}

/// `output` is a matrix of scores after the flag of each row was heeded.
pub open spec fn is_processed<M: Fn(u32, u32) -> u32>(
    merge: M,
    config: BeamSearchConfig,
    scores: Seq<u32>,
    flags: Seq<i32>,
    output: Seq<u32>,
) -> bool {
    &&& output.len() == flags.len() * config.search_score_count
    &&& forall|beam: int|
        0 <= beam < flags.len() ==> heeds_flag(
            merge,
            config,
            row(scores, config.input_score_count as int, beam),
            #[trigger] flags[beam],
            row(output, config.search_score_count as int, beam),
        )
}

/// The tokens to go on with from path `parent`, with their scores.
pub open spec fn choices(config: BeamSearchConfig, processed: Seq<u32>, parent: int) -> Seq<
    (u32, i32),
> {
    topk::tokens(
        topk::greatest(
            row(processed, config.search_score_count as int, parent),
            config.beam_width as int,
        ),
    )
}

/// One of the first two tokens ends the path.
pub open spec fn ends_early(config: BeamSearchConfig, chosen: Seq<(u32, i32)>) -> bool {
    ||| chosen.len() > 0 && chosen[0].1 == config.eos_score_id + 1
    ||| chosen.len() > 1 && chosen[1].1 == config.eos_score_id + 1
}

/// The step at which a path first ended early, after the first `count` paths of step `step`.
pub open spec fn first_eos_after(
    config: BeamSearchConfig,
    processed: Seq<u32>,
    first_eos: Option<int>,
    step: int,
    count: int,
) -> Option<int>
    decreases count,
{
    if count <= 0 {
        first_eos
    } else {
        let before = first_eos_after(config, processed, first_eos, step, count - 1);
        if before is None && count <= 2 && ends_early(
            config,
            choices(config, processed, count - 1),
        ) {
            Some(step)
        } else {
            before
        }
    }
}

/// The number of steps that a number of frames allows.
pub open spec fn step_limit(config: BeamSearchConfig, frame_budget: int) -> int {
    (frame_budget + config.step_divisor - 1) / (config.step_divisor as int)
}

/// Path `parent` with one more token.
pub open spec fn extended(
    config: BeamSearchConfig,
    active: Candidate,
    parent: int,
    choice: (u32, i32),
    normalized: u32,
    step: int,
    frame_budget: int,
) -> Candidate {
    Candidate {
        normalized,
        acoustic: choice.0,
        parent,
        token: choice.1,
        step,
        path: active.path.push(choice.1),
        terminal: choice.1 == config.eos_score_id + 1 || step >= step_limit(config, frame_budget),
    }
}

/// `candidates` are path `parent` with each of the chosen tokens.
pub open spec fn extends<N: Fn(u32, u32, usize) -> u32>(
    normalize: N,
    config: BeamSearchConfig,
    active: Candidate,
    parent: int,
    chosen: Seq<(u32, i32)>,
    step: int,
    frame_budget: int,
    candidates: Seq<Candidate>,
) -> bool {
    &&& candidates.len() == chosen.len()
    &&& forall|index: int|
        0 <= index < chosen.len() ==> {
            &&& (#[trigger] candidates[index]) == extended(
                config,
                active,
                parent,
                chosen[index],
                candidates[index].normalized,
                step,
                frame_budget,
            )
            &&& call_ensures(
                normalize,
                (active.normalized, chosen[index].0, step as usize),
                candidates[index].normalized,
            )
        }
}

/// `candidates` are the first `count` paths, each with its chosen tokens.
pub open spec fn expands<N: Fn(u32, u32, usize) -> u32>(
    normalize: N,
    config: BeamSearchConfig,
    active: Seq<Candidate>,
    processed: Seq<u32>,
    step: int,
    frame_budget: int,
    count: int,
    candidates: Seq<Candidate>,
) -> bool
    decreases count,
{
    if count <= 0 {
        candidates.len() == 0
    } else {
        let before = candidates.len() - config.beam_width;
        &&& before >= 0
        &&& expands(
            normalize,
            config,
            active,
            processed,
            step,
            frame_budget,
            count - 1,
            candidates.take(before),
        )
        &&& extends(
            normalize,
            config,
            active[count - 1],
            count - 1,
            choices(config, processed, count - 1),
            step,
            frame_budget,
            candidates.skip(before),
        )
    }
}

/// The first `count` rows hold finite scores only.
pub open spec fn finite_rows(config: BeamSearchConfig, processed: Seq<u32>, count: int) -> bool {
    forall|parent: int|
        0 <= parent < count ==> topk::all_finite(
            #[trigger] row(processed, config.search_score_count as int, parent),
        )
}

/// The search after the step whose new candidates are `candidates`.
pub open spec fn advanced(
    before: Search,
    candidates: Seq<Candidate>,
    first_eos: Option<int>,
) -> Search {
    let kept = survivors(
        ranked(ranked(candidates) + before.finished),
        before.config.beam_width as int,
    );
    Search {
        config: before.config,
        step: before.step + 1,
        active: with_ending(kept, false),
        finished: with_ending(kept, true),
        first_eos,
        done: with_ending(kept, false).len() == 0,
    }
}

/// Row `index` of a matrix of `count` rows lies inside it.
proof fn lemma_row_inside(width: int, count: int, index: int)
    requires
        0 <= index < count,
        0 <= width,
    ensures
        0 <= index * width <= (index + 1) * width <= count * width,
        (index + 1) * width == index * width + width,
{
    assert(0 <= index * width) by (nonlinear_arith)
        requires
            0 <= index,
            0 <= width,
    ;
    assert((index + 1) * width == index * width + width) by (nonlinear_arith);
    assert((index + 1) * width <= count * width) by (nonlinear_arith)
        requires
            index + 1 <= count,
            0 <= width,
    ;
}

/// Adding rows at the end keeps the rows before.
proof fn lemma_rows_kept(cells: Seq<u32>, more: Seq<u32>, width: int, count: int)
    requires
        0 <= width,
        0 <= count,
        cells.len() == count * width,
        more.len() == width,
    ensures
        forall|index: int|
            0 <= index < count ==> #[trigger] row(cells + more, width, index) == row(
                cells,
                width,
                index,
            ),
        row(cells + more, width, count) == more,
        (cells + more).len() == (count + 1) * width,
{
    assert((count + 1) * width == count * width + width) by (nonlinear_arith);
    assert forall|index: int| 0 <= index < count implies #[trigger] row(cells + more, width, index)
        == row(cells, width, index) by {
        lemma_row_inside(width, count, index);
        assert(row(cells + more, width, index) =~= row(cells, width, index));
    }
    assert(row(cells + more, width, count) =~= more);
}

/// One row of scores after the decoder's flag was heeded.
fn heed_flag<M: Fn(u32, u32) -> u32>(
    merge: &M,
    config: BeamSearchConfig,
    source: &[u32],
    flag: i32,
) -> (output: Vec<u32>)
    requires
        forall|left: u32, right: u32| call_requires(*merge, (left, right)),
        source@.len() == config.input_score_count,
        config.search_score_count <= config.input_score_count,
        config.merge_target_score_id < config.search_score_count,
        config.eos_score_id < config.search_score_count,
        0 <= flag <= 3,
    ensures
        heeds_flag(*merge, config, source@, flag, output@),
{
    let alone: bool = flag == 1 || flag == 3;
    let mut output: Vec<u32> = Vec::new();
    for index in 0..config.search_score_count
        invariant
            config.search_score_count <= source@.len(),
            output@.len() == index,
            forall|place: int|
                0 <= place < index ==> #[trigger] output@[place] == if alone {
                    config.score_floor
                } else {
                    source@[place]
                },
    {
        if alone {
            output.push(config.score_floor);
        } else {
            output.push(source[index]);
        }
    }
    if alone {
        output.set(config.merge_target_score_id, 0);
        output.set(config.eos_score_id, source[config.eos_score_id]);
    }
    if flag < 2 {
        let merged: u32 = merge(
            source[config.merge_target_score_id],
            source[config.eos_score_id],
        );
        output.set(config.merge_target_score_id, merged);
        output.set(config.eos_score_id, config.score_floor);
    }
    output
}

/// Whether all flags use known bits only.
fn flags_known(flags: &[i32]) -> (result: bool)
    ensures
        result == known_flags(flags@),
{
    for index in 0..flags.len()
        invariant
            forall|place: int| 0 <= place < index ==> 0 <= #[trigger] flags@[place] <= 3,
    {
        let flag: i32 = flags[index];
        if flag < 0 || flag > 3 {
            assert(!(0 <= flags@[index as int] <= 3));
            return false;
        }
    }
    true
}

/// The scores and flags have the shape of `beam_count` beams.
pub open spec fn shaped(
    scores: Seq<u32>,
    flags: Seq<i32>,
    beam_count: int,
    config: BeamSearchConfig,
) -> bool {
    scores.len() == beam_count * config.input_score_count && flags.len() == beam_count
}

/// Whether the scores and flags have the shape of `beam_count` beams.
fn is_shaped(
    scores: &[u32],
    flags: &[i32],
    beam_count: usize,
    config: BeamSearchConfig,
) -> (result: bool)
    ensures
        result == shaped(scores@, flags@, beam_count as int, config),
{
    let cells: Option<usize> = beam_count.checked_mul(config.input_score_count);
    let count: usize = scores.len();
    match cells {
        Some(cells) => count == cells && flags.len() == beam_count,
        None => false,
    }
}

/// The scores to search after the flag of each beam was heeded.
pub fn preprocess_scores<M: Fn(u32, u32) -> u32>(
    merge: &M,
    scores: &[u32],
    postproc_flags: &[i32],
    beam_count: usize,
    config: BeamSearchConfig,
) -> (result: Result<Vec<u32>, BeamError>)
    requires
        forall|left: u32, right: u32| call_requires(*merge, (left, right)),
        config.search_score_count <= config.input_score_count,
        config.merge_target_score_id < config.search_score_count,
        config.eos_score_id < config.search_score_count,
    ensures
        match result {
            Ok(output) => shaped(scores@, postproc_flags@, beam_count as int, config)
                && known_flags(postproc_flags@) && is_processed(
                *merge,
                config,
                scores@,
                postproc_flags@,
                output@,
            ),
            Err(error) => if shaped(scores@, postproc_flags@, beam_count as int, config) {
                !known_flags(postproc_flags@) && error == BeamError::Flag
            } else {
                error == BeamError::Shape
            },
        },
{
    if !is_shaped(scores, postproc_flags, beam_count, config) {
        return Err(BeamError::Shape);
    }
    if !flags_known(postproc_flags) {
        return Err(BeamError::Flag);
    }
    let input: usize = config.input_score_count;
    let cells: usize = scores.len();
    let mut output: Vec<u32> = Vec::new();
    assert(0 * config.search_score_count == 0) by (nonlinear_arith);
    for beam in 0..beam_count
        invariant
            forall|left: u32, right: u32| call_requires(*merge, (left, right)),
            config.search_score_count <= config.input_score_count,
            config.merge_target_score_id < config.search_score_count,
            config.eos_score_id < config.search_score_count,
            input == config.input_score_count,
            cells == scores@.len() == beam_count * input,
            postproc_flags@.len() == beam_count,
            known_flags(postproc_flags@),
            is_processed(
                *merge,
                config,
                scores@,
                postproc_flags@.take(beam as int),
                output@,
            ),
    {
        proof {
            lemma_row_inside(input as int, beam_count as int, beam as int);
        }
        let start: usize = beam * input;
        let source: &[u32] = slice_subrange(scores, start, start + input);
        let mut target: Vec<u32> = heed_flag(merge, config, source, postproc_flags[beam]);
        proof {
            lemma_rows_kept(output@, target@, config.search_score_count as int, beam as int);
            assert forall|place: int| 0 <= place < beam + 1 implies heeds_flag(
                *merge,
                config,
                row(scores@, input as int, place),
                #[trigger] postproc_flags@.take(beam + 1)[place],
                row(output@ + target@, config.search_score_count as int, place),
            ) by {
                if place < beam {
                    assert(postproc_flags@.take(beam as int)[place] == postproc_flags@[place]);
                }
            }
        }
        output.append(&mut target);
    }
    assert(postproc_flags@.take(beam_count as int) =~= postproc_flags@);
    Ok(output)
}

/// A copy of tokens.
fn copy_tokens(tokens: &Vec<i32>) -> (result: Vec<i32>)
    ensures
        result@ == tokens@,
{
    let mut result: Vec<i32> = Vec::new();
    for index in 0..tokens.len()
        invariant
            result@ == tokens@.take(index as int),
    {
        result.push(tokens[index]);
        assert(result@ =~= tokens@.take(index + 1));
    }
    assert(tokens@.take(tokens@.len() as int) =~= tokens@);
    result
}

impl BeamCandidate {
    /// A copy of the candidate.
    pub fn copy(&self) -> (result: BeamCandidate)
        ensures
            result@ == self@,
    {
        BeamCandidate {
            normalized_score: self.normalized_score,
            acoustic_score: self.acoustic_score,
            parent: self.parent,
            token: self.token,
            step: self.step,
            path: copy_tokens(&self.path),
            terminal: self.terminal,
        }
    }
}

/// A copy of candidates.
fn copy_candidates(candidates: &Vec<BeamCandidate>) -> (result: Vec<BeamCandidate>)
    ensures
        candidate_views(result@) == candidate_views(candidates@),
{
    let mut result: Vec<BeamCandidate> = Vec::new();
    for index in 0..candidates.len()
        invariant
            candidate_views(result@) == candidate_views(candidates@).take(index as int),
    {
        let ghost before = result@;
        result.push(candidates[index].copy());
        assert(candidate_views(result@) =~= candidate_views(before).push(candidates@[index as int]@));
        assert(candidate_views(result@) =~= candidate_views(candidates@).take(index + 1));
    }
    assert(candidate_views(candidates@).take(candidates@.len() as int) =~= candidate_views(
        candidates@,
    ));
    result
}

/// Ranks candidates by descending score; candidates with equal scores keep their order.
fn rank_candidates(candidates: &Vec<BeamCandidate>) -> (result: Vec<BeamCandidate>)
    ensures
        candidate_views(result@) == ranked(candidate_views(candidates@)),
{
    let ghost views = candidate_views(candidates@);
    let mut keys: Vec<u64> = Vec::new();
    for index in 0..candidates.len()
        invariant
            views == candidate_views(candidates@),
            keys@ == ranking_keys(views).take(index as int),
    {
        let key: i64 = number_place(candidates[index].normalized_score) + 0x8000_0000;
        keys.push(key as u64);
        assert(views[index as int] == candidates@[index as int]@);
        assert(keys@ =~= ranking_keys(views).take(index + 1));
    }
    assert(keys@ =~= ranking_keys(views));
    let order: Vec<usize> = stable_descending(keys.as_slice());
    proof {
        rank::law_ranking_is_unique(keys@, order@, ranking(views));
    }
    let mut result: Vec<BeamCandidate> = Vec::new();
    for index in 0..order.len()
        invariant
            views == candidate_views(candidates@),
            order@ == ranking(views),
            order@.len() == candidates@.len(),
            rank::is_ranking(ranking_keys(views), order@, candidates@.len() as int),
            candidate_views(result@) == ranked(views).take(index as int),
    {
        let ghost before = result@;
        let place: usize = order[index];
        result.push(candidates[place].copy());
        assert(candidate_views(result@) =~= candidate_views(before).push(views[place as int]));
        assert(candidate_views(result@) =~= ranked(views).take(index + 1));
    }
    assert(ranked(views).take(order@.len() as int) =~= ranked(views));
    result
}

/// Path `parent` with each of the chosen tokens, and whether one of the first two ends the path.
fn extend<N: Fn(u32, u32, usize) -> u32>(
    normalize: &N,
    config: BeamSearchConfig,
    active: &BeamCandidate,
    parent: usize,
    chosen: &Vec<(u32, i32)>,
    step: usize,
    frame_budget: usize,
) -> (candidates: Vec<BeamCandidate>)
    requires
        forall|previous: u32, acoustic: u32| call_requires(*normalize, (previous, acoustic, step)),
        config.eos_score_id < i32::MAX,
        config.step_divisor > 0,
    ensures
        extends(
            *normalize,
            config,
            active@,
            parent as int,
            chosen@,
            step as int,
            frame_budget as int,
            candidate_views(candidates@),
        ),
{
    let quotient: usize = frame_budget / config.step_divisor;
    let remainder: usize = frame_budget % config.step_divisor;
    let exhausted: bool = if remainder == 0 {
        step >= quotient
    } else {
        step > quotient
    };
    proof {
        lemma_step_limit(config, frame_budget as int);
    }
    let mut candidates: Vec<BeamCandidate> = Vec::new();
    for index in 0..chosen.len()
        invariant
            forall|previous: u32, acoustic: u32|
                call_requires(*normalize, (previous, acoustic, step)),
            config.eos_score_id < i32::MAX,
            exhausted == (step >= step_limit(config, frame_budget as int)),
            extends(
                *normalize,
                config,
                active@,
                parent as int,
                chosen@.take(index as int),
                step as int,
                frame_budget as int,
                candidate_views(candidates@),
            ),
    {
        let acoustic_score: u32 = chosen[index].0;
        let token: i32 = chosen[index].1;
        let normalized_score: u32 = normalize(active.normalized_score, acoustic_score, step);
        let mut path: Vec<i32> = copy_tokens(&active.path);
        path.push(token);
        let terminal: bool = token == config.eos_token() || exhausted;
        let ghost before = candidate_views(candidates@);
        candidates.push(
            BeamCandidate {
                normalized_score,
                acoustic_score,
                parent,
                token,
                step,
                path,
                terminal,
            },
        );
        proof {
            let after = candidate_views(candidates@);
            assert forall|place: int| 0 <= place < index + 1 implies {
                &&& (#[trigger] after[place]) == extended(
                    config,
                    active@,
                    parent as int,
                    chosen@.take(index + 1)[place],
                    after[place].normalized,
                    step as int,
                    frame_budget as int,
                )
                &&& call_ensures(
                    *normalize,
                    (active@.normalized, chosen@.take(index + 1)[place].0, step),
                    after[place].normalized,
                )
            } by {
                if place < index {
                    assert(after[place] == before[place]);
                    assert(chosen@.take(index as int)[place] == chosen@[place]);
                }
            }
        }
    }
    assert(chosen@.take(chosen@.len() as int) =~= chosen@);
    candidates
}

proof fn lemma_step_limit(config: BeamSearchConfig, frame_budget: int)
    requires
        config.step_divisor > 0,
        frame_budget >= 0,
    ensures
        step_limit(config, frame_budget) == frame_budget / (config.step_divisor as int) + (
        if frame_budget % (config.step_divisor as int) == 0 {
            0int
        } else {
            1
        }),
{
    let divisor = config.step_divisor as int;
    let quotient = frame_budget / divisor;
    let remainder = frame_budget % divisor;
    lemma_fundamental_div_mod(frame_budget, divisor);
    lemma_mod_bound(frame_budget, divisor);
    let last = frame_budget + divisor - 1;
    if remainder == 0 {
        assert(last == quotient * divisor + (divisor - 1)) by (nonlinear_arith)
            requires
                last == divisor * quotient + divisor - 1,
        ;
        lemma_fundamental_div_mod_converse(last, divisor, quotient, divisor - 1);
    } else {
        assert(last == (quotient + 1) * divisor + (remainder - 1)) by (nonlinear_arith)
            requires
                last == divisor * quotient + remainder + divisor - 1,
        ;
        lemma_fundamental_div_mod_converse(last, divisor, quotient + 1, remainder - 1);
    }
}

/// A step number, if any, as a mathematical number.
pub open spec fn step_view(step: Option<usize>) -> Option<int> {
    match step {
        Some(step) => Some(step as int),
        None => None,
    }
}

/// Row `failed` is the first one to hold a score that is not finite.
pub open spec fn fails_at(
    config: BeamSearchConfig,
    processed: Seq<u32>,
    count: int,
    failed: int,
) -> bool {
    &&& 0 <= failed < count
    &&& finite_rows(config, processed, failed)
    &&& !topk::all_finite(row(processed, config.search_score_count as int, failed))
}

/// The outcome of a step.
#[verifier::ext_equal]
pub struct Outcome {
    pub candidates: Seq<Candidate>,
    pub retained_finished: Seq<Candidate>,
    pub ranked_candidates: Seq<Candidate>,
    pub done: bool,
    pub first_eos: Option<int>,
}

/// What a step says of the search that it led to.
pub open spec fn outcome(after: Search, candidates: Seq<Candidate>) -> Outcome {
    Outcome {
        candidates: after.active,
        retained_finished: after.finished,
        ranked_candidates: ranked(candidates),
        done: after.done,
        first_eos: after.first_eos,
    }
}

/// How the search goes on from processed scores. A step that meets a score that is not finite
/// counts as taken, but leaves the paths as they are.
pub open spec fn searches<N: Fn(u32, u32, usize) -> u32>(
    normalize: N,
    before: Search,
    processed: Seq<u32>,
    frame_budget: int,
    after: Search,
    result: Result<Outcome, BeamError>,
) -> bool {
    let count = before.active.len() as int;
    let step = before.step + 1;
    if finite_rows(before.config, processed, count) {
        exists|candidates: Seq<Candidate>|
            {
                &&& #[trigger] expands(
                    normalize,
                    before.config,
                    before.active,
                    processed,
                    step,
                    frame_budget,
                    count,
                    candidates,
                )
                &&& after == advanced(
                    before,
                    candidates,
                    first_eos_after(before.config, processed, before.first_eos, step, count),
                )
                &&& result == Ok::<Outcome, BeamError>(outcome(after, candidates))
            }
    } else {
        exists|failed: int|
            {
                &&& #[trigger] fails_at(before.config, processed, count, failed)
                &&& after == (Search {
                    step,
                    first_eos: first_eos_after(
                        before.config,
                        processed,
                        before.first_eos,
                        step,
                        failed,
                    ),
                    ..before
                })
                &&& result == Err::<Outcome, BeamError>(BeamError::Selection)
            }
    }
}

/// How the search goes on from decoder scores.
pub open spec fn steps<M: Fn(u32, u32) -> u32, N: Fn(u32, u32, usize) -> u32>(
    merge: M,
    normalize: N,
    before: Search,
    scores: Seq<u32>,
    flags: Seq<i32>,
    frame_budget: int,
    after: Search,
    result: Result<Outcome, BeamError>,
) -> bool {
    if before.done {
        after == before && result == Err::<Outcome, BeamError>(BeamError::Complete)
    } else if !shaped(scores, flags, before.active.len() as int, before.config) {
        after == before && result == Err::<Outcome, BeamError>(BeamError::Shape)
    } else if !known_flags(flags) {
        after == before && result == Err::<Outcome, BeamError>(BeamError::Flag)
    } else {
        exists|processed: Seq<u32>|
            {
                &&& #[trigger] is_processed(merge, before.config, scores, flags, processed)
                &&& searches(normalize, before, processed, frame_budget, after, result)
            }
    }
}

/// Expands the active paths: the new candidates, or none when a score is not finite, and the step
/// at which a path first ended early.
fn expand<N: Fn(u32, u32, usize) -> u32>(
    normalize: &N,
    config: BeamSearchConfig,
    active: &Vec<BeamCandidate>,
    processed: &Vec<u32>,
    first_eos_step: Option<usize>,
    step: usize,
    frame_budget: usize,
) -> (result: (Option<Vec<BeamCandidate>>, Option<usize>))
    requires
        forall|previous: u32, acoustic: u32| call_requires(*normalize, (previous, acoustic, step)),
        config.valid(),
        config.search_score_count <= i32::MAX,
        processed@.len() == active@.len() * config.search_score_count,
    ensures
        match result.0 {
            Some(candidates) => finite_rows(config, processed@, active@.len() as int) && expands(
                *normalize,
                config,
                candidate_views(active@),
                processed@,
                step as int,
                frame_budget as int,
                active@.len() as int,
                candidate_views(candidates@),
            ) && step_view(result.1) == first_eos_after(
                config,
                processed@,
                step_view(first_eos_step),
                step as int,
                active@.len() as int,
            ),
            None => exists|failed: int|
                {
                    &&& #[trigger] fails_at(config, processed@, active@.len() as int, failed)
                    &&& step_view(result.1) == first_eos_after(
                        config,
                        processed@,
                        step_view(first_eos_step),
                        step as int,
                        failed,
                    )
                },
        },
{
    let width: usize = config.search_score_count;
    let count: usize = active.len();
    let cells: usize = processed.len();
    let mut first_eos: Option<usize> = first_eos_step;
    let mut candidates: Vec<BeamCandidate> = Vec::new();
    for parent in 0..count
        invariant
            forall|previous: u32, acoustic: u32|
                call_requires(*normalize, (previous, acoustic, step)),
            config.valid(),
            width == config.search_score_count <= i32::MAX,
            count == active@.len(),
            cells == processed@.len() == count * width,
            finite_rows(config, processed@, parent as int),
            expands(
                *normalize,
                config,
                candidate_views(active@),
                processed@,
                step as int,
                frame_budget as int,
                parent as int,
                candidate_views(candidates@),
            ),
            step_view(first_eos) == first_eos_after(
                config,
                processed@,
                step_view(first_eos_step),
                step as int,
                parent as int,
            ),
    {
        proof {
            lemma_row_inside(width as int, count as int, parent as int);
        }
        let start: usize = parent * width;
        let scores: &[u32] = slice_subrange(processed.as_slice(), start, start + width);
        assert(scores@ == row(processed@, width as int, parent as int));
        let chosen: Vec<(u32, i32)> = match select_top_k(scores, config.beam_width) {
            Ok(chosen) => chosen,
            Err(_) => {
                assert(fails_at(config, processed@, count as int, parent as int));
                return (None, first_eos);
            },
        };
        proof {
            topk::law_greatest(scores@, config.beam_width as int);
        }
        let eos: i32 = config.eos_token();
        let early: bool = chosen[0].1 == eos || (chosen.len() > 1 && chosen[1].1 == eos);
        if first_eos.is_none() && parent < 2 && early {
            first_eos = Some(step);
        }
        let mut more: Vec<BeamCandidate> = extend(
            normalize,
            config,
            &active[parent],
            parent,
            &chosen,
            step,
            frame_budget,
        );
        let ghost before = candidate_views(candidates@);
        let ghost added = candidate_views(more@);
        candidates.append(&mut more);
        proof {
            let after = candidate_views(candidates@);
            assert(after =~= before + added);
            assert(after.take(before.len() as int) =~= before);
            assert(after.skip(before.len() as int) =~= added);
        }
    }
    (Some(candidates), first_eos)
}

/// The outcome of a step of the search.
#[derive(Debug)]
pub struct BeamSearchResult {
    pub candidates: Vec<BeamCandidate>,
    pub retained_finished: Vec<BeamCandidate>,
    pub ranked_candidates: Vec<BeamCandidate>,
    pub done: bool,
    pub first_eos_step: Option<usize>,
}

impl View for BeamSearchResult {
    type V = Outcome;

    open spec fn view(&self) -> Outcome {
        Outcome {
            candidates: candidate_views(self.candidates@),
            retained_finished: candidate_views(self.retained_finished@),
            ranked_candidates: candidate_views(self.ranked_candidates@),
            done: self.done,
            first_eos: step_view(self.first_eos_step),
        }
    }
}

/// The content of a step's result.
pub open spec fn result_view(result: Result<BeamSearchResult, BeamError>) -> Result<
    Outcome,
    BeamError,
> {
    match result {
        Ok(found) => Ok(found@),
        Err(error) => Err(error),
    }
}

/// The token before which a candidate's token stands: tokens count from one, and model inputs
/// from zero.
pub open spec fn token_id(candidate: Candidate) -> i32 {
    (candidate.token - 1) as i32
}

impl BeamSearchResult {
    /// From which active path each candidate comes.
    pub fn parent_indices(&self) -> (result: Vec<usize>)
        ensures
            result@.len() == self.candidates@.len(),
            forall|index: int|
                0 <= index < result@.len() ==> #[trigger] result@[index]
                    == self.candidates@[index].parent,
    {
        let mut result: Vec<usize> = Vec::new();
        for index in 0..self.candidates.len()
            invariant
                result@.len() == index,
                forall|place: int|
                    0 <= place < index ==> #[trigger] result@[place]
                        == self.candidates@[place].parent,
        {
            result.push(self.candidates[index].parent);
        }
        result
    }

    /// The token of each candidate, counted from zero.
    pub fn token_ids(&self) -> (result: Vec<i32>)
        requires
            forall|index: int|
                0 <= index < self.candidates@.len() ==> #[trigger] self.candidates@[index].token
                    > i32::MIN,
        ensures
            result@.len() == self.candidates@.len(),
            forall|index: int|
                0 <= index < result@.len() ==> #[trigger] result@[index] == token_id(
                    self.candidates@[index]@,
                ),
    {
        let mut result: Vec<i32> = Vec::new();
        for index in 0..self.candidates.len()
            invariant
                forall|place: int|
                    0 <= place < self.candidates@.len() ==> #[trigger] self.candidates@[place].token
                        > i32::MIN,
                result@.len() == index,
                forall|place: int|
                    0 <= place < index ==> #[trigger] result@[place] == token_id(
                        self.candidates@[place]@,
                    ),
        {
            result.push(self.candidates[index].token - 1);
        }
        result
    }

    /// The length of each candidate.
    pub fn lengths(&self) -> (result: Vec<i32>)
        ensures
            result@.len() == self.candidates@.len(),
            forall|index: int|
                0 <= index < result@.len() ==> #[trigger] result@[index]
                    == self.candidates@[index].step as i32,
    {
        let mut result: Vec<i32> = Vec::new();
        for index in 0..self.candidates.len()
            invariant
                result@.len() == index,
                forall|place: int|
                    0 <= place < index ==> #[trigger] result@[place]
                        == self.candidates@[place].step as i32,
        {
            let length: i32 = #[verifier::truncate] (self.candidates[index].step as i32);
            result.push(length);
        }
        result
    }
}

/// Copies of the candidates that have come to an end, or that have not.
fn copy_with_ending(candidates: &Vec<BeamCandidate>, terminal: bool) -> (result: Vec<BeamCandidate>)
    ensures
        candidate_views(result@) == with_ending(candidate_views(candidates@), terminal),
{
    let ghost views = candidate_views(candidates@);
    let mut result: Vec<BeamCandidate> = Vec::new();
    for index in 0..candidates.len()
        invariant
            views == candidate_views(candidates@),
            candidate_views(result@) == with_ending(views.take(index as int), terminal),
    {
        let ghost before = result@;
        assert(views.take(index + 1).drop_last() =~= views.take(index as int));
        if candidates[index].terminal == terminal {
            result.push(candidates[index].copy());
            assert(candidate_views(result@) =~= candidate_views(before).push(views[index as int]));
        }
    }
    assert(views.take(candidates@.len() as int) =~= views);
    result
}

/// The part of a list is not longer than the list.
proof fn lemma_endings(candidates: Seq<Candidate>)
    ensures
        with_ending(candidates, true).len() + with_ending(candidates, false).len()
            == candidates.len(),
    decreases candidates.len(),
{
    if candidates.len() > 0 {
        lemma_endings(candidates.drop_last());
    }
}

/// Beam search: keeps the best paths through the decoder's scores.
#[derive(Debug)]
pub struct OriginalBeamSearch {
    config: BeamSearchConfig,
    step_index: usize,
    active: Vec<BeamCandidate>,
    finished: Vec<BeamCandidate>,
    first_eos_step: Option<usize>,
    done: bool,
}

impl View for OriginalBeamSearch {
    type V = Search;

    closed spec fn view(&self) -> Search {
        Search {
            config: self.config,
            step: self.step_index as int,
            active: candidate_views(self.active@),
            finished: candidate_views(self.finished@),
            first_eos: step_view(self.first_eos_step),
            done: self.done,
        }
    }
}

/// The candidate that every search starts from, as a list.
fn root_candidates() -> (result: Vec<BeamCandidate>)
    ensures
        candidate_views(result@) == seq![root()],
{
    let mut result: Vec<BeamCandidate> = Vec::new();
    result.push(
        BeamCandidate {
            normalized_score: 0,
            acoustic_score: 0,
            parent: 0,
            token: 0,
            step: 0,
            path: Vec::new(),
            terminal: false,
        },
    );
    assert(candidate_views(result@) =~= seq![root()]);
    result
}

impl OriginalBeamSearch {
    /// A search before its first step.
    pub fn new(config: BeamSearchConfig) -> (result: Result<Self, BeamError>)
        ensures
            match result {
                Ok(search) => config.valid() && search@ == Search::fresh(config) && search@.wf(),
                Err(error) => !config.valid() && error == BeamError::Configuration,
            },
    {
        match config.validate() {
            Ok(config) => {
                let search = OriginalBeamSearch {
                    config,
                    step_index: 0,
                    active: root_candidates(),
                    finished: Vec::new(),
                    first_eos_step: None,
                    done: false,
                };
                assert(search@ =~= Search::fresh(config));
                Ok(search)
            },
            Err(error) => Err(error),
        }
    }

    /// The configuration.
    pub fn config(&self) -> (result: BeamSearchConfig)
        ensures
            result == self@.config,
    {
        self.config
    }

    /// Starts anew.
    pub fn reset(&mut self)
        ensures
            final(self)@ == Search::fresh(old(self)@.config),
            old(self)@.config.valid() ==> final(self)@.wf(),
    {
        self.step_index = 0;
        self.active = root_candidates();
        self.finished = Vec::new();
        self.first_eos_step = None;
        self.done = false;
        assert(self@ =~= Search::fresh(old(self)@.config));
    }

    /// Extends each active path by its best tokens and keeps the best paths.
    pub fn step<M: Fn(u32, u32) -> u32, N: Fn(u32, u32, usize) -> u32>(
        &mut self,
        merge: &M,
        normalize: &N,
        scores: &[u32],
        postproc_flags: &[i32],
        frame_budget: usize,
    ) -> (result: Result<BeamSearchResult, BeamError>)
        requires
            forall|left: u32, right: u32| call_requires(*merge, (left, right)),
            forall|previous: u32, acoustic: u32, step: usize|
                call_requires(*normalize, (previous, acoustic, step)),
            old(self)@.wf(),
            old(self)@.config.search_score_count <= i32::MAX,
            old(self)@.step < usize::MAX,
        ensures
            steps(
                *merge,
                *normalize,
                old(self)@,
                scores@,
                postproc_flags@,
                frame_budget as int,
                final(self)@,
                result_view(result),
            ),
            final(self)@.wf(),
    {
        let ghost before = self@;
        if self.done {
            return Err(BeamError::Complete);
        }
        let config: BeamSearchConfig = self.config;
        let processed: Vec<u32> = match preprocess_scores(
            merge,
            scores,
            postproc_flags,
            self.active.len(),
            config,
        ) {
            Ok(processed) => processed,
            Err(error) => {
                return Err(error);
            },
        };
        self.step_index = self.step_index + 1;
        let (expanded, first_eos) = expand(
            normalize,
            config,
            &self.active,
            &processed,
            self.first_eos_step,
            self.step_index,
            frame_budget,
        );
        self.first_eos_step = first_eos;
        let candidates: Vec<BeamCandidate> = match expanded {
            Some(candidates) => candidates,
            None => {
                assert(searches(
                    *normalize,
                    before,
                    processed@,
                    frame_budget as int,
                    self@,
                    Err(BeamError::Selection),
                ));
                return Err(BeamError::Selection);
            },
        };
        let ghost fresh = candidate_views(candidates@);
        let ranked_candidates: Vec<BeamCandidate> = rank_candidates(&candidates);
        let mut pool: Vec<BeamCandidate> = copy_candidates(&ranked_candidates);
        let mut finished: Vec<BeamCandidate> = copy_candidates(&self.finished);
        let ghost merged = candidate_views(pool@) + candidate_views(finished@);
        pool.append(&mut finished);
        assert(candidate_views(pool@) =~= merged);
        let mut kept: Vec<BeamCandidate> = rank_candidates(&pool);
        let ghost all = candidate_views(kept@);
        if kept.len() > config.beam_width {
            kept.truncate(config.beam_width);
        }
        assert(candidate_views(kept@) =~= survivors(all, config.beam_width as int));
        let active: Vec<BeamCandidate> = copy_with_ending(&kept, false);
        let retained: Vec<BeamCandidate> = copy_with_ending(&kept, true);
        proof {
            lemma_endings(candidate_views(kept@));
        }
        self.done = active.len() == 0;
        self.active = copy_candidates(&active);
        self.finished = copy_candidates(&retained);
        let result = BeamSearchResult {
            candidates: active,
            retained_finished: retained,
            ranked_candidates,
            done: self.done,
            first_eos_step: self.first_eos_step,
        };
        proof {
            let after = advanced(
                before,
                fresh,
                first_eos_after(
                    config,
                    processed@,
                    before.first_eos,
                    before.step + 1,
                    before.active.len() as int,
                ),
            );
            assert(self@ =~= after);
            assert(result@ =~= outcome(after, fresh));
            assert(searches(
                *normalize,
                before,
                processed@,
                frame_budget as int,
                self@,
                Ok(result@),
            ));
        }
        Ok(result)
    }

    /// The active paths, best first.
    pub fn active(&self) -> (result: &[BeamCandidate])
        ensures
            candidate_views(result@) == self@.active,
    {
        self.active.as_slice()
    }

    /// The finished paths, best first.
    pub fn finished(&self) -> (result: &[BeamCandidate])
        ensures
            candidate_views(result@) == self@.finished,
    {
        self.finished.as_slice()
    }

    /// The best path: a finished one first at the end, else an active one first. A path without
    /// tokens does not count.
    pub fn best_candidate(&self, finalized: bool) -> (result: Option<&BeamCandidate>)
        ensures
            candidate_view(result) == best(self@, finalized),
    {
        let active: Option<&BeamCandidate> = if self.active.len() > 0
            && self.active[0].path.len() > 0 {
            Some(&self.active[0])
        } else {
            None
        };
        let finished: Option<&BeamCandidate> = if self.finished.len() > 0 {
            Some(&self.finished[0])
        } else {
            None
        };
        if finalized || self.done {
            if finished.is_some() {
                finished
            } else {
                active
            }
        } else if active.is_some() {
            active
        } else {
            finished
        }
    }

    /// The number of steps taken.
    pub fn step_index(&self) -> (result: usize)
        ensures
            result == self@.step,
    {
        self.step_index
    }

    /// Whether the search is complete.
    pub fn done(&self) -> (result: bool)
        ensures
            result == self@.done,
    {
        self.done
    }
}

/// The content of a candidate, if any.
pub open spec fn candidate_view(candidate: Option<&BeamCandidate>) -> Option<Candidate> {
    match candidate {
        Some(candidate) => Some(candidate@),
        None => None,
    }
}

/// The best path of a search.
pub open spec fn best(search: Search, finalized: bool) -> Option<Candidate> {
    let active = if search.active.len() > 0 && search.active[0].path.len() > 0 {
        Some(search.active[0])
    } else {
        None
    };
    let finished = if search.finished.len() > 0 {
        Some(search.finished[0])
    } else {
        None
    };
    if finalized || search.done {
        if finished is Some {
            finished
        } else {
            active
        }
    } else if active is Some {
        active
    } else {
        finished
    }
}

/// Each new candidate is an active path with one more token.
pub proof fn law_candidates_extend_their_parents<N: Fn(u32, u32, usize) -> u32>(
    normalize: N,
    config: BeamSearchConfig,
    active: Seq<Candidate>,
    processed: Seq<u32>,
    step: int,
    frame_budget: int,
    count: int,
    candidates: Seq<Candidate>,
    index: int,
)
    requires
        0 <= count <= active.len(),
        expands(normalize, config, active, processed, step, frame_budget, count, candidates),
        0 <= index < candidates.len(),
    ensures
        0 <= candidates[index].parent < count,
        candidates[index].path == active[candidates[index].parent].path.push(
            candidates[index].token,
        ),
        candidates[index].step == step,
        candidates[index].terminal == (candidates[index].token == config.eos_score_id + 1 || step
            >= step_limit(config, frame_budget)),
    decreases count,
{
    if count > 0 {
        let before = candidates.len() - config.beam_width;
        if index < before {
            law_candidates_extend_their_parents(
                normalize,
                config,
                active,
                processed,
                step,
                frame_budget,
                count - 1,
                candidates.take(before),
                index,
            );
        } else {
            assert(candidates.skip(before)[index - before] == candidates[index]);
        }
    }
}

/// Ranked candidates stand by descending score, and are those that were ranked.
pub proof fn law_ranked_by_score(candidates: Seq<Candidate>)
    requires
        candidates.len() <= usize::MAX,
    ensures
        ranked(candidates).len() == candidates.len(),
        forall|early: int, late: int|
            0 <= early < late < candidates.len() ==> topk::place(
                (#[trigger] ranked(candidates)[early]).normalized,
            ) >= topk::place((#[trigger] ranked(candidates)[late]).normalized),
        forall|candidate: Candidate|
            #[trigger] ranked(candidates).contains(candidate) == candidates.contains(candidate),
{
    let keys = ranking_keys(candidates);
    let witness = rank::law_ranking_exists(keys, keys.len() as int);
    let order = ranking(candidates);
    assert(rank::is_ranking(keys, order, candidates.len() as int));
    assert forall|early: int, late: int| 0 <= early < late < candidates.len() implies topk::place(
        (#[trigger] ranked(candidates)[early]).normalized,
    ) >= topk::place((#[trigger] ranked(candidates)[late]).normalized) by {
        assert(rank::ranks_before(keys, order[early] as int, order[late] as int));
    }
    assert forall|candidate: Candidate| #[trigger]
        ranked(candidates).contains(candidate) == candidates.contains(candidate) by {
        if ranked(candidates).contains(candidate) {
            let at = choose|at: int|
                0 <= at < ranked(candidates).len() && ranked(candidates)[at] == candidate;
            assert(candidates[order[at] as int] == candidate);
        }
        if candidates.contains(candidate) {
            let at = choose|at: int| 0 <= at < candidates.len() && candidates[at] == candidate;
            assert(order.contains(at as usize));
            let place = choose|place: int| 0 <= place < order.len() && order[place] == at as usize;
            assert(ranked(candidates)[place] == candidate);
        }
    }
}

proof fn lemma_ending_kept(candidates: Seq<Candidate>, terminal: bool, index: int)
    requires
        0 <= index < with_ending(candidates, terminal).len(),
    ensures
        with_ending(candidates, terminal)[index].terminal == terminal,
        candidates.contains(with_ending(candidates, terminal)[index]),
    decreases candidates.len(),
{
    if candidates.len() > 0 {
        let shorter = candidates.drop_last();
        if index < with_ending(shorter, terminal).len() {
            lemma_ending_kept(shorter, terminal, index);
            let found = with_ending(shorter, terminal)[index];
            let at = choose|at: int| 0 <= at < shorter.len() && shorter[at] == found;
            assert(candidates[at] == found);
        } else {
            assert(candidates[candidates.len() - 1] == candidates.last());
        }
    }
}

/// After a step, each active path is a new candidate that has not ended, and each finished one is
/// a candidate, new or finished before, that has.
pub proof fn law_paths_come_from_candidates(
    before: Search,
    candidates: Seq<Candidate>,
    first_eos: Option<int>,
)
    requires
        candidates.len() + before.finished.len() <= usize::MAX,
        forall|index: int|
            0 <= index < before.finished.len() ==> (#[trigger] before.finished[index]).terminal,
    ensures
        forall|index: int|
            #![trigger advanced(before, candidates, first_eos).active[index]]
            0 <= index < advanced(before, candidates, first_eos).active.len() ==> !advanced(
                before,
                candidates,
                first_eos,
            ).active[index].terminal && candidates.contains(
                advanced(before, candidates, first_eos).active[index],
            ),
        forall|index: int|
            #![trigger advanced(before, candidates, first_eos).finished[index]]
            0 <= index < advanced(before, candidates, first_eos).finished.len() ==> {
                let path = advanced(before, candidates, first_eos).finished[index];
                path.terminal && (candidates.contains(path) || before.finished.contains(path))
            },
{
    let after = advanced(before, candidates, first_eos);
    let pool = ranked(candidates) + before.finished;
    let kept = survivors(ranked(pool), before.config.beam_width as int);
    law_ranked_by_score(candidates);
    law_ranked_by_score(pool);
    assert forall|path: Candidate| kept.contains(path) implies candidates.contains(path)
        || before.finished.contains(path) by {
        let at = choose|at: int| 0 <= at < kept.len() && kept[at] == path;
        assert(ranked(pool)[at] == path);
        assert(ranked(pool).contains(path));
        assert(pool.contains(path));
        let place = choose|place: int| 0 <= place < pool.len() && pool[place] == path;
        if place < ranked(candidates).len() {
            assert(ranked(candidates)[place] == path);
            assert(ranked(candidates).contains(path));
        } else {
            assert(before.finished[place - ranked(candidates).len()] == path);
        }
    }
    assert forall|index: int| 0 <= index < after.active.len() implies !(
    #[trigger] after.active[index]).terminal && candidates.contains(after.active[index]) by {
        lemma_ending_kept(kept, false, index);
        let path = after.active[index];
        if before.finished.contains(path) {
            let at = choose|at: int|
                0 <= at < before.finished.len() && before.finished[at] == path;
            assert(before.finished[at].terminal);
        }
    }
    assert forall|index: int| 0 <= index < after.finished.len() implies {
        let path = #[trigger] after.finished[index];
        path.terminal && (candidates.contains(path) || before.finished.contains(path))
    } by {
        lemma_ending_kept(kept, true, index);
    }
}

/// Items picked by a list of all their positions are the same items.
proof fn lemma_picked_multiset(candidates: Seq<Candidate>, order: Seq<usize>)
    requires
        candidates.len() <= usize::MAX,
        order.len() == candidates.len(),
        forall|place: int|
            0 <= place < order.len() ==> 0 <= (#[trigger] order[place]) < candidates.len(),
        forall|early: int, late: int|
            0 <= early < late < order.len() ==> #[trigger] order[early] != #[trigger] order[late],
        forall|item: usize| item < candidates.len() ==> #[trigger] order.contains(item),
    ensures
        Seq::new(
            candidates.len(),
            |index: int| candidates[order[index] as int],
        ).to_multiset() == candidates.to_multiset(),
    decreases candidates.len(),
{
    broadcast use vstd::seq_lib::group_to_multiset_ensures;

    let picked = Seq::new(candidates.len(), |index: int| candidates[order[index] as int]);
    let count = candidates.len() as int;
    if count == 0 {
        assert(picked =~= candidates);
    } else {
        let last = (count - 1) as usize;
        assert(order.contains(last));
        let place = choose|place: int| 0 <= place < order.len() && order[place] == last;
        let shorter = candidates.drop_last();
        let rest = order.remove(place);
        assert forall|at: int| 0 <= at < rest.len() implies 0 <= (#[trigger] rest[at])
            < shorter.len() by {
            let from = if at < place {
                at
            } else {
                at + 1
            };
            assert(rest[at] == order[from]);
            assert(order[from] != order[place]);
        }
        assert forall|early: int, late: int| 0 <= early < late < rest.len() implies (
        #[trigger] rest[early]) != #[trigger] rest[late] by {
            let first = if early < place {
                early
            } else {
                early + 1
            };
            let second = if late < place {
                late
            } else {
                late + 1
            };
            assert(order[first] != order[second]);
        }
        assert forall|item: usize| item < shorter.len() implies #[trigger] rest.contains(item) by {
            assert(order.contains(item));
            let at = choose|at: int| 0 <= at < order.len() && order[at] == item;
            assert(at != place);
            if at < place {
                assert(rest[at] == item);
            } else {
                assert(rest[at - 1] == item);
            }
        }
        lemma_picked_multiset(shorter, rest);
        let fewer = Seq::new(shorter.len(), |index: int| shorter[rest[index] as int]);
        assert(picked.remove(place) =~= fewer) by {
            assert forall|at: int| 0 <= at < fewer.len() implies picked.remove(place)[at]
                == fewer[at] by {
                let from = if at < place {
                    at
                } else {
                    at + 1
                };
                assert(rest[at] == order[from]);
                assert(0 <= rest[at] < shorter.len());
            }
        }
        assert(picked[place] == candidates.last());
        assert(picked.to_multiset().remove(picked[place]) =~= fewer.to_multiset());
        assert(candidates =~= shorter.push(candidates.last()));
        assert(picked.to_multiset().count(picked[place]) > 0) by {
            assert(picked.contains(picked[place]));
        }
        assert(picked.to_multiset() =~= fewer.to_multiset().insert(picked[place]));
    }
}

/// Ranking keeps every candidate as often as it is there.
proof fn lemma_ranked_multiset(candidates: Seq<Candidate>)
    requires
        candidates.len() <= usize::MAX,
    ensures
        ranked(candidates).to_multiset() == candidates.to_multiset(),
{
    let keys = ranking_keys(candidates);
    let witness = rank::law_ranking_exists(keys, keys.len() as int);
    let order = ranking(candidates);
    assert(rank::is_ranking(keys, order, candidates.len() as int));
    assert forall|early: int, late: int| 0 <= early < late < order.len() implies (
    #[trigger] order[early]) != #[trigger] order[late] by {
        assert(rank::ranks_before(keys, order[early] as int, order[late] as int));
    }
    lemma_picked_multiset(candidates, order);
}

/// Parting candidates by their ending loses none.
proof fn lemma_endings_multiset(candidates: Seq<Candidate>)
    ensures
        with_ending(candidates, false).to_multiset().add(
            with_ending(candidates, true).to_multiset(),
        ) == candidates.to_multiset(),
    decreases candidates.len(),
{
    broadcast use vstd::seq_lib::group_to_multiset_ensures;

    if candidates.len() > 0 {
        lemma_endings_multiset(candidates.drop_last());
        assert(candidates =~= candidates.drop_last().push(candidates.last()));
    }
    assert(with_ending(candidates, false).to_multiset().add(
        with_ending(candidates, true).to_multiset(),
    ) =~= candidates.to_multiset());
}

/// The paths that a search holds, each as often as it is there.
pub open spec fn held_paths(search: Search) -> Multiset<Candidate> {
    search.active.to_multiset().add(search.finished.to_multiset())
}

/// A step keeps the best of the new candidates and of the paths that had finished before: as many
/// as the beam is wide, or all if they are fewer, and none that is left out scores higher than one
/// that is kept. Those that have ended are finished, and the others are active.
pub proof fn law_best_paths_are_kept<M: Fn(u32, u32) -> u32, N: Fn(u32, u32, usize) -> u32>(
    merge: M,
    normalize: N,
    before: Search,
    scores: Seq<u32>,
    flags: Seq<i32>,
    frame_budget: int,
    after: Search,
    found: Outcome,
)
    requires
        steps(merge, normalize, before, scores, flags, frame_budget, after, Ok(found)),
        found.ranked_candidates.len() + before.finished.len() <= usize::MAX,
    ensures
        ({
            let pool = found.ranked_candidates.to_multiset().add(before.finished.to_multiset());
            let total = found.ranked_candidates.len() + before.finished.len();
            &&& after.active.len() + after.finished.len() == if total < before.config.beam_width {
                total as int
            } else {
                before.config.beam_width as int
            }
            &&& held_paths(after).subset_of(pool)
            &&& forall|left: Candidate, kept: Candidate|
                #![trigger pool.count(left), held_paths(after).count(kept)]
                pool.count(left) > held_paths(after).count(left) && held_paths(after).count(kept)
                    > 0 ==> topk::place(left.normalized) <= topk::place(kept.normalized)
            &&& forall|index: int|
                0 <= index < after.active.len() ==> !(#[trigger] after.active[index]).terminal
            &&& forall|index: int|
                0 <= index < after.finished.len() ==> (#[trigger] after.finished[index]).terminal
            &&& after.done == (after.active.len() == 0)
            &&& after.step == before.step + 1
        }),
{
    broadcast use vstd::seq_lib::group_to_multiset_ensures;

    let processed = choose|processed: Seq<u32>|
        {
            &&& #[trigger] is_processed(merge, before.config, scores, flags, processed)
            &&& searches(normalize, before, processed, frame_budget, after, Ok(found))
        };
    let count = before.active.len() as int;
    let step = before.step + 1;
    let candidates = choose|candidates: Seq<Candidate>|
        {
            &&& #[trigger] expands(
                normalize,
                before.config,
                before.active,
                processed,
                step,
                frame_budget,
                count,
                candidates,
            )
            &&& after == advanced(
                before,
                candidates,
                first_eos_after(before.config, processed, before.first_eos, step, count),
            )
            &&& Ok::<Outcome, BeamError>(found) == Ok::<Outcome, BeamError>(
                outcome(after, candidates),
            )
        };
    let fresh = ranked(candidates);
    let joined = fresh + before.finished;
    let all = ranked(joined);
    let width = before.config.beam_width as int;
    let kept = survivors(all, width);
    law_ranked_by_score(joined);
    lemma_ranked_multiset(joined);
    lemma_endings_multiset(kept);
    lemma_endings(kept);
    vstd::seq_lib::lemma_multiset_commutative(fresh, before.finished);
    assert(held_paths(after) == kept.to_multiset());
    let pool = fresh.to_multiset().add(before.finished.to_multiset());
    assert(pool == all.to_multiset());
    let rest = all.skip(kept.len() as int);
    assert(all =~= kept + rest);
    vstd::seq_lib::lemma_multiset_commutative(kept, rest);
    assert(pool =~= kept.to_multiset().add(rest.to_multiset()));
    assert forall|left: Candidate, best: Candidate|
        #![trigger pool.count(left), held_paths(after).count(best)]
        pool.count(left) > held_paths(after).count(left) && held_paths(after).count(best)
            > 0 implies topk::place(left.normalized) <= topk::place(best.normalized) by {
        assert(rest.to_multiset().count(left) > 0);
        assert(rest.contains(left));
        assert(kept.contains(best));
        let early = choose|at: int| 0 <= at < kept.len() && kept[at] == best;
        let late = choose|at: int| 0 <= at < rest.len() && rest[at] == left;
        assert(all[early] == best);
        assert(all[kept.len() + late] == left);
    }
    assert forall|index: int| 0 <= index < after.active.len() implies !(
    #[trigger] after.active[index]).terminal by {
        lemma_ending_kept(kept, false, index);
    }
    assert forall|index: int| 0 <= index < after.finished.len() implies (
    #[trigger] after.finished[index]).terminal by {
        lemma_ending_kept(kept, true, index);
    }
}

/// The new candidates come parent by parent, as many for each as the beam is wide.
proof fn lemma_expanded<N: Fn(u32, u32, usize) -> u32>(
    normalize: N,
    config: BeamSearchConfig,
    active: Seq<Candidate>,
    processed: Seq<u32>,
    step: int,
    frame_budget: int,
    count: int,
    candidates: Seq<Candidate>,
)
    requires
        0 <= count <= active.len(),
        expands(normalize, config, active, processed, step, frame_budget, count, candidates),
    ensures
        candidates.len() == count * config.beam_width,
        forall|parent: int, index: int|
            #![trigger kernels::cell(parent, index, config.beam_width as int)]
            0 <= parent < count && 0 <= index < config.beam_width ==> {
                let candidate = candidates[kernels::cell(parent, index, config.beam_width as int)];
                let choice = choices(config, processed, parent)[index];
                &&& candidate == extended(
                    config,
                    active[parent],
                    parent,
                    choice,
                    candidate.normalized,
                    step,
                    frame_budget,
                )
                &&& call_ensures(
                    normalize,
                    (active[parent].normalized, choice.0, step as usize),
                    candidate.normalized,
                )
            },
    decreases count,
{
    let width = config.beam_width as int;
    if count > 0 {
        let before = candidates.len() - width;
        lemma_expanded(
            normalize,
            config,
            active,
            processed,
            step,
            frame_budget,
            count - 1,
            candidates.take(before),
        );
        assert(count * width == (count - 1) * width + width) by (nonlinear_arith);
        assert forall|parent: int, index: int|
            #![trigger kernels::cell(parent, index, width)]
            0 <= parent < count && 0 <= index < width implies {
            let candidate = candidates[kernels::cell(parent, index, width)];
            let choice = choices(config, processed, parent)[index];
            &&& candidate == extended(
                config,
                active[parent],
                parent,
                choice,
                candidate.normalized,
                step,
                frame_budget,
            )
            &&& call_ensures(
                normalize,
                (active[parent].normalized, choice.0, step as usize),
                candidate.normalized,
            )
        } by {
            if parent < count - 1 {
                kernels::lemma_cell_inside(parent, count - 1, index, width);
                assert(candidates.take(before)[kernels::cell(parent, index, width)]
                    == candidates[kernels::cell(parent, index, width)]);
            } else {
                assert(candidates.skip(before)[index] == candidates[kernels::cell(
                    parent,
                    index,
                    width,
                )]);
            }
        }
    } else {
        assert(count * width == 0) by (nonlinear_arith)
            requires
                count == 0,
        ;
    }
}

/// What flags do to a row of scores. Two leaves all scores that are searched as they are. Under two
/// no path ends, and the score of ending goes over to the merge target. Odd flags leave no other
/// token than these; with three they have the scores of ending and of certainty.
pub proof fn law_flags_rule_scores<M: Fn(u32, u32) -> u32>(
    merge: M,
    config: BeamSearchConfig,
    source: Seq<u32>,
    flag: i32,
    output: Seq<u32>,
)
    requires
        config.valid(),
        source.len() == config.input_score_count,
        0 <= flag <= 3,
        heeds_flag(merge, config, source, flag, output),
    ensures
        output.len() == config.search_score_count,
        flag == 2 ==> output == source.take(config.search_score_count as int),
        flag == 0 || flag == 1 ==> output[config.eos_score_id as int] == config.score_floor
            && call_ensures(
            merge,
            (source[config.merge_target_score_id as int], source[config.eos_score_id as int]),
            output[config.merge_target_score_id as int],
        ),
        flag == 3 ==> output[config.eos_score_id as int] == source[config.eos_score_id as int]
            && output[config.merge_target_score_id as int] == 0,
        forall|token: int|
            0 <= token < output.len() && token != config.eos_score_id && token
                != config.merge_target_score_id ==> (#[trigger] output[token]) == if flag == 0
                || flag == 2 {
                source[token]
            } else {
                config.score_floor
            },
{
    if flag == 2 {
        assert(output =~= source.take(config.search_score_count as int));
    }
}

/// The greatest items of a row stand at different positions of it.
proof fn lemma_choices_differ(scores: Seq<u32>, limit: int)
    requires
        0 < limit <= scores.len() <= usize::MAX,
    ensures
        topk::greatest(scores, limit).len() == limit,
        forall|index: int|
            0 <= index < limit ==> {
                let item = #[trigger] topk::greatest(scores, limit)[index];
                0 <= item.1 < scores.len() && item.0 == scores[item.1 as int]
            },
        forall|early: int, late: int|
            0 <= early < late < limit ==> (#[trigger] topk::greatest(scores, limit)[early]).1 != (
            #[trigger] topk::greatest(scores, limit)[late]).1,
        forall|position: int|
            0 <= position < scores.len() && (forall|index: int|
                0 <= index < limit ==> (#[trigger] topk::greatest(scores, limit)[index]).1
                    != position) ==> (forall|index: int|
                0 <= index < limit ==> topk::place(#[trigger] scores[position]) <= topk::place(
                    (#[trigger] topk::greatest(scores, limit)[index]).0,
                )),
{
    broadcast use vstd::seq_lib::group_to_multiset_ensures;

    topk::law_greatest(scores, limit);
    let best = topk::greatest(scores, limit);
    let rest = topk::left_out(scores, limit, scores.len() as int);
    let all = topk::items(scores, scores.len() as int);
    assert forall|index: int| 0 <= index < limit implies {
        let item = #[trigger] best[index];
        0 <= item.1 < scores.len() && item.0 == scores[item.1 as int]
    } by {
        assert(best.contains(best[index]));
        assert(best.to_multiset().count(best[index]) > 0);
        assert(all.to_multiset().count(best[index]) > 0);
        assert(all.contains(best[index]));
    }
    assert(all.no_duplicates());
    all.lemma_multiset_has_no_duplicates();
    assert forall|early: int, late: int| 0 <= early < late < limit implies (
    #[trigger] best[early]).1 != (#[trigger] best[late]).1 by {
        if best[early].1 == best[late].1 {
            assert(best[early] == best[late]);
            let fewer = best.remove(late);
            assert(fewer[early] == best[early]);
            assert(fewer.contains(best[early]));
            assert(fewer.to_multiset().count(best[early]) > 0);
            assert(best.to_multiset().count(best[early]) > 1);
            assert(all.to_multiset().count(best[early]) > 1);
        }
    }
    assert forall|position: int|
        0 <= position < scores.len() && (forall|index: int|
            0 <= index < limit ==> (#[trigger] best[index]).1 != position) implies (forall|
        index: int,
    |
        0 <= index < limit ==> topk::place(#[trigger] scores[position]) <= topk::place(
            (#[trigger] best[index]).0,
        )) by {
        let item = all[position];
        assert(all.contains(item));
        assert(all.to_multiset().count(item) > 0);
        assert(!best.contains(item)) by {
            if best.contains(item) {
                let at = choose|at: int| 0 <= at < best.len() && best[at] == item;
                assert(best[at].1 == position);
            }
        }
        assert(best.to_multiset().count(item) == 0);
        assert(rest.count(item) > 0);
        assert forall|index: int| 0 <= index < limit implies topk::place(scores[position])
            <= topk::place((#[trigger] best[index]).0) by {
            assert(best.contains(best[index]));
            assert(topk::rank(item) <= topk::rank(best[index]));
        }
    }
}

/// A candidate's score is that of its token in the row of its parent, where the parent's flag leaves
/// the scores as they are.
pub open spec fn scored_by(
    config: BeamSearchConfig,
    scores: Seq<u32>,
    parent: int,
    token: int,
) -> u32 {
    scores[parent * config.input_score_count + token - 1]
}

/// A step makes as many new candidates of each active path as the beam is wide. Each one is its
/// parent's path with one more token, and ends with the token that ends paths or when the frames
/// allow no more steps; its score is made of its parent's and its token's. Where the decoder's flag
/// leaves the scores as they are, the tokens are different ones, and no other token scores higher.
pub proof fn law_candidates_take_the_best_tokens<
    M: Fn(u32, u32) -> u32,
    N: Fn(u32, u32, usize) -> u32,
>(
    merge: M,
    normalize: N,
    before: Search,
    scores: Seq<u32>,
    flags: Seq<i32>,
    frame_budget: int,
    after: Search,
    found: Outcome,
) -> (candidates: Seq<Candidate>)
    requires
        before.config.valid(),
        before.config.search_score_count <= i32::MAX,
        0 <= frame_budget,
        0 <= before.step < usize::MAX,
        steps(merge, normalize, before, scores, flags, frame_budget, after, Ok(found)),
        found.ranked_candidates.len() <= usize::MAX,
    ensures
        ({
            let config = before.config;
            let width = config.beam_width as int;
            let step = before.step + 1;
            &&& candidates.to_multiset() == found.ranked_candidates.to_multiset()
            &&& candidates.len() == before.active.len() * width
            &&& forall|parent: int, index: int|
                #![trigger kernels::cell(parent, index, width)]
                0 <= parent < before.active.len() && 0 <= index < width ==> {
                    let candidate = candidates[kernels::cell(parent, index, width)];
                    &&& candidate.parent == parent
                    &&& candidate.path == before.active[parent].path.push(candidate.token)
                    &&& candidate.step == step
                    &&& candidate.terminal == (candidate.token == config.eos_score_id + 1 || step
                        * config.step_divisor >= frame_budget)
                    &&& call_ensures(
                        normalize,
                        (before.active[parent].normalized, candidate.acoustic, step as usize),
                        candidate.normalized,
                    )
                    &&& 1 <= candidate.token <= config.search_score_count
                    &&& flags[parent] == 2 ==> candidate.acoustic == scored_by(
                        config,
                        scores,
                        parent,
                        candidate.token as int,
                    )
                }
            &&& forall|parent: int, early: int, late: int|
                #![trigger kernels::cell(parent, early, width), kernels::cell(parent, late, width)]
                0 <= parent < before.active.len() && 0 <= early < late < width
                    ==> candidates[kernels::cell(parent, early, width)].token
                    != candidates[kernels::cell(parent, late, width)].token
            &&& forall|parent: int, token: int, index: int|
                #![trigger scored_by(config, scores, parent, token), kernels::cell(parent, index, width)]
                0 <= parent < before.active.len() && flags[parent] == 2 && 1 <= token
                    <= config.search_score_count && 0 <= index < width && (forall|other: int|
                    #![trigger kernels::cell(parent, other, width)]
                    0 <= other < width ==> candidates[kernels::cell(parent, other, width)].token
                        != token) ==> topk::place(scored_by(config, scores, parent, token))
                    <= topk::place(candidates[kernels::cell(parent, index, width)].acoustic)
        }),
{
    let config = before.config;
    let width = config.beam_width as int;
    let step = before.step + 1;
    let count = before.active.len() as int;
    let processed = choose|processed: Seq<u32>|
        {
            &&& #[trigger] is_processed(merge, config, scores, flags, processed)
            &&& searches(normalize, before, processed, frame_budget, after, Ok(found))
        };
    let candidates = choose|candidates: Seq<Candidate>|
        {
            &&& #[trigger] expands(
                normalize,
                config,
                before.active,
                processed,
                step,
                frame_budget,
                count,
                candidates,
            )
            &&& after == advanced(
                before,
                candidates,
                first_eos_after(config, processed, before.first_eos, step, count),
            )
            &&& Ok::<Outcome, BeamError>(found) == Ok::<Outcome, BeamError>(
                outcome(after, candidates),
            )
        };
    lemma_ranked_multiset(candidates);
    lemma_expanded(
        normalize,
        config,
        before.active,
        processed,
        step,
        frame_budget,
        count,
        candidates,
    );
    assert((step >= step_limit(config, frame_budget)) == (step * config.step_divisor
        >= frame_budget)) by {
        lemma_limit_in_frames(config, step, frame_budget);
    }
    let columns = config.search_score_count as int;
    assert forall|parent: int| 0 <= parent < count implies {
        let line = #[trigger] row(processed, columns, parent);
        &&& line.len() == columns
        &&& flags[parent] == 2 ==> forall|token: int|
            1 <= token <= columns ==> (#[trigger] scored_by(config, scores, parent, token))
                == line[token - 1]
    } by {
        lemma_row_inside(columns, count, parent);
        lemma_row_inside(config.input_score_count as int, count, parent);
        let source = row(scores, config.input_score_count as int, parent);
        let line = row(processed, columns, parent);
        let flag = flags[parent];
        assert(heeds_flag(merge, config, source, flag, line));
        if flag == 2 {
            law_flags_rule_scores(merge, config, source, flag, line);
            assert forall|token: int| 1 <= token <= columns implies (#[trigger] scored_by(
                config,
                scores,
                parent,
                token,
            )) == line[token - 1] by {
                assert(source.take(columns)[token - 1] == source[token - 1]);
            }
        }
    }
    assert forall|parent: int, index: int|
        #![trigger kernels::cell(parent, index, width)]
        0 <= parent < count && 0 <= index < width implies {
        let candidate = candidates[kernels::cell(parent, index, width)];
        &&& 1 <= candidate.token <= columns
        &&& flags[parent] == 2 ==> candidate.acoustic == scored_by(
            config,
            scores,
            parent,
            candidate.token as int,
        )
    } by {
        let line = row(processed, columns, parent);
        lemma_choices_differ(line, width);
        let item = topk::greatest(line, width)[index];
        assert(choices(config, processed, parent)[index] == (item.0, (item.1 + 1) as i32));
        assert(scored_by(config, scores, parent, item.1 + 1) == scores[parent
            * config.input_score_count + item.1]);
    }
    assert forall|parent: int, early: int, late: int|
        #![trigger kernels::cell(parent, early, width), kernels::cell(parent, late, width)]
        0 <= parent < count && 0 <= early < late < width implies candidates[kernels::cell(
        parent,
        early,
        width,
    )].token != candidates[kernels::cell(parent, late, width)].token by {
        let line = row(processed, columns, parent);
        lemma_choices_differ(line, width);
        assert(topk::greatest(line, width)[early].1 != topk::greatest(line, width)[late].1);
        assert(choices(config, processed, parent)[early].1 == topk::greatest(line, width)[early].1
            + 1);
        assert(choices(config, processed, parent)[late].1 == topk::greatest(line, width)[late].1
            + 1);
    }
    assert forall|parent: int, token: int, index: int|
        #![trigger scored_by(config, scores, parent, token), kernels::cell(parent, index, width)]
        0 <= parent < count && flags[parent] == 2 && 1 <= token <= columns && 0 <= index < width && (
        forall|other: int|
            #![trigger kernels::cell(parent, other, width)]
            0 <= other < width ==> candidates[kernels::cell(parent, other, width)].token
                != token) implies topk::place(scored_by(config, scores, parent, token))
        <= topk::place(candidates[kernels::cell(parent, index, width)].acoustic) by {
        let line = row(processed, columns, parent);
        lemma_choices_differ(line, width);
        let best = topk::greatest(line, width);
        assert forall|other: int| 0 <= other < width implies (#[trigger] best[other]).1 != token
            - 1 by {
            assert(candidates[kernels::cell(parent, other, width)].token != token);
            assert(choices(config, processed, parent)[other].1 == best[other].1 + 1);
        }
        assert(topk::place(line[token - 1]) <= topk::place(best[index].0));
        assert(choices(config, processed, parent)[index].0 == best[index].0);
    }
    candidates
}

/// The frames allow no more steps once the steps use them up.
proof fn lemma_limit_in_frames(config: BeamSearchConfig, step: int, frame_budget: int)
    requires
        config.step_divisor > 0,
        frame_budget >= 0,
    ensures
        (step >= step_limit(config, frame_budget)) == (step * config.step_divisor >= frame_budget),
{
    let divisor = config.step_divisor as int;
    lemma_step_limit(config, frame_budget);
    lemma_fundamental_div_mod(frame_budget, divisor);
    lemma_mod_bound(frame_budget, divisor);
    let quotient = frame_budget / divisor;
    let remainder = frame_budget % divisor;
    if step >= step_limit(config, frame_budget) {
        assert(step * divisor >= frame_budget) by (nonlinear_arith)
            requires
                frame_budget == divisor * quotient + remainder,
                remainder < divisor,
                remainder == 0 ==> step >= quotient,
                remainder != 0 ==> step >= quotient + 1,
                divisor > 0,
                remainder >= 0,
        ;
    } else {
        assert(step * divisor < frame_budget) by (nonlinear_arith)
            requires
                frame_budget == divisor * quotient + remainder,
                remainder == 0 ==> step <= quotient - 1,
                remainder != 0 ==> step <= quotient,
                divisor > 0,
                remainder >= 0,
        ;
    }
}

/// The best path: at the end a finished one if there is any, and before the end an active one that
/// has tokens; it is a path of that kind that none other of the kind outscores.
pub proof fn law_best_path_is_not_outscored(search: Search, finalized: bool)
    requires
        forall|early: int, late: int|
            0 <= early < late < search.finished.len() ==> topk::place(
                (#[trigger] search.finished[early]).normalized,
            ) >= topk::place((#[trigger] search.finished[late]).normalized),
        forall|early: int, late: int|
            0 <= early < late < search.active.len() ==> topk::place(
                (#[trigger] search.active[early]).normalized,
            ) >= topk::place((#[trigger] search.active[late]).normalized),
    ensures
        ({
            let started = search.active.len() > 0 && search.active[0].path.len() > 0;
            let at_end = finalized || search.done;
            match best(search, finalized) {
                Some(path) => {
                    ||| search.finished.contains(path) && (at_end || !started) && forall|index: int|
                        0 <= index < search.finished.len() ==> topk::place(
                            (#[trigger] search.finished[index]).normalized,
                        ) <= topk::place(path.normalized)
                    ||| search.active.contains(path) && path.path.len() > 0 && (!at_end
                        || search.finished.len() == 0) && forall|index: int|
                        0 <= index < search.active.len() ==> topk::place(
                            (#[trigger] search.active[index]).normalized,
                        ) <= topk::place(path.normalized)
                },
                None => search.finished.len() == 0 && !started,
            }
        }),
{
    if search.active.len() > 0 {
        assert(search.active.contains(search.active[0]));
    }
    if search.finished.len() > 0 {
        assert(search.finished.contains(search.finished[0]));
    }
}

/// Parting by the ending keeps the order of scores.
proof fn lemma_endings_keep_order(candidates: Seq<Candidate>, terminal: bool)
    requires
        forall|early: int, late: int|
            0 <= early < late < candidates.len() ==> topk::place(
                (#[trigger] candidates[early]).normalized,
            ) >= topk::place((#[trigger] candidates[late]).normalized),
    ensures
        forall|early: int, late: int|
            0 <= early < late < with_ending(candidates, terminal).len() ==> topk::place(
                (#[trigger] with_ending(candidates, terminal)[early]).normalized,
            ) >= topk::place((#[trigger] with_ending(candidates, terminal)[late]).normalized),
    decreases candidates.len(),
{
    if candidates.len() > 0 {
        let shorter = candidates.drop_last();
        lemma_endings_keep_order(shorter, terminal);
        let parted = with_ending(candidates, terminal);
        let before = with_ending(shorter, terminal);
        assert forall|early: int, late: int| 0 <= early < late < parted.len() implies topk::place(
            (#[trigger] parted[early]).normalized,
        ) >= topk::place((#[trigger] parted[late]).normalized) by {
            assert(parted[early] == before[early]);
            if late < before.len() {
                assert(parted[late] == before[late]);
            } else {
                lemma_ending_kept(shorter, terminal, early);
                let at = choose|at: int| 0 <= at < shorter.len() && shorter[at] == before[early];
                assert(candidates[at] == before[early]);
                assert(candidates[candidates.len() - 1] == parted[late]);
            }
        }
    }
}

/// After a step the active paths stand by descending score, and so do the finished ones.
pub proof fn law_paths_stand_by_score(
    before: Search,
    candidates: Seq<Candidate>,
    first_eos: Option<int>,
)
    requires
        candidates.len() + before.finished.len() <= usize::MAX,
    ensures
        ({
            let after = advanced(before, candidates, first_eos);
            &&& forall|early: int, late: int|
                0 <= early < late < after.active.len() ==> topk::place(
                    (#[trigger] after.active[early]).normalized,
                ) >= topk::place((#[trigger] after.active[late]).normalized)
            &&& forall|early: int, late: int|
                0 <= early < late < after.finished.len() ==> topk::place(
                    (#[trigger] after.finished[early]).normalized,
                ) >= topk::place((#[trigger] after.finished[late]).normalized)
        }),
{
    let pool = ranked(candidates) + before.finished;
    let kept = survivors(ranked(pool), before.config.beam_width as int);
    law_ranked_by_score(pool);
    assert forall|early: int, late: int| 0 <= early < late < kept.len() implies topk::place(
        (#[trigger] kept[early]).normalized,
    ) >= topk::place((#[trigger] kept[late]).normalized) by {
        assert(kept[early] == ranked(pool)[early]);
        assert(kept[late] == ranked(pool)[late]);
    }
    lemma_endings_keep_order(kept, false);
    lemma_endings_keep_order(kept, true);
}

}
