//! When tokens were spoken, estimated from the audio that had been heard when they first stood.
//!
//! Times are binary32 numbers of seconds, given by their bits. Times are finite and not negative,
//! so that they compare as their bits do.

use vstd::prelude::*;

use crate::topk;
use crate::topk::number_place;
use crate::types;
use crate::types::copy_texts;

verus! {

/// The tokens that stood when some audio had been heard.
#[derive(Debug)]
struct TokenSnapshot {
    tokens: Vec<String>,
    audio_end: u32,
}

/// The content of a snapshot.
#[verifier::ext_equal]
pub struct Snapshot {
    pub tokens: Seq<Seq<char>>,
    pub audio_end: u32,
}

/// A time: a finite number that is not negative.
pub open spec fn is_time(bits: u32) -> bool {
    bits < 0x7f80_0000
}

/// A number as a time: zero when it is negative or not finite.
pub open spec fn as_time(bits: u32) -> u32 {
    if is_time(bits) {
        bits
    } else {
        0
    }
}

/// The larger of two times.
pub open spec fn later(left: u32, right: u32) -> u32 {
    if left < right {
        right
    } else {
        left
    }
}

/// The smaller of two times.
pub open spec fn earlier(left: u32, right: u32) -> u32 {
    if left < right {
        left
    } else {
        right
    }
}

/// How many tokens two lists have in common from the start.
pub open spec fn common_prefix(left: Seq<Seq<char>>, right: Seq<Seq<char>>, from: int) -> int
    decreases left.len() - from,
{
    if 0 <= from < left.len() && from < right.len() && left[from] == right[from] {
        common_prefix(left, right, from + 1)
    } else {
        from
    }
}

/// By when a token stood: the end of the audio of the first snapshot, from `from` on, that agrees
/// with the tokens up to it.
pub open spec fn stood_by(
    snapshots: Seq<Snapshot>,
    tokens: Seq<Seq<char>>,
    index: int,
    audio_end: u32,
    from: int,
) -> u32
    decreases snapshots.len() - from,
{
    if from < 0 || from >= snapshots.len() {
        audio_end
    } else if common_prefix(snapshots[from].tokens, tokens, 0) > index {
        earlier(snapshots[from].audio_end, audio_end)
    } else {
        stood_by(snapshots, tokens, index, audio_end, from + 1)
    }
}

/// By when a token stood, but not before the token ahead of it.
pub open spec fn deadline(
    snapshots: Seq<Snapshot>,
    tokens: Seq<Seq<char>>,
    audio_end: u32,
    index: int,
) -> u32
    decreases index,
{
    let own = stood_by(snapshots, tokens, index, audio_end, 0);
    if index <= 0 {
        own
    } else {
        later(own, deadline(snapshots, tokens, audio_end, index - 1))
    }
}

/// By when each token stood.
pub open spec fn deadlines(
    snapshots: Seq<Snapshot>,
    tokens: Seq<Seq<char>>,
    audio_end: u32,
) -> Seq<u32> {
    Seq::new(tokens.len(), |index: int| deadline(snapshots, tokens, audio_end, index))
}

/// The first of the tokens that stood by the same time as one.
pub open spec fn group_start(times: Seq<u32>, index: int) -> int
    decreases index,
{
    if index > 0 && times[index - 1] == times[index] {
        group_start(times, index - 1)
    } else {
        index
    }
}

/// The end of the tokens that stood by the same time as one.
pub open spec fn group_end(times: Seq<u32>, index: int) -> int
    decreases times.len() - index,
{
    if 0 <= index && index + 1 < times.len() && times[index + 1] == times[index] {
        group_end(times, index + 1)
    } else {
        index + 1
    }
}

/// When the interval begins that a token shares with those of its group.
pub open spec fn interval_start(times: Seq<u32>, index: int) -> u32 {
    if group_start(times, index) == 0 {
        0
    } else {
        times[group_start(times, index) - 1]
    }
}

/// `value` is the time of a token that is spread over the interval of its group: the first one
/// stands at the interval's start.
pub open spec fn spreads_token<F: Fn(u32, u32, usize, usize) -> u32>(
    spread: F,
    times: Seq<u32>,
    index: int,
    value: u32,
) -> bool {
    let start = group_start(times, index);
    if index == start {
        value == interval_start(times, index)
    } else {
        call_ensures(
            spread,
            (
                interval_start(times, index),
                times[index],
                (index - start) as usize,
                (group_end(times, index) - start) as usize,
            ),
            value,
        )
    }
}

/// `raw` are the times at which the tokens of each group are spread over their interval.
pub open spec fn spreads<F: Fn(u32, u32, usize, usize) -> u32>(
    spread: F,
    times: Seq<u32>,
    raw: Seq<u32>,
) -> bool {
    &&& raw.len() == times.len()
    &&& forall|index: int|
        0 <= index < raw.len() ==> spreads_token(spread, times, index, #[trigger] raw[index])
}

/// A number held between two times.
pub open spec fn held(bits: u32, low: u32, high: u32) -> u32 {
    if topk::place(bits) < topk::place(low) {
        low
    } else if topk::place(bits) > topk::place(high) {
        high
    } else {
        bits
    }
}

/// A token's time: held between the time of the token ahead of it and the end of the audio.
pub open spec fn timestamp(raw: Seq<u32>, audio_end: u32, index: int) -> u32
    decreases index,
{
    if index <= 0 {
        held(raw[0], 0, audio_end)
    } else {
        held(raw[index], timestamp(raw, audio_end, index - 1), audio_end)
    }
}

/// The tokens' times.
pub open spec fn timestamps(raw: Seq<u32>, audio_end: u32) -> Seq<u32> {
    Seq::new(raw.len(), |index: int| timestamp(raw, audio_end, index))
}

/// Times never go back, and never leave the audio.
pub proof fn law_times_do_not_go_back(raw: Seq<u32>, audio_end: u32, index: int)
    requires
        is_time(audio_end),
        0 <= index < raw.len(),
    ensures
        0 <= topk::place(timestamps(raw, audio_end)[index]) <= audio_end,
        index > 0 ==> topk::place(timestamps(raw, audio_end)[index - 1]) <= topk::place(
            timestamps(raw, audio_end)[index],
        ),
    decreases index,
{
    if index > 0 {
        law_times_do_not_go_back(raw, audio_end, index - 1);
    }
}

/// Deadlines never go back, and never leave the audio.
pub proof fn law_deadlines_do_not_go_back(
    snapshots: Seq<Snapshot>,
    tokens: Seq<Seq<char>>,
    audio_end: u32,
    index: int,
)
    requires
        0 <= index < tokens.len(),
    ensures
        deadlines(snapshots, tokens, audio_end)[index] <= audio_end,
        index > 0 ==> deadlines(snapshots, tokens, audio_end)[index - 1] <= deadlines(
            snapshots,
            tokens,
            audio_end,
        )[index],
    decreases index,
{
    lemma_stood_by(snapshots, tokens, index, audio_end, 0);
    if index > 0 {
        law_deadlines_do_not_go_back(snapshots, tokens, audio_end, index - 1);
    }
}

proof fn lemma_stood_by(
    snapshots: Seq<Snapshot>,
    tokens: Seq<Seq<char>>,
    index: int,
    audio_end: u32,
    from: int,
)
    ensures
        stood_by(snapshots, tokens, index, audio_end, from) <= audio_end,
    decreases snapshots.len() - from,
{
    if 0 <= from < snapshots.len() {
        lemma_stood_by(snapshots, tokens, index, audio_end, from + 1);
    }
}

/// How many tokens two lists have in common from the start.
fn common_prefix_len(left: &[String], right: &[String]) -> (count: usize)
    ensures
        count == common_prefix(types::text_views(left@), types::text_views(right@), 0),
{
    let ghost one = types::text_views(left@);
    let ghost other = types::text_views(right@);
    let mut count: usize = 0;
    while count < left.len() && count < right.len() && left[count].as_str().eq(
        right[count].as_str(),
    )
        invariant
            one == types::text_views(left@),
            other == types::text_views(right@),
            count <= left@.len(),
            common_prefix(one, other, count as int) == common_prefix(one, other, 0),
        decreases left@.len() - count,
    {
        assert(one[count as int] == other[count as int]);
        count = count + 1;
    }
    if count < left.len() && count < right.len() {
        assert(one[count as int] == left@[count as int]@);
        assert(other[count as int] == right@[count as int]@);
    }
    count
}

/// Lists with the same start up to their ends are the same.
proof fn lemma_common_prefix(left: Seq<Seq<char>>, right: Seq<Seq<char>>, from: int)
    requires
        0 <= from <= left.len(),
        from <= right.len(),
    ensures
        from <= common_prefix(left, right, from) <= left.len(),
        common_prefix(left, right, from) <= right.len(),
        forall|index: int|
            from <= index < common_prefix(left, right, from) ==> left[index] == right[index],
        common_prefix(left, right, from) < left.len() && common_prefix(left, right, from)
            < right.len() ==> left[common_prefix(left, right, from)] != right[common_prefix(
            left,
            right,
            from,
        )],
    decreases left.len() - from,
{
    if from < left.len() && from < right.len() && left[from] == right[from] {
        lemma_common_prefix(left, right, from + 1);
    }
}

/// The snapshots of a transcript that grows.
#[derive(Debug)]
pub struct TokenTimingEstimator {
    snapshots: Vec<TokenSnapshot>,
}

impl View for TokenTimingEstimator {
    type V = Seq<Snapshot>;

    closed spec fn view(&self) -> Seq<Snapshot> {
        Seq::new(
            self.snapshots@.len(),
            |index: int|
                Snapshot {
                    tokens: types::text_views(self.snapshots@[index].tokens@),
                    audio_end: self.snapshots@[index].audio_end,
                },
        )
    }
}

/// The end of the audio, which never goes back.
pub open spec fn heard(snapshots: Seq<Snapshot>, audio_end: u32) -> u32 {
    if snapshots.len() == 0 {
        as_time(audio_end)
    } else {
        later(as_time(audio_end), snapshots.last().audio_end)
    }
}

/// The snapshots with one more, unless the tokens are those of the last one.
pub open spec fn noted(snapshots: Seq<Snapshot>, tokens: Seq<Seq<char>>, audio_end: u32) -> Seq<
    Snapshot,
> {
    if snapshots.len() > 0 && snapshots.last().tokens == tokens {
        snapshots
    } else {
        snapshots.push(Snapshot { tokens, audio_end })
    }
}

/// How the snapshots go on, and which times come out.
pub open spec fn updates<F: Fn(u32, u32, usize, usize) -> u32>(
    spread: F,
    before: Seq<Snapshot>,
    tokens: Seq<Seq<char>>,
    audio_end: u32,
    after: Seq<Snapshot>,
    result: Option<Seq<u32>>,
) -> bool {
    if tokens.len() == 0 {
        after == before && result is None
    } else {
        let end = heard(before, audio_end);
        after == noted(before, tokens, end) && exists|raw: Seq<u32>|
            {
                &&& #[trigger] spreads(spread, deadlines(after, tokens, end), raw)
                &&& result == Some(timestamps(raw, end))
            }
    }
}

/// Snapshots end at times, which do not go back.
pub open spec fn in_order(snapshots: Seq<Snapshot>) -> bool {
    &&& forall|index: int|
        0 <= index < snapshots.len() ==> is_time((#[trigger] snapshots[index]).audio_end)
    &&& forall|early: int, late: int|
        0 <= early <= late < snapshots.len() ==> (#[trigger] snapshots[early]).audio_end <= (
        #[trigger] snapshots[late]).audio_end
}

/// Times begin at zero, do not go back, and lie within the audio.
pub open spec fn in_audio(times: Seq<u32>, end: u32) -> bool {
    &&& times[0] == 0
    &&& forall|index: int|
        0 <= index < times.len() ==> 0 <= topk::place(#[trigger] times[index]) <= end
    &&& forall|index: int|
        0 < index < times.len() ==> topk::place(times[index - 1]) <= topk::place(
            #[trigger] times[index],
        )
}

/// Updates of an estimator keep its snapshots in order. No tokens give no times and change nothing;
/// otherwise each token gets a time. The times begin at zero, do not go back and lie within all
/// audio that was heard.
pub proof fn law_times_lie_in_the_audio<F: Fn(u32, u32, usize, usize) -> u32>(
    spread: F,
    before: Seq<Snapshot>,
    tokens: Seq<Seq<char>>,
    audio_end: u32,
    after: Seq<Snapshot>,
    result: Option<Seq<u32>>,
)
    requires
        in_order(before),
        updates(spread, before, tokens, audio_end, after, result),
    ensures
        in_order(after),
        is_time(heard(before, audio_end)),
        forall|index: int|
            0 <= index < before.len() ==> (#[trigger] before[index]).audio_end <= heard(
                before,
                audio_end,
            ),
        tokens.len() == 0 <==> result is None,
        tokens.len() == 0 ==> after == before,
        result matches Some(times) ==> times.len() == tokens.len() && in_audio(
            times,
            heard(before, audio_end),
        ),
{
    let end = heard(before, audio_end);
    if before.len() > 0 {
        assert(before.last() == before[before.len() - 1]);
    }
    if tokens.len() > 0 {
        let times = deadlines(after, tokens, end);
        let raw = choose|raw: Seq<u32>|
            {
                &&& #[trigger] spreads(spread, times, raw)
                &&& result == Some(timestamps(raw, end))
            };
        assert(group_start(times, 0) == 0);
        assert(spreads_token(spread, times, 0, raw[0]));
        assert forall|index: int| 0 <= index < raw.len() implies 0 <= topk::place(
            #[trigger] timestamps(raw, end)[index],
        ) <= end by {
            law_times_do_not_go_back(raw, end, index);
        }
        assert forall|index: int| 0 < index < raw.len() implies topk::place(
            timestamps(raw, end)[index - 1],
        ) <= topk::place(#[trigger] timestamps(raw, end)[index]) by {
            law_times_do_not_go_back(raw, end, index);
        }
    }
}

/// The content of times, if any.
pub open spec fn times_view(times: Option<Vec<u32>>) -> Option<Seq<u32>> {
    match times {
        Some(times) => Some(times@),
        None => None,
    }
}

impl Default for TokenTimingEstimator {
    fn default() -> (estimator: Self)
        ensures
            estimator@ == Seq::<Snapshot>::empty(),
            estimator.wf(),
    {
        let estimator = TokenTimingEstimator { snapshots: Vec::new() };
        assert(estimator@ =~= Seq::<Snapshot>::empty());
        estimator
    }
}

impl TokenTimingEstimator {
    /// By when each token stood.
    fn find_deadlines(&self, tokens: &[String], audio_end: u32) -> (result: Vec<u32>)
        ensures
            result@ == deadlines(self@, types::text_views(tokens@), audio_end),
    {
        let ghost views = types::text_views(tokens@);
        let mut prefixes: Vec<usize> = Vec::new();
        for from in 0..self.snapshots.len()
            invariant
                views == types::text_views(tokens@),
                prefixes@.len() == from,
                forall|place: int|
                    0 <= place < from ==> #[trigger] prefixes@[place] == common_prefix(
                        self@[place].tokens,
                        views,
                        0,
                    ),
        {
            prefixes.push(common_prefix_len(&self.snapshots[from].tokens, tokens));
            assert(self@[from as int].tokens == types::text_views(
                self.snapshots@[from as int].tokens@,
            ));
        }
        let mut result: Vec<u32> = Vec::new();
        for index in 0..tokens.len()
            invariant
                views == types::text_views(tokens@),
                prefixes@.len() == self@.len() == self.snapshots@.len(),
                forall|place: int|
                    0 <= place < prefixes@.len() ==> #[trigger] prefixes@[place] == common_prefix(
                        self@[place].tokens,
                        views,
                        0,
                    ),
                result@ == deadlines(self@, views, audio_end).take(index as int),
        {
            let mut from: usize = 0;
            while from < self.snapshots.len() && prefixes[from] <= index
                invariant
                    prefixes@.len() == self@.len() == self.snapshots@.len(),
                    from <= self@.len(),
                    forall|place: int|
                        0 <= place < prefixes@.len() ==> #[trigger] prefixes@[place]
                            == common_prefix(self@[place].tokens, views, 0),
                    stood_by(self@, views, index as int, audio_end, from as int) == stood_by(
                        self@,
                        views,
                        index as int,
                        audio_end,
                        0,
                    ),
                decreases self@.len() - from,
            {
                from = from + 1;
            }
            let mut own: u32 = audio_end;
            if from < self.snapshots.len() {
                let seen: u32 = self.snapshots[from].audio_end;
                assert(self@[from as int].audio_end == seen);
                if seen < audio_end {
                    own = seen;
                }
            }
            if index > 0 {
                let ahead: u32 = result[index - 1];
                assert(ahead == deadline(self@, views, audio_end, index - 1));
                if own < ahead {
                    own = ahead;
                }
            }
            result.push(own);
            assert(result@ =~= deadlines(self@, views, audio_end).take(index + 1));
        }
        assert(result@ =~= deadlines(self@, views, audio_end));
        result
    }
}

proof fn lemma_groups(times: Seq<u32>, start: int, end: int, index: int)
    requires
        0 <= start <= index < end <= times.len(),
        start > 0 ==> times[start - 1] != times[start],
        end < times.len() ==> times[end] != times[start],
        forall|place: int| start <= place < end ==> times[place] == times[start],
    ensures
        group_start(times, index) == start,
        group_end(times, index) == end,
{
    lemma_group_start(times, start, index);
    lemma_group_end(times, end, index);
}

proof fn lemma_group_start(times: Seq<u32>, start: int, index: int)
    requires
        0 <= start <= index < times.len(),
        start > 0 ==> times[start - 1] != times[start],
        forall|place: int| start <= place <= index ==> times[place] == times[start],
    ensures
        group_start(times, index) == start,
    decreases index,
{
    if start < index {
        lemma_group_start(times, start, index - 1);
    }
}

proof fn lemma_group_end(times: Seq<u32>, end: int, index: int)
    requires
        0 <= index < end <= times.len(),
        end < times.len() ==> times[end] != times[index],
        forall|place: int| index <= place < end ==> times[place] == times[index],
    ensures
        group_end(times, index) == end,
    decreases end - index,
{
    if index + 1 < end {
        lemma_group_end(times, end, index + 1);
    }
}

/// Spreads the tokens of each group over their interval.
fn spread_groups<F: Fn(u32, u32, usize, usize) -> u32>(spread: &F, times: &Vec<u32>) -> (raw: Vec<
    u32,
>)
    requires
        forall|start: u32, end: u32, offset: usize, count: usize|
            call_requires(*spread, (start, end, offset, count)),
    ensures
        spreads(*spread, times@, raw@),
{
    let total: usize = times.len();
    let mut raw: Vec<u32> = Vec::new();
    let mut start: usize = 0;
    while start < total
        invariant
            forall|start: u32, end: u32, offset: usize, count: usize|
                call_requires(*spread, (start, end, offset, count)),
            total == times@.len(),
            start <= total,
            raw@.len() == start,
            0 < start < total ==> times@[start - 1] != times@[start as int],
            forall|index: int|
                0 <= index < start ==> spreads_token(
                    *spread,
                    times@,
                    index,
                    #[trigger] raw@[index],
                ),
        decreases total - start,
    {
        let mut end: usize = start + 1;
        while end < total && times[end] == times[start]
            invariant
                total == times@.len(),
                start < end <= total,
                forall|place: int|
                    start <= place < end ==> #[trigger] times@[place] == times@[start as int],
            decreases total - end,
        {
            end = end + 1;
        }
        let from: u32 = if start == 0 {
            0
        } else {
            times[start - 1]
        };
        let to: u32 = times[start];
        let count: usize = end - start;
        for offset in 0..count
            invariant
                forall|start: u32, end: u32, offset: usize, count: usize|
                    call_requires(*spread, (start, end, offset, count)),
                total == times@.len(),
                start < end <= total,
                count == end - start,
                0 < start ==> times@[start - 1] != times@[start as int],
                end < total ==> times@[end as int] != times@[start as int],
                forall|place: int|
                    start <= place < end ==> #[trigger] times@[place] == times@[start as int],
                from == if start == 0 {
                    0
                } else {
                    times@[start - 1]
                },
                to == times@[start as int],
                raw@.len() == start + offset,
                forall|index: int|
                    0 <= index < start + offset ==> spreads_token(
                        *spread,
                        times@,
                        index,
                        #[trigger] raw@[index],
                    ),
        {
            let value: u32 = if offset == 0 {
                from
            } else {
                spread(from, to, offset, count)
            };
            proof {
                lemma_groups(times@, start as int, end as int, start + offset);
            }
            raw.push(value);
        }
        start = end;
    }
    raw
}

/// Holds times between those ahead of them and the end of the audio.
fn hold(raw: &Vec<u32>, audio_end: u32) -> (result: Vec<u32>)
    ensures
        result@ == timestamps(raw@, audio_end),
{
    let mut result: Vec<u32> = Vec::new();
    let mut previous: u32 = 0;
    for index in 0..raw.len()
        invariant
            result@ == timestamps(raw@, audio_end).take(index as int),
            previous == if index == 0 {
                0
            } else {
                timestamp(raw@, audio_end, index - 1)
            },
    {
        let value: u32 = raw[index];
        if number_place(value) < number_place(previous) {
        } else if number_place(value) > number_place(audio_end) {
            previous = audio_end;
        } else {
            previous = value;
        }
        result.push(previous);
        assert(result@ =~= timestamps(raw@, audio_end).take(index + 1));
    }
    assert(result@ =~= timestamps(raw@, audio_end));
    result
}

impl TokenTimingEstimator {
    /// The snapshots end at times, which do not go back.
    pub open spec fn wf(&self) -> bool {
        in_order(self@)
    }

    /// Takes note of the tokens that stand now, and estimates their times. `spread` gives the time
    /// of one of a number of tokens that share an interval, but for the first one, which stands at
    /// the interval's start.
    pub fn update<F: Fn(u32, u32, usize, usize) -> u32>(
        &mut self,
        spread: &F,
        tokens: &[String],
        audio_end: u32,
    ) -> (result: Option<Vec<u32>>)
        requires
            forall|start: u32, end: u32, offset: usize, count: usize|
                call_requires(*spread, (start, end, offset, count)),
            old(self).wf(),
        ensures
            final(self).wf(),
            result is None <==> tokens@.len() == 0,
            result matches Some(times) ==> times@.len() == tokens@.len() && in_audio(
                times@,
                heard(old(self)@, audio_end),
            ),
            updates(
                *spread,
                old(self)@,
                types::text_views(tokens@),
                audio_end,
                final(self)@,
                times_view(result),
            ),
    {
        let ghost before = self@;
        if tokens.len() == 0 {
            return None;
        }
        let ghost views = types::text_views(tokens@);
        let mut end: u32 = if audio_end < 0x7f80_0000 {
            audio_end
        } else {
            0
        };
        let count: usize = self.snapshots.len();
        let mut known: bool = false;
        if count > 0 {
            let last: &TokenSnapshot = &self.snapshots[count - 1];
            assert(before.last() == before[count - 1]);
            if end < last.audio_end {
                end = last.audio_end;
            }
            proof {
                lemma_common_prefix(before.last().tokens, views, 0);
            }
            known = last.tokens.len() == tokens.len() && common_prefix_len(&last.tokens, tokens)
                == tokens.len();
            if known {
                assert(before.last().tokens =~= views);
            }
        }
        assert(end == heard(before, audio_end));
        if !known {
            self.snapshots.push(TokenSnapshot { tokens: copy_texts(tokens), audio_end: end });
            assert(self@ =~= before.push(Snapshot { tokens: views, audio_end: end }));
        }
        assert(self@ == noted(before, views, end));
        let times: Vec<u32> = self.find_deadlines(tokens, end);
        let raw: Vec<u32> = spread_groups(spread, &times);
        let result: Option<Vec<u32>> = Some(hold(&raw, end));
        proof {
            law_times_lie_in_the_audio(
                *spread,
                before,
                views,
                audio_end,
                self@,
                times_view(result),
            );
        }
        result
    }
}

/// A snapshot agrees with tokens up to one of them: it has all tokens up to that one.
pub open spec fn agrees(snapshot: Snapshot, tokens: Seq<Seq<char>>, index: int) -> bool {
    index < snapshot.tokens.len() && index < tokens.len() && forall|at: int|
        0 <= at <= index ==> snapshot.tokens[at] == tokens[at]
}

proof fn lemma_first_agreeing(
    snapshots: Seq<Snapshot>,
    tokens: Seq<Seq<char>>,
    index: int,
    audio_end: u32,
    from: int,
    first: int,
)
    requires
        0 <= index < tokens.len(),
        0 <= from <= first <= snapshots.len(),
        forall|at: int| from <= at < first ==> !agrees(#[trigger] snapshots[at], tokens, index),
        first < snapshots.len() ==> agrees(snapshots[first], tokens, index),
    ensures
        stood_by(snapshots, tokens, index, audio_end, from) == if first < snapshots.len() {
            earlier(snapshots[first].audio_end, audio_end)
        } else {
            audio_end
        },
    decreases first - from,
{
    if from < snapshots.len() {
        lemma_common_prefix(snapshots[from].tokens, tokens, 0);
        let common = common_prefix(snapshots[from].tokens, tokens, 0);
        assert(common > index <==> agrees(snapshots[from], tokens, index));
        if from < first {
            lemma_first_agreeing(snapshots, tokens, index, audio_end, from + 1, first);
        }
    }
}

/// A token stands by the end of the audio of the first snapshot that has it and all tokens before it,
/// or by the end of all audio where no snapshot does.
pub proof fn law_tokens_stand_by_the_first_agreeing_snapshot(
    snapshots: Seq<Snapshot>,
    tokens: Seq<Seq<char>>,
    index: int,
    audio_end: u32,
    first: int,
)
    requires
        0 <= index < tokens.len(),
        0 <= first <= snapshots.len(),
        forall|at: int| 0 <= at < first ==> !agrees(#[trigger] snapshots[at], tokens, index),
        first < snapshots.len() ==> agrees(snapshots[first], tokens, index),
    ensures
        stood_by(snapshots, tokens, index, audio_end, 0) == if first < snapshots.len() {
            earlier(snapshots[first].audio_end, audio_end)
        } else {
            audio_end
        },
{
    lemma_first_agreeing(snapshots, tokens, index, audio_end, 0, first);
}

/// Tokens that stand by the same time share the interval since the time before: the first of them
/// stands at its start, and each other one is spread over it by its place among them.
pub proof fn law_tokens_of_one_time_share_its_interval<F: Fn(u32, u32, usize, usize) -> u32>(
    spread: F,
    times: Seq<u32>,
    raw: Seq<u32>,
    first: int,
    end: int,
    index: int,
)
    requires
        spreads(spread, times, raw),
        0 <= first <= index < end <= times.len(),
        forall|at: int| first <= at < end ==> times[at] == times[index],
        first > 0 ==> times[first - 1] != times[index],
        end < times.len() ==> times[end] != times[index],
    ensures
        index == first ==> raw[index] == if first == 0 {
            0
        } else {
            times[first - 1]
        },
        index > first ==> call_ensures(
            spread,
            (
                if first == 0 {
                    0u32
                } else {
                    times[first - 1]
                },
                times[index],
                (index - first) as usize,
                (end - first) as usize,
            ),
            raw[index],
        ),
{
    lemma_group_start(times, first, index);
    lemma_group_end(times, end, index);
    assert(spreads_token(spread, times, index, raw[index]));
}

/// A time that lies between the one before it and the end of the audio is kept as it is.
pub proof fn law_times_in_order_are_kept(raw: Seq<u32>, audio_end: u32, index: int)
    requires
        0 <= index < raw.len(),
        forall|at: int|
            0 <= at <= index ==> 0 <= topk::place(#[trigger] raw[at]) <= topk::place(audio_end),
        forall|at: int|
            0 < at <= index ==> topk::place(raw[at - 1]) <= topk::place(#[trigger] raw[at]),
        topk::place(0) == 0,
    ensures
        timestamp(raw, audio_end, index) == raw[index],
    decreases index,
{
    if index > 0 {
        law_times_in_order_are_kept(raw, audio_end, index - 1);
    }
}

}
