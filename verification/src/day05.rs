//! Almanac: ranges of seed numbers are taken through a chain of stages,
//! each a table of mappings from a source range to a destination range,
//! and the lowest number that comes out is the answer.
use crate::seqs::{all_some, tail};
use crate::text::{
    decimal, lines, parse_numbers, spec_lines, spec_parse_numbers, spec_split, spec_split_once,
    split, split_once, strs, to_decimal,
};
use itertools::Itertools;
use vstd::prelude::*;

verus! {

/// A range of numbers: from `start` up to, but without, `end`; `len` is
/// how many they are.
#[derive(Clone, Copy, Debug, PartialEq, Eq)]
pub struct Range {
    pub start: usize,
    pub end: usize,
    pub len: usize,
}

/// What of a range lies before, within and after another range.
#[derive(Clone, Copy, Debug, PartialEq, Eq)]
pub struct MaybeOverlap {
    pub left: Option<Range>,
    pub overlap: Option<Range>,
    pub right: Option<Range>,
}

/// A mapping of the numbers of `source` to those of `destination`, the
/// first to the first and so on.
#[derive(Clone, Copy, Debug, PartialEq, Eq)]
pub struct Mapping {
    pub source: Range,
    pub destination: Range,
}

/// The seed ranges, and the stages through which they are taken.
pub struct Almanac {
    pub seeds: Vec<Range>,
    pub conversion_stages: Vec<Vec<Mapping>>,
}

/// The smaller of `a` and `b`.
pub open spec fn lower(a: usize, b: usize) -> usize {
    if a <= b {
        a
    } else {
        b
    }
}

/// The larger of `a` and `b`.
pub open spec fn upper(a: usize, b: usize) -> usize {
    if a >= b {
        a
    } else {
        b
    }
}

/// The smaller of `a` and `b`.
fn min(a: usize, b: usize) -> (m: usize)
    ensures
        m == lower(a, b),
{
    if a <= b {
        a
    } else {
        b
    }
}

/// The larger of `a` and `b`.
fn max(a: usize, b: usize) -> (m: usize)
    ensures
        m == upper(a, b),
{
    if a >= b {
        a
    } else {
        b
    }
}

impl Range {
    /// Whether `len` is the distance from `start` to `end`.
    pub open spec fn wf(self) -> bool {
        self.end == self.start + self.len
    }

    /// How many numbers lie from `start` up to `end`; 0 where `end` is not
    /// above `start`.
    pub open spec fn span(self) -> nat {
        if self.start < self.end {
            (self.end - self.start) as nat
        } else {
            0
        }
    }

    /// The range of `len` numbers from `start` on.
    pub open spec fn spec_new(start: usize, len: usize) -> Range {
        Range { start, end: (start + len) as usize, len }
    }

    /// The range from `start` up to `end`, if it holds a number.
    pub open spec fn spec_try_from(start: usize, end: usize) -> Option<Range> {
        if start < end {
            Some(Range { start, end, len: (end - start) as usize })
        } else {
            None
        }
    }

    /// What of `rhs` lies before `self`, within it and after it.
    pub open spec fn spec_test_overlap(self, rhs: Range) -> MaybeOverlap {
        MaybeOverlap {
            left: Range::spec_try_from(lower(self.start, rhs.start), lower(self.start, rhs.end)),
            overlap: Range::spec_try_from(upper(self.start, rhs.start), lower(self.end, rhs.end)),
            right: Range::spec_try_from(upper(self.end, rhs.start), upper(self.end, rhs.end)),
        }
    }

    /// Makes the range of `len` numbers from `start` on.
    pub fn new(start: usize, len: usize) -> (range: Range)
        requires
            start + len <= usize::MAX,
        ensures
            range == Range::spec_new(start, len),
            range.wf(),
    {
        Range { start, end: start + len, len }
    }

    /// Makes the range from `start` up to `end`, if it holds a number.
    pub fn try_from(start: usize, end: usize) -> (range: Option<Range>)
        ensures
            range == Range::spec_try_from(start, end),
    {
        if start < end {
            Some(Range { start, end, len: end - start })
        } else {
            None
        }
    }

    /// Finds what of `rhs` lies before `self`, within it and after it.
    pub fn test_overlap(&self, rhs: &Range) -> (parts: MaybeOverlap)
        ensures
            parts == self.spec_test_overlap(*rhs),
    {
        let left = Range::try_from(min(self.start, rhs.start), min(self.start, rhs.end));
        let overlap = Range::try_from(max(self.start, rhs.start), min(self.end, rhs.end));
        let right = Range::try_from(max(self.end, rhs.start), max(self.end, rhs.end));
        MaybeOverlap { left, overlap, right }
    }
}

/// How many numbers the part `part` holds; 0 if there is none.
pub open spec fn part_span(part: Option<Range>) -> nat {
    match part {
        Some(range) => range.span(),
        None => 0,
    }
}

/// The three parts that `spec_test_overlap` finds are well formed and
/// hold numbers, and the part within lies in both ranges.
pub proof fn lemma_overlap_parts(this: Range, rhs: Range)
    ensures
        ({
            let parts = this.spec_test_overlap(rhs);
            &&& parts.left matches Some(left) ==> left.wf() && left.start == rhs.start && left.start
                < left.end <= this.start && left.end <= rhs.end
            &&& parts.overlap matches Some(overlap) ==> overlap.wf() && this.start <= overlap.start
                < overlap.end <= this.end && rhs.start <= overlap.start && overlap.end <= rhs.end
            &&& parts.right matches Some(right) ==> right.wf() && right.end == rhs.end && this.end
                <= right.start < right.end && rhs.start <= right.start
        }),
{
}

/// Where `rhs` meets `this`, the three parts are `rhs` cut in pieces:
/// they hold as many numbers as `rhs`, and the part before is shorter
/// than `rhs`.
pub proof fn lemma_overlap_partitions(this: Range, rhs: Range)
    requires
        this.spec_test_overlap(rhs).overlap is Some,
    ensures
        ({
            let parts = this.spec_test_overlap(rhs);
            &&& part_span(parts.left) + part_span(parts.overlap) + part_span(parts.right)
                == rhs.span()
            &&& part_span(parts.left) < rhs.span()
            &&& parts.left matches Some(left) ==> left.end == parts.overlap->0.start
            &&& parts.right matches Some(right) ==> right.start == parts.overlap->0.end
        }),
{
}

impl Mapping {
    /// Whether source and destination are well formed and of one length.
    pub open spec fn wf(self) -> bool {
        self.source.wf() && self.destination.wf() && self.source.len == self.destination.len
    }

    /// Where the numbers of `overlap`, a part of the source, are mapped
    /// to.
    pub open spec fn image(self, overlap: Range) -> Range {
        let start = (overlap.start - self.source.start + self.destination.start) as usize;
        Range { start, end: (start + overlap.len) as usize, len: overlap.len }
    }

    /// Whether the image of what `range` has in the source can be
    /// computed without overflow.
    pub open spec fn can_translate(self, range: Range) -> bool {
        self.source.spec_test_overlap(range).overlap matches Some(overlap) ==> overlap.start
            - self.source.start + self.destination.start + overlap.len <= usize::MAX
    }

    /// `range` cut at the ends of the source, with the part within the
    /// source mapped to the destination.
    pub open spec fn spec_translate(self, range: Range) -> MaybeOverlap {
        let parts = self.source.spec_test_overlap(range);
        MaybeOverlap {
            left: parts.left,
            overlap: match parts.overlap {
                Some(overlap) => Some(self.image(overlap)),
                None => None,
            },
            right: parts.right,
        }
    }

    /// A well-formed mapping translates every range.
    pub proof fn lemma_wf_can_translate(self, range: Range)
        requires
            self.wf(),
        ensures
            self.can_translate(range),
    {
    }

    /// Cuts `range` at the ends of the source and maps the part within
    /// the source to the destination.
    pub fn translate(&self, range: &Range) -> (parts: MaybeOverlap)
        requires
            self.can_translate(*range),
        ensures
            parts == self.spec_translate(*range),
    {
        let maybe_overlap = self.source.test_overlap(range);
        let mapped_range = match maybe_overlap.overlap {
            Some(overlap) => {
                let start = overlap.start - self.source.start + self.destination.start;
                let end = start + overlap.len;
                let len = end - start;
                Some(Range::new(start, len))
            },
            None => None,
        };
        MaybeOverlap { left: maybe_overlap.left, overlap: mapped_range, right: maybe_overlap.right }
    }
}

/// Whether `mapping` maps any number of `seed`.
pub open spec fn meets(mapping: Mapping, seed: Range) -> bool {
    mapping.source.spec_test_overlap(seed).overlap is Some
}

/// The first mapping of `stage` at or after `from` that maps a number of
/// `seed`.
pub open spec fn first_hit(stage: Seq<Mapping>, seed: Range, from: int) -> Option<int>
    decreases stage.len() - from,
{
    if from < 0 || from >= stage.len() {
        None
    } else if meets(stage[from], seed) {
        Some(from)
    } else {
        first_hit(stage, seed, from + 1)
    }
}

/// What `first_hit` returns is the first mapping that meets `seed`, and
/// none meets it where it returns `None`.
pub proof fn lemma_first_hit(stage: Seq<Mapping>, seed: Range, from: int)
    requires
        0 <= from,
    ensures
        match first_hit(stage, seed, from) {
            Some(m) => from <= m < stage.len() && meets(stage[m], seed) && forall|j: int|
                from <= j < m ==> !meets(#[trigger] stage[j], seed),
            None => forall|j: int| from <= j < stage.len() ==> !meets(#[trigger] stage[j], seed),
        },
    decreases stage.len() - from,
{
    if from < stage.len() && !meets(stage[from], seed) {
        lemma_first_hit(stage, seed, from + 1);
    }
}

/// A bound on the work that the ranges `work` can cause in a stage: one
/// more than the numbers that each holds, summed.
pub open spec fn work_measure(work: Seq<Range>) -> nat
    decreases work.len(),
{
    if work.len() == 0 {
        0
    } else {
        work_measure(work.drop_last()) + work.last().span() + 1
    }
}

/// What a stage makes of the ranges `work`, taken from the last to the
/// first. A range that no mapping of the stage meets comes out as it is.
/// Of a range that some mapping meets, the first such mapping maps the
/// part within its source, which comes out; the part after the source
/// comes out as it is; the part before the source is taken next.
pub open spec fn spec_stage_output(stage: Seq<Mapping>, work: Seq<Range>) -> Seq<Range>
    decreases work_measure(work),
{
    if work.len() == 0 {
        seq![]
    } else {
        let seed = work.last();
        let rest = work.drop_last();
        match first_hit(stage, seed, 0) {
            Some(m) => {
                let parts = stage[m].spec_translate(seed);
                let requeued = match parts.left {
                    Some(left) => rest.push(left),
                    None => rest,
                };
                let emitted = match parts.right {
                    Some(right) => seq![parts.overlap->0, right],
                    None => seq![parts.overlap->0],
                };
                proof {
                    lemma_first_hit(stage, seed, 0);
                    lemma_overlap_partitions(stage[m].source, seed);
                    if parts.left is Some {
                        assert(rest.push(parts.left->0).drop_last() == rest);
                    }
                }
                emitted + spec_stage_output(stage, requeued)
            },
            None => seq![seed] + spec_stage_output(stage, rest),
        }
    }
}

/// What the stages `stages`, one after the other, make of `work`.
pub open spec fn spec_through(stages: Seq<Seq<Mapping>>, work: Seq<Range>) -> Seq<Range>
    decreases stages.len(),
{
    if stages.len() == 0 {
        work
    } else {
        spec_stage_output(stages.last(), spec_through(stages.drop_last(), work))
    }
}

/// What the stages make of each of `seeds` by itself, seed after seed.
pub open spec fn spec_map_seeds(seeds: Seq<Range>, stages: Seq<Seq<Mapping>>) -> Seq<Range>
    decreases seeds.len(),
{
    if seeds.len() == 0 {
        seq![]
    } else {
        spec_map_seeds(seeds.drop_last(), stages) + spec_through(stages, seq![seeds.last()])
    }
}

/// A stage makes at least one range of every range.
pub proof fn lemma_stage_output_not_empty(stage: Seq<Mapping>, work: Seq<Range>)
    requires
        work.len() > 0,
    ensures
        spec_stage_output(stage, work).len() > 0,
{
}

/// Stages make at least one range of every range.
pub proof fn lemma_through_not_empty(stages: Seq<Seq<Mapping>>, work: Seq<Range>)
    requires
        work.len() > 0,
    ensures
        spec_through(stages, work).len() > 0,
    decreases stages.len(),
{
    if stages.len() > 0 {
        lemma_through_not_empty(stages.drop_last(), work);
        lemma_stage_output_not_empty(stages.last(), spec_through(stages.drop_last(), work));
    }
}

/// Ranges come out exactly where seeds go in.
pub proof fn lemma_map_seeds_not_empty(seeds: Seq<Range>, stages: Seq<Seq<Mapping>>)
    ensures
        spec_map_seeds(seeds, stages).len() > 0 <==> seeds.len() > 0,
{
    if seeds.len() > 0 {
        lemma_through_not_empty(stages, seq![seeds.last()]);
    }
}

/// How many numbers `ranges` hold together, a number counted as often as
/// it occurs.
pub open spec fn total_span(ranges: Seq<Range>) -> nat
    decreases ranges.len(),
{
    if ranges.len() == 0 {
        0
    } else {
        total_span(ranges.drop_last()) + ranges.last().span()
    }
}

/// A range by itself holds its own numbers.
pub proof fn lemma_total_span_one(range: Range)
    ensures
        total_span(seq![range]) == range.span(),
{
    assert(seq![range].drop_last() =~= Seq::<Range>::empty());
    assert(total_span(Seq::<Range>::empty()) == 0);
}

/// Ranges put one after the other hold the numbers of both.
pub proof fn lemma_total_span_add(a: Seq<Range>, b: Seq<Range>)
    ensures
        total_span(a + b) == total_span(a) + total_span(b),
    decreases b.len(),
{
    if b.len() == 0 {
        assert(a + b == a);
    } else {
        lemma_total_span_add(a, b.drop_last());
        assert((a + b).drop_last() == a + b.drop_last());
    }
}

/// A stage of well-formed mappings loses no number and makes none: what
/// comes out holds as many numbers as what went in.
pub proof fn lemma_stage_keeps_span(stage: Seq<Mapping>, work: Seq<Range>)
    requires
        stage_wf(stage),
    ensures
        total_span(spec_stage_output(stage, work)) == total_span(work),
    decreases work_measure(work),
{
    if work.len() > 0 {
        let seed = work.last();
        let rest = work.drop_last();
        match first_hit(stage, seed, 0) {
            Some(m) => {
                lemma_first_hit(stage, seed, 0);
                lemma_overlap_partitions(stage[m].source, seed);
                lemma_overlap_parts(stage[m].source, seed);
                let parts = stage[m].spec_translate(seed);
                let requeued = match parts.left {
                    Some(left) => rest.push(left),
                    None => rest,
                };
                let emitted = match parts.right {
                    Some(right) => seq![parts.overlap->0, right],
                    None => seq![parts.overlap->0],
                };
                if parts.left is Some {
                    assert(requeued.drop_last() == rest);
                }
                lemma_stage_keeps_span(stage, requeued);
                lemma_total_span_add(emitted, spec_stage_output(stage, requeued));
                let within = stage[m].source.spec_test_overlap(seed).overlap->0;
                assert(parts.overlap->0.span() == within.span());
                assert(total_span(emitted) == part_span(parts.overlap) + part_span(parts.right))
                    by {
                    lemma_total_span_one(parts.overlap->0);
                    if parts.right is Some {
                        assert(emitted.drop_last() =~= seq![parts.overlap->0]);
                    }
                }
            },
            None => {
                lemma_stage_keeps_span(stage, rest);
                lemma_total_span_add(seq![seed], spec_stage_output(stage, rest));
                lemma_total_span_one(seed);
            },
        }
    }
}

/// Stages of well-formed mappings lose no number and make none.
pub proof fn lemma_through_keeps_span(stages: Seq<Seq<Mapping>>, work: Seq<Range>)
    requires
        forall|k: int| 0 <= k < stages.len() ==> stage_wf(#[trigger] stages[k]),
    ensures
        total_span(spec_through(stages, work)) == total_span(work),
    decreases stages.len(),
{
    if stages.len() > 0 {
        let before = stages.drop_last();
        assert forall|k: int| 0 <= k < before.len() implies stage_wf(#[trigger] before[k]) by {
            assert(before[k] == stages[k]);
        }
        lemma_through_keeps_span(before, work);
        lemma_stage_keeps_span(stages.last(), spec_through(before, work));
    }
}

/// The ranges that come out of an almanac of well-formed mappings hold
/// as many numbers as its seed ranges.
pub proof fn lemma_map_seeds_keeps_span(seeds: Seq<Range>, stages: Seq<Seq<Mapping>>)
    requires
        forall|k: int| 0 <= k < stages.len() ==> stage_wf(#[trigger] stages[k]),
    ensures
        total_span(spec_map_seeds(seeds, stages)) == total_span(seeds),
    decreases seeds.len(),
{
    if seeds.len() > 0 {
        lemma_map_seeds_keeps_span(seeds.drop_last(), stages);
        lemma_through_keeps_span(stages, seq![seeds.last()]);
        lemma_total_span_add(
            spec_map_seeds(seeds.drop_last(), stages),
            spec_through(stages, seq![seeds.last()]),
        );
        lemma_total_span_one(seeds.last());
    }
}

/// Whether every one of `ranges` is well formed.
pub open spec fn ranges_wf(ranges: Seq<Range>) -> bool {
    forall|i: int| 0 <= i < ranges.len() ==> (#[trigger] ranges[i]).wf()
}

/// A stage of well-formed mappings makes well-formed ranges of
/// well-formed ranges.
pub proof fn lemma_stage_output_wf(stage: Seq<Mapping>, work: Seq<Range>)
    requires
        stage_wf(stage),
        ranges_wf(work),
    ensures
        ranges_wf(spec_stage_output(stage, work)),
    decreases work_measure(work),
{
    if work.len() > 0 {
        let seed = work.last();
        let rest = work.drop_last();
        assert forall|i: int| 0 <= i < rest.len() implies (#[trigger] rest[i]).wf() by {
            assert(rest[i] == work[i]);
        }
        match first_hit(stage, seed, 0) {
            Some(m) => {
                lemma_first_hit(stage, seed, 0);
                lemma_overlap_partitions(stage[m].source, seed);
                lemma_overlap_parts(stage[m].source, seed);
                let parts = stage[m].spec_translate(seed);
                let requeued = match parts.left {
                    Some(left) => rest.push(left),
                    None => rest,
                };
                if parts.left is Some {
                    assert(requeued.drop_last() == rest);
                }
                lemma_stage_output_wf(stage, requeued);
            },
            None => {
                lemma_stage_output_wf(stage, rest);
            },
        }
    }
}

/// Stages of well-formed mappings make well-formed ranges of well-formed
/// ranges.
pub proof fn lemma_through_wf(stages: Seq<Seq<Mapping>>, work: Seq<Range>)
    requires
        forall|k: int| 0 <= k < stages.len() ==> stage_wf(#[trigger] stages[k]),
        ranges_wf(work),
    ensures
        ranges_wf(spec_through(stages, work)),
    decreases stages.len(),
{
    if stages.len() > 0 {
        let before = stages.drop_last();
        assert forall|k: int| 0 <= k < before.len() implies stage_wf(#[trigger] before[k]) by {
            assert(before[k] == stages[k]);
        }
        lemma_through_wf(before, work);
        lemma_stage_output_wf(stages.last(), spec_through(before, work));
    }
}

/// The ranges that come out of an almanac of well-formed mappings and
/// well-formed seed ranges are well formed.
pub proof fn lemma_map_seeds_wf(seeds: Seq<Range>, stages: Seq<Seq<Mapping>>)
    requires
        forall|k: int| 0 <= k < stages.len() ==> stage_wf(#[trigger] stages[k]),
        ranges_wf(seeds),
    ensures
        ranges_wf(spec_map_seeds(seeds, stages)),
    decreases seeds.len(),
{
    if seeds.len() > 0 {
        let before = seeds.drop_last();
        assert forall|i: int| 0 <= i < before.len() implies (#[trigger] before[i]).wf() by {
            assert(before[i] == seeds[i]);
        }
        lemma_map_seeds_wf(before, stages);
        lemma_through_wf(stages, seq![seeds.last()]);
    }
}

/// The mappings of each stage.
pub open spec fn stages_of(stages: Seq<Vec<Mapping>>) -> Seq<Seq<Mapping>> {
    Seq::new(stages.len(), |k: int| stages[k]@)
}

/// Whether every one of `stage` is well formed.
pub open spec fn stage_wf(stage: Seq<Mapping>) -> bool {
    forall|m: int| 0 <= m < stage.len() ==> (#[trigger] stage[m]).wf()
}

/// Takes the ranges `work` through one stage.
fn run_stage(stage: &Vec<Mapping>, work: Vec<Range>) -> (output: Vec<Range>)
    requires
        stage_wf(stage@),
    ensures
        output@ == spec_stage_output(stage@, work@),
{
    let ghost all = work@;
    let mut seed_ranges = work;
    let mut stage_output: Vec<Range> = Vec::new();
    while seed_ranges.len() > 0
        invariant
            stage_wf(stage@),
            stage_output@ + spec_stage_output(stage@, seed_ranges@) == spec_stage_output(
                stage@,
                all,
            ),
        decreases work_measure(seed_ranges@),
    {
        let ghost before = seed_ranges@;
        let ghost emitted = stage_output@;
        let seed = seed_ranges.pop().unwrap();
        let ghost rest = seed_ranges@;
        assert(rest == before.drop_last() && seed == before.last());
        // the first mapping that meets `seed`, with what it makes of it
        let mut hit: Option<MaybeOverlap> = None;
        let mut m: usize = 0;
        while m < stage.len() && hit.is_none()
            invariant
                m <= stage.len(),
                stage_wf(stage@),
                hit is None ==> first_hit(stage@, seed, m as int) == first_hit(stage@, seed, 0),
                hit matches Some(parts) ==> 0 < m && first_hit(stage@, seed, 0) == Some(m - 1)
                    && parts == stage@[m - 1].spec_translate(seed),
            decreases stage.len() - m,
        {
            proof {
                stage@[m as int].lemma_wf_can_translate(seed);
            }
            let maybe_translated = stage[m].translate(&seed);
            if maybe_translated.overlap.is_some() {
                hit = Some(maybe_translated);
            }
            m += 1;
        }
        match hit {
            Some(parts) => {
                proof {
                    lemma_first_hit(stage@, seed, 0);
                    lemma_overlap_partitions(stage@[m - 1].source, seed);
                }
                stage_output.push(parts.overlap.unwrap());
                if let Some(left) = parts.left {
                    seed_ranges.push(left);
                    assert(seed_ranges@.drop_last() == rest);
                }
                if let Some(right) = parts.right {
                    stage_output.push(right);
                }
                assert(stage_output@ + spec_stage_output(stage@, seed_ranges@) =~= emitted
                    + spec_stage_output(stage@, before));
            },
            None => {
                stage_output.push(seed);
                assert(stage_output@ + spec_stage_output(stage@, seed_ranges@) =~= emitted
                    + spec_stage_output(stage@, before));
            },
        }
    }
    assert(stage_output@ =~= stage_output@ + spec_stage_output(stage@, seed_ranges@));
    stage_output
}

impl Almanac {
    /// The mappings of each stage.
    pub open spec fn stages(self) -> Seq<Seq<Mapping>> {
        stages_of(self.conversion_stages@)
    }

    /// Whether every mapping of every stage is well formed.
    pub open spec fn wf(self) -> bool {
        forall|k: int|
            0 <= k < self.conversion_stages@.len() ==> stage_wf(
                (#[trigger] self.conversion_stages@[k])@,
            )
    }

    /// Takes each seed range through the stages. What comes out holds as
    /// many numbers as the seed ranges, and is well formed if they are.
    pub fn map_seeds(&self) -> (mapped: Vec<Range>)
        requires
            self.wf(),
        ensures
            mapped@ == spec_map_seeds(self.seeds@, self.stages()),
            total_span(mapped@) == total_span(self.seeds@),
            mapped@.len() > 0 <==> self.seeds@.len() > 0,
            ranges_wf(self.seeds@) ==> ranges_wf(mapped@),
    {
        let mut mapped: Vec<Range> = Vec::new();
        let mut s: usize = 0;
        while s < self.seeds.len()
            invariant
                s <= self.seeds.len(),
                self.wf(),
                mapped@ == spec_map_seeds(self.seeds@.take(s as int), self.stages()),
            decreases self.seeds.len() - s,
        {
            let mut seed_ranges: Vec<Range> = vec![self.seeds[s]];
            assert(seed_ranges@ =~= seq![self.seeds@[s as int]]);
            let mut k: usize = 0;
            while k < self.conversion_stages.len()
                invariant
                    k <= self.conversion_stages.len(),
                    self.wf(),
                    seed_ranges@ == spec_through(
                        self.stages().take(k as int),
                        seq![self.seeds@[s as int]],
                    ),
                decreases self.conversion_stages.len() - k,
            {
                assert(self.stages().take(k + 1).drop_last() == self.stages().take(k as int));
                assert(self.stages().take(k + 1).last() == self.conversion_stages@[k as int]@);
                seed_ranges = run_stage(&self.conversion_stages[k], seed_ranges);
                k += 1;
            }
            assert(self.stages().take(k as int) == self.stages());
            assert(self.seeds@.take(s + 1).drop_last() == self.seeds@.take(s as int));
            mapped.append(&mut seed_ranges);
            s += 1;
        }
        assert(self.seeds@.take(s as int) == self.seeds@);
        proof {
            lemma_map_seeds_keeps_span(self.seeds@, self.stages());
            lemma_map_seeds_not_empty(self.seeds@, self.stages());
            if ranges_wf(self.seeds@) {
                lemma_map_seeds_wf(self.seeds@, self.stages());
            }
        }
        mapped
    }
}

/// `numbers` in chunks of `size`: the first `size` of them, the next
/// `size` and so on; the last chunk holds what is left, and may be
/// shorter.
pub open spec fn spec_chunks(numbers: Seq<usize>, size: usize) -> Seq<Seq<usize>> {
    Seq::new(
        ((numbers.len() + size - 1) / (size as int)) as nat,
        |k: int|
            numbers.subrange(
                k * size,
                if (k + 1) * size <= numbers.len() {
                    (k + 1) * size
                } else {
                    numbers.len() as int
                },
            ),
    )
}

/// Cuts `numbers` into chunks of `size` with `Itertools::chunks`, each
/// chunk collected with `Itertools::collect_vec`: the chunks are those of
/// `spec_chunks`, in their order.
#[verifier::external_body]
fn chunks_of(numbers: Vec<usize>, size: usize) -> (chunks: Vec<Vec<usize>>)
    requires
        size > 0,
    ensures
        chunks@.len() == spec_chunks(numbers@, size).len(),
        forall|k: int|
            0 <= k < chunks@.len() ==> (#[trigger] chunks@[k])@ == spec_chunks(numbers@, size)[k],
{
    numbers.into_iter().chunks(size).into_iter().map(|chunk| chunk.collect_vec()).collect_vec()
}

/// The seed ranges that `line` names where each number is a seed by
/// itself: for each number the range of that number alone. `None` if a
/// word of `line` is no number, or a number is the largest `usize`.
pub open spec fn spec_part_1_seeds(line: Seq<char>) -> Option<Seq<Range>> {
    match spec_parse_numbers(line) {
        Some(numbers) => all_some(
            Seq::new(
                numbers.len(),
                |k: int|
                    if numbers[k] + 1 <= usize::MAX {
                        Some(Range::spec_new(numbers[k], 1))
                    } else {
                        None
                    },
            ),
        ),
        None => None,
    }
}

/// The seed range that the pair of numbers at `k` names: the first is
/// where the range starts, the second how long it is. `None` if only one
/// number is left, or the range would pass the largest `usize`.
pub open spec fn spec_seed_pair(numbers: Seq<usize>, k: int) -> Option<Range> {
    if 2 * k + 1 < numbers.len() && numbers[2 * k] + numbers[2 * k + 1] <= usize::MAX {
        Some(Range::spec_new(numbers[2 * k], numbers[2 * k + 1]))
    } else {
        None
    }
}

/// The seed ranges that `line` names where the numbers go in pairs.
/// `None` if a word of `line` is no number, if the numbers are odd in
/// number, or if a range would pass the largest `usize`.
pub open spec fn spec_part_2_seeds(line: Seq<char>) -> Option<Seq<Range>> {
    match spec_parse_numbers(line) {
        Some(numbers) => all_some(
            Seq::new(((numbers.len() + 1) / 2) as nat, |k: int| spec_seed_pair(numbers, k)),
        ),
        None => None,
    }
}

impl Almanac {
    /// Reads seed ranges of one number each, if `line` names such.
    pub fn try_part_1_seed_parser(line: &str) -> (r: Option<Vec<Range>>)
        ensures
            r is Some <==> spec_part_1_seeds(line@) is Some,
            r matches Some(seeds) ==> seeds@ == spec_part_1_seeds(line@)->0,
    {
        let numbers = match parse_numbers(line) {
            Some(numbers) => numbers,
            None => {
                return None;
            },
        };
        let ghost ranges = Seq::new(
            numbers@.len(),
            |k: int|
                if numbers@[k] + 1 <= usize::MAX {
                    Some(Range::spec_new(numbers@[k], 1))
                } else {
                    None
                },
        );
        let mut seeds: Vec<Range> = Vec::new();
        let mut k: usize = 0;
        while k < numbers.len()
            invariant
                k <= numbers.len(),
                spec_parse_numbers(line@) == Some(numbers@),
                ranges == Seq::new(
                    numbers@.len(),
                    |k: int|
                        if numbers@[k] + 1 <= usize::MAX {
                            Some(Range::spec_new(numbers@[k], 1))
                        } else {
                            None
                        },
                ),
                seeds@.len() == k,
                forall|i: int| 0 <= i < k ==> #[trigger] ranges[i] == Some(seeds@[i]),
            decreases numbers.len() - k,
        {
            if numbers[k] == usize::MAX {
                assert(ranges[k as int] is None);
                return None;
            }
            seeds.push(Range::new(numbers[k], 1));
            k += 1;
        }
        assert(seeds@ =~= all_some(ranges)->0);
        Some(seeds)
    }

    /// Reads seed ranges of one number each.
    pub fn part_1_seed_parser(line: &str) -> (seeds: Vec<Range>)
        requires
            spec_part_1_seeds(line@) is Some,
        ensures
            seeds@ == spec_part_1_seeds(line@)->0,
    {
        Almanac::try_part_1_seed_parser(line).unwrap()
    }

    /// Reads seed ranges given by pairs of start and length, if `line`
    /// names such.
    pub fn try_part_2_seed_parser(line: &str) -> (r: Option<Vec<Range>>)
        ensures
            r is Some <==> spec_part_2_seeds(line@) is Some,
            r matches Some(seeds) ==> seeds@ == spec_part_2_seeds(line@)->0,
    {
        let numbers = match parse_numbers(line) {
            Some(numbers) => numbers,
            None => {
                return None;
            },
        };
        let ghost all = numbers@;
        let ghost ranges = Seq::new(((all.len() + 1) / 2) as nat, |k: int| spec_seed_pair(all, k));
        let chunks = chunks_of(numbers, 2);
        let mut seeds: Vec<Range> = Vec::new();
        let mut k: usize = 0;
        while k < chunks.len()
            invariant
                k <= chunks.len(),
                spec_parse_numbers(line@) == Some(all),
                ranges == Seq::new(((all.len() + 1) / 2) as nat, |k: int| spec_seed_pair(all, k)),
                chunks@.len() == spec_chunks(all, 2).len(),
                forall|i: int|
                    0 <= i < chunks@.len() ==> (#[trigger] chunks@[i])@ == spec_chunks(all, 2)[i],
                seeds@.len() == k,
                forall|i: int| 0 <= i < k ==> #[trigger] ranges[i] == Some(seeds@[i]),
            decreases chunks.len() - k,
        {
            let ns = &chunks[k];
            assert(ns@ == spec_chunks(all, 2)[k as int]);
            if ns.len() < 2 {
                assert(ranges[k as int] is None);
                return None;
            }
            assert(ns@[0] == all[2 * k] && ns@[1] == all[2 * k + 1]);
            if ns[0].checked_add(ns[1]).is_none() {
                assert(ranges[k as int] is None);
                return None;
            }
            seeds.push(Range::new(ns[0], ns[1]));
            k += 1;
        }
        assert(seeds@ =~= all_some(ranges)->0);
        Some(seeds)
    }

    /// Reads seed ranges given by pairs of start and length.
    pub fn part_2_seed_parser(line: &str) -> (seeds: Vec<Range>)
        requires
            spec_part_2_seeds(line@) is Some,
        ensures
            seeds@ == spec_part_2_seeds(line@)->0,
    {
        Almanac::try_part_2_seed_parser(line).unwrap()
    }
}

/// What names the seeds in `input`: what follows the first `:` of the
/// first line. `None` if `input` has no line or its first line no `:`.
pub open spec fn spec_seed_text(input: Seq<char>) -> Option<Seq<char>> {
    let records = spec_lines(input);
    if records.len() > 0 {
        match spec_split_once(records[0], ":"@) {
            Some((_, text)) => Some(text),
            None => None,
        }
    } else {
        None
    }
}

/// The mapping that `line` names by three numbers: where the destination
/// starts, where the source starts, and how long both are. More numbers
/// are passed over. `None` if a word of `line` is no number, if the
/// numbers are fewer than three, or if a range would pass the largest
/// `usize`.
pub open spec fn spec_mapping(line: Seq<char>) -> Option<Mapping> {
    match spec_parse_numbers(line) {
        Some(ns) => if ns.len() >= 3 && ns[1] + ns[2] <= usize::MAX && ns[0] + ns[2]
            <= usize::MAX {
            Some(
                Mapping {
                    source: Range::spec_new(ns[1], ns[2]),
                    destination: Range::spec_new(ns[0], ns[2]),
                },
            )
        } else {
            None
        },
        None => None,
    }
}

/// The stage that `block` describes: a heading, which is passed over,
/// and a mapping in each line after it.
pub open spec fn spec_stage(block: Seq<char>) -> Option<Seq<Mapping>> {
    let records = tail(spec_lines(block));
    all_some(Seq::new(records.len(), |k: int| spec_mapping(records[k])))
}

/// The stages that `input` describes: blocks that two line feeds in a
/// row separate, of which the first, with the seeds, is passed over.
pub open spec fn spec_stages(input: Seq<char>) -> Option<Seq<Seq<Mapping>>> {
    let blocks = tail(spec_split(input, "\n\n"@));
    all_some(Seq::new(blocks.len(), |k: int| spec_stage(blocks[k])))
}

/// Finds what names the seeds in `input`.
fn seed_text<'a>(input: &'a str) -> (r: Option<&'a str>)
    ensures
        r is Some <==> spec_seed_text(input@) is Some,
        r matches Some(text) ==> text@ == spec_seed_text(input@)->0,
{
    let records = lines(input);
    assert(records@.len() == strs(records@).len());
    if records.len() == 0 {
        return None;
    }
    assert(strs(records@)[0] == records@[0]@);
    match split_once(records[0], ":") {
        Some((_, text)) => Some(text),
        None => None,
    }
}

/// Reads a mapping, if `line` names one.
fn parse_mapping(line: &str) -> (r: Option<Mapping>)
    ensures
        r == spec_mapping(line@),
        r matches Some(mapping) ==> mapping.wf(),
{
    let ns = match parse_numbers(line) {
        Some(ns) => ns,
        None => {
            return None;
        },
    };
    if ns.len() < 3 {
        return None;
    }
    if ns[1].checked_add(ns[2]).is_none() || ns[0].checked_add(ns[2]).is_none() {
        return None;
    }
    Some(Mapping { source: Range::new(ns[1], ns[2]), destination: Range::new(ns[0], ns[2]) })
}

/// Reads a stage, if `block` describes one.
fn parse_stage(block: &str) -> (r: Option<Vec<Mapping>>)
    ensures
        r is Some <==> spec_stage(block@) is Some,
        r matches Some(stage) ==> stage@ == spec_stage(block@)->0 && stage_wf(stage@),
{
    let records = lines(block);
    assert(records@.len() == strs(records@).len());
    let ghost all = tail(spec_lines(block@));
    let ghost parsed = Seq::new(all.len(), |k: int| spec_mapping(all[k]));
    let mut stage: Vec<Mapping> = Vec::new();
    let mut k: usize = 1;
    while k < records.len()
        invariant
            1 <= k,
            k <= records.len() || k == 1,
            strs(records@) == spec_lines(block@),
            records@.len() == spec_lines(block@).len(),
            all == tail(spec_lines(block@)),
            parsed == Seq::new(all.len(), |k: int| spec_mapping(all[k])),
            stage@.len() == k - 1,
            stage_wf(stage@),
            forall|i: int| 0 <= i < k - 1 ==> #[trigger] parsed[i] == Some(stage@[i]),
        decreases records.len() - k,
    {
        assert(all[k - 1] == records@[k as int]@) by {
            assert(strs(records@)[k as int] == records@[k as int]@);
        }
        match parse_mapping(records[k]) {
            Some(mapping) => {
                stage.push(mapping);
            },
            None => {
                assert(parsed[k - 1] is None);
                return None;
            },
        }
        k += 1;
    }
    assert(stage@ =~= all_some(parsed)->0);
    Some(stage)
}

/// Reads the stages of `input`, if it describes stages.
fn parse_stages(input: &str) -> (r: Option<Vec<Vec<Mapping>>>)
    ensures
        r is Some <==> spec_stages(input@) is Some,
        r matches Some(stages) ==> {
            &&& stages_of(stages@) == spec_stages(input@)->0
            &&& forall|k: int| 0 <= k < stages@.len() ==> stage_wf((#[trigger] stages@[k])@)
        },
{
    let blocks = split(input, "\n\n");
    assert(blocks@.len() == strs(blocks@).len());
    let ghost all = tail(spec_split(input@, "\n\n"@));
    let ghost parsed = Seq::new(all.len(), |k: int| spec_stage(all[k]));
    let mut stages: Vec<Vec<Mapping>> = Vec::new();
    let mut k: usize = 1;
    while k < blocks.len()
        invariant
            1 <= k,
            k <= blocks.len() || k == 1,
            strs(blocks@) == spec_split(input@, "\n\n"@),
            blocks@.len() == spec_split(input@, "\n\n"@).len(),
            all == tail(spec_split(input@, "\n\n"@)),
            parsed == Seq::new(all.len(), |k: int| spec_stage(all[k])),
            stages@.len() == k - 1,
            forall|i: int| 0 <= i < stages@.len() ==> stage_wf((#[trigger] stages@[i])@),
            forall|i: int| 0 <= i < k - 1 ==> #[trigger] parsed[i] == Some(stages@[i]@),
        decreases blocks.len() - k,
    {
        assert(all[k - 1] == blocks@[k as int]@) by {
            assert(strs(blocks@)[k as int] == blocks@[k as int]@);
        }
        match parse_stage(blocks[k]) {
            Some(stage) => {
                stages.push(stage);
            },
            None => {
                assert(parsed[k - 1] is None);
                return None;
            },
        }
        k += 1;
    }
    assert(stages_of(stages@) =~= all_some(parsed)->0);
    Some(stages)
}

/// The lowest start of `ranges`; `None` if there is no range.
pub open spec fn spec_lowest(ranges: Seq<Range>) -> Option<usize>
    decreases ranges.len(),
{
    if ranges.len() == 0 {
        None
    } else {
        match spec_lowest(ranges.drop_last()) {
            Some(low) => Some(lower(low, ranges.last().start)),
            None => Some(ranges.last().start),
        }
    }
}

/// What `spec_lowest` returns is the start of one of `ranges`, and no
/// range starts below it.
pub proof fn lemma_lowest_is_least(ranges: Seq<Range>)
    requires
        ranges.len() > 0,
    ensures
        spec_lowest(ranges) is Some,
        forall|i: int| 0 <= i < ranges.len() ==> spec_lowest(ranges)->0 <= (#[trigger] ranges[i]).start,
        exists|i: int| 0 <= i < ranges.len() && (#[trigger] ranges[i]).start == spec_lowest(ranges)->0,
    decreases ranges.len(),
{
    let shorter = ranges.drop_last();
    let last = ranges.len() - 1;
    if shorter.len() > 0 {
        lemma_lowest_is_least(shorter);
        assert forall|i: int| 0 <= i < ranges.len() implies spec_lowest(ranges)->0 <= (
        #[trigger] ranges[i]).start by {
            if i < last {
                assert(ranges[i] == shorter[i]);
            }
        }
        if spec_lowest(ranges)->0 == ranges[last].start {
        } else {
            let i = choose|i: int|
                0 <= i < shorter.len() && (#[trigger] shorter[i]).start == spec_lowest(shorter)->0;
            assert(ranges[i] == shorter[i]);
        }
    } else {
        assert(ranges[last].start == spec_lowest(ranges)->0);
    }
}

/// Finds the lowest start of `ranges`.
fn lowest(ranges: &Vec<Range>) -> (low: Option<usize>)
    ensures
        low == spec_lowest(ranges@),
{
    let mut low: Option<usize> = None;
    let mut k: usize = 0;
    while k < ranges.len()
        invariant
            k <= ranges.len(),
            low == spec_lowest(ranges@.take(k as int)),
        decreases ranges.len() - k,
    {
        assert(ranges@.take(k + 1).drop_last() == ranges@.take(k as int));
        low =
        match low {
            Some(l) => Some(min(l, ranges[k].start)),
            None => Some(ranges[k].start),
        };
        k += 1;
    }
    assert(ranges@.take(k as int) == ranges@);
    low
}

/// The lowest number that comes out where the seeds that `input` names
/// are read as `seeds` and taken through the stages of `input`. `None`
/// if `input` describes no stages, or if there is no seed.
pub open spec fn spec_answer(input: Seq<char>, seeds: Seq<Range>) -> Option<usize> {
    match spec_stages(input) {
        Some(stages) => spec_lowest(spec_map_seeds(seeds, stages)),
        None => None,
    }
}

/// The lowest number that comes out where each number of the first line
/// is a seed. `None` if `input` cannot be read or names no seed.
pub open spec fn spec_part_1(input: Seq<char>) -> Option<usize> {
    match spec_seed_text(input) {
        Some(text) => match spec_part_1_seeds(text) {
            Some(seeds) => spec_answer(input, seeds),
            None => None,
        },
        None => None,
    }
}

/// The lowest number that comes out where the numbers of the first line
/// name ranges of seeds by start and length. `None` if `input` cannot be
/// read or names no seed.
pub open spec fn spec_part_2(input: Seq<char>) -> Option<usize> {
    match spec_seed_text(input) {
        Some(text) => match spec_part_2_seeds(text) {
            Some(seeds) => spec_answer(input, seeds),
            None => None,
        },
        None => None,
    }
}

/// Whether `seeds` is what `seed_parser` may return for the seeds that
/// `input` names.
pub open spec fn parsed_by<F: Fn(&str) -> Vec<Range>>(
    seed_parser: F,
    input: Seq<char>,
    seeds: Vec<Range>,
) -> bool {
    exists|text: &str|
        text@ == spec_seed_text(input)->0 && #[trigger] call_ensures(seed_parser, (text,), seeds)
}

impl Almanac {
    /// Reads an almanac: the seeds with `seed_parser`, from what follows
    /// the first `:` of the first line, and the stages from the blocks
    /// after the first.
    pub fn from_input<F: Fn(&str) -> Vec<Range>>(input: &str, seed_parser: F) -> (almanac: Almanac)
        requires
            spec_seed_text(input@) is Some,
            spec_stages(input@) is Some,
            forall|text: &str|
                text@ == spec_seed_text(input@)->0 ==> call_requires(seed_parser, (text,)),
        ensures
            parsed_by(seed_parser, input@, almanac.seeds),
            almanac.stages() == spec_stages(input@)->0,
            almanac.wf(),
    {
        let text = seed_text(input).unwrap();
        let seeds = seed_parser(text);
        let conversion_stages = parse_stages(input).unwrap();
        Almanac { seeds, conversion_stages }
    }
}

/// Finds the lowest number that comes out where the seeds of `input` are
/// read with `seed_parser`, and writes it in base ten.
pub fn solve_with<F: Fn(&str) -> Vec<Range>>(input: &str, seed_parser: F) -> (answer: String)
    requires
        spec_seed_text(input@) is Some,
        spec_stages(input@) is Some,
        forall|text: &str| text@ == spec_seed_text(input@)->0 ==> call_requires(seed_parser, (text,)),
        forall|seeds: Vec<Range>| parsed_by(seed_parser, input@, seeds) ==> seeds@.len() > 0,
    ensures
        exists|seeds: Vec<Range>|
            {
                &&& #[trigger] parsed_by(seed_parser, input@, seeds)
                &&& spec_answer(input@, seeds@) is Some
                &&& answer@ == decimal(spec_answer(input@, seeds@)->0 as nat)
            },
{
    let almanac = Almanac::from_input(input, seed_parser);
    let mapped = almanac.map_seeds();
    // there is a seed, so there is a range to take the lowest of
    let low = lowest(&mapped).unwrap();
    to_decimal(low)
}

/// Finds the lowest number that comes out where each number of the first
/// line is a seed, and writes it in base ten.
pub fn part_1(input: &str) -> (answer: String)
    requires
        spec_part_1(input@) is Some,
    ensures
        answer@ == decimal(spec_part_1(input@)->0 as nat),
{
    proof {
        lemma_map_seeds_not_empty(
            spec_part_1_seeds(spec_seed_text(input@)->0)->0,
            spec_stages(input@)->0,
        );
    }
    solve_with(input, Almanac::part_1_seed_parser)
}

/// Finds the lowest number that comes out where the numbers of the first
/// line name ranges of seeds by start and length, and writes it in base
/// ten.
pub fn part_2(input: &str) -> (answer: String)
    requires
        spec_part_2(input@) is Some,
    ensures
        answer@ == decimal(spec_part_2(input@)->0 as nat),
{
    proof {
        lemma_map_seeds_not_empty(
            spec_part_2_seeds(spec_seed_text(input@)->0)->0,
            spec_stages(input@)->0,
        );
    }
    solve_with(input, Almanac::part_2_seed_parser)
}

/// Takes `seeds` through the stages of `input` and writes the lowest
/// number that comes out in base ten, if `input` describes stages and
/// there is a seed.
fn try_answer(input: &str, seeds: Vec<Range>) -> (r: Option<String>)
    ensures
        r is Some <==> spec_answer(input@, seeds@) is Some,
        r matches Some(answer) ==> answer@ == decimal(spec_answer(input@, seeds@)->0 as nat),
{
    let conversion_stages = match parse_stages(input) {
        Some(stages) => stages,
        None => {
            return None;
        },
    };
    let almanac = Almanac { seeds, conversion_stages };
    let mapped = almanac.map_seeds();
    match lowest(&mapped) {
        Some(low) => Some(to_decimal(low)),
        None => None,
    }
}

/// Finds the lowest number that comes out where each number of the first
/// line is a seed, and writes it in base ten, if `input` can be read and
/// names a seed.
pub fn try_part_1(input: &str) -> (r: Option<String>)
    ensures
        r is Some <==> spec_part_1(input@) is Some,
        r matches Some(answer) ==> answer@ == decimal(spec_part_1(input@)->0 as nat),
{
    let text = match seed_text(input) {
        Some(text) => text,
        None => {
            return None;
        },
    };
    match Almanac::try_part_1_seed_parser(text) {
        Some(seeds) => try_answer(input, seeds),
        None => None,
    }
}

/// Finds the lowest number that comes out where the numbers of the first
/// line name ranges of seeds by start and length, and writes it in base
/// ten, if `input` can be read and names a seed.
pub fn try_part_2(input: &str) -> (r: Option<String>)
    ensures
        r is Some <==> spec_part_2(input@) is Some,
        r matches Some(answer) ==> answer@ == decimal(spec_part_2(input@)->0 as nat),
{
    let text = match seed_text(input) {
        Some(text) => text,
        None => {
            return None;
        },
    };
    match Almanac::try_part_2_seed_parser(text) {
        Some(seeds) => try_answer(input, seeds),
        None => None,
    }
}

} // verus!
