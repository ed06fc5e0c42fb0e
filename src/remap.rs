//! Interval remapping: ordered stages of source-to-destination translations
//! applied to values and to half-open ranges of values.

use std::ops::Range;
use vstd::prelude::*;

use crate::error::GenericError;

verus! {

/// The categories that values move through, in pipeline order.
#[derive(Debug, Clone, Copy, PartialEq, Eq, Structural)]
pub enum EntityType {
    Seed,
    Soil,
    Fertiliser,
    Water,
    Light,
    Temperature,
    Humidity,
    Location,
}

impl EntityType {
    pub open spec fn position(self) -> int {
        match self {
            EntityType::Seed => 0,
            EntityType::Soil => 1,
            EntityType::Fertiliser => 2,
            EntityType::Water => 3,
            EntityType::Light => 4,
            EntityType::Temperature => 5,
            EntityType::Humidity => 6,
            EntityType::Location => 7,
        }
    }

    /// The category's place in the pipeline, `Seed` first.
    pub fn ordinal(&self) -> (r: usize)
        ensures
            r == self.position(),
    {
        match self {
            EntityType::Seed => 0,
            EntityType::Soil => 1,
            EntityType::Fertiliser => 2,
            EntityType::Water => 3,
            EntityType::Light => 4,
            EntityType::Temperature => 5,
            EntityType::Humidity => 6,
            EntityType::Location => 7,
        }
    }
}

/// Translates every `v` in `[source, source + span)` to `v - source + destination`.
#[derive(Debug, Clone, Copy, PartialEq, Eq, Structural)]
pub struct Mapping {
    pub source: usize,
    pub destination: usize,
    pub span: usize,
}

impl Mapping {
    /// Non-empty, and both intervals fit in `usize`.
    pub open spec fn wf(self) -> bool {
        &&& 0 < self.span
        &&& self.source + self.span <= usize::MAX
        &&& self.destination + self.span <= usize::MAX
    }

    pub open spec fn src_end(self) -> int {
        self.source + self.span
    }

    pub open spec fn covers(self, v: int) -> bool {
        self.source <= v < self.src_end()
    }

    pub open spec fn translate(self, v: int) -> int {
        v - self.source + self.destination
    }

    /// Builds a mapping from a `(destination, source, length)` triple, rejecting
    /// an empty one and one whose intervals do not fit in `usize`.
    pub fn new(destination: usize, source: usize, span: usize) -> (r: Result<Mapping, GenericError>)
        ensures
            r matches Ok(m) ==> m == (Mapping { source, destination, span }) && m.wf(),
            r is Err <==> !(Mapping { source, destination, span }).wf(),
            r matches Err(e) ==> e == GenericError::MalformedMapping,
    {
        if span == 0 || source > usize::MAX - span || destination > usize::MAX - span {
            Err(GenericError::MalformedMapping)
        } else {
            Ok(Mapping { source, destination, span })
        }
    }

    pub fn source_begin(&self) -> (r: usize)
        ensures
            r == self.source,
    {
        self.source
    }

    pub fn source_end(&self) -> (r: usize)
        requires
            self.wf(),
        ensures
            r == self.src_end(),
    {
        self.source + self.span
    }

    pub fn destination_begin(&self) -> (r: usize)
        ensures
            r == self.destination,
    {
        self.destination
    }

    pub fn destination_end(&self) -> (r: usize)
        requires
            self.wf(),
        ensures
            r == self.destination + self.span,
    {
        self.destination + self.span
    }

    /// Translates a value of the source interval (or its end) to the destination.
    pub fn do_mapping(&self, source: usize) -> (r: usize)
        requires
            self.wf(),
            self.source <= source <= self.src_end(),
        ensures
            r == self.translate(source as int),
    {
        source - self.source + self.destination
    }
}


pub open spec fn min_int(a: int, b: int) -> int {
    if a <= b { a } else { b }
}

pub open spec fn max_int(a: int, b: int) -> int {
    if a >= b { a } else { b }
}

/// The half-open range `[lo, hi)` as a value.
pub open spec fn span_of(lo: int, hi: int) -> Range<usize> {
    Range { start: lo as usize, end: hi as usize }
}

/// The range as a one-element sequence, or nothing when it is empty.
pub open spec fn keep(r: Range<usize>) -> Seq<Range<usize>> {
    if r.start < r.end { seq![r] } else { seq![] }
}

/// The part of `r` that `m` covers, translated to `m`'s destination.
pub open spec fn mapped_piece(m: Mapping, r: Range<usize>) -> Seq<Range<usize>> {
    let lo = max_int(r.start as int, m.source as int);
    let hi = min_int(r.end as int, m.src_end());
    if lo < hi { seq![span_of(m.translate(lo), m.translate(hi))] } else { seq![] }
}

/// The parts of `r` below and above `m`'s source interval, in that order, untouched.
pub open spec fn unmapped_pieces(m: Mapping, r: Range<usize>) -> Seq<Range<usize>> {
    keep(span_of(r.start as int, min_int(r.end as int, m.source as int)))
        + keep(span_of(max_int(r.start as int, m.src_end()), r.end as int))
}

/// `mapped_piece` of each range of `s`, concatenated in order.
pub open spec fn mapped_all(m: Mapping, s: Seq<Range<usize>>) -> Seq<Range<usize>>
    decreases s.len(),
{
    if s.len() == 0 {
        seq![]
    } else {
        mapped_all(m, s.drop_last()) + mapped_piece(m, s.last())
    }
}

/// `unmapped_pieces` of each range of `s`, concatenated in order.
pub open spec fn unmapped_all(m: Mapping, s: Seq<Range<usize>>) -> Seq<Range<usize>>
    decreases s.len(),
{
    if s.len() == 0 {
        seq![]
    } else {
        unmapped_all(m, s.drop_last()) + unmapped_pieces(m, s.last())
    }
}

/// What a stage's mappings `ms` emit from the not yet mapped ranges `pending`:
/// the first mapping's translated pieces, then what the remaining mappings emit
/// from what the first left over; with no mapping left, `pending` passes through.
pub open spec fn stage_pieces(ms: Seq<Mapping>, pending: Seq<Range<usize>>) -> Seq<Range<usize>>
    decreases ms.len(),
{
    if ms.len() == 0 {
        pending
    } else {
        mapped_all(ms[0], pending) + stage_pieces(ms.drop_first(), unmapped_all(ms[0], pending))
    }
}

/// The ranges that one stage turns `r` into.
pub open spec fn range_image(ms: Seq<Mapping>, r: Range<usize>) -> Seq<Range<usize>> {
    stage_pieces(ms, keep(r))
}

pub open spec fn all_wf(ms: Seq<Mapping>) -> bool {
    forall|i: int| 0 <= i < ms.len() ==> #[trigger] ms[i].wf()
}

pub open spec fn all_nonempty(rs: Seq<Range<usize>>) -> bool {
    forall|i: int| 0 <= i < rs.len() ==> #[trigger] rs[i].start < rs[i].end
}

/// Appends `[lo, hi)` to `v` unless it is empty.
fn push_kept(v: &mut Vec<Range<usize>>, lo: usize, hi: usize)
    ensures
        final(v)@ == old(v)@ + keep(Range { start: lo, end: hi }),
{
    if lo < hi {
        v.push(Range { start: lo, end: hi });
    }
    assert(final(v)@ =~= old(v)@ + keep(Range { start: lo, end: hi }));
}

/// The value that a stage's mappings `ms` turn `v` into: the first mapping
/// that covers `v` translates it; a value that none covers maps to itself.
pub open spec fn point_image(ms: Seq<Mapping>, v: int) -> int
    decreases ms.len(),
{
    if ms.len() == 0 {
        v
    } else if ms[0].covers(v) {
        ms[0].translate(v)
    } else {
        point_image(ms.drop_first(), v)
    }
}

/// A stage: an ordered collection of mappings from one category to the next.
///
/// The mappings' source intervals are assumed not to overlap one another
/// (`pairwise_disjoint`); this is not checked. Where they do overlap, the
/// first mapping that covers a value wins, and a later mapping only sees what
/// the earlier ones left unmapped.
pub struct MappingGroup {
    pub source_type: EntityType,
    pub destination_type: EntityType,
    pub mappings: Vec<Mapping>,
}

/// The mapping that a `(destination, source, length)` triple describes.
pub open spec fn triple_mapping(t: (usize, usize, usize)) -> Mapping {
    Mapping { source: t.1, destination: t.0, span: t.2 }
}

impl MappingGroup {
    pub open spec fn wf(&self) -> bool {
        all_wf(self.mappings@)
    }

    /// Builds a stage from `(destination, source, length)` triples, in order.
    /// The triples' source intervals are assumed not to overlap; overlaps are
    /// not rejected, and the earlier triple then takes the shared values.
    /// Fails when any of them is malformed.
    pub fn new(
        source_type: EntityType,
        destination_type: EntityType,
        triples: &Vec<(usize, usize, usize)>,
    ) -> (r: Result<MappingGroup, GenericError>)
        ensures
            r is Ok <==> forall|i: int| 0 <= i < triples@.len() ==> #[trigger] triple_mapping(triples@[i]).wf(),
            r matches Ok(g) ==> g.wf() && g.source_type == source_type && g.destination_type
                == destination_type && g.mappings@ == triples@.map_values(|t| triple_mapping(t)),
            r matches Err(e) ==> e == GenericError::MalformedMapping,
    {
        let mut mappings: Vec<Mapping> = Vec::new();
        let mut i: usize = 0;
        while i < triples.len()
            invariant
                0 <= i <= triples@.len(),
                mappings@ == triples@.take(i as int).map_values(|t| triple_mapping(t)),
                forall|j: int| 0 <= j < i ==> #[trigger] triple_mapping(triples@[j]).wf(),
            decreases triples@.len() - i,
        {
            let t = triples[i];
            match Mapping::new(t.0, t.1, t.2) {
                Ok(m) => {
                    mappings.push(m);
                },
                Err(e) => {
                    assert(!triple_mapping(triples@[i as int]).wf());
                    return Err(e);
                },
            }
            assert(mappings@ =~= triples@.take(i + 1).map_values(|t| triple_mapping(t)));
            i = i + 1;
        }
        assert(triples@.take(i as int) =~= triples@);
        Ok(MappingGroup { source_type, destination_type, mappings })
    }

    /// Maps one value through the stage.
    pub fn do_mapping(&self, input: usize) -> (r: usize)
        requires
            self.wf(),
        ensures
            r == point_image(self.mappings@, input as int),
    {
        let ghost ms = self.mappings@;
        let n = self.mappings.len();
        let mut k: usize = 0;
        assert(ms.subrange(0, n as int) =~= ms);
        while k < n
            invariant
                n == ms.len(),
                ms == self.mappings@,
                all_wf(ms),
                0 <= k <= n,
                point_image(ms.subrange(k as int, n as int), input as int)
                    == point_image(ms, input as int),
            decreases n - k,
        {
            let m = &self.mappings[k];
            assert(ms.subrange(k as int, n as int).drop_first() =~= ms.subrange(k + 1, n as int));
            assert(ms.subrange(k as int, n as int)[0] == *m);
            if input >= m.source && input < m.source_end() {
                return m.do_mapping(input);
            }
            k = k + 1;
        }
        input
    }

    /// Pushes one range through the stage: each mapping in turn takes the part
    /// of the not yet mapped ranges that it covers; what no mapping takes
    /// passes through unchanged. Empty pieces are dropped.
    pub fn do_range_mapping(&self, input: &Range<usize>) -> (out: Vec<Range<usize>>)
        requires
            self.wf(),
        ensures
            out@ == range_image(self.mappings@, *input),
            all_nonempty(out@),
    {
        let ghost ms = self.mappings@;
        let n = self.mappings.len();
        let mut unmapped: Vec<Range<usize>> = Vec::new();
        push_kept(&mut unmapped, input.start, input.end);
        assert(unmapped@ =~= keep(*input));
        let mut output: Vec<Range<usize>> = Vec::new();
        let mut k: usize = 0;
        assert(ms.subrange(0, n as int) =~= ms);
        while k < n
            invariant
                n == ms.len(),
                ms == self.mappings@,
                all_wf(ms),
                0 <= k <= n,
                output@ + stage_pieces(ms.subrange(k as int, n as int), unmapped@)
                    == range_image(ms, *input),
                all_nonempty(output@),
                all_nonempty(unmapped@),
            decreases n - k,
        {
            let m = self.mappings[k];
            let ghost out0 = output@;
            let ghost pending = unmapped@;
            let mut new_unmapped: Vec<Range<usize>> = Vec::new();
            let mut j: usize = 0;
            while j < unmapped.len()
                invariant
                    m.wf(),
                    pending == unmapped@,
                    0 <= j <= pending.len(),
                    output@ == out0 + mapped_all(m, pending.take(j as int)),
                    new_unmapped@ == unmapped_all(m, pending.take(j as int)),
                    all_nonempty(output@),
                    all_nonempty(new_unmapped@),
                decreases pending.len() - j,
            {
                let r = &unmapped[j];
                let ghost before_out = output@;
                let ghost before_un = new_unmapped@;
                let src_end = m.source_end();
                let lo = if r.start >= m.source { r.start } else { m.source };
                let hi = if r.end <= src_end { r.end } else { src_end };
                if lo < hi {
                    output.push(Range { start: m.do_mapping(lo), end: m.do_mapping(hi) });
                }
                assert(output@ =~= before_out + mapped_piece(m, *r));
                let below_end = if r.end <= m.source { r.end } else { m.source };
                push_kept(&mut new_unmapped, r.start, below_end);
                let above_start = if r.start >= src_end { r.start } else { src_end };
                push_kept(&mut new_unmapped, above_start, r.end);
                assert(new_unmapped@ =~= before_un + unmapped_pieces(m, *r));
                assert(pending.take(j + 1).drop_last() =~= pending.take(j as int));
                assert(output@ =~= out0 + mapped_all(m, pending.take(j + 1)));
                j = j + 1;
            }
            assert(pending.take(j as int) =~= pending);
            assert(ms.subrange(k as int, n as int).drop_first() =~= ms.subrange(k + 1, n as int));
            assert(ms.subrange(k as int, n as int)[0] == m);
            assert(output@ + stage_pieces(ms.subrange(k + 1, n as int), new_unmapped@)
                =~= out0 + stage_pieces(ms.subrange(k as int, n as int), pending));
            unmapped = new_unmapped;
            k = k + 1;
        }
        assert(stage_pieces(ms.subrange(n as int, n as int), unmapped@) == unmapped@);
        output.append(&mut unmapped);
        output
    }
}


/// What one stage turns each range of `rs` into, concatenated in order.
pub open spec fn ranges_image(ms: Seq<Mapping>, rs: Seq<Range<usize>>) -> Seq<Range<usize>>
    decreases rs.len(),
{
    if rs.len() == 0 {
        seq![]
    } else {
        ranges_image(ms, rs.drop_last()) + range_image(ms, rs.last())
    }
}

/// The stages' mappings, one sequence per stage.
pub open spec fn stages_of(groups: Seq<MappingGroup>) -> Seq<Seq<Mapping>> {
    groups.map_values(|g: MappingGroup| g.mappings@)
}

pub open spec fn all_groups_wf(groups: Seq<MappingGroup>) -> bool {
    forall|i: int| 0 <= i < groups.len() ==> #[trigger] groups[i].wf()
}

/// `rs` pushed through every stage, first to last.
pub open spec fn pipeline_image(stages: Seq<Seq<Mapping>>, rs: Seq<Range<usize>>) -> Seq<Range<usize>>
    decreases stages.len(),
{
    if stages.len() == 0 {
        rs
    } else {
        pipeline_image(stages.drop_first(), ranges_image(stages[0], rs))
    }
}

/// `v` mapped through every stage, first to last.
pub open spec fn pipeline_point(stages: Seq<Seq<Mapping>>, v: int) -> int
    decreases stages.len(),
{
    if stages.len() == 0 {
        v
    } else {
        pipeline_point(stages.drop_first(), point_image(stages[0], v))
    }
}

/// `v` is the smallest start among the ranges of `rs`.
pub open spec fn is_min_start(rs: Seq<Range<usize>>, v: int) -> bool {
    &&& exists|i: int| 0 <= i < rs.len() && rs[i].start == v
    &&& forall|i: int| 0 <= i < rs.len() ==> v <= #[trigger] rs[i].start
}

/// Pushes every range of `ranges` through one stage.
pub fn apply_stage(ranges: &Vec<Range<usize>>, stage: &MappingGroup) -> (out: Vec<Range<usize>>)
    requires
        stage.wf(),
    ensures
        out@ == ranges_image(stage.mappings@, ranges@),
        all_nonempty(out@),
{
    let mut out: Vec<Range<usize>> = Vec::new();
    let mut i: usize = 0;
    while i < ranges.len()
        invariant
            stage.wf(),
            0 <= i <= ranges@.len(),
            out@ == ranges_image(stage.mappings@, ranges@.take(i as int)),
            all_nonempty(out@),
        decreases ranges@.len() - i,
    {
        let mut pieces = stage.do_range_mapping(&ranges[i]);
        assert(ranges@.take(i + 1).drop_last() =~= ranges@.take(i as int));
        out.append(&mut pieces);
        assert(out@ =~= ranges_image(stage.mappings@, ranges@.take(i + 1)));
        i = i + 1;
    }
    assert(ranges@.take(i as int) =~= ranges@);
    out
}

/// Pushes every range of `ranges` through each stage of `pipeline` in order.
pub fn apply_pipeline(ranges: &Vec<Range<usize>>, pipeline: &Vec<MappingGroup>) -> (out: Vec<
    Range<usize>,
>)
    requires
        all_groups_wf(pipeline@),
    ensures
        out@ == pipeline_image(stages_of(pipeline@), ranges@),
{
    let ghost stages = stages_of(pipeline@);
    let n = pipeline.len();
    let mut current: Vec<Range<usize>> = Vec::new();
    let mut i: usize = 0;
    while i < ranges.len()
        invariant
            0 <= i <= ranges@.len(),
            current@ == ranges@.take(i as int),
        decreases ranges@.len() - i,
    {
        current.push(Range { start: ranges[i].start, end: ranges[i].end });
        assert(current@ =~= ranges@.take(i + 1));
        i = i + 1;
    }
    assert(current@ =~= ranges@);
    assert(stages.subrange(0, n as int) =~= stages);
    let mut k: usize = 0;
    while k < n
        invariant
            n == pipeline@.len(),
            stages == stages_of(pipeline@),
            all_groups_wf(pipeline@),
            0 <= k <= n,
            pipeline_image(stages.subrange(k as int, n as int), current@)
                == pipeline_image(stages, ranges@),
        decreases n - k,
    {
        assert(stages.subrange(k as int, n as int).drop_first() =~= stages.subrange(k + 1, n as int));
        assert(stages.subrange(k as int, n as int)[0] == pipeline@[k as int].mappings@);
        current = apply_stage(&current, &pipeline[k]);
        k = k + 1;
    }
    current
}

/// The smallest start among `ranges`; an error when there is none.
pub fn minimum_start(ranges: &Vec<Range<usize>>) -> (r: Result<usize, GenericError>)
    ensures
        r is Err <==> ranges@.len() == 0,
        r matches Err(e) ==> e == GenericError::EmptyRangeSet,
        r matches Ok(v) ==> is_min_start(ranges@, v as int),
{
    if ranges.len() == 0 {
        return Err(GenericError::EmptyRangeSet);
    }
    let mut best: usize = ranges[0].start;
    let mut at: usize = 0;
    let mut i: usize = 1;
    while i < ranges.len()
        invariant
            0 < i <= ranges@.len(),
            0 <= at < i,
            ranges@[at as int].start == best,
            forall|j: int| 0 <= j < i ==> best <= #[trigger] ranges@[j].start,
        decreases ranges@.len() - i,
    {
        if ranges[i].start < best {
            best = ranges[i].start;
            at = i;
        }
        i = i + 1;
    }
    Ok(best)
}


/// The summed lengths of the ranges of `rs`.
pub open spec fn total_len(rs: Seq<Range<usize>>) -> int
    decreases rs.len(),
{
    if rs.len() == 0 {
        0
    } else {
        total_len(rs.drop_last()) + (rs.last().end - rs.last().start)
    }
}

pub open spec fn all_ordered(rs: Seq<Range<usize>>) -> bool {
    forall|i: int| 0 <= i < rs.len() ==> #[trigger] rs[i].start <= rs[i].end
}

proof fn lemma_total_concat(a: Seq<Range<usize>>, b: Seq<Range<usize>>)
    ensures
        total_len(a + b) == total_len(a) + total_len(b),
    decreases b.len(),
{
    if b.len() == 0 {
        assert(a + b =~= a);
    } else {
        lemma_total_concat(a, b.drop_last());
        assert((a + b).drop_last() =~= a + b.drop_last());
    }
}

proof fn lemma_total_single(r: Range<usize>)
    ensures
        total_len(seq![r]) == r.end - r.start,
{
    assert(seq![r].drop_last() =~= Seq::<Range<usize>>::empty());
    assert(total_len(Seq::<Range<usize>>::empty()) == 0);
    assert(seq![r].last() == r);
}

proof fn lemma_total_keep(r: Range<usize>)
    requires
        r.start <= r.end,
    ensures
        total_len(keep(r)) == r.end - r.start,
        all_nonempty(keep(r)),
{
    if r.start < r.end {
        lemma_total_single(r);
    }
}

proof fn lemma_nonempty_concat(a: Seq<Range<usize>>, b: Seq<Range<usize>>)
    requires
        all_nonempty(a),
        all_nonempty(b),
    ensures
        all_nonempty(a + b),
{
    assert forall|i: int| 0 <= i < (a + b).len() implies #[trigger] (a + b)[i].start < (a + b)[i].end by {
        if i >= a.len() {
            assert((a + b)[i] == b[i - a.len()]);
        }
    }
}

/// One mapping splits a non-empty range into pieces of the same total length.
proof fn lemma_piece_split(m: Mapping, r: Range<usize>)
    requires
        m.wf(),
        r.start < r.end,
    ensures
        total_len(mapped_piece(m, r)) + total_len(unmapped_pieces(m, r)) == r.end - r.start,
        all_nonempty(mapped_piece(m, r)),
        all_nonempty(unmapped_pieces(m, r)),
{
    let lo = max_int(r.start as int, m.source as int);
    let hi = min_int(r.end as int, m.src_end());
    let below = span_of(r.start as int, min_int(r.end as int, m.source as int));
    let above = span_of(max_int(r.start as int, m.src_end()), r.end as int);
    if lo < hi {
        lemma_total_single(span_of(m.translate(lo), m.translate(hi)));
    }
    if below.start < below.end {
        lemma_total_single(below);
    }
    if above.start < above.end {
        lemma_total_single(above);
    }
    lemma_total_concat(keep(below), keep(above));
    lemma_nonempty_concat(keep(below), keep(above));
}

proof fn lemma_all_split(m: Mapping, s: Seq<Range<usize>>)
    requires
        m.wf(),
        all_nonempty(s),
    ensures
        total_len(mapped_all(m, s)) + total_len(unmapped_all(m, s)) == total_len(s),
        all_nonempty(mapped_all(m, s)),
        all_nonempty(unmapped_all(m, s)),
    decreases s.len(),
{
    if s.len() > 0 {
        lemma_all_split(m, s.drop_last());
        lemma_piece_split(m, s.last());
        lemma_total_concat(mapped_all(m, s.drop_last()), mapped_piece(m, s.last()));
        lemma_total_concat(unmapped_all(m, s.drop_last()), unmapped_pieces(m, s.last()));
        lemma_nonempty_concat(mapped_all(m, s.drop_last()), mapped_piece(m, s.last()));
        lemma_nonempty_concat(unmapped_all(m, s.drop_last()), unmapped_pieces(m, s.last()));
    }
}

proof fn lemma_stage_pieces(ms: Seq<Mapping>, pending: Seq<Range<usize>>)
    requires
        all_wf(ms),
        all_nonempty(pending),
    ensures
        total_len(stage_pieces(ms, pending)) == total_len(pending),
        all_nonempty(stage_pieces(ms, pending)),
    decreases ms.len(),
{
    if ms.len() > 0 {
        let m = ms[0];
        assert(m.wf());
        lemma_all_split(m, pending);
        lemma_stage_pieces(ms.drop_first(), unmapped_all(m, pending));
        lemma_total_concat(
            mapped_all(m, pending),
            stage_pieces(ms.drop_first(), unmapped_all(m, pending)),
        );
        lemma_nonempty_concat(
            mapped_all(m, pending),
            stage_pieces(ms.drop_first(), unmapped_all(m, pending)),
        );
    }
}

proof fn lemma_ranges_image(ms: Seq<Mapping>, rs: Seq<Range<usize>>)
    requires
        all_wf(ms),
        all_ordered(rs),
    ensures
        total_len(ranges_image(ms, rs)) == total_len(rs),
        all_nonempty(ranges_image(ms, rs)),
    decreases rs.len(),
{
    if rs.len() > 0 {
        let r = rs.last();
        assert(r.start <= r.end);
        lemma_ranges_image(ms, rs.drop_last());
        lemma_total_keep(r);
        lemma_stage_pieces(ms, keep(r));
        lemma_total_concat(ranges_image(ms, rs.drop_last()), range_image(ms, r));
        lemma_nonempty_concat(ranges_image(ms, rs.drop_last()), range_image(ms, r));
    }
}

/// One stage keeps the total length of the ranges: every value of every input
/// range ends up in exactly one output range.
pub proof fn lemma_stage_conserves_length(ms: Seq<Mapping>, rs: Seq<Range<usize>>)
    requires
        all_wf(ms),
        all_ordered(rs),
    ensures
        total_len(ranges_image(ms, rs)) == total_len(rs),
{
    lemma_ranges_image(ms, rs);
}

/// One stage never emits an empty range, whatever the input ranges.
pub proof fn lemma_stage_never_emits_empty(ms: Seq<Mapping>, rs: Seq<Range<usize>>)
    requires
        all_wf(ms),
        all_ordered(rs),
    ensures
        all_nonempty(ranges_image(ms, rs)),
{
    lemma_ranges_image(ms, rs);
}

/// A whole pipeline keeps the total length of the ranges and, once at least
/// one stage has run, holds no empty range.
pub proof fn lemma_pipeline_conserves_length(stages: Seq<Seq<Mapping>>, rs: Seq<Range<usize>>)
    requires
        forall|i: int| 0 <= i < stages.len() ==> all_wf(#[trigger] stages[i]),
        all_ordered(rs),
    ensures
        total_len(pipeline_image(stages, rs)) == total_len(rs),
        stages.len() > 0 ==> all_nonempty(pipeline_image(stages, rs)),
    decreases stages.len(),
{
    if stages.len() > 0 {
        assert(all_wf(stages[0]));
        lemma_ranges_image(stages[0], rs);
        let next = ranges_image(stages[0], rs);
        assert(all_ordered(next));
        let rest = stages.drop_first();
        assert forall|i: int| 0 <= i < rest.len() implies all_wf(#[trigger] rest[i]) by {
            assert(rest[i] == stages[i + 1]);
        }
        lemma_pipeline_conserves_length(rest, next);
    }
}


/// The mappings' source intervals do not overlap one another.
pub open spec fn pairwise_disjoint(ms: Seq<Mapping>) -> bool {
    forall|i: int, j: int|
        0 <= i < ms.len() && 0 <= j < ms.len() && i != j ==> #[trigger] ms[i].src_end()
            <= #[trigger] ms[j].source || ms[j].src_end() <= ms[i].source
}

proof fn lemma_single_pieces(m: Mapping, r: Range<usize>)
    ensures
        mapped_all(m, seq![r]) == mapped_piece(m, r),
        unmapped_all(m, seq![r]) == unmapped_pieces(m, r),
{
    let e = Seq::<Range<usize>>::empty();
    assert(seq![r].drop_last() =~= e);
    assert(mapped_all(m, e) == e);
    assert(unmapped_all(m, e) == e);
    assert(seq![r].last() == r);
    assert(e + mapped_piece(m, r) =~= mapped_piece(m, r));
    assert(e + unmapped_pieces(m, r) =~= unmapped_pieces(m, r));
}

/// A range that lies wholly outside `m`'s source interval passes `m` untouched.
proof fn lemma_passes(m: Mapping, r: Range<usize>)
    requires
        m.wf(),
        r.start < r.end,
        r.end <= m.source || m.src_end() <= r.start,
    ensures
        mapped_all(m, seq![r]) == Seq::<Range<usize>>::empty(),
        unmapped_all(m, seq![r]) == seq![r],
{
    lemma_single_pieces(m, r);
    assert(mapped_piece(m, r) =~= Seq::<Range<usize>>::empty());
    assert(unmapped_pieces(m, r) =~= seq![r]);
}

proof fn lemma_nothing_pending(ms: Seq<Mapping>)
    ensures
        stage_pieces(ms, Seq::<Range<usize>>::empty()) == Seq::<Range<usize>>::empty(),
    decreases ms.len(),
{
    let e = Seq::<Range<usize>>::empty();
    if ms.len() > 0 {
        assert(mapped_all(ms[0], e) == e);
        assert(unmapped_all(ms[0], e) == e);
        lemma_nothing_pending(ms.drop_first());
        assert(e + e =~= e);
    }
}

proof fn lemma_outside_all(ms: Seq<Mapping>, r: Range<usize>)
    requires
        all_wf(ms),
        r.start < r.end,
        forall|j: int, v: int|
            0 <= j < ms.len() && r.start <= v < r.end ==> !#[trigger] ms[j].covers(v),
    ensures
        stage_pieces(ms, seq![r]) == seq![r],
    decreases ms.len(),
{
    if ms.len() > 0 {
        let m = ms[0];
        assert(m.wf());
        let lo = max_int(r.start as int, m.source as int);
        if lo < min_int(r.end as int, m.src_end()) {
            assert(ms[0].covers(lo));
        }
        lemma_passes(m, r);
        let rest = ms.drop_first();
        assert forall|j: int, v: int|
            0 <= j < rest.len() && r.start <= v < r.end implies !#[trigger] rest[j].covers(v) by {
            assert(rest[j] == ms[j + 1]);
        }
        lemma_outside_all(rest, r);
        assert(Seq::<Range<usize>>::empty() + seq![r] =~= seq![r]);
    }
}

/// A non-empty range that holds no value of any mapping's source interval
/// passes through the stage as it is.
pub proof fn lemma_stage_identity_outside(ms: Seq<Mapping>, r: Range<usize>)
    requires
        all_wf(ms),
        r.start < r.end,
        forall|j: int, v: int|
            0 <= j < ms.len() && r.start <= v < r.end ==> !#[trigger] ms[j].covers(v),
    ensures
        range_image(ms, r) == seq![r],
{
    lemma_outside_all(ms, r);
}

/// Non-empty ranges none of which holds a value of any mapping's source
/// interval pass through the stage as they are.
pub proof fn lemma_stage_identity_outside_all(ms: Seq<Mapping>, rs: Seq<Range<usize>>)
    requires
        all_wf(ms),
        all_nonempty(rs),
        forall|i: int, j: int, v: int|
            #![trigger rs[i], ms[j].covers(v)]
            0 <= i < rs.len() && 0 <= j < ms.len() && rs[i].start <= v < rs[i].end
                ==> !ms[j].covers(v),
    ensures
        ranges_image(ms, rs) == rs,
    decreases rs.len(),
{
    if rs.len() > 0 {
        let r = rs.last();
        assert(r == rs[rs.len() - 1]);
        assert forall|j: int, v: int|
            0 <= j < ms.len() && r.start <= v < r.end implies !#[trigger] ms[j].covers(v) by {
            assert(rs[rs.len() - 1] == r);
        }
        lemma_outside_all(ms, r);
        let front = rs.drop_last();
        assert forall|i: int, j: int, v: int|
            #![trigger front[i], ms[j].covers(v)]
            0 <= i < front.len() && 0 <= j < ms.len() && front[i].start <= v < front[i].end
                implies !ms[j].covers(v) by {
            assert(front[i] == rs[i]);
        }
        lemma_stage_identity_outside_all(ms, front);
        assert(front + seq![r] =~= rs);
    }
}

proof fn lemma_exact_from(ms: Seq<Mapping>, k: int)
    requires
        all_wf(ms),
        0 <= k < ms.len(),
        forall|j: int|
            0 <= j < k ==> #[trigger] ms[j].src_end() <= ms[k].source || ms[k].src_end()
                <= ms[j].source,
    ensures
        stage_pieces(ms, seq![span_of(ms[k].source as int, ms[k].src_end())])
            == seq![span_of(ms[k].destination as int, ms[k].destination + ms[k].span)],
    decreases k,
{
    let mk = ms[k];
    assert(mk.wf());
    let r = span_of(mk.source as int, mk.src_end());
    let m = ms[0];
    assert(m.wf());
    let rest = ms.drop_first();
    if k == 0 {
        lemma_single_pieces(m, r);
        assert(mapped_piece(m, r) =~= seq![span_of(mk.destination as int, mk.destination + mk.span)]);
        assert(unmapped_pieces(m, r) =~= Seq::<Range<usize>>::empty());
        lemma_nothing_pending(rest);
        assert(mapped_piece(m, r) + Seq::<Range<usize>>::empty() =~= mapped_piece(m, r));
    } else {
        assert(ms[0].src_end() <= ms[k].source || ms[k].src_end() <= ms[0].source);
        lemma_passes(m, r);
        assert(rest[k - 1] == mk);
        assert forall|j: int|
            0 <= j < k - 1 implies #[trigger] rest[j].src_end() <= rest[k - 1].source
                || rest[k - 1].src_end() <= rest[j].source by {
            assert(rest[j] == ms[j + 1]);
        }
        assert forall|i: int| 0 <= i < rest.len() implies #[trigger] rest[i].wf() by {
            assert(rest[i] == ms[i + 1]);
        }
        lemma_exact_from(rest, k - 1);
        assert(Seq::<Range<usize>>::empty() + stage_pieces(rest, seq![r]) =~= stage_pieces(
            rest,
            seq![r],
        ));
    }
}

/// Within a stage whose source intervals do not overlap, a range equal to one
/// mapping's source interval comes out as that mapping's destination interval,
/// in one piece.
pub proof fn lemma_stage_exact_interval(ms: Seq<Mapping>, k: int)
    requires
        all_wf(ms),
        pairwise_disjoint(ms),
        0 <= k < ms.len(),
    ensures
        range_image(ms, span_of(ms[k].source as int, ms[k].src_end()))
            == seq![span_of(ms[k].destination as int, ms[k].destination + ms[k].span)],
{
    assert(ms[k].wf());
    assert forall|j: int| 0 <= j < k implies #[trigger] ms[j].src_end() <= ms[k].source
        || ms[k].src_end() <= ms[j].source by {
        assert(ms[j].src_end() <= ms[k].source || ms[k].src_end() <= ms[j].source);
    }
    lemma_exact_from(ms, k);
}


proof fn lemma_nonempty_total(rs: Seq<Range<usize>>)
    requires
        all_nonempty(rs),
    ensures
        rs.len() == 0 <==> total_len(rs) == 0,
        total_len(rs) >= 0,
    decreases rs.len(),
{
    if rs.len() > 0 {
        assert(rs.last() == rs[rs.len() - 1]);
        assert forall|i: int| 0 <= i < rs.drop_last().len() implies #[trigger] rs.drop_last()[i].start
            < rs.drop_last()[i].end by {
            assert(rs.drop_last()[i] == rs[i]);
        }
        lemma_nonempty_total(rs.drop_last());
    }
}

/// The `i`-th seed range: the pair `(first, count)` at `2 * i` as `[first, first + count)`.
pub open spec fn seed_pair(seeds: Seq<usize>, i: int) -> Range<usize> {
    span_of(seeds[2 * i] as int, seeds[2 * i] + seeds[2 * i + 1])
}

/// The first `n` seed ranges, in order, the empty ones left out.
pub open spec fn seed_ranges(seeds: Seq<usize>, n: int) -> Seq<Range<usize>>
    decreases n,
{
    if n <= 0 {
        seq![]
    } else {
        seed_ranges(seeds, n - 1) + keep(seed_pair(seeds, n - 1))
    }
}

/// Every `(first, count)` pair ends within `usize`.
pub open spec fn pairs_fit(seeds: Seq<usize>) -> bool {
    forall|i: int| 0 <= i < seeds.len() / 2 ==> #[trigger] seeds[2 * i] + seeds[2 * i + 1] <= usize::MAX
}

proof fn lemma_seed_ranges(seeds: Seq<usize>, n: int)
    requires
        0 <= n <= seeds.len() / 2,
        pairs_fit(seeds),
    ensures
        all_nonempty(seed_ranges(seeds, n)),
        all_ordered(seed_ranges(seeds, n)),
        seed_ranges(seeds, n).len() == 0 <==> forall|i: int| 0 <= i < n ==> #[trigger] seeds[2 * i + 1] == 0,
    decreases n,
{
    if n > 0 {
        lemma_seed_ranges(seeds, n - 1);
        let r = seed_pair(seeds, n - 1);
        assert(seeds[2 * (n - 1)] + seeds[2 * (n - 1) + 1] <= usize::MAX);
        assert(all_nonempty(keep(r)));
        lemma_nonempty_concat(seed_ranges(seeds, n - 1), keep(r));
        if seeds[2 * (n - 1) + 1] != 0 {
            assert(keep(r).len() == 1);
        }
    }
}

proof fn lemma_stages_wf(groups: Seq<MappingGroup>)
    requires
        all_groups_wf(groups),
    ensures
        forall|i: int| 0 <= i < stages_of(groups).len() ==> all_wf(#[trigger] stages_of(groups)[i]),
{
    assert forall|i: int| 0 <= i < stages_of(groups).len() implies all_wf(#[trigger] stages_of(groups)[i]) by {
        assert(groups[i].wf());
    }
}

/// A full problem: the seeds and the stages from seed to location.
pub struct ProblemSet {
    pub mapping_groups: Vec<MappingGroup>,
    pub seeds: Vec<usize>,
}

/// Stage `i` goes from the category at position `i` to the one at `i + 1`.
pub open spec fn stages_in_order(groups: Seq<MappingGroup>) -> bool {
    forall|i: int|
        0 <= i < groups.len() ==> (#[trigger] groups[i]).source_type.position() == i
            && groups[i].destination_type.position() == i + 1
}

impl ProblemSet {
    pub open spec fn wf(&self) -> bool {
        all_groups_wf(self.mapping_groups@)
    }

    /// Builds a problem, checking that the stages run from seed to location
    /// in order, one category at a time.
    pub fn new(seeds: Vec<usize>, mapping_groups: Vec<MappingGroup>) -> (r: Result<ProblemSet, GenericError>)
        requires
            all_groups_wf(mapping_groups@),
        ensures
            r is Ok <==> stages_in_order(mapping_groups@),
            r matches Ok(p) ==> p.wf() && p.seeds@ == seeds@ && p.mapping_groups@ == mapping_groups@,
            r matches Err(e) ==> e == GenericError::InvalidInput,
    {
        let mut i: usize = 0;
        while i < mapping_groups.len()
            invariant
                0 <= i <= mapping_groups@.len(),
                forall|j: int|
                    0 <= j < i ==> (#[trigger] mapping_groups@[j]).source_type.position() == j
                        && mapping_groups@[j].destination_type.position() == j + 1,
            decreases mapping_groups@.len() - i,
        {
            let g = &mapping_groups[i];
            if g.source_type.ordinal() != i || g.destination_type.ordinal() != i + 1 {
                return Err(GenericError::InvalidInput);
            }
            i = i + 1;
        }
        Ok(ProblemSet { mapping_groups, seeds })
    }

    pub open spec fn stages(&self) -> Seq<Seq<Mapping>> {
        stages_of(self.mapping_groups@)
    }

    /// The location that `seed` maps to through every stage.
    pub fn get_location_for_seed(&self, seed: usize) -> (r: usize)
        requires
            self.wf(),
        ensures
            r == pipeline_point(self.stages(), seed as int),
    {
        let ghost stages = self.stages();
        let n = self.mapping_groups.len();
        let mut result: usize = seed;
        let mut k: usize = 0;
        assert(stages.subrange(0, n as int) =~= stages);
        while k < n
            invariant
                n == self.mapping_groups@.len(),
                stages == self.stages(),
                self.wf(),
                0 <= k <= n,
                pipeline_point(stages.subrange(k as int, n as int), result as int)
                    == pipeline_point(stages, seed as int),
            decreases n - k,
        {
            assert(stages.subrange(k as int, n as int).drop_first() =~= stages.subrange(k + 1, n as int));
            assert(stages.subrange(k as int, n as int)[0] == self.mapping_groups@[k as int].mappings@);
            result = self.mapping_groups[k].do_mapping(result);
            k = k + 1;
        }
        result
    }

    /// The lowest location that any seed maps to; `usize::MAX` when there is no seed.
    pub fn lowest_location_for_seeds(&self) -> (r: usize)
        requires
            self.wf(),
        ensures
            forall|i: int| 0 <= i < self.seeds@.len() ==> r <= pipeline_point(self.stages(), #[trigger] self.seeds@[i] as int),
            self.seeds@.len() == 0 ==> r == usize::MAX,
            self.seeds@.len() > 0 ==> exists|i: int| 0 <= i < self.seeds@.len() && r == pipeline_point(self.stages(), #[trigger] self.seeds@[i] as int),
    {
        let mut best: usize = usize::MAX;
        let mut i: usize = 0;
        while i < self.seeds.len()
            invariant
                self.wf(),
                0 <= i <= self.seeds@.len(),
                forall|j: int| 0 <= j < i ==> best <= pipeline_point(self.stages(), #[trigger] self.seeds@[j] as int),
                i == 0 ==> best == usize::MAX,
                i > 0 ==> exists|j: int| 0 <= j < i && best == pipeline_point(self.stages(), #[trigger] self.seeds@[j] as int),
            decreases self.seeds@.len() - i,
        {
            let location = self.get_location_for_seed(self.seeds[i]);
            if i == 0 || location < best {
                best = location;
            }
            i = i + 1;
        }
        best
    }

    /// The lowest location reached by any value of `[first_seed, first_seed + seed_count)`.
    pub fn get_min_location_for_seed_range(&self, first_seed: usize, seed_count: usize) -> (r: Result<usize, GenericError>)
        requires
            self.wf(),
        ensures
            first_seed + seed_count > usize::MAX ==> r == Err::<usize, GenericError>(GenericError::MalformedRange),
            first_seed + seed_count <= usize::MAX ==> (r is Err <==> seed_count == 0),
            first_seed + seed_count <= usize::MAX && seed_count == 0 ==> r == Err::<usize, GenericError>(GenericError::EmptyRangeSet),
            r matches Ok(v) ==> is_min_start(
                pipeline_image(self.stages(), seq![span_of(first_seed as int, first_seed + seed_count)]),
                v as int,
            ),
    {
        if first_seed > usize::MAX - seed_count {
            return Err(GenericError::MalformedRange);
        }
        let mut ranges: Vec<Range<usize>> = Vec::new();
        push_kept(&mut ranges, first_seed, first_seed + seed_count);
        let ghost init = ranges@;
        let out = apply_pipeline(&ranges, &self.mapping_groups);
        proof {
            lemma_stages_wf(self.mapping_groups@);
            lemma_pipeline_conserves_length(self.stages(), init);
            lemma_nonempty_total(init);
            if self.stages().len() > 0 {
                lemma_nonempty_total(out@);
            }
            if seed_count > 0 {
                assert(init =~= seq![span_of(first_seed as int, first_seed + seed_count)]);
            }
        }
        minimum_start(&out)
    }

    /// The lowest location reached by any value of any seed range, the seeds
    /// read as `(first, count)` pairs.
    pub fn lowest_location_for_seed_ranges(&self) -> (r: Result<usize, GenericError>)
        requires
            self.wf(),
        ensures
            !(self.seeds@.len() % 2 == 0 && pairs_fit(self.seeds@)) ==> r == Err::<usize, GenericError>(GenericError::MalformedRange),
            self.seeds@.len() % 2 == 0 && pairs_fit(self.seeds@) ==> (r == Err::<usize, GenericError>(GenericError::EmptyRangeSet) <==> forall|i: int| 0 <= i < self.seeds@.len() / 2 ==> #[trigger] self.seeds@[2 * i + 1] == 0),
            self.seeds@.len() % 2 == 0 && pairs_fit(self.seeds@) ==> (r is Err <==> forall|i: int| 0 <= i < self.seeds@.len() / 2 ==> #[trigger] self.seeds@[2 * i + 1] == 0),
            r matches Ok(v) ==> is_min_start(
                pipeline_image(self.stages(), seed_ranges(self.seeds@, (self.seeds@.len() / 2) as int)),
                v as int,
            ),
    {
        let ghost seeds = self.seeds@;
        if self.seeds.len() % 2 != 0 {
            return Err(GenericError::MalformedRange);
        }
        let len = self.seeds.len();
        let pairs = len / 2;
        let mut ranges: Vec<Range<usize>> = Vec::new();
        let mut i: usize = 0;
        while i < pairs
            invariant
                seeds == self.seeds@,
                len == seeds.len(),
                pairs == len / 2,
                seeds.len() % 2 == 0,
                0 <= i <= pairs,
                ranges@ == seed_ranges(seeds, i as int),
                forall|j: int| 0 <= j < i ==> #[trigger] seeds[2 * j] + seeds[2 * j + 1] <= usize::MAX,
            decreases pairs - i,
        {
            assert(2 * i + 1 < seeds.len());
            let first = self.seeds[2 * i];
            let count = self.seeds[2 * i + 1];
            if first > usize::MAX - count {
                assert(!pairs_fit(seeds));
                return Err(GenericError::MalformedRange);
            }
            push_kept(&mut ranges, first, first + count);
            i = i + 1;
        }
        let ghost init = ranges@;
        let out = apply_pipeline(&ranges, &self.mapping_groups);
        proof {
            lemma_seed_ranges(seeds, pairs as int);
            lemma_stages_wf(self.mapping_groups@);
            lemma_pipeline_conserves_length(self.stages(), init);
            lemma_nonempty_total(init);
            if self.stages().len() > 0 {
                lemma_nonempty_total(out@);
            }
        }
        minimum_start(&out)
    }
}


/// Some range of `rs` holds `v`.
pub open spec fn holds_value(rs: Seq<Range<usize>>, v: int) -> bool {
    exists|k: int| 0 <= k < rs.len() && (#[trigger] rs[k]).start <= v < rs[k].end
}

proof fn lemma_holds_concat(a: Seq<Range<usize>>, b: Seq<Range<usize>>, v: int)
    requires
        holds_value(a, v) || holds_value(b, v),
    ensures
        holds_value(a + b, v),
{
    if holds_value(a, v) {
        let k = choose|k: int| 0 <= k < a.len() && (#[trigger] a[k]).start <= v < a[k].end;
        assert((a + b)[k] == a[k]);
    } else {
        let k = choose|k: int| 0 <= k < b.len() && (#[trigger] b[k]).start <= v < b[k].end;
        assert((a + b)[a.len() + k] == b[k]);
    }
}

proof fn lemma_holds_last(s: Seq<Range<usize>>, v: int)
    requires
        holds_value(s, v),
    ensures
        holds_value(s.drop_last(), v) || (s.last().start <= v < s.last().end),
{
    let k = choose|k: int| 0 <= k < s.len() && (#[trigger] s[k]).start <= v < s[k].end;
    if k < s.len() - 1 {
        assert(s.drop_last()[k] == s[k]);
    }
}

proof fn lemma_mapped_holds(m: Mapping, s: Seq<Range<usize>>, v: int)
    requires
        m.wf(),
        m.covers(v),
        holds_value(s, v),
    ensures
        holds_value(mapped_all(m, s), m.translate(v)),
    decreases s.len(),
{
    lemma_holds_last(s, v);
    let r = s.last();
    if r.start <= v < r.end {
        let piece = mapped_piece(m, r);
        assert(piece[0].start <= m.translate(v) < piece[0].end);
        lemma_holds_concat(mapped_all(m, s.drop_last()), piece, m.translate(v));
    } else {
        lemma_mapped_holds(m, s.drop_last(), v);
        lemma_holds_concat(mapped_all(m, s.drop_last()), mapped_piece(m, r), m.translate(v));
    }
}

proof fn lemma_unmapped_holds(m: Mapping, s: Seq<Range<usize>>, v: int)
    requires
        m.wf(),
        !m.covers(v),
        holds_value(s, v),
    ensures
        holds_value(unmapped_all(m, s), v),
    decreases s.len(),
{
    lemma_holds_last(s, v);
    let r = s.last();
    if r.start <= v < r.end {
        let below = keep(span_of(r.start as int, min_int(r.end as int, m.source as int)));
        let above = keep(span_of(max_int(r.start as int, m.src_end()), r.end as int));
        if v < m.source {
            assert(below[0].start <= v < below[0].end);
        } else {
            assert(above[0].start <= v < above[0].end);
        }
        lemma_holds_concat(below, above, v);
        lemma_holds_concat(unmapped_all(m, s.drop_last()), unmapped_pieces(m, r), v);
    } else {
        lemma_unmapped_holds(m, s.drop_last(), v);
        lemma_holds_concat(unmapped_all(m, s.drop_last()), unmapped_pieces(m, r), v);
    }
}

proof fn lemma_stage_holds(ms: Seq<Mapping>, pending: Seq<Range<usize>>, v: int)
    requires
        all_wf(ms),
        holds_value(pending, v),
    ensures
        holds_value(stage_pieces(ms, pending), point_image(ms, v)),
    decreases ms.len(),
{
    if ms.len() > 0 {
        let m = ms[0];
        assert(m.wf());
        let rest = ms.drop_first();
        assert forall|i: int| 0 <= i < rest.len() implies #[trigger] rest[i].wf() by {
            assert(rest[i] == ms[i + 1]);
        }
        if m.covers(v) {
            lemma_mapped_holds(m, pending, v);
            lemma_holds_concat(
                mapped_all(m, pending),
                stage_pieces(rest, unmapped_all(m, pending)),
                point_image(ms, v),
            );
        } else {
            lemma_unmapped_holds(m, pending, v);
            lemma_stage_holds(rest, unmapped_all(m, pending), v);
            lemma_holds_concat(
                mapped_all(m, pending),
                stage_pieces(rest, unmapped_all(m, pending)),
                point_image(ms, v),
            );
        }
    }
}

/// No value is lost by a stage: each value `v` of the range comes out, as the
/// stage maps single values, inside one of the ranges that the stage emits.
pub proof fn lemma_stage_maps_every_value(ms: Seq<Mapping>, r: Range<usize>, v: int)
    requires
        all_wf(ms),
        r.start <= v < r.end,
    ensures
        holds_value(range_image(ms, r), point_image(ms, v)),
{
    assert(keep(r)[0] == r);
    lemma_stage_holds(ms, keep(r), v);
}

} // verus!
