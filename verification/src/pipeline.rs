//! The pipeline orchestrator: extraction, deduplication and sorting in
//! order, with one statistics block that accounts for every record. The
//! surrounding program owns all file handling: it reads alignment events,
//! hands them over as values, and writes the returned records and statistics.

use vstd::prelude::*;
use crate::pair::{PairRecord, PairType, count_type, pairs_sorted};
use crate::extract::{
    AlignmentEvent, ExtractStats, extract_pairs, spec_extract, gi_view, aligned_records,
    distinct_ids, malformed_count,
};
use crate::dedup::{deduplicate_pairs, spec_dedup};
use crate::sort::{sort_pairs, spec_sort_pairs};
use crate::mapper::GraphIndex;

verus! {

/// The statistics of one pipeline run, reported once at its end.
#[derive(Clone, Copy, Debug, PartialEq, Eq)]
pub struct PipelineStats {
    /// Alignment events consumed, malformed ones included.
    pub total_records: usize,
    /// Events the reader could not parse: skipped and counted, never fatal.
    pub malformed: usize,
    /// Read groups missing a mate, which emit no pair.
    pub incomplete: usize,
    pub normal: usize,
    pub graph_mapped: usize,
    pub unmapped: usize,
    pub multi: usize,
    /// Pairs the extractor emitted.
    pub emitted: usize,
    /// Pairs the deduplicator dropped.
    pub duplicates_removed: usize,
    /// Pairs surviving deduplication; the final record count.
    pub kept: usize,
}

impl PipelineStats {
    /// Conservation: the emitted pairs split exactly into the four type
    /// counts, and deduplication accounts for every emitted pair.
    pub open spec fn conserved(&self) -> bool {
        &&& self.emitted == self.normal + self.graph_mapped + self.unmapped + self.multi
        &&& self.emitted == self.kept + self.duplicates_removed
    }
}

/// What the full pipeline returns: the extracted pairs, deduplicated, then
/// stably sorted. A function of the input stream and the graph alone.
pub open spec fn spec_pipeline(s: Seq<AlignmentEvent>, gi: Option<GraphIndex>) -> Seq<PairRecord> {
    spec_sort_pairs(spec_dedup(spec_extract(s, gi)))
}

/// Runs the conversion stage alone: extraction with optional graph mapping,
/// with a statistics block in which nothing was yet deduplicated.
pub fn convert_to_pairs(events: &Vec<AlignmentEvent>, graph: Option<&GraphIndex>) -> (r: (
    Vec<PairRecord>,
    PipelineStats,
))
    requires
        match graph {
            Some(g) => g.wf(),
            None => true,
        },
    ensures
        r.0@ == spec_extract(events@, gi_view(graph)),
        r.1.conserved(),
        r.1.emitted == r.0@.len(),
        r.1.kept == r.0@.len(),
        r.1.duplicates_removed == 0,
        r.1.total_records == events@.len(),
        r.1.malformed == malformed_count(events@),
        r.1.normal == count_type(r.0@, PairType::Normal),
        r.1.graph_mapped == count_type(r.0@, PairType::GraphMapped),
        r.1.unmapped == count_type(r.0@, PairType::Unmapped),
        r.1.multi == count_type(r.0@, PairType::Multi),
        r.1.incomplete + r.0@.len() == distinct_ids(aligned_records(events@)).len(),
{
    let (pairs, es) = extract_pairs(events, graph);
    let stats = stats_of(es, 0, es.emitted);
    (pairs, stats)
}

/// Runs the full pipeline: extract, deduplicate, sort. The returned stream
/// is globally sorted and duplicate-free, and the statistics tie every
/// emitted pair to a type and to its dedup outcome.
pub fn full_pipeline(events: &Vec<AlignmentEvent>, graph: Option<&GraphIndex>, nproc: u8) -> (r: (
    Vec<PairRecord>,
    PipelineStats,
))
    requires
        match graph {
            Some(g) => g.wf(),
            None => true,
        },
    ensures
        r.0@ == spec_pipeline(events@, gi_view(graph)),
        pairs_sorted(r.0@),
        r.1.conserved(),
        r.1.emitted == spec_extract(events@, gi_view(graph)).len(),
        r.1.kept == r.0@.len(),
        r.1.total_records == events@.len(),
        r.1.malformed == malformed_count(events@),
        r.1.normal == count_type(spec_extract(events@, gi_view(graph)), PairType::Normal),
        r.1.graph_mapped == count_type(
            spec_extract(events@, gi_view(graph)),
            PairType::GraphMapped,
        ),
        r.1.unmapped == count_type(spec_extract(events@, gi_view(graph)), PairType::Unmapped),
        r.1.multi == count_type(spec_extract(events@, gi_view(graph)), PairType::Multi),
{
    let (pairs, es) = extract_pairs(events, graph);
    let (deduped, removed) = deduplicate_pairs(&pairs);
    let kept = deduped.len();
    let sorted = sort_pairs(&deduped, nproc);
    let stats = stats_of(es, removed, kept);
    (sorted, stats)
}

/// Assembles the run's statistics from the extraction counters and the
/// deduplication outcome.
fn stats_of(es: ExtractStats, removed: usize, kept: usize) -> (r: PipelineStats)
    requires
        kept + removed == es.emitted,
        es.emitted == es.normal + es.graph_mapped + es.unmapped + es.multi,
    ensures
        r.conserved(),
        r.total_records == es.total_records,
        r.malformed == es.malformed,
        r.incomplete == es.incomplete,
        r.normal == es.normal,
        r.graph_mapped == es.graph_mapped,
        r.unmapped == es.unmapped,
        r.multi == es.multi,
        r.emitted == es.emitted,
        r.duplicates_removed == removed,
        r.kept == kept,
{
    PipelineStats {
        total_records: es.total_records,
        malformed: es.malformed,
        incomplete: es.incomplete,
        normal: es.normal,
        graph_mapped: es.graph_mapped,
        unmapped: es.unmapped,
        multi: es.multi,
        emitted: es.emitted,
        duplicates_removed: removed,
        kept,
    }
}

} // verus!
