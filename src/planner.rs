//! Chunk Planner: splits a chromosome's sites into memory-bounded,
//! genetic-distance-bounded contiguous chunks.
use vstd::prelude::*;
use crate::genetic_map::{DistanceModel, GeneticMap, MAX_DISTANCE, lemma_two_anchor_map_is_uniform};

verus! {

/// A half-open range of site indices, with the planner's phase-switch flag.
#[derive(Debug, Clone, Copy, PartialEq, Eq, Structural)]
pub struct Chunk {
    pub start: usize,
    pub end: usize,
    /// When set, the painting model holds no explicit phase-switch state.
    pub suppress_transitions: bool,
}

/// Errors raised by the planner.
#[derive(Debug, Clone, Copy, PartialEq, Eq, Structural)]
pub enum PlanError {
    /// A single site's footprint alone exceeds the memory budget.
    InfeasibleBudget,
}

/// Planner settings.
#[derive(Debug, Clone, Copy, PartialEq, Eq, Structural)]
pub struct PlanConfig {
    /// Number of haplotypes held per site.
    pub n_haps: usize,
    /// Memory budget in bytes for one chunk and its processing overhead.
    pub memory_budget: u64,
    /// Largest genetic distance a chunk may span.
    pub max_span: u64,
    /// Planner flag: no explicit phase-switch state in the painting model.
    pub suppress_transitions: bool,
}

/// Resident bytes for a chunk of `n_sites` sites: one byte per allele, plus one
/// row of phase-switch state per haplotype when transitions are modelled.
pub open spec fn footprint(n_sites: int, n_haps: int, suppress_transitions: bool) -> int {
    n_sites * n_haps + if suppress_transitions { 0 } else { n_haps }
}

/// The smallest footprint any chunk can have: one site.
pub open spec fn min_footprint(cfg: PlanConfig) -> int {
    footprint(1, cfg.n_haps as int, cfg.suppress_transitions)
}

/// Site `i` can join the chunk that starts at site `start`.
pub open spec fn fits(gd: Seq<u64>, cfg: PlanConfig, start: int, i: int) -> bool {
    &&& footprint(i - start + 1, cfg.n_haps as int, cfg.suppress_transitions) <= cfg.memory_budget
    &&& gd[i] - gd[start] <= cfg.max_span
}

/// End of the chunk that starts at `start`, scanning on from site `i`: the
/// first site that does not fit, or the number of sites.
pub open spec fn chunk_end(gd: Seq<u64>, cfg: PlanConfig, start: int, i: int) -> int
    decreases gd.len() - i,
{
    if i >= gd.len() {
        gd.len() as int
    } else if fits(gd, cfg, start, i) {
        chunk_end(gd, cfg, start, i + 1)
    } else {
        i
    }
}

/// Chunks from site `start` on, each as long as the budget and span allow.
pub open spec fn plan_from(gd: Seq<u64>, cfg: PlanConfig, start: int) -> Seq<Chunk>
    decreases gd.len() - start,
{
    if start < 0 || start >= gd.len() {
        seq![]
    } else {
        let e = chunk_end(gd, cfg, start, start + 1);
        if e <= start || e > gd.len() {
            seq![]
        } else {
            seq![
                Chunk {
                    start: start as usize,
                    end: e as usize,
                    suppress_transitions: cfg.suppress_transitions,
                },
            ] + plan_from(gd, cfg, e)
        }
    }
}

/// The manifest for sites with genetic distances `gd`.
pub open spec fn plan_spec(gd: Seq<u64>, cfg: PlanConfig) -> Seq<Chunk> {
    plan_from(gd, cfg, 0)
}

/// A manifest over `n` sites: non-empty chunks, the first starting at 0, each
/// ending where the next starts, the last ending at `n`.
pub open spec fn manifest_valid(chunks: Seq<Chunk>, n: int) -> bool {
    &&& n == 0 <==> chunks.len() == 0
    &&& chunks.len() > 0 ==> chunks[0].start == 0 && chunks.last().end == n
    &&& forall|k: int| 0 <= k < chunks.len() ==> #[trigger] chunks[k].start < chunks[k].end
    &&& forall|k: int| 0 <= k < chunks.len() - 1 ==> #[trigger] chunks[k].end == chunks[k + 1].start
}

/// Chunks are pairwise disjoint and in order.
pub open spec fn manifest_ordered(chunks: Seq<Chunk>) -> bool {
    forall|j: int, k: int| 0 <= j < k < chunks.len() ==> chunks[j].end <= chunks[k].start
}

/// Every chunk's footprint is within the budget.
pub open spec fn manifest_within_budget(chunks: Seq<Chunk>, cfg: PlanConfig) -> bool {
    forall|k: int|
        0 <= k < chunks.len() ==> footprint(
            #[trigger] chunks[k].end - chunks[k].start,
            cfg.n_haps as int,
            cfg.suppress_transitions,
        ) <= cfg.memory_budget
}

/// Every chunk spans at most the configured genetic distance.
pub open spec fn manifest_within_span(chunks: Seq<Chunk>, gd: Seq<u64>, cfg: PlanConfig) -> bool {
    forall|k: int|
        0 <= k < chunks.len() ==> gd[#[trigger] chunks[k].end - 1] - gd[chunks[k].start as int]
            <= cfg.max_span
}

proof fn lemma_chunk_end_range(gd: Seq<u64>, cfg: PlanConfig, start: int, i: int)
    requires
        0 <= start < i <= gd.len(),
        forall|j: int| start < j < i ==> fits(gd, cfg, start, j),
        min_footprint(cfg) <= cfg.memory_budget,
    ensures
        i <= chunk_end(gd, cfg, start, i) <= gd.len(),
        fits(gd, cfg, start, chunk_end(gd, cfg, start, i) - 1),
    decreases gd.len() - i,
{
    if i < gd.len() && fits(gd, cfg, start, i) {
        lemma_chunk_end_range(gd, cfg, start, i + 1);
    } else if i - 1 == start {
        assert(fits(gd, cfg, start, start));
    } else {
        assert(fits(gd, cfg, start, i - 1));
    }
}

/// The chunks from `start` on: non-empty, contiguous, starting at `start`
/// and ending at the last site, each within the budget and the span.
pub open spec fn tail_valid(s: Seq<Chunk>, gd: Seq<u64>, cfg: PlanConfig, start: int) -> bool {
    &&& s.len() > 0
    &&& s[0].start == start
    &&& s.last().end == gd.len()
    &&& forall|k: int| 0 <= k < s.len() ==> start <= #[trigger] s[k].start
    &&& forall|k: int| 0 <= k < s.len() ==> #[trigger] s[k].start < s[k].end
    &&& forall|k: int| 0 <= k < s.len() - 1 ==> #[trigger] s[k].end == s[k + 1].start
    &&& manifest_within_budget(s, cfg)
    &&& manifest_within_span(s, gd, cfg)
}

#[verifier::rlimit(40)]
proof fn lemma_plan_from_valid(gd: Seq<u64>, cfg: PlanConfig, start: int)
    requires
        0 <= start < gd.len(),
        gd.len() <= usize::MAX,
        min_footprint(cfg) <= cfg.memory_budget,
    ensures
        tail_valid(plan_from(gd, cfg, start), gd, cfg, start),
    decreases gd.len() - start,
{
    let e = chunk_end(gd, cfg, start, start + 1);
    lemma_chunk_end_range(gd, cfg, start, start + 1);
    let head = Chunk {
        start: start as usize,
        end: e as usize,
        suppress_transitions: cfg.suppress_transitions,
    };
    let s = plan_from(gd, cfg, start);
    assert(head.start == start && head.end == e);
    if e < gd.len() {
        lemma_plan_from_valid(gd, cfg, e);
        let rest = plan_from(gd, cfg, e);
        assert(s == seq![head] + rest);
        assert(tail_valid(rest, gd, cfg, e));
        assert forall|k: int| 0 < k < s.len() implies #[trigger] s[k] == rest[k - 1] by {}
        assert(s.last() == rest.last());
        assert forall|k: int| 0 <= k < s.len() - 1 implies #[trigger] s[k].end == s[k + 1].start by {
            if k > 0 {
                assert(s[k] == rest[k - 1]);
                assert(s[k + 1] == rest[k]);
            } else {
                assert(s[1] == rest[0]);
            }
        }
        assert forall|k: int| 0 <= k < s.len() implies #[trigger] s[k].start < s[k].end && start
            <= s[k].start by {
            if k > 0 {
                assert(s[k] == rest[k - 1]);
            }
        }
        assert(manifest_within_budget(s, cfg)) by {
            assert forall|k: int|
                0 <= k < s.len() implies footprint(
                    #[trigger] s[k].end - s[k].start,
                    cfg.n_haps as int,
                    cfg.suppress_transitions,
                ) <= cfg.memory_budget by {
                if k > 0 {
                    assert(s[k] == rest[k - 1]);
                }
            }
        }
        assert(manifest_within_span(s, gd, cfg)) by {
            assert forall|k: int|
                0 <= k < s.len() implies gd[#[trigger] s[k].end - 1] - gd[s[k].start as int]
                    <= cfg.max_span by {
                if k > 0 {
                    assert(s[k] == rest[k - 1]);
                }
            }
        }
    } else {
        assert(plan_from(gd, cfg, e) == Seq::<Chunk>::empty());
        assert(s == seq![head] + Seq::<Chunk>::empty());
        assert(s.len() == 1);
        assert(s[0] == head);
    }
}

/// Contiguous chunks of positive length are pairwise disjoint and in order.
proof fn lemma_contiguous_ordered(chunks: Seq<Chunk>, n: int)
    requires
        manifest_valid(chunks, n),
    ensures
        manifest_ordered(chunks),
{
    assert forall|j: int, k: int| 0 <= j < k < chunks.len() implies chunks[j].end
        <= chunks[k].start by {
        lemma_contiguous_step(chunks, n, j, k);
    }
}

proof fn lemma_contiguous_step(chunks: Seq<Chunk>, n: int, j: int, k: int)
    requires
        manifest_valid(chunks, n),
        0 <= j < k < chunks.len(),
    ensures
        chunks[j].end <= chunks[k].start,
    decreases k - j,
{
    if k > j + 1 {
        lemma_contiguous_step(chunks, n, j, k - 1);
        assert(chunks[k - 1].start < chunks[k - 1].end);
        assert(chunks[k - 1].end == chunks[k].start);
    } else {
        assert(chunks[j].end == chunks[j + 1].start);
    }
}

/// Whenever planning succeeds, the manifest covers all sites with contiguous,
/// non-empty, disjoint chunks in order, each within the memory budget and the
/// genetic span.
pub proof fn lemma_plan_valid(gd: Seq<u64>, cfg: PlanConfig)
    requires
        gd.len() <= usize::MAX,
        min_footprint(cfg) <= cfg.memory_budget,
    ensures
        manifest_valid(plan_spec(gd, cfg), gd.len() as int),
        manifest_ordered(plan_spec(gd, cfg)),
        manifest_within_budget(plan_spec(gd, cfg), cfg),
        manifest_within_span(plan_spec(gd, cfg), gd, cfg),
{
    if gd.len() > 0 {
        lemma_plan_from_valid(gd, cfg, 0);
        assert(tail_valid(plan_spec(gd, cfg), gd, cfg, 0));
    }
    lemma_contiguous_ordered(plan_spec(gd, cfg), gd.len() as int);
}

/// Exact footprint of `n_sites` sites, computed without overflow.
fn footprint_exec(n_sites: usize, n_haps: usize, suppress_transitions: bool) -> (r: u128)
    ensures
        r == footprint(n_sites as int, n_haps as int, suppress_transitions),
{
    proof {
        assert(n_sites as int * n_haps as int <= 0xffff_ffff_ffff_ffffu64 as int
            * 0xffff_ffff_ffff_ffffu64 as int) by (nonlinear_arith)
            requires
                n_sites <= 0xffff_ffff_ffff_ffffu64,
                n_haps <= 0xffff_ffff_ffff_ffffu64,
        ;
    }
    let base = n_sites as u128 * n_haps as u128;
    if suppress_transitions {
        base
    } else {
        base + n_haps as u128
    }
}

/// Plans the chunk manifest for sites with genetic distances `gd`.
/// Fails with `InfeasibleBudget` exactly when one site alone exceeds the budget;
/// otherwise the manifest is the greedy plan, a function of the inputs alone.
pub fn plan_chunks(gd: &Vec<u64>, cfg: PlanConfig) -> (r: Result<Vec<Chunk>, PlanError>)
    ensures
        r is Err <==> cfg.memory_budget < min_footprint(cfg),
        r is Err ==> r->Err_0 == PlanError::InfeasibleBudget,
        r is Ok ==> r->Ok_0@ == plan_spec(gd@, cfg),
        r is Ok ==> manifest_valid(r->Ok_0@, gd@.len() as int),
{
    if footprint_exec(1, cfg.n_haps, cfg.suppress_transitions) > cfg.memory_budget as u128 {
        return Err(PlanError::InfeasibleBudget);
    }
    let n = gd.len();
    proof {
        lemma_plan_valid(gd@, cfg);
    }
    let mut chunks: Vec<Chunk> = Vec::new();
    if n == 0 {
        proof {
            assert(chunks@ =~= plan_spec(gd@, cfg));
        }
        return Ok(chunks);
    }
    let mut start: usize = 0;
    let mut i: usize = 1;
    while i < n
        invariant
            n == gd@.len(),
            0 <= start < i <= n,
            min_footprint(cfg) <= cfg.memory_budget,
            chunk_end(gd@, cfg, start as int, start + 1) == chunk_end(gd@, cfg, start as int, i as int),
            plan_spec(gd@, cfg) == chunks@ + plan_from(gd@, cfg, start as int),
        decreases n - i,
    {
        let span_ok = gd[i] >= gd[start] && gd[i] - gd[start] <= cfg.max_span || gd[i] < gd[start];
        let fits_now = footprint_exec(i - start + 1, cfg.n_haps, cfg.suppress_transitions)
            <= cfg.memory_budget as u128 && span_ok;
        if !fits_now {
            let c = Chunk { start, end: i, suppress_transitions: cfg.suppress_transitions };
            proof {
                let tail = plan_from(gd@, cfg, i as int);
                assert(plan_from(gd@, cfg, start as int) == seq![c] + tail);
                assert(chunks@.push(c) + tail =~= chunks@ + (seq![c] + tail));
            }
            chunks.push(c);
            start = i;
        }
        i += 1;
    }
    let c = Chunk { start, end: n, suppress_transitions: cfg.suppress_transitions };
    proof {
        assert(plan_from(gd@, cfg, n as int) == Seq::<Chunk>::empty());
        assert(plan_from(gd@, cfg, start as int) == seq![c] + Seq::<Chunk>::empty());
        assert(chunks@.push(c) =~= chunks@ + (seq![c] + Seq::<Chunk>::empty()));
    }
    chunks.push(c);
    Ok(chunks)
}

/// Genetic distance of each site under `model`.
pub open spec fn site_distances_spec(model: DistanceModel, positions: Seq<u64>) -> Seq<u64> {
    Seq::new(positions.len(), |k: int| model.spec_distance(positions[k] as int) as u64)
}

/// Genetic distance of each site, in site order.
pub fn site_distances(model: &DistanceModel, positions: &Vec<u64>) -> (r: Vec<u64>)
    requires
        model.wf(),
    ensures
        r@ == site_distances_spec(*model, positions@),
        forall|k: int| 0 <= k < r@.len() ==> r@[k] == model.spec_distance(#[trigger] positions@[k] as int),
{
    let mut r: Vec<u64> = Vec::new();
    let mut k: usize = 0;
    while k < positions.len()
        invariant
            model.wf(),
            k <= positions@.len(),
            r@.len() == k,
            forall|j: int| 0 <= j < k ==> r@[j] == model.spec_distance(#[trigger] positions@[j] as int),
        decreases positions.len() - k,
    {
        let d = model.distance_at(positions[k]);
        r.push(d);
        k += 1;
    }
    assert(r@ =~= site_distances_spec(*model, positions@));
    r
}

proof fn lemma_chunk_end_reaches_last(gd: Seq<u64>, cfg: PlanConfig, i: int)
    requires
        1 <= i <= gd.len(),
        footprint(gd.len() as int, cfg.n_haps as int, cfg.suppress_transitions) <= cfg.memory_budget,
        forall|j: int| 0 <= j < gd.len() ==> #[trigger] gd[j] - gd[0] <= cfg.max_span,
    ensures
        chunk_end(gd, cfg, 0, i) == gd.len(),
    decreases gd.len() - i,
{
    if i < gd.len() {
        assert((i + 1) * cfg.n_haps <= gd.len() * cfg.n_haps) by (nonlinear_arith)
            requires
                i + 1 <= gd.len(),
                cfg.n_haps >= 0,
        ;
        assert(gd[i] - gd[0] <= cfg.max_span);
        assert(fits(gd, cfg, 0, i));
        lemma_chunk_end_reaches_last(gd, cfg, i + 1);
    }
}

/// A budget and span that cover the whole chromosome give a manifest of
/// exactly one chunk, over all sites.
pub proof fn lemma_whole_chromosome_one_chunk(gd: Seq<u64>, cfg: PlanConfig)
    requires
        0 < gd.len() <= usize::MAX,
        footprint(gd.len() as int, cfg.n_haps as int, cfg.suppress_transitions) <= cfg.memory_budget,
        forall|j: int| 0 <= j < gd.len() ==> #[trigger] gd[j] - gd[0] <= cfg.max_span,
    ensures
        plan_spec(gd, cfg) == seq![
            Chunk { start: 0, end: gd.len() as usize, suppress_transitions: cfg.suppress_transitions },
        ],
{
    lemma_chunk_end_reaches_last(gd, cfg, 1);
    assert(plan_from(gd, cfg, gd.len() as int) == Seq::<Chunk>::empty());
    assert(plan_spec(gd, cfg) =~= seq![
        Chunk { start: 0, end: gd.len() as usize, suppress_transitions: cfg.suppress_transitions },
    ]);
}

/// Without a map, sites get the default rate; a map whose anchors (0, 0) and
/// (`len`, `len * rate`) encode that same rate yields the same manifest for
/// sites up to `len`.
pub proof fn lemma_default_rate_map_same_manifest(
    m: GeneticMap,
    rate: u64,
    len: u64,
    positions: Seq<u64>,
    cfg: PlanConfig,
)
    requires
        m.positions_view() == seq![0u64, len],
        m.distances_view() == seq![0u64, (len * rate) as u64],
        len > 0,
        len * rate <= MAX_DISTANCE,
        forall|k: int| 0 <= k < positions.len() ==> positions[k] <= len,
    ensures
        DistanceModel::Anchors(m).wf(),
        site_distances_spec(DistanceModel::Anchors(m), positions) == site_distances_spec(
            DistanceModel::Uniform(rate),
            positions,
        ),
        plan_spec(site_distances_spec(DistanceModel::Anchors(m), positions), cfg) == plan_spec(
            site_distances_spec(DistanceModel::Uniform(rate), positions),
            cfg,
        ),
{
    lemma_two_anchor_map_is_uniform(m, rate, len, 0);
    let a = site_distances_spec(DistanceModel::Anchors(m), positions);
    let b = site_distances_spec(DistanceModel::Uniform(rate), positions);
    assert forall|k: int| 0 <= k < positions.len() implies a[k] == b[k] by {
        lemma_two_anchor_map_is_uniform(m, rate, len, positions[k] as int);
    }
    assert(a =~= b);
}

} // verus!
