//! The two entry operations' own logic: preparing boundary arguments and
//! running the planner and the painting engine on loaded data.
use vstd::prelude::*;
use crate::genetic_map::DistanceModel;
use crate::paint::{PairPainting, PaintError, chunk_addressable, chunk_painting, paint};
use crate::store::HaplotypeStore;
use crate::planner::{
    Chunk,
    PlanConfig,
    PlanError,
    manifest_valid,
    min_footprint,
    plan_chunks,
    plan_spec,
    site_distances,
    site_distances_spec,
};

verus! {

/// The name that stands for "no distance map supplied".
pub open spec fn unspecified_name() -> Seq<char> {
    "unspecified"@
}

/// The distance-map argument with the sentinel in place of a missing map.
pub fn distance_map_arg(dist: Option<String>) -> (r: String)
    ensures
        dist is Some ==> r@ == dist->Some_0@,
        dist is None ==> r@ == unspecified_name(),
{
    match dist {
        Some(s) => s,
        None => "unspecified".to_owned(),
    }
}

/// Whether a distance-map argument is the sentinel for "no map".
pub fn is_unspecified(name: &String) -> (r: bool)
    ensures
        r == (name@ == unspecified_name()),
{
    let sentinel = "unspecified".to_owned();
    *name == sentinel
}

/// The planner's flag from the caller's enable-style flag: negated, once.
pub fn suppress_transitions(use_transitions: bool) -> (r: bool)
    ensures
        r == !use_transitions,
{
    !use_transitions
}

/// Painting parameters as the ordered pair [theta, rho].
pub fn painting_parameters(theta: u64, rho: u64) -> (r: Vec<u64>)
    ensures
        r@ == seq![theta, rho],
{
    let mut r: Vec<u64> = Vec::new();
    r.push(theta);
    r.push(rho);
    assert(r@ =~= seq![theta, rho]);
    r
}

/// The planner settings for an entry call; `use_transitions` is the caller's
/// enable-style flag.
pub open spec fn entry_config(
    n_haps: usize,
    memory_budget: u64,
    max_span: u64,
    use_transitions: bool,
) -> PlanConfig {
    PlanConfig { n_haps, memory_budget, max_span, suppress_transitions: !use_transitions }
}

/// Plans the chunk manifest for sites at physical `positions`, genetic
/// distances from `model`, `n_haps` haplotypes and the given budget and span.
/// Fails with `InfeasibleBudget` exactly when one site alone exceeds the budget.
pub fn make_chunks(
    positions: &Vec<u64>,
    model: &DistanceModel,
    n_haps: usize,
    memory_budget: u64,
    max_span: u64,
    use_transitions: bool,
) -> (r: Result<Vec<Chunk>, PlanError>)
    requires
        model.wf(),
    ensures
        r is Err <==> memory_budget < min_footprint(
            entry_config(n_haps, memory_budget, max_span, use_transitions),
        ),
        r is Err ==> r->Err_0 == PlanError::InfeasibleBudget,
        r is Ok ==> r->Ok_0@ == plan_spec(
            site_distances_spec(*model, positions@),
            entry_config(n_haps, memory_budget, max_span, use_transitions),
        ),
        r is Ok ==> manifest_valid(r->Ok_0@, positions@.len() as int),
{
    let cfg = PlanConfig {
        n_haps,
        memory_budget,
        max_span,
        suppress_transitions: suppress_transitions(use_transitions),
    };
    let gd = site_distances(model, positions);
    plan_chunks(&gd, cfg)
}

/// Paints chunk `chunk_index` of `manifest` for haplotypes in `store` whose
/// sites lie at physical `positions`, genetic distances from `model`.
pub fn paint_sites(
    store: &HaplotypeStore,
    positions: &Vec<u64>,
    model: &DistanceModel,
    manifest: &Vec<Chunk>,
    chunk_index: usize,
    theta: u64,
    rho: u64,
) -> (r: Result<Vec<PairPainting>, PaintError>)
    requires
        store.wf(),
        model.wf(),
        positions@.len() == store.spec_n_sites(),
    ensures
        r == Err::<Vec<PairPainting>, PaintError>(PaintError::InvalidChunkIndex) <==> !chunk_addressable(
            manifest@,
            chunk_index as int,
            store.spec_n_sites() as int,
        ),
        r == Err::<Vec<PairPainting>, PaintError>(PaintError::DegenerateParameters) <==> chunk_addressable(
            manifest@,
            chunk_index as int,
            store.spec_n_sites() as int,
        ) && theta == 0 && rho == 0,
        r is Ok ==> r->Ok_0@.map_values(|p: PairPainting| p@) == chunk_painting(
            store.rows_view(),
            site_distances_spec(*model, positions@),
            manifest@[chunk_index as int],
            theta,
            rho,
        ),
{
    let gd = site_distances(model, positions);
    paint(store, &gd, manifest, chunk_index, theta, rho)
}

} // verus!
