use relatepy::genetic_map::{DistanceModel, GeneticMap};
use relatepy::pipeline::make_chunks;
use relatepy::planner::{plan_chunks, site_distances, Chunk, PlanConfig, PlanError};

fn cfg(n_haps: usize, memory_budget: u64, max_span: u64, suppress_transitions: bool) -> PlanConfig {
    PlanConfig { n_haps, memory_budget, max_span, suppress_transitions }
}

fn ranges(chunks: &[Chunk]) -> Vec<(usize, usize)> {
    chunks.iter().map(|c| (c.start, c.end)).collect()
}

fn assert_contiguous(chunks: &[Chunk], n: usize) {
    if n == 0 {
        assert!(chunks.is_empty());
        return;
    }
    assert_eq!(chunks[0].start, 0);
    assert_eq!(chunks[chunks.len() - 1].end, n);
    for c in chunks {
        assert!(c.start < c.end);
    }
    for w in chunks.windows(2) {
        assert_eq!(w[0].end, w[1].start);
    }
}

#[test]
fn plan_splits_on_memory_without_transitions() {
    let gd: Vec<u64> = (0..10).collect();
    let chunks = plan_chunks(&gd, cfg(2, 8, u64::MAX, true)).unwrap();
    assert_eq!(ranges(&chunks), vec![(0, 4), (4, 8), (8, 10)]);
    assert!(chunks.iter().all(|c| c.suppress_transitions));
}

#[test]
fn plan_reserves_phase_state_with_transitions() {
    let gd: Vec<u64> = (0..10).collect();
    let chunks = plan_chunks(&gd, cfg(2, 8, u64::MAX, false)).unwrap();
    assert_eq!(ranges(&chunks), vec![(0, 3), (3, 6), (6, 9), (9, 10)]);
    assert!(chunks.iter().all(|c| !c.suppress_transitions));
}

#[test]
fn plan_splits_on_genetic_span() {
    let gd = vec![0, 5, 10, 20, 21, 22];
    let chunks = plan_chunks(&gd, cfg(4, u64::MAX, 10, true)).unwrap();
    assert_eq!(ranges(&chunks), vec![(0, 3), (3, 6)]);
}

#[test]
fn plan_infeasible_budget_below_one_site() {
    let gd: Vec<u64> = (0..5).collect();
    assert_eq!(plan_chunks(&gd, cfg(10, 9, 100, true)), Err(PlanError::InfeasibleBudget));
    assert_eq!(plan_chunks(&gd, cfg(10, 19, 100, false)), Err(PlanError::InfeasibleBudget));
    assert_eq!(plan_chunks(&vec![], cfg(10, 9, 100, true)), Err(PlanError::InfeasibleBudget));
}

#[test]
fn plan_feasible_at_exactly_one_site() {
    let gd: Vec<u64> = (0..5).collect();
    let chunks = plan_chunks(&gd, cfg(10, 10, 100, true)).unwrap();
    assert_eq!(ranges(&chunks), vec![(0, 1), (1, 2), (2, 3), (3, 4), (4, 5)]);
    let chunks = plan_chunks(&gd, cfg(10, 20, 100, false)).unwrap();
    assert_eq!(chunks.len(), 5);
}

#[test]
fn plan_empty_chromosome_has_no_chunks() {
    let chunks = plan_chunks(&vec![], cfg(3, 100, 100, true)).unwrap();
    assert!(chunks.is_empty());
}

#[test]
fn plan_whole_chromosome_in_one_chunk() {
    let gd: Vec<u64> = (0..1000).map(|i| i * 3).collect();
    let chunks = plan_chunks(&gd, cfg(50, 50 * 1000 + 50, u64::MAX, false)).unwrap();
    assert_eq!(ranges(&chunks), vec![(0, 1000)]);
}

#[test]
fn plan_manifests_are_contiguous() {
    let gd: Vec<u64> = (0..200u64).map(|i| (i * i) % 97 + i * 5).collect();
    for budget in [3u64, 7, 20, 64, 1000] {
        for span in [0u64, 10, 50, 1000] {
            for suppress in [true, false] {
                if let Ok(chunks) = plan_chunks(&gd, cfg(3, budget, span, suppress)) {
                    assert_contiguous(&chunks, gd.len());
                    for c in &chunks {
                        let fp = (c.end - c.start) as u64 * 3 + if suppress { 0 } else { 3 };
                        assert!(fp <= budget);
                    }
                } else {
                    assert!(budget < 3 + if suppress { 0 } else { 3 });
                }
            }
        }
    }
}

#[test]
fn make_chunks_is_reproducible() {
    let positions: Vec<u64> = (0..300u64).map(|i| i * 17).collect();
    let model = DistanceModel::Uniform(3);
    let a = make_chunks(&positions, &model, 4, 64, 500, true).unwrap();
    let b = make_chunks(&positions, &model, 4, 64, 500, true).unwrap();
    assert_eq!(a, b);
    assert_contiguous(&a, positions.len());
}

#[test]
fn make_chunks_negates_the_transition_flag() {
    let positions: Vec<u64> = (0..10).collect();
    let model = DistanceModel::Uniform(1);
    let enabled = make_chunks(&positions, &model, 2, 8, u64::MAX, true).unwrap();
    assert_eq!(ranges(&enabled), vec![(0, 3), (3, 6), (6, 9), (9, 10)]);
    assert!(enabled.iter().all(|c| !c.suppress_transitions));
    let disabled = make_chunks(&positions, &model, 2, 8, u64::MAX, false).unwrap();
    assert_eq!(ranges(&disabled), vec![(0, 4), (4, 8), (8, 10)]);
    assert!(disabled.iter().all(|c| c.suppress_transitions));
}

#[test]
fn sentinel_rate_matches_explicit_map() {
    let rate = 7u64;
    let len = 10_000u64;
    let positions: Vec<u64> = (0..400u64).map(|i| i * 25).collect();
    let uniform = DistanceModel::Uniform(rate);
    let explicit = DistanceModel::Anchors(GeneticMap::new(vec![0, len], vec![0, len * rate]).unwrap());
    assert_eq!(site_distances(&uniform, &positions), site_distances(&explicit, &positions));
    let a = make_chunks(&positions, &uniform, 5, 200, 3000, true).unwrap();
    let b = make_chunks(&positions, &explicit, 5, 200, 3000, true).unwrap();
    assert_eq!(a, b);
    assert!(a.len() > 1);
}
