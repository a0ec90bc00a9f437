use relatepy::genetic_map::DistanceModel;
use relatepy::paint::PaintError;
use relatepy::pipeline::{
    distance_map_arg, is_unspecified, make_chunks, paint_sites, painting_parameters,
    suppress_transitions,
};
use relatepy::planner::PlanError;
use relatepy::store::HaplotypeStore;

#[test]
fn missing_distance_map_becomes_sentinel() {
    assert_eq!(distance_map_arg(None), "unspecified");
    assert_eq!(distance_map_arg(Some("chr1.dist".to_string())), "chr1.dist");
}

#[test]
fn sentinel_is_recognised() {
    assert!(is_unspecified(&"unspecified".to_string()));
    assert!(!is_unspecified(&"chr1.dist".to_string()));
    assert!(!is_unspecified(&String::new()));
}

#[test]
fn transition_flag_is_negated_once() {
    assert!(!suppress_transitions(true));
    assert!(suppress_transitions(false));
}

#[test]
fn parameters_are_ordered_theta_then_rho() {
    assert_eq!(painting_parameters(3, 7), vec![3, 7]);
    assert_eq!(painting_parameters(7, 3), vec![7, 3]);
}

#[test]
fn make_chunks_reports_infeasible_budget() {
    let positions: Vec<u64> = (0..10).collect();
    let r = make_chunks(&positions, &DistanceModel::Uniform(1), 4, 7, 100, true);
    assert_eq!(r, Err(PlanError::InfeasibleBudget));
    let r = make_chunks(&positions, &DistanceModel::Uniform(1), 4, 7, 100, false);
    assert!(r.is_ok());
    let r = make_chunks(&positions, &DistanceModel::Uniform(1), 4, 3, 100, false);
    assert_eq!(r, Err(PlanError::InfeasibleBudget));
    let r = make_chunks(&positions, &DistanceModel::Uniform(1), 4, 8, 100, true);
    assert!(r.is_ok());
}

#[test]
fn plan_then_paint_every_chunk() {
    let rows: Vec<Vec<u8>> = (0..4u32)
        .map(|h| (0..30u32).map(|i| ((i / (h + 2)) % 2) as u8).collect())
        .collect();
    let store = HaplotypeStore::new(rows, 4, 30).unwrap();
    let positions: Vec<u64> = (0..30).map(|i| 1000 + i * 100).collect();
    let model = DistanceModel::Uniform(2);
    let manifest = make_chunks(&positions, &model, 4, 48, u64::MAX, true).unwrap();
    assert_eq!(manifest.len(), 3);
    for idx in 0..manifest.len() {
        let out = paint_sites(&store, &positions, &model, &manifest, idx, 100, 50).unwrap();
        assert_eq!(out.len(), 6);
        for p in &out {
            assert_eq!(p.segments[0].start, manifest[idx].start);
            assert!(p.segments.iter().all(|s| s.start < manifest[idx].end));
        }
    }
    assert!(matches!(
        paint_sites(&store, &positions, &model, &manifest, 3, 100, 50),
        Err(PaintError::InvalidChunkIndex)
    ));
}
