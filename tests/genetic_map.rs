use relatepy::genetic_map::{DistanceModel, GeneticMap, MapError};

fn sample_map() -> GeneticMap {
    GeneticMap::new(vec![100, 200, 400, 500], vec![0, 1000, 1000, 3000]).unwrap()
}

#[test]
fn map_rejects_unordered_positions() {
    let r = GeneticMap::new(vec![10, 10, 20], vec![0, 1, 2]);
    assert!(matches!(r, Err(MapError::MalformedMap)));
    let r = GeneticMap::new(vec![10, 30, 20], vec![0, 1, 2]);
    assert!(matches!(r, Err(MapError::MalformedMap)));
}

#[test]
fn map_rejects_empty_mismatched_or_decreasing() {
    assert!(matches!(GeneticMap::new(vec![], vec![]), Err(MapError::MalformedMap)));
    assert!(matches!(GeneticMap::new(vec![1, 2], vec![0]), Err(MapError::MalformedMap)));
    assert!(matches!(GeneticMap::new(vec![1, 2], vec![5, 4]), Err(MapError::MalformedMap)));
}

#[test]
fn map_interpolates_between_anchors() {
    let m = sample_map();
    assert_eq!(m.len(), 4);
    assert_eq!(m.distance_at(100), 0);
    assert_eq!(m.distance_at(150), 500);
    assert_eq!(m.distance_at(199), 990);
    assert_eq!(m.distance_at(200), 1000);
    assert_eq!(m.distance_at(300), 1000);
    assert_eq!(m.distance_at(450), 2000);
    assert_eq!(m.distance_at(500), 3000);
}

#[test]
fn map_is_flat_beyond_its_range() {
    let m = sample_map();
    assert_eq!(m.distance_at(0), 0);
    assert_eq!(m.distance_at(50), 0);
    assert_eq!(m.distance_at(600), 3000);
    assert_eq!(m.distance_at(u64::MAX), 3000);
}

#[test]
fn map_single_anchor_is_constant() {
    let m = GeneticMap::new(vec![10], vec![7]).unwrap();
    assert_eq!(m.distance_at(0), 7);
    assert_eq!(m.distance_at(10), 7);
    assert_eq!(m.distance_at(99), 7);
}

#[test]
fn map_distance_is_monotone() {
    let m = DistanceModel::Anchors(sample_map());
    let mut prev = 0u64;
    for p in 0..700u64 {
        let d = m.distance_at(p);
        assert!(d >= prev, "distance fell at {}", p);
        prev = d;
    }
}

#[test]
fn uniform_model_scales_and_saturates() {
    let u = DistanceModel::Uniform(10);
    assert_eq!(u.distance_at(0), 0);
    assert_eq!(u.distance_at(7), 70);
    let big = DistanceModel::Uniform(2);
    assert_eq!(big.distance_at(u64::MAX), u64::MAX);
}
