use relatepy::paint::{paint, paint_pair, HiddenState, PaintError, PairPainting, Segment};
use relatepy::planner::Chunk;
use relatepy::store::HaplotypeStore;

fn chunk(start: usize, end: usize) -> Chunk {
    Chunk { start, end, suppress_transitions: true }
}

fn store(rows: Vec<Vec<u8>>) -> HaplotypeStore {
    let n_haps = rows.len();
    let n_sites = rows[0].len();
    HaplotypeStore::new(rows, n_haps, n_sites).unwrap()
}

fn seg(start: usize, state: HiddenState) -> Segment {
    Segment { start, state }
}

fn flatten(p: &[PairPainting]) -> Vec<(usize, usize, Vec<Segment>)> {
    p.iter().map(|q| (q.first, q.second, q.segments.clone())).collect()
}

fn assert_valid(segments: &[Segment], start: usize, end: usize) {
    assert!(!segments.is_empty());
    assert_eq!(segments[0].start, start);
    for s in segments {
        assert!(start <= s.start && s.start < end);
    }
    for w in segments.windows(2) {
        assert!(w[0].start < w[1].start);
        assert_ne!(w[0].state, w[1].state);
    }
}

#[test]
fn pair_with_divergent_block_is_painted_in_three_segments() {
    let x = vec![0u8; 20];
    let mut y = vec![0u8; 20];
    for i in 5..15 {
        y[i] = 1;
    }
    let gd: Vec<u64> = (0..20).collect();
    let segments = paint_pair(&x, &y, &gd, 1, 1_000_000, 100);
    assert_eq!(
        segments,
        vec![
            seg(100, HiddenState::Shared),
            seg(105, HiddenState::Distinct),
            seg(115, HiddenState::Shared),
        ]
    );
}

#[test]
fn identical_pair_is_one_shared_segment() {
    let x = vec![0u8, 1, 1, 0, 1, 0, 0, 1];
    let gd: Vec<u64> = (0..8).map(|i| i * 10).collect();
    let segments = paint_pair(&x, &x.clone(), &gd, 3, 500, 7);
    assert_eq!(segments, vec![seg(7, HiddenState::Shared)]);
}

#[test]
fn missing_alleles_cost_nothing() {
    let x = vec![0u8, 2, 2, 1];
    let y = vec![0u8, 1, 0, 1];
    let gd: Vec<u64> = vec![0, 1, 2, 3];
    let segments = paint_pair(&x, &y, &gd, 1, 1_000_000, 0);
    assert_eq!(segments, vec![seg(0, HiddenState::Shared)]);
}

#[test]
fn no_recombination_gives_single_segment() {
    let rows = vec![vec![0u8, 1, 0, 1, 0, 1, 0, 1, 0, 1], vec![0u8; 10]];
    let s = store(rows);
    let gd: Vec<u64> = (0..10).map(|i| i * 100).collect();
    let manifest = vec![chunk(0, 10)];
    let out = paint(&s, &gd, &manifest, 0, 5, 0).unwrap();
    assert_eq!(out.len(), 1);
    assert_eq!((out[0].first, out[0].second), (0, 1));
    assert_eq!(out[0].segments, vec![seg(0, HiddenState::Distinct)]);

    let same = store(vec![vec![1u8; 10], vec![1u8; 10]]);
    let out = paint(&same, &gd, &manifest, 0, 5, 0).unwrap();
    assert_eq!(out[0].segments, vec![seg(0, HiddenState::Shared)]);
}

#[test]
fn zero_theta_with_mismatches_still_paints() {
    let rows = vec![vec![0u8, 0, 1, 1, 0, 0, 0, 1, 0, 0], vec![0u8; 10]];
    let s = store(rows);
    let gd: Vec<u64> = (0..10).collect();
    let manifest = vec![chunk(0, 10)];
    let out = paint(&s, &gd, &manifest, 0, 0, 1000).unwrap();
    assert_eq!(out.len(), 1);
    assert_valid(&out[0].segments, 0, 10);
    assert!(out[0].segments.iter().any(|g| g.state == HiddenState::Distinct));
}

#[test]
fn degenerate_parameters_are_refused() {
    let s = store(vec![vec![0u8; 4], vec![1u8; 4]]);
    let gd: Vec<u64> = (0..4).collect();
    let manifest = vec![chunk(0, 4)];
    assert!(matches!(paint(&s, &gd, &manifest, 0, 0, 0), Err(PaintError::DegenerateParameters)));
}

#[test]
fn unknown_chunk_index_is_refused() {
    let s = store(vec![vec![0u8; 4], vec![1u8; 4]]);
    let gd: Vec<u64> = (0..4).collect();
    let manifest = vec![chunk(0, 2), chunk(2, 4)];
    assert!(matches!(paint(&s, &gd, &manifest, 2, 1, 1), Err(PaintError::InvalidChunkIndex)));
    let stale = vec![chunk(0, 6)];
    assert!(matches!(paint(&s, &gd, &stale, 0, 1, 1), Err(PaintError::InvalidChunkIndex)));
    let empty = vec![chunk(2, 2)];
    assert!(matches!(paint(&s, &gd, &empty, 0, 0, 0), Err(PaintError::InvalidChunkIndex)));
}

#[test]
fn pairs_come_in_lexicographic_order_within_the_chunk() {
    let s = store(vec![
        vec![0u8, 1, 0, 1, 1, 0],
        vec![0u8, 1, 1, 1, 0, 0],
        vec![1u8, 1, 0, 0, 1, 1],
    ]);
    let gd: Vec<u64> = (0..6).map(|i| i * 50).collect();
    let manifest = vec![chunk(0, 3), chunk(3, 6)];
    let out = paint(&s, &gd, &manifest, 1, 2, 3).unwrap();
    let pairs: Vec<(usize, usize)> = out.iter().map(|p| (p.first, p.second)).collect();
    assert_eq!(pairs, vec![(0, 1), (0, 2), (1, 2)]);
    for p in &out {
        assert_valid(&p.segments, 3, 6);
    }
}

#[test]
fn painting_is_deterministic() {
    let rows: Vec<Vec<u8>> = (0..5u8)
        .map(|h| (0..40u32).map(|i| (((i * 7 + h as u32 * 3) % 5) % 2) as u8).collect())
        .collect();
    let s = store(rows);
    let gd: Vec<u64> = (0..40).map(|i| i * 13).collect();
    let manifest = vec![chunk(0, 25), chunk(25, 40)];
    for idx in 0..2 {
        let a = paint(&s, &gd, &manifest, idx, 200, 40).unwrap();
        let b = paint(&s, &gd, &manifest, idx, 200, 40).unwrap();
        assert_eq!(flatten(&a), flatten(&b));
        assert_eq!(a.len(), 10);
        for p in &a {
            assert_valid(&p.segments, manifest[idx].start, manifest[idx].end);
        }
    }
}

#[test]
fn no_state_change_across_zero_genetic_gap() {
    let x = vec![0u8, 0, 0, 1, 1];
    let y = vec![0u8, 0, 0, 0, 0];
    let gd = vec![5u64, 5, 5, 5, 5];
    let segments = paint_pair(&x, &y, &gd, 1, 1_000_000, 0);
    assert_eq!(segments, vec![seg(0, HiddenState::Distinct)]);
    let spread = vec![0u64, 1, 2, 3, 4];
    let segments = paint_pair(&x, &y, &spread, 1, 1_000_000, 0);
    assert_eq!(segments, vec![seg(0, HiddenState::Shared), seg(3, HiddenState::Distinct)]);
}
