//! Genetic Map Index: physical position to genetic distance.
use vstd::prelude::*;
use vstd::arithmetic::div_mod::{lemma_div_is_ordered, lemma_div_by_multiple, lemma_div_pos_is_pos};
use vstd::arithmetic::mul::lemma_mul_inequality;

verus! {

/// Errors raised while building a genetic map.
#[derive(Debug, Clone, Copy, PartialEq, Eq, Structural)]
pub enum MapError {
    /// The anchor list is empty, its two columns differ in length, positions
    /// are not strictly increasing or distances decrease.
    MalformedMap,
}

/// Anchors are usable: at least one, positions strictly increasing,
/// distances non-decreasing.
pub open spec fn anchors_valid(pos: Seq<u64>, dist: Seq<u64>) -> bool {
    &&& pos.len() == dist.len()
    &&& pos.len() >= 1
    &&& forall|i: int, j: int| 0 <= i < j < pos.len() ==> pos[i] < pos[j]
    &&& forall|i: int, j: int| 0 <= i < j < dist.len() ==> dist[i] <= dist[j]
}

/// Anchor `i` and its successor bracket position `p`.
pub open spec fn brackets(pos: Seq<u64>, i: int, p: int) -> bool {
    0 <= i && i + 1 < pos.len() && pos[i] <= p < pos[i + 1]
}

/// Linear interpolation (rounded down) on the segment from anchor `i` to `i + 1`.
pub open spec fn segment_value(pos: Seq<u64>, dist: Seq<u64>, i: int, p: int) -> int {
    dist[i] + (dist[i + 1] - dist[i]) * (p - pos[i]) / (pos[i + 1] - pos[i])
}

/// Genetic distance at `p`: interpolated between the bracketing anchors,
/// flat beyond the first and last anchor.
pub open spec fn map_distance(pos: Seq<u64>, dist: Seq<u64>, p: int) -> int {
    if p <= pos[0] {
        dist[0] as int
    } else if p >= pos.last() {
        dist.last() as int
    } else {
        segment_value(pos, dist, choose|i: int| brackets(pos, i, p), p)
    }
}

/// A genetic map given by its anchor points.
pub struct GeneticMap {
    positions: Vec<u64>,
    distances: Vec<u64>,
}

/// How genetic distance is obtained for a site.
pub enum DistanceModel {
    /// Interpolation over an anchor map.
    Anchors(GeneticMap),
    /// No map supplied: a fixed number of map units per base pair.
    Uniform(u64),
}

/// The largest genetic distance that can be represented.
pub const MAX_DISTANCE: u64 = 18446744073709551615;

/// Distance under a uniform rate, saturated at the largest representable value.
pub open spec fn uniform_distance(rate: u64, p: int) -> int {
    if p * rate > MAX_DISTANCE { MAX_DISTANCE as int } else { p * rate }
}

impl GeneticMap {
    pub closed spec fn positions_view(&self) -> Seq<u64> {
        self.positions@
    }

    pub closed spec fn distances_view(&self) -> Seq<u64> {
        self.distances@
    }

    pub open spec fn wf(&self) -> bool {
        anchors_valid(self.positions_view(), self.distances_view())
    }

    /// Genetic distance at `p` under this map.
    pub open spec fn spec_distance(&self, p: int) -> int {
        map_distance(self.positions_view(), self.distances_view(), p)
    }

    /// Builds the map from anchor columns; fails with `MalformedMap` unless
    /// they are valid anchors.
    pub fn new(positions: Vec<u64>, distances: Vec<u64>) -> (r: Result<GeneticMap, MapError>)
        ensures
            anchors_valid(positions@, distances@) <==> r is Ok,
            r is Ok ==> r->Ok_0.positions_view() == positions@ && r->Ok_0.distances_view()
                == distances@,
            r is Err ==> r->Err_0 == MapError::MalformedMap,
    {
        if positions.len() != distances.len() || positions.len() == 0 {
            return Err(MapError::MalformedMap);
        }
        let mut i: usize = 1;
        while i < positions.len()
            invariant
                1 <= i <= positions.len(),
                positions.len() == distances.len(),
                forall|a: int, b: int| 0 <= a < b < i ==> positions@[a] < positions@[b],
                forall|a: int, b: int| 0 <= a < b < i ==> distances@[a] <= distances@[b],
            decreases positions.len() - i,
        {
            if positions[i - 1] >= positions[i] || distances[i - 1] > distances[i] {
                return Err(MapError::MalformedMap);
            }
            i += 1;
        }
        Ok(GeneticMap { positions, distances })
    }

    /// Number of anchors.
    pub fn len(&self) -> (r: usize)
        ensures
            r == self.positions_view().len(),
    {
        self.positions.len()
    }

    /// Genetic distance at physical position `p`: binary search for the
    /// bracketing anchors, then linear interpolation.
    pub fn distance_at(&self, p: u64) -> (r: u64)
        requires
            self.wf(),
        ensures
            r == self.spec_distance(p as int),
    {
        let n = self.positions.len();
        if p <= self.positions[0] {
            return self.distances[0];
        }
        if p >= self.positions[n - 1] {
            return self.distances[n - 1];
        }
        let mut lo: usize = 0;
        let mut hi: usize = n - 1;
        while lo + 1 < hi
            invariant
                self.wf(),
                n == self.positions@.len(),
                0 <= lo < hi < n,
                self.positions@[lo as int] <= p < self.positions@[hi as int],
            decreases hi - lo,
        {
            let mid = lo + (hi - lo) / 2;
            if self.positions[mid] <= p {
                lo = mid;
            } else {
                hi = mid;
            }
        }
        let ghost pos = self.positions_view();
        let ghost dist = self.distances_view();
        proof {
            assert(brackets(pos, lo as int, p as int));
            lemma_bracket_unique(pos, dist, lo as int, p as int);
            lemma_segment_bounds(pos, dist, lo as int, p as int);
        }
        let a = self.positions[lo];
        let w = self.positions[lo + 1] - a;
        let d0 = self.distances[lo];
        let h = self.distances[lo + 1] - d0;
        let x = p - a;
        proof {
            assert(h as int * x as int <= h as int * w as int) by {
                lemma_mul_inequality(x as int, w as int, h as int);
            }
            assert(h as int * w as int <= 0xffff_ffff_ffff_ffffu64 as int * 0xffff_ffff_ffff_ffffu64 as int)
                by (nonlinear_arith)
                requires
                    h <= 0xffff_ffff_ffff_ffffu64, w <= 0xffff_ffff_ffff_ffffu64;
        }
        let q = (h as u128 * x as u128) / (w as u128);
        (d0 as u128 + q) as u64
    }
}

impl DistanceModel {
    pub open spec fn wf(&self) -> bool {
        match self {
            DistanceModel::Anchors(m) => m.wf(),
            DistanceModel::Uniform(_) => true,
        }
    }

    /// Genetic distance at `p` under this model.
    pub open spec fn spec_distance(&self, p: int) -> int {
        match self {
            DistanceModel::Anchors(m) => m.spec_distance(p),
            DistanceModel::Uniform(rate) => uniform_distance(*rate, p),
        }
    }

    /// Genetic distance at physical position `p`.
    pub fn distance_at(&self, p: u64) -> (r: u64)
        requires
            self.wf(),
        ensures
            r == self.spec_distance(p as int),
    {
        match self {
            DistanceModel::Anchors(m) => m.distance_at(p),
            DistanceModel::Uniform(rate) => {
                proof {
                    assert(p as int * *rate as int <= 0xffff_ffff_ffff_ffffu64 as int * 0xffff_ffff_ffff_ffffu64 as int)
                        by (nonlinear_arith)
                        requires
                            p <= 0xffff_ffff_ffff_ffffu64, *rate <= 0xffff_ffff_ffff_ffffu64;
                }
                let prod = p as u128 * *rate as u128;
                if prod > MAX_DISTANCE as u128 {
                    MAX_DISTANCE
                } else {
                    prod as u64
                }
            }
        }
    }
}

/// Only one anchor segment brackets a position, so the chosen one is `i`.
pub(crate) proof fn lemma_bracket_unique(pos: Seq<u64>, dist: Seq<u64>, i: int, p: int)
    requires
        anchors_valid(pos, dist),
        brackets(pos, i, p),
    ensures
        (choose|j: int| brackets(pos, j, p)) == i,
{
    let j = choose|j: int| brackets(pos, j, p);
    assert(brackets(pos, j, p));
    if j < i {
        assert(pos[j + 1] <= pos[i]);
    } else if i < j {
        assert(pos[i + 1] <= pos[j]);
    }
}

/// Interpolated values stay between the segment's end values.
proof fn lemma_segment_bounds(pos: Seq<u64>, dist: Seq<u64>, i: int, p: int)
    requires
        anchors_valid(pos, dist),
        0 <= i,
        i + 1 < pos.len(),
        pos[i] <= p <= pos[i + 1],
    ensures
        dist[i] <= segment_value(pos, dist, i, p) <= dist[i + 1],
{
    let h = dist[i + 1] - dist[i];
    let w = pos[i + 1] - pos[i];
    let x = p - pos[i];
    assert(h >= 0 && w > 0 && 0 <= x <= w);
    lemma_mul_inequality(x, w, h);
    assert(x * h == h * x) by (nonlinear_arith);
    assert(w * h == h * w) by (nonlinear_arith);
    lemma_div_is_ordered(h * x, h * w, w);
    lemma_div_by_multiple(h, w);
    assert(h * x >= 0) by (nonlinear_arith)
        requires
            h >= 0,
            x >= 0,
    ;
    lemma_div_pos_is_pos(h * x, w);
}

/// Interpolation within one segment is monotone.
proof fn lemma_segment_monotone(pos: Seq<u64>, dist: Seq<u64>, i: int, pa: int, pb: int)
    requires
        anchors_valid(pos, dist),
        0 <= i,
        i + 1 < pos.len(),
        pos[i] <= pa <= pb <= pos[i + 1],
    ensures
        segment_value(pos, dist, i, pa) <= segment_value(pos, dist, i, pb),
{
    let h = dist[i + 1] - dist[i];
    let w = pos[i + 1] - pos[i];
    lemma_mul_inequality(pa - pos[i], pb - pos[i], h);
    assert((pa - pos[i]) * h == h * (pa - pos[i])) by (nonlinear_arith);
    assert((pb - pos[i]) * h == h * (pb - pos[i])) by (nonlinear_arith);
    lemma_div_is_ordered(h * (pa - pos[i]), h * (pb - pos[i]), w);
}

/// Some anchor segment brackets every position strictly inside the map.
proof fn lemma_bracket_exists(pos: Seq<u64>, dist: Seq<u64>, k: int, p: int)
    requires
        anchors_valid(pos, dist),
        1 <= k < pos.len(),
        pos[0] <= p < pos[k],
    ensures
        exists|i: int| brackets(pos, i, p),
    decreases k,
{
    if k == 1 {
        assert(brackets(pos, 0, p));
    } else if p < pos[k - 1] {
        lemma_bracket_exists(pos, dist, k - 1, p);
    } else {
        assert(brackets(pos, k - 1, p));
    }
}

/// The value at a position inside the map lies between the first and last distance,
/// and between the end values of its bracketing segment.
proof fn lemma_inner_value(pos: Seq<u64>, dist: Seq<u64>, p: int) -> (i: int)
    requires
        anchors_valid(pos, dist),
        pos[0] < p < pos.last(),
    ensures
        brackets(pos, i, p),
        map_distance(pos, dist, p) == segment_value(pos, dist, i, p),
        dist[i] <= map_distance(pos, dist, p) <= dist[i + 1],
{
    lemma_bracket_exists(pos, dist, pos.len() - 1, p);
    let i = choose|j: int| brackets(pos, j, p);
    lemma_segment_bounds(pos, dist, i, p);
    i
}

/// Interpolation is monotone: a larger position never has a smaller genetic distance.
pub proof fn lemma_map_distance_monotone(pos: Seq<u64>, dist: Seq<u64>, pa: int, pb: int)
    requires
        anchors_valid(pos, dist),
        pa < pb,
    ensures
        map_distance(pos, dist, pa) <= map_distance(pos, dist, pb),
{
    let n = pos.len();
    if pa <= pos[0] {
        if pos[0] < pb < pos.last() {
            let j = lemma_inner_value(pos, dist, pb);
            assert(dist[0] <= dist[j]);
        } else if pb >= pos.last() && n > 1 {
            assert(dist[0] <= dist[n - 1]);
        }
    } else if pa >= pos.last() {
    } else {
        let i = lemma_inner_value(pos, dist, pa);
        if pb >= pos.last() {
            assert(dist[i + 1] <= dist[n - 1]);
        } else {
            let j = lemma_inner_value(pos, dist, pb);
            if i == j {
                lemma_segment_monotone(pos, dist, i, pa, pb);
            } else {
                assert(i < j) by {
                    if j < i {
                        assert(pos[j + 1] <= pos[i]);
                    }
                }
                assert(dist[i + 1] <= dist[j]);
            }
        }
    }
}

/// Distance under any well-formed model is monotone in position.
pub proof fn lemma_distance_monotone(model: DistanceModel, pa: int, pb: int)
    requires
        model.wf(),
        0 <= pa < pb,
    ensures
        model.spec_distance(pa) <= model.spec_distance(pb),
{
    match model {
        DistanceModel::Anchors(m) => {
            lemma_map_distance_monotone(m.positions_view(), m.distances_view(), pa, pb);
        },
        DistanceModel::Uniform(rate) => {
            assert(pa * rate <= pb * rate) by (nonlinear_arith)
                requires
                    0 <= pa < pb,
                    rate >= 0,
            ;
        },
    }
}

/// A two-anchor map from (0, 0) to (`len`, `len * rate`) gives every position up
/// to `len` the distance that the uniform `rate` gives it.
pub proof fn lemma_two_anchor_map_is_uniform(m: GeneticMap, rate: u64, len: u64, p: int)
    requires
        m.positions_view() == seq![0u64, len],
        m.distances_view() == seq![0u64, (len * rate) as u64],
        len > 0,
        len * rate <= MAX_DISTANCE,
        0 <= p <= len,
    ensures
        m.wf(),
        m.spec_distance(p) == DistanceModel::Uniform(rate).spec_distance(p),
{
    let pos = m.positions_view();
    let dist = m.distances_view();
    assert(p * rate <= len * rate) by (nonlinear_arith)
        requires
            0 <= p <= len,
            rate >= 0,
    ;
    assert(anchors_valid(pos, dist));
    assert(rate * p == p * rate) by (nonlinear_arith);
    if 0 < p < len {
        assert(brackets(pos, 0, p));
        lemma_bracket_unique(pos, dist, 0, p);
        assert((len * rate) * p == (rate * p) * len) by (nonlinear_arith);
        lemma_div_by_multiple(rate * p, len as int);
        assert(segment_value(pos, dist, 0, p) == rate * p);
    } else if p == 0 {
        assert(p * rate == 0);
    } else {
        assert(p == len);
        assert(dist.last() == len * rate);
    }
}

} // verus!
