//! Pairwise Painting Engine: a two-state hidden Markov model run over every
//! pair of haplotypes in a chunk, decoded by Viterbi in integer log-space.
use vstd::prelude::*;
use crate::store::{ALLELE_MISSING, HaplotypeStore};
use crate::planner::Chunk;

verus! {

/// Hidden state of a haplotype pair at a site.
#[derive(Debug, Clone, Copy, PartialEq, Eq, Structural)]
pub enum HiddenState {
    /// The pair is in a segment of shared ancestry.
    Shared,
    /// The pair's alleles are unrelated at this site.
    Distinct,
}

/// A painted segment: it starts at site `start` (a chromosome-wide site index)
/// and runs up to the next segment's start or the chunk's end.
#[derive(Debug, Clone, Copy, PartialEq, Eq, Structural)]
pub struct Segment {
    pub start: usize,
    pub state: HiddenState,
}

/// Costs are negative log-probabilities on an integer scale. A mismatch in the
/// shared state costs at most this (with theta = 0).
pub const MAX_EMISSION_COST: u64 = 4294967296;

/// Cost of a non-missing site in the distinct state, match or mismatch.
pub const DISTINCT_SITE_COST: u64 = 8;

/// Mismatch cost in the shared state is this scale divided by theta.
pub const MUTATION_SCALE: u64 = 16777216;

/// State-change cost is this scale divided by rho times the genetic gap.
pub const RECOMBINATION_SCALE: u64 = 16777216;

/// Cost of a mismatch in the shared state: falls as theta grows.
pub open spec fn mismatch_cost(theta: u64) -> int {
    if theta == 0 {
        MAX_EMISSION_COST as int
    } else {
        MUTATION_SCALE as int / theta as int
    }
}

/// Emission cost of alleles `a` and `b` in state `distinct` (else shared).
pub open spec fn emission(distinct: bool, a: u8, b: u8, theta: u64) -> int {
    if a == ALLELE_MISSING || b == ALLELE_MISSING {
        0
    } else if distinct {
        DISTINCT_SITE_COST as int
    } else if a == b {
        0
    } else {
        mismatch_cost(theta)
    }
}

/// A state change across a genetic gap is possible only when rho times the
/// gap is positive.
pub open spec fn can_switch(gap: int, rho: u64) -> bool {
    gap * rho > 0
}

/// Cost of changing state across a genetic gap: falls as rho times the gap grows.
pub open spec fn transition(gap: int, rho: u64) -> int {
    if can_switch(gap, rho) {
        RECOMBINATION_SCALE as int / (gap * rho)
    } else {
        0
    }
}

/// Path costs relative to the better of the two.
pub open spec fn normalize(a: int, b: int) -> (int, int) {
    let m = if a <= b { a } else { b };
    (a - m, b - m)
}

/// The best path into a state keeps that state (ties included) rather than
/// change, and always keeps it where no change is possible.
pub open spec fn keeps(own: int, other: int, switchable: bool, t: int) -> bool {
    !switchable || own <= other + t
}

/// Cost of the best path into a state from the previous costs.
pub open spec fn arrive(own: int, other: int, switchable: bool, t: int) -> int {
    if keeps(own, other, switchable, t) { own } else { other + t }
}

/// One haplotype pair over a chunk: alleles, genetic distance of each site and
/// the model's rates.
pub struct PairData {
    pub x: Seq<u8>,
    pub y: Seq<u8>,
    pub gd: Seq<u64>,
    pub theta: u64,
    pub rho: u64,
}

impl PairData {
    pub open spec fn len(&self) -> int {
        self.x.len() as int
    }

    pub open spec fn wf(&self) -> bool {
        &&& self.x.len() > 0
        &&& self.y.len() == self.x.len()
        &&& self.gd.len() == self.x.len()
    }

    pub open spec fn emit(&self, distinct: bool, i: int) -> int {
        emission(distinct, self.x[i], self.y[i], self.theta)
    }

    /// A state change between site `i - 1` and site `i` is possible.
    pub open spec fn switchable(&self, i: int) -> bool {
        can_switch(self.gd[i] - self.gd[i - 1], self.rho)
    }

    /// State-change cost between site `i - 1` and site `i`.
    pub open spec fn trans(&self, i: int) -> int {
        transition(self.gd[i] - self.gd[i - 1], self.rho)
    }

    /// Costs (shared, distinct) of the cheapest paths over sites `0..=i` that
    /// end in each state.
    pub open spec fn best(&self, i: int) -> (int, int)
        decreases i,
    {
        if i <= 0 {
            (self.emit(false, 0), self.emit(true, 0))
        } else {
            let p = self.best(i - 1);
            let (s, t) = (self.switchable(i), self.trans(i));
            (
                arrive(p.0, p.1, s, t) + self.emit(false, i),
                arrive(p.1, p.0, s, t) + self.emit(true, i),
            )
        }
    }

    /// The Viterbi recursion on costs kept relative to the better state.
    pub open spec fn forward(&self, i: int) -> (int, int)
        decreases i,
    {
        if i <= 0 {
            normalize(self.emit(false, 0), self.emit(true, 0))
        } else {
            let p = self.forward(i - 1);
            let (s, t) = (self.switchable(i), self.trans(i));
            normalize(
                arrive(p.0, p.1, s, t) + self.emit(false, i),
                arrive(p.1, p.0, s, t) + self.emit(true, i),
            )
        }
    }

    /// The best path's state at the last site: distinct only when strictly cheaper.
    pub open spec fn last_state(&self) -> bool {
        let c = self.forward(self.len() - 1);
        c.1 < c.0
    }

    /// The best path's state at site `i`, traced back from the last site.
    pub open spec fn state_at(&self, i: int) -> bool
        decreases self.len() - i,
    {
        if i >= self.len() - 1 {
            self.last_state()
        } else {
            let next = self.state_at(i + 1);
            let p = self.forward(i);
            let (s, t) = (self.switchable(i + 1), self.trans(i + 1));
            let kept = if next { keeps(p.1, p.0, s, t) } else { keeps(p.0, p.1, s, t) };
            if kept { next } else { !next }
        }
    }

    /// The decoded path, one state per site (`true` is distinct).
    pub open spec fn path(&self) -> Seq<bool> {
        Seq::new(self.len() as nat, |i: int| self.state_at(i))
    }

    /// A state path over the pair's sites that changes state only where possible.
    pub open spec fn allowed(&self, q: Seq<bool>) -> bool {
        &&& q.len() == self.len()
        &&& forall|i: int| 1 <= i < q.len() && q[i] != q[i - 1] ==> #[trigger] self.switchable(i)
    }

    /// Cost of the first `k` sites of path `q`: emissions plus state changes.
    pub open spec fn prefix_cost(&self, q: Seq<bool>, k: int) -> int
        decreases k,
    {
        if k <= 0 {
            0
        } else if k == 1 {
            self.emit(q[0], 0)
        } else {
            self.prefix_cost(q, k - 1) + (if q[k - 1] != q[k - 2] {
                self.trans(k - 1)
            } else {
                0
            }) + self.emit(q[k - 1], k - 1)
        }
    }

    /// Total cost of path `q`.
    pub open spec fn path_cost(&self, q: Seq<bool>) -> int {
        self.prefix_cost(q, self.len())
    }
}

/// The cost in pair `c` of state `distinct` (else shared).
pub open spec fn pick(c: (int, int), distinct: bool) -> int {
    if distinct { c.1 } else { c.0 }
}

/// The hidden state that `distinct` encodes.
pub open spec fn state_of(distinct: bool) -> HiddenState {
    if distinct { HiddenState::Distinct } else { HiddenState::Shared }
}

proof fn lemma_emission_bounds(d: PairData, s: bool, i: int)
    ensures
        0 <= d.emit(s, i) <= MAX_EMISSION_COST,
{
    if d.theta > 0 {
        vstd::arithmetic::div_mod::lemma_div_is_ordered_by_denominator(
            MUTATION_SCALE as int,
            1,
            d.theta as int,
        );
        vstd::arithmetic::div_mod::lemma_div_pos_is_pos(MUTATION_SCALE as int, d.theta as int);
    }
}

proof fn lemma_transition_nonneg(d: PairData, i: int)
    ensures
        d.trans(i) >= 0,
{
    if d.switchable(i) {
        vstd::arithmetic::div_mod::lemma_div_pos_is_pos(
            RECOMBINATION_SCALE as int,
            (d.gd[i] - d.gd[i - 1]) * d.rho,
        );
    }
}

/// The relative costs are the cheapest-path costs less their minimum.
proof fn lemma_forward_is_shifted_best(d: PairData, i: int)
    requires
        i >= 0,
    ensures
        d.forward(i) == normalize(d.best(i).0, d.best(i).1),
    decreases i,
{
    if i > 0 {
        lemma_forward_is_shifted_best(d, i - 1);
    }
}

/// Relative costs are non-negative and grow by at most the largest emission per site.
proof fn lemma_forward_bounded(d: PairData, i: int)
    requires
        i >= 0,
    ensures
        0 <= d.forward(i).0 <= (i + 1) * MAX_EMISSION_COST,
        0 <= d.forward(i).1 <= (i + 1) * MAX_EMISSION_COST,
        d.forward(i).0 == 0 || d.forward(i).1 == 0,
    decreases i,
{
    lemma_emission_bounds(d, false, i);
    lemma_emission_bounds(d, true, i);
    if i > 0 {
        lemma_forward_bounded(d, i - 1);
        lemma_transition_nonneg(d, i);
    }
}

/// Every allowed path's prefix costs at least the cheapest cost of its end state.
proof fn lemma_prefix_at_least_best(d: PairData, q: Seq<bool>, i: int)
    requires
        d.wf(),
        d.allowed(q),
        0 <= i < d.len(),
    ensures
        d.prefix_cost(q, i + 1) >= pick(d.best(i), q[i]),
    decreases i,
{
    if i > 0 {
        lemma_prefix_at_least_best(d, q, i - 1);
        if q[i] != q[i - 1] {
            assert(d.switchable(i));
        }
    }
}

/// The decoded path changes state only where possible, and each of its
/// prefixes costs exactly the cheapest cost of its end state.
proof fn lemma_decoded_prefix_is_best(d: PairData, i: int)
    requires
        d.wf(),
        0 <= i < d.len(),
    ensures
        d.prefix_cost(d.path(), i + 1) == pick(d.best(i), d.path()[i]),
        1 <= i ==> (d.path()[i] != d.path()[i - 1] ==> d.switchable(i)),
    decreases i,
{
    let p = d.path();
    if i > 0 {
        lemma_decoded_prefix_is_best(d, i - 1);
        lemma_forward_is_shifted_best(d, i - 1);
        assert(p[i - 1] == d.state_at(i - 1));
        assert(p[i] == d.state_at(i));
    }
}

/// The decoded path is a Viterbi path: it changes state only where
/// recombination is possible, and no such path over the pair's sites costs less.
pub proof fn lemma_painting_is_optimal(d: PairData, q: Seq<bool>)
    requires
        d.wf(),
        d.allowed(q),
    ensures
        d.allowed(d.path()),
        d.path_cost(d.path()) <= d.path_cost(q),
{
    let n = d.len();
    let p = d.path();
    assert forall|i: int| 1 <= i < p.len() && p[i] != p[i - 1] implies #[trigger] d.switchable(i) by {
        lemma_decoded_prefix_is_best(d, i);
    }
    lemma_decoded_prefix_is_best(d, n - 1);
    lemma_prefix_at_least_best(d, q, n - 1);
    lemma_forward_is_shifted_best(d, n - 1);
    assert(p[n - 1] == d.last_state());
}

/// Segments of the first `k` states of a path whose first site is `offset`:
/// one wherever the state differs from the site before.
pub open spec fn segments_prefix(states: Seq<bool>, offset: int, k: int) -> Seq<Segment>
    decreases k,
{
    if k <= 0 {
        seq![]
    } else {
        let prev = segments_prefix(states, offset, k - 1);
        if k == 1 || states[k - 1] != states[k - 2] {
            prev.push(Segment { start: (offset + k - 1) as usize, state: state_of(states[k - 1]) })
        } else {
            prev
        }
    }
}

/// The painting of one pair whose first site is `offset`.
pub open spec fn pair_segments(d: PairData, offset: int) -> Seq<Segment> {
    segments_prefix(d.path(), offset, d.len())
}

/// Segments start at `lo`, stay below `hi` and strictly increase.
pub open spec fn segments_valid(s: Seq<Segment>, lo: int, hi: int) -> bool {
    &&& s.len() > 0
    &&& s[0].start == lo
    &&& forall|k: int| 0 <= k < s.len() ==> lo <= #[trigger] s[k].start < hi
    &&& forall|j: int, k: int| 0 <= j < k < s.len() ==> s[j].start < s[k].start
}
proof fn lemma_segments_prefix(states: Seq<bool>, offset: int, k: int)
    requires
        0 < k <= states.len(),
        0 <= offset,
        offset + k <= usize::MAX,
    ensures
        segments_valid(segments_prefix(states, offset, k), offset, offset + k),
        segments_prefix(states, offset, k).last().state == state_of(states[k - 1]),
    decreases k,
{
    let cur = segments_prefix(states, offset, k);
    let prev = segments_prefix(states, offset, k - 1);
    let seg = Segment { start: (offset + k - 1) as usize, state: state_of(states[k - 1]) };
    if k == 1 {
        assert(prev == Seq::<Segment>::empty());
        assert(cur == prev.push(seg));
        assert(cur[0] == seg);
    } else {
        lemma_segments_prefix(states, offset, k - 1);
        if states[k - 1] != states[k - 2] {
            assert(cur == prev.push(seg));
            assert forall|j: int, i: int| 0 <= j < i < cur.len() implies cur[j].start
                < cur[i].start by {
                if i == cur.len() - 1 {
                    assert(cur[j] == prev[j]);
                } else {
                    assert(cur[j] == prev[j]);
                    assert(cur[i] == prev[i]);
                }
            }
            assert forall|i: int| 0 <= i < cur.len() implies offset <= #[trigger] cur[i].start
                < offset + k by {
                if i < cur.len() - 1 {
                    assert(cur[i] == prev[i]);
                }
            }
        } else {
            assert(cur == prev);
        }
    }
}

/// Each pair's segments start at the chunk's first site, lie within the chunk
/// and strictly increase.
pub proof fn lemma_pair_segments_valid(d: PairData, offset: int)
    requires
        d.wf(),
        0 <= offset,
        offset + d.len() <= usize::MAX,
    ensures
        segments_valid(pair_segments(d, offset), offset, offset + d.len()),
{
    lemma_segments_prefix(d.path(), offset, d.len());
}

/// Without recombination (rho = 0) the decoded path never changes state, so a
/// pair's painting is one segment spanning the whole chunk.
pub proof fn lemma_no_recombination_single_segment(d: PairData, offset: int)
    requires
        d.wf(),
        d.rho == 0,
        0 <= offset,
        offset + d.len() <= usize::MAX,
    ensures
        pair_segments(d, offset).len() == 1,
        pair_segments(d, offset)[0].start == offset,
{
    let n = d.len();
    assert forall|i: int| 0 <= i < n implies #[trigger] d.state_at(i) == d.last_state() by {
        lemma_state_constant(d, i);
    }
    lemma_single_run(d.path(), offset, n);
}

proof fn lemma_state_constant(d: PairData, i: int)
    requires
        d.wf(),
        d.rho == 0,
        0 <= i < d.len(),
    ensures
        d.state_at(i) == d.last_state(),
    decreases d.len() - i,
{
    if i < d.len() - 1 {
        lemma_state_constant(d, i + 1);
        assert(!d.switchable(i + 1));
    }
}

proof fn lemma_single_run(states: Seq<bool>, offset: int, k: int)
    requires
        0 < k <= states.len(),
        forall|i: int| 0 <= i < k ==> #[trigger] states[i] == states[0],
        0 <= offset,
        offset + k <= usize::MAX,
    ensures
        segments_prefix(states, offset, k).len() == 1,
        segments_prefix(states, offset, k)[0].start == offset,
    decreases k,
{
    if k > 1 {
        lemma_single_run(states, offset, k - 1);
        assert(states[k - 1] == states[0]);
        assert(states[k - 2] == states[0]);
        assert(segments_prefix(states, offset, k) == segments_prefix(states, offset, k - 1));
    } else {
        assert(segments_prefix(states, offset, 0) == Seq::<Segment>::empty());
    }
}

/// No site of the pair has two known, different alleles.
pub open spec fn no_mismatch(d: PairData) -> bool {
    forall|i: int|
        0 <= i < d.len() ==> #[trigger] d.x[i] == d.y[i] || d.x[i] == ALLELE_MISSING || d.y[i]
            == ALLELE_MISSING
}

proof fn lemma_no_mismatch_shared_cost_zero(d: PairData, i: int)
    requires
        d.wf(),
        no_mismatch(d),
        0 <= i < d.len(),
    ensures
        d.forward(i).0 == 0,
    decreases i,
{
    assert(d.x[i] == d.y[i] || d.x[i] == ALLELE_MISSING || d.y[i] == ALLELE_MISSING);
    if i > 0 {
        lemma_no_mismatch_shared_cost_zero(d, i - 1);
        lemma_forward_bounded(d, i - 1);
    }
}

proof fn lemma_no_mismatch_state_shared(d: PairData, i: int)
    requires
        d.wf(),
        no_mismatch(d),
        0 <= i < d.len(),
    ensures
        d.state_at(i) == false,
    decreases d.len() - i,
{
    lemma_no_mismatch_shared_cost_zero(d, i);
    lemma_forward_bounded(d, i);
    if i < d.len() - 1 {
        lemma_no_mismatch_state_shared(d, i + 1);
        lemma_transition_nonneg(d, i + 1);
    }
}

/// A pair with no mismatching site is painted as one shared segment over the
/// whole chunk.
pub proof fn lemma_no_mismatch_single_shared_segment(d: PairData, offset: int)
    requires
        d.wf(),
        no_mismatch(d),
        0 <= offset,
        offset + d.len() <= usize::MAX,
    ensures
        pair_segments(d, offset) == seq![Segment { start: offset as usize, state: HiddenState::Shared }],
{
    let n = d.len();
    assert forall|i: int| 0 <= i < n implies #[trigger] d.path()[i] == d.path()[0] by {
        lemma_no_mismatch_state_shared(d, i);
        lemma_no_mismatch_state_shared(d, 0);
    }
    lemma_single_run(d.path(), offset, n);
    lemma_segments_prefix(d.path(), offset, n);
    lemma_no_mismatch_state_shared(d, n - 1);
    assert(pair_segments(d, offset) =~= seq![Segment { start: offset as usize, state: HiddenState::Shared }]);
}

fn emission_exec(distinct: bool, a: u8, b: u8, theta: u64) -> (r: u64)
    ensures
        r == emission(distinct, a, b, theta),
{
    if a == ALLELE_MISSING || b == ALLELE_MISSING {
        0
    } else if distinct {
        DISTINCT_SITE_COST
    } else if a == b {
        0
    } else if theta == 0 {
        MAX_EMISSION_COST
    } else {
        MUTATION_SCALE / theta
    }
}

/// Whether a state change is possible between sites at genetic distances `lo`
/// and `hi`, and what it costs.
fn transition_exec(lo: u64, hi: u64, rho: u64) -> (r: (bool, u64))
    ensures
        r.0 == can_switch(hi - lo, rho),
        r.1 == transition(hi - lo, rho),
{
    if hi <= lo || rho == 0 {
        proof {
            assert((hi - lo) * rho <= 0) by (nonlinear_arith)
                requires
                    hi <= lo || rho == 0,
                    rho >= 0,
            ;
        }
        (false, 0)
    } else {
        let gap = hi - lo;
        proof {
            assert(gap as int * rho as int <= 0xffff_ffff_ffff_ffffu64 as int * 0xffff_ffff_ffff_ffffu64 as int)
                by (nonlinear_arith)
                requires
                    gap <= 0xffff_ffff_ffff_ffffu64,
                    rho <= 0xffff_ffff_ffff_ffffu64,
            ;
            assert(gap as int * rho as int >= 1) by (nonlinear_arith)
                requires
                    gap >= 1,
                    rho >= 1,
            ;
        }
        let x = gap as u128 * rho as u128;
        (true, (RECOMBINATION_SCALE as u128 / x) as u64)
    }
}

fn normalize_exec(a: u128, b: u128) -> (r: (u128, u128))
    ensures
        r.0 == normalize(a as int, b as int).0,
        r.1 == normalize(a as int, b as int).1,
{
    let m = if a <= b { a } else { b };
    (a - m, b - m)
}

/// Paints one pair: Viterbi decoding of alleles `x` and `y` over sites with
/// genetic distances `gd`, the first of them at site index `offset`.
pub fn paint_pair(x: &Vec<u8>, y: &Vec<u8>, gd: &Vec<u64>, theta: u64, rho: u64, offset: usize) -> (r:
    Vec<Segment>)
    requires
        x@.len() > 0,
        y@.len() == x@.len(),
        gd@.len() == x@.len(),
        offset + x@.len() <= usize::MAX,
    ensures
        r@ == pair_segments(PairData { x: x@, y: y@, gd: gd@, theta, rho }, offset as int),
        segments_valid(r@, offset as int, offset + x@.len()),
{
    let ghost d = PairData { x: x@, y: y@, gd: gd@, theta, rho };
    let n = x.len();
    let e0 = emission_exec(false, x[0], y[0], theta);
    let e1 = emission_exec(true, x[0], y[0], theta);
    let (mut c0, mut c1) = normalize_exec(e0 as u128, e1 as u128);
    // keep0[i] / keep1[i]: the best path into state shared / distinct at site i
    // comes from the same state at site i - 1 (entry 0 unused).
    let mut keep0: Vec<bool> = Vec::new();
    let mut keep1: Vec<bool> = Vec::new();
    keep0.push(true);
    keep1.push(true);
    let mut i: usize = 1;
    while i < n
        invariant
            d == (PairData { x: x@, y: y@, gd: gd@, theta, rho }),
            d.wf(),
            n == d.len(),
            1 <= i <= n,
            c0 == d.forward(i - 1).0,
            c1 == d.forward(i - 1).1,
            keep0@.len() == i,
            keep1@.len() == i,
            forall|k: int|
                1 <= k < i ==> #[trigger] keep0@[k] == keeps(
                    d.forward(k - 1).0,
                    d.forward(k - 1).1,
                    d.switchable(k),
                    d.trans(k),
                ),
            forall|k: int|
                1 <= k < i ==> #[trigger] keep1@[k] == keeps(
                    d.forward(k - 1).1,
                    d.forward(k - 1).0,
                    d.switchable(k),
                    d.trans(k),
                ),
        decreases n - i,
    {
        proof {
            lemma_forward_bounded(d, i - 1);
            lemma_forward_bounded(d, i as int);
            assert(i * MAX_EMISSION_COST <= 0x1_0000_0000_0000_0000 * 0x1_0000_0000) by (nonlinear_arith)
                requires
                    i <= 0xffff_ffff_ffff_ffffu64,
                    MAX_EMISSION_COST == 0x1_0000_0000,
            ;
        }
        let (sw, t) = transition_exec(gd[i - 1], gd[i], rho);
        let k0 = !sw || c0 <= c1 + t as u128;
        let k1 = !sw || c1 <= c0 + t as u128;
        let a0 = if k0 { c0 } else { c1 + t as u128 };
        let a1 = if k1 { c1 } else { c0 + t as u128 };
        let f0 = emission_exec(false, x[i], y[i], theta);
        let f1 = emission_exec(true, x[i], y[i], theta);
        let (n0, n1) = normalize_exec(a0 + f0 as u128, a1 + f1 as u128);
        c0 = n0;
        c1 = n1;
        keep0.push(k0);
        keep1.push(k1);
        i += 1;
    }
    // Trace back from the last site; rev[j] is the state at site n - 1 - j.
    let mut rev: Vec<bool> = Vec::new();
    let mut cur = c1 < c0;
    rev.push(cur);
    let mut j: usize = n - 1;
    while j > 0
        invariant
            d == (PairData { x: x@, y: y@, gd: gd@, theta, rho }),
            d.wf(),
            n == d.len(),
            j < n,
            keep0@.len() == n,
            keep1@.len() == n,
            forall|k: int|
                1 <= k < n ==> #[trigger] keep0@[k] == keeps(
                    d.forward(k - 1).0,
                    d.forward(k - 1).1,
                    d.switchable(k),
                    d.trans(k),
                ),
            forall|k: int|
                1 <= k < n ==> #[trigger] keep1@[k] == keeps(
                    d.forward(k - 1).1,
                    d.forward(k - 1).0,
                    d.switchable(k),
                    d.trans(k),
                ),
            rev@.len() == n - j,
            cur == d.state_at(j as int),
            forall|k: int| 0 <= k < n - j ==> #[trigger] rev@[k] == d.state_at(n - 1 - k),
        decreases j,
    {
        let kept = if cur { keep1[j] } else { keep0[j] };
        cur = if kept { cur } else { !cur };
        j -= 1;
        rev.push(cur);
    }
    // Segments, scanning sites left to right.
    let ghost states = d.path();
    let mut segs: Vec<Segment> = Vec::new();
    let mut s: usize = 0;
    while s < n
        invariant
            d.wf(),
            n == d.len(),
            states == d.path(),
            rev@.len() == n,
            forall|k: int| 0 <= k < n ==> #[trigger] rev@[k] == d.state_at(n - 1 - k),
            s <= n,
            offset + n <= usize::MAX,
            segs@ == segments_prefix(states, offset as int, s as int),
        decreases n - s,
    {
        let st = rev[n - 1 - s];
        assert(st == states[s as int]);
        if s == 0 || st != rev[n - s] {
            let seg = Segment {
                start: offset + s,
                state: if st { HiddenState::Distinct } else { HiddenState::Shared },
            };
            segs.push(seg);
        } else {
            assert(rev@[n - s] == states[s - 1]);
        }
        s += 1;
    }
    proof {
        lemma_pair_segments_valid(d, offset as int);
    }
    segs
}

/// Errors raised by painting.
#[derive(Debug, Clone, Copy, PartialEq, Eq, Structural)]
pub enum PaintError {
    /// The manifest holds no such chunk, or the chunk does not fit the store.
    InvalidChunkIndex,
    /// Both theta and rho are zero: no computation is meaningful.
    DegenerateParameters,
}

/// The painting of one unordered haplotype pair (`first < second`).
pub struct PairPainting {
    pub first: usize,
    pub second: usize,
    pub segments: Vec<Segment>,
}

impl View for PairPainting {
    type V = (usize, usize, Seq<Segment>);

    open spec fn view(&self) -> (usize, usize, Seq<Segment>) {
        (self.first, self.second, self.segments@)
    }
}

/// Haplotypes `a` and `b` over chunk `c`.
pub open spec fn chunk_pair_data(
    rows: Seq<Seq<u8>>,
    gd: Seq<u64>,
    c: Chunk,
    theta: u64,
    rho: u64,
    a: int,
    b: int,
) -> PairData {
    PairData {
        x: rows[a].subrange(c.start as int, c.end as int),
        y: rows[b].subrange(c.start as int, c.end as int),
        gd: gd.subrange(c.start as int, c.end as int),
        theta,
        rho,
    }
}

/// The painting of pair (`a`, `b`) over chunk `c`.
pub open spec fn chunk_pair(
    rows: Seq<Seq<u8>>,
    gd: Seq<u64>,
    c: Chunk,
    theta: u64,
    rho: u64,
    a: int,
    b: int,
) -> (usize, usize, Seq<Segment>) {
    (
        a as usize,
        b as usize,
        pair_segments(chunk_pair_data(rows, gd, c, theta, rho, a, b), c.start as int),
    )
}

/// Paintings of pairs (`a`, `b'`) for `a < b' < b`, in order of `b'`.
pub open spec fn row_pairs(
    rows: Seq<Seq<u8>>,
    gd: Seq<u64>,
    c: Chunk,
    theta: u64,
    rho: u64,
    a: int,
    b: int,
) -> Seq<(usize, usize, Seq<Segment>)>
    decreases b - a,
{
    if b <= a + 1 {
        seq![]
    } else {
        row_pairs(rows, gd, c, theta, rho, a, b - 1).push(chunk_pair(rows, gd, c, theta, rho, a, b - 1))
    }
}

/// Paintings of every pair whose first haplotype is below `a`, in
/// lexicographic order of the pair.
pub open spec fn chunk_pairs(
    rows: Seq<Seq<u8>>,
    gd: Seq<u64>,
    c: Chunk,
    theta: u64,
    rho: u64,
    a: int,
) -> Seq<(usize, usize, Seq<Segment>)>
    decreases a,
{
    if a <= 0 {
        seq![]
    } else {
        chunk_pairs(rows, gd, c, theta, rho, a - 1) + row_pairs(rows, gd, c, theta, rho, a - 1, rows.len() as int)
    }
}

/// The painting of chunk `c`: every unordered pair, in lexicographic order.
pub open spec fn chunk_painting(
    rows: Seq<Seq<u8>>,
    gd: Seq<u64>,
    c: Chunk,
    theta: u64,
    rho: u64,
) -> Seq<(usize, usize, Seq<Segment>)> {
    chunk_pairs(rows, gd, c, theta, rho, rows.len() as int)
}

/// Chunk `chunk_index` of the manifest exists and lies within `n_sites` sites.
pub open spec fn chunk_addressable(manifest: Seq<Chunk>, chunk_index: int, n_sites: int) -> bool {
    &&& 0 <= chunk_index < manifest.len()
    &&& manifest[chunk_index].start < manifest[chunk_index].end <= n_sites
}

/// Paints every pair of haplotypes over chunk `c`.
fn paint_chunk(store: &HaplotypeStore, gd: &Vec<u64>, c: Chunk, theta: u64, rho: u64) -> (r: Vec<
    PairPainting,
>)
    requires
        store.wf(),
        gd@.len() == store.spec_n_sites(),
        c.start < c.end <= store.spec_n_sites(),
    ensures
        r@.map_values(|p: PairPainting| p@) == chunk_painting(store.rows_view(), gd@, c, theta, rho),
        forall|k: int|
            0 <= k < r@.len() ==> segments_valid(
                #[trigger] r@[k].segments@,
                c.start as int,
                c.end as int,
            ),
{
    let ghost rows = store.rows_view();
    let n = store.n_haps();
    let g = slice_u64(gd, c.start, c.end);
    let mut out: Vec<PairPainting> = Vec::new();
    let mut a: usize = 0;
    while a < n
        invariant
            store.wf(),
            rows == store.rows_view(),
            n == rows.len(),
            gd@.len() == store.spec_n_sites(),
            c.start < c.end <= store.spec_n_sites(),
            g@ == gd@.subrange(c.start as int, c.end as int),
            a <= n,
            out@.map_values(|p: PairPainting| p@) == chunk_pairs(rows, gd@, c, theta, rho, a as int),
            forall|k: int|
                0 <= k < out@.len() ==> segments_valid(
                    #[trigger] out@[k].segments@,
                    c.start as int,
                    c.end as int,
                ),
        decreases n - a,
    {
        let x = store.row_slice(a, c.start, c.end);
        let ghost before = chunk_pairs(rows, gd@, c, theta, rho, a as int);
        let mut b: usize = a + 1;
        while b < n
            invariant
                store.wf(),
                rows == store.rows_view(),
                n == rows.len(),
                gd@.len() == store.spec_n_sites(),
                c.start < c.end <= store.spec_n_sites(),
                g@ == gd@.subrange(c.start as int, c.end as int),
                a < n,
                a + 1 <= b <= n,
                x@ == rows[a as int].subrange(c.start as int, c.end as int),
                before == chunk_pairs(rows, gd@, c, theta, rho, a as int),
                out@.map_values(|p: PairPainting| p@) == before + row_pairs(rows, gd@, c, theta, rho, a as int, b as int),
                forall|k: int|
                    0 <= k < out@.len() ==> segments_valid(
                        #[trigger] out@[k].segments@,
                        c.start as int,
                        c.end as int,
                    ),
            decreases n - b,
        {
            let y = store.row_slice(b, c.start, c.end);
            let segments = paint_pair(&x, &y, &g, theta, rho, c.start);
            let p = PairPainting { first: a, second: b, segments };
            proof {
                assert(p@ == chunk_pair(rows, gd@, c, theta, rho, a as int, b as int));
                let rp = row_pairs(rows, gd@, c, theta, rho, a as int, b as int);
                assert(row_pairs(rows, gd@, c, theta, rho, a as int, b + 1) == rp.push(p@));
                assert(out@.push(p).map_values(|q: PairPainting| q@) =~= out@.map_values(|q: PairPainting| q@).push(p@));
                assert((before + rp).push(p@) =~= before + rp.push(p@));
            }
            out.push(p);
            b += 1;
        }
        proof {
            assert(chunk_pairs(rows, gd@, c, theta, rho, a + 1) == before + row_pairs(rows, gd@, c, theta, rho, a as int, n as int));
        }
        a += 1;
    }
    out
}

/// Copy of `v[start..end]`.
fn slice_u64(v: &Vec<u64>, start: usize, end: usize) -> (r: Vec<u64>)
    requires
        start <= end <= v@.len(),
    ensures
        r@ == v@.subrange(start as int, end as int),
{
    let mut r: Vec<u64> = Vec::new();
    let mut s: usize = start;
    while s < end
        invariant
            start <= s <= end,
            end <= v@.len(),
            r@ == v@.subrange(start as int, s as int),
        decreases end - s,
    {
        r.push(v[s]);
        s += 1;
        assert(r@ =~= v@.subrange(start as int, s as int));
    }
    r
}

/// Paints chunk `chunk_index` of `manifest` over the store, with site genetic
/// distances `gd`. Fails with `InvalidChunkIndex` when the manifest has no such
/// chunk or it does not fit the store, else with `DegenerateParameters` when
/// theta and rho are both zero; otherwise returns every pair's painting, each
/// within the chunk. The result is a function of the inputs alone.
pub fn paint(
    store: &HaplotypeStore,
    gd: &Vec<u64>,
    manifest: &Vec<Chunk>,
    chunk_index: usize,
    theta: u64,
    rho: u64,
) -> (r: Result<Vec<PairPainting>, PaintError>)
    requires
        store.wf(),
        gd@.len() == store.spec_n_sites(),
    ensures
        r == Err::<Vec<PairPainting>, PaintError>(PaintError::InvalidChunkIndex) <==> !chunk_addressable(
            manifest@,
            chunk_index as int,
            store.spec_n_sites() as int,
        ),
        r == Err::<Vec<PairPainting>, PaintError>(PaintError::DegenerateParameters) <==> chunk_addressable(
            manifest@,
            chunk_index as int,
            store.spec_n_sites() as int,
        ) && theta == 0 && rho == 0,
        r is Ok ==> r->Ok_0@.map_values(|p: PairPainting| p@) == chunk_painting(
            store.rows_view(),
            gd@,
            manifest@[chunk_index as int],
            theta,
            rho,
        ),
        r is Ok ==> forall|k: int|
            0 <= k < r->Ok_0@.len() ==> segments_valid(
                #[trigger] r->Ok_0@[k].segments@,
                manifest@[chunk_index as int].start as int,
                manifest@[chunk_index as int].end as int,
            ),
{
    if chunk_index >= manifest.len() {
        return Err(PaintError::InvalidChunkIndex);
    }
    let c = manifest[chunk_index];
    if c.start >= c.end || c.end > store.n_sites() {
        return Err(PaintError::InvalidChunkIndex);
    }
    if theta == 0 && rho == 0 {
        return Err(PaintError::DegenerateParameters);
    }
    Ok(paint_chunk(store, gd, c, theta, rho))
}

} // verus!
