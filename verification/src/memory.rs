//! The learned data model: symbols (deduplicated atomic units addressed by
//! fingerprint similarity), trajectories (ordered paths of points recorded
//! per learned input, with a decaying strength score), and associative
//! fields (reinforced circular regions of concept space).
use vstd::prelude::*;

verus! {

use crate::fixed::{FP, sdiv, div_trunc, isqrt, is_isqrt, sqrt_s, lemma_isqrt_exists_unique};
use crate::fractal::{MandelbrotCoord, in_bounds};

/// Ceiling at which all strength scores saturate (1000.0 in micro-units).
pub const STRENGTH_MAX: i64 = 1_000_000_000;

/// Floor toward which trajectory strength decays (0.1 in micro-units).
pub const STRENGTH_FLOOR: i64 = 100_000;

/// Confidence gain of a symbol on every merge (0.15 in micro-units).
pub const CONFIDENCE_STEP: i64 = 150_000;

/// Confidence loss of every symbol on a pruning pass (0.001 in micro-units).
pub const CONFIDENCE_DECAY: i64 = 1_000;

/// Confidence at or under which an unreferenced, rarely used symbol is
/// removed (0.05 in micro-units).
pub const CONFIDENCE_PRUNE_FLOOR: i64 = 50_000;

/// Usage count above which a symbol is never pruned.
pub const COUNT_PRUNE_FLOOR: u32 = 10;

/// Squared Euclidean gap of two points, in squared micro-units.
pub open spec fn dist_sq_s(a: MandelbrotCoord, b: MandelbrotCoord) -> int {
    (a.re - b.re) * (a.re - b.re) + (a.im - b.im) * (a.im - b.im)
}

/// Euclidean gap of two points of the rectangle, in micro-units.
pub fn coord_distance_points(a: MandelbrotCoord, b: MandelbrotCoord) -> (r: i64)
    requires
        in_bounds(a),
        in_bounds(b),
    ensures
        r == sqrt_s(dist_sq_s(a, b)),
        0 <= r <= 3_000_000,
{
    let d2 = dist_sq(a, b);
    let r = isqrt(d2 as u64);
    proof {
        lemma_isqrt_exists_unique(d2 as int);
        assert(is_isqrt(d2 as int, r as int));
        assert(r <= 3_000_000) by (nonlinear_arith)
            requires
                r * r <= 8_000_000_000_000,
                0 <= r,
        ;
    }
    r as i64
}

/// Squared Euclidean gap of two points of the rectangle.
pub fn dist_sq(a: MandelbrotCoord, b: MandelbrotCoord) -> (r: i64)
    requires
        in_bounds(a),
        in_bounds(b),
    ensures
        r == dist_sq_s(a, b),
        0 <= r <= 8_000_000_000_000,
{
    let dr: i64 = a.re - b.re;
    let di: i64 = a.im - b.im;
    proof {
        assert(0 <= dr * dr <= 4_000_000_000_000 && 0 <= di * di <= 4_000_000_000_000)
            by (nonlinear_arith)
            requires
                -2_000_000 <= dr <= 2_000_000,
                -2_000_000 <= di <= 2_000_000,
        ;
    }
    dr * dr + di * di
}

/// One learned atomic unit: anchored at a point, identified by its
/// fingerprint, with usage and confidence bookkeeping.
#[derive(Clone, Debug)]
pub struct FractalSymbol {
    pub coord: MandelbrotCoord,
    pub pattern: Vec<u64>,
    pub count: u32,
    pub label: Option<char>,
    pub confidence: i64,
    pub stability: i64,
}

impl FractalSymbol {
    /// Structural soundness: a full fingerprint, scores inside [0, 1].
    pub open spec fn wf(self) -> bool {
        &&& self.pattern@.len() == 32
        &&& in_bounds(self.coord)
        &&& 0 <= self.confidence <= FP
        &&& 0 <= self.stability <= FP
    }

    /// A freshly created symbol: seen once, unlabeled, no confidence yet.
    pub fn new(coord: MandelbrotCoord, pattern: Vec<u64>, stability: i64) -> (r: FractalSymbol)
        ensures
            r.coord == coord,
            r.pattern == pattern,
            r.count == 1,
            r.label is None,
            r.confidence == 0,
            r.stability == stability,
    {
        FractalSymbol { coord, pattern, count: 1, label: None, confidence: 0, stability }
    }
}

/// Strength after one decay pass: multiplied by 0.995 and floored at 0.1.
pub open spec fn decay_strength_s(s: int) -> int {
    let d = sdiv(995 * s, 1000);
    if d < STRENGTH_FLOOR {
        STRENGTH_FLOOR as int
    } else {
        d
    }
}

/// Strength after `n` decay passes.
pub open spec fn decay_iter_s(s: int, n: nat) -> int
    decreases n,
{
    if n == 0 {
        s
    } else {
        decay_strength_s(decay_iter_s(s, (n - 1) as nat))
    }
}

/// One decay pass never leaves the strength below the floor, never above
/// the ceiling, and strictly lowers any strength above the floor; at the
/// floor it stands still.
pub proof fn lemma_decay_step(s: int)
    requires
        0 <= s <= STRENGTH_MAX,
    ensures
        STRENGTH_FLOOR <= decay_strength_s(s) <= STRENGTH_MAX,
        s >= STRENGTH_FLOOR ==> decay_strength_s(s) <= s,
        s > STRENGTH_FLOOR ==> decay_strength_s(s) < s,
        decay_strength_s(STRENGTH_FLOOR as int) == STRENGTH_FLOOR,
{
    vstd::arithmetic::div_mod::lemma_div_pos_is_pos(995 * s, 1000);
    vstd::arithmetic::div_mod::lemma_div_is_ordered(995 * s, 995 * STRENGTH_MAX, 1000);
    assert(995 * STRENGTH_MAX / 1000 == 995_000_000);
    if s > 0 {
        assert(995 * s < 1000 * s) by (nonlinear_arith)
            requires
                s > 0,
        ;
        vstd::arithmetic::div_mod::lemma_div_multiples_vanish(s, 1000);
        vstd::arithmetic::div_mod::lemma_div_is_ordered(995 * s, 1000 * s - 1, 1000);
        assert((1000 * s - 1) / 1000 == s - 1) by {
            vstd::arithmetic::div_mod::lemma_fundamental_div_mod_converse(
                1000 * s - 1,
                1000,
                s - 1,
                999,
            );
        }
    }
    assert(sdiv(995 * STRENGTH_FLOOR as int, 1000) == 99_500);
}

/// Repeated decay without reinforcement reaches the floor after finitely
/// many passes, and never drops below it.
pub proof fn lemma_decay_converges(s: int)
    requires
        STRENGTH_FLOOR <= s <= STRENGTH_MAX,
    ensures
        exists|n: nat| decay_iter_s(s, n) == STRENGTH_FLOOR,
        forall|n: nat| STRENGTH_FLOOR <= #[trigger] decay_iter_s(s, n) <= STRENGTH_MAX,
    decreases s,
{
    assert forall|n: nat| STRENGTH_FLOOR <= #[trigger] decay_iter_s(s, n) <= STRENGTH_MAX by {
        lemma_decay_iter_bounds(s, n);
    }
    if s == STRENGTH_FLOOR {
        assert(decay_iter_s(s, 0) == STRENGTH_FLOOR);
    } else {
        lemma_decay_step(s);
        let s1 = decay_strength_s(s);
        lemma_decay_converges(s1);
        let n1 = choose|n: nat| decay_iter_s(s1, n) == STRENGTH_FLOOR;
        lemma_decay_iter_shift(s, n1);
        assert(decay_iter_s(s, n1 + 1) == STRENGTH_FLOOR);
    }
}

proof fn lemma_decay_iter_bounds(s: int, n: nat)
    requires
        STRENGTH_FLOOR <= s <= STRENGTH_MAX,
    ensures
        STRENGTH_FLOOR <= decay_iter_s(s, n) <= STRENGTH_MAX,
    decreases n,
{
    if n > 0 {
        lemma_decay_iter_bounds(s, (n - 1) as nat);
        lemma_decay_step(decay_iter_s(s, (n - 1) as nat));
    }
}

proof fn lemma_decay_iter_shift(s: int, n: nat)
    ensures
        decay_iter_s(s, n + 1) == decay_iter_s(decay_strength_s(s), n),
    decreases n,
{
    if n == 0 {
        assert(decay_iter_s(s, 1) == decay_strength_s(decay_iter_s(s, 0)));
    } else {
        lemma_decay_iter_shift(s, (n - 1) as nat);
        assert(decay_iter_s(s, n + 1) == decay_strength_s(decay_iter_s(s, n)));
        assert(decay_iter_s(decay_strength_s(s), n) == decay_strength_s(
            decay_iter_s(decay_strength_s(s), (n - 1) as nat),
        ));
    }
}

/// Saturating strength increase: capped at the ceiling.
pub open spec fn boost_strength_s(s: int, amount: int) -> int {
    if s + amount > STRENGTH_MAX {
        STRENGTH_MAX as int
    } else {
        s + amount
    }
}

/// The recorded path of points and symbols produced while learning one
/// input, with a strength score and an optional source-image reference.
#[derive(Clone, Debug)]
pub struct ConceptTrajectory {
    pub path: Vec<MandelbrotCoord>,
    pub strength: i64,
    pub symbols: Vec<usize>,
    pub image_path: Option<String>,
}

/// Index of the first path point closest to `c` among the first `n` points:
/// ties resolve to the earliest index.
pub open spec fn first_min_idx_s(path: Seq<MandelbrotCoord>, c: MandelbrotCoord, n: nat) -> int
    recommends
        1 <= n <= path.len(),
    decreases n,
{
    if n <= 1 {
        0
    } else {
        let p = first_min_idx_s(path, c, (n - 1) as nat);
        if dist_sq_s(c, path[n - 1]) < dist_sq_s(c, path[p]) {
            n - 1
        } else {
            p
        }
    }
}

/// Index of the first path point of a trajectory closest to `c`.
pub open spec fn closest_idx_s(path: Seq<MandelbrotCoord>, c: MandelbrotCoord) -> int {
    first_min_idx_s(path, c, path.len())
}

/// Squared gap from `c` to the closest path point.
pub open spec fn min_dist_sq_s(path: Seq<MandelbrotCoord>, c: MandelbrotCoord) -> int {
    dist_sq_s(c, path[closest_idx_s(path, c)])
}

/// The denominator of the exponential-decay approximation at `u`
/// micro-units: the cubic Taylor sum 1 + u + u^2/2 + u^3/6, so that its
/// reciprocal tracks e^{-u}.
pub open spec fn exp_decay_denom_s(u: int) -> int {
    FP + u + sdiv(u * u, 2 * FP) + sdiv(sdiv(u * u, 2 * FP) * u, 3 * FP)
}

/// A strength shrunk by the exponential-decay approximation at `u`
/// micro-units: strength / (1 + u + u^2/2 + u^3/6), tracking
/// strength * e^{-u}.
pub open spec fn decay_weight_s(strength: int, u: int) -> int {
    sdiv(strength * FP, exp_decay_denom_s(u))
}

/// The influence a trajectory exerts at squared gap `d2`: its strength
/// shrunk by the exponential-decay approximation of e^{-d^2/0.05},
/// in micro-units.
pub open spec fn trajectory_influence_s(strength: int, d2: int) -> int {
    decay_weight_s(strength, 20 * sdiv(d2, FP as int))
}

/// A strength shrunk by the exponential-decay approximation at `u`
/// micro-units.
pub fn decay_weight(strength: i64, u: i64) -> (r: i64)
    requires
        0 <= strength <= STRENGTH_MAX,
        0 <= u <= 200_000_000,
    ensures
        r == decay_weight_s(strength as int, u as int),
        0 <= r <= strength,
{
    proof {
        assert(0 <= u * u <= 40_000_000_000_000_000) by (nonlinear_arith)
            requires
                0 <= u <= 200_000_000,
        ;
        crate::fixed::lemma_sdiv_bounds(u as int * u as int, 2 * FP as int, 40_000_000_000_000_000);
        vstd::arithmetic::div_mod::lemma_div_is_ordered(
            u as int * u as int,
            40_000_000_000_000_000,
            2 * FP as int,
        );
        assert(40_000_000_000_000_000int / 2_000_000int == 20_000_000_000) by {
            vstd::arithmetic::div_mod::lemma_fundamental_div_mod_converse(
                40_000_000_000_000_000,
                2_000_000,
                20_000_000_000,
                0,
            );
        }
    }
    let t2: i64 = div_trunc(u * u, 2 * FP);
    proof {
        assert(0 <= t2 * u <= 4_000_000_000_000_000_000) by (nonlinear_arith)
            requires
                0 <= t2 <= 20_000_000_000,
                0 <= u <= 200_000_000,
        ;
        crate::fixed::lemma_sdiv_bounds(
            t2 as int * u as int,
            3 * FP as int,
            4_000_000_000_000_000_000,
        );
        vstd::arithmetic::div_mod::lemma_div_is_ordered(
            t2 as int * u as int,
            4_000_000_000_000_000_000,
            3 * FP as int,
        );
        assert(4_000_000_000_000_000_000int / 3_000_000int <= 1_333_333_333_334) by {
            vstd::arithmetic::div_mod::lemma_fundamental_div_mod_converse(
                4_000_000_000_000_000_000,
                3_000_000,
                1_333_333_333_333,
                1_000_000,
            );
        }
    }
    let t3: i64 = div_trunc(t2 * u, 3 * FP);
    let denom: i64 = FP + u + t2 + t3;
    proof {
        assert(0 <= strength * FP <= 1_000_000_000_000_000) by (nonlinear_arith)
            requires
                0 <= strength <= STRENGTH_MAX,
        ;
        vstd::arithmetic::div_mod::lemma_div_pos_is_pos(
            strength as int * FP as int,
            denom as int,
        );
        vstd::arithmetic::div_mod::lemma_div_is_ordered_by_denominator(
            strength as int * FP as int,
            FP as int,
            denom as int,
        );
        vstd::arithmetic::div_mod::lemma_div_multiples_vanish(strength as int, FP as int);
    }
    let num: i64 = strength * FP;
    num / denom
}

pub proof fn lemma_first_min_idx_props(path: Seq<MandelbrotCoord>, c: MandelbrotCoord, n: nat)
    requires
        1 <= n <= path.len(),
    ensures
        0 <= first_min_idx_s(path, c, n) < n,
        forall|k: int|
            0 <= k < n ==> dist_sq_s(c, path[first_min_idx_s(path, c, n)]) <= dist_sq_s(
                c,
                #[trigger] path[k],
            ),
        forall|k: int|
            0 <= k < first_min_idx_s(path, c, n) ==> dist_sq_s(c, #[trigger] path[k]) > dist_sq_s(
                c,
                path[first_min_idx_s(path, c, n)],
            ),
    decreases n,
{
    if n > 1 {
        lemma_first_min_idx_props(path, c, (n - 1) as nat);
    }
}

impl ConceptTrajectory {
    /// Structural soundness: a nonempty in-bounds path, no more symbol
    /// entries than path points, strength inside its range.
    pub open spec fn wf(self) -> bool {
        &&& self.path@.len() >= 1
        &&& forall|k: int| 0 <= k < self.path@.len() ==> in_bounds(#[trigger] self.path@[k])
        &&& self.symbols@.len() <= self.path@.len()
        &&& 0 <= self.strength <= STRENGTH_MAX
    }

    /// A fresh trajectory at full strength.  The concept string itself is
    /// deliberately not stored: only the geometry remains.
    pub fn new(path: Vec<MandelbrotCoord>, _concept: String, symbols: Vec<usize>) -> (r:
        ConceptTrajectory)
        ensures
            r.path == path,
            r.strength == FP,
            r.symbols == symbols,
            r.image_path is None,
    {
        ConceptTrajectory { path, strength: FP, symbols, image_path: None }
    }

    /// A fresh trajectory that also remembers the path of a source image.
    pub fn new_with_image(
        path: Vec<MandelbrotCoord>,
        _concept: String,
        symbols: Vec<usize>,
        image_path: String,
    ) -> (r: ConceptTrajectory)
        ensures
            r.path == path,
            r.strength == FP,
            r.symbols == symbols,
            r.image_path == Some(image_path),
    {
        ConceptTrajectory { path, strength: FP, symbols, image_path: Some(image_path) }
    }

    /// Euclidean gap of two points, in micro-units.
    pub fn coord_distance(a: MandelbrotCoord, b: MandelbrotCoord) -> (r: i64)
        requires
            in_bounds(a),
            in_bounds(b),
        ensures
            r == sqrt_s(dist_sq_s(a, b)),
            0 <= r <= 3_000_000,
    {
        coord_distance_points(a, b)
    }

    /// The first path index closest to `coord`, and the squared gap to it.
    pub fn closest_point(&self, coord: MandelbrotCoord) -> (r: (usize, i64))
        requires
            self.wf(),
            in_bounds(coord),
        ensures
            r.0 == closest_idx_s(self.path@, coord),
            0 <= r.0 < self.path@.len(),
            r.1 == min_dist_sq_s(self.path@, coord),
            0 <= r.1 <= 8_000_000_000_000,
    {
        let mut best_idx: usize = 0;
        let mut best_d2: i64 = dist_sq(coord, self.path[0]);
        let mut i: usize = 1;
        while i < self.path.len()
            invariant
                1 <= i <= self.path@.len(),
                best_idx == first_min_idx_s(self.path@, coord, i as nat),
                0 <= best_idx < i,
                best_d2 == dist_sq_s(coord, self.path@[best_idx as int]),
                0 <= best_d2 <= 8_000_000_000_000,
                self.wf(),
                in_bounds(coord),
            decreases self.path@.len() - i,
        {
            let d2 = dist_sq(coord, self.path[i]);
            if d2 < best_d2 {
                best_d2 = d2;
                best_idx = i;
            }
            i = i + 1;
        }
        (best_idx, best_d2)
    }

    /// The influence this trajectory exerts at a point: its strength
    /// shrunk by the exponential-decay approximation of the squared gap
    /// to the nearest path point.
    pub fn influence_at(&self, coord: MandelbrotCoord) -> (r: i64)
        requires
            self.wf(),
            in_bounds(coord),
        ensures
            r == trajectory_influence_s(self.strength as int, min_dist_sq_s(self.path@, coord)),
            0 <= r <= self.strength,
    {
        let (_, d2) = self.closest_point(coord);
        let shrunk: i64 = div_trunc(d2, FP);
        decay_weight(self.strength, 20 * shrunk)
    }

    /// The point and symbol one step past the path point nearest to
    /// `current`, if the path goes on that far and carries a symbol there.
    pub fn suggest_next_coord(&self, current: MandelbrotCoord) -> (r: Option<
        (MandelbrotCoord, usize),
    >)
        requires
            self.wf(),
            in_bounds(current),
        ensures
            ({
                let idx = closest_idx_s(self.path@, current);
                if idx + 1 < self.path@.len() && idx + 1 < self.symbols@.len() {
                    r == Some((self.path@[idx + 1], self.symbols@[idx + 1]))
                } else {
                    r is None
                }
            }),
    {
        let (idx, _) = self.closest_point(current);
        let n = self.path.len();
        let m = self.symbols.len();
        if idx + 1 < n && idx + 1 < m {
            Some((self.path[idx + 1], self.symbols[idx + 1]))
        } else {
            None
        }
    }
}

/// A reinforced circular region of concept space.
#[derive(Clone, Debug)]
pub struct AssociativeField {
    pub center: MandelbrotCoord,
    pub radius: i64,
    pub strength: i64,
}

/// The influence a field of strength `strength` and radius `radius`
/// exerts at gap `d`: linear falloff from full strength at the center to
/// nothing at the rim.
pub open spec fn field_influence_s(strength: int, radius: int, d: int) -> int {
    if d <= radius {
        sdiv(strength * (radius - d), radius)
    } else {
        0
    }
}

impl AssociativeField {
    /// Structural soundness: an in-bounds center, a positive radius no
    /// wider than the rectangle, strength inside its range.
    pub open spec fn wf(self) -> bool {
        &&& in_bounds(self.center)
        &&& 0 < self.radius <= 2_000_000
        &&& 0 <= self.strength <= STRENGTH_MAX
    }

    /// A fresh field at full strength.
    pub fn new(center: MandelbrotCoord, radius: i64) -> (r: AssociativeField)
        ensures
            r.center == center,
            r.radius == radius,
            r.strength == FP,
    {
        AssociativeField { center, radius, strength: FP }
    }

    /// Whether a point lies inside the field, rim included.
    pub fn contains(&self, coord: MandelbrotCoord) -> (r: bool)
        requires
            self.wf(),
            in_bounds(coord),
        ensures
            r == (dist_sq_s(self.center, coord) <= self.radius * self.radius),
    {
        let d2 = dist_sq(self.center, coord);
        proof {
            assert(0 <= self.radius * self.radius <= 4_000_000_000_000) by (nonlinear_arith)
                requires
                    0 < self.radius <= 2_000_000,
            ;
        }
        d2 <= self.radius * self.radius
    }

    /// The influence this field exerts at a point: linear falloff with
    /// the gap to its center, zero outside the rim.
    pub fn influence_at(&self, coord: MandelbrotCoord) -> (r: i64)
        requires
            self.wf(),
            in_bounds(coord),
        ensures
            r == field_influence_s(
                self.strength as int,
                self.radius as int,
                sqrt_s(dist_sq_s(self.center, coord)),
            ),
            0 <= r <= self.strength,
    {
        let d = coord_distance_points(self.center, coord);
        if d <= self.radius {
            let gap: i64 = self.radius - d;
            proof {
                assert(0 <= self.strength * gap <= 1_000_000_000 * 2_000_000) by (nonlinear_arith)
                    requires
                        0 <= self.strength <= STRENGTH_MAX,
                        0 <= gap <= 2_000_000,
                ;
                vstd::arithmetic::div_mod::lemma_div_pos_is_pos(
                    self.strength * gap,
                    self.radius as int,
                );
                assert(self.strength * gap <= self.strength * self.radius) by (nonlinear_arith)
                    requires
                        0 <= self.strength,
                        gap <= self.radius,
                ;
                vstd::arithmetic::div_mod::lemma_div_is_ordered(
                    self.strength * gap,
                    self.strength * self.radius,
                    self.radius as int,
                );
                vstd::arithmetic::div_mod::lemma_div_multiples_vanish(
                    self.strength as int,
                    self.radius as int,
                );
            }
            (self.strength * gap) / self.radius
        } else {
            0
        }
    }

    /// Associations are encoded in the field's position and strength;
    /// there is nothing further to record.
    pub fn add_association(&mut self, _concept: String, _weight: i64)
        ensures
            *final(self) == *old(self),
    {
    }
}

} // verus!
