//! The generation engine: the stochastic walk over learned trajectories
//! that produces conscious responses, and its lighter background-thought
//! variant.  Each random draw goes through `crate::rng::random_below`;
//! everything after a draw is verified for every value the draw can take.
use vstd::prelude::*;

verus! {

use crate::fixed::{FP, fp_mul, div_trunc, clamp};
use crate::fractal::{
    MandelbrotCoord, in_bounds, find_nearby_interesting_points, RE_MIN, RE_MAX, IM_MIN, IM_MAX,
};
use crate::memory::{
    ConceptTrajectory, FractalSymbol, dist_sq, decay_strength_s, STRENGTH_MAX, STRENGTH_FLOOR,
};
use crate::mind::FractalMind;
use crate::rng::{random_below, total_weight, weighted_choice, weights_ok_s};
use crate::text::push_char;

/// Steps a just-used symbol stays suppressed.
pub const SYMBOL_REFRACTORY: u32 = 3;

/// Steps a just-used trajectory stays suppressed.
pub const TRAJECTORY_REFRACTORY: u32 = 2;

/// Strength gained by each trajectory actually used in a response (0.1).
pub const HEBBIAN_BONUS: i64 = 100_000;

/// Cap of a response, in symbols.
pub const RESPONSE_BUDGET: u32 = 100;

/// Cap of a background thought, in symbols.
pub const THOUGHT_BUDGET: u32 = 30;

/// Whether the store holds a symbol labeled `c`.
pub open spec fn is_label_s(syms: Seq<FractalSymbol>, c: char) -> bool {
    exists|k: int| 0 <= k < syms.len() && (#[trigger] syms[k]).label == Some(c)
}

/// Whether every character of a text is some stored symbol's label.
pub open spec fn all_chars_labeled_s(syms: Seq<FractalSymbol>, s: Seq<char>) -> bool {
    forall|i: int| 0 <= i < s.len() ==> is_label_s(syms, #[trigger] s[i])
}

/// Whether a label ends a sentence.
pub open spec fn is_terminator_s(c: char) -> bool {
    c == '.' || c == '!' || c == '?'
}

/// Whether no character of a text ends a sentence.
pub open spec fn no_terminators_s(s: Seq<char>) -> bool {
    forall|i: int| 0 <= i < s.len() ==> !is_terminator_s(#[trigger] s[i])
}

/// Whether a sentence terminator stands only as the last character.
pub open spec fn terminator_only_last_s(s: Seq<char>) -> bool {
    forall|i: int| 0 <= i < s.len() - 1 ==> !is_terminator_s(#[trigger] s[i])
}

/// Whether every inhibition counter is still positive.
pub open spec fn counters_pos_s(s: Seq<(usize, u32)>) -> bool {
    forall|k: int| 0 <= k < s.len() ==> (#[trigger] s[k]).1 >= 1
}

/// Every counter of a ticked inhibition list is positive: entries that
/// would have reached zero were dropped.
proof fn lemma_ticked_pos(s: Seq<(usize, u32)>, n: int)
    ensures
        counters_pos_s(ticked_prefix_s(s, n)),
    decreases n,
{
    if n > 0 {
        lemma_ticked_pos(s, n - 1);
        let rest = ticked_prefix_s(s, n - 1);
        if s[n - 1].1 > 1 {
            assert forall|k: int|
                0 <= k < ticked_prefix_s(s, n).len() implies (#[trigger] ticked_prefix_s(s, n)[
                k]).1 >= 1 by {
                if k < rest.len() {
                    assert(ticked_prefix_s(s, n)[k] == rest[k]);
                }
            }
        }
    }
}

/// An inhibition list after one step: every counter down by one, entries
/// that reached zero dropped.
pub open spec fn ticked_prefix_s(s: Seq<(usize, u32)>, n: int) -> Seq<(usize, u32)>
    decreases n,
{
    if n <= 0 {
        Seq::empty()
    } else {
        let rest = ticked_prefix_s(s, n - 1);
        if s[n - 1].1 > 1 {
            rest.push((s[n - 1].0, (s[n - 1].1 - 1) as u32))
        } else {
            rest
        }
    }
}

/// Whether the list holds an entry for the index.
pub open spec fn inhibited_s(s: Seq<(usize, u32)>, idx: int) -> bool {
    exists|k: int| 0 <= k < s.len() && (#[trigger] s[k]).0 == idx
}

/// One inhibition step: every counter down by one, entries at zero leave.
fn tick_inhibitions(v: &mut Vec<(usize, u32)>)
    ensures
        final(v)@ == ticked_prefix_s(old(v)@, old(v)@.len() as int),
{
    let n = v.len();
    let mut out: Vec<(usize, u32)> = Vec::new();
    let mut i: usize = 0;
    while i < n
        invariant
            i <= n,
            n == v@.len(),
            out@ == ticked_prefix_s(v@, i as int),
        decreases n - i,
    {
        let (idx, steps) = v[i];
        if steps > 1 {
            out.push((idx, steps - 1));
        }
        i = i + 1;
    }
    core::mem::swap(v, &mut out);
}

/// Whether the index is currently inhibited.
fn is_inhibited(v: &Vec<(usize, u32)>, idx: usize) -> (r: bool)
    ensures
        r == inhibited_s(v@, idx as int),
{
    let n = v.len();
    let mut i: usize = 0;
    while i < n
        invariant
            i <= n,
            n == v@.len(),
            forall|k: int| 0 <= k < i ==> (#[trigger] v@[k]).0 != idx,
        decreases n - i,
    {
        if v[i].0 == idx {
            return true;
        }
        i = i + 1;
    }
    false
}

/// A point jittered by an independent uniform draw of up to `amp`
/// micro-units per axis, clamped into the rectangle.
fn jitter_point(c: MandelbrotCoord, amp: i64) -> (r: MandelbrotCoord)
    requires
        in_bounds(c),
        1 <= amp <= 1_000_000,
    ensures
        in_bounds(r),
{
    let jr = random_below((2 * amp + 1) as u64) as i64 - amp;
    let ji = random_below((2 * amp + 1) as u64) as i64 - amp;
    MandelbrotCoord {
        re: clamp(c.re + jr, RE_MIN, RE_MAX),
        im: clamp(c.im + ji, IM_MIN, IM_MAX),
    }
}

/// The search point of one conscious step: mostly the walk position
/// itself, sometimes blended toward the background-thought position,
/// rarely a nearby interesting point.
fn choose_search_coord(current: MandelbrotCoord, background: Option<MandelbrotCoord>) -> (r:
    MandelbrotCoord)
    requires
        in_bounds(current),
        background matches Some(b) ==> in_bounds(b),
    ensures
        in_bounds(r),
{
    let roll = random_below(100);
    if roll < 85 {
        current
    } else if roll < 95 {
        match background {
            Some(bg) => {
                let re = div_trunc(current.re * 7 + bg.re * 3, 10);
                let im = div_trunc(current.im * 7 + bg.im * 3, 10);
                MandelbrotCoord {
                    re: clamp(re, RE_MIN, RE_MAX),
                    im: clamp(im, IM_MIN, IM_MAX),
                }
            },
            None => current,
        }
    } else {
        let nearby = find_nearby_interesting_points(current, 100_000, 3);
        if nearby.len() > 0 {
            nearby[0]
        } else {
            current
        }
    }
}

/// Raise the strength of every trajectory the walk used, saturating at
/// the ceiling; nothing else changes.
fn reinforce_used(trajs: &mut Vec<ConceptTrajectory>, used: &Vec<usize>)
    requires
        forall|t: int| 0 <= t < old(trajs)@.len() ==> (#[trigger] old(trajs)@[t]).wf(),
    ensures
        final(trajs)@.len() == old(trajs)@.len(),
        forall|t: int|
            #![trigger final(trajs)@[t]]
            0 <= t < old(trajs)@.len() ==> {
                let o = old(trajs)@[t];
                let nt = final(trajs)@[t];
                &&& nt.path == o.path
                &&& nt.symbols == o.symbols
                &&& nt.image_path == o.image_path
                &&& o.strength <= nt.strength <= STRENGTH_MAX
            },
{
    let n = used.len();
    let mut i: usize = 0;
    while i < n
        invariant
            i <= n,
            n == used@.len(),
            trajs@.len() == old(trajs)@.len(),
            forall|t: int|
                #![trigger trajs@[t]]
                0 <= t < old(trajs)@.len() ==> {
                    let o = old(trajs)@[t];
                    let nt = trajs@[t];
                    &&& nt.path == o.path
                    &&& nt.symbols == o.symbols
                    &&& nt.image_path == o.image_path
                    &&& o.strength <= nt.strength <= STRENGTH_MAX
                },
        decreases n - i,
    {
        let ti = used[i];
        if ti < trajs.len() {
            let s = trajs[ti].strength;
            trajs[ti].strength = if s > STRENGTH_MAX - HEBBIAN_BONUS {
                STRENGTH_MAX
            } else {
                s + HEBBIAN_BONUS
            };
        }
        i = i + 1;
    }
}

/// Decay every trajectory's strength once: multiplied by 0.995 and
/// floored at 0.1; nothing else changes.
fn decay_all_strengths(trajs: &mut Vec<ConceptTrajectory>)
    requires
        forall|t: int|
            0 <= t < old(trajs)@.len() ==> 0 <= (#[trigger] old(trajs)@[t]).strength
                <= STRENGTH_MAX,
    ensures
        final(trajs)@.len() == old(trajs)@.len(),
        forall|t: int|
            #![trigger final(trajs)@[t]]
            0 <= t < old(trajs)@.len() ==> {
                let o = old(trajs)@[t];
                let nt = final(trajs)@[t];
                &&& nt.path == o.path
                &&& nt.symbols == o.symbols
                &&& nt.image_path == o.image_path
                &&& nt.strength == decay_strength_s(o.strength as int)
                &&& STRENGTH_FLOOR <= nt.strength <= STRENGTH_MAX
            },
{
    let n = trajs.len();
    let mut t: usize = 0;
    while t < n
        invariant
            t <= n,
            n == trajs@.len(),
            n == old(trajs)@.len(),
            forall|u: int|
                0 <= u < old(trajs)@.len() ==> 0 <= (#[trigger] old(trajs)@[u]).strength
                    <= STRENGTH_MAX,
            forall|u: int|
                #![trigger trajs@[u]]
                0 <= u < t ==> {
                    let o = old(trajs)@[u];
                    let nt = trajs@[u];
                    &&& nt.path == o.path
                    &&& nt.symbols == o.symbols
                    &&& nt.image_path == o.image_path
                    &&& nt.strength == decay_strength_s(o.strength as int)
                    &&& STRENGTH_FLOOR <= nt.strength <= STRENGTH_MAX
                },
            forall|u: int| t <= u < n ==> #[trigger] trajs@[u] == old(trajs)@[u],
        decreases n - t,
    {
        proof {
            crate::memory::lemma_decay_step(trajs@[t as int].strength as int);
        }
        let s = trajs[t].strength;
        let d = div_trunc(995 * s, 1000);
        trajs[t].strength = if d < STRENGTH_FLOOR {
            STRENGTH_FLOOR
        } else {
            d
        };
        t = t + 1;
    }
}

impl FractalMind {
    /// Candidate symbols for one step of the walk: for every uninhibited
    /// trajectory close enough to the search point, the symbol at (or
    /// just past, on the trajectory used last) its nearest path index,
    /// weighted by influence, strength and a length bonus; plus, for
    /// every field near the search point, the first symbol of each
    /// trajectory starting inside it, weighted by the field's strength.
    fn build_candidates(&self, search: MandelbrotCoord, last_traj: Option<usize>) -> (r: (
        Vec<(usize, usize)>,
        Vec<i64>,
    ))
        requires
            self.wf(),
            in_bounds(search),
        ensures
            r.0@.len() == r.1@.len(),
            weights_ok_s(r.1@, 4_000_000_000_000),
            forall|q: int|
                0 <= q < r.0@.len() ==> (#[trigger] r.0@[q]).0 < self.trajectories@.len()
                    && r.0@[q].1 < self.symbols@.len(),
    {
        let mut cands: Vec<(usize, usize)> = Vec::new();
        let mut weights: Vec<i64> = Vec::new();
        let er = self.exploration_radius;
        let tn = self.trajectories.len();
        let mut ti: usize = 0;
        while ti < tn
            invariant
                ti <= tn,
                tn == self.trajectories@.len(),
                self.wf(),
                in_bounds(search),
                er == self.exploration_radius,
                cands@.len() == weights@.len(),
                weights_ok_s(weights@, 4_000_000_000_000),
                forall|q: int|
                    0 <= q < cands@.len() ==> (#[trigger] cands@[q]).0
                        < self.trajectories@.len() && cands@[q].1 < self.symbols@.len(),
            decreases tn - ti,
        {
            if !is_inhibited(&self.inhibited_trajectories, ti) {
                let plen = self.trajectories[ti].path.len();
                let (closest_idx, d2) = self.trajectories[ti].closest_point(search);
                proof {
                    assert(closest_idx < plen);
                }
                let next_idx = match last_traj {
                    Some(lt) => if lt == ti {
                        closest_idx + 1
                    } else {
                        closest_idx
                    },
                    None => closest_idx,
                };
                proof {
                    assert(0 <= er * 10 * (er * 10) <= 400_000_000_000_000) by (nonlinear_arith)
                        requires
                            0 < er <= 2_000_000,
                    ;
                }
                if d2 < (er * 10) * (er * 10) && next_idx < self.trajectories[ti].symbols.len() {
                    let si = self.trajectories[ti].symbols[next_idx];
                    if !is_inhibited(&self.inhibited_symbols, si) {
                        let influence = self.trajectories[ti].influence_at(search);
                        let strength = self.trajectories[ti].strength;
                        let base = fp_mul(influence, strength);
                        proof {
                            assert(0 <= influence * strength <= 1_000_000_000_000_000_000)
                                by (nonlinear_arith)
                                requires
                                    0 <= influence <= 1_000_000_000,
                                    0 <= strength <= 1_000_000_000,
                            ;
                            crate::fixed::lemma_sdiv_bounds(
                                influence as int * strength as int,
                                FP as int,
                                1_000_000_000_000_000_000,
                            );
                            vstd::arithmetic::div_mod::lemma_div_is_ordered(
                                influence as int * strength as int,
                                1_000_000_000_000_000_000,
                                FP as int,
                            );
                            assert(1_000_000_000_000_000_000int / 1_000_000int
                                == 1_000_000_000_000) by {
                                vstd::arithmetic::div_mod::lemma_fundamental_div_mod_converse(
                                    1_000_000_000_000_000_000,
                                    1_000_000,
                                    1_000_000_000_000,
                                    0,
                                );
                            }
                            vstd::arithmetic::div_mod::lemma_div_pos_is_pos(
                                influence as int * strength as int,
                                FP as int,
                            );
                        }
                        let weight = if self.trajectories[ti].symbols.len() > 5 {
                            base * 2
                        } else {
                            base / 2
                        };
                        cands.push((ti, si));
                        weights.push(weight);
                    }
                }
            }
            ti = ti + 1;
        }
        // Field candidates: distant but associated patterns.
        let fnum = self.associative_fields.len();
        let mut fi: usize = 0;
        while fi < fnum
            invariant
                fi <= fnum,
                fnum == self.associative_fields@.len(),
                tn == self.trajectories@.len(),
                self.wf(),
                in_bounds(search),
                cands@.len() == weights@.len(),
                weights_ok_s(weights@, 4_000_000_000_000),
                forall|q: int|
                    0 <= q < cands@.len() ==> (#[trigger] cands@[q]).0
                        < self.trajectories@.len() && cands@[q].1 < self.symbols@.len(),
            decreases fnum - fi,
        {
            let fd2 = dist_sq(search, self.associative_fields[fi].center);
            let rad = self.associative_fields[fi].radius;
            proof {
                assert(0 <= 3 * rad * (3 * rad) <= 36_000_000_000_000) by (nonlinear_arith)
                    requires
                        0 < rad <= 2_000_000,
                ;
            }
            if fd2 < (3 * rad) * (3 * rad) {
                let mut tj: usize = 0;
                while tj < tn
                    invariant
                        tj <= tn,
                        fi < fnum,
                        fnum == self.associative_fields@.len(),
                        tn == self.trajectories@.len(),
                        self.wf(),
                        in_bounds(search),
                        cands@.len() == weights@.len(),
                        weights_ok_s(weights@, 4_000_000_000_000),
                        forall|q: int|
                            0 <= q < cands@.len() ==> (#[trigger] cands@[q]).0
                                < self.trajectories@.len() && cands@[q].1
                                < self.symbols@.len(),
                    decreases tn - tj,
                {
                    if self.trajectories[tj].symbols.len() > 0 {
                        let start = self.trajectories[tj].path[0];
                        proof {
                            assert(in_bounds(self.trajectories@[tj as int].path@[0]));
                        }
                        if self.associative_fields[fi].contains(start) {
                            let si = self.trajectories[tj].symbols[0];
                            cands.push((tj, si));
                            weights.push(self.associative_fields[fi].strength / 2);
                        }
                    }
                    tj = tj + 1;
                }
            }
            fi = fi + 1;
        }
        (cands, weights)
    }

    /// Generate a conscious response: up to the step budget of symbols,
    /// chosen by weighted random draws over the candidate lists, walked
    /// from the contextual position, with refractory inhibition of
    /// just-used symbols and trajectories.  Used trajectories gain
    /// strength, then every trajectory decays once.  The result is never
    /// empty, never longer than the budget, carries only stored symbols'
    /// labels (unless it is the placeholder), and a sentence terminator
    /// can stand only as its last character.  An aggregate with nothing
    /// learned gets the placeholder unchanged.
    #[verifier::rlimit(100)]
    pub fn generate_response(&mut self, _input: &str) -> (r: String)
        requires
            old(self).wf(),
        ensures
            final(self).wf(),
            1 <= r@.len() <= RESPONSE_BUDGET,
            r@ == seq!['?'] || all_chars_labeled_s(final(self).symbols@, r@),
            terminator_only_last_s(r@),
            (old(self).trajectories@.len() == 0 || old(self).symbols@.len() == 0) ==> (r@
                == seq!['?'] && *final(self) == *old(self)),
            final(self).trajectories@.len() == old(self).trajectories@.len(),
            final(self).symbols == old(self).symbols,
            final(self).associative_fields == old(self).associative_fields,
            final(self).context_history == old(self).context_history,
            final(self).symbol_history == old(self).symbol_history,
            final(self).contextual_coord == old(self).contextual_coord,
            final(self).background_thought_coord == old(self).background_thought_coord,
            final(self).scale == old(self).scale,
            final(self).exploration_radius == old(self).exploration_radius,
            old(self).trajectories@.len() > 0 && old(self).symbols@.len() > 0 ==> {
                &&& final(self).last_output@ == r@
                &&& counters_pos_s(final(self).inhibited_symbols@)
                &&& counters_pos_s(final(self).inhibited_trajectories@)
                &&& (forall|t: int|
                    #![trigger final(self).trajectories@[t]]
                    0 <= t < old(self).trajectories@.len() ==> {
                        let o = old(self).trajectories@[t];
                        let nt = final(self).trajectories@[t];
                        &&& nt.path == o.path
                        &&& nt.symbols == o.symbols
                        &&& nt.image_path == o.image_path
                        &&& (exists|s: int|
                            o.strength <= s <= STRENGTH_MAX && nt.strength == decay_strength_s(
                                s,
                            ))
                        &&& STRENGTH_FLOOR <= nt.strength <= STRENGTH_MAX
                    })
            },
    {
        let ghost m0 = *old(self);
        if self.trajectories.len() == 0 || self.symbols.len() == 0 {
            let mut out = String::new();
            push_char(&mut out, '?');
            proof {
                assert(out@ =~= seq!['?']);
            }
            return out;
        }
        let mut response = String::new();
        let mut current = self.contextual_coord;
        let mut used: Vec<usize> = Vec::new();
        let mut last_traj: Option<usize> = None;
        let mut step: u32 = 0;
        #[verifier::loop_isolation(true)]
        while step < RESPONSE_BUDGET
            invariant_except_break
                response@.len() <= step,
                no_terminators_s(response@),
            invariant
                step <= RESPONSE_BUDGET,
                self.wf(),
                in_bounds(current),
                self.symbols == m0.symbols,
                self.trajectories == m0.trajectories,
                self.associative_fields == m0.associative_fields,
                self.context_history == m0.context_history,
                self.symbol_history == m0.symbol_history,
                self.contextual_coord == m0.contextual_coord,
                self.background_thought_coord == m0.background_thought_coord,
                self.current_coord == m0.current_coord,
                self.last_output == m0.last_output,
                self.scale == m0.scale,
                self.exploration_radius == m0.exploration_radius,
                all_chars_labeled_s(self.symbols@, response@),
                step >= 1 ==> counters_pos_s(self.inhibited_symbols@) && counters_pos_s(
                    self.inhibited_trajectories@,
                ),
            ensures
                self.wf(),
                self.symbols == m0.symbols,
                self.trajectories == m0.trajectories,
                self.associative_fields == m0.associative_fields,
                self.context_history == m0.context_history,
                self.symbol_history == m0.symbol_history,
                self.contextual_coord == m0.contextual_coord,
                self.background_thought_coord == m0.background_thought_coord,
                self.current_coord == m0.current_coord,
                self.last_output == m0.last_output,
                self.scale == m0.scale,
                self.exploration_radius == m0.exploration_radius,
                in_bounds(current),
                response@.len() <= RESPONSE_BUDGET,
                terminator_only_last_s(response@),
                all_chars_labeled_s(self.symbols@, response@),
                counters_pos_s(self.inhibited_symbols@),
                counters_pos_s(self.inhibited_trajectories@),
            decreases RESPONSE_BUDGET - step,
        {
            let ghost pre_s = self.inhibited_symbols@;
            tick_inhibitions(&mut self.inhibited_symbols);
            let ghost pre_t = self.inhibited_trajectories@;
            tick_inhibitions(&mut self.inhibited_trajectories);
            proof {
                lemma_ticked_pos(pre_s, pre_s.len() as int);
                lemma_ticked_pos(pre_t, pre_t.len() as int);
            }
            let search = choose_search_coord(current, self.background_thought_coord);
            let (cands, weights) = self.build_candidates(search, last_traj);
            if cands.len() == 0 {
                break ;
            }
            let total = total_weight(&weights);
            if total <= 0 {
                break ;
            }
            let bound: u64 = if total > 0xffff_ffff_ffff_ffff {
                0xffff_ffff_ffff_ffff
            } else {
                total as u64
            };
            let rv = random_below(bound);
            let ci = weighted_choice(&weights, rv);
            let (ti, si) = cands[ci];
            used.push(ti);
            let ghost ticked_s = self.inhibited_symbols@;
            let ghost ticked_t = self.inhibited_trajectories@;
            self.inhibited_symbols.push((si, SYMBOL_REFRACTORY));
            self.inhibited_trajectories.push((ti, TRAJECTORY_REFRACTORY));
            proof {
                assert forall|k2: int|
                    0 <= k2 < self.inhibited_symbols@.len() implies (
                #[trigger] self.inhibited_symbols@[k2]).1 >= 1 by {
                    if k2 < ticked_s.len() {
                        assert(self.inhibited_symbols@[k2] == ticked_s[k2]);
                    } else {
                        assert(self.inhibited_symbols@[k2] == (si, SYMBOL_REFRACTORY));
                    }
                }
                assert forall|k2: int|
                    0 <= k2 < self.inhibited_trajectories@.len() implies (
                #[trigger] self.inhibited_trajectories@[k2]).1 >= 1 by {
                    if k2 < ticked_t.len() {
                        assert(self.inhibited_trajectories@[k2] == ticked_t[k2]);
                    } else {
                        assert(self.inhibited_trajectories@[k2] == (ti, TRAJECTORY_REFRACTORY));
                    }
                }
            }
            last_traj = Some(ti);
            let mut stop = false;
            let ghost resp_pre = response@;
            match self.symbols[si].label {
                Some(label) => {
                    push_char(&mut response, label);
                    proof {
                        assert(self.symbols@[si as int].label == Some(label));
                        assert(is_label_s(self.symbols@, label));
                        assert forall|i2: int|
                            0 <= i2 < response@.len() implies is_label_s(
                            self.symbols@,
                            #[trigger] response@[i2],
                        ) by {
                            if i2 < resp_pre.len() {
                                assert(response@[i2] == resp_pre[i2]);
                            }
                        }
                    }
                    if label == '.' || label == '!' || label == '?' {
                        stop = true;
                    }
                },
                None => {},
            }
            if stop {
                // A sentence ends here: the walk does not advance past
                // the terminator.
                proof {
                    assert forall|i2: int|
                        0 <= i2 < response@.len() - 1 implies !is_terminator_s(
                        #[trigger] response@[i2],
                    ) by {
                        assert(response@[i2] == resp_pre[i2]);
                    }
                }
                break ;
            }
            let sug = self.trajectories[ti].suggest_next_coord(current);
            match sug {
                Some((next, _)) => {
                    proof {
                        assert(self.trajectories@[ti as int].wf());
                        let p = self.trajectories@[ti as int].path@;
                        let ci2 = crate::memory::closest_idx_s(p, current);
                        crate::memory::lemma_first_min_idx_props(p, current, p.len());
                        assert(sug is Some);
                        assert(ci2 + 1 < p.len() && ci2 + 1 < self.trajectories@[
                            ti as int].symbols@.len()) by {
                            if !(ci2 + 1 < p.len() && ci2 + 1 < self.trajectories@[
                                ti as int].symbols@.len()) {
                                assert(sug is None);
                            }
                        }
                        assert(in_bounds(self.trajectories@[ti as int].path@[ci2 + 1]));
                    }
                    current = next;
                },
                None => {},
            }
            proof {
                assert forall|i2: int|
                    0 <= i2 < response@.len() implies !is_terminator_s(
                    #[trigger] response@[i2],
                ) by {
                    if i2 < resp_pre.len() {
                        assert(response@[i2] == resp_pre[i2]);
                    }
                }
            }
            step = step + 1;
        }
        self.current_coord = current;
        reinforce_used(&mut self.trajectories, &used);
        let ghost mid = self.trajectories@;
        decay_all_strengths(&mut self.trajectories);
        proof {
            assert forall|t: int| 0 <= t < m0.trajectories@.len() implies exists|s: int|
                m0.trajectories@[t].strength <= s <= STRENGTH_MAX && (
                #[trigger] self.trajectories@[t]).strength == decay_strength_s(s) by {
                assert(m0.trajectories@[t].strength <= mid[t].strength <= STRENGTH_MAX);
                assert(self.trajectories@[t].strength == decay_strength_s(
                    mid[t].strength as int,
                ));
            }
        }
        let out = if response.as_str().is_empty() {
            let mut q = String::new();
            push_char(&mut q, '?');
            proof {
                assert(q@ =~= seq!['?']);
            }
            q
        } else {
            response
        };
        self.last_output = out.clone();
        out
    }

    /// Generate a background thought: a shorter, unguided wander from a
    /// jittered start, without inhibition bookkeeping or reinforcement.
    /// The thought is at most the thought budget long, carries only
    /// stored symbols' labels, and a sentence terminator can stand only
    /// as its last character.  With nothing learned it returns the empty
    /// string and changes nothing; otherwise only the background-thought
    /// position moves, and it is set.
    #[verifier::rlimit(100)]
    pub fn generate_background_thought(&mut self) -> (r: String)
        requires
            old(self).wf(),
        ensures
            final(self).wf(),
            r@.len() <= THOUGHT_BUDGET,
            all_chars_labeled_s(final(self).symbols@, r@),
            terminator_only_last_s(r@),
            (old(self).trajectories@.len() == 0 || old(self).symbols@.len() == 0) ==> (r@.len()
                == 0 && *final(self) == *old(self)),
            old(self).trajectories@.len() > 0 && old(self).symbols@.len() > 0
                ==> final(self).background_thought_coord is Some,
            final(self).symbols == old(self).symbols,
            final(self).trajectories == old(self).trajectories,
            final(self).associative_fields == old(self).associative_fields,
            final(self).context_history == old(self).context_history,
            final(self).symbol_history == old(self).symbol_history,
            final(self).contextual_coord == old(self).contextual_coord,
            final(self).current_coord == old(self).current_coord,
            final(self).last_output == old(self).last_output,
            final(self).inhibited_symbols == old(self).inhibited_symbols,
            final(self).inhibited_trajectories == old(self).inhibited_trajectories,
            final(self).scale == old(self).scale,
            final(self).exploration_radius == old(self).exploration_radius,
    {
        let ghost m0 = *old(self);
        if self.trajectories.len() == 0 || self.symbols.len() == 0 {
            return String::new();
        }
        let mut thought = String::new();
        let mut current = jitter_point(self.current_coord, 150_000);
        let mut step: u32 = 0;
        #[verifier::loop_isolation(true)]
        while step < THOUGHT_BUDGET
            invariant_except_break
                thought@.len() <= step,
                no_terminators_s(thought@),
            invariant
                step <= THOUGHT_BUDGET,
                self.wf(),
                in_bounds(current),
                *self == m0,
                all_chars_labeled_s(self.symbols@, thought@),
            ensures
                *self == m0,
                self.wf(),
                in_bounds(current),
                thought@.len() <= THOUGHT_BUDGET,
                terminator_only_last_s(thought@),
                all_chars_labeled_s(self.symbols@, thought@),
            decreases THOUGHT_BUDGET - step,
        {
            let roll = random_below(100);
            let search = if roll < 50 {
                current
            } else if roll < 80 {
                let nearby = find_nearby_interesting_points(current, 300_000, 5);
                if nearby.len() > 0 {
                    nearby[0]
                } else {
                    current
                }
            } else {
                let nearby = find_nearby_interesting_points(current, 500_000, 10);
                if nearby.len() > 0 {
                    let pick = random_below(nearby.len() as u64) as usize;
                    nearby[pick]
                } else {
                    current
                }
            };
            // Candidates: every trajectory close enough, at its nearest
            // index, weighted by influence and strength alone.
            let er = self.exploration_radius;
            let tn = self.trajectories.len();
            let mut cands: Vec<(usize, usize)> = Vec::new();
            let mut weights: Vec<i64> = Vec::new();
            let mut ti: usize = 0;
            while ti < tn
                invariant
                    ti <= tn,
                    tn == self.trajectories@.len(),
                    self.wf(),
                    in_bounds(search),
                    er == self.exploration_radius,
                    cands@.len() == weights@.len(),
                    weights_ok_s(weights@, 4_000_000_000_000),
                    forall|q: int|
                        0 <= q < cands@.len() ==> (#[trigger] cands@[q]).0
                            < self.trajectories@.len() && cands@[q].1 < self.symbols@.len(),
                decreases tn - ti,
            {
                let (closest_idx, d2) = self.trajectories[ti].closest_point(search);
                proof {
                    assert(0 <= er * 15 * (er * 15) <= 900_000_000_000_000) by (nonlinear_arith)
                        requires
                            0 < er <= 2_000_000,
                    ;
                }
                if d2 < (er * 15) * (er * 15) && closest_idx < self.trajectories[ti].symbols.len() {
                    let influence = self.trajectories[ti].influence_at(search);
                    let strength = self.trajectories[ti].strength;
                    let w = fp_mul(influence, strength);
                    proof {
                        assert(0 <= influence * strength <= 1_000_000_000_000_000_000)
                            by (nonlinear_arith)
                            requires
                                0 <= influence <= 1_000_000_000,
                                0 <= strength <= 1_000_000_000,
                        ;
                        crate::fixed::lemma_sdiv_bounds(
                            influence as int * strength as int,
                            FP as int,
                            1_000_000_000_000_000_000,
                        );
                        vstd::arithmetic::div_mod::lemma_div_is_ordered(
                            influence as int * strength as int,
                            1_000_000_000_000_000_000,
                            FP as int,
                        );
                        assert(1_000_000_000_000_000_000int / 1_000_000int == 1_000_000_000_000)
                            by {
                            vstd::arithmetic::div_mod::lemma_fundamental_div_mod_converse(
                                1_000_000_000_000_000_000,
                                1_000_000,
                                1_000_000_000_000,
                                0,
                            );
                        }
                        vstd::arithmetic::div_mod::lemma_div_pos_is_pos(
                            influence as int * strength as int,
                            FP as int,
                        );
                    }
                    let si = self.trajectories[ti].symbols[closest_idx];
                    cands.push((ti, si));
                    weights.push(w);
                }
                ti = ti + 1;
            }
            if cands.len() == 0 {
                break ;
            }
            let total = total_weight(&weights);
            if total <= 0 {
                break ;
            }
            let bound: u64 = if total > 0xffff_ffff_ffff_ffff {
                0xffff_ffff_ffff_ffff
            } else {
                total as u64
            };
            let rv = random_below(bound);
            let ci = weighted_choice(&weights, rv);
            let (ti2, si) = cands[ci];
            let mut stop = false;
            let ghost th_pre = thought@;
            match self.symbols[si].label {
                Some(label) => {
                    push_char(&mut thought, label);
                    proof {
                        assert(self.symbols@[si as int].label == Some(label));
                        assert(is_label_s(self.symbols@, label));
                        assert forall|i2: int|
                            0 <= i2 < thought@.len() implies is_label_s(
                            self.symbols@,
                            #[trigger] thought@[i2],
                        ) by {
                            if i2 < th_pre.len() {
                                assert(thought@[i2] == th_pre[i2]);
                            }
                        }
                    }
                    if label == '.' || label == '!' || label == '?' {
                        stop = true;
                    }
                },
                None => {},
            }
            if stop {
                // The thought ends here: the wander does not advance
                // past the terminator.
                proof {
                    assert forall|i2: int|
                        0 <= i2 < thought@.len() - 1 implies !is_terminator_s(
                        #[trigger] thought@[i2],
                    ) by {
                        assert(thought@[i2] == th_pre[i2]);
                    }
                }
                break ;
            }
            let sug = self.trajectories[ti2].suggest_next_coord(current);
            match sug {
                Some((next, _)) => {
                    proof {
                        assert(self.trajectories@[ti2 as int].wf());
                        let p = self.trajectories@[ti2 as int].path@;
                        let ci2 = crate::memory::closest_idx_s(p, current);
                        crate::memory::lemma_first_min_idx_props(p, current, p.len());
                        assert(sug is Some);
                        assert(ci2 + 1 < p.len() && ci2 + 1 < self.trajectories@[
                            ti2 as int].symbols@.len()) by {
                            if !(ci2 + 1 < p.len() && ci2 + 1 < self.trajectories@[
                                ti2 as int].symbols@.len()) {
                                assert(sug is None);
                            }
                        }
                        assert(in_bounds(self.trajectories@[ti2 as int].path@[ci2 + 1]));
                    }
                    current = jitter_point(next, 50_000);
                },
                None => {},
            }
            proof {
                assert forall|i2: int|
                    0 <= i2 < thought@.len() implies !is_terminator_s(
                    #[trigger] thought@[i2],
                ) by {
                    if i2 < th_pre.len() {
                        assert(thought@[i2] == th_pre[i2]);
                    }
                }
            }
            step = step + 1;
        }
        self.background_thought_coord = Some(current);
        thought
    }
}

} // verus!
