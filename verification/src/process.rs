//! The processing pipeline: hierarchical multi-scale learning of one
//! input (whole text, words, character prefix), context-window upkeep,
//! and the query operations over the learned material.
use vstd::prelude::*;

verus! {

use vstd::string::{StrSliceExecFns, StringExecFns};
use crate::fixed::{FP, sdiv, div_trunc};
use crate::fractal::{
    MandelbrotCoord, in_bounds, point_from_text_s, contextual_coord_s, hash_to_mandelbrot_coord,
    contextual_mandelbrot_coord, find_nearby_interesting_points,
};
use crate::memory::{dist_sq_s, dist_sq, decay_weight};
use crate::mind::{FractalMind, learn_post, INTENSITY_FIELD_MIN, CONTEXT_CAP};
use crate::rng::{random_below, total_weight, weighted_choice, weights_ok_s};
use crate::text::{
    split_whitespace_words, join_with_spaces, char_prefix, views_of_s, join_ws_s, split_ws_s,
    char_prefix_s, lemma_split_words_nonempty, push_char,
};
use crate::generate::{
    RESPONSE_BUDGET, all_chars_labeled_s, is_label_s, terminator_only_last_s,
};
use crate::memory::FractalSymbol;

/// The context window after one input: intense enough inputs enter it,
/// and the oldest leaves when it overflows.
pub open spec fn ctx_views_after_s(views: Seq<Seq<char>>, input: Seq<char>, base: int) -> Seq<
    Seq<char>,
> {
    if base > INTENSITY_FIELD_MIN {
        let h = views.push(input);
        if h.len() > CONTEXT_CAP {
            h.skip(1)
        } else {
            h
        }
    } else {
        views
    }
}

/// Whether some trajectory carries exactly this image path.
pub open spec fn image_sourced_s(trajs: Seq<crate::memory::ConceptTrajectory>, name: Seq<char>) -> bool {
    exists|u: int|
        0 <= u < trajs.len() && ((#[trigger] trajs[u]).image_path matches Some(p) && p@ == name)
}

/// Whether a trajectory offers a next-step suggestion at a point: its
/// path goes on past the nearest index, carries a symbol there, and its
/// influence at the point is strong enough.
pub open spec fn suggests_at_s(tr: crate::memory::ConceptTrajectory, coord: MandelbrotCoord) -> bool {
    let ci = crate::memory::closest_idx_s(tr.path@, coord);
    &&& ci + 1 < tr.path@.len()
    &&& ci + 1 < tr.symbols@.len()
    &&& crate::memory::trajectory_influence_s(
        tr.strength as int,
        crate::memory::min_dist_sq_s(tr.path@, coord),
    ) > 100_000
}

/// The suggested next step of a trajectory at a point.
pub open spec fn suggestion_of_s(tr: crate::memory::ConceptTrajectory, coord: MandelbrotCoord) -> (
    MandelbrotCoord,
    usize,
) {
    let ci = crate::memory::closest_idx_s(tr.path@, coord);
    (tr.path@[ci + 1], tr.symbols@[ci + 1])
}

/// The position of grid cell (row, col) in a rendered grid of the given
/// width, each row ending in a line break.
pub open spec fn grid_pos_s(width: int, row: int, col: int) -> int {
    row * (width + 1) + col
}

/// Whether a rendered grid cell is a blank or a stored symbol's label.
pub open spec fn grid_cell_ok_s(syms: Seq<FractalSymbol>, c: char) -> bool {
    c == ' ' || is_label_s(syms, c)
}

impl FractalMind {
    /// Learn a concept at full intensity.
    fn learn_concept(&mut self, concept: &str)
        requires
            old(self).wf(),
        ensures
            learn_post(*old(self), *final(self), concept@, FP as int, None),
    {
        self.learn_concept_with_intensity_and_image(concept, FP, None)
    }

    /// Learn a concept at the given intensity.
    fn learn_concept_with_intensity(&mut self, concept: &str, intensity: i64)
        requires
            old(self).wf(),
            0 <= intensity <= FP,
        ensures
            learn_post(*old(self), *final(self), concept@, intensity as int, None),
    {
        self.learn_concept_with_intensity_and_image(concept, intensity, None)
    }

    /// Learn a concept whose trajectory remembers a source image.
    pub fn learn_concept_with_image(&mut self, concept: &str, intensity: i64, image_path: String)
        requires
            old(self).wf(),
            0 <= intensity <= FP,
        ensures
            learn_post(
                *old(self),
                *final(self),
                concept@,
                intensity as int,
                Some(image_path),
            ),
    {
        self.learn_concept_with_intensity_and_image(concept, intensity, Some(image_path))
    }

    /// Multi-scale learning of one input: the whole text at 0.8 of the
    /// base intensity, each word at 0.4 when there are several, and the
    /// deduplicated character prefix at 0.1 for intense inputs; an
    /// intense input also enters the context window, and the contextual
    /// position is fixed from the input and the window before any
    /// learning overwrites the walk position.
    pub fn process_hierarchical(&mut self, input: &str, base_intensity: i64)
        requires
            old(self).wf(),
            0 <= base_intensity <= FP,
        ensures
            final(self).wf(),
            views_of_s(final(self).context_history@) == ctx_views_after_s(
                views_of_s(old(self).context_history@),
                input@,
                base_intensity as int,
            ),
            final(self).contextual_coord == contextual_coord_s(
                point_from_text_s(input@),
                point_from_text_s(
                    join_ws_s(
                        ctx_views_after_s(
                            views_of_s(old(self).context_history@),
                            input@,
                            base_intensity as int,
                        ),
                    ),
                ),
                sdiv(7 * base_intensity as int, 10),
            ),
            final(self).trajectories@.len() == old(self).trajectories@.len() + (
            if input@.len() > 0 {
                1int
            } else {
                0int
            }) + (
            if split_ws_s(input@).len() > 1 {
                split_ws_s(input@).len() as int
            } else {
                0int
            }) + (
            if base_intensity > 500_000 && char_prefix_s(input@).len() > 0 {
                1int
            } else {
                0int
            }),
            input@.len() > 0 ==> final(self).trajectories@.len() > old(
                self,
            ).trajectories@.len(),
            final(self).scale == old(self).scale,
            final(self).exploration_radius == old(self).exploration_radius,
            final(self).last_output == old(self).last_output,
            final(self).background_thought_coord == old(self).background_thought_coord,
            final(self).inhibited_symbols == old(self).inhibited_symbols,
            final(self).inhibited_trajectories == old(self).inhibited_trajectories,
    {
        let ghost m0 = *old(self);
        if base_intensity > INTENSITY_FIELD_MIN {
            let owned = input.to_owned();
            proof {
                assert(views_of_s(self.context_history@.push(owned)) =~= views_of_s(
                    self.context_history@,
                ).push(input@));
            }
            self.context_history.push(owned);
            if self.context_history.len() > CONTEXT_CAP {
                proof {
                    assert(views_of_s(self.context_history@.remove(0)) =~= views_of_s(
                        self.context_history@,
                    ).skip(1));
                }
                self.context_history.remove(0);
            }
        }
        proof {
            assert(views_of_s(self.context_history@) == ctx_views_after_s(
                views_of_s(m0.context_history@),
                input@,
                base_intensity as int,
            ));
        }
        let context = join_with_spaces(&self.context_history);
        let chunk_coord = hash_to_mandelbrot_coord(input);
        let influence = div_trunc(7 * base_intensity, 10);
        proof {
            crate::fixed::lemma_sdiv_bounds(7 * base_intensity as int, 10, 7_000_000);
            vstd::arithmetic::div_mod::lemma_div_is_ordered(
                7 * base_intensity as int,
                7_000_000,
                10,
            );
        }
        let contextual_position = contextual_mandelbrot_coord(
            chunk_coord,
            context.as_str(),
            influence,
        );
        self.contextual_coord = contextual_position;
        let ghost ctx_views = views_of_s(self.context_history@);
        let ghost goal_contextual = self.contextual_coord;
        let ghost hist_after = self.context_history;
        self.learn_concept_with_intensity(input, div_trunc(8 * base_intensity, 10));
        let ghost t_after_first = self.trajectories@.len();
        proof {
            assert(t_after_first == m0.trajectories@.len() + if input@.len() > 0 {
                1int
            } else {
                0int
            });
            lemma_split_words_nonempty(input@);
        }
        let words = split_whitespace_words(input);
        if words.len() > 1 {
            let mut w: usize = 0;
            while w < words.len()
                invariant
                    w <= words@.len(),
                    views_of_s(words@) == split_ws_s(input@),
                    split_ws_s(input@).len() > 1,
                    forall|k: int|
                        0 <= k < split_ws_s(input@).len() ==> (#[trigger] split_ws_s(input@)[
                            k]).len() > 0,
                    self.wf(),
                    self.contextual_coord == goal_contextual,
                    self.context_history == hist_after,
                    self.trajectories@.len() == t_after_first + w,
                    self.scale == m0.scale,
                    self.exploration_radius == m0.exploration_radius,
                    self.last_output == m0.last_output,
                    self.background_thought_coord == m0.background_thought_coord,
                    self.inhibited_symbols == m0.inhibited_symbols,
                    self.inhibited_trajectories == m0.inhibited_trajectories,
                    0 <= base_intensity <= FP,
                decreases words@.len() - w,
            {
                proof {
                    assert(views_of_s(words@)[w as int] == words@[w as int]@);
                    assert(words@[w as int]@.len() > 0);
                }
                let wi = div_trunc(4 * base_intensity, 10);
                self.learn_concept_with_intensity(words[w].as_str(), wi);
                w = w + 1;
            }
            proof {
                assert(words@.len() == split_ws_s(input@).len());
            }
        } else {
            proof {
                assert(words@.len() == views_of_s(words@).len());
            }
        }
        if base_intensity > 500_000 {
            let chars = char_prefix(input);
            if !chars.as_str().is_empty() {
                self.learn_concept_with_intensity(chars.as_str(), div_trunc(base_intensity, 10));
            }
        }
    }

    /// Process one input at the given intensity: learn it at several
    /// scales per `process_hierarchical`, track the background-thought
    /// position for quiet inputs, prune the symbol store, and generate
    /// the response.  The response is never empty, never longer than the
    /// generation budget, carries only stored symbols' labels unless it
    /// is the placeholder, and becomes the last output.
    pub fn process_with_intensity(&mut self, input: &str, intensity: i64) -> (r: String)
        requires
            old(self).wf(),
            0 <= intensity <= FP,
        ensures
            final(self).wf(),
            1 <= r@.len() <= RESPONSE_BUDGET,
            r@ == seq!['?'] || all_chars_labeled_s(final(self).symbols@, r@),
            terminator_only_last_s(r@),
            final(self).last_output@ == r@ || r@ == seq!['?'],
            views_of_s(final(self).context_history@) == ctx_views_after_s(
                views_of_s(old(self).context_history@),
                input@,
                intensity as int,
            ),
            final(self).contextual_coord == contextual_coord_s(
                point_from_text_s(input@),
                point_from_text_s(
                    join_ws_s(
                        ctx_views_after_s(
                            views_of_s(old(self).context_history@),
                            input@,
                            intensity as int,
                        ),
                    ),
                ),
                sdiv(7 * intensity as int, 10),
            ),
            intensity < INTENSITY_FIELD_MIN ==> final(self).background_thought_coord is Some,
            intensity >= INTENSITY_FIELD_MIN ==> final(self).background_thought_coord == old(
                self,
            ).background_thought_coord,
            input@.len() > 0 ==> final(self).trajectories@.len() > old(
                self,
            ).trajectories@.len(),
    {
        self.process_hierarchical(input, intensity);
        if intensity < INTENSITY_FIELD_MIN {
            self.background_thought_coord = Some(self.current_coord);
        }
        self.decay_symbols();
        self.generate_response(input)
    }

    /// Process one input at full intensity.
    pub fn process_input(&mut self, input: &str) -> (r: String)
        requires
            old(self).wf(),
        ensures
            final(self).wf(),
            1 <= r@.len() <= RESPONSE_BUDGET,
            r@ == seq!['?'] || all_chars_labeled_s(final(self).symbols@, r@),
            terminator_only_last_s(r@),
            final(self).last_output@ == r@ || r@ == seq!['?'],
            final(self).background_thought_coord == old(self).background_thought_coord,
            input@.len() > 0 ==> final(self).trajectories@.len() > old(
                self,
            ).trajectories@.len(),
    {
        self.process_with_intensity(input, FP)
    }

    /// The symbol whose anchor lies nearest to the point: the earliest
    /// one on ties, or nothing from an empty store.
    pub fn find_nearest_symbol(&self, coord: MandelbrotCoord) -> (r: Option<usize>)
        requires
            self.wf(),
            in_bounds(coord),
        ensures
            (r is None) == (self.symbols@.len() == 0),
            r matches Some(i) ==> {
                &&& i < self.symbols@.len()
                &&& (forall|k: int|
                    0 <= k < self.symbols@.len() ==> dist_sq_s(coord, self.symbols@[i as int].coord)
                        <= dist_sq_s(coord, (#[trigger] self.symbols@[k]).coord))
                &&& (forall|k: int|
                    0 <= k < i ==> dist_sq_s(coord, (#[trigger] self.symbols@[k]).coord)
                        > dist_sq_s(coord, self.symbols@[i as int].coord))
            },
    {
        let n = self.symbols.len();
        if n == 0 {
            return None;
        }
        let mut best: usize = 0;
        let mut best_d2: i64 = dist_sq(coord, self.symbols[0].coord);
        let mut k: usize = 1;
        while k < n
            invariant
                1 <= k <= n,
                n == self.symbols@.len(),
                best < k,
                self.wf(),
                in_bounds(coord),
                best_d2 == dist_sq_s(coord, self.symbols@[best as int].coord),
                forall|q: int|
                    0 <= q < k ==> best_d2 <= dist_sq_s(coord, (#[trigger] self.symbols@[q]).coord),
                forall|q: int|
                    0 <= q < best ==> dist_sq_s(coord, (#[trigger] self.symbols@[q]).coord)
                        > best_d2,
            decreases n - k,
        {
            let d2 = dist_sq(coord, self.symbols[k].coord);
            if d2 < best_d2 {
                best = k;
                best_d2 = d2;
            }
            k = k + 1;
        }
        Some(best)
    }

    /// When nothing else matches, wander the neighbourhood: the first
    /// nearby interesting point whose nearest symbol bears a label moves
    /// the walk there and returns that label; otherwise the placeholder.
    /// Only the walk position changes.
    pub fn explore_response(&mut self) -> (r: String)
        requires
            old(self).wf(),
        ensures
            final(self).wf(),
            r@.len() >= 1,
            final(self).symbols == old(self).symbols,
            final(self).trajectories == old(self).trajectories,
            final(self).associative_fields == old(self).associative_fields,
    {
        let nearby = find_nearby_interesting_points(self.current_coord, 100_000, 30);
        let mut i: usize = 0;
        while i < nearby.len()
            invariant
                i <= nearby@.len(),
                self.wf(),
                *self == *old(self),
                forall|k: int| 0 <= k < nearby@.len() ==> in_bounds(#[trigger] nearby@[k]),
            decreases nearby@.len() - i,
        {
            match self.find_nearest_symbol(nearby[i]) {
                Some(si) => {
                    match self.symbols[si].label {
                        Some(ch) => {
                            self.current_coord = nearby[i];
                            let mut out = String::new();
                            push_char(&mut out, ch);
                            return out;
                        },
                        None => {},
                    }
                },
                None => {},
            }
            i = i + 1;
        }
        let mut out = String::new();
        push_char(&mut out, '?');
        out
    }

    /// Next-step suggestions around a point: for every trajectory whose
    /// influence there is strong enough, the point and symbol one step
    /// past its nearest path index, ordered by gap to the query point.
    pub fn get_contextual_suggestions(&self, coord: MandelbrotCoord) -> (r: Vec<
        (MandelbrotCoord, usize),
    >)
        requires
            self.wf(),
            in_bounds(coord),
        ensures
            forall|q: int|
                0 <= q < r@.len() ==> (#[trigger] r@[q]).1 < self.symbols@.len() && in_bounds(
                    r@[q].0,
                ),
            forall|a: int, b: int|
                #![trigger r@[a], r@[b]]
                0 <= a < b < r@.len() ==> dist_sq_s(coord, r@[a].0) <= dist_sq_s(coord, r@[b].0),
            forall|t: int|
                0 <= t < self.trajectories@.len() && suggests_at_s(
                    #[trigger] self.trajectories@[t],
                    coord,
                ) ==> exists|q: int|
                    0 <= q < r@.len() && #[trigger] r@[q] == suggestion_of_s(
                        self.trajectories@[t],
                        coord,
                    ),
    {
        let mut out: Vec<(MandelbrotCoord, usize)> = Vec::new();
        let tn = self.trajectories.len();
        let mut t: usize = 0;
        while t < tn
            invariant
                t <= tn,
                tn == self.trajectories@.len(),
                self.wf(),
                in_bounds(coord),
                forall|q: int|
                    0 <= q < out@.len() ==> (#[trigger] out@[q]).1 < self.symbols@.len()
                        && in_bounds(out@[q].0),
                forall|a: int, b: int|
                    #![trigger out@[a], out@[b]]
                    0 <= a < b < out@.len() ==> dist_sq_s(coord, out@[a].0) <= dist_sq_s(
                        coord,
                        out@[b].0,
                    ),
                forall|u: int|
                    0 <= u < t && suggests_at_s(#[trigger] self.trajectories@[u], coord)
                        ==> exists|q: int|
                        0 <= q < out@.len() && #[trigger] out@[q] == suggestion_of_s(
                            self.trajectories@[u],
                            coord,
                        ),
            decreases tn - t,
        {
            let ghost pre_out = out@;
            let sug = self.trajectories[t].suggest_next_coord(coord);
            match sug {
                Some((next, si)) => {
                    let influence = self.trajectories[t].influence_at(coord);
                    if influence > 100_000 {
                        proof {
                            assert(self.trajectories@[t as int].wf());
                            let p = self.trajectories@[t as int].path@;
                            let ci = crate::memory::closest_idx_s(p, coord);
                            crate::memory::lemma_first_min_idx_props(p, coord, p.len());
                            assert(sug is Some);
                            assert(ci + 1 < p.len() && ci + 1 < self.trajectories@[
                                t as int].symbols@.len()) by {
                                if !(ci + 1 < p.len() && ci + 1 < self.trajectories@[
                                    t as int].symbols@.len()) {
                                    assert(sug is None);
                                }
                            }
                            assert(in_bounds(self.trajectories@[t as int].path@[ci + 1]));
                        }
                        let d2 = dist_sq(coord, next);
                        // Insert at the first position whose entry lies
                        // farther out, keeping the list ordered.
                        let mut pos: usize = 0;
                        while pos < out.len()
                            invariant
                                pos <= out@.len(),
                                in_bounds(coord),
                                in_bounds(next),
                                d2 == dist_sq_s(coord, next),
                                forall|q: int|
                                    0 <= q < pos ==> dist_sq_s(
                                        coord,
                                        (#[trigger] out@[q]).0,
                                    ) <= d2,
                                forall|q: int|
                                    0 <= q < out@.len() ==> (#[trigger] out@[q]).1
                                        < self.symbols@.len() && in_bounds(out@[q].0),
                                forall|a: int, b: int|
                                    #![trigger out@[a], out@[b]]
                                    0 <= a < b < out@.len() ==> dist_sq_s(coord, out@[a].0)
                                        <= dist_sq_s(coord, out@[b].0),
                            decreases out@.len() - pos,
                        {
                            let pd2 = dist_sq(coord, out[pos].0);
                            if pd2 > d2 {
                                break ;
                            }
                            pos = pos + 1;
                        }
                        out.insert(pos, (next, si));
                        proof {
                            assert(out@[pos as int] == (next, si));
                            assert((next, si) == suggestion_of_s(
                                self.trajectories@[t as int],
                                coord,
                            ));
                            assert forall|u: int|
                                0 <= u < t + 1 && suggests_at_s(
                                    #[trigger] self.trajectories@[u],
                                    coord,
                                ) implies exists|q: int|
                                0 <= q < out@.len() && #[trigger] out@[q] == suggestion_of_s(
                                    self.trajectories@[u],
                                    coord,
                                ) by {
                                if u < t {
                                    let q0 = choose|q: int|
                                        0 <= q < pre_out.len() && #[trigger] pre_out[q]
                                            == suggestion_of_s(self.trajectories@[u], coord);
                                    if q0 < pos {
                                        assert(out@[q0] == pre_out[q0]);
                                    } else {
                                        assert(out@[q0 + 1] == pre_out[q0]);
                                    }
                                } else {
                                    assert(out@[pos as int] == suggestion_of_s(
                                        self.trajectories@[u],
                                        coord,
                                    ));
                                }
                            }
                        }
                    } else {
                        proof {
                            assert(!suggests_at_s(self.trajectories@[t as int], coord));
                        }
                    }
                },
                None => {
                    proof {
                        assert(!suggests_at_s(self.trajectories@[t as int], coord));
                    }
                },
            }
            t = t + 1;
        }
        out
    }

    /// Recall images associated with a concept: process the concept to
    /// move the walk there, then return the paths of the most relevant
    /// image-bearing trajectories, strongest first, up to `limit`.
    pub fn recall_images(&mut self, concept: &str, limit: usize) -> (r: Vec<String>)
        requires
            old(self).wf(),
        ensures
            final(self).wf(),
            r@.len() <= limit,
            forall|q: int|
                #![trigger r@[q]]
                0 <= q < r@.len() ==> image_sourced_s(final(self).trajectories@, r@[q]@),
    {
        self.process_input(concept);
        let ghost m1 = *self;
        let current = self.current_coord;
        let mut found: Vec<(String, i64)> = Vec::new();
        let tn = self.trajectories.len();
        let mut t: usize = 0;
        while t < tn
            invariant
                t <= tn,
                tn == self.trajectories@.len(),
                *self == m1,
                self.wf(),
                in_bounds(current),
                forall|a: int, b: int|
                    #![trigger found@[a], found@[b]]
                    0 <= a < b < found@.len() ==> found@[a].1 >= found@[b].1,
                forall|q: int|
                    #![trigger found@[q]]
                    0 <= q < found@.len() ==> image_sourced_s(self.trajectories@, found@[q].0@),
            decreases tn - t,
        {
            let has_image = match &self.trajectories[t].image_path {
                Some(_) => true,
                None => false,
            };
            if has_image {
                let (_, d2) = self.trajectories[t].closest_point(current);
                let shrunk = div_trunc(d2, FP);
                let strength = self.trajectories[t].strength;
                proof {
                    assert(self.trajectories@[t as int].wf());
                }
                let relevance = decay_weight(strength, 10 * shrunk);
                if relevance > 10_000 {
                    let img = match &self.trajectories[t].image_path {
                        Some(p) => p.clone(),
                        None => String::new(),
                    };
                    // Insert so that stronger relevance stands earlier.
                    let mut pos: usize = 0;
                    while pos < found.len()
                        invariant
                            pos <= found@.len(),
                            forall|q: int| 0 <= q < pos ==> (#[trigger] found@[q]).1 >= relevance,
                            forall|a: int, b: int|
                                #![trigger found@[a], found@[b]]
                                0 <= a < b < found@.len() ==> found@[a].1 >= found@[b].1,
                        decreases found@.len() - pos,
                    {
                        if found[pos].1 < relevance {
                            break ;
                        }
                        pos = pos + 1;
                    }
                    let ghost pre_found = found@;
                    found.insert(pos, (img, relevance));
                    proof {
                        pre_found.insert_ensures(pos as int, (img, relevance));
                        assert(image_sourced_s(self.trajectories@, img@)) by {
                            assert((self.trajectories@[t as int]).image_path matches Some(p)
                                && p@ == img@);
                        }
                        assert forall|q: int|
                            #![trigger found@[q]]
                            0 <= q < found@.len() implies image_sourced_s(
                            self.trajectories@,
                            found@[q].0@,
                        ) by {
                            if q < pos {
                                assert(found@[q] == pre_found[q]);
                            } else if q == pos {
                                assert(found@[q] == (img, relevance));
                            } else {
                                assert(found@[q] == pre_found[q - 1]);
                            }
                        }
                    }
                }
            }
            t = t + 1;
        }
        let mut out: Vec<String> = Vec::new();
        let mut i: usize = 0;
        while i < found.len() && i < limit
            invariant
                i <= found@.len(),
                out@.len() == i,
                i <= limit,
                *self == m1,
                forall|q: int|
                    #![trigger found@[q]]
                    0 <= q < found@.len() ==> image_sourced_s(self.trajectories@, found@[q].0@),
                forall|q: int|
                    #![trigger out@[q]]
                    0 <= q < out@.len() ==> image_sourced_s(self.trajectories@, out@[q]@),
            decreases found@.len() - i,
        {
            let path_str = match &found[i].0 {
                s => s.clone(),
            };
            let ghost pre_out = out@;
            out.push(path_str);
            proof {
                assert(out@.last()@ == found@[i as int].0@);
                assert forall|q: int|
                    #![trigger out@[q]]
                    0 <= q < out@.len() implies image_sourced_s(
                    self.trajectories@,
                    out@[q]@,
                ) by {
                    if q < pre_out.len() {
                        assert(out@[q] == pre_out[q]);
                    } else {
                        assert(out@[q]@ == found@[i as int].0@);
                    }
                }
            }
            i = i + 1;
        }
        out
    }

    /// Imagine a visual pattern for a concept: process the concept, then
    /// fill a width-by-height grid one symbol at a time by weighted
    /// draws over the trajectories near the wandering position, a blank
    /// where nothing is near.  Each row ends with a line break, and
    /// every cell is a blank or a stored symbol's label.
    #[verifier::rlimit(100)]
    pub fn imagine_visual(&mut self, concept: &str, width: usize, height: usize) -> (r: String)
        requires
            old(self).wf(),
        ensures
            final(self).wf(),
            r@.len() == (height as int) * (width as int + 1),
            forall|row: int|
                0 <= row < height ==> r@[#[trigger] grid_pos_s(
                    width as int,
                    row,
                    width as int,
                )] == '\n',
            forall|row: int, col: int|
                #![trigger grid_pos_s(width as int, row, col)]
                0 <= row < height && 0 <= col < width ==> grid_cell_ok_s(
                    final(self).symbols@,
                    r@[grid_pos_s(width as int, row, col)],
                ),
    {
        self.process_input(concept);
        let ghost m1 = *self;
        let mut visual = String::new();
        let mut current = self.current_coord;
        let ghost wi_ = width as int;
        let mut y: usize = 0;
        while y < height
            invariant
                y <= height,
                *self == m1,
                self.wf(),
                in_bounds(current),
                visual@.len() == (y as int) * (wi_ + 1),
                wi_ == width as int,
                forall|row: int|
                    0 <= row < y ==> visual@[#[trigger] grid_pos_s(wi_, row, wi_)] == '\n',
                forall|row: int, col: int|
                    #![trigger grid_pos_s(wi_, row, col)]
                    0 <= row < y && 0 <= col < width ==> grid_cell_ok_s(
                        self.symbols@,
                        visual@[grid_pos_s(wi_, row, col)],
                    ),
            decreases height - y,
        {
            let mut x: usize = 0;
            while x < width
                invariant
                    x <= width,
                    y < height,
                    *self == m1,
                    self.wf(),
                    in_bounds(current),
                    visual@.len() == (y as int) * (wi_ + 1) + x,
                    wi_ == width as int,
                    forall|row: int|
                        0 <= row < y ==> visual@[#[trigger] grid_pos_s(wi_, row, wi_)] == '\n',
                    forall|row: int, col: int|
                        #![trigger grid_pos_s(wi_, row, col)]
                        0 <= row < y && 0 <= col < width ==> grid_cell_ok_s(
                            self.symbols@,
                            visual@[grid_pos_s(wi_, row, col)],
                        ),
                    forall|col: int|
                        0 <= col < x ==> grid_cell_ok_s(
                            self.symbols@,
                            visual@[#[trigger] grid_pos_s(wi_, y as int, col)],
                        ),
                decreases width - x,
            {
                let er = self.exploration_radius;
                let tn = self.trajectories.len();
                let mut cells: Vec<(MandelbrotCoord, usize)> = Vec::new();
                let mut weights: Vec<i64> = Vec::new();
                let mut t: usize = 0;
                while t < tn
                    invariant
                        t <= tn,
                        tn == self.trajectories@.len(),
                        self.wf(),
                        in_bounds(current),
                        er == self.exploration_radius,
                        cells@.len() == weights@.len(),
                        weights_ok_s(weights@, 4_000_000_000_000),
                        forall|q: int|
                            0 <= q < cells@.len() ==> (#[trigger] cells@[q]).1
                                < self.symbols@.len() && in_bounds(cells@[q].0),
                    decreases tn - t,
                {
                    let plen = self.trajectories[t].path.len();
                    let (ci, d2) = self.trajectories[t].closest_point(current);
                    proof {
                        assert(ci < plen);
                        assert(0 <= er * er <= 4_000_000_000_000) by (nonlinear_arith)
                            requires
                                0 < er <= 2_000_000,
                        ;
                    }
                    if d2 < er * er && ci + 1 < self.trajectories[t].symbols.len() {
                        proof {
                            assert(self.trajectories@[t as int].wf());
                            assert(in_bounds(self.trajectories@[t as int].path@[ci + 1]));
                        }
                        let next_coord = self.trajectories[t].path[ci + 1];
                        let next_sym = self.trajectories[t].symbols[ci + 1];
                        let influence = self.trajectories[t].influence_at(current);
                        cells.push((next_coord, next_sym));
                        weights.push(influence);
                    }
                    t = t + 1;
                }
                let mut cell: char = ' ';
                if cells.len() > 0 {
                    let total = total_weight(&weights);
                    if total > 0 {
                        let bound: u64 = if total > 0xffff_ffff_ffff_ffff {
                            0xffff_ffff_ffff_ffff
                        } else {
                            total as u64
                        };
                        let rv = random_below(bound);
                        let wsel = weighted_choice(&weights, rv);
                        let (c, si) = cells[wsel];
                        match self.symbols[si].label {
                            Some(ch) => {
                                proof {
                                    assert(self.symbols@[si as int].label == Some(ch));
                                    assert(is_label_s(self.symbols@, ch));
                                }
                                cell = ch;
                            },
                            None => {},
                        }
                        current = c;
                    }
                }
                proof {
                    assert(grid_cell_ok_s(self.symbols@, cell));
                }
                let ghost pre = visual@;
                push_char(&mut visual, cell);
                proof {
                    assert(pre.len() == grid_pos_s(wi_, y as int, x as int));
                    assert forall|row: int|
                        0 <= row < y implies visual@[#[trigger] grid_pos_s(wi_, row, wi_)]
                        == '\n' by {
                        assert(grid_pos_s(wi_, row, wi_) < pre.len()) by (nonlinear_arith)
                            requires
                                grid_pos_s(wi_, row, wi_) == row * (wi_ + 1) + wi_,
                                pre.len() == (y as int) * (wi_ + 1) + x,
                                0 <= row < y,
                                0 <= x,
                                0 <= wi_,
                        ;
                        assert(visual@[grid_pos_s(wi_, row, wi_)] == pre[grid_pos_s(
                            wi_,
                            row,
                            wi_,
                        )]);
                    }
                    assert forall|row: int, col: int|
                        #![trigger grid_pos_s(wi_, row, col)]
                        0 <= row < y && 0 <= col < width implies grid_cell_ok_s(
                        self.symbols@,
                        visual@[grid_pos_s(wi_, row, col)],
                    ) by {
                        assert(grid_pos_s(wi_, row, col) < pre.len()) by (nonlinear_arith)
                            requires
                                grid_pos_s(wi_, row, col) == row * (wi_ + 1) + col,
                                pre.len() == (y as int) * (wi_ + 1) + x,
                                0 <= row < y,
                                0 <= col < wi_,
                                0 <= x,
                        ;
                        assert(visual@[grid_pos_s(wi_, row, col)] == pre[grid_pos_s(
                            wi_,
                            row,
                            col,
                        )]);
                    }
                    assert forall|col: int|
                        0 <= col < x + 1 implies grid_cell_ok_s(
                        self.symbols@,
                        visual@[#[trigger] grid_pos_s(wi_, y as int, col)],
                    ) by {
                        if col < x {
                            assert(visual@[grid_pos_s(wi_, y as int, col)] == pre[grid_pos_s(
                                wi_,
                                y as int,
                                col,
                            )]);
                        } else {
                            assert(visual@[grid_pos_s(wi_, y as int, col)] == cell);
                        }
                    }
                }
                x = x + 1;
            }
            let ghost pre = visual@;
            push_char(&mut visual, '\n');
            proof {
                assert((y as int) * (wi_ + 1) + wi_ + 1 == (y as int + 1) * (wi_ + 1))
                    by (nonlinear_arith);
                assert(pre.len() == grid_pos_s(wi_, y as int, wi_));
                assert forall|row: int|
                    0 <= row < y + 1 implies visual@[#[trigger] grid_pos_s(wi_, row, wi_)]
                    == '\n' by {
                    if row < y {
                        assert(grid_pos_s(wi_, row, wi_) < pre.len()) by (nonlinear_arith)
                            requires
                                grid_pos_s(wi_, row, wi_) == row * (wi_ + 1) + wi_,
                                pre.len() == (y as int) * (wi_ + 1) + wi_,
                                0 <= row < y,
                                0 <= wi_,
                        ;
                        assert(visual@[grid_pos_s(wi_, row, wi_)] == pre[grid_pos_s(
                            wi_,
                            row,
                            wi_,
                        )]);
                    } else {
                        assert(visual@[grid_pos_s(wi_, row, wi_)] == '\n');
                    }
                }
                assert forall|row: int, col: int|
                    #![trigger grid_pos_s(wi_, row, col)]
                    0 <= row < y + 1 && 0 <= col < width implies grid_cell_ok_s(
                    self.symbols@,
                    visual@[grid_pos_s(wi_, row, col)],
                ) by {
                    assert(grid_pos_s(wi_, row, col) < pre.len()) by (nonlinear_arith)
                        requires
                            grid_pos_s(wi_, row, col) == row * (wi_ + 1) + col,
                            pre.len() == (y as int) * (wi_ + 1) + wi_,
                            0 <= row <= y,
                            0 <= col < wi_,
                    ;
                    assert(visual@[grid_pos_s(wi_, row, col)] == pre[grid_pos_s(wi_, row, col)]);
                }
            }
            y = y + 1;
        }
        visual
    }
}

} // verus!
