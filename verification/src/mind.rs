//! The memory aggregate: owns the symbol store, trajectory store and field
//! set, plus the transient session state, and carries the learning and
//! pruning passes.
//!
//! The central invariant is referential integrity: every symbol index held
//! by any trajectory is a valid index into the symbol store, across any
//! sequence of learning and pruning passes.
use vstd::prelude::*;

verus! {

use vstd::string::StringExecFns;
use crate::fixed::{FP, sdiv, div_trunc};
use crate::fractal::{
    MandelbrotCoord, in_bounds, point_from_text_s, char_context_point_s, stability_s, hash_str,
    point_from_hash, char_context_point, fnv_step_s, FNV_OFFSET, FNV_PRIME, mandelbrot_stability,
    hash_chars_s,
};
use crate::fingerprint::{fingerprint_s, hamming_s, julia_fingerprint_from_mandelbrot, hamming_distance};
use crate::memory::{
    FractalSymbol, ConceptTrajectory, AssociativeField, dist_sq_s, dist_sq, STRENGTH_MAX,
    CONFIDENCE_STEP, CONFIDENCE_DECAY, CONFIDENCE_PRUNE_FLOOR, COUNT_PRUNE_FLOOR,
    boost_strength_s,
};

/// Below this intensity a character is hashed alone, so repeated learning
/// of the same character consolidates onto one point (0.2).
pub const INTENSITY_CHAR_LEVEL: i64 = 200_000;

/// Above this intensity a learning event may found a new associative
/// field, and an input enters the context window (0.3).
pub const INTENSITY_FIELD_MIN: i64 = 300_000;

/// Fingerprints closer than this many bits merge into one symbol.
pub const MERGE_THRESHOLD: u32 = 8;

/// Strength bonus for an existing trajectory that the newly learned path
/// passes close to (0.05).
pub const CROSS_BONUS: i64 = 50_000;

/// Cap of the rolling window of recent raw inputs.
pub const CONTEXT_CAP: usize = 10;

/// Cap of the rolling window of recent symbol indices.
pub const SYMBOL_HISTORY_CAP: usize = 20;

/// The memory aggregate.
pub struct FractalMind {
    pub current_coord: MandelbrotCoord,
    pub symbols: Vec<FractalSymbol>,
    pub trajectories: Vec<ConceptTrajectory>,
    pub associative_fields: Vec<AssociativeField>,
    pub context_history: Vec<String>,
    pub symbol_history: Vec<usize>,
    pub background_thought_coord: Option<MandelbrotCoord>,
    pub contextual_coord: MandelbrotCoord,
    pub last_output: String,
    pub inhibited_symbols: Vec<(usize, u32)>,
    pub inhibited_trajectories: Vec<(usize, u32)>,
    pub scale: u32,
    pub exploration_radius: i64,
}

impl FractalMind {
    /// Structural soundness of the whole aggregate.  In particular,
    /// referential integrity: every symbol index of every trajectory is a
    /// valid index into the symbol store.
    pub open spec fn wf(self) -> bool {
        &&& in_bounds(self.current_coord)
        &&& in_bounds(self.contextual_coord)
        &&& (self.background_thought_coord matches Some(c) ==> in_bounds(c))
        &&& (forall|i: int|
            0 <= i < self.symbols@.len() ==> (#[trigger] self.symbols@[i]).wf())
        &&& (forall|t: int|
            0 <= t < self.trajectories@.len() ==> (#[trigger] self.trajectories@[t]).wf())
        &&& (forall|t: int, k: int|
            0 <= t < self.trajectories@.len() && 0 <= k
                < self.trajectories@[t].symbols@.len() ==> #[trigger] self.trajectories@[t].symbols@[k]
                < self.symbols@.len())
        &&& (forall|f: int|
            0 <= f < self.associative_fields@.len() ==> (
            #[trigger] self.associative_fields@[f]).wf())
        &&& 0 < self.exploration_radius <= 2_000_000
        &&& 1 <= self.scale
    }

    /// A freshly initialized, empty aggregate.
    pub fn new() -> (r: FractalMind)
        ensures
            r.wf(),
            r.symbols@.len() == 0,
            r.trajectories@.len() == 0,
            r.associative_fields@.len() == 0,
            r.context_history@.len() == 0,
            r.symbol_history@.len() == 0,
            r.background_thought_coord is None,
            r.current_coord == (MandelbrotCoord { re: -500_000i64, im: 0i64 }),
            r.contextual_coord == (MandelbrotCoord { re: -500_000i64, im: 0i64 }),
            r.last_output@.len() == 0,
            r.inhibited_symbols@.len() == 0,
            r.inhibited_trajectories@.len() == 0,
            r.scale == 4096,
            r.exploration_radius == 200_000,
    {
        FractalMind {
            current_coord: MandelbrotCoord { re: -500_000, im: 0 },
            contextual_coord: MandelbrotCoord { re: -500_000, im: 0 },
            symbols: Vec::new(),
            trajectories: Vec::new(),
            associative_fields: Vec::new(),
            context_history: Vec::new(),
            symbol_history: Vec::new(),
            background_thought_coord: None,
            last_output: String::new(),
            inhibited_symbols: Vec::new(),
            inhibited_trajectories: Vec::new(),
            scale: 4096,
            exploration_radius: 200_000,
        }
    }
}

/// A merged symbol: usage count up by one, confidence raised by the fixed
/// step and capped at 1.0, the label assigned only if it was missing.
pub open spec fn merged_symbol_s(s: FractalSymbol, ch: char) -> FractalSymbol {
    FractalSymbol {
        coord: s.coord,
        pattern: s.pattern,
        count: if s.count < u32::MAX {
            (s.count + 1) as u32
        } else {
            s.count
        },
        label: if s.label is None {
            Some(ch)
        } else {
            s.label
        },
        confidence: if s.confidence + CONFIDENCE_STEP >= FP {
            FP
        } else {
            (s.confidence + CONFIDENCE_STEP) as i64
        },
        stability: s.stability,
    }
}

/// Index of the first symbol at or past `i` whose fingerprint lies within
/// the merge threshold of `fpat`, if any.
pub open spec fn first_match_from_s(syms: Seq<FractalSymbol>, fpat: Seq<u64>, i: int) -> Option<
    int,
>
    decreases syms.len() - i,
{
    if i < 0 || i >= syms.len() {
        None
    } else if hamming_s(fpat, syms[i].pattern@) < MERGE_THRESHOLD {
        Some(i)
    } else {
        first_match_from_s(syms, fpat, i + 1)
    }
}

/// Index of the first symbol whose fingerprint lies within the merge
/// threshold of `fpat`, if any: the first-acceptable-match policy.
pub open spec fn first_match_s(syms: Seq<FractalSymbol>, fpat: Seq<u64>) -> Option<int> {
    first_match_from_s(syms, fpat, 0)
}

/// Whether `s` is a freshly created symbol for the given point,
/// fingerprint and label.
pub open spec fn is_fresh_symbol_s(
    s: FractalSymbol,
    coord: MandelbrotCoord,
    fpat: Seq<u64>,
    stab: int,
    ch: char,
) -> bool {
    &&& s.coord == coord
    &&& s.pattern@ == fpat
    &&& s.count == 1
    &&& s.label == Some(ch)
    &&& s.confidence == 0
    &&& s.stability == stab
}

/// What one merge-or-create pass does to the symbol store: the first
/// sufficiently similar symbol is merged, else a fresh symbol is appended;
/// `idx` is where the character's symbol now lives.
pub open spec fn store_insert_post(
    old_syms: Seq<FractalSymbol>,
    new_syms: Seq<FractalSymbol>,
    idx: int,
    coord: MandelbrotCoord,
    fpat: Seq<u64>,
    stab: int,
    ch: char,
) -> bool {
    match first_match_s(old_syms, fpat) {
        Some(i) => idx == i && new_syms == old_syms.update(i, merged_symbol_s(old_syms[i], ch)),
        None => {
            &&& idx == old_syms.len()
            &&& new_syms.len() == old_syms.len() + 1
            &&& (forall|k: int| 0 <= k < old_syms.len() ==> new_syms[k] == old_syms[k])
            &&& is_fresh_symbol_s(new_syms[idx], coord, fpat, stab, ch)
        },
    }
}

/// If some symbol lies within the merge threshold of `fpat`, the
/// first-match scan finds one.
pub proof fn lemma_first_match_some(syms: Seq<FractalSymbol>, fpat: Seq<u64>, w: int)
    requires
        0 <= w < syms.len(),
        hamming_s(fpat, syms[w].pattern@) < MERGE_THRESHOLD,
    ensures
        first_match_s(syms, fpat) is Some,
{
    lemma_first_match_some_from(syms, fpat, 0, w);
}

proof fn lemma_first_match_some_from(syms: Seq<FractalSymbol>, fpat: Seq<u64>, i: int, w: int)
    requires
        0 <= i <= w < syms.len(),
        hamming_s(fpat, syms[w].pattern@) < MERGE_THRESHOLD,
    ensures
        first_match_from_s(syms, fpat, i) is Some,
    decreases syms.len() - i,
{
    if i < w && !(hamming_s(fpat, syms[i].pattern@) < MERGE_THRESHOLD) {
        lemma_first_match_some_from(syms, fpat, i + 1, w);
    }
}

impl FractalMind {
    /// Merge-or-create: compute the fingerprint and stability of the point
    /// at the store's configured scale; the first existing symbol whose
    /// fingerprint lies within the merge threshold is merged, else a fresh
    /// symbol is appended.  Returns the symbol's index.
    pub fn store_symbol_at_coord(&mut self, coord: MandelbrotCoord, ch: char) -> (idx: usize)
        requires
            old(self).wf(),
            in_bounds(coord),
        ensures
            final(self).wf(),
            store_insert_post(
                old(self).symbols@,
                final(self).symbols@,
                idx as int,
                coord,
                fingerprint_s(coord, old(self).scale),
                stability_s(coord, old(self).scale),
                ch,
            ),
            idx < final(self).symbols@.len(),
            old(self).symbols@.len() <= final(self).symbols@.len() <= old(self).symbols@.len()
                + 1,
            first_match_s(old(self).symbols@, fingerprint_s(coord, old(self).scale)) is Some
                ==> final(self).symbols@.len() == old(self).symbols@.len(),
            forall|k: int|
                0 <= k < old(self).symbols@.len() ==> (#[trigger] final(self).symbols@[k]).pattern
                    == old(self).symbols@[k].pattern && final(self).symbols@[k].coord == old(
                    self,
                ).symbols@[k].coord && final(self).symbols@[k].stability == old(
                    self,
                ).symbols@[k].stability,
            final(self).trajectories == old(self).trajectories,
            final(self).associative_fields == old(self).associative_fields,
            final(self).current_coord == old(self).current_coord,
            final(self).contextual_coord == old(self).contextual_coord,
            final(self).background_thought_coord == old(self).background_thought_coord,
            final(self).context_history == old(self).context_history,
            final(self).symbol_history == old(self).symbol_history,
            final(self).last_output == old(self).last_output,
            final(self).inhibited_symbols == old(self).inhibited_symbols,
            final(self).inhibited_trajectories == old(self).inhibited_trajectories,
            final(self).scale == old(self).scale,
            final(self).exploration_radius == old(self).exploration_radius,
    {
        let ghost fpat = fingerprint_s(coord, self.scale);
        let pattern = julia_fingerprint_from_mandelbrot(coord, self.scale);
        let stability = mandelbrot_stability(coord, self.scale);
        let n = self.symbols.len();
        let mut i: usize = 0;
        while i < n
            invariant
                i <= n,
                n == self.symbols@.len(),
                *self == *old(self),
                pattern@ == fpat,
                fpat == fingerprint_s(coord, old(self).scale),
                stability == stability_s(coord, old(self).scale),
                0 <= stability <= FP,
                first_match_s(self.symbols@, fpat) == first_match_from_s(
                    self.symbols@,
                    fpat,
                    i as int,
                ),
                old(self).wf(),
                in_bounds(coord),
            decreases n - i,
        {
            let d = hamming_distance(&pattern, &self.symbols[i].pattern);
            if d < MERGE_THRESHOLD {
                proof {
                    assert(first_match_s(self.symbols@, fpat) == Some(i as int));
                }
                let c = self.symbols[i].count;
                self.symbols[i].count = if c < u32::MAX {
                    c + 1
                } else {
                    c
                };
                let conf = self.symbols[i].confidence;
                self.symbols[i].confidence = if conf + CONFIDENCE_STEP >= FP {
                    FP
                } else {
                    conf + CONFIDENCE_STEP
                };
                if self.symbols[i].label.is_none() {
                    self.symbols[i].label = Some(ch);
                }
                proof {
                    assert(self.symbols@ =~= old(self).symbols@.update(
                        i as int,
                        merged_symbol_s(old(self).symbols@[i as int], ch),
                    ));
                }
                return i;
            }
            i = i + 1;
        }
        let fresh = FractalSymbol {
            coord,
            pattern,
            count: 1,
            label: Some(ch),
            confidence: 0,
            stability,
        };
        self.symbols.push(fresh);
        n
    }
}

/// Whether the store holds a symbol whose fingerprint lies within the
/// merge threshold of the fingerprint of character `j` of `text` hashed
/// alone, at the given scale.
pub open spec fn char_symbol_present_s(
    syms: Seq<FractalSymbol>,
    text: Seq<char>,
    j: int,
    scale: u32,
) -> bool {
    exists|k: int|
        0 <= k < syms.len() && hamming_s(
            fingerprint_s(point_from_text_s(seq![text[j]]), scale),
            (#[trigger] syms[k]).pattern@,
        ) < MERGE_THRESHOLD
}

/// If `first_match_from_s` finds an index, that index is in range and its
/// symbol lies within the merge threshold.
pub proof fn lemma_first_match_props(syms: Seq<FractalSymbol>, fpat: Seq<u64>, i: int)
    requires
        first_match_from_s(syms, fpat, i) is Some,
    ensures
        ({
            let m = first_match_from_s(syms, fpat, i)->0;
            &&& 0 <= m < syms.len()
            &&& i <= m
            &&& hamming_s(fpat, syms[m].pattern@) < MERGE_THRESHOLD
        }),
    decreases syms.len() - i,
{
    if 0 <= i < syms.len() && !(hamming_s(fpat, syms[i].pattern@) < MERGE_THRESHOLD) {
        lemma_first_match_props(syms, fpat, i + 1);
    }
}

/// The merge-or-create chain of one learning pass: each character's
/// symbol index is exactly what merge-or-create returned on the store
/// the previous characters left behind.
pub open spec fn learn_chain_ok_s(
    chain: Seq<Seq<FractalSymbol>>,
    s0: Seq<FractalSymbol>,
    s1: Seq<FractalSymbol>,
    idxs: Seq<usize>,
    text: Seq<char>,
    intensity: int,
    scale: u32,
) -> bool {
    &&& chain.len() == text.len() + 1
    &&& idxs.len() == text.len()
    &&& chain[0] == s0
    &&& chain[text.len() as int] == s1
    &&& (forall|j: int|
        0 <= j < text.len() ==> store_insert_post(
            #[trigger] chain[j],
            chain[j + 1],
            idxs[j] as int,
            learn_point_s(text, j, intensity),
            fingerprint_s(learn_point_s(text, j, intensity), scale),
            stability_s(learn_point_s(text, j, intensity), scale),
            text[j],
        ))
}

/// The point one character of a learned text lands on: below the
/// character-level intensity the character is hashed alone, so repeats
/// consolidate; above it, position and text enter the hash, so repeats
/// diversify.
pub open spec fn learn_point_s(text: Seq<char>, i: int, intensity: int) -> MandelbrotCoord {
    if intensity < INTENSITY_CHAR_LEVEL {
        point_from_text_s(seq![text[i]])
    } else {
        char_context_point_s(text, i as u64, text[i])
    }
}

/// Whether some point of the new path passes within half the exploration
/// radius of some point of an existing path.
pub open spec fn cross_hit_s(
    new_path: Seq<MandelbrotCoord>,
    old_path: Seq<MandelbrotCoord>,
    er: int,
) -> bool {
    exists|i: int, j: int|
        #![trigger new_path[i], old_path[j]]
        0 <= i < new_path.len() && 0 <= j < old_path.len() && 4 * dist_sq_s(
            new_path[i],
            old_path[j],
        ) < er * er
}

/// Index of the first field at or past `i` that contains the point.
pub open spec fn first_containing_from_s(
    fields: Seq<AssociativeField>,
    c: MandelbrotCoord,
    i: int,
) -> Option<int>
    decreases fields.len() - i,
{
    if i < 0 || i >= fields.len() {
        None
    } else if dist_sq_s(fields[i].center, c) <= fields[i].radius * fields[i].radius {
        Some(i)
    } else {
        first_containing_from_s(fields, c, i + 1)
    }
}

/// Index of the first field that contains the point, if any.
pub open spec fn first_containing_s(fields: Seq<AssociativeField>, c: MandelbrotCoord) -> Option<
    int,
> {
    first_containing_from_s(fields, c, 0)
}

/// A field reinforced by a learning event: strength raised by a tenth of
/// the intensity, saturating at the ceiling.
pub open spec fn boosted_field_s(f: AssociativeField, intensity: int) -> AssociativeField {
    AssociativeField {
        center: f.center,
        radius: f.radius,
        strength: boost_strength_s(f.strength as int, sdiv(intensity, 10)) as i64,
    }
}

/// What a learning event does to the field set: the first field containing
/// the final position is reinforced; if none contains it and the event is
/// intense enough, a fresh field is founded there.
pub open spec fn field_update_post(
    old_fields: Seq<AssociativeField>,
    new_fields: Seq<AssociativeField>,
    pos: MandelbrotCoord,
    intensity: int,
    er: int,
) -> bool {
    match first_containing_s(old_fields, pos) {
        Some(i) => new_fields == old_fields.update(i, boosted_field_s(old_fields[i], intensity)),
        None => {
            if intensity > INTENSITY_FIELD_MIN {
                &&& new_fields.len() == old_fields.len() + 1
                &&& (forall|k: int| 0 <= k < old_fields.len() ==> new_fields[k] == old_fields[k])
                &&& new_fields.last() == (AssociativeField {
                    center: pos,
                    radius: er as i64,
                    strength: FP,
                })
            } else {
                new_fields == old_fields
            }
        },
    }
}

/// The last `cap` entries of a rolling window.
pub open spec fn tail_window_s(s: Seq<usize>, cap: int) -> Seq<usize> {
    if s.len() <= cap {
        s
    } else {
        s.skip(s.len() - cap)
    }
}

/// What one learning event does to the aggregate.  For nonempty text: one
/// fresh trajectory holding the derived path and symbol indices, a
/// merged-or-created symbol per character, a reinforcement of every older
/// trajectory the new path passes close to, the field update at the final
/// position, and the rolling symbol window extended and capped.  The two
/// closing clauses carry merge convergence: below the character-level
/// intensity, characters whose fingerprints already have a sufficiently
/// similar symbol add nothing to the store, and afterward every learned
/// character has such a symbol.
pub open spec fn learn_post(
    m0: FractalMind,
    m1: FractalMind,
    text: Seq<char>,
    intensity: int,
    image_path: Option<String>,
) -> bool {
    &&& m1.wf()
    &&& m0.symbols@.len() <= m1.symbols@.len() <= m0.symbols@.len() + text.len()
    &&& (forall|k: int|
        0 <= k < m0.symbols@.len() ==> (#[trigger] m1.symbols@[k]).pattern
            == m0.symbols@[k].pattern && m1.symbols@[k].coord == m0.symbols@[k].coord
            && m1.symbols@[k].stability == m0.symbols@[k].stability)
    &&& (text.len() == 0 ==> m1 == m0)
    &&& (text.len() > 0 ==> {
        let tr = m1.trajectories@.last();
        &&& m1.trajectories@.len() == m0.trajectories@.len() + 1
        &&& tr.path@.len() == text.len()
        &&& tr.symbols@.len() == text.len()
        &&& (forall|j: int|
            0 <= j < text.len() ==> #[trigger] tr.path@[j] == learn_point_s(text, j, intensity))
        &&& tr.strength == FP
        &&& tr.image_path == image_path
        &&& (forall|t: int|
            0 <= t < m0.trajectories@.len() ==> {
                let o = #[trigger] m0.trajectories@[t];
                let nt = m1.trajectories@[t];
                &&& nt.path == o.path
                &&& nt.symbols == o.symbols
                &&& nt.image_path == o.image_path
                &&& nt.strength == if cross_hit_s(
                    tr.path@,
                    o.path@,
                    m0.exploration_radius as int,
                ) {
                    boost_strength_s(o.strength as int, CROSS_BONUS as int)
                } else {
                    o.strength as int
                }
            })
        &&& m1.current_coord == learn_point_s(text, text.len() - 1, intensity)
        &&& field_update_post(
            m0.associative_fields@,
            m1.associative_fields@,
            m1.current_coord,
            intensity,
            m0.exploration_radius as int,
        )
        &&& m1.symbol_history@ == tail_window_s(
            m0.symbol_history@ + tr.symbols@,
            SYMBOL_HISTORY_CAP as int,
        )
        &&& (exists|chain: Seq<Seq<FractalSymbol>>|
            learn_chain_ok_s(
                chain,
                m0.symbols@,
                m1.symbols@,
                tr.symbols@,
                text,
                intensity,
                m0.scale,
            ))
        &&& (forall|j: int|
            0 <= j < text.len() ==> (#[trigger] m1.symbols@[tr.symbols@[j] as int]).label
                is Some)
        &&& m1.contextual_coord == m0.contextual_coord
        &&& m1.background_thought_coord == m0.background_thought_coord
        &&& m1.context_history == m0.context_history
        &&& m1.last_output == m0.last_output
        &&& m1.inhibited_symbols == m0.inhibited_symbols
        &&& m1.inhibited_trajectories == m0.inhibited_trajectories
        &&& m1.scale == m0.scale
        &&& m1.exploration_radius == m0.exploration_radius
    })
    &&& ((intensity < INTENSITY_CHAR_LEVEL && (forall|j: int|
        0 <= j < text.len() ==> #[trigger] char_symbol_present_s(
            m0.symbols@,
            text,
            j,
            m0.scale,
        ))) ==> m1.symbols@.len() == m0.symbols@.len())
    &&& (intensity < INTENSITY_CHAR_LEVEL ==> (forall|j: int|
        0 <= j < text.len() ==> #[trigger] char_symbol_present_s(
            m1.symbols@,
            text,
            j,
            m0.scale,
        )))
    &&& (m0.symbols@.len() == 0 && text.len() > 0 ==> m1.symbols@.len() > 0
        && m1.symbols@[0].label == Some(text[0]))
}

/// Whether two aggregate states agree on everything except the rolling
/// symbol window.
pub open spec fn same_but_symbol_history(a: FractalMind, b: FractalMind) -> bool {
    &&& a.current_coord == b.current_coord
    &&& a.symbols == b.symbols
    &&& a.trajectories == b.trajectories
    &&& a.associative_fields == b.associative_fields
    &&& a.context_history == b.context_history
    &&& a.background_thought_coord == b.background_thought_coord
    &&& a.contextual_coord == b.contextual_coord
    &&& a.last_output == b.last_output
    &&& a.inhibited_symbols == b.inhibited_symbols
    &&& a.inhibited_trajectories == b.inhibited_trajectories
    &&& a.scale == b.scale
    &&& a.exploration_radius == b.exploration_radius
}

/// The point one character hashed alone lands on.
pub fn point_from_char(c: char) -> (r: MandelbrotCoord)
    ensures
        r == point_from_text_s(seq![c]),
        in_bounds(r),
{
    let h = (FNV_OFFSET ^ ((c as u32) as u64)).wrapping_mul(FNV_PRIME);
    proof {
        let s = seq![c];
        assert(s.len() == 1 && s.last() == c);
        assert(s.drop_last() =~= Seq::<char>::empty());
        assert(hash_chars_s(Seq::<char>::empty()) == FNV_OFFSET);
        assert(hash_chars_s(s) == fnv_step_s(FNV_OFFSET, (c as u32) as u64));
    }
    point_from_hash(h)
}

/// The first field containing the point, in store order.
fn find_first_containing(fields: &Vec<AssociativeField>, pos: MandelbrotCoord) -> (r: Option<
    usize,
>)
    requires
        forall|f: int| 0 <= f < fields@.len() ==> (#[trigger] fields@[f]).wf(),
        in_bounds(pos),
    ensures
        match r {
            Some(i) => first_containing_s(fields@, pos) == Some(i as int) && i < fields@.len(),
            None => first_containing_s(fields@, pos) is None,
        },
{
    let n = fields.len();
    let mut i: usize = 0;
    while i < n
        invariant
            i <= n,
            n == fields@.len(),
            forall|f: int| 0 <= f < fields@.len() ==> (#[trigger] fields@[f]).wf(),
            in_bounds(pos),
            first_containing_s(fields@, pos) == first_containing_from_s(fields@, pos, i as int),
        decreases n - i,
    {
        if fields[i].contains(pos) {
            return Some(i);
        }
        i = i + 1;
    }
    None
}

/// Whether the new path passes within half the exploration radius of the
/// old path anywhere.
fn path_near(new_path: &Vec<MandelbrotCoord>, old_path: &Vec<MandelbrotCoord>, er: i64) -> (r:
    bool)
    requires
        forall|k: int| 0 <= k < new_path@.len() ==> in_bounds(#[trigger] new_path@[k]),
        forall|k: int| 0 <= k < old_path@.len() ==> in_bounds(#[trigger] old_path@[k]),
        0 < er <= 2_000_000,
    ensures
        r == cross_hit_s(new_path@, old_path@, er as int),
{
    let n = new_path.len();
    let m = old_path.len();
    let mut i: usize = 0;
    while i < n
        invariant
            i <= n,
            n == new_path@.len(),
            m == old_path@.len(),
            forall|k: int| 0 <= k < new_path@.len() ==> in_bounds(#[trigger] new_path@[k]),
            forall|k: int| 0 <= k < old_path@.len() ==> in_bounds(#[trigger] old_path@[k]),
            0 < er <= 2_000_000,
            forall|a: int, b: int|
                #![trigger new_path@[a], old_path@[b]]
                0 <= a < i && 0 <= b < m ==> 4 * dist_sq_s(new_path@[a], old_path@[b]) >= er
                    * er,
        decreases n - i,
    {
        let mut j: usize = 0;
        while j < m
            invariant
                i < n,
                j <= m,
                n == new_path@.len(),
                m == old_path@.len(),
                forall|k: int| 0 <= k < new_path@.len() ==> in_bounds(#[trigger] new_path@[k]),
                forall|k: int| 0 <= k < old_path@.len() ==> in_bounds(#[trigger] old_path@[k]),
                0 < er <= 2_000_000,
                forall|b: int|
                    0 <= b < j ==> 4 * dist_sq_s(new_path@[i as int], #[trigger] old_path@[b])
                        >= er * er,
            decreases m - j,
        {
            let d2 = dist_sq(new_path[i], old_path[j]);
            proof {
                assert(0 <= er * er <= 4_000_000_000_000) by (nonlinear_arith)
                    requires
                        0 < er <= 2_000_000,
                ;
            }
            if 4 * d2 < er * er {
                return true;
            }
            j = j + 1;
        }
        i = i + 1;
    }
    false
}

/// Reinforce every trajectory that the new path passes close to: its
/// strength rises by the fixed bonus, saturating at the ceiling.
fn cross_reinforce(trajs: &mut Vec<ConceptTrajectory>, path: &Vec<MandelbrotCoord>, er: i64)
    requires
        forall|u: int| 0 <= u < old(trajs)@.len() ==> (#[trigger] old(trajs)@[u]).wf(),
        forall|k: int| 0 <= k < path@.len() ==> in_bounds(#[trigger] path@[k]),
        0 < er <= 2_000_000,
    ensures
        final(trajs)@.len() == old(trajs)@.len(),
        forall|u: int|
            #![trigger old(trajs)@[u]]
            #![trigger final(trajs)@[u]]
            0 <= u < old(trajs)@.len() ==> {
                let o = old(trajs)@[u];
                let nt = final(trajs)@[u];
                &&& nt.path == o.path
                &&& nt.symbols == o.symbols
                &&& nt.image_path == o.image_path
                &&& nt.strength == if cross_hit_s(path@, o.path@, er as int) {
                    boost_strength_s(o.strength as int, CROSS_BONUS as int)
                } else {
                    o.strength as int
                }
                &&& nt.wf()
            },
{
    let tcount = trajs.len();
    let mut t: usize = 0;
    while t < tcount
        invariant
            t <= tcount,
            tcount == trajs@.len(),
            tcount == old(trajs)@.len(),
            0 < er <= 2_000_000,
            forall|k: int| 0 <= k < path@.len() ==> in_bounds(#[trigger] path@[k]),
            forall|u: int| 0 <= u < old(trajs)@.len() ==> (#[trigger] old(trajs)@[u]).wf(),
            forall|u: int|
                0 <= u < t ==> {
                    let o = #[trigger] old(trajs)@[u];
                    let nt = trajs@[u];
                    &&& nt.path == o.path
                    &&& nt.symbols == o.symbols
                    &&& nt.image_path == o.image_path
                    &&& nt.strength == if cross_hit_s(path@, o.path@, er as int) {
                        boost_strength_s(o.strength as int, CROSS_BONUS as int)
                    } else {
                        o.strength as int
                    }
                    &&& nt.wf()
                },
            forall|u: int| t <= u < tcount ==> #[trigger] trajs@[u] == old(trajs)@[u],
        decreases tcount - t,
    {
        let hit = path_near(path, &trajs[t].path, er);
        if hit {
            let s = trajs[t].strength;
            trajs[t].strength = if s > STRENGTH_MAX - CROSS_BONUS {
                STRENGTH_MAX
            } else {
                s + CROSS_BONUS
            };
        }
        t = t + 1;
    }
}

/// Reinforce the first field containing the position, or found a new one
/// there when the event is intense enough.
fn update_fields(
    fields: &mut Vec<AssociativeField>,
    pos: MandelbrotCoord,
    intensity: i64,
    er: i64,
)
    requires
        forall|f: int| 0 <= f < old(fields)@.len() ==> (#[trigger] old(fields)@[f]).wf(),
        in_bounds(pos),
        0 <= intensity <= FP,
        0 < er <= 2_000_000,
    ensures
        field_update_post(old(fields)@, final(fields)@, pos, intensity as int, er as int),
        forall|f: int| 0 <= f < final(fields)@.len() ==> (#[trigger] final(fields)@[f]).wf(),
{
    match find_first_containing(fields, pos) {
        Some(fi) => {
            let s = fields[fi].strength;
            let boost = div_trunc(intensity, 10);
            fields[fi].strength = if s > STRENGTH_MAX - boost {
                STRENGTH_MAX
            } else {
                s + boost
            };
            proof {
                assert(fields@ =~= old(fields)@.update(
                    fi as int,
                    boosted_field_s(old(fields)@[fi as int], intensity as int),
                ));
            }
        },
        None => {
            if intensity > INTENSITY_FIELD_MIN {
                let field = AssociativeField::new(pos, er);
                fields.push(field);
            }
        },
    }
}

/// Extend the rolling symbol window and cap it at its window size,
/// dropping the oldest entries.
fn roll_history(hist: &mut Vec<usize>, idxs: &Vec<usize>)
    ensures
        final(hist)@ == tail_window_s(old(hist)@ + idxs@, SYMBOL_HISTORY_CAP as int),
{
    let ghost hist0 = old(hist)@;
    let mut k: usize = 0;
    while k < idxs.len()
        invariant
            k <= idxs@.len(),
            hist@ == hist0 + idxs@.take(k as int),
        decreases idxs@.len() - k,
    {
        hist.push(idxs[k]);
        proof {
            assert(hist0 + idxs@.take(k + 1) =~= (hist0 + idxs@.take(k as int)).push(
                idxs@[k as int],
            ));
        }
        k = k + 1;
    }
    proof {
        assert(idxs@.take(idxs@.len() as int) =~= idxs@);
    }
    let ghost full = hist0 + idxs@;
    proof {
        assert(full.skip(0) =~= full);
    }
    while hist.len() > SYMBOL_HISTORY_CAP
        invariant
            hist@.len() <= full.len(),
            hist@.len() >= if full.len() <= SYMBOL_HISTORY_CAP {
                full.len() as int
            } else {
                SYMBOL_HISTORY_CAP as int
            },
            hist@ == full.skip(full.len() - hist@.len()),
        decreases hist@.len(),
    {
        proof {
            let cur = hist@;
            assert(cur.skip(1) =~= full.skip(full.len() - cur.len() + 1));
        }
        hist.remove(0);
    }
    proof {
        assert(full.skip(0) =~= full);
    }
}

impl FractalMind {
    /// Learn one input: derive a point per character, merge or create its
    /// symbol, record the resulting trajectory (optionally bearing a
    /// source-image reference), reinforce crossing trajectories and the
    /// containing field, and roll the recent-symbol window.
    #[verifier::rlimit(100)]
    pub fn learn_concept_with_intensity_and_image(
        &mut self,
        concept: &str,
        intensity: i64,
        image_path: Option<String>,
    )
        requires
            old(self).wf(),
            0 <= intensity <= FP,
        ensures
            learn_post(*old(self), *final(self), concept@, intensity as int, image_path),
    {
        let ghost m0 = *old(self);
        let n = concept.unicode_len();
        if n == 0 {
            return ;
        }
        let text_hash = hash_str(concept);
        let mut path: Vec<MandelbrotCoord> = Vec::new();
        let mut symbol_indices: Vec<usize> = Vec::new();
        let ghost mut chain: Seq<Seq<FractalSymbol>> = seq![m0.symbols@];
        let mut i: usize = 0;
        while i < n
            invariant
                i <= n,
                n == concept@.len(),
                chain.len() == i + 1,
                chain[0] == m0.symbols@,
                chain[i as int] == self.symbols@,
                forall|j: int|
                    0 <= j < i ==> store_insert_post(
                        #[trigger] chain[j],
                        chain[j + 1],
                        symbol_indices@[j] as int,
                        learn_point_s(concept@, j, intensity as int),
                        fingerprint_s(learn_point_s(concept@, j, intensity as int), m0.scale),
                        stability_s(learn_point_s(concept@, j, intensity as int), m0.scale),
                        concept@[j],
                    ),
                forall|j: int|
                    0 <= j < i ==> (#[trigger] self.symbols@[symbol_indices@[j] as int]).label
                        is Some,
                m0.symbols@.len() == 0 && i > 0 ==> self.symbols@.len() > 0
                    && self.symbols@[0].label == Some(concept@[0]),
                text_hash == hash_chars_s(concept@),
                0 <= intensity <= FP,
                path@.len() == i,
                symbol_indices@.len() == i,
                forall|j: int|
                    0 <= j < i ==> #[trigger] path@[j] == learn_point_s(
                        concept@,
                        j,
                        intensity as int,
                    ) && in_bounds(path@[j]),
                forall|j: int|
                    0 <= j < i ==> #[trigger] symbol_indices@[j] < self.symbols@.len(),
                self.wf(),
                m0.symbols@.len() <= self.symbols@.len() <= m0.symbols@.len() + i,
                forall|k: int|
                    0 <= k < m0.symbols@.len() ==> (#[trigger] self.symbols@[k]).pattern
                        == m0.symbols@[k].pattern && self.symbols@[k].coord == m0.symbols@[k].coord
                        && self.symbols@[k].stability == m0.symbols@[k].stability,
                ((intensity < INTENSITY_CHAR_LEVEL && (forall|j: int|
                    0 <= j < concept@.len() ==> #[trigger] char_symbol_present_s(
                        m0.symbols@,
                        concept@,
                        j,
                        m0.scale,
                    ))) ==> self.symbols@.len() == m0.symbols@.len()),
                (intensity < INTENSITY_CHAR_LEVEL ==> (forall|j: int|
                    0 <= j < i ==> #[trigger] char_symbol_present_s(
                        self.symbols@,
                        concept@,
                        j,
                        m0.scale,
                    ))),
                i > 0 ==> self.current_coord == path@[i - 1],
                i == 0 ==> self.current_coord == m0.current_coord,
                self.trajectories == m0.trajectories,
                self.associative_fields == m0.associative_fields,
                self.contextual_coord == m0.contextual_coord,
                self.background_thought_coord == m0.background_thought_coord,
                self.context_history == m0.context_history,
                self.symbol_history == m0.symbol_history,
                self.last_output == m0.last_output,
                self.inhibited_symbols == m0.inhibited_symbols,
                self.inhibited_trajectories == m0.inhibited_trajectories,
                self.scale == m0.scale,
                self.exploration_radius == m0.exploration_radius,
                m0.wf(),
            decreases n - i,
        {
            let c = concept.get_char(i);
            let coord = if intensity < INTENSITY_CHAR_LEVEL {
                point_from_char(c)
            } else {
                char_context_point(concept, text_hash, i as u64, c)
            };
            path.push(coord);
            let ghost syms_before = self.symbols@;
            let idx = self.store_symbol_at_coord(coord, c);
            proof {
                if intensity < INTENSITY_CHAR_LEVEL {
                    let fpat_i = fingerprint_s(coord, m0.scale);
                    assert(coord == point_from_text_s(seq![concept@[i as int]]));
                    match first_match_s(syms_before, fpat_i) {
                        Some(mi) => {
                            lemma_first_match_props(syms_before, fpat_i, 0);
                            assert(self.symbols@[mi].pattern == syms_before[mi].pattern);
                            assert(char_symbol_present_s(
                                self.symbols@,
                                concept@,
                                i as int,
                                m0.scale,
                            ));
                        },
                        None => {
                            crate::fingerprint::lemma_hamming_self(fpat_i);
                            assert(self.symbols@[syms_before.len() as int].pattern@ == fpat_i);
                            assert(char_symbol_present_s(
                                self.symbols@,
                                concept@,
                                i as int,
                                m0.scale,
                            ));
                        },
                    }
                    assert forall|j: int| 0 <= j < i implies char_symbol_present_s(
                        self.symbols@,
                        concept@,
                        j,
                        m0.scale,
                    ) by {
                        assert(char_symbol_present_s(syms_before, concept@, j, m0.scale));
                        let k = choose|k: int|
                            0 <= k < syms_before.len() && hamming_s(
                                fingerprint_s(point_from_text_s(seq![concept@[j]]), m0.scale),
                                (#[trigger] syms_before[k]).pattern@,
                            ) < MERGE_THRESHOLD;
                        assert(self.symbols@[k].pattern == syms_before[k].pattern);
                    }
                    if forall|j: int|
                        0 <= j < concept@.len() ==> #[trigger] char_symbol_present_s(
                            m0.symbols@,
                            concept@,
                            j,
                            m0.scale,
                        ) {
                        assert(char_symbol_present_s(m0.symbols@, concept@, i as int, m0.scale));
                        let k = choose|k: int|
                            0 <= k < m0.symbols@.len() && hamming_s(
                                fingerprint_s(
                                    point_from_text_s(seq![concept@[i as int]]),
                                    m0.scale,
                                ),
                                (#[trigger] m0.symbols@[k]).pattern@,
                            ) < MERGE_THRESHOLD;
                        assert(syms_before[k].pattern == m0.symbols@[k].pattern);
                        lemma_first_match_some(syms_before, fpat_i, k);
                    }
                }
            }
            symbol_indices.push(idx);
            proof {
                let j0 = i as int;
                let pt = learn_point_s(concept@, j0, intensity as int);
                assert(coord == pt);
                assert(store_insert_post(
                    syms_before,
                    self.symbols@,
                    idx as int,
                    pt,
                    fingerprint_s(pt, m0.scale),
                    stability_s(pt, m0.scale),
                    concept@[j0],
                ));
                let chain2 = chain.push(self.symbols@);
                assert forall|j: int|
                    0 <= j < i + 1 implies store_insert_post(
                    #[trigger] chain2[j],
                    chain2[j + 1],
                    symbol_indices@[j] as int,
                    learn_point_s(concept@, j, intensity as int),
                    fingerprint_s(learn_point_s(concept@, j, intensity as int), m0.scale),
                    stability_s(learn_point_s(concept@, j, intensity as int), m0.scale),
                    concept@[j],
                ) by {
                    if j < j0 {
                        assert(chain2[j] == chain[j]);
                        assert(chain2[j + 1] == chain[j + 1]);
                        assert(symbol_indices@[j] == symbol_indices@.subrange(0, j0)[j]);
                    } else {
                        assert(chain2[j] == syms_before);
                        assert(chain2[j + 1] == self.symbols@);
                    }
                }
                chain = chain2;
                // Labels: the symbol each character landed on bears one,
                // and earlier characters' symbols keep theirs.
                assert forall|j: int|
                    0 <= j < i + 1 implies (
                #[trigger] self.symbols@[symbol_indices@[j] as int]).label is Some by {
                    let sj = symbol_indices@[j] as int;
                    match first_match_s(syms_before, fingerprint_s(pt, m0.scale)) {
                        Some(mi) => {
                            assert(self.symbols@ == syms_before.update(
                                mi,
                                merged_symbol_s(syms_before[mi], concept@[j0]),
                            ));
                            if j < j0 {
                                assert(syms_before[sj].label is Some);
                            } else {
                                lemma_first_match_props(
                                    syms_before,
                                    fingerprint_s(pt, m0.scale),
                                    0,
                                );
                            }
                        },
                        None => {
                            if j < j0 {
                                assert(sj < syms_before.len());
                                assert(self.symbols@[sj] == syms_before[sj]);
                            } else {
                                assert(sj == syms_before.len());
                            }
                        },
                    }
                }
                // From an empty store the first character founds symbol
                // zero with its own label, and nothing relabels it.
                if m0.symbols@.len() == 0 {
                    if j0 == 0 {
                        assert(first_match_s(syms_before, fingerprint_s(pt, m0.scale))
                            is None);
                        assert(self.symbols@[0].label == Some(concept@[0]));
                    } else {
                        match first_match_s(syms_before, fingerprint_s(pt, m0.scale)) {
                            Some(mi) => {
                                assert(syms_before[0].label == Some(concept@[0]));
                                if mi == 0 {
                                    assert(self.symbols@[0] == merged_symbol_s(
                                        syms_before[0],
                                        concept@[j0],
                                    ));
                                } else {
                                    assert(self.symbols@[0] == syms_before[0]);
                                }
                            },
                            None => {
                                assert(self.symbols@[0] == syms_before[0]);
                            },
                        }
                    }
                }
            }
            self.current_coord = coord;
            i = i + 1;
        }
        let pos = self.current_coord;
        let er = self.exploration_radius;
        let ghost new_path = path@;
        let ghost idxs = symbol_indices@;
        cross_reinforce(&mut self.trajectories, &path, er);
        update_fields(&mut self.associative_fields, pos, intensity, er);
        roll_history(&mut self.symbol_history, &symbol_indices);
        // Record the trajectory itself.
        let owned: String = concept.to_owned();
        let trajectory = match image_path {
            Some(img) => ConceptTrajectory::new_with_image(path, owned, symbol_indices, img),
            None => ConceptTrajectory::new(path, owned, symbol_indices),
        };
        let ghost pre_push = self.trajectories@;
        self.trajectories.push(trajectory);
        proof {
            assert(self.trajectories@ == pre_push.push(trajectory));
            assert(trajectory.path@ == new_path);
            assert(trajectory.symbols@ == idxs);
            assert(trajectory.wf());
            assert forall|t: int| 0 <= t < self.trajectories@.len() implies (
            #[trigger] self.trajectories@[t]).wf() by {
                if t < pre_push.len() {
                    assert(self.trajectories@[t] == pre_push[t]);
                    assert(pre_push[t].wf());
                } else {
                    assert(self.trajectories@[t] == trajectory);
                }
            }
            assert(learn_chain_ok_s(
                chain,
                m0.symbols@,
                self.symbols@,
                idxs,
                concept@,
                intensity as int,
                m0.scale,
            ));
            assert forall|t: int, k: int|
                0 <= t < self.trajectories@.len() && 0 <= k
                    < self.trajectories@[t].symbols@.len() implies #[trigger] self.trajectories@[t].symbols@[k]
                < self.symbols@.len() by {
                if t < pre_push.len() {
                    assert(self.trajectories@[t] == pre_push[t]);
                    assert(pre_push[t].symbols == m0.trajectories@[t].symbols);
                    assert(m0.trajectories@[t].symbols@[k] < m0.symbols@.len());
                } else {
                    assert(self.trajectories@[t] == trajectory);
                    assert(idxs[k] < self.symbols@.len());
                }
            }
            assert forall|t: int| 0 <= t < m0.trajectories@.len() implies {
                let o = #[trigger] m0.trajectories@[t];
                let nt = self.trajectories@[t];
                &&& nt.path == o.path
                &&& nt.symbols == o.symbols
                &&& nt.image_path == o.image_path
                &&& nt.strength == if cross_hit_s(new_path, o.path@, er as int) {
                    boost_strength_s(o.strength as int, CROSS_BONUS as int)
                } else {
                    o.strength as int
                }
            } by {
                assert(self.trajectories@[t] == pre_push[t]);
            }
        }
    }
}

/// Merge convergence: once one character has been learned alone at a
/// low intensity, learning it again at a low intensity merges into the
/// store instead of growing it.  Chained across calls, repeatedly
/// learning the identical character keeps the store at a bounded size
/// instead of growing it with the repetitions.
pub proof fn lemma_merge_convergence(
    m0: FractalMind,
    m1: FractalMind,
    m2: FractalMind,
    c: char,
    i1: int,
    i2: int,
)
    requires
        learn_post(m0, m1, seq![c], i1, None),
        learn_post(m1, m2, seq![c], i2, None),
        i1 < INTENSITY_CHAR_LEVEL,
        i2 < INTENSITY_CHAR_LEVEL,
    ensures
        m2.symbols@.len() == m1.symbols@.len(),
{
    let text = seq![c];
    assert(text.len() == 1);
    assert(char_symbol_present_s(m1.symbols@, text, 0, m0.scale));
    assert(m1.scale == m0.scale);
    assert forall|j: int|
        0 <= j < text.len() implies #[trigger] char_symbol_present_s(
        m1.symbols@,
        text,
        j,
        m1.scale,
    ) by {
        assert(char_symbol_present_s(m1.symbols@, text, 0, m0.scale));
    }
}

/// A symbol after one pruning pass's confidence decay: the fixed rate is
/// taken off, floored at zero.
pub open spec fn decayed_sym_s(s: FractalSymbol) -> FractalSymbol {
    FractalSymbol {
        coord: s.coord,
        pattern: s.pattern,
        count: s.count,
        label: s.label,
        confidence: if s.confidence - CONFIDENCE_DECAY >= 0 {
            (s.confidence - CONFIDENCE_DECAY) as i64
        } else {
            0
        },
        stability: s.stability,
    }
}

/// Whether some trajectory among the first `t` references symbol `idx`.
pub open spec fn referenced_upto_s(trajs: Seq<ConceptTrajectory>, idx: int, t: int) -> bool {
    exists|t2: int, k2: int|
        #![trigger trajs[t2].symbols@[k2]]
        0 <= t2 < t && t2 < trajs.len() && 0 <= k2 < trajs[t2].symbols@.len()
            && trajs[t2].symbols@[k2] == idx
}

/// Whether any trajectory references symbol `idx`.
pub open spec fn referenced_s(trajs: Seq<ConceptTrajectory>, idx: int) -> bool {
    referenced_upto_s(trajs, idx, trajs.len() as int)
}

/// Whether symbol `i` survives a pruning pass: it survives unless its
/// decayed confidence is at or under the floor, its usage count at or
/// under its floor, and no trajectory references it.
pub open spec fn keep_sym_s(syms: Seq<FractalSymbol>, trajs: Seq<ConceptTrajectory>, i: int) -> bool {
    ||| decayed_sym_s(syms[i]).confidence > CONFIDENCE_PRUNE_FLOOR
    ||| syms[i].count > COUNT_PRUNE_FLOOR
    ||| referenced_s(trajs, i)
}

/// How many of the first `i` symbols survive the pruning pass: the
/// surviving symbol `i` moves to this index.
pub open spec fn kept_before_s(syms: Seq<FractalSymbol>, trajs: Seq<ConceptTrajectory>, i: int) -> int
    decreases i,
{
    if i <= 0 {
        0
    } else {
        kept_before_s(syms, trajs, i - 1) + if keep_sym_s(syms, trajs, i - 1) {
            1int
        } else {
            0int
        }
    }
}

/// The surviving count never exceeds the range scanned, and grows by one
/// exactly across each surviving index.
pub proof fn lemma_kept_before_mono(
    syms: Seq<FractalSymbol>,
    trajs: Seq<ConceptTrajectory>,
    i: int,
    j: int,
)
    requires
        0 <= i <= j,
    ensures
        0 <= kept_before_s(syms, trajs, i) <= i,
        kept_before_s(syms, trajs, i) <= kept_before_s(syms, trajs, j),
        i < j && keep_sym_s(syms, trajs, i) ==> kept_before_s(syms, trajs, i) < kept_before_s(
            syms,
            trajs,
            j,
        ),
    decreases j,
{
    if j > 0 {
        if i <= j - 1 {
            lemma_kept_before_mono(syms, trajs, i, j - 1);
        } else {
            lemma_kept_before_mono(syms, trajs, j - 1, j - 1);
        }
    }
}

/// What one pruning pass does to the aggregate: every symbol's confidence
/// decays by the fixed rate, symbols that fell to the floor, saw little
/// use and are unreferenced are removed, and every trajectory's symbol
/// indices are remapped onto the compacted store, atomically.
pub open spec fn prune_post(m0: FractalMind, m1: FractalMind) -> bool {
    let syms = m0.symbols@;
    let trajs = m0.trajectories@;
    &&& m1.wf()
    &&& m1.symbols@.len() == kept_before_s(syms, trajs, syms.len() as int)
    &&& (forall|i: int|
        0 <= i < syms.len() && keep_sym_s(syms, trajs, i) ==> m1.symbols@[#[trigger] kept_before_s(
            syms,
            trajs,
            i,
        )] == decayed_sym_s(syms[i]))
    &&& m1.trajectories@.len() == trajs.len()
    &&& (forall|t: int|
        0 <= t < trajs.len() ==> {
            let o = #[trigger] trajs[t];
            let nt = m1.trajectories@[t];
            &&& nt.path == o.path
            &&& nt.strength == o.strength
            &&& nt.image_path == o.image_path
            &&& nt.symbols@.len() == o.symbols@.len()
            &&& (forall|k: int|
                0 <= k < o.symbols@.len() ==> #[trigger] nt.symbols@[k] == kept_before_s(
                    syms,
                    trajs,
                    o.symbols@[k] as int,
                ))
        })
    &&& m1.associative_fields == m0.associative_fields
    &&& m1.current_coord == m0.current_coord
    &&& m1.contextual_coord == m0.contextual_coord
    &&& m1.background_thought_coord == m0.background_thought_coord
    &&& m1.context_history == m0.context_history
    &&& m1.symbol_history == m0.symbol_history
    &&& m1.last_output == m0.last_output
    &&& m1.inhibited_symbols == m0.inhibited_symbols
    &&& m1.inhibited_trajectories == m0.inhibited_trajectories
    &&& m1.scale == m0.scale
    &&& m1.exploration_radius == m0.exploration_radius
}

proof fn lemma_ref_upto_step(trajs: Seq<ConceptTrajectory>, idx: int, t: int)
    requires
        0 <= t < trajs.len(),
    ensures
        referenced_upto_s(trajs, idx, t + 1) == (referenced_upto_s(trajs, idx, t) || exists|
            k2: int,
        |
            0 <= k2 < trajs[t].symbols@.len() && #[trigger] trajs[t].symbols@[k2] == idx),
{
    if referenced_upto_s(trajs, idx, t + 1) {
        let (t2, k2) = choose|t2: int, k2: int|
            #![trigger trajs[t2].symbols@[k2]]
            0 <= t2 < t + 1 && t2 < trajs.len() && 0 <= k2 < trajs[t2].symbols@.len()
                && trajs[t2].symbols@[k2] == idx;
        if t2 < t {
            assert(referenced_upto_s(trajs, idx, t));
        } else {
            assert(trajs[t].symbols@[k2] == idx);
        }
    }
    if referenced_upto_s(trajs, idx, t) {
        assert(referenced_upto_s(trajs, idx, t + 1));
    }
    if exists|k2: int| 0 <= k2 < trajs[t].symbols@.len() && #[trigger] trajs[t].symbols@[k2]
        == idx {
        let k2 = choose|k2: int|
            0 <= k2 < trajs[t].symbols@.len() && #[trigger] trajs[t].symbols@[k2] == idx;
        assert(trajs[t].symbols@[k2] == idx);
        assert(referenced_upto_s(trajs, idx, t + 1));
    }
}

impl FractalMind {
    /// One pruning pass: decay every symbol's confidence, remove each
    /// symbol that decayed to the floor, saw little use and is referenced
    /// by no trajectory, and remap every trajectory's symbol indices onto
    /// the compacted store in the same pass.
    #[verifier::rlimit(100)]
    pub fn decay_symbols(&mut self)
        requires
            old(self).wf(),
        ensures
            prune_post(*old(self), *final(self)),
    {
        let ghost m0 = *old(self);
        let n = self.symbols.len();
        // Decay every confidence by the fixed rate, floored at zero.
        let mut i: usize = 0;
        while i < n
            invariant
                i <= n,
                n == self.symbols@.len(),
                n == m0.symbols@.len(),
                forall|k: int|
                    0 <= k < i ==> #[trigger] self.symbols@[k] == decayed_sym_s(m0.symbols@[k]),
                forall|k: int| i <= k < n ==> #[trigger] self.symbols@[k] == m0.symbols@[k],
                self.trajectories == m0.trajectories,
                self.associative_fields == m0.associative_fields,
                self.current_coord == m0.current_coord,
                self.contextual_coord == m0.contextual_coord,
                self.background_thought_coord == m0.background_thought_coord,
                self.context_history == m0.context_history,
                self.symbol_history == m0.symbol_history,
                self.last_output == m0.last_output,
                self.inhibited_symbols == m0.inhibited_symbols,
                self.inhibited_trajectories == m0.inhibited_trajectories,
                self.scale == m0.scale,
                self.exploration_radius == m0.exploration_radius,
                m0.wf(),
            decreases n - i,
        {
            let c = self.symbols[i].confidence;
            self.symbols[i].confidence = if c - CONFIDENCE_DECAY >= 0 {
                c - CONFIDENCE_DECAY
            } else {
                0
            };
            i = i + 1;
        }
        // Mark the symbols some trajectory references.
        let mut refd: Vec<bool> = Vec::new();
        let mut j: usize = 0;
        while j < n
            invariant
                j <= n,
                refd@.len() == j,
                forall|x: int| 0 <= x < j ==> !(#[trigger] refd@[x]),
            decreases n - j,
        {
            refd.push(false);
            j = j + 1;
        }
        let tn = self.trajectories.len();
        let mut t: usize = 0;
        while t < tn
            invariant
                t <= tn,
                tn == m0.trajectories@.len(),
                refd@.len() == n,
                n == m0.symbols@.len(),
                self.trajectories == m0.trajectories,
                forall|x: int|
                    0 <= x < n ==> #[trigger] refd@[x] == referenced_upto_s(
                        m0.trajectories@,
                        x,
                        t as int,
                    ),
                m0.wf(),
            decreases tn - t,
        {
            let sn = self.trajectories[t].symbols.len();
            let mut k: usize = 0;
            while k < sn
                invariant
                    k <= sn,
                    t < tn,
                    tn == m0.trajectories@.len(),
                    sn == m0.trajectories@[t as int].symbols@.len(),
                    refd@.len() == n,
                    n == m0.symbols@.len(),
                    self.trajectories == m0.trajectories,
                    forall|x: int|
                        0 <= x < n ==> #[trigger] refd@[x] == (referenced_upto_s(
                            m0.trajectories@,
                            x,
                            t as int,
                        ) || exists|k2: int|
                            0 <= k2 < k && #[trigger] m0.trajectories@[t as int].symbols@[k2]
                                == x),
                    m0.wf(),
                decreases sn - k,
            {
                let oi = self.trajectories[t].symbols[k];
                proof {
                    assert(m0.trajectories@[t as int].symbols@[k as int] < n);
                }
                refd[oi] = true;
                k = k + 1;
            }
            proof {
                assert forall|x: int|
                    0 <= x < n implies #[trigger] refd@[x] == referenced_upto_s(
                    m0.trajectories@,
                    x,
                    t + 1,
                ) by {
                    lemma_ref_upto_step(m0.trajectories@, x, t as int);
                }
            }
            t = t + 1;
        }
        // Rebuild the store, keeping the surviving symbols in order and
        // recording where each old index went.
        let ghost trajs = m0.trajectories@;
        let mut olds: Vec<FractalSymbol> = Vec::new();
        core::mem::swap(&mut self.symbols, &mut olds);
        let ghost dsyms = olds@;
        let mut index_map: Vec<usize> = Vec::new();
        let mut i2: usize = 0;
        while i2 < n
            invariant
                i2 <= n,
                n == m0.symbols@.len(),
                refd@.len() == n,
                olds@ == dsyms.skip(i2 as int),
                dsyms.len() == n,
                forall|x: int| 0 <= x < n ==> #[trigger] dsyms[x] == decayed_sym_s(m0.symbols@[x]),
                forall|x: int|
                    0 <= x < n ==> #[trigger] refd@[x] == referenced_s(m0.trajectories@, x),
                index_map@.len() == i2,
                self.symbols@.len() == kept_before_s(m0.symbols@, trajs, i2 as int),
                forall|x: int|
                    0 <= x < i2 && keep_sym_s(m0.symbols@, trajs, x) ==> #[trigger] index_map@[x]
                        == kept_before_s(m0.symbols@, trajs, x),
                forall|x: int|
                    0 <= x < i2 && keep_sym_s(m0.symbols@, trajs, x)
                        ==> self.symbols@[#[trigger] kept_before_s(m0.symbols@, trajs, x)]
                        == decayed_sym_s(m0.symbols@[x]),
                self.trajectories == m0.trajectories,
                self.associative_fields == m0.associative_fields,
                self.current_coord == m0.current_coord,
                self.contextual_coord == m0.contextual_coord,
                self.background_thought_coord == m0.background_thought_coord,
                self.context_history == m0.context_history,
                self.symbol_history == m0.symbol_history,
                self.last_output == m0.last_output,
                self.inhibited_symbols == m0.inhibited_symbols,
                self.inhibited_trajectories == m0.inhibited_trajectories,
                self.scale == m0.scale,
                self.exploration_radius == m0.exploration_radius,
                m0.wf(),
            decreases n - i2,
        {
            proof {
                assert(dsyms.skip(i2 as int)[0] == dsyms[i2 as int]);
                lemma_kept_before_mono(m0.symbols@, trajs, i2 as int, n as int);
            }
            let s = olds.remove(0);
            let r = refd[i2];
            proof {
                assert(dsyms.skip(i2 as int).skip(1) =~= dsyms.skip(i2 + 1));
            }
            if s.confidence > CONFIDENCE_PRUNE_FLOOR || s.count > COUNT_PRUNE_FLOOR || r {
                proof {
                    assert(keep_sym_s(m0.symbols@, trajs, i2 as int));
                }
                index_map.push(self.symbols.len());
                self.symbols.push(s);
                proof {
                    assert forall|x: int|
                        0 <= x < i2 + 1 && keep_sym_s(m0.symbols@, trajs, x) implies self.symbols@[
                        #[trigger] kept_before_s(m0.symbols@, trajs, x)] == decayed_sym_s(
                        m0.symbols@[x],
                    ) by {
                        lemma_kept_before_mono(m0.symbols@, trajs, x, i2 as int);
                    }
                }
            } else {
                proof {
                    assert(!keep_sym_s(m0.symbols@, trajs, i2 as int));
                }
                index_map.push(0);
            }
            i2 = i2 + 1;
        }
        // Remap every trajectory's symbol indices onto the compacted
        // store: referenced symbols always survive, so each index lands
        // on its symbol's new home.
        let ghost new_syms = self.symbols@;
        let mut t2: usize = 0;
        while t2 < tn
            invariant
                t2 <= tn,
                tn == m0.trajectories@.len(),
                n == m0.symbols@.len(),
                refd@.len() == n,
                index_map@.len() == n,
                self.symbols@ == new_syms,
                new_syms.len() == kept_before_s(m0.symbols@, trajs, n as int),
                forall|x: int|
                    0 <= x < n && keep_sym_s(m0.symbols@, trajs, x) ==> #[trigger] index_map@[x]
                        == kept_before_s(m0.symbols@, trajs, x),
                forall|x: int|
                    0 <= x < n && keep_sym_s(m0.symbols@, trajs, x)
                        ==> new_syms[#[trigger] kept_before_s(m0.symbols@, trajs, x)]
                        == decayed_sym_s(m0.symbols@[x]),
                self.trajectories@.len() == tn,
                forall|u: int|
                    0 <= u < t2 ==> {
                        let o = #[trigger] m0.trajectories@[u];
                        let nt = self.trajectories@[u];
                        &&& nt.path == o.path
                        &&& nt.strength == o.strength
                        &&& nt.image_path == o.image_path
                        &&& nt.symbols@.len() == o.symbols@.len()
                        &&& (forall|k: int|
                            0 <= k < o.symbols@.len() ==> #[trigger] nt.symbols@[k]
                                == kept_before_s(m0.symbols@, trajs, o.symbols@[k] as int))
                    },
                forall|u: int|
                    t2 <= u < tn ==> #[trigger] self.trajectories@[u] == m0.trajectories@[u],
                self.associative_fields == m0.associative_fields,
                self.current_coord == m0.current_coord,
                self.contextual_coord == m0.contextual_coord,
                self.background_thought_coord == m0.background_thought_coord,
                self.context_history == m0.context_history,
                self.symbol_history == m0.symbol_history,
                self.last_output == m0.last_output,
                self.inhibited_symbols == m0.inhibited_symbols,
                self.inhibited_trajectories == m0.inhibited_trajectories,
                self.scale == m0.scale,
                self.exploration_radius == m0.exploration_radius,
                m0.wf(),
            decreases tn - t2,
        {
            let sn = self.trajectories[t2].symbols.len();
            let mut ns: Vec<usize> = Vec::new();
            let mut k: usize = 0;
            while k < sn
                invariant
                    k <= sn,
                    t2 < tn,
                    tn == m0.trajectories@.len(),
                    n == m0.symbols@.len(),
                    index_map@.len() == n,
                    self.trajectories@[t2 as int] == m0.trajectories@[t2 as int],
                    sn == m0.trajectories@[t2 as int].symbols@.len(),
                    ns@.len() == k,
                    forall|x: int|
                        0 <= x < n && keep_sym_s(m0.symbols@, trajs, x)
                            ==> #[trigger] index_map@[x] == kept_before_s(m0.symbols@, trajs, x),
                    forall|q: int|
                        0 <= q < k ==> #[trigger] ns@[q] == kept_before_s(
                            m0.symbols@,
                            trajs,
                            m0.trajectories@[t2 as int].symbols@[q] as int,
                        ),
                    m0.wf(),
                decreases sn - k,
            {
                let oi = self.trajectories[t2].symbols[k];
                proof {
                    assert(m0.trajectories@[t2 as int].symbols@[k as int] < n);
                    assert(referenced_s(trajs, oi as int));
                    assert(keep_sym_s(m0.symbols@, trajs, oi as int));
                }
                ns.push(index_map[oi]);
                k = k + 1;
            }
            self.trajectories[t2].symbols = ns;
            t2 = t2 + 1;
        }
        proof {
            assert forall|t: int| 0 <= t < tn implies (#[trigger] self.trajectories@[t]).wf() by {
                let o = m0.trajectories@[t];
                assert(o.wf());
                assert(self.trajectories@[t].path == o.path);
            }
            assert forall|t: int, k: int|
                0 <= t < self.trajectories@.len() && 0 <= k
                    < self.trajectories@[t].symbols@.len() implies #[trigger] self.trajectories@[t].symbols@[k]
                < self.symbols@.len() by {
                let o = m0.trajectories@[t];
                let oi = o.symbols@[k] as int;
                assert(referenced_s(trajs, oi));
                assert(keep_sym_s(m0.symbols@, trajs, oi));
                lemma_kept_before_mono(m0.symbols@, trajs, oi, n as int);
            }
            assert forall|i: int| 0 <= i < self.symbols@.len() implies (
            #[trigger] self.symbols@[i]).wf() by {
                lemma_kept_pullback(m0.symbols@, trajs, i, n as int);
                let x = choose|x: int|
                    0 <= x < n && keep_sym_s(m0.symbols@, trajs, x) && #[trigger] kept_before_s(
                        m0.symbols@,
                        trajs,
                        x,
                    ) == i;
                assert(self.symbols@[i] == decayed_sym_s(m0.symbols@[x]));
                assert(m0.symbols@[x].wf());
            }
        }
    }
}

/// Every index of the compacted store is the image of some surviving
/// symbol.
proof fn lemma_kept_pullback(
    syms: Seq<FractalSymbol>,
    trajs: Seq<ConceptTrajectory>,
    i: int,
    n: int,
)
    requires
        0 <= n <= syms.len(),
        0 <= i < kept_before_s(syms, trajs, n),
    ensures
        exists|x: int|
            0 <= x < n && keep_sym_s(syms, trajs, x) && #[trigger] kept_before_s(syms, trajs, x)
                == i,
    decreases n,
{
    lemma_kept_before_mono(syms, trajs, n - 1, n);
    if keep_sym_s(syms, trajs, n - 1) && kept_before_s(syms, trajs, n - 1) == i {
        assert(kept_before_s(syms, trajs, n - 1) == i);
    } else {
        lemma_kept_pullback(syms, trajs, i, n - 1);
    }
}

} // verus!
