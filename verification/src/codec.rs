//! The persistence format: the aggregate's durable state as one
//! self-describing binary blob.  Every value is framed as little-endian
//! 64-bit words; decoding validates structure and ranges, and decoding
//! what encoding produced gives back the same durable state with the two
//! session-local windows empty.
use vstd::prelude::*;

verus! {

use crate::fixed::FP;
use crate::fractal::{MandelbrotCoord, in_bounds};
use crate::memory::{FractalSymbol, ConceptTrajectory, AssociativeField, STRENGTH_MAX};
use crate::mind::FractalMind;
use crate::text::push_char;
use vstd::string::StrSliceExecFns;

/// Tag that opens every saved blob.
pub const FORMAT_TAG: u64 = 0x464d_494e_4431_0001;

/// The eight little-endian bytes of one word.
pub open spec fn enc_u64_s(x: u64) -> Seq<u8> {
    seq![
        (x >> 0) as u8,
        (x >> 8) as u8,
        (x >> 16) as u8,
        (x >> 24) as u8,
        (x >> 32) as u8,
        (x >> 40) as u8,
        (x >> 48) as u8,
        (x >> 56) as u8,
    ]
}

/// One word read back from eight little-endian bytes at `pos`.
pub open spec fn dec_u64_s(b: Seq<u8>, pos: int) -> Option<(u64, int)> {
    if 0 <= pos && pos + 8 <= b.len() {
        let x = (b[pos] as u64) | (b[pos + 1] as u64) << 8 | (b[pos + 2] as u64) << 16 | (b[pos
            + 3] as u64) << 24 | (b[pos + 4] as u64) << 32 | (b[pos + 5] as u64) << 40 | (b[pos
            + 6] as u64) << 48 | (b[pos + 7] as u64) << 56;
        Some((x, pos + 8))
    } else {
        None
    }
}

/// Reading the eight bytes a word was encoded to gives that word back,
/// wherever the bytes stand.
pub proof fn lemma_u64_round_trip(b: Seq<u8>, pos: int, x: u64)
    requires
        0 <= pos,
        pos + 8 <= b.len(),
        b.subrange(pos, pos + 8) == enc_u64_s(x),
    ensures
        dec_u64_s(b, pos) == Some((x, pos + 8)),
{
    assert(b[pos] == (x >> 0) as u8 && b[pos + 1] == (x >> 8) as u8 && b[pos + 2] == (x >> 16)
        as u8 && b[pos + 3] == (x >> 24) as u8 && b[pos + 4] == (x >> 32) as u8 && b[pos + 5] == (x
        >> 40) as u8 && b[pos + 6] == (x >> 48) as u8 && b[pos + 7] == (x >> 56) as u8) by {
        assert(b.subrange(pos, pos + 8)[0] == b[pos]);
        assert(b.subrange(pos, pos + 8)[1] == b[pos + 1]);
        assert(b.subrange(pos, pos + 8)[2] == b[pos + 2]);
        assert(b.subrange(pos, pos + 8)[3] == b[pos + 3]);
        assert(b.subrange(pos, pos + 8)[4] == b[pos + 4]);
        assert(b.subrange(pos, pos + 8)[5] == b[pos + 5]);
        assert(b.subrange(pos, pos + 8)[6] == b[pos + 6]);
        assert(b.subrange(pos, pos + 8)[7] == b[pos + 7]);
    }
    assert((((x >> 0) as u8) as u64) | (((x >> 8) as u8) as u64) << 8 | (((x >> 16) as u8) as u64)
        << 16 | (((x >> 24) as u8) as u64) << 24 | (((x >> 32) as u8) as u64) << 32 | (((x >> 40)
        as u8) as u64) << 40 | (((x >> 48) as u8) as u64) << 48 | (((x >> 56) as u8) as u64) << 56
        == x) by (bit_vector);
}

/// The body of a word list: each word's bytes in order.
pub open spec fn enc_words_body_s(s: Seq<u64>) -> Seq<u8>
    decreases s.len(),
{
    if s.len() == 0 {
        Seq::empty()
    } else {
        enc_words_body_s(s.drop_last()) + enc_u64_s(s.last())
    }
}

/// A word list: its length, then its words.
pub open spec fn enc_words_s(s: Seq<u64>) -> Seq<u8> {
    enc_u64_s(s.len() as u64) + enc_words_body_s(s)
}

/// `n` words read back from `pos`.
pub open spec fn dec_words_body_s(b: Seq<u8>, pos: int, n: nat) -> Option<(Seq<u64>, int)>
    decreases n,
{
    if n == 0 {
        Some((Seq::empty(), pos))
    } else {
        match dec_words_body_s(b, pos, (n - 1) as nat) {
            Some((s, p)) => match dec_u64_s(b, p) {
                Some((x, p2)) => Some((s.push(x), p2)),
                None => None,
            },
            None => None,
        }
    }
}

/// A word list read back from `pos`: its length, then its words.  Lists
/// longer than the byte budget allows are refused.
pub open spec fn dec_words_s(b: Seq<u8>, pos: int) -> Option<(Seq<u64>, int)> {
    match dec_u64_s(b, pos) {
        Some((n, p)) => if n <= 0x0fff_ffff {
            dec_words_body_s(b, p, n as nat)
        } else {
            None
        },
        None => None,
    }
}

/// A word-list body's length in bytes.
pub proof fn lemma_words_body_len(s: Seq<u64>)
    ensures
        enc_words_body_s(s).len() == 8 * s.len(),
    decreases s.len(),
{
    if s.len() > 0 {
        lemma_words_body_len(s.drop_last());
    }
}

proof fn lemma_words_body_round_trip(b: Seq<u8>, pos: int, s: Seq<u64>)
    requires
        0 <= pos,
        pos + 8 * s.len() <= b.len(),
        b.subrange(pos, pos + 8 * s.len()) == enc_words_body_s(s),
    ensures
        dec_words_body_s(b, pos, s.len()) == Some((s, pos + 8 * s.len())),
    decreases s.len(),
{
    lemma_words_body_len(s);
    if s.len() > 0 {
        let head = s.drop_last();
        lemma_words_body_len(head);
        assert(b.subrange(pos, pos + 8 * head.len()) =~= enc_words_body_s(head)) by {
            assert(enc_words_body_s(s) == enc_words_body_s(head) + enc_u64_s(s.last()));
            assert forall|i: int|
                #![trigger enc_words_body_s(head)[i]]
                0 <= i < 8 * head.len() implies b.subrange(pos, pos + 8 * head.len())[i]
                == enc_words_body_s(head)[i] by {
                assert(b.subrange(pos, pos + 8 * s.len())[i] == b[pos + i]);
            }
        }
        lemma_words_body_round_trip(b, pos, head);
        let p = pos + 8 * head.len();
        assert(b.subrange(p, p + 8) =~= enc_u64_s(s.last())) by {
            assert forall|i: int|
                #![trigger b.subrange(p, p + 8)[i]]
                0 <= i < 8 implies b.subrange(p, p + 8)[i] == enc_u64_s(s.last())[i] by {
                assert(b.subrange(pos, pos + 8 * s.len())[8 * head.len() + i] == b[p + i]);
                assert((enc_words_body_s(head) + enc_u64_s(s.last()))[8 * head.len() + i]
                    == enc_u64_s(s.last())[i]);
            }
        }
        lemma_u64_round_trip(b, p, s.last());
        assert(s.drop_last().push(s.last()) =~= s);
    }
}

/// Reading a word list where one was written gives the list back.
pub proof fn lemma_words_round_trip(b: Seq<u8>, pos: int, s: Seq<u64>)
    requires
        0 <= pos,
        s.len() <= 0x0fff_ffff,
        pos + 8 + 8 * s.len() <= b.len(),
        b.subrange(pos, pos + 8 + 8 * s.len()) == enc_words_s(s),
    ensures
        dec_words_s(b, pos) == Some((s, pos + 8 + 8 * s.len())),
{
    lemma_words_body_len(s);
    assert(b.subrange(pos, pos + 8) =~= enc_u64_s(s.len() as u64)) by {
        assert forall|i: int|
            #![trigger b.subrange(pos, pos + 8)[i]]
            0 <= i < 8 implies b.subrange(pos, pos + 8)[i] == enc_u64_s(s.len() as u64)[i] by {
            assert(b.subrange(pos, pos + 8 + 8 * s.len())[i] == b[pos + i]);
        }
    }
    lemma_u64_round_trip(b, pos, s.len() as u64);
    assert(b.subrange(pos + 8, pos + 8 + 8 * s.len()) =~= enc_words_body_s(s)) by {
        assert forall|i: int|
            #![trigger enc_words_body_s(s)[i]]
            0 <= i < 8 * s.len() implies b.subrange(pos + 8, pos + 8 + 8 * s.len())[i]
            == enc_words_body_s(s)[i] by {
            assert(b.subrange(pos, pos + 8 + 8 * s.len())[8 + i] == b[pos + 8 + i]);
            assert((enc_u64_s(s.len() as u64) + enc_words_body_s(s))[8 + i] == enc_words_body_s(
                s,
            )[i]);
        }
    }
    lemma_words_body_round_trip(b, pos + 8, s);
}

/// Append the eight little-endian bytes of one word.
pub fn push_u64(out: &mut Vec<u8>, x: u64)
    ensures
        final(out)@ == old(out)@ + enc_u64_s(x),
{
    out.push((x >> 0) as u8);
    out.push((x >> 8) as u8);
    out.push((x >> 16) as u8);
    out.push((x >> 24) as u8);
    out.push((x >> 32) as u8);
    out.push((x >> 40) as u8);
    out.push((x >> 48) as u8);
    out.push((x >> 56) as u8);
    proof {
        assert(out@ =~= old(out)@ + enc_u64_s(x));
    }
}

/// Append a word list: its length, then its words.
pub fn push_words(out: &mut Vec<u8>, words: &Vec<u64>)
    requires
        words@.len() <= 0x0fff_ffff,
    ensures
        final(out)@ == old(out)@ + enc_words_s(words@),
{
    push_u64(out, words.len() as u64);
    let n = words.len();
    let mut i: usize = 0;
    while i < n
        invariant
            i <= n,
            n == words@.len(),
            out@ == old(out)@ + enc_u64_s(words@.len() as u64) + enc_words_body_s(
                words@.take(i as int),
            ),
        decreases n - i,
    {
        push_u64(out, words[i]);
        proof {
            assert(words@.take(i + 1).drop_last() =~= words@.take(i as int));
            assert(words@.take(i + 1).last() == words@[i as int]);
            assert(out@ =~= old(out)@ + enc_u64_s(words@.len() as u64) + enc_words_body_s(
                words@.take(i + 1),
            ));
        }
        i = i + 1;
    }
    proof {
        assert(words@.take(n as int) =~= words@);
        assert(old(out)@ + enc_u64_s(words@.len() as u64) + enc_words_body_s(words@) =~= old(
            out,
        )@ + enc_words_s(words@));
    }
}

/// Read one word at `pos`.
pub fn read_u64(b: &Vec<u8>, pos: usize) -> (r: Option<(u64, usize)>)
    ensures
        (r is Some) == (dec_u64_s(b@, pos as int) is Some),
        r matches Some(v) ==> dec_u64_s(b@, pos as int) == Some((v.0, v.1 as int)),
{
    if pos < b.len() && b.len() - pos >= 8 {
        let x = (b[pos] as u64) | (b[pos + 1] as u64) << 8u64 | (b[pos + 2] as u64) << 16u64 | (
        b[pos + 3] as u64) << 24u64 | (b[pos + 4] as u64) << 32u64 | (b[pos + 5] as u64) << 40u64
            | (b[pos + 6] as u64) << 48u64 | (b[pos + 7] as u64) << 56u64;
        Some((x, pos + 8))
    } else {
        None
    }
}

/// Read a word list at `pos`.
pub fn read_words(b: &Vec<u8>, pos: usize) -> (r: Option<(Vec<u64>, usize)>)
    ensures
        (r is Some) == (dec_words_s(b@, pos as int) is Some),
        r matches Some(v) ==> dec_words_s(b@, pos as int) == Some((v.0@, v.1 as int)),
{
    match read_u64(b, pos) {
        Some((n, p)) => {
            if n > 0x0fff_ffff {
                return None;
            }
            let n = n as usize;
            let mut out: Vec<u64> = Vec::new();
            let mut cur: usize = p;
            let mut i: usize = 0;
            while i < n
                invariant
                    i <= n,
                    out@.len() == i,
                    dec_words_body_s(b@, p as int, i as nat) == Some((out@, cur as int)),
                decreases n - i,
            {
                match read_u64(b, cur) {
                    Some((x, p2)) => {
                        out.push(x);
                        cur = p2;
                        proof {
                            assert(dec_words_body_s(b@, p as int, (i + 1) as nat) == Some(
                                (out@, cur as int),
                            ));
                        }
                    },
                    None => {
                        proof {
                            assert(dec_words_body_s(b@, p as int, (i + 1) as nat) is None);
                            lemma_dec_words_body_none(b@, p as int, (i + 1) as nat, n as nat);
                        }
                        return None;
                    },
                }
                i = i + 1;
            }
            Some((out, cur))
        },
        None => None,
    }
}

/// Once some prefix of the body fails to parse, every longer body fails.
proof fn lemma_dec_words_body_none(b: Seq<u8>, pos: int, j: nat, n: nat)
    requires
        j <= n,
        dec_words_body_s(b, pos, j) is None,
    ensures
        dec_words_body_s(b, pos, n) is None,
    decreases n - j,
{
    if j < n {
        lemma_dec_words_body_none(b, pos, j + 1, n);
    }
}

/// A symbol on the wire: its label as a code word (the all-ones word for
/// an unlabeled symbol).
pub struct WireSymbol {
    pub coord: MandelbrotCoord,
    pub pattern: Seq<u64>,
    pub count: u32,
    pub label_code: u64,
    pub confidence: i64,
    pub stability: i64,
}

/// A trajectory on the wire: its optional image path as code words.
pub struct WireTrajectory {
    pub path: Seq<MandelbrotCoord>,
    pub strength: i64,
    pub symbols: Seq<usize>,
    pub image: Option<Seq<u64>>,
}

/// The durable state of the aggregate, as carried on the wire.
pub struct Durable {
    pub current: MandelbrotCoord,
    pub contextual: MandelbrotCoord,
    pub background: Option<MandelbrotCoord>,
    pub scale: u32,
    pub exploration_radius: i64,
    pub inhibited_symbols: Seq<(usize, u32)>,
    pub inhibited_trajectories: Seq<(usize, u32)>,
    pub symbols: Seq<WireSymbol>,
    pub trajectories: Seq<WireTrajectory>,
    pub fields: Seq<AssociativeField>,
}

/// The code word of an optional label.
pub open spec fn label_code_s(l: Option<char>) -> u64 {
    match l {
        Some(c) => (c as u32) as u64,
        None => 0xffff_ffff_ffff_ffff,
    }
}

/// The code words of a text.
pub open spec fn chars_codes_s(s: Seq<char>) -> Seq<u64> {
    Seq::new(s.len(), |i: int| (s[i] as u32) as u64)
}

/// The wire form of one live symbol.
pub open spec fn wire_of_sym_s(s: FractalSymbol) -> WireSymbol {
    WireSymbol {
        coord: s.coord,
        pattern: s.pattern@,
        count: s.count,
        label_code: label_code_s(s.label),
        confidence: s.confidence,
        stability: s.stability,
    }
}

/// The wire form of one live trajectory.
pub open spec fn wire_of_traj_s(t: ConceptTrajectory) -> WireTrajectory {
    WireTrajectory {
        path: t.path@,
        strength: t.strength,
        symbols: t.symbols@,
        image: match t.image_path {
            Some(p) => Some(chars_codes_s(p@)),
            None => None,
        },
    }
}

/// The durable state a live aggregate carries.
pub open spec fn durable_of_s(m: FractalMind) -> Durable {
    Durable {
        current: m.current_coord,
        contextual: m.contextual_coord,
        background: m.background_thought_coord,
        scale: m.scale,
        exploration_radius: m.exploration_radius,
        inhibited_symbols: m.inhibited_symbols@,
        inhibited_trajectories: m.inhibited_trajectories@,
        symbols: Seq::new(m.symbols@.len(), |i: int| wire_of_sym_s(m.symbols@[i])),
        trajectories: Seq::new(
            m.trajectories@.len(),
            |i: int| wire_of_traj_s(m.trajectories@[i]),
        ),
        fields: m.associative_fields@,
    }
}

/// The flat words of the inhibition pairs, two per entry.
pub open spec fn pairs_words_s(s: Seq<(usize, u32)>) -> Seq<u64>
    decreases s.len(),
{
    if s.len() == 0 {
        Seq::empty()
    } else {
        pairs_words_s(s.drop_last()) + seq![s.last().0 as u64, s.last().1 as u64]
    }
}

/// The flat words of the symbol store, thirty-eight per symbol.
pub open spec fn sym_words_s(s: WireSymbol) -> Seq<u64> {
    seq![s.coord.re as u64, s.coord.im as u64] + s.pattern + seq![
        s.count as u64,
        s.label_code,
        s.confidence as u64,
        s.stability as u64,
    ]
}

pub open spec fn syms_words_s(s: Seq<WireSymbol>) -> Seq<u64>
    decreases s.len(),
{
    if s.len() == 0 {
        Seq::empty()
    } else {
        syms_words_s(s.drop_last()) + sym_words_s(s.last())
    }
}

/// The flat words of the field set, four per field.
pub open spec fn fields_words_s(s: Seq<AssociativeField>) -> Seq<u64>
    decreases s.len(),
{
    if s.len() == 0 {
        Seq::empty()
    } else {
        fields_words_s(s.drop_last()) + seq![
            s.last().center.re as u64,
            s.last().center.im as u64,
            s.last().radius as u64,
            s.last().strength as u64,
        ]
    }
}

/// The flat words of one path, two per point.
pub open spec fn path_words_s(s: Seq<MandelbrotCoord>) -> Seq<u64>
    decreases s.len(),
{
    if s.len() == 0 {
        Seq::empty()
    } else {
        path_words_s(s.drop_last()) + seq![s.last().re as u64, s.last().im as u64]
    }
}

/// The flat words of one index list.
pub open spec fn idxs_words_s(s: Seq<usize>) -> Seq<u64> {
    Seq::new(s.len(), |i: int| s[i] as u64)
}

/// The words of one trajectory record.
pub open spec fn traj_words_s(t: WireTrajectory) -> Seq<u64> {
    seq![t.path.len() as u64] + path_words_s(t.path) + seq![t.symbols.len() as u64]
        + idxs_words_s(t.symbols) + seq![t.strength as u64] + (match t.image {
        Some(img) => seq![1u64, img.len() as u64] + img,
        None => seq![0u64],
    })
}

pub open spec fn trajs_words_s(s: Seq<WireTrajectory>) -> Seq<u64>
    decreases s.len(),
{
    if s.len() == 0 {
        Seq::empty()
    } else {
        trajs_words_s(s.drop_last()) + traj_words_s(s.last())
    }
}

/// Whether a label code word is valid: the sentinel, or a code point.
pub open spec fn label_code_ok_s(w: u64) -> bool {
    w == 0xffff_ffff_ffff_ffff || (w < 0xD800 || (0xE000 <= w < 0x11_0000))
}

/// Structural soundness of a symbol on the wire.
pub open spec fn wire_sym_ok_s(s: WireSymbol) -> bool {
    &&& in_bounds(s.coord)
    &&& s.pattern.len() == 32
    &&& 0 <= s.confidence <= FP
    &&& 0 <= s.stability <= FP
    &&& label_code_ok_s(s.label_code)
}

/// Structural soundness of a trajectory on the wire.
pub open spec fn wire_traj_ok_s(t: WireTrajectory) -> bool {
    &&& t.path.len() >= 1
    &&& (forall|k: int| 0 <= k < t.path.len() ==> in_bounds(#[trigger] t.path[k]))
    &&& t.symbols.len() <= t.path.len()
    &&& 0 <= t.strength <= STRENGTH_MAX
    &&& (t.image matches Some(img) ==> forall|k: int|
        0 <= k < img.len() ==> #[trigger] img[k] < 0x11_0000 && !(0xD800 <= img[k] < 0xE000))
}

/// Structural soundness of the whole durable state: what the live
/// aggregate's own invariant asks, said of the wire form.
pub open spec fn durable_ok_s(d: Durable) -> bool {
    &&& in_bounds(d.current)
    &&& in_bounds(d.contextual)
    &&& (d.background matches Some(c) ==> in_bounds(c))
    &&& 1 <= d.scale
    &&& 0 < d.exploration_radius <= 2_000_000
    &&& (forall|i: int| 0 <= i < d.symbols.len() ==> wire_sym_ok_s(#[trigger] d.symbols[i]))
    &&& (forall|t: int|
        0 <= t < d.trajectories.len() ==> wire_traj_ok_s(#[trigger] d.trajectories[t]))
    &&& (forall|t: int, k: int|
        0 <= t < d.trajectories.len() && 0 <= k < d.trajectories[t].symbols.len()
            ==> #[trigger] d.trajectories[t].symbols[k] < d.symbols.len())
    &&& (forall|f: int| 0 <= f < d.fields.len() ==> (#[trigger] d.fields[f]).wf())
}

/// The whole durable state as one flat word sequence.
pub open spec fn mind_words_s(d: Durable) -> Seq<u64> {
    seq![
        FORMAT_TAG,
        d.current.re as u64,
        d.current.im as u64,
        d.contextual.re as u64,
        d.contextual.im as u64,
        (match d.background {
            Some(_) => 1u64,
            None => 0u64,
        }),
        (match d.background {
            Some(c) => c.re as u64,
            None => 0u64,
        }),
        (match d.background {
            Some(c) => c.im as u64,
            None => 0u64,
        }),
        d.scale as u64,
        d.exploration_radius as u64,
        d.inhibited_symbols.len() as u64,
    ] + pairs_words_s(d.inhibited_symbols) + seq![d.inhibited_trajectories.len() as u64]
        + pairs_words_s(d.inhibited_trajectories) + seq![d.symbols.len() as u64] + syms_words_s(
        d.symbols,
    ) + seq![d.trajectories.len() as u64] + trajs_words_s(d.trajectories) + seq![
        d.fields.len() as u64,
    ] + fields_words_s(d.fields)
}


/// A parsed word-list body holds as many words as were asked for.
pub proof fn lemma_dec_words_body_len2(b: Seq<u8>, pos: int, n: nat)
    ensures
        dec_words_body_s(b, pos, n) matches Some(v) ==> v.0.len() == n,
    decreases n,
{
    if n > 0 {
        lemma_dec_words_body_len2(b, pos, (n - 1) as nat);
    }
}

/// The inhibition pairs read back from `pos`: a length word, then two
/// words per entry.
pub open spec fn parse_pairs_s(ws: Seq<u64>, i: int) -> Option<(Seq<(usize, u32)>, int)> {
    if 0 <= i < ws.len() {
        let n = ws[i] as int;
        if i + 1 + 2 * n <= ws.len() {
            if forall|k: int|
                0 <= k < n ==> #[trigger] ws[i + 1 + 2 * k] <= usize::MAX && ws[i + 1 + 2 * k + 1]
                    <= u32::MAX {
                Some(
                    (
                        Seq::new(
                            n as nat,
                            |k: int| (ws[i + 1 + 2 * k] as usize, ws[i + 1 + 2 * k + 1] as u32),
                        ),
                        i + 1 + 2 * n,
                    ),
                )
            } else {
                None
            }
        } else {
            None
        }
    } else {
        None
    }
}

/// The symbol at word offset `b`: thirty-eight words.
pub open spec fn wire_sym_at_s(ws: Seq<u64>, b: int) -> WireSymbol {
    WireSymbol {
        coord: MandelbrotCoord { re: ws[b] as i64, im: ws[b + 1] as i64 },
        pattern: ws.subrange(b + 2, b + 34),
        count: ws[b + 34] as u32,
        label_code: ws[b + 35],
        confidence: ws[b + 36] as i64,
        stability: ws[b + 37] as i64,
    }
}

/// The symbol store read back from `pos`: a length word, then
/// thirty-eight words per symbol.
pub open spec fn parse_syms_s(ws: Seq<u64>, i: int) -> Option<(Seq<WireSymbol>, int)> {
    if 0 <= i < ws.len() {
        let n = ws[i] as int;
        if i + 1 + 38 * n <= ws.len() {
            if forall|k: int| 0 <= k < n ==> #[trigger] ws[i + 1 + 38 * k + 34] <= u32::MAX {
                Some((Seq::new(n as nat, |k: int| wire_sym_at_s(ws, i + 1 + 38 * k)), i + 1 + 38 * n))
            } else {
                None
            }
        } else {
            None
        }
    } else {
        None
    }
}

/// The field set read back from `pos`: a length word, then four words
/// per field.
pub open spec fn parse_fields_s(ws: Seq<u64>, i: int) -> Option<(Seq<AssociativeField>, int)> {
    if 0 <= i < ws.len() {
        let n = ws[i] as int;
        if i + 1 + 4 * n <= ws.len() {
            Some(
                (
                    Seq::new(
                        n as nat,
                        |k: int|
                            AssociativeField {
                                center: MandelbrotCoord {
                                    re: ws[i + 1 + 4 * k] as i64,
                                    im: ws[i + 1 + 4 * k + 1] as i64,
                                },
                                radius: ws[i + 1 + 4 * k + 2] as i64,
                                strength: ws[i + 1 + 4 * k + 3] as i64,
                            },
                    ),
                    i + 1 + 4 * n,
                ),
            )
        } else {
            None
        }
    } else {
        None
    }
}

/// One trajectory record read back from `pos`.
pub open spec fn parse_traj_s(ws: Seq<u64>, i: int) -> Option<(WireTrajectory, int)> {
    if !(0 <= i < ws.len()) {
        None
    } else {
        let plen = ws[i] as int;
        if i + 1 + 2 * plen > ws.len() {
            None
        } else {
            let path = Seq::new(
                plen as nat,
                |k: int|
                    MandelbrotCoord {
                        re: ws[i + 1 + 2 * k] as i64,
                        im: ws[i + 1 + 2 * k + 1] as i64,
                    },
            );
            let j = i + 1 + 2 * plen;
            if !(j < ws.len()) {
                None
            } else {
                let slen = ws[j] as int;
                if j + 1 + slen > ws.len() {
                    None
                } else {
                    if !(forall|k: int| 0 <= k < slen ==> #[trigger] ws[j + 1 + k] <= usize::MAX) {
                        None
                    } else {
                        let syms = Seq::new(slen as nat, |k: int| ws[j + 1 + k] as usize);
                        let m = j + 1 + slen;
                        if m + 2 > ws.len() {
                            None
                        } else {
                            let strength = ws[m] as i64;
                            let tag = ws[m + 1];
                            if tag == 0 {
                                Some(
                                    (
                                        WireTrajectory {
                                            path,
                                            strength,
                                            symbols: syms,
                                            image: None,
                                        },
                                        m + 2,
                                    ),
                                )
                            } else if tag == 1 {
                                if !(m + 2 < ws.len()) {
                                    None
                                } else {
                                    let ilen = ws[m + 2] as int;
                                    if m + 3 + ilen > ws.len() {
                                        None
                                    } else {
                                        Some(
                                            (
                                                WireTrajectory {
                                                    path,
                                                    strength,
                                                    symbols: syms,
                                                    image: Some(ws.subrange(m + 3, m + 3 + ilen)),
                                                },
                                                m + 3 + ilen,
                                            ),
                                        )
                                    }
                                }
                            } else {
                                None
                            }
                        }
                    }
                }
            }
        }
    }
}

/// `n` trajectory records read back from `pos`.
pub open spec fn parse_trajs_rec_s(ws: Seq<u64>, i: int, n: nat) -> Option<
    (Seq<WireTrajectory>, int),
>
    decreases n,
{
    if n == 0 {
        Some((Seq::empty(), i))
    } else {
        match parse_trajs_rec_s(ws, i, (n - 1) as nat) {
            Some((s, p)) => match parse_traj_s(ws, p) {
                Some((t, p2)) => Some((s.push(t), p2)),
                None => None,
            },
            None => None,
        }
    }
}

/// The trajectory store read back from `pos`: a length word, then the
/// records.
pub open spec fn parse_trajs_s(ws: Seq<u64>, i: int) -> Option<(Seq<WireTrajectory>, int)> {
    if 0 <= i < ws.len() {
        parse_trajs_rec_s(ws, i + 1, ws[i] as nat)
    } else {
        None
    }
}

/// The whole durable state read back from a word sequence: the header,
/// the two inhibition lists, the three stores, nothing trailing, and the
/// result structurally sound.
pub open spec fn parse_mind_s(ws: Seq<u64>) -> Option<Durable> {
    if ws.len() < 10 || ws[0] != FORMAT_TAG || !(ws[5] == 0 || ws[5] == 1) || ws[8] > u32::MAX {
        None
    } else {
        match parse_pairs_s(ws, 10) {
            Some((inh_s, p1)) => match parse_pairs_s(ws, p1) {
                Some((inh_t, p2)) => match parse_syms_s(ws, p2) {
                    Some((syms, p3)) => match parse_trajs_s(ws, p3) {
                        Some((trajs, p4)) => match parse_fields_s(ws, p4) {
                            Some((fields, p5)) => {
                                if p5 == ws.len() {
                                    let d = Durable {
                                        current: MandelbrotCoord {
                                            re: ws[1] as i64,
                                            im: ws[2] as i64,
                                        },
                                        contextual: MandelbrotCoord {
                                            re: ws[3] as i64,
                                            im: ws[4] as i64,
                                        },
                                        background: if ws[5] == 1 {
                                            Some(
                                                MandelbrotCoord {
                                                    re: ws[6] as i64,
                                                    im: ws[7] as i64,
                                                },
                                            )
                                        } else {
                                            None
                                        },
                                        scale: ws[8] as u32,
                                        exploration_radius: ws[9] as i64,
                                        inhibited_symbols: inh_s,
                                        inhibited_trajectories: inh_t,
                                        symbols: syms,
                                        trajectories: trajs,
                                        fields: fields,
                                    };
                                    if durable_ok_s(d) {
                                        Some(d)
                                    } else {
                                        None
                                    }
                                } else {
                                    None
                                }
                            },
                            None => None,
                        },
                        None => None,
                    },
                    None => None,
                },
                None => None,
            },
            None => None,
        }
    }
}

/// Casting through the wire word and back preserves a signed value.
pub proof fn lemma_i64_cast_round(x: i64)
    ensures
        (x as u64) as i64 == x,
{
    assert((x as u64) as i64 == x) by (bit_vector);
}

/// Casting through the wire word and back preserves an index.
pub proof fn lemma_usize_cast_round(x: usize)
    ensures
        (x as u64) as usize == x,
{
}

/// Casting through the wire word and back preserves a counter.
pub proof fn lemma_u32_cast_round(x: u32)
    ensures
        (x as u64) as u32 == x,
{
}

/// A word section standing at offset `i` of `ws` is read back word for
/// word.
proof fn lemma_embed(ws: Seq<u64>, i: int, sec: Seq<u64>)
    requires
        0 <= i,
        i + sec.len() <= ws.len(),
        ws.subrange(i, i + sec.len()) == sec,
    ensures
        forall|q: int| 0 <= q < sec.len() ==> ws[i + q] == #[trigger] sec[q],
{
    assert forall|q: int| 0 <= q < sec.len() implies ws[i + q] == #[trigger] sec[q] by {
        assert(ws.subrange(i, i + sec.len())[q] == ws[i + q]);
    }
}

/// Lengths and entries of the flat pair words.
proof fn lemma_pairs_words_props(s: Seq<(usize, u32)>)
    ensures
        pairs_words_s(s).len() == 2 * s.len(),
        forall|k: int|
            0 <= k < s.len() ==> pairs_words_s(s)[2 * k] == (#[trigger] s[k]).0 as u64
                && pairs_words_s(s)[2 * k + 1] == s[k].1 as u64,
    decreases s.len(),
{
    if s.len() > 0 {
        lemma_pairs_words_props(s.drop_last());
        assert forall|k: int|
            0 <= k < s.len() implies pairs_words_s(s)[2 * k] == (#[trigger] s[k]).0 as u64
            && pairs_words_s(s)[2 * k + 1] == s[k].1 as u64 by {
            if k < s.len() - 1 {
                assert(s.drop_last()[k] == s[k]);
            }
        }
    }
}

/// Reading the pair section an inhibition list was written to gives the
/// list back.
proof fn lemma_pairs_round_trip(ws: Seq<u64>, i: int, s: Seq<(usize, u32)>)
    requires
        0 <= i,
        s.len() <= 0x0fff_ffff,
        i + 1 + 2 * s.len() <= ws.len(),
        ws.subrange(i, i + 1 + 2 * s.len()) == seq![s.len() as u64] + pairs_words_s(s),
    ensures
        parse_pairs_s(ws, i) == Some((s, i + 1 + 2 * s.len())),
{
    lemma_pairs_words_props(s);
    let sec = seq![s.len() as u64] + pairs_words_s(s);
    lemma_embed(ws, i, sec);
    assert(ws[i] == sec[0]);
    assert(ws[i] == s.len() as u64);
    let n = ws[i] as int;
    assert(n == s.len());
    assert forall|k: int|
        0 <= k < n implies #[trigger] ws[i + 1 + 2 * k] <= usize::MAX && ws[i + 1 + 2 * k + 1]
        <= u32::MAX by {
        assert(ws[i + (1 + 2 * k)] == sec[1 + 2 * k]);
        assert(ws[i + (1 + 2 * k + 1)] == sec[1 + 2 * k + 1]);
        assert(pairs_words_s(s)[2 * k] == s[k].0 as u64);
        assert(pairs_words_s(s)[2 * k + 1] == s[k].1 as u64);
        assert(sec[1 + 2 * k] == pairs_words_s(s)[2 * k]);
        assert(sec[1 + 2 * k + 1] == pairs_words_s(s)[2 * k + 1]);
    }
    let parsed = Seq::new(
        n as nat,
        |k: int| (ws[i + 1 + 2 * k] as usize, ws[i + 1 + 2 * k + 1] as u32),
    );
    assert(parsed =~= s) by {
        assert forall|k: int| 0 <= k < s.len() implies parsed[k] == #[trigger] s[k] by {
            assert(ws[i + (1 + 2 * k)] == sec[1 + 2 * k]);
            assert(ws[i + (1 + 2 * k + 1)] == sec[1 + 2 * k + 1]);
            assert(pairs_words_s(s)[2 * k] == s[k].0 as u64);
            assert(pairs_words_s(s)[2 * k + 1] == s[k].1 as u64);
            assert(sec[1 + 2 * k] == pairs_words_s(s)[2 * k]);
            assert(sec[1 + 2 * k + 1] == pairs_words_s(s)[2 * k + 1]);
            lemma_usize_cast_round(s[k].0);
            lemma_u32_cast_round(s[k].1);
        }
    }
}

/// Lengths and slices of the flat symbol words.
proof fn lemma_syms_words_props(s: Seq<WireSymbol>)
    requires
        forall|k: int| 0 <= k < s.len() ==> (#[trigger] s[k]).pattern.len() == 32,
    ensures
        syms_words_s(s).len() == 38 * s.len(),
        forall|k: int|
            0 <= k < s.len() ==> syms_words_s(s).subrange(38 * k, 38 * k + 38) == sym_words_s(
                #[trigger] s[k],
            ),
    decreases s.len(),
{
    if s.len() > 0 {
        assert(forall|k: int|
            0 <= k < s.drop_last().len() ==> (#[trigger] s.drop_last()[k]).pattern.len() == 32);
        lemma_syms_words_props(s.drop_last());
        assert(sym_words_s(s.last()).len() == 38);
        assert forall|k: int|
            0 <= k < s.len() implies syms_words_s(s).subrange(38 * k, 38 * k + 38)
            == sym_words_s(#[trigger] s[k]) by {
            if k < s.len() - 1 {
                assert(s.drop_last()[k] == s[k]);
                assert(syms_words_s(s).subrange(38 * k, 38 * k + 38) =~= syms_words_s(
                    s.drop_last(),
                ).subrange(38 * k, 38 * k + 38));
            } else {
                assert(syms_words_s(s).subrange(38 * k, 38 * k + 38) =~= sym_words_s(s.last()));
            }
        }
    }
}

/// Reading the symbol section the store was written to gives the store
/// back.
proof fn lemma_syms_round_trip(ws: Seq<u64>, i: int, s: Seq<WireSymbol>)
    requires
        0 <= i,
        s.len() <= 0x0fff_ffff,
        forall|k: int| 0 <= k < s.len() ==> (#[trigger] s[k]).pattern.len() == 32,
        i + 1 + 38 * s.len() <= ws.len(),
        ws.subrange(i, i + 1 + 38 * s.len()) == seq![s.len() as u64] + syms_words_s(s),
    ensures
        parse_syms_s(ws, i) == Some((s, i + 1 + 38 * s.len())),
{
    lemma_syms_words_props(s);
    let sec = seq![s.len() as u64] + syms_words_s(s);
    lemma_embed(ws, i, sec);
    assert(ws[i] == sec[0]);
    let n = ws[i] as int;
    assert(n == s.len());
    assert forall|k: int|
        0 <= k < n implies ws.subrange(i + 1 + 38 * k, i + 1 + 38 * k + 38) == sym_words_s(
        #[trigger] s[k],
    ) by {
        assert forall|q: int|
            0 <= q < 38 implies ws.subrange(i + 1 + 38 * k, i + 1 + 38 * k + 38)[q]
            == sym_words_s(s[k])[q] by {
            assert(ws[i + (1 + 38 * k + q)] == sec[1 + 38 * k + q]);
            assert(sec[1 + 38 * k + q] == syms_words_s(s)[38 * k + q]);
            assert(syms_words_s(s).subrange(38 * k, 38 * k + 38)[q] == syms_words_s(s)[38 * k
                + q]);
        }
        assert(ws.subrange(i + 1 + 38 * k, i + 1 + 38 * k + 38) =~= sym_words_s(s[k]));
    }
    assert forall|k: int| 0 <= k < n implies #[trigger] ws[i + 1 + 38 * k + 34] <= u32::MAX by {
        let swk = sym_words_s(s[k]);
        assert(ws.subrange(i + 1 + 38 * k, i + 1 + 38 * k + 38)[34] == ws[i + 1 + 38 * k + 34]);
        assert(swk[34] == s[k].count as u64);
    }
    let parsed = Seq::new(n as nat, |k: int| wire_sym_at_s(ws, i + 1 + 38 * k));
    assert(parsed =~= s) by {
        assert forall|k: int| 0 <= k < s.len() implies parsed[k] == #[trigger] s[k] by {
            let b = i + 1 + 38 * k;
            let swk = sym_words_s(s[k]);
            assert forall|q: int| 0 <= q < 38 implies ws[b + q] == #[trigger] swk[q] by {
                assert(ws.subrange(b, b + 38)[q] == ws[b + q]);
            }
            assert(swk[0] == s[k].coord.re as u64 && swk[1] == s[k].coord.im as u64 && swk[34]
                == s[k].count as u64 && swk[35] == s[k].label_code && swk[36] == s[k].confidence
                as u64 && swk[37] == s[k].stability as u64);
            lemma_i64_cast_round(s[k].coord.re);
            lemma_i64_cast_round(s[k].coord.im);
            lemma_u32_cast_round(s[k].count);
            lemma_i64_cast_round(s[k].confidence);
            lemma_i64_cast_round(s[k].stability);
            assert(wire_sym_at_s(ws, b).pattern =~= s[k].pattern) by {
                assert forall|q: int|
                    0 <= q < 32 implies ws.subrange(b + 2, b + 34)[q] == #[trigger] s[
                    k].pattern[q] by {
                    assert(ws[b + (2 + q)] == swk[2 + q]);
                    assert(swk[2 + q] == s[k].pattern[q]);
                }
            }
        }
    }
}

/// Lengths and entries of the flat field words.
proof fn lemma_fields_words_props(s: Seq<AssociativeField>)
    ensures
        fields_words_s(s).len() == 4 * s.len(),
        forall|k: int|
            0 <= k < s.len() ==> fields_words_s(s)[4 * k] == (#[trigger] s[k]).center.re as u64
                && fields_words_s(s)[4 * k + 1] == s[k].center.im as u64 && fields_words_s(s)[4 * k
                + 2] == s[k].radius as u64 && fields_words_s(s)[4 * k + 3] == s[k].strength
                as u64,
    decreases s.len(),
{
    if s.len() > 0 {
        lemma_fields_words_props(s.drop_last());
        assert forall|k: int|
            0 <= k < s.len() implies fields_words_s(s)[4 * k] == (#[trigger] s[k]).center.re
            as u64 && fields_words_s(s)[4 * k + 1] == s[k].center.im as u64 && fields_words_s(s)[4
            * k + 2] == s[k].radius as u64 && fields_words_s(s)[4 * k + 3] == s[k].strength
            as u64 by {
            if k < s.len() - 1 {
                assert(s.drop_last()[k] == s[k]);
            }
        }
    }
}

/// Reading the field section the set was written to gives the set back.
proof fn lemma_fields_round_trip(ws: Seq<u64>, i: int, s: Seq<AssociativeField>)
    requires
        0 <= i,
        s.len() <= 0x0fff_ffff,
        i + 1 + 4 * s.len() <= ws.len(),
        ws.subrange(i, i + 1 + 4 * s.len()) == seq![s.len() as u64] + fields_words_s(s),
    ensures
        parse_fields_s(ws, i) == Some((s, i + 1 + 4 * s.len())),
{
    lemma_fields_words_props(s);
    let sec = seq![s.len() as u64] + fields_words_s(s);
    lemma_embed(ws, i, sec);
    assert(ws[i] == sec[0]);
    let n = ws[i] as int;
    assert(n == s.len());
    let parsed = Seq::new(
        n as nat,
        |k: int|
            AssociativeField {
                center: MandelbrotCoord {
                    re: ws[i + 1 + 4 * k] as i64,
                    im: ws[i + 1 + 4 * k + 1] as i64,
                },
                radius: ws[i + 1 + 4 * k + 2] as i64,
                strength: ws[i + 1 + 4 * k + 3] as i64,
            },
    );
    assert(parsed =~= s) by {
        assert forall|k: int| 0 <= k < s.len() implies parsed[k] == #[trigger] s[k] by {
            assert(ws[i + (1 + 4 * k)] == sec[1 + 4 * k]);
            assert(ws[i + (1 + 4 * k + 1)] == sec[1 + 4 * k + 1]);
            assert(ws[i + (1 + 4 * k + 2)] == sec[1 + 4 * k + 2]);
            assert(ws[i + (1 + 4 * k + 3)] == sec[1 + 4 * k + 3]);
            assert(fields_words_s(s)[4 * k] == s[k].center.re as u64);
            assert(fields_words_s(s)[4 * k + 1] == s[k].center.im as u64);
            assert(fields_words_s(s)[4 * k + 2] == s[k].radius as u64);
            assert(fields_words_s(s)[4 * k + 3] == s[k].strength as u64);
            assert(sec[1 + 4 * k] == fields_words_s(s)[4 * k]);
            assert(sec[1 + 4 * k + 1] == fields_words_s(s)[4 * k + 1]);
            assert(sec[1 + 4 * k + 2] == fields_words_s(s)[4 * k + 2]);
            assert(sec[1 + 4 * k + 3] == fields_words_s(s)[4 * k + 3]);
            lemma_i64_cast_round(s[k].center.re);
            lemma_i64_cast_round(s[k].center.im);
            lemma_i64_cast_round(s[k].radius);
            lemma_i64_cast_round(s[k].strength);
        }
    }
}

/// Lengths and entries of the flat path words.
proof fn lemma_path_words_props(s: Seq<MandelbrotCoord>)
    ensures
        path_words_s(s).len() == 2 * s.len(),
        forall|k: int|
            0 <= k < s.len() ==> path_words_s(s)[2 * k] == (#[trigger] s[k]).re as u64
                && path_words_s(s)[2 * k + 1] == s[k].im as u64,
    decreases s.len(),
{
    if s.len() > 0 {
        lemma_path_words_props(s.drop_last());
        assert forall|k: int|
            0 <= k < s.len() implies path_words_s(s)[2 * k] == (#[trigger] s[k]).re as u64
            && path_words_s(s)[2 * k + 1] == s[k].im as u64 by {
            if k < s.len() - 1 {
                assert(s.drop_last()[k] == s[k]);
            }
        }
    }
}

/// The length of a trajectory record in words.
pub open spec fn traj_words_len_s(t: WireTrajectory) -> int {
    1 + 2 * t.path.len() as int + 1 + t.symbols.len() as int + 2 + (match t.image {
        Some(img) => 1 + img.len() as int,
        None => 0int,
    })
}

proof fn lemma_traj_words_len(t: WireTrajectory)
    ensures
        traj_words_s(t).len() == traj_words_len_s(t),
{
    lemma_path_words_props(t.path);
}

/// Reading the record a trajectory was written to gives it back.
proof fn lemma_traj_round_trip(ws: Seq<u64>, i: int, t: WireTrajectory)
    requires
        0 <= i,
        t.path.len() <= 0x0fff_ffff,
        t.symbols.len() <= 0x0fff_ffff,
        (t.image matches Some(img) ==> img.len() <= 0x0fff_ffff),
        i + traj_words_len_s(t) <= ws.len(),
        ws.subrange(i, i + traj_words_len_s(t)) == traj_words_s(t),
    ensures
        parse_traj_s(ws, i) == Some((t, i + traj_words_len_s(t))),
{
    lemma_path_words_props(t.path);
    lemma_traj_words_len(t);
    let sec = traj_words_s(t);
    lemma_embed(ws, i, sec);
    let pw = path_words_s(t.path);
    let iw = idxs_words_s(t.symbols);
    let tail: Seq<u64> = match t.image {
        Some(img) => seq![1u64, img.len() as u64] + img,
        None => seq![0u64],
    };
    assert(sec == seq![t.path.len() as u64] + pw + seq![t.symbols.len() as u64] + iw + seq![
        t.strength as u64,
    ] + tail);
    assert(ws[i] == sec[0]);
    let plen = ws[i] as int;
    assert(plen == t.path.len());
    let path = Seq::new(
        plen as nat,
        |k: int|
            MandelbrotCoord { re: ws[i + 1 + 2 * k] as i64, im: ws[i + 1 + 2 * k + 1] as i64 },
    );
    assert(path =~= t.path) by {
        assert forall|k: int| 0 <= k < t.path.len() implies path[k] == #[trigger] t.path[k] by {
            assert(ws[i + (1 + 2 * k)] == sec[1 + 2 * k]);
            assert(ws[i + (1 + 2 * k + 1)] == sec[1 + 2 * k + 1]);
            assert(pw[2 * k] == t.path[k].re as u64);
            assert(pw[2 * k + 1] == t.path[k].im as u64);
            assert(sec[1 + 2 * k] == pw[2 * k]);
            assert(sec[1 + 2 * k + 1] == pw[2 * k + 1]);
            lemma_i64_cast_round(t.path[k].re);
            lemma_i64_cast_round(t.path[k].im);
        }
    }
    let j = i + 1 + 2 * plen;
    assert(ws[j] == sec[1 + 2 * plen]);
    assert(sec[1 + 2 * plen] == t.symbols.len() as u64);
    let slen = ws[j] as int;
    assert(slen == t.symbols.len());
    assert forall|k: int| 0 <= k < slen implies #[trigger] ws[j + 1 + k] <= usize::MAX by {
        assert(ws[i + (2 + 2 * plen + k)] == sec[2 + 2 * plen + k]);
        assert(sec[2 + 2 * plen + k] == iw[k]);
        assert(iw[k] == t.symbols[k] as u64);
    }
    let syms = Seq::new(slen as nat, |k: int| ws[j + 1 + k] as usize);
    assert(syms =~= t.symbols) by {
        assert forall|k: int|
            0 <= k < t.symbols.len() implies syms[k] == #[trigger] t.symbols[k] by {
            assert(ws[i + (2 + 2 * plen + k)] == sec[2 + 2 * plen + k]);
            assert(sec[2 + 2 * plen + k] == iw[k]);
            assert(iw[k] == t.symbols[k] as u64);
            lemma_usize_cast_round(t.symbols[k]);
        }
    }
    let m = j + 1 + slen;
    assert(ws[m] == sec[2 + 2 * plen + slen]);
    assert(sec[2 + 2 * plen + slen] == t.strength as u64);
    lemma_i64_cast_round(t.strength);
    assert(ws[m + 1] == sec[3 + 2 * plen + slen]);
    assert(sec[3 + 2 * plen + slen] == tail[0]);
    match t.image {
        Some(img) => {
            assert(tail[0] == 1u64);
            assert(ws[m + 2] == sec[4 + 2 * plen + slen]);
            assert(sec[4 + 2 * plen + slen] == tail[1]);
            assert(tail[1] == img.len() as u64);
            let ilen = ws[m + 2] as int;
            assert(ilen == img.len());
            assert(ws.subrange(m + 3, m + 3 + ilen) =~= img) by {
                assert forall|q: int|
                    0 <= q < img.len() implies ws.subrange(m + 3, m + 3 + ilen)[q]
                    == #[trigger] img[q] by {
                    assert(ws.subrange(m + 3, m + 3 + ilen)[q] == ws[m + 3 + q]);
                    assert(ws[i + (5 + 2 * plen + slen + q)] == sec[5 + 2 * plen + slen + q]);
                    assert(sec[5 + 2 * plen + slen + q] == tail[2 + q]);
                    assert(tail[2 + q] == img[q]);
                }
            }
        },
        None => {
            assert(tail[0] == 0u64);
        },
    }
}

/// Once a record fails to parse, every longer record list fails.
proof fn lemma_parse_trajs_rec_none(ws: Seq<u64>, i: int, j: nat, n: nat)
    requires
        j <= n,
        parse_trajs_rec_s(ws, i, j) is None,
    ensures
        parse_trajs_rec_s(ws, i, n) is None,
    decreases n - j,
{
    if j < n {
        lemma_parse_trajs_rec_none(ws, i, j + 1, n);
    }
}

/// The length of a trajectory list in words.
pub open spec fn trajs_words_len_s(s: Seq<WireTrajectory>) -> int
    decreases s.len(),
{
    if s.len() == 0 {
        0
    } else {
        trajs_words_len_s(s.drop_last()) + traj_words_len_s(s.last())
    }
}

proof fn lemma_trajs_words_len(s: Seq<WireTrajectory>)
    ensures
        trajs_words_s(s).len() == trajs_words_len_s(s),
        trajs_words_len_s(s) >= 0,
    decreases s.len(),
{
    if s.len() > 0 {
        lemma_trajs_words_len(s.drop_last());
        lemma_traj_words_len(s.last());
    }
}

/// Reading the records a trajectory list was written to gives the list
/// back.
proof fn lemma_trajs_rec_round_trip(ws: Seq<u64>, i: int, s: Seq<WireTrajectory>)
    requires
        0 <= i,
        forall|k: int|
            0 <= k < s.len() ==> (#[trigger] s[k]).path.len() <= 0x0fff_ffff && s[k].symbols.len()
                <= 0x0fff_ffff && (s[k].image matches Some(img) ==> img.len() <= 0x0fff_ffff),
        i + trajs_words_len_s(s) <= ws.len(),
        ws.subrange(i, i + trajs_words_len_s(s)) == trajs_words_s(s),
    ensures
        parse_trajs_rec_s(ws, i, s.len()) == Some((s, i + trajs_words_len_s(s))),
    decreases s.len(),
{
    lemma_trajs_words_len(s);
    if s.len() > 0 {
        let head = s.drop_last();
        lemma_trajs_words_len(head);
        lemma_traj_words_len(s.last());
        assert(trajs_words_s(s) == trajs_words_s(head) + traj_words_s(s.last()));
        assert(ws.subrange(i, i + trajs_words_len_s(head)) =~= trajs_words_s(head)) by {
            assert forall|q: int|
                0 <= q < trajs_words_len_s(head) implies ws.subrange(
                i,
                i + trajs_words_len_s(head),
            )[q] == trajs_words_s(head)[q] by {
                assert(ws.subrange(i, i + trajs_words_len_s(s))[q] == ws[i + q]);
                assert((trajs_words_s(head) + traj_words_s(s.last()))[q] == trajs_words_s(
                    head,
                )[q]);
            }
        }
        assert(forall|k: int|
            0 <= k < head.len() ==> (#[trigger] head[k]).path.len() <= 0x0fff_ffff
                && head[k].symbols.len() <= 0x0fff_ffff && (head[k].image matches Some(img)
                ==> img.len() <= 0x0fff_ffff)) by {
            assert forall|k: int| 0 <= k < head.len() implies (#[trigger] head[k]).path.len()
                <= 0x0fff_ffff && head[k].symbols.len() <= 0x0fff_ffff && (
            head[k].image matches Some(img) ==> img.len() <= 0x0fff_ffff) by {
                assert(head[k] == s[k]);
            }
        }
        lemma_trajs_rec_round_trip(ws, i, head);
        let p = i + trajs_words_len_s(head);
        assert(ws.subrange(p, p + traj_words_len_s(s.last())) =~= traj_words_s(s.last())) by {
            assert forall|q: int|
                0 <= q < traj_words_len_s(s.last()) implies ws.subrange(
                p,
                p + traj_words_len_s(s.last()),
            )[q] == traj_words_s(s.last())[q] by {
                assert(ws.subrange(i, i + trajs_words_len_s(s))[trajs_words_len_s(head) + q]
                    == ws[p + q]);
                assert((trajs_words_s(head) + traj_words_s(s.last()))[trajs_words_len_s(head)
                    + q] == traj_words_s(s.last())[q]);
            }
        }
        assert(s[s.len() - 1] == s.last());
        lemma_traj_round_trip(ws, p, s.last());
        assert(head.push(s.last()) =~= s);
    }
}

/// What decoding a byte blob yields: the byte layer gives the words,
/// which must fill the blob exactly, and the word layer gives the
/// durable state.
pub open spec fn decode_mind_s(b: Seq<u8>) -> Option<Durable> {
    match dec_words_s(b, 0) {
        Some((ws, p)) => if p == b.len() {
            parse_mind_s(ws)
        } else {
            None
        },
        None => None,
    }
}

/// Whether every store of the durable state is small enough for the
/// wire's list framing: a machine limit, far above any real session.
pub open spec fn durable_small_s(d: Durable) -> bool {
    &&& d.inhibited_symbols.len() <= 0x000f_ffff
    &&& d.inhibited_trajectories.len() <= 0x000f_ffff
    &&& d.symbols.len() <= 0x000f_ffff
    &&& d.trajectories.len() <= 0x000f_ffff
    &&& d.fields.len() <= 0x000f_ffff
    &&& (forall|t: int|
        0 <= t < d.trajectories.len() ==> (#[trigger] d.trajectories[t]).path.len()
            <= 0x000f_ffff && d.trajectories[t].symbols.len() <= 0x000f_ffff && (
        d.trajectories[t].image matches Some(img) ==> img.len() <= 0x000f_ffff))
}

/// Reading the words the durable state was written to gives the state
/// back: the round trip at the word layer.
#[verifier::rlimit(100)]
pub proof fn lemma_mind_words_round_trip(d: Durable)
    requires
        durable_ok_s(d),
        durable_small_s(d),
    ensures
        parse_mind_s(mind_words_s(d)) == Some(d),
{
    let ws = mind_words_s(d);
    let a = d.inhibited_symbols.len() as int;
    let bb = d.inhibited_trajectories.len() as int;
    let c = d.symbols.len() as int;
    let e = d.trajectories.len() as int;
    let f = d.fields.len() as int;
    lemma_pairs_words_props(d.inhibited_symbols);
    lemma_pairs_words_props(d.inhibited_trajectories);
    assert(forall|k: int|
        0 <= k < d.symbols.len() ==> (#[trigger] d.symbols[k]).pattern.len() == 32);
    lemma_syms_words_props(d.symbols);
    lemma_trajs_words_len(d.trajectories);
    lemma_fields_words_props(d.fields);
    let tl = trajs_words_len_s(d.trajectories);
    let o1 = 11int;
    let o2 = o1 + 2 * a;
    let o3 = o2 + 1 + 2 * bb;
    let o4 = o3 + 1 + 38 * c;
    let o5 = o4 + 1 + tl;
    let o6 = o5 + 1 + 4 * f;
    assert(ws.len() == o6);
    let hd = seq![
        FORMAT_TAG,
        d.current.re as u64,
        d.current.im as u64,
        d.contextual.re as u64,
        d.contextual.im as u64,
        (match d.background {
            Some(_) => 1u64,
            None => 0u64,
        }),
        (match d.background {
            Some(cc) => cc.re as u64,
            None => 0u64,
        }),
        (match d.background {
            Some(cc) => cc.im as u64,
            None => 0u64,
        }),
        d.scale as u64,
        d.exploration_radius as u64,
        d.inhibited_symbols.len() as u64,
    ];
    assert(ws == hd + pairs_words_s(d.inhibited_symbols) + seq![
        d.inhibited_trajectories.len() as u64,
    ] + pairs_words_s(d.inhibited_trajectories) + seq![d.symbols.len() as u64] + syms_words_s(
        d.symbols,
    ) + seq![d.trajectories.len() as u64] + trajs_words_s(d.trajectories) + seq![
        d.fields.len() as u64,
    ] + fields_words_s(d.fields));
    assert(forall|q: int| 0 <= q < 11 ==> ws[q] == #[trigger] hd[q]);
    assert(ws.subrange(10, 10 + 1 + 2 * a) =~= seq![d.inhibited_symbols.len() as u64]
        + pairs_words_s(d.inhibited_symbols));
    lemma_pairs_round_trip(ws, 10, d.inhibited_symbols);
    assert(ws.subrange(o2, o2 + 1 + 2 * bb) =~= seq![d.inhibited_trajectories.len() as u64]
        + pairs_words_s(d.inhibited_trajectories));
    lemma_pairs_round_trip(ws, o2, d.inhibited_trajectories);
    assert(ws.subrange(o3, o3 + 1 + 38 * c) =~= seq![d.symbols.len() as u64] + syms_words_s(
        d.symbols,
    ));
    lemma_syms_round_trip(ws, o3, d.symbols);
    assert(ws[o4] == d.trajectories.len() as u64);
    assert(ws.subrange(o4 + 1, o4 + 1 + tl) =~= trajs_words_s(d.trajectories));
    lemma_trajs_rec_round_trip(ws, o4 + 1, d.trajectories);
    assert(parse_trajs_s(ws, o4) == Some((d.trajectories, o4 + 1 + tl)));
    assert(ws.subrange(o5, o5 + 1 + 4 * f) =~= seq![d.fields.len() as u64] + fields_words_s(
        d.fields,
    ));
    lemma_fields_round_trip(ws, o5, d.fields);
    lemma_i64_cast_round(d.current.re);
    lemma_i64_cast_round(d.current.im);
    lemma_i64_cast_round(d.contextual.re);
    lemma_i64_cast_round(d.contextual.im);
    lemma_u32_cast_round(d.scale);
    lemma_i64_cast_round(d.exploration_radius);
    match d.background {
        Some(cc) => {
            lemma_i64_cast_round(cc.re);
            lemma_i64_cast_round(cc.im);
        },
        None => {},
    }
}

/// The flat words of one live trajectory's section, appended in order.
fn push_traj_words(w: &mut Vec<u64>, t: &ConceptTrajectory)
    requires
        t.wf(),
    ensures
        final(w)@ == old(w)@ + traj_words_s(wire_of_traj_s(*t)),
{
    let ghost wt = wire_of_traj_s(*t);
    let ghost base = old(w)@;
    w.push(t.path.len() as u64);
    let mut k: usize = 0;
    while k < t.path.len()
        invariant
            k <= t.path@.len(),
            w@ == base + seq![t.path@.len() as u64] + path_words_s(t.path@.take(k as int)),
        decreases t.path@.len() - k,
    {
        w.push(t.path[k].re as u64);
        w.push(t.path[k].im as u64);
        proof {
            assert(t.path@.take(k + 1).drop_last() =~= t.path@.take(k as int));
            assert(t.path@.take(k + 1).last() == t.path@[k as int]);
            assert(w@ =~= base + seq![t.path@.len() as u64] + path_words_s(
                t.path@.take(k + 1),
            ));
        }
        k = k + 1;
    }
    proof {
        assert(t.path@.take(t.path@.len() as int) =~= t.path@);
    }
    w.push(t.symbols.len() as u64);
    let ghost base2 = w@;
    let mut k2: usize = 0;
    while k2 < t.symbols.len()
        invariant
            k2 <= t.symbols@.len(),
            w@ == base2 + idxs_words_s(t.symbols@).take(k2 as int),
        decreases t.symbols@.len() - k2,
    {
        w.push(t.symbols[k2] as u64);
        proof {
            assert(idxs_words_s(t.symbols@).take(k2 + 1) =~= idxs_words_s(
                t.symbols@,
            ).take(k2 as int).push(t.symbols@[k2 as int] as u64));
        }
        k2 = k2 + 1;
    }
    proof {
        assert(idxs_words_s(t.symbols@).take(t.symbols@.len() as int) =~= idxs_words_s(
            t.symbols@,
        ));
    }
    w.push(t.strength as u64);
    match &t.image_path {
        Some(p) => {
            w.push(1u64);
            let n = p.as_str().unicode_len();
            w.push(n as u64);
            let ghost base3 = w@;
            let mut k3: usize = 0;
            while k3 < n
                invariant
                    k3 <= n,
                    n == p@.len(),
                    w@ == base3 + chars_codes_s(p@).take(k3 as int),
                decreases n - k3,
            {
                let c = p.as_str().get_char(k3);
                w.push((c as u32) as u64);
                proof {
                    assert(chars_codes_s(p@).take(k3 + 1) =~= chars_codes_s(p@).take(
                        k3 as int,
                    ).push((p@[k3 as int] as u32) as u64));
                }
                k3 = k3 + 1;
            }
            proof {
                assert(chars_codes_s(p@).take(p@.len() as int) =~= chars_codes_s(p@));
                assert(w@ =~= base + traj_words_s(wt));
            }
        },
        None => {
            w.push(0u64);
            proof {
                assert(w@ =~= base + traj_words_s(wt));
            }
        },
    }
}

impl FractalMind {
    /// The durable state as its flat word sequence.
    #[verifier::rlimit(100)]
    fn build_words(&self) -> (r: Vec<u64>)
        requires
            self.wf(),
        ensures
            r@ == mind_words_s(durable_of_s(*self)),
    {
        let ghost d = durable_of_s(*self);
        let mut w: Vec<u64> = Vec::new();
        w.push(FORMAT_TAG);
        w.push(self.current_coord.re as u64);
        w.push(self.current_coord.im as u64);
        w.push(self.contextual_coord.re as u64);
        w.push(self.contextual_coord.im as u64);
        match self.background_thought_coord {
            Some(c) => {
                w.push(1u64);
                w.push(c.re as u64);
                w.push(c.im as u64);
            },
            None => {
                w.push(0u64);
                w.push(0u64);
                w.push(0u64);
            },
        }
        w.push(self.scale as u64);
        w.push(self.exploration_radius as u64);
        w.push(self.inhibited_symbols.len() as u64);
        let ghost hd = w@;
        let mut k: usize = 0;
        while k < self.inhibited_symbols.len()
            invariant
                k <= self.inhibited_symbols@.len(),
                w@ == hd + pairs_words_s(self.inhibited_symbols@.take(k as int)),
            decreases self.inhibited_symbols@.len() - k,
        {
            let (idx, steps) = self.inhibited_symbols[k];
            w.push(idx as u64);
            w.push(steps as u64);
            proof {
                assert(self.inhibited_symbols@.take(k + 1).drop_last()
                    =~= self.inhibited_symbols@.take(k as int));
                assert(w@ =~= hd + pairs_words_s(self.inhibited_symbols@.take(k + 1)));
            }
            k = k + 1;
        }
        proof {
            assert(self.inhibited_symbols@.take(self.inhibited_symbols@.len() as int)
                =~= self.inhibited_symbols@);
        }
        w.push(self.inhibited_trajectories.len() as u64);
        let ghost h2 = w@;
        let mut k2: usize = 0;
        while k2 < self.inhibited_trajectories.len()
            invariant
                k2 <= self.inhibited_trajectories@.len(),
                w@ == h2 + pairs_words_s(self.inhibited_trajectories@.take(k2 as int)),
            decreases self.inhibited_trajectories@.len() - k2,
        {
            let (idx, steps) = self.inhibited_trajectories[k2];
            w.push(idx as u64);
            w.push(steps as u64);
            proof {
                assert(self.inhibited_trajectories@.take(k2 + 1).drop_last()
                    =~= self.inhibited_trajectories@.take(k2 as int));
                assert(w@ =~= h2 + pairs_words_s(self.inhibited_trajectories@.take(k2 + 1)));
            }
            k2 = k2 + 1;
        }
        proof {
            assert(self.inhibited_trajectories@.take(self.inhibited_trajectories@.len() as int)
                =~= self.inhibited_trajectories@);
        }
        w.push(self.symbols.len() as u64);
        let ghost h3 = w@;
        let mut t: usize = 0;
        while t < self.symbols.len()
            invariant
                t <= self.symbols@.len(),
                d == durable_of_s(*self),
                w@ == h3 + syms_words_s(d.symbols.take(t as int)),
                self.wf(),
            decreases self.symbols@.len() - t,
        {
            let ghost seg = w@;
            w.push(self.symbols[t].coord.re as u64);
            w.push(self.symbols[t].coord.im as u64);
            let mut q: usize = 0;
            while q < 32
                invariant
                    q <= 32,
                    t < self.symbols@.len(),
                    self.wf(),
                    self.symbols@[t as int].pattern@.len() == 32,
                    w@ == seg + seq![
                        self.symbols@[t as int].coord.re as u64,
                        self.symbols@[t as int].coord.im as u64,
                    ] + self.symbols@[t as int].pattern@.take(q as int),
                decreases 32 - q,
            {
                proof {
                    assert(self.symbols@[t as int].wf());
                }
                w.push(self.symbols[t].pattern[q]);
                proof {
                    assert(self.symbols@[t as int].pattern@.take(q + 1)
                        =~= self.symbols@[t as int].pattern@.take(q as int).push(
                        self.symbols@[t as int].pattern@[q as int],
                    ));
                    assert(w@ =~= seg + seq![
                        self.symbols@[t as int].coord.re as u64,
                        self.symbols@[t as int].coord.im as u64,
                    ] + self.symbols@[t as int].pattern@.take(q + 1));
                }
                q = q + 1;
            }
            w.push(self.symbols[t].count as u64);
            match self.symbols[t].label {
                Some(c) => {
                    w.push((c as u32) as u64);
                },
                None => {
                    w.push(0xffff_ffff_ffff_ffff);
                },
            }
            w.push(self.symbols[t].confidence as u64);
            w.push(self.symbols[t].stability as u64);
            proof {
                assert(self.symbols@[t as int].pattern@.take(32)
                    =~= self.symbols@[t as int].pattern@);
                assert(w@ =~= seg + sym_words_s(wire_of_sym_s(self.symbols@[t as int])));
                assert(d.symbols.take(t + 1).drop_last() =~= d.symbols.take(t as int));
                assert(d.symbols.take(t + 1).last() == d.symbols[t as int]);
                assert(w@ =~= h3 + syms_words_s(d.symbols.take(t + 1)));
            }
            t = t + 1;
        }
        proof {
            assert(d.symbols.take(d.symbols.len() as int) =~= d.symbols);
        }
        w.push(self.trajectories.len() as u64);
        let ghost h4 = w@;
        let mut t2: usize = 0;
        while t2 < self.trajectories.len()
            invariant
                t2 <= self.trajectories@.len(),
                d == durable_of_s(*self),
                w@ == h4 + trajs_words_s(d.trajectories.take(t2 as int)),
                self.wf(),
            decreases self.trajectories@.len() - t2,
        {
            proof {
                assert(self.trajectories@[t2 as int].wf());
            }
            push_traj_words(&mut w, &self.trajectories[t2]);
            proof {
                assert(d.trajectories.take(t2 + 1).drop_last() =~= d.trajectories.take(
                    t2 as int,
                ));
                assert(d.trajectories.take(t2 + 1).last() == d.trajectories[t2 as int]);
                assert(w@ =~= h4 + trajs_words_s(d.trajectories.take(t2 + 1)));
            }
            t2 = t2 + 1;
        }
        proof {
            assert(d.trajectories.take(d.trajectories.len() as int) =~= d.trajectories);
        }
        w.push(self.associative_fields.len() as u64);
        let ghost h5 = w@;
        let mut t3: usize = 0;
        while t3 < self.associative_fields.len()
            invariant
                t3 <= self.associative_fields@.len(),
                w@ == h5 + fields_words_s(self.associative_fields@.take(t3 as int)),
            decreases self.associative_fields@.len() - t3,
        {
            w.push(self.associative_fields[t3].center.re as u64);
            w.push(self.associative_fields[t3].center.im as u64);
            w.push(self.associative_fields[t3].radius as u64);
            w.push(self.associative_fields[t3].strength as u64);
            proof {
                assert(self.associative_fields@.take(t3 + 1).drop_last()
                    =~= self.associative_fields@.take(t3 as int));
                assert(w@ =~= h5 + fields_words_s(self.associative_fields@.take(t3 + 1)));
            }
            t3 = t3 + 1;
        }
        proof {
            assert(self.associative_fields@.take(self.associative_fields@.len() as int)
                =~= self.associative_fields@);
            assert(w@ =~= mind_words_s(d));
        }
        w
    }

    /// The durable state serialized as one binary blob, or nothing when
    /// the stores outgrow the format's framing: a machine limit far
    /// above any real session.
    pub fn to_bytes(&self) -> (r: Option<Vec<u8>>)
        requires
            self.wf(),
        ensures
            r matches Some(v) ==> v@ == enc_words_s(mind_words_s(durable_of_s(*self))),
            (r is None) == (mind_words_s(durable_of_s(*self)).len() > 0x0fff_ffff),
    {
        let words = self.build_words();
        if words.len() > 0x0fff_ffff {
            return None;
        }
        let mut out: Vec<u8> = Vec::new();
        push_words(&mut out, &words);
        proof {
            assert(out@ =~= enc_words_s(mind_words_s(durable_of_s(*self))));
        }
        Some(out)
    }
}

/// Relies on char::from_u32: the inverse of the char-to-u32 cast; a
/// character comes back exactly for the valid code points, nothing for
/// surrogates and values beyond the last plane.
#[verifier::external_body]
fn char_from_u32(x: u32) -> (r: Option<char>)
    ensures
        (r is Some) == (x < 0xD800 || (0xE000 <= x < 0x11_0000)),
        r matches Some(c) ==> (c as u32) == x,
{
    char::from_u32(x)
}

/// Read an inhibition list at `i`.
fn read_pairs(ws: &Vec<u64>, i: usize) -> (r: Option<(Vec<(usize, u32)>, usize)>)
    requires
        ws@.len() <= 0x0fff_ffff,
    ensures
        (r is Some) == (parse_pairs_s(ws@, i as int) is Some),
        r matches Some(v) ==> parse_pairs_s(ws@, i as int) == Some((v.0@, v.1 as int)),
{
    if i >= ws.len() {
        return None;
    }
    let n64 = ws[i];
    if (i as u128) + 1 + 2 * (n64 as u128) > ws.len() as u128 {
        return None;
    }
    let n = n64 as usize;
    let mut out: Vec<(usize, u32)> = Vec::new();
    let mut k: usize = 0;
    while k < n
        invariant
            k <= n,
            i < ws@.len(),
            n == ws@[i as int] as int,
            i + 1 + 2 * n <= ws@.len(),
            out@.len() == k,
            forall|q: int|
                0 <= q < k ==> #[trigger] ws@[i + 1 + 2 * q] <= usize::MAX && ws@[i + 1 + 2 * q
                    + 1] <= u32::MAX,
            forall|q: int|
                0 <= q < k ==> #[trigger] out@[q] == (
                    ws@[i + 1 + 2 * q] as usize,
                    ws@[i + 1 + 2 * q + 1] as u32,
                ),
        decreases n - k,
    {
        let wi = ws[i + 1 + 2 * k];
        let wc = ws[i + 1 + 2 * k + 1];
        if wi > usize::MAX as u64 || wc > u32::MAX as u64 {
            return None;
        }
        out.push((wi as usize, wc as u32));
        k = k + 1;
    }
    proof {
        let parsed = Seq::new(
            n as nat,
            |q: int| (ws@[i + 1 + 2 * q] as usize, ws@[i + 1 + 2 * q + 1] as u32),
        );
        assert(out@ =~= parsed);
    }
    Some((out, i + 1 + 2 * n))
}


/// At a symbol whose wire form fails its check, the whole read refuses:
/// when the store parses, that symbol is among the parsed ones.
proof fn lemma_read_symbols_bad(ws: Seq<u64>, i: int, k: int)
    requires
        0 <= i < ws.len(),
        0 <= k < ws[i] as int,
    ensures
        parse_syms_s(ws, i) matches Some(v) ==> v.0[k] == wire_sym_at_s(ws, i + 1 + 38 * k),
{
}

/// Read the symbol store at `i`, building live symbols and checking
/// each one's structural soundness.
#[verifier::rlimit(100)]
fn read_symbols(ws: &Vec<u64>, i: usize) -> (r: Option<(Vec<FractalSymbol>, usize)>)
    requires
        ws@.len() <= 0x0fff_ffff,
    ensures
        (r is Some) == (match parse_syms_s(ws@, i as int) {
            Some((syms, p)) => forall|k: int| 0 <= k < syms.len() ==> wire_sym_ok_s(#[trigger] syms[k]),
            None => false,
        }),
        r matches Some(v) ==> (match parse_syms_s(ws@, i as int) {
            Some((syms, p)) => {
                &&& v.1 == p
                &&& v.0@.len() == syms.len()
                &&& (forall|k: int|
                    0 <= k < syms.len() ==> wire_of_sym_s(#[trigger] v.0@[k]) == syms[k]
                        && v.0@[k].wf())
            },
            None => false,
        }),
{
    if i >= ws.len() {
        return None;
    }
    let n64 = ws[i];
    if (i as u128) + 1 + 38 * (n64 as u128) > ws.len() as u128 {
        return None;
    }
    let n = n64 as usize;
    let mut out: Vec<FractalSymbol> = Vec::new();
    let mut k: usize = 0;
    while k < n
        invariant
            k <= n,
            i < ws@.len(),
            n == ws@[i as int] as int,
            i + 1 + 38 * n <= ws@.len(),
            ws@.len() <= 0x0fff_ffff,
            out@.len() == k,
            forall|q: int| 0 <= q < k ==> #[trigger] ws@[i + 1 + 38 * q + 34] <= u32::MAX,
            forall|q: int|
                0 <= q < k ==> wire_of_sym_s(#[trigger] out@[q]) == wire_sym_at_s(
                    ws@,
                    i + 1 + 38 * q,
                ) && out@[q].wf() && wire_sym_ok_s(wire_sym_at_s(ws@, i + 1 + 38 * q)),
        decreases n - k,
    {
        let b = i + 1 + 38 * k;
        let re64 = ws[b];
        let im64 = ws[b + 1];
        let coord = MandelbrotCoord { re: re64 as i64, im: im64 as i64 };
        if !(coord.re >= -750_000 && coord.re <= 250_000 && coord.im >= -1_000_000 && coord.im
            <= 1_000_000) {
            proof {
                lemma_read_symbols_bad(ws@, i as int, k as int);
            }
            return None;
        }
        let mut pattern: Vec<u64> = Vec::new();
        let mut q: usize = 0;
        while q < 32
            invariant
                q <= 32,
                b + 38 <= ws@.len(),
                pattern@ == ws@.subrange(b + 2, b + 2 + q),
            decreases 32 - q,
        {
            pattern.push(ws[b + 2 + q]);
            proof {
                assert(ws@.subrange(b + 2, b + 2 + q + 1) =~= ws@.subrange(
                    b + 2,
                    b + 2 + q,
                ).push(ws@[b + 2 + q]));
            }
            q = q + 1;
        }
        let cw = ws[b + 34];
        if cw > u32::MAX as u64 {
            return None;
        }
        let lw = ws[b + 35];
        let label: Option<char> = if lw == 0xffff_ffff_ffff_ffff {
            None
        } else {
            if lw > u32::MAX as u64 {
                proof {
                    lemma_read_symbols_bad(ws@, i as int, k as int);
                }
                return None;
            }
            match char_from_u32(lw as u32) {
                Some(c) => Some(c),
                None => {
                    proof {
                        lemma_read_symbols_bad(ws@, i as int, k as int);
                    }
                    return None;
                },
            }
        };
        let confidence = ws[b + 36] as i64;
        let stability = ws[b + 37] as i64;
        if !(confidence >= 0 && confidence <= FP && stability >= 0 && stability <= FP) {
            proof {
                lemma_read_symbols_bad(ws@, i as int, k as int);
            }
            return None;
        }
        let sym = FractalSymbol { coord, pattern, count: cw as u32, label, confidence, stability };
        proof {
            assert(wire_of_sym_s(sym) == wire_sym_at_s(ws@, b as int));
            assert(wire_sym_ok_s(wire_sym_at_s(ws@, b as int)));
        }
        out.push(sym);
        k = k + 1;
    }
    proof {
        match parse_syms_s(ws@, i as int) {
            Some((syms, p)) => {
                assert forall|q: int|
                    0 <= q < syms.len() implies wire_sym_ok_s(#[trigger] syms[q])
                    && wire_of_sym_s(out@[q]) == syms[q] && out@[q].wf() by {
                    assert(wire_of_sym_s(out@[q]) == wire_sym_at_s(ws@, i + 1 + 38 * q));
                    assert(syms[q] == wire_sym_at_s(ws@, i + 1 + 38 * q));
                }
            },
            None => {
                assert(false);
            },
        }
    }
    Some((out, i + 1 + 38 * n))
}

/// Read one trajectory record at `i`, building the live trajectory and
/// checking its structural soundness.
#[verifier::rlimit(100)]
fn read_traj(ws: &Vec<u64>, i: usize) -> (r: Option<(ConceptTrajectory, usize)>)
    requires
        ws@.len() <= 0x0fff_ffff,
    ensures
        (r is Some) == (match parse_traj_s(ws@, i as int) {
            Some((t, p)) => wire_traj_ok_s(t),
            None => false,
        }),
        r matches Some(v) ==> (match parse_traj_s(ws@, i as int) {
            Some((t, p)) => v.1 == p && wire_of_traj_s(v.0) == t && v.0.wf(),
            None => false,
        }),
{
    if i >= ws.len() {
        return None;
    }
    let p64 = ws[i];
    if (i as u128) + 1 + 2 * (p64 as u128) > ws.len() as u128 {
        return None;
    }
    let plen = p64 as usize;
    let mut path: Vec<MandelbrotCoord> = Vec::new();
    let mut k: usize = 0;
    while k < plen
        invariant
            k <= plen,
            i < ws@.len(),
            plen == ws@[i as int] as int,
            i + 1 + 2 * plen <= ws@.len(),
            path@.len() == k,
            forall|q: int|
                0 <= q < k ==> #[trigger] path@[q] == (MandelbrotCoord {
                    re: ws@[i + 1 + 2 * q] as i64,
                    im: ws@[i + 1 + 2 * q + 1] as i64,
                }) && in_bounds(path@[q]),
        decreases plen - k,
    {
        let c = MandelbrotCoord { re: ws[i + 1 + 2 * k] as i64, im: ws[i + 1 + 2 * k + 1] as i64 };
        if !(c.re >= -750_000 && c.re <= 250_000 && c.im >= -1_000_000 && c.im <= 1_000_000) {
            proof {
                match parse_traj_s(ws@, i as int) {
                    Some((pt, pp)) => {
                        assert(pt.path[k as int] == c);
                        assert(!wire_traj_ok_s(pt));
                    },
                    None => {},
                }
            }
            return None;
        }
        path.push(c);
        k = k + 1;
    }
    if plen == 0 {
        proof {
            match parse_traj_s(ws@, i as int) {
                Some((pt, pp)) => {
                    assert(pt.path.len() == 0);
                    assert(!wire_traj_ok_s(pt));
                },
                None => {},
            }
        }
        return None;
    }
    let j = i + 1 + 2 * plen;
    if j >= ws.len() {
        return None;
    }
    let s64 = ws[j];
    if (j as u128) + 1 + (s64 as u128) > ws.len() as u128 {
        return None;
    }
    let slen = s64 as usize;
    if slen > plen {
        proof {
            match parse_traj_s(ws@, i as int) {
                Some((pt, pp)) => {
                    assert(pt.symbols.len() > pt.path.len());
                    assert(!wire_traj_ok_s(pt));
                },
                None => {},
            }
        }
        return None;
    }
    let mut symbols: Vec<usize> = Vec::new();
    let mut k2: usize = 0;
    while k2 < slen
        invariant
            k2 <= slen,
            j < ws@.len(),
            slen == ws@[j as int] as int,
            j + 1 + slen <= ws@.len(),
            symbols@.len() == k2,
            forall|q: int| 0 <= q < k2 ==> #[trigger] ws@[j + 1 + q] <= usize::MAX,
            forall|q: int| 0 <= q < k2 ==> #[trigger] symbols@[q] == ws@[j + 1 + q] as usize,
        decreases slen - k2,
    {
        let wv = ws[j + 1 + k2];
        if wv > usize::MAX as u64 {
            return None;
        }
        symbols.push(wv as usize);
        k2 = k2 + 1;
    }
    let m = j + 1 + slen;
    if m + 2 > ws.len() {
        return None;
    }
    let strength = ws[m] as i64;
    if !(strength >= 0 && strength <= STRENGTH_MAX) {
        proof {
            match parse_traj_s(ws@, i as int) {
                Some((pt, pp)) => {
                    assert(pt.strength == strength);
                    assert(!wire_traj_ok_s(pt));
                },
                None => {},
            }
        }
        return None;
    }
    let tag = ws[m + 1];
    let ghost spath = Seq::new(
        plen as nat,
        |q: int|
            MandelbrotCoord { re: ws@[i + 1 + 2 * q] as i64, im: ws@[i + 1 + 2 * q + 1] as i64 },
    );
    let ghost ssyms = Seq::new(slen as nat, |q: int| ws@[j + 1 + q] as usize);
    proof {
        assert(path@ =~= spath);
        assert(symbols@ =~= ssyms);
    }
    if tag == 0 {
        let t = ConceptTrajectory { path, strength, symbols, image_path: None };
        proof {
            assert(t.wf());
            let pt = (parse_traj_s(ws@, i as int)->0).0;
            assert(wire_of_traj_s(t) == pt);
            assert forall|q: int| 0 <= q < pt.path.len() implies in_bounds(
                #[trigger] pt.path[q],
            ) by {
                assert(pt.path[q] == path@[q]);
            }
            assert(wire_traj_ok_s(pt));
        }
        Some((t, m + 2))
    } else if tag == 1 {
        if m + 2 >= ws.len() {
            return None;
        }
        let i64v = ws[m + 2];
        if (m as u128) + 3 + (i64v as u128) > ws.len() as u128 {
            return None;
        }
        let ilen = i64v as usize;
        let mut img = String::new();
        let mut k3: usize = 0;
        while k3 < ilen
            invariant
                k3 <= ilen,
                m + 2 < ws@.len(),
                ilen == ws@[m + 2] as int,
                m + 3 + ilen <= ws@.len(),
                img@.len() == k3,
                forall|q: int|
                    0 <= q < k3 ==> #[trigger] ws@[m + 3 + q] < 0x11_0000 && !(0xD800 <= ws@[m + 3
                        + q] < 0xE000),
                forall|q: int|
                    0 <= q < k3 ==> (#[trigger] img@[q] as u32) as u64 == ws@[m + 3 + q],
            decreases ilen - k3,
        {
            let cw = ws[m + 3 + k3];
            if cw > u32::MAX as u64 {
                proof {
                    lemma_read_traj_bad_img(ws@, i as int, k3 as int);
                }
                return None;
            }
            match char_from_u32(cw as u32) {
                Some(c) => {
                    push_char(&mut img, c);
                },
                None => {
                    proof {
                        lemma_read_traj_bad_img(ws@, i as int, k3 as int);
                    }
                    return None;
                },
            }
            k3 = k3 + 1;
        }
        let t = ConceptTrajectory { path, strength, symbols, image_path: Some(img) };
        proof {
            assert(chars_codes_s(t.image_path->0@) =~= ws@.subrange(m + 3, m + 3 + ilen));
            assert(t.wf());
            let pt = (parse_traj_s(ws@, i as int)->0).0;
            assert(pt.image == Some(ws@.subrange(m + 3, m + 3 + ilen)));
            assert(wire_of_traj_s(t) == pt);
            assert forall|q: int| 0 <= q < pt.path.len() implies in_bounds(
                #[trigger] pt.path[q],
            ) by {
                assert(pt.path[q] == path@[q]);
            }
            assert(wire_traj_ok_s(pt)) by {
                assert forall|q: int|
                    0 <= q < ws@.subrange(m + 3, m + 3 + ilen).len() implies #[trigger] ws@.subrange(
                    m + 3,
                    m + 3 + ilen,
                )[q] < 0x11_0000 && !(0xD800 <= ws@.subrange(m + 3, m + 3 + ilen)[q] < 0xE000) by {
                    assert(ws@.subrange(m + 3, m + 3 + ilen)[q] == ws@[m + 3 + q]);
                }
            }
        }
        Some((t, m + 3 + ilen))
    } else {
        None
    }
}


/// At a bad image code word, the parsed trajectory fails its check.
proof fn lemma_read_traj_bad_img(ws: Seq<u64>, i: int, k: int)
    requires
        k >= 0,
    ensures
        parse_traj_s(ws, i) matches Some(v) ==> (v.0.image matches Some(img) ==> (k < img.len()
            ==> img[k] == ws[{
                let plen = ws[i] as int;
                let j = i + 1 + 2 * plen;
                let slen = ws[j] as int;
                let m = j + 1 + slen;
                m + 3 + k
            }])),
{
}

/// The elements a longer record list parses agree with a shorter prefix
/// and the record just past it.
proof fn lemma_parse_trajs_elem(ws: Seq<u64>, i: int, k: nat, n: nat)
    requires
        k < n,
        parse_trajs_rec_s(ws, i, k) is Some,
        parse_traj_s(ws, (parse_trajs_rec_s(ws, i, k)->0).1) is Some,
    ensures
        parse_trajs_rec_s(ws, i, n) matches Some(v) ==> v.0.len() == n && v.0[k as int] == (
        parse_traj_s(ws, (parse_trajs_rec_s(ws, i, k)->0).1)->0).0,
    decreases n,
{
    lemma_parse_trajs_len(ws, i, n);
    if n > k + 1 {
        if parse_trajs_rec_s(ws, i, (n - 1) as nat) is Some {
            lemma_parse_trajs_elem(ws, i, k, (n - 1) as nat);
            lemma_parse_trajs_len(ws, i, (n - 1) as nat);
        }
    }
}

/// A parsed record list holds as many records as were asked for.
proof fn lemma_parse_trajs_len(ws: Seq<u64>, i: int, n: nat)
    ensures
        parse_trajs_rec_s(ws, i, n) matches Some(v) ==> v.0.len() == n,
    decreases n,
{
    if n > 0 {
        lemma_parse_trajs_len(ws, i, (n - 1) as nat);
    }
}

/// Read the trajectory store at `i`.
#[verifier::rlimit(60)]
fn read_trajs(ws: &Vec<u64>, i: usize) -> (r: Option<(Vec<ConceptTrajectory>, usize)>)
    requires
        ws@.len() <= 0x0fff_ffff,
    ensures
        (r is Some) == (match parse_trajs_s(ws@, i as int) {
            Some((ts, p)) => forall|k: int| 0 <= k < ts.len() ==> wire_traj_ok_s(#[trigger] ts[k]),
            None => false,
        }),
        r matches Some(v) ==> (match parse_trajs_s(ws@, i as int) {
            Some((ts, p)) => {
                &&& v.1 == p
                &&& v.0@.len() == ts.len()
                &&& (forall|k: int|
                    0 <= k < ts.len() ==> wire_of_traj_s(#[trigger] v.0@[k]) == ts[k]
                        && v.0@[k].wf())
            },
            None => false,
        }),
{
    if i >= ws.len() {
        return None;
    }
    let n64 = ws[i];
    let mut out: Vec<ConceptTrajectory> = Vec::new();
    let mut cur: usize = i + 1;
    let mut k: u64 = 0;
    while k < n64
        invariant
            k <= n64,
            i < ws@.len(),
            ws@.len() <= 0x0fff_ffff,
            n64 == ws@[i as int],
            out@.len() == k,
            parse_trajs_rec_s(ws@, i + 1, k as nat) matches Some(v) && v.1 == cur as int
                && v.0.len() == k,
            forall|q: int|
                0 <= q < k ==> wire_of_traj_s(#[trigger] out@[q]) == (parse_trajs_rec_s(
                    ws@,
                    i + 1,
                    k as nat,
                )->0).0[q] && out@[q].wf() && wire_traj_ok_s(
                    (parse_trajs_rec_s(ws@, i + 1, k as nat)->0).0[q],
                ),
        decreases n64 - k,
    {
        let ghost pre = (parse_trajs_rec_s(ws@, i + 1, k as nat)->0).0;
        let ghost cur_pre = cur as int;
        match read_traj(ws, cur) {
            Some(tp) => {
                let (t, p2) = tp;
                out.push(t);
                cur = p2;
                proof {
                    let post = parse_trajs_rec_s(ws@, i + 1, (k + 1) as nat);
                    assert(post matches Some(v2) && v2.1 == cur as int && v2.0 == pre.push(
                        (parse_traj_s(ws@, cur_pre)->0).0,
                    ));
                    assert forall|q: int|
                        0 <= q < k + 1 implies wire_of_traj_s(#[trigger] out@[q]) == (post->0).0[q]
                        && out@[q].wf() && wire_traj_ok_s((post->0).0[q]) by {
                        if q < k {
                            assert((post->0).0[q] == pre[q]);
                            assert(out@[q] == out@.subrange(0, k as int)[q]);
                        } else {
                            assert((post->0).0[q] == (parse_traj_s(ws@, cur_pre)->0).0);
                        }
                    }
                }
            },
            None => {
                proof {
                    if parse_traj_s(ws@, cur_pre) is None {
                        assert(parse_trajs_rec_s(ws@, i + 1, (k + 1) as nat) is None);
                        lemma_parse_trajs_rec_none(ws@, i + 1, (k + 1) as nat, n64 as nat);
                    } else {
                        lemma_parse_trajs_elem(ws@, i + 1, k as nat, n64 as nat);
                    }
                }
                return None;
            },
        }
        k = k + 1;
    }
    proof {
        let ts = (parse_trajs_rec_s(ws@, i + 1, n64 as nat)->0).0;
        assert(parse_trajs_s(ws@, i as int) == parse_trajs_rec_s(ws@, i + 1, ws@[i as int] as nat));
        assert forall|q: int| 0 <= q < ts.len() implies wire_traj_ok_s(#[trigger] ts[q]) by {
            assert(wire_of_traj_s(out@[q]) == (parse_trajs_rec_s(ws@, i + 1, k as nat)->0).0[q]);
        }
        assert forall|q: int|
            0 <= q < ts.len() implies wire_of_traj_s(#[trigger] out@[q]) == ts[q]
            && out@[q].wf() by {
            assert(wire_of_traj_s(out@[q]) == (parse_trajs_rec_s(ws@, i + 1, k as nat)->0).0[q]);
        }
    }
    Some((out, cur))
}

/// Read the field set at `i`, checking each field's structural
/// soundness.
fn read_fields(ws: &Vec<u64>, i: usize) -> (r: Option<(Vec<AssociativeField>, usize)>)
    requires
        ws@.len() <= 0x0fff_ffff,
    ensures
        (r is Some) == (match parse_fields_s(ws@, i as int) {
            Some((fs, p)) => forall|k: int| 0 <= k < fs.len() ==> (#[trigger] fs[k]).wf(),
            None => false,
        }),
        r matches Some(v) ==> (match parse_fields_s(ws@, i as int) {
            Some((fs, p)) => v.1 == p && v.0@ == fs,
            None => false,
        }),
{
    if i >= ws.len() {
        return None;
    }
    let n64 = ws[i];
    if (i as u128) + 1 + 4 * (n64 as u128) > ws.len() as u128 {
        return None;
    }
    let n = n64 as usize;
    let ghost fs = (parse_fields_s(ws@, i as int)->0).0;
    let mut out: Vec<AssociativeField> = Vec::new();
    let mut k: usize = 0;
    while k < n
        invariant
            k <= n,
            i < ws@.len(),
            n == ws@[i as int] as int,
            i + 1 + 4 * n <= ws@.len(),
            fs == (parse_fields_s(ws@, i as int)->0).0,
            parse_fields_s(ws@, i as int) is Some,
            fs.len() == n,
            out@.len() == k,
            forall|q: int| 0 <= q < k ==> #[trigger] out@[q] == fs[q] && fs[q].wf(),
        decreases n - k,
    {
        let b = i + 1 + 4 * k;
        let f = AssociativeField {
            center: MandelbrotCoord { re: ws[b] as i64, im: ws[b + 1] as i64 },
            radius: ws[b + 2] as i64,
            strength: ws[b + 3] as i64,
        };
        proof {
            assert(fs[k as int] == f);
        }
        if !(f.center.re >= -750_000 && f.center.re <= 250_000 && f.center.im >= -1_000_000
            && f.center.im <= 1_000_000 && f.radius > 0 && f.radius <= 2_000_000 && f.strength
            >= 0 && f.strength <= STRENGTH_MAX) {
            return None;
        }
        proof {
            assert(f.wf());
        }
        let ghost pre = out@;
        out.push(f);
        proof {
            assert forall|q: int| 0 <= q < k + 1 implies #[trigger] out@[q] == fs[q]
                && fs[q].wf() by {
                if q == k {
                    assert(out@[q] == f);
                    assert(fs[q] == f);
                } else {
                    assert(out@[q] == pre[q]);
                    assert(pre[q] == fs[q] && fs[q].wf());
                }
            }
        }
        k = k + 1;
    }
    proof {
        assert(out@ =~= fs);
    }
    Some((out, i + 1 + 4 * n))
}


/// Every character's code point is a Unicode scalar value.
proof fn lemma_char_scalar(c: char)
    ensures
        (c as u32) < 0x11_0000,
        !(0xD800 <= (c as u32) < 0xE000),
{
}

/// The live aggregate a wf blob decodes to is itself wf: every clause of
/// the aggregate's invariant stands in the wire checks.
impl FractalMind {
    /// Rebuild an aggregate from a saved blob: the byte layer must fill
    /// the blob exactly and every structural check must pass, else
    /// nothing comes back.  The two session-local windows and the last
    /// output start empty.
    #[verifier::rlimit(100)]
    pub fn from_bytes(bytes: &Vec<u8>) -> (r: Option<FractalMind>)
        ensures
            (r is Some) == (decode_mind_s(bytes@) is Some),
            r matches Some(m) ==> {
                &&& m.wf()
                &&& durable_of_s(m) == decode_mind_s(bytes@)->0
                &&& m.context_history@.len() == 0
                &&& m.symbol_history@.len() == 0
                &&& m.last_output@.len() == 0
            },
    {
        let (ws, p) = match read_words(bytes, 0) {
            Some(v) => v,
            None => {
                return None;
            },
        };
        if p != bytes.len() {
            return None;
        }
        proof {
            let n0 = (dec_u64_s(bytes@, 0)->0).0;
            lemma_dec_words_body_len2(bytes@, 8, n0 as nat);
            assert(ws@.len() <= 0x0fff_ffff);
        }
        if ws.len() < 10 {
            return None;
        }
        if ws[0] != FORMAT_TAG {
            return None;
        }
        let current = MandelbrotCoord { re: ws[1] as i64, im: ws[2] as i64 };
        let contextual = MandelbrotCoord { re: ws[3] as i64, im: ws[4] as i64 };
        let bgtag = ws[5];
        if !(bgtag == 0 || bgtag == 1) {
            return None;
        }
        let background = if bgtag == 1 {
            Some(MandelbrotCoord { re: ws[6] as i64, im: ws[7] as i64 })
        } else {
            None
        };
        if ws[8] > u32::MAX as u64 {
            return None;
        }
        let scale = ws[8] as u32;
        let er = ws[9] as i64;
        let (inh_s, p1) = match read_pairs(&ws, 10) {
            Some(v) => v,
            None => {
                return None;
            },
        };
        let (inh_t, p2) = match read_pairs(&ws, p1) {
            Some(v) => v,
            None => {
                return None;
            },
        };
        let (symbols, p3) = match read_symbols(&ws, p2) {
            Some(v) => v,
            None => {
                proof {
                    if decode_mind_s(bytes@) is Some {
                        let dd = decode_mind_s(bytes@)->0;
                        assert(parse_mind_s(ws@) == Some(dd));
                        assert(dd.symbols == (parse_syms_s(ws@, p2 as int)->0).0);
                        assert(durable_ok_s(dd));
                    }
                }
                return None;
            },
        };
        let (trajectories, p4) = match read_trajs(&ws, p3) {
            Some(v) => v,
            None => {
                proof {
                    if decode_mind_s(bytes@) is Some {
                        let dd = decode_mind_s(bytes@)->0;
                        assert(parse_mind_s(ws@) == Some(dd));
                        assert(dd.trajectories == (parse_trajs_s(ws@, p3 as int)->0).0);
                        assert(durable_ok_s(dd));
                    }
                }
                return None;
            },
        };
        let (fields, p5) = match read_fields(&ws, p4) {
            Some(v) => v,
            None => {
                proof {
                    if decode_mind_s(bytes@) is Some {
                        let dd = decode_mind_s(bytes@)->0;
                        assert(parse_mind_s(ws@) == Some(dd));
                        assert(dd.fields == (parse_fields_s(ws@, p4 as int)->0).0);
                        assert(durable_ok_s(dd));
                    }
                }
                return None;
            },
        };
        if p5 != ws.len() {
            return None;
        }
        // The aggregate's own validity checks on the header.
        if !(current.re >= -750_000 && current.re <= 250_000 && current.im >= -1_000_000
            && current.im <= 1_000_000) {
            proof {
                if decode_mind_s(bytes@) is Some {
                    let dd = decode_mind_s(bytes@)->0;
                    assert(parse_mind_s(ws@) == Some(dd));
                    assert(dd.current == current && dd.contextual == contextual && dd.background
                        == background && dd.scale == scale && dd.exploration_radius == er);
                    assert(durable_ok_s(dd));
                }
            }
            return None;
        }
        if !(contextual.re >= -750_000 && contextual.re <= 250_000 && contextual.im >= -1_000_000
            && contextual.im <= 1_000_000) {
            proof {
                if decode_mind_s(bytes@) is Some {
                    let dd = decode_mind_s(bytes@)->0;
                    assert(parse_mind_s(ws@) == Some(dd));
                    assert(dd.current == current && dd.contextual == contextual && dd.background
                        == background && dd.scale == scale && dd.exploration_radius == er);
                    assert(durable_ok_s(dd));
                }
            }
            return None;
        }
        match background {
            Some(c) => {
                if !(c.re >= -750_000 && c.re <= 250_000 && c.im >= -1_000_000 && c.im
                    <= 1_000_000) {
                proof {
                if decode_mind_s(bytes@) is Some {
                    let dd = decode_mind_s(bytes@)->0;
                    assert(parse_mind_s(ws@) == Some(dd));
                    assert(dd.current == current && dd.contextual == contextual && dd.background
                        == background && dd.scale == scale && dd.exploration_radius == er);
                    assert(durable_ok_s(dd));
                }
            }
                return None;
                }
            },
            None => {},
        }
        if scale < 1 {
            proof {
                if decode_mind_s(bytes@) is Some {
                    let dd = decode_mind_s(bytes@)->0;
                    assert(parse_mind_s(ws@) == Some(dd));
                    assert(dd.current == current && dd.contextual == contextual && dd.background
                        == background && dd.scale == scale && dd.exploration_radius == er);
                    assert(durable_ok_s(dd));
                }
            }
            return None;
        }
        if !(er > 0 && er <= 2_000_000) {
            proof {
                if decode_mind_s(bytes@) is Some {
                    let dd = decode_mind_s(bytes@)->0;
                    assert(parse_mind_s(ws@) == Some(dd));
                    assert(dd.current == current && dd.contextual == contextual && dd.background
                        == background && dd.scale == scale && dd.exploration_radius == er);
                    assert(durable_ok_s(dd));
                }
            }
            return None;
        }
        // Referential integrity of the decoded stores.
        let tn = trajectories.len();
        let mut t: usize = 0;
        while t < tn
            invariant
                t <= tn,
                tn == trajectories@.len(),
                forall|u: int, q: int|
                    0 <= u < t && 0 <= q < trajectories@[u].symbols@.len()
                        ==> #[trigger] trajectories@[u].symbols@[q] < symbols@.len(),
            decreases tn - t,
        {
            let sn = trajectories[t].symbols.len();
            let mut q: usize = 0;
            while q < sn
                invariant
                    q <= sn,
                    t < tn,
                    tn == trajectories@.len(),
                    sn == trajectories@[t as int].symbols@.len(),
                    forall|q2: int|
                        0 <= q2 < q ==> #[trigger] trajectories@[t as int].symbols@[q2]
                            < symbols@.len(),
                    forall|u: int, q2: int|
                        0 <= u < t && 0 <= q2 < trajectories@[u].symbols@.len()
                            ==> #[trigger] trajectories@[u].symbols@[q2] < symbols@.len(),
                decreases sn - q,
            {
                if trajectories[t].symbols[q] >= symbols.len() {
                    proof {
                        let d = decode_mind_s(bytes@)->0;
                        if decode_mind_s(bytes@) is Some {
                            assert(d.trajectories[t as int].symbols[q as int]
                                == trajectories@[t as int].symbols@[q as int]);
                            assert(d.symbols.len() == symbols@.len());
                            assert(!durable_ok_s(d));
                        }
                    }
                    return None;
                }
                q = q + 1;
            }
            t = t + 1;
        }
        let m = FractalMind {
            current_coord: current,
            symbols,
            trajectories,
            associative_fields: fields,
            context_history: Vec::new(),
            symbol_history: Vec::new(),
            background_thought_coord: background,
            contextual_coord: contextual,
            last_output: String::new(),
            inhibited_symbols: inh_s,
            inhibited_trajectories: inh_t,
            scale,
            exploration_radius: er,
        };
        proof {
            let ghost wsv = ws@;
            let d = Durable {
                current,
                contextual,
                background,
                scale,
                exploration_radius: er,
                inhibited_symbols: inh_s@,
                inhibited_trajectories: inh_t@,
                symbols: (parse_syms_s(wsv, p2 as int)->0).0,
                trajectories: (parse_trajs_s(wsv, p3 as int)->0).0,
                fields: fields@,
            };
            assert(durable_ok_s(d)) by {
                assert forall|t2: int, k2: int|
                    0 <= t2 < d.trajectories.len() && 0 <= k2 < d.trajectories[t2].symbols.len()
                        implies #[trigger] d.trajectories[t2].symbols[k2] < d.symbols.len() by {
                    assert(d.trajectories[t2] == wire_of_traj_s(trajectories@[t2]));
                    assert(d.trajectories[t2].symbols[k2] == trajectories@[t2].symbols@[k2]);
                }
            }
            assert(decode_mind_s(bytes@) == Some(d));
            assert(durable_of_s(m).symbols =~= d.symbols) by {
                assert forall|k2: int|
                    0 <= k2 < symbols@.len() implies durable_of_s(m).symbols[k2]
                    == #[trigger] d.symbols[k2] by {
                    assert(wire_of_sym_s(symbols@[k2]) == d.symbols[k2]);
                }
            }
            assert(durable_of_s(m).trajectories =~= d.trajectories) by {
                assert forall|k2: int|
                    0 <= k2 < trajectories@.len() implies durable_of_s(m).trajectories[k2]
                    == #[trigger] d.trajectories[k2] by {
                    assert(wire_of_traj_s(trajectories@[k2]) == d.trajectories[k2]);
                }
            }
            assert(durable_of_s(m) == d);
            assert(m.wf()) by {
                assert forall|k2: int| 0 <= k2 < m.symbols@.len() implies (
                #[trigger] m.symbols@[k2]).wf() by {
                    assert(wire_of_sym_s(symbols@[k2]) == d.symbols[k2]);
                }
                assert forall|k2: int| 0 <= k2 < m.trajectories@.len() implies (
                #[trigger] m.trajectories@[k2]).wf() by {
                    assert(wire_of_traj_s(trajectories@[k2]) == d.trajectories[k2]);
                }
            }
        }
        Some(m)
    }
}

/// The durable state of a wf aggregate passes every wire check.
pub proof fn lemma_durable_of_wf(m: FractalMind)
    requires
        m.wf(),
    ensures
        durable_ok_s(durable_of_s(m)),
{
    let d = durable_of_s(m);
    assert forall|i: int| 0 <= i < d.symbols.len() implies wire_sym_ok_s(#[trigger] d.symbols[i]) by {
        assert(m.symbols@[i].wf());
        assert(d.symbols[i] == wire_of_sym_s(m.symbols@[i]));
        match m.symbols@[i].label {
            Some(c) => {
                lemma_char_scalar(c);
            },
            None => {},
        }
    }
    assert forall|t: int|
        0 <= t < d.trajectories.len() implies wire_traj_ok_s(#[trigger] d.trajectories[t]) by {
        assert(m.trajectories@[t].wf());
        assert(d.trajectories[t] == wire_of_traj_s(m.trajectories@[t]));
        match m.trajectories@[t].image_path {
            Some(p) => {
                assert forall|k: int|
                    0 <= k < chars_codes_s(p@).len() implies #[trigger] chars_codes_s(p@)[k]
                    < 0x11_0000 && !(0xD800 <= chars_codes_s(p@)[k] < 0xE000) by {
                    lemma_char_scalar(p@[k]);
                    assert(chars_codes_s(p@)[k] == (p@[k] as u32) as u64);
                }
            },
            None => {},
        }
    }
    assert forall|t2: int, k2: int|
        0 <= t2 < d.trajectories.len() && 0 <= k2 < d.trajectories[t2].symbols.len()
            implies #[trigger] d.trajectories[t2].symbols[k2] < d.symbols.len() by {
        assert(d.trajectories[t2] == wire_of_traj_s(m.trajectories@[t2]));
        assert(m.trajectories@[t2].symbols@[k2] < m.symbols@.len());
    }
}

/// The saved state's sizes are inside the wire's framing.
pub open spec fn save_fits_s(m: FractalMind) -> bool {
    &&& durable_small_s(durable_of_s(m))
    &&& mind_words_s(durable_of_s(m)).len() <= 0x0fff_ffff
}

/// The round trip: decoding what a wf aggregate encodes gives back its
/// whole durable state, and with the contracts of `to_bytes` and
/// `from_bytes` the reloaded aggregate carries the identical symbol,
/// trajectory and field collections and position state, its two
/// session-local windows empty.
pub proof fn lemma_save_load_round_trip(m: FractalMind)
    requires
        m.wf(),
        save_fits_s(m),
    ensures
        decode_mind_s(enc_words_s(mind_words_s(durable_of_s(m)))) == Some(durable_of_s(m)),
{
    let d = durable_of_s(m);
    let ws = mind_words_s(d);
    let b = enc_words_s(ws);
    lemma_words_body_len(ws);
    assert(b.subrange(0, 8 + 8 * ws.len() as int) =~= b);
    lemma_words_round_trip(b, 0, ws);
    lemma_durable_of_wf(m);
    lemma_mind_words_round_trip(d);
}

} // verus!
