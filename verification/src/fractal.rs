//! Concept space: hashing text onto a bounded rectangle of the complex
//! plane, escape-time dynamics, and bit-pattern fingerprints with their
//! Hamming-distance metric.
//!
//! Coordinates are fixed-point micro-units (`crate::fixed`).  The real axis
//! of concept space is the interval [-0.75, 0.25] and the imaginary axis
//! [-1.0, 1.0]; every operation here clamps its result into that rectangle.
use vstd::prelude::*;

verus! {

use crate::fixed::{
    FP, sdiv, fp_mul_s, clamp_s, div_trunc, fp_mul, clamp, isqrt, is_isqrt, sqrt_s,
    lemma_isqrt_exists_unique,
};

/// Least representable real part, in micro-units (-0.75).
pub const RE_MIN: i64 = -750_000;

/// Greatest representable real part, in micro-units (0.25).
pub const RE_MAX: i64 = 250_000;

/// Least representable imaginary part, in micro-units (-1.0).
pub const IM_MIN: i64 = -1_000_000;

/// Greatest representable imaginary part, in micro-units (1.0).
pub const IM_MAX: i64 = 1_000_000;

/// Escape threshold for |z|^2, in squared micro-units (4.0).
pub const ESCAPE_SQ: i64 = 4_000_000_000_000;

/// Offset basis of the 64-bit FNV-1a hash.
pub const FNV_OFFSET: u64 = 0xcbf2_9ce4_8422_2325;

/// Multiplier of the 64-bit FNV-1a hash.
pub const FNV_PRIME: u64 = 0x0000_0100_0000_01b3;

/// A point of concept space: a coordinate of the parameter plane,
/// in micro-units per axis.
#[derive(Clone, Copy, Debug, PartialEq, Eq, Structural)]
pub struct MandelbrotCoord {
    pub re: i64,
    pub im: i64,
}

/// Whether a point lies in the canonical rectangle of concept space.
pub open spec fn in_bounds(c: MandelbrotCoord) -> bool {
    RE_MIN <= c.re <= RE_MAX && IM_MIN <= c.im <= IM_MAX
}

impl MandelbrotCoord {
    pub fn new(re: i64, im: i64) -> (r: MandelbrotCoord)
        ensures
            r.re == re,
            r.im == im,
    {
        MandelbrotCoord { re, im }
    }
}

/// One step of the 64-bit FNV-1a hash.
pub open spec fn fnv_step_s(h: u64, x: u64) -> u64 {
    vstd::wrapping::u64_specs::wrapping_mul(h ^ x, FNV_PRIME)
}

/// FNV-1a over the code points of a character sequence.
pub open spec fn hash_chars_s(s: Seq<char>) -> u64
    decreases s.len(),
{
    if s.len() == 0 {
        FNV_OFFSET
    } else {
        fnv_step_s(hash_chars_s(s.drop_last()), (s.last() as u32) as u64)
    }
}

/// The point a 64-bit hash lands on: the high half is mapped linearly onto
/// the real axis of the rectangle and the low half onto the imaginary axis.
pub open spec fn point_from_hash_s(h: u64) -> MandelbrotCoord {
    MandelbrotCoord {
        re: (RE_MIN + (h >> 32) * 1_000_000 / 0xffff_ffff) as i64,
        im: (IM_MIN + (h & 0xffff_ffff) * 2_000_000 / 0xffff_ffff) as i64,
    }
}

/// The point a text lands on.
pub open spec fn point_from_text_s(s: Seq<char>) -> MandelbrotCoord {
    point_from_hash_s(hash_chars_s(s))
}

/// The hash of one character taken together with its position and the
/// text it occurred in, used for position-sensitive learning.
pub open spec fn char_context_hash_s(text: Seq<char>, i: u64, c: char) -> u64 {
    fnv_step_s(fnv_step_s(hash_chars_s(text), i), (c as u32) as u64)
}

/// The point one character of a text lands on under position-sensitive
/// learning.
pub open spec fn char_context_point_s(text: Seq<char>, i: u64, c: char) -> MandelbrotCoord {
    point_from_hash_s(char_context_hash_s(text, i, c))
}

proof fn lemma_point_from_hash_bounds(h: u64)
    ensures
        in_bounds(point_from_hash_s(h)),
{
    let hi = h >> 32;
    let lo = h & 0xffff_ffff;
    assert(h >> 32 <= 0xffff_ffff && (h & 0xffff_ffff) <= 0xffff_ffff) by (bit_vector);
    assert(hi * 1_000_000 <= 0xffff_ffff * 1_000_000) by (nonlinear_arith)
        requires
            hi <= 0xffff_ffff,
    ;
    assert(lo * 2_000_000 <= 0xffff_ffff * 2_000_000) by (nonlinear_arith)
        requires
            lo <= 0xffff_ffff,
    ;
    vstd::arithmetic::div_mod::lemma_div_is_ordered(
        hi * 1_000_000,
        0xffff_ffffu64 * 1_000_000,
        0xffff_ffff,
    );
    vstd::arithmetic::div_mod::lemma_div_is_ordered(
        lo * 2_000_000,
        0xffff_ffffu64 * 2_000_000,
        0xffff_ffff,
    );
    assert(0xffff_ffffu64 * 1_000_000 as int / 0xffff_ffff as int == 1_000_000);
    assert(0xffff_ffffu64 * 2_000_000 as int / 0xffff_ffff as int == 2_000_000);
    vstd::arithmetic::div_mod::lemma_div_pos_is_pos(hi * 1_000_000, 0xffff_ffff);
    vstd::arithmetic::div_mod::lemma_div_pos_is_pos(lo * 2_000_000, 0xffff_ffff);
}

/// FNV-1a over the characters of a text.
pub fn hash_str(s: &str) -> (h: u64)
    ensures
        h == hash_chars_s(s@),
{
    let n: usize = s.unicode_len();
    let mut h: u64 = FNV_OFFSET;
    let mut i: usize = 0;
    while i < n
        invariant
            i <= n,
            n == s@.len(),
            h == hash_chars_s(s@.take(i as int)),
        decreases n - i,
    {
        let c = s.get_char(i);
        h = (h ^ ((c as u32) as u64)).wrapping_mul(FNV_PRIME);
        proof {
            assert(s@.take(i + 1).drop_last() =~= s@.take(i as int));
            assert(s@.take(i + 1).last() == s@[i as int]);
        }
        i = i + 1;
    }
    proof {
        assert(s@.take(n as int) =~= s@);
    }
    h
}

/// The point a 64-bit hash lands on.
pub fn point_from_hash(h: u64) -> (r: MandelbrotCoord)
    ensures
        r == point_from_hash_s(h),
        in_bounds(r),
{
    proof {
        lemma_point_from_hash_bounds(h);
    }
    let hi: u64 = h >> 32;
    let lo: u64 = h & 0xffff_ffff;
    proof {
        assert(h >> 32 <= 0xffff_ffff && (h & 0xffff_ffff) <= 0xffff_ffff) by (bit_vector);
    }
    let re: i64 = RE_MIN + ((hi * 1_000_000) / 0xffff_ffff) as i64;
    let im: i64 = IM_MIN + ((lo * 2_000_000) / 0xffff_ffff) as i64;
    MandelbrotCoord { re, im }
}

/// Deterministic mapping of a text onto a point of concept space.
pub fn hash_to_mandelbrot_coord(input: &str) -> (r: MandelbrotCoord)
    ensures
        r == point_from_text_s(input@),
        in_bounds(r),
{
    let h = hash_str(input);
    point_from_hash(h)
}

/// The point one character of a text lands on under position-sensitive
/// learning.
pub fn char_context_point(text: &str, text_hash: u64, i: u64, c: char) -> (r: MandelbrotCoord)
    requires
        text_hash == hash_chars_s(text@),
    ensures
        r == char_context_point_s(text@, i, c),
        in_bounds(r),
{
    let h1 = (text_hash ^ i).wrapping_mul(FNV_PRIME);
    let h2 = (h1 ^ ((c as u32) as u64)).wrapping_mul(FNV_PRIME);
    point_from_hash(h2)
}

/// Nudging a base point toward the point of a context text, each axis
/// moved by a tenth of the gap scaled by `influence` (micro-units), then
/// clamped into the rectangle.
pub open spec fn contextual_coord_s(
    base: MandelbrotCoord,
    ctx: MandelbrotCoord,
    influence: int,
) -> MandelbrotCoord {
    MandelbrotCoord {
        re: clamp_s(
            base.re + sdiv((ctx.re - base.re) * influence, 10 * FP),
            RE_MIN as int,
            RE_MAX as int,
        ) as i64,
        im: clamp_s(
            base.im + sdiv((ctx.im - base.im) * influence, 10 * FP),
            IM_MIN as int,
            IM_MAX as int,
        ) as i64,
    }
}

/// Blend a base point toward the point of a context string: the base moves
/// a tenth of the way scaled by `influence`, and stays inside the rectangle.
pub fn contextual_mandelbrot_coord(
    base: MandelbrotCoord,
    context: &str,
    influence: i64,
) -> (r: MandelbrotCoord)
    requires
        in_bounds(base),
        0 <= influence <= FP,
    ensures
        r == contextual_coord_s(base, point_from_text_s(context@), influence as int),
        in_bounds(r),
{
    let ctx = hash_to_mandelbrot_coord(context);
    let dre: i64 = ctx.re - base.re;
    let dim: i64 = ctx.im - base.im;
    proof {
        assert(-2_000_000 * 1_000_000 <= dre * influence <= 2_000_000 * 1_000_000)
            by (nonlinear_arith)
            requires
                -2_000_000 <= dre <= 2_000_000,
                0 <= influence <= 1_000_000,
        ;
        assert(-2_000_000 * 1_000_000 <= dim * influence <= 2_000_000 * 1_000_000)
            by (nonlinear_arith)
            requires
                -2_000_000 <= dim <= 2_000_000,
                0 <= influence <= 1_000_000,
        ;
    }
    let sre: i64 = div_trunc(dre * influence, 10 * FP);
    let sim: i64 = div_trunc(dim * influence, 10 * FP);
    let re = clamp(base.re + sre, RE_MIN, RE_MAX);
    let im = clamp(base.im + sim, IM_MIN, IM_MAX);
    MandelbrotCoord { re, im }
}

/// Real part of one iteration step z := z^2 + c.
pub open spec fn step_re_s(zr: int, zi: int, cr: int) -> int {
    fp_mul_s(zr, zr) - fp_mul_s(zi, zi) + cr
}

/// Imaginary part of one iteration step z := z^2 + c.
pub open spec fn step_im_s(zr: int, zi: int, ci: int) -> int {
    2 * fp_mul_s(zr, zi) + ci
}

/// Whether z has left the escape circle |z|^2 > 4.
pub open spec fn escaped_s(zr: int, zi: int) -> bool {
    zr * zr + zi * zi > ESCAPE_SQ
}

/// The first iteration at which z escapes under z := z^2 + c, or `fuel`
/// if it never does within the budget.
pub open spec fn escape_count(zr: int, zi: int, cr: int, ci: int, fuel: nat) -> nat
    decreases fuel,
{
    if fuel == 0 {
        0
    } else if escaped_s(zr, zi) {
        0
    } else {
        1 + escape_count(
            step_re_s(zr, zi, cr),
            step_im_s(zr, zi, ci),
            cr,
            ci,
            (fuel - 1) as nat,
        )
    }
}

/// Escape-time iteration from an arbitrary seed z0 with parameter c, both
/// bounded by 2.0 per axis.  Returns the first iteration at which
/// |z|^2 > 4, or `max_iter` if z never escapes within the budget.
pub fn julia_escapes(zr0: i64, zi0: i64, cr: i64, ci: i64, max_iter: u32) -> (r: u32)
    requires
        -2_000_000 <= zr0 <= 2_000_000,
        -2_000_000 <= zi0 <= 2_000_000,
        -2_000_000 <= cr <= 2_000_000,
        -2_000_000 <= ci <= 2_000_000,
    ensures
        r == escape_count(zr0 as int, zi0 as int, cr as int, ci as int, max_iter as nat),
        r <= max_iter,
{
    let mut zr: i64 = zr0;
    let mut zi: i64 = zi0;
    let mut i: u32 = 0;
    while i < max_iter
        invariant
            i <= max_iter,
            -10_000_000 <= zr <= 10_000_000,
            -10_000_000 <= zi <= 10_000_000,
            escape_count(zr0 as int, zi0 as int, cr as int, ci as int, max_iter as nat) == i
                + escape_count(zr as int, zi as int, cr as int, ci as int, (max_iter - i) as nat),
            -2_000_000 <= cr <= 2_000_000,
            -2_000_000 <= ci <= 2_000_000,
        decreases max_iter - i,
    {
        proof {
            assert(zr * zr <= 10_000_000 * 10_000_000 && zr * zr >= 0) by (nonlinear_arith)
                requires
                    -10_000_000 <= zr <= 10_000_000,
            ;
            assert(zi * zi <= 10_000_000 * 10_000_000 && zi * zi >= 0) by (nonlinear_arith)
                requires
                    -10_000_000 <= zi <= 10_000_000,
            ;
        }
        if zr * zr + zi * zi > ESCAPE_SQ {
            return i;
        }
        proof {
            assert(zr * zr + zi * zi <= ESCAPE_SQ);
            assert(-4_000_000_000_000 <= zr * zi <= 4_000_000_000_000 && zr * zr
                <= 4_000_000_000_000 && zi * zi <= 4_000_000_000_000) by (nonlinear_arith)
                requires
                    zr * zr + zi * zi <= 4_000_000_000_000,
                    -10_000_000 <= zr <= 10_000_000,
                    -10_000_000 <= zi <= 10_000_000,
            ;
            crate::fixed::lemma_sdiv_bounds(zr * zr, FP as int, 4_000_000_000_000);
            crate::fixed::lemma_sdiv_bounds(zi * zi, FP as int, 4_000_000_000_000);
            crate::fixed::lemma_sdiv_bounds(zr * zi, FP as int, 4_000_000_000_000);
        }
        let t1 = fp_mul(zr, zr);
        let t2 = fp_mul(zi, zi);
        let t3 = fp_mul(zr, zi);
        let new_zr: i64 = t1 - t2 + cr;
        let new_zi: i64 = 2 * t3 + ci;
        zr = new_zr;
        zi = new_zi;
        i = i + 1;
    }
    i
}

/// Escape-time iteration of the point itself, seeded at the origin.
pub fn mandelbrot_escapes(c: MandelbrotCoord, max_iter: u32) -> (r: u32)
    requires
        in_bounds(c),
    ensures
        r == escape_count(0, 0, c.re as int, c.im as int, max_iter as nat),
        r <= max_iter,
{
    julia_escapes(0, 0, c.re, c.im, max_iter)
}

/// Normalized escape time of a point, in micro-units of [0, 1].
pub open spec fn stability_s(c: MandelbrotCoord, scale: u32) -> int {
    escape_count(0, 0, c.re as int, c.im as int, scale as nat) * FP / scale as int
}

/// Normalized stability score: iterations-to-escape over the budget,
/// in micro-units.  1.0 means the point never escaped.
pub fn mandelbrot_stability(c: MandelbrotCoord, scale: u32) -> (r: i64)
    requires
        in_bounds(c),
        scale >= 1,
    ensures
        r == stability_s(c, scale),
        0 <= r <= FP,
{
    let e: u32 = mandelbrot_escapes(c, scale);
    let num: u64 = (e as u64) * (FP as u64);
    let q: u64 = num / (scale as u64);
    proof {
        vstd::arithmetic::div_mod::lemma_div_is_ordered(
            e as int * FP as int,
            scale as int * FP as int,
            scale as int,
        );
        assert(scale as int * FP as int / scale as int == FP as int) by (nonlinear_arith)
            requires
                scale >= 1,
        ;
        vstd::arithmetic::div_mod::lemma_div_pos_is_pos(e as int * FP as int, scale as int);
    }
    q as i64
}

/// Pi in micro-radians.
pub const PI_US: i64 = 3_141_593;

/// Two pi in micro-radians.
pub const TWO_PI_US: i64 = 6_283_185;

/// Half pi in micro-radians.
pub const HALF_PI_US: i64 = 1_570_796;

/// The rational sine approximation 16x(pi-x) / (5 pi^2 - 4x(pi-x)) on
/// [0, pi], in micro-radians to micro-units.
pub open spec fn sin_half_s(x: int) -> int {
    let u = sdiv(x * (PI_US - x), FP as int);
    sdiv(16 * u * FP, 5 * sdiv(PI_US as int * PI_US as int, FP as int) - 4 * u)
}

/// The sine on [0, two pi], odd around pi.
pub open spec fn sin_us_s(a: int) -> int {
    if a <= PI_US {
        sin_half_s(a)
    } else {
        -sin_half_s(a - PI_US)
    }
}

/// The cosine on [0, two pi]: the sine a quarter turn ahead.
pub open spec fn cos_us_s(a: int) -> int {
    let b = a + HALF_PI_US;
    if b >= TWO_PI_US {
        sin_us_s(b - TWO_PI_US)
    } else {
        sin_us_s(b)
    }
}

proof fn lemma_sin_half_bounds(x: int)
    requires
        0 <= x <= PI_US,
    ensures
        0 <= sin_half_s(x) <= FP,
{
    let p = x * (PI_US - x);
    assert(0 <= x * (3_141_593 - x) && 4 * (x * (3_141_593 - x)) <= 9_869_606_577_649)
        by (nonlinear_arith)
        requires
            0 <= x <= 3_141_593,
    ;
    assert(p <= 2_467_401_644_412);
    let u = sdiv(p, FP as int);
    crate::fixed::lemma_sdiv_bounds(p, FP as int, 2_467_401_644_412);
    vstd::arithmetic::div_mod::lemma_div_is_ordered(p, 2_467_401_644_412, FP as int);
    assert(2_467_401_644_412int / 1_000_000int == 2_467_401) by {
        vstd::arithmetic::div_mod::lemma_fundamental_div_mod_converse(
            2_467_401_644_412,
            1_000_000,
            2_467_401,
            644_412,
        );
    }
    assert(0 <= u <= 2_467_401);
    let pp = sdiv(PI_US as int * PI_US as int, FP as int);
    assert(9_869_606_577_649int / 1_000_000int == 9_869_606) by {
        vstd::arithmetic::div_mod::lemma_fundamental_div_mod_converse(
            9_869_606_577_649,
            1_000_000,
            9_869_606,
            577_649,
        );
    }
    assert(pp == 9_869_606);
    let den = 5 * pp - 4 * u;
    let num = 16 * u * FP;
    assert(0 <= num <= 39_478_416_000_000) by (nonlinear_arith)
        requires
            num == 16 * u * 1_000_000,
            0 <= u <= 2_467_401,
    ;
    vstd::arithmetic::div_mod::lemma_div_pos_is_pos(num, den);
    assert(num <= den * FP) by (nonlinear_arith)
        requires
            num == 16 * u * 1_000_000,
            den == 49_348_030 - 4 * u,
            0 <= u <= 2_467_401,
    ;
    vstd::arithmetic::div_mod::lemma_div_is_ordered(num, den * FP, den);
    vstd::arithmetic::div_mod::lemma_div_multiples_vanish(FP as int, den);
}

/// The rational sine approximation on [0, pi].
fn sin_half(x: i64) -> (r: i64)
    requires
        0 <= x <= PI_US,
    ensures
        r == sin_half_s(x as int),
        0 <= r <= FP,
{
    proof {
        lemma_sin_half_bounds(x as int);
        assert(0 <= (x as int) * (3_141_593 - x as int) && 4 * ((x as int) * (3_141_593
            - x as int)) <= 9_869_606_577_649) by (nonlinear_arith)
            requires
                0 <= x <= 3_141_593,
        ;
    }
    let p: i64 = x * (PI_US - x);
    let u: i64 = div_trunc(p, FP);
    proof {
        crate::fixed::lemma_sdiv_bounds(p as int, FP as int, 2_467_401_644_412);
        vstd::arithmetic::div_mod::lemma_div_is_ordered(p as int, 2_467_401_644_412, FP as int);
        assert(2_467_401_644_412int / 1_000_000int == 2_467_401) by {
            vstd::arithmetic::div_mod::lemma_fundamental_div_mod_converse(
                2_467_401_644_412,
                1_000_000,
                2_467_401,
                644_412,
            );
        }
        assert(0 <= u <= 2_467_401);
    }
    let pp: i64 = div_trunc(PI_US * PI_US, FP);
    proof {
        assert(9_869_606_577_649int / 1_000_000int == 9_869_606) by {
            vstd::arithmetic::div_mod::lemma_fundamental_div_mod_converse(
                9_869_606_577_649,
                1_000_000,
                9_869_606,
                577_649,
            );
        }
        assert(pp == 9_869_606);
        assert(0 <= 16 * (u as int) * 1_000_000 <= 39_478_416_000_000) by (nonlinear_arith)
            requires
                0 <= u <= 2_467_401,
        ;
        assert(16 * (u as int) * 1_000_000 == (16 * u) * 1_000_000) by (nonlinear_arith);
    }
    let den: i64 = 5 * pp - 4 * u;
    let num: i64 = (16 * u) * FP;
    div_trunc(num, den)
}

/// The sine of an angle of [0, two pi] micro-radians, in micro-units.
pub fn sin_us(a: i64) -> (r: i64)
    requires
        0 <= a <= TWO_PI_US,
    ensures
        r == sin_us_s(a as int),
        -FP <= r <= FP,
{
    if a <= PI_US {
        sin_half(a)
    } else {
        -sin_half(a - PI_US)
    }
}

/// The cosine of an angle of [0, two pi] micro-radians, in micro-units.
pub fn cos_us(a: i64) -> (r: i64)
    requires
        0 <= a <= TWO_PI_US,
    ensures
        r == cos_us_s(a as int),
        -FP <= r <= FP,
{
    let b = a + HALF_PI_US;
    if b >= TWO_PI_US {
        sin_us(b - TWO_PI_US)
    } else {
        sin_us(b)
    }
}

/// The probe point `i` of `samples` around a center: placed at angle
/// 2 pi i / samples and distance radius * sqrt(i / samples), clamped into
/// the rectangle.
pub open spec fn nearby_candidate_s(
    center: MandelbrotCoord,
    radius: int,
    samples: int,
    i: int,
) -> MandelbrotCoord {
    let angle = sdiv(TWO_PI_US as int * i, samples);
    let sfrac = sqrt_s(i * FP * FP / samples);
    let r = sdiv(radius * sfrac, FP as int);
    MandelbrotCoord {
        re: clamp_s(center.re + sdiv(r * cos_us_s(angle), FP as int), RE_MIN as int, RE_MAX as int)
            as i64,
        im: clamp_s(center.im + sdiv(r * sin_us_s(angle), FP as int), IM_MIN as int, IM_MAX as int)
            as i64,
    }
}

/// Whether a probe point is kept: its stability at the fixed auxiliary
/// budget lies strictly between 0.3 and 0.95.
pub open spec fn nearby_keep_s(c: MandelbrotCoord) -> bool {
    300_000 < stability_s(c, 256) < 950_000
}

/// The kept probe points among the first `n`, in generation order.
pub open spec fn nearby_points_s(
    center: MandelbrotCoord,
    radius: int,
    samples: int,
    n: int,
) -> Seq<MandelbrotCoord>
    decreases n,
{
    if n <= 0 {
        Seq::empty()
    } else {
        let prev = nearby_points_s(center, radius, samples, n - 1);
        let c = nearby_candidate_s(center, radius, samples, n - 1);
        if nearby_keep_s(c) {
            prev.push(c)
        } else {
            prev
        }
    }
}

/// Probe points around a center whose escape-time behaviour is neither
/// trivially stable nor immediately divergent: placed on an outward
/// spiral and kept only at a stability strictly between 0.3 and 0.95.
pub fn find_nearby_interesting_points(
    center: MandelbrotCoord,
    radius: i64,
    samples: usize,
) -> (r: Vec<MandelbrotCoord>)
    requires
        in_bounds(center),
        0 <= radius <= 2_000_000,
        1 <= samples <= 10_000,
    ensures
        r@ == nearby_points_s(center, radius as int, samples as int, samples as int),
        forall|k: int| 0 <= k < r@.len() ==> in_bounds(#[trigger] r@[k]),
        r@.len() <= samples,
{
    let mut points: Vec<MandelbrotCoord> = Vec::new();
    let mut i: usize = 0;
    while i < samples
        invariant
            i <= samples,
            1 <= samples <= 10_000,
            0 <= radius <= 2_000_000,
            in_bounds(center),
            points@ == nearby_points_s(center, radius as int, samples as int, i as int),
            points@.len() <= i,
            forall|k: int| 0 <= k < points@.len() ==> in_bounds(#[trigger] points@[k]),
        decreases samples - i,
    {
        let angle: i64 = (TWO_PI_US * (i as i64)) / (samples as i64);
        proof {
            assert(0 <= TWO_PI_US * (i as int) <= TWO_PI_US * (samples as int))
                by (nonlinear_arith)
                requires
                    0 <= i < samples,
            ;
            crate::fixed::lemma_sdiv_bounds(
                TWO_PI_US as int * (i as int),
                samples as int,
                TWO_PI_US as int * 10_000,
            );
            vstd::arithmetic::div_mod::lemma_div_is_ordered(
                TWO_PI_US as int * (i as int),
                TWO_PI_US as int * (samples as int),
                samples as int,
            );
            vstd::arithmetic::div_mod::lemma_div_multiples_vanish(
                TWO_PI_US as int,
                samples as int,
            );
        }
        let num: u64 = (i as u64) * 1_000_000_000_000;
        let q: u64 = num / (samples as u64);
        let sfrac: u64 = isqrt(q);
        proof {
            assert((i as int) * 1_000_000_000_000 < (samples as int) * 1_000_000_000_000)
                by (nonlinear_arith)
                requires
                    0 <= i < samples,
            ;
            vstd::arithmetic::div_mod::lemma_div_is_ordered(
                (i as int) * 1_000_000_000_000,
                (samples as int) * 1_000_000_000_000 - 1,
                samples as int,
            );
            assert(((samples as int) * 1_000_000_000_000 - 1) / (samples as int) < 1_000_000_000_000)
                by {
                vstd::arithmetic::div_mod::lemma_fundamental_div_mod_converse(
                    (samples as int) * 1_000_000_000_000 - 1,
                    samples as int,
                    999_999_999_999,
                    samples as int - 1,
                );
            }
            lemma_isqrt_exists_unique(q as int);
            assert(is_isqrt(q as int, sfrac as int));
            assert(sfrac <= 1_000_000) by (nonlinear_arith)
                requires
                    (sfrac as int) * (sfrac as int) <= 999_999_999_999,
                    0 <= sfrac,
            ;
        }
        proof {
            assert(0 <= radius * (sfrac as int) <= 2_000_000_000_000) by (nonlinear_arith)
                requires
                    0 <= radius <= 2_000_000,
                    0 <= sfrac <= 1_000_000,
            ;
            crate::fixed::lemma_sdiv_bounds(radius * (sfrac as int), FP as int, 2_000_000_000_000);
        }
        let dist: i64 = div_trunc(radius * (sfrac as i64), FP);
        let c = cos_us(angle);
        let s = sin_us(angle);
        proof {
            assert(-2_000_000_000_000 <= dist * c <= 2_000_000_000_000 && -2_000_000_000_000
                <= dist * s <= 2_000_000_000_000) by (nonlinear_arith)
                requires
                    0 <= dist <= 2_000_000,
                    -1_000_000 <= c <= 1_000_000,
                    -1_000_000 <= s <= 1_000_000,
        ;
        }
        let dre = div_trunc(dist * c, FP);
        let dim = div_trunc(dist * s, FP);
        let re = clamp(center.re + dre, RE_MIN, RE_MAX);
        let im = clamp(center.im + dim, IM_MIN, IM_MAX);
        let cand = MandelbrotCoord { re, im };
        proof {
            assert(cand == nearby_candidate_s(center, radius as int, samples as int, i as int));
        }
        let stability = mandelbrot_stability(cand, 256);
        if stability > 300_000 && stability < 950_000 {
            points.push(cand);
        }
        i = i + 1;
    }
    points
}

} // verus!
