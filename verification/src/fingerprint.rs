//! Fingerprints: 2048-bit patterns, stored as 32 words of 64 bits, that
//! summarize the escape-time behaviour of a 32x32 grid of probe points
//! under the iteration parameterized by a point of concept space.  Two
//! fingerprints are compared by Hamming distance.
use vstd::prelude::*;

verus! {

use crate::fixed::FP;
use crate::fractal::{MandelbrotCoord, in_bounds, escape_count, julia_escapes};

/// Position of the k-th grid line of the probe grid, in micro-units:
/// 32 probes span [-2, 2] per axis.
pub open spec fn probe_coord_s(k: int) -> int {
    -2_000_000 + k * 125_000
}

/// The escape-time category of one probe cell: 0 if the probe never
/// escaped within the budget, 1 if it escaped in the first third of the
/// budget, 2 in the second third, 3 in the last.
pub open spec fn cell_bin_s(c: MandelbrotCoord, scale: u32, x: int, y: int) -> u64 {
    let e = escape_count(probe_coord_s(x), probe_coord_s(y), c.re as int, c.im as int, scale as nat);
    let third = scale / 3;
    if e >= scale as nat {
        0
    } else if e <= third as nat {
        1
    } else if e <= 2 * third as nat {
        2
    } else {
        3
    }
}

/// The first `k` cells of row `y`, packed two bits per cell into one word.
pub open spec fn word_acc_s(c: MandelbrotCoord, scale: u32, y: int, k: nat) -> u64
    decreases k,
{
    if k == 0 {
        0
    } else {
        word_acc_s(c, scale, y, (k - 1) as nat) | (cell_bin_s(c, scale, k - 1, y) << (2 * (k - 1)))
    }
}

/// The fingerprint of a point at a given iteration budget: one packed
/// word per grid row.
pub open spec fn fingerprint_s(c: MandelbrotCoord, scale: u32) -> Seq<u64> {
    Seq::new(32, |y: int| word_acc_s(c, scale, y, 32))
}

/// Build the fingerprint of a point: run the grid-seeded escape iteration
/// for all 1024 probes and pack each probe's escape-time category, two
/// bits per cell in cell-major order, into 32 words.
pub fn julia_fingerprint_from_mandelbrot(coord: MandelbrotCoord, scale: u32) -> (r: Vec<u64>)
    requires
        in_bounds(coord),
    ensures
        r@ == fingerprint_s(coord, scale),
        r@.len() == 32,
{
    let third: u32 = scale / 3;
    let mut bits: Vec<u64> = Vec::new();
    let mut y: usize = 0;
    while y < 32
        invariant
            y <= 32,
            bits@.len() == y,
            forall|j: int| 0 <= j < y ==> bits@[j] == word_acc_s(coord, scale, j, 32),
            third == scale / 3,
            in_bounds(coord),
        decreases 32 - y,
    {
        let zy: i64 = -2_000_000 + (y as i64) * 125_000;
        let mut w: u64 = 0;
        let mut x: usize = 0;
        while x < 32
            invariant
                x <= 32,
                y < 32,
                zy == probe_coord_s(y as int),
                -2_000_000 <= zy <= 2_000_000,
                w == word_acc_s(coord, scale, y as int, x as nat),
                third == scale / 3,
                in_bounds(coord),
            decreases 32 - x,
        {
            let zx: i64 = -2_000_000 + (x as i64) * 125_000;
            let e: u32 = julia_escapes(zx, zy, coord.re, coord.im, scale);
            let bin: u64 = if e >= scale {
                0
            } else if e <= third {
                1
            } else if e <= 2 * third {
                2
            } else {
                3
            };
            proof {
                assert(bin == cell_bin_s(coord, scale, x as int, y as int));
            }
            w = w | (bin << (2 * x));
            x = x + 1;
        }
        bits.push(w);
        y = y + 1;
    }
    proof {
        assert(bits@ =~= fingerprint_s(coord, scale));
    }
    bits
}

/// Number of set bits among the `n` lowest bits of a word.
pub open spec fn pop_bits_s(x: u64, n: nat) -> nat
    decreases n,
{
    if n == 0 {
        0
    } else {
        (x & 1) as nat + pop_bits_s(x >> 1, (n - 1) as nat)
    }
}

/// Number of set bits of a word.
pub open spec fn pop64_s(x: u64) -> nat {
    pop_bits_s(x, 64)
}

/// The population count of the `n` lowest bits is at most `n`.
pub proof fn lemma_pop_bits_le(x: u64, n: nat)
    ensures
        pop_bits_s(x, n) <= n,
    decreases n,
{
    if n > 0 {
        assert(x & 1 <= 1) by (bit_vector);
        lemma_pop_bits_le(x >> 1, (n - 1) as nat);
    }
}

/// The zero word has no set bits.
pub proof fn lemma_pop_bits_zero(n: nat)
    ensures
        pop_bits_s(0, n) == 0,
    decreases n,
{
    if n > 0 {
        assert(0u64 & 1 == 0 && 0u64 >> 1 == 0u64) by (bit_vector);
        lemma_pop_bits_zero((n - 1) as nat);
    }
}

/// Number of set bits of a word.
pub fn popcount(x: u64) -> (r: u32)
    ensures
        r == pop64_s(x),
        r <= 64,
{
    let mut v: u64 = x;
    let mut c: u32 = 0;
    let mut i: u32 = 0;
    while i < 64
        invariant
            i <= 64,
            c <= i,
            c + pop_bits_s(v, (64 - i) as nat) == pop64_s(x),
        decreases 64 - i,
    {
        proof {
            assert(v & 1 <= 1) by (bit_vector);
        }
        c = c + (v & 1) as u32;
        v = v >> 1;
        i = i + 1;
    }
    c
}

/// Hamming distance over the first `n` word pairs.
pub open spec fn hamming_prefix_s(a: Seq<u64>, b: Seq<u64>, n: nat) -> nat
    recommends
        n <= a.len(),
        n <= b.len(),
    decreases n,
{
    if n == 0 {
        0
    } else {
        hamming_prefix_s(a, b, (n - 1) as nat) + pop64_s(a[n - 1] ^ b[n - 1])
    }
}

/// Hamming distance of two word patterns: the number of bit positions at
/// which they differ, over the words both sides have.
pub open spec fn hamming_s(a: Seq<u64>, b: Seq<u64>) -> nat {
    hamming_prefix_s(a, b, if a.len() <= b.len() { a.len() } else { b.len() })
}

/// Hamming distance of two bit patterns: population count of the
/// word-wise exclusive or.
pub fn hamming_distance(a: &Vec<u64>, b: &Vec<u64>) -> (r: u32)
    requires
        a@.len() <= 0x0100_0000 || b@.len() <= 0x0100_0000,
    ensures
        r == hamming_s(a@, b@),
        r <= 64 * if a@.len() <= b@.len() {
            a@.len()
        } else {
            b@.len()
        },
{
    let n: usize = if a.len() <= b.len() {
        a.len()
    } else {
        b.len()
    };
    let mut c: u32 = 0;
    let mut i: usize = 0;
    while i < n
        invariant
            i <= n,
            n == if a@.len() <= b@.len() {
                a@.len()
            } else {
                b@.len()
            },
            n <= a@.len() && n <= b@.len(),
            n <= 0x0100_0000,
            c == hamming_prefix_s(a@, b@, i as nat),
            c <= 64 * i,
        decreases n - i,
    {
        proof {
            assert(64 * i + 64 == 64 * (i + 1)) by (nonlinear_arith);
        }
        let p: u32 = popcount(a[i] ^ b[i]);
        c = c + p;
        i = i + 1;
    }
    c
}

/// A fingerprint is at Hamming distance zero from itself.
pub proof fn lemma_hamming_self(a: Seq<u64>)
    ensures
        hamming_s(a, a) == 0,
{
    lemma_hamming_prefix_self(a, a.len());
}

proof fn lemma_hamming_prefix_self(a: Seq<u64>, n: nat)
    requires
        n <= a.len(),
    ensures
        hamming_prefix_s(a, a, n) == 0,
    decreases n,
{
    if n > 0 {
        let x = a[n - 1];
        assert(x ^ x == 0) by (bit_vector);
        lemma_pop_bits_zero(64);
        lemma_hamming_prefix_self(a, (n - 1) as nat);
    }
}

/// Hamming distance is symmetric.
pub proof fn lemma_hamming_sym(a: Seq<u64>, b: Seq<u64>)
    ensures
        hamming_s(a, b) == hamming_s(b, a),
{
    lemma_hamming_prefix_sym(a, b, if a.len() <= b.len() { a.len() } else { b.len() });
}

proof fn lemma_hamming_prefix_sym(a: Seq<u64>, b: Seq<u64>, n: nat)
    requires
        n <= a.len(),
        n <= b.len(),
    ensures
        hamming_prefix_s(a, b, n) == hamming_prefix_s(b, a, n),
    decreases n,
{
    if n > 0 {
        let x = a[n - 1];
        let y = b[n - 1];
        assert(x ^ y == y ^ x) by (bit_vector);
        lemma_hamming_prefix_sym(a, b, (n - 1) as nat);
    }
}

/// The Hamming distance of two full fingerprints ranges over [0, 2048].
pub proof fn lemma_hamming_range(a: Seq<u64>, b: Seq<u64>)
    requires
        a.len() == 32,
        b.len() == 32,
    ensures
        hamming_s(a, b) <= 2048,
{
    lemma_hamming_prefix_range(a, b, 32);
}

proof fn lemma_hamming_prefix_range(a: Seq<u64>, b: Seq<u64>, n: nat)
    requires
        n <= a.len(),
        n <= b.len(),
    ensures
        hamming_prefix_s(a, b, n) <= 64 * n,
    decreases n,
{
    if n > 0 {
        lemma_pop_bits_le(a[n - 1] ^ b[n - 1], 64);
        lemma_hamming_prefix_range(a, b, (n - 1) as nat);
    }
}

} // verus!
