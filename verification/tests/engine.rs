//! End-to-end behaviour of the memory engine: determinism, boundedness,
//! the fingerprint metric, referential integrity, strength decay, merge
//! convergence and generation.
use fractal_mind::fingerprint::{hamming_distance, julia_fingerprint_from_mandelbrot};
use fractal_mind::fixed::FP;
use fractal_mind::fractal::{
    contextual_mandelbrot_coord, find_nearby_interesting_points, hash_to_mandelbrot_coord,
    mandelbrot_escapes, mandelbrot_stability, MandelbrotCoord,
};
use fractal_mind::memory::{STRENGTH_FLOOR, STRENGTH_MAX};
use fractal_mind::mind::FractalMind;

fn in_rectangle(c: MandelbrotCoord) -> bool {
    c.re >= -750_000 && c.re <= 250_000 && c.im >= -1_000_000 && c.im <= 1_000_000
}

#[test]
fn point_from_text_is_deterministic() {
    let a = hash_to_mandelbrot_coord("the quick brown fox");
    let b = hash_to_mandelbrot_coord("the quick brown fox");
    assert_eq!(a.re, b.re);
    assert_eq!(a.im, b.im);
    let c = hash_to_mandelbrot_coord("the quick brown fox!");
    assert!(a.re != c.re || a.im != c.im);
}

#[test]
fn fingerprint_is_deterministic() {
    let p = hash_to_mandelbrot_coord("seed");
    let f1 = julia_fingerprint_from_mandelbrot(p, 512);
    let f2 = julia_fingerprint_from_mandelbrot(p, 512);
    assert_eq!(f1, f2);
    assert_eq!(f1.len(), 32);
}

#[test]
fn mapped_points_stay_in_bounds() {
    let texts = ["", "a", "hello world", "0123456789", "\u{1F600} unicode"];
    for t in texts.iter() {
        assert!(in_rectangle(hash_to_mandelbrot_coord(t)));
    }
    let base = hash_to_mandelbrot_coord("base");
    let nudged = contextual_mandelbrot_coord(base, "context words", 700_000);
    assert!(in_rectangle(nudged));
    for p in find_nearby_interesting_points(base, 200_000, 10) {
        assert!(in_rectangle(p));
    }
}

#[test]
fn hamming_distance_is_a_metric() {
    let p = hash_to_mandelbrot_coord("metric");
    let q = hash_to_mandelbrot_coord("other");
    let f1 = julia_fingerprint_from_mandelbrot(p, 256);
    let f2 = julia_fingerprint_from_mandelbrot(q, 256);
    assert_eq!(hamming_distance(&f1, &f1), 0);
    assert_eq!(hamming_distance(&f1, &f2), hamming_distance(&f2, &f1));
    assert!(hamming_distance(&f1, &f2) <= 2048);
}

#[test]
fn same_point_same_scale_distance_zero() {
    let p = hash_to_mandelbrot_coord("identical");
    let f1 = julia_fingerprint_from_mandelbrot(p, 300);
    let f2 = julia_fingerprint_from_mandelbrot(p, 300);
    assert_eq!(hamming_distance(&f1, &f2), 0);
}

#[test]
fn escape_times_respect_budget() {
    let p = MandelbrotCoord { re: -500_000, im: 0 };
    assert_eq!(mandelbrot_escapes(p, 64), 64);
    let edge = MandelbrotCoord { re: 250_000, im: 1_000_000 };
    assert!(mandelbrot_escapes(edge, 64) < 64);
    let s = mandelbrot_stability(p, 256);
    assert!(s >= 0 && s <= FP);
}

#[test]
fn learning_cat_builds_three_step_trajectory() {
    let mut mind = FractalMind::new();
    mind.scale = 256;
    mind.process_input("cat");
    assert!(mind
        .trajectories
        .iter()
        .any(|t| t.path.len() == 3 && t.symbols.len() == 3));
    assert!(mind
        .symbols
        .iter()
        .any(|s| matches!(s.label, Some('c') | Some('a') | Some('t'))));
}

#[test]
fn generation_on_empty_mind_gives_placeholder() {
    let mut mind = FractalMind::new();
    let out = mind.generate_response("anything");
    assert_eq!(out, "?");
}

#[test]
fn processing_empty_input_on_fresh_mind_gives_placeholder() {
    let mut mind = FractalMind::new();
    let out = mind.process_input("");
    assert_eq!(out, "?");
}

#[test]
fn generation_always_returns_something() {
    let mut mind = FractalMind::new();
    mind.scale = 256;
    mind.process_input("hello world of patterns.");
    for _ in 0..5 {
        let out = mind.generate_response("probe");
        let chars: Vec<char> = out.chars().collect();
        assert!(1 <= chars.len() && chars.len() <= 100);
        // Every character is a stored symbol's label (or the lone
        // placeholder), and a terminator can only end the response.
        if out != "?" {
            for c in chars.iter() {
                assert!(mind.symbols.iter().any(|s| s.label == Some(*c)));
            }
        }
        for c in chars.iter().take(chars.len().saturating_sub(1)) {
            assert!(!matches!(c, '.' | '!' | '?'));
        }
        for (_, steps) in mind.inhibited_symbols.iter() {
            assert!(*steps >= 1);
        }
    }
}

#[test]
fn background_thought_tracks_position() {
    let mut mind = FractalMind::new();
    mind.scale = 256;
    mind.process_input("wandering thoughts drift");
    let thought = mind.generate_background_thought();
    assert!(thought.chars().count() <= 30);
    assert!(mind.background_thought_coord.is_some());
    let c = mind.background_thought_coord.unwrap();
    assert!(in_rectangle(c));
}

#[test]
fn referential_integrity_survives_learning_and_pruning() {
    let mut mind = FractalMind::new();
    mind.scale = 256;
    for text in ["one small step", "for every symbol", "a place", "one more"].iter() {
        mind.process_input(text);
    }
    for _ in 0..20 {
        mind.decay_symbols();
    }
    for t in mind.trajectories.iter() {
        for &si in t.symbols.iter() {
            assert!(si < mind.symbols.len());
        }
    }
}

#[test]
fn strength_never_falls_below_floor() {
    let mut mind = FractalMind::new();
    mind.scale = 256;
    mind.process_input("persist");
    for _ in 0..200 {
        let _ = mind.generate_response("decay pass");
    }
    for t in mind.trajectories.iter() {
        assert!(t.strength >= STRENGTH_FLOOR);
        assert!(t.strength <= STRENGTH_MAX);
    }
}

#[test]
fn repeated_low_intensity_learning_converges() {
    let mut mind = FractalMind::new();
    mind.scale = 256;
    for _ in 0..30 {
        mind.process_with_intensity("x", 200_000);
    }
    // Every repetition lands on the identical point, so the identical
    // fingerprint merges into the single learned symbol.
    assert_eq!(mind.symbols.len(), 1);
    assert_eq!(mind.symbols[0].label, Some('x'));
    assert!(mind.symbols[0].count > 1);
}

#[test]
fn recalling_images_respects_limit() {
    let mut mind = FractalMind::new();
    mind.scale = 256;
    mind.learn_concept_with_image("a drawing", 800_000, "pictures/first.png".to_string());
    mind.learn_concept_with_image("a photo", 800_000, "pictures/second.png".to_string());
    let found = mind.recall_images("a drawing", 1);
    assert!(found.len() <= 1);
}

#[test]
fn imagined_grid_has_exact_shape() {
    let mut mind = FractalMind::new();
    mind.scale = 256;
    mind.process_input("texture of thought");
    let grid = mind.imagine_visual("texture", 8, 3);
    assert_eq!(grid.chars().count(), 3 * 9);
    assert_eq!(grid.lines().count(), 3);
}

#[test]
fn suggestions_are_sorted_and_valid() {
    let mut mind = FractalMind::new();
    mind.scale = 256;
    mind.process_input("follow the path onward");
    let coord = mind.current_coord;
    let sugg = mind.get_contextual_suggestions(coord);
    for (p, si) in sugg.iter() {
        assert!(in_rectangle(*p));
        assert!(*si < mind.symbols.len());
    }
    let dist2 = |p: &MandelbrotCoord| {
        let dr = (coord.re - p.re) as i128;
        let di = (coord.im - p.im) as i128;
        dr * dr + di * di
    };
    for w in sugg.windows(2) {
        assert!(dist2(&w[0].0) <= dist2(&w[1].0));
    }
}
