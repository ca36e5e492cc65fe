use wfc_synth::color::Color;
use wfc_synth::image::Image;
use wfc_synth::pattern8::{Pattern8, E, W};
use wfc_synth::snapshot::{Snapshot, SnapshotStack};
use wfc_synth::solver::{solve, SolveError};
use wfc_synth::superposition::{ColorSuperposition, ImageSuperposition, PixelSuperposition};

const A: Color = Color(0xFF0000FF);
const B: Color = Color(0xFFFF0000);

fn pat(west: Option<Color>, east: Option<Color>) -> Pattern8 {
    let mut p = Pattern8::empty();
    p.colors[W] = west;
    p.colors[E] = east;
    p
}

fn option(color: Color, patterns: Vec<Pattern8>) -> ColorSuperposition {
    let weight = patterns.len();
    ColorSuperposition {
        color,
        patterns,
        weight,
    }
}

fn entropy(p: &PixelSuperposition) -> f32 {
    let total: usize = p.colors.iter().map(|c| c.patterns.len()).sum();
    let mut h = 0.0f32;
    for c in &p.colors {
        let q = c.patterns.len() as f32 / total as f32;
        h += q * q.ln();
    }
    -h
}

fn by_entropy(p: &PixelSuperposition) -> u32 {
    entropy(p).to_bits()
}

/// A 3 x 1 grid on which choosing colour A for the left cell empties the
/// middle cell, while B leads to B B B. With `dead_end` the B branch fails
/// too.
fn three_cells(seed: u64, dead_end: bool) -> ImageSuperposition {
    let mut g = ImageSuperposition::new(3, 1, seed);
    g.pixels[0] = PixelSuperposition {
        colors: vec![
            option(A, vec![pat(None, Some(A))]),
            option(B, vec![pat(None, Some(B))]),
        ],
    };
    let mut middle_b = vec![pat(Some(A), Some(B))];
    if !dead_end {
        middle_b.insert(0, pat(Some(B), Some(B)));
    }
    g.pixels[1] = PixelSuperposition {
        colors: vec![
            option(A, vec![pat(Some(B), Some(A))]),
            option(B, middle_b),
        ],
    };
    g.pixels[2] = PixelSuperposition {
        colors: vec![
            option(A, vec![pat(Some(A), None)]),
            option(B, vec![pat(Some(B), None)]),
        ],
    };
    g
}

/// A seed whose first draw on the left cell takes option A.
fn seed_taking_a_first() -> u64 {
    (0u64..)
        .find(|&s| {
            let mut g = three_cells(s, false);
            g.collapse(0) == 0
        })
        .unwrap()
}

#[test]
fn one_contradiction_is_undone_by_exactly_one_backtrack() {
    let seed = seed_taking_a_first();
    let mut g = three_cells(seed, false);
    let mut stack = SnapshotStack::new();

    assert!(g.propagate_all());
    assert_eq!(g.pixels.iter().map(|p| p.colors.len()).collect::<Vec<_>>(), vec![2, 2, 2]);

    let pixel_index = g.search(&|_: &PixelSuperposition| 0).unwrap();
    assert_eq!(pixel_index, 0);
    let copy = g.duplicate();
    let color_index = g.collapse(pixel_index);
    assert_eq!(color_index, 0);
    stack.push(Snapshot {
        image_sp: copy,
        collapse_pixel_index: pixel_index,
        collapse_color_index: color_index,
    });

    assert!(!g.propagate(pixel_index));
    assert_eq!(g.pixels[1].colors.len(), 0);

    let snapshot = stack.pop().unwrap();
    assert_eq!(stack.len(), 0);
    assert_eq!(snapshot.collapse_pixel_index, 0);
    let mut g = snapshot.image_sp;
    assert_eq!(g.pixels[0].colors.len(), 1);
    assert_eq!(g.pixels[0].colors[0].color, B);

    assert!(g.propagate(snapshot.collapse_pixel_index));
    assert_eq!(g.search(&by_entropy), None);
    let img = Image::from(&g);
    assert_eq!(img.colors, vec![B, B, B]);
}

#[test]
fn solver_recovers_from_the_contradiction() {
    for seed in [seed_taking_a_first(), 1, 2, 3] {
        let mut g = three_cells(seed, false);
        let img = solve(&mut g, &by_entropy).unwrap();
        assert_eq!(img.colors, vec![B, B, B]);
        assert!(g.pixels.iter().all(|p| p.colors.len() == 1));
        assert_eq!(g.search(&by_entropy), None);
    }
}

#[test]
fn solver_reports_exhaustion_when_no_branch_is_left() {
    for seed in 0..8 {
        let mut g = three_cells(seed, true);
        assert_eq!(solve(&mut g, &by_entropy).err(), Some(SolveError::Exhausted));
    }
}

#[test]
fn solver_refuses_a_grid_with_an_empty_domain() {
    let mut g = ImageSuperposition::new(2, 2, 0);
    assert_eq!(solve(&mut g, &by_entropy).err(), Some(SolveError::EmptyDomain));
    g.pixels[3] = PixelSuperposition {
        colors: vec![option(A, vec![Pattern8::empty()])],
    };
    assert_eq!(solve(&mut g, &by_entropy).err(), Some(SolveError::EmptyDomain));
}

#[test]
fn solver_succeeds_at_once_on_a_decided_grid() {
    // every cell already has one option, even one no source supports
    let mut g = ImageSuperposition::new(2, 1, 0);
    g.pixels[0] = PixelSuperposition {
        colors: vec![option(A, vec![Pattern8::empty()])],
    };
    g.pixels[1] = PixelSuperposition {
        colors: vec![option(B, vec![Pattern8::empty()])],
    };
    let img = solve(&mut g, &by_entropy).unwrap();
    assert_eq!(img.colors, vec![A, B]);
}

#[test]
fn solved_grid_is_fully_collapsed_and_stays_solved() {
    // a checkerboard source
    let image = Image {
        width: 4,
        height: 4,
        colors: (0..16)
            .map(|i| if (i % 4 + i / 4) % 2 == 0 { A } else { B })
            .collect(),
    };
    for seed in 0..4 {
        let mut g = ImageSuperposition::new(6, 5, seed);
        g.extract(image.clone());
        match solve(&mut g, &by_entropy) {
            Ok(img) => {
                assert_eq!((img.width, img.height), (6, 5));
                assert!(g.pixels.iter().all(|p| p.colors.len() == 1));
                assert_eq!(g.search(&by_entropy), None);
                for i in 0..30 {
                    assert_eq!(img.colors[i], g.pixels[i].colors[0].color);
                }
            }
            Err(e) => assert_eq!(e, SolveError::Exhausted),
        }
    }
}

#[test]
fn propagation_never_grows_a_domain() {
    let image = Image {
        width: 3,
        height: 3,
        colors: vec![A, A, B, A, B, B, B, B, A],
    };
    let mut g = ImageSuperposition::new(4, 4, 5);
    g.extract(image);
    let before: Vec<usize> = g.pixels.iter().map(|p| p.colors.len()).collect();
    g.propagate_all();
    let after: Vec<usize> = g.pixels.iter().map(|p| p.colors.len()).collect();
    for i in 0..16 {
        assert!(after[i] <= before[i]);
    }
    let again = g.duplicate();
    g.propagate_all();
    for i in 0..16 {
        assert!(g.pixels[i].colors.len() <= again.pixels[i].colors.len());
    }
}
