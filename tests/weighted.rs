use oorandom::Rand32;
use wfc_synth::pattern8::Pattern8;
use wfc_synth::superposition::{ColorSuperposition, PixelSuperposition};
use wfc_synth::color::Color;
use wfc_synth::weighted::{get_random_index, pick_index, total_weight};

fn option_of_weight(color: u32, weight: usize) -> ColorSuperposition {
    ColorSuperposition {
        color: Color(color),
        patterns: vec![Pattern8::empty(); weight],
        weight,
    }
}

#[test]
fn it() {
    let mut rng = Rand32::new(19950104);
    let weighted = PixelSuperposition {
        colors: vec![
            option_of_weight(0, 1),
            option_of_weight(1, 2),
            option_of_weight(2, 7),
        ],
    };

    assert_eq!(weighted.get_weight_at(0), Some(1));
    assert_eq!(weighted.get_weight_at(1), Some(2));
    assert_eq!(weighted.get_weight_at(2), Some(7));
    assert_eq!(weighted.get_weight_at(3), None);

    let mut ones = 0;
    let mut twos = 0;
    let mut sevens = 0;
    for _i in 0..10000 {
        let w = weighted.get_random_index(&mut rng);
        match w {
            Some(0) => ones += 1,
            Some(1) => twos += 1,
            Some(2) => sevens += 1,
            Some(_) => panic!(),
            None => panic!(),
        }
    }

    assert_eq!(ones, 1004);
    assert_eq!(twos, 1951);
    assert_eq!(sevens, 7045);
}

#[test]
fn sampler_frequencies_follow_the_weights() {
    let mut rng = Rand32::new(7);
    let weights = vec![1usize, 2, 7];
    let mut counts = [0usize; 3];
    let draws = 100_000;
    for _ in 0..draws {
        let i = get_random_index(&weights, &mut rng).unwrap();
        counts[i] += 1;
    }
    let expected = [0.1f64, 0.2, 0.7];
    for k in 0..3 {
        let freq = counts[k] as f64 / draws as f64;
        assert!((freq - expected[k]).abs() < 0.01, "index {} drawn {}", k, freq);
    }
}

#[test]
fn pick_index_takes_first_cumulative_weight_above_the_draw() {
    let weights = vec![1usize, 2, 7];
    assert_eq!(pick_index(&weights, 0), Some(0));
    assert_eq!(pick_index(&weights, 1), Some(1));
    assert_eq!(pick_index(&weights, 2), Some(1));
    assert_eq!(pick_index(&weights, 3), Some(2));
    assert_eq!(pick_index(&weights, 9), Some(2));
    assert_eq!(pick_index(&weights, 10), None);
    let with_zero = vec![0usize, 3];
    assert_eq!(pick_index(&with_zero, 0), Some(1));
    assert_eq!(total_weight(&weights), 10);
}

#[test]
fn sampler_fails_only_on_zero_total() {
    let mut rng = Rand32::new(1);
    assert_eq!(get_random_index(&vec![], &mut rng), None);
    assert_eq!(get_random_index(&vec![0, 0], &mut rng), None);
    for _ in 0..100 {
        assert_eq!(get_random_index(&vec![0, 5, 0], &mut rng), Some(1));
    }
}
