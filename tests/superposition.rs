use wfc_synth::color::Color;
use wfc_synth::image::Image;
use wfc_synth::pattern8::{Pattern8, E, W};
use wfc_synth::superposition::{
    calc_total_weight, calc_weights, catalog, get_color_index, is_collapsed, ColorSuperposition,
    ImageSuperposition, PixelSuperposition,
};

fn option(color: u32, patterns: Vec<Pattern8>) -> ColorSuperposition {
    let weight = patterns.len();
    ColorSuperposition {
        color: Color(color),
        patterns,
        weight,
    }
}

#[test]
fn it_extracts_1_pattern_from_a_simple_image() {
    let image = Image {
        width: 2,
        height: 2,
        colors: vec![Color(0), Color(0), Color(0), Color(0)],
    };

    let mut image_sp = ImageSuperposition::new(2, 2, 1);

    image_sp.extract(image);

    assert_eq!(image_sp.pixels.len(), 4);
    assert_eq!(image_sp.pixels[0].colors.len(), 1);
    assert_eq!(image_sp.pixels[0].colors[0].color, Color(0));
    assert_eq!(image_sp.pixels[0].colors[0].patterns.len(), 4);
    assert_eq!(
        image_sp.pixels[0].colors[0].patterns[0]
            .get_colors()
            .iter()
            .filter(|&opt| opt.is_none())
            .count(),
        5
    );
}

#[test]
fn every_pattern_of_a_uniform_two_by_two_image_has_three_neighbours() {
    let image = Image {
        width: 2,
        height: 2,
        colors: vec![Color(7); 4],
    };
    let mut image_sp = ImageSuperposition::new(5, 4, 3);
    image_sp.extract(image);
    assert_eq!(image_sp.pixels.len(), 20);
    for cell in &image_sp.pixels {
        assert_eq!(cell.colors.len(), 1);
        assert_eq!(cell.colors[0].weight, 4);
        for p in &cell.colors[0].patterns {
            let present = p.get_colors().iter().filter(|c| c.is_some()).count();
            assert_eq!(present, 3);
            assert!(p.get_colors().iter().flatten().all(|c| *c == Color(7)));
        }
    }
}

#[test]
fn catalog_groups_neighbourhoods_by_colour_in_scan_order() {
    // 3 x 1 image: red, green, red
    let image = Image {
        width: 3,
        height: 1,
        colors: vec![Color(1), Color(2), Color(1)],
    };
    let cat = catalog(&image);
    assert_eq!(cat.colors.len(), 2);
    assert_eq!(cat.colors[0].color, Color(1));
    assert_eq!(cat.colors[0].weight, 2);
    assert_eq!(cat.colors[1].color, Color(2));
    assert_eq!(cat.colors[1].weight, 1);
    let first = &cat.colors[0].patterns[0];
    assert_eq!(first.get_color_at(W), None);
    assert_eq!(first.get_color_at(E), Some(Color(2)));
    let last = &cat.colors[0].patterns[1];
    assert_eq!(last.get_color_at(W), Some(Color(2)));
    assert_eq!(last.get_color_at(E), None);
    let mid = &cat.colors[1].patterns[0];
    assert_eq!(mid.get_color_at(W), Some(Color(1)));
    assert_eq!(mid.get_color_at(E), Some(Color(1)));
    assert_eq!(calc_total_weight(&cat), 3);
    assert_eq!(calc_weights(&cat), 3);
    assert_eq!(get_color_index(Color(2), &cat), Some(1));
    assert_eq!(get_color_index(Color(3), &cat), None);
}

#[test]
fn search_takes_the_first_undecided_cell_of_lowest_key() {
    let mut g = ImageSuperposition::new(4, 1, 0);
    let two = || PixelSuperposition {
        colors: vec![option(1, vec![Pattern8::empty()]), option(2, vec![Pattern8::empty()])],
    };
    g.pixels[0] = PixelSuperposition {
        colors: vec![option(1, vec![Pattern8::empty()])],
    };
    g.pixels[1] = two();
    g.pixels[2] = two();
    g.pixels[3] = two();
    assert_eq!(g.search_by_keys(&vec![0, 5, 3, 3]), Some(2));
    assert_eq!(g.search_by_keys(&vec![9, 1, 3, 1]), Some(1));
    assert_eq!(g.search(&|p: &PixelSuperposition| p.colors.len() as u32), Some(1));
    assert!(is_collapsed(&g.pixels[0]));
    assert!(!g.is_collapsed_at(3));
    assert_eq!(g.get_collapsed_color_at(0), Some(Color(1)));
    assert_eq!(g.get_collapsed_color_at(1), None);
}

#[test]
fn collapse_keeps_exactly_one_option_of_the_domain() {
    let mut g = ImageSuperposition::new(1, 1, 42);
    g.pixels[0] = PixelSuperposition {
        colors: vec![
            option(1, vec![Pattern8::empty(); 3]),
            option(2, vec![Pattern8::empty(); 1]),
        ],
    };
    let i = g.collapse(0);
    assert!(i < 2);
    assert_eq!(g.pixels[0].colors.len(), 1);
    assert_eq!(g.pixels[0].colors[0].color, Color(1 + i as u32));
    assert_eq!(g.search_by_keys(&vec![0]), None);
}

#[test]
fn picture_shows_sentinels_for_empty_and_undecided_cells() {
    let mut g = ImageSuperposition::new(3, 1, 0);
    g.pixels[1] = PixelSuperposition {
        colors: vec![option(5, vec![Pattern8::empty()])],
    };
    g.pixels[2] = PixelSuperposition {
        colors: vec![option(5, vec![Pattern8::empty()]), option(6, vec![Pattern8::empty()])],
    };
    let img = Image::from(&g);
    assert_eq!((img.width, img.height), (3, 1));
    assert_eq!(img.colors, vec![Color(0xff000000), Color(5), Color(0xffff0000)]);
    assert_eq!(g.get_collapsed_color_at(0), None);
    assert_eq!(g.get_collapsed_color_at(1), Some(Color(5)));
    assert_eq!(g.get_collapsed_color_at(2), None);
}

#[test]
fn duplicate_shares_nothing_with_the_original() {
    let image = Image {
        width: 2,
        height: 1,
        colors: vec![Color(1), Color(2)],
    };
    let mut g = ImageSuperposition::new(2, 2, 9);
    g.extract(image);
    let copy = g.duplicate();
    g.pixels[0].colors.clear();
    assert_eq!(copy.pixels[0].colors.len(), 2);
    assert_eq!(copy.pixels[3].colors[1].patterns.len(), 1);
}
