use wfc_synth::color::Color;
use wfc_synth::image::Image;
use wfc_synth::pattern8::{direction, neighbor_at, Pattern8, E, N, NE, NW, S, SE, SW, W};
use wfc_synth::stack_set::StackSet;
use wfc_synth::vec2::Vec2;

#[test]
fn opposite_slots_point_back() {
    for r in 0..8 {
        let d = direction(r);
        let o = direction(7 - r);
        assert_eq!((d.x + o.x, d.y + o.y), (0, 0));
        assert!((d.x, d.y) != (0, 0));
    }
    assert_eq!((direction(NW).x, direction(NW).y), (-1, -1));
    assert_eq!((direction(SE).x, direction(SE).y), (1, 1));
}

#[test]
fn neighbours_of_a_corner_and_of_an_inner_cell() {
    // 3 x 3 grid, cell 0 is the top-left corner, cell 4 the centre
    assert_eq!(Pattern8::get_neighbors(0, 3, 3), vec![1, 3, 4]);
    assert_eq!(
        Pattern8::get_neighbors_opt(0, 3, 3),
        vec![None, None, None, None, Some(1), None, Some(3), Some(4)]
    );
    assert_eq!(Pattern8::get_neighbors(4, 3, 3), vec![0, 1, 2, 3, 5, 6, 7, 8]);
    assert_eq!(neighbor_at(5, W, 3, 3), Some(4));
    assert_eq!(neighbor_at(5, E, 3, 3), None);
    assert_eq!(neighbor_at(5, SW, 3, 3), Some(7));
    assert_eq!(neighbor_at(2, N, 3, 3), None);
}

#[test]
fn add_neighbors_skips_cells_already_queued() {
    let mut s = StackSet::new(9);
    s.push(3);
    Pattern8::add_neighbors(&mut s, 0, 3, 3);
    assert_eq!(s.pop(), Some(4));
    assert_eq!(s.pop(), Some(1));
    assert_eq!(s.pop(), Some(3));
    assert_eq!(s.pop(), None);
}

#[test]
fn extracted_pattern_reads_the_neighbourhood() {
    // 3 x 2 image
    //   1 2 3
    //   4 5 6
    let image = Image {
        width: 3,
        height: 2,
        colors: (1..=6).map(Color).collect(),
    };
    let p = Pattern8::extract_pattern_at(&image, Vec2 { x: 1, y: 1 });
    assert_eq!(
        p.get_colors(),
        &[
            Some(Color(1)),
            Some(Color(2)),
            Some(Color(3)),
            Some(Color(4)),
            Some(Color(6)),
            None,
            None,
            None
        ]
    );
    assert_eq!(p.get_color_at(NE), Some(Color(3)));
    assert_eq!(p.get_color_at(S), None);
    let nc = p.get_neighbors_and_colors(4, 3, 2);
    assert_eq!(nc.len(), 8);
    assert_eq!(nc[0], (Some(0), Some(Color(1))));
    assert_eq!(nc[4], (Some(5), Some(Color(6))));
    assert_eq!(nc[6], (None, None));
    assert!(Pattern8::empty().get_colors().iter().all(|c| c.is_none()));
}
