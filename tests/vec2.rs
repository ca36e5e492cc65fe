use wfc_synth::vec2::Vec2;

#[test]
fn it_calculates_the_position_from_an_index() {
    let pos = Vec2::from_index(23, 10);
    assert_eq!(pos.x, 3);
    assert_eq!(pos.y, 2);
}

#[test]
fn it_ensures_to_be_inside_a_rectangle() {
    let pos = Vec2 { x: 0, y: 0 };
    assert!(pos.is_inside(10, 10));

    let pos = Vec2 { x: 1, y: 1 };
    assert!(pos.is_inside(10, 10));

    let pos = Vec2 { x: 1, y: 9 };
    assert!(pos.is_inside(10, 10));

    let pos = Vec2 { x: 9, y: 1 };
    assert!(pos.is_inside(10, 10));
}

#[test]
fn it_is_outside_of_rectangle() {
    let pos = Vec2 { x: -1, y: 5 };
    assert!(!pos.is_inside(10, 10));

    let pos = Vec2 { x: 1, y: -10 };
    assert!(!pos.is_inside(10, 10));

    let pos = Vec2 { x: 1, y: 10 };
    assert!(!pos.is_inside(10, 10));

    let pos = Vec2 { x: 11, y: 10 };
    assert!(!pos.is_inside(10, 10));
}

#[test]
fn into_index_is_row_major() {
    let pos = Vec2 { x: 3, y: 2 };
    assert_eq!(pos.into_index(10), 23);
    let back = Vec2::from_index(pos.into_index(7), 7);
    assert_eq!((back.x, back.y), (3, 2));
}

#[test]
fn add_sums_components() {
    let p = Vec2 { x: 4, y: -2 }.add(Vec2 { x: -1, y: 1 });
    assert_eq!((p.x, p.y), (3, -1));
}
