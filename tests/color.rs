use wfc_synth::color::Color;
use wfc_synth::image::Image;
use wfc_synth::pixel::Pixel;
use wfc_synth::vec2::Vec2;

#[test]
fn channels_are_read_lowest_byte_first() {
    let c = Color(0x8040_20FF);
    assert_eq!(c.r(), 0xFF);
    assert_eq!(c.g(), 0x20);
    assert_eq!(c.b(), 0x40);
    assert_eq!(c.a(), 0x80);
}

#[test]
fn channels_pack_lowest_byte_first() {
    let c = Color::from_rgba(0xFF, 0x20, 0x40, 0x80);
    assert_eq!(c, Color(0x8040_20FF));
    assert_eq!((c.r(), c.g(), c.b(), c.a()), (0xFF, 0x20, 0x40, 0x80));
}

#[test]
fn image_reads_and_paints_row_major() {
    let mut image = Image {
        width: 3,
        height: 2,
        colors: vec![Color(0), Color(1), Color(2), Color(3), Color(4), Color(5)],
    };
    assert_eq!(image.get_color_at(Vec2 { x: 1, y: 1 }), Some(Color(4)));
    assert_eq!(image.get_color_at(Vec2 { x: 3, y: 0 }), None);
    assert_eq!(image.get_color_at(Vec2 { x: 0, y: -1 }), None);
    image.set_pixel(Pixel {
        pos: Vec2 { x: 2, y: 0 },
        color: Color(0xFF0000FF),
    });
    assert_eq!(image.colors[2], Color(0xFF0000FF));
    assert_eq!(image.colors[5], Color(5));
}
