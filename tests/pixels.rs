use raytrace::canvas::Canvas;
use raytrace::entities::{Color, Texture};

#[test]
fn mix_averages_each_channel() {
    let colors = vec![
        Color { r: 255, g: 0, b: 10 },
        Color { r: 255, g: 0, b: 11 },
        Color { r: 0, g: 100, b: 12 },
        Color { r: 1, g: 3, b: 13 },
    ];
    assert_eq!(Color::mix(&colors), Color { r: 127, g: 25, b: 11 });
    let one = vec![Color { r: 9, g: 8, b: 7 }];
    assert_eq!(Color::mix(&one), Color { r: 9, g: 8, b: 7 });
}

#[test]
fn colour_packs_as_rgb() {
    assert_eq!(Color { r: 0x12, g: 0x34, b: 0x56 }.to_u32(), 0x0012_3456);
    assert_eq!(Color { r: 255, g: 255, b: 255 }.to_u32(), 0x00ff_ffff);
}

#[test]
fn texel_wraps_around() {
    let colours: Vec<Color> = (0..6u8).map(|i| Color { r: i, g: 0, b: 0 }).collect();
    let tex = Texture { colours, width: 3, height: 2 };
    assert_eq!(tex.texel(1, 1).r, 4);
    assert_eq!(tex.texel(4, 3).r, 4);
    assert_eq!(tex.texel(3, 0).r, 0);
}

#[test]
fn put_pixel_uses_centred_coordinates() {
    let mut canvas = Canvas::new(4, 4);
    canvas.put_pixel(0, 0, 7);
    assert_eq!(canvas.buffer[2 * 4 + 2], 7);
    canvas.put_pixel(-2, 1, 9);
    assert_eq!(canvas.buffer[4], 9);
    let before = canvas.buffer.clone();
    canvas.put_pixel(2, 0, 1);
    canvas.put_pixel(0, -3, 1);
    assert_eq!(canvas.buffer, before);
}
