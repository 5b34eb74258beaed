use multithread_raycaster_game::assets::{load_texture, pack_rgb, TextureId};

fn png_bytes(width: u32, height: u32, pixels: &[[u8; 3]]) -> Vec<u8> {
    let mut img = image::RgbImage::new(width, height);
    for (i, p) in pixels.iter().enumerate() {
        let x = i as u32 % width;
        let y = i as u32 / width;
        img.put_pixel(x, y, image::Rgb(*p));
    }
    let mut out = std::io::Cursor::new(Vec::new());
    img.write_to(&mut out, image::ImageFormat::Png).unwrap();
    out.into_inner()
}

#[test]
fn texture_numbers() {
    assert_eq!(TextureId::BrickWalls.index(), 0);
    assert_eq!(TextureId::Ceiling.index(), 2);
    assert_eq!(TextureId::GreyBricks.index(), 8);
}

#[test]
fn rgb_packing() {
    assert_eq!(pack_rgb((0x12, 0x34, 0x56)), 0x123456);
    assert_eq!(pack_rgb((255, 255, 255)), 0xFFFFFF);
    assert_eq!(pack_rgb((0, 0, 0)), 0);
}

#[test]
fn loads_a_png() {
    let bytes = png_bytes(2, 2, &[[255, 0, 0], [0, 255, 0], [0, 0, 255], [1, 2, 3]]);
    let t = load_texture(7, &bytes).expect("decodes");
    assert_eq!(t.id, 7);
    assert_eq!((t.width, t.height), (2, 2));
    assert_eq!(t.data, vec![0xFF0000, 0x00FF00, 0x0000FF, 0x010203]);
}

#[test]
fn garbage_does_not_decode() {
    assert!(load_texture(0, &[1, 2, 3, 4, 5]).is_none());
    assert!(load_texture(0, &[]).is_none());
}
