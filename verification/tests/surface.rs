use image::ImageEncoder;
use pixel_canvas::canvas::{Canvas, Image, ImageCompletion, ImageHandle, MonoImage};
use pixel_canvas::rgba::Rgba;

fn canvas_20x20() -> Canvas {
    Canvas::new(vec![0u32; 400], 20, 20).unwrap()
}

#[test]
fn construction_rejects_bad_dimensions() {
    let buf = vec![0u32; 400];
    let r = Canvas::new(buf, 0, 20);
    let buf = match r {
        Err(b) => b,
        Ok(_) => panic!("zero width accepted"),
    };
    assert_eq!(buf.len(), 400);
    let r = Canvas::new(buf, 20, 0);
    let buf = match r {
        Err(b) => b,
        Ok(_) => panic!("zero height accepted"),
    };
    let r = Canvas::new(buf, 21, 20);
    assert!(matches!(r, Err(_)));
}

#[test]
fn buffer_length_invariant() {
    let mut c = canvas_20x20();
    assert_eq!(c.width(), 20);
    assert_eq!(c.height(), 20);
    assert_eq!(c.buffer().len(), 400);
    c.fill(Rgba::gray());
    assert_eq!(c.buffer().len(), 400);
    c.draw_rectangle(-3, -3, 50, 50, Rgba::cyan());
    assert_eq!(c.buffer().len(), 400);
    let img = Image { bytes: vec![Rgba::black(); 9], width: 3, height: 3 };
    c.draw_image(5, 5, &img);
    assert_eq!(c.buffer().len(), 400);
    let buf = c.destroy();
    assert_eq!(buf.len(), 400);
}

#[test]
fn fill_overwrites_everything() {
    let mut c = canvas_20x20();
    c.fill(Rgba::magenta());
    let p = Rgba::magenta().to_u32();
    for &cell in c.buffer().iter() {
        assert_eq!(cell, p);
    }
}

#[test]
fn rectangle_clipping() {
    let mut c = canvas_20x20();
    let base = Rgba::dark_gray();
    c.fill(base);
    let ink = Rgba::pure_red();
    c.draw_rectangle(-5, -5, 10, 10, ink);
    let buf = c.destroy();
    for cy in 0..20usize {
        for cx in 0..20usize {
            let cell = buf[cy * 20 + cx];
            if cx < 5 && cy < 5 {
                assert_eq!(cell, ink.to_u32(), "cell ({cx},{cy})");
            } else {
                assert_eq!(cell, base.to_u32(), "cell ({cx},{cy})");
            }
        }
    }
}

#[test]
fn rectangle_non_positive_area_draws_nothing() {
    let mut c = canvas_20x20();
    c.fill(Rgba::black());
    c.draw_rectangle(3, 3, 0, 10, Rgba::white());
    c.draw_rectangle(3, 3, 10, -2, Rgba::white());
    let p = Rgba::black().to_u32();
    for &cell in c.buffer().iter() {
        assert_eq!(cell, p);
    }
}

#[test]
fn draw_image_places_pixels() {
    let mut c = canvas_20x20();
    c.fill(Rgba::black());
    let px = [
        Rgba::pure_red(),
        Rgba::pure_green(),
        Rgba::pure_blue(),
        Rgba::yellow(),
    ];
    let img = Image { bytes: px.to_vec(), width: 2, height: 2 };
    c.draw_image(1, 2, &img);
    let buf = c.destroy();
    assert_eq!(buf[2 * 20 + 1], px[0].to_u32());
    assert_eq!(buf[2 * 20 + 2], px[1].to_u32());
    assert_eq!(buf[3 * 20 + 1], px[2].to_u32());
    assert_eq!(buf[3 * 20 + 2], px[3].to_u32());
    // an untouched neighbour keeps its old contents
    assert_eq!(buf[0], Rgba::black().to_u32());
    assert_eq!(buf[2 * 20 + 3], Rgba::black().to_u32());
}

#[test]
fn draw_image_clips_silently() {
    let mut c = canvas_20x20();
    c.fill(Rgba::black());
    let img = Image { bytes: vec![Rgba::white(); 4], width: 2, height: 2 };
    c.draw_image(19, 19, &img);
    let buf = c.destroy();
    assert_eq!(buf[19 * 20 + 19], Rgba::white().to_u32());
    // the three other pixels fell outside; everything else is untouched
    let touched = buf
        .iter()
        .filter(|&&cell| cell == Rgba::white().to_u32())
        .count();
    assert_eq!(touched, 1);
}

#[test]
fn monochrome_full_off_surface() {
    let mut c = canvas_20x20();
    c.fill(Rgba::gray());
    let img = MonoImage { bytes: vec![0, 128, 255], width: 3, height: 1 };
    let r = c.draw_monochrome_image(1000, 1000, &img, Rgba::black(), Rgba::white());
    assert_eq!(r, ImageCompletion::Rejected);
    let p = Rgba::gray().to_u32();
    for &cell in c.buffer().iter() {
        assert_eq!(cell, p);
    }
}

#[test]
fn monochrome_partial() {
    let mut c = canvas_20x20();
    let base = Rgba::gray();
    c.fill(base);
    let black = Rgba::new(10, 20, 30, 200);
    let white = Rgba::new(200, 100, 50, 60);
    let img = MonoImage { bytes: vec![0, 255, 7], width: 3, height: 1 };
    let r = c.draw_monochrome_image(18, 0, &img, black, white);
    assert_eq!(r, ImageCompletion::Partial);
    let buf = c.destroy();
    assert_eq!(buf[18], black.to_u32());
    assert_eq!(buf[19], white.to_u32());
    // the blended third pixel fell past the right edge
    let touched = buf.iter().filter(|&&cell| cell != base.to_u32()).count();
    assert_eq!(touched, 2);
}

#[test]
fn monochrome_complete_and_blended() {
    let mut c = canvas_20x20();
    c.fill(Rgba::gray());
    let black = Rgba::black();
    let white = Rgba::white();
    let img = MonoImage { bytes: vec![0, 128, 255, 7], width: 2, height: 2 };
    let r = c.draw_monochrome_image(0, 0, &img, black, white);
    assert_eq!(r, ImageCompletion::Complete);
    let buf = c.destroy();
    assert_eq!(buf[0], black.to_u32());
    assert_eq!(buf[1], black.blend(white, 128).to_u32());
    assert_eq!(buf[20], white.to_u32());
    assert_eq!(buf[21], black.blend(white, 7).to_u32());
}

#[test]
fn monochrome_origin_on_edge_is_not_rejected() {
    // the early check compares with strict less-than, so an origin exactly
    // on the edge proceeds to pixel work and clips everything
    let mut c = canvas_20x20();
    c.fill(Rgba::gray());
    let img = MonoImage { bytes: vec![0, 255], width: 2, height: 1 };
    let r = c.draw_monochrome_image(20, 0, &img, Rgba::black(), Rgba::white());
    assert_eq!(r, ImageCompletion::Partial);
    let p = Rgba::gray().to_u32();
    for &cell in c.buffer().iter() {
        assert_eq!(cell, p);
    }
}

#[test]
fn monochrome_negative_origin_downgrades() {
    let mut c = canvas_20x20();
    c.fill(Rgba::gray());
    let img = MonoImage { bytes: vec![0, 255], width: 2, height: 1 };
    let r = c.draw_monochrome_image(-1, 0, &img, Rgba::black(), Rgba::white());
    assert_eq!(r, ImageCompletion::Partial);
    let buf = c.destroy();
    assert_eq!(buf[0], Rgba::white().to_u32());
}

fn png_bytes(pixels: &[u8], width: u32, height: u32) -> Vec<u8> {
    let mut out: Vec<u8> = Vec::new();
    let enc = image::codecs::png::PngEncoder::new(&mut out);
    enc.write_image(pixels, width, height, image::ExtendedColorType::Rgba8)
        .unwrap();
    out
}

#[test]
fn image_handle_load_decodes_real_png() {
    let data = png_bytes(&[10, 20, 30, 40, 50, 60, 70, 80], 2, 1);
    let mut handle = ImageHandle::Handle { path: "sprite.png" };
    assert_eq!(handle.path(), "sprite.png");
    assert!(handle.image_ref().is_none());
    handle.load(&data).unwrap();
    let img_ref = handle.image_ref().expect("loaded");
    assert_eq!(img_ref.width, 2);
    assert_eq!(img_ref.height, 1);
    assert_eq!(img_ref.bytes.len(), 2);
    // decoded stream bytes arrive in red, green, blue, alpha order
    assert_eq!(img_ref.bytes[0], Rgba::new(10, 20, 30, 40));
    assert_eq!(img_ref.bytes[1], Rgba::new(50, 60, 70, 80));
    assert_eq!(handle.path(), "sprite.png");
    let img = handle.to_image().expect("loaded");
    assert_eq!(img.width, 2);
    assert_eq!(img.height, 1);
    assert_eq!(img.bytes[0], Rgba::new(10, 20, 30, 40));
    let r = img.get_ref();
    assert_eq!(r.width, 2);
    assert_eq!(r.bytes[1], Rgba::new(50, 60, 70, 80));
}

#[test]
fn image_handle_load_is_idempotent() {
    let data = png_bytes(&[1, 2, 3, 4], 1, 1);
    let mut handle = ImageHandle::Handle { path: "a.png" };
    handle.load(&data).unwrap();
    // a second load is a no-op success, even with garbage input
    handle.load(&vec![0u8; 3]).unwrap();
    assert!(handle.image_ref().is_some());
}

#[test]
fn image_handle_load_failure_keeps_handle() {
    let mut handle = ImageHandle::Handle { path: "broken.png" };
    let r = handle.load(&vec![1, 2, 3]);
    assert!(r.is_err());
    assert!(handle.image_ref().is_none());
    assert_eq!(handle.path(), "broken.png");
    assert!(handle.to_image().is_none());
}

#[test]
fn image_handle_unload() {
    let data = png_bytes(&[9, 9, 9, 9], 1, 1);
    let mut handle = ImageHandle::Handle { path: "b.png" };
    handle.load(&data).unwrap();
    assert!(handle.image_ref().is_some());
    handle.unload();
    assert!(handle.image_ref().is_none());
    assert_eq!(handle.path(), "b.png");
}

#[test]
fn rgba_pixels_from_bytes_groups_by_four() {
    let v = pixel_canvas::canvas::rgba_pixels_from_bytes(&vec![1, 2, 3, 4, 5, 6, 7, 8, 9]);
    assert_eq!(v.len(), 2);
    assert_eq!(v[0], Rgba::new(1, 2, 3, 4));
    assert_eq!(v[1], Rgba::new(5, 6, 7, 8));
}

#[test]
fn drawing_a_loaded_image() {
    let data = png_bytes(&[0, 0, 255, 255, 255, 0, 0, 255], 2, 1);
    let mut handle = ImageHandle::Handle { path: "c.png" };
    handle.load(&data).unwrap();
    let img = handle.to_image().unwrap();
    let mut c = canvas_20x20();
    c.draw_image(0, 0, &img);
    let buf = c.destroy();
    assert_eq!(buf[0], img.bytes[0].to_u32());
    assert_eq!(buf[1], img.bytes[1].to_u32());
}
