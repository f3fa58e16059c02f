use ankimarkable::raster::{
    autocrop, crop_formula, finalize_math_png, picture_png, save_png, Image, Ink, InkBox,
};

fn clear(w: u32, h: u32) -> Image {
    Image { w, h, data: vec![0u8; (w * h * 4) as usize] }
}

fn white(w: u32, h: u32) -> Image {
    Image { w, h, data: vec![255u8; (w * h * 4) as usize] }
}

fn set(img: &mut Image, x: u32, y: u32, px: [u8; 4]) {
    let i = ((y * img.w + x) * 4) as usize;
    img.data[i..i + 4].copy_from_slice(&px);
}

fn alpha(img: &Image, x: u32, y: u32) -> u8 {
    img.data[((y * img.w + x) * 4 + 3) as usize]
}

fn png_of(img: &Image) -> Vec<u8> {
    let size = tiny_skia::IntSize::from_wh(img.w, img.h).unwrap();
    tiny_skia::Pixmap::from_vec(img.data.clone(), size).unwrap().encode_png().unwrap()
}

#[test]
fn ink_boxes() {
    let mut img = clear(20, 10);
    assert_eq!(img.ink_box(Ink::Covered), None);
    set(&mut img, 3, 4, [0, 0, 0, 3]);
    assert_eq!(img.ink_box(Ink::Covered), None);
    set(&mut img, 7, 4, [0, 0, 0, 4]);
    set(&mut img, 5, 6, [0, 0, 0, 200]);
    assert_eq!(img.ink_box(Ink::Covered), Some(InkBox { x0: 5, y0: 4, x1: 7, y1: 6 }));
    let mut pic = white(8, 8);
    set(&mut pic, 1, 1, [245, 245, 245, 255]);
    assert_eq!(pic.ink_box(Ink::Dark), None);
    set(&mut pic, 2, 3, [255, 244, 255, 255]);
    assert_eq!(pic.ink_box(Ink::Dark), Some(InkBox { x0: 2, y0: 3, x1: 2, y1: 3 }));
}

#[test]
fn display_formulas_keep_a_margin() {
    let mut img = clear(100, 60);
    set(&mut img, 50, 30, [9, 9, 9, 90]);
    set(&mut img, 52, 40, [9, 9, 9, 255]);
    let out = crop_formula(&img, false, 0).unwrap();
    assert_eq!((out.w, out.h), (27, 17));
    assert_eq!(alpha(&out, 12, 3), 90);
    assert_eq!(alpha(&out, 14, 13), 255);
    assert_eq!(out.data.iter().filter(|&&b| b != 0).count(), 2);
}

#[test]
fn margins_stop_at_the_edges() {
    let mut img = clear(10, 5);
    set(&mut img, 1, 1, [0, 0, 0, 255]);
    let out = crop_formula(&img, false, 0).unwrap();
    assert_eq!((out.w, out.h), (10, 5));
    assert!(crop_formula(&clear(10, 5), true, 3).is_none());
}

#[test]
fn inline_formulas_end_below_the_baseline() {
    let mut img = clear(40, 30);
    set(&mut img, 20, 10, [0, 0, 0, 255]);
    let out = crop_formula(&img, true, 25).unwrap();
    assert_eq!((out.w, out.h), (25, 28));
    set(&mut img, 20, 29, [0, 0, 0, 255]);
    let deep = crop_formula(&img, true, 12).unwrap();
    assert_eq!(deep.h, 15);
    assert_eq!(alpha(&deep, 12, 3), 255);
    assert_eq!(deep.data.iter().filter(|&&b| b != 0).count(), 1);
    let low = crop_formula(&img, true, 0).unwrap();
    assert_eq!(low.h, 3);
    set(&mut img, 20, 10, [0, 0, 0, 0]);
    assert_eq!(crop_formula(&img, true, 0).unwrap().h, 1);
    set(&mut img, 20, 10, [0, 0, 0, 255]);
    let far = crop_formula(&img, true, usize::MAX).unwrap();
    assert_eq!(far.h, 4001);
}

#[test]
fn formula_files() {
    let mut img = clear(40, 30);
    set(&mut img, 20, 10, [30, 30, 30, 128]);
    let (png, w, h) = finalize_math_png(&png_of(&img), false, 0).unwrap();
    assert_eq!((w, h), (25, 7));
    let back = tiny_skia::Pixmap::decode_png(&png).unwrap();
    assert_eq!((back.width(), back.height()), (25, 7));
    let mut want = vec![0u8; 25 * 7 * 4];
    want[(3 * 25 + 12) * 4 + 3] = 128;
    assert_eq!(back.data(), &want[..]);
    assert!(finalize_math_png(b"no png", true, 0).is_none());
    assert!(finalize_math_png(&png_of(&clear(3, 3)), true, 0).is_none());
}

#[test]
fn pictures_are_cropped() {
    let mut img = white(50, 40);
    set(&mut img, 20, 3, [0, 10, 20, 255]);
    set(&mut img, 30, 20, [200, 200, 200, 255]);
    let out = autocrop(img);
    assert_eq!((out.w, out.h), (23, 27));
    let i = ((3 * 23 + 6) * 4) as usize;
    assert_eq!(&out.data[i..i + 4], &[0, 10, 20, 255]);
    let data = out.data.clone();
    let again = autocrop(out);
    assert_eq!((again.w, again.h, again.data), (23, 27, data));
    let blank = autocrop(white(5, 4));
    assert_eq!((blank.w, blank.h, blank.data.len()), (5, 4, 80));
    let mut dot = white(50, 40);
    set(&mut dot, 25, 20, [0, 0, 0, 255]);
    let back = tiny_skia::Pixmap::decode_png(&picture_png(dot).unwrap()).unwrap();
    assert_eq!((back.width(), back.height()), (13, 13));
    assert_eq!(&back.data()[(6 * 13 + 6) * 4..][..4], &[0, 0, 0, 255]);
}

#[test]
fn screens_are_stored() {
    let rgba: Vec<u8> = (0..48).collect();
    let out = save_png(&rgba, 4, 3).unwrap();
    let mut reader = png::Decoder::new(&out[..]).read_info().unwrap();
    let mut buf = vec![0u8; reader.output_buffer_size()];
    let info = reader.next_frame(&mut buf).unwrap();
    assert_eq!((info.width, info.height), (4, 3));
    assert_eq!(buf, rgba);
    assert!(save_png(&rgba, 4, 4).is_none());
    assert!(save_png(&rgba, 0, 3).is_none());
}
