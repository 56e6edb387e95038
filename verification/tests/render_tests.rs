use optination::render::{
    bgra_to_rgba, decode_png, hlc_asset, load_hyprcursor, load_xcursor, needs_x11, parse_sizes, pick_fitting,
    pick_scalable, pick_xcursor, preview, shape, shape_dir, slots, Asset, Bitmap, CursorImage,
    HyprShape,
};
use optination::scan::{Format, Theme, Tone};
use std::io::Write;
use std::path::PathBuf;

fn le(v: u32) -> [u8; 4] {
    v.to_le_bytes()
}

/// An Xcursor file with one 1x1 image per `(nominal size, pixel)`.
fn xcursor_file(images: &[(u32, [u8; 4])]) -> Vec<u8> {
    let n = images.len() as u32;
    let mut out = Vec::new();
    out.extend_from_slice(b"Xcur");
    out.extend_from_slice(&le(16));
    out.extend_from_slice(&le(0x1_0000));
    out.extend_from_slice(&le(n));
    let first = 16 + 12 * n;
    for (k, (size, _)) in images.iter().enumerate() {
        out.extend_from_slice(&le(0xfffd_0002));
        out.extend_from_slice(&le(*size));
        out.extend_from_slice(&le(first + 40 * k as u32));
    }
    for (size, px) in images {
        out.extend_from_slice(&le(0x24));
        out.extend_from_slice(&le(0xfffd_0002));
        out.extend_from_slice(&le(*size));
        out.extend_from_slice(&le(1));
        out.extend_from_slice(&le(1));
        out.extend_from_slice(&le(1));
        out.extend_from_slice(&le(0));
        out.extend_from_slice(&le(0));
        out.extend_from_slice(&le(0));
        out.extend_from_slice(px);
    }
    out
}

fn zip_of(entries: &[(&str, &[u8])]) -> Vec<u8> {
    let mut w = zip::ZipWriter::new(std::io::Cursor::new(Vec::new()));
    let opts = zip::write::SimpleFileOptions::default()
        .compression_method(zip::CompressionMethod::Stored);
    for (name, data) in entries {
        w.start_file(*name, opts).unwrap();
        w.write_all(data).unwrap();
    }
    w.finish().unwrap().into_inner()
}

fn png_of(width: u32, height: u32, color: png::ColorType, depth: png::BitDepth, data: &[u8]) -> Vec<u8> {
    let mut out = Vec::new();
    {
        let mut enc = png::Encoder::new(&mut out, width, height);
        enc.set_color(color);
        enc.set_depth(depth);
        let mut w = enc.write_header().unwrap();
        w.write_image_data(data).unwrap();
    }
    out
}

fn bitmap(rgba: Vec<u8>) -> Bitmap {
    Bitmap { width: 1, height: 1, rgba, premultiplied: true }
}

fn theme(format: Format) -> Theme {
    Theme {
        name: "T".to_string(),
        path: PathBuf::from("/t"),
        format,
        comment: String::new(),
        user_installed: false,
        tone: Tone::Unstated,
        mirrored: false,
    }
}

#[test]
fn blank_means_every_alpha_zero() {
    assert!(bitmap(vec![1, 2, 3, 0, 4, 5, 6, 0]).is_blank());
    assert!(!bitmap(vec![0, 0, 0, 0, 0, 0, 0, 1]).is_blank());
    assert!(bitmap(vec![]).is_blank());
    // A trailing partial pixel is not looked at.
    assert!(bitmap(vec![0, 0, 0, 0, 9, 9, 9]).is_blank());
}

#[test]
fn bgra_becomes_rgba() {
    assert_eq!(bgra_to_rgba(&vec![1, 2, 3, 4, 5, 6, 7, 8]), vec![3, 2, 1, 4, 7, 6, 5, 8]);
    assert_eq!(bgra_to_rgba(&vec![1, 2, 3, 4, 9, 9]), vec![3, 2, 1, 4]);
    assert_eq!(bgra_to_rgba(&vec![]), Vec::<u8>::new());
}

#[test]
fn swapping_twice_restores() {
    let px = vec![10, 20, 30, 40, 50, 60, 70, 80];
    assert_eq!(bgra_to_rgba(&bgra_to_rgba(&px)), px);
}

#[test]
fn six_preview_slots() {
    let s = slots();
    let labels: Vec<&str> = s.iter().map(|x| x.label).collect();
    assert_eq!(labels, vec!["pointer", "text", "link", "resize", "busy", "no-drop"]);
    assert_eq!(s[0].names, vec!["left_ptr", "default", "arrow", "top_left_arrow"]);
    assert_eq!(s[2].names, vec!["hand2", "pointer", "pointing_hand", "hand1", "hand"]);
    assert_eq!(s[5].names, vec!["crossed_circle", "not-allowed", "no-drop", "forbidden"]);
}

#[test]
fn fitting_scales_down_never_up() {
    assert_eq!(pick_fitting(&vec![24, 32, 48], 30), Some(1));
    assert_eq!(pick_fitting(&vec![48, 32, 24], 24), Some(2));
    assert_eq!(pick_fitting(&vec![24, 32], 64), Some(1));
    assert_eq!(pick_fitting(&vec![], 24), None);
    // Ties: the first of the smallest that fit, the last of the largest.
    assert_eq!(pick_fitting(&vec![32, 32], 24), Some(0));
    assert_eq!(pick_fitting(&vec![16, 16], 24), Some(1));
}

#[test]
fn scalable_is_the_first_zero() {
    assert_eq!(pick_scalable(&vec![24, 0, 0]), Some(1));
    assert_eq!(pick_scalable(&vec![24, 32]), None);
}

#[test]
fn sizes_from_meta() {
    let meta = "resize_algorithm = bilinear\n\
define_size = 0, pointer.svg\n\
define_size = 32, p_32.png, 100\n\
define_size=bad, x.png\n\
define_size = 16\n\
define_sizes = 8, y.png\n\
  define_size = 64 , p64.png  \r\n";
    let e = parse_sizes(meta);
    let got: Vec<(u32, &str)> = e.iter().map(|x| (x.size, x.file.as_str())).collect();
    assert_eq!(got, vec![(0, "pointer.svg"), (32, "p_32.png"), (64, "p64.png")]);
    assert!(parse_sizes("").is_empty());
}

#[test]
fn xcursor_picks_fitting_image_and_swaps_red_blue() {
    let file = xcursor_file(&[(24, [1, 2, 3, 4]), (32, [5, 6, 7, 8])]);
    let files = vec![None, Some(file.clone())];
    let b = load_xcursor(&files, 30).unwrap();
    assert_eq!((b.width, b.height), (1, 1));
    assert_eq!(b.rgba, vec![7, 6, 5, 8]);
    assert!(b.premultiplied);
    assert_eq!(load_xcursor(&files, 48).unwrap().rgba, vec![7, 6, 5, 8]);
    assert_eq!(load_xcursor(&files, 10).unwrap().rgba, vec![3, 2, 1, 4]);
}

#[test]
fn xcursor_first_readable_file_decides() {
    let good = xcursor_file(&[(24, [1, 2, 3, 4])]);
    assert!(load_xcursor(&vec![Some(b"not a cursor".to_vec()), Some(good)], 24).is_none());
    assert!(load_xcursor(&vec![None, None], 24).is_none());
    assert!(load_xcursor(&vec![], 24).is_none());
    assert!(load_xcursor(&vec![Some(xcursor_file(&[]))], 24).is_none());
}

#[test]
fn pick_from_parsed_images() {
    let images = vec![
        CursorImage { size: 48, width: 2, height: 1, pixels: vec![1, 2, 3, 4, 5, 6, 7, 8] },
        CursorImage { size: 24, width: 1, height: 1, pixels: vec![9, 8, 7, 6] },
    ];
    let b = pick_xcursor(images, 32).unwrap();
    assert_eq!((b.width, b.height), (2, 1));
    assert_eq!(b.rgba, vec![3, 2, 1, 4, 7, 6, 5, 8]);
    assert!(pick_xcursor(Vec::new(), 32).is_none());
}

#[test]
fn hlc_prefers_scalable_asset() {
    let hlc = zip_of(&[
        ("meta.hl", b"define_size = 32, a32.png\ndefine_size = 0, a.svg\n"),
        ("a32.png", b"PNGDATA"),
        ("a.svg", b"<svg/>"),
    ]);
    match hlc_asset(hlc, 24) {
        Some(Asset::Svg(d)) => assert_eq!(d, b"<svg/>".to_vec()),
        _ => panic!("expected the svg"),
    }
}

#[test]
fn hlc_picks_fixed_size_that_fits() {
    let hlc = zip_of(&[
        ("meta.hl", b"define_size = 24, a24.png\ndefine_size = 48, a48.png\n"),
        ("a24.png", b"small"),
        ("a48.png", b"large"),
    ]);
    match hlc_asset(hlc.clone(), 30) {
        Some(Asset::Png(d)) => assert_eq!(d, b"large".to_vec()),
        _ => panic!("expected a48.png"),
    }
    match hlc_asset(hlc, 20) {
        Some(Asset::Png(d)) => assert_eq!(d, b"small".to_vec()),
        _ => panic!("expected a24.png"),
    }
}

#[test]
fn hlc_without_meta_takes_first_asset() {
    let hlc = zip_of(&[("readme.txt", b"hi"), ("x.png", b"xpng"), ("y.svg", b"ysvg")]);
    match hlc_asset(hlc, 24) {
        Some(Asset::Png(d)) => assert_eq!(d, b"xpng".to_vec()),
        _ => panic!("expected x.png"),
    }
    let none = zip_of(&[("readme.txt", b"hi")]);
    assert!(hlc_asset(none, 24).is_none());
}

#[test]
fn hlc_failures() {
    assert!(hlc_asset(b"not a zip".to_vec(), 24).is_none());
    let missing = zip_of(&[("meta.hl", b"define_size = 0, gone.svg\n"), ("a.svg", b"x")]);
    assert!(hlc_asset(missing, 24).is_none());
    let odd = zip_of(&[("meta.hl", b"define_size = 0, a.bmp\n"), ("a.bmp", b"x")]);
    assert!(hlc_asset(odd, 24).is_none());
}

#[test]
fn png_rgba_kept() {
    let data = png_of(2, 1, png::ColorType::Rgba, png::BitDepth::Eight, &[1, 2, 3, 4, 5, 6, 7, 8]);
    let b = decode_png(&data).unwrap();
    assert_eq!((b.width, b.height), (2, 1));
    assert_eq!(b.rgba, vec![1, 2, 3, 4, 5, 6, 7, 8]);
    assert!(!b.premultiplied);
}

#[test]
fn png_other_colour_types_expanded() {
    let rgb = png_of(1, 1, png::ColorType::Rgb, png::BitDepth::Eight, &[10, 20, 30]);
    assert_eq!(decode_png(&rgb).unwrap().rgba, vec![10, 20, 30, 255]);
    let ga = png_of(1, 1, png::ColorType::GrayscaleAlpha, png::BitDepth::Eight, &[7, 200]);
    assert_eq!(decode_png(&ga).unwrap().rgba, vec![7, 7, 7, 200]);
    let g = png_of(2, 1, png::ColorType::Grayscale, png::BitDepth::Eight, &[9, 0]);
    assert_eq!(decode_png(&g).unwrap().rgba, vec![9, 9, 9, 255, 0, 0, 0, 255]);
}

fn palette_png(trns: Option<&[u8]>) -> Vec<u8> {
    let mut out = Vec::new();
    {
        let mut enc = png::Encoder::new(&mut out, 2, 1);
        enc.set_color(png::ColorType::Indexed);
        enc.set_depth(png::BitDepth::Eight);
        enc.set_palette(vec![10u8, 20, 30, 40, 50, 60]);
        if let Some(t) = trns {
            enc.set_trns(t.to_vec());
        }
        let mut w = enc.write_header().unwrap();
        w.write_image_data(&[1, 0]).unwrap();
    }
    out
}

#[test]
fn png_palette_expanded() {
    let b = decode_png(&palette_png(None)).unwrap();
    assert_eq!((b.width, b.height), (2, 1));
    assert_eq!(b.rgba, vec![40, 50, 60, 255, 10, 20, 30, 255]);
    assert!(!b.premultiplied);
    let b = decode_png(&palette_png(Some(&[128]))).unwrap();
    assert_eq!(b.rgba, vec![40, 50, 60, 255, 10, 20, 30, 128]);
}

#[test]
fn png_palette_index_past_the_palette() {
    let mut out = Vec::new();
    {
        let mut enc = png::Encoder::new(&mut out, 2, 1);
        enc.set_color(png::ColorType::Indexed);
        enc.set_depth(png::BitDepth::Eight);
        enc.set_palette(vec![10u8, 20, 30]);
        let mut w = enc.write_header().unwrap();
        w.write_image_data(&[0, 1]).unwrap();
    }
    assert!(decode_png(&out).is_none());
}

#[test]
fn png_transparency_on_rgb_not_applied() {
    let mut out = Vec::new();
    {
        let mut enc = png::Encoder::new(&mut out, 1, 1);
        enc.set_color(png::ColorType::Rgb);
        enc.set_depth(png::BitDepth::Eight);
        enc.set_trns(vec![0u8, 10, 0, 20, 0, 30]);
        let mut w = enc.write_header().unwrap();
        w.write_image_data(&[10, 20, 30]).unwrap();
    }
    assert_eq!(decode_png(&out).unwrap().rgba, vec![10, 20, 30, 255]);
}

#[test]
fn png_low_bit_grey_refused() {
    let g = png_of(8, 1, png::ColorType::Grayscale, png::BitDepth::One, &[0b1010_1010]);
    assert!(decode_png(&g).is_none());
}

#[test]
fn png_refused() {
    let deep = png_of(1, 1, png::ColorType::Rgba, png::BitDepth::Sixteen, &[0; 8]);
    assert!(decode_png(&deep).is_none());
    assert!(decode_png(b"garbage").is_none());
}

#[test]
fn shape_prefers_hyprcursor() {
    let t = theme(Format::Both);
    let got = shape(&t, Some(bitmap(vec![1, 1, 1, 255])), Some(bitmap(vec![2, 2, 2, 255]))).unwrap();
    assert_eq!(got.rgba, vec![1, 1, 1, 255]);
}

#[test]
fn shape_falls_back_to_xcursor_on_blank() {
    let t = theme(Format::Both);
    let got = shape(&t, Some(bitmap(vec![1, 1, 1, 0])), Some(bitmap(vec![2, 2, 2, 255]))).unwrap();
    assert_eq!(got.rgba, vec![2, 2, 2, 255]);
    let got = shape(&t, None, Some(bitmap(vec![2, 2, 2, 255]))).unwrap();
    assert_eq!(got.rgba, vec![2, 2, 2, 255]);
    // Both blank: no bitmap at all.
    assert!(shape(&t, Some(bitmap(vec![1, 1, 1, 0])), Some(bitmap(vec![0, 0, 0, 0]))).is_none());
    assert!(shape(&t, Some(bitmap(vec![1, 1, 1, 0])), None).is_none());
}

#[test]
fn shape_uses_only_what_the_format_ships() {
    let x = theme(Format::Xcursor);
    let got = shape(&x, Some(bitmap(vec![1, 1, 1, 255])), Some(bitmap(vec![2, 2, 2, 255]))).unwrap();
    assert_eq!(got.rgba, vec![2, 2, 2, 255]);
    assert!(shape(&x, Some(bitmap(vec![1, 1, 1, 255])), None).is_none());
    let h = theme(Format::Hyprcursor);
    assert!(shape(&h, None, Some(bitmap(vec![2, 2, 2, 255]))).is_none());
}

#[test]
fn needs_x11_only_when_hypr_gave_nothing() {
    assert!(!needs_x11(Format::Both, &Some(bitmap(vec![1, 1, 1, 255]))));
    assert!(needs_x11(Format::Both, &Some(bitmap(vec![1, 1, 1, 0]))));
    assert!(needs_x11(Format::Both, &None));
    assert!(needs_x11(Format::Xcursor, &Some(bitmap(vec![1, 1, 1, 255]))));
    assert!(!needs_x11(Format::Hyprcursor, &None));
}

#[test]
fn preview_keeps_gaps_in_place() {
    let t = theme(Format::Xcursor);
    let loaded = vec![
        (None, Some(bitmap(vec![1, 1, 1, 255]))),
        (None, None),
        (None, Some(bitmap(vec![3, 3, 3, 255]))),
        (None, Some(bitmap(vec![0, 0, 0, 0]))),
        (None, Some(bitmap(vec![5, 5, 5, 255]))),
        (None, None),
    ];
    let p = preview(&t, loaded);
    let present: Vec<bool> = p.iter().map(|b| b.is_some()).collect();
    assert_eq!(present, vec![true, false, true, false, true, false]);
    assert_eq!(p[2].as_ref().unwrap().rgba, vec![3, 3, 3, 255]);
}

#[test]
fn shapes_counted_in_the_right_directory() {
    assert_eq!(shape_dir(Format::Hyprcursor), "hyprcursors");
    assert_eq!(shape_dir(Format::Xcursor), "cursors");
    assert_eq!(shape_dir(Format::Both), "cursors");
}

#[test]
fn hyprcursor_shape_from_archive() {
    let png = png_of(1, 1, png::ColorType::Rgba, png::BitDepth::Eight, &[1, 2, 3, 4]);
    let hlc = zip_of(&[("meta.hl", b"define_size = 32, p.png\n"), ("p.png", &png)]);
    match load_hyprcursor(hlc, 32) {
        HyprShape::Drawn(b) => {
            assert_eq!(b.rgba, vec![1, 2, 3, 4]);
            assert!(!b.premultiplied);
        }
        _ => panic!("expected a decoded png"),
    }
    let hlc = zip_of(&[("meta.hl", b"define_size = 0, p.svg\n"), ("p.svg", b"<svg/>")]);
    match load_hyprcursor(hlc, 32) {
        HyprShape::Vector(d) => assert_eq!(d, b"<svg/>".to_vec()),
        _ => panic!("expected the svg"),
    }
    let hlc = zip_of(&[("meta.hl", b"define_size = 32, p.png\n"), ("p.png", b"broken")]);
    assert!(matches!(load_hyprcursor(hlc, 32), HyprShape::Nothing));
    assert!(matches!(load_hyprcursor(b"junk".to_vec(), 32), HyprShape::Nothing));
}
