use optination::picker::{
    card_meta, clamp_size, command_line, dot_grid, find_row, hyprcursor_count, live_status,
    overview_status, reverted_status, saved_line, slider_size, theme_at, visible_rows,
    Filters,
};
use optination::scan::{Format, Theme, Tone};
use std::path::PathBuf;

fn theme(name: &str, format: Format, tone: Tone, mirrored: bool, user: bool) -> Theme {
    Theme {
        name: name.to_string(),
        path: PathBuf::from("/t"),
        format,
        comment: String::new(),
        user_installed: user,
        tone,
        mirrored,
    }
}

fn all() -> Vec<Theme> {
    vec![
        theme("Adwaita", Format::Xcursor, Tone::Unstated, false, false),
        theme("Bibata-Modern-Ice-Right", Format::Both, Tone::Light, true, true),
        theme("Catppuccin-Mocha-Dark", Format::Hyprcursor, Tone::Dark, false, true),
        theme("Nordzy-Dark", Format::Xcursor, Tone::Dark, false, false),
        theme("rose-pine-hyprcursor", Format::Hyprcursor, Tone::Unstated, false, false),
    ]
}

#[test]
fn no_chips_let_everything_through() {
    let f = Filters::default();
    for t in all() {
        assert!(f.allows(&t));
    }
}

#[test]
fn groups_are_anded() {
    let f = Filters { hypr: true, dark: true, ..Filters::default() };
    let ts = all();
    let ok: Vec<bool> = ts.iter().map(|t| f.allows(t)).collect();
    assert_eq!(ok, vec![false, false, true, false, false]);
}

#[test]
fn chips_in_a_group_are_ored() {
    let f = Filters { x11: true, hypr: true, ..Filters::default() };
    assert!(all().iter().all(|t| f.allows(t)));
    let f = Filters { light: true, dark: true, ..Filters::default() };
    let ok: Vec<bool> = all().iter().map(|t| f.allows(t)).collect();
    assert_eq!(ok, vec![false, true, true, true, false]);
}

#[test]
fn handedness_and_source_chips() {
    let f = Filters { mirrored: true, ..Filters::default() };
    let ok: Vec<bool> = all().iter().map(|t| f.allows(t)).collect();
    assert_eq!(ok, vec![false, true, false, false, false]);
    let f = Filters { system: true, standard: true, ..Filters::default() };
    let ok: Vec<bool> = all().iter().map(|t| f.allows(t)).collect();
    assert_eq!(ok, vec![true, false, false, true, true]);
}

#[test]
fn first_chip_narrows_second_widens() {
    let ts = all();
    let none = Filters::default();
    let one = Filters { x11: true, ..Filters::default() };
    let two = Filters { x11: true, hypr: true, ..Filters::default() };
    for t in &ts {
        if one.allows(t) {
            assert!(none.allows(t));
        }
        if one.allows(t) {
            assert!(two.allows(t));
        }
    }
}

#[test]
fn search_text() {
    let f = Filters::default();
    let mut t = theme("Bibata-Modern-Ice", Format::Both, Tone::Dark, false, false);
    t.comment = "Material Based Cursor".to_string();
    assert!(optination::picker::matches(&t, "", &f));
    assert!(optination::picker::matches(&t, "ICE", &f));
    assert!(optination::picker::matches(&t, "material", &f));
    assert!(optination::picker::matches(&t, "+ HYPR", &f));
    assert!(optination::picker::matches(&t, "x11", &f));
    assert!(optination::picker::matches(&t, "X11 + hypr", &f));
    assert!(optination::picker::matches(&t, "Dark", &f));
    assert!(!optination::picker::matches(&t, "zzz", &f));
    let a = theme("Adwaita", Format::Xcursor, Tone::Unstated, false, false);
    assert!(optination::picker::matches(&a, "X11", &f));
    assert!(!optination::picker::matches(&a, "hypr", &f));
    let only_x11 = Filters { hypr: true, ..Filters::default() };
    let x = theme("Adwaita", Format::Xcursor, Tone::Unstated, false, false);
    assert!(!optination::picker::matches(&x, "", &only_x11));
}

#[test]
fn sizes_are_clamped() {
    assert_eq!(clamp_size(5), 16);
    assert_eq!(clamp_size(16), 16);
    assert_eq!(clamp_size(33), 33);
    assert_eq!(clamp_size(96), 96);
    assert_eq!(clamp_size(100), 96);
    assert_eq!(clamp_size(i32::MIN), 16);
    assert_eq!(clamp_size(clamp_size(200)), clamp_size(200));
}

#[test]
fn slider_starts_at_current_size() {
    assert_eq!(slider_size(None), 24);
    assert_eq!(slider_size(Some(20)), 20);
    assert_eq!(slider_size(Some(200)), 96);
    assert_eq!(slider_size(Some(3_000_000_000)), 16);
}

#[test]
fn visible_rows_follow_search_and_chips() {
    let ts = all();
    assert_eq!(visible_rows(&ts, "", &Filters::default()), vec![0, 1, 2, 3, 4]);
    assert_eq!(visible_rows(&ts, "dark", &Filters::default()), vec![2, 3]);
    let f = Filters { hypr: true, ..Filters::default() };
    assert_eq!(visible_rows(&ts, "", &f), vec![1, 2, 4]);
    assert_eq!(visible_rows(&ts, "nothing", &f), Vec::<usize>::new());
}

#[test]
fn selection_stays_on_the_theme() {
    let ts = all();
    let rows = visible_rows(&ts, "", &Filters { hypr: true, ..Filters::default() });
    assert_eq!(find_row(&ts, &rows, "Catppuccin-Mocha-Dark"), Some(1));
    assert_eq!(find_row(&ts, &rows, "Adwaita"), None);
    assert_eq!(find_row(&ts, &rows, "catppuccin-mocha-dark"), None);
}

#[test]
fn rows_back_to_themes() {
    let rows = vec![2, 4];
    assert_eq!(theme_at(&rows, 0), Some(2));
    assert_eq!(theme_at(&rows, 1), Some(4));
    assert_eq!(theme_at(&rows, 2), None);
    assert_eq!(theme_at(&rows, -1), None);
}

#[test]
fn hyprcursor_only_themes_counted() {
    assert_eq!(hyprcursor_count(&all()), 2);
    assert_eq!(hyprcursor_count(&Vec::new()), 0);
}

#[test]
fn card_meta_lines() {
    let t = theme("B", Format::Both, Tone::Dark, true, false);
    assert_eq!(card_meta(&t, 42), "X11 + hypr · 42 shapes · dark · mirrored");
    let t = theme("A", Format::Xcursor, Tone::Unstated, false, false);
    assert_eq!(card_meta(&t, 3), "X11 · 3 shapes");
    let t = theme("C", Format::Hyprcursor, Tone::Light, false, false);
    assert_eq!(card_meta(&t, 0), "hypr · 0 shapes · light");
}

#[test]
fn window_lines() {
    assert_eq!(command_line("Bibata", 24), "hyprctl setcursor Bibata 24");
    assert_eq!(command_line("Bibata", -5), "hyprctl setcursor Bibata -5");
    assert_eq!(live_status("Bibata", 30), "Bibata @ 30px — live, not saved");
    assert_eq!(reverted_status("Bibata", 24), "reverted to Bibata @ 24px");
    assert_eq!(
        saved_line("Bibata", 30, "/home/u/.config/hypr/looknfeel.lua"),
        "saved Bibata @ 30px to /home/u/.config/hypr/looknfeel.lua"
    );
    assert_eq!(
        overview_status(69, 16),
        "69 themes · 16 hyprcursor themes the old script never listed"
    );
}

#[test]
fn dot_grid_pixels() {
    let g = dot_grid(true);
    assert_eq!((g.width, g.height), (900, 700));
    assert!(!g.premultiplied);
    assert_eq!(g.rgba.len(), 900 * 700 * 4);
    let px = |x: usize, y: usize| g.rgba[4 * (y * 900 + x)..4 * (y * 900 + x) + 4].to_vec();
    assert_eq!(px(1, 1), vec![255, 255, 255, 28]);
    assert_eq!(px(17, 33), vec![255, 255, 255, 28]);
    assert_eq!(px(0, 0), vec![0, 0, 0, 0]);
    assert_eq!(px(2, 1), vec![0, 0, 0, 0]);
    assert_eq!(px(1, 2), vec![0, 0, 0, 0]);
    let light = dot_grid(false);
    assert_eq!(light.rgba[4 * 901..4 * 901 + 4].to_vec(), vec![20, 14, 10, 33]);
}
