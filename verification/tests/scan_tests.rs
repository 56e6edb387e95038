use optination::scan::{
    classify, describe, manifest, mirrored_of, read_field, search_dirs, themes, tone_of, Format, Found, Tone,
};
use std::path::PathBuf;

fn found(name: &str, user: bool, cursors: bool, hypr: bool) -> Found {
    Found {
        name: name.to_string(),
        path: PathBuf::from(format!("/icons/{}", name)),
        user_installed: user,
        is_dir: true,
        has_cursors: cursors,
        has_hyprcursors: hypr,
        has_manifest: hypr,
        manifest_text: None,
        index_text: None,
    }
}

#[test]
fn format_labels_and_parts() {
    assert_eq!(Format::Xcursor.label(), "X11");
    assert_eq!(Format::Hyprcursor.label(), "hypr");
    assert_eq!(Format::Both.label(), "X11 + hypr");
    assert!(Format::Both.has_hypr() && Format::Both.has_x11());
    assert!(Format::Hyprcursor.has_hypr() && !Format::Hyprcursor.has_x11());
    assert!(!Format::Xcursor.has_hypr() && Format::Xcursor.has_x11());
}

#[test]
fn tone_labels() {
    assert_eq!(Tone::Light.label(), "light");
    assert_eq!(Tone::Dark.label(), "dark");
    assert_eq!(Tone::Unstated.label(), "");
}

#[test]
fn tone_read_off_the_name() {
    assert_eq!(tone_of("Catppuccin-Mocha-Dark-Cursors"), Tone::Dark);
    assert_eq!(tone_of("Adwaita-white"), Tone::Light);
    assert_eq!(tone_of("Breeze_Light"), Tone::Light);
    assert_eq!(tone_of("Bibata-Modern-Ice"), Tone::Unstated);
    assert_eq!(tone_of("Quintom_Ink"), Tone::Unstated);
    // Whole words only.
    assert_eq!(tone_of("Darkness-cursors"), Tone::Unstated);
    assert_eq!(tone_of("lightweight"), Tone::Unstated);
    // Dark wins over light.
    assert_eq!(tone_of("Light-and-Dark"), Tone::Dark);
}

#[test]
fn tone_ignores_letter_case() {
    assert_eq!(tone_of("DARK"), Tone::Dark);
    assert_eq!(tone_of("Theme-WHITE"), Tone::Light);
}

#[test]
fn mirrored_variants() {
    assert!(mirrored_of("Bibata-Modern-Ice-Right"));
    assert!(mirrored_of("Nordzy-cursors-lefthand"));
    assert!(mirrored_of("Nordzy-cursors-RightHand"));
    assert!(mirrored_of("Foo-left-handed"));
    assert!(!mirrored_of("Bibata-Modern-Ice"));
    assert!(!mirrored_of("Bright-cursors"));
}

#[test]
fn classify_by_directories() {
    assert_eq!(classify(true, true, true), Some(Format::Both));
    assert_eq!(classify(true, true, false), Some(Format::Xcursor));
    assert_eq!(classify(true, false, false), Some(Format::Xcursor));
    assert_eq!(classify(false, true, true), Some(Format::Hyprcursor));
    assert_eq!(classify(false, true, false), None);
    assert_eq!(classify(false, false, true), None);
    assert_eq!(classify(false, false, false), None);
}

#[test]
fn manifest_prefers_hyprlang() {
    assert_eq!(manifest(true, true), Some("manifest.hl"));
    assert_eq!(manifest(true, false), Some("manifest.hl"));
    assert_eq!(manifest(false, true), Some("manifest.toml"));
    assert_eq!(manifest(false, false), None);
}

#[test]
fn read_field_from_index_theme() {
    let text = "[Icon Theme]\nName=Bibata\nComment=Material based cursor\nInherits=hicolor\n";
    assert_eq!(read_field(text, "Comment").as_deref(), Some("Material based cursor"));
    assert_eq!(read_field(text, "comment").as_deref(), Some("Material based cursor"));
    assert_eq!(read_field(text, "Missing"), None);
}

#[test]
fn read_field_from_manifest() {
    let text = "name = Rose Pine\ndescription = \"Soho vibes\"\nversion = 1\n";
    assert_eq!(read_field(text, "description").as_deref(), Some("Soho vibes"));
    // An empty value does not count; a later line may still give one.
    assert_eq!(read_field("Comment=\nComment = second", "Comment").as_deref(), Some("second"));
    assert_eq!(read_field("Comment=\"\"", "Comment"), None);
    assert_eq!(read_field("", "Comment"), None);
}

#[test]
fn describe_prefers_index_comment() {
    let index = Some("[Icon Theme]\nComment=From index\n".to_string());
    let man = Some("description = From manifest\n".to_string());
    assert_eq!(describe(&index, &man, Format::Both), "From index");
    assert_eq!(describe(&None, &man, Format::Hyprcursor), "From manifest");
    assert_eq!(describe(&None, &man, Format::Xcursor), "");
    assert_eq!(describe(&Some("[Icon Theme]\n".to_string()), &man, Format::Both), "From manifest");
    assert_eq!(describe(&None, &None, Format::Both), "");
}

#[test]
fn themes_sorted_deduplicated_and_filtered() {
    let mut skipped_dir = found("notadir", true, true, false);
    skipped_dir.is_dir = false;
    let mut with_comment = found("adwaita", false, true, false);
    with_comment.index_text = Some("[Icon Theme]\nComment=GNOME default\n".to_string());
    let list = vec![
        found("Bibata-Modern-Ice", true, false, true),
        skipped_dir,
        found("default", true, true, false),
        found("hicolor", false, true, false),
        found("locolor", false, true, false),
        found("empty-theme", false, false, false),
        found("bibata-modern-ice", false, true, false),
        with_comment,
        found("Catppuccin-Dark-Right", false, true, true),
    ];
    let out = themes(list);
    let names: Vec<&str> = out.iter().map(|t| t.name.as_str()).collect();
    assert_eq!(names, vec!["adwaita", "Bibata-Modern-Ice", "Catppuccin-Dark-Right"]);
    assert_eq!(out[0].comment, "GNOME default");
    assert_eq!(out[0].format, Format::Xcursor);
    assert!(!out[0].user_installed);
    // The user-installed theme shadows the system one of the same name.
    assert!(out[1].user_installed);
    assert_eq!(out[1].format, Format::Hyprcursor);
    assert_eq!(out[1].path, PathBuf::from("/icons/Bibata-Modern-Ice"));
    assert_eq!(out[2].format, Format::Both);
    assert_eq!(out[2].tone, Tone::Dark);
    assert!(out[2].mirrored);
}

#[test]
fn themes_of_nothing() {
    assert!(themes(Vec::new()).is_empty());
}

#[test]
fn search_path_user_directories_first() {
    let d = search_dirs(true);
    let got: Vec<(bool, &str, bool)> = d.iter().map(|x| (x.under_home, x.path, x.user_installed)).collect();
    assert_eq!(
        got,
        vec![
            (true, ".local/share/icons", true),
            (true, ".icons", true),
            (false, "/usr/share/icons", false),
            (false, "/usr/local/share/icons", false),
        ]
    );
    let d = search_dirs(false);
    let got: Vec<&str> = d.iter().map(|x| x.path).collect();
    assert_eq!(got, vec!["/usr/share/icons", "/usr/local/share/icons"]);
}
