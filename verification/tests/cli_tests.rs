use optination::cli::{
    check_line, check_report, check_summary, current_line, error_line, exit_code, list_line,
    missing_labels, missing_name_line, no_theme_line, parse_command, resolve, unknown_option_line,
    session_line, size_or_current, usage, Command,
};
use optination::render::Bitmap;
use optination::scan::{Format, Theme, Tone};
use std::path::PathBuf;

fn args(a: &[&str]) -> Vec<String> {
    a.iter().map(|s| s.to_string()).collect()
}

fn theme(name: &str, format: Format, user: bool) -> Theme {
    Theme {
        name: name.to_string(),
        path: PathBuf::from("/t"),
        format,
        comment: String::new(),
        user_installed: user,
        tone: Tone::Unstated,
        mirrored: false,
    }
}

fn some_bitmap() -> Option<Bitmap> {
    Some(Bitmap { width: 1, height: 1, rgba: vec![1, 1, 1, 255], premultiplied: true })
}

#[test]
fn no_arguments_open_the_picker() {
    assert!(parse_command(&args(&[])).is_none());
}

#[test]
fn simple_flags() {
    assert!(matches!(parse_command(&args(&["-h"])), Some(Command::Help)));
    assert!(matches!(parse_command(&args(&["--help", "x"])), Some(Command::Help)));
    assert!(matches!(parse_command(&args(&["-V"])), Some(Command::Version)));
    assert!(matches!(parse_command(&args(&["--version"])), Some(Command::Version)));
    assert!(matches!(parse_command(&args(&["--current"])), Some(Command::Current)));
    assert!(matches!(parse_command(&args(&["--list"])), Some(Command::List)));
}

#[test]
fn check_with_and_without_size() {
    assert!(matches!(parse_command(&args(&["--check"])), Some(Command::Check(None))));
    assert!(matches!(parse_command(&args(&["--check", "32"])), Some(Command::Check(Some(32)))));
    assert!(matches!(parse_command(&args(&["--check", "big"])), Some(Command::Check(None))));
}

#[test]
fn apply_and_save() {
    match parse_command(&args(&["--save", "Bibata", "30"])) {
        Some(Command::Apply { name, size, save }) => {
            assert_eq!(name, "Bibata");
            assert_eq!(size, Some(30));
            assert!(save);
        }
        _ => panic!("expected --save"),
    }
    match parse_command(&args(&["--apply", "Bibata"])) {
        Some(Command::Apply { name, size, save }) => {
            assert_eq!(name, "Bibata");
            assert_eq!(size, None);
            assert!(!save);
        }
        _ => panic!("expected --apply"),
    }
}

#[test]
fn apply_without_a_name() {
    match parse_command(&args(&["--apply"])) {
        Some(Command::MissingName(f)) => assert_eq!(f, "--apply"),
        _ => panic!("expected a missing name"),
    }
}

#[test]
fn unknown_option() {
    match parse_command(&args(&["--frobnicate"])) {
        Some(Command::Unknown(f)) => assert_eq!(f, "--frobnicate"),
        _ => panic!("expected an unknown option"),
    }
}

#[test]
fn sizes_default_to_current_then_24() {
    assert_eq!(size_or_current(Some(30), Some(24)), 30);
    assert_eq!(size_or_current(None, Some(28)), 28);
    assert_eq!(size_or_current(None, None), 24);
}

#[test]
fn resolve_ignores_letter_case() {
    let ts = vec![theme("Adwaita", Format::Xcursor, false), theme("Bibata-Modern-Ice", Format::Both, true)];
    assert_eq!(resolve(&ts, "bibata-modern-ice"), Some(1));
    assert_eq!(resolve(&ts, "ADWAITA"), Some(0));
    assert_eq!(resolve(&ts, "Nope"), None);
}

#[test]
fn usage_text() {
    let u = usage();
    assert!(u.starts_with("optination — pick a cursor theme, with previews\n"));
    assert!(u.contains("    optination --check [SIZE]      report which preview shapes each theme is missing\n"));
    assert!(u.ends_with("Sizes default to the current cursor size.\n"));
}

#[test]
fn list_line_columns() {
    let t = theme("Bibata", Format::Both, true);
    let expected = format!("Bibata{} X11 + hypr{}    7 shapes  (user)", " ".repeat(34), " ");
    assert_eq!(list_line(&t, 7), expected);
    let t = theme("Adwaita", Format::Xcursor, false);
    let expected = format!("Adwaita{} X11{}   42 shapes", " ".repeat(33), " ".repeat(8));
    assert_eq!(list_line(&t, 42), expected);
}

#[test]
fn missing_slot_labels() {
    let b = vec![some_bitmap(), None, some_bitmap(), some_bitmap(), None, some_bitmap()];
    assert_eq!(missing_labels(&b), vec!["text", "busy"]);
    let all = vec![some_bitmap(), some_bitmap(), some_bitmap(), some_bitmap(), some_bitmap(), some_bitmap()];
    assert!(missing_labels(&all).is_empty());
}

#[test]
fn check_lines() {
    assert_eq!(
        check_line("rose-pine-hyprcursor", &vec!["busy"]),
        "rose-pine-hyprcursor                     missing: busy"
    );
    assert_eq!(
        check_line("x", &vec!["text", "busy"]),
        format!("x{} missing: text, busy", " ".repeat(39))
    );
    assert_eq!(check_summary(1, 32), "1 theme(s) with an undrawable preview slot at 32px");
}

#[test]
fn current_lines() {
    assert_eq!(current_line(&Some("Bibata".to_string()), Some(24)), "Bibata 24");
    assert_eq!(current_line(&None, None), "unknown ?");
    assert_eq!(current_line(&None, Some(32)), "unknown 32");
}

#[test]
fn session_confirmation() {
    assert_eq!(session_line("Bibata", 24), "Bibata @ 24px (session only)");
}

#[test]
fn exit_codes() {
    let cmd = |a: &[&str]| parse_command(&args(a)).unwrap();
    assert_eq!(exit_code(&cmd(&["--list"]), false), 0);
    assert_eq!(exit_code(&cmd(&["--apply"]), false), 2);
    assert_eq!(exit_code(&cmd(&["--bogus"]), false), 2);
    assert_eq!(exit_code(&cmd(&["--apply", "X"]), true), 1);
    assert_eq!(exit_code(&cmd(&["--save", "X"]), false), 0);
}

#[test]
fn error_lines() {
    assert_eq!(error_line("hyprctl setcursor x 24: failed"), "optination: hyprctl setcursor x 24: failed");
    assert_eq!(missing_name_line("--save"), "optination: --save needs a theme name");
}

#[test]
fn quoted_error_lines() {
    assert_eq!(unknown_option_line("--bogus"), "optination: unknown option \"--bogus\"");
    assert_eq!(
        no_theme_line("Say \"hi\""),
        "optination: no cursor theme named \"Say \\\"hi\\\"\" (try --list)"
    );
}

#[test]
fn check_report_lists_incomplete_themes_and_counts() {
    let names = vec!["a".to_string(), "rose-pine-hyprcursor".to_string(), "c".to_string()];
    let missing = vec![vec![], vec!["busy"], vec!["text", "link"]];
    assert_eq!(
        check_report(&names, &missing, 32),
        vec![
            "rose-pine-hyprcursor                     missing: busy".to_string(),
            format!("c{} missing: text, link", " ".repeat(39)),
            "2 theme(s) with an undrawable preview slot at 32px".to_string(),
        ]
    );
    assert_eq!(
        check_report(&Vec::new(), &Vec::new(), 24),
        vec!["0 theme(s) with an undrawable preview slot at 24px".to_string()]
    );
}
