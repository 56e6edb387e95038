use optination::apply::{
    after_run, current, failure_message, first_step, live, managed_block, reload_outcome, session,
    session_runs, stale_conf_text, updated_config, Invocation, Step,
};

fn block(theme: &str, size: u32) -> String {
    let mut s = String::new();
    s.push_str("-- >>> optination (managed block) >>>\n");
    s.push_str("-- Written by optination. Edit the theme here or re-run the app.\n");
    s.push_str(&format!("hl.env(\"XCURSOR_THEME\", \"{}\")\n", theme));
    s.push_str(&format!("hl.env(\"XCURSOR_SIZE\", \"{}\")\n", size));
    s.push_str(&format!("hl.env(\"HYPRCURSOR_THEME\", \"{}\")\n", theme));
    s.push_str(&format!("hl.env(\"HYPRCURSOR_SIZE\", \"{}\")\n", size));
    s.push_str("-- <<< optination (managed block) <<<\n");
    s
}

#[test]
fn live_runs_hyprctl_setcursor() {
    let inv = live("Bibata-Modern-Ice", 24);
    assert_eq!(inv.program, "hyprctl");
    assert_eq!(inv.args, vec!["setcursor", "Bibata-Modern-Ice", "24"]);
}

#[test]
fn session_sets_theme_then_size() {
    let runs = session("Bibata-Modern-Ice", 30);
    assert_eq!(runs.len(), 2);
    assert_eq!(runs[0].program, "gsettings");
    assert_eq!(
        runs[0].args,
        vec!["set", "org.gnome.desktop.interface", "cursor-theme", "Bibata-Modern-Ice"]
    );
    assert_eq!(runs[1].program, "gsettings");
    assert_eq!(runs[1].args, vec!["set", "org.gnome.desktop.interface", "cursor-size", "30"]);
}

#[test]
fn failure_message_quotes_stderr_or_says_failed() {
    let inv = Invocation {
        program: "gsettings".to_string(),
        args: vec!["set".to_string(), "x".to_string(), "y".to_string()],
    };
    assert_eq!(failure_message(&inv, "  No such schema \n"), "gsettings set x y: No such schema");
    assert_eq!(failure_message(&inv, " \n"), "gsettings set x y: failed");
    assert_eq!(failure_message(&inv, ""), "gsettings set x y: failed");
}

#[test]
fn current_reads_gsettings_output() {
    let (theme, size) =
        current(Some("'Bibata-Modern-Ice'\n".to_string()), Some("24\n".to_string()));
    assert_eq!(theme.as_deref(), Some("Bibata-Modern-Ice"));
    assert_eq!(size, Some(24));
}

#[test]
fn current_without_values() {
    let (theme, size) = current(None, None);
    assert_eq!(theme, None);
    assert_eq!(size, None);
    let (theme, size) = current(Some("''\n".to_string()), Some("'big'\n".to_string()));
    assert_eq!(theme, None);
    assert_eq!(size, None);
    let (_, size) = current(None, Some("99999999999\n".to_string()));
    assert_eq!(size, None);
}

#[test]
fn reload_outcome_accepts_no_errors() {
    assert_eq!(reload_outcome("no errors.\n"), Ok(()));
    assert_eq!(reload_outcome("  No Errors.  "), Ok(()));
    assert_eq!(reload_outcome(""), Ok(()));
    assert_eq!(reload_outcome("\n\n"), Ok(()));
}

#[test]
fn reload_outcome_reports_errors() {
    assert_eq!(
        reload_outcome("looknfeel.lua:3: unexpected symbol\n"),
        Err("config reloaded with errors: looknfeel.lua:3: unexpected symbol".to_string())
    );
}

#[test]
fn stale_conf_spots_old_env_lines() {
    assert!(stale_conf_text("monitor=,preferred,auto,1\nenv = XCURSOR_THEME,Bibata\n"));
    assert!(stale_conf_text("env = XCURSOR_SIZE,24"));
    assert!(!stale_conf_text("monitor=,preferred,auto,1\nenv = HYPRCURSOR_THEME,x\n"));
    assert!(!stale_conf_text(""));
}

#[test]
fn managed_block_text() {
    let expected = "-- >>> optination (managed block) >>>\n\
-- Written by optination. Edit the theme here or re-run the app.\n\
hl.env(\"XCURSOR_THEME\", \"Bibata-Modern-Ice\")\n\
hl.env(\"XCURSOR_SIZE\", \"30\")\n\
hl.env(\"HYPRCURSOR_THEME\", \"Bibata-Modern-Ice\")\n\
hl.env(\"HYPRCURSOR_SIZE\", \"30\")\n\
-- <<< optination (managed block) <<<\n";
    assert_eq!(managed_block("Bibata-Modern-Ice", 30), expected);
}

#[test]
fn save_into_empty_file_is_the_block() {
    assert_eq!(updated_config("", "Bibata", 24), block("Bibata", 24));
}

#[test]
fn save_appends_after_a_blank_line() {
    assert_eq!(
        updated_config("general = 1", "Bibata", 24),
        format!("general = 1\n\n{}", block("Bibata", 24))
    );
    assert_eq!(
        updated_config("general = 1\n", "Bibata", 24),
        format!("general = 1\n\n{}", block("Bibata", 24))
    );
}

#[test]
fn save_rewrites_block_in_place() {
    let existing = format!("top = 1\n{}bottom = 2\n", block("Old", 16));
    assert_eq!(
        updated_config(&existing, "New", 48),
        format!("top = 1\n{}bottom = 2\n", block("New", 48))
    );
}

#[test]
fn save_appends_when_no_end_marker_follows() {
    let existing = "-- <<< optination (managed block) <<<\n-- >>> optination (managed block) >>>\n";
    assert_eq!(
        updated_config(existing, "T", 24),
        format!("{}\n{}", existing, block("T", 24))
    );
}

#[test]
fn save_skips_a_stray_end_marker() {
    let stray = "-- <<< optination (managed block) <<<\n";
    let once = updated_config(stray, "A", 24);
    assert_eq!(once, format!("{}\n{}", stray, block("A", 24)));
    let twice = updated_config(&once, "B", 32);
    assert_eq!(twice, format!("{}\n{}", stray, block("B", 32)));
    assert_eq!(twice.matches("-- >>> optination (managed block) >>>").count(), 1);
}

#[test]
fn save_finds_the_end_after_the_begin() {
    let existing = format!(
        "-- <<< optination (managed block) <<<\nkeep\n{}tail\n",
        block("Old", 16)
    );
    assert_eq!(
        updated_config(&existing, "New", 48),
        format!("-- <<< optination (managed block) <<<\nkeep\n{}tail\n", block("New", 48))
    );
}

#[test]
fn save_twice_never_duplicates() {
    let once = updated_config("general = 1\n", "A", 24);
    let twice = updated_config(&once, "B", 32);
    assert_eq!(twice, updated_config("general = 1\n", "B", 32));
    assert_eq!(twice.matches("-- >>> optination (managed block) >>>").count(), 1);
    assert_eq!(updated_config(&once, "A", 24), once);
}

#[test]
fn saved_file_holds_the_block() {
    let out = updated_config("x\n-- >>> optination (managed block) >>>\nstale\n", "C", 40);
    assert!(out.contains(block("C", 40).trim_end()));
}

#[test]
fn session_runs_live_first() {
    let runs = session_runs("Bibata", 24);
    let got: Vec<(String, Vec<String>)> =
        runs.into_iter().map(|r| (r.program, r.args)).collect();
    assert_eq!(got[0], ("hyprctl".to_string(), vec!["setcursor".to_string(), "Bibata".to_string(), "24".to_string()]));
    assert_eq!(got[1].1[2], "cursor-theme");
    assert_eq!(got[2].1[2], "cursor-size");
    assert_eq!(got.len(), 3);
}

#[test]
fn steps_stop_at_the_first_failure() {
    assert!(matches!(first_step(3, false), Step::Run(0)));
    assert!(matches!(first_step(0, true), Step::Persist));
    assert!(matches!(first_step(0, false), Step::Finished(Ok(()))));
    assert!(matches!(after_run(3, 1, Ok(()), false), Step::Run(1)));
    assert!(matches!(after_run(3, 3, Ok(()), false), Step::Finished(Ok(()))));
    assert!(matches!(after_run(3, 3, Ok(()), true), Step::Persist));
    match after_run(3, 1, Err("hyprctl setcursor x 24: failed".to_string()), true) {
        Step::Finished(Err(m)) => assert_eq!(m, "hyprctl setcursor x 24: failed"),
        _ => panic!("a failure ends the sequence"),
    }
}
