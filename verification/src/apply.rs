//! Applying a cursor choice to the running session, and making it stick.
//!
//! Three consumers, three mechanisms, none of which covers the others:
//!
//! * `hyprctl setcursor` — Hyprland's own pointer, effective immediately.
//! * `gsettings` — GTK apps and anything reading the org.gnome.desktop.interface
//!   schema over the settings portal.
//! * `hl.env` in the Hyprland Lua config — the environment new clients inherit,
//!   which is the only one that survives a reboot.
//!
//! This module decides what to run and what to write; running and writing
//! is left to the caller.
use crate::text::{
    append, chars_of, contains, eq_ignore_case, has, join, join_strings, lines, lines_of,
    parse_u32, parse_u32_of, same_ignoring_case, trim, trim_char, trimmed, trimmed_char, views, decimal, decimal_of, find, find_from, find_in, find_in_from, lacks, lacks_from, lemma_decimal_lacks, lemma_find, lemma_find_from, lemma_lacks_from, matches_at,
    slice_of, string_of, strip_end_by, trim_end, white_fn,
    trimmed_end,
};
use vstd::prelude::*;

verus! {

broadcast use vstd::string::group_string_axioms;

// -------------------------------------------------------------- commands ---

/// One program to run, with its arguments.
pub struct Invocation {
    pub program: String,
    pub args: Vec<String>,
}

/// The GTK interface schema that holds the cursor settings.
pub open spec fn interface_schema() -> Seq<char> {
    "org.gnome.desktop.interface"@
}

/// Live: Hyprland's pointer changes on the next frame, by
/// `hyprctl setcursor <theme> <size>`.
pub fn live(theme: &str, size: u32) -> (r: Invocation)
    ensures
        r.program@ == "hyprctl"@,
        views(r.args@) == seq!["setcursor"@, theme@, decimal(size as nat)],
{
    let mut args: Vec<String> = Vec::new();
    args.push("setcursor".to_owned());
    args.push(theme.to_owned());
    args.push(string_of(&decimal_of(size as u64)));
    assert(views(args@) == seq!["setcursor"@, theme@, decimal(size as nat)]);
    Invocation { program: "hyprctl".to_owned(), args }
}

/// Session: GTK/portal clients, until logout. Two `gsettings set` runs, the
/// second only worth making when the first succeeded.
pub fn session(theme: &str, size: u32) -> (r: Vec<Invocation>)
    ensures
        r.len() == 2,
        r[0].program@ == "gsettings"@,
        views(r[0].args@) == seq!["set"@, interface_schema(), "cursor-theme"@, theme@],
        r[1].program@ == "gsettings"@,
        views(r[1].args@) == seq!["set"@, interface_schema(), "cursor-size"@, decimal(size as nat)],
{
    let mut a: Vec<String> = Vec::new();
    a.push("set".to_owned());
    a.push("org.gnome.desktop.interface".to_owned());
    a.push("cursor-theme".to_owned());
    a.push(theme.to_owned());
    assert(views(a@) == seq!["set"@, interface_schema(), "cursor-theme"@, theme@]);
    let mut b: Vec<String> = Vec::new();
    b.push("set".to_owned());
    b.push("org.gnome.desktop.interface".to_owned());
    b.push("cursor-size".to_owned());
    b.push(string_of(&decimal_of(size as u64)));
    assert(views(b@) == seq!["set"@, interface_schema(), "cursor-size"@, decimal(size as nat)]);
    let mut r: Vec<Invocation> = Vec::new();
    r.push(Invocation { program: "gsettings".to_owned(), args: a });
    r.push(Invocation { program: "gsettings".to_owned(), args: b });
    r
}

/// Every run that applies a theme until logout, in order: the live
/// `hyprctl setcursor`, then the two `gsettings set` runs of [`session`].
pub fn session_runs(theme: &str, size: u32) -> (r: Vec<Invocation>)
    ensures
        r.len() == 3,
        r[0].program@ == "hyprctl"@,
        views(r[0].args@) == seq!["setcursor"@, theme@, decimal(size as nat)],
        r[1].program@ == "gsettings"@,
        views(r[1].args@) == seq!["set"@, interface_schema(), "cursor-theme"@, theme@],
        r[2].program@ == "gsettings"@,
        views(r[2].args@) == seq!["set"@, interface_schema(), "cursor-size"@, decimal(size as nat)],
{
    let mut r: Vec<Invocation> = Vec::new();
    r.push(live(theme, size));
    let mut rest = session(theme, size);
    let second = rest.remove(1);
    let first = rest.remove(0);
    r.push(first);
    r.push(second);
    r
}

/// What comes next in a sequence of runs that stops at the first failure:
/// run number `k`, write the configuration file, or finish with a result.
pub enum Step {
    Run(usize),
    Persist,
    Finished(Result<(), String>),
}

/// The first step through `count` runs, to be followed by writing the
/// configuration when `save` is set.
pub fn first_step(count: usize, save: bool) -> (r: Step)
    ensures
        count > 0 ==> (r matches Step::Run(k) && k == 0),
        count == 0 && save ==> r is Persist,
        count == 0 && !save ==> (r matches Step::Finished(Ok(()))),
{
    if count > 0 {
        Step::Run(0)
    } else if save {
        Step::Persist
    } else {
        Step::Finished(Ok(()))
    }
}

/// The step after run number `ran - 1` of `count` ended with `outcome`: a
/// failure ends the sequence with its message; a success moves on to the next
/// run, then to writing the configuration when `save` is set, then to the
/// end.
pub fn after_run(count: usize, ran: usize, outcome: Result<(), String>, save: bool) -> (r: Step)
    requires
        1 <= ran <= count,
    ensures
        match outcome {
            Err(e) => r matches Step::Finished(Err(m)) && m@ == e@,
            Ok(()) => if ran < count {
                r matches Step::Run(k) && k == ran
            } else if save {
                r is Persist
            } else {
                r matches Step::Finished(Ok(()))
            },
        },
{
    match outcome {
        Err(e) => Step::Finished(Err(e)),
        Ok(()) => if ran < count {
            Step::Run(ran)
        } else if save {
            Step::Persist
        } else {
            Step::Finished(Ok(()))
        },
    }
}

/// What a failed run reports: the command line, then what it said on
/// stderr, or `failed` when it said nothing.
pub open spec fn failure_text(program: Seq<char>, args: Seq<Seq<char>>, stderr: Seq<char>) -> Seq<
    char,
> {
    let msg = trim(stderr);
    program + " "@ + join(args, " "@) + ": "@ + (if msg.len() == 0 {
        "failed"@
    } else {
        msg
    })
}

/// The error message for a run of `inv` that exited unsuccessfully.
pub fn failure_message(inv: &Invocation, stderr: &str) -> (r: String)
    ensures
        r@ == failure_text(inv.program@, views(inv.args@), stderr@),
{
    let msg = trimmed(&chars_of(stderr));
    let mut out = chars_of(inv.program.as_str());
    append(&mut out, &chars_of(" "));
    append(&mut out, &chars_of(join_strings(&inv.args, " ").as_str()));
    append(&mut out, &chars_of(": "));
    if msg.len() == 0 {
        append(&mut out, &chars_of("failed"));
    } else {
        append(&mut out, &msg);
    }
    string_of(&out)
}

/// A value as `gsettings get` prints it: trimmed, then without the quotes
/// around a string; nothing when that leaves nothing.
pub open spec fn setting_value(out: Seq<char>) -> Option<Seq<char>> {
    let v = trim_char(trim(out), '\'');
    if v.len() > 0 {
        Some(v)
    } else {
        None
    }
}

fn setting_of(out: &Option<String>) -> (r: Option<Vec<char>>)
    ensures
        match out {
            Some(o) => match r {
                Some(v) => setting_value(o@) == Some(v@),
                None => setting_value(o@) is None,
            },
            None => r is None,
        },
{
    match out {
        Some(o) => {
            let v = trimmed_char(&trimmed(&chars_of(o.as_str())), '\'');
            if v.len() > 0 {
                Some(v)
            } else {
                None
            }
        },
        None => None,
    }
}

/// The active theme and size, from what `gsettings get` printed for
/// `cursor-theme` and for `cursor-size` (`None` where the run failed).
pub fn current(theme_output: Option<String>, size_output: Option<String>) -> (r: (
    Option<String>,
    Option<u32>,
))
    ensures
        match theme_output {
            Some(o) => match r.0 {
                Some(t) => setting_value(o@) == Some(t@),
                None => setting_value(o@) is None,
            },
            None => r.0 is None,
        },
        r.1 == (match size_output {
            Some(o) => match setting_value(o@) {
                Some(v) => parse_u32(v),
                None => None,
            },
            None => None,
        }),
{
    let theme = match setting_of(&theme_output) {
        Some(v) => Some(string_of(&v)),
        None => None,
    };
    let size = match setting_of(&size_output) {
        Some(v) => parse_u32_of(&v),
        None => None,
    };
    (theme, size)
}

/// What a reload with `hyprctl configerrors` printing `out` amounts to:
/// an error carrying the trimmed report, unless it is empty or says
/// `no errors.` in any letter case.
pub open spec fn reload_result(out: Seq<char>) -> Result<(), Seq<char>> {
    let errs = trim(out);
    if errs.len() > 0 && !eq_ignore_case(errs, "no errors."@) {
        Err("config reloaded with errors: "@ + errs)
    } else {
        Ok(())
    }
}

/// Judges the output of `hyprctl configerrors` after a save.
pub fn reload_outcome(out: &str) -> (r: Result<(), String>)
    ensures
        match r {
            Ok(()) => reload_result(out@) == Ok::<(), Seq<char>>(()),
            Err(m) => reload_result(out@) == Err::<(), Seq<char>>(m@),
        },
{
    let errs = trimmed(&chars_of(out));
    if errs.len() > 0 && !same_ignoring_case(&errs, &chars_of("no errors.")) {
        let mut m = chars_of("config reloaded with errors: ");
        append(&mut m, &errs);
        Err(string_of(&m))
    } else {
        Ok(())
    }
}

/// Whether some line of the old `hyprland.conf` still sets `XCURSOR_THEME`
/// or `XCURSOR_SIZE`. Harmless, since nothing reads that file any more, but
/// a lie about what the system is doing, so it is pointed out.
pub open spec fn mentions_xcursor(text: Seq<char>) -> bool {
    exists|i: int|
        0 <= i < lines(text).len() && (contains(#[trigger] lines(text)[i], "XCURSOR_THEME"@)
            || contains(lines(text)[i], "XCURSOR_SIZE"@))
}

/// Whether the text of the old `hyprland.conf` still sets the cursor.
pub fn stale_conf_text(text: &str) -> (r: bool)
    ensures
        r == mentions_xcursor(text@),
{
    let ls = lines_of(&chars_of(text));
    let theme_key = chars_of("XCURSOR_THEME");
    let size_key = chars_of("XCURSOR_SIZE");
    let ghost all = lines(text@);
    let mut i: usize = 0;
    while i < ls.len()
        invariant
            i <= ls.len(),
            ls@.map_values(|v: Vec<char>| v@) == all,
            all == lines(text@),
            theme_key@ == "XCURSOR_THEME"@,
            size_key@ == "XCURSOR_SIZE"@,
            forall|k: int|
                0 <= k < i ==> !contains(#[trigger] all[k], "XCURSOR_THEME"@) && !contains(
                    all[k],
                    "XCURSOR_SIZE"@,
                ),
        decreases ls.len() - i,
    {
        assert(all[i as int] == ls@[i as int]@);
        if has(&ls[i], &theme_key) || has(&ls[i], &size_key) {
            return true;
        }
        i += 1;
    }
    false
}

// ----------------------------------------------------------- managed block ---

/// First line of the block this program owns in `looknfeel.lua`.
pub open spec fn begin_marker() -> Seq<char> {
    "-- >>> optination (managed block) >>>"@
}

/// Last line of the block this program owns in `looknfeel.lua`.
pub open spec fn end_marker() -> Seq<char> {
    "-- <<< optination (managed block) <<<"@
}

/// What stands between the two markers.
pub open spec fn block_body(theme: Seq<char>, size: u32) -> Seq<char> {
    "\n-- Written by optination. Edit the theme here or re-run the app.\nhl.env(\"XCURSOR_THEME\", \""@
        + theme + "\")\nhl.env(\"XCURSOR_SIZE\", \""@ + decimal(size as nat)
        + "\")\nhl.env(\"HYPRCURSOR_THEME\", \""@ + theme + "\")\nhl.env(\"HYPRCURSOR_SIZE\", \""@
        + decimal(size as nat) + "\")\n"@
}

/// The managed block for a theme and size, with its final line ending.
pub open spec fn block_text(theme: Seq<char>, size: u32) -> Seq<char> {
    begin_marker() + block_body(theme, size) + end_marker() + seq!['\n']
}

/// The existing text made ready for a block appended after it: a missing
/// final line ending is added, then one blank line, unless the text is empty.
pub open spec fn padded(e: Seq<char>) -> Seq<char> {
    let a = if e.len() > 0 && e.last() != '\n' {
        e.push('\n')
    } else {
        e
    };
    if a.len() > 0 {
        a.push('\n')
    } else {
        a
    }
}

/// `looknfeel.lua` after a save: the span from the first begin marker to
/// the first end marker after it, when there is one, is replaced by the
/// block (without its final line ending); otherwise the block is appended.
pub open spec fn updated_text(e: Seq<char>, theme: Seq<char>, size: u32) -> Seq<char> {
    let block = block_text(theme, size);
    match find(e, begin_marker()) {
        Some(st) => match find_from(e, end_marker(), st + begin_marker().len()) {
            Some(en) => e.take(st as int) + trim_end(block) + e.skip(
                en + end_marker().len() as int,
            ),
            None => padded(e) + block,
        },
        None => padded(e) + block,
    }
}

fn begin_chars() -> (r: Vec<char>)
    ensures
        r@ == begin_marker(),
{
    chars_of("-- >>> optination (managed block) >>>")
}

fn end_chars() -> (r: Vec<char>)
    ensures
        r@ == end_marker(),
{
    chars_of("-- <<< optination (managed block) <<<")
}

fn block_chars(theme: &Vec<char>, size: u32) -> (r: Vec<char>)
    ensures
        r@ == block_text(theme@, size),
{
    let digits = decimal_of(size as u64);
    let mut out = begin_chars();
    append(
        &mut out,
        &chars_of(
            "\n-- Written by optination. Edit the theme here or re-run the app.\nhl.env(\"XCURSOR_THEME\", \"",
        ),
    );
    append(&mut out, theme);
    append(&mut out, &chars_of("\")\nhl.env(\"XCURSOR_SIZE\", \""));
    append(&mut out, &digits);
    append(&mut out, &chars_of("\")\nhl.env(\"HYPRCURSOR_THEME\", \""));
    append(&mut out, theme);
    append(&mut out, &chars_of("\")\nhl.env(\"HYPRCURSOR_SIZE\", \""));
    append(&mut out, &digits);
    append(&mut out, &chars_of("\")\n"));
    append(&mut out, &end_chars());
    out.push('\n');
    assert(out@ == block_text(theme@, size));
    out
}

/// The block that sets the cursor theme and size for every new client.
pub fn managed_block(theme: &str, size: u32) -> (r: String)
    ensures
        r@ == block_text(theme@, size),
{
    let t = chars_of(theme);
    string_of(&block_chars(&t, size))
}

/// The text with its final line ending and a blank line added, as
/// [`updated_text`] does before appending.
fn padded_chars(e: &Vec<char>) -> (r: Vec<char>)
    ensures
        r@ == padded(e@),
{
    let mut out = e.clone();
    if out.len() > 0 && out[out.len() - 1] != '\n' {
        out.push('\n');
    }
    if out.len() > 0 {
        out.push('\n');
    }
    out
}

/// The new contents of `looknfeel.lua`, given its current contents: the
/// managed block is rewritten in place, or appended when there is none.
pub fn updated_config(existing: &str, theme: &str, size: u32) -> (r: String)
    ensures
        r@ == updated_text(existing@, theme@, size),
{
    let e = chars_of(existing);
    let t = chars_of(theme);
    let b = begin_chars();
    let en = end_chars();
    let block = block_chars(&t, size);
    proof {
        lemma_find(e@, begin_marker());
        reveal_strlit("-- >>> optination (managed block) >>>");
        reveal_strlit("-- <<< optination (managed block) <<<");
    }
    let replaced = match find_in(&e, &b) {
        Some(st) => {
            assert(st + b.len() <= e.len());
            proof {
                lemma_find_from(e@, end_marker(), (st + b.len()) as nat);
            }
            match find_in_from(&e, &en, st + b.len()) {
                Some(end) => {
                    assert(end + en.len() <= e.len());
                    let mut out = slice_of(&e, 0, st);
                    append(&mut out, &trimmed_end(&block));
                    append(&mut out, &slice_of(&e, end + en.len(), e.len()));
                    Some(out)
                },
                None => None,
            }
        },
        None => None,
    };
    let out = match replaced {
        Some(out) => out,
        None => {
            let mut out = padded_chars(&e);
            append(&mut out, &block);
            out
        },
    };
    string_of(&out)
}

// ------------------------------------------------------------------ laws ---

/// Starts with `"-- "` and has no other `'-'`: the shape both markers share.
pub open spec fn dashed(p: Seq<char>) -> bool {
    &&& p.len() >= 3
    &&& p[0] == '-'
    &&& p[1] == '-'
    &&& p[2] == ' '
    &&& forall|j: int| 2 <= j < p.len() ==> p[j] != '-'
}

/// Neither marker occurs anywhere in `t`.
pub open spec fn free_of_markers(t: Seq<char>) -> bool {
    forall|j: int| !matches_at(t, begin_marker(), j) && !matches_at(t, end_marker(), j)
}

/// The configuration holds no begin marker, or an end marker follows its
/// first begin marker.
pub open spec fn markers_in_order(e: Seq<char>) -> bool {
    match find(e, begin_marker()) {
        Some(st) => find_from(e, end_marker(), st + begin_marker().len()) is Some,
        None => true,
    }
}

/// `p` occurs in `s` exactly once.
pub open spec fn occurs_once(s: Seq<char>, p: Seq<char>) -> bool {
    exists|j: int|
        matches_at(s, p, j) && forall|k: int| #[trigger] matches_at(s, p, k) ==> k == j
}

/// `p` occurs in `s` at most once.
pub open spec fn at_most_once(s: Seq<char>, p: Seq<char>) -> bool {
    forall|j: int, k: int| #[trigger] matches_at(s, p, j) && #[trigger] matches_at(s, p, k) ==> j == k
}

proof fn lemma_marker_facts()
    ensures
        begin_marker().len() == 37,
        end_marker().len() == 37,
        dashed(begin_marker()),
        dashed(end_marker()),
        begin_marker()[3] == '>',
        end_marker()[3] == '<',
        lacks(begin_marker(), '<'),
        lacks(end_marker(), '>'),
        lacks(begin_marker(), '\n'),
        lacks(end_marker(), '\n'),
        lacks(begin_marker(), '"'),
        lacks(end_marker(), '"'),
{
    reveal_strlit("-- >>> optination (managed block) >>>");
    reveal_strlit("-- <<< optination (managed block) <<<");
    assert(lacks_from(begin_marker(), '-', 2)) by {
        reveal_with_fuel(lacks_from, 40);
    }
    assert(lacks_from(end_marker(), '-', 2)) by {
        reveal_with_fuel(lacks_from, 40);
    }
    assert(lacks_from(begin_marker(), '<', 0)) by {
        reveal_with_fuel(lacks_from, 40);
    }
    assert(lacks_from(end_marker(), '>', 0)) by {
        reveal_with_fuel(lacks_from, 40);
    }
    assert(lacks_from(begin_marker(), '\n', 0)) by {
        reveal_with_fuel(lacks_from, 40);
    }
    assert(lacks_from(end_marker(), '\n', 0)) by {
        reveal_with_fuel(lacks_from, 40);
    }
    assert(lacks_from(begin_marker(), '"', 0)) by {
        reveal_with_fuel(lacks_from, 40);
    }
    assert(lacks_from(end_marker(), '"', 0)) by {
        reveal_with_fuel(lacks_from, 40);
    }
    lemma_lacks_from(begin_marker(), '-', 2);
    lemma_lacks_from(end_marker(), '-', 2);
    lemma_lacks_from(begin_marker(), '<', 0);
    lemma_lacks_from(end_marker(), '>', 0);
    lemma_lacks_from(begin_marker(), '\n', 0);
    lemma_lacks_from(end_marker(), '\n', 0);
    lemma_lacks_from(begin_marker(), '"', 0);
    lemma_lacks_from(end_marker(), '"', 0);
}

proof fn lemma_match_index(t: Seq<char>, p: Seq<char>, k: int, i: int)
    requires
        matches_at(t, p, k),
        0 <= i < p.len(),
    ensures
        t[k + i] == p[i],
{
    assert(t.subrange(k, k + p.len())[i] == p[i]);
}

/// Text without `'<'` and `'>'` holds no marker.
proof fn lemma_lacks_free(t: Seq<char>)
    requires
        lacks(t, '<'),
        lacks(t, '>'),
    ensures
        free_of_markers(t),
{
    lemma_marker_facts();
    assert forall|j: int|
        !matches_at(t, begin_marker(), j) && !matches_at(t, end_marker(), j) by {
        if matches_at(t, begin_marker(), j) {
            lemma_match_index(t, begin_marker(), j, 3);
        }
        if matches_at(t, end_marker(), j) {
            lemma_match_index(t, end_marker(), j, 3);
        }
    }
}

/// Two texts with no occurrence of `p`, joined where one of them has a
/// character `p` lacks, have none either.
proof fn lemma_concat_no_match(x: Seq<char>, y: Seq<char>, p: Seq<char>, c: char)
    requires
        forall|j: int| !matches_at(x, p, j),
        forall|j: int| !matches_at(y, p, j),
        lacks(p, c),
        (x.len() > 0 && x.last() == c) || (y.len() > 0 && y[0] == c),
    ensures
        forall|j: int| !matches_at(x + y, p, j),
{
    let s = x + y;
    assert forall|j: int| !matches_at(s, p, j) by {
        if matches_at(s, p, j) {
            if j + p.len() <= x.len() {
                assert(x.subrange(j, j + p.len()) == s.subrange(j, j + p.len()));
                assert(matches_at(x, p, j));
            } else if j >= x.len() {
                assert(y.subrange(j - x.len(), j - x.len() + p.len()) == s.subrange(j, j + p.len()));
                assert(matches_at(y, p, j - x.len()));
            } else if x.len() > 0 && x.last() == c {
                lemma_match_index(s, p, j, x.len() - 1 - j);
                assert(s[x.len() - 1] == c);
            } else {
                lemma_match_index(s, p, j, x.len() - j);
                assert(s[x.len() as int] == c);
            }
        }
    }
}

/// Two marker-free texts joined at a double quote are marker-free.
proof fn lemma_free_concat(x: Seq<char>, y: Seq<char>)
    requires
        free_of_markers(x),
        free_of_markers(y),
        (x.len() > 0 && x.last() == '"') || (y.len() > 0 && y[0] == '"'),
    ensures
        free_of_markers(x + y),
{
    lemma_marker_facts();
    lemma_concat_no_match(x, y, begin_marker(), '"');
    lemma_concat_no_match(x, y, end_marker(), '"');
}

/// The text between the markers holds no marker when the theme holds none:
/// the theme and the size stand between double quotes, which no marker
/// holds, and the rest of the text has neither `'<'` nor `'>'`.
proof fn lemma_body_free(theme: Seq<char>, size: u32)
    requires
        free_of_markers(theme),
    ensures
        free_of_markers(block_body(theme, size)),
        block_body(theme, size).len() > 0,
        block_body(theme, size)[0] == '\n',
        block_body(theme, size).last() == '\n',
{
    let p1 = "\n-- Written by optination. Edit the theme here or re-run the app.\nhl.env(\"XCURSOR_THEME\", \""@;
    let p2 = "\")\nhl.env(\"XCURSOR_SIZE\", \""@;
    let p3 = "\")\nhl.env(\"HYPRCURSOR_THEME\", \""@;
    let p4 = "\")\nhl.env(\"HYPRCURSOR_SIZE\", \""@;
    let p5 = "\")\n"@;
    reveal_strlit(
        "\n-- Written by optination. Edit the theme here or re-run the app.\nhl.env(\"XCURSOR_THEME\", \"",
    );
    reveal_strlit("\")\nhl.env(\"XCURSOR_SIZE\", \"");
    reveal_strlit("\")\nhl.env(\"HYPRCURSOR_THEME\", \"");
    reveal_strlit("\")\nhl.env(\"HYPRCURSOR_SIZE\", \"");
    reveal_strlit("\")\n");
    assert(lacks_from(p1, '<', 0)) by {
        reveal_with_fuel(lacks_from, 100);
    }
    assert(lacks_from(p1, '>', 0)) by {
        reveal_with_fuel(lacks_from, 100);
    }
    assert(lacks_from(p2, '<', 0) && lacks_from(p2, '>', 0)) by {
        reveal_with_fuel(lacks_from, 40);
    }
    assert(lacks_from(p3, '<', 0) && lacks_from(p3, '>', 0)) by {
        reveal_with_fuel(lacks_from, 40);
    }
    assert(lacks_from(p4, '<', 0) && lacks_from(p4, '>', 0)) by {
        reveal_with_fuel(lacks_from, 40);
    }
    assert(lacks_from(p5, '<', 0) && lacks_from(p5, '>', 0)) by {
        reveal_with_fuel(lacks_from, 10);
    }
    lemma_lacks_from(p1, '<', 0);
    lemma_lacks_from(p2, '<', 0);
    lemma_lacks_from(p3, '<', 0);
    lemma_lacks_from(p4, '<', 0);
    lemma_lacks_from(p5, '<', 0);
    lemma_lacks_from(p1, '>', 0);
    lemma_lacks_from(p2, '>', 0);
    lemma_lacks_from(p3, '>', 0);
    lemma_lacks_from(p4, '>', 0);
    lemma_lacks_from(p5, '>', 0);
    lemma_lacks_free(p1);
    lemma_lacks_free(p2);
    lemma_lacks_free(p3);
    lemma_lacks_free(p4);
    lemma_lacks_free(p5);
    let d = decimal(size as nat);
    lemma_decimal_lacks(size as nat, '<');
    lemma_decimal_lacks(size as nat, '>');
    lemma_lacks_free(d);
    assert(p1.last() == '"');
    assert(p2[0] == '"' && p2.last() == '"');
    assert(p3[0] == '"' && p3.last() == '"');
    assert(p4[0] == '"' && p4.last() == '"');
    assert(p5[0] == '"');
    let a1 = p1 + theme;
    lemma_free_concat(p1, theme);
    let a2 = a1 + p2;
    lemma_free_concat(a1, p2);
    let a3 = a2 + d;
    assert(a2.last() == p2.last());
    lemma_free_concat(a2, d);
    let a4 = a3 + p3;
    lemma_free_concat(a3, p3);
    let a5 = a4 + theme;
    assert(a4.last() == p3.last());
    lemma_free_concat(a4, theme);
    let a6 = a5 + p4;
    lemma_free_concat(a5, p4);
    let a7 = a6 + d;
    assert(a6.last() == p4.last());
    lemma_free_concat(a6, d);
    let a8 = a7 + p5;
    lemma_free_concat(a7, p5);
    assert(block_body(theme, size) == a8);
    assert(a8[0] == p1[0]);
    assert(a8.last() == p5.last());
}

/// Trimming the block's end removes just its final line ending.
proof fn lemma_trim_block(theme: Seq<char>, size: u32)
    ensures
        trim_end(block_text(theme, size)) == block_text(theme, size).drop_last(),
        block_text(theme, size).drop_last() == begin_marker() + block_body(theme, size)
            + end_marker(),
        block_text(theme, size) == trim_end(block_text(theme, size)).push('\n'),
{
    lemma_marker_facts();
    let b = block_text(theme, size);
    let inner = begin_marker() + block_body(theme, size) + end_marker();
    assert(b.drop_last() == inner);
    assert(b.last() == '\n');
    assert(inner.last() == end_marker()[36]);
    assert(end_marker()[36] == '<') by {
        reveal_strlit("-- <<< optination (managed block) <<<");
    }
    assert(strip_end_by(b, white_fn()) == strip_end_by(b.drop_last(), white_fn()));
    assert(strip_end_by(inner, white_fn()) == inner);
    assert(b == inner.push('\n'));
}

/// A dashed pattern cannot start strictly inside an occurrence of another.
proof fn lemma_no_overlap(t: Seq<char>, p: Seq<char>, q: Seq<char>, x: int, k: int)
    requires
        dashed(p),
        dashed(q),
        matches_at(t, p, x),
        k < x < k + q.len(),
    ensures
        !matches_at(t, q, k),
{
    if matches_at(t, q, k) {
        lemma_match_index(t, p, x, 0);
        lemma_match_index(t, q, k, x - k);
        assert(x - k == 1);
        lemma_match_index(t, p, x, 1);
        lemma_match_index(t, q, k, 2);
        assert(false);
    }
}

/// An occurrence at `k` with nothing matching from `i` up to it is the
/// first one from `i` on.
proof fn lemma_first_match_from(t: Seq<char>, p: Seq<char>, i: nat, k: int)
    requires
        i <= k,
        matches_at(t, p, k),
        forall|j: int| i <= j < k ==> !matches_at(t, p, j),
    ensures
        find_from(t, p, i) == Some(k as nat),
{
    lemma_find_from(t, p, i);
    match find_from(t, p, i) {
        Some(f) => {
            if (f as int) < k {
            } else if (f as int) > k {
            }
        },
        None => {},
    }
}

/// In text made of a prefix without a begin marker, a block and anything
/// after it, the first begin marker is the block's own, and the first end
/// marker after it closes the block.
proof fn lemma_markers_of_block(pre: Seq<char>, theme: Seq<char>, size: u32, post: Seq<char>)
    requires
        forall|j: int| !matches_at(pre, begin_marker(), j),
        free_of_markers(theme),
    ensures
        ({
            let blk = trim_end(block_text(theme, size));
            let m = pre + blk + post;
            &&& find(m, begin_marker()) == Some(pre.len())
            &&& find_from(m, end_marker(), pre.len() + 37) == Some(
                (pre.len() + blk.len() - 37) as nat,
            )
            &&& blk.len() >= 75
        }),
{
    lemma_marker_facts();
    lemma_trim_block(theme, size);
    lemma_body_free(theme, size);
    let bm = begin_marker();
    let em = end_marker();
    let body = block_body(theme, size);
    let head = bm + body;
    let blk = trim_end(block_text(theme, size));
    assert(blk == head + em);
    let m = pre + blk + post;
    let n = pre.len() as int;
    let r = head.len() as int;
    assert(m.subrange(n, n + 37) == bm) by {
        assert forall|i: int| 0 <= i < 37 implies m.subrange(n, n + 37)[i] == bm[i] by {
            assert(m[n + i] == blk[i]);
            assert(blk[i] == head[i]);
        }
    }
    assert(m.subrange(n + r, n + r + 37) == em) by {
        assert forall|i: int| 0 <= i < 37 implies m.subrange(n + r, n + r + 37)[i] == em[i] by {
            assert(m[n + r + i] == blk[r + i]);
        }
    }
    assert(matches_at(m, bm, n));
    assert(matches_at(m, em, n + r));
    assert forall|j: int| 0 <= j < n implies !matches_at(m, bm, j) by {
        if j + 37 <= n {
            if matches_at(m, bm, j) {
                assert(pre.subrange(j, j + 37) == m.subrange(j, j + 37));
                assert(matches_at(pre, bm, j));
            }
        } else {
            lemma_no_overlap(m, bm, bm, n, j);
        }
    }
    lemma_first_match_from(m, bm, 0, n);
    assert forall|j: int| n + 37 <= j < n + r implies !matches_at(m, em, j) by {
        if matches_at(m, em, j) {
            if j + 37 <= n + r {
                assert(body.subrange(j - n - 37, j - n) == m.subrange(j, j + 37)) by {
                    assert forall|i: int| 0 <= i < 37 implies #[trigger] body.subrange(j - n - 37, j - n)[i]
                        == m.subrange(j, j + 37)[i] by {
                        assert(m[j + i] == blk[j - n + i]);
                        assert(blk[j - n + i] == head[j - n + i]);
                    }
                }
                assert(matches_at(body, em, j - n - 37));
            } else {
                lemma_match_index(m, em, j, n + r - 1 - j);
                assert(m[n + r - 1] == blk[r - 1]);
                assert(blk[r - 1] == head[r - 1]);
                assert(head[r - 1] == body.last());
            }
        }
    }
    lemma_first_match_from(m, em, (n + 37) as nat, n + r);
}

/// In such text, with no begin marker after the block either, the block's
/// begin marker is the only one.
proof fn lemma_one_begin(pre: Seq<char>, theme: Seq<char>, size: u32, post: Seq<char>)
    requires
        forall|j: int| !matches_at(pre, begin_marker(), j),
        forall|j: int| !matches_at(post, begin_marker(), j),
        free_of_markers(theme),
    ensures
        ({
            let m = pre + trim_end(block_text(theme, size)) + post;
            forall|j: int| matches_at(m, begin_marker(), j) ==> j == pre.len()
        }),
{
    lemma_marker_facts();
    lemma_trim_block(theme, size);
    lemma_body_free(theme, size);
    lemma_markers_of_block(pre, theme, size, post);
    let bm = begin_marker();
    let em = end_marker();
    let body = block_body(theme, size);
    let head = bm + body;
    let blk = trim_end(block_text(theme, size));
    assert(blk == head + em);
    let m = pre + blk + post;
    let n = pre.len() as int;
    let r = head.len() as int;
    lemma_find(m, bm);
    lemma_find_from(m, em, (n + 37) as nat);
    assert(matches_at(m, bm, n));
    assert(matches_at(m, em, n + r));
    assert forall|j: int| matches_at(m, bm, j) implies j == n by {
        if j < n {
        } else if n < j < n + 37 {
            lemma_no_overlap(m, bm, bm, j, n);
        } else if n + 37 <= j && j + 37 <= n + r {
            assert(body.subrange(j - n - 37, j - n) == m.subrange(j, j + 37)) by {
                assert forall|i: int| 0 <= i < 37 implies #[trigger] body.subrange(j - n - 37, j - n)[i]
                    == m.subrange(j, j + 37)[i] by {
                    assert(m[j + i] == blk[j - n + i]);
                    assert(blk[j - n + i] == head[j - n + i]);
                }
            }
            assert(matches_at(body, bm, j - n - 37));
        } else if n + 37 <= j < n + r {
            lemma_match_index(m, bm, j, n + r - 1 - j);
            assert(m[n + r - 1] == blk[r - 1]);
            assert(blk[r - 1] == head[r - 1]);
            assert(head[r - 1] == body.last());
        } else if j == n + r {
            lemma_match_index(m, bm, j, 3);
            lemma_match_index(m, em, j, 3);
        } else if n + r < j < n + r + 37 {
            lemma_no_overlap(m, bm, em, j, n + r);
        } else if j >= n + r + 37 {
            let q = j - n - blk.len();
            assert(post.subrange(q, q + 37) == m.subrange(j, j + 37)) by {
                assert forall|i: int| 0 <= i < 37 implies #[trigger] post.subrange(q, q + 37)[i] == m.subrange(
                    j,
                    j + 37,
                )[i] by {
                    assert(m[j + i] == post[q + i]);
                }
            }
            assert(matches_at(post, bm, q));
        }
    }
}

/// The text before the first begin marker holds none.
proof fn lemma_prefix_no_begin(e: Seq<char>, st: nat)
    requires
        find(e, begin_marker()) == Some(st),
    ensures
        forall|j: int| !matches_at(e.take(st as int), begin_marker(), j),
{
    lemma_find(e, begin_marker());
    lemma_marker_facts();
    let pre = e.take(st as int);
    assert forall|j: int| !matches_at(pre, begin_marker(), j) by {
        if matches_at(pre, begin_marker(), j) {
            assert(e.subrange(j, j + 37) == pre.subrange(j, j + 37));
            assert(matches_at(e, begin_marker(), j));
        }
    }
}

/// Text without a begin marker still has none once padded with line
/// endings.
proof fn lemma_padded_no_begin(e: Seq<char>)
    requires
        find(e, begin_marker()) is None,
    ensures
        forall|j: int| !matches_at(padded(e), begin_marker(), j),
{
    lemma_find(e, begin_marker());
    lemma_marker_facts();
    let p = padded(e);
    assert(p.take(e.len() as int) == e);
    assert forall|i: int| e.len() <= i < p.len() implies p[i] == '\n' by {}
    assert forall|j: int| !matches_at(p, begin_marker(), j) by {
        if matches_at(p, begin_marker(), j) {
            if j + 37 <= e.len() {
                assert(e.subrange(j, j + 37) == p.subrange(j, j + 37));
                assert(matches_at(e, begin_marker(), j));
            } else {
                lemma_match_index(p, begin_marker(), j, 36);
                assert(p[j + 36] == '\n');
            }
        }
    }
}

/// The parts a save puts together: the text before the block, and the text
/// after it.
spec fn save_parts(e: Seq<char>) -> (Seq<char>, Seq<char>) {
    match find(e, begin_marker()) {
        Some(st) => match find_from(e, end_marker(), st + begin_marker().len()) {
            Some(en) => (e.take(st as int), e.skip(en + end_marker().len() as int)),
            None => (padded(e), seq!['\n']),
        },
        None => (padded(e), seq!['\n']),
    }
}

/// A save puts the trimmed block between the two parts.
proof fn lemma_save_parts(e: Seq<char>, theme: Seq<char>, size: u32)
    ensures
        updated_text(e, theme, size) == save_parts(e).0 + trim_end(block_text(theme, size))
            + save_parts(e).1,
{
    lemma_trim_block(theme, size);
}

/// When the markers are in order, the part before the block holds no begin
/// marker.
proof fn lemma_save_prefix(e: Seq<char>)
    requires
        markers_in_order(e),
    ensures
        forall|j: int| !matches_at(save_parts(e).0, begin_marker(), j),
{
    match find(e, begin_marker()) {
        Some(st) => {
            lemma_prefix_no_begin(e, st);
        },
        None => {
            lemma_padded_no_begin(e);
        },
    }
}

/// A save after an earlier one, once the markers are in order: the block the
/// earlier save wrote is what the later one finds and replaces.
proof fn lemma_resave(e: Seq<char>, theme1: Seq<char>, size1: u32, theme2: Seq<char>, size2: u32)
    requires
        markers_in_order(e),
        free_of_markers(theme1),
    ensures
        save_parts(updated_text(e, theme1, size1)) == save_parts(e),
        markers_in_order(updated_text(e, theme1, size1)),
{
    lemma_marker_facts();
    lemma_save_parts(e, theme1, size1);
    lemma_save_prefix(e);
    let pre = save_parts(e).0;
    let post = save_parts(e).1;
    let blk = trim_end(block_text(theme1, size1));
    let m = pre + blk + post;
    lemma_markers_of_block(pre, theme1, size1, post);
    let n = pre.len() as int;
    let r = blk.len() - 37;
    assert(m.take(n) == pre);
    assert(m.skip(n + r + 37) == post);
}

/// Saving rewrites the managed block in place: a save after an earlier save
/// leaves the file exactly as the later save alone would have, so blocks
/// never pile up. This holds for every configuration that holds no begin
/// marker or an end marker after its first one, when the earlier theme name
/// holds no marker.
pub proof fn law_save_replaces_block(
    e: Seq<char>,
    theme1: Seq<char>,
    size1: u32,
    theme2: Seq<char>,
    size2: u32,
)
    requires
        markers_in_order(e),
        free_of_markers(theme1),
    ensures
        updated_text(updated_text(e, theme1, size1), theme2, size2) == updated_text(
            e,
            theme2,
            size2,
        ),
{
    lemma_resave(e, theme1, size1, theme2, size2);
    lemma_save_parts(updated_text(e, theme1, size1), theme2, size2);
    lemma_save_parts(e, theme2, size2);
}

/// Saving the same theme and size twice changes nothing the second time.
pub proof fn law_save_is_idempotent(e: Seq<char>, theme: Seq<char>, size: u32)
    requires
        markers_in_order(e),
        free_of_markers(theme),
    ensures
        updated_text(updated_text(e, theme, size), theme, size) == updated_text(e, theme, size),
{
    law_save_replaces_block(e, theme, size, theme, size);
}

/// Never duplicated: a save of a theme name without markers, into a file with
/// at most one begin marker and an end marker after it if it has one, leaves
/// the begin marker exactly once, and the file again in that shape.
pub proof fn law_save_leaves_one_block(e: Seq<char>, theme: Seq<char>, size: u32)
    requires
        markers_in_order(e),
        at_most_once(e, begin_marker()),
        free_of_markers(theme),
    ensures
        occurs_once(updated_text(e, theme, size), begin_marker()),
        markers_in_order(updated_text(e, theme, size)),
{
    lemma_marker_facts();
    lemma_save_parts(e, theme, size);
    lemma_save_prefix(e);
    lemma_resave(e, theme, size, theme, size);
    let pre = save_parts(e).0;
    let post = save_parts(e).1;
    let m = updated_text(e, theme, size);
    assert forall|j: int| !matches_at(post, begin_marker(), j) by {
        if matches_at(post, begin_marker(), j) {
            match find(e, begin_marker()) {
                Some(st) => {
                    lemma_find(e, begin_marker());
                    let en = find_from(e, end_marker(), st + 37).unwrap();
                    lemma_find_from(e, end_marker(), (st + 37) as nat);
                    let q = en + 37 + j;
                    assert(e.subrange(q, q + 37) == post.subrange(j, j + 37));
                    assert(matches_at(e, begin_marker(), q));
                    assert(matches_at(e, begin_marker(), st as int));
                },
                None => {
                    assert(post.len() == 1);
                },
            }
        }
    }
    lemma_one_begin(pre, theme, size, post);
    lemma_markers_of_block(pre, theme, size, post);
    lemma_find(m, begin_marker());
    assert(matches_at(m, begin_marker(), pre.len() as int));
}

/// A save always leaves the block for the saved theme and size in the file,
/// whatever the file held before.
pub proof fn law_save_writes_the_block(e: Seq<char>, theme: Seq<char>, size: u32)
    ensures
        contains(updated_text(e, theme, size), trim_end(block_text(theme, size))),
{
    lemma_save_parts(e, theme, size);
    let blk = trim_end(block_text(theme, size));
    let u = updated_text(e, theme, size);
    let k = save_parts(e).0.len() as int;
    assert(u.subrange(k, k + blk.len()) == blk);
    assert(matches_at(u, blk, k));
    lemma_find(u, blk);
}

} // verus!
