//! A small non-interactive surface, so the GUI is not the only way in.
//!
//! The thing being replaced was a shell function, and shell functions get
//! called from other scripts. Keeping `--list` / `--apply` means nothing that
//! used the old one has to grow a display to keep working. This module reads
//! the arguments and words the output; running and printing is the caller's.
use crate::render::{slot_table, slot_view, slots, Bitmap, Slot};
use crate::scan::Theme;
use crate::text::{
    append, chars_of, decimal, decimal_of, eq_ignore_case, join, pad_end, pad_start, padded_end,
    padded_start, parse_u32, parse_u32_of, same_chars, same_ignoring_case, string_of, views,
};
use vstd::prelude::*;

verus! {

broadcast use vstd::string::group_string_axioms;

/// What the arguments ask for.
pub enum Command {
    Help,
    Version,
    Current,
    List,
    /// `--check [SIZE]`; the size when one was given and parses.
    Check(Option<u32>),
    /// `--apply` or `--save` (`save` set) with a theme name and the size
    /// when one was given and parses.
    Apply { name: String, size: Option<u32>, save: bool },
    /// `--apply` or `--save` without a theme name; the flag as given.
    MissingName(String),
    /// Anything else; the flag as given.
    Unknown(String),
}

pub enum CommandView {
    Help,
    Version,
    Current,
    List,
    Check(Option<u32>),
    Apply(Seq<char>, Option<u32>, bool),
    MissingName(Seq<char>),
    Unknown(Seq<char>),
}

impl View for Command {
    type V = CommandView;

    open spec fn view(&self) -> CommandView {
        match self {
            Command::Help => CommandView::Help,
            Command::Version => CommandView::Version,
            Command::Current => CommandView::Current,
            Command::List => CommandView::List,
            Command::Check(s) => CommandView::Check(*s),
            Command::Apply { name, size, save } => CommandView::Apply(name@, *size, *save),
            Command::MissingName(f) => CommandView::MissingName(f@),
            Command::Unknown(f) => CommandView::Unknown(f@),
        }
    }
}

/// The size the arguments after a flag give: the first of them, when it
/// parses as a number.
pub open spec fn size_in(rest: Seq<Seq<char>>) -> Option<u32> {
    if rest.len() > 0 {
        parse_u32(rest[0])
    } else {
        None
    }
}

/// What the command-line arguments (without the program name) ask for;
/// `None` when there are none, which means the picker.
pub open spec fn command_of(args: Seq<Seq<char>>) -> Option<CommandView> {
    if args.len() == 0 {
        None
    } else {
        let flag = args[0];
        let rest = args.drop_first();
        Some(
            if flag == "-h"@ || flag == "--help"@ {
                CommandView::Help
            } else if flag == "-V"@ || flag == "--version"@ {
                CommandView::Version
            } else if flag == "--current"@ {
                CommandView::Current
            } else if flag == "--list"@ {
                CommandView::List
            } else if flag == "--check"@ {
                CommandView::Check(size_in(rest))
            } else if flag == "--apply"@ || flag == "--save"@ {
                if rest.len() == 0 {
                    CommandView::MissingName(flag)
                } else {
                    CommandView::Apply(rest[0], size_in(rest.drop_first()), flag == "--save"@)
                }
            } else {
                CommandView::Unknown(flag)
            },
        )
    }
}

proof fn lemma_flags_differ()
    ensures
        "--save"@ != "--apply"@,
        "--save"@ != "--help"@,
        "--save"@ != "--list"@,
        "--save"@ != "--check"@,
        "--save"@ != "--current"@,
        "--save"@ != "--version"@,
        "--save"@ != "-h"@,
        "--save"@ != "-V"@,
        "--apply"@ != "--help"@,
        "--apply"@ != "--list"@,
        "--apply"@ != "--check"@,
        "--apply"@ != "--current"@,
        "--apply"@ != "--version"@,
        "--apply"@ != "-h"@,
        "--apply"@ != "-V"@,
        "--check"@ != "--help"@,
        "--check"@ != "--list"@,
        "--check"@ != "--current"@,
        "--check"@ != "--version"@,
        "--check"@ != "-h"@,
        "--check"@ != "-V"@,
        "--list"@ != "--help"@,
        "--list"@ != "--current"@,
        "--list"@ != "--version"@,
        "--list"@ != "-h"@,
        "--list"@ != "-V"@,
        "--current"@ != "--help"@,
        "--current"@ != "--version"@,
        "--current"@ != "-h"@,
        "--current"@ != "-V"@,
        "--version"@ != "--help"@,
        "--version"@ != "-h"@,
        "-V"@ != "--help"@,
        "-V"@ != "-h"@,
{
    reveal_strlit("--save");
    reveal_strlit("--apply");
    reveal_strlit("--help");
    reveal_strlit("--list");
    reveal_strlit("--check");
    reveal_strlit("--current");
    reveal_strlit("--version");
    reveal_strlit("-h");
    reveal_strlit("-V");
    assert("--save"@[2] != "--help"@[2]);
    assert("--save"@[2] != "--list"@[2]);
    assert("--list"@[2] != "--help"@[2]);
    assert("--apply"@[2] != "--check"@[2]);
    assert("--current"@[2] != "--version"@[2]);
    assert("-V"@[1] != "-h"@[1]);
    assert("--check"@.len() != "--current"@.len());
    assert("--check"@.len() != "--version"@.len());
    assert("--check"@.len() != "--help"@.len());
    assert("--check"@.len() != "--list"@.len());
    assert("--apply"@.len() != "--current"@.len());
    assert("--apply"@.len() != "--version"@.len());
    assert("--apply"@.len() != "--help"@.len());
    assert("--apply"@.len() != "--list"@.len());
    assert("--apply"@.len() != "--save"@.len());
    assert("--save"@.len() != "--check"@.len());
    assert("--save"@.len() != "--current"@.len());
    assert("--save"@.len() != "--version"@.len());
    assert("--list"@.len() != "--current"@.len());
    assert("--list"@.len() != "--version"@.len());
    assert("--current"@.len() != "--help"@.len());
    assert("--version"@.len() != "--help"@.len());
}

/// `--save` and `--apply` with a theme name: the theme to apply is the
/// argument after the flag, the size the one after that when it is a number,
/// and the choice is written to the configuration exactly for `--save`.
pub proof fn law_apply_and_save(args: Seq<Seq<char>>)
    requires
        args.len() >= 2,
        args[0] == "--save"@ || args[0] == "--apply"@,
    ensures
        command_of(args) == Some(
            CommandView::Apply(
                args[1],
                if args.len() >= 3 {
                    parse_u32(args[2])
                } else {
                    None
                },
                args[0] == "--save"@,
            ),
        ),
        args[0] == "--save"@ ==> command_of(args) matches Some(CommandView::Apply(_, _, true)),
        args[0] == "--apply"@ ==> command_of(args) matches Some(CommandView::Apply(_, _, false)),
{
    lemma_flags_differ();
    let rest = args.drop_first();
    assert(rest[0] == args[1]);
    if args.len() >= 3 {
        assert(rest.drop_first()[0] == args[2]);
    }
}

/// What each flag asks for: help, version, the current setting, the list,
/// the check at the size after it when that is a number, and `--apply` or
/// `--save` without a theme name reported as such. No arguments open the
/// picker; any other first argument is an unknown option.
pub proof fn law_flags(args: Seq<Seq<char>>)
    ensures
        args.len() == 0 ==> command_of(args) is None,
        args.len() >= 1 && (args[0] == "-h"@ || args[0] == "--help"@) ==> command_of(args)
            == Some(CommandView::Help),
        args.len() >= 1 && (args[0] == "-V"@ || args[0] == "--version"@) ==> command_of(args)
            == Some(CommandView::Version),
        args.len() >= 1 && args[0] == "--current"@ ==> command_of(args) == Some(
            CommandView::Current,
        ),
        args.len() >= 1 && args[0] == "--list"@ ==> command_of(args) == Some(CommandView::List),
        args.len() >= 1 && args[0] == "--check"@ ==> command_of(args) == Some(
            CommandView::Check(
                if args.len() >= 2 {
                    parse_u32(args[1])
                } else {
                    None
                },
            ),
        ),
        args.len() == 1 && (args[0] == "--apply"@ || args[0] == "--save"@) ==> command_of(args)
            == Some(CommandView::MissingName(args[0])),
        args.len() >= 1 && args[0] != "-h"@ && args[0] != "--help"@ && args[0] != "-V"@
            && args[0] != "--version"@ && args[0] != "--current"@ && args[0] != "--list"@
            && args[0] != "--check"@ && args[0] != "--apply"@ && args[0] != "--save"@
            ==> command_of(args) == Some(CommandView::Unknown(args[0])),
{
    lemma_flags_differ();
    if args.len() >= 2 {
        assert(args.drop_first()[0] == args[1]);
    }
}

fn is(a: &Vec<char>, lit: &str) -> (r: bool)
    ensures
        r == (a@ == lit@),
{
    same_chars(a, &chars_of(lit))
}

fn size_at(args: &Vec<String>, i: usize) -> (r: Option<u32>)
    requires
        i <= args.len(),
    ensures
        r == size_in(views(args@).skip(i as int)),
{
    if i < args.len() {
        assert(views(args@).skip(i as int)[0] == args@[i as int]@);
        parse_u32_of(&chars_of(args[i].as_str()))
    } else {
        None
    }
}

/// Reads the command-line arguments (without the program name).
pub fn parse_command(args: &Vec<String>) -> (r: Option<Command>)
    ensures
        match r {
            Some(c) => command_of(views(args@)) == Some(c@),
            None => command_of(views(args@)) is None,
        },
{
    if args.len() == 0 {
        return None;
    }
    let ghost all = views(args@);
    let flag = chars_of(args[0].as_str());
    assert(all[0] == flag@);
    assert(all.drop_first() == all.skip(1));
    let c = if is(&flag, "-h") || is(&flag, "--help") {
        Command::Help
    } else if is(&flag, "-V") || is(&flag, "--version") {
        Command::Version
    } else if is(&flag, "--current") {
        Command::Current
    } else if is(&flag, "--list") {
        Command::List
    } else if is(&flag, "--check") {
        Command::Check(size_at(args, 1))
    } else if is(&flag, "--apply") || is(&flag, "--save") {
        if args.len() < 2 {
            Command::MissingName(args[0].clone())
        } else {
            assert(all.skip(1)[0] == args@[1]@);
            assert(all.skip(1).drop_first() == all.skip(2));
            Command::Apply {
                name: args[1].clone(),
                size: size_at(args, 2),
                save: is(&flag, "--save"),
            }
        }
    } else {
        Command::Unknown(args[0].clone())
    };
    Some(c)
}

/// Sizes default to the current cursor size, and to 24 without one.
pub fn size_or_current(given: Option<u32>, current: Option<u32>) -> (r: u32)
    ensures
        r == (match given {
            Some(s) => s,
            None => match current {
                Some(s) => s,
                None => 24,
            },
        }),
{
    match given {
        Some(s) => s,
        None => match current {
            Some(s) => s,
            None => 24,
        },
    }
}

/// The first theme whose name is `name` in any ASCII letter case.
pub fn resolve(themes: &Vec<Theme>, name: &str) -> (r: Option<usize>)
    ensures
        match r {
            Some(k) => k < themes.len() && eq_ignore_case(themes@[k as int].name@, name@) && forall|
                j: int,
            | 0 <= j < k ==> !eq_ignore_case(themes@[j].name@, name@),
            None => forall|j: int|
                0 <= j < themes.len() ==> !eq_ignore_case(themes@[j].name@, name@),
        },
{
    let want = chars_of(name);
    let mut i: usize = 0;
    while i < themes.len()
        invariant
            i <= themes.len(),
            want@ == name@,
            forall|j: int| 0 <= j < i ==> !eq_ignore_case(themes@[j].name@, name@),
        decreases themes.len() - i,
    {
        if same_ignoring_case(&chars_of(themes[i].name.as_str()), &want) {
            return Some(i);
        }
        i += 1;
    }
    None
}

/// The usage text.
pub open spec fn usage_text() -> Seq<char> {
    "optination — pick a cursor theme, with previews\n\nUSAGE:\n    optination                     open the picker\n    optination --list              list every theme found (name, format, shapes)\n    optination --apply <THEME> [SIZE]   apply for this session\n    optination --save  <THEME> [SIZE]   apply and persist to the Hyprland config\n    optination --current           print the active theme and size\n    optination --check [SIZE]      report which preview shapes each theme is missing\n\nSizes default to the current cursor size.\n"@
}

/// The usage text.
pub fn usage() -> (r: &'static str)
    ensures
        r@ == usage_text(),
{
    "optination — pick a cursor theme, with previews\n\nUSAGE:\n    optination                     open the picker\n    optination --list              list every theme found (name, format, shapes)\n    optination --apply <THEME> [SIZE]   apply for this session\n    optination --save  <THEME> [SIZE]   apply and persist to the Hyprland config\n    optination --current           print the active theme and size\n    optination --check [SIZE]      report which preview shapes each theme is missing\n\nSizes default to the current cursor size.\n"
}

/// A `--list` line: name in 40 columns, format label in 11, the shape count
/// right-aligned in 4, and a mark for user-installed themes.
pub open spec fn list_text(theme: Theme, shapes: nat) -> Seq<char> {
    pad_end(theme.name@, 40) + " "@ + pad_end(theme.format.label_text(), 11) + " "@ + pad_start(
        decimal(shapes),
        4,
    ) + " shapes"@ + (if theme.user_installed {
        "  (user)"@
    } else {
        ""@
    })
}

/// The `--list` line for a theme with `shapes` shapes.
pub fn list_line(theme: &Theme, shapes: usize) -> (r: String)
    ensures
        r@ == list_text(*theme, shapes as nat),
{
    let mut out = padded_end(&chars_of(theme.name.as_str()), 40);
    append(&mut out, &chars_of(" "));
    append(&mut out, &padded_end(&chars_of(theme.format.label()), 11));
    append(&mut out, &chars_of(" "));
    append(&mut out, &padded_start(&decimal_of(shapes as u64), 4));
    append(&mut out, &chars_of(" shapes"));
    if theme.user_installed {
        append(&mut out, &chars_of("  (user)"));
    } else {
        append(&mut out, &chars_of(""));
    }
    string_of(&out)
}

/// The labels of the slots a preview has no bitmap for, in slot order.
pub open spec fn missing_of(bitmaps: Seq<Option<Bitmap>>, table: Seq<(Seq<char>, Seq<Seq<char>>)>) -> Seq<
    Seq<char>,
>
    decreases bitmaps.len(),
{
    if bitmaps.len() == 0 || table.len() == 0 {
        seq![]
    } else if bitmaps.len() > table.len() {
        missing_of(bitmaps.take(table.len() as int), table)
    } else {
        let k = bitmaps.len() - 1;
        let before = missing_of(bitmaps.drop_last(), table);
        if bitmaps[k] is None {
            before.push(table[k].0)
        } else {
            before
        }
    }
}

/// Labels of the slots that `bitmaps` (one per slot, in slot order) leaves
/// without a bitmap.
pub fn missing_labels(bitmaps: &Vec<Option<Bitmap>>) -> (r: Vec<&'static str>)
    ensures
        r@.map_values(|s: &str| s@) == missing_of(bitmaps@, slot_table()),
{
    let table = slots();
    let n = if bitmaps.len() < table.len() {
        bitmaps.len()
    } else {
        table.len()
    };
    let ghost tv = table@.map_values(|s: Slot| slot_view(s));
    assert(tv == slot_table());
    assert(tv.len() == 6);
    let mut out: Vec<&'static str> = Vec::new();
    let mut i: usize = 0;
    assert(bitmaps@.take(0).len() == 0);
    while i < n
        invariant
            i <= n <= bitmaps.len(),
            n <= table.len(),
            n == bitmaps.len() || n == table.len(),
            tv == table@.map_values(|s: Slot| slot_view(s)),
            tv == slot_table(),
            out@.map_values(|s: &str| s@) == missing_of(bitmaps@.take(i as int), slot_table()),
        decreases n - i,
    {
        let ghost t1 = bitmaps@.take(i + 1);
        assert(t1.drop_last() == bitmaps@.take(i as int));
        assert(tv[i as int].0 == table@[i as int].label@);
        if bitmaps[i].is_none() {
            out.push(table[i].label);
            assert(out@.map_values(|s: &str| s@) == missing_of(bitmaps@.take(i as int), slot_table()).push(
                table@[i as int].label@,
            ));
        }
        i += 1;
    }
    if n < bitmaps.len() {
        assert(bitmaps@.take(n as int) == bitmaps@.take(6));
    } else {
        assert(bitmaps@.take(n as int) == bitmaps@);
    }
    out
}

/// A `--check` line: the theme's name in 40 columns and what it misses.
pub open spec fn check_text(name: Seq<char>, missing: Seq<Seq<char>>) -> Seq<char> {
    pad_end(name, 40) + " missing: "@ + join(missing, ", "@)
}

/// The `--check` line for a theme.
pub fn check_line(name: &str, missing: &Vec<&'static str>) -> (r: String)
    ensures
        r@ == check_text(name@, missing@.map_values(|s: &str| s@)),
{
    let mut parts: Vec<String> = Vec::new();
    let mut i: usize = 0;
    while i < missing.len()
        invariant
            i <= missing.len(),
            views(parts@) == missing@.map_values(|s: &str| s@).take(i as int),
        decreases missing.len() - i,
    {
        let ghost before = parts@;
        let piece = missing[i].to_owned();
        parts.push(piece);
        proof {
            let want = missing@.map_values(|s: &str| s@).take(i + 1);
            assert(parts@ == before.push(piece));
            assert(views(before).len() == i);
            assert(parts@.len() == i + 1);
            assert(views(parts@).len() == i + 1);
            assert(views(parts@)[i as int] == piece@);
            assert forall|j: int| 0 <= j < i + 1 implies #[trigger] views(parts@)[j] == want[j] by {
                if j < i {
                    assert(views(before)[j] == want[j]);
                }
            }
            assert(views(parts@) =~= want);
        }
        i += 1;
    }
    assert(missing@.map_values(|s: &str| s@).take(missing.len() as int) == missing@.map_values(
        |s: &str| s@,
    ));
    let mut out = padded_end(&chars_of(name), 40);
    append(&mut out, &chars_of(" missing: "));
    append(&mut out, &chars_of(crate::text::join_strings(&parts, ", ").as_str()));
    string_of(&out)
}

/// The closing line of `--check`.
pub open spec fn check_summary_text(incomplete: nat, size: u32) -> Seq<char> {
    decimal(incomplete) + " theme(s) with an undrawable preview slot at "@ + decimal(size as nat)
        + "px"@
}

/// The closing line of `--check`.
pub fn check_summary(incomplete: usize, size: u32) -> (r: String)
    ensures
        r@ == check_summary_text(incomplete as nat, size),
{
    let mut out = decimal_of(incomplete as u64);
    append(&mut out, &chars_of(" theme(s) with an undrawable preview slot at "));
    append(&mut out, &decimal_of(size as u64));
    append(&mut out, &chars_of("px"));
    string_of(&out)
}

/// The labels each theme misses, as the specifications see them.
pub open spec fn missing_views(m: Seq<Vec<&'static str>>) -> Seq<Seq<Seq<char>>> {
    m.map_values(|v: Vec<&'static str>| v@.map_values(|s: &str| s@))
}

/// The `--check` lines for themes named `names` missing `missing`: one line
/// per theme that misses a slot, in order.
pub open spec fn incomplete_lines(names: Seq<Seq<char>>, missing: Seq<Seq<Seq<char>>>) -> Seq<
    Seq<char>,
>
    decreases names.len(),
{
    if names.len() == 0 || missing.len() == 0 {
        seq![]
    } else {
        let before = incomplete_lines(names.drop_last(), missing.drop_last());
        if missing.last().len() > 0 {
            before.push(check_text(names.last(), missing.last()))
        } else {
            before
        }
    }
}

/// Everything `--check` prints: a line per theme that misses a slot, then
/// how many did.
pub open spec fn check_report_text(names: Seq<Seq<char>>, missing: Seq<Seq<Seq<char>>>, size: u32) -> Seq<
    Seq<char>,
> {
    let lines = incomplete_lines(names, missing);
    lines.push(check_summary_text(lines.len(), size))
}

/// What `--check` prints at `size` pixels for themes named `names`, of which
/// theme `i` misses the slots `missing[i]`.
pub fn check_report(names: &Vec<String>, missing: &Vec<Vec<&'static str>>, size: u32) -> (r: Vec<
    String,
>)
    requires
        names.len() == missing.len(),
    ensures
        views(r@) == check_report_text(views(names@), missing_views(missing@), size),
{
    let ghost ns = views(names@);
    let ghost ms = missing_views(missing@);
    let mut out: Vec<String> = Vec::new();
    let mut i: usize = 0;
    while i < names.len()
        invariant
            i <= names.len() == missing.len(),
            ns == views(names@),
            ms == missing_views(missing@),
            views(out@) == incomplete_lines(ns.take(i as int), ms.take(i as int)),
            out.len() <= i,
        decreases names.len() - i,
    {
        proof {
            assert(ns.take(i + 1).drop_last() == ns.take(i as int));
            assert(ms.take(i + 1).drop_last() == ms.take(i as int));
            assert(ns.take(i + 1).last() == names@[i as int]@);
            assert(ms.take(i + 1).last() == missing@[i as int]@.map_values(|s: &str| s@));
        }
        if missing[i].len() > 0 {
            let ghost before = out@;
            let line = check_line(names[i].as_str(), &missing[i]);
            out.push(line);
            proof {
                assert(views(out@) == views(before).push(line@));
            }
        }
        i += 1;
    }
    assert(ns.take(names.len() as int) == ns);
    assert(ms.take(names.len() as int) == ms);
    let ghost before = out@;
    let summary = check_summary(out.len(), size);
    out.push(summary);
    assert(views(out@) == views(before).push(summary@));
    out
}

/// What `--current` prints: the theme and size, `unknown` and `?` where
/// there is none.
pub open spec fn current_text(theme: Option<Seq<char>>, size: Option<u32>) -> Seq<char> {
    (match theme {
        Some(t) => t,
        None => "unknown"@,
    }) + " "@ + (match size {
        Some(s) => decimal(s as nat),
        None => "?"@,
    })
}

/// The `--current` line.
pub fn current_line(theme: &Option<String>, size: Option<u32>) -> (r: String)
    ensures
        r@ == current_text(
            match theme {
                Some(t) => Some(t@),
                None => None,
            },
            size,
        ),
{
    let mut out = match theme {
        Some(t) => chars_of(t.as_str()),
        None => chars_of("unknown"),
    };
    append(&mut out, &chars_of(" "));
    match size {
        Some(s) => append(&mut out, &decimal_of(s as u64)),
        None => append(&mut out, &chars_of("?")),
    }
    string_of(&out)
}

/// What `--apply` prints once applied: theme and size, session only.
pub open spec fn session_text(name: Seq<char>, size: u32) -> Seq<char> {
    name + " @ "@ + decimal(size as nat) + "px (session only)"@
}

/// The `--apply` confirmation.
pub fn session_line(name: &str, size: u32) -> (r: String)
    ensures
        r@ == session_text(name@, size),
{
    let mut out = chars_of(name);
    append(&mut out, &chars_of(" @ "));
    append(&mut out, &decimal_of(size as u64));
    append(&mut out, &chars_of("px (session only)"));
    string_of(&out)
}

/// The exit status of a run: 2 for a missing theme name or an unknown
/// option, 1 for an `--apply` or `--save` that failed, 0 otherwise.
pub open spec fn exit_status(c: CommandView, failed: bool) -> i32 {
    match c {
        CommandView::MissingName(_) => 2,
        CommandView::Unknown(_) => 2,
        CommandView::Apply(_, _, _) => if failed {
            1
        } else {
            0
        },
        _ => 0,
    }
}

/// The exit status of a run of `command`; `failed` says whether applying a
/// theme failed.
pub fn exit_code(command: &Command, failed: bool) -> (r: i32)
    ensures
        r == exit_status(command@, failed),
{
    match command {
        Command::MissingName(_) => 2,
        Command::Unknown(_) => 2,
        Command::Apply { .. } => if failed {
            1
        } else {
            0
        },
        _ => 0,
    }
}

/// An error as the command line reports it.
pub open spec fn error_text(message: Seq<char>) -> Seq<char> {
    "optination: "@ + message
}

/// An error as the command line reports it.
pub fn error_line(message: &str) -> (r: String)
    ensures
        r@ == error_text(message@),
{
    let mut out = chars_of("optination: ");
    append(&mut out, &chars_of(message));
    string_of(&out)
}

/// What `--apply` or `--save` without a theme name reports.
pub fn missing_name_line(flag: &str) -> (r: String)
    ensures
        r@ == error_text(flag@ + " needs a theme name"@),
{
    let mut out = chars_of("optination: ");
    append(&mut out, &chars_of(flag));
    append(&mut out, &chars_of(" needs a theme name"));
    assert(out@ == error_text(flag@ + " needs a theme name"@));
    string_of(&out)
}

/// What `format!("{:?}", s)` writes for a string `s`: `<str as Debug>::fmt`,
/// the string in double quotes with its special characters escaped.
pub uninterp spec fn debug_str(s: Seq<char>) -> Seq<char>;

/// Calls `<str as Debug>::fmt` through `format!`. Claims that the text
/// depends on `s` alone.
#[verifier::external_body]
fn debug_quoted(s: &str) -> (r: String)
    ensures
        r@ == debug_str(s@),
{
    format!("{s:?}")
}

/// What an unknown option reports.
pub fn unknown_option_line(flag: &str) -> (r: String)
    ensures
        r@ == error_text("unknown option "@ + debug_str(flag@)),
{
    let mut out = chars_of("optination: ");
    append(&mut out, &chars_of("unknown option "));
    append(&mut out, &chars_of(debug_quoted(flag).as_str()));
    assert(out@ == error_text("unknown option "@ + debug_str(flag@)));
    string_of(&out)
}

/// What `--apply` or `--save` of a theme that is not there reports.
pub fn no_theme_line(name: &str) -> (r: String)
    ensures
        r@ == error_text("no cursor theme named "@ + debug_str(name@) + " (try --list)"@),
{
    let mut out = chars_of("optination: ");
    append(&mut out, &chars_of("no cursor theme named "));
    append(&mut out, &chars_of(debug_quoted(name).as_str()));
    append(&mut out, &chars_of(" (try --list)"));
    assert(out@ == error_text("no cursor theme named "@ + debug_str(name@) + " (try --list)"@));
    string_of(&out)
}

} // verus!
