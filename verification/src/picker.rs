//! The decisions behind the picker window: which themes the search text and
//! the filter chips leave in the list, where the selection lands after the
//! list changes, what the size control accepts, and the words and pixels the
//! window shows. Drawing them is the window's business.
use crate::render::Bitmap;
use crate::scan::{lowercase, lowercased, Format, Theme, ThemeView, Tone};
use crate::text::{append, chars_of, contains, decimal, decimal_of, has, string_of};
use vstd::prelude::*;

verus! {

broadcast use vstd::string::group_string_axioms;

/// The slider's range, and the sizes the tick buttons jump to.
pub const SIZE_MIN: i32 = 16;

pub const SIZE_MAX: i32 = 96;

/// Size of the small pointer thumbnail in each list row. Fixed, so moving the
/// size slider re-renders one theme rather than all of them.
pub const TILE_PX: u32 = 30;

// --------------------------------------------------------------- filters ---

/// The chip state, read off the window in one go.
///
/// Chips within a group are OR-ed and the groups are AND-ed, so "hyprcursor"
/// plus "dark" narrows to dark hyprcursor themes instead of producing the empty
/// set. A group with nothing checked places no constraint at all.
#[derive(Clone, Copy, Debug)]
pub struct Filters {
    pub x11: bool,
    pub hypr: bool,
    pub light: bool,
    pub dark: bool,
    pub standard: bool,
    pub mirrored: bool,
    pub system: bool,
    pub user: bool,
}

impl Default for Filters {
    /// No chip checked.
    fn default() -> (r: Self)
        ensures
            r == no_filters(),
    {
        Filters {
            x11: false,
            hypr: false,
            light: false,
            dark: false,
            standard: false,
            mirrored: false,
            system: false,
            user: false,
        }
    }
}

/// No chip checked.
pub open spec fn no_filters() -> Filters {
    Filters {
        x11: false,
        hypr: false,
        light: false,
        dark: false,
        standard: false,
        mirrored: false,
        system: false,
        user: false,
    }
}

/// One group of two chips: nothing checked lets everything through,
/// otherwise a theme passes when it has what a checked chip stands for.
pub open spec fn group(a: bool, b: bool, is_a: bool, is_b: bool) -> bool {
    (!a && !b) || (a && is_a) || (b && is_b)
}

/// The four groups: format, tone, handedness and source.
pub open spec fn admits(f: Filters, t: ThemeView) -> bool {
    &&& group(f.x11, f.hypr, t.format.x11(), t.format.hypr())
    &&& group(f.light, f.dark, t.tone == Tone::Light, t.tone == Tone::Dark)
    &&& group(f.standard, f.mirrored, !t.mirrored, t.mirrored)
    &&& group(f.system, f.user, !t.user_installed, t.user_installed)
}

fn group_of(a: bool, b: bool, is_a: bool, is_b: bool) -> (r: bool)
    ensures
        r == group(a, b, is_a, is_b),
{
    (!a && !b) || (a && is_a) || (b && is_b)
}

impl Filters {
    /// Whether the chips let `theme` through.
    pub fn allows(&self, theme: &Theme) -> (r: bool)
        ensures
            r == admits(*self, theme@),
    {
        group_of(self.x11, self.hypr, theme.format.has_x11(), theme.format.has_hypr()) && group_of(
            self.light,
            self.dark,
            theme.tone == Tone::Light,
            theme.tone == Tone::Dark,
        ) && group_of(self.standard, self.mirrored, !theme.mirrored, theme.mirrored) && group_of(
            self.system,
            self.user,
            !theme.user_installed,
            theme.user_installed,
        )
    }
}

/// The chips in order: X11, hyprcursor, light, dark, standard, mirrored,
/// system, user. Chips `2g` and `2g + 1` make group `g`.
pub open spec fn chip(f: Filters, k: nat) -> bool {
    if k == 0 {
        f.x11
    } else if k == 1 {
        f.hypr
    } else if k == 2 {
        f.light
    } else if k == 3 {
        f.dark
    } else if k == 4 {
        f.standard
    } else if k == 5 {
        f.mirrored
    } else if k == 6 {
        f.system
    } else {
        f.user
    }
}

/// `f` with chip `k` checked.
pub open spec fn with_chip(f: Filters, k: nat) -> Filters {
    Filters {
        x11: f.x11 || k == 0,
        hypr: f.hypr || k == 1,
        light: f.light || k == 2,
        dark: f.dark || k == 3,
        standard: f.standard || k == 4,
        mirrored: f.mirrored || k == 5,
        system: f.system || k == 6,
        user: f.user || k == 7,
    }
}

/// Whether the group chip `k` belongs to has a chip checked.
pub open spec fn group_used(f: Filters, k: nat) -> bool {
    let first = (k - k % 2) as nat;
    chip(f, first) || chip(f, first + 1)
}

/// With no chip checked every theme is in the list.
pub proof fn law_no_chips_admit_everything(t: ThemeView)
    ensures
        admits(no_filters(), t),
{
}

/// A group with nothing checked places no constraint: checking the first chip
/// of a group can only take themes out of the list.
pub proof fn law_first_chip_of_a_group_narrows(f: Filters, k: nat, t: ThemeView)
    requires
        k < 8,
        !group_used(f, k),
        admits(with_chip(f, k), t),
    ensures
        admits(f, t),
{
}

/// Chips within a group are OR-ed: checking another chip of a group that
/// already has one can only bring themes into the list.
pub proof fn law_second_chip_of_a_group_widens(f: Filters, k: nat, t: ThemeView)
    requires
        k < 8,
        group_used(f, k),
        admits(f, t),
    ensures
        admits(with_chip(f, k), t),
{
}

/// The groups are AND-ed: "hyprcursor" plus "dark" lets through exactly the
/// dark themes that ship hyprcursor.
pub proof fn law_groups_intersect(t: ThemeView)
    ensures
        admits(Filters { hypr: true, dark: true, ..no_filters() }, t) <==> (t.format.hypr()
            && t.tone == Tone::Dark),
{
}

/// The x11 chip alone: X11 keeps exactly the themes that ship Xcursor files: Xcursor only or
/// both formats.
pub proof fn law_x11_chip(t: ThemeView)
    ensures
        admits(Filters { x11: true, ..no_filters() }, t) == (t.format is Xcursor || t.format is Both),
{
}

/// The hyprcursor chip alone: hyprcursor keeps exactly the themes that ship hyprcursor assets:
/// hyprcursor only or both formats.
pub proof fn law_hypr_chip(t: ThemeView)
    ensures
        admits(Filters { hypr: true, ..no_filters() }, t) == (t.format is Hyprcursor || t.format is Both),
{
}

/// The light chip alone: light keeps exactly the themes whose name declares them light.
pub proof fn law_light_chip(t: ThemeView)
    ensures
        admits(Filters { light: true, ..no_filters() }, t) == t.tone is Light,
{
}

/// The dark chip alone: dark keeps exactly the themes whose name declares them dark.
pub proof fn law_dark_chip(t: ThemeView)
    ensures
        admits(Filters { dark: true, ..no_filters() }, t) == t.tone is Dark,
{
}

/// The standard chip alone: standard keeps exactly the themes that are not mirrored.
pub proof fn law_standard_chip(t: ThemeView)
    ensures
        admits(Filters { standard: true, ..no_filters() }, t) == !t.mirrored,
{
}

/// The mirrored chip alone: mirrored keeps exactly the mirrored themes.
pub proof fn law_mirrored_chip(t: ThemeView)
    ensures
        admits(Filters { mirrored: true, ..no_filters() }, t) == t.mirrored,
{
}

/// The system chip alone: system keeps exactly the themes found outside the home directory.
pub proof fn law_system_chip(t: ThemeView)
    ensures
        admits(Filters { system: true, ..no_filters() }, t) == !t.user_installed,
{
}

/// The user chip alone: user keeps exactly the themes found under the home directory.
pub proof fn law_user_chip(t: ThemeView)
    ensures
        admits(Filters { user: true, ..no_filters() }, t) == t.user_installed,
{
}

// ---------------------------------------------------------------- search ---

/// Whether the search text finds a theme: empty text finds everything, other
/// text is looked for, lower-cased, in the lower-cased name, comment, format
/// label and tone label.
pub open spec fn found_by(t: ThemeView, needle: Seq<char>) -> bool {
    needle.len() == 0 || {
        let n = lowercased(needle);
        contains(lowercased(t.name), n) || contains(lowercased(t.comment), n) || contains(
            lowercased(t.format.label_text()),
            n,
        ) || contains(lowercased(t.tone.label_text()), n)
    }
}

/// Whether a theme is in the list for this search text and these chips.
pub open spec fn listed(t: ThemeView, needle: Seq<char>, f: Filters) -> bool {
    admits(f, t) && found_by(t, needle)
}

/// Whether the theme stays in the list for the search text `needle` and the
/// chips `filters`.
pub fn matches(theme: &Theme, needle: &str, filters: &Filters) -> (r: bool)
    ensures
        r == listed(theme@, needle@, *filters),
{
    if !filters.allows(theme) {
        return false;
    }
    if chars_of(needle).len() == 0 {
        return true;
    }
    let n = chars_of(lowercase(needle).as_str());
    has(&chars_of(lowercase(theme.name.as_str()).as_str()), &n) || has(
        &chars_of(lowercase(theme.comment.as_str()).as_str()),
        &n,
    ) || has(&chars_of(lowercase(theme.format.label()).as_str()), &n) || has(
        &chars_of(lowercase(theme.tone.label()).as_str()),
        &n,
    )
}

// ------------------------------------------------------------------ size ---

/// A size kept in the slider's range.
pub open spec fn clamped(size: int) -> int {
    if size < SIZE_MIN {
        SIZE_MIN as int
    } else if size > SIZE_MAX {
        SIZE_MAX as int
    } else {
        size
    }
}

/// The slider snaps to even values and the tick buttons jump, so this only has
/// to keep a size in range — the +/- buttons step one pixel at a time and must
/// be able to land on an odd one.
pub fn clamp_size(size: i32) -> (r: i32)
    ensures
        r == clamped(size as int),
{
    if size < SIZE_MIN {
        SIZE_MIN
    } else if size > SIZE_MAX {
        SIZE_MAX
    } else {
        size
    }
}

/// What `s as i32` gives for a size setting: the value itself, or, past
/// `i32::MAX`, the value less 2^32.
pub open spec fn as_i32(s: u32) -> int {
    if s <= i32::MAX {
        s as int
    } else {
        s - 0x1_0000_0000
    }
}

/// A size setting (24 where there is none), as a slider position.
pub fn slider_size(setting: Option<u32>) -> (r: i32)
    ensures
        r == clamped(
            as_i32(
                match setting {
                    Some(s) => s,
                    None => 24,
                },
            ),
        ),
{
    let s = match setting {
        Some(s) => s,
        None => 24,
    };
    let v: i32 = if s <= 0x7fff_ffff {
        s as i32
    } else {
        ((s as i64) - 0x1_0000_0000i64) as i32
    };
    clamp_size(v)
}

/// Every size the slider ends up at is in its range.
pub proof fn law_clamped_sizes_in_range(size: int)
    ensures
        SIZE_MIN <= clamped(size) <= SIZE_MAX,
        SIZE_MIN <= size <= SIZE_MAX ==> clamped(size) == size,
        clamped(clamped(size)) == clamped(size),
{
}

// ------------------------------------------------------------------ list ---

/// The themes as the specifications see them.
pub open spec fn theme_views(ts: Seq<Theme>) -> Seq<ThemeView> {
    ts.map_values(|t: Theme| t@)
}

/// The indices of the listed themes, in order.
pub open spec fn rows_of(ts: Seq<ThemeView>, needle: Seq<char>, f: Filters) -> Seq<int>
    decreases ts.len(),
{
    if ts.len() == 0 {
        seq![]
    } else {
        let before = rows_of(ts.drop_last(), needle, f);
        if listed(ts.last(), needle, f) {
            before.push(ts.len() - 1)
        } else {
            before
        }
    }
}

/// Indices into `v` as integers.
pub open spec fn ints(v: Seq<usize>) -> Seq<int> {
    v.map_values(|i: usize| i as int)
}

/// Which themes the list shows: the index of each theme that the search text
/// and the chips leave in, in the themes' order.
pub fn visible_rows(themes: &Vec<Theme>, needle: &str, filters: &Filters) -> (r: Vec<usize>)
    ensures
        ints(r@) == rows_of(theme_views(themes@), needle@, *filters),
{
    let ghost all = theme_views(themes@);
    let mut out: Vec<usize> = Vec::new();
    let mut i: usize = 0;
    while i < themes.len()
        invariant
            i <= themes.len(),
            all == theme_views(themes@),
            ints(out@) == rows_of(all.take(i as int), needle@, *filters),
        decreases themes.len() - i,
    {
        let ghost before = out@;
        let shown = matches(&themes[i], needle, filters);
        proof {
            let t1 = all.take(i + 1);
            assert(t1.drop_last() == all.take(i as int));
            assert(t1.last() == themes@[i as int]@);
        }
        if shown {
            out.push(i);
            assert(ints(out@) == ints(before).push(i as int));
        }
        i += 1;
    }
    assert(all.take(themes.len() as int) == all);
    out
}

/// Where the selection lands once the list shows `rows`: the selection is
/// pinned to the theme, not to a row index, so narrowing the list never
/// quietly points Apply at something else.
pub fn find_row(themes: &Vec<Theme>, rows: &Vec<usize>, name: &str) -> (r: Option<usize>)
    requires
        forall|p: int| 0 <= p < rows.len() ==> rows@[p] < themes.len(),
    ensures
        match r {
            Some(p) => p < rows.len() && themes@[rows@[p as int] as int].name@ == name@ && forall|
                q: int,
            | 0 <= q < p ==> themes@[rows@[q] as int].name@ != name@,
            None => forall|p: int|
                0 <= p < rows.len() ==> themes@[rows@[p] as int].name@ != name@,
        },
{
    let want = chars_of(name);
    let mut p: usize = 0;
    while p < rows.len()
        invariant
            p <= rows.len(),
            want@ == name@,
            forall|k: int| 0 <= k < rows.len() ==> rows@[k] < themes.len(),
            forall|q: int| 0 <= q < p ==> themes@[rows@[q] as int].name@ != name@,
        decreases rows.len() - p,
    {
        if crate::text::same_chars(&chars_of(themes[rows[p]].name.as_str()), &want) {
            return Some(p);
        }
        p += 1;
    }
    None
}

/// The theme index behind row `row` of the list, when there is such a row.
pub fn theme_at(rows: &Vec<usize>, row: i32) -> (r: Option<usize>)
    ensures
        r == (if 0 <= row < rows.len() {
            Some(rows@[row as int])
        } else {
            None
        }),
{
    if row < 0 {
        return None;
    }
    let k = row as usize;
    if k < rows.len() {
        Some(rows[k])
    } else {
        None
    }
}

/// How many of the themes are hyprcursor-only.
pub open spec fn hypr_only(ts: Seq<ThemeView>) -> nat
    decreases ts.len(),
{
    if ts.len() == 0 {
        0
    } else {
        hypr_only(ts.drop_last()) + if ts.last().format == Format::Hyprcursor {
            1nat
        } else {
            0nat
        }
    }
}

/// The hyprcursor-only themes among `themes`: the ones the old script never
/// listed.
pub fn hyprcursor_count(themes: &Vec<Theme>) -> (r: usize)
    ensures
        r == hypr_only(theme_views(themes@)),
{
    let ghost all = theme_views(themes@);
    let mut n: usize = 0;
    let mut i: usize = 0;
    while i < themes.len()
        invariant
            i <= themes.len(),
            all == theme_views(themes@),
            n == hypr_only(all.take(i as int)),
            n <= i,
        decreases themes.len() - i,
    {
        proof {
            let t1 = all.take(i + 1);
            assert(t1.drop_last() == all.take(i as int));
            assert(t1.last() == themes@[i as int]@);
        }
        if themes[i].format == Format::Hyprcursor {
            n += 1;
        }
        i += 1;
    }
    assert(all.take(themes.len() as int) == all);
    n
}

// ----------------------------------------------------------------- words ---

/// The decimal digits of `n`, after a minus sign when it is negative, as
/// `i32::to_string` writes them.
pub open spec fn signed(n: int) -> Seq<char> {
    if n < 0 {
        "-"@ + decimal((-n) as nat)
    } else {
        decimal(n as nat)
    }
}

fn signed_of(n: i32) -> (r: Vec<char>)
    ensures
        r@ == signed(n as int),
{
    if n < 0 {
        let mut out = chars_of("-");
        let m: i64 = -(n as i64);
        append(&mut out, &decimal_of(m as u64));
        out
    } else {
        decimal_of(n as u64)
    }
}

/// The meta line under a theme's name: format and shape count, then the tone
/// and handedness where the name states them.
pub open spec fn card_meta_text(format: Format, shapes: nat, tone: Tone, mirrored: bool) -> Seq<
    char,
> {
    format.label_text() + " · "@ + decimal(shapes) + " shapes"@ + (if tone != Tone::Unstated {
        " · "@ + tone.label_text()
    } else {
        ""@
    }) + (if mirrored {
        " · mirrored"@
    } else {
        ""@
    })
}

/// The meta line of a theme that defines `shapes` shapes.
pub fn card_meta(theme: &Theme, shapes: usize) -> (r: String)
    ensures
        r@ == card_meta_text(theme.format, shapes as nat, theme.tone, theme.mirrored),
{
    let mut out = chars_of(theme.format.label());
    append(&mut out, &chars_of(" · "));
    append(&mut out, &decimal_of(shapes as u64));
    append(&mut out, &chars_of(" shapes"));
    if theme.tone != Tone::Unstated {
        append(&mut out, &chars_of(" · "));
        append(&mut out, &chars_of(theme.tone.label()));
    } else {
        append(&mut out, &chars_of(""));
    }
    if theme.mirrored {
        append(&mut out, &chars_of(" · mirrored"));
    } else {
        append(&mut out, &chars_of(""));
    }
    string_of(&out)
}

/// The command the preview shows for trying a theme by hand.
pub open spec fn command_text(name: Seq<char>, size: int) -> Seq<char> {
    "hyprctl setcursor "@ + name + " "@ + signed(size)
}

/// The resolved `hyprctl setcursor` line for a theme at a size.
pub fn command_line(name: &str, size: i32) -> (r: String)
    ensures
        r@ == command_text(name@, size as int),
{
    let mut out = chars_of("hyprctl setcursor ");
    append(&mut out, &chars_of(name));
    append(&mut out, &chars_of(" "));
    append(&mut out, &signed_of(size));
    string_of(&out)
}

/// The status line once a theme is on the live pointer.
pub open spec fn live_text(name: Seq<char>, size: int) -> Seq<char> {
    name + " @ "@ + signed(size) + "px — live, not saved"@
}

/// The status line once a theme is on the live pointer.
pub fn live_status(name: &str, size: i32) -> (r: String)
    ensures
        r@ == live_text(name@, size as int),
{
    let mut out = chars_of(name);
    append(&mut out, &chars_of(" @ "));
    append(&mut out, &signed_of(size));
    append(&mut out, &chars_of("px — live, not saved"));
    string_of(&out)
}

/// The status line once the theme the window opened on is back.
pub open spec fn reverted_text(name: Seq<char>, size: u32) -> Seq<char> {
    "reverted to "@ + name + " @ "@ + decimal(size as nat) + "px"@
}

/// The status line once the theme the window opened on is back.
pub fn reverted_status(name: &str, size: u32) -> (r: String)
    ensures
        r@ == reverted_text(name@, size),
{
    let mut out = chars_of("reverted to ");
    append(&mut out, &chars_of(name));
    append(&mut out, &chars_of(" @ "));
    append(&mut out, &decimal_of(size as u64));
    append(&mut out, &chars_of("px"));
    string_of(&out)
}

/// The line that reports a saved choice and where it went.
pub open spec fn saved_text(name: Seq<char>, size: u32, path: Seq<char>) -> Seq<char> {
    "saved "@ + name + " @ "@ + decimal(size as nat) + "px to "@ + path
}

/// The line that reports a saved choice and where it went (`path` as the
/// path displays).
pub fn saved_line(name: &str, size: u32, path: &str) -> (r: String)
    ensures
        r@ == saved_text(name@, size, path@),
{
    let mut out = chars_of("saved ");
    append(&mut out, &chars_of(name));
    append(&mut out, &chars_of(" @ "));
    append(&mut out, &decimal_of(size as u64));
    append(&mut out, &chars_of("px to "));
    append(&mut out, &chars_of(path));
    string_of(&out)
}

/// The opening status line: how many themes, and how many of them only a
/// hyprcursor-aware picker sees.
pub open spec fn overview_text(total: nat, hypr: nat) -> Seq<char> {
    decimal(total) + " themes · "@ + decimal(hypr) + " hyprcursor themes the old script never listed"@
}

/// The opening status line.
pub fn overview_status(total: usize, hypr: usize) -> (r: String)
    ensures
        r@ == overview_text(total as nat, hypr as nat),
{
    let mut out = decimal_of(total as u64);
    append(&mut out, &chars_of(" themes · "));
    append(&mut out, &decimal_of(hypr as u64));
    append(&mut out, &chars_of(" hyprcursor themes the old script never listed"));
    string_of(&out)
}

// --------------------------------------------------------------- dot grid ---

/// The dot grid behind the live preview: drawn once at a size that covers
/// the preview surface, one dot every 16 pixels.
pub const GRID_W: u32 = 900;

pub const GRID_H: u32 = 700;

pub const GRID_SPACING: u32 = 16;

/// The colour of a dot, for a dark or a light surface.
pub open spec fn dot_rgba(dark: bool) -> Seq<u8> {
    if dark {
        seq![255u8, 255u8, 255u8, 28u8]
    } else {
        seq![20u8, 14u8, 10u8, 33u8]
    }
}

/// Pixel `i` of the grid, counted row by row: a dot where both coordinates
/// are 1 past a multiple of the spacing, transparent elsewhere.
pub open spec fn grid_pixel(i: int, dark: bool) -> Seq<u8> {
    let x = i % (GRID_W as int);
    let y = i / (GRID_W as int);
    if x % (GRID_SPACING as int) == 1 && y % (GRID_SPACING as int) == 1 {
        dot_rgba(dark)
    } else {
        seq![0u8, 0u8, 0u8, 0u8]
    }
}

/// The dot grid as straight (not premultiplied) RGBA.
pub fn dot_grid(dark: bool) -> (r: Bitmap)
    ensures
        r.width == GRID_W,
        r.height == GRID_H,
        !r.premultiplied,
        r.rgba@.len() == 4 * GRID_W * GRID_H,
        forall|i: int|
            0 <= i < GRID_W * GRID_H ==> #[trigger] r.rgba@.subrange(4 * i, 4 * i + 4)
                == grid_pixel(i, dark),
{
    let (cr, cg, cb, ca): (u8, u8, u8, u8) = if dark {
        (255, 255, 255, 28)
    } else {
        (20, 14, 10, 33)
    };
    let n: u32 = GRID_W * GRID_H;
    let mut rgba: Vec<u8> = Vec::with_capacity(4 * n as usize);
    let mut i: u32 = 0;
    while i < n
        invariant
            n == GRID_W * GRID_H,
            i <= n,
            rgba@.len() == 4 * i,
            dot_rgba(dark) == seq![cr, cg, cb, ca],
            forall|k: int| 0 <= k < i ==> #[trigger] rgba@.subrange(4 * k, 4 * k + 4) == grid_pixel(k, dark),
        decreases n - i,
    {
        let ghost before = rgba@;
        let x = i % GRID_W;
        let y = i / GRID_W;
        if x % GRID_SPACING == 1 && y % GRID_SPACING == 1 {
            rgba.push(cr);
            rgba.push(cg);
            rgba.push(cb);
            rgba.push(ca);
        } else {
            rgba.push(0);
            rgba.push(0);
            rgba.push(0);
            rgba.push(0);
        }
        proof {
            assert(rgba@.subrange(4 * i, 4 * i + 4) == grid_pixel(i as int, dark));
            assert forall|k: int| 0 <= k < i + 1 implies #[trigger] rgba@.subrange(4 * k, 4 * k + 4)
                == grid_pixel(k, dark) by {
                if k < i {
                    assert(rgba@.subrange(4 * k, 4 * k + 4) == before.subrange(4 * k, 4 * k + 4));
                }
            }
        }
        i += 1;
    }
    Bitmap { width: GRID_W, height: GRID_H, rgba, premultiplied: false }
}

} // verus!
