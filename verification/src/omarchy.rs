//! Reading the accent colour out of the current Omarchy theme.
//!
//! Omarchy keeps the active theme as a symlink under
//! `~/.local/state/omarchy/current/theme`, with a `colors.toml` that names an
//! `accent` and a `mode`. "Follow Omarchy theme" maps that accent onto the
//! nearest of the six accents in the design handoff, which is as close as this
//! app can get without shipping a full tonal-palette generator.
use crate::text::{
    chars_of, eq_ignore_case, find, lacks, lemma_find, lines, lines_of, parse_unsigned, parse_unsigned_in,
    same_chars, same_ignoring_case, slice_of, string_of, split_once, split_once_at, trim, trim_char, trim_start_char,
    trimmed, trimmed_char, trimmed_start_char,
};
use vstd::prelude::*;

verus! {

broadcast use vstd::string::group_string_axioms;

/// The `primary` of each handoff accent, light mode, in the order the UI
/// shows them: Cyan, Purple, Green, Amber, Rose, Indigo.
pub open spec fn accent_primaries() -> Seq<(u8, u8, u8)> {
    seq![
        (0x00u8, 0x65u8, 0x8eu8),
        (0x67u8, 0x50u8, 0xa4u8),
        (0x2cu8, 0x6cu8, 0x47u8),
        (0x8fu8, 0x4cu8, 0x00u8),
        (0x9au8, 0x40u8, 0x57u8),
        (0x3bu8, 0x5bu8, 0xbfu8),
    ]
}

/// The six accent primaries.
pub fn primaries() -> (r: Vec<(u8, u8, u8)>)
    ensures
        r@ == accent_primaries(),
{
    let mut v: Vec<(u8, u8, u8)> = Vec::new();
    v.push((0x00, 0x65, 0x8e));
    v.push((0x67, 0x50, 0xa4));
    v.push((0x2c, 0x6c, 0x47));
    v.push((0x8f, 0x4c, 0x00));
    v.push((0x9a, 0x40, 0x57));
    v.push((0x3b, 0x5b, 0xbf));
    assert(v@ == accent_primaries());
    v
}

// ------------------------------------------------------------------ bytes ---

/// Bytes `char::len_utf8` takes for `c`.
pub open spec fn char_width(c: char) -> nat {
    let u = c as u32;
    if u < 0x80 {
        1
    } else if u < 0x800 {
        2
    } else if u < 0x10000 {
        3
    } else {
        4
    }
}

/// `str::len`: the UTF-8 length in bytes.
pub open spec fn utf8_len(s: Seq<char>) -> nat
    decreases s.len(),
{
    if s.len() == 0 {
        0
    } else {
        char_width(s[0]) + utf8_len(s.drop_first())
    }
}

/// The characters before and after byte offset `b`, when `b` falls on a
/// character boundary; `None` where slicing there would panic.
pub open spec fn split_at_byte(s: Seq<char>, b: nat) -> Option<(Seq<char>, Seq<char>)>
    decreases s.len(),
{
    if b == 0 {
        Some((Seq::empty(), s))
    } else if s.len() == 0 || char_width(s[0]) > b {
        None
    } else {
        match split_at_byte(s.drop_first(), (b - char_width(s[0])) as nat) {
            Some((x, y)) => Some((seq![s[0]] + x, y)),
            None => None,
        }
    }
}

fn width_of(c: char) -> (r: usize)
    ensures
        r == char_width(c),
{
    let u = c as u32;
    if u < 0x80 {
        1
    } else if u < 0x800 {
        2
    } else if u < 0x10000 {
        3
    } else {
        4
    }
}

/// Byte length of `s[from..]`.
fn byte_len_from(s: &Vec<char>, from: usize) -> (r: usize)
    requires
        from <= s.len(),
        s.len() <= 0x1000_0000,
    ensures
        r == utf8_len(s@.skip(from as int)),
    decreases s.len() - from,
{
    if from == s.len() {
        assert(s@.skip(from as int).len() == 0);
        0
    } else {
        assert(s@.skip(from as int).drop_first() == s@.skip(from + 1));
        let rest = byte_len_from(s, from + 1);
        proof {
            lemma_utf8_len_bound(s@.skip(from + 1));
        }
        width_of(s[from]) + rest
    }
}

proof fn lemma_utf8_len_bound(s: Seq<char>)
    ensures
        utf8_len(s) <= 4 * s.len(),
    decreases s.len(),
{
    if s.len() > 0 {
        lemma_utf8_len_bound(s.drop_first());
    }
}

/// The character index at which byte offset `b` of `s[from..]` falls, when
/// it falls on a boundary.
fn boundary_from(s: &Vec<char>, from: usize, b: usize) -> (r: Option<usize>)
    requires
        from <= s.len(),
    ensures
        match split_at_byte(s@.skip(from as int), b as nat) {
            Some((x, y)) => r matches Some(j) && from <= j <= s.len() && x == s@.subrange(
                from as int,
                j as int,
            ) && y == s@.skip(j as int),
            None => r is None,
        },
    decreases s.len() - from,
{
    if b == 0 {
        assert(s@.subrange(from as int, from as int) == Seq::<char>::empty());
        return Some(from);
    }
    if from == s.len() {
        return None;
    }
    let w = width_of(s[from]);
    if w > b {
        return None;
    }
    assert(s@.skip(from as int).drop_first() == s@.skip(from + 1));
    match boundary_from(s, from + 1, b - w) {
        Some(j) => {
            assert(seq![s@[from as int]] + s@.subrange(from + 1, j as int) == s@.subrange(
                from as int,
                j as int,
            ));
            Some(j)
        },
        None => None,
    }
}

// -------------------------------------------------------------------- hex ---

/// The hex digits of a colour value: trimmed, unquoted, without a leading `#`.
pub open spec fn hex_part(value: Seq<char>) -> Seq<char> {
    trim_start_char(trim_char(trim(value), '"'), '#')
}

/// `u8::from_str_radix(_, 16)`.
pub open spec fn hex_byte(s: Seq<char>) -> Option<u8> {
    match parse_unsigned(s, 16, 255) {
        Some(v) => Some(v as u8),
        None => None,
    }
}

/// Reading a colour value slices its hex digits at byte offsets 2 and 4 —
/// the second slice only once the first pair has parsed. Where such an
/// offset falls inside a character, the slicing panics.
pub open spec fn hex_slicing_panics(value: Seq<char>) -> bool {
    let hex = hex_part(value);
    utf8_len(hex) == 6 && match split_at_byte(hex, 2) {
        None => true,
        Some((p0, r0)) => hex_byte(p0) is Some && split_at_byte(r0, 2) is None,
    }
}

/// The colour `#rrggbb` (quotes, `#` and surrounding white space optional)
/// stands for: three pairs of hex digits, each of which may carry a `+`, as
/// `from_str_radix` allows.
pub open spec fn hex_color(value: Seq<char>) -> Option<(u8, u8, u8)> {
    let hex = hex_part(value);
    if utf8_len(hex) != 6 {
        None
    } else {
        match split_at_byte(hex, 2) {
            Some((p0, r0)) => match hex_byte(p0) {
                Some(r) => match split_at_byte(r0, 2) {
                    Some((p1, p2)) => match (hex_byte(p1), hex_byte(p2)) {
                        (Some(g), Some(b)) => Some((r, g, b)),
                        _ => None,
                    },
                    None => None,
                },
                None => None,
            },
            None => None,
        }
    }
}

fn hex_byte_of(s: &Vec<char>) -> (r: Option<u8>)
    ensures
        r == hex_byte(s@),
{
    match parse_unsigned_in(s, 16, 255) {
        Some(v) => Some(v as u8),
        None => None,
    }
}

/// Parse a `#rrggbb` colour value.
pub fn parse_hex(value: &str) -> (r: Option<(u8, u8, u8)>)
    requires
        !hex_slicing_panics(value@),
    ensures
        r == hex_color(value@),
{
    let hex = trimmed_start_char(&trimmed_char(&trimmed(&chars_of(value)), '"'), '#');
    if hex.len() > 6 {
        proof {
            lemma_utf8_len_at_least(hex@);
        }
        return None;
    }
    let total = byte_len_from(&hex, 0);
    assert(hex@.skip(0) == hex@);
    if total != 6 {
        return None;
    }
    assert(hex@.skip(0) == hex@);
    let j2 = match boundary_from(&hex, 0, 2) {
        Some(j) => j,
        None => {
            return None;
        },
    };
    let r = match hex_byte_of(&slice_of(&hex, 0, j2)) {
        Some(v) => v,
        None => {
            return None;
        },
    };
    let j4 = match boundary_from(&hex, j2, 2) {
        Some(j) => j,
        None => {
            return None;
        },
    };
    let g = hex_byte_of(&slice_of(&hex, j2, j4));
    let b = hex_byte_of(&slice_of(&hex, j4, hex.len()));
    assert(hex@.subrange(j4 as int, hex@.len() as int) == hex@.skip(j4 as int));
    match (g, b) {
        (Some(g), Some(b)) => Some((r, g, b)),
        _ => None,
    }
}

/// Whether reading the colour value `value` would slice it inside a
/// character, which `parse_hex` leaves out.
pub fn hex_panics(value: &str) -> (r: bool)
    ensures
        r == hex_slicing_panics(value@),
{
    let hex = trimmed_start_char(&trimmed_char(&trimmed(&chars_of(value)), '"'), '#');
    if hex.len() > 6 {
        proof {
            lemma_utf8_len_at_least(hex@);
        }
        return false;
    }
    let total = byte_len_from(&hex, 0);
    assert(hex@.skip(0) == hex@);
    if total != 6 {
        return false;
    }
    match boundary_from(&hex, 0, 2) {
        None => true,
        Some(j2) => {
            let first = hex_byte_of(&slice_of(&hex, 0, j2));
            if first.is_none() {
                false
            } else {
                boundary_from(&hex, j2, 2).is_none()
            }
        },
    }
}

proof fn lemma_utf8_len_at_least(s: Seq<char>)
    ensures
        utf8_len(s) >= s.len(),
    decreases s.len(),
{
    if s.len() > 0 {
        lemma_utf8_len_at_least(s.drop_first());
    }
}

// -------------------------------------------------------------- distance ---

/// Perceptually weighted RGB distance. Good enough to tell cyan from amber,
/// which is all this has to do.
pub open spec fn color_distance(a: (u8, u8, u8), b: (u8, u8, u8)) -> int {
    3 * ((a.0 - b.0) * (a.0 - b.0)) + 4 * ((a.1 - b.1) * (a.1 - b.1)) + 2 * ((a.2 - b.2) * (a.2
        - b.2))
}

fn square_diff(x: u8, y: u8) -> (r: i32)
    ensures
        r == (x - y) * (x - y),
        0 <= r <= 65025,
{
    let d = (x as i32) - (y as i32);
    assert(0 <= d * d <= 65025) by (nonlinear_arith)
        requires
            -255 <= d <= 255,
    ;
    d * d
}

/// The weighted distance between two colours.
pub fn distance(a: (u8, u8, u8), b: (u8, u8, u8)) -> (r: i32)
    ensures
        r == color_distance(a, b),
{
    3 * square_diff(a.0, b.0) + 4 * square_diff(a.1, b.1) + 2 * square_diff(a.2, b.2)
}

/// The index `Iterator::min_by_key` picks for the distance to `rgb`: the
/// first of the nearest.
pub open spec fn nearest_in(cands: Seq<(u8, u8, u8)>, rgb: (u8, u8, u8)) -> Option<int>
    decreases cands.len(),
{
    if cands.len() == 0 {
        None
    } else {
        let k = cands.len() - 1;
        let p = nearest_in(cands.drop_last(), rgb);
        if p is None || color_distance(rgb, cands[k]) < color_distance(rgb, cands[p.unwrap()]) {
            Some(k)
        } else {
            p
        }
    }
}

/// The nearest is nearest: no accent is closer than the one picked, and
/// every one before it is farther.
pub proof fn law_accent_is_nearest(cands: Seq<(u8, u8, u8)>, rgb: (u8, u8, u8))
    ensures
        cands.len() > 0 <==> nearest_in(cands, rgb) is Some,
        nearest_in(cands, rgb) matches Some(k) ==> 0 <= k < cands.len() && (forall|j: int|
            0 <= j < cands.len() ==> color_distance(rgb, cands[k]) <= color_distance(
                rgb,
                cands[j],
            )) && (forall|j: int|
            0 <= j < k ==> color_distance(rgb, cands[k]) < color_distance(rgb, cands[j])),
    decreases cands.len(),
{
    if cands.len() > 0 {
        law_accent_is_nearest(cands.drop_last(), rgb);
        assert forall|j: int| 0 <= j < cands.len() - 1 implies cands.drop_last()[j] == cands[j] by {}
    }
}

/// Index of the accent nearest to `rgb`, the first of equals.
pub fn nearest_accent(rgb: (u8, u8, u8)) -> (r: usize)
    ensures
        nearest_in(accent_primaries(), rgb) == Some(r as int),
{
    let cands = primaries();
    let mut best: usize = 0;
    let mut best_d = distance(rgb, cands[0]);
    let mut i: usize = 1;
    assert(cands@.take(1).drop_last() == Seq::<(u8, u8, u8)>::empty());
    assert(nearest_in(Seq::<(u8, u8, u8)>::empty(), rgb) is None);
    assert(nearest_in(cands@.take(1), rgb) == Some(0int));
    while i < cands.len()
        invariant
            1 <= i <= cands.len(),
            cands@ == accent_primaries(),
            best < i,
            best_d == color_distance(rgb, cands@[best as int]),
            nearest_in(cands@.take(i as int), rgb) == Some(best as int),
        decreases cands.len() - i,
    {
        let ghost t1 = cands@.take(i + 1);
        assert(t1.drop_last() == cands@.take(i as int));
        assert(t1[best as int] == cands@[best as int]);
        let d = distance(rgb, cands[i]);
        if d < best_d {
            best = i;
            best_d = d;
        }
        i += 1;
    }
    assert(cands@.take(cands.len() as int) == cands@);
    best
}

// ---------------------------------------------------------------- accent ---

/// What reading `colors.toml` up to some line has found: the accent colour,
/// if the last `accent` line gave one, and whether the mode is dark.
pub open spec fn colors_step(state: (Option<(u8, u8, u8)>, bool), line: Seq<char>) -> (
    Option<(u8, u8, u8)>,
    bool,
) {
    match split_once(line, '=') {
        Some((key, value)) => {
            let k = trim(key);
            if k == "accent"@ {
                (hex_color(value), state.1)
            } else if k == "mode"@ {
                (state.0, !eq_ignore_case(trim_char(trim(value), '"'), "light"@))
            } else {
                state
            }
        },
        None => state,
    }
}

/// The accent and mode the lines of `colors.toml` set; the mode is dark
/// unless a `mode` line says `light`.
pub open spec fn colors_of(ls: Seq<Seq<char>>) -> (Option<(u8, u8, u8)>, bool)
    decreases ls.len(),
{
    if ls.len() == 0 {
        (None, true)
    } else {
        colors_step(colors_of(ls.drop_last()), ls.last())
    }
}

/// A line without `'='` holds no assignment.
proof fn lemma_no_assignment(l: Seq<char>)
    requires
        lacks(l, '='),
    ensures
        split_once(l, '=') is None,
{
    lemma_find(l, seq!['=']);
    if find(l, seq!['=']) is Some {
        let k = find(l, seq!['=']).unwrap() as int;
        assert(l.subrange(k, k + 1)[0] == l[k]);
    }
}

/// Lines without `'='` (blank lines, comments, section headers) change
/// nothing: putting one anywhere among the lines of `colors.toml` leaves the
/// accent and mode they set as they were.
pub proof fn law_lines_without_assignment_change_nothing(ls: Seq<Seq<char>>, i: int, l: Seq<char>)
    requires
        0 <= i <= ls.len(),
        lacks(l, '='),
    ensures
        colors_of(ls.insert(i, l)) == colors_of(ls),
    decreases ls.len(),
{
    lemma_no_assignment(l);
    let m = ls.insert(i, l);
    if i == ls.len() {
        assert(m.drop_last() == ls);
        assert(m.last() == l);
    } else {
        assert(m.drop_last() == ls.drop_last().insert(i, l));
        assert(m.last() == ls.last());
        law_lines_without_assignment_change_nothing(ls.drop_last(), i, l);
    }
}

/// Every `accent` line of the text has a value that can be read without a
/// panic.
pub open spec fn accent_lines_readable(text: Seq<char>) -> bool {
    forall|i: int|
        0 <= i < lines(text).len() ==> match split_once(#[trigger] lines(text)[i], '=') {
            Some((key, value)) => trim(key) == "accent"@ ==> !hex_slicing_panics(value),
            None => true,
        }
}

/// `(accent index, dark mode)` that `colors.toml` asks for.
pub open spec fn accent_choice(text: Seq<char>) -> Option<(int, bool)> {
    let (rgb, dark) = colors_of(lines(text));
    match rgb {
        Some(c) => match nearest_in(accent_primaries(), c) {
            Some(k) => Some((k, dark)),
            None => None,
        },
        None => None,
    }
}

/// Whether every `accent` line of `text` can be read without a panic, which
/// `accent` asks of its text.
pub fn accent_readable(text: &str) -> (r: bool)
    ensures
        r == accent_lines_readable(text@),
{
    let ls = lines_of(&chars_of(text));
    let ghost all = lines(text@);
    let accent_key = chars_of("accent");
    let mut i: usize = 0;
    while i < ls.len()
        invariant
            i <= ls.len(),
            ls@.map_values(|v: Vec<char>| v@) == all,
            all == lines(text@),
            accent_key@ == "accent"@,
            forall|j: int|
                0 <= j < i ==> match split_once(#[trigger] all[j], '=') {
                    Some((key, value)) => trim(key) == "accent"@ ==> !hex_slicing_panics(value),
                    None => true,
                },
        decreases ls.len() - i,
    {
        assert(all[i as int] == ls@[i as int]@);
        match split_once_at(&ls[i], '=') {
            Some((key, value)) => {
                let k = trimmed(&key);
                if same_chars(&k, &accent_key) {
                    let v = string_of(&value);
                    if hex_panics(v.as_str()) {
                        return false;
                    }
                }
            },
            None => {},
        }
        i += 1;
    }
    true
}

/// `(accent index, dark mode)` from the text of the active Omarchy theme's
/// `colors.toml`.
pub fn accent(text: &str) -> (r: Option<(usize, bool)>)
    requires
        accent_lines_readable(text@),
    ensures
        match r {
            Some((k, dark)) => accent_choice(text@) == Some((k as int, dark)),
            None => accent_choice(text@) is None,
        },
{
    let ls = lines_of(&chars_of(text));
    let ghost all = lines(text@);
    let accent_key = chars_of("accent");
    let mode_key = chars_of("mode");
    let light = chars_of("light");
    let mut rgb: Option<(u8, u8, u8)> = None;
    let mut dark = true;
    let mut i: usize = 0;
    assert(all.take(0).len() == 0);
    while i < ls.len()
        invariant
            i <= ls.len(),
            ls@.map_values(|v: Vec<char>| v@) == all,
            all == lines(text@),
            accent_lines_readable(text@),
            accent_key@ == "accent"@,
            mode_key@ == "mode"@,
            light@ == "light"@,
            (rgb, dark) == colors_of(all.take(i as int)),
        decreases ls.len() - i,
    {
        let ghost t1 = all.take(i + 1);
        assert(t1.drop_last() == all.take(i as int));
        assert(t1.last() == ls@[i as int]@);
        assert(all[i as int] == ls@[i as int]@);
        match split_once_at(&ls[i], '=') {
            Some((key, value)) => {
                let k = trimmed(&key);
                if same_chars(&k, &accent_key) {
                    let v = string_of(&value);
                    assert(!hex_slicing_panics(value@));
                    rgb = parse_hex(v.as_str());
                } else if same_chars(&k, &mode_key) {
                    let m = trimmed_char(&trimmed(&value), '"');
                    dark = !same_ignoring_case(&m, &light);
                }
            },
            None => {},
        }
        i += 1;
    }
    assert(all.take(ls.len() as int) == all);
    match rgb {
        Some(c) => {
            let k = nearest_accent(c);
            Some((k, dark))
        },
        None => None,
    }
}

} // verus!
