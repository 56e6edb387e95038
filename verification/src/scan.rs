//! Discovery of cursor themes on disk.
//!
//! Two on-disk formats coexist on a modern Hyprland box and the old shell
//! script only knew about one of them:
//!
//! * **Xcursor** — `<theme>/cursors/<shape>`, binary Xcursor files holding
//!   pre-rasterized ARGB images at a handful of nominal sizes.
//! * **hyprcursor** — a manifest plus `<theme>/hyprcursors/<shape>.hlc`, where
//!   each `.hlc` is a zip of `meta.hl` and one or more SVGs. hyprcursor accepts
//!   the manifest as either hyprlang (`manifest.hl`) or TOML (`manifest.toml`);
//!   both are in the wild, so both count.
//!
//! A theme may ship either, or both. Walking the directories is the caller's
//! part; deciding what each directory is, and which of them make the list,
//! is this module's.
use crate::text::{
    append, chars_of, lemma_lex_asymmetric, lemma_lex_irreflexive, lemma_lex_total,
    lemma_lex_transitive, lex_less, lex_lt, same_chars, contains, eq_ignore_case, has, is_ascii_alnum, lines, lines_of,
    matches_at, occurs_at, same_ignoring_case, slice_of, split_once, split_once_at, string_of,
    trim, trim_char, trimmed, trimmed_char,
};
use std::path::PathBuf;
use vstd::prelude::*;

verus! {

broadcast use vstd::string::group_string_axioms;

/// A path on disk; carried through, never looked into.
#[verifier::external_type_specification]
#[verifier::external_body]
pub struct ExPathBuf(PathBuf);

/// `PathBuf::clone`, so that a theme can be copied; nothing is claimed of
/// the copy.
pub assume_specification[ <PathBuf as Clone>::clone ](p: &PathBuf) -> PathBuf;

#[derive(Clone, Copy, PartialEq, Eq, Debug, Structural)]
pub enum Format {
    Xcursor,
    Hyprcursor,
    Both,
}

impl Format {
    pub open spec fn label_text(self) -> Seq<char> {
        match self {
            Format::Xcursor => "X11"@,
            Format::Hyprcursor => "hypr"@,
            Format::Both => "X11 + hypr"@,
        }
    }

    pub fn label(self) -> (r: &'static str)
        ensures
            r@ == self.label_text(),
    {
        match self {
            Format::Xcursor => "X11",
            Format::Hyprcursor => "hypr",
            Format::Both => "X11 + hypr",
        }
    }

    pub open spec fn hypr(self) -> bool {
        self is Hyprcursor || self is Both
    }

    pub open spec fn x11(self) -> bool {
        self is Xcursor || self is Both
    }

    pub fn has_hypr(self) -> (r: bool)
        ensures
            r == self.hypr(),
    {
        matches!(self, Format::Hyprcursor | Format::Both)
    }

    pub fn has_x11(self) -> (r: bool)
        ensures
            r == self.x11(),
    {
        matches!(self, Format::Xcursor | Format::Both)
    }
}

/// Whether a theme's name declares it as a light or dark variant. Plenty of
/// themes declare neither, and guessing from the pixels would be worse than
/// saying nothing.
#[derive(Clone, Copy, PartialEq, Eq, Debug, Structural)]
pub enum Tone {
    Light,
    Dark,
    Unstated,
}

impl Tone {
    pub open spec fn label_text(self) -> Seq<char> {
        match self {
            Tone::Light => "light"@,
            Tone::Dark => "dark"@,
            Tone::Unstated => ""@,
        }
    }

    pub fn label(self) -> (r: &'static str)
        ensures
            r@ == self.label_text(),
    {
        match self {
            Tone::Light => "light",
            Tone::Dark => "dark",
            Tone::Unstated => "",
        }
    }
}

// ------------------------------------------------------------ lower case ---

/// What `str::to_lowercase` makes of a string: Unicode lower-case mapping,
/// one character at a time, with its context rule for final sigma.
pub uninterp spec fn lowercased(s: Seq<char>) -> Seq<char>;

/// Calls `str::to_lowercase`. Claims only that the result depends on the
/// characters of `s` alone; the Unicode case tables are not restated.
#[verifier::external_body]
pub fn lowercase(s: &str) -> (r: String)
    ensures
        r@ == lowercased(s@),
{
    s.to_lowercase()
}

// ----------------------------------------------------------------- words ---

/// `w` stands in `s` as a whole word: the runs between characters that are
/// not ASCII letters or digits are what `str::split` hands out for the
/// predicate `!c.is_ascii_alphanumeric()`, and for a word made of such
/// characters being one of those runs means being delimited like this.
pub open spec fn has_word(s: Seq<char>, w: Seq<char>) -> bool {
    exists|i: int|
        #![trigger matches_at(s, w, i)]
        matches_at(s, w, i) && (i == 0 || !is_ascii_alnum(s[i - 1])) && (i + w.len() == s.len()
            || !is_ascii_alnum(s[i + w.len()]))
}

pub fn alnum(c: char) -> (r: bool)
    ensures
        r == is_ascii_alnum(c),
{
    ('0' <= c && c <= '9') || ('a' <= c && c <= 'z') || ('A' <= c && c <= 'Z')
}

/// Whether `w` stands in `s` as a whole word.
pub fn find_word(s: &Vec<char>, w: &Vec<char>) -> (r: bool)
    ensures
        r == has_word(s@, w@),
{
    let mut i: usize = 0;
    while i < s.len()
        invariant
            i <= s.len(),
            forall|j: int|
                0 <= j < i ==> !(#[trigger] matches_at(s@, w@, j) && (j == 0 || !is_ascii_alnum(
                    s@[j - 1],
                )) && (j + w@.len() == s@.len() || !is_ascii_alnum(s@[j + w@.len()]))),
        decreases s.len() - i,
    {
        if occurs_at(s, w, i) {
            let before = i == 0 || !alnum(s[i - 1]);
            let after = i + w.len() == s.len() || !alnum(s[i + w.len()]);
            if before && after {
                return true;
            }
        }
        i += 1;
    }
    if occurs_at(s, w, i) {
        let before = i == 0 || !alnum(s[i - 1]);
        if before {
            return true;
        }
    }
    assert forall|j: int| !(#[trigger] matches_at(s@, w@, j) && (j == 0 || !is_ascii_alnum(
        s@[j - 1],
    )) && (j + w@.len() == s@.len() || !is_ascii_alnum(s@[j + w@.len()]))) by {
        if j > s@.len() {
            assert(!matches_at(s@, w@, j));
        }
    }
    false
}

/// The tone a lower-cased theme name declares: a `dark` word wins, then a
/// `light` or `white` word.
pub open spec fn tone_from_lower(lower: Seq<char>) -> Tone {
    if has_word(lower, "dark"@) {
        Tone::Dark
    } else if has_word(lower, "light"@) || has_word(lower, "white"@) {
        Tone::Light
    } else {
        Tone::Unstated
    }
}

/// Read the tone off an already lower-cased theme name. `-dark` and
/// `-light`/`-white` are the two conventions that actually appear; anything
/// else stays unstated.
pub fn tone_of_lowercase(lower: &str) -> (r: Tone)
    ensures
        r == tone_from_lower(lower@),
{
    let l = chars_of(lower);
    if find_word(&l, &chars_of("dark")) {
        Tone::Dark
    } else if find_word(&l, &chars_of("light")) || find_word(&l, &chars_of("white")) {
        Tone::Light
    } else {
        Tone::Unstated
    }
}

/// Read the tone off the theme name.
pub fn tone_of(name: &str) -> (r: Tone)
    ensures
        r == tone_from_lower(lowercased(name@)),
{
    let lower = lowercase(name);
    tone_of_lowercase(lower.as_str())
}

/// Whether a lower-cased theme name marks a mirrored (left-handed) variant:
/// a `right`, `lefthand` or `righthand` word, or `left-hand` anywhere.
pub open spec fn mirrored_from_lower(lower: Seq<char>) -> bool {
    has_word(lower, "right"@) || has_word(lower, "lefthand"@) || has_word(lower, "righthand"@)
        || contains(lower, "left-hand"@)
}

/// Mirrored variants, from an already lower-cased theme name. Two naming
/// conventions in the wild: Bibata's `-Right` suffix and Nordzy's
/// `-lefthand`. Both mean the same thing — the pointer tips the other way.
pub fn mirrored_of_lowercase(lower: &str) -> (r: bool)
    ensures
        r == mirrored_from_lower(lower@),
{
    let l = chars_of(lower);
    find_word(&l, &chars_of("right")) || find_word(&l, &chars_of("lefthand")) || find_word(
        &l,
        &chars_of("righthand"),
    ) || has(&l, &chars_of("left-hand"))
}

/// Mirrored (left-handed) variants, from the theme name.
pub fn mirrored_of(name: &str) -> (r: bool)
    ensures
        r == mirrored_from_lower(lowercased(name@)),
{
    let lower = lowercase(name);
    mirrored_of_lowercase(lower.as_str())
}

// ---------------------------------------------------------- search path ---

/// A directory to look for themes in: `path`, taken under the home directory
/// when `under_home` is set, and whether themes found there count as
/// user-installed.
pub struct IconDir {
    pub under_home: bool,
    pub path: &'static str,
    pub user_installed: bool,
}

pub open spec fn icon_dir_view(d: IconDir) -> (bool, Seq<char>, bool) {
    (d.under_home, d.path@, d.user_installed)
}

/// The search path, in XDG icon lookup order: the two directories under the
/// home directory, when there is one, then the two system ones. Earlier
/// entries win on a name collision, so a user-installed theme shadows a
/// system one of the same name, which is how the icon spec says it should
/// resolve.
pub open spec fn search_order(has_home: bool) -> Seq<(bool, Seq<char>, bool)> {
    let system = seq![(false, "/usr/share/icons"@, false), (false, "/usr/local/share/icons"@, false)];
    if has_home {
        seq![(true, ".local/share/icons"@, true), (true, ".icons"@, true)] + system
    } else {
        system
    }
}

/// Where to look for themes, given whether there is a home directory.
pub fn search_dirs(has_home: bool) -> (r: Vec<IconDir>)
    ensures
        r@.map_values(|d: IconDir| icon_dir_view(d)) == search_order(has_home),
{
    let mut dirs: Vec<IconDir> = Vec::new();
    if has_home {
        dirs.push(IconDir { under_home: true, path: ".local/share/icons", user_installed: true });
        dirs.push(IconDir { under_home: true, path: ".icons", user_installed: true });
    }
    dirs.push(IconDir { under_home: false, path: "/usr/share/icons", user_installed: false });
    dirs.push(IconDir { under_home: false, path: "/usr/local/share/icons", user_installed: false });
    assert(dirs@.map_values(|d: IconDir| icon_dir_view(d)) =~= search_order(has_home));
    dirs
}

/// User directories come first: every directory whose themes count as
/// user-installed is searched before every one whose themes do not.
pub proof fn law_user_dirs_first(has_home: bool, i: int, j: int)
    requires
        0 <= i < j < search_order(has_home).len(),
    ensures
        search_order(has_home)[j].2 ==> search_order(has_home)[i].2,
{
}

// ------------------------------------------------------------- directory ---

/// The format a theme directory ships: a `cursors` directory makes it
/// Xcursor, a `hyprcursors` directory together with a manifest makes it
/// hyprcursor; neither makes it no theme at all.
pub open spec fn format_of(has_cursors: bool, has_hyprcursors: bool, has_manifest: bool) -> Option<
    Format,
> {
    let hypr = has_hyprcursors && has_manifest;
    if has_cursors && hypr {
        Some(Format::Both)
    } else if has_cursors {
        Some(Format::Xcursor)
    } else if hypr {
        Some(Format::Hyprcursor)
    } else {
        None
    }
}

/// Classifies a theme directory by what it holds.
pub fn classify(has_cursors: bool, has_hyprcursors: bool, has_manifest: bool) -> (r: Option<
    Format,
>)
    ensures
        r == format_of(has_cursors, has_hyprcursors, has_manifest),
{
    let hypr = has_hyprcursors && has_manifest;
    match (has_cursors, hypr) {
        (true, true) => Some(Format::Both),
        (true, false) => Some(Format::Xcursor),
        (false, true) => Some(Format::Hyprcursor),
        (false, false) => None,
    }
}

/// hyprcursor reads either `manifest.hl` (hyprlang) or `manifest.toml`, in
/// that order of preference. Checking only for the former drops real themes
/// — `sweet-cursors-hyprcursor` ships TOML.
pub fn manifest(hl_is_file: bool, toml_is_file: bool) -> (r: Option<&'static str>)
    ensures
        hl_is_file ==> (r matches Some(n) && n@ == "manifest.hl"@),
        !hl_is_file && toml_is_file ==> (r matches Some(n) && n@ == "manifest.toml"@),
        !hl_is_file && !toml_is_file ==> r is None,
{
    if hl_is_file {
        Some("manifest.hl")
    } else if toml_is_file {
        Some("manifest.toml")
    } else {
        None
    }
}

// ---------------------------------------------------------------- fields ---

/// The value a line gives for `key`: the line splits at its first `'='`, the
/// part before it, trimmed, is `key` in any ASCII letter case, and the part
/// after it, trimmed and stripped of double quotes, is not empty.
pub open spec fn line_field(line: Seq<char>, key: Seq<char>) -> Option<Seq<char>> {
    match split_once(line, '=') {
        Some((k, v)) => {
            let val = trim_char(trim(v), '"');
            if eq_ignore_case(trim(k), key) && val.len() > 0 {
                Some(val)
            } else {
                None
            }
        },
        None => None,
    }
}

/// The first value any of `ls` gives for `key`.
pub open spec fn first_field(ls: Seq<Seq<char>>, key: Seq<char>) -> Option<Seq<char>>
    decreases ls.len(),
{
    if ls.len() == 0 {
        None
    } else {
        match line_field(ls[0], key) {
            Some(v) => Some(v),
            None => first_field(ls.drop_first(), key),
        }
    }
}

/// The value of a `Key=Value` (index.theme) or `key = value` (manifest.hl)
/// field in a file's text. Lines that are not assignments, such as section
/// headers, are passed over.
pub open spec fn field_value(text: Seq<char>, key: Seq<char>) -> Option<Seq<char>> {
    first_field(lines(text), key)
}

fn line_field_of(line: &Vec<char>, key: &Vec<char>) -> (r: Option<Vec<char>>)
    ensures
        match r {
            Some(v) => line_field(line@, key@) == Some(v@),
            None => line_field(line@, key@) is None,
        },
{
    match split_once_at(line, '=') {
        Some((k, v)) => {
            let val = trimmed_char(&trimmed(&v), '"');
            if same_ignoring_case(&trimmed(&k), key) && val.len() > 0 {
                Some(val)
            } else {
                None
            }
        },
        None => None,
    }
}

/// Pull the value of field `key` out of a file's text.
pub fn read_field(text: &str, key: &str) -> (r: Option<String>)
    ensures
        match r {
            Some(v) => field_value(text@, key@) == Some(v@),
            None => field_value(text@, key@) is None,
        },
{
    let ls = lines_of(&chars_of(text));
    let k = chars_of(key);
    let ghost all = lines(text@);
    assert(all.skip(0) == all);
    let mut i: usize = 0;
    while i < ls.len()
        invariant
            i <= ls.len(),
            ls@.map_values(|v: Vec<char>| v@) == all,
            k@ == key@,
            field_value(text@, key@) == first_field(all.skip(i as int), key@),
        decreases ls.len() - i,
    {
        assert(all.skip(i as int)[0] == ls@[i as int]@);
        assert(all.skip(i as int).drop_first() == all.skip(i + 1));
        match line_field_of(&ls[i], &k) {
            Some(v) => {
                return Some(string_of(&v));
            },
            None => {},
        }
        i += 1;
    }
    None
}

/// The comment shown for a theme: `Comment=` from `index.theme`, or else,
/// for a theme with hyprcursor assets, `description =` from its manifest.
pub open spec fn description(
    index_text: Option<Seq<char>>,
    manifest_text: Option<Seq<char>>,
    format: Format,
) -> Seq<char> {
    let from_index = match index_text {
        Some(t) => field_value(t, "Comment"@),
        None => None,
    };
    let from_manifest = match manifest_text {
        Some(t) => if format.hypr() {
            field_value(t, "description"@)
        } else {
            None
        },
        None => None,
    };
    match from_index {
        Some(c) => c,
        None => match from_manifest {
            Some(c) => c,
            None => Seq::empty(),
        },
    }
}

pub open spec fn opt_view(o: Option<String>) -> Option<Seq<char>> {
    match o {
        Some(s) => Some(s@),
        None => None,
    }
}

/// The comment for a theme, from the texts of its `index.theme` and its
/// manifest (`None` where there is no such file to read).
pub fn describe(index_text: &Option<String>, manifest_text: &Option<String>, format: Format) -> (r:
    String)
    ensures
        r@ == description(opt_view(*index_text), opt_view(*manifest_text), format),
{
    let from_index = match index_text {
        Some(t) => read_field(t.as_str(), "Comment"),
        None => None,
    };
    let from_manifest = match manifest_text {
        Some(t) => if format.has_hypr() {
            read_field(t.as_str(), "description")
        } else {
            None
        },
        None => None,
    };
    match from_index {
        Some(c) => c,
        None => match from_manifest {
            Some(c) => c,
            None => String::new(),
        },
    }
}

// ---------------------------------------------------------------- themes ---

#[derive(Clone, Debug)]
pub struct Theme {
    /// Directory name — this is what `hyprctl setcursor` and `gsettings` want.
    pub name: String,
    pub path: PathBuf,
    pub format: Format,
    /// `Comment=` from index.theme, or `description =` from manifest.hl.
    pub comment: String,
    /// True when found under $HOME rather than a system directory.
    pub user_installed: bool,
    pub tone: Tone,
    /// A left-handed / mirrored variant.
    pub mirrored: bool,
}

pub struct ThemeView {
    pub name: Seq<char>,
    pub path: PathBuf,
    pub format: Format,
    pub comment: Seq<char>,
    pub user_installed: bool,
    pub tone: Tone,
    pub mirrored: bool,
}

impl View for Theme {
    type V = ThemeView;

    open spec fn view(&self) -> ThemeView {
        ThemeView {
            name: self.name@,
            path: self.path,
            format: self.format,
            comment: self.comment@,
            user_installed: self.user_installed,
            tone: self.tone,
            mirrored: self.mirrored,
        }
    }
}

/// One entry of an icon directory, with what the caller found on disk about
/// it.
pub struct Found {
    /// The entry's file name.
    pub name: String,
    pub path: PathBuf,
    /// Whether the icon directory it sits in is under $HOME.
    pub user_installed: bool,
    /// Whether the entry is a directory (following symlinks: some themes are
    /// installed as links into /usr/share).
    pub is_dir: bool,
    /// Whether it holds a `cursors` directory.
    pub has_cursors: bool,
    /// Whether it holds a `hyprcursors` directory.
    pub has_hyprcursors: bool,
    /// Whether it holds a hyprcursor manifest.
    pub has_manifest: bool,
    /// The text of that manifest, where it could be read.
    pub manifest_text: Option<String>,
    /// The text of its `index.theme`, where it could be read.
    pub index_text: Option<String>,
}

/// `default` is a pointer-to-another-theme, not a theme; `hicolor` and
/// `locolor` are icon themes that happen to carry a cursors dir.
pub open spec fn skipped_name(name: Seq<char>) -> bool {
    name == "default"@ || name == "hicolor"@ || name == "locolor"@
}

/// Whether an entry is a theme: a directory in one of the two formats, not
/// one of the names that only look like themes.
pub open spec fn admitted(f: Found) -> bool {
    f.is_dir && format_of(f.has_cursors, f.has_hyprcursors, f.has_manifest) is Some
        && !skipped_name(f.name@)
}

/// The key themes are told apart and ordered by: the lower-cased name.
pub open spec fn theme_key(f: Found) -> Seq<char> {
    lowercased(f.name@)
}

/// The theme an admitted entry stands for.
pub open spec fn theme_view_of(f: Found) -> ThemeView {
    let format = format_of(f.has_cursors, f.has_hyprcursors, f.has_manifest).unwrap();
    ThemeView {
        name: f.name@,
        path: f.path,
        format,
        comment: description(opt_view(f.index_text), opt_view(f.manifest_text), format),
        user_installed: f.user_installed,
        tone: tone_from_lower(lowercased(f.name@)),
        mirrored: mirrored_from_lower(lowercased(f.name@)),
    }
}

/// Entry `k` is admitted and no earlier admitted entry has its key: it is
/// the one that stands for its name when several directories share it.
pub open spec fn first_with_key(found: Seq<Found>, k: int) -> bool {
    &&& 0 <= k < found.len()
    &&& admitted(found[k])
    &&& forall|j: int|
        0 <= j < k && admitted(#[trigger] found[j]) ==> theme_key(found[j]) != theme_key(found[k])
}

fn skipped(name: &String) -> (r: bool)
    ensures
        r == skipped_name(name@),
{
    let n = chars_of(name.as_str());
    same_chars(&n, &chars_of("default")) || same_chars(&n, &chars_of("hicolor")) || same_chars(
        &n,
        &chars_of("locolor"),
    )
}

/// `r` lists the themes of the entries `found`: sorted by lower-cased name
/// with no two of one key, each the theme of the first admitted entry of its
/// key, and every admitted entry's key among them.
pub open spec fn listing(found: Seq<Found>, r: Seq<Theme>) -> bool {
    &&& forall|a: int, b: int|
        0 <= a < b < r.len() ==> lex_lt(lowercased(r[a].name@), lowercased(r[b].name@))
    &&& forall|q: int|
        #![trigger r[q]]
        0 <= q < r.len() ==> exists|k: int|
            first_with_key(found, k) && r[q]@ == theme_view_of(#[trigger] found[k])
    &&& forall|k: int|
        0 <= k < found.len() && admitted(#[trigger] found[k]) ==> exists|q: int|
            0 <= q < r.len() && lowercased(r[q].name@) == theme_key(found[k])
}

/// Every usable cursor theme among the entries of the icon directories,
/// given in search order: earlier entries win on a name that differs only
/// in case, which is how a user-installed theme shadows a system one. The
/// result is sorted by lower-cased name, without two themes of one key.
pub fn themes(found: Vec<Found>) -> (r: Vec<Theme>)
    ensures
        listing(found@, r@),
{
    let ghost orig = found@;
    let n = found.len();
    let mut rest = found;
    let mut out: Vec<Theme> = Vec::new();
    let mut keys: Vec<Vec<char>> = Vec::new();
    let ghost mut src: Seq<int> = Seq::empty();
    let mut i: usize = 0;
    assert(orig.skip(0) == orig);
    while i < n
        invariant
            i <= n == orig.len(),
            rest@ == orig.skip(i as int),
            out.len() == keys.len() == src.len(),
            forall|q: int| 0 <= q < keys.len() ==> #[trigger] keys@[q]@ == lowercased(out@[q].name@),
            forall|q: int|
                0 <= q < src.len() ==> 0 <= #[trigger] src[q] < i && first_with_key(orig, src[q])
                    && out@[q]@ == theme_view_of(orig[src[q]]),
            forall|a: int, b: int|
                0 <= a < b < keys.len() ==> lex_lt(#[trigger] keys@[a]@, #[trigger] keys@[b]@),
            forall|j: int|
                0 <= j < i && admitted(#[trigger] orig[j]) ==> exists|q: int|
                    0 <= q < keys.len() && keys@[q]@ == theme_key(orig[j]),
        decreases n - i,
    {
        assert(rest@.len() > 0);
        let f = rest.remove(0);
        assert(f == orig[i as int]);
        assert(rest@ == orig.skip(i + 1));
        let ghost old_keys = keys@;
        let ghost old_out = out@;
        let ghost old_src = src;
        if f.is_dir {
            match classify(f.has_cursors, f.has_hyprcursors, f.has_manifest) {
                Some(format) => {
                    if !skipped(&f.name) {
                        let lower = lowercase(f.name.as_str());
                        let key = chars_of(lower.as_str());
                        let mut p: usize = 0;
                        while p < keys.len() && lex_less(&keys[p], &key)
                            invariant
                                p <= keys.len(),
                                forall|a: int| 0 <= a < p ==> lex_lt(#[trigger] keys@[a]@, key@),
                            decreases keys.len() - p,
                        {
                            p += 1;
                        }
                        if p < keys.len() && same_chars(&keys[p], &key) {
                            // Shadowed by an earlier entry of the same name.
                            assert(keys@[p as int]@ == theme_key(orig[i as int]));
                        } else {
                            proof {
                                assert forall|q: int| 0 <= q < keys.len() implies keys@[q]@
                                    != key@ by {
                                    if q < p {
                                        lemma_lex_irreflexive(key@);
                                    } else {
                                        lemma_lex_total(keys@[p as int]@, key@);
                                        if q > p {
                                            lemma_lex_transitive(
                                                key@,
                                                keys@[p as int]@,
                                                keys@[q]@,
                                            );
                                        }
                                        lemma_lex_irreflexive(key@);
                                    }
                                }
                                assert forall|q: int| p <= q < keys.len() implies lex_lt(
                                    key@,
                                    #[trigger] keys@[q]@,
                                ) by {
                                    lemma_lex_total(keys@[p as int]@, key@);
                                    if q > p {
                                        lemma_lex_transitive(key@, keys@[p as int]@, keys@[q]@);
                                    }
                                }
                                assert(first_with_key(orig, i as int)) by {
                                    assert forall|j: int|
                                        0 <= j < i && admitted(#[trigger] orig[j]) implies theme_key(
                                        orig[j],
                                    ) != theme_key(orig[i as int]) by {
                                        let q = choose|q: int|
                                            0 <= q < keys.len() && keys@[q]@ == theme_key(orig[j]);
                                    }
                                }
                            }
                            let comment = describe(&f.index_text, &f.manifest_text, format);
                            let tone = tone_of_lowercase(lower.as_str());
                            let mirrored = mirrored_of_lowercase(lower.as_str());
                            let t = Theme {
                                name: f.name,
                                path: f.path,
                                format,
                                comment,
                                user_installed: f.user_installed,
                                tone,
                                mirrored,
                            };
                            assert(t@ == theme_view_of(orig[i as int]));
                            out.insert(p, t);
                            keys.insert(p, key);
                            proof {
                                src = src.insert(p as int, i as int);
                                assert forall|q: int| 0 <= q < keys.len() implies #[trigger] keys@[q]@
                                    == lowercased(out@[q].name@) by {
                                    if q < p {
                                        assert(keys@[q] == old_keys[q]);
                                        assert(out@[q] == old_out[q]);
                                    } else if q > p {
                                        assert(keys@[q] == old_keys[q - 1]);
                                        assert(out@[q] == old_out[q - 1]);
                                    }
                                }
                                assert forall|q: int| 0 <= q < src.len() implies 0
                                    <= #[trigger] src[q] < i + 1 && first_with_key(orig, src[q])
                                    && out@[q]@ == theme_view_of(orig[src[q]]) by {
                                    if q < p {
                                        assert(src[q] == old_src[q]);
                                        assert(out@[q] == old_out[q]);
                                    } else if q > p {
                                        assert(src[q] == old_src[q - 1]);
                                        assert(out@[q] == old_out[q - 1]);
                                    }
                                }
                                assert forall|a: int, b: int| 0 <= a < b < keys.len() implies lex_lt(
                                    #[trigger] keys@[a]@,
                                    #[trigger] keys@[b]@,
                                ) by {
                                    if b < p {
                                        assert(keys@[a] == old_keys[a]);
                                        assert(keys@[b] == old_keys[b]);
                                    } else if b == p {
                                        assert(keys@[a] == old_keys[a]);
                                    } else if a < p {
                                        assert(keys@[a] == old_keys[a]);
                                        assert(keys@[b] == old_keys[b - 1]);
                                        lemma_lex_transitive(
                                            old_keys[a]@,
                                            key@,
                                            old_keys[b - 1]@,
                                        );
                                    } else if a == p {
                                        assert(keys@[b] == old_keys[b - 1]);
                                    } else {
                                        assert(keys@[a] == old_keys[a - 1]);
                                        assert(keys@[b] == old_keys[b - 1]);
                                    }
                                }
                                assert forall|j: int|
                                    0 <= j < i + 1 && admitted(#[trigger] orig[j]) implies exists|
                                    q: int,
                                | 0 <= q < keys.len() && keys@[q]@ == theme_key(orig[j]) by {
                                    if j < i {
                                        let q0 = choose|q: int|
                                            0 <= q < old_keys.len() && old_keys[q]@ == theme_key(
                                                orig[j],
                                            );
                                        if q0 < p {
                                            assert(keys@[q0] == old_keys[q0]);
                                        } else {
                                            assert(keys@[q0 + 1] == old_keys[q0]);
                                        }
                                    } else {
                                        assert(keys@[p as int]@ == theme_key(orig[j]));
                                    }
                                }
                            }
                        }
                    }
                },
                None => {},
            }
        }
        i += 1;
    }
    proof {
        assert forall|a: int, b: int| 0 <= a < b < out.len() implies lex_lt(
            lowercased(out@[a].name@),
            lowercased(out@[b].name@),
        ) by {
            assert(keys@[a]@ == lowercased(out@[a].name@));
            assert(keys@[b]@ == lowercased(out@[b].name@));
        }
        assert forall|q: int| #![trigger out@[q]] 0 <= q < out.len() implies exists|k: int|
            first_with_key(orig, k) && out@[q]@ == theme_view_of(#[trigger] orig[k]) by {
            assert(first_with_key(orig, src[q]));
        }
        assert forall|k: int| 0 <= k < orig.len() && admitted(#[trigger] orig[k]) implies exists|
            q: int,
        | 0 <= q < out.len() && lowercased(out@[q].name@) == theme_key(orig[k]) by {
            let q = choose|q: int| 0 <= q < keys.len() && keys@[q]@ == theme_key(orig[k]);
            assert(keys@[q]@ == lowercased(out@[q].name@));
        }
    }
    out
}

/// Entries come user directories first, as the search path gives them.
pub open spec fn user_first(found: Seq<Found>) -> bool {
    forall|a: int, b: int|
        0 <= a < b < found.len() && #[trigger] found[b].user_installed ==> #[trigger] found[a].user_installed
}

/// A user-installed theme shadows a system one of the same name: when the
/// entries come user directories first, the theme listed for the name of an
/// admitted user-installed entry is user-installed.
pub proof fn law_user_theme_shadows_system(found: Seq<Found>, r: Seq<Theme>, i: int)
    requires
        listing(found, r),
        user_first(found),
        0 <= i < found.len(),
        admitted(found[i]),
        found[i].user_installed,
    ensures
        exists|q: int|
            0 <= q < r.len() && lowercased(r[q].name@) == theme_key(found[i])
                && r[q].user_installed,
{
    let q = choose|q: int| 0 <= q < r.len() && lowercased(r[q].name@) == theme_key(found[i]);
    assert(r[q] == r[q]);
    let k = choose|k: int| first_with_key(found, k) && r[q]@ == theme_view_of(#[trigger] found[k]);
    assert(theme_key(found[k]) == theme_key(found[i]));
    if i < k {
        assert(admitted(found[i]));
    }
    if k < i {
        assert(found[k].user_installed);
    }
    assert(r[q].user_installed);
}

} // verus!
