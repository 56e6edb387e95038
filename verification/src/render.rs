//! Decoding cursor shapes to RGBA bitmaps for on-screen preview.
//!
//! Both formats hand back *premultiplied* RGBA, which is what the preview
//! surface wants — do not "fix" this to plain RGBA or every anti-aliased edge
//! picks up a dark halo. PNG assets are the exception and say so.
use crate::text::{
    chars_of, ends_with, has_prefix, has_suffix, lines, lines_of, parse_u32, parse_u32_of,
    slice_of, split_all, split_on, lemma_split_on_nonempty, starts_with, string_of, trim, trimmed,
};
use std::io::Cursor;
use std::io::Read;
use vstd::prelude::*;
use vstd::utf8::{decode_utf8, valid_utf8};
use zip::ZipArchive;
use png::ColorType;
use std::borrow::Cow;
use crate::scan::{Format, Theme};

verus! {

broadcast use vstd::string::group_string_axioms;

pub struct Bitmap {
    pub width: u32,
    pub height: u32,
    pub rgba: Vec<u8>,
    /// Xcursor and the SVG rasterizer produce premultiplied alpha; PNG does not.
    pub premultiplied: bool,
}

/// Every whole pixel of `rgba` has alpha 0; a trailing partial pixel does
/// not count.
pub open spec fn blank(rgba: Seq<u8>) -> bool {
    forall|k: int| 0 <= k < rgba.len() / 4 ==> #[trigger] rgba[4 * k + 3] == 0
}

impl Bitmap {
    /// Fully transparent output. It happens — a shape file that decodes cleanly
    /// but draws nothing, usually a placeholder the theme never filled in. It
    /// has to be treated as absent, or the UI shows an unexplained hole.
    pub fn is_blank(&self) -> (r: bool)
        ensures
            r == blank(self.rgba@),
    {
        let len = self.rgba.len();
        let mut p: usize = 0;
        let ghost mut k: int = 0;
        while len - p >= 4
            invariant
                len == self.rgba@.len(),
                p == 4 * k,
                p <= len,
                forall|j: int| 0 <= j < k ==> #[trigger] self.rgba@[4 * j + 3] == 0,
            decreases len - p,
        {
            if self.rgba[p + 3] != 0 {
                assert(k < len / 4);
                return false;
            }
            p += 4;
            proof {
                k = k + 1;
            }
        }
        assert(k == len / 4);
        true
    }
}

/// One preview slot: a human label plus the shape names to try, in order.
/// Themes disagree about naming (X11 legacy vs. CSS), so each slot lists both.
pub struct Slot {
    pub label: &'static str,
    pub names: Vec<&'static str>,
}

/// The six preview slots, as label and shape names.
pub open spec fn slot_table() -> Seq<(Seq<char>, Seq<Seq<char>>)> {
    seq![
        ("pointer"@, seq!["left_ptr"@, "default"@, "arrow"@, "top_left_arrow"@]),
        ("text"@, seq!["xterm"@, "text"@, "ibeam"@]),
        ("link"@, seq!["hand2"@, "pointer"@, "pointing_hand"@, "hand1"@, "hand"@]),
        ("resize"@, seq!["sb_h_double_arrow"@, "ew-resize"@, "size_hor"@, "h_double_arrow"@]),
        ("busy"@, seq!["watch"@, "wait"@, "left_ptr_watch"@, "progress"@]),
        ("no-drop"@, seq!["crossed_circle"@, "not-allowed"@, "no-drop"@, "forbidden"@]),
    ]
}

pub open spec fn slot_view(s: Slot) -> (Seq<char>, Seq<Seq<char>>) {
    (s.label@, s.names@.map_values(|n: &str| n@))
}

fn names_of(a: &'static str, b: &'static str, c: &'static str) -> (r: Vec<&'static str>)
    ensures
        r@.map_values(|n: &str| n@) == seq![a@, b@, c@],
{
    let mut v: Vec<&'static str> = Vec::new();
    v.push(a);
    v.push(b);
    v.push(c);
    assert(v@.map_values(|n: &str| n@) == seq![a@, b@, c@]);
    v
}

fn push_name(v: &mut Vec<&'static str>, n: &'static str)
    ensures
        final(v)@.map_values(|x: &str| x@) == old(v)@.map_values(|x: &str| x@).push(n@),
{
    v.push(n);
    assert(v@.map_values(|x: &str| x@) == old(v)@.map_values(|x: &str| x@).push(n@));
}

/// The preview slots: pointer, text, link, resize, busy and no-drop.
pub fn slots() -> (r: Vec<Slot>)
    ensures
        r@.map_values(|s: Slot| slot_view(s)) == slot_table(),
{
    let mut pointer = names_of("left_ptr", "default", "arrow");
    push_name(&mut pointer, "top_left_arrow");
    let text = names_of("xterm", "text", "ibeam");
    let mut link = names_of("hand2", "pointer", "pointing_hand");
    push_name(&mut link, "hand1");
    push_name(&mut link, "hand");
    let mut resize = names_of("sb_h_double_arrow", "ew-resize", "size_hor");
    push_name(&mut resize, "h_double_arrow");
    let mut busy = names_of("watch", "wait", "left_ptr_watch");
    push_name(&mut busy, "progress");
    let mut no_drop = names_of("crossed_circle", "not-allowed", "no-drop");
    push_name(&mut no_drop, "forbidden");
    let mut r: Vec<Slot> = Vec::new();
    r.push(Slot { label: "pointer", names: pointer });
    r.push(Slot { label: "text", names: text });
    r.push(Slot { label: "link", names: link });
    r.push(Slot { label: "resize", names: resize });
    r.push(Slot { label: "busy", names: busy });
    r.push(Slot { label: "no-drop", names: no_drop });
    assert(slot_view(r@[0]) == slot_table()[0]);
    assert(slot_view(r@[1]) == slot_table()[1]);
    assert(slot_view(r@[2]) == slot_table()[2]);
    assert(slot_view(r@[3]) == slot_table()[3]);
    assert(slot_view(r@[4]) == slot_table()[4]);
    assert(slot_view(r@[5]) == slot_table()[5]);
    assert(r@.map_values(|s: Slot| slot_view(s)) =~= slot_table());
    r
}

// ---------------------------------------------------------------- pixels ---

/// `out` is `src` with the first and third byte of every whole 4-byte pixel
/// swapped; a trailing partial pixel is dropped.
pub open spec fn swapped_red_blue(src: Seq<u8>, out: Seq<u8>) -> bool {
    &&& out.len() == 4 * (src.len() / 4)
    &&& forall|k: int|
        0 <= k < src.len() / 4 ==> {
            &&& #[trigger] out[4 * k] == src[4 * k + 2]
            &&& out[4 * k + 1] == src[4 * k + 1]
            &&& out[4 * k + 2] == src[4 * k]
            &&& out[4 * k + 3] == src[4 * k + 3]
        }
}

/// Xcursor stores each pixel as a little-endian ARGB u32, i.e. BGRA in byte
/// order; the `xcursor` crate hands those bytes back in file order. Swap R
/// and B to get RGBA.
pub fn bgra_to_rgba(src: &Vec<u8>) -> (r: Vec<u8>)
    ensures
        swapped_red_blue(src@, r@),
{
    let len = src.len();
    let mut out: Vec<u8> = Vec::new();
    let mut p: usize = 0;
    let ghost mut k: int = 0;
    while len - p >= 4
        invariant
            len == src@.len(),
            p == 4 * k,
            p <= len,
            out@.len() == p,
            forall|j: int|
                0 <= j < k ==> {
                    &&& #[trigger] out@[4 * j] == src@[4 * j + 2]
                    &&& out@[4 * j + 1] == src@[4 * j + 1]
                    &&& out@[4 * j + 2] == src@[4 * j]
                    &&& out@[4 * j + 3] == src@[4 * j + 3]
                },
        decreases len - p,
    {
        let ghost before = out@;
        out.push(src[p + 2]);
        out.push(src[p + 1]);
        out.push(src[p]);
        out.push(src[p + 3]);
        proof {
            assert forall|j: int| 0 <= j < k + 1 implies {
                &&& #[trigger] out@[4 * j] == src@[4 * j + 2]
                &&& out@[4 * j + 1] == src@[4 * j + 1]
                &&& out@[4 * j + 2] == src@[4 * j]
                &&& out@[4 * j + 3] == src@[4 * j + 3]
            } by {
                if j < k {
                    assert(out@[4 * j] == before[4 * j]);
                    assert(out@[4 * j + 1] == before[4 * j + 1]);
                    assert(out@[4 * j + 2] == before[4 * j + 2]);
                    assert(out@[4 * j + 3] == before[4 * j + 3]);
                }
            }
            k = k + 1;
        }
        p += 4;
    }
    assert(k == len / 4);
    assert(out@.len() == 4 * (len / 4));
    assert forall|j: int| 0 <= j < src@.len() / 4 implies {
        &&& #[trigger] out@[4 * j] == src@[4 * j + 2]
        &&& out@[4 * j + 1] == src@[4 * j + 1]
        &&& out@[4 * j + 2] == src@[4 * j]
        &&& out@[4 * j + 3] == src@[4 * j + 3]
    } by {}
    out
}

/// Swapping red and blue twice gives back the pixels one started from.
pub proof fn law_swap_undoes_itself(a: Seq<u8>, b: Seq<u8>, c: Seq<u8>)
    requires
        a.len() % 4 == 0,
        swapped_red_blue(a, b),
        swapped_red_blue(b, c),
    ensures
        c == a,
{
    assert(b.len() == a.len());
    assert forall|i: int| 0 <= i < a.len() implies c[i] == a[i] by {
        let k = i / 4;
        assert(0 <= k < a.len() / 4);
        assert(i == 4 * k + i % 4);
        assert(c[4 * k] == b[4 * k + 2]);
    }
    assert(c =~= a);
}

// ------------------------------------------------------------- size pick ---

/// The index `Iterator::min_by_key` picks among the sizes that are at least
/// `target`: the first of the smallest.
pub open spec fn smallest_at_least(sizes: Seq<u32>, target: u32) -> Option<int>
    decreases sizes.len(),
{
    if sizes.len() == 0 {
        None
    } else {
        let k = sizes.len() - 1;
        let p = smallest_at_least(sizes.drop_last(), target);
        if sizes[k] >= target && (p is None || sizes[k] < sizes[p.unwrap()]) {
            Some(k)
        } else {
            p
        }
    }
}

/// The index `Iterator::max_by_key` picks: the last of the largest.
pub open spec fn largest(sizes: Seq<u32>) -> Option<int>
    decreases sizes.len(),
{
    if sizes.len() == 0 {
        None
    } else {
        let k = sizes.len() - 1;
        let p = largest(sizes.drop_last());
        if p is None || sizes[k] >= sizes[p.unwrap()] {
            Some(k)
        } else {
            p
        }
    }
}

/// The first index whose size is 0.
pub open spec fn first_scalable(sizes: Seq<u32>) -> Option<int>
    decreases sizes.len(),
{
    if sizes.len() == 0 {
        None
    } else {
        let k = sizes.len() - 1;
        let p = first_scalable(sizes.drop_last());
        if p is Some {
            p
        } else if sizes[k] == 0 {
            Some(k)
        } else {
            None
        }
    }
}

/// Scale down, never up: the smallest size at or above the target, else the
/// largest there is.
pub open spec fn fitting(sizes: Seq<u32>, target: u32) -> Option<int> {
    match smallest_at_least(sizes, target) {
        Some(k) => Some(k),
        None => largest(sizes),
    }
}

/// What [`fitting`] picks, said without folds: a size at or above the target
/// when there is one, and then the smallest such; otherwise the largest.
pub proof fn law_scale_down_never_up(sizes: Seq<u32>, target: u32)
    ensures
        sizes.len() == 0 <==> fitting(sizes, target) is None,
        fitting(sizes, target) matches Some(k) ==> 0 <= k < sizes.len(),
        (exists|j: int| 0 <= j < sizes.len() && sizes[j] >= target) ==> (fitting(
            sizes,
            target,
        ) matches Some(k) && sizes[k] >= target && forall|j: int|
            0 <= j < sizes.len() && sizes[j] >= target ==> sizes[k] <= sizes[j]),
        (forall|j: int| 0 <= j < sizes.len() ==> sizes[j] < target) ==> (fitting(
            sizes,
            target,
        ) matches Some(k) ==> forall|j: int| 0 <= j < sizes.len() ==> sizes[j] <= sizes[k]),
{
    lemma_smallest_at_least(sizes, target);
    lemma_largest(sizes);
}

proof fn lemma_smallest_at_least(sizes: Seq<u32>, target: u32)
    ensures
        match smallest_at_least(sizes, target) {
            Some(k) => 0 <= k < sizes.len() && sizes[k] >= target && forall|j: int|
                0 <= j < sizes.len() && sizes[j] >= target ==> sizes[k] <= sizes[j],
            None => forall|j: int| 0 <= j < sizes.len() ==> sizes[j] < target,
        },
    decreases sizes.len(),
{
    if sizes.len() > 0 {
        lemma_smallest_at_least(sizes.drop_last(), target);
        assert forall|j: int| 0 <= j < sizes.len() - 1 implies sizes.drop_last()[j] == sizes[j] by {}
    }
}

proof fn lemma_largest(sizes: Seq<u32>)
    ensures
        match largest(sizes) {
            Some(k) => 0 <= k < sizes.len() && forall|j: int|
                0 <= j < sizes.len() ==> sizes[j] <= sizes[k],
            None => sizes.len() == 0,
        },
    decreases sizes.len(),
{
    if sizes.len() > 0 {
        lemma_largest(sizes.drop_last());
        assert forall|j: int| 0 <= j < sizes.len() - 1 implies sizes.drop_last()[j] == sizes[j] by {}
    }
}

pub open spec fn opt_index(o: Option<usize>) -> Option<int> {
    match o {
        Some(k) => Some(k as int),
        None => None,
    }
}

/// Index of the size to use for `target` pixels; see [`fitting`].
pub fn pick_fitting(sizes: &Vec<u32>, target: u32) -> (r: Option<usize>)
    ensures
        opt_index(r) == fitting(sizes@, target),
{
    let mut small: Option<usize> = None;
    let mut large: Option<usize> = None;
    let mut i: usize = 0;
    assert(sizes@.take(0).len() == 0);
    while i < sizes.len()
        invariant
            i <= sizes.len(),
            opt_index(small) == smallest_at_least(sizes@.take(i as int), target),
            opt_index(large) == largest(sizes@.take(i as int)),
            small matches Some(k) ==> k < i,
            large matches Some(k) ==> k < i,
        decreases sizes.len() - i,
    {
        let ghost t1 = sizes@.take(i + 1);
        assert(t1.drop_last() == sizes@.take(i as int));
        assert(t1[i as int] == sizes@[i as int]);
        let s = sizes[i];
        match small {
            Some(k) => {
                assert(t1[k as int] == sizes@[k as int]);
                if s >= target && s < sizes[k] {
                    small = Some(i);
                }
            },
            None => {
                if s >= target {
                    small = Some(i);
                }
            },
        }
        match large {
            Some(k) => {
                assert(t1[k as int] == sizes@[k as int]);
                if s >= sizes[k] {
                    large = Some(i);
                }
            },
            None => {
                large = Some(i);
            },
        }
        i += 1;
    }
    assert(sizes@.take(sizes.len() as int) == sizes@);
    match small {
        Some(k) => Some(k),
        None => large,
    }
}

/// Index of the first scalable size (0), if any.
pub fn pick_scalable(sizes: &Vec<u32>) -> (r: Option<usize>)
    ensures
        opt_index(r) == first_scalable(sizes@),
{
    let mut i: usize = 0;
    assert(sizes@.take(0).len() == 0);
    while i < sizes.len()
        invariant
            i <= sizes.len(),
            first_scalable(sizes@.take(i as int)) is None,
        decreases sizes.len() - i,
    {
        let ghost t1 = sizes@.take(i + 1);
        assert(t1.drop_last() == sizes@.take(i as int));
        if sizes[i] == 0 {
            proof {
                lemma_first_scalable_prefix(sizes@, i as int);
            }
            return Some(i);
        }
        i += 1;
    }
    assert(sizes@.take(sizes.len() as int) == sizes@);
    None
}

proof fn lemma_first_scalable(sizes: Seq<u32>)
    ensures
        first_scalable(sizes) matches Some(k) ==> 0 <= k < sizes.len() && sizes[k] == 0,
        (exists|j: int| 0 <= j < sizes.len() && sizes[j] == 0) ==> first_scalable(sizes) is Some,
    decreases sizes.len(),
{
    if sizes.len() > 0 {
        lemma_first_scalable(sizes.drop_last());
        if exists|j: int| 0 <= j < sizes.len() && sizes[j] == 0 {
            let j = choose|j: int| 0 <= j < sizes.len() && sizes[j] == 0;
            if j < sizes.len() - 1 {
                assert(sizes.drop_last()[j] == 0);
            }
        }
    }
}

/// Once a prefix has a scalable size, longer prefixes pick the same one.
proof fn lemma_first_scalable_prefix(sizes: Seq<u32>, i: int)
    requires
        0 <= i < sizes.len(),
        sizes[i] == 0,
        first_scalable(sizes.take(i)) is None,
    ensures
        first_scalable(sizes) == Some(i),
    decreases sizes.len(),
{
    if i == sizes.len() - 1 {
        assert(sizes.drop_last() == sizes.take(i));
    } else {
        assert(sizes.drop_last().take(i) == sizes.take(i));
        lemma_first_scalable_prefix(sizes.drop_last(), i);
    }
}

// --------------------------------------------------------------- Xcursor ---

/// One image of an Xcursor file: its nominal size, its actual width and
/// height, and its pixel bytes in file order.
pub struct CursorImage {
    pub size: u32,
    pub width: u32,
    pub height: u32,
    pub pixels: Vec<u8>,
}

pub open spec fn image_view(i: CursorImage) -> (u32, u32, u32, Seq<u8>) {
    (i.size, i.width, i.height, i.pixels@)
}

pub open spec fn images_view(v: Seq<CursorImage>) -> Seq<(u32, u32, u32, Seq<u8>)> {
    v.map_values(|i: CursorImage| image_view(i))
}

/// The images `xcursor::parser::parse_xcursor` finds in a file, as nominal
/// size, width, height and pixel bytes; `None` where it refuses the file.
pub uninterp spec fn xcursor_parsed(bytes: Seq<u8>) -> Option<Seq<(u32, u32, u32, Seq<u8>)>>;

/// Calls `xcursor::parser::parse_xcursor` and keeps, of each image, its
/// nominal size, width, height and `pixels_rgba` (the pixel bytes in file
/// order). Claims that the result depends on the file's bytes alone.
#[verifier::external_body]
fn parse_xcursor(bytes: &[u8]) -> (r: Option<Vec<CursorImage>>)
    ensures
        match r {
            Some(v) => xcursor_parsed(bytes@) == Some(images_view(v@)),
            None => xcursor_parsed(bytes@) is None,
        },
{
    xcursor::parser::parse_xcursor(bytes).map(
        |images| {
            images.into_iter().map(
                |i| CursorImage { size: i.size, width: i.width, height: i.height, pixels: i.pixels_rgba },
            ).collect()
        },
    )
}

pub open spec fn image_sizes(images: Seq<(u32, u32, u32, Seq<u8>)>) -> Seq<u32> {
    images.map_values(|i: (u32, u32, u32, Seq<u8>)| i.0)
}

/// `b` is the image `img` with red and blue put in place.
pub open spec fn bitmap_of_image(b: Bitmap, img: (u32, u32, u32, Seq<u8>)) -> bool {
    &&& b.width == img.1
    &&& b.height == img.2
    &&& swapped_red_blue(img.3, b.rgba@)
    &&& b.premultiplied
}

/// The bitmap a parsed Xcursor file gives for `target` pixels: the image of
/// the smallest nominal size at or above the target, so the preview scales
/// down and never up, or else the largest.
pub open spec fn xcursor_pick(
    images: Seq<(u32, u32, u32, Seq<u8>)>,
    target: u32,
    r: Option<Bitmap>,
) -> bool {
    match fitting(image_sizes(images), target) {
        Some(k) => r matches Some(b) && bitmap_of_image(b, images[k]),
        None => r is None,
    }
}

/// The bitmap to show from the images of an Xcursor file.
pub fn pick_xcursor(images: Vec<CursorImage>, target: u32) -> (r: Option<Bitmap>)
    ensures
        xcursor_pick(images_view(images@), target, r),
{
    let mut sizes: Vec<u32> = Vec::new();
    let mut i: usize = 0;
    while i < images.len()
        invariant
            i <= images.len(),
            sizes@ == image_sizes(images_view(images@)).take(i as int),
        decreases images.len() - i,
    {
        sizes.push(images[i].size);
        i += 1;
    }
    assert(sizes@ == image_sizes(images_view(images@)));
    match pick_fitting(&sizes, target) {
        Some(k) => {
            proof {
                law_scale_down_never_up(sizes@, target);
            }
            let best = &images[k];
            Some(
                Bitmap {
                    width: best.width,
                    height: best.height,
                    rgba: bgra_to_rgba(&best.pixels),
                    premultiplied: true,
                },
            )
        },
        None => None,
    }
}

pub open spec fn opt_bytes(o: Option<Vec<u8>>) -> Option<Seq<u8>> {
    match o {
        Some(v) => Some(v@),
        None => None,
    }
}

/// The first of `files` that could be read.
pub open spec fn first_readable(files: Seq<Option<Vec<u8>>>) -> Option<int>
    decreases files.len(),
{
    if files.len() == 0 {
        None
    } else {
        let p = first_readable(files.drop_last());
        if p is Some {
            p
        } else if files.last() is Some {
            Some(files.len() - 1)
        } else {
            None
        }
    }
}

proof fn lemma_first_readable_prefix(files: Seq<Option<Vec<u8>>>, i: int)
    requires
        0 <= i < files.len(),
        files[i] is Some,
        first_readable(files.take(i)) is None,
    ensures
        first_readable(files) == Some(i),
    decreases files.len(),
{
    if i == files.len() - 1 {
        assert(files.drop_last() == files.take(i));
    } else {
        assert(files.drop_last().take(i) == files.take(i));
        lemma_first_readable_prefix(files.drop_last(), i);
    }
}

/// The Xcursor bitmap for a slot, given the contents of `cursors/<name>` for
/// each of the slot's shape names in order (`None` where the file could not
/// be read): the first readable file decides, and one that does not parse,
/// or holds no image, leaves the slot without a bitmap.
pub fn load_xcursor(files: &Vec<Option<Vec<u8>>>, target: u32) -> (r: Option<Bitmap>)
    ensures
        match first_readable(files@) {
            Some(k) => match xcursor_parsed(files@[k].unwrap()@) {
                Some(images) => xcursor_pick(images, target, r),
                None => r is None,
            },
            None => r is None,
        },
{
    let mut i: usize = 0;
    assert(files@.take(0).len() == 0);
    while i < files.len()
        invariant
            i <= files.len(),
            first_readable(files@.take(i as int)) is None,
        decreases files.len() - i,
    {
        let ghost t1 = files@.take(i + 1);
        assert(t1.drop_last() == files@.take(i as int));
        match &files[i] {
            Some(bytes) => {
                proof {
                    lemma_first_readable_prefix(files@, i as int);
                }
                return match parse_xcursor(bytes.as_slice()) {
                    Some(images) => pick_xcursor(images, target),
                    None => None,
                };
            },
            None => {},
        }
        i += 1;
    }
    assert(files@.take(files.len() as int) == files@);
    None
}

// ------------------------------------------------------------ hyprcursor ---

/// One `define_size = <size>, <file>[, <delay>]` line of a `meta.hl`.
pub struct SizeEntry {
    pub size: u32,
    pub file: String,
}

pub open spec fn entry_view(e: SizeEntry) -> (u32, Seq<char>) {
    (e.size, e.file@)
}

pub open spec fn entries_view(v: Seq<SizeEntry>) -> Seq<(u32, Seq<char>)> {
    v.map_values(|e: SizeEntry| entry_view(e))
}

/// What one line of a `meta.hl` defines: after `define_size` and `=`, the
/// comma-separated fields, trimmed; the first must be a size and a second,
/// the file, must be there.
pub open spec fn size_line(line: Seq<char>) -> Option<(u32, Seq<char>)> {
    let t = trim(line);
    let kw = "define_size"@;
    if !starts_with(t, kw) {
        None
    } else {
        let r1 = trim(t.skip(kw.len() as int));
        if !starts_with(r1, seq!['=']) {
            None
        } else {
            let parts = split_on(r1.skip(1), ',');
            match parse_u32(trim(parts[0])) {
                Some(size) => if parts.len() >= 2 {
                    Some((size, trim(parts[1])))
                } else {
                    None
                },
                None => None,
            }
        }
    }
}

/// The size definitions of the lines `ls`, in order.
pub open spec fn entries_of(ls: Seq<Seq<char>>) -> Seq<(u32, Seq<char>)>
    decreases ls.len(),
{
    if ls.len() == 0 {
        seq![]
    } else {
        let before = entries_of(ls.drop_last());
        match size_line(ls.last()) {
            Some(e) => before.push(e),
            None => before,
        }
    }
}

/// The size definitions of a `meta.hl`.
pub open spec fn size_entries(meta: Seq<char>) -> Seq<(u32, Seq<char>)> {
    entries_of(lines(meta))
}

fn size_line_of(line: &Vec<char>) -> (r: Option<SizeEntry>)
    ensures
        match r {
            Some(e) => size_line(line@) == Some(entry_view(e)),
            None => size_line(line@) is None,
        },
{
    let t = trimmed(line);
    let kw = chars_of("define_size");
    if !has_prefix(&t, &kw) {
        return None;
    }
    let r1 = trimmed(&slice_of(&t, kw.len(), t.len()));
    assert(r1@ == trim(t@.skip(kw@.len() as int)));
    let mut eq: Vec<char> = Vec::new();
    eq.push('=');
    assert(eq@ == seq!['=']);
    if !has_prefix(&r1, &eq) {
        return None;
    }
    let parts = split_all(&slice_of(&r1, 1, r1.len()), ',');
    assert(r1@.subrange(1, r1@.len() as int) == r1@.skip(1));
    proof {
        lemma_split_on_nonempty(r1@.skip(1), ',');
    }
    assert(parts@.len() >= 1);
    assert(parts@[0]@ == split_on(r1@.skip(1), ',')[0]);
    match parse_u32_of(&trimmed(&parts[0])) {
        Some(size) => {
            if parts.len() >= 2 {
                assert(parts@[1]@ == split_on(r1@.skip(1), ',')[1]);
                Some(SizeEntry { size, file: string_of(&trimmed(&parts[1])) })
            } else {
                None
            }
        },
        None => None,
    }
}

/// Every `define_size` line of a `meta.hl`, in order.
pub fn parse_sizes(meta: &str) -> (r: Vec<SizeEntry>)
    ensures
        entries_view(r@) == size_entries(meta@),
{
    let ls = lines_of(&chars_of(meta));
    let ghost all = lines(meta@);
    let mut out: Vec<SizeEntry> = Vec::new();
    let mut i: usize = 0;
    assert(all.take(0).len() == 0);
    while i < ls.len()
        invariant
            i <= ls.len(),
            ls@.map_values(|v: Vec<char>| v@) == all,
            entries_view(out@) == entries_of(all.take(i as int)),
        decreases ls.len() - i,
    {
        let ghost t1 = all.take(i + 1);
        assert(t1.drop_last() == all.take(i as int));
        assert(t1.last() == ls@[i as int]@);
        match size_line_of(&ls[i]) {
            Some(e) => {
                out.push(e);
                assert(entries_view(out@) == entries_of(t1));
            },
            None => {},
        }
        i += 1;
    }
    assert(all.take(ls.len() as int) == all);
    out
}

/// `std::io::Cursor`, over the bytes of an archive.
#[verifier::external_type_specification]
#[verifier::external_body]
#[verifier::reject_recursive_types(T)]
pub struct ExCursor<T>(Cursor<T>);

/// `zip::ZipArchive`: an opened archive.
#[verifier::external_type_specification]
#[verifier::external_body]
#[verifier::reject_recursive_types(R)]
pub struct ExZipArchive<R>(ZipArchive<R>);

/// Whether `zip::ZipArchive::new` accepts these bytes as an archive.
pub uninterp spec fn zip_opens(bytes: Seq<u8>) -> bool;

/// The bytes an archive was opened from.
pub uninterp spec fn zip_source(a: ZipArchive<Cursor<Vec<u8>>>) -> Seq<u8>;

/// `ZipArchive::len` of the archive these bytes hold: its number of
/// central-directory entries.
pub uninterp spec fn zip_count(bytes: Seq<u8>) -> nat;

/// The name of entry `i` of the archive these bytes hold, when
/// `ZipArchive::by_index` opens it and `ZipFile::name` decodes its name.
pub uninterp spec fn zip_index_name(bytes: Seq<u8>, i: nat) -> Option<Seq<char>>;

/// The contents of the entry called `name` in the archive these bytes hold,
/// when `ZipArchive::by_name` finds and opens it and reading it through
/// succeeds.
pub uninterp spec fn zip_named_bytes(bytes: Seq<u8>, name: Seq<char>) -> Option<Seq<u8>>;

/// Calls `zip::ZipArchive::new` on the bytes. Claims that whether it opens
/// depends on the bytes alone, and that the archive keeps them.
#[verifier::external_body]
fn open_archive(bytes: Vec<u8>) -> (r: Option<ZipArchive<Cursor<Vec<u8>>>>)
    ensures
        r is Some == zip_opens(bytes@),
        r matches Some(a) ==> zip_source(a) == bytes@,
{
    ZipArchive::new(Cursor::new(bytes)).ok()
}

/// Calls `ZipArchive::len`.
#[verifier::external_body]
fn archive_len(a: &ZipArchive<Cursor<Vec<u8>>>) -> (n: usize)
    ensures
        n == zip_count(zip_source(*a)),
{
    a.len()
}

/// Calls `ZipArchive::by_index`, then `ZipFile::name`. Claims that the
/// result depends on the archive's bytes and the index alone, that an index
/// past the end gives nothing (the source looks it up in the entry map and
/// fails), and that reading leaves the archive's bytes as they were.
#[verifier::external_body]
fn entry_name(a: &mut ZipArchive<Cursor<Vec<u8>>>, i: usize) -> (r: Option<String>)
    ensures
        zip_source(*final(a)) == zip_source(*old(a)),
        match r {
            Some(n) => zip_index_name(zip_source(*old(a)), i as nat) == Some(n@),
            None => zip_index_name(zip_source(*old(a)), i as nat) is None,
        },
        i >= zip_count(zip_source(*old(a))) ==> r is None,
{
    a.by_index(i).ok().and_then(|f| f.name().ok().map(|n| n.to_string()))
}

/// Calls `ZipArchive::by_name`, then `Read::read_to_end` on the entry.
/// Claims that the result depends on the archive's bytes and the name alone,
/// and that reading leaves the archive's bytes as they were.
#[verifier::external_body]
fn read_entry(a: &mut ZipArchive<Cursor<Vec<u8>>>, name: &str) -> (r: Option<Vec<u8>>)
    ensures
        zip_source(*final(a)) == zip_source(*old(a)),
        opt_bytes(r) == zip_named_bytes(zip_source(*old(a)), name@),
{
    let mut file = a.by_name(name).ok()?;
    let mut buf = Vec::new();
    file.read_to_end(&mut buf).ok()?;
    Some(buf)
}

/// Calls `String::from_utf8`: the text the bytes encode, when they are
/// UTF-8.
#[verifier::external_body]
fn utf8_text(bytes: Vec<u8>) -> (r: Option<String>)
    ensures
        r is Some == valid_utf8(bytes@),
        r matches Some(s) ==> s@ == decode_utf8(bytes@),
{
    String::from_utf8(bytes).ok()
}

/// An asset inside a `.hlc`. hyprcursor themes are not all vector: roughly a
/// third of the ones in the wild ship pre-rendered PNGs at fixed sizes.
pub enum Asset {
    Svg(Vec<u8>),
    Png(Vec<u8>),
}

pub open spec fn asset_view(a: Asset) -> (bool, Seq<u8>) {
    match a {
        Asset::Svg(d) => (true, d@),
        Asset::Png(d) => (false, d@),
    }
}

pub open spec fn entry_sizes(es: Seq<(u32, Seq<char>)>) -> Seq<u32> {
    es.map_values(|e: (u32, Seq<char>)| e.0)
}

/// `define_size = 0` means scalable, which always wins; otherwise the size
/// that [`fitting`] picks.
pub open spec fn hlc_pick(sizes: Seq<u32>, target: u32) -> Option<int> {
    match first_scalable(sizes) {
        Some(k) => Some(k),
        None => fitting(sizes, target),
    }
}

/// The file `meta.hl` names for `target` pixels, when it is there, is UTF-8
/// and defines any size.
pub open spec fn meta_choice(bytes: Seq<u8>, target: u32) -> Option<Seq<char>> {
    match zip_named_bytes(bytes, "meta.hl"@) {
        Some(m) => if valid_utf8(m) {
            let es = size_entries(decode_utf8(m));
            match hlc_pick(entry_sizes(es), target) {
                Some(k) => Some(es[k].1),
                None => None,
            }
        } else {
            None
        },
        None => None,
    }
}

pub open spec fn is_asset_name(n: Seq<char>) -> bool {
    ends_with(n, ".svg"@) || ends_with(n, ".png"@)
}

/// The first entry name from index `i` on that is an SVG or a PNG.
pub open spec fn asset_name_from(bytes: Seq<u8>, i: nat) -> Option<Seq<char>>
    decreases zip_count(bytes) - i,
{
    if i >= zip_count(bytes) {
        None
    } else {
        match zip_index_name(bytes, i) {
            Some(n) => if is_asset_name(n) {
                Some(n)
            } else {
                asset_name_from(bytes, i + 1)
            },
            None => asset_name_from(bytes, i + 1),
        }
    }
}

/// The asset of a `.hlc` for `target` pixels: the file `meta.hl` picks or,
/// without a usable `meta.hl`, the first SVG or PNG in the archive; read,
/// and told apart by its extension.
pub open spec fn hlc_choice(bytes: Seq<u8>, target: u32) -> Option<(bool, Seq<u8>)> {
    if !zip_opens(bytes) {
        None
    } else {
        let name = match meta_choice(bytes, target) {
            Some(n) => Some(n),
            None => asset_name_from(bytes, 0),
        };
        match name {
            Some(n) => match zip_named_bytes(bytes, n) {
                Some(d) => if ends_with(n, ".svg"@) {
                    Some((true, d))
                } else if ends_with(n, ".png"@) {
                    Some((false, d))
                } else {
                    None
                },
                None => None,
            },
            None => None,
        }
    }
}

/// `define_size = 0` means scalable, which always wins: whenever a `meta.hl`
/// defines a scalable asset, that is the one picked, whatever the target.
pub proof fn law_scalable_always_wins(sizes: Seq<u32>, target: u32)
    requires
        exists|j: int| 0 <= j < sizes.len() && sizes[j] == 0,
    ensures
        hlc_pick(sizes, target) matches Some(k) && 0 <= k < sizes.len() && sizes[k] == 0,
{
    lemma_first_scalable(sizes);
}

/// Without a scalable size, the asset picked scales down and never up: the
/// smallest size at or above the target when there is one, and otherwise
/// the largest size there is. Nothing is picked only when nothing is
/// defined.
pub proof fn law_hlc_fixed_sizes(sizes: Seq<u32>, target: u32)
    requires
        forall|j: int| 0 <= j < sizes.len() ==> sizes[j] != 0,
    ensures
        sizes.len() == 0 <==> hlc_pick(sizes, target) is None,
        hlc_pick(sizes, target) matches Some(k) ==> 0 <= k < sizes.len(),
        (exists|j: int| 0 <= j < sizes.len() && sizes[j] >= target) ==> (hlc_pick(
            sizes,
            target,
        ) matches Some(k) && sizes[k] >= target && forall|j: int|
            0 <= j < sizes.len() && sizes[j] >= target ==> sizes[k] <= sizes[j]),
        (forall|j: int| 0 <= j < sizes.len() ==> sizes[j] < target) ==> (hlc_pick(
            sizes,
            target,
        ) matches Some(k) ==> forall|j: int| 0 <= j < sizes.len() ==> sizes[j] <= sizes[k]),
{
    lemma_first_scalable(sizes);
    law_scale_down_never_up(sizes, target);
}

fn pick_hlc(sizes: &Vec<u32>, target: u32) -> (r: Option<usize>)
    ensures
        opt_index(r) == hlc_pick(sizes@, target),
        r matches Some(k) ==> k < sizes.len(),
{
    proof {
        lemma_first_scalable(sizes@);
        law_scale_down_never_up(sizes@, target);
    }
    match pick_scalable(sizes) {
        Some(k) => Some(k),
        None => pick_fitting(sizes, target),
    }
}

/// Choose the best asset for a shape out of the bytes of its `.hlc` (a zip
/// of `meta.hl` plus assets).
pub fn hlc_asset(hlc: Vec<u8>, target: u32) -> (r: Option<Asset>)
    ensures
        match r {
            Some(a) => hlc_choice(hlc@, target) == Some(asset_view(a)),
            None => hlc_choice(hlc@, target) is None,
        },
{
    let ghost bytes = hlc@;
    let mut zip = match open_archive(hlc) {
        Some(z) => z,
        None => {
            return None;
        },
    };
    let mut wanted: Option<Vec<char>> = None;
    match read_entry(&mut zip, "meta.hl") {
        Some(raw) => match utf8_text(raw) {
            Some(text) => {
                let sizes = parse_sizes(text.as_str());
                let mut just: Vec<u32> = Vec::new();
                let mut i: usize = 0;
                while i < sizes.len()
                    invariant
                        i <= sizes.len(),
                        just@ == entry_sizes(entries_view(sizes@)).take(i as int),
                    decreases sizes.len() - i,
                {
                    just.push(sizes[i].size);
                    i += 1;
                }
                assert(just@ == entry_sizes(entries_view(sizes@)));
                match pick_hlc(&just, target) {
                    Some(k) => {
                        assert(entries_view(sizes@)[k as int] == entry_view(sizes@[k as int]));
                        wanted = Some(chars_of(sizes[k].file.as_str()));
                    },
                    None => {},
                }
            },
            None => {},
        },
        None => {},
    }
    assert(wanted matches Some(w) ==> meta_choice(bytes, target) == Some(w@));
    assert(wanted is None ==> meta_choice(bytes, target) is None);
    let name = match wanted {
        Some(n) => n,
        None => {
            let count = archive_len(&zip);
            let mut found: Option<Vec<char>> = None;
            let mut i: usize = 0;
            while i < count && found.is_none()
                invariant
                    i <= count,
                    count == zip_count(bytes),
                    zip_source(zip) == bytes,
                    found is None ==> asset_name_from(bytes, 0) == asset_name_from(bytes, i as nat),
                    found matches Some(n) ==> asset_name_from(bytes, 0) == Some(n@),
                decreases count - i,
            {
                match entry_name(&mut zip, i) {
                    Some(n) => {
                        let cs = chars_of(n.as_str());
                        if has_suffix(&cs, &chars_of(".svg")) || has_suffix(&cs, &chars_of(".png")) {
                            found = Some(cs);
                        }
                    },
                    None => {},
                }
                i += 1;
            }
            match found {
                Some(n) => n,
                None => {
                    return None;
                },
            }
        },
    };
    let s = string_of(&name);
    let data = match read_entry(&mut zip, s.as_str()) {
        Some(d) => d,
        None => {
            return None;
        },
    };
    if has_suffix(&name, &chars_of(".svg")) {
        Some(Asset::Svg(data))
    } else if has_suffix(&name, &chars_of(".png")) {
        Some(Asset::Png(data))
    } else {
        None
    }
}

// ------------------------------------------------------------------- PNG ---

/// `png::ColorType`.
#[derive(Clone, Copy, PartialEq, Eq, Debug, Structural)]
pub enum PngColor {
    Grayscale,
    Rgb,
    Indexed,
    GrayscaleAlpha,
    Rgba,
}

/// What the `png` crate decodes from these bytes, as it decodes by default
/// (no transformations): the first frame's width, height, colour type, bit
/// depth in bits and samples (`OutputInfo::buffer_size` bytes of them),
/// with the image's palette and transparency chunks where it has them;
/// `None` where it refuses the bytes.
pub uninterp spec fn png_decoded(data: Seq<u8>) -> Option<
    (u32, u32, PngColor, u8, Seq<u8>, Option<Seq<u8>>, Option<Seq<u8>>),
>;

/// Calls `png::Decoder::new`, `Decoder::read_info`,
/// `Reader::output_buffer_size` and `Reader::next_frame` into a buffer of
/// that size, keeping `OutputInfo::buffer_size` bytes of it, then reads
/// `Info::palette` and `Info::trns` off the reader: one decode of the first
/// frame. The bit depth is `BitDepth as u8`, its number of bits. Claims that
/// the result depends on the bytes alone.
#[verifier::external_body]
fn png_frame(data: &[u8]) -> (r: Option<
    (u32, u32, PngColor, u8, Vec<u8>, Option<Vec<u8>>, Option<Vec<u8>>),
>)
    ensures
        match r {
            Some(f) => png_decoded(data@) == Some(
                (f.0, f.1, f.2, f.3, f.4@, opt_bytes(f.5), opt_bytes(f.6)),
            ),
            None => png_decoded(data@) is None,
        },
{
    let mut reader = png::Decoder::new(Cursor::new(data)).read_info().ok()?;
    let mut buf = vec![0; reader.output_buffer_size()?];
    let info = reader.next_frame(&mut buf).ok()?;
    buf.truncate(info.buffer_size());
    let color = match info.color_type {
        ColorType::Grayscale => PngColor::Grayscale, ColorType::Rgb => PngColor::Rgb,
        ColorType::Indexed => PngColor::Indexed, ColorType::Rgba => PngColor::Rgba,
        ColorType::GrayscaleAlpha => PngColor::GrayscaleAlpha,
    };
    let chunks = reader.info();
    let palette = chunks.palette.clone().map(Cow::into_owned);
    let trns = chunks.trns.clone().map(Cow::into_owned);
    Some((info.width, info.height, color, info.bit_depth as u8, buf, palette, trns))
}

/// `out` is RGB samples `px` with an opaque alpha after each pixel.
pub open spec fn rgb_expanded(px: Seq<u8>, out: Seq<u8>) -> bool {
    &&& out.len() == 4 * (px.len() / 3)
    &&& forall|k: int|
        0 <= k < px.len() / 3 ==> {
            &&& #[trigger] out[4 * k] == px[3 * k]
            &&& out[4 * k + 1] == px[3 * k + 1]
            &&& out[4 * k + 2] == px[3 * k + 2]
            &&& out[4 * k + 3] == 255
        }
}

/// `out` is grey-and-alpha samples `px` with the grey repeated thrice.
pub open spec fn gray_alpha_expanded(px: Seq<u8>, out: Seq<u8>) -> bool {
    &&& out.len() == 4 * (px.len() / 2)
    &&& forall|k: int|
        0 <= k < px.len() / 2 ==> {
            &&& #[trigger] out[4 * k] == px[2 * k]
            &&& out[4 * k + 1] == px[2 * k]
            &&& out[4 * k + 2] == px[2 * k]
            &&& out[4 * k + 3] == px[2 * k + 1]
        }
}

/// `out` is grey samples `px` repeated thrice, each with an opaque alpha.
pub open spec fn gray_expanded(px: Seq<u8>, out: Seq<u8>) -> bool {
    &&& out.len() == 4 * px.len()
    &&& forall|k: int|
        0 <= k < px.len() ==> {
            &&& #[trigger] out[4 * k] == px[k]
            &&& out[4 * k + 1] == px[k]
            &&& out[4 * k + 2] == px[k]
            &&& out[4 * k + 3] == 255
        }
}

/// `o`'s bytes, none where there is none.
pub open spec fn or_empty(o: Option<Seq<u8>>) -> Seq<u8> {
    match o {
        Some(v) => v,
        None => seq![],
    }
}

/// The alpha of palette entry `i`: its byte of the transparency chunk where
/// the chunk is that long, opaque otherwise.
pub open spec fn palette_alpha(trns: Seq<u8>, i: int) -> u8 {
    if i < trns.len() {
        trns[i]
    } else {
        255
    }
}

/// Every sample of `px` names an entry of the palette `plte`.
pub open spec fn palette_covers(px: Seq<u8>, plte: Seq<u8>) -> bool {
    forall|k: int| 0 <= k < px.len() ==> 3 * #[trigger] px[k] + 3 <= plte.len()
}

/// `out` is palette indices `px` looked up in `plte`, with the alpha
/// `trns` gives each entry.
pub open spec fn indexed_expanded(px: Seq<u8>, plte: Seq<u8>, trns: Seq<u8>, out: Seq<u8>) -> bool {
    &&& out.len() == 4 * px.len()
    &&& forall|k: int|
        0 <= k < px.len() ==> {
            &&& #[trigger] out[4 * k] == plte[3 * px[k]]
            &&& out[4 * k + 1] == plte[3 * px[k] + 1]
            &&& out[4 * k + 2] == plte[3 * px[k] + 2]
            &&& out[4 * k + 3] == palette_alpha(trns, px[k] as int)
        }
}

/// The images a preview takes: 8-bit RGBA as it is, RGB, grey with alpha,
/// grey, and palette images whose every sample names a palette entry.
/// 16-bit and lower depths are not taken.
pub open spec fn png_takes(color: PngColor, depth: u8, px: Seq<u8>, plte: Option<Seq<u8>>) -> bool {
    depth == 8 && (color is Indexed ==> (plte matches Some(p) && palette_covers(px, p)))
}

/// `out` is samples `px` of colour type `color` made into RGBA; a palette
/// image takes the alpha of its transparency chunk, the others keep their
/// own (a transparency chunk on them is not applied).
pub open spec fn png_rgba(
    color: PngColor,
    px: Seq<u8>,
    plte: Option<Seq<u8>>,
    trns: Option<Seq<u8>>,
    out: Seq<u8>,
) -> bool {
    match color {
        PngColor::Rgba => out == px,
        PngColor::Rgb => rgb_expanded(px, out),
        PngColor::GrayscaleAlpha => gray_alpha_expanded(px, out),
        PngColor::Grayscale => gray_expanded(px, out),
        PngColor::Indexed => indexed_expanded(px, or_empty(plte), or_empty(trns), out),
    }
}

/// Palette indices made RGBA; `None` when an index falls past the palette.
fn expand_indexed(px: &Vec<u8>, plte: &Vec<u8>, trns: &Vec<u8>) -> (r: Option<Vec<u8>>)
    ensures
        match r {
            Some(out) => palette_covers(px@, plte@) && indexed_expanded(px@, plte@, trns@, out@),
            None => !palette_covers(px@, plte@),
        },
{
    let len = px.len();
    let mut out: Vec<u8> = Vec::new();
    let mut p: usize = 0;
    while p < len
        invariant
            len == px@.len(),
            p <= len,
            out@.len() == 4 * p,
            forall|j: int| 0 <= j < p ==> 3 * #[trigger] px@[j] + 3 <= plte@.len(),
            forall|j: int|
                0 <= j < p ==> {
                    &&& #[trigger] out@[4 * j] == plte@[3 * px@[j]]
                    &&& out@[4 * j + 1] == plte@[3 * px@[j] + 1]
                    &&& out@[4 * j + 2] == plte@[3 * px@[j] + 2]
                    &&& out@[4 * j + 3] == palette_alpha(trns@, px@[j] as int)
                },
        decreases len - p,
    {
        let i = px[p] as usize;
        if 3 * i + 3 > plte.len() {
            assert(3 * px@[p as int] + 3 > plte@.len());
            return None;
        }
        let alpha = if i < trns.len() {
            trns[i]
        } else {
            255
        };
        let ghost before = out@;
        out.push(plte[3 * i]);
        out.push(plte[3 * i + 1]);
        out.push(plte[3 * i + 2]);
        out.push(alpha);
        proof {
            assert forall|j: int| 0 <= j < p + 1 implies {
                &&& #[trigger] out@[4 * j] == plte@[3 * px@[j]]
                &&& out@[4 * j + 1] == plte@[3 * px@[j] + 1]
                &&& out@[4 * j + 2] == plte@[3 * px@[j] + 2]
                &&& out@[4 * j + 3] == palette_alpha(trns@, px@[j] as int)
            } by {
                if j < p {
                    assert(out@[4 * j] == before[4 * j]);
                    assert(out@[4 * j + 1] == before[4 * j + 1]);
                    assert(out@[4 * j + 2] == before[4 * j + 2]);
                    assert(out@[4 * j + 3] == before[4 * j + 3]);
                }
            }
        }
        p += 1;
    }
    assert(palette_covers(px@, plte@));
    assert(indexed_expanded(px@, plte@, trns@, out@));
    Some(out)
}

fn expand_rgb(px: &Vec<u8>) -> (r: Vec<u8>)
    ensures
        rgb_expanded(px@, r@),
{
    let len = px.len();
    let mut out: Vec<u8> = Vec::new();
    let mut p: usize = 0;
    let ghost mut k: int = 0;
    while len - p >= 3
        invariant
            len == px@.len(),
            p == 3 * k,
            p <= len,
            out@.len() == 4 * k,
            forall|j: int|
                0 <= j < k ==> {
                    &&& #[trigger] out@[4 * j] == px@[3 * j]
                    &&& out@[4 * j + 1] == px@[3 * j + 1]
                    &&& out@[4 * j + 2] == px@[3 * j + 2]
                    &&& out@[4 * j + 3] == 255
                },
        decreases len - p,
    {
        let ghost before = out@;
        out.push(px[p]);
        out.push(px[p + 1]);
        out.push(px[p + 2]);
        out.push(255);
        proof {
            assert forall|j: int| 0 <= j < k + 1 implies {
                &&& #[trigger] out@[4 * j] == px@[3 * j]
                &&& out@[4 * j + 1] == px@[3 * j + 1]
                &&& out@[4 * j + 2] == px@[3 * j + 2]
                &&& out@[4 * j + 3] == 255
            } by {
                if j < k {
                    assert(out@[4 * j] == before[4 * j]);
                    assert(out@[4 * j + 1] == before[4 * j + 1]);
                    assert(out@[4 * j + 2] == before[4 * j + 2]);
                    assert(out@[4 * j + 3] == before[4 * j + 3]);
                }
            }
            k = k + 1;
        }
        p += 3;
    }
    assert(k == len / 3);
    assert forall|j: int| 0 <= j < px@.len() / 3 implies {
        &&& #[trigger] out@[4 * j] == px@[3 * j]
        &&& out@[4 * j + 1] == px@[3 * j + 1]
        &&& out@[4 * j + 2] == px@[3 * j + 2]
        &&& out@[4 * j + 3] == 255
    } by {}
    out
}

fn expand_gray_alpha(px: &Vec<u8>) -> (r: Vec<u8>)
    ensures
        gray_alpha_expanded(px@, r@),
{
    let len = px.len();
    let mut out: Vec<u8> = Vec::new();
    let mut p: usize = 0;
    let ghost mut k: int = 0;
    while len - p >= 2
        invariant
            len == px@.len(),
            p == 2 * k,
            p <= len,
            out@.len() == 4 * k,
            forall|j: int|
                0 <= j < k ==> {
                    &&& #[trigger] out@[4 * j] == px@[2 * j]
                    &&& out@[4 * j + 1] == px@[2 * j]
                    &&& out@[4 * j + 2] == px@[2 * j]
                    &&& out@[4 * j + 3] == px@[2 * j + 1]
                },
        decreases len - p,
    {
        let ghost before = out@;
        out.push(px[p]);
        out.push(px[p]);
        out.push(px[p]);
        out.push(px[p + 1]);
        proof {
            assert forall|j: int| 0 <= j < k + 1 implies {
                &&& #[trigger] out@[4 * j] == px@[2 * j]
                &&& out@[4 * j + 1] == px@[2 * j]
                &&& out@[4 * j + 2] == px@[2 * j]
                &&& out@[4 * j + 3] == px@[2 * j + 1]
            } by {
                if j < k {
                    assert(out@[4 * j] == before[4 * j]);
                    assert(out@[4 * j + 1] == before[4 * j + 1]);
                    assert(out@[4 * j + 2] == before[4 * j + 2]);
                    assert(out@[4 * j + 3] == before[4 * j + 3]);
                }
            }
            k = k + 1;
        }
        p += 2;
    }
    assert(k == len / 2);
    assert forall|j: int| 0 <= j < px@.len() / 2 implies {
        &&& #[trigger] out@[4 * j] == px@[2 * j]
        &&& out@[4 * j + 1] == px@[2 * j]
        &&& out@[4 * j + 2] == px@[2 * j]
        &&& out@[4 * j + 3] == px@[2 * j + 1]
    } by {}
    out
}

fn expand_gray(px: &Vec<u8>) -> (r: Vec<u8>)
    ensures
        gray_expanded(px@, r@),
{
    let len = px.len();
    let mut out: Vec<u8> = Vec::new();
    let mut p: usize = 0;
    while p < len
        invariant
            len == px@.len(),
            p <= len,
            out@.len() == 4 * p,
            forall|j: int|
                0 <= j < p ==> {
                    &&& #[trigger] out@[4 * j] == px@[j]
                    &&& out@[4 * j + 1] == px@[j]
                    &&& out@[4 * j + 2] == px@[j]
                    &&& out@[4 * j + 3] == 255
                },
        decreases len - p,
    {
        let ghost before = out@;
        out.push(px[p]);
        out.push(px[p]);
        out.push(px[p]);
        out.push(255);
        proof {
            assert forall|j: int| 0 <= j < p + 1 implies {
                &&& #[trigger] out@[4 * j] == px@[j]
                &&& out@[4 * j + 1] == px@[j]
                &&& out@[4 * j + 2] == px@[j]
                &&& out@[4 * j + 3] == 255
            } by {
                if j < p {
                    assert(out@[4 * j] == before[4 * j]);
                    assert(out@[4 * j + 1] == before[4 * j + 1]);
                    assert(out@[4 * j + 2] == before[4 * j + 2]);
                    assert(out@[4 * j + 3] == before[4 * j + 3]);
                }
            }
        }
        p += 1;
    }
    out
}

/// `r` is what a PNG asset gives: its first frame as 8-bit RGBA, not
/// premultiplied, when it decodes to an image [`png_takes`] takes; nothing
/// otherwise.
pub open spec fn png_bitmap(data: Seq<u8>, r: Option<Bitmap>) -> bool {
    match png_decoded(data) {
        Some((w, h, color, depth, px, plte, trns)) => if png_takes(color, depth, px, plte) {
            r matches Some(b) && b.width == w && b.height == h && !b.premultiplied && png_rgba(
                color,
                px,
                plte,
                trns,
                b.rgba@,
            )
        } else {
            r is None
        },
        None => r is None,
    }
}

/// Decode a PNG asset to plain (not premultiplied) 8-bit RGBA. Cursor PNGs
/// are RGBA already, but grayscale and palette variants exist and cost
/// little to handle.
pub fn decode_png(data: &[u8]) -> (r: Option<Bitmap>)
    ensures
        png_bitmap(data@, r),
{
    let (width, height, color, depth, samples, palette, trns) = match png_frame(data) {
        Some(f) => f,
        None => {
            return None;
        },
    };
    if depth != 8 {
        return None;
    }
    let rgba = match color {
        PngColor::Rgba => samples,
        PngColor::Rgb => expand_rgb(&samples),
        PngColor::GrayscaleAlpha => expand_gray_alpha(&samples),
        PngColor::Grayscale => expand_gray(&samples),
        PngColor::Indexed => {
            let plte = match palette {
                Some(p) => p,
                None => {
                    return None;
                },
            };
            let alphas = match trns {
                Some(t) => t,
                None => Vec::new(),
            };
            match expand_indexed(&samples, &plte, &alphas) {
                Some(out) => out,
                None => {
                    return None;
                },
            }
        },
    };
    Some(Bitmap { width, height, rgba, premultiplied: false })
}

/// What the `.hlc` of a shape gives: a bitmap, an SVG still to be
/// rasterized at the target size, or nothing.
pub enum HyprShape {
    Drawn(Bitmap),
    Vector(Vec<u8>),
    Nothing,
}

/// The hyprcursor shape from the bytes of its `.hlc`: the asset chosen for
/// `target` pixels, a PNG decoded, an SVG handed back for rasterizing.
pub fn load_hyprcursor(hlc: Vec<u8>, target: u32) -> (r: HyprShape)
    ensures
        match hlc_choice(hlc@, target) {
            Some((true, d)) => r matches HyprShape::Vector(v) && v@ == d,
            Some((false, d)) => match r {
                HyprShape::Drawn(b) => png_bitmap(d, Some(b)),
                HyprShape::Nothing => png_bitmap(d, None),
                HyprShape::Vector(_) => false,
            },
            None => r is Nothing,
        },
{
    match hlc_asset(hlc, target) {
        Some(Asset::Svg(data)) => HyprShape::Vector(data),
        Some(Asset::Png(data)) => match decode_png(data.as_slice()) {
            Some(b) => HyprShape::Drawn(b),
            None => HyprShape::Nothing,
        },
        None => HyprShape::Nothing,
    }
}

// ----------------------------------------------------------------- shapes ---

/// A slot's bitmap from what each format gave: hyprcursor is tried first for
/// themes that ship it, the Xcursor one takes over when that gave nothing or
/// a blank, and a blank is no bitmap.
pub open spec fn shape_choice(format: Format, hypr: Option<Bitmap>, x11: Option<Bitmap>) -> Option<
    Bitmap,
> {
    let first = if format.hypr() {
        hypr
    } else {
        None
    };
    let second = if (first is None || blank(first.unwrap().rgba@)) && format.x11() && x11 is Some {
        x11
    } else {
        first
    };
    match second {
        Some(b) => if blank(b.rgba@) {
            None
        } else {
            Some(b)
        },
        None => None,
    }
}

/// A shape that decodes but draws nothing counts as missing: no slot ever
/// shows a fully transparent bitmap.
pub proof fn law_no_blank_shapes(format: Format, hypr: Option<Bitmap>, x11: Option<Bitmap>)
    ensures
        shape_choice(format, hypr, x11) matches Some(b) ==> !blank(b.rgba@),
{
}

/// For a theme that ships hyprcursor, alone or beside Xcursor, a hyprcursor
/// shape that draws something is the one shown, whatever the Xcursor file
/// holds.
pub proof fn law_hyprcursor_first(format: Format, hypr: Bitmap, x11: Option<Bitmap>)
    requires
        format is Hyprcursor || format is Both,
        !blank(hypr.rgba@),
    ensures
        shape_choice(format, Some(hypr), x11) == Some(hypr),
{
}

/// For a theme that ships Xcursor, an Xcursor shape that draws something is
/// shown wherever hyprcursor gave nothing to show: the theme has no
/// hyprcursor assets, or they gave no shape or a blank one.
pub proof fn law_xcursor_fallback(format: Format, hypr: Option<Bitmap>, x11: Bitmap)
    requires
        format is Xcursor || format is Both,
        !blank(x11.rgba@),
        format is Xcursor || hypr is None || blank(hypr.unwrap().rgba@),
    ensures
        shape_choice(format, hypr, Some(x11)) == Some(x11),
{
}

/// What a slot shows comes from a format the theme ships: the hyprcursor
/// bitmap of a theme with hyprcursor assets, or the Xcursor bitmap of one
/// with Xcursor files.
pub proof fn law_shape_source(format: Format, hypr: Option<Bitmap>, x11: Option<Bitmap>)
    ensures
        shape_choice(format, hypr, x11) matches Some(b) ==> ((hypr == Some(b) && (format is Hyprcursor
            || format is Both)) || (x11 == Some(b) && (format is Xcursor || format is Both))),
{
}

/// A theme's own format decides what can be shown: an Xcursor-only theme
/// never shows a hyprcursor bitmap and a hyprcursor-only theme never shows an
/// Xcursor one.
pub proof fn law_format_decides(hypr: Option<Bitmap>, x11: Option<Bitmap>)
    ensures
        shape_choice(Format::Xcursor, hypr, x11) == shape_choice(Format::Xcursor, None, x11),
        shape_choice(Format::Hyprcursor, hypr, x11) == shape_choice(Format::Hyprcursor, hypr, None),
{
}

/// Whether the Xcursor files of a slot are worth loading, given what the
/// hyprcursor ones gave (`None` when not loaded).
pub fn needs_x11(format: Format, hypr: &Option<Bitmap>) -> (r: bool)
    ensures
        r == (((if format.hypr() {
            *hypr
        } else {
            None
        }) matches Some(b) ==> blank(b.rgba@)) && format.x11()),
{
    let missing = if format.has_hypr() {
        match hypr {
            Some(b) => b.is_blank(),
            None => true,
        }
    } else {
        true
    };
    missing && format.has_x11()
}

/// Render one preview slot for a theme from what its files gave:
/// `hypr` from the slot's `.hlc` (loaded only for themes with hyprcursor
/// assets) and `x11` from its Xcursor file (loaded only when
/// [`needs_x11`] says so). hyprcursor wins for themes that ship both: it is
/// vector, so it stays sharp at any size, and it is what Hyprland itself
/// will actually use.
pub fn shape(theme: &Theme, hypr: Option<Bitmap>, x11: Option<Bitmap>) -> (r: Option<Bitmap>)
    ensures
        r == shape_choice(theme.format, hypr, x11),
{
    let format = theme.format;
    let mut bitmap = if format.has_hypr() {
        hypr
    } else {
        None
    };
    let missing = match &bitmap {
        Some(b) => b.is_blank(),
        None => true,
    };
    if missing && format.has_x11() {
        match x11 {
            Some(fallback) => {
                bitmap = Some(fallback);
            },
            None => {},
        }
    }
    match bitmap {
        Some(b) => if b.is_blank() {
            None
        } else {
            Some(b)
        },
        None => None,
    }
}

/// Every slot for a theme, from what each slot's files gave, one pair per
/// slot in slot order. Missing shapes come back as `None` so the UI can
/// leave a gap rather than silently shifting the others along.
pub fn preview(theme: &Theme, loaded: Vec<(Option<Bitmap>, Option<Bitmap>)>) -> (r: Vec<
    Option<Bitmap>,
>)
    requires
        loaded.len() == slot_table().len(),
    ensures
        r.len() == slot_table().len(),
        forall|i: int|
            0 <= i < r.len() ==> #[trigger] r[i] == shape_choice(
                theme.format,
                loaded[i].0,
                loaded[i].1,
            ),
{
    let ghost orig = loaded@;
    let mut rest = loaded;
    let mut out: Vec<Option<Bitmap>> = Vec::new();
    let n = rest.len();
    let mut i: usize = 0;
    assert(orig.skip(0) == orig);
    while i < n
        invariant
            i <= n == orig.len(),
            rest@ == orig.skip(i as int),
            out@.len() == i,
            forall|j: int|
                0 <= j < i ==> #[trigger] out@[j] == shape_choice(
                    theme.format,
                    orig[j].0,
                    orig[j].1,
                ),
        decreases n - i,
    {
        let (h, x) = rest.remove(0);
        assert(orig[i as int] == (h, x));
        assert(rest@ == orig.skip(i + 1));
        out.push(shape(theme, h, x));
        i += 1;
    }
    out
}

/// The directory whose entries count as a theme's shapes: `hyprcursors` for
/// a hyprcursor-only theme, `cursors` otherwise.
pub fn shape_dir(format: Format) -> (r: &'static str)
    ensures
        r@ == (if format is Hyprcursor {
            "hyprcursors"@
        } else {
            "cursors"@
        }),
{
    match format {
        Format::Hyprcursor => "hyprcursors",
        _ => "cursors",
    }
}

} // verus!
