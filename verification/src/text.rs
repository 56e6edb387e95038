//! Character-level text handling: trimming, line splitting, searching and
//! number formatting, each an executable function proved against a spec
//! function over `Seq<char>`.
use vstd::prelude::*;

verus! {

broadcast use vstd::string::group_string_axioms;

/// `String::push` appends one character.
pub assume_specification[ String::push ](s: &mut String, ch: char)
    ensures
        final(s)@ == old(s)@.push(ch),
;

// ------------------------------------------------------------ conversion ---

/// The characters of `s`, in order.
pub fn chars_of(s: &str) -> (r: Vec<char>)
    ensures
        r@ == s@,
{
    let mut out: Vec<char> = Vec::new();
    for c in it: s.chars()
        invariant
            out@ == it.seq().take(it.index() as int),
            it.seq() == s@,
    {
        out.push(c);
    }
    out
}

/// The string made of the characters of `cs`.
pub fn string_of(cs: &Vec<char>) -> (r: String)
    ensures
        r@ == cs@,
{
    let mut out = String::new();
    let mut i: usize = 0;
    while i < cs.len()
        invariant
            i <= cs.len(),
            out@ == cs@.take(i as int),
        decreases cs.len() - i,
    {
        out.push(cs[i]);
        i += 1;
    }
    out
}

/// The characters `s[from..to]`.
pub fn slice_of(s: &Vec<char>, from: usize, to: usize) -> (r: Vec<char>)
    requires
        from <= to <= s.len(),
    ensures
        r@ == s@.subrange(from as int, to as int),
{
    let mut out: Vec<char> = Vec::new();
    let mut i = from;
    while i < to
        invariant
            from <= i <= to <= s.len(),
            out@ == s@.subrange(from as int, i as int),
        decreases to - i,
    {
        out.push(s[i]);
        i += 1;
    }
    out
}

/// `a` followed by `b`.
pub fn append(a: &mut Vec<char>, b: &Vec<char>)
    ensures
        final(a)@ == old(a)@ + b@,
{
    let mut i: usize = 0;
    while i < b.len()
        invariant
            i <= b.len(),
            a@ == old(a)@ + b@.take(i as int),
        decreases b.len() - i,
    {
        a.push(b[i]);
        i += 1;
    }
}

/// Whether two character sequences are equal.
pub fn same_chars(a: &Vec<char>, b: &Vec<char>) -> (r: bool)
    ensures
        r == (a@ == b@),
{
    if a.len() != b.len() {
        return false;
    }
    let mut i: usize = 0;
    while i < a.len()
        invariant
            i <= a.len() == b.len(),
            a@.take(i as int) == b@.take(i as int),
        decreases a.len() - i,
    {
        if a[i] != b[i] {
            assert(a@[i as int] != b@[i as int]);
            return false;
        }
        assert(a@.take(i + 1) == a@.take(i as int).push(a@[i as int]));
        assert(b@.take(i + 1) == b@.take(i as int).push(b@[i as int]));
        i += 1;
    }
    assert(a@ == a@.take(a.len() as int));
    assert(b@ == b@.take(b.len() as int));
    true
}

// ------------------------------------------------------------ whitespace ---

/// The Unicode `White_Space` property, which is what `char::is_whitespace`
/// and the `trim` family of `str` go by.
pub open spec fn is_white(c: char) -> bool {
    let u = c as u32;
    (0x9 <= u && u <= 0xD) || u == 0x20 || u == 0x85 || u == 0xA0 || u == 0x1680 || (0x2000 <= u
        && u <= 0x200A) || u == 0x2028 || u == 0x2029 || u == 0x202F || u == 0x205F || u == 0x3000
}

pub fn white(c: char) -> (r: bool)
    ensures
        r == is_white(c),
{
    let u = c as u32;
    (0x9 <= u && u <= 0xD) || u == 0x20 || u == 0x85 || u == 0xA0 || u == 0x1680 || (0x2000 <= u
        && u <= 0x200A) || u == 0x2028 || u == 0x2029 || u == 0x202F || u == 0x205F || u == 0x3000
}

/// `s` without its leading characters that satisfy `p`.
pub open spec fn strip_start_by(s: Seq<char>, p: spec_fn(char) -> bool) -> Seq<char>
    decreases s.len(),
{
    if s.len() > 0 && p(s[0]) {
        strip_start_by(s.drop_first(), p)
    } else {
        s
    }
}

/// `s` without its trailing characters that satisfy `p`.
pub open spec fn strip_end_by(s: Seq<char>, p: spec_fn(char) -> bool) -> Seq<char>
    decreases s.len(),
{
    if s.len() > 0 && p(s.last()) {
        strip_end_by(s.drop_last(), p)
    } else {
        s
    }
}

pub open spec fn white_fn() -> spec_fn(char) -> bool {
    |c: char| is_white(c)
}

pub open spec fn is_char_fn(x: char) -> spec_fn(char) -> bool {
    |c: char| c == x
}

/// `str::trim_start`.
pub open spec fn trim_start(s: Seq<char>) -> Seq<char> {
    strip_start_by(s, white_fn())
}

/// `str::trim_end`.
pub open spec fn trim_end(s: Seq<char>) -> Seq<char> {
    strip_end_by(s, white_fn())
}

/// `str::trim`.
pub open spec fn trim(s: Seq<char>) -> Seq<char> {
    trim_end(trim_start(s))
}

/// `str::trim_start_matches` with one character.
pub open spec fn trim_start_char(s: Seq<char>, x: char) -> Seq<char> {
    strip_start_by(s, is_char_fn(x))
}

/// `str::trim_matches` with one character.
pub open spec fn trim_char(s: Seq<char>, x: char) -> Seq<char> {
    strip_end_by(strip_start_by(s, is_char_fn(x)), is_char_fn(x))
}

proof fn lemma_strip_start_step(s: Seq<char>, i: int, p: spec_fn(char) -> bool)
    requires
        0 <= i < s.len(),
        p(s[i]),
    ensures
        strip_start_by(s.subrange(i, s.len() as int), p) == strip_start_by(
            s.subrange(i + 1, s.len() as int),
            p,
        ),
{
    assert(s.subrange(i, s.len() as int).drop_first() == s.subrange(i + 1, s.len() as int));
}

proof fn lemma_strip_end_step(s: Seq<char>, j: int, p: spec_fn(char) -> bool)
    requires
        0 < j <= s.len(),
        p(s[j - 1]),
    ensures
        strip_end_by(s.subrange(0, j), p) == strip_end_by(s.subrange(0, j - 1), p),
{
    assert(s.subrange(0, j).drop_last() == s.subrange(0, j - 1));
}

/// `str::trim_start`.
pub fn trimmed_start(s: &Vec<char>) -> (r: Vec<char>)
    ensures
        r@ == trim_start(s@),
{
    let mut i: usize = 0;
    assert(s@.subrange(0, s.len() as int) == s@);
    while i < s.len() && white(s[i])
        invariant
            i <= s.len(),
            trim_start(s@) == strip_start_by(s@.subrange(i as int, s.len() as int), white_fn()),
        decreases s.len() - i,
    {
        proof {
            lemma_strip_start_step(s@, i as int, white_fn());
        }
        i += 1;
    }
    proof {
        assert(s@.subrange(0, s.len() as int) == s@);
    }
    slice_of(s, i, s.len())
}

/// `str::trim_end`.
pub fn trimmed_end(s: &Vec<char>) -> (r: Vec<char>)
    ensures
        r@ == trim_end(s@),
{
    let mut j: usize = s.len();
    assert(s@.subrange(0, s.len() as int) == s@);
    while j > 0 && white(s[j - 1])
        invariant
            j <= s.len(),
            trim_end(s@) == strip_end_by(s@.subrange(0, j as int), white_fn()),
        decreases j,
    {
        proof {
            lemma_strip_end_step(s@, j as int, white_fn());
        }
        j -= 1;
    }
    slice_of(s, 0, j)
}

/// `str::trim`.
pub fn trimmed(s: &Vec<char>) -> (r: Vec<char>)
    ensures
        r@ == trim(s@),
{
    let a = trimmed_start(s);
    trimmed_end(&a)
}

/// `str::trim_start_matches(x)` for one character `x`.
pub fn trimmed_start_char(s: &Vec<char>, x: char) -> (r: Vec<char>)
    ensures
        r@ == trim_start_char(s@, x),
{
    let mut i: usize = 0;
    assert(s@.subrange(0, s.len() as int) == s@);
    while i < s.len() && s[i] == x
        invariant
            i <= s.len(),
            trim_start_char(s@, x) == strip_start_by(
                s@.subrange(i as int, s.len() as int),
                is_char_fn(x),
            ),
        decreases s.len() - i,
    {
        proof {
            lemma_strip_start_step(s@, i as int, is_char_fn(x));
        }
        i += 1;
    }
    proof {
        assert(s@.subrange(0, s.len() as int) == s@);
    }
    slice_of(s, i, s.len())
}

/// `str::trim_matches(x)` for one character `x`.
pub fn trimmed_char(s: &Vec<char>, x: char) -> (r: Vec<char>)
    ensures
        r@ == trim_char(s@, x),
{
    let a = trimmed_start_char(s, x);
    let mut j: usize = a.len();
    assert(a@.subrange(0, a.len() as int) == a@);
    while j > 0 && a[j - 1] == x
        invariant
            j <= a.len(),
            trim_char(s@, x) == strip_end_by(a@.subrange(0, j as int), is_char_fn(x)),
        decreases j,
    {
        proof {
            lemma_strip_end_step(a@, j as int, is_char_fn(x));
        }
        j -= 1;
    }
    slice_of(&a, 0, j)
}

// --------------------------------------------------------------- absence ---

/// `c` does not occur in `s`.
pub open spec fn lacks(s: Seq<char>, c: char) -> bool {
    forall|i: int| 0 <= i < s.len() ==> s[i] != c
}

/// `c` does not occur in `s` at or after index `j`; unfolds one index at a
/// time, so that a literal can be checked by unfolding.
pub open spec fn lacks_from(s: Seq<char>, c: char, j: nat) -> bool
    decreases s.len() - j,
{
    if j >= s.len() {
        true
    } else {
        s[j as int] != c && lacks_from(s, c, j + 1)
    }
}

pub proof fn lemma_lacks_from(s: Seq<char>, c: char, j: nat)
    requires
        lacks_from(s, c, j),
    ensures
        forall|i: int| j <= i < s.len() ==> s[i] != c,
    decreases s.len() - j,
{
    if j < s.len() {
        lemma_lacks_from(s, c, j + 1);
    }
}

// ------------------------------------------------------------- searching ---

/// Whether `pat` occurs in `s` starting at index `i`.
pub open spec fn matches_at(s: Seq<char>, pat: Seq<char>, i: int) -> bool {
    0 <= i && i + pat.len() <= s.len() && s.subrange(i, i + pat.len()) == pat
}

/// First index at or after `i` where `pat` occurs in `s`.
pub open spec fn find_from(s: Seq<char>, pat: Seq<char>, i: nat) -> Option<nat>
    decreases s.len() + 1 - i,
{
    if i > s.len() || i + pat.len() > s.len() {
        None
    } else if matches_at(s, pat, i as int) {
        Some(i)
    } else {
        find_from(s, pat, i + 1)
    }
}

/// `str::find`: the first index where `pat` occurs in `s`.
pub open spec fn find(s: Seq<char>, pat: Seq<char>) -> Option<nat> {
    find_from(s, pat, 0)
}

/// `str::contains`.
pub open spec fn contains(s: Seq<char>, pat: Seq<char>) -> bool {
    find(s, pat) is Some
}

/// `str::starts_with`.
pub open spec fn starts_with(s: Seq<char>, p: Seq<char>) -> bool {
    p.len() <= s.len() && s.take(p.len() as int) == p
}

/// `str::ends_with`.
pub open spec fn ends_with(s: Seq<char>, p: Seq<char>) -> bool {
    p.len() <= s.len() && s.skip(s.len() - p.len()) == p
}

/// `find_from` is the least matching index at or after `i`.
pub proof fn lemma_find_from(s: Seq<char>, pat: Seq<char>, i: nat)
    ensures
        match find_from(s, pat, i) {
            Some(k) => i <= k && matches_at(s, pat, k as int) && forall|j: int|
                i <= j < k ==> !matches_at(s, pat, j),
            None => forall|j: int| i <= j ==> !matches_at(s, pat, j),
        },
    decreases s.len() + 1 - i,
{
    if i > s.len() || i + pat.len() > s.len() {
    } else if matches_at(s, pat, i as int) {
    } else {
        lemma_find_from(s, pat, i + 1);
    }
}

/// `find` is the least matching index.
pub proof fn lemma_find(s: Seq<char>, pat: Seq<char>)
    ensures
        match find(s, pat) {
            Some(k) => matches_at(s, pat, k as int) && forall|j: int|
                0 <= j < k ==> !matches_at(s, pat, j),
            None => forall|j: int| 0 <= j ==> !matches_at(s, pat, j),
        },
{
    lemma_find_from(s, pat, 0);
}

/// Whether `pat` occurs in `s` at index `i`.
pub fn occurs_at(s: &Vec<char>, pat: &Vec<char>, i: usize) -> (r: bool)
    ensures
        r == matches_at(s@, pat@, i as int),
{
    if i > s.len() || pat.len() > s.len() - i {
        return false;
    }
    let mut j: usize = 0;
    while j < pat.len()
        invariant
            i + pat.len() <= s.len(),
            j <= pat.len(),
            forall|k: int| 0 <= k < j ==> s@[i + k] == pat@[k],
        decreases pat.len() - j,
    {
        if s[i + j] != pat[j] {
            assert(s@.subrange(i as int, i + pat.len())[j as int] != pat@[j as int]);
            return false;
        }
        j += 1;
    }
    assert(s@.subrange(i as int, i + pat.len()) == pat@);
    true
}

/// First index at or after `from` where `pat` occurs in `s`.
pub fn find_in_from(s: &Vec<char>, pat: &Vec<char>, from: usize) -> (r: Option<usize>)
    ensures
        r matches Some(k) ==> find_from(s@, pat@, from as nat) == Some(k as nat),
        r is None ==> find_from(s@, pat@, from as nat) is None,
{
    if from > s.len() {
        return None;
    }
    let mut i: usize = from;
    while i < s.len()
        invariant
            from <= i <= s.len(),
            find_from(s@, pat@, from as nat) == find_from(s@, pat@, i as nat),
        decreases s.len() - i,
    {
        if pat.len() > s.len() - i {
            return None;
        }
        if occurs_at(s, pat, i) {
            return Some(i);
        }
        i += 1;
    }
    if pat.len() == 0 {
        assert(s@.subrange(i as int, i as int) == pat@);
        Some(i)
    } else {
        None
    }
}

/// `str::find`.
pub fn find_in(s: &Vec<char>, pat: &Vec<char>) -> (r: Option<usize>)
    ensures
        r matches Some(k) ==> find(s@, pat@) == Some(k as nat),
        r is None ==> find(s@, pat@) is None,
{
    find_in_from(s, pat, 0)
}

/// `str::contains`.
pub fn has(s: &Vec<char>, pat: &Vec<char>) -> (r: bool)
    ensures
        r == contains(s@, pat@),
{
    find_in(s, pat).is_some()
}

/// `str::starts_with`.
pub fn has_prefix(s: &Vec<char>, p: &Vec<char>) -> (r: bool)
    ensures
        r == starts_with(s@, p@),
{
    let r = occurs_at(s, p, 0);
    assert(s@.take(p.len() as int) == s@.subrange(0, p.len() as int));
    r
}

/// `str::ends_with`.
pub fn has_suffix(s: &Vec<char>, p: &Vec<char>) -> (r: bool)
    ensures
        r == ends_with(s@, p@),
{
    if p.len() > s.len() {
        return false;
    }
    let r = occurs_at(s, p, s.len() - p.len());
    assert(s@.skip(s.len() - p.len()) == s@.subrange(s.len() - p.len(), s.len() as int));
    r
}

// --------------------------------------------------------------- splitting ---

/// `str::split_once` on one character.
pub open spec fn split_once(s: Seq<char>, c: char) -> Option<(Seq<char>, Seq<char>)> {
    match find(s, seq![c]) {
        Some(k) => Some((s.take(k as int), s.skip(k as int + 1))),
        None => None,
    }
}

/// `str::split_once` on one character.
pub fn split_once_at(s: &Vec<char>, c: char) -> (r: Option<(Vec<char>, Vec<char>)>)
    ensures
        match r {
            Some((a, b)) => split_once(s@, c) == Some((a@, b@)),
            None => split_once(s@, c) is None,
        },
{
    let mut pat: Vec<char> = Vec::new();
    pat.push(c);
    assert(pat@ == seq![c]);
    match find_in(s, &pat) {
        Some(k) => {
            proof {
                lemma_find(s@, pat@);
            }
            assert(k + 1 <= s.len());
            let a = slice_of(s, 0, k);
            let b = slice_of(s, k + 1, s.len());
            assert(a@ == s@.take(k as int));
            assert(b@ == s@.skip(k as int + 1));
            Some((a, b))
        },
        None => None,
    }
}

/// `str::split` on one character: the pieces between its occurrences.
pub open spec fn split_on(s: Seq<char>, c: char) -> Seq<Seq<char>>
    decreases s.len(),
{
    match split_once(s, c) {
        Some((a, b)) => {
            if b.len() < s.len() {
                seq![a] + split_on(b, c)
            } else {
                seq![s]
            }
        },
        None => seq![s],
    }
}

/// Everything after a `split_once` is shorter than the whole.
proof fn lemma_split_once_shorter(s: Seq<char>, c: char)
    ensures
        split_once(s, c) matches Some((a, b)) ==> b.len() < s.len() && a.len() < s.len(),
{
    lemma_find(s, seq![c]);
}

/// `str::split` always hands out at least one piece.
pub proof fn lemma_split_on_nonempty(s: Seq<char>, c: char)
    ensures
        split_on(s, c).len() >= 1,
{
    match split_once(s, c) {
        Some((a, b)) => {
            if b.len() < s.len() {
                assert(split_on(s, c) == seq![a] + split_on(b, c));
            }
        },
        None => {},
    }
}

/// `str::split` on one character.
pub fn split_all(s: &Vec<char>, c: char) -> (r: Vec<Vec<char>>)
    ensures
        r@.map_values(|v: Vec<char>| v@) == split_on(s@, c),
    decreases s.len(),
{
    proof {
        lemma_split_once_shorter(s@, c);
    }
    match split_once_at(s, c) {
        Some((a, b)) => {
            let rest = split_all(&b, c);
            let mut out: Vec<Vec<char>> = Vec::new();
            out.push(a);
            let mut i: usize = 0;
            while i < rest.len()
                invariant
                    i <= rest.len(),
                    out@.len() == i + 1,
                    out@[0]@ == a@,
                    forall|k: int| 0 <= k < i ==> #[trigger] out@[k + 1]@ == rest@[k]@,
                decreases rest.len() - i,
            {
                out.push(rest[i].clone());
                i += 1;
            }
            proof {
                lemma_views_cons(out@, a@, rest@);
            }
            out
        },
        None => {
            let mut out: Vec<Vec<char>> = Vec::new();
            out.push(s.clone());
            assert(out@.map_values(|v: Vec<char>| v@) == seq![s@]);
            out
        },
    }
}

/// A vector of character vectors that starts with `first` and continues
/// with `rest` views as `first` followed by the views of `rest`.
proof fn lemma_views_cons(out: Seq<Vec<char>>, first: Seq<char>, rest: Seq<Vec<char>>)
    requires
        out.len() == rest.len() + 1,
        out[0]@ == first,
        forall|k: int| 0 <= k < rest.len() ==> #[trigger] out[k + 1]@ == rest[k]@,
    ensures
        out.map_values(|v: Vec<char>| v@) == seq![first] + rest.map_values(|v: Vec<char>| v@),
{
    let l = out.map_values(|v: Vec<char>| v@);
    let r = seq![first] + rest.map_values(|v: Vec<char>| v@);
    assert forall|j: int| 0 <= j < l.len() implies l[j] == r[j] by {
        if j > 0 {
            assert(out[(j - 1) + 1]@ == rest[j - 1]@);
        }
    }
    assert(l =~= r);
}

/// `s` without a final `'\r'`.
pub open spec fn strip_cr(s: Seq<char>) -> Seq<char> {
    if s.len() > 0 && s.last() == '\r' {
        s.drop_last()
    } else {
        s
    }
}

/// `str::lines`: the text between `'\n'`s, each without a `'\r'` that
/// stood right before its `'\n'`; a final line ending adds no empty line.
pub open spec fn lines(s: Seq<char>) -> Seq<Seq<char>>
    decreases s.len(),
{
    if s.len() == 0 {
        seq![]
    } else {
        match split_once(s, '\n') {
            Some((a, b)) => {
                if b.len() < s.len() {
                    seq![strip_cr(a)] + lines(b)
                } else {
                    seq![s]
                }
            },
            None => seq![s],
        }
    }
}

/// `str::lines`.
pub fn lines_of(s: &Vec<char>) -> (r: Vec<Vec<char>>)
    ensures
        r@.map_values(|v: Vec<char>| v@) == lines(s@),
    decreases s.len(),
{
    proof {
        lemma_split_once_shorter(s@, '\n');
    }
    if s.len() == 0 {
        let out: Vec<Vec<char>> = Vec::new();
        assert(out@.map_values(|v: Vec<char>| v@) == Seq::<Seq<char>>::empty());
        return out;
    }
    match split_once_at(s, '\n') {
        Some((a, b)) => {
            let rest = lines_of(&b);
            let mut first = a;
            if first.len() > 0 && first[first.len() - 1] == '\r' {
                first.pop();
            }
            assert(first@ == strip_cr(a@));
            let mut out: Vec<Vec<char>> = Vec::new();
            out.push(first);
            let mut i: usize = 0;
            while i < rest.len()
                invariant
                    i <= rest.len(),
                    out@.len() == i + 1,
                    out@[0]@ == strip_cr(a@),
                    forall|k: int| 0 <= k < i ==> #[trigger] out@[k + 1]@ == rest@[k]@,
                decreases rest.len() - i,
            {
                out.push(rest[i].clone());
                i += 1;
            }
            proof {
                lemma_views_cons(out@, strip_cr(a@), rest@);
            }
            out
        },
        None => {
            let mut out: Vec<Vec<char>> = Vec::new();
            out.push(s.clone());
            assert(out@.map_values(|v: Vec<char>| v@) == seq![s@]);
            out
        },
    }
}

/// `parts` with `sep` between each two of them; `slice::join`.
pub open spec fn join(parts: Seq<Seq<char>>, sep: Seq<char>) -> Seq<char>
    decreases parts.len(),
{
    if parts.len() == 0 {
        seq![]
    } else if parts.len() == 1 {
        parts[0]
    } else {
        join(parts.drop_last(), sep) + sep + parts.last()
    }
}

/// The character views of a vector of strings.
pub open spec fn views(v: Seq<String>) -> Seq<Seq<char>> {
    v.map_values(|s: String| s@)
}

/// `slice::join` on strings.
pub fn join_strings(parts: &Vec<String>, sep: &str) -> (r: String)
    ensures
        r@ == join(views(parts@), sep@),
{
    let mut out: Vec<char> = Vec::new();
    let sp = chars_of(sep);
    let mut i: usize = 0;
    while i < parts.len()
        invariant
            i <= parts.len(),
            sp@ == sep@,
            out@ == join(views(parts@).take(i as int), sep@),
        decreases parts.len() - i,
    {
        let ghost before = views(parts@).take(i as int);
        let ghost after = views(parts@).take(i + 1);
        assert(after.drop_last() == before);
        assert(after.last() == parts@[i as int]@);
        if i > 0 {
            append(&mut out, &sp);
        } else {
            assert(before.len() == 0);
        }
        append(&mut out, &chars_of(parts[i].as_str()));
        i += 1;
    }
    assert(views(parts@).take(parts.len() as int) == views(parts@));
    string_of(&out)
}

// ---------------------------------------------------------------- order ---

/// Lexicographic order by code point, which is how `String`s compare.
pub open spec fn lex_lt(a: Seq<char>, b: Seq<char>) -> bool
    decreases a.len(),
{
    if b.len() == 0 {
        false
    } else if a.len() == 0 {
        true
    } else if a[0] != b[0] {
        a[0] < b[0]
    } else {
        lex_lt(a.drop_first(), b.drop_first())
    }
}

pub proof fn lemma_lex_irreflexive(a: Seq<char>)
    ensures
        !lex_lt(a, a),
    decreases a.len(),
{
    if a.len() > 0 {
        lemma_lex_irreflexive(a.drop_first());
    }
}

pub proof fn lemma_lex_transitive(a: Seq<char>, b: Seq<char>, c: Seq<char>)
    requires
        lex_lt(a, b),
        lex_lt(b, c),
    ensures
        lex_lt(a, c),
    decreases a.len(),
{
    if a.len() > 0 && b.len() > 0 && c.len() > 0 && a[0] == b[0] && b[0] == c[0] {
        lemma_lex_transitive(a.drop_first(), b.drop_first(), c.drop_first());
    }
}

pub proof fn lemma_lex_total(a: Seq<char>, b: Seq<char>)
    requires
        a != b,
    ensures
        lex_lt(a, b) || lex_lt(b, a),
    decreases a.len(),
{
    if a.len() > 0 && b.len() > 0 && a[0] == b[0] {
        if a.drop_first() == b.drop_first() {
            assert(a == seq![a[0]] + a.drop_first());
            assert(b == seq![b[0]] + b.drop_first());
        }
        lemma_lex_total(a.drop_first(), b.drop_first());
    } else if a.len() == 0 && b.len() == 0 {
        assert(a == b);
    }
}

pub proof fn lemma_lex_asymmetric(a: Seq<char>, b: Seq<char>)
    requires
        lex_lt(a, b),
    ensures
        !lex_lt(b, a),
{
    if lex_lt(b, a) {
        lemma_lex_transitive(a, b, a);
        lemma_lex_irreflexive(a);
    }
}

/// Whether `a` sorts before `b`.
pub fn lex_less(a: &Vec<char>, b: &Vec<char>) -> (r: bool)
    ensures
        r == lex_lt(a@, b@),
{
    let mut i: usize = 0;
    assert(a@.skip(0) == a@);
    assert(b@.skip(0) == b@);
    while i < a.len() && i < b.len() && a[i] == b[i]
        invariant
            i <= a.len(),
            i <= b.len(),
            lex_lt(a@, b@) == lex_lt(a@.skip(i as int), b@.skip(i as int)),
        decreases a.len() - i,
    {
        assert(a@.skip(i as int).drop_first() == a@.skip(i + 1));
        assert(b@.skip(i as int).drop_first() == b@.skip(i + 1));
        i += 1;
    }
    if i == b.len() {
        false
    } else if i == a.len() {
        true
    } else {
        a[i] < b[i]
    }
}

// --------------------------------------------------------------- padding ---

/// `n` spaces.
pub open spec fn spaces(n: nat) -> Seq<char> {
    Seq::new(n, |i: int| ' ')
}

/// `s` filled with spaces on the right to `width` characters, as `{:<width}`
/// formats it.
pub open spec fn pad_end(s: Seq<char>, width: nat) -> Seq<char> {
    if s.len() < width {
        s + spaces((width - s.len()) as nat)
    } else {
        s
    }
}

/// `s` filled with spaces on the left to `width` characters, as `{:>width}`
/// formats it.
pub open spec fn pad_start(s: Seq<char>, width: nat) -> Seq<char> {
    if s.len() < width {
        spaces((width - s.len()) as nat) + s
    } else {
        s
    }
}

fn space_run(n: usize) -> (r: Vec<char>)
    ensures
        r@ == spaces(n as nat),
{
    let mut v: Vec<char> = Vec::new();
    let mut i: usize = 0;
    while i < n
        invariant
            i <= n,
            v@ == spaces(i as nat),
        decreases n - i,
    {
        v.push(' ');
        i += 1;
        assert(v@ == spaces(i as nat));
    }
    v
}

/// `{:<width}`.
pub fn padded_end(s: &Vec<char>, width: usize) -> (r: Vec<char>)
    ensures
        r@ == pad_end(s@, width as nat),
{
    let mut out = s.clone();
    if s.len() < width {
        append(&mut out, &space_run(width - s.len()));
    }
    out
}

/// `{:>width}`.
pub fn padded_start(s: &Vec<char>, width: usize) -> (r: Vec<char>)
    ensures
        r@ == pad_start(s@, width as nat),
{
    if s.len() < width {
        let mut out = space_run(width - s.len());
        append(&mut out, s);
        out
    } else {
        s.clone()
    }
}

// ----------------------------------------------------------------- ASCII ---

/// `char::to_ascii_lowercase`.
pub open spec fn ascii_lower(c: char) -> char {
    if 'A' <= c && c <= 'Z' {
        ((c as u32) + 32) as char
    } else {
        c
    }
}

/// `char::to_ascii_lowercase`.
pub fn lower_ascii_char(c: char) -> (r: char)
    ensures
        r == ascii_lower(c),
{
    if 'A' <= c && c <= 'Z' {
        ((c as u8) + 32) as char
    } else {
        c
    }
}

/// `char::is_ascii_alphanumeric`.
pub open spec fn is_ascii_alnum(c: char) -> bool {
    ('0' <= c && c <= '9') || ('a' <= c && c <= 'z') || ('A' <= c && c <= 'Z')
}

/// `char::is_ascii_digit`.
pub open spec fn is_digit(c: char) -> bool {
    '0' <= c && c <= '9'
}

/// `str::eq_ignore_ascii_case`: equal once ASCII letters are folded to lower case.
pub open spec fn eq_ignore_case(a: Seq<char>, b: Seq<char>) -> bool {
    a.len() == b.len() && forall|i: int| 0 <= i < a.len() ==> ascii_lower(a[i]) == ascii_lower(b[i])
}

/// `str::eq_ignore_ascii_case`.
pub fn same_ignoring_case(a: &Vec<char>, b: &Vec<char>) -> (r: bool)
    ensures
        r == eq_ignore_case(a@, b@),
{
    if a.len() != b.len() {
        return false;
    }
    let mut i: usize = 0;
    while i < a.len()
        invariant
            i <= a.len() == b.len(),
            forall|k: int| 0 <= k < i ==> ascii_lower(a@[k]) == ascii_lower(b@[k]),
        decreases a.len() - i,
    {
        if lower_ascii_char(a[i]) != lower_ascii_char(b[i]) {
            return false;
        }
        i += 1;
    }
    true
}

// --------------------------------------------------------------- numbers ---

/// The decimal digit for `d < 10`.
pub open spec fn digit_char(d: nat) -> char {
    (d + 48) as char
}

/// The decimal digits of `n`, as `u32::to_string` writes them.
pub open spec fn decimal(n: nat) -> Seq<char>
    decreases n,
{
    if n < 10 {
        seq![digit_char(n)]
    } else {
        decimal(n / 10).push(digit_char(n % 10))
    }
}

/// Decimal digits are all in `'0'..='9'`.
pub proof fn lemma_decimal_digits(n: nat)
    ensures
        forall|i: int| 0 <= i < decimal(n).len() ==> is_digit(#[trigger] decimal(n)[i]),
        decimal(n).len() > 0,
    decreases n,
{
    if n >= 10 {
        lemma_decimal_digits(n / 10);
    }
}

/// A character that is not a digit does not occur in a decimal.
pub proof fn lemma_decimal_lacks(n: nat, c: char)
    requires
        !is_digit(c),
    ensures
        lacks(decimal(n), c),
{
    lemma_decimal_digits(n);
}

/// `u64::to_string`.
pub fn decimal_of(n: u64) -> (r: Vec<char>)
    ensures
        r@ == decimal(n as nat),
    decreases n,
{
    if n < 10 {
        let mut v: Vec<char> = Vec::new();
        v.push(((n as u8) + 48) as char);
        assert(v@ == seq![digit_char(n as nat)]);
        v
    } else {
        let mut v = decimal_of(n / 10);
        v.push((((n % 10) as u8) + 48) as char);
        v
    }
}

/// The value of a digit character in `radix` (at most 16), if it is one;
/// `char::to_digit`.
pub open spec fn digit_value(c: char, radix: nat) -> Option<nat> {
    let v: nat = if '0' <= c && c <= '9' {
        ((c as nat) - 48) as nat
    } else if 'a' <= c && c <= 'z' {
        ((c as nat) - 87) as nat
    } else if 'A' <= c && c <= 'Z' {
        ((c as nat) - 55) as nat
    } else {
        99
    };
    if v < radix {
        Some(v)
    } else {
        None
    }
}

/// `char::to_digit`.
pub fn digit_of(c: char, radix: u32) -> (r: Option<u32>)
    requires
        radix <= 36,
    ensures
        r matches Some(v) ==> digit_value(c, radix as nat) == Some(v as nat),
        r is None ==> digit_value(c, radix as nat) is None,
{
    let v: u32 = if '0' <= c && c <= '9' {
        (c as u32) - 48
    } else if 'a' <= c && c <= 'z' {
        (c as u32) - 87
    } else if 'A' <= c && c <= 'Z' {
        (c as u32) - 55
    } else {
        99
    };
    if v < radix {
        Some(v)
    } else {
        None
    }
}

/// Whether every character of `d` is a digit in `radix`.
pub open spec fn all_digits(d: Seq<char>, radix: nat) -> bool {
    forall|i: int| 0 <= i < d.len() ==> digit_value(#[trigger] d[i], radix) is Some
}

/// The number the digits `d` spell in `radix`.
pub open spec fn digits_value(d: Seq<char>, radix: nat) -> nat
    decreases d.len(),
{
    if d.len() == 0 {
        0
    } else {
        digits_value(d.drop_last(), radix) * radix + digit_value(d.last(), radix).unwrap()
    }
}

/// `from_str_radix` for an unsigned type whose largest value is `max`: an
/// optional `+` (not on its own), then one or more digits, worth at most `max`.
pub open spec fn parse_unsigned(s: Seq<char>, radix: nat, max: nat) -> Option<nat> {
    let d = if s.len() > 1 && s[0] == '+' {
        s.drop_first()
    } else {
        s
    };
    if d.len() > 0 && all_digits(d, radix) && digits_value(d, radix) <= max {
        Some(digits_value(d, radix))
    } else {
        None
    }
}

/// `u32::from_str`.
pub open spec fn parse_u32(s: Seq<char>) -> Option<u32> {
    match parse_unsigned(s, 10, u32::MAX as nat) {
        Some(v) => Some(v as u32),
        None => None,
    }
}

proof fn lemma_digits_value_grows(d: Seq<char>, k: int, radix: nat)
    requires
        0 <= k <= d.len(),
        radix >= 1,
        all_digits(d, radix),
    ensures
        digits_value(d.take(k), radix) <= digits_value(d, radix),
    decreases d.len(),
{
    if k < d.len() {
        assert(d.drop_last().take(k) == d.take(k));
        assert(all_digits(d.drop_last(), radix)) by {
            assert forall|i: int| 0 <= i < d.drop_last().len() implies digit_value(
                #[trigger] d.drop_last()[i],
                radix,
            ) is Some by {
                assert(d.drop_last()[i] == d[i]);
            }
        }
        lemma_digits_value_grows(d.drop_last(), k, radix);
        let p = digits_value(d.drop_last(), radix);
        assert(p * radix >= p) by (nonlinear_arith)
            requires
                radix >= 1,
        ;
    } else {
        assert(d.take(k) == d);
    }
}

/// `from_str_radix` into an unsigned type of largest value `max` (at most
/// `u32::MAX`), for a radix from 2 to 36 (`from_str_radix` panics on any
/// other).
pub fn parse_unsigned_in(s: &Vec<char>, radix: u32, max: u32) -> (r: Option<u32>)
    requires
        2 <= radix <= 36,
    ensures
        r matches Some(v) ==> parse_unsigned(s@, radix as nat, max as nat) == Some(v as nat),
        r is None ==> parse_unsigned(s@, radix as nat, max as nat) is None,
{
    let start: usize = if s.len() > 1 && s[0] == '+' {
        1
    } else {
        0
    };
    let ghost d = if s@.len() > 1 && s@[0] == '+' {
        s@.drop_first()
    } else {
        s@
    };
    assert(d == s@.skip(start as int));
    if start >= s.len() {
        return None;
    }
    let mut acc: u32 = 0;
    let mut i: usize = start;
    while i < s.len()
        invariant
            start <= i <= s.len(),
            d == s@.skip(start as int),
            d == (if s@.len() > 1 && s@[0] == '+' {
                s@.drop_first()
            } else {
                s@
            }),
            2 <= radix <= 36,
            all_digits(d.take(i - start), radix as nat),
            acc as nat == digits_value(d.take(i - start), radix as nat),
            acc <= max,
        decreases s.len() - i,
    {
        let ghost t = d.take(i - start);
        let ghost t1 = d.take(i + 1 - start);
        assert(t1.drop_last() == t);
        assert(t1.last() == s@[i as int]);
        match digit_of(s[i], radix) {
            None => {
                assert(!all_digits(d, radix as nat)) by {
                    assert(d[i - start] == s@[i as int]);
                }
                return None;
            },
            Some(v) => {
                assert(all_digits(t1, radix as nat)) by {
                    assert forall|k: int| 0 <= k < t1.len() implies digit_value(
                        #[trigger] t1[k],
                        radix as nat,
                    ) is Some by {
                        if k < t.len() {
                            assert(t1[k] == t[k]);
                        }
                    }
                }
                assert((acc as u64) * (radix as u64) <= 0xffff_ffffu64 * 36) by (nonlinear_arith)
                    requires
                        acc <= 0xffff_ffffu32,
                        radix <= 36,
                ;
                let big: u64 = (acc as u64) * (radix as u64) + (v as u64);
                assert(big as nat == digits_value(t1, radix as nat));
                if big > max as u64 {
                    // Already too large: the whole is at least this big, if
                    // it is all digits at all.
                    proof {
                        if all_digits(d, radix as nat) {
                            lemma_digits_value_grows(d, i + 1 - start, radix as nat);
                        }
                    }
                    return None;
                }
                acc = big as u32;
            },
        }
        i += 1;
    }
    assert(d.take(s.len() - start) == d);
    Some(acc)
}

/// `u32::from_str`.
pub fn parse_u32_of(s: &Vec<char>) -> (r: Option<u32>)
    ensures
        r == parse_u32(s@),
{
    match parse_unsigned_in(s, 10, u32::MAX) {
        Some(v) => Some(v),
        None => None,
    }
}

} // verus!
