//! Character-level text primitives shared by the playlist readers: whitespace
//! trimming, substring search, line splitting, ASCII case folding, and the
//! decimal rendering and parsing of integers. Each is stated as a spec
//! function over `Seq<char>` and implemented over `Vec<char>` / `&[char]`.
use vstd::prelude::*;

verus! {

/// Appending one character to a `String` extends its character sequence by
/// that character (std documents `String::push` as "Appends the given char to
/// the end of this String").
pub assume_specification[ String::push ](s: &mut String, ch: char)
    ensures
        final(s)@ == old(s)@.push(ch),
;

// ---------------------------------------------------------------------------
// Whitespace and trimming
// ---------------------------------------------------------------------------

/// The Unicode `White_Space` property, which is what `char::is_whitespace`
/// (and therefore `str::trim`) tests.
pub open spec fn is_ws(c: char) -> bool {
    let u = c as u32;
    ||| 0x09 <= u <= 0x0D
    ||| u == 0x20
    ||| u == 0x85
    ||| u == 0xA0
    ||| u == 0x1680
    ||| 0x2000 <= u <= 0x200A
    ||| u == 0x2028
    ||| u == 0x2029
    ||| u == 0x202F
    ||| u == 0x205F
    ||| u == 0x3000
}

/// `s` with trailing whitespace removed.
pub open spec fn trim_end(s: Seq<char>) -> Seq<char>
    decreases s.len(),
{
    if s.len() > 0 && is_ws(s.last()) {
        trim_end(s.drop_last())
    } else {
        s
    }
}

/// `s` with leading whitespace removed.
pub open spec fn trim_start(s: Seq<char>) -> Seq<char>
    decreases s.len(),
{
    if s.len() > 0 && is_ws(s[0]) {
        trim_start(s.drop_first())
    } else {
        s
    }
}

/// `s` with whitespace removed on both ends.
pub open spec fn trim(s: Seq<char>) -> Seq<char> {
    trim_end(trim_start(s))
}

pub fn is_whitespace(c: char) -> (r: bool)
    ensures
        r == is_ws(c),
{
    let u: u32 = c as u32;
    (0x09 <= u && u <= 0x0D) || u == 0x20 || u == 0x85 || u == 0xA0 || u == 0x1680 || (0x2000 <= u
        && u <= 0x200A) || u == 0x2028 || u == 0x2029 || u == 0x202F || u == 0x205F || u == 0x3000
}

/// Copies `s[lo..hi]` into a fresh vector.
pub fn copy_range(s: &[char], lo: usize, hi: usize) -> (r: Vec<char>)
    requires
        lo <= hi <= s@.len(),
    ensures
        r@ == s@.subrange(lo as int, hi as int),
{
    let mut r: Vec<char> = Vec::new();
    let mut i: usize = lo;
    while i < hi
        invariant
            lo <= i <= hi <= s@.len(),
            r@ == s@.subrange(lo as int, i as int),
        decreases hi - i,
    {
        r.push(s[i]);
        i += 1;
        assert(r@ =~= s@.subrange(lo as int, i as int));
    }
    r
}

proof fn lemma_trim_end_take(s: Seq<char>, j: int)
    requires
        0 <= j <= s.len(),
        forall|k: int| j <= k < s.len() ==> is_ws(#[trigger] s[k]),
    ensures
        trim_end(s) == trim_end(s.take(j)),
    decreases s.len() - j,
{
    if j < s.len() {
        assert(s.drop_last() =~= s.take(s.len() - 1));
        lemma_trim_end_take(s.drop_last(), j);
        assert(s.drop_last().take(j) =~= s.take(j));
    } else {
        assert(s.take(j) =~= s);
    }
}

proof fn lemma_trim_start_skip(s: Seq<char>, j: int)
    requires
        0 <= j <= s.len(),
        forall|k: int| 0 <= k < j ==> is_ws(#[trigger] s[k]),
    ensures
        trim_start(s) == trim_start(s.skip(j)),
    decreases j,
{
    if j > 0 {
        lemma_trim_start_skip(s.drop_first(), j - 1);
        assert(s.drop_first().skip(j - 1) =~= s.skip(j));
    } else {
        assert(s.skip(0) =~= s);
    }
}

/// Index one past the last non-whitespace character of `s`.
fn trim_end_index(s: &[char]) -> (j: usize)
    ensures
        j <= s@.len(),
        trim_end(s@) == s@.take(j as int),
{
    let mut j: usize = s.len();
    while j > 0 && is_whitespace(s[j - 1])
        invariant
            j <= s@.len(),
            forall|k: int| j <= k < s@.len() ==> is_ws(#[trigger] s@[k]),
        decreases j,
    {
        j -= 1;
    }
    proof {
        lemma_trim_end_take(s@, j as int);
        let t = s@.take(j as int);
        if t.len() > 0 {
            assert(t.last() == s@[j - 1]);
        }
    }
    j
}

/// Index of the first non-whitespace character of `s` (or its length).
fn trim_start_index(s: &[char]) -> (i: usize)
    ensures
        i <= s@.len(),
        trim_start(s@) == s@.skip(i as int),
{
    let mut i: usize = 0;
    while i < s.len() && is_whitespace(s[i])
        invariant
            i <= s@.len(),
            forall|k: int| 0 <= k < i ==> is_ws(#[trigger] s@[k]),
        decreases s@.len() - i,
    {
        i += 1;
    }
    proof {
        lemma_trim_start_skip(s@, i as int);
        let t = s@.skip(i as int);
        if t.len() > 0 {
            assert(t[0] == s@[i as int]);
        }
    }
    i
}

pub fn trim_end_chars(s: &[char]) -> (r: Vec<char>)
    ensures
        r@ == trim_end(s@),
{
    let j: usize = trim_end_index(s);
    let r = copy_range(s, 0, j);
    assert(r@ =~= s@.take(j as int));
    r
}

pub fn trim_chars(s: &[char]) -> (r: Vec<char>)
    ensures
        r@ == trim(s@),
{
    let i: usize = trim_start_index(s);
    let t = copy_range(s, i, s.len());
    assert(t@ =~= s@.skip(i as int));
    trim_end_chars(t.as_slice())
}


// ---------------------------------------------------------------------------
// Substring search, prefixes and suffixes
// ---------------------------------------------------------------------------

/// `needle` occurs in `hay` starting at index `j`.
pub open spec fn occurs_at(hay: Seq<char>, needle: Seq<char>, j: int) -> bool {
    0 <= j && j + needle.len() <= hay.len() && hay.subrange(j, j + needle.len()) == needle
}

/// Index of the first occurrence of `needle` in `hay` (what `str::find` returns,
/// counted in characters).
pub open spec fn find_seq(hay: Seq<char>, needle: Seq<char>) -> Option<int>
    decreases hay.len(),
{
    if hay.len() < needle.len() {
        None
    } else if hay.take(needle.len() as int) == needle {
        Some(0)
    } else if hay.len() == 0 {
        None
    } else {
        match find_seq(hay.drop_first(), needle) {
            Some(i) => Some(i + 1),
            None => None,
        }
    }
}

/// `needle` occurs somewhere in `hay`.
pub open spec fn contains_seq(hay: Seq<char>, needle: Seq<char>) -> bool {
    find_seq(hay, needle) is Some
}

pub open spec fn starts_with(s: Seq<char>, p: Seq<char>) -> bool {
    p.len() <= s.len() && s.take(p.len() as int) == p
}

pub open spec fn ends_with(s: Seq<char>, p: Seq<char>) -> bool {
    p.len() <= s.len() && s.skip(s.len() - p.len()) == p
}

/// `find_seq` returns the first position at which the needle occurs.
pub proof fn lemma_find_seq(hay: Seq<char>, needle: Seq<char>)
    ensures
        match find_seq(hay, needle) {
            Some(i) => occurs_at(hay, needle, i) && forall|j: int|
                0 <= j < i ==> !occurs_at(hay, needle, j),
            None => forall|j: int| !occurs_at(hay, needle, j),
        },
    decreases hay.len(),
{
    if hay.len() < needle.len() {
    } else if hay.take(needle.len() as int) == needle {
        assert(hay.subrange(0, needle.len() as int) =~= hay.take(needle.len() as int));
    } else if hay.len() == 0 {
        assert(hay.take(0) =~= needle);
    } else {
        let t = hay.drop_first();
        lemma_find_seq(t, needle);
        assert forall|j: int| 0 <= j implies occurs_at(t, needle, j) == occurs_at(
            hay,
            needle,
            j + 1,
        ) by {
            if j + needle.len() <= t.len() {
                assert(t.subrange(j, j + needle.len()) =~= hay.subrange(
                    j + 1,
                    j + 1 + needle.len(),
                ));
            }
        }
        assert(hay.subrange(0, needle.len() as int) =~= hay.take(needle.len() as int));
        assert(!occurs_at(hay, needle, 0));
        match find_seq(t, needle) {
            Some(i) => {
                assert forall|j: int| 0 <= j < i + 1 implies !occurs_at(hay, needle, j) by {
                    if j > 0 {
                        assert(!occurs_at(t, needle, j - 1));
                    }
                }
            },
            None => {
                assert forall|j: int| !occurs_at(hay, needle, j) by {
                    if j > 0 {
                        assert(!occurs_at(t, needle, j - 1));
                    }
                }
            },
        }
    }
}

/// Whether `needle` occurs in `hay` at index `j`.
pub fn matches_at(hay: &[char], needle: &[char], j: usize) -> (r: bool)
    ensures
        r == occurs_at(hay@, needle@, j as int),
{
    if j > hay.len() || needle.len() > hay.len() - j {
        return false;
    }
    let mut k: usize = 0;
    while k < needle.len()
        invariant
            j + needle@.len() <= hay@.len(),
            hay@.len() == hay.len(),
            needle@.len() == needle.len(),
            k <= needle@.len(),
            forall|m: int| 0 <= m < k ==> hay@[j + m] == needle@[m],
        decreases needle@.len() - k,
    {
        let pos: usize = j + k;
        if hay[pos] != needle[k] {
            proof {
                assert(hay@.subrange(j as int, j + needle@.len())[k as int] != needle@[k as int]);
            }
            return false;
        }
        k += 1;
    }
    assert(hay@.subrange(j as int, j + needle@.len()) =~= needle@);
    true
}

proof fn lemma_occurs_shift(hay: Seq<char>, needle: Seq<char>, from: int, j: int)
    requires
        0 <= from <= hay.len(),
        0 <= j,
    ensures
        occurs_at(hay.skip(from), needle, j) == occurs_at(hay, needle, j + from),
{
    let h = hay.skip(from);
    if j + needle.len() <= h.len() {
        assert(h.subrange(j, j + needle.len()) =~= hay.subrange(j + from, j + from + needle.len()));
    }
}

proof fn lemma_first_match(hay: Seq<char>, needle: Seq<char>, from: int, j: int)
    requires
        0 <= from <= j,
        from <= hay.len(),
        occurs_at(hay, needle, j),
        forall|m: int| from <= m < j ==> !occurs_at(hay, needle, m),
    ensures
        find_seq(hay.skip(from), needle) == Some(j - from),
{
    let h = hay.skip(from);
    lemma_find_seq(h, needle);
    lemma_occurs_shift(hay, needle, from, j - from);
    match find_seq(h, needle) {
        Some(i) => {
            assert(occurs_at(h, needle, i));
            lemma_occurs_shift(hay, needle, from, i);
            if i < j - from {
                assert(!occurs_at(hay, needle, i + from));
            }
            if i > j - from {
                assert(!occurs_at(h, needle, j - from));
            }
        },
        None => {
            assert(!occurs_at(h, needle, j - from));
        },
    }
}

proof fn lemma_no_match(hay: Seq<char>, needle: Seq<char>, from: int)
    requires
        0 <= from <= hay.len(),
        forall|m: int| from <= m ==> !occurs_at(hay, needle, m),
    ensures
        find_seq(hay.skip(from), needle) is None,
{
    let h = hay.skip(from);
    lemma_find_seq(h, needle);
    match find_seq(h, needle) {
        Some(i) => {
            assert(occurs_at(h, needle, i));
            lemma_occurs_shift(hay, needle, from, i);
            assert(!occurs_at(hay, needle, i + from));
        },
        None => {},
    }
}

/// First occurrence of `needle` in `hay[from..]`, as an index into `hay`.
pub fn find_from(hay: &[char], from: usize, needle: &[char]) -> (r: Option<usize>)
    requires
        from <= hay@.len(),
    ensures
        match find_seq(hay@.skip(from as int), needle@) {
            Some(i) => r is Some && r.unwrap() == i + from && 0 <= i && i + from + needle@.len()
                <= hay@.len(),
            None => r is None,
        },
{
    if needle.len() > hay.len() - from {
        proof {
            lemma_no_match(hay@, needle@, from as int);
        }
        return None;
    }
    let last: usize = hay.len() - needle.len();
    let mut j: usize = from;
    while j < last
        invariant
            from <= j <= last,
            last == hay@.len() - needle@.len(),
            forall|m: int| from <= m < j ==> !occurs_at(hay@, needle@, m),
        decreases last - j,
    {
        if matches_at(hay, needle, j) {
            proof {
                lemma_first_match(hay@, needle@, from as int, j as int);
            }
            return Some(j);
        }
        j += 1;
    }
    if matches_at(hay, needle, last) {
        proof {
            lemma_first_match(hay@, needle@, from as int, last as int);
        }
        return Some(last);
    }
    proof {
        lemma_no_match(hay@, needle@, from as int);
    }
    None
}

/// First occurrence of `needle` in `hay`.
pub fn find_chars(hay: &[char], needle: &[char]) -> (r: Option<usize>)
    ensures
        match find_seq(hay@, needle@) {
            Some(i) => r is Some && r.unwrap() == i && 0 <= i && i + needle@.len() <= hay@.len(),
            None => r is None,
        },
{
    assert(hay@.skip(0) =~= hay@);
    find_from(hay, 0, needle)
}

pub fn contains_chars(hay: &[char], needle: &[char]) -> (r: bool)
    ensures
        r == contains_seq(hay@, needle@),
{
    match find_chars(hay, needle) {
        Some(_) => true,
        None => false,
    }
}

pub fn eq_chars(a: &[char], b: &[char]) -> (r: bool)
    ensures
        r == (a@ == b@),
{
    let n: usize = a.len();
    if n != b.len() {
        return false;
    }
    let r = matches_at(a, b, 0);
    assert(a@.subrange(0, n as int) =~= a@);
    r
}

pub fn starts_with_chars(s: &[char], p: &[char]) -> (r: bool)
    ensures
        r == starts_with(s@, p@),
{
    let r = matches_at(s, p, 0);
    assert(s@.subrange(0, p@.len() as int) =~= s@.take(p@.len() as int));
    r
}

pub fn ends_with_chars(s: &[char], p: &[char]) -> (r: bool)
    ensures
        r == ends_with(s@, p@),
{
    if p.len() > s.len() {
        return false;
    }
    let r = matches_at(s, p, s.len() - p.len());
    assert(s@.subrange(s@.len() - p@.len(), s@.len() as int) =~= s@.skip(s@.len() - p@.len()));
    r
}

/// The characters of a string slice, collected into a vector.
pub fn str_chars(s: &str) -> (r: Vec<char>)
    ensures
        r@ == s@,
{
    let mut v: Vec<char> = Vec::new();
    for c in it: s.chars()
        invariant
            v@ == it.seq().take(it.index() as int),
            it.seq() == s@,
    {
        v.push(c);
    }
    v
}

/// A `String` holding exactly the characters `s`.
pub fn chars_to_string(s: &[char]) -> (r: String)
    ensures
        r@ == s@,
{
    let mut r = String::new();
    let mut i: usize = 0;
    while i < s.len()
        invariant
            i <= s@.len(),
            r@ == s@.take(i as int),
        decreases s@.len() - i,
    {
        r.push(s[i]);
        i += 1;
        assert(r@ =~= s@.take(i as int));
    }
    assert(s@.take(s@.len() as int) =~= s@);
    r
}

/// Appends the characters `s` to `out`.
pub fn push_chars(out: &mut String, s: &[char])
    ensures
        final(out)@ == old(out)@ + s@,
{
    let mut i: usize = 0;
    while i < s.len()
        invariant
            i <= s@.len(),
            out@ == old(out)@ + s@.take(i as int),
        decreases s@.len() - i,
    {
        out.push(s[i]);
        i += 1;
        assert(out@ =~= old(out)@ + s@.take(i as int));
    }
    assert(s@.take(s@.len() as int) =~= s@);
}


// ---------------------------------------------------------------------------
// ASCII case folding and character replacement
// ---------------------------------------------------------------------------

/// `char::to_ascii_lowercase`.
pub open spec fn lower_char(c: char) -> char {
    if 'A' <= c <= 'Z' {
        ((c as u32) + 32) as char
    } else {
        c
    }
}

/// `str::to_ascii_lowercase`.
pub open spec fn lower(s: Seq<char>) -> Seq<char> {
    s.map_values(|c: char| lower_char(c))
}

/// `str::eq_ignore_ascii_case`.
pub open spec fn eq_ignore_case(a: Seq<char>, b: Seq<char>) -> bool {
    lower(a) == lower(b)
}

/// Every occurrence of `from` in `s` replaced by `to`.
pub open spec fn replace_char(s: Seq<char>, from: char, to: char) -> Seq<char> {
    s.map_values(|c: char| if c == from { to } else { c })
}

pub fn lower_char_exec(c: char) -> (r: char)
    ensures
        r == lower_char(c),
{
    if 'A' <= c && c <= 'Z' {
        ((c as u8) + 32) as char
    } else {
        c
    }
}

pub fn lower_chars(s: &[char]) -> (r: Vec<char>)
    ensures
        r@ == lower(s@),
{
    let mut r: Vec<char> = Vec::new();
    let mut i: usize = 0;
    while i < s.len()
        invariant
            i <= s@.len(),
            r@ == lower(s@.take(i as int)),
        decreases s@.len() - i,
    {
        r.push(lower_char_exec(s[i]));
        i += 1;
        assert(r@ =~= lower(s@.take(i as int)));
    }
    assert(s@.take(s@.len() as int) =~= s@);
    r
}

pub fn eq_ignore_case_chars(a: &[char], b: &[char]) -> (r: bool)
    ensures
        r == eq_ignore_case(a@, b@),
{
    if a.len() != b.len() {
        assert(lower(a@).len() != lower(b@).len());
        return false;
    }
    let mut i: usize = 0;
    while i < a.len()
        invariant
            i <= a@.len(),
            a@.len() == b@.len(),
            forall|k: int| 0 <= k < i ==> lower_char(a@[k]) == lower_char(b@[k]),
        decreases a@.len() - i,
    {
        if lower_char_exec(a[i]) != lower_char_exec(b[i]) {
            assert(lower(a@)[i as int] != lower(b@)[i as int]);
            return false;
        }
        i += 1;
    }
    assert(lower(a@) =~= lower(b@));
    true
}

pub fn replace_char_chars(s: &[char], from: char, to: char) -> (r: Vec<char>)
    ensures
        r@ == replace_char(s@, from, to),
{
    let mut r: Vec<char> = Vec::new();
    let mut i: usize = 0;
    while i < s.len()
        invariant
            i <= s@.len(),
            r@ == replace_char(s@.take(i as int), from, to),
        decreases s@.len() - i,
    {
        let c = s[i];
        r.push(if c == from { to } else { c });
        i += 1;
        assert(r@ =~= replace_char(s@.take(i as int), from, to));
    }
    assert(s@.take(s@.len() as int) =~= s@);
    r
}

// ---------------------------------------------------------------------------
// Byte order mark, line endings, line splitting
// ---------------------------------------------------------------------------

/// `s` without a leading U+FEFF byte order mark.
pub open spec fn strip_bom(s: Seq<char>) -> Seq<char> {
    if s.len() > 0 && s[0] == '\u{feff}' {
        s.drop_first()
    } else {
        s
    }
}

/// `s` with every CRLF pair and every lone CR turned into LF.
pub open spec fn normalize_newlines(s: Seq<char>) -> Seq<char>
    decreases s.len(),
{
    if s.len() == 0 {
        s
    } else if s[0] == '\r' && s.len() > 1 && s[1] == '\n' {
        seq!['\n'] + normalize_newlines(s.skip(2))
    } else if s[0] == '\r' {
        seq!['\n'] + normalize_newlines(s.skip(1))
    } else {
        seq![s[0]] + normalize_newlines(s.skip(1))
    }
}

/// The pieces of `s` between occurrences of `sep` (`str::split` with a char
/// separator): one more piece than there are separators.
pub open spec fn split_on(s: Seq<char>, sep: char) -> Seq<Seq<char>>
    decreases s.len(),
{
    if s.len() == 0 {
        seq![Seq::empty()]
    } else {
        let prev = split_on(s.drop_last(), sep);
        if s.last() == sep {
            prev.push(Seq::empty())
        } else {
            prev.update(prev.len() - 1, prev.last().push(s.last()))
        }
    }
}

/// The character sequences held by a vector of character vectors.
pub open spec fn views(v: Seq<Vec<char>>) -> Seq<Seq<char>> {
    v.map_values(|x: Vec<char>| x@)
}

pub proof fn lemma_split_on_nonempty(s: Seq<char>, sep: char)
    ensures
        split_on(s, sep).len() >= 1,
    decreases s.len(),
{
    if s.len() > 0 {
        lemma_split_on_nonempty(s.drop_last(), sep);
    }
}

pub fn strip_bom_chars(s: &[char]) -> (r: Vec<char>)
    ensures
        r@ == strip_bom(s@),
{
    if s.len() > 0 && s[0] == '\u{feff}' {
        let r = copy_range(s, 1, s.len());
        assert(r@ =~= s@.drop_first());
        r
    } else {
        let r = copy_range(s, 0, s.len());
        assert(r@ =~= s@);
        r
    }
}

pub fn normalize_newlines_chars(s: &[char]) -> (r: Vec<char>)
    ensures
        r@ == normalize_newlines(s@),
{
    let mut r: Vec<char> = Vec::new();
    let mut i: usize = 0;
    assert(s@.skip(0) =~= s@);
    while i < s.len()
        invariant
            i <= s@.len(),
            normalize_newlines(s@) == r@ + normalize_newlines(s@.skip(i as int)),
        decreases s@.len() - i,
    {
        let ghost rest = s@.skip(i as int);
        if s[i] == '\r' && i + 1 < s.len() && s[i + 1] == '\n' {
            r.push('\n');
            assert(rest.skip(2) =~= s@.skip(i + 2));
            i += 2;
        } else if s[i] == '\r' {
            r.push('\n');
            assert(rest.skip(1) =~= s@.skip(i + 1));
            i += 1;
        } else {
            r.push(s[i]);
            assert(rest.skip(1) =~= s@.skip(i + 1));
            i += 1;
        }
    }
    assert(normalize_newlines(s@.skip(i as int)) =~= Seq::<char>::empty());
    assert(r@ + Seq::<char>::empty() =~= r@);
    r
}

pub fn split_on_chars(s: &[char], sep: char) -> (r: Vec<Vec<char>>)
    ensures
        views(r@) == split_on(s@, sep),
{
    let mut done: Vec<Vec<char>> = Vec::new();
    let mut cur: Vec<char> = Vec::new();
    let mut i: usize = 0;
    assert(views(done@).push(cur@) =~= split_on(s@.take(0), sep));
    while i < s.len()
        invariant
            i <= s@.len(),
            views(done@).push(cur@) == split_on(s@.take(i as int), sep),
        decreases s@.len() - i,
    {
        let ghost prev = split_on(s@.take(i as int), sep);
        let c = s[i];
        assert(s@.take(i + 1).drop_last() =~= s@.take(i as int));
        if c == sep {
            let finished = cur;
            done.push(finished);
            cur = Vec::new();
            assert(views(done@).push(cur@) =~= prev.push(Seq::empty()));
        } else {
            cur.push(c);
            assert(views(done@).push(cur@) =~= prev.update(prev.len() - 1, prev.last().push(c)));
        }
        i += 1;
    }
    done.push(cur);
    assert(s@.take(s@.len() as int) =~= s@);
    assert(views(done@) =~= split_on(s@, sep));
    done
}


// ---------------------------------------------------------------------------
// Integers: decimal rendering and parsing
// ---------------------------------------------------------------------------

/// The ASCII digit for `d` (0 through 9).
pub open spec fn digit_char(d: nat) -> char {
    ((d + 48) as u32) as char
}

/// Decimal rendering of a natural number, as `Display` writes it.
pub open spec fn dec_nat(n: nat) -> Seq<char>
    decreases n,
{
    if n < 10 {
        seq![digit_char(n)]
    } else {
        dec_nat(n / 10).push(digit_char(n % 10))
    }
}

/// Decimal rendering of an integer, with a leading `-` when negative.
pub open spec fn dec_int(i: int) -> Seq<char> {
    if i < 0 {
        seq!['-'] + dec_nat((-i) as nat)
    } else {
        dec_nat(i as nat)
    }
}

fn digit_exec(d: u64) -> (c: char)
    requires
        d < 10,
    ensures
        c == digit_char(d as nat),
{
    let b: u8 = d as u8;
    (48u8 + b) as char
}

/// Appends the decimal rendering of `n` to `out`.
pub fn push_dec_u64(out: &mut String, n: u64)
    ensures
        final(out)@ == old(out)@ + dec_nat(n as nat),
    decreases n,
{
    if n >= 10 {
        push_dec_u64(out, n / 10);
    }
    out.push(digit_exec(n % 10));
    assert(final(out)@ =~= old(out)@ + dec_nat(n as nat));
}

/// Appends the decimal rendering of `v` to `out`.
pub fn push_dec_i64(out: &mut String, v: i64)
    ensures
        final(out)@ == old(out)@ + dec_int(v as int),
{
    if v < 0 {
        out.push('-');
        let mag: u64 = if v == i64::MIN {
            0x8000_0000_0000_0000u64
        } else {
            (-v) as u64
        };
        push_dec_u64(out, mag);
        assert(final(out)@ =~= old(out)@ + dec_int(v as int));
    } else {
        push_dec_u64(out, v as u64);
    }
}

/// Value of `c` as a digit in base 16 and below: `0`-`9`, `a`-`f`, `A`-`F`.
pub open spec fn digit_value(c: char) -> Option<nat> {
    if '0' <= c <= '9' {
        Some((c as nat - 48) as nat)
    } else if 'a' <= c <= 'f' {
        Some((c as nat - 87) as nat)
    } else if 'A' <= c <= 'F' {
        Some((c as nat - 55) as nat)
    } else {
        None
    }
}

pub open spec fn is_radix_digit(c: char, radix: nat) -> bool {
    digit_value(c) matches Some(d) && d < radix
}

pub open spec fn all_radix_digits(s: Seq<char>, radix: nat) -> bool {
    forall|i: int| 0 <= i < s.len() ==> is_radix_digit(#[trigger] s[i], radix)
}

/// Value of the digit string `s` in the given radix.
pub open spec fn digits_value(s: Seq<char>, radix: nat) -> nat
    decreases s.len(),
{
    if s.len() == 0 {
        0
    } else {
        digits_value(s.drop_last(), radix) * radix + digit_value(s.last()).unwrap_or(0)
    }
}

/// What `from_str_radix` (and so `FromStr` for integers) accepts, before the
/// range check: an optional `+` (or, for signed types, `-`) followed by one or
/// more digits of the radix and nothing else.
pub open spec fn parse_radix(s: Seq<char>, radix: nat, signed: bool) -> Option<int> {
    let neg = signed && s.len() > 0 && s[0] == '-';
    let body = if s.len() > 0 && (s[0] == '+' || neg) {
        s.drop_first()
    } else {
        s
    };
    if body.len() > 0 && all_radix_digits(body, radix) {
        Some(
            if neg {
                -digits_value(body, radix)
            } else {
                digits_value(body, radix) as int
            },
        )
    } else {
        None
    }
}

/// `str::parse::<i64>`.
pub open spec fn parse_i64(s: Seq<char>) -> Option<i64> {
    match parse_radix(s, 10, true) {
        Some(v) => if i64::MIN <= v <= i64::MAX {
            Some(v as i64)
        } else {
            None
        },
        None => None,
    }
}

/// `str::parse::<u32>`.
pub open spec fn parse_u32(s: Seq<char>) -> Option<u32> {
    match parse_radix(s, 10, false) {
        Some(v) => if v <= u32::MAX {
            Some(v as u32)
        } else {
            None
        },
        None => None,
    }
}

/// `u32::from_str_radix(s, 16)`.
pub open spec fn parse_hex_u32(s: Seq<char>) -> Option<u32> {
    match parse_radix(s, 16, false) {
        Some(v) => if v <= u32::MAX {
            Some(v as u32)
        } else {
            None
        },
        None => None,
    }
}

/// `u8::from_str_radix(s, 16)`.
pub open spec fn parse_hex_u8(s: Seq<char>) -> Option<u8> {
    match parse_radix(s, 16, false) {
        Some(v) => if v <= u8::MAX {
            Some(v as u8)
        } else {
            None
        },
        None => None,
    }
}

fn digit_value_exec(c: char) -> (r: Option<u64>)
    ensures
        match digit_value(c) {
            Some(d) => r == Some(d as u64),
            None => r is None,
        },
{
    if '0' <= c && c <= '9' {
        Some((c as u64) - 48)
    } else if 'a' <= c && c <= 'f' {
        Some((c as u64) - 87)
    } else if 'A' <= c && c <= 'F' {
        Some((c as u64) - 55)
    } else {
        None
    }
}

/// Magnitude bound beyond which a parsed value is only reported as too large.
pub open spec fn big() -> int {
    0x1_0000_0000_0000_0000
}

proof fn lemma_digits_value_step(s: Seq<char>, radix: nat, i: int)
    requires
        0 <= i < s.len(),
    ensures
        digits_value(s.take(i + 1), radix) == digits_value(s.take(i), radix) * radix
            + digit_value(s[i]).unwrap_or(0),
{
    assert(s.take(i + 1).drop_last() =~= s.take(i));
}

/// Parses `s` as `parse_radix` does; values whose magnitude exceeds `big()`
/// are reported as `None`, which every caller treats as out of range.
fn parse_radix_chars(s: &[char], radix: u64, signed: bool) -> (r: Option<i128>)
    requires
        2 <= radix <= 16,
    ensures
        match parse_radix(s@, radix as nat, signed) {
            Some(v) => if -big() <= v <= big() {
                r == Some(v as i128)
            } else {
                r is None
            },
            None => r is None,
        },
{
    let neg = signed && s.len() > 0 && s[0] == '-';
    let start: usize = if s.len() > 0 && (s[0] == '+' || neg) {
        1
    } else {
        0
    };
    let ghost body = if s@.len() > 0 && (s@[0] == '+' || neg) {
        s@.drop_first()
    } else {
        s@
    };
    assert(body =~= s@.skip(start as int));
    if start >= s.len() {
        return None;
    }
    let mut mag: u128 = 0;
    let mut over = false;
    let mut i: usize = start;
    assert(body.take(0) =~= Seq::<char>::empty());
    while i < s.len()
        invariant
            start <= i <= s@.len(),
            2 <= radix <= 16,
            body == s@.skip(start as int),
            neg == (signed && s@.len() > 0 && s@[0] == '-'),
            body == (if s@.len() > 0 && (s@[0] == '+' || neg) {
                s@.drop_first()
            } else {
                s@
            }),
            forall|k: int| 0 <= k < i - start ==> is_radix_digit(body[k], radix as nat),
            !over ==> mag == digits_value(body.take(i - start), radix as nat) && mag <= big(),
            over ==> digits_value(body.take(i - start), radix as nat) > big(),
        decreases s@.len() - i,
    {
        let d = match digit_value_exec(s[i]) {
            Some(d) => d,
            None => {
                assert(!is_radix_digit(body[i - start], radix as nat));
                return None;
            },
        };
        if d >= radix {
            assert(!is_radix_digit(body[i - start], radix as nat));
            return None;
        }
        proof {
            lemma_digits_value_step(body, radix as nat, i - start);
        }
        let ghost prev = digits_value(body.take(i - start), radix as nat);
        if !over {
            assert(mag * (radix as u128) <= big() * 16) by (nonlinear_arith)
                requires
                    mag <= big(),
                    radix <= 16,
            ;
            mag = mag * (radix as u128) + (d as u128);
            if mag > 0x1_0000_0000_0000_0000u128 {
                over = true;
            }
        } else {
            assert(prev * radix + d >= prev) by (nonlinear_arith)
                requires
                    radix >= 2,
                    prev >= 0,
                    d >= 0,
            ;
        }
        i += 1;
    }
    assert(body.take(body.len() as int) =~= body);
    if over {
        return None;
    }
    if neg {
        Some(-(mag as i128))
    } else {
        Some(mag as i128)
    }
}

pub fn parse_i64_chars(s: &[char]) -> (r: Option<i64>)
    ensures
        r == parse_i64(s@),
{
    match parse_radix_chars(s, 10, true) {
        Some(v) => if -0x8000_0000_0000_0000i128 <= v && v <= 0x7fff_ffff_ffff_ffffi128 {
            Some(v as i64)
        } else {
            None
        },
        None => None,
    }
}

pub fn parse_u32_chars(s: &[char]) -> (r: Option<u32>)
    ensures
        r == parse_u32(s@),
{
    match parse_radix_chars(s, 10, false) {
        Some(v) => if 0 <= v && v <= 0xffff_ffffi128 {
            Some(v as u32)
        } else {
            None
        },
        None => None,
    }
}

pub fn parse_hex_u32_chars(s: &[char]) -> (r: Option<u32>)
    ensures
        r == parse_hex_u32(s@),
{
    match parse_radix_chars(s, 16, false) {
        Some(v) => if 0 <= v && v <= 0xffff_ffffi128 {
            Some(v as u32)
        } else {
            None
        },
        None => None,
    }
}

pub fn parse_hex_u8_chars(s: &[char]) -> (r: Option<u8>)
    ensures
        r == parse_hex_u8(s@),
{
    match parse_radix_chars(s, 16, false) {
        Some(v) => if 0 <= v && v <= 0xffi128 {
            Some(v as u8)
        } else {
            None
        },
        None => None,
    }
}


// ---------------------------------------------------------------------------
// Facts about text that is already normalized
// ---------------------------------------------------------------------------

/// No character of `s` is `c`.
pub open spec fn free_of(s: Seq<char>, c: char) -> bool {
    forall|k: int| 0 <= k < s.len() ==> s[k] != c
}

/// `ls` joined into one text, each line followed by a newline.
pub open spec fn joined(ls: Seq<Seq<char>>) -> Seq<char>
    decreases ls.len(),
{
    if ls.len() == 0 {
        Seq::empty()
    } else {
        joined(ls.drop_last()) + ls.last() + seq!['\n']
    }
}

pub proof fn lemma_joined_prepend(l: Seq<char>, ls: Seq<Seq<char>>)
    ensures
        joined(seq![l] + ls) == l + seq!['\n'] + joined(ls),
    decreases ls.len(),
{
    if ls.len() == 0 {
        assert(seq![l] + ls =~= seq![l]);
        assert(seq![l].drop_last() =~= Seq::<Seq<char>>::empty());
        assert(l + seq!['\n'] + joined(ls) =~= joined(Seq::<Seq<char>>::empty()) + l + seq!['\n']);
    } else {
        lemma_joined_prepend(l, ls.drop_last());
        assert((seq![l] + ls).drop_last() =~= seq![l] + ls.drop_last());
        assert(l + seq!['\n'] + joined(ls) =~= l + seq!['\n'] + joined(ls.drop_last()) + ls.last()
            + seq!['\n']);
    }
}

pub proof fn lemma_joined_append(ls: Seq<Seq<char>>, rs: Seq<Seq<char>>)
    ensures
        joined(ls + rs) == joined(ls) + joined(rs),
    decreases rs.len(),
{
    if rs.len() == 0 {
        assert(ls + rs =~= ls);
        assert(joined(ls) + joined(rs) =~= joined(ls));
    } else {
        lemma_joined_append(ls, rs.drop_last());
        assert((ls + rs).drop_last() =~= ls + rs.drop_last());
        assert(joined(ls) + joined(rs) =~= joined(ls) + joined(rs.drop_last()) + rs.last() + seq![
            '\n',
        ]);
    }
}

/// Text without carriage returns is left alone by `normalize_newlines`, and
/// its output never holds one.
pub proof fn lemma_normalize_newlines(s: Seq<char>)
    ensures
        free_of(normalize_newlines(s), '\r'),
        free_of(s, '\r') ==> normalize_newlines(s) == s,
    decreases s.len(),
{
    if s.len() > 0 {
        if s[0] == '\r' && s.len() > 1 && s[1] == '\n' {
            lemma_normalize_newlines(s.skip(2));
        } else {
            lemma_normalize_newlines(s.skip(1));
            if free_of(s, '\r') {
                assert(seq![s[0]] + s.skip(1) =~= s);
            }
        }
        let r = normalize_newlines(s);
        assert forall|k: int| 0 <= k < r.len() implies r[k] != '\r' by {
            if k > 0 {
                if s[0] == '\r' && s.len() > 1 && s[1] == '\n' {
                    assert(r[k] == normalize_newlines(s.skip(2))[k - 1]);
                } else {
                    assert(r[k] == normalize_newlines(s.skip(1))[k - 1]);
                }
            }
        }
    }
}

/// Appending text without the separator to `a` extends the last piece.
pub proof fn lemma_split_on_append(a: Seq<char>, l: Seq<char>, sep: char)
    requires
        free_of(l, sep),
    ensures
        split_on(a + l, sep) == split_on(a, sep).update(
            split_on(a, sep).len() - 1,
            split_on(a, sep).last() + l,
        ),
    decreases l.len(),
{
    lemma_split_on_nonempty(a, sep);
    let p = split_on(a, sep);
    if l.len() == 0 {
        assert(a + l =~= a);
        assert(p.update(p.len() - 1, p.last() + l) =~= p);
    } else {
        let l0 = l.drop_last();
        lemma_split_on_append(a, l0, sep);
        assert((a + l).drop_last() =~= a + l0);
        assert((a + l).last() == l.last());
        lemma_split_on_nonempty(a + l0, sep);
        let q = split_on(a + l0, sep);
        assert(q.last() == p.last() + l0);
        assert(q.last().push(l.last()) =~= p.last() + l);
        assert(q.update(q.len() - 1, q.last().push(l.last())) =~= p.update(
            p.len() - 1,
            p.last() + l,
        ));
    }
}

/// Splitting joined lines on the newline gives the lines back, and one empty
/// piece after the last newline.
pub proof fn lemma_split_joined(ls: Seq<Seq<char>>)
    requires
        forall|i: int| 0 <= i < ls.len() ==> free_of(#[trigger] ls[i], '\n'),
    ensures
        split_on(joined(ls), '\n') == ls.push(Seq::empty()),
    decreases ls.len(),
{
    if ls.len() == 0 {
        assert(split_on(joined(ls), '\n') =~= seq![Seq::<char>::empty()]);
        assert(ls.push(Seq::empty()) =~= seq![Seq::<char>::empty()]);
    } else {
        let prev = ls.drop_last();
        assert forall|i: int| 0 <= i < prev.len() implies free_of(#[trigger] prev[i], '\n') by {
            assert(prev[i] == ls[i]);
        }
        lemma_split_joined(prev);
        let a = joined(prev);
        let l = ls.last();
        assert(free_of(l, '\n')) by {
            assert(l == ls[ls.len() - 1]);
        }
        lemma_split_on_append(a, l, '\n');
        let t = joined(ls);
        assert(t == (a + l).push('\n'));
        assert(t.drop_last() =~= a + l);
        let p = prev.push(Seq::<char>::empty());
        assert(p.update(p.len() - 1, p.last() + l) =~= ls) by {
            assert(Seq::<char>::empty() + l =~= l);
        }
    }
}

/// What `trim_end` keeps is a prefix of `s` that does not end in whitespace.
pub proof fn lemma_trim_end_prefix(s: Seq<char>)
    ensures
        trim_end(s).len() <= s.len(),
        trim_end(s) == s.take(trim_end(s).len() as int),
        trim_end(s).len() > 0 ==> !is_ws(trim_end(s).last()),
        trim_end(trim_end(s)) == trim_end(s),
    decreases s.len(),
{
    if s.len() > 0 && is_ws(s.last()) {
        lemma_trim_end_prefix(s.drop_last());
        let t = trim_end(s.drop_last());
        assert(s.drop_last().take(t.len() as int) =~= s.take(t.len() as int));
    } else {
        assert(s.take(s.len() as int) =~= s);
    }
}

/// What `trim_start` keeps is a suffix of `s` that does not begin with
/// whitespace.
pub proof fn lemma_trim_start_suffix(s: Seq<char>)
    ensures
        trim_start(s).len() <= s.len(),
        trim_start(s) == s.skip(s.len() - trim_start(s).len()),
        trim_start(s).len() > 0 ==> !is_ws(trim_start(s)[0]),
    decreases s.len(),
{
    if s.len() > 0 && is_ws(s[0]) {
        lemma_trim_start_suffix(s.drop_first());
        let t = trim_start(s.drop_first());
        assert(s.drop_first().skip(s.drop_first().len() - t.len()) =~= s.skip(s.len() - t.len()));
    } else {
        assert(s.skip(0) =~= s);
    }
}

/// Trimming twice changes nothing, and trimming keeps only characters of `s`.
pub proof fn lemma_trim_twice(s: Seq<char>, c: char)
    ensures
        trim(trim(s)) == trim(s),
        free_of(s, c) ==> free_of(trim(s), c),
{
    let u = trim_start(s);
    lemma_trim_start_suffix(s);
    lemma_trim_end_prefix(u);
    let t = trim(s);
    assert(t == u.take(t.len() as int));
    if t.len() > 0 {
        assert(t[0] == u[0]);
        assert(trim_start(t) == t);
    } else {
        assert(trim_start(t) =~= t);
    }
    if free_of(s, c) {
        assert forall|k: int| 0 <= k < t.len() implies t[k] != c by {
            assert(t[k] == u[k]);
            assert(u[k] == s[s.len() - u.len() + k]);
        }
    }
}

/// A text that neither begins nor ends with whitespace is its own trim.
pub proof fn lemma_trim_unchanged(s: Seq<char>)
    requires
        s.len() > 0 ==> !is_ws(s[0]) && !is_ws(s.last()),
    ensures
        trim(s) == s,
{
}

pub proof fn lemma_digit_char(d: nat)
    requires
        d < 10,
    ensures
        digit_value(digit_char(d)) == Some(d),
        '0' <= digit_char(d) <= '9',
{
    assert(digit_char(d) as nat == d + 48);
}

/// The decimal rendering of `n` is one or more digits whose value is `n`.
pub proof fn lemma_dec_nat(n: nat)
    ensures
        dec_nat(n).len() > 0,
        forall|k: int| 0 <= k < dec_nat(n).len() ==> '0' <= #[trigger] dec_nat(n)[k] <= '9',
        all_radix_digits(dec_nat(n), 10),
        digits_value(dec_nat(n), 10) == n,
    decreases n,
{
    if n < 10 {
        lemma_digit_char(n);
        assert(dec_nat(n).drop_last() =~= Seq::<char>::empty());
        assert(digits_value(dec_nat(n).drop_last(), 10) == 0);
        assert(digits_value(dec_nat(n), 10) == 0 * 10 + n);
    } else {
        lemma_dec_nat(n / 10);
        lemma_digit_char(n % 10);
        let s = dec_nat(n);
        assert(s.drop_last() =~= dec_nat(n / 10));
        assert(s.last() == digit_char(n % 10));
        assert forall|k: int| 0 <= k < s.len() implies '0' <= #[trigger] s[k] <= '9' by {
            if k < s.len() - 1 {
                assert(s[k] == dec_nat(n / 10)[k]);
            }
        }
        assert forall|k: int| 0 <= k < s.len() implies is_radix_digit(#[trigger] s[k], 10) by {
            if k < s.len() - 1 {
                assert(s[k] == dec_nat(n / 10)[k]);
            }
        }
        assert(digits_value(s, 10) == digits_value(dec_nat(n / 10), 10) * 10 + n % 10);
        assert((n / 10) * 10 + n % 10 == n);
    }
}

/// Parsing the decimal rendering of an `i64` gives it back; the rendering
/// holds only digits and a leading minus sign.
pub proof fn lemma_dec_int_parse(d: i64)
    ensures
        parse_i64(dec_int(d as int)) == Some(d),
        dec_int(d as int).len() > 0,
        forall|k: int|
            0 <= k < dec_int(d as int).len() ==> ('0' <= #[trigger] dec_int(d as int)[k] <= '9'
                || dec_int(d as int)[k] == '-'),
{
    let s = dec_int(d as int);
    if d < 0 {
        let m = (-d) as nat;
        lemma_dec_nat(m);
        assert(s.drop_first() =~= dec_nat(m));
        assert forall|k: int| 0 <= k < s.len() implies ('0' <= #[trigger] s[k] <= '9' || s[k]
            == '-') by {
            if k > 0 {
                assert(s[k] == dec_nat(m)[k - 1]);
            }
        }
    } else {
        lemma_dec_nat(d as nat);
        assert(s[0] != '+' && s[0] != '-');
    }
}

/// No piece of a split holds the separator, nor any character that the
/// split text does not hold.
pub proof fn lemma_split_on_pieces(s: Seq<char>, sep: char, c: char)
    ensures
        forall|i: int|
            0 <= i < split_on(s, sep).len() ==> free_of(#[trigger] split_on(s, sep)[i], sep),
        free_of(s, c) ==> forall|i: int|
            0 <= i < split_on(s, sep).len() ==> free_of(#[trigger] split_on(s, sep)[i], c),
    decreases s.len(),
{
    if s.len() > 0 {
        let a = s.drop_last();
        lemma_split_on_pieces(a, sep, c);
        lemma_split_on_nonempty(a, sep);
        let p = split_on(a, sep);
        let q = split_on(s, sep);
        if s.last() != sep {
            let last = p.last().push(s.last());
            assert(q == p.update(p.len() - 1, last));
            assert(free_of(p.last(), sep));
            assert(free_of(last, sep)) by {
                assert forall|k: int| 0 <= k < last.len() implies last[k] != sep by {
                    if k < last.len() - 1 {
                        assert(last[k] == p.last()[k]);
                    }
                }
            }
            if free_of(s, c) {
                assert(free_of(a, c));
                assert(s.last() == s[s.len() - 1]);
                assert(free_of(p.last(), c));
                assert forall|k: int| 0 <= k < last.len() implies last[k] != c by {
                    if k < last.len() - 1 {
                        assert(last[k] == p.last()[k]);
                    }
                }
            }
        }
        if free_of(s, c) {
            assert(free_of(a, c));
        }
    }
}

/// Lines that hold no `c` (other than the newline) join into a text without
/// `c`.
pub proof fn lemma_joined_free_of(ls: Seq<Seq<char>>, c: char)
    requires
        c != '\n',
        forall|i: int| 0 <= i < ls.len() ==> free_of(#[trigger] ls[i], c),
    ensures
        free_of(joined(ls), c),
    decreases ls.len(),
{
    if ls.len() > 0 {
        let prev = ls.drop_last();
        assert forall|i: int| 0 <= i < prev.len() implies free_of(#[trigger] prev[i], c) by {
            assert(prev[i] == ls[i]);
        }
        lemma_joined_free_of(prev, c);
        let l = ls.last();
        assert(free_of(l, c)) by {
            assert(l == ls[ls.len() - 1]);
        }
        let t = joined(ls);
        let a = joined(prev);
        assert forall|k: int| 0 <= k < t.len() implies t[k] != c by {
            if k < a.len() {
                assert(t[k] == a[k]);
            } else if k < a.len() + l.len() {
                assert(t[k] == l[k - a.len()]);
            }
        }
    }
}

/// Normalizing line endings piece by piece gives the same text, unless a CR
/// at the end of the first piece pairs up with an LF at the start of the
/// second.
pub proof fn lemma_normalize_newlines_append(x: Seq<char>, z: Seq<char>)
    requires
        !(x.len() > 0 && x.last() == '\r' && z.len() > 0 && z[0] == '\n'),
    ensures
        normalize_newlines(x + z) == normalize_newlines(x) + normalize_newlines(z),
    decreases x.len(),
{
    let xz = x + z;
    if x.len() == 0 {
        assert(xz =~= z);
        assert(normalize_newlines(x) =~= Seq::<char>::empty());
        assert(Seq::<char>::empty() + normalize_newlines(z) =~= normalize_newlines(z));
    } else if x[0] == '\r' && x.len() > 1 && x[1] == '\n' {
        assert(xz[0] == '\r' && xz[1] == '\n');
        assert(xz.skip(2) =~= x.skip(2) + z);
        if x.len() > 2 {
            assert(x.skip(2).last() == x.last());
        }
        lemma_normalize_newlines_append(x.skip(2), z);
        assert(seq!['\n'] + (normalize_newlines(x.skip(2)) + normalize_newlines(z)) =~= (seq![
            '\n',
        ] + normalize_newlines(x.skip(2))) + normalize_newlines(z));
    } else {
        assert(xz[0] == x[0]);
        assert(xz.skip(1) =~= x.skip(1) + z);
        if x.len() > 1 {
            assert(x.skip(1).last() == x.last());
            assert(xz[1] == x[1]);
        } else {
            assert(x.skip(1) =~= Seq::<char>::empty());
            assert(normalize_newlines(x.skip(1)) =~= Seq::<char>::empty());
        }
        lemma_normalize_newlines_append(x.skip(1), z);
        assert(seq![x[0]] + (normalize_newlines(x.skip(1)) + normalize_newlines(z)) =~= (seq![
            x[0],
        ] + normalize_newlines(x.skip(1))) + normalize_newlines(z));
        assert(seq!['\n'] + (normalize_newlines(x.skip(1)) + normalize_newlines(z)) =~= (seq![
            '\n',
        ] + normalize_newlines(x.skip(1))) + normalize_newlines(z));
    }
}

/// Splitting at a separator splits the text on both sides of it separately.
pub proof fn lemma_split_on_concat(x: Seq<char>, q: Seq<char>, sep: char)
    ensures
        split_on(x.push(sep) + q, sep) == split_on(x, sep) + split_on(q, sep),
    decreases q.len(),
{
    let e = Seq::<char>::empty();
    lemma_split_on_nonempty(x, sep);
    if q.len() == 0 {
        assert(x.push(sep) + q =~= x.push(sep));
        assert(x.push(sep).drop_last() =~= x);
        assert(split_on(q, sep) =~= seq![e]);
        assert(split_on(x, sep).push(e) =~= split_on(x, sep) + seq![e]);
    } else {
        let q0 = q.drop_last();
        lemma_split_on_concat(x, q0, sep);
        lemma_split_on_nonempty(q0, sep);
        let t = x.push(sep) + q;
        assert(t.drop_last() =~= x.push(sep) + q0);
        assert(t.last() == q.last());
        let a = split_on(x, sep);
        let b = split_on(q0, sep);
        if q.last() == sep {
            assert((a + b).push(e) =~= a + b.push(e));
        } else {
            assert((a + b).last() == b.last());
            assert((a + b).update((a + b).len() - 1, b.last().push(q.last())) =~= a + b.update(
                b.len() - 1,
                b.last().push(q.last()),
            ));
        }
    }
}

/// Dropping the byte order mark and normalizing line endings again after
/// normalizing line endings changes nothing.
pub proof fn lemma_prepare_after_normalize(input: Seq<char>)
    ensures
        normalize_newlines(strip_bom(normalize_newlines(input))) == normalize_newlines(
            strip_bom(input),
        ),
{
    lemma_normalize_newlines(input);
    lemma_normalize_newlines(strip_bom(input));
    let n = normalize_newlines(input);
    if input.len() > 0 && input[0] == '\u{feff}' {
        assert(n == seq![input[0]] + normalize_newlines(input.skip(1)));
        assert(n.drop_first() =~= normalize_newlines(input.skip(1)));
        assert(input.skip(1) =~= input.drop_first());
    } else if input.len() > 0 {
        assert(n[0] == '\n' || n[0] == input[0]);
        assert(strip_bom(n) == n);
    } else {
        assert(n =~= input);
    }
    lemma_normalize_newlines(strip_bom(n));
    assert(free_of(strip_bom(n), '\r')) by {
        assert forall|k: int| 0 <= k < strip_bom(n).len() implies strip_bom(n)[k] != '\r' by {
            if n.len() > 0 && n[0] == '\u{feff}' {
                assert(strip_bom(n)[k] == n[k + 1]);
            }
        }
    }
}

/// What the line splitting of a text becomes when one more line break is
/// put after `a`: its pieces with one more empty piece.
pub proof fn lemma_extra_line_break(a: Seq<char>, b: Seq<char>) -> (pq: (Seq<char>, Seq<char>))
    ensures
        normalize_newlines(strip_bom(a + seq!['\n'] + b)) == pq.0.push('\n') + pq.1,
        normalize_newlines(strip_bom(a + seq!['\n', '\n'] + b)) == pq.0.push('\n') + (Seq::<
            char,
        >::empty().push('\n') + pq.1),
{
    let nl = seq!['\n'];
    let a1 = strip_bom(a);
    assert(strip_bom(a + nl + b) == a1 + nl + b) by {
        if a.len() > 0 {
            assert((a + nl + b)[0] == a[0]);
            assert((a + nl + b).drop_first() =~= a.drop_first() + nl + b);
        } else {
            assert(a + nl + b =~= nl + b);
            assert(a1 + nl + b =~= nl + b);
        }
    }
    assert(strip_bom(a + seq!['\n', '\n'] + b) == a1 + seq!['\n', '\n'] + b) by {
        if a.len() > 0 {
            assert((a + seq!['\n', '\n'] + b)[0] == a[0]);
            assert((a + seq!['\n', '\n'] + b).drop_first() =~= a.drop_first() + seq!['\n', '\n']
                + b);
        } else {
            assert(a + seq!['\n', '\n'] + b =~= seq!['\n', '\n'] + b);
            assert(a1 + seq!['\n', '\n'] + b =~= seq!['\n', '\n'] + b);
        }
    }
    let q = normalize_newlines(b);
    let z1 = nl + b;
    let z2 = seq!['\n', '\n'] + b;
    assert(normalize_newlines(z1) == nl + q) by {
        assert(z1[0] == '\n');
        assert(z1.skip(1) =~= b);
    }
    assert(normalize_newlines(z2) == nl + (nl + q)) by {
        assert(z2[0] == '\n');
        assert(z2.skip(1) =~= z1);
    }
    let e = Seq::<char>::empty();
    assert(e.push('\n') + q =~= nl + q);
    if a1.len() > 0 && a1.last() == '\r' {
        let a0 = a1.drop_last();
        let w1 = seq!['\r', '\n'] + b;
        let w2 = seq!['\r', '\n', '\n'] + b;
        assert(a1 + nl + b =~= a0 + w1);
        assert(a1 + seq!['\n', '\n'] + b =~= a0 + w2);
        lemma_normalize_newlines_append(a0, w1);
        lemma_normalize_newlines_append(a0, w2);
        assert(normalize_newlines(w1) == nl + q) by {
            assert(w1.skip(2) =~= b);
        }
        assert(normalize_newlines(w2) == nl + (nl + q)) by {
            assert(w2.skip(2) =~= z1);
        }
        let p = normalize_newlines(a0);
        assert(p + (nl + q) =~= p.push('\n') + q);
        assert(p + (nl + (nl + q)) =~= p.push('\n') + (e.push('\n') + q));
        (p, q)
    } else {
        lemma_normalize_newlines_append(a1, z1);
        lemma_normalize_newlines_append(a1, z2);
        let p = normalize_newlines(a1);
        assert(a1 + nl + b =~= a1 + z1);
        assert(a1 + seq!['\n', '\n'] + b =~= a1 + z2);
        assert(p + (nl + q) =~= p.push('\n') + q);
        assert(p + (nl + (nl + q)) =~= p.push('\n') + (e.push('\n') + q));
        (p, q)
    }
}

} // verus!
