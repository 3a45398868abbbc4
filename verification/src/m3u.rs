//! Normalization of M3U input, plus the entry-level helpers (EXTINF parsing
//! and repair, path checks, title derivation) that the PLS and XSPF readers
//! share.
use vstd::prelude::*;
use crate::{Outcome, string_views};
use crate::text::{
    chars_to_string, contains_chars, contains_seq, copy_range, dec_int, dec_nat, find_chars,
    find_seq, normalize_newlines, normalize_newlines_chars, parse_i64, parse_i64_chars, push_chars,
    push_dec_i64, push_dec_u64, replace_char, replace_char_chars, split_on, split_on_chars,
    starts_with, starts_with_chars, str_chars, strip_bom, strip_bom_chars, trim, trim_chars,
    trim_end, trim_end_chars, views, free_of, joined, lemma_joined_prepend, lemma_joined_free_of,
    lemma_normalize_newlines, lemma_split_joined, lemma_split_on_pieces, lemma_trim_end_prefix,
    lemma_dec_int_parse, lemma_find_seq, lemma_trim_twice, lemma_trim_unchanged, occurs_at,
    trim_start, is_ws,
};

verus! {

// ---------------------------------------------------------------------------
// Entry-level helpers
// ---------------------------------------------------------------------------

/// Parses the part of an `#EXTINF:` line after the colon: `<duration>,<title>`.
/// The duration must be an integer no lower than -1 (unknown/live) and the
/// title must be non-empty; both are trimmed.
pub open spec fn parse_extinf(rest: Seq<char>) -> Result<(i64, Seq<char>), Seq<char>> {
    match find_seq(rest, seq![',']) {
        None => Err("missing comma between duration and title"@),
        Some(comma) => {
            let dur_str = trim(rest.take(comma));
            let title = trim(rest.skip(comma + 1));
            match parse_i64(dur_str) {
                None => Err("duration '"@ + dur_str + "' is not an integer"@),
                Some(d) => if d < -1 {
                    Err("duration "@ + dec_int(d as int) + " is negative"@)
                } else if title.len() == 0 {
                    Err("title is empty"@)
                } else {
                    Ok((d, title))
                },
            }
        },
    }
}

/// `t`, or `Unknown` when `t` is empty.
pub open spec fn title_or_unknown(t: Seq<char>) -> Seq<char> {
    if t.len() == 0 {
        "Unknown"@
    } else {
        t
    }
}

/// Best-effort reading of a malformed `#EXTINF:` body: a duration that is
/// missing, non-numeric or below -1 becomes -1, an empty title `Unknown`.
pub open spec fn repair_extinf(rest: Seq<char>) -> (i64, Seq<char>) {
    match find_seq(rest, seq![',']) {
        Some(comma) => {
            let d = match parse_i64(trim(rest.take(comma))) {
                Some(v) => if v < -1 {
                    -1i64
                } else {
                    v
                },
                None => -1i64,
            };
            (d, title_or_unknown(trim(rest.skip(comma + 1))))
        },
        None => (-1i64, title_or_unknown(trim(rest))),
    }
}

/// A line is a URL when it contains `://`.
pub open spec fn is_url(line: Seq<char>) -> bool {
    contains_seq(line, "://"@)
}

pub open spec fn backslash_reason() -> Seq<char> {
    "path uses backslashes instead of forward slashes"@
}

/// URLs pass unchanged; a local path must not use backslashes.
pub open spec fn normalize_path(line: Seq<char>) -> Result<Seq<char>, Seq<char>> {
    if is_url(line) {
        Ok(line)
    } else if contains_seq(line, seq!['\\']) {
        Err(backslash_reason())
    } else {
        Ok(line)
    }
}

/// The repair applied to a path that `normalize_path` rejects.
pub open spec fn forward_slashes(line: Seq<char>) -> Seq<char> {
    replace_char(line, '\\', '/')
}

/// The text after the last `c` in `s`, or all of `s` when it holds no `c`.
pub open spec fn after_last(s: Seq<char>, c: char) -> Seq<char>
    decreases s.len(),
{
    if s.len() == 0 {
        s
    } else if s.last() == c {
        Seq::empty()
    } else {
        after_last(s.drop_last(), c).push(s.last())
    }
}

/// A title for an entry that has none: the last `/`-separated component of
/// its path.
pub open spec fn derive_title(path: Seq<char>) -> Seq<char> {
    after_last(path, '/')
}

/// `#EXTINF:<duration>,<title>` followed by a newline.
pub open spec fn extinf_line(duration: i64, title: Seq<char>) -> Seq<char> {
    "#EXTINF:"@ + dec_int(duration as int) + seq![','] + title + seq!['\n']
}

/// The two output lines of one entry.
pub open spec fn entry_text(duration: i64, title: Seq<char>, path: Seq<char>) -> Seq<char> {
    extinf_line(duration, title) + path + seq!['\n']
}

/// A `String` holding the characters of `s`.
pub fn string_of(s: &str) -> (r: String)
    ensures
        r@ == s@,
{
    let v = str_chars(s);
    chars_to_string(v.as_slice())
}

pub fn parse_extinf_exec(rest: &[char]) -> (r: Result<(i64, Vec<char>), String>)
    ensures
        match parse_extinf(rest@) {
            Ok((d, t)) => r matches Ok((d2, t2)) && d2 == d && t2@ == t,
            Err(m) => r matches Err(e) && e@ == m,
        },
{
    let comma_v = vec![','];
    let comma_s = comma_v.as_slice();
    assert(comma_s@ =~= seq![',']);
    let found = find_chars(rest, comma_s);
    let comma = match found {
        Some(c) => c,
        None => {
            return Err(string_of("missing comma between duration and title"));
        },
    };

    let n: usize = rest.len();
    let head = copy_range(rest, 0, comma);
    assert(head@ =~= rest@.take(comma as int));
    let tail = copy_range(rest, comma + 1, n);
    assert(tail@ =~= rest@.skip(comma + 1));
    let dur_str = trim_chars(head.as_slice());
    let title = trim_chars(tail.as_slice());
    match parse_i64_chars(dur_str.as_slice()) {
        None => {
            let mut m = string_of("duration '");
            push_chars(&mut m, dur_str.as_slice());
            m.append("' is not an integer");
            Err(m)
        },
        Some(d) => {
            if d < -1 {
                let mut m = string_of("duration ");
                push_dec_i64(&mut m, d);
                m.append(" is negative");
                Err(m)
            } else if title.len() == 0 {
                Err(string_of("title is empty"))
            } else {
                Ok((d, title))
            }
        },
    }
}

fn title_or_unknown_exec(t: Vec<char>) -> (r: Vec<char>)
    ensures
        r@ == title_or_unknown(t@),
{
    if t.len() == 0 {
        str_chars("Unknown")
    } else {
        t
    }
}

pub fn repair_extinf_exec(rest: &[char]) -> (r: (i64, Vec<char>))
    ensures
        r.0 == repair_extinf(rest@).0,
        r.1@ == repair_extinf(rest@).1,
{
    let comma_v = vec![','];
    let comma_s = comma_v.as_slice();
    assert(comma_s@ =~= seq![',']);
    match find_chars(rest, comma_s) {
        Some(comma) => {
            let n: usize = rest.len();
            let head = copy_range(rest, 0, comma);
            assert(head@ =~= rest@.take(comma as int));
            let tail = copy_range(rest, comma + 1, n);
            assert(tail@ =~= rest@.skip(comma + 1));
            let dur_str = trim_chars(head.as_slice());
            let d: i64 = match parse_i64_chars(dur_str.as_slice()) {
                Some(v) => if v < -1 {
                    -1
                } else {
                    v
                },
                None => -1,
            };
            let title = trim_chars(tail.as_slice());
            (d, title_or_unknown_exec(title))
        },
        None => {
            let title = trim_chars(rest);
            (-1, title_or_unknown_exec(title))
        },
    }
}

pub fn is_url_exec(line: &[char]) -> (r: bool)
    ensures
        r == is_url(line@),
{
    let needle = str_chars("://");
    contains_chars(line, needle.as_slice())
}

pub fn normalize_path_exec(line: &[char]) -> (r: Result<Vec<char>, String>)
    ensures
        match normalize_path(line@) {
            Ok(p) => r matches Ok(p2) && p2@ == p,
            Err(m) => r matches Err(e) && e@ == m,
        },
{
    if is_url_exec(line) {
        return Ok(copy_range(line, 0, line.len()));
    }
    let bs = vec!['\\'];
    let bs_s = bs.as_slice();
    assert(bs_s@ =~= seq!['\\']);
    if contains_chars(line, bs_s) {
        return Err(string_of("path uses backslashes instead of forward slashes"));
    }
    let p = copy_range(line, 0, line.len());
    assert(p@ =~= line@);
    Ok(p)
}

proof fn lemma_after_last_take(s: Seq<char>, c: char, j: int)
    requires
        0 <= j <= s.len(),
        forall|k: int| j <= k < s.len() ==> s[k] != c,
        j == 0 || s[j - 1] == c,
    ensures
        after_last(s, c) == s.skip(j),
    decreases s.len() - j,
{
    if j < s.len() {
        lemma_after_last_take(s.drop_last(), c, j);
        assert(s.drop_last().skip(j).push(s.last()) =~= s.skip(j));
    } else {
        if s.len() > 0 {
            assert(s.last() == c);
        }
        assert(s.skip(j) =~= Seq::<char>::empty());
    }
}

pub fn derive_title_exec(path: &[char]) -> (r: Vec<char>)
    ensures
        r@ == derive_title(path@),
{
    let mut j: usize = path.len();
    while j > 0 && path[j - 1] != '/'
        invariant
            j <= path@.len(),
            forall|k: int| j <= k < path@.len() ==> path@[k] != '/',
        decreases j,
    {
        j -= 1;
    }
    proof {
        lemma_after_last_take(path@, '/', j as int);
    }
    let r = copy_range(path, j, path.len());
    assert(r@ =~= path@.skip(j as int));
    r
}

/// Appends `#EXTINF:<duration>,<title>\n<path>\n` to `out`.
pub fn push_entry(out: &mut String, duration: i64, title: &[char], path: &[char])
    ensures
        final(out)@ == old(out)@ + entry_text(duration, title@, path@),
{
    out.append("#EXTINF:");
    push_dec_i64(out, duration);
    out.push(',');
    push_chars(out, title);
    out.push('\n');
    push_chars(out, path);
    out.push('\n');
    assert(final(out)@ =~= old(out)@ + entry_text(duration, title@, path@));
}


/// `prefix`, the decimal `n`, then `suffix`.
pub fn line_msg(prefix: &str, n: u64, suffix: &str) -> (r: String)
    ensures
        r@ == prefix@ + dec_nat(n as nat) + suffix@,
{
    let mut m = string_of(prefix);
    push_dec_u64(&mut m, n);
    m.append(suffix);
    m
}

/// `prefix`, the decimal `n`, `mid`, `reason`, then `suffix`.
pub fn reason_msg(prefix: &str, n: u64, mid: &str, reason: &String, suffix: &str) -> (r: String)
    ensures
        r@ == prefix@ + dec_nat(n as nat) + mid@ + reason@ + suffix@,
{
    let mut m = string_of(prefix);
    push_dec_u64(&mut m, n);
    m.append(mid);
    m.append(reason.as_str());
    m.append(suffix);
    m
}

/// `prefix`, the decimal `n`, `mid`, then `reason`.
pub fn reason_tail_msg(prefix: &str, n: u64, mid: &str, reason: &String) -> (r: String)
    ensures
        r@ == prefix@ + dec_nat(n as nat) + mid@ + reason@,
{
    let mut m = string_of(prefix);
    push_dec_u64(&mut m, n);
    m.append(mid);
    m.append(reason.as_str());
    m
}

// ---------------------------------------------------------------------------
// M3U normalization
// ---------------------------------------------------------------------------

/// The positions (counted from 1) of the non-blank lines among `ls`.
pub open spec fn nonblank_positions(ls: Seq<Seq<char>>) -> Seq<nat>
    decreases ls.len(),
{
    if ls.len() == 0 {
        seq![]
    } else {
        let before = nonblank_positions(ls.drop_last());
        if ls.last().len() > 0 {
            before.push(ls.len())
        } else {
            before
        }
    }
}

/// The line number in the input of each line that `m3u_lines` gives: its
/// place among all lines, blank ones included, after dropping a byte order
/// mark and normalizing line endings.
pub open spec fn m3u_line_numbers(input: Seq<char>) -> Seq<nat> {
    nonblank_positions(
        split_on(normalize_newlines(strip_bom(input)), '\n').map_values(|l: Seq<char>| trim_end(l)),
    )
}

/// The non-blank lines of an M3U input, each without trailing whitespace,
/// after dropping a byte order mark and normalizing line endings.
pub open spec fn m3u_lines(input: Seq<char>) -> Seq<Seq<char>> {
    split_on(normalize_newlines(strip_bom(input)), '\n').map_values(|l: Seq<char>| trim_end(l)).filter(
        |l: Seq<char>| l.len() > 0,
    )
}

/// Progress through an M3U playlist: the output so far, the warnings so far,
/// and the `#EXTINF` still waiting for its entry line.
pub struct M3uState {
    pub out: Seq<char>,
    pub warnings: Seq<Seq<char>>,
    pub pending: Option<(i64, Seq<char>)>,
}

pub open spec fn msg_unfollowed(line_no: nat) -> Seq<char> {
    "#EXTINF at line "@ + dec_nat(line_no) + " was never followed by an entry"@
}

pub open spec fn msg_repaired_extinf(line_no: nat, reason: Seq<char>) -> Seq<char> {
    "repaired malformed #EXTINF at line "@ + dec_nat(line_no) + " ("@ + reason + ")"@
}

pub open spec fn msg_malformed_extinf(line_no: nat, reason: Seq<char>) -> Seq<char> {
    "malformed #EXTINF at line "@ + dec_nat(line_no) + ": "@ + reason
}

pub open spec fn msg_repaired_path(line_no: nat, reason: Seq<char>) -> Seq<char> {
    "repaired path at line "@ + dec_nat(line_no) + " ("@ + reason + ")"@
}

pub open spec fn msg_invalid_path(line_no: nat, reason: Seq<char>) -> Seq<char> {
    "invalid path at line "@ + dec_nat(line_no) + ": "@ + reason
}

pub open spec fn msg_synthesized(line_no: nat) -> Seq<char> {
    "entry at line "@ + dec_nat(line_no) + " had no #EXTINF, synthesized one"@
}

pub open spec fn msg_missing_extinf(line_no: nat) -> Seq<char> {
    "entry at line "@ + dec_nat(line_no) + " is missing a preceding #EXTINF"@
}

pub open spec fn msg_dangling() -> Seq<char> {
    "playlist ends with a dangling #EXTINF and no entry"@
}

/// An `#EXTINF:` line whose body is `rest`.
pub open spec fn m3u_extinf(rest: Seq<char>, line_no: nat, lenient: bool, st: M3uState) -> Result<
    M3uState,
    Seq<char>,
> {
    let cleared = if st.pending is Some {
        if lenient {
            Ok(
                M3uState {
                    out: st.out,
                    warnings: st.warnings.push(msg_unfollowed(line_no)),
                    pending: None,
                },
            )
        } else {
            Err(msg_unfollowed(line_no))
        }
    } else {
        Ok(st)
    };
    match cleared {
        Err(m) => Err(m),
        Ok(s) => match parse_extinf(rest) {
            Ok(p) => Ok(M3uState { out: s.out, warnings: s.warnings, pending: Some(p) }),
            Err(reason) => if lenient {
                Ok(
                    M3uState {
                        out: s.out,
                        warnings: s.warnings.push(msg_repaired_extinf(line_no, reason)),
                        pending: Some(repair_extinf(rest)),
                    },
                )
            } else {
                Err(msg_malformed_extinf(line_no, reason))
            },
        },
    }
}

/// An entry (path or URL) line.
pub open spec fn m3u_entry(line: Seq<char>, line_no: nat, lenient: bool, st: M3uState) -> Result<
    M3uState,
    Seq<char>,
> {
    let checked: Result<(Seq<char>, Seq<Seq<char>>), Seq<char>> = match normalize_path(line) {
        Ok(p) => Ok((p, st.warnings)),
        Err(reason) => if lenient {
            Ok((forward_slashes(line), st.warnings.push(msg_repaired_path(line_no, reason))))
        } else {
            Err(msg_invalid_path(line_no, reason))
        },
    };
    match checked {
        Err(m) => Err(m),
        Ok((path, warnings)) => match st.pending {
            Some((d, t)) => Ok(
                M3uState { out: st.out + entry_text(d, t, path), warnings: warnings, pending: None },
            ),
            None => if lenient {
                Ok(
                    M3uState {
                        out: st.out + entry_text(-1i64, derive_title(path), path),
                        warnings: warnings.push(msg_synthesized(line_no)),
                        pending: None,
                    },
                )
            } else {
                Err(msg_missing_extinf(line_no))
            },
        },
    }
}

/// One non-blank line: an `#EXTINF:` line, another `#` directive (passed
/// through unchanged), or an entry.
pub open spec fn m3u_step(line: Seq<char>, line_no: nat, lenient: bool, st: M3uState) -> Result<
    M3uState,
    Seq<char>,
> {
    if starts_with(line, "#EXTINF:"@) {
        m3u_extinf(line.skip("#EXTINF:"@.len() as int), line_no, lenient, st)
    } else if line.len() > 0 && line[0] == '#' {
        Ok(M3uState { out: st.out + line + seq!['\n'], warnings: st.warnings, pending: st.pending })
    } else {
        m3u_entry(line, line_no, lenient, st)
    }
}

/// The lines from index `idx` on; line `i` has the line number `nums[i]`.
pub open spec fn m3u_run(
    lines: Seq<Seq<char>>,
    nums: Seq<nat>,
    lenient: bool,
    idx: nat,
    st: M3uState,
) -> Result<M3uState, Seq<char>>
    decreases lines.len() - idx,
{
    if idx >= lines.len() {
        Ok(st)
    } else {
        match m3u_step(lines[idx as int], nums[idx as int], lenient, st) {
            Ok(s) => m3u_run(lines, nums, lenient, idx + 1, s),
            Err(m) => Err(m),
        }
    }
}

pub open spec fn m3u_has_header(lines: Seq<Seq<char>>) -> bool {
    lines.len() > 0 && lines[0] == "#EXTM3U"@
}

/// Normalizing an M3U playlist: a leading `#EXTM3U` line, then for each entry
/// its `#EXTINF:<duration>,<title>` line and its path line, with other
/// directives passed through. In strict mode any deviation is an error; in
/// lenient mode it is repaired and reported as a warning.
pub open spec fn m3u_format(input: Seq<char>, lenient: bool) -> Outcome {
    let lines = m3u_lines(input);
    if !m3u_has_header(lines) && !lenient {
        Err("playlist is missing the #EXTM3U header"@)
    } else {
        match m3u_run(
            lines,
            m3u_line_numbers(input),
            lenient,
            m3u_start_idx(lines),
            m3u_start(lines),
        ) {
            Err(m) => Err(m),
            Ok(end) => if end.pending is Some {
                if lenient {
                    Ok((end.out, end.warnings.push(msg_dangling())))
                } else {
                    Err(msg_dangling())
                }
            } else {
                Ok((end.out, end.warnings))
            },
        }
    }
}

/// Where the entry lines begin: after the header line, when there is one.
pub open spec fn m3u_start_idx(lines: Seq<Seq<char>>) -> nat {
    if m3u_has_header(lines) {
        1
    } else {
        0
    }
}

/// The output always begins with the header; a missing one is reported.
pub open spec fn m3u_start(lines: Seq<Seq<char>>) -> M3uState {
    M3uState {
        out: "#EXTM3U\n"@,
        warnings: if m3u_has_header(lines) {
            seq![]
        } else {
            seq!["missing #EXTM3U header, inserted one"@]
        },
        pending: None,
    }
}

pub open spec fn pending_view(p: Option<(i64, Vec<char>)>) -> Option<(i64, Seq<char>)> {
    match p {
        Some((d, t)) => Some((d, t@)),
        None => None,
    }
}

pub open spec fn m3u_state(out: Seq<char>, warnings: Seq<String>, pending: Option<(i64, Vec<char>)>) -> M3uState {
    M3uState { out: out, warnings: string_views(warnings), pending: pending_view(pending) }
}

/// The line numbers held by a vector.
pub open spec fn numbers_view(v: Seq<usize>) -> Seq<nat> {
    v.map_values(|n: usize| n as nat)
}

/// The lines of an M3U input and their line numbers.
pub fn m3u_lines_exec(input: &str) -> (r: (Vec<Vec<char>>, Vec<usize>))
    ensures
        views(r.0@) == m3u_lines(input@),
        numbers_view(r.1@) == m3u_line_numbers(input@),
        r.0@.len() == r.1@.len(),
{
    let chars = str_chars(input);
    let no_bom = strip_bom_chars(chars.as_slice());
    let normalized = normalize_newlines_chars(no_bom.as_slice());
    let pieces = split_on_chars(normalized.as_slice(), '\n');
    let ghost trimmed = views(pieces@).map_values(|l: Seq<char>| trim_end(l));
    let mut lines: Vec<Vec<char>> = Vec::new();
    let mut nums: Vec<usize> = Vec::new();
    let mut i: usize = 0;
    while i < pieces.len()
        invariant
            i <= pieces@.len(),
            trimmed == views(pieces@).map_values(|l: Seq<char>| trim_end(l)),
            views(lines@) == trimmed.take(i as int).filter(|l: Seq<char>| l.len() > 0),
            numbers_view(nums@) == nonblank_positions(trimmed.take(i as int)),
            lines@.len() == nums@.len(),
        decreases pieces@.len() - i,
    {
        let t = trim_end_chars(pieces[i].as_slice());
        proof {
            reveal_with_fuel(Seq::<_>::filter, 1);
            assert(trimmed.take(i + 1).drop_last() =~= trimmed.take(i as int));
            assert(trimmed.take(i + 1).last() == t@);
        }
        if t.len() > 0 {
            lines.push(t);
            nums.push(i + 1);
        }
        i += 1;
        assert(views(lines@) =~= trimmed.take(i as int).filter(|l: Seq<char>| l.len() > 0));
        assert(numbers_view(nums@) =~= nonblank_positions(trimmed.take(i as int)));
    }
    assert(trimmed.take(pieces@.len() as int) =~= trimmed);
    (lines, nums)
}

/// Processes one `#EXTINF:` line (`rest` is its body).
fn m3u_extinf_exec(
    rest: &[char],
    line_no: usize,
    lenient: bool,
    out: &String,
    warnings: &mut Vec<String>,
    pending: &mut Option<(i64, Vec<char>)>,
) -> (r: Result<(), String>)
    ensures
        match m3u_extinf(rest@, line_no as nat, lenient, m3u_state(out@, old(warnings)@, *old(pending))) {
            Ok(s) => r is Ok && m3u_state(out@, final(warnings)@, *final(pending)) == s,
            Err(m) => r matches Err(e) && e@ == m,
        },
{
    if pending.is_some() {
        let msg = line_msg("#EXTINF at line ", line_no as u64, " was never followed by an entry");
        if lenient {
            let ghost before = warnings@;
            warnings.push(msg);
            assert(string_views(warnings@) =~= string_views(before).push(msg@));
            *pending = None;
        } else {
            return Err(msg);
        }
    }
    match parse_extinf_exec(rest) {
        Ok(p) => {
            *pending = Some(p);
        },
        Err(reason) => {
            if lenient {
                let ghost before = warnings@;
                let msg = reason_msg("repaired malformed #EXTINF at line ", line_no as u64, " (", &reason, ")");
                warnings.push(msg);
                assert(string_views(warnings@) =~= string_views(before).push(msg@));
                *pending = Some(repair_extinf_exec(rest));
            } else {
                return Err(reason_tail_msg("malformed #EXTINF at line ", line_no as u64, ": ", &reason));
            }
        },
    }
    Ok(())
}


/// Processes one entry line.
fn m3u_entry_exec(
    line: &[char],
    line_no: usize,
    lenient: bool,
    out: &mut String,
    warnings: &mut Vec<String>,
    pending: &mut Option<(i64, Vec<char>)>,
) -> (r: Result<(), String>)
    ensures
        match m3u_entry(line@, line_no as nat, lenient, m3u_state(old(out)@, old(warnings)@, *old(pending))) {
            Ok(s) => r is Ok && m3u_state(final(out)@, final(warnings)@, *final(pending)) == s,
            Err(m) => r matches Err(e) && e@ == m,
        },
{
    let path = match normalize_path_exec(line) {
        Ok(p) => p,
        Err(reason) => {
            if lenient {
                let ghost before = warnings@;
                let msg = reason_msg("repaired path at line ", line_no as u64, " (", &reason, ")");
                warnings.push(msg);
                assert(string_views(warnings@) =~= string_views(before).push(msg@));
                replace_char_chars(line, '\\', '/')
            } else {
                return Err(reason_tail_msg("invalid path at line ", line_no as u64, ": ", &reason));
            }
        },
    };
    match pending.take() {
        Some((d, t)) => {
            push_entry(out, d, t.as_slice(), path.as_slice());
        },
        None => {
            if lenient {
                let title = derive_title_exec(path.as_slice());
                let ghost before = warnings@;
                let msg = line_msg("entry at line ", line_no as u64, " had no #EXTINF, synthesized one");
                warnings.push(msg);
                assert(string_views(warnings@) =~= string_views(before).push(msg@));
                push_entry(out, -1, title.as_slice(), path.as_slice());
            } else {
                return Err(line_msg("entry at line ", line_no as u64, " is missing a preceding #EXTINF"));
            }
        },
    }
    Ok(())
}

/// Processes one non-blank line.
pub fn m3u_step_exec(
    line: &[char],
    line_no: usize,
    lenient: bool,
    out: &mut String,
    warnings: &mut Vec<String>,
    pending: &mut Option<(i64, Vec<char>)>,
) -> (r: Result<(), String>)
    ensures
        match m3u_step(line@, line_no as nat, lenient, m3u_state(old(out)@, old(warnings)@, *old(pending))) {
            Ok(s) => r is Ok && m3u_state(final(out)@, final(warnings)@, *final(pending)) == s,
            Err(m) => r matches Err(e) && e@ == m,
        },
{
    let prefix = str_chars("#EXTINF:");
    if starts_with_chars(line, prefix.as_slice()) {
        let n: usize = line.len();
        let rest = copy_range(line, prefix.len(), n);
        assert(rest@ =~= line@.skip("#EXTINF:"@.len() as int));
        m3u_extinf_exec(rest.as_slice(), line_no, lenient, out, warnings, pending)
    } else if line.len() > 0 && line[0] == '#' {
        push_chars(out, line);
        out.push('\n');
        assert(out@ =~= old(out)@ + line@ + seq!['\n']);
        Ok(())
    } else {
        m3u_entry_exec(line, line_no, lenient, out, warnings, pending)
    }
}

} // verus!

verus! {

// ---------------------------------------------------------------------------
// How strict and lenient runs relate
// ---------------------------------------------------------------------------

/// Where a strict step succeeds, the lenient step does the same thing, and
/// neither adds a warning.
pub proof fn lemma_m3u_step_strict(line: Seq<char>, line_no: nat, st: M3uState)
    requires
        m3u_step(line, line_no, false, st) is Ok,
    ensures
        m3u_step(line, line_no, true, st) == m3u_step(line, line_no, false, st),
        m3u_step(line, line_no, false, st)->Ok_0.warnings == st.warnings,
{
}

/// A lenient step never fails and never drops a warning; when it adds none,
/// the strict step succeeds with the same result.
pub proof fn lemma_m3u_step_lenient(line: Seq<char>, line_no: nat, st: M3uState)
    ensures
        m3u_step(line, line_no, true, st) is Ok,
        st.warnings.len() <= m3u_step(line, line_no, true, st)->Ok_0.warnings.len(),
        m3u_step(line, line_no, true, st)->Ok_0.warnings.len() == st.warnings.len()
            ==> m3u_step(line, line_no, false, st) == m3u_step(line, line_no, true, st),
{
}

pub proof fn lemma_m3u_run_strict(lines: Seq<Seq<char>>, nums: Seq<nat>, idx: nat, st: M3uState)
    requires
        m3u_run(lines, nums, false, idx, st) is Ok,
    ensures
        m3u_run(lines, nums, true, idx, st) == m3u_run(lines, nums, false, idx, st),
        m3u_run(lines, nums, false, idx, st)->Ok_0.warnings == st.warnings,
    decreases lines.len() - idx,
{
    if idx < lines.len() {
        lemma_m3u_step_strict(lines[idx as int], nums[idx as int], st);
        let s = m3u_step(lines[idx as int], nums[idx as int], false, st)->Ok_0;
        lemma_m3u_run_strict(lines, nums, idx + 1, s);
    }
}

pub proof fn lemma_m3u_run_lenient(lines: Seq<Seq<char>>, nums: Seq<nat>, idx: nat, st: M3uState)
    ensures
        m3u_run(lines, nums, true, idx, st) is Ok,
        st.warnings.len() <= m3u_run(lines, nums, true, idx, st)->Ok_0.warnings.len(),
        m3u_run(lines, nums, true, idx, st)->Ok_0.warnings.len() == st.warnings.len()
            ==> m3u_run(lines, nums, false, idx, st) == m3u_run(lines, nums, true, idx, st),
    decreases lines.len() - idx,
{
    if idx < lines.len() {
        lemma_m3u_step_lenient(lines[idx as int], nums[idx as int], st);
        let s = m3u_step(lines[idx as int], nums[idx as int], true, st)->Ok_0;
        lemma_m3u_run_lenient(lines, nums, idx + 1, s);
    }
}

/// A run only ever appends to the output.
pub proof fn lemma_m3u_run_extends(
    lines: Seq<Seq<char>>,
    nums: Seq<nat>,
    lenient: bool,
    idx: nat,
    st: M3uState,
)
    requires
        m3u_run(lines, nums, lenient, idx, st) is Ok,
    ensures
        crate::text::starts_with(m3u_run(lines, nums, lenient, idx, st)->Ok_0.out, st.out),
    decreases lines.len() - idx,
{
    if idx < lines.len() {
        let s = m3u_step(lines[idx as int], nums[idx as int], lenient, st)->Ok_0;
        assert(s.out.take(st.out.len() as int) =~= st.out);
        lemma_m3u_run_extends(lines, nums, lenient, idx + 1, s);
        let e = m3u_run(lines, nums, lenient, idx, st)->Ok_0;
        assert(e.out.take(st.out.len() as int) =~= e.out.take(s.out.len() as int).take(
            st.out.len() as int,
        ));
    } else {
        assert(st.out.take(st.out.len() as int) =~= st.out);
    }
}


// ---------------------------------------------------------------------------
// Strict output is itself a clean playlist
// ---------------------------------------------------------------------------

/// A line as `m3u_lines` hands it out: non-blank, without line breaks, and
/// without trailing whitespace.
pub open spec fn clean_line(l: Seq<char>) -> bool {
    &&& l.len() > 0
    &&& free_of(l, '\n')
    &&& free_of(l, '\r')
    &&& trim_end(l) == l
}

pub open spec fn all_clean(ls: Seq<Seq<char>>) -> bool {
    forall|i: int| 0 <= i < ls.len() ==> clean_line(#[trigger] ls[i])
}

proof fn lemma_filter_nonblank(ls: Seq<Seq<char>>)
    requires
        forall|i: int| 0 <= i < ls.len() ==> (#[trigger] ls[i]).len() > 0,
    ensures
        ls.filter(|l: Seq<char>| l.len() > 0) == ls,
    decreases ls.len(),
{
    reveal(Seq::filter);
    if ls.len() > 0 {
        let prev = ls.drop_last();
        assert forall|i: int| 0 <= i < prev.len() implies (#[trigger] prev[i]).len() > 0 by {
            assert(prev[i] == ls[i]);
        }
        lemma_filter_nonblank(prev);
        assert(ls.last() == ls[ls.len() - 1]);
        assert(prev.push(ls.last()) =~= ls);
    }
}

/// An extra line break, a blank line, leaves the lines of an M3U input as
/// they were.
pub proof fn lemma_m3u_lines_blank(a: Seq<char>, b: Seq<char>)
    ensures
        m3u_lines(a + seq!['\n', '\n'] + b) == m3u_lines(a + seq!['\n'] + b),
{
    let (p, q) = crate::text::lemma_extra_line_break(a, b);
    let e = Seq::<char>::empty();
    crate::text::lemma_split_on_concat(p, q, '\n');
    crate::text::lemma_split_on_concat(p, e.push('\n') + q, '\n');
    crate::text::lemma_split_on_concat(e, q, '\n');
    assert(split_on(e, '\n') =~= seq![e]);
    let sp = split_on(p, '\n');
    let sq = split_on(q, '\n');
    let f = |l: Seq<char>| trim_end(l);
    let keep = |l: Seq<char>| l.len() > 0;
    assert((sp + sq).map_values(f) =~= sp.map_values(f) + sq.map_values(f));
    assert((sp + (seq![e] + sq)).map_values(f) =~= sp.map_values(f) + (seq![e] + sq.map_values(f)));
    reveal(Seq::filter);
    assert(seq![e].drop_last() =~= Seq::<Seq<char>>::empty());
    assert(Seq::<Seq<char>>::empty().filter(keep) =~= Seq::<Seq<char>>::empty());
    assert(!keep(e));
    assert(seq![e].last() == e);
    assert(seq![e].filter(keep) == seq![e].drop_last().filter(keep));
    assert(seq![e].filter(keep) =~= Seq::<Seq<char>>::empty());
    let mp = sp.map_values(f);
    let mq = sq.map_values(f);
    Seq::filter_distributes_over_add(mp, mq, keep);
    Seq::filter_distributes_over_add(mp, seq![e] + mq, keep);
    Seq::filter_distributes_over_add(seq![e], mq, keep);
    assert(seq![e].filter(keep) + mq.filter(keep) =~= mq.filter(keep));
}

/// Two runs over the same lines, numbered differently, from states that
/// agree but for the text of their warnings, agree but for the text of
/// their messages: both succeed or both fail, and on success with the same
/// output, the same waiting `#EXTINF` and as many warnings.
pub proof fn lemma_m3u_run_renumbered(
    lines: Seq<Seq<char>>,
    n1: Seq<nat>,
    n2: Seq<nat>,
    lenient: bool,
    idx: nat,
    s1: M3uState,
    s2: M3uState,
)
    requires
        s1.out == s2.out,
        s1.pending == s2.pending,
        s1.warnings.len() == s2.warnings.len(),
    ensures
        m3u_run(lines, n1, lenient, idx, s1) is Ok == m3u_run(lines, n2, lenient, idx, s2) is Ok,
        m3u_run(lines, n1, lenient, idx, s1) is Ok ==> {
            let e1 = m3u_run(lines, n1, lenient, idx, s1)->Ok_0;
            let e2 = m3u_run(lines, n2, lenient, idx, s2)->Ok_0;
            e1.out == e2.out && e1.pending == e2.pending && e1.warnings.len() == e2.warnings.len()
        },
    decreases lines.len() - idx,
{
    if idx < lines.len() {
        let l = lines[idx as int];
        let r1 = m3u_step(l, n1[idx as int], lenient, s1);
        let r2 = m3u_step(l, n2[idx as int], lenient, s2);
        assert(r1 is Ok == r2 is Ok);
        if r1 is Ok {
            lemma_m3u_run_renumbered(lines, n1, n2, lenient, idx + 1, r1->Ok_0, r2->Ok_0);
        }
    }
}

/// CRLF and lone CR line endings read the same as LF.
pub proof fn lemma_m3u_lines_line_endings(input: Seq<char>)
    ensures
        m3u_lines(normalize_newlines(input)) == m3u_lines(input),
        m3u_line_numbers(normalize_newlines(input)) == m3u_line_numbers(input),
{
    crate::text::lemma_prepare_after_normalize(input);
}

/// Every line of an M3U input is clean.
pub proof fn lemma_m3u_lines_clean(input: Seq<char>)
    ensures
        all_clean(m3u_lines(input)),
{
    let n = normalize_newlines(strip_bom(input));
    lemma_normalize_newlines(strip_bom(input));
    let pieces = split_on(n, '\n');
    lemma_split_on_pieces(n, '\n', '\r');
    let trimmed = pieces.map_values(|l: Seq<char>| trim_end(l));
    let lines = trimmed.filter(|l: Seq<char>| l.len() > 0);
    assert(lines == m3u_lines(input));
    assert forall|i: int| 0 <= i < lines.len() implies clean_line(#[trigger] lines[i]) by {
        broadcast use vstd::seq_lib::group_filter_ensures;

        let l = lines[i];
        assert(lines.contains(l));
        trimmed.lemma_filter_contains_rev(|l: Seq<char>| l.len() > 0, l);
        let j = choose|j: int| 0 <= j < trimmed.len() && trimmed[j] == l;
        let piece = pieces[j];
        lemma_trim_end_prefix(piece);
        assert(l == piece.take(l.len() as int));
        assert(free_of(l, '\n') && free_of(l, '\r')) by {
            assert(free_of(piece, '\n') && free_of(piece, '\r'));
            assert forall|k: int| 0 <= k < l.len() implies l[k] != '\n' && l[k] != '\r' by {
                assert(l[k] == piece[k]);
            }
        }
    }
}

/// Dropping the blank lines from clean lines and one trailing empty piece
/// leaves the clean lines.
proof fn lemma_filter_trailing_blank(ls: Seq<Seq<char>>)
    requires
        all_clean(ls),
    ensures
        ls.push(Seq::<char>::empty()).filter(|l: Seq<char>| l.len() > 0) == ls,
{
    reveal(Seq::filter);
    assert forall|i: int| 0 <= i < ls.len() implies (#[trigger] ls[i]).len() > 0 by {
        assert(clean_line(ls[i]));
    }
    lemma_filter_nonblank(ls);
    let pieces = ls.push(Seq::<char>::empty());
    assert(pieces.drop_last() =~= ls);
}

/// Clean lines are left alone by `trim_end`, and so is the empty piece.
proof fn lemma_trim_end_clean(ls: Seq<Seq<char>>)
    requires
        all_clean(ls),
    ensures
        ls.push(Seq::<char>::empty()).map_values(|l: Seq<char>| trim_end(l)) == ls.push(
            Seq::<char>::empty(),
        ),
{
    let pieces = ls.push(Seq::<char>::empty());
    let trimmed = pieces.map_values(|l: Seq<char>| trim_end(l));
    assert forall|i: int| 0 <= i < pieces.len() implies trimmed[i] == pieces[i] by {
        if i < ls.len() {
            assert(clean_line(ls[i]));
        }
    }
    assert(trimmed =~= pieces);
}

/// The clean lines of a text that starts with `#` are what `m3u_lines` reads
/// back from them once they are joined.
pub proof fn lemma_m3u_lines_of_joined(ls: Seq<Seq<char>>)
    requires
        all_clean(ls),
        ls.len() > 0,
        ls[0][0] == '#',
    ensures
        m3u_lines(joined(ls)) == ls,
{
    let t = joined(ls);
    assert(strip_bom(t) == t) by {
        lemma_joined_prepend(ls[0], ls.skip(1));
        assert(seq![ls[0]] + ls.skip(1) =~= ls);
        assert(t[0] == '#');
    }
    assert(normalize_newlines(t) == t) by {
        assert forall|i: int| 0 <= i < ls.len() implies free_of(#[trigger] ls[i], '\r') by {
            assert(clean_line(ls[i]));
        }
        lemma_joined_free_of(ls, '\r');
        lemma_normalize_newlines(t);
    }
    assert(split_on(t, '\n') == ls.push(Seq::<char>::empty())) by {
        assert forall|i: int| 0 <= i < ls.len() implies free_of(#[trigger] ls[i], '\n') by {
            assert(clean_line(ls[i]));
        }
        lemma_split_joined(ls);
    }
    lemma_trim_end_clean(ls);
    lemma_filter_trailing_blank(ls);
}

/// In strict mode a line number only ever shows up in an error message.
proof fn lemma_m3u_step_line_no(line: Seq<char>, n1: nat, n2: nat, st: M3uState)
    ensures
        m3u_step(line, n1, false, st) is Ok == m3u_step(line, n2, false, st) is Ok,
        m3u_step(line, n1, false, st) is Ok ==> m3u_step(line, n1, false, st) == m3u_step(
            line,
            n2,
            false,
            st,
        ),
{
}

/// A successful strict run over the lines from `j + i` on is the run over
/// `lines.skip(j)` from `i` on, whatever the line numbers.
pub proof fn lemma_m3u_run_shift(
    lines: Seq<Seq<char>>,
    nums: Seq<nat>,
    j: nat,
    i: nat,
    st: M3uState,
    nums2: Seq<nat>,
)
    requires
        j <= lines.len(),
        m3u_run(lines.skip(j as int), nums2, false, i, st) is Ok,
    ensures
        m3u_run(lines, nums, false, j + i, st) == m3u_run(lines.skip(j as int), nums2, false, i, st),
    decreases lines.len() - (j + i),
{
    let rest = lines.skip(j as int);
    if j + i < lines.len() {
        assert(rest[i as int] == lines[(j + i) as int]);
        lemma_m3u_step_line_no(lines[(j + i) as int], nums[(j + i) as int], nums2[i as int], st);
        let s = m3u_step(rest[i as int], nums2[i as int], false, st)->Ok_0;
        lemma_m3u_run_shift(lines, nums, j, i + 1, s, nums2);
    }
}

/// Lines numbered `1` to `n`, for reading lines that stand on their own.
pub open spec fn plain_numbers(n: nat) -> Seq<nat> {
    Seq::new(n, |i: int| (i + 1) as nat)
}

/// A title that strict M3U reading gives back as it is: not empty, trimmed,
/// and without line breaks.
pub open spec fn clean_title(t: Seq<char>) -> bool {
    &&& t.len() > 0
    &&& trim(t) == t
    &&& free_of(t, '\n')
    &&& free_of(t, '\r')
}

/// What a strict `#EXTINF` waiting for its entry can hold.
pub open spec fn pending_clean(p: Option<(i64, Seq<char>)>) -> bool {
    p matches Some((d, t)) ==> d >= -1 && clean_title(t)
}

/// The `#EXTINF` line of an entry, without its newline.
pub open spec fn extinf_text(d: i64, t: Seq<char>) -> Seq<char> {
    "#EXTINF:"@ + dec_int(d as int) + seq![','] + t
}

/// The title of an `#EXTINF:` line: what follows the first comma after the
/// prefix.
pub open spec fn extinf_title(l: Seq<char>) -> Seq<char> {
    let r = l.skip("#EXTINF:"@.len() as int);
    r.skip(find_seq(r, seq![','])->Some_0 + 1)
}

/// Every `#EXTINF:` line among `ls` carries a clean title.
pub open spec fn titles_clean(ls: Seq<Seq<char>>) -> bool {
    forall|i: int|
        0 <= i < ls.len() && starts_with(#[trigger] ls[i], "#EXTINF:"@) ==> clean_title(
            extinf_title(ls[i]),
        )
}

/// The shape of an `#EXTINF` line as it is written.
proof fn lemma_extinf_parts(d: i64, t: Seq<char>)
    ensures
        starts_with(extinf_text(d, t), "#EXTINF:"@),
        extinf_text(d, t).skip("#EXTINF:"@.len() as int) == dec_int(d as int) + seq![','] + t,
        find_seq(dec_int(d as int) + seq![','] + t, seq![',']) == Some(dec_int(d as int).len() as int),
        (dec_int(d as int) + seq![','] + t).take(dec_int(d as int).len() as int) == dec_int(d as int),
        extinf_title(extinf_text(d, t)) == t,
        extinf_line(d, t) == extinf_text(d, t) + seq!['\n'],
        free_of(t, '\n') && free_of(t, '\r') && (t.len() == 0 || !is_ws(t.last())) ==> clean_line(
            extinf_text(d, t),
        ),
{
    reveal_strlit("#EXTINF:");
    let ds = dec_int(d as int);
    lemma_dec_int_parse(d);
    let r = ds + seq![','] + t;
    let x = extinf_text(d, t);
    assert(x =~= "#EXTINF:"@ + r);
    assert(x.take(8) =~= "#EXTINF:"@);
    assert(x.skip(8) =~= r);
    lemma_find_seq(r, seq![',']);
    assert(occurs_at(r, seq![','], ds.len() as int)) by {
        assert(r.subrange(ds.len() as int, ds.len() + 1int) =~= seq![',']);
    }
    assert forall|j: int| 0 <= j < ds.len() implies !occurs_at(r, seq![','], j) by {
        assert(r.subrange(j, j + 1)[0] == ds[j]);
    }
    assert(find_seq(r, seq![',']) == Some(ds.len() as int));
    assert(r.take(ds.len() as int) =~= ds);
    assert(r.skip(ds.len() + 1int) =~= t);
    assert(extinf_line(d, t) =~= x + seq!['\n']);
    if free_of(t, '\n') && free_of(t, '\r') && (t.len() == 0 || !is_ws(t.last())) {
        if t.len() > 0 {
            assert(x.last() == t.last());
        } else {
            assert(x.last() == ',');
        }
        assert(trim_end(x) == x);
        assert forall|k: int| 0 <= k < x.len() implies x[k] != '\n' && x[k] != '\r' by {
            if k >= 8 + ds.len() + 1 {
                assert(x[k] == t[k - 8 - ds.len() - 1]);
            } else if 8 <= k < 8 + ds.len() {
                assert(x[k] == ds[k - 8]);
            }
        }
    }
}

/// A duration of -1 or more and a non-empty trimmed title, written as
/// `<duration>,<title>`, parse back to themselves.
pub proof fn lemma_written_extinf_parses(d: i64, t: Seq<char>)
    requires
        d >= -1,
        t.len() > 0,
        trim(t) == t,
    ensures
        parse_extinf(dec_int(d as int) + seq![','] + t) == Ok::<(i64, Seq<char>), Seq<char>>(
            (d, t),
        ),
{
    lemma_extinf_parts(d, t);
    let ds = dec_int(d as int);
    lemma_dec_int_parse(d);
    let r = ds + seq![','] + t;
    assert(r.skip(ds.len() + 1int) =~= t);
    lemma_trim_unchanged(ds);
}

/// A repaired `#EXTINF` body has a duration of -1 or more and a non-empty
/// trimmed title; where the body parses, the repair is the parse.
pub proof fn lemma_repair_extinf(rest: Seq<char>)
    ensures
        repair_extinf(rest).0 >= -1,
        repair_extinf(rest).1.len() > 0,
        trim(repair_extinf(rest).1) == repair_extinf(rest).1,
        parse_extinf(rest) is Ok ==> repair_extinf(rest) == parse_extinf(rest)->Ok_0,
{
    reveal_strlit("Unknown");
    let u: Seq<char> = "Unknown"@;
    lemma_trim_unchanged(u);
    let raw = match find_seq(rest, seq![',']) {
        Some(comma) => rest.skip(comma + 1),
        None => rest,
    };
    lemma_trim_twice(raw, '\n');
}

/// Repairing an `#EXTINF` body repairs its duration and its title each on
/// its own: a duration part (before the first comma) that reads as an
/// integer of -1 or more is kept whatever the title part is, and the title
/// part, trimmed, is kept unless it is blank, when it becomes `Unknown`.
pub proof fn law_repair_keeps_what_is_valid(dpart: Seq<char>, tpart: Seq<char>)
    requires
        free_of(dpart, ','),
    ensures
        parse_i64(trim(dpart)) is Some && parse_i64(trim(dpart))->Some_0 >= -1 ==> repair_extinf(
            dpart + seq![','] + tpart,
        ).0 == parse_i64(trim(dpart))->Some_0,
        parse_i64(trim(dpart)) is Some && parse_i64(trim(dpart))->Some_0 < -1 ==> repair_extinf(
            dpart + seq![','] + tpart,
        ).0 == -1,
        parse_i64(trim(dpart)) is None ==> repair_extinf(dpart + seq![','] + tpart).0 == -1,
        trim(tpart).len() > 0 ==> repair_extinf(dpart + seq![','] + tpart).1 == trim(tpart),
        trim(tpart).len() == 0 ==> repair_extinf(dpart + seq![','] + tpart).1 == "Unknown"@,
{
    let r = dpart + seq![','] + tpart;
    let k = dpart.len() as int;
    lemma_find_seq(r, seq![',']);
    assert(occurs_at(r, seq![','], k)) by {
        assert(r.subrange(k, k + 1) =~= seq![',']);
    }
    assert forall|j: int| 0 <= j < k implies !occurs_at(r, seq![','], j) by {
        assert(r.subrange(j, j + 1)[0] == dpart[j]);
    }
    assert(find_seq(r, seq![',']) == Some(k));
    assert(r.take(k) =~= dpart);
    assert(r.skip(k + 1) =~= tpart);
}

/// A clean title does not end in whitespace.
proof fn lemma_clean_title_ends(t: Seq<char>)
    requires
        clean_title(t),
    ensures
        !is_ws(t.last()),
{
    lemma_trim_end_prefix(trim_start(t));
}

/// An `#EXTINF` line as strict output writes it is clean and reads back as
/// the duration and title it was written from.
proof fn lemma_extinf_text(d: i64, t: Seq<char>)
    requires
        pending_clean(Some((d, t))),
    ensures
        clean_line(extinf_text(d, t)),
        starts_with(extinf_text(d, t), "#EXTINF:"@),
        extinf_text(d, t).skip("#EXTINF:"@.len() as int) == dec_int(d as int) + seq![','] + t,
        parse_extinf(dec_int(d as int) + seq![','] + t) == Ok::<(i64, Seq<char>), Seq<char>>(
            (d, t),
        ),
        extinf_line(d, t) == extinf_text(d, t) + seq!['\n'],
{
    reveal_strlit("#EXTINF:");
    lemma_clean_title_ends(t);
    lemma_extinf_parts(d, t);
    let ds = dec_int(d as int);
    lemma_dec_int_parse(d);
    let r = ds + seq![','] + t;
    assert(r.skip(ds.len() + 1int) =~= t);
    lemma_trim_unchanged(ds);
}

/// The strict reading of clean lines, from a state with no `#EXTINF`
/// waiting: the lines come out as they are, with nothing to report.
pub open spec fn reads_back(e: Seq<Seq<char>>, out: Seq<char>) -> bool {
    m3u_run(e, plain_numbers(e.len()), false, 0, M3uState { out: out, warnings: seq![], pending: None }) == Ok::<
        M3uState,
        Seq<char>,
    >(M3uState { out: out + joined(e), warnings: seq![], pending: None })
}

/// A directive line in front of lines that read back reads back too.
proof fn lemma_reads_back_directive(line: Seq<char>, rest: Seq<Seq<char>>, out: Seq<char>)
    requires
        line.len() > 0,
        line[0] == '#',
        !starts_with(line, "#EXTINF:"@),
        reads_back(rest, out + line + seq!['\n']),
    ensures
        reads_back(seq![line] + rest, out),
{
    let e = seq![line] + rest;
    let blank = M3uState { out: out, warnings: seq![], pending: None };
    assert(e[0] == line);
    assert(e.skip(1) =~= rest);
    let s2 = M3uState { out: out + line + seq!['\n'], warnings: seq![], pending: None };
    let ne = plain_numbers(e.len());
    assert(m3u_step(e[0], ne[0], false, blank) == Ok::<M3uState, Seq<char>>(s2));
    lemma_m3u_run_shift(e, ne, 1, 0, s2, plain_numbers(rest.len()));
    lemma_joined_prepend(line, rest);
    assert(out + joined(e) =~= s2.out + joined(rest));
}

/// An entry's two lines in front of lines that read back read back too.
pub proof fn lemma_reads_back_entry(
    d: i64,
    t: Seq<char>,
    line: Seq<char>,
    rest: Seq<Seq<char>>,
    out: Seq<char>,
)
    requires
        pending_clean(Some((d, t))),
        line.len() > 0,
        line[0] != '#',
        normalize_path(line) == Ok::<Seq<char>, Seq<char>>(line),
        reads_back(rest, out + entry_text(d, t, line)),
    ensures
        reads_back(seq![extinf_text(d, t), line] + rest, out),
        joined(seq![extinf_text(d, t), line] + rest) == entry_text(d, t, line) + joined(rest),
{
    reveal_strlit("#EXTINF:");
    lemma_extinf_text(d, t);
    let x = extinf_text(d, t);
    let e = seq![x, line] + rest;
    let blank = M3uState { out: out, warnings: seq![], pending: None };
    assert(e[0] == x && e[1] == line);
    assert(e.skip(2) =~= rest);
    assert(!starts_with(line, "#EXTINF:"@)) by {
        if starts_with(line, "#EXTINF:"@) {
            assert(line.take(8)[0] == line[0]);
        }
    }
    let s1 = M3uState { out: out, warnings: seq![], pending: Some((d, t)) };
    let ne = plain_numbers(e.len());
    assert(m3u_step(e[0], ne[0], false, blank) == Ok::<M3uState, Seq<char>>(s1));
    let s2 = M3uState { out: out + entry_text(d, t, line), warnings: seq![], pending: None };
    assert(m3u_step(e[1], ne[1], false, s1) == Ok::<M3uState, Seq<char>>(s2));
    lemma_m3u_run_shift(e, ne, 2, 0, s2, plain_numbers(rest.len()));
    assert(m3u_run(e, ne, false, 1, s1) == m3u_run(e, ne, false, 2, s2));
    lemma_joined_prepend(line, rest);
    lemma_joined_prepend(x, seq![line] + rest);
    assert(seq![x] + (seq![line] + rest) =~= e);
    assert(joined(e) =~= entry_text(d, t, line) + joined(rest));
    assert(out + joined(e) =~= s2.out + joined(rest));
}

/// The title that a strict `#EXTINF` line gives is clean.
proof fn lemma_parsed_extinf_clean(line: Seq<char>)
    requires
        clean_line(line),
        starts_with(line, "#EXTINF:"@),
        parse_extinf(line.skip("#EXTINF:"@.len() as int)) is Ok,
    ensures
        pending_clean(Some(parse_extinf(line.skip("#EXTINF:"@.len() as int))->Ok_0)),
{
    reveal_strlit("#EXTINF:");
    let rest = line.skip(8);
    let comma = find_seq(rest, seq![',']).unwrap();
    lemma_find_seq(rest, seq![',']);
    let raw = rest.skip(comma + 1);
    assert(free_of(raw, '\n') && free_of(raw, '\r')) by {
        assert forall|k: int| 0 <= k < raw.len() implies raw[k] != '\n' && raw[k] != '\r' by {
            assert(raw[k] == line[8 + comma + 1 + k]);
        }
    }
    lemma_trim_twice(raw, '\n');
    lemma_trim_twice(raw, '\r');
}

/// The `#EXTINF` line written for a clean duration and title is clean.
pub proof fn lemma_extinf_text_clean(d: i64, t: Seq<char>)
    requires
        pending_clean(Some((d, t))),
    ensures
        clean_line(extinf_text(d, t)),
{
    lemma_extinf_text(d, t);
}

/// The path an entry line is written as: as it is when `normalize_path`
/// accepts it, with forward slashes (the lenient repair) otherwise.
pub open spec fn path_as_written(line: Seq<char>) -> Seq<char> {
    match normalize_path(line) {
        Ok(p) => p,
        Err(_) => forward_slashes(line),
    }
}

/// A path that M3U reads back as the entry line it is.
pub open spec fn entry_path_ok(p: Seq<char>) -> bool {
    clean_line(p) && p[0] != '#'
}

proof fn lemma_clean_line_ends(l: Seq<char>)
    requires
        clean_line(l),
    ensures
        !is_ws(l.last()),
{
    if is_ws(l.last()) {
        lemma_trim_end_prefix(l.drop_last());
        assert(trim_end(l) == trim_end(l.drop_last()));
    }
}

/// The written path is accepted by `normalize_path`, and a clean entry line
/// stays one when it is written.
pub proof fn lemma_path_as_written(l: Seq<char>)
    ensures
        normalize_path(path_as_written(l)) == Ok::<Seq<char>, Seq<char>>(path_as_written(l)),
        clean_line(l) && l[0] != '#' ==> entry_path_ok(path_as_written(l)),
{
    let pw = path_as_written(l);
    if normalize_path(l) is Err {
        assert(pw == forward_slashes(l));
        lemma_find_seq(pw, seq!['\\']);
        if find_seq(pw, seq!['\\']) is Some {
            let i = find_seq(pw, seq!['\\'])->Some_0;
            assert(pw.subrange(i, i + 1)[0] == pw[i]);
            assert(pw[i] == '\\');
        }
        if clean_line(l) && l[0] != '#' {
            lemma_clean_line_ends(l);
            assert(pw.last() == pw[pw.len() - 1]);
            assert(!is_ws(pw.last()));
            assert(trim_end(pw) == pw);
        }
    }
}

/// The text after the last `c` is a suffix.
proof fn lemma_after_last_suffix(s: Seq<char>, c: char)
    ensures
        after_last(s, c).len() <= s.len(),
        after_last(s, c) == s.skip(s.len() - after_last(s, c).len()),
    decreases s.len(),
{
    if s.len() > 0 && s.last() != c {
        lemma_after_last_suffix(s.drop_last(), c);
        let a = after_last(s.drop_last(), c);
        assert(a.push(s.last()) =~= s.skip(s.len() - a.len() - 1));
    } else if s.len() > 0 {
        assert(s.skip(s.len() as int) =~= Seq::<char>::empty());
    }
}

/// A title derived from a clean line holds no line break and does not end
/// in whitespace.
pub proof fn lemma_derived_title(p: Seq<char>)
    requires
        clean_line(p),
    ensures
        free_of(derive_title(p), '\n'),
        free_of(derive_title(p), '\r'),
        derive_title(p).len() == 0 || !is_ws(derive_title(p).last()),
{
    lemma_after_last_suffix(p, '/');
    lemma_clean_line_ends(p);
    let t = derive_title(p);
    let off = p.len() - t.len();
    assert forall|k: int| 0 <= k < t.len() implies t[k] != '\n' && t[k] != '\r' by {
        assert(t[k] == p[off + k]);
    }
    if t.len() > 0 {
        assert(t.last() == p[off + t.len() - 1]);
    }
}

/// The duration and title of a repaired `#EXTINF` line are clean.
proof fn lemma_repaired_extinf_clean(line: Seq<char>)
    requires
        clean_line(line),
        starts_with(line, "#EXTINF:"@),
    ensures
        pending_clean(Some(repair_extinf(line.skip("#EXTINF:"@.len() as int)))),
{
    reveal_strlit("#EXTINF:");
    reveal_strlit("Unknown");
    let rest = line.skip(8);
    assert(free_of(rest, '\n') && free_of(rest, '\r')) by {
        assert forall|k: int| 0 <= k < rest.len() implies rest[k] != '\n' && rest[k] != '\r' by {
            assert(rest[k] == line[8 + k]);
        }
    }
    let raw = match find_seq(rest, seq![',']) {
        Some(comma) => rest.skip(comma + 1),
        None => rest,
    };
    lemma_find_seq(rest, seq![',']);
    assert(free_of(raw, '\n') && free_of(raw, '\r')) by {
        if let Some(comma) = find_seq(rest, seq![',']) {
            assert forall|k: int| 0 <= k < raw.len() implies raw[k] != '\n' && raw[k] != '\r' by {
                assert(raw[k] == rest[comma + 1 + k]);
            }
        }
    }
    lemma_trim_twice(raw, '\n');
    lemma_trim_twice(raw, '\r');
    let u: Seq<char> = "Unknown"@;
    assert(clean_title(u)) by {
        lemma_trim_unchanged(u);
    }
}

/// A directive line in front of emitted lines.
proof fn lemma_emit_directive(line: Seq<char>, rest: Seq<Seq<char>>, out: Seq<char>)
    requires
        clean_line(line),
        line[0] == '#',
        !starts_with(line, "#EXTINF:"@),
        all_clean(rest),
        titles_clean(rest) ==> reads_back(rest, out + line + seq!['\n']),
    ensures
        all_clean(seq![line] + rest),
        out + joined(seq![line] + rest) == out + line + seq!['\n'] + joined(rest),
        titles_clean(seq![line] + rest) == titles_clean(rest),
        titles_clean(seq![line] + rest) ==> reads_back(seq![line] + rest, out),
{
    let e = seq![line] + rest;
    lemma_joined_prepend(line, rest);
    assert(out + joined(e) =~= out + line + seq!['\n'] + joined(rest));
    assert forall|i: int| 0 <= i < e.len() implies clean_line(#[trigger] e[i]) by {
        if i > 0 {
            assert(e[i] == rest[i - 1]);
        }
    }
    if titles_clean(e) {
        assert forall|i: int| 0 <= i < rest.len() && starts_with(#[trigger] rest[i], "#EXTINF:"@) implies clean_title(extinf_title(rest[i])) by {
            assert(e[i + 1] == rest[i]);
        }
    }
    if titles_clean(rest) {
        assert forall|i: int| 0 <= i < e.len() && starts_with(#[trigger] e[i], "#EXTINF:"@) implies clean_title(extinf_title(e[i])) by {
            if i > 0 {
                assert(e[i] == rest[i - 1]);
            }
        }
        lemma_reads_back_directive(line, rest, out);
    }
}

/// An entry's two lines in front of emitted lines.
proof fn lemma_emit_entry(d: i64, t: Seq<char>, path: Seq<char>, rest: Seq<Seq<char>>, out: Seq<char>)
    requires
        d >= -1,
        free_of(t, '\n'),
        free_of(t, '\r'),
        t.len() == 0 || !is_ws(t.last()),
        entry_path_ok(path),
        normalize_path(path) == Ok::<Seq<char>, Seq<char>>(path),
        all_clean(rest),
        titles_clean(rest) ==> reads_back(rest, out + entry_text(d, t, path)),
    ensures
        all_clean(seq![extinf_text(d, t), path] + rest),
        out + joined(seq![extinf_text(d, t), path] + rest) == out + entry_text(d, t, path) + joined(
            rest,
        ),
        titles_clean(seq![extinf_text(d, t), path] + rest) == (clean_title(t) && titles_clean(rest)),
        titles_clean(seq![extinf_text(d, t), path] + rest) ==> reads_back(
            seq![extinf_text(d, t), path] + rest,
            out,
        ),
{
    reveal_strlit("#EXTINF:");
    let x = extinf_text(d, t);
    lemma_extinf_parts(d, t);
    let e = seq![x, path] + rest;
    assert(e[0] == x && e[1] == path);
    lemma_joined_prepend(path, rest);
    lemma_joined_prepend(x, seq![path] + rest);
    assert(seq![x] + (seq![path] + rest) =~= e);
    assert(out + joined(e) =~= out + entry_text(d, t, path) + joined(rest));
    assert forall|i: int| 0 <= i < e.len() implies clean_line(#[trigger] e[i]) by {
        if i > 1 {
            assert(e[i] == rest[i - 2]);
        }
    }
    assert(!starts_with(path, "#EXTINF:"@)) by {
        if starts_with(path, "#EXTINF:"@) {
            assert(path.take(8)[0] == path[0]);
        }
    }
    if titles_clean(e) {
        assert(starts_with(e[0], "#EXTINF:"@));
        assert forall|i: int| 0 <= i < rest.len() && starts_with(#[trigger] rest[i], "#EXTINF:"@) implies clean_title(extinf_title(rest[i])) by {
            assert(e[i + 2] == rest[i]);
        }
    }
    if clean_title(t) && titles_clean(rest) {
        assert forall|i: int| 0 <= i < e.len() && starts_with(#[trigger] e[i], "#EXTINF:"@) implies clean_title(extinf_title(e[i])) by {
            if i > 1 {
                assert(e[i] == rest[i - 2]);
            }
        }
        lemma_reads_back_entry(d, t, path, rest, out);
    }
}

/// A successful run writes clean lines `e`, and they read back into the same
/// output wherever every `#EXTINF` line among them carries a clean title,
/// which strict mode always writes.
pub proof fn lemma_m3u_emits(
    lines: Seq<Seq<char>>,
    nums: Seq<nat>,
    lenient: bool,
    idx: nat,
    st: M3uState,
) -> (e: Seq<Seq<char>>)
    requires
        all_clean(lines),
        pending_clean(st.pending),
        m3u_run(lines, nums, lenient, idx, st) is Ok,
    ensures
        all_clean(e),
        m3u_run(lines, nums, lenient, idx, st)->Ok_0.out == st.out + joined(e),
        !lenient ==> titles_clean(e),
        titles_clean(e) ==> reads_back(e, st.out),
    decreases lines.len() - idx,
{
    reveal_strlit("#EXTINF:");
    if idx >= lines.len() {
        let e = Seq::<Seq<char>>::empty();
        assert(st.out + joined(e) =~= st.out);
        e
    } else {
        let line = lines[idx as int];
        assert(clean_line(line));
        let s = m3u_step(line, nums[idx as int], lenient, st)->Ok_0;
        if starts_with(line, "#EXTINF:"@) {
            if parse_extinf(line.skip(8)) is Ok {
                lemma_parsed_extinf_clean(line);
            } else {
                lemma_repaired_extinf_clean(line);
            }
            lemma_m3u_emits(lines, nums, lenient, idx + 1, s)
        } else if line[0] == '#' {
            let rest_e = lemma_m3u_emits(lines, nums, lenient, idx + 1, s);
            lemma_emit_directive(line, rest_e, st.out);
            seq![line] + rest_e
        } else {
            let path = path_as_written(line);
            lemma_path_as_written(line);
            let (d, t) = match st.pending {
                Some((d, t)) => (d, t),
                None => (-1i64, derive_title(path)),
            };
            if st.pending is None {
                lemma_derived_title(path);
            } else {
                lemma_clean_title_ends(t);
            }
            assert(s.out == st.out + entry_text(d, t, path));
            let rest_e = lemma_m3u_emits(lines, nums, lenient, idx + 1, s);
            lemma_emit_entry(d, t, path, rest_e, st.out);
            seq![extinf_text(d, t), path] + rest_e
        }
    }
}

} // verus!
