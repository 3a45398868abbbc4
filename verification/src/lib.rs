//! Normalization of M3U, PLS and XSPF playlists into strict M3U.
use vstd::prelude::*;

pub mod text;
pub mod m3u;
pub mod detect;
pub mod pls;
pub mod xml;
pub mod xspf;
pub mod paths;
pub mod batch;
pub mod laws;

use m3u::{
    m3u_format, m3u_has_header, m3u_line_numbers, m3u_lines, m3u_lines_exec, m3u_run, numbers_view, m3u_start, m3u_start_idx,
    m3u_state, m3u_step_exec, string_of,
};
use text::{
    copy_range, eq_ignore_case_chars, lower_chars, starts_with_chars, str_chars, strip_bom_chars,
    views,
};
use std::collections::BTreeMap;
use pls::{
    PlsSlot, pls_body_start, pls_count_check_exec, pls_emit_all, pls_format, pls_has_header,
    pls_line_exec, pls_lines, pls_lines_exec, pls_run, pls_start, pls_state, skip_blank,
    slots_view,
};
use xml::{element_bodies_exec, element_body_exec, strip_comments_exec};
use xspf::{xspf_doc, xspf_format, xspf_result, xspf_run, xspf_track_exec};
use detect::{detect_format, first_content_line_exec, has_extension, sniff_format_exec};

verus! {

/// Behavior switches for the formatters. Strict is the default; `lenient`
/// repairs problems (and reports each repair) instead of rejecting the input.
pub struct Options {
    pub lenient: bool,
}

/// A normalized playlist and the repairs that were applied to produce it.
pub struct FormatResult {
    pub output: String,
    /// Non-empty only in lenient mode: each repair that was applied.
    pub warnings: Vec<String>,
}

/// Why a playlist was rejected.
#[derive(Debug)]
pub struct FormatError {
    pub message: String,
}

/// Which of the supported playlist formats an input file is written in.
#[derive(Debug, PartialEq, Eq)]
pub enum InputFormat {
    M3u,
    Pls,
    Xspf,
}

/// What a formatter produces, in terms of characters: the output text and
/// the warnings, or the error message.
pub type Outcome = Result<(Seq<char>, Seq<Seq<char>>), Seq<char>>;

/// The character sequences held by a vector of strings.
pub open spec fn string_views(v: Seq<String>) -> Seq<Seq<char>> {
    v.map_values(|s: String| s@)
}

/// The outcome that a formatter call returned.
pub open spec fn outcome(r: Result<FormatResult, FormatError>) -> Outcome {
    match r {
        Ok(fr) => Ok((fr.output@, string_views(fr.warnings@))),
        Err(e) => Err(e.message@),
    }
}

/// Normalizes `input` into a strict M3U playlist: a leading `#EXTM3U` line,
/// one `#EXTINF:<duration>,<title>` line per entry, and one path/URI line
/// per entry, with consistent slashes and no stray blank lines.
///
/// In strict mode any deviation from that shape is a `FormatError`. In
/// lenient mode the same deviations are repaired and recorded as warnings.
pub fn format(input: &str, opts: &Options) -> (r: Result<FormatResult, FormatError>)
    ensures
        outcome(r) == m3u_format(input@, opts.lenient),
{
    let lenient = opts.lenient;
    let (lines, nums) = m3u_lines_exec(input);
    let ghost spec_nums = m3u_line_numbers(input@);
    let ghost spec_lines = m3u_lines(input@);
    let header = str_chars("#EXTM3U");
    let has_header = lines.len() > 0 && lines[0].len() == header.len() && starts_with_chars(
        lines[0].as_slice(),
        header.as_slice(),
    );
    proof {
        if lines@.len() > 0 {
            assert(spec_lines[0] == lines@[0]@);
            if lines@[0]@.len() == header@.len() {
                assert(lines@[0]@.take(header@.len() as int) =~= lines@[0]@);
            }
        }
    }
    assert(has_header == m3u_has_header(spec_lines));
    let mut warnings: Vec<String> = Vec::new();
    if !has_header {
        if lenient {
            warnings.push(string_of("missing #EXTM3U header, inserted one"));
        } else {
            return Err(FormatError { message: string_of("playlist is missing the #EXTM3U header") });
        }
    }
    let mut out = string_of("#EXTM3U\n");
    let mut pending: Option<(i64, Vec<char>)> = None;
    let mut idx: usize = if has_header {
        1
    } else {
        0
    };
    assert(string_views(warnings@) =~= m3u_start(spec_lines).warnings);
    assert(m3u_state(out@, warnings@, pending) == m3u_start(spec_lines));
    let ghost whole = m3u_run(spec_lines, spec_nums, lenient, m3u_start_idx(spec_lines), m3u_start(spec_lines));
    while idx < lines.len()
        invariant
            idx <= lines@.len(),
            lenient == opts.lenient,
            spec_lines == m3u_lines(input@),
            m3u_has_header(spec_lines) || lenient,
            whole == m3u_run(spec_lines, spec_nums, lenient, m3u_start_idx(spec_lines), m3u_start(spec_lines)),
            views(lines@) == spec_lines,
            spec_nums == m3u_line_numbers(input@),
            numbers_view(nums@) == spec_nums,
            lines@.len() == nums@.len(),
            whole == m3u_run(spec_lines, spec_nums, lenient, idx as nat, m3u_state(out@, warnings@, pending)),
        decreases lines@.len() - idx,
    {
        let line_no: usize = nums[idx];
        assert(spec_nums[idx as int] == line_no as nat);
        assert(lines@[idx as int]@ == spec_lines[idx as int]);
        let ghost before = m3u_state(out@, warnings@, pending);
        match m3u_step_exec(lines[idx].as_slice(), line_no, lenient, &mut out, &mut warnings, &mut pending) {
            Ok(()) => {},
            Err(m) => {
                assert(m3u_run(spec_lines, spec_nums, lenient, idx as nat, before) == Err::<m3u::M3uState, Seq<char>>(m@));
                return Err(FormatError { message: m });
            },
        }
        idx += 1;
    }
    if pending.is_some() {
        let msg = string_of("playlist ends with a dangling #EXTINF and no entry");
        if lenient {
            let ghost before = warnings@;
            warnings.push(msg);
            assert(string_views(warnings@) =~= string_views(before).push(msg@));
        } else {
            return Err(FormatError { message: msg });
        }
    }
    Ok(FormatResult { output: out, warnings: warnings })
}

/// Picks a format from the file extension, falling back to sniffing the
/// first non-blank line for stdin or extensionless paths. PLS's only
/// reliable signature is the `[playlist]` section header, XSPF's is an XML
/// declaration or a `<playlist` root tag; everything else is assumed to be
/// M3U, since that's already the tolerant default.
pub fn detect_input_format(path: &str, content: &str) -> (r: InputFormat)
    ensures
        r == detect_format(path@, content@),
{
    let path_chars = str_chars(path);
    let lower_path = lower_chars(path_chars.as_slice());
    if has_extension(lower_path.as_slice(), ".pls") {
        return InputFormat::Pls;
    }
    if has_extension(lower_path.as_slice(), ".xspf") {
        return InputFormat::Xspf;
    }
    if has_extension(lower_path.as_slice(), ".m3u") || has_extension(lower_path.as_slice(), ".m3u8") {
        return InputFormat::M3u;
    }
    sniff_format_exec(first_content_line_exec(content))
}

/// Normalizes a PLS playlist into the same strict M3U output `format`
/// produces, so downstream consumers never need to care which format the
/// input arrived in.
pub fn format_pls(input: &str, opts: &Options) -> (r: Result<FormatResult, FormatError>)
    ensures
        outcome(r) == pls_format(input@, opts.lenient),
{
    let lenient = opts.lenient;
    let lines = pls_lines_exec(input);
    let ghost sl = pls_lines(input@);
    let mut idx: usize = 0;
    while idx < lines.len() && lines[idx].len() == 0
        invariant
            idx <= lines@.len(),
            views(lines@) == sl,
            skip_blank(sl, 0) == skip_blank(sl, idx as nat),
        decreases lines@.len() - idx,
    {
        assert(sl[idx as int] == lines@[idx as int]@);
        idx += 1;
    }
    proof {
        if idx < lines@.len() {
            assert(sl[idx as int] == lines@[idx as int]@);
        }
    }
    assert(skip_blank(sl, 0) == idx);
    let header = str_chars("[playlist]");
    let has_header = idx < lines.len() && eq_ignore_case_chars(lines[idx].as_slice(), header.as_slice());
    proof {
        if idx < lines@.len() {
            assert(sl[idx as int] == lines@[idx as int]@);
        }
    }
    assert(has_header == pls_has_header(sl));
    let mut warnings: Vec<String> = Vec::new();
    if has_header {
        idx += 1;
    } else if lenient {
        warnings.push(string_of("missing [playlist] header, assumed one"));
    } else {
        return Err(FormatError { message: string_of("PLS file is missing the [playlist] header") });
    }
    let mut entries: BTreeMap<u32, PlsSlot> = BTreeMap::new();
    let mut declared: Option<u32> = None;
    assert(string_views(warnings@) =~= pls_start(sl).warnings);
    assert(slots_view(entries@) =~= Map::empty());
    assert(pls_state(entries@, declared, warnings@) == pls_start(sl));
    let ghost whole = pls_run(sl, lenient, pls_body_start(sl), pls_start(sl));
    while idx < lines.len()
        invariant
            idx <= lines@.len(),
            lenient == opts.lenient,
            views(lines@) == sl,
            sl == pls_lines(input@),
            pls_has_header(sl) || lenient,
            whole == pls_run(sl, lenient, pls_body_start(sl), pls_start(sl)),
            whole == pls_run(sl, lenient, idx as nat, pls_state(entries@, declared, warnings@)),
        decreases lines@.len() - idx,
    {
        assert(sl[idx as int] == lines@[idx as int]@);
        if lines[idx].len() > 0 {
            let ghost before = pls_state(entries@, declared, warnings@);
            match pls_line_exec(lines[idx].as_slice(), idx + 1, lenient, &mut entries, &mut declared, &mut warnings) {
                Ok(()) => {},
                Err(m) => {
                    assert(pls_run(sl, lenient, idx as nat, before) == Err::<pls::PlsState, Seq<char>>(m@));
                    return Err(FormatError { message: m });
                },
            }
        }
        idx += 1;
    }
    let ghost end = pls_state(entries@, declared, warnings@);
    match pls_count_check_exec(&entries, declared, lenient, &mut warnings) {
        Ok(()) => {},
        Err(m) => {
            return Err(FormatError { message: m });
        },
    }
    assert(slots_view(entries@).dom() =~= entries@.dom());
    if entries.is_empty() {
        return Err(FormatError { message: string_of("PLS file has no entries") });
    }
    let mut out = string_of("#EXTM3U\n");
    match pls_emit_all(&entries, lenient, &mut out, &mut warnings) {
        Ok(()) => {},
        Err(m) => {
            return Err(FormatError { message: m });
        },
    }
    Ok(FormatResult { output: out, warnings: warnings })
}

/// Normalizes an XSPF (XML Shareable Playlist Format) playlist into the same
/// strict M3U output `format` produces. It scans by hand for the handful of
/// elements a playlist actually uses rather than parsing general XML.
///
/// A `file://` location whose percent-escapes end inside a multi-byte
/// character cannot be decoded; such inputs are outside this function's
/// contract (see `try_format_xspf`).
pub fn format_xspf(input: &str, opts: &Options) -> (r: Result<FormatResult, FormatError>)
    requires
        xspf_result(input@, opts.lenient) is Some,
    ensures
        outcome(r) == xspf_format(input@, opts.lenient),
{
    match try_format_xspf(input, opts) {
        Some(r) => r,
        None => {
            assert(false);
            Err(FormatError { message: String::new() })
        },
    }
}

/// `format_xspf` on any input: `None` exactly where a `file://` location
/// cannot be percent-decoded, otherwise what `format_xspf` returns.
pub fn try_format_xspf(input: &str, opts: &Options) -> (r: Option<Result<FormatResult, FormatError>>)
    ensures
        match xspf_result(input@, opts.lenient) {
            None => r is None,
            Some(o) => r matches Some(x) && outcome(x) == o,
        },
{
    let lenient = opts.lenient;
    let chars = str_chars(input);
    let no_bom = strip_bom_chars(chars.as_slice());
    let doc = strip_comments_exec(no_bom.as_slice());
    assert(doc@ == xspf_doc(input@));
    let ghost list = xml::element_body(doc@, "trackList"@);
    let mut warnings: Vec<String> = Vec::new();
    let scanned: Vec<char> = match element_body_exec(doc.as_slice(), "trackList") {
        Some(b) => b,
        None => {
            if lenient {
                warnings.push(
                    string_of("missing <trackList> element, scanning the whole document for tracks"),
                );
                copy_range(doc.as_slice(), 0, doc.len())
            } else {
                return Some(
                    Err(FormatError { message: string_of("XSPF file is missing a <trackList> element") }),
                );
            }
        },
    };
    assert(scanned@ == (match list {
        Some(b) => b,
        None => doc@,
    }));
    let ghost w0 = string_views(warnings@);
    assert(w0 =~= (if list is Some {
        seq![]
    } else {
        seq!["missing <trackList> element, scanning the whole document for tracks"@]
    }));
    let tracks = element_bodies_exec(scanned.as_slice(), "track");
    if tracks.len() == 0 {
        return Some(Err(FormatError { message: string_of("XSPF file has no <track> entries") }));
    }
    let mut out = string_of("#EXTM3U\n");
    let ghost sv = views(tracks@);
    let ghost whole = xspf_run(sv, lenient, 0, (out@, w0));
    assert(whole == xspf_result(input@, lenient));
    let mut i: usize = 0;
    while i < tracks.len()
        invariant
            i <= tracks@.len(),
            sv == views(tracks@),
            lenient == opts.lenient,
            whole == xspf_result(input@, lenient),
            whole == xspf_run(sv, lenient, i as nat, (out@, string_views(warnings@))),
        decreases tracks@.len() - i,
    {
        assert(sv[i as int] == tracks@[i as int]@);
        let ghost before: pls::Written = (out@, string_views(warnings@));
        match xspf_track_exec(tracks[i].as_slice(), i + 1, lenient, &mut out, &mut warnings) {
            Some(Ok(())) => {},
            Some(Err(m)) => {
                assert(xspf_run(sv, lenient, i as nat, before) == Some(Err::<(Seq<char>, Seq<Seq<char>>), Seq<char>>(m@)));
                return Some(Err(FormatError { message: m }));
            },
            None => {
                assert(xspf_run(sv, lenient, i as nat, before) is None);
                return None;
            },
        }
        i += 1;
    }
    Some(Ok(FormatResult { output: out, warnings: warnings }))
}

/// Formats `content` as the format `detect_input_format` picks for it:
/// `None` exactly where that is XSPF and a `file://` location in it cannot be
/// percent-decoded (see `try_format_xspf`).
pub fn process_content(content: &str, display_path: &str, opts: &Options) -> (r: Option<
    Result<FormatResult, FormatError>,
>)
    ensures
        match detect_format(display_path@, content@) {
            InputFormat::M3u => r matches Some(x) && outcome(x) == m3u_format(content@, opts.lenient),
            InputFormat::Pls => r matches Some(x) && outcome(x) == pls_format(content@, opts.lenient),
            InputFormat::Xspf => match xspf_result(content@, opts.lenient) {
                None => r is None,
                Some(o) => r matches Some(x) && outcome(x) == o,
            },
        },
{
    match detect_input_format(display_path, content) {
        InputFormat::M3u => Some(format(content, opts)),
        InputFormat::Pls => Some(format_pls(content, opts)),
        InputFormat::Xspf => try_format_xspf(content, opts),
    }
}

} // verus!
