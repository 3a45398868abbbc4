//! Properties of the formatters as a whole: what every accepted playlist
//! looks like, how strict and lenient mode relate, when lenient mode fails,
//! that blank lines change only line numbers and line endings nothing, and
//! that the output of every formatter is a strict M3U playlist wherever the
//! titles and paths it writes are clean lines.
use vstd::prelude::*;
use crate::m3u::{
    all_clean, clean_line, clean_title, extinf_title, lemma_m3u_emits, lemma_m3u_lines_blank,
    lemma_m3u_lines_clean, lemma_m3u_lines_line_endings, lemma_m3u_lines_of_joined,
    lemma_m3u_run_extends, lemma_m3u_run_lenient, lemma_m3u_run_renumbered, lemma_m3u_run_shift, lemma_m3u_run_strict,
    lemma_repair_extinf, lemma_written_extinf_parses, parse_extinf, repair_extinf,
    m3u_format, m3u_line_numbers, m3u_lines, m3u_run, plain_numbers, m3u_start, m3u_start_idx, reads_back, titles_clean, M3uState,
};
use crate::pls::{
    clean_entries, defines_entry, law_count_check, entries_write_clean, lemma_header_defines_nothing,
    lemma_pls_emit_from_extends, lemma_pls_emit_from_lenient, lemma_pls_emit_from_strict,
    lemma_pls_emits, lemma_pls_lines_free, lemma_pls_run_clean, lemma_pls_run_defines,
    lemma_pls_run_lenient, lemma_pls_run_strict, lemma_skip_blank, pls_body_start, pls_count_check,
    pls_format, pls_has_header, pls_lines, pls_run, pls_start, skip_blank, PlsEntry,
};
use crate::text::{
    dec_int, find_seq, joined, lemma_joined_prepend, lemma_prepare_after_normalize, normalize_newlines,
    starts_with, trim_end,
};
use crate::xml::{element_bodies, element_body};
use crate::xspf::{
    lemma_xspf_emits, lemma_xspf_run_extends, lemma_xspf_run_lenient, lemma_xspf_run_strict,
    track_writes_clean, xspf_doc, xspf_result,
};

verus! {

/// Every playlist that `format` accepts comes out starting with the
/// `#EXTM3U` header line.
pub proof fn law_m3u_output_starts_with_header(input: Seq<char>, lenient: bool)
    ensures
        m3u_format(input, lenient) is Ok ==> starts_with(
            m3u_format(input, lenient)->Ok_0.0,
            "#EXTM3U\n"@,
        ),
{
    let lines = m3u_lines(input);
    if m3u_format(input, lenient) is Ok {
        let st = m3u_start(lines);
        let nums = m3u_line_numbers(input);
        lemma_m3u_run_extends(lines, nums, lenient, m3u_start_idx(lines), st);
        let end = m3u_run(lines, nums, lenient, m3u_start_idx(lines), st)->Ok_0;
        if lenient && end.pending is Some {
            assert(m3u_format(input, lenient)->Ok_0.0 == end.out);
        }
    }
}

/// Lenient M3U normalization never fails: every problem has a repair.
pub proof fn law_m3u_lenient_never_fails(input: Seq<char>)
    ensures
        m3u_format(input, true) is Ok,
{
    let lines = m3u_lines(input);
    lemma_m3u_run_lenient(lines, m3u_line_numbers(input), m3u_start_idx(lines), m3u_start(lines));
}

/// A playlist that strict mode accepts carries no warnings: warnings only
/// ever record the repairs of lenient mode.
pub proof fn law_m3u_strict_has_no_warnings(input: Seq<char>)
    ensures
        m3u_format(input, false) is Ok ==> m3u_format(input, false)->Ok_0.1.len() == 0,
{
    let lines = m3u_lines(input);
    if m3u_format(input, false) is Ok {
        lemma_m3u_run_strict(lines, m3u_line_numbers(input), m3u_start_idx(lines), m3u_start(lines));
    }
}

/// Wherever strict mode accepts a playlist, lenient mode gives exactly the
/// same result.
pub proof fn law_m3u_lenient_agrees_with_strict(input: Seq<char>)
    ensures
        m3u_format(input, false) is Ok ==> m3u_format(input, true) == m3u_format(input, false),
{
    let lines = m3u_lines(input);
    if m3u_format(input, false) is Ok {
        lemma_m3u_run_strict(lines, m3u_line_numbers(input), m3u_start_idx(lines), m3u_start(lines));
    }
}

/// A playlist needs no repair exactly when strict mode accepts it: lenient
/// mode succeeds without a warning if and only if strict mode succeeds.
pub proof fn law_m3u_clean_iff_strict_accepts(input: Seq<char>)
    ensures
        (m3u_format(input, true) is Ok && m3u_format(input, true)->Ok_0.1.len() == 0)
            <==> m3u_format(input, false) is Ok,
{
    let lines = m3u_lines(input);
    let st = m3u_start(lines);
    let idx = m3u_start_idx(lines);
    lemma_m3u_run_lenient(lines, m3u_line_numbers(input), idx, st);
    law_m3u_strict_has_no_warnings(input);
    law_m3u_lenient_agrees_with_strict(input);
}

/// A repaired `#EXTINF` line is always a well-formed one: its duration is
/// -1 or more, its title is not empty, and written back as
/// `<duration>,<title>` it parses to itself. Where the line parses, the
/// repair is the parse.
pub proof fn law_repaired_extinf_reparses(rest: Seq<char>)
    ensures
        repair_extinf(rest).0 >= -1,
        repair_extinf(rest).1.len() > 0,
        parse_extinf(dec_int(repair_extinf(rest).0 as int) + seq![','] + repair_extinf(rest).1)
            == Ok::<(i64, Seq<char>), Seq<char>>(repair_extinf(rest)),
        parse_extinf(rest) is Ok ==> repair_extinf(rest) == parse_extinf(rest)->Ok_0,
{
    lemma_repair_extinf(rest);
    lemma_written_extinf_parses(repair_extinf(rest).0, repair_extinf(rest).1);
}

/// Every playlist that `format_pls` accepts comes out starting with the
/// `#EXTM3U` header line.
pub proof fn law_pls_output_starts_with_header(input: Seq<char>, lenient: bool)
    ensures
        pls_format(input, lenient) is Ok ==> starts_with(
            pls_format(input, lenient)->Ok_0.0,
            "#EXTM3U\n"@,
        ),
{
    let lines = pls_lines(input);
    if pls_format(input, lenient) is Ok {
        let st = pls_run(lines, lenient, pls_body_start(lines), pls_start(lines))->Ok_0;
        let w = pls_count_check(st, lenient)->Ok_0;
        lemma_pls_emit_from_extends(st.entries, lenient, 0, ("#EXTM3U\n"@, w));
    }
}

/// Lenient PLS conversion repairs every problem but one: a playlist with no
/// entries at all is still rejected.
pub proof fn law_pls_lenient_fails_only_without_entries(input: Seq<char>)
    ensures
        pls_format(input, true) is Err ==> pls_format(input, true) == Err::<
            (Seq<char>, Seq<Seq<char>>),
            Seq<char>,
        >("PLS file has no entries"@),
{
    let lines = pls_lines(input);
    lemma_pls_run_lenient(lines, pls_body_start(lines), pls_start(lines));
    let st = pls_run(lines, true, pls_body_start(lines), pls_start(lines))->Ok_0;
    let w = pls_count_check(st, true)->Ok_0;
    lemma_pls_emit_from_lenient(st.entries, 0, ("#EXTM3U\n"@, w));
}

/// Lenient PLS conversion fails exactly when no line defines an entry: no
/// line, split at its first `=`, has a key that (trimmed and lowercased) is
/// `file`, `title` or `length` followed by an index.
pub proof fn law_pls_lenient_fails_exactly_without_entry_keys(input: Seq<char>)
    ensures
        pls_format(input, true) is Err <==> forall|j: int|
            0 <= j < pls_lines(input).len() ==> !defines_entry(#[trigger] pls_lines(input)[j]),
{
    let lines = pls_lines(input);
    let idx = pls_body_start(lines);
    let st0 = pls_start(lines);
    assert(st0.entries.dom() =~= Set::<u32>::empty());
    lemma_pls_run_lenient(lines, idx, st0);
    lemma_pls_run_defines(lines, idx, st0);
    let st = pls_run(lines, true, idx, st0)->Ok_0;
    let w = pls_count_check(st, true)->Ok_0;
    lemma_pls_emit_from_lenient(st.entries, 0, ("#EXTM3U\n"@, w));
    lemma_skip_blank(lines, 0);
    let k = skip_blank(lines, 0);
    assert forall|j: int| 0 <= j < idx implies !defines_entry(#[trigger] lines[j]) by {
        if j < k {
            assert(lines[j].len() == 0);
            assert(find_seq(lines[j], seq!['=']) is None);
        } else {
            lemma_header_defines_nothing(lines[j]);
        }
    }
}

/// The `NumberOfEntries` that strict mode read, if any.
pub open spec fn pls_declared(input: Seq<char>, lenient: bool) -> Option<u32> {
    let lines = pls_lines(input);
    pls_run(lines, lenient, pls_body_start(lines), pls_start(lines))->Ok_0.declared
}

/// Strict PLS conversion succeeds only where `NumberOfEntries` is given and
/// equals the number of entry indices defined, too few as well as too many
/// being an error.
pub proof fn law_pls_strict_count_matches(input: Seq<char>)
    ensures
        pls_format(input, false) is Ok ==> pls_declared(input, false) is Some && pls_declared(
            input,
            false,
        )->Some_0 as nat == pls_entries(input, false).len(),
{
    if pls_format(input, false) is Ok {
        let lines = pls_lines(input);
        let st = pls_run(lines, false, pls_body_start(lines), pls_start(lines))->Ok_0;
        law_count_check(st);
    }
}

/// A PLS playlist that strict mode accepts carries no warnings.
pub proof fn law_pls_strict_has_no_warnings(input: Seq<char>)
    ensures
        pls_format(input, false) is Ok ==> pls_format(input, false)->Ok_0.1.len() == 0,
{
    let lines = pls_lines(input);
    if pls_format(input, false) is Ok {
        lemma_pls_run_strict(lines, pls_body_start(lines), pls_start(lines));
        let st = pls_run(lines, false, pls_body_start(lines), pls_start(lines))->Ok_0;
        let w = pls_count_check(st, false)->Ok_0;
        lemma_pls_emit_from_strict(st.entries, 0, ("#EXTM3U\n"@, w));
    }
}

/// Wherever strict mode accepts a PLS playlist, lenient mode gives exactly
/// the same result.
pub proof fn law_pls_lenient_agrees_with_strict(input: Seq<char>)
    ensures
        pls_format(input, false) is Ok ==> pls_format(input, true) == pls_format(input, false),
{
    let lines = pls_lines(input);
    if pls_format(input, false) is Ok {
        lemma_pls_run_strict(lines, pls_body_start(lines), pls_start(lines));
        let st = pls_run(lines, false, pls_body_start(lines), pls_start(lines))->Ok_0;
        let w = pls_count_check(st, false)->Ok_0;
        assert(pls_count_check(st, true) == pls_count_check(st, false));
        lemma_pls_emit_from_strict(st.entries, 0, ("#EXTM3U\n"@, w));
    }
}

/// A PLS playlist needs no repair exactly when strict mode accepts it:
/// lenient mode succeeds without a warning if and only if strict mode
/// succeeds.
pub proof fn law_pls_clean_iff_strict_accepts(input: Seq<char>)
    ensures
        (pls_format(input, true) is Ok && pls_format(input, true)->Ok_0.1.len() == 0)
            <==> pls_format(input, false) is Ok,
{
    let lines = pls_lines(input);
    let idx = pls_body_start(lines);
    let st0 = pls_start(lines);
    law_pls_strict_has_no_warnings(input);
    law_pls_lenient_agrees_with_strict(input);
    lemma_pls_run_lenient(lines, idx, st0);
    let st = pls_run(lines, true, idx, st0)->Ok_0;
    let w = pls_count_check(st, true)->Ok_0;
    lemma_pls_emit_from_lenient(st.entries, 0, ("#EXTM3U\n"@, w));
    if pls_format(input, true) is Ok && pls_format(input, true)->Ok_0.1.len() == 0 {
        assert(st.warnings.len() <= w.len());
        assert(pls_has_header(lines));
        assert(pls_run(lines, false, idx, st0) == pls_run(lines, true, idx, st0));
        assert(pls_count_check(st, false) == pls_count_check(st, true));
    }
}

/// The tracks that XSPF conversion walks through: those of the
/// `<trackList>`, or of the whole document when there is none.
pub open spec fn xspf_tracks(input: Seq<char>) -> Seq<Seq<char>> {
    let doc = xspf_doc(input);
    match element_body(doc, "trackList"@) {
        Some(b) => element_bodies(b, "track"@),
        None => element_bodies(doc, "track"@),
    }
}

/// The warnings that XSPF conversion starts its tracks with.
pub open spec fn xspf_start_warnings(input: Seq<char>) -> Seq<Seq<char>> {
    if element_body(xspf_doc(input), "trackList"@) is Some {
        seq![]
    } else {
        seq!["missing <trackList> element, scanning the whole document for tracks"@]
    }
}

/// Every playlist that `format_xspf` accepts comes out starting with the
/// `#EXTM3U` header line.
pub proof fn law_xspf_output_starts_with_header(input: Seq<char>, lenient: bool)
    ensures
        xspf_result(input, lenient) matches Some(Ok(o)) ==> starts_with(o.0, "#EXTM3U\n"@),
{
    if xspf_result(input, lenient) matches Some(Ok(_)) {
        lemma_xspf_run_extends(
            xspf_tracks(input),
            lenient,
            0,
            ("#EXTM3U\n"@, xspf_start_warnings(input)),
        );
    }
}

/// Lenient XSPF conversion repairs every problem but one: a document with
/// no `<track>` at all is still rejected.
pub proof fn law_xspf_lenient_fails_only_without_tracks(input: Seq<char>)
    ensures
        xspf_result(input, true) matches Some(Err(m)) ==> m == "XSPF file has no <track> entries"@,
{
    lemma_xspf_run_lenient(xspf_tracks(input), 0, ("#EXTM3U\n"@, xspf_start_warnings(input)));
}

/// An XSPF playlist that strict mode accepts carries no warnings.
pub proof fn law_xspf_strict_has_no_warnings(input: Seq<char>)
    ensures
        xspf_result(input, false) matches Some(Ok(o)) ==> o.1.len() == 0,
{
    if xspf_result(input, false) matches Some(Ok(_)) {
        lemma_xspf_run_strict(xspf_tracks(input), 0, ("#EXTM3U\n"@, xspf_start_warnings(input)));
    }
}

/// Wherever strict mode accepts an XSPF playlist, lenient mode gives exactly
/// the same result.
pub proof fn law_xspf_lenient_agrees_with_strict(input: Seq<char>)
    ensures
        xspf_result(input, false) matches Some(Ok(_)) ==> xspf_result(input, true) == xspf_result(
            input,
            false,
        ),
{
    if xspf_result(input, false) matches Some(Ok(_)) {
        lemma_xspf_run_strict(xspf_tracks(input), 0, ("#EXTM3U\n"@, xspf_start_warnings(input)));
    }
}

/// An XSPF playlist needs no repair exactly when strict mode accepts it:
/// lenient mode succeeds without a warning if and only if strict mode
/// succeeds.
pub proof fn law_xspf_clean_iff_strict_accepts(input: Seq<char>)
    ensures
        (xspf_result(input, true) matches Some(Ok(o)) && o.1.len() == 0) <==> xspf_result(
            input,
            false,
        ) matches Some(Ok(_)),
{
    law_xspf_strict_has_no_warnings(input);
    law_xspf_lenient_agrees_with_strict(input);
    lemma_xspf_run_lenient(xspf_tracks(input), 0, ("#EXTM3U\n"@, xspf_start_warnings(input)));
}

/// A text made of the header line and clean lines is read as those lines;
/// where they read back, strict mode gives the text back unchanged, without
/// a warning.
proof fn lemma_clean_playlist(e: Seq<Seq<char>>)
    requires
        all_clean(e),
    ensures
        m3u_lines("#EXTM3U\n"@ + joined(e)) == seq!["#EXTM3U"@] + e,
        reads_back(e, "#EXTM3U\n"@) ==> m3u_format("#EXTM3U\n"@ + joined(e), false) == Ok::<
            (Seq<char>, Seq<Seq<char>>),
            Seq<char>,
        >(("#EXTM3U\n"@ + joined(e), seq![])),
{
    reveal_strlit("#EXTM3U");
    reveal_strlit("#EXTM3U\n");
    let out = "#EXTM3U\n"@ + joined(e);
    let header: Seq<char> = "#EXTM3U"@;
    let l2 = seq![header] + e;
    lemma_joined_prepend(header, e);
    assert(joined(l2) =~= out);
    assert(clean_line(header)) by {
        assert(trim_end(header) == header);
    }
    assert(all_clean(l2)) by {
        assert forall|i: int| 0 <= i < l2.len() implies clean_line(#[trigger] l2[i]) by {
            if i > 0 {
                assert(l2[i] == e[i - 1]);
            }
        }
    }
    assert(l2[0][0] == '#');
    lemma_m3u_lines_of_joined(l2);
    assert(m3u_lines(out) == l2);
    assert(l2.skip(1) =~= e);
    let start2 = M3uState { out: "#EXTM3U\n"@, warnings: seq![], pending: None };
    assert(m3u_start(l2) == start2);
    if reads_back(e, "#EXTM3U\n"@) {
        lemma_m3u_run_shift(l2, m3u_line_numbers(out), 1, 0, start2, plain_numbers(e.len()));
    }
}

/// What strict mode produces is itself a clean playlist: normalizing it
/// again in strict mode accepts it, leaves it exactly as it is and reports
/// no warning.
pub proof fn law_m3u_strict_output_is_a_fixed_point(input: Seq<char>)
    ensures
        m3u_format(input, false) is Ok ==> m3u_format(m3u_format(input, false)->Ok_0.0, false)
            == Ok::<(Seq<char>, Seq<Seq<char>>), Seq<char>>(
            (m3u_format(input, false)->Ok_0.0, seq![]),
        ),
{
    if m3u_format(input, false) is Ok {
        let lines = m3u_lines(input);
        lemma_m3u_lines_clean(input);
        let e = lemma_m3u_emits(lines, m3u_line_numbers(input), false, 1, m3u_start(lines));
        lemma_clean_playlist(e);
    }
}

/// What M3U normalization produces, in either mode, is a strict M3U
/// playlist that strict mode gives back unchanged and without a warning,
/// wherever each `#EXTINF` line of it carries a clean title. Strict mode
/// always writes such titles; lenient mode may not, where it derives a
/// title from a path (`songs/` gives an empty one, `a/ b` one that starts
/// with a space).
pub proof fn law_m3u_output_is_a_fixed_point(input: Seq<char>, lenient: bool)
    ensures
        m3u_format(input, lenient) is Ok && titles_clean(
            m3u_lines(m3u_format(input, lenient)->Ok_0.0),
        ) ==> m3u_format(m3u_format(input, lenient)->Ok_0.0, false) == Ok::<
            (Seq<char>, Seq<Seq<char>>),
            Seq<char>,
        >((m3u_format(input, lenient)->Ok_0.0, seq![])),
{
    if m3u_format(input, lenient) is Ok && titles_clean(
        m3u_lines(m3u_format(input, lenient)->Ok_0.0),
    ) {
        let lines = m3u_lines(input);
        lemma_m3u_lines_clean(input);
        let e = lemma_m3u_emits(
            lines,
            m3u_line_numbers(input),
            lenient,
            m3u_start_idx(lines),
            m3u_start(lines),
        );
        lemma_clean_playlist(e);
        let l2 = seq!["#EXTM3U"@] + e;
        assert(titles_clean(e)) by {
            assert forall|i: int| 0 <= i < e.len() && starts_with(#[trigger] e[i], "#EXTINF:"@) implies clean_title(extinf_title(e[i])) by {
                assert(l2[i + 1] == e[i]);
            }
        }
    }
}

/// The entries that the key=value lines of a PLS playlist define.
pub open spec fn pls_entries(input: Seq<char>, lenient: bool) -> Map<u32, PlsEntry> {
    let lines = pls_lines(input);
    pls_run(lines, lenient, pls_body_start(lines), pls_start(lines))->Ok_0.entries
}

/// What PLS conversion produces, in either mode, is a strict M3U playlist
/// that strict M3U normalization gives back unchanged and without a
/// warning, wherever every entry writes clean lines: its `FileN` value is
/// not empty and does not start with `#` (`File1=#x.mp3` reads as a
/// directive), and a title derived from the path is clean.
pub proof fn law_pls_output_is_clean_m3u(input: Seq<char>, lenient: bool)
    ensures
        pls_format(input, lenient) is Ok && entries_write_clean(pls_entries(input, lenient))
            ==> m3u_format(pls_format(input, lenient)->Ok_0.0, false) == Ok::<
            (Seq<char>, Seq<Seq<char>>),
            Seq<char>,
        >((pls_format(input, lenient)->Ok_0.0, seq![])),
{
    if pls_format(input, lenient) is Ok && entries_write_clean(pls_entries(input, lenient)) {
        let lines = pls_lines(input);
        lemma_pls_lines_free(input);
        let st0 = pls_start(lines);
        assert(clean_entries(st0.entries));
        lemma_pls_run_clean(lines, lenient, pls_body_start(lines), st0);
        let st = pls_run(lines, lenient, pls_body_start(lines), st0)->Ok_0;
        let w = pls_count_check(st, lenient)->Ok_0;
        let e = lemma_pls_emits(st.entries, lenient, 0, ("#EXTM3U\n"@, w));
        lemma_clean_playlist(e);
    }
}

/// Every track that XSPF conversion walks through writes clean lines.
pub open spec fn tracks_write_clean(input: Seq<char>) -> bool {
    forall|j: int|
        0 <= j < xspf_tracks(input).len() ==> track_writes_clean(#[trigger] xspf_tracks(input)[j])
}

/// What XSPF conversion produces, in either mode, is a strict M3U playlist
/// that strict M3U normalization gives back unchanged and without a
/// warning, wherever every track writes clean lines (a title such as
/// `&#10;x` or a location ending in `/`, whose derived title is empty, does
/// not).
pub proof fn law_xspf_output_is_clean_m3u(input: Seq<char>, lenient: bool)
    ensures
        xspf_result(input, lenient) is Some && xspf_result(input, lenient)->Some_0 is Ok
            && tracks_write_clean(input) ==> m3u_format(
            xspf_result(input, lenient)->Some_0->Ok_0.0,
            false,
        ) == Ok::<(Seq<char>, Seq<Seq<char>>), Seq<char>>(
            (xspf_result(input, lenient)->Some_0->Ok_0.0, seq![]),
        ),
{
    if xspf_result(input, lenient) is Some && xspf_result(input, lenient)->Some_0 is Ok
        && tracks_write_clean(input) {
        let e = lemma_xspf_emits(
            xspf_tracks(input),
            lenient,
            0,
            ("#EXTM3U\n"@, xspf_start_warnings(input)),
        );
        lemma_clean_playlist(e);
    }
}

/// Blank lines change nothing but line numbers: with an extra line break
/// anywhere, the same lines are read, and the result is the same apart from
/// the line numbers in its messages (it succeeds exactly when the other
/// does, with the same output and as many warnings).
pub proof fn law_m3u_blank_lines_do_not_matter(a: Seq<char>, b: Seq<char>, lenient: bool)
    ensures
        m3u_lines(a + seq!['\n', '\n'] + b) == m3u_lines(a + seq!['\n'] + b),
        m3u_format(a + seq!['\n', '\n'] + b, lenient) is Ok == m3u_format(a + seq!['\n'] + b, lenient) is Ok,
        m3u_format(a + seq!['\n', '\n'] + b, lenient) is Ok ==> m3u_format(
            a + seq!['\n', '\n'] + b,
            lenient,
        )->Ok_0.0 == m3u_format(a + seq!['\n'] + b, lenient)->Ok_0.0 && m3u_format(
            a + seq!['\n', '\n'] + b,
            lenient,
        )->Ok_0.1.len() == m3u_format(a + seq!['\n'] + b, lenient)->Ok_0.1.len(),
{
    let x3 = a + seq!['\n', '\n'] + b;
    let x2 = a + seq!['\n'] + b;
    lemma_m3u_lines_blank(a, b);
    let lines = m3u_lines(x2);
    lemma_m3u_run_renumbered(
        lines,
        m3u_line_numbers(x3),
        m3u_line_numbers(x2),
        lenient,
        m3u_start_idx(lines),
        m3u_start(lines),
        m3u_start(lines),
    );
}

/// CRLF and lone CR line endings give the same result as LF.
pub proof fn law_m3u_line_endings_do_not_matter(input: Seq<char>, lenient: bool)
    ensures
        m3u_format(normalize_newlines(input), lenient) == m3u_format(input, lenient),
{
    lemma_m3u_lines_line_endings(input);
}

/// CRLF and lone CR line endings give the same PLS result as LF.
pub proof fn law_pls_line_endings_do_not_matter(input: Seq<char>, lenient: bool)
    ensures
        pls_format(normalize_newlines(input), lenient) == pls_format(input, lenient),
{
    lemma_prepare_after_normalize(input);
}

} // verus!
