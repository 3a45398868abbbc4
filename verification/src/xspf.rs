//! Normalization of XSPF playlists (`<trackList>` of `<track>` elements with
//! `<location>`, `<title>` and `<duration>`) into strict M3U.
use vstd::prelude::*;
use crate::{Outcome, string_views};
use crate::m3u::{
    all_clean, clean_line, clean_title, derive_title, derive_title_exec, entry_path_ok,
    entry_text, extinf_text, forward_slashes, lemma_extinf_text_clean, lemma_path_as_written,
    lemma_reads_back_entry, normalize_path, normalize_path_exec, path_as_written, push_entry,
    reads_back,
};
use crate::pls::Written;
use crate::text::{
    dec_nat, joined, parse_i64, parse_i64_chars, push_chars, replace_char_chars, trim, trim_chars,
};
use crate::xml::{
    decode_entities, decode_entities_exec, element_bodies, element_body, element_body_exec,
    strip_file_uri, strip_file_uri_exec,
};

verus! {

/// The document the XSPF reader scans: the input without a byte order mark
/// and without XML comments.
pub open spec fn xspf_doc(input: Seq<char>) -> Seq<char> {
    crate::xml::strip_comments(crate::text::strip_bom(input))
}

pub open spec fn msg_no_location(n: nat) -> Seq<char> {
    "track "@ + dec_nat(n) + " has no <location> element"@
}

pub open spec fn msg_bad_duration(n: nat, d: Seq<char>) -> Seq<char> {
    "track "@ + dec_nat(n) + " has a non-numeric or negative <duration> ("@ + d + ")"@
}

/// The title of a track: its `<title>`, trimmed and decoded, or one derived
/// from its path.
pub open spec fn track_title(body: Seq<char>, path: Seq<char>) -> Seq<char> {
    match element_body(body, "title"@) {
        Some(t) => if trim(t).len() > 0 {
            decode_entities(trim(t))
        } else {
            derive_title(path)
        },
        None => derive_title(path),
    }
}

/// The duration of track `n` in whole seconds: its `<duration>` in
/// milliseconds divided by 1000, or -1 when there is none. A duration that
/// is not a non-negative integer is an error (-1 in lenient mode).
pub open spec fn track_duration(body: Seq<char>, n: nat, lenient: bool, w: Seq<Seq<char>>) -> Result<
    (i64, Seq<Seq<char>>),
    Seq<char>,
> {
    match element_body(body, "duration"@) {
        Some(d) => if trim(d).len() > 0 {
            match parse_i64(trim(d)) {
                Some(ms) => if ms >= 0 {
                    Ok(((ms / 1000) as i64, w))
                } else if lenient {
                    Ok((-1i64, w.push(msg_bad_duration(n, trim(d)))))
                } else {
                    Err(msg_bad_duration(n, trim(d)))
                },
                None => if lenient {
                    Ok((-1i64, w.push(msg_bad_duration(n, trim(d)))))
                } else {
                    Err(msg_bad_duration(n, trim(d)))
                },
            }
        } else {
            Ok((-1i64, w))
        },
        None => Ok((-1i64, w)),
    }
}

/// Writes track `n`, whose location has become the path `raw`.
pub open spec fn xspf_entry(raw: Seq<char>, body: Seq<char>, n: nat, lenient: bool, acc: Written) -> Result<
    Written,
    Seq<char>,
> {
    let checked: Result<(Seq<char>, Seq<Seq<char>>), Seq<char>> = match normalize_path(raw) {
        Ok(p) => Ok((p, acc.1)),
        Err(reason) => if lenient {
            Ok(
                (
                    forward_slashes(raw),
                    acc.1.push("repaired path for track "@ + dec_nat(n) + " ("@ + reason + ")"@),
                ),
            )
        } else {
            Err("invalid path for track "@ + dec_nat(n) + ": "@ + reason)
        },
    };
    match checked {
        Err(m) => Err(m),
        Ok((path, w1)) => match track_duration(body, n, lenient, w1) {
            Err(m) => Err(m),
            Ok((d, w2)) => Ok((acc.0 + entry_text(d, track_title(body, path), path), w2)),
        },
    }
}

/// The location of a track, trimmed and decoded, when it has a non-blank one.
pub open spec fn track_location(body: Seq<char>) -> Option<Seq<char>> {
    match element_body(body, "location"@) {
        Some(l) => if trim(l).len() > 0 {
            Some(decode_entities(trim(l)))
        } else {
            None
        },
        None => None,
    }
}

/// Track number `n` (counted from 1). `None` where its `file://` location
/// cannot be decoded.
pub open spec fn xspf_track(body: Seq<char>, n: nat, lenient: bool, acc: Written) -> Option<
    Result<Written, Seq<char>>,
> {
    match track_location(body) {
        None => Some(
            if lenient {
                Ok((acc.0, acc.1.push(msg_no_location(n))))
            } else {
                Err(msg_no_location(n))
            },
        ),
        Some(location) => match strip_file_uri(location) {
            None => None,
            Some(raw) => Some(xspf_entry(raw, body, n, lenient, acc)),
        },
    }
}

/// The tracks from index `i` on.
pub open spec fn xspf_run(tracks: Seq<Seq<char>>, lenient: bool, i: nat, acc: Written) -> Option<
    Outcome,
>
    decreases tracks.len() - i,
{
    if i >= tracks.len() {
        Some(Ok(acc))
    } else {
        match xspf_track(tracks[i as int], i + 1, lenient, acc) {
            None => None,
            Some(Err(m)) => Some(Err(m)),
            Some(Ok(a)) => xspf_run(tracks, lenient, i + 1, a),
        }
    }
}

/// Normalizing an XSPF playlist into the same strict M3U output `format`
/// produces, one entry per `<track>` of the `<trackList>` (of the whole
/// document in lenient mode, when it has no `<trackList>`). `None` where a
/// `file://` location cannot be percent-decoded (its two bytes after a `%`
/// end inside a character).
pub open spec fn xspf_result(input: Seq<char>, lenient: bool) -> Option<Outcome> {
    let doc = xspf_doc(input);
    let list = element_body(doc, "trackList"@);
    if list is None && !lenient {
        Some(Err("XSPF file is missing a <trackList> element"@))
    } else {
        let scanned = match list {
            Some(b) => b,
            None => doc,
        };
        let w0: Seq<Seq<char>> = if list is Some {
            seq![]
        } else {
            seq!["missing <trackList> element, scanning the whole document for tracks"@]
        };
        let tracks = element_bodies(scanned, "track"@);
        if tracks.len() == 0 {
            Some(Err("XSPF file has no <track> entries"@))
        } else {
            xspf_run(tracks, lenient, 0, ("#EXTM3U\n"@, w0))
        }
    }
}

/// The outcome of normalizing an XSPF playlist (see `xspf_result`).
pub open spec fn xspf_format(input: Seq<char>, lenient: bool) -> Outcome {
    xspf_result(input, lenient).unwrap()
}

fn push_warning(warnings: &mut Vec<String>, msg: String)
    ensures
        string_views(final(warnings)@) == string_views(old(warnings)@).push(msg@),
{
    warnings.push(msg);
    assert(string_views(final(warnings)@) =~= string_views(old(warnings)@).push(msg@));
}

fn track_title_exec(body: &[char], path: &[char]) -> (r: Vec<char>)
    ensures
        r@ == track_title(body@, path@),
{
    match element_body_exec(body, "title") {
        Some(t) => {
            let tt = trim_chars(t.as_slice());
            if tt.len() > 0 {
                decode_entities_exec(tt.as_slice())
            } else {
                derive_title_exec(path)
            }
        },
        None => derive_title_exec(path),
    }
}

fn track_duration_exec(body: &[char], n: usize, lenient: bool, warnings: &mut Vec<String>) -> (r: Result<i64, String>)
    ensures
        match track_duration(body@, n as nat, lenient, string_views(old(warnings)@)) {
            Ok((d, w)) => r == Ok::<i64, String>(d) && string_views(final(warnings)@) == w,
            Err(m) => r matches Err(e) && e@ == m,
        },
{
    match element_body_exec(body, "duration") {
        Some(d) => {
            let td = trim_chars(d.as_slice());
            if td.len() > 0 {
                let parsed = parse_i64_chars(td.as_slice());
                match parsed {
                    Some(ms) => {
                        if ms >= 0 {
                            return Ok(ms / 1000);
                        }
                    },
                    None => {},
                }
                let mut m = crate::m3u::line_msg("track ", n as u64, " has a non-numeric or negative <duration> (");
                push_chars(&mut m, td.as_slice());
                m.append(")");
                if lenient {
                    push_warning(warnings, m);
                    Ok(-1)
                } else {
                    Err(m)
                }
            } else {
                Ok(-1)
            }
        },
        None => Ok(-1),
    }
}

/// Writes track `n`.
pub fn xspf_track_exec(
    body: &[char],
    n: usize,
    lenient: bool,
    out: &mut String,
    warnings: &mut Vec<String>,
) -> (r: Option<Result<(), String>>)
    ensures
        match xspf_track(body@, n as nat, lenient, (old(out)@, string_views(old(warnings)@))) {
            None => r is None && final(out)@ == old(out)@ && final(warnings)@ == old(warnings)@,
            Some(Ok(a)) => r == Some(Ok::<(), String>(())) && final(out)@ == a.0 && string_views(
                final(warnings)@,
            ) == a.1,
            Some(Err(m)) => r matches Some(Err(e)) && e@ == m,
        },
{
    let location = match element_body_exec(body, "location") {
        Some(l) => {
            let tl = trim_chars(l.as_slice());
            if tl.len() > 0 {
                Some(decode_entities_exec(tl.as_slice()))
            } else {
                None
            }
        },
        None => None,
    };
    let location = match location {
        Some(loc) => loc,
        None => {
            let msg = crate::m3u::line_msg("track ", n as u64, " has no <location> element");
            if lenient {
                push_warning(warnings, msg);
                return Some(Ok(()));
            } else {
                return Some(Err(msg));
            }
        },
    };
    let raw = match strip_file_uri_exec(location.as_slice()) {
        Some(raw) => raw,
        None => {
            return None;
        },
    };
    let path = match normalize_path_exec(raw.as_slice()) {
        Ok(p) => p,
        Err(reason) => {
            if lenient {
                push_warning(
                    warnings,
                    crate::m3u::reason_msg("repaired path for track ", n as u64, " (", &reason, ")"),
                );
                replace_char_chars(raw.as_slice(), '\\', '/')
            } else {
                return Some(Err(crate::m3u::reason_tail_msg("invalid path for track ", n as u64, ": ", &reason)));
            }
        },
    };
    let title = track_title_exec(body, path.as_slice());
    let duration = match track_duration_exec(body, n, lenient, warnings) {
        Ok(d) => d,
        Err(m) => {
            return Some(Err(m));
        },
    };
    push_entry(out, duration, title.as_slice(), path.as_slice());
    Some(Ok(()))
}


// ---------------------------------------------------------------------------
// How strict and lenient runs relate
// ---------------------------------------------------------------------------

/// Where a strict track is written, the lenient one is written the same way,
/// and neither adds a warning.
pub proof fn lemma_xspf_track_strict(body: Seq<char>, n: nat, acc: Written)
    requires
        xspf_track(body, n, false, acc) matches Some(Ok(_)),
    ensures
        xspf_track(body, n, true, acc) == xspf_track(body, n, false, acc),
        xspf_track(body, n, false, acc)->Some_0->Ok_0.1 == acc.1,
{
}

/// A lenient track fails only where its location cannot be decoded, and
/// never drops a warning; when it adds none, the strict track is written the
/// same way.
pub proof fn lemma_xspf_track_lenient(body: Seq<char>, n: nat, acc: Written)
    ensures
        xspf_track(body, n, true, acc) is Some ==> xspf_track(body, n, true, acc)->Some_0 is Ok,
        xspf_track(body, n, true, acc) is None ==> xspf_track(body, n, false, acc) is None,
        xspf_track(body, n, true, acc) matches Some(Ok(a)) ==> acc.1.len() <= a.1.len(),
        xspf_track(body, n, true, acc) matches Some(Ok(a)) && a.1.len() == acc.1.len()
            ==> xspf_track(body, n, false, acc) == xspf_track(body, n, true, acc),
{
}

pub proof fn lemma_xspf_run_strict(tracks: Seq<Seq<char>>, i: nat, acc: Written)
    requires
        xspf_run(tracks, false, i, acc) matches Some(Ok(_)),
    ensures
        xspf_run(tracks, true, i, acc) == xspf_run(tracks, false, i, acc),
        xspf_run(tracks, false, i, acc)->Some_0->Ok_0.1 == acc.1,
    decreases tracks.len() - i,
{
    if i < tracks.len() {
        lemma_xspf_track_strict(tracks[i as int], i + 1, acc);
        let a = xspf_track(tracks[i as int], i + 1, false, acc)->Some_0->Ok_0;
        lemma_xspf_run_strict(tracks, i + 1, a);
    }
}

pub proof fn lemma_xspf_run_lenient(tracks: Seq<Seq<char>>, i: nat, acc: Written)
    ensures
        xspf_run(tracks, true, i, acc) is Some ==> xspf_run(tracks, true, i, acc)->Some_0 is Ok,
        xspf_run(tracks, true, i, acc) matches Some(Ok(a)) ==> acc.1.len() <= a.1.len(),
        xspf_run(tracks, true, i, acc) matches Some(Ok(a)) && a.1.len() == acc.1.len()
            ==> xspf_run(tracks, false, i, acc) == xspf_run(tracks, true, i, acc),
    decreases tracks.len() - i,
{
    if i < tracks.len() {
        lemma_xspf_track_lenient(tracks[i as int], i + 1, acc);
        if xspf_track(tracks[i as int], i + 1, true, acc) is Some {
            let a = xspf_track(tracks[i as int], i + 1, true, acc)->Some_0->Ok_0;
            lemma_xspf_run_lenient(tracks, i + 1, a);
        }
    }
}

/// Writing tracks only ever appends to the output.
pub proof fn lemma_xspf_run_extends(tracks: Seq<Seq<char>>, lenient: bool, i: nat, acc: Written)
    requires
        xspf_run(tracks, lenient, i, acc) matches Some(Ok(_)),
    ensures
        crate::text::starts_with(xspf_run(tracks, lenient, i, acc)->Some_0->Ok_0.0, acc.0),
    decreases tracks.len() - i,
{
    if i < tracks.len() {
        let a = xspf_track(tracks[i as int], i + 1, lenient, acc)->Some_0->Ok_0;
        assert(a.0.take(acc.0.len() as int) =~= acc.0);
        lemma_xspf_run_extends(tracks, lenient, i + 1, a);
        let e = xspf_run(tracks, lenient, i, acc)->Some_0->Ok_0;
        assert(e.0.take(acc.0.len() as int) =~= e.0.take(a.0.len() as int).take(
            acc.0.len() as int,
        ));
    } else {
        assert(acc.0.take(acc.0.len() as int) =~= acc.0);
    }
}

// ---------------------------------------------------------------------------
// Output as M3U lines
// ---------------------------------------------------------------------------

/// A track whose lines M3U reads back as they are written: where it is
/// written, its path is an entry line (not empty, no line break, not ending
/// in whitespace, not starting with `#`) and its title is clean (not empty,
/// trimmed, no line break). Decoded entities and percent-escapes can make
/// either unclean.
pub open spec fn track_writes_clean(body: Seq<char>) -> bool {
    match track_location(body) {
        None => true,
        Some(loc) => match strip_file_uri(loc) {
            None => true,
            Some(raw) => {
                let p = path_as_written(raw);
                entry_path_ok(p) && clean_title(track_title(body, p))
            },
        },
    }
}

/// A successful run over the tracks from `i` on writes clean M3U lines `e`
/// that read back into the same output, where every track writes clean
/// lines.
pub proof fn lemma_xspf_emits(tracks: Seq<Seq<char>>, lenient: bool, i: nat, acc: Written) -> (e: Seq<
    Seq<char>,
>)
    requires
        forall|j: int| 0 <= j < tracks.len() ==> track_writes_clean(#[trigger] tracks[j]),
        xspf_run(tracks, lenient, i, acc) matches Some(Ok(_)),
    ensures
        all_clean(e),
        xspf_run(tracks, lenient, i, acc)->Some_0->Ok_0.0 == acc.0 + joined(e),
        reads_back(e, acc.0),
    decreases tracks.len() - i,
{
    if i >= tracks.len() {
        let e = Seq::<Seq<char>>::empty();
        assert(acc.0 + joined(e) =~= acc.0);
        e
    } else {
        let body = tracks[i as int];
        assert(track_writes_clean(body));
        let a = xspf_track(body, i + 1, lenient, acc)->Some_0->Ok_0;
        if track_location(body) is None {
            lemma_xspf_emits(tracks, lenient, i + 1, a)
        } else {
            let raw = strip_file_uri(track_location(body)->Some_0)->Some_0;
            lemma_path_as_written(raw);
            let path = path_as_written(raw);
            let t = track_title(body, path);
            let d = track_duration(body, i + 1, lenient, seq![])->Ok_0.0;
            assert(d >= -1);
            assert(a.0 == acc.0 + entry_text(d, t, path));
            let rest = lemma_xspf_emits(tracks, lenient, i + 1, a);
            lemma_reads_back_entry(d, t, path, rest, acc.0);
            lemma_extinf_text_clean(d, t);
            let e = seq![extinf_text(d, t), path] + rest;
            assert(acc.0 + joined(e) =~= a.0 + joined(rest));
            assert(all_clean(e)) by {
                assert forall|k: int| 0 <= k < e.len() implies clean_line(#[trigger] e[k]) by {
                    if k > 1 {
                        assert(e[k] == rest[k - 2]);
                    }
                }
            }
            e
        }
    }
}

} // verus!
