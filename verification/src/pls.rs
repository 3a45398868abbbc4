//! Normalization of PLS playlists (`[playlist]`, `FileN=`, `TitleN=`,
//! `LengthN=`, `NumberOfEntries=`) into strict M3U.
use vstd::prelude::*;
use std::collections::BTreeMap;
use vstd::std_specs::btree::increasing_seq;
use vstd::std_specs::cmp::OrdSpec;
use vstd::std_specs::iter::IteratorSpec;
use crate::{Outcome, string_views};
use crate::m3u::{
    all_clean, clean_line, clean_title, derive_title, lemma_path_as_written, path_as_written, derive_title_exec, entry_text, extinf_text,
    forward_slashes, lemma_extinf_text_clean, lemma_reads_back_entry, normalize_path,
    normalize_path_exec, push_entry, reads_back, string_of,
};
use crate::text::{
    copy_range, dec_int, dec_nat, eq_chars, eq_ignore_case, find_chars, find_seq, free_of, joined,
    lemma_find_seq, lemma_normalize_newlines, lemma_split_on_pieces, lemma_trim_end_prefix,
    lemma_trim_twice, lower, lower_chars, normalize_newlines, parse_i64, parse_i64_chars,
    parse_u32, parse_u32_chars, push_chars, push_dec_i64, push_dec_u64, replace_char_chars,
    split_on, starts_with, starts_with_chars, str_chars, trim, trim_chars, trim_end, trim_start,
    views,
};

verus! {

broadcast use vstd::std_specs::btree::group_btree_axioms, vstd::laws_cmp::group_laws_cmp;

/// What the keys of one entry index have set so far.
pub struct PlsEntry {
    pub file: Option<Seq<char>>,
    pub title: Option<Seq<char>>,
    pub length: Option<i64>,
}

/// Progress through the key=value lines of a PLS playlist.
pub struct PlsState {
    pub entries: Map<u32, PlsEntry>,
    pub declared: Option<u32>,
    pub warnings: Seq<Seq<char>>,
}

/// The lines of a PLS input, each trimmed, after dropping a byte order mark
/// and normalizing line endings.
pub open spec fn pls_lines(input: Seq<char>) -> Seq<Seq<char>> {
    split_on(normalize_newlines(crate::text::strip_bom(input)), '\n').map_values(
        |l: Seq<char>| trim(l),
    )
}

/// The first index at or after `i` whose line is not blank.
pub open spec fn skip_blank(lines: Seq<Seq<char>>, i: nat) -> nat
    decreases lines.len() - i,
{
    if i < lines.len() && lines[i as int].len() == 0 {
        skip_blank(lines, i + 1)
    } else {
        i
    }
}

/// The first non-blank line is a `[playlist]` header (in any ASCII case).
pub open spec fn pls_has_header(lines: Seq<Seq<char>>) -> bool {
    let i = skip_blank(lines, 0);
    i < lines.len() && eq_ignore_case(lines[i as int], "[playlist]"@)
}

/// Where the key=value lines begin.
pub open spec fn pls_body_start(lines: Seq<Seq<char>>) -> nat {
    if pls_has_header(lines) {
        skip_blank(lines, 0) + 1
    } else {
        skip_blank(lines, 0)
    }
}

pub open spec fn pls_start(lines: Seq<Seq<char>>) -> PlsState {
    PlsState {
        entries: Map::empty(),
        declared: None,
        warnings: if pls_has_header(lines) {
            seq![]
        } else {
            seq!["missing [playlist] header, assumed one"@]
        },
    }
}

pub open spec fn empty_entry() -> PlsEntry {
    PlsEntry { file: None, title: None, length: None }
}

/// The entry for index `n`, or an empty one.
pub open spec fn entry_at(entries: Map<u32, PlsEntry>, n: u32) -> PlsEntry {
    if entries.contains_key(n) {
        entries[n]
    } else {
        empty_entry()
    }
}

pub open spec fn with_file(st: PlsState, n: u32, v: Seq<char>) -> PlsState {
    let e = entry_at(st.entries, n);
    PlsState {
        entries: st.entries.insert(n, PlsEntry { file: Some(v), title: e.title, length: e.length }),
        declared: st.declared,
        warnings: st.warnings,
    }
}

pub open spec fn with_title(st: PlsState, n: u32, v: Seq<char>) -> PlsState {
    let e = entry_at(st.entries, n);
    PlsState {
        entries: st.entries.insert(n, PlsEntry { file: e.file, title: Some(v), length: e.length }),
        declared: st.declared,
        warnings: st.warnings,
    }
}

pub open spec fn with_length(st: PlsState, n: u32, v: i64) -> PlsState {
    let e = entry_at(st.entries, n);
    PlsState {
        entries: st.entries.insert(n, PlsEntry { file: e.file, title: e.title, length: Some(v) }),
        declared: st.declared,
        warnings: st.warnings,
    }
}

pub open spec fn warned(st: PlsState, msg: Seq<char>) -> PlsState {
    PlsState { entries: st.entries, declared: st.declared, warnings: st.warnings.push(msg) }
}

/// A problem that lenient mode reports and skips and strict mode rejects.
pub open spec fn pls_problem(lenient: bool, st: PlsState, msg: Seq<char>) -> Result<
    PlsState,
    Seq<char>,
> {
    if lenient {
        Ok(warned(st, msg))
    } else {
        Err(msg)
    }
}

/// The index `N` of a key `<prefix>N` (key already lowercased).
pub open spec fn key_index(lower_key: Seq<char>, prefix: Seq<char>) -> Option<u32> {
    if starts_with(lower_key, prefix) {
        parse_u32(lower_key.skip(prefix.len() as int))
    } else {
        None
    }
}

pub open spec fn msg_not_pair(line_no: nat, line: Seq<char>) -> Seq<char> {
    "line "@ + dec_nat(line_no) + " is not a key=value pair: '"@ + line + "'"@
}

pub open spec fn msg_bad_length(n: u32, line_no: nat, value: Seq<char>) -> Seq<char> {
    "Length"@ + dec_nat(n as nat) + " at line "@ + dec_nat(line_no) + " is not an integer: '"@
        + value + "'"@
}

pub open spec fn msg_bad_count(line_no: nat, value: Seq<char>) -> Seq<char> {
    "NumberOfEntries at line "@ + dec_nat(line_no) + " is not an integer: '"@ + value + "'"@
}

pub open spec fn msg_unknown_key(line_no: nat, key: Seq<char>) -> Seq<char> {
    "unrecognized key at line "@ + dec_nat(line_no) + ": '"@ + key + "'"@
}

/// A `key=value` line whose key is one of the keys that are not per entry.
pub open spec fn pls_other_key(
    key: Seq<char>,
    value: Seq<char>,
    line_no: nat,
    lenient: bool,
    st: PlsState,
) -> Result<PlsState, Seq<char>> {
    let lk = lower(key);
    if lk == "numberofentries"@ {
        match parse_u32(value) {
            Some(v) => Ok(PlsState { entries: st.entries, declared: Some(v), warnings: st.warnings }),
            None => pls_problem(lenient, st, msg_bad_count(line_no, value)),
        }
    } else if lk == "version"@ {
        Ok(st)
    } else {
        pls_problem(lenient, st, msg_unknown_key(line_no, key))
    }
}

/// One `key=value` line.
pub open spec fn pls_pair(key: Seq<char>, value: Seq<char>, line_no: nat, lenient: bool, st: PlsState) -> Result<
    PlsState,
    Seq<char>,
> {
    let lk = lower(key);
    match key_index(lk, "file"@) {
        Some(n) => Ok(with_file(st, n, value)),
        None => match key_index(lk, "title"@) {
            Some(n) => Ok(with_title(st, n, value)),
            None => match key_index(lk, "length"@) {
                Some(n) => match parse_i64(value) {
                    Some(v) => Ok(with_length(st, n, v)),
                    None => if lenient {
                        Ok(with_length(warned(st, msg_bad_length(n, line_no, value)), n, -1i64))
                    } else {
                        Err(msg_bad_length(n, line_no, value))
                    },
                },
                None => pls_other_key(key, value, line_no, lenient, st),
            },
        },
    }
}

/// One non-blank line after the header.
pub open spec fn pls_line(line: Seq<char>, line_no: nat, lenient: bool, st: PlsState) -> Result<
    PlsState,
    Seq<char>,
> {
    match find_seq(line, seq!['=']) {
        None => pls_problem(lenient, st, msg_not_pair(line_no, line)),
        Some(eq) => pls_pair(trim(line.take(eq)), trim(line.skip(eq + 1)), line_no, lenient, st),
    }
}

/// The lines from index `idx` on; blank lines are skipped, line numbers count
/// every line from 1.
pub open spec fn pls_run(lines: Seq<Seq<char>>, lenient: bool, idx: nat, st: PlsState) -> Result<
    PlsState,
    Seq<char>,
>
    decreases lines.len() - idx,
{
    if idx >= lines.len() {
        Ok(st)
    } else if lines[idx as int].len() == 0 {
        pls_run(lines, lenient, idx + 1, st)
    } else {
        match pls_line(lines[idx as int], idx + 1, lenient, st) {
            Ok(s) => pls_run(lines, lenient, idx + 1, s),
            Err(m) => Err(m),
        }
    }
}

pub open spec fn msg_count_mismatch(declared: u32, found: nat) -> Seq<char> {
    "NumberOfEntries says "@ + dec_nat(declared as nat) + " but "@ + dec_nat(found)
        + " entries were found"@
}

/// The declared entry count must match the entries found; its absence is a
/// problem too. Gives the warnings after the check.
pub open spec fn pls_count_check(st: PlsState, lenient: bool) -> Result<Seq<Seq<char>>, Seq<char>> {
    match st.declared {
        Some(d) => if d as nat != st.entries.len() {
            if lenient {
                Ok(st.warnings.push(msg_count_mismatch(d, st.entries.len())))
            } else {
                Err(msg_count_mismatch(d, st.entries.len()))
            }
        } else {
            Ok(st.warnings)
        },
        None => if lenient {
            Ok(st.warnings.push("missing NumberOfEntries, inferred from entries found"@))
        } else {
            Err("PLS file has no NumberOfEntries"@)
        },
    }
}

/// The declared entry count is checked in both directions: strict mode
/// accepts exactly when a `NumberOfEntries` was given and equals the number
/// of entries found, leaving the warnings as they were; lenient mode always
/// goes on, adding one warning at the end exactly when strict mode fails.
pub proof fn law_count_check(st: PlsState)
    ensures
        pls_count_check(st, false) is Ok <==> (st.declared is Some && st.declared->Some_0 as nat
            == st.entries.len()),
        pls_count_check(st, false) is Ok ==> pls_count_check(st, false)->Ok_0 == st.warnings,
        pls_count_check(st, true) is Ok,
        pls_count_check(st, false) is Ok ==> pls_count_check(st, true)->Ok_0 == st.warnings,
        pls_count_check(st, false) is Err ==> pls_count_check(st, true)->Ok_0.len()
            == st.warnings.len() + 1 && pls_count_check(st, true)->Ok_0.take(
            st.warnings.len() as int,
        ) == st.warnings,
        st.declared is Some && st.declared->Some_0 as nat != st.entries.len() ==> pls_count_check(
            st,
            false,
        ) == Err::<Seq<Seq<char>>, Seq<char>>(
            msg_count_mismatch(st.declared->Some_0, st.entries.len()),
        ),
{
    assert(st.warnings.push(msg_count_mismatch(0, 0)).take(st.warnings.len() as int) =~= st.warnings);
    if st.declared is Some {
        let d = st.declared->Some_0;
        assert(st.warnings.push(msg_count_mismatch(d, st.entries.len())).take(
            st.warnings.len() as int,
        ) =~= st.warnings);
    } else {
        assert(st.warnings.push("missing NumberOfEntries, inferred from entries found"@).take(
            st.warnings.len() as int,
        ) =~= st.warnings);
    }
}

/// Output text and warnings accumulated while writing entries.
pub type Written = (Seq<char>, Seq<Seq<char>>);

pub open spec fn msg_no_file(n: u32) -> Seq<char> {
    "entry "@ + dec_nat(n as nat) + " has no File"@ + dec_nat(n as nat) + " key"@
}

pub open spec fn msg_no_title(n: u32) -> Seq<char> {
    "entry "@ + dec_nat(n as nat) + " has no Title"@ + dec_nat(n as nat) + " key"@
}

pub open spec fn msg_no_length(n: u32) -> Seq<char> {
    "entry "@ + dec_nat(n as nat) + " has no Length"@ + dec_nat(n as nat) + " key"@
}

pub open spec fn msg_negative_length(n: u32, d: i64) -> Seq<char> {
    "entry "@ + dec_nat(n as nat) + " has a negative Length"@ + dec_nat(n as nat) + " ("@ + dec_int(
        d as int,
    ) + ")"@
}

/// The path of entry `n`, repaired in lenient mode.
pub open spec fn entry_path(n: u32, file: Seq<char>, lenient: bool, w: Seq<Seq<char>>) -> Result<
    (Seq<char>, Seq<Seq<char>>),
    Seq<char>,
> {
    match normalize_path(file) {
        Ok(p) => Ok((p, w)),
        Err(reason) => if lenient {
            Ok(
                (
                    forward_slashes(file),
                    w.push("repaired path for entry "@ + dec_nat(n as nat) + " ("@ + reason + ")"@),
                ),
            )
        } else {
            Err("invalid path for entry "@ + dec_nat(n as nat) + ": "@ + reason)
        },
    }
}

/// The title of entry `n`, derived from its path in lenient mode.
pub open spec fn entry_title(
    n: u32,
    title: Option<Seq<char>>,
    path: Seq<char>,
    lenient: bool,
    w: Seq<Seq<char>>,
) -> Result<(Seq<char>, Seq<Seq<char>>), Seq<char>> {
    if title matches Some(t) && trim(t).len() > 0 {
        Ok((title.unwrap(), w))
    } else if lenient {
        Ok((derive_title(path), w.push(msg_no_title(n))))
    } else {
        Err(msg_no_title(n))
    }
}

/// The duration of entry `n`, -1 in lenient mode when missing or negative.
pub open spec fn entry_duration(n: u32, length: Option<i64>, lenient: bool, w: Seq<Seq<char>>) -> Result<
    (i64, Seq<Seq<char>>),
    Seq<char>,
> {
    match length {
        Some(d) => if d >= -1 {
            Ok((d, w))
        } else if lenient {
            Ok((-1i64, w.push(msg_negative_length(n, d))))
        } else {
            Err(msg_negative_length(n, d))
        },
        None => if lenient {
            Ok((-1i64, w.push(msg_no_length(n))))
        } else {
            Err(msg_no_length(n))
        },
    }
}

/// Writes entry `n`; in lenient mode an entry without a file is skipped.
pub open spec fn pls_emit(n: u32, e: PlsEntry, lenient: bool, acc: Written) -> Result<Written, Seq<char>> {
    match e.file {
        None => if lenient {
            Ok((acc.0, acc.1.push(msg_no_file(n))))
        } else {
            Err(msg_no_file(n))
        },
        Some(file) => match entry_path(n, file, lenient, acc.1) {
            Err(m) => Err(m),
            Ok((path, w1)) => match entry_title(n, e.title, path, lenient, w1) {
                Err(m) => Err(m),
                Ok((title, w2)) => match entry_duration(n, e.length, lenient, w2) {
                    Err(m) => Err(m),
                    Ok((d, w3)) => Ok((acc.0 + entry_text(d, title, path), w3)),
                },
            },
        },
    }
}

pub open spec fn key_space() -> nat {
    0x1_0000_0000
}

/// Writes the entries with index `k` and above, in increasing index order.
pub open spec fn pls_emit_from(entries: Map<u32, PlsEntry>, lenient: bool, k: nat, acc: Written) -> Result<
    Written,
    Seq<char>,
>
    decreases key_space() - k,
{
    if k >= key_space() {
        Ok(acc)
    } else if entries.contains_key(k as u32) {
        match pls_emit(k as u32, entries[k as u32], lenient, acc) {
            Ok(a) => pls_emit_from(entries, lenient, k + 1, a),
            Err(m) => Err(m),
        }
    } else {
        pls_emit_from(entries, lenient, k + 1, acc)
    }
}

/// Normalizing a PLS playlist into the same strict M3U output `format`
/// produces: entries in increasing index order, each with its `#EXTINF`
/// line built from `TitleN` and `LengthN` and its path from `FileN`.
pub open spec fn pls_format(input: Seq<char>, lenient: bool) -> Outcome {
    let lines = pls_lines(input);
    if !pls_has_header(lines) && !lenient {
        Err("PLS file is missing the [playlist] header"@)
    } else {
        match pls_run(lines, lenient, pls_body_start(lines), pls_start(lines)) {
            Err(m) => Err(m),
            Ok(st) => match pls_count_check(st, lenient) {
                Err(m) => Err(m),
                Ok(w) => if st.entries.len() == 0 {
                    Err("PLS file has no entries"@)
                } else {
                    pls_emit_from(st.entries, lenient, 0, ("#EXTM3U\n"@, w))
                },
            },
        }
    }
}


// ---------------------------------------------------------------------------
// Executable side
// ---------------------------------------------------------------------------

/// The keys of one entry index that have been set so far.
pub struct PlsSlot {
    pub file: Option<Vec<char>>,
    pub title: Option<Vec<char>>,
    pub length: Option<i64>,
}

pub open spec fn opt_chars(o: Option<Vec<char>>) -> Option<Seq<char>> {
    match o {
        Some(v) => Some(v@),
        None => None,
    }
}

impl View for PlsSlot {
    type V = PlsEntry;

    open spec fn view(&self) -> PlsEntry {
        PlsEntry { file: opt_chars(self.file), title: opt_chars(self.title), length: self.length }
    }
}

pub open spec fn slots_view(m: Map<u32, PlsSlot>) -> Map<u32, PlsEntry> {
    m.map_values(|s: PlsSlot| s@)
}

pub open spec fn pls_state(entries: Map<u32, PlsSlot>, declared: Option<u32>, warnings: Seq<String>) -> PlsState {
    PlsState { entries: slots_view(entries), declared: declared, warnings: string_views(warnings) }
}

pub fn pls_lines_exec(input: &str) -> (r: Vec<Vec<char>>)
    ensures
        views(r@) == pls_lines(input@),
{
    let chars = str_chars(input);
    let no_bom = crate::text::strip_bom_chars(chars.as_slice());
    let normalized = crate::text::normalize_newlines_chars(no_bom.as_slice());
    let pieces = crate::text::split_on_chars(normalized.as_slice(), '\n');
    let mut lines: Vec<Vec<char>> = Vec::new();
    let mut i: usize = 0;
    while i < pieces.len()
        invariant
            i <= pieces@.len(),
            views(lines@) == views(pieces@).take(i as int).map_values(|l: Seq<char>| trim(l)),
        decreases pieces@.len() - i,
    {
        let t = trim_chars(pieces[i].as_slice());
        assert(views(pieces@)[i as int] == pieces@[i as int]@);
        let ghost before = views(lines@);
        lines.push(t);
        assert(views(lines@) =~= before.push(t@));
        assert(views(pieces@).take(i + 1).map_values(|l: Seq<char>| trim(l)) =~= views(pieces@).take(
            i as int,
        ).map_values(|l: Seq<char>| trim(l)).push(trim(views(pieces@)[i as int])));
        i += 1;
    }
    assert(views(pieces@).take(pieces@.len() as int) =~= views(pieces@));
    lines
}

/// Removes and returns the slot for `n` (an empty one if there is none).
fn take_slot(entries: &mut BTreeMap<u32, PlsSlot>, n: u32) -> (r: PlsSlot)
    ensures
        r@ == entry_at(slots_view(old(entries)@), n),
        final(entries)@ == old(entries)@.remove(n),
{
    match entries.remove(&n) {
        Some(s) => s,
        None => PlsSlot { file: None, title: None, length: None },
    }
}

proof fn lemma_put_slot(m: Map<u32, PlsSlot>, n: u32, s: PlsSlot)
    ensures
        slots_view(m.remove(n).insert(n, s)) == slots_view(m).insert(n, s@),
{
    assert(slots_view(m.remove(n).insert(n, s)) =~= slots_view(m).insert(n, s@));
}

fn key_index_exec(lower_key: &[char], prefix: &str) -> (r: Option<u32>)
    ensures
        r == key_index(lower_key@, prefix@),
{
    let p = str_chars(prefix);
    if starts_with_chars(lower_key, p.as_slice()) {
        let n: usize = lower_key.len();
        let rest = copy_range(lower_key, p.len(), n);
        assert(rest@ =~= lower_key@.skip(prefix@.len() as int));
        parse_u32_chars(rest.as_slice())
    } else {
        None
    }
}

fn push_warning(warnings: &mut Vec<String>, msg: String)
    ensures
        string_views(final(warnings)@) == string_views(old(warnings)@).push(msg@),
{
    warnings.push(msg);
    assert(string_views(final(warnings)@) =~= string_views(old(warnings)@).push(msg@));
}

/// `prefix`, then the characters `s`, then a closing quote.
fn quoted_msg(prefix: String, s: &[char]) -> (r: String)
    ensures
        r@ == prefix@ + s@ + "'"@,
{
    let mut m = prefix;
    push_chars(&mut m, s);
    m.append("'");
    m
}

fn pls_other_key_exec(
    key: &[char],
    value: &[char],
    line_no: usize,
    lenient: bool,
    entries: &BTreeMap<u32, PlsSlot>,
    declared: &mut Option<u32>,
    warnings: &mut Vec<String>,
) -> (r: Result<(), String>)
    ensures
        match pls_other_key(key@, value@, line_no as nat, lenient, pls_state(entries@, *old(declared), old(warnings)@)) {
            Ok(s) => r is Ok && pls_state(entries@, *final(declared), final(warnings)@) == s,
            Err(m) => r matches Err(e) && e@ == m,
        },
{
    let lk = lower_chars(key);
    let count_key = str_chars("numberofentries");
    let version_key = str_chars("version");
    if eq_chars(lk.as_slice(), count_key.as_slice()) {
        match parse_u32_chars(value) {
            Some(v) => {
                *declared = Some(v);
                Ok(())
            },
            None => {
                let msg = quoted_msg(
                    crate::m3u::line_msg("NumberOfEntries at line ", line_no as u64, " is not an integer: '"),
                    value,
                );
                if lenient {
                    push_warning(warnings, msg);
                    Ok(())
                } else {
                    Err(msg)
                }
            },
        }
    } else if eq_chars(lk.as_slice(), version_key.as_slice()) {
        Ok(())
    } else {
        let msg = quoted_msg(
            crate::m3u::line_msg("unrecognized key at line ", line_no as u64, ": '"),
            key,
        );
        if lenient {
            push_warning(warnings, msg);
            Ok(())
        } else {
            Err(msg)
        }
    }
}

fn pls_pair_exec(
    key: &[char],
    value: &[char],
    line_no: usize,
    lenient: bool,
    entries: &mut BTreeMap<u32, PlsSlot>,
    declared: &mut Option<u32>,
    warnings: &mut Vec<String>,
) -> (r: Result<(), String>)
    ensures
        match pls_pair(key@, value@, line_no as nat, lenient, pls_state(old(entries)@, *old(declared), old(warnings)@)) {
            Ok(s) => r is Ok && pls_state(final(entries)@, *final(declared), final(warnings)@) == s,
            Err(m) => r matches Err(e) && e@ == m,
        },
{
    let lk = lower_chars(key);
    let ghost old_entries = entries@;
    if let Some(n) = key_index_exec(lk.as_slice(), "file") {
        let mut slot = take_slot(entries, n);
        slot.file = Some(copy_range(value, 0, value.len()));
        assert(slot.file.unwrap()@ =~= value@);
        proof {
            lemma_put_slot(old_entries, n, slot);
        }
        entries.insert(n, slot);
        return Ok(());
    }
    if let Some(n) = key_index_exec(lk.as_slice(), "title") {
        let mut slot = take_slot(entries, n);
        slot.title = Some(copy_range(value, 0, value.len()));
        assert(slot.title.unwrap()@ =~= value@);
        proof {
            lemma_put_slot(old_entries, n, slot);
        }
        entries.insert(n, slot);
        return Ok(());
    }
    if let Some(n) = key_index_exec(lk.as_slice(), "length") {
        let v: i64 = match parse_i64_chars(value) {
            Some(v) => v,
            None => {
                let mut m = string_of("Length");
                push_dec_u64(&mut m, n as u64);
                m.append(" at line ");
                push_dec_u64(&mut m, line_no as u64);
                m.append(" is not an integer: '");
                let msg = quoted_msg(m, value);
                if lenient {
                    push_warning(warnings, msg);
                    -1
                } else {
                    return Err(msg);
                }
            },
        };
        let mut slot = take_slot(entries, n);
        slot.length = Some(v);
        proof {
            lemma_put_slot(old_entries, n, slot);
        }
        entries.insert(n, slot);
        return Ok(());
    }
    pls_other_key_exec(key, value, line_no, lenient, entries, declared, warnings)
}

/// Processes one non-blank line after the header.
pub fn pls_line_exec(
    line: &[char],
    line_no: usize,
    lenient: bool,
    entries: &mut BTreeMap<u32, PlsSlot>,
    declared: &mut Option<u32>,
    warnings: &mut Vec<String>,
) -> (r: Result<(), String>)
    ensures
        match pls_line(line@, line_no as nat, lenient, pls_state(old(entries)@, *old(declared), old(warnings)@)) {
            Ok(s) => r is Ok && pls_state(final(entries)@, *final(declared), final(warnings)@) == s,
            Err(m) => r matches Err(e) && e@ == m,
        },
{
    let eq_v = vec!['='];
    let eq_s = eq_v.as_slice();
    assert(eq_s@ =~= seq!['=']);
    match find_chars(line, eq_s) {
        None => {
            let msg = quoted_msg(
                crate::m3u::line_msg("line ", line_no as u64, " is not a key=value pair: '"),
                line,
            );
            if lenient {
                push_warning(warnings, msg);
                Ok(())
            } else {
                Err(msg)
            }
        },
        Some(eq) => {
            let n: usize = line.len();
            let head = copy_range(line, 0, eq);
            assert(head@ =~= line@.take(eq as int));
            let tail = copy_range(line, eq + 1, n);
            assert(tail@ =~= line@.skip(eq + 1));
            let key = trim_chars(head.as_slice());
            let value = trim_chars(tail.as_slice());
            pls_pair_exec(key.as_slice(), value.as_slice(), line_no, lenient, entries, declared, warnings)
        },
    }
}


/// Checks the declared entry count against the entries found.
pub fn pls_count_check_exec(
    entries: &BTreeMap<u32, PlsSlot>,
    declared: Option<u32>,
    lenient: bool,
    warnings: &mut Vec<String>,
) -> (r: Result<(), String>)
    ensures
        match pls_count_check(pls_state(entries@, declared, old(warnings)@), lenient) {
            Ok(w) => r is Ok && string_views(final(warnings)@) == w,
            Err(m) => r matches Err(e) && e@ == m,
        },
{
    let count: usize = entries.len();
    assert(slots_view(entries@).dom() =~= entries@.dom());
    match declared {
        Some(d) => {
            if d as usize != count {
                let mut m = string_of("NumberOfEntries says ");
                push_dec_u64(&mut m, d as u64);
                m.append(" but ");
                push_dec_u64(&mut m, count as u64);
                m.append(" entries were found");
                if lenient {
                    push_warning(warnings, m);
                    Ok(())
                } else {
                    Err(m)
                }
            } else {
                Ok(())
            }
        },
        None => {
            if lenient {
                push_warning(warnings, string_of("missing NumberOfEntries, inferred from entries found"));
                Ok(())
            } else {
                Err(string_of("PLS file has no NumberOfEntries"))
            }
        },
    }
}

/// `entry <n><mid><n><suffix>`.
fn entry_msg(n: u32, mid: &str, suffix: &str) -> (r: String)
    ensures
        r@ == "entry "@ + dec_nat(n as nat) + mid@ + dec_nat(n as nat) + suffix@,
{
    let mut m = string_of("entry ");
    push_dec_u64(&mut m, n as u64);
    m.append(mid);
    push_dec_u64(&mut m, n as u64);
    m.append(suffix);
    m
}

/// Writes the entry with index `n`.
pub fn pls_emit_exec(
    n: u32,
    slot: &PlsSlot,
    lenient: bool,
    out: &mut String,
    warnings: &mut Vec<String>,
) -> (r: Result<(), String>)
    ensures
        match pls_emit(n, slot@, lenient, (old(out)@, string_views(old(warnings)@))) {
            Ok(a) => r is Ok && final(out)@ == a.0 && string_views(final(warnings)@) == a.1,
            Err(m) => r matches Err(e) && e@ == m,
        },
{
    let file = match &slot.file {
        Some(f) => f,
        None => {
            let msg = entry_msg(n, " has no File", " key");
            if lenient {
                push_warning(warnings, msg);
                return Ok(());
            } else {
                return Err(msg);
            }
        },
    };
    let path = match normalize_path_exec(file.as_slice()) {
        Ok(p) => p,
        Err(reason) => {
            if lenient {
                push_warning(
                    warnings,
                    crate::m3u::reason_msg("repaired path for entry ", n as u64, " (", &reason, ")"),
                );
                replace_char_chars(file.as_slice(), '\\', '/')
            } else {
                return Err(crate::m3u::reason_tail_msg("invalid path for entry ", n as u64, ": ", &reason));
            }
        },
    };
    let title = match &slot.title {
        Some(t) if trim_chars(t.as_slice()).len() > 0 => copy_range(t.as_slice(), 0, t.len()),
        _ => {
            let msg = entry_msg(n, " has no Title", " key");
            if lenient {
                push_warning(warnings, msg);
                derive_title_exec(path.as_slice())
            } else {
                return Err(msg);
            }
        },
    };
    let duration: i64 = match slot.length {
        Some(d) => {
            if d >= -1 {
                d
            } else {
                let mut m = entry_msg(n, " has a negative Length", " (");
                push_dec_i64(&mut m, d);
                m.append(")");
                if lenient {
                    push_warning(warnings, m);
                    -1
                } else {
                    return Err(m);
                }
            }
        },
        None => {
            let msg = entry_msg(n, " has no Length", " key");
            if lenient {
                push_warning(warnings, msg);
                -1
            } else {
                return Err(msg);
            }
        },
    };
    push_entry(out, duration, title.as_slice(), path.as_slice());
    Ok(())
}

/// Indices with no entry can be stepped over.
pub proof fn lemma_emit_skip(entries: Map<u32, PlsEntry>, lenient: bool, a: nat, b: nat, acc: Written)
    requires
        a <= b <= key_space(),
        forall|k: u32| a <= k < b ==> !entries.contains_key(k),
    ensures
        pls_emit_from(entries, lenient, a, acc) == pls_emit_from(entries, lenient, b, acc),
    decreases b - a,
{
    if a < b {
        assert(!entries.contains_key(a as u32));
        lemma_emit_skip(entries, lenient, a + 1, b, acc);
    }
}

/// The keys a `BTreeMap<u32, _>` iterator yields come in increasing order.
proof fn lemma_increasing_u32(ks: Seq<u32>)
    requires
        increasing_seq(ks),
    ensures
        forall|i: int, j: int| 0 <= i < j < ks.len() ==> ks[i] < ks[j],
{
    assert forall|i: int, j: int| 0 <= i < j < ks.len() implies ks[i] < ks[j] by {
        assert(ks[i].cmp_spec(&ks[j]) is Less);
    }
}

/// Writes every entry, in increasing index order.
pub fn pls_emit_all(
    entries: &BTreeMap<u32, PlsSlot>,
    lenient: bool,
    out: &mut String,
    warnings: &mut Vec<String>,
) -> (r: Result<(), String>)
    ensures
        match pls_emit_from(slots_view(entries@), lenient, 0, (old(out)@, string_views(old(warnings)@))) {
            Ok(a) => r is Ok && final(out)@ == a.0 && string_views(final(warnings)@) == a.1,
            Err(m) => r matches Err(e) && e@ == m,
        },
{
    let ghost em = slots_view(entries@);
    let ghost total = pls_emit_from(em, lenient, 0, (out@, string_views(warnings@)));
    let ghost mut next: nat = 0;
    for kv in it: entries.iter()
        invariant
            it.seq() == entries.iter().remaining(),
            increasing_seq(it.seq().map_values(|kv: (&u32, &PlsSlot)| *kv.0)),
            em == slots_view(entries@),
            total == pls_emit_from(em, lenient, 0, (old(out)@, string_views(old(warnings)@))),
            next <= key_space(),
            it.index() == 0 ==> next == 0,
            it.index() > 0 ==> next == *it.seq()[it.index() - 1].0 + 1,
            total == pls_emit_from(em, lenient, next, (out@, string_views(warnings@))),
    {
        let (n, slot) = kv;
        let ghost v = it.seq();
        let ghost ks = v.map_values(|kv: (&u32, &PlsSlot)| *kv.0);
        let ghost i = it.index();
        proof {
            lemma_increasing_u32(ks);
            assert(ks[i] == *n);
            assert(entries@.contains_key(*n) && entries@[*n] == *slot);
            assert forall|k: u32| next <= k < *n implies !em.contains_key(k) by {
                if em.contains_key(k) {
                    assert(entries@.contains_key(k));
                    assert(v.contains((&k, &entries@[k])));
                    let j = choose|j: int| 0 <= j < v.len() && v[j] == (&k, &entries@[k]);
                    assert(ks[j] == k);
                    if j < i {
                        assert(ks[j] <= ks[i - 1]);
                    } else if j > i {
                        assert(ks[i] < ks[j]);
                    }
                }
            }
            if i > 0 {
                assert(ks[i - 1] < ks[i]);
            }
            lemma_emit_skip(em, lenient, next, *n as nat, (out@, string_views(warnings@)));
            assert(em[*n] == slot@);
        }
        let ghost before: Written = (out@, string_views(warnings@));
        match pls_emit_exec(*n, slot, lenient, out, warnings) {
            Ok(()) => {},
            Err(m) => {
                assert(pls_emit_from(em, lenient, *n as nat, before) == Err::<Written, Seq<char>>(m@));
                return Err(m);
            },
        }
        proof {
            next = *n as nat + 1;
        }
    }
    proof {
        let v = entries.iter().remaining();
        let ks = v.map_values(|kv: (&u32, &PlsSlot)| *kv.0);
        lemma_increasing_u32(ks);
        assert forall|k: u32| next <= k < key_space() implies !em.contains_key(k) by {
            if em.contains_key(k) {
                assert(entries@.contains_key(k));
                assert(v.contains((&k, &entries@[k])));
                let j = choose|j: int| 0 <= j < v.len() && v[j] == (&k, &entries@[k]);
                assert(ks[j] == k);
                if j < v.len() - 1 {
                    assert(ks[j] < ks[v.len() - 1]);
                }
            }
        }
        lemma_emit_skip(em, lenient, next, key_space(), (out@, string_views(warnings@)));
    }
    Ok(())
}


// ---------------------------------------------------------------------------
// How strict and lenient runs relate
// ---------------------------------------------------------------------------

/// Where a strict line succeeds, the lenient line does the same thing, and
/// neither adds a warning.
pub proof fn lemma_pls_line_strict(line: Seq<char>, line_no: nat, st: PlsState)
    requires
        pls_line(line, line_no, false, st) is Ok,
    ensures
        pls_line(line, line_no, true, st) == pls_line(line, line_no, false, st),
        pls_line(line, line_no, false, st)->Ok_0.warnings == st.warnings,
{
}

/// A lenient line never fails and never drops a warning; when it adds none,
/// the strict line succeeds with the same result.
pub proof fn lemma_pls_line_lenient(line: Seq<char>, line_no: nat, st: PlsState)
    ensures
        pls_line(line, line_no, true, st) is Ok,
        st.warnings.len() <= pls_line(line, line_no, true, st)->Ok_0.warnings.len(),
        pls_line(line, line_no, true, st)->Ok_0.warnings.len() == st.warnings.len()
            ==> pls_line(line, line_no, false, st) == pls_line(line, line_no, true, st),
{
}

pub proof fn lemma_pls_run_strict(lines: Seq<Seq<char>>, idx: nat, st: PlsState)
    requires
        pls_run(lines, false, idx, st) is Ok,
    ensures
        pls_run(lines, true, idx, st) == pls_run(lines, false, idx, st),
        pls_run(lines, false, idx, st)->Ok_0.warnings == st.warnings,
    decreases lines.len() - idx,
{
    if idx < lines.len() {
        if lines[idx as int].len() == 0 {
            lemma_pls_run_strict(lines, idx + 1, st);
        } else {
            lemma_pls_line_strict(lines[idx as int], idx + 1, st);
            let s = pls_line(lines[idx as int], idx + 1, false, st)->Ok_0;
            lemma_pls_run_strict(lines, idx + 1, s);
        }
    }
}

pub proof fn lemma_pls_run_lenient(lines: Seq<Seq<char>>, idx: nat, st: PlsState)
    ensures
        pls_run(lines, true, idx, st) is Ok,
        st.warnings.len() <= pls_run(lines, true, idx, st)->Ok_0.warnings.len(),
        pls_run(lines, true, idx, st)->Ok_0.warnings.len() == st.warnings.len()
            ==> pls_run(lines, false, idx, st) == pls_run(lines, true, idx, st),
    decreases lines.len() - idx,
{
    if idx < lines.len() {
        if lines[idx as int].len() == 0 {
            lemma_pls_run_lenient(lines, idx + 1, st);
        } else {
            lemma_pls_line_lenient(lines[idx as int], idx + 1, st);
            let s = pls_line(lines[idx as int], idx + 1, true, st)->Ok_0;
            lemma_pls_run_lenient(lines, idx + 1, s);
        }
    }
}

/// Where a strict entry is written, the lenient one is written the same way,
/// and neither adds a warning.
pub proof fn lemma_pls_emit_strict(n: u32, e: PlsEntry, acc: Written)
    requires
        pls_emit(n, e, false, acc) is Ok,
    ensures
        pls_emit(n, e, true, acc) == pls_emit(n, e, false, acc),
        pls_emit(n, e, false, acc)->Ok_0.1 == acc.1,
{
}

/// A lenient entry is always written and never drops a warning; when it
/// adds none, the strict entry is written the same way.
pub proof fn lemma_pls_emit_lenient(n: u32, e: PlsEntry, acc: Written)
    ensures
        pls_emit(n, e, true, acc) is Ok,
        acc.1.len() <= pls_emit(n, e, true, acc)->Ok_0.1.len(),
        pls_emit(n, e, true, acc)->Ok_0.1.len() == acc.1.len() ==> pls_emit(n, e, false, acc)
            == pls_emit(n, e, true, acc),
{
}

pub proof fn lemma_pls_emit_from_strict(entries: Map<u32, PlsEntry>, k: nat, acc: Written)
    requires
        pls_emit_from(entries, false, k, acc) is Ok,
    ensures
        pls_emit_from(entries, true, k, acc) == pls_emit_from(entries, false, k, acc),
        pls_emit_from(entries, false, k, acc)->Ok_0.1 == acc.1,
    decreases key_space() - k,
{
    if k < key_space() {
        if entries.contains_key(k as u32) {
            lemma_pls_emit_strict(k as u32, entries[k as u32], acc);
            let a = pls_emit(k as u32, entries[k as u32], false, acc)->Ok_0;
            lemma_pls_emit_from_strict(entries, k + 1, a);
        } else {
            lemma_pls_emit_from_strict(entries, k + 1, acc);
        }
    }
}

pub proof fn lemma_pls_emit_from_lenient(entries: Map<u32, PlsEntry>, k: nat, acc: Written)
    ensures
        pls_emit_from(entries, true, k, acc) is Ok,
        acc.1.len() <= pls_emit_from(entries, true, k, acc)->Ok_0.1.len(),
        pls_emit_from(entries, true, k, acc)->Ok_0.1.len() == acc.1.len() ==> pls_emit_from(
            entries,
            false,
            k,
            acc,
        ) == pls_emit_from(entries, true, k, acc),
    decreases key_space() - k,
{
    if k < key_space() {
        if entries.contains_key(k as u32) {
            lemma_pls_emit_lenient(k as u32, entries[k as u32], acc);
            let a = pls_emit(k as u32, entries[k as u32], true, acc)->Ok_0;
            lemma_pls_emit_from_lenient(entries, k + 1, a);
        } else {
            lemma_pls_emit_from_lenient(entries, k + 1, acc);
        }
    }
}

/// Writing entries only ever appends to the output.
pub proof fn lemma_pls_emit_from_extends(
    entries: Map<u32, PlsEntry>,
    lenient: bool,
    k: nat,
    acc: Written,
)
    requires
        pls_emit_from(entries, lenient, k, acc) is Ok,
    ensures
        starts_with(pls_emit_from(entries, lenient, k, acc)->Ok_0.0, acc.0),
    decreases key_space() - k,
{
    if k < key_space() {
        if entries.contains_key(k as u32) {
            let a = pls_emit(k as u32, entries[k as u32], lenient, acc)->Ok_0;
            assert(a.0.take(acc.0.len() as int) =~= acc.0);
            lemma_pls_emit_from_extends(entries, lenient, k + 1, a);
            let e = pls_emit_from(entries, lenient, k, acc)->Ok_0;
            assert(e.0.take(acc.0.len() as int) =~= e.0.take(a.0.len() as int).take(
                acc.0.len() as int,
            ));
        } else {
            lemma_pls_emit_from_extends(entries, lenient, k + 1, acc);
        }
    } else {
        assert(acc.0.take(acc.0.len() as int) =~= acc.0);
    }
}

// ---------------------------------------------------------------------------
// Strict output as M3U lines
// ---------------------------------------------------------------------------

/// A value as a key=value line gives it: trimmed and without line breaks.
pub open spec fn clean_value(v: Seq<char>) -> bool {
    trim(v) == v && free_of(v, '\n') && free_of(v, '\r')
}

pub open spec fn clean_entry(e: PlsEntry) -> bool {
    &&& (e.file matches Some(f) ==> clean_value(f))
    &&& (e.title matches Some(t) ==> clean_value(t))
}

pub open spec fn clean_entries(entries: Map<u32, PlsEntry>) -> bool {
    forall|n: u32| entries.contains_key(n) ==> clean_entry(#[trigger] entries[n])
}

/// The lines of a PLS input hold no line breaks.
pub proof fn lemma_pls_lines_free(input: Seq<char>)
    ensures
        forall|i: int|
            0 <= i < pls_lines(input).len() ==> free_of(#[trigger] pls_lines(input)[i], '\n')
                && free_of(pls_lines(input)[i], '\r'),
{
    let n = normalize_newlines(crate::text::strip_bom(input));
    lemma_normalize_newlines(crate::text::strip_bom(input));
    lemma_split_on_pieces(n, '\n', '\r');
    let pieces = split_on(n, '\n');
    assert forall|i: int| 0 <= i < pls_lines(input).len() implies free_of(
        #[trigger] pls_lines(input)[i],
        '\n',
    ) && free_of(pls_lines(input)[i], '\r') by {
        lemma_trim_twice(pieces[i], '\n');
        lemma_trim_twice(pieces[i], '\r');
    }
}

/// A value cut out of a line without line breaks and trimmed is clean.
proof fn lemma_value_clean(line: Seq<char>, from: int)
    requires
        0 <= from <= line.len(),
        free_of(line, '\n'),
        free_of(line, '\r'),
    ensures
        clean_value(trim(line.skip(from))),
{
    let raw = line.skip(from);
    assert(free_of(raw, '\n') && free_of(raw, '\r')) by {
        assert forall|k: int| 0 <= k < raw.len() implies raw[k] != '\n' && raw[k] != '\r' by {
            assert(raw[k] == line[from + k]);
        }
    }
    lemma_trim_twice(raw, '\n');
    lemma_trim_twice(raw, '\r');
}

proof fn lemma_pls_line_clean(line: Seq<char>, line_no: nat, lenient: bool, st: PlsState)
    requires
        free_of(line, '\n'),
        free_of(line, '\r'),
        clean_entries(st.entries),
        pls_line(line, line_no, lenient, st) is Ok,
    ensures
        clean_entries(pls_line(line, line_no, lenient, st)->Ok_0.entries),
{
    let r = pls_line(line, line_no, lenient, st)->Ok_0;
    lemma_find_seq(line, seq!['=']);
    if find_seq(line, seq!['=']) is Some {
        let eq = find_seq(line, seq!['=']).unwrap();
        lemma_value_clean(line, eq + 1);
    }
    assert forall|n: u32| r.entries.contains_key(n) implies clean_entry(#[trigger] r.entries[n]) by {
        if st.entries.contains_key(n) {
            assert(clean_entry(st.entries[n]));
        }
    }
}

pub proof fn lemma_pls_run_clean(lines: Seq<Seq<char>>, lenient: bool, idx: nat, st: PlsState)
    requires
        forall|i: int|
            0 <= i < lines.len() ==> free_of(#[trigger] lines[i], '\n') && free_of(lines[i], '\r'),
        clean_entries(st.entries),
        pls_run(lines, lenient, idx, st) is Ok,
    ensures
        clean_entries(pls_run(lines, lenient, idx, st)->Ok_0.entries),
    decreases lines.len() - idx,
{
    if idx < lines.len() {
        if lines[idx as int].len() == 0 {
            lemma_pls_run_clean(lines, lenient, idx + 1, st);
        } else {
            lemma_pls_line_clean(lines[idx as int], idx + 1, lenient, st);
            let s = pls_line(lines[idx as int], idx + 1, lenient, st)->Ok_0;
            lemma_pls_run_clean(lines, lenient, idx + 1, s);
        }
    }
}

/// A `TitleN` value that is written as the title: present and not blank.
pub open spec fn title_usable(t: Option<Seq<char>>) -> bool {
    t matches Some(x) && trim(x).len() > 0
}

/// An entry whose lines M3U reads back as they are written: its `FileN`
/// value is not empty and does not start with `#`, and where the title is
/// derived from the path, that title is clean.
pub open spec fn writes_clean(e: PlsEntry) -> bool {
    e.file matches Some(f) ==> {
        &&& f.len() > 0
        &&& f[0] != '#'
        &&& (title_usable(e.title) || clean_title(derive_title(path_as_written(f))))
    }
}

pub open spec fn entries_write_clean(entries: Map<u32, PlsEntry>) -> bool {
    forall|n: u32| entries.contains_key(n) ==> writes_clean(#[trigger] entries[n])
}

/// A successful write of the entries from index `k` on writes clean M3U
/// lines `e`, which read back into the same output where every entry
/// writes clean lines.
pub proof fn lemma_pls_emits(entries: Map<u32, PlsEntry>, lenient: bool, k: nat, acc: Written) -> (e: Seq<
    Seq<char>,
>)
    requires
        clean_entries(entries),
        entries_write_clean(entries),
        pls_emit_from(entries, lenient, k, acc) is Ok,
    ensures
        all_clean(e),
        pls_emit_from(entries, lenient, k, acc)->Ok_0.0 == acc.0 + joined(e),
        reads_back(e, acc.0),
    decreases key_space() - k,
{
    if k >= key_space() {
        let e = Seq::<Seq<char>>::empty();
        assert(acc.0 + joined(e) =~= acc.0);
        e
    } else if !entries.contains_key(k as u32) {
        lemma_pls_emits(entries, lenient, k + 1, acc)
    } else {
        let n = k as u32;
        let en = entries[n];
        assert(clean_entry(en));
        assert(writes_clean(en));
        let a = pls_emit(n, en, lenient, acc)->Ok_0;
        if en.file is None {
            lemma_pls_emits(entries, lenient, k + 1, a)
        } else {
            let f = en.file.unwrap();
            assert(trim_end(f) == f) by {
                lemma_trim_end_prefix(trim_start(f));
            }
            assert(clean_line(f));
            lemma_path_as_written(f);
            let path = path_as_written(f);
            let t = if title_usable(en.title) {
                en.title.unwrap()
            } else {
                derive_title(path)
            };
            let d = entry_duration(n, en.length, lenient, seq![])->Ok_0.0;
            assert(a.0 == acc.0 + entry_text(d, t, path));
            let rest = lemma_pls_emits(entries, lenient, k + 1, a);
            lemma_reads_back_entry(d, t, path, rest, acc.0);
            lemma_extinf_text_clean(d, t);
            let e = seq![extinf_text(d, t), path] + rest;
            assert(acc.0 + joined(e) =~= a.0 + joined(rest));
            assert(all_clean(e)) by {
                assert forall|i: int| 0 <= i < e.len() implies clean_line(#[trigger] e[i]) by {
                    if i > 1 {
                        assert(e[i] == rest[i - 2]);
                    }
                }
            }
            e
        }
    }
}

// ---------------------------------------------------------------------------
// When lenient mode finds no entry
// ---------------------------------------------------------------------------

/// A key=value line (split at its first `=`) whose key, trimmed and
/// lowercased, is `file`, `title` or `length` followed by an index.
pub open spec fn defines_entry(line: Seq<char>) -> bool {
    match find_seq(line, seq!['=']) {
        None => false,
        Some(eq) => {
            let lk = lower(trim(line.take(eq)));
            key_index(lk, "file"@) is Some || key_index(lk, "title"@) is Some || key_index(
                lk,
                "length"@,
            ) is Some
        },
    }
}

proof fn lemma_pls_line_defines(line: Seq<char>, line_no: nat, st: PlsState)
    requires
        st.entries.dom().finite(),
    ensures
        pls_line(line, line_no, true, st)->Ok_0.entries.dom().finite(),
        st.entries.dom().subset_of(pls_line(line, line_no, true, st)->Ok_0.entries.dom()),
        defines_entry(line) ==> pls_line(line, line_no, true, st)->Ok_0.entries.len() > 0,
        !defines_entry(line) ==> pls_line(line, line_no, true, st)->Ok_0.entries == st.entries,
{
    broadcast use vstd::set::axiom_set_insert_finite;

    lemma_pls_line_lenient(line, line_no, st);
    let r = pls_line(line, line_no, true, st)->Ok_0;
    if defines_entry(line) {
        let eq = find_seq(line, seq!['=']).unwrap();
        let lk = lower(trim(line.take(eq)));
        let n = if key_index(lk, "file"@) is Some {
            key_index(lk, "file"@).unwrap()
        } else if key_index(lk, "title"@) is Some {
            key_index(lk, "title"@).unwrap()
        } else {
            key_index(lk, "length"@).unwrap()
        };
        assert(r.entries.dom().contains(n));
        vstd::set_lib::lemma_set_empty_equivalency_len(r.entries.dom());
        assert(r.entries.dom() != Set::<u32>::empty()) by {
            assert(!Set::<u32>::empty().contains(n));
        }
    }
}

pub proof fn lemma_pls_run_defines(lines: Seq<Seq<char>>, idx: nat, st: PlsState)
    requires
        st.entries.dom().finite(),
    ensures
        pls_run(lines, true, idx, st)->Ok_0.entries.dom().finite(),
        (pls_run(lines, true, idx, st)->Ok_0.entries.len() == 0) == (st.entries.len() == 0
            && forall|j: int| idx <= j < lines.len() ==> !defines_entry(#[trigger] lines[j])),
    decreases lines.len() - idx,
{
    vstd::set_lib::lemma_set_empty_equivalency_len(st.entries.dom());
    if idx < lines.len() {
        let line = lines[idx as int];
        if line.len() == 0 {
            assert(find_seq(line, seq!['=']) is None);
            lemma_pls_run_defines(lines, idx + 1, st);
        } else {
            lemma_pls_line_defines(line, idx + 1, st);
            let s = pls_line(line, idx + 1, true, st)->Ok_0;
            lemma_pls_run_defines(lines, idx + 1, s);
            vstd::set_lib::lemma_set_empty_equivalency_len(s.entries.dom());
            if st.entries.len() > 0 {
                let x = choose|x: u32| st.entries.dom().contains(x);
                assert(s.entries.dom().contains(x));
            }
        }
    }
}

/// The lines before the first non-blank one are blank.
pub proof fn lemma_skip_blank(lines: Seq<Seq<char>>, i: nat)
    requires
        i <= lines.len(),
    ensures
        i <= skip_blank(lines, i) <= lines.len(),
        forall|j: int| i <= j < skip_blank(lines, i) ==> (#[trigger] lines[j]).len() == 0,
    decreases lines.len() - i,
{
    if i < lines.len() && lines[i as int].len() == 0 {
        lemma_skip_blank(lines, i + 1);
    }
}

/// The section header holds no `=`.
pub proof fn lemma_header_defines_nothing(l: Seq<char>)
    requires
        eq_ignore_case(l, "[playlist]"@),
    ensures
        !defines_entry(l),
{
    reveal_strlit("[playlist]");
    let h: Seq<char> = "[playlist]"@;
    assert(lower(h) =~= h);
    lemma_find_seq(l, seq!['=']);
    if find_seq(l, seq!['=']) is Some {
        let i = find_seq(l, seq!['=']).unwrap();
        assert(l.subrange(i, i + 1)[0] == l[i]);
        assert(lower(l)[i] == '=');
        assert(h[i] == '=');
    }
}

} // verus!
