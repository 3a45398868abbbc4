//! Picking the input format of a playlist from its file name or content.
use vstd::prelude::*;
use crate::InputFormat;
use crate::text::{
    ends_with, ends_with_chars, eq_chars, eq_ignore_case, eq_ignore_case_chars, lower, lower_chars,
    normalize_newlines, normalize_newlines_chars, split_on, split_on_chars, starts_with,
    starts_with_chars, str_chars, strip_bom, strip_bom_chars, trim, trim_chars, views,
};

verus! {

/// The first non-empty sequence in `lines`, if any.
pub open spec fn first_nonblank(lines: Seq<Seq<char>>) -> Option<Seq<char>>
    decreases lines.len(),
{
    if lines.len() == 0 {
        None
    } else if lines[0].len() > 0 {
        Some(lines[0])
    } else {
        first_nonblank(lines.drop_first())
    }
}

/// The first non-blank line of `content`, trimmed.
pub open spec fn first_content_line(content: Seq<char>) -> Option<Seq<char>> {
    first_nonblank(
        split_on(normalize_newlines(strip_bom(content)), '\n').map_values(|l: Seq<char>| trim(l)),
    )
}

/// The format a first content line announces: a `[playlist]` section header
/// is PLS, an XML declaration or a `<playlist` root tag is XSPF, anything
/// else M3U.
pub open spec fn sniff_format(first: Option<Seq<char>>) -> InputFormat {
    match first {
        Some(line) => if eq_ignore_case(line, "[playlist]"@) {
            InputFormat::Pls
        } else if starts_with(line, "<?xml"@) || starts_with(lower(line), "<playlist"@) {
            InputFormat::Xspf
        } else {
            InputFormat::M3u
        },
        None => InputFormat::M3u,
    }
}

/// The format of a playlist: by the extension of `path` (compared without
/// regard to ASCII case) when it is one of `.pls`, `.xspf`, `.m3u`, `.m3u8`,
/// otherwise by sniffing the first non-blank line of `content`.
pub open spec fn detect_format(path: Seq<char>, content: Seq<char>) -> InputFormat {
    let p = lower(path);
    if ends_with(p, ".pls"@) {
        InputFormat::Pls
    } else if ends_with(p, ".xspf"@) {
        InputFormat::Xspf
    } else if ends_with(p, ".m3u"@) || ends_with(p, ".m3u8"@) {
        InputFormat::M3u
    } else {
        sniff_format(first_content_line(content))
    }
}

pub fn first_content_line_exec(content: &str) -> (r: Option<Vec<char>>)
    ensures
        match first_content_line(content@) {
            Some(l) => r matches Some(v) && v@ == l,
            None => r is None,
        },
{
    let chars = str_chars(content);
    let no_bom = strip_bom_chars(chars.as_slice());
    let normalized = normalize_newlines_chars(no_bom.as_slice());
    let pieces = split_on_chars(normalized.as_slice(), '\n');
    let ghost trimmed = views(pieces@).map_values(|l: Seq<char>| trim(l));
    let mut i: usize = 0;
    assert(trimmed.skip(0) =~= trimmed);
    while i < pieces.len()
        invariant
            i <= pieces@.len(),
            trimmed == views(pieces@).map_values(|l: Seq<char>| trim(l)),
            views(pieces@) == split_on(normalize_newlines(strip_bom(content@)), '\n'),
            first_nonblank(trimmed) == first_nonblank(trimmed.skip(i as int)),
        decreases pieces@.len() - i,
    {
        let t = trim_chars(pieces[i].as_slice());
        assert(trimmed.skip(i as int)[0] == t@);
        if t.len() > 0 {
            assert(trimmed.skip(i as int).len() > 0);
            assert(first_nonblank(trimmed.skip(i as int)) == Some(t@));
            return Some(t);
        }
        assert(trimmed.skip(i as int).drop_first() =~= trimmed.skip(i + 1));
        i += 1;
    }
    assert(trimmed.skip(i as int).len() == 0);
    None
}

pub fn sniff_format_exec(first: Option<Vec<char>>) -> (r: InputFormat)
    ensures
        r == sniff_format(match first {
            Some(v) => Some(v@),
            None => None,
        }),
{
    match first {
        Some(line) => {
            let header = str_chars("[playlist]");
            let decl = str_chars("<?xml");
            let root = str_chars("<playlist");
            if eq_ignore_case_chars(line.as_slice(), header.as_slice()) {
                InputFormat::Pls
            } else if starts_with_chars(line.as_slice(), decl.as_slice()) || starts_with_chars(
                lower_chars(line.as_slice()).as_slice(),
                root.as_slice(),
            ) {
                InputFormat::Xspf
            } else {
                InputFormat::M3u
            }
        },
        None => InputFormat::M3u,
    }
}

pub fn has_extension(lower_path: &[char], ext: &str) -> (r: bool)
    ensures
        r == ends_with(lower_path@, ext@),
{
    let e = str_chars(ext);
    ends_with_chars(lower_path, e.as_slice())
}

/// An extension that marks a playlist file (compared without regard to ASCII
/// case): `m3u`, `m3u8`, `pls` or `xspf`.
pub open spec fn playlist_extension(ext: Seq<char>) -> bool {
    let l = lower(ext);
    l == "m3u"@ || l == "m3u8"@ || l == "pls"@ || l == "xspf"@
}

/// Whether a file with extension `ext` (the text after the last `.` of its
/// name) is a playlist this library reads.
pub fn is_playlist_extension(ext: &str) -> (r: bool)
    ensures
        r == playlist_extension(ext@),
{
    let chars = str_chars(ext);
    let l = lower_chars(chars.as_slice());
    let m3u = str_chars("m3u");
    let m3u8 = str_chars("m3u8");
    let pls = str_chars("pls");
    let xspf = str_chars("xspf");
    eq_chars(l.as_slice(), m3u.as_slice()) || eq_chars(l.as_slice(), m3u8.as_slice()) || eq_chars(
        l.as_slice(),
        pls.as_slice(),
    ) || eq_chars(l.as_slice(), xspf.as_slice())
}

} // verus!
