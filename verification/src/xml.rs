//! The small amount of XML handling that XSPF needs: dropping comments,
//! finding the bodies of shallow elements by tag name, decoding character
//! entities, and turning `file://` URIs into paths.
use vstd::prelude::*;
use vstd::utf8::{decode_utf8, encode_utf8, valid_utf8};
use crate::text::{
    chars_to_string, copy_range, find_from, find_seq, parse_hex_u32, parse_hex_u32_chars,
    parse_hex_u8, parse_hex_u8_chars, parse_u32, parse_u32_chars, starts_with, starts_with_chars,
    str_chars, lemma_find_seq, occurs_at, free_of,
};

verus! {

/// `char::from_u32` gives the character with that code point exactly when the
/// value is a Unicode scalar value (at most 0x10FFFF and not a surrogate), as
/// its documentation states.
pub assume_specification[ char::from_u32 ](i: u32) -> (r: Option<char>)
    ensures
        r == (if i <= 0xD7FF || (0xE000 <= i && i <= 0x10FFFF) {
            Some(i as char)
        } else {
            None
        }),
;

/// `String::from_utf8`: succeeds exactly when the bytes are valid UTF-8, and
/// then holds the characters they encode.
#[verifier::external_body]
fn string_from_utf8(bytes: Vec<u8>) -> (r: Option<String>)
    ensures
        r is Some <==> valid_utf8(bytes@),
        r matches Some(s) ==> s@ == decode_utf8(bytes@),
{
    String::from_utf8(bytes).ok()
}

// ---------------------------------------------------------------------------
// Comments
// ---------------------------------------------------------------------------

pub open spec fn comment_open() -> Seq<char> {
    seq!['<', '!', '-', '-']
}

pub open spec fn comment_close() -> Seq<char> {
    seq!['-', '-', '>']
}

/// `s` without its `<!-- ... -->` comments; an unterminated comment drops
/// the rest of the text. The search for the end starts at the comment's own
/// `<!--`.
pub open spec fn strip_comments(s: Seq<char>) -> Seq<char>
    decreases s.len(),
{
    match find_seq(s, comment_open()) {
        None => s,
        Some(start) => match find_seq(s.skip(start), comment_close()) {
            None => s.take(start),
            Some(end) => {
                proof {
                    lemma_find_seq(s, comment_open());
                    lemma_find_seq(s.skip(start), comment_close());
                }
                s.take(start) + strip_comments(s.skip(start + end + 3))
            },
        },
    }
}

pub fn strip_comments_exec(s: &[char]) -> (r: Vec<char>)
    ensures
        r@ == strip_comments(s@),
{
    let open = vec!['<', '!', '-', '-'];
    let close = vec!['-', '-', '>'];
    assert(open@ =~= comment_open());
    assert(close@ =~= comment_close());
    let mut out: Vec<char> = Vec::new();
    let mut pos: usize = 0;
    let n: usize = s.len();
    assert(s@.skip(0) =~= s@);
    while pos < n
        invariant
            pos <= n,
            n == s@.len(),
            open@ == comment_open(),
            close@ == comment_close(),
            strip_comments(s@) == out@ + strip_comments(s@.skip(pos as int)),
        decreases n - pos,
    {
        let ghost rest = s@.skip(pos as int);
        let ghost old_out = out@;
        match find_from(s, pos, open.as_slice()) {
            None => {
                let tail = copy_range(s, pos, n);
                assert(tail@ =~= rest);
                out.extend_from_slice(tail.as_slice());
                assert(strip_comments(s@) == out@);
                return out;
            },
            Some(start) => {
                let head = copy_range(s, pos, start);
                assert(head@ =~= rest.take(start - pos));
                out.extend_from_slice(head.as_slice());
                assert(rest.skip(start - pos) =~= s@.skip(start as int));
                match find_from(s, start, close.as_slice()) {
                    None => {
                        assert(strip_comments(s@) == out@);
                        return out;
                    },
                    Some(end) => {
                        let next: usize = end + 3;
                        assert(rest.skip(start - pos + (end - start) + 3) =~= s@.skip(next as int));
                        assert(strip_comments(rest) == rest.take(start - pos) + strip_comments(
                            s@.skip(next as int),
                        ));
                        assert(out@ + strip_comments(s@.skip(next as int)) =~= old_out + (rest.take(
                            start - pos,
                        ) + strip_comments(s@.skip(next as int))));
                        pos = next;
                    },
                }
            },
        }
    }
    assert(strip_comments(s@.skip(pos as int)) =~= Seq::<char>::empty());
    assert(out@ + Seq::<char>::empty() =~= out@);
    out
}


// ---------------------------------------------------------------------------
// Element bodies
// ---------------------------------------------------------------------------

/// A tag name may end at whitespace, `>`, `/`, or the end of the document.
pub open spec fn tag_boundary_ok(doc: Seq<char>, pos: int) -> bool {
    pos >= doc.len() || {
        let c = doc[pos];
        c == ' ' || c == '\t' || c == '\n' || c == '\r' || c == '>' || c == '/'
    }
}

pub open spec fn open_needle(tag: Seq<char>) -> Seq<char> {
    seq!['<'] + tag
}

pub open spec fn close_needle(tag: Seq<char>) -> Seq<char> {
    seq!['<', '/'] + tag + seq!['>']
}

/// The bodies of the `<tag ...>...</tag>` elements (an empty body for a
/// self-closing `<tag/>`) found in `doc` from position `pos` on, in order.
/// The scan stops at an unterminated opening tag or element.
pub open spec fn bodies_from(doc: Seq<char>, tag: Seq<char>, pos: nat) -> Seq<Seq<char>>
    decreases doc.len() - pos,
{
    if pos > doc.len() {
        seq![]
    } else {
        match find_seq(doc.skip(pos as int), open_needle(tag)) {
            None => seq![],
            Some(rel) => {
                proof {
                    lemma_find_seq(doc.skip(pos as int), open_needle(tag));
                }
                let after = pos + rel + open_needle(tag).len();
                if !tag_boundary_ok(doc, after) {
                    bodies_from(doc, tag, after as nat)
                } else {
                    match find_seq(doc.skip(after), seq!['>']) {
                        None => seq![],
                        Some(gt_rel) => {
                            proof {
                                lemma_find_seq(doc.skip(after), seq!['>']);
                            }
                            let gt = after + gt_rel;
                            if gt > 0 && doc[gt - 1] == '/' {
                                seq![Seq::empty()] + bodies_from(doc, tag, (gt + 1) as nat)
                            } else {
                                let body_start = gt + 1;
                                match find_seq(doc.skip(body_start), close_needle(tag)) {
                                    Some(close_rel) => {
                                        proof {
                                            lemma_find_seq(doc.skip(body_start), close_needle(tag));
                                        }
                                        seq![doc.subrange(body_start, body_start + close_rel)]
                                            + bodies_from(
                                            doc,
                                            tag,
                                            (body_start + close_rel + close_needle(tag).len()) as nat,
                                        )
                                    },
                                    None => seq![],
                                }
                            }
                        },
                    }
                }
            },
        }
    }
}

/// The bodies of all `tag` elements in `doc`.
pub open spec fn element_bodies(doc: Seq<char>, tag: Seq<char>) -> Seq<Seq<char>> {
    bodies_from(doc, tag, 0)
}

/// The body of the first `tag` element in `doc`.
pub open spec fn element_body(doc: Seq<char>, tag: Seq<char>) -> Option<Seq<char>> {
    let b = element_bodies(doc, tag);
    if b.len() > 0 {
        Some(b[0])
    } else {
        None
    }
}

fn tag_boundary_ok_exec(doc: &[char], pos: usize) -> (r: bool)
    ensures
        r == tag_boundary_ok(doc@, pos as int),
{
    if pos >= doc.len() {
        return true;
    }
    let c = doc[pos];
    c == ' ' || c == '\t' || c == '\n' || c == '\r' || c == '>' || c == '/'
}

pub fn element_bodies_exec(doc: &[char], tag: &str) -> (r: Vec<Vec<char>>)
    ensures
        crate::text::views(r@) == element_bodies(doc@, tag@),
{
    let t = str_chars(tag);
    let mut open: Vec<char> = vec!['<'];
    open.extend_from_slice(t.as_slice());
    let mut close: Vec<char> = vec!['<', '/'];
    close.extend_from_slice(t.as_slice());
    close.push('>');
    let gt_v = vec!['>'];
    assert(open@ =~= open_needle(tag@));
    assert(close@ =~= close_needle(tag@));
    assert(gt_v@ =~= seq!['>']);
    let mut out: Vec<Vec<char>> = Vec::new();
    let mut pos: usize = 0;
    let n: usize = doc.len();
    let ghost all = element_bodies(doc@, tag@);
    assert(all =~= crate::text::views(out@) + bodies_from(doc@, tag@, 0));
    loop
        invariant
            pos <= n,
            n == doc@.len(),
            open@ == open_needle(tag@),
            close@ == close_needle(tag@),
            gt_v@ == seq!['>'],
            all == element_bodies(doc@, tag@),
            all == crate::text::views(out@) + bodies_from(doc@, tag@, pos as nat),
        decreases n - pos,
    {
        let ghost before = crate::text::views(out@);
        let open_start = match find_from(doc, pos, open.as_slice()) {
            Some(o) => o,
            None => {
                assert(all =~= crate::text::views(out@));
                return out;
            },
        };
        let after: usize = open_start + open.len();
        if !tag_boundary_ok_exec(doc, after) {
            pos = after;
            continue;
        }
        let gt = match find_from(doc, after, gt_v.as_slice()) {
            Some(g) => g,
            None => {
                assert(all =~= crate::text::views(out@));
                return out;
            },
        };
        if gt > 0 && doc[gt - 1] == '/' {
            out.push(Vec::new());
            assert(crate::text::views(out@) =~= before.push(Seq::empty()));
            assert(all =~= crate::text::views(out@) + bodies_from(doc@, tag@, (gt + 1) as nat));
            pos = gt + 1;
            continue;
        }
        let body_start: usize = gt + 1;
        match find_from(doc, body_start, close.as_slice()) {
            Some(body_end) => {
                let body = copy_range(doc, body_start, body_end);
                out.push(body);
                assert(crate::text::views(out@) =~= before.push(body@));
                let next: usize = body_end + close.len();
                assert(all =~= crate::text::views(out@) + bodies_from(doc@, tag@, next as nat));
                pos = next;
            },
            None => {
                assert(all =~= crate::text::views(out@));
                return out;
            },
        }
    }
}

pub fn element_body_exec(doc: &[char], tag: &str) -> (r: Option<Vec<char>>)
    ensures
        match element_body(doc@, tag@) {
            Some(b) => r matches Some(v) && v@ == b,
            None => r is None,
        },
{
    let mut bodies = element_bodies_exec(doc, tag);
    if bodies.len() > 0 {
        assert(crate::text::views(bodies@)[0] == bodies@[0]@);
        Some(bodies.swap_remove(0))
    } else {
        None
    }
}


// ---------------------------------------------------------------------------
// Character entities
// ---------------------------------------------------------------------------

/// `char::from_u32`: the character with code point `u`, when there is one.
pub open spec fn char_from_u32(u: u32) -> Option<char> {
    if u <= 0xD7FF || (0xE000 <= u && u <= 0x10FFFF) {
        Some(u as char)
    } else {
        None
    }
}

/// The character an entity name (the text between `&` and `;`) stands for:
/// one of the five predefined XML entities, or a decimal (`#65`) or
/// hexadecimal (`#x41`) character reference.
pub open spec fn entity_char(entity: Seq<char>) -> Option<char> {
    if entity == "amp"@ {
        Some('&')
    } else if entity == "lt"@ {
        Some('<')
    } else if entity == "gt"@ {
        Some('>')
    } else if entity == "quot"@ {
        Some('"')
    } else if entity == "apos"@ {
        Some('\'')
    } else if starts_with(entity, "#x"@) || starts_with(entity, "#X"@) {
        match parse_hex_u32(entity.skip(2)) {
            Some(u) => char_from_u32(u),
            None => None,
        }
    } else if starts_with(entity, "#"@) {
        match parse_u32(entity.skip(1)) {
            Some(u) => char_from_u32(u),
            None => None,
        }
    } else {
        None
    }
}

/// The entity that begins with the `&` at `i`, if it is terminated by a `;`
/// and recognized: its character and the index just past the `;`.
pub open spec fn entity_at(s: Seq<char>, i: int) -> Option<(char, int)> {
    match find_seq(s.skip(i), seq![';']) {
        Some(semi_rel) => match entity_char(s.subrange(i + 1, i + semi_rel)) {
            Some(c) => Some((c, i + semi_rel + 1)),
            None => None,
        },
        None => None,
    }
}

/// `s` from index `i` on, with recognized entities decoded and everything
/// else (including unrecognized entities) left as it is.
pub open spec fn decode_from(s: Seq<char>, i: nat) -> Seq<char>
    decreases s.len() - i,
{
    if i >= s.len() {
        seq![]
    } else if s[i as int] == '&' && entity_at(s, i as int) is Some {
        let (c, next) = entity_at(s, i as int).unwrap();
        proof {
            lemma_find_seq(s.skip(i as int), seq![';']);
        }
        seq![c] + decode_from(s, next as nat)
    } else {
        seq![s[i as int]] + decode_from(s, i + 1)
    }
}

/// `s` with its character entities decoded.
pub open spec fn decode_entities(s: Seq<char>) -> Seq<char> {
    decode_from(s, 0)
}

fn eq_str(a: &[char], b: &str) -> (r: bool)
    ensures
        r == (a@ == b@),
{
    let bv = str_chars(b);
    crate::text::eq_chars(a, bv.as_slice())
}

fn starts_with_str(a: &[char], b: &str) -> (r: bool)
    ensures
        r == starts_with(a@, b@),
{
    let bv = str_chars(b);
    starts_with_chars(a, bv.as_slice())
}

pub fn entity_char_exec(entity: &[char]) -> (r: Option<char>)
    ensures
        r == entity_char(entity@),
{
    if eq_str(entity, "amp") {
        Some('&')
    } else if eq_str(entity, "lt") {
        Some('<')
    } else if eq_str(entity, "gt") {
        Some('>')
    } else if eq_str(entity, "quot") {
        Some('"')
    } else if eq_str(entity, "apos") {
        Some('\'')
    } else if starts_with_str(entity, "#x") || starts_with_str(entity, "#X") {
        proof {
            reveal_strlit("#x");
            reveal_strlit("#X");
        }
        let n: usize = entity.len();
        let digits = copy_range(entity, 2, n);
        assert(digits@ =~= entity@.skip(2));
        match parse_hex_u32_chars(digits.as_slice()) {
            Some(u) => char::from_u32(u),
            None => None,
        }
    } else if starts_with_str(entity, "#") {
        proof {
            reveal_strlit("#");
        }
        let n: usize = entity.len();
        let digits = copy_range(entity, 1, n);
        assert(digits@ =~= entity@.skip(1));
        match parse_u32_chars(digits.as_slice()) {
            Some(u) => char::from_u32(u),
            None => None,
        }
    } else {
        None
    }
}

/// The entity beginning with the `&` at `i`, as `entity_at` describes it.
fn entity_at_exec(s: &[char], i: usize, semi_v: &Vec<char>) -> (r: Option<(char, usize)>)
    requires
        i < s@.len(),
        s@[i as int] == '&',
        semi_v@ == seq![';'],
    ensures
        match entity_at(s@, i as int) {
            Some((c, next)) => r == Some((c, next as usize)) && i < next <= s@.len(),
            None => r is None,
        },
{
    let n: usize = s.len();
    match find_from(s, i, semi_v.as_slice()) {
        Some(semi) => {
            proof {
                lemma_find_seq(s@.skip(i as int), seq![';']);
                if semi == i {
                    assert(occurs_at(s@.skip(i as int), seq![';'], 0));
                    assert(s@.skip(i as int).subrange(0, 1)[0] == s@[i as int]);
                    assert(seq![';'][0] == ';');
                    assert(false);
                }
            }
            let entity = copy_range(s, i + 1, semi);
            match entity_char_exec(entity.as_slice()) {
                Some(c) => Some((c, semi + 1)),
                None => None,
            }
        },
        None => None,
    }
}

pub fn decode_entities_exec(s: &[char]) -> (r: Vec<char>)
    ensures
        r@ == decode_entities(s@),
{
    let semi_v = vec![';'];
    assert(semi_v@ =~= seq![';']);
    let mut out: Vec<char> = Vec::new();
    let mut i: usize = 0;
    let n: usize = s.len();
    assert(out@ + decode_from(s@, 0) =~= decode_entities(s@));
    while i < n
        invariant
            i <= n,
            n == s@.len(),
            semi_v@ == seq![';'],
            decode_entities(s@) == out@ + decode_from(s@, i as nat),
        decreases n - i,
    {
        let ghost old_out = out@;
        let found = if s[i] == '&' {
            entity_at_exec(s, i, &semi_v)
        } else {
            None
        };
        match found {
            Some((c, next)) => {
                out.push(c);
                assert(decode_from(s@, i as nat) == seq![c] + decode_from(s@, next as nat));
                assert(out@ + decode_from(s@, next as nat) =~= old_out + (seq![c] + decode_from(
                    s@,
                    next as nat,
                )));
                i = next;
            },
            None => {
                let c = s[i];
                out.push(c);
                assert(decode_from(s@, i as nat) == seq![c] + decode_from(s@, (i + 1) as nat));
                assert(out@ + decode_from(s@, (i + 1) as nat) =~= old_out + (seq![c] + decode_from(
                    s@,
                    (i + 1) as nat,
                )));
                i += 1;
            },
        }
    }
    assert(out@ + decode_from(s@, i as nat) =~= out@);
    out
}


// ---------------------------------------------------------------------------
// file:// URIs and percent-decoding
// ---------------------------------------------------------------------------

/// A UTF-8 continuation byte (`10xxxxxx`): a string cannot be sliced there.
pub open spec fn is_continuation(b: u8) -> bool {
    0x80 <= b && b <= 0xBF
}

/// The byte that the two bytes after the `%` at `i` spell, read the way
/// `u8::from_str_radix(.., 16)` reads them: byte by byte, each as the
/// character with that value.
pub open spec fn hex_byte(b: Seq<u8>, i: int) -> Option<u8> {
    parse_hex_u8(b.subrange(i + 1, i + 3).map_values(|x: u8| x as char))
}

pub open spec fn prepend(x: u8, rest: Option<Seq<u8>>) -> Option<Seq<u8>> {
    match rest {
        Some(r) => Some(seq![x] + r),
        None => None,
    }
}

/// Percent-decoding of the bytes `b` from index `i` on: a `%` followed by
/// two more bytes that spell a hexadecimal byte becomes that byte, every
/// other byte is kept. `None` where the two bytes after a `%` end inside a
/// character, a slice that cannot be taken.
pub open spec fn pct_from(b: Seq<u8>, i: nat) -> Option<Seq<u8>>
    decreases b.len() - i,
{
    if i >= b.len() {
        Some(seq![])
    } else if b[i as int] == 0x25 && i + 2 < b.len() {
        if i + 3 < b.len() && is_continuation(b[i + 3 as int]) {
            None
        } else {
            match hex_byte(b, i as int) {
                Some(x) => prepend(x, pct_from(b, i + 3)),
                None => prepend(b[i as int], pct_from(b, i + 1)),
            }
        }
    } else {
        prepend(b[i as int], pct_from(b, i + 1))
    }
}

/// Percent-decoding of `s`: the decoded bytes as text when they are valid
/// UTF-8, otherwise `s` unchanged; `None` where the decoding cannot be done.
pub open spec fn percent_decode(s: Seq<char>) -> Option<Seq<char>> {
    match pct_from(encode_utf8(s), 0) {
        None => None,
        Some(out) => Some(
            if valid_utf8(out) {
                decode_utf8(out)
            } else {
                s
            },
        ),
    }
}

/// A `file://` location becomes the percent-decoded path after the prefix;
/// any other location is kept as it is.
pub open spec fn strip_file_uri(location: Seq<char>) -> Option<Seq<char>> {
    if starts_with(location, "file://"@) {
        percent_decode(location.skip("file://"@.len() as int))
    } else {
        Some(location)
    }
}

pub fn percent_decode_exec(s: &[char]) -> (r: Option<Vec<char>>)
    ensures
        match percent_decode(s@) {
            None => r is None,
            Some(d) => r matches Some(v) && v@ == d,
        },
{
    let text = chars_to_string(s);
    let b: &[u8] = text.as_str().as_bytes();
    let ghost bs = encode_utf8(s@);
    assert(b@ == bs);
    let n: usize = b.len();
    let mut out: Vec<u8> = Vec::new();
    let mut i: usize = 0;
    assert(pct_from(bs, 0) == prepend_all(out@, pct_from(bs, 0))) by {
        if let Some(d) = pct_from(bs, 0) {
            assert(Seq::<u8>::empty() + d =~= d);
        }
    }
    while i < n
        invariant
            i <= n,
            n == bs.len(),
            b@ == bs,
            bs == encode_utf8(s@),
            pct_from(bs, 0) == prepend_all(out@, pct_from(bs, i as nat)),
        decreases n - i,
    {
        let ghost old_out = out@;
        let byte = b[i];
        if byte == 0x25 && n - i > 2 {
            if n - i > 3 && 0x80u8 <= b[i + 3] && b[i + 3] <= 0xBFu8 {
                assert(pct_from(bs, i as nat) is None);
                assert(pct_from(bs, 0) is None);
                return None;
            }
            let pair = vec![b[i + 1] as char, b[i + 2] as char];
            assert(pair@ =~= bs.subrange(i + 1, i + 3).map_values(|x: u8| x as char));
            match parse_hex_u8_chars(pair.as_slice()) {
                Some(x) => {
                    out.push(x);
                    proof {
                        lemma_prepend_all(old_out, x, pct_from(bs, (i + 3) as nat));
                    }
                    i += 3;
                },
                None => {
                    out.push(byte);
                    proof {
                        lemma_prepend_all(old_out, byte, pct_from(bs, (i + 1) as nat));
                    }
                    i += 1;
                },
            }
        } else {
            out.push(byte);
            proof {
                lemma_prepend_all(old_out, byte, pct_from(bs, (i + 1) as nat));
            }
            i += 1;
        }
    }
    assert(pct_from(bs, 0) == Some(out@)) by {
        assert(out@ + Seq::<u8>::empty() =~= out@);
    }
    let ghost decoded = out@;
    match string_from_utf8(out) {
        Some(t) => Some(str_chars(t.as_str())),
        None => Some(copy_range(s, 0, s.len())),
    }
}

/// `prefix` in front of the bytes in `rest`, if any.
pub open spec fn prepend_all(prefix: Seq<u8>, rest: Option<Seq<u8>>) -> Option<Seq<u8>> {
    match rest {
        Some(r) => Some(prefix + r),
        None => None,
    }
}

proof fn lemma_prepend_all(prefix: Seq<u8>, x: u8, rest: Option<Seq<u8>>)
    ensures
        prepend_all(prefix, prepend(x, rest)) == prepend_all(prefix.push(x), rest),
{
    if let Some(r) = rest {
        assert(prefix + (seq![x] + r) =~= prefix.push(x) + r);
    }
}

pub fn strip_file_uri_exec(location: &[char]) -> (r: Option<Vec<char>>)
    ensures
        match strip_file_uri(location@) {
            None => r is None,
            Some(d) => r matches Some(v) && v@ == d,
        },
{
    if starts_with_str(location, "file://") {
        let n: usize = location.len();
        proof {
            reveal_strlit("file://");
        }
        let rest = copy_range(location, 7, n);
        assert(rest@ =~= location@.skip("file://"@.len() as int));
        percent_decode_exec(rest.as_slice())
    } else {
        Some(copy_range(location, 0, location.len()))
    }
}

// ---------------------------------------------------------------------------
// Laws of entity decoding
// ---------------------------------------------------------------------------

/// Decoding from index `j` of a text is decoding its tail from there.
proof fn lemma_decode_shift(x: Seq<char>, j: int, s: Seq<char>, k: nat)
    requires
        0 <= j <= x.len(),
        x.skip(j) == s,
    ensures
        decode_from(x, (j + k) as nat) == decode_from(s, k),
    decreases s.len() - k,
{
    if k < s.len() {
        let i = j + k;
        assert(x[i] == s[k as int]);
        assert(x.skip(i) =~= s.skip(k as int));
        lemma_find_seq(s.skip(k as int), seq![';']);
        match find_seq(s.skip(k as int), seq![';']) {
            Some(semi) => {
                if s[k as int] == '&' {
                    assert(semi >= 1) by {
                        if semi == 0 {
                            assert(s.skip(k as int).subrange(0, 1)[0] == s[k as int]);
                        }
                    }
                    assert(x.subrange(i + 1, i + semi) =~= s.subrange(k + 1int, k + semi));
                }
                if s[k as int] == '&' && entity_at(s, k as int) is Some {
                    let next = entity_at(s, k as int)->Some_0.1;
                    lemma_decode_shift(x, j, s, (next) as nat);
                    assert(entity_at(x, i)->Some_0.1 == j + next);
                } else {
                    lemma_decode_shift(x, j, s, k + 1);
                }
            },
            None => {
                lemma_decode_shift(x, j, s, k + 1);
            },
        }
    }
}

/// Text without `&` before index `|p|` is copied as it is.
proof fn lemma_decode_plain_prefix(x: Seq<char>, p: Seq<char>, i: nat)
    requires
        p.len() <= x.len(),
        x.take(p.len() as int) == p,
        free_of(p, '&'),
        i <= p.len(),
    ensures
        decode_from(x, i) == p.skip(i as int) + decode_from(x, p.len()),
    decreases p.len() - i,
{
    if i < p.len() {
        assert(x[i as int] == p[i as int]);
        lemma_decode_plain_prefix(x, p, i + 1);
        assert(p.skip(i as int) =~= seq![p[i as int]] + p.skip(i + 1int));
    } else {
        assert(p.skip(i as int) =~= Seq::<char>::empty());
    }
}

/// An entity `&name;` that names the character `c` decodes to `c`, and the
/// text around it is decoded on its own.
proof fn lemma_decode_entity(p: Seq<char>, name: Seq<char>, c: char, s: Seq<char>)
    requires
        free_of(p, '&'),
        free_of(name, ';'),
        entity_char(name) == Some(c),
    ensures
        decode_entities(p + seq!['&'] + name + seq![';'] + s) == p + seq![c] + decode_entities(s),
{
    let x = p + seq!['&'] + name + seq![';'] + s;
    let j = p.len() as int;
    assert(x.take(j) =~= p);
    lemma_decode_plain_prefix(x, p, 0);
    assert(p.skip(0) =~= p);
    let t = x.skip(j);
    assert(t =~= seq!['&'] + name + seq![';'] + s);
    lemma_find_seq(t, seq![';']);
    let semi: int = name.len() + 1int;
    assert(occurs_at(t, seq![';'], semi)) by {
        assert(t.subrange(semi, semi + 1) =~= seq![';']);
    }
    assert forall|q: int| 0 <= q < semi implies !occurs_at(t, seq![';'], q) by {
        assert(t.subrange(q, q + 1)[0] == t[q]);
        if q > 0 {
            assert(t[q] == name[q - 1]);
        }
    }
    assert(find_seq(t, seq![';']) == Some(semi));
    assert(x.subrange(j + 1, j + semi) =~= name);
    assert(x[j] == '&');
    let next = j + semi + 1;
    assert(x.skip(next) =~= s);
    lemma_decode_shift(x, next, s, 0);
    assert(p + seq![c] + decode_entities(s) =~= p.skip(0) + (seq![c] + decode_from(s, 0)));
}

/// The five predefined XML entities decode to their characters, wherever
/// they stand: `&amp;` to `&`, `&lt;` to `<`, `&gt;` to `>`, `&quot;` to `"`
/// and `&apos;` to `'`; the text before them (without `&`) is kept and the
/// text after them is decoded on its own.
pub proof fn law_predefined_entities_decode(p: Seq<char>, s: Seq<char>)
    requires
        free_of(p, '&'),
    ensures
        decode_entities(p + seq!['&', 'a', 'm', 'p', ';'] + s) == p + seq!['&'] + decode_entities(s),
        decode_entities(p + seq!['&', 'l', 't', ';'] + s) == p + seq!['<'] + decode_entities(s),
        decode_entities(p + seq!['&', 'g', 't', ';'] + s) == p + seq!['>'] + decode_entities(s),
        decode_entities(p + seq!['&', 'q', 'u', 'o', 't', ';'] + s) == p + seq!['"']
            + decode_entities(s),
        decode_entities(p + seq!['&', 'a', 'p', 'o', 's', ';'] + s) == p + seq!['\'']
            + decode_entities(s),
{
    reveal_strlit("amp");
    reveal_strlit("lt");
    reveal_strlit("gt");
    reveal_strlit("quot");
    reveal_strlit("apos");
    let names: Seq<Seq<char>> = seq![
        seq!['a', 'm', 'p'],
        seq!['l', 't'],
        seq!['g', 't'],
        seq!['q', 'u', 'o', 't'],
        seq!['a', 'p', 'o', 's'],
    ];
    let chars: Seq<char> = seq!['&', '<', '>', '"', '\''];
    assert forall|k: int| 0 <= k < 5 implies decode_entities(
        p + seq!['&'] + #[trigger] names[k] + seq![';'] + s,
    ) == p + seq![chars[k]] + decode_entities(s) by {
        let n = names[k];
        assert(free_of(n, ';'));
        assert(n == "amp"@ || n == "lt"@ || n == "gt"@ || n == "quot"@ || n == "apos"@);
        assert(entity_char(n) == Some(chars[k]));
        lemma_decode_entity(p, n, chars[k], s);
    }
    assert(p + seq!['&', 'a', 'm', 'p', ';'] + s =~= p + seq!['&'] + names[0] + seq![';'] + s);
    assert(p + seq!['&', 'l', 't', ';'] + s =~= p + seq!['&'] + names[1] + seq![';'] + s);
    assert(p + seq!['&', 'g', 't', ';'] + s =~= p + seq!['&'] + names[2] + seq![';'] + s);
    assert(p + seq!['&', 'q', 'u', 'o', 't', ';'] + s =~= p + seq!['&'] + names[3] + seq![';'] + s);
    assert(p + seq!['&', 'a', 'p', 'o', 's', ';'] + s =~= p + seq!['&'] + names[4] + seq![';'] + s);
}

} // verus!
