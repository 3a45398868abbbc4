//! The paths a normalized playlist refers to: which of its lines name local
//! files, and how a relative path is rewritten when the playlist is written
//! to another directory so that it still names the same file. Everything
//! here is lexical: no filesystem is consulted.
use vstd::prelude::*;
use crate::string_views;
use crate::m3u::{is_url, is_url_exec, string_of};
use crate::text::{
    chars_to_string, copy_range, eq_chars, free_of, push_chars, split_on, split_on_chars, str_chars,
    views,
};

verus! {

pub open spec fn dot() -> Seq<char> {
    seq!['.']
}

pub open spec fn dotdot() -> Seq<char> {
    seq!['.', '.']
}

// ---------------------------------------------------------------------------
// Lines of a normalized playlist
// ---------------------------------------------------------------------------

/// A line that names an entry: neither blank nor a `#` line.
pub open spec fn is_entry_line(l: Seq<char>) -> bool {
    l.len() > 0 && l[0] != '#'
}

/// The entry lines among `lines` that are not URLs, in order.
pub open spec fn local_lines(lines: Seq<Seq<char>>) -> Seq<Seq<char>>
    decreases lines.len(),
{
    if lines.len() == 0 {
        seq![]
    } else {
        let before = local_lines(lines.drop_last());
        let l = lines.last();
        if is_entry_line(l) && !is_url(l) {
            before.push(l)
        } else {
            before
        }
    }
}

/// The local file paths that a normalized playlist refers to.
pub open spec fn paths_in(output: Seq<char>) -> Seq<Seq<char>> {
    local_lines(split_on(output, '\n'))
}

// ---------------------------------------------------------------------------
// Lexical path arithmetic
// ---------------------------------------------------------------------------

/// A path is absolute when it starts at a root: `/`, or a drive letter and a
/// colon.
pub open spec fn is_absolute(p: Seq<char>) -> bool {
    ||| p.len() > 0 && p[0] == '/'
    ||| p.len() >= 2 && p[1] == ':' && (('a' <= p[0] <= 'z') || ('A' <= p[0] <= 'Z'))
}

/// A component that names something: not empty and not `.`.
pub open spec fn names_something(c: Seq<char>) -> bool {
    c.len() > 0 && c != dot()
}

/// The pieces that name something, in order.
pub open spec fn names(pieces: Seq<Seq<char>>) -> Seq<Seq<char>>
    decreases pieces.len(),
{
    if pieces.len() == 0 {
        seq![]
    } else {
        let before = names(pieces.drop_last());
        if names_something(pieces.last()) {
            before.push(pieces.last())
        } else {
            before
        }
    }
}

/// The components of a `/`-separated path: empty components (from repeated
/// or trailing slashes) and `.` are dropped.
pub open spec fn components(p: Seq<char>) -> Seq<Seq<char>> {
    names(split_on(p, '/'))
}

/// One more component on a resolved path: `..` takes back the component
/// before it, unless there is none or that one is `..` too.
pub open spec fn push_component(stack: Seq<Seq<char>>, c: Seq<char>) -> Seq<Seq<char>> {
    if c == dotdot() && stack.len() > 0 && stack.last() != dotdot() {
        stack.drop_last()
    } else {
        stack.push(c)
    }
}

/// The components `cs` resolved on top of `stack`, left to right.
pub open spec fn resolve_from(stack: Seq<Seq<char>>, cs: Seq<Seq<char>>) -> Seq<Seq<char>>
    decreases cs.len(),
{
    if cs.len() == 0 {
        stack
    } else {
        push_component(resolve_from(stack, cs.drop_last()), cs.last())
    }
}

pub open spec fn resolve(cs: Seq<Seq<char>>) -> Seq<Seq<char>> {
    resolve_from(seq![], cs)
}

/// How many leading components `a` and `b` have in common, counting from `i`.
pub open spec fn shared_prefix(a: Seq<Seq<char>>, b: Seq<Seq<char>>, i: nat) -> nat
    decreases a.len() - i,
{
    if i < a.len() && i < b.len() && a[i as int] == b[i as int] {
        shared_prefix(a, b, i + 1)
    } else {
        i
    }
}

/// `n` times `..`.
pub open spec fn ups(n: nat) -> Seq<Seq<char>> {
    Seq::new(n, |i: int| dotdot())
}

/// The components joined by `sep`.
pub open spec fn sep_joined(cs: Seq<Seq<char>>, sep: char) -> Seq<char>
    decreases cs.len(),
{
    if cs.len() == 0 {
        seq![]
    } else if cs.len() == 1 {
        cs[0]
    } else {
        sep_joined(cs.drop_last(), sep) + seq![sep] + cs.last()
    }
}

/// A path that starts at the root directory.
pub open spec fn rooted(p: Seq<char>) -> bool {
    p.len() > 0 && p[0] == '/'
}

/// How many `..` a resolved path starts with.
pub open spec fn leading_ups(s: Seq<Seq<char>>) -> nat
    decreases s.len(),
{
    if s.len() > 0 && s[0] == dotdot() {
        1 + leading_ups(s.drop_first())
    } else {
        0
    }
}

/// A resolved path without the `..` it starts with: at the root, `..`
/// stays at the root.
pub open spec fn from_root(s: Seq<Seq<char>>) -> Seq<Seq<char>> {
    s.skip(leading_ups(s) as int)
}

/// A resolved path, taken from the root where `rooted`.
pub open spec fn settle(s: Seq<Seq<char>>, rooted: bool) -> Seq<Seq<char>> {
    if rooted {
        from_root(s)
    } else {
        s
    }
}

/// The place a directory names, resolved.
pub open spec fn dir_place(dir: Seq<char>) -> Seq<Seq<char>> {
    settle(resolve(components(dir)), rooted(dir))
}

/// The place the relative path `p` names from the directory `dir`,
/// resolved.
pub open spec fn place(dir: Seq<char>, p: Seq<char>) -> Seq<Seq<char>> {
    settle(resolve(components(dir) + components(p)), rooted(dir))
}

/// The path that names, from `to_dir`, the file that `path` names from
/// `from_dir`; `None` where `path` stays as it is: a URL, an absolute path,
/// one directory is absolute and the other is not, the two directories are
/// the same, the rewritten path would be the same, or `to_dir` climbs out of
/// the directories the two have in common (the names to climb back down are
/// not known lexically).
pub open spec fn rebased(path: Seq<char>, from_dir: Seq<char>, to_dir: Seq<char>) -> Option<
    Seq<char>,
> {
    let here = dir_place(from_dir);
    let there = dir_place(to_dir);
    if is_url(path) || is_absolute(path) || rooted(from_dir) != rooted(to_dir) || here == there {
        None
    } else {
        let target = place(from_dir, path);
        let k = shared_prefix(target, there, 0);
        if there.skip(k as int).contains(dotdot()) {
            None
        } else {
            let rel = ups((there.len() - k) as nat) + target.skip(k as int);
            let new_path = if rel.len() == 0 {
                dot()
            } else {
                sep_joined(rel, '/')
            };
            if new_path == path {
                None
            } else {
                Some(new_path)
            }
        }
    }
}

// ---------------------------------------------------------------------------
// Rewriting a whole playlist
// ---------------------------------------------------------------------------

/// A line after the move: entry lines are rebased where needed.
pub open spec fn moved_line(l: Seq<char>, from_dir: Seq<char>, to_dir: Seq<char>) -> Seq<char> {
    if is_entry_line(l) {
        match rebased(l, from_dir, to_dir) {
            Some(n) => n,
            None => l,
        }
    } else {
        l
    }
}

pub open spec fn msg_rewrote(old_path: Seq<char>, new_path: Seq<char>) -> Seq<char> {
    "rewrote relative path '"@ + old_path + "' to '"@ + new_path + "'"@
}

/// One warning per rewritten line, in order.
pub open spec fn move_warnings(lines: Seq<Seq<char>>, from_dir: Seq<char>, to_dir: Seq<char>) -> Seq<
    Seq<char>,
>
    decreases lines.len(),
{
    if lines.len() == 0 {
        seq![]
    } else {
        let before = move_warnings(lines.drop_last(), from_dir, to_dir);
        let l = lines.last();
        if is_entry_line(l) && rebased(l, from_dir, to_dir) is Some {
            before.push(msg_rewrote(l, rebased(l, from_dir, to_dir)->Some_0))
        } else {
            before
        }
    }
}

/// A normalized playlist written to `to_dir` instead of `from_dir`: its text
/// with every relative path rebased, and a warning for each rewrite.
pub open spec fn moved_playlist(output: Seq<char>, from_dir: Seq<char>, to_dir: Seq<char>) -> (
    Seq<char>,
    Seq<Seq<char>>,
) {
    let lines = split_on(output, '\n');
    (
        sep_joined(lines.map_values(|l: Seq<char>| moved_line(l, from_dir, to_dir)), '\n'),
        move_warnings(lines, from_dir, to_dir),
    )
}

// ---------------------------------------------------------------------------
// Facts about resolution
// ---------------------------------------------------------------------------

/// A resolved path: `..` only in a leading run.
pub open spec fn normal(s: Seq<Seq<char>>) -> bool {
    forall|i: int, j: int| 0 <= i < j < s.len() && #[trigger] s[j] == dotdot() ==> #[trigger] s[i] == dotdot()
}

/// A component of a path: names something and holds no `/`.
pub open spec fn is_component(c: Seq<char>) -> bool {
    names_something(c) && free_of(c, '/')
}

pub open spec fn all_components(cs: Seq<Seq<char>>) -> bool {
    forall|i: int| 0 <= i < cs.len() ==> is_component(#[trigger] cs[i])
}

pub proof fn lemma_resolve_append(stack: Seq<Seq<char>>, a: Seq<Seq<char>>, b: Seq<Seq<char>>)
    ensures
        resolve_from(stack, a + b) == resolve_from(resolve_from(stack, a), b),
    decreases b.len(),
{
    if b.len() == 0 {
        assert(a + b =~= a);
    } else {
        lemma_resolve_append(stack, a, b.drop_last());
        assert((a + b).drop_last() =~= a + b.drop_last());
        assert((a + b).last() == b.last());
    }
}

proof fn lemma_push_component_normal(stack: Seq<Seq<char>>, c: Seq<char>)
    requires
        normal(stack),
    ensures
        normal(push_component(stack, c)),
{
    let r = push_component(stack, c);
    if c == dotdot() && stack.len() > 0 && stack.last() != dotdot() {
        assert forall|i: int, j: int| 0 <= i < j < r.len() && #[trigger] r[j] == dotdot() implies #[trigger] r[i] == dotdot() by {
            assert(r[j] == stack[j] && r[i] == stack[i]);
        }
    } else {
        assert forall|i: int, j: int| 0 <= i < j < r.len() && #[trigger] r[j] == dotdot() implies #[trigger] r[i] == dotdot() by {
            assert(r[i] == stack[i]);
            if j < stack.len() {
                assert(r[j] == stack[j]);
            } else {
                assert(stack.last() == stack[stack.len() - 1]);
                if i < stack.len() - 1 {
                    assert(stack[stack.len() - 1] == dotdot());
                }
            }
        }
    }
}

pub proof fn lemma_resolve_normal(stack: Seq<Seq<char>>, cs: Seq<Seq<char>>)
    requires
        normal(stack),
    ensures
        normal(resolve_from(stack, cs)),
    decreases cs.len(),
{
    if cs.len() > 0 {
        lemma_resolve_normal(stack, cs.drop_last());
        lemma_push_component_normal(resolve_from(stack, cs.drop_last()), cs.last());
    }
}

/// Resolving the rest of a resolved path on top of its beginning gives the
/// path back.
proof fn lemma_resolve_resolved(s: Seq<Seq<char>>, i: int)
    requires
        normal(s),
        0 <= i <= s.len(),
    ensures
        resolve_from(s.take(i), s.skip(i)) == s,
    decreases s.len(),
{
    if i == s.len() {
        assert(s.skip(i) =~= Seq::<Seq<char>>::empty());
        assert(s.take(i) =~= s);
    } else {
        let t = s.drop_last();
        assert(normal(t)) by {
            assert forall|a: int, b: int| 0 <= a < b < t.len() && #[trigger] t[b] == dotdot() implies #[trigger] t[a] == dotdot() by {
                assert(t[a] == s[a] && t[b] == s[b]);
            }
        }
        lemma_resolve_resolved(t, i);
        assert(t.take(i) =~= s.take(i));
        assert(s.skip(i).drop_last() =~= t.skip(i));
        assert(s.skip(i).last() == s.last());
        if s.last() == dotdot() && t.len() > 0 {
            assert(s[s.len() - 1] == dotdot());
            assert(s[t.len() - 1] == dotdot());
            assert(t.last() == dotdot());
        }
        assert(t.push(s.last()) =~= s);
    }
}

/// Climbing `j` levels out of a path whose last `j` components are not `..`
/// drops them.
proof fn lemma_climb(s: Seq<Seq<char>>, k: int, j: nat)
    requires
        0 <= k <= s.len(),
        j <= s.len() - k,
        !s.skip(k).contains(dotdot()),
    ensures
        resolve_from(s, ups(j)) == s.take(s.len() - j),
    decreases j,
{
    if j == 0 {
        assert(s.take(s.len() as int) =~= s);
    } else {
        lemma_climb(s, k, (j - 1) as nat);
        assert(ups(j).drop_last() =~= ups((j - 1) as nat));
        assert(ups(j).last() == dotdot());
        let t = s.take(s.len() - (j - 1));
        assert(t.last() == s[s.len() - j]);
        assert(s.skip(k)[s.len() - j - k] == s[s.len() - j]);
        assert(t.drop_last() =~= s.take(s.len() - j));
    }
}

proof fn lemma_shared_prefix(a: Seq<Seq<char>>, b: Seq<Seq<char>>, i: nat)
    requires
        i <= a.len(),
        i <= b.len(),
        a.take(i as int) == b.take(i as int),
    ensures
        i <= shared_prefix(a, b, i) <= a.len(),
        shared_prefix(a, b, i) <= b.len(),
        a.take(shared_prefix(a, b, i) as int) == b.take(shared_prefix(a, b, i) as int),
    decreases a.len() - i,
{
    if i < a.len() && i < b.len() && a[i as int] == b[i as int] {
        assert(a.take(i + 1int) =~= a.take(i as int).push(a[i as int]));
        assert(b.take(i + 1int) =~= b.take(i as int).push(b[i as int]));
        lemma_shared_prefix(a, b, i + 1);
    }
}

proof fn lemma_names(pieces: Seq<Seq<char>>)
    requires
        forall|i: int| 0 <= i < pieces.len() ==> free_of(#[trigger] pieces[i], '/'),
    ensures
        all_components(names(pieces)),
        (forall|i: int| 0 <= i < pieces.len() ==> names_something(#[trigger] pieces[i])) ==> names(
            pieces,
        ) == pieces,
    decreases pieces.len(),
{
    if pieces.len() > 0 {
        let before = pieces.drop_last();
        assert forall|i: int| 0 <= i < before.len() implies free_of(#[trigger] before[i], '/') by {
            assert(before[i] == pieces[i]);
        }
        lemma_names(before);
        assert(pieces.last() == pieces[pieces.len() - 1]);
        if forall|i: int| 0 <= i < pieces.len() ==> names_something(#[trigger] pieces[i]) {
            assert forall|i: int| 0 <= i < before.len() implies names_something(#[trigger] before[i]) by {
                assert(before[i] == pieces[i]);
            }
            assert(before.push(pieces.last()) =~= pieces);
        }
    }
}

pub proof fn lemma_components(p: Seq<char>)
    ensures
        all_components(components(p)),
{
    crate::text::lemma_split_on_pieces(p, '/', '/');
    lemma_names(split_on(p, '/'));
}

proof fn lemma_resolve_components(stack: Seq<Seq<char>>, cs: Seq<Seq<char>>)
    requires
        all_components(stack),
        all_components(cs),
    ensures
        all_components(resolve_from(stack, cs)),
    decreases cs.len(),
{
    if cs.len() > 0 {
        let before = cs.drop_last();
        assert forall|i: int| 0 <= i < before.len() implies is_component(#[trigger] before[i]) by {
            assert(before[i] == cs[i]);
        }
        lemma_resolve_components(stack, before);
        let r = resolve_from(stack, before);
        assert(cs.last() == cs[cs.len() - 1]);
        let q = push_component(r, cs.last());
        assert forall|i: int| 0 <= i < q.len() implies is_component(#[trigger] q[i]) by {
            if i < r.len() {
                assert(q[i] == r[i]);
            }
        }
    }
}

/// Text without `sep`, split on `sep` after being joined with it, comes back
/// as it was.
proof fn lemma_split_sep_joined(cs: Seq<Seq<char>>, sep: char)
    requires
        cs.len() > 0,
        forall|i: int| 0 <= i < cs.len() ==> free_of(#[trigger] cs[i], sep),
    ensures
        split_on(sep_joined(cs, sep), sep) == cs,
    decreases cs.len(),
{
    let e = Seq::<char>::empty();
    assert(split_on(e, sep) =~= seq![e]);
    if cs.len() == 1 {
        assert(free_of(cs[0], sep));
        crate::text::lemma_split_on_append(e, cs[0], sep);
        assert(e + cs[0] =~= cs[0]);
        assert(seq![e].update(0, e + cs[0]) =~= cs);
    } else {
        let before = cs.drop_last();
        assert forall|i: int| 0 <= i < before.len() implies free_of(#[trigger] before[i], sep) by {
            assert(before[i] == cs[i]);
        }
        lemma_split_sep_joined(before, sep);
        let x = sep_joined(before, sep);
        let l = cs.last();
        assert(free_of(l, sep)) by {
            assert(l == cs[cs.len() - 1]);
        }
        crate::text::lemma_split_on_append(x.push(sep), l, sep);
        assert(x.push(sep).drop_last() =~= x);
        assert(x + seq![sep] + l =~= x.push(sep) + l);
        crate::text::lemma_split_on_nonempty(x, sep);
        let p = before.push(e);
        assert(p.update(p.len() - 1, p.last() + l) =~= cs) by {
            assert(e + l =~= l);
        }
    }
}

/// Joining the pieces of a split gives the text back.
proof fn lemma_sep_joined_split(s: Seq<char>, sep: char)
    ensures
        sep_joined(split_on(s, sep), sep) == s,
    decreases s.len(),
{
    let e = Seq::<char>::empty();
    if s.len() == 0 {
        assert(split_on(s, sep) =~= seq![e]);
    } else {
        let prev = split_on(s.drop_last(), sep);
        lemma_sep_joined_split(s.drop_last(), sep);
        crate::text::lemma_split_on_nonempty(s.drop_last(), sep);
        if s.last() == sep {
            assert(prev.push(e).drop_last() =~= prev);
            assert(sep_joined(prev, sep) + seq![sep] + e =~= s);
        } else {
            let q = prev.update(prev.len() - 1, prev.last().push(s.last()));
            if prev.len() == 1 {
                assert(q[0] == prev[0].push(s.last()));
                assert(prev[0].push(s.last()) =~= s);
            } else {
                assert(q.drop_last() =~= prev.drop_last());
                assert(q.last() == prev.last().push(s.last()));
                assert(sep_joined(prev, sep) == sep_joined(prev.drop_last(), sep) + seq![sep]
                    + prev.last());
                assert(sep_joined(q, sep) == sep_joined(prev.drop_last(), sep) + seq![sep]
                    + prev.last().push(s.last()));
                assert(s.drop_last().push(s.last()) =~= s);
                assert(sep_joined(prev.drop_last(), sep) + seq![sep] + prev.last().push(s.last())
                    =~= s);
            }
        }
    }
}

/// The components of a relative path written out with slashes are the ones
/// it was written from.
proof fn lemma_components_of_joined(rel: Seq<Seq<char>>)
    requires
        all_components(rel),
    ensures
        components(if rel.len() == 0 {
            dot()
        } else {
            sep_joined(rel, '/')
        }) == rel,
{
    if rel.len() == 0 {
        let e = Seq::<char>::empty();
        assert(split_on(e, '/') =~= seq![e]);
        crate::text::lemma_split_on_append(e, dot(), '/');
        assert(e + dot() =~= dot());
        assert(split_on(dot(), '/') =~= seq![dot()]);
        assert(seq![dot()].drop_last() =~= Seq::<Seq<char>>::empty());
        assert(seq![dot()].last() == dot());
        assert(!names_something(dot()));
        assert(names(Seq::<Seq<char>>::empty()) == Seq::<Seq<char>>::empty());
        assert(names(seq![dot()]) == names(Seq::<Seq<char>>::empty()));
        assert(names(seq![dot()]) =~= rel);
    } else {
        assert forall|i: int| 0 <= i < rel.len() implies free_of(#[trigger] rel[i], '/') by {
            assert(is_component(rel[i]));
        }
        lemma_split_sep_joined(rel, '/');
        assert forall|i: int| 0 <= i < rel.len() implies names_something(#[trigger] rel[i]) by {
            assert(is_component(rel[i]));
        }
        lemma_names(rel);
        assert(components(sep_joined(rel, '/')) == rel);
    }
}

proof fn lemma_leading_ups_bound(s: Seq<Seq<char>>)
    ensures
        leading_ups(s) <= s.len(),
    decreases s.len(),
{
    if s.len() > 0 && s[0] == dotdot() {
        lemma_leading_ups_bound(s.drop_first());
    }
}

/// A resolved path is its leading `..` followed by a part without any `..`.
proof fn lemma_from_root(s: Seq<Seq<char>>)
    requires
        normal(s),
    ensures
        leading_ups(s) <= s.len(),
        s == ups(leading_ups(s)) + from_root(s),
        !from_root(s).contains(dotdot()),
        normal(from_root(s)),
        from_root(s).len() == 0 || from_root(s)[0] != dotdot(),
    decreases s.len(),
{
    if s.len() > 0 && s[0] == dotdot() {
        let t = s.drop_first();
        assert(normal(t)) by {
            assert forall|i: int, j: int| 0 <= i < j < t.len() && #[trigger] t[j] == dotdot() implies #[trigger] t[i] == dotdot() by {
                assert(t[j] == s[j + 1] && t[i] == s[i + 1]);
            }
        }
        lemma_from_root(t);
        let lt = leading_ups(t);
        assert(leading_ups(s) == 1 + lt);
        assert(s.skip(1 + lt as int) =~= t.skip(lt as int));
        assert(from_root(s) == from_root(t));
        assert(s =~= seq![dotdot()] + t);
        assert(ups(lt + 1) =~= seq![dotdot()] + ups(lt));
        assert(s =~= ups(leading_ups(s)) + from_root(s));
    } else {
        assert(s.skip(0) =~= s);
        assert(ups(0) + s =~= s);
        if s.contains(dotdot()) {
            let j = choose|j: int| 0 <= j < s.len() && s[j] == dotdot();
            if j > 0 {
                assert(s[0] == dotdot());
            }
        }
    }
}

/// `..` in front of a part without `..` go when taken from the root.
proof fn lemma_from_root_of(a: nat, t: Seq<Seq<char>>)
    requires
        t.len() == 0 || t[0] != dotdot(),
    ensures
        from_root(ups(a) + t) == t,
    decreases a,
{
    if a == 0 {
        assert(ups(0) + t =~= t);
        assert(t.skip(0) =~= t);
    } else {
        lemma_from_root_of((a - 1) as nat, t);
        let u = ups(a) + t;
        assert(u[0] == dotdot());
        assert(u.drop_first() =~= ups((a - 1) as nat) + t);
        let l = leading_ups(u.drop_first());
        lemma_leading_ups_bound(u.drop_first());
        assert(leading_ups(u) == 1 + l);
        assert(u.skip(1 + l as int) =~= u.drop_first().skip(l as int));
    }
}

/// Taken from the root, resolving on top of a path gives what resolving on
/// top of that path taken from the root gives.
proof fn lemma_from_root_resolve(s: Seq<Seq<char>>, cs: Seq<Seq<char>>)
    requires
        normal(s),
    ensures
        from_root(resolve_from(s, cs)) == from_root(resolve_from(from_root(s), cs)),
    decreases cs.len(),
{
    lemma_from_root(s);
    if cs.len() > 0 {
        lemma_from_root_resolve(s, cs.drop_last());
        let a = resolve_from(s, cs.drop_last());
        let b = resolve_from(from_root(s), cs.drop_last());
        lemma_resolve_normal(s, cs.drop_last());
        lemma_resolve_normal(from_root(s), cs.drop_last());
        lemma_from_root(a);
        lemma_from_root(b);
        let t = from_root(a);
        let na = leading_ups(a);
        let nb = leading_ups(b);
        let x = cs.last();
        if x == dotdot() && t.len() > 0 {
            assert(a.last() == t.last());
            assert(b.last() == t.last());
            assert(t.last() != dotdot()) by {
                assert(t.last() == t[t.len() - 1]);
            }
            assert(a.drop_last() =~= ups(na) + t.drop_last());
            assert(b.drop_last() =~= ups(nb) + t.drop_last());
            assert(t.drop_last().len() == 0 || t.drop_last()[0] != dotdot()) by {
                if t.drop_last().len() > 0 {
                    assert(t.drop_last()[0] == t[0]);
                }
            }
            lemma_from_root_of(na, t.drop_last());
            lemma_from_root_of(nb, t.drop_last());
        } else if x == dotdot() {
            assert(a =~= ups(na));
            assert(b =~= ups(nb));
            let a2 = push_component(a, x);
            let b2 = push_component(b, x);
            assert(a2 =~= ups(na + 1)) by {
                if na > 0 {
                    assert(a.last() == dotdot());
                }
            }
            assert(b2 =~= ups(nb + 1)) by {
                if nb > 0 {
                    assert(b.last() == dotdot());
                }
            }
            let e = Seq::<Seq<char>>::empty();
            assert(ups(na + 1) + e =~= ups(na + 1));
            assert(ups(nb + 1) + e =~= ups(nb + 1));
            lemma_from_root_of(na + 1, e);
            lemma_from_root_of(nb + 1, e);
        } else {
            assert(a.push(x) =~= ups(na) + t.push(x));
            assert(b.push(x) =~= ups(nb) + t.push(x));
            assert(t.push(x)[0] != dotdot()) by {
                if t.len() == 0 {
                    assert(t.push(x)[0] == x);
                } else {
                    assert(t.push(x)[0] == t[0]);
                }
            }
            lemma_from_root_of(na, t.push(x));
            lemma_from_root_of(nb, t.push(x));
        }
    }
}

proof fn lemma_no_move_warnings(lines: Seq<Seq<char>>, from_dir: Seq<char>, to_dir: Seq<char>)
    requires
        dir_place(from_dir) == dir_place(to_dir),
    ensures
        move_warnings(lines, from_dir, to_dir) == Seq::<Seq<char>>::empty(),
    decreases lines.len(),
{
    if lines.len() > 0 {
        lemma_no_move_warnings(lines.drop_last(), from_dir, to_dir);
    }
}

// ---------------------------------------------------------------------------
// Laws
// ---------------------------------------------------------------------------

/// A rewritten path still names the same file: resolved from the new
/// directory, it leads where the old path led from the old directory.
pub proof fn law_rebased_path_names_the_same_file(
    path: Seq<char>,
    from_dir: Seq<char>,
    to_dir: Seq<char>,
)
    ensures
        rebased(path, from_dir, to_dir) matches Some(n) ==> place(to_dir, n) == place(from_dir, path),
{
    if rebased(path, from_dir, to_dir) is Some {
        let n = rebased(path, from_dir, to_dir)->Some_0;
        let cf = components(from_dir);
        let cp = components(path);
        let ct = components(to_dir);
        lemma_components(from_dir);
        lemma_components(path);
        lemma_components(to_dir);
        let e = Seq::<Seq<char>>::empty();
        assert(normal(e));
        assert(all_components(cf + cp)) by {
            assert forall|i: int| 0 <= i < (cf + cp).len() implies is_component(#[trigger] (cf + cp)[i]) by {
                if i < cf.len() {
                    assert((cf + cp)[i] == cf[i]);
                } else {
                    assert((cf + cp)[i] == cp[i - cf.len()]);
                }
            }
        }
        let rooted_dirs = rooted(from_dir);
        let full = resolve(cf + cp);
        lemma_resolve_normal(e, cf + cp);
        lemma_resolve_components(e, cf + cp);
        let target = settle(full, rooted_dirs);
        let r_to = resolve(ct);
        lemma_resolve_normal(e, ct);
        let there = settle(r_to, rooted_dirs);
        lemma_from_root(full);
        lemma_from_root(r_to);
        assert(normal(target) && normal(there));
        assert(all_components(target)) by {
            if rooted_dirs {
                assert forall|i: int| 0 <= i < target.len() implies is_component(#[trigger] target[i]) by {
                    assert(target[i] == full[i + leading_ups(full)]);
                }
            }
        }
        assert(target.take(0) =~= there.take(0));
        lemma_shared_prefix(target, there, 0);
        let k = shared_prefix(target, there, 0);
        let m = (there.len() - k) as nat;
        let rest = target.skip(k as int);
        let rel = ups(m) + rest;
        assert(all_components(rel)) by {
            assert(is_component(dotdot())) by {
                assert(dotdot() != dot()) by {
                    assert(dotdot().len() != dot().len());
                }
            }
            assert forall|i: int| 0 <= i < rel.len() implies is_component(#[trigger] rel[i]) by {
                if i < m {
                    assert(rel[i] == dotdot());
                } else {
                    assert(rel[i] == target[k + i - m]);
                }
            }
        }
        lemma_components_of_joined(rel);
        assert(components(n) == rel);
        lemma_resolve_append(e, ct, rel);
        lemma_resolve_append(there, ups(m), rest);
        lemma_climb(there, k as int, m);
        assert(there.take(there.len() - m) == there.take(k as int));
        lemma_resolve_resolved(target, k as int);
        assert(resolve_from(there, rel) == target);
        if rooted_dirs {
            lemma_from_root_resolve(r_to, rel);
            lemma_from_root(target);
            assert(from_root(target) == target) by {
                assert(target.len() == 0 || target[0] != dotdot()) by {
                    if target.len() > 0 {
                        assert(target[0] == full[leading_ups(full) as int]);
                    }
                }
                assert(leading_ups(target) == 0);
                assert(target.skip(0) =~= target);
            }
        }
    }
}

/// Writing a playlist to the directory it came from (or one that resolves
/// to the same place) changes nothing and reports nothing.
pub proof fn law_same_directory_leaves_playlist_alone(
    output: Seq<char>,
    from_dir: Seq<char>,
    to_dir: Seq<char>,
)
    requires
        dir_place(from_dir) == dir_place(to_dir),
    ensures
        moved_playlist(output, from_dir, to_dir) == (output, Seq::<Seq<char>>::empty()),
{
    let lines = split_on(output, '\n');
    assert(lines.map_values(|l: Seq<char>| moved_line(l, from_dir, to_dir)) =~= lines);
    lemma_sep_joined_split(output, '\n');
    lemma_no_move_warnings(lines, from_dir, to_dir);
}

/// `://` occurs in `l`.
pub open spec fn holds_scheme_mark(l: Seq<char>) -> bool {
    exists|i: int| crate::text::occurs_at(l, seq![':', '/', '/'], i)
}

proof fn lemma_scheme_mark_is_url(l: Seq<char>)
    requires
        holds_scheme_mark(l),
    ensures
        is_url(l),
{
    reveal_strlit("://");
    assert("://"@ =~= seq![':', '/', '/']);
    crate::text::lemma_find_seq(l, seq![':', '/', '/']);
}

proof fn lemma_local_lines_no_urls(lines: Seq<Seq<char>>)
    ensures
        forall|k: int|
            0 <= k < local_lines(lines).len() ==> !holds_scheme_mark(#[trigger] local_lines(lines)[k]),
    decreases lines.len(),
{
    if lines.len() > 0 {
        lemma_local_lines_no_urls(lines.drop_last());
        let l = lines.last();
        if holds_scheme_mark(l) {
            lemma_scheme_mark_is_url(l);
        }
        let before = local_lines(lines.drop_last());
        let r = local_lines(lines);
        assert forall|k: int| 0 <= k < r.len() implies !holds_scheme_mark(#[trigger] r[k]) by {
            if k < before.len() {
                assert(r[k] == before[k]);
            } else {
                assert(r[k] == l);
            }
        }
    }
}

/// A URL (any line holding `://`: `https://`, `rtsp://`, ...) is left
/// alone: it is never rebased, a move keeps it as it is, and it is never
/// listed among the local paths.
pub proof fn law_urls_are_left_alone(l: Seq<char>, from_dir: Seq<char>, to_dir: Seq<char>, output: Seq<char>)
    ensures
        holds_scheme_mark(l) ==> rebased(l, from_dir, to_dir) is None,
        holds_scheme_mark(l) ==> moved_line(l, from_dir, to_dir) == l,
        forall|k: int| 0 <= k < paths_in(output).len() ==> !holds_scheme_mark(#[trigger] paths_in(output)[k]),
{
    if holds_scheme_mark(l) {
        lemma_scheme_mark_is_url(l);
    }
    lemma_local_lines_no_urls(split_on(output, '\n'));
}

// ---------------------------------------------------------------------------
// Executable side
// ---------------------------------------------------------------------------

fn is_entry_line_exec(l: &[char]) -> (r: bool)
    ensures
        r == is_entry_line(l@),
{
    l.len() > 0 && l[0] != '#'
}

/// The local file paths that the normalized playlist `output` refers to: its
/// entry lines that are not URLs, in order.
pub fn local_paths(output: &str) -> (r: Vec<String>)
    ensures
        string_views(r@) == paths_in(output@),
{
    let chars = str_chars(output);
    let lines = split_on_chars(chars.as_slice(), '\n');
    let ghost ls = views(lines@);
    let mut r: Vec<String> = Vec::new();
    let mut i: usize = 0;
    while i < lines.len()
        invariant
            i <= lines@.len(),
            ls == views(lines@),
            ls == split_on(output@, '\n'),
            string_views(r@) == local_lines(ls.take(i as int)),
        decreases lines@.len() - i,
    {
        assert(ls.take(i + 1).drop_last() =~= ls.take(i as int));
        assert(ls[i as int] == lines@[i as int]@);
        let l = lines[i].as_slice();
        if is_entry_line_exec(l) && !is_url_exec(l) {
            let ghost before = string_views(r@);
            r.push(chars_to_string(l));
            assert(string_views(r@) =~= before.push(l@));
        }
        i += 1;
    }
    assert(ls.take(ls.len() as int) =~= ls);
    r
}

fn is_dotdot(c: &[char]) -> (r: bool)
    ensures
        r == (c@ == dotdot()),
{
    let r = c.len() == 2 && c[0] == '.' && c[1] == '.';
    assert(r ==> c@ =~= dotdot());
    r
}

fn is_absolute_exec(p: &[char]) -> (r: bool)
    ensures
        r == is_absolute(p@),
{
    (p.len() > 0 && p[0] == '/') || (p.len() >= 2 && p[1] == ':' && (('a' <= p[0] && p[0] <= 'z')
        || ('A' <= p[0] && p[0] <= 'Z')))
}

fn components_exec(p: &[char]) -> (r: Vec<Vec<char>>)
    ensures
        views(r@) == components(p@),
{
    let pieces = split_on_chars(p, '/');
    let ghost ps = views(pieces@);
    let mut r: Vec<Vec<char>> = Vec::new();
    let mut i: usize = 0;
    while i < pieces.len()
        invariant
            i <= pieces@.len(),
            ps == views(pieces@),
            ps == split_on(p@, '/'),
            views(r@) == names(ps.take(i as int)),
        decreases pieces@.len() - i,
    {
        assert(ps.take(i + 1).drop_last() =~= ps.take(i as int));
        assert(ps[i as int] == pieces@[i as int]@);
        let c = pieces[i].as_slice();
        let is_dot = c.len() == 1 && c[0] == '.';
        assert(is_dot == (c@ == dot())) by {
            if c@ == dot() {
                assert(c@.len() == 1 && c@[0] == '.');
            }
            if is_dot {
                assert(c@ =~= dot());
            }
        }
        if c.len() > 0 && !is_dot {
            let ghost before = views(r@);
            let v = copy_range(c, 0, c.len());
            assert(v@ =~= c@);
            r.push(v);
            assert(views(r@) =~= before.push(c@));
        }
        i += 1;
    }
    assert(ps.take(ps.len() as int) =~= ps);
    r
}

/// Resolves the components `cs` on top of `stack`.
fn resolve_onto(stack: &mut Vec<Vec<char>>, cs: &Vec<Vec<char>>)
    ensures
        views(final(stack)@) == resolve_from(views(old(stack)@), views(cs@)),
{
    let ghost start = views(stack@);
    let ghost cv = views(cs@);
    let mut i: usize = 0;
    assert(cv.take(0) =~= Seq::<Seq<char>>::empty());
    while i < cs.len()
        invariant
            i <= cs@.len(),
            cv == views(cs@),
            views(stack@) == resolve_from(start, cv.take(i as int)),
        decreases cs@.len() - i,
    {
        assert(cv.take(i + 1).drop_last() =~= cv.take(i as int));
        assert(cv[i as int] == cs@[i as int]@);
        let c = cs[i].as_slice();
        let ghost before = views(stack@);
        let n: usize = stack.len();
        if is_dotdot(c) && n > 0 && !is_dotdot(stack[n - 1].as_slice()) {
            assert(before.last() == stack@[n - 1]@);
            stack.pop();
            assert(views(stack@) =~= before.drop_last());
        } else {
            if n > 0 {
                assert(before.last() == stack@[n - 1]@);
            }
            let v = copy_range(c, 0, c.len());
            assert(v@ =~= c@);
            stack.push(v);
            assert(views(stack@) =~= before.push(c@));
        }
        i += 1;
    }
    assert(cv.take(cv.len() as int) =~= cv);
}

fn resolve_exec(cs: &Vec<Vec<char>>) -> (r: Vec<Vec<char>>)
    ensures
        views(r@) == resolve(views(cs@)),
{
    let mut stack: Vec<Vec<char>> = Vec::new();
    assert(views(stack@) =~= Seq::<Seq<char>>::empty());
    resolve_onto(&mut stack, cs);
    stack
}

fn same_components(a: &Vec<Vec<char>>, b: &Vec<Vec<char>>) -> (r: bool)
    ensures
        r == (views(a@) == views(b@)),
{
    if a.len() != b.len() {
        assert(views(a@).len() != views(b@).len());
        return false;
    }
    let mut i: usize = 0;
    while i < a.len()
        invariant
            i <= a@.len() == b@.len(),
            forall|j: int| 0 <= j < i ==> a@[j]@ == b@[j]@,
        decreases a@.len() - i,
    {
        if !eq_chars(a[i].as_slice(), b[i].as_slice()) {
            assert(views(a@)[i as int] != views(b@)[i as int]);
            return false;
        }
        i += 1;
    }
    assert(views(a@) =~= views(b@));
    true
}

fn shared_prefix_exec(a: &Vec<Vec<char>>, b: &Vec<Vec<char>>) -> (k: usize)
    ensures
        k == shared_prefix(views(a@), views(b@), 0),
{
    let ghost av = views(a@);
    let ghost bv = views(b@);
    let mut i: usize = 0;
    while i < a.len() && i < b.len() && eq_chars(a[i].as_slice(), b[i].as_slice())
        invariant
            i <= a@.len(),
            av == views(a@),
            bv == views(b@),
            shared_prefix(av, bv, 0) == shared_prefix(av, bv, i as nat),
        decreases a@.len() - i,
    {
        i += 1;
    }
    i
}

/// `cs[k..]` holds a `..`.
fn dotdot_after(cs: &Vec<Vec<char>>, k: usize) -> (r: bool)
    requires
        k <= cs@.len(),
    ensures
        r == views(cs@).skip(k as int).contains(dotdot()),
{
    let ghost rest = views(cs@).skip(k as int);
    let mut i: usize = k;
    while i < cs.len()
        invariant
            k <= i <= cs@.len(),
            rest == views(cs@).skip(k as int),
            forall|j: int| 0 <= j < i - k ==> rest[j] != dotdot(),
        decreases cs@.len() - i,
    {
        if is_dotdot(cs[i].as_slice()) {
            assert(rest[i - k] == dotdot());
            return true;
        }
        i += 1;
    }
    false
}

/// Appends the components `cs` to `out`, separated by `/`.
fn push_slash_joined(out: &mut Vec<char>, cs: &Vec<Vec<char>>)
    requires
        old(out)@.len() == 0,
    ensures
        final(out)@ == sep_joined(views(cs@), '/'),
{
    let ghost cv = views(cs@);
    let mut i: usize = 0;
    while i < cs.len()
        invariant
            i <= cs@.len(),
            cv == views(cs@),
            out@ == sep_joined(cv.take(i as int), '/'),
        decreases cs@.len() - i,
    {
        assert(cv.take(i + 1).drop_last() =~= cv.take(i as int));
        assert(cv[i as int] == cs@[i as int]@);
        let ghost before = out@;
        if i > 0 {
            out.push('/');
        }
        let c = cs[i].as_slice();
        let mut j: usize = 0;
        let ghost mid = out@;
        while j < c.len()
            invariant
                j <= c@.len(),
                out@ == mid + c@.take(j as int),
            decreases c@.len() - j,
        {
            out.push(c[j]);
            j += 1;
            assert(out@ =~= mid + c@.take(j as int));
        }
        assert(c@.take(c@.len() as int) =~= c@);
        if i == 0 {
            assert(cv.take(1) =~= seq![c@]);
            assert(out@ =~= c@);
        } else {
            assert(out@ =~= before + seq!['/'] + c@);
        }
        i += 1;
    }
    assert(cv.take(cv.len() as int) =~= cv);
}

/// A resolved path, taken from the root where `rooted`.
fn settle_exec(v: Vec<Vec<char>>, rooted: bool) -> (r: Vec<Vec<char>>)
    ensures
        views(r@) == settle(views(v@), rooted),
{
    if !rooted {
        return v;
    }
    let ghost vs = views(v@);
    let mut i: usize = 0;
    assert(vs.skip(0) =~= vs);
    while i < v.len() && is_dotdot(v[i].as_slice())
        invariant
            i <= v@.len(),
            vs == views(v@),
            leading_ups(vs) == i + leading_ups(vs.skip(i as int)),
        decreases v@.len() - i,
    {
        assert(vs[i as int] == v@[i as int]@);
        let ghost w = vs.skip(i as int);
        assert(w[0] == dotdot());
        assert(w.drop_first() =~= vs.skip(i + 1));
        i += 1;
    }
    proof {
        let w = vs.skip(i as int);
        if i < v@.len() {
            assert(w[0] == vs[i as int]);
            assert(vs[i as int] == v@[i as int]@);
        }
        assert(leading_ups(w) == 0);
    }
    let mut r: Vec<Vec<char>> = Vec::new();
    let mut j: usize = i;
    while j < v.len()
        invariant
            i <= j <= v@.len(),
            vs == views(v@),
            views(r@) == vs.subrange(i as int, j as int),
        decreases v@.len() - j,
    {
        let c = v[j].as_slice();
        let x = copy_range(c, 0, c.len());
        assert(x@ =~= vs[j as int]);
        let ghost before = views(r@);
        r.push(x);
        assert(views(r@) =~= before.push(vs[j as int]));
        j += 1;
        assert(views(r@) =~= vs.subrange(i as int, j as int));
    }
    assert(vs.subrange(i as int, vs.len() as int) =~= vs.skip(i as int));
    r
}

fn rebase_path_chars(path: &[char], from_dir: &[char], to_dir: &[char]) -> (r: Option<Vec<char>>)
    ensures
        match rebased(path@, from_dir@, to_dir@) {
            None => r is None,
            Some(n) => r matches Some(v) && v@ == n,
        },
{
    let from_rooted = from_dir.len() > 0 && from_dir[0] == '/';
    let to_rooted = to_dir.len() > 0 && to_dir[0] == '/';
    if is_url_exec(path) || is_absolute_exec(path) || from_rooted != to_rooted {
        return None;
    }
    let from_cs = components_exec(from_dir);
    let to_cs = components_exec(to_dir);
    let here = settle_exec(resolve_exec(&from_cs), from_rooted);
    let there = settle_exec(resolve_exec(&to_cs), to_rooted);
    if same_components(&here, &there) {
        return None;
    }
    let path_cs = components_exec(path);
    proof {
        lemma_resolve_append(Seq::<Seq<char>>::empty(), views(from_cs@), views(path_cs@));
    }
    let mut target: Vec<Vec<char>> = Vec::new();
    assert(views(target@) =~= Seq::<Seq<char>>::empty());
    resolve_onto(&mut target, &from_cs);
    resolve_onto(&mut target, &path_cs);
    let target = settle_exec(target, from_rooted);
    let k = shared_prefix_exec(&target, &there);
    proof {
        assert(views(target@).take(0) =~= views(there@).take(0));
        lemma_shared_prefix(views(target@), views(there@), 0);
    }
    if dotdot_after(&there, k) {
        return None;
    }
    let mut rel: Vec<Vec<char>> = Vec::new();
    let m: usize = there.len() - k;
    let mut j: usize = 0;
    while j < m
        invariant
            j <= m,
            views(rel@) == ups(j as nat),
        decreases m - j,
    {
        let ghost before = views(rel@);
        let v: Vec<char> = vec!['.', '.'];
        assert(v@ =~= dotdot());
        rel.push(v);
        j += 1;
        assert(views(rel@) =~= before.push(dotdot()));
        assert(views(rel@) =~= ups(j as nat));
    }
    let ghost ups_part = views(rel@);
    let mut i: usize = k;
    while i < target.len()
        invariant
            k <= i <= target@.len(),
            ups_part == ups(m as nat),
            views(rel@) == ups_part + views(target@).subrange(k as int, i as int),
        decreases target@.len() - i,
    {
        let ghost before = views(rel@);
        let c = target[i].as_slice();
        let v = copy_range(c, 0, c.len());
        assert(v@ =~= target@[i as int]@);
        rel.push(v);
        assert(views(rel@) =~= before.push(views(target@)[i as int]));
        i += 1;
        assert(views(rel@) =~= ups_part + views(target@).subrange(k as int, i as int));
    }
    assert(views(target@).subrange(k as int, target@.len() as int) =~= views(target@).skip(k as int));
    let mut new_path: Vec<char> = Vec::new();
    if rel.len() == 0 {
        new_path.push('.');
        assert(new_path@ =~= dot());
    } else {
        push_slash_joined(&mut new_path, &rel);
    }
    if eq_chars(new_path.as_slice(), path) {
        None
    } else {
        Some(new_path)
    }
}

/// The path that names, from `to_dir`, the file that `path` names from
/// `from_dir`, or `None` where `path` stays as it is (see `rebased`).
pub fn rebase_path(path: &str, from_dir: &str, to_dir: &str) -> (r: Option<String>)
    ensures
        match rebased(path@, from_dir@, to_dir@) {
            None => r is None,
            Some(n) => r matches Some(s) && s@ == n,
        },
{
    let p = str_chars(path);
    let f = str_chars(from_dir);
    let t = str_chars(to_dir);
    match rebase_path_chars(p.as_slice(), f.as_slice(), t.as_slice()) {
        Some(v) => Some(chars_to_string(v.as_slice())),
        None => None,
    }
}

/// The normalized playlist `output`, read from `from_dir`, as it is written
/// to `to_dir`: every relative path is rebased so that it names the same
/// file, and each rewrite is reported.
pub fn move_playlist(output: &str, from_dir: &str, to_dir: &str) -> (r: (String, Vec<String>))
    ensures
        (r.0@, string_views(r.1@)) == moved_playlist(output@, from_dir@, to_dir@),
{
    let chars = str_chars(output);
    let f = str_chars(from_dir);
    let t = str_chars(to_dir);
    let lines = split_on_chars(chars.as_slice(), '\n');
    let ghost ls = views(lines@);
    let ghost moved = ls.map_values(|l: Seq<char>| moved_line(l, from_dir@, to_dir@));
    let mut out: String = String::new();
    let mut warnings: Vec<String> = Vec::new();
    let mut i: usize = 0;
    while i < lines.len()
        invariant
            i <= lines@.len(),
            ls == views(lines@),
            ls == split_on(output@, '\n'),
            f@ == from_dir@,
            t@ == to_dir@,
            moved == ls.map_values(|l: Seq<char>| moved_line(l, from_dir@, to_dir@)),
            out@ == sep_joined(moved.take(i as int), '\n'),
            string_views(warnings@) == move_warnings(ls.take(i as int), from_dir@, to_dir@),
        decreases lines@.len() - i,
    {
        assert(ls.take(i + 1).drop_last() =~= ls.take(i as int));
        assert(moved.take(i + 1).drop_last() =~= moved.take(i as int));
        assert(ls[i as int] == lines@[i as int]@);
        let l = lines[i].as_slice();
        let ghost before = out@;
        if i > 0 {
            out.push('\n');
        }
        let ghost mid = out@;
        let ghost wbefore = string_views(warnings@);
        if is_entry_line_exec(l) {
            match rebase_path_chars(l, f.as_slice(), t.as_slice()) {
                Some(n) => {
                    push_chars(&mut out, n.as_slice());
                    let mut msg = string_of("rewrote relative path '");
                    push_chars(&mut msg, l);
                    let sep = str_chars("' to '");
                    push_chars(&mut msg, sep.as_slice());
                    push_chars(&mut msg, n.as_slice());
                    msg.push('\'');
                    proof {
                        reveal_strlit("'");
                        assert(msg@ =~= msg_rewrote(l@, n@));
                    }
                    warnings.push(msg);
                    assert(string_views(warnings@) =~= wbefore.push(msg_rewrote(l@, n@)));
                },
                None => {
                    push_chars(&mut out, l);
                },
            }
        } else {
            push_chars(&mut out, l);
        }
        assert(moved[i as int] == moved_line(l@, from_dir@, to_dir@));
        if i == 0 {
            assert(moved.take(1) =~= seq![moved[0]]);
            assert(out@ =~= moved[0]);
        } else {
            assert(out@ =~= before + seq!['\n'] + moved[i as int]);
        }
        i += 1;
    }
    assert(ls.take(ls.len() as int) =~= ls);
    assert(moved.take(moved.len() as int) =~= moved);
    (out, warnings)
}

} // verus!
