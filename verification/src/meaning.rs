//! What the texts of this library mean: which texts hold others, how paths are compared, and what
//! the lines and messages read, character by character.
use vstd::prelude::*;
use vstd::utf8::*;

use crate::color;
use crate::event::{Color, EventView, SpanView};
use crate::hash::{hex_decoded, hex_encoded, is_hash_text, EMPTY_HASH};
use crate::line::missing_hash_warning;
use crate::model::{ambiguity_events, first_from, is_excluded, mismatch_warning, pick, source_of};
use crate::node::NodeView;
use crate::order::{
    best_match, common_len, lemma_common_len, lemma_common_len_is, lex_less, rev_bytes,
    BestPrefixMatch,
};
use crate::report::{
    copy_move_line, modify_line, quoted_chars, rest_text, shared_len, shell_quoted, single_line,
};
use crate::sort::{sort_key, sorted};
use crate::text::{
    ascii_prefix, behind_last_slash, common_chars, contains_text, decimal, is_ascii_char,
    lemma_common_chars,
};
use crate::timer::timing_events;
use crate::tree::{error_message, is_missing, missing_code, missing_messages, stdin_path};

verus! {

/// A text holds what stands anywhere in it, at its start and at its end too.
pub proof fn law_contains_middle(a: Seq<char>, b: Seq<char>, c: Seq<char>)
    ensures
        contains_text(a + b + c, b),
{
    let text = a + b + c;
    assert(text.subrange(a.len() as int, (a.len() + b.len()) as int) =~= b);
}

/// A text holds only what stands in it: it can be taken apart into what is before, the text that it
/// holds, and what is behind.
pub proof fn law_contains_only(text: Seq<char>, part: Seq<char>) -> (res: (Seq<char>, Seq<char>))
    requires
        contains_text(text, part),
    ensures
        text == res.0 + part + res.1,
{
    let i = choose|i: int|
        0 <= i <= text.len() - part.len() && #[trigger] text.subrange(i, i + part.len()) == part;
    let res = (text.take(i), text.skip(i + part.len()));
    assert(text =~= res.0 + text.subrange(i, i + part.len()) + res.1);
    res
}

/// Whether `part` stands in `text` from the index `i` on.
pub open spec fn is_part_at(part: Seq<char>, text: Seq<char>, i: int) -> bool {
    &&& 0 <= i
    &&& i + part.len() <= text.len()
    &&& forall|j: int| 0 <= j < part.len() ==> text[i + j] == #[trigger] part[j]
}

/// A path is excluded just if one of the given texts stands anywhere in it.
pub proof fn law_is_excluded(path: Seq<char>, excludes: Seq<Seq<char>>)
    ensures
        is_excluded(path, excludes) <==> exists|k: int, i: int|
            0 <= k < excludes.len() && #[trigger] is_part_at(excludes[k], path, i),
{
    if is_excluded(path, excludes) {
        let k = choose|k: int|
            0 <= k < excludes.len() && contains_text(path, #[trigger] excludes[k]);
        let x = excludes[k];
        let i = choose|i: int|
            0 <= i <= path.len() - x.len() && #[trigger] path.subrange(i, i + x.len()) == x;
        assert forall|j: int| 0 <= j < x.len() implies path[i + j] == #[trigger] x[j] by {
            assert(path.subrange(i, i + x.len())[j] == path[i + j]);
        }
        assert(is_part_at(excludes[k], path, i));
    }
    if exists|k: int, i: int|
        0 <= k < excludes.len() && #[trigger] is_part_at(excludes[k], path, i) {
        let (k, i) = choose|k: int, i: int|
            0 <= k < excludes.len() && #[trigger] is_part_at(excludes[k], path, i);
        let x = excludes[k];
        assert(path.subrange(i, i + x.len()) =~= x);
        assert(contains_text(path, excludes[k]));
    }
}

/// Whether the last `n` bytes of `p` and `q` are the same.
pub open spec fn share_end(p: Seq<char>, q: Seq<char>, n: int) -> bool {
    let (a, b) = (encode_utf8(p), encode_utf8(q));
    &&& 0 <= n <= a.len()
    &&& n <= b.len()
    &&& forall|i: int| 0 <= i < n ==> #[trigger] a[a.len() - 1 - i] == b[b.len() - 1 - i]
}

/// Whether `p` stands before `q` when paths are compared byte by byte from their ends: behind an end
/// that they share, `p` is used up, or has the smaller byte.
pub open spec fn ends_before(p: Seq<char>, q: Seq<char>) -> bool {
    let (a, b) = (encode_utf8(p), encode_utf8(q));
    exists|n: int| #[trigger]
        share_end(p, q, n) && n < b.len() && (n == a.len() || a[a.len() - 1 - n] < b[b.len() - 1
            - n])
}

/// What paths are ranked by is how much of their ends they share: as many bytes of their keys agree
/// as bytes at the ends of the paths do.
pub proof fn law_common_end(p: Seq<char>, q: Seq<char>, n: int)
    requires
        0 <= n,
    ensures
        n <= common_len(rev_bytes(p), rev_bytes(q)) <==> share_end(p, q, n),
{
    let (a, b) = (encode_utf8(p), encode_utf8(q));
    let (x, y) = (rev_bytes(p), rev_bytes(q));
    lemma_common_len(x, y);
    if n <= common_len(x, y) {
        assert forall|i: int| 0 <= i < n implies #[trigger] a[a.len() - 1 - i] == b[b.len() - 1
            - i] by {
            assert(x[i] == y[i]);
        }
    }
    if share_end(p, q, n) {
        assert forall|i: int| 0 <= i < n implies #[trigger] x[i] == y[i] by {
            assert(a[a.len() - 1 - i] == b[b.len() - 1 - i]);
        }
        lemma_common_len_is(x, y, n as nat);
    }
}

/// The order of paths is that of their bytes from the ends on.
pub proof fn law_end_order(p: Seq<char>, q: Seq<char>)
    ensures
        lex_less(rev_bytes(p), rev_bytes(q)) <==> ends_before(p, q),
{
    let (a, b) = (encode_utf8(p), encode_utf8(q));
    let (x, y) = (rev_bytes(p), rev_bytes(q));
    let n = common_len(x, y) as int;
    lemma_common_len(x, y);
    law_common_end(p, q, n);
    if lex_less(x, y) {
        assert(share_end(p, q, n));
        if n < a.len() {
            assert(x[n] == a[a.len() - 1 - n] && y[n] == b[b.len() - 1 - n]);
        }
    }
    if ends_before(p, q) {
        let m = choose|m: int| #[trigger]
            share_end(p, q, m) && m < b.len() && (m == a.len() || a[a.len() - 1 - m] < b[b.len() - 1
                - m]);
        law_common_end(p, q, m);
        if m < n {
            assert(x[m] == y[m]);
            assert(x[m] == a[a.len() - 1 - m] && y[m] == b[b.len() - 1 - m]);
        }
        if m < a.len() {
            assert(x[m] == a[a.len() - 1 - m] && y[m] == b[b.len() - 1 - m]);
        }
    }
}

/// Whether the first `n` bytes of `a` and `b` are the same.
pub open spec fn share_start(a: Seq<u8>, b: Seq<u8>, n: int) -> bool {
    0 <= n <= a.len() && n <= b.len() && a.take(n) == b.take(n)
}

/// Of two byte strings, the better match for a third is the one that agrees with it in more bytes
/// from the start on.
pub proof fn law_best_match(r: Seq<u8>, a: Seq<u8>, b: Seq<u8>)
    ensures
        best_match(r, a, b) == BestPrefixMatch::First <==> exists|n: int| #[trigger]
            share_start(r, a, n) && !share_start(r, b, n),
        best_match(r, a, b) == BestPrefixMatch::Second <==> exists|n: int| #[trigger]
            share_start(r, b, n) && !share_start(r, a, n),
{
    let (m, k) = (common_len(r, a) as int, common_len(r, b) as int);
    assert forall|n: int| 0 <= n implies (#[trigger] share_start(r, a, n) <==> n <= m) by {
        lemma_share_start(r, a, n);
    }
    assert forall|n: int| 0 <= n implies (#[trigger] share_start(r, b, n) <==> n <= k) by {
        lemma_share_start(r, b, n);
    }
    if m > k {
        assert(share_start(r, a, m) && !share_start(r, b, m));
    }
    if k > m {
        assert(share_start(r, b, k) && !share_start(r, a, k));
    }
}

proof fn lemma_share_start(a: Seq<u8>, b: Seq<u8>, n: int)
    requires
        0 <= n,
    ensures
        n <= common_len(a, b) <==> share_start(a, b, n),
{
    lemma_common_len(a, b);
    if n <= common_len(a, b) {
        assert(a.take(n) =~= b.take(n));
    }
    if share_start(a, b, n) {
        assert forall|i: int| 0 <= i < n implies #[trigger] a[i] == b[i] by {
            assert(a.take(n)[i] == b.take(n)[i]);
        }
        lemma_common_len_is(a, b, n as nat);
    }
}

/// Two texts have just as many characters in common as stand alike at their starts.
pub proof fn law_common_chars(a: Seq<char>, b: Seq<char>, n: int)
    requires
        0 <= n,
    ensures
        n <= common_chars(a, b) <==> n <= a.len() && n <= b.len() && a.take(n) == b.take(n),
{
    lemma_common_chars(a, b, 0);
    crate::laws::lemma_common_take(a, b);
    let m = common_chars(a, b) as int;
    if n <= m {
        assert forall|i: int| 0 <= i < n implies a[i] == b[i] by {
            assert(a.take(m)[i] == b.take(m)[i]);
        }
        assert(a.take(n) =~= b.take(n));
    }
    if n <= a.len() && n <= b.len() && a.take(n) == b.take(n) {
        assert forall|i: int| 0 <= i < n implies #[trigger] a[i] == b[i] by {
            assert(a.take(n)[i] == b.take(n)[i]);
        }
        lemma_common_chars(a, b, n as nat);
    }
}

/// Within the first `n` characters, a slash stands just before the place that is found, unless that
/// is the start, and none behind it.
pub proof fn law_behind_last_slash(text: Seq<char>, n: int)
    requires
        0 <= n <= text.len(),
    ensures
        0 <= behind_last_slash(text, n) <= n,
        behind_last_slash(text, n) > 0 ==> text[behind_last_slash(text, n) - 1] == '/',
        forall|i: int| behind_last_slash(text, n) <= i < n ==> #[trigger] text[i] != '/',
{
    crate::laws::lemma_behind_last_slash(text, n);
}

/// The nodes of `s` with the given path, in the order of `s`.
pub open spec fn with_path(paths: Seq<Seq<char>>, s: Seq<usize>, path: Seq<char>) -> Seq<usize> {
    s.filter(|id: usize| paths[id as int] == path)
}

/// Nodes with the same key have the same path.
pub proof fn lemma_key_of_path(paths: Seq<Seq<char>>, s: Seq<usize>, p: Seq<char>)
    ensures
        crate::sort::with_key(paths, s, rev_bytes(p)) == with_path(paths, s, p),
    decreases s.len(),
{
    reveal(Seq::filter);
    if s.len() > 0 {
        lemma_key_of_path(paths, s.drop_last(), p);
        let q = paths[s.last() as int];
        if rev_bytes(q) == rev_bytes(p) {
            let (x, y) = (encode_utf8(q), encode_utf8(p));
            assert(x =~= x.reverse().reverse());
            assert(y =~= y.reverse().reverse());
            crate::text::lemma_encode_injective(q, p);
        }
    }
}

/// Sorting moves nodes around, and neither adds nor drops any; no path stands before one that comes
/// before it from the end on; and nodes with the same path keep their order.
pub proof fn law_sorted(paths: Seq<Seq<char>>, s: Seq<usize>)
    ensures
        sorted(paths, s).to_multiset() == s.to_multiset(),
        forall|i: int, j: int|
            0 <= i < j < s.len() ==> !ends_before(
                paths[#[trigger] sorted(paths, s)[j] as int],
                paths[#[trigger] sorted(paths, s)[i] as int],
            ),
        forall|p: Seq<char>| #[trigger]
            with_path(paths, sorted(paths, s), p) == with_path(paths, s, p),
{
    crate::account::lemma_sorted_permutes(paths, s);
    crate::sort::lemma_sorted(paths, s);
    let t = sorted(paths, s);
    assert forall|i: int, j: int| 0 <= i < j < s.len() implies !ends_before(
        paths[#[trigger] t[j] as int],
        paths[#[trigger] t[i] as int],
    ) by {
        law_end_order(paths[t[j] as int], paths[t[i] as int]);
        assert(!lex_less(sort_key(paths, t[j]), sort_key(paths, t[i])));
    }
    assert forall|p: Seq<char>| #[trigger]
        with_path(paths, t, p) == with_path(paths, s, p) by {
        let key = rev_bytes(p);
        lemma_key_of_path(paths, t, p);
        lemma_key_of_path(paths, s, p);
        assert(crate::sort::with_key(paths, t, key) == crate::sort::with_key(paths, s, key));
    }
}


/// The search for a source passes the candidates whose paths come before that of `r` from the end
/// on, and stops at the first other one.
pub proof fn law_first_from(paths: Seq<Seq<char>>, l: Seq<usize>, from: int, r: usize)
    requires
        0 <= from <= l.len(),
    ensures
        from <= first_from(paths, l, from, r) <= l.len(),
        forall|i: int|
            from <= i < first_from(paths, l, from, r) ==> ends_before(
                paths[#[trigger] l[i] as int],
                paths[r as int],
            ),
        first_from(paths, l, from, r) < l.len() ==> !ends_before(
            paths[l[first_from(paths, l, from, r)] as int],
            paths[r as int],
        ),
{
    crate::model::lemma_first_from(paths, l, from, from, r);
    let k = first_from(paths, l, from, r);
    assert forall|i: int| from <= i < k implies ends_before(
        paths[#[trigger] l[i] as int],
        paths[r as int],
    ) by {
        law_end_order(paths[l[i] as int], paths[r as int]);
        assert(lex_less(sort_key(paths, l[i]), sort_key(paths, r)));
    }
    if k < l.len() {
        law_end_order(paths[l[k] as int], paths[r as int]);
    }
}

/// Of the candidates before and at an index, the first is picked just if its path shares a longer
/// end with that of `r`.
pub proof fn law_pick(paths: Seq<Seq<char>>, l: Seq<usize>, k: int, r: usize)
    requires
        l.len() > 0,
        0 <= k <= l.len(),
    ensures
        k == 0 ==> pick(paths, l, k, r) == l[0],
        k == l.len() ==> pick(paths, l, k, r) == l[k - 1],
        0 < k < l.len() ==> pick(paths, l, k, r) == (if exists|n: int| #[trigger]
            share_end(paths[r as int], paths[l[k - 1] as int], n) && !share_end(
                paths[r as int],
                paths[l[k] as int],
                n,
            ) {
            l[k - 1]
        } else {
            l[k]
        }),
{
    if 0 < k < l.len() {
        let (p, a, b) = (paths[r as int], paths[l[k - 1] as int], paths[l[k] as int]);
        let (m, n) = (
            common_len(rev_bytes(p), rev_bytes(a)) as int,
            common_len(rev_bytes(p), rev_bytes(b)) as int,
        );
        assert forall|i: int| 0 <= i implies (#[trigger] share_end(p, a, i) <==> i <= m) by {
            law_common_end(p, a, i);
        }
        assert forall|i: int| 0 <= i implies (#[trigger] share_end(p, b, i) <==> i <= n) by {
            law_common_end(p, b, i);
        }
        if m > n {
            assert(share_end(p, a, m) && !share_end(p, b, m));
        }
    }
}

/// Of all candidates, which are sorted by the ends of their paths, the source shares at least as
/// long an end of its path with `r` as any other.
pub proof fn law_source_shares_most(paths: Seq<Seq<char>>, l: Seq<usize>, r: usize, i: int, n: int)
    requires
        forall|x: int, y: int|
            0 <= x < y < l.len() ==> !ends_before(
                paths[#[trigger] l[y] as int],
                paths[#[trigger] l[x] as int],
            ),
        0 <= i < l.len(),
        share_end(paths[r as int], paths[l[i] as int], n),
    ensures
        l.contains(source_of(paths, l, r)),
        share_end(paths[r as int], paths[source_of(paths, l, r) as int], n),
{
    assert(crate::sort::is_sorted(paths, l)) by {
        assert forall|x: int, y: int|
            #![trigger l[x], l[y]]
            0 <= x < y < l.len() implies !lex_less(sort_key(paths, l[y]), sort_key(paths, l[x])) by {
            law_end_order(paths[l[y] as int], paths[l[x] as int]);
        }
    }
    crate::laws::law_source_is_best(paths, l, r);
    law_common_end(paths[r as int], paths[l[i] as int], n);
    law_common_end(paths[r as int], paths[source_of(paths, l, r) as int], n);
    assert(common_len(sort_key(paths, r), sort_key(paths, l[i])) <= common_len(
        sort_key(paths, r),
        sort_key(paths, source_of(paths, l, r)),
    ));
}

/// The line for a modified file reads `MD` in yellow, a blank, and the path as written for a shell,
/// whatever the path.
pub proof fn law_modify_line(path: Seq<char>)
    ensures
        modify_line(path) == EventView::Line(
            seq![
                SpanView {
                    color: None,
                    text: seq!['\u{1b}', '[', '3', '3', 'm', 'M', 'D'] + seq![
                        '\u{1b}',
                        '[',
                        '3',
                        '9',
                        'm',
                        ' ',
                    ] + shell_quoted(path),
                },
            ],
        ),
{
    reveal_strlit("MD");
    reveal_strlit(" ");
    let text = seq!['\u{1b}', '[', '3', '3', 'm', 'M', 'D'] + seq![
        '\u{1b}',
        '[',
        '3',
        '9',
        'm',
        ' ',
    ] + shell_quoted(path);
    assert(modify_line(path)->Line_0[0].text =~= text);
    assert(modify_line(path)->Line_0 =~= seq![SpanView { color: None, text }]);
}

/// The line for a file that only one tree has reads `RM` in red or `CR` in green, a blank, and the
/// path as written for a shell, in white, or in bright blue if there is no hash.
pub proof fn law_single_line(node: NodeView, deleted: bool)
    ensures
        single_line(node, deleted) == EventView::Line(
            seq![
                if deleted {
                    SpanView { color: Some(Color::Red), text: seq!['R', 'M'] }
                } else {
                    SpanView { color: Some(Color::Green), text: seq!['C', 'R'] }
                },
                SpanView { color: None, text: seq![' '] },
                SpanView {
                    color: if node.hash is None {
                        Some(Color::BrightBlue)
                    } else {
                        Some(Color::White)
                    },
                    text: shell_quoted(node.path),
                },
            ],
        ),
{
    reveal_strlit("RM");
    reveal_strlit("CR");
    reveal_strlit(" ");
    assert("RM"@ =~= seq!['R', 'M']);
    assert("CR"@ =~= seq!['C', 'R']);
    assert(" "@ =~= seq![' ']);
}

/// The line for a copy or move starts with `CP` in cyan or `MV` in magenta. Written in full, a
/// blank, the path of the source, a blank, and the path of the target follow, in this order.
pub proof fn law_full_line(copy: bool, src: Seq<char>, dst: Seq<char>)
    ensures
        copy_move_line(copy, true, src, dst) == EventView::Line(
            seq![
                if copy {
                    SpanView { color: Some(Color::Cyan), text: seq!['C', 'P'] }
                } else {
                    SpanView { color: Some(Color::Magenta), text: seq!['M', 'V'] }
                },
                SpanView { color: None, text: seq![' '] + src + seq![' '] + dst },
            ],
        ),
{
    reveal_strlit("CP");
    reveal_strlit("MV");
    reveal_strlit(" ");
    assert("CP"@ =~= seq!['C', 'P']);
    assert("MV"@ =~= seq!['M', 'V']);
    assert(" "@ =~= seq![' ']);
}

/// Else the verb is followed by the deepest directory that both paths share, in bright white, and by
/// what each path has behind it, as written for a shell, the source first: nothing if the path is
/// that directory. With no shared directory, both paths follow in full.
pub proof fn law_shared_line(copy: bool, src: Seq<char>, dst: Seq<char>) -> (dir: Seq<char>)
    ensures
        dir.is_prefix_of(src),
        dir.is_prefix_of(dst),
        dir.len() == 0 || dir.last() == '/',
        forall|n: int|
            dir.len() < n <= src.len() && n <= dst.len() && #[trigger] src.take(n) == dst.take(n)
                ==> src[n - 1] != '/',
        copy_move_line(copy, false, src, dst) == EventView::Line(
            seq![
                if copy {
                    SpanView { color: Some(Color::Cyan), text: seq!['C', 'P'] }
                } else {
                    SpanView { color: Some(Color::Magenta), text: seq!['M', 'V'] }
                },
                SpanView {
                    color: None,
                    text: seq![' ', '\u{1b}', '[', '9', '7', 'm'] + dir + seq![
                        '\u{1b}',
                        '[',
                        '3',
                        '9',
                        'm',
                    ] + (if dir.len() == 0 {
                        seq![]
                    } else {
                        seq![' ']
                    }) + (if dir.len() > 0 && src == dir {
                        seq![]
                    } else {
                        shell_quoted(src.skip(dir.len() as int))
                    }) + seq![' '] + (if dir.len() > 0 && dst == dir {
                        seq![]
                    } else {
                        shell_quoted(dst.skip(dir.len() as int))
                    }),
                },
            ],
        ),
{
    reveal_strlit("CP");
    reveal_strlit("MV");
    reveal_strlit(" ");
    reveal_strlit("");
    assert("CP"@ =~= seq!['C', 'P']);
    assert("MV"@ =~= seq!['M', 'V']);
    assert(""@ =~= Seq::<char>::empty());
    let pos = shared_len(src, dst);
    crate::laws::law_shared_directory(src, dst);
    let dir = dst.take(pos);
    assert(src == dir <==> src.len() == pos) by {
        if src.len() == pos {
            assert(src =~= src.take(pos));
        }
    }
    assert(dst == dir <==> dst.len() == pos) by {
        if dst.len() == pos {
            assert(dst =~= dst.take(pos));
        }
    }
    assert forall|n: int|
        dir.len() < n <= src.len() && n <= dst.len() && #[trigger] src.take(n) == dst.take(
            n,
        ) implies src[n - 1] != '/' by {
        assert(src.take(n)[n - 1] == dst.take(n)[n - 1]);
    }
    assert(dir.is_prefix_of(src)) by {
        assert(src.subrange(0, pos) =~= src.take(pos));
    }
    let text = seq![' ', '\u{1b}', '[', '9', '7', 'm'] + dir + seq!['\u{1b}', '[', '3', '9', 'm'] + (
    if dir.len() == 0 {
        seq![]
    } else {
        seq![' ']
    }) + rest_text(src, pos) + seq![' '] + rest_text(dst, pos);
    assert(crate::report::shared_text(src, dst) =~= text);
    dir
}

/// A text is written for a shell as it stands just if it is not empty and holds only ASCII letters
/// and digits and `-_=/,.+`; else it stands between single quotes, character by character, with
/// each single quote and exclamation mark written behind a backslash, outside of the quotes.
pub proof fn law_shell_quoted(text: Seq<char>)
    ensures
        ({
            let plain = text.len() > 0 && forall|i: int|
                0 <= i < text.len() ==> {
                    let c = #[trigger] text[i];
                    ||| 'a' <= c <= 'z'
                    ||| 'A' <= c <= 'Z'
                    ||| '0' <= c <= '9'
                    ||| seq!['-', '_', '=', '/', ',', '.', '+'].contains(c)
                };
            shell_quoted(text) == if plain {
                text
            } else {
                seq!['\''] + quoted_chars(text) + seq!['\'']
            }
        }),
{
    let others = seq!['-', '_', '=', '/', ',', '.', '+'];
    assert(others[0] == '-' && others[1] == '_' && others[2] == '=' && others[3] == '/'
        && others[4] == ',' && others[5] == '.' && others[6] == '+');
    assert forall|c: char| #[trigger] others.contains(c) <==> c == '-' || c == '_' || c == '=' || c
        == '/' || c == ',' || c == '.' || c == '+' by {}
    if forall|i: int| 0 <= i < text.len() ==> crate::report::is_plain(#[trigger] text[i]) {
        assert forall|i: int| 0 <= i < text.len() implies {
            let c = #[trigger] text[i];
            ||| 'a' <= c <= 'z'
            ||| 'A' <= c <= 'Z'
            ||| '0' <= c <= '9'
            ||| others.contains(c)
        } by {
            assert(crate::report::is_plain(text[i]));
        }
    }
}

/// Between the quotes, a text is written piece by piece.
pub proof fn law_quoted_pieces(a: Seq<char>, b: Seq<char>)
    ensures
        quoted_chars(a + b) == quoted_chars(a) + quoted_chars(b),
    decreases b.len(),
{
    if b.len() == 0 {
        assert(a + b =~= a);
        assert(quoted_chars(a) + quoted_chars(b) =~= quoted_chars(a));
    } else {
        assert((a + b).drop_last() =~= a + b.drop_last());
        law_quoted_pieces(a, b.drop_last());
        assert(quoted_chars(a + b) =~= quoted_chars(a) + quoted_chars(b));
    }
}

/// Between the quotes, a character is written as it is, but for single quotes and exclamation marks.
pub proof fn law_quoted_piece(c: char)
    ensures
        quoted_chars(seq![c]) == if c == '\'' || c == '!' {
            seq!['\'', '\\', c, '\'']
        } else {
            seq![c]
        },
{
    assert(seq![c].drop_last() =~= Seq::empty());
    assert(quoted_chars(seq![c].drop_last()) =~= Seq::empty());
    assert(quoted_chars(seq![c]) =~= crate::report::quoted_char(c));
}

/// The ASCII characters are those below 128.
pub proof fn law_ascii(c: char, text: Seq<char>, n: int)
    ensures
        is_ascii_char(c) <==> (c as int) < 128,
        ascii_prefix(text, n) <==> 0 <= n <= text.len() && forall|i: int|
            0 <= i < n ==> (#[trigger] text[i] as u32) < 128,
{
}

/// A number is written with the digits of its tenth before its last digit, and with no zero before
/// its first.
pub proof fn law_decimal(n: nat, d: nat)
    requires
        d < 10,
    ensures
        decimal(d) == seq![seq!['0', '1', '2', '3', '4', '5', '6', '7', '8', '9'][d as int]],
        n > 0 ==> decimal(10 * n + d) == decimal(n) + decimal(d),
{
    assert(decimal(d) =~= seq![seq!['0', '1', '2', '3', '4', '5', '6', '7', '8', '9'][d as int]]);
    if n > 0 {
        assert((10 * n + d) / 10 == n && (10 * n + d) % 10 == d);
        assert(decimal(10 * n + d) =~= decimal(n) + decimal(d));
    }
}

/// Whether `c` is the hex digit, in either case, for `v`.
pub open spec fn writes_hex(c: char, v: int) -> bool {
    ||| 0 <= v < 10 && c as int == '0' as int + v
    ||| 10 <= v < 16 && c as int == 'a' as int + v - 10
    ||| 10 <= v < 16 && c as int == 'A' as int + v - 10
}

/// Whether `c` is a hex digit, in either case.
pub open spec fn is_hex(c: char) -> bool {
    exists|v: int| writes_hex(c, v)
}

/// A text writes a hash just if it is thirty-two hex digits, in either case.
pub proof fn law_hash_text(text: Seq<char>)
    ensures
        is_hash_text(text) <==> text.len() == 32 && forall|i: int|
            0 <= i < 32 ==> is_hex(#[trigger] text[i]),
{
    assert forall|i: int| 0 <= i < text.len() implies is_hex(#[trigger] text[i])
        == crate::hash::is_hex_digit(text[i]) by {
        lemma_is_hex(text[i]);
    }
}

pub proof fn lemma_is_hex(c: char)
    ensures
        is_hex(c) == crate::hash::is_hex_digit(c),
{
    if crate::hash::is_hex_digit(c) {
        assert(writes_hex(c, crate::hash::hex_value(c)));
    }
}

/// Each byte of a hash is written by two hex digits, the high one first.
pub proof fn law_hex_decoded(text: Seq<char>, i: int, high: int, low: int)
    requires
        0 <= i,
        2 * i + 1 < text.len(),
        writes_hex(text[2 * i], high),
        writes_hex(text[2 * i + 1], low),
    ensures
        hex_decoded(text).len() == text.len() / 2,
        hex_decoded(text)[i] == 16 * high + low,
{
}

/// Each byte is written by two lower-case hex digits, the high one first.
pub proof fn law_hex_encoded(bytes: Seq<u8>, i: int)
    requires
        0 <= i < bytes.len(),
    ensures
        hex_encoded(bytes).len() == 2 * bytes.len(),
        writes_hex(hex_encoded(bytes)[2 * i], bytes[i] as int / 16),
        writes_hex(hex_encoded(bytes)[2 * i + 1], bytes[i] as int % 16),
        !('A' <= hex_encoded(bytes)[2 * i] <= 'F'),
        !('A' <= hex_encoded(bytes)[2 * i + 1] <= 'F'),
{
    assert((2 * i) / 2 == i && (2 * i + 1) / 2 == i && (2 * i) % 2 == 0 && (2 * i + 1) % 2 == 1);
}

/// The hash of empty files.
pub proof fn law_empty_hash()
    ensures
        hex_encoded(EMPTY_HASH@) == "d41d8cd98f00b204e9800998ecf8427e"@,
{
    reveal_strlit("d41d8cd98f00b204e9800998ecf8427e");
    let text = "d41d8cd98f00b204e9800998ecf8427e"@;
    let bytes = EMPTY_HASH@;
    assert(bytes.len() == 16);
    assert(hex_encoded(bytes) =~= text);
}

/// What the warnings read: the text in bright yellow, with the log that a file comes from, `<` or
/// `>`, and its path.
pub proof fn law_warnings(path: Seq<char>, side: int)
    requires
        side == 0 || side == 1,
    ensures
        ({
            let on = seq!['\u{1b}', '[', '9', '3', 'm'];
            let off = seq!['\u{1b}', '[', '3', '9', 'm'];
            let mark = if side == 0 {
                seq!['<']
            } else {
                seq!['>']
            };
            &&& missing_hash_warning(side, path) == EventView::Warning(
                on + "[WARNING] Missing hash ["@ + mark + "]: "@ + path + off,
            )
            &&& mismatch_warning(side, path) == EventView::Warning(
                on + "[WARNING] File-size mismatch ["@ + mark + "]: "@ + path + off,
            )
        }),
{
    reveal_strlit("<");
    reveal_strlit(">");
    assert("<"@ =~= seq!['<']);
    assert(">"@ =~= seq!['>']);
}

/// The closing warning counts the ambiguous files of both logs, the left ones first, unless there
/// are none.
pub proof fn law_closing_warning(left: nat, right: nat)
    ensures
        ambiguity_events(left, right) == if left == 0 && right == 0 {
            seq![]
        } else {
            seq![
                EventView::Warning(
                    seq!['\u{1b}', '[', '9', '3', 'm'] + "[WARNING] Ambiguous files: < "@ + decimal(
                        left,
                    ) + ", > "@ + decimal(right) + seq!['\u{1b}', '[', '3', '9', 'm'],
                ),
            ]
        },
{
}

/// A phase is told of just if timings are asked for, by its name.
pub proof fn law_timing(enable: bool, context: Seq<char>)
    ensures
        timing_events(enable, context).len() == (if enable {
            1int
        } else {
            0
        }),
        enable ==> timing_events(enable, context)[0] == EventView::Timing(context),
{
}


/// Trees cannot be compared just if both are standard input, `-`, which has the exit code 3, or if
/// one that is not standard input is missing: then the exit code is 1 for the left one, 2 for the
/// right one and 3 for both, and each is named in a message in bright red, the left one first.
pub proof fn law_missing(l: Seq<char>, r: Seq<char>, exists_l: bool, exists_r: bool)
    ensures
        stdin_path() == seq!['-'],
        is_missing(l, exists_l) <==> l != seq!['-'] && !exists_l,
        missing_code(false, false) == 0,
        missing_code(true, false) == 1,
        missing_code(false, true) == 2,
        missing_code(true, true) == 3,
        error_message(l) == seq!['\u{1b}', '[', '9', '1', 'm'] + l + seq![
            '\u{1b}',
            '[',
            '3',
            '9',
            'm',
        ],
        ({
            let message = |tree: Seq<char>, path: Seq<char>|
                error_message("[ERROR]: "@ + tree + " tree '"@ + path + "' not found"@);
            &&& missing_messages(l, r, false, false) == Seq::<Seq<char>>::empty()
            &&& missing_messages(l, r, true, false) == seq![message("Left"@, l)]
            &&& missing_messages(l, r, false, true) == seq![message("Right"@, r)]
            &&& missing_messages(l, r, true, true) == seq![
                message("Left"@, l),
                message("Right"@, r),
            ]
        }),
{
    let (a, b) = (
        seq![crate::tree::not_found_message("Left"@, l)],
        seq![crate::tree::not_found_message("Right"@, r)],
    );
    let none = Seq::<Seq<char>>::empty();
    assert(none + none =~= none);
    assert(a + none =~= a);
    assert(none + b =~= b);
    assert(a + b =~= seq![a[0], b[0]]);
}

} // verus!
