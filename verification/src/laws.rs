//! What holds of the parts of a comparison, whatever the logs.
use vstd::prelude::*;

use crate::hash::{
    big_endian, hex_decoded, hex_digit, hex_encoded, hex_value, is_hash_text, is_hex_digit,
    lemma_big_endian_injective,
};
use crate::line::{
    behind_tag, decimal_value, has_line_end, here, is_blank, is_digit, is_line_end, is_skipped,
    lemma_run_len, parse_hash, parse_line, parse_number, parse_path, run_len, separator,
    starts_with_dashes, starts_with_hash, without_blanks, without_here, Entry, LineError,
};
use crate::model::{first_from, lemma_first_from, source_of};
use crate::order::{
    common_len, lemma_common_len_between, lemma_common_len_symmetric, lemma_lex_total, lex_less,
};
use crate::report::{is_plain, quoted_char, quoted_chars, shared_len, shell_quoted};
use crate::sort::{is_sorted, sort_key};
use crate::text::{behind_last_slash, common_chars, decimal, lemma_common_chars, lemma_encode_len};

verus! {

/// The hex digits of a byte string stand for that byte string.
pub proof fn law_hex_round_trip(bytes: Seq<u8>)
    ensures
        hex_decoded(hex_encoded(bytes)) == bytes,
        forall|i: int|
            0 <= i < hex_encoded(bytes).len() ==> is_hex_digit(#[trigger] hex_encoded(bytes)[i]),
        bytes.len() == 16 ==> is_hash_text(hex_encoded(bytes)),
{
    let text = hex_encoded(bytes);
    assert forall|i: int| 0 <= i < text.len() implies is_hex_digit(#[trigger] text[i]) by {
        lemma_hex_digit(bytes[i / 2] as int / 16);
        lemma_hex_digit(bytes[i / 2] as int % 16);
    }
    assert forall|i: int| 0 <= i < bytes.len() implies hex_decoded(text)[i] == bytes[i] by {
        assert((2 * i) / 2 == i && (2 * i + 1) / 2 == i && (2 * i) % 2 == 0 && (2 * i + 1) % 2
            == 1);
        lemma_hex_digit(bytes[i] as int / 16);
        lemma_hex_digit(bytes[i] as int % 16);
    }
    assert(hex_decoded(text) =~= bytes);
}

proof fn lemma_hex_digit(n: int)
    requires
        0 <= n < 16,
    ensures
        is_hex_digit(hex_digit(n)),
        hex_value(hex_digit(n)) == n,
{
}

/// Two hashes are looked up by the same number only if they are the same.
pub proof fn law_hash_keys_differ(a: crate::hash::Hash, b: crate::hash::Hash)
    ensures
        big_endian(a@) == big_endian(b@) <==> a@ == b@,
{
    if big_endian(a@) == big_endian(b@) {
        lemma_big_endian_injective(a@, b@);
    }
}

/// Of all candidates, which are sorted by the ends of their paths, the one that a file is taken to
/// be copied or moved from has the longest end of the path in common with it.
pub proof fn law_source_is_best(paths: Seq<Seq<char>>, l: Seq<usize>, r: usize)
    requires
        l.len() > 0,
        is_sorted(paths, l),
    ensures
        l.contains(source_of(paths, l, r)),
        forall|i: int|
            0 <= i < l.len() ==> common_len(sort_key(paths, r), sort_key(paths, #[trigger] l[i]))
                <= common_len(sort_key(paths, r), sort_key(paths, source_of(paths, l, r))),
{
    let k = first_from(paths, l, 0, r);
    let source = source_of(paths, l, r);
    let key = sort_key(paths, r);
    lemma_first_from(paths, l, 0, 0, r);
    crate::model::lemma_source_of(paths, l, r);
    assert forall|i: int| 0 <= i < l.len() implies common_len(
        key,
        sort_key(paths, #[trigger] l[i]),
    ) <= common_len(key, sort_key(paths, source)) by {
        let a = sort_key(paths, l[i]);
        lemma_lex_total(a, a);
        if i < k {
            let b = sort_key(paths, l[k - 1]);
            assert(!lex_less(b, a));
            lemma_lex_total(b, key);
            lemma_common_len_between(a, b, key);
            lemma_common_len_symmetric(a, key);
            lemma_common_len_symmetric(b, key);
        } else {
            let c = sort_key(paths, l[k]);
            assert(!lex_less(a, c));
            assert(!lex_less(c, key));
            lemma_common_len_between(key, c, a);
        }
    }
}

/// A size in decimal digits, with a sign if it is negative.
pub open spec fn size_text(by: i64) -> Seq<char> {
    if by < 0 {
        seq!['-'] + decimal((-by) as nat)
    } else {
        decimal(by as nat)
    }
}

/// The hash field for a hash, or for a missing one.
pub open spec fn hash_text(hash: Option<Seq<u8>>) -> Seq<char> {
    match hash {
        Some(h) => hex_encoded(h),
        None => Seq::new(32, |i: int| '-'),
    }
}

/// The line of a log with the given size, hash and path field.
pub open spec fn line_text(by: i64, hash: Option<Seq<u8>>, field: Seq<char>) -> Seq<char> {
    size_text(by) + separator() + hash_text(hash) + separator() + field
}

pub proof fn lemma_decimal(n: nat)
    ensures
        decimal(n).len() > 0,
        decimal_value(decimal(n)) == n,
        forall|i: int| 0 <= i < decimal(n).len() ==> is_digit(#[trigger] decimal(n)[i]),
    decreases n,
{
    if n < 10 {
        let d = decimal(n);
        assert(d.drop_last() =~= Seq::empty());
        assert(decimal_value(d.drop_last()) == 0);
    } else {
        lemma_decimal(n / 10);
        assert(decimal(n).drop_last() =~= decimal(n / 10));
    }
}

proof fn lemma_parse_size(by: i64, rest: Seq<char>)
    requires
        rest.len() == 0 || !is_digit(rest[0]),
    ensures
        parse_number(size_text(by) + rest) == Some((rest, by)),
{
    let input = size_text(by) + rest;
    let magnitude = if by < 0 {
        (-by) as nat
    } else {
        by as nat
    };
    let digits = decimal(magnitude);
    lemma_decimal(magnitude);
    let tail = digits + rest;
    if by < 0 {
        assert(input.skip(1) =~= tail);
    } else {
        assert(input =~= tail);
        assert(is_digit(digits[0]));
    }
    let pred = |c: char| is_digit(c);
    assert forall|i: int| 0 <= i < digits.len() implies pred(#[trigger] tail[i]) by {
        assert(tail[i] == digits[i]);
    }
    lemma_run_len(tail, pred, digits.len());
    assert(tail.take(digits.len() as int) =~= digits);
    assert(tail.skip(digits.len() as int) =~= rest);
}

/// Whether `text` is a size field: blanks, then an optional sign and digits, which write `by`.
pub open spec fn is_size_field(text: Seq<char>, by: i64) -> bool {
    parse_number(without_blanks(text)) == Some((Seq::<char>::empty(), by))
}

/// Whether `text` is a hash field: the digits of a hash, or what stands for a missing one.
pub open spec fn is_hash_field(text: Seq<char>, hash: Option<Seq<u8>>) -> bool {
    parse_hash(text) == Ok::<_, LineError>((Seq::<char>::empty(), hash))
}

/// What is read from a line is the size that its first field writes, the hash that its second field
/// writes, and what stands in its third field, of which one mark of the current directory at its
/// start is dropped. Only a line end in the third field makes such a line unreadable.
pub proof fn law_fields(
    size: Seq<char>,
    by: i64,
    digest: Seq<char>,
    hash: Option<Seq<u8>>,
    field: Seq<char>,
)
    requires
        is_size_field(size, by),
        is_hash_field(digest, hash),
    ensures
        ({
            let head = size + separator() + digest + separator();
            &&& parse_line(head + field) == (if has_line_end(field) {
                Err(LineError::LineEnding)
            } else {
                Ok(Some(Entry { by, hash, path: without_here(field) }))
            })
            &&& parse_line(head + (here() + field)) == (if has_line_end(field) {
                Err(LineError::LineEnding)
            } else {
                Ok(Some(Entry { by, hash, path: field }))
            })
        }),
{
    lemma_fields(size, by, digest, hash, field);
    lemma_fields(size, by, digest, hash, here() + field);
    assert(here().is_prefix_of(here() + field));
    assert((here() + field).skip(2) =~= field);
    lemma_line_end(field);
}

/// The mark of the current directory holds no line end.
pub proof fn lemma_line_end(field: Seq<char>)
    ensures
        has_line_end(without_here(field)) <==> has_line_end(field),
{
    let inner = without_here(field);
    if here().is_prefix_of(field) {
        assert(inner == field.skip(2));
        assert(field[0] == here()[0] && field[1] == here()[1]);
        if has_line_end(field) {
            let i = choose|i: int| 0 <= i < field.len() && is_line_end(#[trigger] field[i]);
            assert(inner[i - 2] == field[i]);
        }
        if has_line_end(inner) {
            let i = choose|i: int| 0 <= i < inner.len() && is_line_end(#[trigger] inner[i]);
            assert(inner[i] == field[i + 2]);
        }
    }
}

/// A size field is read up to its end.
pub proof fn lemma_size_field(size: Seq<char>, by: i64, rest: Seq<char>)
    requires
        is_size_field(size, by),
        rest.len() == 0 || !is_digit(rest[0]),
    ensures
        !is_skipped(size + rest),
        parse_number(without_blanks(size + rest)) == Some((rest, by)),
{
    let line = size + rest;
    let blank = |c: char| is_blank(c);
    let n = run_len(size, blank);
    lemma_run_len(size, blank, 0);
    let text = size.skip(n as int);
    assert(text == without_blanks(size));
    let digit = |c: char| is_digit(c);
    let signed = text.len() > 0 && (text[0] == '-' || text[0] == '+');
    let digits = if signed {
        text.skip(1)
    } else {
        text
    };
    lemma_run_len(digits, digit, 0);
    let m = run_len(digits, digit);
    assert(m > 0);
    assert(digits.skip(m as int).len() == digits.len() - m);
    assert(m == digits.len());
    assert(digits.take(m as int) =~= digits);
    assert(is_digit(digits[0]));
    assert(text[0] == size[n as int]);
    assert(!is_blank(text[0]));
    assert forall|i: int| 0 <= i < n implies blank(#[trigger] line[i]) by {
        assert(line[i] == size[i]);
    }
    assert(line[n as int] == size[n as int]);
    lemma_run_len(line, blank, n);
    assert(without_blanks(line) =~= text + rest);
    let tail = digits + rest;
    if signed {
        assert((text + rest).skip(1) =~= tail);
    } else {
        assert(text + rest =~= tail);
    }
    assert forall|i: int| 0 <= i < m implies digit(#[trigger] tail[i]) by {
        assert(tail[i] == digits[i]);
    }
    lemma_run_len(tail, digit, m);
    assert(tail.take(m as int) =~= digits);
    assert(tail.skip(m as int) =~= rest);
    assert(line[0] == size[0]);
    if n > 0 {
        assert(blank(size[0]));
    }
}

/// A hash field is read up to its end.
pub proof fn lemma_hash_field(digest: Seq<char>, hash: Option<Seq<u8>>, rest: Seq<char>)
    requires
        is_hash_field(digest, hash),
    ensures
        parse_hash(digest + rest) == Ok::<_, LineError>((rest, hash)),
{
    let input = digest + rest;
    assert(digest.len() >= 32);
    assert(digest.skip(32).len() == digest.len() - 32);
    assert(digest.len() == 32);
    lemma_encode_len(input);
    assert(digest.take(32) =~= digest);
    assert(input.take(32) =~= digest);
    assert(input.skip(32) =~= rest);
    assert(starts_with_hash(input) == starts_with_hash(digest));
    if !starts_with_hash(digest) {
        assert(starts_with_dashes(digest));
        assert forall|i: int| 0 <= i < 31 implies #[trigger] input[i] == '-' by {
            assert(input[i] == digest[i]);
        }
        assert(input[31] == digest[31]);
    }
}

proof fn lemma_fields(
    size: Seq<char>,
    by: i64,
    digest: Seq<char>,
    hash: Option<Seq<u8>>,
    field: Seq<char>,
)
    requires
        is_size_field(size, by),
        is_hash_field(digest, hash),
    ensures
        parse_line(size + separator() + digest + separator() + field) == (match parse_path(field) {
            Ok(path) => Ok(Some(Entry { by, hash, path })),
            Err(e) => Err(e),
        }),
{
    let rest3 = separator() + field;
    let rest2 = digest + rest3;
    let rest1 = separator() + rest2;
    assert(size + separator() + digest + separator() + field =~= size + rest1);
    lemma_size_field(size, by, rest1);
    lemma_behind_tag(separator(), rest2);
    lemma_hash_field(digest, hash, rest3);
    lemma_behind_tag(separator(), field);
}

/// The digits of a size are a size field, and those of a hash, or dashes, a hash field: a line that
/// is written from a size, a hash and a path is read as these.
pub proof fn law_line_round_trip(by: i64, hash: Option<Seq<u8>>, field: Seq<char>)
    requires
        hash matches Some(h) ==> h.len() == 16,
    ensures
        is_size_field(size_text(by), by),
        is_hash_field(hash_text(hash), hash),
        !has_line_end(field) ==> parse_line(line_text(by, hash, field)) == Ok::<_, LineError>(
            Some(Entry { by, hash, path: without_here(field) }),
        ),
{
    let none = Seq::<char>::empty();
    lemma_starts_with_size(by, none);
    lemma_parse_size(by, none);
    lemma_parse_hash_text(hash, none);
    assert(size_text(by) + none =~= size_text(by));
    assert(hash_text(hash) + none =~= hash_text(hash));
    law_fields(size_text(by), by, hash_text(hash), hash, field);
}

pub proof fn lemma_behind_tag(tag: Seq<char>, rest: Seq<char>)
    ensures
        behind_tag(tag + rest, tag) == Some(rest),
{
    assert(tag.is_prefix_of(tag + rest));
    assert((tag + rest).skip(tag.len() as int) =~= rest);
}

proof fn lemma_parse_hash_text(hash: Option<Seq<u8>>, rest: Seq<char>)
    requires
        hash matches Some(h) ==> h.len() == 16,
    ensures
        parse_hash(hash_text(hash) + rest) == Ok::<_, LineError>((rest, hash)),
{
    let input = hash_text(hash) + rest;
    assert(hash_text(hash).len() == 32);
    lemma_encode_len(input);
    assert(input.take(32) =~= hash_text(hash));
    assert(input.skip(32) =~= rest);
    match hash {
        Some(h) => {
            law_hex_round_trip(h);
            assert(starts_with_hash(input));
        },
        None => {
            assert(input.take(32)[0] == '-');
            assert(!starts_with_hash(input));
            assert forall|i: int| 0 <= i < 31 implies #[trigger] input[i] == '-' by {
                assert(input[i] == hash_text(hash)[i]);
            }
            assert(input[31] == hash_text(hash)[31]);
            assert(starts_with_dashes(input));
        },
    }
}

proof fn lemma_starts_with_size(by: i64, rest: Seq<char>)
    ensures
        without_blanks(size_text(by) + rest) == size_text(by) + rest,
{
    let line = size_text(by) + rest;
    let magnitude = if by < 0 {
        (-by) as nat
    } else {
        by as nat
    };
    lemma_decimal(magnitude);
    assert(line[0] == size_text(by)[0]);
    if by >= 0 {
        assert(is_digit(decimal(magnitude)[0]));
    }
    lemma_run_len(line, |c: char| is_blank(c), 0);
    assert(without_blanks(line) =~= line);
}

/// Texts that are written alike for a shell are alike.
pub proof fn law_quoting_is_injective(a: Seq<char>, b: Seq<char>)
    requires
        shell_quoted(a) == shell_quoted(b),
    ensures
        a == b,
{
    let (p, q) = (
        seq!['\''] + quoted_chars(a) + seq!['\''],
        seq!['\''] + quoted_chars(b) + seq!['\''],
    );
    if shell_quoted(a) == p && shell_quoted(b) == q {
        assert(p.subrange(1, p.len() - 1) =~= quoted_chars(a));
        assert(q.subrange(1, q.len() - 1) =~= quoted_chars(b));
        lemma_quoted_injective(a, b);
    } else if shell_quoted(a) == p {
        assert(p[0] == '\'');
        assert(is_plain(b[0]));
    } else if shell_quoted(b) == q {
        assert(q[0] == '\'');
        assert(is_plain(a[0]));
    }
}

proof fn lemma_quoted_injective(a: Seq<char>, b: Seq<char>)
    requires
        quoted_chars(a) == quoted_chars(b),
    ensures
        a == b,
    decreases a.len(),
{
    let all = quoted_chars(a);
    if a.len() == 0 || b.len() == 0 {
        if a.len() > 0 {
            assert(all.len() >= quoted_char(a.last()).len());
        }
        if b.len() > 0 {
            assert(all.len() >= quoted_char(b.last()).len());
        }
        assert(a =~= b);
    } else {
        let (c, d) = (quoted_char(a.last()), quoted_char(b.last()));
        let (s, t) = (quoted_chars(a.drop_last()), quoted_chars(b.drop_last()));
        assert(all == s + c && all == t + d);
        assert(all.last() == c.last() && all.last() == d.last());
        if c.len() > 1 {
            assert(all[all.len() - 2] == c[2]);
        }
        if d.len() > 1 {
            assert(all[all.len() - 2] == d[2]);
        }
        assert(c.len() == d.len());
        assert(a.last() == b.last());
        assert(s =~= all.take(all.len() - c.len()));
        assert(t =~= all.take(all.len() - d.len()));
        lemma_quoted_injective(a.drop_last(), b.drop_last());
        assert(a =~= a.drop_last().push(a.last()));
        assert(b =~= b.drop_last().push(b.last()));
    }
}

/// The line for a copy or move names the deepest directory that both paths share, and each path from
/// there on.
pub proof fn law_shared_directory(src: Seq<char>, dst: Seq<char>)
    ensures
        ({
            let pos = shared_len(src, dst);
            &&& 0 <= pos <= src.len()
            &&& pos <= dst.len()
            &&& pos == 0 || dst[pos - 1] == '/'
            &&& src.take(pos) == dst.take(pos)
            &&& forall|n: int|
                pos < n <= src.len() && n <= dst.len() && #[trigger] src.take(n) == dst.take(n)
                    ==> dst[n - 1] != '/'
            &&& src == dst.take(pos) + src.skip(pos)
            &&& dst == dst.take(pos) + dst.skip(pos)
        }),
{
    lemma_common_chars(src, dst, 0);
    let n = common_chars(src, dst) as int;
    lemma_behind_last_slash(dst, n);
    let pos = shared_len(src, dst);
    lemma_common_take(src, dst);
    assert(src.take(pos) =~= dst.take(pos)) by {
        assert forall|i: int| 0 <= i < pos implies src[i] == dst[i] by {
            assert(src.take(n)[i] == dst.take(n)[i]);
        }
    }
    assert forall|m: int|
        pos < m <= src.len() && m <= dst.len() && #[trigger] src.take(m) == dst.take(m) implies dst[m
        - 1] != '/' by {
        assert forall|i: int| 0 <= i < m implies #[trigger] src[i] == dst[i] by {
            assert(src.take(m)[i] == dst.take(m)[i]);
        }
        lemma_common_chars(src, dst, m as nat);
    }
    assert(src =~= src.take(pos) + src.skip(pos));
    assert(dst =~= dst.take(pos) + dst.skip(pos));
}

pub proof fn lemma_behind_last_slash(text: Seq<char>, n: int)
    requires
        0 <= n <= text.len(),
    ensures
        ({
            let pos = behind_last_slash(text, n);
            &&& 0 <= pos <= n
            &&& pos == 0 || text[pos - 1] == '/'
            &&& forall|i: int| pos <= i < n ==> #[trigger] text[i] != '/'
        }),
    decreases n,
{
    if n > 0 {
        lemma_behind_last_slash(text, n - 1);
    }
}

pub proof fn lemma_common_take(a: Seq<char>, b: Seq<char>)
    ensures
        a.take(common_chars(a, b) as int) == b.take(common_chars(a, b) as int),
    decreases a.len(),
{
    let n = common_chars(a, b) as int;
    lemma_common_chars(a, b, 0);
    if n > 0 {
        let (c, d) = (a.drop_first(), b.drop_first());
        lemma_common_take(c, d);
        lemma_common_chars(c, d, 0);
        assert forall|i: int| 0 <= i < n implies a[i] == b[i] by {
            if i > 0 {
                assert(c.take(n - 1)[i - 1] == d.take(n - 1)[i - 1]);
            }
        }
    }
    assert(a.take(n) =~= b.take(n));
}

} // verus!
