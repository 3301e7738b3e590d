//! What the lines of a log mean, character by character.
use vstd::prelude::*;
use vstd::utf8::*;

use crate::hash::hex_decoded;
use crate::laws::{hash_text, is_hash_field, is_size_field, line_text, size_text};
use crate::line::{
    decimal_value, is_blank, is_digit, lemma_run_len, line_events, missing_hash_warning,
    parse_bad_hash, parse_hash, parse_line, parse_number, run_len, starts_with_hash, without_blanks,
    Entry, LineError,
};
use crate::meaning::is_hex;

verus! {

/// A line is passed over just if it is empty or starts with `#`.
pub proof fn law_skipped(line: Seq<char>)
    ensures
        parse_line(line) == Ok::<Option<Entry>, LineError>(None) <==> line.len() == 0 || line[0]
            == '#',
{
}

/// The number that digits write is ten times the one that all but the last write, and the last.
pub proof fn law_decimal_value(digits: Seq<char>, last: char)
    requires
        '0' <= last <= '9',
    ensures
        decimal_value(Seq::empty()) == 0,
        decimal_value(digits.push(last)) == 10 * decimal_value(digits) + (last as int - '0' as int),
{
    assert(digits.push(last).drop_last() =~= digits);
}

/// Whether `text` is any number of spaces and tabs.
pub open spec fn are_blanks(text: Seq<char>) -> bool {
    forall|i: int| 0 <= i < text.len() ==> (#[trigger] text[i] == ' ' || text[i] == '\t')
}

/// Whether `text` is one or more decimal digits.
pub open spec fn are_digits(text: Seq<char>) -> bool {
    text.len() > 0 && forall|i: int| 0 <= i < text.len() ==> '0' <= #[trigger] text[i] <= '9'
}

/// Whether `sign` and `digits` write `by`.
pub open spec fn write_size(sign: Seq<char>, digits: Seq<char>, by: i64) -> bool {
    &&& are_digits(digits)
    &&& sign == Seq::<char>::empty() || sign == seq!['+'] || sign == seq!['-']
    &&& by == if sign == seq!['-'] {
        -(decimal_value(digits) as int)
    } else {
        decimal_value(digits) as int
    }
}

/// Whether `digest` is thirty-two hex digits, which write `hash`, or thirty-one dashes and an ASCII
/// letter or another dash, which stand for a missing hash.
pub open spec fn write_hash(digest: Seq<char>, hash: Option<Seq<u8>>) -> bool {
    &&& digest.len() == 32
    &&& match hash {
        Some(h) => {
            &&& forall|i: int| 0 <= i < 32 ==> is_hex(#[trigger] digest[i])
            &&& h == hex_decoded(digest)
        },
        None => {
            &&& forall|i: int| 0 <= i < 31 ==> #[trigger] digest[i] == '-'
            &&& digest[31] == '-' || 'a' <= digest[31] <= 'z' || 'A' <= digest[31] <= 'Z'
        },
    }
}

/// Whether `text` holds neither a carriage return nor a line feed.
pub open spec fn is_one_line(text: Seq<char>) -> bool {
    forall|i: int| 0 <= i < text.len() ==> #[trigger] text[i] != '\r' && text[i] != '\n'
}

/// Whether `text` starts with `start`.
pub open spec fn starts(text: Seq<char>, start: Seq<char>) -> bool {
    text.len() >= start.len() && forall|i: int|
        0 <= i < start.len() ==> #[trigger] text[i] == start[i]
}

proof fn lemma_write_size(blanks: Seq<char>, sign: Seq<char>, digits: Seq<char>, by: i64)
    requires
        are_blanks(blanks),
        write_size(sign, digits, by),
    ensures
        is_size_field(blanks + sign + digits, by),
{
    let size = blanks + sign + digits;
    let blank = |c: char| is_blank(c);
    let digit = |c: char| is_digit(c);
    let text = sign + digits;
    let n = blanks.len();
    assert forall|i: int| 0 <= i < n implies blank(#[trigger] size[i]) by {
        assert(size[i] == blanks[i]);
    }
    assert(text[0] == size[n as int]);
    assert('0' <= digits[0] <= '9');
    assert(!blank(size[n as int])) by {
        if sign.len() == 0 {
            assert(text[0] == digits[0]);
        } else {
            assert(text[0] == sign[0]);
        }
    }
    lemma_run_len(size, blank, n);
    assert(without_blanks(size) =~= text);
    if sign.len() == 0 {
        assert(text =~= digits);
    } else {
        assert(text.skip(1) =~= digits);
        assert(sign[0] == '+' || sign[0] == '-');
        if sign[0] == '-' {
            assert(sign =~= seq!['-']);
        }
    }
    assert forall|i: int| 0 <= i < digits.len() implies digit(#[trigger] digits[i]) by {
        assert('0' <= digits[i] <= '9');
    }
    lemma_run_len(digits, digit, digits.len());
    assert(digits.take(digits.len() as int) =~= digits);
    assert(digits.skip(digits.len() as int) =~= Seq::empty());
}

/// A hash field is what stands for a hash or for a missing one.
proof fn lemma_write_hash(digest: Seq<char>, hash: Option<Seq<u8>>)
    requires
        write_hash(digest, hash),
    ensures
        is_hash_field(digest, hash),
{
    crate::text::lemma_encode_len(digest);
    assert(digest.take(32) =~= digest);
    assert(digest.skip(32) =~= Seq::empty());
    crate::meaning::law_hash_text(digest);
    if hash is None {
        assert(digest[0] == '-');
        crate::meaning::lemma_is_hex('-');
        assert(!is_hex(digest[0]));
    }
}

/// Any number of blanks, a size with or without a sign, two spaces, a hash or what stands for a
/// missing one, two spaces, and a path that is one line, with or without one `./` before it, are
/// read as that size, hash and path.
pub proof fn law_entry_is_read(
    blanks: Seq<char>,
    sign: Seq<char>,
    digits: Seq<char>,
    by: i64,
    digest: Seq<char>,
    hash: Option<Seq<u8>>,
    path: Seq<char>,
)
    requires
        are_blanks(blanks),
        write_size(sign, digits, by),
        write_hash(digest, hash),
        is_one_line(path),
    ensures
        ({
            let head = blanks + sign + digits + seq![' ', ' '] + digest + seq![' ', ' '];
            let read = Ok::<_, LineError>(Some(Entry { by, hash, path }));
            &&& parse_line(head + (seq!['.', '/'] + path)) == read
            &&& !starts(path, seq!['.', '/']) ==> parse_line(head + path) == read
        }),
{
    lemma_write_size(blanks, sign, digits, by);
    lemma_write_hash(digest, hash);
    crate::laws::law_fields(blanks + sign + digits, by, digest, hash, path);
    let here = seq!['.', '/'];
    if here.is_prefix_of(path) {
        assert(path[0] == here[0] && path[1] == here[1]);
        assert(starts(path, here));
    }
}

/// Blanks before a line that is written from a size, a hash and a path do not matter, however many.
pub proof fn law_padding(blanks: Seq<char>, by: i64, hash: Option<Seq<u8>>, path: Seq<char>)
    requires
        are_blanks(blanks),
        hash matches Some(h) ==> h.len() == 16,
        is_one_line(path),
        !starts(path, seq!['.', '/']),
    ensures
        parse_line(blanks + line_text(by, hash, path)) == Ok::<_, LineError>(
            Some(Entry { by, hash, path }),
        ),
{
    let magnitude = if by < 0 {
        (-by) as nat
    } else {
        by as nat
    };
    let sign = if by < 0 {
        seq!['-']
    } else {
        Seq::empty()
    };
    let digits = crate::text::decimal(magnitude);
    crate::laws::lemma_decimal(magnitude);
    assert forall|i: int| 0 <= i < digits.len() implies '0' <= #[trigger] digits[i] <= '9' by {
        assert(is_digit(digits[i]));
    }
    assert(write_size(sign, digits, by));
    assert(size_text(by) =~= sign + digits);
    let digest = hash_text(hash);
    match hash {
        Some(h) => {
            crate::laws::law_hex_round_trip(h);
            crate::meaning::law_hash_text(digest);
        },
        None => {},
    }
    assert(write_hash(digest, hash));
    law_entry_is_read(blanks, sign, digits, by, digest, hash, path);
    assert(blanks + line_text(by, hash, path) =~= blanks + sign + digits + seq![' ', ' '] + digest
        + seq![' ', ' '] + path);
}

/// What a size is read from: any number of blanks, an optional sign and digits, up to the first
/// character that is no digit.
proof fn lemma_number_parts(line: Seq<char>, rest: Seq<char>, by: i64) -> (res: (
    Seq<char>,
    Seq<char>,
    Seq<char>,
))
    requires
        parse_number(without_blanks(line)) == Some((rest, by)),
    ensures
        are_blanks(res.0),
        write_size(res.1, res.2, by),
        line == res.0 + res.1 + res.2 + rest,
        rest.len() == 0 || !('0' <= rest[0] <= '9'),
{
    let blank = |c: char| is_blank(c);
    let digit = |c: char| is_digit(c);
    let n = run_len(line, blank) as int;
    lemma_run_len(line, blank, 0);
    let blanks = line.take(n);
    let text = line.skip(n);
    assert forall|i: int| 0 <= i < blanks.len() implies (#[trigger] blanks[i] == ' ' || blanks[i]
        == '\t') by {
        assert(blank(line[i]));
    }
    let signed = text.len() > 0 && (text[0] == '-' || text[0] == '+');
    let sign = if signed {
        seq![text[0]]
    } else {
        Seq::empty()
    };
    let tail = if signed {
        text.skip(1)
    } else {
        text
    };
    let m = run_len(tail, digit) as int;
    lemma_run_len(tail, digit, 0);
    let digits = tail.take(m);
    assert(rest == tail.skip(m));
    assert forall|i: int| 0 <= i < digits.len() implies '0' <= #[trigger] digits[i] <= '9' by {
        assert(digit(tail[i]));
    }
    if rest.len() > 0 {
        assert(rest[0] == tail[m]);
        if is_digit(rest[0]) {
            assert forall|i: int| 0 <= i < m + 1 implies digit(#[trigger] tail[i]) by {}
            lemma_run_len(tail, digit, (m + 1) as nat);
        }
    }
    if signed {
        assert(sign[0] == text[0]);
        assert(seq!['-'][0] == '-' && seq!['+'][0] == '+');
        assert(text =~= sign + tail);
    } else {
        assert(text =~= sign + tail);
    }
    assert(line =~= blanks + sign + digits + rest);
    (blanks, sign, digits)
}

/// A line is read as an entry only if it has the form of one, and then as what it writes.
pub proof fn law_only_entries_are_read(line: Seq<char>, entry: Entry) -> (res: (
    Seq<char>,
    Seq<char>,
    Seq<char>,
    Seq<char>,
    Seq<char>,
))
    requires
        parse_line(line) == Ok::<_, LineError>(Some(entry)),
    ensures
        ({
            let (blanks, sign, digits, digest, field) = res;
            &&& are_blanks(blanks)
            &&& write_size(sign, digits, entry.by)
            &&& write_hash(digest, entry.hash)
            &&& is_one_line(field)
            &&& line == blanks + sign + digits + seq![' ', ' '] + digest + seq![' ', ' '] + field
            &&& if starts(field, seq!['.', '/']) {
                entry.path == field.skip(2)
            } else {
                entry.path == field
            }
        }),
{
    let (rest1, by) = parse_number(without_blanks(line))->0;
    let (blanks, sign, digits) = lemma_number_parts(line, rest1, by);
    let sep = seq![' ', ' '];
    let rest2 = rest1.skip(2);
    assert(rest1 =~= sep + rest2) by {
        assert(rest1[0] == sep[0] && rest1[1] == sep[1]);
    }
    let digest = rest2.take(32);
    let rest3 = rest2.skip(32);
    lemma_hash_parts(rest2, entry.hash);
    let field = rest3.skip(2);
    assert(rest3 =~= sep + field) by {
        assert(rest3[0] == sep[0] && rest3[1] == sep[1]);
    }
    assert(rest2 =~= digest + rest3);
    assert(line =~= blanks + sign + digits + sep + digest + sep + field);
    crate::laws::lemma_line_end(field);
    assert forall|i: int| 0 <= i < field.len() implies #[trigger] field[i] != '\r' && field[i]
        != '\n' by {
        if field[i] == '\r' || field[i] == '\n' {
            assert(crate::line::is_line_end(field[i]));
        }
    }
    let here = seq!['.', '/'];
    if starts(field, here) {
        assert(here =~= field.subrange(0, 2)) by {
            assert(field[0] == here[0] && field[1] == here[1]);
        }
    } else if here.is_prefix_of(field) {
        assert(field[0] == here[0] && field[1] == here[1]);
    }
    (blanks, sign, digits, digest, field)
}

/// What a hash is read from.
proof fn lemma_hash_parts(input: Seq<char>, hash: Option<Seq<u8>>)
    requires
        parse_hash(input) matches Ok((_, h)) && h == hash,
    ensures
        input.len() >= 32,
        parse_hash(input) == Ok::<_, LineError>((input.skip(32), hash)),
        write_hash(input.take(32), hash),
{
    let digest = input.take(32);
    crate::meaning::law_hash_text(digest);
    if hash is None {
        assert forall|i: int| 0 <= i < 31 implies #[trigger] digest[i] == '-' by {
            assert(digest[i] == input[i]);
        }
        assert(digest[31] == input[31]);
    }
}

/// A line that is not passed over has no size just if it does not start with blanks, an optional
/// sign and digits that write a number within range, up to the first character that is no digit.
pub proof fn law_no_size(
    line: Seq<char>,
    blanks: Seq<char>,
    sign: Seq<char>,
    digits: Seq<char>,
    by: i64,
    rest: Seq<char>,
)
    requires
        are_blanks(blanks),
        write_size(sign, digits, by),
        line == blanks + sign + digits + rest,
        rest.len() == 0 || !('0' <= rest[0] <= '9'),
    ensures
        parse_line(line) != Err::<Option<Entry>, _>(LineError::Size),
{
    lemma_write_size(blanks, sign, digits, by);
    lemma_size_then(blanks + sign + digits, by, rest);
}

proof fn lemma_size_then(size: Seq<char>, by: i64, rest: Seq<char>)
    requires
        is_size_field(size, by),
        rest.len() == 0 || !('0' <= rest[0] <= '9'),
    ensures
        !crate::line::is_skipped(size + rest),
        parse_number(without_blanks(size + rest)) == Some((rest, by)),
{
    crate::laws::lemma_size_field(size, by, rest);
}

/// A line without such a size is refused for it.
pub proof fn law_size_error(line: Seq<char>)
    requires
        line.len() > 0,
        line[0] != '#',
        forall|blanks: Seq<char>, sign: Seq<char>, digits: Seq<char>, by: i64, rest: Seq<char>|
            are_blanks(blanks) && #[trigger] write_size(sign, digits, by) && line == #[trigger] (
            blanks + sign + digits + rest) ==> rest.len() > 0 && '0' <= rest[0] <= '9',
    ensures
        parse_line(line) == Err::<Option<Entry>, _>(LineError::Size),
{
    if parse_number(without_blanks(line)) is Some {
        let (rest, by) = parse_number(without_blanks(line))->0;
        let (blanks, sign, digits) = lemma_number_parts(line, rest, by);
        assert(write_size(sign, digits, by));
        assert(line == blanks + sign + digits + rest);
    }
}

/// Behind a size, a line is refused for the first thing that is not as it should be: two spaces must
/// follow; then at least thirty-two bytes; of these, thirty-two hex digits, or thirty-one dashes;
/// behind dashes, an ASCII letter or a dash; then two spaces; and no line end behind them.
pub proof fn law_other_errors(
    blanks: Seq<char>,
    sign: Seq<char>,
    digits: Seq<char>,
    by: i64,
    rest: Seq<char>,
    text: Seq<char>,
    digest: Seq<char>,
    hash: Option<Seq<u8>>,
    field: Seq<char>,
)
    requires
        are_blanks(blanks),
        write_size(sign, digits, by),
    ensures
        ({
            let size = blanks + sign + digits;
            let gap = seq![' ', ' '];
            let refused = |line: Seq<char>, error: LineError|
                parse_line(line) == Err::<Option<Entry>, _>(error);
            let all_hex = text.len() >= 32 && forall|i: int|
                0 <= i < 32 ==> is_hex(#[trigger] text[i]);
            let dashes = text.len() >= 31 && forall|i: int|
                0 <= i < 31 ==> #[trigger] text[i] == '-';
            let marked = text.len() >= 32 && (text[31] == '-' || 'a' <= text[31] <= 'z' || 'A'
                <= text[31] <= 'Z');
            &&& (rest.len() == 0 || !('0' <= rest[0] <= '9')) && !starts(rest, gap) ==> refused(
                size + rest,
                LineError::Separator,
            )
            &&& encode_utf8(text).len() < 32 ==> refused(size + (gap + text), LineError::ShortHash)
            &&& encode_utf8(text).len() >= 32 && !all_hex && !dashes ==> refused(
                size + (gap + text),
                LineError::Dashes,
            )
            &&& encode_utf8(text).len() >= 32 && !all_hex && dashes && !marked ==> refused(
                size + (gap + text),
                LineError::Marker,
            )
            &&& write_hash(digest, hash) && !starts(rest, gap) ==> refused(
                size + (gap + (digest + rest)),
                LineError::Separator,
            )
            &&& write_hash(digest, hash) && !is_one_line(field) ==> refused(
                size + gap + digest + gap + field,
                LineError::LineEnding,
            )
        }),
{
    let size = blanks + sign + digits;
    let gap = seq![' ', ' '];
    lemma_write_size(blanks, sign, digits, by);
    if rest.len() == 0 || !('0' <= rest[0] <= '9') {
        lemma_size_then(size, by, rest);
        if gap.is_prefix_of(rest) {
            assert(rest[0] == gap[0] && rest[1] == gap[1]);
            assert(starts(rest, gap));
        }
    }
    lemma_size_then(size, by, gap + text);
    crate::laws::lemma_behind_tag(gap, text);
    let all_hex = text.len() >= 32 && forall|i: int| 0 <= i < 32 ==> is_hex(#[trigger] text[i]);
    assert(all_hex <==> starts_with_hash(text)) by {
        if text.len() >= 32 {
            let head = text.take(32);
            crate::meaning::law_hash_text(head);
            if all_hex {
                assert forall|i: int| 0 <= i < 32 implies is_hex(#[trigger] head[i]) by {
                    assert(head[i] == text[i]);
                }
            }
            if starts_with_hash(text) {
                assert forall|i: int| 0 <= i < 32 implies is_hex(#[trigger] text[i]) by {
                    assert(is_hex(head[i]));
                }
            }
        }
    }
    if write_hash(digest, hash) {
        lemma_write_hash(digest, hash);
        crate::laws::lemma_hash_field(digest, hash, rest);
        lemma_size_then(size, by, gap + (digest + rest));
        crate::laws::lemma_behind_tag(gap, digest + rest);
        if gap.is_prefix_of(rest) {
            assert(rest[0] == gap[0] && rest[1] == gap[1]);
            assert(starts(rest, gap));
        }
        crate::laws::law_fields(size, by, digest, hash, field);
        if !is_one_line(field) {
            let i = choose|i: int|
                0 <= i < field.len() && !(#[trigger] field[i] != '\r' && field[i] != '\n');
            assert(crate::line::is_line_end(field[i]));
        }
    }
}

/// A text starts with a hash just if its first thirty-two characters are hex digits.
pub proof fn law_starts_with_hash(text: Seq<char>)
    ensures
        starts_with_hash(text) <==> text.len() >= 32 && forall|i: int|
            0 <= i < 32 ==> is_hex(#[trigger] text[i]),
{
    if text.len() >= 32 {
        let head = text.take(32);
        crate::meaning::law_hash_text(head);
        assert forall|i: int| 0 <= i < 32 implies head[i] == #[trigger] text[i] by {}
        if starts_with_hash(text) {
            assert forall|i: int| 0 <= i < 32 implies is_hex(#[trigger] text[i]) by {
                assert(is_hex(head[i]));
            }
        }
        if forall|i: int| 0 <= i < 32 ==> is_hex(#[trigger] text[i]) {
            assert forall|i: int| 0 <= i < 32 implies is_hex(#[trigger] head[i]) by {
                assert(is_hex(text[i]));
            }
        }
    }
}

/// What stands for a missing hash is thirty-one dashes and an ASCII letter or another dash, which is
/// told, and the rest is left.
pub proof fn law_bad_hash(text: Seq<char>)
    ensures
        ({
            let dashes = text.len() >= 31 && forall|i: int|
                0 <= i < 31 ==> #[trigger] text[i] == '-';
            let marked = text.len() >= 32 && (text[31] == '-' || 'a' <= text[31] <= 'z' || 'A'
                <= text[31] <= 'Z');
            parse_bad_hash(text) == if !dashes {
                Err(LineError::Dashes)
            } else if !marked {
                Err(LineError::Marker)
            } else {
                Ok((text.skip(32), text[31]))
            }
        }),
{
}

/// A hash field is a hash if one stands there, else what stands for a missing one, and needs
/// thirty-two bytes.
pub proof fn law_hash_field(text: Seq<char>)
    ensures
        ({
            let all_hex = text.len() >= 32 && forall|i: int|
                0 <= i < 32 ==> is_hex(#[trigger] text[i]);
            parse_hash(text) == if encode_utf8(text).len() < 32 {
                Err(LineError::ShortHash)
            } else if all_hex {
                Ok((text.skip(32), Some(hex_decoded(text.take(32)))))
            } else {
                match parse_bad_hash(text) {
                    Ok((rest, marker)) => Ok((rest, None)),
                    Err(e) => Err(e),
                }
            }
        }),
{
    law_starts_with_hash(text);
}

/// A line is warned about just if it is read as an entry without a hash.
pub proof fn law_missing_hash(line: Seq<char>, side: int)
    ensures
        ({
            let missing = parse_line(line) matches Ok(Some(entry)) && entry.hash is None;
            &&& line_events(line, side).len() == (if missing {
                1int
            } else {
                0
            })
            &&& missing ==> line_events(line, side)[0] == missing_hash_warning(
                side,
                parse_line(line)->Ok_0->0.path,
            )
        }),
{
}

} // verus!
