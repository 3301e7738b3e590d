//! The lines of a log: a size, a hash and a path.
use vstd::prelude::*;
use vstd::string::*;
use vstd::utf8::*;

use crate::color;
use crate::event::{events_view, lemma_events_push, Event, EventView};
use crate::hash::{hex_decoded, is_hash_text, is_hex_digit};
use crate::text::{ascii_at, ascii_prefix, chars_of, is_ascii_char, split_ascii};

verus! {

/// Why a line is not one that a log may hold.
#[derive(Clone, Copy, Debug, PartialEq, Eq, Structural)]
pub enum LineError {
    /// The line does not start with a size, or the size is out of range.
    Size,
    /// Two spaces are missing between two fields.
    Separator,
    /// What is left of the line is shorter than a hash.
    ShortHash,
    /// The hash field holds neither thirty-two hex digits nor thirty-one dashes.
    Dashes,
    /// The dashes that stand for a missing hash end in neither an ASCII letter nor a dash.
    Marker,
    /// The path runs into a carriage return or a line feed.
    LineEnding,
}

/// One entry of a log.
#[derive(Debug)]
pub struct LogLine {
    pub by: i64,
    pub hash: Option<crate::hash::Hash>,
    pub path: String,
}

/// The contents of a `LogLine`.
#[verifier::ext_equal]
pub struct Entry {
    pub by: i64,
    pub hash: Option<Seq<u8>>,
    pub path: Seq<char>,
}

/// The bytes of a hash that may be missing.
pub open spec fn hash_view(hash: Option<crate::hash::Hash>) -> Option<Seq<u8>> {
    match hash {
        Some(h) => Some(h@),
        None => None,
    }
}

impl View for LogLine {
    type V = Entry;

    open spec fn view(&self) -> Entry {
        Entry { by: self.by, hash: hash_view(self.hash), path: self.path@ }
    }
}

/// How many characters at the start of `input` satisfy `pred`.
pub open spec fn run_len(input: Seq<char>, pred: spec_fn(char) -> bool) -> nat
    decreases input.len(),
{
    if input.len() > 0 && pred(input[0]) {
        1 + run_len(input.drop_first(), pred)
    } else {
        0
    }
}

/// A run ends where the predicate first fails.
pub proof fn lemma_run_len(input: Seq<char>, pred: spec_fn(char) -> bool, n: nat)
    requires
        n <= input.len(),
        forall|i: int| 0 <= i < n ==> pred(#[trigger] input[i]),
    ensures
        n <= run_len(input, pred) <= input.len(),
        forall|i: int| 0 <= i < run_len(input, pred) ==> pred(#[trigger] input[i]),
        n == input.len() || !pred(input[n as int]) ==> run_len(input, pred) == n,
    decreases input.len(),
{
    if input.len() > 0 && pred(input[0]) {
        let rest = input.drop_first();
        let m = if n > 0 {
            (n - 1) as nat
        } else {
            0
        };
        assert forall|i: int| 0 <= i < m implies pred(#[trigger] rest[i]) by {
            assert(rest[i] == input[i + 1]);
        }
        lemma_run_len(rest, pred, m);
        assert forall|i: int| 0 <= i < run_len(input, pred) implies pred(#[trigger] input[i]) by {
            if i > 0 {
                assert(rest[i - 1] == input[i]);
            }
        }
        if n > 0 && n < input.len() {
            assert(rest[m as int] == input[n as int]);
        }
    }
}

/// Spaces and tabs.
pub open spec fn is_blank(c: char) -> bool {
    c == ' ' || c == '\t'
}

/// `input` without the blanks at its start.
pub open spec fn without_blanks(input: Seq<char>) -> Seq<char> {
    input.skip(run_len(input, |c: char| is_blank(c)) as int)
}

/// Decimal digits.
pub open spec fn is_digit(c: char) -> bool {
    '0' <= c <= '9'
}

/// The number that `digits` write in base ten.
pub open spec fn decimal_value(digits: Seq<char>) -> nat
    decreases digits.len(),
{
    if digits.len() == 0 {
        0
    } else {
        10 * decimal_value(digits.drop_last()) + (digits.last() as nat - '0' as nat) as nat
    }
}

/// A number is no smaller than the one that its first digits write.
pub proof fn lemma_decimal_monotone(digits: Seq<char>, n: int)
    requires
        0 <= n <= digits.len(),
        forall|i: int| 0 <= i < digits.len() ==> is_digit(#[trigger] digits[i]),
    ensures
        decimal_value(digits.take(n)) <= decimal_value(digits),
    decreases digits.len(),
{
    if n == digits.len() {
        assert(digits.take(n) =~= digits);
    } else {
        let shorter = digits.drop_last();
        assert forall|i: int| 0 <= i < shorter.len() implies is_digit(#[trigger] shorter[i]) by {
            assert(shorter[i] == digits[i]);
        }
        lemma_decimal_monotone(shorter, n);
        assert(shorter.take(n) =~= digits.take(n));
    }
}

/// Reads a signed number: an optional sign and then as many digits as there are, at least one.
pub open spec fn parse_number(input: Seq<char>) -> Option<(Seq<char>, i64)> {
    let negative = input.len() > 0 && input[0] == '-';
    let signed = input.len() > 0 && (input[0] == '-' || input[0] == '+');
    let digits = if signed {
        input.skip(1)
    } else {
        input
    };
    let n = run_len(digits, |c: char| is_digit(c)) as int;
    let value = if negative {
        -decimal_value(digits.take(n))
    } else {
        decimal_value(digits.take(n)) as int
    };
    if n > 0 && i64::MIN <= value <= i64::MAX {
        Some((digits.skip(n), value as i64))
    } else {
        None
    }
}

/// `input` behind `tag`, if it starts with it.
pub open spec fn behind_tag(input: Seq<char>, tag: Seq<char>) -> Option<Seq<char>> {
    if tag.is_prefix_of(input) {
        Some(input.skip(tag.len() as int))
    } else {
        None
    }
}

/// Two spaces, which stand between the fields.
pub open spec fn separator() -> Seq<char> {
    seq![' ', ' ']
}

/// The mark of the current directory, which a path may start with.
pub open spec fn here() -> Seq<char> {
    seq!['.', '/']
}

/// Whether the first thirty-two characters of `input` write a hash.
pub open spec fn starts_with_hash(input: Seq<char>) -> bool {
    input.len() >= 32 && is_hash_text(input.take(32))
}

/// What may end the dashes that stand for a missing hash.
pub open spec fn is_marker(c: char) -> bool {
    'a' <= c <= 'z' || 'A' <= c <= 'Z' || c == '-'
}

/// Whether `input` starts with thirty-one dashes.
pub open spec fn starts_with_dashes(input: Seq<char>) -> bool {
    input.len() >= 31 && forall|i: int| 0 <= i < 31 ==> #[trigger] input[i] == '-'
}

/// Reads what stands for a missing hash: thirty-one dashes and a marker.
pub open spec fn parse_bad_hash(input: Seq<char>) -> Result<(Seq<char>, char), LineError> {
    if !starts_with_dashes(input) {
        Err(LineError::Dashes)
    } else if input.len() == 31 || !is_marker(input[31]) {
        Err(LineError::Marker)
    } else {
        Ok((input.skip(32), input[31]))
    }
}

/// Reads the hash field: a hash, or what stands for a missing one.
pub open spec fn parse_hash(input: Seq<char>) -> Result<
    (Seq<char>, Option<Seq<u8>>),
    LineError,
> {
    if encode_utf8(input).len() < 32 {
        Err(LineError::ShortHash)
    } else if starts_with_hash(input) {
        Ok((input.skip(32), Some(hex_decoded(input.take(32)))))
    } else {
        match parse_bad_hash(input) {
            Ok((rest, _)) => Ok((rest, None)),
            Err(e) => Err(e),
        }
    }
}

/// Whether `c` ends a line.
pub open spec fn is_line_end(c: char) -> bool {
    c == '\r' || c == '\n'
}

/// Whether `text` holds a line end.
pub open spec fn has_line_end(text: Seq<char>) -> bool {
    exists|i: int| 0 <= i < text.len() && is_line_end(#[trigger] text[i])
}

/// `input` without the mark of the current directory at its start.
pub open spec fn without_here(input: Seq<char>) -> Seq<char> {
    match behind_tag(input, here()) {
        Some(rest) => rest,
        None => input,
    }
}

/// Reads the path field, which takes the rest of the line.
pub open spec fn parse_path(input: Seq<char>) -> Result<Seq<char>, LineError> {
    if has_line_end(without_here(input)) {
        Err(LineError::LineEnding)
    } else {
        Ok(without_here(input))
    }
}

/// Reads the three fields of an entry.
pub open spec fn parse_entry(input: Seq<char>) -> Result<Entry, LineError> {
    match parse_number(without_blanks(input)) {
        None => Err(LineError::Size),
        Some((rest, by)) => match behind_tag(rest, separator()) {
            None => Err(LineError::Separator),
            Some(rest) => match parse_hash(rest) {
                Err(e) => Err(e),
                Ok((rest, hash)) => match behind_tag(rest, separator()) {
                    None => Err(LineError::Separator),
                    Some(rest) => match parse_path(rest) {
                        Err(e) => Err(e),
                        Ok(path) => Ok(Entry { by, hash, path }),
                    },
                },
            },
        },
    }
}

/// Whether a line is passed over: an empty one, or a comment.
pub open spec fn is_skipped(line: Seq<char>) -> bool {
    line.len() == 0 || line[0] == '#'
}

/// Reads a line of a log.
pub open spec fn parse_line(line: Seq<char>) -> Result<Option<Entry>, LineError> {
    if is_skipped(line) {
        Ok(None)
    } else {
        match parse_entry(line) {
            Ok(entry) => Ok(Some(entry)),
            Err(e) => Err(e),
        }
    }
}

/// Passes over the blanks at the start of `input`.
fn skip_blanks(input: &str) -> (res: &str)
    ensures
        res@ == without_blanks(input@),
{
    let mut n: usize = 0;
    loop
        invariant
            ascii_prefix(input@, n as int),
            forall|i: int| 0 <= i < n ==> is_blank(#[trigger] input@[i]),
        decreases input@.len() - n,
    {
        match ascii_at(input, n) {
            Some(c) if c == ' ' || c == '\t' => {
                n = n + 1;
            },
            _ => {
                proof {
                    lemma_run_len(input@, |c: char| is_blank(c), n as nat);
                }
                return split_ascii(input, n).1;
            },
        }
    }
}

/// Reads a signed number at the start of `input`.
fn number(input: &str) -> (res: Option<(&str, i64)>)
    ensures
        match res {
            Some((rest, value)) => parse_number(input@) == Some((rest@, value)),
            None => parse_number(input@) is None,
        },
{
    let first = ascii_at(input, 0);
    let negative = first == Some('-');
    let signed = negative || first == Some('+');
    let digits = if signed {
        split_ascii(input, 1).1
    } else {
        input
    };
    let mut value: i64 = 0;
    let mut n: usize = 0;
    let ghost pred = |c: char| is_digit(c);
    loop
        invariant
            pred == (|c: char| is_digit(c)),
            negative == (input@.len() > 0 && input@[0] == '-'),
            digits@ == (if input@.len() > 0 && (input@[0] == '-' || input@[0] == '+') {
                input@.skip(1)
            } else {
                input@
            }),
            ascii_prefix(digits@, n as int),
            forall|i: int| 0 <= i < n ==> is_digit(#[trigger] digits@[i]),
            value == (if negative {
                -decimal_value(digits@.take(n as int))
            } else {
                decimal_value(digits@.take(n as int)) as int
            }),
        decreases digits@.len() - n,
    {
        proof {
            lemma_run_len(digits@, pred, n as nat);
        }
        match ascii_at(digits, n) {
            Some(c) if '0' <= c && c <= '9' => {
                let d: i64 = c as i64 - '0' as i64;
                proof {
                    lemma_run_len(digits@, pred, (n + 1) as nat);
                    let next = digits@.take(n + 1);
                    assert(next.drop_last() =~= digits@.take(n as int));
                    assert(next.last() == c);
                    let all = digits@.take(run_len(digits@, pred) as int);
                    assert(all.take(n + 1) =~= next);
                    lemma_decimal_monotone(all, n + 1);
                }
                let scaled = match value.checked_mul(10) {
                    None => {
                        return None;
                    },
                    Some(v) => v,
                };
                let added = if negative {
                    scaled.checked_sub(d)
                } else {
                    scaled.checked_add(d)
                };
                match added {
                    None => {
                        return None;
                    },
                    Some(v) => {
                        value = v;
                    },
                }
                n = n + 1;
            },
            _ => {
                if n == 0 {
                    return None;
                }
                return Some((split_ascii(digits, n).1, value));
            },
        }
    }
}

/// Whether `c` is a hex digit.
fn hex_digit_char(c: char) -> (res: bool)
    ensures
        res == is_hex_digit(c),
{
    ('0' <= c && c <= '9') || ('a' <= c && c <= 'f') || ('A' <= c && c <= 'F')
}

/// Takes a hash off the start of `input`: thirty-two hex digits. Gives what is left and the
/// digits.
pub fn hexhash_good(input: &str) -> (res: Option<(&str, &str)>)
    ensures
        res is Some <==> starts_with_hash(input@),
        res matches Some((rest, digits)) ==> rest@ == input@.skip(32) && digits@ == input@.take(32),
{
    let mut n: usize = 0;
    while n < 32
        invariant
            n <= 32,
            ascii_prefix(input@, n as int),
            forall|i: int| 0 <= i < n ==> is_hex_digit(#[trigger] input@[i]),
        decreases 32 - n,
    {
        match ascii_at(input, n) {
            Some(c) if hex_digit_char(c) => {
                n = n + 1;
            },
            _ => {
                assert(starts_with_hash(input@) ==> is_hex_digit(input@.take(32)[n as int]));
                return None;
            },
        }
    }
    let (digits, rest) = split_ascii(input, 32);
    Some((rest, digits))
}

/// Takes what stands for a missing hash off the start of `input`: thirty-one dashes and an ASCII
/// letter or a dash. Gives what is left and the last of these characters.
pub fn hexhash_bad(input: &str) -> (res: Result<(&str, char), LineError>)
    ensures
        match res {
            Ok((rest, marker)) => parse_bad_hash(input@) == Ok::<_, LineError>((rest@, marker)),
            Err(e) => parse_bad_hash(input@) == Err::<(Seq<char>, char), _>(e),
        },
{
    let mut n: usize = 0;
    while n < 31
        invariant
            n <= 31,
            ascii_prefix(input@, n as int),
            forall|i: int| 0 <= i < n ==> #[trigger] input@[i] == '-',
        decreases 31 - n,
    {
        match ascii_at(input, n) {
            Some('-') => {
                n = n + 1;
            },
            _ => {
                assert(starts_with_dashes(input@) ==> input@[n as int] == '-');
                return Err(LineError::Dashes);
            },
        }
    }
    match ascii_at(input, 31) {
        Some(c) if ('a' <= c && c <= 'z') || ('A' <= c && c <= 'Z') || c == '-' => {
            Ok((split_ascii(input, 32).1, c))
        },
        _ => Err(LineError::Marker),
    }
}

/// Takes the hash field off the start of `input`. Gives what is left and the hash, if the field
/// holds one.
pub fn hexhash(input: &str) -> (res: Result<(&str, Option<crate::hash::Hash>), LineError>)
    ensures
        match res {
            Ok((rest, hash)) => parse_hash(input@) == Ok::<_, LineError>((rest@, hash_view(hash))),
            Err(e) => parse_hash(input@) == Err::<(Seq<char>, Option<Seq<u8>>), _>(e),
        },
{
    if input.as_bytes().len() < 32 {
        return Err(LineError::ShortHash);
    }
    match hexhash_good(input) {
        Some((rest, digits)) => Ok((rest, Some(crate::hash::Hash::new(digits)))),
        None => match hexhash_bad(input) {
            Ok((rest, _)) => Ok((rest, None)),
            Err(e) => Err(e),
        },
    }
}

/// Takes two given ASCII characters off the start of `input`.
fn tag(input: &str, first: char, second: char) -> (res: Option<&str>)
    requires
        is_ascii_char(first),
        is_ascii_char(second),
    ensures
        match res {
            Some(rest) => behind_tag(input@, seq![first, second]) == Some(rest@),
            None => behind_tag(input@, seq![first, second]) is None,
        },
{
    let ghost both = seq![first, second];
    match ascii_at(input, 0) {
        Some(c) if c == first => match ascii_at(input, 1) {
            Some(d) if d == second => {
                assert(both.is_prefix_of(input@));
                Some(split_ascii(input, 2).1)
            },
            _ => {
                assert(both.is_prefix_of(input@) ==> input@[1] == both[1]);
                None
            },
        },
        _ => {
            assert(both.is_prefix_of(input@) ==> input@[0] == both[0]);
            None
        },
    }
}

/// Reads the path field.
fn path_field(input: &str) -> (res: Result<&str, LineError>)
    ensures
        match res {
            Ok(path) => parse_path(input@) == Ok::<_, LineError>(path@),
            Err(e) => parse_path(input@) == Err::<Seq<char>, _>(e),
        },
{
    let path = match tag(input, '.', '/') {
        Some(rest) => rest,
        None => input,
    };
    let chars = chars_of(path);
    let mut n: usize = 0;
    while n < chars.len()
        invariant
            n <= chars@.len(),
            chars@ == path@,
            forall|i: int| 0 <= i < n ==> !is_line_end(#[trigger] path@[i]),
            path@ == without_here(input@),
        decreases chars@.len() - n,
    {
        if chars[n] == '\r' || chars[n] == '\n' {
            assert(is_line_end(path@[n as int]));
            return Err(LineError::LineEnding);
        }
        n = n + 1;
    }
    Ok(path)
}

/// The warning that an entry has no hash. Entries of the left log are marked `<`, those of the
/// right one `>`.
pub open spec fn missing_hash_warning(side: int, path: Seq<char>) -> EventView {
    EventView::Warning(
        color::bright_yellow() + "[WARNING] Missing hash ["@ + side_mark(side) + "]: "@ + path
            + color::default_color(),
    )
}

/// How the log that an entry comes from is named in a warning.
pub open spec fn side_mark(side: int) -> Seq<char> {
    if side > 0 {
        ">"@
    } else {
        "<"@
    }
}

/// What reading a line adds to the events.
pub open spec fn line_events(line: Seq<char>, side: int) -> Seq<EventView> {
    match parse_line(line) {
        Ok(Some(entry)) if entry.hash is None => seq![missing_hash_warning(side, entry.path)],
        _ => seq![],
    }
}

/// Builds a warning about a path of one of the logs: the text `what`, the mark of the log, the
/// path.
pub(crate) fn path_warning(what: &str, side: usize, path: &str) -> (res: Event)
    ensures
        res@ == EventView::Warning(
            color::bright_yellow() + what@ + side_mark(side as int) + "]: "@ + path@
                + color::default_color(),
        ),
{
    let mut text: String = String::new();
    text.append(color::color_bright_yellow());
    text.append(what);
    text.append(if side > 0 { ">" } else { "<" });
    text.append("]: ");
    text.append(path);
    text.append(color::color_reset());
    assert(text@ =~= color::bright_yellow() + what@ + side_mark(side as int) + "]: "@ + path@
        + color::default_color());
    Event::Warning(text)
}

impl LogLine {
    /// Reads a line of the log of the given side. An entry without a hash is counted as ambiguous
    /// and warned about.
    pub fn parse(
        input: &str,
        ambiguous_file_count: &mut usize,
        side: usize,
        out: &mut Vec<Event>,
    ) -> (res: Result<Option<Self>, LineError>)
        requires
            line_events(input@, side as int).len() > 0 ==> *old(ambiguous_file_count) < usize::MAX,
        ensures
            match res {
                Ok(Some(line)) => parse_line(input@) == Ok::<_, LineError>(Some(line@)),
                Ok(None) => parse_line(input@) == Ok::<Option<Entry>, LineError>(None),
                Err(e) => parse_line(input@) == Err::<Option<Entry>, _>(e),
            },
            *final(ambiguous_file_count) == *old(ambiguous_file_count) + line_events(
                input@,
                side as int,
            ).len(),
            events_view(final(out)@) == events_view(old(out)@) + line_events(input@, side as int),
    {
        assert(events_view(out@) =~= events_view(out@) + Seq::<EventView>::empty());
        if input.is_empty() {
            return Ok(None);
        }
        if let Some('#') = ascii_at(input, 0) {
            return Ok(None);
        }
        let (rest, by) = match number(skip_blanks(input)) {
            None => {
                return Err(LineError::Size);
            },
            Some(field) => field,
        };
        let rest = match tag(rest, ' ', ' ') {
            None => {
                return Err(LineError::Separator);
            },
            Some(rest) => rest,
        };
        let (rest, hash) = match hexhash(rest) {
            Err(e) => {
                return Err(e);
            },
            Ok(field) => field,
        };
        let rest = match tag(rest, ' ', ' ') {
            None => {
                return Err(LineError::Separator);
            },
            Some(rest) => rest,
        };
        let path = match path_field(rest) {
            Err(e) => {
                return Err(e);
            },
            Ok(path) => path,
        };
        if hash.is_none() {
            let warning = path_warning("[WARNING] Missing hash [", side, path);
            proof {
                lemma_events_push(out@, warning);
            }
            out.push(warning);
            *ambiguous_file_count = *ambiguous_file_count + 1;
            assert(events_view(out@) =~= events_view(old(out)@) + line_events(
                input@,
                side as int,
            ));
        }
        Ok(Some(LogLine { by, hash, path: path.to_owned() }))
    }
}

} // verus!
