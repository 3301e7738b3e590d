//! Facts and helpers that relate the characters of a string to its UTF-8 bytes.
use vstd::prelude::*;
use vstd::string::*;
use vstd::utf8::*;

verus! {

/// Whether `c` is encoded by one byte.
pub open spec fn is_ascii_char(c: char) -> bool {
    (c as u32) < 0x80
}

/// Whether the first `n` characters of `chars` are ASCII.
pub open spec fn ascii_prefix(chars: Seq<char>, n: int) -> bool {
    &&& 0 <= n <= chars.len()
    &&& forall|i: int| 0 <= i < n ==> is_ascii_char(#[trigger] chars[i])
}

/// Equal encodings come from equal texts.
pub proof fn lemma_encode_injective(a: Seq<char>, b: Seq<char>)
    requires
        encode_utf8(a) == encode_utf8(b),
    ensures
        a == b,
{
    encode_utf8_decode_utf8(a);
    encode_utf8_decode_utf8(b);
}

proof fn lemma_encode_scalar(c: char)
    ensures
        is_ascii_char(c) ==> encode_scalar(c as u32) == seq![c as u8] && (c as u8) < 0x80
            && (c as u8) as char == c,
        !is_ascii_char(c) ==> encode_scalar(c as u32).len() >= 2 && encode_scalar(c as u32)[0]
            >= 0x80,
        1 <= encode_scalar(c as u32).len() <= 4,
{
    let s = c as u32;
    char_is_scalar(c);
    if is_ascii_char(c) {
        assert(s as u8 == leading_byte_width_1(s)) by (bit_vector)
            requires
                s < 0x80,
        ;
    } else {
        encode_utf8_first_scalar(seq![c]);
        assert(encode_utf8(seq![c]) =~= encode_scalar(s)) by {
            reveal_with_fuel(encode_utf8, 2);
            assert(seq![c].drop_first() =~= Seq::empty());
        }
        assert(encode_scalar(s).len() >= 2);
    }
}

/// A text has at least as many bytes as characters.
pub proof fn lemma_encode_len(chars: Seq<char>)
    ensures
        chars.len() <= encode_utf8(chars).len(),
    decreases chars.len(),
{
    if chars.len() > 0 {
        lemma_encode_scalar(chars[0]);
        lemma_encode_len(chars.drop_first());
    }
}

/// Behind `n` ASCII characters the bytes and the characters run in step.
pub proof fn lemma_ascii_prefix(chars: Seq<char>, n: int)
    requires
        ascii_prefix(chars, n),
    ensures
        n <= encode_utf8(chars).len(),
        forall|i: int| 0 <= i < n ==> #[trigger] encode_utf8(chars)[i] == chars[i] as u8,
        encode_utf8(chars.skip(n)) == encode_utf8(chars).skip(n),
        is_char_boundary(encode_utf8(chars), n),
        n == chars.len() <==> n == encode_utf8(chars).len(),
        n < chars.len() ==> (is_ascii_char(chars[n]) <==> encode_utf8(chars)[n] < 0x80),
        n < chars.len() && is_ascii_char(chars[n]) ==> encode_utf8(chars)[n] == chars[n] as u8,
    decreases n,
{
    let bytes = encode_utf8(chars);
    encode_utf8_valid_utf8(chars);
    if n == 0 {
        assert(chars.skip(0) =~= chars);
        assert(bytes.skip(0) =~= bytes);
        if chars.len() > 0 {
            lemma_encode_scalar(chars[0]);
            assert(bytes[0] == encode_scalar(chars[0] as u32)[0]);
        }
    } else {
        let rest = chars.drop_first();
        lemma_encode_scalar(chars[0]);
        assert forall|i: int| 0 <= i < n - 1 implies is_ascii_char(#[trigger] rest[i]) by {
            assert(rest[i] == chars[i + 1]);
        }
        lemma_ascii_prefix(rest, n - 1);
        assert(chars.skip(n) =~= rest.skip(n - 1));
        assert(bytes =~= seq![chars[0] as u8] + encode_utf8(rest));
        assert(bytes.skip(n) =~= encode_utf8(rest).skip(n - 1));
        assert forall|i: int| 0 <= i < n implies #[trigger] bytes[i] == chars[i] as u8 by {
            if i > 0 {
                assert(bytes[i] == encode_utf8(rest)[i - 1]);
                assert(rest[i - 1] == chars[i]);
            }
        }
        assert(is_char_boundary(bytes, n)) by {
            encode_utf8_first_scalar(chars);
            assert(pop_first_scalar(bytes) =~= encode_utf8(rest));
        }
        if n < chars.len() {
            assert(rest[n - 1] == chars[n]);
            lemma_encode_len(rest);
            assert(bytes[n] == encode_utf8(rest)[n - 1]);
        }
    }
}

/// The character at index `i` of `s`, if there is one and it is ASCII. All before it are ASCII.
pub fn ascii_at(s: &str, i: usize) -> (res: Option<char>)
    requires
        ascii_prefix(s@, i as int),
    ensures
        res == (if i < s@.len() && is_ascii_char(s@[i as int]) {
            Some(s@[i as int])
        } else {
            None
        }),
        res is Some ==> i < usize::MAX,
{
    proof {
        lemma_ascii_prefix(s@, i as int);
        if i < s@.len() {
            lemma_encode_scalar(s@[i as int]);
        }
    }
    let bytes = s.as_bytes();
    if i < bytes.len() && bytes[i] < 0x80 {
        Some(bytes[i] as char)
    } else {
        None
    }
}

/// Splits `s` behind its first `n` characters, which are ASCII.
pub fn split_ascii(s: &str, n: usize) -> (res: (&str, &str))
    requires
        ascii_prefix(s@, n as int),
    ensures
        res.0@ == s@.take(n as int),
        res.1@ == s@.skip(n as int),
{
    proof {
        lemma_ascii_prefix(s@, n as int);
        let head = s@.take(n as int);
        assert(ascii_prefix(head, n as int)) by {
            assert forall|i: int| 0 <= i < n implies is_ascii_char(#[trigger] head[i]) by {
                assert(head[i] == s@[i]);
            }
        }
        lemma_ascii_prefix(head, n as int);
        assert(encode_utf8(head) =~= encode_utf8(s@).take(n as int));
    }
    let (a, b) = s.split_at(n);
    proof {
        assert(encode_utf8(s@).subrange(0, n as int) =~= encode_utf8(s@).take(n as int));
        assert(encode_utf8(s@).subrange(n as int, encode_utf8(s@).len() as int) =~= encode_utf8(
            s@,
        ).skip(n as int));
        lemma_encode_injective(a@, s@.take(n as int));
        lemma_encode_injective(b@, s@.skip(n as int));
    }
    (a, b)
}

/// The characters of `s`.
pub fn chars_of(s: &str) -> (res: Vec<char>)
    ensures
        res@ == s@,
{
    let mut rest = s.chars();
    let mut res: Vec<char> = Vec::new();
    loop
        invariant
            res@.len() <= s@.len(),
            res@ == s@.take(res@.len() as int),
            vstd::std_specs::iter::IteratorSpec::remaining(&rest) == s@.skip(res@.len() as int),
            vstd::std_specs::iter::IteratorSpec::decrease(&rest) is Some,
        decreases s@.len() - res@.len(),
    {
        match rest.next() {
            None => {
                assert(s@.take(res@.len() as int) =~= s@);
                return res;
            },
            Some(c) => {
                res.push(c);
                assert(res@ =~= s@.take(res@.len() as int));
            },
        }
    }
}

/// How many characters `a` and `b` have in common at their starts.
pub open spec fn common_chars(a: Seq<char>, b: Seq<char>) -> nat
    decreases a.len(),
{
    if a.len() > 0 && b.len() > 0 && a[0] == b[0] {
        1 + common_chars(a.drop_first(), b.drop_first())
    } else {
        0
    }
}

/// A common start that cannot be made longer is the longest.
pub proof fn lemma_common_chars(a: Seq<char>, b: Seq<char>, n: nat)
    requires
        n <= a.len(),
        n <= b.len(),
        forall|i: int| 0 <= i < n ==> #[trigger] a[i] == b[i],
    ensures
        n <= common_chars(a, b),
        common_chars(a, b) <= a.len(),
        common_chars(a, b) <= b.len(),
        n == a.len() || n == b.len() || a[n as int] != b[n as int] ==> common_chars(a, b) == n,
    decreases a.len(),
{
    if a.len() > 0 && b.len() > 0 && a[0] == b[0] {
        let (c, d) = (a.drop_first(), b.drop_first());
        let m = if n > 0 {
            (n - 1) as nat
        } else {
            0
        };
        assert forall|i: int| 0 <= i < m implies #[trigger] c[i] == d[i] by {
            assert(a[i + 1] == b[i + 1]);
        }
        lemma_common_chars(c, d, m);
        if 0 < n && n < a.len() && n < b.len() {
            assert(c[m as int] == a[n as int] && d[m as int] == b[n as int]);
        }
    }
}

/// Counts the characters that `l` and `r` have in common at their starts.
pub fn prefix_match_len(l: &str, r: &str) -> (res: usize)
    ensures
        res == common_chars(l@, r@),
{
    let a = chars_of(l);
    let b = chars_of(r);
    let mut count: usize = 0;
    while count < a.len() && count < b.len()
        invariant
            a@ == l@,
            b@ == r@,
            count <= a@.len(),
            count <= b@.len(),
            forall|i: int| 0 <= i < count ==> #[trigger] a@[i] == b@[i],
        decreases a@.len() - count,
    {
        if a[count] != b[count] {
            proof {
                lemma_common_chars(l@, r@, count as nat);
            }
            return count;
        }
        count = count + 1;
    }
    proof {
        lemma_common_chars(l@, r@, count as nat);
    }
    count
}

/// The length of the longest start of the first `n` characters of `text` that is empty or ends in a
/// slash.
pub open spec fn behind_last_slash(text: Seq<char>, n: int) -> int
    decreases n,
{
    if n <= 0 {
        0
    } else if text[n - 1] == '/' {
        n
    } else {
        behind_last_slash(text, n - 1)
    }
}

/// Finds the end of the longest start of the first `n` characters of `text` that is empty or ends
/// in a slash.
pub fn find_behind_last_slash(text: &Vec<char>, n: usize) -> (res: usize)
    requires
        n <= text@.len(),
    ensures
        res == behind_last_slash(text@, n as int),
        res <= n,
{
    let mut k: usize = n;
    while k > 0
        invariant
            k <= n <= text@.len(),
            behind_last_slash(text@, n as int) == behind_last_slash(text@, k as int),
        decreases k,
    {
        if text[k - 1] == '/' {
            return k;
        }
        k = k - 1;
    }
    0
}

/// Whether `text` holds `part`.
pub open spec fn contains_text(text: Seq<char>, part: Seq<char>) -> bool {
    exists|i: int|
        0 <= i <= text.len() - part.len() && #[trigger] text.subrange(i, i + part.len()) == part
}

/// Whether `part` stands in `text` at the index `at`.
fn stands_at(text: &Vec<char>, part: &Vec<char>, at: usize) -> (res: bool)
    requires
        at + part@.len() <= text@.len(),
    ensures
        res == (text@.subrange(at as int, at + part@.len()) == part@),
{
    let len = text.len();
    let mut i: usize = 0;
    while i < part.len()
        invariant
            i <= part@.len(),
            at + part@.len() <= text@.len() == len,
            forall|j: int| 0 <= j < i ==> #[trigger] part@[j] == text@[at + j],
        decreases part@.len() - i,
    {
        if text[at + i] != part[i] {
            assert(text@.subrange(at as int, at + part@.len())[i as int] != part@[i as int]);
            return false;
        }
        i = i + 1;
    }
    assert(text@.subrange(at as int, at + part@.len()) =~= part@);
    true
}

/// Tells whether `text` holds `part`.
pub fn contains(text: &str, part: &str) -> (res: bool)
    ensures
        res == contains_text(text@, part@),
{
    let all = chars_of(text);
    let wanted = chars_of(part);
    if wanted.len() > all.len() {
        return false;
    }
    let last = all.len() - wanted.len();
    let mut at: usize = 0;
    loop
        invariant
            all@ == text@,
            wanted@ == part@,
            at <= last,
            last == text@.len() - part@.len(),
            forall|i: int|
                0 <= i < at ==> #[trigger] text@.subrange(i, i + part@.len()) != part@,
        decreases last - at,
    {
        if stands_at(&all, &wanted, at) {
            return true;
        }
        if at == last {
            return false;
        }
        at = at + 1;
    }
}

/// `n` in decimal digits.
pub open spec fn decimal(n: nat) -> Seq<char>
    decreases n,
{
    if n < 10 {
        seq![('0' as nat + n) as char]
    } else {
        decimal(n / 10).push(('0' as nat + n % 10) as char)
    }
}

/// The decimal digit for `n`.
fn digit(n: usize) -> (res: &'static str)
    requires
        n < 10,
    ensures
        res@ == seq![('0' as nat + n) as char],
{
    proof {
        reveal_strlit("0");
        reveal_strlit("1");
        reveal_strlit("2");
        reveal_strlit("3");
        reveal_strlit("4");
        reveal_strlit("5");
        reveal_strlit("6");
        reveal_strlit("7");
        reveal_strlit("8");
        reveal_strlit("9");
    }
    let res = match n {
        0 => "0",
        1 => "1",
        2 => "2",
        3 => "3",
        4 => "4",
        5 => "5",
        6 => "6",
        7 => "7",
        8 => "8",
        _ => "9",
    };
    assert(res@ =~= seq![('0' as nat + n) as char]);
    res
}

/// Writes `n` in decimal digits.
pub fn decimal_string(n: usize) -> (res: String)
    ensures
        res@ == decimal(n as nat),
    decreases n,
{
    if n < 10 {
        digit(n).to_owned()
    } else {
        let mut res = decimal_string(n / 10);
        let ghost before = res@;
        res.append(digit(n % 10));
        assert(res@ =~= before.push(('0' as nat + n % 10) as char));
        res
    }
}

} // verus!
