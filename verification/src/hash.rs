//! Content hashes: sixteen bytes, written in a log as thirty-two hex digits.
use vstd::prelude::*;
use vstd::string::*;

verus! {

/// The content hash of a file.
#[derive(Clone, Copy, Debug, Eq)]
pub struct Hash {
    pub bytes: [u8; 16],
}

impl View for Hash {
    type V = Seq<u8>;

    open spec fn view(&self) -> Seq<u8> {
        self.bytes@
    }
}

/// The hash of a file that holds nothing.
pub const EMPTY_HASH: [u8; 16] = [
    0xd4, 0x1d, 0x8c, 0xd9, 0x8f, 0x00, 0xb2, 0x04, 0xe9, 0x80, 0x09, 0x98, 0xec, 0xf8, 0x42, 0x7e,
];

/// Whether `c` is a hex digit, in either case.
pub open spec fn is_hex_digit(c: char) -> bool {
    ||| '0' <= c <= '9'
    ||| 'a' <= c <= 'f'
    ||| 'A' <= c <= 'F'
}

/// What the hex digit `c` stands for.
pub open spec fn hex_value(c: char) -> int
    recommends
        is_hex_digit(c),
{
    if c <= '9' {
        c as int - '0' as int
    } else if c <= 'F' {
        c as int - 'A' as int + 10
    } else {
        c as int - 'a' as int + 10
    }
}

/// Whether `text` writes a hash: thirty-two hex digits.
pub open spec fn is_hash_text(text: Seq<char>) -> bool {
    &&& text.len() == 32
    &&& forall|i: int| 0 <= i < 32 ==> is_hex_digit(#[trigger] text[i])
}

/// The bytes that pairs of hex digits stand for, the high digit first.
pub open spec fn hex_decoded(text: Seq<char>) -> Seq<u8> {
    Seq::new(
        text.len() / 2,
        |i: int| (16 * hex_value(text[2 * i]) + hex_value(text[2 * i + 1])) as u8,
    )
}

/// The lower-case hex digit for `n`.
pub open spec fn hex_digit(n: int) -> char
    recommends
        0 <= n < 16,
{
    if n < 10 {
        ('0' as int + n) as char
    } else {
        ('a' as int + n - 10) as char
    }
}

/// The lower-case hex digits of `bytes`, two for each, the high digit first.
pub open spec fn hex_encoded(bytes: Seq<u8>) -> Seq<char> {
    Seq::new(
        2 * bytes.len(),
        |i: int|
            hex_digit(
                if i % 2 == 0 {
                    bytes[i / 2] as int / 16
                } else {
                    bytes[i / 2] as int % 16
                },
            ),
    )
}

/// Calls `hex::decode_to_slice` on a buffer of sixteen bytes. It succeeds on exactly the texts
/// of thirty-two hex digits, in either case and mixed, and then fills the buffer with the
/// bytes that the pairs of digits stand for.
#[verifier::external_body]
fn decode_to_slice(from: &str) -> (res: Option<[u8; 16]>)
    ensures
        res is Some <==> is_hash_text(from@),
        res matches Some(bytes) ==> bytes@ == hex_decoded(from@),
{
    let mut bytes = [0u8; 16];
    match hex::decode_to_slice(from, &mut bytes) {
        Ok(()) => Some(bytes),
        Err(_) => None,
    }
}

/// Calls `hex::encode`, which writes each byte as two lower-case hex digits.
#[verifier::external_body]
fn encode(bytes: &[u8; 16]) -> (res: String)
    ensures
        res@ == hex_encoded(bytes@),
{
    hex::encode(bytes)
}

/// The number that `bytes` write in base 256, the most significant byte first.
pub open spec fn big_endian(bytes: Seq<u8>) -> nat
    decreases bytes.len(),
{
    if bytes.len() == 0 {
        0
    } else {
        256 * big_endian(bytes.drop_last()) + bytes.last() as nat
    }
}

spec fn pow256(n: nat) -> nat
    decreases n,
{
    if n == 0 {
        1
    } else {
        256 * pow256((n - 1) as nat)
    }
}

proof fn lemma_big_endian_bound(bytes: Seq<u8>)
    ensures
        big_endian(bytes) < pow256(bytes.len()),
    decreases bytes.len(),
{
    if bytes.len() > 0 {
        lemma_big_endian_bound(bytes.drop_last());
    }
}

/// Byte strings of one length that write the same number are the same.
pub proof fn lemma_big_endian_injective(a: Seq<u8>, b: Seq<u8>)
    requires
        a.len() == b.len(),
        big_endian(a) == big_endian(b),
    ensures
        a == b,
    decreases a.len(),
{
    if a.len() > 0 {
        lemma_big_endian_injective(a.drop_last(), b.drop_last());
        assert(a =~= a.drop_last().push(a.last()));
        assert(b =~= b.drop_last().push(b.last()));
    } else {
        assert(a =~= b);
    }
}

impl Hash {
    /// Reads a hash from its thirty-two hex digits.
    pub fn new(from: &str) -> (res: Self)
        requires
            is_hash_text(from@),
        ensures
            res@ == hex_decoded(from@),
    {
        let decoded = decode_to_slice(from);
        Hash { bytes: decoded.unwrap() }
    }

    /// The hash as it is shown to a reader: its hex digits in square brackets.
    pub fn fmt(&self) -> (res: String)
        ensures
            res@ == seq!['['] + hex_encoded(self@) + seq![']'],
    {
        proof {
            reveal_strlit("[");
            reveal_strlit("]");
        }
        let mut res: String = String::new();
        res.append("[");
        res.append(encode(&self.bytes).as_str());
        res.append("]");
        assert(res@ =~= seq!['['] + hex_encoded(self@) + seq![']']);
        res
    }

    /// The hash as one number, by which it is looked up.
    pub fn key(&self) -> (res: u128)
        ensures
            res == big_endian(self@),
    {
        let mut key: u128 = 0;
        let mut i: usize = 0;
        while i < 16
            invariant
                i <= 16,
                key == big_endian(self@.take(i as int)),
            decreases 16 - i,
        {
            proof {
                let next = self@.take(i + 1);
                assert(next.drop_last() =~= self@.take(i as int));
                lemma_big_endian_bound(next);
                lemma_pow256_bound((i + 1) as nat);
            }
            key = key * 256 + self.bytes[i] as u128;
            i = i + 1;
        }
        assert(self@.take(16) =~= self@);
        key
    }
}

proof fn lemma_pow256_bound(n: nat)
    requires
        n <= 16,
    ensures
        pow256(n) <= 0x1_0000_0000_0000_0000_0000_0000_0000_0000,
{
    reveal_with_fuel(pow256, 17);
}

/// The number that sixteen bytes write fits into 128 bits.
pub proof fn lemma_big_endian_key(bytes: Seq<u8>)
    requires
        bytes.len() == 16,
    ensures
        big_endian(bytes) <= u128::MAX,
{
    lemma_big_endian_bound(bytes);
    lemma_pow256_bound(16);
}

impl PartialEq for Hash {
    fn eq(&self, other: &Self) -> (res: bool) {
        let mut i: usize = 0;
        while i < 16
            invariant
                i <= 16,
                forall|j: int| 0 <= j < i ==> self@[j] == other@[j],
            decreases 16 - i,
        {
            if self.bytes[i] != other.bytes[i] {
                return false;
            }
            i = i + 1;
        }
        assert(self@ =~= other@);
        true
    }
}

impl vstd::std_specs::cmp::PartialEqSpecImpl for Hash {
    open spec fn obeys_eq_spec() -> bool {
        true
    }

    open spec fn eq_spec(&self, other: &Self) -> bool {
        self@ == other@
    }
}

} // verus!
