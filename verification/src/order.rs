//! The order of paths by their ends: paths are compared byte by byte from the last byte on.
use vstd::prelude::*;
use vstd::utf8::*;

verus! {

/// The bytes of `path`, the last one first.
pub open spec fn rev_bytes(path: Seq<char>) -> Seq<u8> {
    encode_utf8(path).reverse()
}

/// How many bytes `a` and `b` have in common at their starts.
pub open spec fn common_len(a: Seq<u8>, b: Seq<u8>) -> nat
    decreases a.len(),
{
    if a.len() > 0 && b.len() > 0 && a[0] == b[0] {
        1 + common_len(a.drop_first(), b.drop_first())
    } else {
        0
    }
}

/// Whether `a` stands before `b` in the order of dictionaries.
pub open spec fn lex_less(a: Seq<u8>, b: Seq<u8>) -> bool {
    let n = common_len(a, b) as int;
    n < b.len() && (n == a.len() || a[n] < b[n])
}

/// The common start of `a` and `b` ends where they first differ or where one of them ends.
pub proof fn lemma_common_len(a: Seq<u8>, b: Seq<u8>)
    ensures
        common_len(a, b) <= a.len(),
        common_len(a, b) <= b.len(),
        forall|i: int| 0 <= i < common_len(a, b) ==> #[trigger] a[i] == b[i],
        common_len(a, b) < a.len() && common_len(a, b) < b.len() ==> a[common_len(a, b) as int]
            != b[common_len(a, b) as int],
    decreases a.len(),
{
    if a.len() > 0 && b.len() > 0 && a[0] == b[0] {
        let (c, d) = (a.drop_first(), b.drop_first());
        lemma_common_len(c, d);
        assert forall|i: int| 0 <= i < common_len(a, b) implies #[trigger] a[i] == b[i] by {
            if i > 0 {
                assert(c[i - 1] == a[i]);
                assert(d[i - 1] == b[i]);
            }
        }
    }
}

/// A common start that cannot be made longer is the longest.
pub proof fn lemma_common_len_is(a: Seq<u8>, b: Seq<u8>, n: nat)
    requires
        n <= a.len(),
        n <= b.len(),
        forall|i: int| 0 <= i < n ==> #[trigger] a[i] == b[i],
    ensures
        n <= common_len(a, b),
        n == a.len() || n == b.len() || a[n as int] != b[n as int] ==> common_len(a, b) == n,
{
    lemma_common_len(a, b);
    let m = common_len(a, b);
    if m < n {
        assert(a[m as int] == b[m as int]);
    }
}

/// The common start of `a` and `b` is that of `b` and `a`.
pub proof fn lemma_common_len_symmetric(a: Seq<u8>, b: Seq<u8>)
    ensures
        common_len(a, b) == common_len(b, a),
{
    lemma_common_len(a, b);
    assert forall|i: int| 0 <= i < common_len(a, b) implies #[trigger] b[i] == a[i] by {
        assert(a[i] == b[i]);
    }
    lemma_common_len_is(b, a, common_len(a, b));
}

/// Of two byte strings one stands before the other, or they are equal.
pub proof fn lemma_lex_total(a: Seq<u8>, b: Seq<u8>)
    ensures
        !(lex_less(a, b) && lex_less(b, a)),
        a == b <==> !lex_less(a, b) && !lex_less(b, a),
{
    lemma_common_len(a, b);
    lemma_common_len_symmetric(a, b);
    if a == b {
        lemma_common_len_is(a, b, a.len());
    } else if !lex_less(a, b) && !lex_less(b, a) {
        assert(a =~= b);
    }
}

/// The order is transitive.
pub proof fn lemma_lex_transitive(a: Seq<u8>, b: Seq<u8>, c: Seq<u8>)
    requires
        !lex_less(b, a),
        !lex_less(c, b),
    ensures
        !lex_less(c, a),
        lex_less(a, b) || lex_less(b, c) ==> lex_less(a, c),
{
    lemma_common_len(a, b);
    lemma_common_len(b, c);
    lemma_common_len(a, c);
    lemma_common_len_symmetric(a, b);
    lemma_common_len_symmetric(b, c);
    lemma_common_len_symmetric(a, c);
    let (x, y) = (common_len(a, b), common_len(b, c));
    let m = if x < y {
        x
    } else {
        y
    };
    assert forall|i: int| 0 <= i < m implies #[trigger] a[i] == c[i] by {
        assert(a[i] == b[i] && b[i] == c[i]);
    }
    lemma_common_len_is(a, c, m);
    lemma_lex_total(a, b);
    lemma_lex_total(b, c);
    if a != b && b != c {
        assert(x < b.len());
        if x < y {
            assert(b[x as int] == c[x as int]);
        } else if y < x {
            assert(a[y as int] == b[y as int]);
        }
    }
}

/// What stands between two byte strings has at least as long a start in common with each of them
/// as they have with one another.
pub proof fn lemma_common_len_between(a: Seq<u8>, b: Seq<u8>, c: Seq<u8>)
    requires
        !lex_less(b, a),
        !lex_less(c, b),
    ensures
        common_len(a, c) <= common_len(a, b),
        common_len(a, c) <= common_len(b, c),
{
    lemma_common_len(a, b);
    lemma_common_len(b, c);
    lemma_common_len(a, c);
    lemma_common_len_symmetric(a, b);
    lemma_common_len_symmetric(b, c);
    let (n, m) = (common_len(a, c), common_len(a, b));
    if m < n {
        assert(a[m as int] == c[m as int]);
        assert forall|i: int| 0 <= i < m implies #[trigger] b[i] == c[i] by {
            assert(a[i] == b[i] && a[i] == c[i]);
        }
        lemma_common_len_is(b, c, m);
        assert(false);
    }
    assert forall|i: int| 0 <= i < n implies #[trigger] b[i] == c[i] by {
        assert(a[i] == b[i] && a[i] == c[i]);
    }
    lemma_common_len_is(b, c, n);
}

/// Which of two candidates has more in common with a reference.
#[derive(Clone, Copy, Debug, PartialEq, Eq, Structural)]
pub enum BestPrefixMatch {
    First,
    Second,
    /// A tie.
    Neither,
}

/// Which of `l1` and `l2` has the longer start in common with `r`.
pub open spec fn best_match(r: Seq<u8>, l1: Seq<u8>, l2: Seq<u8>) -> BestPrefixMatch {
    if common_len(r, l1) > common_len(r, l2) {
        BestPrefixMatch::First
    } else if common_len(r, l1) < common_len(r, l2) {
        BestPrefixMatch::Second
    } else {
        BestPrefixMatch::Neither
    }
}

/// Tells which of `l1` and `l2` has the longer start in common with `r`.
pub fn best_prefix_match(r: &[u8], l1: &[u8], l2: &[u8]) -> (res: BestPrefixMatch)
    ensures
        res == best_match(r@, l1@, l2@),
{
    let mut i: usize = 0;
    while i < r.len()
        invariant
            i <= r@.len(),
            i <= l1@.len(),
            i <= l2@.len(),
            forall|j: int| 0 <= j < i ==> #[trigger] r@[j] == l1@[j],
            forall|j: int| 0 <= j < i ==> #[trigger] r@[j] == l2@[j],
        decreases r@.len() - i,
    {
        let l1match = i < l1.len() && l1[i] == r[i];
        let l2match = i < l2.len() && l2[i] == r[i];
        proof {
            lemma_common_len_is(r@, l1@, i as nat);
            lemma_common_len_is(r@, l2@, i as nat);
            if l1match {
                lemma_common_len_is(r@, l1@, (i + 1) as nat);
            }
            if l2match {
                lemma_common_len_is(r@, l2@, (i + 1) as nat);
            }
        }
        if l1match {
            if !l2match {
                return BestPrefixMatch::First;
            }
        } else {
            if !l2match {
                return BestPrefixMatch::Neither;
            }
            return BestPrefixMatch::Second;
        }
        i = i + 1;
    }
    proof {
        lemma_common_len_is(r@, l1@, i as nat);
        lemma_common_len_is(r@, l2@, i as nat);
    }
    BestPrefixMatch::Neither
}

/// Whether the path `a` stands before the path `b` in the order of their ends.
pub fn rev_less(a: &str, b: &str) -> (res: bool)
    ensures
        res == lex_less(rev_bytes(a@), rev_bytes(b@)),
{
    let x = a.as_bytes();
    let y = b.as_bytes();
    let ghost (u, v) = (rev_bytes(a@), rev_bytes(b@));
    let mut i: usize = 0;
    while i < x.len() && i < y.len()
        invariant
            x@ == encode_utf8(a@),
            y@ == encode_utf8(b@),
            u == rev_bytes(a@),
            v == rev_bytes(b@),
            i <= x@.len(),
            i <= y@.len(),
            forall|j: int| 0 <= j < i ==> #[trigger] u[j] == v[j],
        decreases x@.len() - i,
    {
        let p = x[x.len() - 1 - i];
        let q = y[y.len() - 1 - i];
        assert(p == u[i as int] && q == v[i as int]);
        if p != q {
            proof {
                lemma_common_len_is(u, v, i as nat);
            }
            return p < q;
        }
        i = i + 1;
    }
    proof {
        lemma_common_len_is(u, v, i as nat);
    }
    x.len() < y.len()
}

/// The bytes of `path`, the last one first.
pub fn reversed_bytes(path: &str) -> (res: Vec<u8>)
    ensures
        res@ == rev_bytes(path@),
{
    let bytes = path.as_bytes();
    let mut res: Vec<u8> = Vec::new();
    while res.len() < bytes.len()
        invariant
            bytes@ == encode_utf8(path@),
            res@.len() <= bytes@.len(),
            forall|j: int| 0 <= j < res@.len() ==> #[trigger] res@[j] == rev_bytes(path@)[j],
        decreases bytes@.len() - res@.len(),
    {
        res.push(bytes[bytes.len() - 1 - res.len()]);
    }
    assert(res@ =~= rev_bytes(path@));
    res
}

} // verus!
