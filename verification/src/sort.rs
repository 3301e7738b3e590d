//! Sorting of nodes by the ends of their paths.
use vstd::prelude::*;

use crate::node::{nodes_view, paths, FSNode};
use crate::order::{lemma_lex_total, lemma_lex_transitive, lex_less, rev_bytes, rev_less};

verus! {

/// What the node `id` is sorted by: the bytes of its path, the last one first.
pub open spec fn sort_key(paths: Seq<Seq<char>>, id: usize) -> Seq<u8> {
    rev_bytes(paths[id as int])
}

/// Whether no node of `s` stands before one with a smaller key.
pub open spec fn is_sorted(paths: Seq<Seq<char>>, s: Seq<usize>) -> bool {
    forall|i: int, j: int|
        #![trigger s[i], s[j]]
        0 <= i < j < s.len() ==> !lex_less(sort_key(paths, s[j]), sort_key(paths, s[i]))
}

/// The nodes of `s` with the given key, in the order of `s`.
pub open spec fn with_key(paths: Seq<Seq<char>>, s: Seq<usize>, key: Seq<u8>) -> Seq<usize> {
    s.filter(|id: usize| sort_key(paths, id) == key)
}

/// Whether `after` holds the nodes of `before`, sorted, those with equal keys in the order of
/// `before`.
pub open spec fn is_stable_sort(
    paths: Seq<Seq<char>>,
    before: Seq<usize>,
    after: Seq<usize>,
) -> bool {
    &&& is_sorted(paths, after)
    &&& forall|key: Seq<u8>| #[trigger]
        with_key(paths, after, key) == with_key(paths, before, key)
}

/// `s`, which is sorted, with the node `id` put behind all nodes with keys no greater than its.
pub open spec fn inserted(paths: Seq<Seq<char>>, s: Seq<usize>, id: usize) -> Seq<usize>
    decreases s.len(),
{
    if s.len() > 0 && lex_less(sort_key(paths, id), sort_key(paths, s.last())) {
        inserted(paths, s.drop_last(), id).push(s.last())
    } else {
        s.push(id)
    }
}

/// `s` sorted by key, nodes with equal keys in the order of `s`.
pub open spec fn sorted(paths: Seq<Seq<char>>, s: Seq<usize>) -> Seq<usize>
    decreases s.len(),
{
    if s.len() == 0 {
        s
    } else {
        inserted(paths, sorted(paths, s.drop_last()), s.last())
    }
}

proof fn lemma_with_key_push(paths: Seq<Seq<char>>, s: Seq<usize>, id: usize, key: Seq<u8>)
    ensures
        with_key(paths, s.push(id), key) == (if sort_key(paths, id) == key {
            with_key(paths, s, key).push(id)
        } else {
            with_key(paths, s, key)
        }),
{
    reveal(Seq::filter);
    assert(s.push(id).drop_last() =~= s);
}

proof fn lemma_with_key_concat(paths: Seq<Seq<char>>, a: Seq<usize>, b: Seq<usize>, key: Seq<u8>)
    ensures
        with_key(paths, a + b, key) == with_key(paths, a, key) + with_key(paths, b, key),
    decreases b.len(),
{
    reveal(Seq::filter);
    if b.len() == 0 {
        assert(a + b =~= a);
        assert(with_key(paths, a, key) + with_key(paths, b, key) =~= with_key(paths, a, key));
    } else {
        assert((a + b).drop_last() =~= a + b.drop_last());
        lemma_with_key_concat(paths, a, b.drop_last(), key);
        lemma_with_key_push(paths, b.drop_last(), b.last(), key);
        assert(b.drop_last().push(b.last()) =~= b);
        assert(with_key(paths, a + b, key) =~= with_key(paths, a, key) + with_key(paths, b, key));
    }
}

/// A key that no node of `s` has selects nothing.
proof fn lemma_with_key_none(paths: Seq<Seq<char>>, s: Seq<usize>, key: Seq<u8>)
    requires
        forall|i: int| 0 <= i < s.len() ==> sort_key(paths, #[trigger] s[i]) != key,
    ensures
        with_key(paths, s, key) == Seq::<usize>::empty(),
    decreases s.len(),
{
    reveal(Seq::filter);
    if s.len() > 0 {
        let t = s.drop_last();
        assert forall|i: int| 0 <= i < t.len() implies sort_key(paths, #[trigger] t[i]) != key by {
            assert(t[i] == s[i]);
        }
        lemma_with_key_none(paths, t, key);
    }
}

/// What a key selects has that key and stands in the list.
proof fn lemma_with_key_members(paths: Seq<Seq<char>>, s: Seq<usize>, key: Seq<u8>)
    ensures
        forall|i: int|
            0 <= i < with_key(paths, s, key).len() ==> {
                &&& s.contains(#[trigger] with_key(paths, s, key)[i])
                &&& sort_key(paths, with_key(paths, s, key)[i]) == key
            },
        with_key(paths, s, key).len() <= s.len(),
    decreases s.len(),
{
    reveal(Seq::filter);
    if s.len() > 0 {
        let t = s.drop_last();
        lemma_with_key_members(paths, t, key);
        let w = with_key(paths, s, key);
        assert forall|i: int| 0 <= i < w.len() implies s.contains(#[trigger] w[i]) && sort_key(
            paths,
            w[i],
        ) == key by {
            if i < with_key(paths, t, key).len() {
                assert(w[i] == with_key(paths, t, key)[i]);
                let j = choose|j: int| 0 <= j < t.len() && t[j] == w[i];
                assert(s[j] == w[i]);
            } else {
                assert(s[s.len() - 1] == w[i]);
            }
        }
    }
}

proof fn lemma_inserted(paths: Seq<Seq<char>>, s: Seq<usize>, id: usize)
    requires
        is_sorted(paths, s),
    ensures
        is_sorted(paths, inserted(paths, s, id)),
        inserted(paths, s, id).len() == s.len() + 1,
        forall|i: int|
            0 <= i < s.len() + 1 ==> (#[trigger] inserted(paths, s, id)[i]) == id || s.contains(
                inserted(paths, s, id)[i],
            ),
        forall|key: Seq<u8>| #[trigger]
            with_key(paths, inserted(paths, s, id), key) == with_key(paths, s.push(id), key),
    decreases s.len(),
{
    let r = inserted(paths, s, id);
    if s.len() > 0 && lex_less(sort_key(paths, id), sort_key(paths, s.last())) {
        let t = s.drop_last();
        assert forall|i: int, j: int|
            #![trigger t[i], t[j]]
            0 <= i < j < t.len() implies !lex_less(
            sort_key(paths, t[j]),
            sort_key(paths, t[i]),
        ) by {
            assert(t[i] == s[i] && t[j] == s[j]);
        }
        lemma_inserted(paths, t, id);
        let x = inserted(paths, t, id);
        assert(r == x.push(s.last()));
        lemma_lex_total(sort_key(paths, id), sort_key(paths, s.last()));
        assert forall|i: int| 0 <= i < r.len() implies (#[trigger] r[i]) == id || s.contains(
            r[i],
        ) by {
            if i < x.len() {
                assert(r[i] == x[i]);
                if x[i] != id {
                    let j = choose|j: int| 0 <= j < t.len() && t[j] == x[i];
                    assert(s[j] == x[i]);
                }
            } else {
                assert(s[s.len() - 1] == r[i]);
            }
        }
        assert forall|i: int, j: int|
            #![trigger r[i], r[j]]
            0 <= i < j < r.len() implies !lex_less(
            sort_key(paths, r[j]),
            sort_key(paths, r[i]),
        ) by {
            assert(r[i] == x[i]);
            if j < x.len() {
                assert(r[j] == x[j]);
            } else if x[i] != id {
                let k = choose|k: int| 0 <= k < t.len() && t[k] == x[i];
                assert(s[k] == x[i] && s[s.len() - 1] == r[j]);
            }
        }
        assert forall|key: Seq<u8>| #[trigger]
            with_key(paths, r, key) == with_key(paths, s.push(id), key) by {
            lemma_with_key_push(paths, x, s.last(), key);
            lemma_with_key_push(paths, t, id, key);
            lemma_with_key_push(paths, t, s.last(), key);
            lemma_with_key_push(paths, s, id, key);
            assert(t.push(s.last()) =~= s);
            assert(with_key(paths, x, key) == with_key(paths, t.push(id), key));
        }
    } else {
        assert forall|i: int, j: int|
            #![trigger r[i], r[j]]
            0 <= i < j < r.len() implies !lex_less(
            sort_key(paths, r[j]),
            sort_key(paths, r[i]),
        ) by {
            assert(r[i] == s[i]);
            if j < s.len() {
                assert(r[j] == s[j]);
            } else {
                let last = s[s.len() - 1];
                assert(!lex_less(sort_key(paths, last), sort_key(paths, s[i]))) by {
                    lemma_lex_total(sort_key(paths, last), sort_key(paths, last));
                }
                lemma_lex_transitive(
                    sort_key(paths, s[i]),
                    sort_key(paths, last),
                    sort_key(paths, id),
                );
            }
        }
        assert forall|i: int| 0 <= i < r.len() implies (#[trigger] r[i]) == id || s.contains(
            r[i],
        ) by {
            if i < s.len() {
                assert(s[i] == r[i]);
            }
        }
    }
}

/// Sorting sorts, and keeps the order of nodes with equal keys.
pub proof fn lemma_sorted(paths: Seq<Seq<char>>, s: Seq<usize>)
    ensures
        is_stable_sort(paths, s, sorted(paths, s)),
        sorted(paths, s).len() == s.len(),
        forall|i: int| 0 <= i < s.len() ==> s.contains(#[trigger] sorted(paths, s)[i]),
    decreases s.len(),
{
    if s.len() > 0 {
        let t = s.drop_last();
        lemma_sorted(paths, t);
        let x = sorted(paths, t);
        lemma_inserted(paths, x, s.last());
        let r = sorted(paths, s);
        assert(t.push(s.last()) =~= s);
        assert forall|key: Seq<u8>| #[trigger]
            with_key(paths, r, key) == with_key(paths, s, key) by {
            lemma_with_key_push(paths, x, s.last(), key);
            lemma_with_key_push(paths, t, s.last(), key);
            assert(with_key(paths, x, key) == with_key(paths, t, key));
        }
        assert forall|i: int| 0 <= i < s.len() implies s.contains(#[trigger] r[i]) by {
            if r[i] == s.last() {
                assert(s[s.len() - 1] == r[i]);
            } else {
                let k = choose|k: int| 0 <= k < x.len() && x[k] == r[i];
                assert(t.contains(x[k]));
                let j = choose|j: int| 0 <= j < t.len() && t[j] == x[k];
                assert(s[j] == r[i]);
            }
        }
    }
}

/// The last node of a sorted list has a key that no other exceeds.
proof fn lemma_last_is_greatest(paths: Seq<Seq<char>>, a: Seq<usize>, b: Seq<usize>)
    requires
        a.len() > 0,
        is_sorted(paths, b),
        forall|key: Seq<u8>| #[trigger] with_key(paths, a, key) == with_key(paths, b, key),
    ensures
        b.len() > 0,
        !lex_less(sort_key(paths, b.last()), sort_key(paths, a.last())),
{
    let key = sort_key(paths, a.last());
    assert(a.drop_last().push(a.last()) =~= a);
    lemma_with_key_push(paths, a.drop_last(), a.last(), key);
    let w = with_key(paths, a, key);
    assert(w.len() > 0);
    assert(w == with_key(paths, b, key));
    lemma_with_key_members(paths, b, key);
    assert(b.contains(w[0]));
    let i = choose|i: int| 0 <= i < b.len() && b[i] == w[0];
    let last = b[b.len() - 1];
    if i < b.len() - 1 {
        assert(!lex_less(sort_key(paths, last), sort_key(paths, b[i])));
    } else {
        lemma_lex_total(key, key);
    }
}

/// There is only one way to sort a list and keep the order of nodes with equal keys.
pub proof fn lemma_stable_sort_unique(paths: Seq<Seq<char>>, a: Seq<usize>, b: Seq<usize>)
    requires
        is_sorted(paths, a),
        is_stable_sort(paths, a, b),
    ensures
        a == b,
    decreases a.len(),
{
    if a.len() == 0 {
        if b.len() > 0 {
            lemma_last_is_greatest(paths, b, a);
        }
        assert(a =~= b);
    } else {
        lemma_last_is_greatest(paths, a, b);
        lemma_last_is_greatest(paths, b, a);
        let (ka, kb) = (sort_key(paths, a.last()), sort_key(paths, b.last()));
        lemma_lex_total(ka, kb);
        let (x, y) = (a.drop_last(), b.drop_last());
        assert(x.push(a.last()) =~= a);
        assert(y.push(b.last()) =~= b);
        assert forall|key: Seq<u8>| #[trigger]
            with_key(paths, y, key) == with_key(paths, x, key) by {
            lemma_with_key_push(paths, x, a.last(), key);
            lemma_with_key_push(paths, y, b.last(), key);
            let (wa, wb) = (with_key(paths, a, key), with_key(paths, b, key));
            assert(wa == wb);
            if key == ka {
                assert(with_key(paths, x, key) =~= wa.drop_last());
                assert(with_key(paths, y, key) =~= wb.drop_last());
            }
        }
        assert(a.last() == b.last()) by {
            lemma_with_key_push(paths, x, a.last(), ka);
            lemma_with_key_push(paths, y, b.last(), ka);
            assert(with_key(paths, a, ka) == with_key(paths, b, ka));
            assert(with_key(paths, a, ka).last() == a.last());
            assert(with_key(paths, b, ka).last() == b.last());
        }
        assert forall|i: int, j: int|
            #![trigger x[i], x[j]]
            0 <= i < j < x.len() implies !lex_less(
            sort_key(paths, x[j]),
            sort_key(paths, x[i]),
        ) by {
            assert(x[i] == a[i] && x[j] == a[j]);
        }
        assert forall|i: int, j: int|
            #![trigger y[i], y[j]]
            0 <= i < j < y.len() implies !lex_less(
            sort_key(paths, y[j]),
            sort_key(paths, y[i]),
        ) by {
            assert(y[i] == b[i] && y[j] == b[j]);
        }
        lemma_stable_sort_unique(paths, x, y);
    }
}

/// Whether all of `ids` are indices into a list of the given length.
pub open spec fn in_bounds(ids: Seq<usize>, len: nat) -> bool {
    forall|i: int| 0 <= i < ids.len() ==> (#[trigger] ids[i]) < len
}

/// Merges two sorted lists. Of nodes with equal keys those of `a` come first.
fn merge(nodes: &Vec<FSNode>, a: &Vec<usize>, b: &Vec<usize>) -> (res: Vec<usize>)
    requires
        in_bounds(a@, nodes@.len()),
        in_bounds(b@, nodes@.len()),
        is_sorted(paths(nodes_view(nodes@)), a@),
        is_sorted(paths(nodes_view(nodes@)), b@),
    ensures
        in_bounds(res@, nodes@.len()),
        is_stable_sort(paths(nodes_view(nodes@)), a@ + b@, res@),
{
    let ghost p = paths(nodes_view(nodes@));
    let mut res: Vec<usize> = Vec::new();
    let mut i: usize = 0;
    let mut j: usize = 0;
    proof {
        assert forall|key: Seq<u8>| #[trigger]
            with_key(p, res@, key) == with_key(p, a@.take(0), key) + with_key(
                p,
                b@.take(0),
                key,
            ) by {
            reveal(Seq::filter);
            assert(with_key(p, res@, key) =~= with_key(p, a@.take(0), key) + with_key(
                p,
                b@.take(0),
                key,
            ));
        }
    }
    while i < a.len() || j < b.len()
        invariant
            p == paths(nodes_view(nodes@)),
            i <= a@.len(),
            j <= b@.len(),
            in_bounds(a@, nodes@.len()),
            in_bounds(b@, nodes@.len()),
            in_bounds(res@, nodes@.len()),
            is_sorted(p, a@),
            is_sorted(p, b@),
            is_sorted(p, res@),
            forall|x: int, y: int|
                #![trigger res@[x], a@[y]]
                0 <= x < res@.len() && i <= y < a@.len() ==> !lex_less(
                    sort_key(p, a@[y]),
                    sort_key(p, res@[x]),
                ),
            forall|x: int, y: int|
                #![trigger res@[x], b@[y]]
                0 <= x < res@.len() && j <= y < b@.len() ==> !lex_less(
                    sort_key(p, b@[y]),
                    sort_key(p, res@[x]),
                ),
            forall|x: int, y: int|
                #![trigger b@[x], a@[y]]
                0 <= x < j && i <= y < a@.len() ==> lex_less(sort_key(p, b@[x]), sort_key(p, a@[y])),
            forall|key: Seq<u8>| #[trigger]
                with_key(p, res@, key) == with_key(p, a@.take(i as int), key) + with_key(
                    p,
                    b@.take(j as int),
                    key,
                ),
        decreases a@.len() + b@.len() - i - j,
    {
        let take_b = if i == a.len() {
            true
        } else if j == b.len() {
            false
        } else {
            rev_less(nodes[b[j]].path.as_str(), nodes[a[i]].path.as_str())
        };
        let ghost before = res@;
        if take_b {
            let id = b[j];
            proof {
                assert(b@.take(j + 1) =~= b@.take(j as int).push(id));
                assert forall|key: Seq<u8>| #[trigger]
                    with_key(p, before.push(id), key) == with_key(
                        p,
                        a@.take(i as int),
                        key,
                    ) + with_key(p, b@.take(j + 1), key) by {
                    lemma_with_key_push(p, before, id, key);
                    lemma_with_key_push(p, b@.take(j as int), id, key);
                    assert(with_key(p, before, key) == with_key(p, a@.take(i as int), key)
                        + with_key(p, b@.take(j as int), key));
                    assert(with_key(p, before.push(id), key) =~= with_key(
                        p,
                        a@.take(i as int),
                        key,
                    ) + with_key(p, b@.take(j + 1), key));
                }
                assert forall|y: int| i <= y < a@.len() implies lex_less(
                    sort_key(p, id),
                    sort_key(p, #[trigger] a@[y]),
                ) by {
                    if y > i {
                        assert(!lex_less(sort_key(p, a@[y]), sort_key(p, a@[i as int])));
                        lemma_lex_total(sort_key(p, id), sort_key(p, a@[i as int]));
                        lemma_lex_transitive(
                            sort_key(p, id),
                            sort_key(p, a@[i as int]),
                            sort_key(p, a@[y]),
                        );
                    }
                }
                assert forall|y: int| i <= y < a@.len() implies !lex_less(
                    sort_key(p, #[trigger] a@[y]),
                    sort_key(p, id),
                ) by {
                    lemma_lex_total(sort_key(p, id), sort_key(p, a@[y]));
                }
            }
            res.push(id);
            j = j + 1;
        } else {
            let id = a[i];
            proof {
                assert(a@.take(i + 1) =~= a@.take(i as int).push(id));
                assert forall|key: Seq<u8>| #[trigger]
                    with_key(p, before.push(id), key) == with_key(
                        p,
                        a@.take(i + 1),
                        key,
                    ) + with_key(p, b@.take(j as int), key) by {
                    lemma_with_key_push(p, before, id, key);
                    lemma_with_key_push(p, a@.take(i as int), id, key);
                    assert(with_key(p, before, key) == with_key(p, a@.take(i as int), key)
                        + with_key(p, b@.take(j as int), key));
                    if sort_key(p, id) == key {
                        let t = b@.take(j as int);
                        assert forall|x: int| 0 <= x < t.len() implies sort_key(
                            p,
                            #[trigger] t[x],
                        ) != key by {
                            assert(t[x] == b@[x]);
                            assert(lex_less(sort_key(p, b@[x]), sort_key(p, a@[i as int])));
                            lemma_lex_total(key, key);
                        }
                        lemma_with_key_none(p, t, key);
                    }
                    assert(with_key(p, before.push(id), key) =~= with_key(
                        p,
                        a@.take(i + 1),
                        key,
                    ) + with_key(p, b@.take(j as int), key));
                }
                assert forall|y: int| j <= y < b@.len() implies !lex_less(
                    sort_key(p, #[trigger] b@[y]),
                    sort_key(p, id),
                ) by {
                    if y > j {
                        assert(!lex_less(sort_key(p, b@[y]), sort_key(p, b@[j as int])));
                        lemma_lex_transitive(
                            sort_key(p, id),
                            sort_key(p, b@[j as int]),
                            sort_key(p, b@[y]),
                        );
                    }
                }
            }
            res.push(id);
            i = i + 1;
        }
    }
    proof {
        assert(a@.take(i as int) =~= a@);
        assert(b@.take(j as int) =~= b@);
        assert forall|key: Seq<u8>| #[trigger]
            with_key(p, res@, key) == with_key(p, a@ + b@, key) by {
            lemma_with_key_concat(p, a@, b@, key);
        }
    }
    res
}

/// Sorts the nodes `lo..hi` of `v`.
fn sort_range(nodes: &Vec<FSNode>, v: &Vec<usize>, lo: usize, hi: usize) -> (res: Vec<usize>)
    requires
        lo <= hi <= v@.len(),
        in_bounds(v@, nodes@.len()),
    ensures
        in_bounds(res@, nodes@.len()),
        is_stable_sort(paths(nodes_view(nodes@)), v@.subrange(lo as int, hi as int), res@),
    decreases hi - lo,
{
    let ghost p = paths(nodes_view(nodes@));
    let ghost whole = v@.subrange(lo as int, hi as int);
    if hi - lo < 2 {
        let mut res: Vec<usize> = Vec::new();
        if hi - lo == 1 {
            res.push(v[lo]);
        }
        assert(res@ =~= whole);
        return res;
    }
    let mid = lo + (hi - lo) / 2;
    let a = sort_range(nodes, v, lo, mid);
    let b = sort_range(nodes, v, mid, hi);
    let res = merge(nodes, &a, &b);
    proof {
        let (x, y) = (v@.subrange(lo as int, mid as int), v@.subrange(mid as int, hi as int));
        assert(whole =~= x + y);
        assert forall|key: Seq<u8>| #[trigger]
            with_key(p, res@, key) == with_key(p, whole, key) by {
            lemma_with_key_concat(p, a@, b@, key);
            lemma_with_key_concat(p, x, y, key);
            assert(with_key(p, res@, key) == with_key(p, a@ + b@, key));
            assert(with_key(p, a@, key) == with_key(p, x, key));
            assert(with_key(p, b@, key) == with_key(p, y, key));
        }
    }
    res
}

/// Sorts nodes by the ends of their paths. Nodes with equal paths keep their order.
pub fn sort_revpath(nodes: &Vec<FSNode>, v: &mut Vec<usize>)
    requires
        in_bounds(old(v)@, nodes@.len()),
    ensures
        final(v)@ == sorted(paths(nodes_view(nodes@)), old(v)@),
        is_stable_sort(paths(nodes_view(nodes@)), old(v)@, final(v)@),
{
    let ghost p = paths(nodes_view(nodes@));
    let res = sort_range(nodes, v, 0, v.len());
    proof {
        assert(v@.subrange(0, v@.len() as int) =~= v@);
        lemma_sorted(p, v@);
        assert forall|key: Seq<u8>| #[trigger]
            with_key(p, sorted(p, v@), key) == with_key(p, res@, key) by {
            assert(with_key(p, res@, key) == with_key(p, v@, key));
            assert(with_key(p, sorted(p, v@), key) == with_key(p, v@, key));
        }
        lemma_stable_sort_unique(p, res@, sorted(p, v@));
    }
    *v = res;
}

} // verus!
