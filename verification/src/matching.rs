//! Which files are told to be copied, moved, modified, removed or created, and in what order.
use vstd::prelude::*;

use crate::account::{
    all_apart, candidates, hash_lines, is_accounted, is_apart, is_copy, is_hash_match, is_match,
    is_matched, is_object_match, is_object_reportable, law_hashes_in_turn, law_remaining,
    left_lines, match_line, object_lines, pending, right_lines, source_at,
};
use crate::event::EventView;
use crate::hash::EMPTY_HASH;
use crate::maps::{HashesView, ObjectView, PathsView};
use crate::meaning::{
    ends_before, law_end_order, law_first_from, law_pick, law_sorted, lemma_key_of_path, share_end,
    with_path,
};
use crate::model::{
    ambiguity_events, copies_and_moves, diff_outcome, first_from, not_done, read_log, remaining,
    source_of, with_log, Progress, Request, State,
};
use crate::node::{paths, NodeView};
use crate::order::lex_less;
use crate::report::{copy_move_line, modify_line, single_line};
use crate::rkd::DiffError;
use crate::sort::{
    is_stable_sort, lemma_sorted, lemma_stable_sort_unique, sort_key, sorted, with_key,
};
use crate::timer::timing_events;

verus! {

/// The paths of the nodes.
pub open spec fn paths_of(nodes: Seq<NodeView>) -> Seq<Seq<char>> {
    Seq::new(nodes.len(), |i: int| nodes[i].path)
}

/// Whether `list` is `ids` in the order of the ends of their paths, nodes with the same path in the
/// order of `ids`.
pub open spec fn is_by_ends(paths: Seq<Seq<char>>, ids: Seq<usize>, list: Seq<usize>) -> bool {
    &&& list.to_multiset() == ids.to_multiset()
    &&& forall|i: int, j: int|
        0 <= i < j < list.len() ==> !ends_before(
            paths[#[trigger] list[j] as int],
            paths[#[trigger] list[i] as int],
        )
    &&& forall|p: Seq<char>| #[trigger] with_path(paths, list, p) == with_path(paths, ids, p)
}

/// There is just one such list.
proof fn lemma_by_ends(paths: Seq<Seq<char>>, ids: Seq<usize>, list: Seq<usize>)
    ensures
        is_by_ends(paths, ids, list) <==> list == sorted(paths, ids),
{
    law_sorted(paths, ids);
    lemma_sorted(paths, ids);
    let all = sorted(paths, ids);
    all.to_multiset_ensures();
    ids.to_multiset_ensures();
    if is_by_ends(paths, ids, list) {
        assert forall|i: int, j: int|
            #![trigger list[i], list[j]]
            0 <= i < j < list.len() implies !lex_less(
            sort_key(paths, list[j]),
            sort_key(paths, list[i]),
        ) by {
            law_end_order(paths[list[j] as int], paths[list[i] as int]);
        }
        assert forall|key: Seq<u8>| #[trigger]
            with_key(paths, list, key) == with_key(paths, all, key) by {
            assert(with_key(paths, all, key) == with_key(paths, ids, key));
            lemma_with_key(paths, list, ids, key);
        }
        assert(is_stable_sort(paths, all, list));
        lemma_stable_sort_unique(paths, all, list);
    }
}

/// Nodes with the same key have the same path.
proof fn lemma_with_key(paths: Seq<Seq<char>>, a: Seq<usize>, b: Seq<usize>, key: Seq<u8>)
    requires
        forall|p: Seq<char>| #[trigger] with_path(paths, a, p) == with_path(paths, b, p),
    ensures
        with_key(paths, a, key) == with_key(paths, b, key),
{
    let f = |id: usize| sort_key(paths, id) == key;
    if exists|id: usize| #[trigger] sort_key(paths, id) == key {
        let one = choose|id: usize| #[trigger] sort_key(paths, id) == key;
        let p = paths[one as int];
        lemma_key_of_path(paths, a, p);
        lemma_key_of_path(paths, b, p);
        assert(with_path(paths, a, p) == with_path(paths, b, p));
    } else {
        assert forall|id: usize| !#[trigger] f(id) by {
            assert(sort_key(paths, id) != key);
        }
        a.lemma_all_neg_filter_empty(f);
        b.lemma_all_neg_filter_empty(f);
        assert(with_key(paths, a, key) == a.filter(f));
        assert(with_key(paths, b, key) == b.filter(f));
        assert(a.filter(f) =~= b.filter(f));
    }
}

/// Whether the `n`-th node of `list`, which is sorted by the ends of paths, is what `r` is copied or
/// moved from. It is the first one whose path does not come before that of `r`, unless there is none
/// or the one before it shares a longer end of its path with `r`; then it is the one before.
pub open spec fn is_source_at(paths: Seq<Seq<char>>, list: Seq<usize>, r: usize, n: int) -> bool {
    let p = paths[r as int];
    &&& 0 <= n < list.len()
    &&& {
        ||| {
            &&& !ends_before(paths[list[n] as int], p)
            &&& forall|m: int| 0 <= m < n ==> ends_before(paths[#[trigger] list[m] as int], p)
            &&& n > 0 ==> forall|e: int| #[trigger]
                share_end(p, paths[list[n - 1] as int], e) ==> share_end(
                    p,
                    paths[list[n] as int],
                    e,
                )
        }
        ||| {
            &&& forall|m: int| 0 <= m <= n ==> ends_before(paths[#[trigger] list[m] as int], p)
            &&& n + 1 < list.len() ==> {
                &&& !ends_before(paths[list[n + 1] as int], p)
                &&& exists|e: int| #[trigger]
                    share_end(p, paths[list[n] as int], e) && !share_end(
                        p,
                        paths[list[n + 1] as int],
                        e,
                    )
            }
        }
    }
}

/// Whether the node `i` of `list` is what `r` is copied or moved from.
pub open spec fn is_source(paths: Seq<Seq<char>>, list: Seq<usize>, r: usize, i: usize) -> bool {
    exists|n: int| #[trigger] is_source_at(paths, list, r, n) && list[n] == i
}

/// There is just one source.
pub proof fn law_one_source(paths: Seq<Seq<char>>, list: Seq<usize>, r: usize, i: usize)
    requires
        list.len() > 0,
    ensures
        is_source(paths, list, r, i) <==> i == source_of(paths, list, r),
{
    let p = paths[r as int];
    let k = first_from(paths, list, 0, r);
    law_first_from(paths, list, 0, r);
    law_pick(paths, list, k, r);
    let longer = 0 < k < list.len() && exists|e: int| #[trigger]
        share_end(p, paths[list[k - 1] as int], e) && !share_end(p, paths[list[k] as int], e);
    let picked = if k > 0 && (k == list.len() || longer) {
        k - 1
    } else {
        k
    };
    assert(source_of(paths, list, r) == list[picked]);
    assert(is_source_at(paths, list, r, picked));
    assert forall|n: int| #[trigger] is_source_at(paths, list, r, n) implies n == picked by {
        if !ends_before(paths[list[n] as int], p) {
            assert(n == k);
            if n > 0 {
                assert(list[n - 1] == list[k - 1]);
            }
        } else {
            if k <= n {
                assert(ends_before(paths[list[k] as int], p));
            }
            if n + 1 < k {
                assert(ends_before(paths[list[n + 1] as int], p));
            }
        }
    }
}

/// Whether `event` tells that the `j`-th of `rs` was copied or moved from its source among `l`: it
/// was copied if the source had been accounted for, or if an earlier one of `rs` has the same source.
pub open spec fn is_told(
    nodes: Seq<NodeView>,
    no_prefix: bool,
    l: Seq<usize>,
    rs: Seq<usize>,
    j: int,
    event: EventView,
) -> bool {
    let p = paths_of(nodes);
    exists|i: usize| #[trigger]
        is_source(p, l, rs[j], i) && event == copy_move_line(
            nodes[i as int].done || exists|m: int|
                0 <= m < j && #[trigger] is_source(p, l, rs[m], i),
            no_prefix,
            nodes[i as int].path,
            nodes[rs[j] as int].path,
        )
}

/// The nodes of the right log among `ids` about which not everything has been said.
pub open spec fn untold(nodes: Seq<NodeView>, ids: Seq<usize>) -> Seq<usize> {
    ids.filter(|id: usize| !nodes[id as int].done)
}

/// Whether files with a hash are matched: it has not come with different sizes, it is not that of
/// empty files, and the left log lists it.
pub open spec fn may_be_matched(hash: Seq<u8>, object: ObjectView) -> bool {
    !object.blacklisted && hash != EMPTY_HASH@ && object.sides[0].len() > 0
}

/// Whether `block` is what is said about the files with one hash: one line for each file of the right
/// log about which not everything has been said, in the order of the ends of their paths.
pub open spec fn is_block(
    nodes: Seq<NodeView>,
    no_prefix: bool,
    hash: Seq<u8>,
    object: ObjectView,
    block: Seq<EventView>,
) -> bool {
    let p = paths_of(nodes);
    if may_be_matched(hash, object) {
        exists|l: Seq<usize>, rs: Seq<usize>| #[trigger]
            is_by_ends(p, object.sides[0], l) && #[trigger] is_by_ends(
                p,
                untold(nodes, object.sides[1]),
                rs,
            ) && block.len() == rs.len() && forall|j: int|
                0 <= j < rs.len() ==> is_told(nodes, no_prefix, l, rs, j, #[trigger] block[j])
    } else {
        block.len() == 0
    }
}

/// Whether the node `x` is one of the files with one hash that are told to be copied or moved, or
/// the source of one.
pub open spec fn is_party(nodes: Seq<NodeView>, hash: Seq<u8>, object: ObjectView, x: int) -> bool {
    let p = paths_of(nodes);
    may_be_matched(hash, object) && exists|l: Seq<usize>, r: usize, i: usize|
        is_by_ends(p, object.sides[0], l) && untold(nodes, object.sides[1]).contains(r)
            && #[trigger] is_source(p, l, r, i) && (x == r || x == i)
}

proof fn lemma_block(nodes: Seq<NodeView>, no_prefix: bool, hash: Seq<u8>, object: ObjectView)
    ensures
        is_block(nodes, no_prefix, hash, object, object_lines(nodes, no_prefix, hash, object)),
{
    let p = paths_of(nodes);
    assert(p =~= paths(nodes));
    if may_be_matched(hash, object) {
        let l = candidates(nodes, object);
        let rs = pending(nodes, object);
        let block = object_lines(nodes, no_prefix, hash, object);
        assert(untold(nodes, object.sides[1]) == not_done(nodes, object.sides[1]));
        lemma_by_ends(p, object.sides[0], l);
        lemma_by_ends(p, untold(nodes, object.sides[1]), rs);
        lemma_sorted(p, object.sides[0]);
        assert forall|j: int| 0 <= j < rs.len() implies is_told(
            nodes,
            no_prefix,
            l,
            rs,
            j,
            #[trigger] block[j],
        ) by {
            let i = source_at(nodes, l, rs, j);
            assert(forall|m: int| #[trigger]
                source_at(nodes, l, rs, m) == source_of(p, l, rs[m])) by {
                reveal(source_at);
            }
            law_one_source(p, l, rs[j], i);
            assert(is_copy(nodes, l, rs, j) <==> nodes[i as int].done || exists|m: int|
                0 <= m < j && #[trigger] is_source(p, l, rs[m], i)) by {
                if exists|m: int| 0 <= m < j && #[trigger] source_at(nodes, l, rs, m) == i {
                    let m = choose|m: int| 0 <= m < j && #[trigger] source_at(nodes, l, rs, m) == i;
                    law_one_source(p, l, rs[m], i);
                    assert(is_source(p, l, rs[m], i));
                }
                if exists|m: int| 0 <= m < j && #[trigger] is_source(p, l, rs[m], i) {
                    let m = choose|m: int| 0 <= m < j && #[trigger] is_source(p, l, rs[m], i);
                    law_one_source(p, l, rs[m], i);
                    assert(source_at(nodes, l, rs, m) == i);
                }
            }
            assert(block[j] == match_line(nodes, no_prefix, l, rs, j));
            assert(is_source(p, l, rs[j], i));
        }
        assert(is_by_ends(p, object.sides[0], l) && is_by_ends(
            p,
            untold(nodes, object.sides[1]),
            rs,
        ));
    }
}

proof fn lemma_party(nodes: Seq<NodeView>, hash: Seq<u8>, object: ObjectView, x: int)
    ensures
        is_party(nodes, hash, object, x) <==> is_object_match(nodes, hash, object, x),
{
    let p = paths_of(nodes);
    assert(p =~= paths(nodes));
    if may_be_matched(hash, object) {
        let l = candidates(nodes, object);
        let rs = pending(nodes, object);
        let new = untold(nodes, object.sides[1]);
        assert(new == not_done(nodes, object.sides[1]));
        lemma_by_ends(p, object.sides[0], l);
        lemma_sorted(p, object.sides[0]);
        crate::account::lemma_sorted_members(p, new);
        assert(forall|m: int| #[trigger] source_at(nodes, l, rs, m) == source_of(p, l, rs[m])) by {
            reveal(source_at);
        }
        if is_object_match(nodes, hash, object, x) {
            let j = choose|j: int| 0 <= j < rs.len() && #[trigger] is_match(nodes, l, rs, j, x);
            let (r, i) = (rs[j], source_at(nodes, l, rs, j));
            law_one_source(p, l, r, i);
            assert(rs.contains(r));
            assert(is_source(p, l, r, i));
        }
        if is_party(nodes, hash, object, x) {
            let (k, r, i) = choose|k: Seq<usize>, r: usize, i: usize|
                is_by_ends(p, object.sides[0], k) && new.contains(r) && #[trigger] is_source(
                    p,
                    k,
                    r,
                    i,
                ) && (x == r || x == i);
            lemma_by_ends(p, object.sides[0], k);
            law_one_source(p, l, r, i);
            assert(rs.contains(r));
            let j = choose|j: int| 0 <= j < rs.len() && rs[j] == r;
            assert(is_match(nodes, l, rs, j, x));
            assert(is_matched(nodes, l, rs, rs.len(), x));
        }
    }
}

proof fn lemma_reportable(nodes: Seq<NodeView>, hash: Seq<u8>, object: ObjectView)
    ensures
        is_object_reportable(nodes, hash, object) <==> is_allowed(nodes, hash, object),
{
    let p = paths_of(nodes);
    assert(p =~= paths(nodes));
    if may_be_matched(hash, object) {
        let l = candidates(nodes, object);
        let rs = pending(nodes, object);
        let new = untold(nodes, object.sides[1]);
        assert(new == not_done(nodes, object.sides[1]));
        lemma_by_ends(p, object.sides[0], l);
        lemma_sorted(p, object.sides[0]);
        crate::account::lemma_sorted_members(p, new);
        assert(forall|m: int| #[trigger] source_at(nodes, l, rs, m) == source_of(p, l, rs[m])) by {
            reveal(source_at);
        }
        if is_object_reportable(nodes, hash, object) {
            assert forall|k: Seq<usize>, r: usize, i: usize|
                is_by_ends(p, object.sides[0], k) && new.contains(r) && #[trigger] is_source(
                    p,
                    k,
                    r,
                    i,
                ) implies nodes[i as int].path != nodes[r as int].path by {
                lemma_by_ends(p, object.sides[0], k);
                law_one_source(p, l, r, i);
                assert(rs.contains(r));
                let j = choose|j: int| 0 <= j < rs.len() && rs[j] == r;
                assert(source_at(nodes, l, rs, j) == i);
            }
        }
        if is_allowed(nodes, hash, object) {
            assert forall|j: int| 0 <= j < rs.len() implies nodes[
                #[trigger] source_at(nodes, l, rs, j) as int].path != nodes[rs[j] as int].path by {
                let i = source_at(nodes, l, rs, j);
                law_one_source(p, l, rs[j], i);
                assert(rs.contains(rs[j]));
                assert(is_source(p, l, rs[j], i));
            }
        }
    }
}

/// Whether no file with one hash would be told to be copied or moved onto its own path.
pub open spec fn is_allowed(nodes: Seq<NodeView>, hash: Seq<u8>, object: ObjectView) -> bool {
    let p = paths_of(nodes);
    may_be_matched(hash, object) ==> forall|l: Seq<usize>, r: usize, i: usize|
        is_by_ends(p, object.sides[0], l) && untold(nodes, object.sides[1]).contains(r)
            && #[trigger] is_source(p, l, r, i) ==> nodes[i as int].path != nodes[r as int].path
}

/// The lines for the hashes are their blocks, one behind the other.
proof fn lemma_blocks(nodes: Seq<NodeView>, no_prefix: bool, hashes: HashesView, n: nat)
    ensures
        hash_lines(nodes, no_prefix, hashes, n) == Seq::new(
            n,
            |q: int|
                object_lines(nodes, no_prefix, hashes.order[q], hashes.map[hashes.order[q]]),
        ).flatten(),
    decreases n,
{
    let block = |q: int|
        object_lines(nodes, no_prefix, hashes.order[q], hashes.map[hashes.order[q]]);
    let all = Seq::new(n, block);
    if n > 0 {
        lemma_blocks(nodes, no_prefix, hashes, (n - 1) as nat);
        let before = Seq::new((n - 1) as nat, block);
        assert(all =~= before.push(block(n - 1)));
        before.lemma_flatten_push(block(n - 1));
    } else {
        assert(all =~= Seq::<Seq<EventView>>::empty());
        assert(all.flatten() =~= Seq::<EventView>::empty());
    }
}

/// What is told of copies and moves: hash by hash, in the order in which the logs name them, a block
/// of lines for the files with that hash. Behind them, everything has been said about these files
/// and their sources, and nothing else has changed. It fails just if a file would be told to be
/// copied or moved onto its own path.
pub proof fn law_blocks(state: State, no_prefix: bool, events: Seq<EventView>)
    requires
        state.wf(),
        forall|h: Seq<u8>| #[trigger]
            state.hashes.map.contains_key(h) ==> {
                let object = state.hashes.map[h];
                &&& object.sides[1].no_duplicates()
                &&& forall|id: usize|
                    object.sides[0].contains(id) ==> !#[trigger] object.sides[1].contains(id)
            },
    ensures
        ({
            let (nodes, hashes) = (state.nodes, state.hashes);
            let report = copies_and_moves(state, no_prefix, events);
            &&& report.error is None <==> forall|q: int|
                0 <= q < hashes.order.len() ==> is_allowed(
                    nodes,
                    #[trigger] hashes.order[q],
                    hashes.map[hashes.order[q]],
                )
            &&& events.is_prefix_of(report.events)
            &&& report.nodes.len() == nodes.len()
            &&& forall|x: int|
                0 <= x < nodes.len() ==> {
                    &&& (#[trigger] report.nodes[x]).path == nodes[x].path
                    &&& report.nodes[x].hash == nodes[x].hash
                }
            &&& report.error is None ==> {
                &&& forall|x: int|
                    0 <= x < nodes.len() ==> ((#[trigger] report.nodes[x]).done <==> nodes[x].done
                        || exists|q: int|
                        0 <= q < hashes.order.len() && is_party(
                            nodes,
                            #[trigger] hashes.order[q],
                            hashes.map[hashes.order[q]],
                            x,
                        ))
                &&& exists|blocks: Seq<Seq<EventView>>|
                    report.events == events + #[trigger] blocks.flatten() && blocks.len()
                        == hashes.order.len() && forall|q: int|
                        0 <= q < blocks.len() ==> is_block(
                            nodes,
                            no_prefix,
                            hashes.order[q],
                            hashes.map[hashes.order[q]],
                            #[trigger] blocks[q],
                        )
            }
        }),
{
    let (nodes, hashes) = (state.nodes, state.hashes);
    let n = hashes.order.len();
    let start = Progress::start(nodes, events);
    assert(all_apart(hashes)) by {
        assert forall|h: Seq<u8>| #[trigger] hashes.map.contains_key(h) implies is_apart(
            hashes.map[h],
        ) by {}
    }
    law_hashes_in_turn(start, no_prefix, hashes, n);
    let report = copies_and_moves(state, no_prefix, events);
    assert forall|q: int| 0 <= q < n implies is_allowed(
        nodes,
        #[trigger] hashes.order[q],
        hashes.map[hashes.order[q]],
    ) == is_object_reportable(nodes, hashes.order[q], hashes.map[hashes.order[q]]) by {
        lemma_reportable(nodes, hashes.order[q], hashes.map[hashes.order[q]]);
    }
    if report.error is None {
        assert forall|x: int| 0 <= x < nodes.len() implies ((
        #[trigger] report.nodes[x]).done <==> nodes[x].done || exists|q: int|
            0 <= q < n && is_party(
                nodes,
                #[trigger] hashes.order[q],
                hashes.map[hashes.order[q]],
                x,
            )) by {
            if is_hash_match(nodes, hashes, n, x) {
                let q = choose|q: int|
                    0 <= q < n && #[trigger] is_object_match(
                        nodes,
                        hashes.order[q],
                        hashes.map[hashes.order[q]],
                        x,
                    );
                lemma_party(nodes, hashes.order[q], hashes.map[hashes.order[q]], x);
            }
            if exists|q: int|
                0 <= q < n && is_party(
                    nodes,
                    #[trigger] hashes.order[q],
                    hashes.map[hashes.order[q]],
                    x,
                ) {
                let q = choose|q: int|
                    0 <= q < n && is_party(
                        nodes,
                        #[trigger] hashes.order[q],
                        hashes.map[hashes.order[q]],
                        x,
                    );
                lemma_party(nodes, hashes.order[q], hashes.map[hashes.order[q]], x);
                assert(is_object_match(nodes, hashes.order[q], hashes.map[hashes.order[q]], x));
            }
        }
        let blocks = Seq::new(
            n,
            |q: int|
                object_lines(nodes, no_prefix, hashes.order[q], hashes.map[hashes.order[q]]),
        );
        lemma_blocks(nodes, no_prefix, hashes, n);
        assert forall|q: int| 0 <= q < blocks.len() implies is_block(
            nodes,
            no_prefix,
            hashes.order[q],
            hashes.map[hashes.order[q]],
            #[trigger] blocks[q],
        ) by {
            lemma_block(nodes, no_prefix, hashes.order[q], hashes.map[hashes.order[q]]);
        }
        assert(report.events == events + blocks.flatten());
    }
}

/// What is told of the paths about which not everything has been said: those of the left log, in
/// order, as modified if the right log has them too, else as removed; then those of the right log
/// that are not told of yet, in order, as created.
pub proof fn law_rest(state: State, events: Seq<EventView>)
    requires
        state.wf(),
        state.sides.len() == 2,
    ensures
        ({
            let (nodes, left, right) = (state.nodes, state.sides[0], state.sides[1]);
            let report = remaining(state, events);
            let open_l = |p: Seq<char>| !nodes[left.map[p] as int].done;
            let open_r = |p: Seq<char>|
                !nodes[right.map[p] as int].done && !(left.map.contains_key(p) && !nodes[
                left.map[p] as int].done);
            &&& report.error is None
            &&& report.events == events + left.order.filter(open_l).map_values(
                |p: Seq<char>|
                    if right.map.contains_key(p) {
                        modify_line(p)
                    } else {
                        single_line(nodes[left.map[p] as int], true)
                    },
            ) + right.order.filter(open_r).map_values(
                |p: Seq<char>| single_line(nodes[right.map[p] as int], false),
            )
            &&& report.nodes.len() == nodes.len()
            &&& forall|i: int|
                0 <= i < nodes.len() ==> {
                    &&& (#[trigger] report.nodes[i]).path == nodes[i].path
                    &&& report.nodes[i].hash == nodes[i].hash
                    &&& nodes[i].done ==> report.nodes[i].done
                    &&& report.nodes[i].done && !nodes[i].done ==> {
                        ||| left.map.contains_key(nodes[i].path) && i == left.map[nodes[i].path]
                        ||| right.map.contains_key(nodes[i].path) && i == right.map[nodes[i].path]
                    }
                }
            &&& forall|p: Seq<char>| #[trigger]
                left.map.contains_key(p) ==> report.nodes[left.map[p] as int].done
            &&& forall|p: Seq<char>| #[trigger]
                right.map.contains_key(p) ==> report.nodes[right.map[p] as int].done
        }),
{
    let (nodes, left, right) = (state.nodes, state.sides[0], state.sides[1]);
    law_remaining(state, events);
    lemma_left_filter(nodes, left, right, left.order.len());
    lemma_right_filter(nodes, left, right, right.order.len());
    assert(left.order.take(left.order.len() as int) =~= left.order);
    assert(right.order.take(right.order.len() as int) =~= right.order);
}

proof fn lemma_left_filter(nodes: Seq<NodeView>, left: PathsView, right: PathsView, n: nat)
    requires
        n <= left.order.len(),
    ensures
        left_lines(nodes, left, right, n) == left.order.take(n as int).filter(
            |p: Seq<char>| !nodes[left.map[p] as int].done,
        ).map_values(
            |p: Seq<char>|
                if right.map.contains_key(p) {
                    modify_line(p)
                } else {
                    single_line(nodes[left.map[p] as int], true)
                },
        ),
    decreases n,
{
    reveal(Seq::filter);
    let open = |p: Seq<char>| !nodes[left.map[p] as int].done;
    let line = |p: Seq<char>|
        if right.map.contains_key(p) {
            modify_line(p)
        } else {
            single_line(nodes[left.map[p] as int], true)
        };
    if n > 0 {
        lemma_left_filter(nodes, left, right, (n - 1) as nat);
        let before = left.order.take(n - 1);
        let now = left.order.take(n as int);
        assert(now =~= before.push(left.order[n - 1]));
        before.lemma_filter_push(left.order[n - 1], open);
        assert(left_lines(nodes, left, right, n) =~= now.filter(open).map_values(line));
    } else {
        assert(left.order.take(0).filter(open).map_values(line) =~= Seq::empty());
    }
}

proof fn lemma_right_filter(nodes: Seq<NodeView>, left: PathsView, right: PathsView, n: nat)
    requires
        n <= right.order.len(),
    ensures
        right_lines(nodes, left, right, n) == right.order.take(n as int).filter(
            |p: Seq<char>|
                !nodes[right.map[p] as int].done && !(left.map.contains_key(p) && !nodes[
                left.map[p] as int].done),
        ).map_values(|p: Seq<char>| single_line(nodes[right.map[p] as int], false)),
    decreases n,
{
    reveal(Seq::filter);
    let open = |p: Seq<char>|
        !nodes[right.map[p] as int].done && !(left.map.contains_key(p) && !nodes[left.map[
        p] as int].done);
    let line = |p: Seq<char>| single_line(nodes[right.map[p] as int], false);
    if n > 0 {
        lemma_right_filter(nodes, left, right, (n - 1) as nat);
        let before = right.order.take(n - 1);
        let now = right.order.take(n as int);
        assert(now =~= before.push(right.order[n - 1]));
        before.lemma_filter_push(right.order[n - 1], open);
        assert(open(right.order[n - 1]) == !is_accounted(nodes, left, right, right.order[n - 1]));
        assert(right_lines(nodes, left, right, n) =~= now.filter(open).map_values(line));
    } else {
        assert(right.order.take(0).filter(open).map_values(line) =~= Seq::empty());
    }
}

/// A comparison reads the left log, then the right one, then tells of copies and moves, then of the
/// rest, and at the end counts the ambiguous files. Behind each of the first four it tells how long
/// it took, if that is asked for. It stops where a line cannot be read, or where a copy or move is
/// refused.
pub proof fn law_phases(
    state: State,
    events: Seq<EventView>,
    request: Request,
    left: Seq<Seq<char>>,
    right: Seq<Seq<char>>,
)
    ensures
        ({
            let end = diff_outcome(state, events, request, left, right);
            let log_l = read_log(state, 0, events, request.exclude, left);
            let said_l = log_l.events + timing_events(request.timings, "parse_log"@);
            let log_r = read_log(with_log(log_l), 0, said_l, request.exclude, right);
            let said_r = log_r.events + timing_events(request.timings, "parse_log"@);
            let both = with_log(log_r);
            let moved = copies_and_moves(both, request.no_prefix, said_r);
            let then = State { nodes: moved.nodes, ..both };
            let rest = remaining(
                then,
                moved.events + timing_events(request.timings, "diff_cpmv"@),
            );
            if log_l.error is Some {
                &&& end.error == Some(DiffError::Line(log_l.error->0))
                &&& end.events == log_l.events
                &&& end.state == log_l.state
            } else if log_r.error is Some {
                &&& end.error == Some(DiffError::Line(log_r.error->0))
                &&& end.events == log_r.events
                &&& end.state == log_r.state
            } else if moved.error is Some {
                &&& end.error == Some(DiffError::Report(moved.error->0))
                &&& end.events == moved.events
                &&& end.state == then
            } else {
                &&& end.error is None
                &&& end.events == rest.events + timing_events(
                    request.timings,
                    "diff_remaining"@,
                ) + ambiguity_events(log_l.ambiguous, log_r.ambiguous)
                &&& end.state == (State { nodes: rest.nodes, ..both })
            }
        }),
{
}

} // verus!
