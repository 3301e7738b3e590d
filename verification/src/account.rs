//! What a report says, in terms of what is known when it starts.
use vstd::prelude::*;

use crate::event::EventView;
use crate::hash::EMPTY_HASH;
use crate::maps::{HashesView, ObjectView, PathsView};
use crate::model::{
    files_wf, hashes_wf, ids_have_hash, lemma_extends_wf, lemma_report_nodes, lemma_source_of,
    not_done, remaining, source_of, Progress, State,
};
use crate::node::{paths, NodeView};
use crate::report::{copy_move_line, modify_line, op_in_bounds, report_error, single_line, FSOp};
use crate::sort::{inserted, lemma_sorted, sorted};

verus! {

/// Whether `after` has just the nodes of `before`, with their paths and hashes, and nothing that
/// was said is taken back.
pub open spec fn only_marks(before: Seq<NodeView>, after: Seq<NodeView>) -> bool {
    &&& before.len() == after.len()
    &&& forall|i: int|
        0 <= i < before.len() ==> {
            &&& (#[trigger] after[i]).path == before[i].path
            &&& after[i].hash == before[i].hash
            &&& before[i].done ==> after[i].done
        }
}

/// Once anything has been said about a node, nothing more is said about it, whatever is said in
/// between.
pub proof fn law_said_once(
    before: Progress,
    id: usize,
    no_prefix: bool,
    op: FSOp,
    later: Progress,
    later_op: FSOp,
)
    requires
        id < before.nodes.len(),
        op_in_bounds(op, before.nodes.len()),
        before.report(id, no_prefix, op).error is None,
        only_marks(before.report(id, no_prefix, op).nodes, later.nodes),
    ensures
        later.report(id, no_prefix, later_op) == later,
{
    lemma_report_nodes(before.nodes, id, op);
    assert(later.events + Seq::<EventView>::empty() =~= later.events);
}

/// The lines for the first `n` paths of the left log: those about which not everything has been
/// said are modified if the right log has them too, else removed.
pub open spec fn left_lines(
    nodes: Seq<NodeView>,
    left: PathsView,
    right: PathsView,
    n: nat,
) -> Seq<EventView>
    decreases n,
{
    if n == 0 {
        seq![]
    } else {
        let path = left.order[n - 1];
        let node = nodes[left.map[path] as int];
        left_lines(nodes, left, right, (n - 1) as nat) + if node.done {
            seq![]
        } else if right.map.contains_key(path) {
            seq![modify_line(path)]
        } else {
            seq![single_line(node, true)]
        }
    }
}

/// Whether the file at `path` of the right log has been accounted for when the left log has been.
pub open spec fn is_accounted(
    nodes: Seq<NodeView>,
    left: PathsView,
    right: PathsView,
    path: Seq<char>,
) -> bool {
    ||| nodes[right.map[path] as int].done
    ||| left.map.contains_key(path) && !nodes[left.map[path] as int].done
}

/// The lines for the first `n` paths of the right log: those that are not accounted for are
/// created.
pub open spec fn right_lines(
    nodes: Seq<NodeView>,
    left: PathsView,
    right: PathsView,
    n: nat,
) -> Seq<EventView>
    decreases n,
{
    if n == 0 {
        seq![]
    } else {
        let path = right.order[n - 1];
        right_lines(nodes, left, right, (n - 1) as nat) + if is_accounted(nodes, left, right, path) {
            seq![]
        } else {
            seq![single_line(nodes[right.map[path] as int], false)]
        }
    }
}

/// What is said about the first `n` paths of the left log, and which nodes are marked.
proof fn lemma_finish_left(report: Progress, left: PathsView, right: PathsView, n: nat)
    requires
        report.error is None,
        files_wf(report.nodes, left),
        files_wf(report.nodes, right),
        n <= left.order.len(),
    ensures
        ({
            let then = report.finish_left(left, right, n);
            &&& then.error is None
            &&& only_marks(report.nodes, then.nodes)
            &&& then.events == report.events + left_lines(report.nodes, left, right, n)
            &&& forall|k: int|
                0 <= k < n ==> {
                    let path = #[trigger] left.order[k];
                    &&& then.nodes[left.map[path] as int].done
                    &&& right.map.contains_key(path) && !report.nodes[left.map[path] as int].done
                        ==> then.nodes[right.map[path] as int].done
                }
            &&& forall|i: int|
                0 <= i < report.nodes.len() && (#[trigger] then.nodes[i]).done
                    && !report.nodes[i].done ==> {
                    let path = report.nodes[i].path;
                    &&& left.order.take(n as int).contains(path)
                    &&& !report.nodes[left.map[path] as int].done
                    &&& i == left.map[path] || right.map.contains_key(path) && i == right.map[path]
                }
        }),
    decreases n,
{
    if n == 0 {
        assert(report.events + left_lines(report.nodes, left, right, 0) =~= report.events);
    } else {
        lemma_finish_left(report, left, right, (n - 1) as nat);
        let before = report.finish_left(left, right, (n - 1) as nat);
        let then = report.finish_left(left, right, n);
        let path = left.order[n - 1];
        assert(left.order.contains(path));
        assert(left.map.contains_key(path));
        let id = left.map[path];
        let op = if right.map.contains_key(path) {
            FSOp::Modify { lhs: right.map[path] }
        } else {
            FSOp::Delete
        };
        let earlier = left.order.take(n - 1);
        let now = left.order.take(n as int);
        assert(!earlier.contains(path)) by {
            if earlier.contains(path) {
                let k = choose|k: int| 0 <= k < n - 1 && earlier[k] == path;
                assert(left.order[k] == left.order[n - 1]);
            }
        }
        assert(before.nodes[id as int].done == report.nodes[id as int].done);
        lemma_report_nodes(before.nodes, id, op);
        assert(then == before.report(id, false, op));
        assert(single_line(before.nodes[id as int], true) == single_line(
            report.nodes[id as int],
            true,
        ));
        assert(then.events =~= report.events + left_lines(report.nodes, left, right, n));
        assert forall|p: Seq<char>| earlier.contains(p) implies now.contains(p) by {
            let k = choose|k: int| 0 <= k < n - 1 && earlier[k] == p;
            assert(now[k] == p);
        }
        assert(now[n - 1] == path);
        assert forall|i: int|
            0 <= i < report.nodes.len() && (#[trigger] then.nodes[i]).done
                && !report.nodes[i].done implies {
            let path = report.nodes[i].path;
            &&& left.order.take(n as int).contains(path)
            &&& !report.nodes[left.map[path] as int].done
            &&& i == left.map[path] || right.map.contains_key(path) && i == right.map[path]
        } by {
            if before.nodes[i].done {
                assert(earlier.contains(report.nodes[i].path));
            } else {
                assert(i == id || right.map.contains_key(path) && i == right.map[path]);
                assert(report.nodes[i].path == path);
            }
        }
        assert forall|k: int| 0 <= k < n implies {
            let path = #[trigger] left.order[k];
            &&& then.nodes[left.map[path] as int].done
            &&& right.map.contains_key(path) && !report.nodes[left.map[path] as int].done
                ==> then.nodes[right.map[path] as int].done
        } by {
            let p = left.order[k];
            assert(left.order.contains(p));
            assert(left.map.contains_key(p));
            if k < n - 1 {
                assert(before.nodes[left.map[p] as int].done);
                assert(then.nodes[left.map[p] as int].done);
            }
        }
    }
}

/// What is said about the first `n` paths of the right log, and which nodes are marked.
proof fn lemma_finish_right(report: Progress, right: PathsView, n: nat)
    requires
        report.error is None,
        files_wf(report.nodes, right),
        n <= right.order.len(),
    ensures
        ({
            let then = report.finish_right(right, n);
            &&& then.error is None
            &&& only_marks(report.nodes, then.nodes)
            &&& then.events == report.events + right_lines(
                report.nodes,
                PathsView::empty(),
                right,
                n,
            )
            &&& forall|k: int|
                0 <= k < n ==> then.nodes[right.map[#[trigger] right.order[k]] as int].done
            &&& forall|i: int|
                0 <= i < report.nodes.len() && (#[trigger] then.nodes[i]).done
                    && !report.nodes[i].done ==> {
                    &&& right.order.take(n as int).contains(report.nodes[i].path)
                    &&& i == right.map[report.nodes[i].path]
                }
        }),
    decreases n,
{
    let none = PathsView::empty();
    if n == 0 {
        assert(report.events + right_lines(report.nodes, none, right, 0) =~= report.events);
    } else {
        lemma_finish_right(report, right, (n - 1) as nat);
        let before = report.finish_right(right, (n - 1) as nat);
        let then = report.finish_right(right, n);
        let path = right.order[n - 1];
        assert(right.order.contains(path));
        assert(right.map.contains_key(path));
        let id = right.map[path];
        let earlier = right.order.take(n - 1);
        let now = right.order.take(n as int);
        assert(!earlier.contains(path)) by {
            if earlier.contains(path) {
                let k = choose|k: int| 0 <= k < n - 1 && earlier[k] == path;
                assert(right.order[k] == right.order[n - 1]);
            }
        }
        assert(before.nodes[id as int].done == report.nodes[id as int].done);
        lemma_report_nodes(before.nodes, id, FSOp::Create);
        assert(single_line(before.nodes[id as int], false) == single_line(
            report.nodes[id as int],
            false,
        ));
        assert(then.events =~= report.events + right_lines(report.nodes, none, right, n));
        assert forall|p: Seq<char>| earlier.contains(p) implies now.contains(p) by {
            let k = choose|k: int| 0 <= k < n - 1 && earlier[k] == p;
            assert(now[k] == p);
        }
        assert(now[n - 1] == path);
        assert forall|i: int|
            0 <= i < report.nodes.len() && (#[trigger] then.nodes[i]).done
                && !report.nodes[i].done implies {
            &&& now.contains(report.nodes[i].path)
            &&& i == right.map[report.nodes[i].path]
        } by {
            if before.nodes[i].done {
                assert(earlier.contains(report.nodes[i].path));
            }
        }
        assert forall|k: int| 0 <= k < n implies then.nodes[right.map[
            #[trigger] right.order[k]] as int].done by {
            let p = right.order[k];
            assert(right.order.contains(p));
            assert(right.map.contains_key(p));
            if k < n - 1 {
                assert(before.nodes[right.map[p] as int].done);
            }
        }
    }
}

/// The lines for the right log are those for what the left log has left over.
proof fn lemma_right_lines(
    before: Seq<NodeView>,
    after: Seq<NodeView>,
    left: PathsView,
    right: PathsView,
    n: nat,
)
    requires
        files_wf(before, right),
        n <= right.order.len(),
        only_marks(before, after),
        forall|p: Seq<char>| #[trigger]
            right.map.contains_key(p) ==> after[right.map[p] as int].done == is_accounted(
                before,
                left,
                right,
                p,
            ),
    ensures
        right_lines(after, PathsView::empty(), right, n) == right_lines(before, left, right, n),
    decreases n,
{
    if n > 0 {
        lemma_right_lines(before, after, left, right, (n - 1) as nat);
        let path = right.order[n - 1];
        assert(right.order.contains(path));
        assert(right.map.contains_key(path));
        assert(single_line(before[right.map[path] as int], false) == single_line(
            after[right.map[path] as int],
            false,
        ));
    }
}

/// Behind the copies and moves, the report tells for each path of the left log about which not
/// everything has been said that it was modified, or removed if the right log lacks it, and for
/// each other path of the right log that it was created; behind it, everything has been said about
/// each path of both logs.
pub proof fn law_remaining(state: State, events: Seq<EventView>)
    requires
        state.wf(),
        state.sides.len() == 2,
    ensures
        ({
            let (nodes, left, right) = (state.nodes, state.sides[0], state.sides[1]);
            let report = remaining(state, events);
            &&& report.error is None
            &&& report.events == events + left_lines(nodes, left, right, left.order.len())
                + right_lines(nodes, left, right, right.order.len())
            &&& only_marks(nodes, report.nodes)
            &&& forall|i: int|
                0 <= i < nodes.len() && (#[trigger] report.nodes[i]).done && !nodes[i].done ==> {
                    ||| left.map.contains_key(nodes[i].path) && i == left.map[nodes[i].path]
                    ||| right.map.contains_key(nodes[i].path) && i == right.map[nodes[i].path]
                }
            &&& forall|p: Seq<char>| #[trigger]
                left.map.contains_key(p) ==> report.nodes[left.map[p] as int].done
            &&& forall|p: Seq<char>| #[trigger]
                right.map.contains_key(p) ==> report.nodes[right.map[p] as int].done
        }),
{
    let (nodes, left, right) = (state.nodes, state.sides[0], state.sides[1]);
    let start = Progress::start(nodes, events);
    assert(files_wf(nodes, left));
    assert(files_wf(nodes, right));
    lemma_finish_left(start, left, right, left.order.len());
    let middle = start.finish_left(left, right, left.order.len());
    lemma_extends_wf(nodes, middle.nodes);
    lemma_finish_right(middle, right, right.order.len());
    let report = remaining(state, events);
    assert forall|i: int|
        0 <= i < nodes.len() && (#[trigger] report.nodes[i]).done && !nodes[i].done implies {
        ||| left.map.contains_key(nodes[i].path) && i == left.map[nodes[i].path]
        ||| right.map.contains_key(nodes[i].path) && i == right.map[nodes[i].path]
    } by {
        let path = nodes[i].path;
        if middle.nodes[i].done {
            assert(left.order.take(left.order.len() as int) =~= left.order);
            assert(left.order.contains(path));
        } else {
            assert(right.order.take(right.order.len() as int) =~= right.order);
            assert(right.order.contains(path));
        }
    }
    assert forall|p: Seq<char>| #[trigger] right.map.contains_key(p) implies middle.nodes[right.map[
        p] as int].done == is_accounted(nodes, left, right, p) by {
        let i = right.map[p] as int;
        assert(nodes[i].path == p);
        if middle.nodes[i].done && !nodes[i].done {
            assert(left.order.take(left.order.len() as int) =~= left.order);
            assert(left.order.contains(p));
        }
        if left.map.contains_key(p) && !nodes[left.map[p] as int].done {
            assert(left.order.contains(p));
            let k = choose|k: int| 0 <= k < left.order.len() && left.order[k] == p;
            assert(middle.nodes[right.map[left.order[k]] as int].done);
        }
    }
    lemma_right_lines(nodes, middle.nodes, left, right, right.order.len());
    assert forall|p: Seq<char>| #[trigger]
        left.map.contains_key(p) implies report.nodes[left.map[p] as int].done by {
        assert(left.order.contains(p));
        let k = choose|k: int| 0 <= k < left.order.len() && left.order[k] == p;
        assert(middle.nodes[left.map[left.order[k]] as int].done);
    }
    assert forall|p: Seq<char>| #[trigger]
        right.map.contains_key(p) implies report.nodes[right.map[p] as int].done by {
        assert(right.order.contains(p));
        let k = choose|k: int| 0 <= k < right.order.len() && right.order[k] == p;
        assert(report.nodes[right.map[right.order[k]] as int].done);
    }
}

/// Sorting moves nodes around, and neither adds nor drops any.
pub proof fn lemma_sorted_permutes(paths: Seq<Seq<char>>, s: Seq<usize>)
    ensures
        sorted(paths, s).to_multiset() == s.to_multiset(),
    decreases s.len(),
{
    broadcast use vstd::seq_lib::group_to_multiset_ensures;

    if s.len() > 0 {
        lemma_sorted_permutes(paths, s.drop_last());
        lemma_inserted_adds(paths, sorted(paths, s.drop_last()), s.last());
        assert(s.drop_last().push(s.last()) =~= s);
    }
}

proof fn lemma_inserted_adds(paths: Seq<Seq<char>>, s: Seq<usize>, id: usize)
    ensures
        inserted(paths, s, id).to_multiset() == s.to_multiset().insert(id),
    decreases s.len(),
{
    broadcast use vstd::seq_lib::group_to_multiset_ensures;

    if s.len() > 0 {
        lemma_inserted_adds(paths, s.drop_last(), id);
        assert(s.drop_last().push(s.last()) =~= s);
        let a = inserted(paths, s.drop_last(), id).push(s.last());
        assert(a.to_multiset() =~= s.to_multiset().insert(id));
    }
}

/// A sorted list holds just the nodes of the list, each as often.
pub proof fn lemma_sorted_members(paths: Seq<Seq<char>>, s: Seq<usize>)
    ensures
        forall|id: usize| #[trigger] sorted(paths, s).contains(id) <==> s.contains(id),
        s.no_duplicates() ==> sorted(paths, s).no_duplicates(),
        sorted(paths, s).len() == s.len(),
{
    lemma_sorted_permutes(paths, s);
    lemma_sorted(paths, s);
    s.to_multiset_ensures();
    sorted(paths, s).to_multiset_ensures();
    assert forall|id: usize| #[trigger] sorted(paths, s).contains(id) <==> s.contains(id) by {
        assert(sorted(paths, s).to_multiset().count(id) == s.to_multiset().count(id));
    }
    if s.no_duplicates() {
        s.lemma_multiset_has_no_duplicates();
        sorted(paths, s).lemma_multiset_has_no_duplicates_conv();
    }
}


/// The source of the `i`-th of `rs`, of the candidates `l`.
#[verifier::opaque]
pub open spec fn source_at(nodes: Seq<NodeView>, l: Seq<usize>, rs: Seq<usize>, i: int) -> usize {
    source_of(paths(nodes), l, rs[i])
}

/// Whether the `i`-th of `rs` is told to be copied, not moved: its source has been accounted for,
/// or an earlier one of `rs` has the same source.
pub open spec fn is_copy(nodes: Seq<NodeView>, l: Seq<usize>, rs: Seq<usize>, i: int) -> bool {
    ||| nodes[source_at(nodes, l, rs, i) as int].done
    ||| exists|j: int|
        0 <= j < i && #[trigger] source_at(nodes, l, rs, j) == source_at(nodes, l, rs, i)
}

/// Whether the node `i` is the `j`-th of `rs` or its source.
pub open spec fn is_match(
    nodes: Seq<NodeView>,
    l: Seq<usize>,
    rs: Seq<usize>,
    j: int,
    i: int,
) -> bool {
    i == rs[j] || i == source_at(nodes, l, rs, j)
}

/// Whether the node `i` is one of the first `n` of `rs` or the source of one.
pub open spec fn is_matched(
    nodes: Seq<NodeView>,
    l: Seq<usize>,
    rs: Seq<usize>,
    n: nat,
    i: int,
) -> bool {
    exists|j: int| 0 <= j < n && #[trigger] is_match(nodes, l, rs, j, i)
}

/// The line for the `i`-th of `rs`.
pub open spec fn match_line(
    nodes: Seq<NodeView>,
    no_prefix: bool,
    l: Seq<usize>,
    rs: Seq<usize>,
    i: int,
) -> EventView {
    copy_move_line(
        is_copy(nodes, l, rs, i),
        no_prefix,
        nodes[source_at(nodes, l, rs, i) as int].path,
        nodes[rs[i] as int].path,
    )
}

/// The lines for the first `n` of `rs`.
pub open spec fn match_lines(
    nodes: Seq<NodeView>,
    no_prefix: bool,
    l: Seq<usize>,
    rs: Seq<usize>,
    n: nat,
) -> Seq<EventView> {
    Seq::new(n, |i: int| match_line(nodes, no_prefix, l, rs, i))
}

/// Whether `l` and `rs` can be matched: they are different nodes, and not everything has been said
/// about those of `rs`.
pub open spec fn are_matched(nodes: Seq<NodeView>, l: Seq<usize>, rs: Seq<usize>) -> bool {
    &&& l.len() > 0
    &&& rs.no_duplicates()
    &&& forall|i: int| 0 <= i < l.len() ==> (#[trigger] l[i]) < nodes.len()
    &&& forall|i: int|
        0 <= i < rs.len() ==> {
            &&& (#[trigger] rs[i]) < nodes.len()
            &&& !nodes[rs[i] as int].done
            &&& !l.contains(rs[i])
        }
}

/// Whether the node `i` is in the list.
pub open spec fn has_node(ids: Seq<usize>, i: int) -> bool {
    exists|k: int| 0 <= k < ids.len() && i == #[trigger] ids[k]
}

/// Nodes that are neither candidates nor matched stay as they are.
pub open spec fn others_stay(
    before: Seq<NodeView>,
    after: Seq<NodeView>,
    l: Seq<usize>,
    rs: Seq<usize>,
) -> bool {
    forall|i: int|
        0 <= i < before.len() && !has_node(l, i) && !has_node(rs, i) ==> (#[trigger] after[i])
            == before[i]
}

/// The first of the files with one source is told to be moved, unless the source has been
/// accounted for, and the others are told to be copied; each file is told of in turn, as long as
/// its path differs from that of its source.
pub proof fn law_copies_and_moves(
    report: Progress,
    no_prefix: bool,
    l: Seq<usize>,
    rs: Seq<usize>,
    n: nat,
)
    requires
        report.error is None,
        are_matched(report.nodes, l, rs),
        n <= rs.len(),
    ensures
        ({
            let nodes = report.nodes;
            let then = report.match_all(no_prefix, l, rs, n);
            &&& only_marks(nodes, then.nodes)
            &&& others_stay(nodes, then.nodes, l, rs)
            &&& report.events.is_prefix_of(then.events)
            &&& then.error is None <==> forall|i: int|
                0 <= i < n ==> nodes[#[trigger] source_at(nodes, l, rs, i) as int].path != nodes[rs[i] as int].path
            &&& then.error is None ==> {
                &&& then.events == report.events + match_lines(nodes, no_prefix, l, rs, n)
                &&& forall|i: int|
                    0 <= i < nodes.len() ==> ((#[trigger] then.nodes[i]).done <==> nodes[i].done
                        || is_matched(nodes, l, rs, n, i))
            }
        }),
    decreases n,
{
    let nodes = report.nodes;
    if n == 0 {
        assert(report.events + match_lines(nodes, no_prefix, l, rs, 0) =~= report.events);
    } else {
        law_copies_and_moves(report, no_prefix, l, rs, (n - 1) as nat);
        let before = report.match_all(no_prefix, l, rs, (n - 1) as nat);
        let then = report.match_all(no_prefix, l, rs, n);
        let r = rs[n - 1];
        let src = source_at(nodes, l, rs, n - 1);
        lemma_source_at(nodes, l, rs, n - 1);
        assert(has_node(rs, r as int));
        let k = choose|k: int| 0 <= k < l.len() && l[k] == src;
        assert(l[k] < nodes.len());
        assert(has_node(l, src as int));
        let op = FSOp::CopyMove { src };
        assert(then == before.report(r, no_prefix, op)) by {
            reveal(source_at);
        }
        if before.error is None {
            assert(!before.nodes[r as int].done) by {
                if is_matched(nodes, l, rs, (n - 1) as nat, r as int) {
                    let j = choose|j: int|
                        0 <= j < n - 1 && #[trigger] is_match(nodes, l, rs, j, r as int);
                    lemma_source_at(nodes, l, rs, j);
                }
            }
            assert(before.nodes[src as int].done <==> is_copy(nodes, l, rs, n - 1)) by {
                if is_matched(nodes, l, rs, (n - 1) as nat, src as int) {
                    let j = choose|j: int|
                        0 <= j < n - 1 && #[trigger] is_match(nodes, l, rs, j, src as int);
                    assert(l.contains(src) && !l.contains(rs[j]));
                }
                if is_copy(nodes, l, rs, n - 1) && !nodes[src as int].done {
                    let j = choose|j: int|
                        0 <= j < n - 1 && #[trigger] source_at(nodes, l, rs, j) == src;
                    assert(is_match(nodes, l, rs, j, src as int));
                }
            }
            lemma_report_nodes(before.nodes, r, op);
            assert((nodes[src as int].path != nodes[r as int].path)
                <==> report_error(before.nodes, r, op) is None);
            if then.error is None {
                assert(then.events =~= report.events + match_lines(nodes, no_prefix, l, rs, n));
                assert forall|i: int| 0 <= i < nodes.len() implies ((
                #[trigger] then.nodes[i]).done <==> nodes[i].done || is_matched(
                    nodes,
                    l,
                    rs,
                    n,
                    i,
                )) by {
                    lemma_is_matched(nodes, l, rs, n, i);
                }
            }
        }
    }
}

/// The source of a node is one of the candidates.
pub proof fn lemma_source_at(nodes: Seq<NodeView>, l: Seq<usize>, rs: Seq<usize>, i: int)
    requires
        l.len() > 0,
    ensures
        l.contains(source_at(nodes, l, rs, i)),
{
    reveal(source_at);
    lemma_source_of(paths(nodes), l, rs[i]);
}

proof fn lemma_is_matched(
    nodes: Seq<NodeView>,
    l: Seq<usize>,
    rs: Seq<usize>,
    n: nat,
    i: int,
)
    requires
        n > 0,
    ensures
        is_matched(nodes, l, rs, n, i) <==> {
            ||| is_matched(nodes, l, rs, (n - 1) as nat, i)
            ||| i == rs[n - 1]
            ||| i == source_at(nodes, l, rs, n - 1)
        },
{
    if i == rs[n - 1] || i == source_at(nodes, l, rs, n - 1) {
        assert(is_match(nodes, l, rs, n - 1, i));
    }
    if is_matched(nodes, l, rs, (n - 1) as nat, i) {
        let j = choose|j: int| 0 <= j < n - 1 && #[trigger] is_match(nodes, l, rs, j, i);
        assert(is_match(nodes, l, rs, j, i));
    }
}


/// The nodes that files with one hash are taken to be copied or moved from.
pub open spec fn candidates(nodes: Seq<NodeView>, object: ObjectView) -> Seq<usize> {
    sorted(paths(nodes), object.sides[0])
}

/// The nodes of the right log with one hash about which not everything has been said.
pub open spec fn pending(nodes: Seq<NodeView>, object: ObjectView) -> Seq<usize> {
    sorted(paths(nodes), not_done(nodes, object.sides[1]))
}

/// Whether files with the given hash are matched: the hash is not marked as one that belongs to
/// files of different sizes, they are not empty, and the left log has some.
pub open spec fn is_matchable(hash: Seq<u8>, object: ObjectView) -> bool {
    !object.blacklisted && hash != EMPTY_HASH@ && object.sides[0].len() > 0
}

/// The lines for the files with one hash.
pub open spec fn object_lines(
    nodes: Seq<NodeView>,
    no_prefix: bool,
    hash: Seq<u8>,
    object: ObjectView,
) -> Seq<EventView> {
    if is_matchable(hash, object) {
        let rs = pending(nodes, object);
        match_lines(nodes, no_prefix, candidates(nodes, object), rs, rs.len())
    } else {
        seq![]
    }
}

/// Whether all files with one hash can be told of.
pub open spec fn is_object_reportable(
    nodes: Seq<NodeView>,
    hash: Seq<u8>,
    object: ObjectView,
) -> bool {
    let l = candidates(nodes, object);
    let rs = pending(nodes, object);
    is_matchable(hash, object) ==> forall|i: int|
        0 <= i < rs.len() ==> nodes[#[trigger] source_at(nodes, l, rs, i) as int].path != nodes[rs[i] as int].path
}

/// Whether the node `i` is one of the files with the given hash that are told to be copied or moved,
/// or the source of one.
pub open spec fn is_object_match(
    nodes: Seq<NodeView>,
    hash: Seq<u8>,
    object: ObjectView,
    i: int,
) -> bool {
    let rs = pending(nodes, object);
    is_matchable(hash, object) && is_matched(nodes, candidates(nodes, object), rs, rs.len(), i)
}

/// Whether the entries of the two logs with one hash are different nodes, each named once.
pub open spec fn is_apart(object: ObjectView) -> bool {
    &&& object.sides[1].no_duplicates()
    &&& forall|id: usize| object.sides[0].contains(id) ==> !#[trigger] object.sides[1].contains(id)
}

/// Nodes whose hash is not the given one stay as they are.
pub open spec fn other_hashes_stay(
    before: Seq<NodeView>,
    after: Seq<NodeView>,
    hash: Seq<u8>,
) -> bool {
    forall|i: int|
        0 <= i < before.len() && before[i].hash != Some(hash) ==> (#[trigger] after[i])
            == before[i]
}

/// The nodes about which not everything has been said are those of the list that are not done.
pub proof fn lemma_not_done(nodes: Seq<NodeView>, ids: Seq<usize>)
    ensures
        forall|id: usize| #[trigger]
            not_done(nodes, ids).contains(id) <==> ids.contains(id) && !nodes[id as int].done,
        ids.no_duplicates() ==> not_done(nodes, ids).no_duplicates(),
    decreases ids.len(),
{
    reveal(Seq::filter);
    if ids.len() > 0 {
        let before = ids.drop_last();
        let last = ids.last();
        lemma_not_done(nodes, before);
        let then = not_done(nodes, ids);
        let earlier = not_done(nodes, before);
        assert(before.push(last) =~= ids);
        assert forall|id: usize| #[trigger] then.contains(id) <==> ids.contains(id) && !nodes[
            id as int].done by {
            assert(earlier.contains(id) <==> before.contains(id) && !nodes[id as int].done);
            lemma_contains_push(before, last, id);
            lemma_contains_push(earlier, last, id);
        }
        if ids.no_duplicates() {
            assert(!before.contains(last));
            assert(!earlier.contains(last));
            assert forall|i: int, j: int|
                0 <= i < then.len() && 0 <= j < then.len() && i != j implies then[i] != then[j] by {
                if i == earlier.len() {
                    assert(earlier.contains(earlier[j]));
                } else if j == earlier.len() {
                    assert(earlier.contains(earlier[i]));
                }
            }
        }
    }
}

proof fn lemma_contains_push(s: Seq<usize>, last: usize, id: usize)
    ensures
        s.push(last).contains(id) <==> s.contains(id) || id == last,
{
    if s.contains(id) {
        let i = choose|i: int| 0 <= i < s.len() && s[i] == id;
        assert(s.push(last)[i] == id);
    }
    assert(s.push(last)[s.len() as int] == last);
    if s.push(last).contains(id) && id != last {
        let i = choose|i: int| 0 <= i < s.len() + 1 && s.push(last)[i] == id;
        assert(s[i] == id);
    }
}

/// Which of a list of nodes are not done depends on these alone.
proof fn lemma_not_done_same(a: Seq<NodeView>, b: Seq<NodeView>, ids: Seq<usize>)
    requires
        forall|i: int| 0 <= i < ids.len() ==> a[#[trigger] ids[i] as int].done == b[ids[i] as int].done,
    ensures
        not_done(a, ids) == not_done(b, ids),
    decreases ids.len(),
{
    reveal(Seq::filter);
    if ids.len() > 0 {
        let before = ids.drop_last();
        assert forall|i: int| 0 <= i < before.len() implies a[#[trigger] before[i] as int].done
            == b[before[i] as int].done by {
            assert(before[i] == ids[i]);
        }
        lemma_not_done_same(a, b, before);
        assert(ids[ids.len() - 1] == ids.last());
    }
}

/// What the report says about the files with one hash.
proof fn lemma_match_object(report: Progress, no_prefix: bool, hash: Seq<u8>, object: ObjectView)
    requires
        report.error is None,
        ids_have_hash(report.nodes, object.sides[0], hash),
        ids_have_hash(report.nodes, object.sides[1], hash),
        is_apart(object),
    ensures
        ({
            let nodes = report.nodes;
            let then = report.match_object(no_prefix, hash, object);
            &&& only_marks(nodes, then.nodes)
            &&& other_hashes_stay(nodes, then.nodes, hash)
            &&& !is_matchable(hash, object) || pending(nodes, object).len() == 0 ==> then.nodes
                == nodes
            &&& report.events.is_prefix_of(then.events)
            &&& then.error is None <==> is_object_reportable(nodes, hash, object)
            &&& then.error is None ==> {
                &&& then.events == report.events + object_lines(nodes, no_prefix, hash, object)
                &&& is_matchable(hash, object) ==> forall|id: usize| #[trigger]
                    object.sides[1].contains(id) ==> then.nodes[id as int].done
                &&& forall|i: int|
                    0 <= i < nodes.len() ==> ((#[trigger] then.nodes[i]).done <==> nodes[i].done
                        || is_object_match(nodes, hash, object, i))
            }
        }),
{
    let nodes = report.nodes;
    let todo = not_done(nodes, object.sides[1]);
    let l = candidates(nodes, object);
    let rs = pending(nodes, object);
    lemma_not_done(nodes, object.sides[1]);
    lemma_sorted_members(paths(nodes), object.sides[0]);
    lemma_sorted_members(paths(nodes), todo);
    let then = report.match_object(no_prefix, hash, object);
    if !is_matchable(hash, object) || todo.len() == 0 {
        assert(then == report);
        assert(report.events + object_lines(nodes, no_prefix, hash, object) =~= report.events);
        if todo.len() == 0 {
            assert forall|id: usize| #[trigger] object.sides[1].contains(id) implies nodes[
                id as int].done by {
                assert(!todo.contains(id));
            }
        }
    } else {
        assert forall|id: usize| #[trigger] l.contains(id) implies id < nodes.len() && nodes[
            id as int].hash == Some(hash) by {
            let i = choose|i: int| 0 <= i < object.sides[0].len() && object.sides[0][i] == id;
            assert(object.sides[0][i] < nodes.len());
        }
        assert forall|id: usize| #[trigger] rs.contains(id) implies id < nodes.len() && nodes[
            id as int].hash == Some(hash) && !nodes[id as int].done && !l.contains(id) by {
            assert(todo.contains(id));
            let i = choose|i: int| 0 <= i < object.sides[1].len() && object.sides[1][i] == id;
            assert(object.sides[1][i] < nodes.len());
            if l.contains(id) {
                assert(object.sides[0].contains(id));
            }
        }
        assert(are_matched(nodes, l, rs)) by {
            assert forall|i: int| 0 <= i < l.len() implies (#[trigger] l[i]) < nodes.len() by {
                assert(l.contains(l[i]));
            }
            assert forall|i: int| 0 <= i < rs.len() implies {
                &&& (#[trigger] rs[i]) < nodes.len()
                &&& !nodes[rs[i] as int].done
                &&& !l.contains(rs[i])
            } by {
                assert(rs.contains(rs[i]));
            }
        }
        law_copies_and_moves(report, no_prefix, l, rs, rs.len());
        assert(then == report.match_all(no_prefix, l, rs, rs.len()));
        assert forall|i: int| 0 <= i < nodes.len() && nodes[i].hash != Some(hash) implies (
        #[trigger] then.nodes[i]) == nodes[i] by {
            if has_node(l, i) {
                let k = choose|k: int| 0 <= k < l.len() && i == #[trigger] l[k];
                assert(l.contains(l[k]));
            }
            if has_node(rs, i) {
                let k = choose|k: int| 0 <= k < rs.len() && i == #[trigger] rs[k];
                assert(rs.contains(rs[k]));
            }
        }
        if then.error is None {
            assert forall|id: usize| #[trigger] object.sides[1].contains(id) implies then.nodes[
                id as int].done by {
                if !nodes[id as int].done {
                    assert(todo.contains(id));
                    assert(rs.contains(id));
                    let j = choose|j: int| 0 <= j < rs.len() && rs[j] == id;
                    assert(is_match(nodes, l, rs, j, id as int));
                    assert(is_matched(nodes, l, rs, rs.len(), id as int));
                }
            }
        }
    }
}


/// The lines for the files with the first `n` hashes.
pub open spec fn hash_lines(
    nodes: Seq<NodeView>,
    no_prefix: bool,
    hashes: HashesView,
    n: nat,
) -> Seq<EventView>
    decreases n,
{
    if n == 0 {
        seq![]
    } else {
        let h = hashes.order[n - 1];
        hash_lines(nodes, no_prefix, hashes, (n - 1) as nat) + object_lines(
            nodes,
            no_prefix,
            h,
            hashes.map[h],
        )
    }
}

/// Whether for each hash the entries of the two logs are different nodes, each named once.
pub open spec fn all_apart(hashes: HashesView) -> bool {
    forall|h: Seq<u8>| #[trigger] hashes.map.contains_key(h) ==> is_apart(hashes.map[h])
}

/// Whether the node `i` may be matched with another: it has a hash that files of the left log
/// have, and that not all files of the right log with it have been accounted for.
pub open spec fn may_match(nodes: Seq<NodeView>, hashes: HashesView, i: int) -> bool {
    &&& nodes[i].hash matches Some(h)
    &&& hashes.map.contains_key(h)
    &&& is_matchable(h, hashes.map[h])
    &&& pending(nodes, hashes.map[h]).len() > 0
}

/// Whether the node `i` is told to be copied or moved, or is the source of one that is, when the
/// first `n` hashes have been told of.
pub open spec fn is_hash_match(
    nodes: Seq<NodeView>,
    hashes: HashesView,
    n: nat,
    i: int,
) -> bool {
    exists|k: int|
        0 <= k < n && #[trigger] is_object_match(
            nodes,
            hashes.order[k],
            hashes.map[hashes.order[k]],
            i,
        )
}

proof fn lemma_hash_match(nodes: Seq<NodeView>, hashes: HashesView, n: nat, i: int)
    requires
        n > 0,
    ensures
        is_hash_match(nodes, hashes, n, i) <==> {
            ||| is_hash_match(nodes, hashes, (n - 1) as nat, i)
            ||| is_object_match(nodes, hashes.order[n - 1], hashes.map[hashes.order[n - 1]], i)
        },
{
    if is_hash_match(nodes, hashes, (n - 1) as nat, i) {
        let k = choose|k: int|
            0 <= k < n - 1 && #[trigger] is_object_match(
                nodes,
                hashes.order[k],
                hashes.map[hashes.order[k]],
                i,
            );
        assert(is_object_match(nodes, hashes.order[k], hashes.map[hashes.order[k]], i));
    }
}

/// What is said about the files with one hash depends on these alone.
proof fn lemma_object_same(
    a: Seq<NodeView>,
    b: Seq<NodeView>,
    no_prefix: bool,
    hash: Seq<u8>,
    object: ObjectView,
)
    requires
        only_marks(a, b),
        ids_have_hash(a, object.sides[0], hash),
        ids_have_hash(a, object.sides[1], hash),
        forall|i: int|
            0 <= i < a.len() && a[i].hash == Some(hash) ==> (#[trigger] b[i]) == a[i],
    ensures
        pending(b, object) == pending(a, object),
        object_lines(b, no_prefix, hash, object) == object_lines(a, no_prefix, hash, object),
        forall|i: int|
            is_object_match(b, hash, object, i) <==> #[trigger] is_object_match(a, hash, object, i),
        is_object_reportable(b, hash, object) == is_object_reportable(a, hash, object),
{
    assert(paths(b) =~= paths(a));
    assert forall|i: int| 0 <= i < object.sides[1].len() implies a[
        #[trigger] object.sides[1][i] as int].done == b[object.sides[1][i] as int].done by {}
    lemma_not_done_same(a, b, object.sides[1]);
    let l = candidates(a, object);
    let rs = pending(a, object);
    lemma_sorted_members(paths(a), object.sides[0]);
    lemma_sorted_members(paths(a), not_done(a, object.sides[1]));
    lemma_not_done(a, object.sides[1]);
    if is_matchable(hash, object) {
        assert forall|i: int| 0 <= i < rs.len() implies {
            let src = #[trigger] source_at(a, l, rs, i);
            &&& source_at(b, l, rs, i) == src
            &&& b[src as int] == a[src as int]
            &&& b[rs[i] as int] == a[rs[i] as int]
        } by {
            let src = source_at(a, l, rs, i);
            assert(source_at(b, l, rs, i) == src) by {
                reveal(source_at);
            }
            lemma_source_at(a, l, rs, i);
            assert(object.sides[0].contains(src));
            let k = choose|k: int| 0 <= k < object.sides[0].len() && object.sides[0][k] == src;
            assert(object.sides[0][k] < a.len());
            assert(rs.contains(rs[i]));
            assert(object.sides[1].contains(rs[i]));
            let m = choose|m: int|
                0 <= m < object.sides[1].len() && object.sides[1][m] == rs[i];
            assert(object.sides[1][m] < a.len());
        }
        assert forall|i: int| 0 <= i < rs.len() implies is_copy(b, l, rs, i) == is_copy(
            a,
            l,
            rs,
            i,
        ) by {
            let src = source_at(a, l, rs, i);
            if is_copy(a, l, rs, i) && !a[src as int].done {
                let j = choose|j: int| 0 <= j < i && #[trigger] source_at(a, l, rs, j) == src;
                assert(source_at(b, l, rs, j) == src);
            }
            if is_copy(b, l, rs, i) && !a[src as int].done {
                let j = choose|j: int|
                    0 <= j < i && #[trigger] source_at(b, l, rs, j) == source_at(b, l, rs, i);
                assert(source_at(a, l, rs, j) == src);
            }
        }
        assert(match_lines(b, no_prefix, l, rs, rs.len()) =~= match_lines(
            a,
            no_prefix,
            l,
            rs,
            rs.len(),
        )) by {
            assert forall|i: int| 0 <= i < rs.len() implies match_line(b, no_prefix, l, rs, i)
                == match_line(a, no_prefix, l, rs, i) by {
                let src = source_at(a, l, rs, i);
            }
        }
        assert forall|i: int|
            is_object_match(b, hash, object, i) <==> #[trigger] is_object_match(
                a,
                hash,
                object,
                i,
            ) by {
            if is_object_match(a, hash, object, i) {
                let j = choose|j: int| 0 <= j < rs.len() && #[trigger] is_match(a, l, rs, j, i);
                let src = source_at(a, l, rs, j);
                assert(is_match(b, l, rs, j, i));
            }
            if is_object_match(b, hash, object, i) {
                let j = choose|j: int| 0 <= j < rs.len() && #[trigger] is_match(b, l, rs, j, i);
                let src = source_at(a, l, rs, j);
                assert(is_match(a, l, rs, j, i));
            }
        }
        if is_object_reportable(a, hash, object) {
            assert forall|i: int| 0 <= i < rs.len() implies b[#[trigger] source_at(b, l, rs, i) as int].path != b[rs[i] as int].path by {
                let src = source_at(a, l, rs, i);
            }
        }
        if is_object_reportable(b, hash, object) {
            assert forall|i: int| 0 <= i < rs.len() implies a[#[trigger] source_at(a, l, rs, i) as int].path != a[rs[i] as int].path by {
                let src = source_at(b, l, rs, i);
            }
        }
    }
}

/// Each hash is told of in turn, as long as all files with it can be told of, and the files that are
/// told to be copied or moved, and their sources, are marked. Files without a hash, empty files, and
/// files with a hash that the left log lacks or that comes with different sizes stay as they are.
pub proof fn law_hashes_in_turn(report: Progress, no_prefix: bool, hashes: HashesView, n: nat)
    requires
        report.error is None,
        hashes_wf(report.nodes, hashes),
        all_apart(hashes),
        n <= hashes.order.len(),
    ensures
        ({
            let nodes = report.nodes;
            let then = report.match_objects(no_prefix, hashes, n);
            &&& only_marks(nodes, then.nodes)
            &&& report.events.is_prefix_of(then.events)
            &&& forall|i: int|
                0 <= i < nodes.len() && (nodes[i].hash matches Some(h) ==> !hashes.order.take(
                    n as int,
                ).contains(h)) ==> (#[trigger] then.nodes[i]) == nodes[i]
            &&& forall|i: int|
                0 <= i < nodes.len() && !may_match(nodes, hashes, i) ==> (#[trigger] then.nodes[i])
                    == nodes[i]
            &&& then.error is None <==> forall|k: int|
                0 <= k < n ==> is_object_reportable(nodes, #[trigger] hashes.order[k], hashes.map[hashes.order[k]])
            &&& then.error is None ==> {
                &&& then.events == report.events + hash_lines(nodes, no_prefix, hashes, n)
                &&& forall|k: int, id: usize|
                    0 <= k < n && is_matchable(
                        hashes.order[k],
                        hashes.map[hashes.order[k]],
                    ) && #[trigger] hashes.map[hashes.order[k]].sides[1].contains(id)
                        ==> then.nodes[id as int].done
                &&& forall|i: int|
                    0 <= i < nodes.len() ==> ((#[trigger] then.nodes[i]).done <==> nodes[i].done
                        || is_hash_match(nodes, hashes, n, i))
            }
        }),
    decreases n,
{
    let nodes = report.nodes;
    if n == 0 {
        assert(report.events + hash_lines(nodes, no_prefix, hashes, 0) =~= report.events);
    } else {
        law_hashes_in_turn(report, no_prefix, hashes, (n - 1) as nat);
        let before = report.match_objects(no_prefix, hashes, (n - 1) as nat);
        let then = report.match_objects(no_prefix, hashes, n);
        let h = hashes.order[n - 1];
        let object = hashes.map[h];
        assert(hashes.order.contains(h));
        assert(hashes.map.contains_key(h));
        let earlier = hashes.order.take(n - 1);
        let now = hashes.order.take(n as int);
        assert(!earlier.contains(h)) by {
            if earlier.contains(h) {
                let k = choose|k: int| 0 <= k < n - 1 && earlier[k] == h;
                assert(hashes.order[k] == hashes.order[n - 1]);
            }
        }
        assert(now[n - 1] == h);
        assert forall|g: Seq<u8>| earlier.contains(g) implies now.contains(g) by {
            let k = choose|k: int| 0 <= k < n - 1 && earlier[k] == g;
            assert(now[k] == g);
        }
        lemma_object_same(nodes, before.nodes, no_prefix, h, object);
        lemma_extends_wf(nodes, before.nodes);
        if before.error is None {
            lemma_match_object(before, no_prefix, h, object);
            assert(then == before.match_object(no_prefix, h, object));
            if then.error is None {
                assert(then.events =~= report.events + hash_lines(nodes, no_prefix, hashes, n));
                assert forall|i: int| 0 <= i < nodes.len() implies ((
                #[trigger] then.nodes[i]).done <==> nodes[i].done || is_hash_match(
                    nodes,
                    hashes,
                    n,
                    i,
                )) by {
                    lemma_hash_match(nodes, hashes, n, i);
                    assert(before.nodes[i].done <==> nodes[i].done || is_hash_match(
                        nodes,
                        hashes,
                        (n - 1) as nat,
                        i,
                    ));
                    assert(is_object_match(before.nodes, h, object, i) <==> is_object_match(
                        nodes,
                        h,
                        object,
                        i,
                    ));
                }
                assert forall|k: int, id: usize|
                    0 <= k < n && is_matchable(
                        hashes.order[k],
                        hashes.map[hashes.order[k]],
                    ) && #[trigger] hashes.map[hashes.order[k]].sides[1].contains(
                        id,
                    ) implies then.nodes[id as int].done by {
                    if k < n - 1 {
                        assert(before.nodes[id as int].done);
                        let g = hashes.order[k];
                        assert(hashes.order.contains(g));
                        assert(hashes.map.contains_key(g));
                        let m = choose|m: int|
                            0 <= m < hashes.map[g].sides[1].len() && hashes.map[g].sides[1][m]
                                == id;
                        assert(hashes.map[g].sides[1][m] < nodes.len());
                    }
                }
            }
            assert forall|i: int| 0 <= i < nodes.len() && !may_match(
                nodes,
                hashes,
                i,
            ) implies (#[trigger] then.nodes[i]) == nodes[i] by {
                assert(before.nodes[i] == nodes[i]);
            }
            assert forall|i: int|
                0 <= i < nodes.len() && (nodes[i].hash matches Some(g) ==> !now.contains(
                    g,
                )) implies (#[trigger] then.nodes[i]) == nodes[i] by {
                assert(before.nodes[i] == nodes[i]);
            }
        }
    }
}

} // verus!
