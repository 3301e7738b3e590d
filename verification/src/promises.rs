//! What a comparison promises about the files that its logs list.
use vstd::prelude::*;

use crate::account::{
    all_apart, candidates, hash_lines, is_accounted, is_apart, is_copy, is_hash_match, is_matchable,
    is_object_reportable, law_hashes_in_turn, law_remaining, left_lines, lemma_not_done,
    lemma_sorted_members, lemma_source_at, match_line, may_match, object_lines, only_marks, pending,
    right_lines, source_at,
};
use crate::color;
use crate::event::{Color, EventView};
use crate::hash::EMPTY_HASH;
use crate::laws::{law_quoting_is_injective, law_source_is_best};
use crate::line::Entry;
use crate::maps::{HashesView, PathsView};
use crate::meaning::{law_common_end, share_end};
use crate::model::{
    ambiguity_events, copies_and_moves, diff_outcome, files_wf, hashes_wf, is_excluded,
    lemma_extends_wf, not_done, read_log, report_outcome, source_of, with_log, Outcome, Progress,
    Request, State,
};
use crate::node::{paths, NodeView};
use crate::order::{common_len, rev_bytes};
use crate::report::{copy_move_line, modify_line, shell_quoted, single_line};
use crate::sort::{lemma_sorted, sort_key};
use crate::timer::timing_events;
use crate::trace::{
    all_hashed, both_read, done_known, entries, files_known, is_ambiguous, is_clash, is_kept,
    is_known, is_last, is_node_of, is_taken, law_entries, law_log_error, law_logs_are_known,
    law_quiet_logs, law_warnings_are_counted, left_read, lemma_entries_len, lemma_no_clash,
    lemma_read_log_frame, lists_hash, lists_path, readable, sizes_agree,
};

verus! {

/// The outcome of a new comparison.
pub open spec fn outcome(
    events: Seq<EventView>,
    request: Request,
    left: Seq<Seq<char>>,
    right: Seq<Seq<char>>,
) -> Outcome {
    diff_outcome(State::empty(), events, request, left, right)
}

/// Whether both logs can be read and held.
pub open spec fn are_readable(left: Seq<Seq<char>>, right: Seq<Seq<char>>) -> bool {
    &&& readable(left)
    &&& readable(right)
    &&& left.len() + right.len() <= usize::MAX
}

/// What both logs list, those of the left one first.
pub open spec fn all_entries(
    request: Request,
    left: Seq<Seq<char>>,
    right: Seq<Seq<char>>,
) -> Seq<Entry> {
    entries(request.exclude, left) + entries(request.exclude, right)
}

/// How many of them the left log lists.
pub open spec fn left_count(request: Request, left: Seq<Seq<char>>) -> int {
    entries(request.exclude, left).len() as int
}

/// What has been said when both logs have been read.
pub open spec fn said_first(
    events: Seq<EventView>,
    request: Request,
    left: Seq<Seq<char>>,
    right: Seq<Seq<char>>,
) -> Seq<EventView> {
    let log_l = read_log(State::empty(), 0, events, request.exclude, left);
    let log_r = read_log(
        left_read(request.exclude, left),
        0,
        log_l.events + timing_events(request.timings, "parse_log"@),
        request.exclude,
        right,
    );
    log_r.events + timing_events(request.timings, "parse_log"@)
}

/// The closing warning.
pub open spec fn said_last(
    events: Seq<EventView>,
    request: Request,
    left: Seq<Seq<char>>,
    right: Seq<Seq<char>>,
) -> Seq<EventView> {
    let log_l = read_log(State::empty(), 0, events, request.exclude, left);
    let log_r = read_log(
        left_read(request.exclude, left),
        0,
        log_l.events + timing_events(request.timings, "parse_log"@),
        request.exclude,
        right,
    );
    ambiguity_events(log_l.ambiguous, log_r.ambiguous)
}

/// The nodes when the copies and moves have been reported.
pub open spec fn moved_nodes(
    request: Request,
    left: Seq<Seq<char>>,
    right: Seq<Seq<char>>,
) -> Seq<NodeView> {
    copies_and_moves(both_read(request.exclude, left, right), request.no_prefix, seq![]).nodes
}

/// What has been said does not matter to which copies and moves are reported.
proof fn lemma_match_objects_frame(
    a: Progress,
    b: Progress,
    no_prefix: bool,
    hashes: HashesView,
    n: nat,
)
    requires
        a.nodes == b.nodes,
        a.error is None,
        b.error is None,
        hashes_wf(a.nodes, hashes),
        all_apart(hashes),
        n <= hashes.order.len(),
    ensures
        a.match_objects(no_prefix, hashes, n).nodes == b.match_objects(no_prefix, hashes, n).nodes,
        a.match_objects(no_prefix, hashes, n).error == b.match_objects(no_prefix, hashes, n).error,
    decreases n,
{
    if n > 0 {
        lemma_match_objects_frame(a, b, no_prefix, hashes, (n - 1) as nat);
        let (p, q) = (
            a.match_objects(no_prefix, hashes, (n - 1) as nat),
            b.match_objects(no_prefix, hashes, (n - 1) as nat),
        );
        if p.error is None {
            let h = hashes.order[n - 1];
            let object = hashes.map[h];
            let l = candidates(p.nodes, object);
            let rs = pending(p.nodes, object);
            lemma_match_all_frame(p, q, no_prefix, l, rs, rs.len());
            lemma_sorted_members(
                paths(p.nodes),
                not_done(p.nodes, object.sides[1]),
            );
        }
    }
}

proof fn lemma_match_all_frame(
    a: Progress,
    b: Progress,
    no_prefix: bool,
    l: Seq<usize>,
    rs: Seq<usize>,
    n: nat,
)
    requires
        a.nodes == b.nodes,
        a.error == b.error,
    ensures
        a.match_all(no_prefix, l, rs, n).nodes == b.match_all(no_prefix, l, rs, n).nodes,
        a.match_all(no_prefix, l, rs, n).error == b.match_all(no_prefix, l, rs, n).error,
    decreases n,
{
    if n > 0 {
        lemma_match_all_frame(a, b, no_prefix, l, rs, (n - 1) as nat);
    }
}

/// What is known when both logs have been read suffices for the report.
proof fn lemma_ready(request: Request, left: Seq<Seq<char>>, right: Seq<Seq<char>>)
    requires
        are_readable(left, right),
    ensures
        ({
            let state = both_read(request.exclude, left, right);
            let seen = all_entries(request, left, right);
            let split = left_count(request, left);
            &&& state.wf()
            &&& state.sides.len() == 2
            &&& files_wf(state.nodes, state.sides[0])
            &&& files_wf(state.nodes, state.sides[1])
            &&& all_apart(state.hashes)
            &&& is_known(state, seen, split)
            &&& files_known(state.sides[0], seen, 0, split)
            &&& files_known(state.sides[1], seen, split, seen.len() as int)
            &&& done_known(state.nodes, state.sides[0], seen, split)
            &&& seen.len() <= usize::MAX
        }),
{
    let state = both_read(request.exclude, left, right);
    let seen = all_entries(request, left, right);
    let split = left_count(request, left);
    law_logs_are_known(request.exclude, left, right);
    lemma_entries_len(request.exclude, left);
    lemma_entries_len(request.exclude, right);
    assert forall|h: Seq<u8>| #[trigger] state.hashes.map.contains_key(h) implies is_apart(
        state.hashes.map[h],
    ) by {
        let object = state.hashes.map[h];
        assert(object.sides[1].no_duplicates());
        assert forall|id: usize| object.sides[0].contains(id) implies !#[trigger] object.sides[1].contains(
            id,
        ) by {
            assert(is_node_of(seen, split, 0, h, id));
            assert(object.sides[1].contains(id) <==> is_node_of(seen, split, 1, h, id));
        }
    }
}

/// What a comparison of two logs that can be read says and when it fails: behind what is said
/// while the logs are read come the copies and moves, hash by hash, then the paths of the left log
/// that were modified or removed, then the paths of the right log that were created. It fails just
/// if a copy or move cannot be told of.
pub proof fn law_outcome(
    events: Seq<EventView>,
    request: Request,
    left: Seq<Seq<char>>,
    right: Seq<Seq<char>>,
)
    requires
        are_readable(left, right),
    ensures
        ({
            let state = both_read(request.exclude, left, right);
            let hashes = state.hashes;
            let end = outcome(events, request, left, right);
            let nodes = moved_nodes(request, left, right);
            &&& end.error is None <==> forall|k: int|
                0 <= k < hashes.order.len() ==> is_object_reportable(state.nodes, #[trigger] hashes.order[k], hashes.map[hashes.order[k]])
            &&& end.error is None ==> end.events == said_first(events, request, left, right)
                + hash_lines(state.nodes, request.no_prefix, hashes, hashes.order.len())
                + timing_events(request.timings, "diff_cpmv"@) + left_lines(
                nodes,
                state.sides[0],
                state.sides[1],
                state.sides[0].order.len(),
            ) + right_lines(
                nodes,
                state.sides[0],
                state.sides[1],
                state.sides[1].order.len(),
            ) + timing_events(request.timings, "diff_remaining"@) + said_last(
                events,
                request,
                left,
                right,
            )
        }),
{
    let state = both_read(request.exclude, left, right);
    let end = outcome(events, request, left, right);
    let said = said_first(events, request, left, right);
    let hashes = state.hashes;
    lemma_ready(request, left, right);
    lemma_diff_outcome(events, request, left, right);
    let start = Progress::start(state.nodes, said);
    law_hashes_in_turn(start, request.no_prefix, hashes, hashes.order.len());
    lemma_match_objects_frame(
        start,
        Progress::start(state.nodes, seq![]),
        request.no_prefix,
        hashes,
        hashes.order.len(),
    );
    let moved = copies_and_moves(state, request.no_prefix, said);
    let middle = State { nodes: moved.nodes, ..state };
    if moved.error is None {
        lemma_marked_wf(state, moved.nodes);
        law_remaining(middle, moved.events + timing_events(request.timings, "diff_cpmv"@));
    }
}

/// The report starts from what is known when both logs have been read.
proof fn lemma_diff_outcome(
    events: Seq<EventView>,
    request: Request,
    left: Seq<Seq<char>>,
    right: Seq<Seq<char>>,
)
    requires
        are_readable(left, right),
    ensures
        ({
            let told = report_outcome(
                both_read(request.exclude, left, right),
                said_first(events, request, left, right),
                request.timings,
                request.no_prefix,
            );
            let end = outcome(events, request, left, right);
            &&& end.error == told.error
            &&& end.state == told.state
            &&& end.error is None ==> end.events == told.events + said_last(
                events,
                request,
                left,
                right,
            )
        }),
{
    let log_l = read_log(State::empty(), 0, events, request.exclude, left);
    law_log_error(State::empty(), 0, events, request.exclude, left);
    lemma_read_log_frame(State::empty(), 0, events, request.exclude, left);
    assert(with_log(log_l) == left_read(request.exclude, left));
    let events_r = log_l.events + timing_events(request.timings, "parse_log"@);
    let before = left_read(request.exclude, left);
    law_log_error(before, 0, events_r, request.exclude, right);
    lemma_read_log_frame(before, 0, events_r, request.exclude, right);
    let log_r = read_log(before, 0, events_r, request.exclude, right);
    assert(with_log(log_r) == both_read(request.exclude, left, right));
}


/// The node for an entry.
pub open spec fn node_of(entry: Entry) -> NodeView {
    NodeView { path: entry.path, hash: entry.hash, done: false }
}

/// Whether no file that the entries from `lo` on, before `hi`, list can be matched with one with
/// the given hash: there is no hash, or the file is empty, or no such entry has that hash, or
/// entries with that hash differ in size.
pub open spec fn is_unmatched(seen: Seq<Entry>, lo: int, hi: int, hash: Option<Seq<u8>>) -> bool {
    hash matches Some(h) ==> {
        ||| h == EMPTY_HASH@
        ||| !lists_hash(seen, lo, hi, h)
        ||| is_ambiguous(seen, h)
    }
}

/// The line for a path of the left log that is not accounted for is among the lines.
proof fn lemma_left_line(
    nodes: Seq<NodeView>,
    left: PathsView,
    right: PathsView,
    n: nat,
    path: Seq<char>,
)
    requires
        n <= left.order.len(),
        left.order.take(n as int).contains(path),
        !nodes[left.map[path] as int].done,
    ensures
        left_lines(nodes, left, right, n).contains(
            if right.map.contains_key(path) {
                modify_line(path)
            } else {
                single_line(nodes[left.map[path] as int], true)
            },
        ),
    decreases n,
{
    let line = if right.map.contains_key(path) {
        modify_line(path)
    } else {
        single_line(nodes[left.map[path] as int], true)
    };
    let before = left_lines(nodes, left, right, (n - 1) as nat);
    let now = left_lines(nodes, left, right, n);
    let k = choose|k: int| 0 <= k < n && left.order.take(n as int)[k] == path;
    if k == n - 1 {
        assert(now[before.len() as int] == line);
    } else {
        assert(left.order.take(n - 1)[k] == path);
        lemma_left_line(nodes, left, right, (n - 1) as nat, path);
        let i = choose|i: int| 0 <= i < before.len() && before[i] == line;
        assert(now[i] == line);
    }
}

/// The line for a path of the right log that is not accounted for is among the lines.
proof fn lemma_right_line(
    nodes: Seq<NodeView>,
    left: PathsView,
    right: PathsView,
    n: nat,
    path: Seq<char>,
)
    requires
        n <= right.order.len(),
        right.order.take(n as int).contains(path),
        !is_accounted(nodes, left, right, path),
    ensures
        right_lines(nodes, left, right, n).contains(
            single_line(nodes[right.map[path] as int], false),
        ),
    decreases n,
{
    let line = single_line(nodes[right.map[path] as int], false);
    let before = right_lines(nodes, left, right, (n - 1) as nat);
    let now = right_lines(nodes, left, right, n);
    let k = choose|k: int| 0 <= k < n && right.order.take(n as int)[k] == path;
    if k == n - 1 {
        assert(now[before.len() as int] == line);
    } else {
        assert(right.order.take(n - 1)[k] == path);
        lemma_right_line(nodes, left, right, (n - 1) as nat, path);
        let i = choose|i: int| 0 <= i < before.len() && before[i] == line;
        assert(now[i] == line);
    }
}

/// What one of the parts of a report says, the report says.
proof fn lemma_contains_part(
    a: Seq<EventView>,
    b: Seq<EventView>,
    c: Seq<EventView>,
    d: Seq<EventView>,
    e: Seq<EventView>,
    f: Seq<EventView>,
    g: Seq<EventView>,
    event: EventView,
)
    requires
        b.contains(event) || d.contains(event) || e.contains(event),
    ensures
        (a + b + c + d + e + f + g).contains(event),
{
    let all = a + b + c + d + e + f + g;
    if b.contains(event) {
        let i = choose|i: int| 0 <= i < b.len() && b[i] == event;
        assert(all[a.len() + i] == event);
    } else if d.contains(event) {
        let i = choose|i: int| 0 <= i < d.len() && d[i] == event;
        assert(all[a.len() + b.len() + c.len() + i] == event);
    } else {
        let i = choose|i: int| 0 <= i < e.len() && e[i] == event;
        assert(all[a.len() + b.len() + c.len() + d.len() + i] == event);
    }
}

/// The last entry for a path is the one that the path leads to.
proof fn lemma_leads_to(files: PathsView, seen: Seq<Entry>, lo: int, hi: int, k: int)
    requires
        files_known(files, seen, lo, hi),
        is_last(seen, lo, hi, k),
    ensures
        files.map.contains_key(seen[k].path),
        files.map[seen[k].path] == k,
{
    let p = seen[k].path;
    assert(lists_path(seen, lo, hi, p));
    assert(files.map.contains_key(p));
    let m = files.map[p] as int;
    if m < k {
        assert(seen[k].path != seen[m].path);
    } else if k < m {
        assert(seen[m].path != seen[k].path);
    }
}

/// A hash is marked just if entries with it differ in size.
proof fn lemma_one_size(
    request: Request,
    left: Seq<Seq<char>>,
    right: Seq<Seq<char>>,
    h: Seq<u8>,
)
    requires
        are_readable(left, right),
        both_read(request.exclude, left, right).hashes.map.contains_key(h),
    ensures
        both_read(request.exclude, left, right).hashes.map[h].blacklisted <==> is_ambiguous(
            all_entries(request, left, right),
            h,
        ),
{
    lemma_ready(request, left, right);
}

/// A node whose hash the other log lacks is not matched.
proof fn lemma_unmatched(
    request: Request,
    left: Seq<Seq<char>>,
    right: Seq<Seq<char>>,
    side: int,
    hash: Option<Seq<u8>>,
)
    requires
        are_readable(left, right),
        ({
            let seen = all_entries(request, left, right);
            let split = left_count(request, left);
            ||| side == 0 && is_unmatched(seen, split, seen.len() as int, hash)
            ||| side == 1 && is_unmatched(seen, 0, split, hash)
        }),
    ensures
        ({
            let state = both_read(request.exclude, left, right);
            forall|i: int|
                0 <= i < state.nodes.len() && state.nodes[i].hash == hash ==> (
                #[trigger] moved_nodes(request, left, right)[i]) == state.nodes[i]
        }),
{
    let state = both_read(request.exclude, left, right);
    let seen = all_entries(request, left, right);
    let split = left_count(request, left);
    lemma_ready(request, left, right);
    law_hashes_in_turn(
        Progress::start(state.nodes, seq![]),
        request.no_prefix,
        state.hashes,
        state.hashes.order.len(),
    );
    assert forall|i: int| 0 <= i < state.nodes.len() && state.nodes[i].hash == hash implies !may_match(
        state.nodes,
        state.hashes,
        i,
    ) by {
        if may_match(state.nodes, state.hashes, i) {
            let h = hash->0;
            let object = state.hashes.map[h];
            lemma_one_size(request, left, right, h);
            if side == 0 {
                let id = pending(state.nodes, object)[0];
                let ids = not_done(state.nodes, object.sides[1]);
                lemma_sorted_members(paths(state.nodes), ids);
                lemma_not_done(state.nodes, object.sides[1]);
                assert(pending(state.nodes, object).contains(id));
                assert(object.sides[1].contains(id));
                assert(is_node_of(seen, split, 1, h, id));
                assert(seen[id as int].hash == Some(h));
            } else {
                let id = object.sides[0][0];
                assert(object.sides[0].contains(id));
                assert(is_node_of(seen, split, 0, h, id));
                assert(seen[id as int].hash == Some(h));
            }
        }
    }
}

/// A file that only the left log lists, and whose contents the right log does not list anywhere, is
/// told to be removed. So are empty files and files without a hash, whatever the right log lists
/// elsewhere.
pub proof fn law_removed(
    events: Seq<EventView>,
    request: Request,
    left: Seq<Seq<char>>,
    right: Seq<Seq<char>>,
    k: int,
)
    requires
        are_readable(left, right),
        outcome(events, request, left, right).error is None,
        ({
            let seen = all_entries(request, left, right);
            let split = left_count(request, left);
            &&& is_last(seen, 0, split, k)
            &&& !lists_path(seen, split, seen.len() as int, seen[k].path)
            &&& is_unmatched(seen, split, seen.len() as int, seen[k].hash)
        }),
    ensures
        outcome(events, request, left, right).events.contains(
            single_line(node_of(all_entries(request, left, right)[k]), true),
        ),
{
    let state = both_read(request.exclude, left, right);
    let seen = all_entries(request, left, right);
    let split = left_count(request, left);
    let path = seen[k].path;
    lemma_ready(request, left, right);
    law_outcome(events, request, left, right);
    lemma_leads_to(state.sides[0], seen, 0, split, k);
    lemma_unmatched(request, left, right, 0, seen[k].hash);
    let nodes = moved_nodes(request, left, right);
    assert(!state.nodes[k].done) by {
        if state.nodes[k].done {
            let j = choose|j: int|
                split <= j < seen.len() && #[trigger] is_taken(state.sides[0], seen, j)
                    && state.sides[0].map[seen[j].path] == k;
            assert(seen[j].path == path);
        }
    }
    assert(nodes[k] == state.nodes[k]);
    let order = state.sides[0].order;
    assert(order.take(order.len() as int) =~= order);
    assert(order.contains(path));
    lemma_left_line(nodes, state.sides[0], state.sides[1], order.len(), path);
    assert(single_line(nodes[k], true) == single_line(node_of(seen[k]), true));
    lemma_said(events, request, left, right, single_line(node_of(seen[k]), true));
}

/// A line of any part of the report is said.
proof fn lemma_said(
    events: Seq<EventView>,
    request: Request,
    left: Seq<Seq<char>>,
    right: Seq<Seq<char>>,
    line: EventView,
)
    requires
        are_readable(left, right),
        outcome(events, request, left, right).error is None,
        ({
            let state = both_read(request.exclude, left, right);
            let nodes = moved_nodes(request, left, right);
            let (files_l, files_r) = (state.sides[0], state.sides[1]);
            ||| hash_lines(
                state.nodes,
                request.no_prefix,
                state.hashes,
                state.hashes.order.len(),
            ).contains(line)
            ||| left_lines(nodes, files_l, files_r, files_l.order.len()).contains(line)
            ||| right_lines(nodes, files_l, files_r, files_r.order.len()).contains(line)
        }),
    ensures
        outcome(events, request, left, right).events.contains(line),
{
    let state = both_read(request.exclude, left, right);
    let nodes = moved_nodes(request, left, right);
    let (files_l, files_r) = (state.sides[0], state.sides[1]);
    law_outcome(events, request, left, right);
    let a = said_first(events, request, left, right);
    let b = hash_lines(state.nodes, request.no_prefix, state.hashes, state.hashes.order.len());
    let c = timing_events(request.timings, "diff_cpmv"@);
    let d = left_lines(nodes, files_l, files_r, files_l.order.len());
    let e = right_lines(nodes, files_l, files_r, files_r.order.len());
    let f = timing_events(request.timings, "diff_remaining"@);
    let g = said_last(events, request, left, right);
    lemma_contains_part(a, b, c, d, e, f, g, line);
}

/// A file that only the right log lists, and whose contents the left log does not list anywhere, is
/// told to be created. So are empty files and files without a hash, whatever the left log lists
/// elsewhere.
pub proof fn law_created(
    events: Seq<EventView>,
    request: Request,
    left: Seq<Seq<char>>,
    right: Seq<Seq<char>>,
    k: int,
)
    requires
        are_readable(left, right),
        outcome(events, request, left, right).error is None,
        ({
            let seen = all_entries(request, left, right);
            let split = left_count(request, left);
            &&& is_last(seen, split, seen.len() as int, k)
            &&& !lists_path(seen, 0, split, seen[k].path)
            &&& is_unmatched(seen, 0, split, seen[k].hash)
        }),
    ensures
        outcome(events, request, left, right).events.contains(
            single_line(node_of(all_entries(request, left, right)[k]), false),
        ),
{
    let state = both_read(request.exclude, left, right);
    let seen = all_entries(request, left, right);
    let split = left_count(request, left);
    let path = seen[k].path;
    lemma_ready(request, left, right);
    law_outcome(events, request, left, right);
    lemma_leads_to(state.sides[1], seen, split, seen.len() as int, k);
    lemma_unmatched(request, left, right, 1, seen[k].hash);
    let nodes = moved_nodes(request, left, right);
    assert(!state.sides[0].map.contains_key(path));
    assert(!state.nodes[k].done);
    assert(nodes[k] == state.nodes[k]);
    let order = state.sides[1].order;
    assert(order.take(order.len() as int) =~= order);
    assert(order.contains(path));
    lemma_right_line(nodes, state.sides[0], state.sides[1], order.len(), path);
    assert(single_line(nodes[k], false) == single_line(node_of(seen[k]), false));
    lemma_said(events, request, left, right, single_line(node_of(seen[k]), false));
}

/// A file that both logs list, with contents on the left that the right log does not list anywhere,
/// is told to be modified. So is one that on the left is empty, or has no hash, or has one that
/// comes with different sizes, unless the right log lists it with the same hash and without a
/// warning about its size.
pub proof fn law_modified(
    events: Seq<EventView>,
    request: Request,
    left: Seq<Seq<char>>,
    right: Seq<Seq<char>>,
    k: int,
)
    requires
        are_readable(left, right),
        outcome(events, request, left, right).error is None,
        ({
            let seen = all_entries(request, left, right);
            let split = left_count(request, left);
            &&& is_last(seen, 0, split, k)
            &&& lists_path(seen, split, seen.len() as int, seen[k].path)
            &&& is_unmatched(seen, split, seen.len() as int, seen[k].hash)
            &&& seen[k].hash is Some ==> forall|j: int|
                split <= j < seen.len() && (#[trigger] seen[j]).path == seen[k].path
                    && seen[j].hash == seen[k].hash ==> is_clash(seen, j)
        }),
    ensures
        outcome(events, request, left, right).events.contains(
            modify_line(all_entries(request, left, right)[k].path),
        ),
{
    let state = both_read(request.exclude, left, right);
    let seen = all_entries(request, left, right);
    let split = left_count(request, left);
    let path = seen[k].path;
    lemma_ready(request, left, right);
    law_outcome(events, request, left, right);
    lemma_leads_to(state.sides[0], seen, 0, split, k);
    lemma_unmatched(request, left, right, 0, seen[k].hash);
    let nodes = moved_nodes(request, left, right);
    assert(!state.nodes[k].done) by {
        if state.nodes[k].done {
            let j = choose|j: int|
                split <= j < seen.len() && #[trigger] is_taken(state.sides[0], seen, j)
                    && state.sides[0].map[seen[j].path] == k;
            assert(seen[j].path == path);
        }
    }
    assert(nodes[k] == state.nodes[k]);
    assert(state.sides[1].map.contains_key(path));
    let order = state.sides[0].order;
    assert(order.take(order.len() as int) =~= order);
    assert(order.contains(path));
    lemma_left_line(nodes, state.sides[0], state.sides[1], order.len(), path);
    lemma_said(events, request, left, right, modify_line(path));
}


/// The lines for one hash are among the lines.
proof fn lemma_hash_line(
    nodes: Seq<NodeView>,
    no_prefix: bool,
    hashes: HashesView,
    n: nat,
    k: int,
    line: EventView,
)
    requires
        0 <= k < n <= hashes.order.len(),
        object_lines(nodes, no_prefix, hashes.order[k], hashes.map[hashes.order[k]]).contains(line),
    ensures
        hash_lines(nodes, no_prefix, hashes, n).contains(line),
    decreases n,
{
    let before = hash_lines(nodes, no_prefix, hashes, (n - 1) as nat);
    let now = hash_lines(nodes, no_prefix, hashes, n);
    if k == n - 1 {
        let lines = object_lines(nodes, no_prefix, hashes.order[k], hashes.map[hashes.order[k]]);
        let i = choose|i: int| 0 <= i < lines.len() && lines[i] == line;
        assert(now[before.len() + i] == line);
    } else {
        lemma_hash_line(nodes, no_prefix, hashes, (n - 1) as nat, k, line);
        let i = choose|i: int| 0 <= i < before.len() && before[i] == line;
        assert(now[i] == line);
    }
}

/// Whether the left log lists the path of the entry `k` with another hash, or not at all.
pub open spec fn is_new(seen: Seq<Entry>, split: int, k: int) -> bool {
    forall|j: int|
        is_last(seen, 0, split, j) && (#[trigger] seen[j]).path == seen[k].path ==> seen[j].hash
            != seen[k].hash
}

/// The place of the node `k` of the right log among those of its hash that are pending.
proof fn lemma_pending(
    request: Request,
    left: Seq<Seq<char>>,
    right: Seq<Seq<char>>,
    k: int,
    h: Seq<u8>,
) -> (j: int)
    requires
        are_readable(left, right),
        ({
            let seen = all_entries(request, left, right);
            let split = left_count(request, left);
            &&& split <= k < seen.len()
            &&& seen[k].hash == Some(h)
            &&& is_new(seen, split, k)
        }),
    ensures
        ({
            let state = both_read(request.exclude, left, right);
            let rs = pending(state.nodes, state.hashes.map[h]);
            &&& state.hashes.order.contains(h)
            &&& state.hashes.map.contains_key(h)
            &&& 0 <= j < rs.len()
            &&& rs[j] == k
            &&& rs.no_duplicates()
        }),
{
    let state = both_read(request.exclude, left, right);
    let seen = all_entries(request, left, right);
    let split = left_count(request, left);
    lemma_ready(request, left, right);
    assert(lists_hash(seen, 0, seen.len() as int, h));
    assert(state.hashes.map.contains_key(h));
    assert(state.hashes.order.contains(h));
    let object = state.hashes.map[h];
    let id = k as usize;
    assert(is_node_of(seen, split, 1, h, id));
    assert(object.sides[1].contains(id));
    assert(!state.nodes[k].done) by {
        if state.nodes[k].done {
            let m = state.sides[0].map[seen[k].path] as int;
            assert(is_kept(state.sides[0], seen, seen[k]));
            assert(is_last(seen, 0, split, m));
            assert(seen[m].path == seen[k].path);
        }
    }
    let ids = not_done(state.nodes, object.sides[1]);
    lemma_sorted_members(paths(state.nodes), ids);
    lemma_not_done(state.nodes, object.sides[1]);
    let rs = pending(state.nodes, object);
    assert(ids.contains(id));
    assert(rs.contains(id));
    choose|j: int| 0 <= j < rs.len() && rs[j] == id
}

/// The candidates for one hash are the entries of the left log that have it.
proof fn lemma_candidates(
    request: Request,
    left: Seq<Seq<char>>,
    right: Seq<Seq<char>>,
    h: Seq<u8>,
    id: usize,
)
    requires
        are_readable(left, right),
        both_read(request.exclude, left, right).hashes.map.contains_key(h),
    ensures
        ({
            let state = both_read(request.exclude, left, right);
            candidates(state.nodes, state.hashes.map[h]).contains(id) <==> is_node_of(
                all_entries(request, left, right),
                left_count(request, left),
                0,
                h,
                id,
            )
        }),
{
    let state = both_read(request.exclude, left, right);
    lemma_ready(request, left, right);
    let object = state.hashes.map[h];
    lemma_sorted_members(paths(state.nodes), object.sides[0]);
    assert(object.sides[0].contains(id) <==> is_node_of(
        all_entries(request, left, right),
        left_count(request, left),
        0,
        h,
        id,
    ));
}

/// A file of the right log that is not empty, whose contents the left log lists, but not at the
/// same path, and whose hash comes with one size only, is told to be copied or moved from a file of the left log with the same contents: one
/// of those whose paths have the longest end in common with its path.
pub proof fn law_copied_or_moved(
    events: Seq<EventView>,
    request: Request,
    left: Seq<Seq<char>>,
    right: Seq<Seq<char>>,
    k: int,
)
    requires
        are_readable(left, right),
        outcome(events, request, left, right).error is None,
        ({
            let seen = all_entries(request, left, right);
            let split = left_count(request, left);
            &&& split <= k < seen.len()
            &&& is_new(seen, split, k)
            &&& seen[k].hash matches Some(h) && h != EMPTY_HASH@ && lists_hash(seen, 0, split, h)
                && !is_ambiguous(seen, h)
        }),
    ensures
        ({
            let seen = all_entries(request, left, right);
            let split = left_count(request, left);
            let end = outcome(events, request, left, right);
            exists|i: int, copy: bool|
                0 <= i < split && (#[trigger] seen[i]).hash == seen[k].hash && end.events.contains(
                    #[trigger] copy_move_line(copy, request.no_prefix, seen[i].path, seen[k].path),
                ) && forall|m: int|
                    0 <= m < split && (#[trigger] seen[m]).hash == seen[k].hash ==> common_len(
                        rev_bytes(seen[k].path),
                        rev_bytes(seen[m].path),
                    ) <= common_len(rev_bytes(seen[k].path), rev_bytes(seen[i].path))
        }),
{
    let state = both_read(request.exclude, left, right);
    let seen = all_entries(request, left, right);
    let split = left_count(request, left);
    let end = outcome(events, request, left, right);
    let h = seen[k].hash->0;
    lemma_ready(request, left, right);
    let j = lemma_pending(request, left, right, k, h);
    let object = state.hashes.map[h];
    let nodes = state.nodes;
    let l = candidates(nodes, object);
    let rs = pending(nodes, object);
    let known = paths(nodes);
    let some = choose|i: int| 0 <= i < split && (#[trigger] seen[i]).hash == Some(h);
    lemma_candidates(request, left, right, h, some as usize);
    lemma_sorted_members(known, object.sides[0]);
    lemma_one_size(request, left, right, h);
    assert(is_matchable(h, object));
    let src = source_at(nodes, l, rs, j);
    assert(src == source_of(known, l, rs[j])) by {
        reveal(source_at);
    }
    lemma_sorted(known, object.sides[0]);
    law_source_is_best(known, l, rs[j]);
    lemma_candidates(request, left, right, h, src);
    let i = src as int;
    let line = match_line(nodes, request.no_prefix, l, rs, j);
    let lines = object_lines(nodes, request.no_prefix, h, object);
    assert(lines[j] == line);
    let q = choose|q: int| 0 <= q < state.hashes.order.len() && state.hashes.order[q] == h;
    lemma_hash_line(nodes, request.no_prefix, state.hashes, state.hashes.order.len(), q, line);
    lemma_said(events, request, left, right, line);
    let copy = is_copy(nodes, l, rs, j);
    assert(line == copy_move_line(copy, request.no_prefix, seen[i].path, seen[k].path));
    assert forall|m: int| 0 <= m < split && (#[trigger] seen[m]).hash == seen[k].hash implies common_len(
        rev_bytes(seen[k].path),
        rev_bytes(seen[m].path),
    ) <= common_len(rev_bytes(seen[k].path), rev_bytes(seen[i].path)) by {
        lemma_candidates(request, left, right, h, m as usize);
        let n = choose|n: int| 0 <= n < l.len() && l[n] == m as usize;
        assert(known[m] == seen[m].path);
        assert(known[i] == seen[i].path);
        assert(known[k] == seen[k].path);
        assert(sort_key(known, l[n]) == rev_bytes(seen[m].path));
    }
}

/// The file that it is told to be copied or moved from shares as many bytes at the end of its path
/// with it as any other file of the left log with the same contents does.
pub proof fn law_told_source_shares_most(
    events: Seq<EventView>,
    request: Request,
    left: Seq<Seq<char>>,
    right: Seq<Seq<char>>,
    k: int,
) -> (res: (int, bool))
    requires
        are_readable(left, right),
        outcome(events, request, left, right).error is None,
        ({
            let seen = all_entries(request, left, right);
            let split = left_count(request, left);
            &&& split <= k < seen.len()
            &&& is_new(seen, split, k)
            &&& seen[k].hash matches Some(h) && h != EMPTY_HASH@ && lists_hash(seen, 0, split, h)
                && !is_ambiguous(seen, h)
        }),
    ensures
        ({
            let seen = all_entries(request, left, right);
            let split = left_count(request, left);
            let end = outcome(events, request, left, right);
            let (i, copy) = res;
            &&& 0 <= i < split
            &&& seen[i].hash == seen[k].hash
            &&& end.events.contains(
                copy_move_line(copy, request.no_prefix, seen[i].path, seen[k].path),
            )
            &&& forall|m: int, n: int|
                0 <= m < split && seen[m].hash == seen[k].hash && #[trigger] share_end(
                    seen[k].path,
                    seen[m].path,
                    n,
                ) ==> share_end(seen[k].path, seen[i].path, n)
        }),
{
    let seen = all_entries(request, left, right);
    let split = left_count(request, left);
    let end = outcome(events, request, left, right);
    law_copied_or_moved(events, request, left, right, k);
    let (i, copy) = choose|i: int, copy: bool|
        0 <= i < split && (#[trigger] seen[i]).hash == seen[k].hash && end.events.contains(
            #[trigger] copy_move_line(copy, request.no_prefix, seen[i].path, seen[k].path),
        ) && forall|m: int|
            0 <= m < split && (#[trigger] seen[m]).hash == seen[k].hash ==> common_len(
                rev_bytes(seen[k].path),
                rev_bytes(seen[m].path),
            ) <= common_len(rev_bytes(seen[k].path), rev_bytes(seen[i].path));
    assert forall|m: int, n: int|
        0 <= m < split && seen[m].hash == seen[k].hash && #[trigger] share_end(
            seen[k].path,
            seen[m].path,
            n,
        ) implies share_end(seen[k].path, seen[i].path, n) by {
        law_common_end(seen[k].path, seen[m].path, n);
        law_common_end(seen[k].path, seen[i].path, n);
    }
    (i, copy)
}

/// What has been read from two logs meets what the report of copies and moves starts from: for each
/// hash, the nodes of the two logs are different ones, each named once.
pub proof fn law_entered_once(excludes: Seq<Seq<char>>, left: Seq<Seq<char>>, right: Seq<Seq<char>>)
    requires
        are_readable(left, right),
    ensures
        ({
            let first = with_log(read_log(State::empty(), 0, seq![], excludes, left));
            let state = with_log(read_log(first, 0, seq![], excludes, right));
            &&& state.wf()
            &&& state.sides.len() == 2
            &&& forall|h: Seq<u8>| #[trigger]
                state.hashes.map.contains_key(h) ==> {
                    let object = state.hashes.map[h];
                    &&& object.sides[1].no_duplicates()
                    &&& forall|id: usize|
                        object.sides[0].contains(id) ==> !#[trigger] object.sides[1].contains(id)
                }
        }),
{
    let request = Request { exclude: excludes, timings: false, no_prefix: false };
    let state = both_read(excludes, left, right);
    lemma_ready(request, left, right);
    assert forall|h: Seq<u8>| #[trigger] state.hashes.map.contains_key(h) implies {
        let object = state.hashes.map[h];
        &&& object.sides[1].no_duplicates()
        &&& forall|id: usize|
            object.sides[0].contains(id) ==> !#[trigger] object.sides[1].contains(id)
    } by {
        assert(is_apart(state.hashes.map[h]));
    }
}

/// A file that is not empty and whose contents each log lists just once, with the same size and at
/// different paths, is told to be moved.
pub proof fn law_moved(
    events: Seq<EventView>,
    request: Request,
    left: Seq<Seq<char>>,
    right: Seq<Seq<char>>,
    i: int,
    k: int,
)
    requires
        are_readable(left, right),
        outcome(events, request, left, right).error is None,
        ({
            let seen = all_entries(request, left, right);
            let split = left_count(request, left);
            &&& 0 <= i < split <= k < seen.len()
            &&& seen[i].path != seen[k].path
            &&& seen[i].by == seen[k].by
            &&& seen[k].hash matches Some(h) && h != EMPTY_HASH@
            &&& forall|m: int|
                0 <= m < seen.len() ==> ((#[trigger] seen[m]).hash == seen[k].hash <==> m == i || m
                    == k)
        }),
    ensures
        outcome(events, request, left, right).events.contains(
            copy_move_line(
                false,
                request.no_prefix,
                all_entries(request, left, right)[i].path,
                all_entries(request, left, right)[k].path,
            ),
        ),
{
    let state = both_read(request.exclude, left, right);
    let seen = all_entries(request, left, right);
    let split = left_count(request, left);
    let h = seen[k].hash->0;
    lemma_ready(request, left, right);
    assert(seen[i].hash == Some(h));
    let j = lemma_pending(request, left, right, k, h);
    let object = state.hashes.map[h];
    let nodes = state.nodes;
    let l = candidates(nodes, object);
    let rs = pending(nodes, object);
    lemma_candidates(request, left, right, h, i as usize);
    lemma_sorted_members(paths(nodes), object.sides[0]);
    assert(!is_ambiguous(seen, h));
    lemma_one_size(request, left, right, h);
    assert(is_matchable(h, object));
    let src = source_at(nodes, l, rs, j);
    lemma_source_at(nodes, l, rs, j);
    lemma_candidates(request, left, right, h, src);
    assert(seen[src as int].hash == Some(h));
    assert(src == i);
    assert(!nodes[i].done) by {
        if nodes[i].done {
            let m = choose|m: int|
                split <= m < seen.len() && #[trigger] is_taken(state.sides[0], seen, m)
                    && state.sides[0].map[seen[m].path] == i;
            assert(seen[m].hash == Some(h));
            assert(m == k);
        }
    }
    assert(!is_copy(nodes, l, rs, j)) by {
        if is_copy(nodes, l, rs, j) {
            let n = choose|n: int| 0 <= n < j && #[trigger] source_at(nodes, l, rs, n) == src;
            let ids = not_done(nodes, object.sides[1]);
            lemma_sorted_members(paths(nodes), ids);
            lemma_not_done(nodes, object.sides[1]);
            assert(rs.contains(rs[n]));
            assert(object.sides[1].contains(rs[n]));
            assert(is_node_of(seen, split, 1, h, rs[n]));
            assert(seen[rs[n] as int].hash == Some(h));
            assert(rs[n] == rs[j]);
        }
    }
    let line = match_line(nodes, request.no_prefix, l, rs, j);
    assert(line == copy_move_line(false, request.no_prefix, seen[i].path, seen[k].path));
    let lines = object_lines(nodes, request.no_prefix, h, object);
    assert(lines[j] == line);
    let q = choose|q: int| 0 <= q < state.hashes.order.len() && state.hashes.order[q] == h;
    lemma_hash_line(nodes, request.no_prefix, state.hashes, state.hashes.order.len(), q, line);
    lemma_said(events, request, left, right, line);
}


/// If nothing is left to say about any path, no line is said.
proof fn lemma_no_lines(nodes: Seq<NodeView>, left: PathsView, right: PathsView, n: nat, m: nat)
    requires
        n <= left.order.len(),
        m <= right.order.len(),
        left.wf(),
        right.wf(),
        forall|p: Seq<char>| #[trigger] left.map.contains_key(p) ==> nodes[left.map[p] as int].done,
        forall|p: Seq<char>| #[trigger]
            right.map.contains_key(p) ==> nodes[right.map[p] as int].done,
    ensures
        left_lines(nodes, left, right, n) == Seq::<EventView>::empty(),
        right_lines(nodes, left, right, m) == Seq::<EventView>::empty(),
    decreases n + m,
{
    if n > 0 {
        lemma_no_lines(nodes, left, right, (n - 1) as nat, m);
        assert(left.order.contains(left.order[n - 1]));
        assert(left.map.contains_key(left.order[n - 1]));
    } else if m > 0 {
        lemma_no_lines(nodes, left, right, n, (m - 1) as nat);
        assert(right.order.contains(right.order[m - 1]));
        assert(right.map.contains_key(right.order[m - 1]));
    }
}

/// If no file is pending, no copy or move is said.
proof fn lemma_no_hash_lines(
    nodes: Seq<NodeView>,
    no_prefix: bool,
    hashes: HashesView,
    n: nat,
)
    requires
        n <= hashes.order.len(),
        hashes_wf(nodes, hashes),
        forall|h: Seq<u8>| #[trigger]
            hashes.map.contains_key(h) ==> pending(nodes, hashes.map[h]).len() == 0,
    ensures
        hash_lines(nodes, no_prefix, hashes, n) == Seq::<EventView>::empty(),
    decreases n,
{
    if n > 0 {
        lemma_no_hash_lines(nodes, no_prefix, hashes, (n - 1) as nat);
        let h = hashes.order[n - 1];
        assert(hashes.order.contains(h));
        assert(hashes.map.contains_key(h));
        assert(object_lines(nodes, no_prefix, h, hashes.map[h]) =~= seq![]);
    }
}

/// Whether both logs list the same paths, each path with one hash only, and each hash with one size
/// only.
pub open spec fn are_same(seen: Seq<Entry>, split: int) -> bool {
    &&& forall|p: Seq<char>| #[trigger]
        lists_path(seen, 0, split, p) <==> lists_path(seen, split, seen.len() as int, p)
    &&& forall|i: int, j: int|
        0 <= i < seen.len() && 0 <= j < seen.len() && (#[trigger] seen[i]).path == (
        #[trigger] seen[j]).path ==> seen[i].hash == seen[j].hash
    &&& sizes_agree(seen)
}

/// If both trees hold the same files with the same contents, all of them with hashes, and no two
/// files with the same hash differ in size, the comparison succeeds and says nothing, except how
/// long its phases took if that is asked for.
pub proof fn law_nothing_changed(
    events: Seq<EventView>,
    request: Request,
    left: Seq<Seq<char>>,
    right: Seq<Seq<char>>,
)
    requires
        are_readable(left, right),
        all_hashed(left),
        all_hashed(right),
        are_same(all_entries(request, left, right), left_count(request, left)),
    ensures
        outcome(events, request, left, right).error is None,
        outcome(events, request, left, right).events == events + timing_events(
            request.timings,
            "parse_log"@,
        ) + timing_events(request.timings, "parse_log"@) + timing_events(
            request.timings,
            "diff_cpmv"@,
        ) + timing_events(request.timings, "diff_remaining"@),
{
    let state = both_read(request.exclude, left, right);
    let (files_l, files_r) = (state.sides[0], state.sides[1]);
    let seen = all_entries(request, left, right);
    let split = left_count(request, left);
    let nodes = state.nodes;
    let hashes = state.hashes;
    lemma_ready(request, left, right);
    law_outcome(events, request, left, right);
    assert forall|j: int| split <= j < seen.len() implies #[trigger] is_taken(
        files_l,
        seen,
        j,
    ) by {
        assert(lists_path(seen, split, seen.len() as int, seen[j].path));
        assert(lists_path(seen, 0, split, seen[j].path));
        assert(files_l.map.contains_key(seen[j].path));
        assert(seen[files_l.map[seen[j].path] as int].path == seen[j].path);
        lemma_all_hashed(request.exclude, right, j - split);
        assert(seen[j] == entries(request.exclude, right)[j - split]);
        lemma_no_clash(seen, j, seen[j].hash->0);
    }
    assert forall|p: Seq<char>| #[trigger] files_l.map.contains_key(p) implies nodes[files_l.map[
        p] as int].done by {
        assert(lists_path(seen, 0, split, p));
        assert(lists_path(seen, split, seen.len() as int, p));
        let j = choose|j: int| split <= j < seen.len() && (#[trigger] seen[j]).path == p;
        assert(is_taken(files_l, seen, j));
    }
    assert forall|p: Seq<char>| #[trigger] files_r.map.contains_key(p) implies nodes[files_r.map[
        p] as int].done by {
        assert(is_taken(files_l, seen, files_r.map[p] as int));
    }
    assert forall|h: Seq<u8>| #[trigger] hashes.map.contains_key(h) implies pending(
        nodes,
        hashes.map[h],
    ).len() == 0 by {
        let object = hashes.map[h];
        let ids = not_done(nodes, object.sides[1]);
        lemma_sorted_members(paths(nodes), ids);
        lemma_not_done(nodes, object.sides[1]);
        if ids.len() > 0 {
            let id = ids[0];
            assert(ids.contains(id));
            assert(object.sides[1].contains(id));
            assert(is_node_of(seen, split, 1, h, id));
            assert(is_taken(files_l, seen, id as int));
        }
    }
    law_hashes_in_turn(
        Progress::start(nodes, seq![]),
        request.no_prefix,
        hashes,
        hashes.order.len(),
    );
    assert(moved_nodes(request, left, right) =~= nodes) by {
        assert forall|i: int| 0 <= i < nodes.len() implies !may_match(nodes, hashes, i) by {}
    }
    assert forall|k: int| 0 <= k < hashes.order.len() implies is_object_reportable(nodes, #[trigger] hashes.order[k], hashes.map[hashes.order[k]]) by {
        assert(hashes.order.contains(hashes.order[k]));
        assert(hashes.map.contains_key(hashes.order[k]));
    }
    lemma_no_hash_lines(nodes, request.no_prefix, hashes, hashes.order.len());
    lemma_no_lines(nodes, files_l, files_r, files_l.order.len(), files_r.order.len());
    law_quiet_logs(
        request.exclude,
        left,
        right,
        events,
        events + timing_events(request.timings, "parse_log"@),
    );
    assert(outcome(events, request, left, right).events =~= events + timing_events(
        request.timings,
        "parse_log"@,
    ) + timing_events(request.timings, "parse_log"@) + timing_events(
        request.timings,
        "diff_cpmv"@,
    ) + timing_events(request.timings, "diff_remaining"@));
}

/// Each entry of a log all of whose lines have hashes has one.
proof fn lemma_all_hashed(excludes: Seq<Seq<char>>, lines: Seq<Seq<char>>, k: int)
    requires
        all_hashed(lines),
        0 <= k < entries(excludes, lines).len(),
    ensures
        entries(excludes, lines)[k].hash is Some,
{
    let entry = entries(excludes, lines)[k];
    assert(entries(excludes, lines).contains(entry));
    law_entries(excludes, lines, entry);
}

/// If the left log names no path twice, the comparison succeeds.
pub proof fn law_success(
    events: Seq<EventView>,
    request: Request,
    left: Seq<Seq<char>>,
    right: Seq<Seq<char>>,
)
    requires
        are_readable(left, right),
        ({
            let seen = all_entries(request, left, right);
            let split = left_count(request, left);
            forall|i: int| 0 <= i < split ==> is_last(seen, 0, split, i)
        }),
    ensures
        outcome(events, request, left, right).error is None,
{
    let state = both_read(request.exclude, left, right);
    let seen = all_entries(request, left, right);
    let split = left_count(request, left);
    let nodes = state.nodes;
    let hashes = state.hashes;
    lemma_ready(request, left, right);
    law_outcome(events, request, left, right);
    assert forall|k: int| 0 <= k < hashes.order.len() implies is_object_reportable(nodes, #[trigger] hashes.order[k], hashes.map[hashes.order[k]]) by {
        let h = hashes.order[k];
        assert(hashes.order.contains(h));
        assert(hashes.map.contains_key(h));
        let object = hashes.map[h];
        let l = candidates(nodes, object);
        let rs = pending(nodes, object);
        if is_matchable(h, object) {
            let ids = not_done(nodes, object.sides[1]);
            lemma_sorted_members(paths(nodes), ids);
            lemma_sorted_members(paths(nodes), object.sides[0]);
            lemma_not_done(nodes, object.sides[1]);
            assert forall|i: int| 0 <= i < rs.len() implies nodes[#[trigger] source_at(nodes, l, rs, i) as int].path != nodes[rs[i] as int].path by {
                let src = source_at(nodes, l, rs, i) as int;
                let r = rs[i] as int;
                lemma_source_at(nodes, l, rs, i);
                lemma_candidates(request, left, right, h, src as usize);
                assert(rs.contains(rs[i]));
                assert(object.sides[1].contains(rs[i]));
                assert(is_node_of(seen, split, 1, h, rs[i]));
                assert(seen[src].hash == seen[r].hash);
                if seen[src].path == seen[r].path {
                    assert(is_last(seen, 0, split, src));
                    lemma_leads_to(state.sides[0], seen, 0, split, src);
                    assert(is_kept(state.sides[0], seen, seen[r]));
                    lemma_one_size(request, left, right, h);
                    lemma_no_clash(seen, r, h);
                    assert(is_taken(state.sides[0], seen, r));
                }
            }
        }
    }
}

/// The report marks files and changes nothing else that was known when the logs had been read, and
/// takes back nothing that has been said, whether it succeeds or not.
pub proof fn law_only_marks(
    events: Seq<EventView>,
    request: Request,
    left: Seq<Seq<char>>,
    right: Seq<Seq<char>>,
)
    requires
        are_readable(left, right),
    ensures
        ({
            let state = both_read(request.exclude, left, right);
            let end = outcome(events, request, left, right).state;
            &&& end.sides == state.sides
            &&& end.hashes == state.hashes
            &&& only_marks(state.nodes, end.nodes)
        }),
{
    let state = both_read(request.exclude, left, right);
    let said = said_first(events, request, left, right);
    lemma_ready(request, left, right);
    lemma_diff_outcome(events, request, left, right);
    law_hashes_in_turn(
        Progress::start(state.nodes, said),
        request.no_prefix,
        state.hashes,
        state.hashes.order.len(),
    );
    let moved = copies_and_moves(state, request.no_prefix, said);
    let middle = State { nodes: moved.nodes, ..state };
    if moved.error is None {
        lemma_marked_wf(state, moved.nodes);
        law_remaining(middle, moved.events + timing_events(request.timings, "diff_cpmv"@));
    }
}

/// No file with an excluded path takes part in a comparison.
pub proof fn law_excluded(
    events: Seq<EventView>,
    request: Request,
    left: Seq<Seq<char>>,
    right: Seq<Seq<char>>,
)
    requires
        are_readable(left, right),
    ensures
        ({
            let nodes = outcome(events, request, left, right).state.nodes;
            forall|i: int|
                0 <= i < nodes.len() ==> !is_excluded((#[trigger] nodes[i]).path, request.exclude)
        }),
{
    let state = both_read(request.exclude, left, right);
    let nodes = outcome(events, request, left, right).state.nodes;
    let all_l = entries(request.exclude, left);
    let all_r = entries(request.exclude, right);
    lemma_ready(request, left, right);
    law_only_marks(events, request, left, right);
    assert forall|i: int| 0 <= i < nodes.len() implies !is_excluded(
        (#[trigger] nodes[i]).path,
        request.exclude,
    ) by {
        assert(state.nodes[i].path == (all_l + all_r)[i].path);
        if i < all_l.len() {
            assert(all_l.contains(all_l[i]));
            law_entries(request.exclude, left, all_l[i]);
        } else {
            assert(all_r.contains(all_r[i - all_l.len()]));
            law_entries(request.exclude, right, all_r[i - all_l.len()]);
        }
    }
}

/// Marking files keeps the state well-formed.
proof fn lemma_marked_wf(state: State, nodes: Seq<NodeView>)
    requires
        state.wf(),
        only_marks(state.nodes, nodes),
    ensures
        (State { nodes, ..state }).wf(),
{
    let middle = State { nodes, ..state };
    lemma_extends_wf(state.nodes, nodes);
    assert forall|s: int| 0 <= s < middle.sides.len() implies files_wf(
        middle.nodes,
        #[trigger] middle.sides[s],
    ) by {
        assert(files_wf(state.nodes, state.sides[s]));
    }
}

/// When a comparison has succeeded, everything has been said about each path of both logs.
pub proof fn law_all_said(
    events: Seq<EventView>,
    request: Request,
    left: Seq<Seq<char>>,
    right: Seq<Seq<char>>,
)
    requires
        are_readable(left, right),
        outcome(events, request, left, right).error is None,
    ensures
        ({
            let state = outcome(events, request, left, right).state;
            &&& state.sides.len() == 2
            &&& forall|s: int, p: Seq<char>|
                0 <= s < 2 && #[trigger] state.sides[s].map.contains_key(p) ==> state.nodes[
                state.sides[s].map[p] as int].done
        }),
{
    let state = both_read(request.exclude, left, right);
    let said = said_first(events, request, left, right);
    let hashes = state.hashes;
    lemma_ready(request, left, right);
    lemma_diff_outcome(events, request, left, right);
    let start = Progress::start(state.nodes, said);
    law_hashes_in_turn(start, request.no_prefix, hashes, hashes.order.len());
    let moved = copies_and_moves(state, request.no_prefix, said);
    let middle = State { nodes: moved.nodes, ..state };
    lemma_marked_wf(state, moved.nodes);
    law_remaining(middle, moved.events + timing_events(request.timings, "diff_cpmv"@));
}


/// A file that both logs list with the same hash but with different sizes, the one on the right not
/// being -1, is told to be modified.
pub proof fn law_other_size_is_modified(
    events: Seq<EventView>,
    request: Request,
    left: Seq<Seq<char>>,
    right: Seq<Seq<char>>,
    k: int,
)
    requires
        are_readable(left, right),
        outcome(events, request, left, right).error is None,
        ({
            let seen = all_entries(request, left, right);
            let split = left_count(request, left);
            &&& is_last(seen, 0, split, k)
            &&& seen[k].hash is Some
            &&& lists_path(seen, split, seen.len() as int, seen[k].path)
            &&& forall|j: int|
                split <= j < seen.len() && (#[trigger] seen[j]).path == seen[k].path ==> seen[j].hash
                    == seen[k].hash && seen[j].by != seen[k].by && seen[j].by != -1
        }),
    ensures
        outcome(events, request, left, right).events.contains(
            modify_line(all_entries(request, left, right)[k].path),
        ),
{
    let seen = all_entries(request, left, right);
    let split = left_count(request, left);
    let j = choose|j: int|
        split <= j < seen.len() && (#[trigger] seen[j]).path == seen[k].path;
    assert(seen[k].hash == seen[j].hash && seen[k].by != seen[j].by);
    assert(is_ambiguous(seen, seen[k].hash->0));
    assert forall|m: int|
        split <= m < seen.len() && (#[trigger] seen[m]).path == seen[k].path && seen[m].hash
            == seen[k].hash implies is_clash(seen, m) by {
        assert(seen[k].hash == seen[m].hash && seen[k].by != seen[m].by);
    }
    law_modified(events, request, left, right, k);
}

/// Whether an event has the form of a line for a copy or move: a verb and what stands behind it.
pub open spec fn is_pair_line(event: EventView) -> bool {
    event matches EventView::Line(spans) && spans.len() == 2
}

/// Whether an event tells that one entry was copied or moved from another: one of the right log from
/// one of the left log with the same hash, which is not that of empty files, and with which all
/// entries have the same size.
pub open spec fn is_told_match(seen: Seq<Entry>, split: int, no_prefix: bool, event: EventView) -> bool {
    exists|i: int, k: int, copy: bool|
        0 <= i < split <= k < seen.len() && (#[trigger] seen[i]).hash is Some && seen[i].hash
            == seen[k].hash && seen[i].hash != Some(EMPTY_HASH@) && !is_ambiguous(
            seen,
            seen[i].hash->0,
        ) && event == #[trigger] copy_move_line(copy, no_prefix, seen[i].path, seen[k].path)
}

/// What holds of each part of a report holds of the report.
proof fn lemma_all_parts(
    a: Seq<EventView>,
    b: Seq<EventView>,
    c: Seq<EventView>,
    d: Seq<EventView>,
    e: Seq<EventView>,
    f: Seq<EventView>,
    g: Seq<EventView>,
    from: int,
    pred: spec_fn(EventView) -> bool,
)
    requires
        forall|i: int| from <= i < a.len() ==> pred(#[trigger] a[i]),
        forall|i: int| 0 <= i < b.len() ==> pred(#[trigger] b[i]),
        forall|i: int| 0 <= i < c.len() ==> pred(#[trigger] c[i]),
        forall|i: int| 0 <= i < d.len() ==> pred(#[trigger] d[i]),
        forall|i: int| 0 <= i < e.len() ==> pred(#[trigger] e[i]),
        forall|i: int| 0 <= i < f.len() ==> pred(#[trigger] f[i]),
        forall|i: int| 0 <= i < g.len() ==> pred(#[trigger] g[i]),
        0 <= from <= a.len(),
    ensures
        forall|i: int|
            from <= i < (a + b + c + d + e + f + g).len() ==> pred(
                #[trigger] (a + b + c + d + e + f + g)[i],
            ),
{
    let all = a + b + c + d + e + f + g;
    assert forall|i: int| from <= i < all.len() implies pred(#[trigger] all[i]) by {
        let (n1, n2) = (a.len() as int, (a.len() + b.len()) as int);
        let (n3, n4) = (n2 + c.len(), n2 + c.len() + d.len());
        let (n5, n6) = (n4 + e.len(), n4 + e.len() + f.len());
        if i < n1 {
            assert(all[i] == a[i]);
        } else if i < n2 {
            assert(all[i] == b[i - n1]);
        } else if i < n3 {
            assert(all[i] == c[i - n2]);
        } else if i < n4 {
            assert(all[i] == d[i - n3]);
        } else if i < n5 {
            assert(all[i] == e[i - n4]);
        } else if i < n6 {
            assert(all[i] == f[i - n5]);
        } else {
            assert(all[i] == g[i - n6]);
        }
    }
}

/// What has been said while the logs were read is warnings and timings.
proof fn lemma_said_first(
    events: Seq<EventView>,
    request: Request,
    left: Seq<Seq<char>>,
    right: Seq<Seq<char>>,
)
    ensures
        ({
            let said = said_first(events, request, left, right);
            &&& events.is_prefix_of(said)
            &&& forall|i: int|
                events.len() <= i < said.len() ==> !((#[trigger] said[i]) is Line)
        }),
{
    let log_l = read_log(State::empty(), 0, events, request.exclude, left);
    law_warnings_are_counted(State::empty(), 0, events, request.exclude, left);
    let timing = timing_events(request.timings, "parse_log"@);
    let middle = log_l.events + timing;
    let before = left_read(request.exclude, left);
    let log_r = read_log(before, 0, middle, request.exclude, right);
    law_warnings_are_counted(before, 0, middle, request.exclude, right);
    let said = said_first(events, request, left, right);
    assert(said =~= log_r.events + timing);
    assert forall|i: int| 0 <= i < middle.len() implies said[i] == middle[i] by {
        assert(log_r.events[i] == middle[i]);
    }
    assert forall|i: int| 0 <= i < events.len() implies said[i] == events[i] by {
        assert(log_l.events[i] == events[i]);
        assert(middle[i] == log_l.events[i]);
    }
    assert forall|i: int| events.len() <= i < said.len() implies !((#[trigger] said[i]) is Line) by {
        if i < log_l.events.len() {
            assert(middle[i] == log_l.events[i]);
        } else if i < middle.len() {
            assert(middle[i] == timing[i - log_l.events.len()]);
        } else if i < log_r.events.len() {
            assert(said[i] == log_r.events[i]);
        } else {
            assert(said[i] == timing[i - log_r.events.len()]);
        }
    }
}

/// The lines for the paths have another form than those for copies and moves.
proof fn lemma_path_lines(nodes: Seq<NodeView>, left: PathsView, right: PathsView, n: nat, m: nat)
    ensures
        forall|i: int|
            0 <= i < left_lines(nodes, left, right, n).len() ==> !is_pair_line(
                #[trigger] left_lines(nodes, left, right, n)[i],
            ),
        forall|i: int|
            0 <= i < right_lines(nodes, left, right, m).len() ==> !is_pair_line(
                #[trigger] right_lines(nodes, left, right, m)[i],
            ),
    decreases n + m,
{
    if n > 0 {
        lemma_path_lines(nodes, left, right, (n - 1) as nat, m);
        let before = left_lines(nodes, left, right, (n - 1) as nat);
        let now = left_lines(nodes, left, right, n);
        assert forall|i: int| 0 <= i < now.len() implies !is_pair_line(#[trigger] now[i]) by {
            if i < before.len() {
                assert(now[i] == before[i]);
            }
        }
    }
    if m > 0 {
        lemma_path_lines(nodes, left, right, n, (m - 1) as nat);
        let before = right_lines(nodes, left, right, (m - 1) as nat);
        let now = right_lines(nodes, left, right, m);
        assert forall|i: int| 0 <= i < now.len() implies !is_pair_line(#[trigger] now[i]) by {
            if i < before.len() {
                assert(now[i] == before[i]);
            }
        }
    }
}

/// Each line for a hash is one for two entries that are matched.
proof fn lemma_hash_lines(
    request: Request,
    left: Seq<Seq<char>>,
    right: Seq<Seq<char>>,
    n: nat,
)
    requires
        are_readable(left, right),
        n <= both_read(request.exclude, left, right).hashes.order.len(),
    ensures
        ({
            let state = both_read(request.exclude, left, right);
            let seen = all_entries(request, left, right);
            let split = left_count(request, left);
            let lines = hash_lines(state.nodes, request.no_prefix, state.hashes, n);
            forall|e: int|
                0 <= e < lines.len() ==> is_told_match(
                    seen,
                    split,
                    request.no_prefix,
                    #[trigger] lines[e],
                )
        }),
    decreases n,
{
    let state = both_read(request.exclude, left, right);
    let seen = all_entries(request, left, right);
    let split = left_count(request, left);
    let nodes = state.nodes;
    let np = request.no_prefix;
    if n > 0 {
        lemma_hash_lines(request, left, right, (n - 1) as nat);
        lemma_ready(request, left, right);
        let h = state.hashes.order[n - 1];
        assert(state.hashes.order.contains(h));
        assert(state.hashes.map.contains_key(h));
        let object = state.hashes.map[h];
        let before = hash_lines(nodes, np, state.hashes, (n - 1) as nat);
        let now = hash_lines(nodes, np, state.hashes, n);
        let lines = object_lines(nodes, np, h, object);
        assert forall|e: int| 0 <= e < now.len() implies is_told_match(
            seen,
            split,
            np,
            #[trigger] now[e],
        ) by {
            if e < before.len() {
                assert(now[e] == before[e]);
            } else {
                let j = e - before.len();
                assert(now[e] == lines[j]);
                let l = candidates(nodes, object);
                let rs = pending(nodes, object);
                assert(now[e] == match_line(nodes, np, l, rs, j));
                lemma_sorted_members(paths(nodes), object.sides[0]);
                let src = source_at(nodes, l, rs, j);
                lemma_source_at(nodes, l, rs, j);
                lemma_candidates(request, left, right, h, src);
                let ids = not_done(nodes, object.sides[1]);
                lemma_sorted_members(paths(nodes), ids);
                lemma_not_done(nodes, object.sides[1]);
                assert(rs.contains(rs[j]));
                assert(object.sides[1].contains(rs[j]));
                assert(is_node_of(seen, split, 1, h, rs[j]));
                lemma_one_size(request, left, right, h);
                let (i, k) = (src as int, rs[j] as int);
                let copy = is_copy(nodes, l, rs, j);
                assert(now[e] == copy_move_line(copy, np, seen[i].path, seen[k].path));
                assert(seen[i].hash is Some);
            }
        }
    }
}

/// Each line for a copy or move that a comparison says names a file of the right log and one of the
/// left log with the same hash, which comes with one size only and is not that of empty files. So
/// no such line names a file for its hash if that hash has come with different sizes.
pub proof fn law_matches_have_one_size(
    events: Seq<EventView>,
    request: Request,
    left: Seq<Seq<char>>,
    right: Seq<Seq<char>>,
)
    requires
        are_readable(left, right),
        outcome(events, request, left, right).error is None,
    ensures
        ({
            let end = outcome(events, request, left, right);
            forall|n: int|
                events.len() <= n < end.events.len() && is_pair_line(#[trigger] end.events[n])
                    ==> is_told_match(
                    all_entries(request, left, right),
                    left_count(request, left),
                    request.no_prefix,
                    end.events[n],
                )
        }),
{
    let state = both_read(request.exclude, left, right);
    let nodes = moved_nodes(request, left, right);
    let (files_l, files_r) = (state.sides[0], state.sides[1]);
    let seen = all_entries(request, left, right);
    let split = left_count(request, left);
    law_outcome(events, request, left, right);
    lemma_said_first(events, request, left, right);
    lemma_hash_lines(request, left, right, state.hashes.order.len());
    lemma_path_lines(nodes, files_l, files_r, files_l.order.len(), files_r.order.len());
    let pred = |e: EventView| is_pair_line(e) ==> is_told_match(seen, split, request.no_prefix, e);
    lemma_all_parts(
        said_first(events, request, left, right),
        hash_lines(state.nodes, request.no_prefix, state.hashes, state.hashes.order.len()),
        timing_events(request.timings, "diff_cpmv"@),
        left_lines(nodes, files_l, files_r, files_l.order.len()),
        right_lines(nodes, files_l, files_r, files_r.order.len()),
        timing_events(request.timings, "diff_remaining"@),
        said_last(events, request, left, right),
        events.len() as int,
        pred,
    );
    let end = outcome(events, request, left, right);
    assert forall|n: int|
        events.len() <= n < end.events.len() && is_pair_line(
            #[trigger] end.events[n],
        ) implies is_told_match(seen, split, request.no_prefix, end.events[n]) by {
        assert(pred(end.events[n]));
    }
}

/// A file whose hash has come with different sizes is left as it is by the copies and moves.
pub proof fn law_ambiguous_stay(
    request: Request,
    left: Seq<Seq<char>>,
    right: Seq<Seq<char>>,
    i: int,
)
    requires
        are_readable(left, right),
        0 <= i < all_entries(request, left, right).len(),
        all_entries(request, left, right)[i].hash matches Some(h) && is_ambiguous(
            all_entries(request, left, right),
            h,
        ),
    ensures
        moved_nodes(request, left, right)[i] == both_read(request.exclude, left, right).nodes[i],
{
    lemma_ready(request, left, right);
    lemma_unmatched(request, left, right, 0, all_entries(request, left, right)[i].hash);
}


/// Whether `event` is said from the index `from` on.
pub open spec fn is_said(events: Seq<EventView>, from: int, event: EventView) -> bool {
    exists|n: int| from <= n < events.len() && #[trigger] events[n] == event
}

/// Whether `event` is said from the index `from` on, and only once.
pub open spec fn is_said_once(events: Seq<EventView>, from: int, event: EventView) -> bool {
    exists|n: int|
        from <= n < events.len() && #[trigger] events[n] == event && forall|m: int|
            from <= m < events.len() && #[trigger] events[m] == event ==> m == n
}

/// What only one part of a report says, and once, the report says once.
proof fn lemma_once_part(
    before: Seq<EventView>,
    part: Seq<EventView>,
    after: Seq<EventView>,
    from: int,
    event: EventView,
)
    requires
        0 <= from <= before.len(),
        !is_said(before, from, event),
        !is_said(after, 0, event),
    ensures
        is_said_once(part, 0, event) ==> is_said_once(before + part + after, from, event),
        !is_said(part, 0, event) ==> !is_said(before + part + after, from, event),
{
    let all = before + part + after;
    let (a, b) = (before.len() as int, (before.len() + part.len()) as int);
    assert forall|m: int| from <= m < all.len() && #[trigger] all[m] == event implies a <= m < b
        && part[m - a] == event by {
        if m < a {
            assert(before[m] == event);
        } else if m >= b {
            assert(after[m - b] == event);
        } else {
            assert(part[m - a] == event);
        }
    }
    if is_said_once(part, 0, event) {
        let n = choose|n: int|
            0 <= n < part.len() && #[trigger] part[n] == event && forall|m: int|
                0 <= m < part.len() && #[trigger] part[m] == event ==> m == n;
        assert(all[a + n] == event);
        assert forall|m: int| from <= m < all.len() && #[trigger] all[m] == event implies m == a
            + n by {
            assert(part[m - a] == event);
        }
    }
    if !is_said(part, 0, event) && is_said(all, from, event) {
        let n = choose|n: int| from <= n < all.len() && #[trigger] all[n] == event;
        assert(part[n - a] == event);
    }
}

/// A line of the paths is said as often as in its part.
proof fn lemma_once(
    a: Seq<EventView>,
    b: Seq<EventView>,
    c: Seq<EventView>,
    d: Seq<EventView>,
    e: Seq<EventView>,
    f: Seq<EventView>,
    g: Seq<EventView>,
    from: int,
    event: EventView,
)
    requires
        0 <= from <= a.len(),
        forall|i: int| from <= i < a.len() ==> #[trigger] a[i] != event,
        forall|i: int| 0 <= i < b.len() ==> #[trigger] b[i] != event,
        forall|i: int| 0 <= i < c.len() ==> #[trigger] c[i] != event,
        forall|i: int| 0 <= i < f.len() ==> #[trigger] f[i] != event,
        forall|i: int| 0 <= i < g.len() ==> #[trigger] g[i] != event,
    ensures
        ({
            let all = a + b + c + d + e + f + g;
            &&& !is_said(e, 0, event) ==> {
                &&& is_said_once(d, 0, event) ==> is_said_once(all, from, event)
                &&& !is_said(d, 0, event) ==> !is_said(all, from, event)
            }
            &&& !is_said(d, 0, event) ==> {
                &&& is_said_once(e, 0, event) ==> is_said_once(all, from, event)
                &&& !is_said(e, 0, event) ==> !is_said(all, from, event)
            }
        }),
{
    let all = a + b + c + d + e + f + g;
    let none = Seq::<EventView>::empty();
    lemma_once_part(a, b, c, from, event);
    lemma_once_part(none, f, g, 0, event);
    assert(none + f + g =~= f + g);
    assert(!is_said(b, 0, event) && !is_said(c, 0, event) && !is_said(a, from, event));
    assert(!is_said(f, 0, event) && !is_said(g, 0, event));
    let (pre, post) = (a + b + c, f + g);
    if !is_said(e, 0, event) {
        lemma_once_part(none, e, post, 0, event);
        assert(none + e + post =~= e + post);
        lemma_once_part(pre, d, e + post, from, event);
        assert(pre + d + (e + post) =~= all);
    }
    if !is_said(d, 0, event) {
        lemma_once_part(pre, d, none, from, event);
        assert(pre + d + none =~= pre + d);
        lemma_once_part(pre + d, e, post, from, event);
        assert(pre + d + e + post =~= all);
    }
}

/// Lines for different paths differ.
proof fn lemma_path_line(a: NodeView, b: NodeView, deleted: bool)
    requires
        a.path != b.path,
    ensures
        modify_line(a.path) != modify_line(b.path),
        single_line(a, deleted) != single_line(b, deleted),
        forall|node: NodeView, path: Seq<char>, removed: bool| #[trigger]
            single_line(node, removed) != #[trigger] modify_line(path),
        forall|x: NodeView, y: NodeView| #[trigger]
            single_line(x, true) != #[trigger] single_line(y, false),
{
    if modify_line(a.path) == modify_line(b.path) {
        let head = color::yellow() + "MD"@ + color::default_color() + " "@;
        let (s, t) = (head + shell_quoted(a.path), head + shell_quoted(b.path));
        assert(modify_line(a.path)->Line_0[0].text == s);
        assert(modify_line(b.path)->Line_0[0].text == t);
        assert(s.skip(head.len() as int) =~= shell_quoted(a.path));
        assert(t.skip(head.len() as int) =~= shell_quoted(b.path));
        law_quoting_is_injective(a.path, b.path);
    }
    if single_line(a, deleted) == single_line(b, deleted) {
        assert(single_line(a, deleted)->Line_0[2].text == shell_quoted(a.path));
        assert(single_line(b, deleted)->Line_0[2].text == shell_quoted(b.path));
        law_quoting_is_injective(a.path, b.path);
    }
    assert forall|node: NodeView, path: Seq<char>, removed: bool| #[trigger]
        single_line(node, removed) != #[trigger] modify_line(path) by {
        assert(single_line(node, removed)->Line_0.len() == 3);
        assert(modify_line(path)->Line_0.len() == 1);
    }
    assert forall|x: NodeView, y: NodeView| #[trigger]
        single_line(x, true) != #[trigger] single_line(y, false) by {
        assert(single_line(x, true)->Line_0[0].color == Some(Color::Red));
        assert(single_line(y, false)->Line_0[0].color == Some(Color::Green));
    }
}

/// The line for a path of the left log that is not accounted for.
pub open spec fn left_line(
    nodes: Seq<NodeView>,
    left: PathsView,
    right: PathsView,
    path: Seq<char>,
) -> EventView {
    if right.map.contains_key(path) {
        modify_line(path)
    } else {
        single_line(nodes[left.map[path] as int], true)
    }
}

/// Each path of the left log that is not accounted for has one line, and the others have none.
proof fn lemma_left_once(
    nodes: Seq<NodeView>,
    left: PathsView,
    right: PathsView,
    n: nat,
    path: Seq<char>,
)
    requires
        files_wf(nodes, left),
        n <= left.order.len(),
        left.map.contains_key(path),
    ensures
        ({
            let lines = left_lines(nodes, left, right, n);
            let line = left_line(nodes, left, right, path);
            if left.order.take(n as int).contains(path) && !nodes[left.map[path] as int].done {
                is_said_once(lines, 0, line)
            } else {
                !is_said(lines, 0, line)
            }
        }),
    decreases n,
{
    let line = left_line(nodes, left, right, path);
    let now = left_lines(nodes, left, right, n);
    if n > 0 {
        lemma_left_once(nodes, left, right, (n - 1) as nat, path);
        let before = left_lines(nodes, left, right, (n - 1) as nat);
        let p = left.order[n - 1];
        let node = nodes[left.map[p] as int];
        let last = if node.done {
            seq![]
        } else {
            seq![left_line(nodes, left, right, p)]
        };
        assert(now =~= before + last);
        assert(left.order.contains(p));
        assert(left.map.contains_key(p));
        let earlier = left.order.take(n - 1);
        let taken = left.order.take(n as int);
        let none = Seq::<EventView>::empty();
        assert(none + before + last =~= now);
        assert(before + last + none =~= now);
        if p == path {
            assert(taken[n - 1] == path);
            assert(!earlier.contains(path)) by {
                if earlier.contains(path) {
                    let k = choose|k: int| 0 <= k < n - 1 && earlier[k] == path;
                    assert(left.order[k] == left.order[n - 1]);
                }
            }
            lemma_once_part(before, last, none, 0, line);
            if !node.done {
                assert(last[0] == line);
                assert(is_said_once(last, 0, line));
            } else {
                assert(!is_said(last, 0, line));
            }
        } else {
            assert(taken.contains(path) <==> earlier.contains(path)) by {
                if taken.contains(path) {
                    let k = choose|k: int| 0 <= k < n && taken[k] == path;
                    assert(earlier[k] == path);
                }
                if earlier.contains(path) {
                    let k = choose|k: int| 0 <= k < n - 1 && earlier[k] == path;
                    assert(taken[k] == path);
                }
            }
            lemma_path_line(node, nodes[left.map[path] as int], true);
            assert(!is_said(last, 0, line));
            lemma_once_part(none, before, last, 0, line);
        }
    }
}

/// Each path of the right log that is not accounted for has one line, and the others have none.
proof fn lemma_right_once(
    nodes: Seq<NodeView>,
    left: PathsView,
    right: PathsView,
    n: nat,
    path: Seq<char>,
)
    requires
        files_wf(nodes, right),
        n <= right.order.len(),
        right.map.contains_key(path),
    ensures
        ({
            let lines = right_lines(nodes, left, right, n);
            let line = single_line(nodes[right.map[path] as int], false);
            if right.order.take(n as int).contains(path) && !is_accounted(nodes, left, right, path) {
                is_said_once(lines, 0, line)
            } else {
                !is_said(lines, 0, line)
            }
        }),
    decreases n,
{
    let line = single_line(nodes[right.map[path] as int], false);
    let now = right_lines(nodes, left, right, n);
    if n > 0 {
        lemma_right_once(nodes, left, right, (n - 1) as nat, path);
        let before = right_lines(nodes, left, right, (n - 1) as nat);
        let p = right.order[n - 1];
        let node = nodes[right.map[p] as int];
        let last = if is_accounted(nodes, left, right, p) {
            seq![]
        } else {
            seq![single_line(node, false)]
        };
        assert(now =~= before + last);
        assert(right.order.contains(p));
        assert(right.map.contains_key(p));
        let earlier = right.order.take(n - 1);
        let taken = right.order.take(n as int);
        let none = Seq::<EventView>::empty();
        assert(none + before + last =~= now);
        assert(before + last + none =~= now);
        if p == path {
            assert(taken[n - 1] == path);
            assert(!earlier.contains(path)) by {
                if earlier.contains(path) {
                    let k = choose|k: int| 0 <= k < n - 1 && earlier[k] == path;
                    assert(right.order[k] == right.order[n - 1]);
                }
            }
            lemma_once_part(before, last, none, 0, line);
            if !is_accounted(nodes, left, right, p) {
                assert(last[0] == line);
                assert(is_said_once(last, 0, line));
            } else {
                assert(!is_said(last, 0, line));
            }
        } else {
            assert(taken.contains(path) <==> earlier.contains(path)) by {
                if taken.contains(path) {
                    let k = choose|k: int| 0 <= k < n && taken[k] == path;
                    assert(earlier[k] == path);
                }
                if earlier.contains(path) {
                    let k = choose|k: int| 0 <= k < n - 1 && earlier[k] == path;
                    assert(taken[k] == path);
                }
            }
            lemma_path_line(node, nodes[right.map[path] as int], false);
            assert(!is_said(last, 0, line));
            lemma_once_part(none, before, last, 0, line);
        }
    }
}

/// Lines for the paths of one log are not among those for the other.
proof fn lemma_sides_differ(nodes: Seq<NodeView>, left: PathsView, right: PathsView, n: nat, m: nat)
    ensures
        forall|node: NodeView|
            !is_said(left_lines(nodes, left, right, n), 0, #[trigger] single_line(node, false)),
        forall|node: NodeView|
            !is_said(right_lines(nodes, left, right, m), 0, #[trigger] single_line(node, true)),
        forall|path: Seq<char>|
            !is_said(right_lines(nodes, left, right, m), 0, #[trigger] modify_line(path)),
    decreases n + m,
{
    let none = Seq::<EventView>::empty();
    let (x, y) = (
        NodeView { path: seq![], hash: None, done: false },
        NodeView { path: seq!['x'], hash: None, done: false },
    );
    assert(x.path.len() != y.path.len());
    lemma_path_line(x, y, true);
    if n > 0 {
        lemma_sides_differ(nodes, left, right, (n - 1) as nat, m);
        let before = left_lines(nodes, left, right, (n - 1) as nat);
        let now = left_lines(nodes, left, right, n);
        assert forall|node: NodeView| !is_said(now, 0, #[trigger] single_line(node, false)) by {
            let line = single_line(node, false);
            if is_said(now, 0, line) {
                let i = choose|i: int| 0 <= i < now.len() && #[trigger] now[i] == line;
                if i < before.len() {
                    assert(before[i] == line);
                    assert(is_said(before, 0, line));
                } else {
                    let p = left.order[n - 1];
                    assert(now[i] == left_line(nodes, left, right, p));
                }
            }
        }
    }
    if m > 0 {
        lemma_sides_differ(nodes, left, right, n, (m - 1) as nat);
        let before = right_lines(nodes, left, right, (m - 1) as nat);
        let now = right_lines(nodes, left, right, m);
        let node = nodes[right.map[right.order[m - 1]] as int];
        assert forall|line: EventView| is_said(now, 0, line) implies is_said(before, 0, line)
            || line == single_line(node, false) by {
            let i = choose|i: int| 0 <= i < now.len() && #[trigger] now[i] == line;
            if i < before.len() {
                assert(before[i] == line);
            }
        }
    }
}

/// Whether the entry `i` is told to be copied or moved, or is the source of one that is.
pub open spec fn is_in_match(
    request: Request,
    left: Seq<Seq<char>>,
    right: Seq<Seq<char>>,
    i: int,
) -> bool {
    let state = both_read(request.exclude, left, right);
    is_hash_match(state.nodes, state.hashes, state.hashes.order.len(), i)
}

/// Which files have been accounted for when the copies and moves have been reported.
proof fn lemma_moved_nodes(
    events: Seq<EventView>,
    request: Request,
    left: Seq<Seq<char>>,
    right: Seq<Seq<char>>,
)
    requires
        are_readable(left, right),
        outcome(events, request, left, right).error is None,
    ensures
        ({
            let state = both_read(request.exclude, left, right);
            let nodes = moved_nodes(request, left, right);
            &&& only_marks(state.nodes, nodes)
            &&& forall|i: int|
                0 <= i < nodes.len() ==> ((#[trigger] nodes[i]).done <==> state.nodes[i].done
                    || is_in_match(request, left, right, i))
        }),
{
    let state = both_read(request.exclude, left, right);
    lemma_ready(request, left, right);
    law_outcome(events, request, left, right);
    law_hashes_in_turn(
        Progress::start(state.nodes, seq![]),
        request.no_prefix,
        state.hashes,
        state.hashes.order.len(),
    );
}

/// How often a line for a path is said.
proof fn lemma_path_said(
    events: Seq<EventView>,
    request: Request,
    left: Seq<Seq<char>>,
    right: Seq<Seq<char>>,
    line: EventView,
)
    requires
        are_readable(left, right),
        outcome(events, request, left, right).error is None,
        line is Line,
        !is_pair_line(line),
    ensures
        ({
            let state = both_read(request.exclude, left, right);
            let nodes = moved_nodes(request, left, right);
            let (files_l, files_r) = (state.sides[0], state.sides[1]);
            let d = left_lines(nodes, files_l, files_r, files_l.order.len());
            let e = right_lines(nodes, files_l, files_r, files_r.order.len());
            let all = outcome(events, request, left, right).events;
            let from = events.len() as int;
            &&& !is_said(e, 0, line) ==> {
                &&& is_said_once(d, 0, line) ==> is_said_once(all, from, line)
                &&& !is_said(d, 0, line) ==> !is_said(all, from, line)
            }
            &&& !is_said(d, 0, line) ==> {
                &&& is_said_once(e, 0, line) ==> is_said_once(all, from, line)
                &&& !is_said(e, 0, line) ==> !is_said(all, from, line)
            }
        }),
{
    let state = both_read(request.exclude, left, right);
    let nodes = moved_nodes(request, left, right);
    let (files_l, files_r) = (state.sides[0], state.sides[1]);
    law_outcome(events, request, left, right);
    lemma_said_first(events, request, left, right);
    lemma_hash_lines(request, left, right, state.hashes.order.len());
    let b = hash_lines(state.nodes, request.no_prefix, state.hashes, state.hashes.order.len());
    assert forall|i: int| 0 <= i < b.len() implies #[trigger] b[i] != line by {
        assert(is_pair_line(b[i]));
    }
    lemma_once(
        said_first(events, request, left, right),
        b,
        timing_events(request.timings, "diff_cpmv"@),
        left_lines(nodes, files_l, files_r, files_l.order.len()),
        right_lines(nodes, files_l, files_r, files_r.order.len()),
        timing_events(request.timings, "diff_remaining"@),
        said_last(events, request, left, right),
        events.len() as int,
        line,
    );
}

/// A file of the left log is told to be removed, or modified if the right log has its path, just
/// once, if it is neither taken as unchanged nor the source of a copy or move. Else no such line is
/// said. So a file is never told both to be removed and to be moved.
pub proof fn law_left_told_once(
    events: Seq<EventView>,
    request: Request,
    left: Seq<Seq<char>>,
    right: Seq<Seq<char>>,
    k: int,
)
    requires
        are_readable(left, right),
        outcome(events, request, left, right).error is None,
        is_last(all_entries(request, left, right), 0, left_count(request, left), k),
    ensures
        ({
            let state = both_read(request.exclude, left, right);
            let seen = all_entries(request, left, right);
            let split = left_count(request, left);
            let all = outcome(events, request, left, right).events;
            let line = if lists_path(seen, split, seen.len() as int, seen[k].path) {
                modify_line(seen[k].path)
            } else {
                single_line(node_of(seen[k]), true)
            };
            if state.nodes[k].done || is_in_match(request, left, right, k) {
                !is_said(all, events.len() as int, line)
            } else {
                is_said_once(all, events.len() as int, line)
            }
        }),
{
    let state = both_read(request.exclude, left, right);
    let seen = all_entries(request, left, right);
    let split = left_count(request, left);
    let (files_l, files_r) = (state.sides[0], state.sides[1]);
    let nodes = moved_nodes(request, left, right);
    let path = seen[k].path;
    lemma_ready(request, left, right);
    lemma_moved_nodes(events, request, left, right);
    lemma_marked_wf(state, nodes);
    assert(files_wf(nodes, files_l)) by {
        assert(files_wf((State { nodes, ..state }).nodes, (State { nodes, ..state }).sides[0]));
    }
    lemma_leads_to(files_l, seen, 0, split, k);
    let order = files_l.order;
    assert(order.take(order.len() as int) =~= order);
    assert(order.contains(path));
    lemma_left_once(nodes, files_l, files_r, order.len(), path);
    let line = left_line(nodes, files_l, files_r, path);
    assert(single_line(nodes[k], true) == single_line(node_of(seen[k]), true));
    assert(files_r.map.contains_key(path) <==> lists_path(seen, split, seen.len() as int, path));
    lemma_sides_differ(nodes, files_l, files_r, order.len(), files_r.order.len());
    lemma_path_said(events, request, left, right, line);
}

/// A file of the right log is told to be created just once, if it is neither taken as unchanged nor
/// told to be copied or moved, and no file of the left log at its path is told to be modified. Else
/// no such line is said. So a file is never told both to be created and to be copied or moved.
pub proof fn law_right_told_once(
    events: Seq<EventView>,
    request: Request,
    left: Seq<Seq<char>>,
    right: Seq<Seq<char>>,
    k: int,
)
    requires
        are_readable(left, right),
        outcome(events, request, left, right).error is None,
        ({
            let seen = all_entries(request, left, right);
            is_last(seen, left_count(request, left), seen.len() as int, k)
        }),
    ensures
        ({
            let state = both_read(request.exclude, left, right);
            let seen = all_entries(request, left, right);
            let split = left_count(request, left);
            let all = outcome(events, request, left, right).events;
            let line = single_line(node_of(seen[k]), false);
            let modified = exists|j: int|
                #[trigger] is_last(seen, 0, split, j) && seen[j].path == seen[k].path
                    && !state.nodes[j].done && !is_in_match(request, left, right, j);
            if state.nodes[k].done || is_in_match(request, left, right, k) || modified {
                !is_said(all, events.len() as int, line)
            } else {
                is_said_once(all, events.len() as int, line)
            }
        }),
{
    let state = both_read(request.exclude, left, right);
    let seen = all_entries(request, left, right);
    let split = left_count(request, left);
    let (files_l, files_r) = (state.sides[0], state.sides[1]);
    let nodes = moved_nodes(request, left, right);
    let path = seen[k].path;
    lemma_ready(request, left, right);
    lemma_moved_nodes(events, request, left, right);
    lemma_marked_wf(state, nodes);
    assert(files_wf(nodes, files_r)) by {
        assert(files_wf((State { nodes, ..state }).nodes, (State { nodes, ..state }).sides[1]));
    }
    lemma_leads_to(files_r, seen, split, seen.len() as int, k);
    let order = files_r.order;
    assert(order.take(order.len() as int) =~= order);
    assert(order.contains(path));
    lemma_right_once(nodes, files_l, files_r, order.len(), path);
    let line = single_line(nodes[k], false);
    assert(line == single_line(node_of(seen[k]), false));
    let modified = exists|j: int|
        #[trigger] is_last(seen, 0, split, j) && seen[j].path == seen[k].path
            && !state.nodes[j].done && !is_in_match(request, left, right, j);
    assert(modified <==> files_l.map.contains_key(path) && !nodes[files_l.map[path] as int].done) by {
        if modified {
            let j = choose|j: int|
                #[trigger] is_last(seen, 0, split, j) && seen[j].path == seen[k].path
                    && !state.nodes[j].done && !is_in_match(request, left, right, j);
            lemma_leads_to(files_l, seen, 0, split, j);
        }
        if files_l.map.contains_key(path) && !nodes[files_l.map[path] as int].done {
            assert(is_last(seen, 0, split, files_l.map[path] as int));
        }
    }
    lemma_sides_differ(nodes, files_l, files_r, files_l.order.len(), order.len());
    lemma_path_said(events, request, left, right, line);
}

} // verus!
