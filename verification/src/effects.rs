//! What each step of a comparison does to what is known and what has been said, part by part.
use vstd::prelude::*;

use crate::event::{events_view, Event, EventView, Span};
use crate::hash::big_endian;
use crate::line::{line_events, parse_line, Entry, LineError, LogLine};
use crate::maps::{HashesView, MapHashes, MapPaths, Object, ObjectView, PathsView};
use crate::model::{
    blacklisted, files_wf, has_twin, is_excluded, lemma_enter_wf, mismatch_warning, object_for,
    read_log, size_mismatch, with_log, Reading, State,
};
use crate::node::{nodes_view, FSNode, NodeView};
use crate::report::{
    copy_move_line, mark_done, modify_line, op_in_bounds, report_error, report_events, report_nodes,
    single_line, FSOp, ReportError,
};
use crate::rkd::{strings_view, Options, RKD};

verus! {

/// The contents of what is said are its parts, in order.
pub proof fn law_event_view(event: Event, span: Span)
    ensures
        span@.color == span.color,
        span@.text == span.text@,
        match event {
            Event::Line(spans) => {
                &&& event@ is Line
                &&& event@->Line_0.len() == spans@.len()
                &&& forall|i: int|
                    0 <= i < spans@.len() ==> #[trigger] event@->Line_0[i] == spans@[i]@
            },
            Event::Warning(text) => event@ == EventView::Warning(text@),
            Event::Timing { context, elapsed } => event@ == EventView::Timing(context@),
        },
{
}

/// The contents of lists are those of their members, in order.
pub proof fn law_list_views(events: Seq<Event>, nodes: Seq<FSNode>, strings: Seq<String>)
    ensures
        events_view(events).len() == events.len(),
        forall|i: int| 0 <= i < events.len() ==> #[trigger] events_view(events)[i] == events[i]@,
        nodes_view(nodes).len() == nodes.len(),
        forall|i: int| 0 <= i < nodes.len() ==> #[trigger] nodes_view(nodes)[i] == nodes[i]@,
        strings_view(strings).len() == strings.len(),
        forall|i: int|
            0 <= i < strings.len() ==> #[trigger] strings_view(strings)[i] == strings[i]@,
{
}

/// The contents of a file and of a line of a log are their fields.
pub proof fn law_file_views(node: FSNode, line: LogLine)
    ensures
        node@.path == node.path@,
        node@.done == node.done,
        node.hash matches Some(h) ==> node@.hash == Some(h.bytes@),
        node.hash is None ==> node@.hash is None,
        line@.by == line.by,
        line@.path == line.path@,
        line.hash matches Some(h) ==> line@.hash == Some(h.bytes@),
        line.hash is None ==> line@.hash is None,
{
}

/// The contents of the collections are what is found under each path and hash.
pub proof fn law_map_views(files: MapPaths, object: Object, hashes: MapHashes)
    requires
        hashes.wf(),
    ensures
        files@.map == files.map@,
        files@.order.len() == files.order@.len(),
        forall|i: int|
            0 <= i < files.order@.len() ==> #[trigger] files@.order[i] == files.order@[i]@,
        object@.by == object.by,
        object@.blacklisted == object.blacklisted,
        object@.sides.len() == 2,
        object@.sides[0] == object.sides@[0].paths@,
        object@.sides[1] == object.sides@[1].paths@,
        hashes@.order.len() == hashes.order@.len(),
        forall|i: int|
            0 <= i < hashes.order@.len() ==> {
                &&& #[trigger] hashes@.order[i] == hashes.order@[i].bytes@
                &&& hashes@.map.contains_key(hashes@.order[i])
                &&& hashes@.map[hashes@.order[i]] == hashes.objects@[i]@
            },
        forall|h: Seq<u8>| #[trigger] hashes@.map.contains_key(h) ==> hashes@.order.contains(h),
{
    assert forall|h: Seq<u8>| #[trigger] hashes@.map.contains_key(h) implies hashes@.order.contains(
        h,
    ) by {
        let key = crate::maps::hash_key(h);
        let i = hashes.index@[key] as int;
        let g = hashes.order@[i]@;
        crate::hash::lemma_big_endian_key(g);
        crate::hash::lemma_big_endian_key(h);
        crate::hash::lemma_big_endian_injective(g, h);
        assert(hashes@.order[i] == h);
    }
}

/// The contents of a comparison and of what it is asked to do are their fields.
pub proof fn law_comparison_views(rkd: RKD, options: Options)
    ensures
        rkd@.nodes == nodes_view(rkd.nodes@),
        rkd@.sides.len() == rkd.sides@.len(),
        forall|i: int| 0 <= i < rkd.sides@.len() ==> #[trigger] rkd@.sides[i] == rkd.sides@[i]@,
        rkd@.hashes == rkd.hashes@,
        options@.exclude == strings_view(options.exclude@),
        options@.timings == options.timings,
        options@.no_prefix == options.no_prefix,
        State::empty().nodes.len() == 0,
        State::empty().sides.len() == 0,
        State::empty().hashes.order.len() == 0,
        State::empty().hashes.map == Map::<Seq<u8>, ObjectView>::empty(),
{
}

/// A path leads to the node that was entered for it last, and each path stands in the order where it
/// was entered first.
pub proof fn law_files_insert(files: PathsView, path: Seq<char>, node: usize)
    ensures
        files.insert(path, node).map == files.map.insert(path, node),
        files.map.contains_key(path) ==> files.insert(path, node).order == files.order,
        !files.map.contains_key(path) ==> files.insert(path, node).order == files.order.push(path),
        PathsView::empty().order.len() == 0,
        PathsView::empty().map == Map::<Seq<char>, usize>::empty(),
{
}

/// Reading the lines of a log keeps what is known well-formed.
proof fn lemma_steps_wf(
    log: Reading,
    side: int,
    excludes: Seq<Seq<char>>,
    lines: Seq<Seq<char>>,
    n: nat,
)
    requires
        log.state.wf(),
        side == log.state.sides.len() < 2,
        files_wf(log.state.nodes, log.files),
        log.state.nodes.len() + n <= usize::MAX,
    ensures
        ({
            let then = log.steps(side, excludes, lines, n);
            &&& then.state.wf()
            &&& then.state.sides == log.state.sides
            &&& files_wf(then.state.nodes, then.files)
            &&& then.state.nodes.len() <= log.state.nodes.len() + n
        }),
    decreases n,
{
    if n > 0 {
        lemma_steps_wf(log, side, excludes, lines, (n - 1) as nat);
        let before = log.steps(side, excludes, lines, (n - 1) as nat);
        let line = lines[n - 1];
        let noted = Reading {
            ambiguous: before.ambiguous + line_events(line, side).len(),
            events: before.events + line_events(line, side),
            ..before
        };
        if let Ok(Some(entry)) = parse_line(line) {
            lemma_enter_wf(noted, side, entry);
            crate::model::lemma_nodes_with(noted.state, side, entry);
        }
    }
}

/// Before its first line, nothing is known of a log.
pub proof fn law_read_nothing(
    state: State,
    ambiguous: nat,
    events: Seq<EventView>,
    excludes: Seq<Seq<char>>,
)
    ensures
        ({
            let log = read_log(state, ambiguous, events, excludes, seq![]);
            &&& log.state == state
            &&& log.files.order.len() == 0
            &&& log.files.map == Map::<Seq<char>, usize>::empty()
            &&& log.ambiguous == ambiguous
            &&& log.events == events
            &&& log.error is None
        }),
{
}

/// A log that has been read becomes the next one, and nothing else changes.
pub proof fn law_with_log(log: Reading)
    ensures
        with_log(log).nodes == log.state.nodes,
        with_log(log).hashes == log.state.hashes,
        with_log(log).sides == log.state.sides.push(log.files),
{
}

/// What one more line of a log does. Nothing is read behind a line that cannot be read. An entry
/// without a hash is warned about and counted. Nothing more is known of an excluded path. Any other
/// entry becomes the last node. If files with its hash are known to have another size, it is warned
/// about and counted, and the hash is marked. Else, if it belongs to the right log and its path leads
/// to a node of the left log with the same hash, everything has been said about both. The entry is
/// what its path leads to from then on, and the last of those that its hash leads to, on its side.
pub proof fn law_read_one_more(
    state: State,
    ambiguous: nat,
    events: Seq<EventView>,
    excludes: Seq<Seq<char>>,
    lines: Seq<Seq<char>>,
    line: Seq<char>,
)
    requires
        state.wf(),
        state.sides.len() < 2,
        state.nodes.len() + lines.len() < usize::MAX,
    ensures
        ({
            let side = state.sides.len() as int;
            let before = read_log(state, ambiguous, events, excludes, lines);
            let after = read_log(state, ambiguous, events, excludes, lines.push(line));
            &&& before.error is Some ==> after == before
            &&& before.error is None ==> match parse_line(line) {
                Err(e) => {
                    &&& after.error == Some(e)
                    &&& after.state == before.state
                    &&& after.files == before.files
                    &&& after.events == before.events
                    &&& after.ambiguous == before.ambiguous
                },
                Ok(None) => after == before,
                Ok(Some(entry)) => {
                    let missing = entry.hash is None;
                    let listed = !is_excluded(entry.path, excludes);
                    let hashes = before.state.hashes;
                    let known = entry.hash matches Some(h) && hashes.map.contains_key(h);
                    let clash = listed && known && hashes.map[entry.hash->0].by != entry.by;
                    let kept = listed && side == 1 && entry.hash is Some && !clash
                        && state.sides[0].map.contains_key(entry.path)
                        && before.state.nodes[state.sides[0].map[entry.path] as int].hash
                        == entry.hash;
                    let id = before.state.nodes.len();
                    &&& after.error is None
                    &&& after.state.sides == state.sides
                    &&& after.ambiguous == before.ambiguous + (if missing {
                        1int
                    } else {
                        0
                    }) + (if clash {
                        1int
                    } else {
                        0
                    })
                    &&& after.events == before.events + line_events(line, side) + (if clash {
                        seq![mismatch_warning(side, entry.path)]
                    } else {
                        seq![]
                    })
                    &&& !listed ==> after.state == before.state && after.files == before.files
                    &&& listed ==> {
                        &&& after.files.map == before.files.map.insert(entry.path, id as usize)
                        &&& after.files.order == (if before.files.map.contains_key(entry.path) {
                            before.files.order
                        } else {
                            before.files.order.push(entry.path)
                        })
                        &&& after.state.nodes.len() == id + 1
                        &&& after.state.nodes[id as int] == (NodeView {
                            path: entry.path,
                            hash: entry.hash,
                            done: kept,
                        })
                        &&& forall|i: int|
                            0 <= i < id ==> {
                                let node = #[trigger] after.state.nodes[i];
                                &&& node.path == before.state.nodes[i].path
                                &&& node.hash == before.state.nodes[i].hash
                                &&& node.done <==> before.state.nodes[i].done || (kept && i
                                    == state.sides[0].map[entry.path])
                            }
                        &&& missing ==> after.state.hashes == hashes
                        &&& entry.hash matches Some(h) ==> {
                            let object = after.state.hashes.map[h];
                            &&& after.state.hashes.order == (if known {
                                hashes.order
                            } else {
                                hashes.order.push(h)
                            })
                            &&& forall|g: Seq<u8>|
                                g != h ==> #[trigger] after.state.hashes.map.contains_key(g)
                                    == hashes.map.contains_key(g) && after.state.hashes.map[g]
                                    == hashes.map[g]
                            &&& after.state.hashes.map.contains_key(h)
                            &&& object.by == (if clash {
                                -1
                            } else {
                                entry.by as int
                            })
                            &&& object.blacklisted <==> clash || (known
                                && hashes.map[h].blacklisted)
                            &&& object.sides.len() == 2
                            &&& object.sides[side] == (if known {
                                hashes.map[h].sides[side]
                            } else {
                                seq![]
                            }).push(id as usize)
                            &&& object.sides[1 - side] == (if known {
                                hashes.map[h].sides[1 - side]
                            } else {
                                seq![]
                            })
                        }
                    }
                },
            }
        }),
{
    let side = state.sides.len() as int;
    let start = Reading::start(state, ambiguous, events);
    let all = lines.push(line);
    let n = lines.len();
    let before = start.steps(side, excludes, lines, n);
    crate::trace::lemma_steps_same(start, side, excludes, all, lines, n);
    assert(all[n as int] == line);
    assert(files_wf(state.nodes, PathsView::empty()));
    lemma_steps_wf(start, side, excludes, lines, n);
    let after = start.steps(side, excludes, all, (n + 1) as nat);
    assert(after == if before.error is Some {
        before
    } else {
        before.step(side, excludes, line)
    });
    assert(before.events + Seq::<EventView>::empty() =~= before.events);
    if before.error is None {
        if let Ok(Some(entry)) = parse_line(line) {
            let noted = Reading {
                ambiguous: before.ambiguous + line_events(line, side).len(),
                events: before.events + line_events(line, side),
                ..before
            };
            assert(noted.events + Seq::<EventView>::empty() =~= noted.events);
            if !is_excluded(entry.path, excludes) {
                crate::model::lemma_nodes_with(noted.state, side, entry);
                assert(noted.events + seq![mismatch_warning(side, entry.path)] =~= noted.events.push(
                    mismatch_warning(side, entry.path),
                ));
                if side == 1 {
                    assert(files_wf(before.state.nodes, state.sides[0]));
                }
            }
        }
    }
}

/// A line with a path in which an excluded text stands anywhere leaves no trace in what is known.
pub proof fn law_excluded_line(
    state: State,
    ambiguous: nat,
    events: Seq<EventView>,
    excludes: Seq<Seq<char>>,
    lines: Seq<Seq<char>>,
    line: Seq<char>,
    entry: Entry,
    a: Seq<char>,
    k: int,
    c: Seq<char>,
)
    requires
        parse_line(line) == Ok::<_, LineError>(Some(entry)),
        0 <= k < excludes.len(),
        entry.path == a + excludes[k] + c,
    ensures
        ({
            let before = read_log(state, ambiguous, events, excludes, lines);
            let after = read_log(state, ambiguous, events, excludes, lines.push(line));
            &&& after.state == before.state
            &&& after.files == before.files
            &&& after.error == before.error
        }),
{
    crate::meaning::law_contains_middle(a, excludes[k], c);
    crate::trace::law_passed_over(state, ambiguous, events, excludes, lines, line, seq![]);
    assert(lines + seq![line] + Seq::<Seq<char>>::empty() =~= lines.push(line));
    assert(lines + Seq::<Seq<char>>::empty() =~= lines);
}

/// What is reported of a file: nothing if everything has been said about it; else the line for what
/// happened, for a copy or move one that says whether the source had been accounted for; and then
/// everything has been said about it and about the other file, and nothing else changes. Only a copy
/// or move onto the same path is refused.
pub proof fn law_report(nodes: Seq<NodeView>, id: usize, disable: bool, no_prefix: bool, op: FSOp)
    requires
        id < nodes.len(),
        op_in_bounds(op, nodes.len()),
    ensures
        ({
            let node = nodes[id as int];
            let other = match op {
                FSOp::CopyMove { src } => src as int,
                FSOp::Modify { lhs } => lhs as int,
                FSOp::Delete => id as int,
                FSOp::Create => id as int,
            };
            let after = report_nodes(nodes, id, op);
            let said = report_events(nodes, id, disable, no_prefix, op);
            &&& report_error(nodes, id, op) == if !node.done && op is CopyMove && nodes[other].path
                == node.path {
                Some(ReportError::SamePath)
            } else {
                None
            }
            &&& after.len() == nodes.len()
            &&& forall|i: int|
                0 <= i < nodes.len() ==> {
                    &&& (#[trigger] after[i]).path == nodes[i].path
                    &&& after[i].hash == nodes[i].hash
                    &&& after[i].done <==> nodes[i].done || (!node.done && (i == id || i == other))
                }
            &&& node.done || disable ==> said.len() == 0
            &&& !node.done && !disable ==> said.len() == 1 && said[0] == match op {
                FSOp::Delete => single_line(node, true),
                FSOp::Create => single_line(node, false),
                FSOp::CopyMove { src } => copy_move_line(
                    nodes[src as int].done,
                    no_prefix,
                    nodes[src as int].path,
                    node.path,
                ),
                FSOp::Modify { lhs } => modify_line(node.path),
            }
        }),
{
}


/// Two hashes are the same just if all their bytes are, and the number that bytes write grows by the
/// next byte.
pub proof fn law_hash_values(
    a: crate::hash::Hash,
    b: crate::hash::Hash,
    bytes: Seq<u8>,
    next: u8,
)
    ensures
        vstd::std_specs::cmp::PartialEqSpec::eq_spec(&a, &b) <==> a.bytes@ == b.bytes@,
        big_endian(bytes.push(next)) == 256 * big_endian(bytes) + next,
        big_endian(Seq::empty()) == 0,
{
    assert(bytes.push(next).drop_last() =~= bytes);
}

/// What is known of a hash is kept under it and nowhere else, and each hash stands in the order where
/// it was entered first.
pub proof fn law_hashes_insert(hashes: HashesView, hash: Seq<u8>, object: ObjectView)
    ensures
        hashes.insert(hash, object).map == hashes.map.insert(hash, object),
        hashes.map.contains_key(hash) ==> hashes.insert(hash, object).order == hashes.order,
        !hashes.map.contains_key(hash) ==> hashes.insert(hash, object).order == hashes.order.push(
            hash,
        ),
{
}

/// A hash that is met for the first time has the size of its entry, no mark, and no nodes; a known
/// one stays as it is. A node is added behind those of its log.
pub proof fn law_objects(hashes: HashesView, hash: Seq<u8>, by: i64, side: int, node: usize)
    requires
        side == 0 || side == 1,
    ensures
        hashes.map.contains_key(hash) ==> object_for(hashes, hash, by) == hashes.map[hash],
        !hashes.map.contains_key(hash) ==> object_for(hashes, hash, by) == ObjectView::fresh(by),
        ObjectView::fresh(by).by == by,
        !ObjectView::fresh(by).blacklisted,
        ObjectView::fresh(by).sides.len() == 2,
        ObjectView::fresh(by).sides[0].len() == 0,
        ObjectView::fresh(by).sides[1].len() == 0,
        ({
            let object = object_for(hashes, hash, by);
            let pushed = object.push(side, node);
            object.sides.len() == 2 ==> {
                &&& pushed.by == object.by
                &&& pushed.blacklisted == object.blacklisted
                &&& pushed.sides.len() == 2
                &&& pushed.sides[side] == object.sides[side].push(node)
                &&& pushed.sides[1 - side] == object.sides[1 - side]
            }
        }),
{
}

/// An entry clashes with what is known just if its hash is kept with another size; then the hash gets
/// the size -1 and the mark, and keeps its nodes.
pub proof fn law_blacklist(hashes: HashesView, entry: Entry)
    ensures
        size_mismatch(hashes, entry) <==> entry.hash is Some && hashes.map.contains_key(
            entry.hash->0,
        ) && hashes.map[entry.hash->0].by != entry.by,
        size_mismatch(hashes, entry) ==> {
            let h = entry.hash->0;
            let then = blacklisted(hashes, entry);
            &&& then.order == hashes.order
            &&& then.map.dom() == hashes.map.dom()
            &&& forall|g: Seq<u8>| g != h ==> #[trigger] then.map[g] == hashes.map[g]
            &&& then.map[h].by == -1
            &&& then.map[h].blacklisted
            &&& then.map[h].sides == hashes.map[h].sides
        },
{
    if size_mismatch(hashes, entry) {
        assert(blacklisted(hashes, entry).map.dom() =~= hashes.map.dom());
    }
}

/// A file has a twin just if its path leads to a node with its hash. Marking a node changes nothing
/// else.
pub proof fn law_twin(
    nodes: Seq<NodeView>,
    files: PathsView,
    path: Seq<char>,
    hash: Seq<u8>,
    id: usize,
)
    requires
        id < nodes.len(),
    ensures
        has_twin(nodes, files, path, hash) <==> files.map.contains_key(path) && nodes[
        files.map[path] as int].hash == Some(hash),
        mark_done(nodes, id).len() == nodes.len(),
        forall|i: int|
            0 <= i < nodes.len() ==> {
                &&& (#[trigger] mark_done(nodes, id)[i]).path == nodes[i].path
                &&& mark_done(nodes, id)[i].hash == nodes[i].hash
                &&& mark_done(nodes, id)[i].done <==> nodes[i].done || i == id
            },
{
}

} // verus!
