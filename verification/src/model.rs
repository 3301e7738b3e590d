//! What a comparison does, as functions of its state.
use vstd::prelude::*;

use crate::color;
use crate::event::EventView;
use crate::hash::EMPTY_HASH;
use crate::line::{line_events, parse_line, side_mark, Entry, LineError};
use crate::maps::{HashesView, ObjectView, PathsView};
use crate::node::{paths, NodeView};
use crate::order::{best_match, lex_less, BestPrefixMatch};
use crate::report::{
    mark_done, op_in_bounds, report_error, report_events, report_nodes, FSOp, ReportError,
};
use crate::rkd::DiffError;
use crate::sort::{sort_key, sorted};
use crate::text::{contains_text, decimal};
use crate::timer::timing_events;

verus! {

/// The state of a comparison: all files met so far, the files of each log by path, and the files
/// of both logs by hash.
#[verifier::ext_equal]
pub struct State {
    pub nodes: Seq<NodeView>,
    pub sides: Seq<PathsView>,
    pub hashes: HashesView,
}

/// Whether each path leads to a node with that path.
pub open spec fn files_wf(nodes: Seq<NodeView>, files: PathsView) -> bool {
    &&& files.wf()
    &&& forall|p: Seq<char>| #[trigger]
        files.map.contains_key(p) ==> {
            &&& files.map[p] < nodes.len()
            &&& nodes[files.map[p] as int].path == p
        }
}

/// Whether all of `ids` are nodes with the given hash.
pub open spec fn ids_have_hash(nodes: Seq<NodeView>, ids: Seq<usize>, hash: Seq<u8>) -> bool {
    forall|i: int|
        0 <= i < ids.len() ==> {
            &&& (#[trigger] ids[i]) < nodes.len()
            &&& nodes[ids[i] as int].hash == Some(hash)
        }
}

/// Whether each hash leads to nodes with that hash.
pub open spec fn hashes_wf(nodes: Seq<NodeView>, hashes: HashesView) -> bool {
    &&& hashes.order.no_duplicates()
    &&& forall|h: Seq<u8>| hashes.map.contains_key(h) <==> #[trigger] hashes.order.contains(h)
    &&& forall|h: Seq<u8>| #[trigger]
        hashes.map.contains_key(h) ==> {
            &&& hashes.map[h].sides.len() == 2
            &&& ids_have_hash(nodes, hashes.map[h].sides[0], h)
            &&& ids_have_hash(nodes, hashes.map[h].sides[1], h)
        }
}

impl State {
    /// The state before any log has been read.
    pub open spec fn empty() -> Self {
        State { nodes: seq![], sides: seq![], hashes: HashesView::empty() }
    }

    /// Paths and hashes lead to the nodes that have them.
    pub open spec fn wf(self) -> bool {
        &&& self.sides.len() <= 2
        &&& forall|s: int| 0 <= s < self.sides.len() ==> files_wf(self.nodes, #[trigger] self.sides[s])
        &&& hashes_wf(self.nodes, self.hashes)
    }
}

/// Whether `path` holds one of `excludes`.
pub open spec fn is_excluded(path: Seq<char>, excludes: Seq<Seq<char>>) -> bool {
    exists|i: int| 0 <= i < excludes.len() && contains_text(path, #[trigger] excludes[i])
}

/// Whether the hash of `entry` is known to belong to files of another size.
pub open spec fn size_mismatch(hashes: HashesView, entry: Entry) -> bool {
    &&& entry.hash matches Some(h)
    &&& hashes.map.contains_key(h)
    &&& hashes.map[h].by != entry.by
}

/// The hashes with that of `entry` marked as one that belongs to files of different sizes.
pub open spec fn blacklisted(hashes: HashesView, entry: Entry) -> HashesView {
    let h = entry.hash->0;
    hashes.insert(h, ObjectView { by: (-1) as i64, blacklisted: true, ..hashes.map[h] })
}

/// The warning that the hash of an entry belongs to files of different sizes.
pub open spec fn mismatch_warning(side: int, path: Seq<char>) -> EventView {
    EventView::Warning(
        color::bright_yellow() + "[WARNING] File-size mismatch ["@ + side_mark(side) + "]: "@
            + path + color::default_color(),
    )
}

/// Whether `files` has a node for `path` with the given hash.
pub open spec fn has_twin(
    nodes: Seq<NodeView>,
    files: PathsView,
    path: Seq<char>,
    hash: Seq<u8>,
) -> bool {
    files.map.contains_key(path) && nodes[files.map[path] as int].hash == Some(hash)
}

/// Whether `entry` is a file that the left tree has, unchanged.
pub open spec fn is_unchanged(state: State, side: int, entry: Entry) -> bool {
    &&& side > 0
    &&& entry.hash matches Some(h)
    &&& !size_mismatch(state.hashes, entry)
    &&& has_twin(state.nodes, state.sides[0], entry.path, h)
}

/// The nodes with `entry` added. If the left tree has the file, unchanged, everything has been
/// said about both.
pub open spec fn nodes_with(state: State, side: int, entry: Entry) -> Seq<NodeView> {
    let unchanged = is_unchanged(state, side, entry);
    let nodes = if unchanged {
        mark_done(state.nodes, state.sides[0].map[entry.path])
    } else {
        state.nodes
    };
    nodes.push(NodeView { path: entry.path, hash: entry.hash, done: unchanged })
}

/// What is known of a hash of which an entry of the given size has been met.
pub open spec fn object_for(hashes: HashesView, hash: Seq<u8>, by: i64) -> ObjectView {
    if hashes.map.contains_key(hash) {
        hashes.map[hash]
    } else {
        ObjectView::fresh(by)
    }
}

/// The hashes with `entry`, which has become the node `id`, added.
pub open spec fn hashes_with(
    hashes: HashesView,
    side: int,
    entry: Entry,
    id: usize,
) -> HashesView {
    let seen = if size_mismatch(hashes, entry) {
        blacklisted(hashes, entry)
    } else {
        hashes
    };
    match entry.hash {
        Some(h) => seen.insert(h, object_for(seen, h, entry.by).push(side, id)),
        None => seen,
    }
}

/// A log while it is read: the state, the files of the log by path, how many of them are
/// ambiguous, what has been said, and why reading stopped, if it did.
#[verifier::ext_equal]
pub struct Reading {
    pub state: State,
    pub files: PathsView,
    pub ambiguous: nat,
    pub events: Seq<EventView>,
    pub error: Option<LineError>,
}

impl Reading {
    /// A log of which nothing has been read yet.
    pub open spec fn start(state: State, ambiguous: nat, events: Seq<EventView>) -> Self {
        Reading { state, files: PathsView::empty(), ambiguous, events, error: None }
    }

    /// The log with `entry` read.
    pub open spec fn enter(self, side: int, entry: Entry) -> Self {
        let id = self.state.nodes.len() as usize;
        let mismatch = size_mismatch(self.state.hashes, entry);
        Reading {
            state: State {
                nodes: nodes_with(self.state, side, entry),
                hashes: hashes_with(self.state.hashes, side, entry, id),
                sides: self.state.sides,
            },
            files: self.files.insert(entry.path, id),
            ambiguous: self.ambiguous + (if mismatch {
                1nat
            } else {
                0
            }),
            events: if mismatch {
                self.events.push(mismatch_warning(side, entry.path))
            } else {
                self.events
            },
            error: None,
        }
    }

    /// The log with `line` read.
    pub open spec fn step(self, side: int, excludes: Seq<Seq<char>>, line: Seq<char>) -> Self {
        let noted = Reading {
            ambiguous: self.ambiguous + line_events(line, side).len(),
            events: self.events + line_events(line, side),
            ..self
        };
        match parse_line(line) {
            Err(e) => Reading { error: Some(e), ..noted },
            Ok(Some(entry)) if !is_excluded(entry.path, excludes) => noted.enter(side, entry),
            _ => noted,
        }
    }

    /// The log with the first `n` of `lines` read. An error ends the reading.
    pub open spec fn steps(
        self,
        side: int,
        excludes: Seq<Seq<char>>,
        lines: Seq<Seq<char>>,
        n: nat,
    ) -> Self
        decreases n,
    {
        if n == 0 {
            self
        } else {
            let before = self.steps(side, excludes, lines, (n - 1) as nat);
            if before.error is Some {
                before
            } else {
                before.step(side, excludes, lines[n - 1])
            }
        }
    }
}

/// A log read to its end, or to its first error, as the next log of `state`.
pub open spec fn read_log(
    state: State,
    ambiguous: nat,
    events: Seq<EventView>,
    excludes: Seq<Seq<char>>,
    lines: Seq<Seq<char>>,
) -> Reading {
    Reading::start(state, ambiguous, events).steps(
        state.sides.len() as int,
        excludes,
        lines,
        lines.len(),
    )
}

/// The state with `log`, which has been read, as its next log.
pub open spec fn with_log(log: Reading) -> State {
    State { sides: log.state.sides.push(log.files), ..log.state }
}

/// A report while it is written: the nodes, what has been said, and why it stopped, if it did.
#[verifier::ext_equal]
pub struct Progress {
    pub nodes: Seq<NodeView>,
    pub events: Seq<EventView>,
    pub error: Option<ReportError>,
}

impl Progress {
    /// A report to which nothing has been added yet.
    pub open spec fn start(nodes: Seq<NodeView>, events: Seq<EventView>) -> Self {
        Progress { nodes, events, error: None }
    }

    /// The report with `op` on the node `id` added. An error ends it.
    pub open spec fn report(self, id: usize, no_prefix: bool, op: FSOp) -> Self {
        if self.error is Some {
            self
        } else {
            match report_error(self.nodes, id, op) {
                Some(e) => Progress { error: Some(e), ..self },
                None => Progress {
                    nodes: report_nodes(self.nodes, id, op),
                    events: self.events + report_events(self.nodes, id, false, no_prefix, op),
                    error: None,
                },
            }
        }
    }
}

/// The first index of `l`, from `from` on, of a node whose key is no smaller than that of `r`; the
/// length of `l` if there is none.
pub open spec fn first_from(
    paths: Seq<Seq<char>>,
    l: Seq<usize>,
    from: int,
    r: usize,
) -> int
    decreases l.len() - from,
{
    if from < l.len() && lex_less(sort_key(paths, l[from]), sort_key(paths, r)) {
        first_from(paths, l, from + 1, r)
    } else {
        from
    }
}

/// Of the nodes before and at the index `k` of `l`, the one whose path has the longer end in common
/// with that of `r`, the second one if it is a tie.
pub open spec fn pick(paths: Seq<Seq<char>>, l: Seq<usize>, k: int, r: usize) -> usize {
    if k <= 0 {
        l[0]
    } else if k >= l.len() {
        l[k - 1]
    } else if best_match(sort_key(paths, r), sort_key(paths, l[k - 1]), sort_key(paths, l[k]))
        == BestPrefixMatch::First {
        l[k - 1]
    } else {
        l[k]
    }
}

/// The node of `l`, which is sorted, that `r` is taken to be copied or moved from.
pub open spec fn source_of(paths: Seq<Seq<char>>, l: Seq<usize>, r: usize) -> usize {
    pick(paths, l, first_from(paths, l, 0, r), r)
}

/// The nodes of `ids` about which not everything has been said.
pub open spec fn not_done(nodes: Seq<NodeView>, ids: Seq<usize>) -> Seq<usize> {
    ids.filter(|id: usize| !nodes[id as int].done)
}

impl Progress {
    /// The report with the first `n` of `rs` added as copied or moved from nodes of `l`.
    pub open spec fn match_all(
        self,
        no_prefix: bool,
        l: Seq<usize>,
        rs: Seq<usize>,
        n: nat,
    ) -> Self
        decreases n,
    {
        if n == 0 {
            self
        } else {
            let before = self.match_all(no_prefix, l, rs, (n - 1) as nat);
            let r = rs[n - 1];
            before.report(r, no_prefix, FSOp::CopyMove { src: source_of(paths(self.nodes), l, r) })
        }
    }

    /// The report with the copies and moves of the files with one hash added. Files whose hash is
    /// marked as one that belongs to files of different sizes, and empty files, are not matched.
    pub open spec fn match_object(self, no_prefix: bool, hash: Seq<u8>, object: ObjectView) -> Self {
        let todo = not_done(self.nodes, object.sides[1]);
        if object.blacklisted || hash == EMPTY_HASH@ || todo.len() == 0 || object.sides[0].len()
            == 0 {
            self
        } else {
            self.match_all(
                no_prefix,
                sorted(paths(self.nodes), object.sides[0]),
                sorted(paths(self.nodes), todo),
                todo.len(),
            )
        }
    }

    /// The report with the copies and moves of the files with the first `n` hashes added.
    pub open spec fn match_objects(self, no_prefix: bool, hashes: HashesView, n: nat) -> Self
        decreases n,
    {
        if n == 0 {
            self
        } else {
            let before = self.match_objects(no_prefix, hashes, (n - 1) as nat);
            let h = hashes.order[n - 1];
            if before.error is Some {
                before
            } else {
                before.match_object(no_prefix, h, hashes.map[h])
            }
        }
    }

    /// The report with what is left to say about the first `n` paths of the left log added.
    pub open spec fn finish_left(self, left: PathsView, right: PathsView, n: nat) -> Self
        decreases n,
    {
        if n == 0 {
            self
        } else {
            let before = self.finish_left(left, right, (n - 1) as nat);
            let path = left.order[n - 1];
            before.report(
                left.map[path],
                false,
                if right.map.contains_key(path) {
                    FSOp::Modify { lhs: right.map[path] }
                } else {
                    FSOp::Delete
                },
            )
        }
    }

    /// The report with what is left to say about the first `n` paths of the right log added.
    pub open spec fn finish_right(self, right: PathsView, n: nat) -> Self
        decreases n,
    {
        if n == 0 {
            self
        } else {
            self.finish_right(right, (n - 1) as nat).report(
                right.map[right.order[n - 1]],
                false,
                FSOp::Create,
            )
        }
    }
}

/// The report of all copies and moves.
pub open spec fn copies_and_moves(
    state: State,
    no_prefix: bool,
    events: Seq<EventView>,
) -> Progress {
    Progress::start(state.nodes, events).match_objects(
        no_prefix,
        state.hashes,
        state.hashes.order.len(),
    )
}

/// The report of all files about which not everything has been said.
pub open spec fn remaining(state: State, events: Seq<EventView>) -> Progress {
    Progress::start(state.nodes, events).finish_left(
        state.sides[0],
        state.sides[1],
        state.sides[0].order.len(),
    ).finish_right(state.sides[1], state.sides[1].order.len())
}

/// The closing warning, which counts the ambiguous files of both logs, if there are any.
pub open spec fn ambiguity_events(left: nat, right: nat) -> Seq<EventView> {
    if left > 0 || right > 0 {
        seq![
            EventView::Warning(
                color::bright_yellow() + "[WARNING] Ambiguous files: < "@ + decimal(left)
                    + ", > "@ + decimal(right) + color::default_color(),
            ),
        ]
    } else {
        seq![]
    }
}

/// Whether `after` has the nodes of `before`, with their paths and hashes, and possibly more.
pub open spec fn extends(before: Seq<NodeView>, after: Seq<NodeView>) -> bool {
    &&& before.len() <= after.len()
    &&& forall|i: int|
        0 <= i < before.len() ==> {
            &&& (#[trigger] after[i]).path == before[i].path
            &&& after[i].hash == before[i].hash
        }
}

/// Paths and hashes still lead to the right nodes when nodes are added or marked.
pub proof fn lemma_extends_wf(before: Seq<NodeView>, after: Seq<NodeView>)
    requires
        extends(before, after),
    ensures
        forall|files: PathsView| #[trigger] files_wf(before, files) ==> files_wf(after, files),
        forall|hashes: HashesView| #[trigger]
            hashes_wf(before, hashes) ==> hashes_wf(after, hashes),
{
    assert forall|hashes: HashesView| #[trigger] hashes_wf(before, hashes) implies hashes_wf(
        after,
        hashes,
    ) by {
        assert forall|h: Seq<u8>| #[trigger] hashes.map.contains_key(h) implies {
            &&& hashes.map[h].sides.len() == 2
            &&& ids_have_hash(after, hashes.map[h].sides[0], h)
            &&& ids_have_hash(after, hashes.map[h].sides[1], h)
        } by {
            assert(ids_have_hash(before, hashes.map[h].sides[0], h));
            assert(ids_have_hash(before, hashes.map[h].sides[1], h));
        }
    }
}

/// Inserting keeps each hash met once.
pub proof fn lemma_hashes_insert_wf(
    nodes: Seq<NodeView>,
    hashes: HashesView,
    hash: Seq<u8>,
    object: ObjectView,
)
    requires
        hashes_wf(nodes, hashes),
        object.sides.len() == 2,
        ids_have_hash(nodes, object.sides[0], hash),
        ids_have_hash(nodes, object.sides[1], hash),
    ensures
        hashes_wf(nodes, hashes.insert(hash, object)),
{
    let after = hashes.insert(hash, object);
    if !hashes.map.contains_key(hash) {
        assert(!hashes.order.contains(hash));
        assert(after.order[hashes.order.len() as int] == hash);
        assert forall|h: Seq<u8>|
            after.map.contains_key(h) <==> #[trigger] after.order.contains(h) by {
            if hashes.order.contains(h) {
                let i = choose|i: int| 0 <= i < hashes.order.len() && hashes.order[i] == h;
                assert(after.order[i] == h);
            }
            if after.order.contains(h) && h != hash {
                let i = choose|i: int| 0 <= i < after.order.len() && after.order[i] == h;
                assert(hashes.order[i] == h);
            }
        }
        assert forall|i: int, j: int|
            0 <= i < after.order.len() && 0 <= j < after.order.len() && i
                != j implies after.order[i] != after.order[j] by {
            if i == hashes.order.len() {
                assert(hashes.order.contains(hashes.order[j]));
            } else if j == hashes.order.len() {
                assert(hashes.order.contains(hashes.order[i]));
            }
        }
    } else {
        assert forall|h: Seq<u8>|
            after.map.contains_key(h) <==> #[trigger] after.order.contains(h) by {
            assert(hashes.map.contains_key(h) <==> hashes.order.contains(h));
        }
    }
    assert forall|h: Seq<u8>| #[trigger] after.map.contains_key(h) implies {
        &&& after.map[h].sides.len() == 2
        &&& ids_have_hash(nodes, after.map[h].sides[0], h)
        &&& ids_have_hash(nodes, after.map[h].sides[1], h)
    } by {
        if h != hash {
            assert(hashes.map.contains_key(h));
        }
    }
}

/// Adding an entry adds one node and keeps the others.
pub proof fn lemma_nodes_with(state: State, side: int, entry: Entry)
    requires
        state.wf(),
        side == state.sides.len(),
    ensures
        nodes_with(state, side, entry).len() == state.nodes.len() + 1,
        extends(state.nodes, nodes_with(state, side, entry)),
        nodes_with(state, side, entry).last().path == entry.path,
        nodes_with(state, side, entry).last().hash == entry.hash,
{
    if is_unchanged(state, side, entry) {
        assert(files_wf(state.nodes, state.sides[0]));
    }
}

/// Adding an entry keeps the state well-formed.
pub proof fn lemma_enter_wf(log: Reading, side: int, entry: Entry)
    requires
        log.state.wf(),
        side == log.state.sides.len() < 2,
        files_wf(log.state.nodes, log.files),
        log.state.nodes.len() <= usize::MAX,
    ensures
        log.enter(side, entry).state.wf(),
        files_wf(log.enter(side, entry).state.nodes, log.enter(side, entry).files),
{
    let after = log.enter(side, entry);
    let nodes = after.state.nodes;
    let id = log.state.nodes.len() as usize;
    lemma_nodes_with(log.state, side, entry);
    lemma_extends_wf(log.state.nodes, nodes);
    assert(nodes[id as int] == nodes.last());
    log.files.lemma_insert_wf(entry.path, id);
    assert(files_wf(nodes, log.files));
    assert(files_wf(nodes, after.files)) by {
        assert forall|p: Seq<char>| #[trigger] after.files.map.contains_key(p) implies {
            &&& after.files.map[p] < nodes.len()
            &&& nodes[after.files.map[p] as int].path == p
        } by {
            if p != entry.path {
                assert(log.files.map.contains_key(p));
            }
        }
    }
    let hashes = log.state.hashes;
    assert(hashes_wf(nodes, hashes));
    let seen = if size_mismatch(hashes, entry) {
        blacklisted(hashes, entry)
    } else {
        hashes
    };
    if size_mismatch(hashes, entry) {
        lemma_hashes_insert_wf(
            nodes,
            hashes,
            entry.hash->0,
            ObjectView { by: (-1) as i64, blacklisted: true, ..hashes.map[entry.hash->0] },
        );
    }
    if let Some(h) = entry.hash {
        let object = object_for(seen, h, entry.by);
        assert(object.sides.len() == 2);
        assert(ids_have_hash(nodes, object.sides[0], h));
        assert(ids_have_hash(nodes, object.sides[1], h));
        let pushed = object.push(side, id);
        assert(ids_have_hash(nodes, pushed.sides[0], h));
        assert(ids_have_hash(nodes, pushed.sides[1], h));
        lemma_hashes_insert_wf(nodes, seen, h, pushed);
    }
    assert forall|s: int| 0 <= s < after.state.sides.len() implies files_wf(
        nodes,
        #[trigger] after.state.sides[s],
    ) by {
        assert(files_wf(log.state.nodes, log.state.sides[s]));
    }
}

/// A search that starts behind nodes that it would have passed ends where it would have ended.
pub proof fn lemma_first_from(paths: Seq<Seq<char>>, l: Seq<usize>, from: int, to: int, r: usize)
    requires
        0 <= from <= to <= l.len(),
        forall|i: int|
            from <= i < to ==> lex_less(sort_key(paths, #[trigger] l[i]), sort_key(paths, r)),
    ensures
        first_from(paths, l, from, r) == first_from(paths, l, to, r),
        to <= first_from(paths, l, to, r) <= l.len(),
        forall|i: int|
            from <= i < first_from(paths, l, to, r) ==> lex_less(
                sort_key(paths, #[trigger] l[i]),
                sort_key(paths, r),
            ),
        first_from(paths, l, to, r) < l.len() ==> !lex_less(
            sort_key(paths, l[first_from(paths, l, to, r)]),
            sort_key(paths, r),
        ),
    decreases l.len() - from,
{
    if from < to {
        lemma_first_from(paths, l, from + 1, to, r);
    } else if from < l.len() && lex_less(sort_key(paths, l[from]), sort_key(paths, r)) {
        lemma_first_from(paths, l, from + 1, from + 1, r);
    }
}

/// A report changes neither paths nor hashes, and takes back nothing that has been said.
pub proof fn lemma_report_nodes(nodes: Seq<NodeView>, id: usize, op: FSOp)
    requires
        id < nodes.len(),
        op_in_bounds(op, nodes.len()),
    ensures
        report_nodes(nodes, id, op).len() == nodes.len(),
        extends(nodes, report_nodes(nodes, id, op)),
        paths(report_nodes(nodes, id, op)) == paths(nodes),
        report_nodes(nodes, id, op)[id as int].done,
        forall|i: int|
            0 <= i < nodes.len() && nodes[i].done ==> (#[trigger] report_nodes(
                nodes,
                id,
                op,
            )[i]).done,
{
    assert(paths(report_nodes(nodes, id, op)) =~= paths(nodes));
}

/// An error ends the reading of a log.
pub proof fn lemma_steps_stop(
    log: Reading,
    side: int,
    excludes: Seq<Seq<char>>,
    lines: Seq<Seq<char>>,
    n: nat,
    m: nat,
)
    requires
        n <= m,
        log.steps(side, excludes, lines, n).error is Some,
    ensures
        log.steps(side, excludes, lines, m) == log.steps(side, excludes, lines, n),
    decreases m - n,
{
    if n < m {
        lemma_steps_stop(log, side, excludes, lines, n, (m - 1) as nat);
    }
}

/// A report with an error is not continued.
pub proof fn lemma_match_all_stop(
    report: Progress,
    no_prefix: bool,
    l: Seq<usize>,
    rs: Seq<usize>,
    n: nat,
    m: nat,
)
    requires
        n <= m,
        report.match_all(no_prefix, l, rs, n).error is Some,
    ensures
        report.match_all(no_prefix, l, rs, m) == report.match_all(no_prefix, l, rs, n),
    decreases m - n,
{
    if n < m {
        lemma_match_all_stop(report, no_prefix, l, rs, n, (m - 1) as nat);
    }
}

/// A report with an error is not continued.
pub proof fn lemma_match_objects_stop(
    report: Progress,
    no_prefix: bool,
    hashes: HashesView,
    n: nat,
    m: nat,
)
    requires
        n <= m,
        report.match_objects(no_prefix, hashes, n).error is Some,
    ensures
        report.match_objects(no_prefix, hashes, m) == report.match_objects(no_prefix, hashes, n),
    decreases m - n,
{
    if n < m {
        lemma_match_objects_stop(report, no_prefix, hashes, n, (m - 1) as nat);
    }
}

/// One more node is reported behind those before it.
pub proof fn lemma_match_all_step(
    report: Progress,
    no_prefix: bool,
    l: Seq<usize>,
    rs: Seq<usize>,
    n: nat,
)
    ensures
        report.match_all(no_prefix, l, rs, n + 1) == report.match_all(no_prefix, l, rs, n).report(
            rs[n as int],
            no_prefix,
            FSOp::CopyMove { src: source_of(paths(report.nodes), l, rs[n as int]) },
        ),
{
}

/// The source of a copy or move is one of the candidates.
pub proof fn lemma_source_of(paths: Seq<Seq<char>>, l: Seq<usize>, r: usize)
    requires
        l.len() > 0,
    ensures
        l.contains(source_of(paths, l, r)),
{
    lemma_first_from(paths, l, 0, 0, r);
    let k = first_from(paths, l, 0, r);
    if k > 0 {
        assert(l.contains(l[k - 1]));
    }
    if k < l.len() {
        assert(l.contains(l[k]));
    }
}

/// What a comparison is asked to do.
#[verifier::ext_equal]
pub struct Request {
    /// Paths that hold one of these are passed over.
    pub exclude: Seq<Seq<char>>,
    /// Whether to tell how long each phase took.
    pub timings: bool,
    /// Whether to name the paths of copies and moves in full.
    pub no_prefix: bool,
}

/// How a comparison ended: the state, what has been said, and why it stopped, if it did.
#[verifier::ext_equal]
pub struct Outcome {
    pub state: State,
    pub events: Seq<EventView>,
    pub error: Option<DiffError>,
}

/// The state and the events behind a log that has been read to its end.
pub open spec fn log_outcome(log: Reading, timings: bool) -> Outcome {
    match log.error {
        Some(e) => Outcome { state: log.state, events: log.events, error: Some(DiffError::Line(e)) },
        None => Outcome {
            state: with_log(log),
            events: log.events + timing_events(timings, "parse_log"@),
            error: None,
        },
    }
}

/// The outcome of the report of two logs, `state` and `events` being what is known and has been
/// said when they have been read.
pub open spec fn report_outcome(
    state: State,
    events: Seq<EventView>,
    timings: bool,
    no_prefix: bool,
) -> Outcome {
    let moved = copies_and_moves(state, no_prefix, events);
    let middle = State { nodes: moved.nodes, ..state };
    match moved.error {
        Some(e) => Outcome {
            state: middle,
            events: moved.events,
            error: Some(DiffError::Report(e)),
        },
        None => {
            let rest = remaining(middle, moved.events + timing_events(timings, "diff_cpmv"@));
            Outcome {
                state: State { nodes: rest.nodes, ..state },
                events: rest.events + timing_events(timings, "diff_remaining"@),
                error: None,
            }
        },
    }
}

/// The outcome of the comparison of two logs.
pub open spec fn diff_outcome(
    state: State,
    events: Seq<EventView>,
    request: Request,
    left: Seq<Seq<char>>,
    right: Seq<Seq<char>>,
) -> Outcome {
    let log_l = read_log(state, 0, events, request.exclude, left);
    let read_l = log_outcome(log_l, request.timings);
    if read_l.error is Some {
        read_l
    } else {
        let log_r = read_log(read_l.state, 0, read_l.events, request.exclude, right);
        let read_r = log_outcome(log_r, request.timings);
        if read_r.error is Some {
            read_r
        } else {
            let told = report_outcome(
                read_r.state,
                read_r.events,
                request.timings,
                request.no_prefix,
            );
            if told.error is Some {
                told
            } else {
                Outcome {
                    events: told.events + ambiguity_events(log_l.ambiguous, log_r.ambiguous),
                    ..told
                }
            }
        }
    }
}

} // verus!
