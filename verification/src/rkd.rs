//! The comparison of two logs.
use vstd::prelude::*;
use vstd::string::*;

use crate::color;
use crate::cursor::VecIterator;
use crate::event::{events_view, lemma_events_push, Event};
use crate::hash::EMPTY_HASH;
use crate::line::{hash_view, line_events, path_warning, LineError, LogLine};
use crate::maps::{MapHashes, MapPaths, Object, ObjectView};
use crate::model::{
    ambiguity_events, blacklisted, copies_and_moves, diff_outcome, extends, files_wf, first_from,
    has_twin, ids_have_hash, is_excluded, lemma_enter_wf, lemma_extends_wf, lemma_first_from,
    lemma_hashes_insert_wf, lemma_match_all_step, lemma_match_all_stop, lemma_match_objects_stop,
    lemma_report_nodes, lemma_steps_stop, log_outcome, mismatch_warning, nodes_with, not_done,
    object_for, pick, read_log, remaining, report_outcome, size_mismatch, source_of, with_log,
    Outcome, Progress, Reading, Request, State,
};
use crate::node::{nodes_view, paths, FSNode, NodeView};
use crate::order::{
    best_prefix_match, lemma_lex_total, lemma_lex_transitive, lex_less, rev_less, reversed_bytes,
    BestPrefixMatch,
};
use crate::report::{mark_done, op_in_bounds, FSOp, ReportError};
use crate::sort::{in_bounds, is_sorted, lemma_sorted, sort_key, sort_revpath};
use crate::text::{contains, contains_text, decimal_string};
use crate::timer::{timing_events, ScopeTimer};

verus! {

/// Whether lines are left out of the report.
pub const DISABLE_OUTPUT: bool = false;

/// A comparison of two logs.
pub struct RKD {
    /// All files met so far.
    pub nodes: Vec<FSNode>,
    /// The files of each log by path.
    pub sides: Vec<MapPaths>,
    /// The files of both logs by hash.
    pub hashes: MapHashes,
}

impl View for RKD {
    type V = State;

    open spec fn view(&self) -> State {
        State {
            nodes: nodes_view(self.nodes@),
            sides: self.sides@.map_values(|m: MapPaths| m@),
            hashes: self.hashes@,
        }
    }
}

proof fn lemma_object_update(before: MapHashes, after: MapHashes, slot: int, object: Object)
    requires
        before.wf(),
        0 <= slot < before.order@.len(),
        after.order == before.order,
        after.index == before.index,
        after.objects@ == before.objects@.update(slot, object),
    ensures
        after.wf(),
        after@ == before@.insert(before.order@[slot]@, object@),
{
    let h = before.order@[slot]@;
    assert(before@.map.contains_key(h)) by {
        assert(before.index@.contains_key(crate::maps::hash_key(h)));
    }
    assert(after@.map =~= before@.map.insert(h, object@)) by {
        assert forall|k: Seq<u8>| #[trigger] after@.map.contains_key(k) implies after@.map[k]
            == before@.map.insert(h, object@)[k] by {
            if k != h {
                let i = before.index@[crate::maps::hash_key(k)] as int;
                if i == slot {
                    crate::hash::lemma_big_endian_key(k);
                    crate::hash::lemma_big_endian_key(h);
                    crate::hash::lemma_big_endian_injective(k, h);
                }
            }
        }
    }
}

proof fn lemma_object_insert(
    before: MapHashes,
    after: MapHashes,
    hash: crate::hash::Hash,
    object: Object,
)
    requires
        before.wf(),
        !before@.map.contains_key(hash@),
        before.order@.len() <= usize::MAX,
        after.order@ == before.order@.push(hash),
        after.objects@ == before.objects@.push(object),
        after.index@ == before.index@.insert(
            crate::maps::hash_key(hash@),
            before.order@.len() as usize,
        ),
    ensures
        after.wf(),
        after@ == before@.insert(hash@, object@),
{
    let key = crate::maps::hash_key(hash@);
    assert(!before.index@.contains_key(key));
    assert(after.wf());
    assert(after@.order =~= before@.order.push(hash@));
    assert(after@.map =~= before@.map.insert(hash@, object@)) by {
        assert forall|k: Seq<u8>|
            after@.map.contains_key(k) <==> #[trigger] before@.map.insert(
                hash@,
                object@,
            ).contains_key(k) by {
            if after@.map.contains_key(k) && crate::maps::hash_key(k) == key {
                crate::hash::lemma_big_endian_key(k);
                crate::hash::lemma_big_endian_key(hash@);
                crate::hash::lemma_big_endian_injective(k, hash@);
            }
        }
        assert forall|k: Seq<u8>| #[trigger] after@.map.contains_key(k) implies after@.map[k]
            == before@.map.insert(hash@, object@)[k] by {
            if k != hash@ {
                assert(before@.map.insert(hash@, object@).contains_key(k));
                assert(before.index@.contains_key(crate::maps::hash_key(k)));
            }
        }
    }
}

/// The next log of `rkd` while it is read, no error having been met.
pub open spec fn reading(rkd: RKD, files: MapPaths, ambiguous: usize, out: Vec<Event>) -> Reading {
    Reading {
        state: rkd@,
        files: files@,
        ambiguous: ambiguous as nat,
        events: events_view(out@),
        error: None,
    }
}

impl RKD {
    /// Paths and hashes lead to the nodes that have them.
    pub open spec fn wf(self) -> bool {
        self.hashes.wf() && self@.wf()
    }

    /// A comparison for which no log has been read.
    pub fn new() -> (res: Self)
        ensures
            res.wf(),
            res@ == State::empty(),
    {
        let res = RKD { nodes: Vec::new(), sides: Vec::new(), hashes: MapHashes::new() };
        assert(res@ =~= State::empty());
        assert(res@.wf());
        res
    }

    /// Gives what is known of `hash`, to be changed. A hash that is met for the first time belongs
    /// to files of the size `by`.
    pub fn insert_hash_entry<'a>(
        hashes: &'a mut MapHashes,
        hash: &crate::hash::Hash,
        by: i64,
    ) -> (res: &'a mut Object)
        requires
            old(hashes).wf(),
        ensures
            (*res)@ == object_for(old(hashes)@, hash@, by),
            final(hashes).wf(),
            final(hashes)@ == old(hashes)@.insert(hash@, (*final(res))@),
    {
        let ghost before = *hashes;
        let slot = match hashes.slot(hash) {
            Some(slot) => {
                assert(before@.insert(hash@, before@.map[hash@]) =~= before@);
                slot
            },
            None => {
                let slot = hashes.order.len();
                let object = Object::new(by);
                hashes.index.insert(hash.key(), slot);
                hashes.order.push(*hash);
                hashes.objects.push(object);
                proof {
                    lemma_object_insert(before, *hashes, *hash, object);
                }
                slot
            },
        };
        let ghost middle = *hashes;
        proof {
            assert forall|after: MapHashes, object: Object|
                #![trigger after.objects@, middle.objects@.update(slot as int, object)]
                after.order == middle.order && after.index == middle.index && after.objects@
                    == middle.objects@.update(slot as int, object) implies after.wf() && after@
                == before@.insert(hash@, object@) by {
                lemma_object_update(middle, after, slot as int, object);
                assert(after@ =~= before@.insert(hash@, object@));
            }
        }
        hashes.object_mut(slot)
    }

    /// Checks whether the hash of an entry of the next log is known to belong to files of another
    /// size. If so, the entry is counted as ambiguous and warned about, and the hash is marked.
    pub fn blacklist_size_mismatch(
        &mut self,
        parsed: &LogLine,
        ambiguous_file_count: &mut usize,
        out: &mut Vec<Event>,
    ) -> (res: bool)
        requires
            old(self).wf(),
            size_mismatch(old(self)@.hashes, parsed@) ==> *old(ambiguous_file_count) < usize::MAX,
        ensures
            res == size_mismatch(old(self)@.hashes, parsed@),
            final(self).hashes.wf(),
            final(self).nodes == old(self).nodes,
            final(self).sides == old(self).sides,
            final(self)@.hashes == (if res {
                blacklisted(old(self)@.hashes, parsed@)
            } else {
                old(self)@.hashes
            }),
            *final(ambiguous_file_count) == *old(ambiguous_file_count) + (if res {
                1int
            } else {
                0
            }),
            events_view(final(out)@) == (if res {
                events_view(old(out)@).push(
                    mismatch_warning(old(self)@.sides.len() as int, parsed@.path),
                )
            } else {
                events_view(old(out)@)
            }),
    {
        if let Some(hash) = parsed.hash {
            if let Some(slot) = self.hashes.slot(&hash) {
                if self.hashes.objects[slot].by != parsed.by {
                    let warning = path_warning(
                        "[WARNING] File-size mismatch [",
                        self.sides.len(),
                        parsed.path.as_str(),
                    );
                    proof {
                        lemma_events_push(out@, warning);
                    }
                    out.push(warning);
                    *ambiguous_file_count = *ambiguous_file_count + 1;
                    let ghost before = self.hashes;
                    self.hashes.objects[slot].by = -1;
                    self.hashes.objects[slot].blacklisted = true;
                    proof {
                        let object = self.hashes.objects@[slot as int];
                        assert(self.hashes.objects@ =~= before.objects@.update(slot as int, object));
                        lemma_object_update(before, self.hashes, slot as int, object);
                    }
                    return true;
                }
            }
        }
        false
    }

    /// Makes the node for an entry of the log `side`. If matching is allowed and the left tree has
    /// the file, unchanged, everything has been said about both.
    pub fn make_node(
        &mut self,
        side: usize,
        path: String,
        hash: Option<crate::hash::Hash>,
        allow_match: bool,
    ) -> (res: FSNode)
        requires
            old(self).wf(),
            allow_match && side > 0 && hash is Some ==> old(self)@.sides.len() > 0,
        ensures
            final(self).sides == old(self).sides,
            final(self).hashes == old(self).hashes,
            ({
                let matched = allow_match && side > 0 && hash is Some && has_twin(
                    old(self)@.nodes,
                    old(self)@.sides[0],
                    path@,
                    hash->0@,
                );
                &&& res@ == (NodeView { path: path@, hash: hash_view(hash), done: matched })
                &&& final(self)@.nodes == (if matched {
                    mark_done(old(self)@.nodes, old(self)@.sides[0].map[path@])
                } else {
                    old(self)@.nodes
                })
            }),
    {
        if allow_match && side > 0 {
            if let Some(hash) = hash {
                assert(files_wf(self@.nodes, self@.sides[0]));
                return FSNode::clone_or_new(&mut self.nodes, path, hash, &self.sides[0]);
            }
        }
        FSNode::new(path, hash)
    }

    /// Adds an entry of the next log, which is not excluded.
    fn enter(
        &mut self,
        files: &mut MapPaths,
        parsed: LogLine,
        ambiguous_file_count: &mut usize,
        out: &mut Vec<Event>,
    )
        requires
            old(self).wf(),
            old(self)@.sides.len() < 2,
            files_wf(old(self)@.nodes, old(files)@),
            size_mismatch(old(self)@.hashes, parsed@) ==> *old(ambiguous_file_count) < usize::MAX,
        ensures
            final(self).wf(),
            files_wf(final(self)@.nodes, final(files)@),
            final(self).sides == old(self).sides,
            reading(*final(self), *final(files), *final(ambiguous_file_count), *final(out))
                == reading(*old(self), *old(files), *old(ambiguous_file_count), *old(out)).enter(
                old(self)@.sides.len() as int,
                parsed@,
            ),
    {
        let side = self.sides.len();
        let ghost log = reading(*self, *files, *ambiguous_file_count, *out);
        let id = self.nodes.len();
        proof {
            lemma_enter_wf(log, side as int, parsed@);
        }
        let should_prematch = !self.blacklist_size_mismatch(&parsed, ambiguous_file_count, out);
        let ghost middle = self@;
        assert(middle.wf()) by {
            if !should_prematch {
                lemma_hashes_insert_wf(
                    middle.nodes,
                    log.state.hashes,
                    parsed@.hash->0,
                    ObjectView {
                        by: (-1) as i64,
                        blacklisted: true,
                        ..log.state.hashes.map[parsed@.hash->0]
                    },
                );
            }
        }
        let node = self.make_node(side, parsed.path.clone(), parsed.hash, should_prematch);
        let ghost marked = self@.nodes;
        self.nodes.push(node);
        assert(self@.nodes =~= marked.push(node@));
        assert(self@.nodes =~= nodes_with(log.state, side as int, parsed@));
        if let Some(hash) = parsed.hash {
            RKD::insert_hash_entry(&mut self.hashes, &hash, parsed.by).push(side, id);
        }
        files.insert(&parsed.path, id);
        assert(reading(*self, *files, *ambiguous_file_count, *out) =~= log.enter(
            side as int,
            parsed@,
        ));
    }
}

/// The contents of a list of strings.
pub open spec fn strings_view(strings: Seq<String>) -> Seq<Seq<char>> {
    strings.map_values(|s: String| s@)
}

/// A report that is being written, no error having been met.
pub open spec fn progress(nodes: Vec<FSNode>, out: Vec<Event>) -> Progress {
    Progress { nodes: nodes_view(nodes@), events: events_view(out@), error: None }
}

/// Tells whether `path` holds one of `excludes`.
fn excluded(path: &str, excludes: &Vec<String>) -> (res: bool)
    ensures
        res == is_excluded(path@, strings_view(excludes@)),
{
    let mut i: usize = 0;
    while i < excludes.len()
        invariant
            i <= excludes@.len(),
            forall|j: int|
                0 <= j < i ==> !contains_text(path@, #[trigger] strings_view(excludes@)[j]),
        decreases excludes@.len() - i,
    {
        assert(strings_view(excludes@)[i as int] == excludes@[i as int]@);
        if contains(path, excludes[i].as_str()) {
            return true;
        }
        i = i + 1;
    }
    false
}

/// The nodes of `ids` about which not everything has been said.
fn not_done_ids(nodes: &Vec<FSNode>, ids: &Vec<usize>) -> (res: Vec<usize>)
    requires
        in_bounds(ids@, nodes@.len()),
    ensures
        res@ == not_done(nodes_view(nodes@), ids@),
        in_bounds(res@, nodes@.len()),
{
    let ghost pred = |id: usize| !nodes_view(nodes@)[id as int].done;
    let mut res: Vec<usize> = Vec::new();
    let mut i: usize = 0;
    assert(ids@.take(0).filter(pred) =~= Seq::<usize>::empty()) by {
        reveal(Seq::filter);
    }
    while i < ids.len()
        invariant
            pred == (|id: usize| !nodes_view(nodes@)[id as int].done),
            i <= ids@.len(),
            in_bounds(ids@, nodes@.len()),
            in_bounds(res@, nodes@.len()),
            res@ == ids@.take(i as int).filter(pred),
        decreases ids@.len() - i,
    {
        let id = ids[i];
        assert(nodes_view(nodes@)[id as int] == nodes@[id as int]@);
        proof {
            reveal(Seq::filter);
            assert(ids@.take(i + 1).drop_last() =~= ids@.take(i as int));
        }
        if !nodes[id].is_done() {
            res.push(id);
        }
        i = i + 1;
    }
    assert(ids@.take(i as int) =~= ids@);
    res
}

impl RKD {
    /// Reads the next log. Lines of which the path holds one of `excludes` are passed over.
    pub fn parse_side(
        &mut self,
        log: &Vec<String>,
        excludes: &Vec<String>,
        timings: bool,
        ambiguous_file_count: &mut usize,
        out: &mut Vec<Event>,
    ) -> (res: Result<(), LineError>)
        requires
            old(self).wf(),
            old(self)@.sides.len() < 2,
            *old(ambiguous_file_count) + log@.len() <= usize::MAX,
        ensures
            final(self).wf(),
            ({
                let read = read_log(
                    old(self)@,
                    *old(ambiguous_file_count) as nat,
                    events_view(old(out)@),
                    strings_view(excludes@),
                    strings_view(log@),
                );
                &&& *final(ambiguous_file_count) == read.ambiguous
                &&& match res {
                    Ok(()) => {
                        &&& read.error is None
                        &&& final(self)@ == with_log(read)
                        &&& events_view(final(out)@) == read.events + timing_events(
                            timings,
                            "parse_log"@,
                        )
                    },
                    Err(e) => {
                        &&& read.error == Some(e)
                        &&& final(self)@ == read.state
                        &&& events_view(final(out)@) == read.events
                    },
                }
            }),
            *final(ambiguous_file_count) <= *old(ambiguous_file_count) + log@.len(),
            res is Ok ==> final(self)@.sides.len() == old(self)@.sides.len() + 1,
    {
        let timer = ScopeTimer::new(timings, "parse_log");
        let side = self.sides.len();
        let ghost (lines, parts) = (strings_view(log@), strings_view(excludes@));
        let ghost count = *ambiguous_file_count;
        let ghost start = Reading::start(self@, count as nat, events_view(out@));
        let mut files = MapPaths::new();
        let mut i: usize = 0;
        proof {
            assert(files_wf(self@.nodes, files@));
        }
        while i < log.len()
            invariant
                self.wf(),
                self.sides == old(self).sides,
                side == self@.sides.len() < 2,
                files_wf(self@.nodes, files@),
                lines == strings_view(log@),
                parts == strings_view(excludes@),
                count == *old(ambiguous_file_count),
                start == Reading::start(old(self)@, count as nat, events_view(old(out)@)),
                count + log@.len() <= usize::MAX,
                i <= log@.len(),
                *ambiguous_file_count <= count + i,
                reading(*self, files, *ambiguous_file_count, *out) == start.steps(
                    side as int,
                    parts,
                    lines,
                    i as nat,
                ),
            decreases log@.len() - i,
        {
            let ghost before = reading(*self, files, *ambiguous_file_count, *out);
            let ghost line = lines[i as int];
            assert(line == log@[i as int]@);
            let ghost noted = Reading {
                ambiguous: before.ambiguous + line_events(line, side as int).len(),
                events: before.events + line_events(line, side as int),
                ..before
            };
            let parsed = match LogLine::parse(
                log[i].as_str(),
                ambiguous_file_count,
                side,
                out,
            ) {
                Err(e) => {
                    proof {
                        lemma_steps_stop(start, side as int, parts, lines, (i + 1) as nat, lines.len());
                    }
                    return Err(e);
                },
                Ok(parsed) => parsed,
            };
            assert(reading(*self, files, *ambiguous_file_count, *out) =~= noted);
            if let Some(parsed) = parsed {
                if !excluded(parsed.path.as_str(), excludes) {
                    self.enter(&mut files, parsed, ambiguous_file_count, out);
                }
            }
            i = i + 1;
        }
        let ghost read = reading(*self, files, *ambiguous_file_count, *out);
        self.sides.push(files);
        assert(self@.sides =~= read.state.sides.push(files@));
        assert(self@ =~= with_log(read));
        assert(self@.wf());
        timer.finish(out);
        assert(events_view(out@) =~= read.events + timing_events(timings, "parse_log"@));
        Ok(())
    }

    /// Moves the cursor `it_l`, which stands on a sorted list, to the first node whose path does not
    /// stand before that of `node_r`. Of that node and the one before it, gives the one whose path
    /// has the longer end in common with that of `node_r`.
    pub fn match_right(nodes: &Vec<FSNode>, it_l: &mut VecIterator<usize>, node_r: usize) -> (res:
        usize)
        requires
            in_bounds(old(it_l).items(), nodes@.len()),
            old(it_l).items().len() > 0,
            old(it_l).position() <= old(it_l).items().len(),
            node_r < nodes@.len(),
        ensures
            final(it_l).items() == old(it_l).items(),
            final(it_l).position() == first_from(
                paths(nodes_view(nodes@)),
                old(it_l).items(),
                old(it_l).position() as int,
                node_r,
            ),
            res == pick(
                paths(nodes_view(nodes@)),
                old(it_l).items(),
                final(it_l).position() as int,
                node_r,
            ),
            final(it_l).position() <= old(it_l).items().len(),
            res < nodes@.len(),
    {
        let ghost p = paths(nodes_view(nodes@));
        let ghost l = it_l.items();
        let ghost from = it_l.position() as int;
        loop
            invariant
                p == paths(nodes_view(nodes@)),
                l == it_l.items(),
                in_bounds(l, nodes@.len()),
                node_r < nodes@.len(),
                from <= it_l.position() <= l.len(),
                first_from(p, l, from, node_r) == first_from(
                    p,
                    l,
                    it_l.position() as int,
                    node_r,
                ),
            ensures
                l == it_l.items(),
                from <= it_l.position() <= l.len(),
                first_from(p, l, from, node_r) == it_l.position(),
            decreases l.len() - it_l.position(),
        {
            match it_l.curr() {
                None => {
                    break;
                },
                Some(node_l) => {
                    if !rev_less(nodes[*node_l].path.as_str(), nodes[node_r].path.as_str()) {
                        break;
                    }
                    it_l.advance();
                },
            }
        }
        let prev = it_l.prev();
        let curr = it_l.curr();
        match (prev, curr) {
            (Some(pu), Some(cu)) => {
                let best = best_prefix_match(
                    reversed_bytes(nodes[node_r].path.as_str()).as_slice(),
                    reversed_bytes(nodes[*pu].path.as_str()).as_slice(),
                    reversed_bytes(nodes[*cu].path.as_str()).as_slice(),
                );
                match best {
                    BestPrefixMatch::First => *pu,
                    _ => *cu,
                }
            },
            (Some(pu), None) => *pu,
            (None, Some(cu)) => *cu,
            // A list that is not empty has a node at the cursor or before it.
            (None, None) => 0,
        }
    }
}

/// A cursor that has passed the nodes of `l` that stand before one node of `rs` would also have
/// passed them for the next.
proof fn lemma_cursor(p: Seq<Seq<char>>, l: Seq<usize>, rs: Seq<usize>, i: int, position: int)
    requires
        is_sorted(p, rs),
        0 <= i < rs.len(),
        0 <= position <= l.len(),
        i == 0 ==> position == 0,
        i > 0 ==> forall|j: int|
            0 <= j < position ==> lex_less(sort_key(p, #[trigger] l[j]), sort_key(p, rs[i - 1])),
    ensures
        first_from(p, l, position, rs[i]) == first_from(p, l, 0, rs[i]),
        forall|j: int|
            0 <= j < first_from(p, l, position, rs[i]) ==> lex_less(
                sort_key(p, #[trigger] l[j]),
                sort_key(p, rs[i]),
            ),
{
    assert forall|j: int| 0 <= j < position implies lex_less(
        sort_key(p, #[trigger] l[j]),
        sort_key(p, rs[i]),
    ) by {
        let (a, b, c) = (sort_key(p, l[j]), sort_key(p, rs[i - 1]), sort_key(p, rs[i]));
        lemma_lex_total(a, b);
        lemma_lex_transitive(a, b, c);
    }
    lemma_first_from(p, l, 0, position, rs[i]);
}

/// Reports the nodes `paths_r` as copied or moved from nodes of `paths_l`. Both lists are sorted.
fn match_all(
    nodes: &mut Vec<FSNode>,
    paths_l: &Vec<usize>,
    paths_r: &Vec<usize>,
    no_prefix: bool,
    out: &mut Vec<Event>,
) -> (res: Result<(), ReportError>)
    requires
        paths_l@.len() > 0,
        in_bounds(paths_l@, old(nodes)@.len()),
        in_bounds(paths_r@, old(nodes)@.len()),
        is_sorted(paths(nodes_view(old(nodes)@)), paths_r@),
    ensures
        ({
            let after = progress(*old(nodes), *old(out)).match_all(
                no_prefix,
                paths_l@,
                paths_r@,
                paths_r@.len(),
            );
            &&& nodes_view(final(nodes)@) == after.nodes
            &&& events_view(final(out)@) == after.events
            &&& match res {
                Ok(()) => after.error is None,
                Err(e) => after.error == Some(e),
            }
        }),
        extends(nodes_view(old(nodes)@), nodes_view(final(nodes)@)),
        final(nodes)@.len() == old(nodes)@.len(),
{
    let ghost start = progress(*nodes, *out);
    let ghost p = paths(start.nodes);
    let ghost (l, rs) = (paths_l@, paths_r@);
    let mut it_l = VecIterator::new(paths_l.as_slice());
    let mut i: usize = 0;
    while i < paths_r.len()
        invariant
            start == progress(*old(nodes), *old(out)),
            p == paths(start.nodes),
            p == paths(nodes_view(nodes@)),
            nodes@.len() == old(nodes)@.len(),
            extends(start.nodes, nodes_view(nodes@)),
            rs == paths_r@,
            l == paths_l@,
            l == it_l.items(),
            l.len() > 0,
            in_bounds(l, nodes@.len()),
            in_bounds(rs, nodes@.len()),
            is_sorted(p, rs),
            i <= rs.len(),
            it_l.position() <= l.len(),
            i == 0 ==> it_l.position() == 0,
            i > 0 ==> forall|j: int|
                0 <= j < it_l.position() ==> lex_less(
                    sort_key(p, #[trigger] l[j]),
                    sort_key(p, rs[i - 1]),
                ),
            progress(*nodes, *out) == start.match_all(no_prefix, l, rs, i as nat),
        decreases rs.len() - i,
    {
        let node_r = paths_r[i];
        proof {
            lemma_cursor(p, l, rs, i as int, it_l.position() as int);
        }
        let node_l = RKD::match_right(nodes, &mut it_l, node_r);
        assert(node_l == source_of(p, l, node_r));
        let ghost before = progress(*nodes, *out);
        let op = FSOp::CopyMove { src: node_l };
        proof {
            lemma_report_nodes(before.nodes, node_r, op);
            lemma_match_all_step(start, no_prefix, l, rs, i as nat);
        }
        match FSNode::report(nodes, node_r, DISABLE_OUTPUT, no_prefix, &op, out) {
            Err(e) => {
                proof {
                    lemma_match_all_stop(start, no_prefix, l, rs, (i + 1) as nat, rs.len());
                }
                return Err(e);
            },
            Ok(()) => {},
        }
        assert(progress(*nodes, *out) =~= before.report(node_r, no_prefix, op));
        i = i + 1;
    }
    Ok(())
}

/// Reports the files of the right tree that have the contents of `object`, and about which not
/// everything has been said, as copied or moved from files of the left tree, unless the hash is
/// marked as one that belongs to files of different sizes.
fn match_object(
    nodes: &mut Vec<FSNode>,
    hash: &crate::hash::Hash,
    object: &Object,
    no_prefix: bool,
    out: &mut Vec<Event>,
) -> (res: Result<(), ReportError>)
    requires
        in_bounds(object@.sides[0], old(nodes)@.len()),
        in_bounds(object@.sides[1], old(nodes)@.len()),
    ensures
        ({
            let after = progress(*old(nodes), *old(out)).match_object(no_prefix, hash@, object@);
            &&& nodes_view(final(nodes)@) == after.nodes
            &&& events_view(final(out)@) == after.events
            &&& match res {
                Ok(()) => after.error is None,
                Err(e) => after.error == Some(e),
            }
        }),
        extends(nodes_view(old(nodes)@), nodes_view(final(nodes)@)),
        final(nodes)@.len() == old(nodes)@.len(),
{
    let ghost start = progress(*nodes, *out);
    let ghost p = paths(nodes_view(nodes@));
    let ghost len = nodes@.len();
    assert(object@.sides[0] == object.sides@[0].paths@);
    assert(object@.sides[1] == object.sides@[1].paths@);
    if object.blacklisted || *hash == (crate::hash::Hash { bytes: EMPTY_HASH }) {
        return Ok(());
    }
    let mut paths_r = not_done_ids(nodes, &object.sides[1].paths);
    if paths_r.len() == 0 {
        return Ok(());
    }
    let mut paths_l = object.sides[0].paths.clone();
    assert(paths_l@ =~= object@.sides[0]);
    if paths_l.len() == 0 {
        return Ok(());
    }
    let ghost (left, todo) = (paths_l@, paths_r@);
    sort_revpath(nodes, &mut paths_r);
    sort_revpath(nodes, &mut paths_l);
    proof {
        lemma_sorted(p, left);
        lemma_sorted(p, todo);
        assert(in_bounds(paths_l@, len));
        assert(in_bounds(paths_r@, len));
    }
    match_all(nodes, &paths_l, &paths_r, no_prefix, out)
}

impl RKD {
    /// Reports all copies and moves: the files of the right tree that hold what files of the left
    /// tree hold, except for empty ones and those whose hash belongs to files of different sizes.
    pub fn diff_cpmv(
        &mut self,
        timings: bool,
        no_prefix: bool,
        out: &mut Vec<Event>,
    ) -> (res: Result<(), ReportError>)
        requires
            old(self).wf(),
        ensures
            final(self).wf(),
            ({
                let report = copies_and_moves(old(self)@, no_prefix, events_view(old(out)@));
                &&& final(self)@ == (State { nodes: report.nodes, ..old(self)@ })
                &&& match res {
                    Ok(()) => {
                        &&& report.error is None
                        &&& events_view(final(out)@) == report.events + timing_events(
                            timings,
                            "diff_cpmv"@,
                        )
                    },
                    Err(e) => {
                        &&& report.error == Some(e)
                        &&& events_view(final(out)@) == report.events
                    },
                }
            }),
    {
        let timer = ScopeTimer::new(timings, "diff_cpmv");
        let ghost start = Progress::start(self@.nodes, events_view(out@));
        let ghost hashes = self@.hashes;
        let mut i: usize = 0;
        while i < self.hashes.order.len()
            invariant
                self.wf(),
                self.hashes == old(self).hashes,
                self.sides == old(self).sides,
                hashes == self@.hashes,
                start == Progress::start(old(self)@.nodes, events_view(old(out)@)),
                i <= hashes.order.len(),
                progress(self.nodes, *out) == start.match_objects(no_prefix, hashes, i as nat),
            decreases hashes.order.len() - i,
        {
            let hash = self.hashes.order[i];
            let ghost before = progress(self.nodes, *out);
            let ghost state = self@;
            let ghost object = self.hashes.objects@[i as int];
            proof {
                assert(hashes.order[i as int] == hash@);
                assert(hashes.order.contains(hash@));
                assert(hashes.map.contains_key(hash@));
                assert(hashes.map[hash@] == object@) by {
                    assert(self.hashes.order@[i as int]@ == hash@);
                }
                assert(ids_have_hash(state.nodes, object@.sides[0], hash@));
                assert(ids_have_hash(state.nodes, object@.sides[1], hash@));
            }
            let matched = match_object(
                &mut self.nodes,
                &hash,
                &self.hashes.objects[i],
                no_prefix,
                out,
            );
            proof {
                lemma_extends_wf(state.nodes, self@.nodes);
                assert forall|s: int| 0 <= s < self@.sides.len() implies files_wf(
                    self@.nodes,
                    #[trigger] self@.sides[s],
                ) by {
                    assert(files_wf(state.nodes, state.sides[s]));
                }
            }
            match matched {
                Err(e) => {
                    proof {
                        lemma_match_objects_stop(
                            start,
                            no_prefix,
                            hashes,
                            (i + 1) as nat,
                            hashes.order.len(),
                        );
                    }
                    return Err(e);
                },
                Ok(()) => {},
            }
            assert(progress(self.nodes, *out) =~= before.match_object(no_prefix, hash@, object@));
            i = i + 1;
        }
        let ghost events = events_view(out@);
        timer.finish(out);
        assert(events_view(out@) =~= events + timing_events(timings, "diff_cpmv"@));
        Ok(())
    }
}

impl RKD {
    /// Reports all files about which not everything has been said: those that only one of the trees
    /// has, and those whose contents differ.
    pub fn diff_remaining(&mut self, timings: bool, out: &mut Vec<Event>)
        requires
            old(self).wf(),
            old(self)@.sides.len() == 2,
        ensures
            final(self).wf(),
            ({
                let report = remaining(old(self)@, events_view(old(out)@));
                &&& final(self)@ == (State { nodes: report.nodes, ..old(self)@ })
                &&& report.error is None
                &&& events_view(final(out)@) == report.events + timing_events(
                    timings,
                    "diff_remaining"@,
                )
            }),
    {
        let timer = ScopeTimer::new(timings, "diff_remaining");
        let ghost start = Progress::start(self@.nodes, events_view(out@));
        let ghost (left, right) = (self@.sides[0], self@.sides[1]);
        let mut i: usize = 0;
        while i < self.sides[0].order.len()
            invariant
                self.wf(),
                self.hashes == old(self).hashes,
                self.sides == old(self).sides,
                self@.sides.len() == 2,
                left == self@.sides[0],
                right == self@.sides[1],
                i <= left.order.len(),
                progress(self.nodes, *out) == start.finish_left(left, right, i as nat),
            decreases left.order.len() - i,
        {
            let ghost before = progress(self.nodes, *out);
            let ghost path = left.order[i as int];
            proof {
                assert(path == self.sides@[0].order@[i as int]@);
                assert(left.order.contains(path));
                assert(files_wf(before.nodes, left) && files_wf(before.nodes, right));
            }
            let name = self.sides[0].order[i].as_str();
            if let Some(node_l) = self.sides[0].get(name) {
                let op = match self.sides[1].get(name) {
                    None => FSOp::Delete,
                    Some(node_r) => FSOp::Modify { lhs: node_r },
                };
                self.report(node_l, &op, out);
                assert(progress(self.nodes, *out) == before.report(node_l, false, op));
            }
            i = i + 1;
        }
        let ghost middle = progress(self.nodes, *out);
        let mut j: usize = 0;
        while j < self.sides[1].order.len()
            invariant
                self.wf(),
                self.hashes == old(self).hashes,
                self.sides == old(self).sides,
                self@.sides.len() == 2,
                right == self@.sides[1],
                j <= right.order.len(),
                progress(self.nodes, *out) == middle.finish_right(right, j as nat),
            decreases right.order.len() - j,
        {
            let ghost before = progress(self.nodes, *out);
            let ghost path = right.order[j as int];
            proof {
                assert(path == self.sides@[1].order@[j as int]@);
                assert(right.order.contains(path));
                assert(files_wf(before.nodes, right));
            }
            let name = self.sides[1].order[j].as_str();
            if let Some(node_r) = self.sides[1].get(name) {
                self.report(node_r, &FSOp::Create, out);
            }
            j = j + 1;
        }
        let ghost events = events_view(out@);
        timer.finish(out);
        assert(events_view(out@) =~= events + timing_events(timings, "diff_remaining"@));
    }

    /// Reports what happened to the node `id`, other than a copy or move.
    fn report(&mut self, id: usize, op: &FSOp, out: &mut Vec<Event>)
        requires
            old(self).wf(),
            id < old(self)@.nodes.len(),
            op_in_bounds(*op, old(self)@.nodes.len()),
            !(*op is CopyMove),
        ensures
            final(self).wf(),
            final(self).hashes == old(self).hashes,
            final(self).sides == old(self).sides,
            progress(final(self).nodes, *final(out)) == progress(
                old(self).nodes,
                *old(out),
            ).report(id, false, *op),
    {
        let ghost before = self@;
        let ghost start = progress(self.nodes, *out);
        proof {
            lemma_report_nodes(before.nodes, id, *op);
        }
        let _ = FSNode::report(&mut self.nodes, id, DISABLE_OUTPUT, false, op, out);
        proof {
            lemma_extends_wf(before.nodes, self@.nodes);
            assert forall|s: int| 0 <= s < self@.sides.len() implies files_wf(
                self@.nodes,
                #[trigger] self@.sides[s],
            ) by {
                assert(files_wf(before.nodes, before.sides[s]));
            }
        }
        assert(progress(self.nodes, *out) =~= start.report(id, false, *op));
    }
}

/// What a comparison is asked to do.
#[derive(Debug)]
pub struct Options {
    /// Paths that hold one of these are passed over.
    pub exclude: Vec<String>,
    /// Whether to tell how long each phase took.
    pub timings: bool,
    /// Whether to name the paths of copies and moves in full.
    pub no_prefix: bool,
}

impl View for Options {
    type V = Request;

    open spec fn view(&self) -> Request {
        Request {
            exclude: strings_view(self.exclude@),
            timings: self.timings,
            no_prefix: self.no_prefix,
        }
    }
}

/// Why a comparison cannot be carried out.
#[derive(Clone, Copy, Debug, PartialEq, Eq, Structural)]
pub enum DiffError {
    /// One of the logs holds a line that cannot be read.
    Line(LineError),
    /// A copy or move cannot be reported.
    Report(ReportError),
}

/// Builds the closing warning, which counts the ambiguous files of both logs.
fn ambiguity_warning(left: usize, right: usize) -> (res: Event)
    requires
        left > 0 || right > 0,
    ensures
        seq![res@] == ambiguity_events(left as nat, right as nat),
{
    let mut text: String = color::color_bright_yellow().to_owned();
    text.append("[WARNING] Ambiguous files: < ");
    text.append(decimal_string(left).as_str());
    text.append(", > ");
    text.append(decimal_string(right).as_str());
    text.append(color::color_reset());
    let res = Event::Warning(text);
    assert(seq![res@] =~= ambiguity_events(left as nat, right as nat));
    res
}

impl RKD {
    /// Compares two logs and gives the exit code. What there is to say is added to `out`, up to
    /// the point where the comparison stops if it cannot be carried out.
    pub fn diff(
        &mut self,
        log_l: &Vec<String>,
        log_r: &Vec<String>,
        options: &Options,
        out: &mut Vec<Event>,
    ) -> (res: Result<i32, DiffError>)
        requires
            old(self).wf(),
            old(self)@.sides.len() == 0,
        ensures
            final(self).wf(),
            ({
                let outcome = diff_outcome(
                    old(self)@,
                    events_view(old(out)@),
                    options@,
                    strings_view(log_l@),
                    strings_view(log_r@),
                );
                &&& final(self)@ == outcome.state
                &&& events_view(final(out)@) == outcome.events
                &&& match res {
                    Ok(code) => code == 0 && outcome.error is None,
                    Err(e) => outcome.error == Some(e),
                }
            }),
    {
        let mut ambiguous_l: usize = 0;
        let mut ambiguous_r: usize = 0;
        let (count_l, count_r) = (log_l.len(), log_r.len());
        let ghost request = options@;
        let ghost (left, right) = (strings_view(log_l@), strings_view(log_r@));
        let ghost read_l = read_log(self@, 0, events_view(out@), request.exclude, left);
        match self.parse_side(log_l, &options.exclude, options.timings, &mut ambiguous_l, out) {
            Err(e) => {
                return Err(DiffError::Line(e));
            },
            Ok(()) => {},
        }
        let ghost (state_l, events_l) = (self@, events_view(out@));
        assert(log_outcome(read_l, request.timings) == (Outcome {
            state: state_l,
            events: events_l,
            error: None,
        }));
        let ghost read_r = read_log(state_l, 0, events_l, request.exclude, right);
        match self.parse_side(log_r, &options.exclude, options.timings, &mut ambiguous_r, out) {
            Err(e) => {
                return Err(DiffError::Line(e));
            },
            Ok(()) => {},
        }
        let ghost (state_r, events_r) = (self@, events_view(out@));
        assert(log_outcome(read_r, request.timings) == (Outcome {
            state: state_r,
            events: events_r,
            error: None,
        }));
        match self.diff_cpmv(options.timings, options.no_prefix, out) {
            Err(e) => {
                return Err(DiffError::Report(e));
            },
            Ok(()) => {},
        }
        self.diff_remaining(options.timings, out);
        let ghost told = Outcome { state: self@, events: events_view(out@), error: None };
        assert(told == report_outcome(state_r, events_r, request.timings, request.no_prefix));
        if ambiguous_l > 0 || ambiguous_r > 0 {
            let warning = ambiguity_warning(ambiguous_l, ambiguous_r);
            proof {
                lemma_events_push(out@, warning);
            }
            out.push(warning);
            assert(told.events.push(warning@) =~= told.events + seq![warning@]);
        } else {
            assert(told.events =~= told.events + ambiguity_events(0, 0));
        }
        Ok(0)
    }
}

} // verus!
