//! What a comparison knows when it has read its logs, in terms of what the logs list.
use vstd::prelude::*;

use crate::event::EventView;
use crate::line::{line_events, parse_line, Entry, LineError};
use crate::maps::{HashesView, PathsView};
use crate::model::{
    files_wf, hashes_wf, hashes_with, is_excluded, is_unchanged, lemma_enter_wf, lemma_nodes_with,
    nodes_with, object_for, read_log, size_mismatch, with_log, Reading, State,
};
use crate::node::NodeView;

verus! {

/// What `line` lists: at most one entry.
pub open spec fn listed(excludes: Seq<Seq<char>>, line: Seq<char>) -> Seq<Entry> {
    match parse_line(line) {
        Ok(Some(entry)) if !is_excluded(entry.path, excludes) => seq![entry],
        _ => seq![],
    }
}

/// What `lines` list, in order.
pub open spec fn entries(excludes: Seq<Seq<char>>, lines: Seq<Seq<char>>) -> Seq<Entry>
    decreases lines.len(),
{
    if lines.len() == 0 {
        seq![]
    } else {
        entries(excludes, lines.drop_last()) + listed(excludes, lines.last())
    }
}

/// Whether each of `lines` can be read.
pub open spec fn readable(lines: Seq<Seq<char>>) -> bool {
    forall|i: int| 0 <= i < lines.len() ==> parse_line(#[trigger] lines[i]) is Ok
}

/// Whether one of the entries from `lo` on, before `hi`, has the given path.
pub open spec fn lists_path(seen: Seq<Entry>, lo: int, hi: int, path: Seq<char>) -> bool {
    exists|i: int| lo <= i < hi && (#[trigger] seen[i]).path == path
}

/// Whether one of the entries from `lo` on, before `hi`, has the given hash.
pub open spec fn lists_hash(seen: Seq<Entry>, lo: int, hi: int, hash: Seq<u8>) -> bool {
    exists|i: int| lo <= i < hi && (#[trigger] seen[i]).hash == Some(hash)
}

/// Whether `i` is the last of the entries from `lo` on, before `hi`, that have its path.
pub open spec fn is_last(seen: Seq<Entry>, lo: int, hi: int, i: int) -> bool {
    &&& lo <= i < hi
    &&& forall|j: int| i < j < hi ==> (#[trigger] seen[j]).path != seen[i].path
}

/// Whether entries with the same hash have the same size.
pub open spec fn sizes_agree(seen: Seq<Entry>) -> bool {
    forall|i: int, j: int|
        0 <= i < seen.len() && 0 <= j < seen.len() && (#[trigger] seen[i]).hash is Some
            && seen[i].hash == (#[trigger] seen[j]).hash ==> seen[i].by == seen[j].by
}

/// Whether all entries with the given hash, of which there are some, have the given size.
pub open spec fn is_size_of(seen: Seq<Entry>, hash: Seq<u8>, by: i64) -> bool {
    &&& lists_hash(seen, 0, seen.len() as int, hash)
    &&& forall|i: int|
        0 <= i < seen.len() && (#[trigger] seen[i]).hash == Some(hash) ==> seen[i].by == by
}

/// Whether two entries with the given hash differ in size.
pub open spec fn is_ambiguous(seen: Seq<Entry>, hash: Seq<u8>) -> bool {
    exists|i: int, j: int|
        0 <= i < seen.len() && 0 <= j < seen.len() && (#[trigger] seen[i]).hash == Some(hash) && (
        #[trigger] seen[j]).hash == Some(hash) && seen[i].by != seen[j].by
}

/// Whether a hash is marked just if entries with it differ in size, and the size kept for each hash
/// is that of all entries with it, or -1 if it is marked.
pub open spec fn sizes_known(hashes: HashesView, seen: Seq<Entry>) -> bool {
    forall|h: Seq<u8>| #[trigger]
        hashes.map.contains_key(h) ==> {
            &&& hashes.map[h].blacklisted <==> is_ambiguous(seen, h)
            &&& if hashes.map[h].blacklisted {
                hashes.map[h].by == -1
            } else {
                is_size_of(seen, h, hashes.map[h].by)
            }
        }
}

/// Whether the node `id` is one of the given log, of which `split` is the first node of the right
/// one, with the given hash.
pub open spec fn is_node_of(
    seen: Seq<Entry>,
    split: int,
    side: int,
    hash: Seq<u8>,
    id: usize,
) -> bool {
    &&& id < seen.len()
    &&& seen[id as int].hash == Some(hash)
    &&& side == 0 <==> id < split
}

/// Whether each hash leads to exactly the nodes of each log that have it, each named once.
pub open spec fn hashes_known(hashes: HashesView, seen: Seq<Entry>, split: int) -> bool {
    &&& forall|h: Seq<u8>| #[trigger]
        hashes.map.contains_key(h) <==> lists_hash(seen, 0, seen.len() as int, h)
    &&& forall|h: Seq<u8>, side: int, id: usize|
        hashes.map.contains_key(h) && 0 <= side < 2 ==> (
        #[trigger] hashes.map[h].sides[side].contains(id) <==> is_node_of(
            seen,
            split,
            side,
            h,
            id,
        ))
    &&& forall|h: Seq<u8>, side: int|
        hashes.map.contains_key(h) && 0 <= side < 2 ==> (
        #[trigger] hashes.map[h].sides[side]).no_duplicates()
}

/// Whether the nodes are the entries.
pub open spec fn nodes_known(nodes: Seq<NodeView>, seen: Seq<Entry>) -> bool {
    &&& nodes.len() == seen.len()
    &&& forall|i: int|
        0 <= i < seen.len() ==> {
            &&& (#[trigger] nodes[i]).path == seen[i].path
            &&& nodes[i].hash == seen[i].hash
        }
}

/// Whether each path leads to the last of the entries from `lo` on, before `hi`, that have it.
pub open spec fn files_known(files: PathsView, seen: Seq<Entry>, lo: int, hi: int) -> bool {
    &&& forall|p: Seq<char>| #[trigger] files.map.contains_key(p) <==> lists_path(seen, lo, hi, p)
    &&& forall|p: Seq<char>| #[trigger]
        files.map.contains_key(p) ==> {
            &&& seen[files.map[p] as int].path == p
            &&& is_last(seen, lo, hi, files.map[p] as int)
        }
}

/// Whether the left tree has the file of `entry`, with the same contents.
pub open spec fn is_kept(left: PathsView, seen: Seq<Entry>, entry: Entry) -> bool {
    &&& entry.hash is Some
    &&& left.map.contains_key(entry.path)
    &&& seen[left.map[entry.path] as int].hash == entry.hash
}

/// Whether the entry `i` is warned about for its size: an earlier one with the same hash has another
/// size. The size -1 is the exception: it is not warned about once the hash has come with different
/// sizes.
pub open spec fn is_clash(seen: Seq<Entry>, i: int) -> bool {
    &&& seen[i].hash matches Some(h)
    &&& exists|j: int|
        0 <= j < i && (#[trigger] seen[j]).hash == Some(h) && seen[j].by != seen[i].by
    &&& seen[i].by == -1 ==> !is_ambiguous(seen.take(i), h)
}

/// Whether the file of the entry `i` of the right log is taken as unchanged: the left tree has it,
/// with the same contents, and it is not warned about for its size.
pub open spec fn is_taken(left: PathsView, seen: Seq<Entry>, i: int) -> bool {
    is_kept(left, seen, seen[i]) && !is_clash(seen, i)
}

/// Whether everything has been said about just the files that are taken as unchanged, on both
/// sides.
pub open spec fn done_known(
    nodes: Seq<NodeView>,
    left: PathsView,
    seen: Seq<Entry>,
    split: int,
) -> bool {
    &&& forall|i: int|
        0 <= i < split && i < seen.len() ==> ((#[trigger] nodes[i]).done <==> exists|j: int|
            split <= j < seen.len() && #[trigger] is_taken(left, seen, j)
                && left.map[seen[j].path] == i)
    &&& forall|i: int|
        split <= i < seen.len() ==> ((#[trigger] nodes[i]).done <==> is_taken(left, seen, i))
}

/// Whether `state` is what is known behind the entries `seen`, those from `split` on being the
/// right log's.
pub open spec fn is_known(state: State, seen: Seq<Entry>, split: int) -> bool {
    &&& nodes_known(state.nodes, seen)
    &&& hashes_known(state.hashes, seen, split)
    &&& sizes_known(state.hashes, seen)
}

/// A hash has come with one size, or with more.
proof fn lemma_sizes_known(hashes: HashesView, seen: Seq<Entry>, entry: Entry)
    requires
        sizes_known(hashes, seen),
        forall|h: Seq<u8>| #[trigger]
            hashes.map.contains_key(h) <==> lists_hash(seen, 0, seen.len() as int, h),
    ensures
        size_mismatch(hashes, entry) ==> !sizes_agree(seen.push(entry)),
        sizes_agree(seen.push(entry)) ==> sizes_agree(seen),
{
    let after = seen.push(entry);
    assert forall|i: int| 0 <= i < seen.len() implies after[i] == seen[i] by {}
    if size_mismatch(hashes, entry) {
        let h = entry.hash->0;
        assert(after[seen.len() as int] == entry);
        if !hashes.map[h].blacklisted {
            let i = choose|i: int| 0 <= i < seen.len() && (#[trigger] seen[i]).hash == Some(h);
            assert(after[i].by != entry.by);
        } else {
            let (i, j) = choose|i: int, j: int|
                0 <= i < seen.len() && 0 <= j < seen.len() && (#[trigger] seen[i]).hash == Some(h)
                    && (#[trigger] seen[j]).hash == Some(h) && seen[i].by != seen[j].by;
            assert(after[i].by != after[j].by);
        }
    }
    if sizes_agree(after) {
        assert forall|i: int, j: int|
            0 <= i < seen.len() && 0 <= j < seen.len() && (#[trigger] seen[i]).hash is Some
                && seen[i].hash == (#[trigger] seen[j]).hash implies seen[i].by == seen[j].by by {
            assert(after[i].by == after[j].by);
        }
    }
}


/// An entry has another size than is kept for its hash just if it is warned about.
proof fn lemma_mismatch(hashes: HashesView, seen: Seq<Entry>, entry: Entry)
    requires
        sizes_known(hashes, seen),
        forall|h: Seq<u8>| #[trigger]
            hashes.map.contains_key(h) <==> lists_hash(seen, 0, seen.len() as int, h),
    ensures
        size_mismatch(hashes, entry) <==> is_clash(seen.push(entry), seen.len() as int),
{
    let after = seen.push(entry);
    let last = seen.len() as int;
    assert(after[last] == entry);
    assert(after.take(last) =~= seen);
    if let Some(h) = entry.hash {
        assert forall|i: int| 0 <= i < last implies after[i] == seen[i] by {}
        if hashes.map.contains_key(h) {
            let some = choose|i: int| 0 <= i < last && (#[trigger] seen[i]).hash == Some(h);
            assert(after[some] == seen[some]);
            if is_ambiguous(seen, h) {
                let (i, j) = choose|i: int, j: int|
                    0 <= i < last && 0 <= j < last && (#[trigger] seen[i]).hash == Some(h) && (
                    #[trigger] seen[j]).hash == Some(h) && seen[i].by != seen[j].by;
                assert(after[i].by != entry.by || after[j].by != entry.by);
                assert(!is_size_of(seen, h, hashes.map[h].by));
            } else {
                assert(is_size_of(seen, h, hashes.map[h].by));
                if is_clash(after, last) {
                    let i = choose|i: int|
                        0 <= i < last && (#[trigger] after[i]).hash == Some(h) && after[i].by
                            != entry.by;
                    assert(seen[i].by != entry.by);
                }
            }
        } else if is_clash(after, last) {
            let i = choose|i: int|
                0 <= i < last && (#[trigger] after[i]).hash == Some(h) && after[i].by != entry.by;
            assert(seen[i].hash == Some(h));
        }
    }
}

/// Whether an entry is warned about does not depend on later ones.
proof fn lemma_clash_grow(seen: Seq<Entry>, entry: Entry, i: int)
    requires
        0 <= i < seen.len(),
    ensures
        is_clash(seen.push(entry), i) == is_clash(seen, i),
{
    let after = seen.push(entry);
    assert(after.take(i) =~= seen.take(i));
    if let Some(h) = seen[i].hash {
        assert forall|j: int| 0 <= j < i implies after[j] == seen[j] by {}
        if is_clash(seen, i) {
            let j = choose|j: int|
                0 <= j < i && (#[trigger] seen[j]).hash == Some(h) && seen[j].by != seen[i].by;
            assert(after[j].by != after[i].by);
        }
        if is_clash(after, i) {
            let j = choose|j: int|
                0 <= j < i && (#[trigger] after[j]).hash == Some(h) && after[j].by != after[i].by;
            assert(seen[j].by != seen[i].by);
        }
    }
}

/// Where entries with the same hash have the same size, none is warned about for it.
pub proof fn lemma_no_clash(seen: Seq<Entry>, i: int, hash: Seq<u8>)
    requires
        0 <= i < seen.len(),
        seen[i].hash == Some(hash),
        !is_ambiguous(seen, hash),
    ensures
        !is_clash(seen, i),
{
    if is_clash(seen, i) {
        let j = choose|j: int|
            0 <= j < i && (#[trigger] seen[j]).hash == Some(hash) && seen[j].by != seen[i].by;
        assert(seen[i].hash == Some(hash) && seen[j].hash == Some(hash));
    }
}

/// The size kept for each hash is still the right one when an entry is added.
proof fn lemma_enter_sizes(hashes: HashesView, seen: Seq<Entry>, side: int, entry: Entry, id: usize)
    requires
        sizes_known(hashes, seen),
        forall|h: Seq<u8>| #[trigger]
            hashes.map.contains_key(h) <==> lists_hash(seen, 0, seen.len() as int, h),
    ensures
        sizes_known(hashes_with(hashes, side, entry, id), seen.push(entry)),
{
    let after = seen.push(entry);
    let then = hashes_with(hashes, side, entry, id);
    let last = seen.len() as int;
    assert(after[last] == entry);
    assert forall|h: Seq<u8>| #[trigger] then.map.contains_key(h) implies {
        &&& then.map[h].blacklisted <==> is_ambiguous(after, h)
        &&& if then.map[h].blacklisted {
            then.map[h].by == -1
        } else {
            is_size_of(after, h, then.map[h].by)
        }
    } by {
        if hashes.map.contains_key(h) {
            if !hashes.map[h].blacklisted {
                let i = choose|i: int| 0 <= i < last && (#[trigger] seen[i]).hash == Some(h);
                assert(after[i] == seen[i]);
                if entry.hash == Some(h) && entry.by != hashes.map[h].by {
                    assert(after[i].by != after[last].by);
                } else {
                    assert(then.map[h].by == hashes.map[h].by);
                }
            } else {
                let (i, j) = choose|i: int, j: int|
                    0 <= i < last && 0 <= j < last && (#[trigger] seen[i]).hash == Some(h) && (
                    #[trigger] seen[j]).hash == Some(h) && seen[i].by != seen[j].by;
                assert(after[i].by != after[j].by);
                assert(then.map[h].by == -1);
            }
        } else {
            assert(entry.hash == Some(h));
            assert(then.map[h].by == entry.by);
            assert forall|i: int|
                0 <= i < after.len() && (#[trigger] after[i]).hash == Some(h) implies after[i].by
                == entry.by by {
                if i < last {
                    assert(seen[i].hash == Some(h));
                }
            }
        }
    }
}

/// Each hash still leads to exactly the nodes that have it when an entry is added.
proof fn lemma_enter_hashes(
    hashes: HashesView,
    seen: Seq<Entry>,
    split: int,
    side: int,
    entry: Entry,
    id: usize,
)
    requires
        hashes_known(hashes, seen, split),
        forall|h: Seq<u8>| #[trigger]
            hashes.map.contains_key(h) ==> hashes.map[h].sides.len() == 2,
        0 <= side < 2,
        id == seen.len(),
        side == 0 <==> id < split,
    ensures
        hashes_known(hashes_with(hashes, side, entry, id), seen.push(entry), split),
{
    let after = seen.push(entry);
    let then = hashes_with(hashes, side, entry, id);
    let last = seen.len() as int;
    assert(after[last] == entry);
    assert forall|h: Seq<u8>| #[trigger]
        then.map.contains_key(h) <==> lists_hash(after, 0, after.len() as int, h) by {
        if hashes.map.contains_key(h) {
            let i = choose|i: int| 0 <= i < last && (#[trigger] seen[i]).hash == Some(h);
            assert(after[i].hash == Some(h));
        } else {
            assert forall|i: int|
                0 <= i < after.len() && (#[trigger] after[i]).hash == Some(h) implies entry.hash
                == Some(h) by {
                if i < last {
                    assert(seen[i].hash == Some(h));
                }
            }
        }
    }
    assert forall|h: Seq<u8>, s: int| then.map.contains_key(h) && 0 <= s < 2 implies {
        &&& (#[trigger] then.map[h].sides[s]).no_duplicates()
        &&& forall|k: usize|
            then.map[h].sides[s].contains(k) <==> #[trigger] is_node_of(after, split, s, h, k)
    } by {
        let before = object_for(hashes, h, entry.by).sides[s];
        assert forall|k: usize|
            before.contains(k) <==> #[trigger] is_node_of(seen, split, s, h, k) by {
            if hashes.map.contains_key(h) {
                assert(hashes.map[h].sides[s].contains(k) <==> is_node_of(seen, split, s, h, k));
            } else if is_node_of(seen, split, s, h, k) {
                assert(seen[k as int].hash == Some(h));
            }
        }
        assert(before.no_duplicates());
        let now = then.map[h].sides[s];
        if entry.hash == Some(h) && s == side {
            assert(now == before.push(id));
            assert(!before.contains(id)) by {
                assert(!is_node_of(seen, split, s, h, id));
            }
            assert(now[before.len() as int] == id);
            assert forall|k: usize|
                now.contains(k) <==> #[trigger] is_node_of(after, split, s, h, k) by {
                assert(before.contains(k) <==> is_node_of(seen, split, s, h, k));
                if before.contains(k) {
                    let i = choose|i: int| 0 <= i < before.len() && before[i] == k;
                    assert(now[i] == k);
                }
                if now.contains(k) && k != id {
                    let i = choose|i: int| 0 <= i < now.len() && now[i] == k;
                    assert(before[i] == k);
                }
            }
            assert forall|i: int, j: int|
                0 <= i < now.len() && 0 <= j < now.len() && i != j implies now[i] != now[j] by {
                if i == before.len() {
                    assert(before.contains(before[j]));
                } else if j == before.len() {
                    assert(before.contains(before[i]));
                }
            }
        } else {
            assert(now == before);
            assert forall|k: usize|
                now.contains(k) <==> #[trigger] is_node_of(after, split, s, h, k) by {
                assert(before.contains(k) <==> is_node_of(seen, split, s, h, k));
            }
        }
    }
    assert forall|h: Seq<u8>, s: int, k: usize|
        then.map.contains_key(h) && 0 <= s < 2 implies (#[trigger] then.map[h].sides[s].contains(k)
        <==> is_node_of(after, split, s, h, k)) by {
        let sides = then.map[h].sides[s];
    }
}

/// Each path still leads to the last entry that has it when an entry is added.
proof fn lemma_enter_files(files: PathsView, seen: Seq<Entry>, lo: int, entry: Entry, id: usize)
    requires
        files_known(files, seen, lo, seen.len() as int),
        0 <= lo <= id,
        id == seen.len(),
    ensures
        files_known(files.insert(entry.path, id), seen.push(entry), lo, id + 1),
{
    let after = seen.push(entry);
    let then = files.insert(entry.path, id);
    let last = seen.len() as int;
    assert(after[last] == entry);
    assert forall|p: Seq<char>| #[trigger]
        then.map.contains_key(p) <==> lists_path(after, lo, last + 1, p) by {
        if files.map.contains_key(p) {
            let i = choose|i: int| lo <= i < last && (#[trigger] seen[i]).path == p;
            assert(after[i].path == p);
        } else {
            assert forall|i: int|
                lo <= i <= last && (#[trigger] after[i]).path == p implies entry.path == p by {
                if i < last {
                    assert(seen[i].path == p);
                }
            }
        }
    }
    assert forall|p: Seq<char>| #[trigger] then.map.contains_key(p) implies {
        &&& after[then.map[p] as int].path == p
        &&& is_last(after, lo, last + 1, then.map[p] as int)
    } by {
        if p != entry.path {
            assert(files.map.contains_key(p));
            let k = files.map[p] as int;
            assert forall|j: int| k < j < last + 1 implies (#[trigger] after[j]).path != p by {
                if j < last {
                    assert(seen[j].path != p);
                }
            }
        }
    }
}


/// Everything has still been said about just the files that are taken as unchanged when an entry of
/// the right log is added.
proof fn lemma_enter_done(state: State, seen: Seq<Entry>, split: int, entry: Entry)
    requires
        state.wf(),
        state.sides.len() == 1,
        is_known(state, seen, split),
        0 <= split <= seen.len(),
        files_known(state.sides[0], seen, 0, split),
        done_known(state.nodes, state.sides[0], seen, split),
    ensures
        done_known(nodes_with(state, 1, entry), state.sides[0], seen.push(entry), split),
{
    let left = state.sides[0];
    let after = seen.push(entry);
    let then = nodes_with(state, 1, entry);
    let last = seen.len() as int;
    let unchanged = is_unchanged(state, 1, entry);
    assert(after[last] == entry);
    assert(files_wf(state.nodes, left));
    lemma_nodes_with(state, 1, entry);
    lemma_mismatch(state.hashes, seen, entry);
    assert forall|e: Entry| #[trigger] is_kept(left, after, e) <==> is_kept(left, seen, e) by {
        if left.map.contains_key(e.path) {
            assert(after[left.map[e.path] as int] == seen[left.map[e.path] as int]);
        }
    }
    assert(unchanged <==> is_taken(left, after, last));
    assert forall|i: int| 0 <= i < last implies #[trigger] is_taken(left, after, i) == is_taken(
        left,
        seen,
        i,
    ) by {
        lemma_clash_grow(seen, entry, i);
        assert(after[i] == seen[i]);
    }
    let marked = left.map[entry.path] as int;
    assert forall|i: int| 0 <= i < split && i < after.len() implies ((
    #[trigger] then[i]).done <==> exists|j: int|
        split <= j < after.len() && #[trigger] is_taken(left, after, j) && left.map[after[j].path]
            == i) by {
        if then[i].done {
            if unchanged && i == marked {
                assert(is_taken(left, after, last) && left.map[after[last].path] == i);
            } else {
                assert(state.nodes[i].done);
                let j = choose|j: int|
                    split <= j < seen.len() && #[trigger] is_taken(left, seen, j)
                        && left.map[seen[j].path] == i;
                assert(is_taken(left, after, j) && after[j] == seen[j]);
            }
        }
        if exists|j: int|
            split <= j < after.len() && #[trigger] is_taken(left, after, j)
                && left.map[after[j].path] == i {
            let j = choose|j: int|
                split <= j < after.len() && #[trigger] is_taken(left, after, j)
                    && left.map[after[j].path] == i;
            if j < last {
                assert(is_taken(left, seen, j) && after[j] == seen[j]);
                assert(state.nodes[i].done);
            }
        }
    }
    assert forall|i: int| split <= i < after.len() implies ((
    #[trigger] then[i]).done <==> is_taken(left, after, i)) by {
        if i < last {
            assert(state.nodes[i].done <==> is_taken(left, seen, i));
            assert(is_taken(left, after, i) == is_taken(left, seen, i));
        }
    }
}

/// Whether `log`, the left one if `side` is 0, else the right one, has been read without an error,
/// the logs having listed `seen` so far, those from `split` on in the right log.
pub open spec fn is_read(log: Reading, side: int, seen: Seq<Entry>, split: int) -> bool {
    &&& log.error is None
    &&& log.state.wf()
    &&& log.state.sides.len() == side
    &&& files_wf(log.state.nodes, log.files)
    &&& is_known(log.state, seen, split)
    &&& side == 0 ==> {
        &&& files_known(log.files, seen, 0, seen.len() as int)
        &&& forall|i: int| 0 <= i < seen.len() ==> !(#[trigger] log.state.nodes[i]).done
    }
    &&& side == 1 ==> {
        &&& 0 <= split <= seen.len()
        &&& files_known(log.files, seen, split, seen.len() as int)
        &&& files_known(log.state.sides[0], seen, 0, split)
        &&& done_known(log.state.nodes, log.state.sides[0], seen, split)
    }
}

/// One more entry is known.
proof fn lemma_enter_read(log: Reading, side: int, seen: Seq<Entry>, split: int, entry: Entry)
    requires
        0 <= side < 2,
        is_read(log, side, seen, split),
        seen.len() <= usize::MAX,
        side == 0 ==> seen.len() < split,
    ensures
        is_read(log.enter(side, entry), side, seen.push(entry), split),
{
    let id = log.state.nodes.len() as usize;
    let then = log.enter(side, entry);
    lemma_enter_wf(log, side, entry);
    lemma_nodes_with(log.state, side, entry);
    lemma_enter_sizes(log.state.hashes, seen, side, entry, id);
    lemma_enter_hashes(log.state.hashes, seen, split, side, entry, id);
    assert(then.state.nodes[seen.len() as int] == then.state.nodes.last());
    assert forall|i: int| 0 <= i < seen.push(entry).len() implies {
        &&& (#[trigger] then.state.nodes[i]).path == seen.push(entry)[i].path
        &&& then.state.nodes[i].hash == seen.push(entry)[i].hash
    } by {
        if i < seen.len() {
            assert(log.state.nodes[i].path == seen[i].path);
        }
    }
    if side == 0 {
        lemma_enter_files(log.files, seen, 0, entry, id);
        assert forall|i: int| 0 <= i < seen.push(entry).len() implies !(
        #[trigger] then.state.nodes[i]).done by {
            if i < seen.len() {
                assert(!log.state.nodes[i].done);
            }
        }
    } else {
        lemma_enter_files(log.files, seen, split, entry, id);
        lemma_enter_done(log.state, seen, split, entry);
        lemma_files_known_grow(log.state.sides[0], seen, 0, split, entry);
    }
}

/// What paths lead to does not depend on later entries.
proof fn lemma_files_known_grow(files: PathsView, seen: Seq<Entry>, lo: int, hi: int, entry: Entry)
    requires
        files_known(files, seen, lo, hi),
        0 <= lo <= hi <= seen.len(),
    ensures
        files_known(files, seen.push(entry), lo, hi),
{
    let after = seen.push(entry);
    assert forall|i: int| 0 <= i < hi implies after[i] == seen[i] by {}
    assert forall|p: Seq<char>| #[trigger]
        files.map.contains_key(p) <==> lists_path(after, lo, hi, p) by {
        if lists_path(seen, lo, hi, p) {
            let i = choose|i: int| lo <= i < hi && (#[trigger] seen[i]).path == p;
            assert(after[i].path == p);
        }
        if lists_path(after, lo, hi, p) {
            let i = choose|i: int| lo <= i < hi && (#[trigger] after[i]).path == p;
            assert(seen[i].path == p);
        }
    }
}

/// What is known behind the first `n` of `lines`.
pub proof fn lemma_steps_read(
    log: Reading,
    side: int,
    excludes: Seq<Seq<char>>,
    lines: Seq<Seq<char>>,
    n: nat,
    seen: Seq<Entry>,
    split: int,
)
    requires
        0 <= side < 2,
        is_read(log, side, seen, split),
        n <= lines.len(),
        readable(lines),
        seen.len() + n <= usize::MAX,
        side == 0 ==> seen.len() + entries(excludes, lines.take(n as int)).len() <= split,
    ensures
        entries(excludes, lines.take(n as int)).len() <= n,
        is_read(
            log.steps(side, excludes, lines, n),
            side,
            seen + entries(excludes, lines.take(n as int)),
            split,
        ),
    decreases n,
{
    if n == 0 {
        assert(seen + entries(excludes, lines.take(0)) =~= seen);
    } else {
        let line = lines[n - 1];
        let before = lines.take(n - 1);
        assert(lines.take(n as int).drop_last() =~= before);
        assert(lines.take(n as int).last() == line);
        let es = entries(excludes, before);
        lemma_steps_read(log, side, excludes, lines, (n - 1) as nat, seen, split);
        let reached = log.steps(side, excludes, lines, (n - 1) as nat);
        let noted = Reading {
            ambiguous: reached.ambiguous + line_events(line, side).len(),
            events: reached.events + line_events(line, side),
            ..reached
        };
        assert(is_read(noted, side, seen + es, split));
        assert(parse_line(line) is Ok);
        if listed(excludes, line).len() > 0 {
            let entry = listed(excludes, line)[0];
            assert(entries(excludes, lines.take(n as int)) =~= es.push(entry));
            assert(seen + es.push(entry) =~= (seen + es).push(entry));
            lemma_enter_read(noted, side, seen + es, split, entry);
        } else {
            assert(entries(excludes, lines.take(n as int)) =~= es);
        }
    }
}


/// The state of a new comparison when its left log has been read.
pub open spec fn left_read(excludes: Seq<Seq<char>>, left: Seq<Seq<char>>) -> State {
    with_log(read_log(State::empty(), 0, seq![], excludes, left))
}

/// The state of a new comparison when both logs have been read.
pub open spec fn both_read(
    excludes: Seq<Seq<char>>,
    left: Seq<Seq<char>>,
    right: Seq<Seq<char>>,
) -> State {
    with_log(read_log(left_read(excludes, left), 0, seq![], excludes, right))
}

/// Reading does not depend on what has been said and counted before.
proof fn lemma_steps_frame(
    a: Reading,
    b: Reading,
    side: int,
    excludes: Seq<Seq<char>>,
    lines: Seq<Seq<char>>,
    n: nat,
)
    requires
        a.state == b.state,
        a.files == b.files,
        a.error == b.error,
    ensures
        a.steps(side, excludes, lines, n).state == b.steps(side, excludes, lines, n).state,
        a.steps(side, excludes, lines, n).files == b.steps(side, excludes, lines, n).files,
        a.steps(side, excludes, lines, n).error == b.steps(side, excludes, lines, n).error,
        a.steps(side, excludes, lines, n).ambiguous - a.ambiguous == b.steps(
            side,
            excludes,
            lines,
            n,
        ).ambiguous - b.ambiguous,
    decreases n,
{
    if n > 0 {
        lemma_steps_frame(a, b, side, excludes, lines, (n - 1) as nat);
    }
}

/// What a log does to the state does not depend on what has been said and counted before.
pub proof fn lemma_read_log_frame(
    state: State,
    ambiguous: nat,
    events: Seq<EventView>,
    excludes: Seq<Seq<char>>,
    lines: Seq<Seq<char>>,
)
    ensures
        read_log(state, ambiguous, events, excludes, lines).state == read_log(
            state,
            0,
            seq![],
            excludes,
            lines,
        ).state,
        read_log(state, ambiguous, events, excludes, lines).files == read_log(
            state,
            0,
            seq![],
            excludes,
            lines,
        ).files,
        read_log(state, ambiguous, events, excludes, lines).error == read_log(
            state,
            0,
            seq![],
            excludes,
            lines,
        ).error,
{
    lemma_steps_frame(
        Reading::start(state, ambiguous, events),
        Reading::start(state, 0, seq![]),
        state.sides.len() as int,
        excludes,
        lines,
        lines.len(),
    );
}

/// Reading a log fails just if one of its lines cannot be read, and then for the first such line.
pub proof fn law_log_error(
    state: State,
    ambiguous: nat,
    events: Seq<EventView>,
    excludes: Seq<Seq<char>>,
    lines: Seq<Seq<char>>,
)
    ensures
        ({
            let error = read_log(state, ambiguous, events, excludes, lines).error;
            &&& error is None <==> readable(lines)
            &&& error matches Some(e) ==> exists|i: int|
                0 <= i < lines.len() && parse_line(#[trigger] lines[i]) == Err::<
                    Option<Entry>,
                    _,
                >(e) && readable(lines.take(i))
        }),
{
    let log = Reading::start(state, ambiguous, events);
    lemma_steps_error(log, state.sides.len() as int, excludes, lines, lines.len());
    assert(lines.take(lines.len() as int) =~= lines);
}

proof fn lemma_steps_error(
    log: Reading,
    side: int,
    excludes: Seq<Seq<char>>,
    lines: Seq<Seq<char>>,
    n: nat,
)
    requires
        log.error is None,
        n <= lines.len(),
    ensures
        ({
            let error = log.steps(side, excludes, lines, n).error;
            &&& error is None <==> readable(lines.take(n as int))
            &&& error matches Some(e) ==> exists|i: int|
                0 <= i < n && parse_line(#[trigger] lines[i]) == Err::<Option<Entry>, _>(e)
                    && readable(lines.take(i))
        }),
    decreases n,
{
    if n > 0 {
        lemma_steps_error(log, side, excludes, lines, (n - 1) as nat);
        let before = lines.take(n - 1);
        let now = lines.take(n as int);
        assert forall|i: int| 0 <= i < n - 1 implies before[i] == now[i] by {}
        assert(now[n - 1] == lines[n - 1]);
        if readable(before) && parse_line(lines[n - 1]) is Ok {
            assert forall|i: int| 0 <= i < now.len() implies parse_line(
                #[trigger] now[i],
            ) is Ok by {
                if i < n - 1 {
                    assert(parse_line(before[i]) is Ok);
                }
            }
        }
        if readable(now) {
            assert forall|i: int| 0 <= i < before.len() implies parse_line(
                #[trigger] before[i],
            ) is Ok by {
                assert(parse_line(now[i]) is Ok);
            }
        }
    }
}

/// All that is said while a log is read is warnings, and each is counted.
pub proof fn law_warnings_are_counted(
    state: State,
    ambiguous: nat,
    events: Seq<EventView>,
    excludes: Seq<Seq<char>>,
    lines: Seq<Seq<char>>,
)
    ensures
        ({
            let log = read_log(state, ambiguous, events, excludes, lines);
            &&& events.is_prefix_of(log.events)
            &&& log.ambiguous - ambiguous == log.events.len() - events.len()
            &&& forall|i: int|
                events.len() <= i < log.events.len() ==> (#[trigger] log.events[i]) is Warning
        }),
{
    lemma_steps_warnings(
        Reading::start(state, ambiguous, events),
        state.sides.len() as int,
        excludes,
        lines,
        lines.len(),
    );
}

proof fn lemma_steps_warnings(
    log: Reading,
    side: int,
    excludes: Seq<Seq<char>>,
    lines: Seq<Seq<char>>,
    n: nat,
)
    ensures
        ({
            let then = log.steps(side, excludes, lines, n);
            &&& log.events.is_prefix_of(then.events)
            &&& then.ambiguous - log.ambiguous == then.events.len() - log.events.len()
            &&& forall|i: int|
                log.events.len() <= i < then.events.len() ==> (#[trigger] then.events[i]) is Warning
        }),
    decreases n,
{
    if n > 0 {
        lemma_steps_warnings(log, side, excludes, lines, (n - 1) as nat);
        let before = log.steps(side, excludes, lines, (n - 1) as nat);
        let then = log.steps(side, excludes, lines, n);
        assert forall|i: int| log.events.len() <= i < then.events.len() implies (
        #[trigger] then.events[i]) is Warning by {
            if i < before.events.len() {
                assert(then.events[i] == before.events[i]);
            }
        }
        assert(log.events.is_prefix_of(then.events)) by {
            assert forall|i: int| 0 <= i < log.events.len() implies log.events[i]
                == then.events[i] by {
                assert(before.events[i] == then.events[i]);
            }
        }
    }
}

/// When both logs of a new comparison have been read, its nodes are the entries of the logs, in
/// order. Each path leads to the last entry of a log that has it. Each hash leads to all entries
/// that have it, and to their size, or to -1 if they differ in size. Everything has been said about
/// just the files that the left log lists, last of all, with the same hash, and that are not warned
/// about for their size, on both sides.
pub proof fn law_logs_are_known(
    excludes: Seq<Seq<char>>,
    left: Seq<Seq<char>>,
    right: Seq<Seq<char>>,
)
    requires
        readable(left),
        readable(right),
        left.len() + right.len() <= usize::MAX,
    ensures
        ({
            let state = both_read(excludes, left, right);
            let split = entries(excludes, left).len() as int;
            let seen = entries(excludes, left) + entries(excludes, right);
            &&& state.wf()
            &&& state.sides.len() == 2
            &&& is_known(state, seen, split)
            &&& files_known(state.sides[0], seen, 0, split)
            &&& files_known(state.sides[1], seen, split, seen.len() as int)
            &&& done_known(state.nodes, state.sides[0], seen, split)
        }),
{
    let split = entries(excludes, left).len() as int;
    let all_l = entries(excludes, left);
    let log_l = read_log(State::empty(), 0, seq![], excludes, left);
    let log_r = read_log(left_read(excludes, left), 0, seq![], excludes, right);
    lemma_left_read(excludes, left);
    assert(is_read(Reading::start(left_read(excludes, left), 0, seq![]), 1, all_l, split));
    assert(right.take(right.len() as int) =~= right);
    lemma_entries_len(excludes, left);
    lemma_steps_read(
        Reading::start(left_read(excludes, left), 0, seq![]),
        1,
        excludes,
        right,
        right.len(),
        all_l,
        split,
    );
}

pub proof fn lemma_entries_len(excludes: Seq<Seq<char>>, lines: Seq<Seq<char>>)
    ensures
        entries(excludes, lines).len() <= lines.len(),
    decreases lines.len(),
{
    if lines.len() > 0 {
        lemma_entries_len(excludes, lines.drop_last());
    }
}

/// What is known when the left log of a new comparison has been read.
proof fn lemma_left_read(excludes: Seq<Seq<char>>, left: Seq<Seq<char>>)
    requires
        readable(left),
        left.len() <= usize::MAX,
    ensures
        is_read(
            Reading::start(left_read(excludes, left), 0, seq![]),
            1,
            entries(excludes, left),
            entries(excludes, left).len() as int,
        ),
{
    let es = entries(excludes, left);
    let split = es.len() as int;
    let none = Seq::<Entry>::empty();
    let start = Reading::start(State::empty(), 0, seq![]);
    assert(is_read(start, 0, none, split)) by {
        assert forall|p: Seq<char>| !lists_path(none, 0, 0, p) by {}
        assert(hashes_wf(start.state.nodes, start.state.hashes));
    }
    assert(left.take(left.len() as int) =~= left);
    lemma_steps_read(start, 0, excludes, left, left.len(), none, split);
    assert(none + es =~= es);
    let log = read_log(State::empty(), 0, seq![], excludes, left);
    assert(is_read(log, 0, es, split));
    let state = left_read(excludes, left);
    assert(state.sides =~= seq![log.files]);
    assert(state.wf());
    let files = PathsView::empty();
    assert forall|p: Seq<char>| !lists_path(es, split, split, p) by {}
    assert(files_known(files, es, split, split));
    assert(done_known(state.nodes, log.files, es, split));
}


/// Whether `line` adds no entry, though it can be read: an empty line, a comment, or an entry with
/// an excluded path.
pub open spec fn is_passed_over(excludes: Seq<Seq<char>>, line: Seq<char>) -> bool {
    match parse_line(line) {
        Ok(None) => true,
        Ok(Some(entry)) => is_excluded(entry.path, excludes),
        Err(_) => false,
    }
}

/// Reading the same lines gives the same.
pub proof fn lemma_steps_same(
    log: Reading,
    side: int,
    excludes: Seq<Seq<char>>,
    a: Seq<Seq<char>>,
    b: Seq<Seq<char>>,
    n: nat,
)
    requires
        forall|i: int| 0 <= i < n ==> a[i] == #[trigger] b[i],
    ensures
        log.steps(side, excludes, a, n) == log.steps(side, excludes, b, n),
    decreases n,
{
    if n > 0 {
        lemma_steps_same(log, side, excludes, a, b, (n - 1) as nat);
        assert(a[n - 1] == b[n - 1]);
    }
}

/// A line that adds no entry leaves no trace behind `m` further lines.
proof fn lemma_steps_passed(
    log: Reading,
    side: int,
    excludes: Seq<Seq<char>>,
    a: Seq<Seq<char>>,
    line: Seq<char>,
    b: Seq<Seq<char>>,
    m: nat,
)
    requires
        log.error is None,
        is_passed_over(excludes, line),
        m <= b.len(),
    ensures
        ({
            let with = log.steps(side, excludes, a + seq![line] + b, a.len() + 1 + m);
            let without = log.steps(side, excludes, a + b, a.len() + m);
            &&& with.state == without.state
            &&& with.files == without.files
            &&& with.error == without.error
            &&& parse_line(line) == Ok::<Option<Entry>, LineError>(None) ==> with == without
        }),
    decreases m,
{
    let (x, y) = (a + seq![line] + b, a + b);
    let n = a.len();
    if m == 0 {
        lemma_steps_same(log, side, excludes, x, y, n);
        let before = log.steps(side, excludes, y, n);
        assert(x[n as int] == line);
        assert(log.steps(side, excludes, x, (n + 1) as nat) == if before.error is Some {
            before
        } else {
            before.step(side, excludes, line)
        });
        assert(before.events + Seq::<EventView>::empty() =~= before.events);
    } else {
        lemma_steps_passed(log, side, excludes, a, line, b, (m - 1) as nat);
        assert(x[(n + m) as int] == b[m - 1]);
        assert(y[n + m - 1] == b[m - 1]);
    }
}

/// A line with an excluded path leaves no trace in what is known; an empty line or a comment also
/// leaves none in what is said and counted.
pub proof fn law_passed_over(
    state: State,
    ambiguous: nat,
    events: Seq<EventView>,
    excludes: Seq<Seq<char>>,
    a: Seq<Seq<char>>,
    line: Seq<char>,
    b: Seq<Seq<char>>,
)
    requires
        is_passed_over(excludes, line),
    ensures
        ({
            let with = read_log(state, ambiguous, events, excludes, a + seq![line] + b);
            let without = read_log(state, ambiguous, events, excludes, a + b);
            &&& with.state == without.state
            &&& with.files == without.files
            &&& with.error == without.error
            &&& parse_line(line) == Ok::<Option<Entry>, LineError>(None) ==> with == without
        }),
{
    lemma_steps_passed(
        Reading::start(state, ambiguous, events),
        state.sides.len() as int,
        excludes,
        a,
        line,
        b,
        b.len(),
    );
}

/// What logs list one behind the other is what each lists; and a line lists the entry that it is read
/// as, unless that is excluded, else nothing.
pub proof fn law_entries_in_order(
    excludes: Seq<Seq<char>>,
    a: Seq<Seq<char>>,
    b: Seq<Seq<char>>,
    line: Seq<char>,
)
    ensures
        entries(excludes, a + b) == entries(excludes, a) + entries(excludes, b),
        entries(excludes, seq![line]) == match parse_line(line) {
            Ok(Some(entry)) if !is_excluded(entry.path, excludes) => seq![entry],
            _ => seq![],
        },
    decreases b.len(),
{
    assert(seq![line].drop_last() =~= Seq::empty());
    assert(entries(excludes, seq![line].drop_last()) =~= Seq::empty());
    assert(entries(excludes, seq![line]) =~= listed(excludes, line));
    if b.len() == 0 {
        assert(a + b =~= a);
        assert(entries(excludes, a) + entries(excludes, b) =~= entries(excludes, a));
    } else {
        assert((a + b).drop_last() =~= a + b.drop_last());
        law_entries_in_order(excludes, a, b.drop_last(), line);
        assert(entries(excludes, a + b) =~= entries(excludes, a) + entries(excludes, b));
    }
}

/// An entry comes from a line, and its path holds no excluded text; all such lines give entries.
pub proof fn law_entries(excludes: Seq<Seq<char>>, lines: Seq<Seq<char>>, entry: Entry)
    ensures
        entries(excludes, lines).contains(entry) <==> !is_excluded(entry.path, excludes) && exists|
            i: int,
        |
            0 <= i < lines.len() && parse_line(#[trigger] lines[i]) == Ok::<_, LineError>(
                Some(entry),
            ),
    decreases lines.len(),
{
    let all = entries(excludes, lines);
    if lines.len() > 0 {
        let before = lines.drop_last();
        let es = entries(excludes, before);
        let last = listed(excludes, lines.last());
        law_entries(excludes, before, entry);
        if all.contains(entry) {
            let k = choose|k: int| 0 <= k < all.len() && all[k] == entry;
            if k < es.len() {
                assert(es[k] == entry);
                let i = choose|i: int|
                    0 <= i < before.len() && parse_line(#[trigger] before[i]) == Ok::<
                        _,
                        LineError,
                    >(Some(entry));
                assert(lines[i] == before[i]);
            } else {
                assert(last[k - es.len()] == entry);
                assert(parse_line(lines[lines.len() - 1]) == Ok::<_, LineError>(Some(entry)));
            }
        }
        if !is_excluded(entry.path, excludes) && exists|i: int|
            0 <= i < lines.len() && parse_line(#[trigger] lines[i]) == Ok::<_, LineError>(
                Some(entry),
            ) {
            let i = choose|i: int|
                0 <= i < lines.len() && parse_line(#[trigger] lines[i]) == Ok::<_, LineError>(
                    Some(entry),
                );
            if i < before.len() {
                assert(before[i] == lines[i]);
                let k = choose|k: int| 0 <= k < es.len() && es[k] == entry;
                assert(all[k] == entry);
            } else {
                assert(last == seq![entry]);
                assert(all[es.len() as int] == entry);
            }
        }
    }
}

/// A file of the right log is taken as unchanged only if the left log lists its path, last of all,
/// with the same hash; and then all entries with that hash so far have its size, unless that is -1.
pub proof fn law_unchanged(
    excludes: Seq<Seq<char>>,
    left: Seq<Seq<char>>,
    right: Seq<Seq<char>>,
    n: nat,
    entry: Entry,
)
    requires
        readable(left),
        readable(right),
        left.len() + right.len() <= usize::MAX,
        n <= right.len(),
        is_unchanged(
            Reading::start(left_read(excludes, left), 0, seq![]).steps(1, excludes, right, n).state,
            1,
            entry,
        ),
    ensures
        exists|k: int|
            is_last(entries(excludes, left), 0, entries(excludes, left).len() as int, k) && (
            #[trigger] entries(excludes, left)[k]).path == entry.path && entries(excludes, left)[k].hash
                == entry.hash,
        entry.by != -1 ==> is_size_of(
            entries(excludes, left) + entries(excludes, right.take(n as int)),
            entry.hash->0,
            entry.by,
        ),
{
    let all_l = entries(excludes, left);
    let split = all_l.len() as int;
    let start = Reading::start(left_read(excludes, left), 0, seq![]);
    let log = start.steps(1, excludes, right, n);
    let seen = all_l + entries(excludes, right.take(n as int));
    lemma_left_read(excludes, left);
    lemma_entries_len(excludes, left);
    lemma_steps_read(start, 1, excludes, right, n, all_l, split);
    let h = entry.hash->0;
    let files = log.state.sides[0];
    let k = files.map[entry.path] as int;
    assert(files_wf(log.state.nodes, files));
    assert(is_last(seen, 0, split, k));
    assert(seen[k] == all_l[k]);
    assert(is_last(all_l, 0, split, k)) by {
        assert forall|j: int| k < j < split implies (#[trigger] all_l[j]).path != all_l[k].path by {
            assert(seen[j] == all_l[j]);
        }
    }
    assert(seen[k].hash == Some(h));
    assert(log.state.hashes.map.contains_key(h));
}

/// An entry of the right log is warned about for its size just if an earlier one with the same hash,
/// in either log, has another size, with the exception of the size -1.
pub proof fn law_size_mismatch(
    excludes: Seq<Seq<char>>,
    left: Seq<Seq<char>>,
    right: Seq<Seq<char>>,
    n: nat,
    entry: Entry,
)
    requires
        readable(left),
        readable(right),
        left.len() + right.len() <= usize::MAX,
        n <= right.len(),
    ensures
        ({
            let seen = entries(excludes, left) + entries(excludes, right.take(n as int));
            let hashes = Reading::start(left_read(excludes, left), 0, seq![]).steps(
                1,
                excludes,
                right,
                n,
            ).state.hashes;
            size_mismatch(hashes, entry) <==> is_clash(seen.push(entry), seen.len() as int)
        }),
{
    let all_l = entries(excludes, left);
    let start = Reading::start(left_read(excludes, left), 0, seq![]);
    let hashes = start.steps(1, excludes, right, n).state.hashes;
    lemma_left_read(excludes, left);
    lemma_entries_len(excludes, left);
    lemma_steps_read(start, 1, excludes, right, n, all_l, all_l.len() as int);
    lemma_mismatch(hashes, all_l + entries(excludes, right.take(n as int)), entry);
}

/// While a log is read whose lines all have hashes, nothing is said as long as entries with the
/// same hash have the same size.
pub proof fn lemma_steps_quiet(
    log: Reading,
    side: int,
    excludes: Seq<Seq<char>>,
    lines: Seq<Seq<char>>,
    n: nat,
    seen: Seq<Entry>,
    split: int,
)
    requires
        0 <= side < 2,
        is_read(log, side, seen, split),
        n <= lines.len(),
        readable(lines),
        seen.len() + n <= usize::MAX,
        side == 0 ==> seen.len() + entries(excludes, lines.take(n as int)).len() <= split,
        forall|i: int| 0 <= i < lines.len() ==> #[trigger] line_events(lines[i], side).len() == 0,
        sizes_agree(seen + entries(excludes, lines.take(n as int))),
    ensures
        log.steps(side, excludes, lines, n).events == log.events,
        log.steps(side, excludes, lines, n).ambiguous == log.ambiguous,
    decreases n,
{
    if n > 0 {
        let line = lines[n - 1];
        let before = lines.take(n - 1);
        assert(lines.take(n as int).drop_last() =~= before);
        assert(lines.take(n as int).last() == line);
        let es = entries(excludes, before);
        let reached = log.steps(side, excludes, lines, (n - 1) as nat);
        assert(line_events(line, side) =~= seq![]);
        assert(parse_line(line) is Ok);
        if listed(excludes, line).len() > 0 {
            let entry = listed(excludes, line)[0];
            assert(seen + entries(excludes, lines.take(n as int)) =~= (seen + es).push(entry));
            lemma_steps_read(log, side, excludes, lines, (n - 1) as nat, seen, split);
            lemma_sizes_known(reached.state.hashes, seen + es, entry);
        } else {
            assert(entries(excludes, lines.take(n as int)) =~= es);
        }
        lemma_steps_quiet(log, side, excludes, lines, (n - 1) as nat, seen, split);
        assert(reached.events + line_events(line, side) =~= reached.events);
    }
}

/// Whether each entry of a log has a hash.
pub open spec fn all_hashed(lines: Seq<Seq<char>>) -> bool {
    forall|i: int|
        0 <= i < lines.len() ==> (parse_line(#[trigger] lines[i]) matches Ok(Some(entry))
            ==> entry.hash is Some)
}

/// If all entries of both logs have hashes, and entries with the same hash have the same size,
/// nothing is said while the logs are read, and no file is ambiguous.
pub proof fn law_quiet_logs(
    excludes: Seq<Seq<char>>,
    left: Seq<Seq<char>>,
    right: Seq<Seq<char>>,
    events_l: Seq<EventView>,
    events_r: Seq<EventView>,
)
    requires
        readable(left),
        readable(right),
        left.len() + right.len() <= usize::MAX,
        all_hashed(left),
        all_hashed(right),
        sizes_agree(entries(excludes, left) + entries(excludes, right)),
    ensures
        read_log(State::empty(), 0, events_l, excludes, left).events == events_l,
        read_log(State::empty(), 0, events_l, excludes, left).ambiguous == 0,
        read_log(left_read(excludes, left), 0, events_r, excludes, right).events == events_r,
        read_log(left_read(excludes, left), 0, events_r, excludes, right).ambiguous == 0,
{
    let all_l = entries(excludes, left);
    let all_r = entries(excludes, right);
    let split = all_l.len() as int;
    let none = Seq::<Entry>::empty();
    let start_l = Reading::start(State::empty(), 0, events_l);
    let start_r = Reading::start(left_read(excludes, left), 0, events_r);
    assert(left.take(left.len() as int) =~= left);
    assert(right.take(right.len() as int) =~= right);
    lemma_entries_len(excludes, left);
    assert(is_read(start_l, 0, none, split)) by {
        assert forall|p: Seq<char>| !lists_path(none, 0, 0, p) by {}
        assert(hashes_wf(start_l.state.nodes, start_l.state.hashes));
    }
    assert(none + all_l =~= all_l);
    assert(sizes_agree(all_l)) by {
        assert forall|i: int, j: int|
            0 <= i < all_l.len() && 0 <= j < all_l.len() && (#[trigger] all_l[i]).hash is Some
                && all_l[i].hash == (#[trigger] all_l[j]).hash implies all_l[i].by
            == all_l[j].by by {
            assert((all_l + all_r)[i].by == (all_l + all_r)[j].by);
        }
    }
    lemma_steps_quiet(start_l, 0, excludes, left, left.len(), none, split);
    lemma_left_read(excludes, left);
    assert(is_read(start_r, 1, all_l, split));
    lemma_steps_quiet(start_r, 1, excludes, right, right.len(), all_l, split);
}

} // verus!
