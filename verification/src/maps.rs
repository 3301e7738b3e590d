//! The collections of a comparison: the entries of a log by path, and all entries by hash.
use std::collections::HashMap;
use vstd::hash_map::StringHashMap;
use vstd::prelude::*;

use crate::hash::{big_endian, lemma_big_endian_injective};

verus! {

/// The entries of one log by path. An entry is the index of a node.
pub struct MapPaths {
    /// The paths, in the order in which the log first names them.
    pub order: Vec<String>,
    /// The last entry for each path.
    pub map: StringHashMap<usize>,
}

/// The contents of a `MapPaths`.
#[verifier::ext_equal]
pub struct PathsView {
    pub order: Seq<Seq<char>>,
    pub map: Map<Seq<char>, usize>,
}

impl PathsView {
    /// No entries.
    pub open spec fn empty() -> Self {
        PathsView { order: seq![], map: Map::empty() }
    }

    /// The paths in order are those of the map, each named once.
    pub open spec fn wf(self) -> bool {
        &&& self.order.no_duplicates()
        &&& forall|p: Seq<char>| self.map.contains_key(p) <==> #[trigger] self.order.contains(p)
    }

    /// The contents with `node` as the entry for `path`.
    pub open spec fn insert(self, path: Seq<char>, node: usize) -> Self {
        PathsView {
            order: if self.map.contains_key(path) {
                self.order
            } else {
                self.order.push(path)
            },
            map: self.map.insert(path, node),
        }
    }

    /// Inserting keeps each path named once.
    pub proof fn lemma_insert_wf(self, path: Seq<char>, node: usize)
        requires
            self.wf(),
        ensures
            self.insert(path, node).wf(),
    {
        let after = self.insert(path, node);
        if !self.map.contains_key(path) {
            assert(!self.order.contains(path));
            assert(after.order[self.order.len() as int] == path);
            assert forall|p: Seq<char>|
                after.map.contains_key(p) <==> #[trigger] after.order.contains(p) by {
                if self.order.contains(p) {
                    let i = choose|i: int| 0 <= i < self.order.len() && self.order[i] == p;
                    assert(after.order[i] == p);
                }
                if after.order.contains(p) && p != path {
                    let i = choose|i: int| 0 <= i < after.order.len() && after.order[i] == p;
                    assert(self.order[i] == p);
                }
            }
            assert forall|i: int, j: int|
                0 <= i < after.order.len() && 0 <= j < after.order.len() && i
                    != j implies after.order[i] != after.order[j] by {
                if i == self.order.len() {
                    assert(self.order.contains(self.order[j]));
                } else if j == self.order.len() {
                    assert(self.order.contains(self.order[i]));
                }
            }
        } else {
            assert forall|p: Seq<char>|
                after.map.contains_key(p) <==> #[trigger] after.order.contains(p) by {
                assert(self.map.contains_key(p) <==> self.order.contains(p));
            }
        }
    }
}

impl View for MapPaths {
    type V = PathsView;

    open spec fn view(&self) -> PathsView {
        PathsView { order: self.order@.map_values(|s: String| s@), map: self.map@ }
    }
}

impl MapPaths {
    /// A collection without entries.
    pub fn new() -> (res: Self)
        ensures
            res@ == PathsView::empty(),
            res@.wf(),
    {
        let res = MapPaths { order: Vec::new(), map: StringHashMap::new() };
        assert(res@.order =~= PathsView::empty().order);
        res
    }

    /// The entry for `path`.
    pub fn get(&self, path: &str) -> (res: Option<usize>)
        ensures
            res == (if self@.map.contains_key(path@) {
                Some(self@.map[path@])
            } else {
                None
            }),
    {
        match self.map.get(path) {
            Some(node) => Some(*node),
            None => None,
        }
    }

    /// Makes `node` the entry for `path`, in place of any other.
    pub fn insert(&mut self, path: &String, node: usize)
        requires
            old(self)@.wf(),
        ensures
            final(self)@ == old(self)@.insert(path@, node),
            final(self)@.wf(),
    {
        proof {
            self@.lemma_insert_wf(path@, node);
        }
        if !self.map.contains_key(path.as_str()) {
            self.order.push(path.clone());
        }
        self.map.insert(path.clone(), node);
        assert(self@.order =~= old(self)@.insert(path@, node).order);
    }
}

/// The entries of one log that share a hash, in the order of the log.
pub struct Side {
    pub paths: Vec<usize>,
}

impl Side {
    /// No entries.
    pub fn new() -> (res: Self)
        ensures
            res.paths@ == Seq::<usize>::empty(),
    {
        Side { paths: Vec::new() }
    }
}

/// What is known of a hash: the size of the files that have it, or -1 if they differ in size,
/// whether they do, and the entries of the two logs.
pub struct Object {
    pub by: i64,
    pub blacklisted: bool,
    pub sides: [Side; 2],
}

/// The contents of an `Object`.
#[verifier::ext_equal]
pub struct ObjectView {
    pub by: i64,
    pub blacklisted: bool,
    pub sides: Seq<Seq<usize>>,
}

impl ObjectView {
    /// Files of the given size, none of them entered yet.
    pub open spec fn fresh(by: i64) -> Self {
        ObjectView { by, blacklisted: false, sides: seq![seq![], seq![]] }
    }

    /// The contents with one more entry of the given log.
    pub open spec fn push(self, side: int, node: usize) -> Self {
        ObjectView { sides: self.sides.update(side, self.sides[side].push(node)), ..self }
    }
}

impl View for Object {
    type V = ObjectView;

    open spec fn view(&self) -> ObjectView {
        ObjectView {
            by: self.by,
            blacklisted: self.blacklisted,
            sides: self.sides@.map_values(|s: Side| s.paths@),
        }
    }
}

impl Object {
    /// What is known of a hash before any entry: the size.
    pub fn new(by: i64) -> (res: Self)
        ensures
            res@ == ObjectView::fresh(by),
    {
        let res = Object { by, blacklisted: false, sides: [Side::new(), Side::new()] };
        assert(res@.sides =~= ObjectView::fresh(by).sides);
        res
    }

    /// Adds an entry of the given log.
    pub fn push(&mut self, side: usize, node: usize)
        requires
            side < 2,
        ensures
            final(self)@ == old(self)@.push(side as int, node),
    {
        self.sides[side].paths.push(node);
        assert(self@.sides =~= old(self)@.push(side as int, node).sides);
    }
}

/// The entries of both logs by hash.
pub struct MapHashes {
    /// The hashes, in the order in which they are first met.
    pub order: Vec<crate::hash::Hash>,
    /// What is known of each of them.
    pub objects: Vec<Object>,
    /// Where each of them stands.
    pub index: HashMap<u128, usize>,
}

/// The contents of a `MapHashes`.
#[verifier::ext_equal]
pub struct HashesView {
    pub order: Seq<Seq<u8>>,
    pub map: Map<Seq<u8>, ObjectView>,
}

impl HashesView {
    /// No entries.
    pub open spec fn empty() -> Self {
        HashesView { order: seq![], map: Map::empty() }
    }

    /// The contents with `object` as what is known of `hash`.
    pub open spec fn insert(self, hash: Seq<u8>, object: ObjectView) -> Self {
        HashesView {
            order: if self.map.contains_key(hash) {
                self.order
            } else {
                self.order.push(hash)
            },
            map: self.map.insert(hash, object),
        }
    }
}

/// The number by which a hash is looked up.
pub open spec fn hash_key(hash: Seq<u8>) -> u128 {
    big_endian(hash) as u128
}

impl View for MapHashes {
    type V = HashesView;

    open spec fn view(&self) -> HashesView {
        HashesView {
            order: self.order@.map_values(|h: crate::hash::Hash| h@),
            map: Map::new(
                |h: Seq<u8>| h.len() == 16 && self.index@.contains_key(hash_key(h)),
                |h: Seq<u8>| self.objects@[self.index@[hash_key(h)] as int]@,
            ),
        }
    }
}

impl MapHashes {
    /// The index leads from each hash to its place, and nowhere else.
    pub open spec fn wf(self) -> bool {
        &&& self.order@.len() == self.objects@.len()
        &&& forall|i: int|
            0 <= i < self.order@.len() ==> {
                &&& self.index@.contains_key(hash_key((#[trigger] self.order@[i])@))
                &&& self.index@[hash_key(self.order@[i]@)] == i
            }
        &&& forall|k: u128| #[trigger]
            self.index@.contains_key(k) ==> {
                &&& self.index@[k] < self.order@.len()
                &&& hash_key(self.order@[self.index@[k] as int]@) == k
            }
    }

    /// A collection without entries.
    pub fn new() -> (res: Self)
        ensures
            res.wf(),
            res@ == HashesView::empty(),
    {
        let res = MapHashes { order: Vec::new(), objects: Vec::new(), index: HashMap::new() };
        assert(res@ =~= HashesView::empty());
        res
    }

    /// Where `hash` stands.
    pub fn slot(&self, hash: &crate::hash::Hash) -> (res: Option<usize>)
        requires
            self.wf(),
        ensures
            match res {
                Some(i) => {
                    &&& i < self.order@.len()
                    &&& self.order@[i as int]@ == hash@
                    &&& self@.map.contains_key(hash@)
                    &&& self@.map[hash@] == self.objects@[i as int]@
                },
                None => !self@.map.contains_key(hash@),
            },
    {
        let key = hash.key();
        match self.index.get(&key) {
            None => None,
            Some(i) => {
                proof {
                    crate::hash::lemma_big_endian_key(self.order@[*i as int]@);
                    lemma_big_endian_injective(self.order@[*i as int]@, hash@);
                }
                Some(*i)
            },
        }
    }

    /// What is known of the hash that stands at `slot`, to be changed.
    pub fn object_mut(&mut self, slot: usize) -> (res: &mut Object)
        requires
            slot < old(self).objects@.len(),
        ensures
            *res == old(self).objects@[slot as int],
            final(self).order == old(self).order,
            final(self).index == old(self).index,
            final(self).objects@ == old(self).objects@.update(slot as int, *final(res)),
    {
        &mut self.objects[slot]
    }
}

} // verus!
