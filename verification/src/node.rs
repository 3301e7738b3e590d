//! The files of a tree, as a log lists them.
use vstd::prelude::*;

use crate::maps::MapPaths;
use crate::model::{files_wf, has_twin};
use crate::report::{mark_done, set_node_done};

verus! {

/// A file of one of the trees.
#[derive(Debug)]
pub struct FSNode {
    /// What it holds, if that is known.
    pub hash: Option<crate::hash::Hash>,
    pub path: String,
    /// Whether everything has been said about it.
    pub done: bool,
}

/// The contents of an `FSNode`.
#[verifier::ext_equal]
pub struct NodeView {
    pub hash: Option<Seq<u8>>,
    pub path: Seq<char>,
    pub done: bool,
}

impl View for FSNode {
    type V = NodeView;

    open spec fn view(&self) -> NodeView {
        NodeView { hash: crate::line::hash_view(self.hash), path: self.path@, done: self.done }
    }
}

/// The contents of a list of nodes.
pub open spec fn nodes_view(nodes: Seq<FSNode>) -> Seq<NodeView> {
    nodes.map_values(|n: FSNode| n@)
}

/// The paths of a list of nodes.
pub open spec fn paths(nodes: Seq<NodeView>) -> Seq<Seq<char>> {
    nodes.map_values(|n: NodeView| n.path)
}

impl FSNode {
    /// A file about which nothing has been said yet.
    pub fn new(path: String, hash: Option<crate::hash::Hash>) -> (res: Self)
        ensures
            res@ == (NodeView { path: path@, hash: crate::line::hash_view(hash), done: false }),
    {
        FSNode { path, hash, done: false }
    }

    /// Whether everything has been said about the file.
    pub fn is_done(&self) -> (res: bool)
        ensures
            res == self@.done,
    {
        self.done
    }

    /// Records that everything has been said about the file.
    pub fn set_done(&mut self)
        ensures
            final(self)@ == (NodeView { done: true, ..old(self)@ }),
    {
        self.done = true;
    }
}

impl FSNode {
    /// A copy of the node that `other_side` has for `path`, if that node has the given hash. Then
    /// nothing happened to the file, and everything has been said about both.
    pub fn try_recycle(
        nodes: &mut Vec<FSNode>,
        path: &str,
        hash: &crate::hash::Hash,
        other_side: &MapPaths,
    ) -> (res: Option<Self>)
        requires
            files_wf(nodes_view(old(nodes)@), other_side@),
        ensures
            res is Some <==> has_twin(nodes_view(old(nodes)@), other_side@, path@, hash@),
            match res {
                Some(node) => {
                    &&& node@ == (NodeView { path: path@, hash: Some(hash@), done: true })
                    &&& nodes_view(final(nodes)@) == mark_done(
                        nodes_view(old(nodes)@),
                        other_side@.map[path@],
                    )
                },
                None => *final(nodes) == *old(nodes),
            },
    {
        if let Some(id) = other_side.get(path) {
            assert(nodes_view(nodes@)[id as int] == nodes@[id as int]@);
            if let Some(other) = nodes[id].hash {
                if other == *hash {
                    set_node_done(nodes, id);
                    assert(nodes_view(nodes@)[id as int] == nodes@[id as int]@);
                    let node = &nodes[id];
                    return Some(
                        FSNode { path: node.path.clone(), hash: node.hash, done: node.done },
                    );
                }
            }
        }
        None
    }

    /// A copy of the node that `other_side` has for `path`, if that node has the given hash, else
    /// a new node.
    pub fn clone_or_new(
        nodes: &mut Vec<FSNode>,
        path: String,
        hash: crate::hash::Hash,
        other_side: &MapPaths,
    ) -> (res: Self)
        requires
            files_wf(nodes_view(old(nodes)@), other_side@),
        ensures
            res@ == (NodeView {
                path: path@,
                hash: Some(hash@),
                done: has_twin(nodes_view(old(nodes)@), other_side@, path@, hash@),
            }),
            nodes_view(final(nodes)@) == (if res@.done {
                mark_done(nodes_view(old(nodes)@), other_side@.map[path@])
            } else {
                nodes_view(old(nodes)@)
            }),
    {
        match FSNode::try_recycle(nodes, path.as_str(), &hash, other_side) {
            Some(node) => node,
            None => FSNode::new(path, Some(hash)),
        }
    }
}

} // verus!
