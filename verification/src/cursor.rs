//! A cursor into a list, which looks at the item it stands on and the one before it.
use vstd::prelude::*;

verus! {

/// A cursor into `vector`. It may be moved past the end.
pub struct VecIterator<'a, Item> {
    vector: &'a [Item],
    index: usize,
}

impl<'a, Item> VecIterator<'a, Item> {
    /// The list.
    pub closed spec fn items(self) -> Seq<Item> {
        self.vector@
    }

    /// Where the cursor stands.
    pub closed spec fn position(self) -> nat {
        self.index as nat
    }

    /// A cursor on the first item of `vector`.
    pub fn new(vector: &'a [Item]) -> (res: VecIterator<'a, Item>)
        ensures
            res.items() == vector@,
            res.position() == 0,
    {
        VecIterator { index: 0, vector }
    }

    /// Moves the cursor to the next item.
    pub fn advance(&mut self)
        requires
            old(self).position() < usize::MAX,
        ensures
            final(self).items() == old(self).items(),
            final(self).position() == old(self).position() + 1,
    {
        self.index = self.index + 1;
    }

    /// The item before the cursor.
    pub fn prev(&mut self) -> (res: Option<&'a Item>)
        ensures
            *final(self) == *old(self),
            res == (if 0 < old(self).position() <= old(self).items().len() {
                Some(&old(self).items()[old(self).position() - 1])
            } else {
                None
            }),
    {
        if self.index > 0 && self.index - 1 < self.vector.len() {
            Some(&self.vector[self.index - 1])
        } else {
            None
        }
    }

    /// The item under the cursor.
    pub fn curr(&mut self) -> (res: Option<&'a Item>)
        ensures
            *final(self) == *old(self),
            res == (if old(self).position() < old(self).items().len() {
                Some(&old(self).items()[old(self).position() as int])
            } else {
                None
            }),
            old(self).items().len() <= usize::MAX,
    {
        if self.index < self.vector.len() {
            Some(&self.vector[self.index])
        } else {
            None
        }
    }
}

} // verus!
