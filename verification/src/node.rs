//! One directory: its slot, its name and its links.

use vstd::prelude::*;
use crate::limits::{MAX_CHILDREN, MAX_DIR_NAME, SPACE};

verus! {

/// What a directory is, as mathematics.
pub struct Node {
    /// The slot that the directory occupies.
    pub slot: int,
    /// The name, padded with spaces to its fixed width.
    pub name: Seq<u8>,
    /// The slot of the parent; the root is its own parent.
    pub parent: int,
    /// The slots of the children, oldest first.
    pub children: Seq<int>,
}

/// A directory as it is stored.
#[derive(Clone, Copy, Debug)]
pub struct Dir {
    pub index: usize,
    pub name: [u8; MAX_DIR_NAME],
    pub parent_index: usize,
    pub child_count: usize,
    pub child_indexes: [usize; MAX_CHILDREN],
}

/// A name of nothing but padding.
pub open spec fn blank_name() -> Seq<u8> {
    Seq::new(MAX_DIR_NAME as nat, |i: int| SPACE)
}

impl View for Dir {
    type V = Node;

    open spec fn view(&self) -> Node {
        Node {
            slot: self.index as int,
            name: self.name@,
            parent: self.parent_index as int,
            children: Seq::new(self.child_count as nat, |k: int| self.child_indexes[k] as int),
        }
    }
}

impl Dir {
    /// The child table is compact: the children stand at its front and every
    /// entry behind them is zero.
    pub open spec fn compact(&self) -> bool {
        &&& self.child_count <= MAX_CHILDREN
        &&& forall|k: int| self.child_count <= k < MAX_CHILDREN ==> self.child_indexes[k] == 0
    }

    /// The state of a slot that holds no directory.
    pub open spec fn is_blank(&self) -> bool {
        &&& self.index == 0
        &&& self.name@ == blank_name()
        &&& self.parent_index == 0
        &&& self.child_count == 0
        &&& self.compact()
    }

    /// A slot that holds no directory.
    pub fn blank() -> (d: Dir)
        ensures
            d.is_blank(),
    {
        let d = Dir {
            index: 0,
            name: [SPACE; MAX_DIR_NAME],
            parent_index: 0,
            child_count: 0,
            child_indexes: [0; MAX_CHILDREN],
        };
        assert(d.name@ =~= blank_name());
        d
    }

    /// A directory without children.
    pub fn childless(index: usize, name: [u8; MAX_DIR_NAME], parent_index: usize) -> (d: Dir)
        ensures
            d.compact(),
            d@ == (Node {
                slot: index as int,
                name: name@,
                parent: parent_index as int,
                children: Seq::empty(),
            }),
    {
        let d = Dir { index, name, parent_index, child_count: 0, child_indexes: [0; MAX_CHILDREN] };
        assert(d@.children =~= Seq::empty());
        d
    }

    /// Closes the place `start` of the child table: every entry behind it
    /// moves one place to the front, in order, over the entry that stood
    /// there, and the last place is cleared. The count of children stays as
    /// it is; who takes a child out lowers it.
    pub fn move_child_indexes(&mut self, start: usize)
        requires
            old(self).compact(),
            start < MAX_CHILDREN,
        ensures
            final(self).compact(),
            final(self).index == old(self).index,
            final(self).name == old(self).name,
            final(self).parent_index == old(self).parent_index,
            final(self).child_count == old(self).child_count,
            forall|k: int|
                0 <= k < start ==> final(self).child_indexes[k] == old(self).child_indexes[k],
            forall|k: int|
                start <= k < MAX_CHILDREN - 1 ==> final(self).child_indexes[k] == old(
                    self,
                ).child_indexes[k + 1],
            final(self).child_indexes[MAX_CHILDREN - 1] == 0,
    {
        let mut iter: usize = start + 1;
        while iter < MAX_CHILDREN
            invariant
                start < iter <= MAX_CHILDREN,
                self.index == old(self).index,
                self.name == old(self).name,
                self.parent_index == old(self).parent_index,
                self.child_count == old(self).child_count,
                forall|k: int| 0 <= k < start ==> self.child_indexes[k] == old(self).child_indexes[k],
                forall|k: int|
                    start <= k < iter - 1 ==> self.child_indexes[k] == old(self).child_indexes[k + 1],
                forall|k: int|
                    iter - 1 <= k < MAX_CHILDREN ==> self.child_indexes[k] == old(
                        self,
                    ).child_indexes[k],
            decreases MAX_CHILDREN - iter,
        {
            self.child_indexes[iter - 1] = self.child_indexes[iter];
            iter += 1;
        }
        self.child_indexes[MAX_CHILDREN - 1] = 0;
    }

    /// The children, oldest first.
    pub fn children(&self) -> (v: Vec<usize>)
        requires
            self.compact(),
        ensures
            v@.len() == self@.children.len(),
            forall|k: int| 0 <= k < v@.len() ==> v@[k] as int == self@.children[k],
    {
        let mut v: Vec<usize> = Vec::new();
        let mut k: usize = 0;
        while k < self.child_count
            invariant
                k <= self.child_count <= MAX_CHILDREN,
                v@.len() == k,
                forall|j: int| 0 <= j < k ==> v@[j] == self.child_indexes[j],
            decreases self.child_count - k,
        {
            v.push(self.child_indexes[k]);
            k += 1;
        }
        v
    }
}

/// Whether two names are the same, byte for byte.
pub fn same_name(a: &[u8; MAX_DIR_NAME], b: &[u8; MAX_DIR_NAME]) -> (same: bool)
    ensures
        same == (a@ == b@),
{
    let mut i: usize = 0;
    while i < MAX_DIR_NAME
        invariant
            i <= MAX_DIR_NAME,
            forall|j: int| 0 <= j < i ==> a[j] == b[j],
        decreases MAX_DIR_NAME - i,
    {
        if a[i] != b[i] {
            assert(a@[i as int] != b@[i as int]);
            return false;
        }
        i += 1;
    }
    assert(a@ =~= b@);
    true
}

} // verus!
