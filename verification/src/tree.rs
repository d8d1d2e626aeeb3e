//! The directory tree as mathematics: what the pool of directories means,
//! what each operation does to it, and why the operations keep it a tree.

use vstd::prelude::*;
use vstd::set_lib::{lemma_int_range, lemma_len_subset, set_int_range};
use crate::error::ShellError;
use crate::limits::{MAX_CHILDREN, MAX_DIRS, MAX_DIR_NAME};
use crate::node::Node;

verus! {

/// The directories that exist, by slot, and how many steps below the root
/// each of them lies.
pub struct Tree {
    pub nodes: Map<int, Node>,
    pub depth: Map<int, nat>,
}

/// One line of a listing: how deep the directory lies below the start of the
/// listing, and its slot.
pub type Visit = (int, int);

impl Tree {
    /// Whether a directory occupies the slot.
    pub open spec fn has(self, slot: int) -> bool {
        self.nodes.dom().contains(slot)
    }

    pub open spec fn name(self, slot: int) -> Seq<u8> {
        self.nodes[slot].name
    }

    pub open spec fn parent(self, slot: int) -> int {
        self.nodes[slot].parent
    }

    pub open spec fn children(self, slot: int) -> Seq<int> {
        self.nodes[slot].children
    }

    /// A child exists, points back to its parent, and lies one step deeper.
    pub open spec fn child_ok(self, slot: int, child: int) -> bool {
        &&& self.has(child)
        &&& self.parent(child) == slot
        &&& self.depth[child] == self.depth[slot] + 1
    }

    /// What holds of every directory of a well-formed tree.
    pub open spec fn node_ok(self, slot: int) -> bool {
        &&& 0 <= slot < MAX_DIRS
        &&& self.nodes[slot].slot == slot
        &&& self.name(slot).len() == MAX_DIR_NAME
        &&& self.children(slot).len() <= MAX_CHILDREN
        &&& forall|k: int|
            0 <= k < self.children(slot).len() ==> self.child_ok(
                slot,
                #[trigger] self.children(slot)[k],
            )
        &&& forall|j: int, k: int|
            0 <= j < k < self.children(slot).len() ==> self.name(
                #[trigger] self.children(slot)[j],
            ) != self.name(#[trigger] self.children(slot)[k])
        &&& slot != 0 ==> {
            &&& self.has(self.parent(slot))
            &&& self.children(self.parent(slot)).contains(slot)
        }
    }

    /// The tree is well formed: the root sits in slot 0, at depth 0, and is
    /// its own parent; every other directory is listed by exactly the parent
    /// that it names and lies one step below it; siblings differ in name.
    pub open spec fn wf(self) -> bool {
        &&& self.has(0)
        &&& self.parent(0) == 0
        &&& self.depth[0] == 0
        &&& self.depth.dom() == self.nodes.dom()
        &&& forall|s: int| #[trigger] self.has(s) ==> self.node_ok(s)
    }

    /// The lowest empty slot at or behind `from`; the size of the pool if
    /// there is none.
    pub open spec fn first_free(self, from: int) -> int
        decreases MAX_DIRS - from,
    {
        if from >= MAX_DIRS {
            MAX_DIRS as int
        } else if !self.has(from) {
            from
        } else {
            self.first_free(from + 1)
        }
    }

    /// The slot that the next new directory gets: the lowest empty one. The
    /// pool is full when this is its size.
    pub open spec fn next_free(self) -> int {
        self.first_free(1)
    }

    /// The first child of `parent`, at or behind position `k`, that bears the name.
    pub open spec fn find_from(self, parent: int, name: Seq<u8>, k: int) -> Option<int>
        decreases self.children(parent).len() - k,
    {
        if k < 0 || k >= self.children(parent).len() {
            None
        } else if self.name(self.children(parent)[k]) == name {
            Some(self.children(parent)[k])
        } else {
            self.find_from(parent, name, k + 1)
        }
    }

    /// The child of `parent` that bears the name, if there is one.
    pub open spec fn find_child(self, parent: int, name: Seq<u8>) -> Option<int> {
        if self.has(parent) {
            self.find_from(parent, name, 0)
        } else {
            None
        }
    }

    /// What an attempt to create a child comes to: the slot that the child
    /// gets, or the reason why there will be none.
    pub open spec fn create_outcome(self, parent: int, name: Seq<u8>) -> Result<int, ShellError> {
        if !self.has(parent) {
            Err(ShellError::NotFound)
        } else if self.find_child(parent, name) is Some {
            Err(ShellError::DuplicateName)
        } else if self.next_free() >= MAX_DIRS || self.children(parent).len() >= MAX_CHILDREN {
            Err(ShellError::ArenaFull)
        } else {
            Ok(self.next_free())
        }
    }

    /// The tree with a new, childless directory in the lowest empty slot,
    /// listed last among the children of `parent`.
    pub open spec fn with_child(self, parent: int, name: Seq<u8>) -> Tree {
        let slot = self.next_free();
        let child = Node { slot, name, parent, children: Seq::empty() };
        let grown = Node { children: self.children(parent).push(slot), ..self.nodes[parent] };
        Tree {
            nodes: self.nodes.insert(slot, child).insert(parent, grown),
            depth: self.depth.insert(slot, self.depth[parent] + 1),
        }
    }

    /// Whether `slot` lies in the subtree of `top`: it is `top`, or its
    /// parent lies in that subtree.
    pub open spec fn under(self, top: int, slot: int) -> bool
        decreases self.depth[slot],
    {
        &&& self.has(slot)
        &&& slot == top || (self.depth[self.parent(slot)] < self.depth[slot] && self.under(
            top,
            self.parent(slot),
        ))
    }

    /// The tree without the subtree of `slot`: its directories are gone, and
    /// the parent of `slot` lists its other children in their old order.
    pub open spec fn without_subtree(self, slot: int) -> Tree {
        let parent = self.parent(slot);
        let siblings = self.children(parent);
        let shrunk = Node { children: siblings.remove(siblings.index_of(slot)), ..self.nodes[parent] };
        Tree {
            nodes: Map::new(
                |s: int| self.has(s) && !self.under(slot, s),
                |s: int| if s == parent { shrunk } else { self.nodes[s] },
            ),
            depth: Map::new(|s: int| self.has(s) && !self.under(slot, s), |s: int| self.depth[s]),
        }
    }

    /// What an attempt to remove a subtree comes to: the root and an empty
    /// slot cannot be removed.
    pub open spec fn remove_outcome(self, slot: int) -> Result<(), ShellError> {
        if slot != 0 && self.has(slot) {
            Ok(())
        } else {
            Err(ShellError::NotFound)
        }
    }

    /// The directories from `slot` downwards, each before its children and
    /// the children in their listed order, with `slot` at depth `depth`.
    pub open spec fn walk(self, slot: int, depth: int) -> Seq<Visit>
        decreases MAX_DIRS - self.depth[slot], self.children(slot).len() + 1,
    {
        if self.has(slot) && self.depth[slot] < MAX_DIRS {
            seq![(depth, slot)] + self.walk_rest(slot, 0, depth + 1)
        } else {
            Seq::empty()
        }
    }

    /// The subtrees of the children of `slot` from position `k` on, one after
    /// the other, each child at depth `depth`.
    pub open spec fn walk_rest(self, slot: int, k: int, depth: int) -> Seq<Visit>
        decreases MAX_DIRS - self.depth[slot], self.children(slot).len() - k,
    {
        if 0 <= k < self.children(slot).len() {
            let child = self.children(slot)[k];
            let first = if self.depth[slot] < self.depth[child] < MAX_DIRS {
                self.walk(child, depth)
            } else {
                Seq::empty()
            };
            first + self.walk_rest(slot, k + 1, depth)
        } else {
            Seq::empty()
        }
    }

    /// Whether a listing that starts at `from` comes by `slot`.
    pub open spec fn reaches(self, from: int, slot: int) -> bool {
        exists|i: int| 0 <= i < self.walk(from, 0).len() && (#[trigger] self.walk(from, 0)[i]).1 == slot
    }

    /// The listing from `start` as depths and names, with `start` at depth
    /// `level`.
    pub open spec fn listing_at(self, start: int, level: int) -> Seq<(int, Seq<u8>)> {
        self.walk(start, level).map_values(|v: Visit| (v.0, self.name(v.1)))
    }

    /// The listing from `start` as depths and names, with `start` at depth 0.
    pub open spec fn listing(self, start: int) -> Seq<(int, Seq<u8>)> {
        self.listing_at(start, 0)
    }

    /// Where, in the listing of the children of `slot`, the listing of the
    /// child at position `k` begins.
    pub open spec fn child_offset(self, slot: int, k: int, depth: int) -> int {
        self.walk_rest(slot, 0, depth).len() - self.walk_rest(slot, k, depth).len()
    }

    /// The directories on the way from the root down to `slot`.
    pub open spec fn path(self, slot: int) -> Seq<int>
        decreases self.depth[slot],
    {
        if self.has(slot) && self.depth[self.parent(slot)] < self.depth[slot] {
            self.path(self.parent(slot)).push(slot)
        } else {
            seq![slot]
        }
    }
}

/// `first_free` is the lowest empty slot at or behind `from`: every slot
/// between `from` and it is occupied, and it is empty unless it is the size
/// of the pool.
pub proof fn lemma_first_free(t: Tree, from: int)
    requires
        from <= MAX_DIRS,
    ensures
        from <= t.first_free(from) <= MAX_DIRS,
        forall|s: int| from <= s < t.first_free(from) ==> #[trigger] t.has(s),
        t.first_free(from) < MAX_DIRS ==> !t.has(t.first_free(from)),
    decreases MAX_DIRS - from,
{
    if from < MAX_DIRS && t.has(from) {
        lemma_first_free(t, from + 1);
    }
}

/// Over occupied slots the search for an empty one passes on.
pub proof fn lemma_first_free_skip(t: Tree, from: int, to: int)
    requires
        from <= to <= MAX_DIRS,
        forall|s: int| from <= s < to ==> #[trigger] t.has(s),
    ensures
        t.first_free(from) == t.first_free(to),
    decreases to - from,
{
    if from < to {
        assert(t.has(from));
        lemma_first_free_skip(t, from + 1, to);
    }
}

/// What `find_from` returns is a child at or behind `k` that bears the name
/// and that no other such child precedes; it returns nothing only if no
/// child at or behind `k` bears the name.
pub proof fn lemma_find_from(t: Tree, parent: int, name: Seq<u8>, k: int)
    requires
        0 <= k,
    ensures
        match t.find_from(parent, name, k) {
            Some(c) => exists|i: int|
                k <= i < t.children(parent).len() && #[trigger] t.children(parent)[i] == c
                    && t.name(c) == name && forall|j: int|
                    k <= j < i ==> t.name(#[trigger] t.children(parent)[j]) != name,
            None => forall|j: int|
                k <= j < t.children(parent).len() ==> t.name(#[trigger] t.children(parent)[j])
                    != name,
        },
    decreases t.children(parent).len() - k,
{
    if k < t.children(parent).len() {
        if t.name(t.children(parent)[k]) == name {
            assert(t.children(parent)[k] == t.children(parent)[k]);
        } else {
            lemma_find_from(t, parent, name, k + 1);
        }
    }
}

/// A child that `find_child` returns is a child in good standing of the
/// directory that was searched: it is listed there, exists, bears the name,
/// points back, lies one step deeper, is not the root, and does not have
/// that directory below it.
pub proof fn lemma_found_child(t: Tree, parent: int, name: Seq<u8>)
    requires
        t.wf(),
        t.find_child(parent, name) is Some,
    ensures
        ({
            let child = t.find_child(parent, name)->Some_0;
            &&& t.has(parent)
            &&& t.children(parent).contains(child)
            &&& t.child_ok(parent, child)
            &&& t.name(child) == name
            &&& child != 0
            &&& !t.under(child, parent)
        }),
{
    let child = t.find_child(parent, name)->Some_0;
    lemma_find_from(t, parent, name, 0);
    assert(t.node_ok(parent));
    let i = choose|i: int|
        0 <= i < t.children(parent).len() && #[trigger] t.children(parent)[i] == child;
    assert(t.child_ok(parent, t.children(parent)[i]));
    if t.under(child, parent) {
        lemma_under_bounds(t, child, parent);
    }
}

/// A directory other than the root is a child of the parent that it names.
pub proof fn lemma_child_of_parent(t: Tree, slot: int)
    requires
        t.wf(),
        t.has(slot),
        slot != 0,
    ensures
        t.child_ok(t.parent(slot), slot),
        t.has(t.parent(slot)),
{
    assert(t.node_ok(slot));
    let p = t.parent(slot);
    assert(t.node_ok(p));
    let i = choose|i: int| 0 <= i < t.children(p).len() && t.children(p)[i] == slot;
    assert(t.child_ok(p, t.children(p)[i]));
}

/// A directory of a subtree exists and lies no higher than the top of the
/// subtree, and at the same depth only if it is the top.
pub proof fn lemma_under_bounds(t: Tree, top: int, slot: int)
    requires
        t.under(top, slot),
    ensures
        t.has(slot),
        t.has(top),
        t.depth[top] <= t.depth[slot],
        t.depth[top] == t.depth[slot] ==> slot == top,
    decreases t.depth[slot],
{
    if slot != top {
        lemma_under_bounds(t, top, t.parent(slot));
    }
}

/// A subtree holds the subtrees of its members.
pub proof fn lemma_under_trans(t: Tree, a: int, b: int, c: int)
    requires
        t.under(a, b),
        t.under(b, c),
    ensures
        t.under(a, c),
    decreases t.depth[c],
{
    if c != b {
        lemma_under_trans(t, a, b, t.parent(c));
    }
}

/// The subtrees of two different directories at the same depth share
/// nothing; so do those of two different children of one directory.
pub proof fn lemma_siblings_apart(t: Tree, c1: int, c2: int, slot: int)
    requires
        c1 != c2,
        t.depth[c1] == t.depth[c2],
        t.under(c1, slot),
    ensures
        !t.under(c2, slot),
    decreases t.depth[slot],
{
    if t.under(c2, slot) {
        if slot == c1 {
            lemma_under_bounds(t, c2, c1);
        } else if slot == c2 {
            lemma_under_bounds(t, c1, c2);
        } else {
            lemma_siblings_apart(t, c1, c2, t.parent(slot));
        }
    }
}

/// Whatever lies in a subtree, and is not its top, lies in the subtree of
/// one of the top's children.
pub proof fn lemma_under_child(t: Tree, top: int, slot: int) -> (k: int)
    requires
        t.wf(),
        t.under(top, slot),
        slot != top,
    ensures
        0 <= k < t.children(top).len(),
        t.under(t.children(top)[k], slot),
    decreases t.depth[slot],
{
    let p = t.parent(slot);
    lemma_under_bounds(t, top, p);
    assert(t.has(slot));
    assert(t.node_ok(slot));
    assert(slot != 0);
    if p == top {
        let k = choose|k: int| 0 <= k < t.children(p).len() && t.children(p)[k] == slot;
        k
    } else {
        let k = lemma_under_child(t, top, p);
        k
    }
}

/// The way from the root to a directory has one directory for every depth
/// down to its own.
proof fn lemma_path(t: Tree, slot: int)
    requires
        t.wf(),
        t.has(slot),
    ensures
        t.path(slot).len() == t.depth[slot] + 1,
        forall|i: int|
            0 <= i < t.path(slot).len() ==> t.has(#[trigger] t.path(slot)[i]) && t.depth[t.path(
                slot,
            )[i]] == i,
    decreases t.depth[slot],
{
    if slot != 0 {
        lemma_child_of_parent(t, slot);
        lemma_path(t, t.parent(slot));
    }
}

/// No directory lies deeper than there are slots.
pub proof fn lemma_depth_bound(t: Tree, slot: int)
    requires
        t.wf(),
        t.has(slot),
    ensures
        t.depth[slot] < MAX_DIRS,
{
    lemma_path(t, slot);
    let p = t.path(slot);
    assert(p.no_duplicates());
    p.unique_seq_to_set();
    lemma_int_range(0, MAX_DIRS as int);
    assert forall|a: int| p.to_set().contains(a) implies set_int_range(0, MAX_DIRS as int).contains(
        a,
    ) by {
        let i = choose|i: int| 0 <= i < p.len() && p[i] == a;
        assert(t.has(p[i]));
        assert(t.node_ok(a));
    }
    lemma_len_subset(p.to_set(), set_int_range(0, MAX_DIRS as int));
}

/// A listing visits only directories that exist, and each of them lies in
/// the subtree of the start.
pub proof fn lemma_walk_under(t: Tree, slot: int, depth: int)
    requires
        t.wf(),
    ensures
        forall|i: int|
            0 <= i < t.walk(slot, depth).len() ==> t.under(slot, (#[trigger] t.walk(slot, depth)[i]).1),
    decreases MAX_DIRS - t.depth[slot], t.children(slot).len() + 1,
{
    if t.has(slot) && t.depth[slot] < MAX_DIRS {
        lemma_walk_rest_under(t, slot, 0, depth + 1);
        let head = seq![(depth, slot)];
        let rest = t.walk_rest(slot, 0, depth + 1);
        assert forall|i: int| 0 <= i < (head + rest).len() implies t.under(
            slot,
            (#[trigger] (head + rest)[i]).1,
        ) by {
            if i > 0 {
                assert((head + rest)[i] == rest[i - 1]);
            }
        }
    }
}

/// The same of the listing of the children from position `k` on.
pub proof fn lemma_walk_rest_under(t: Tree, slot: int, k: int, depth: int)
    requires
        t.wf(),
        t.has(slot),
        t.depth[slot] < MAX_DIRS,
    ensures
        forall|i: int|
            0 <= i < t.walk_rest(slot, k, depth).len() ==> t.under(
                slot,
                (#[trigger] t.walk_rest(slot, k, depth)[i]).1,
            ),
    decreases MAX_DIRS - t.depth[slot], t.children(slot).len() - k,
{
    if 0 <= k < t.children(slot).len() {
        let child = t.children(slot)[k];
        assert(t.node_ok(slot));
        assert(t.child_ok(slot, child));
        lemma_depth_bound(t, child);
        lemma_walk_under(t, child, depth);
        lemma_walk_rest_under(t, slot, k + 1, depth);
        let first = t.walk(child, depth);
        let rest = t.walk_rest(slot, k + 1, depth);
        assert(t.under(slot, slot));
        assert(t.under(slot, child));
        assert forall|i: int| 0 <= i < (first + rest).len() implies t.under(
            slot,
            (#[trigger] (first + rest)[i]).1,
        ) by {
            if i < first.len() {
                lemma_under_trans(t, slot, child, first[i].1);
            } else {
                assert((first + rest)[i] == rest[i - first.len()]);
            }
        }
    }
}

/// A well-formed tree stays well formed when a directory is created in it.
pub proof fn lemma_with_child_wf(t: Tree, parent: int, name: Seq<u8>)
    requires
        t.wf(),
        t.create_outcome(parent, name) is Ok,
        name.len() == MAX_DIR_NAME,
    ensures
        t.with_child(parent, name).wf(),
        !t.has(t.next_free()),
        1 <= t.next_free() < MAX_DIRS,
{
    let n = t.with_child(parent, name);
    let slot = t.next_free();
    lemma_first_free(t, 1);
    assert(t.node_ok(parent));
    lemma_find_from(t, parent, name, 0);
    assert(n.children(parent)[t.children(parent).len() as int] == slot);
    assert(n.depth.dom() =~= n.nodes.dom());
    assert forall|s: int| #[trigger] n.has(s) implies n.node_ok(s) by {
        if s == slot {
            assert(n.children(parent).contains(slot));
        } else {
            assert(t.has(s));
            assert(t.node_ok(s));
            assert forall|k: int| 0 <= k < n.children(s).len() implies n.child_ok(
                s,
                #[trigger] n.children(s)[k],
            ) by {
                if s == parent && k == t.children(parent).len() {
                } else {
                    let c = t.children(s)[k];
                    assert(t.child_ok(s, c));
                    assert(t.node_ok(c));
                }
            }
            assert forall|j: int, k: int| 0 <= j < k < n.children(s).len() implies n.name(
                #[trigger] n.children(s)[j],
            ) != n.name(#[trigger] n.children(s)[k]) by {
                let cj = n.children(s)[j];
                assert(t.child_ok(s, t.children(s)[j]));
                assert(t.node_ok(cj));
                if s == parent && k == t.children(parent).len() {
                    assert(t.name(t.children(parent)[j]) != name);
                } else {
                    let ck = n.children(s)[k];
                    assert(t.child_ok(s, t.children(s)[k]));
                    assert(t.node_ok(ck));
                }
            }
            if s != 0 {
                let p = t.parent(s);
                let i = choose|i: int| 0 <= i < t.children(p).len() && t.children(p)[i] == s;
                assert(n.children(p)[i] == s);
            }
        }
    }
}

/// A well-formed tree stays well formed when a subtree is removed from it.
pub proof fn lemma_without_subtree_wf(t: Tree, slot: int)
    requires
        t.wf(),
        t.remove_outcome(slot) is Ok,
    ensures
        t.without_subtree(slot).wf(),
{
    let n = t.without_subtree(slot);
    let parent = t.parent(slot);
    let siblings = t.children(parent);
    let at = siblings.index_of(slot);
    lemma_child_of_parent(t, slot);
    assert(t.node_ok(slot));
    assert(t.node_ok(parent));
    assert(siblings.contains(slot));
    assert(0 <= at < siblings.len() && siblings[at] == slot);
    siblings.remove_ensures(at);
    let kept = siblings.remove(at);
    // every kept child is an old child, at its old position or one further on
    assert forall|k: int| 0 <= k < kept.len() implies {
        let o = if k < at { k } else { k + 1 };
        #[trigger] kept[k] == siblings[o] && kept[k] != slot
    } by {
        let o = if k < at { k } else { k + 1 };
        assert(t.child_ok(parent, siblings[o]));
        assert(t.node_ok(siblings[o]));
        if siblings[o] == slot {
            if o < at {
                assert(t.name(siblings[o]) != t.name(siblings[at]));
            } else {
                assert(t.name(siblings[at]) != t.name(siblings[o]));
            }
        }
    }
    if t.under(slot, 0) {
        lemma_under_bounds(t, slot, 0);
    }
    if t.under(slot, parent) {
        lemma_under_bounds(t, slot, parent);
    }
    assert(n.has(0));
    assert(n.has(parent));
    assert(n.depth.dom() =~= n.nodes.dom());
    assert forall|s: int| #[trigger] n.has(s) implies n.node_ok(s) by {
        assert(t.has(s));
        assert(t.node_ok(s));
        assert forall|k: int| 0 <= k < n.children(s).len() implies n.child_ok(
            s,
            #[trigger] n.children(s)[k],
        ) by {
            let c = n.children(s)[k];
            if s == parent {
                let o = if k < at { k } else { k + 1 };
                assert(kept[k] == siblings[o]);
                assert(t.child_ok(s, siblings[o]));
            } else {
                assert(t.child_ok(s, t.children(s)[k]));
            }
            assert(t.child_ok(s, c));
            assert(c != slot);
            if t.under(slot, c) {
                assert(t.under(slot, s));
            }
        }
        assert forall|j: int, k: int| 0 <= j < k < n.children(s).len() implies n.name(
            #[trigger] n.children(s)[j],
        ) != n.name(#[trigger] n.children(s)[k]) by {
            let cj = n.children(s)[j];
            let ck = n.children(s)[k];
            if s == parent {
                let oj = if j < at { j } else { j + 1 };
                let ok = if k < at { k } else { k + 1 };
                assert(kept[j] == siblings[oj]);
                assert(kept[k] == siblings[ok]);
                assert(t.child_ok(s, siblings[oj]));
                assert(t.child_ok(s, siblings[ok]));
                assert(t.name(siblings[oj]) != t.name(siblings[ok]));
            } else {
                assert(t.child_ok(s, t.children(s)[j]));
                assert(t.child_ok(s, t.children(s)[k]));
            }
        }
        if s != 0 {
            let p = t.parent(s);
            lemma_child_of_parent(t, s);
            if t.under(slot, p) {
                assert(t.under(slot, s));
            }
            assert(n.has(p));
            let i = choose|i: int| 0 <= i < t.children(p).len() && t.children(p)[i] == s;
            if p == parent {
                assert(s != slot);
                assert(i != at);
                let k = if i < at { i } else { i - 1 };
                assert(kept[k] == s);
                assert(n.children(p)[k] == s);
            } else {
                assert(n.children(p)[i] == s);
            }
        }
    }
}

/// A listing of a well-formed tree visits only directories that exist.
pub proof fn lemma_reaches_has(t: Tree, from: int, slot: int)
    requires
        t.wf(),
        t.reaches(from, slot),
    ensures
        t.has(slot),
        t.under(from, slot),
{
    lemma_walk_under(t, from, 0);
    let i = choose|i: int| 0 <= i < t.walk(from, 0).len() && (#[trigger] t.walk(from, 0)[i]).1 == slot;
    lemma_under_bounds(t, from, t.walk(from, 0)[i].1);
}

/// A directory that has just been created is listed by its parent exactly
/// once, behind the children that were there before, which keep their
/// places; nothing is listed twice.
pub proof fn lemma_created_child_listed_once(t: Tree, parent: int, name: Seq<u8>)
    requires
        t.wf(),
        t.create_outcome(parent, name) is Ok,
    ensures
        ({
            let slot = t.create_outcome(parent, name)->Ok_0;
            let grown = t.with_child(parent, name);
            &&& grown.has(slot)
            &&& grown.name(slot) == name
            &&& grown.parent(slot) == parent
            &&& grown.children(parent) == t.children(parent).push(slot)
            &&& !t.children(parent).contains(slot)
            &&& grown.children(parent).no_duplicates()
        }),
{
    let slot = t.next_free();
    let grown = t.with_child(parent, name);
    lemma_first_free(t, 1);
    assert(t.node_ok(parent));
    if t.children(parent).contains(slot) {
        let i = choose|i: int| 0 <= i < t.children(parent).len() && t.children(parent)[i] == slot;
        assert(t.child_ok(parent, t.children(parent)[i]));
    }
    let old_list = t.children(parent);
    let new_list = grown.children(parent);
    assert forall|i: int, j: int|
        0 <= i < new_list.len() && 0 <= j < new_list.len() && i != j implies new_list[i]
        != new_list[j] by {
        if i < old_list.len() && j < old_list.len() {
            if i < j {
                assert(t.name(old_list[i]) != t.name(old_list[j]));
            } else {
                assert(t.name(old_list[j]) != t.name(old_list[i]));
            }
        } else if i < old_list.len() {
            assert(old_list[i] == new_list[i]);
        } else {
            assert(old_list[j] == new_list[j]);
        }
    }
}

/// Nothing of a removed subtree is left: none of its directories exists
/// afterwards, no listing from any start comes by one of them, and the
/// parent of the removed directory lists its other children, in their old
/// order and without a gap, and the removed one no more.
pub proof fn lemma_removed_subtree_gone(t: Tree, slot: int, gone: int, from: int)
    requires
        t.wf(),
        t.remove_outcome(slot) is Ok,
        t.under(slot, gone),
    ensures
        ({
            let rest = t.without_subtree(slot);
            let parent = t.parent(slot);
            let at = t.children(parent).index_of(slot);
            &&& rest.wf()
            &&& !rest.has(gone)
            &&& !rest.reaches(from, gone)
            &&& 0 <= at < t.children(parent).len()
            &&& t.children(parent)[at] == slot
            &&& rest.children(parent) == t.children(parent).remove(at)
            &&& !rest.children(parent).contains(slot)
        }),
{
    let rest = t.without_subtree(slot);
    let parent = t.parent(slot);
    let siblings = t.children(parent);
    let at = siblings.index_of(slot);
    lemma_without_subtree_wf(t, slot);
    if rest.reaches(from, gone) {
        lemma_reaches_has(rest, from, gone);
    }
    lemma_child_of_parent(t, slot);
    assert(t.node_ok(slot));
    assert(t.node_ok(parent));
    assert(siblings.contains(slot));
    if t.under(slot, parent) {
        lemma_under_bounds(t, slot, parent);
    }
    assert(rest.has(parent));
    siblings.remove_ensures(at);
    if rest.children(parent).contains(slot) {
        let k = choose|k: int| 0 <= k < siblings.remove(at).len() && siblings.remove(at)[k] == slot;
        let o = if k < at { k } else { k + 1 };
        assert(siblings[o] == slot);
        if o < at {
            assert(t.name(siblings[o]) != t.name(siblings[at]));
        } else {
            assert(t.name(siblings[at]) != t.name(siblings[o]));
        }
    }
}

/// The listing of the children of `top` from position `j` on holds the
/// whole listing of each child at or behind `j`.
proof fn lemma_rest_holds_child(t: Tree, top: int, j: int, k: int, depth: int, i: int) -> (at: int)
    requires
        t.wf(),
        t.has(top),
        0 <= j <= k < t.children(top).len(),
        0 <= i < t.walk(t.children(top)[k], depth).len(),
    ensures
        0 <= at < t.walk_rest(top, j, depth).len(),
        t.walk_rest(top, j, depth)[at] == t.walk(t.children(top)[k], depth)[i],
    decreases k - j,
{
    let child = t.children(top)[j];
    assert(t.node_ok(top));
    assert(t.child_ok(top, child));
    lemma_depth_bound(t, child);
    let first = t.walk(child, depth);
    let rest = t.walk_rest(top, j + 1, depth);
    assert(t.walk_rest(top, j, depth) == first + rest);
    if j == k {
        i
    } else {
        let at = lemma_rest_holds_child(t, top, j + 1, k, depth, i);
        assert((first + rest)[first.len() + at] == rest[at]);
        first.len() + at
    }
}

/// A listing from a directory comes by everything in its subtree, at
/// whatever depth the listing starts.
pub proof fn lemma_under_is_listed(t: Tree, top: int, slot: int, depth: int) -> (at: int)
    requires
        t.wf(),
        t.under(top, slot),
    ensures
        0 <= at < t.walk(top, depth).len(),
        t.walk(top, depth)[at].1 == slot,
    decreases MAX_DIRS - t.depth[top],
{
    lemma_under_bounds(t, top, slot);
    lemma_depth_bound(t, top);
    if slot == top {
        0
    } else {
        let k = lemma_under_child(t, top, slot);
        let child = t.children(top)[k];
        assert(t.node_ok(top));
        assert(t.child_ok(top, child));
        lemma_depth_bound(t, child);
        let i = lemma_under_is_listed(t, child, slot, depth + 1);
        let j = lemma_rest_holds_child(t, top, 0, k, depth + 1, i);
        let head = seq![(depth, top)];
        let rest = t.walk_rest(top, 0, depth + 1);
        assert((head + rest)[j + 1] == rest[j]);
        j + 1
    }
}

/// The subtree of a directory is what a listing from it comes by: the
/// directory and all that can be reached from it by way of children.
pub proof fn lemma_subtree_is_what_is_listed(t: Tree, top: int, slot: int)
    requires
        t.wf(),
    ensures
        t.under(top, slot) <==> t.reaches(top, slot),
{
    if t.under(top, slot) {
        let at = lemma_under_is_listed(t, top, slot, 0);
        assert(t.walk(top, 0)[at].1 == slot);
    }
    if t.reaches(top, slot) {
        lemma_reaches_has(t, top, slot);
    }
}

/// A slot that a removal has emptied is handed out again: after a subtree
/// is removed, the next new directory gets a slot no higher than that of
/// the removed directory, so the pool is not full.
pub proof fn lemma_removed_slot_is_free(t: Tree, slot: int)
    requires
        t.wf(),
        t.remove_outcome(slot) is Ok,
    ensures
        1 <= t.without_subtree(slot).next_free() <= slot,
{
    let rest = t.without_subtree(slot);
    lemma_first_free(rest, 1);
    assert(t.node_ok(slot));
    assert(t.under(slot, slot));
    if rest.next_free() > slot {
        assert(rest.has(slot));
    }
}

/// A listing is in pre-order: it begins with the line of its start, at the
/// starting depth, and goes on with the listings of the children, one
/// child after the other in the order in which the start lists them, each
/// one level deeper. A directory without children is listed as one line.
pub proof fn lemma_listing_is_pre_order(t: Tree, slot: int, depth: int)
    requires
        t.wf(),
        t.has(slot),
    ensures
        t.walk(slot, depth) == seq![(depth, slot)] + t.walk_rest(slot, 0, depth + 1),
        t.walk(slot, depth)[0] == (depth, slot),
        forall|k: int|
            0 <= k < t.children(slot).len() ==> #[trigger] t.walk_rest(slot, k, depth + 1)
                == t.walk(t.children(slot)[k], depth + 1) + t.walk_rest(slot, k + 1, depth + 1),
        t.walk_rest(slot, t.children(slot).len() as int, depth + 1) == Seq::<Visit>::empty(),
        t.children(slot).len() == 0 ==> t.walk(slot, depth) == seq![(depth, slot)],
{
    lemma_depth_bound(t, slot);
    assert(t.node_ok(slot));
    assert forall|k: int| 0 <= k < t.children(slot).len() implies #[trigger] t.walk_rest(
        slot,
        k,
        depth + 1,
    ) == t.walk(t.children(slot)[k], depth + 1) + t.walk_rest(slot, k + 1, depth + 1) by {
        assert(t.child_ok(slot, t.children(slot)[k]));
        lemma_depth_bound(t, t.children(slot)[k]);
    }
    if t.children(slot).len() == 0 {
        assert(seq![(depth, slot)] + Seq::<Visit>::empty() =~= seq![(depth, slot)]);
    }
}

/// The depth of a line is the depth at which the listing starts plus the
/// number of steps from the start down to the directory of the line.
pub proof fn lemma_line_depth(t: Tree, slot: int, depth: int, i: int)
    requires
        t.wf(),
        0 <= i < t.walk(slot, depth).len(),
    ensures
        t.walk(slot, depth)[i].0 == depth + t.depth[t.walk(slot, depth)[i].1] - t.depth[slot],
    decreases MAX_DIRS - t.depth[slot], t.children(slot).len() + 1,
{
    if i > 0 {
        let head = seq![(depth, slot)];
        let rest = t.walk_rest(slot, 0, depth + 1);
        assert((head + rest)[i] == rest[i - 1]);
        lemma_rest_line_depth(t, slot, 0, depth + 1, i - 1);
    }
}

/// The same of the listing of the children from position `k` on.
proof fn lemma_rest_line_depth(t: Tree, slot: int, k: int, depth: int, i: int)
    requires
        t.wf(),
        t.has(slot),
        t.depth[slot] < MAX_DIRS,
        0 <= i < t.walk_rest(slot, k, depth).len(),
    ensures
        t.walk_rest(slot, k, depth)[i].0 == depth + t.depth[t.walk_rest(slot, k, depth)[i].1]
            - t.depth[slot] - 1,
    decreases MAX_DIRS - t.depth[slot], t.children(slot).len() - k,
{
    let child = t.children(slot)[k];
    assert(t.node_ok(slot));
    assert(t.child_ok(slot, child));
    lemma_depth_bound(t, child);
    let first = t.walk(child, depth);
    let rest = t.walk_rest(slot, k + 1, depth);
    if i < first.len() {
        lemma_line_depth(t, child, depth, i);
    } else {
        assert((first + rest)[i] == rest[i - first.len()]);
        lemma_rest_line_depth(t, slot, k + 1, depth, i - first.len());
    }
}

/// Every directory in the listing of the children of `slot` from position
/// `k` on lies in the subtree of one of those children.
proof fn lemma_rest_under_child(t: Tree, slot: int, k: int, depth: int, i: int) -> (j: int)
    requires
        t.wf(),
        t.has(slot),
        0 <= i < t.walk_rest(slot, k, depth).len(),
    ensures
        k <= j < t.children(slot).len(),
        t.under(t.children(slot)[j], t.walk_rest(slot, k, depth)[i].1),
    decreases t.children(slot).len() - k,
{
    let child = t.children(slot)[k];
    assert(t.node_ok(slot));
    assert(t.child_ok(slot, child));
    lemma_depth_bound(t, child);
    let first = t.walk(child, depth);
    let rest = t.walk_rest(slot, k + 1, depth);
    if i < first.len() {
        lemma_walk_under(t, child, depth);
        k
    } else {
        assert((first + rest)[i] == rest[i - first.len()]);
        lemma_rest_under_child(t, slot, k + 1, depth, i - first.len())
    }
}

/// No directory is listed twice.
pub proof fn lemma_listed_once(t: Tree, slot: int, depth: int, i: int, j: int)
    requires
        t.wf(),
        0 <= i < j < t.walk(slot, depth).len(),
    ensures
        t.walk(slot, depth)[i].1 != t.walk(slot, depth)[j].1,
    decreases MAX_DIRS - t.depth[slot], t.children(slot).len() + 1,
{
    let head = seq![(depth, slot)];
    let rest = t.walk_rest(slot, 0, depth + 1);
    assert((head + rest)[j] == rest[j - 1]);
    if i == 0 {
        let k = lemma_rest_under_child(t, slot, 0, depth + 1, j - 1);
        assert(t.node_ok(slot));
        assert(t.child_ok(slot, t.children(slot)[k]));
        lemma_under_bounds(t, t.children(slot)[k], rest[j - 1].1);
    } else {
        assert((head + rest)[i] == rest[i - 1]);
        lemma_rest_listed_once(t, slot, 0, depth + 1, i - 1, j - 1);
    }
}

/// The same of the listing of the children from position `k` on.
proof fn lemma_rest_listed_once(t: Tree, slot: int, k: int, depth: int, i: int, j: int)
    requires
        t.wf(),
        t.has(slot),
        t.depth[slot] < MAX_DIRS,
        0 <= i < j < t.walk_rest(slot, k, depth).len(),
    ensures
        t.walk_rest(slot, k, depth)[i].1 != t.walk_rest(slot, k, depth)[j].1,
    decreases MAX_DIRS - t.depth[slot], t.children(slot).len() - k,
{
    let child = t.children(slot)[k];
    assert(t.node_ok(slot));
    assert(t.child_ok(slot, child));
    lemma_depth_bound(t, child);
    let first = t.walk(child, depth);
    let rest = t.walk_rest(slot, k + 1, depth);
    if j < first.len() {
        lemma_listed_once(t, child, depth, i, j);
    } else if i >= first.len() {
        assert((first + rest)[i] == rest[i - first.len()]);
        assert((first + rest)[j] == rest[j - first.len()]);
        lemma_rest_listed_once(t, slot, k + 1, depth, i - first.len(), j - first.len());
    } else {
        assert((first + rest)[j] == rest[j - first.len()]);
        lemma_walk_under(t, child, depth);
        let other = lemma_rest_under_child(t, slot, k + 1, depth, j - first.len());
        let sibling = t.children(slot)[other];
        assert(t.child_ok(slot, sibling));
        assert(t.name(child) != t.name(sibling));
        lemma_siblings_apart(t, child, sibling, first[i].1);
    }
}

/// A listing has as many lines as the subtree of its start has
/// directories: one for each of them and none for any other.
pub proof fn lemma_listing_counts_subtree(t: Tree, slot: int, depth: int)
    requires
        t.wf(),
    ensures
        Set::new(|s: int| t.under(slot, s)).finite(),
        t.walk(slot, depth).len() == Set::new(|s: int| t.under(slot, s)).len(),
        t.listing_at(slot, depth).len() == t.walk(slot, depth).len(),
{
    let walk = t.walk(slot, depth);
    let slots = walk.map_values(|v: Visit| v.1);
    assert forall|i: int, j: int| 0 <= i < slots.len() && 0 <= j < slots.len() && i != j implies slots[i]
        != slots[j] by {
        if i < j {
            lemma_listed_once(t, slot, depth, i, j);
        } else {
            lemma_listed_once(t, slot, depth, j, i);
        }
    }
    slots.unique_seq_to_set();
    lemma_walk_under(t, slot, depth);
    assert(slots.to_set() =~= Set::new(|s: int| t.under(slot, s))) by {
        assert forall|s: int| t.under(slot, s) implies slots.to_set().contains(s) by {
            let at = lemma_under_is_listed(t, slot, s, depth);
            assert(slots[at] == s);
        }
        assert forall|s: int| slots.to_set().contains(s) implies t.under(slot, s) by {
            let at = choose|at: int| 0 <= at < slots.len() && slots[at] == s;
            assert(t.under(slot, walk[at].1));
        }
    }
    lemma_int_range(0, MAX_DIRS as int);
    assert forall|s: int| slots.to_set().contains(s) implies set_int_range(
        0,
        MAX_DIRS as int,
    ).contains(s) by {
        assert(t.has(s));
        assert(t.node_ok(s));
    }
    lemma_len_subset(slots.to_set(), set_int_range(0, MAX_DIRS as int));
}

/// The listing of a later child begins behind that of an earlier one.
pub proof fn lemma_offset_grows(t: Tree, slot: int, a: int, b: int, depth: int)
    requires
        t.wf(),
        t.has(slot),
        0 <= a < b <= t.children(slot).len(),
    ensures
        t.child_offset(slot, a, depth) < t.child_offset(slot, b, depth),
    decreases b - a,
{
    let child = t.children(slot)[a];
    assert(t.node_ok(slot));
    assert(t.child_ok(slot, child));
    lemma_listing_is_pre_order(t, child, depth);
    lemma_listing_is_pre_order(t, slot, depth - 1);
    let first = t.walk(child, depth);
    let rest = t.walk_rest(slot, a + 1, depth);
    assert(t.walk_rest(slot, a, depth) == first + rest);
    assert(first.len() >= 1);
    if a + 1 < b {
        lemma_offset_grows(t, slot, a + 1, b, depth);
    }
}

/// The listing of the children of `slot` from position `k` on is the end
/// of the listing of all its children, from where the child at `k` begins.
proof fn lemma_rest_is_suffix(t: Tree, slot: int, k: int, depth: int)
    requires
        t.wf(),
        t.has(slot),
        0 <= k <= t.children(slot).len(),
    ensures
        0 <= t.child_offset(slot, k, depth) <= t.walk_rest(slot, 0, depth).len(),
        t.walk_rest(slot, 0, depth).subrange(
            t.child_offset(slot, k, depth),
            t.walk_rest(slot, 0, depth).len() as int,
        ) == t.walk_rest(slot, k, depth),
    decreases k,
{
    let all = t.walk_rest(slot, 0, depth);
    if k == 0 {
        assert(all.subrange(0, all.len() as int) =~= all);
    } else {
        lemma_rest_is_suffix(t, slot, k - 1, depth);
        let child = t.children(slot)[k - 1];
        assert(t.node_ok(slot));
        assert(t.child_ok(slot, child));
        lemma_depth_bound(t, child);
        let first = t.walk(child, depth);
        let rest = t.walk_rest(slot, k, depth);
        assert(t.walk_rest(slot, k - 1, depth) == first + rest);
        let before = t.child_offset(slot, k - 1, depth);
        assert(all.subrange(before + first.len(), all.len() as int) =~= rest) by {
            assert forall|m: int| 0 <= m < rest.len() implies all[before + first.len() + m]
                == rest[m] by {
                assert(all.subrange(before, all.len() as int)[first.len() + m] == (first
                    + rest)[first.len() + m]);
            }
        }
    }
}

/// Where a listing comes by a directory, the whole listing of that
/// directory follows, line for line.
pub proof fn lemma_sub_listing(t: Tree, top: int, depth: int, i: int, m: int)
    requires
        t.wf(),
        0 <= i < t.walk(top, depth).len(),
        0 <= m < t.walk(t.walk(top, depth)[i].1, t.walk(top, depth)[i].0).len(),
    ensures
        i + m < t.walk(top, depth).len(),
        t.walk(top, depth)[i + m] == t.walk(t.walk(top, depth)[i].1, t.walk(top, depth)[i].0)[m],
    decreases MAX_DIRS - t.depth[top], t.children(top).len() + 1,
{
    if i > 0 {
        let head = seq![(depth, top)];
        let rest = t.walk_rest(top, 0, depth + 1);
        assert((head + rest)[i] == rest[i - 1]);
        lemma_rest_sub_listing(t, top, 0, depth + 1, i - 1, m);
        assert((head + rest)[i + m] == rest[i + m - 1]);
    }
}

/// The same of the listing of the children from position `k` on.
proof fn lemma_rest_sub_listing(t: Tree, top: int, k: int, depth: int, i: int, m: int)
    requires
        t.wf(),
        t.has(top),
        t.depth[top] < MAX_DIRS,
        0 <= i < t.walk_rest(top, k, depth).len(),
        0 <= m < t.walk(t.walk_rest(top, k, depth)[i].1, t.walk_rest(top, k, depth)[i].0).len(),
    ensures
        i + m < t.walk_rest(top, k, depth).len(),
        t.walk_rest(top, k, depth)[i + m] == t.walk(
            t.walk_rest(top, k, depth)[i].1,
            t.walk_rest(top, k, depth)[i].0,
        )[m],
    decreases MAX_DIRS - t.depth[top], t.children(top).len() - k,
{
    let child = t.children(top)[k];
    assert(t.node_ok(top));
    assert(t.child_ok(top, child));
    lemma_depth_bound(t, child);
    let first = t.walk(child, depth);
    let rest = t.walk_rest(top, k + 1, depth);
    if i < first.len() {
        assert((first + rest)[i] == first[i]);
        lemma_sub_listing(t, child, depth, i, m);
        assert((first + rest)[i + m] == first[i + m]);
    } else {
        assert((first + rest)[i] == rest[i - first.len()]);
        lemma_rest_sub_listing(t, top, k + 1, depth, i - first.len(), m);
        assert((first + rest)[i + m] == rest[i + m - first.len()]);
    }
}

/// The line of a directory comes before the lines of its children, and the
/// lines of its children come in the order in which it lists them: the
/// line of the child at position `k` stands at `at`, behind the line of the
/// directory at `i` and behind the line of every earlier child, one level
/// deeper.
pub proof fn lemma_children_follow_in_order(t: Tree, top: int, depth: int, i: int, k: int) -> (at:
    int)
    requires
        t.wf(),
        0 <= i < t.walk(top, depth).len(),
        0 <= k < t.children(t.walk(top, depth)[i].1).len(),
    ensures
        ({
            let line = t.walk(top, depth)[i];
            &&& at == i + 1 + t.child_offset(line.1, k, line.0 + 1)
            &&& i < at < t.walk(top, depth).len()
            &&& t.walk(top, depth)[at] == (line.0 + 1, t.children(line.1)[k])
            &&& forall|j: int|
                0 <= j < k ==> #[trigger] t.child_offset(line.1, j, line.0 + 1) < t.child_offset(
                    line.1,
                    k,
                    line.0 + 1,
                )
        }),
{
    let line = t.walk(top, depth)[i];
    let p = line.1;
    let e = line.0;
    lemma_walk_under(t, top, depth);
    lemma_under_bounds(t, top, p);
    lemma_listing_is_pre_order(t, p, e);
    let all = t.walk_rest(p, 0, e + 1);
    let off = t.child_offset(p, k, e + 1);
    lemma_rest_is_suffix(t, p, k, e + 1);
    let child = t.children(p)[k];
    assert(t.node_ok(p));
    assert(t.child_ok(p, child));
    lemma_listing_is_pre_order(t, child, e + 1);
    let from_k = t.walk_rest(p, k, e + 1);
    assert(from_k == t.walk(child, e + 1) + t.walk_rest(p, k + 1, e + 1));
    assert(from_k[0] == (e + 1, child));
    assert(all.subrange(off, all.len() as int)[0] == all[off]);
    assert((seq![(e, p)] + all)[1 + off] == all[off]);
    lemma_sub_listing(t, top, depth, i, 1 + off);
    assert forall|j: int| 0 <= j < k implies #[trigger] t.child_offset(p, j, e + 1) < off by {
        lemma_offset_grows(t, p, j, k, e + 1);
    }
    i + 1 + off
}

} // verus!
