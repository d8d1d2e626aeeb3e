//! The pool that owns every directory, and the operations that keep its
//! contents a tree.

use vstd::prelude::*;
use crate::error::ShellError;
use crate::limits::{MAX_CHILDREN, MAX_DIRS, MAX_DIR_NAME, SPACE};
use crate::node::{same_name, Dir, Node};
use crate::tree::{
    lemma_depth_bound, lemma_first_free, lemma_first_free_skip, lemma_siblings_apart,
    lemma_under_bounds, lemma_under_child, lemma_under_trans, lemma_walk_under,
    lemma_with_child_wf, lemma_without_subtree_wf, Tree, Visit,
};

verus! {

/// The fixed pool of directory slots and the allocation cursor. Slot 0 holds
/// the root from the start. The cursor stands at the lowest empty slot, so a
/// slot that a removal has emptied is handed out again.
pub struct Dirs {
    dirs: [Dir; MAX_DIRS],
    next_dir: usize,
    depths: Ghost<Map<int, nat>>,
}

/// The name of the root: `root`, padded.
pub open spec fn root_name() -> Seq<u8> {
    seq![114u8, 111u8, 111u8, 116u8, 32u8, 32u8, 32u8, 32u8, 32u8, 32u8]
}

/// The tree that holds the root and nothing else.
pub open spec fn initial_tree() -> Tree {
    Tree {
        nodes: Map::empty().insert(
            0int,
            Node { slot: 0, name: root_name(), parent: 0, children: Seq::empty() },
        ),
        depth: Map::empty().insert(0int, 0nat),
    }
}

/// A listing as the pool hands it out, read as depths and names.
pub open spec fn lines_view(lines: Seq<(usize, [u8; MAX_DIR_NAME])>) -> Seq<(int, Seq<u8>)> {
    lines.map_values(|l: (usize, [u8; MAX_DIR_NAME])| (l.0 as int, l.1@))
}

/// Depths and slots as the pool collects them, read as visits.
spec fn visits(found: Seq<(usize, usize)>) -> Seq<Visit> {
    found.map_values(|v: (usize, usize)| (v.0 as int, v.1 as int))
}

/// Whether the slot holds a directory: the root always does, another slot
/// does when what it stores bears the slot's own number.
spec fn live_in(dirs: [Dir; MAX_DIRS], s: int) -> bool {
    0 <= s < MAX_DIRS && (s == 0 || dirs[s].index == s)
}

/// The slot stores a compact child table, and it holds a directory or is blank.
spec fn stored_ok(dirs: [Dir; MAX_DIRS], s: int) -> bool {
    &&& dirs[s].compact()
    &&& live_in(dirs, s) || dirs[s].is_blank()
}

/// The tree that the slots hold.
spec fn tree_of(dirs: [Dir; MAX_DIRS], depth: Map<int, nat>) -> Tree {
    Tree { nodes: Map::new(|s: int| live_in(dirs, s), |s: int| dirs[s]@), depth }
}

impl View for Dirs {
    type V = Tree;

    closed spec fn view(&self) -> Tree {
        tree_of(self.dirs, self.depths@)
    }
}

impl Dirs {
    /// Among the first `k` children of `top` in `t`, one has `s` in its subtree.
    spec fn under_first(t: Tree, top: int, k: int, s: int) -> bool {
        exists|j: int| 0 <= j < k && t.under(#[trigger] t.children(top)[j], s)
    }

    /// The pool is well formed: every slot is as it should be stored, the
    /// directories form a well-formed tree, and the cursor stands at the
    /// lowest empty slot.
    pub closed spec fn wf(&self) -> bool {
        &&& forall|s: int| 0 <= s < MAX_DIRS ==> #[trigger] stored_ok(self.dirs, s)
        &&& self@.wf()
        &&& self.next_dir == self@.next_free()
    }

    /// The directories of a well-formed pool form a well-formed tree.
    pub proof fn lemma_tree_wf(&self)
        requires
            self.wf(),
        ensures
            self@.wf(),
    {
    }

    /// A pool that holds the root alone.
    pub fn new() -> (pool: Dirs)
        ensures
            pool.wf(),
            pool@ == initial_tree(),
    {
        let root = Dir::childless(
            0,
            [114, 111, 111, 116, SPACE, SPACE, SPACE, SPACE, SPACE, SPACE],
            0,
        );
        let mut dirs = [Dir::blank(); MAX_DIRS];
        dirs[0] = root;
        let pool = Dirs { dirs, next_dir: 1, depths: Ghost(Map::empty().insert(0int, 0nat)) };
        proof {
            assert(root@.name =~= root_name());
            assert(pool@.nodes =~= initial_tree().nodes);
            assert(pool@.depth.dom() =~= pool@.nodes.dom());
            assert(!pool@.has(1));
            assert forall|s: int| 0 <= s < MAX_DIRS implies #[trigger] stored_ok(pool.dirs, s) by {}
            assert(pool@.node_ok(0));
        }
        pool
    }

    /// The slot that the next new directory will get: the lowest empty
    /// one. The pool is full when this is its size.
    pub fn next_free(&self) -> (slot: usize)
        requires
            self.wf(),
        ensures
            slot == self@.next_free(),
    {
        self.next_dir
    }

    /// The lowest empty slot at or behind `from`.
    fn scan_free(&self, from: usize) -> (slot: usize)
        requires
            from <= MAX_DIRS,
        ensures
            slot == self@.first_free(from as int),
    {
        let mut slot: usize = from;
        while slot < MAX_DIRS && self.is_live(slot)
            invariant
                from <= slot <= MAX_DIRS,
                self@.first_free(from as int) == self@.first_free(slot as int),
            decreases MAX_DIRS - slot,
        {
            slot += 1;
        }
        slot
    }

    /// Whether a directory occupies the slot.
    pub fn is_live(&self, slot: usize) -> (live: bool)
        ensures
            live == self@.has(slot as int),
    {
        slot < MAX_DIRS && (slot == 0 || self.dirs[slot].index == slot)
    }

    /// A copy of the directory in the slot, if there is one.
    pub fn get(&self, slot: usize) -> (dir: Option<Dir>)
        requires
            self.wf(),
        ensures
            match dir {
                Some(d) => self@.has(slot as int) && d@ == self@.nodes[slot as int] && d.compact(),
                None => !self@.has(slot as int),
            },
    {
        if self.is_live(slot) {
            proof {
                assert(stored_ok(self.dirs, slot as int));
            }
            Some(self.dirs[slot])
        } else {
            None
        }
    }

    /// What the slot stores, whether it holds a directory or not: the
    /// directory, or the blank state that a removal and the start leave
    /// behind. There is nothing to read behind the end of the pool.
    pub fn stored(&self, slot: usize) -> (dir: Option<Dir>)
        requires
            self.wf(),
        ensures
            dir is Some <==> slot < MAX_DIRS,
            dir matches Some(d) ==> {
                &&& d.compact()
                &&& self@.has(slot as int) ==> d@ == self@.nodes[slot as int]
                &&& !self@.has(slot as int) ==> d.is_blank()
            },
    {
        if slot < MAX_DIRS {
            proof {
                assert(stored_ok(self.dirs, slot as int));
            }
            Some(self.dirs[slot])
        } else {
            None
        }
    }

    /// The child of `parent_slot` that bears the name, byte for byte.
    pub fn find_child(&self, parent_slot: usize, name: [u8; MAX_DIR_NAME]) -> (found: Option<usize>)
        requires
            self.wf(),
        ensures
            match found {
                Some(c) => self@.find_child(parent_slot as int, name@) == Some(c as int),
                None => self@.find_child(parent_slot as int, name@) is None,
            },
    {
        if !self.is_live(parent_slot) {
            return None;
        }
        let ghost t = self@;
        let ghost p = parent_slot as int;
        let dir = self.dirs[parent_slot];
        proof {
            assert(stored_ok(self.dirs, p));
            assert(t.node_ok(p));
        }
        let mut k: usize = 0;
        while k < dir.child_count
            invariant
                self.wf(),
                t == self@,
                p == parent_slot,
                t.has(p),
                dir == self.dirs[p],
                k <= dir.child_count <= MAX_CHILDREN,
                t.find_from(p, name@, 0) == t.find_from(p, name@, k as int),
            decreases dir.child_count - k,
        {
            let child = dir.child_indexes[k];
            proof {
                assert(t.node_ok(p));
                assert(t.children(p)[k as int] == child);
                assert(t.child_ok(p, t.children(p)[k as int]));
            }
            if same_name(&self.dirs[child].name, &name) {
                return Some(child);
            }
            k += 1;
        }
        None
    }

    /// Creates a childless directory under `parent_slot`, last among its
    /// children, in the slot at the cursor, and moves the cursor on to the
    /// next empty slot.
    ///
    /// Nothing changes where the parent does not exist (`NotFound`), where a
    /// child of it bears the name already (`DuplicateName`), or where the
    /// pool has no empty slot or the parent holds as many children as it
    /// can (`ArenaFull`).
    pub fn create_child(&mut self, parent_slot: usize, name: [u8; MAX_DIR_NAME]) -> (created: Result<
        usize,
        ShellError,
    >)
        requires
            old(self).wf(),
        ensures
            final(self).wf(),
            match created {
                Ok(slot) => {
                    &&& old(self)@.create_outcome(parent_slot as int, name@) == Ok::<
                        int,
                        ShellError,
                    >(slot as int)
                    &&& final(self)@ == old(self)@.with_child(parent_slot as int, name@)
                },
                Err(e) => {
                    &&& old(self)@.create_outcome(parent_slot as int, name@) == Err::<
                        int,
                        ShellError,
                    >(e)
                    &&& *final(self) == *old(self)
                },
            },
    {
        if !self.is_live(parent_slot) {
            return Err(ShellError::NotFound);
        }
        if self.find_child(parent_slot, name).is_some() {
            return Err(ShellError::DuplicateName);
        }
        let ghost t = self@;
        let ghost p = parent_slot as int;
        let mut parent = self.dirs[parent_slot];
        proof {
            assert(stored_ok(self.dirs, p));
            assert(t.node_ok(p));
        }
        if self.next_dir >= MAX_DIRS || parent.child_count >= MAX_CHILDREN {
            return Err(ShellError::ArenaFull);
        }
        let slot = self.next_dir;
        proof {
            lemma_with_child_wf(t, p, name@);
            lemma_first_free(t, 1);
        }
        self.dirs[slot] = Dir::childless(slot, name, parent_slot);
        parent.child_indexes[parent.child_count] = slot;
        parent.child_count += 1;
        self.dirs[parent_slot] = parent;
        self.depths = Ghost(t.depth.insert(slot as int, t.depth[p] + 1));
        proof {
            let n = t.with_child(p, name@);
            assert(self.dirs[p]@.children =~= t.children(p).push(slot as int));
            assert(self@.nodes =~= n.nodes) by {
                assert forall|s: int| self@.has(s) == n.has(s) by {
                    if 0 <= s < MAX_DIRS && s != slot && s != p {
                        assert(self.dirs[s] == old(self).dirs[s]);
                    }
                }
                assert forall|s: int| self@.has(s) implies self@.nodes[s] == n.nodes[s] by {
                    if s != slot && s != p {
                        assert(self.dirs[s] == old(self).dirs[s]);
                    }
                }
            }
            assert forall|s: int| 0 <= s < MAX_DIRS implies #[trigger] stored_ok(self.dirs, s) by {
                assert(stored_ok(old(self).dirs, s));
            }
            assert(self@ == n);
            assert forall|s: int| 1 <= s < slot + 1 implies #[trigger] n.has(s) by {
                if s < slot {
                    assert(t.has(s));
                }
            }
            lemma_first_free_skip(n, 1, slot + 1);
        }
        self.next_dir = self.scan_free(slot + 1);
        Ok(slot)
    }

    /// Empties one slot.
    fn clear_dir_by_index(&mut self, index: usize)
        requires
            index < MAX_DIRS,
        ensures
            final(self).dirs[index as int].is_blank(),
            forall|s: int|
                0 <= s < MAX_DIRS && s != index ==> final(self).dirs[s] == old(self).dirs[s],
            final(self).next_dir == old(self).next_dir,
            final(self).depths == old(self).depths,
    {
        self.dirs[index] = Dir::blank();
    }

    /// Empties the slots of a whole subtree of `t`, the children's subtrees
    /// first and the top last, and touches no other slot. The subtree is
    /// still stored as `t` has it.
    fn clear_subtree(&mut self, top: usize, Ghost(t): Ghost<Tree>)
        requires
            t.wf(),
            t.has(top as int),
            top != 0,
            forall|s: int|
                t.under(top as int, s) ==> 0 <= s < MAX_DIRS && #[trigger] old(self).dirs[s]@
                    == t.nodes[s],
        ensures
            forall|s: int| t.under(top as int, s) ==> (#[trigger] final(self).dirs[s]).is_blank(),
            forall|s: int|
                0 <= s < MAX_DIRS && !t.under(top as int, s) ==> #[trigger] final(self).dirs[s]
                    == old(self).dirs[s],
            final(self).next_dir == old(self).next_dir,
            final(self).depths == old(self).depths,
        decreases MAX_DIRS - t.depth[top as int],
    {
        let dir = self.dirs[top];
        proof {
            assert(t.under(top as int, top as int));
            assert(t.node_ok(top as int));
            assert(dir@ == t.nodes[top as int]);
            lemma_depth_bound(t, top as int);
        }
        let mut k: usize = 0;
        while k < dir.child_count
            invariant
                t.wf(),
                t.has(top as int),
                top != 0,
                top < MAX_DIRS,
                dir@ == t.nodes[top as int],
                k <= dir.child_count,
                self.next_dir == old(self).next_dir,
                self.depths == old(self).depths,
                t.depth[top as int] < MAX_DIRS,
                forall|s: int|
                    t.under(top as int, s) ==> 0 <= s < MAX_DIRS && #[trigger] old(self).dirs[s]@
                        == t.nodes[s],
                forall|s: int|
                    Self::under_first(t, top as int, k as int, s) ==> (#[trigger] self.dirs[s]).is_blank(),
                forall|s: int|
                    0 <= s < MAX_DIRS && !Self::under_first(t, top as int, k as int, s)
                        ==> #[trigger] self.dirs[s] == old(self).dirs[s],
            decreases dir.child_count - k,
        {
            let child = dir.child_indexes[k];
            let ghost before = *self;
            proof {
                assert(t.node_ok(top as int));
                assert(t.children(top as int)[k as int] == child);
                assert(t.child_ok(top as int, t.children(top as int)[k as int]));
                assert(t.under(top as int, top as int));
                assert(t.under(top as int, child as int));
                assert(child != 0);
                lemma_depth_bound(t, child as int);
                assert forall|s: int| t.under(child as int, s) implies 0 <= s < MAX_DIRS
                    && #[trigger] self.dirs[s]@ == t.nodes[s] by {
                    lemma_under_trans(t, top as int, child as int, s);
                    if Self::under_first(t, top as int, k as int, s) {
                        let j = choose|j: int|
                            0 <= j < k && t.under(#[trigger] t.children(top as int)[j], s);
                        let other = t.children(top as int)[j];
                        assert(t.child_ok(top as int, other));
                        assert(t.name(other) != t.name(t.children(top as int)[k as int]));
                        lemma_siblings_apart(t, other, child as int, s);
                        assert(false);
                    }
                }
            }
            self.clear_subtree(child, Ghost(t));
            proof {
                assert forall|s: int|
                    Self::under_first(t, top as int, k + 1, s) implies (#[trigger] self.dirs[s]).is_blank() by {
                    let j = choose|j: int|
                        0 <= j < k + 1 && t.under(#[trigger] t.children(top as int)[j], s);
                    if j < k {
                        assert(Self::under_first(t, top as int, k as int, s));
                        assert(before.dirs[s].is_blank());
                        lemma_under_bounds(t, t.children(top as int)[j], s);
                        if !t.under(child as int, s) {
                            assert(self.dirs[s] == before.dirs[s]);
                        }
                    }
                }
                assert forall|s: int|
                    0 <= s < MAX_DIRS && !Self::under_first(
                        t,
                        top as int,
                        k + 1,
                        s,
                    ) implies #[trigger] self.dirs[s] == old(self).dirs[s] by {
                    if t.under(child as int, s) {
                        assert(t.under(t.children(top as int)[k as int], s));
                    }
                    if Self::under_first(t, top as int, k as int, s) {
                        let j = choose|j: int|
                            0 <= j < k && t.under(#[trigger] t.children(top as int)[j], s);
                        assert(t.under(t.children(top as int)[j], s));
                    }
                    assert(self.dirs[s] == before.dirs[s]);
                }
            }
            k += 1;
        }
        let ghost before = *self;
        self.clear_dir_by_index(top);
        proof {
            assert forall|s: int| t.under(top as int, s) implies (#[trigger] self.dirs[s]).is_blank() by {
                if s != top {
                    let j = lemma_under_child(t, top as int, s);
                    assert(Self::under_first(t, top as int, dir.child_count as int, s));
                    assert(before.dirs[s].is_blank());
                }
            }
            assert forall|s: int|
                0 <= s < MAX_DIRS && !t.under(top as int, s) implies #[trigger] self.dirs[s] == old(
                    self,
                ).dirs[s] by {
                if Self::under_first(t, top as int, dir.child_count as int, s) {
                    let j = choose|j: int|
                        0 <= j < dir.child_count && t.under(
                            #[trigger] t.children(top as int)[j],
                            s,
                        );
                    assert(t.child_ok(top as int, t.children(top as int)[j]));
                    assert(t.under(top as int, t.children(top as int)[j]));
                    lemma_under_trans(t, top as int, t.children(top as int)[j], s);
                }
                assert(self.dirs[s] == before.dirs[s]);
            }
        }
    }

    /// Removes the directory in `slot` with everything below it: its parent
    /// lists it no more and keeps its other children in order, and every
    /// slot of the subtree is emptied.
    ///
    /// Nothing changes where the slot is that of the root or holds no
    /// directory (`NotFound`).
    pub fn remove_subtree(&mut self, slot: usize) -> (removed: Result<(), ShellError>)
        requires
            old(self).wf(),
        ensures
            final(self).wf(),
            removed == old(self)@.remove_outcome(slot as int),
            match removed {
                Ok(_) => final(self)@ == old(self)@.without_subtree(slot as int),
                Err(_) => *final(self) == *old(self),
            },
    {
        if slot == 0 || !self.is_live(slot) {
            return Err(ShellError::NotFound);
        }
        let ghost t = self@;
        let ghost s0 = slot as int;
        let parent_slot = self.dirs[slot].parent_index;
        let ghost p = parent_slot as int;
        proof {
            assert(t.node_ok(s0));
            assert(t.node_ok(p));
            assert(stored_ok(self.dirs, p));
            lemma_without_subtree_wf(t, s0);
            crate::tree::lemma_child_of_parent(t, s0);
        }
        let mut parent = self.dirs[parent_slot];
        let mut at: usize = 0;
        while at < parent.child_count && parent.child_indexes[at] != slot
            invariant
                at <= parent.child_count <= MAX_CHILDREN,
                s0 == slot,
                parent@.children == t.children(p),
                t.children(p).contains(s0),
                forall|j: int| 0 <= j < at ==> t.children(p)[j] != s0,
            decreases parent.child_count - at,
        {
            assert(parent@.children[at as int] == parent.child_indexes[at as int]);
            at += 1;
        }
        let ghost siblings = t.children(p);
        proof {
            assert(at < parent.child_count);
            assert(siblings[at as int] == s0);
            let w = siblings.index_of(s0);
            assert(0 <= w < siblings.len() && siblings[w] == s0);
            if w != at {
                assert(t.child_ok(p, siblings[w]));
                if w < at {
                    assert(t.name(siblings[w]) != t.name(siblings[at as int]));
                } else {
                    assert(t.name(siblings[at as int]) != t.name(siblings[w]));
                }
            }
        }
        let ghost listed = parent;
        parent.move_child_indexes(at);
        parent.child_count -= 1;
        proof {
            siblings.remove_ensures(at as int);
            assert(listed@.children == siblings);
            assert(parent@.children =~= siblings.remove(at as int));
        }
        self.dirs[parent_slot] = parent;
        proof {
            if t.under(s0, p) {
                lemma_under_bounds(t, s0, p);
            }
            assert forall|s: int| t.under(s0, s) implies 0 <= s < MAX_DIRS
                && #[trigger] self.dirs[s]@ == t.nodes[s] by {
                lemma_under_bounds(t, s0, s);
            }
        }
        let ghost detached = *self;
        self.clear_subtree(slot, Ghost(t));
        self.depths = Ghost(t.without_subtree(s0).depth);
        proof {
            let n = t.without_subtree(s0);
            assert forall|s: int| 0 <= s < MAX_DIRS implies #[trigger] stored_ok(self.dirs, s) by {
                assert(stored_ok(old(self).dirs, s));
                if !t.under(s0, s) {
                    assert(self.dirs[s] == detached.dirs[s]);
                }
            }
            assert(self@.nodes =~= n.nodes) by {
                assert forall|s: int| self@.has(s) == n.has(s) by {
                    if 0 <= s < MAX_DIRS {
                        assert(stored_ok(old(self).dirs, s));
                        if t.under(s0, s) {
                            lemma_under_bounds(t, s0, s);
                            assert(self.dirs[s].is_blank());
                        } else {
                            assert(self.dirs[s] == detached.dirs[s]);
                        }
                    }
                }
                assert forall|s: int| self@.has(s) implies self@.nodes[s] == n.nodes[s] by {
                    assert(!t.under(s0, s));
                    assert(self.dirs[s] == detached.dirs[s]);
                }
            }
            assert(self@ == n);
        }
        self.next_dir = self.scan_free(1);
        Ok(())
    }

    /// Collects the subtree of `slot` behind what `out` holds: each
    /// directory before its children, with its depth.
    fn collect(&self, slot: usize, depth: usize, out: &mut Vec<(usize, usize)>)
        requires
            self.wf(),
            self@.has(slot as int),
            depth + MAX_DIRS - self@.depth[slot as int] <= usize::MAX,
        ensures
            visits(final(out)@) == visits(old(out)@) + self@.walk(slot as int, depth as int),
        decreases MAX_DIRS - self@.depth[slot as int],
    {
        let ghost t = self@;
        let ghost s0 = slot as int;
        let ghost target = visits(old(out)@) + t.walk(s0, depth as int);
        let dir = self.dirs[slot];
        proof {
            assert(stored_ok(self.dirs, s0));
            assert(t.node_ok(s0));
            lemma_depth_bound(t, s0);
        }
        out.push((depth, slot));
        proof {
            assert(visits(out@) =~= visits(old(out)@) + seq![(depth as int, s0)]);
            assert(visits(out@) + t.walk_rest(s0, 0, depth + 1) =~= target);
        }
        let mut k: usize = 0;
        while k < dir.child_count
            invariant
                self.wf(),
                t == self@,
                s0 == slot,
                t.has(s0),
                slot < MAX_DIRS,
                t.depth[s0] < MAX_DIRS,
                depth + MAX_DIRS - t.depth[s0] <= usize::MAX,
                dir == self.dirs[s0],
                k <= dir.child_count <= MAX_CHILDREN,
                visits(out@) + t.walk_rest(s0, k as int, depth + 1) == target,
            decreases dir.child_count - k,
        {
            let child = dir.child_indexes[k];
            let ghost before = visits(out@);
            proof {
                assert(t.node_ok(s0));
                assert(t.children(s0)[k as int] == child);
                assert(t.child_ok(s0, t.children(s0)[k as int]));
                assert(t.node_ok(child as int));
                lemma_depth_bound(t, child as int);
            }
            self.collect(child, depth + 1, out);
            proof {
                let first = t.walk(child as int, depth + 1);
                let rest = t.walk_rest(s0, k + 1, depth + 1);
                assert(t.walk_rest(s0, k as int, depth + 1) == first + rest);
                assert((before + first) + rest =~= before + (first + rest));
            }
            k += 1;
        }
        proof {
            assert(visits(out@) + Seq::<Visit>::empty() =~= visits(out@));
        }
    }

    /// The subtree of `index` as lines of depth and name: each directory
    /// before its children, the children in their listed order, `index`
    /// itself at depth `level` and every directory below it one level
    /// deeper than its parent. A slot without a directory gives no line.
    pub fn unwrap_dir(&self, index: usize, level: u8) -> (lines: Vec<(usize, [u8; MAX_DIR_NAME])>)
        requires
            self.wf(),
        ensures
            lines_view(lines@) == self@.listing_at(index as int, level as int),
    {
        let mut lines: Vec<(usize, [u8; MAX_DIR_NAME])> = Vec::new();
        if !self.is_live(index) {
            proof {
                assert(lines_view(lines@) =~= self@.listing_at(index as int, level as int));
            }
            return lines;
        }
        let mut found: Vec<(usize, usize)> = Vec::new();
        self.collect(index, level as usize, &mut found);
        let ghost t = self@;
        let ghost walk = t.walk(index as int, level as int);
        proof {
            assert(visits(found@) =~= walk);
            lemma_walk_under(t, index as int, level as int);
        }
        let mut i: usize = 0;
        while i < found.len()
            invariant
                self.wf(),
                t == self@,
                walk == t.walk(index as int, level as int),
                visits(found@) == walk,
                i <= found.len(),
                lines@.len() == i,
                forall|j: int| 0 <= j < walk.len() ==> t.has((#[trigger] walk[j]).1),
                forall|j: int|
                    0 <= j < i ==> (#[trigger] lines@[j]).0 == walk[j].0 && lines@[j].1@ == t.name(
                        walk[j].1,
                    ),
            decreases found.len() - i,
        {
            let (depth, slot) = found[i];
            proof {
                assert(visits(found@)[i as int] == (depth as int, slot as int));
                assert(t.has(walk[i as int].1));
            }
            lines.push((depth, self.dirs[slot].name));
            i += 1;
        }
        proof {
            assert(lines_view(lines@) =~= t.listing_at(index as int, level as int));
        }
        lines
    }

    /// The subtree of `start_slot` as lines of depth and name: each
    /// directory before its children, the children in their listed order,
    /// the start at depth 0. A slot without a directory gives no line.
    pub fn list_tree(&self, start_slot: usize) -> (lines: Vec<(usize, [u8; MAX_DIR_NAME])>)
        requires
            self.wf(),
        ensures
            lines_view(lines@) == self@.listing(start_slot as int),
    {
        self.unwrap_dir(start_slot, 0)
    }
}

} // verus!
