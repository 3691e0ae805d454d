//! A buddy allocator of frames that keeps one signed byte for each node of a complete binary
//! tree, in memory that the caller lends.

use crate::bits::{self, is_power_of_two, log2, next_power_of_two, power_of_two};
use crate::frame::tree;
use vstd::arithmetic::power2::*;
use vstd::prelude::*;

verus! {

/// What a node holds when no part of its frames is available.
pub const NODE_ALLOCATED: i8 = -1;

/// The left child of the node at index `i`.
pub fn left_child(i: usize) -> (r: usize)
    requires
        2 * i + 1 <= usize::MAX,
    ensures
        r == 2 * i + 1,
{
    i * 2 + 1
}

/// The right child of the node at index `i`.
pub fn right_child(i: usize) -> (r: usize)
    requires
        2 * i + 2 <= usize::MAX,
    ensures
        r == 2 * i + 2,
{
    i * 2 + 2
}

/// The parent of the node at index `i`.
pub fn parent(i: usize) -> (r: usize)
    requires
        1 <= i < usize::MAX,
    ensures
        r == (i + 1) / 2 - 1,
        i == 2 * r + 1 || i == 2 * r + 2,
{
    (i + 1) / 2 - 1
}

/// A buddy allocator of frames.
#[derive(Debug)]
pub struct FrameAlloc<'a> {
    frames: usize,
    allocated: usize,
    in_used: usize,
    tree: &'a mut [i8],
    rest: &'a mut [i8],
}

impl<'a> FrameAlloc<'a> {
    /// The number of frames that are managed.
    pub closed spec fn frame_count(&self) -> nat {
        self.frames as nat
    }

    /// The number of frames in runs that were allocated and not freed.
    pub closed spec fn allocated_count(&self) -> nat {
        self.allocated as nat
    }

    /// The number of frames that were asked for and not freed.
    pub closed spec fn in_used_count(&self) -> nat {
        self.in_used as nat
    }

    /// What the nodes of the tree hold, from the root on, level by level.
    pub closed spec fn nodes(&self) -> Seq<i8> {
        self.tree@
    }

    /// What lies behind the nodes in the memory that was lent.
    pub closed spec fn behind(&self) -> Seq<i8> {
        self.rest@
    }

    pub open spec fn wf(&self) -> bool {
        tree::tree_ok(self.frame_count(), self.nodes())
    }

    /// Frame `f` is available.
    pub open spec fn is_free(&self, f: int) -> bool {
        tree::frame_free(self.frame_count(), self.nodes(), f)
    }

    /// The `size` frames from `off` on form one run and are available.
    pub open spec fn is_run_free(&self, off: int, size: nat) -> bool {
        tree::run_free(self.frame_count(), self.nodes(), off, size)
    }

    /// The `2^k` frames from `off` on were taken as one run.
    pub open spec fn is_run_taken(&self, off: int, k: nat) -> bool {
        tree::run_taken(self.frame_count(), self.nodes(), off, k)
    }

    /// The frames that are available.
    pub open spec fn free_frames(&self) -> Set<int> {
        vstd::set_lib::set_int_range(0, self.frame_count() as int).filter(|f: int| self.is_free(f))
    }

    /// No frame is counted as allocated while it is available.
    pub open spec fn counted(&self) -> bool {
        self.allocated_count() + self.free_frames().len() <= self.frame_count()
    }

    /// Each frame is either available or counted as allocated.
    pub open spec fn balanced(&self) -> bool {
        self.allocated_count() + self.free_frames().len() == self.frame_count()
    }

    /// Takes over `tree` and makes all frames available.
    ///
    /// Where the number of frames is no power of two, the nodes do not form a complete tree and
    /// no frames can be allocated from it.
    pub fn new(tree: &'a mut [i8]) -> (r: Self)
        requires
            1 <= old(tree)@.len() < usize::MAX,
        ensures
            r.frame_count() == tree::frames_for(old(tree)@.len()),
            2 * r.frame_count() - 1 <= old(tree)@.len() <= 2 * r.frame_count() + 1,
            forall|k: nat|
                old(tree)@.len() == 2 * #[trigger] pow2(k) - 1 || old(tree)@.len() == 2 * pow2(k)
                    ==> r.frame_count() == pow2(k),
            r.nodes().len() == 2 * r.frame_count() - 1,
            forall|i: int|
                0 <= i < r.nodes().len() ==> #[trigger] r.nodes()[i] == tree::height(
                    r.frame_count(),
                    i + 1,
                ),
            forall|i: int|
                0 <= i < r.nodes().len() ==> #[trigger] r.nodes()[i] == bits::floor_log2(
                    r.frame_count(),
                ) - bits::floor_log2((i + 1) as nat),
            r.allocated_count() == 0,
            r.in_used_count() == 0,
            r.frame_count() == pow2(bits::floor_log2(r.frame_count())) ==> {
                &&& r.wf()
                &&& r.counted()
                &&& r.balanced()
                &&& r.serves(Seq::empty())
                &&& forall|f: int| 0 <= f < r.frame_count() ==> #[trigger] r.is_free(f)
            },
            r.behind() == old(tree)@.skip(2 * r.frame_count() - 1),
    {
        let ghost lent = tree@;
        let ghost len = lent.len();
        let frames: usize = if is_power_of_two(tree.len() + 1) {
            (tree.len() + 1) / 2
        } else {
            tree.len() / 2
        };
        proof {
            lemma2_to64();
            bits::lemma_floor_log2_bounds(len + 1);
            law_frames_fill_the_tree(len);
            if len + 1 == pow2(bits::floor_log2(len + 1)) {
                lemma_pow2_unfold(bits::floor_log2(len + 1));
            }
            if len == 1 {
                lemma_pow2_unfold(1);
                bits::lemma_floor_log2_pow2(1);
            }
        }
        let nodes: usize = frames * 2 - 1;
        let (tree, rest) = tree.split_at_mut(nodes);

        let mut exponent: i8 = log2(frames) as i8 + 1;
        let mut i: usize = 0;
        while i < nodes
            invariant
                i <= nodes,
                nodes == 2 * frames - 1,
                frames >= 1,
                tree@.len() == nodes,
                bits::floor_log2(frames as nat) < 64,
                i == 0 ==> exponent == bits::floor_log2(frames as nat) + 1,
                i > 0 ==> exponent == tree::height(frames as nat, i as int),
                forall|j: int|
                    0 <= j < i ==> #[trigger] tree@[j] == tree::height(frames as nat, j + 1),
            decreases nodes - i,
        {
            proof {
                tree::lemma_log2_step(i as nat);
                bits::lemma_floor_log2_mono((i + 1) as nat, (2 * frames) as nat);
                bits::lemma_floor_log2_bounds(2 * frames as nat);
            }
            if is_power_of_two(i + 1) {
                exponent = exponent - 1;
            }
            tree[i] = exponent;
            i = i + 1;
        }

        assert(rest@ == lent.skip(nodes as int));
        let r = FrameAlloc { frames, allocated: 0, in_used: 0, tree, rest };
        proof {
            if r.frame_count() == pow2(bits::floor_log2(r.frame_count())) {
                tree::lemma_initial(r.frame_count(), r.nodes());
                vstd::set_lib::lemma_int_range(0, r.frame_count() as int);
                assert(r.free_frames() =~= vstd::set_lib::set_int_range(
                    0,
                    r.frame_count() as int,
                ));
            }
        }
        r
    }

    /// The number of frames that are managed.
    pub fn frames(&self) -> (r: usize)
        ensures
            r == self.frame_count(),
    {
        self.frames
    }

    /// The number of frames in the runs that are allocated.
    pub fn allocated_frames(&self) -> (r: usize)
        ensures
            r == self.allocated_count(),
    {
        self.allocated
    }

    /// The number of frames that were asked for.
    pub fn in_used_frames(&self) -> (r: usize)
        ensures
            r == self.in_used_count(),
    {
        self.in_used
    }

    /// The number of frames that are not counted as allocated.
    pub fn available_frames(&self) -> (r: usize)
        requires
            self.allocated_count() <= self.frame_count(),
        ensures
            r == self.frame_count() - self.allocated_count(),
    {
        self.frames - self.allocated
    }
}

/// Taking a run out of the available frames lowers their number by the length of the run.
proof fn lemma_count_taken(before: FrameAlloc<'_>, after: FrameAlloc<'_>, off: int, size: nat)
    requires
        before.frame_count() == after.frame_count(),
        0 <= off,
        off + size <= before.frame_count(),
        forall|f: int| off <= f < off + size ==> #[trigger] before.is_free(f),
        forall|f: int|
            0 <= f < before.frame_count() ==> (#[trigger] after.is_free(f) <==> before.is_free(f)
                && !(off <= f < off + size)),
    ensures
        before.free_frames().len() == after.free_frames().len() + size,
{
    let all = vstd::set_lib::set_int_range(0, before.frame_count() as int);
    let run = vstd::set_lib::set_int_range(off, off + size);
    let a = before.free_frames();
    let b = after.free_frames();
    vstd::set_lib::lemma_int_range(0, before.frame_count() as int);
    vstd::set_lib::lemma_int_range(off, off + size);
    assert(a.subset_of(all));
    assert(b.subset_of(all));
    assert(b.disjoint(run));
    assert(a =~= b + run);
    vstd::set_lib::lemma_set_disjoint_lens(b, run);
}

impl<'a> FrameAlloc<'a> {
    /// The tree is held in memory, so its length is a `usize`.
    proof fn lemma_len(&self)
        ensures
            self.nodes().len() <= usize::MAX,
    {
        assert(self.tree.len() == self.tree@.len());
    }

    fn node(&self, i: usize) -> (v: i8)
        requires
            i < self.nodes().len(),
        ensures
            v == self.nodes()[i as int],
    {
        self.tree[i]
    }

    fn set_node(&mut self, i: usize, v: i8)
        requires
            i < old(self).nodes().len(),
        ensures
            final(self).nodes() == old(self).nodes().update(i as int, v),
            final(self).frame_count() == old(self).frame_count(),
            final(self).behind() == old(self).behind(),
            final(self).allocated_count() == old(self).allocated_count(),
            final(self).in_used_count() == old(self).in_used_count(),
    {
        self.tree[i] = v;
    }

    /// Brings the nodes above index `start` up to date after it was marked unavailable.
    fn update_parents(&mut self, start: usize)
        requires
            tree::tree_shape(old(self).frame_count(), old(self).nodes()),
            start < old(self).nodes().len(),
            tree::node(old(self).nodes(), start + 1) < tree::height(
                old(self).frame_count(),
                start + 1,
            ),
            forall|m: int|
                1 <= m < 2 * old(self).frame_count() && m != (start + 1) / 2 ==> #[trigger] tree::node_ok(
                    old(self).frame_count(),
                    old(self).nodes(),
                    m,
                ),
        ensures
            final(self).nodes() == tree::settle(
                old(self).frame_count(),
                old(self).nodes(),
                start + 1,
            ),
            final(self).frame_count() == old(self).frame_count(),
            final(self).behind() == old(self).behind(),
            final(self).allocated_count() == old(self).allocated_count(),
            final(self).in_used_count() == old(self).in_used_count(),
    {
        let ghost frames = self.frame_count();
        let ghost target = tree::settle(frames, self.nodes(), start + 1);
        let mut i: usize = start;
        while i != 0
            invariant_except_break
                frames == self.frame_count(),
                self.allocated_count() == old(self).allocated_count(),
                self.in_used_count() == old(self).in_used_count(),
                self.behind() == old(self).behind(),
                tree::tree_shape(frames, self.nodes()),
                i < self.nodes().len(),
                tree::node(self.nodes(), i + 1) < tree::height(frames, i + 1),
                forall|m: int|
                    1 <= m < 2 * frames && m != (i + 1) / 2 ==> #[trigger] tree::node_ok(
                        frames,
                        self.nodes(),
                        m,
                    ),
                tree::settle(frames, self.nodes(), i + 1) == target,
            ensures
                frames == self.frame_count(),
                self.allocated_count() == old(self).allocated_count(),
                self.in_used_count() == old(self).in_used_count(),
                self.behind() == old(self).behind(),
                self.nodes() == target,
            decreases i,
        {
            let ghost t = self.nodes();
            let ghost n = i + 1;
            proof {
                self.lemma_len();
            }
            i = parent(i);
            let ghost p = i + 1;
            proof {
                tree::lemma_height(frames, n);
                tree::lemma_height(frames, p);
                assert(p == n / 2);
                assert(n == 2 * p || n == 2 * p + 1);
                assert(tree::node_ok(frames, t, 2 * p));
                assert(tree::node_ok(frames, t, 2 * p + 1));
            }
            let left: i8 = self.node(left_child(i));
            let right: i8 = self.node(right_child(i));
            let max_child: i8 = if left >= right {
                left
            } else {
                right
            };
            let previous: i8 = self.node(i);
            assert(max_child == tree::combine(
                tree::height(frames, p),
                tree::node(t, 2 * p),
                tree::node(t, 2 * p + 1),
            ));
            self.set_node(i, max_child);
            if max_child == previous {
                assert(self.nodes() =~= t);
                break;
            }
            proof {
                let t2 = self.nodes();
                assert forall|m: int| 1 <= m < 2 * frames && m != p / 2 implies #[trigger] tree::node_ok(
                    frames,
                    t2,
                    m,
                ) by {
                    if m != p {
                        assert(tree::node_ok(frames, t, m));
                    }
                }
            }
        }
    }

    /// Takes the first run of at least `count` frames that is available, rounded up to a power of
    /// two, and returns its first frame; `None` if there is no such run.
    pub fn allocate(&mut self, count: usize) -> (r: Option<usize>)
        requires
            old(self).wf(),
            bits::next_pow2(count as nat) <= usize::MAX,
            forall|o: int| #[trigger]
                old(self).is_run_free(o, bits::next_pow2(count as nat)) ==> old(
                    self,
                ).allocated_count() + bits::next_pow2(count as nat) <= usize::MAX && old(
                    self,
                ).in_used_count() + count <= usize::MAX,
        ensures
            final(self).wf(),
            final(self).frame_count() == old(self).frame_count(),
            final(self).behind() == old(self).behind(),
            old(self).counted() ==> final(self).counted(),
            old(self).balanced() ==> final(self).balanced(),
            ({
                let k = bits::ceil_log2(count as nat);
                let size = bits::next_pow2(count as nat);
                match r {
                    None => {
                        &&& final(self).nodes() == old(self).nodes()
                        &&& final(self).allocated_count() == old(self).allocated_count()
                        &&& final(self).in_used_count() == old(self).in_used_count()
                        &&& forall|o: int| !#[trigger] old(self).is_run_free(o, size)
                    },
                    Some(off) => {
                        &&& old(self).is_run_free(off as int, size)
                        &&& forall|o: int| #[trigger] old(self).is_run_free(o, size) ==> off <= o
                        &&& final(self).nodes() == tree::settle(
                            old(self).frame_count(),
                            old(self).nodes().update(
                                (off + old(self).frame_count()) / size as int - 1,
                                -1i8,
                            ),
                            (off + old(self).frame_count()) / size as int,
                        )
                        &&& final(self).allocated_count() == old(self).allocated_count() + size
                        &&& final(self).in_used_count() == old(self).in_used_count() + count
                        &&& forall|f: int|
                            0 <= f < old(self).frame_count() ==> (#[trigger] final(self).is_free(f)
                                <==> old(self).is_free(f) && !(off <= f < off + size))
                        &&& forall|o: int, j: nat|
                            #[trigger] final(self).is_run_taken(o, j) <==> old(self).is_run_taken(
                                o,
                                j,
                            ) || (o == off && j == k)
                    },
                }
            }),
    {
        let ghost frames = self.frame_count();
        let ghost t = self.nodes();
        let ghost k = bits::ceil_log2(count as nat);
        let ghost size = bits::next_pow2(count as nat);
        proof {
            bits::lemma_next_pow2(count as nat);
            tree::lemma_height(frames, 1);
        }
        let allocating_frames: usize = next_power_of_two(count);
        let allocating_exponent: i8 = log2(allocating_frames) as i8;

        if self.node(0) < allocating_exponent {
            proof {
                assert forall|o: int| !#[trigger] self.is_run_free(o, size) by {
                    if self.is_run_free(o, size) {
                        let n = tree::lemma_run_free(frames, t, o, k);
                        let d = tree::lemma_root_below(frames, n);
                        tree::lemma_dominates(frames, t, 1, n, d);
                        assert(tree::node_ok(frames, t, 1));
                    }
                }
            }
            return None;
        }
        let mut i: usize = 0;
        let mut node_exponent: i8 = log2(self.frames) as i8;
        assert(tree::node_ok(frames, t, 1));
        proof {
            assert(tree::path_clear(t, 0));
            assert(tree::path_clear(t, 1));
            tree::lemma_none_before_root(frames, t, k);
        }
        while node_exponent != allocating_exponent
            invariant
                self.wf(),
                frames == self.frame_count(),
                t == self.nodes(),
                *self == *old(self),
                allocating_exponent == k,
                k <= node_exponent < 64,
                size == pow2(k),
                i < t.len(),
                tree::height(frames, i + 1) == node_exponent,
                tree::node(t, i + 1) >= k,
                tree::path_clear(t, i + 1),
                tree::none_before(frames, t, i + 1, (node_exponent - k) as nat, k),
            decreases node_exponent,
        {
            let ghost n = i + 1;
            let ghost d = (node_exponent - k) as nat;
            proof {
                self.lemma_len();
                tree::lemma_height(frames, n);
                assert(tree::node_ok(frames, t, n));
                assert(tree::node_ok(frames, t, 2 * n));
                assert(tree::node_ok(frames, t, 2 * n + 1));
                tree::lemma_height(frames, 2 * n);
                tree::lemma_height(frames, 2 * n + 1);
            }
            let left: usize = left_child(i);
            i = if self.node(left) >= allocating_exponent {
                left
            } else {
                right_child(i)
            };
            node_exponent = node_exponent - 1;
            proof {
                let c = i + 1;
                assert(c == 2 * n || c == 2 * n + 1);
                assert(c / 2 == n);
                tree::lemma_none_before_child(frames, t, n, d, k, c);
            }
        }
        let ghost n = i + 1;
        proof {
            self.lemma_len();
            assert(tree::node_ok(frames, t, n));
            tree::lemma_height(frames, n);
            tree::lemma_node_run(frames, n, k);
            tree::lemma_take_effect(frames, t, n, k);
            let off = n * pow2(k) - frames;
            let n1 = tree::lemma_run_free(frames, t, off, k);
            tree::lemma_same_run(n1, n, pow2(k) as int);
            tree::lemma_first_run(frames, t, n, k);
            assert(old(self).is_run_free(off, size));
            let t1 = t.update(n - 1, -1i8);
            assert forall|m: int| 1 <= m < 2 * frames && m != n / 2 implies #[trigger] tree::node_ok(
                frames,
                t1,
                m,
            ) by {
                assert(tree::node_ok(frames, t, m));
                tree::lemma_height(frames, m);
            }
        }
        self.set_node(i, NODE_ALLOCATED);
        assert((i + 1) * allocating_frames == n * pow2(k));
        let offset: usize = (i + 1) * allocating_frames - self.frames;
        self.update_parents(i);

        self.allocated = self.allocated + allocating_frames;
        self.in_used = self.in_used + count;
        proof {
            lemma_count_taken(*old(self), *self, offset as int, size);
        }
        Some(offset)
    }
}

impl<'a> FrameAlloc<'a> {
    /// The first frame of the run of `size` frames that holds frame `off`.
    pub open spec fn run_start(off: int, size: nat) -> int {
        off - off % (size as int)
    }

    /// Takes the run of at least `count` frames, rounded up to a power of two, that starts at
    /// `offset`, whether it is available or not. The frames are not counted as allocated.
    pub fn alloc_at(&mut self, offset: usize, count: usize)
        requires
            old(self).wf(),
            bits::next_pow2(count as nat) <= usize::MAX,
            exists|e: nat| offset == #[trigger] pow2(e),
            offset + bits::next_pow2(count as nat) <= old(self).frame_count(),
            offset as nat % bits::next_pow2(count as nat) == 0,
        ensures
            final(self).wf(),
            final(self).frame_count() == old(self).frame_count(),
            final(self).behind() == old(self).behind(),
            final(self).allocated_count() == old(self).allocated_count(),
            final(self).in_used_count() == old(self).in_used_count(),
            ({
                let k = bits::ceil_log2(count as nat);
                let size = bits::next_pow2(count as nat);
                let n = (offset + old(self).frame_count()) / size as int;
                &&& final(self).nodes() == tree::settle(
                    old(self).frame_count(),
                    old(self).nodes().update(n - 1, -1i8),
                    n,
                )
                &&& tree::path_exact(old(self).frame_count(), old(self).nodes(), n / 2) ==> {
                    &&& forall|f: int|
                        0 <= f < old(self).frame_count() ==> (#[trigger] final(self).is_free(f)
                            <==> old(self).is_free(f) && !(offset <= f < offset + size))
                    &&& old(self).counted() ==> final(self).counted()
                }
                &&& old(self).is_run_free(offset as int, size) ==> {
                    &&& tree::path_exact(old(self).frame_count(), old(self).nodes(), n / 2)
                    &&& forall|o: int, j: nat|
                        #[trigger] final(self).is_run_taken(o, j) <==> old(self).is_run_taken(
                            o,
                            j,
                        ) || (o == offset && j == k)
                }
            }),
    {
        let ghost frames = self.frame_count();
        let ghost t = self.nodes();
        let ghost k = bits::ceil_log2(count as nat);
        let ghost size = bits::next_pow2(count as nat);
        proof {
            bits::lemma_next_pow2(count as nat);
            self.lemma_len();
        }
        let allocating_frames: usize = next_power_of_two(count);
        let ghost n = tree::lemma_run_node(frames, offset as int, k);
        let i: usize = (offset + self.frames) / allocating_frames - 1;
        proof {
            tree::lemma_height(frames, n);
            tree::lemma_occupied(frames, t, n);
            let t1 = t.update(n - 1, -1i8);
            assert forall|m: int| 1 <= m < 2 * frames && m != n / 2 implies #[trigger] tree::node_ok(
                frames,
                t1,
                m,
            ) by {
                assert(tree::node_ok(frames, t, m));
                tree::lemma_height(frames, m);
            }
            if tree::run_free(frames, t, offset as int, size) {
                let n1 = tree::lemma_run_free(frames, t, offset as int, k);
                tree::lemma_full_path_exact(frames, t, n);
                tree::lemma_take_effect(frames, t, n, k);
            }
        }
        self.set_node(i, NODE_ALLOCATED);
        self.update_parents(i);
        proof {
            if tree::path_exact(frames, t, n / 2) {
                assert forall|f: int|
                    0 <= f < frames implies (#[trigger] self.is_free(f) <==> old(self).is_free(f)
                    && !(offset <= f < offset + size)) by {
                    assert(tree::frame_free(frames, self.nodes(), f) <==> tree::frame_free(frames, t, f)
                        && !tree::below(frames + f, n, k));
                }
                let all = vstd::set_lib::set_int_range(0, frames as int);
                vstd::set_lib::lemma_int_range(0, frames as int);
                assert(old(self).free_frames().subset_of(all));
                assert(self.free_frames().subset_of(old(self).free_frames()));
                vstd::set_lib::lemma_len_subset(self.free_frames(), old(self).free_frames());
            }
        }
    }

    /// Frees the run of at least `count` frames, rounded up to a power of two, that holds frame
    /// `offset`.
    pub fn free(&mut self, offset: usize, count: usize)
        requires
            tree::tree_shape(old(self).frame_count(), old(self).nodes()),
            bits::next_pow2(count as nat) <= old(self).frame_count(),
            offset < old(self).frame_count(),
            bits::next_pow2(count as nat) <= old(self).allocated_count(),
            count <= old(self).in_used_count(),
        ensures
            final(self).frame_count() == old(self).frame_count(),
            final(self).behind() == old(self).behind(),
            final(self).allocated_count() == old(self).allocated_count() - bits::next_pow2(
                count as nat,
            ),
            final(self).in_used_count() == old(self).in_used_count() - count,
            ({
                let k = bits::ceil_log2(count as nat);
                let size = bits::next_pow2(count as nat);
                let n = (offset + old(self).frame_count()) / size as int;
                let start = Self::run_start(offset as int, size);
                &&& final(self).nodes() == tree::settle(
                    old(self).frame_count(),
                    old(self).nodes().update(n - 1, k as i8),
                    n,
                )
                &&& old(self).wf() && old(self).is_run_taken(start, k) ==> {
                    &&& final(self).wf()
                    &&& forall|f: int|
                        0 <= f < old(self).frame_count() ==> (#[trigger] final(self).is_free(f)
                            <==> old(self).is_free(f) || start <= f < start + size)
                    &&& forall|o: int, j: nat|
                        #[trigger] final(self).is_run_taken(o, j) <==> old(self).is_run_taken(
                            o,
                            j,
                        ) && !(o == start && j == k)
                    &&& old(self).counted() ==> final(self).counted()
                    &&& old(self).balanced() ==> final(self).balanced()
                }
            }),
    {
        let ghost frames = self.frame_count();
        let ghost t = self.nodes();
        let ghost k = bits::ceil_log2(count as nat);
        let ghost size = bits::next_pow2(count as nat);
        let ghost start_frame = Self::run_start(offset as int, size);
        proof {
            bits::lemma_next_pow2(count as nat);
            self.lemma_len();
        }
        let freeing_frames: usize = next_power_of_two(count);
        let ghost n = tree::lemma_run_node(frames, offset as int, k);
        let mut exponent: i8 = log2(freeing_frames) as i8;
        let start: usize = (offset + self.frames) / freeing_frames - 1;
        let mut i: usize = start;
        proof {
            tree::lemma_height(frames, n);
            if tree::tree_ok(frames, t) && tree::run_taken(frames, t, start_frame, k) {
                lemma_pow2_pos(k);
                assert(0 <= start_frame) by {
                    vstd::arithmetic::div_mod::lemma_mod_decreases(offset as nat, size);
                }
                let n1 = tree::lemma_run_node(frames, start_frame, k);
                tree::lemma_same_run(n1, n, size as int);
                tree::lemma_give_effect(frames, t, n, k);
            }
        }
        self.set_node(i, exponent);
        let ghost target = tree::settle(frames, self.nodes(), n);
        while i != 0
            invariant_except_break
                frames == self.frame_count(),
                self.allocated_count() == old(self).allocated_count(),
                self.in_used_count() == old(self).in_used_count(),
                self.behind() == old(self).behind(),
                tree::tree_shape(frames, self.nodes()),
                i < self.nodes().len(),
                tree::height(frames, i + 1) == exponent,
                tree::settle(frames, self.nodes(), i + 1) == target,
            ensures
                frames == self.frame_count(),
                self.allocated_count() == old(self).allocated_count(),
                self.in_used_count() == old(self).in_used_count(),
                self.behind() == old(self).behind(),
                self.nodes() == target,
            decreases i,
        {
            let ghost t1 = self.nodes();
            let ghost m = i + 1;
            proof {
                self.lemma_len();
                tree::lemma_height(frames, m);
            }
            i = parent(i);
            exponent = exponent + 1;
            let ghost p = i + 1;
            proof {
                tree::lemma_height(frames, p);
                assert(p == m / 2);
            }
            let left_max: i8 = self.node(left_child(i));
            let right_max: i8 = self.node(right_child(i));

            if left_max == right_max && left_max == exponent - 1 {
                self.set_node(i, exponent);
            } else {
                let max_child: i8 = if left_max >= right_max {
                    left_max
                } else {
                    right_max
                };
                let previous: i8 = self.node(i);
                self.set_node(i, max_child);
                if max_child == previous {
                    assert(self.nodes() =~= t1);
                    break;
                }
            }
        }
        self.allocated = self.allocated - freeing_frames;
        self.in_used = self.in_used - count;
        proof {
            if tree::tree_ok(frames, t) && tree::run_taken(frames, t, start_frame, k) {
                lemma_count_taken(*self, *old(self), start_frame, size);
            }
        }
    }
}

impl<'a> FrameAlloc<'a> {
    /// Appends what is shown for the node at index `i`.
    fn show_node(&self, i: usize, exponent: u32, out: &mut String)
        requires
            exponent < 64,
            (i + 2) * pow2(exponent as nat) - 1 <= self.nodes().len(),
        ensures
            final(out)@ == old(out)@ + tree::picture(self.nodes(), i + 1, exponent as nat),
        decreases exponent,
    {
        let ghost t = self.nodes();
        let ghost n = i + 1;
        let ghost d = exponent as nat;
        let ghost before = out@;
        proof {
            self.lemma_len();
            lemma2_to64();
            lemma2_to64_rest();
            lemma_pow2_pos(d);
            assert((i + 2) * pow2(d) >= i + 2) by (nonlinear_arith)
                requires
                    pow2(d) >= 1,
                    i >= 0,
            ;
            reveal_strlit("*");
            reveal_strlit("_");
            if d > 0 {
                tree::lemma_picture(t, n, d);
                lemma_pow2_unfold(d);
            } else {
                assert(n * pow2(0) == n);
            }
        }
        if self.node(i) == NODE_ALLOCATED {
            proof {
                bits::lemma_pow2_mono(d, 63);
                if d >= usize::BITS {
                    bits::lemma_pow2_mono(usize::BITS as nat, d);
                    assert((i + 2) * pow2(d) >= 2 * pow2(d)) by (nonlinear_arith)
                        requires
                            pow2(d) >= 1,
                            i >= 0,
                    ;
                }
            }
            let width: usize = power_of_two(exponent);
            let mut j: usize = 0;
            while j < width
                invariant
                    j <= width,
                    "*"@ == seq!['*'],
                    out@ == before + Seq::new(j as nat, |g: int| '*'),
                decreases width - j,
            {
                out.append("*");
                j = j + 1;
                assert(out@ =~= before + Seq::new(j as nat, |g: int| '*'));
            }
            assert(tree::picture(t, n, d) =~= Seq::new(pow2(d), |g: int| '*'));
        } else if exponent == 0 {
            out.append("_");
            assert(out@ =~= before + tree::picture(t, n, d));
        } else {
            let ghost p = pow2((d - 1) as nat) as int;
            assert((i + 2) * (2 * p) == (2 * i + 4) * p) by (nonlinear_arith);
            assert((2 * i + 4) * p == (2 * i + 3) * p + p) by (nonlinear_arith);
            assert((2 * i + 3) * p >= 2 * i + 3) by (nonlinear_arith)
                requires
                    p >= 1,
                    i >= 0,
            ;
            self.show_node(left_child(i), exponent - 1, out);
            self.show_node(right_child(i), exponent - 1, out);
            assert(out@ =~= before + tree::picture(t, n, d));
        }
    }

    /// One symbol for each frame, in brackets: `*` where it is taken, `_` where it is available.
    pub fn to_string(&self) -> (r: String)
        requires
            self.frame_count() >= 1,
            self.nodes().len() == 2 * self.frame_count() - 1,
        ensures
            r@ == seq!['['] + tree::picture(
                self.nodes(),
                1,
                bits::floor_log2(self.frame_count()),
            ) + seq![']'],
            self.wf() ==> r@.len() == self.frame_count() + 2 && forall|f: int|
                0 <= f < self.frame_count() ==> #[trigger] r@[f + 1] == (if self.is_free(f) {
                    '_'
                } else {
                    '*'
                }),
    {
        let ghost k = bits::floor_log2(self.frame_count());
        let ghost t = self.nodes();
        proof {
            reveal_strlit("[");
            reveal_strlit("]");
            self.lemma_len();
        }
        let exponent: u32 = log2(self.frames);
        let mut out = String::new();
        out.append("[");
        self.show_node(0, exponent, &mut out);
        out.append("]");
        proof {
            assert(out@ =~= seq!['['] + tree::picture(t, 1, k) + seq![']']);
            if self.wf() {
                assert forall|i: int| 0 <= i < t.len() implies -1 <= #[trigger] t[i] by {
                    assert(tree::node_ok(self.frame_count(), t, i + 1));
                }
                assert forall|f: int|
                    0 <= f < self.frame_count() implies #[trigger] out@[f + 1] == (if self.is_free(
                    f,
                ) {
                    '_'
                } else {
                    '*'
                }) by {
                    tree::lemma_marked_clear(t, self.frame_count() + f, k);
                }
            }
        }
        out
    }
}

/// Freeing a run right after it was taken brings back the tree as it was.
pub proof fn law_free_undoes_allocate(frames: nat, t: Seq<i8>, off: int, k: nat)
    requires
        tree::tree_ok(frames, t),
        tree::run_free(frames, t, off, pow2(k)),
    ensures
        ({
            let n = (off + frames) / pow2(k) as int;
            let taken = tree::settle(frames, t.update(n - 1, -1i8), n);
            tree::settle(frames, taken.update(n - 1, k as i8), n) == t
        }),
{
    let n = tree::lemma_run_free(frames, t, off, k);
    let t1 = tree::settle(frames, t.update(n - 1, -1i8), n);
    let t2 = tree::settle(frames, t1.update(n - 1, k as i8), n);
    tree::lemma_height(frames, n);
    tree::lemma_full_path_exact(frames, t, n);
    tree::lemma_occupied(frames, t, n);
    assert(tree::taken_whole(frames, t1, n)) by {
        if n < frames {
            assert(tree::node_ok(frames, t, n));
            assert(tree::node_ok(frames, t, 2 * n));
            assert(tree::node_ok(frames, t, 2 * n + 1));
            tree::lemma_child_not_above(n);
            assert(tree::node(t1, 2 * n) == tree::node(t, 2 * n));
            assert(tree::node(t1, 2 * n + 1) == tree::node(t, 2 * n + 1));
        }
    }
    tree::lemma_released(frames, t1, n);
    assert forall|m: int| 1 <= m < 2 * frames && !tree::above(m, n) implies #[trigger] tree::node(t2, m)
        == tree::node(t, m) by {
        if m != n {
            assert(tree::node(t1, m) == tree::node(t, m));
        }
    }
    tree::lemma_exact_unique(frames, t2, t, n);
}

/// Two different runs that are taken have no frame in common.
pub proof fn law_taken_runs_are_disjoint(
    frames: nat,
    t: Seq<i8>,
    off1: int,
    k1: nat,
    off2: int,
    k2: nat,
)
    requires
        tree::tree_ok(frames, t),
        tree::run_taken(frames, t, off1, k1),
        tree::run_taken(frames, t, off2, k2),
        off1 != off2 || k1 != k2,
    ensures
        off1 + pow2(k1) <= off2 || off2 + pow2(k2) <= off1,
{
    lemma_pow2_pos(k1);
    lemma_pow2_pos(k2);
    let n1 = tree::lemma_run_node(frames, off1, k1);
    let n2 = tree::lemma_run_node(frames, off2, k2);
    if off1 < off2 + pow2(k2) && off2 < off1 + pow2(k1) {
        let f = if off1 >= off2 {
            off1
        } else {
            off2
        };
        let m = frames + f;
        assert(tree::below(frames + f, n1, k1));
        assert(tree::below(frames + f, n2, k2));
        tree::lemma_above_leaf(frames, n1, m);
        tree::lemma_above_leaf(frames, n2, m);
        tree::lemma_chain(n1, n2, m);
        if tree::above(n1, n2) {
            tree::lemma_not_nested(frames, t, n1, n2);
        } else if tree::above(n2, n1) {
            tree::lemma_not_nested(frames, t, n2, n1);
        }
    }
}

/// No frame of a run that is taken is available.
pub proof fn law_taken_run_is_not_free(frames: nat, t: Seq<i8>, off: int, k: nat, f: int)
    requires
        tree::tree_ok(frames, t),
        tree::run_taken(frames, t, off, k),
        off <= f < off + pow2(k),
    ensures
        !tree::frame_free(frames, t, f),
{
    lemma_pow2_pos(k);
    let n = tree::lemma_run_node(frames, off, k);
    tree::lemma_give_effect(frames, t, n, k);
}

/// When all frames are available, the tree is that of a new allocator: freed halves have joined.
pub proof fn law_all_free_is_new(frames: nat, t: Seq<i8>)
    requires
        tree::tree_ok(frames, t),
        forall|f: int| 0 <= f < frames ==> #[trigger] tree::frame_free(frames, t, f),
    ensures
        forall|n: int| 1 <= n < 2 * frames ==> #[trigger] tree::node(t, n) == tree::height(frames, n),
{
    assert forall|n: int| 1 <= n < 2 * frames implies #[trigger] tree::node(t, n) == tree::height(
        frames,
        n,
    ) by {
        tree::lemma_height(frames, n);
        let k = tree::height(frames, n) as nat;
        assert forall|m: int| #[trigger] tree::below(m, n, k) implies tree::path_clear(t, m) by {
            assert(tree::frame_free(frames, t, m - frames));
        }
        tree::lemma_leaves_full(frames, t, n, k);
    }
}

/// How many frames were asked for, where `live` holds the first frame and the count of each
/// request.
pub open spec fn asked(live: Seq<(int, nat)>) -> nat
    decreases live.len(),
{
    if live.len() == 0 {
        0
    } else {
        asked(live.drop_last()) + live.last().1
    }
}

/// How many frames the runs for the requests have.
pub open spec fn rounded(live: Seq<(int, nat)>) -> nat
    decreases live.len(),
{
    if live.len() == 0 {
        0
    } else {
        rounded(live.drop_last()) + bits::next_pow2(live.last().1)
    }
}

/// Frame `f` is in the run for the request.
pub open spec fn in_run(request: (int, nat), f: int) -> bool {
    request.0 <= f < request.0 + bits::next_pow2(request.1)
}

/// Frame `f` is in the run for one of the requests.
pub open spec fn in_live(live: Seq<(int, nat)>, f: int) -> bool {
    exists|i: int| 0 <= i < live.len() && #[trigger] in_run(live[i], f)
}

impl<'a> FrameAlloc<'a> {
    /// The requests are those that were allocated and not freed: their runs are taken, no two of
    /// them are the same, and the statistics count them.
    pub open spec fn serves(&self, live: Seq<(int, nat)>) -> bool {
        &&& self.wf()
        &&& self.balanced()
        &&& self.in_used_count() == asked(live)
        &&& self.allocated_count() == rounded(live)
        &&& forall|i: int|
            0 <= i < live.len() ==> self.is_run_taken(
                (#[trigger] live[i]).0,
                bits::ceil_log2(live[i].1),
            )
        &&& forall|i: int, j: int|
            0 <= i < j < live.len() ==> (#[trigger] live[i]).0 != (#[trigger] live[j]).0
    }
}

proof fn lemma_sums_without(live: Seq<(int, nat)>, i: int)
    requires
        0 <= i < live.len(),
    ensures
        asked(live) == asked(live.remove(i)) + live[i].1,
        rounded(live) == rounded(live.remove(i)) + bits::next_pow2(live[i].1),
    decreases live.len(),
{
    let rest = live.remove(i);
    if i == live.len() - 1 {
        assert(rest =~= live.drop_last());
    } else {
        lemma_sums_without(live.drop_last(), i);
        assert(rest.drop_last() =~= live.drop_last().remove(i));
        assert(rest.last() == live.last());
    }
}

proof fn lemma_asked_within_rounded(live: Seq<(int, nat)>)
    ensures
        asked(live) <= rounded(live),
    decreases live.len(),
{
    if live.len() > 0 {
        lemma_asked_within_rounded(live.drop_last());
        bits::lemma_next_pow2(live.last().1);
    }
}

/// The frames of the runs for the requests.
spec fn live_frames(live: Seq<(int, nat)>, frames: nat) -> Set<int> {
    vstd::set_lib::set_int_range(0, frames as int).filter(|f: int| in_live(live, f))
}

/// Disjoint runs have as many frames as all of them together.
proof fn lemma_live_frames(live: Seq<(int, nat)>, frames: nat)
    requires
        forall|i: int|
            0 <= i < live.len() ==> 0 <= (#[trigger] live[i]).0 && live[i].0 + bits::next_pow2(
                live[i].1,
            ) <= frames,
        forall|i: int, j: int, f: int|
            0 <= i < j < live.len() ==> !(#[trigger] in_run(live[i], f) && #[trigger] in_run(
                live[j],
                f,
            )),
    ensures
        live_frames(live, frames).finite(),
        live_frames(live, frames).len() == rounded(live),
    decreases live.len(),
{
    let all = vstd::set_lib::set_int_range(0, frames as int);
    let covered = live_frames(live, frames);
    vstd::set_lib::lemma_int_range(0, frames as int);
    vstd::set_lib::lemma_len_subset(covered, all);
    if live.len() == 0 {
        assert(covered =~= Set::empty());
    } else {
        let rest = live.drop_last();
        let last = live.last();
        assert forall|i: int| 0 <= i < rest.len() implies 0 <= (#[trigger] rest[i]).0 && rest[i].0
            + bits::next_pow2(rest[i].1) <= frames by {
            assert(rest[i] == live[i]);
        }
        assert forall|i: int, j: int, f: int| 0 <= i < j < rest.len() implies !(#[trigger] in_run(
            rest[i],
            f,
        ) && #[trigger] in_run(rest[j], f)) by {
            assert(!(in_run(live[i], f) && in_run(live[j], f)));
        }
        lemma_live_frames(rest, frames);
        let run = vstd::set_lib::set_int_range(last.0, last.0 + bits::next_pow2(last.1));
        vstd::set_lib::lemma_int_range(last.0, last.0 + bits::next_pow2(last.1));
        let before = live_frames(rest, frames);
        assert forall|f: int| #[trigger] covered.contains(f) == (before.contains(f)
            || run.contains(f)) by {
            if run.contains(f) {
                assert(live[live.len() - 1] == last);
                assert(in_run(live[live.len() - 1], f));
            }
            if in_live(rest, f) {
                let i = choose|i: int| 0 <= i < rest.len() && #[trigger] in_run(rest[i], f);
                assert(in_run(live[i], f));
            }
            if in_live(live, f) {
                let i = choose|i: int| 0 <= i < live.len() && #[trigger] in_run(live[i], f);
                if i < rest.len() {
                    assert(in_run(rest[i], f));
                }
            }
        }
        assert(covered =~= before + run);
        assert forall|f: int| !(#[trigger] before.contains(f) && run.contains(f)) by {
            if before.contains(f) && run.contains(f) {
                let i = choose|i: int| 0 <= i < rest.len() && #[trigger] in_run(rest[i], f);
                assert(!(in_run(live[i], f) && in_run(live[live.len() - 1], f)));
            }
        }
        assert(before.disjoint(run));
        vstd::set_lib::lemma_set_disjoint_lens(before, run);
    }
}

/// No two runs that are in use have a frame in common.
proof fn lemma_live_apart(f: FrameAlloc<'_>, live: Seq<(int, nat)>, i: int, j: int, x: int)
    requires
        f.serves(live),
        0 <= i < j < live.len(),
    ensures
        !(in_run(live[i], x) && in_run(live[j], x)),
{
    bits::lemma_next_pow2(live[i].1);
    bits::lemma_next_pow2(live[j].1);
    law_taken_runs_are_disjoint(
        f.frame_count(),
        f.nodes(),
        live[i].0,
        bits::ceil_log2(live[i].1),
        live[j].0,
        bits::ceil_log2(live[j].1),
    );
}

/// The frames that are available are those of no run that was allocated and not freed: as many as
/// the statistics say. No more frames are in use than are allocated.
pub proof fn law_available_frames(f: FrameAlloc<'_>, live: Seq<(int, nat)>)
    requires
        f.serves(live),
    ensures
        f.in_used_count() <= f.allocated_count(),
        f.free_frames().len() == f.frame_count() - f.allocated_count(),
        forall|x: int|
            0 <= x < f.frame_count() ==> #[trigger] f.is_free(x) == !in_live(live, x),
{
    let frames = f.frame_count();
    let all = vstd::set_lib::set_int_range(0, frames as int);
    let free = f.free_frames();
    let used = live_frames(live, frames);
    lemma_asked_within_rounded(live);
    vstd::set_lib::lemma_int_range(0, frames as int);
    vstd::set_lib::lemma_len_subset(free, all);
    assert forall|i: int| 0 <= i < live.len() implies 0 <= (#[trigger] live[i]).0 && live[i].0
        + bits::next_pow2(live[i].1) <= frames by {
        bits::lemma_next_pow2(live[i].1);
    }
    assert forall|i: int, j: int, x: int| 0 <= i < j < live.len() implies !(#[trigger] in_run(
        live[i],
        x,
    ) && #[trigger] in_run(live[j], x)) by {
        lemma_live_apart(f, live, i, j, x);
    }
    lemma_live_frames(live, frames);
    assert forall|x: int| #[trigger] in_live(live, x) implies !f.is_free(x) by {
        let i = choose|i: int| 0 <= i < live.len() && #[trigger] in_run(live[i], x);
        bits::lemma_next_pow2(live[i].1);
        law_taken_run_is_not_free(frames, f.nodes(), live[i].0, bits::ceil_log2(live[i].1), x);
    }
    assert(free.disjoint(used));
    vstd::set_lib::lemma_set_disjoint_lens(free, used);
    assert((free + used).subset_of(all));
    vstd::set_lib::lemma_len_subset(free + used, all);
    vstd::set_lib::lemma_subset_equality(free + used, all);
    assert forall|x: int| 0 <= x < frames implies #[trigger] f.is_free(x) == !in_live(live, x) by {
        assert((free + used).contains(x));
    }
}

/// A run that has been allocated is one more that is in use.
pub proof fn law_allocate_adds_a_request(
    f: FrameAlloc<'_>,
    g: FrameAlloc<'_>,
    live: Seq<(int, nat)>,
    off: int,
    count: nat,
)
    requires
        f.serves(live),
        f.is_run_free(off, bits::next_pow2(count)),
        g.wf(),
        g.balanced(),
        g.frame_count() == f.frame_count(),
        g.allocated_count() == f.allocated_count() + bits::next_pow2(count),
        g.in_used_count() == f.in_used_count() + count,
        forall|o: int, j: nat|
            #[trigger] g.is_run_taken(o, j) <==> f.is_run_taken(o, j) || (o == off && j
                == bits::ceil_log2(count)),
    ensures
        g.serves(live.push((off, count))),
{
    let more = live.push((off, count));
    assert(more.drop_last() =~= live);
    bits::lemma_next_pow2(count);
    assert(f.is_free(off));
    assert forall|i: int| 0 <= i < live.len() implies (#[trigger] live[i]).0 != off by {
        bits::lemma_next_pow2(live[i].1);
        lemma_pow2_pos(bits::ceil_log2(live[i].1));
        law_taken_run_is_not_free(
            f.frame_count(),
            f.nodes(),
            live[i].0,
            bits::ceil_log2(live[i].1),
            live[i].0,
        );
    }
    assert forall|i: int| 0 <= i < more.len() implies g.is_run_taken(
        (#[trigger] more[i]).0,
        bits::ceil_log2(more[i].1),
    ) by {
        if i < live.len() {
            assert(more[i] == live[i]);
        }
    }
    assert forall|i: int, j: int| 0 <= i < j < more.len() implies (#[trigger] more[i]).0 != (
    #[trigger] more[j]).0 by {
        assert(more[i] == live[i]);
        if j < live.len() {
            assert(more[j] == live[j]);
        }
    }
}

/// A run that has been freed is one less that is in use.
pub proof fn law_free_removes_a_request(
    f: FrameAlloc<'_>,
    g: FrameAlloc<'_>,
    live: Seq<(int, nat)>,
    i: int,
)
    requires
        f.serves(live),
        0 <= i < live.len(),
        g.wf(),
        g.balanced(),
        g.frame_count() == f.frame_count(),
        g.allocated_count() == f.allocated_count() - bits::next_pow2(live[i].1),
        g.in_used_count() == f.in_used_count() - live[i].1,
        forall|o: int, j: nat|
            #[trigger] g.is_run_taken(o, j) <==> f.is_run_taken(o, j) && !(o == live[i].0 && j
                == bits::ceil_log2(live[i].1)),
    ensures
        g.serves(live.remove(i)),
{
    let less = live.remove(i);
    lemma_sums_without(live, i);
    assert forall|j: int| 0 <= j < less.len() implies g.is_run_taken(
        (#[trigger] less[j]).0,
        bits::ceil_log2(less[j].1),
    ) by {
        let k = if j < i {
            j
        } else {
            j + 1
        };
        assert(less[j] == live[k]);
        assert(live[k].0 != live[i].0);
    }
    assert forall|a: int, b: int| 0 <= a < b < less.len() implies (#[trigger] less[a]).0 != (
    #[trigger] less[b]).0 by {
        let c = if a < i {
            a
        } else {
            a + 1
        };
        let d = if b < i {
            b
        } else {
            b + 1
        };
        assert(less[a] == live[c]);
        assert(less[b] == live[d]);
    }
}

/// A tree of `len` bytes manages as many frames as have their nodes in it: there is no room for two
/// more nodes behind them, and where the bytes are just enough for the nodes of a power of two of
/// frames, with or without one byte more, that power is the number of frames.
pub proof fn law_frames_fill_the_tree(len: nat)
    requires
        len >= 1,
    ensures
        tree::frames_for(len) >= 1,
        2 * tree::frames_for(len) - 1 <= len <= 2 * tree::frames_for(len) + 1,
        forall|k: nat|
            len == 2 * #[trigger] pow2(k) - 1 || len == 2 * pow2(k) ==> tree::frames_for(len)
                == pow2(k),
        len == 2 * tree::frames_for(len) - 1 <==> exists|k: nat| len + 1 == 2 * #[trigger] pow2(k),
{
    let e = bits::floor_log2(len + 1);
    lemma2_to64();
    bits::lemma_floor_log2_bounds(len + 1);
    assert(e >= 1) by {
        if e == 0 {
            lemma_pow2_unfold(1);
        }
    }
    if len + 1 == pow2(e) {
        lemma_pow2_unfold(e);
        assert(len + 1 == 2 * pow2((e - 1) as nat));
    }
    assert forall|k: nat|
        len == 2 * #[trigger] pow2(k) - 1 || len == 2 * pow2(k) implies tree::frames_for(len)
        == pow2(k) by {
        lemma_pow2_pos(k);
        lemma_pow2_unfold(k + 1);
        if len == 2 * pow2(k) - 1 {
            bits::lemma_floor_log2_pow2(k + 1);
        } else if len + 1 == pow2(e) {
            lemma_pow2_unfold(e);
        }
    }
    assert forall|k: nat| len + 1 == 2 * #[trigger] pow2(k) implies len == 2 * tree::frames_for(len)
        - 1 by {
        assert(len == 2 * pow2(k) - 1);
    }
}

/// A run can be allocated just where it starts at a multiple of its length, ends within the frames,
/// and holds no frame of a request that has not been freed. So nothing is lost: when all requests
/// have been freed, all frames can be allocated as one run.
pub proof fn law_runs_without_requests_are_free(
    f: FrameAlloc<'_>,
    live: Seq<(int, nat)>,
    off: int,
    size: nat,
)
    requires
        f.serves(live),
        size > 0,
    ensures
        f.is_run_free(off, size) <==> {
            &&& 0 <= off
            &&& off % (size as int) == 0
            &&& off + size <= f.frame_count()
            &&& forall|i: int|
                0 <= i < live.len() ==> (#[trigger] live[i]).0 + bits::next_pow2(live[i].1) <= off
                    || off + size <= live[i].0
        },
        live.len() == 0 ==> f.is_run_free(0, f.frame_count()),
{
    law_available_frames(f, live);
    let apart = forall|i: int|
        0 <= i < live.len() ==> (#[trigger] live[i]).0 + bits::next_pow2(live[i].1) <= off || off
            + size <= live[i].0;
    if 0 <= off && off % (size as int) == 0 && off + size <= f.frame_count() && apart {
        assert forall|x: int| off <= x < off + size implies #[trigger] tree::frame_free(
            f.frame_count(),
            f.nodes(),
            x,
        ) by {
            assert(f.is_free(x) == !in_live(live, x));
        }
    }
    if f.is_run_free(off, size) {
        assert forall|i: int| 0 <= i < live.len() implies (#[trigger] live[i]).0 + bits::next_pow2(
            live[i].1,
        ) <= off || off + size <= live[i].0 by {
            let x = if off <= live[i].0 {
                live[i].0
            } else {
                off
            };
            if x < off + size && x < live[i].0 + bits::next_pow2(live[i].1) {
                assert(in_run(live[i], x));
                assert(tree::frame_free(f.frame_count(), f.nodes(), x));
                assert(f.is_free(x) == !in_live(live, x));
            }
            bits::lemma_next_pow2(live[i].1);
        }
    }
    if live.len() == 0 {
        lemma_pow2_pos(bits::floor_log2(f.frame_count()));
        vstd::arithmetic::div_mod::lemma_small_mod(0, f.frame_count());
        assert forall|x: int| 0 <= x < f.frame_count() implies #[trigger] tree::frame_free(
            f.frame_count(),
            f.nodes(),
            x,
        ) by {
            assert(f.is_free(x) == !in_live(live, x));
        }
    }
}

} // verus!
