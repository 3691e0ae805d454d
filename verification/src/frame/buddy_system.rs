//! A frame allocator that keeps its free blocks in ordered sets, one for each size.

use crate::bits::{self, log2, lowest_bit, next_power_of_two, power_of_two};
use core::ops::Range;
use std::collections::BTreeSet;
use vstd::arithmetic::power2::*;
use vstd::prelude::*;

verus! {

broadcast use vstd::std_specs::btree::group_btree_axioms;

/// For each class of sizes the starts of the free blocks with `2` to the power of the class frames.
pub type Lists = Seq<Set<usize>>;

/// There are 32 classes, and each block ends where a frame number can stand.
pub open spec fn lists_ok(lists: Lists) -> bool {
    &&& lists.len() == 32
    &&& forall|c: int, b: usize|
        0 <= c < 32 && #[trigger] lists[c].contains(b) ==> b + pow2(c as nat) <= usize::MAX + 1
}

/// The class of the first block of the frames from `start` up to `end`: the largest of which
/// `start` is a multiple, as far as the frames reach. At frame 0 it is at most 5.
pub open spec fn piece_class(start: nat, end: nat) -> nat {
    let aligned = if start == 0 {
        5
    } else {
        bits::twos(start)
    };
    let fitting = bits::floor_log2((end - start) as nat);
    if aligned <= fitting {
        aligned
    } else {
        fitting
    }
}

/// The lists after the frames from `start` up to `end` have been cut into blocks and added.
pub open spec fn added(lists: Lists, start: nat, end: nat) -> Lists
    decreases end - start,
    when start <= end
{
    if start == end {
        lists
    } else {
        proof {
            lemma_piece(start, end);
        }
        let c = piece_class(start, end);
        added(
            lists.update(c as int, lists[c as int].insert(start as usize)),
            start + pow2(c),
            end,
        )
    }
}

/// The frames from `start` up to `end` can be cut into blocks that have a class.
pub open spec fn pieces_fit(start: nat, end: nat) -> bool
    decreases end - start,
    when start <= end
{
    if start == end {
        true
    } else {
        proof {
            lemma_piece(start, end);
        }
        let c = piece_class(start, end);
        c < 32 && pieces_fit(start + pow2(c), end)
    }
}

/// The first block of a range is not empty and does not reach beyond the range.
pub proof fn lemma_piece(start: nat, end: nat)
    requires
        start < end,
    ensures
        0 < pow2(piece_class(start, end)) <= end - start,
{
    let c = piece_class(start, end);
    let n = (end - start) as nat;
    lemma_pow2_pos(c);
    bits::lemma_floor_log2_bounds(n);
    bits::lemma_pow2_mono(c, bits::floor_log2(n));
}

/// The greatest power of two that is not above `num`.
pub fn prev_power_of_two(num: usize) -> (r: usize)
    requires
        num > 0,
    ensures
        r == pow2(bits::floor_log2(num as nat)),
        r <= num < 2 * r,
        exists|k: nat| r == #[trigger] pow2(k),
{
    power_of_two(log2(num))
}

/// The least element.
fn first(set: &BTreeSet<usize>) -> (r: Option<usize>)
    ensures
        match r {
            Some(x) => is_least(set@, x),
            None => set@ == Set::<usize>::empty(),
        },
{
    for x in iter: set.iter()
        invariant
            iter.index() == 0,
            iter.seq() == vstd::std_specs::iter::IteratorSpec::remaining(&set.iter()),
    {
        proof {
            let s = iter.seq();
            assert(s.unref().to_set() == set@);
            assert(s.unref()[0] == x);
            assert(vstd::laws_cmp::obeys_cmp::<&usize>());
            vstd::std_specs::btree::axiom_increasing_seq_meaning::<&usize>(s);
            assert forall|y: usize| #[trigger] set@.contains(y) implies *x <= y by {
                assert(s.unref().to_set().contains(y));
                let i = choose|i: int| 0 <= i < s.unref().len() && s.unref()[i] == y;
                assert(s.unref()[i] == *s[i]);
                if i > 0 {
                    assert(vstd::std_specs::cmp::OrdSpec::cmp_spec(&s[0], &s[i]) is Less);
                }
            }
        }
        return Some(*x);
    }
    None
}

/// `x` is the least element of the set.
pub open spec fn is_least(s: Set<usize>, x: usize) -> bool {
    s.contains(x) && forall|y: usize| #[trigger] s.contains(y) ==> x <= y
}

/// The least element of a set.
pub open spec fn least(s: Set<usize>) -> usize {
    choose|x: usize| is_least(s, x)
}

/// The first class from `c` on with a free block; 32 if there is none.
pub open spec fn first_class(lists: Lists, c: int) -> int
    decreases 32 - c,
{
    if c >= 32 {
        32
    } else if lists[c] != Set::<usize>::empty() {
        c
    } else {
        first_class(lists, c + 1)
    }
}

/// The block of class `c` that is taken from the first free block that is large enough.
pub open spec fn split_off(lists: Lists, c: int) -> usize {
    least(lists[first_class(lists, c)])
}

/// The lists after a block of class `c` has been taken: the block that it came from is gone, and of
/// each class from `c` on up to that block's the half that is left over is free.
pub open spec fn without(lists: Lists, c: int) -> Lists {
    let i = first_class(lists, c);
    let b = split_off(lists, c);
    Seq::new(
        lists.len(),
        |k: int|
            if k == i {
                lists[k].remove(b)
            } else if c <= k < i {
                set![(b + pow2(k as nat)) as usize]
            } else {
                lists[k]
            },
    )
}

/// The lists when the block `b` of class `i` has been split down to class `j`.
spec fn halfway(lists: Lists, i: int, j: int, b: usize) -> Lists {
    Seq::new(
        lists.len(),
        |k: int|
            if k == j && j < i {
                set![b, (b + pow2(k as nat)) as usize]
            } else if k == i && j < i {
                lists[k].remove(b)
            } else if j < k < i {
                set![(b + pow2(k as nat)) as usize]
            } else {
                lists[k]
            },
    )
}

/// The block that forms a block of the next class together with the one of class `c` at `p`.
pub open spec fn buddy(p: int, c: int) -> int {
    if (p / pow2(c as nat) as int) % 2 == 0 {
        p + pow2(c as nat)
    } else {
        p - pow2(c as nat)
    }
}

/// The start of the block that a block and its buddy form.
pub open spec fn lower(p: int, c: int) -> int {
    if p <= buddy(p, c) {
        p
    } else {
        buddy(p, c)
    }
}

/// The start of the block that the block of class `c` at `p` is part of, `k` classes up.
pub open spec fn joint(p: int, c: int, k: nat) -> int
    decreases k,
{
    if k == 0 {
        p
    } else {
        lower(joint(p, c, (k - 1) as nat), c + k - 1)
    }
}

/// The number of classes, from `c` on, in which the block that the one at `p` is part of has a free
/// buddy.
pub open spec fn levels(lists: Lists, p: int, c: int) -> nat
    decreases 32 - c,
{
    if c < 32 && lists[c].contains(buddy(p, c) as usize) {
        1 + levels(lists, lower(p, c), c + 1)
    } else {
        0
    }
}

/// The lists without the free buddies that the block of class `c` at `p` is joined to in `k`
/// classes.
pub open spec fn unpaired(lists: Lists, p: int, c: int, k: nat) -> Lists {
    Seq::new(
        lists.len(),
        |i: int|
            if c <= i < c + k {
                lists[i].remove(buddy(joint(p, c, (i - c) as nat), i) as usize)
            } else {
                lists[i]
            },
    )
}

/// The lists after the block of class `c` at `p` has been put back and joined to its free buddies
/// in `k` classes. The buddies have left their lists for the joint block.
pub open spec fn raised(lists: Lists, p: int, c: int, k: nat) -> Lists {
    let left = unpaired(lists, p, c, k);
    left.update(c + k, left[c + k].insert(joint(p, c, k) as usize))
}

/// The lists after the block of class `c` at `p` has been put back and joined to its free buddies.
pub open spec fn put_back(lists: Lists, p: int, c: int) -> Lists {
    raised(lists, p, c, levels(lists, p, c))
}

/// The buddy of the block of class `class` at `block`.
fn buddy_of(block: usize, class: u32) -> (r: usize)
    requires
        class < 32,
    ensures
        r == buddy(block as int, class as int),
{
    let c: usize = class as usize;
    proof {
        lemma_buddy_is_xor(block, c);
    }
    block ^ (1usize << c)
}

/// The buddy differs in one bit.
proof fn lemma_buddy_is_xor(block: usize, c: usize)
    requires
        c < 32,
    ensures
        (block ^ (1usize << c)) == buddy(block as int, c as int),
{
    let bit: usize = 1usize << c;
    lemma2_to64();
    lemma2_to64_rest();
    bits::lemma_pow2_mono(c as nat, 31);
    vstd::bits::lemma_usize_shl_is_mul(1, c);
    vstd::bits::lemma_usize_shr_is_div(block, c);
    assert((block >> c) % 2 == 0 ==> (block ^ bit) == block + bit) by (bit_vector)
        requires
            c < 32,
            bit == 1usize << c,
    ;
    assert((block >> c) % 2 != 0 ==> (block ^ bit) == block - bit) by (bit_vector)
        requires
            c < 32,
            bit == 1usize << c,
    ;
}

/// A range of `count` frames can be allocated: there is a block that is large enough, and the
/// frames can be counted.
pub open spec fn has_room(lists: Lists, allocated: nat, count: nat) -> bool {
    &&& bits::next_pow2(count) <= usize::MAX
    &&& allocated + bits::next_pow2(count) <= usize::MAX
    &&& first_class(lists, bits::ceil_log2(count) as int) < 32
}

/// There is a free block from the class of `count` on just where one has at least `count` frames.
proof fn lemma_large_enough(lists: Lists, count: nat)
    requires
        lists.len() == 32,
    ensures
        first_class(lists, bits::ceil_log2(count) as int) < 32 <==> exists|k: int, b: usize|
            0 <= k < 32 && #[trigger] lists[k].contains(b) && count <= pow2(k as nat),
{
    let c = bits::ceil_log2(count);
    bits::lemma_next_pow2(count);
    law_allocated_from_the_first_block(lists, c as int);
    if first_class(lists, c as int) < 32 {
        let (k, b) = choose|k: int, b: usize| c <= k < 32 && #[trigger] lists[k].contains(b);
        bits::lemma_pow2_mono(c, k as nat);
        assert(0 <= k < 32 && lists[k].contains(b) && count <= pow2(k as nat));
    }
    if exists|k: int, b: usize|
        0 <= k < 32 && #[trigger] lists[k].contains(b) && count <= pow2(k as nat) {
        let (k, b) = choose|k: int, b: usize|
            0 <= k < 32 && #[trigger] lists[k].contains(b) && count <= pow2(k as nat);
        lemma_min_class(c, k as nat);
        lemma_pow2_pos(k as nat);
        assert(c <= k < 32 && lists[k].contains(b));
    }
}

/// There is no class for more frames than the greatest class has.
proof fn lemma_large(count: nat)
    requires
        count > 0x8000_0000,
    ensures
        bits::ceil_log2(count) >= 32,
{
    lemma2_to64();
    lemma2_to64_rest();
    bits::lemma_next_pow2(count);
    if bits::ceil_log2(count) < 32 {
        bits::lemma_pow2_mono(bits::ceil_log2(count), 31);
    }
}

/// The greatest class has as many frames.
proof fn lemma_small(count: nat)
    requires
        count <= 0x8000_0000,
    ensures
        bits::next_pow2(count) <= 0x8000_0000,
{
    lemma2_to64();
    lemma2_to64_rest();
    bits::lemma_next_pow2(count);
    assert(pow2(31) == 0x8000_0000);
}

/// A frame allocator using buddy system.
/// Requires a global allocator
#[derive(Debug)]
pub struct FrameAlloc {
    // buddy system with max order of 32
    free_list: Vec<BTreeSet<usize>>,
    // statistics
    allocated: usize,
    total: usize,
}

impl View for FrameAlloc {
    type V = Lists;

    closed spec fn view(&self) -> Lists {
        Seq::new(self.free_list@.len(), |i: int| self.free_list@[i]@)
    }
}

impl Default for FrameAlloc {
    fn default() -> (r: Self)
        ensures
            r.wf(),
            forall|c: int| 0 <= c < 32 ==> #[trigger] r@[c] == Set::<usize>::empty(),
            r.allocated_frames() == 0,
            r.total_frames() == 0,
    {
        let mut free_list: Vec<BTreeSet<usize>> = Vec::new();
        while free_list.len() < 32
            invariant
                free_list@.len() <= 32,
                forall|c: int|
                    0 <= c < free_list@.len() ==> (#[trigger] free_list@[c])@ == Set::<
                        usize,
                    >::empty(),
            decreases 32 - free_list@.len(),
        {
            free_list.push(BTreeSet::new());
        }
        FrameAlloc { free_list, allocated: 0, total: 0 }
    }
}

impl FrameAlloc {
    /// The number of frames that are allocated.
    pub closed spec fn allocated_frames(&self) -> nat {
        self.allocated as nat
    }

    /// The number of frames that have been added.
    pub closed spec fn total_frames(&self) -> nat {
        self.total as nat
    }

    pub open spec fn wf(&self) -> bool {
        lists_ok(self@)
    }

    /// Create an empty frame allocator
    pub fn new() -> (r: Self)
        ensures
            r.wf(),
            forall|c: int| 0 <= c < 32 ==> #[trigger] r@[c] == Set::<usize>::empty(),
            r.allocated_frames() == 0,
            r.total_frames() == 0,
    {
        FrameAlloc::default()
    }

    /// Adds a free block to the list of its class.
    fn put(&mut self, class: u32, block: usize)
        requires
            old(self).wf(),
            class < 32,
            block + pow2(class as nat) <= usize::MAX + 1,
        ensures
            final(self).wf(),
            final(self)@ == old(self)@.update(
                class as int,
                old(self)@[class as int].insert(block),
            ),
            final(self).allocated_frames() == old(self).allocated_frames(),
            final(self).total_frames() == old(self).total_frames(),
    {
        self.free_list[class as usize].insert(block);
        proof {
            assert(self@ =~= old(self)@.update(
                class as int,
                old(self)@[class as int].insert(block),
            ));
        }
    }

    /// Removes a free block from the list of its class, if it is there.
    fn take(&mut self, class: u32, block: usize) -> (r: bool)
        requires
            old(self).wf(),
            class < 32,
        ensures
            final(self).wf(),
            final(self)@ == old(self)@.update(
                class as int,
                old(self)@[class as int].remove(block),
            ),
            r == old(self)@[class as int].contains(block),
            final(self).allocated_frames() == old(self).allocated_frames(),
            final(self).total_frames() == old(self).total_frames(),
    {
        let r = self.free_list[class as usize].remove(&block);
        proof {
            assert(self@ =~= old(self)@.update(
                class as int,
                old(self)@[class as int].remove(block),
            ));
        }
        r
    }

    /// Add a range of frame number [start, end) to the allocator
    pub fn add_frame(&mut self, start: usize, end: usize)
        requires
            old(self).wf(),
            start <= end,
            pieces_fit(start as nat, end as nat),
            old(self).total_frames() + (end - start) <= usize::MAX,
        ensures
            final(self).wf(),
            final(self)@ == added(old(self)@, start as nat, end as nat),
            forall|x: int| #[trigger]
                is_free(final(self)@, x) == (is_free(old(self)@, x) || start <= x < end),
            forall|c: int, b: usize|
                0 <= c < 32 && #[trigger] final(self)@[c].contains(b) && !old(self)@[c].contains(b)
                    && b > 0 ==> b as nat % pow2((c + 1) as nat) != 0 || b + pow2((c + 1) as nat)
                    > end,
            final(self).total_frames() == old(self).total_frames() + (end - start),
            final(self).allocated_frames() == old(self).allocated_frames(),
    {
        let mut total: usize = 0;
        let mut current_start: usize = start;
        while current_start < end
            invariant
                self.wf(),
                start <= current_start <= end,
                total == current_start - start,
                pieces_fit(current_start as nat, end as nat),
                added(self@, current_start as nat, end as nat) == added(
                    old(self)@,
                    start as nat,
                    end as nat,
                ),
                self.total_frames() == old(self).total_frames(),
                self.allocated_frames() == old(self).allocated_frames(),
            decreases end - current_start,
        {
            proof {
                lemma_piece(current_start as nat, end as nat);
                lemma2_to64();
            }
            let lowbit: usize = if current_start > 0 {
                lowest_bit(current_start)
            } else {
                32
            };
            let prev: usize = prev_power_of_two(end - current_start);
            let size: usize = if lowbit <= prev {
                lowbit
            } else {
                prev
            };
            proof {
                lemma_min_class(
                    if current_start == 0 {
                        5
                    } else {
                        bits::twos(current_start as nat)
                    },
                    bits::floor_log2((end - current_start) as nat),
                );
                assert(size == pow2(piece_class(current_start as nat, end as nat)));
                bits::lemma_floor_log2_pow2(
                    piece_class(current_start as nat, end as nat),
                );
            }
            total = total + size;
            self.put(log2(size), current_start);
            current_start = current_start + size;
        }
        self.total = self.total + total;
        proof {
            assert forall|x: int| #[trigger]
                is_free(self@, x) == (is_free(old(self)@, x) || start <= x < end) by {
                law_added_are_free(old(self)@, start as nat, end as nat, x);
            }
            assert forall|c: int, b: usize|
                0 <= c < 32 && #[trigger] self@[c].contains(b) && !old(self)@[c].contains(b) && b
                    > 0 implies b as nat % pow2((c + 1) as nat) != 0 || b + pow2((c + 1) as nat)
                > end by {
                law_added_blocks_are_largest(old(self)@, start as nat, end as nat, c, b);
            }
        }
    }

    /// Allocate a range of frames from the allocator, return the first frame of the allocated range
    pub fn allocate(&mut self, count: usize) -> (r: Option<usize>)
        requires
            old(self).wf(),
            bits::next_pow2(count as nat) <= usize::MAX,
            first_class(old(self)@, bits::ceil_log2(count as nat) as int) < 32
                ==> old(self).allocated_frames() + bits::next_pow2(count as nat) <= usize::MAX,
        ensures
            final(self).wf(),
            match r {
                Some(b) => {
                    let class = bits::ceil_log2(count as nat);
                    &&& first_class(old(self)@, class as int) < 32
                    &&& b == split_off(old(self)@, class as int)
                    &&& final(self)@ == without(old(self)@, class as int)
                    &&& final(self).allocated_frames() == old(self).allocated_frames()
                        + bits::next_pow2(count as nat)
                    &&& final(self).total_frames() == old(self).total_frames()
                },
                None => {
                    &&& first_class(old(self)@, bits::ceil_log2(count as nat) as int) == 32
                    &&& *final(self) == *old(self)
                },
            },
            r is Some <==> exists|k: int, b: usize|
                0 <= k < 32 && #[trigger] old(self)@[k].contains(b) && count <= pow2(k as nat),
            r matches Some(b) ==> forall|x: int|
                b <= x < b + bits::next_pow2(count as nat) ==> #[trigger] is_free(old(self)@, x),
            no_pairs(old(self)@) ==> no_pairs(final(self)@),
    {
        let size: usize = next_power_of_two(count);
        proof {
            bits::lemma_next_pow2(count as nat);
            lemma_large_enough(self@, count as nat);
        }
        let class: u32 = log2(size);
        let ghost lists = self@;
        let mut i: u32 = class;
        while i < 32 && self.free_list[i as usize].is_empty()
            invariant
                self.wf(),
                self@ == lists,
                class <= i,
                class < usize::BITS,
                i <= 32 || i == class,
                first_class(lists, class as int) == first_class(lists, i as int),
                forall|k: int|
                    class <= k < i ==> #[trigger] lists[k] == Set::<usize>::empty(),
            decreases 32 - i,
        {
            proof {
                assert(lists[i as int] =~= Set::<usize>::empty());
            }
            i = i + 1;
        }
        if i >= 32 {
            return None;
        }
        proof {
            assert(lists[i as int] == self.free_list@[i as int]@);
        }
        let block: usize = match first(&self.free_list[i as usize]) {
            Some(block) => block,
            None => {
                return None;
            },
        };
        proof {
            assert(lists[i as int].contains(block));
            lemma_halves_fit(block, i as nat);
        }
        // Split buffers
        let mut j: u32 = i;
        while j > class
            invariant
                self.wf(),
                class <= j <= i < 32,
                is_least(lists[i as int], block),
                lists_ok(lists),
                forall|k: int|
                    class <= k < i ==> #[trigger] lists[k] == Set::<usize>::empty(),
                forall|k: int|
                    0 <= k < i ==> 0 < #[trigger] pow2(k as nat) && block + pow2(k as nat)
                        <= usize::MAX,
                self@ == halfway(lists, i as int, j as int, block),
                self.allocated_frames() == old(self).allocated_frames(),
                self.total_frames() == old(self).total_frames(),
            decreases j,
        {
            let half: usize = power_of_two(j - 1);
            proof {
                lemma_pow2_unfold(j as nat);
                bits::lemma_pow2_mono(j as nat, i as nat);
                assert(lists[i as int].contains(block));
                assert(pow2((j - 1) as int as nat) == half);
            }
            self.put(j - 1, block + half);
            self.put(j - 1, block);
            self.take(j, block);
            j = j - 1;
            proof {
                let h = halfway(lists, i as int, j as int, block);
                assert forall|k: int| 0 <= k < 32 implies #[trigger] self@[k] == h[k] by {
                    assert(self@[k] =~= h[k]);
                }
                assert(self@ =~= h);
            }
        }
        self.take(class, block);
        proof {
            assert(lists[i as int].contains(block));
            assert(least(lists[i as int]) == block);
            let w = without(lists, class as int);
            assert forall|k: int| 0 <= k < 32 implies #[trigger] self@[k] == w[k] by {
                assert(self@[k] =~= w[k]);
            }
            assert(self@ =~= w);
            assert forall|x: int|
                block <= x < block + bits::next_pow2(count as nat) implies #[trigger] is_free(
                lists,
                x,
            ) by {
                law_allocated_were_free(lists, class as int, x);
            }
            if no_pairs(lists) {
                law_allocated_leaves_no_pairs(lists, class as int);
            }
        }
        self.allocated = self.allocated + size;
        Some(block)
    }

    /// Whether a range of frames can be allocated.
    pub fn has_room(&self, count: usize) -> (r: bool)
        requires
            self.wf(),
        ensures
            r == has_room(self@, self.allocated_frames(), count as nat),
            r <==> self.allocated_frames() + bits::next_pow2(count as nat) <= usize::MAX && exists|
                k: int,
                b: usize,
            |
                0 <= k < 32 && #[trigger] self@[k].contains(b) && count <= pow2(k as nat),
    {
        proof {
            lemma_large_enough(self@, count as nat);
        }
        if count > 0x8000_0000 {
            proof {
                lemma_large(count as nat);
            }
            return false;
        }
        proof {
            lemma_small(count as nat);
        }
        let size: usize = next_power_of_two(count);
        proof {
            bits::lemma_next_pow2(count as nat);
        }
        let class: u32 = log2(size);
        if self.allocated > usize::MAX - size {
            return false;
        }
        let mut i: u32 = class;
        while i < 32
            invariant
                self.wf(),
                class <= i,
                class == bits::ceil_log2(count as nat),
                self.allocated_frames() + bits::next_pow2(count as nat) <= usize::MAX,
                first_class(self@, class as int) == first_class(self@, i as int),
                has_room(self@, self.allocated_frames(), count as nat) == (first_class(
                    self@,
                    class as int,
                ) < 32),
            decreases 32 - i,
        {
            if !self.free_list[i as usize].is_empty() {
                proof {
                    lemma_large_enough(self@, count as nat);
                }
                return true;
            }
            proof {
                assert(self@[i as int] =~= Set::<usize>::empty());
            }
            i = i + 1;
        }
        false
    }

    /// Deallocate a range of frames [frame, frame+count) from the frame allocator.
    pub fn dealloc(&mut self, frame: usize, count: usize)
        requires
            old(self).wf(),
            bits::ceil_log2(count as nat) + levels(
                old(self)@,
                frame as int,
                bits::ceil_log2(count as nat) as int,
            ) < 32,
            frame + bits::next_pow2(count as nat) <= usize::MAX + 1,
            bits::next_pow2(count as nat) <= old(self).allocated_frames(),
        ensures
            final(self).wf(),
            final(self)@ == put_back(
                old(self)@,
                frame as int,
                bits::ceil_log2(count as nat) as int,
            ),
            forall|x: int| #[trigger]
                is_free(final(self)@, x) == (is_free(old(self)@, x) || frame <= x < frame
                    + bits::next_pow2(count as nat)),
            frame as nat % bits::next_pow2(count as nat) == 0 && aligned(old(self)@) && no_pairs(
                old(self)@,
            ) ==> no_pairs(final(self)@),
            final(self).allocated_frames() == old(self).allocated_frames()
                - bits::next_pow2(count as nat),
            final(self).total_frames() == old(self).total_frames(),
    {
        let size: usize = next_power_of_two(count);
        proof {
            bits::lemma_next_pow2(count as nat);
        }
        let class: u32 = log2(size);
        let ghost lists = self@;
        let ghost n = levels(lists, frame as int, class as int);
        // Merge free buddy lists
        let mut current_ptr: usize = frame;
        let mut current_class: u32 = class;
        let ghost mut k: nat = 0;
        proof {
            assert(self@ =~= unpaired(lists, frame as int, class as int, 0));
        }
        loop
            invariant
                self.wf(),
                lists_ok(lists),
                n == levels(lists, frame as int, class as int),
                class + n < 32,
                current_class == class + k,
                current_ptr == joint(frame as int, class as int, k),
                current_ptr + pow2(current_class as nat) <= usize::MAX + 1,
                n == k + levels(lists, current_ptr as int, current_class as int),
                self@ == unpaired(lists, frame as int, class as int, k),
                self.allocated_frames() == old(self).allocated_frames(),
                self.total_frames() == old(self).total_frames(),
            ensures
                k == n,
            decreases n - k,
        {
            let buddy: usize = buddy_of(current_ptr, current_class);
            let ghost before = self@;
            if !self.take(current_class, buddy) {
                proof {
                    lemma_pow2_pos(current_class as nat);
                    let cc = current_class as int;
                    assert(before[cc].remove(buddy) =~= before[cc]);
                    assert(self@ =~= before);
                }
                break;
            }
            // Free buddy found
            proof {
                lemma_pow2_pos(current_class as nat);
                lemma_pow2_unfold((current_class + 1) as nat);
                assert(lists[current_class as int].contains(buddy));
                k = k + 1;
                let h = unpaired(lists, frame as int, class as int, k);
                assert forall|i: int| 0 <= i < 32 implies #[trigger] self@[i] == h[i] by {
                    assert(self@[i] =~= h[i]);
                }
                assert(self@ =~= h);
            }
            current_ptr = if current_ptr <= buddy {
                current_ptr
            } else {
                buddy
            };
            current_class = current_class + 1;
        }
        // Put back into free list
        self.put(current_class, current_ptr);
        self.allocated = self.allocated - size;
        proof {
            assert forall|x: int| #[trigger]
                is_free(self@, x) == (is_free(lists, x) || frame <= x < frame + size) by {
                law_put_back_are_free(lists, frame, class as int, x);
            }
            if frame as nat % bits::next_pow2(count as nat) == 0 && aligned(lists) && no_pairs(
                lists,
            ) {
                law_put_back_leaves_no_pairs(lists, frame, class as int);
            }
        }
    }

    /// Add a range of frame to the allocator
    pub fn insert(&mut self, range: Range<usize>)
        requires
            old(self).wf(),
            range.start <= range.end,
            pieces_fit(range.start as nat, range.end as nat),
            old(self).total_frames() + (range.end - range.start) <= usize::MAX,
        ensures
            final(self).wf(),
            final(self)@ == added(old(self)@, range.start as nat, range.end as nat),
            forall|x: int| #[trigger]
                is_free(final(self)@, x) == (is_free(old(self)@, x) || range.start <= x
                    < range.end),
            final(self).total_frames() == old(self).total_frames() + (range.end - range.start),
            final(self).allocated_frames() == old(self).allocated_frames(),
    {
        self.add_frame(range.start, range.end);
    }
}

/// The halves of a block start where a frame number can stand.
proof fn lemma_halves_fit(b: usize, i: nat)
    requires
        b + pow2(i) <= usize::MAX + 1,
    ensures
        forall|k: int|
            0 <= k < i ==> 0 < #[trigger] pow2(k as nat) && b + pow2(k as nat) <= usize::MAX,
{
    assert forall|k: int| 0 <= k < i implies 0 < #[trigger] pow2(k as nat) && b + pow2(k as nat)
        <= usize::MAX by {
        lemma_pow2_pos(k as nat);
        lemma_pow2_strictly_increases(k as nat, i);
    }
}

/// The lesser of two powers of two is that of the lesser exponent.
proof fn lemma_min_class(a: nat, b: nat)
    ensures
        pow2(a) <= pow2(b) <==> a <= b,
{
    if a <= b {
        bits::lemma_pow2_mono(a, b);
    } else {
        lemma_pow2_strictly_increases(b, a);
    }
}

/// The block of class `c` at `b` holds the frame `x`.
pub open spec fn in_block(b: int, c: int, x: int) -> bool {
    b <= x < b + pow2(c as nat)
}

/// The frame `x` is in a free block.
pub open spec fn is_free(lists: Lists, x: int) -> bool {
    exists|c: int, b: usize|
        0 <= c < lists.len() && #[trigger] lists[c].contains(b) && in_block(b as int, c, x)
}

/// No frame is in two free blocks.
pub open spec fn disjoint(lists: Lists) -> bool {
    forall|c: int, b: usize, d: int, e: usize|
        0 <= c < lists.len() && 0 <= d < lists.len() && #[trigger] lists[c].contains(b)
            && #[trigger] lists[d].contains(e) && !(c == d && b == e) ==> b + pow2(c as nat) <= e
            || e + pow2(d as nat) <= b
}

/// Adding frames makes exactly those frames free, besides the ones that were.
pub proof fn law_added_are_free(lists: Lists, start: nat, end: nat, x: int)
    requires
        lists_ok(lists),
        start <= end <= usize::MAX,
        pieces_fit(start, end),
    ensures
        is_free(added(lists, start, end), x) == (is_free(lists, x) || start <= x < end),
        lists_ok(added(lists, start, end)),
    decreases end - start,
{
    if start < end {
        let c = piece_class(start, end) as int;
        lemma_piece(start, end);
        let next = lists.update(c, lists[c].insert(start as usize));
        law_added_are_free(next, start + pow2(c as nat), end, x);
        assert(is_free(next, x) == (is_free(lists, x) || in_block(start as int, c, x))) by {
            lemma_one_more(lists, next, c, start as usize, x);
        }
    }
}

/// One more block makes its frames free.
proof fn lemma_one_more(lists: Lists, next: Lists, c: int, b: usize, x: int)
    requires
        0 <= c < lists.len(),
        next == lists.update(c, lists[c].insert(b)),
    ensures
        is_free(next, x) == (is_free(lists, x) || in_block(b as int, c, x)),
{
    if is_free(lists, x) {
        let (d, e) = choose|d: int, e: usize|
            0 <= d < lists.len() && #[trigger] lists[d].contains(e) && in_block(e as int, d, x);
        assert(next[d].contains(e));
    }
    if in_block(b as int, c, x) {
        assert(next[c].contains(b));
    }
    if is_free(next, x) {
        let (d, e) = choose|d: int, e: usize|
            0 <= d < next.len() && #[trigger] next[d].contains(e) && in_block(e as int, d, x);
        if !(d == c && e == b) {
            assert(lists[d].contains(e));
        }
    }
}

/// One more block of frames that are not free keeps each frame in one free block at most.
proof fn lemma_one_more_disjoint(lists: Lists, next: Lists, c: int, b: usize)
    requires
        disjoint(lists),
        0 <= c < lists.len(),
        next == lists.update(c, lists[c].insert(b)),
        forall|x: int| in_block(b as int, c, x) ==> !#[trigger] is_free(lists, x),
    ensures
        disjoint(next),
{
    lemma_pow2_pos(c as nat);
    assert forall|d: int, e: usize|
        0 <= d < lists.len() && #[trigger] lists[d].contains(e) implies e + pow2(d as nat) <= b || b
        + pow2(c as nat) <= e by {
        lemma_pow2_pos(d as nat);
        // a common frame would be the larger of the two starts
        let x: int = if e <= b {
            b as int
        } else {
            e as int
        };
        if !(e + pow2(d as nat) <= b || b + pow2(c as nat) <= e) {
            assert(in_block(e as int, d, x));
            assert(in_block(b as int, c, x));
            assert(is_free(lists, x));
        }
    }
    assert forall|d: int, e: usize, f: int, g: usize|
        0 <= d < next.len() && 0 <= f < next.len() && #[trigger] next[d].contains(e)
            && #[trigger] next[f].contains(g) && !(d == f && e == g) implies e + pow2(d as nat) <= g
        || g + pow2(f as nat) <= e by {
        if !(d == c && e == b) {
            assert(lists[d].contains(e));
        }
        if !(f == c && g == b) {
            assert(lists[f].contains(g));
        }
    }
}

/// Adding frames that are not free keeps each frame in one free block at most.
pub proof fn law_added_stay_disjoint(lists: Lists, start: nat, end: nat)
    requires
        lists_ok(lists),
        disjoint(lists),
        start <= end <= usize::MAX,
        pieces_fit(start, end),
        forall|x: int| start <= x < end ==> !#[trigger] is_free(lists, x),
    ensures
        disjoint(added(lists, start, end)),
    decreases end - start,
{
    if start < end {
        let c = piece_class(start, end) as int;
        lemma_piece(start, end);
        let next = lists.update(c, lists[c].insert(start as usize));
        lemma_one_more_disjoint(lists, next, c, start as usize);
        assert forall|x: int| start + pow2(c as nat) <= x < end implies !#[trigger] is_free(
            next,
            x,
        ) by {
            lemma_one_more(lists, next, c, start as usize, x);
        }
        law_added_stay_disjoint(next, start + pow2(c as nat), end);
    }
}

proof fn lemma_least(s: Set<usize>, x: usize)
    requires
        s.contains(x),
    ensures
        is_least(s, least(s)),
    decreases x,
{
    if !is_least(s, x) {
        let y = choose|y: usize| #[trigger] s.contains(y) && y < x;
        lemma_least(s, y);
    }
}

proof fn lemma_first_class(lists: Lists, c: int)
    requires
        0 <= c,
        first_class(lists, c) < 32,
    ensures
        c <= first_class(lists, c) < 32,
        is_least(lists[first_class(lists, c)], split_off(lists, c)),
        forall|k: int| c <= k < first_class(lists, c) ==> #[trigger] lists[k] == Set::<
            usize,
        >::empty(),
    decreases 32 - c,
{
    if lists[c] == Set::<usize>::empty() {
        lemma_first_class(lists, c + 1);
    } else {
        if forall|x: usize| !lists[c].contains(x) {
            assert(lists[c] =~= Set::<usize>::empty());
        }
        let x = choose|x: usize| lists[c].contains(x);
        lemma_least(lists[c], x);
    }
}

/// A frame behind the first part of a block is in one of the halves that splitting left over.
proof fn lemma_in_half(b: int, c: nat, i: nat, x: int) -> (k: nat)
    requires
        c <= i,
        b + pow2(c) <= x < b + pow2(i),
    ensures
        c <= k < i,
        b + pow2(k) <= x < b + pow2(k + 1),
    decreases i,
{
    if i == c {
        c
    } else {
        let h = (i - 1) as nat;
        if x >= b + pow2(h) {
            h
        } else {
            lemma_in_half(b, c, h, x)
        }
    }
}

/// The frames that are allocated were all free.
pub proof fn law_allocated_were_free(lists: Lists, c: int, x: int)
    requires
        lists_ok(lists),
        0 <= c,
        first_class(lists, c) < 32,
        in_block(split_off(lists, c) as int, c, x),
    ensures
        is_free(lists, x),
{
    lemma_first_class(lists, c);
    let i = first_class(lists, c);
    let b = split_off(lists, c);
    bits::lemma_pow2_mono(c as nat, i as nat);
    assert(lists[i].contains(b));
    assert(in_block(b as int, i, x));
}

/// Where no frame is in two free blocks, allocating takes exactly the frames that are handed out,
/// and again no frame is in two free blocks.
pub proof fn law_allocated_are_taken(lists: Lists, c: int)
    requires
        lists_ok(lists),
        disjoint(lists),
        0 <= c,
        first_class(lists, c) < 32,
    ensures
        forall|x: int| #[trigger]
            is_free(without(lists, c), x) == (is_free(lists, x) && !in_block(
                split_off(lists, c) as int,
                c,
                x,
            )),
        disjoint(without(lists, c)),
{
    lemma_first_class(lists, c);
    let i = first_class(lists, c);
    let b = split_off(lists, c);
    let w = without(lists, c);
    assert(lists[i].contains(b));
    lemma_halves_fit(b, i as nat);
    // each block that is left lies in a block that was there, behind the frames handed out
    assert forall|d: int, e: usize| 0 <= d < w.len() && #[trigger] w[d].contains(e) implies if c <= d
        < i {
        e == b + pow2(d as nat) && e + pow2(d as nat) <= b + pow2(i as nat) && b + pow2(c as nat)
            <= e
    } else {
        lists[d].contains(e) && !(d == i && e == b) && (e + pow2(d as nat) <= b || b + pow2(
            i as nat,
        ) <= e)
    } by {
        if c <= d < i {
            lemma_pow2_unfold((d + 1) as nat);
            bits::lemma_pow2_mono((d + 1) as nat, i as nat);
            bits::lemma_pow2_mono(c as nat, d as nat);
            assert(w[d] =~= set![(b + pow2(d as nat)) as usize]);
        } else {
            assert(lists[d].contains(e));
        }
    }
    assert forall|x: int| #[trigger] is_free(w, x) == (is_free(lists, x) && !in_block(
        b as int,
        c,
        x,
    )) by {
        bits::lemma_pow2_mono(c as nat, i as nat);
        if is_free(w, x) {
            let (d, e) = choose|d: int, e: usize|
                0 <= d < w.len() && #[trigger] w[d].contains(e) && in_block(e as int, d, x);
            if c <= d < i {
                assert(in_block(b as int, i, x));
            } else {
                assert(lists[d].contains(e));
            }
        }
        if is_free(lists, x) && !in_block(b as int, c, x) {
            let (d, e) = choose|d: int, e: usize|
                0 <= d < lists.len() && #[trigger] lists[d].contains(e) && in_block(
                    e as int,
                    d,
                    x,
                );
            if d == i && e == b {
                let k = lemma_in_half(b as int, c as nat, i as nat, x);
                lemma_pow2_unfold((k + 1) as nat);
                let half = (b + pow2(k)) as usize;
                assert(pow2(k as int as nat) > 0);
                assert(w[k as int].contains(half));
                assert(in_block(half as int, k as int, x));
            } else {
                assert(w[d].contains(e));
            }
        }
    }
    assert forall|d: int, e: usize, f: int, g: usize|
        0 <= d < w.len() && 0 <= f < w.len() && #[trigger] w[d].contains(e)
            && #[trigger] w[f].contains(g) && !(d == f && e == g) implies e + pow2(d as nat) <= g
        || g + pow2(f as nat) <= e by {
        if c <= d < i && c <= f < i {
            lemma_pow2_unfold((d + 1) as nat);
            lemma_pow2_unfold((f + 1) as nat);
            if d < f {
                bits::lemma_pow2_mono((d + 1) as nat, f as nat);
            } else if f < d {
                bits::lemma_pow2_mono((f + 1) as nat, d as nat);
            }
        }
    }
}

/// A block and its buddy are the halves of the block that they form.
proof fn lemma_buddies(p: int, c: int, x: int)
    requires
        c >= 0,
    ensures
        in_block(lower(p, c), c + 1, x) == (in_block(p, c, x) || in_block(buddy(p, c), c, x)),
{
    lemma_pow2_pos(c as nat);
    lemma_pow2_unfold((c + 1) as nat);
}

/// One block less keeps the frames free that are not in it.
proof fn lemma_one_less(lists: Lists, next: Lists, c: int, b: usize, x: int)
    requires
        0 <= c < lists.len(),
        lists[c].contains(b),
        next == lists.update(c, lists[c].remove(b)),
    ensures
        is_free(lists, x) == (is_free(next, x) || in_block(b as int, c, x)),
{
    assert(lists =~= next.update(c, next[c].insert(b))) by {
        assert(next[c].insert(b) =~= lists[c]);
    }
    lemma_one_more(next, lists, c, b, x);
}

/// One class more: the buddy leaves its list.
proof fn lemma_unpaired_step(lists: Lists, p: usize, c: int, k: nat)
    requires
        lists_ok(lists),
        0 <= c,
        c + k < 32,
        p + pow2(c as nat) <= usize::MAX + 1,
        forall|j: nat|
            j <= k ==> lists[c + j].contains(
                #[trigger] buddy(joint(p as int, c, j), c + j) as usize,
            ),
        0 <= joint(p as int, c, k) <= usize::MAX,
    ensures
        ({
            let q = unpaired(lists, p as int, c, k);
            let j = joint(p as int, c, k);
            let bud = buddy(j, c + k);
            &&& 0 <= bud <= usize::MAX
            &&& q[c + k].contains(bud as usize)
            &&& unpaired(lists, p as int, c, k + 1) == q.update(
                c + k,
                q[c + k].remove(bud as usize),
            )
            &&& joint(p as int, c, k + 1) == lower(j, c + k)
        }),
{
    let q = unpaired(lists, p as int, c, k);
    let j = joint(p as int, c, k);
    lemma_buddy_is_xor(j as usize, (c + k) as usize);
    assert(lists[c + k].contains(buddy(j, c + k) as usize));
    assert(unpaired(lists, p as int, c, k + 1) =~= q.update(
        c + k,
        q[c + k].remove(buddy(j, c + k) as usize),
    ));
}

/// The frames of the joint block, and those that are free without it, are the free ones and those
/// of the block at `p`.
proof fn lemma_unpaired_are_free(lists: Lists, p: usize, c: int, k: nat, x: int)
    requires
        lists_ok(lists),
        0 <= c,
        c + k < 32,
        p + pow2(c as nat) <= usize::MAX + 1,
        forall|j: nat|
            j < k ==> lists[c + j].contains(
                #[trigger] buddy(joint(p as int, c, j), c + j) as usize,
            ),
    ensures
        (is_free(unpaired(lists, p as int, c, k), x) || in_block(
            joint(p as int, c, k),
            c + k,
            x,
        )) == (is_free(lists, x) || in_block(p as int, c, x)),
        0 <= joint(p as int, c, k) <= usize::MAX,
    decreases k,
{
    let r = unpaired(lists, p as int, c, k);
    if k == 0 {
        lemma_pow2_pos(c as nat);
        assert(r =~= lists);
    } else {
        let h = (k - 1) as nat;
        lemma_unpaired_are_free(lists, p, c, h, x);
        lemma_unpaired_step(lists, p, c, h);
        let q = unpaired(lists, p as int, c, h);
        let j = joint(p as int, c, h);
        lemma_buddies(j, c + h, x);
        lemma_one_less(q, r, c + h, buddy(j, c + h) as usize, x);
    }
}

/// The joint block has no frame in common with the free blocks that are left.
proof fn lemma_unpaired_disjoint(lists: Lists, p: usize, c: int, k: nat)
    requires
        lists_ok(lists),
        disjoint(lists),
        0 <= c,
        c + k < 32,
        p + pow2(c as nat) <= usize::MAX + 1,
        forall|j: nat|
            j < k ==> lists[c + j].contains(
                #[trigger] buddy(joint(p as int, c, j), c + j) as usize,
            ),
        forall|x: int| in_block(p as int, c, x) ==> !#[trigger] is_free(lists, x),
    ensures
        disjoint(unpaired(lists, p as int, c, k)),
        forall|x: int|
            in_block(joint(p as int, c, k), c + k, x) ==> !#[trigger] is_free(
                unpaired(lists, p as int, c, k),
                x,
            ),
    decreases k,
{
    let r = unpaired(lists, p as int, c, k);
    assert forall|d: int, e: usize| 0 <= d < r.len() && #[trigger] r[d].contains(e) implies
        lists[d].contains(e) by {}
    if k == 0 {
        assert(r =~= lists);
    } else {
        let h = (k - 1) as nat;
        lemma_unpaired_disjoint(lists, p, c, h);
        lemma_unpaired_are_free(lists, p, c, h, 0);
        lemma_unpaired_step(lists, p, c, h);
        let q = unpaired(lists, p as int, c, h);
        let j = joint(p as int, c, h);
        let bud = buddy(j, c + h) as usize;
        assert forall|x: int| in_block(joint(p as int, c, k), c + k, x) implies !#[trigger] is_free(
            r,
            x,
        ) by {
            lemma_buddies(j, c + h, x);
            if is_free(r, x) {
                let (d, e) = choose|d: int, e: usize|
                    0 <= d < r.len() && #[trigger] r[d].contains(e) && in_block(e as int, d, x);
                assert(q[d].contains(e));
                assert(is_free(q, x));
                assert(q[c + h].contains(bud));
                assert(in_block(bud as int, c + h, x));
            }
        }
    }
}

proof fn lemma_levels(lists: Lists, p: int, c: int, k: nat)
    requires
        lists_ok(lists),
        0 <= c,
        0 <= p <= usize::MAX,
        k <= levels(lists, p, c),
        c + levels(lists, p, c) < 32,
    ensures
        levels(lists, joint(p, c, k), c + k) == levels(lists, p, c) - k,
        forall|j: nat|
            j < k ==> lists[c + j].contains(#[trigger] buddy(joint(p, c, j), c + j) as usize),
    decreases k,
{
    if k > 0 {
        lemma_levels(lists, p, c, (k - 1) as nat);
    }
}

/// Deallocating makes exactly the frames that are given back free, besides the ones that were.
pub proof fn law_put_back_are_free(lists: Lists, p: usize, c: int, x: int)
    requires
        lists_ok(lists),
        0 <= c,
        c + levels(lists, p as int, c) < 32,
        p + pow2(c as nat) <= usize::MAX + 1,
    ensures
        is_free(put_back(lists, p as int, c), x) == (is_free(lists, x) || in_block(
            p as int,
            c,
            x,
        )),
{
    let n = levels(lists, p as int, c);
    lemma_levels(lists, p as int, c, n);
    lemma_unpaired_are_free(lists, p, c, n, x);
    let left = unpaired(lists, p as int, c, n);
    lemma_one_more(
        left,
        put_back(lists, p as int, c),
        c + n,
        joint(p as int, c, n) as usize,
        x,
    );
}

/// Deallocating frames that are not free keeps each frame in one free block at most.
pub proof fn law_put_back_stay_disjoint(lists: Lists, p: usize, c: int)
    requires
        lists_ok(lists),
        disjoint(lists),
        0 <= c,
        c + levels(lists, p as int, c) < 32,
        p + pow2(c as nat) <= usize::MAX + 1,
        forall|x: int| in_block(p as int, c, x) ==> !#[trigger] is_free(lists, x),
    ensures
        disjoint(put_back(lists, p as int, c)),
{
    let n = levels(lists, p as int, c);
    lemma_levels(lists, p as int, c, n);
    lemma_unpaired_are_free(lists, p, c, n, 0);
    lemma_unpaired_disjoint(lists, p, c, n);
    lemma_one_more_disjoint(
        unpaired(lists, p as int, c, n),
        put_back(lists, p as int, c),
        c + n,
        joint(p as int, c, n) as usize,
    );
}

/// Giving back what has been allocated makes the same frames free as before, each of them in one
/// free block.
pub proof fn law_put_back_undoes_allocate(lists: Lists, c: int, x: int)
    requires
        lists_ok(lists),
        disjoint(lists),
        0 <= c,
        first_class(lists, c) < 32,
        c + levels(without(lists, c), split_off(lists, c) as int, c) < 32,
    ensures
        is_free(put_back(without(lists, c), split_off(lists, c) as int, c), x) == is_free(lists, x),
        disjoint(put_back(without(lists, c), split_off(lists, c) as int, c)),
{
    lemma_first_class(lists, c);
    let i = first_class(lists, c);
    let b = split_off(lists, c);
    let w = without(lists, c);
    law_allocated_are_taken(lists, c);
    assert(lists[i].contains(b));
    bits::lemma_pow2_mono(c as nat, i as nat);
    lemma_without_ok(lists, c);
    law_put_back_are_free(w, b, c, x);
    law_put_back_stay_disjoint(w, b, c);
    if in_block(b as int, c, x) {
        law_allocated_were_free(lists, c, x);
    }
}

proof fn lemma_without_ok(lists: Lists, c: int)
    requires
        lists_ok(lists),
        0 <= c,
        first_class(lists, c) < 32,
    ensures
        lists_ok(without(lists, c)),
{
    lemma_first_class(lists, c);
    let i = first_class(lists, c);
    let b = split_off(lists, c);
    let w = without(lists, c);
    assert(lists[i].contains(b));
    lemma_halves_fit(b, i as nat);
    assert forall|d: int, e: usize| 0 <= d < 32 && #[trigger] w[d].contains(e) implies e + pow2(
        d as nat,
    ) <= usize::MAX + 1 by {
        if c <= d < i {
            lemma_pow2_unfold((d + 1) as nat);
            bits::lemma_pow2_mono((d + 1) as nat, i as nat);
            assert(w[d] =~= set![(b + pow2(d as nat)) as usize]);
        } else {
            assert(lists[d].contains(e));
        }
    }
}

/// No free block reaches beyond frame `end`.
pub open spec fn within(lists: Lists, end: int) -> bool {
    &&& lists.len() == 32
    &&& forall|c: int, b: usize|
        0 <= c < 32 && #[trigger] lists[c].contains(b) ==> b + pow2(c as nat) <= end
}

/// Adding frames makes no block that reaches beyond them and the others.
pub proof fn law_added_stay_within(lists: Lists, start: nat, end: nat)
    requires
        within(lists, end as int),
        start <= end <= usize::MAX,
        pieces_fit(start, end),
    ensures
        within(added(lists, start, end), end as int),
    decreases end - start,
{
    if start < end {
        let c = piece_class(start, end) as int;
        lemma_piece(start, end);
        let next = lists.update(c, lists[c].insert(start as usize));
        assert forall|d: int, b: usize| 0 <= d < 32 && #[trigger] next[d].contains(b) implies b
            + pow2(d as nat) <= end by {
            if !(d == c && b == start) {
                assert(lists[d].contains(b));
            }
        }
        law_added_stay_within(next, start + pow2(c as nat), end);
    }
}

/// Any range of frames up to twice the greatest class can be cut into blocks.
pub proof fn lemma_pieces_fit(start: nat, end: nat)
    requires
        start <= end <= 0x1_0000_0000,
    ensures
        pieces_fit(start, end),
    decreases end - start,
{
    if start < end {
        let c = piece_class(start, end);
        lemma_piece(start, end);
        lemma2_to64();
        lemma2_to64_rest();
        if c >= 32 {
            bits::lemma_pow2_mono(32, c);
        }
        lemma_pieces_fit(start + pow2(c), end);
    }
}

/// Allocating leaves no block that reaches beyond the others.
pub proof fn law_allocated_stay_within(lists: Lists, c: int, end: int)
    requires
        within(lists, end),
        end <= usize::MAX,
        0 <= c,
        first_class(lists, c) < 32,
    ensures
        within(without(lists, c), end),
        split_off(lists, c) + pow2(c as nat) <= end,
{
    lemma_first_class(lists, c);
    let i = first_class(lists, c);
    let b = split_off(lists, c);
    let w = without(lists, c);
    assert(lists[i].contains(b));
    lemma_halves_fit(b, i as nat);
    bits::lemma_pow2_mono(c as nat, i as nat);
    assert forall|d: int, e: usize| 0 <= d < 32 && #[trigger] w[d].contains(e) implies e + pow2(
        d as nat,
    ) <= end by {
        if c <= d < i {
            lemma_pow2_unfold((d + 1) as nat);
            bits::lemma_pow2_mono((d + 1) as nat, i as nat);
            assert(w[d] =~= set![(b + pow2(d as nat)) as usize]);
        } else {
            assert(lists[d].contains(e));
        }
    }
}

/// A block is joined to its buddies in no more classes than the frames allow.
proof fn lemma_levels_fit(lists: Lists, p: int, c: int, end: int)
    requires
        within(lists, end),
        0 <= p,
        0 <= c,
        p + pow2(c as nat) <= end,
        end < 0x1_0000_0000,
    ensures
        c + levels(lists, p, c) < 32,
    decreases 32 - c,
{
    lemma2_to64();
    lemma2_to64_rest();
    if c >= 32 {
        bits::lemma_pow2_mono(32, c as nat);
    }
    lemma_pow2_pos(c as nat);
    lemma_pow2_unfold((c + 1) as nat);
    lemma_buddy_is_xor(p as usize, c as usize);
    if lists[c].contains(buddy(p, c) as usize) {
        lemma_levels_fit(lists, lower(p, c), c + 1, end);
    }
}

proof fn lemma_joint_within(lists: Lists, p: int, c: int, k: nat, end: int)
    requires
        within(lists, end),
        0 <= p,
        0 <= c,
        p + pow2(c as nat) <= end,
        end <= usize::MAX,
        c + k < 32,
        forall|j: nat|
            j < k ==> lists[c + j].contains(#[trigger] buddy(joint(p, c, j), c + j) as usize),
    ensures
        0 <= joint(p, c, k),
        joint(p, c, k) + pow2((c + k) as nat) <= end,
    decreases k,
{
    if k > 0 {
        let h = (k - 1) as nat;
        lemma_joint_within(lists, p, c, h, end);
        let q = joint(p, c, h);
        lemma_pow2_pos((c + h) as nat);
        lemma_pow2_unfold((c + k) as nat);
        lemma_buddy_is_xor(q as usize, (c + h) as usize);
        assert(lists[c + h].contains(buddy(q, c + h) as usize));
    }
}

/// Deallocating makes no block that reaches beyond the frames, and comes to an end.
pub proof fn law_put_back_stay_within(lists: Lists, p: usize, c: int, end: int)
    requires
        within(lists, end),
        0 <= c,
        p + pow2(c as nat) <= end,
        end < 0x1_0000_0000,
        end <= usize::MAX,
    ensures
        c + levels(lists, p as int, c) < 32,
        within(put_back(lists, p as int, c), end),
{
    let n = levels(lists, p as int, c);
    lemma_levels_fit(lists, p as int, c, end);
    assert(lists_ok(lists));
    lemma_levels(lists, p as int, c, n);
    let r = put_back(lists, p as int, c);
    assert forall|d: int, e: usize| 0 <= d < 32 && #[trigger] r[d].contains(e) implies e + pow2(
        d as nat,
    ) <= end by {
        if c <= d <= c + n {
            let k = (d - c) as nat;
            lemma_joint_within(lists, p as int, c, k, end);
            lemma_pow2_pos(d as nat);
            if e != joint(p as int, c, k) {
                assert(lists[d].contains(e));
            }
        } else {
            assert(lists[d].contains(e));
        }
    }
}

/// Each free block starts at a multiple of its size.
pub open spec fn aligned(lists: Lists) -> bool {
    forall|c: int, b: usize|
        0 <= c < lists.len() && #[trigger] lists[c].contains(b) ==> b as nat % pow2(c as nat) == 0
}

/// A multiple of a power of two is one of the lesser powers.
proof fn lemma_multiple_of_less(n: nat, c: nat, d: nat)
    requires
        c <= d,
        n % pow2(d) == 0,
    ensures
        n % pow2(c) == 0,
{
    lemma_pow2_pos(c);
    lemma_pow2_pos(d);
    lemma_pow2_pos((d - c) as nat);
    lemma_pow2_adds(c, (d - c) as nat);
    vstd::arithmetic::div_mod::lemma_mod_mod(
        n as int,
        pow2(c) as int,
        pow2((d - c) as nat) as int,
    );
    vstd::arithmetic::div_mod::lemma_small_mod(0, pow2(c));
    assert(n as int % (pow2(c) * pow2((d - c) as nat)) as int == 0);
}

/// The block behind one at a multiple of its size starts at a multiple of it, too.
proof fn lemma_next_multiple(n: nat, c: nat)
    requires
        n % pow2(c) == 0,
    ensures
        (n + pow2(c)) % pow2(c) == 0,
        n >= pow2(c) ==> (n - pow2(c)) as nat % pow2(c) == 0,
{
    lemma_pow2_pos(c);
    vstd::arithmetic::div_mod::lemma_mod_add_multiples_vanish(n as int, pow2(c) as int);
    vstd::arithmetic::div_mod::lemma_mod_sub_multiples_vanish(n as int, pow2(c) as int);
}

/// Adding frames makes blocks that start at multiples of their sizes.
pub proof fn law_added_stay_aligned(lists: Lists, start: nat, end: nat)
    requires
        lists_ok(lists),
        aligned(lists),
        start <= end <= usize::MAX,
        pieces_fit(start, end),
    ensures
        aligned(added(lists, start, end)),
    decreases end - start,
{
    if start < end {
        let c = piece_class(start, end);
        lemma_piece(start, end);
        if start > 0 {
            bits::lemma_twos_divides(start);
            lemma_multiple_of_less(start, c, bits::twos(start));
        } else {
            vstd::arithmetic::div_mod::lemma_small_mod(0, pow2(c));
        }
        let next = lists.update(c as int, lists[c as int].insert(start as usize));
        assert forall|d: int, b: usize| 0 <= d < next.len() && #[trigger] next[d].contains(b)
            implies b as nat % pow2(d as nat) == 0 by {
            if !(d == c && b == start) {
                assert(lists[d].contains(b));
            }
        }
        law_added_are_free(lists, start, end, 0);
        law_added_stay_aligned(next, start + pow2(c), end);
    }
}

/// What is allocated starts at a multiple of its size, and so do the blocks that are left.
pub proof fn law_allocated_are_aligned(lists: Lists, c: int)
    requires
        lists_ok(lists),
        aligned(lists),
        0 <= c,
        first_class(lists, c) < 32,
    ensures
        split_off(lists, c) as nat % pow2(c as nat) == 0,
        aligned(without(lists, c)),
{
    lemma_first_class(lists, c);
    let i = first_class(lists, c);
    let b = split_off(lists, c);
    let w = without(lists, c);
    assert(lists[i].contains(b));
    lemma_halves_fit(b, i as nat);
    lemma_multiple_of_less(b as nat, c as nat, i as nat);
    assert forall|d: int, e: usize| 0 <= d < w.len() && #[trigger] w[d].contains(e) implies e as nat
        % pow2(d as nat) == 0 by {
        if c <= d < i {
            lemma_multiple_of_less(b as nat, d as nat, i as nat);
            lemma_next_multiple(b as nat, d as nat);
            assert(w[d] =~= set![(b + pow2(d as nat)) as usize]);
        } else {
            assert(lists[d].contains(e));
        }
    }
}

/// The block that a block at a multiple of its size and its buddy form starts at a multiple of its
/// size.
proof fn lemma_lower_aligned(p: nat, c: nat)
    requires
        p % pow2(c) == 0,
    ensures
        lower(p as int, c as int) >= 0,
        lower(p as int, c as int) as nat % pow2(c + 1) == 0,
{
    let s = pow2(c) as int;
    lemma_pow2_pos(c);
    lemma_pow2_unfold(c + 1);
    let q = p as int / s;
    vstd::arithmetic::div_mod::lemma_fundamental_div_mod(p as int, s);
    vstd::arithmetic::div_mod::lemma_div_pos_is_pos(p as int, s);
    let h = q / 2;
    assert(lower(p as int, c as int) == h * (2 * s)) by (nonlinear_arith)
        requires
            p as int == s * q,
            s > 0,
            q >= 0,
            h == q / 2,
            lower(p as int, c as int) == (if q % 2 == 0 {
                p as int
            } else {
                p - s
            }),
    ;
    assert(h * (2 * s) >= 0) by (nonlinear_arith)
        requires
            h >= 0,
            s > 0,
    ;
    vstd::arithmetic::div_mod::lemma_mod_multiples_basic(h, 2 * s);
}

proof fn lemma_joint_aligned(p: nat, c: int, k: nat)
    requires
        0 <= c,
        p % pow2(c as nat) == 0,
    ensures
        joint(p as int, c, k) >= 0,
        joint(p as int, c, k) as nat % pow2((c + k) as nat) == 0,
    decreases k,
{
    if k > 0 {
        let h = (k - 1) as nat;
        lemma_joint_aligned(p, c, h);
        lemma_lower_aligned(joint(p as int, c, h) as nat, (c + h) as nat);
    }
}

/// Deallocating a block at a multiple of its size makes a block at a multiple of its size.
pub proof fn law_put_back_stay_aligned(lists: Lists, p: usize, c: int)
    requires
        lists_ok(lists),
        aligned(lists),
        0 <= c,
        c + levels(lists, p as int, c) < 32,
        p + pow2(c as nat) <= usize::MAX + 1,
        p as nat % pow2(c as nat) == 0,
    ensures
        aligned(put_back(lists, p as int, c)),
{
    let n = levels(lists, p as int, c);
    lemma_levels(lists, p as int, c, n);
    lemma_unpaired_are_free(lists, p, c, n, 0);
    lemma_joint_aligned(p as nat, c, n);
    let r = put_back(lists, p as int, c);
    assert forall|d: int, e: usize| 0 <= d < r.len() && #[trigger] r[d].contains(e) implies e as nat
        % pow2(d as nat) == 0 by {
        if !(d == c + n && e == joint(p as int, c, n) as usize) {
            assert(lists[d].contains(e));
        }
    }
}

/// The lists after `n` single frames have been allocated.
pub open spec fn after_singles(lists: Lists, n: nat) -> Lists
    decreases n,
{
    if n == 0 {
        lists
    } else {
        without(after_singles(lists, (n - 1) as nat), 0)
    }
}

/// The single frame that is allocated after `n` others.
pub open spec fn single(lists: Lists, n: nat) -> usize {
    split_off(after_singles(lists, n), 0)
}

/// The frame `x` is one of the first `n` single frames that are allocated.
pub open spec fn comes_out(lists: Lists, n: nat, x: int) -> bool {
    exists|i: nat| i < n && #[trigger] single(lists, i) == x
}

/// The frames that are free.
spec fn free_set(lists: Lists, end: int) -> Set<int> {
    vstd::set_lib::set_int_range(0, end).filter(|x: int| is_free(lists, x))
}

/// A free frame can be allocated, and nothing else can.
proof fn lemma_single_there(lists: Lists, x: int)
    requires
        lists.len() == 32,
    ensures
        is_free(lists, x) ==> first_class(lists, 0) < 32,
        first_class(lists, 0) < 32 ==> is_free(lists, split_off(lists, 0) as int),
{
    if is_free(lists, x) {
        let (c, b) = choose|c: int, b: usize|
            0 <= c < lists.len() && #[trigger] lists[c].contains(b) && in_block(b as int, c, x);
        lemma_class_found(lists, 0, c);
    }
    if first_class(lists, 0) < 32 {
        lemma_first_class(lists, 0);
        let i = first_class(lists, 0);
        lemma_pow2_pos(i as nat);
        assert(lists[i].contains(split_off(lists, 0)));
        assert(in_block(split_off(lists, 0) as int, i, split_off(lists, 0) as int));
    }
}

proof fn lemma_class_found(lists: Lists, c: int, d: int)
    requires
        0 <= c <= d < 32,
        exists|b: usize| lists[d].contains(b),
    ensures
        first_class(lists, c) < 32,
    decreases d - c,
{
    if lists[c] == Set::<usize>::empty() {
        lemma_class_found(lists, c + 1, d);
    }
}

/// What is left after `n` single frames have been allocated.
proof fn lemma_singles(lists: Lists, start: int, end: int, n: nat)
    requires
        lists_ok(lists),
        disjoint(lists),
        0 <= start <= end,
        n <= end - start,
        forall|x: int| #[trigger] is_free(lists, x) == (start <= x < end),
    ensures
        lists_ok(after_singles(lists, n)),
        disjoint(after_singles(lists, n)),
        free_set(after_singles(lists, n), end).finite(),
        free_set(after_singles(lists, n), end).len() == end - start - n,
        forall|x: int| #[trigger]
            is_free(after_singles(lists, n), x) ==> start <= x < end && forall|i: nat|
                i < n ==> #[trigger] single(lists, i) != x,
        forall|i: nat|
            i < n ==> first_class(#[trigger] after_singles(lists, i), 0) < 32 && start <= single(
                lists,
                i,
            ) < end,
        forall|i: nat, j: nat| i < j < n ==> #[trigger] single(lists, i) != #[trigger] single(
            lists,
            j,
        ),
    decreases n,
{
    let all = vstd::set_lib::set_int_range(0, end);
    let now = after_singles(lists, n);
    let left = free_set(now, end);
    vstd::set_lib::lemma_int_range(0, end);
    vstd::set_lib::lemma_len_subset(left, all);
    if n == 0 {
        vstd::set_lib::lemma_int_range(start, end);
        assert(left =~= vstd::set_lib::set_int_range(start, end));
    } else {
        let k = (n - 1) as nat;
        lemma_singles(lists, start, end, k);
        let before = after_singles(lists, k);
        let more = free_set(before, end);
        let o = single(lists, k) as int;
        let x = more.choose();
        assert(more.contains(x));
        lemma_single_there(before, x);
        law_allocated_are_taken(before, 0);
        lemma_without_ok(before, 0);
        lemma2_to64();
        assert forall|y: int| #[trigger] in_block(o, 0, y) == (y == o) by {}
        assert forall|y: int| #[trigger] is_free(now, y) == (is_free(before, y) && y != o) by {
            assert(in_block(o, 0, y) == (y == o));
        }
        assert(is_free(before, o));
        assert(left =~= more.remove(o));
    }
}

/// Once the frames from `start` up to `end` have been added to an allocator without frames, single
/// frames can be allocated as often as there are frames, each frame comes out once, and then there
/// are none.
pub proof fn law_added_come_out_once(lists: Lists, start: nat, end: nat)
    requires
        lists_ok(lists),
        forall|c: int| 0 <= c < 32 ==> #[trigger] lists[c] == Set::<usize>::empty(),
        start <= end <= usize::MAX,
        pieces_fit(start, end),
    ensures
        ({
            let all = added(lists, start, end);
            let count = (end - start) as nat;
            &&& forall|i: nat|
                i < count ==> first_class(#[trigger] after_singles(all, i), 0) < 32 && start
                    <= single(all, i) < end
            &&& forall|i: nat, j: nat|
                i < j < count ==> #[trigger] single(all, i) != #[trigger] single(all, j)
            &&& forall|x: int| start <= x < end ==> #[trigger] comes_out(all, count, x)
            &&& first_class(after_singles(all, count), 0) == 32
        }),
{
    let all = added(lists, start, end);
    let count = (end - start) as nat;
    assert forall|x: int| !#[trigger] is_free(lists, x) by {
        if is_free(lists, x) {
            let (c, b) = choose|c: int, b: usize|
                0 <= c < lists.len() && #[trigger] lists[c].contains(b) && in_block(
                    b as int,
                    c,
                    x,
                );
            assert(lists[c] == Set::<usize>::empty());
        }
    }
    assert(disjoint(lists)) by {
        assert forall|c: int, b: usize| 0 <= c < lists.len() implies !#[trigger] lists[c].contains(
            b,
        ) by {
            assert(lists[c] == Set::<usize>::empty());
        }
    }
    assert forall|x: int| #[trigger] is_free(all, x) == (start <= x < end) by {
        law_added_are_free(lists, start, end, x);
    }
    law_added_are_free(lists, start, end, 0);
    law_added_stay_disjoint(lists, start, end);
    lemma_singles(all, start as int, end as int, count);
    let last = after_singles(all, count);
    if first_class(last, 0) < 32 {
        let x = split_off(last, 0) as int;
        lemma_single_there(last, x);
        assert(free_set(last, end as int).contains(x));
        assert(free_set(last, end as int).len() == 0);
    }
    lemma_no_more_than_32(last, 0);
    assert forall|x: int| start <= x < end implies #[trigger] comes_out(all, count, x) by {
        lemma_single_came(all, start as int, end as int, count, x);
    }
}

proof fn lemma_no_more_than_32(lists: Lists, c: int)
    requires
        c <= 32,
    ensures
        first_class(lists, c) <= 32,
    decreases 32 - c,
{
    if c < 32 && lists[c] == Set::<usize>::empty() {
        lemma_no_more_than_32(lists, c + 1);
    }
}

/// A frame that was free is still free or has been allocated.
proof fn lemma_single_came(lists: Lists, start: int, end: int, n: nat, x: int)
    requires
        lists_ok(lists),
        disjoint(lists),
        0 <= start <= end,
        n <= end - start,
        forall|y: int| #[trigger] is_free(lists, y) == (start <= y < end),
        start <= x < end,
    ensures
        is_free(after_singles(lists, n), x) || comes_out(lists, n, x),
        n == end - start ==> comes_out(lists, n, x),
    decreases n,
{
    lemma_singles(lists, start, end, n);
    if n > 0 {
        let k = (n - 1) as nat;
        lemma_single_came(lists, start, end, k, x);
        lemma_singles(lists, start, end, k);
        let before = after_singles(lists, k);
        assert(first_class(after_singles(lists, k), 0) < 32);
        law_allocated_are_taken(before, 0);
        lemma2_to64();
        if is_free(before, x) && single(lists, k) != x {
            assert(!in_block(split_off(before, 0) as int, 0, x));
            assert(is_free(after_singles(lists, n), x));
        }
    }
    if n == end - start && is_free(after_singles(lists, n), x) {
        assert(free_set(after_singles(lists, n), end).contains(x));
    }
}

/// No two free blocks of the same size form a block of twice their size that starts at a multiple of
/// its size.
pub open spec fn no_pairs(lists: Lists) -> bool {
    forall|c: int, b: usize, e: usize|
        0 <= c < 32 && #[trigger] lists[c].contains(b) && #[trigger] lists[c].contains(e) && b as nat
            % pow2((c + 1) as nat) == 0 ==> e != b + pow2(c as nat)
}

/// Of the free blocks, only the first 64 frames may be in two blocks that could be one.
spec fn pairs_at_zero(lists: Lists) -> bool {
    forall|c: int, b: usize, e: usize|
        0 <= c < 32 && #[trigger] lists[c].contains(b) && #[trigger] lists[c].contains(e) && b as nat
            % pow2((c + 1) as nat) == 0 && e == b + pow2(c as nat) ==> c == 5 && b == 0
}

/// Multiples of `m` are `m` apart.
proof fn lemma_multiples_apart(x: int, y: int, m: int)
    requires
        m > 0,
        x % m == 0,
        y % m == 0,
        x < y,
    ensures
        x + m <= y,
{
    vstd::arithmetic::div_mod::lemma_fundamental_div_mod(x, m);
    vstd::arithmetic::div_mod::lemma_fundamental_div_mod(y, m);
    let p = x / m;
    let q = y / m;
    assert(p < q) by (nonlinear_arith)
        requires
            x == m * p,
            y == m * q,
            x < y,
            m > 0,
    ;
    assert(m * p + m <= m * q) by (nonlinear_arith)
        requires
            p < q,
            m > 0,
    ;
}

/// The buddy of a block at a multiple of its size is behind it where it starts at a multiple of
/// twice its size, and else before it.
proof fn lemma_buddy_side(p: nat, c: nat)
    requires
        p % pow2(c) == 0,
    ensures
        p % pow2(c + 1) == 0 ==> buddy(p as int, c as int) == p + pow2(c),
        p % pow2(c + 1) != 0 ==> buddy(p as int, c as int) == p - pow2(c),
        p % pow2(c + 1) != 0 ==> p >= pow2(c) && (p - pow2(c)) as nat % pow2(c + 1) == 0,
{
    let s = pow2(c) as int;
    lemma_pow2_pos(c);
    lemma_pow2_unfold(c + 1);
    let q = p as int / s;
    vstd::arithmetic::div_mod::lemma_fundamental_div_mod(p as int, s);
    vstd::arithmetic::div_mod::lemma_div_pos_is_pos(p as int, s);
    let h = q / 2;
    if q % 2 == 0 {
        assert(p == h * (2 * s)) by (nonlinear_arith)
            requires
                p == s * q,
                q == 2 * h,
        ;
        vstd::arithmetic::div_mod::lemma_mod_multiples_basic(h, 2 * s);
    } else {
        assert(p == h * (2 * s) + s) by (nonlinear_arith)
            requires
                p == s * q,
                q == 2 * h + 1,
        ;
        assert(h * (2 * s) >= 0) by (nonlinear_arith)
            requires
                h >= 0,
                s > 0,
        ;
        vstd::arithmetic::div_mod::lemma_fundamental_div_mod_converse(p as int, 2 * s, h, s);
        vstd::arithmetic::div_mod::lemma_mod_multiples_basic(h, 2 * s);
    }
}

/// The joint block contains the block that was put back.
proof fn lemma_joint_contains(p: int, c: int, k: nat)
    requires
        0 <= c,
    ensures
        joint(p, c, k) <= p,
        p + pow2(c as nat) <= joint(p, c, k) + pow2((c + k) as nat),
    decreases k,
{
    if k > 0 {
        lemma_joint_contains(p, c, (k - 1) as nat);
        lemma_pow2_unfold((c + k) as nat);
        lemma_pow2_pos((c + k - 1) as nat);
    }
}

/// The block that frames which were given back have become part of has no free buddy: with a block
/// of its size beside it that is free, too, it does not form a block of twice the size.
pub proof fn law_put_back_has_no_free_buddy(lists: Lists, p: usize, c: int)
    requires
        lists_ok(lists),
        0 <= c,
        c + levels(lists, p as int, c) < 32,
        p + pow2(c as nat) <= usize::MAX + 1,
        p as nat % pow2(c as nat) == 0,
    ensures
        ({
            let after = put_back(lists, p as int, c);
            exists|d: int, b: usize|
                c <= d < 32 && #[trigger] after[d].contains(b) && b <= p && p + pow2(c as nat) <= b
                    + pow2(d as nat) && b as nat % pow2(d as nat) == 0 && forall|e: usize|
                    #[trigger] after[d].contains(e) ==> {
                        &&& b as nat % pow2((d + 1) as nat) == 0 ==> e != b + pow2(d as nat)
                        &&& b as nat % pow2((d + 1) as nat) != 0 ==> e != b - pow2(d as nat)
                    }
        }),
{
    let n = levels(lists, p as int, c);
    let d = c + n;
    let after = put_back(lists, p as int, c);
    lemma_levels(lists, p as int, c, n);
    lemma_unpaired_are_free(lists, p, c, n, 0);
    lemma_joint_contains(p as int, c, n);
    lemma_joint_aligned(p as nat, c, n);
    let j = joint(p as int, c, n);
    let b = j as usize;
    lemma_buddy_side(j as nat, d as nat);
    lemma_pow2_pos(d as nat);
    assert(!lists[d].contains(buddy(j, d) as usize));
    assert(after[d].contains(b));
    assert forall|e: usize| #[trigger] after[d].contains(e) implies {
        &&& b as nat % pow2((d + 1) as nat) == 0 ==> e != b + pow2(d as nat)
        &&& b as nat % pow2((d + 1) as nat) != 0 ==> e != b - pow2(d as nat)
    } by {
        assert(e == b || lists[d].contains(e));
    }
}

/// Where no two free blocks could be one, so it is after frames have been given back.
pub proof fn law_put_back_leaves_no_pairs(lists: Lists, p: usize, c: int)
    requires
        lists_ok(lists),
        aligned(lists),
        no_pairs(lists),
        0 <= c,
        c + levels(lists, p as int, c) < 32,
        p + pow2(c as nat) <= usize::MAX + 1,
        p as nat % pow2(c as nat) == 0,
    ensures
        no_pairs(put_back(lists, p as int, c)),
{
    let n = levels(lists, p as int, c);
    let d = c + n;
    let after = put_back(lists, p as int, c);
    lemma_levels(lists, p as int, c, n);
    lemma_unpaired_are_free(lists, p, c, n, 0);
    lemma_joint_aligned(p as nat, c, n);
    let j = joint(p as int, c, n);
    lemma_buddy_side(j as nat, d as nat);
    assert(!lists[d].contains(buddy(j, d) as usize));
    assert forall|k: int, b: usize, e: usize|
        0 <= k < 32 && #[trigger] after[k].contains(b) && #[trigger] after[k].contains(e)
            && b as nat % pow2((k + 1) as nat) == 0 implies e != b + pow2(k as nat) by {
        lemma_pow2_pos(k as nat);
        let new_b = k == d && b == j as usize;
        let new_e = k == d && e == j as usize;
        if !new_b {
            assert(lists[k].contains(b));
        }
        if !new_e {
            assert(lists[k].contains(e));
        }
        if new_e && e == b + pow2(k as nat) {
            lemma_pow2_unfold((d + 1) as nat);
            vstd::arithmetic::div_mod::lemma_mod_adds(
                b as int,
                pow2(d as nat) as int,
                pow2((d + 1) as nat) as int,
            );
            vstd::arithmetic::div_mod::lemma_small_mod(pow2(d as nat), pow2((d + 1) as nat));
            assert(e as nat % pow2((d + 1) as nat) != 0);
        }
    }
}

/// Where no two free blocks could be one, so it is after frames have been allocated.
pub proof fn law_allocated_leaves_no_pairs(lists: Lists, c: int)
    requires
        lists_ok(lists),
        no_pairs(lists),
        0 <= c,
        first_class(lists, c) < 32,
    ensures
        no_pairs(without(lists, c)),
{
    lemma_first_class(lists, c);
    let i = first_class(lists, c);
    let b = split_off(lists, c);
    let w = without(lists, c);
    assert forall|k: int, x: usize, y: usize|
        0 <= k < 32 && #[trigger] w[k].contains(x) && #[trigger] w[k].contains(y) && x as nat
            % pow2((k + 1) as nat) == 0 implies y != x + pow2(k as nat) by {
        lemma_pow2_pos(k as nat);
        if c <= k < i {
            assert(w[k] =~= set![(b + pow2(k as nat)) as usize]);
        } else {
            assert(lists[k].contains(x) && lists[k].contains(y));
        }
    }
}

/// Giving back at once what has been allocated gives the same free blocks as before, where no two of
/// them could be one.
pub proof fn law_put_back_restores_lists(lists: Lists, c: int)
    requires
        lists_ok(lists),
        aligned(lists),
        no_pairs(lists),
        0 <= c,
        first_class(lists, c) < 32,
    ensures
        c + levels(without(lists, c), split_off(lists, c) as int, c) < 32,
        put_back(without(lists, c), split_off(lists, c) as int, c) == lists,
{
    lemma_first_class(lists, c);
    let i = first_class(lists, c);
    let b = split_off(lists, c);
    let w = without(lists, c);
    let n = (i - c) as nat;
    assert(lists[i].contains(b));
    lemma_halves_fit(b, i as nat);
    lemma_split_levels(lists, c, c);
    lemma_split_joint(lists, c, n);
    let r = put_back(w, b as int, c);
    assert(levels(w, b as int, c) == n);
    assert(joint(b as int, c, n) == b);
    assert forall|k: int| 0 <= k < 32 implies #[trigger] r[k] == lists[k] by {
        if c <= k < i {
            lemma_split_joint(lists, c, (k - c) as nat);
            lemma_multiple_of_less(b as nat, (k + 1) as nat, i as nat);
            lemma_multiple_of_less(b as nat, k as nat, i as nat);
            lemma_buddy_side(b as nat, k as nat);
            assert(w[k] =~= set![(b + pow2(k as nat)) as usize]);
            assert(r[k] =~= Set::<usize>::empty());
        } else if k == i {
            assert(r[k] =~= lists[k]);
        }
    }
    assert(r =~= lists);
}

/// The halves that splitting left over are the buddies of the block that was taken.
proof fn lemma_split_levels(lists: Lists, c: int, k: int)
    requires
        lists_ok(lists),
        aligned(lists),
        no_pairs(lists),
        0 <= c <= k,
        first_class(lists, c) < 32,
        k <= first_class(lists, c),
    ensures
        levels(without(lists, c), split_off(lists, c) as int, k) == first_class(lists, c) - k,
    decreases first_class(lists, c) - k,
{
    lemma_first_class(lists, c);
    let i = first_class(lists, c);
    let b = split_off(lists, c);
    let w = without(lists, c);
    assert(lists[i].contains(b));
    lemma_halves_fit(b, i as nat);
    lemma_multiple_of_less(b as nat, k as nat, i as nat);
    lemma_buddy_side(b as nat, k as nat);
    lemma_pow2_pos(k as nat);
    if k < i {
        lemma_multiple_of_less(b as nat, (k + 1) as nat, i as nat);
        assert(w[k] =~= set![(b + pow2(k as nat)) as usize]);
        lemma_pow2_unfold((k + 1) as nat);
        bits::lemma_pow2_mono((k + 1) as nat, i as nat);
        assert(w[k].contains(buddy(b as int, k) as usize));
        lemma_split_levels(lists, c, k + 1);
    } else {
        let e = buddy(b as int, i);
        if w[i].contains(e as usize) {
            assert(lists[i].contains(e as usize));
        }
    }
}

proof fn lemma_split_joint(lists: Lists, c: int, k: nat)
    requires
        lists_ok(lists),
        aligned(lists),
        0 <= c,
        first_class(lists, c) < 32,
        k <= first_class(lists, c) - c,
    ensures
        joint(split_off(lists, c) as int, c, k) == split_off(lists, c),
    decreases k,
{
    lemma_first_class(lists, c);
    let i = first_class(lists, c);
    let b = split_off(lists, c);
    assert(lists[i].contains(b));
    if k > 0 {
        let h = (k - 1) as nat;
        lemma_split_joint(lists, c, h);
        lemma_multiple_of_less(b as nat, (c + h + 1) as nat, i as nat);
        lemma_multiple_of_less(b as nat, (c + h) as nat, i as nat);
        lemma_buddy_side(b as nat, (c + h) as nat);
        lemma_pow2_pos((c + h) as nat);
    }
}

/// The blocks that a range is cut into lie in the range, start at multiples of their sizes, and are
/// as large as they can be; only the one at frame 0 has no more than 32 frames.
pub proof fn law_added_blocks_are_largest(lists: Lists, start: nat, end: nat, c: int, b: usize)
    requires
        lists.len() == 32,
        start <= end <= usize::MAX,
        pieces_fit(start, end),
        0 <= c < 32,
        added(lists, start, end)[c].contains(b),
        !lists[c].contains(b),
    ensures
        start <= b,
        b + pow2(c as nat) <= end,
        b as nat % pow2(c as nat) == 0,
        b > 0 ==> b as nat % pow2((c + 1) as nat) != 0 || b + pow2((c + 1) as nat) > end,
        b == 0 ==> c <= 5 && (c == 5 || pow2((c + 1) as nat) > end),
    decreases end - start,
{
    if start < end {
        let k = piece_class(start, end);
        lemma_piece(start, end);
        let next = lists.update(k as int, lists[k as int].insert(start as usize));
        if next[c].contains(b) {
            assert(c == k && b == start);
            bits::lemma_floor_log2_bounds((end - start) as nat);
            lemma_pow2_unfold(k + 1);
            if start > 0 {
                bits::lemma_twos_divides(start);
                lemma_multiple_of_less(start, k, bits::twos(start));
            } else {
                lemma_pow2_pos(k);
                vstd::arithmetic::div_mod::lemma_small_mod(0, pow2(k));
            }
        } else {
            law_added_blocks_are_largest(next, start + pow2(k), end, c, b);
        }
    }
}

/// A range that does not start at frame 0 is cut into blocks of which no two could be one.
pub proof fn law_added_leaves_no_pairs(lists: Lists, start: nat, end: nat)
    requires
        lists_ok(lists),
        forall|c: int| 0 <= c < 32 ==> #[trigger] lists[c] == Set::<usize>::empty(),
        0 < start <= end <= usize::MAX,
        pieces_fit(start, end),
    ensures
        no_pairs(added(lists, start, end)),
{
    let all = added(lists, start, end);
    assert forall|c: int, b: usize, e: usize|
        0 <= c < 32 && #[trigger] all[c].contains(b) && #[trigger] all[c].contains(e) && b as nat
            % pow2((c + 1) as nat) == 0 implies e != b + pow2(c as nat) by {
        assert(lists[c] == Set::<usize>::empty());
        law_added_blocks_are_largest(lists, start, end, c, b);
        law_added_blocks_are_largest(lists, start, end, c, e);
        lemma_pow2_unfold((c + 1) as nat);
    }
}

/// A range that starts at frame 0 is cut into blocks of which none but the first two could be one.
proof fn lemma_added_pairs_at_zero(lists: Lists, start: nat, end: nat)
    requires
        lists_ok(lists),
        forall|c: int| 0 <= c < 32 ==> #[trigger] lists[c] == Set::<usize>::empty(),
        start <= end <= usize::MAX,
        pieces_fit(start, end),
    ensures
        pairs_at_zero(added(lists, start, end)),
{
    let all = added(lists, start, end);
    assert forall|c: int, b: usize, e: usize|
        0 <= c < 32 && #[trigger] all[c].contains(b) && #[trigger] all[c].contains(e) && b as nat
            % pow2((c + 1) as nat) == 0 && e == b + pow2(c as nat) implies c == 5 && b == 0 by {
        assert(lists[c] == Set::<usize>::empty());
        law_added_blocks_are_largest(lists, start, end, c, b);
        law_added_blocks_are_largest(lists, start, end, c, e);
        lemma_pow2_unfold((c + 1) as nat);
    }
}

/// A run of free frames that starts at a multiple of its length is in one block, where no two free
/// blocks could be one, or none but the first two and the run is not in both of them.
proof fn lemma_run_in_block(lists: Lists, b: int, c: nat) -> (r: (int, usize))
    requires
        lists.len() == 32,
        aligned(lists),
        no_pairs(lists) || (pairs_at_zero(lists) && (b > 0 || c <= 5)),
        c <= 32,
        0 <= b,
        b as nat % pow2(c) == 0,
        forall|x: int| b <= x < b + pow2(c) ==> #[trigger] is_free(lists, x),
    ensures
        c <= r.0 < 32,
        lists[r.0].contains(r.1),
        r.1 <= b,
        b + pow2(c) <= r.1 + pow2(r.0 as nat),
    decreases c,
{
    lemma_pow2_pos(c);
    if c == 0 {
        lemma2_to64();
        assert(is_free(lists, b));
        let (d, e) = choose|d: int, e: usize|
            0 <= d < lists.len() && #[trigger] lists[d].contains(e) && in_block(e as int, d, b);
        (d, e)
    } else {
        let k = (c - 1) as nat;
        let half = pow2(k) as int;
        lemma_pow2_unfold(c);
        lemma_pow2_pos(k);
        lemma_multiple_of_less(b as nat, k, c);
        lemma_next_multiple(b as nat, k);
        let (d, e) = lemma_run_in_block(lists, b, k);
        let (f, g) = lemma_run_in_block(lists, b + half, k);
        if d >= c {
            lemma_multiple_of_less(e as nat, c, d as nat);
            lemma_multiple_of_less(pow2(d as nat), c, d as nat);
            lemma_end_multiple(e as nat, c, d as nat);
            lemma_multiples_apart(b, e + pow2(d as nat), pow2(c) as int);
            (d, e)
        } else if f >= c {
            lemma_multiple_of_less(g as nat, c, f as nat);
            if g > b {
                lemma_multiples_apart(b, g as int, pow2(c) as int);
            }
            (f, g)
        } else {
            assert(e == b);
            assert(g == b + half);
            assert(lists[k as int].contains(e) && lists[k as int].contains(g));
            (d, e)
        }
    }
}

/// The end of a block at a multiple of its size is a multiple of the lesser powers.
proof fn lemma_end_multiple(e: nat, c: nat, d: nat)
    requires
        c <= d,
        e % pow2(d) == 0,
    ensures
        (e + pow2(d)) % pow2(c) == 0,
{
    lemma_next_multiple(e, d);
    lemma_multiple_of_less(e + pow2(d), c, d);
}

/// Frames can be allocated just where there is a free block that is large enough, and they come from
/// the front of the least of the smallest blocks that are.
pub proof fn law_allocated_from_the_first_block(lists: Lists, c: int)
    requires
        lists.len() == 32,
        0 <= c,
    ensures
        first_class(lists, c) < 32 <==> exists|k: int, b: usize|
            c <= k < 32 && #[trigger] lists[k].contains(b),
        first_class(lists, c) < 32 ==> exists|k: int|
            c <= k < 32 && #[trigger] lists[k].contains(split_off(lists, c)) && (forall|b: usize|
                #[trigger] lists[k].contains(b) ==> split_off(lists, c) <= b) && (forall|
                j: int,
                b: usize,
            |
                c <= j < k ==> !#[trigger] lists[j].contains(b)),
{
    if first_class(lists, c) < 32 {
        lemma_first_class(lists, c);
        let k = first_class(lists, c);
        assert(lists[k].contains(split_off(lists, c)));
        assert forall|j: int, b: usize| c <= j < k implies !#[trigger] lists[j].contains(b) by {
            assert(lists[j] == Set::<usize>::empty());
        }
    }
    if exists|k: int, b: usize| c <= k < 32 && #[trigger] lists[k].contains(b) {
        let (k, b) = choose|k: int, b: usize| c <= k < 32 && #[trigger] lists[k].contains(b);
        lemma_class_found(lists, c, k);
    }
}

/// Where no two free blocks could be one, frames can be allocated wherever that many are free side
/// by side, from a multiple of their number on.
pub proof fn law_free_runs_can_be_allocated(lists: Lists, b: int, c: nat)
    requires
        lists.len() == 32,
        aligned(lists),
        no_pairs(lists),
        c < 32,
        0 <= b,
        b as nat % pow2(c) == 0,
        forall|x: int| b <= x < b + pow2(c) ==> #[trigger] is_free(lists, x),
    ensures
        first_class(lists, c as int) < 32,
{
    let (d, e) = lemma_run_in_block(lists, b, c);
    lemma_class_found(lists, c as int, d);
}

/// After a range has been added to an allocator without frames, each run in it that starts at a
/// multiple of its length can be allocated; only one at frame 0 that has more than 32 frames may be
/// in two blocks.
pub proof fn law_added_runs_can_be_allocated(lists: Lists, start: nat, end: nat, b: int, c: nat)
    requires
        lists_ok(lists),
        forall|k: int| 0 <= k < 32 ==> #[trigger] lists[k] == Set::<usize>::empty(),
        start <= end <= usize::MAX,
        pieces_fit(start, end),
        c < 32,
        b > 0 || c <= 5,
        start <= b,
        b + pow2(c) <= end,
        b as nat % pow2(c) == 0,
    ensures
        first_class(added(lists, start, end), c as int) < 32,
{
    let all = added(lists, start, end);
    assert(aligned(lists)) by {
        assert forall|k: int, x: usize| 0 <= k < lists.len() implies !#[trigger] lists[k].contains(
            x,
        ) by {
            assert(lists[k] == Set::<usize>::empty());
        }
    }
    law_added_stay_aligned(lists, start, end);
    lemma_added_pairs_at_zero(lists, start, end);
    law_added_are_free(lists, start, end, 0);
    assert forall|x: int| b <= x < b + pow2(c) implies #[trigger] is_free(all, x) by {
        law_added_are_free(lists, start, end, x);
    }
    let (d, e) = lemma_run_in_block(all, b, c);
    lemma_class_found(all, c as int, d);
}

/// A block of one allocator is one of another that has the same free frames.
proof fn lemma_same_block(lists: Lists, other: Lists, c: int, b: usize)
    requires
        lists.len() == 32,
        other.len() == 32,
        aligned(lists),
        aligned(other),
        disjoint(lists),
        no_pairs(lists),
        no_pairs(other),
        forall|x: int| #[trigger] is_free(lists, x) == is_free(other, x),
        0 <= c < 32,
        lists[c].contains(b),
    ensures
        other[c].contains(b),
{
    assert forall|x: int| b <= x < b + pow2(c as nat) implies #[trigger] is_free(other, x) by {
        assert(in_block(b as int, c, x));
        assert(is_free(lists, x));
    }
    let (d, e) = lemma_run_in_block(other, b as int, c as nat);
    assert forall|x: int| e <= x < e + pow2(d as nat) implies #[trigger] is_free(lists, x) by {
        assert(in_block(e as int, d, x));
        assert(is_free(other, x));
    }
    let (f, g) = lemma_run_in_block(lists, e as int, d as nat);
    lemma_pow2_pos(c as nat);
    assert(c == f && b == g);
}

/// Where no two free blocks could be one, the blocks are determined by which frames are free. So
/// whatever has been allocated and given back in whatever order, the blocks are the same when the
/// same frames are free.
pub proof fn law_free_frames_determine_blocks(lists: Lists, other: Lists)
    requires
        lists.len() == 32,
        other.len() == 32,
        aligned(lists),
        aligned(other),
        disjoint(lists),
        disjoint(other),
        no_pairs(lists),
        no_pairs(other),
        forall|x: int| #[trigger] is_free(lists, x) == is_free(other, x),
    ensures
        lists == other,
{
    assert forall|c: int| 0 <= c < 32 implies #[trigger] lists[c] == other[c] by {
        assert forall|b: usize| #[trigger] lists[c].contains(b) == other[c].contains(b) by {
            if lists[c].contains(b) {
                lemma_same_block(lists, other, c, b);
            }
            if other[c].contains(b) {
                lemma_same_block(other, lists, c, b);
            }
        }
        assert(lists[c] =~= other[c]);
    }
    assert(lists =~= other);
}

} // verus!
