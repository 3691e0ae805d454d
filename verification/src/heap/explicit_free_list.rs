//! A heap allocator with an explicit list of free blocks.

use crate::heap::block::{self, Block, BlockMetaInfo, NULL};
use crate::heap::free_list;
use crate::heap::usage;
use crate::memory::{self, Memory};
use core::ops::Range;
use vstd::arithmetic::power2::*;
use vstd::prelude::*;

verus! {

/// The least multiple of `n` from `x` on.
pub open spec fn round_up(x: int, n: int) -> int {
    x + (-x) % n
}

proof fn lemma_round_up(x: int, n: int)
    requires
        n > 0,
    ensures
        round_up(x, n) % n == 0,
        x <= round_up(x, n) < x + n,
{
    let d = (-x) % n;
    let q = (-x) / n;
    vstd::arithmetic::div_mod::lemma_fundamental_div_mod(-x, n);
    assert(x + d == (-q) * n) by (nonlinear_arith)
        requires
            -x == n * q + d,
    ;
    vstd::arithmetic::div_mod::lemma_mod_multiples_basic(-q, n);
}

/// How far it is to the least multiple.
proof fn lemma_gap(x: int, n: int)
    requires
        x >= 0,
        n > 0,
    ensures
        (-x) % n == (if x % n == 0 {
            0
        } else {
            n - x % n
        }),
{
    let q = x / n;
    let m = x % n;
    vstd::arithmetic::div_mod::lemma_fundamental_div_mod(x, n);
    if m == 0 {
        assert(-x == (-q) * n + 0) by (nonlinear_arith)
            requires
                x == n * q,
        ;
        vstd::arithmetic::div_mod::lemma_fundamental_div_mod_converse(-x, n, -q, 0);
    } else {
        assert(-x == (-q - 1) * n + (n - m)) by (nonlinear_arith)
            requires
                x == n * q + m,
        ;
        vstd::arithmetic::div_mod::lemma_fundamental_div_mod_converse(-x, n, -q - 1, n - m);
    }
}

/// The size and the alignment of what is asked for.
#[derive(Debug, Clone, Copy, PartialEq, Eq)]
pub struct Layout {
    pub size: usize,
    pub align: usize,
}

impl Layout {
    /// The alignment is a power of two, and the size does not exceed what an object may have.
    pub open spec fn valid(self) -> bool {
        &&& self.size <= isize::MAX
        &&& self.align <= isize::MAX + 1
        &&& exists|k: nat| self.align == #[trigger] pow2(k)
    }

    /// The size of the payload that is looked for: even, at least the alignment, and enough for
    /// the links of a free block.
    pub open spec fn payload(self) -> nat {
        let even: int = if self.size % 2 == 0 {
            self.size as int
        } else {
            self.size + 1
        };
        let least: int = if self.align < 16 {
            16
        } else {
            self.align as int
        };
        (if even < least {
            least
        } else {
            even
        }) as nat
    }

    /// Where the payload starts that is taken from the free block at `a`: at the first multiple of
    /// the alignment that leaves either nothing or a free block before it.
    pub open spec fn place(self, a: int) -> int {
        if (a + 8) % (self.align as int) == 0 {
            a + 8
        } else {
            round_up(a + 40, self.align as int)
        }
    }

    /// The payload can be taken from the free block at `a`: it ends in the block, and what is
    /// before it has an even size, as all blocks have.
    pub open spec fn fits_in(self, a: int, payload: nat) -> bool {
        &&& self.place(a) + self.payload() <= a + 8 + payload
        &&& (self.place(a) - a) % 2 == 0
    }

    /// The `n` bytes from `p` on would do as a payload for the layout, taken from the free block at
    /// `a`: there are enough of them, also for the links of a free block, `p` is a multiple of the
    /// alignment, and before their header there is nothing of the block or enough for a free block.
    /// Blocks have even sizes.
    pub open spec fn would_do(self, a: int, payload: nat, p: int, n: int) -> bool {
        &&& p % (self.align as int) == 0
        &&& p == a + 8 || p >= a + 8 + 32
        &&& (p - a) % 2 == 0
        &&& n % 2 == 0
        &&& n >= self.size
        &&& n >= self.align
        &&& n >= 16
        &&& p + n <= a + 8 + payload
    }

    /// The payload starts at a multiple of the alignment, and before its block there is nothing or
    /// enough for a free block.
    proof fn lemma_place(self, a: int)
        requires
            self.valid(),
        ensures
            self.align > 0,
            self.place(a) % (self.align as int) == 0,
            self.place(a) == a + 8 || self.place(a) >= a + 40,
    {
        let k = choose|k: nat| self.align == #[trigger] pow2(k);
        lemma_pow2_pos(k);
        lemma_round_up(a + 40, self.align as int);
    }

    /// Where the payload starts that is taken from the free block at `a`, if it can be.
    fn find_place(&self, a: usize, payload: usize, size: usize) -> (r: Option<usize>)
        requires
            self.valid(),
            size == self.payload(),
            a + 16 + payload <= usize::MAX,
        ensures
            r is Some == self.fits_in(a as int, payload as nat),
            r matches Some(p) ==> p == self.place(a as int),
    {
        proof {
            self.lemma_payload();
            self.lemma_place(a as int);
            lemma_gap(a + 40, self.align as int);
        }
        if (a + 8) % self.align == 0 {
            if size <= payload {
                return Some(a + 8);
            }
            return None;
        }
        if payload < 32 {
            return None;
        }
        let least: usize = a + 40;
        let over: usize = least % self.align;
        let gap: usize = if over == 0 {
            0
        } else {
            self.align - over
        };
        if gap > payload - 32 || size > payload - 32 - gap || gap % 2 != 0 {
            return None;
        }
        Some(least + gap)
    }

    proof fn lemma_payload(self)
        requires
            self.valid(),
        ensures
            16 <= self.payload() <= isize::MAX + 1,
            self.payload() % 2 == 0,
            self.payload() >= self.size,
    {
        let k = choose|k: nat| self.align == #[trigger] pow2(k);
        if k > 0 {
            lemma_pow2_unfold(k);
        } else {
            lemma2_to64();
        }
    }

    fn payload_size(&self) -> (r: usize)
        requires
            self.valid(),
        ensures
            r == self.payload(),
    {
        let even: usize = if self.size % 2 == 0 {
            self.size
        } else {
            self.size + 1
        };
        let least: usize = if self.align < 16 {
            16
        } else {
            self.align
        };
        if even < least {
            least
        } else {
            even
        }
    }
}

/// What a heap holds.
pub struct HeapModel {
    /// The address of the first byte.
    pub start: int,
    /// The address behind the last byte.
    pub end: int,
    /// The blocks, by their addresses.
    pub blocks: free_list::Blocks,
    /// The addresses of the free blocks that are looked through, in that order.
    pub list: Seq<int>,
    /// The number of bytes that users hold.
    pub user: int,
    /// The number of bytes that users hold and that their tags take.
    pub real: int,
    /// The size that each user asked for, by the address of the block.
    pub sizes: Map<int, nat>,
    /// What `user` counts for the memory that the heap had before this one.
    pub past_user: int,
    /// What `real` counts for the memory that the heap had before this one.
    pub past_real: int,
}

impl HeapModel {
    /// The heap has been given memory.
    pub open spec fn is_init(self) -> bool {
        self.start < self.end
    }

    /// The blocks tile the heap and the free ones are properly linked.
    pub open spec fn formed(self) -> bool {
        if self.is_init() {
            free_list::heap_ok(self.blocks, self.list, self.start, self.end)
        } else {
            &&& self.start == 0
            &&& self.end == 0
            &&& self.blocks == Map::<int, block::BlockRec>::empty()
            &&& self.list == Seq::<int>::empty()
        }
    }

    /// The statistics count what users hold: the bytes that they asked for, and with them the tags
    /// of their blocks.
    pub open spec fn counted(self) -> bool {
        &&& self.sizes.dom().finite()
        &&& forall|a: int|
            #![trigger self.sizes.contains_key(a)]
            #![trigger self.holds_user(a)]
            self.sizes.contains_key(a) == self.holds_user(a)
        &&& forall|a: int| #[trigger]
            self.sizes.contains_key(a) ==> self.sizes[a] <= self.blocks[a].payload
        &&& self.user == self.past_user + usage::total(self.sizes, 0)
        &&& self.real == self.past_real + usage::total(self.sizes, 16)
        &&& 0 <= self.past_user
        &&& 0 <= self.past_real
        &&& self.past_user + (self.end - self.start) <= usize::MAX
        &&& self.past_real + (self.end - self.start) <= usize::MAX
    }

    /// What holds of each state: the blocks tile the heap, the free ones are properly linked, and
    /// the statistics count what users hold.
    pub open spec fn ok(self) -> bool {
        self.formed() && self.counted()
    }

    /// `layout` has the size that the user of the block at `a` asked for.
    pub open spec fn asked(self, a: int, layout: Layout) -> bool {
        self.holds_user(a) && self.sizes[a] == layout.size
    }

    /// The index in the list, from `i` on, of the first block from which the bytes for the layout
    /// can be taken; the length of the list if there is none.
    pub open spec fn first_fit(self, layout: Layout, i: int) -> int
        decreases self.list.len() - i,
    {
        if i >= self.list.len() {
            self.list.len() as int
        } else if layout.fits_in(self.list[i], self.blocks[self.list[i]].payload) {
            i
        } else {
            self.first_fit(layout, i + 1)
        }
    }

    /// There is a block for the layout.
    pub open spec fn fits(self, layout: Layout) -> bool {
        self.first_fit(layout, 0) < self.list.len()
    }

    /// The free block from which the bytes for the layout are taken.
    pub open spec fn fitting(self, layout: Layout) -> int {
        self.list[self.first_fit(layout, 0)]
    }

    /// The block that the user of the layout gets.
    pub open spec fn taken(self, layout: Layout) -> int {
        layout.place(self.fitting(layout)) - 8
    }

    /// The bytes for the layout start inside of the free block.
    pub open spec fn is_cut(self, layout: Layout) -> bool {
        self.taken(layout) != self.fitting(layout)
    }

    /// The heap after the block that gives the bytes for the layout has been cut where the bytes
    /// start.
    pub open spec fn prepared(self, layout: Layout) -> HeapModel {
        if self.is_cut(layout) {
            HeapModel {
                blocks: block::blocks_cut(self.blocks, self.fitting(layout), self.taken(layout)),
                list: self.list.insert(self.first_fit(layout, 0) + 1, self.taken(layout)),
                ..self
            }
        } else {
            self
        }
    }

    /// The place in the list of the block that the user of the layout gets.
    pub open spec fn spot(self, layout: Layout) -> int {
        if self.is_cut(layout) {
            self.first_fit(layout, 0) + 1
        } else {
            self.first_fit(layout, 0)
        }
    }

    /// The heap after `payload` bytes have been taken from the block at the place `i` of the list.
    pub open spec fn reduced(self, i: int, payload: nat, layout: Layout) -> HeapModel {
        let a = self.list[i];
        let rest = block::split_block(a, self.blocks[a].payload, payload);
        HeapModel {
            blocks: block::blocks_allocated(self.blocks, a, payload),
            list: free_list::list_allocated(self.list, i, rest),
            user: self.user + layout.size,
            real: self.real + layout.size + 16,
            sizes: self.sizes.insert(a, layout.size as nat),
            ..self
        }
    }

    /// The heap after the bytes for the layout have been taken from the first block that has them.
    pub open spec fn allocated(self, layout: Layout) -> HeapModel {
        self.prepared(layout).reduced(self.spot(layout), layout.payload(), layout)
    }

    /// The used block at `a` becomes a free block that is in no list.
    pub open spec fn freed(self, a: int, layout: Layout) -> HeapModel {
        HeapModel {
            blocks: block::blocks_freed(self.blocks, a),
            user: self.user - layout.size,
            real: self.real - layout.size - 16,
            sizes: self.sizes.remove(a),
            ..self
        }
    }

    /// The block before the one at `a` is free.
    pub open spec fn left_is_free(self, a: int) -> bool {
        a != self.start && !self.blocks[free_list::left_of(self.blocks, a)].used
    }

    /// The free block at `a` is joined to the one before it, if that is free.
    pub open spec fn joined_left(self, a: int) -> HeapModel {
        if self.left_is_free(a) {
            let p = free_list::left_of(self.blocks, a);
            HeapModel {
                blocks: block::blocks_joined(self.blocks, p, a, false),
                ..self
            }
        } else {
            self
        }
    }

    /// Where the block at `a` starts once it has been joined to the one before it.
    pub open spec fn joint(self, a: int) -> int {
        if self.left_is_free(a) {
            free_list::left_of(self.blocks, a)
        } else {
            a
        }
    }

    /// The block behind the one at `a` is free.
    pub open spec fn right_is_free(self, a: int) -> bool {
        let n = free_list::end_of(self.blocks, a);
        n < self.end && !self.blocks[n].used
    }

    /// The block behind the free block at `a` is joined to it, if that is free. A block in no list
    /// takes the place of the other; from a block in a list the other leaves.
    pub open spec fn joined_right(self, a: int) -> HeapModel {
        let n = free_list::end_of(self.blocks, a);
        if !self.right_is_free(a) {
            self
        } else if free_list::is_linked(self.blocks, self.list, a) {
            let unlinked = block::blocks_unlinked(self.blocks, n);
            HeapModel {
                blocks: block::blocks_joined(unlinked, a, n, false),
                list: free_list::list_removed(self.list, n),
                ..self
            }
        } else {
            HeapModel {
                blocks: block::blocks_joined(self.blocks, a, n, true),
                list: free_list::list_replaced(self.list, n, a),
                ..self
            }
        }
    }

    /// The heap after the block at `a` has been given back: it becomes the list where that is empty,
    /// else it is joined to its free neighbours. Where none of them is in the list, neither is the
    /// joint block.
    pub open spec fn deallocated(self, a: int, layout: Layout) -> HeapModel {
        let freed = self.freed(a, layout);
        if self.list.len() == 0 {
            HeapModel { list: seq![a], ..freed }
        } else {
            freed.joined_left(a).joined_right(freed.joint(a))
        }
    }

    /// What [`HeapModel::first_fit`] finds.
    proof fn lemma_first_fit(self, layout: Layout, i: int)
        requires
            0 <= i <= self.list.len(),
        ensures
            ({
                let j = self.first_fit(layout, i);
                &&& i <= j <= self.list.len()
                &&& j < self.list.len() ==> layout.fits_in(
                    self.list[j],
                    self.blocks[self.list[j]].payload,
                )
                &&& forall|k: int|
                    i <= k < j ==> !layout.fits_in(
                        #[trigger] self.list[k],
                        self.blocks[self.list[k]].payload,
                    )
            }),
        decreases self.list.len() - i,
    {
        if i < self.list.len() && !layout.fits_in(
            self.list[i],
            self.blocks[self.list[i]].payload,
        ) {
            self.lemma_first_fit(layout, i + 1);
        }
    }

    /// A free block that is not in the list is in no other list either.
    pub open spec fn one_list(self) -> bool {
        forall|a: int| #[trigger]
            self.blocks.contains_key(a) && !self.blocks[a].used && !self.list.contains(a)
                ==> self.blocks[a].prev == 0 && self.blocks[a].next == 0
    }

    /// The blocks at `b` and `c` are free, and the second starts where the first ends.
    pub open spec fn side_by_side(self, b: int, c: int) -> bool {
        &&& self.blocks.contains_key(b)
        &&& self.blocks.contains_key(c)
        &&& !self.blocks[b].used
        &&& !self.blocks[c].used
        &&& b + self.blocks[b].payload + 16 == c
    }

    /// A user holds the payload of the block at `a`.
    pub open spec fn holds_user(self, a: int) -> bool {
        self.blocks.contains_key(a) && self.blocks[a].used
    }
}

/// From `m1` to `m2`, the payloads of used blocks have kept their bytes, but for the block at `a`.
pub open spec fn payloads_kept(m1: Memory<'_>, m2: Memory<'_>, h: HeapModel, a: int) -> bool {
    forall|c: int, b: int|
        #![trigger h.blocks.contains_key(c), m2.byte_at(b)]
        h.holds_user(c) && c != a && c + 8 <= b < c + 8 + h.blocks[c].payload ==> m2.byte_at(b)
            == m1.byte_at(b)
}

/// One free block, which is the list, tiles its heap.
proof fn lemma_single_ok(start: int, r: block::BlockRec)
    requires
        start > 0,
        r.prev == 0,
        r.next == 0,
        !r.used,
    ensures
        free_list::heap_ok(map![start => r], seq![start], start, start + r.size()),
{
    let blocks = map![start => r];
    let rank = |c: int| 0int;
    assert(free_list::ranked(blocks, rank));
    assert(seq![start][0] == start);
}

/// Heap allocator using explicit free list.
pub struct HeapAlloc<'a> {
    mem: Memory<'a>,
    head_block: usize,
    allocated_user: usize,
    allocated_real: usize,
    blocks: Ghost<free_list::Blocks>,
    list: Ghost<Seq<int>>,
    sizes: Ghost<Map<int, nat>>,
    past: Ghost<(int, int)>,
}

impl<'a> View for HeapAlloc<'a> {
    type V = HeapModel;

    closed spec fn view(&self) -> HeapModel {
        HeapModel {
            start: self.mem.base(),
            end: self.mem.limit(),
            blocks: self.blocks@,
            list: self.list@,
            user: self.allocated_user as int,
            real: self.allocated_real as int,
            sizes: self.sizes@,
            past_user: self.past@.0,
            past_real: self.past@.1,
        }
    }
}

impl<'a> HeapAlloc<'a> {
    /// The memory of the heap.
    pub closed spec fn memory(&self) -> Memory<'a> {
        self.mem
    }

    /// The memory holds the blocks as the model has them.
    closed spec fn formed(&self) -> bool {
        &&& self@.formed()
        &&& self.head_block == free_list::list_head(self.list@)
        &&& self@.is_init() ==> block::holds(self.mem, self.blocks@)
    }

    /// What holds of each state.
    pub closed spec fn wf(&self) -> bool {
        self.formed() && self@.ok()
    }

    /// What the heap holds is in order.
    pub proof fn lemma_ok(&self)
        requires
            self.wf(),
        ensures
            self@.ok(),
            self@.start == self.memory().base(),
            self@.end == self.memory().limit(),
    {
    }

    /// Create an empty heap.
    pub fn new() -> (r: Self)
        ensures
            r.wf(),
            r@ == (HeapModel {
                start: 0,
                end: 0,
                blocks: Map::empty(),
                list: Seq::empty(),
                user: 0,
                real: 0,
                sizes: Map::empty(),
                past_user: 0,
                past_real: 0,
            }),
            r@.one_list(),
    {
        HeapAlloc {
            mem: Memory::empty(),
            head_block: NULL,
            allocated_user: 0,
            allocated_real: 0,
            blocks: Ghost(Map::empty()),
            list: Ghost(Seq::empty()),
            sizes: Ghost(Map::empty()),
            past: Ghost((0, 0)),
        }
    }

    /// Init heap with the memory from address `start` on.
    pub fn init(&mut self, start: usize, space: &'a mut [u8])
        requires
            start > 0,
            start + old(space)@.len() <= usize::MAX,
            old(space)@.len() >= 32,
            old(space)@.len() % 2 == 0,
            old(self)@.user + old(space)@.len() <= usize::MAX,
            old(self)@.real + old(space)@.len() <= usize::MAX,
        ensures
            final(self).wf(),
            final(self)@ == (HeapModel {
                start: start as int,
                end: start + old(space)@.len(),
                blocks: map![start as int => block::BlockRec {
                    payload: (old(space)@.len() - 16) as nat,
                    used: false,
                    prev: 0,
                    next: 0,
                }],
                list: seq![start as int],
                user: old(self)@.user,
                real: old(self)@.real,
                sizes: Map::empty(),
                past_user: old(self)@.user,
                past_real: old(self)@.real,
            }),
            final(self)@.one_list(),
    {
        let payload_size: usize = space.len() - BlockMetaInfo::SIZE * 2;
        self.mem = Memory::new(start, space);
        let ghost m0 = self.mem;
        let block = Block::new_free_block(&mut self.mem, start, payload_size, NULL, NULL);
        self.head_block = block.addr;
        proof {
            let r = block::BlockRec {
                payload: payload_size as nat,
                used: false,
                prev: 0,
                next: 0,
            };
            self.blocks@ = map![start as int => r];
            self.list@ = seq![start as int];
            assert(self.list@[0] == start);
            self.sizes@ = Map::empty();
            self.past@ = (self.allocated_user as int, self.allocated_real as int);
            assert forall|a: int| !#[trigger] self@.holds_user(a) by {}
            lemma_single_ok(start as int, r);
            memory::lemma_wrote_shape(
                m0,
                self.mem,
                set![start as int, start + 8 + payload_size, start + 8, start + 16],
            );
        }
    }

    pub fn heap(&self) -> (r: Range<usize>)
        requires
            self.wf(),
        ensures
            r.start == self@.start,
            r.end == self@.end,
    {
        let start: usize = self.mem.start();
        start..start + self.mem.len()
    }

    /// The number of bytes that user requested
    pub fn stats_alloc_user(&self) -> (r: usize)
        ensures
            r == self@.user,
    {
        self.allocated_user
    }

    /// The number of bytes that actually allocated
    pub fn stats_alloc_real(&self) -> (r: usize)
        ensures
            r == self@.real,
    {
        self.allocated_real
    }

    /// The total number of bytes in the heap
    pub fn stats_total_bytes(&self) -> (r: usize)
        ensures
            r == self@.end - self@.start,
    {
        self.mem.len()
    }

    /// Allocate a range of memory from the heap satisfying `layout` requirements.
    ///
    /// Returns its address, a multiple of the alignment, or null where no free block has the bytes.
    /// In a heap that starts at an odd address only layouts with the alignment 1 can be satisfied.
    pub fn allocate(&mut self, layout: Layout) -> (r: usize)
        requires
            old(self).wf(),
            layout.valid(),
        ensures
            final(self).wf(),
            if old(self)@.fits(layout) {
                &&& r == old(self)@.taken(layout) + 8
                &&& r != NULL
                &&& r as int % (layout.align as int) == 0
                &&& old(self)@.start <= r && r + layout.size <= old(self)@.end
                &&& final(self)@ == old(self)@.allocated(layout)
                &&& payloads_kept(old(self).memory(), final(self).memory(), old(self)@, 0)
                &&& final(self)@.asked(r - 8, layout)
                &&& final(self)@.blocks[r - 8].payload >= layout.size
                &&& ({
                    let payload = final(self)@.blocks[r - 8].payload;
                    payload < layout.size + layout.size % 2 + 32 || payload < layout.align + 32
                        || payload < 16 + 32
                })
            } else {
                &&& r == NULL
                &&& *final(self) == *old(self)
            },
            r != NULL <==> exists|i: int, p: int, n: int|
                0 <= i < old(self)@.list.len() && #[trigger] layout.would_do(
                    old(self)@.list[i],
                    old(self)@.blocks[old(self)@.list[i]].payload,
                    p,
                    n,
                ),
            old(self)@.one_list() ==> final(self)@.one_list(),
    {
        let size: usize = layout.payload_size();
        let ghost m0 = self.mem;
        let ghost h0 = self@;
        proof {
            layout.lemma_payload();
        }
        proof {
            law_allocate_takes_first_fit(h0, layout);
            if h0.fits(layout) {
                law_allocate_adds_one_user(h0, layout);
                law_what_is_allocated_can_be_given_back(h0, layout);
                law_allocate_is_tight(h0, layout);
                if h0.one_list() {
                    law_allocate_keeps_one_list(h0, layout);
                }
            }
        }
        match self.find(layout, size) {
            None => NULL,
            Some((block, place)) => {
                let ghost i = h0.first_fit(layout, 0);
                let ghost a = block.addr as int;
                proof {
                    h0.lemma_first_fit(layout, 0);
                    layout.lemma_place(a);
                    assert(free_list::is_free(h0.blocks, h0.list[i]));
                    assert(h0.blocks.contains_key(a));
                }
                if place == block.payload_mut_ptr() {
                    self.allocate_from(block, layout, size, Ghost(i));
                } else {
                    let latter = self.cut_free(block, place - BlockMetaInfo::SIZE, Ghost(i));
                    let ghost m1 = self.mem;
                    let ghost h1 = self@;
                    assert(h1 == h0.prepared(layout));
                    assert(h1.list[i + 1] == latter.addr);
                    self.allocate_from(latter, layout, size, Ghost(i + 1));
                    proof {
                        lemma_payloads_kept_twice(m0, m1, self.mem, h0, h1, 0);
                    }
                }
                place
            },
        }
    }

    /// Cuts the free block at the place `i` of the list in two.
    fn cut_free(&mut self, block: Block, at: usize, Ghost(i): Ghost<int>) -> (r: Block)
        requires
            old(self).wf(),
            0 <= i < old(self)@.list.len(),
            block.addr == old(self)@.list[i],
            block::can_cut(
                block.addr as int,
                old(self)@.blocks[block.addr as int].payload,
                at as int,
            ),
        ensures
            r.addr == at,
            final(self).wf(),
            final(self)@ == (HeapModel {
                blocks: block::blocks_cut(
                    old(self)@.blocks,
                    block.addr as int,
                    at as int,
                ),
                list: old(self)@.list.insert(i + 1, at as int),
                ..old(self)@
            }),
            payloads_kept(old(self).memory(), final(self).memory(), old(self)@, 0),
    {
        let ghost m0 = self.mem;
        let ghost h0 = self@;
        let ghost a = block.addr as int;
        proof {
            assert(free_list::is_free(h0.blocks, h0.list[i]));
            assert(free_list::links_back(h0.blocks, a));
            lemma_free_in_memory(m0, h0.blocks, a);
            assert(block::holds_block(m0, a, h0.blocks[a]));
            free_list::lemma_cut_ok(h0.blocks, h0.list, h0.start, h0.end, i, at as int);
        }
        let r = block.cut(&mut self.mem, at);
        proof {
            block::lemma_cut_holds(m0, self.mem, h0.blocks, a, at as int);
            lemma_cut_payloads(m0, self.mem, h0, a, at as int);
            self.blocks@ = block::blocks_cut(h0.blocks, a, at as int);
            self.list@ = h0.list.insert(i + 1, at as int);
            lemma_same_users(h0, self@);
        }
        r
    }

    /// Takes the bytes for `layout` from the front of the block at the place `i` of the list.
    fn allocate_from(
        &mut self,
        block: Block,
        layout: Layout,
        size: usize,
        Ghost(i): Ghost<int>,
    )
        requires
            old(self).wf(),
            layout.valid(),
            0 <= i < old(self)@.list.len(),
            block.addr == old(self)@.list[i],
            old(self)@.blocks[block.addr as int].payload >= size,
            size == layout.payload(),
        ensures
            final(self).wf(),
            final(self)@ == old(self)@.reduced(i, size as nat, layout),
            payloads_kept(old(self).memory(), final(self).memory(), old(self)@, 0),
    {
        let ghost m0 = self.mem;
        let ghost h0 = self@;
        let ghost a = block.addr as int;
        proof {
            layout.lemma_payload();
            assert(free_list::is_free(h0.blocks, h0.list[i]));
            assert(free_list::links_back(h0.blocks, a));
            lemma_free_in_memory(m0, h0.blocks, a);
            assert(block::holds_block(m0, a, h0.blocks[a]));
        }
        let next: usize = block.logical_next(&self.mem);
        let new_free_block: usize = block.allocate(&mut self.mem, size);
        let ghost m1 = self.mem;
        proof {
            block::lemma_allocated_holds(m0, m1, h0.blocks, a, size as nat);
            free_list::lemma_allocated_ok(
                h0.blocks,
                h0.list,
                h0.start,
                h0.end,
                i,
                size as nat,
            );
            lemma_allocated_payloads(m0, m1, h0, a, size as nat);
            self.blocks@ = block::blocks_allocated(h0.blocks, a, size as nat);
            self.list@ = free_list::list_allocated(h0.list, i, new_free_block as int);
            self.sizes@ = h0.sizes.insert(a, layout.size as nat);
            assert(i > 0 ==> h0.list[0] != h0.list[i]);
            lemma_reduced_counted(h0, i, size as nat, layout);
        }
        if block.addr == self.head_block {
            self.head_block = if new_free_block != NULL {
                new_free_block
            } else {
                next
            };
        }
        self.allocated_real = self.allocated_real + (layout.size + BlockMetaInfo::SIZE * 2);
        self.allocated_user = self.allocated_user + layout.size;
    }

    /// Deallocate a range of memory from the heap: the payload at `ptr`, which
    /// [`HeapAlloc::allocate`] gave for `layout`.
    pub fn dealloc(&mut self, ptr: usize, layout: Layout)
        requires
            old(self).wf(),
            old(self)@.asked(ptr - 8, layout),
        ensures
            final(self).wf(),
            final(self)@ == old(self)@.deallocated(ptr - 8, layout),
            payloads_kept(old(self).memory(), final(self).memory(), old(self)@, ptr - 8),
            old(self)@.one_list() ==> final(self)@.one_list(),
            old(self)@.list.len() > 0 && (forall|b: int, c: int| !#[trigger]
                old(self)@.side_by_side(b, c)) ==> (forall|b: int, c: int| !#[trigger]
                final(self)@.side_by_side(b, c)),
    {
        let ghost m0 = self.mem;
        let ghost h0 = self@;
        let ghost a = ptr - 8;
        proof {
            if h0.list.len() > 0 && forall|b: int, c: int| !#[trigger] h0.side_by_side(b, c) {
                law_dealloc_keeps_free_blocks_apart(h0, a, layout);
            }
            if h0.one_list() {
                law_dealloc_keeps_one_list(h0, a, layout);
            }
            self.lemma_user_in_memory(a);
            law_dealloc_removes_one_user(h0, a, layout);
        }
        let block = Block::from_payload(ptr);
        self.set_free(block, layout);
        if self.head_block == NULL {
            proof {
                if h0.list.len() > 0 {
                    assert(free_list::is_free(h0.blocks, h0.list[0]));
                }
                assert(h0.list =~= Seq::empty());
                self.list@ = seq![a];
            }
            self.head_block = block.addr;
            return;
        }
        let ghost m1 = self.mem;
        let block = self.join_left(block);
        let ghost m2 = self.mem;
        self.join_right(block);
        proof {
            lemma_dealloc_payloads(m0, m1, m2, self.mem, h0, a, layout);
        }
    }

    /// The payload of a user lies in memory, behind a header.
    proof fn lemma_user_in_memory(&self, a: int)
        requires
            self.formed(),
            self@.holds_user(a),
        ensures
            self@.is_init(),
            self@.start <= a,
            a + 24 <= usize::MAX,
            self@.start > 0,
            block::holds_block(self.mem, a, self@.blocks[a]),
            block::block_at(self.mem, a),
    {
    }

    /// Makes a used block a free one that is in no list.
    fn set_free(&mut self, block: Block, layout: Layout)
        requires
            old(self).wf(),
            old(self)@.asked(block.addr as int, layout),
        ensures
            final(self).formed(),
            final(self)@ == old(self)@.freed(block.addr as int, layout),
            payloads_kept(
                old(self).memory(),
                final(self).memory(),
                old(self)@,
                block.addr as int,
            ),
            final(self)@.is_init(),
            !final(self)@.list.contains(block.addr as int),
            final(self).head_block == old(self).head_block,
    {
        let ghost m0 = self.mem;
        let ghost h0 = self@;
        let ghost a = block.addr as int;
        proof {
            self.lemma_user_in_memory(a);
            free_list::lemma_freed_ok(h0.blocks, h0.list, h0.start, h0.end, a);
        }
        block.set_free(&mut self.mem);
        let ghost m1 = self.mem;
        proof {
            block::lemma_freed_holds(m0, m1, h0.blocks, a);
            lemma_freed_payloads(m0, m1, h0, a);
            self.blocks@ = block::blocks_freed(h0.blocks, a);
            self.sizes@ = h0.sizes.remove(a);
            assert(h0.sizes.contains_key(a));
            usage::lemma_total_without(h0.sizes, 0, a);
            usage::lemma_total_without(h0.sizes, 16, a);
        }
        self.allocated_real = self.allocated_real - (layout.size + BlockMetaInfo::SIZE * 2);
        self.allocated_user = self.allocated_user - layout.size;
    }

    /// Joins the free block, which is in no list, to the one before it, if that is free. Returns
    /// the joint block.
    fn join_left(&mut self, block: Block) -> (r: Block)
        requires
            old(self).formed(),
            old(self)@.is_init(),
            free_list::is_free(old(self)@.blocks, block.addr as int),
            old(self)@.blocks[block.addr as int].prev == 0,
            old(self)@.blocks[block.addr as int].next == 0,
            !old(self)@.list.contains(block.addr as int),
        ensures
            final(self).formed(),
            final(self)@ == old(self)@.joined_left(block.addr as int),
            r.addr == old(self)@.joint(block.addr as int),
            free_list::is_free(final(self)@.blocks, r.addr as int),
            payloads_kept(old(self).memory(), final(self).memory(), old(self)@, 0),
    {
        let ghost m0 = self.mem;
        let ghost h0 = self@;
        let ghost a = block.addr as int;
        if block.addr == self.mem.start() {
            return block;
        }
        let ghost p = free_list::left_of(h0.blocks, a);
        proof {
            assert(free_list::is_left_of(h0.blocks, p, a));
            assert(block::holds_block(m0, p, h0.blocks[p]));
            assert(block::holds_block(m0, a, h0.blocks[a]));
        }
        let physical_prev = block.physical_prev(&self.mem);
        if physical_prev.is_used(&self.mem) {
            return block;
        }
        physical_prev.unsplit(&mut self.mem, block, false);
        proof {
            block::lemma_joined_holds(m0, self.mem, h0.blocks, p, a, false);
            free_list::lemma_joined_left_ok(
                h0.blocks,
                h0.list,
                h0.start,
                h0.end,
                p,
                a,
            );
            lemma_joined_payloads(m0, self.mem, h0, p, a, false);
            self.blocks@ = block::blocks_joined(h0.blocks, p, a, false);
        }
        physical_prev
    }

    /// Joins the block behind the free block to it, if that is free.
    fn join_right(&mut self, block: Block)
        requires
            old(self).formed(),
            old(self)@.is_init(),
            free_list::is_free(old(self)@.blocks, block.addr as int),
        ensures
            final(self).formed(),
            final(self)@ == old(self)@.joined_right(block.addr as int),
            payloads_kept(old(self).memory(), final(self).memory(), old(self)@, 0),
    {
        let ghost m0 = self.mem;
        let ghost h0 = self@;
        let ghost a = block.addr as int;
        let ghost n = free_list::end_of(h0.blocks, a);
        proof {
            assert(block::holds_block(m0, a, h0.blocks[a]));
            lemma_free_in_memory(m0, h0.blocks, a);
        }
        let end: usize = self.mem.start() + self.mem.len();
        if block.addr + block.size(&self.mem) >= end {
            return;
        }
        let physical_next = block.physical_next(&self.mem);
        proof {
            assert(h0.blocks.contains_key(n));
            assert(block::holds_block(m0, n, h0.blocks[n]));
        }
        if physical_next.is_used(&self.mem) {
            return;
        }
        proof {
            assert(free_list::is_free(h0.blocks, n));
            lemma_free_in_memory(m0, h0.blocks, n);
        }
        let prev: usize = block.logical_prev(&self.mem);
        let next: usize = block.logical_next(&self.mem);
        if self.head_block == block.addr || prev != NULL || next != NULL {
            self.join_unlinked(block, physical_next);
        } else {
            self.join_taking(block, physical_next);
        }
    }

    /// Joins the free block `right` to the one before it, which takes its place in the list.
    fn join_taking(&mut self, block: Block, right: Block)
        requires
            old(self).formed(),
            old(self)@.is_init(),
            free_list::is_free(old(self)@.blocks, block.addr as int),
            free_list::is_free(old(self)@.blocks, right.addr as int),
            right.addr == free_list::end_of(old(self)@.blocks, block.addr as int),
            !free_list::is_linked(
                old(self)@.blocks,
                old(self)@.list,
                block.addr as int,
            ),
        ensures
            final(self).formed(),
            final(self)@ == (HeapModel {
                blocks: block::blocks_joined(
                    old(self)@.blocks,
                    block.addr as int,
                    right.addr as int,
                    true,
                ),
                list: free_list::list_replaced(
                    old(self)@.list,
                    right.addr as int,
                    block.addr as int,
                ),
                ..old(self)@
            }),
            payloads_kept(old(self).memory(), final(self).memory(), old(self)@, 0),
    {
        let ghost m0 = self.mem;
        let ghost h0 = self@;
        let ghost a = block.addr as int;
        let ghost n = right.addr as int;
        proof {
            free_list::lemma_joined_take_ok(
                h0.blocks,
                h0.list,
                h0.start,
                h0.end,
                a,
                n,
            );
            lemma_free_in_memory(m0, h0.blocks, a);
            lemma_free_in_memory(m0, h0.blocks, n);
            lemma_neighbours_apart(m0, h0.blocks, a, n);
        }
        block.unsplit(&mut self.mem, right, true);
        proof {
            block::lemma_joined_holds(m0, self.mem, h0.blocks, a, n, true);
            lemma_joined_payloads(m0, self.mem, h0, a, n, true);
            self.blocks@ = block::blocks_joined(h0.blocks, a, n, true);
            self.list@ = free_list::list_replaced(h0.list, n, a);
        }
        if self.head_block == right.addr {
            self.head_block = block.addr;
        }
    }

    /// Takes the free block `right` out of its list and joins it to the one before it.
    fn join_unlinked(&mut self, block: Block, right: Block)
        requires
            old(self).formed(),
            old(self)@.is_init(),
            free_list::is_free(old(self)@.blocks, block.addr as int),
            free_list::is_free(old(self)@.blocks, right.addr as int),
            right.addr == free_list::end_of(old(self)@.blocks, block.addr as int),
        ensures
            final(self).formed(),
            final(self)@ == (HeapModel {
                blocks: block::blocks_joined(
                    block::blocks_unlinked(old(self)@.blocks, right.addr as int),
                    block.addr as int,
                    right.addr as int,
                    false,
                ),
                list: free_list::list_removed(old(self)@.list, right.addr as int),
                ..old(self)@
            }),
            payloads_kept(old(self).memory(), final(self).memory(), old(self)@, 0),
    {
        let ghost m0 = self.mem;
        let ghost h0 = self@;
        let ghost a = block.addr as int;
        let ghost n = right.addr as int;
        proof {
            lemma_free_in_memory(m0, h0.blocks, n);
            free_list::lemma_joined_unlinked_ok(
                h0.blocks,
                h0.list,
                h0.start,
                h0.end,
                a,
                n,
            );
        }
        let prev: usize = right.logical_prev(&self.mem);
        let next: usize = right.logical_next(&self.mem);
        Block::link(&mut self.mem, prev, next, next, prev);
        let ghost m1 = self.mem;
        let ghost between = block::blocks_unlinked(h0.blocks, n);
        proof {
            block::lemma_linked_holds(
                m0,
                m1,
                h0.blocks,
                prev as int,
                next as int,
                next as int,
                prev as int,
            );
            lemma_linked_payloads(m0, m1, h0, prev as int, next as int);
            assert(block::holds_block(m1, a, between[a]));
            assert(block::holds_block(m1, n, between[n]));
        }
        block.unsplit(&mut self.mem, right, false);
        proof {
            let h1 = HeapModel { blocks: between, ..h0 };
            block::lemma_joined_holds(m1, self.mem, between, a, n, false);
            lemma_joined_payloads(m1, self.mem, h1, a, n, false);
            self.blocks@ = block::blocks_joined(between, a, n, false);
            self.list@ = free_list::list_removed(h0.list, n);
            assert forall|c: int, b: int|
                #![trigger h0.blocks.contains_key(c), self.mem.byte_at(b)]
                h0.holds_user(c) && c != 0 && c + 8 <= b < c + 8
                    + h0.blocks[c].payload implies self.mem.byte_at(b) == m0.byte_at(b) by {
                assert(m1.byte_at(b) == m0.byte_at(b));
                assert(h1.blocks.contains_key(c));
            }
        }
        if self.head_block == right.addr {
            self.head_block = next;
        }
    }

    fn block_iter_mut(&self) -> (r: BlockIterMut)
        requires
            self.wf(),
        ensures
            r.curr == free_list::list_head(self@.list),
    {
        BlockIterMut { curr: self.head_block }
    }

    /// The first block of the list that has the bytes for the layout, and where they start.
    fn find(&self, layout: Layout, size: usize) -> (r: Option<(Block, usize)>)
        requires
            self.wf(),
            layout.valid(),
            size == layout.payload(),
        ensures
            r is Some == self@.fits(layout),
            r matches Some((block, place)) ==> block.addr == self@.fitting(layout) && place
                == layout.place(block.addr as int) && block.addr + 8 <= usize::MAX,
    {
        let mut iter = self.block_iter_mut();
        let ghost list = self.list@;
        let ghost blocks = self.blocks@;
        let ghost mut i: int = 0;
        loop
            invariant
                self.wf(),
                layout.valid(),
                size == layout.payload(),
                list == self@.list,
                blocks == self@.blocks,
                0 <= i <= list.len(),
                iter.curr == (if i < list.len() {
                    list[i]
                } else {
                    0
                }),
                self@.first_fit(layout, 0) == self@.first_fit(layout, i),
            decreases list.len() - i,
        {
            proof {
                if i < list.len() {
                    assert(free_list::is_free(blocks, list[i]));
                    assert(free_list::follows(blocks, list, i));
                    lemma_free_in_memory(self.mem, blocks, list[i]);
                }
            }
            match iter.next(&self.mem) {
                Some(block) => {
                    let payload: usize = block.payload_size(&self.mem);
                    if let Some(place) = layout.find_place(block.addr, payload, size) {
                        return Some((block, place));
                    }
                    proof {
                        i = i + 1;
                    }
                },
                None => {
                    return None;
                },
            }
        }
    }
}

/// A mutable iterator over the linked list.
struct BlockIterMut {
    curr: usize,
}

impl BlockIterMut {
    /// The current block, if there is one; its successor becomes the current block.
    fn next(&mut self, mem: &Memory<'_>) -> (r: Option<Block>)
        requires
            old(self).curr != 0 ==> block::free_at(*mem, old(self).curr as int)
                && mem.word_at(old(self).curr + 16) <= usize::MAX,
        ensures
            r is None == (old(self).curr == 0),
            r matches Some(block) ==> block.addr == old(self).curr && final(self).curr
                == mem.word_at(old(self).curr + 16),
            r is None ==> final(self).curr == 0,
    {
        if self.curr == NULL {
            return None;
        }
        let block = Block { addr: self.curr };
        self.curr = block.logical_next(mem);
        Some(block)
    }
}

/// A free block of the heap lies in memory, and so do those that it links to.
proof fn lemma_free_in_memory(mem: Memory<'_>, blocks: free_list::Blocks, a: int)
    requires
        block::holds(mem, blocks),
        free_list::is_free(blocks, a),
        free_list::links_back(blocks, a),
    ensures
        block::free_at(mem, a),
        block::payload_at(mem, a) == blocks[a].payload,
        block::links_at(mem, a),
        mem.word_at(a + 8) == blocks[a].prev,
        mem.word_at(a + 16) == blocks[a].next,
{
    let r = blocks[a];
    assert(block::holds_block(mem, a, r));
    if r.prev != 0 {
        assert(block::holds_block(mem, r.prev, blocks[r.prev]));
    }
    if r.next != 0 {
        assert(block::holds_block(mem, r.next, blocks[r.next]));
    }
}

/// The blocks that the free block at `b` links to lie apart from another block.
proof fn lemma_neighbours_apart(
    mem: Memory<'_>,
    blocks: free_list::Blocks,
    a: int,
    b: int,
)
    requires
        block::holds(mem, blocks),
        free_list::is_free(blocks, a),
        free_list::is_free(blocks, b),
        free_list::links_back(blocks, b),
        blocks[b].prev != a,
        blocks[b].next != a,
    ensures
        block::neighbour_at(mem, mem.word_at(b + 8) as int, a),
        block::neighbour_at(mem, mem.word_at(b + 16) as int, a),
{
    let r = blocks[b];
    assert(block::holds_block(mem, a, blocks[a]));
    assert(block::holds_block(mem, b, r));
    if r.prev != 0 {
        assert(block::holds_block(mem, r.prev, blocks[r.prev]));
    }
    if r.next != 0 {
        assert(block::holds_block(mem, r.next, blocks[r.next]));
    }
}

/// The word at `w` lies in the block at `o`.
spec fn owns(blocks: free_list::Blocks, o: int, w: int) -> bool {
    blocks.contains_key(o) && o <= w && w + 8 <= o + blocks[o].size()
}

/// The word at `w` lies in a free block or in the one at `x`.
spec fn not_users(blocks: free_list::Blocks, w: int, x: int) -> bool {
    exists|o: int| #[trigger] owns(blocks, o, w) && (o == x || !blocks[o].used)
}

/// The payloads of users are kept where only words in free blocks and in the block at `x` are
/// written.
proof fn lemma_payloads_kept(m1: Memory<'_>, m2: Memory<'_>, h: HeapModel, t: Set<int>, x: int)
    requires
        block::holds(m1, h.blocks),
        memory::wrote(m1, m2, t),
        forall|w: int| #[trigger] t.contains(w) ==> not_users(h.blocks, w, x),
    ensures
        payloads_kept(m1, m2, h, x),
        m2.base() == m1.base(),
        m2.limit() == m1.limit(),
{
    memory::lemma_wrote_shape(m1, m2, t);
    assert forall|c: int, b: int|
        #![trigger h.blocks.contains_key(c), m2.byte_at(b)]
        h.holds_user(c) && c != x && c + 8 <= b < c + 8 + h.blocks[c].payload implies m2.byte_at(b)
        == m1.byte_at(b) by {
        assert(block::holds_block(m1, c, h.blocks[c]));
        assert forall|w: int| #[trigger] t.contains(w) implies b < w || w + 8 <= b by {
            let o = choose|o: int| #[trigger]
                owns(h.blocks, o, w) && (o == x || !h.blocks[o].used);
            assert(h.blocks.contains_key(o));
        }
        memory::lemma_byte_kept(m1, m2, t, b);
    }
}

/// Payloads that two steps keep are kept.
proof fn lemma_payloads_kept_twice(
    m0: Memory<'_>,
    m1: Memory<'_>,
    m2: Memory<'_>,
    h0: HeapModel,
    h1: HeapModel,
    a: int,
)
    requires
        payloads_kept(m0, m1, h0, a),
        payloads_kept(m1, m2, h1, 0),
        !h0.blocks.contains_key(0),
        forall|c: int| #[trigger]
            h0.blocks.contains_key(c) && h0.blocks[c].used && c != a ==> h1.blocks.contains_key(c)
                && h1.blocks[c].used && h1.blocks[c].payload == h0.blocks[c].payload,
    ensures
        payloads_kept(m0, m2, h0, a),
{
    assert forall|c: int, b: int|
        #![trigger h0.blocks.contains_key(c), m2.byte_at(b)]
        h0.holds_user(c) && c != a && c + 8 <= b < c + 8 + h0.blocks[c].payload implies m2.byte_at(
        b,
    ) == m0.byte_at(b) by {
        assert(m1.byte_at(b) == m0.byte_at(b));
        assert(h1.blocks.contains_key(c));
    }
}

/// Linking the neighbours of a free block keeps the payloads of users.
proof fn lemma_link_not_users(blocks: free_list::Blocks, a: int, x: int)
    requires
        free_list::is_free(blocks, a),
        free_list::links_back(blocks, a),
        forall|c: int| #[trigger] blocks.contains_key(c) ==> blocks[c].payload >= 16,
    ensures
        forall|w: int| #[trigger]
            block::link_writes(blocks[a].prev, blocks[a].next).contains(w)
                ==> not_users(blocks, w, x),
{
    let r = blocks[a];
    assert forall|w: int| #[trigger]
        block::link_writes(r.prev, r.next).contains(w) implies not_users(
        blocks,
        w,
        x,
    ) by {
        if r.prev != 0 && w == r.prev + 16 {
            assert(owns(blocks, r.prev, w));
        } else {
            assert(owns(blocks, r.next, w));
        }
    }
}

proof fn lemma_allocated_payloads(
    m1: Memory<'_>,
    m2: Memory<'_>,
    h: HeapModel,
    a: int,
    size: nat,
)
    requires
        block::holds(m1, h.blocks),
        free_list::is_free(h.blocks, a),
        free_list::links_back(h.blocks, a),
        h.blocks[a].payload >= size >= 16,
        block::allocate_effect(m1, m2, a, size),
    ensures
        payloads_kept(m1, m2, h, 0),
        m2.base() == m1.base(),
        m2.limit() == m1.limit(),
{
    let r = h.blocks[a];
    assert(block::holds_block(m1, a, r));
    assert forall|c: int| #[trigger] h.blocks.contains_key(c) implies h.blocks[c].payload >= 16 by {
        assert(block::holds_block(m1, c, h.blocks[c]));
    }
    lemma_link_not_users(h.blocks, a, 0);
    let tl = block::link_writes(r.prev, r.next);
    let footer = a + 8 + r.payload;
    let b = a + size + 16;
    let t = if block::rest_payload(r.payload, size) < 16 {
        set![a, footer] + tl
    } else {
        set![a, a + 8 + size, b, b + 8, b + 16, footer] + tl
    };
    assert forall|w: int| #[trigger] t.contains(w) implies not_users(h.blocks, w, 0) by {
        if !tl.contains(w) {
            assert(owns(h.blocks, a, w));
        }
    }
    lemma_payloads_kept(m1, m2, h, t, 0);
}

proof fn lemma_freed_payloads(m1: Memory<'_>, m2: Memory<'_>, h: HeapModel, a: int)
    requires
        block::holds(m1, h.blocks),
        h.blocks.contains_key(a),
        memory::wrote(
            m1,
            m2,
            set![a, a + 8, a + 16, a + 8 + h.blocks[a].payload],
        ),
    ensures
        payloads_kept(m1, m2, h, a),
        m2.base() == m1.base(),
        m2.limit() == m1.limit(),
{
    let t = set![a, a + 8, a + 16, a + 8 + h.blocks[a].payload];
    assert(block::holds_block(m1, a, h.blocks[a]));
    assert forall|w: int| #[trigger] t.contains(w) implies not_users(h.blocks, w, a) by {
        assert(owns(h.blocks, a, w));
    }
    lemma_payloads_kept(m1, m2, h, t, a);
}

/// Writing links of free blocks keeps the payloads of users.
proof fn lemma_linked_payloads(
    m1: Memory<'_>,
    m2: Memory<'_>,
    h: HeapModel,
    prev: int,
    next: int,
)
    requires
        block::holds(m1, h.blocks),
        prev == 0 || free_list::is_free(h.blocks, prev),
        next == 0 || free_list::is_free(h.blocks, next),
        memory::wrote(m1, m2, block::link_writes(prev, next)),
    ensures
        payloads_kept(m1, m2, h, 0),
        m2.base() == m1.base(),
        m2.limit() == m1.limit(),
{
    let t = block::link_writes(prev, next);
    assert forall|w: int| #[trigger] t.contains(w) implies not_users(h.blocks, w, 0) by {
        if prev != 0 && w == prev + 16 {
            assert(block::holds_block(m1, prev, h.blocks[prev]));
            assert(owns(h.blocks, prev, w));
        } else {
            assert(block::holds_block(m1, next, h.blocks[next]));
            assert(owns(h.blocks, next, w));
        }
    }
    lemma_payloads_kept(m1, m2, h, t, 0);
}

/// Cutting a free block keeps the payloads of users.
proof fn lemma_cut_payloads(m1: Memory<'_>, m2: Memory<'_>, h: HeapModel, a: int, b: int)
    requires
        block::holds(m1, h.blocks),
        free_list::is_free(h.blocks, a),
        free_list::links_back(h.blocks, a),
        block::can_cut(a, h.blocks[a].payload, b),
        block::cut_effect(m1, m2, a, b),
    ensures
        payloads_kept(m1, m2, h, 0),
        m2.base() == m1.base(),
        m2.limit() == m1.limit(),
{
    let r = h.blocks[a];
    assert(block::holds_block(m1, a, r));
    let t = block::cut_writes(a, r.payload, r.next, b);
    assert forall|w: int| #[trigger] t.contains(w) implies not_users(h.blocks, w, 0) by {
        if r.next != 0 && w == r.next + 8 {
            assert(block::holds_block(m1, r.next, h.blocks[r.next]));
            assert(owns(h.blocks, r.next, w));
        } else {
            assert(owns(h.blocks, a, w));
        }
    }
    lemma_payloads_kept(m1, m2, h, t, 0);
}

proof fn lemma_joined_payloads(
    m1: Memory<'_>,
    m2: Memory<'_>,
    h: HeapModel,
    a: int,
    b: int,
    take: bool,
)
    requires
        block::holds(m1, h.blocks),
        free_list::is_free(h.blocks, a),
        free_list::is_free(h.blocks, b),
        take ==> free_list::links_back(h.blocks, b),
        block::unsplit_effect(m1, m2, a, b, take),
    ensures
        payloads_kept(m1, m2, h, 0),
        m2.base() == m1.base(),
        m2.limit() == m1.limit(),
{
    let q = h.blocks[b];
    assert forall|c: int| #[trigger] h.blocks.contains_key(c) implies h.blocks[c].payload >= 16 by {
        assert(block::holds_block(m1, c, h.blocks[c]));
    }
    assert(block::holds_block(m1, a, h.blocks[a]));
    assert(block::holds_block(m1, b, q));
    let footer = b + 8 + q.payload;
    let tl = if take {
        block::link_writes(q.prev, q.next)
    } else {
        Set::empty()
    };
    let t = if take {
        set![a, a + 8, a + 16, footer] + tl
    } else {
        set![a, footer]
    };
    if take {
        lemma_link_not_users(h.blocks, b, 0);
    }
    assert forall|w: int| #[trigger] t.contains(w) implies not_users(h.blocks, w, 0) by {
        if take && tl.contains(w) {
        } else if w == footer {
            assert(owns(h.blocks, b, w));
        } else {
            assert(owns(h.blocks, a, w));
        }
    }
    lemma_payloads_kept(m1, m2, h, t, 0);
}

/// The payloads that users hold lie in the heap, behind their tags, and no byte is in two of them.
pub proof fn law_users_are_disjoint(h: HeapModel, a: int, b: int)
    requires
        h.ok(),
        h.holds_user(a),
        h.holds_user(b),
        a != b,
    ensures
        h.start + 8 <= a + 8,
        a + 8 + h.blocks[a].payload + 8 <= h.end,
        a + 8 + h.blocks[a].payload <= b || b + 8 + h.blocks[b].payload <= a,
{
}

/// Each byte of the heap is in one block: none is lost and none is in two.
pub proof fn law_every_byte_is_in_one_block(h: HeapModel, x: int)
    requires
        h.ok(),
        h.start <= x < h.end,
    ensures
        exists|a: int| #[trigger]
            h.blocks.contains_key(a) && a <= x < free_list::end_of(h.blocks, a),
        forall|a: int, b: int| #[trigger]
            h.blocks.contains_key(a) && #[trigger] h.blocks.contains_key(b) && a <= x
                < free_list::end_of(h.blocks, a) && b <= x
                < free_list::end_of(h.blocks, b) ==> a == b,
{
    lemma_walk(h, h.start, x);
}

proof fn lemma_walk(h: HeapModel, c: int, x: int)
    requires
        h.ok(),
        h.blocks.contains_key(c),
        c <= x < h.end,
    ensures
        exists|a: int| #[trigger]
            h.blocks.contains_key(a) && a <= x < free_list::end_of(h.blocks, a),
    decreases x - c,
{
    let n = free_list::end_of(h.blocks, c);
    if n <= x {
        assert(h.blocks.contains_key(n));
        lemma_walk(h, n, x);
    }
}

/// The first part of a block that is cut stays free, and the latter part has the rest.
proof fn lemma_prepared(h: HeapModel, layout: Layout)
    requires
        h.ok(),
        layout.valid(),
        h.fits(layout),
    ensures
        ({
            let g = h.prepared(layout);
            let i = h.first_fit(layout, 0);
            let j = h.spot(layout);
            let a = h.fitting(layout);
            let b = h.taken(layout);
            &&& 0 <= i < h.list.len()
            &&& h.list[i] == a
            &&& free_list::is_free(h.blocks, a)
            &&& free_list::links_back(h.blocks, a)
            &&& 0 <= j < g.list.len()
            &&& g.list[j] == b
            &&& g.formed()
            &&& free_list::is_free(g.blocks, b)
            &&& free_list::links_back(g.blocks, b)
            &&& g.blocks[b].payload >= layout.payload()
            &&& h.is_cut(layout) ==> {
                &&& !h.blocks.contains_key(b)
                &&& block::can_cut(a, h.blocks[a].payload, b)
                &&& free_list::end_of(g.blocks, a) == b
            }
        }),
{
    layout.lemma_payload();
    h.lemma_first_fit(layout, 0);
    let i = h.first_fit(layout, 0);
    let a = h.list[i];
    layout.lemma_place(a);
    assert(free_list::is_free(h.blocks, a));
    assert(free_list::links_back(h.blocks, a));
    if h.is_cut(layout) {
        free_list::lemma_cut_ok(h.blocks, h.list, h.start, h.end, i, h.taken(layout));
        let g = h.prepared(layout);
        assert(free_list::is_free(g.blocks, g.list[i + 1]));
    }
}

/// What is allocated is aligned and large enough and was free before, and all that users held they
/// still hold.
pub proof fn law_allocate_adds_one_user(h: HeapModel, layout: Layout)
    requires
        h.ok(),
        layout.valid(),
        h.fits(layout),
    ensures
        h.allocated(layout).ok(),
        !h.holds_user(h.taken(layout)),
        h.allocated(layout).holds_user(h.taken(layout)),
        h.allocated(layout).blocks[h.taken(layout)].payload >= layout.size,
        (h.taken(layout) + 8) % (layout.align as int) == 0,
        forall|c: int|
            c != h.taken(layout) ==> #[trigger] h.allocated(layout).holds_user(c)
                == h.holds_user(c),
        forall|c: int| #[trigger]
            h.holds_user(c) ==> h.allocated(layout).blocks[c].payload == h.blocks[c].payload,
{
    layout.lemma_payload();
    lemma_prepared(h, layout);
    let g = h.prepared(layout);
    let j = h.spot(layout);
    let a = h.fitting(layout);
    let b = h.taken(layout);
    let size = layout.payload();
    layout.lemma_place(a);
    free_list::lemma_allocated_ok(g.blocks, g.list, g.start, g.end, j, size);
    let rest = block::split_block(b, g.blocks[b].payload, size);
    if rest != 0 && g.blocks.contains_key(rest) {
        assert(b < rest < free_list::end_of(g.blocks, b));
        assert(g.blocks.contains_key(b));
    }
    assert forall|c: int| #[trigger] g.holds_user(c) == h.holds_user(c) by {}
    assert forall|c: int| #[trigger] h.holds_user(c) implies g.blocks[c].payload
        == h.blocks[c].payload by {}
    lemma_same_users(h, g);
    lemma_reduced_counted(g, j, size, layout);
}

/// The statistics are right where the users are the same.
proof fn lemma_same_users(h: HeapModel, g: HeapModel)
    requires
        h.counted(),
        g == (HeapModel { blocks: g.blocks, list: g.list, ..h }),
        forall|c: int| #[trigger] g.holds_user(c) == h.holds_user(c),
        forall|c: int| #[trigger]
            h.holds_user(c) ==> g.blocks[c].payload == h.blocks[c].payload,
    ensures
        g.counted(),
{
    assert forall|c: int|
        #![trigger g.sizes.contains_key(c)]
        #![trigger g.holds_user(c)]
        g.sizes.contains_key(c) == g.holds_user(c) by {
        assert(h.sizes.contains_key(c) == h.holds_user(c));
    }
    assert forall|c: int| #[trigger] g.sizes.contains_key(c) implies g.sizes[c]
        <= g.blocks[c].payload by {
        assert(h.sizes.contains_key(c));
        assert(h.holds_user(c));
    }
}

/// The statistics count a user more after bytes have been taken from a free block, and they fit
/// their types.
proof fn lemma_reduced_counted(h: HeapModel, i: int, payload: nat, layout: Layout)
    requires
        h.ok(),
        layout.valid(),
        0 <= i < h.list.len(),
        payload == layout.payload(),
        h.blocks[h.list[i]].payload >= payload,
    ensures
        h.reduced(i, payload, layout).ok(),
        h.user + layout.size <= usize::MAX,
        h.real + layout.size + 16 <= usize::MAX,
{
    let g = h.reduced(i, payload, layout);
    let a = h.list[i];
    let rest = block::split_block(a, h.blocks[a].payload, payload);
    layout.lemma_payload();
    assert(free_list::is_free(h.blocks, a));
    assert(free_list::links_back(h.blocks, a));
    free_list::lemma_allocated_ok(h.blocks, h.list, h.start, h.end, i, payload);
    if rest != 0 && h.blocks.contains_key(rest) {
        assert(a < rest < free_list::end_of(h.blocks, a));
        assert(h.blocks.contains_key(a));
    }
    assert(!h.holds_user(a));
    assert(!h.sizes.contains_key(a));
    usage::lemma_total_with(h.sizes, 0, a, layout.size as nat);
    usage::lemma_total_with(h.sizes, 16, a, layout.size as nat);
    assert forall|c: int|
        #![trigger g.sizes.contains_key(c)]
        #![trigger g.holds_user(c)]
        g.sizes.contains_key(c) == g.holds_user(c) by {
        if c != a {
            assert(h.sizes.contains_key(c) == h.holds_user(c));
        }
    }
    assert forall|c: int| #[trigger] g.sizes.contains_key(c) implies g.sizes[c]
        <= g.blocks[c].payload && g.blocks.contains_key(c) by {
        if c != a {
            assert(h.sizes.contains_key(c));
            assert(h.holds_user(c));
        }
        assert(g.holds_user(c));
    }
    usage::lemma_total_fits(g.sizes, 0, g.start, g.end);
    usage::lemma_total_fits(g.sizes, 16, g.start, g.end);
}

/// A block that has been freed and joined to the free one before it, if there is one, is free.
proof fn lemma_freed_left(h: HeapModel, a: int, layout: Layout)
    requires
        h.ok(),
        h.holds_user(a),
    ensures
        ({
            let h1 = h.freed(a, layout);
            let h2 = h1.joined_left(a);
            let k = h1.joint(a);
            &&& h1.formed()
            &&& h2.formed()
            &&& h2.is_init()
            &&& !h.list.contains(a)
            &&& free_list::is_free(h1.blocks, a)
            &&& free_list::is_free(h2.blocks, k)
            &&& forall|c: int| #[trigger] h2.holds_user(c) == (h.holds_user(c) && c != a)
            &&& forall|c: int| #[trigger]
                h2.holds_user(c) ==> h2.blocks[c].payload == h.blocks[c].payload
        }),
{
    let h1 = h.freed(a, layout);
    free_list::lemma_freed_ok(h.blocks, h.list, h.start, h.end, a);
    if h1.left_is_free(a) {
        let p = free_list::left_of(h1.blocks, a);
        assert(free_list::is_left_of(h1.blocks, p, a));
        free_list::lemma_joined_left_ok(h1.blocks, h1.list, h1.start, h1.end, p, a);
    }
}

/// The steps of giving a block back keep the payloads of the others.
proof fn lemma_dealloc_payloads(
    m0: Memory<'_>,
    m1: Memory<'_>,
    m2: Memory<'_>,
    m3: Memory<'_>,
    h: HeapModel,
    a: int,
    layout: Layout,
)
    requires
        h.ok(),
        h.holds_user(a),
        ({
            let h1 = h.freed(a, layout);
            &&& payloads_kept(m0, m1, h, a)
            &&& payloads_kept(m1, m2, h1, 0)
            &&& payloads_kept(m2, m3, h1.joined_left(a), 0)
        }),
    ensures
        payloads_kept(m0, m3, h, a),
{
    let h1 = h.freed(a, layout);
    let h2 = h1.joined_left(a);
    lemma_freed_left(h, a, layout);
    assert forall|c: int| #[trigger]
        h.blocks.contains_key(c) && h.blocks[c].used && c != a implies h2.holds_user(c)
        && h2.blocks[c].payload == h.blocks[c].payload by {
        assert(h2.holds_user(c) == h.holds_user(c));
    }
    lemma_payloads_kept_twice(m0, m1, m2, h, h1, a);
    lemma_payloads_kept_twice(m0, m2, m3, h, h2, a);
}

/// Deallocating takes from its user what is given back, and nothing else from anyone.
pub proof fn law_dealloc_removes_one_user(h: HeapModel, a: int, layout: Layout)
    requires
        h.ok(),
        h.asked(a, layout),
    ensures
        h.deallocated(a, layout).ok(),
        forall|c: int| #[trigger]
            h.deallocated(a, layout).holds_user(c) == (h.holds_user(c) && c != a),
        forall|c: int| #[trigger]
            h.deallocated(a, layout).holds_user(c) ==> h.deallocated(a, layout).blocks[c].payload
                == h.blocks[c].payload,
{
    lemma_freed_left(h, a, layout);
    let h1 = h.freed(a, layout);
    let h2 = h1.joined_left(a);
    let k = h1.joint(a);
    let g = h.deallocated(a, layout);
    if h.list.len() == 0 {
        assert(h.list =~= Seq::empty());
        free_list::lemma_first_ok(h1.blocks, h1.start, h1.end, a);
    } else {
        lemma_joined_right_users(h2, k);
        assert forall|c: int| #[trigger] g.holds_user(c) == (h.holds_user(c) && c != a) by {
            assert(g.holds_user(c) == h2.holds_user(c));
        }
        assert forall|c: int| #[trigger] g.holds_user(c) implies g.blocks[c].payload
            == h.blocks[c].payload by {
            assert(h2.holds_user(c));
        }
    }
    assert(h.sizes.contains_key(a));
    usage::lemma_total_without(h.sizes, 0, a);
    usage::lemma_total_without(h.sizes, 16, a);
    assert(g.sizes.dom() =~= h.sizes.dom().remove(a));
    assert forall|c: int|
        #![trigger g.sizes.contains_key(c)]
        #![trigger g.holds_user(c)]
        g.sizes.contains_key(c) == g.holds_user(c) by {
        assert(h.sizes.contains_key(c) == h.holds_user(c));
        assert(g.holds_user(c) == (h.holds_user(c) && c != a));
    }
    assert forall|c: int| #[trigger] g.sizes.contains_key(c) implies g.sizes[c]
        <= g.blocks[c].payload by {
        assert(h.sizes.contains_key(c));
        assert(g.holds_user(c));
    }
}

proof fn lemma_joined_right_users(h: HeapModel, a: int)
    requires
        h.formed(),
        free_list::is_free(h.blocks, a),
    ensures
        h.joined_right(a).formed(),
        forall|c: int| #[trigger] h.joined_right(a).holds_user(c) == h.holds_user(c),
        forall|c: int| #[trigger]
            h.holds_user(c) ==> h.joined_right(a).blocks[c].payload == h.blocks[c].payload,
{
    let n = free_list::end_of(h.blocks, a);
    if h.right_is_free(a) {
        assert(h.blocks.contains_key(n));
        assert(free_list::is_free(h.blocks, n));
        assert(free_list::links_back(h.blocks, n));
        if free_list::is_linked(h.blocks, h.list, a) {
            free_list::lemma_joined_unlinked_ok(
                h.blocks,
                h.list,
                h.start,
                h.end,
                a,
                n,
            );
        } else {
            free_list::lemma_joined_take_ok(h.blocks, h.list, h.start, h.end, a, n);
        }
    }
}

/// Joining what has been split off restores the blocks.
proof fn lemma_split_joined(blocks: free_list::Blocks, a: int, size: nat)
    requires
        free_list::is_free(blocks, a),
        free_list::links_back(blocks, a),
        block::split_block(a, blocks[a].payload, size) != 0,
        !blocks.contains_key(block::split_block(a, blocks[a].payload, size)),
        !blocks.contains_key(0),
    ensures
        ({
            let b = block::split_block(a, blocks[a].payload, size);
            let taken = block::blocks_allocated(blocks, a, size);
            let freed = block::blocks_freed(taken, a);
            &&& freed[a].payload == size
            &&& !freed[a].used
            &&& freed[a].prev == 0
            &&& freed[a].next == 0
            &&& freed.contains_key(b)
            &&& !freed[b].used
            &&& block::blocks_joined(freed, a, b, true) == blocks
        }),
{
    let b = block::split_block(a, blocks[a].payload, size);
    let taken = block::blocks_allocated(blocks, a, size);
    let freed = block::blocks_freed(taken, a);
    let after = block::blocks_joined(freed, a, b, true);
    assert forall|c: int| #[trigger] after.contains_key(c) == blocks.contains_key(c) by {}
    assert forall|c: int| #[trigger] blocks.contains_key(c) implies after[c] == blocks[c] by {}
    assert(after =~= blocks);
}

/// Joining the parts of a block of which the latter was taken whole restores the blocks.
proof fn lemma_cut_joined(blocks: free_list::Blocks, a: int, b: int, size: nat)
    requires
        a > 0,
        free_list::is_free(blocks, a),
        free_list::links_back(blocks, a),
        block::can_cut(a, blocks[a].payload, b),
        !blocks.contains_key(b),
        !blocks.contains_key(0),
        block::split_block(b, (blocks[a].payload - (b - a)) as nat, size) == 0,
    ensures
        ({
            let cut = block::blocks_cut(blocks, a, b);
            let freed = block::blocks_freed(block::blocks_allocated(cut, b, size), b);
            block::blocks_joined(freed, a, b, false) == blocks
        }),
{
    let cut = block::blocks_cut(blocks, a, b);
    let freed = block::blocks_freed(block::blocks_allocated(cut, b, size), b);
    let after = block::blocks_joined(freed, a, b, false);
    assert(b > 0);
    assert forall|c: int| #[trigger] after.contains_key(c) == blocks.contains_key(c) by {}
    assert forall|c: int| #[trigger] blocks.contains_key(c) implies after[c] == blocks[c] by {}
    assert(after =~= blocks);
}

/// Joining the three parts of a block of which the middle one was taken restores the blocks.
proof fn lemma_cut_split_joined(blocks: free_list::Blocks, a: int, b: int, size: nat)
    requires
        a > 0,
        free_list::is_free(blocks, a),
        free_list::links_back(blocks, a),
        block::can_cut(a, blocks[a].payload, b),
        !blocks.contains_key(b),
        !blocks.contains_key(0),
        ({
            let rest = block::split_block(b, (blocks[a].payload - (b - a)) as nat, size);
            rest != 0 && rest != b && !blocks.contains_key(rest)
        }),
    ensures
        ({
            let rest = block::split_block(b, (blocks[a].payload - (b - a)) as nat, size);
            let cut = block::blocks_cut(blocks, a, b);
            let freed = block::blocks_freed(block::blocks_allocated(cut, b, size), b);
            let joint = block::blocks_joined(freed, a, b, false);
            &&& joint[a].payload == b - a + size
            &&& free_list::is_free(joint, a)
            &&& free_list::is_free(joint, rest)
            &&& joint[a].next == rest
            &&& block::blocks_joined(block::blocks_unlinked(joint, rest), a, rest, false) == blocks
        }),
{
    let rest = block::split_block(b, (blocks[a].payload - (b - a)) as nat, size);
    let cut = block::blocks_cut(blocks, a, b);
    let freed = block::blocks_freed(block::blocks_allocated(cut, b, size), b);
    let joint = block::blocks_joined(freed, a, b, false);
    let after = block::blocks_joined(block::blocks_unlinked(joint, rest), a, rest, false);
    assert(a < b < rest);
    assert(joint[rest].prev == a);
    assert(joint[rest].next == blocks[a].next);
    assert forall|c: int| #[trigger] after.contains_key(c) == blocks.contains_key(c) by {}
    assert forall|c: int| #[trigger] blocks.contains_key(c) implies after[c] == blocks[c] by {}
    assert(after =~= blocks);
}

/// The block before the one at `a` is the one that ends there.
proof fn lemma_left_is(h: HeapModel, p: int, a: int)
    requires
        h.formed(),
        h.is_init(),
        h.blocks.contains_key(a),
        free_list::is_left_of(h.blocks, p, a),
    ensures
        a != h.start,
        free_list::left_of(h.blocks, a) == p,
{
    let q = free_list::left_of(h.blocks, a);
    assert(h.blocks.contains_key(p));
    assert(free_list::is_left_of(h.blocks, q, a));
    assert(h.blocks.contains_key(q));
}

/// Of the memory that the heap has, the statistics count the bytes that users asked for and have not
/// given back, without and with the tags of their blocks, and no more than there are.
pub proof fn law_statistics_count_users(h: HeapModel)
    requires
        h.ok(),
    ensures
        h.user - h.past_user == usage::total(h.sizes, 0),
        h.real - h.past_real == usage::total(h.sizes, 16),
        forall|a: int| #[trigger] h.sizes.contains_key(a) == h.holds_user(a),
        0 <= h.user - h.past_user <= h.real - h.past_real <= h.end - h.start,
{
    assert forall|a: int| #[trigger] h.sizes.contains_key(a) implies h.start <= a && a + h.sizes[a]
        + 16 <= h.end by {
        assert(h.holds_user(a));
    }
    assert forall|a: int, b: int| #[trigger]
        h.sizes.contains_key(a) && #[trigger] h.sizes.contains_key(b) && a < b implies a
        + h.sizes[a] + 16 <= b by {
        assert(h.holds_user(a) && h.holds_user(b));
    }
    if h.is_init() {
        usage::lemma_total_fits(h.sizes, 16, h.start, h.end);
    } else {
        assert forall|a: int| !#[trigger] h.sizes.contains_key(a) by {
            assert(!h.holds_user(a));
        }
        usage::lemma_total_fits(h.sizes, 16, 0, 0);
    }
    usage::lemma_total_grows(h.sizes, 0, 16);
}

/// The block gives all its bytes, or all from where they start, to the user of the layout.
pub open spec fn takes_whole(h: HeapModel, layout: Layout) -> bool {
    block::split_block(
        h.taken(layout),
        h.prepared(layout).blocks[h.taken(layout)].payload,
        layout.payload(),
    ) == 0
}

/// Giving back what is allocated for the layout joins it with just what it was taken from: a free
/// block that is taken whole is the only one of the list, and one that is not has no free
/// neighbour on the side where the bytes are taken.
pub open spec fn can_undo(h: HeapModel, layout: Layout) -> bool {
    if h.is_cut(layout) {
        takes_whole(h, layout) ==> !h.right_is_free(h.fitting(layout))
    } else if takes_whole(h, layout) {
        h.list.len() == 1
    } else {
        !h.left_is_free(h.fitting(layout))
    }
}

/// Giving back at once what has been allocated restores the heap.
pub proof fn law_dealloc_undoes_allocate(h: HeapModel, layout: Layout)
    requires
        h.ok(),
        layout.valid(),
        h.fits(layout),
        can_undo(h, layout),
    ensures
        h.allocated(layout).deallocated(h.taken(layout), layout) == h,
{
    lemma_prepared(h, layout);
    law_allocate_adds_one_user(h, layout);
    let b = h.taken(layout);
    assert(!h.sizes.contains_key(b));
    assert(h.sizes.insert(b, layout.size as nat).remove(b) =~= h.sizes);
    if h.is_cut(layout) {
        lemma_cut_undone(h, layout);
    } else if takes_whole(h, layout) {
        lemma_whole_undone(h, layout);
    } else {
        lemma_split_undone(h, layout);
    }
}

proof fn lemma_whole_undone(h: HeapModel, layout: Layout)
    requires
        h.ok(),
        layout.valid(),
        h.fits(layout),
        !h.is_cut(layout),
        takes_whole(h, layout),
        h.list.len() == 1,
        h.sizes.insert(h.taken(layout), layout.size as nat).remove(h.taken(layout)) == h.sizes,
    ensures
        h.allocated(layout).deallocated(h.taken(layout), layout) == h,
{
    lemma_prepared(h, layout);
    let a = h.fitting(layout);
    let h1 = h.allocated(layout);
    let g = h1.deallocated(a, layout);
    assert(free_list::follows(h.blocks, h.list, 0));
    assert(h1.list.len() == 0);
    assert(g.list =~= h.list);
    assert(a > 0);
    assert(g.blocks =~= h.blocks);
}

proof fn lemma_split_undone(h: HeapModel, layout: Layout)
    requires
        h.ok(),
        layout.valid(),
        h.fits(layout),
        !h.is_cut(layout),
        !takes_whole(h, layout),
        !h.left_is_free(h.fitting(layout)),
        h.sizes.insert(h.taken(layout), layout.size as nat).remove(h.taken(layout)) == h.sizes,
    ensures
        h.allocated(layout).deallocated(h.taken(layout), layout) == h,
{
    lemma_prepared(h, layout);
    law_allocate_adds_one_user(h, layout);
    let size = layout.payload();
    let i = h.first_fit(layout, 0);
    let a = h.fitting(layout);
    let r = h.blocks[a];
    let b = block::split_block(a, r.payload, size);
    if h.blocks.contains_key(b) {
        assert(a < b < free_list::end_of(h.blocks, a));
    }
    lemma_split_joined(h.blocks, a, size);
    let h1 = h.allocated(layout);
    let h3 = h1.freed(a, layout);
    lemma_freed_left(h1, a, layout);
    if h3.left_is_free(a) {
        let p = free_list::left_of(h3.blocks, a);
        assert(free_list::is_left_of(h3.blocks, p, a));
        assert(p < a);
        assert(h.blocks.contains_key(p));
        assert(free_list::is_left_of(h.blocks, p, a));
        lemma_left_is(h, p, a);
    }
    assert(h1.list[i] == b);
    assert(h1.list.contains(b));
    assert(free_list::is_free(h3.blocks, h3.list[h3.list.index_of(b)]));
    assert(h1.list.index_of(b) == i);
    assert(free_list::list_replaced(h1.list, b, a) =~= h.list);
    assert(free_list::end_of(h3.blocks, a) == b);
    assert(h3.right_is_free(a));
    if free_list::list_head(h3.list) == a {
        assert(h3.list.contains(h3.list[0]));
    }
    assert(!free_list::is_linked(h3.blocks, h3.list, a));
    assert(h3.joined_right(a) == h);
}

#[verifier::rlimit(30)]
proof fn lemma_cut_undone(h: HeapModel, layout: Layout)
    requires
        h.ok(),
        layout.valid(),
        h.fits(layout),
        h.is_cut(layout),
        takes_whole(h, layout) ==> !h.right_is_free(h.fitting(layout)),
        h.sizes.insert(h.taken(layout), layout.size as nat).remove(h.taken(layout)) == h.sizes,
    ensures
        h.allocated(layout).deallocated(h.taken(layout), layout) == h,
{
    lemma_prepared(h, layout);
    law_allocate_adds_one_user(h, layout);
    let size = layout.payload();
    let i = h.first_fit(layout, 0);
    let a = h.fitting(layout);
    let b = h.taken(layout);
    let g = h.prepared(layout);
    let h1 = h.allocated(layout);
    let h3 = h1.freed(b, layout);
    lemma_freed_left(h1, b, layout);
    assert(a > 0);
    assert(h1.list[i] == a);
    assert(free_list::is_left_of(h3.blocks, a, b));
    lemma_left_is(h3, a, b);
    assert(h3.left_is_free(b));
    let h4 = h3.joined_left(b);
    let rest = block::split_block(b, g.blocks[b].payload, size);
    if rest == 0 {
        lemma_cut_joined(h.blocks, a, b, size);
        assert(h4.list =~= h.list);
        assert(h4 == h);
    } else {
        if h.blocks.contains_key(rest) {
            assert(a < rest < free_list::end_of(h.blocks, a));
        }
        lemma_cut_split_joined(h.blocks, a, b, size);
        assert(free_list::end_of(h4.blocks, a) == rest);
        assert(rest < h.end);
        assert(h4.right_is_free(a));
        assert(free_list::is_linked(h4.blocks, h4.list, a));
        assert(h4.list[i + 1] == rest);
        assert(h4.list.contains(rest));
        assert(free_list::is_free(h4.blocks, h4.list[h4.list.index_of(rest)]));
        assert(h4.list.index_of(rest) == i + 1);
        assert(free_list::list_removed(h4.list, rest) =~= h.list);
        assert(h4.joined_right(a) == h);
    }
}

/// What giving back a block does to the blocks, where the list is not empty: it is joined to its
/// free neighbours, and the other blocks stay.
proof fn lemma_dealloc_shape(h: HeapModel, a: int, layout: Layout)
    requires
        h.ok(),
        h.asked(a, layout),
        h.list.len() > 0,
    ensures
        ({
            let g = h.deallocated(a, layout);
            let h1 = h.freed(a, layout);
            let n = a + h.blocks[a].size();
            let left = h1.left_is_free(a);
            let right = h.blocks.contains_key(n) && !h.blocks[n].used;
            let b = h1.joint(a);
            &&& g.formed()
            &&& left ==> h.blocks.contains_key(b) && !h.blocks[b].used && b + h.blocks[b].size()
                == a
            &&& !left ==> b == a
            &&& forall|c: int| #[trigger]
                h.blocks.contains_key(c) && !h.blocks[c].used && c + h.blocks[c].size() == a
                    ==> left && c == b
            &&& g.blocks.contains_key(b)
            &&& !g.blocks[b].used
            &&& b + g.blocks[b].size() == n + (if right {
                h.blocks[n].size() as int
            } else {
                0
            })
            &&& forall|c: int| #[trigger]
                g.blocks.contains_key(c) == (h.blocks.contains_key(c) && !(left && c == a) && !(
                right && c == n))
            &&& forall|c: int| #[trigger]
                g.blocks.contains_key(c) && c != b ==> g.blocks[c].payload == h.blocks[c].payload
                    && g.blocks[c].used == h.blocks[c].used
        }),
{
    law_dealloc_removes_one_user(h, a, layout);
    lemma_left_shape(h, a, layout);
    let h2 = h.freed(a, layout).joined_left(a);
    let b = h.freed(a, layout).joint(a);
    lemma_right_shape(h2, b);
}

/// What joining a block that has been freed to the free block before it does to the blocks.
proof fn lemma_left_shape(h: HeapModel, a: int, layout: Layout)
    requires
        h.ok(),
        h.asked(a, layout),
    ensures
        ({
            let h1 = h.freed(a, layout);
            let g = h1.joined_left(a);
            let n = a + h.blocks[a].size();
            let left = h1.left_is_free(a);
            let b = h1.joint(a);
            &&& g.formed()
            &&& g.is_init()
            &&& left ==> h.blocks.contains_key(b) && !h.blocks[b].used && b + h.blocks[b].size()
                == a
            &&& !left ==> b == a
            &&& forall|c: int| #[trigger]
                h.blocks.contains_key(c) && !h.blocks[c].used && c + h.blocks[c].size() == a
                    ==> left && c == b
            &&& g.blocks.contains_key(b)
            &&& !g.blocks[b].used
            &&& b + g.blocks[b].size() == n
            &&& forall|c: int| #[trigger]
                g.blocks.contains_key(c) == (h.blocks.contains_key(c) && !(left && c == a))
            &&& forall|c: int| #[trigger]
                g.blocks.contains_key(c) && c != b ==> g.blocks[c] == h.blocks[c]
            &&& left ==> g.blocks[b].prev == h.blocks[b].prev && g.blocks[b].next
                == h.blocks[b].next
            &&& !left ==> g.blocks[b].prev == 0 && g.blocks[b].next == 0
            &&& g.list == h.list
        }),
{
    lemma_freed_left(h, a, layout);
    let h1 = h.freed(a, layout);
    let b = h1.joint(a);
    let left = h1.left_is_free(a);
    assert forall|c: int| #[trigger]
        h.blocks.contains_key(c) && !h.blocks[c].used && c + h.blocks[c].size() == a implies left
        && c == b by {
        assert(free_list::is_left_of(h1.blocks, c, a));
        lemma_left_is(h1, c, a);
    }
    if left {
        assert(h1.blocks.contains_key(a));
        assert(free_list::is_left_of(h1.blocks, b, a));
    }
}

/// What joining a free block to the free block behind it does to the blocks.
proof fn lemma_right_shape(h: HeapModel, b: int)
    requires
        h.formed(),
        h.is_init(),
        h.blocks.contains_key(b),
        !h.blocks[b].used,
    ensures
        ({
            let g = h.joined_right(b);
            let n = b + h.blocks[b].size();
            let right = h.blocks.contains_key(n) && !h.blocks[n].used;
            &&& right == h.right_is_free(b)
            &&& g.blocks.contains_key(b)
            &&& !g.blocks[b].used
            &&& b + g.blocks[b].size() == n + (if right {
                h.blocks[n].size() as int
            } else {
                0
            })
            &&& forall|c: int| #[trigger]
                g.blocks.contains_key(c) == (h.blocks.contains_key(c) && !(right && c == n))
            &&& forall|c: int| #[trigger]
                g.blocks.contains_key(c) && c != b ==> g.blocks[c].payload == h.blocks[c].payload
                    && g.blocks[c].used == h.blocks[c].used
        }),
{
    let n = free_list::end_of(h.blocks, b);
    if h.blocks.contains_key(n) {
        assert(n + h.blocks[n].size() <= h.end);
    } else {
        assert(h.blocks.contains_key(b));
    }
    if h.right_is_free(b) {
        assert(free_list::is_free(h.blocks, n));
        assert(free_list::links_back(h.blocks, n));
    }
}

/// A block that is given back is joined to the free block directly before it and to the one directly
/// behind it, where there are such blocks and the list is not empty. The blocks elsewhere stay as
/// they are.
pub proof fn law_dealloc_joins_free_neighbours(h: HeapModel, a: int, layout: Layout)
    requires
        h.ok(),
        h.asked(a, layout),
        h.list.len() > 0,
    ensures
        ({
            let g = h.deallocated(a, layout);
            let n = a + h.blocks[a].payload + 16;
            let right = h.blocks.contains_key(n) && !h.blocks[n].used;
            exists|b: int| #[trigger]
                g.blocks.contains_key(b) && {
                    let end = b + g.blocks[b].payload + 16;
                    &&& !g.blocks[b].used
                    &&& b == a || (h.blocks.contains_key(b) && !h.blocks[b].used && b
                        + h.blocks[b].payload + 16 == a)
                    &&& forall|c: int| #[trigger]
                        h.blocks.contains_key(c) && !h.blocks[c].used && c + h.blocks[c].payload
                            + 16 == a ==> b == c
                    &&& right ==> end == n + h.blocks[n].payload + 16
                    &&& !right ==> end == n
                    &&& forall|c: int|
                        c < b || end <= c ==> #[trigger] g.blocks.contains_key(c)
                            == h.blocks.contains_key(c)
                    &&& forall|c: int|
                        (c < b || end <= c) && #[trigger] g.blocks.contains_key(c)
                            ==> g.blocks[c].payload == h.blocks[c].payload && g.blocks[c].used
                            == h.blocks[c].used
                }
        }),
{
    lemma_dealloc_shape(h, a, layout);
    let b = h.freed(a, layout).joint(a);
    assert(h.deallocated(a, layout).blocks.contains_key(b));
}

/// Where the list is not empty, the block that contains the bytes that were given back has no free
/// block directly before it and none directly behind it, unless two free blocks were side by side
/// next to those bytes.
pub proof fn law_dealloc_leaves_no_free_neighbour(
    h: HeapModel,
    a: int,
    layout: Layout,
    b: int,
    c: int,
)
    requires
        h.ok(),
        h.asked(a, layout),
        h.list.len() > 0,
        forall|d: int, e: int| #[trigger]
            h.side_by_side(d, e) ==> e + h.blocks[e].payload + 16 != a && d != a
                + h.blocks[a].payload + 16,
        ({
            let g = h.deallocated(a, layout);
            &&& g.blocks.contains_key(b)
            &&& g.blocks.contains_key(c)
            &&& b + g.blocks[b].payload + 16 == c
            &&& b <= a < c || c <= a < c + g.blocks[c].payload + 16
        }),
    ensures
        h.deallocated(a, layout).blocks[b].used || h.deallocated(a, layout).blocks[c].used,
{
    lemma_dealloc_shape(h, a, layout);
    let g = h.deallocated(a, layout);
    let k = h.freed(a, layout).joint(a);
    let n = a + h.blocks[a].size();
    assert(k <= a < k + g.blocks[k].size());
    assert(g.blocks.contains_key(k));
    if b <= a < c {
        assert(b == k) by {
            if b < k {
                assert(b + g.blocks[b].size() <= k);
            } else if k < b {
                assert(k + g.blocks[k].size() <= b);
            }
        }
        if !g.blocks[c].used {
            assert(h.blocks.contains_key(c) && !h.blocks[c].used);
            if h.blocks.contains_key(n) && !h.blocks[n].used {
                assert(h.side_by_side(n, c));
            }
        }
    } else {
        assert(c == k) by {
            if c < k {
                assert(c + g.blocks[c].size() <= k);
            } else if k < c {
                assert(k + g.blocks[k].size() <= c);
            }
        }
        if !g.blocks[b].used {
            assert(h.blocks.contains_key(b) && !h.blocks[b].used);
            if k != a {
                assert(h.side_by_side(b, k));
            }
        }
    }
}

/// Where no two free blocks are side by side and the list is not empty, so it is after a block has
/// been given back.
pub proof fn law_dealloc_keeps_free_blocks_apart(h: HeapModel, a: int, layout: Layout)
    requires
        h.ok(),
        h.asked(a, layout),
        h.list.len() > 0,
        forall|d: int, e: int| !#[trigger] h.side_by_side(d, e),
    ensures
        forall|d: int, e: int| !#[trigger] h.deallocated(a, layout).side_by_side(d, e),
{
    let g = h.deallocated(a, layout);
    lemma_dealloc_shape(h, a, layout);
    let k = h.freed(a, layout).joint(a);
    assert forall|d: int, e: int| !#[trigger] g.side_by_side(d, e) by {
        if g.side_by_side(d, e) {
            if d <= a < e || e <= a < e + g.blocks[e].payload + 16 {
                law_dealloc_leaves_no_free_neighbour(h, a, layout, d, e);
            } else {
                assert(k <= a < k + g.blocks[k].size());
                assert(d != k && e != k);
                assert(g.blocks.contains_key(d) && g.blocks.contains_key(e));
                assert(h.side_by_side(d, e));
            }
        }
    }
}

/// What is in a list after one has left it.
proof fn lemma_in_removed(list: Seq<int>, i: int)
    requires
        list.no_duplicates(),
        0 <= i < list.len(),
    ensures
        forall|c: int| #[trigger]
            list.remove(i).contains(c) == (list.contains(c) && c != list[i]),
{
    let less = list.remove(i);
    assert forall|c: int| #[trigger] less.contains(c) == (list.contains(c) && c != list[i]) by {
        if less.contains(c) {
            let j = less.index_of(c);
            assert(list[if j < i {
                j
            } else {
                j + 1
            }] == c);
        }
        if list.contains(c) && c != list[i] {
            let j = list.index_of(c);
            assert(less[if j < i {
                j
            } else {
                j - 1
            }] == c);
        }
    }
}

/// What is in a list after one has taken the place of another.
proof fn lemma_in_updated(list: Seq<int>, i: int, b: int)
    requires
        list.no_duplicates(),
        0 <= i < list.len(),
    ensures
        forall|c: int| #[trigger]
            list.update(i, b).contains(c) == ((list.contains(c) && c != list[i]) || c == b),
{
    let other = list.update(i, b);
    assert forall|c: int| #[trigger]
        other.contains(c) == ((list.contains(c) && c != list[i]) || c == b) by {
        if other.contains(c) {
            let j = other.index_of(c);
            if j != i {
                assert(list[j] == c);
            }
        }
        if c == b {
            assert(other[i] == c);
        } else if list.contains(c) && c != list[i] {
            let j = list.index_of(c);
            assert(other[j] == c);
        }
    }
}

/// The neighbours of a listed block in the list are listed.
proof fn lemma_neighbours_listed(h: HeapModel, n: int)
    requires
        h.formed(),
        h.is_init(),
        h.list.contains(n),
    ensures
        h.list.no_duplicates(),
        h.blocks[n].prev != 0 ==> h.list.contains(h.blocks[n].prev),
        h.blocks[n].next != 0 ==> h.list.contains(h.blocks[n].next),
        free_list::is_linked(h.blocks, h.list, n),
{
    let i = h.list.index_of(n);
    assert(!h.blocks.contains_key(0));
    free_list::lemma_list_prev(h.blocks, h.list, i);
    assert(free_list::follows(h.blocks, h.list, i));
    if i > 0 {
        assert(free_list::is_free(h.blocks, h.list[i - 1]));
        assert(h.list.contains(h.list[i - 1]));
    }
    if i + 1 < h.list.len() {
        assert(h.list.contains(h.list[i + 1]));
    }
}

/// The list after a free block has been joined to the one behind it.
proof fn lemma_right_list(h: HeapModel, b: int)
    requires
        h.formed(),
        h.is_init(),
        h.one_list(),
        h.blocks.contains_key(b),
        !h.blocks[b].used,
    ensures
        ({
            let g = h.joined_right(b);
            let n = b + h.blocks[b].size();
            &&& g.one_list()
            &&& g.list == (if !h.list.contains(n) {
                h.list
            } else if h.list.contains(b) {
                h.list.remove(h.list.index_of(n))
            } else {
                h.list.update(h.list.index_of(n), b)
            })
            &&& g.list.contains(b) <==> h.list.contains(b) || h.list.contains(n)
            &&& forall|c: int|
                c != b && c != n ==> #[trigger] g.list.contains(c) == h.list.contains(c)
            &&& n != b ==> !(g.list.contains(n) && h.right_is_free(b))
        }),
{
    let g = h.joined_right(b);
    let n = free_list::end_of(h.blocks, b);
    lemma_right_shape(h, b);
    if h.list.contains(b) {
        lemma_neighbours_listed(h, b);
    } else if h.list.len() > 0 {
        assert(h.list.contains(h.list[0]));
    }
    if h.list.contains(n) {
        let i = h.list.index_of(n);
        assert(free_list::is_free(h.blocks, h.list[i]));
        lemma_neighbours_listed(h, n);
        lemma_in_removed(h.list, i);
        lemma_in_updated(h.list, i, b);
    }
    assert forall|c: int| #[trigger]
        g.blocks.contains_key(c) && !g.blocks[c].used && !g.list.contains(c) implies g.blocks[c].prev
        == 0 && g.blocks[c].next == 0 by {
        if h.right_is_free(b) {
            assert(free_list::is_free(h.blocks, n));
            assert(free_list::links_back(h.blocks, n));
        }
        assert(h.blocks.contains_key(c));
    }
}

/// After a block has been given back to a heap whose list is not empty, the block that contains its
/// bytes is in the list just where one that it has been joined to was, at the place of the one
/// before it or else of the one behind it. The other blocks keep their places.
pub proof fn law_dealloc_lists_joint_block(h: HeapModel, a: int, layout: Layout, b: int)
    requires
        h.ok(),
        h.one_list(),
        h.asked(a, layout),
        h.list.len() > 0,
        h.deallocated(a, layout).blocks.contains_key(b),
        b <= a < b + h.deallocated(a, layout).blocks[b].payload + 16,
    ensures
        ({
            let g = h.deallocated(a, layout);
            let n = a + h.blocks[a].payload + 16;
            &&& g.list.contains(b) <==> exists|c: int| #[trigger]
                h.list.contains(c) && (c + h.blocks[c].payload + 16 == a || c == n)
            &&& forall|c: int|
                c < b || b + g.blocks[b].payload + 16 <= c ==> #[trigger] g.list.contains(c)
                    == h.list.contains(c)
            &&& !h.list.contains(n) ==> g.list == h.list
            &&& h.list.contains(n) && h.list.contains(b) ==> g.list == h.list.remove(
                h.list.index_of(n),
            )
            &&& h.list.contains(n) && !h.list.contains(b) ==> g.list == h.list.update(
                h.list.index_of(n),
                b,
            )
        }),
{
    lemma_dealloc_shape(h, a, layout);
    lemma_left_shape(h, a, layout);
    lemma_left_list(h, a, layout);
    let g = h.deallocated(a, layout);
    let h2 = h.freed(a, layout).joined_left(a);
    let k = h.freed(a, layout).joint(a);
    let n = a + h.blocks[a].payload + 16;
    assert(g.blocks.contains_key(k));
    assert(b == k) by {
        if b < k {
            assert(b + g.blocks[b].size() <= k);
        } else if k < b {
            assert(k + g.blocks[k].size() <= b);
        }
    }
    lemma_right_list(h2, k);
    if exists|c: int| #[trigger]
        h.list.contains(c) && (c + h.blocks[c].payload + 16 == a || c == n) {
        let c = choose|c: int| #[trigger]
            h.list.contains(c) && (c + h.blocks[c].payload + 16 == a || c == n);
        assert(free_list::is_free(h.blocks, h.list[h.list.index_of(c)]));
        assert(h.blocks.contains_key(c));
    }
    if h.list.contains(k) {
        assert(free_list::is_free(h.blocks, h.list[h.list.index_of(k)]));
        assert(k != a);
    }
    if h.list.contains(n) {
        assert(free_list::is_free(h.blocks, h.list[h.list.index_of(n)]));
    }
}

proof fn lemma_left_list(h: HeapModel, a: int, layout: Layout)
    requires
        h.ok(),
        h.one_list(),
        h.asked(a, layout),
    ensures
        h.freed(a, layout).one_list(),
        h.freed(a, layout).joined_left(a).one_list(),
{
    lemma_left_shape(h, a, layout);
    let g = h.freed(a, layout).joined_left(a);
    assert forall|c: int| #[trigger]
        g.blocks.contains_key(c) && !g.blocks[c].used && !g.list.contains(c) implies g.blocks[c].prev
        == 0 && g.blocks[c].next == 0 by {
        assert(h.blocks.contains_key(c));
    }
}

/// Giving back a block puts no block into another list.
pub proof fn law_dealloc_keeps_one_list(h: HeapModel, a: int, layout: Layout)
    requires
        h.ok(),
        h.one_list(),
        h.asked(a, layout),
    ensures
        h.deallocated(a, layout).one_list(),
{
    let g = h.deallocated(a, layout);
    lemma_left_shape(h, a, layout);
    lemma_left_list(h, a, layout);
    if h.list.len() == 0 {
        assert forall|c: int| #[trigger]
            g.blocks.contains_key(c) && !g.blocks[c].used && !g.list.contains(c) implies
            g.blocks[c].prev == 0 && g.blocks[c].next == 0 by {
            assert(g.list[0] == a);
            assert(h.blocks.contains_key(c));
        }
    } else {
        lemma_right_list(h.freed(a, layout).joined_left(a), h.freed(a, layout).joint(a));
    }
}

/// Bytes of a free block that would do are never before those that are looked for.
proof fn lemma_would_do(layout: Layout, a: int, payload: nat, p: int, n: int)
    requires
        layout.valid(),
        layout.would_do(a, payload, p, n),
    ensures
        layout.place(a) <= p,
        layout.payload() <= n,
        layout.fits_in(a, payload),
{
    let k = choose|k: nat| layout.align == #[trigger] pow2(k);
    let m = layout.align as int;
    lemma_pow2_pos(k);
    lemma_round_up(a + 40, m);
    if (a + 8) % m != 0 {
        let q = layout.place(a);
        assert(k > 0) by {
            if k == 0 {
                lemma2_to64();
            }
        }
        lemma_pow2_unfold(k);
        let half = pow2((k - 1) as nat) as int;
        vstd::arithmetic::div_mod::lemma_fundamental_div_mod(p, m);
        vstd::arithmetic::div_mod::lemma_fundamental_div_mod(q, m);
        let x = p / m;
        let y = q / m;
        if p < q {
            assert(p + m <= q) by (nonlinear_arith)
                requires
                    p == m * x,
                    q == m * y,
                    p < q,
                    m > 0,
            ;
        }
        assert(p - q == 2 * (half * (x - y))) by (nonlinear_arith)
            requires
                p == m * x,
                q == m * y,
                m == 2 * half,
        ;
    }
}

/// The bytes that are looked for would do.
proof fn lemma_fits_would_do(layout: Layout, a: int, payload: nat)
    requires
        layout.valid(),
        layout.fits_in(a, payload),
    ensures
        layout.would_do(a, payload, layout.place(a), layout.payload() as int),
{
    layout.lemma_place(a);
    layout.lemma_payload();
}

/// Where a block of the list is at a place that suits the alignment and has a payload of at least 16
/// bytes, at least the alignment and at least the size, rounded up to an even number, the layout can
/// be satisfied.
pub proof fn law_large_enough_blocks_can_be_allocated(h: HeapModel, layout: Layout, a: int)
    requires
        h.ok(),
        layout.valid(),
        h.list.contains(a),
        (a + 8) % (layout.align as int) == 0,
        h.blocks[a].payload >= layout.size + layout.size % 2,
        h.blocks[a].payload >= layout.align,
        h.blocks[a].payload >= 16,
    ensures
        h.fits(layout),
{
    h.lemma_first_fit(layout, 0);
    let i = h.list.index_of(a);
    assert(h.list[i] == a);
    assert(layout.fits_in(a, h.blocks[a].payload));
}

/// A layout can be satisfied just where a block of the list has bytes that would do. They come from
/// the first such block of the list, and from the first place in it.
pub proof fn law_allocate_takes_first_fit(h: HeapModel, layout: Layout)
    requires
        h.ok(),
        layout.valid(),
    ensures
        h.fits(layout) <==> exists|i: int, p: int, n: int|
            0 <= i < h.list.len() && #[trigger] layout.would_do(
                h.list[i],
                h.blocks[h.list[i]].payload,
                p,
                n,
            ),
        h.fits(layout) ==> exists|i: int| {
            &&& 0 <= i < h.list.len()
            &&& #[trigger] h.list[i] == h.fitting(layout)
            &&& forall|j: int, p: int, n: int|
                0 <= j < i ==> !#[trigger] layout.would_do(
                    h.list[j],
                    h.blocks[h.list[j]].payload,
                    p,
                    n,
                )
            &&& forall|p: int, n: int| #[trigger]
                layout.would_do(h.list[i], h.blocks[h.list[i]].payload, p, n) ==> h.taken(layout)
                    + 8 <= p
        },
{
    h.lemma_first_fit(layout, 0);
    let i = h.first_fit(layout, 0);
    assert forall|j: int, p: int, n: int|
        0 <= j < h.list.len() && #[trigger] layout.would_do(
            h.list[j],
            h.blocks[h.list[j]].payload,
            p,
            n,
        ) implies i <= j by {
        lemma_would_do(layout, h.list[j], h.blocks[h.list[j]].payload, p, n);
    }
    if h.fits(layout) {
        let a = h.list[i];
        lemma_fits_would_do(layout, a, h.blocks[a].payload);
        assert forall|p: int, n: int| #[trigger]
            layout.would_do(a, h.blocks[a].payload, p, n) implies h.taken(layout) + 8 <= p by {
            lemma_would_do(layout, a, h.blocks[a].payload, p, n);
        }
    }
}

/// What allocating does to the blocks: the block that gives the bytes is cut into what is before
/// them, the block that the user gets, and what is behind, and the other blocks stay.
proof fn lemma_allocate_shape(h: HeapModel, layout: Layout)
    requires
        h.ok(),
        layout.valid(),
        h.fits(layout),
    ensures
        ({
            let g = h.allocated(layout);
            let a = h.fitting(layout);
            let t = h.taken(layout);
            let end = a + h.blocks[a].size();
            let e = t + g.blocks[t].size();
            let i = h.first_fit(layout, 0);
            &&& g.formed()
            &&& g.is_init()
            &&& 0 <= i < h.list.len()
            &&& h.list[i] == a
            &&& h.blocks.contains_key(a)
            &&& !h.blocks[a].used
            &&& t == a || t >= a + 32
            &&& g.blocks.contains_key(t)
            &&& g.blocks[t].used
            &&& layout.payload() <= g.blocks[t].payload < layout.payload() + 32
            &&& e <= end
            &&& t != a ==> g.blocks.contains_key(a) && !g.blocks[a].used && a + g.blocks[a].size()
                == t
            &&& e != end ==> g.blocks.contains_key(e) && !g.blocks[e].used && e + g.blocks[e].size()
                == end
            &&& forall|c: int| #[trigger]
                g.blocks.contains_key(c) == (h.blocks.contains_key(c) || c == t || (e != end && c
                    == e))
            &&& forall|c: int|
                c != a && #[trigger] h.blocks.contains_key(c) ==> g.blocks[c].payload
                    == h.blocks[c].payload && g.blocks[c].used == h.blocks[c].used
            &&& g.list == h.list.take(i) + (if t != a {
                seq![a]
            } else {
                seq![]
            }) + (if e != end {
                seq![e]
            } else {
                seq![]
            }) + h.list.skip(i + 1)
        }),
{
    law_allocate_adds_one_user(h, layout);
    lemma_prepared(h, layout);
    layout.lemma_place(h.fitting(layout));
    layout.lemma_payload();
    let f = h.prepared(layout);
    let g = h.allocated(layout);
    let a = h.fitting(layout);
    let t = h.taken(layout);
    let i = h.first_fit(layout, 0);
    let e = t + g.blocks[t].size();
    let end = a + h.blocks[a].size();
    assert(!h.blocks.contains_key(0) && !f.blocks.contains_key(0));
    assert(f.blocks[t].payload + t == h.blocks[a].payload + a);
    lemma_reduced_shape(f, t, layout.payload());
    assert(free_list::links_back(h.blocks, a));
    assert(g.list =~= h.list.take(i) + (if t != a {
        seq![a]
    } else {
        seq![]
    }) + (if e != end {
        seq![e]
    } else {
        seq![]
    }) + h.list.skip(i + 1));
}

proof fn lemma_reduced_shape(h: HeapModel, a: int, size: nat)
    requires
        h.formed(),
        h.is_init(),
        free_list::is_free(h.blocks, a),
        free_list::links_back(h.blocks, a),
        h.blocks[a].payload >= size,
        !h.blocks.contains_key(0),
    ensures
        ({
            let g = block::blocks_allocated(h.blocks, a, size);
            let end = a + h.blocks[a].size();
            let e = a + g[a].size();
            &&& g.contains_key(a)
            &&& g[a].used
            &&& size <= g[a].payload < size + 32
            &&& e <= end
            &&& block::split_block(a, h.blocks[a].payload, size) == (if e != end {
                e
            } else {
                0
            })
            &&& e != end ==> g.contains_key(e) && !g[e].used && e + g[e].size() == end
                && !h.blocks.contains_key(e)
            &&& forall|c: int| #[trigger]
                g.contains_key(c) == (h.blocks.contains_key(c) || (e != end && c == e))
            &&& forall|c: int|
                c != a && #[trigger] h.blocks.contains_key(c) ==> g[c].payload
                    == h.blocks[c].payload && g[c].used == h.blocks[c].used
        }),
{
    let e = a + size + 16;
    assert(h.blocks.contains_key(a));
    if h.blocks.contains_key(e) && h.blocks[a].payload >= size + 32 {
        assert(a + h.blocks[a].size() <= e);
    }
    assert(h.start <= a);
}

/// The block that a user gets has enough bytes and hardly more: as many as would do, and at most 30
/// more, which are too few for a block of their own.
pub proof fn law_allocate_is_tight(h: HeapModel, layout: Layout)
    requires
        h.ok(),
        layout.valid(),
        h.fits(layout),
    ensures
        ({
            let payload = h.allocated(layout).blocks[h.taken(layout)].payload;
            &&& payload >= layout.size + layout.size % 2
            &&& payload >= layout.align
            &&& payload >= 16
            &&& payload < layout.size + layout.size % 2 + 32 || payload < layout.align + 32
                || payload < 16 + 32
        }),
{
    lemma_allocate_shape(h, layout);
    layout.lemma_payload();
}

/// What is left of the block from which a user gets bytes stays in the list, at its place and in the
/// order of the addresses. The other blocks stay as they are, and so do their places in the list.
pub proof fn law_allocate_keeps_the_rest(h: HeapModel, layout: Layout)
    requires
        h.ok(),
        layout.valid(),
        h.fits(layout),
    ensures
        ({
            let g = h.allocated(layout);
            let a = h.fitting(layout);
            let t = h.taken(layout);
            let end = a + h.blocks[a].payload + 16;
            let e = t + g.blocks[t].payload + 16;
            &&& a <= t
            &&& e <= end
            &&& t != a ==> g.blocks.contains_key(a) && !g.blocks[a].used && a + g.blocks[a].payload
                + 16 == t
            &&& e != end ==> g.blocks.contains_key(e) && !g.blocks[e].used && e
                + g.blocks[e].payload + 16 == end
            &&& forall|c: int|
                c < a || end <= c ==> #[trigger] g.blocks.contains_key(c) == h.blocks.contains_key(
                    c,
                )
            &&& forall|c: int|
                (c < a || end <= c) && #[trigger] g.blocks.contains_key(c) ==> g.blocks[c].payload
                    == h.blocks[c].payload && g.blocks[c].used == h.blocks[c].used
            &&& exists|i: int|
                0 <= i < h.list.len() && #[trigger] h.list[i] == a && g.list == h.list.take(i) + (
                if t != a {
                    seq![a]
                } else {
                    seq![]
                }) + (if e != end {
                    seq![e]
                } else {
                    seq![]
                }) + h.list.skip(i + 1)
        }),
{
    lemma_allocate_shape(h, layout);
    let i = h.first_fit(layout, 0);
    assert(h.list[i] == h.fitting(layout));
}

/// The statistics grow by the size that is asked for, and with the tags of the block by 16 bytes
/// more; giving the block back takes the same away.
pub proof fn law_statistics_follow_users(h: HeapModel, a: int, layout: Layout)
    ensures
        h.allocated(layout).user == h.user + layout.size,
        h.allocated(layout).real == h.real + layout.size + 16,
        h.deallocated(a, layout).user == h.user - layout.size,
        h.deallocated(a, layout).real == h.real - layout.size - 16,
        h.allocated(layout).start == h.start,
        h.allocated(layout).end == h.end,
        h.deallocated(a, layout).start == h.start,
        h.deallocated(a, layout).end == h.end,
{
}

/// Where no two free blocks are side by side, so it is after a block has been allocated.
pub proof fn law_allocate_keeps_free_blocks_apart(h: HeapModel, layout: Layout)
    requires
        h.ok(),
        layout.valid(),
        h.fits(layout),
        forall|d: int, e: int| !#[trigger] h.side_by_side(d, e),
    ensures
        forall|d: int, e: int| !#[trigger] h.allocated(layout).side_by_side(d, e),
{
    lemma_allocate_shape(h, layout);
    let g = h.allocated(layout);
    let a = h.fitting(layout);
    let t = h.taken(layout);
    let end = a + h.blocks[a].size();
    let r = t + g.blocks[t].size();
    assert forall|d: int, e: int| !#[trigger] g.side_by_side(d, e) by {
        if g.side_by_side(d, e) {
            assert(g.blocks.contains_key(d) && g.blocks.contains_key(e));
            assert(d != t && e != t);
            if e == a {
                assert(h.blocks.contains_key(d));
                assert(d != a);
                assert(h.side_by_side(d, a));
            } else if e == r && r != end {
                // before what is left over is the block of the user
                assert(g.blocks.contains_key(t));
                assert(d + g.blocks[d].size() <= t || t + g.blocks[t].size() <= d);
                assert(false);
            } else if d == r && r != end {
                assert(h.blocks.contains_key(e));
                assert(h.side_by_side(a, e));
            } else if d == a {
                assert(t != a);
            } else {
                assert(h.side_by_side(d, e));
            }
        }
    }
}

/// Allocating puts no block into another list.
pub proof fn law_allocate_keeps_one_list(h: HeapModel, layout: Layout)
    requires
        h.ok(),
        h.one_list(),
        layout.valid(),
        h.fits(layout),
    ensures
        h.allocated(layout).one_list(),
{
    lemma_prepared(h, layout);
    lemma_prepared_one_list(h, layout);
    lemma_reduced_one_list(h.prepared(layout), h.spot(layout), layout.payload(), layout);
}

proof fn lemma_prepared_one_list(h: HeapModel, layout: Layout)
    requires
        h.ok(),
        h.one_list(),
        layout.valid(),
        h.fits(layout),
    ensures
        h.prepared(layout).one_list(),
{
    lemma_prepared(h, layout);
    let f = h.prepared(layout);
    let a = h.fitting(layout);
    let t = h.taken(layout);
    let i = h.first_fit(layout, 0);
    assert(h.list.contains(a)) by {
        assert(h.list[i] == a);
    }
    lemma_neighbours_listed(h, a);
    if h.is_cut(layout) {
        assert forall|c: int| h.list.contains(c) implies #[trigger] f.list.contains(c) by {
            let x = h.list.index_of(c);
            assert(f.list[if x <= i {
                x
            } else {
                x + 1
            }] == c);
        }
        assert(f.list[i + 1] == t);
        assert(f.list.contains(t));
        assert forall|c: int| #[trigger]
            f.blocks.contains_key(c) && !f.blocks[c].used && !f.list.contains(c) implies
            f.blocks[c].prev == 0 && f.blocks[c].next == 0 by {
            assert(!h.list.contains(c));
            assert(h.blocks.contains_key(c));
        }
    }
}

proof fn lemma_reduced_one_list(h: HeapModel, i: int, size: nat, layout: Layout)
    requires
        h.formed(),
        h.one_list(),
        0 <= i < h.list.len(),
        h.blocks[h.list[i]].payload >= size,
    ensures
        h.reduced(i, size, layout).one_list(),
{
    let a = h.list[i];
    let g = h.reduced(i, size, layout);
    assert(h.list.contains(a));
    assert(free_list::is_free(h.blocks, a));
    assert(free_list::links_back(h.blocks, a));
    assert(!h.blocks.contains_key(0));
    lemma_neighbours_listed(h, a);
    let rest = block::split_block(a, h.blocks[a].payload, size);
    lemma_reduced_shape(h, a, size);
    lemma_in_removed(h.list, i);
    lemma_in_updated(h.list, i, rest);
    assert forall|c: int| #[trigger]
        g.blocks.contains_key(c) && !g.blocks[c].used && !g.list.contains(c) implies g.blocks[c].prev
        == 0 && g.blocks[c].next == 0 by {
        assert(c != a);
        assert(h.blocks.contains_key(c));
        assert(!h.list.contains(c));
    }
}

/// What a user has been given can be given back with the same layout, until it has been, whatever
/// other users do.
pub proof fn law_what_is_allocated_can_be_given_back(h: HeapModel, layout: Layout)
    requires
        h.ok(),
        layout.valid(),
        h.fits(layout),
    ensures
        h.allocated(layout).asked(h.taken(layout), layout),
        forall|c: int, l: Layout| #[trigger]
            h.asked(c, l) ==> h.allocated(layout).asked(c, l),
        forall|a: int, m: Layout, c: int, l: Layout|
            #![trigger h.asked(a, m), h.asked(c, l)]
            h.asked(a, m) && h.asked(c, l) && c != a ==> h.deallocated(a, m).asked(c, l),
        forall|a: int, m: Layout, l: Layout|
            #![trigger h.asked(a, m), h.deallocated(a, m).asked(a, l)]
            h.asked(a, m) ==> !h.deallocated(a, m).asked(a, l),
{
    law_allocate_adds_one_user(h, layout);
    lemma_prepared(h, layout);
    assert forall|a: int, m: Layout, c: int, l: Layout|
        #![trigger h.asked(a, m), h.asked(c, l)]
        h.asked(a, m) && h.asked(c, l) && c != a implies h.deallocated(a, m).asked(c, l) by {
        law_dealloc_removes_one_user(h, a, m);
        assert(h.deallocated(a, m).holds_user(c));
    }
    assert forall|a: int, m: Layout, l: Layout|
        #![trigger h.asked(a, m), h.deallocated(a, m).asked(a, l)]
        h.asked(a, m) implies !h.deallocated(a, m).asked(a, l) by {
        law_dealloc_removes_one_user(h, a, m);
        assert(!h.deallocated(a, m).holds_user(a));
    }
}

/// A block that is given back where the list is empty is the list, and no block changes but that it
/// is free.
pub proof fn law_dealloc_starts_the_list(h: HeapModel, a: int, layout: Layout)
    requires
        h.ok(),
        h.asked(a, layout),
        h.list.len() == 0,
    ensures
        h.deallocated(a, layout).list == seq![a],
        h.deallocated(a, layout).blocks.dom() == h.blocks.dom(),
        !h.deallocated(a, layout).blocks[a].used,
        forall|c: int| #[trigger]
            h.blocks.contains_key(c) ==> h.deallocated(a, layout).blocks[c].payload
                == h.blocks[c].payload,
        forall|c: int|
            c != a && #[trigger] h.blocks.contains_key(c) ==> h.deallocated(a, layout).blocks[c]
                == h.blocks[c],
{
    assert(h.deallocated(a, layout).blocks.dom() =~= h.blocks.dom());
}

/// When nobody holds a block and no two free blocks are side by side, one free block covers the
/// heap, and no other is in the list.
pub proof fn law_unused_heap_is_one_block(h: HeapModel)
    requires
        h.ok(),
        h.is_init(),
        forall|a: int| !#[trigger] h.holds_user(a),
        forall|b: int, c: int| !#[trigger] h.side_by_side(b, c),
    ensures
        h.blocks.contains_key(h.start),
        h.start + h.blocks[h.start].payload + 16 == h.end,
        forall|c: int| #[trigger] h.blocks.contains_key(c) ==> c == h.start,
        h.list.len() > 0 ==> h.list == seq![h.start],
{
    let s = h.start;
    let n = free_list::end_of(h.blocks, s);
    assert(!h.holds_user(s));
    if n != h.end {
        assert(h.blocks.contains_key(n));
        assert(!h.holds_user(n));
        assert(h.side_by_side(s, n));
    }
    assert forall|c: int| #[trigger] h.blocks.contains_key(c) implies c == s by {
        assert(s <= c && c + h.blocks[c].size() <= h.end);
    }
    if h.list.len() > 0 {
        assert forall|i: int| 0 <= i < h.list.len() implies #[trigger] h.list[i] == s by {
            assert(free_list::is_free(h.blocks, h.list[i]));
        }
        assert(h.list.len() == 1) by {
            if h.list.len() > 1 {
                assert(h.list[0] == s && h.list[1] == s);
            }
        }
        assert(h.list =~= seq![s]);
    }
}

} // verus!
