//! Blocks of memory with a tag at either end.
//!
//! A block at address `a` with a payload of `n` bytes lies in memory as a header at `a`, the
//! payload at `a + 8` and a footer at `a + 8 + n`. Header and footer hold the size of the payload
//! and, in the lowest bit, whether the block is used. While a block is free, the first two words
//! of its payload link it into a list: the block before it and the block behind it, 0 where there
//! is none.

use crate::memory::{self, Memory};
use vstd::prelude::*;

verus! {

/// The address that stands for no block.
pub const NULL: usize = 0;

/// The size of the payload that a tag holds.
pub open spec fn tag_payload(w: nat) -> nat {
    (w - w % 2) as nat
}

/// Whether a tag marks its block as used.
pub open spec fn tag_used(w: nat) -> bool {
    w % 2 == 1
}

/// The tag of a block.
pub open spec fn tag(payload: nat, used: bool) -> nat {
    if used {
        payload + 1
    } else {
        payload
    }
}

/// The size of a payload, which is even, and in the last bit whether the block is used.
#[derive(Debug, Default, Clone, Copy, PartialEq, Eq)]
pub struct BlockMetaInfo(usize);

impl BlockMetaInfo {
    /// The size of a tag in memory.
    pub const SIZE: usize = 8;

    /// The tag as a number.
    pub closed spec fn value(&self) -> nat {
        self.0 as nat
    }

    fn from_word(w: usize) -> (r: Self)
        ensures
            r.value() == w,
    {
        BlockMetaInfo(w)
    }

    fn word(&self) -> (w: usize)
        ensures
            w == self.value(),
    {
        self.0
    }

    pub fn new(payload_size: usize, used: bool) -> (r: Self)
        requires
            payload_size % 2 == 0,
        ensures
            r.value() == tag(payload_size as nat, used),
            tag_payload(r.value()) == payload_size,
            tag_used(r.value()) == used,
    {
        let bit: usize = if used {
            1
        } else {
            0
        };
        assert((payload_size | 0) == payload_size) by (bit_vector);
        assert(payload_size % 2 == 0 ==> (payload_size | 1) == payload_size + 1) by (bit_vector);
        // The last bit is free for the mark since payload sizes are even.
        BlockMetaInfo(payload_size | bit)
    }

    pub fn is_used(&self) -> (r: bool)
        ensures
            r == tag_used(self.value()),
    {
        let w: usize = self.0;
        assert(w & 1 == w % 2) by (bit_vector);
        (w & 1) == 1
    }

    pub fn payload_size(&self) -> (r: usize)
        ensures
            r == tag_payload(self.value()),
    {
        let w: usize = self.0;
        assert(w & !1 == w - w % 2) by (bit_vector);
        w & !1
    }

    pub fn set_used(&mut self, used: bool)
        ensures
            final(self).value() == tag(tag_payload(old(self).value()), used),
            tag_payload(final(self).value()) == tag_payload(old(self).value()),
            tag_used(final(self).value()) == used,
    {
        let w: usize = self.0;
        assert(w & !1 == w - w % 2) by (bit_vector);
        assert(w | 1 == w - w % 2 + 1) by (bit_vector);
        if used {
            self.0 = w | 1;
        } else {
            self.0 = w & !1;
        }
    }

    /// Replaces the size. An odd size marks the block as used.
    pub fn set_payload_size(&mut self, payload_size: usize)
        ensures
            final(self).value() == tag(
                tag_payload(payload_size as nat),
                tag_used(old(self).value()) || payload_size % 2 == 1,
            ),
    {
        let bit: usize = if self.is_used() {
            1
        } else {
            0
        };
        assert((payload_size | 0) == payload_size) by (bit_vector);
        assert(payload_size | 1 == payload_size - payload_size % 2 + 1) by (bit_vector);
        self.0 = payload_size | bit;
    }
}

/// The size of the payload of the block at `a`.
pub open spec fn payload_at(m: Memory<'_>, a: int) -> nat {
    tag_payload(m.word_at(a))
}

/// The block at `a` is marked as used.
pub open spec fn used_at(m: Memory<'_>, a: int) -> bool {
    tag_used(m.word_at(a))
}

/// The address of the footer of the block at `a`.
pub open spec fn footer_at(m: Memory<'_>, a: int) -> int {
    a + 8 + payload_at(m, a)
}

/// The header at `a` describes a block that lies in the memory.
pub open spec fn block_at(m: Memory<'_>, a: int) -> bool {
    &&& m.wf()
    &&& m.base() <= a
    &&& a + 16 <= m.limit()
    &&& m.word_at(a) <= usize::MAX
    &&& a + 16 + payload_at(m, a) <= m.limit()
}

/// A free block with room for its links lies at `a`.
pub open spec fn free_at(m: Memory<'_>, a: int) -> bool {
    &&& block_at(m, a)
    &&& !used_at(m, a)
    &&& payload_at(m, a) >= 16
}

/// The blocks at `a` and `b` have no byte in common.
pub open spec fn blocks_apart(m: Memory<'_>, a: int, b: int) -> bool {
    a + 16 + payload_at(m, a) <= b || b + 16 + payload_at(m, b) <= a
}

/// A block of memory, named by its address.
#[derive(Debug, Clone, Copy, PartialEq, Eq)]
pub struct Block {
    pub addr: usize,
}

impl Block {
    /// Makes a free block with a payload of `payload_size` bytes at address `block`.
    pub fn new_free_block(
        mem: &mut Memory<'_>,
        block: usize,
        payload_size: usize,
        prev: usize,
        next: usize,
    ) -> (r: Block)
        requires
            old(mem).wf(),
            old(mem).base() <= block,
            block + 16 + payload_size <= old(mem).limit(),
            payload_size % 2 == 0,
            payload_size >= 16,
        ensures
            r.addr == block,
            free_at(*final(mem), block as int),
            final(mem).word_at(block as int) == payload_size,
            final(mem).word_at(block + 8 + payload_size) == payload_size,
            final(mem).word_at(block + 8) == prev,
            final(mem).word_at(block + 16) == next,
            memory::wrote(
                *old(mem),
                *final(mem),
                set![block as int, block + 8 + payload_size, block + 8, block + 16],
            ),
    {
        let r = Block { addr: block };
        let ghost t = set![block as int, block + 8 + payload_size, block + 8, block + 16];
        let ghost m0 = *mem;
        let ghost tm = set![block as int, block + 8 + payload_size];
        r.set_meta_info(mem, BlockMetaInfo::new(payload_size, false));
        let ghost m1 = *mem;
        proof {
            memory::lemma_wrote_shape(m0, m1, tm);
            assert(tag_payload(payload_size as nat) == payload_size);
        }
        r.set_logical_prev(mem, prev);
        let ghost m2 = *mem;
        r.set_logical_next(mem, next);
        proof {
            memory::lemma_wrote_shape(m1, m2, set![block + 8]);
            memory::lemma_kept(m1, m2, set![block + 8], block + 8 + payload_size);
            memory::lemma_kept(m2, *mem, set![block + 16], block + 8 + payload_size);
            memory::lemma_kept(m2, *mem, set![block + 16], block + 8);
            memory::lemma_wrote_chain(m0, m1, m2, tm, set![block + 8], t);
            memory::lemma_wrote_chain(m0, m2, *mem, t, set![block + 16], t);
        }
        r
    }

    /// The block whose payload is at address `payload`.
    pub fn from_payload(payload: usize) -> (r: Block)
        requires
            payload >= 8,
        ensures
            r.addr == payload - 8,
    {
        Block { addr: payload - BlockMetaInfo::SIZE }
    }

    /// The block whose footer is at address `footer`.
    pub fn from_footer(mem: &Memory<'_>, footer: usize) -> (r: Block)
        requires
            mem.has_word(footer as int),
            mem.word_at(footer as int) <= usize::MAX,
            payload_at(*mem, footer as int) + 8 <= footer,
        ensures
            r.addr == footer - payload_at(*mem, footer as int) - 8,
    {
        let payload_size: usize = BlockMetaInfo::from_word(mem.read(footer)).payload_size();
        Block { addr: footer - (payload_size + BlockMetaInfo::SIZE) }
    }

    pub fn is_used(&self, mem: &Memory<'_>) -> (r: bool)
        requires
            block_at(*mem, self.addr as int),
        ensures
            r == used_at(*mem, self.addr as int),
    {
        BlockMetaInfo::from_word(mem.read(self.addr)).is_used()
    }

    pub fn payload_size(&self, mem: &Memory<'_>) -> (r: usize)
        requires
            block_at(*mem, self.addr as int),
        ensures
            r == payload_at(*mem, self.addr as int),
    {
        BlockMetaInfo::from_word(mem.read(self.addr)).payload_size()
    }

    /// The address of the payload.
    pub fn payload_mut_ptr(&self) -> (r: usize)
        requires
            self.addr + 8 <= usize::MAX,
        ensures
            r == self.addr + 8,
    {
        self.addr + BlockMetaInfo::SIZE
    }

    /// The size of the block with its tags.
    pub fn size(&self, mem: &Memory<'_>) -> (r: usize)
        requires
            block_at(*mem, self.addr as int),
        ensures
            r == payload_at(*mem, self.addr as int) + 16,
    {
        self.payload_size(mem) + BlockMetaInfo::SIZE * 2
    }

    /// The address of the footer.
    pub fn footer(&self, mem: &Memory<'_>) -> (r: usize)
        requires
            block_at(*mem, self.addr as int),
        ensures
            r == footer_at(*mem, self.addr as int),
    {
        self.payload_mut_ptr() + self.payload_size(mem)
    }

    /// Marks the block in its header and its footer.
    pub fn set_used(&self, mem: &mut Memory<'_>, used: bool)
        requires
            block_at(*old(mem), self.addr as int),
            old(mem).word_at(footer_at(*old(mem), self.addr as int)) <= usize::MAX,
        ensures
            final(mem).word_at(self.addr as int) == tag(
                payload_at(*old(mem), self.addr as int),
                used,
            ),
            final(mem).word_at(footer_at(*old(mem), self.addr as int)) == tag(
                payload_at(*old(mem), footer_at(*old(mem), self.addr as int)),
                used,
            ),
            memory::wrote(
                *old(mem),
                *final(mem),
                set![self.addr as int, footer_at(*old(mem), self.addr as int)],
            ),
    {
        let ghost m0 = *mem;
        let footer: usize = self.footer(mem);
        let mut header_info = BlockMetaInfo::from_word(mem.read(self.addr));
        header_info.set_used(used);
        mem.write(self.addr, header_info.word());
        let ghost m1 = *mem;
        let mut footer_info = BlockMetaInfo::from_word(mem.read(footer));
        footer_info.set_used(used);
        mem.write(footer, footer_info.word());
        proof {
            let t = set![self.addr as int, footer as int];
            memory::lemma_wrote_one(m0, m1, self.addr as int);
            memory::lemma_wrote_one(m1, *mem, footer as int);
            memory::lemma_wrote_chain(m0, m1, *mem, set![self.addr as int], set![footer as int], t);
        }
    }

    /// Sets the size of the payload in the header, and in the footer where the new size puts it.
    /// What lies there decides whether the footer marks the block as used.
    pub fn set_payload_size(&self, mem: &mut Memory<'_>, payload_size: usize)
        requires
            block_at(*old(mem), self.addr as int),
            payload_size % 2 == 0,
            self.addr + 16 + payload_size <= old(mem).limit(),
        ensures
            final(mem).word_at(self.addr as int) == tag(
                payload_size as nat,
                used_at(*old(mem), self.addr as int),
            ),
            final(mem).word_at(self.addr + 8 + payload_size) == tag(
                payload_size as nat,
                tag_used(old(mem).word_at(self.addr + 8 + payload_size)),
            ),
            memory::wrote(*old(mem), *final(mem), set![self.addr as int, self.addr + 8 + payload_size]),
    {
        let ghost m0 = *mem;
        let mut header_info = BlockMetaInfo::from_word(mem.read(self.addr));
        header_info.set_payload_size(payload_size);
        mem.write(self.addr, header_info.word());
        let ghost m1 = *mem;
        let footer: usize = self.payload_mut_ptr() + payload_size;
        let footer_info = BlockMetaInfo::new(payload_size, mem.is_odd(footer));
        mem.write(footer, footer_info.word());
        proof {
            let t = set![self.addr as int, footer as int];
            memory::lemma_wrote_one(m0, m1, self.addr as int);
            memory::lemma_wrote_one(m1, *mem, footer as int);
            memory::lemma_wrote_chain(m0, m1, *mem, set![self.addr as int], set![footer as int], t);
        }
    }

    /// Writes the tag to the header, and to the footer where the tag puts it.
    pub fn set_meta_info(&self, mem: &mut Memory<'_>, meta_info: BlockMetaInfo)
        requires
            old(mem).wf(),
            old(mem).base() <= self.addr,
            self.addr + 16 + tag_payload(meta_info.value()) <= old(mem).limit(),
        ensures
            final(mem).word_at(self.addr as int) == meta_info.value(),
            final(mem).word_at(self.addr + 8 + tag_payload(meta_info.value()))
                == meta_info.value(),
            memory::wrote(
                *old(mem),
                *final(mem),
                set![self.addr as int, self.addr + 8 + tag_payload(meta_info.value())],
            ),
    {
        let ghost m0 = *mem;
        mem.write(self.addr, meta_info.word());
        let ghost m1 = *mem;
        let footer: usize = self.payload_mut_ptr() + meta_info.payload_size();
        mem.write(footer, meta_info.word());
        proof {
            let t = set![self.addr as int, footer as int];
            memory::lemma_wrote_one(m0, m1, self.addr as int);
            memory::lemma_wrote_one(m1, *mem, footer as int);
            memory::lemma_wrote_chain(m0, m1, *mem, set![self.addr as int], set![footer as int], t);
        }
    }

    /// The block before this one in the list of free blocks.
    pub fn logical_prev(&self, mem: &Memory<'_>) -> (r: usize)
        requires
            free_at(*mem, self.addr as int),
            mem.word_at(self.addr + 8) <= usize::MAX,
        ensures
            r == mem.word_at(self.addr + 8),
    {
        mem.read(self.addr + BlockMetaInfo::SIZE)
    }

    /// The block that ends where this one starts. There must be one.
    pub fn physical_prev(&self, mem: &Memory<'_>) -> (r: Block)
        requires
            mem.wf(),
            mem.has_word(self.addr - 8),
            mem.word_at(self.addr - 8) <= usize::MAX,
            payload_at(*mem, self.addr - 8) + 16 <= self.addr,
        ensures
            r.addr == self.addr - 16 - payload_at(*mem, self.addr - 8),
    {
        Block::from_footer(mem, self.addr - BlockMetaInfo::SIZE)
    }

    pub fn set_logical_prev(&self, mem: &mut Memory<'_>, prev: usize)
        requires
            free_at(*old(mem), self.addr as int),
        ensures
            final(mem).word_at(self.addr + 8) == prev,
            memory::wrote(*old(mem), *final(mem), set![self.addr + 8]),
            free_at(*final(mem), self.addr as int),
            final(mem).word_at(self.addr as int) == old(mem).word_at(self.addr as int),
    {
        let ghost m0 = *mem;
        mem.write(self.addr + BlockMetaInfo::SIZE, prev);
        proof {
            memory::lemma_wrote_one(m0, *mem, self.addr + 8);
            memory::lemma_kept(m0, *mem, set![self.addr + 8], self.addr as int);
        }
    }

    /// The block behind this one in the list of free blocks.
    pub fn logical_next(&self, mem: &Memory<'_>) -> (r: usize)
        requires
            free_at(*mem, self.addr as int),
            mem.word_at(self.addr + 16) <= usize::MAX,
        ensures
            r == mem.word_at(self.addr + 16),
    {
        mem.read(self.addr + BlockMetaInfo::SIZE * 2)
    }

    /// The block that starts where this one ends. There must be one.
    pub fn physical_next(&self, mem: &Memory<'_>) -> (r: Block)
        requires
            block_at(*mem, self.addr as int),
        ensures
            r.addr == self.addr + 16 + payload_at(*mem, self.addr as int),
    {
        Block { addr: self.addr + self.size(mem) }
    }

    pub fn set_logical_next(&self, mem: &mut Memory<'_>, next: usize)
        requires
            free_at(*old(mem), self.addr as int),
        ensures
            final(mem).word_at(self.addr + 16) == next,
            memory::wrote(*old(mem), *final(mem), set![self.addr + 16]),
            free_at(*final(mem), self.addr as int),
            final(mem).word_at(self.addr as int) == old(mem).word_at(self.addr as int),
    {
        let ghost m0 = *mem;
        mem.write(self.addr + BlockMetaInfo::SIZE * 2, next);
        proof {
            memory::lemma_wrote_one(m0, *mem, self.addr + 16);
            memory::lemma_kept(m0, *mem, set![self.addr + 16], self.addr as int);
        }
    }
}

/// What is known of a block: the size of its payload, whether it is used, and while it is free
/// its neighbours in the list of free blocks.
pub struct BlockRec {
    pub payload: nat,
    pub used: bool,
    pub prev: int,
    pub next: int,
}

impl BlockRec {
    /// The size of the block with its tags.
    pub open spec fn size(self) -> nat {
        self.payload + 16
    }
}

/// The memory holds the block `r` at address `a`.
pub open spec fn holds_block(m: Memory<'_>, a: int, r: BlockRec) -> bool {
    &&& m.base() <= a
    &&& a + r.payload + 16 <= m.limit()
    &&& r.payload >= 16
    &&& r.payload % 2 == 0
    &&& m.word_at(a) == tag(r.payload, r.used)
    &&& m.word_at(a + 8 + r.payload) == tag(r.payload, r.used)
    &&& !r.used ==> {
        &&& m.word_at(a + 8) == r.prev
        &&& m.word_at(a + 16) == r.next
        &&& 0 <= r.prev <= usize::MAX
        &&& 0 <= r.next <= usize::MAX
    }
}

/// The memory holds the given blocks, which are apart from each other.
pub open spec fn holds(m: Memory<'_>, blocks: Map<int, BlockRec>) -> bool {
    &&& m.wf()
    &&& forall|a: int| #[trigger] blocks.contains_key(a) ==> holds_block(m, a, blocks[a])
    &&& forall|a: int, b: int|
        #[trigger] blocks.contains_key(a) && #[trigger] blocks.contains_key(b) && a < b ==> a
            + blocks[a].size() <= b
}

/// Makes `next` the successor of the block at `a`, unless `a` is null.
pub open spec fn set_next(blocks: Map<int, BlockRec>, a: int, next: int) -> Map<int, BlockRec> {
    if a == 0 {
        blocks
    } else {
        blocks.insert(a, BlockRec { next, ..blocks[a] })
    }
}

/// Makes `prev` the predecessor of the block at `a`, unless `a` is null.
pub open spec fn set_prev(blocks: Map<int, BlockRec>, a: int, prev: int) -> Map<int, BlockRec> {
    if a == 0 {
        blocks
    } else {
        blocks.insert(a, BlockRec { prev, ..blocks[a] })
    }
}

/// The size of the payload that is left when `size` bytes are taken from the front of a block.
pub open spec fn rest_payload(payload: nat, size: nat) -> int {
    payload - size - 16
}

/// The address of the block that is split off, or null where too little is left for one.
pub open spec fn split_block(a: int, payload: nat, size: nat) -> int {
    if rest_payload(payload, size) < 16 {
        0
    } else {
        a + size + 16
    }
}

/// The blocks after `size` bytes have been taken from the free block at `a`. A block that is split
/// off takes the place of `a` in the list of free blocks.
pub open spec fn blocks_allocated(blocks: Map<int, BlockRec>, a: int, size: nat) -> Map<
    int,
    BlockRec,
> {
    let r = blocks[a];
    if rest_payload(r.payload, size) < 16 {
        set_prev(set_next(blocks, r.prev, r.next), r.next, r.prev).insert(
            a,
            BlockRec { used: true, ..r },
        )
    } else {
        let b = split_block(a, r.payload, size);
        let rest = BlockRec {
            payload: rest_payload(r.payload, size) as nat,
            used: false,
            prev: r.prev,
            next: r.next,
        };
        set_prev(set_next(blocks, r.prev, b), r.next, b).insert(b, rest).insert(
            a,
            BlockRec { payload: size, used: true, ..r },
        )
    }
}

/// `a` is null or a free block apart from the one at `b`.
pub open spec fn neighbour_at(m: Memory<'_>, a: int, b: int) -> bool {
    a == 0 || (free_at(m, a) && blocks_apart(m, a, b))
}

/// The links of the free block at `a` lead to blocks that lie apart.
pub open spec fn links_at(m: Memory<'_>, a: int) -> bool {
    let prev = m.word_at(a + 8) as int;
    let next = m.word_at(a + 16) as int;
    &&& prev <= usize::MAX
    &&& next <= usize::MAX
    &&& neighbour_at(m, prev, a)
    &&& neighbour_at(m, next, a)
    &&& prev == 0 || next == 0 || prev == next || blocks_apart(m, prev, next)
}

/// The words that linking two blocks writes.
pub open spec fn link_writes(prev: int, next: int) -> Set<int> {
    (if prev == 0 {
        Set::empty()
    } else {
        set![prev + 16]
    }) + (if next == 0 {
        Set::empty()
    } else {
        set![next + 8]
    })
}

/// From `m1` to `m2`, `prev` got the successor `s` and `next` the predecessor `p`.
pub open spec fn linked(m2: Memory<'_>, prev: int, next: int, s: int, p: int) -> bool {
    &&& prev != 0 ==> m2.word_at(prev + 16) == s
    &&& next != 0 ==> m2.word_at(next + 8) == p
}

/// What taking `size` bytes from the free block at `a` does to memory: the block becomes used, and
/// either its neighbours in the list are linked to each other, or a new free block behind the
/// `size` bytes takes its place.
pub open spec fn allocate_effect(m1: Memory<'_>, m2: Memory<'_>, a: int, size: nat) -> bool {
    let payload = payload_at(m1, a);
    let footer = footer_at(m1, a);
    let prev = m1.word_at(a + 8) as int;
    let next = m1.word_at(a + 16) as int;
    if rest_payload(payload, size) < 16 {
        &&& memory::wrote(m1, m2, set![a, footer] + link_writes(prev, next))
        &&& m2.word_at(a) == tag(payload, true)
        &&& m2.word_at(footer) == tag(payload_at(m1, footer), true)
        &&& linked(m2, prev, next, next, prev)
    } else {
        let b = a + size + 16;
        let rest = rest_payload(payload, size) as nat;
        &&& memory::wrote(
            m1,
            m2,
            set![a, a + 8 + size, b, b + 8, b + 16, footer] + link_writes(prev, next),
        )
        &&& m2.word_at(a) == tag(size, true)
        &&& m2.word_at(a + 8 + size) == tag(size, true)
        &&& m2.word_at(b) == rest
        &&& m2.word_at(b + 8) == prev
        &&& m2.word_at(b + 16) == next
        &&& m2.word_at(footer) == rest
        &&& linked(m2, prev, next, b, b)
    }
}

impl Block {
    /// Gives `prev` the successor `succ` and `next` the predecessor `pred`, where they are not
    /// null.
    pub(crate) fn link(mem: &mut Memory<'_>, prev: usize, next: usize, succ: usize, pred: usize)
        requires
            prev == 0 || free_at(*old(mem), prev as int),
            next == 0 || free_at(*old(mem), next as int),
            prev == 0 || next == 0 || prev == next || blocks_apart(
                *old(mem),
                prev as int,
                next as int,
            ),
        ensures
            linked(*final(mem), prev as int, next as int, succ as int, pred as int),
            memory::wrote(*old(mem), *final(mem), link_writes(prev as int, next as int)),
    {
        let ghost m0 = *mem;
        let ghost t = link_writes(prev as int, next as int);
        if prev != NULL {
            let block = Block { addr: prev };
            block.set_logical_next(mem, succ);
            proof {
                memory::lemma_wrote_wider(m0, *mem, set![prev + 16], t);
                memory::lemma_wrote_shape(m0, *mem, t);
            }
        } else {
            proof {
                memory::lemma_wrote_nothing(m0);
                memory::lemma_wrote_wider(m0, m0, Set::empty(), t);
            }
        }
        let ghost m1 = *mem;
        if next != NULL {
            proof {
                if prev != 0 && prev != next {
                    memory::lemma_kept(m0, m1, set![prev + 16], next as int);
                }
            }
            let block = Block { addr: next };
            block.set_logical_prev(mem, pred);
            proof {
                memory::lemma_wrote_chain(m0, m1, *mem, t, set![next + 8], t);
                if prev != 0 {
                    memory::lemma_kept(m1, *mem, set![next + 8], prev + 16);
                }
            }
        }
    }

    /// Marks the free block as used and splits off what lies behind its first `size` bytes, if
    /// that is enough for a free block.
    ///
    /// Returns the latter block, or null.
    pub fn allocate(&self, mem: &mut Memory<'_>, size: usize) -> (r: usize)
        requires
            free_at(*old(mem), self.addr as int),
            old(mem).word_at(footer_at(*old(mem), self.addr as int)) <= usize::MAX,
            links_at(*old(mem), self.addr as int),
            size + 16 <= usize::MAX,
            size % 2 == 0 || rest_payload(payload_at(*old(mem), self.addr as int), size as nat)
                < 16,
        ensures
            r == split_block(
                self.addr as int,
                payload_at(*old(mem), self.addr as int),
                size as nat,
            ),
            allocate_effect(*old(mem), *final(mem), self.addr as int, size as nat),
    {
        let prev: usize = self.logical_prev(mem);
        let next: usize = self.logical_next(mem);
        let payload: usize = self.payload_size(mem);
        let new_payload_size: usize = payload.saturating_sub(size + BlockMetaInfo::SIZE * 2);
        if new_payload_size < 16 {
            self.allocate_whole(mem, prev, next);
            NULL
        } else {
            self.allocate_front(mem, size, new_payload_size, prev, next)
        }
    }

    fn allocate_whole(&self, mem: &mut Memory<'_>, prev: usize, next: usize)
        requires
            free_at(*old(mem), self.addr as int),
            old(mem).word_at(footer_at(*old(mem), self.addr as int)) <= usize::MAX,
            links_at(*old(mem), self.addr as int),
            prev == old(mem).word_at(self.addr + 8),
            next == old(mem).word_at(self.addr + 16),
        ensures
            forall|size: nat|
                rest_payload(payload_at(*old(mem), self.addr as int), size) < 16
                    ==> #[trigger] allocate_effect(
                    *old(mem),
                    *final(mem),
                    self.addr as int,
                    size,
                ),
    {
        let ghost m0 = *mem;
        let ghost a = self.addr as int;
        let ghost footer = footer_at(m0, a);
        let ghost tl = link_writes(prev as int, next as int);
        Block::link(mem, prev, next, next, prev);
        let ghost m1 = *mem;
        proof {
            memory::lemma_wrote_shape(m0, m1, tl);
            memory::lemma_kept(m0, m1, tl, a);
            memory::lemma_kept(m0, m1, tl, footer);
        }
        self.set_used(mem, true);
        proof {
            let tu = set![a, footer];
            memory::lemma_wrote_chain(m0, m1, *mem, tl, tu, tu + tl);
            if prev != 0 {
                memory::lemma_kept(m1, *mem, tu, prev + 16);
            }
            if next != 0 {
                memory::lemma_kept(m1, *mem, tu, next + 8);
            }
        }
    }

    #[verifier::rlimit(60)]
    fn allocate_front(
        &self,
        mem: &mut Memory<'_>,
        size: usize,
        new_payload_size: usize,
        prev: usize,
        next: usize,
    ) -> (r: usize)
        requires
            free_at(*old(mem), self.addr as int),
            links_at(*old(mem), self.addr as int),
            prev == old(mem).word_at(self.addr + 8),
            next == old(mem).word_at(self.addr + 16),
            size % 2 == 0,
            new_payload_size == rest_payload(
                payload_at(*old(mem), self.addr as int),
                size as nat,
            ),
            new_payload_size >= 16,
        ensures
            r == self.addr + size + 16,
            allocate_effect(*old(mem), *final(mem), self.addr as int, size as nat),
    {
        let ghost m0 = *mem;
        let ghost a = self.addr as int;
        let ghost footer = footer_at(m0, a);
        let b: usize = self.addr + (size + BlockMetaInfo::SIZE * 2);
        let ghost tb = set![b as int, b + 8 + new_payload_size, b + 8, b + 16];
        let ghost tl = link_writes(prev as int, next as int);
        let ghost ts = set![a, a + 8 + size];
        let ghost t = set![a, a + 8 + size, b as int, b + 8, b + 16, footer] + tl;
        let free_block = Block::new_free_block(mem, b, new_payload_size, prev, next);
        let ghost m1 = *mem;
        proof {
            assert(b + 8 + new_payload_size == footer);
            memory::lemma_wrote_shape(m0, m1, tb);
            memory::lemma_kept(m0, m1, tb, a);
            if prev != 0 {
                memory::lemma_kept(m0, m1, tb, prev as int);
            }
            if next != 0 {
                memory::lemma_kept(m0, m1, tb, next as int);
            }
        }
        Block::link(mem, prev, next, free_block.addr, free_block.addr);
        let ghost m2 = *mem;
        proof {
            memory::lemma_wrote_shape(m1, m2, tl);
            memory::lemma_kept(m1, m2, tl, a);
            memory::lemma_kept(m1, m2, tl, b as int);
            memory::lemma_kept(m1, m2, tl, b + 8);
            memory::lemma_kept(m1, m2, tl, b + 16);
            memory::lemma_kept(m1, m2, tl, footer);
        }
        self.set_payload_size(mem, size);
        let ghost m3 = *mem;
        proof {
            memory::lemma_wrote_shape(m2, m3, ts);
            memory::lemma_kept(m2, m3, ts, b as int);
            memory::lemma_kept(m2, m3, ts, b + 8);
            memory::lemma_kept(m2, m3, ts, b + 16);
            memory::lemma_kept(m2, m3, ts, footer);
            if prev != 0 {
                memory::lemma_kept(m2, m3, ts, prev + 16);
            }
            if next != 0 {
                memory::lemma_kept(m2, m3, ts, next + 8);
            }
        }
        self.set_used(mem, true);
        proof {
            memory::lemma_kept(m3, *mem, ts, b as int);
            memory::lemma_kept(m3, *mem, ts, b + 8);
            memory::lemma_kept(m3, *mem, ts, b + 16);
            memory::lemma_kept(m3, *mem, ts, footer);
            if prev != 0 {
                memory::lemma_kept(m3, *mem, ts, prev + 16);
            }
            if next != 0 {
                memory::lemma_kept(m3, *mem, ts, next + 8);
            }
            memory::lemma_wrote_chain(m0, m1, m2, tb, tl, t);
            memory::lemma_wrote_chain(m0, m2, m3, t, ts, t);
            memory::lemma_wrote_chain(m0, m3, *mem, t, ts, t);
        }
        free_block.addr
    }
}

/// What joining the block at `b` to the block at `a` before it does to memory: the header of `a`
/// and the footer of `b` get the joint size, and where `take` is set, `a` takes the place of `b` in
/// the list of free blocks.
pub open spec fn unsplit_effect(
    m1: Memory<'_>,
    m2: Memory<'_>,
    a: int,
    b: int,
    take: bool,
) -> bool {
    let payload = payload_at(m1, a) + payload_at(m1, b) + 16;
    let footer = footer_at(m1, b);
    let prev = m1.word_at(b + 8) as int;
    let next = m1.word_at(b + 16) as int;
    &&& m2.word_at(a) == tag(payload, used_at(m1, a))
    &&& m2.word_at(footer) == tag(payload, used_at(m1, footer))
    &&& if take {
        &&& memory::wrote(m1, m2, set![a, a + 8, a + 16, footer] + link_writes(prev, next))
        &&& m2.word_at(a + 8) == prev
        &&& m2.word_at(a + 16) == next
        &&& linked(m2, prev, next, a, a)
    } else {
        memory::wrote(m1, m2, set![a, footer])
    }
}

impl Block {
    /// Joins the block `right`, which starts where this one ends, to this one.
    pub fn unsplit(
        &self,
        mem: &mut Memory<'_>,
        right: Block,
        set_logical_prev_next_from_right: bool,
    )
        requires
            block_at(*old(mem), self.addr as int),
            block_at(*old(mem), right.addr as int),
            right.addr == self.addr + 16 + payload_at(*old(mem), self.addr as int),
            set_logical_prev_next_from_right ==> {
                &&& free_at(*old(mem), self.addr as int)
                &&& free_at(*old(mem), right.addr as int)
                &&& links_at(*old(mem), right.addr as int)
                &&& neighbour_at(
                    *old(mem),
                    old(mem).word_at(right.addr + 8) as int,
                    self.addr as int,
                )
                &&& neighbour_at(
                    *old(mem),
                    old(mem).word_at(right.addr + 16) as int,
                    self.addr as int,
                )
            },
        ensures
            unsplit_effect(
                *old(mem),
                *final(mem),
                self.addr as int,
                right.addr as int,
                set_logical_prev_next_from_right,
            ),
    {
        let ghost m0 = *mem;
        let ghost a = self.addr as int;
        let ghost b = right.addr as int;
        let ghost footer = footer_at(m0, b);
        let new_payload_size: usize = self.payload_size(mem) + right.size(mem);
        let ghost tp = set![a, footer];
        if set_logical_prev_next_from_right {
            let prev: usize = right.logical_prev(mem);
            let next: usize = right.logical_next(mem);
            let ghost tl = link_writes(prev as int, next as int);
            let ghost ta = set![a + 8, a + 16];
            let ghost t = set![a, a + 8, a + 16, footer] + tl;
            self.set_logical_prev(mem, prev);
            let ghost m1 = *mem;
            self.set_logical_next(mem, next);
            let ghost m2 = *mem;
            proof {
                memory::lemma_wrote_shape(m0, m1, set![a + 8]);
                memory::lemma_wrote_chain(m0, m1, m2, set![a + 8], set![a + 16], ta);
                memory::lemma_wrote_shape(m0, m2, ta);
                memory::lemma_kept(m1, m2, set![a + 16], a + 8);
                memory::lemma_kept(m0, m2, ta, footer);
                if prev != 0 {
                    memory::lemma_kept(m0, m2, ta, prev as int);
                }
                if next != 0 {
                    memory::lemma_kept(m0, m2, ta, next as int);
                }
            }
            Block::link(mem, prev, next, self.addr, self.addr);
            let ghost m3 = *mem;
            proof {
                memory::lemma_wrote_shape(m2, m3, tl);
                memory::lemma_kept(m2, m3, tl, a);
                memory::lemma_kept(m2, m3, tl, a + 8);
                memory::lemma_kept(m2, m3, tl, a + 16);
                memory::lemma_kept(m2, m3, tl, footer);
                memory::lemma_wrote_chain(m0, m2, m3, ta, tl, t);
            }
            self.set_payload_size(mem, new_payload_size);
            proof {
                memory::lemma_kept(m3, *mem, tp, a + 8);
                memory::lemma_kept(m3, *mem, tp, a + 16);
                if prev != 0 {
                    memory::lemma_kept(m3, *mem, tp, prev + 16);
                }
                if next != 0 {
                    memory::lemma_kept(m3, *mem, tp, next + 8);
                }
                memory::lemma_wrote_chain(m0, m3, *mem, t, tp, t);
            }
        } else {
            self.set_payload_size(mem, new_payload_size);
        }
    }
}

/// The links of the free block at `a` lead to other free blocks.
pub open spec fn neighbours_in(blocks: Map<int, BlockRec>, a: int) -> bool {
    let r = blocks[a];
    &&& r.prev == 0 || (blocks.contains_key(r.prev) && r.prev != a && !blocks[r.prev].used)
    &&& r.next == 0 || (blocks.contains_key(r.next) && r.next != a && !blocks[r.next].used)
}

/// The words of `t` lie outside of the bytes from `lo` up to `hi`.
spec fn outside(t: Set<int>, lo: int, hi: int) -> bool {
    forall|w: int| #[trigger] t.contains(w) ==> w + 8 <= lo || hi <= w
}

/// A block is kept where only words outside of it are written.
proof fn lemma_block_kept(m1: Memory<'_>, m2: Memory<'_>, t: Set<int>, a: int, r: BlockRec)
    requires
        memory::wrote(m1, m2, t),
        holds_block(m1, a, r),
        outside(t, a, a + r.size()),
    ensures
        holds_block(m2, a, r),
{
    memory::lemma_wrote_shape(m1, m2, t);
    assert forall|w: int| a <= w && w + 8 <= a + r.size() implies memory::clear_of(w, t) by {}
    memory::lemma_kept(m1, m2, t, a);
    memory::lemma_kept(m1, m2, t, a + 8);
    memory::lemma_kept(m1, m2, t, a + 16);
    memory::lemma_kept(m1, m2, t, a + 8 + r.payload);
}

/// A free block is kept, but for the links that are written.
proof fn lemma_links_kept(
    m1: Memory<'_>,
    m2: Memory<'_>,
    t: Set<int>,
    a: int,
    r: BlockRec,
    r2: BlockRec,
)
    requires
        memory::wrote(m1, m2, t),
        holds_block(m1, a, r),
        !r.used,
        r2 == (BlockRec { prev: r2.prev, next: r2.next, ..r }),
        0 <= r2.prev <= usize::MAX,
        0 <= r2.next <= usize::MAX,
        outside(t.remove(a + 8).remove(a + 16), a, a + r.size()),
        if t.contains(a + 8) {
            m2.word_at(a + 8) == r2.prev
        } else {
            r2.prev == r.prev
        },
        if t.contains(a + 16) {
            m2.word_at(a + 16) == r2.next
        } else {
            r2.next == r.next
        },
    ensures
        holds_block(m2, a, r2),
{
    memory::lemma_wrote_shape(m1, m2, t);
    let t2 = t.remove(a + 8).remove(a + 16);
    assert forall|w: int| #[trigger] t.contains(w) implies w == a + 8 || w == a + 16
        || t2.contains(w) by {}
    memory::lemma_kept(m1, m2, t, a);
    memory::lemma_kept(m1, m2, t, a + 8 + r.payload);
    if !t.contains(a + 8) {
        memory::lemma_kept(m1, m2, t, a + 8);
    }
    if !t.contains(a + 16) {
        memory::lemma_kept(m1, m2, t, a + 16);
    }
}

/// Two blocks have no byte in common.
proof fn lemma_apart(m: Memory<'_>, blocks: Map<int, BlockRec>, a: int, b: int)
    requires
        holds(m, blocks),
        blocks.contains_key(a),
        blocks.contains_key(b),
        a != b,
    ensures
        a + blocks[a].size() <= b || b + blocks[b].size() <= a,
        holds_block(m, a, blocks[a]),
        holds_block(m, b, blocks[b]),
{
}

/// The words that taking bytes from the free block `r` at `a` writes.
spec fn allocate_writes(a: int, r: BlockRec, size: nat) -> Set<int> {
    let footer = a + 8 + r.payload;
    let tl = link_writes(r.prev, r.next);
    if rest_payload(r.payload, size) < 16 {
        set![a, footer] + tl
    } else {
        let b = a + size + 16;
        set![a, a + 8 + size, b, b + 8, b + 16, footer] + tl
    }
}

proof fn lemma_allocated_other(
    m1: Memory<'_>,
    m2: Memory<'_>,
    blocks: Map<int, BlockRec>,
    a: int,
    size: nat,
    c: int,
)
    requires
        holds(m1, blocks),
        blocks.contains_key(a),
        !blocks[a].used,
        neighbours_in(blocks, a),
        size >= 16,
        allocate_effect(m1, m2, a, size),
        blocks.contains_key(c),
        c != a,
    ensures
        holds_block(m2, c, blocks_allocated(blocks, a, size)[c]),
{
    let r = blocks[a];
    let after = blocks_allocated(blocks, a, size);
    let t = allocate_writes(a, r, size);
    let q = blocks[c];
    let b = a + size + 16;
    lemma_apart(m1, blocks, a, c);
    assert(payload_at(m1, a) == r.payload);
    assert(memory::wrote(m1, m2, t));
    let lo = c;
    let hi = c + q.size();
    if r.prev != 0 && r.prev != c {
        lemma_apart(m1, blocks, r.prev, c);
    }
    if r.next != 0 && r.next != c {
        lemma_apart(m1, blocks, r.next, c);
    }
    assert(m1.base() > 0);
    if c == r.prev || c == r.next {
        assert(outside(t.remove(c + 8).remove(c + 16), lo, hi));
        assert(t.contains(c + 16) <==> c == r.prev);
        assert(t.contains(c + 8) <==> c == r.next);
        lemma_links_kept(m1, m2, t, c, q, after[c]);
    } else {
        assert(outside(t, lo, hi));
        lemma_block_kept(m1, m2, t, c, q);
    }
}

/// After [`Block::allocate`] the memory holds the blocks with the change that it makes.
pub proof fn lemma_allocated_holds(
    m1: Memory<'_>,
    m2: Memory<'_>,
    blocks: Map<int, BlockRec>,
    a: int,
    size: nat,
)
    requires
        holds(m1, blocks),
        blocks.contains_key(a),
        !blocks[a].used,
        neighbours_in(blocks, a),
        size >= 16,
        size % 2 == 0,
        allocate_effect(m1, m2, a, size),
    ensures
        holds(m2, blocks_allocated(blocks, a, size)),
{
    let r = blocks[a];
    let after = blocks_allocated(blocks, a, size);
    let rest = rest_payload(r.payload, size);
    let b = a + size + 16;
    assert(holds_block(m1, a, r));
    assert(payload_at(m1, a) == r.payload);
    memory::lemma_wrote_shape(m1, m2, allocate_writes(a, r, size));
    assert forall|c: int| #[trigger] after.contains_key(c) implies holds_block(m2, c, after[c]) by {
        if c == a {
        } else if rest >= 16 && c == b {
        } else {
            assert(blocks.contains_key(c));
            lemma_allocated_other(m1, m2, blocks, a, size, c);
        }
    }
    assert forall|c: int, d: int| #[trigger]
        after.contains_key(c) && #[trigger] after.contains_key(d) && c < d implies c
        + after[c].size() <= d by {
        let c0 = if rest >= 16 && c == b {
            a
        } else {
            c
        };
        let d0 = if rest >= 16 && d == b {
            a
        } else {
            d
        };
        assert(blocks.contains_key(c0));
        assert(blocks.contains_key(d0));
        if c0 != d0 {
            lemma_apart(m1, blocks, c0, d0);
        }
    }
}

/// The blocks after the free block at `b` has been joined to the free block at `a` before it.
/// Where `take` is set, `a` takes the place of `b` in the list of free blocks.
pub open spec fn blocks_joined(
    blocks: Map<int, BlockRec>,
    a: int,
    b: int,
    take: bool,
) -> Map<int, BlockRec> {
    let r = blocks[a];
    let q = blocks[b];
    let payload = r.payload + q.payload + 16;
    if take {
        set_prev(set_next(blocks, q.prev, a), q.next, a).remove(b).insert(
            a,
            BlockRec { payload, used: r.used, prev: q.prev, next: q.next },
        )
    } else {
        blocks.remove(b).insert(a, BlockRec { payload, ..r })
    }
}

proof fn lemma_joined_other(
    m1: Memory<'_>,
    m2: Memory<'_>,
    blocks: Map<int, BlockRec>,
    a: int,
    b: int,
    take: bool,
    c: int,
)
    requires
        holds(m1, blocks),
        blocks.contains_key(a),
        blocks.contains_key(b),
        b == a + blocks[a].size(),
        !blocks[a].used,
        !blocks[b].used,
        take ==> neighbours_in(blocks, b) && blocks[b].prev != a && blocks[b].next != a,
        unsplit_effect(m1, m2, a, b, take),
        blocks.contains_key(c),
        c != a,
        c != b,
    ensures
        holds_block(m2, c, blocks_joined(blocks, a, b, take)[c]),
{
    let r = blocks[a];
    let q = blocks[b];
    let after = blocks_joined(blocks, a, b, take);
    let footer = b + 8 + q.payload;
    let t = if take {
        set![a, a + 8, a + 16, footer] + link_writes(q.prev, q.next)
    } else {
        set![a, footer]
    };
    lemma_apart(m1, blocks, a, c);
    lemma_apart(m1, blocks, b, c);
    assert(payload_at(m1, a) == r.payload);
    assert(payload_at(m1, b) == q.payload);
    assert(memory::wrote(m1, m2, t));
    let s = blocks[c];
    if take && q.prev != 0 && q.prev != c {
        lemma_apart(m1, blocks, q.prev, c);
    }
    if take && q.next != 0 && q.next != c {
        lemma_apart(m1, blocks, q.next, c);
    }
    assert(m1.base() > 0);
    if take && (c == q.prev || c == q.next) {
        assert(outside(t.remove(c + 8).remove(c + 16), c, c + s.size()));
        assert(t.contains(c + 16) <==> c == q.prev);
        assert(t.contains(c + 8) <==> c == q.next);
        lemma_links_kept(m1, m2, t, c, s, after[c]);
    } else {
        assert(outside(t, c, c + s.size()));
        lemma_block_kept(m1, m2, t, c, s);
    }
}

/// After [`Block::unsplit`] the memory holds the blocks with the change that it makes.
pub proof fn lemma_joined_holds(
    m1: Memory<'_>,
    m2: Memory<'_>,
    blocks: Map<int, BlockRec>,
    a: int,
    b: int,
    take: bool,
)
    requires
        holds(m1, blocks),
        blocks.contains_key(a),
        blocks.contains_key(b),
        b == a + blocks[a].size(),
        !blocks[a].used,
        !blocks[b].used,
        take ==> neighbours_in(blocks, b) && blocks[b].prev != a && blocks[b].next != a,
        unsplit_effect(m1, m2, a, b, take),
    ensures
        holds(m2, blocks_joined(blocks, a, b, take)),
{
    let r = blocks[a];
    let q = blocks[b];
    let after = blocks_joined(blocks, a, b, take);
    lemma_apart(m1, blocks, a, b);
    let footer = b + 8 + q.payload;
    let t = if take {
        set![a, a + 8, a + 16, footer] + link_writes(q.prev, q.next)
    } else {
        set![a, footer]
    };
    assert(payload_at(m1, a) == r.payload);
    assert(payload_at(m1, b) == q.payload);
    memory::lemma_wrote_shape(m1, m2, t);
    assert forall|c: int| #[trigger] after.contains_key(c) implies holds_block(m2, c, after[c]) by {
        if c == a {
            if !take {
                memory::lemma_kept(m1, m2, t, a + 8);
                memory::lemma_kept(m1, m2, t, a + 16);
            }
        } else {
            assert(blocks.contains_key(c));
            assert(c != b);
            lemma_joined_other(m1, m2, blocks, a, b, take, c);
        }
    }
    assert forall|c: int, d: int| #[trigger]
        after.contains_key(c) && #[trigger] after.contains_key(d) && c < d implies c
        + after[c].size() <= d by {
        assert(blocks.contains_key(c));
        assert(blocks.contains_key(d));
        lemma_apart(m1, blocks, c, d);
        if c == a {
            lemma_apart(m1, blocks, b, d);
        }
    }
}

/// The blocks after the used block at `a` has become a free block without neighbours in a list.
pub open spec fn blocks_freed(blocks: Map<int, BlockRec>, a: int) -> Map<int, BlockRec> {
    blocks.insert(a, BlockRec { used: false, prev: 0, next: 0, ..blocks[a] })
}

impl Block {
    /// Makes the block a free block without neighbours in a list.
    pub fn set_free(&self, mem: &mut Memory<'_>)
        requires
            block_at(*old(mem), self.addr as int),
            payload_at(*old(mem), self.addr as int) >= 16,
            old(mem).word_at(footer_at(*old(mem), self.addr as int)) == old(mem).word_at(
                self.addr as int,
            ),
        ensures
            final(mem).word_at(self.addr as int) == payload_at(*old(mem), self.addr as int),
            final(mem).word_at(footer_at(*old(mem), self.addr as int)) == payload_at(
                *old(mem),
                self.addr as int,
            ),
            final(mem).word_at(self.addr + 8) == 0,
            final(mem).word_at(self.addr + 16) == 0,
            memory::wrote(
                *old(mem),
                *final(mem),
                set![
                    self.addr as int,
                    self.addr + 8,
                    self.addr + 16,
                    footer_at(*old(mem), self.addr as int),
                ],
            ),
    {
        let ghost m0 = *mem;
        let ghost a = self.addr as int;
        let ghost footer = footer_at(m0, a);
        let ghost t = set![a, a + 8, a + 16, footer];
        self.set_used(mem, false);
        let ghost m1 = *mem;
        proof {
            memory::lemma_wrote_shape(m0, m1, set![a, footer]);
        }
        self.set_logical_prev(mem, NULL);
        let ghost m2 = *mem;
        self.set_logical_next(mem, NULL);
        proof {
            memory::lemma_wrote_shape(m1, m2, set![a + 8]);
            memory::lemma_kept(m1, m2, set![a + 8], footer);
            memory::lemma_kept(m2, *mem, set![a + 16], footer);
            memory::lemma_kept(m2, *mem, set![a + 16], a + 8);
            memory::lemma_wrote_chain(m0, m1, m2, set![a, footer], set![a + 8], t);
            memory::lemma_wrote_chain(m0, m2, *mem, t, set![a + 16], t);
        }
    }
}

/// After [`Block::set_free`] the memory holds the blocks with the change that it makes.
pub proof fn lemma_freed_holds(m1: Memory<'_>, m2: Memory<'_>, blocks: Map<int, BlockRec>, a: int)
    requires
        holds(m1, blocks),
        blocks.contains_key(a),
        m2.word_at(a) == blocks[a].payload,
        m2.word_at(a + 8 + blocks[a].payload) == blocks[a].payload,
        m2.word_at(a + 8) == 0,
        m2.word_at(a + 16) == 0,
        memory::wrote(m1, m2, set![a, a + 8, a + 16, a + 8 + blocks[a].payload]),
    ensures
        holds(m2, blocks_freed(blocks, a)),
{
    let after = blocks_freed(blocks, a);
    let t = set![a, a + 8, a + 16, a + 8 + blocks[a].payload];
    memory::lemma_wrote_shape(m1, m2, t);
    assert(holds_block(m1, a, blocks[a]));
    assert forall|c: int| #[trigger] after.contains_key(c) implies holds_block(m2, c, after[c]) by {
        if c != a {
            lemma_apart(m1, blocks, a, c);
            lemma_block_kept(m1, m2, t, c, blocks[c]);
        }
    }
    assert forall|c: int, d: int| #[trigger]
        after.contains_key(c) && #[trigger] after.contains_key(d) && c < d implies c
        + after[c].size() <= d by {
        assert(blocks.contains_key(c));
        assert(blocks.contains_key(d));
    }
}

/// The blocks after the neighbours of the free block at `a` in the list have been linked to each
/// other.
pub open spec fn blocks_unlinked(blocks: Map<int, BlockRec>, a: int) -> Map<int, BlockRec> {
    let r = blocks[a];
    blocks_linked(blocks, r.prev, r.next, r.next, r.prev)
}

/// The blocks after `prev` has got the successor `succ` and `next` the predecessor `pred`.
pub open spec fn blocks_linked(
    blocks: Map<int, BlockRec>,
    prev: int,
    next: int,
    succ: int,
    pred: int,
) -> Map<int, BlockRec> {
    set_prev(set_next(blocks, prev, succ), next, pred)
}

/// After links have been written, the memory holds the blocks with that change.
pub proof fn lemma_linked_holds(
    m1: Memory<'_>,
    m2: Memory<'_>,
    blocks: Map<int, BlockRec>,
    prev: int,
    next: int,
    succ: int,
    pred: int,
)
    requires
        holds(m1, blocks),
        prev == 0 || (blocks.contains_key(prev) && !blocks[prev].used),
        next == 0 || (blocks.contains_key(next) && !blocks[next].used),
        0 <= succ <= usize::MAX,
        0 <= pred <= usize::MAX,
        linked(m2, prev, next, succ, pred),
        memory::wrote(m1, m2, link_writes(prev, next)),
    ensures
        holds(m2, blocks_linked(blocks, prev, next, succ, pred)),
{
    let after = blocks_linked(blocks, prev, next, succ, pred);
    let t = link_writes(prev, next);
    memory::lemma_wrote_shape(m1, m2, t);
    assert forall|c: int| #[trigger] after.contains_key(c) implies holds_block(m2, c, after[c]) by {
        assert(blocks.contains_key(c));
        let s = blocks[c];
        if prev != 0 && prev != c {
            lemma_apart(m1, blocks, prev, c);
        }
        if next != 0 && next != c {
            lemma_apart(m1, blocks, next, c);
        }
        assert(m1.base() > 0);
        assert(holds_block(m1, c, s));
        if c == prev || c == next {
            assert(outside(t.remove(c + 8).remove(c + 16), c, c + s.size()));
            assert(t.contains(c + 16) <==> c == prev);
            assert(t.contains(c + 8) <==> c == next);
            lemma_links_kept(m1, m2, t, c, s, after[c]);
        } else {
            assert(outside(t, c, c + s.size()));
            lemma_block_kept(m1, m2, t, c, s);
        }
    }
    assert forall|c: int, d: int| #[trigger]
        after.contains_key(c) && #[trigger] after.contains_key(d) && c < d implies c
        + after[c].size() <= d by {
        assert(blocks.contains_key(c));
        assert(blocks.contains_key(d));
    }
}

/// The blocks after the free block at `a` has been cut in two at `b`. The latter part follows the
/// former in the list of free blocks.
pub open spec fn blocks_cut(blocks: Map<int, BlockRec>, a: int, b: int) -> Map<int, BlockRec> {
    let r = blocks[a];
    set_prev(blocks, r.next, b).insert(
        b,
        BlockRec { payload: (r.payload - (b - a)) as nat, used: false, prev: a, next: r.next },
    ).insert(a, BlockRec { payload: (b - a - 16) as nat, next: b, ..r })
}

/// The free block at `a` can be cut at `b`: each part has room for its links.
pub open spec fn can_cut(a: int, payload: nat, b: int) -> bool {
    &&& b >= a + 32
    &&& (b - a) % 2 == 0
    &&& b - a + 16 <= payload
}

/// The words that cutting the free block at `a` writes.
pub open spec fn cut_writes(a: int, payload: nat, next: int, b: int) -> Set<int> {
    set![a, b - 8, b, b + 8, b + 16, a + 8 + payload] + link_writes(a, next)
}

/// What cutting the free block at `a` in two at `b` does to memory.
pub open spec fn cut_effect(m1: Memory<'_>, m2: Memory<'_>, a: int, b: int) -> bool {
    let payload = payload_at(m1, a);
    let next = m1.word_at(a + 16) as int;
    &&& memory::wrote(m1, m2, cut_writes(a, payload, next, b))
    &&& m2.word_at(a) == b - a - 16
    &&& m2.word_at(b - 8) == b - a - 16
    &&& m2.word_at(b) == payload - (b - a)
    &&& m2.word_at(a + 8 + payload) == payload - (b - a)
    &&& m2.word_at(b + 8) == a
    &&& m2.word_at(b + 16) == next
    &&& linked(m2, a, next, b, b)
}

impl Block {
    /// Cuts the free block in two at address `at`. The latter part follows the former in the list
    /// of free blocks.
    pub fn cut(&self, mem: &mut Memory<'_>, at: usize) -> (r: Block)
        requires
            free_at(*old(mem), self.addr as int),
            links_at(*old(mem), self.addr as int),
            payload_at(*old(mem), self.addr as int) % 2 == 0,
            can_cut(self.addr as int, payload_at(*old(mem), self.addr as int), at as int),
        ensures
            r.addr == at,
            cut_effect(*old(mem), *final(mem), self.addr as int, at as int),
    {
        let ghost m0 = *mem;
        let ghost a = self.addr as int;
        let ghost b = at as int;
        let payload: usize = self.payload_size(mem);
        let next: usize = self.logical_next(mem);
        let rest: usize = payload - (at - self.addr);
        let front: usize = at - self.addr - BlockMetaInfo::SIZE * 2;
        let ghost footer = a + 8 + payload;
        let ghost tf = set![a, b - 8];
        let ghost tb = set![b, footer, b + 8, b + 16];
        let ghost tl = link_writes(a, next as int);
        let ghost t = cut_writes(a, payload as nat, next as int, b);
        self.set_meta_info(mem, BlockMetaInfo::new(front, false));
        let ghost m1 = *mem;
        proof {
            assert(tag_payload(front as nat) == front);
            memory::lemma_wrote_shape(m0, m1, tf);
            if next != 0 {
                memory::lemma_kept(m0, m1, tf, next as int);
            }
        }
        let r = Block::new_free_block(mem, at, rest, self.addr, next);
        let ghost m2 = *mem;
        proof {
            memory::lemma_wrote_shape(m1, m2, tb);
            memory::lemma_kept(m1, m2, tb, a);
            memory::lemma_kept(m1, m2, tb, b - 8);
            if next != 0 {
                memory::lemma_kept(m1, m2, tb, next as int);
            }
        }
        Block::link(mem, self.addr, next, at, at);
        proof {
            memory::lemma_wrote_shape(m2, *mem, tl);
            memory::lemma_kept(m2, *mem, tl, a);
            memory::lemma_kept(m2, *mem, tl, b - 8);
            memory::lemma_kept(m2, *mem, tl, b);
            memory::lemma_kept(m2, *mem, tl, b + 8);
            memory::lemma_kept(m2, *mem, tl, b + 16);
            memory::lemma_kept(m2, *mem, tl, footer);
            memory::lemma_wrote_chain(m0, m1, m2, tf, tb, t);
            memory::lemma_wrote_chain(m0, m2, *mem, t, tl, t);
        }
        r
    }
}

/// After [`Block::cut`] the memory holds the blocks with the change that it makes.
pub proof fn lemma_cut_holds(
    m1: Memory<'_>,
    m2: Memory<'_>,
    blocks: Map<int, BlockRec>,
    a: int,
    b: int,
)
    requires
        holds(m1, blocks),
        blocks.contains_key(a),
        !blocks[a].used,
        neighbours_in(blocks, a),
        can_cut(a, blocks[a].payload, b),
        cut_effect(m1, m2, a, b),
    ensures
        holds(m2, blocks_cut(blocks, a, b)),
{
    let r = blocks[a];
    let after = blocks_cut(blocks, a, b);
    assert(holds_block(m1, a, r));
    assert(payload_at(m1, a) == r.payload);
    let t = cut_writes(a, r.payload, r.next, b);
    memory::lemma_wrote_shape(m1, m2, t);
    assert(m1.base() > 0);
    assert forall|c: int| #[trigger] after.contains_key(c) implies holds_block(m2, c, after[c]) by {
        if c == a {
            memory::lemma_kept(m1, m2, t, a + 8);
        } else if c == b {
        } else {
            assert(blocks.contains_key(c));
            let s = blocks[c];
            lemma_apart(m1, blocks, a, c);
            if r.next != 0 && r.next != c {
                lemma_apart(m1, blocks, r.next, c);
            }
            if c == r.next {
                assert(outside(t.remove(c + 8).remove(c + 16), c, c + s.size()));
                assert(t.contains(c + 8));
                assert(!t.contains(c + 16));
                lemma_links_kept(m1, m2, t, c, s, after[c]);
            } else {
                assert(outside(t, c, c + s.size()));
                lemma_block_kept(m1, m2, t, c, s);
            }
        }
    }
    assert forall|c: int, d: int| #[trigger]
        after.contains_key(c) && #[trigger] after.contains_key(d) && c < d implies c
        + after[c].size() <= d by {
        let c0 = if c == b {
            a
        } else {
            c
        };
        let d0 = if d == b {
            a
        } else {
            d
        };
        assert(blocks.contains_key(c0));
        assert(blocks.contains_key(d0));
        if c0 != d0 {
            lemma_apart(m1, blocks, c0, d0);
        }
    }
}

/// A tag tells the size of a payload, which is even, and whether the block is used.
pub proof fn law_tags_tell_size_and_use(payload: nat, used: bool)
    requires
        payload % 2 == 0,
    ensures
        tag_payload(tag(payload, used)) == payload,
        tag_used(tag(payload, used)) == used,
        payload <= tag(payload, used) <= payload + 1,
{
}

} // verus!
