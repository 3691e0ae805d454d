//! A range of memory that is read and written a word at a time.

use vstd::prelude::*;

verus! {

/// The number of bytes of a word in memory.
pub const WORD: usize = 8;

/// The number that the `k` bytes from index `o` on stand for, the lowest byte first.
pub open spec fn little_endian(m: Seq<u8>, o: int, k: nat) -> nat
    decreases k,
{
    if k == 0 {
        0
    } else {
        m[o] as nat + 256 * little_endian(m, o + 1, (k - 1) as nat)
    }
}

/// The word at index `o`.
pub open spec fn word(m: Seq<u8>, o: int) -> nat {
    little_endian(m, o, 8)
}

proof fn lemma_little_endian_frame(m1: Seq<u8>, m2: Seq<u8>, o: int, k: nat)
    requires
        forall|i: int| o <= i < o + k ==> m1[i] == m2[i],
    ensures
        little_endian(m1, o, k) == little_endian(m2, o, k),
    decreases k,
{
    if k > 0 {
        lemma_little_endian_frame(m1, m2, o + 1, (k - 1) as nat);
    }
}

proof fn lemma_little_endian_part(m: Seq<u8>, o: int, k: nat, i: nat)
    requires
        i <= k,
    ensures
        little_endian(m, o + i, (k - i) as nat) <= little_endian(m, o, k),
    decreases i,
{
    if i > 0 {
        lemma_little_endian_part(m, o + 1, (k - 1) as nat, (i - 1) as nat);
    }
}

/// The lowest byte of a word decides whether it is odd.
proof fn lemma_odd_word(m: Seq<u8>, o: int)
    ensures
        word(m, o) % 2 == m[o] as nat % 2,
{
    let rest = little_endian(m, o + 1, 7);
    assert(word(m, o) == m[o] as nat + 2 * (128 * rest));
}

/// Memory from address `start` on.
#[derive(Debug)]
pub struct Memory<'a> {
    start: usize,
    bytes: &'a mut [u8],
}

impl<'a> Memory<'a> {
    /// The address of the first byte.
    pub closed spec fn base(&self) -> int {
        self.start as int
    }

    pub closed spec fn contents(&self) -> Seq<u8> {
        self.bytes@
    }

    /// The address behind the last byte.
    pub open spec fn limit(&self) -> int {
        self.base() + self.contents().len()
    }

    /// The addresses fit the machine, and no byte is at address 0.
    pub open spec fn wf(&self) -> bool {
        0 < self.base() && self.limit() <= usize::MAX
    }

    /// A word can be stored at address `a`.
    pub open spec fn has_word(&self, a: int) -> bool {
        self.base() <= a && a + 8 <= self.limit()
    }

    /// The word at address `a`.
    #[verifier::opaque]
    pub open spec fn word_at(&self, a: int) -> nat {
        word(self.contents(), a - self.base())
    }

    /// The byte at address `a`.
    #[verifier::opaque]
    pub open spec fn byte_at(&self, a: int) -> u8 {
        self.contents()[a - self.base()]
    }

    /// No memory at all.
    pub fn empty() -> (r: Self)
        ensures
            r.base() == 0,
            r.contents().len() == 0,
    {
        Memory { start: 0, bytes: &mut [] }
    }

    pub fn new(start: usize, bytes: &'a mut [u8]) -> (r: Self)
        ensures
            r.base() == start,
            r.contents() == old(bytes)@,
    {
        Memory { start, bytes }
    }

    /// The address of the first byte.
    pub fn start(&self) -> (r: usize)
        ensures
            r == self.base(),
    {
        self.start
    }

    /// The number of bytes.
    pub fn len(&self) -> (r: usize)
        ensures
            r == self.contents().len(),
    {
        self.bytes.len()
    }

    /// The word at address `a`.
    pub fn read(&self, a: usize) -> (v: usize)
        requires
            self.has_word(a as int),
            self.word_at(a as int) <= usize::MAX,
        ensures
            v == self.word_at(a as int),
    {
        reveal(Memory::word_at);
        let o: usize = a - self.start;
        let len: usize = self.bytes.len();
        let mut v: usize = 0;
        let mut i: usize = 8;
        while i > 0
            invariant
                i <= 8,
                o + 8 <= len,
                len == self.bytes@.len(),
                word(self.bytes@, o as int) <= usize::MAX,
                v == little_endian(self.bytes@, o + i, (8 - i) as nat),
            decreases i,
        {
            i = i - 1;
            proof {
                lemma_little_endian_part(self.bytes@, o as int, 8, i as nat);
            }
            v = v * 256 + self.bytes[o + i] as usize;
        }
        v
    }

    /// Whether the word at address `a` is odd.
    pub fn is_odd(&self, a: usize) -> (r: bool)
        requires
            self.has_word(a as int),
        ensures
            r == (self.word_at(a as int) % 2 == 1),
    {
        let o: usize = a - self.start;
        let low: u8 = self.bytes[o];
        proof {
            reveal(Memory::word_at);
            lemma_odd_word(self.bytes@, o as int);
        }
        low % 2 == 1
    }

    /// Stores the word `v` at address `a`.
    pub fn write(&mut self, a: usize, v: usize)
        requires
            old(self).has_word(a as int),
        ensures
            final(self).base() == old(self).base(),
            final(self).contents().len() == old(self).contents().len(),
            final(self).word_at(a as int) == v,
            forall|b: int|
                old(self).has_word(b) && (b + 8 <= a || a + 8 <= b) ==>
                    #[trigger] final(self).word_at(b) == old(self).word_at(b),
            forall|b: int|
                old(self).base() <= b < old(self).limit() && (b < a || a + 8 <= b)
                    ==> #[trigger] final(self).byte_at(b) == old(self).byte_at(b),
    {
        reveal(Memory::word_at);
        reveal(Memory::byte_at);
        let o: usize = a - self.start;
        let len: usize = self.bytes.len();
        let ghost m = self.bytes@;
        let mut rest: usize = v;
        let mut i: usize = 0;
        let ghost mut parts: Seq<nat> = seq![v as nat];
        while i < 8
            invariant
                i <= 8,
                self.start == old(self).start,
                m == old(self).bytes@,
                o + 8 <= len,
                len == m.len(),
                self.bytes@.len() == m.len(),
                parts.len() == i + 1,
                parts[0] == v,
                parts[i as int] == rest,
                forall|j: int|
                    0 <= j < i ==> #[trigger] parts[j] == self.bytes@[o + j] + 256 * parts[j + 1],
                forall|j: int| 0 <= j < m.len() && !(o <= j < o + i) ==> self.bytes@[j] == m[j],
            decreases 8 - i,
        {
            self.bytes[o + i] = (rest % 256) as u8;
            proof {
                parts = parts.push((rest / 256) as nat);
            }
            rest = rest / 256;
            i = i + 1;
        }
        proof {
            assert(rest == 0) by {
                assert(parts[0] < 0x1_0000_0000_0000_0000);
                assert(parts[1] < 0x100_0000_0000_0000);
                assert(parts[2] < 0x1_0000_0000_0000);
                assert(parts[3] < 0x100_0000_0000);
                assert(parts[4] < 0x1_0000_0000);
                assert(parts[5] < 0x100_0000);
                assert(parts[6] < 0x1_0000);
                assert(parts[7] < 0x100);
            }
            lemma_parts(self.bytes@, o as int, 8, parts, 0);
            assert forall|b: int|
                old(self).has_word(b) && (b + 8 <= a || a + 8 <= b) implies #[trigger] self.word_at(
                b,
            ) == old(self).word_at(b) by {
                lemma_little_endian_frame(m, self.bytes@, b - self.start, 8);
            }
        }
    }
}

proof fn lemma_parts(m: Seq<u8>, o: int, k: nat, parts: Seq<nat>, i: nat)
    requires
        i <= k,
        parts.len() == k + 1,
        parts[k as int] == 0,
        forall|j: int| 0 <= j < k ==> #[trigger] parts[j] == m[o + j] + 256 * parts[j + 1],
    ensures
        parts[i as int] == little_endian(m, o + i, (k - i) as nat),
    decreases k - i,
{
    if i < k {
        lemma_parts(m, o, k, parts, i + 1);
    }
}

/// The words at `a` and at `b` have no byte in common.
pub open spec fn words_apart(a: int, b: int) -> bool {
    a + 8 <= b || b + 8 <= a
}

/// The word at `w` has no byte in common with any of the words at `touched`.
pub open spec fn clear_of(w: int, touched: Set<int>) -> bool {
    forall|t: int| #[trigger] touched.contains(t) ==> words_apart(w, t)
}

/// The byte at `b` belongs to none of the words at `touched`.
pub open spec fn byte_clear_of(b: int, touched: Set<int>) -> bool {
    forall|t: int| #[trigger] touched.contains(t) ==> b < t || t + 8 <= b
}

/// From `m1` to `m2` only the words at `touched` changed.
#[verifier::opaque]
pub open spec fn wrote(m1: Memory<'_>, m2: Memory<'_>, touched: Set<int>) -> bool {
    &&& m1.base() == m2.base()
    &&& m1.contents().len() == m2.contents().len()
    &&& forall|w: int|
        m1.has_word(w) && clear_of(w, touched) ==> #[trigger] m2.word_at(w) == m1.word_at(w)
    &&& forall|b: int|
        m1.base() <= b < m1.limit() && byte_clear_of(b, touched) ==> #[trigger] m2.byte_at(b)
            == m1.byte_at(b)
}

pub proof fn lemma_wrote_chain(
    m1: Memory<'_>,
    m2: Memory<'_>,
    m3: Memory<'_>,
    t1: Set<int>,
    t2: Set<int>,
    t: Set<int>,
)
    requires
        wrote(m1, m2, t1),
        wrote(m2, m3, t2),
        t1.subset_of(t),
        t2.subset_of(t),
    ensures
        wrote(m1, m3, t),
{
    reveal(wrote);
    assert forall|w: int| m1.has_word(w) && clear_of(w, t) implies #[trigger] m3.word_at(w)
        == m1.word_at(w) by {
        assert(clear_of(w, t1));
        assert(clear_of(w, t2));
        assert(m2.word_at(w) == m1.word_at(w));
    }
    assert forall|b: int|
        m1.base() <= b < m1.limit() && byte_clear_of(b, t) implies #[trigger] m3.byte_at(b)
        == m1.byte_at(b) by {
        assert(byte_clear_of(b, t1));
        assert(byte_clear_of(b, t2));
        assert(m2.byte_at(b) == m1.byte_at(b));
    }
}

pub proof fn lemma_wrote_wider(m1: Memory<'_>, m2: Memory<'_>, t1: Set<int>, t: Set<int>)
    requires
        wrote(m1, m2, t1),
        t1.subset_of(t),
    ensures
        wrote(m1, m2, t),
{
    lemma_wrote_nothing(m2);
    lemma_wrote_chain(m1, m2, m2, t1, Set::empty(), t);
}

pub proof fn lemma_wrote_nothing(m: Memory<'_>)
    ensures
        wrote(m, m, Set::empty()),
{
    reveal(wrote);
}

/// Writing keeps the place and size of the memory.
pub proof fn lemma_wrote_shape(m1: Memory<'_>, m2: Memory<'_>, t: Set<int>)
    requires
        wrote(m1, m2, t),
    ensures
        m1.base() == m2.base(),
        m1.contents().len() == m2.contents().len(),
        m1.limit() == m2.limit(),
{
    reveal(wrote);
}

/// A word that is clear of those written is kept.
pub proof fn lemma_kept(m1: Memory<'_>, m2: Memory<'_>, t: Set<int>, w: int)
    requires
        wrote(m1, m2, t),
        m1.has_word(w),
        clear_of(w, t),
    ensures
        m2.word_at(w) == m1.word_at(w),
{
    reveal(wrote);
}

/// A byte that is clear of the words written is kept.
pub proof fn lemma_byte_kept(m1: Memory<'_>, m2: Memory<'_>, t: Set<int>, b: int)
    requires
        wrote(m1, m2, t),
        m1.base() <= b < m1.limit(),
        byte_clear_of(b, t),
    ensures
        m2.byte_at(b) == m1.byte_at(b),
{
    reveal(wrote);
}

pub proof fn lemma_wrote_one(m1: Memory<'_>, m2: Memory<'_>, a: int)
    requires
        m1.base() == m2.base(),
        m1.contents().len() == m2.contents().len(),
        forall|b: int|
            m1.has_word(b) && (b + 8 <= a || a + 8 <= b) ==> #[trigger] m2.word_at(b)
                == m1.word_at(b),
        forall|b: int|
            m1.base() <= b < m1.limit() && (b < a || a + 8 <= b) ==> #[trigger] m2.byte_at(b)
                == m1.byte_at(b),
    ensures
        wrote(m1, m2, set![a]),
{
    reveal(wrote);
    assert(set![a].contains(a));
}

/// A word is stored in eight bytes, the lowest first.
pub proof fn law_words_are_bytes(m: Memory<'_>, a: int)
    requires
        m.has_word(a),
    ensures
        m.word_at(a) == m.byte_at(a) + 0x100 * m.byte_at(a + 1) + 0x1_0000 * m.byte_at(a + 2)
            + 0x100_0000 * m.byte_at(a + 3) + 0x1_0000_0000 * m.byte_at(a + 4)
            + 0x100_0000_0000 * m.byte_at(a + 5) + 0x1_0000_0000_0000 * m.byte_at(a + 6)
            + 0x100_0000_0000_0000 * m.byte_at(a + 7),
{
    reveal(Memory::word_at);
    reveal(Memory::byte_at);
    reveal_with_fuel(little_endian, 9);
}

} // verus!
