//! How the blocks of a heap lie side by side, and how the free ones are linked.

use crate::heap::block;
use vstd::prelude::*;

verus! {

pub type Blocks = Map<int, block::BlockRec>;

/// The blocks cover the bytes from `start` up to `end` without gaps.
pub open spec fn tiles(blocks: Blocks, start: int, end: int) -> bool {
    &&& blocks.contains_key(start)
    &&& forall|a: int| #[trigger]
        blocks.contains_key(a) ==> start <= a && a + blocks[a].size() <= end
    &&& forall|a: int|
        blocks.contains_key(a) && #[trigger] end_of(blocks, a) != end ==> blocks.contains_key(
            end_of(blocks, a),
        )
    &&& forall|a: int|
        blocks.contains_key(a) && a != start ==> is_left_of(
            blocks,
            #[trigger] left_of(blocks, a),
            a,
        )
    &&& forall|a: int, b: int|
        #[trigger] blocks.contains_key(a) && #[trigger] blocks.contains_key(b) && a < b ==> a
            + blocks[a].size() <= b
}

/// Where the block at `a` ends.
pub open spec fn end_of(blocks: Blocks, a: int) -> int {
    a + blocks[a].size()
}

/// The block at `p` ends where the one at `a` starts.
pub open spec fn is_left_of(blocks: Blocks, p: int, a: int) -> bool {
    blocks.contains_key(p) && p + blocks[p].size() == a
}

/// The block that ends where the one at `a` starts.
pub open spec fn left_of(blocks: Blocks, a: int) -> int {
    choose|p: int| is_left_of(blocks, p, a)
}

/// There is a free block at `a`.
pub open spec fn is_free(blocks: Blocks, a: int) -> bool {
    blocks.contains_key(a) && !blocks[a].used
}

/// The links of the free block at `a` lead to other free blocks that link back.
pub open spec fn links_back(blocks: Blocks, a: int) -> bool {
    let r = blocks[a];
    &&& r.prev != 0 ==> r.prev != a && is_free(blocks, r.prev) && blocks[r.prev].next == a
    &&& r.next != 0 ==> r.next != a && is_free(blocks, r.next) && blocks[r.next].prev == a
}

/// The rank grows from each free block to its successor, so that no successors form a circle.
pub open spec fn ranked(blocks: Blocks, rank: spec_fn(int) -> int) -> bool {
    forall|a: int| #[trigger]
        is_free(blocks, a) && blocks[a].next != 0 ==> rank(a) < rank(blocks[a].next)
}

/// The links of free blocks lead to free blocks that link back, and never in a circle.
pub open spec fn links_ok(blocks: Blocks) -> bool {
    &&& forall|a: int| is_free(blocks, a) ==> #[trigger] links_back(blocks, a)
    &&& exists|rank: spec_fn(int) -> int| ranked(blocks, rank)
}

/// The successor of the block at index `i` is the next one of `list`.
pub open spec fn follows(blocks: Blocks, list: Seq<int>, i: int) -> bool {
    blocks[list[i]].next == (if i + 1 < list.len() {
        list[i + 1]
    } else {
        0
    })
}

/// Following the successors from the first block of `list` gives `list`.
pub open spec fn list_ok(blocks: Blocks, list: Seq<int>) -> bool {
    &&& list.len() > 0 ==> blocks[list[0]].prev == 0
    &&& forall|i: int| 0 <= i < list.len() ==> is_free(blocks, #[trigger] list[i])
    &&& forall|i: int| 0 <= i < list.len() ==> #[trigger] follows(blocks, list, i)
    &&& forall|i: int, j: int| 0 <= i < j < list.len() ==> list[i] != list[j]
}

/// The first block of the list, or null.
pub open spec fn list_head(list: Seq<int>) -> int {
    if list.len() == 0 {
        0
    } else {
        list[0]
    }
}

/// The blocks tile the heap and the free ones are properly linked; no block is at address 0.
pub open spec fn heap_ok(blocks: Blocks, list: Seq<int>, start: int, end: int) -> bool {
    &&& 0 < start
    &&& tiles(blocks, start, end)
    &&& links_ok(blocks)
    &&& list_ok(blocks, list)
}

/// The list after the block at index `i` has given bytes; the block `rest` that was split off, if
/// any, takes its place.
pub open spec fn list_allocated(list: Seq<int>, i: int, rest: int) -> Seq<int> {
    if rest != 0 {
        list.update(i, rest)
    } else {
        list.remove(i)
    }
}

/// `a` replaces `b` in the list, if `b` is there.
pub open spec fn list_replaced(list: Seq<int>, b: int, a: int) -> Seq<int> {
    if list.contains(b) {
        list.update(list.index_of(b), a)
    } else {
        list
    }
}

/// `b` leaves the list, if it is there.
pub open spec fn list_removed(list: Seq<int>, b: int) -> Seq<int> {
    if list.contains(b) {
        list.remove(list.index_of(b))
    } else {
        list
    }
}

/// The free block at `a` has a place in a list.
pub open spec fn is_linked(blocks: Blocks, list: Seq<int>, a: int) -> bool {
    list_head(list) == a || blocks[a].prev != 0 || blocks[a].next != 0
}

proof fn lemma_null(blocks: Blocks, start: int, end: int)
    requires
        0 < start,
        tiles(blocks, start, end),
    ensures
        !blocks.contains_key(0),
{
}

/// A block of the list links back to the one before it.
pub proof fn lemma_list_prev(blocks: Blocks, list: Seq<int>, i: int)
    requires
        links_ok(blocks),
        list_ok(blocks, list),
        !blocks.contains_key(0),
        0 <= i < list.len(),
    ensures
        blocks[list[i]].prev == (if i == 0 {
            0
        } else {
            list[i - 1]
        }),
{
    if i > 0 {
        assert(is_free(blocks, list[i - 1]));
        assert(follows(blocks, list, i - 1));
        assert(links_back(blocks, list[i - 1]));
        assert(is_free(blocks, list[i]));
    }
}

/// A free block that is in the list is linked.
pub proof fn lemma_listed_is_linked(
    blocks: Blocks,
    list: Seq<int>,
    start: int,
    end: int,
    a: int,
)
    requires
        heap_ok(blocks, list, start, end),
        list.contains(a),
    ensures
        is_linked(blocks, list, a),
{
    lemma_null(blocks, start, end);
    let i = list.index_of(a);
    lemma_list_prev(blocks, list, i);
    assert(is_free(blocks, list[i]));
    if i > 0 {
        assert(is_free(blocks, list[i - 1]));
    }
}

/// From `blocks` to `after`, the free block `x` has left its place among the links, and `y` has
/// taken it, unless `y` is null.
spec fn spliced(blocks: Blocks, after: Blocks, x: int, y: int) -> bool {
    let r = blocks[x];
    let succ = if y != 0 {
        y
    } else {
        r.next
    };
    let pred = if y != 0 {
        y
    } else {
        r.prev
    };
    &&& is_free(blocks, x)
    &&& !is_free(after, x)
    &&& !is_free(after, 0)
    &&& x != y
    &&& y != 0 ==> {
        &&& is_free(after, y)
        &&& after[y].prev == r.prev
        &&& after[y].next == r.next
        &&& is_free(blocks, y) ==> blocks[y].prev == 0 && blocks[y].next == 0
    }
    &&& forall|c: int|
        #![trigger is_free(after, c)]
        #![trigger is_free(blocks, c)]
        c != x && c != y ==> {
            &&& is_free(after, c) == is_free(blocks, c)
            &&& is_free(blocks, c) ==> {
                &&& after[c].next == (if blocks[c].next == x {
                    succ
                } else {
                    blocks[c].next
                })
                &&& after[c].prev == (if blocks[c].prev == x {
                    pred
                } else {
                    blocks[c].prev
                })
            }
        }
}

/// The links stay in order when a block leaves or is replaced.
proof fn lemma_spliced_links(blocks: Blocks, after: Blocks, x: int, y: int)
    requires
        links_ok(blocks),
        !blocks.contains_key(0),
        spliced(blocks, after, x, y),
    ensures
        links_ok(after),
{
    let rank = choose|rank: spec_fn(int) -> int| ranked(blocks, rank);
    let rank2 = |c: int|
        if y != 0 && c == y {
            rank(x)
        } else {
            rank(c)
        };
    let r = blocks[x];
    assert(links_back(blocks, x));
    assert(r.prev != 0 ==> is_free(blocks, r.prev) && rank(r.prev) < rank(x));
    assert(r.next != 0 ==> is_free(blocks, r.next) && rank(x) < rank(r.next));
    assert forall|c: int| #[trigger] is_free(after, c) implies links_back(after, c) && (
    after[c].next != 0 ==> rank2(c) < rank2(after[c].next)) by {
        if y != 0 && c == y {
            assert(r.prev != 0 ==> is_free(after, r.prev));
            assert(r.next != 0 ==> is_free(after, r.next));
        } else {
            assert(is_free(blocks, c));
            assert(links_back(blocks, c));
            let p = blocks[c].prev;
            let n = blocks[c].next;
            if p != 0 && p != x {
                assert(is_free(blocks, p));
                assert(is_free(after, p));
            }
            if n != 0 && n != x {
                assert(is_free(blocks, n));
                assert(is_free(after, n));
                assert(rank(c) < rank(n));
            }
            if y != 0 && is_free(blocks, y) {
                assert(links_back(blocks, y));
            }
        }
    }
    assert(ranked(after, rank2));
}

/// The list stays in order when one of its blocks is replaced.
proof fn lemma_spliced_list_replaced(
    blocks: Blocks,
    after: Blocks,
    list: Seq<int>,
    i: int,
    y: int,
)
    requires
        links_ok(blocks),
        list_ok(blocks, list),
        !blocks.contains_key(0),
        0 <= i < list.len(),
        y != 0,
        !list.contains(y),
        spliced(blocks, after, list[i], y),
    ensures
        list_ok(after, list.update(i, y)),
{
    let x = list[i];
    let list2 = list.update(i, y);
    assert forall|j: int| 0 <= j < list2.len() implies is_free(after, list2[j])
        && #[trigger] follows(after, list2, j) by {
        assert(is_free(blocks, list[j]));
        assert(follows(blocks, list, j));
        if j + 1 < list.len() {
            assert(is_free(blocks, list[j + 1]));
        }
    }
    assert(is_free(blocks, list[0]));
    lemma_list_prev(blocks, list, i);
    if i > 0 {
        assert(blocks[list[0]].prev == 0);
        assert(x != 0);
    }
}

/// The list stays in order when one of its blocks leaves.
proof fn lemma_spliced_list_removed(blocks: Blocks, after: Blocks, list: Seq<int>, i: int)
    requires
        links_ok(blocks),
        list_ok(blocks, list),
        !blocks.contains_key(0),
        0 <= i < list.len(),
        spliced(blocks, after, list[i], 0),
    ensures
        list_ok(after, list.remove(i)),
{
    let x = list[i];
    let list2 = list.remove(i);
    assert forall|j: int| 0 <= j < list2.len() implies #[trigger] list2[j] == (if j < i {
        list[j]
    } else {
        list[j + 1]
    }) by {}
    lemma_list_prev(blocks, list, i);
    assert(is_free(blocks, x));
    assert(follows(blocks, list, i));
    assert forall|j: int| 0 <= j < list2.len() implies is_free(after, list2[j])
        && #[trigger] follows(after, list2, j) by {
        let k = if j < i {
            j
        } else {
            j + 1
        };
        assert(list2[j] == list[k]);
        assert(is_free(blocks, list[k]));
        assert(follows(blocks, list, k));
        if k + 1 < list.len() {
            assert(is_free(blocks, list[k + 1]));
        }
    }
    if list2.len() > 0 {
        let k: int = if i == 0 {
            1
        } else {
            0
        };
        assert(list2[0] == list[k]);
        lemma_list_prev(blocks, list, k);
        assert(is_free(blocks, list[k]));
    }
}

/// The list stays as it is when a block outside of it leaves or is replaced.
proof fn lemma_spliced_list_same(blocks: Blocks, after: Blocks, list: Seq<int>, x: int, y: int)
    requires
        links_ok(blocks),
        list_ok(blocks, list),
        !blocks.contains_key(0),
        !list.contains(x),
        !list.contains(y),
        spliced(blocks, after, x, y),
    ensures
        list_ok(after, list),
{
    assert forall|j: int| 0 <= j < list.len() implies is_free(after, #[trigger] list[j])
        && after[list[j]].next == blocks[list[j]].next && after[list[j]].prev
        == blocks[list[j]].prev by {
        assert(is_free(blocks, list[j]));
        assert(follows(blocks, list, j));
        assert(list.contains(list[j]));
        lemma_list_prev(blocks, list, j);
        assert(is_free(blocks, x));
        if j > 0 {
            assert(list.contains(list[j - 1]));
        }
        if j + 1 < list.len() {
            assert(list.contains(list[j + 1]));
        }
    }
    assert forall|j: int| 0 <= j < list.len() implies #[trigger] follows(after, list, j) by {
        assert(follows(blocks, list, j));
        assert(is_free(after, list[j]));
    }
}

proof fn lemma_allocated_spliced(blocks: Blocks, start: int, end: int, a: int, size: nat)
    requires
        0 < start,
        tiles(blocks, start, end),
        links_ok(blocks),
        is_free(blocks, a),
    ensures
        ({
            let b = block::split_block(a, blocks[a].payload, size);
            let after = block::blocks_allocated(blocks, a, size);
            spliced(blocks, after, a, b) && (b != 0 ==> !blocks.contains_key(b))
        }),
{
    let r = blocks[a];
    let b = block::split_block(a, r.payload, size);
    let after = block::blocks_allocated(blocks, a, size);
    lemma_null(blocks, start, end);
    assert(links_back(blocks, a));
    if b != 0 {
        assert(a < b < a + r.size());
        if blocks.contains_key(b) {
            assert(false);
        }
    }
    assert forall|c: int| c != a && c != b && is_free(blocks, c) implies ((blocks[c].next == a)
        == (c == r.prev)) && ((blocks[c].prev == a) == (c == r.next)) by {
        assert(links_back(blocks, c));
    }
}

proof fn lemma_allocated_tiles(blocks: Blocks, start: int, end: int, a: int, size: nat)
    requires
        0 < start,
        tiles(blocks, start, end),
        blocks.contains_key(a),
        block::neighbours_in(blocks, a),
    ensures
        tiles(block::blocks_allocated(blocks, a, size), start, end),
{
    let r = blocks[a];
    let b = block::split_block(a, r.payload, size);
    let after = block::blocks_allocated(blocks, a, size);
    let split = block::rest_payload(r.payload, size) >= 16;
    assert forall|c: int| blocks.contains_key(c) implies #[trigger] after.contains_key(c) && (c
        != a ==> after[c].size() == blocks[c].size()) by {
        if split {
            if blocks.contains_key(b) && b != a {
                assert(a < b);
                assert(false);
            }
        }
    }
    assert forall|c: int| #[trigger] after.contains_key(c) implies {
        &&& start <= c
        &&& c + after[c].size() <= end
        &&& end_of(after, c) == end || after.contains_key(end_of(after, c))
        &&& c == start || is_left_of(after, left_of(after, c), c)
    } by {
        if split && c == b {
            assert(is_left_of(after, a, c));
            let n = end_of(blocks, a);
            assert(n == end || blocks.contains_key(n));
            assert(b + after[b].size() == n);
        } else if c == a {
            if c != start {
                let p = left_of(blocks, c);
                assert(is_left_of(blocks, p, c));
                assert(after.contains_key(p));
                assert(is_left_of(after, p, c));
            }
            if !split {
                let n = end_of(blocks, a);
                assert(n == end || blocks.contains_key(n));
            }
        } else {
            assert(blocks.contains_key(c));
            let n = end_of(blocks, c);
            assert(n == end || blocks.contains_key(n));
            if c != start {
                let p = left_of(blocks, c);
                assert(is_left_of(blocks, p, c));
                assert(after.contains_key(p));
                if p == a && split {
                    assert(is_left_of(after, b, c));
                } else {
                    assert(is_left_of(after, p, c));
                }
            }
        }
    }
    assert forall|c: int, d: int| #[trigger]
        after.contains_key(c) && #[trigger] after.contains_key(d) && c < d implies c
        + after[c].size() <= d by {
        let c0 = if split && c == b {
            a
        } else {
            c
        };
        let d0 = if split && d == b {
            a
        } else {
            d
        };
        assert(blocks.contains_key(c0));
        assert(blocks.contains_key(d0));
    }
}

/// Taking bytes from a block of the list keeps the heap in order.
pub proof fn lemma_allocated_ok(
    blocks: Blocks,
    list: Seq<int>,
    start: int,
    end: int,
    i: int,
    size: nat,
)
    requires
        heap_ok(blocks, list, start, end),
        0 <= i < list.len(),
    ensures
        ({
            let a = list[i];
            let rest = block::split_block(a, blocks[a].payload, size);
            &&& heap_ok(
                block::blocks_allocated(blocks, a, size),
                list_allocated(list, i, rest),
                start,
                end,
            )
            &&& list_head(list_allocated(list, i, rest)) == (if i > 0 {
                list[0]
            } else if rest != 0 {
                rest
            } else {
                blocks[a].next
            })
        }),
{
    let a = list[i];
    let rest = block::split_block(a, blocks[a].payload, size);
    let after = block::blocks_allocated(blocks, a, size);
    lemma_null(blocks, start, end);
    assert(is_free(blocks, a));
    assert(links_back(blocks, a));
    lemma_allocated_spliced(blocks, start, end, a, size);
    lemma_allocated_tiles(blocks, start, end, a, size);
    lemma_spliced_links(blocks, after, a, rest);
    assert(follows(blocks, list, i));
    if rest != 0 {
        if list.contains(rest) {
            assert(is_free(blocks, list[list.index_of(rest)]));
        }
        lemma_spliced_list_replaced(blocks, after, list, i, rest);
    } else {
        lemma_spliced_list_removed(blocks, after, list, i);
    }
}

/// Freeing a used block, which then is in no list, keeps the heap in order.
pub proof fn lemma_freed_ok(blocks: Blocks, list: Seq<int>, start: int, end: int, a: int)
    requires
        heap_ok(blocks, list, start, end),
        blocks.contains_key(a),
        blocks[a].used,
    ensures
        heap_ok(block::blocks_freed(blocks, a), list, start, end),
        !list.contains(a),
{
    let after = block::blocks_freed(blocks, a);
    lemma_same_tiles(blocks, after, start, end);
    let rank = choose|rank: spec_fn(int) -> int| ranked(blocks, rank);
    assert forall|c: int| #[trigger] is_free(after, c) implies links_back(after, c) && (
    after[c].next != 0 ==> rank(c) < rank(after[c].next)) by {
        if c != a {
            assert(is_free(blocks, c));
            assert(links_back(blocks, c));
        }
    }
    assert(ranked(after, rank));
    assert forall|j: int| 0 <= j < list.len() implies #[trigger] list[j] != a && is_free(
        after,
        list[j],
    ) by {
        assert(is_free(blocks, list[j]));
    }
    assert forall|j: int| 0 <= j < list.len() implies #[trigger] follows(after, list, j) by {
        assert(follows(blocks, list, j));
        assert(list[j] != a);
    }
    if list.contains(a) {
        assert(list[list.index_of(a)] == a);
    }
}

/// The blocks tile the heap where they have the same places and sizes.
proof fn lemma_same_tiles(blocks: Blocks, after: Blocks, start: int, end: int)
    requires
        tiles(blocks, start, end),
        after.dom() =~= blocks.dom(),
        forall|c: int| #[trigger] blocks.contains_key(c) ==> after[c].payload == blocks[c].payload,
    ensures
        tiles(after, start, end),
{
    assert forall|c: int| #[trigger] after.contains_key(c) implies {
        &&& start <= c
        &&& c + after[c].size() <= end
        &&& end_of(after, c) == end || after.contains_key(end_of(after, c))
        &&& c == start || is_left_of(after, left_of(after, c), c)
    } by {
        assert(blocks.contains_key(c));
        let n = end_of(blocks, c);
        assert(n == end || blocks.contains_key(n));
        if c != start {
            let p = left_of(blocks, c);
            assert(is_left_of(blocks, p, c));
            assert(blocks.contains_key(p));
            assert(is_left_of(after, p, c));
        }
    }
    assert forall|c: int, d: int| #[trigger]
        after.contains_key(c) && #[trigger] after.contains_key(d) && c < d implies c
        + after[c].size() <= d by {
        assert(blocks.contains_key(c));
        assert(blocks.contains_key(d));
    }
}

/// The blocks tile the heap where one has been joined to the one before it.
proof fn lemma_joined_tiles(blocks: Blocks, after: Blocks, start: int, end: int, a: int, b: int)
    requires
        tiles(blocks, start, end),
        blocks.contains_key(a),
        blocks.contains_key(b),
        b == a + blocks[a].size(),
        after.dom() =~= blocks.dom().remove(b),
        forall|c: int| #[trigger]
            after.contains_key(c) ==> after[c].payload == (if c == a {
                blocks[a].payload + blocks[b].payload + 16
            } else {
                blocks[c].payload
            }),
    ensures
        tiles(after, start, end),
{
    assert forall|c: int| #[trigger] after.contains_key(c) implies {
        &&& start <= c
        &&& c + after[c].size() <= end
        &&& end_of(after, c) == end || after.contains_key(end_of(after, c))
        &&& c == start || is_left_of(after, left_of(after, c), c)
    } by {
        assert(blocks.contains_key(c));
        let n = end_of(blocks, c);
        assert(n == end || blocks.contains_key(n));
        let m = end_of(blocks, b);
        assert(m == end || blocks.contains_key(m));
        if c < a {
            assert(n <= a);
        }
        if c > b {
            assert(n > b);
        }
        if c != start {
            let p = left_of(blocks, c);
            assert(is_left_of(blocks, p, c));
            assert(blocks.contains_key(p));
            if p == b {
                assert(is_left_of(after, a, c));
            } else {
                assert(p != a);
                assert(is_left_of(after, p, c));
            }
        }
    }
    assert forall|c: int, d: int| #[trigger]
        after.contains_key(c) && #[trigger] after.contains_key(d) && c < d implies c
        + after[c].size() <= d by {
        assert(blocks.contains_key(c));
        assert(blocks.contains_key(d));
        if c == a {
            if d < b {
                assert(false);
            }
            assert(b < d);
        }
    }
}

/// Joining a free block without links to the one before it keeps the heap in order.
pub proof fn lemma_joined_left_ok(
    blocks: Blocks,
    list: Seq<int>,
    start: int,
    end: int,
    a: int,
    b: int,
)
    requires
        heap_ok(blocks, list, start, end),
        is_free(blocks, a),
        is_free(blocks, b),
        b == a + blocks[a].size(),
        blocks[b].prev == 0,
        blocks[b].next == 0,
        !list.contains(b),
    ensures
        heap_ok(block::blocks_joined(blocks, a, b, false), list, start, end),
{
    let after = block::blocks_joined(blocks, a, b, false);
    lemma_null(blocks, start, end);
    lemma_joined_tiles(blocks, after, start, end, a, b);
    assert forall|c: int| is_free(blocks, c) implies blocks[c].next != b && blocks[c].prev != b by {
        assert(links_back(blocks, c));
        assert(is_free(blocks, b));
    }
    assert(spliced(blocks, after, b, 0));
    lemma_spliced_links(blocks, after, b, 0);
    if list.contains(0) {
        assert(is_free(blocks, list[list.index_of(0)]));
    }
    lemma_spliced_list_same(blocks, after, list, b, 0);
}

/// Joining a free block to the one before it, which has no links, keeps the heap in order.
pub proof fn lemma_joined_take_ok(
    blocks: Blocks,
    list: Seq<int>,
    start: int,
    end: int,
    a: int,
    b: int,
)
    requires
        heap_ok(blocks, list, start, end),
        is_free(blocks, a),
        is_free(blocks, b),
        b == a + blocks[a].size(),
        !is_linked(blocks, list, a),
    ensures
        block::neighbours_in(blocks, b),
        blocks[b].prev != a,
        blocks[b].next != a,
        heap_ok(
            block::blocks_joined(blocks, a, b, true),
            list_replaced(list, b, a),
            start,
            end,
        ),
        list_head(list_replaced(list, b, a)) == (if list_head(list) == b {
            a
        } else {
            list_head(list)
        }),
{
    let after = block::blocks_joined(blocks, a, b, true);
    lemma_null(blocks, start, end);
    assert(links_back(blocks, b));
    assert(links_back(blocks, a));
    lemma_joined_tiles(blocks, after, start, end, a, b);
    let q = blocks[b];
    assert forall|c: int| c != a && c != b && is_free(blocks, c) implies ((blocks[c].next == b)
        == (c == q.prev)) && ((blocks[c].prev == b) == (c == q.next)) by {
        assert(links_back(blocks, c));
    }
    assert(spliced(blocks, after, b, a));
    lemma_spliced_links(blocks, after, b, a);
    if list.contains(a) {
        lemma_listed_is_linked(blocks, list, start, end, a);
    }
    if list.contains(b) {
        lemma_spliced_list_replaced(blocks, after, list, list.index_of(b), a);
    } else {
        lemma_spliced_list_same(blocks, after, list, b, a);
        if list.len() > 0 {
            assert(list.contains(list[0]));
        }
    }
}

/// Joining a free block that has left the list to the one before it keeps the heap in order.
pub proof fn lemma_joined_unlinked_ok(
    blocks: Blocks,
    list: Seq<int>,
    start: int,
    end: int,
    a: int,
    b: int,
)
    requires
        heap_ok(blocks, list, start, end),
        is_free(blocks, a),
        is_free(blocks, b),
        b == a + blocks[a].size(),
    ensures
        block::neighbours_in(blocks, b),
        ({
            let between = block::blocks_unlinked(blocks, b);
            &&& is_free(between, a)
            &&& is_free(between, b)
            &&& between[a].payload == blocks[a].payload
            &&& between[b].payload == blocks[b].payload
            &&& heap_ok(
                block::blocks_joined(between, a, b, false),
                list_removed(list, b),
                start,
                end,
            )
        }),
        list_head(list_removed(list, b)) == (if list_head(list) == b {
            blocks[b].next
        } else {
            list_head(list)
        }),
{
    let between = block::blocks_unlinked(blocks, b);
    let after = block::blocks_joined(between, a, b, false);
    lemma_null(blocks, start, end);
    assert(links_back(blocks, b));
    lemma_joined_tiles(blocks, after, start, end, a, b);
    let q = blocks[b];
    assert forall|c: int| c != b && is_free(blocks, c) implies ((blocks[c].next == b) == (c
        == q.prev)) && ((blocks[c].prev == b) == (c == q.next)) by {
        assert(links_back(blocks, c));
    }
    assert(spliced(blocks, after, b, 0));
    lemma_spliced_links(blocks, after, b, 0);
    if list.contains(0) {
        assert(is_free(blocks, list[list.index_of(0)]));
    }
    if list.contains(b) {
        let i = list.index_of(b);
        lemma_spliced_list_removed(blocks, after, list, i);
        lemma_list_prev(blocks, list, i);
        assert(follows(blocks, list, i));
        if i > 0 {
            assert(list[0] != list[i]);
        }
    } else {
        lemma_spliced_list_same(blocks, after, list, b, 0);
        if list.len() > 0 {
            assert(list.contains(list[0]));
        }
    }
}

/// Cutting a free block of the list in two keeps the heap in order. The latter part follows the
/// former in the list.
pub proof fn lemma_cut_ok(
    blocks: Blocks,
    list: Seq<int>,
    start: int,
    end: int,
    i: int,
    b: int,
)
    requires
        heap_ok(blocks, list, start, end),
        0 <= i < list.len(),
        block::can_cut(list[i], blocks[list[i]].payload, b),
    ensures
        heap_ok(block::blocks_cut(blocks, list[i], b), list.insert(i + 1, b), start, end),
        end_of(block::blocks_cut(blocks, list[i], b), list[i]) == b,
        !blocks.contains_key(b),
{
    let a = list[i];
    let r = blocks[a];
    let after = block::blocks_cut(blocks, a, b);
    lemma_null(blocks, start, end);
    assert(is_free(blocks, a));
    assert(links_back(blocks, a));
    if blocks.contains_key(b) {
        assert(a < b < a + r.size());
    }
    lemma_cut_tiles(blocks, after, start, end, a, b);
    assert forall|c: int| c != b implies #[trigger] is_free(after, c) == is_free(blocks, c) by {}
    let rank = choose|rank: spec_fn(int) -> int| ranked(blocks, rank);
    let rank2 = |c: int|
        if c == b {
            2 * rank(a) + 1
        } else {
            2 * rank(c)
        };
    assert(r.next != 0 ==> is_free(blocks, r.next) && rank(a) < rank(r.next));
    assert forall|c: int| #[trigger] is_free(after, c) implies links_back(after, c) && (
    after[c].next != 0 ==> rank2(c) < rank2(after[c].next)) by {
        if c == b {
            assert(is_free(after, a));
            if r.next != 0 {
                assert(is_free(after, r.next));
            }
        } else {
            assert(is_free(blocks, c));
            assert(links_back(blocks, c));
            let n = blocks[c].next;
            let p = blocks[c].prev;
            if n != 0 {
                assert(is_free(blocks, n));
                assert(is_free(after, n));
                assert(rank(c) < rank(n));
            }
            if p != 0 {
                assert(is_free(blocks, p));
                assert(is_free(after, p));
            }
            assert(is_free(after, b));
        }
    }
    assert(ranked(after, rank2));
    lemma_cut_list(blocks, list, start, end, i, b);
}

proof fn lemma_cut_list(
    blocks: Blocks,
    list: Seq<int>,
    start: int,
    end: int,
    i: int,
    b: int,
)
    requires
        heap_ok(blocks, list, start, end),
        0 <= i < list.len(),
        !blocks.contains_key(b),
    ensures
        list_ok(block::blocks_cut(blocks, list[i], b), list.insert(i + 1, b)),
{
    let a = list[i];
    let after = block::blocks_cut(blocks, a, b);
    let list2 = list.insert(i + 1, b);
    lemma_null(blocks, start, end);
    assert forall|j: int| 0 <= j < list2.len() implies #[trigger] list2[j] == (if j <= i {
        list[j]
    } else if j == i + 1 {
        b
    } else {
        list[j - 1]
    }) by {}
    assert forall|j: int| 0 <= j < list.len() implies is_free(blocks, #[trigger] list[j])
        && list[j] != b by {}
    assert forall|j: int| 0 <= j < list2.len() implies is_free(after, list2[j])
        && #[trigger] follows(after, list2, j) by {
        let k = if j <= i {
            j
        } else {
            j - 1
        };
        assert(is_free(blocks, list[k]));
        assert(follows(blocks, list, k));
        if k + 1 < list.len() {
            assert(is_free(blocks, list[k + 1]));
        }
        if j > i + 1 {
            assert(list[k] != list[i]);
        }
        if j < i {
            assert(list[j] != list[i]);
        }
    }
    assert forall|j: int| 0 <= j < list2.len() implies is_free(after, #[trigger] list2[j]) by {
        assert(follows(after, list2, j));
    }
    assert forall|j: int, k: int| 0 <= j < k < list2.len() implies list2[j] != list2[k] by {
        assert(list2[j] == list2[j] && list2[k] == list2[k]);
    }
    assert(follows(blocks, list, i));
    assert(list2[0] == list[0]);
    assert(is_free(blocks, list[0]));
    if i + 1 < list.len() {
        assert(list[i + 1] != list[0]);
    }
}

/// The blocks tile the heap where one has been cut in two.
proof fn lemma_cut_tiles(blocks: Blocks, after: Blocks, start: int, end: int, a: int, b: int)
    requires
        tiles(blocks, start, end),
        blocks.contains_key(a),
        !blocks.contains_key(b),
        a < b < end_of(blocks, a),
        after.dom() =~= blocks.dom().insert(b),
        after[a].size() == b - a,
        after[b].size() == end_of(blocks, a) - b,
        forall|c: int| #[trigger]
            blocks.contains_key(c) && c != a ==> after[c].payload == blocks[c].payload,
    ensures
        tiles(after, start, end),
{
    assert forall|c: int| #[trigger] after.contains_key(c) implies {
        &&& start <= c
        &&& c + after[c].size() <= end
        &&& end_of(after, c) == end || after.contains_key(end_of(after, c))
        &&& c == start || is_left_of(after, left_of(after, c), c)
    } by {
        let n = end_of(blocks, a);
        assert(n == end || blocks.contains_key(n));
        if c == b {
            assert(is_left_of(after, a, c));
        } else {
            assert(blocks.contains_key(c));
            let m = end_of(blocks, c);
            assert(m == end || blocks.contains_key(m));
            if c != start {
                let p = left_of(blocks, c);
                assert(is_left_of(blocks, p, c));
                if p == a {
                    assert(is_left_of(after, b, c));
                } else {
                    assert(is_left_of(after, p, c));
                }
            }
        }
    }
    assert forall|c: int, d: int| #[trigger]
        after.contains_key(c) && #[trigger] after.contains_key(d) && c < d implies c
        + after[c].size() <= d by {
        let c0 = if c == b {
            a
        } else {
            c
        };
        let d0 = if d == b {
            a
        } else {
            d
        };
        assert(blocks.contains_key(c0));
        assert(blocks.contains_key(d0));
    }
}

/// A free block without links can be the only one of the list.
pub proof fn lemma_first_ok(blocks: Blocks, start: int, end: int, a: int)
    requires
        heap_ok(blocks, Seq::empty(), start, end),
        is_free(blocks, a),
        blocks[a].prev == 0,
        blocks[a].next == 0,
    ensures
        heap_ok(blocks, seq![a], start, end),
{
    assert(seq![a][0] == a);
    assert forall|i: int| 0 <= i < 1 implies #[trigger] follows(blocks, seq![a], i) by {}
}

} // verus!
