//! Complete binary trees over frames, in which each node holds what is available below it.

use crate::bits;
use vstd::arithmetic::power2::*;
use vstd::prelude::*;

verus! {

// Nodes are numbered from 1 in specifications: the root is 1, the children of `n` are `2 * n`
// and `2 * n + 1`, and frame `f` is the leaf `frames + f`. Node `n` is stored at index `n - 1`.

/// What node `n` holds.
pub open spec fn node(t: Seq<i8>, n: int) -> int {
    t[n - 1] as int
}

/// The exponent of the number of frames below node `n`.
pub open spec fn height(frames: nat, n: int) -> int {
    bits::floor_log2(frames) - bits::floor_log2(n as nat)
}

/// What a node of height `h` holds over children that hold `l` and `r`: the exponent of the
/// largest available run, where two fully available halves make one run.
pub open spec fn combine(h: int, l: int, r: int) -> int {
    if l == h - 1 && r == h - 1 {
        h
    } else if l >= r {
        l
    } else {
        r
    }
}

/// Both children of node `n` are fully available.
pub open spec fn halves_full(frames: nat, t: Seq<i8>, n: int) -> bool {
    node(t, 2 * n) == height(frames, n) - 1 && node(t, 2 * n + 1) == height(frames, n) - 1
}

/// The node holds exactly what its children make of it.
pub open spec fn node_exact(frames: nat, t: Seq<i8>, n: int) -> bool {
    node(t, n) == combine(height(frames, n), node(t, 2 * n), node(t, 2 * n + 1))
}

pub open spec fn node_ok(frames: nat, t: Seq<i8>, n: int) -> bool {
    &&& -1 <= node(t, n) <= height(frames, n)
    &&& n < frames ==> node(t, n) == -1 || node_exact(frames, t, n)
}

/// The tree has one node for each run of a complete binary tree over `frames` leaves.
pub open spec fn tree_shape(frames: nat, t: Seq<i8>) -> bool {
    &&& frames == pow2(bits::floor_log2(frames))
    &&& bits::floor_log2(frames) < 64
    &&& t.len() == 2 * frames - 1
}

/// Every node is either unavailable or holds the exponent of the largest run available below it.
pub open spec fn tree_ok(frames: nat, t: Seq<i8>) -> bool {
    &&& tree_shape(frames, t)
    &&& forall|n: int| 1 <= n < 2 * frames ==> #[trigger] node_ok(frames, t, n)
}

/// Neither node `n` nor any node above it is marked unavailable.
pub open spec fn path_clear(t: Seq<i8>, n: int) -> bool
    decreases n,
{
    n <= 0 || (node(t, n) >= 0 && path_clear(t, n / 2))
}

/// Node `n` and all nodes above it hold exactly what their children make of them.
pub open spec fn path_exact(frames: nat, t: Seq<i8>, n: int) -> bool
    decreases n,
{
    n <= 0 || (node_exact(frames, t, n) && path_exact(frames, t, n / 2))
}

/// Frame `f` is available: no node over it is marked unavailable.
pub open spec fn frame_free(frames: nat, t: Seq<i8>, f: int) -> bool {
    path_clear(t, frames + f)
}

/// The tree after the nodes above node `n` have been brought up to date, from the parent upwards
/// until one does not change. Where two halves join, the nodes further up are looked at in any
/// case.
pub open spec fn settle(frames: nat, t: Seq<i8>, n: int) -> Seq<i8>
    decreases n,
{
    if n <= 1 {
        t
    } else {
        let p = n / 2;
        let v = combine(height(frames, p), node(t, 2 * p), node(t, 2 * p + 1));
        if v == node(t, p) && !halves_full(frames, t, p) {
            t
        } else {
            settle(frames, t.update(p - 1, v as i8), p)
        }
    }
}

/// Node `m` lies `d` levels below node `n`.
pub open spec fn below(m: int, n: int, d: nat) -> bool {
    n * pow2(d) <= m < (n + 1) * pow2(d)
}

pub proof fn lemma_below_parent(m: int, n: int, d: nat)
    requires
        d > 0,
    ensures
        below(m, n, d) <==> below(m / 2, n, (d - 1) as nat),
{
    let p = pow2((d - 1) as nat) as int;
    lemma_pow2_unfold(d);
    assert(n * (2 * p) == 2 * (n * p)) by (nonlinear_arith);
    assert((n + 1) * (2 * p) == 2 * ((n + 1) * p)) by (nonlinear_arith);
}

pub proof fn lemma_below_child(m: int, n: int, d: nat)
    requires
        d > 0,
    ensures
        below(m, n, d) <==> below(m, 2 * n, (d - 1) as nat) || below(
            m,
            2 * n + 1,
            (d - 1) as nat,
        ),
{
    let p = pow2((d - 1) as nat) as int;
    lemma_pow2_unfold(d);
    lemma_pow2_pos((d - 1) as nat);
    assert(n * (2 * p) == (2 * n) * p) by (nonlinear_arith);
    assert((n + 1) * (2 * p) == (2 * n + 2) * p) by (nonlinear_arith);
    assert((2 * n + 2) * p == (2 * n) * p + 2 * p) by (nonlinear_arith);
    assert((2 * n + 1) * p == (2 * n) * p + p) by (nonlinear_arith);
}

pub proof fn lemma_below_self(n: int)
    ensures
        forall|m: int| below(m, n, 0) <==> m == n,
{
    lemma2_to64();
}

/// Heights of nodes: leaves are at 0, and a child is one below its parent.
pub proof fn lemma_height(frames: nat, n: int)
    requires
        frames == pow2(bits::floor_log2(frames)),
        1 <= n < 2 * frames,
    ensures
        0 <= height(frames, n) <= height(frames, 1),
        height(frames, 1) == bits::floor_log2(frames),
        n < frames <==> height(frames, n) > 0,
        height(frames, 2 * n) == height(frames, n) - 1,
        height(frames, 2 * n + 1) == height(frames, n) - 1,
        n > 1 ==> height(frames, n / 2) == height(frames, n) + 1,
        n * pow2(height(frames, n) as nat) >= frames,
        (n + 1) * pow2(height(frames, n) as nat) <= 2 * frames,
{
    let k = bits::floor_log2(frames);
    let j = bits::floor_log2(n as nat);
    bits::lemma_floor_log2_bounds(n as nat);
    if j > k {
        bits::lemma_pow2_mono(k + 1, j);
        lemma_pow2_unfold(k + 1);
    }
    if n < frames && j >= k {
        bits::lemma_pow2_mono(k, j);
    }
    if n >= frames {
        bits::lemma_floor_log2_mono(frames, n as nat);
    }
    let h = (k - j) as nat;
    lemma_pow2_adds(j, h);
    let a = pow2(j) as int;
    let b = pow2(h) as int;
    assert(n * b >= a * b) by (nonlinear_arith)
        requires
            n >= a,
            b >= 0,
    ;
    assert((n + 1) * b <= 2 * (a * b)) by (nonlinear_arith)
        requires
            n + 1 <= 2 * a,
            b >= 0,
    ;
}

/// A fully available node makes everything below it fully available.
pub proof fn lemma_full_below(frames: nat, t: Seq<i8>, n: int, m: int, d: nat)
    requires
        tree_ok(frames, t),
        1 <= n,
        m < 2 * frames,
        below(m, n, d),
        node(t, n) == height(frames, n),
    ensures
        node(t, m) == height(frames, m),
        path_clear(t, n) ==> path_clear(t, m),
        m >= n,
    decreases d,
{
    lemma_below_self(n);
    if d > 0 {
        lemma_below_parent(m, n, d);
        lemma_full_below(frames, t, n, m / 2, (d - 1) as nat);
        lemma_height(frames, m / 2);
        lemma_height(frames, m);
        assert(node_ok(frames, t, m / 2));
        assert(node_ok(frames, t, 2 * (m / 2)));
        assert(node_ok(frames, t, 2 * (m / 2) + 1));
    }
}

/// A node holds no less than what any node below it holds, as long as nothing in between is
/// unavailable.
pub proof fn lemma_dominates(frames: nat, t: Seq<i8>, n: int, m: int, d: nat)
    requires
        tree_ok(frames, t),
        1 <= n,
        m < 2 * frames,
        below(m, n, d),
        path_clear(t, m),
    ensures
        node(t, n) >= node(t, m),
        path_clear(t, n),
        m >= n,
    decreases d,
{
    lemma_below_self(n);
    if d > 0 {
        lemma_below_parent(m, n, d);
        lemma_dominates(frames, t, n, m / 2, (d - 1) as nat);
        lemma_height(frames, m / 2);
        lemma_height(frames, m);
        assert(node_ok(frames, t, m / 2));
        assert(node_ok(frames, t, m));
        assert(path_clear(t, m / 2));
        assert(m == 2 * (m / 2) || m == 2 * (m / 2) + 1);
    }
}

/// A node all of whose leaves are available is fully available.
pub proof fn lemma_leaves_full(frames: nat, t: Seq<i8>, n: int, d: nat)
    requires
        tree_ok(frames, t),
        1 <= n < 2 * frames,
        d == height(frames, n),
        forall|m: int| #[trigger] below(m, n, d) ==> path_clear(t, m),
    ensures
        node(t, n) == height(frames, n),
        path_clear(t, n),
    decreases d,
{
    lemma_height(frames, n);
    assert(node_ok(frames, t, n));
    lemma_below_self(n);
    if d == 0 {
        assert(below(n, n, 0));
    } else {
        assert forall|m: int| #[trigger] below(m, 2 * n, (d - 1) as nat) implies path_clear(t, m) by {
            lemma_below_child(m, n, d);
            assert(below(m, n, d));
        }
        assert forall|m: int| #[trigger] below(m, 2 * n + 1, (d - 1) as nat) implies path_clear(
            t,
            m,
        ) by {
            lemma_below_child(m, n, d);
            assert(below(m, n, d));
        }
        lemma_leaves_full(frames, t, 2 * n, (d - 1) as nat);
        lemma_leaves_full(frames, t, 2 * n + 1, (d - 1) as nat);
        assert((2 * n) / 2 == n);
        assert(path_clear(t, n));
    }
}

/// Node `a` lies strictly above node `n`.
pub open spec fn above(a: int, n: int) -> bool
    decreases n,
{
    n > 1 && (a == n / 2 || above(a, n / 2))
}

pub proof fn lemma_above_smaller(a: int, n: int)
    requires
        above(a, n),
    ensures
        1 <= a < n,
    decreases n,
{
    if a != n / 2 {
        lemma_above_smaller(a, n / 2);
    }
}

pub proof fn lemma_root_above(n: int)
    requires
        n > 1,
    ensures
        above(1, n),
    decreases n,
{
    if n / 2 > 1 {
        lemma_root_above(n / 2);
    }
}

/// For leaves, lying below a node is a matter of the frame's number.
pub proof fn lemma_above_leaf(frames: nat, n: int, m: int)
    requires
        frames == pow2(bits::floor_log2(frames)),
        1 <= n < 2 * frames,
        frames <= m < 2 * frames,
    ensures
        (m == n || above(n, m)) <==> below(m, n, height(frames, n) as nat),
{
    lemma_height(frames, n);
    lemma_height(frames, m);
    lemma_below_self(n);
    if m == n {
    } else if above(n, m) {
        let d = lemma_above_gives_below(frames, n, m);
    } else if below(m, n, height(frames, n) as nat) {
        lemma_below_gives_above(n, m, height(frames, n) as nat);
    }
}

pub proof fn lemma_above_gives_below(frames: nat, n: int, m: int) -> (d: nat)
    requires
        frames == pow2(bits::floor_log2(frames)),
        1 <= n,
        m < 2 * frames,
        above(n, m),
    ensures
        d > 0,
        below(m, n, d),
        height(frames, m) == height(frames, n) - d,
    decreases m,
{
    lemma_below_self(n);
    lemma_height(frames, m);
    if n == m / 2 {
        lemma_below_parent(m, n, 1);
        1
    } else {
        let d = lemma_above_gives_below(frames, n, m / 2);
        lemma_below_parent(m, n, d + 1);
        d + 1
    }
}

pub proof fn lemma_below_gives_above(n: int, m: int, d: nat)
    requires
        1 <= n,
        below(m, n, d),
    ensures
        m == n || above(n, m),
        m >= n,
    decreases d,
{
    lemma_below_self(n);
    if d > 0 {
        lemma_below_parent(m, n, d);
        lemma_below_gives_above(n, m / 2, (d - 1) as nat);
    }
}

/// Bringing nodes up to date changes only nodes above the given one.
pub proof fn lemma_settle_frame(frames: nat, t: Seq<i8>, n: int, m: int)
    requires
        t.len() == 2 * frames - 1,
        1 <= n < 2 * frames,
        1 <= m < 2 * frames,
        !above(m, n),
    ensures
        settle(frames, t, n).len() == t.len(),
        node(settle(frames, t, n), m) == node(t, m),
    decreases n,
{
    if n > 1 {
        let p = n / 2;
        let v = combine(height(frames, p), node(t, 2 * p), node(t, 2 * p + 1));
        lemma_settle_frame(frames, t.update(p - 1, v as i8), p, m);
    }
}

pub proof fn lemma_settle_len(frames: nat, t: Seq<i8>, n: int)
    requires
        t.len() == 2 * frames - 1,
        1 <= n < 2 * frames,
    ensures
        settle(frames, t, n).len() == t.len(),
    decreases n,
{
    if n > 1 {
        let p = n / 2;
        let v = combine(height(frames, p), node(t, 2 * p), node(t, 2 * p + 1));
        lemma_settle_len(frames, t.update(p - 1, v as i8), p);
    }
}

/// If only the parent of `n` may be out of date, bringing the nodes above `n` up to date makes the
/// whole tree consistent.
pub proof fn lemma_settle_ok(frames: nat, t: Seq<i8>, n: int)
    requires
        tree_shape(frames, t),
        1 <= n < 2 * frames,
        forall|m: int| 1 <= m < 2 * frames && m != n / 2 ==> #[trigger] node_ok(frames, t, m),
    ensures
        tree_ok(frames, settle(frames, t, n)),
    decreases n,
{
    if n > 1 {
        let p = n / 2;
        lemma_height(frames, n);
        lemma_height(frames, p);
        assert(node_ok(frames, t, 2 * p));
        assert(node_ok(frames, t, 2 * p + 1));
        let v = combine(height(frames, p), node(t, 2 * p), node(t, 2 * p + 1));
        let t2 = t.update(p - 1, v as i8);
        if v == node(t, p) && !halves_full(frames, t, p) {
            assert(node_ok(frames, t, p));
        } else {
            assert forall|m: int| 1 <= m < 2 * frames && m != p / 2 implies #[trigger] node_ok(
                frames,
                t2,
                m,
            ) by {
                if m != p {
                    assert(node_ok(frames, t, m));
                }
            }
            lemma_settle_ok(frames, t2, p);
        }
    }
}

pub proof fn lemma_path_exact_frame(frames: nat, t1: Seq<i8>, t2: Seq<i8>, q: int)
    requires
        forall|m: int| q > 0 && 1 <= m <= 2 * q + 1 ==> #[trigger] node(t1, m) == node(t2, m),
        path_exact(frames, t1, q),
    ensures
        path_exact(frames, t2, q),
    decreases q,
{
    if q > 0 {
        assert(node(t1, q) == node(t2, q));
        assert(node(t1, 2 * q) == node(t2, 2 * q));
        assert(node(t1, 2 * q + 1) == node(t2, 2 * q + 1));
        lemma_path_exact_frame(frames, t1, t2, q / 2);
    }
}

/// After bringing the nodes above `n` up to date, they all are exact, if those above its parent
/// were exact before.
pub proof fn lemma_settle_exact(frames: nat, t: Seq<i8>, n: int)
    requires
        tree_shape(frames, t),
        1 <= n < 2 * frames,
        path_exact(frames, t, (n / 2) / 2),
    ensures
        path_exact(frames, settle(frames, t, n), n / 2),
    decreases n,
{
    if n > 1 {
        let p = n / 2;
        lemma_height(frames, n);
        lemma_height(frames, p);
        let v = combine(height(frames, p), node(t, 2 * p), node(t, 2 * p + 1));
        let t2 = t.update(p - 1, v as i8);
        if v == node(t, p) && !halves_full(frames, t, p) {
        } else {
            assert(path_exact(frames, t, p / 2));
            assert(path_exact(frames, t, (p / 2) / 2));
            lemma_path_exact_frame(frames, t, t2, (p / 2) / 2);
            lemma_settle_exact(frames, t2, p);
            let r = settle(frames, t2, p);
            if above(p, p) {
                lemma_above_smaller(p, p);
            }
            if above(2 * p, p) {
                lemma_above_smaller(2 * p, p);
            }
            if above(2 * p + 1, p) {
                lemma_above_smaller(2 * p + 1, p);
            }
            lemma_settle_frame(frames, t2, p, p);
            lemma_settle_frame(frames, t2, p, 2 * p);
            lemma_settle_frame(frames, t2, p, 2 * p + 1);
        }
    }
}

pub proof fn lemma_path_exact_above(frames: nat, t: Seq<i8>, n: int, q: int)
    requires
        path_exact(frames, t, n / 2),
        above(q, n),
    ensures
        path_exact(frames, t, q),
    decreases n,
{
    if q != n / 2 {
        assert(path_exact(frames, t, (n / 2) / 2));
        lemma_path_exact_above(frames, t, n / 2, q);
    }
}

/// On an exact path, one available node makes all nodes above it available.
pub proof fn lemma_exact_clear(frames: nat, t: Seq<i8>, q: int)
    requires
        frames == pow2(bits::floor_log2(frames)),
        q < frames,
        path_exact(frames, t, q),
        q > 0 ==> node(t, q) >= 0,
    ensures
        path_clear(t, q),
    decreases q,
{
    if q > 0 {
        if q / 2 > 0 {
            lemma_height(frames, q / 2);
            assert(path_exact(frames, t, q / 2));
            assert(node_exact(frames, t, q / 2));
            assert(q == 2 * (q / 2) || q == 2 * (q / 2) + 1);
        }
        lemma_exact_clear(frames, t, q / 2);
    }
}

/// Two trees that differ only at node `n` and above it agree on all frames that are not below `n`,
/// if the nodes above `n` are exact in both.
pub proof fn lemma_agree(frames: nat, t1: Seq<i8>, t2: Seq<i8>, n: int, m: int)
    requires
        frames == pow2(bits::floor_log2(frames)),
        1 <= n < 2 * frames,
        1 <= m < 2 * frames,
        forall|k: int|
            1 <= k < 2 * frames && k != n && !above(k, n) ==> #[trigger] node(t1, k) == node(t2, k),
        path_exact(frames, t1, n / 2),
        path_exact(frames, t2, n / 2),
        m != n,
        !above(m, n),
        !above(n, m),
    ensures
        path_clear(t1, m) == path_clear(t2, m),
    decreases m,
{
    if m == 1 {
        lemma_root_above(n);
    } else {
        let p = m / 2;
        assert(node(t1, m) == node(t2, m));
        if above(p, n) {
            lemma_height(frames, m);
            lemma_height(frames, p);
            lemma_path_exact_above(frames, t1, n, p);
            lemma_path_exact_above(frames, t2, n, p);
            assert(m == 2 * p || m == 2 * p + 1);
            if node(t1, m) >= 0 {
                lemma_exact_clear(frames, t1, p);
                lemma_exact_clear(frames, t2, p);
            }
        } else {
            lemma_agree(frames, t1, t2, n, p);
        }
    }
}

/// Two trees with exact nodes above `n` that agree everywhere else are equal.
pub proof fn lemma_exact_unique(frames: nat, t1: Seq<i8>, t2: Seq<i8>, n: int)
    requires
        tree_shape(frames, t1),
        tree_shape(frames, t2),
        1 <= n < 2 * frames,
        forall|k: int|
            1 <= k < 2 * frames && !above(k, n) ==> #[trigger] node(t1, k) == node(t2, k),
        path_exact(frames, t1, n / 2),
        path_exact(frames, t2, n / 2),
    ensures
        t1 == t2,
    decreases n,
{
    if n <= 1 {
        assert forall|i: int| 0 <= i < t1.len() implies t1[i] == t2[i] by {
            assert(node(t1, i + 1) == node(t2, i + 1));
        }
        assert(t1 =~= t2);
    } else {
        let p = n / 2;
        lemma_height(frames, n);
        lemma_height(frames, p);
        if above(2 * p, n) {
            lemma_above_not_sibling(2 * p, n);
        }
        if above(2 * p + 1, n) {
            lemma_above_not_sibling(2 * p + 1, n);
        }
        assert(node(t1, 2 * p) == node(t2, 2 * p));
        assert(node(t1, 2 * p + 1) == node(t2, 2 * p + 1));
        assert forall|k: int| 1 <= k < 2 * frames && !above(k, p) implies #[trigger] node(t1, k)
            == node(t2, k) by {
            if k != p {
                assert(!above(k, n));
            }
        }
        lemma_exact_unique(frames, t1, t2, p);
    }
}

pub proof fn lemma_above_not_sibling(s: int, n: int)
    requires
        n > 1,
        s / 2 == n / 2,
    ensures
        !above(s, n),
{
    if above(s, n) {
        if s == n / 2 {
        } else {
            lemma_above_smaller(s, n / 2);
        }
    }
}

/// Nothing below an unavailable node is available.
pub proof fn lemma_blocked(t: Seq<i8>, n: int, m: int)
    requires
        node(t, n) < 0,
        1 <= n,
        m == n || above(n, m),
    ensures
        !path_clear(t, m),
    decreases m,
{
    if m != n {
        lemma_above_smaller(n, m);
        lemma_blocked(t, n, m / 2);
    }
}

/// Marking node `n` unavailable takes its frames, and no others.
pub proof fn lemma_occupied(frames: nat, t: Seq<i8>, n: int)
    requires
        tree_ok(frames, t),
        1 <= n < 2 * frames,
    ensures
        ({
            let t2 = settle(frames, t.update(n - 1, -1i8), n);
            &&& tree_ok(frames, t2)
            &&& node(t2, n) == -1
            &&& forall|m: int|
                1 <= m < 2 * frames && m != n && !above(m, n) ==> #[trigger] node(t2, m) == node(
                    t,
                    m,
                )
            &&& path_exact(frames, t, n / 2) ==> {
                &&& path_exact(frames, t2, n / 2)
                &&& forall|f: int|
                    0 <= f < frames ==> (#[trigger] frame_free(frames, t2, f) <==> frame_free(
                        frames,
                        t,
                        f,
                    ) && !below(frames + f, n, height(frames, n) as nat))
            }
        }),
{
    let t1 = t.update(n - 1, -1i8);
    let t2 = settle(frames, t1, n);
    lemma_height(frames, n);
    assert forall|m: int| 1 <= m < 2 * frames && m != n / 2 implies #[trigger] node_ok(
        frames,
        t1,
        m,
    ) by {
        assert(node_ok(frames, t, m));
        lemma_height(frames, m);
    }
    lemma_settle_ok(frames, t1, n);
    if above(n, n) {
        lemma_above_smaller(n, n);
    }
    lemma_settle_frame(frames, t1, n, n);
    assert forall|m: int| 1 <= m < 2 * frames && m != n && !above(m, n) implies #[trigger] node(
        t2,
        m,
    ) == node(t, m) by {
        lemma_settle_frame(frames, t1, n, m);
    }
    if path_exact(frames, t, n / 2) {
        assert(path_exact(frames, t, (n / 2) / 2));
        lemma_path_exact_frame(frames, t, t1, (n / 2) / 2);
        lemma_settle_exact(frames, t1, n);
        assert forall|f: int| 0 <= f < frames implies (#[trigger] frame_free(frames, t2, f)
            <==> frame_free(frames, t, f) && !below(frames + f, n, height(frames, n) as nat)) by {
            let m = frames + f;
            lemma_above_leaf(frames, n, m);
            if m == n || above(n, m) {
                lemma_blocked(t2, n, m);
            } else {
                lemma_above_leaf_not(frames, m, n);
                lemma_agree(frames, t, t2, n, m);
            }
        }
    }
}

/// No node lies below a leaf.
pub proof fn lemma_above_leaf_not(frames: nat, m: int, n: int)
    requires
        m >= frames,
        n < 2 * frames,
    ensures
        !above(m, n),
{
    if above(m, n) && m != n / 2 {
        lemma_above_smaller(m, n / 2);
    }
}

/// Node `n` was taken as one run and nothing was taken inside it since.
pub open spec fn taken_whole(frames: nat, t: Seq<i8>, n: int) -> bool {
    &&& node(t, n) == -1
    &&& n < frames ==> halves_full(frames, t, n)
    &&& path_exact(frames, t, n / 2)
}

/// Marking a node that was taken as one run available again releases its frames, and no others.
pub proof fn lemma_released(frames: nat, t: Seq<i8>, n: int)
    requires
        tree_ok(frames, t),
        1 <= n < 2 * frames,
        taken_whole(frames, t, n),
    ensures
        ({
            let t2 = settle(frames, t.update(n - 1, height(frames, n) as i8), n);
            &&& tree_ok(frames, t2)
            &&& node(t2, n) == height(frames, n)
            &&& path_clear(t2, n)
            &&& forall|m: int|
                1 <= m < 2 * frames && m != n && !above(m, n) ==> #[trigger] node(t2, m) == node(
                    t,
                    m,
                )
            &&& path_exact(frames, t2, n / 2)
            &&& forall|f: int|
                0 <= f < frames ==> (#[trigger] frame_free(frames, t2, f) <==> frame_free(
                    frames,
                    t,
                    f,
                ) || below(frames + f, n, height(frames, n) as nat))
        }),
{
    let h = height(frames, n);
    let t1 = t.update(n - 1, h as i8);
    let t2 = settle(frames, t1, n);
    lemma_height(frames, n);
    assert forall|m: int| 1 <= m < 2 * frames && m != n / 2 implies #[trigger] node_ok(
        frames,
        t1,
        m,
    ) by {
        assert(node_ok(frames, t, m));
        lemma_height(frames, m);
    }
    lemma_settle_ok(frames, t1, n);
    if above(n, n) {
        lemma_above_smaller(n, n);
    }
    lemma_settle_frame(frames, t1, n, n);
    assert forall|m: int| 1 <= m < 2 * frames && m != n && !above(m, n) implies #[trigger] node(
        t2,
        m,
    ) == node(t, m) by {
        lemma_settle_frame(frames, t1, n, m);
    }
    assert(path_exact(frames, t, (n / 2) / 2));
    lemma_path_exact_frame(frames, t, t1, (n / 2) / 2);
    lemma_settle_exact(frames, t1, n);
    assert(path_clear(t2, n)) by {
        assert(node(t2, n) == h);
        if n > 1 {
            lemma_height(frames, n / 2);
            assert(node_exact(frames, t2, n / 2));
            assert(n == 2 * (n / 2) || n == 2 * (n / 2) + 1);
            lemma_exact_clear(frames, t2, n / 2);
        }
        assert(path_clear(t2, n / 2));
    }
    assert forall|f: int| 0 <= f < frames implies (#[trigger] frame_free(frames, t2, f)
        <==> frame_free(frames, t, f) || below(frames + f, n, h as nat)) by {
        let m = frames + f;
        lemma_above_leaf(frames, n, m);
        if m == n || above(n, m) {
            lemma_full_below(frames, t2, n, m, h as nat);
        } else {
            lemma_above_leaf_not(frames, m, n);
            lemma_agree(frames, t, t2, n, m);
        }
    }
}

/// The `size` frames from `off` on form one run of the tree and are all available.
pub open spec fn run_free(frames: nat, t: Seq<i8>, off: int, size: nat) -> bool {
    &&& 0 <= off
    &&& off % (size as int) == 0
    &&& off + size <= frames
    &&& forall|f: int| off <= f < off + size ==> #[trigger] frame_free(frames, t, f)
}

/// The `2^k` frames from `off` on were taken as one run.
pub open spec fn run_taken(frames: nat, t: Seq<i8>, off: int, k: nat) -> bool {
    &&& 0 <= off
    &&& off % (pow2(k) as int) == 0
    &&& off + pow2(k) <= frames
    &&& taken_whole(frames, t, (off + frames) / pow2(k) as int)
}

/// The node of a run: the frames below it are those of the run.
pub proof fn lemma_run_node(frames: nat, off: int, k: nat) -> (n: int)
    requires
        frames == pow2(bits::floor_log2(frames)),
        0 <= off < frames,
        pow2(k) <= frames,
    ensures
        n == (off + frames) / pow2(k) as int,
        1 <= n < 2 * frames,
        height(frames, n) == k,
        n * pow2(k) == off - off % (pow2(k) as int) + frames,
        forall|f: int|
            #![trigger below(frames + f, n, k)]
            below(frames + f, n, k) <==> off - off % (pow2(k) as int) <= f < off - off % (pow2(
                k,
            ) as int) + pow2(k),
{
    let kk = bits::floor_log2(frames);
    let size = pow2(k) as int;
    lemma_pow2_pos(k);
    if k > kk {
        lemma_pow2_strictly_increases(kk, k);
    }
    let e = (kk - k) as nat;
    let w = pow2(e) as int;
    lemma_pow2_adds(k, e);
    let q = off / size;
    let r = off % size;
    let n = q + w;
    assert(off == size * q + r) by {
        vstd::arithmetic::div_mod::lemma_fundamental_div_mod(off, size);
    }
    assert(off + frames == size * n + r) by (nonlinear_arith)
        requires
            off == size * q + r,
            frames == size * w,
            n == q + w,
    ;
    assert((off + frames) / size == n) by {
        vstd::arithmetic::div_mod::lemma_fundamental_div_mod_converse(off + frames, size, n, r);
    }
    assert(0 <= q < w) by (nonlinear_arith)
        requires
            size * q + r == off,
            0 <= r < size,
            0 <= off < size * w,
    ;
    bits::lemma_floor_log2_unique(n as nat, e);
    assert(n < 2 * frames) by (nonlinear_arith)
        requires
            n < 2 * w,
            frames == size * w,
            size >= 1,
    ;
    assert(n * size == size * n) by (nonlinear_arith);
    assert((n + 1) * size == n * size + size) by (nonlinear_arith);
    n
}

/// A run is available exactly when its node is fully available and nothing above it is taken.
pub proof fn lemma_run_free(frames: nat, t: Seq<i8>, off: int, k: nat) -> (n: int)
    requires
        tree_ok(frames, t),
        0 <= off,
        off % (pow2(k) as int) == 0,
        off + pow2(k) <= frames,
    ensures
        n == (off + frames) / pow2(k) as int,
        1 <= n < 2 * frames,
        height(frames, n) == k,
        n * pow2(k) == off + frames,
        run_free(frames, t, off, pow2(k)) <==> node(t, n) == k && path_clear(t, n),
{
    lemma_pow2_pos(k);
    let n = lemma_run_node(frames, off, k);
    lemma_height(frames, n);
    if node(t, n) == k && path_clear(t, n) {
        assert forall|f: int| off <= f < off + pow2(k) implies #[trigger] frame_free(
            frames,
            t,
            f,
        ) by {
            assert(below(frames + f, n, k));
            lemma_full_below(frames, t, n, frames + f, k);
        }
    }
    if run_free(frames, t, off, pow2(k)) {
        assert forall|m: int| #[trigger] below(m, n, k) implies path_clear(t, m) by {
            assert(below(frames + (m - frames), n, k));
            assert(frame_free(frames, t, m - frames));
        }
        lemma_leaves_full(frames, t, n, k);
    }
    n
}

/// A run that was taken stays so while other nodes change, as long as the nodes above them stay
/// exact.
pub proof fn lemma_taken_frame(frames: nat, t1: Seq<i8>, t2: Seq<i8>, n: int, j: int)
    requires
        tree_ok(frames, t1),
        1 <= n < 2 * frames,
        1 <= j < 2 * frames,
        j != n,
        taken_whole(frames, t1, j),
        forall|m: int|
            1 <= m < 2 * frames && m != n && !above(m, n) ==> #[trigger] node(t2, m) == node(t1, m),
        path_exact(frames, t2, n / 2),
        node(t1, n) == height(frames, n) ==> path_clear(t1, n),
        node(t1, n) == height(frames, n) || taken_whole(frames, t1, n),
    ensures
        taken_whole(frames, t2, j),
{
    lemma_height(frames, n);
    lemma_height(frames, j);
    if above(j, n) {
        lemma_not_nested(frames, t1, j, n);
    }
    if above(n, j) {
        if node(t1, n) == height(frames, n) {
            let d = lemma_above_gives_below(frames, n, j);
            lemma_full_below(frames, t1, n, j, d);
        } else {
            lemma_not_nested(frames, t1, n, j);
        }
    }
    if j < frames {
        if above(2 * j, n) || 2 * j == n {
            lemma_above_trans(j, 2 * j, n);
        }
        if above(2 * j + 1, n) || 2 * j + 1 == n {
            lemma_above_trans(j, 2 * j + 1, n);
        }
        assert(node(t2, 2 * j) == node(t1, 2 * j));
        assert(node(t2, 2 * j + 1) == node(t1, 2 * j + 1));
    }
    assert(node(t2, j) == node(t1, j));
    lemma_exact_elsewhere(frames, t1, t2, n, j / 2);
}

pub proof fn lemma_above_trans(a: int, b: int, n: int)
    requires
        b == n || above(b, n),
        b > 1,
        a == b / 2,
    ensures
        above(a, n),
    decreases n,
{
    if b != n {
        if b == n / 2 {
            assert(above(a, n / 2));
        } else {
            lemma_above_trans(a, b, n / 2);
        }
    }
}

/// Nothing below a node that was taken as one run is itself taken or reachable.
pub proof fn lemma_not_nested(frames: nat, t: Seq<i8>, a: int, n: int)
    requires
        tree_ok(frames, t),
        1 <= a < 2 * frames,
        n < 2 * frames,
        taken_whole(frames, t, a),
        above(a, n),
    ensures
        node(t, n) == height(frames, n),
        !path_clear(t, n),
        node(t, n) >= 0,
    decreases n,
{
    lemma_blocked(t, a, n);
    lemma_above_smaller(a, n);
    lemma_height(frames, a);
    lemma_height(frames, n);
    let d = lemma_above_gives_below(frames, a, n);
    if a >= frames {
        lemma_above_leaf_not(frames, a, n);
    }
    lemma_below_child(n, a, d);
    assert(node_ok(frames, t, 2 * a));
    assert(node_ok(frames, t, 2 * a + 1));
    if below(n, 2 * a, (d - 1) as nat) {
        lemma_full_below(frames, t, 2 * a, n, (d - 1) as nat);
    } else {
        lemma_full_below(frames, t, 2 * a + 1, n, (d - 1) as nat);
    }
}

pub proof fn lemma_exact_elsewhere(frames: nat, t1: Seq<i8>, t2: Seq<i8>, n: int, q: int)
    requires
        frames == pow2(bits::floor_log2(frames)),
        1 <= n < 2 * frames,
        q < frames,
        q != n,
        !above(n, q),
        forall|m: int|
            1 <= m < 2 * frames && m != n && !above(m, n) ==> #[trigger] node(t2, m) == node(t1, m),
        path_exact(frames, t1, q),
        path_exact(frames, t2, n / 2),
    ensures
        path_exact(frames, t2, q),
    decreases q,
{
    if q > 0 {
        if above(q, n) {
            lemma_path_exact_above(frames, t2, n, q);
        } else {
            if above(2 * q, n) || 2 * q == n {
                lemma_above_trans(q, 2 * q, n);
            }
            if above(2 * q + 1, n) || 2 * q + 1 == n {
                lemma_above_trans(q, 2 * q + 1, n);
            }
            assert(node(t2, q) == node(t1, q));
            assert(node(t2, 2 * q) == node(t1, 2 * q));
            assert(node(t2, 2 * q + 1) == node(t1, 2 * q + 1));
            lemma_exact_elsewhere(frames, t1, t2, n, q / 2);
        }
    }
}

/// A clear path in a consistent tree is exact.
pub proof fn lemma_clear_exact(frames: nat, t: Seq<i8>, n: int)
    requires
        tree_ok(frames, t),
        n < frames,
        path_clear(t, n),
    ensures
        path_exact(frames, t, n),
    decreases n,
{
    if n > 0 {
        assert(node_ok(frames, t, n));
        lemma_clear_exact(frames, t, n / 2);
    }
}

/// The number of frames that a tree of `len` bytes can manage.
pub open spec fn frames_for(len: nat) -> nat {
    if len + 1 == pow2(bits::floor_log2(len + 1)) {
        (len + 1) / 2
    } else {
        len / 2
    }
}

/// The logarithm grows by one at each power of two.
pub proof fn lemma_log2_step(i: nat)
    ensures
        i > 0 ==> bits::floor_log2(i + 1) == bits::floor_log2(i) + (if i + 1 == pow2(
            bits::floor_log2(i + 1),
        ) {
            1nat
        } else {
            0nat
        }),
        pow2(bits::floor_log2(1)) == 1,
        bits::floor_log2(1) == 0,
{
    lemma2_to64();
    if i > 0 {
        let k = bits::floor_log2(i + 1);
        bits::lemma_floor_log2_bounds(i + 1);
        if i + 1 == pow2(k) {
            if k == 0 {
                assert(false);
            }
            lemma_pow2_unfold(k);
            bits::lemma_floor_log2_unique(i, (k - 1) as nat);
        } else {
            bits::lemma_floor_log2_unique(i, k);
        }
    }
}

/// The tree in which each node holds its height is consistent, and all frames are available.
pub proof fn lemma_initial(frames: nat, t: Seq<i8>)
    requires
        tree_shape(frames, t),
        forall|i: int| 0 <= i < t.len() ==> #[trigger] t[i] == height(frames, i + 1),
    ensures
        tree_ok(frames, t),
        forall|f: int| 0 <= f < frames ==> #[trigger] frame_free(frames, t, f),
{
    assert forall|n: int| 1 <= n < 2 * frames implies #[trigger] node_ok(frames, t, n) by {
        lemma_height(frames, n);
        assert(t[n - 1] == height(frames, n));
        if n < frames {
            assert(t[2 * n - 1] == height(frames, 2 * n));
            assert(t[2 * n] == height(frames, 2 * n + 1));
        }
    }
    assert forall|f: int| 0 <= f < frames implies #[trigger] frame_free(frames, t, f) by {
        lemma_initial_clear(frames, t, frames + f);
    }
}

pub proof fn lemma_initial_clear(frames: nat, t: Seq<i8>, n: int)
    requires
        tree_shape(frames, t),
        forall|i: int| 0 <= i < t.len() ==> #[trigger] t[i] == height(frames, i + 1),
        n < 2 * frames,
    ensures
        path_clear(t, n),
    decreases n,
{
    if n > 0 {
        lemma_height(frames, n);
        assert(t[n - 1] == height(frames, n));
        lemma_initial_clear(frames, t, n / 2);
    }
}

/// What taking node `n` does: its frames leave, everything else stays.
pub proof fn lemma_take_effect(frames: nat, t: Seq<i8>, n: int, k: nat)
    requires
        tree_ok(frames, t),
        1 <= n < 2 * frames,
        height(frames, n) == k,
        node(t, n) == k,
        path_clear(t, n),
    ensures
        ({
            let t2 = settle(frames, t.update(n - 1, -1i8), n);
            let off = n * pow2(k) - frames;
            &&& tree_ok(frames, t2)
            &&& 0 <= off
            &&& off + pow2(k) <= frames
            &&& off % (pow2(k) as int) == 0
            &&& forall|f: int|
                0 <= f < frames ==> (#[trigger] frame_free(frames, t2, f) <==> frame_free(
                    frames,
                    t,
                    f,
                ) && !(off <= f < off + pow2(k)))
            &&& forall|o: int, j: nat|
                #[trigger] run_taken(frames, t2, o, j) <==> run_taken(frames, t, o, j) || (o == off
                    && j == k)
        }),
{
    let t2 = settle(frames, t.update(n - 1, -1i8), n);
    let off = n * pow2(k) - frames;
    lemma_height(frames, n);
    lemma_pow2_pos(k);
    lemma_node_run(frames, n, k);
    lemma_clear_exact(frames, t, n / 2);
    lemma_occupied(frames, t, n);
    lemma_full_path_exact(frames, t, n);
    assert(taken_whole(frames, t2, n)) by {
        if n < frames {
            assert(node_ok(frames, t, n));
            assert(node_ok(frames, t, 2 * n));
            assert(node_ok(frames, t, 2 * n + 1));
            if above(2 * n, n) {
                lemma_above_smaller(2 * n, n);
            }
            if above(2 * n + 1, n) {
                lemma_above_smaller(2 * n + 1, n);
            }
            assert(node(t2, 2 * n) == node(t, 2 * n));
            assert(node(t2, 2 * n + 1) == node(t, 2 * n + 1));
        }
    }
    let n0 = lemma_run_node(frames, off, k);
    assert(n0 == n) by {
        lemma_same_run(n0, n, pow2(k) as int);
    }
    assert(node_ok(frames, t, n));
    assert(!taken_whole(frames, t, n));
    assert forall|o: int, j: nat|
        #[trigger] run_taken(frames, t2, o, j) <==> run_taken(frames, t, o, j) || (o == off && j
            == k) by {
        lemma_pow2_pos(j);
        if run_taken(frames, t2, o, j) || run_taken(frames, t, o, j) {
            let m = lemma_run_node(frames, o, j);
            if m == n {
                assert(j == k);
                assert(o == off);
            } else {
                if run_taken(frames, t, o, j) {
                    lemma_taken_frame(frames, t, t2, n, m);
                }
                if run_taken(frames, t2, o, j) {
                    lemma_taken_frame(frames, t2, t, n, m);
                }
            }
        }
    }
    assert forall|f: int|
        0 <= f < frames implies (#[trigger] frame_free(frames, t2, f) <==> frame_free(frames, t, f)
        && !(off <= f < off + pow2(k))) by {
        assert(below(frames + f, n, k) <==> off <= f < off + pow2(k));
    }
}

pub proof fn lemma_same_run(a: int, b: int, size: int)
    requires
        size > 0,
        a * size == b * size,
    ensures
        a == b,
{
    assert(a == b) by (nonlinear_arith)
        requires
            size > 0,
            a * size == b * size,
    ;
}

/// The frames of a node of height `k` form a run.
pub proof fn lemma_node_run(frames: nat, n: int, k: nat)
    requires
        frames == pow2(bits::floor_log2(frames)),
        1 <= n < 2 * frames,
        height(frames, n) == k,
    ensures
        ({
            let off = n * pow2(k) - frames;
            &&& 0 <= off
            &&& off + pow2(k) <= frames
            &&& off % (pow2(k) as int) == 0
            &&& n == (off + frames) / pow2(k) as int
        }),
{
    let size = pow2(k) as int;
    lemma_pow2_pos(k);
    lemma_height(frames, n);
    lemma_height(frames, 1);
    assert((n + 1) * size == n * size + size) by (nonlinear_arith);
    let e = (bits::floor_log2(frames) - k) as nat;
    lemma_pow2_adds(k, e);
    let w = pow2(e) as int;
    let q = n - w;
    assert(n * size - frames == q * size) by (nonlinear_arith)
        requires
            frames == size * w,
            q == n - w,
    ;
    vstd::arithmetic::div_mod::lemma_mod_multiples_basic(q, size);
    vstd::arithmetic::div_mod::lemma_div_multiples_vanish(n, size);
    assert(size * n == n * size) by (nonlinear_arith);
}

pub proof fn lemma_full_path_exact(frames: nat, t: Seq<i8>, n: int)
    requires
        tree_ok(frames, t),
        1 <= n < 2 * frames,
        path_clear(t, n),
    ensures
        path_exact(frames, t, n / 2),
{
    lemma_height(frames, n);
    lemma_clear_exact(frames, t, n / 2);
}

/// What freeing a run that was taken does: its frames come back, everything else stays.
pub proof fn lemma_give_effect(frames: nat, t: Seq<i8>, n: int, k: nat)
    requires
        tree_ok(frames, t),
        1 <= n < 2 * frames,
        height(frames, n) == k,
        taken_whole(frames, t, n),
    ensures
        ({
            let t2 = settle(frames, t.update(n - 1, k as i8), n);
            let off = n * pow2(k) - frames;
            &&& tree_ok(frames, t2)
            &&& forall|f: int|
                0 <= f < frames ==> (#[trigger] frame_free(frames, t2, f) <==> frame_free(
                    frames,
                    t,
                    f,
                ) || off <= f < off + pow2(k))
            &&& forall|o: int, j: nat|
                #[trigger] run_taken(frames, t2, o, j) <==> run_taken(frames, t, o, j) && !(o == off
                    && j == k)
            &&& forall|f: int| off <= f < off + pow2(k) ==> !#[trigger] frame_free(frames, t, f)
        }),
{
    let t2 = settle(frames, t.update(n - 1, k as i8), n);
    let off = n * pow2(k) - frames;
    lemma_height(frames, n);
    lemma_pow2_pos(k);
    lemma_node_run(frames, n, k);
    lemma_released(frames, t, n);
    let n0 = lemma_run_node(frames, off, k);
    assert(n0 == n) by {
        lemma_same_run(n0, n, pow2(k) as int);
    }
    assert forall|o: int, j: nat|
        #[trigger] run_taken(frames, t2, o, j) <==> run_taken(frames, t, o, j) && !(o == off && j
            == k) by {
        lemma_pow2_pos(j);
        if run_taken(frames, t2, o, j) || run_taken(frames, t, o, j) {
            let m = lemma_run_node(frames, o, j);
            if m == n {
                assert(j == k);
                assert(o == off);
            } else {
                if run_taken(frames, t, o, j) {
                    lemma_taken_frame(frames, t, t2, n, m);
                }
                if run_taken(frames, t2, o, j) {
                    lemma_taken_frame(frames, t2, t, n, m);
                }
            }
        }
    }
    assert forall|f: int|
        0 <= f < frames implies (#[trigger] frame_free(frames, t2, f) <==> frame_free(frames, t, f)
        || off <= f < off + pow2(k)) by {
        assert(below(frames + f, n, k) <==> off <= f < off + pow2(k));
    }
    assert forall|f: int| off <= f < off + pow2(k) implies !#[trigger] frame_free(
        frames,
        t,
        f,
    ) by {
        assert(below(frames + f, n, k));
        lemma_above_leaf(frames, n, frames + f);
        lemma_blocked(t, n, frames + f);
    }
}

/// Node `m` lies to the left of the nodes `d` levels below node `n`.
pub open spec fn below_start(m: int, n: int, d: nat) -> bool {
    1 <= m < n * pow2(d)
}

pub proof fn lemma_start(m: int, n: int, d: nat)
    requires
        d > 0,
        1 <= m,
    ensures
        below_start(m, 2 * n, (d - 1) as nat) <==> below_start(m, n, d),
        below_start(m, 2 * n + 1, (d - 1) as nat) <==> below_start(m, n, d) || below(
            m,
            2 * n,
            (d - 1) as nat,
        ),
{
    let p = pow2((d - 1) as nat) as int;
    lemma_pow2_unfold(d);
    lemma_pow2_pos((d - 1) as nat);
    assert(n * (2 * p) == (2 * n) * p) by (nonlinear_arith);
    assert((2 * n + 1) * p == (2 * n) * p + p) by (nonlinear_arith);
}

/// Node `m` stands for a run of `2^k` frames that is available.
pub open spec fn run_node(frames: nat, t: Seq<i8>, m: int, k: nat) -> bool {
    node(t, m) == k && height(frames, m) == k && m < 2 * frames && path_clear(t, m)
}

/// No run of `2^k` frames is available to the left of the nodes `d` levels below node `n`.
pub open spec fn none_before(frames: nat, t: Seq<i8>, n: int, d: nat, k: nat) -> bool {
    forall|m: int| #[trigger] below_start(m, n, d) ==> !run_node(frames, t, m, k)
}

/// There is nothing to the left of the root.
pub proof fn lemma_none_before_root(frames: nat, t: Seq<i8>, k: nat)
    requires
        tree_shape(frames, t),
        k <= bits::floor_log2(frames),
    ensures
        none_before(frames, t, 1, (bits::floor_log2(frames) - k) as nat, k),
{
    let d = (bits::floor_log2(frames) - k) as nat;
    assert forall|m: int| #[trigger] below_start(m, 1, d) implies !run_node(frames, t, m, k) by {
        bits::lemma_floor_log2_bounds(m as nat);
        if bits::floor_log2(m as nat) >= d {
            bits::lemma_pow2_mono(d, bits::floor_log2(m as nat));
        }
    }
}

/// Going down to the left child, or to the right one where nothing is available below the left.
pub proof fn lemma_none_before_child(frames: nat, t: Seq<i8>, n: int, d: nat, k: nat, c: int)
    requires
        tree_ok(frames, t),
        1 <= n < frames,
        d > 0,
        none_before(frames, t, n, d, k),
        c == 2 * n || (c == 2 * n + 1 && node(t, 2 * n) < k),
    ensures
        none_before(frames, t, c, (d - 1) as nat, k),
{
    let e = (d - 1) as nat;
    assert forall|m: int| #[trigger] below_start(m, c, e) implies !run_node(frames, t, m, k) by {
        lemma_start(m, n, d);
        if !below_start(m, n, d) {
            assert(below(m, 2 * n, e));
            if run_node(frames, t, m, k) {
                lemma_dominates(frames, t, 2 * n, m, e);
            }
        }
    }
}

/// The run of node `n` is the first that is available.
pub proof fn lemma_first_run(frames: nat, t: Seq<i8>, n: int, k: nat)
    requires
        tree_ok(frames, t),
        none_before(frames, t, n, 0, k),
    ensures
        forall|o: int| #[trigger]
            run_free(frames, t, o, pow2(k)) ==> n * pow2(k) - frames <= o,
{
    let size = pow2(k) as int;
    let off = n * size - frames;
    lemma2_to64();
    lemma_pow2_pos(k);
    assert forall|o: int| #[trigger] run_free(frames, t, o, pow2(k)) implies off <= o by {
        let m = lemma_run_free(frames, t, o, k);
        if o < off {
            assert(m < n) by (nonlinear_arith)
                requires
                    m * size == o + frames,
                    n * size == off + frames,
                    o < off,
                    size > 0,
            ;
            assert(n * pow2(0) == n);
            assert(below_start(m, n, 0));
            assert(run_node(frames, t, m, k));
        }
    }
}

/// Every node lies below the root.
pub proof fn lemma_root_below(frames: nat, n: int) -> (d: nat)
    requires
        frames == pow2(bits::floor_log2(frames)),
        1 <= n < 2 * frames,
    ensures
        below(n, 1, d),
{
    lemma_below_self(1);
    if n == 1 {
        0
    } else {
        lemma_root_above(n);
        lemma_above_gives_below(frames, 1, n)
    }
}

/// Node `m` or one of the `d` nodes above it is marked unavailable.
pub open spec fn marked(t: Seq<i8>, m: int, d: nat) -> bool
    decreases d,
{
    node(t, m) == -1 || (d > 0 && marked(t, m / 2, (d - 1) as nat))
}

/// How a frame is shown: `*` where it is taken, `_` where it is available.
pub open spec fn symbol(t: Seq<i8>, m: int, d: nat) -> char {
    if marked(t, m, d) {
        '*'
    } else {
        '_'
    }
}

/// What is shown for the leaves `d` levels below node `n`.
pub open spec fn picture(t: Seq<i8>, n: int, d: nat) -> Seq<char> {
    Seq::new(pow2(d), |g: int| symbol(t, n * pow2(d) + g, d))
}

/// The topmost of the nodes that matter to [`marked`].
pub proof fn lemma_marked_top(t: Seq<i8>, m: int, n: int, d: nat)
    requires
        d > 0,
        below(m, n, d),
    ensures
        marked(t, m, d) <==> marked(t, m, (d - 1) as nat) || node(t, n) == -1,
    decreases d,
{
    lemma_below_parent(m, n, d);
    if d == 1 {
        lemma_below_self(n);
        assert(marked(t, m / 2, 0) <==> node(t, m / 2) == -1);
    } else {
        lemma_marked_top(t, m / 2, n, (d - 1) as nat);
    }
}

pub proof fn lemma_marked_clear(t: Seq<i8>, m: int, d: nat)
    requires
        below(m, 1, d),
        m <= t.len(),
        forall|i: int| 0 <= i < t.len() ==> -1 <= #[trigger] t[i],
    ensures
        marked(t, m, d) <==> !path_clear(t, m),
        m >= 1,
    decreases d,
{
    lemma_below_self(1);
    if d > 0 {
        lemma_below_parent(m, 1, d);
        lemma_marked_clear(t, m / 2, (d - 1) as nat);
    } else {
        assert(path_clear(t, 0));
    }
    assert(-1 <= t[m - 1]);
}

/// The picture of a node is that of its left half followed by that of its right half, unless it
/// is taken as a whole.
pub proof fn lemma_picture(t: Seq<i8>, n: int, d: nat)
    requires
        d > 0,
    ensures
        node(t, n) == -1 ==> picture(t, n, d) == Seq::new(pow2(d), |g: int| '*'),
        node(t, n) != -1 ==> picture(t, n, d) == picture(t, 2 * n, (d - 1) as nat) + picture(
            t,
            2 * n + 1,
            (d - 1) as nat,
        ),
{
    let e = (d - 1) as nat;
    let p = pow2(e) as int;
    lemma_pow2_unfold(d);
    assert(n * (2 * p) == (2 * n) * p) by (nonlinear_arith);
    assert((2 * n + 1) * p == (2 * n) * p + p) by (nonlinear_arith);
    assert((n + 1) * (2 * p) == n * (2 * p) + 2 * p) by (nonlinear_arith);
    assert forall|g: int| 0 <= g < pow2(d) implies below(n * pow2(d) + g, n, d) && (#[trigger] marked(
        t,
        n * pow2(d) + g,
        d,
    ) <==> marked(t, n * pow2(d) + g, e) || node(t, n) == -1) by {
        lemma_marked_top(t, n * pow2(d) + g, n, d);
    }
    if node(t, n) == -1 {
        assert(picture(t, n, d) =~= Seq::new(pow2(d), |g: int| '*'));
    } else {
        let l = picture(t, 2 * n, e);
        let r = picture(t, 2 * n + 1, e);
        assert forall|g: int| 0 <= g < pow2(d) implies picture(t, n, d)[g] == (l + r)[g] by {
            let m = n * pow2(d) + g;
            assert(marked(t, m, d) <==> marked(t, m, e));
            if g < p {
                assert(m == (2 * n) * p + g);
            } else {
                assert(m == (2 * n + 1) * p + (g - p));
            }
        }
        assert(picture(t, n, d) =~= l + r);
    }
}

pub proof fn lemma_child_not_above(n: int)
    requires
        n >= 1,
    ensures
        !above(2 * n, n),
        !above(2 * n + 1, n),
        !above(n, n),
{
    if above(2 * n, n) {
        lemma_above_smaller(2 * n, n);
    }
    if above(2 * n + 1, n) {
        lemma_above_smaller(2 * n + 1, n);
    }
    if above(n, n) {
        lemma_above_smaller(n, n);
    }
}

/// Of two nodes over the same leaf, one lies above the other.
pub proof fn lemma_chain(a: int, b: int, m: int)
    requires
        a == m || above(a, m),
        b == m || above(b, m),
        m >= 1,
    ensures
        a == b || above(a, b) || above(b, a),
    decreases m,
{
    if a != m && b != m {
        lemma_above_smaller(a, m);
        lemma_above_smaller(b, m);
        lemma_chain(a, b, m / 2);
    }
}

} // verus!
