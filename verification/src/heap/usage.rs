//! How many bytes users hold.

use vstd::prelude::*;

verus! {

/// The sum of the sizes, each with `extra` bytes more.
pub open spec fn total(sizes: Map<int, nat>, extra: nat) -> nat
    decreases sizes.dom().len(),
{
    if sizes.dom().finite() && sizes.dom().len() > 0 {
        let a = sizes.dom().choose();
        sizes[a] + extra + total(sizes.remove(a), extra)
    } else {
        0
    }
}

/// What one size adds to the sum.
pub proof fn lemma_total_without(sizes: Map<int, nat>, extra: nat, a: int)
    requires
        sizes.dom().finite(),
        sizes.contains_key(a),
    ensures
        total(sizes, extra) == total(sizes.remove(a), extra) + sizes[a] + extra,
    decreases sizes.dom().len(),
{
    let b = sizes.dom().choose();
    assert(sizes.dom().contains(a));
    assert(sizes.dom().contains(b));
    if a != b {
        let rest = sizes.remove(b);
        assert(rest.dom() =~= sizes.dom().remove(b));
        assert(sizes.remove(a).dom() =~= sizes.dom().remove(a));
        lemma_total_without(rest, extra, a);
        lemma_total_without(sizes.remove(a), extra, b);
        assert(rest.remove(a) =~= sizes.remove(a).remove(b));
    }
}

/// One size more adds to the sum.
pub proof fn lemma_total_with(sizes: Map<int, nat>, extra: nat, a: int, size: nat)
    requires
        sizes.dom().finite(),
        !sizes.contains_key(a),
    ensures
        sizes.insert(a, size).dom().finite(),
        total(sizes.insert(a, size), extra) == total(sizes, extra) + size + extra,
{
    let more = sizes.insert(a, size);
    assert(more.dom() =~= sizes.dom().insert(a));
    lemma_total_without(more, extra, a);
    assert(more.remove(a) =~= sizes);
}

/// With more bytes for each the sum is no less.
pub proof fn lemma_total_grows(sizes: Map<int, nat>, extra: nat, more: nat)
    requires
        extra <= more,
    ensures
        total(sizes, extra) <= total(sizes, more),
    decreases sizes.dom().len(),
{
    if sizes.dom().finite() && sizes.dom().len() > 0 {
        let a = sizes.dom().choose();
        assert(sizes.remove(a).dom() =~= sizes.dom().remove(a));
        lemma_total_grows(sizes.remove(a), extra, more);
    }
}

/// The byte `x` is one of those from `a` on.
spec fn in_part(sizes: Map<int, nat>, extra: nat, a: int, x: int) -> bool {
    sizes.contains_key(a) && a <= x < a + sizes[a] + extra
}

/// The bytes from `start` up to `end` that are in one of the parts.
spec fn covered(sizes: Map<int, nat>, extra: nat, start: int, end: int) -> Set<int> {
    vstd::set_lib::set_int_range(start, end).filter(
        |x: int| exists|a: int| in_part(sizes, extra, a, x),
    )
}

/// Parts that lie side by side have as many bytes as all of them together.
proof fn lemma_covered(sizes: Map<int, nat>, extra: nat, start: int, end: int)
    requires
        sizes.dom().finite(),
        start <= end,
        forall|a: int| #[trigger]
            sizes.contains_key(a) ==> start <= a && a + sizes[a] + extra <= end,
        forall|a: int, b: int| #[trigger]
            sizes.contains_key(a) && #[trigger] sizes.contains_key(b) && a < b ==> a + sizes[a]
                + extra <= b,
    ensures
        covered(sizes, extra, start, end).finite(),
        covered(sizes, extra, start, end).len() == total(sizes, extra),
    decreases sizes.dom().len(),
{
    let all = vstd::set_lib::set_int_range(start, end);
    let c = covered(sizes, extra, start, end);
    vstd::set_lib::lemma_int_range(start, end);
    vstd::set_lib::lemma_len_subset(c, all);
    if sizes.dom().len() == 0 {
        assert forall|a: int| !sizes.contains_key(a) by {
            if sizes.contains_key(a) {
                assert(sizes.dom().contains(a));
            }
        }
        assert(c =~= Set::empty());
    } else {
        let a = sizes.dom().choose();
        let rest = sizes.remove(a);
        assert(sizes.dom().contains(a));
        assert(sizes.contains_key(a));
        assert(rest.dom() =~= sizes.dom().remove(a));
        lemma_covered(rest, extra, start, end);
        let before = covered(rest, extra, start, end);
        let part = vstd::set_lib::set_int_range(a, a + sizes[a] + extra);
        vstd::set_lib::lemma_int_range(a, a + sizes[a] + extra);
        assert forall|x: int| #[trigger] c.contains(x) == (before.contains(x) || part.contains(
            x,
        )) by {
            if c.contains(x) {
                let b = choose|b: int| in_part(sizes, extra, b, x);
                if b != a {
                    assert(in_part(rest, extra, b, x));
                }
            }
            if before.contains(x) {
                let b = choose|b: int| in_part(rest, extra, b, x);
                assert(in_part(sizes, extra, b, x));
            }
            if part.contains(x) {
                assert(in_part(sizes, extra, a, x));
            }
        }
        assert forall|x: int| !(#[trigger] before.contains(x) && part.contains(x)) by {
            if before.contains(x) && part.contains(x) {
                let b = choose|b: int| in_part(rest, extra, b, x);
                assert(sizes.contains_key(b) && sizes.contains_key(a));
            }
        }
        assert(c =~= before + part);
        assert(before.disjoint(part));
        vstd::set_lib::lemma_set_disjoint_lens(before, part);
    }
}

/// Parts that lie side by side between `start` and `end` have no more bytes than there are.
pub proof fn lemma_total_fits(sizes: Map<int, nat>, extra: nat, start: int, end: int)
    requires
        sizes.dom().finite(),
        start <= end,
        forall|a: int| #[trigger]
            sizes.contains_key(a) ==> start <= a && a + sizes[a] + extra <= end,
        forall|a: int, b: int| #[trigger]
            sizes.contains_key(a) && #[trigger] sizes.contains_key(b) && a < b ==> a + sizes[a]
                + extra <= b,
    ensures
        total(sizes, extra) <= end - start,
{
    let all = vstd::set_lib::set_int_range(start, end);
    vstd::set_lib::lemma_int_range(start, end);
    lemma_covered(sizes, extra, start, end);
    vstd::set_lib::lemma_len_subset(covered(sizes, extra, start, end), all);
}

} // verus!
