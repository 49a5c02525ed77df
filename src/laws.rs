use vstd::prelude::*;

use crate::partition::{lemma_count_relabel, relabel, Partition};
use crate::union_find::union_outcome;

verus! {

/// Merging two present classes keeps the partition valid and over the same
/// elements, puts `x` and `y` in one class, and keeps every pair that was
/// already together.
pub proof fn lemma_merged<T>(p: Partition<T>, x: T, y: T)
    requires
        p.valid(),
        p.contains(x),
        p.contains(y),
    ensures
        p.merged(x, y).valid(),
        p.merged(x, y).elems == p.elems,
        p.merged(x, y).same_class(x, y),
        forall|u: T, v: T| p.same_class(u, v) ==> #[trigger] p.merged(x, y).same_class(u, v),
{
    let q = p.merged(x, y);
    let rx = p.root_of(x);
    let ry = p.root_of(y);
    assert forall|i: int| 0 <= i < q.rep.len() implies {
        &&& 0 <= #[trigger] q.rep[i] < q.rep.len()
        &&& q.rep[q.rep[i]] == q.rep[i]
    } by {
        assert(0 <= p.rep[i] < p.rep.len());
    }
    assert forall|u: T, v: T| p.same_class(u, v) implies #[trigger] q.same_class(u, v) by {
        assert(0 <= p.index_of(u) < p.len());
        assert(0 <= p.index_of(v) < p.len());
    }
    assert(0 <= p.index_of(x) < p.len());
    assert(0 <= p.index_of(y) < p.len());
}

/// With no union performed, every element represents itself, and an inserted
/// element is found as itself.
pub proof fn law_insert_find_identity<T>(p: Partition<T>, x: T)
    requires
        forall|i: int| 0 <= i < p.rep.len() ==> #[trigger] p.rep[i] == i,
        p.rep.len() == p.elems.len(),
    ensures
        p.inserted(x).contains(x),
        p.inserted(x).find(x) == x,
        forall|i: int|
            0 <= i < p.inserted(x).rep.len() ==> #[trigger] p.inserted(x).rep[i] == i,
{
    let q = p.inserted(x);
    if !p.contains(x) {
        assert(q.elems[p.elems.len() as int] == x);
    }
    assert(0 <= q.index_of(x) < q.len());
}

/// `union(x, y)` and `union(y, x)` group the elements alike.
pub proof fn law_union_symmetric<T: PartialOrd>(p: Partition<T>, x: T, y: T)
    requires
        p.valid(),
    ensures
        union_outcome(p, x, y).same_grouping(union_outcome(p, y, x)),
{
    let a = p.merged(x, y);
    let b = p.merged(y, x);
    assert(a.same_grouping(b));
    assert(b.same_grouping(a));
}

/// Unions that succeed chain: after `union(a, b)` and `union(b, c)` on
/// present elements, `a` and `c` share a representative.
pub proof fn law_union_transitive<T: PartialOrd>(p: Partition<T>, a: T, b: T, c: T)
    requires
        p.valid(),
        p.contains(a),
        p.contains(b),
        p.contains(c),
    ensures
        union_outcome(union_outcome(p, a, b), b, c).same_class(a, c),
        union_outcome(union_outcome(p, a, b), b, c).find(a) == union_outcome(
            union_outcome(p, a, b),
            b,
            c,
        ).find(c),
{
    let q = union_outcome(p, a, b);
    lemma_merged(p, a, b);
    lemma_merged(p, b, a);
    assert(q.same_class(a, b));
    let s = union_outcome(q, b, c);
    lemma_merged(q, b, c);
    lemma_merged(q, c, b);
    assert(s.same_class(a, b));
    assert(s.same_class(b, c));
}

/// A union of two elements that already share a class changes nothing, so
/// such unions keep every `find` result as it was.
pub proof fn law_union_within_class<T: PartialOrd>(p: Partition<T>, x: T, y: T)
    requires
        p.valid(),
        p.same_class(x, y),
    ensures
        union_outcome(p, x, y) == p,
{
    assert(relabel(p.rep, p.root_of(x), p.root_of(x)) =~= p.rep);
}

/// The indices below the number of elements are exactly the known elements,
/// each found at the index where it was inserted.
pub proof fn law_indices_are_elements<T>(p: Partition<T>)
    requires
        p.valid(),
    ensures
        forall|i: int|
            0 <= i < p.len() ==> p.contains(#[trigger] p.elems[i]) && p.index_of(p.elems[i]) == i,
        forall|x: T| #[trigger] p.contains(x) ==> 0 <= p.index_of(x) < p.len() && p.elems[p.index_of(x)] == x,
{
    assert forall|i: int| 0 <= i < p.len() implies p.contains(#[trigger] p.elems[i]) && p.index_of(p.elems[i]) == i by {
        crate::partition::lemma_index_of_unique(p, i);
    }
}

/// Merging two different classes gives a class whose size is the sum of both.
pub proof fn law_merged_class_size<T>(p: Partition<T>, x: T, y: T)
    requires
        p.valid(),
        p.contains(x),
        p.contains(y),
        !p.same_class(x, y),
    ensures
        p.merged(x, y).class_size(p.root_of(x)) == p.class_size(p.root_of(x)) + p.class_size(
            p.root_of(y),
        ),
{
    lemma_count_relabel(p.rep, p.root_of(y), p.root_of(x), p.root_of(x));
}

} // verus!
