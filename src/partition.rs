use vstd::prelude::*;

verus! {

/// Number of entries of `s` equal to `v`.
pub open spec fn count_of(s: Seq<int>, v: int) -> nat
    decreases s.len(),
{
    if s.len() == 0 {
        0
    } else {
        count_of(s.drop_last(), v) + if s.last() == v {
            1nat
        } else {
            0nat
        }
    }
}

/// `s` with every entry equal to `from` replaced by `to`.
pub open spec fn relabel(s: Seq<int>, from: int, to: int) -> Seq<int> {
    s.map_values(|j: int| if j == from { to } else { j })
}

/// The abstract state of a disjoint-set store: the element held at each
/// index, in insertion order, and for each index the index of its class
/// representative.
pub struct Partition<T> {
    pub elems: Seq<T>,
    pub rep: Seq<int>,
}

impl<T> Partition<T> {
    /// No elements at all.
    pub open spec fn empty() -> Partition<T> {
        Partition { elems: Seq::empty(), rep: Seq::empty() }
    }

    /// Elements are distinct, every index has a representative in range,
    /// and a representative represents itself.
    pub open spec fn valid(self) -> bool {
        &&& self.rep.len() == self.elems.len()
        &&& self.elems.no_duplicates()
        &&& forall|i: int|
            0 <= i < self.rep.len() ==> {
                &&& 0 <= #[trigger] self.rep[i] < self.rep.len()
                &&& self.rep[self.rep[i]] == self.rep[i]
            }
    }

    pub open spec fn len(self) -> nat {
        self.elems.len()
    }

    pub open spec fn contains(self, x: T) -> bool {
        self.elems.contains(x)
    }

    /// The index at which `x` was inserted.
    pub open spec fn index_of(self, x: T) -> int {
        choose|i: int| 0 <= i < self.elems.len() && self.elems[i] == x
    }

    /// Index of the representative of `x`'s class.
    pub open spec fn root_of(self, x: T) -> int {
        self.rep[self.index_of(x)]
    }

    /// The element that represents `x`'s class.
    pub open spec fn find(self, x: T) -> T {
        self.elems[self.root_of(x)]
    }

    pub open spec fn same_class(self, x: T, y: T) -> bool {
        &&& self.contains(x)
        &&& self.contains(y)
        &&& self.root_of(x) == self.root_of(y)
    }

    /// Number of elements whose representative is the index `r`.
    pub open spec fn class_size(self, r: int) -> nat {
        count_of(self.rep, r)
    }

    /// The partition after inserting `x`: a new singleton class, unless `x`
    /// is already present.
    pub open spec fn inserted(self, x: T) -> Partition<T> {
        if self.contains(x) {
            self
        } else {
            Partition { elems: self.elems.push(x), rep: self.rep.push(self.elems.len() as int) }
        }
    }

    /// The partition after merging the class of `y` into the class of `x`:
    /// the representative of `x` represents both.
    pub open spec fn merged(self, x: T, y: T) -> Partition<T> {
        Partition { elems: self.elems, rep: relabel(self.rep, self.root_of(y), self.root_of(x)) }
    }

    /// Two partitions over the same elements group the indices alike.
    pub open spec fn same_grouping(self, other: Partition<T>) -> bool {
        &&& self.elems == other.elems
        &&& self.rep.len() == other.rep.len()
        &&& forall|i: int, j: int|
            0 <= i < self.rep.len() && 0 <= j < self.rep.len() ==> (#[trigger] self.rep[i]
                == #[trigger] self.rep[j] <==> other.rep[i] == other.rep[j])
    }
}

/// The position of an element in a sequence without duplicates is unique.
pub proof fn lemma_index_of_unique<T>(p: Partition<T>, k: int)
    requires
        p.elems.no_duplicates(),
        0 <= k < p.elems.len(),
    ensures
        p.index_of(p.elems[k]) == k,
        p.contains(p.elems[k]),
{
    let x = p.elems[k];
    assert(0 <= k < p.elems.len() && p.elems[k] == x);
    let i = p.index_of(x);
    assert(p.elems[i] == x);
}

pub proof fn lemma_count_push(s: Seq<int>, x: int, v: int)
    ensures
        count_of(s.push(x), v) == count_of(s, v) + if x == v {
            1nat
        } else {
            0nat
        },
{
    assert(s.push(x).drop_last() =~= s);
}

/// A value that occurs nowhere in `s` has count zero.
pub proof fn lemma_count_absent(s: Seq<int>, v: int)
    requires
        forall|i: int| 0 <= i < s.len() ==> s[i] != v,
    ensures
        count_of(s, v) == 0,
    decreases s.len(),
{
    if s.len() > 0 {
        lemma_count_absent(s.drop_last(), v);
    }
}

/// Entries counted for two different values never exceed the length.
pub proof fn lemma_count_two_le_len(s: Seq<int>, a: int, b: int)
    requires
        a != b,
    ensures
        count_of(s, a) + count_of(s, b) <= s.len(),
    decreases s.len(),
{
    if s.len() > 0 {
        lemma_count_two_le_len(s.drop_last(), a, b);
    }
}

/// Relabelling `from` as `to` moves the count of `from` onto `to` and keeps
/// every other count.
pub proof fn lemma_count_relabel(s: Seq<int>, from: int, to: int, v: int)
    requires
        from != to,
    ensures
        count_of(relabel(s, from, to), v) == if v == to {
            count_of(s, to) + count_of(s, from)
        } else if v == from {
            0
        } else {
            count_of(s, v)
        },
    decreases s.len(),
{
    if s.len() > 0 {
        assert(relabel(s, from, to).drop_last() =~= relabel(s.drop_last(), from, to));
        lemma_count_relabel(s.drop_last(), from, to, v);
    }
}

} // verus!
