use std::collections::HashMap;
use std::hash::Hash;
use vstd::prelude::*;
use vstd::std_specs::cmp::{PartialOrdIs, PartialOrdSpec};
use vstd::std_specs::hash::obeys_key_model;

use crate::partition::{
    count_of, lemma_count_absent, lemma_count_push, lemma_count_relabel, lemma_count_two_le_len,
    lemma_index_of_unique, relabel, Partition,
};

verus! {

#[derive(Clone, Copy, PartialEq, Eq, Structural)]
struct Index(usize);

#[derive(Clone, Copy)]
struct Node {
    parent: Index,
    size: usize,
}

/// What the element type must provide: hashing and equality that agree, and
/// an order that `>` follows.
pub open spec fn element_laws<T: PartialOrd>() -> bool {
    &&& obeys_key_model::<T>()
    &&& T::obeys_partial_cmp_spec()
}

/// The partition after `union(x, y)` on present elements: the class of the
/// larger of the two under `T`'s order joins the class of the other one,
/// whose representative stays.
pub open spec fn joined<T: PartialOrd>(p: Partition<T>, x: T, y: T) -> Partition<T> {
    if x.is_gt(&y) {
        p.merged(y, x)
    } else {
        p.merged(x, y)
    }
}

/// The partition after `union(x, y)`: unchanged where either element is
/// missing.
pub open spec fn union_outcome<T: PartialOrd>(p: Partition<T>, x: T, y: T) -> Partition<T> {
    if p.contains(x) && p.contains(y) {
        joined(p, x, y)
    } else {
        p
    }
}

/// Unions of `head` with each entry of `rest` in turn, up to the first that
/// fails: whether all succeeded, and the partition reached.
pub open spec fn star<T: PartialOrd>(p: Partition<T>, head: T, rest: Seq<T>) -> (bool, Partition<T>)
    decreases rest.len(),
{
    if rest.len() == 0 {
        (true, p)
    } else if p.contains(head) && p.contains(rest[0]) {
        star(union_outcome(p, head, rest[0]), head, rest.drop_first())
    } else {
        (false, p)
    }
}

/// What `unions(xs)` returns, with the partition it leaves.
pub open spec fn unions_result<T: PartialOrd>(p: Partition<T>, xs: Seq<T>) -> (bool, Partition<T>) {
    if xs.len() < 2 {
        (true, p)
    } else {
        star(p, xs[0], xs.drop_first())
    }
}

/// The parent links over `nodes` form a forest whose roots are given by `rep`,
/// with `rank` growing strictly along every link.
spec fn forest(nodes: Seq<Node>, rep: Seq<int>, rank: Seq<nat>) -> bool {
    let n = nodes.len();
    &&& rep.len() == n
    &&& rank.len() == n
    &&& forall|i: int|
        0 <= i < n ==> {
            &&& (#[trigger] nodes[i]).parent.0 < n
            &&& 0 <= rep[i] < n
            &&& rep[rep[i]] == rep[i]
            &&& (nodes[i].parent.0 == i <==> rep[i] == i)
            &&& rep[nodes[i].parent.0 as int] == rep[i]
            &&& (nodes[i].parent.0 != i ==> rank[i] < rank[nodes[i].parent.0 as int])
            &&& rank[i] <= rank[rep[i]]
        }
}

/// Follows parent links from `x` to its root, pointing each node on the way
/// at its grandparent.
fn find_index(nodes: &mut Vec<Node>, x: Index, Ghost(rep): Ghost<Seq<int>>, Ghost(rank): Ghost<
    Seq<nat>,
>) -> (r: Option<Index>)
    requires
        forest(old(nodes)@, rep, rank),
        x.0 < old(nodes)@.len(),
    ensures
        forest(final(nodes)@, rep, rank),
        final(nodes)@.len() == old(nodes)@.len(),
        forall|i: int|
            0 <= i < old(nodes)@.len() ==> (#[trigger] final(nodes)@[i]).size == old(
                nodes,
            )@[i].size,
        r == Some(Index(rep[x.0 as int] as usize)),
{
    let mut cur = x;
    loop
        invariant
            forest(nodes@, rep, rank),
            nodes@.len() == old(nodes)@.len(),
            forall|i: int|
                0 <= i < nodes@.len() ==> (#[trigger] nodes@[i]).size == old(nodes)@[i].size,
            cur.0 < nodes@.len(),
            rep[cur.0 as int] == rep[x.0 as int],
        decreases rank[rep[x.0 as int]] - rank[cur.0 as int],
    {
        let p = nodes[cur.0].parent;
        if p == cur {
            return Some(cur);
        }
        let pp = nodes[p.0].parent;
        let size = nodes[cur.0].size;
        nodes.set(cur.0, Node { parent: pp, size });
        cur = p;
    }
}

/// A disjoint-set store over elements of `T`, with union by size and path
/// halving. Inserting an element that is already present changes nothing.
pub struct UnionFind<T> {
    to_index: HashMap<T, Index>,
    from_index: Vec<T>,
    nodes: Vec<Node>,
    rep: Ghost<Seq<int>>,
    rank: Ghost<Seq<nat>>,
}

impl<T> View for UnionFind<T> {
    type V = Partition<T>;

    closed spec fn view(&self) -> Partition<T> {
        Partition { elems: self.from_index@, rep: self.rep@ }
    }
}

impl<T: Copy + Eq + Hash + PartialOrd> UnionFind<T> {
    /// The store's internal invariant.
    pub closed spec fn wf(&self) -> bool {
        let n = self.nodes@.len();
        &&& element_laws::<T>()
        &&& self.from_index@.len() == n
        &&& self@.valid()
        &&& forest(self.nodes@, self.rep@, self.rank@)
        &&& forall|x: T| #[trigger]
            self.to_index@.contains_key(x) <==> self.from_index@.contains(x)
        &&& forall|x: T| #[trigger]
            self.to_index@.contains_key(x) ==> {
                &&& self.to_index@[x].0 < n
                &&& self.from_index@[self.to_index@[x].0 as int] == x
            }
        &&& forall|i: int|
            0 <= i < n && self.rep@[i] == i ==> (#[trigger] self.nodes@[i]).size == count_of(
                self.rep@,
                i,
            )
    }

    /// The size recorded at index `i`; meaningful where `i` represents its class.
    pub closed spec fn recorded_size(&self, i: int) -> nat {
        self.nodes@[i].size as nat
    }

    /// The size recorded at a representative is the number of elements in its
    /// class.
    pub proof fn law_recorded_size_is_class_size(&self, r: int)
        requires
            self.wf(),
            0 <= r < self@.len(),
            self@.rep[r] == r,
        ensures
            self.recorded_size(r) == self@.class_size(r),
    {
    }

    /// An empty store.
    pub fn new() -> (r: Self)
        requires
            element_laws::<T>(),
        ensures
            r.wf(),
            r@ == Partition::<T>::empty(),
    {
        let r = UnionFind {
            to_index: HashMap::new(),
            from_index: Vec::with_capacity(1),
            nodes: Vec::with_capacity(1),
            rep: Ghost(Seq::empty()),
            rank: Ghost(Seq::empty()),
        };
        proof {
            assert(r.from_index@ =~= Seq::<T>::empty());
            assert(r@ =~= Partition::<T>::empty());
            assert forall|x: T| #[trigger] r.to_index@.contains_key(x) <==> r.from_index@.contains(
                x,
            ) by {
                assert(!r.from_index@.contains(x));
            }
        }
        r
    }

    /// Inserts `x` as a singleton class, unless it is already present.
    pub fn insert(&mut self, x: T)
        requires
            old(self).wf(),
        ensures
            final(self).wf(),
            final(self)@.valid(),
            final(self)@ == old(self)@.inserted(x),
            forall|i: int|
                0 <= i < old(self)@.len() ==> #[trigger] final(self).recorded_size(i)
                    == old(self).recorded_size(i),
    {
        if self.to_index.contains_key(&x) {
            return;
        }
        let ghost n = self.nodes@.len() as int;
        let index = Index(self.nodes.len());
        self.nodes.push(Node { parent: index, size: 1 });
        self.to_index.insert(x, index);
        self.from_index.push(x);
        self.rep = Ghost(self.rep@.push(n));
        self.rank = Ghost(self.rank@.push(0nat));
        proof {
            let old_rep = old(self).rep@;
            assert(!old(self).from_index@.contains(x));
            assert forall|i: int| 0 <= i <= n implies count_of(self.rep@, i) == count_of(
                old_rep,
                i,
            ) + if i == n {
                1nat
            } else {
                0nat
            } by {
                lemma_count_push(old_rep, n, i);
            }
            lemma_count_absent(old_rep, n);
            assert forall|y: T| #[trigger]
                self.to_index@.contains_key(y) <==> self.from_index@.contains(y) by {
                if y != x && old(self).from_index@.contains(y) {
                    let k = choose|k: int| 0 <= k < n && old(self).from_index@[k] == y;
                    assert(self.from_index@[k] == y);
                }
                if self.from_index@.contains(y) && y != x {
                    let k = choose|k: int| 0 <= k <= n && self.from_index@[k] == y;
                    assert(k != n);
                    assert(old(self).from_index@[k] == y);
                }
                assert(self.from_index@[n] == x);
            }
            assert(self@ =~= old(self)@.inserted(x));
        }
    }

    /// Resolves the index of `x`'s representative, or nothing where `x` was
    /// never inserted.
    fn find_get(&mut self, x: T) -> (r: Option<Index>)
        requires
            old(self).wf(),
        ensures
            final(self).wf(),
            final(self)@.valid(),
            final(self)@ == old(self)@,
            forall|i: int|
                0 <= i < old(self)@.len() ==> #[trigger] final(self).recorded_size(i)
                    == old(self).recorded_size(i),
            r == if old(self)@.contains(x) {
                Some(Index(old(self)@.root_of(x) as usize))
            } else {
                None
            },
    {
        let elem_index = match self.to_index.get(&x) {
            Some(i) => *i,
            None => return None,
        };
        proof {
            lemma_index_of_unique(self@, elem_index.0 as int);
        }
        let r = find_index(&mut self.nodes, elem_index, Ghost(self.rep@), Ghost(self.rank@));
        proof {
            assert forall|i: int| 0 <= i < self.nodes@.len() && self.rep@[i] == i implies
                (#[trigger] self.nodes@[i]).size == count_of(self.rep@, i) by {
                assert(self.nodes@[i].size == old(self).nodes@[i].size);
            }
        }
        r
    }

    /// The element that represents `x`'s class, or nothing where `x` was
    /// never inserted. Shortens parent paths on the way; the partition stays
    /// as it was.
    pub fn find(&mut self, x: T) -> (r: Option<T>)
        requires
            old(self).wf(),
        ensures
            final(self).wf(),
            final(self)@.valid(),
            final(self)@ == old(self)@,
            forall|i: int|
                0 <= i < old(self)@.len() ==> #[trigger] final(self).recorded_size(i)
                    == old(self).recorded_size(i),
            r == if old(self)@.contains(x) {
                Some(old(self)@.find(x))
            } else {
                None
            },
    {
        let class_index = match self.find_get(x) {
            Some(i) => i,
            None => return None,
        };
        match self.from_index.get(class_index.0) {
            None => None,
            Some(t) => Some(*t),
        }
    }

    /// Merges the classes of `x` and `y`, or reports that one of them was never
    /// inserted. The lesser of the two under `T`'s order comes first, so the
    /// representative of its class stays.
    pub fn union(&mut self, x: T, y: T) -> (r: bool)
        requires
            old(self).wf(),
        ensures
            final(self).wf(),
            final(self)@.valid(),
            r == (old(self)@.contains(x) && old(self)@.contains(y)),
            final(self)@ == union_outcome(old(self)@, x, y),
            r ==> final(self).recorded_size(final(self)@.root_of(x)) == if old(self)@.same_class(
                x,
                y,
            ) {
                old(self).recorded_size(old(self)@.root_of(x))
            } else {
                old(self).recorded_size(old(self)@.root_of(x)) + old(self).recorded_size(
                    old(self)@.root_of(y),
                )
            },
    {
        match self.union_internal(x, y) {
            None => false,
            Some(_) => true,
        }
    }

    fn union_internal(&mut self, x: T, y: T) -> (r: Option<()>)
        requires
            old(self).wf(),
        ensures
            final(self).wf(),
            final(self)@.valid(),
            r is Some == (old(self)@.contains(x) && old(self)@.contains(y)),
            final(self)@ == union_outcome(old(self)@, x, y),
            r is Some ==> final(self).recorded_size(final(self)@.root_of(x)) == if old(
                self,
            )@.same_class(x, y) {
                old(self).recorded_size(old(self)@.root_of(x))
            } else {
                old(self).recorded_size(old(self)@.root_of(x)) + old(self).recorded_size(
                    old(self)@.root_of(y),
                )
            },
    {
        let (a, b) = if x > y {
            (y, x)
        } else {
            (x, y)
        };
        proof {
            assert(joined(old(self)@, x, y) == old(self)@.merged(a, b));
        }
        let x_root = match self.find_get(a) {
            Some(i) => i,
            None => return None,
        };
        let y_root = match self.find_get(b) {
            Some(i) => i,
            None => return None,
        };
        let ghost pre = old(self)@;
        let ghost old_rep = self.rep@;
        let ghost old_rank = self.rank@;
        let ghost old_nodes = self.nodes@;
        let ghost n = self.nodes@.len() as int;
        proof {
            let ka = choose|k: int| 0 <= k < pre.elems.len() && pre.elems[k] == a;
            let kb = choose|k: int| 0 <= k < pre.elems.len() && pre.elems[k] == b;
            lemma_index_of_unique(pre, ka);
            lemma_index_of_unique(pre, kb);
            assert(0 <= pre.rep[ka] < n);
            assert(0 <= pre.rep[kb] < n);
            assert(self.nodes@[pre.rep[ka]].parent.0 == pre.rep[ka]);
            assert(self.nodes@[pre.rep[kb]].parent.0 == pre.rep[kb]);
        }
        if x_root != y_root {
            let ghost xr = x_root.0 as int;
            let ghost yr = y_root.0 as int;
            // Every class size is bounded by the number of nodes.
            let node_count = self.nodes.len();
            let x_root_size = self.nodes[x_root.0].size;
            let y_root_size = self.nodes[y_root.0].size;
            proof {
                assert(old_rep[xr] == xr && old_rep[yr] == yr);
                assert(x_root_size == count_of(old_rep, xr));
                assert(y_root_size == count_of(old_rep, yr));
                lemma_count_two_le_len(old_rep, xr, yr);
                assert(x_root_size + y_root_size <= node_count);
            }
            if x_root_size < y_root_size {
                // The two root records trade places. A root's record points at
                // itself, so what moves between them is the size.
                self.nodes.set(x_root.0, Node { parent: x_root, size: y_root_size });
                self.nodes.set(y_root.0, Node { parent: y_root, size: x_root_size });
            }
            let stale = self.nodes[y_root.0].size;
            self.nodes.set(y_root.0, Node { parent: x_root, size: stale });
            self.nodes.set(x_root.0, Node { parent: x_root, size: x_root_size + y_root_size });
            let ghost new_rank: nat = if old_rank[xr] > old_rank[yr] {
                old_rank[xr]
            } else {
                old_rank[yr] + 1
            };
            self.rep = Ghost(relabel(old_rep, yr, xr));
            self.rank = Ghost(old_rank.update(xr, new_rank));
            proof {
                let rep = self.rep@;
                let rank = self.rank@;
                let nodes = self.nodes@;
                assert forall|i: int| 0 <= i < n implies {
                    &&& (#[trigger] nodes[i]).parent.0 < n
                    &&& 0 <= rep[i] < n
                    &&& rep[rep[i]] == rep[i]
                    &&& (nodes[i].parent.0 == i <==> rep[i] == i)
                    &&& rep[nodes[i].parent.0 as int] == rep[i]
                    &&& (nodes[i].parent.0 != i ==> rank[i] < rank[nodes[i].parent.0 as int])
                    &&& rank[i] <= rank[rep[i]]
                } by {
                    if i != xr && i != yr {
                        assert(nodes[i] == old_nodes[i]);
                    }
                }
                assert forall|i: int|
                    0 <= i < n && rep[i] == i implies (#[trigger] nodes[i]).size == count_of(
                    rep,
                    i,
                ) by {
                    lemma_count_relabel(old_rep, yr, xr, i);
                    if i != xr {
                        assert(nodes[i] == old_nodes[i]);
                    }
                }
                lemma_count_relabel(old_rep, yr, xr, xr);
                assert(self@ == pre.merged(a, b));
            }
        } else {
            proof {
                assert(relabel(old_rep, y_root.0 as int, x_root.0 as int) =~= old_rep);
                assert(self@ == pre.merged(a, b));
            }
        }
        Some(())
    }

    /// Merges the class of `xs[0]` with the class of each later entry in turn,
    /// stopping at the first entry that was never inserted; merges made before
    /// that stay. Fewer than two entries succeed at once.
    pub fn unions(&mut self, xs: &[T]) -> (r: bool)
        requires
            old(self).wf(),
        ensures
            final(self).wf(),
            final(self)@.valid(),
            (r, final(self)@) == unions_result(old(self)@, xs@),
    {
        if xs.len() < 2 {
            true
        } else {
            let head = xs[0];
            let ghost start = self@;
            let mut i: usize = 1;
            while i < xs.len()
                invariant
                    self.wf(),
                    1 <= i <= xs@.len(),
                    head == xs@[0],
                    start == old(self)@,
                    unions_result(start, xs@) == star(self@, head, xs@.subrange(i as int, xs@.len() as int)),
                decreases xs@.len() - i,
            {
                proof {
                    assert(xs@.subrange(i as int, xs@.len() as int).drop_first() =~= xs@.subrange(i as int + 1, xs@.len() as int));
                }
                let ghost before = self@;
                let ghost rest = xs@.subrange(i as int, xs@.len() as int);
                let b = self.union(head, xs[i]);
                if !b {
                    assert(rest[0] == xs@[i as int]);
                    assert(star(before, head, rest) == (false, before));
                    return false;
                }
                i = i + 1;
            }
            proof {
                assert(xs@.subrange(i as int, xs@.len() as int) =~= Seq::<T>::empty());
            }
            true
        }
    }
}

} // verus!
