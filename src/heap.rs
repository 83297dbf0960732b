//! The heap: a growable buffer whose leading `capacity` slots form a binary
//! min-heap, while the slots past them hold retired elements.
use vstd::prelude::*;
use vstd::multiset::Multiset;
use vstd::seq_lib::lemma_multiset_commutative;
use crate::order::TotalOrder;

verus! {

broadcast use vstd::seq_lib::group_to_multiset_ensures, vstd::multiset::group_multiset_axioms;

/// Index of the parent of node `i` (for `i > 0`).
pub open spec fn parent(i: int) -> int {
    (i + 1) / 2 - 1
}

/// Index of the left child of node `i`.
pub open spec fn left(i: int) -> int {
    2 * i + 1
}

/// Index of the right child of node `i`.
pub open spec fn right(i: int) -> int {
    2 * i + 2
}

/// Every node of `s` but the root comes no earlier than its parent.
pub open spec fn heap_ordered<T: TotalOrder>(s: Seq<T>) -> bool {
    forall|i: int| 0 < i < s.len() ==> #[trigger] T::leq(s[parent(i)], s[i])
}

/// `t` comes no later than any element of `m`.
pub open spec fn is_least<T: TotalOrder>(t: T, m: Multiset<T>) -> bool {
    forall|x: T| #[trigger] m.contains(x) ==> T::leq(t, x)
}

/// `s` is in ascending order.
pub open spec fn ascending<T: TotalOrder>(s: Seq<T>) -> bool {
    forall|i: int, j: int| 0 <= i < j < s.len() ==> #[trigger] T::leq(s[i], s[j])
}

/// `s` with the entries at `i` and `j` exchanged.
pub open spec fn swapped<T>(s: Seq<T>, i: int, j: int) -> Seq<T> {
    s.update(i, s[j]).update(j, s[i])
}

/// From position `c` on, `s` is in descending order.
pub open spec fn descending_from<T: TotalOrder>(s: Seq<T>, c: int) -> bool {
    forall|i: int, j: int| c <= i < j < s.len() ==> #[trigger] T::leq(s[j], s[i])
}

/// What sifting up from `k` makes of `s`: while `k` has a parent and the
/// element at `k` comes no later than the parent's, the two are exchanged
/// and `k` moves to the parent.
pub open spec fn sift_up<T: TotalOrder>(s: Seq<T>, k: int) -> Seq<T>
    decreases k,
{
    if k > 0 {
        if T::leq(s[k], s[parent(k)]) {
            sift_up(swapped(s, k, parent(k)), parent(k))
        } else {
            s
        }
    } else {
        s
    }
}

/// What sifting down from `k` makes of `s`, among the first `n` slots: while
/// `k` has a child below `n`, the earlier child is taken (the right one on a
/// tie), and where it comes strictly earlier than the element at `k` the two
/// are exchanged and `k` moves to that child.
pub open spec fn sift_down<T: TotalOrder>(s: Seq<T>, n: int, k: int) -> Seq<T>
    decreases n - k,
{
    if 0 <= k && left(k) < n {
        let m = if right(k) < n && T::leq(s[right(k)], s[left(k)]) {
            right(k)
        } else {
            left(k)
        };
        if T::leq(s[k], s[m]) {
            s
        } else {
            sift_down(swapped(s, k, m), n, m)
        }
    } else {
        s
    }
}

/// `s` with `e` put in slot `n`: written over that slot where `s` has it,
/// appended where `n` is the length of `s`.
pub open spec fn placed<T>(s: Seq<T>, n: int, e: T) -> Seq<T> {
    if n < s.len() {
        s.update(n, e)
    } else {
        s.push(e)
    }
}

/// What inserting the entries of `s` one at a time into an empty heap makes
/// of the buffer: each entry is appended and sifted up from its slot.
pub open spec fn build_by_inserts<T: TotalOrder>(s: Seq<T>) -> Seq<T>
    decreases s.len(),
{
    if s.len() == 0 {
        s
    } else {
        sift_up(build_by_inserts(s.drop_last()).push(s.last()), s.len() - 1)
    }
}

/// Sifting up keeps the length.
proof fn lemma_sift_up_len<T: TotalOrder>(s: Seq<T>, k: int)
    requires
        0 <= k < s.len(),
    ensures
        sift_up(s, k).len() == s.len(),
    decreases k,
{
    if k > 0 && T::leq(s[k], s[parent(k)]) {
        lemma_sift_up_len(swapped(s, k, parent(k)), parent(k));
    }
}

/// Sifting up from a slot of `a` leaves whatever follows `a` alone.
proof fn lemma_sift_up_append<T: TotalOrder>(a: Seq<T>, b: Seq<T>, k: int)
    requires
        0 <= k < a.len(),
    ensures
        sift_up(a + b, k) == sift_up(a, k) + b,
    decreases k,
{
    if k > 0 {
        let p = parent(k);
        assert((a + b)[k] == a[k] && (a + b)[p] == a[p]);
        if T::leq(a[k], a[p]) {
            assert(swapped(a + b, k, p) =~= swapped(a, k, p) + b);
            lemma_sift_up_append(swapped(a, k, p), b, p);
        }
    }
}

/// The buffer built by inserting the entries of `s` one at a time is as
/// long as `s`.
proof fn lemma_build_len<T: TotalOrder>(s: Seq<T>)
    ensures
        build_by_inserts(s).len() == s.len(),
    decreases s.len(),
{
    if s.len() > 0 {
        lemma_build_len(s.drop_last());
        lemma_sift_up_len(build_by_inserts(s.drop_last()).push(s.last()), s.len() - 1);
    }
}

/// The error of asking an empty queue for its top.
#[derive(Debug, Clone, Copy, PartialEq, Eq, Structural)]
pub struct EmptyQueueError;

/// Exchanging two entries keeps what the sequence holds, and what each of
/// its prefixes that covers both entries holds.
proof fn lemma_swap_multiset<T>(s: Seq<T>, i: int, j: int, n: int)
    requires
        0 <= i < n,
        0 <= j < n,
        n <= s.len(),
    ensures
        swapped(s, i, j).to_multiset() == s.to_multiset(),
        swapped(s, i, j).take(n).to_multiset() == s.take(n).to_multiset(),
        swapped(s, i, j).skip(n) == s.skip(n),
        swapped(s, i, j).take(n) == swapped(s.take(n), i, j),
{
    broadcast use vstd::seq_lib::to_multiset_update;

    let t = s.take(n);
    assert(swapped(s, i, j).take(n) =~= swapped(t, i, j));
    assert(swapped(s, i, j).skip(n) =~= s.skip(n));
    assert(s.update(i, s[j]).to_multiset() == s.to_multiset().insert(s[j]).remove(s[i]));
    assert(swapped(s, i, j).to_multiset() =~= s.to_multiset());
    assert(t.update(i, t[j]).to_multiset() == t.to_multiset().insert(t[j]).remove(t[i]));
    assert(swapped(t, i, j).to_multiset() =~= t.to_multiset());
}

/// Exchanges the entries at `i` and `j`.
fn swap_entries<T: TotalOrder>(v: &mut Vec<T>, i: usize, j: usize)
    requires
        i < old(v).len(),
        j < old(v).len(),
    ensures
        final(v)@ == swapped(old(v)@, i as int, j as int),
{
    let a = v[i].duplicate();
    let b = v[j].duplicate();
    v.set(i, b);
    v.set(j, a);
}

/// `s` is a heap but for the node at `k`, which may come earlier than its
/// parent; its parent still comes no later than its children.
pub open spec fn heap_but_up<T: TotalOrder>(s: Seq<T>, k: int) -> bool {
    &&& forall|i: int| 0 < i < s.len() && i != k ==> #[trigger] T::leq(s[parent(i)], s[i])
    &&& k > 0 ==> forall|c: int|
        0 < c < s.len() && parent(c) == k ==> #[trigger] T::leq(s[parent(k)], s[c])
}

/// `s` is a heap but for the node at `k`, which may come later than its
/// children; its parent still comes no later than those children.
pub open spec fn heap_but_down<T: TotalOrder>(s: Seq<T>, k: int) -> bool {
    &&& forall|i: int|
        0 < i < s.len() && parent(i) != k ==> #[trigger] T::leq(s[parent(i)], s[i])
    &&& k > 0 ==> forall|c: int|
        0 < c < s.len() && parent(c) == k ==> #[trigger] T::leq(s[parent(k)], s[c])
}

/// The root of a heap comes no later than any of its nodes.
proof fn lemma_root_first<T: TotalOrder>(s: Seq<T>, k: int)
    requires
        heap_ordered(s),
        0 <= k < s.len(),
    ensures
        T::leq(s[0], s[k]),
    decreases k,
{
    if k == 0 {
        T::reflexive(s[0]);
    } else {
        lemma_root_first(s, parent(k));
        assert(T::leq(s[parent(k)], s[k]));
        T::transitive(s[0], s[parent(k)], s[k]);
    }
}

/// The root of a non-empty heap is a least element of it.
proof fn lemma_root_least<T: TotalOrder>(s: Seq<T>)
    requires
        heap_ordered(s),
        s.len() > 0,
    ensures
        is_least(s[0], s.to_multiset()),
{
    assert forall|x: T| #[trigger] s.to_multiset().contains(x) implies T::leq(s[0], x) by {
        assert(s.contains(x));
        let k = choose|k: int| 0 <= k < s.len() && s[k] == x;
        lemma_root_first(s, k);
    }
}

/// A queue that takes and gives up elements by value. No type here
/// implements it.
pub trait Queue<T> {
    fn enqueue(&mut self, element: &T);

    fn dequeue(&mut self, element: &T);
}

/// A queue that hands out its elements least first.
pub trait PriorityQueue<T: TotalOrder>: Sized {
    /// The queue's internal invariant.
    spec fn well_formed(&self) -> bool;

    /// The elements in the queue.
    spec fn elements(&self) -> Multiset<T>;

    /// Adds `element`.
    fn insert(&mut self, element: T)
        requires
            old(self).well_formed(),
        ensures
            final(self).well_formed(),
            final(self).elements() == old(self).elements().insert(element),
    ;

    /// A least element; an error on an empty queue.
    fn top(&self) -> (r: Result<T, EmptyQueueError>)
        requires
            self.well_formed(),
        ensures
            r is Err <==> self.elements().len() == 0,
            r is Ok ==> self.elements().contains(r->Ok_0) && is_least(r->Ok_0, self.elements()),
    ;

    /// Removes and returns a least element; an error, with the queue left as
    /// it was, on an empty queue.
    fn remove_top(&mut self) -> (r: Result<T, EmptyQueueError>)
        requires
            old(self).well_formed(),
        ensures
            final(self).well_formed(),
            r is Err <==> old(self).elements().len() == 0,
            r is Err ==> final(self).elements() == old(self).elements(),
            r is Ok ==> old(self).elements().contains(r->Ok_0) && is_least(
                r->Ok_0,
                old(self).elements(),
            ) && final(self).elements() == old(self).elements().remove(r->Ok_0),
    ;

    /// Whether the queue holds no element.
    fn is_empty(&self) -> (r: bool)
        requires
            self.well_formed(),
        ensures
            r == (self.elements().len() == 0),
    ;
}

/// A min-priority queue over a buffer. The first `capacity` slots of `data`
/// are live and heap-ordered; the slots past them are retired.
pub struct Heap<T: TotalOrder> {
    data: Vec<T>,
    capacity: usize,
}

impl<T: TotalOrder> Heap<T> {
    /// The whole buffer, live and retired slots alike.
    pub closed spec fn storage(&self) -> Seq<T> {
        self.data@
    }

    /// How many leading slots of the buffer are live.
    pub closed spec fn live_count(&self) -> nat {
        self.capacity as nat
    }

    /// The live slots, in buffer order.
    pub open spec fn live(&self) -> Seq<T> {
        self.storage().take(self.live_count() as int)
    }

    /// The elements in the queue.
    pub open spec fn items(&self) -> Multiset<T> {
        self.live().to_multiset()
    }

    /// The live count fits the buffer, and the live slots form a heap.
    pub open spec fn wf(&self) -> bool {
        &&& self.live_count() <= self.storage().len()
        &&& heap_ordered(self.live())
    }

    /// An empty heap.
    pub fn new() -> (r: Self)
        ensures
            r.wf(),
            r.storage().len() == 0,
            r.live_count() == 0,
            r.items() == Multiset::<T>::empty(),
    {
        let r = Heap { data: Vec::new(), capacity: 0 };
        proof {
            assert(r.live() =~= Seq::<T>::empty());
        }
        r
    }

    fn left_of(index: usize) -> (r: usize)
        requires
            index < usize::MAX / 2,
        ensures
            r == left(index as int),
    {
        2 * (index + 1) - 1
    }

    fn right_of(index: usize) -> (r: usize)
        requires
            index < usize::MAX / 2,
        ensures
            r == right(index as int),
    {
        2 * (index + 1)
    }

    fn parent_of(index: usize) -> (r: usize)
        requires
            0 < index,
        ensures
            r == parent(index as int),
    {
        (index - 1) / 2
    }

    /// Moves the element at `index` up towards the root: while it has a
    /// parent and comes no later than that parent, the two are exchanged.
    /// Where the slots before `index` form a heap, the first `index + 1`
    /// slots form one afterwards.
    fn swim(&mut self, index: usize)
        requires
            index < old(self).data.len(),
        ensures
            final(self).capacity == old(self).capacity,
            final(self).data@ == sift_up(old(self).data@, index as int),
            final(self).data.len() == old(self).data.len(),
            final(self).data@.take(index + 1).to_multiset() == old(self).data@.take(
                index + 1,
            ).to_multiset(),
            final(self).data@.to_multiset() == old(self).data@.to_multiset(),
            final(self).data@.skip(index + 1) == old(self).data@.skip(index + 1),
            heap_ordered(old(self).data@.take(index as int)) ==> heap_ordered(
                final(self).data@.take(index + 1),
            ),
    {
        let ghost n = index + 1;
        let ghost hb = heap_ordered(old(self).data@.take(index as int));
        let mut k = index;
        proof {
            if hb {
                assert forall|i: int| 0 < i < n && i != k implies #[trigger] T::leq(
                    self.data@.take(n)[parent(i)],
                    self.data@.take(n)[i],
                ) by {
                    assert(T::leq(
                        old(self).data@.take(index as int)[parent(i)],
                        old(self).data@.take(index as int)[i],
                    ));
                }
            }
        }
        while k > 0
            invariant
                k < n <= self.data.len(),
                self.capacity == old(self).capacity,
                self.data.len() == old(self).data.len(),
                sift_up(self.data@, k as int) == sift_up(old(self).data@, index as int),
                hb ==> heap_but_up(self.data@.take(n), k as int),
                self.data@.take(n).to_multiset() == old(self).data@.take(n).to_multiset(),
                self.data@.to_multiset() == old(self).data@.to_multiset(),
                self.data@.skip(n) == old(self).data@.skip(n),
            ensures
                self.data@ == sift_up(old(self).data@, index as int),
                hb ==> heap_ordered(self.data@.take(n)),
            decreases k,
        {
            let p = Self::parent_of(k);
            if !self.data[k].less_or_equal(&self.data[p]) {
                proof {
                    let s = self.data@.take(n);
                    assert(sift_up(self.data@, k as int) == self.data@);
                    if hb {
                        T::total(s[k as int], s[p as int]);
                        assert forall|i: int| 0 < i < n implies #[trigger] T::leq(
                            s[parent(i)],
                            s[i],
                        ) by {
                            if i != k {
                                assert(T::leq(s[parent(i)], s[i]));
                            }
                        }
                    }
                }
                break;
            }
            let ghost s = self.data@.take(n);
            proof {
                assert(sift_up(self.data@, k as int) == sift_up(
                    swapped(self.data@, k as int, p as int),
                    p as int,
                ));
                lemma_swap_multiset(self.data@, k as int, p as int, n);
            }
            swap_entries(&mut self.data, k, p);
            proof {
                let t = self.data@.take(n);
                assert(t == swapped(s, k as int, p as int));
                if hb {
                    assert forall|i: int| 0 < i < n && i != p implies #[trigger] T::leq(
                        t[parent(i)],
                        t[i],
                    ) by {
                        if i == k {
                        } else if parent(i) == k {
                            assert(T::leq(s[parent(k as int)], s[i]));
                        } else if parent(i) == p {
                            assert(T::leq(s[parent(i)], s[i]));
                            T::transitive(s[k as int], s[p as int], s[i]);
                        } else {
                            assert(T::leq(s[parent(i)], s[i]));
                        }
                    }
                    if p > 0 {
                        assert forall|c: int| 0 < c < n && parent(c) == p implies #[trigger] T::leq(
                            t[parent(p as int)],
                            t[c],
                        ) by {
                            assert(T::leq(s[parent(p as int)], s[p as int]));
                            if c != k {
                                assert(T::leq(s[parent(c)], s[c]));
                                T::transitive(s[parent(p as int)], s[p as int], s[c]);
                            }
                        }
                    }
                }
            }
            k = p;
        }
    }

    /// Moves the element at `index` down towards the leaves: while it has a
    /// live child, the earlier of its live children (the right one on a tie)
    /// is taken, and where that child comes strictly earlier the two are
    /// exchanged. Where the live slots form a heap but for `index`, they form
    /// one afterwards.
    fn sink(&mut self, index: usize)
        requires
            old(self).capacity <= old(self).data.len(),
        ensures
            final(self).capacity == old(self).capacity,
            final(self).data@ == sift_down(
                old(self).data@,
                old(self).capacity as int,
                index as int,
            ),
            final(self).data.len() == old(self).data.len(),
            final(self).items() == old(self).items(),
            final(self).data@.to_multiset() == old(self).data@.to_multiset(),
            final(self).data@.skip(old(self).capacity as int) == old(self).data@.skip(
                old(self).capacity as int,
            ),
            heap_but_down(old(self).live(), index as int) ==> heap_ordered(final(self).live()),
    {
        let n = self.capacity;
        let ghost hb = heap_but_down(old(self).live(), index as int);
        let mut k = index;
        while k < n / 2
            invariant
                n == self.capacity,
                n <= self.data.len(),
                self.data.len() == old(self).data.len(),
                sift_down(self.data@, n as int, k as int) == sift_down(
                    old(self).data@,
                    n as int,
                    index as int,
                ),
                hb ==> heap_but_down(self.live(), k as int),
                self.items() == old(self).items(),
                self.data@.to_multiset() == old(self).data@.to_multiset(),
                self.data@.skip(n as int) == old(self).data@.skip(n as int),
            ensures
                self.data@ == sift_down(old(self).data@, n as int, index as int),
                hb ==> heap_ordered(self.live()),
            decreases n - k,
        {
            let l = Self::left_of(k);
            let r = Self::right_of(k);
            let m = if r >= n {
                l
            } else if !self.data[r].less_or_equal(&self.data[l]) {
                l
            } else {
                r
            };
            let ghost s = self.live();
            proof {
                if r < n {
                    T::total(s[l as int], s[r as int]);
                }
            }
            if self.data[k].less_or_equal(&self.data[m]) {
                proof {
                    assert(sift_down(self.data@, n as int, k as int) == self.data@);
                    if hb {
                        assert forall|i: int| 0 < i < n implies #[trigger] T::leq(
                            s[parent(i)],
                            s[i],
                        ) by {
                            if parent(i) == k {
                                if i != m {
                                    T::transitive(s[k as int], s[m as int], s[i]);
                                }
                            } else {
                                assert(T::leq(s[parent(i)], s[i]));
                            }
                        }
                    }
                }
                break;
            }
            proof {
                assert(sift_down(self.data@, n as int, k as int) == sift_down(
                    swapped(self.data@, k as int, m as int),
                    n as int,
                    m as int,
                ));
                T::total(s[k as int], s[m as int]);
                lemma_swap_multiset(self.data@, k as int, m as int, n as int);
            }
            swap_entries(&mut self.data, k, m);
            proof {
                let t = self.live();
                assert(t == swapped(s, k as int, m as int));
                if hb {
                    assert forall|i: int| 0 < i < n && parent(i) != m implies #[trigger] T::leq(
                        t[parent(i)],
                        t[i],
                    ) by {
                        if i == m {
                        } else if parent(i) == k {
                        } else if i == k {
                            assert(T::leq(s[parent(k as int)], s[m as int]));
                        } else {
                            assert(T::leq(s[parent(i)], s[i]));
                        }
                    }
                    assert forall|c: int| 0 < c < n && parent(c) == m implies #[trigger] T::leq(
                        t[parent(m as int)],
                        t[c],
                    ) by {
                        assert(T::leq(s[parent(c)], s[c]));
                    }
                }
            }
            k = m;
        }
    }

    /// `after` is `before` once its top `t` has been removed: `t` moved to
    /// the first retired slot and the slots past it left alone.
    pub open spec fn removed(before: Self, after: Self, t: T) -> bool {
        &&& before.live_count() > 0
        &&& t == before.live()[0]
        &&& before.items().contains(t)
        &&& is_least(t, before.items())
        &&& after.items() == before.items().remove(t)
        &&& after.live_count() == before.live_count() - 1
        &&& after.storage().len() == before.storage().len()
        &&& after.storage()[after.live_count() as int] == t
        &&& after.storage().skip(before.live_count() as int) == before.storage().skip(
            before.live_count() as int,
        )
    }

    /// `after` is `before` with `e` added to the live elements.
    pub open spec fn inserted(before: Self, after: Self, e: T) -> bool {
        &&& after.items() == before.items().insert(e)
        &&& after.live_count() == before.live_count() + 1
    }

    /// `after` is `before` sorted: its buffer holds exactly the elements of
    /// `before`, in ascending order, and all of it is live.
    pub open spec fn sorted_from(before: Self, after: Self) -> bool {
        &&& after.wf()
        &&& after.live_count() == after.storage().len()
        &&& ascending(after.storage())
        &&& after.storage().to_multiset() == before.items()
    }

    /// Removes and returns the top of the queue, retiring its slot; fails,
    /// changing nothing, on an empty queue.
    pub fn remove_top(&mut self) -> (r: Result<T, EmptyQueueError>)
        requires
            old(self).wf(),
        ensures
            final(self).wf(),
            old(self).live_count() == 0 ==> r == Err::<T, EmptyQueueError>(EmptyQueueError)
                && *final(self) == *old(self),
            old(self).live_count() > 0 ==> r is Ok && Self::removed(
                *old(self),
                *final(self),
                r->Ok_0,
            ),
            old(self).live_count() > 0 ==> final(self).storage() == sift_down(
                swapped(old(self).storage(), 0, old(self).live_count() - 1),
                old(self).live_count() - 1,
                0,
            ),
    {
        if self.capacity == 0 {
            return Err(EmptyQueueError);
        }
        let top = self.data[0].duplicate();
        let ghost s = self.data@;
        let ghost n = self.capacity as int;
        proof {
            lemma_root_least(self.live());
            assert(self.live().contains(top));
        }
        self.capacity = self.capacity - 1;
        let last = self.capacity;
        proof {
            lemma_swap_multiset(s, 0, last as int, n);
        }
        swap_entries(&mut self.data, 0, last);
        proof {
            let t = self.data@.take(n);
            let u = self.live();
            assert(u == t.take(last as int));
            assert(t == u.push(top));
            assert(u.to_multiset() =~= t.to_multiset().remove(top));
            assert(heap_but_down(u, 0)) by {
                assert forall|i: int| 0 < i < last && parent(i) != 0 implies #[trigger] T::leq(
                    u[parent(i)],
                    u[i],
                ) by {
                    assert(T::leq(s.take(n)[parent(i)], s.take(n)[i]));
                }
            }
            assert(self.data@.skip(last as int) =~= seq![top] + s.skip(n));
        }
        self.sink(0);
        proof {
            assert(self.data@.skip(last as int)[0] == top);
            assert(self.data@[last as int] == top);
            assert((seq![top] + s.skip(n)).skip(1) =~= s.skip(n));
            assert(self.data@.skip(n) =~= self.data@.skip(last as int).skip(1));
        }
        Ok(top)
    }

    /// The whole buffer, live and retired slots alike.
    pub fn buffer(&self) -> (r: &Vec<T>)
        ensures
            r@ == self.storage(),
    {
        &self.data
    }

    /// How many leading slots of the buffer are live.
    pub fn count(&self) -> (r: usize)
        ensures
            r == self.live_count(),
    {
        self.capacity
    }

    /// A heap of the elements of `data`, built in place by letting each slot
    /// in turn swim up.
    pub fn from_vec(data: Vec<T>) -> (r: Self)
        ensures
            r.wf(),
            r.live_count() == data.len(),
            r.storage().len() == data.len(),
            r.items() == data@.to_multiset(),
            r.storage() == build_by_inserts(data@),
    {
        let ghost d = data@;
        let mut heap = Heap { data, capacity: 0 };
        proof {
            assert(heap.live() =~= Seq::<T>::empty());
            assert(d.take(0) =~= Seq::<T>::empty());
            assert(heap.data@ =~= build_by_inserts(d.take(0)) + d.skip(0));
        }
        while heap.capacity < heap.data.len()
            invariant
                heap.capacity <= heap.data.len(),
                heap.data.len() == d.len(),
                heap_ordered(heap.live()),
                heap.data@.to_multiset() == d.to_multiset(),
                heap.data@ == build_by_inserts(d.take(heap.capacity as int)) + d.skip(
                    heap.capacity as int,
                ),
            decreases d.len() - heap.capacity,
        {
            let c = heap.capacity;
            proof {
                let b = build_by_inserts(d.take(c as int));
                lemma_build_len(d.take(c as int));
                assert(heap.data@ =~= b.push(d[c as int]) + d.skip(c + 1));
                lemma_sift_up_append(b.push(d[c as int]), d.skip(c + 1), c as int);
                assert(d.take(c + 1).drop_last() =~= d.take(c as int));
            }
            heap.swim(c);
            heap.capacity = c + 1;
        }
        proof {
            assert(heap.live() =~= heap.data@);
            assert(d.take(d.len() as int) =~= d);
            assert(heap.data@ =~= build_by_inserts(d));
        }
        heap
    }

    /// Sorts the elements in ascending order, in place: each top in turn is
    /// removed to the slot just past the live ones, which leaves the buffer
    /// descending, and the buffer is then reversed. Retired slots are
    /// dropped first; afterwards every slot is live.
    pub fn sort(&mut self)
        requires
            old(self).wf(),
        ensures
            Self::sorted_from(*old(self), *final(self)),
    {
        self.data.truncate(self.capacity);
        let n = self.capacity;
        let ghost m0 = self.items();
        proof {
            assert(self.live() =~= old(self).live());
            assert(self.data@ =~= self.live());
            assert(self.data@.skip(n as int) =~= Seq::<T>::empty());
            assert(self.items().add(Seq::<T>::empty().to_multiset()) =~= m0);
        }
        while self.capacity > 0
            invariant
                self.wf(),
                self.data.len() == n,
                self.items().add(self.data@.skip(self.capacity as int).to_multiset()) == m0,
                descending_from(self.data@, self.capacity as int),
                forall|x: T, b: int|
                    self.items().contains(x) && self.capacity <= b < n ==> #[trigger] T::leq(
                        self.data@[b],
                        x,
                    ),
            decreases self.capacity,
        {
            let ghost before = *self;
            let r = Heap::remove_top(self);
            proof {
                let t = r->Ok_0;
                let c = self.capacity as int;
                let s0 = before.data@;
                let s = self.data@;
                assert forall|k: int| c < k < n implies s[k] == s0[k] by {
                    assert(s.skip(c + 1)[k - c - 1] == s0.skip(c + 1)[k - c - 1]);
                }
                assert(s.skip(c) =~= seq![t] + s0.skip(c + 1));
                lemma_multiset_commutative(seq![t], s0.skip(c + 1));
                assert(seq![t].to_multiset() =~= Multiset::<T>::empty().insert(t)) by {
                    assert(seq![t] =~= Seq::<T>::empty().push(t));
                }
                assert(self.items().add(s.skip(c).to_multiset()) =~= m0);
                assert(before.items().contains(t));
                assert forall|i: int, j: int| c <= i < j < n implies #[trigger] T::leq(s[j], s[i]) by {
                    if i == c {
                        assert(T::leq(s0[j], t));
                    } else {
                        assert(T::leq(s0[j], s0[i]));
                    }
                }
                assert forall|x: T, b: int| self.items().contains(x) && c <= b < n implies #[trigger] T::leq(
                    s[b],
                    x,
                ) by {
                    assert(before.items().contains(x));
                    if b != c {
                        assert(T::leq(s0[b], x));
                    }
                }
            }
        }
        let ghost d = self.data@;
        proof {
            assert(self.items() =~= Multiset::<T>::empty());
            assert(d.skip(0) =~= d);
            assert(d.to_multiset() =~= m0);
        }
        let mut i: usize = 0;
        while i < n / 2
            invariant
                i <= n / 2,
                self.capacity == 0,
                self.data.len() == n,
                self.data@.to_multiset() == d.to_multiset(),
                forall|k: int| 0 <= k < i ==> #[trigger] self.data@[k] == d[n - 1 - k],
                forall|k: int| n - i <= k < n ==> #[trigger] self.data@[k] == d[n - 1 - k],
                forall|k: int| i <= k < n - i ==> #[trigger] self.data@[k] == d[k],
            decreases n / 2 - i,
        {
            proof {
                lemma_swap_multiset(self.data@, i as int, (n - 1 - i) as int, n as int);
            }
            swap_entries(&mut self.data, i, n - 1 - i);
            i = i + 1;
        }
        self.capacity = n;
        proof {
            let s = self.data@;
            assert forall|k: int| 0 <= k < n implies #[trigger] s[k] == d[n - 1 - k] by {
                if i <= k < n - i {
                    assert(k == n - 1 - k);
                }
            }
            assert forall|a: int, b: int| 0 <= a < b < n implies #[trigger] T::leq(s[a], s[b]) by {
                assert(s[a] == d[n - 1 - a]);
                assert(s[b] == d[n - 1 - b]);
                assert(T::leq(d[n - 1 - a], d[n - 1 - b]));
            }
            assert(self.live() =~= s);
            assert(ascending(s));
            assert(s.to_multiset() == old(self).items());
            assert(heap_ordered(s)) by {
                assert forall|k: int| 0 < k < n implies #[trigger] T::leq(s[parent(k)], s[k]) by {}
            }
        }
    }
}

impl<T: TotalOrder> PriorityQueue<T> for Heap<T> {
    open spec fn well_formed(&self) -> bool {
        self.wf()
    }

    open spec fn elements(&self) -> Multiset<T> {
        self.items()
    }

    /// Puts `element` in the first slot past the live ones, reusing a
    /// retired slot where there is one, and lets it swim up.
    fn insert(&mut self, element: T)
        ensures
            Self::inserted(*old(self), *final(self), element),
            final(self).storage() == sift_up(
                placed(old(self).storage(), old(self).live_count() as int, element),
                old(self).live_count() as int,
            ),
            old(self).live_count() < old(self).storage().len() ==> final(self).storage().len()
                == old(self).storage().len() && final(self).storage().skip(
                final(self).live_count() as int,
            ) == old(self).storage().skip(final(self).live_count() as int),
            old(self).live_count() == old(self).storage().len() ==> final(self).storage().len()
                == old(self).storage().len() + 1,
    {
        let ghost s0 = self.data@;
        let n = self.capacity;
        if n < self.data.len() {
            self.data.set(n, element);
        } else {
            self.data.push(element);
        }
        proof {
            assert(self.data@.take(n as int) == s0.take(n as int));
            assert(self.data@.take(n + 1) =~= s0.take(n as int).push(element));
            if n < s0.len() {
                assert(self.data@.skip(n + 1) =~= s0.skip(n + 1));
            }
        }
        self.swim(n);
        self.capacity = n + 1;
    }

    /// The root of the heap.
    fn top(&self) -> (r: Result<T, EmptyQueueError>)
        ensures
            self.live_count() == 0 ==> r == Err::<T, EmptyQueueError>(EmptyQueueError),
            r is Ok ==> r->Ok_0 == self.live()[0],
    {
        if self.capacity == 0 {
            return Err(EmptyQueueError);
        }
        proof {
            lemma_root_least(self.live());
            assert(self.live().to_multiset().contains(self.live()[0]));
        }
        Ok(self.data[0].duplicate())
    }

    fn remove_top(&mut self) -> (r: Result<T, EmptyQueueError>)
        ensures
            r is Err ==> *final(self) == *old(self),
            r is Ok ==> Self::removed(*old(self), *final(self), r->Ok_0),
    {
        let r = Heap::remove_top(self);
        proof {
            if r is Ok {
                assert(old(self).live().to_multiset().contains(old(self).live()[0]));
            }
        }
        r
    }

    fn is_empty(&self) -> (r: bool) {
        self.capacity == 0
    }
}


/// How many entries of `ops` equal `which`.
pub open spec fn tally(ops: Seq<bool>, which: bool) -> nat
    decreases ops.len(),
{
    if ops.len() == 0 {
        0
    } else {
        tally(ops.drop_last(), which) + if ops.last() == which {
            1nat
        } else {
            0nat
        }
    }
}

/// In a well-formed heap every live node comes no later than each of its
/// live children.
pub proof fn lemma_heap_children<T: TotalOrder>(h: Heap<T>)
    requires
        h.wf(),
    ensures
        forall|i: int|
            0 <= i < h.live_count() ==> (left(i) < h.live_count() ==> T::leq(
                #[trigger] h.live()[i],
                h.live()[left(i)],
            )) && (right(i) < h.live_count() ==> T::leq(h.live()[i], h.live()[right(i)])),
{
    let s = h.live();
    assert forall|i: int| 0 <= i < h.live_count() implies (left(i) < h.live_count() ==> T::leq(
        #[trigger] s[i],
        s[left(i)],
    )) && (right(i) < h.live_count() ==> T::leq(s[i], s[right(i)])) by {
        if left(i) < h.live_count() {
            assert(parent(left(i)) == i);
            assert(T::leq(s[parent(left(i))], s[left(i)]));
        }
        if right(i) < h.live_count() {
            assert(parent(right(i)) == i);
            assert(T::leq(s[parent(right(i))], s[right(i)]));
        }
    }
}

/// Two tops removed one after the other come in order: the first comes no
/// later than the second.
pub proof fn lemma_extraction_order<T: TotalOrder>(
    h0: Heap<T>,
    h1: Heap<T>,
    h2: Heap<T>,
    t1: T,
    t2: T,
)
    requires
        h0.wf(),
        h1.wf(),
        Heap::removed(h0, h1, t1),
        Heap::removed(h1, h2, t2),
    ensures
        T::leq(t1, t2),
{
    assert(h1.live().contains(h1.live()[0]));
    assert(h1.live().to_multiset().contains(h1.live()[0]));
    assert(h0.items().contains(t2));
}

/// Along a run of inserts and removals that starts from an empty queue, the
/// live count is the number of inserts less the number of removals.
/// `ops[i]` tells whether step `i` inserted (`true`) or removed (`false`)
/// the element `elems[i]`.
pub proof fn lemma_count_conservation<T: TotalOrder>(
    hs: Seq<Heap<T>>,
    ops: Seq<bool>,
    elems: Seq<T>,
)
    requires
        hs.len() == ops.len() + 1,
        elems.len() == ops.len(),
        hs[0].live_count() == 0,
        forall|i: int|
            0 <= i < ops.len() ==> (#[trigger] ops[i] ==> Heap::inserted(
                hs[i],
                hs[i + 1],
                elems[i],
            )) && (!ops[i] ==> Heap::removed(hs[i], hs[i + 1], elems[i])),
    ensures
        hs.last().live_count() + tally(ops, false) == tally(ops, true),
    decreases ops.len(),
{
    if ops.len() > 0 {
        let k = ops.len() - 1;
        assert(ops[k] ==> Heap::inserted(hs[k], hs[k + 1], elems[k]));
        lemma_count_conservation(hs.drop_last(), ops.drop_last(), elems.drop_last());
    }
}

/// Inserting the entries of `d` one at a time into an empty heap leaves the
/// same buffer that `from_vec` builds from `d`. `hs[i + 1]` is `hs[i]` after
/// the insertion of `d[i]`, as `insert` states it.
pub proof fn lemma_inserts_build<T: TotalOrder>(hs: Seq<Heap<T>>, d: Seq<T>)
    requires
        hs.len() == d.len() + 1,
        hs[0].storage().len() == 0,
        hs[0].live_count() == 0,
        forall|i: int|
            0 <= i < d.len() ==> (#[trigger] hs[i + 1]).storage() == sift_up(
                placed(hs[i].storage(), hs[i].live_count() as int, d[i]),
                hs[i].live_count() as int,
            ) && hs[i + 1].live_count() == hs[i].live_count() + 1,
    ensures
        hs.last().storage() == build_by_inserts(d),
        hs.last().live_count() == d.len(),
    decreases d.len(),
{
    if d.len() == 0 {
        assert(hs[0].storage() =~= d);
    } else {
        let k = d.len() - 1;
        assert forall|i: int| 0 <= i < k implies (#[trigger] hs.drop_last()[i + 1]).storage()
            == sift_up(
            placed(hs.drop_last()[i].storage(), hs.drop_last()[i].live_count() as int, d.drop_last()[i]),
            hs.drop_last()[i].live_count() as int,
        ) && hs.drop_last()[i + 1].live_count() == hs.drop_last()[i].live_count() + 1 by {
            assert(hs[i + 1] == hs.drop_last()[i + 1]);
        }
        lemma_inserts_build(hs.drop_last(), d.drop_last());
        lemma_build_len(d.drop_last());
        assert(hs[k + 1] == hs.last());
    }
}

/// Two ascending sequences with the same elements agree, position by
/// position, up to the view of their entries.
pub proof fn lemma_ascending_unique<T: TotalOrder>(x: Seq<T>, y: Seq<T>)
    requires
        ascending(x),
        ascending(y),
        x.to_multiset() == y.to_multiset(),
    ensures
        x.len() == y.len(),
        forall|k: int| 0 <= k < x.len() ==> (#[trigger] x[k])@ == y[k]@,
    decreases x.len(),
{
    broadcast use vstd::seq_lib::to_multiset_remove;

    if x.len() == 0 {
        assert(y.to_multiset().len() == 0);
        return;
    }
    let x0 = x[0];
    assert(x.to_multiset().contains(x0));
    assert(y.contains(x0));
    let j = choose|j: int| 0 <= j < y.len() && y[j] == x0;
    assert(y.to_multiset().contains(y[0]));
    assert(x.contains(y[0]));
    let i0 = choose|i: int| 0 <= i < x.len() && x[i] == y[0];
    if i0 == 0 {
        T::reflexive(x0);
    } else {
        assert(T::leq(x[0], x[i0]));
    }
    // y[0] .. y[j] all have the view of x0
    assert forall|k: int| 0 <= k <= j implies (#[trigger] y[k])@ == x0@ by {
        if k > 0 {
            assert(T::leq(y[0], y[k]));
        } else {
            T::reflexive(y[0]);
        }
        T::transitive(x0, y[0], y[k]);
        if k < j {
            assert(T::leq(y[k], y[j]));
        } else {
            T::reflexive(y[k]);
        }
        T::antisymmetric(y[k], x0);
    }
    let xs = x.remove(0);
    let ys = y.remove(j);
    assert(xs.to_multiset() == x.to_multiset().remove(x0));
    assert(ys.to_multiset() == y.to_multiset().remove(x0));
    assert forall|a: int, b: int| 0 <= a < b < xs.len() implies #[trigger] T::leq(xs[a], xs[b]) by {
        assert(T::leq(x[a + 1], x[b + 1]));
    }
    assert forall|a: int, b: int| 0 <= a < b < ys.len() implies #[trigger] T::leq(ys[a], ys[b]) by {
        let a1 = if a < j { a } else { a + 1 };
        let b1 = if b < j { b } else { b + 1 };
        assert(T::leq(y[a1], y[b1]));
    }
    lemma_ascending_unique(xs, ys);
    assert forall|k: int| 0 <= k < x.len() implies (#[trigger] x[k])@ == y[k]@ by {
        if k > 0 {
            assert(x[k] == xs[k - 1]);
            assert(xs[k - 1]@ == ys[k - 1]@);
            if k <= j {
                assert(ys[k - 1] == y[k - 1]);
                assert(y[k - 1]@ == x0@);
                assert(y[k]@ == x0@);
            } else {
                assert(ys[k - 1] == y[k]);
            }
        } else {
            assert(y[0]@ == x0@);
        }
    }
}

/// Sorting a heap that was just sorted gives back the same sequence: the
/// same entries wherever values of the element type are told apart by their
/// views (as integers are), and entries of the same views in any case.
pub proof fn lemma_sort_idempotent<T: TotalOrder>(h0: Heap<T>, h1: Heap<T>, h2: Heap<T>)
    requires
        Heap::sorted_from(h0, h1),
        Heap::sorted_from(h1, h2),
    ensures
        h2.storage().map_values(|e: T| e@) == h1.storage().map_values(|e: T| e@),
        (forall|x: T, y: T| #[trigger] x@ == #[trigger] y@ ==> x == y) ==> h2.storage()
            == h1.storage(),
{
    assert(h1.live() =~= h1.storage());
    lemma_ascending_unique(h2.storage(), h1.storage());
    assert(h2.storage().map_values(|e: T| e@) =~= h1.storage().map_values(|e: T| e@));
    if forall|x: T, y: T| #[trigger] x@ == #[trigger] y@ ==> x == y {
        assert forall|k: int| 0 <= k < h2.storage().len() implies h2.storage()[k]
            == h1.storage()[k] by {
            assert(h2.storage()[k]@ == h1.storage()[k]@);
        }
        assert(h2.storage() =~= h1.storage());
    }
}

} // verus!
