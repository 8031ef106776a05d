//! A binary-heap priority queue ordered by a caller-supplied comparison.
use core::cmp::Ordering;
use vstd::prelude::*;

verus! {

broadcast use {vstd::multiset::group_multiset_axioms, vstd::seq_lib::to_multiset_build};

/// Relies on slice::swap: exchanges the elements at `i` and `j`.
#[verifier::external_body]
fn swap_items<T>(v: &mut Vec<T>, i: usize, j: usize)
    requires
        i < old(v)@.len(),
        j < old(v)@.len(),
    ensures
        final(v)@ == old(v)@.update(i as int, old(v)@[j as int]).update(j as int, old(v)@[i as int]),
{
    v.swap(i, j);
}

/// Exchanging two elements keeps the multiset of elements.
proof fn lemma_swap_multiset<T>(s: Seq<T>, i: int, j: int)
    requires
        0 <= i < s.len(),
        0 <= j < s.len(),
    ensures
        s.update(i, s[j]).update(j, s[i]).to_multiset() == s.to_multiset(),
        s.update(i, s[j]).update(j, s[i]).len() == s.len(),
{
    broadcast use vstd::seq_lib::to_multiset_update;
    broadcast use vstd::seq_lib::to_multiset_contains;

    let s1 = s.update(i, s[j]);
    assert(s1.to_multiset() == s.to_multiset().insert(s[j]).remove(s[i]));
    assert(s1[j] == s[j] || i == j);
    if i == j {
        assert(s.update(i, s[j]) =~= s);
        assert(s1.update(j, s[i]) =~= s);
    } else {
        assert(s1[j] == s[j]);
        assert(s1.update(j, s[i]).to_multiset() == s1.to_multiset().insert(s[i]).remove(s[j]));
        assert(s1.update(j, s[i]).to_multiset() =~= s.to_multiset());
    }
}

/// Whether `f` does not order `a` after `b`.
pub open spec fn not_after<T, F: Fn(&T, &T) -> Ordering>(f: F, a: T, b: T) -> bool {
    !f.ensures((&a, &b), Ordering::Greater)
}

/// Whether `f` behaves as a total preorder: it gives one answer per pair,
/// `a` before `b` exactly when `b` after `a`, and "not after" is
/// transitive.
pub open spec fn total_preorder<T, F: Fn(&T, &T) -> Ordering>(f: F) -> bool {
    &&& forall|a: T, b: T, o: Ordering|
        #[trigger] f.ensures((&a, &b), o) ==> (f.ensures((&a, &b), Ordering::Greater) ==> o
            == Ordering::Greater) && (f.ensures((&a, &b), Ordering::Less) ==> o == Ordering::Less)
    &&& forall|a: T, b: T|
        #![trigger f.ensures((&a, &b), Ordering::Less)]
        #![trigger f.ensures((&b, &a), Ordering::Greater)]
        f.ensures((&a, &b), Ordering::Less) <==> f.ensures((&b, &a), Ordering::Greater)
    &&& forall|a: T, b: T, c: T|
        #![trigger not_after(f, a, b), not_after(f, b, c)]
        not_after(f, a, b) && not_after(f, b, c) ==> not_after(f, a, c)
}

/// Whether no element of `s` is ordered by `f` after either of its
/// children (those at `2k + 1` and `2k + 2`).
pub open spec fn is_heap<T, F: Fn(&T, &T) -> Ordering>(f: F, s: Seq<T>) -> bool {
    forall|k: int| 0 < k < s.len() ==> not_after(f, s[(k - 1) / 2], #[trigger] s[k])
}

/// Whether no element of `s` is ordered by `f` before its first one.
pub open spec fn first_is_least<T, F: Fn(&T, &T) -> Ordering>(f: F, s: Seq<T>) -> bool {
    forall|k: int| 0 <= k < s.len() ==> !f.ensures((&#[trigger] s[k], &s[0]), Ordering::Less)
}

proof fn lemma_refl<T, F: Fn(&T, &T) -> Ordering>(f: F, a: T)
    requires
        total_preorder(f),
    ensures
        not_after(f, a, a),
{
    if f.ensures((&a, &a), Ordering::Greater) {
        assert(f.ensures((&a, &a), Ordering::Less));
    }
}

proof fn lemma_antisym<T, F: Fn(&T, &T) -> Ordering>(f: F, a: T, b: T)
    requires
        total_preorder(f),
        f.ensures((&a, &b), Ordering::Greater),
    ensures
        not_after(f, b, a),
{
    if f.ensures((&b, &a), Ordering::Greater) {
        assert(f.ensures((&a, &b), Ordering::Less));
    }
}

proof fn lemma_trans<T, F: Fn(&T, &T) -> Ordering>(f: F, a: T, b: T, c: T)
    requires
        total_preorder(f),
        not_after(f, a, b),
        not_after(f, b, c),
    ensures
        not_after(f, a, c),
{
}

/// In a heap the first element is not after any element.
proof fn lemma_root_first<T, F: Fn(&T, &T) -> Ordering>(f: F, s: Seq<T>, k: int)
    requires
        total_preorder(f),
        is_heap(f, s),
        0 <= k < s.len(),
    ensures
        not_after(f, s[0], s[k]),
    decreases k,
{
    if k == 0 {
        lemma_refl(f, s[0]);
    } else {
        let p = (k - 1) / 2;
        lemma_root_first(f, s, p);
        assert(not_after(f, s[p], s[k]));
        lemma_trans(f, s[0], s[p], s[k]);
    }
}

/// The first element of a heap is a least element.
proof fn lemma_heap_first_least<T, F: Fn(&T, &T) -> Ordering>(f: F, s: Seq<T>)
    requires
        total_preorder(f),
        is_heap(f, s),
    ensures
        first_is_least(f, s),
{
    assert forall|k: int| 0 <= k < s.len() implies !f.ensures(
        (&#[trigger] s[k], &s[0]),
        Ordering::Less,
    ) by {
        lemma_root_first(f, s, k);
    }
}

/// A queue whose `pop` returns an element that `compare` orders first,
/// kept as a binary heap.
pub struct PriorityQueue<T, F> {
    data: Vec<T>,
    compare: F,
}

impl<T, F: Fn(&T, &T) -> Ordering> View for PriorityQueue<T, F> {
    type V = Seq<T>;

    /// The heap array: the element that comes out next stands first.
    closed spec fn view(&self) -> Seq<T> {
        self.data@
    }
}

impl<T, F: Fn(&T, &T) -> Ordering> PriorityQueue<T, F> {
    /// The comparison the queue is ordered by.
    pub closed spec fn order(&self) -> F {
        self.compare
    }

    /// The comparison accepts every pair and is a total preorder.
    pub closed spec fn laws(&self) -> bool {
        &&& forall|a: &T, b: &T| self.compare.requires((a, b))
        &&& total_preorder(self.compare)
    }

    /// The comparison obeys its laws and the elements form a heap under it.
    pub closed spec fn wf(&self) -> bool {
        &&& self.laws()
        &&& is_heap(self.compare, self.data@)
    }

    /// An empty queue ordered by `compare`.
    pub fn new(compare: F) -> (r: Self)
        requires
            forall|a: &T, b: &T| compare.requires((a, b)),
            total_preorder(compare),
        ensures
            r.wf(),
            r@ == Seq::<T>::empty(),
            r.order() == compare,
    {
        PriorityQueue { data: Vec::new(), compare }
    }

    /// The number of elements.
    pub fn len(&self) -> (r: usize)
        ensures
            r == self@.len(),
    {
        self.data.len()
    }

    /// Whether the queue holds no element.
    pub fn is_empty(&self) -> (r: bool)
        ensures
            r == (self@.len() == 0),
    {
        self.data.len() == 0
    }

    /// Adds `item`.
    pub fn push(&mut self, item: T)
        requires
            old(self).wf(),
        ensures
            final(self).wf(),
            final(self).order() == old(self).order(),
            is_heap(final(self).order(), final(self)@),
            final(self)@.len() == old(self)@.len() + 1,
            final(self)@.to_multiset() == old(self)@.to_multiset().insert(item),
    {
        let ghost before = self.data@;
        self.data.push(item);
        proof {
            assert(self.data@ == before.push(item));
        }
        let last = self.data.len() - 1;
        self.up(last);
    }

    /// Removes and returns an element that `compare` orders first: no
    /// element of the queue is ordered before it.
    pub fn pop(&mut self) -> (r: Option<T>)
        requires
            old(self).wf(),
        ensures
            final(self).wf(),
            final(self).order() == old(self).order(),
            old(self)@.len() == 0 ==> r is None && final(self)@ == old(self)@,
            old(self)@.len() > 0 ==> r == Some(old(self)@[0]) && final(self)@.len() == old(
                self,
            )@.len() - 1 && final(self)@.to_multiset().insert(old(self)@[0]) == old(
                self,
            )@.to_multiset(),
            first_is_least(old(self).order(), old(self)@),
    {
        proof {
            lemma_heap_first_least(self.compare, self.data@);
        }
        if self.data.len() == 0 {
            return None;
        }
        let ghost before = self.data@;
        let top = self.data.swap_remove(0);
        proof {
            lemma_swap_remove_multiset(before);
        }
        if self.data.len() > 0 {
            self.down(0);
        }
        Some(top)
    }

    /// An element that `compare` orders first, left in place.
    pub fn peek(&self) -> (r: Option<&T>)
        requires
            self.wf(),
        ensures
            self@.len() == 0 ==> r is None,
            self@.len() > 0 ==> r == Some(&self@[0]),
            first_is_least(self.order(), self@),
    {
        proof {
            lemma_heap_first_least(self.compare, self.data@);
        }
        self.data.as_slice().first()
    }

    fn greater(&self, a: &T, b: &T) -> (r: bool)
        requires
            self.laws(),
        ensures
            r == self.compare.ensures((a, b), Ordering::Greater),
    {
        match (self.compare)(a, b) {
            Ordering::Greater => true,
            _ => false,
        }
    }

    fn less(&self, a: &T, b: &T) -> (r: bool)
        requires
            self.laws(),
        ensures
            r == self.compare.ensures((a, b), Ordering::Less),
    {
        match (self.compare)(a, b) {
            Ordering::Less => true,
            _ => false,
        }
    }

    /// Moves the element at `pos` up while its parent orders after it.
    fn up(&mut self, pos: usize)
        requires
            old(self).laws(),
            pos == old(self)@.len() - 1,
            forall|k: int|
                0 < k < old(self)@.len() && k != pos ==> not_after(
                    old(self).compare,
                    old(self)@[(k - 1) / 2],
                    #[trigger] old(self)@[k],
                ),
        ensures
            final(self).wf(),
            final(self).compare == old(self).compare,
            final(self)@.len() == old(self)@.len(),
            final(self)@.to_multiset() == old(self)@.to_multiset(),
    {
        let mut pos = pos;
        while pos > 0
            invariant
                self.laws(),
                self.compare == old(self).compare,
                pos < self.data@.len(),
                self.data@.len() == old(self)@.len(),
                self.data@.to_multiset() == old(self)@.to_multiset(),
                forall|k: int|
                    0 < k < self.data@.len() && k != pos ==> not_after(
                        self.compare,
                        self.data@[(k - 1) / 2],
                        #[trigger] self.data@[k],
                    ),
                pos > 0 ==> forall|c: int|
                    0 < c < self.data@.len() && (c - 1) / 2 == pos ==> not_after(
                        self.compare,
                        self.data@[(pos - 1) / 2],
                        #[trigger] self.data@[c],
                    ),
            decreases pos,
        {
            let parent = (pos - 1) / 2;
            if !self.greater(&self.data[parent], &self.data[pos]) {
                proof {
                    assert(is_heap(self.compare, self.data@));
                }
                return;
            }
            let ghost s = self.data@;
            let ghost f = self.compare;
            proof {
                lemma_swap_multiset(s, parent as int, pos as int);
                lemma_antisym(f, s[parent as int], s[pos as int]);
            }
            swap_items(&mut self.data, parent, pos);
            proof {
                let t = self.data@;
                let p = parent as int;
                let q = pos as int;
                assert(t[p] == s[q] && t[q] == s[p]);
                assert forall|k: int| 0 < k < t.len() && k != p implies not_after(
                    f,
                    t[(k - 1) / 2],
                    #[trigger] t[k],
                ) by {
                    let pk = (k - 1) / 2;
                    if k == q {
                    } else if pk == q {
                        assert(t[k] == s[k]);
                    } else if pk == p {
                        // a sibling of the moved element
                        assert(t[k] == s[k]);
                        assert(not_after(f, s[p], s[k]));
                        lemma_trans(f, s[q], s[p], s[k]);
                    } else {
                        assert(t[k] == s[k]);
                        assert(t[pk] == s[pk]);
                    }
                }
                if p > 0 {
                    let pp = (p - 1) / 2;
                    assert(t[pp] == s[pp]);
                    assert(not_after(f, s[pp], s[p]));
                    assert forall|c: int| 0 < c < t.len() && (c - 1) / 2 == p implies not_after(
                        f,
                        t[(p - 1) / 2],
                        #[trigger] t[c],
                    ) by {
                        if c == q {
                        } else {
                            assert(t[c] == s[c]);
                            assert(not_after(f, s[p], s[c]));
                            lemma_trans(f, s[pp], s[p], s[c]);
                        }
                    }
                }
            }
            pos = parent;
        }
        proof {
            assert(is_heap(self.compare, self.data@));
        }
    }

    /// Moves the element at `pos` down while a child orders before it.
    fn down(&mut self, pos: usize)
        requires
            old(self).laws(),
            pos == 0,
            pos < old(self)@.len(),
            forall|k: int|
                0 < k < old(self)@.len() && (k - 1) / 2 != pos ==> not_after(
                    old(self).compare,
                    old(self)@[(k - 1) / 2],
                    #[trigger] old(self)@[k],
                ),
        ensures
            final(self).wf(),
            final(self).compare == old(self).compare,
            final(self)@.len() == old(self)@.len(),
            final(self)@.to_multiset() == old(self)@.to_multiset(),
    {
        let len = self.data.len();
        let half_len = len / 2;
        let mut pos = pos;
        while pos < half_len
            invariant
                self.laws(),
                self.compare == old(self).compare,
                len == self.data@.len(),
                half_len == len / 2,
                pos < len,
                self.data@.len() == old(self)@.len(),
                self.data@.to_multiset() == old(self)@.to_multiset(),
                forall|k: int|
                    0 < k < len && (k - 1) / 2 != pos ==> not_after(
                        self.compare,
                        self.data@[(k - 1) / 2],
                        #[trigger] self.data@[k],
                    ),
                pos > 0 ==> forall|c: int|
                    0 < c < len && (c - 1) / 2 == pos ==> not_after(
                        self.compare,
                        self.data@[(pos - 1) / 2],
                        #[trigger] self.data@[c],
                    ),
            decreases len - pos,
        {
            let ghost s = self.data@;
            let ghost f = self.compare;
            let first = 2 * pos + 1;
            let mut child = first;
            if child + 1 < len && self.less(&self.data[child + 1], &self.data[child]) {
                proof {
                    assert(f.ensures((&s[child as int], &s[child + 1]), Ordering::Greater));
                    lemma_antisym(f, s[child as int], s[child + 1]);
                }
                child = child + 1;
            }
            proof {
                // the chosen child is not after its sibling
                if child == first && first + 1 < len {
                    assert(!f.ensures((&s[first + 1], &s[first as int]), Ordering::Less));
                    assert(not_after(f, s[first as int], s[first + 1]));
                }
            }
            if !self.less(&self.data[child], &self.data[pos]) {
                proof {
                    assert(not_after(f, s[pos as int], s[child as int]));
                    assert forall|k: int| 0 < k < len implies not_after(
                        f,
                        s[(k - 1) / 2],
                        #[trigger] s[k],
                    ) by {
                        if (k - 1) / 2 == pos && k != child {
                            lemma_trans(f, s[pos as int], s[child as int], s[k]);
                        }
                    }
                    assert(is_heap(self.compare, self.data@));
                }
                return;
            }
            proof {
                assert(f.ensures((&s[pos as int], &s[child as int]), Ordering::Greater));
                lemma_antisym(f, s[pos as int], s[child as int]);
                lemma_swap_multiset(s, pos as int, child as int);
            }
            swap_items(&mut self.data, pos, child);
            proof {
                let t = self.data@;
                let p = pos as int;
                let q = child as int;
                assert(t[p] == s[q] && t[q] == s[p]);
                assert forall|k: int| 0 < k < len && (k - 1) / 2 != q implies not_after(
                    f,
                    t[(k - 1) / 2],
                    #[trigger] t[k],
                ) by {
                    let pk = (k - 1) / 2;
                    if k == q {
                    } else if k == p {
                        assert(t[pk] == s[pk]);
                        assert(not_after(f, s[(p - 1) / 2], s[q]));
                    } else if pk == p {
                        // the sibling of the chosen child
                        assert(t[k] == s[k]);
                    } else {
                        assert(t[k] == s[k]);
                        assert(t[pk] == s[pk]);
                    }
                }
                assert forall|c: int| 0 < c < len && (c - 1) / 2 == q implies not_after(
                    f,
                    t[(q - 1) / 2],
                    #[trigger] t[c],
                ) by {
                    assert(t[c] == s[c]);
                    assert(not_after(f, s[q], s[c]));
                }
            }
            pos = child;
        }
        proof {
            assert forall|k: int| 0 < k < len implies not_after(
                self.compare,
                self.data@[(k - 1) / 2],
                #[trigger] self.data@[k],
            ) by {
                assert((k - 1) / 2 != pos);
            }
        }
    }
}

/// Moving the last element to the front and dropping the first keeps the
/// other elements.
proof fn lemma_swap_remove_multiset<T>(s: Seq<T>)
    requires
        s.len() > 0,
    ensures
        s.update(0, s.last()).drop_last().to_multiset().insert(s[0]) == s.to_multiset(),
{
    broadcast use vstd::seq_lib::to_multiset_update;
    broadcast use vstd::seq_lib::to_multiset_contains;

    let t = s.update(0, s.last());
    assert(t.len() == s.len());
    assert(t.drop_last().push(t[t.len() - 1]) =~= t);
    if s.len() == 1 {
        assert(t.drop_last() =~= Seq::<T>::empty());
        assert(s =~= Seq::<T>::empty().push(s[0]));
    } else {
        let a = t.drop_last().to_multiset();
        let m = s.to_multiset();
        assert(t[t.len() - 1] == s.last());
        assert(t.to_multiset() == m.insert(s.last()).remove(s[0]));
        assert(a.insert(s.last()) == t.to_multiset());
        assert(s.contains(s[0]));
        assert(m.count(s[0]) > 0);
        assert forall|x: T| #[trigger] a.insert(s[0]).count(x) == m.count(x) by {
            assert(a.insert(s.last()).count(x) == m.insert(s.last()).remove(s[0]).count(x));
        }
        assert(a.insert(s[0]) =~= m);
    }
}

} // verus!
