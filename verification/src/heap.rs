//! Binary min-heap stored in a `Vec`, ordered by a two-level integer key.
//!
//! This is the priority queue behind the event calendar and the SRPT queue.

use vstd::multiset::Multiset;
use vstd::prelude::*;

verus! {

broadcast use vstd::seq_lib::group_to_multiset_ensures, vstd::multiset::group_multiset_axioms;

/// An item ordered by a pair of integers: `primary` first, `secondary` breaks ties.
pub trait Keyed {
    spec fn primary(&self) -> u64;

    spec fn secondary(&self) -> u64;

    fn keys(&self) -> (r: (u64, u64))
        ensures
            r.0 == self.primary(),
            r.1 == self.secondary(),
    ;
}

/// A plain number is ordered by its value.
impl Keyed for u64 {
    open spec fn primary(&self) -> u64 {
        *self
    }

    open spec fn secondary(&self) -> u64 {
        0
    }

    fn keys(&self) -> (r: (u64, u64)) {
        (*self, 0)
    }
}

/// `a` comes no later than `b` in heap order (lexicographic on the two keys).
pub open spec fn key_le<T: Keyed>(a: T, b: T) -> bool {
    a.primary() < b.primary() || (a.primary() == b.primary() && a.secondary() <= b.secondary())
}

/// `x` comes no later than anything in `m`.
pub open spec fn is_least<T: Keyed>(x: T, m: Multiset<T>) -> bool {
    forall|y: T| m.contains(y) ==> key_le(x, y)
}

pub open spec fn parent(i: int) -> int {
    (i - 1) / 2
}

/// Every element is no earlier than its parent.
pub open spec fn is_heap<T: Keyed>(s: Seq<T>) -> bool {
    forall|i: int| 0 < i < s.len() ==> key_le(s[parent(i)], #[trigger] s[i])
}

/// Heap order holds except possibly between `k` and its parent; the parent of `k`
/// is no later than the children of `k`.
spec fn heap_except_up<T: Keyed>(s: Seq<T>, k: int) -> bool {
    &&& forall|i: int| 0 < i < s.len() && i != k ==> key_le(s[parent(i)], #[trigger] s[i])
    &&& forall|i: int|
        0 < i < s.len() && parent(i) == k && k > 0 ==> key_le(s[parent(k)], #[trigger] s[i])
}

/// Heap order holds except possibly between `k` and its children; the parent of `k`
/// is no later than the children of `k`.
spec fn heap_except_down<T: Keyed>(s: Seq<T>, k: int) -> bool {
    &&& forall|i: int| 0 < i < s.len() && parent(i) != k ==> key_le(s[parent(i)], #[trigger] s[i])
    &&& forall|i: int|
        0 < i < s.len() && parent(i) == k && k > 0 ==> key_le(s[parent(k)], #[trigger] s[i])
}

proof fn lemma_root_le<T: Keyed>(s: Seq<T>, i: int)
    requires
        is_heap(s),
        0 <= i < s.len(),
    ensures
        key_le(s[0], s[i]),
    decreases i,
{
    if i > 0 {
        lemma_root_le(s, parent(i));
    }
}

proof fn lemma_root_least<T: Keyed>(s: Seq<T>)
    requires
        is_heap(s),
        s.len() > 0,
    ensures
        is_least(s[0], s.to_multiset()),
{
    assert forall|y: T| s.to_multiset().contains(y) implies key_le(s[0], y) by {
        assert(s.contains(y));
        let j = choose|j: int| 0 <= j < s.len() && s[j] == y;
        lemma_root_le(s, j);
    }
}

fn swap_entries<T: Copy>(v: &mut Vec<T>, i: usize, j: usize)
    requires
        i < old(v).len(),
        j < old(v).len(),
    ensures
        final(v)@ == old(v)@.update(i as int, old(v)@[j as int]).update(j as int, old(v)@[i as int]),
        final(v)@.to_multiset() == old(v)@.to_multiset(),
{
    let a = v[i];
    let b = v[j];
    let ghost s0 = v@;
    v.set(i, b);
    let ghost s1 = v@;
    v.set(j, a);
    proof {
        assert(s1.to_multiset() == s0.to_multiset().insert(b).remove(a));
        assert(v@.to_multiset() == s1.to_multiset().insert(a).remove(s1[j as int]));
        if i == j {
            assert(v@ =~= s0);
        } else {
            assert(v@.to_multiset() =~= s0.to_multiset());
        }
    }
}

fn le_exec<T: Keyed>(a: &T, b: &T) -> (r: bool)
    ensures
        r == key_le(*a, *b),
{
    let (a1, a2): (u64, u64) = a.keys();
    let (b1, b2): (u64, u64) = b.keys();
    a1 < b1 || (a1 == b1 && a2 <= b2)
}

fn sift_up<T: Keyed + Copy>(data: &mut Vec<T>, k0: usize)
    requires
        k0 < old(data).len(),
        heap_except_up(old(data)@, k0 as int),
    ensures
        is_heap(final(data)@),
        final(data)@.to_multiset() == old(data)@.to_multiset(),
        final(data)@.len() == old(data)@.len(),
{
    let ghost ms0 = data@.to_multiset();
    let ghost n = data@.len();
    let mut k: usize = k0;
    while k > 0
        invariant
            k < data@.len(),
            data@.len() == n,
            data@.to_multiset() == ms0,
            heap_except_up(data@, k as int),
        ensures
            is_heap(data@),
            data@.len() == n,
            data@.to_multiset() == ms0,
        decreases k,
    {
        let p: usize = (k - 1) / 2;
        if le_exec(&data[p], &data[k]) {
            break;
        }
        let ghost s = data@;
        swap_entries(data, p, k);
        proof {
            let t = data@;
            assert(t[p as int] == s[k as int]);
            assert(t[k as int] == s[p as int]);
            assert forall|i: int| 0 < i < t.len() && i != p implies key_le(
                t[parent(i)],
                #[trigger] t[i],
            ) by {
                if i == k as int {
                } else if parent(i) == k as int {
                    assert(key_le(s[parent(k as int)], s[i]));
                } else if parent(i) == p as int {
                    assert(key_le(s[p as int], s[i]));
                } else {
                }
            }
            assert forall|i: int|
                0 < i < t.len() && parent(i) == p && p > 0 implies key_le(
                t[parent(p as int)],
                #[trigger] t[i],
            ) by {
                assert(key_le(s[parent(p as int)], s[p as int]));
                if i != k as int {
                    assert(key_le(s[p as int], s[i]));
                }
            }
        }
        k = p;
    }
}

fn sift_down<T: Keyed + Copy>(data: &mut Vec<T>)
    requires
        old(data).len() > 0,
        heap_except_down(old(data)@, 0),
    ensures
        is_heap(final(data)@),
        final(data)@.to_multiset() == old(data)@.to_multiset(),
        final(data)@.len() == old(data)@.len(),
{
    let ghost ms0 = data@.to_multiset();
    let n: usize = data.len();
    let mut k: usize = 0;
    loop
        invariant
            k < n,
            data@.len() == n,
            data@.to_multiset() == ms0,
            heap_except_down(data@, k as int),
        ensures
            is_heap(data@),
            data@.len() == n,
            data@.to_multiset() == ms0,
        decreases n - k,
    {
        if k >= n / 2 {
            proof {
                assert forall|i: int| 0 < i < data@.len() implies key_le(
                    data@[parent(i)],
                    #[trigger] data@[i],
                ) by {
                    if parent(i) == k as int {
                        assert(false);
                    }
                }
            }
            break;
        }
        let l: usize = 2 * k + 1;
        let r: usize = 2 * k + 2;
        let mut c: usize = l;
        if r < n && !le_exec(&data[l], &data[r]) {
            c = r;
        }
        assert(parent(l as int) == k && parent(r as int) == k);
        if le_exec(&data[k], &data[c]) {
            proof {
                assert forall|i: int| 0 < i < data@.len() implies key_le(
                    data@[parent(i)],
                    #[trigger] data@[i],
                ) by {
                    if parent(i) == k as int {
                        assert(i == l || i == r);
                    }
                }
            }
            break;
        }
        let ghost s = data@;
        swap_entries(data, k, c);
        proof {
            let t = data@;
            assert(t[k as int] == s[c as int]);
            assert(t[c as int] == s[k as int]);
            assert(parent(c as int) == k);
            assert forall|i: int| 0 < i < t.len() && parent(i) != c implies key_le(
                t[parent(i)],
                #[trigger] t[i],
            ) by {
                if i == c as int {
                } else if parent(i) == k as int {
                    assert(i == l || i == r);
                    assert(key_le(s[c as int], s[i]));
                } else if i == k as int {
                    assert(key_le(s[parent(k as int)], s[c as int]));
                } else {
                    assert(key_le(s[parent(i)], s[i]));
                }
            }
            assert forall|i: int|
                0 < i < t.len() && parent(i) == c && c > 0 implies key_le(
                t[parent(c as int)],
                #[trigger] t[i],
            ) by {
                assert(key_le(s[c as int], s[i]));
            }
        }
        k = c;
    }
}

/// A priority queue that always hands out an item with the least key.
#[derive(Debug)]
pub struct MinHeap<T: Keyed + Copy> {
    data: Vec<T>,
}

impl<T: Keyed + Copy> View for MinHeap<T> {
    type V = Seq<T>;

    closed spec fn view(&self) -> Seq<T> {
        self.data@
    }
}

impl<T: Keyed + Copy> MinHeap<T> {
    #[verifier::type_invariant]
    spec fn inv(self) -> bool {
        is_heap(self.data@)
    }

    /// The items held, as a multiset.
    pub open spec fn items(&self) -> Multiset<T> {
        self@.to_multiset()
    }

    pub fn new() -> (h: Self)
        ensures
            h@.len() == 0,
            h.items() == Multiset::<T>::empty(),
    {
        let h = MinHeap { data: Vec::new() };
        proof {
            assert(h@.to_multiset() =~= Multiset::<T>::empty());
        }
        h
    }

    pub fn len(&self) -> (n: usize)
        ensures
            n == self@.len(),
            n == self.items().len(),
    {
        self.data.len()
    }

    pub fn push(&mut self, item: T)
        ensures
            final(self).items() == old(self).items().insert(item),
            final(self)@.len() == old(self)@.len() + 1,
    {
        proof {
            use_type_invariant(&*self);
        }
        let mut data: Vec<T> = Vec::new();
        std::mem::swap(&mut data, &mut self.data);
        let ghost s = data@;
        data.push(item);
        let n: usize = data.len();
        proof {
            assert(data@.to_multiset() == s.to_multiset().insert(item));
            assert forall|i: int| 0 < i < data@.len() && i != n - 1 implies key_le(
                data@[parent(i)],
                #[trigger] data@[i],
            ) by {
                assert(data@[i] == s[i]);
                assert(data@[parent(i)] == s[parent(i)]);
            }
        }
        sift_up(&mut data, n - 1);
        self.data = data;
    }

    /// An item with the least key, or `None` when empty.
    pub fn peek(&self) -> (r: Option<T>)
        ensures
            match r {
                None => self@.len() == 0,
                Some(x) => self.items().count(x) > 0 && is_least(x, self.items()),
            },
    {
        proof {
            use_type_invariant(self);
        }
        if self.data.len() == 0 {
            None
        } else {
            proof {
                lemma_root_least(self.data@);
            }
            Some(self.data[0])
        }
    }

    /// Removes and returns an item with the least key, or `None` when empty.
    pub fn pop(&mut self) -> (r: Option<T>)
        ensures
            match r {
                None => old(self)@.len() == 0 && final(self)@ == old(self)@,
                Some(x) => {
                    &&& old(self).items().count(x) > 0
                    &&& is_least(x, old(self).items())
                    &&& final(self).items() == old(self).items().remove(x)
                    &&& final(self)@.len() + 1 == old(self)@.len()
                },
            },
    {
        proof {
            use_type_invariant(&*self);
        }
        if self.data.len() == 0 {
            return None;
        }
        let mut data: Vec<T> = Vec::new();
        std::mem::swap(&mut data, &mut self.data);
        let ghost s = data@;
        proof {
            lemma_root_least(s);
        }
        let top: T = data[0];
        let last: T = data.pop().unwrap();
        proof {
            assert(s =~= data@.push(last));
            assert(s.to_multiset() == data@.to_multiset().insert(last));
        }
        if data.len() > 0 {
            let ghost d = data@;
            data.set(0, last);
            proof {
                assert(data@.to_multiset() == d.to_multiset().insert(last).remove(d[0]));
                assert(d[0] == top);
                assert(data@.to_multiset() =~= s.to_multiset().remove(top));
                assert forall|i: int| 0 < i < data@.len() && parent(i) != 0 implies key_le(
                    data@[parent(i)],
                    #[trigger] data@[i],
                ) by {
                    assert(data@[i] == s[i]);
                    assert(data@[parent(i)] == s[parent(i)]);
                }
            }
            sift_down(&mut data);
        } else {
            proof {
                assert(top == last);
                assert(data@.to_multiset() =~= s.to_multiset().remove(top));
            }
        }
        self.data = data;
        Some(top)
    }
}

} // verus!
