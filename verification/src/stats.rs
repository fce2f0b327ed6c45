//! Empirical distribution of observations, for tail statistics.
//!
//! Observations are order keys (`u64`): a larger key is a larger observation.

use vstd::multiset::Multiset;
use vstd::prelude::*;

use crate::heap::MinHeap;

verus! {

broadcast use vstd::seq_lib::group_to_multiset_ensures, vstd::multiset::group_multiset_axioms;

pub open spec fn is_sorted(s: Seq<u64>) -> bool {
    forall|i: int, j: int| 0 <= i <= j < s.len() ==> s[i] <= s[j]
}

/// How many observations in `m` exceed `threshold`.
pub open spec fn count_above(m: Multiset<u64>, threshold: u64) -> nat {
    m.filter(|x: u64| x > threshold).len()
}

/// Collects individual observations for empirical tail statistics.
/// Call `finish` once to sort; then query `tail_prob`.
#[derive(Debug, Default)]
pub struct EmpiricalCdf {
    samples: Vec<u64>,
    sorted: bool,
}

impl Clone for EmpiricalCdf {
    fn clone(&self) -> (c: Self)
        ensures
            c.samples() == self.samples(),
            c.is_finished() == self.is_finished(),
    {
        proof {
            use_type_invariant(self);
        }
        let samples: Vec<u64> = self.samples.clone();
        proof {
            assert(samples@ =~= self.samples@);
        }
        EmpiricalCdf { samples, sorted: self.sorted }
    }
}

impl EmpiricalCdf {
    #[verifier::type_invariant]
    spec fn inv(self) -> bool {
        self.sorted ==> is_sorted(self.samples@)
    }

    /// The observations collected so far.
    pub closed spec fn samples(&self) -> Multiset<u64> {
        self.samples@.to_multiset()
    }

    /// The observations in storage order (ascending once finished).
    pub closed spec fn stored(&self) -> Seq<u64> {
        self.samples@
    }

    /// Whether `finish` has run since the last `push`.
    pub closed spec fn is_finished(&self) -> bool {
        self.sorted
    }

    pub fn new() -> (c: Self)
        ensures
            c.samples() == Multiset::<u64>::empty(),
            !c.is_finished(),
    {
        let c = EmpiricalCdf { samples: Vec::new(), sorted: false };
        proof {
            assert(c.samples@.to_multiset() =~= Multiset::<u64>::empty());
        }
        c
    }

    pub fn push(&mut self, x: u64)
        ensures
            final(self).samples() == old(self).samples().insert(x),
            !final(self).is_finished(),
    {
        self.sorted = false;
        let mut samples: Vec<u64> = Vec::new();
        std::mem::swap(&mut samples, &mut self.samples);
        samples.push(x);
        self.samples = samples;
    }

    pub fn len(&self) -> (n: usize)
        ensures
            n == self.samples().len(),
    {
        proof {
            vstd::seq_lib::to_multiset_len(self.samples@);
        }
        self.samples.len()
    }

    pub fn is_empty(&self) -> (r: bool)
        ensures
            r == (self.samples().len() == 0),
    {
        proof {
            vstd::seq_lib::to_multiset_len(self.samples@);
        }
        self.samples.len() == 0
    }

    /// Sort the collected samples so that `tail_prob` and `value_at` are valid.
    pub fn finish(&mut self)
        ensures
            final(self).samples() == old(self).samples(),
            final(self).is_finished(),
            is_sorted(final(self).stored()),
            final(self).stored().to_multiset() == final(self).samples(),
    {
        let mut heap: MinHeap<u64> = MinHeap::new();
        let n: usize = self.samples.len();
        let mut i: usize = 0;
        while i < n
            invariant
                n == self.samples@.len(),
                self.samples@ == old(self).samples@,
                i <= n,
                heap.items() == self.samples@.subrange(0, i as int).to_multiset(),
            decreases n - i,
        {
            let x: u64 = self.samples[i];
            heap.push(x);
            proof {
                assert(self.samples@.subrange(0, i + 1) =~= self.samples@.subrange(0, i as int).push(x));
            }
            i = i + 1;
        }
        assert(self.samples@.subrange(0, n as int) =~= self.samples@);
        let ghost total = self.samples@.to_multiset();
        let mut out: Vec<u64> = Vec::new();
        loop
            invariant
                total == heap.items().add(out@.to_multiset()),
                is_sorted(out@),
                forall|k: int, y: u64| 0 <= k < out@.len() && heap.items().contains(y) ==> out@[k] <= y,
            ensures
                total == out@.to_multiset(),
                is_sorted(out@),
            decreases heap@.len(),
        {
            let ghost before = heap.items();
            let ghost done = out@;
            match heap.pop() {
                None => {
                    proof {
                        assert(before =~= Multiset::<u64>::empty());
                        assert(total =~= out@.to_multiset());
                    }
                    break;
                },
                Some(x) => {
                    out.push(x);
                    proof {
                        assert(out@ =~= done.push(x));
                        assert(heap.items().add(out@.to_multiset()) =~= before.add(done.to_multiset()));
                        assert forall|k: int, y: u64| 0 <= k < out@.len() && heap.items().contains(y) implies out@[k] <= y by {
                            assert(before.contains(y));
                        }
                        assert forall|a: int, b: int| 0 <= a <= b < out@.len() implies out@[a] <= out@[b] by {
                            if b == out@.len() - 1 && a < b {
                                assert(before.contains(x));
                            }
                        }
                    }
                },
            }
        }
        self.samples = out;
        self.sorted = true;
    }

    /// The observation of the given rank (0 is the smallest).
    pub fn value_at(&self, rank: usize) -> (v: u64)
        requires
            self.is_finished(),
            rank < self.samples().len(),
        ensures
            v == self.stored()[rank as int],
            is_sorted(self.stored()),
            self.stored().to_multiset() == self.samples(),
    {
        proof {
            use_type_invariant(self);
            vstd::seq_lib::to_multiset_len(self.samples@);
        }
        self.samples[rank]
    }

    /// P{X > threshold} as `(numerator, denominator)`: the number of observations
    /// above `threshold` over the number of observations (`0/1` when there are none).
    pub fn tail_prob(&self, threshold: u64) -> (r: (usize, usize))
        requires
            self.is_finished(),
        ensures
            r.0 == count_above(self.samples(), threshold),
            self.samples().len() == 0 ==> r == (0usize, 1usize),
            self.samples().len() > 0 ==> r.1 == self.samples().len(),
    {
        proof {
            use_type_invariant(self);
            vstd::seq_lib::to_multiset_len(self.samples@);
        }
        let n: usize = self.samples.len();
        let s = &self.samples;
        let mut lo: usize = 0;
        let mut hi: usize = n;
        while lo < hi
            invariant
                n == s@.len(),
                is_sorted(s@),
                lo <= hi <= n,
                forall|i: int| 0 <= i < lo ==> s@[i] <= threshold,
                forall|i: int| hi <= i < n ==> s@[i] > threshold,
            decreases hi - lo,
        {
            let mid: usize = lo + (hi - lo) / 2;
            if s[mid] <= threshold {
                lo = mid + 1;
            } else {
                hi = mid;
            }
        }
        proof {
            lemma_count_above_sorted(s@, threshold, lo as int);
        }
        if n == 0 {
            proof {
                assert(self.samples@.to_multiset().filter(|x: u64| x > threshold) =~= Multiset::<u64>::empty());
            }
            return (0, 1);
        }
        (n - lo, n)
    }
}

/// In a sorted sequence split at `pp` into observations at most `threshold` and
/// observations above it, exactly those after `pp` are counted.
proof fn lemma_count_above_sorted(s: Seq<u64>, threshold: u64, pp: int)
    requires
        0 <= pp <= s.len(),
        forall|i: int| 0 <= i < pp ==> s[i] <= threshold,
        forall|i: int| pp <= i < s.len() ==> s[i] > threshold,
    ensures
        count_above(s.to_multiset(), threshold) == s.len() - pp,
{
    let a = s.subrange(0, pp);
    let b = s.subrange(pp, s.len() as int);
    assert(s =~= a + b);
    vstd::seq_lib::lemma_multiset_commutative(a, b);
    let f = |x: u64| x > threshold;
    assert(s.to_multiset().filter(f) =~= b.to_multiset()) by {
        assert forall|v: u64| #[trigger] s.to_multiset().filter(f).count(v) == b.to_multiset().count(v) by {
            if v > threshold {
                if a.contains(v) {
                    let k = choose|k: int| 0 <= k < a.len() && a[k] == v;
                    assert(a[k] <= threshold);
                }
            } else {
                if b.contains(v) {
                    let k = choose|k: int| 0 <= k < b.len() && b[k] == v;
                    assert(b[k] > threshold);
                }
            }
        }
    }
    vstd::seq_lib::to_multiset_len(b);
}

} // verus!
