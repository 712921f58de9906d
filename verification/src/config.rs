//! Sets of atomic units, kept as strictly increasing vectors so that
//! iteration order is deterministic and equal sets have equal contents.
use vstd::prelude::*;

verus! {

/// An atomic unit (a token position) or a tree-node identifier.
pub type AtomicUnit = u32;

/// Every element of `s` is smaller than every later element.
pub open spec fn strictly_sorted(s: Seq<u32>) -> bool {
    forall|i: int, j: int| 0 <= i < j < s.len() ==> s[i] < s[j]
}

/// A set of units. Reduction shrinks a `Configuration`; a `Delta` is a
/// candidate removal set of the same shape.
pub struct Configuration {
    units: Vec<u32>,
}

/// A candidate removal set.
pub type Delta = Configuration;

impl Configuration {
    /// The members in increasing order.
    pub closed spec fn elems(&self) -> Seq<u32> {
        self.units@
    }

    /// The representation invariant: members strictly increasing.
    pub open spec fn wf(&self) -> bool {
        strictly_sorted(self.elems())
    }

    /// The empty set.
    pub fn new() -> (r: Configuration)
        ensures
            r.wf(),
            r.elems() == Seq::<u32>::empty(),
            r@ == Set::<u32>::empty(),
    {
        let r = Configuration { units: Vec::new() };
        assert(r.elems().to_set() =~= Set::<u32>::empty());
        r
    }

    /// Wraps an already strictly increasing vector.
    pub fn from_sorted(units: Vec<u32>) -> (r: Configuration)
        requires
            strictly_sorted(units@),
        ensures
            r.wf(),
            r.elems() == units@,
    {
        Configuration { units }
    }

    /// The set `{0, 1, ..., n - 1}`.
    pub fn range(n: u32) -> (r: Configuration)
        ensures
            r.wf(),
            r.elems() == Seq::new(n as nat, |i: int| i as u32),
            forall|u: u32| r@.contains(u) <==> u < n,
    {
        let mut units: Vec<u32> = Vec::new();
        let mut i: u32 = 0;
        while i < n
            invariant
                i <= n,
                units@ == Seq::new(i as nat, |k: int| k as u32),
            decreases n - i,
        {
            units.push(i);
            i = i + 1;
            assert(units@ =~= Seq::new(i as nat, |k: int| k as u32));
        }
        let r = Configuration { units };
        assert forall|u: u32| r@.contains(u) <==> u < n by {
            if u < n {
                assert(r.elems()[u as int] == u);
            }
        }
        r
    }

    /// Number of members.
    pub fn len(&self) -> (n: usize)
        requires
            self.wf(),
        ensures
            n == self.elems().len(),
            n == self@.len(),
    {
        proof {
            self.lemma_len();
        }
        self.units.len()
    }

    /// Is the set empty?
    pub fn is_empty(&self) -> (b: bool)
        requires
            self.wf(),
        ensures
            b <==> self@.is_empty(),
            b <==> self.elems().len() == 0,
    {
        proof {
            self.lemma_len();
        }
        self.units.len() == 0
    }

    /// The `i`-th smallest member.
    pub fn get(&self, i: usize) -> (u: u32)
        requires
            i < self.elems().len(),
        ensures
            u == self.elems()[i as int],
    {
        self.units[i]
    }

    /// The members in increasing order.
    pub fn to_vec(&self) -> (v: Vec<u32>)
        ensures
            v@ == self.elems(),
    {
        self.units.clone()
    }

    /// A copy of the set.
    pub fn copy(&self) -> (r: Configuration)
        ensures
            r.elems() == self.elems(),
            r@ == self@,
    {
        Configuration { units: self.units.clone() }
    }

    /// The members ranked `start .. end` in increasing order.
    pub fn slice(&self, start: usize, end: usize) -> (r: Configuration)
        requires
            self.wf(),
            start <= end <= self.elems().len(),
        ensures
            r.wf(),
            r.elems() == self.elems().subrange(start as int, end as int),
    {
        let mut out: Vec<u32> = Vec::new();
        let mut i = start;
        while i < end
            invariant
                start <= i <= end <= self.units@.len(),
                out@ == self.units@.subrange(start as int, i as int),
            decreases end - i,
        {
            out.push(self.units[i]);
            i = i + 1;
            assert(out@ =~= self.units@.subrange(start as int, i as int));
        }
        Configuration { units: out }
    }

    /// Membership test.
    pub fn contains(&self, u: u32) -> (b: bool)
        ensures
            b <==> self@.contains(u),
    {
        let mut i: usize = 0;
        while i < self.units.len()
            invariant
                i <= self.units@.len(),
                forall|k: int| 0 <= k < i ==> self.units@[k] != u,
            decreases self.units.len() - i,
        {
            if self.units[i] == u {
                assert(self.elems()[i as int] == u);
                return true;
            }
            i = i + 1;
        }
        false
    }

    /// Adds `u` (no change when already present).
    pub fn insert(&mut self, u: u32)
        requires
            old(self).wf(),
        ensures
            final(self).wf(),
            final(self)@ == old(self)@.insert(u),
    {
        let ghost before = self.units@;
        let mut i: usize = 0;
        while i < self.units.len() && self.units[i] < u
            invariant
                self.units@ == before,
                strictly_sorted(before),
                i <= before.len(),
                forall|k: int| 0 <= k < i ==> before[k] < u,
            decreases self.units.len() - i,
        {
            i = i + 1;
        }
        if i < self.units.len() && self.units[i] == u {
            assert(before.to_set().insert(u) =~= before.to_set()) by {
                assert(before[i as int] == u);
            }
            return;
        }
        self.units.insert(i, u);
        proof {
            let after = self.units@;
            assert(after == before.insert(i as int, u));
            assert forall|a: int, b: int| 0 <= a < b < after.len() implies after[a] < after[b] by {
                if b < i {
                } else if b == i {
                } else if a < i {
                } else if a == i {
                    assert(after[b] == before[b - 1]);
                    assert(before[b - 1] >= u) by {
                        if before[b - 1] < u {
                            // i is the first member not below u
                            assert(before[i as int] <= before[b - 1]);
                        }
                    }
                    assert(before[i as int] != u);
                    if b - 1 > i {
                        assert(before[i as int] < before[b - 1]);
                    }
                    assert(before[i as int] >= u);
                } else {
                }
            }
            assert(after.to_set() =~= before.to_set().insert(u)) by {
                assert forall|x: u32| after.to_set().contains(x) implies before.to_set().insert(u).contains(x) by {
                    let k = choose|k: int| 0 <= k < after.len() && after[k] == x;
                    if k < i {
                        assert(before[k] == x);
                    } else if k > i {
                        assert(before[k - 1] == x);
                    }
                }
                assert forall|x: u32| before.to_set().insert(u).contains(x) implies after.to_set().contains(x) by {
                    if x == u {
                        assert(after[i as int] == u);
                    } else {
                        let k = choose|k: int| 0 <= k < before.len() && before[k] == x;
                        if k < i {
                            assert(after[k] == x);
                        } else {
                            assert(after[k + 1] == x);
                        }
                    }
                }
            }
        }
    }

    /// The members of `self` that are not in `other` (`self - other`).
    pub fn difference(&self, other: &Configuration) -> (r: Configuration)
        requires
            self.wf(),
        ensures
            r.wf(),
            r@ == self@.difference(other@),
            r.elems() == self.elems().filter(|u: u32| !other@.contains(u)),
    {
        let ghost keep = |u: u32| !other@.contains(u);
        let mut out: Vec<u32> = Vec::new();
        let mut i: usize = 0;
        while i < self.units.len()
            invariant
                i <= self.units@.len(),
                strictly_sorted(self.units@),
                out@ == self.units@.take(i as int).filter(keep),
                keep == (|u: u32| !other@.contains(u)),
            decreases self.units.len() - i,
        {
            let u = self.units[i];
            proof {
                assert(self.units@.take(i as int + 1).drop_last() =~= self.units@.take(i as int));
                reveal_with_fuel(Seq::filter, 1);
            }
            if !other.contains(u) {
                out.push(u);
            }
            i = i + 1;
        }
        proof {
            assert(self.units@.take(i as int) =~= self.units@);
            lemma_filter_sorted(self.units@, keep);
        }
        let r = Configuration { units: out };
        proof {
            lemma_filter_to_set(self.units@, keep);
            assert(r@ =~= self@.difference(other@));
        }
        r
    }

    /// Adds every member of `other`.
    pub fn union_with(&mut self, other: &Configuration)
        requires
            old(self).wf(),
        ensures
            final(self).wf(),
            final(self)@ == old(self)@.union(other@),
    {
        let mut i: usize = 0;
        while i < other.units.len()
            invariant
                self.wf(),
                i <= other.units@.len(),
                self@ == old(self)@.union(other.units@.take(i as int).to_set()),
            decreases other.units.len() - i,
        {
            let u = other.units[i];
            self.insert(u);
            proof {
                assert(other.units@.take(i as int + 1).to_set() =~= other.units@.take(i as int).to_set().insert(u)) by {
                    let before = other.units@.take(i as int);
                    let after = other.units@.take(i as int + 1);
                    assert(after =~= before.push(u));
                    assert forall|x: u32| after.to_set().contains(x) <==> before.to_set().insert(u).contains(x) by {
                        if after.contains(x) && x != u {
                            let j = choose|j: int| 0 <= j < after.len() && after[j] == x;
                            assert(before[j] == x);
                        }
                        if before.contains(x) {
                            let j = choose|j: int| 0 <= j < before.len() && before[j] == x;
                            assert(after[j] == x);
                        }
                        if x == u {
                            assert(after[i as int] == u);
                        }
                    }
                }
                assert(self@ =~= old(self)@.union(other.units@.take(i as int + 1).to_set()));
            }
            i = i + 1;
        }
        proof {
            assert(other.units@.take(i as int) =~= other.units@);
        }
    }

    proof fn lemma_len(&self)
        requires
            self.wf(),
        ensures
            self@.len() == self.elems().len(),
            self@.finite(),
    {
        lemma_sorted_no_dup(self.elems());
        self.elems().unique_seq_to_set();
    }

    /// For a well-formed set, its size is the length of its member list.
    pub proof fn lemma_wf(&self)
        requires
            self.wf(),
        ensures
            self@.len() == self.elems().len(),
            self@.finite(),
            self.elems().no_duplicates(),
    {
        self.lemma_len();
        lemma_sorted_no_dup(self.elems());
    }
}

impl View for Configuration {
    type V = Set<u32>;

    open spec fn view(&self) -> Set<u32> {
        self.elems().to_set()
    }
}

/// A strictly sorted sequence has no duplicates.
pub proof fn lemma_sorted_no_dup(s: Seq<u32>)
    requires
        strictly_sorted(s),
    ensures
        s.no_duplicates(),
{
    assert forall|i: int, j: int| 0 <= i < s.len() && 0 <= j < s.len() && i != j implies s[i] != s[j] by {
        if i < j {
        } else {
        }
    }
}

/// Filtering keeps a sequence strictly sorted.
pub proof fn lemma_filter_sorted(s: Seq<u32>, p: spec_fn(u32) -> bool)
    requires
        strictly_sorted(s),
    ensures
        strictly_sorted(s.filter(p)),
    decreases s.len(),
{
    reveal_with_fuel(Seq::filter, 1);
    if s.len() > 0 {
        let t = s.drop_last();
        assert(strictly_sorted(t));
        lemma_filter_sorted(t, p);
        if p(s.last()) {
            let f = t.filter(p);
            assert(s.filter(p) == f.push(s.last()));
            assert forall|k: int| 0 <= k < f.len() implies f[k] < s.last() by {
                assert(t.filter(p).contains(f[k]));
                t.lemma_filter_contains_rev(p, f[k]);
                let m = choose|m: int| 0 <= m < t.len() && t[m] == f[k];
                assert(s[m] == t[m]);
            }
        }
    }
}

/// The set of a filtered sequence.
pub proof fn lemma_filter_to_set(s: Seq<u32>, p: spec_fn(u32) -> bool)
    ensures
        s.filter(p).to_set() == s.to_set().filter(p),
{
    assert forall|x: u32| s.filter(p).to_set().contains(x) <==> s.to_set().filter(p).contains(x) by {
        if s.filter(p).contains(x) {
            s.lemma_filter_contains_rev(p, x);
        }
        if s.contains(x) && p(x) {
            let k = choose|k: int| 0 <= k < s.len() && s[k] == x;
            s.lemma_filter_contains(p, k);
        }
    }
    assert(s.filter(p).to_set() =~= s.to_set().filter(p));
}

} // verus!
