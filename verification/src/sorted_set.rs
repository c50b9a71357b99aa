//! A sorted, deduplicated index over `i64` keys backed by a dense vector:
//! binary search locates keys in O(log n), mutations splice in O(n).

use vstd::prelude::*;
use vstd::string::StringExecFns;

verus! {

/// Strictly ascending order: the well-formedness condition of the index,
/// which also rules out duplicates.
pub open spec fn sorted_strict(s: Seq<i64>) -> bool {
    forall|i: int, j: int| 0 <= i < j < s.len() ==> s[i] < s[j]
}

/// A sorted set of `i64` keys: strictly ascending, no duplicates.
pub struct SortedSet {
    data: Vec<i64>,
}

impl View for SortedSet {
    type V = Seq<i64>;

    /// The elements in ascending order.
    closed spec fn view(&self) -> Seq<i64> {
        self.data@
    }
}

/// First index whose element is `>= x` (all of `v` if none is).
fn lower_bound(v: &Vec<i64>, x: i64) -> (r: usize)
    requires
        sorted_strict(v@),
    ensures
        r <= v@.len(),
        forall|i: int| 0 <= i < r ==> v@[i] < x,
        forall|i: int| r <= i < v@.len() ==> v@[i] >= x,
{
    let mut lo: usize = 0;
    let mut hi: usize = v.len();
    while lo < hi
        invariant
            sorted_strict(v@),
            lo <= hi <= v@.len(),
            forall|i: int| 0 <= i < lo ==> v@[i] < x,
            forall|i: int| hi <= i < v@.len() ==> v@[i] >= x,
        decreases hi - lo,
    {
        let mid = lo + (hi - lo) / 2;
        if v[mid] < x {
            lo = mid + 1;
        } else {
            hi = mid;
        }
    }
    lo
}

/// First index whose element is `> x` (all of `v` if none is).
fn upper_bound(v: &Vec<i64>, x: i64) -> (r: usize)
    requires
        sorted_strict(v@),
    ensures
        r <= v@.len(),
        forall|i: int| 0 <= i < r ==> v@[i] <= x,
        forall|i: int| r <= i < v@.len() ==> v@[i] > x,
{
    let mut lo: usize = 0;
    let mut hi: usize = v.len();
    while lo < hi
        invariant
            sorted_strict(v@),
            lo <= hi <= v@.len(),
            forall|i: int| 0 <= i < lo ==> v@[i] <= x,
            forall|i: int| hi <= i < v@.len() ==> v@[i] > x,
        decreases hi - lo,
    {
        let mid = lo + (hi - lo) / 2;
        if v[mid] <= x {
            lo = mid + 1;
        } else {
            hi = mid;
        }
    }
    lo
}

impl SortedSet {
    /// The invariant every operation establishes and preserves: the backing
    /// vector is strictly ascending (hence duplicate-free).
    pub open spec fn well_formed(&self) -> bool {
        sorted_strict(self@)
    }

    /// Creates an empty index.
    pub fn new() -> (r: SortedSet)
        ensures
            r.well_formed(),
            r@ == Seq::<i64>::empty(),
    {
        let r = SortedSet { data: Vec::new() };
        proof {
            assert(r@ =~= Seq::<i64>::empty());
        }
        r
    }

    /// Adds `value` if absent; returns whether it was newly inserted.
    pub fn insert(&mut self, value: i64) -> (r: bool)
        requires
            old(self).well_formed(),
        ensures
            final(self).well_formed(),
            r == !old(self)@.contains(value),
            final(self)@.contains(value),
            forall|x: i64| #[trigger] final(self)@.contains(x)
                <==> (old(self)@.contains(x) || x == value),
            r ==> final(self)@.len() == old(self)@.len() + 1,
            !r ==> final(self)@ == old(self)@,
    {
        let pos = lower_bound(&self.data, value);
        if pos < self.data.len() && self.data[pos] == value {
            proof {
                assert(old(self)@.contains(value));
            }
            false
        } else {
            proof {
                assert(forall|i: int|
                    0 <= i < old(self)@.len() ==> old(self)@[i] != value);
                assert(!old(self)@.contains(value));
            }
            self.data.insert(pos, value);
            proof {
                let s = self@;
                let olds = old(self)@;
                let p = pos as int;
                assert(forall|i: int, j: int| 0 <= i < j < s.len() ==> s[i] < s[j]) by {
                    assert(forall|i: int| 0 <= i < p ==> s[i] == olds[i]);
                    assert(s[p] == value);
                    assert(forall|i: int| p < i < s.len() ==> s[i] == olds[i - 1]);
                    assert(forall|i: int| p <= i < olds.len() ==> #[trigger] olds[i] > value);
                }
                assert(s[p] == value);
                assert(s.contains(value));
                assert(forall|x: i64| #[trigger] s.contains(x)
                    <==> (olds.contains(x) || x == value)) by {
                    assert(forall|x: i64| olds.contains(x) ==> s.contains(x)) by {
                        assert(forall|i: int| 0 <= i < olds.len() ==> #[trigger] olds[i]
                            == (if i < p { s[i] } else { s[i + 1] }));
                    }
                    assert(forall|x: i64| s.contains(x) && x != value ==> olds.contains(x)) by {
                        assert(forall|i: int| 0 <= i < s.len() && i != p ==> #[trigger] s[i]
                            == (if i < p { olds[i] } else { olds[i - 1] }));
                    }
                }
            }
            true
        }
    }

    /// True iff `value` is in the index.
    pub fn contains(&self, value: i64) -> (r: bool)
        requires
            self.well_formed(),
        ensures
            r == self@.contains(value),
    {
        let pos = lower_bound(&self.data, value);
        if pos < self.data.len() && self.data[pos] == value {
            proof {
                assert(self@.contains(value));
            }
            true
        } else {
            proof {
                assert(forall|i: int| 0 <= i < self@.len() ==> self@[i] != value);
            }
            false
        }
    }

    /// Removes `value` if present; returns whether a removal occurred.
    pub fn remove(&mut self, value: i64) -> (r: bool)
        requires
            old(self).well_formed(),
        ensures
            final(self).well_formed(),
            r == old(self)@.contains(value),
            !final(self)@.contains(value),
            forall|x: i64| #[trigger] final(self)@.contains(x)
                <==> (old(self)@.contains(x) && x != value),
            r ==> final(self)@.len() == old(self)@.len() - 1,
            !r ==> final(self)@ == old(self)@,
    {
        let pos = lower_bound(&self.data, value);
        if pos < self.data.len() && self.data[pos] == value {
            proof {
                assert(old(self)@.contains(value));
            }
            self.data.remove(pos);
            proof {
                let s = self@;
                let olds = old(self)@;
                let p = pos as int;
                assert(forall|i: int| 0 <= i < s.len() ==> #[trigger] s[i]
                    == (if i < p { olds[i] } else { olds[i + 1] }));
                assert(forall|i: int, j: int| 0 <= i < j < s.len() ==> s[i] < s[j]);
                assert(forall|x: i64| #[trigger] s.contains(x)
                    <==> (olds.contains(x) && x != value)) by {
                    assert(forall|i: int| 0 <= i < olds.len() && i != p ==> #[trigger] olds[i]
                        == (if i < p { s[i] } else { s[i - 1] }));
                    assert(forall|i: int| 0 <= i < olds.len() && olds[i] == value ==> i == p);
                }
            }
            true
        } else {
            proof {
                assert(forall|i: int| 0 <= i < self@.len() ==> self@[i] != value);
            }
            false
        }
    }

    /// Returns all elements as an ascending list.
    pub fn to_list(&self) -> (r: Vec<i64>)
        requires
            self.well_formed(),
        ensures
            r@ == self@,
    {
        let mut result: Vec<i64> = Vec::new();
        let mut i: usize = 0;
        while i < self.data.len()
            invariant
                i <= self.data.len(),
                result@ =~= self@.subrange(0, i as int),
            decreases self.data.len() - i,
        {
            result.push(self.data[i]);
            i = i + 1;
        }
        proof {
            assert(result@ =~= self@);
        }
        result
    }

    /// Returns the elements `x` with `low <= x <= high`, ascending; empty
    /// whenever `low > high`.
    pub fn range(&self, low: i64, high: i64) -> (r: Vec<i64>)
        requires
            self.well_formed(),
        ensures
            sorted_strict(r@),
            forall|x: i64| #[trigger] r@.contains(x)
                <==> (self@.contains(x) && low <= x <= high),
    {
        let start = lower_bound(&self.data, low);
        let end = upper_bound(&self.data, high);
        let mut result: Vec<i64> = Vec::new();
        let mut i: usize = start;
        if start < end {
            while i < end
                invariant
                    self.well_formed(),
                    start <= i <= end <= self.data@.len(),
                    result@ =~= self@.subrange(start as int, i as int),
                decreases end - i,
            {
                result.push(self.data[i]);
                i = i + 1;
            }
        }
        proof {
            let s = self@;
            if start < end {
                assert(result@ =~= s.subrange(start as int, end as int));
                assert(forall|x: i64| #[trigger] result@.contains(x)
                    ==> (s.contains(x) && low <= x <= high)) by {
                    assert(forall|k: int| 0 <= k < result@.len()
                        ==> #[trigger] result@[k] == s[start as int + k]
                            && s.contains(s[start as int + k]));
                }
                assert forall|x: i64| s.contains(x) && low <= x <= high
                    implies #[trigger] result@.contains(x) by {
                    let k = choose|k: int| 0 <= k < s.len() && s[k] == x;
                    assert(start <= k < end);
                    assert(result@[k - start as int] == x);
                }
            } else {
                assert(result@ =~= Seq::<i64>::empty());
                assert(forall|k: int| 0 <= k < s.len() && low <= #[trigger] s[k] <= high
                    ==> start <= k < end);
            }
        }
        result
    }

    /// The number of elements in the index.
    pub fn len(&self) -> (r: usize)
        requires
            self.well_formed(),
        ensures
            r == self@.len(),
    {
        self.data.len()
    }

    /// A plain description string, independent of any host object model:
    /// the elements when there are at most ten of them, else the first
    /// element and the count.
    pub fn repr(&self) -> (r: String)
        requires
            self.well_formed(),
        ensures
            self@.len() <= 10 ==> r@ == "SortedSet(["@ + join_dec(self@) + "])"@,
            self@.len() > 10 ==> r@ == "SortedSet(["@ + crate::fmt::dec_int(self@[0] as int)
                + ", ... "@ + crate::fmt::dec_nat(self@.len() as int) + " items])"@,
    {
        let mut out = String::new();
        out.append("SortedSet([");
        if self.data.len() <= 10 {
            let ghost lit = out@;
            let mut t: usize = 0;
            proof {
                assert(out@ + join_dec(self@.subrange(0, 0)) =~= out@);
            }
            while t < self.data.len()
                invariant
                    self.well_formed(),
                    t <= self.data.len(),
                    out@ =~= lit + join_dec(self@.subrange(0, t as int)),
                decreases self.data.len() - t,
            {
                if t > 0 {
                    out.append(", ");
                }
                crate::fmt::push_i64(&mut out, self.data[t]);
                proof {
                    let sub = self@.subrange(0, t as int + 1);
                    assert(sub.drop_last() =~= self@.subrange(0, t as int));
                    assert(sub.last() == self@[t as int]);
                    if t > 0 {
                        assert(out@ =~= lit + (join_dec(self@.subrange(0, t as int))
                            + ", "@ + crate::fmt::dec_int(self@[t as int] as int)));
                    }
                    assert(out@ =~= lit + join_dec(sub));
                }
                t = t + 1;
            }
            out.append("])");
            proof {
                assert(self@.subrange(0, self@.len() as int) =~= self@);
                assert(out@ =~= "SortedSet(["@ + join_dec(self@) + "])"@);
            }
        } else {
            crate::fmt::push_i64(&mut out, self.data[0]);
            out.append(", ... ");
            crate::fmt::push_u64(&mut out, self.data.len() as u64);
            out.append(" items])");
            proof {
                assert(out@ =~= "SortedSet(["@ + crate::fmt::dec_int(self@[0] as int)
                    + ", ... "@ + crate::fmt::dec_nat(self@.len() as int) + " items])"@);
            }
        }
        out
    }
}

/// The elements of `s` in decimal, joined by a comma and a space.
pub open spec fn join_dec(s: Seq<i64>) -> Seq<char>
    decreases s.len(),
{
    if s.len() == 0 {
        Seq::empty()
    } else if s.len() == 1 {
        crate::fmt::dec_int(s[0] as int)
    } else {
        join_dec(s.drop_last()) + ", "@ + crate::fmt::dec_int(s.last() as int)
    }
}

/// Law of the index: a well-formed index is strictly ascending, so it can
/// hold no duplicate keys.
pub proof fn lemma_sorted_no_duplicates(s: Seq<i64>)
    requires
        sorted_strict(s),
    ensures
        forall|i: int, j: int|
            0 <= i < s.len() && 0 <= j < s.len() && i != j ==> s[i] != s[j],
{
}

} // verus!
