//! Strictly sorted vectors of `(coordinate key, id)` pairs, and sorted id lists.
use vstd::prelude::*;

verus! {

/// Lexicographic order on `(key, id)` pairs.
pub open spec fn key_lt(a: (i64, u64), b: (i64, u64)) -> bool {
    a.0 < b.0 || (a.0 == b.0 && a.1 < b.1)
}

/// Every pair is smaller than every later one.
pub open spec fn strictly_sorted(s: Seq<(i64, u64)>) -> bool {
    forall|i: int, j: int| 0 <= i < j < s.len() ==> key_lt(#[trigger] s[i], #[trigger] s[j])
}

/// Every id is smaller than every later one.
pub open spec fn ids_increasing(s: Seq<u64>) -> bool {
    forall|i: int, j: int| 0 <= i < j < s.len() ==> #[trigger] s[i] < #[trigger] s[j]
}

/// A set of `(key, id)` pairs kept as a strictly sorted vector.
pub struct AxisIndex {
    keys: Vec<(i64, u64)>,
}

impl AxisIndex {
    /// The pairs, in increasing order.
    pub closed spec fn seq(&self) -> Seq<(i64, u64)> {
        self.keys@
    }

    pub closed spec fn wf(&self) -> bool {
        strictly_sorted(self.keys@)
    }

    pub fn new() -> (r: AxisIndex)
        ensures
            r.wf(),
            strictly_sorted(r.seq()),
            r.seq() == Seq::<(i64, u64)>::empty(),
    {
        AxisIndex { keys: Vec::new() }
    }

    pub fn clear(&mut self)
        ensures
            final(self).wf(),
            strictly_sorted(final(self).seq()),
            final(self).seq() == Seq::<(i64, u64)>::empty(),
    {
        self.keys.clear();
    }

    pub fn len(&self) -> (r: usize)
        ensures
            r == self.seq().len(),
    {
        self.keys.len()
    }

    pub fn get(&self, i: usize) -> (r: (i64, u64))
        requires
            i < self.seq().len(),
        ensures
            r == self.seq()[i as int],
    {
        self.keys[i]
    }

    /// The first position whose pair is not below `k`.
    fn lower_bound(&self, k: (i64, u64)) -> (r: usize)
        requires
            self.wf(),
        ensures
            r <= self.keys@.len(),
            forall|i: int| 0 <= i < r ==> key_lt(#[trigger] self.keys@[i], k),
            forall|i: int| r <= i < self.keys@.len() ==> !key_lt(#[trigger] self.keys@[i], k),
    {
        let mut lo: usize = 0;
        let mut hi: usize = self.keys.len();
        while lo < hi
            invariant
                self.wf(),
                0 <= lo <= hi <= self.keys@.len(),
                forall|i: int| 0 <= i < lo ==> key_lt(#[trigger] self.keys@[i], k),
                forall|i: int| hi <= i < self.keys@.len() ==> !key_lt(#[trigger] self.keys@[i], k),
            decreases hi - lo,
        {
            let mid = lo + (hi - lo) / 2;
            let p = self.keys[mid];
            if p.0 < k.0 || (p.0 == k.0 && p.1 < k.1) {
                assert forall|i: int| 0 <= i <= mid implies key_lt(#[trigger] self.keys@[i], k) by {
                    if i < mid {
                        assert(key_lt(self.keys@[i], self.keys@[mid as int]));
                    }
                }
                lo = mid + 1;
            } else {
                assert forall|i: int| mid <= i < self.keys@.len() implies !key_lt(
                    #[trigger] self.keys@[i],
                    k,
                ) by {
                    if i > mid {
                        assert(key_lt(self.keys@[mid as int], self.keys@[i]));
                    }
                }
                hi = mid;
            }
        }
        lo
    }

    /// The number of pairs whose key is at most `max`; they are the first ones.
    pub fn count_key_le(&self, max: i64) -> (r: usize)
        requires
            self.wf(),
        ensures
            r <= self.seq().len(),
            forall|i: int| 0 <= i < r ==> (#[trigger] self.seq()[i]).0 <= max,
            forall|i: int| r <= i < self.seq().len() ==> (#[trigger] self.seq()[i]).0 > max,
    {
        let mut lo: usize = 0;
        let mut hi: usize = self.keys.len();
        while lo < hi
            invariant
                self.wf(),
                0 <= lo <= hi <= self.keys@.len(),
                forall|i: int| 0 <= i < lo ==> (#[trigger] self.keys@[i]).0 <= max,
                forall|i: int| hi <= i < self.keys@.len() ==> (#[trigger] self.keys@[i]).0 > max,
            decreases hi - lo,
        {
            let mid = lo + (hi - lo) / 2;
            let p = self.keys[mid];
            if p.0 <= max {
                assert forall|i: int| 0 <= i <= mid implies (#[trigger] self.keys@[i]).0 <= max by {
                    if i < mid {
                        assert(key_lt(self.keys@[i], self.keys@[mid as int]));
                    }
                }
                lo = mid + 1;
            } else {
                assert forall|i: int| mid <= i < self.keys@.len() implies (
                #[trigger] self.keys@[i]).0 > max by {
                    if i > mid {
                        assert(key_lt(self.keys@[mid as int], self.keys@[i]));
                    }
                }
                hi = mid;
            }
        }
        lo
    }

    /// Adds a pair (nothing changes when it is already there).
    pub fn insert_key(&mut self, k: (i64, u64))
        requires
            old(self).wf(),
        ensures
            final(self).wf(),
            strictly_sorted(final(self).seq()),
            forall|p: (i64, u64)| #[trigger]
                final(self).seq().contains(p) <==> (old(self).seq().contains(p) || p == k),
    {
        let pos = self.lower_bound(k);
        if pos < self.keys.len() && self.keys[pos].0 == k.0 && self.keys[pos].1 == k.1 {
            return;
        }
        let ghost old_keys = self.keys@;
        self.keys.insert(pos, k);
        assert forall|i: int, j: int| 0 <= i < j < self.keys@.len() implies key_lt(
            #[trigger] self.keys@[i],
            #[trigger] self.keys@[j],
        ) by {
            if j < pos {
                assert(key_lt(old_keys[i], old_keys[j]));
            } else if j == pos {
            } else if i < pos {
                assert(key_lt(old_keys[i], k));
                assert(!key_lt(old_keys[j - 1], k));
            } else if i == pos {
                assert(!key_lt(old_keys[j - 1], k));
            } else {
                assert(key_lt(old_keys[i - 1], old_keys[j - 1]));
            }
        }
        assert forall|p: (i64, u64)| #[trigger]
            self.keys@.contains(p) <==> (old_keys.contains(p) || p == k) by {
            if self.keys@.contains(p) {
                let i = choose|i: int| 0 <= i < self.keys@.len() && self.keys@[i] == p;
                if i < pos {
                    assert(old_keys[i] == p);
                } else if i > pos {
                    assert(old_keys[i - 1] == p);
                }
            }
            if old_keys.contains(p) {
                let i = choose|i: int| 0 <= i < old_keys.len() && old_keys[i] == p;
                if i < pos {
                    assert(self.keys@[i] == p);
                } else {
                    assert(self.keys@[i + 1] == p);
                }
            }
            if p == k {
                assert(self.keys@[pos as int] == p);
            }
        }
    }

    /// Removes a pair (nothing changes when it is absent).
    pub fn remove_key(&mut self, k: (i64, u64))
        requires
            old(self).wf(),
        ensures
            final(self).wf(),
            strictly_sorted(final(self).seq()),
            forall|p: (i64, u64)| #[trigger]
                final(self).seq().contains(p) <==> (old(self).seq().contains(p) && p != k),
    {
        let pos = self.lower_bound(k);
        let ghost old_keys = self.keys@;
        if pos < self.keys.len() && self.keys[pos].0 == k.0 && self.keys[pos].1 == k.1 {
            self.keys.remove(pos);
            assert forall|i: int, j: int| 0 <= i < j < self.keys@.len() implies key_lt(
                #[trigger] self.keys@[i],
                #[trigger] self.keys@[j],
            ) by {
                if j < pos {
                    assert(key_lt(old_keys[i], old_keys[j]));
                } else if i < pos {
                    assert(key_lt(old_keys[i], old_keys[j + 1]));
                } else {
                    assert(key_lt(old_keys[i + 1], old_keys[j + 1]));
                }
            }
            assert forall|p: (i64, u64)| #[trigger]
                self.keys@.contains(p) <==> (old_keys.contains(p) && p != k) by {
                if self.keys@.contains(p) {
                    let i = choose|i: int| 0 <= i < self.keys@.len() && self.keys@[i] == p;
                    if i < pos {
                        assert(old_keys[i] == p);
                        assert(key_lt(old_keys[i], old_keys[pos as int]));
                    } else {
                        assert(old_keys[i + 1] == p);
                        assert(key_lt(old_keys[pos as int], old_keys[i + 1]));
                    }
                }
                if old_keys.contains(p) && p != k {
                    let i = choose|i: int| 0 <= i < old_keys.len() && old_keys[i] == p;
                    if i < pos {
                        assert(self.keys@[i] == p);
                    } else {
                        assert(i != pos);
                        assert(self.keys@[i - 1] == p);
                    }
                }
            }
        } else {
            assert forall|p: (i64, u64)| #[trigger]
                self.keys@.contains(p) <==> (old_keys.contains(p) && p != k) by {
                if old_keys.contains(p) && p == k {
                    let i = choose|i: int| 0 <= i < old_keys.len() && old_keys[i] == p;
                    if i < pos {
                        assert(key_lt(old_keys[i], k));
                    } else if i > pos {
                        assert(key_lt(old_keys[pos as int], old_keys[i]));
                        assert(!key_lt(old_keys[pos as int], k));
                    }
                }
            }
        }
    }
}

/// Sorts distinct ids into increasing order (insertion into a sorted vector).
pub fn sort_distinct_ids(ids: &Vec<u64>) -> (r: Vec<u64>)
    requires
        ids@.no_duplicates(),
    ensures
        r@.len() == ids@.len(),
        ids_increasing(r@),
        forall|x: u64| #[trigger] r@.contains(x) <==> ids@.contains(x),
{
    let mut out: Vec<u64> = Vec::new();
    let mut n: usize = 0;
    while n < ids.len()
        invariant
            n <= ids@.len(),
            ids@.no_duplicates(),
            out@.len() == n,
            ids_increasing(out@),
            forall|x: u64| #[trigger]
                out@.contains(x) <==> ids@.subrange(0, n as int).contains(x),
        decreases ids@.len() - n,
    {
        let x = ids[n];
        let mut pos: usize = 0;
        while pos < out.len() && out[pos] < x
            invariant
                pos <= out@.len(),
                forall|i: int| 0 <= i < pos ==> #[trigger] out@[i] < x,
            decreases out@.len() - pos,
        {
            pos = pos + 1;
        }
        let ghost old_out = out@;
        assert(!old_out.contains(x)) by {
            if old_out.contains(x) {
                let j = choose|j: int| 0 <= j < n && ids@.subrange(0, n as int)[j] == x;
                assert(ids@[j] == ids@[n as int]);
            }
        }
        out.insert(pos, x);
        assert forall|i: int, j: int| 0 <= i < j < out@.len() implies #[trigger] out@[i]
            < #[trigger] out@[j] by {
            if j < pos {
                assert(old_out[i] < old_out[j]);
            } else if j == pos {
            } else if i < pos {
                assert(old_out[i] < x);
                assert(old_out[j - 1] != x);
                if pos < old_out.len() {
                    assert(old_out[pos as int] >= x);
                    if j - 1 > pos {
                        assert(old_out[pos as int] < old_out[j - 1]);
                    }
                }
            } else if i == pos {
                assert(old_out[j - 1] != x);
                assert(old_out[pos as int] >= x);
                if j - 1 > pos {
                    assert(old_out[pos as int] < old_out[j - 1]);
                }
            } else {
                assert(old_out[i - 1] < old_out[j - 1]);
            }
        }
        assert forall|y: u64| #[trigger]
            out@.contains(y) <==> ids@.subrange(0, n + 1).contains(y) by {
            let s0 = ids@.subrange(0, n as int);
            let s1 = ids@.subrange(0, n + 1);
            assert(s1.contains(y) <==> (s0.contains(y) || y == x)) by {
                if s1.contains(y) {
                    let i = choose|i: int| 0 <= i < s1.len() && s1[i] == y;
                    if i < n {
                        assert(s0[i] == y);
                    }
                }
                if s0.contains(y) {
                    let i = choose|i: int| 0 <= i < s0.len() && s0[i] == y;
                    assert(s1[i] == y);
                }
                if y == x {
                    assert(s1[n as int] == y);
                }
            }
            assert(old_out.contains(y) <==> s0.contains(y));
            if out@.contains(y) {
                let i = choose|i: int| 0 <= i < out@.len() && out@[i] == y;
                if i < pos {
                    assert(old_out[i] == y);
                } else if i > pos {
                    assert(old_out[i - 1] == y);
                }
            }
            if old_out.contains(y) {
                let i = choose|i: int| 0 <= i < old_out.len() && old_out[i] == y;
                if i < pos {
                    assert(out@[i] == y);
                } else {
                    assert(out@[i + 1] == y);
                }
            }
            if y == x {
                assert(out@[pos as int] == y);
            }
        }
        n = n + 1;
    }
    assert(ids@.subrange(0, n as int) == ids@);
    out
}

} // verus!
