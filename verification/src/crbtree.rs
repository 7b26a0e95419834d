//! An index of boxes by id that answers "which boxes meet this box" by
//! scanning the boxes whose minimum, on the most selective axis, is at most
//! the query's maximum.
use std::collections::BTreeMap;
use vstd::prelude::*;
use crate::ffi::{Bool, bool_of};
use crate::geometry::{Aabb, AabbDesc, boxes_intersect, coord_le, desc_is_valid, vec_axis};
use crate::sorted_keys::{AxisIndex, key_lt, sort_distinct_ids, strictly_sorted};

verus! {

/// `id` is stored and the key of its minimum on `axis` is at most `bound`.
pub open spec fn is_candidate(m: Map<u64, Aabb>, id: u64, bound: i64, axis: int) -> bool {
    m.contains_key(id) && vec_axis(m[id].mins, axis) <= bound
}

/// The largest key whose double is at most the double of `qmax`: `-0.0`
/// (key -1) is at most `+0.0` (key 0), so a bound of `-0.0` scans up to `+0.0`.
pub open spec fn scan_bound(qmax: i64) -> i64 {
    if qmax == -1 {
        0
    } else {
        qmax
    }
}

/// A key is at most the scan bound of `qmax` exactly when its double is at
/// most the double of `qmax`.
pub proof fn lemma_scan_bound(k: i64, qmax: i64)
    ensures
        (k <= scan_bound(qmax)) == coord_le(k, qmax),
{
}

/// The stored ids whose minimum on `axis` is at most the query's maximum there.
pub open spec fn candidates(m: Map<u64, Aabb>, q: Aabb, axis: int) -> Set<u64> {
    Set::new(|id: u64| is_candidate(m, id, scan_bound(vec_axis(q.maxs, axis)), axis))
}

/// The candidates on `axis` whose boxes meet `q`.
pub open spec fn axis_hits(m: Map<u64, Aabb>, q: Aabb, axis: int) -> Set<u64> {
    Set::new(
        |id: u64| is_candidate(m, id, scan_bound(vec_axis(q.maxs, axis)), axis) && boxes_intersect(m[id], q),
    )
}

/// The axis with the fewest candidates, the first such one on a tie.
pub open spec fn best_axis_of(m: Map<u64, Aabb>, q: Aabb) -> int {
    let c0 = candidates(m, q, 0).len();
    let c1 = candidates(m, q, 1).len();
    let c2 = candidates(m, q, 2).len();
    if c0 <= c1 && c0 <= c2 {
        0
    } else if c1 <= c2 {
        1
    } else {
        2
    }
}

/// What a query of the index finds: the candidates on the best axis that meet `q`.
pub open spec fn index_hits(m: Map<u64, Aabb>, q: Aabb) -> Set<u64> {
    axis_hits(m, q, best_axis_of(m, q))
}

/// Every stored id whose box meets `q`.
pub open spec fn all_hits(m: Map<u64, Aabb>, q: Aabb) -> Set<u64> {
    Set::new(|id: u64| m.contains_key(id) && boxes_intersect(m[id], q))
}

/// How many of `n` found ids fit in `cap` slots.
pub open spec fn fill_count(n: int, cap: int) -> int {
    if n <= cap {
        n
    } else {
        cap
    }
}

/// A query into a buffer with room for every hit that the count reports
/// writes as many ids as the count says: for a buffer of `cap` slots, at
/// least the capped count, what `query` returns equals what `query_count`
/// returns. (With more than `u32::MAX` hits and a buffer longer than
/// `u32::MAX`, the returned count is cut to 32 bits and the two differ.)
pub proof fn lemma_query_matches_count(m: Map<u64, Aabb>, q: Aabb, cap: int)
    requires
        m.dom().finite(),
        cap >= fill_count(all_hits(m, q).len() as int, u32::MAX as int),
        all_hits(m, q).len() <= u32::MAX || cap == u32::MAX,
    ensures
        fill_count(all_hits(m, q).len() as int, cap) as u32 as int == fill_count(
            all_hits(m, q).len() as int,
            u32::MAX as int,
        ),
{
}

/// The order in which candidates on `axis` are visited: by minimum key, then by id.
pub open spec fn visit_lt(m: Map<u64, Aabb>, axis: int, a: u64, b: u64) -> bool {
    key_lt((vec_axis(m[a].mins, axis), a), (vec_axis(m[b].mins, axis), b))
}

/// In `out`, the window `[start, start + w)` holds, in increasing order, the
/// smallest `w` ids of `hits`; an id of `hits` is left out only when the
/// window reaches the end of `out`, and then it is larger than every written id.
pub open spec fn window_ok(out: Seq<u64>, start: int, w: int, hits: Set<u64>) -> bool {
    &&& 0 <= start && 0 <= w && start + w <= out.len()
    &&& forall|i: int, j: int| start <= i < j < start + w ==> out[i] < out[j]
    &&& forall|i: int| start <= i < start + w ==> hits.contains(#[trigger] out[i])
    &&& forall|h: u64|
        #![trigger hits.contains(h)]
        hits.contains(h) ==> out.subrange(start, start + w).contains(h) || (start + w
            == out.len() && forall|i: int| start <= i < start + w ==> out[i] < h)
}

/// `out` equals `old` outside `[start, start + w)`.
pub open spec fn unchanged_outside(out: Seq<u64>, old: Seq<u64>, start: int, w: int) -> bool {
    &&& out.len() == old.len()
    &&& forall|i: int| 0 <= i < start ==> out[i] == old[i]
    &&& forall|i: int| start + w <= i < out.len() ==> out[i] == old[i]
}

/// `out` differs from `old` only in `[start, start + w)`, which holds the
/// smallest ids of `hits` (see `window_ok`).
pub open spec fn writes_smallest(
    out: Seq<u64>,
    old: Seq<u64>,
    start: int,
    w: int,
    hits: Set<u64>,
) -> bool {
    &&& unchanged_outside(out, old, start, w)
    &&& window_ok(out, start, w, hits)
}

/// The pairs of `s` are exactly `(minimum on axis, id)` of the boxes in `m`.
pub open spec fn axis_matches(s: Seq<(i64, u64)>, m: Map<u64, Aabb>, axis: int) -> bool {
    forall|p: (i64, u64)| #[trigger]
        s.contains(p) <==> (m.contains_key(p.1) && p.0 == vec_axis(m[p.1].mins, axis))
}

/// An id index over `s` (sorted, matching `m` on `axis`) holds each id once.
proof fn lemma_axis_ids_distinct(s: Seq<(i64, u64)>, m: Map<u64, Aabb>, axis: int, i: int, j: int)
    requires
        strictly_sorted(s),
        axis_matches(s, m, axis),
        0 <= i < s.len(),
        0 <= j < s.len(),
        s[i].1 == s[j].1,
    ensures
        i == j,
{
    assert(s.contains(s[i]));
    assert(s.contains(s[j]));
    if i < j {
        assert(key_lt(s[i], s[j]));
    } else if j < i {
        assert(key_lt(s[j], s[i]));
    }
}

/// The first `n` pairs of a matching axis list are the candidates, each once.
proof fn lemma_axis_prefix(s: Seq<(i64, u64)>, m: Map<u64, Aabb>, axis: int, qmax: i64, n: int)
    requires
        strictly_sorted(s),
        axis_matches(s, m, axis),
        0 <= n <= s.len(),
        forall|i: int| 0 <= i < n ==> (#[trigger] s[i]).0 <= qmax,
        forall|i: int| n <= i < s.len() ==> (#[trigger] s[i]).0 > qmax,
    ensures
        forall|id: u64|
            #![trigger is_candidate(m, id, qmax, axis)]
            is_candidate(m, id, qmax, axis) <==> exists|i: int|
                0 <= i < n && (#[trigger] s[i]).1 == id,
        Set::new(|id: u64| is_candidate(m, id, qmax, axis)).len() == n,
        Set::new(|id: u64| is_candidate(m, id, qmax, axis)).finite(),
{
    let t = s.subrange(0, n).map_values(|p: (i64, u64)| p.1);
    assert forall|id: u64| #![trigger is_candidate(m, id, qmax, axis)]
        is_candidate(m, id, qmax, axis) <==> exists|i: int| 0 <= i < n && (#[trigger] s[i]).1 == id by {
        if is_candidate(m, id, qmax, axis) {
            let p = (vec_axis(m[id].mins, axis), id);
            assert(s.contains(p));
            let i = choose|i: int| 0 <= i < s.len() && s[i] == p;
            assert(s[i].0 <= qmax);
            assert(i < n);
        }
        if exists|i: int| 0 <= i < n && (#[trigger] s[i]).1 == id {
            let i = choose|i: int| 0 <= i < n && (#[trigger] s[i]).1 == id;
            assert(s.contains(s[i]));
        }
    }
    assert(t.no_duplicates()) by {
        assert forall|i: int, j: int| 0 <= i < t.len() && 0 <= j < t.len() && i != j implies t[i]
            != t[j] by {
            if t[i] == t[j] {
                lemma_axis_ids_distinct(s, m, axis, i, j);
            }
        }
    }
    assert(Set::new(|id: u64| is_candidate(m, id, qmax, axis)) =~= t.to_set()) by {
        assert forall|id: u64| #[trigger] t.to_set().contains(id) implies is_candidate(
            m,
            id,
            qmax,
            axis,
        ) by {
            let i = choose|i: int| 0 <= i < t.len() && t[i] == id;
            assert(s[i].1 == id);
        }
        assert forall|id: u64| is_candidate(m, id, qmax, axis) implies #[trigger] t.to_set().contains(
            id,
        ) by {
            let i = choose|i: int| 0 <= i < n && (#[trigger] s[i]).1 == id;
            assert(t[i] == id);
        }
    }
    t.unique_seq_to_set();
}

/// Boxes indexed by id, with the ids also kept sorted by their minimum on each axis.
pub struct CRbTreeIndex {
    entries: BTreeMap<u64, Aabb>,
    by_min_x: AxisIndex,
    by_min_y: AxisIndex,
    by_min_z: AxisIndex,
}

impl View for CRbTreeIndex {
    type V = Map<u64, Aabb>;

    /// The stored boxes by id.
    closed spec fn view(&self) -> Map<u64, Aabb> {
        self.entries@
    }
}

impl CRbTreeIndex {
    closed spec fn axis(&self, axis: int) -> AxisIndex {
        if axis == 0 {
            self.by_min_x
        } else if axis == 1 {
            self.by_min_y
        } else {
            self.by_min_z
        }
    }

    /// The per-axis lists are sorted and hold exactly one pair for each stored
    /// box; id 0 is never stored.
    pub closed spec fn wf(&self) -> bool {
        &&& self.by_min_x.wf()
        &&& self.by_min_y.wf()
        &&& self.by_min_z.wf()
        &&& strictly_sorted(self.by_min_x.seq())
        &&& strictly_sorted(self.by_min_y.seq())
        &&& strictly_sorted(self.by_min_z.seq())
        &&& axis_matches(self.by_min_x.seq(), self.entries@, 0)
        &&& axis_matches(self.by_min_y.seq(), self.entries@, 1)
        &&& axis_matches(self.by_min_z.seq(), self.entries@, 2)
        &&& !self.entries@.contains_key(0)
    }

    proof fn lemma_wf_axis(&self, axis: int)
        requires
            self.wf(),
            0 <= axis < 3,
        ensures
            self.axis(axis).wf(),
            strictly_sorted(self.axis(axis).seq()),
            axis_matches(self.axis(axis).seq(), self.entries@, axis),
    {
    }

    /// An empty index.
    pub fn new() -> (r: CRbTreeIndex)
        ensures
            r.wf(),
            r@ == Map::<u64, Aabb>::empty(),
    {
        let r = CRbTreeIndex {
            entries: BTreeMap::new(),
            by_min_x: AxisIndex::new(),
            by_min_y: AxisIndex::new(),
            by_min_z: AxisIndex::new(),
        };
        r
    }

    fn insert_axis_keys(&mut self, id: u64, bounds: Aabb)
        requires
            old(self).by_min_x.wf(),
            old(self).by_min_y.wf(),
            old(self).by_min_z.wf(),
        ensures
            final(self).entries == old(self).entries,
            final(self).by_min_x.wf(),
            final(self).by_min_y.wf(),
            final(self).by_min_z.wf(),
            strictly_sorted(final(self).by_min_x.seq()),
            strictly_sorted(final(self).by_min_y.seq()),
            strictly_sorted(final(self).by_min_z.seq()),
            forall|p: (i64, u64)| #[trigger]
                final(self).by_min_x.seq().contains(p) <==> (old(self).by_min_x.seq().contains(p)
                    || p == (bounds.mins.x, id)),
            forall|p: (i64, u64)| #[trigger]
                final(self).by_min_y.seq().contains(p) <==> (old(self).by_min_y.seq().contains(p)
                    || p == (bounds.mins.y, id)),
            forall|p: (i64, u64)| #[trigger]
                final(self).by_min_z.seq().contains(p) <==> (old(self).by_min_z.seq().contains(p)
                    || p == (bounds.mins.z, id)),
    {
        self.by_min_x.insert_key((bounds.min_axis(0), id));
        self.by_min_y.insert_key((bounds.min_axis(1), id));
        self.by_min_z.insert_key((bounds.min_axis(2), id));
    }

    fn remove_axis_keys(&mut self, id: u64, bounds: Aabb)
        requires
            old(self).by_min_x.wf(),
            old(self).by_min_y.wf(),
            old(self).by_min_z.wf(),
        ensures
            final(self).entries == old(self).entries,
            final(self).by_min_x.wf(),
            final(self).by_min_y.wf(),
            final(self).by_min_z.wf(),
            strictly_sorted(final(self).by_min_x.seq()),
            strictly_sorted(final(self).by_min_y.seq()),
            strictly_sorted(final(self).by_min_z.seq()),
            forall|p: (i64, u64)| #[trigger]
                final(self).by_min_x.seq().contains(p) <==> (old(self).by_min_x.seq().contains(p)
                    && p != (bounds.mins.x, id)),
            forall|p: (i64, u64)| #[trigger]
                final(self).by_min_y.seq().contains(p) <==> (old(self).by_min_y.seq().contains(p)
                    && p != (bounds.mins.y, id)),
            forall|p: (i64, u64)| #[trigger]
                final(self).by_min_z.seq().contains(p) <==> (old(self).by_min_z.seq().contains(p)
                    && p != (bounds.mins.z, id)),
    {
        self.by_min_x.remove_key((bounds.min_axis(0), id));
        self.by_min_y.remove_key((bounds.min_axis(1), id));
        self.by_min_z.remove_key((bounds.min_axis(2), id));
    }

    /// Stores `bounds` under `id`, replacing what was there; id 0 is refused.
    pub fn insert(&mut self, id: u64, bounds: Aabb) -> (r: bool)
        requires
            old(self).wf(),
        ensures
            final(self).wf(),
            r == (id != 0),
            r ==> final(self)@ == old(self)@.insert(id, bounds),
            !r ==> final(self)@ == old(self)@,
    {
        if id == 0 {
            return false;
        }
        let ghost m0 = self.entries@;
        let prev = self.entries.insert(id, bounds);
        match prev {
            Some(previous) => {
                assert(previous == m0[id]);
                self.remove_axis_keys(id, previous);
            },
            None => {},
        }
        self.insert_axis_keys(id, bounds);
        let ghost m1 = self.entries@;
        assert(m1 == m0.insert(id, bounds));
        assert(axis_matches(self.by_min_x.seq(), m1, 0));
        assert(axis_matches(self.by_min_y.seq(), m1, 1));
        assert(axis_matches(self.by_min_z.seq(), m1, 2));
        true
    }

    /// Removes `id`; `true` exactly when it was stored.
    pub fn remove(&mut self, id: u64) -> (r: bool)
        requires
            old(self).wf(),
        ensures
            final(self).wf(),
            r == old(self)@.contains_key(id),
            final(self)@ == old(self)@.remove(id),
    {
        let ghost m0 = self.entries@;
        let removed = self.entries.remove(&id);
        match removed {
            Some(bounds) => {
                assert(bounds == m0[id]);
                self.remove_axis_keys(id, bounds);
                let ghost m1 = self.entries@;
                assert(axis_matches(self.by_min_x.seq(), m1, 0));
                assert(axis_matches(self.by_min_y.seq(), m1, 1));
                assert(axis_matches(self.by_min_z.seq(), m1, 2));
                true
            },
            None => {
                assert(self.entries@ =~= m0.remove(id));
                false
            },
        }
    }

    /// Removes every box.
    pub fn clear(&mut self)
        requires
            old(self).wf(),
        ensures
            final(self).wf(),
            final(self)@ == Map::<u64, Aabb>::empty(),
    {
        self.entries.clear();
        self.by_min_x.clear();
        self.by_min_y.clear();
        self.by_min_z.clear();
    }

    /// Whether `id` is stored.
    pub fn contains(&self, id: u64) -> (r: bool)
        ensures
            r == self@.contains_key(id),
    {
        self.entries.contains_key(&id)
    }

    /// The number of stored boxes.
    pub fn len(&self) -> (r: usize)
        ensures
            r == self@.len(),
    {
        self.entries.len()
    }

    /// Whether the box stored under `id` meets `bounds` (`false` when absent).
    pub fn intersects_id(&self, id: u64, bounds: Aabb) -> (r: bool)
        ensures
            r == (self@.contains_key(id) && boxes_intersect(self@[id], bounds)),
    {
        match self.entries.get(&id) {
            Some(entry) => entry.intersects(bounds),
            None => false,
        }
    }

    /// The number of candidates on `axis`: the first so many pairs of its list.
    fn candidate_count(&self, bounds: Aabb, axis: usize) -> (r: usize)
        requires
            self.wf(),
            axis < 3,
        ensures
            r == candidates(self@, bounds, axis as int).len(),
            candidates(self@, bounds, axis as int).finite(),
            r <= self.axis(axis as int).seq().len(),
            forall|i: int|
                0 <= i < r ==> (#[trigger] self.axis(axis as int).seq()[i]).0 <= scan_bound(
                    vec_axis(bounds.maxs, axis as int),
                ),
            forall|i: int|
                r <= i < self.axis(axis as int).seq().len() ==> (#[trigger] self.axis(
                    axis as int,
                ).seq()[i]).0 > scan_bound(vec_axis(bounds.maxs, axis as int)),
    {
        let qmax = bounds.max_axis(axis);
        let qmax = if qmax == -1 {
            0
        } else {
            qmax
        };
        let n = if axis == 0 {
            self.by_min_x.count_key_le(qmax)
        } else if axis == 1 {
            self.by_min_y.count_key_le(qmax)
        } else {
            self.by_min_z.count_key_le(qmax)
        };
        proof {
            self.lemma_wf_axis(axis as int);
            lemma_axis_prefix(self.axis(axis as int).seq(), self.entries@, axis as int, qmax, n as int);
            assert(candidates(self@, bounds, axis as int) == Set::new(
                |id: u64| is_candidate(self.entries@, id, qmax, axis as int),
            ));
        }
        n
    }

    /// The axis with the fewest candidates for `bounds` (the first on a tie).
    pub fn best_axis(&self, bounds: Aabb) -> (r: usize)
        requires
            self.wf(),
        ensures
            r as int == best_axis_of(self@, bounds),
    {
        let c0 = self.candidate_count(bounds, 0);
        let c1 = self.candidate_count(bounds, 1);
        let c2 = self.candidate_count(bounds, 2);
        if c0 <= c1 && c0 <= c2 {
            0
        } else if c1 <= c2 {
            1
        } else {
            2
        }
    }

    fn axis_get(&self, axis: usize, i: usize) -> (r: (i64, u64))
        requires
            axis < 3,
            i < self.axis(axis as int).seq().len(),
        ensures
            r == self.axis(axis as int).seq()[i as int],
    {
        if axis == 0 {
            self.by_min_x.get(i)
        } else if axis == 1 {
            self.by_min_y.get(i)
        } else {
            self.by_min_z.get(i)
        }
    }

    /// The candidates on the best axis that meet `bounds`, in visiting order.
    fn candidate_hits(&self, bounds: Aabb) -> (r: Vec<u64>)
        requires
            self.wf(),
        ensures
            forall|i: int, j: int|
                0 <= i < j < r@.len() ==> visit_lt(
                    self@,
                    best_axis_of(self@, bounds),
                    #[trigger] r@[i],
                    #[trigger] r@[j],
                ),
            r@.no_duplicates(),
            forall|id: u64| #[trigger] r@.contains(id) <==> index_hits(self@, bounds).contains(id),
            r@.len() == index_hits(self@, bounds).len(),
            index_hits(self@, bounds).finite(),
    {
        let axis = self.best_axis(bounds);
        let n = self.candidate_count(bounds, axis);
        let ghost a = axis as int;
        let ghost s = self.axis(a).seq();
        let ghost m = self.entries@;
        proof {
            self.lemma_wf_axis(a);
        }
        let mut hits: Vec<u64> = Vec::new();
        let mut i: usize = 0;
        while i < n
            invariant
                self.wf(),
                a == axis as int,
                0 <= a < 3,
                s == self.axis(a).seq(),
                m == self.entries@,
                strictly_sorted(s),
                axis_matches(s, m, a),
                n <= s.len(),
                i <= n,
                forall|k: int| 0 <= k < n ==> (#[trigger] s[k]).0 <= scan_bound(vec_axis(bounds.maxs, a)),
                forall|k: int| #![trigger hits@[k]] 0 <= k < hits@.len() ==> exists|t: int| 0 <= t < i && (#[trigger] s[t]).1 == hits@[k],
                forall|k: int, l: int| 0 <= k < l < hits@.len() ==> visit_lt(m, a, #[trigger] hits@[k], #[trigger] hits@[l]),
                forall|k: int| 0 <= k < hits@.len() ==> axis_hits(m, bounds, a).contains(#[trigger] hits@[k]),
                forall|t: int| 0 <= t < i && boxes_intersect(m[(#[trigger] s[t]).1], bounds) ==> hits@.contains(s[t].1),
                forall|k: int| #![trigger hits@[k]] 0 <= k < hits@.len() ==> key_lt((vec_axis(m[hits@[k]].mins, a), hits@[k]), s[i as int]) || i == n,
            decreases n - i,
        {
            let p = self.axis_get(axis, i);
            assert(s.contains(p));
            let ghost old_hits = hits@;
            if self.intersects_id(p.1, bounds) {
                hits.push(p.1);
                assert forall|k: int, l: int| 0 <= k < l < hits@.len() implies visit_lt(m, a, #[trigger] hits@[k], #[trigger] hits@[l]) by {
                    if l == hits@.len() - 1 && k < l {
                        assert(key_lt((vec_axis(m[old_hits[k]].mins, a), old_hits[k]), s[i as int]));
                    }
                }
                assert(axis_hits(m, bounds, a).contains(p.1));
                assert forall|k: int| #![trigger hits@[k]] 0 <= k < hits@.len() implies exists|t: int| 0 <= t < i + 1 && (#[trigger] s[t]).1 == hits@[k] by {
                    if k == hits@.len() - 1 {
                        assert(s[i as int].1 == hits@[k]);
                    } else {
                        assert(old_hits[k] == hits@[k]);
                    }
                }
            }
            assert forall|t: int| 0 <= t < i + 1 && boxes_intersect(m[(#[trigger] s[t]).1], bounds) implies hits@.contains(s[t].1) by {
                if t < i {
                    assert(old_hits.contains(s[t].1));
                    let k = choose|k: int| 0 <= k < old_hits.len() && old_hits[k] == s[t].1;
                    assert(hits@[k] == s[t].1);
                } else {
                    assert(hits@[hits@.len() - 1] == s[t].1);
                }
            }
            if i + 1 < n {
                assert forall|k: int| #![trigger hits@[k]] 0 <= k < hits@.len() implies key_lt((vec_axis(m[hits@[k]].mins, a), hits@[k]), s[i + 1]) by {
                    let t = choose|t: int| 0 <= t < i + 1 && (#[trigger] s[t]).1 == hits@[k];
                    assert(s.contains(s[t]));
                    assert(key_lt(s[t], s[i + 1]));
                }
            }
            i = i + 1;
        }
        proof {
            lemma_axis_prefix(s, m, a, scan_bound(vec_axis(bounds.maxs, a)), n as int);
            assert forall|k: int, l: int| 0 <= k < hits@.len() && 0 <= l < hits@.len() && k != l implies hits@[k] != hits@[l] by {
                if k < l {
                    assert(visit_lt(m, a, hits@[k], hits@[l]));
                } else {
                    assert(visit_lt(m, a, hits@[l], hits@[k]));
                }
            }
            assert forall|id: u64| #[trigger] hits@.contains(id) <==> index_hits(self@, bounds).contains(id) by {
                if hits@.contains(id) {
                    let k = choose|k: int| 0 <= k < hits@.len() && hits@[k] == id;
                    assert(axis_hits(m, bounds, a).contains(hits@[k]));
                }
                if index_hits(self@, bounds).contains(id) {
                    assert(is_candidate(m, id, scan_bound(vec_axis(bounds.maxs, a)), a));
                    let t = choose|t: int| 0 <= t < n && (#[trigger] s[t]).1 == id;
                    assert(boxes_intersect(m[s[t].1], bounds));
                }
            }
            assert(index_hits(self@, bounds) =~= hits@.to_set());
            hits@.unique_seq_to_set();
        }
        hits
    }

    /// The number of stored boxes found by a query for `bounds` (at most `u32::MAX`).
    pub fn query_count(&self, bounds: Aabb) -> (r: u32)
        requires
            self.wf(),
        ensures
            r as int == fill_count(all_hits(self@, bounds).len() as int, u32::MAX as int),
    {
        proof {
            lemma_index_hits_complete(self@, bounds);
        }
        let hits = self.candidate_hits(bounds);
        if hits.len() <= u32::MAX as usize {
            hits.len() as u32
        } else {
            u32::MAX
        }
    }

    /// Writes the ids found for `bounds`, smallest first, into `out` from
    /// position `start` on, as many as fit; returns how many it wrote.
    pub fn query_at(&self, bounds: Aabb, out: &mut [u64], start: usize) -> (r: usize)
        requires
            self.wf(),
            start <= old(out)@.len(),
        ensures
            r as int == if all_hits(self@, bounds).len() <= old(out)@.len() - start {
                all_hits(self@, bounds).len() as int
            } else {
                old(out)@.len() - start
            },
            writes_smallest(final(out)@, old(out)@, start as int, r as int, all_hits(self@, bounds)),
    {
        proof {
            lemma_index_hits_complete(self@, bounds);
        }
        let hits = self.candidate_hits(bounds);
        let sorted = sort_distinct_ids(&hits);
        let olen = out.len();
        let room = olen - start;
        let written = if sorted.len() < room { sorted.len() } else { room };
        assert(start + written <= out@.len());
        let ghost old_out = out@;
        let ghost hs = index_hits(self@, bounds);
        let mut i: usize = 0;
        while i < written
            invariant
                written <= sorted@.len(),
                start + written <= olen,
                out@.len() == olen,
                out@.len() == old_out.len(),
                i <= written,
                forall|k: int| 0 <= k < start ==> out@[k] == old_out[k],
                forall|k: int| start + i <= k < out@.len() ==> out@[k] == old_out[k],
                forall|k: int| 0 <= k < i ==> out@[start + k] == sorted@[k],
            decreases written - i,
        {
            out[start + i] = sorted[i];
            i = i + 1;
        }
        proof {
            let w = written as int;
            assert(out@.subrange(start as int, start + w) =~= sorted@.subrange(0, w));
            assert forall|h: u64| #![trigger hs.contains(h)] hs.contains(h) implies out@.subrange(start as int, start + w).contains(h) || (start + w == out@.len() && forall|k: int| start <= k < start + w ==> out@[k] < h) by {
                assert(sorted@.contains(h));
                let j = choose|j: int| 0 <= j < sorted@.len() && sorted@[j] == h;
                if j < w {
                    assert(out@.subrange(start as int, start + w)[j] == h);
                } else {
                    assert forall|k: int| start <= k < start + w implies out@[k] < h by {
                        assert(out@[k] == sorted@[k - start]);
                    }
                }
            }
            assert forall|k: int| start <= k < start + w implies hs.contains(#[trigger] out@[k]) by {
                assert(out@[k] == sorted@[k - start]);
                assert(sorted@.contains(sorted@[k - start]));
            }
            assert forall|k: int, l: int| start <= k < l < start + w implies out@[k] < out@[l] by {
                assert(out@[k] == sorted@[k - start]);
                assert(out@[l] == sorted@[l - start]);
            }
        }
        written
    }

    /// Writes the ids found for `bounds`, smallest first, into `out`, as many
    /// as fit; returns how many it wrote.
    /// The count is returned as a `u32`, so a count past `u32::MAX` (possible
    /// only with a buffer that long) comes back cut to its low 32 bits.
    pub fn query(&self, bounds: Aabb, out_ids: &mut [u64]) -> (r: u32)
        requires
            self.wf(),
        ensures
            r == fill_count(all_hits(self@, bounds).len() as int, old(out_ids)@.len() as int) as u32,
            fill_count(all_hits(self@, bounds).len() as int, old(out_ids)@.len() as int) <= u32::MAX ==> r as int
                == fill_count(all_hits(self@, bounds).len() as int, old(out_ids)@.len() as int),
            writes_smallest(
                final(out_ids)@,
                old(out_ids)@,
                0,
                fill_count(all_hits(self@, bounds).len() as int, old(out_ids)@.len() as int),
                all_hits(self@, bounds),
            ),
    {
        proof {
            lemma_index_hits_complete(self@, bounds);
        }
        let written = self.query_at(bounds, out_ids, 0);
        written as u32
    }
    /// Writes the ids found for `bounds` into `out_ids` in visiting order (by
    /// minimum on the best axis, then by id), stopping when `out_ids` is full;
    /// returns how many it wrote.
    pub fn query_unsorted(&self, bounds: Aabb, out_ids: &mut [u64]) -> (r: u32)
        requires
            self.wf(),
            old(out_ids)@.len() <= u32::MAX,
        ensures
            r as int == if all_hits(self@, bounds).len() <= old(out_ids)@.len() {
                all_hits(self@, bounds).len() as int
            } else {
                old(out_ids)@.len() as int
            },
            unchanged_outside(final(out_ids)@, old(out_ids)@, 0, r as int),
            forall|i: int, j: int|
                0 <= i < j < r ==> visit_lt(
                    self@,
                    best_axis_of(self@, bounds),
                    #[trigger] final(out_ids)@[i],
                    #[trigger] final(out_ids)@[j],
                ),
            forall|i: int|
                0 <= i < r ==> all_hits(self@, bounds).contains(#[trigger] final(out_ids)@[i]),
            forall|h: u64|
                #![trigger all_hits(self@, bounds).contains(h)]
                all_hits(self@, bounds).contains(h) ==> final(out_ids)@.subrange(
                    0,
                    r as int,
                ).contains(h) || (r == old(out_ids)@.len() && forall|i: int|
                    0 <= i < r ==> visit_lt(
                        self@,
                        best_axis_of(self@, bounds),
                        #[trigger] final(out_ids)@[i],
                        h,
                    )),
    {
        proof {
            lemma_index_hits_complete(self@, bounds);
        }
        let axis = self.best_axis(bounds);
        let n = self.candidate_count(bounds, axis);
        let ghost a = axis as int;
        let ghost s = self.axis(a).seq();
        let ghost m = self.entries@;
        let ghost old_out = out_ids@;
        proof {
            self.lemma_wf_axis(a);
        }
        let olen = out_ids.len();
        let mut written: usize = 0;
        let mut i: usize = 0;
        while i < n
            invariant
                self.wf(),
                a == axis as int,
                0 <= a < 3,
                s == self.axis(a).seq(),
                m == self.entries@,
                strictly_sorted(s),
                axis_matches(s, m, a),
                n <= s.len(),
                i <= n,
                forall|k: int| 0 <= k < n ==> (#[trigger] s[k]).0 <= scan_bound(vec_axis(bounds.maxs, a)),
                olen == out_ids@.len(),
                olen == old_out.len(),
                olen <= u32::MAX,
                written <= olen,
                written <= i,
                forall|k: int| written <= k < olen ==> out_ids@[k] == old_out[k],
                forall|k: int|
                    #![trigger out_ids@[k]]
                    0 <= k < written ==> exists|t: int| 0 <= t < i && (#[trigger] s[t]).1 == out_ids@[k],
                forall|k: int, l: int|
                    0 <= k < l < written ==> visit_lt(m, a, #[trigger] out_ids@[k], #[trigger] out_ids@[l]),
                forall|k: int|
                    0 <= k < written ==> axis_hits(m, bounds, a).contains(#[trigger] out_ids@[k]),
                forall|t: int|
                    0 <= t < i && boxes_intersect(m[(#[trigger] s[t]).1], bounds) ==> out_ids@.subrange(
                        0,
                        written as int,
                    ).contains(s[t].1),
                forall|k: int|
                    #![trigger out_ids@[k]]
                    0 <= k < written ==> key_lt((vec_axis(m[out_ids@[k]].mins, a), out_ids@[k]), s[i as int]) || i == n,
            ensures
                i == n || written == olen,
            decreases n - i,
        {
            if written >= out_ids.len() {
                break;
            }
            let p = self.axis_get(axis, i);
            assert(s.contains(p));
            let ghost prev = out_ids@;
            let ghost prev_w = written as int;
            if self.intersects_id(p.1, bounds) {
                out_ids[written] = p.1;
                written = written + 1;
                assert(axis_hits(m, bounds, a).contains(p.1));
                assert forall|k: int, l: int|
                    0 <= k < l < written implies visit_lt(m, a, #[trigger] out_ids@[k], #[trigger] out_ids@[l]) by {
                    if l == prev_w {
                        assert(out_ids@[k] == prev[k]);
                    } else {
                        assert(out_ids@[k] == prev[k]);
                        assert(out_ids@[l] == prev[l]);
                    }
                }
                assert forall|k: int| #![trigger out_ids@[k]]
                    0 <= k < written implies exists|t: int| 0 <= t < i + 1 && (#[trigger] s[t]).1 == out_ids@[k] by {
                    if k == prev_w {
                        assert(s[i as int].1 == out_ids@[k]);
                    } else {
                        assert(prev[k] == out_ids@[k]);
                    }
                }
                assert forall|k: int| 0 <= k < written implies axis_hits(m, bounds, a).contains(#[trigger] out_ids@[k]) by {
                    if k < prev_w {
                        assert(prev[k] == out_ids@[k]);
                    }
                }
            }
            assert forall|t: int|
                0 <= t < i + 1 && boxes_intersect(m[(#[trigger] s[t]).1], bounds) implies out_ids@.subrange(
                    0,
                    written as int,
                ).contains(s[t].1) by {
                if t < i {
                    assert(prev.subrange(0, prev_w).contains(s[t].1));
                    let k = choose|k: int| 0 <= k < prev_w && prev.subrange(0, prev_w)[k] == s[t].1;
                    assert(out_ids@.subrange(0, written as int)[k] == s[t].1);
                } else {
                    assert(out_ids@.subrange(0, written as int)[prev_w] == s[t].1);
                }
            }
            if i + 1 < n {
                assert forall|k: int| #![trigger out_ids@[k]]
                    0 <= k < written implies key_lt((vec_axis(m[out_ids@[k]].mins, a), out_ids@[k]), s[i + 1]) by {
                    let t = choose|t: int| 0 <= t < i + 1 && (#[trigger] s[t]).1 == out_ids@[k];
                    assert(s.contains(s[t]));
                    if t < i + 1 {
                        assert(key_lt(s[t], s[i + 1]));
                    }
                }
            }
            i = i + 1;
        }
        proof {
            let qmax = scan_bound(vec_axis(bounds.maxs, a));
            lemma_axis_prefix(s, m, a, qmax, n as int);
            let hs = index_hits(self@, bounds);
            let w = out_ids@.subrange(0, written as int);
            assert(hs == axis_hits(m, bounds, a));
            assert(hs.subset_of(Set::new(|id: u64| is_candidate(m, id, qmax, a))));
            vstd::set_lib::lemma_len_subset(hs, Set::new(|id: u64| is_candidate(m, id, qmax, a)));
            assert(w.no_duplicates()) by {
                assert forall|k: int, l: int| 0 <= k < w.len() && 0 <= l < w.len() && k != l implies w[k] != w[l] by {
                    if k < l {
                        assert(visit_lt(m, a, out_ids@[k], out_ids@[l]));
                    } else {
                        assert(visit_lt(m, a, out_ids@[l], out_ids@[k]));
                    }
                }
            }
            w.unique_seq_to_set();
            assert(w.to_set().subset_of(hs)) by {
                assert forall|x: u64| w.to_set().contains(x) implies hs.contains(x) by {
                    let k = choose|k: int| 0 <= k < w.len() && w[k] == x;
                    assert(out_ids@[k] == x);
                }
            }
            vstd::set_lib::lemma_len_subset(w.to_set(), hs);
            assert forall|h: u64| #![trigger hs.contains(h)] hs.contains(h) implies w.contains(h) || (written == olen && forall|k: int| 0 <= k < written ==> visit_lt(m, a, #[trigger] out_ids@[k], h)) by {
                let t = choose|t: int| 0 <= t < n && (#[trigger] s[t]).1 == h;
                if t < i {
                    assert(boxes_intersect(m[s[t].1], bounds));
                } else {
                    assert(s.contains(s[t]));
                    assert forall|k: int| 0 <= k < written implies visit_lt(m, a, #[trigger] out_ids@[k], h) by {
                        assert(key_lt((vec_axis(m[out_ids@[k]].mins, a), out_ids@[k]), s[i as int]));
                        if t > i {
                            assert(key_lt(s[i as int], s[t]));
                        }
                    }
                }
            }
            if i == n {
                assert(w.to_set() =~= hs) by {
                    assert forall|x: u64| hs.contains(x) implies w.to_set().contains(x) by {
                        let t = choose|t: int| 0 <= t < n && (#[trigger] s[t]).1 == x;
                        assert(boxes_intersect(m[s[t].1], bounds));
                    }
                }
            }
        }
        written as u32
    }

    /// The list of `axis` holds as many pairs as there are stored boxes, and
    /// each pair is the minimum on `axis` of a stored box and its id.
    pub closed spec fn axis_agrees(&self, axis: int) -> bool {
        let s = self.axis(axis).seq();
        &&& s.len() == self.entries@.len()
        &&& forall|i: int|
            0 <= i < s.len() ==> self.entries@.contains_key((#[trigger] s[i]).1) && vec_axis(
                self.entries@[s[i].1].mins,
                axis,
            ) == s[i].0
    }

    /// Checks that every per-axis list agrees with the stored boxes
    /// (`axis_agrees` on each axis); a well-formed index always passes.
    pub fn check_invariants(&self) -> (r: bool)
        ensures
            r == (self.axis_agrees(0) && self.axis_agrees(1) && self.axis_agrees(2)),
            self.wf() ==> r,
    {
        let n = self.entries.len();
        let mut axis: usize = 0;
        let mut ok = true;
        while axis < 3
            invariant
                axis <= 3,
                n == self.entries@.len(),
                ok == forall|a: int| 0 <= a < axis ==> #[trigger] self.axis_agrees(a),
            decreases 3 - axis,
        {
            let len = if axis == 0 {
                self.by_min_x.len()
            } else if axis == 1 {
                self.by_min_y.len()
            } else {
                self.by_min_z.len()
            };
            let ghost ok0 = ok;
            if len != n {
                ok = false;
            }
            let mut i: usize = 0;
            while i < len
                invariant
                    axis < 3,
                    n == self.entries@.len(),
                    len == self.axis(axis as int).seq().len(),
                    i <= len,
                    ok == (ok0 && len == n && forall|j: int|
                        0 <= j < i ==> self.entries@.contains_key((#[trigger] self.axis(axis as int).seq()[j]).1)
                            && vec_axis(
                            self.entries@[self.axis(axis as int).seq()[j].1].mins,
                            axis as int,
                        ) == self.axis(axis as int).seq()[j].0),
                decreases len - i,
            {
                let p = self.axis_get(axis, i);
                let found = match self.entries.get(&p.1) {
                    Some(b) => b.min_axis(axis) == p.0,
                    None => false,
                };
                if !found {
                    ok = false;
                }
                i = i + 1;
            }
            proof {
                assert(ok == (ok0 && self.axis_agrees(axis as int)));
                assert(ok == forall|a: int| 0 <= a < axis + 1 ==> #[trigger] self.axis_agrees(a)) by {
                    if ok {
                        assert forall|a: int| 0 <= a < axis + 1 implies #[trigger] self.axis_agrees(a) by {
                            if a < axis {
                                assert(ok0);
                            }
                        }
                    } else if ok0 {
                        assert(!self.axis_agrees(axis as int));
                    } else {
                        let a = choose|a: int| 0 <= a < axis && !#[trigger] self.axis_agrees(a);
                        assert(!self.axis_agrees(a));
                    }
                }
            }
            axis = axis + 1;
        }
        proof {
            assert(ok == (self.axis_agrees(0) && self.axis_agrees(1) && self.axis_agrees(2))) by {
                if self.axis_agrees(0) && self.axis_agrees(1) && self.axis_agrees(2) {
                    assert forall|a: int| 0 <= a < 3 implies #[trigger] self.axis_agrees(a) by {
                        if a == 0 {
                        } else if a == 1 {
                        } else {
                        }
                    }
                }
            }
            if self.wf() {
                assert forall|a: int| 0 <= a < 3 implies #[trigger] self.axis_agrees(a) by {
                    let s = self.axis(a).seq();
                    self.lemma_wf_axis(a);
                    lemma_axis_prefix(s, self.entries@, a, i64::MAX, s.len() as int);
                    assert(Set::new(|id: u64| is_candidate(self.entries@, id, i64::MAX, a)) =~= self.entries@.dom());
                    assert forall|i: int| 0 <= i < s.len() implies self.entries@.contains_key((#[trigger] s[i]).1)
                        && vec_axis(self.entries@[s[i].1].mins, a) == s[i].0 by {
                        assert(s.contains(s[i]));
                    }
                }
            }
        }
        ok
    }
}

/// The index finds exactly the stored boxes that meet the query, whichever
/// axis it scans: every box that meets the query has its minimum at most the
/// query's maximum on each axis, and so is a candidate there.
pub proof fn lemma_index_hits_complete(m: Map<u64, Aabb>, q: Aabb)
    ensures
        index_hits(m, q) == all_hits(m, q),
        forall|axis: int| 0 <= axis < 3 ==> #[trigger] axis_hits(m, q, axis) == all_hits(m, q),
{
    assert forall|axis: int| 0 <= axis < 3 implies #[trigger] axis_hits(m, q, axis) == all_hits(m, q) by {
        assert forall|id: u64| m.contains_key(id) implies is_candidate(m, id, scan_bound(vec_axis(q.maxs, axis)), axis)
            == coord_le(vec_axis(m[id].mins, axis), vec_axis(q.maxs, axis)) by {
            lemma_scan_bound(vec_axis(m[id].mins, axis), vec_axis(q.maxs, axis));
        }
        assert(axis_hits(m, q, axis) =~= all_hits(m, q));
    }
    assert(index_hits(m, q) =~= all_hits(m, q));
}

/// The box a valid description stands for.
pub open spec fn desc_box(d: AabbDesc) -> Aabb {
    Aabb { mins: d.mins, maxs: d.maxs }
}

/// `x` capped at `u32::MAX`.
pub open spec fn cap_u32(x: int) -> int {
    if x <= u32::MAX {
        x
    } else {
        u32::MAX as int
    }
}

/// A new, empty index.
pub fn crb_tree_create() -> (r: CRbTreeIndex)
    ensures
        r.wf(),
        r@ == Map::<u64, Aabb>::empty(),
{
    CRbTreeIndex::new()
}

/// Removes every box.
pub fn crb_tree_clear(tree: &mut CRbTreeIndex)
    requires
        old(tree).wf(),
    ensures
        final(tree).wf(),
        final(tree)@ == Map::<u64, Aabb>::empty(),
{
    tree.clear();
}

/// The number of stored boxes, capped at `u32::MAX`.
pub fn crb_tree_len(tree: &CRbTreeIndex) -> (r: u32)
    ensures
        r as int == cap_u32(tree@.len() as int),
{
    let n = tree.len();
    if n <= u32::MAX as usize {
        n as u32
    } else {
        u32::MAX
    }
}

/// Stores a valid box under a non-zero id (replacing what was there);
/// `TRUE` exactly when it did.
pub fn crb_tree_insert(tree: &mut CRbTreeIndex, id: u64, aabb: AabbDesc) -> (r: Bool)
    requires
        old(tree).wf(),
    ensures
        final(tree).wf(),
        r == bool_of(id != 0 && desc_is_valid(aabb)),
        final(tree)@ == if id != 0 && desc_is_valid(aabb) {
            old(tree)@.insert(id, desc_box(aabb))
        } else {
            old(tree)@
        },
{
    match Aabb::from_desc(aabb) {
        Some(bounds) => Bool::from_bool(tree.insert(id, bounds)),
        None => Bool(0),
    }
}

/// Replaces the box of a stored id with a valid one; `TRUE` exactly when it did.
pub fn crb_tree_update(tree: &mut CRbTreeIndex, id: u64, aabb: AabbDesc) -> (r: Bool)
    requires
        old(tree).wf(),
    ensures
        final(tree).wf(),
        r == bool_of(old(tree)@.contains_key(id) && desc_is_valid(aabb)),
        final(tree)@ == if old(tree)@.contains_key(id) && desc_is_valid(aabb) {
            old(tree)@.insert(id, desc_box(aabb))
        } else {
            old(tree)@
        },
{
    if !tree.contains(id) {
        return Bool(0);
    }
    match Aabb::from_desc(aabb) {
        Some(bounds) => Bool::from_bool(tree.insert(id, bounds)),
        None => Bool(0),
    }
}

/// The boxes after the first `n` updates of a batch, and how many took effect.
pub open spec fn update_batch_state(
    m: Map<u64, Aabb>,
    ids: Seq<u64>,
    aabbs: Seq<AabbDesc>,
    n: int,
) -> (Map<u64, Aabb>, int)
    decreases n,
{
    if n <= 0 {
        (m, 0)
    } else {
        let (prev, c) = update_batch_state(m, ids, aabbs, n - 1);
        if prev.contains_key(ids[n - 1]) && desc_is_valid(aabbs[n - 1]) {
            (prev.insert(ids[n - 1], desc_box(aabbs[n - 1])), c + 1)
        } else {
            (prev, c)
        }
    }
}

/// Applies `crb_tree_update` to each pair of `ids` and `aabbs` in order;
/// returns how many took effect.
pub fn crb_tree_update_batch(tree: &mut CRbTreeIndex, ids: &[u64], aabbs: &[AabbDesc]) -> (r: u32)
    requires
        old(tree).wf(),
        ids@.len() == aabbs@.len(),
        ids@.len() <= u32::MAX,
    ensures
        final(tree).wf(),
        (final(tree)@, r as int) == update_batch_state(old(tree)@, ids@, aabbs@, ids@.len() as int),
{
    let mut updated: u32 = 0;
    let mut i: usize = 0;
    let ghost m0 = tree@;
    while i < ids.len()
        invariant
            tree.wf(),
            ids@.len() == aabbs@.len(),
            ids@.len() <= u32::MAX,
            i <= ids@.len(),
            updated <= i,
            (tree@, updated as int) == update_batch_state(m0, ids@, aabbs@, i as int),
        decreases ids@.len() - i,
    {
        let id = ids[i];
        let aabb = aabbs[i];
        if tree.contains(id) {
            match Aabb::from_desc(aabb) {
                Some(bounds) => {
                    if tree.insert(id, bounds) {
                        updated = updated + 1;
                    }
                },
                None => {},
            }
        }
        i = i + 1;
    }
    updated
}

/// Removes `id`; `TRUE` exactly when it was stored.
pub fn crb_tree_remove(tree: &mut CRbTreeIndex, id: u64) -> (r: Bool)
    requires
        old(tree).wf(),
    ensures
        final(tree).wf(),
        r == bool_of(old(tree)@.contains_key(id)),
        final(tree)@ == old(tree)@.remove(id),
{
    Bool::from_bool(tree.remove(id))
}

/// The boxes after the first `n` removals of a batch, and how many ids were stored.
pub open spec fn remove_batch_state(m: Map<u64, Aabb>, ids: Seq<u64>, n: int) -> (Map<u64, Aabb>, int)
    decreases n,
{
    if n <= 0 {
        (m, 0)
    } else {
        let (prev, c) = remove_batch_state(m, ids, n - 1);
        if prev.contains_key(ids[n - 1]) {
            (prev.remove(ids[n - 1]), c + 1)
        } else {
            (prev, c)
        }
    }
}

/// Removes each id in order; returns how many were stored.
pub fn crb_tree_remove_batch(tree: &mut CRbTreeIndex, ids: &[u64]) -> (r: u32)
    requires
        old(tree).wf(),
        ids@.len() <= u32::MAX,
    ensures
        final(tree).wf(),
        (final(tree)@, r as int) == remove_batch_state(old(tree)@, ids@, ids@.len() as int),
{
    let mut removed: u32 = 0;
    let mut i: usize = 0;
    let ghost m0 = tree@;
    while i < ids.len()
        invariant
            tree.wf(),
            ids@.len() <= u32::MAX,
            i <= ids@.len(),
            removed <= i,
            (tree@, removed as int) == remove_batch_state(m0, ids@, i as int),
        decreases ids@.len() - i,
    {
        if tree.remove(ids[i]) {
            removed = removed + 1;
        }
        i = i + 1;
    }
    removed
}

/// The number of boxes a query finds for a valid description (0 for an invalid one).
pub open spec fn query_count_of(m: Map<u64, Aabb>, d: AabbDesc) -> int {
    if desc_is_valid(d) {
        cap_u32(all_hits(m, desc_box(d)).len() as int)
    } else {
        0
    }
}

/// How many stored boxes meet `aabb` (0 when `aabb` is invalid).
pub fn crb_tree_query_aabb_count(tree: &CRbTreeIndex, aabb: AabbDesc) -> (r: u32)
    requires
        tree.wf(),
    ensures
        r as int == query_count_of(tree@, aabb),
{
    match Aabb::from_desc(aabb) {
        Some(bounds) => tree.query_count(bounds),
        None => 0,
    }
}

/// Writes `crb_tree_query_aabb_count` of each description into `out_counts`;
/// returns how many it wrote.
pub fn crb_tree_query_aabb_counts(tree: &CRbTreeIndex, aabbs: &[AabbDesc], out_counts: &mut [u32]) -> (r: u32)
    requires
        tree.wf(),
        old(out_counts)@.len() == aabbs@.len(),
        aabbs@.len() <= u32::MAX,
    ensures
        r == aabbs@.len(),
        final(out_counts)@.len() == aabbs@.len(),
        forall|i: int|
            0 <= i < aabbs@.len() ==> #[trigger] final(out_counts)@[i] as int == query_count_of(
                tree@,
                aabbs@[i],
            ),
{
    let mut written: u32 = 0;
    let mut i: usize = 0;
    while i < aabbs.len()
        invariant
            tree.wf(),
            out_counts@.len() == aabbs@.len(),
            aabbs@.len() <= u32::MAX,
            i <= aabbs@.len(),
            written == i,
            forall|k: int| 0 <= k < i ==> #[trigger] out_counts@[k] as int == query_count_of(tree@, aabbs@[k]),
        decreases aabbs@.len() - i,
    {
        let c = match Aabb::from_desc(aabbs[i]) {
            Some(bounds) => tree.query_count(bounds),
            None => 0,
        };
        out_counts[i] = c;
        written = written + 1;
        i = i + 1;
    }
    written
}

/// The ids a query finds for a valid description (none for an invalid one).
pub open spec fn query_hits_of(m: Map<u64, Aabb>, d: AabbDesc) -> Set<u64> {
    if desc_is_valid(d) {
        all_hits(m, desc_box(d))
    } else {
        Set::empty()
    }
}

/// Writes the ids of stored boxes that meet `aabb`, smallest first, as many
/// as fit; nothing for an invalid `aabb`. Returns how many it wrote.
pub fn crb_tree_query_aabb(tree: &CRbTreeIndex, aabb: AabbDesc, out_ids: &mut [u64]) -> (r: u32)
    requires
        tree.wf(),
        old(out_ids)@.len() <= u32::MAX,
    ensures
        r as int == if query_hits_of(tree@, aabb).len() <= old(out_ids)@.len() {
            query_hits_of(tree@, aabb).len() as int
        } else {
            old(out_ids)@.len() as int
        },
        writes_smallest(final(out_ids)@, old(out_ids)@, 0, r as int, query_hits_of(tree@, aabb)),
{
    match Aabb::from_desc(aabb) {
        Some(bounds) => tree.query(bounds, out_ids),
        None => {
            assert(query_hits_of(tree@, aabb) =~= Set::<u64>::empty());
            0
        },
    }
}

/// Writes the ids of stored boxes that meet `aabb` in visiting order (by
/// minimum on the best axis, then by id), as many as fit; nothing for an
/// invalid `aabb`. Returns how many it wrote.
pub fn crb_tree_query_aabb_unsorted(tree: &CRbTreeIndex, aabb: AabbDesc, out_ids: &mut [u64]) -> (r: u32)
    requires
        tree.wf(),
        old(out_ids)@.len() <= u32::MAX,
    ensures
        desc_is_valid(aabb) ==> {
            let q = desc_box(aabb);
            let hs = all_hits(tree@, q);
            let a = best_axis_of(tree@, q);
            &&& r as int == if hs.len() <= old(out_ids)@.len() {
                hs.len() as int
            } else {
                old(out_ids)@.len() as int
            }
            &&& unchanged_outside(final(out_ids)@, old(out_ids)@, 0, r as int)
            &&& forall|i: int, j: int|
                0 <= i < j < r ==> visit_lt(tree@, a, #[trigger] final(out_ids)@[i], #[trigger] final(out_ids)@[j])
            &&& forall|i: int| 0 <= i < r ==> hs.contains(#[trigger] final(out_ids)@[i])
            &&& forall|h: u64|
                #![trigger hs.contains(h)]
                hs.contains(h) ==> final(out_ids)@.subrange(0, r as int).contains(h) || (r
                    == old(out_ids)@.len() && forall|i: int|
                    0 <= i < r ==> visit_lt(tree@, a, #[trigger] final(out_ids)@[i], h))
        },
        !desc_is_valid(aabb) ==> r == 0 && final(out_ids)@ == old(out_ids)@,
{
    match Aabb::from_desc(aabb) {
        Some(bounds) => tree.query_unsorted(bounds, out_ids),
        None => 0,
    }
}

/// Where the ids of query `n` of a batch start in the shared id buffer of
/// length `cap` (each query takes as many of its hits as still fit).
pub open spec fn batch_offset(m: Map<u64, Aabb>, qs: Seq<AabbDesc>, cap: int, n: int) -> int
    decreases n,
{
    if n <= 0 {
        0
    } else {
        let w = batch_offset(m, qs, cap, n - 1);
        let k = query_hits_of(m, qs[n - 1]).len() as int;
        if k <= cap - w {
            w + k
        } else {
            cap
        }
    }
}

proof fn lemma_batch_offset_bounds(m: Map<u64, Aabb>, qs: Seq<AabbDesc>, cap: int, n: int)
    requires
        0 <= cap,
    ensures
        0 <= batch_offset(m, qs, cap, n) <= cap,
        n > 0 ==> batch_offset(m, qs, cap, n - 1) <= batch_offset(m, qs, cap, n),
    decreases n,
{
    if n > 0 {
        lemma_batch_offset_bounds(m, qs, cap, n - 1);
    }
}

proof fn lemma_batch_offset_full(m: Map<u64, Aabb>, qs: Seq<AabbDesc>, cap: int, i: int, j: int)
    requires
        0 <= cap,
        0 <= i <= j,
        batch_offset(m, qs, cap, i) >= cap,
    ensures
        batch_offset(m, qs, cap, j) == cap,
    decreases j - i,
{
    lemma_batch_offset_bounds(m, qs, cap, i);
    if j > i {
        lemma_batch_offset_full(m, qs, cap, i, j - 1);
    }
}

/// Runs the queries of `aabbs` in order, writing the ids each finds
/// (smallest first) one after another into `out_ids` while room is left, and
/// where each query's ids start into `out_offsets` (with the end after the
/// last). Returns the number of queries.
pub fn crb_tree_query_aabbs(
    tree: &CRbTreeIndex,
    aabbs: &[AabbDesc],
    out_offsets: &mut [u32],
    out_ids: &mut [u64],
) -> (r: u32)
    requires
        tree.wf(),
        aabbs@.len() <= u32::MAX,
        old(out_offsets)@.len() == aabbs@.len() + 1,
        old(out_ids)@.len() <= u32::MAX,
    ensures
        r == aabbs@.len(),
        final(out_offsets)@.len() == old(out_offsets)@.len(),
        final(out_ids)@.len() == old(out_ids)@.len(),
        forall|j: int|
            0 <= j <= aabbs@.len() ==> #[trigger] final(out_offsets)@[j] as int == batch_offset(
                tree@,
                aabbs@,
                old(out_ids)@.len() as int,
                j,
            ),
        forall|j: int|
            0 <= j < aabbs@.len() ==> window_ok(
                final(out_ids)@,
                #[trigger] batch_offset(tree@, aabbs@, old(out_ids)@.len() as int, j),
                batch_offset(tree@, aabbs@, old(out_ids)@.len() as int, j + 1) - batch_offset(
                    tree@,
                    aabbs@,
                    old(out_ids)@.len() as int,
                    j,
                ),
                query_hits_of(tree@, aabbs@[j]),
            ),
        forall|i: int|
            batch_offset(tree@, aabbs@, old(out_ids)@.len() as int, aabbs@.len() as int) <= i
                < old(out_ids)@.len() ==> #[trigger] final(out_ids)@[i] == old(out_ids)@[i],
{
    let ghost m = tree@;
    let ghost qs = aabbs@;
    let ghost cap = out_ids@.len() as int;
    let ghost old_ids = out_ids@;
    let count = aabbs.len();
    let mut written: usize = 0;
    out_offsets[0] = 0;
    let mut i: usize = 0;
    while i < count
        invariant_except_break
            i <= count,
            written as int == batch_offset(m, qs, cap, i as int),
            forall|j: int| 0 <= j <= i ==> #[trigger] out_offsets@[j] as int == batch_offset(m, qs, cap, j),
            forall|j: int|
                0 <= j < i ==> window_ok(
                    out_ids@,
                    #[trigger] batch_offset(m, qs, cap, j),
                    batch_offset(m, qs, cap, j + 1) - batch_offset(m, qs, cap, j),
                    query_hits_of(m, qs[j]),
                ),
            forall|k: int| written <= k < cap ==> #[trigger] out_ids@[k] == old_ids[k],
        invariant
            tree.wf(),
            m == tree@,
            qs == aabbs@,
            count == aabbs@.len(),
            count <= u32::MAX,
            cap == out_ids@.len(),
            cap <= u32::MAX,
            out_offsets@.len() == count + 1,
            out_ids@.len() == cap,
        ensures
            forall|j: int| 0 <= j <= count ==> #[trigger] out_offsets@[j] as int == batch_offset(m, qs, cap, j),
            forall|j: int|
                0 <= j < count ==> window_ok(
                    out_ids@,
                    #[trigger] batch_offset(m, qs, cap, j),
                    batch_offset(m, qs, cap, j + 1) - batch_offset(m, qs, cap, j),
                    query_hits_of(m, qs[j]),
                ),
            forall|k: int| batch_offset(m, qs, cap, count as int) <= k < cap ==> #[trigger] out_ids@[k] == old_ids[k],
        decreases count - i,
    {
        proof {
            lemma_batch_offset_bounds(m, qs, cap, i as int);
            lemma_batch_offset_bounds(m, qs, cap, i + 1);
        }
        let ghost before = out_ids@;
        let ghost w0 = written as int;
        match Aabb::from_desc(aabbs[i]) {
            Some(bounds) => {
                let got = tree.query_at(bounds, out_ids, written);
                written = written + got;
            },
            None => {
                assert(query_hits_of(m, qs[i as int]) =~= Set::<u64>::empty());
                assert(out_ids@.subrange(w0, w0) =~= Seq::<u64>::empty());
            },
        }
        proof {
            lemma_windows_kept(before, out_ids@, m, qs, cap, i as int);
        }
        let off: u32 = if written <= u32::MAX as usize { written as u32 } else { u32::MAX };
        out_offsets[i + 1] = off;
        if written >= out_ids.len() {
            fill_offsets_after_full(out_offsets, Ghost(m), Ghost(qs), Ghost(cap), i, off);
            proof {
                lemma_windows_after_full(out_ids@, m, qs, cap, i as int, count as int);
                lemma_batch_offset_full(m, qs, cap, i + 1, count as int);
            }
            break;
        }
        i = i + 1;
    }
    count as u32
}

/// Writing a window at the current offset keeps the windows of earlier queries.
proof fn lemma_windows_kept(
    before: Seq<u64>,
    after: Seq<u64>,
    m: Map<u64, Aabb>,
    qs: Seq<AabbDesc>,
    cap: int,
    i: int,
)
    requires
        0 <= i < qs.len(),
        cap == before.len(),
        after.len() == before.len(),
        forall|j: int|
            0 <= j < i ==> window_ok(
                before,
                #[trigger] batch_offset(m, qs, cap, j),
                batch_offset(m, qs, cap, j + 1) - batch_offset(m, qs, cap, j),
                query_hits_of(m, qs[j]),
            ),
        forall|k: int| 0 <= k < batch_offset(m, qs, cap, i) ==> after[k] == before[k],
        window_ok(
            after,
            batch_offset(m, qs, cap, i),
            batch_offset(m, qs, cap, i + 1) - batch_offset(m, qs, cap, i),
            query_hits_of(m, qs[i]),
        ),
    ensures
        forall|j: int|
            0 <= j < i + 1 ==> window_ok(
                after,
                #[trigger] batch_offset(m, qs, cap, j),
                batch_offset(m, qs, cap, j + 1) - batch_offset(m, qs, cap, j),
                query_hits_of(m, qs[j]),
            ),
{
    assert forall|j: int|
        0 <= j < i + 1 implies window_ok(
            after,
            #[trigger] batch_offset(m, qs, cap, j),
            batch_offset(m, qs, cap, j + 1) - batch_offset(m, qs, cap, j),
            query_hits_of(m, qs[j]),
        ) by {
        if j < i {
            lemma_batch_offset_bounds(m, qs, cap, j + 1);
            lemma_batch_offset_monotone(m, qs, cap, j + 1, i);
            let st = batch_offset(m, qs, cap, j);
            let wj = batch_offset(m, qs, cap, j + 1) - st;
            assert(window_ok(before, st, wj, query_hits_of(m, qs[j])));
            assert(after.subrange(st, st + wj) =~= before.subrange(st, st + wj));
        }
    }
}

/// Once the buffer is full, every later query gets an empty window at its end.
proof fn lemma_windows_after_full(
    out: Seq<u64>,
    m: Map<u64, Aabb>,
    qs: Seq<AabbDesc>,
    cap: int,
    i: int,
    count: int,
)
    requires
        0 <= i < count,
        cap == out.len(),
        batch_offset(m, qs, cap, i + 1) >= cap,
    ensures
        forall|j: int|
            i < j < count ==> window_ok(
                out,
                #[trigger] batch_offset(m, qs, cap, j),
                batch_offset(m, qs, cap, j + 1) - batch_offset(m, qs, cap, j),
                query_hits_of(m, qs[j]),
            ),
{
    assert forall|j: int|
        i < j < count implies window_ok(
            out,
            #[trigger] batch_offset(m, qs, cap, j),
            batch_offset(m, qs, cap, j + 1) - batch_offset(m, qs, cap, j),
            query_hits_of(m, qs[j]),
        ) by {
        lemma_batch_offset_full(m, qs, cap, i + 1, j);
        lemma_batch_offset_full(m, qs, cap, i + 1, j + 1);
        assert(out.subrange(cap, cap) =~= Seq::<u64>::empty());
    }
}

/// Sets the offsets after query `i` to `off` once the id buffer is full.
fn fill_offsets_after_full(
    out_offsets: &mut [u32],
    Ghost(m): Ghost<Map<u64, Aabb>>,
    Ghost(qs): Ghost<Seq<AabbDesc>>,
    Ghost(cap): Ghost<int>,
    i: usize,
    off: u32,
)
    requires
        old(out_offsets)@.len() == qs.len() + 1,
        i < qs.len(),
        0 <= cap,
        off as int == batch_offset(m, qs, cap, i + 1),
        off as int >= cap,
    ensures
        final(out_offsets)@.len() == old(out_offsets)@.len(),
        forall|k: int| 0 <= k <= i + 1 ==> #[trigger] final(out_offsets)@[k] == old(out_offsets)@[k],
        forall|k: int| i + 2 <= k <= qs.len() ==> #[trigger] final(out_offsets)@[k] as int == batch_offset(m, qs, cap, k),
{
    let n = out_offsets.len();
    let mut j: usize = i + 2;
    let ghost old_off = out_offsets@;
    while j < n
        invariant
            n == out_offsets@.len(),
            n == qs.len() + 1,
            old_off.len() == n,
            i + 2 <= j,
            i < qs.len(),
            0 <= cap,
            off as int == batch_offset(m, qs, cap, i + 1),
            off as int >= cap,
            forall|k: int| 0 <= k <= i + 1 ==> #[trigger] out_offsets@[k] == old_off[k],
            forall|k: int| i + 2 <= k < j && k < n ==> #[trigger] out_offsets@[k] as int == batch_offset(m, qs, cap, k),
        decreases n - j,
    {
        proof {
            lemma_batch_offset_full(m, qs, cap, i + 1, j as int);
        }
        out_offsets[j] = off;
        j = j + 1;
    }
}

proof fn lemma_batch_offset_monotone(m: Map<u64, Aabb>, qs: Seq<AabbDesc>, cap: int, i: int, j: int)
    requires
        0 <= cap,
        i <= j,
    ensures
        batch_offset(m, qs, cap, i) <= batch_offset(m, qs, cap, j),
    decreases j - i,
{
    if i < j {
        lemma_batch_offset_monotone(m, qs, cap, i, j - 1);
        lemma_batch_offset_bounds(m, qs, cap, j);
    }
}

/// What a query reads back of an insert: after storing `bounds` under `id`,
/// the boxes meeting `q` are those met before, apart from `id`, which is met
/// exactly when `bounds` meets `q`.
pub proof fn lemma_query_after_insert(m: Map<u64, Aabb>, id: u64, bounds: Aabb, q: Aabb)
    ensures
        all_hits(m.insert(id, bounds), q) == if boxes_intersect(bounds, q) {
            all_hits(m, q).insert(id)
        } else {
            all_hits(m, q).remove(id)
        },
{
    assert(all_hits(m.insert(id, bounds), q) =~= if boxes_intersect(bounds, q) {
        all_hits(m, q).insert(id)
    } else {
        all_hits(m, q).remove(id)
    });
}

/// What a query reads back of a removal: the boxes met are those met before,
/// without `id`.
pub proof fn lemma_query_after_remove(m: Map<u64, Aabb>, id: u64, q: Aabb)
    ensures
        all_hits(m.remove(id), q) == all_hits(m, q).remove(id),
{
    assert(all_hits(m.remove(id), q) =~= all_hits(m, q).remove(id));
}

} // verus!
