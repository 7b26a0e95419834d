//! A bounding-volume tree over boxes, rebuilt lazily after changes.
use std::collections::HashMap;
use vstd::prelude::*;
use crate::ffi::{Bool, bool_of};
use crate::crbtree::{cap_u32, desc_box};
use crate::sorted_keys::key_lt;
use crate::geometry::{
    Aabb, AabbDesc, box_contains, boxes_intersect, desc_is_valid, lemma_contained_intersects,
    lemma_contains_trans,
};

verus! {

/// Leaves hold at most this many entries, branches at most this many children.
pub const MAX_CHILDREN: usize = 8;

/// Up to this many entries, queries scan the entries instead of the tree.
pub const LINEAR_SCAN_LIMIT: usize = 16;

#[derive(Clone, Copy, Debug, PartialEq, Eq, Structural)]
pub struct Entry {
    pub id: u64,
    pub bounds: Aabb,
}

#[derive(Debug)]
pub enum NodeKind {
    /// Positions in the entry list.
    Leaf(Vec<usize>),
    Branch(Vec<Node>),
}

#[derive(Debug)]
pub struct Node {
    pub bounds: Aabb,
    pub kind: NodeKind,
}

/// The entry positions under a node, left to right.
pub open spec fn node_leaves(n: Node) -> Seq<usize>
    decreases n, 0int,
{
    match n.kind {
        NodeKind::Leaf(ix) => ix@,
        NodeKind::Branch(ch) => children_leaves(ch@, ch@.len() as int),
    }
}

/// The entry positions under the first `k` children, left to right.
pub open spec fn children_leaves(ch: Seq<Node>, k: int) -> Seq<usize>
    decreases ch, k,
{
    if k <= 0 || k > ch.len() {
        Seq::empty()
    } else {
        children_leaves(ch, k - 1) + node_leaves(ch[k - 1])
    }
}

/// Every leaf position is in range, every entry lies in the bounds of each
/// node above it, and every child lies in its parent's bounds.
pub open spec fn node_wf(n: Node, entries: Seq<Entry>) -> bool
    decreases n, 0int,
{
    match n.kind {
        NodeKind::Leaf(ix) => forall|k: int|
            0 <= k < ix@.len() ==> (#[trigger] ix@[k]) < entries.len() && box_contains(
                n.bounds,
                entries[ix@[k] as int].bounds,
            ),
        NodeKind::Branch(ch) => children_wf(ch@, ch@.len() as int, n.bounds, entries),
    }
}

/// The first `k` children are well formed and lie in `outer`.
pub open spec fn children_wf(ch: Seq<Node>, k: int, outer: Aabb, entries: Seq<Entry>) -> bool
    decreases ch, k,
{
    if k <= 0 || k > ch.len() {
        true
    } else {
        children_wf(ch, k - 1, outer, entries) && node_wf(ch[k - 1], entries) && box_contains(
            outer,
            ch[k - 1].bounds,
        )
    }
}

/// Every leaf under `n` holds one to `MAX_CHILDREN` positions.
pub open spec fn leaves_sized(n: Node) -> bool
    decreases n, 0int,
{
    match n.kind {
        NodeKind::Leaf(ix) => 1 <= ix@.len() <= MAX_CHILDREN,
        NodeKind::Branch(ch) => children_sized(ch@, ch@.len() as int),
    }
}

/// Every leaf under the first `k` children holds one to `MAX_CHILDREN` positions.
pub open spec fn children_sized(ch: Seq<Node>, k: int) -> bool
    decreases ch, k,
{
    if k <= 0 || k > ch.len() {
        true
    } else {
        children_sized(ch, k - 1) && leaves_sized(ch[k - 1])
    }
}

/// A branch's bounds are exactly the union of its children's bounds.
pub open spec fn branch_bounds_tight(n: Node) -> bool {
    match n.kind {
        NodeKind::Leaf(_) => true,
        NodeKind::Branch(ch) => bounds_all(n.bounds, node_boxes(ch@)) && bounds_tight(n.bounds, node_boxes(ch@)),
    }
}

proof fn lemma_children_sized_from(ch: Seq<Node>, k: int)
    requires
        0 <= k <= ch.len(),
        forall|j: int| 0 <= j < k ==> leaves_sized(#[trigger] ch[j]),
    ensures
        children_sized(ch, k),
    decreases k,
{
    if k > 0 {
        lemma_children_sized_from(ch, k - 1);
    }
}

/// The number of nodes of a tree.
pub open spec fn spec_node_count(n: Node) -> int
    decreases n, 0int,
{
    match n.kind {
        NodeKind::Leaf(_) => 1,
        NodeKind::Branch(ch) => 1 + children_node_count(ch@, ch@.len() as int),
    }
}

/// The number of nodes under the first `k` children.
pub open spec fn children_node_count(ch: Seq<Node>, k: int) -> int
    decreases ch, k,
{
    if k <= 0 || k > ch.len() {
        0
    } else {
        children_node_count(ch, k - 1) + spec_node_count(ch[k - 1])
    }
}

/// The number of levels of a tree (a leaf has one).
pub open spec fn spec_node_height(n: Node) -> int
    decreases n, 0int,
{
    match n.kind {
        NodeKind::Leaf(_) => 1,
        NodeKind::Branch(ch) => 1 + children_max_height(ch@, ch@.len() as int),
    }
}

/// The greatest height among the first `k` children (0 for none).
pub open spec fn children_max_height(ch: Seq<Node>, k: int) -> int
    decreases ch, k,
{
    if k <= 0 || k > ch.len() {
        0
    } else {
        let a = children_max_height(ch, k - 1);
        let b = spec_node_height(ch[k - 1]);
        if a >= b {
            a
        } else {
            b
        }
    }
}

/// The ids of the entries at positions `ix` (in that order) whose boxes meet `q`.
pub open spec fn hits_in(ix: Seq<usize>, entries: Seq<Entry>, q: Aabb) -> Seq<u64>
    decreases ix.len(),
{
    if ix.len() == 0 {
        Seq::empty()
    } else {
        let rest = hits_in(ix.drop_last(), entries, q);
        let i = ix.last() as int;
        if i < entries.len() && boxes_intersect(entries[i].bounds, q) {
            rest.push(entries[i].id)
        } else {
            rest
        }
    }
}

/// Position `i` holds an entry whose box meets `q`.
pub open spec fn is_hit(entries: Seq<Entry>, i: int, q: Aabb) -> bool {
    0 <= i < entries.len() && boxes_intersect(entries[i].bounds, q)
}

/// No two entries share an id.
pub open spec fn ids_distinct(entries: Seq<Entry>) -> bool {
    forall|i: int, j: int|
        0 <= i < entries.len() && 0 <= j < entries.len() && i != j ==> #[trigger] entries[i].id
            != #[trigger] entries[j].id
}

/// The positions `0, 1, .., n - 1`.
pub open spec fn all_positions(n: int) -> Seq<usize> {
    Seq::new(n as nat, |i: int| i as usize)
}

/// The ids, in entry order, of the entries whose boxes meet `q`.
pub open spec fn scan_hits(entries: Seq<Entry>, q: Aabb) -> Seq<u64> {
    hits_in(all_positions(entries.len() as int), entries, q)
}

/// A query finds at most as many ids as the positions it looks at.
pub proof fn lemma_hits_in_len(ix: Seq<usize>, entries: Seq<Entry>, q: Aabb)
    ensures
        hits_in(ix, entries, q).len() <= ix.len(),
    decreases ix.len(),
{
    if ix.len() > 0 {
        lemma_hits_in_len(ix.drop_last(), entries, q);
    }
}

/// Hits of a concatenation are the hits of the parts, in order.
pub proof fn lemma_hits_in_concat(a: Seq<usize>, b: Seq<usize>, entries: Seq<Entry>, q: Aabb)
    ensures
        hits_in(a + b, entries, q) == hits_in(a, entries, q) + hits_in(b, entries, q),
    decreases b.len(),
{
    if b.len() == 0 {
        assert(a + b =~= a);
        assert(hits_in(b, entries, q) =~= Seq::<u64>::empty());
    } else {
        assert((a + b).drop_last() =~= a + b.drop_last());
        lemma_hits_in_concat(a, b.drop_last(), entries, q);
        assert((a + b).last() == b.last());
    }
}

/// An id is a hit of `ix` exactly when some position of `ix` holds an entry
/// with that id whose box meets `q`.
pub proof fn lemma_hits_in_contains(ix: Seq<usize>, entries: Seq<Entry>, q: Aabb)
    ensures
        forall|x: u64|
            #[trigger] hits_in(ix, entries, q).contains(x) <==> exists|k: int|
                0 <= k < ix.len() && is_hit(entries, #[trigger] ix[k] as int, q)
                    && entries[ix[k] as int].id == x,
    decreases ix.len(),
{
    if ix.len() > 0 {
        let rest = ix.drop_last();
        lemma_hits_in_contains(rest, entries, q);
        let i = ix.last() as int;
        let hr = hits_in(rest, entries, q);
        let h = hits_in(ix, entries, q);
        assert forall|x: u64| #[trigger] h.contains(x) implies exists|k: int|
                0 <= k < ix.len() && is_hit(entries, #[trigger] ix[k] as int, q)
                    && entries[ix[k] as int].id == x by {
            if hr.contains(x) {
                let k = choose|k: int|
                    0 <= k < rest.len() && is_hit(entries, #[trigger] rest[k] as int, q)
                        && entries[rest[k] as int].id == x;
                assert(ix[k] == rest[k]);
            } else {
                if is_hit(entries, i, q) {
                    assert(h == hr.push(entries[i].id));
                    let j = choose|j: int| 0 <= j < h.len() && h[j] == x;
                    if j < hr.len() {
                        assert(hr[j] == x);
                    }
                    assert(x == entries[i].id);
                    assert(ix[ix.len() - 1] == ix.last());
                } else {
                    assert(h == hr);
                }
            }
        }
        assert forall|x: u64| (exists|k: int|
                0 <= k < ix.len() && is_hit(entries, #[trigger] ix[k] as int, q)
                    && entries[ix[k] as int].id == x) implies #[trigger] h.contains(x) by {
            let k = choose|k: int|
                0 <= k < ix.len() && is_hit(entries, #[trigger] ix[k] as int, q)
                    && entries[ix[k] as int].id == x;
            if k < ix.len() - 1 {
                assert(rest[k] == ix[k]);
                assert(hr.contains(x));
                let j = choose|j: int| 0 <= j < hr.len() && hr[j] == x;
                if is_hit(entries, i, q) {
                    assert(h == hr.push(entries[i].id));
                    assert(h[j] == x);
                } else {
                    assert(h == hr);
                }
            } else {
                assert(ix[k] == ix.last());
                assert(h == hr.push(entries[i].id));
                assert(h[h.len() - 1] == x);
            }
        }
    }
}

/// Distinct positions over entries with distinct ids give distinct hits.
pub proof fn lemma_hits_in_no_dup(ix: Seq<usize>, entries: Seq<Entry>, q: Aabb)
    requires
        ix.no_duplicates(),
        ids_distinct(entries),
    ensures
        hits_in(ix, entries, q).no_duplicates(),
    decreases ix.len(),
{
    if ix.len() > 0 {
        let rest = ix.drop_last();
        assert(rest.no_duplicates()) by {
            assert forall|a: int, b: int| 0 <= a < rest.len() && 0 <= b < rest.len() && a != b implies rest[a] != rest[b] by {
                assert(rest[a] == ix[a] && rest[b] == ix[b]);
            }
        }
        lemma_hits_in_no_dup(rest, entries, q);
        lemma_hits_in_contains(rest, entries, q);
        let i = ix.last() as int;
        if i < entries.len() && boxes_intersect(entries[i].bounds, q) {
            let x = entries[i].id;
            if hits_in(rest, entries, q).contains(x) {
                let k = choose|k: int|
                    0 <= k < rest.len() && is_hit(entries, #[trigger] rest[k] as int, q)
                        && entries[rest[k] as int].id == x;
                assert(ix[k] == rest[k]);
                assert(ix[k] != ix[ix.len() - 1]);
            }
            let h = hits_in(ix, entries, q);
            assert forall|a: int, b: int| 0 <= a < h.len() && 0 <= b < h.len() && a != b implies h[a] != h[b] by {
                if a == h.len() - 1 {
                    assert(hits_in(rest, entries, q).contains(h[b]));
                } else if b == h.len() - 1 {
                    assert(hits_in(rest, entries, q).contains(h[a]));
                }
            }
        }
    }
}

/// If no position holds an entry that meets `q`, there are no hits.
pub proof fn lemma_hits_in_none(ix: Seq<usize>, entries: Seq<Entry>, q: Aabb)
    requires
        forall|k: int| 0 <= k < ix.len() ==> !is_hit(entries, #[trigger] ix[k] as int, q),
    ensures
        hits_in(ix, entries, q) == Seq::<u64>::empty(),
{
    lemma_hits_in_contains(ix, entries, q);
    lemma_hits_in_len(ix, entries, q);
    if hits_in(ix, entries, q).len() > 0 {
        assert(hits_in(ix, entries, q).contains(hits_in(ix, entries, q)[0]));
    }
}

/// Every leaf position of a well-formed tree is in range and its entry lies in
/// the node's bounds.
pub proof fn lemma_node_wf_leaves(n: Node, entries: Seq<Entry>)
    requires
        node_wf(n, entries),
    ensures
        forall|k: int|
            0 <= k < node_leaves(n).len() ==> (#[trigger] node_leaves(n)[k]) < entries.len()
                && box_contains(n.bounds, entries[node_leaves(n)[k] as int].bounds),
    decreases n, 0int,
{
    if n.kind is Leaf {
        let ix = n.kind->Leaf_0;
        assert(node_leaves(n) == ix@);
        assert forall|k: int| 0 <= k < node_leaves(n).len() implies (#[trigger] node_leaves(n)[k])
            < entries.len() && box_contains(n.bounds, entries[node_leaves(n)[k] as int].bounds) by {
            assert(node_leaves(n)[k] == ix@[k]);
        }
    } else {
        let ch = n.kind->Branch_0;
        assert(node_leaves(n) == children_leaves(ch@, ch@.len() as int));
        lemma_children_wf_leaves(ch@, ch@.len() as int, n.bounds, entries);
    }
}

/// Every leaf position under well-formed children is in range, and its entry
/// lies in the outer bounds.
pub proof fn lemma_children_wf_leaves(ch: Seq<Node>, k: int, outer: Aabb, entries: Seq<Entry>)
    requires
        children_wf(ch, k, outer, entries),
        0 <= k <= ch.len(),
    ensures
        forall|j: int|
            0 <= j < children_leaves(ch, k).len() ==> (#[trigger] children_leaves(ch, k)[j])
                < entries.len() && box_contains(outer, entries[children_leaves(ch, k)[j] as int].bounds),
    decreases ch, k,
{
    if k > 0 {
        lemma_children_wf_leaves(ch, k - 1, outer, entries);
        lemma_node_wf_leaves(ch[k - 1], entries);
        let a = children_leaves(ch, k - 1);
        let b = node_leaves(ch[k - 1]);
        assert forall|j: int|
            0 <= j < children_leaves(ch, k).len() implies (#[trigger] children_leaves(ch, k)[j])
                < entries.len() && box_contains(outer, entries[children_leaves(ch, k)[j] as int].bounds) by {
            if j < a.len() {
                assert(children_leaves(ch, k)[j] == a[j]);
            } else {
                assert(children_leaves(ch, k)[j] == b[j - a.len()]);
                lemma_contains_trans(outer, ch[k - 1].bounds, entries[b[j - a.len()] as int].bounds);
            }
        }
    }
}

/// A well-formed node whose bounds miss `q` has no hits.
pub proof fn lemma_pruned_node(n: Node, entries: Seq<Entry>, q: Aabb)
    requires
        node_wf(n, entries),
        !boxes_intersect(n.bounds, q),
    ensures
        hits_in(node_leaves(n), entries, q) == Seq::<u64>::empty(),
{
    lemma_node_wf_leaves(n, entries);
    let ix = node_leaves(n);
    assert forall|k: int| 0 <= k < ix.len() implies !is_hit(entries, #[trigger] ix[k] as int, q) by {
        if is_hit(entries, ix[k] as int, q) {
            lemma_contained_intersects(n.bounds, entries[ix[k] as int].bounds, q);
        }
    }
    lemma_hits_in_none(ix, entries, q);
}

/// `b` holds every box of `s`.
pub open spec fn bounds_all(b: Aabb, s: Seq<Aabb>) -> bool {
    forall|k: int| 0 <= k < s.len() ==> box_contains(b, #[trigger] s[k])
}

/// Every coordinate of `b` is the matching coordinate of some box of `s`.
pub open spec fn bounds_tight(b: Aabb, s: Seq<Aabb>) -> bool {
    &&& exists|k: int| 0 <= k < s.len() && b.mins.x == (#[trigger] s[k]).mins.x
    &&& exists|k: int| 0 <= k < s.len() && b.mins.y == (#[trigger] s[k]).mins.y
    &&& exists|k: int| 0 <= k < s.len() && b.mins.z == (#[trigger] s[k]).mins.z
    &&& exists|k: int| 0 <= k < s.len() && b.maxs.x == (#[trigger] s[k]).maxs.x
    &&& exists|k: int| 0 <= k < s.len() && b.maxs.y == (#[trigger] s[k]).maxs.y
    &&& exists|k: int| 0 <= k < s.len() && b.maxs.z == (#[trigger] s[k]).maxs.z
}

/// The boxes of the entries at positions `ix`.
pub open spec fn entry_boxes(entries: Seq<Entry>, ix: Seq<usize>) -> Seq<Aabb> {
    ix.map_values(|i: usize| entries[i as int].bounds)
}

/// The bounds of a sequence of nodes.
pub open spec fn node_boxes(nodes: Seq<Node>) -> Seq<Aabb> {
    nodes.map_values(|n: Node| n.bounds)
}

proof fn lemma_union_step(acc: Aabb, next: Aabb, r: Aabb, s: Seq<Aabb>)
    requires
        s.len() > 0,
        bounds_all(acc, s.drop_last()),
        bounds_tight(acc, s.drop_last()),
        next == s.last(),
        box_contains(r, acc),
        box_contains(r, next),
        r.mins.x == acc.mins.x || r.mins.x == next.mins.x,
        r.mins.y == acc.mins.y || r.mins.y == next.mins.y,
        r.mins.z == acc.mins.z || r.mins.z == next.mins.z,
        r.maxs.x == acc.maxs.x || r.maxs.x == next.maxs.x,
        r.maxs.y == acc.maxs.y || r.maxs.y == next.maxs.y,
        r.maxs.z == acc.maxs.z || r.maxs.z == next.maxs.z,
    ensures
        bounds_all(r, s),
        bounds_tight(r, s),
{
    let p = s.drop_last();
    let n = s.len() - 1;
    assert(s[n] == next);
    assert forall|k: int| 0 <= k < s.len() implies box_contains(r, #[trigger] s[k]) by {
        if k < n {
            assert(s[k] == p[k]);
            assert(box_contains(acc, p[k]));
            lemma_contains_trans(r, acc, s[k]);
        }
    }
    if r.mins.x == acc.mins.x {
        let k = choose|k: int| 0 <= k < p.len() && acc.mins.x == (#[trigger] p[k]).mins.x;
        assert(s[k] == p[k]);
    }
    if r.mins.y == acc.mins.y {
        let k = choose|k: int| 0 <= k < p.len() && acc.mins.y == (#[trigger] p[k]).mins.y;
        assert(s[k] == p[k]);
    }
    if r.mins.z == acc.mins.z {
        let k = choose|k: int| 0 <= k < p.len() && acc.mins.z == (#[trigger] p[k]).mins.z;
        assert(s[k] == p[k]);
    }
    if r.maxs.x == acc.maxs.x {
        let k = choose|k: int| 0 <= k < p.len() && acc.maxs.x == (#[trigger] p[k]).maxs.x;
        assert(s[k] == p[k]);
    }
    if r.maxs.y == acc.maxs.y {
        let k = choose|k: int| 0 <= k < p.len() && acc.maxs.y == (#[trigger] p[k]).maxs.y;
        assert(s[k] == p[k]);
    }
    if r.maxs.z == acc.maxs.z {
        let k = choose|k: int| 0 <= k < p.len() && acc.maxs.z == (#[trigger] p[k]).maxs.z;
        assert(s[k] == p[k]);
    }
}

proof fn lemma_union_first(b: Aabb, s: Seq<Aabb>)
    requires
        s.len() == 1,
        b == s[0],
    ensures
        bounds_all(b, s),
        bounds_tight(b, s),
{
    assert(box_contains(b, s[0]));
}

/// The union of the boxes of the entries at `indices`; `None` for no indices.
pub fn entries_bounds(entries: &Vec<Entry>, indices: &Vec<usize>) -> (r: Option<Aabb>)
    requires
        forall|k: int| 0 <= k < indices@.len() ==> #[trigger] indices@[k] < entries@.len(),
    ensures
        r is None <==> indices@.len() == 0,
        r matches Some(b) ==> bounds_all(b, entry_boxes(entries@, indices@)) && bounds_tight(
            b,
            entry_boxes(entries@, indices@),
        ),
{
    if indices.len() == 0 {
        return None;
    }
    let mut acc = entries[indices[0]].bounds;
    let ghost s = entry_boxes(entries@, indices@);
    proof {
        assert(s.subrange(0, 1) =~= seq![acc]);
        lemma_union_first(acc, s.subrange(0, 1));
    }
    let mut i: usize = 1;
    while i < indices.len()
        invariant
            1 <= i <= indices@.len(),
            s == entry_boxes(entries@, indices@),
            forall|k: int| 0 <= k < indices@.len() ==> #[trigger] indices@[k] < entries@.len(),
            bounds_all(acc, s.subrange(0, i as int)),
            bounds_tight(acc, s.subrange(0, i as int)),
        decreases indices@.len() - i,
    {
        let next = entries[indices[i]].bounds;
        let r = acc.union(next);
        proof {
            let t = s.subrange(0, i + 1);
            assert(t.drop_last() =~= s.subrange(0, i as int));
            lemma_union_step(acc, next, r, t);
        }
        acc = r;
        i = i + 1;
    }
    assert(s.subrange(0, i as int) =~= s);
    Some(acc)
}

/// The union of the bounds of `nodes`; `None` for no nodes.
pub fn nodes_bounds(nodes: &Vec<Node>) -> (r: Option<Aabb>)
    ensures
        r is None <==> nodes@.len() == 0,
        r matches Some(b) ==> bounds_all(b, node_boxes(nodes@)) && bounds_tight(
            b,
            node_boxes(nodes@),
        ),
{
    if nodes.len() == 0 {
        return None;
    }
    let mut acc = nodes[0].bounds;
    let ghost s = node_boxes(nodes@);
    proof {
        assert(s.subrange(0, 1) =~= seq![acc]);
        lemma_union_first(acc, s.subrange(0, 1));
    }
    let mut i: usize = 1;
    while i < nodes.len()
        invariant
            1 <= i <= nodes@.len(),
            s == node_boxes(nodes@),
            bounds_all(acc, s.subrange(0, i as int)),
            bounds_tight(acc, s.subrange(0, i as int)),
        decreases nodes@.len() - i,
    {
        let next = nodes[i].bounds;
        let r = acc.union(next);
        proof {
            let t = s.subrange(0, i + 1);
            assert(t.drop_last() =~= s.subrange(0, i as int));
            lemma_union_step(acc, next, r, t);
        }
        acc = r;
        i = i + 1;
    }
    assert(s.subrange(0, i as int) =~= s);
    Some(acc)
}

proof fn lemma_node_count_pos(n: Node)
    ensures
        spec_node_count(n) >= 1,
    decreases n, 0int,
{
    if n.kind is Branch {
        lemma_children_count_mono(n.kind->Branch_0@, 0, n.kind->Branch_0@.len() as int);
    }
}

proof fn lemma_children_count_mono(ch: Seq<Node>, i: int, k: int)
    requires
        0 <= i <= k <= ch.len(),
    ensures
        0 <= children_node_count(ch, i) <= children_node_count(ch, k),
    decreases ch, k,
{
    if k > i {
        lemma_children_count_mono(ch, i, k - 1);
        lemma_node_count_pos(ch[k - 1]);
    } else if k > 0 {
        lemma_children_count_mono(ch, 0, k - 1);
        lemma_node_count_pos(ch[k - 1]);
    }
}

/// The number of nodes of a tree.
pub fn count_nodes(node: &Node) -> (r: usize)
    requires
        spec_node_count(*node) <= usize::MAX,
    ensures
        r == spec_node_count(*node),
    decreases node,
{
    match &node.kind {
        NodeKind::Leaf(_) => 1,
        NodeKind::Branch(children) => {
            let mut total: usize = 1;
            let mut i: usize = 0;
            proof {
                lemma_children_count_mono(children@, 0, children@.len() as int);
            }
            while i < children.len()
                invariant
                    node.kind == NodeKind::Branch(*children),
                    spec_node_count(*node) <= usize::MAX,
                    spec_node_count(*node) == 1 + children_node_count(children@, children@.len() as int),
                    i <= children@.len(),
                    total == 1 + children_node_count(children@, i as int),
                decreases children@.len() - i,
            {
                proof {
                    lemma_children_count_mono(children@, i + 1, children@.len() as int);
                    lemma_node_count_pos(children@[i as int]);
                }
                let c = count_nodes(&children[i]);
                total = total + c;
                i = i + 1;
            }
            total
        },
    }
}

proof fn lemma_children_height_bound(ch: Seq<Node>, k: int)
    requires
        0 <= k <= ch.len(),
    ensures
        children_max_height(ch, k) >= 0,
        forall|j: int| 0 <= j < k ==> spec_node_height(#[trigger] ch[j]) <= children_max_height(ch, k),
        forall|i: int| 0 <= i <= k ==> #[trigger] children_max_height(ch, i) <= children_max_height(ch, k),
    decreases ch, k,
{
    if k > 0 {
        lemma_children_height_bound(ch, k - 1);
    }
}

/// The number of levels of a tree (a leaf has one).
pub fn node_height(node: &Node) -> (r: usize)
    requires
        spec_node_height(*node) <= usize::MAX,
    ensures
        r == spec_node_height(*node),
    decreases node,
{
    match &node.kind {
        NodeKind::Leaf(_) => 1,
        NodeKind::Branch(children) => {
            let mut best: usize = 0;
            let mut i: usize = 0;
            proof {
                lemma_children_height_bound(children@, children@.len() as int);
            }
            while i < children.len()
                invariant
                    node.kind == NodeKind::Branch(*children),
                    spec_node_height(*node) <= usize::MAX,
                    spec_node_height(*node) == 1 + children_max_height(children@, children@.len() as int),
                    forall|j: int| 0 <= j < children@.len() ==> spec_node_height(#[trigger] children@[j]) <= children_max_height(children@, children@.len() as int),
                    forall|j: int| 0 <= j <= children@.len() ==> #[trigger] children_max_height(children@, j) <= children_max_height(children@, children@.len() as int),
                    i <= children@.len(),
                    best == children_max_height(children@, i as int),
                decreases children@.len() - i,
            {
                let h = node_height(&children[i]);
                if h > best {
                    best = h;
                }
                i = i + 1;
            }
            best + 1
        },
    }
}

proof fn lemma_children_wf_child(ch: Seq<Node>, k: int, outer: Aabb, entries: Seq<Entry>, j: int)
    requires
        children_wf(ch, k, outer, entries),
        0 <= j < k <= ch.len(),
    ensures
        node_wf(ch[j], entries),
        box_contains(outer, ch[j].bounds),
    decreases k,
{
    if j < k - 1 {
        lemma_children_wf_child(ch, k - 1, outer, entries, j);
    }
}

/// Hits of a prefix of the positions come first among the hits of all of them.
proof fn lemma_hits_prefix(ix: Seq<usize>, j: int, entries: Seq<Entry>, q: Aabb)
    requires
        0 <= j <= ix.len(),
    ensures
        hits_in(ix, entries, q) == hits_in(ix.take(j), entries, q) + hits_in(ix.skip(j), entries, q),
        hits_in(ix.take(j), entries, q).len() <= hits_in(ix, entries, q).len(),
{
    assert(ix =~= ix.take(j) + ix.skip(j));
    lemma_hits_in_concat(ix.take(j), ix.skip(j), entries, q);
}

proof fn lemma_children_hits_mono(ch: Seq<Node>, i: int, k: int, entries: Seq<Entry>, q: Aabb)
    requires
        0 <= i <= k <= ch.len(),
    ensures
        hits_in(children_leaves(ch, i), entries, q).len() <= hits_in(children_leaves(ch, k), entries, q).len(),
    decreases k,
{
    if i < k {
        lemma_children_hits_mono(ch, i, k - 1, entries, q);
        lemma_hits_in_concat(children_leaves(ch, k - 1), node_leaves(ch[k - 1]), entries, q);
    }
}

/// From `w0` on, `out` holds the first hits of `h` that fit, `w1` marks the
/// end of what was written, and the rest of `out` is as in `old`.
pub open spec fn wrote_prefix(old: Seq<u64>, out: Seq<u64>, w0: int, w1: int, h: Seq<u64>) -> bool {
    let k = if h.len() <= old.len() - w0 {
        h.len() as int
    } else {
        old.len() - w0
    };
    &&& 0 <= w0 <= old.len()
    &&& w1 == w0 + k
    &&& out.len() == old.len()
    &&& forall|i: int| 0 <= i < w0 ==> out[i] == old[i]
    &&& forall|i: int| w1 <= i < out.len() ==> out[i] == old[i]
    &&& forall|i: int| w0 <= i < w1 ==> out[i] == h[i - w0]
}

proof fn lemma_wrote_compose(
    o0: Seq<u64>,
    o1: Seq<u64>,
    o2: Seq<u64>,
    w0: int,
    w1: int,
    w2: int,
    h1: Seq<u64>,
    h2: Seq<u64>,
)
    requires
        wrote_prefix(o0, o1, w0, w1, h1),
        wrote_prefix(o1, o2, w1, w2, h2),
    ensures
        wrote_prefix(o0, o2, w0, w2, h1 + h2),
{
    let h = h1 + h2;
    assert forall|i: int| w0 <= i < w2 implies o2[i] == h[i - w0] by {
        if i < w1 {
            assert(o2[i] == o1[i]);
        } else {
            assert(w1 - w0 == h1.len());
        }
    }
}

proof fn lemma_wrote_full(o0: Seq<u64>, out: Seq<u64>, w0: int, w1: int, h1: Seq<u64>, h2: Seq<u64>)
    requires
        wrote_prefix(o0, out, w0, w1, h1),
        w1 == o0.len(),
    ensures
        wrote_prefix(o0, out, w0, w1, h1 + h2),
{
    let h = h1 + h2;
    assert forall|i: int| w0 <= i < w1 implies out[i] == h[i - w0] by {
        assert(i - w0 < h1.len());
    }
}

proof fn lemma_wrote_nothing(out: Seq<u64>, w: int)
    requires
        0 <= w <= out.len(),
    ensures
        wrote_prefix(out, out, w, w, Seq::<u64>::empty()),
{
}

/// The number of entries under `node` whose boxes meet `bounds`.
pub fn count_node(node: &Node, entries: &Vec<Entry>, bounds: Aabb) -> (r: u32)
    requires
        node_wf(*node, entries@),
        hits_in(node_leaves(*node), entries@, bounds).len() <= u32::MAX,
    ensures
        r == hits_in(node_leaves(*node), entries@, bounds).len(),
    decreases node,
{
    if !node.bounds.intersects(bounds) {
        proof {
            lemma_pruned_node(*node, entries@, bounds);
        }
        return 0;
    }
    match &node.kind {
        NodeKind::Leaf(indices) => {
            let mut c: u32 = 0;
            let mut j: usize = 0;
            assert(node_leaves(*node) == indices@);
            while j < indices.len()
                invariant
                    node_wf(*node, entries@),
                    node.kind == NodeKind::Leaf(*indices),
                    node_leaves(*node) == indices@,
                    hits_in(indices@, entries@, bounds).len() <= u32::MAX,
                    j <= indices@.len(),
                    c == hits_in(indices@.take(j as int), entries@, bounds).len(),
                decreases indices@.len() - j,
            {
                let idx = indices[j];
                assert(indices@[j as int] < entries@.len());
                proof {
                    assert(indices@.take(j + 1).drop_last() =~= indices@.take(j as int));
                    lemma_hits_prefix(indices@, j + 1, entries@, bounds);
                }
                if entries[idx].bounds.intersects(bounds) {
                    c = c + 1;
                }
                j = j + 1;
            }
            assert(indices@.take(j as int) =~= indices@);
            c
        },
        NodeKind::Branch(children) => {
            let mut total: u32 = 0;
            let mut i: usize = 0;
            assert(node_leaves(*node) == children_leaves(children@, children@.len() as int));
            while i < children.len()
                invariant
                    node_wf(*node, entries@),
                    node.kind == NodeKind::Branch(*children),
                    children_wf(children@, children@.len() as int, node.bounds, entries@),
                    node_leaves(*node) == children_leaves(children@, children@.len() as int),
                    hits_in(node_leaves(*node), entries@, bounds).len() <= u32::MAX,
                    i <= children@.len(),
                    total == hits_in(children_leaves(children@, i as int), entries@, bounds).len(),
                decreases children@.len() - i,
            {
                proof {
                    lemma_children_wf_child(children@, children@.len() as int, node.bounds, entries@, i as int);
                    lemma_hits_in_concat(children_leaves(children@, i as int), node_leaves(children@[i as int]), entries@, bounds);
                    lemma_children_hits_mono(children@, i + 1, children@.len() as int, entries@, bounds);
                }
                let c = count_node(&children[i], entries, bounds);
                total = total + c;
                i = i + 1;
            }
            total
        },
    }
}

/// Writes the ids of the entries under `node` whose boxes meet `bounds`, in
/// leaf order, into `out_ids` from position `*written` on, as many as fit,
/// advancing `*written`.
pub fn query_node(
    node: &Node,
    entries: &Vec<Entry>,
    bounds: Aabb,
    out_ids: &mut [u64],
    written: &mut usize,
)
    requires
        node_wf(*node, entries@),
        *old(written) <= old(out_ids)@.len(),
    ensures
        wrote_prefix(
            old(out_ids)@,
            final(out_ids)@,
            *old(written) as int,
            *final(written) as int,
            hits_in(node_leaves(*node), entries@, bounds),
        ),
    decreases node,
{
    let ghost o0 = out_ids@;
    let ghost w0 = *written as int;
    let olen = out_ids.len();
    if *written >= olen || !node.bounds.intersects(bounds) {
        proof {
            if !boxes_intersect(node.bounds, bounds) {
                lemma_pruned_node(*node, entries@, bounds);
            } else {
                lemma_wrote_nothing(o0, w0);
                lemma_wrote_full(o0, o0, w0, w0, Seq::<u64>::empty(), hits_in(node_leaves(*node), entries@, bounds));
                assert(Seq::<u64>::empty() + hits_in(node_leaves(*node), entries@, bounds) =~= hits_in(node_leaves(*node), entries@, bounds));
            }
        }
        return;
    }
    match &node.kind {
        NodeKind::Leaf(indices) => {
            let mut j: usize = 0;
            assert(node_leaves(*node) == indices@);
            assert(indices@.take(0) =~= Seq::<usize>::empty());
            while j < indices.len()
                invariant
                    node_wf(*node, entries@),
                    node.kind == NodeKind::Leaf(*indices),
                    node_leaves(*node) == indices@,
                    olen == out_ids@.len(),
                    olen == o0.len(),
                    o0 == old(out_ids)@,
                    w0 == *old(written) as int,
                    j <= indices@.len(),
                    *written <= olen,
                    wrote_prefix(o0, out_ids@, w0, *written as int, hits_in(indices@.take(j as int), entries@, bounds)),
                decreases indices@.len() - j,
            {
                proof {
                    lemma_hits_prefix(indices@, j as int, entries@, bounds);
                }
                if *written >= olen {
                    proof {
                        lemma_wrote_full(o0, out_ids@, w0, *written as int, hits_in(indices@.take(j as int), entries@, bounds), hits_in(indices@.skip(j as int), entries@, bounds));
                        assert(hits_in(node_leaves(*node), entries@, bounds) == hits_in(indices@.take(j as int), entries@, bounds) + hits_in(indices@.skip(j as int), entries@, bounds));
                        assert(*written as int == olen);
                        assert(wrote_prefix(o0, out_ids@, w0, *written as int, hits_in(node_leaves(*node), entries@, bounds)));
                    }
                    return;
                }
                let idx = indices[j];
                assert(indices@[j as int] < entries@.len());
                let entry = entries[idx];
                let ghost before = out_ids@;
                let ghost wb = *written as int;
                proof {
                    assert(indices@.take(j + 1).drop_last() =~= indices@.take(j as int));
                }
                if entry.bounds.intersects(bounds) {
                    out_ids[*written] = entry.id;
                    *written = *written + 1;
                    proof {
                        assert(wrote_prefix(before, out_ids@, wb, *written as int, seq![entry.id]));
                        lemma_wrote_compose(o0, before, out_ids@, w0, wb, *written as int, hits_in(indices@.take(j as int), entries@, bounds), seq![entry.id]);
                        assert(hits_in(indices@.take(j + 1), entries@, bounds) =~= hits_in(indices@.take(j as int), entries@, bounds) + seq![entry.id]);
                    }
                } else {
                    proof {
                        assert(hits_in(indices@.take(j + 1), entries@, bounds) =~= hits_in(indices@.take(j as int), entries@, bounds));
                    }
                }
                j = j + 1;
            }
            assert(indices@.take(j as int) =~= indices@);
        },
        NodeKind::Branch(children) => {
            let mut i: usize = 0;
            assert(node_leaves(*node) == children_leaves(children@, children@.len() as int));
            assert(children_leaves(children@, 0) =~= Seq::<usize>::empty());
            while i < children.len()
                invariant
                    node_wf(*node, entries@),
                    node.kind == NodeKind::Branch(*children),
                    children_wf(children@, children@.len() as int, node.bounds, entries@),
                    node_leaves(*node) == children_leaves(children@, children@.len() as int),
                    olen == out_ids@.len(),
                    olen == o0.len(),
                    o0 == old(out_ids)@,
                    w0 == *old(written) as int,
                    i <= children@.len(),
                    *written <= olen,
                    wrote_prefix(o0, out_ids@, w0, *written as int, hits_in(children_leaves(children@, i as int), entries@, bounds)),
                decreases children@.len() - i,
            {
                proof {
                    lemma_children_wf_child(children@, children@.len() as int, node.bounds, entries@, i as int);
                    lemma_hits_in_concat(children_leaves(children@, i as int), node_leaves(children@[i as int]), entries@, bounds);
                }
                let ghost before = out_ids@;
                let ghost wb = *written as int;
                query_node(&children[i], entries, bounds, out_ids, written);
                proof {
                    lemma_wrote_compose(o0, before, out_ids@, w0, wb, *written as int, hits_in(children_leaves(children@, i as int), entries@, bounds), hits_in(node_leaves(children@[i as int]), entries@, bounds));
                }
                i = i + 1;
            }
        },
    }
}

/// How a tree split measures boxes. Both measures come from the doubles
/// behind the coordinate keys, so callers supply them; nothing is assumed of
/// their results.
pub trait SplitMetric {
    /// The axis (0, 1 or 2) along which `bounds` is longest; on a tie the
    /// first such axis.
    fn longest_axis(&self, bounds: &Aabb) -> usize;

    /// The total-order key of the center of `bounds` along `axis`.
    fn center_key(&self, bounds: &Aabb, axis: usize) -> i64;
}

fn copy_indices(v: &Vec<usize>) -> (r: Vec<usize>)
    ensures
        r@ == v@,
{
    let mut r: Vec<usize> = Vec::new();
    let mut i: usize = 0;
    while i < v.len()
        invariant
            i <= v@.len(),
            r@ == v@.take(i as int),
        decreases v@.len() - i,
    {
        r.push(v[i]);
        i = i + 1;
        assert(r@ =~= v@.take(i as int));
    }
    assert(v@.take(i as int) =~= v@);
    r
}

proof fn lemma_multiset_insert_at(s: Seq<usize>, pos: int, x: usize)
    requires
        0 <= pos <= s.len(),
    ensures
        s.insert(pos, x).to_multiset() =~= s.to_multiset().insert(x),
{
    broadcast use vstd::seq_lib::group_to_multiset_ensures;
    let t = s.insert(pos, x);
    assert(t.remove(pos) =~= s);
    vstd::seq_lib::to_multiset_remove(t, pos);
    assert(t.to_multiset().count(x) > 0) by {
        assert(t.contains(x)) by {
            assert(t[pos] == x);
        }
    }
}

/// No pair is smaller than an earlier one.
spec fn pairs_sorted(s: Seq<(i64, u64)>) -> bool {
    forall|i: int, j: int| 0 <= i < j < s.len() ==> !key_lt(#[trigger] s[j], #[trigger] s[i])
}

/// Orders `indices` by the center key of their entries along `axis`, then by
/// id (a stable insertion sort); the positions are only reordered. Returns
/// the `(center key, id)` pair it took for each position, in the new order:
/// the ids are those of the entries there, and the pairs do not decrease.
fn sort_by_center<M: SplitMetric>(entries: &Vec<Entry>, indices: &mut Vec<usize>, axis: usize, metric: &M) -> (keys:
    Ghost<Seq<(i64, u64)>>)
    requires
        forall|k: int| 0 <= k < old(indices)@.len() ==> #[trigger] old(indices)@[k] < entries@.len(),
    ensures
        final(indices)@.len() == old(indices)@.len(),
        final(indices)@.to_multiset() == old(indices)@.to_multiset(),
        forall|k: int| 0 <= k < final(indices)@.len() ==> #[trigger] final(indices)@[k] < entries@.len(),
        keys@.len() == final(indices)@.len(),
        forall|k: int| 0 <= k < keys@.len() ==> (#[trigger] keys@[k]).1 == entries@[final(indices)@[k] as int].id,
        pairs_sorted(keys@),
{
    broadcast use vstd::seq_lib::group_to_multiset_ensures;
    let n = indices.len();
    let mut sorted: Vec<usize> = Vec::new();
    let mut keys: Vec<(i64, u64)> = Vec::new();
    let mut k: usize = 0;
    assert(indices@.take(0) =~= Seq::<usize>::empty());
    while k < n
        invariant
            n == indices@.len(),
            forall|j: int| 0 <= j < indices@.len() ==> #[trigger] indices@[j] < entries@.len(),
            k <= n,
            sorted@.len() == k,
            keys@.len() == k,
            sorted@.to_multiset() == indices@.take(k as int).to_multiset(),
            forall|j: int| 0 <= j < sorted@.len() ==> #[trigger] sorted@[j] < entries@.len(),
            forall|j: int| 0 <= j < keys@.len() ==> (#[trigger] keys@[j]).1 == entries@[sorted@[j] as int].id,
            pairs_sorted(keys@),
        decreases n - k,
    {
        let i = indices[k];
        let e = entries[i];
        let key = (metric.center_key(&e.bounds, axis), e.id);
        let mut pos: usize = 0;
        while pos < keys.len() && !(key.0 < keys[pos].0 || (key.0 == keys[pos].0 && key.1 < keys[pos].1))
            invariant
                pos <= keys@.len(),
                forall|q: int| 0 <= q < pos ==> !key_lt(key, #[trigger] keys@[q]),
            decreases keys@.len() - pos,
        {
            pos = pos + 1;
        }
        let ghost before = sorted@;
        let ghost kb = keys@;
        proof {
            lemma_multiset_insert_at(sorted@, pos as int, i);
            assert(indices@.take(k + 1) =~= indices@.take(k as int).push(i));
            vstd::seq_lib::to_multiset_build(indices@.take(k as int), i);
        }
        sorted.insert(pos, i);
        keys.insert(pos, key);
        assert(sorted@ == before.insert(pos as int, i));
        assert(sorted@.to_multiset() =~= indices@.take(k + 1).to_multiset());
        proof {
            assert(keys@ == kb.insert(pos as int, key));
            assert(pos < kb.len() ==> key_lt(key, kb[pos as int]));
            assert forall|a: int, b: int| 0 <= a < b < keys@.len() implies !key_lt(#[trigger] keys@[b], #[trigger] keys@[a]) by {
                if b < pos {
                    assert(keys@[a] == kb[a] && keys@[b] == kb[b]);
                } else if b == pos {
                    assert(keys@[a] == kb[a]);
                } else if a == pos {
                    assert(keys@[b] == kb[b - 1]);
                    if b - 1 > pos {
                        assert(!key_lt(kb[b - 1], kb[pos as int]));
                    }
                } else if a < pos {
                    assert(keys@[a] == kb[a] && keys@[b] == kb[b - 1]);
                } else {
                    assert(keys@[a] == kb[a - 1] && keys@[b] == kb[b - 1]);
                }
            }
        }
        k = k + 1;
    }
    assert(indices@.take(n as int) =~= indices@);
    let ghost out = keys@;
    *indices = sorted;
    Ghost(out)
}

proof fn lemma_children_wf_from(ch: Seq<Node>, k: int, outer: Aabb, entries: Seq<Entry>)
    requires
        0 <= k <= ch.len(),
        forall|j: int| 0 <= j < k ==> node_wf(#[trigger] ch[j], entries),
        forall|j: int| 0 <= j < k ==> box_contains(outer, (#[trigger] ch[j]).bounds),
    ensures
        children_wf(ch, k, outer, entries),
    decreases k,
{
    if k > 0 {
        lemma_children_wf_from(ch, k - 1, outer, entries);
    }
}

proof fn lemma_children_all_single(ch: Seq<Node>, k: int)
    requires
        0 <= k <= ch.len(),
        forall|j: int| 0 <= j < k ==> spec_node_count(#[trigger] ch[j]) == 1,
        forall|j: int| 0 <= j < k ==> spec_node_height(#[trigger] ch[j]) == 1,
    ensures
        children_node_count(ch, k) == k,
        children_max_height(ch, k) == if k == 0 { 0int } else { 1int },
    decreases k,
{
    if k > 0 {
        lemma_children_all_single(ch, k - 1);
    }
}

/// The number of nodes a tree over `n` entries gets.
pub open spec fn built_node_count(n: int) -> int {
    if n <= MAX_CHILDREN {
        1
    } else {
        1 + (n + 7) / 8
    }
}

/// The height a tree over `n` entries gets.
pub open spec fn built_height(n: int) -> int {
    if n <= MAX_CHILDREN {
        1
    } else {
        2
    }
}

/// A position of `x` that `y` also holds gives the same box at some index of `y`.
proof fn lemma_box_in_wider(entries: Seq<Entry>, x: Seq<usize>, y: Seq<usize>, k: int) -> (l: int)
    requires
        0 <= k < x.len(),
        y.contains(x[k]),
    ensures
        0 <= l < y.len(),
        entry_boxes(entries, y)[l] == entry_boxes(entries, x)[k],
{
    choose|l: int| 0 <= l < y.len() && y[l] == x[k]
}

/// Tightness over some positions carries over to positions that include them.
proof fn lemma_tight_widen(b: Aabb, entries: Seq<Entry>, x: Seq<usize>, y: Seq<usize>)
    requires
        bounds_tight(b, entry_boxes(entries, x)),
        forall|k: int| 0 <= k < x.len() ==> y.contains(#[trigger] x[k]),
    ensures
        bounds_tight(b, entry_boxes(entries, y)),
{
    let ex = entry_boxes(entries, x);
    let ey = entry_boxes(entries, y);
    let k = choose|k: int| 0 <= k < ex.len() && b.mins.x == (#[trigger] ex[k]).mins.x;
    let l = lemma_box_in_wider(entries, x, y, k);
    assert(b.mins.x == ey[l].mins.x);
    let k = choose|k: int| 0 <= k < ex.len() && b.mins.y == (#[trigger] ex[k]).mins.y;
    let l = lemma_box_in_wider(entries, x, y, k);
    assert(b.mins.y == ey[l].mins.y);
    let k = choose|k: int| 0 <= k < ex.len() && b.mins.z == (#[trigger] ex[k]).mins.z;
    let l = lemma_box_in_wider(entries, x, y, k);
    assert(b.mins.z == ey[l].mins.z);
    let k = choose|k: int| 0 <= k < ex.len() && b.maxs.x == (#[trigger] ex[k]).maxs.x;
    let l = lemma_box_in_wider(entries, x, y, k);
    assert(b.maxs.x == ey[l].maxs.x);
    let k = choose|k: int| 0 <= k < ex.len() && b.maxs.y == (#[trigger] ex[k]).maxs.y;
    let l = lemma_box_in_wider(entries, x, y, k);
    assert(b.maxs.y == ey[l].maxs.y);
    let k = choose|k: int| 0 <= k < ex.len() && b.maxs.z == (#[trigger] ex[k]).maxs.z;
    let l = lemma_box_in_wider(entries, x, y, k);
    assert(b.maxs.z == ey[l].maxs.z);
}

/// Bounds tight over some nodes, each tight over the same positions, are
/// tight over those positions.
proof fn lemma_tight_compose(b: Aabb, nodes: Seq<Node>, entries: Seq<Entry>, y: Seq<usize>)
    requires
        bounds_tight(b, node_boxes(nodes)),
        forall|j: int| 0 <= j < nodes.len() ==> bounds_tight((#[trigger] nodes[j]).bounds, entry_boxes(entries, y)),
    ensures
        bounds_tight(b, entry_boxes(entries, y)),
{
    let nb = node_boxes(nodes);
    let ey = entry_boxes(entries, y);
    let j = choose|j: int| 0 <= j < nb.len() && b.mins.x == (#[trigger] nb[j]).mins.x;
    assert(bounds_tight(nodes[j].bounds, ey));
    let j = choose|j: int| 0 <= j < nb.len() && b.mins.y == (#[trigger] nb[j]).mins.y;
    assert(bounds_tight(nodes[j].bounds, ey));
    let j = choose|j: int| 0 <= j < nb.len() && b.mins.z == (#[trigger] nb[j]).mins.z;
    assert(bounds_tight(nodes[j].bounds, ey));
    let j = choose|j: int| 0 <= j < nb.len() && b.maxs.x == (#[trigger] nb[j]).maxs.x;
    assert(bounds_tight(nodes[j].bounds, ey));
    let j = choose|j: int| 0 <= j < nb.len() && b.maxs.y == (#[trigger] nb[j]).maxs.y;
    assert(bounds_tight(nodes[j].bounds, ey));
    let j = choose|j: int| 0 <= j < nb.len() && b.maxs.z == (#[trigger] nb[j]).maxs.z;
    assert(bounds_tight(nodes[j].bounds, ey));
}

/// Builds a tree over the entries at `indices`: up to eight positions make
/// a leaf; more are ordered along the longest axis of their bounds and cut
/// into leaves of eight under one branch. `indices` ends up in leaf order.
pub fn build_node<M: SplitMetric>(entries: &Vec<Entry>, indices: &mut Vec<usize>, metric: &M) -> (r: Option<Node>)
    requires
        forall|k: int| 0 <= k < old(indices)@.len() ==> #[trigger] old(indices)@[k] < entries@.len(),
    ensures
        final(indices)@.len() == old(indices)@.len(),
        final(indices)@.to_multiset() == old(indices)@.to_multiset(),
        old(indices)@.len() <= MAX_CHILDREN ==> final(indices)@ == old(indices)@,
        r is None <==> old(indices)@.len() == 0,
        r matches Some(n) ==> {
            &&& node_wf(n, entries@)
            &&& node_leaves(n) == final(indices)@
            &&& bounds_all(n.bounds, entry_boxes(entries@, old(indices)@))
            &&& bounds_tight(n.bounds, entry_boxes(entries@, old(indices)@))
            &&& branch_bounds_tight(n)
            &&& leaves_sized(n)
            &&& spec_node_count(n) == built_node_count(old(indices)@.len() as int)
            &&& spec_node_height(n) == built_height(old(indices)@.len() as int)
        },
    decreases old(indices)@.len(),
{
    broadcast use vstd::seq_lib::group_to_multiset_ensures;
    let ghost orig = indices@;
    let bounds = match entries_bounds(entries, indices) {
        Some(b) => b,
        None => {
            return None;
        },
    };
    let len = indices.len();
    if len <= MAX_CHILDREN {
        let leaf = copy_indices(indices);
        let n = Node { bounds, kind: NodeKind::Leaf(leaf) };
        proof {
            assert forall|k: int| 0 <= k < leaf@.len() implies (#[trigger] leaf@[k]) < entries@.len() && box_contains(
                bounds,
                entries@[leaf@[k] as int].bounds,
            ) by {
                assert(entry_boxes(entries@, orig)[k] == entries@[leaf@[k] as int].bounds);
            }
            assert(node_leaves(n) == leaf@);
        }
        return Some(n);
    }
    let axis = metric.longest_axis(&bounds);
    sort_by_center(entries, indices, axis, metric);
    let ghost sorted = indices@;
    let mut children: Vec<Node> = Vec::new();
    let mut start: usize = 0;
    assert(children_leaves(children@, 0) =~= sorted.take(0));
    while start < len
        invariant
            len == indices@.len(),
            len > MAX_CHILDREN,
            orig == old(indices)@,
            orig.len() == len,
            sorted == indices@,
            forall|k: int| 0 <= k < sorted.len() ==> #[trigger] sorted[k] < entries@.len(),
            start <= len,
            start % 8 == 0 || start == len,
            children@.len() == (start + 7) / 8,
            children_leaves(children@, children@.len() as int) == sorted.take(start as int),
            forall|j: int| 0 <= j < children@.len() ==> node_wf(#[trigger] children@[j], entries@),
            forall|j: int| 0 <= j < children@.len() ==> spec_node_count(#[trigger] children@[j]) == 1,
            forall|j: int| 0 <= j < children@.len() ==> spec_node_height(#[trigger] children@[j]) == 1,
            forall|j: int| 0 <= j < children@.len() ==> leaves_sized(#[trigger] children@[j]),
            forall|j: int|
                0 <= j < children@.len() ==> bounds_tight((#[trigger] children@[j]).bounds, entry_boxes(entries@, orig)),
            sorted.to_multiset() == orig.to_multiset(),
        decreases len - start,
    {
        let end = if len - start > MAX_CHILDREN { start + MAX_CHILDREN } else { len };
        let mut chunk = copy_range(indices, start, end);
        let ghost chunk0 = chunk@;
        assert(chunk0.len() < orig.len());
        let child = build_node(entries, &mut chunk, metric);
        match child {
            Some(c) => {
                let ghost old_children = children@;
                proof {
                    assert forall|k: int| 0 <= k < chunk0.len() implies orig.contains(#[trigger] chunk0[k]) by {
                        let x = chunk0[k];
                        assert(sorted[start + k] == x);
                        assert(sorted.contains(x));
                        sorted.to_multiset_ensures();
                        orig.to_multiset_ensures();
                        assert(sorted.to_multiset().count(x) > 0);
                        assert(orig.to_multiset().count(x) > 0);
                    }
                    lemma_tight_widen(c.bounds, entries@, chunk0, orig);
                }
                children.push(c);
                proof {
                    lemma_push_child(old_children, children@, c, sorted, start as int, end as int, chunk0);
                    assert forall|j: int| 0 <= j < children@.len() implies leaves_sized(#[trigger] children@[j])
                        && bounds_tight(children@[j].bounds, entry_boxes(entries@, orig)) by {
                        if j < old_children.len() {
                            assert(children@[j] == old_children[j]);
                        }
                    }
                }
            },
            None => {},
        }
        start = end;
    }
    assert(sorted.take(len as int) =~= sorted);
    let cb = match nodes_bounds(&children) {
        Some(b) => b,
        None => {
            return None;
        },
    };
    let n = Node { bounds: cb, kind: NodeKind::Branch(children) };
    proof {
        assert forall|j: int| 0 <= j < children@.len() implies box_contains(cb, (#[trigger] children@[j]).bounds) by {
            assert(node_boxes(children@)[j] == children@[j].bounds);
        }
        lemma_children_wf_from(children@, children@.len() as int, cb, entries@);
        lemma_children_all_single(children@, children@.len() as int);
        lemma_children_sized_from(children@, children@.len() as int);
        lemma_tight_compose(cb, children@, entries@, orig);
        assert(node_leaves(n) == children_leaves(children@, children@.len() as int));
        lemma_node_wf_leaves(n, entries@);
        assert forall|k: int| 0 <= k < entry_boxes(entries@, orig).len() implies box_contains(cb, #[trigger] entry_boxes(entries@, orig)[k]) by {
            let x = orig[k];
            assert(orig.to_multiset().count(x) > 0);
            assert(sorted.to_multiset().count(x) > 0);
            assert(sorted.contains(x));
            let j = choose|j: int| 0 <= j < sorted.len() && sorted[j] == x;
            assert(node_leaves(n)[j] == x);
        }
    }
    Some(n)
}

proof fn lemma_children_leaves_prefix(a: Seq<Node>, b: Seq<Node>, k: int)
    requires
        0 <= k <= a.len(),
        k <= b.len(),
        forall|j: int| 0 <= j < k ==> a[j] == b[j],
    ensures
        children_leaves(a, k) == children_leaves(b, k),
    decreases k,
{
    if k > 0 {
        lemma_children_leaves_prefix(a, b, k - 1);
    }
}

fn copy_range(v: &Vec<usize>, start: usize, end: usize) -> (r: Vec<usize>)
    requires
        start <= end <= v@.len(),
    ensures
        r@ == v@.subrange(start as int, end as int),
{
    let mut r: Vec<usize> = Vec::new();
    let mut t: usize = start;
    while t < end
        invariant
            start <= t <= end <= v@.len(),
            r@ == v@.subrange(start as int, t as int),
        decreases end - t,
    {
        r.push(v[t]);
        t = t + 1;
        assert(r@ =~= v@.subrange(start as int, t as int));
    }
    r
}

proof fn lemma_push_child(
    old_children: Seq<Node>,
    children: Seq<Node>,
    c: Node,
    sorted: Seq<usize>,
    start: int,
    end: int,
    chunk: Seq<usize>,
)
    requires
        children == old_children.push(c),
        0 <= start <= end <= sorted.len(),
        chunk == sorted.subrange(start, end),
        node_leaves(c) == chunk,
        children_leaves(old_children, old_children.len() as int) == sorted.take(start),
    ensures
        children_leaves(children, children.len() as int) == sorted.take(end),
{
    lemma_children_leaves_prefix(old_children, children, old_children.len() as int);
    assert(children[old_children.len() as int] == c);
    assert(sorted.take(end) =~= sorted.take(start) + chunk);
}

/// Some entry has id `id`.
pub open spec fn has_id(entries: Seq<Entry>, id: u64) -> bool {
    exists|i: int| 0 <= i < entries.len() && (#[trigger] entries[i]).id == id
}

/// The position of the entry with id `id` (meaningful when `has_id`).
pub open spec fn position_of(entries: Seq<Entry>, id: u64) -> int {
    choose|i: int| 0 <= i < entries.len() && (#[trigger] entries[i]).id == id
}

/// The entries after storing `bounds` under `id`: replaced in place when the
/// id is present, appended otherwise.
pub open spec fn entries_insert(entries: Seq<Entry>, id: u64, bounds: Aabb) -> Seq<Entry> {
    if has_id(entries, id) {
        entries.update(position_of(entries, id), Entry { id, bounds })
    } else {
        entries.push(Entry { id, bounds })
    }
}

/// The entries after replacing the box of `id`, when present.
pub open spec fn entries_update(entries: Seq<Entry>, id: u64, bounds: Aabb) -> Seq<Entry> {
    if has_id(entries, id) {
        entries.update(position_of(entries, id), Entry { id, bounds })
    } else {
        entries
    }
}

/// The entries after removing `id`, when present: the last entry takes its place.
pub open spec fn entries_remove(entries: Seq<Entry>, id: u64) -> Seq<Entry> {
    if has_id(entries, id) {
        entries.update(position_of(entries, id), entries.last()).drop_last()
    } else {
        entries
    }
}

/// A built tree: its leaves are each entry position once (in entry order
/// when they fit in one leaf), and its shape is the one `build_node` gives
/// for that many entries.
pub open spec fn root_ok(root: Option<Node>, entries: Seq<Entry>) -> bool {
    match root {
        None => entries.len() == 0,
        Some(n) => {
            &&& entries.len() > 0
            &&& node_wf(n, entries)
            &&& node_leaves(n).len() == entries.len()
            &&& node_leaves(n).no_duplicates()
            &&& entries.len() <= MAX_CHILDREN ==> node_leaves(n) == all_positions(entries.len() as int)
            &&& spec_node_count(n) == built_node_count(entries.len() as int)
            &&& spec_node_height(n) == built_height(entries.len() as int)
        },
    }
}

/// The shape a tree gets from `build_node`, for the number of its leaves.
pub open spec fn root_shape_ok(root: Option<Node>) -> bool {
    match root {
        None => true,
        Some(n) => {
            &&& node_leaves(n).len() <= usize::MAX
            &&& spec_node_count(n) == built_node_count(node_leaves(n).len() as int)
            &&& spec_node_height(n) == built_height(node_leaves(n).len() as int)
        },
    }
}

/// Boxes by id in a list, with a tree over them rebuilt on demand.
pub struct RTreeIndex {
    entries: Vec<Entry>,
    id_to_index: HashMap<u64, usize>,
    root: Option<Node>,
    dirty: bool,
}

impl View for RTreeIndex {
    type V = Seq<Entry>;

    /// The entries in list order.
    closed spec fn view(&self) -> Seq<Entry> {
        self.entries@
    }
}

impl RTreeIndex {
    /// The tree as last built.
    pub closed spec fn spec_root(&self) -> Option<Node> {
        self.root
    }

    /// Whether the entries changed since the tree was built.
    pub closed spec fn spec_dirty(&self) -> bool {
        self.dirty
    }

    /// The id map matches the list, ids are distinct and non-zero, and the
    /// tree is built over the current entries unless marked dirty.
    pub closed spec fn wf(&self) -> bool {
        &&& forall|i: int|
            0 <= i < self.entries@.len() ==> self.id_to_index@.contains_key(
                (#[trigger] self.entries@[i]).id,
            ) && self.id_to_index@[self.entries@[i].id] == i
        &&& forall|id: u64| #[trigger]
            self.id_to_index@.contains_key(id) ==> self.id_to_index@[id] < self.entries@.len()
                && self.entries@[self.id_to_index@[id] as int].id == id
        &&& forall|i: int| 0 <= i < self.entries@.len() ==> (#[trigger] self.entries@[i]).id != 0
        &&& !self.dirty ==> root_ok(self.root, self.entries@)
        &&& root_shape_ok(self.root)
    }

    /// What a well-formed index guarantees of its entries.
    pub proof fn lemma_wf(&self)
        requires
            self.wf(),
        ensures
            ids_distinct(self@),
            forall|i: int| 0 <= i < self@.len() ==> (#[trigger] self@[i]).id != 0,
            !self.spec_dirty() ==> root_ok(self.spec_root(), self@),
            root_shape_ok(self.spec_root()),
    {
        assert forall|i: int, j: int|
            0 <= i < self@.len() && 0 <= j < self@.len() && i != j implies #[trigger] self@[i].id
            != #[trigger] self@[j].id by {
            assert(self.id_to_index@[self.entries@[i].id] == i);
            assert(self.id_to_index@[self.entries@[j].id] == j);
        }
    }

    proof fn lemma_position(&self, id: u64)
        requires
            self.wf(),
            self.id_to_index@.contains_key(id),
        ensures
            has_id(self@, id),
            position_of(self@, id) == self.id_to_index@[id],
    {
        let i = self.id_to_index@[id] as int;
        assert(self.entries@[i].id == id);
        let p = position_of(self@, id);
        assert(self.id_to_index@[self.entries@[p].id] == p);
    }

    proof fn lemma_absent(&self, id: u64)
        requires
            self.wf(),
            !self.id_to_index@.contains_key(id),
        ensures
            !has_id(self@, id),
    {
        if has_id(self@, id) {
            let i = choose|i: int| 0 <= i < self.entries@.len() && (#[trigger] self.entries@[i]).id == id;
            assert(self.id_to_index@.contains_key(self.entries@[i].id));
        }
    }

    /// An empty index, not dirty, with no tree.
    pub fn new() -> (r: RTreeIndex)
        ensures
            r.wf(),
            r@ == Seq::<Entry>::empty(),
            r.spec_root() is None,
            !r.spec_dirty(),
    {
        RTreeIndex { entries: Vec::new(), id_to_index: HashMap::new(), root: None, dirty: false }
    }

    /// Removes every entry and the tree.
    pub fn clear(&mut self)
        requires
            old(self).wf(),
        ensures
            final(self).wf(),
            final(self)@ == Seq::<Entry>::empty(),
            final(self).spec_root() is None,
            !final(self).spec_dirty(),
    {
        self.entries.clear();
        self.id_to_index.clear();
        self.root = None;
        self.dirty = false;
    }

    /// The number of entries.
    pub fn len(&self) -> (r: usize)
        ensures
            r == self@.len(),
    {
        self.entries.len()
    }

    /// Whether the entries changed since the tree was built.
    pub fn is_dirty(&self) -> (r: bool)
        ensures
            r == self.spec_dirty(),
    {
        self.dirty
    }

    /// Whether some entry has id `id`.
    pub fn contains(&self, id: u64) -> (r: bool)
        requires
            self.wf(),
        ensures
            r == has_id(self@, id),
    {
        let r = self.id_to_index.contains_key(&id);
        proof {
            if r {
                self.lemma_position(id);
            } else {
                self.lemma_absent(id);
            }
        }
        r
    }

    /// Stores `bounds` under a non-zero `id` (in place when present, appended
    /// otherwise) and marks the tree dirty; id 0 is refused.
    pub fn insert(&mut self, id: u64, bounds: Aabb) -> (r: bool)
        requires
            old(self).wf(),
        ensures
            final(self).wf(),
            r == (id != 0),
            r ==> final(self)@ == entries_insert(old(self)@, id, bounds) && final(self).spec_dirty()
                && final(self).spec_root() == old(self).spec_root(),
            !r ==> final(self)@ == old(self)@ && final(self).spec_dirty() == old(self).spec_dirty()
                && final(self).spec_root() == old(self).spec_root(),
    {
        if id == 0 {
            return false;
        }
        match self.id_to_index.get(&id) {
            Some(index) => {
                let index = *index;
                proof {
                    self.lemma_position(id);
                }
                self.entries.set(index, Entry { id, bounds });
            },
            None => {
                proof {
                    self.lemma_absent(id);
                }
                let n = self.entries.len();
                self.id_to_index.insert(id, n);
                self.entries.push(Entry { id, bounds });
                assert(self.entries@[n as int].id == id);
            },
        }
        self.dirty = true;
        true
    }

    /// Replaces the box of `id` when present and marks the tree dirty;
    /// `true` exactly when `id` was present.
    pub fn update(&mut self, id: u64, bounds: Aabb) -> (r: bool)
        requires
            old(self).wf(),
        ensures
            final(self).wf(),
            r == has_id(old(self)@, id),
            final(self)@ == entries_update(old(self)@, id, bounds),
            final(self).spec_root() == old(self).spec_root(),
            final(self).spec_dirty() == (old(self).spec_dirty() || r),
    {
        match self.id_to_index.get(&id) {
            Some(index) => {
                let index = *index;
                proof {
                    self.lemma_position(id);
                }
                self.entries.set(index, Entry { id, bounds });
                self.dirty = true;
                true
            },
            None => {
                proof {
                    self.lemma_absent(id);
                }
                false
            },
        }
    }

    /// Removes `id` when present (the last entry takes its place) and marks
    /// the tree dirty; `true` exactly when `id` was present.
    pub fn remove(&mut self, id: u64) -> (r: bool)
        requires
            old(self).wf(),
        ensures
            final(self).wf(),
            r == has_id(old(self)@, id),
            final(self)@ == entries_remove(old(self)@, id),
            final(self).spec_root() == old(self).spec_root(),
            final(self).spec_dirty() == (old(self).spec_dirty() || r),
    {
        let ghost e0 = self.entries@;
        let ghost m0 = self.id_to_index@;
        let removed = self.id_to_index.remove(&id);
        match removed {
            Some(index) => {
                proof {
                    assert(m0.contains_key(id));
                    let i = m0[id] as int;
                    assert(e0[i].id == id);
                    let p = position_of(e0, id);
                    assert(m0[e0[p].id] == p);
                }
                let last = self.entries.len() - 1;
                self.entries.swap_remove(index);
                if index < self.entries.len() {
                    let moved = self.entries[index].id;
                    self.id_to_index.insert(moved, index);
                    proof {
                        assert(e0[last as int].id == moved);
                        assert(m0[moved] == last);
                    }
                }
                self.dirty = true;
                proof {
                    assert(self.entries@ =~= e0.update(index as int, e0.last()).drop_last());
                    assert forall|i: int|
                        0 <= i < self.entries@.len() implies self.id_to_index@.contains_key(
                            (#[trigger] self.entries@[i]).id,
                        ) && self.id_to_index@[self.entries@[i].id] == i by {
                        if i != index {
                            assert(self.entries@[i] == e0[i]);
                            assert(m0[e0[i].id] == i);
                            assert(e0[i].id != id);
                        }
                    }
                    assert forall|k: u64| #[trigger]
                        self.id_to_index@.contains_key(k) implies self.id_to_index@[k] < self.entries@.len()
                            && self.entries@[self.id_to_index@[k] as int].id == k by {
                        if index < self.entries@.len() && k == e0[last as int].id {
                        } else {
                            assert(m0.contains_key(k) && k != id);
                            let j = m0[k] as int;
                            assert(e0[j].id == k);
                            if j == last {
                                assert(k == e0[last as int].id);
                            }
                            assert(j != index);
                            assert(j < self.entries@.len());
                            assert(self.entries@[j] == e0[j]);
                        }
                    }
                }
                true
            },
            None => {
                proof {
                    if has_id(e0, id) {
                        let i = choose|i: int| 0 <= i < e0.len() && (#[trigger] e0[i]).id == id;
                        assert(m0.contains_key(e0[i].id));
                    }
                    assert(self.id_to_index@ =~= m0);
                }
                false
            },
        }
    }
}

/// The positions below `n` are distinct and each is its own index.
pub proof fn lemma_all_positions(n: int)
    requires
        0 <= n <= usize::MAX + 1,
    ensures
        all_positions(n).len() == n,
        all_positions(n).no_duplicates(),
        forall|i: int| 0 <= i < n ==> #[trigger] all_positions(n)[i] as int == i,
{
    let a = all_positions(n);
    assert forall|i: int| 0 <= i < n implies #[trigger] a[i] as int == i by {}
    assert forall|i: int, j: int| 0 <= i < a.len() && 0 <= j < a.len() && i != j implies a[i] != a[j] by {
        assert(a[i] as int == i);
        assert(a[j] as int == j);
    }
}

/// A duplicate-free list of `n` positions below `n` holds every position below `n`.
pub proof fn lemma_positions_cover(ix: Seq<usize>, n: int)
    requires
        0 <= n <= usize::MAX + 1,
        ix.no_duplicates(),
        ix.len() == n,
        forall|k: int| 0 <= k < ix.len() ==> #[trigger] ix[k] < n,
    ensures
        forall|i: usize| 0 <= i < n ==> #[trigger] ix.contains(i),
{
    let all = all_positions(n).to_set();
    let got = ix.to_set();
    lemma_all_positions(n);
    all_positions(n).unique_seq_to_set();
    ix.unique_seq_to_set();
    assert(got.subset_of(all)) by {
        assert forall|x: usize| got.contains(x) implies all.contains(x) by {
            let k = choose|k: int| 0 <= k < ix.len() && ix[k] == x;
            assert(all_positions(n)[x as int] == x);
        }
    }
    assert forall|x: usize| 0 <= x < n implies #[trigger] ix.contains(x) by {
        assert(all_positions(n)[x as int] == x);
        assert(all.contains(x));
        if !got.contains(x) {
            assert(got.subset_of(all.remove(x)));
            vstd::set_lib::lemma_len_subset(got, all.remove(x));
        }
    }
}

/// The hits found through a built tree are exactly the hits of a scan of the
/// entries (each once, possibly in another order).
pub proof fn lemma_tree_hits_match_scan(root: Node, entries: Seq<Entry>, q: Aabb)
    requires
        root_ok(Some(root), entries),
        ids_distinct(entries),
        entries.len() <= usize::MAX,
    ensures
        hits_in(node_leaves(root), entries, q).no_duplicates(),
        scan_hits(entries, q).no_duplicates(),
        forall|x: u64| #[trigger] hits_in(node_leaves(root), entries, q).contains(x) <==> scan_hits(
            entries,
            q,
        ).contains(x),
        hits_in(node_leaves(root), entries, q).len() == scan_hits(entries, q).len(),
{
    let leaves = node_leaves(root);
    let n = entries.len() as int;
    let all = all_positions(n);
    lemma_node_wf_leaves(root, entries);
    lemma_positions_cover(leaves, n);
    lemma_all_positions(n);
    lemma_hits_in_no_dup(leaves, entries, q);
    lemma_hits_in_no_dup(all, entries, q);
    lemma_hits_in_contains(leaves, entries, q);
    lemma_hits_in_contains(all, entries, q);
    let h1 = hits_in(leaves, entries, q);
    let h2 = hits_in(all, entries, q);
    assert forall|x: u64| #[trigger] h1.contains(x) <==> h2.contains(x) by {
        if h1.contains(x) {
            let k = choose|k: int|
                0 <= k < leaves.len() && is_hit(entries, #[trigger] leaves[k] as int, q)
                    && entries[leaves[k] as int].id == x;
            let i = leaves[k] as int;
            assert(all[i] == leaves[k]);
        }
        if h2.contains(x) {
            let k = choose|k: int|
                0 <= k < all.len() && is_hit(entries, #[trigger] all[k] as int, q)
                    && entries[all[k] as int].id == x;
            assert(leaves.contains(k as usize));
            let j = choose|j: int| 0 <= j < leaves.len() && leaves[j] == k as usize;
            assert(all[k] == k as usize);
        }
    }
    assert(h1.to_set() =~= h2.to_set());
    h1.unique_seq_to_set();
    h2.unique_seq_to_set();
}

proof fn lemma_scan_step(entries: Seq<Entry>, q: Aabb, j: int)
    requires
        0 <= j < entries.len(),
        entries.len() <= usize::MAX,
    ensures
        all_positions(j + 1).drop_last() == all_positions(j),
        all_positions(j + 1).last() == j as usize,
        hits_in(all_positions(j + 1), entries, q) == if is_hit(entries, j, q) {
            hits_in(all_positions(j), entries, q).push(entries[j].id)
        } else {
            hits_in(all_positions(j), entries, q)
        },
{
    assert(all_positions(j + 1).drop_last() =~= all_positions(j));
}

proof fn lemma_scan_prefix(entries: Seq<Entry>, q: Aabb, j: int)
    requires
        0 <= j <= entries.len(),
    ensures
        scan_hits(entries, q) == hits_in(all_positions(j), entries, q) + hits_in(
            all_positions(entries.len() as int).skip(j),
            entries,
            q,
        ),
{
    let all = all_positions(entries.len() as int);
    assert(all.take(j) =~= all_positions(j));
    lemma_hits_prefix(all, j, entries, q);
}

impl RTreeIndex {
    /// Builds the tree over the current entries when they changed since the
    /// last build.
    pub fn rebuild_if_needed<M: SplitMetric>(&mut self, metric: &M)
        requires
            old(self).wf(),
        ensures
            final(self).wf(),
            final(self)@ == old(self)@,
            !final(self).spec_dirty(),
            root_ok(final(self).spec_root(), final(self)@),
            !old(self).spec_dirty() ==> final(self).spec_root() == old(self).spec_root(),
    {
        if !self.dirty {
            return;
        }
        let n = self.entries.len();
        let mut indices: Vec<usize> = Vec::new();
        let mut i: usize = 0;
        while i < n
            invariant
                i <= n,
                indices@ == all_positions(i as int),
            decreases n - i,
        {
            indices.push(i);
            i = i + 1;
            assert(indices@ =~= all_positions(i as int));
        }
        let ghost before = indices@;
        let root = build_node(&self.entries, &mut indices, metric);
        proof {
            broadcast use vstd::seq_lib::group_to_multiset_ensures;
            lemma_all_positions(n as int);
            assert(before.no_duplicates());
            before.lemma_multiset_has_no_duplicates();
            assert forall|x: usize| indices@.to_multiset().contains(x) implies indices@.to_multiset().count(x) == 1 by {
                assert(before.to_multiset().contains(x));
            }
            indices@.lemma_multiset_has_no_duplicates_conv();
        }
        self.root = root;
        self.dirty = false;
    }

    /// The number of entries whose boxes meet `bounds` (capped at
    /// `u32::MAX`): by a scan for up to 16 entries, through the tree (rebuilt
    /// when dirty) otherwise.
    pub fn query_count<M: SplitMetric>(&mut self, bounds: Aabb, metric: &M) -> (r: u32)
        requires
            old(self).wf(),
            old(self)@.len() <= LINEAR_SCAN_LIMIT || scan_hits(old(self)@, bounds).len() <= u32::MAX,
        ensures
            final(self).wf(),
            final(self)@ == old(self)@,
            r as int == if scan_hits(old(self)@, bounds).len() <= u32::MAX {
                scan_hits(old(self)@, bounds).len() as int
            } else {
                u32::MAX as int
            },
            old(self)@.len() <= LINEAR_SCAN_LIMIT ==> final(self).spec_root() == old(self).spec_root()
                && final(self).spec_dirty() == old(self).spec_dirty(),
            old(self)@.len() > LINEAR_SCAN_LIMIT ==> !final(self).spec_dirty() && root_ok(
                final(self).spec_root(),
                final(self)@,
            ) && (!old(self).spec_dirty() ==> final(self).spec_root() == old(self).spec_root()),
    {
        let n = self.entries.len();
        if n <= LINEAR_SCAN_LIMIT {
            let mut c: usize = 0;
            let mut j: usize = 0;
            while j < n
                invariant
                    n == self.entries@.len(),
                    j <= n,
                    c == hits_in(all_positions(j as int), self.entries@, bounds).len(),
                    c <= j,
                decreases n - j,
            {
                proof {
                    lemma_scan_step(self.entries@, bounds, j as int);
                }
                if self.entries[j].bounds.intersects(bounds) {
                    c = c + 1;
                }
                j = j + 1;
            }
            return if c <= u32::MAX as usize { c as u32 } else { u32::MAX };
        }
        self.rebuild_if_needed(metric);
        match &self.root {
            Some(root) => {
                proof {
                    self.lemma_wf();
                    lemma_tree_hits_match_scan(*root, self.entries@, bounds);
                }
                count_node(root, &self.entries, bounds)
            },
            None => 0,
        }
    }

    /// Writes the ids of entries whose boxes meet `bounds` into `out_ids`, as
    /// many as fit, and returns how many: in entry order for up to 16
    /// entries, in leaf order of the (rebuilt when dirty) tree otherwise.
    pub fn query<M: SplitMetric>(&mut self, bounds: Aabb, out_ids: &mut [u64], metric: &M) -> (r: u32)
        requires
            old(self).wf(),
            old(out_ids)@.len() <= u32::MAX,
        ensures
            final(self).wf(),
            final(self)@ == old(self)@,
            old(self)@.len() <= LINEAR_SCAN_LIMIT ==> final(self).spec_root() == old(self).spec_root()
                && final(self).spec_dirty() == old(self).spec_dirty() && wrote_prefix(
                old(out_ids)@,
                final(out_ids)@,
                0,
                r as int,
                scan_hits(old(self)@, bounds),
            ),
            old(self)@.len() > LINEAR_SCAN_LIMIT ==> {
                &&& !final(self).spec_dirty()
                &&& root_ok(final(self).spec_root(), final(self)@)
                &&& !old(self).spec_dirty() ==> final(self).spec_root() == old(self).spec_root()
                &&& wrote_prefix(
                    old(out_ids)@,
                    final(out_ids)@,
                    0,
                    r as int,
                    hits_in(node_leaves(final(self).spec_root()->Some_0), old(self)@, bounds),
                )
            },
    {
        let n = self.entries.len();
        let olen = out_ids.len();
        let ghost o0 = out_ids@;
        if n <= LINEAR_SCAN_LIMIT {
            let mut written: usize = 0;
            let mut j: usize = 0;
            let ghost e = self.entries@;
            while j < n
                invariant_except_break
                    j <= n,
                    wrote_prefix(o0, out_ids@, 0, written as int, hits_in(all_positions(j as int), e, bounds)),
                invariant
                    n == self.entries@.len(),
                    e == self.entries@,
                    olen == out_ids@.len(),
                    olen == o0.len(),
                    written <= olen,
                ensures
                    wrote_prefix(o0, out_ids@, 0, written as int, scan_hits(e, bounds)),
                decreases n - j,
            {
                proof {
                    lemma_scan_prefix(e, bounds, j as int);
                }
                if written >= olen {
                    proof {
                        lemma_wrote_full(o0, out_ids@, 0, written as int, hits_in(all_positions(j as int), e, bounds), hits_in(all_positions(n as int).skip(j as int), e, bounds));
                    }
                    break;
                }
                let entry = self.entries[j];
                let ghost before = out_ids@;
                let ghost wb = written as int;
                proof {
                    lemma_scan_step(e, bounds, j as int);
                }
                if entry.bounds.intersects(bounds) {
                    out_ids[written] = entry.id;
                    written = written + 1;
                    proof {
                        assert(wrote_prefix(before, out_ids@, wb, written as int, seq![entry.id]));
                        lemma_wrote_compose(o0, before, out_ids@, 0, wb, written as int, hits_in(all_positions(j as int), e, bounds), seq![entry.id]);
                        assert(hits_in(all_positions(j + 1), e, bounds) =~= hits_in(all_positions(j as int), e, bounds) + seq![entry.id]);
                    }
                }
                j = j + 1;
            }
            return written as u32;
        }
        self.rebuild_if_needed(metric);
        let mut written: usize = 0;
        match &self.root {
            Some(root) => {
                query_node(root, &self.entries, bounds, out_ids, &mut written);
            },
            None => {},
        }
        written as u32
    }

    /// The number of nodes of the tree as last built (0 for none).
    pub fn node_count(&self) -> (r: usize)
        requires
            self.wf(),
        ensures
            r as int == match self.spec_root() {
                None => 0,
                Some(n) => spec_node_count(n),
            },
    {
        match &self.root {
            Some(root) => count_nodes(root),
            None => 0,
        }
    }

    /// The height of the tree as last built (0 for none).
    pub fn height(&self) -> (r: usize)
        requires
            self.wf(),
        ensures
            r as int == match self.spec_root() {
                None => 0,
                Some(n) => spec_node_height(n),
            },
    {
        match &self.root {
            Some(root) => node_height(root),
            None => 0,
        }
    }

    /// The id map holds as many ids as the list holds entries, and maps the id
    /// of each entry to that entry's position.
    pub closed spec fn lists_agree(&self) -> bool {
        &&& self.entries@.len() == self.id_to_index@.len()
        &&& forall|i: int|
            0 <= i < self.entries@.len() ==> self.id_to_index@.contains_key((#[trigger] self.entries@[i]).id)
                && self.id_to_index@[self.entries@[i].id] == i
    }

    /// Checks that the id map and the list agree (`lists_agree`); a
    /// well-formed index always passes.
    pub fn check_invariants(&self) -> (r: bool)
        ensures
            r == self.lists_agree(),
            self.wf() ==> r,
    {
        let n = self.entries.len();
        let m = self.id_to_index.len();
        proof {
            if self.wf() {
                self.lemma_wf();
                let ids = self.entries@.map_values(|e: Entry| e.id);
                assert(ids.no_duplicates()) by {
                    assert forall|i: int, j: int| 0 <= i < ids.len() && 0 <= j < ids.len() && i != j implies ids[i]
                        != ids[j] by {
                        assert(self.entries@[i].id != self.entries@[j].id);
                    }
                }
                ids.unique_seq_to_set();
                assert(ids.to_set() =~= self.id_to_index@.dom()) by {
                    assert forall|k: u64| self.id_to_index@.dom().contains(k) implies ids.to_set().contains(k) by {
                        let j = self.id_to_index@[k] as int;
                        assert(ids[j] == k);
                    }
                    assert forall|k: u64| ids.to_set().contains(k) implies self.id_to_index@.dom().contains(k) by {
                        let j = choose|j: int| 0 <= j < ids.len() && ids[j] == k;
                        assert(self.entries@[j].id == k);
                    }
                }
            }
        }
        let mut ok = n == m;
        let mut i: usize = 0;
        while i < n
            invariant
                n == self.entries@.len(),
                m == self.id_to_index@.len(),
                i <= n,
                ok == (n == m && forall|j: int|
                    0 <= j < i ==> self.id_to_index@.contains_key((#[trigger] self.entries@[j]).id)
                        && self.id_to_index@[self.entries@[j].id] == j),
            decreases n - i,
        {
            let id = self.entries[i].id;
            let found = match self.id_to_index.get(&id) {
                Some(index) => *index == i,
                None => false,
            };
            if !found {
                ok = false;
            }
            i = i + 1;
        }
        ok
    }
}

/// Counts of an index, as one record.
#[derive(Clone, Copy, Debug, PartialEq, Eq, Structural)]
pub struct RTreeStats {
    pub len: u32,
    pub node_count: u32,
    pub height: u32,
    pub dirty: Bool,
}

/// A new, empty index.
pub fn rtree_create() -> (r: RTreeIndex)
    ensures
        r.wf(),
        r@ == Seq::<Entry>::empty(),
        r.spec_root() is None,
        !r.spec_dirty(),
{
    RTreeIndex::new()
}

/// Removes every entry and the tree.
pub fn rtree_clear(tree: &mut RTreeIndex)
    requires
        old(tree).wf(),
    ensures
        final(tree).wf(),
        final(tree)@ == Seq::<Entry>::empty(),
        final(tree).spec_root() is None,
        !final(tree).spec_dirty(),
{
    tree.clear();
}

/// The number of entries, capped at `u32::MAX`.
pub fn rtree_len(tree: &RTreeIndex) -> (r: u32)
    ensures
        r as int == cap_u32(tree@.len() as int),
{
    let n = tree.len();
    if n <= u32::MAX as usize {
        n as u32
    } else {
        u32::MAX
    }
}

/// The number of tree nodes after rebuilding when dirty, capped at `u32::MAX`.
pub fn rtree_node_count<M: SplitMetric>(tree: &mut RTreeIndex, metric: &M) -> (r: u32)
    requires
        old(tree).wf(),
    ensures
        final(tree).wf(),
        final(tree)@ == old(tree)@,
        !final(tree).spec_dirty(),
        root_ok(final(tree).spec_root(), final(tree)@),
        r as int == if old(tree)@.len() == 0 {
            0
        } else {
            cap_u32(built_node_count(old(tree)@.len() as int))
        },
{
    tree.rebuild_if_needed(metric);
    let c = tree.node_count();
    if c <= u32::MAX as usize {
        c as u32
    } else {
        u32::MAX
    }
}

/// The tree height after rebuilding when dirty, capped at `u32::MAX`.
pub fn rtree_height<M: SplitMetric>(tree: &mut RTreeIndex, metric: &M) -> (r: u32)
    requires
        old(tree).wf(),
    ensures
        final(tree).wf(),
        final(tree)@ == old(tree)@,
        !final(tree).spec_dirty(),
        root_ok(final(tree).spec_root(), final(tree)@),
        r as int == if old(tree)@.len() == 0 {
            0
        } else {
            built_height(old(tree)@.len() as int)
        },
{
    tree.rebuild_if_needed(metric);
    let h = tree.height();
    if h <= u32::MAX as usize {
        h as u32
    } else {
        u32::MAX
    }
}

/// Length, node count, height (after rebuilding when dirty) and dirtiness.
pub fn rtree_stats<M: SplitMetric>(tree: &mut RTreeIndex, metric: &M) -> (r: RTreeStats)
    requires
        old(tree).wf(),
    ensures
        final(tree).wf(),
        final(tree)@ == old(tree)@,
        !final(tree).spec_dirty(),
        root_ok(final(tree).spec_root(), final(tree)@),
        r.len as int == cap_u32(old(tree)@.len() as int),
        r.node_count as int == if old(tree)@.len() == 0 {
            0
        } else {
            cap_u32(built_node_count(old(tree)@.len() as int))
        },
        r.height as int == if old(tree)@.len() == 0 {
            0
        } else {
            built_height(old(tree)@.len() as int)
        },
        r.dirty == Bool(0),
{
    tree.rebuild_if_needed(metric);
    let n = tree.len();
    let c = tree.node_count();
    let h = tree.height();
    RTreeStats {
        len: if n <= u32::MAX as usize { n as u32 } else { u32::MAX },
        node_count: if c <= u32::MAX as usize { c as u32 } else { u32::MAX },
        height: if h <= u32::MAX as usize { h as u32 } else { u32::MAX },
        dirty: Bool::from_bool(tree.is_dirty()),
    }
}

/// Whether the entries changed since the tree was built.
pub fn rtree_is_dirty(tree: &RTreeIndex) -> (r: Bool)
    ensures
        r == bool_of(tree.spec_dirty()),
{
    Bool::from_bool(tree.is_dirty())
}

/// Whether some entry has id `id`.
pub fn rtree_contains(tree: &RTreeIndex, id: u64) -> (r: Bool)
    requires
        tree.wf(),
    ensures
        r == bool_of(has_id(tree@, id)),
{
    Bool::from_bool(tree.contains(id))
}

/// Writes, for each id, whether it is present; returns the number of ids.
pub fn rtree_contains_batch(tree: &RTreeIndex, ids: &[u64], out_values: &mut [Bool]) -> (r: u32)
    requires
        tree.wf(),
        ids@.len() <= u32::MAX,
        old(out_values)@.len() == ids@.len(),
    ensures
        r == ids@.len(),
        final(out_values)@.len() == ids@.len(),
        forall|i: int| 0 <= i < ids@.len() ==> #[trigger] final(out_values)@[i] == bool_of(has_id(tree@, ids@[i])),
{
    let mut i: usize = 0;
    while i < ids.len()
        invariant
            tree.wf(),
            out_values@.len() == ids@.len(),
            i <= ids@.len(),
            forall|k: int| 0 <= k < i ==> #[trigger] out_values@[k] == bool_of(has_id(tree@, ids@[k])),
        decreases ids@.len() - i,
    {
        out_values[i] = Bool::from_bool(tree.contains(ids[i]));
        i = i + 1;
    }
    ids.len() as u32
}

/// Stores a valid box under a non-zero id; `TRUE` exactly when it did.
pub fn rtree_insert(tree: &mut RTreeIndex, id: u64, aabb: AabbDesc) -> (r: Bool)
    requires
        old(tree).wf(),
    ensures
        final(tree).wf(),
        r == bool_of(id != 0 && desc_is_valid(aabb)),
        final(tree)@ == if id != 0 && desc_is_valid(aabb) {
            entries_insert(old(tree)@, id, desc_box(aabb))
        } else {
            old(tree)@
        },
        final(tree).spec_root() == old(tree).spec_root(),
        final(tree).spec_dirty() == (old(tree).spec_dirty() || (id != 0 && desc_is_valid(aabb))),
{
    match Aabb::from_desc(aabb) {
        Some(bounds) => Bool::from_bool(tree.insert(id, bounds)),
        None => Bool(0),
    }
}

/// Replaces the box of a present id with a valid one; `TRUE` exactly when it did.
pub fn rtree_update(tree: &mut RTreeIndex, id: u64, aabb: AabbDesc) -> (r: Bool)
    requires
        old(tree).wf(),
    ensures
        final(tree).wf(),
        r == bool_of(has_id(old(tree)@, id) && desc_is_valid(aabb)),
        final(tree)@ == if desc_is_valid(aabb) {
            entries_update(old(tree)@, id, desc_box(aabb))
        } else {
            old(tree)@
        },
        final(tree).spec_root() == old(tree).spec_root(),
        final(tree).spec_dirty() == (old(tree).spec_dirty() || (has_id(old(tree)@, id) && desc_is_valid(aabb))),
{
    if !tree.contains(id) {
        proof {
            assert(entries_update(tree@, id, desc_box(aabb)) == tree@);
        }
        return Bool(0);
    }
    match Aabb::from_desc(aabb) {
        Some(bounds) => Bool::from_bool(tree.update(id, bounds)),
        None => Bool(0),
    }
}

/// Removes `id` (the last entry takes its place); `TRUE` exactly when present.
pub fn rtree_remove(tree: &mut RTreeIndex, id: u64) -> (r: Bool)
    requires
        old(tree).wf(),
    ensures
        final(tree).wf(),
        r == bool_of(has_id(old(tree)@, id)),
        final(tree)@ == entries_remove(old(tree)@, id),
        final(tree).spec_root() == old(tree).spec_root(),
        final(tree).spec_dirty() == (old(tree).spec_dirty() || has_id(old(tree)@, id)),
{
    Bool::from_bool(tree.remove(id))
}

/// The entries after the first `n` inserts of a batch, and how many took effect.
pub open spec fn insert_batch_state(e: Seq<Entry>, ids: Seq<u64>, aabbs: Seq<AabbDesc>, n: int) -> (Seq<Entry>, int)
    decreases n,
{
    if n <= 0 {
        (e, 0)
    } else {
        let (prev, c) = insert_batch_state(e, ids, aabbs, n - 1);
        if ids[n - 1] != 0 && desc_is_valid(aabbs[n - 1]) {
            (entries_insert(prev, ids[n - 1], desc_box(aabbs[n - 1])), c + 1)
        } else {
            (prev, c)
        }
    }
}

/// Applies `rtree_insert` to each pair in order; returns how many took effect.
pub fn rtree_insert_batch(tree: &mut RTreeIndex, ids: &[u64], aabbs: &[AabbDesc]) -> (r: u32)
    requires
        old(tree).wf(),
        ids@.len() == aabbs@.len(),
        ids@.len() <= u32::MAX,
    ensures
        final(tree).wf(),
        (final(tree)@, r as int) == insert_batch_state(old(tree)@, ids@, aabbs@, ids@.len() as int),
        final(tree).spec_root() == old(tree).spec_root(),
        final(tree).spec_dirty() == (old(tree).spec_dirty() || r > 0),
{
    let ghost e0 = tree@;
    let mut inserted: u32 = 0;
    let mut i: usize = 0;
    while i < ids.len()
        invariant
            tree.wf(),
            ids@.len() == aabbs@.len(),
            ids@.len() <= u32::MAX,
            i <= ids@.len(),
            inserted <= i,
            (tree@, inserted as int) == insert_batch_state(e0, ids@, aabbs@, i as int),
            tree.spec_root() == old(tree).spec_root(),
            tree.spec_dirty() == (old(tree).spec_dirty() || inserted > 0),
        decreases ids@.len() - i,
    {
        match Aabb::from_desc(aabbs[i]) {
            Some(bounds) => {
                if tree.insert(ids[i], bounds) {
                    inserted = inserted + 1;
                }
            },
            None => {},
        }
        i = i + 1;
    }
    inserted
}

/// The entries after the first `n` updates of a batch, and how many took effect.
pub open spec fn update_batch_entries(e: Seq<Entry>, ids: Seq<u64>, aabbs: Seq<AabbDesc>, n: int) -> (Seq<Entry>, int)
    decreases n,
{
    if n <= 0 {
        (e, 0)
    } else {
        let (prev, c) = update_batch_entries(e, ids, aabbs, n - 1);
        if has_id(prev, ids[n - 1]) && desc_is_valid(aabbs[n - 1]) {
            (entries_update(prev, ids[n - 1], desc_box(aabbs[n - 1])), c + 1)
        } else {
            (prev, c)
        }
    }
}

/// Applies `rtree_update` to each pair in order; returns how many took effect.
pub fn rtree_update_batch(tree: &mut RTreeIndex, ids: &[u64], aabbs: &[AabbDesc]) -> (r: u32)
    requires
        old(tree).wf(),
        ids@.len() == aabbs@.len(),
        ids@.len() <= u32::MAX,
    ensures
        final(tree).wf(),
        (final(tree)@, r as int) == update_batch_entries(old(tree)@, ids@, aabbs@, ids@.len() as int),
        final(tree).spec_root() == old(tree).spec_root(),
        final(tree).spec_dirty() == (old(tree).spec_dirty() || r > 0),
{
    let ghost e0 = tree@;
    let mut updated: u32 = 0;
    let mut i: usize = 0;
    while i < ids.len()
        invariant
            tree.wf(),
            ids@.len() == aabbs@.len(),
            ids@.len() <= u32::MAX,
            i <= ids@.len(),
            updated <= i,
            (tree@, updated as int) == update_batch_entries(e0, ids@, aabbs@, i as int),
            tree.spec_root() == old(tree).spec_root(),
            tree.spec_dirty() == (old(tree).spec_dirty() || updated > 0),
        decreases ids@.len() - i,
    {
        match Aabb::from_desc(aabbs[i]) {
            Some(bounds) => {
                if tree.update(ids[i], bounds) {
                    updated = updated + 1;
                }
            },
            None => {},
        }
        i = i + 1;
    }
    updated
}

/// The entries after the first `n` removals of a batch, and how many were present.
pub open spec fn remove_batch_entries(e: Seq<Entry>, ids: Seq<u64>, n: int) -> (Seq<Entry>, int)
    decreases n,
{
    if n <= 0 {
        (e, 0)
    } else {
        let (prev, c) = remove_batch_entries(e, ids, n - 1);
        if has_id(prev, ids[n - 1]) {
            (entries_remove(prev, ids[n - 1]), c + 1)
        } else {
            (prev, c)
        }
    }
}

/// Removes each id in order; returns how many were present.
pub fn rtree_remove_batch(tree: &mut RTreeIndex, ids: &[u64]) -> (r: u32)
    requires
        old(tree).wf(),
        ids@.len() <= u32::MAX,
    ensures
        final(tree).wf(),
        (final(tree)@, r as int) == remove_batch_entries(old(tree)@, ids@, ids@.len() as int),
        final(tree).spec_root() == old(tree).spec_root(),
        final(tree).spec_dirty() == (old(tree).spec_dirty() || r > 0),
{
    let ghost e0 = tree@;
    let mut removed: u32 = 0;
    let mut i: usize = 0;
    while i < ids.len()
        invariant
            tree.wf(),
            ids@.len() <= u32::MAX,
            i <= ids@.len(),
            removed <= i,
            (tree@, removed as int) == remove_batch_entries(e0, ids@, i as int),
            tree.spec_root() == old(tree).spec_root(),
            tree.spec_dirty() == (old(tree).spec_dirty() || removed > 0),
        decreases ids@.len() - i,
    {
        if tree.remove(ids[i]) {
            removed = removed + 1;
        }
        i = i + 1;
    }
    removed
}

/// Rebuilds the tree whether or not the entries changed.
pub fn rtree_rebuild<M: SplitMetric>(tree: &mut RTreeIndex, metric: &M)
    requires
        old(tree).wf(),
    ensures
        final(tree).wf(),
        final(tree)@ == old(tree)@,
        !final(tree).spec_dirty(),
        root_ok(final(tree).spec_root(), final(tree)@),
{
    tree.dirty = true;
    tree.rebuild_if_needed(metric);
}

/// The number of entries meeting a valid description (capped at
/// `u32::MAX`); 0 for an invalid one.
pub fn rtree_query_aabb_count<M: SplitMetric>(tree: &mut RTreeIndex, aabb: AabbDesc, metric: &M) -> (r: u32)
    requires
        old(tree).wf(),
        old(tree)@.len() <= u32::MAX,
    ensures
        final(tree).wf(),
        final(tree)@ == old(tree)@,
        r as int == if desc_is_valid(aabb) {
            cap_u32(scan_hits(old(tree)@, desc_box(aabb)).len() as int)
        } else {
            0
        },
        !desc_is_valid(aabb) || old(tree)@.len() <= LINEAR_SCAN_LIMIT ==> final(tree).spec_root() == old(
            tree,
        ).spec_root() && final(tree).spec_dirty() == old(tree).spec_dirty(),
        desc_is_valid(aabb) && old(tree)@.len() > LINEAR_SCAN_LIMIT ==> !final(tree).spec_dirty() && root_ok(
            final(tree).spec_root(),
            final(tree)@,
        ) && (!old(tree).spec_dirty() ==> final(tree).spec_root() == old(tree).spec_root()),
{
    match Aabb::from_desc(aabb) {
        Some(bounds) => {
            proof {
                lemma_hits_in_len(all_positions(tree@.len() as int), tree@, bounds);
            }
            tree.query_count(bounds, metric)
        },
        None => 0,
    }
}

/// The hits a built tree gives for a description (none for an invalid one).
pub open spec fn tree_hits_of(root: Option<Node>, e: Seq<Entry>, d: AabbDesc) -> Seq<u64> {
    match root {
        Some(n) => if desc_is_valid(d) {
            hits_in(node_leaves(n), e, desc_box(d))
        } else {
            Seq::empty()
        },
        None => Seq::empty(),
    }
}

/// Rebuilds when dirty, then writes for each description the number of
/// entries meeting it (0 for an invalid one); returns the number written.
pub fn rtree_query_aabb_counts<M: SplitMetric>(
    tree: &mut RTreeIndex,
    aabbs: &[AabbDesc],
    out_counts: &mut [u32],
    metric: &M,
) -> (r: u32)
    requires
        old(tree).wf(),
        old(tree)@.len() <= u32::MAX,
        aabbs@.len() <= u32::MAX,
        old(out_counts)@.len() == aabbs@.len(),
    ensures
        final(tree).wf(),
        final(tree)@ == old(tree)@,
        !final(tree).spec_dirty(),
        root_ok(final(tree).spec_root(), final(tree)@),
        r == aabbs@.len(),
        final(out_counts)@.len() == aabbs@.len(),
        forall|i: int|
            0 <= i < aabbs@.len() ==> #[trigger] final(out_counts)@[i] as int == if desc_is_valid(aabbs@[i]) {
                scan_hits(old(tree)@, desc_box(aabbs@[i])).len() as int
            } else {
                0
            },
{
    tree.rebuild_if_needed(metric);
    let mut written: u32 = 0;
    let mut i: usize = 0;
    proof {
        tree.lemma_wf();
    }
    while i < aabbs.len()
        invariant
            tree.wf(),
            tree@ == old(tree)@,
            !tree.spec_dirty(),
            root_ok(tree.spec_root(), tree@),
            ids_distinct(tree@),
            tree@.len() <= u32::MAX,
            out_counts@.len() == aabbs@.len(),
            aabbs@.len() <= u32::MAX,
            i <= aabbs@.len(),
            written == i,
            forall|k: int|
                0 <= k < i ==> #[trigger] out_counts@[k] as int == if desc_is_valid(aabbs@[k]) {
                    scan_hits(tree@, desc_box(aabbs@[k])).len() as int
                } else {
                    0
                },
        decreases aabbs@.len() - i,
    {
        let c = match Aabb::from_desc(aabbs[i]) {
            Some(bounds) => match &tree.root {
                Some(root) => {
                    proof {
                        lemma_tree_hits_match_scan(*root, tree.entries@, bounds);
                        lemma_hits_in_len(all_positions(tree@.len() as int), tree@, bounds);
                    }
                    count_node(root, &tree.entries, bounds)
                },
                None => {
                    assert(scan_hits(tree@, bounds) =~= Seq::<u64>::empty());
                    0
                },
            },
            None => 0,
        };
        out_counts[i] = c;
        written = written + 1;
        i = i + 1;
    }
    written
}

/// Writes the ids of entries meeting a valid description into `out_ids`, as
/// many as fit (see `RTreeIndex::query`); nothing for an invalid one.
pub fn rtree_query_aabb<M: SplitMetric>(tree: &mut RTreeIndex, aabb: AabbDesc, out_ids: &mut [u64], metric: &M) -> (r: u32)
    requires
        old(tree).wf(),
        old(out_ids)@.len() <= u32::MAX,
    ensures
        final(tree).wf(),
        final(tree)@ == old(tree)@,
        !desc_is_valid(aabb) ==> r == 0 && final(out_ids)@ == old(out_ids)@ && final(tree).spec_root()
            == old(tree).spec_root() && final(tree).spec_dirty() == old(tree).spec_dirty(),
        desc_is_valid(aabb) && old(tree)@.len() <= LINEAR_SCAN_LIMIT ==> final(tree).spec_root() == old(
            tree,
        ).spec_root() && final(tree).spec_dirty() == old(tree).spec_dirty() && wrote_prefix(
            old(out_ids)@,
            final(out_ids)@,
            0,
            r as int,
            scan_hits(old(tree)@, desc_box(aabb)),
        ),
        desc_is_valid(aabb) && old(tree)@.len() > LINEAR_SCAN_LIMIT ==> !final(tree).spec_dirty() && root_ok(
            final(tree).spec_root(),
            final(tree)@,
        ) && (!old(tree).spec_dirty() ==> final(tree).spec_root() == old(tree).spec_root()) && wrote_prefix(
            old(out_ids)@,
            final(out_ids)@,
            0,
            r as int,
            hits_in(node_leaves(final(tree).spec_root()->Some_0), old(tree)@, desc_box(aabb)),
        ),
{
    match Aabb::from_desc(aabb) {
        Some(bounds) => tree.query(bounds, out_ids, metric),
        None => 0,
    }
}

/// The hits of the first `n` queries of a batch, one after another.
pub open spec fn tree_batch_hits(root: Option<Node>, e: Seq<Entry>, qs: Seq<AabbDesc>, n: int) -> Seq<u64>
    decreases n,
{
    if n <= 0 {
        Seq::empty()
    } else {
        tree_batch_hits(root, e, qs, n - 1) + tree_hits_of(root, e, qs[n - 1])
    }
}

/// `x` capped at `cap`.
pub open spec fn cap_at(x: int, cap: int) -> int {
    if x <= cap {
        x
    } else {
        cap
    }
}

/// Rebuilds when dirty, then runs the queries in order through the tree,
/// writing their hits one after another into `out_ids` while room is left,
/// and where each query's hits start into `out_offsets` (with the end after
/// the last). Returns the number of queries.
pub fn rtree_query_aabbs<M: SplitMetric>(
    tree: &mut RTreeIndex,
    aabbs: &[AabbDesc],
    out_offsets: &mut [u32],
    out_ids: &mut [u64],
    metric: &M,
) -> (r: u32)
    requires
        old(tree).wf(),
        aabbs@.len() <= u32::MAX,
        old(out_offsets)@.len() == aabbs@.len() + 1,
        old(out_ids)@.len() <= u32::MAX,
    ensures
        final(tree).wf(),
        final(tree)@ == old(tree)@,
        !final(tree).spec_dirty(),
        root_ok(final(tree).spec_root(), final(tree)@),
        r == aabbs@.len(),
        final(out_offsets)@.len() == old(out_offsets)@.len(),
        forall|j: int|
            0 <= j <= aabbs@.len() ==> #[trigger] final(out_offsets)@[j] as int == cap_at(
                tree_batch_hits(final(tree).spec_root(), old(tree)@, aabbs@, j).len() as int,
                old(out_ids)@.len() as int,
            ),
        wrote_prefix(
            old(out_ids)@,
            final(out_ids)@,
            0,
            final(out_offsets)@[aabbs@.len() as int] as int,
            tree_batch_hits(final(tree).spec_root(), old(tree)@, aabbs@, aabbs@.len() as int),
        ),
{
    tree.rebuild_if_needed(metric);
    let count = aabbs.len();
    let ghost e = tree@;
    let ghost qs = aabbs@;
    let ghost o0 = out_ids@;
    let cap = out_ids.len();
    match &tree.root {
        None => {
            let mut j: usize = 0;
            proof {
                lemma_batch_hits_none(e, qs, count as int);
            }
            while j < out_offsets.len()
                invariant
                    out_offsets@.len() == count + 1,
                    j <= count + 1,
                    tree.spec_root() is None,
                    forall|k: int| 0 <= k < j ==> #[trigger] out_offsets@[k] == 0,
                    forall|k: int| 0 <= k <= count ==> #[trigger] tree_batch_hits(tree.spec_root(), e, qs, k) == Seq::<u64>::empty(),
                decreases count + 1 - j,
            {
                out_offsets[j] = 0;
                j = j + 1;
            }
            return count as u32;
        },
        Some(root) => {
            let ghost rt = Some(*root);
            let mut written: usize = 0;
            out_offsets[0] = 0;
            let mut i: usize = 0;
            assert(tree_batch_hits(rt, e, qs, 0) =~= Seq::<u64>::empty());
            while i < count
                invariant_except_break
                    i <= count,
                    written as int == cap_at(tree_batch_hits(rt, e, qs, i as int).len() as int, cap as int),
                    forall|j: int| 0 <= j <= i ==> #[trigger] out_offsets@[j] as int == cap_at(tree_batch_hits(rt, e, qs, j).len() as int, cap as int),
                    wrote_prefix(o0, out_ids@, 0, written as int, tree_batch_hits(rt, e, qs, i as int)),
                invariant
                    rt == tree.spec_root(),
                    rt == Some(*root),
                    root_ok(rt, e),
                    e == tree@,
                    e == tree.entries@,
                    qs == aabbs@,
                    count == aabbs@.len(),
                    count <= u32::MAX,
                    cap == out_ids@.len(),
                    cap == o0.len(),
                    cap <= u32::MAX,
                    out_offsets@.len() == count + 1,
                    written <= cap,
                ensures
                    forall|j: int| 0 <= j <= count ==> #[trigger] out_offsets@[j] as int == cap_at(tree_batch_hits(rt, e, qs, j).len() as int, cap as int),
                    wrote_prefix(o0, out_ids@, 0, out_offsets@[count as int] as int, tree_batch_hits(rt, e, qs, count as int)),
                decreases count - i,
            {
                let ghost before = out_ids@;
                let ghost wb = written as int;
                match Aabb::from_desc(aabbs[i]) {
                    Some(bounds) => {
                        query_node(root, &tree.entries, bounds, out_ids, &mut written);
                    },
                    None => {
                        proof {
                            lemma_wrote_nothing(out_ids@, wb);
                        }
                    },
                }
                proof {
                    lemma_wrote_compose(o0, before, out_ids@, 0, wb, written as int, tree_batch_hits(rt, e, qs, i as int), tree_hits_of(rt, e, qs[i as int]));
                }
                let off: u32 = written as u32;
                out_offsets[i + 1] = off;
                if written >= out_ids.len() {
                    let mut j: usize = i + 2;
                    while j < count + 1
                        invariant
                            out_offsets@.len() == count + 1,
                            i + 2 <= j <= count + 1,
                            i < count,
                            off as int == cap,
                            forall|k: int| 0 <= k <= i + 1 ==> #[trigger] out_offsets@[k] as int == cap_at(tree_batch_hits(rt, e, qs, k).len() as int, cap as int),
                            forall|k: int| i + 2 <= k < j ==> #[trigger] out_offsets@[k] as int == cap_at(tree_batch_hits(rt, e, qs, k).len() as int, cap as int),
                            tree_batch_hits(rt, e, qs, i + 1).len() >= cap,
                        decreases count + 1 - j,
                    {
                        proof {
                            lemma_batch_hits_grow(rt, e, qs, i + 1, j as int);
                        }
                        out_offsets[j] = off;
                        j = j + 1;
                    }
                    proof {
                        lemma_wrote_full(o0, out_ids@, 0, written as int, tree_batch_hits(rt, e, qs, i + 1), tree_batch_hits_from(rt, e, qs, i + 1, count as int));
                        lemma_batch_hits_split(rt, e, qs, i + 1, count as int);
                    }
                    break;
                }
                i = i + 1;
            }
            count as u32
        },
    }
}

/// The hits of queries `i..n` of a batch, one after another.
pub open spec fn tree_batch_hits_from(root: Option<Node>, e: Seq<Entry>, qs: Seq<AabbDesc>, i: int, n: int) -> Seq<u64>
    decreases n - i,
{
    if n <= i {
        Seq::empty()
    } else {
        tree_batch_hits_from(root, e, qs, i, n - 1) + tree_hits_of(root, e, qs[n - 1])
    }
}

proof fn lemma_batch_hits_split(root: Option<Node>, e: Seq<Entry>, qs: Seq<AabbDesc>, i: int, n: int)
    requires
        0 <= i <= n,
    ensures
        tree_batch_hits(root, e, qs, n) == tree_batch_hits(root, e, qs, i) + tree_batch_hits_from(root, e, qs, i, n),
    decreases n - i,
{
    if n > i {
        lemma_batch_hits_split(root, e, qs, i, n - 1);
        assert(tree_batch_hits(root, e, qs, n) =~= tree_batch_hits(root, e, qs, i) + tree_batch_hits_from(root, e, qs, i, n));
    } else {
        assert(tree_batch_hits(root, e, qs, n) =~= tree_batch_hits(root, e, qs, i) + Seq::<u64>::empty());
    }
}

proof fn lemma_batch_hits_grow(root: Option<Node>, e: Seq<Entry>, qs: Seq<AabbDesc>, i: int, j: int)
    requires
        0 <= i <= j,
    ensures
        tree_batch_hits(root, e, qs, i).len() <= tree_batch_hits(root, e, qs, j).len(),
    decreases j - i,
{
    if j > i {
        lemma_batch_hits_grow(root, e, qs, i, j - 1);
    }
}

proof fn lemma_batch_hits_none(e: Seq<Entry>, qs: Seq<AabbDesc>, n: int)
    ensures
        forall|k: int| 0 <= k <= n ==> #[trigger] tree_batch_hits(None, e, qs, k) == Seq::<u64>::empty(),
    decreases n,
{
    if n > 0 {
        lemma_batch_hits_none(e, qs, n - 1);
        assert(tree_batch_hits(None, e, qs, n - 1) == Seq::<u64>::empty());
        assert(tree_hits_of(None, e, qs[n - 1]) == Seq::<u64>::empty());
        assert(tree_batch_hits(None, e, qs, n) =~= Seq::<u64>::empty());
    }
}

/// A scan finds `x` exactly when some entry with id `x` meets `q`.
pub proof fn lemma_scan_contains(e: Seq<Entry>, q: Aabb, x: u64)
    requires
        e.len() <= usize::MAX,
    ensures
        scan_hits(e, q).contains(x) <==> exists|i: int|
            0 <= i < e.len() && (#[trigger] e[i]).id == x && boxes_intersect(e[i].bounds, q),
{
    let all = all_positions(e.len() as int);
    lemma_all_positions(e.len() as int);
    lemma_hits_in_contains(all, e, q);
    if scan_hits(e, q).contains(x) {
        let k = choose|k: int| 0 <= k < all.len() && is_hit(e, #[trigger] all[k] as int, q) && e[all[k] as int].id == x;
        assert(all[k] as int == k);
        assert(e[k].id == x && boxes_intersect(e[k].bounds, q));
    }
    if exists|i: int| 0 <= i < e.len() && (#[trigger] e[i]).id == x && boxes_intersect(e[i].bounds, q) {
        let i = choose|i: int| 0 <= i < e.len() && (#[trigger] e[i]).id == x && boxes_intersect(e[i].bounds, q);
        assert(all[i] as int == i);
        assert(is_hit(e, all[i] as int, q));
    }
}

/// What a query reads back of an insert: after storing `bounds` under `id`,
/// a query finds `id` exactly when `bounds` meets it, and finds any other id
/// exactly as before.
pub proof fn lemma_query_after_insert(e: Seq<Entry>, id: u64, bounds: Aabb, q: Aabb, x: u64)
    requires
        ids_distinct(e),
        e.len() < usize::MAX,
    ensures
        has_id(entries_insert(e, id, bounds), id),
        scan_hits(entries_insert(e, id, bounds), q).contains(id) <==> boxes_intersect(bounds, q),
        x != id ==> (scan_hits(entries_insert(e, id, bounds), q).contains(x) <==> scan_hits(e, q).contains(x)),
{
    let n = entries_insert(e, id, bounds);
    lemma_scan_contains(e, q, x);
    lemma_scan_contains(n, q, x);
    lemma_scan_contains(n, q, id);
    if has_id(e, id) {
        let p = position_of(e, id);
        assert(n[p].id == id);
        assert forall|i: int| 0 <= i < n.len() && i != p implies #[trigger] n[i] == e[i] && n[i].id != id by {
            assert(e[i].id != e[p].id);
        }
        if scan_hits(n, q).contains(id) {
            let i = choose|i: int| 0 <= i < n.len() && (#[trigger] n[i]).id == id && boxes_intersect(n[i].bounds, q);
            if i != p {
                assert(n[i].id != id);
            }
        }
        if x != id {
            if scan_hits(n, q).contains(x) {
                let i = choose|i: int| 0 <= i < n.len() && (#[trigger] n[i]).id == x && boxes_intersect(n[i].bounds, q);
                assert(e[i] == n[i]);
            }
            if scan_hits(e, q).contains(x) {
                let i = choose|i: int| 0 <= i < e.len() && (#[trigger] e[i]).id == x && boxes_intersect(e[i].bounds, q);
                assert(i != p);
                assert(n[i] == e[i]);
            }
        }
    } else {
        let last = e.len() as int;
        assert(n[last].id == id);
        assert forall|i: int| 0 <= i < e.len() implies #[trigger] n[i] == e[i] && e[i].id != id by {
            if e[i].id == id {
                assert(has_id(e, id));
            }
        }
        if scan_hits(n, q).contains(id) {
            let i = choose|i: int| 0 <= i < n.len() && (#[trigger] n[i]).id == id && boxes_intersect(n[i].bounds, q);
            if i < last {
                assert(e[i].id != id);
            }
        }
        if x != id {
            if scan_hits(n, q).contains(x) {
                let i = choose|i: int| 0 <= i < n.len() && (#[trigger] n[i]).id == x && boxes_intersect(n[i].bounds, q);
                assert(i < last);
                assert(e[i] == n[i]);
            }
            if scan_hits(e, q).contains(x) {
                let i = choose|i: int| 0 <= i < e.len() && (#[trigger] e[i]).id == x && boxes_intersect(e[i].bounds, q);
                assert(n[i] == e[i]);
            }
        }
    }
}

/// What a query reads back of a removal: afterwards `id` is gone and no
/// query finds it, while any other id is found exactly as before.
pub proof fn lemma_query_after_remove(e: Seq<Entry>, id: u64, q: Aabb, x: u64)
    requires
        ids_distinct(e),
        e.len() <= usize::MAX,
    ensures
        !has_id(entries_remove(e, id), id),
        !scan_hits(entries_remove(e, id), q).contains(id),
        x != id ==> (scan_hits(entries_remove(e, id), q).contains(x) <==> scan_hits(e, q).contains(x)),
{
    let n = entries_remove(e, id);
    lemma_scan_contains(e, q, x);
    lemma_scan_contains(n, q, x);
    lemma_scan_contains(n, q, id);
    if has_id(e, id) {
        let p = position_of(e, id);
        let l = e.len() - 1;
        assert forall|i: int| 0 <= i < n.len() implies (#[trigger] n[i]) == (if i == p { e[l] } else { e[i] }) && n[i].id
            != id by {
            if i == p {
                assert(l != p);
                assert(e[l].id != e[p].id);
            } else {
                assert(e[i].id != e[p].id);
            }
        }
        if x != id {
            if scan_hits(n, q).contains(x) {
                let i = choose|i: int| 0 <= i < n.len() && (#[trigger] n[i]).id == x && boxes_intersect(n[i].bounds, q);
                if i == p {
                    assert(e[l] == n[i]);
                } else {
                    assert(e[i] == n[i]);
                }
            }
            if scan_hits(e, q).contains(x) {
                let i = choose|i: int| 0 <= i < e.len() && (#[trigger] e[i]).id == x && boxes_intersect(e[i].bounds, q);
                assert(i != p);
                if i == l {
                    assert(n[p] == e[i]);
                } else {
                    assert(n[i] == e[i]);
                }
            }
        }
    } else {
        assert forall|i: int| 0 <= i < n.len() implies (#[trigger] n[i]).id != id by {
            if n[i].id == id {
                assert(has_id(e, id));
            }
        }
    }
}

} // verus!
