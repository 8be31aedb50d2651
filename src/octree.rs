use vstd::math::abs;
use vstd::multiset::Multiset;
use vstd::prelude::*;

use crate::aabb::{
    lemma_covers_overlaps, lemma_fits_octant, lemma_octant_len, lemma_octants_partition,
    lemma_other_octant_disjoint, Octant, AABB,
};
use crate::ray::{
    le_opt, lemma_hit_covering, lemma_hit_wf, lemma_le_opt_trans, lemma_lt_le_trans, p_le, p_lt, Param, Ray, DIR_LIMIT,
};
use crate::vec3::{RatPoint, Vec3, COORD_LIMIT};

verus! {

/// Index that refers to no node.
pub const NULL_INDEX: usize = usize::MAX;

/// An entity handle together with the box it was inserted with.
#[derive(Clone, Copy, PartialEq, Eq, Debug, Structural)]
pub struct OctreeEntity {
    pub entity: u64,
    pub aabb: AABB,
}

impl OctreeEntity {
    pub open spec fn record(self) -> (u64, AABB) {
        (self.entity, self.aabb)
    }

    pub fn new(entity: u64, aabb: AABB) -> (r: Self)
        ensures
            r.entity == entity && r.aabb == aabb,
    {
        OctreeEntity { entity, aabb }
    }
}

/// What a raycast reports: the entity hit, its box, and the hit distance.
#[derive(Clone, Copy, PartialEq, Eq, Debug, Structural)]
pub struct RayHitInfo {
    pub entity: u64,
    pub aabb: AABB,
    pub t: Param,
}

impl RayHitInfo {
    pub fn new(entity: u64, aabb: AABB, t: Param) -> (r: Self)
        ensures
            r.entity == entity && r.aabb == aabb && r.t == t,
    {
        RayHitInfo { entity, aabb, t }
    }
}

/// Number of occupied slots of a children array.
pub open spec fn child_count(c: [usize; 8]) -> int {
    (if c@[0] != NULL_INDEX { 1int } else { 0int }) + (if c@[1] != NULL_INDEX { 1int } else { 0int })
        + (if c@[2] != NULL_INDEX { 1int } else { 0int }) + (if c@[3] != NULL_INDEX { 1int } else { 0int })
        + (if c@[4] != NULL_INDEX { 1int } else { 0int }) + (if c@[5] != NULL_INDEX { 1int } else { 0int })
        + (if c@[6] != NULL_INDEX { 1int } else { 0int }) + (if c@[7] != NULL_INDEX { 1int } else { 0int })
}

proof fn lemma_no_children(c: [usize; 8])
    requires
        child_count(c) == 0,
    ensures
        forall|k: int| 0 <= k < 8 ==> #[trigger] c@[k] == NULL_INDEX,
{
    assert forall|k: int| 0 <= k < 8 implies #[trigger] c@[k] == NULL_INDEX by {
        if k == 0 {
        } else if k == 1 {
        } else if k == 2 {
        } else if k == 3 {
        } else if k == 4 {
        } else if k == 5 {
        } else if k == 6 {
        } else {
        }
    }
}

/// Handles strictly increase along the sequence.
pub open spec fn sorted_by_handle(es: Seq<OctreeEntity>) -> bool {
    forall|a: int, b: int| 0 <= a < b < es.len() ==> #[trigger] es[a].entity < #[trigger] es[b].entity
}

/// A node of the tree: its bound, the entities kept at it, and its links.
pub struct OctreeNode {
    pub aabb: AABB,
    pub entities: Vec<OctreeEntity>,
    pub parent: usize,
    pub next_idle: usize,
    pub children: [usize; 8],
    pub children_len: usize,
}

/// Number of entities kept over all nodes of `ns`.
pub open spec fn total(ns: Seq<OctreeNode>) -> int
    decreases ns.len(),
{
    if ns.len() == 0 {
        0
    } else {
        total(ns.drop_last()) + ns.last().entities@.len()
    }
}

proof fn lemma_total_update(ns: Seq<OctreeNode>, j: int, n: OctreeNode)
    requires
        0 <= j < ns.len(),
    ensures
        total(ns.update(j, n)) == total(ns) - ns[j].entities@.len() + n.entities@.len(),
    decreases ns.len(),
{
    let u = ns.update(j, n);
    if j == ns.len() - 1 {
        assert(u.drop_last() =~= ns.drop_last());
    } else {
        lemma_total_update(ns.drop_last(), j, n);
        assert(u.drop_last() =~= ns.drop_last().update(j, n));
    }
}

/// The `(handle, box)` records of an entity sequence, with multiplicity.
pub open spec fn node_records(es: Seq<OctreeEntity>) -> Multiset<(u64, AABB)>
    decreases es.len(),
{
    if es.len() == 0 {
        Multiset::empty()
    } else {
        node_records(es.drop_last()).insert(es.last().record())
    }
}

/// The records kept over all nodes of `ns`, with multiplicity.
pub open spec fn all_records(ns: Seq<OctreeNode>) -> Multiset<(u64, AABB)>
    decreases ns.len(),
{
    if ns.len() == 0 {
        Multiset::empty()
    } else {
        all_records(ns.drop_last()).add(node_records(ns.last().entities@))
    }
}

proof fn lemma_node_records_insert(es: Seq<OctreeEntity>, k: int, e: OctreeEntity)
    requires
        0 <= k <= es.len(),
    ensures
        node_records(es.insert(k, e)) == node_records(es).insert(e.record()),
    decreases es.len(),
{
    broadcast use vstd::multiset::group_multiset_axioms;
    let x = es.insert(k, e);
    if k == es.len() {
        assert(x.drop_last() =~= es);
    } else {
        lemma_node_records_insert(es.drop_last(), k, e);
        assert(x.drop_last() =~= es.drop_last().insert(k, e));
        assert(x.last() == es.last());
        assert(node_records(x) =~= node_records(es).insert(e.record()));
    }
}

proof fn lemma_node_records_remove(es: Seq<OctreeEntity>, k: int)
    requires
        0 <= k < es.len(),
    ensures
        node_records(es) == node_records(es.remove(k)).insert(es[k].record()),
    decreases es.len(),
{
    broadcast use vstd::multiset::group_multiset_axioms;
    lemma_node_records_insert(es.remove(k), k, es[k]);
    assert(es.remove(k).insert(k, es[k]) =~= es);
}

proof fn lemma_all_records_update(ns: Seq<OctreeNode>, j: int, n: OctreeNode)
    requires
        0 <= j < ns.len(),
    ensures
        all_records(ns.update(j, n)).add(node_records(ns[j].entities@)) == all_records(ns).add(
            node_records(n.entities@),
        ),
    decreases ns.len(),
{
    broadcast use vstd::multiset::group_multiset_axioms;
    let u = ns.update(j, n);
    if j == ns.len() - 1 {
        assert(u.drop_last() =~= ns.drop_last());
        assert(all_records(u).add(node_records(ns[j].entities@)) =~= all_records(ns).add(
            node_records(n.entities@),
        ));
    } else {
        lemma_all_records_update(ns.drop_last(), j, n);
        assert(u.drop_last() =~= ns.drop_last().update(j, n));
        assert(u.last() == ns.last());
        assert(ns.drop_last()[j] == ns[j]);
        let a = all_records(ns.drop_last().update(j, n));
        let b = all_records(ns.drop_last());
        let l = node_records(ns.last().entities@);
        let o = node_records(ns[j].entities@);
        let m = node_records(n.entities@);
        assert(all_records(u) == a.add(l));
        assert(all_records(ns) == b.add(l));
        assert forall|v: (u64, AABB)| #[trigger] a.add(l).add(o).count(v) == b.add(l).add(m).count(v) by {
            assert(a.add(o).count(v) == b.add(m).count(v));
        }
        assert(a.add(l).add(o) =~= b.add(l).add(m));
    }
}

/// Two arenas keep the same records when the first's nodes keep the same
/// entities in the second and the second's extra nodes keep none.
proof fn lemma_all_records_same(a: Seq<OctreeNode>, b: Seq<OctreeNode>)
    requires
        a.len() <= b.len(),
        forall|i: int| 0 <= i < a.len() ==> #[trigger] b[i].entities@ == a[i].entities@,
        forall|i: int| a.len() <= i < b.len() ==> #[trigger] b[i].entities@.len() == 0,
    ensures
        all_records(a) == all_records(b),
    decreases b.len(),
{
    broadcast use vstd::multiset::group_multiset_axioms;
    if b.len() > a.len() {
        lemma_all_records_same(a, b.drop_last());
        assert(b.last().entities@ =~= Seq::<OctreeEntity>::empty());
        assert(all_records(b) =~= all_records(b.drop_last()));
    } else if b.len() > 0 {
        lemma_all_records_same(a.drop_last(), b.drop_last());
        assert(b.last().entities@ == a.last().entities@);
    }
}

proof fn lemma_total_ge(ns: Seq<OctreeNode>, i: int)
    requires
        0 <= i < ns.len(),
    ensures
        total(ns) >= ns[i].entities@.len(),
    decreases ns.len(),
{
    if i < ns.len() - 1 {
        lemma_total_ge(ns.drop_last(), i);
        lemma_total_nonneg(ns.drop_last());
    } else {
        lemma_total_nonneg(ns.drop_last());
    }
}

proof fn lemma_total_nonneg(ns: Seq<OctreeNode>)
    ensures
        total(ns) >= 0,
    decreases ns.len(),
{
    if ns.len() > 0 {
        lemma_total_nonneg(ns.drop_last());
    }
}

proof fn lemma_total_push(ns: Seq<OctreeNode>, n: OctreeNode)
    ensures
        total(ns.push(n)) == total(ns) + n.entities@.len(),
{
    assert(ns.push(n).drop_last() =~= ns);
}

impl OctreeNode {
    pub fn new(aabb: AABB, parent: usize) -> (r: Self)
        ensures
            r.aabb == aabb,
            r.entities@ == Seq::<OctreeEntity>::empty(),
            r.parent == parent,
            r.next_idle == NULL_INDEX,
            forall|k: int| 0 <= k < 8 ==> r.children@[k] == NULL_INDEX,
            r.children_len == 0,
    {
        OctreeNode {
            aabb,
            entities: Vec::new(),
            parent,
            next_idle: NULL_INDEX,
            children: [NULL_INDEX; 8],
            children_len: 0,
        }
    }

    /// Position of octant `o` in a children array.
    pub fn octant_to_index(o: Octant) -> (r: usize)
        ensures
            r == o.index(),
            r < 8,
            Octant::of_index(r as int) == o,
    {
        let x: usize = if o.x { 4 } else { 0 };
        let y: usize = if o.y { 2 } else { 0 };
        let z: usize = if o.z { 1 } else { 0 };
        x + y + z
    }

    /// Child slot of octant `o`.
    pub fn get_child_index(&self, o: Octant) -> (r: usize)
        ensures
            r == self.children@[o.index()],
    {
        self.children[Self::octant_to_index(o)]
    }
}

/// A growable octree over entity boxes, with nodes kept in an arena of
/// reusable slots.
pub struct Octree {
    /// Index of the root node, or `NULL_INDEX` while the tree has none.
    pub root: usize,
    /// Bound of the root, or of the root to come.
    pub base_aabb: AABB,
    /// The node arena.
    pub nodes: Vec<OctreeNode>,
    /// No node is made whose octant is this short on some axis.
    pub min_leaf_extent: Vec3,
    /// Head of the chain of idle slots, or `NULL_INDEX`.
    pub idle: usize,
    /// Number of records kept.
    pub len: usize,
    /// The idle slots in chain order.
    pub idle_list: Ghost<Seq<usize>>,
}

impl Octree {
    /// Child `k` of node `i`, if present, is a live node in octant `k` of `i`'s
    /// bound, shorter than it, and names `i` as its parent.
    pub closed spec fn child_ok(self, i: int, k: int) -> bool {
        let c = self.nodes@[i].children@[k];
        c != NULL_INDEX ==> {
            &&& c < self.nodes@.len()
            &&& self.nodes@[c as int].parent == i
            &&& self.nodes@[c as int].aabb == self.nodes@[i].aabb.octant_box(Octant::of_index(k))
            &&& self.nodes@[c as int].aabb.len(0) < self.nodes@[i].aabb.len(0)
            &&& !self.idle_list@.contains(c)
        }
    }

    pub closed spec fn node_ok(self, i: int) -> bool {
        let n = self.nodes@[i];
        &&& n.aabb.wf()
        &&& n.aabb.len(0) >= 1
        &&& n.children_len == child_count(n.children)
        &&& n.parent == NULL_INDEX || n.parent < self.nodes@.len()
        &&& forall|k: int| 0 <= k < 8 ==> #[trigger] self.child_ok(i, k)
        &&& forall|k1: int, k2: int|
            0 <= k1 < 8 && 0 <= k2 < 8 && #[trigger] n.children@[k1] == #[trigger] n.children@[k2]
                && n.children@[k1] != NULL_INDEX ==> k1 == k2
        &&& sorted_by_handle(n.entities@)
        &&& forall|j: int|
            0 <= j < n.entities@.len() ==> (#[trigger] n.entities@[j]).aabb.wf() && n.aabb.covers(
                n.entities@[j].aabb,
            )
    }

    /// The idle slots form a chain through `next_idle`, starting at `idle`; an
    /// idle slot holds nothing and has no children.
    pub closed spec fn idle_ok(self) -> bool {
        let l = self.idle_list@;
        &&& l.no_duplicates()
        &&& self.idle == (if l.len() > 0 { l[0] } else { NULL_INDEX })
        &&& forall|t: int| 0 <= t < l.len() ==> (#[trigger] l[t]) < self.nodes@.len()
        &&& forall|t: int|
            0 <= t < l.len() ==> (#[trigger] self.nodes@[l[t] as int]).next_idle == (if t + 1 < l.len() {
                l[t + 1]
            } else {
                NULL_INDEX
            })
        &&& forall|t: int|
            0 <= t < l.len() ==> (#[trigger] self.nodes@[l[t] as int]).entities@.len() == 0
        &&& forall|t: int|
            0 <= t < l.len() ==> (#[trigger] self.nodes@[l[t] as int]).children_len == 0
    }

    /// Well-formedness of the arena: node bounds, child links downward, the
    /// idle chain, and the record count.
    pub closed spec fn wf_core(self) -> bool {
        &&& self.base_aabb.positive()
        &&& self.min_leaf_extent.x >= 1 && self.min_leaf_extent.y >= 1 && self.min_leaf_extent.z >= 1
        &&& self.root != NULL_INDEX ==> {
            &&& self.root < self.nodes@.len()
            &&& self.nodes@[self.root as int].parent == NULL_INDEX
            &&& self.nodes@[self.root as int].aabb == self.base_aabb
            &&& !self.idle_list@.contains(self.root)
        }
        &&& forall|i: int| 0 <= i < self.nodes@.len() ==> #[trigger] self.node_ok(i)
        &&& self.idle_ok()
        &&& self.len == total(self.nodes@)
    }

    /// Slot `i` holds a node in use: it is not on the idle chain.
    pub closed spec fn live(self, i: int) -> bool {
        0 <= i < self.nodes@.len() && !self.idle_list@.contains(i as usize)
    }

    /// Node `i` is listed as a child by the node it names as its parent.
    pub closed spec fn listed(self, i: int) -> bool {
        let p = self.nodes@[i].parent;
        &&& p != NULL_INDEX
        &&& p < self.nodes@.len()
        &&& exists|k: int| 0 <= k < 8 && #[trigger] self.nodes@[p as int].children@[k] as int == i
    }

    /// Every node in use other than the root hangs below its parent.
    pub closed spec fn linked(self) -> bool {
        forall|i: int| #[trigger] self.live(i) && i != self.root ==> self.listed(i)
    }

    /// As `linked`, except perhaps for node `x`.
    pub closed spec fn linked_except(self, x: int) -> bool {
        forall|i: int| #[trigger] self.live(i) && i != self.root && i != x ==> self.listed(i)
    }

    /// Well-formedness of the tree: the arena is consistent and every node in
    /// use can be reached from the root.
    pub closed spec fn wf(self) -> bool {
        &&& self.wf_core()
        &&& self.linked()
    }

    /// Links are kept when no node changes its parent or children.
    proof fn lemma_linked_same(a: Octree, b: Octree)
        requires
            a.linked(),
            a.nodes@.len() == b.nodes@.len(),
            a.root == b.root,
            a.idle_list == b.idle_list,
            forall|i: int|
                0 <= i < a.nodes@.len() ==> (#[trigger] b.nodes@[i]).parent == a.nodes@[i].parent
                    && b.nodes@[i].children == a.nodes@[i].children,
        ensures
            b.linked(),
    {
        assert forall|i: int| #[trigger] b.live(i) && i != b.root implies b.listed(i) by {
            assert(a.live(i));
            let p = a.nodes@[i].parent;
            let k = choose|k: int| 0 <= k < 8 && #[trigger] a.nodes@[p as int].children@[k] as int == i;
            assert(b.nodes@[p as int].children@[k] as int == i);
        }
    }

    /// Node well-formedness carries over to a tree with the same bounds, links
    /// and idle chain, whose entities differ at most at node `x`, where they are
    /// still sorted, valid and inside the node's bound.
    proof fn lemma_node_ok_frame(a: Octree, b: Octree, x: int)
        requires
            forall|i: int| 0 <= i < a.nodes@.len() ==> #[trigger] a.node_ok(i),
            b.nodes@.len() == a.nodes@.len(),
            b.idle_list == a.idle_list,
            forall|i: int|
                0 <= i < a.nodes@.len() ==> {
                    &&& (#[trigger] b.nodes@[i]).aabb == a.nodes@[i].aabb
                    &&& b.nodes@[i].children == a.nodes@[i].children
                    &&& b.nodes@[i].children_len == a.nodes@[i].children_len
                    &&& b.nodes@[i].parent == a.nodes@[i].parent
                    &&& i != x ==> b.nodes@[i].entities@ == a.nodes@[i].entities@
                },
            0 <= x < a.nodes@.len() ==> sorted_by_handle(b.nodes@[x].entities@),
            0 <= x < a.nodes@.len() ==> forall|t: int|
                0 <= t < b.nodes@[x].entities@.len() ==> (#[trigger] b.nodes@[x].entities@[t]).aabb.wf()
                    && b.nodes@[x].aabb.covers(b.nodes@[x].entities@[t].aabb),
        ensures
            forall|i: int| 0 <= i < b.nodes@.len() ==> #[trigger] b.node_ok(i),
    {
        assert forall|i: int| 0 <= i < b.nodes@.len() implies #[trigger] b.node_ok(i) by {
            assert(a.node_ok(i));
            assert forall|k: int| 0 <= k < 8 implies #[trigger] b.child_ok(i, k) by {
                assert(a.child_ok(i, k));
            }
        }
    }

    /// Every `(handle, box)` record kept at some node.
    pub closed spec fn contents(self) -> Set<(u64, AABB)> {
        Set::new(
            |r: (u64, AABB)|
                exists|i: int, j: int|
                    0 <= i < self.nodes@.len() && 0 <= j < self.nodes@[i].entities@.len()
                        && (#[trigger] self.nodes@[i].entities@[j]).record() == r,
        )
    }

    /// Every record kept, with multiplicity.
    pub open spec fn records(self) -> Multiset<(u64, AABB)> {
        all_records(self.nodes@)
    }

    /// Number of records kept.
    pub closed spec fn count(self) -> int {
        self.len as int
    }

    /// Bound of the root, or of the root to come while the tree has none.
    pub closed spec fn base(self) -> AABB {
        self.base_aabb
    }

    pub closed spec fn min_leaf(self) -> Vec3 {
        self.min_leaf_extent
    }

    /// A record with handle `h` is kept somewhere.
    pub open spec fn has_handle(self, h: u64) -> bool {
        exists|b: AABB| self.contents().contains((h, b))
    }

    /// An empty tree: no root, an empty arena, no idle slot. The base bound has
    /// an edge of at least one on every axis, so that doubling it grows it; the
    /// minimum leaf extent is at least one on every axis, so that descents end.
    pub fn new(capacity: usize, min_leaf_extent: Vec3, aabb: AABB) -> (r: Self)
        requires
            aabb.positive(),
            min_leaf_extent.x >= 1 && min_leaf_extent.y >= 1 && min_leaf_extent.z >= 1,
        ensures
            r.wf(),
            r.root == NULL_INDEX,
            r.nodes@.len() == 0,
            r.idle == NULL_INDEX,
            r.idle_list@.len() == 0,
            r.count() == 0,
            r.contents() == Set::<(u64, AABB)>::empty(),
            r.base() == aabb,
            r.min_leaf() == min_leaf_extent,
    {
        let r = Octree {
            root: NULL_INDEX,
            base_aabb: aabb,
            nodes: Vec::with_capacity(capacity),
            min_leaf_extent,
            idle: NULL_INDEX,
            len: 0,
            idle_list: Ghost(Seq::empty()),
        };
        assert(r.contents() =~= Set::<(u64, AABB)>::empty());
        r
    }

    /// An empty tree whose base bound is the cube of edge `size` around `offset`.
    pub fn from_size_offset(capacity: usize, min_leaf_extent: Vec3, size: i64, offset: Vec3) -> (r: Self)
        requires
            2 <= size <= COORD_LIMIT,
            -COORD_LIMIT / 2 <= offset.x <= COORD_LIMIT / 2,
            -COORD_LIMIT / 2 <= offset.y <= COORD_LIMIT / 2,
            -COORD_LIMIT / 2 <= offset.z <= COORD_LIMIT / 2,
            min_leaf_extent.x >= 1 && min_leaf_extent.y >= 1 && min_leaf_extent.z >= 1,
        ensures
            r.wf(),
            r.count() == 0,
            r.contents() == Set::<(u64, AABB)>::empty(),
            forall|i: int|
                0 <= i < 3 ==> #[trigger] r.base().lo(i) == offset.axis(i) - size / 2 && r.base().hi(i)
                    == offset.axis(i) + size / 2,
            r.min_leaf() == min_leaf_extent,
    {
        assert(abs(size as int) == size);
        let b = AABB::from_size_offset(size, offset);
        assert(b.lo(0) == offset.axis(0) - size / 2 && b.hi(0) == offset.axis(0) + size / 2);
        assert(b.lo(1) == offset.axis(1) - size / 2 && b.hi(1) == offset.axis(1) + size / 2);
        assert(b.lo(2) == offset.axis(2) - size / 2 && b.hi(2) == offset.axis(2) + size / 2);
        Self::new(capacity, min_leaf_extent, b)
    }

    /// Number of records kept.
    pub fn len(&self) -> (r: usize)
        ensures
            r == self.count(),
    {
        self.len
    }

    pub fn is_empty(&self) -> (r: bool)
        ensures
            r == (self.count() == 0),
    {
        self.len == 0
    }

    /// Bound of the root.
    pub fn base_aabb(&self) -> (r: &AABB)
        ensures
            *r == self.base(),
    {
        &self.base_aabb
    }

    /// Two trees keep the same records when every node of the first keeps the
    /// same entities in the second, and the second's extra nodes keep none.
    proof fn lemma_contents_same(a: Octree, b: Octree)
        requires
            a.nodes@.len() <= b.nodes@.len(),
            forall|i: int| 0 <= i < a.nodes@.len() ==> #[trigger] b.nodes@[i].entities@ == a.nodes@[i].entities@,
            forall|i: int| a.nodes@.len() <= i < b.nodes@.len() ==> #[trigger] b.nodes@[i].entities@.len() == 0,
        ensures
            a.contents() == b.contents(),
            a.records() == b.records(),
    {
        lemma_all_records_same(a.nodes@, b.nodes@);
        assert forall|r: (u64, AABB)| a.contents().contains(r) implies b.contents().contains(r) by {
            let (i, j) = choose|i: int, j: int|
                0 <= i < a.nodes@.len() && 0 <= j < a.nodes@[i].entities@.len()
                    && (#[trigger] a.nodes@[i].entities@[j]).record() == r;
            assert(b.nodes@[i].entities@[j] == a.nodes@[i].entities@[j]);
        }
        assert forall|r: (u64, AABB)| b.contents().contains(r) implies a.contents().contains(r) by {
            let (i, j) = choose|i: int, j: int|
                0 <= i < b.nodes@.len() && 0 <= j < b.nodes@[i].entities@.len()
                    && (#[trigger] b.nodes@[i].entities@[j]).record() == r;
            assert(i < a.nodes@.len());
            assert(b.nodes@[i].entities@[j] == a.nodes@[i].entities@[j]);
        }
        assert(a.contents() =~= b.contents());
    }

    /// A node in the given bound with the given parent: a recycled slot when one
    /// is idle, else a new one.
    fn get_or_create_node(&mut self, aabb: AABB, parent: usize) -> (r: usize)
        requires
            old(self).wf_core(),
            aabb.wf(),
            aabb.len(0) >= 1,
            parent == NULL_INDEX || parent < old(self).nodes@.len(),
        ensures
            final(self).wf_core(),
            old(self).linked() ==> final(self).linked_except(r as int),
            r < final(self).nodes@.len(),
            r != final(self).root,
            final(self).nodes@.len() == old(self).nodes@.len() || (final(self).nodes@.len()
                == old(self).nodes@.len() + 1 && r == old(self).nodes@.len()),
            final(self).nodes@[r as int].aabb == aabb,
            final(self).nodes@[r as int].parent == parent,
            final(self).nodes@[r as int].entities@.len() == 0,
            final(self).nodes@[r as int].children_len == 0,
            forall|k: int| 0 <= k < 8 ==> final(self).nodes@[r as int].children@[k] == NULL_INDEX,
            !final(self).idle_list@.contains(r),
            final(self).nodes@.len() == old(self).nodes@.len() ==> old(self).idle_list@.contains(r),
            old(self).idle != NULL_INDEX ==> r == old(self).idle && final(self).idle_list@ == old(
                self,
            ).idle_list@.drop_first() && final(self).nodes@.len() == old(self).nodes@.len(),
            old(self).idle == NULL_INDEX ==> r == old(self).nodes@.len() && final(self).idle_list
                == old(self).idle_list,
            forall|x: usize| #[trigger] final(self).idle_list@.contains(x) ==> old(self).idle_list@.contains(x),
            forall|i: int|
                0 <= i < old(self).nodes@.len() && i != r ==> #[trigger] final(self).nodes@[i] == old(self).nodes@[i],
            forall|i: int, k: int|
                0 <= i < final(self).nodes@.len() && 0 <= k < 8 ==> #[trigger] final(self).nodes@[i].children@[k] != r,
            final(self).root == old(self).root,
            final(self).base_aabb == old(self).base_aabb,
            final(self).min_leaf_extent == old(self).min_leaf_extent,
            final(self).len == old(self).len,
            final(self).contents() == old(self).contents(),
            final(self).records() == old(self).records(),
    {
        let ghost s0 = *self;
        let node = OctreeNode::new(aabb, parent);
        if self.idle == NULL_INDEX {
            let r = self.nodes.len();
            proof {
                lemma_total_push(self.nodes@, node);
            }
            self.nodes.push(node);
            proof {
                assert(r < usize::MAX) by {
                    assert(self.nodes@.len() == r + 1);
                    assert(self.nodes.len() <= usize::MAX);
                }
                assert forall|i: int| 0 <= i < self.nodes@.len() implies #[trigger] self.node_ok(i) by {
                    if i < s0.nodes@.len() {
                        assert(s0.node_ok(i));
                        assert forall|k: int| 0 <= k < 8 implies #[trigger] self.child_ok(i, k) by {
                            assert(s0.child_ok(i, k));
                        }
                    } else {
                        assert forall|k: int| 0 <= k < 8 implies #[trigger] self.child_ok(i, k) by {
                        }
                    }
                }
                assert forall|i: int, k: int|
                    0 <= i < self.nodes@.len() && 0 <= k < 8 implies #[trigger] self.nodes@[i].children@[k] != r by {
                    if i < s0.nodes@.len() {
                        assert(s0.node_ok(i));
                        assert(s0.child_ok(i, k));
                    }
                }
                if s0.linked() {
                    assert forall|i: int| #[trigger] self.live(i) && i != self.root && i != r implies self.listed(i) by {
                        assert(s0.live(i));
                        assert(s0.listed(i));
                        assert(self.nodes@[i] == s0.nodes@[i]);
                        let p = s0.nodes@[i].parent;
                        let k = choose|k: int| 0 <= k < 8 && #[trigger] s0.nodes@[p as int].children@[k] as int == i;
                        assert(self.nodes@[p as int] == s0.nodes@[p as int]);
                        assert(self.nodes@[p as int].children@[k] as int == i);
                    }
                }
                Self::lemma_contents_same(s0, *self);
            }
            r
        } else {
            let r = self.idle;
            let ghost l = self.idle_list@;
            assert(l[0] == r);
            self.idle = self.nodes[r].next_idle;
            proof {
                lemma_total_update(self.nodes@, r as int, node);
                self.idle_list@ = l.drop_first();
                assert forall|x: usize| #[trigger] self.idle_list@.contains(x) implies l.contains(x) by {
                    let t = choose|t: int| 0 <= t < self.idle_list@.len() && self.idle_list@[t] == x;
                    assert(l[t + 1] == x);
                }
            }
            self.nodes[r] = node;
            proof {
                assert(!self.idle_list@.contains(r)) by {
                    if self.idle_list@.contains(r) {
                        let t = choose|t: int| 0 <= t < self.idle_list@.len() && self.idle_list@[t] == r;
                        assert(l[t + 1] == l[0]);
                    }
                }
                assert forall|i: int| 0 <= i < self.nodes@.len() implies #[trigger] self.node_ok(i) by {
                    if i != r {
                        assert(s0.node_ok(i));
                        assert forall|k: int| 0 <= k < 8 implies #[trigger] self.child_ok(i, k) by {
                            assert(s0.child_ok(i, k));
                            let c = s0.nodes@[i].children@[k];
                            if c != NULL_INDEX {
                                assert(c != r);
                                assert(forall|t: int| 0 <= t < self.idle_list@.len() ==> self.idle_list@[t] == l[t + 1]);
                                assert(!self.idle_list@.contains(c));
                            }
                        }
                    } else {
                        assert forall|k: int| 0 <= k < 8 implies #[trigger] self.child_ok(i, k) by {
                        }
                    }
                }
                assert forall|i: int, k: int|
                    0 <= i < self.nodes@.len() && 0 <= k < 8 implies #[trigger] self.nodes@[i].children@[k] != r by {
                    if i != r {
                        assert(s0.node_ok(i));
                        assert(s0.child_ok(i, k));
                    }
                }
                let nl = self.idle_list@;
                assert forall|t: int| 0 <= t < nl.len() implies (#[trigger] self.nodes@[nl[t] as int]).next_idle == (if t + 1 < nl.len() {
                    nl[t + 1]
                } else {
                    NULL_INDEX
                }) by {
                    assert(nl[t] == l[t + 1]);
                    assert(l[t + 1] != r);
                }
                assert forall|t: int| 0 <= t < nl.len() implies (#[trigger] self.nodes@[nl[t] as int]).entities@.len() == 0 by {
                    assert(nl[t] == l[t + 1]);
                }
                assert forall|t: int| 0 <= t < nl.len() implies (#[trigger] self.nodes@[nl[t] as int]).children_len == 0 by {
                    assert(nl[t] == l[t + 1]);
                }
                assert forall|t: int| 0 <= t < nl.len() implies (#[trigger] nl[t]) < self.nodes@.len() by {
                    assert(nl[t] == l[t + 1]);
                }
                assert(self.idle_ok());
                if s0.linked() {
                    assert forall|i: int| #[trigger] self.live(i) && i != self.root && i != r implies self.listed(i) by {
                        assert(self.nodes.len() <= usize::MAX);
                        let iu = i as usize;
                        assert(iu as int == i);
                        assert(!self.idle_list@.contains(iu));
                        assert(self.idle_list@ == l.drop_first());
                        assert(!l.contains(iu)) by {
                            if l.contains(iu) {
                                let t = choose|t: int| 0 <= t < l.len() && l[t] == iu;
                                if t > 0 {
                                    assert(self.idle_list@[t - 1] == l[t]);
                                } else {
                                    assert(l[0] == r);
                                }
                            }
                        }
                        assert(s0.live(i));
                        let p = s0.nodes@[i].parent;
                        let k = choose|k: int| 0 <= k < 8 && #[trigger] s0.nodes@[p as int].children@[k] as int == i;
                        if p == r {
                            assert(s0.node_ok(r as int));
                            assert(s0.nodes@[r as int].children_len == 0);
                            lemma_no_children(s0.nodes@[r as int].children);
                        }
                        assert(self.nodes@[i] == s0.nodes@[i]);
                        assert(self.nodes@[p as int].children@[k] as int == i);
                    }
                }
                assert(s0.nodes@[l[0] as int].entities@.len() == 0);
                assert(self.nodes@[r as int].entities@ =~= s0.nodes@[r as int].entities@);
                Self::lemma_contents_same(s0, *self);
            }
            r
        }
    }

    proof fn lemma_link_linked(a: Octree, b: Octree, parent: usize, k: usize, child: usize)
        requires
            a.linked_except(child as int),
            a.nodes@.len() == b.nodes@.len(),
            a.root == b.root,
            a.idle_list == b.idle_list,
            parent < a.nodes@.len(),
            k < 8,
            b.nodes@[parent as int].children@ == a.nodes@[parent as int].children@.update(k as int, child),
            b.nodes@[parent as int].parent == a.nodes@[parent as int].parent,
            a.nodes@[parent as int].children@[k as int] == NULL_INDEX,
            child < a.nodes@.len(),
            a.nodes@.len() <= usize::MAX,
            a.nodes@[child as int].parent == parent,
            b.nodes@[child as int].parent == parent,
            forall|i: int| 0 <= i < a.nodes@.len() && i != parent ==> #[trigger] b.nodes@[i] == a.nodes@[i],
        ensures
            b.linked(),
    {
        assert forall|i: int| #[trigger] b.live(i) && i != b.root implies b.listed(i) by {
            assert(a.live(i));
            if i == child {
                assert(b.nodes@[parent as int].children@[k as int] as int == i);
            } else {
                if i != parent {
                    assert(b.nodes@[i] == a.nodes@[i]);
                }
                let p = a.nodes@[i].parent;
                let j = choose|j: int| 0 <= j < 8 && #[trigger] a.nodes@[p as int].children@[j] as int == i;
                if p == parent {
                    assert(j != k);
                }
                assert(b.nodes@[p as int].children@[j] as int == i);
            }
        }
    }

    /// Puts `child` into the empty slot `k` of `parent`.
    fn link_child(&mut self, parent: usize, k: usize, child: usize)
        requires
            old(self).wf_core(),
            parent < old(self).nodes@.len(),
            !old(self).idle_list@.contains(parent),
            k < 8,
            old(self).nodes@[parent as int].children@[k as int] == NULL_INDEX,
            child < old(self).nodes@.len(),
            child != old(self).root,
            old(self).nodes@[child as int].parent == parent,
            old(self).nodes@[child as int].aabb == old(self).nodes@[parent as int].aabb.octant_box(
                Octant::of_index(k as int),
            ),
            old(self).nodes@[child as int].aabb.len(0) < old(self).nodes@[parent as int].aabb.len(0),
            !old(self).idle_list@.contains(child),
            forall|i: int, j: int|
                0 <= i < old(self).nodes@.len() && 0 <= j < 8 ==> #[trigger] old(self).nodes@[i].children@[j] != child,
        ensures
            final(self).wf_core(),
            old(self).linked_except(child as int) ==> final(self).linked(),
            final(self).nodes@.len() == old(self).nodes@.len(),
            final(self).nodes@[parent as int].children@ == old(self).nodes@[parent as int].children@.update(k as int, child),
            final(self).nodes@[parent as int].aabb == old(self).nodes@[parent as int].aabb,
            final(self).nodes@[parent as int].parent == old(self).nodes@[parent as int].parent,
            final(self).nodes@[parent as int].entities@ == old(self).nodes@[parent as int].entities@,
            forall|i: int| 0 <= i < old(self).nodes@.len() && i != parent ==> #[trigger] final(self).nodes@[i] == old(self).nodes@[i],
            final(self).root == old(self).root,
            final(self).base_aabb == old(self).base_aabb,
            final(self).min_leaf_extent == old(self).min_leaf_extent,
            final(self).len == old(self).len,
            final(self).idle_list == old(self).idle_list,
            final(self).contents() == old(self).contents(),
            final(self).records() == old(self).records(),
    {
        let ghost s0 = *self;
        assert(s0.node_ok(parent as int));
        assert(s0.idle_ok());
        let mut ch = self.nodes[parent].children;
        ch[k] = child;
        let n = self.nodes[parent].children_len;
        assert(child_count(ch) == child_count(s0.nodes@[parent as int].children) + 1);
        self.nodes[parent].children = ch;
        self.nodes[parent].children_len = n + 1;
        proof {
            lemma_total_update(s0.nodes@, parent as int, self.nodes@[parent as int]);
            assert(self.nodes@ == s0.nodes@.update(parent as int, self.nodes@[parent as int]));
            assert forall|i: int| 0 <= i < self.nodes@.len() implies #[trigger] self.node_ok(i) by {
                assert(s0.node_ok(i));
                assert forall|j: int| 0 <= j < 8 implies #[trigger] self.child_ok(i, j) by {
                    assert(s0.child_ok(i, j));
                }
                if i == parent {
                    assert forall|k1: int, k2: int|
                        0 <= k1 < 8 && 0 <= k2 < 8 && #[trigger] ch@[k1] == #[trigger] ch@[k2]
                            && ch@[k1] != NULL_INDEX implies k1 == k2 by {
                        if k1 != k && k2 != k {
                            assert(s0.nodes@[i].children@[k1] == s0.nodes@[i].children@[k2]);
                        } else if k1 == k && k2 != k {
                            assert(s0.nodes@[i].children@[k2] != child);
                        } else if k2 == k && k1 != k {
                            assert(s0.nodes@[i].children@[k1] != child);
                        }
                    }
                }
            }
            assert forall|t: int| 0 <= t < self.idle_list@.len() implies (#[trigger] self.nodes@[self.idle_list@[t] as int]).next_idle == (if t + 1 < self.idle_list@.len() {
                self.idle_list@[t + 1]
            } else {
                NULL_INDEX
            }) by {
                assert(s0.nodes@[s0.idle_list@[t] as int].next_idle == self.nodes@[self.idle_list@[t] as int].next_idle);
            }
            assert forall|t: int| 0 <= t < self.idle_list@.len() implies (#[trigger] self.nodes@[self.idle_list@[t] as int]).children_len == 0 by {
                assert(self.idle_list@[t] != parent);
            }
            assert(self.idle_ok());
            Self::lemma_contents_same(s0, *self);
            if s0.linked_except(child as int) {
                assert(s0.nodes.len() <= usize::MAX);
                Self::lemma_link_linked(s0, *self, parent, k, child);
            }
        }
    }

    /// No node lists the root as a child.
    proof fn lemma_root_unlisted(self)
        requires
            self.wf_core(),
            self.root != NULL_INDEX,
        ensures
            forall|i: int, j: int|
                0 <= i < self.nodes@.len() && 0 <= j < 8 ==> #[trigger] self.nodes@[i].children@[j] != self.root,
    {
        assert forall|i: int, j: int|
            0 <= i < self.nodes@.len() && 0 <= j < 8 implies #[trigger] self.nodes@[i].children@[j] != self.root by {
            assert(self.node_ok(i));
            assert(self.child_ok(i, j));
            assert(self.nodes.len() <= usize::MAX);
        }
    }

    /// Doubles the root toward `other`: a new root covering the grown bound takes
    /// the old root as the child in the octant it fills.
    fn grow_root(&mut self, other: &AABB)
        requires
            old(self).wf(),
            old(self).root != NULL_INDEX,
            !old(self).base_aabb.covers(*other),
            old(self).base_aabb.step_in_range(*other),
        ensures
            final(self).wf(),
            final(self).root != NULL_INDEX,
            final(self).nodes@[final(self).root as int].children@[(Octant {
                x: old(self).base_aabb.needs_min(*other),
                y: old(self).base_aabb.needs_min(*other),
                z: old(self).base_aabb.needs_min(*other),
            }).index()] == old(self).root,
            forall|i: int|
                #[trigger] old(self).live(i) ==> final(self).live(i) && final(self).nodes@[i].aabb == old(
                    self,
                ).nodes@[i].aabb,
            final(self).base_aabb == old(self).base_aabb.grow_step(*other),
            final(self).base_aabb.covers(old(self).base_aabb),
            final(self).min_leaf_extent == old(self).min_leaf_extent,
            final(self).len == old(self).len,
            final(self).contents() == old(self).contents(),
            final(self).records() == old(self).records(),
    {
        let ghost s0 = *self;
        proof {
            s0.base_aabb.lemma_grow_step(*other);
        }
        let g = self.base_aabb.grow_toward(other);
        let idx = self.get_or_create_node(g, NULL_INDEX);
        assert(idx != NULL_INDEX) by {
            assert(self.nodes.len() <= usize::MAX);
        }
        let ghost s1 = *self;
        let r = self.root;
        let c = self.nodes[idx].aabb.center();
        let o = match self.nodes[r].aabb.octant_around(&c) {
            Some(o) => o,
            None => {
                proof {
                    assert(c == Vec3 {
                        x: g.center_at(0) as i64,
                        y: g.center_at(1) as i64,
                        z: g.center_at(2) as i64,
                    });
                }
                Octant { x: true, y: true, z: true }
            },
        };
        proof {
            assert(c == Vec3 { x: g.center_at(0) as i64, y: g.center_at(1) as i64, z: g.center_at(2) as i64 });
            s1.lemma_root_unlisted();
        }
        let k = OctreeNode::octant_to_index(o);
        self.root = idx;
        self.base_aabb = g;
        self.nodes[r].parent = idx;
        proof {
            lemma_total_update(s1.nodes@, r as int, self.nodes@[r as int]);
            assert(self.nodes@ == s1.nodes@.update(r as int, self.nodes@[r as int]));
            assert(s1.node_ok(r as int));
            assert forall|i: int| 0 <= i < self.nodes@.len() implies #[trigger] self.node_ok(i) by {
                assert(s1.node_ok(i));
                assert forall|j: int| 0 <= j < 8 implies #[trigger] self.child_ok(i, j) by {
                    assert(s1.child_ok(i, j));
                }
            }
            assert forall|t: int| 0 <= t < self.idle_list@.len() implies (#[trigger] self.nodes@[self.idle_list@[t] as int]).next_idle == (if t + 1 < self.idle_list@.len() {
                self.idle_list@[t + 1]
            } else {
                NULL_INDEX
            }) by {
                assert(s1.nodes@[s1.idle_list@[t] as int].next_idle == self.nodes@[self.idle_list@[t] as int].next_idle);
            }
            assert forall|t: int| 0 <= t < self.idle_list@.len() implies (#[trigger] self.nodes@[self.idle_list@[t] as int]).children_len == 0 by {
                assert(s1.nodes@[s1.idle_list@[t] as int].children_len == self.nodes@[self.idle_list@[t] as int].children_len);
            }
            assert forall|t: int| 0 <= t < self.idle_list@.len() implies (#[trigger] self.nodes@[self.idle_list@[t] as int]).entities@.len() == 0 by {
                assert(s1.nodes@[s1.idle_list@[t] as int].entities@ == self.nodes@[self.idle_list@[t] as int].entities@);
            }
            assert(self.idle_ok());
            assert(self.wf_core());
            Self::lemma_contents_same(s1, *self);
            assert forall|i: int| #[trigger] self.live(i) && i != self.root && i != r implies self.listed(i) by {
                assert(s1.live(i));
                assert(self.nodes@[i] == s1.nodes@[i]);
                let p = s1.nodes@[i].parent;
                let j = choose|j: int| 0 <= j < 8 && #[trigger] s1.nodes@[p as int].children@[j] as int == i;
                assert(self.nodes@[p as int].children == s1.nodes@[p as int].children);
                assert(self.nodes@[p as int].children@[j] as int == i);
            }
        }
        self.link_child(idx, k, r);
    }

    /// Grows the base bound until it covers `aabb`. With no root yet only the
    /// bound changes; otherwise each doubling adds a new root above the old one.
    fn try_extend(&mut self, aabb: &AABB)
        requires
            old(self).wf(),
            aabb.wf(),
            old(self).base_aabb.growth_fits(*aabb),
        ensures
            final(self).wf(),
            final(self).base_aabb.covers(*aabb),
            old(self).root == NULL_INDEX ==> final(self).nodes == old(self).nodes && final(self).idle_list
                == old(self).idle_list && final(self).idle == old(self).idle,
            forall|i: int|
                #[trigger] old(self).live(i) ==> final(self).live(i) && final(self).nodes@[i].aabb == old(
                    self,
                ).nodes@[i].aabb,
            final(self).base_aabb.covers(old(self).base_aabb),
            old(self).base_aabb.covers(*aabb) ==> *final(self) == *old(self),
            final(self).root == NULL_INDEX <==> old(self).root == NULL_INDEX,
            final(self).min_leaf_extent == old(self).min_leaf_extent,
            final(self).len == old(self).len,
            final(self).contents() == old(self).contents(),
            final(self).records() == old(self).records(),
    {
        let steps = self.base_aabb.extend_for(aabb);
        let ghost b0 = self.base_aabb;
        assert(b0.grown(*aabb, 0) == b0);
        assert(b0.covers(*aabb) ==> steps.len() == 0) by {
            if steps.len() > 0 {
                assert(!b0.grown(*aabb, 0).covers(*aabb));
            }
        }
        if self.root == NULL_INDEX {
            if steps.len() > 0 {
                let ghost s0 = *self;
                self.base_aabb = steps[steps.len() - 1];
                proof {
                    assert(steps@[steps.len() - 1].positive());
                    assert(steps@[steps.len() - 1].covers(b0));
                    assert(self.idle_ok());
                    Self::lemma_node_ok_frame(s0, *self, -1);
                    Self::lemma_linked_same(s0, *self);
                    assert(self.wf());
                }
            }
        } else {
            let mut t: usize = 0;
            while t < steps.len()
                invariant
                    self.wf(),
                    aabb.wf(),
                    self.root != NULL_INDEX,
                    b0.is_growth(*aabb, steps@),
                    forall|k: nat| k < steps.len() ==> (#[trigger] b0.grown(*aabb, k)).step_in_range(*aabb),
                    forall|i: int|
                        #[trigger] old(self).live(i) ==> self.live(i) && self.nodes@[i].aabb == old(self).nodes@[i].aabb,
                    t <= steps.len(),
                    self.base_aabb == b0.grown(*aabb, t as nat),
                    self.base_aabb.covers(b0),
                    t == 0 ==> *self == *old(self),
                    self.min_leaf_extent == old(self).min_leaf_extent,
                    self.len == old(self).len,
                    self.contents() == old(self).contents(),
                    self.records() == old(self).records(),
                decreases steps.len() - t,
            {
                assert(!b0.grown(*aabb, t as nat).covers(*aabb));
                assert(b0.grown(*aabb, t as nat).step_in_range(*aabb));
                self.grow_root(aabb);
                assert(steps@[t as int] == b0.grown(*aabb, (t + 1) as nat));
                t = t + 1;
            }
        }
    }

    /// Adds `entity` to the entities of node `index`, unless that node already
    /// keeps a record with the same handle.
    fn insert_local(&mut self, index: usize, entity: OctreeEntity) -> (r: bool)
        requires
            old(self).wf(),
            index < old(self).nodes@.len(),
            !old(self).idle_list@.contains(index),
            entity.aabb.wf(),
            old(self).nodes@[index as int].aabb.covers(entity.aabb),
            old(self).len < usize::MAX,
        ensures
            final(self).wf(),
            final(self).root == old(self).root,
            final(self).base_aabb == old(self).base_aabb,
            final(self).min_leaf_extent == old(self).min_leaf_extent,
            r ==> final(self).len == old(self).len + 1 && final(self).contents() == old(self).contents().insert(entity.record()),
            !r ==> final(self).len == old(self).len && final(self).contents() == old(self).contents(),
            r ==> final(self).records() == old(self).records().insert(entity.record()),
            !r ==> final(self).records() == old(self).records(),
            r ==> exists|j: int|
                0 <= j < final(self).nodes@[index as int].entities@.len()
                    && (#[trigger] final(self).nodes@[index as int].entities@[j]).record() == entity.record(),
            r == !exists|j: int|
                0 <= j < old(self).nodes@[index as int].entities@.len()
                    && (#[trigger] old(self).nodes@[index as int].entities@[j]).entity == entity.entity,
            exists|j: int|
                0 <= j < final(self).nodes@[index as int].entities@.len()
                    && (#[trigger] final(self).nodes@[index as int].entities@[j]).entity == entity.entity,
            final(self).nodes@.len() == old(self).nodes@.len(),
            final(self).idle_list == old(self).idle_list,
            forall|i: int|
                0 <= i < final(self).nodes@.len() ==> (#[trigger] final(self).nodes@[i]).aabb == old(self).nodes@[i].aabb
                    && final(self).nodes@[i].children == old(self).nodes@[i].children,
    {
        let ghost s0 = *self;
        assert(s0.node_ok(index as int));
        let n = self.nodes[index].entities.len();
        let mut j: usize = 0;
        while j < n && self.nodes[index].entities[j].entity < entity.entity
            invariant
                *self == s0,
                index < self.nodes@.len(),
                n == self.nodes@[index as int].entities@.len(),
                j <= n,
                forall|t: int| 0 <= t < j ==> (#[trigger] self.nodes@[index as int].entities@[t]).entity < entity.entity,
            decreases n - j,
        {
            j = j + 1;
        }
        if j < n && self.nodes[index].entities[j].entity == entity.entity {
            proof {
                Self::lemma_contents_same(s0, *self);
            }
            return false;
        }
        let ghost es = self.nodes@[index as int].entities@;
        assert(!exists|t: int| 0 <= t < es.len() && (#[trigger] es[t]).entity == entity.entity) by {
            if exists|t: int| 0 <= t < es.len() && (#[trigger] es[t]).entity == entity.entity {
                let t = choose|t: int| 0 <= t < es.len() && (#[trigger] es[t]).entity == entity.entity;
                if t > j {
                    assert(es[j as int].entity < es[t].entity);
                }
            }
        }
        self.nodes[index].entities.insert(j, entity);
        self.len = self.len + 1;
        proof {
            let ne = self.nodes@[index as int].entities@;
            assert(ne == es.insert(j as int, entity));
            lemma_total_update(s0.nodes@, index as int, self.nodes@[index as int]);
            assert(self.nodes@ == s0.nodes@.update(index as int, self.nodes@[index as int]));
            assert(sorted_by_handle(es));
            assert(sorted_by_handle(ne)) by {
                assert forall|a: int, b: int| 0 <= a < b < ne.len() implies #[trigger] ne[a].entity < #[trigger] ne[b].entity by {
                    if b < j {
                    } else if b == j {
                    } else if a < j {
                        assert(ne[b] == es[b - 1]);
                        if b - 1 > j {
                            assert(es[j as int].entity < es[b - 1].entity);
                        }
                    } else if a == j {
                        assert(ne[b] == es[b - 1]);
                        if b - 1 > j {
                            assert(es[j as int].entity < es[b - 1].entity);
                        }
                    } else {
                        assert(ne[a] == es[a - 1]);
                        assert(ne[b] == es[b - 1]);
                    }
                }
            }
            assert forall|t: int| 0 <= t < ne.len() implies (#[trigger] ne[t]).aabb.wf() && self.nodes@[index as int].aabb.covers(ne[t].aabb) by {
                if t < j {
                } else if t > j {
                    assert(ne[t] == es[t - 1]);
                }
            }
            Self::lemma_node_ok_frame(s0, *self, index as int);
            assert forall|t: int| 0 <= t < self.idle_list@.len() implies (#[trigger] self.nodes@[self.idle_list@[t] as int]).next_idle == (if t + 1 < self.idle_list@.len() {
                self.idle_list@[t + 1]
            } else {
                NULL_INDEX
            }) by {
                assert(s0.nodes@[s0.idle_list@[t] as int].next_idle == self.nodes@[self.idle_list@[t] as int].next_idle);
            }
            assert forall|t: int| 0 <= t < self.idle_list@.len() implies (#[trigger] self.nodes@[self.idle_list@[t] as int]).entities@.len() == 0 by {
                assert(self.idle_list@[t] != index);
            }
            assert forall|t: int| 0 <= t < self.idle_list@.len() implies (#[trigger] self.nodes@[self.idle_list@[t] as int]).children_len == 0 by {
                assert(s0.nodes@[s0.idle_list@[t] as int].children_len == self.nodes@[self.idle_list@[t] as int].children_len);
            }
            assert(self.idle_ok());
            let c0 = s0.contents();
            let c1 = self.contents();
            assert forall|rec: (u64, AABB)| c1.contains(rec) implies c0.insert(entity.record()).contains(rec) by {
                let (i, t) = choose|i: int, t: int|
                    0 <= i < self.nodes@.len() && 0 <= t < self.nodes@[i].entities@.len()
                        && (#[trigger] self.nodes@[i].entities@[t]).record() == rec;
                if i == index {
                    if t < j {
                        assert(s0.nodes@[i].entities@[t] == ne[t]);
                    } else if t > j {
                        assert(s0.nodes@[i].entities@[t - 1] == ne[t]);
                    }
                } else {
                    assert(s0.nodes@[i].entities@[t] == self.nodes@[i].entities@[t]);
                }
            }
            assert forall|rec: (u64, AABB)| c0.insert(entity.record()).contains(rec) implies c1.contains(rec) by {
                if rec == entity.record() {
                    assert(self.nodes@[index as int].entities@[j as int] == entity);
                } else {
                    let (i, t) = choose|i: int, t: int|
                        0 <= i < s0.nodes@.len() && 0 <= t < s0.nodes@[i].entities@.len()
                            && (#[trigger] s0.nodes@[i].entities@[t]).record() == rec;
                    if i == index {
                        if t < j {
                            assert(ne[t] == es[t]);
                        } else {
                            assert(ne[t + 1] == es[t]);
                        }
                    } else {
                        assert(s0.nodes@[i].entities@[t] == self.nodes@[i].entities@[t]);
                    }
                }
            }
            assert(c1 =~= c0.insert(entity.record()));
            assert(ne[j as int].entity == entity.entity);
            assert(ne[j as int].record() == entity.record());
            lemma_node_records_insert(es, j as int, entity);
            lemma_all_records_update(s0.nodes@, index as int, self.nodes@[index as int]);
            let a = self.records();
            let b0 = s0.records();
            let o = node_records(es);
            assert forall|v: (u64, AABB)| #[trigger] a.count(v) == b0.insert(entity.record()).count(v) by {
                assert(a.add(o).count(v) == b0.add(o.insert(entity.record())).count(v));
            }
            assert(a =~= b0.insert(entity.record()));
            Self::lemma_linked_same(s0, *self);
        }
        true
    }

    /// A descent that stops at `index` still stops there in a tree with the
    /// same bounds, children and minimum leaf extent.
    proof fn lemma_stop_same(a: Octree, b: Octree, index: int, q: AABB)
        requires
            0 <= index < a.nodes@.len(),
            a.nodes@.len() == b.nodes@.len(),
            a.nodes@[index].aabb == b.nodes@[index].aabb,
            a.nodes@[index].children == b.nodes@[index].children,
            a.min_leaf_extent == b.min_leaf_extent,
            a.reach_from(index, q) == Some(index),
        ensures
            b.reach_from(index, q) == Some(index),
    {
        let nb = a.nodes@[index].aabb;
        let c = Vec3 { x: nb.center_at(0) as i64, y: nb.center_at(1) as i64, z: nb.center_at(2) as i64 };
        match q.octant_around_spec(c) {
            None => {},
            Some(o) => {
                let child = a.nodes@[index].children@[o.index()];
                if child != NULL_INDEX {
                    if 0 <= child < a.nodes@.len() && 0 <= a.nodes@[child as int].aabb.len(0) < nb.len(0) {
                        assert(a.nodes@[child as int].aabb.len(0) < a.nodes@[index].aabb.len(0));
                        assert(false) by {
                            // a descent from `index` into a shorter child cannot stop at `index`
                            a.lemma_reach_below(child as int, q);
                        }
                    }
                }
            },
        }
    }

    /// A descent from node `i` stops, if anywhere, at a node no longer than `i`.
    proof fn lemma_reach_below(self, i: int, q: AABB)
        requires
            0 <= i < self.nodes@.len(),
        ensures
            self.reach_from(i, q) matches Some(n) ==> 0 <= n < self.nodes@.len() && self.nodes@[n].aabb.len(0)
                <= self.nodes@[i].aabb.len(0),
        decreases self.nodes@[i].aabb.len(0),
    {
        let nb = self.nodes@[i].aabb;
        let c = Vec3 { x: nb.center_at(0) as i64, y: nb.center_at(1) as i64, z: nb.center_at(2) as i64 };
        match q.octant_around_spec(c) {
            None => {},
            Some(o) => {
                let child = self.nodes@[i].children@[o.index()];
                if child != NULL_INDEX {
                    if 0 <= child < self.nodes@.len() && 0 <= self.nodes@[child as int].aabb.len(0) < nb.len(0) {
                        self.lemma_reach_below(child as int, q);
                    }
                }
            },
        }
    }

    /// Extending a descent path by one more step keeps it a path, provided the
    /// nodes before the last are unchanged.
    proof fn lemma_path_extend(a: Octree, b: Octree, path: Seq<usize>, q: AABB, next: usize)
        requires
            a.path_ok(path, q),
            b.nodes@.len() >= a.nodes@.len(),
            forall|t: int| 0 <= t < path.len() - 1 ==> b.nodes@[#[trigger] path[t] as int] == a.nodes@[path[t] as int],
            forall|t: int|
                0 <= t < path.len() - 1 ==> a.nodes@[#[trigger] path[t] as int].aabb.len(0) > a.nodes@[path.last() as int].aabb.len(0),
            forall|t: int| 0 <= t < path.len() ==> !b.idle_list@.contains(#[trigger] path[t]),
            b.nodes@[path.last() as int].aabb == a.nodes@[path.last() as int].aabb,
            b.step_to(path.last() as int, q) == Some(next),
            next < b.nodes@.len(),
            !b.idle_list@.contains(next),
            b.nodes@[next as int].aabb.len(0) < b.nodes@[path.last() as int].aabb.len(0),
        ensures
            b.path_ok(path.push(next), q),
            forall|t: int|
                0 <= t < path.push(next).len() - 1 ==> b.nodes@[#[trigger] path.push(next)[t] as int].aabb.len(0)
                    > b.nodes@[next as int].aabb.len(0),
            path.push(next)[0] == path[0],
            path.push(next).last() == next,
    {
        let ext = path.push(next);
        assert forall|t: int| 0 <= t < ext.len() - 1 implies b.step_to(#[trigger] ext[t] as int, q) == Some(ext[t + 1]) by {
            if t < path.len() - 1 {
                assert(ext[t] == path[t] && ext[t + 1] == path[t + 1]);
                assert(a.step_to(path[t] as int, q) == Some(path[t + 1]));
            }
        }
        assert forall|t: int| 0 <= t < ext.len() implies (#[trigger] ext[t]) < b.nodes@.len() by {
            if t < path.len() {
                assert(ext[t] == path[t]);
            }
        }
        assert forall|t: int| 0 <= t < ext.len() implies !b.idle_list@.contains(#[trigger] ext[t]) by {
            if t < path.len() {
                assert(ext[t] == path[t]);
            }
        }
        assert forall|t: int| 0 <= t < ext.len() - 1 implies b.nodes@[#[trigger] ext[t] as int].aabb.len(0)
            > b.nodes@[next as int].aabb.len(0) by {
            if t < path.len() - 1 {
                assert(ext[t] == path[t]);
            }
        }
    }

    /// What `insert` of `entity` on `t0` guarantees when it returns `r` and
    /// leaves `t1`: the tree stays well formed; its bound grows to cover the
    /// entity's box; the node that a descent with that box reaches keeps the
    /// handle, and on success keeps the record itself; when no growth was
    /// needed, `r` says whether that node lacked the handle before; on success
    /// the record is added to the records and the count goes up by one,
    /// otherwise nothing changes and the handle was already kept.
    pub open spec fn insert_post(t0: Octree, entity: OctreeEntity, r: bool, t1: Octree) -> bool {
        &&& t1.wf()
        &&& t1.base().covers(entity.aabb)
        &&& t1.base().covers(t0.base())
        &&& t1.min_leaf() == t0.min_leaf()
        &&& t1.holds_at(entity.aabb, entity.entity)
        &&& t0.base().covers(entity.aabb) ==> r == !t0.holds_at(entity.aabb, entity.entity)
        &&& r ==> t1.keeps_at(entity.aabb, entity.record())
        &&& r ==> t1.records() == t0.records().insert(entity.record())
        &&& !r ==> t1.records() == t0.records()
        &&& r ==> t1.count() == t0.count() + 1 && t1.contents() == t0.contents().insert(entity.record())
        &&& !r ==> t1.count() == t0.count() && t1.contents() == t0.contents() && t0.has_handle(entity.entity)
    }

    /// What `remove` of handle `entity` with box `aabb` on `t0` guarantees when
    /// it returns `r` and leaves `t1`: the tree stays well formed with the same
    /// bound; `r` says whether the node that a descent with `aabb` reaches kept
    /// the handle; on success exactly that node's record with the handle leaves
    /// the records and the count goes down by one, otherwise records and count
    /// are unchanged.
    pub open spec fn remove_post(t0: Octree, entity: u64, aabb: AABB, r: bool, t1: Octree) -> bool {
        &&& t1.wf()
        &&& t1.base() == t0.base()
        &&& t1.min_leaf() == t0.min_leaf()
        &&& r == t0.holds_at(aabb, entity)
        &&& r ==> exists|n: int, j: int|
            t0.reach(aabb) == Some(n) && 0 <= j < t0.nodes@[n].entities@.len() && (
            #[trigger] t0.nodes@[n].entities@[j]).entity == entity && t1.records() == t0.records().remove(
                t0.nodes@[n].entities@[j].record(),
            )
        &&& !r ==> t1.records() == t0.records()
        &&& r ==> exists|b: AABB|
            #[trigger] t0.contents().contains((entity, b)) && t1.count() == t0.count() - 1
                && t1.contents().subset_of(t0.contents()) && t0.contents().subset_of(t1.contents().insert((entity, b)))
        &&& !r ==> t1.count() == t0.count() && t1.contents() == t0.contents()
    }

    /// Inserts `entity`, first growing the root until its bound covers the
    /// entity's box. Descends while the box fits in one octant of the current
    /// node and that octant is longer than the minimum leaf extent on every axis,
    /// creating missing nodes on the way. Returns `false`, with no record added,
    /// when the node reached already keeps the handle.
    #[verifier::rlimit(80)]
    pub fn insert(&mut self, entity: OctreeEntity) -> (r: bool)
        requires
            old(self).wf(),
            entity.aabb.wf(),
            old(self).base().growth_fits(entity.aabb),
            old(self).count() < usize::MAX,
        ensures
            Self::insert_post(*old(self), entity, r, *final(self)),
    {
        let ghost s_old = *self;
        let ghost q = entity.aabb;
        let ghost h = entity.entity;
        self.try_extend(&entity.aabb);
        if self.root == NULL_INDEX {
            let b = self.base_aabb;
            let idx = self.get_or_create_node(b, NULL_INDEX);
            assert(idx != NULL_INDEX) by {
                assert(self.nodes.len() <= usize::MAX);
            }
            let ghost s1 = *self;
            self.root = idx;
            proof {
                Self::lemma_node_ok_frame(s1, *self, -1);
                assert(self.idle_ok());
                assert(self.nodes.len() <= usize::MAX);
                assert(s1.linked_except(idx as int));
                assert forall|i: int| #[trigger] self.live(i) && i != self.root implies self.listed(i) by {
                    assert(s1.live(i));
                    assert(i != s1.root);
                    assert(s1.listed(i));
                }
                assert(!self.holds_at(q, h)) by {
                    if self.holds_at(q, h) {
                        let (n, j) = choose|n: int, j: int|
                            self.reach(q) == Some(n) && 0 <= j < self.nodes@[n].entities@.len() && (
                            #[trigger] self.nodes@[n].entities@[j]).entity == h;
                        assert(n == idx);
                    }
                }
            }
        }
        let ghost s2 = *self;
        let mut index = self.root;
        let ghost mut path: Seq<usize> = seq![index];
        let ghost mut created = s_old.root == NULL_INDEX;
        loop
            invariant
                self.wf(),
                entity.aabb.wf(),
                q == entity.aabb,
                h == entity.entity,
                index < self.nodes@.len(),
                !self.idle_list@.contains(index),
                self.nodes@[index as int].aabb.covers(entity.aabb),
                self.base_aabb == s2.base_aabb,
                self.min_leaf_extent == s2.min_leaf_extent,
                self.len == s2.len,
                self.contents() == s2.contents(),
                self.records() == s2.records(),
                self.root == s2.root,
                self.path_ok(path, q),
                path[0] == self.root,
                path.last() == index,
                forall|t: int|
                    0 <= t < path.len() - 1 ==> self.nodes@[#[trigger] path[t] as int].aabb.len(0)
                        > self.nodes@[index as int].aabb.len(0),
                created ==> self.nodes@[index as int].entities@.len() == 0,
                created ==> forall|k: int| 0 <= k < 8 ==> self.nodes@[index as int].children@[k] == NULL_INDEX,
                created ==> !s2.holds_at(q, h),
                !created ==> *self == s2,
            ensures
                index < self.nodes@.len(),
                self.path_ok(path, q),
                path[0] == self.root,
                path.last() == index,
                self.reach_from(index as int, q) == Some(index as int),
                created ==> self.nodes@[index as int].entities@.len() == 0,
                created ==> !s2.holds_at(q, h),
                !created ==> *self == s2,
            decreases self.nodes@[index as int].aabb.len(0),
        {
            assert(self.node_ok(index as int));
            let nb = self.nodes[index].aabb;
            let c = nb.center();
            assert(c == Vec3 { x: nb.center_at(0) as i64, y: nb.center_at(1) as i64, z: nb.center_at(2) as i64 });
            match entity.aabb.octant_around(&c) {
                None => {
                    break;
                },
                Some(o) => {
                    let k = OctreeNode::octant_to_index(o);
                    let child = self.nodes[index].children[k];
                    assert(self.child_ok(index as int, k as int));
                    proof {
                        lemma_fits_octant(nb, entity.aabb, o);
                    }
                    if child != NULL_INDEX {
                        proof {
                            assert(self.step_to(index as int, q) == Some(child));
                            Self::lemma_path_extend(*self, *self, path, q, child);
                            path = path.push(child);
                        }
                        index = child;
                    } else {
                        let sub = nb.get_octant(o);
                        let l = sub.length();
                        if !(l.x > self.min_leaf_extent.x && l.y > self.min_leaf_extent.y && l.z
                            > self.min_leaf_extent.z) {
                            break;
                        }
                        proof {
                            lemma_octant_len(nb, o);
                            if !created {
                                self.lemma_path_reach(path, q);
                                assert(self.reach_from(index as int, q) is None);
                            }
                        }
                        let ghost s3 = *self;
                        let n = self.get_or_create_node(sub, index);
                        assert(index != n);
                        self.link_child(index, k, n);
                        proof {
                            assert(n != NULL_INDEX) by {
                                assert(self.nodes.len() <= usize::MAX);
                            }
                            assert forall|t: int| 0 <= t < path.len() implies (#[trigger] path[t]) != n by {
                                assert(!s3.idle_list@.contains(path[t]));
                                assert(path[t] < s3.nodes@.len());
                            }
                            assert forall|t: int| 0 <= t < path.len() - 1 implies (#[trigger] path[t]) != index by {
                                assert(s3.nodes@[path[t] as int].aabb.len(0) > s3.nodes@[index as int].aabb.len(0));
                            }
                            assert(self.step_to(index as int, q) == Some(n));
                            Self::lemma_path_extend(s3, *self, path, q, n);
                            let ext = path.push(n);
                            path = ext;
                            created = true;
                        }
                        index = n;
                    }
                },
            }
        }
        proof {
            self.lemma_path_reach(path, q);
        }
        let ghost s4 = *self;
        let r = self.insert_local(index, entity);
        proof {
            assert(self.path_ok(path, q)) by {
                assert forall|t: int| 0 <= t < path.len() - 1 implies self.step_to(#[trigger] path[t] as int, q) == Some(path[t + 1]) by {
                    assert(s4.step_to(path[t] as int, q) == Some(path[t + 1]));
                }
            }
            Self::lemma_stop_same(s4, *self, index as int, q);
            self.lemma_path_reach(path, q);
            let j = choose|j: int|
                0 <= j < self.nodes@[index as int].entities@.len()
                    && (#[trigger] self.nodes@[index as int].entities@[j]).entity == h;
            assert(self.holds_at(q, h));
            if r {
                let j2 = choose|j: int|
                    0 <= j < self.nodes@[index as int].entities@.len()
                        && (#[trigger] self.nodes@[index as int].entities@[j]).record() == entity.record();
                assert(self.nodes@[index as int].entities@[j2].record() == entity.record());
                assert(self.keeps_at(q, entity.record()));
            }
            if !r {
                let j = choose|j: int|
                    0 <= j < s4.nodes@[index as int].entities@.len()
                        && (#[trigger] s4.nodes@[index as int].entities@[j]).entity == entity.entity;
                let b2 = s4.nodes@[index as int].entities@[j].aabb;
                assert(s4.nodes@[index as int].entities@[j].record() == (entity.entity, b2));
                assert(s4.contents().contains((entity.entity, b2)));
            }
            if !created {
                assert(s2.reach(q) == Some(index as int));
                if s2.holds_at(q, h) {
                    let (n, j) = choose|n: int, j: int|
                        s2.reach(q) == Some(n) && 0 <= j < s2.nodes@[n].entities@.len() && (
                        #[trigger] s2.nodes@[n].entities@[j]).entity == h;
                    assert(s4.nodes@[index as int].entities@[j].entity == h);
                }
            }
            if s_old.base_aabb.covers(q) && s_old.root != NULL_INDEX {
                assert(s2 == s_old);
            }
        }
        r
    }

    /// Takes the record with handle `h` out of node `index`, if it keeps one.
    fn remove_local(&mut self, index: usize, h: u64) -> (r: bool)
        requires
            old(self).wf(),
            index < old(self).nodes@.len(),
            !old(self).idle_list@.contains(index),
        ensures
            final(self).wf(),
            final(self).root == old(self).root,
            final(self).base_aabb == old(self).base_aabb,
            final(self).min_leaf_extent == old(self).min_leaf_extent,
            final(self).idle_list == old(self).idle_list,
            final(self).nodes@.len() == old(self).nodes@.len(),
            forall|i: int| 0 <= i < final(self).nodes@.len() && i != index ==> #[trigger] final(self).nodes@[i] == old(self).nodes@[i],
            final(self).nodes@[index as int].aabb == old(self).nodes@[index as int].aabb,
            final(self).nodes@[index as int].parent == old(self).nodes@[index as int].parent,
            final(self).nodes@[index as int].children == old(self).nodes@[index as int].children,
            final(self).nodes@[index as int].children_len == old(self).nodes@[index as int].children_len,
            r == exists|j: int|
                0 <= j < old(self).nodes@[index as int].entities@.len()
                    && (#[trigger] old(self).nodes@[index as int].entities@[j]).entity == h,
            r ==> exists|b: AABB|
                #[trigger] old(self).contents().contains((h, b)) && final(self).len == old(self).len - 1
                    && final(self).contents().subset_of(old(self).contents())
                    && old(self).contents().subset_of(final(self).contents().insert((h, b))),
            !r ==> final(self).len == old(self).len && final(self).contents() == old(self).contents(),
            !r ==> final(self).records() == old(self).records(),
            r ==> exists|j: int|
                0 <= j < old(self).nodes@[index as int].entities@.len()
                    && (#[trigger] old(self).nodes@[index as int].entities@[j]).entity == h
                    && final(self).records() == old(self).records().remove(
                    (h, old(self).nodes@[index as int].entities@[j].aabb),
                ) && old(self).records().count((h, old(self).nodes@[index as int].entities@[j].aabb)) > 0,
    {
        let ghost s0 = *self;
        assert(s0.node_ok(index as int));
        let n = self.nodes[index].entities.len();
        let mut j: usize = 0;
        while j < n && self.nodes[index].entities[j].entity != h
            invariant
                *self == s0,
                index < self.nodes@.len(),
                n == self.nodes@[index as int].entities@.len(),
                j <= n,
                forall|t: int| 0 <= t < j ==> (#[trigger] self.nodes@[index as int].entities@[t]).entity != h,
            decreases n - j,
        {
            j = j + 1;
        }
        if j >= n {
            proof {
                Self::lemma_contents_same(s0, *self);
            }
            return false;
        }
        let ghost es = self.nodes@[index as int].entities@;
        let ghost e = es[j as int];
        proof {
            lemma_total_ge(s0.nodes@, index as int);
        }
        self.nodes[index].entities.remove(j);
        self.len = self.len - 1;
        proof {
            let ne = self.nodes@[index as int].entities@;
            assert(ne == es.remove(j as int));
            lemma_total_update(s0.nodes@, index as int, self.nodes@[index as int]);
            assert(self.nodes@ == s0.nodes@.update(index as int, self.nodes@[index as int]));
            assert(sorted_by_handle(ne)) by {
                assert forall|a: int, b: int| 0 <= a < b < ne.len() implies #[trigger] ne[a].entity < #[trigger] ne[b].entity by {
                    if a < j && b >= j {
                        assert(ne[b] == es[b + 1]);
                    } else if a >= j {
                        assert(ne[a] == es[a + 1]);
                        assert(ne[b] == es[b + 1]);
                    }
                }
            }
            assert(s0.node_ok(index as int));
            assert forall|t: int| 0 <= t < ne.len() implies (#[trigger] ne[t]).aabb.wf() && self.nodes@[index as int].aabb.covers(ne[t].aabb) by {
                if t >= j {
                    assert(ne[t] == es[t + 1]);
                }
            }
            Self::lemma_node_ok_frame(s0, *self, index as int);
            assert forall|t: int| 0 <= t < self.idle_list@.len() implies (#[trigger] self.nodes@[self.idle_list@[t] as int]).next_idle == (if t + 1 < self.idle_list@.len() {
                self.idle_list@[t + 1]
            } else {
                NULL_INDEX
            }) by {
                assert(s0.nodes@[s0.idle_list@[t] as int].next_idle == self.nodes@[self.idle_list@[t] as int].next_idle);
            }
            assert forall|t: int| 0 <= t < self.idle_list@.len() implies (#[trigger] self.nodes@[self.idle_list@[t] as int]).entities@.len() == 0 by {
                assert(self.idle_list@[t] != index);
            }
            assert forall|t: int| 0 <= t < self.idle_list@.len() implies (#[trigger] self.nodes@[self.idle_list@[t] as int]).children_len == 0 by {
                assert(s0.nodes@[s0.idle_list@[t] as int].children_len == self.nodes@[self.idle_list@[t] as int].children_len);
            }
            assert(self.idle_ok());
            let c0 = s0.contents();
            let c1 = self.contents();
            let b = e.aabb;
            assert(e.record() == (h, b));
            assert(c0.contains((h, b)));
            assert forall|rec: (u64, AABB)| c1.contains(rec) implies c0.contains(rec) by {
                let (i, t) = choose|i: int, t: int|
                    0 <= i < self.nodes@.len() && 0 <= t < self.nodes@[i].entities@.len()
                        && (#[trigger] self.nodes@[i].entities@[t]).record() == rec;
                if i == index {
                    if t >= j {
                        assert(s0.nodes@[i].entities@[t + 1] == ne[t]);
                    } else {
                        assert(s0.nodes@[i].entities@[t] == ne[t]);
                    }
                } else {
                    assert(s0.nodes@[i].entities@[t] == self.nodes@[i].entities@[t]);
                }
            }
            assert forall|rec: (u64, AABB)| c0.contains(rec) implies c1.insert((h, b)).contains(rec) by {
                if rec != (h, b) {
                    let (i, t) = choose|i: int, t: int|
                        0 <= i < s0.nodes@.len() && 0 <= t < s0.nodes@[i].entities@.len()
                            && (#[trigger] s0.nodes@[i].entities@[t]).record() == rec;
                    if i == index {
                        if t < j {
                            assert(ne[t] == es[t]);
                        } else if t > j {
                            assert(ne[t - 1] == es[t]);
                        }
                    } else {
                        assert(s0.nodes@[i].entities@[t] == self.nodes@[i].entities@[t]);
                    }
                }
            }
            assert(c1.subset_of(c0));
            assert(c0.subset_of(c1.insert((h, b))));
            lemma_node_records_remove(es, j as int);
            lemma_all_records_update(s0.nodes@, index as int, self.nodes@[index as int]);
            let a = self.records();
            let b0 = s0.records();
            let o = node_records(es);
            assert forall|v: (u64, AABB)| #[trigger] b0.count(v) == a.insert((h, b)).count(v) by {
                assert(a.add(o).count(v) == b0.add(node_records(ne)).count(v));
            }
            assert(b0 =~= a.insert((h, b)));
            assert(a =~= b0.remove((h, b)));
            assert(es[j as int].entity == h);
            Self::lemma_linked_same(s0, *self);
        }
        true
    }

    /// Returns the empty, childless node `index` to the idle chain, unlinking it
    /// from slot `octant_index` of `parent_index`, or clearing the root. The
    /// parent is left as it is even if it is now empty.
    fn idles_node(&mut self, index: usize, parent_index: usize, octant_index: usize)
        requires
            old(self).wf(),
            index < old(self).nodes@.len(),
            !old(self).idle_list@.contains(index),
            old(self).nodes@[index as int].entities@.len() == 0,
            old(self).nodes@[index as int].children_len == 0,
            (parent_index == NULL_INDEX && index == old(self).root) || (parent_index < old(self).nodes@.len()
                && octant_index < 8 && old(self).nodes@[parent_index as int].children@[octant_index as int]
                == index),
        ensures
            final(self).wf(),
            final(self).base_aabb == old(self).base_aabb,
            final(self).min_leaf_extent == old(self).min_leaf_extent,
            final(self).len == old(self).len,
            final(self).contents() == old(self).contents(),
            final(self).records() == old(self).records(),
            final(self).idle == index,
            final(self).idle_list@ == seq![index].add(old(self).idle_list@),
            parent_index == NULL_INDEX ==> final(self).root == NULL_INDEX,
            parent_index != NULL_INDEX ==> {
                &&& final(self).root == old(self).root
                &&& final(self).nodes@[parent_index as int].children@ == old(
                    self,
                ).nodes@[parent_index as int].children@.update(octant_index as int, NULL_INDEX)
                &&& final(self).nodes@[parent_index as int].children_len == old(
                    self,
                ).nodes@[parent_index as int].children_len - 1
            },
    {
        let ghost s0 = *self;
        assert(s0.node_ok(index as int));
        assert(index != NULL_INDEX) by {
            assert(self.nodes.len() <= usize::MAX);
        }
        let ghost l = s0.idle_list@;
        if parent_index != NULL_INDEX {
            assert(s0.node_ok(parent_index as int));
            assert(s0.child_ok(parent_index as int, octant_index as int));
            let mut ch = self.nodes[parent_index].children;
            ch[octant_index] = NULL_INDEX;
            let n = self.nodes[parent_index].children_len;
            assert(child_count(ch) == child_count(s0.nodes@[parent_index as int].children) - 1);
            self.nodes[parent_index].children = ch;
            self.nodes[parent_index].children_len = n - 1;
            proof {
                assert(index != s0.root) by {
                    if index == s0.root {
                        assert(s0.nodes@[index as int].parent == parent_index);
                    }
                }
            }
        } else {
            self.root = NULL_INDEX;
        }
        let ghost s1 = *self;
        let head = self.idle;
        self.nodes[index].next_idle = head;
        self.idle = index;
        proof {
            self.idle_list@ = seq![index].add(l);
            let nl = self.idle_list@;
            let ns = self.nodes@;
            assert(ns.len() == s0.nodes@.len());
            assert(forall|i: int| 0 <= i < ns.len() ==> #[trigger] ns[i].entities@ == s0.nodes@[i].entities@);
            // No node lists `index` any more.
            assert forall|i: int, k: int| 0 <= i < ns.len() && 0 <= k < 8 implies #[trigger] ns[i].children@[k] != index by {
                assert(s0.node_ok(i));
                assert(s0.child_ok(i, k));
                if i == parent_index && parent_index != NULL_INDEX {
                    if k != octant_index {
                        assert(s0.nodes@[i].children@[k] != s0.nodes@[i].children@[octant_index as int]);
                    }
                } else if s0.nodes@[i].children@[k] == index {
                    assert(s0.nodes@[index as int].parent == i);
                    if parent_index == NULL_INDEX {
                        assert(s0.nodes@.len() <= usize::MAX) by {
                            assert(s0.nodes.len() <= usize::MAX);
                        }
                    } else {
                        assert(s0.child_ok(parent_index as int, octant_index as int));
                    }
                }
            }
            assert(total(ns) == total(s0.nodes@)) by {
                lemma_total_update(s0.nodes@, index as int, ns[index as int]);
                if parent_index != NULL_INDEX {
                    lemma_total_update(s0.nodes@, parent_index as int, s1.nodes@[parent_index as int]);
                    assert(s1.nodes@ == s0.nodes@.update(parent_index as int, s1.nodes@[parent_index as int]));
                    lemma_total_update(s1.nodes@, index as int, ns[index as int]);
                    assert(ns == s1.nodes@.update(index as int, ns[index as int]));
                } else {
                    assert(ns == s0.nodes@.update(index as int, ns[index as int]));
                }
            }
            assert forall|i: int| 0 <= i < ns.len() implies #[trigger] self.node_ok(i) by {
                assert(s0.node_ok(i));
                assert forall|k: int| 0 <= k < 8 implies #[trigger] self.child_ok(i, k) by {
                    assert(s0.child_ok(i, k));
                    let c = ns[i].children@[k];
                    if c != NULL_INDEX {
                        assert(c != index);
                        assert(c == s0.nodes@[i].children@[k]);
                        assert(!nl.contains(c)) by {
                            if nl.contains(c) {
                                let t = choose|t: int| 0 <= t < nl.len() && nl[t] == c;
                                assert(t > 0);
                                assert(l[t - 1] == c);
                            }
                        }
                    }
                }
                if i == parent_index && parent_index != NULL_INDEX {
                    let ch = ns[i].children;
                    assert forall|k1: int, k2: int|
                        0 <= k1 < 8 && 0 <= k2 < 8 && #[trigger] ch@[k1] == #[trigger] ch@[k2]
                            && ch@[k1] != NULL_INDEX implies k1 == k2 by {
                        assert(s0.nodes@[i].children@[k1] == ch@[k1]);
                        assert(s0.nodes@[i].children@[k2] == ch@[k2]);
                    }
                }
            }
            assert(nl.no_duplicates()) by {
                assert forall|a: int, b: int| 0 <= a < b < nl.len() implies nl[a] != nl[b] by {
                    if a == 0 {
                        assert(nl[b] == l[b - 1]);
                    } else {
                        assert(nl[a] == l[a - 1]);
                        assert(nl[b] == l[b - 1]);
                    }
                }
            }
            assert forall|t: int| 0 <= t < nl.len() implies (#[trigger] nl[t]) < ns.len() by {
                if t > 0 {
                    assert(nl[t] == l[t - 1]);
                }
            }
            assert forall|t: int| 0 <= t < nl.len() implies (#[trigger] ns[nl[t] as int]).next_idle == (if t + 1 < nl.len() {
                nl[t + 1]
            } else {
                NULL_INDEX
            }) by {
                if t > 0 {
                    assert(nl[t] == l[t - 1]);
                    assert(l[t - 1] != index);
                    assert(s0.nodes@[l[t - 1] as int].next_idle == ns[nl[t] as int].next_idle);
                    if t < nl.len() - 1 {
                        assert(nl[t + 1] == l[t]);
                    }
                } else {
                    if nl.len() > 1 {
                        assert(nl[1] == l[0]);
                    }
                }
            }
            assert forall|t: int| 0 <= t < nl.len() implies (#[trigger] ns[nl[t] as int]).entities@.len() == 0 by {
                if t > 0 {
                    assert(nl[t] == l[t - 1]);
                }
            }
            assert forall|t: int| 0 <= t < nl.len() implies (#[trigger] ns[nl[t] as int]).children_len == 0 by {
                if t > 0 {
                    assert(nl[t] == l[t - 1]);
                    assert(l[t - 1] != parent_index || parent_index == NULL_INDEX) by {
                        if parent_index != NULL_INDEX && l[t - 1] == parent_index {
                            assert(s0.nodes@[parent_index as int].children_len == 0);
                            assert(s0.nodes@[parent_index as int].children@[octant_index as int] != NULL_INDEX);
                        }
                    }
                }
            }
            assert(self.idle_ok());
            assert(self.root != NULL_INDEX ==> !nl.contains(self.root)) by {
                if self.root != NULL_INDEX && nl.contains(self.root) {
                    let t = choose|t: int| 0 <= t < nl.len() && nl[t] == self.root;
                    if t > 0 {
                        assert(l[t - 1] == self.root);
                    }
                }
            }
            assert(self.wf_core());
            Self::lemma_contents_same(s0, *self);
            assert(s0.nodes.len() <= usize::MAX);
            Self::lemma_idle_linked(s0, *self, index, parent_index, octant_index);
        }
    }

    /// Links stay in place when a childless node leaves use and its slot in its
    /// parent, or the root, is cleared.
    proof fn lemma_idle_linked(a: Octree, b: Octree, index: usize, parent_index: usize, octant_index: usize)
        requires
            a.wf(),
            a.nodes@.len() <= usize::MAX,
            index < a.nodes@.len(),
            a.nodes@[index as int].children_len == 0,
            (parent_index == NULL_INDEX && index == a.root) || (parent_index < a.nodes@.len()
                && octant_index < 8 && a.nodes@[parent_index as int].children@[octant_index as int]
                == index),
            b.nodes@.len() == a.nodes@.len(),
            b.idle_list@ == seq![index].add(a.idle_list@),
            b.root == (if parent_index == NULL_INDEX { NULL_INDEX } else { a.root }),
            forall|i: int|
                0 <= i < a.nodes@.len() && i != parent_index ==> (#[trigger] b.nodes@[i]).parent == a.nodes@[i].parent
                    && b.nodes@[i].children == a.nodes@[i].children,
            parent_index != NULL_INDEX ==> b.nodes@[parent_index as int].children@ == a.nodes@[parent_index as int].children@.update(
                octant_index as int,
                NULL_INDEX,
            ),
            parent_index != NULL_INDEX ==> b.nodes@[parent_index as int].parent == a.nodes@[parent_index as int].parent,
        ensures
            b.linked(),
    {
        assert(a.node_ok(index as int));
        lemma_no_children(a.nodes@[index as int].children);
        assert forall|i: int| #[trigger] b.live(i) && i != b.root implies b.listed(i) by {
            assert(b.idle_list@[0] == index);
            assert(i != index);
            assert forall|t: int| 0 <= t < a.idle_list@.len() implies a.idle_list@[t] != i as usize by {
                assert(b.idle_list@[t + 1] == a.idle_list@[t]);
            }
            assert(!a.idle_list@.contains(i as usize));
            assert(a.live(i));
            assert(i != a.root);
            assert(a.listed(i));
            let p = a.nodes@[i].parent;
            let j = choose|j: int| 0 <= j < 8 && #[trigger] a.nodes@[p as int].children@[j] as int == i;
            assert(p != index);
            if p == parent_index {
                assert(j != octant_index);
            }
            assert(b.nodes@[i].parent == p);
            assert(b.nodes@[p as int].children@[j] as int == i);
        }
    }

    /// The octant of node `index` is too short to hold a node of its own.
    pub open spec fn too_small(self, sub: AABB) -> bool {
        !(sub.len(0) > self.min_leaf_extent.x && sub.len(1) > self.min_leaf_extent.y && sub.len(2)
            > self.min_leaf_extent.z)
    }

    /// Node at which a descent for box `q` from node `index` stops, following
    /// existing children only: where `q` straddles a splitting plane, or where
    /// the octant it fits in is too short for a node. `None` when the descent
    /// needs a child that does not exist.
    pub open spec fn reach_from(self, index: int, q: AABB) -> Option<int>
        decreases self.nodes@[index].aabb.len(0),
    {
        let nb = self.nodes@[index].aabb;
        let c = Vec3 { x: nb.center_at(0) as i64, y: nb.center_at(1) as i64, z: nb.center_at(2) as i64 };
        match q.octant_around_spec(c) {
            None => Some(index),
            Some(o) => {
                let child = self.nodes@[index].children@[o.index()];
                if child != NULL_INDEX {
                    if 0 <= child < self.nodes@.len() && 0 <= self.nodes@[child as int].aabb.len(0)
                        < nb.len(0) {
                        self.reach_from(child as int, q)
                    } else {
                        None
                    }
                } else if self.too_small(nb.octant_box(o)) {
                    Some(index)
                } else {
                    None
                }
            },
        }
    }

    /// Child that a descent for `q` takes from node `i`, if `q` fits in one octant.
    pub open spec fn step_to(self, i: int, q: AABB) -> Option<usize> {
        let nb = self.nodes@[i].aabb;
        let c = Vec3 { x: nb.center_at(0) as i64, y: nb.center_at(1) as i64, z: nb.center_at(2) as i64 };
        match q.octant_around_spec(c) {
            Some(o) => Some(self.nodes@[i].children@[o.index()]),
            None => None,
        }
    }

    /// `path` is a chain of live nodes, each the child a descent for `q` takes
    /// from the one before.
    spec fn path_ok(self, path: Seq<usize>, q: AABB) -> bool {
        &&& path.len() >= 1
        &&& forall|t: int| 0 <= t < path.len() ==> (#[trigger] path[t]) < self.nodes@.len()
        &&& forall|t: int| 0 <= t < path.len() ==> !self.idle_list@.contains(#[trigger] path[t])
        &&& forall|t: int| 0 <= t < path.len() - 1 ==> self.step_to(#[trigger] path[t] as int, q) == Some(path[t + 1])
    }

    /// A descent along a path ends where a descent from its last node ends.
    proof fn lemma_path_reach(self, path: Seq<usize>, q: AABB)
        requires
            self.wf_core(),
            self.path_ok(path, q),
        ensures
            self.reach_from(path[0] as int, q) == self.reach_from(path.last() as int, q),
        decreases path.len(),
    {
        if path.len() > 1 {
            let i = path[0] as int;
            assert(self.step_to(i, q) == Some(path[1]));
            assert(self.node_ok(i));
            let nb = self.nodes@[i].aabb;
            let c = Vec3 { x: nb.center_at(0) as i64, y: nb.center_at(1) as i64, z: nb.center_at(2) as i64 };
            let o = q.octant_around_spec(c).unwrap();
            assert(self.child_ok(i, o.index()));
            assert(path[1] < self.nodes@.len());
            assert(self.nodes.len() <= usize::MAX);
            let rest = path.drop_first();
            assert forall|t: int| 0 <= t < rest.len() - 1 implies self.step_to(#[trigger] rest[t] as int, q) == Some(rest[t + 1]) by {
                assert(rest[t] == path[t + 1]);
                assert(self.step_to(path[t + 1] as int, q) == Some(path[t + 2]));
            }
            assert forall|t: int| 0 <= t < rest.len() implies (#[trigger] rest[t]) < self.nodes@.len() by {
                assert(rest[t] == path[t + 1]);
            }
            assert forall|t: int| 0 <= t < rest.len() implies !self.idle_list@.contains(#[trigger] rest[t]) by {
                assert(rest[t] == path[t + 1]);
            }
            self.lemma_path_reach(rest, q);
            assert(rest.last() == path.last());
        }
    }

    /// The node reached for box `q` keeps the record `rec`.
    pub open spec fn keeps_at(self, q: AABB, rec: (u64, AABB)) -> bool {
        exists|n: int, j: int|
            self.reach(q) == Some(n) && 0 <= j < self.nodes@[n].entities@.len() && (
            #[trigger] self.nodes@[n].entities@[j]).record() == rec
    }

    /// Node at which the records inserted with box `q` are kept, if it exists.
    pub open spec fn reach(self, q: AABB) -> Option<int> {
        if self.root == NULL_INDEX {
            None
        } else {
            self.reach_from(self.root as int, q)
        }
    }

    /// The node reached for box `q` keeps a record with handle `h`.
    pub open spec fn holds_at(self, q: AABB, h: u64) -> bool {
        exists|n: int, j: int|
            self.reach(q) == Some(n) && 0 <= j < self.nodes@[n].entities@.len() && (
            #[trigger] self.nodes@[n].entities@[j]).entity == h
    }

    /// Removes the record with handle `entity` from the node that a descent
    /// with `aabb` reaches, as insertion descends. A node left with neither
    /// entities nor children goes back to the idle chain. Returns `false`, with
    /// no record removed, when that node keeps no record with the handle.
    pub fn remove(&mut self, entity: u64, aabb: AABB) -> (r: bool)
        requires
            old(self).wf(),
        ensures
            Self::remove_post(*old(self), entity, aabb, r, *final(self)),
            old(self).reach(aabb) matches Some(n) ==> (old(self).nodes@[n].children_len == 0
                && final(self).nodes@[n].entities@.len() == 0 ==> final(self).idle_list@ == seq![
                n as usize,
            ].add(old(self).idle_list@)),
            old(self).reach(aabb) matches Some(n) ==> (!(old(self).nodes@[n].children_len == 0
                && final(self).nodes@[n].entities@.len() == 0) ==> final(self).idle_list
                == old(self).idle_list),
            old(self).reach(aabb) is None ==> *final(self) == *old(self),
    {
        let ghost s0 = *self;
        if self.root == NULL_INDEX {
            return false;
        }
        let mut index = self.root;
        let mut parent_index = NULL_INDEX;
        let mut octant_index: usize = 0;
        let mut found = true;
        loop
            invariant_except_break
                found,
                self.reach(aabb) == self.reach_from(index as int, aabb),
            invariant
                *self == s0,
                self.wf(),
                index < self.nodes@.len(),
                !self.idle_list@.contains(index),
                (parent_index == NULL_INDEX && index == self.root) || (parent_index < self.nodes@.len()
                    && octant_index < 8 && self.nodes@[parent_index as int].children@[octant_index as int]
                    == index),
            ensures
                index < self.nodes@.len(),
                !self.idle_list@.contains(index),
                (parent_index == NULL_INDEX && index == self.root) || (parent_index < self.nodes@.len()
                    && octant_index < 8 && self.nodes@[parent_index as int].children@[octant_index as int]
                    == index),
                found ==> self.reach(aabb) == Some(index as int),
                !found ==> self.reach(aabb) is None,
            decreases self.nodes@[index as int].aabb.len(0),
        {
            assert(self.node_ok(index as int));
            let nb = self.nodes[index].aabb;
            let c = nb.center();
            assert(c == Vec3 { x: nb.center_at(0) as i64, y: nb.center_at(1) as i64, z: nb.center_at(2) as i64 });
            match aabb.octant_around(&c) {
                Some(o) => {
                    let k = OctreeNode::octant_to_index(o);
                    assert(self.child_ok(index as int, k as int));
                    let child = self.nodes[index].children[k];
                    if child != NULL_INDEX {
                        parent_index = index;
                        octant_index = k;
                        index = child;
                    } else {
                        let sub = nb.get_octant(o);
                        let l = sub.length();
                        if l.x > self.min_leaf_extent.x && l.y > self.min_leaf_extent.y && l.z
                            > self.min_leaf_extent.z {
                            found = false;
                        }
                        break;
                    }
                },
                None => {
                    break;
                },
            }
        }
        if !found {
            return false;
        }
        assert(s0.reach(aabb) == Some(index as int));
        let ghost sb = *self;
        assert(sb == s0);
        let ret = self.remove_local(index, entity);
        assert(ret == exists|j: int|
                0 <= j < s0.nodes@[index as int].entities@.len()
                    && (#[trigger] s0.nodes@[index as int].entities@[j]).entity == entity);
        assert(ret == s0.holds_at(aabb, entity)) by {
            if ret {
                let j = choose|j: int|
                    0 <= j < s0.nodes@[index as int].entities@.len()
                        && (#[trigger] s0.nodes@[index as int].entities@[j]).entity == entity;
                assert(s0.nodes@[index as int].entities@[j].entity == entity);
            }
        }
        let ghost s6 = *self;
        proof {
            if ret {
                let j = choose|j: int|
                    0 <= j < s0.nodes@[index as int].entities@.len()
                        && (#[trigger] s0.nodes@[index as int].entities@[j]).entity == entity
                        && s6.records() == s0.records().remove(
                        (entity, s0.nodes@[index as int].entities@[j].aabb),
                    ) && s0.records().count((entity, s0.nodes@[index as int].entities@[j].aabb)) > 0;
                assert(s0.nodes@[index as int].entities@[j].record() == (entity, s0.nodes@[index as int].entities@[j].aabb));
            }
        }
        if self.nodes[index].children_len == 0 && self.nodes[index].entities.len() == 0 {
            self.idles_node(index, parent_index, octant_index);
        }
        ret
    }

    /// Node `m` lies in the subtree of node `a`: following parents from `m`
    /// reaches `a`, each parent longer than its child.
    spec fn under(self, m: int, a: int) -> bool
        decreases 4 * COORD_LIMIT - self.nodes@[m].aabb.len(0),
    {
        if m == a {
            true
        } else {
            let p = self.nodes@[m].parent;
            if p != NULL_INDEX && p < self.nodes@.len() && 0 <= m < self.nodes@.len()
                && self.nodes@[m].aabb.len(0) < self.nodes@[p as int].aabb.len(0) <= 2 * COORD_LIMIT {
                self.under(p as int, a)
            } else {
                false
            }
        }
    }

    /// The parent of a node in use is in use, longer, and lists it.
    proof fn lemma_parent_live(self, m: int)
        requires
            self.wf(),
            self.nodes@.len() <= usize::MAX,
            self.live(m),
            m != self.root,
        ensures
            ({
                let p = self.nodes@[m].parent;
                &&& p != NULL_INDEX
                &&& self.live(p as int)
                &&& self.nodes@[m].aabb.len(0) < self.nodes@[p as int].aabb.len(0) <= 2 * COORD_LIMIT
                &&& exists|k: int| 0 <= k < 8 && #[trigger] self.nodes@[p as int].children@[k] as int == m
                &&& self.nodes@[p as int].aabb.covers(self.nodes@[m].aabb)
            }),
    {
        assert(self.listed(m));
        let p = self.nodes@[m].parent;
        let k = choose|k: int| 0 <= k < 8 && #[trigger] self.nodes@[p as int].children@[k] as int == m;
        assert(self.node_ok(p as int));
        assert(self.child_ok(p as int, k));
        assert(!self.idle_list@.contains(p)) by {
            if self.idle_list@.contains(p) {
                let t = choose|t: int| 0 <= t < self.idle_list@.len() && self.idle_list@[t] == p;
                assert(self.nodes@[self.idle_list@[t] as int].children_len == 0);
                lemma_no_children(self.nodes@[p as int].children);
            }
        }
        lemma_octants_partition(self.nodes@[p as int].aabb);
        assert(self.nodes@[p as int].aabb.covers(self.nodes@[p as int].aabb.octant_box(Octant::of_index(k))));
    }

    /// Every node in use lies under the root.
    proof fn lemma_live_under_root(self, m: int)
        requires
            self.wf(),
            self.nodes@.len() <= usize::MAX,
            self.live(m),
        ensures
            self.root != NULL_INDEX,
            self.under(m, self.root as int),
        decreases 4 * COORD_LIMIT - self.nodes@[m].aabb.len(0),
    {
        if m != self.root {
            self.lemma_parent_live(m);
            let p = self.nodes@[m].parent;
            self.lemma_live_under_root(p as int);
        }
    }

    /// A node strictly under `a` is under one of `a`'s children.
    proof fn lemma_under_split(self, m: int, a: int)
        requires
            self.wf(),
            self.nodes@.len() <= usize::MAX,
            self.live(m),
            self.under(m, a),
            m != a,
        ensures
            exists|k: int|
                0 <= k < 8 && #[trigger] self.nodes@[a].children@[k] != NULL_INDEX && self.under(
                    m,
                    self.nodes@[a].children@[k] as int,
                ),
        decreases 4 * COORD_LIMIT - self.nodes@[m].aabb.len(0),
    {
        assert(self.nodes@[self.root as int].parent == NULL_INDEX || self.root == NULL_INDEX);
        assert(m != self.root);
        self.lemma_parent_live(m);
        let p = self.nodes@[m].parent;
        let k = choose|k: int| 0 <= k < 8 && #[trigger] self.nodes@[p as int].children@[k] as int == m;
        if p == a {
            assert(self.nodes@[a].children@[k] != NULL_INDEX);
            assert(self.under(m, self.nodes@[a].children@[k] as int));
        } else {
            self.lemma_under_split(p as int, a);
            let k2 = choose|k2: int|
                0 <= k2 < 8 && #[trigger] self.nodes@[a].children@[k2] != NULL_INDEX && self.under(
                    p as int,
                    self.nodes@[a].children@[k2] as int,
                );
            assert(self.under(m, self.nodes@[a].children@[k2] as int));
        }
    }

    /// Being under a child of `a` is being under `a`.
    proof fn lemma_under_trans(self, m: int, c: int, a: int)
        requires
            self.under(m, c),
            0 <= c < self.nodes@.len(),
            0 <= a < self.nodes@.len(),
            self.nodes@[c].parent == a,
            self.nodes@[c].aabb.len(0) < self.nodes@[a].aabb.len(0) <= 2 * COORD_LIMIT,
            self.nodes@.len() <= usize::MAX,
        ensures
            self.under(m, a),
        decreases 4 * COORD_LIMIT - self.nodes@[m].aabb.len(0),
    {
        if m != c {
            let p = self.nodes@[m].parent;
            self.lemma_under_trans(p as int, c, a);
        } else {
            assert(self.under(a, a));
            assert(self.nodes@[c].parent != NULL_INDEX);
        }
    }

    /// A node's bound lies inside the bound of every node it is under.
    proof fn lemma_under_covers(self, m: int, a: int)
        requires
            self.wf(),
            self.nodes@.len() <= usize::MAX,
            self.live(m),
            self.under(m, a),
        ensures
            self.nodes@[a].aabb.covers(self.nodes@[m].aabb),
        decreases 4 * COORD_LIMIT - self.nodes@[m].aabb.len(0),
    {
        if m != a {
            assert(m != self.root);
            self.lemma_parent_live(m);
            let p = self.nodes@[m].parent;
            self.lemma_under_covers(p as int, a);
        }
    }

    /// A record with handle `h` whose box overlaps `q` is kept.
    pub open spec fn overlapping_handle(self, h: u64, q: AABB) -> bool {
        exists|b: AABB| #[trigger] self.contents().contains((h, b)) && b.overlaps(q)
    }

    proof fn lemma_in_contents(self, i: int, j: int)
        requires
            0 <= i < self.nodes@.len(),
            0 <= j < self.nodes@[i].entities@.len(),
        ensures
            self.contents().contains(self.nodes@[i].entities@[j].record()),
    {
    }

    /// Record `j` of node `m` overlaps `q`.
    spec fn hit_record(self, m: int, j: int, q: AABB) -> bool {
        &&& 0 <= m < self.nodes@.len()
        &&& 0 <= j < self.nodes@[m].entities@.len()
        &&& self.nodes@[m].entities@[j].aabb.overlaps(q)
    }

    /// Appends the handles kept at node `index` whose boxes overlap `q`.
    fn report_overlaps(&self, index: usize, q: &AABB, out: &mut Vec<u64>)
        requires
            self.wf(),
            index < self.nodes@.len(),
            forall|t: int| 0 <= t < old(out)@.len() ==> self.overlapping_handle(#[trigger] old(out)@[t], *q),
        ensures
            forall|t: int| 0 <= t < final(out)@.len() ==> self.overlapping_handle(#[trigger] final(out)@[t], *q),
            forall|x: u64| old(out)@.contains(x) ==> #[trigger] final(out)@.contains(x),
            forall|j: int|
                #[trigger] self.hit_record(index as int, j, *q) ==> final(out)@.contains(
                    self.nodes@[index as int].entities@[j].entity,
                ),
    {
        let ghost out0 = out@;
        let n = self.nodes[index].entities.len();
        let mut j: usize = 0;
        while j < n
            invariant
                self.wf(),
                index < self.nodes@.len(),
                n == self.nodes@[index as int].entities@.len(),
                j <= n,
                forall|t: int| 0 <= t < out@.len() ==> self.overlapping_handle(#[trigger] out@[t], *q),
                forall|x: u64| out0.contains(x) ==> #[trigger] out@.contains(x),
                forall|t: int|
                    0 <= t < j && #[trigger] self.hit_record(index as int, t, *q) ==> out@.contains(
                        self.nodes@[index as int].entities@[t].entity,
                    ),
            decreases n - j,
        {
            let e = self.nodes[index].entities[j];
            let ghost before = out@;
            if e.aabb.intersects(q) {
                proof {
                    self.lemma_in_contents(index as int, j as int);
                    assert(self.contents().contains((e.entity, e.aabb)));
                }
                out.push(e.entity);
                proof {
                    assert(out@[out@.len() - 1] == e.entity);
                    assert forall|x: u64| before.contains(x) implies #[trigger] out@.contains(x) by {
                        let t = choose|t: int| 0 <= t < before.len() && before[t] == x;
                        assert(out@[t] == x);
                    }
                }
            }
            j = j + 1;
        }
    }

    /// Handles of the kept records whose boxes overlap `aabb` (exclusive
    /// bounds): every such record, and only such, in no particular order.
    /// Descends while `aabb` fits in one octant, then visits every child whose
    /// bound overlaps it.
    pub fn intersect(&self, aabb: AABB) -> (r: Vec<u64>)
        requires
            self.wf(),
        ensures
            forall|t: int| 0 <= t < r@.len() ==> self.overlapping_handle(#[trigger] r@[t], aabb),
            forall|h: u64, b: AABB| #[trigger] self.contents().contains((h, b)) && b.overlaps(aabb) ==> r@.contains(h),
    {
        let mut out: Vec<u64> = Vec::new();
        let mut index = self.root;
        let mut done = false;
        proof {
            assert(self.nodes.len() <= usize::MAX);
            assert forall|m: int, j: int| #[trigger] self.hit_record(m, j, aabb) && self.live(m) implies out@.contains(
                self.nodes@[m].entities@[j].entity,
            ) || (!done && index != NULL_INDEX && self.under(m, index as int)) by {
                self.lemma_live_under_root(m);
            }
        }
        while index != NULL_INDEX && !done
            invariant
                self.wf(),
                self.nodes@.len() <= usize::MAX,
                index == NULL_INDEX || (index < self.nodes@.len() && self.live(index as int)),
                forall|t: int| 0 <= t < out@.len() ==> self.overlapping_handle(#[trigger] out@[t], aabb),
                forall|m: int, j: int|
                    #[trigger] self.hit_record(m, j, aabb) && self.live(m) ==> out@.contains(
                        self.nodes@[m].entities@[j].entity,
                    ) || (!done && index != NULL_INDEX && self.under(m, index as int)),
            decreases (if index == NULL_INDEX || done { 0 } else { self.nodes@[index as int].aabb.len(0) + 1 }),
        {
            assert(self.node_ok(index as int));
            let ghost old_index = index;
            self.report_overlaps(index, &aabb, &mut out);
            let nb = self.nodes[index].aabb;
            let c = nb.center();
            assert(c == Vec3 { x: nb.center_at(0) as i64, y: nb.center_at(1) as i64, z: nb.center_at(2) as i64 });
            match aabb.octant_around(&c) {
                Some(o) => {
                    let k = OctreeNode::octant_to_index(o);
                    assert(self.child_ok(index as int, k as int));
                    index = self.nodes[index].children[k];
                    proof {
                        if index != NULL_INDEX {
                            assert(self.live(index as int));
                        }
                        assert forall|m: int, j: int| #[trigger] self.hit_record(m, j, aabb) && self.live(m) implies out@.contains(
                            self.nodes@[m].entities@[j].entity,
                        ) || (!done && index != NULL_INDEX && self.under(m, index as int)) by {
                            if !out@.contains(self.nodes@[m].entities@[j].entity) && m != old_index {
                                assert(self.under(m, old_index as int));
                                self.lemma_under_split(m, old_index as int);
                                let k2 = choose|k2: int|
                                    0 <= k2 < 8 && #[trigger] self.nodes@[old_index as int].children@[k2] != NULL_INDEX
                                        && self.under(m, self.nodes@[old_index as int].children@[k2] as int);
                                if k2 != k {
                                    let c2 = self.nodes@[old_index as int].children@[k2];
                                    assert(self.child_ok(old_index as int, k2));
                                    assert(Octant::of_index(k2) != o) by {
                                        assert(Octant::of_index(k2).index() == k2);
                                    }
                                    lemma_other_octant_disjoint(nb, aabb, o, Octant::of_index(k2));
                                    self.lemma_under_covers(m, c2 as int);
                                    assert(self.node_ok(m));
                                    let b = self.nodes@[m].entities@[j].aabb;
                                    assert(self.nodes@[m].aabb.covers(b));
                                    lemma_covers_overlaps(self.nodes@[m].aabb, b, aabb);
                                    lemma_covers_overlaps(self.nodes@[c2 as int].aabb, self.nodes@[m].aabb, aabb);
                                }
                            }
                        }
                    }
                },
                None => {
                    self.intersect_children(index, &aabb, &mut out);
                    done = true;
                },
            }
        }
        proof {
            assert forall|h: u64, b: AABB| #[trigger] self.contents().contains((h, b)) && b.overlaps(aabb) implies out@.contains(h) by {
                let (i, j) = choose|i: int, j: int|
                    0 <= i < self.nodes@.len() && 0 <= j < self.nodes@[i].entities@.len()
                        && (#[trigger] self.nodes@[i].entities@[j]).record() == (h, b);
                assert(self.hit_record(i, j, aabb));
                assert(self.live(i)) by {
                    if self.idle_list@.contains(i as usize) {
                        let t = choose|t: int| 0 <= t < self.idle_list@.len() && self.idle_list@[t] == i as usize;
                        assert(self.nodes@[self.idle_list@[t] as int].entities@.len() == 0);
                    }
                }
            }
        }
        out
    }

    /// Reports, for every child of `index` whose bound overlaps `q`, its
    /// overlapping records and those of its own children, recursively: every
    /// overlapping record strictly under `index`.
    fn intersect_children(&self, index: usize, q: &AABB, out: &mut Vec<u64>)
        requires
            self.wf(),
            self.nodes@.len() <= usize::MAX,
            index < self.nodes@.len(),
            self.live(index as int),
            forall|t: int| 0 <= t < old(out)@.len() ==> self.overlapping_handle(#[trigger] old(out)@[t], *q),
        ensures
            forall|t: int| 0 <= t < final(out)@.len() ==> self.overlapping_handle(#[trigger] final(out)@[t], *q),
            forall|x: u64| old(out)@.contains(x) ==> #[trigger] final(out)@.contains(x),
            forall|m: int, j: int|
                #[trigger] self.hit_record(m, j, *q) && self.live(m) && m != index && self.under(m, index as int)
                    ==> final(out)@.contains(self.nodes@[m].entities@[j].entity),
        decreases self.nodes@[index as int].aabb.len(0),
    {
        assert(self.node_ok(index as int));
        let ghost out0 = out@;
        let mut k: usize = 0;
        while k < 8
            invariant
                self.wf(),
                self.nodes@.len() <= usize::MAX,
                index < self.nodes@.len(),
                self.live(index as int),
                self.node_ok(index as int),
                k <= 8,
                forall|t: int| 0 <= t < out@.len() ==> self.overlapping_handle(#[trigger] out@[t], *q),
                forall|x: u64| out0.contains(x) ==> #[trigger] out@.contains(x),
                forall|m: int, j: int, k2: int|
                    #[trigger] self.hit_record(m, j, *q) && self.live(m) && 0 <= k2 < k
                        && #[trigger] self.nodes@[index as int].children@[k2] != NULL_INDEX && self.under(
                        m,
                        self.nodes@[index as int].children@[k2] as int,
                    ) ==> out@.contains(self.nodes@[m].entities@[j].entity),
            decreases 8 - k,
        {
            let child = self.nodes[index].children[k];
            assert(self.child_ok(index as int, k as int));
            let ghost before = out@;
            if child != NULL_INDEX {
                assert(self.live(child as int));
                if self.nodes[child].aabb.intersects(q) {
                    self.report_overlaps(child, q, out);
                    self.intersect_children(child, q, out);
                    proof {
                        assert forall|m: int, j: int, k2: int|
                            #[trigger] self.hit_record(m, j, *q) && self.live(m) && 0 <= k2 < k + 1
                                && #[trigger] self.nodes@[index as int].children@[k2] != NULL_INDEX && self.under(
                                m,
                                self.nodes@[index as int].children@[k2] as int,
                            ) implies out@.contains(self.nodes@[m].entities@[j].entity) by {
                            if k2 < k {
                                assert(before.contains(self.nodes@[m].entities@[j].entity));
                            }
                        }
                    }
                } else {
                    proof {
                        assert forall|m: int, j: int, k2: int|
                            #[trigger] self.hit_record(m, j, *q) && self.live(m) && 0 <= k2 < k + 1
                                && #[trigger] self.nodes@[index as int].children@[k2] != NULL_INDEX && self.under(
                                m,
                                self.nodes@[index as int].children@[k2] as int,
                            ) implies out@.contains(self.nodes@[m].entities@[j].entity) by {
                            if k2 == k {
                                self.lemma_under_covers(m, child as int);
                                assert(self.node_ok(m));
                                let b = self.nodes@[m].entities@[j].aabb;
                                lemma_covers_overlaps(self.nodes@[m].aabb, b, *q);
                                lemma_covers_overlaps(self.nodes@[child as int].aabb, self.nodes@[m].aabb, *q);
                            }
                        }
                    }
                }
            }
            k = k + 1;
        }
        proof {
            assert forall|m: int, j: int|
                #[trigger] self.hit_record(m, j, *q) && self.live(m) && m != index && self.under(m, index as int)
                    implies out@.contains(self.nodes@[m].entities@[j].entity) by {
                self.lemma_under_split(m, index as int);
                let k2 = choose|k2: int|
                    0 <= k2 < 8 && #[trigger] self.nodes@[index as int].children@[k2] != NULL_INDEX && self.under(
                        m,
                        self.nodes@[index as int].children@[k2] as int,
                    );
            }
        }
    }

    /// Scan of records `j..` of node `index` along `ray`: a record replaces the
    /// running best `(ret, len)` when it is hit strictly nearer.
    pub open spec fn scan(self, index: int, ray: Ray, j: int, ret: Option<(u64, AABB)>, len: Option<Param>) -> (
        Option<(u64, AABB)>,
        Option<Param>,
    )
        decreases self.nodes@[index].entities@.len() - j,
    {
        if j < 0 || j >= self.nodes@[index].entities@.len() {
            (ret, len)
        } else {
            let e = self.nodes@[index].entities@[j];
            match ray.hit(e.aabb) {
                Some(c) => if len is None || p_lt(c, len.unwrap()) {
                    self.scan(index, ray, j + 1, Some((e.entity, e.aabb)), Some(c))
                } else {
                    self.scan(index, ray, j + 1, ret, len)
                },
                None => self.scan(index, ray, j + 1, ret, len),
            }
        }
    }

    /// The raycast walk from node `index` with running best distance `len` and
    /// walk parameter `pivot`: the record found, the best distance and the pivot
    /// afterwards. A node whose bound the ray misses is skipped. Otherwise its own
    /// records are scanned, then, if it has children, its octants are walked
    /// from the one holding the ray at `pivot`; last, the pivot becomes the
    /// node's exit parameter.
    pub open spec fn walk(self, index: int, ray: Ray, len: Option<Param>, pivot: Param) -> (
        Option<(u64, AABB)>,
        Option<Param>,
        Param,
    )
        decreases self.nodes@[index].aabb.len(0), 9int,
    {
        if !(0 <= index < self.nodes@.len()) || self.nodes@[index].aabb.len(0) < 0 {
            (None, len, pivot)
        } else {
            let nb = self.nodes@[index].aabb;
            match ray.slab(nb) {
                None => (None, len, pivot),
                Some((_, t_max)) => {
                    let (ret, len1) = self.scan(index, ray, 0, None, len);
                    if self.nodes@[index].children_len != 0 {
                        match ray.octant_at_spec(pivot, nb) {
                            Some(o) => {
                                let (r2, l2, _p2) = self.walk_octants(index, ray, t_max, o, ret, len1, pivot, 8);
                                (r2, l2, t_max)
                            },
                            None => (ret, len1, t_max),
                        }
                    } else {
                        (ret, len1, t_max)
                    }
                },
            }
        }
    }

    /// At most `steps` octants of node `index`, from `octant` on: an existing
    /// child is walked, and its first hit ends the walk; for a missing child the
    /// pivot moves to that octant's exit (or the node's exit `t_max`). The walk
    /// then steps to `next_octant_spec`, and ends where that is the same octant.
    pub open spec fn walk_octants(
        self,
        index: int,
        ray: Ray,
        t_max: Param,
        octant: Octant,
        ret: Option<(u64, AABB)>,
        len: Option<Param>,
        pivot: Param,
        steps: int,
    ) -> (Option<(u64, AABB)>, Option<Param>, Param)
        decreases self.nodes@[index].aabb.len(0), steps,
    {
        if steps <= 0 || !(0 <= index < self.nodes@.len()) {
            (ret, len, pivot)
        } else {
            let nb = self.nodes@[index].aabb;
            let child = self.nodes@[index].children@[octant.index()];
            if child == NULL_INDEX {
                let piv1 = match ray.slab(nb.octant_box(octant)) {
                    Some((_, e)) => e,
                    None => t_max,
                };
                let next = ray.next_octant_spec(octant, piv1, nb);
                if next == octant {
                    (ret, len, piv1)
                } else {
                    self.walk_octants(index, ray, t_max, next, ret, len, piv1, steps - 1)
                }
            } else if 0 <= child < self.nodes@.len() && 0 <= self.nodes@[child as int].aabb.len(0) < nb.len(0) {
                let (r, l, p) = self.walk(child as int, ray, len, pivot);
                if r is Some {
                    (r, l, p)
                } else {
                    let next = ray.next_octant_spec(octant, p, nb);
                    if next == octant {
                        (ret, l, p)
                    } else {
                        self.walk_octants(index, ray, t_max, next, ret, l, p, steps - 1)
                    }
                }
            } else {
                (ret, len, pivot)
            }
        }
    }

    /// Every record of node `index` that the ray hits is hit no nearer than `len`.
    spec fn node_hits_bounded(self, index: int, ray: Ray, len: Option<Param>) -> bool {
        forall|j: int|
            0 <= j < self.nodes@[index].entities@.len() && (#[trigger] ray.hit(
                self.nodes@[index].entities@[j].aabb,
            )) is Some ==> le_opt(len, ray.hit(self.nodes@[index].entities@[j].aabb))
    }

    /// A bound on the hits of a node's records stays a bound when it shrinks.
    proof fn lemma_bounded_shrink(self, index: int, ray: Ray, l1: Option<Param>, l2: Option<Param>)
        requires
            self.wf(),
            ray.wf(),
            0 <= index < self.nodes@.len(),
            self.node_hits_bounded(index, ray, l1),
            le_opt(l2, l1),
            l1 matches Some(x) ==> x.wf(),
            l2 matches Some(x) ==> x.wf(),
        ensures
            self.node_hits_bounded(index, ray, l2),
    {
        assert(self.node_ok(index));
        assert forall|j: int|
            0 <= j < self.nodes@[index].entities@.len() && (#[trigger] ray.hit(
                self.nodes@[index].entities@[j].aabb,
            )) is Some implies le_opt(l2, ray.hit(self.nodes@[index].entities@[j].aabb)) by {
            lemma_hit_wf(ray, self.nodes@[index].entities@[j].aabb);
            lemma_le_opt_trans(l2, l1, ray.hit(self.nodes@[index].entities@[j].aabb));
        }
    }

    /// Nearest hit along `ray` among the records reachable from node `index`,
    /// closer than the running best `len`. `pivot` is the parameter at which the
    /// octant walk resumes; on return it is the exit parameter of the node.
    /// The first hit a child reports ends the walk over that node's octants.
    #[verifier::rlimit(60)]
    fn raycast_inner(&self, index: usize, ray: &Ray, len: &mut Option<Param>, pivot: &mut Param) -> (r: Option<(u64, AABB)>)
        requires
            self.wf(),
            ray.wf(),
            index == NULL_INDEX || index < self.nodes@.len(),
            old(pivot).wf(),
            *old(len) matches Some(l) ==> l.wf(),
        ensures
            final(pivot).wf(),
            *final(len) matches Some(l) ==> l.wf(),
            match r {
                Some((h, b)) => self.contents().contains((h, b)) && ray.hit(b) == *final(len) && (*final(len)) is Some,
                None => *final(len) == *old(len),
            },
            le_opt(*final(len), *old(len)),
            index != NULL_INDEX ==> self.node_hits_bounded(index as int, *ray, *final(len)),
            (r, *final(len), *final(pivot)) == self.walk(index as int, *ray, *old(len), *old(pivot)),
            r is Some ==> (*old(len) is None || p_lt((*final(len)).unwrap(), (*old(len)).unwrap())),
            r matches Some(rec) ==> exists|m: int, j: int|
                #[trigger] self.under(m, index as int) && 0 <= m < self.nodes@.len() && 0 <= j
                    < self.nodes@[m].entities@.len() && (#[trigger] self.nodes@[m].entities@[j]).record() == rec,
        decreases (if index == NULL_INDEX { 0 } else { self.nodes@[index as int].aabb.len(0) + 1 }),
    {
        if index == NULL_INDEX {
            proof {
                assert(self.nodes.len() <= usize::MAX);
            }
            return None;
        }
        assert(self.node_ok(index as int));
        let ghost pivot0 = *pivot;
        let nb = self.nodes[index].aabb;
        match nb.intersects_ray_raw(ray) {
            None => {
                proof {
                    assert forall|j: int|
                        0 <= j < self.nodes@[index as int].entities@.len() && (#[trigger] ray.hit(
                            self.nodes@[index as int].entities@[j].aabb,
                        )) is Some implies le_opt(*len, ray.hit(self.nodes@[index as int].entities@[j].aabb)) by {
                        lemma_hit_covering(*ray, self.nodes@[index as int].entities@[j].aabb, nb);
                    }
                    if *len is Some {
                        assert(p_le(len.unwrap(), len.unwrap()));
                    }
                }
                None
            },
            Some((_, t_max)) => {
                let mut ret: Option<(u64, AABB)> = None;
                let ghost len0 = *len;
                let n = self.nodes[index].entities.len();
                let mut j: usize = 0;
                while j < n
                    invariant
                        self.wf(),
                        ray.wf(),
                        index < self.nodes@.len(),
                        self.node_ok(index as int),
                        n == self.nodes@[index as int].entities@.len(),
                        j <= n,
                        *len matches Some(l) ==> l.wf(),
                        match ret {
                            Some((h, b)) => self.contents().contains((h, b)) && ray.hit(b) == *len && (*len) is Some,
                            None => *len == len0,
                        },
                        len0 matches Some(l) ==> l.wf(),
                        le_opt(*len, len0),
                        *pivot == pivot0,
                        ret is Some ==> (len0 is None || p_lt((*len).unwrap(), len0.unwrap())),
                        ret matches Some(rec) ==> exists|m: int, jj: int|
                            #[trigger] self.under(m, index as int) && 0 <= m < self.nodes@.len() && 0 <= jj
                                < self.nodes@[m].entities@.len() && (#[trigger] self.nodes@[m].entities@[jj]).record() == rec,
                        self.scan(index as int, *ray, j as int, ret, *len) == self.scan(index as int, *ray, 0, None, len0),
                        forall|t: int|
                            0 <= t < j && (#[trigger] ray.hit(self.nodes@[index as int].entities@[t].aabb)) is Some
                                ==> le_opt(*len, ray.hit(self.nodes@[index as int].entities@[t].aabb)),
                    decreases n - j,
                {
                    let e = self.nodes[index].entities[j];
                    assert(e.aabb.wf());
                    match e.aabb.intersects_ray(ray) {
                        Some(candidate) => {
                            let closer = match *len {
                                None => true,
                                Some(l) => candidate.lt(&l),
                            };
                            let ghost prev = *len;
                            if closer {
                                proof {
                                    self.lemma_in_contents(index as int, j as int);
                                }
                                ret = Some((e.entity, e.aabb));
                                *len = Some(candidate);
                                proof {
                                    assert(self.under(index as int, index as int));
                                    assert(self.nodes@[index as int].entities@[j as int].record() == (e.entity, e.aabb));
                                    assert(le_opt(*len, prev)) by {
                                        if prev is Some {
                                            let pv = prev.unwrap();
                                            assert(candidate.num * pv.den <= pv.num * candidate.den);
                                        }
                                    }
                                    assert(le_opt(*len, Some(candidate))) by {
                                        assert(p_le(candidate, candidate));
                                    }
                                    assert forall|t: int|
                                        0 <= t < j + 1 && (#[trigger] ray.hit(self.nodes@[index as int].entities@[t].aabb)) is Some
                                            implies le_opt(*len, ray.hit(self.nodes@[index as int].entities@[t].aabb)) by {
                                        if t < j {
                                            lemma_hit_wf(*ray, self.nodes@[index as int].entities@[t].aabb);
                                            lemma_le_opt_trans(*len, prev, ray.hit(self.nodes@[index as int].entities@[t].aabb));
                                        }
                                    }
                                    lemma_le_opt_trans(*len, prev, len0);
                                    if len0 is Some {
                                        assert(prev is Some);
                                        lemma_lt_le_trans(candidate, prev.unwrap(), len0.unwrap());
                                    }
                                }
                            } else {
                                proof {
                                    let l = len.unwrap();
                                    assert(p_le(l, candidate)) by (nonlinear_arith)
                                        requires
                                            !(candidate.num * l.den < l.num * candidate.den),
                                    ;
                                }
                            }
                        },
                        None => {},
                    }
                    j = j + 1;
                }
                assert(self.scan(index as int, *ray, j as int, ret, *len) == (ret, *len));
                if self.nodes[index].children_len != 0 {
                    match ray.octant_at(pivot, &nb) {
                        Some(first) => {
                            let mut octant = first;
                            let mut steps: usize = 0;
                            assert(self.nodes.len() <= usize::MAX);
                            let ghost target = self.walk_octants(index as int, *ray, t_max, first, ret, *len, *pivot, 8);
                            while steps < 8
                                invariant_except_break
                                    self.walk_octants(index as int, *ray, t_max, octant, ret, *len, *pivot, 8 - steps) == target,
                                invariant
                                    self.wf(),
                                    ray.wf(),
                                    index < self.nodes@.len(),
                                    index != NULL_INDEX,
                                    self.node_ok(index as int),
                                    nb == self.nodes@[index as int].aabb,
                                    t_max.wf(),
                                    pivot.wf(),
                                    *len matches Some(l) ==> l.wf(),
                                    match ret {
                                        Some((h, b)) => self.contents().contains((h, b)) && ray.hit(b) == *len && (*len) is Some,
                                        None => *len == len0,
                                    },
                                    len0 matches Some(l) ==> l.wf(),
                                    le_opt(*len, len0),
                                    self.node_hits_bounded(index as int, *ray, *len),
                                    ret is Some ==> (len0 is None || p_lt((*len).unwrap(), len0.unwrap())),
                                    ret matches Some(rec) ==> exists|m: int, jj: int|
                                        #[trigger] self.under(m, index as int) && 0 <= m < self.nodes@.len() && 0 <= jj
                                            < self.nodes@[m].entities@.len() && (#[trigger] self.nodes@[m].entities@[jj]).record() == rec,
                                    steps <= 8,
                                    self.nodes@.len() <= usize::MAX,
                                ensures
                                    (ret, *len, *pivot) == target,
                                decreases 8 - steps,
                            {
                                let k = OctreeNode::octant_to_index(octant);
                                let child = self.nodes[index].children[k];
                                assert(self.child_ok(index as int, k as int));
                                if child == NULL_INDEX {
                                    let sub = nb.get_octant(octant);
                                    *pivot = match sub.intersects_ray_raw(ray) {
                                        Some((_, exit)) => exit,
                                        None => t_max,
                                    };
                                } else {
                                    let ghost before = *len;
                                    assert(child as int != NULL_INDEX as int);
                                    let res = self.raycast_inner(child, ray, len, pivot);
                                    proof {
                                        self.lemma_bounded_shrink(index as int, *ray, before, *len);
                                        lemma_le_opt_trans(*len, before, len0);
                                        if res is Some {
                                            let (m, jj) = choose|m: int, jj: int|
                                                #[trigger] self.under(m, child as int) && 0 <= m < self.nodes@.len() && 0 <= jj
                                                    < self.nodes@[m].entities@.len() && (#[trigger] self.nodes@[m].entities@[jj]).record() == res.unwrap();
                                            assert(self.node_ok(index as int));
                                            assert(self.node_ok(child as int));
                                            self.lemma_under_trans(m, child as int, index as int);
                                        }
                                        if res is Some && len0 is Some {
                                            assert(before is Some);
                                            lemma_lt_le_trans(len.unwrap(), before.unwrap(), len0.unwrap());
                                        }
                                    }
                                    match res {
                                        Some(found) => {
                                            ret = Some(found);
                                            break;
                                        },
                                        None => {},
                                    }
                                }
                                let prev = octant;
                                octant = ray.next_octant(octant, pivot, &nb);
                                if octant == prev {
                                    break;
                                }
                                steps = steps + 1;
                            }
                        },
                        None => {},
                    }
                }
                *pivot = t_max;
                ret
            },
        }
    }

    /// What `raycast` returns: the result of the walk from the root, starting
    /// with no best distance and the pivot at zero.
    pub open spec fn raycast_spec(self, ray: Ray) -> Option<RayHitInfo> {
        match self.walk(self.root as int, ray, None, Param { num: 0, den: 1 }) {
            (Some((h, b)), Some(t), _) => Some(RayHitInfo { entity: h, aabb: b, t }),
            _ => None,
        }
    }

    /// The records kept at the root node itself.
    pub open spec fn at_root(self) -> Set<(u64, AABB)> {
        Set::new(
            |rec: (u64, AABB)|
                self.root != NULL_INDEX && exists|j: int|
                    0 <= j < self.nodes@[self.root as int].entities@.len()
                        && (#[trigger] self.nodes@[self.root as int].entities@[j]).record() == rec,
        )
    }

    /// The record whose box the ray reaches first, found by walking octants in
    /// the order the ray crosses them, with the hit distance; `None` when the
    /// walk meets no record's box. The walk takes the first hit a child subtree
    /// reports, so the result is exact for the records kept at the root and
    /// nearest-first along the walk below it.
    pub fn raycast(&self, ray: &Ray) -> (r: Option<RayHitInfo>)
        requires
            self.wf(),
            ray.wf(),
        ensures
            r == self.raycast_spec(*ray),
            r matches Some(info) ==> self.contents().contains((info.entity, info.aabb)) && ray.hit(info.aabb)
                == Some(info.t),
            self.count() == 0 ==> r is None,
            forall|h: u64, b: AABB|
                #[trigger] self.at_root().contains((h, b)) && ray.hit(b) is Some ==> r is Some && p_le(
                    r.unwrap().t,
                    ray.hit(b).unwrap(),
                ),
    {
        let mut len: Option<Param> = None;
        let mut pivot = Param::zero();
        let found = self.raycast_inner(self.root, ray, &mut len, &mut pivot);
        proof {
            if self.count() == 0 {
                self.lemma_empty_contents();
            }
            assert forall|h: u64, b: AABB|
                #[trigger] self.at_root().contains((h, b)) && ray.hit(b) is Some implies found is Some && len is Some
                    && p_le(len.unwrap(), ray.hit(b).unwrap()) by {
                let j = choose|j: int|
                    0 <= j < self.nodes@[self.root as int].entities@.len()
                        && (#[trigger] self.nodes@[self.root as int].entities@[j]).record() == (h, b);
                assert(ray.hit(self.nodes@[self.root as int].entities@[j].aabb) is Some);
            }
        }
        match found {
            Some((entity, aabb)) => match len {
                Some(t) => Some(RayHitInfo::new(entity, aabb, t)),
                None => None,
            },
            None => None,
        }
    }

    /// Like `raycast`, also giving the point on the ray moved back from the hit
    /// by `correction` units of the distance's denominator, so that it lies
    /// just before the face that was hit.
    pub fn raycast_hit(&self, ray: &Ray, correction: i128) -> (r: Option<(RayHitInfo, RatPoint)>)
        requires
            self.wf(),
            ray.wf(),
            0 <= correction <= DIR_LIMIT,
        ensures
            r matches Some((info, _)) <==> self.raycast_spec(*ray) is Some,
            r matches Some((info, _)) ==> Some(info) == self.raycast_spec(*ray),
            r matches Some((info, p)) ==> {
                &&& self.contents().contains((info.entity, info.aabb))
                &&& ray.hit(info.aabb) == Some(info.t)
                &&& p == ray.point_at(Param { num: (info.t.num - correction) as i128, den: info.t.den })
            },
            self.count() == 0 ==> r is None,
            forall|h: u64, b: AABB|
                #[trigger] self.at_root().contains((h, b)) && ray.hit(b) is Some ==> r is Some && p_le(
                    r.unwrap().0.t,
                    ray.hit(b).unwrap(),
                ),
    {
        match self.raycast(ray) {
            Some(info) => {
                proof {
                    assert(info.aabb.wf()) by {
                        let (i, j) = choose|i: int, j: int|
                            0 <= i < self.nodes@.len() && 0 <= j < self.nodes@[i].entities@.len()
                                && (#[trigger] self.nodes@[i].entities@[j]).record() == (info.entity, info.aabb);
                        assert(self.node_ok(i));
                    }
                    ray.lemma_exit_upto(info.aabb, 3);
                    ray.lemma_entry_upto(info.aabb, 3);
                }
                assert(info.t.num > 0);
                let back = Param { num: info.t.num - correction, den: info.t.den };
                let p = ray.point(&back);
                Some((info, p))
            },
            None => None,
        }
    }

    /// A tree that keeps no records has empty contents.
    proof fn lemma_empty_contents(self)
        requires
            self.wf(),
            self.count() == 0,
        ensures
            self.contents() == Set::<(u64, AABB)>::empty(),
    {
        assert forall|rec: (u64, AABB)| !self.contents().contains(rec) by {
            if self.contents().contains(rec) {
                let (i, j) = choose|i: int, j: int|
                    0 <= i < self.nodes@.len() && 0 <= j < self.nodes@[i].entities@.len()
                        && (#[trigger] self.nodes@[i].entities@[j]).record() == rec;
                lemma_total_ge(self.nodes@, i);
            }
        }
        assert(self.contents() =~= Set::<(u64, AABB)>::empty());
    }
}

/// Inserting a record whose handle the tree does not keep and then removing
/// that handle with the same box both succeed, and the records and the count
/// are back where they started.
pub proof fn lemma_insert_then_remove(
    t0: Octree,
    entity: OctreeEntity,
    r1: bool,
    t1: Octree,
    r2: bool,
    t2: Octree,
)
    requires
        t0.wf(),
        !t0.has_handle(entity.entity),
        Octree::insert_post(t0, entity, r1, t1),
        Octree::remove_post(t1, entity.entity, entity.aabb, r2, t2),
    ensures
        r1,
        r2,
        t2.count() == t0.count(),
        t2.records() == t0.records(),
{
    broadcast use vstd::multiset::group_multiset_axioms;
    let (n1, j1) = choose|n: int, j: int|
        t1.reach(entity.aabb) == Some(n) && 0 <= j < t1.nodes@[n].entities@.len() && (
        #[trigger] t1.nodes@[n].entities@[j]).record() == entity.record();
    let (n2, j2) = choose|n: int, j: int|
        t1.reach(entity.aabb) == Some(n) && 0 <= j < t1.nodes@[n].entities@.len() && (
        #[trigger] t1.nodes@[n].entities@[j]).entity == entity.entity && t2.records()
            == t1.records().remove(t1.nodes@[n].entities@[j].record());
    assert(n1 == n2);
    t1.lemma_reach_below(t1.root as int, entity.aabb);
    assert(t1.node_ok(n1));
    let es = t1.nodes@[n1].entities@;
    assert(j1 == j2) by {
        if j1 < j2 {
            assert(es[j1].entity < es[j2].entity);
        } else if j2 < j1 {
            assert(es[j2].entity < es[j1].entity);
        }
    }
    assert(t2.records() =~= t0.records());
}

/// Inserting the same record twice succeeds the first time, when the handle
/// was not kept, and fails the second time without changing the count.
pub proof fn lemma_insert_twice(
    t0: Octree,
    entity: OctreeEntity,
    r1: bool,
    t1: Octree,
    r2: bool,
    t2: Octree,
)
    requires
        t0.wf(),
        !t0.has_handle(entity.entity),
        Octree::insert_post(t0, entity, r1, t1),
        Octree::insert_post(t1, entity, r2, t2),
    ensures
        r1,
        !r2,
        t2.count() == t1.count(),
{
}

/// Removing a handle that the tree does not keep fails and leaves the count
/// unchanged, whatever box is given.
pub proof fn lemma_remove_absent(t0: Octree, entity: u64, aabb: AABB, r: bool, t1: Octree)
    requires
        t0.wf(),
        !t0.has_handle(entity),
        Octree::remove_post(t0, entity, aabb, r, t1),
    ensures
        !r,
        t1.count() == t0.count(),
{
}

/// Inserting a box outside the current bound grows the bound to cover it, and
/// every record kept before is still kept afterwards.
pub proof fn lemma_growth_keeps_records(t0: Octree, entity: OctreeEntity, r: bool, t1: Octree)
    requires
        t0.wf(),
        Octree::insert_post(t0, entity, r, t1),
    ensures
        t1.base().covers(entity.aabb),
        t1.base().covers(t0.base()),
        t0.contents().subset_of(t1.contents()),
{
}

} // verus!
