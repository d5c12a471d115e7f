//! The quadtree itself: a recursive node that holds a bound, a small
//! in-line collection of entities, and either no children or exactly four
//! children partitioning its bound into quadrants.

use vstd::prelude::*;
use vstd::multiset::Multiset;
use vstd::seq_lib::lemma_multiset_commutative;
use crate::bound::Bound;
use crate::bound::lemma_quadrant_wf;
use crate::bound::lemma_quadrant_partition;
use crate::bound::lemma_disjoint_bounds;
use crate::entity::Position;

verus! {

broadcast use
    vstd::multiset::group_multiset_axioms,
    vstd::multiset::group_multiset_properties,
    vstd::seq_lib::group_to_multiset_ensures;

/// Most entities a node may hold directly before an insertion makes it
/// subdivide.
pub const CAPACITY: usize = 1;

/// The values behind a sequence of references.
pub open spec fn refs_to_vals<A>(s: Seq<&A>) -> Seq<A> {
    s.map_values(|t: &A| *t)
}

/// Membership of an entity's position in a query region, as the predicate
/// a region query filters by.
pub open spec fn region_pred<T: Position>(region: Bound) -> spec_fn(T) -> bool {
    |t: T| region.spec_contains(t.spec_position())
}

/// A quadtree node over the fixed rectangle `bounds`.
///
/// A node is either a leaf, holding its entities directly, or an internal
/// node with exactly four children and no directly held entities.
pub struct QuadTree<T> {
    /// The rectangle this node indexes; fixed for the node's lifetime.
    pub bounds: Bound,
    pub items: Vec<T>,
    pub subtrees: Option<Quadrants<T>>,
}

/// The four children of an internal node, in the canonical quadrant
/// order: top-left, top-right, bottom-left, bottom-right.
pub struct Quadrants<T> {
    pub top_left: Box<QuadTree<T>>,
    pub top_right: Box<QuadTree<T>>,
    pub bottom_left: Box<QuadTree<T>>,
    pub bottom_right: Box<QuadTree<T>>,
}

impl<T> QuadTree<T> {
    /// All stored entities, in visitation order: a node's own entities
    /// first, then each child subtree's, in quadrant order.
    pub open spec fn entities(self) -> Seq<T>
        decreases self,
    {
        match self.subtrees {
            None => self.items@,
            Some(q) => self.items@ + q.top_left.entities() + q.top_right.entities()
                + q.bottom_left.entities() + q.bottom_right.entities(),
        }
    }

    /// Whether this node is a leaf (it has no children).
    pub open spec fn is_leaf_spec(self) -> bool {
        self.subtrees is None
    }

    /// How many entities this node holds directly, children aside.
    pub open spec fn direct_count(self) -> nat {
        self.items@.len()
    }

    /// The child of quadrant index `i` of an internal node.
    pub open spec fn spec_child(self, i: int) -> QuadTree<T>
        recommends
            !self.is_leaf_spec(),
            0 <= i < 4,
    {
        let q = self.subtrees->Some_0;
        if i == 0 {
            *q.top_left
        } else if i == 1 {
            *q.top_right
        } else if i == 2 {
            *q.bottom_left
        } else {
            *q.bottom_right
        }
    }

    /// Every node of the subtree rooted here, in pre-order: the node
    /// itself first, then each child subtree in quadrant order.
    pub open spec fn spec_nodes(self) -> Seq<QuadTree<T>>
        decreases self,
    {
        match self.subtrees {
            None => seq![self],
            Some(q) => seq![self] + q.top_left.spec_nodes() + q.top_right.spec_nodes()
                + q.bottom_left.spec_nodes() + q.bottom_right.spec_nodes(),
        }
    }
}

impl<T: Position> QuadTree<T> {
    /// Well-formedness: the bound is well-formed, every directly held
    /// entity lies within it, a splittable leaf holds at most `CAPACITY`
    /// entities, and an internal node holds no entity of its own while its
    /// four children cover its (splittable) bound quadrant by quadrant.
    ///
    /// A leaf whose bound is too small to split may hold more than
    /// `CAPACITY` entities: there is no smaller rectangle to push them to.
    pub open spec fn wf(self) -> bool
        decreases self,
    {
        &&& self.bounds.wf()
        &&& forall|i: int|
            0 <= i < self.items@.len() ==> self.bounds.spec_contains(
                (#[trigger] self.items@[i]).spec_position(),
            )
        &&& match self.subtrees {
            None => self.items@.len() <= CAPACITY || !self.bounds.splittable(),
            Some(q) => {
                &&& self.items@.len() == 0
                &&& self.bounds.splittable()
                &&& q.top_left.bounds == self.bounds.quadrant(0)
                &&& q.top_right.bounds == self.bounds.quadrant(1)
                &&& q.bottom_left.bounds == self.bounds.quadrant(2)
                &&& q.bottom_right.bounds == self.bounds.quadrant(3)
                &&& q.top_left.wf()
                &&& q.top_right.wf()
                &&& q.bottom_left.wf()
                &&& q.bottom_right.wf()
            },
        }
    }

    /// Creates an empty leaf node over `bounds`.
    pub fn new(bounds: Bound) -> (t: Self)
        requires
            bounds.wf(),
        ensures
            t.wf(),
            t.bounds == bounds,
            t.is_leaf_spec(),
            t.entities() == Seq::<T>::empty(),
    {
        let t = QuadTree { bounds, items: Vec::new(), subtrees: None };
        proof {
            assert(t.entities() =~= Seq::<T>::empty());
        }
        t
    }

    /// Reports whether this node is currently a leaf.
    pub fn is_leaf(&self) -> (r: bool)
        ensures
            r == self.is_leaf_spec(),
    {
        self.subtrees.is_none()
    }

    /// How many entities this node holds directly.
    pub fn item_count(&self) -> (n: usize)
        ensures
            n == self.direct_count(),
    {
        self.items.len()
    }

    /// The child of quadrant index `i` of an internal node.
    pub fn subtree(&self, i: usize) -> (c: &QuadTree<T>)
        requires
            !self.is_leaf_spec(),
            i < 4,
        ensures
            *c == self.spec_child(i as int),
    {
        match &self.subtrees {
            Some(q) => {
                if i == 0 {
                    &q.top_left
                } else if i == 1 {
                    &q.top_right
                } else if i == 2 {
                    &q.bottom_left
                } else {
                    &q.bottom_right
                }
            },
            None => vstd::pervasive::unreached(),
        }
    }

    /// An internal node's entities, as a multiset, are its own entities
    /// together with those of its four children.
    proof fn lemma_entities_multiset(self)
        requires
            !self.is_leaf_spec(),
        ensures
            self.entities().to_multiset() == self.items@.to_multiset().add(
                self.spec_child(0).entities().to_multiset(),
            ).add(self.spec_child(1).entities().to_multiset()).add(
                self.spec_child(2).entities().to_multiset(),
            ).add(self.spec_child(3).entities().to_multiset()),
    {
        let q = self.subtrees->Some_0;
        let a = self.items@;
        let e0 = q.top_left.entities();
        let e1 = q.top_right.entities();
        let e2 = q.bottom_left.entities();
        let e3 = q.bottom_right.entities();
        lemma_multiset_commutative(a, e0);
        lemma_multiset_commutative(a + e0, e1);
        lemma_multiset_commutative(a + e0 + e1, e2);
        lemma_multiset_commutative(a + e0 + e1 + e2, e3);
    }

    /// Splits a leaf into four empty quadrant children and redistributes
    /// its entities into them, routing each to the quadrant that contains
    /// its position; afterwards the node is internal and holds no entity
    /// directly. Happens at most once per node.
    fn subdivide(&mut self)
        requires
            old(self).wf(),
            old(self).is_leaf_spec(),
            old(self).bounds.splittable(),
        ensures
            final(self).wf(),
            final(self).bounds == old(self).bounds,
            !final(self).is_leaf_spec(),
            final(self).direct_count() == 0,
            final(self).entities().to_multiset() == old(self).entities().to_multiset(),
    {
        let b = self.bounds;
        proof {
            lemma_quadrant_wf(b, 0);
            lemma_quadrant_wf(b, 1);
            lemma_quadrant_wf(b, 2);
            lemma_quadrant_wf(b, 3);
        }
        let hx = b.x / 2;
        let hy = b.y / 2;
        let b0 = Bound::new(b.pos, hx, hy);
        let b1 = Bound::new((b.pos.0 + hx, b.pos.1), b.x - hx, hy);
        let b2 = Bound::new((b.pos.0, b.pos.1 + hy), hx, b.y - hy);
        let b3 = Bound::new((b.pos.0 + hx, b.pos.1 + hy), b.x - hx, b.y - hy);
        proof {
            assert(b0 == b.quadrant(0));
            assert(b1 == b.quadrant(1));
            assert(b2 == b.quadrant(2));
            assert(b3 == b.quadrant(3));
        }
        let mut q0 = QuadTree::<T>::new(b0);
        let mut q1 = QuadTree::<T>::new(b1);
        let mut q2 = QuadTree::<T>::new(b2);
        let mut q3 = QuadTree::<T>::new(b3);
        while self.items.len() > 0
            invariant
                self.bounds == b,
                self.subtrees is None,
                b.wf(),
                b.splittable(),
                b0 == b.quadrant(0),
                b1 == b.quadrant(1),
                b2 == b.quadrant(2),
                b3 == b.quadrant(3),
                q0.bounds == b0 && q0.subtrees is None,
                q1.bounds == b1 && q1.subtrees is None,
                q2.bounds == b2 && q2.subtrees is None,
                q3.bounds == b3 && q3.subtrees is None,
                forall|i: int|
                    0 <= i < self.items@.len() ==> b.spec_contains(
                        (#[trigger] self.items@[i]).spec_position(),
                    ),
                forall|i: int|
                    0 <= i < q0.items@.len() ==> b0.spec_contains(
                        (#[trigger] q0.items@[i]).spec_position(),
                    ),
                forall|i: int|
                    0 <= i < q1.items@.len() ==> b1.spec_contains(
                        (#[trigger] q1.items@[i]).spec_position(),
                    ),
                forall|i: int|
                    0 <= i < q2.items@.len() ==> b2.spec_contains(
                        (#[trigger] q2.items@[i]).spec_position(),
                    ),
                forall|i: int|
                    0 <= i < q3.items@.len() ==> b3.spec_contains(
                        (#[trigger] q3.items@[i]).spec_position(),
                    ),
                q0.items@.len() + q1.items@.len() + q2.items@.len() + q3.items@.len()
                    + self.items@.len() == old(self).items@.len(),
                old(self).items@.len() <= CAPACITY,
                q0.items@.to_multiset().add(q1.items@.to_multiset()).add(
                    q2.items@.to_multiset(),
                ).add(q3.items@.to_multiset()).add(self.items@.to_multiset())
                    == old(self).items@.to_multiset(),
            decreases self.items@.len(),
        {
            let ghost pre = self.items@;
            let it = self.items.pop().unwrap();
            proof {
                assert(pre =~= pre.drop_last().push(pre.last()));
                assert(pre.to_multiset() =~= self.items@.to_multiset().insert(it));
            }
            let p = it.position();
            let ghost m0 = q0.items@.to_multiset();
            let ghost m1 = q1.items@.to_multiset();
            let ghost m2 = q2.items@.to_multiset();
            let ghost m3 = q3.items@.to_multiset();
            let ghost mr = self.items@.to_multiset();
            if b0.contains(&p) {
                q0.items.push(it);
                proof {
                    assert(m0.insert(it).add(m1).add(m2).add(m3).add(mr) =~= m0.add(m1).add(
                        m2,
                    ).add(m3).add(mr.insert(it)));
                }
            } else if b1.contains(&p) {
                q1.items.push(it);
                proof {
                    assert(m0.add(m1.insert(it)).add(m2).add(m3).add(mr) =~= m0.add(m1).add(
                        m2,
                    ).add(m3).add(mr.insert(it)));
                }
            } else if b2.contains(&p) {
                q2.items.push(it);
                proof {
                    assert(m0.add(m1).add(m2.insert(it)).add(m3).add(mr) =~= m0.add(m1).add(
                        m2,
                    ).add(m3).add(mr.insert(it)));
                }
            } else {
                proof {
                    lemma_quadrant_partition(b, p, 0);
                    lemma_quadrant_partition(b, p, 1);
                    lemma_quadrant_partition(b, p, 2);
                    lemma_quadrant_partition(b, p, 3);
                }
                q3.items.push(it);
                proof {
                    assert(m0.add(m1).add(m2).add(m3.insert(it)).add(mr) =~= m0.add(m1).add(
                        m2,
                    ).add(m3).add(mr.insert(it)));
                }
            }
        }
        proof {
            assert(q0.wf());
            assert(q1.wf());
            assert(q2.wf());
            assert(q3.wf());
        }
        self.subtrees = Some(
            Quadrants {
                top_left: Box::new(q0),
                top_right: Box::new(q1),
                bottom_left: Box::new(q2),
                bottom_right: Box::new(q3),
            },
        );
        proof {
            assert(self.items@.to_multiset() =~= Multiset::<T>::empty());
            assert(old(self).entities().to_multiset() == old(self).items@.to_multiset());
            self.lemma_entities_multiset();
            assert(self.entities().to_multiset() =~= old(self).entities().to_multiset());
            assert(self.wf());
        }
    }

    /// Inserts `item`. If its position lies outside this node's bound, the
    /// item is handed back unchanged and the tree is untouched. Otherwise
    /// the item is stored — a full splittable leaf subdivides first, and an
    /// internal node offers the item to its children in canonical quadrant
    /// order, stopping at the one child whose quadrant contains it — and
    /// the tree afterwards holds exactly one more entity.
    pub fn insert(&mut self, item: T) -> (res: Option<T>)
        requires
            old(self).wf(),
        ensures
            final(self).wf(),
            final(self).bounds == old(self).bounds,
            old(self).bounds.spec_contains(item.spec_position()) ==> res is None,
            old(self).bounds.spec_contains(item.spec_position())
                ==> final(self).entities().to_multiset()
                == old(self).entities().to_multiset().insert(item),
            old(self).bounds.spec_contains(item.spec_position())
                ==> final(self).entities().len() == old(self).entities().len() + 1,
            !old(self).bounds.spec_contains(item.spec_position()) ==> res == Some(item),
            !old(self).bounds.spec_contains(item.spec_position())
                ==> *final(self) == *old(self),
            final(self).is_leaf_spec() == (old(self).is_leaf_spec()
                && !(old(self).bounds.spec_contains(item.spec_position())
                && old(self).direct_count() >= CAPACITY
                && old(self).bounds.splittable())),
        decreases old(self).bounds.x + old(self).bounds.y,
    {
        let p = item.position();
        if !self.bounds.contains(&p) {
            return Some(item);
        }
        if self.subtrees.is_none() {
            if self.items.len() < CAPACITY || !self.bounds.can_split() {
                let ghost pre = self.items@;
                self.items.push(item);
                proof {
                    assert(self.entities() =~= pre.push(item));
                    assert(self.entities().to_multiset() =~= pre.to_multiset().insert(item));
                }
                return None;
            }
            self.subdivide();
        }
        let ghost mid = *self;
        let b = self.bounds;
        proof {
            lemma_quadrant_wf(b, 0);
            lemma_quadrant_wf(b, 1);
            lemma_quadrant_wf(b, 2);
            lemma_quadrant_wf(b, 3);
            lemma_quadrant_partition(b, p, 0);
            lemma_quadrant_partition(b, p, 1);
            lemma_quadrant_partition(b, p, 2);
            lemma_quadrant_partition(b, p, 3);
            mid.lemma_entities_multiset();
        }
        let quads_opt = self.subtrees.take();
        match quads_opt {
            Some(mut q) => {
                let mut res = (&mut *q.top_left).insert(item);
                if res.is_some() {
                    res = (&mut *q.top_right).insert(res.unwrap());
                }
                if res.is_some() {
                    res = (&mut *q.bottom_left).insert(res.unwrap());
                }
                if res.is_some() {
                    res = (&mut *q.bottom_right).insert(res.unwrap());
                }
                self.subtrees = Some(q);
                proof {
                    assert(res is None);
                    self.lemma_entities_multiset();
                    assert(self.entities().to_multiset() =~= mid.entities().to_multiset().insert(
                        item,
                    ));
                    assert(self.wf());
                    assert(self.entities().to_multiset().len() == self.entities().len());
                    assert(mid.entities().to_multiset().len() == mid.entities().len());
                    assert(old(self).entities().to_multiset().len() == old(self).entities().len());
                    assert(mid.entities().to_multiset().insert(item).len() == mid.entities(
                    ).to_multiset().len() + 1);
                }
                res
            },
            None => vstd::pervasive::unreached(),
        }
    }

    /// What a region query returns: the stored entities whose positions
    /// lie within the region, in visitation order.
    pub open spec fn query_spec(self, region: Bound) -> Seq<T> {
        self.entities().filter(region_pred(region))
    }

    /// Every stored entity of a well-formed node lies within the node's
    /// bound.
    pub proof fn lemma_entities_in_bounds(self)
        requires
            self.wf(),
        ensures
            forall|i: int|
                0 <= i < self.entities().len() ==> self.bounds.spec_contains(
                    (#[trigger] self.entities()[i]).spec_position(),
                ),
        decreases self,
    {
        match self.subtrees {
            None => {},
            Some(q) => {
                q.top_left.lemma_entities_in_bounds();
                q.top_right.lemma_entities_in_bounds();
                q.bottom_left.lemma_entities_in_bounds();
                q.bottom_right.lemma_entities_in_bounds();
                let a = self.items@;
                let e0 = q.top_left.entities();
                let e1 = q.top_right.entities();
                let e2 = q.bottom_left.entities();
                let e3 = q.bottom_right.entities();
                assert forall|i: int|
                    0 <= i < self.entities().len() implies self.bounds.spec_contains(
                    (#[trigger] self.entities()[i]).spec_position(),
                ) by {
                    let e = self.entities()[i];
                    let p = e.spec_position();
                    if i < a.len() {
                    } else if i < a.len() + e0.len() {
                        assert(e == e0[i - a.len()]);
                        lemma_quadrant_partition(self.bounds, p, 0);
                    } else if i < a.len() + e0.len() + e1.len() {
                        assert(e == e1[i - a.len() - e0.len()]);
                        lemma_quadrant_partition(self.bounds, p, 1);
                    } else if i < a.len() + e0.len() + e1.len() + e2.len() {
                        assert(e == e2[i - a.len() - e0.len() - e1.len()]);
                        lemma_quadrant_partition(self.bounds, p, 2);
                    } else {
                        assert(e == e3[i - a.len() - e0.len() - e1.len() - e2.len()]);
                        lemma_quadrant_partition(self.bounds, p, 3);
                    }
                }
            },
        }
    }

    /// Returns a reference to every stored entity whose position lies
    /// within `region`. A subtree whose bound cannot intersect the region
    /// is pruned: it is skipped without being visited.
    pub fn query(&self, region: &Bound) -> (r: Vec<&T>)
        requires
            self.wf(),
        ensures
            refs_to_vals(r@) == self.query_spec(*region),
        decreases *self,
    {
        let ghost pred = region_pred::<T>(*region);
        let mut res: Vec<&T> = Vec::new();
        if !self.bounds.intersects(region) {
            proof {
                self.lemma_entities_in_bounds();
                assert forall|i: int|
                    0 <= i < self.entities().len() implies !pred(#[trigger] self.entities()[i]) by {
                    lemma_disjoint_bounds(self.bounds, *region, self.entities()[i].spec_position());
                }
                assert(self.entities().all(|t: T| !pred(t)));
                self.entities().lemma_all_neg_filter_empty(pred);
                assert(refs_to_vals(res@) =~= self.query_spec(*region));
            }
            return res;
        }
        let n = self.items.len();
        let mut i: usize = 0;
        while i < n
            invariant
                i <= n,
                n == self.items@.len(),
                pred == region_pred::<T>(*region),
                forall|j: int|
                    0 <= j < self.items@.len() ==> self.bounds.spec_contains(
                        (#[trigger] self.items@[j]).spec_position(),
                    ),
                refs_to_vals(res@) == self.items@.take(i as int).filter(pred),
            decreases n - i,
        {
            let ghost taken = self.items@.take(i as int);
            let it = vstd::slice::slice_index_get(self.items.as_slice(), i);
            let pos = it.position();
            proof {
                assert(self.items@.take(i as int + 1) =~= taken.push(self.items@[i as int]));
                taken.lemma_filter_push(self.items@[i as int], pred);
            }
            if region.contains(&pos) {
                let ghost prev = res@;
                res.push(it);
                proof {
                    assert(refs_to_vals(res@) =~= refs_to_vals(prev).push(*it));
                }
            }
            i += 1;
        }
        proof {
            assert(self.items@.take(n as int) =~= self.items@);
        }
        match &self.subtrees {
            None => {
                proof {
                    assert(refs_to_vals(res@) =~= self.query_spec(*region));
                }
                res
            },
            Some(q) => {
                let mut r0 = q.top_left.query(region);
                let mut r1 = q.top_right.query(region);
                let mut r2 = q.bottom_left.query(region);
                let mut r3 = q.bottom_right.query(region);
                proof {
                    let a = self.items@;
                    let e0 = q.top_left.entities();
                    let e1 = q.top_right.entities();
                    let e2 = q.bottom_left.entities();
                    let e3 = q.bottom_right.entities();
                    Seq::filter_distributes_over_add(a, e0, pred);
                    Seq::filter_distributes_over_add(a + e0, e1, pred);
                    Seq::filter_distributes_over_add(a + e0 + e1, e2, pred);
                    Seq::filter_distributes_over_add(a + e0 + e1 + e2, e3, pred);
                }
                let ghost v0 = res@;
                let ghost c0 = r0@;
                res.append(&mut r0);
                proof {
                    assert(refs_to_vals(res@) =~= refs_to_vals(v0) + refs_to_vals(c0));
                }
                let ghost v1 = res@;
                let ghost c1 = r1@;
                res.append(&mut r1);
                proof {
                    assert(refs_to_vals(res@) =~= refs_to_vals(v1) + refs_to_vals(c1));
                }
                let ghost v2 = res@;
                let ghost c2 = r2@;
                res.append(&mut r2);
                proof {
                    assert(refs_to_vals(res@) =~= refs_to_vals(v2) + refs_to_vals(c2));
                }
                let ghost v3 = res@;
                let ghost c3 = r3@;
                res.append(&mut r3);
                proof {
                    assert(refs_to_vals(res@) =~= refs_to_vals(v3) + refs_to_vals(c3));
                    assert(refs_to_vals(res@) =~= self.query_spec(*region));
                }
                res
            },
        }
    }

    /// Returns a reference to every stored entity, visiting every node
    /// unconditionally; the result lists exactly the tree's entities, in
    /// visitation order.
    pub fn query_all(&self) -> (r: Vec<&T>)
        ensures
            refs_to_vals(r@) == self.entities(),
            r@.len() == self.entities().len(),
        decreases *self,
    {
        let mut res: Vec<&T> = Vec::new();
        let n = self.items.len();
        let mut i: usize = 0;
        while i < n
            invariant
                i <= n,
                n == self.items@.len(),
                refs_to_vals(res@) == self.items@.take(i as int),
            decreases n - i,
        {
            let it = vstd::slice::slice_index_get(self.items.as_slice(), i);
            let ghost prev = res@;
            res.push(it);
            proof {
                assert(refs_to_vals(res@) =~= refs_to_vals(prev).push(*it));
                assert(self.items@.take(i as int + 1) =~= self.items@.take(i as int).push(
                    self.items@[i as int],
                ));
            }
            i += 1;
        }
        proof {
            assert(self.items@.take(n as int) =~= self.items@);
        }
        match &self.subtrees {
            None => res,
            Some(q) => {
                let mut r0 = q.top_left.query_all();
                let mut r1 = q.top_right.query_all();
                let mut r2 = q.bottom_left.query_all();
                let mut r3 = q.bottom_right.query_all();
                let ghost v0 = res@;
                let ghost c0 = r0@;
                res.append(&mut r0);
                proof {
                    assert(refs_to_vals(res@) =~= refs_to_vals(v0) + refs_to_vals(c0));
                }
                let ghost v1 = res@;
                let ghost c1 = r1@;
                res.append(&mut r1);
                proof {
                    assert(refs_to_vals(res@) =~= refs_to_vals(v1) + refs_to_vals(c1));
                }
                let ghost v2 = res@;
                let ghost c2 = r2@;
                res.append(&mut r2);
                proof {
                    assert(refs_to_vals(res@) =~= refs_to_vals(v2) + refs_to_vals(c2));
                }
                let ghost v3 = res@;
                let ghost c3 = r3@;
                res.append(&mut r3);
                proof {
                    assert(refs_to_vals(res@) =~= refs_to_vals(v3) + refs_to_vals(c3));
                    assert(refs_to_vals(res@) =~= self.entities());
                }
                res
            },
        }
    }

    /// Empties the node: discards its entities and its whole subtree,
    /// returning it to the empty-leaf state over the same bound.
    pub fn clear(&mut self)
        requires
            old(self).wf(),
        ensures
            final(self).wf(),
            final(self).bounds == old(self).bounds,
            final(self).is_leaf_spec(),
            final(self).entities() == Seq::<T>::empty(),
    {
        self.items = Vec::new();
        self.subtrees = None;
        proof {
            assert(self.entities() =~= Seq::<T>::empty());
        }
    }

    /// The entities of `s` that a tree over `bounds` accepts: those whose
    /// positions lie within `bounds`. The rest are rejected by `insert`.
    pub open spec fn accepted(bounds: Bound, s: Seq<T>) -> Multiset<T>
        decreases s.len(),
    {
        if s.len() == 0 {
            Multiset::<T>::empty()
        } else if bounds.spec_contains(s.last().spec_position()) {
            Self::accepted(bounds, s.drop_last()).insert(s.last())
        } else {
            Self::accepted(bounds, s.drop_last())
        }
    }

    /// Inserts each entity of `items` in turn, independently: entities
    /// within the root bound are stored, the rest are dropped, and one
    /// rejection does not affect the others.
    pub fn insert_all(&mut self, items: Vec<T>)
        requires
            old(self).wf(),
        ensures
            final(self).wf(),
            final(self).bounds == old(self).bounds,
            final(self).entities().to_multiset() == old(self).entities().to_multiset().add(
                Self::accepted(old(self).bounds, items@),
            ),
            final(self).entities().len() == old(self).entities().len() + Self::accepted(
                old(self).bounds,
                items@,
            ).len(),
    {
        let ghost all = items@;
        let ghost b = self.bounds;
        let mut items = items;
        let total = items.len();
        let mut k: usize = 0;
        proof {
            assert(all.take(0) =~= Seq::<T>::empty());
        }
        while items.len() > 0
            invariant
                self.wf(),
                self.bounds == b,
                b == old(self).bounds,
                total == all.len(),
                k + items@.len() == all.len(),
                items@ == all.skip(k as int),
                self.entities().to_multiset() == old(self).entities().to_multiset().add(
                    Self::accepted(b, all.take(k as int)),
                ),
            decreases items@.len(),
        {
            let ghost prefix = all.take(k as int);
            let it = items.remove(0);
            proof {
                assert(it == all[k as int]);
                assert(items@ =~= all.skip(k as int + 1));
                assert(all.take(k as int + 1).drop_last() =~= prefix);
                assert(all.take(k as int + 1).last() == it);
            }
            let ghost before = self.entities().to_multiset();
            let _ = self.insert(it);
            proof {
                if b.spec_contains(it.spec_position()) {
                    assert(Self::accepted(b, all.take(k as int + 1)) == Self::accepted(
                        b,
                        prefix,
                    ).insert(it));
                    assert(before.insert(it) =~= old(self).entities().to_multiset().add(
                        Self::accepted(b, prefix).insert(it),
                    ));
                } else {
                    assert(Self::accepted(b, all.take(k as int + 1)) == Self::accepted(b, prefix));
                }
            }
            k += 1;
        }
        proof {
            assert(all.take(k as int) =~= all);
            assert(self.entities().to_multiset().len() == self.entities().len());
            assert(old(self).entities().to_multiset().len() == old(self).entities().len());
        }
    }

    /// Returns a reference to this node and to every descendant, in
    /// pre-order; a diagnostic traversal for visualisation.
    pub fn get_trees(&self) -> (r: Vec<&QuadTree<T>>)
        ensures
            refs_to_vals(r@) == self.spec_nodes(),
        decreases *self,
    {
        let mut res: Vec<&QuadTree<T>> = Vec::new();
        res.push(self);
        proof {
            assert(refs_to_vals(res@) =~= seq![*self]);
        }
        match &self.subtrees {
            None => res,
            Some(q) => {
                let mut r0 = q.top_left.get_trees();
                let mut r1 = q.top_right.get_trees();
                let mut r2 = q.bottom_left.get_trees();
                let mut r3 = q.bottom_right.get_trees();
                let ghost v0 = res@;
                let ghost c0 = r0@;
                res.append(&mut r0);
                proof {
                    assert(refs_to_vals(res@) =~= refs_to_vals(v0) + refs_to_vals(c0));
                }
                let ghost v1 = res@;
                let ghost c1 = r1@;
                res.append(&mut r1);
                proof {
                    assert(refs_to_vals(res@) =~= refs_to_vals(v1) + refs_to_vals(c1));
                }
                let ghost v2 = res@;
                let ghost c2 = r2@;
                res.append(&mut r2);
                proof {
                    assert(refs_to_vals(res@) =~= refs_to_vals(v2) + refs_to_vals(c2));
                }
                let ghost v3 = res@;
                let ghost c3 = r3@;
                res.append(&mut r3);
                proof {
                    assert(refs_to_vals(res@) =~= refs_to_vals(v3) + refs_to_vals(c3));
                    assert(refs_to_vals(res@) =~= self.spec_nodes());
                }
                res
            },
        }
    }
}

} // verus!
