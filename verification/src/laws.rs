//! The guarantees the index gives its callers, stated and proved once,
//! over the models that the operations' contracts speak of.

use vstd::prelude::*;
use vstd::multiset::Multiset;
use crate::bound::Bound;
use crate::bound::Point;
use crate::bound::lemma_disjoint_bounds;
use crate::bound::lemma_quadrant_partition;
use crate::entity::Position;
use crate::tree::CAPACITY;
use crate::tree::QuadTree;
use crate::tree::region_pred;

verus! {

broadcast use
    vstd::multiset::group_multiset_axioms,
    vstd::multiset::group_multiset_properties,
    vstd::seq_lib::group_to_multiset_ensures;

/// In a filtered sequence, an element that satisfies the predicate occurs
/// exactly as often as in the sequence itself; one that does not satisfy
/// it does not occur at all.
pub proof fn lemma_filter_count<A>(s: Seq<A>, pred: spec_fn(A) -> bool, x: A)
    ensures
        s.filter(pred).to_multiset().count(x) == (if pred(x) {
            s.to_multiset().count(x)
        } else {
            0nat
        }),
    decreases s.len(),
{
    reveal(Seq::filter);
    if s.len() == 0 {
        assert(s.filter(pred) =~= Seq::<A>::empty());
        assert(!s.contains(x));
        assert(!s.filter(pred).contains(x));
        assert(s.to_multiset().count(x) == 0);
        assert(s.filter(pred).to_multiset().count(x) == 0);
    } else {
        let rest = s.drop_last();
        let last = s.last();
        lemma_filter_count(rest, pred, x);
        assert(s =~= rest.push(last));
        assert(s.to_multiset() == rest.push(last).to_multiset());
        assert(rest.push(last).to_multiset() =~= rest.to_multiset().insert(last));
        if pred(last) {
            assert(s.filter(pred) == rest.filter(pred).push(last));
            assert(rest.filter(pred).push(last).to_multiset() =~= rest.filter(
                pred,
            ).to_multiset().insert(last));
        } else {
            assert(s.filter(pred) == rest.filter(pred));
            if x == last {
                assert(!pred(x));
            }
        }
    }
}

/// Law: a region query returns each stored entity exactly as often as the
/// tree holds it when the region contains the entity's position, and never
/// returns an entity whose position lies outside the region.
pub proof fn lemma_query_counts_entities<T: Position>(t: QuadTree<T>, region: Bound, e: T)
    ensures
        region.spec_contains(e.spec_position()) ==> t.query_spec(region).to_multiset().count(e)
            == t.entities().to_multiset().count(e),
        !region.spec_contains(e.spec_position()) ==> t.query_spec(region).to_multiset().count(e)
            == 0,
{
    lemma_filter_count(t.entities(), region_pred::<T>(region), e);
    assert(region_pred::<T>(region)(e) == region.spec_contains(e.spec_position()));
}

/// Law: for any position the root bound contains, inserting a new entity
/// there and then querying any region that contains the position returns
/// that entity exactly once. The tree-change hypothesis is what `insert`
/// ensures for an accepted entity.
pub proof fn lemma_inserted_entity_found_once<T: Position>(
    pre: QuadTree<T>,
    post: QuadTree<T>,
    e: T,
    region: Bound,
)
    requires
        pre.bounds.spec_contains(e.spec_position()),
        !pre.entities().contains(e),
        post.entities().to_multiset() == pre.entities().to_multiset().insert(e),
        region.spec_contains(e.spec_position()),
    ensures
        post.query_spec(region).to_multiset().count(e) == 1,
{
    assert(pre.entities().to_multiset().count(e) == 0);
    assert(post.entities().to_multiset().count(e) == 1);
    lemma_query_counts_entities(post, region, e);
}

/// Law: a query whose region does not intersect the node's bound returns
/// nothing, for the bound confines every stored entity.
pub proof fn lemma_disjoint_query_empty<T: Position>(t: QuadTree<T>, region: Bound)
    requires
        t.wf(),
        !t.bounds.spec_intersects(region),
    ensures
        t.query_spec(region) == Seq::<T>::empty(),
{
    let pred = region_pred::<T>(region);
    t.lemma_entities_in_bounds();
    assert forall|i: int| 0 <= i < t.entities().len() implies !pred(
        #[trigger] t.entities()[i],
    ) by {
        lemma_disjoint_bounds(t.bounds, region, t.entities()[i].spec_position());
    }
    assert(t.entities().all(|a: T| !pred(a)));
    t.entities().lemma_all_neg_filter_empty(pred);
    assert(t.query_spec(region) =~= Seq::<T>::empty());
}

/// Law: a batch insertion accepts exactly the entities whose positions
/// the root bound contains. When every entity of the batch lies within
/// the bound, all of them are stored: a full traversal after inserting
/// such a batch of N entities into a fresh tree returns exactly N.
pub proof fn lemma_batch_insert_count<T: Position>(b: Bound, s: Seq<T>)
    requires
        forall|i: int|
            0 <= i < s.len() ==> b.spec_contains((#[trigger] s[i]).spec_position()),
    ensures
        QuadTree::<T>::accepted(b, s) == s.to_multiset(),
        QuadTree::<T>::accepted(b, s).len() == s.len(),
    decreases s.len(),
{
    if s.len() == 0 {
        assert(s.to_multiset().len() == 0);
        assert(s.to_multiset() =~= Multiset::<T>::empty());
    } else {
        let rest = s.drop_last();
        let last = s.last();
        assert(b.spec_contains(last.spec_position()));
        lemma_batch_insert_count::<T>(b, rest);
        assert(s =~= rest.push(last));
        assert(rest.push(last).to_multiset() =~= rest.to_multiset().insert(last));
        assert(QuadTree::<T>::accepted(b, s) == QuadTree::<T>::accepted(b, rest).insert(last));
        assert(s.to_multiset().len() == s.len());
    }
}

/// Law: a well-formed internal node holds no entity directly; its four
/// children are well-formed trees over the quadrants of its bound, and a
/// leaf child over a still-splittable quadrant holds at most `CAPACITY`
/// entities directly.
pub proof fn lemma_internal_node_shape<T: Position>(t: QuadTree<T>)
    requires
        t.wf(),
        !t.is_leaf_spec(),
    ensures
        t.direct_count() == 0,
        t.bounds.splittable(),
        forall|i: int| 0 <= i < 4 ==> (#[trigger] t.spec_child(i)).wf(),
        forall|i: int|
            0 <= i < 4 ==> (#[trigger] t.spec_child(i)).bounds == t.bounds.quadrant(i),
        forall|i: int|
            0 <= i < 4 ==> ((#[trigger] t.spec_child(i)).is_leaf_spec() && t.spec_child(
                i,
            ).bounds.splittable() ==> t.spec_child(i).direct_count() <= CAPACITY),
{
    assert(t.spec_child(0).wf());
    assert(t.spec_child(1).wf());
    assert(t.spec_child(2).wf());
    assert(t.spec_child(3).wf());
}

/// Law: the four children of a well-formed internal node partition its
/// bound. A point the node's bound contains lies in exactly one child's
/// bound — one on a shared edge included — and a point outside the node's
/// bound lies in no child's bound.
pub proof fn lemma_children_partition<T: Position>(t: QuadTree<T>, p: Point)
    requires
        t.wf(),
        !t.is_leaf_spec(),
    ensures
        t.bounds.spec_contains(p) <==> exists|i: int|
            0 <= i < 4 && (#[trigger] t.spec_child(i)).bounds.spec_contains(p),
        forall|i: int, j: int|
            0 <= i < 4 && 0 <= j < 4 && i != j ==> !((#[trigger] t.spec_child(
                i,
            )).bounds.spec_contains(p) && (#[trigger] t.spec_child(j)).bounds.spec_contains(p)),
{
    lemma_quadrant_partition(t.bounds, p, 0);
    lemma_quadrant_partition(t.bounds, p, 1);
    lemma_quadrant_partition(t.bounds, p, 2);
    lemma_quadrant_partition(t.bounds, p, 3);
    if t.bounds.spec_contains(p) {
        let k = t.bounds.quadrant_of(p);
        assert(t.spec_child(k).bounds.spec_contains(p));
    }
}

} // verus!
