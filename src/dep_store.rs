use crate::range::{col_of, row_of, DependencyNums, DependencyObject};
use rstar::primitives::{GeomWithData, Rectangle};
use rstar::RTree;
use vstd::multiset::Multiset;
use vstd::prelude::*;

verus! {

/// One entry of the range index: the formula's target cell, then the lower
/// and upper corners of its rectangle as (row, column) points.
pub type RangeEntry = (u32, i64, i64, i64, i64);

/// Spatial index of the range formulas, held in an r-tree whose elements are
/// rectangles tagged with their target cell.
#[verifier::external_body]
pub struct DepStore {
    store: RTree<GeomWithData<Rectangle<[i64; 2]>, u32>>,
}

/// The entries held by a range index.
pub uninterp spec fn store_entries(d: DepStore) -> Multiset<RangeEntry>;

pub open spec fn min_i64(a: i64, b: i64) -> i64 {
    if a <= b { a } else { b }
}

pub open spec fn max_i64(a: i64, b: i64) -> i64 {
    if a <= b { b } else { a }
}

/// The entry for `target` over the rectangle spanned by two (row, column) corners.
pub open spec fn rect_entry(target: u32, r1: i64, c1: i64, r2: i64, c2: i64) -> RangeEntry {
    (target, min_i64(r1, r2), min_i64(c1, c2), max_i64(r1, r2), max_i64(c1, c2))
}

/// The entry of a range formula whose corners are the cells `p` and `q`.
pub open spec fn cells_entry(target: u32, p: u32, q: u32) -> RangeEntry {
    rect_entry(target, row_of(p) as i64, col_of(p) as i64, row_of(q) as i64, col_of(q) as i64)
}

/// The entry's rectangle holds the point, bounds included.
pub open spec fn covers(e: RangeEntry, row: i64, col: i64) -> bool {
    e.1 <= row <= e.3 && e.2 <= col <= e.4
}

/// Relies on rstar::RTree::new: a new tree holds no element.
#[verifier::external_body]
fn rtree_new() -> (r: DepStore)
    ensures
        store_entries(r) == Multiset::<RangeEntry>::empty(),
{
    DepStore { store: RTree::new() }
}

/// Relies on rstar::RTree::insert, which adds the element once more (also when
/// an equal one is present), and on rstar::primitives::Rectangle::from_corners,
/// whose box (rstar::AABB::from_corners) is bounded by the component-wise
/// minimum and maximum of the two corners. Corners are kept small: the
/// insertion computes centres, areas and perimeters in `i64`.
#[verifier::external_body]
fn rtree_insert(d: &mut DepStore, target: u32, r1: i64, c1: i64, r2: i64, c2: i64)
    requires
        0 <= r1 < 1000,
        0 <= r2 < 1000,
        0 <= c1 <= 4_294_967,
        0 <= c2 <= 4_294_967,
    ensures
        store_entries(*final(d)) == store_entries(*old(d)).insert(
            rect_entry(target, r1, c1, r2, c2),
        ),
{
    d.store.insert(GeomWithData::new(Rectangle::from_corners([r1, c1], [r2, c2]), target))
}

/// Relies on rstar::RTree::remove, which takes out one element equal to the
/// given one (same rectangle, same target) when there is one and reports
/// whether it did; equal elements have equal boxes, as it requires.
#[verifier::external_body]
fn rtree_remove(d: &mut DepStore, target: u32, r1: i64, c1: i64, r2: i64, c2: i64) -> (r: bool)
    ensures
        r == (store_entries(*old(d)).count(rect_entry(target, r1, c1, r2, c2)) > 0),
        store_entries(*final(d)) == store_entries(*old(d)).remove(
            rect_entry(target, r1, c1, r2, c2),
        ),
{
    let item = GeomWithData::new(Rectangle::from_corners([r1, c1], [r2, c2]), target);
    d.store.remove(&item).is_some()
}

/// Relies on rstar::RTree::locate_all_at_point, which yields once each element
/// whose rectangle contains the point, bounds included
/// (rstar::primitives::Rectangle::contains_point). Each element is handed out
/// as its target and the corners that Rectangle::lower and Rectangle::upper give.
#[verifier::external_body]
fn rtree_at_point(d: &DepStore, row: i64, col: i64) -> (r: Vec<RangeEntry>)
    ensures
        r@.to_multiset() == store_entries(*d).filter(|e: RangeEntry| covers(e, row, col)),
{
    d.store.locate_all_at_point([row, col]).map(|g| {
        let lo = g.geom().lower();
        let hi = g.geom().upper();
        (g.data, lo[0], lo[1], hi[0], hi[1])
    }).collect()
}

impl DepStore {
    pub fn new() -> (r: Self)
        ensures
            store_entries(r) == Multiset::<RangeEntry>::empty(),
    {
        rtree_new()
    }

    /// Adds the range formula `dep`, whose operands are its two corner cells.
    pub fn insert(&mut self, dep: DependencyObject)
        requires
            dep.data.pre is U32,
            dep.data.post is U32,
        ensures
            store_entries(*final(self)) == store_entries(*old(self)).insert(
                cells_entry(dep.target, dep.data.pre->U32_0, dep.data.post->U32_0),
            ),
    {
        let p = match dep.data.pre {
            DependencyNums::U32(p) => p,
            DependencyNums::I32(_) => 0,
        };
        let q = match dep.data.post {
            DependencyNums::U32(q) => q,
            DependencyNums::I32(_) => 0,
        };
        rtree_insert(
            self,
            dep.target,
            (p % 1000) as i64,
            (p / 1000) as i64,
            (q % 1000) as i64,
            (q / 1000) as i64,
        );
    }

    /// Removes one entry of the range formula `dep`, if the index holds one.
    pub fn remove(&mut self, dep: DependencyObject)
        requires
            dep.data.pre is U32,
            dep.data.post is U32,
        ensures
            store_entries(*final(self)) == store_entries(*old(self)).remove(
                cells_entry(dep.target, dep.data.pre->U32_0, dep.data.post->U32_0),
            ),
    {
        let p = match dep.data.pre {
            DependencyNums::U32(p) => p,
            DependencyNums::I32(_) => 0,
        };
        let q = match dep.data.post {
            DependencyNums::U32(q) => q,
            DependencyNums::I32(_) => 0,
        };
        let _ = rtree_remove(
            self,
            dep.target,
            (p % 1000) as i64,
            (p / 1000) as i64,
            (q % 1000) as i64,
            (q / 1000) as i64,
        );
    }

    /// The targets of the range formulas whose rectangle holds the cell `pt`,
    /// one for each entry.
    pub fn get_from_point(&self, pt: u32) -> (r: Vec<u32>)
        ensures
            (forall|e: RangeEntry| #[trigger] store_entries(*self).count(e) <= 1) && (forall|
                e1: RangeEntry,
                e2: RangeEntry,
            |
                #![trigger store_entries(*self).count(e1), store_entries(*self).count(e2)]
                store_entries(*self).count(e1) > 0 && store_entries(*self).count(e2) > 0 && e1.0
                    == e2.0 ==> e1 == e2) ==> r@.no_duplicates(),
            r@.len() == store_entries(*self).filter(
                |e: RangeEntry| covers(e, row_of(pt) as i64, col_of(pt) as i64),
            ).len(),
            forall|x: u32|
                r@.contains(x) <==> exists|e: RangeEntry|
                    #![trigger store_entries(*self).count(e)]
                    store_entries(*self).count(e) > 0 && e.0 == x && covers(
                        e,
                        row_of(pt) as i64,
                        col_of(pt) as i64,
                    ),
    {
        let found = rtree_at_point(self, (pt % 1000) as i64, (pt / 1000) as i64);
        let ghost row = row_of(pt) as i64;
        let ghost col = col_of(pt) as i64;
        let ghost m = store_entries(*self);
        let ghost f = |e: RangeEntry| covers(e, row, col);
        proof {
            broadcast use vstd::seq_lib::group_to_multiset_ensures;
            broadcast use vstd::multiset::group_multiset_axioms;

            assert(found@.to_multiset().len() == found@.len());
        }
        let mut out: Vec<u32> = Vec::new();
        let mut i: usize = 0;
        while i < found.len()
            invariant
                i <= found@.len(),
                out@.len() == i,
                forall|k: int| 0 <= k < i ==> out@[k] == found@[k].0,
            decreases found@.len() - i,
        {
            out.push(found[i].0);
            i = i + 1;
        }
        proof {
            broadcast use vstd::seq_lib::group_to_multiset_ensures;
            broadcast use vstd::multiset::group_multiset_axioms;

            assert forall|x: u32| out@.contains(x) implies exists|e: RangeEntry|
                #![trigger m.count(e)]
                m.count(e) > 0 && e.0 == x && covers(e, row, col) by {
                let k = choose|k: int| 0 <= k < out@.len() && out@[k] == x;
                let e = found@[k];
                assert(found@.contains(e));
                assert(found@.to_multiset().count(e) > 0);
                assert(m.filter(f).count(e) > 0);
                assert(m.count(e) > 0 && f(e));
            }
            assert forall|x: u32| (exists|e: RangeEntry|
                #![trigger m.count(e)]
                m.count(e) > 0 && e.0 == x && covers(e, row, col)) implies out@.contains(x) by {
                let e = choose|e: RangeEntry|
                    #![trigger m.count(e)]
                    m.count(e) > 0 && e.0 == x && covers(e, row, col);
                assert(f(e));
                assert(m.filter(f).count(e) > 0);
                assert(found@.to_multiset().count(e) > 0);
                assert(found@.contains(e));
                let k = choose|k: int| 0 <= k < found@.len() && found@[k] == e;
                assert(out@[k] == x);
            }
            if (forall|e: RangeEntry| #[trigger] m.count(e) <= 1) && (forall|
                e1: RangeEntry,
                e2: RangeEntry,
            |
                #![trigger m.count(e1), m.count(e2)]
                m.count(e1) > 0 && m.count(e2) > 0 && e1.0 == e2.0 ==> e1 == e2) {
                assert forall|e: RangeEntry| found@.to_multiset().contains(e) implies found@.to_multiset().count(e) == 1 by {
                    assert(m.filter(f).count(e) <= m.count(e));
                }
                found@.lemma_multiset_has_no_duplicates_conv();
                assert forall|a: int, b: int| 0 <= a < b < out@.len() implies out@[a] != out@[b] by {
                    let ea = found@[a];
                    let eb = found@[b];
                    assert(found@.contains(ea));
                    assert(found@.contains(eb));
                    assert(found@.to_multiset().count(ea) > 0);
                    assert(found@.to_multiset().count(eb) > 0);
                    assert(m.filter(f).count(ea) > 0);
                    assert(m.filter(f).count(eb) > 0);
                    assert(m.count(ea) > 0 && m.count(eb) > 0);
                    if out@[a] == out@[b] {
                        assert(ea.0 == eb.0);
                        assert(ea == eb);
                    }
                }
            }
        }
        out
    }
}

} // verus!
