use crate::cell::{Cell, CellData};
use crate::utils::{acyclic, is_path};
use crate::dep_store::{cells_entry, covers, store_entries, DepStore, RangeEntry};
use crate::range::{
    col_of, is_aggregate, row_of, DependencyData, DependencyNums, DependencyObject, OP_COPY,
    OP_SLEEP,
};
use std::collections::HashMap;
use vstd::multiset::Multiset;
use vstd::prelude::*;

verus! {

broadcast use vstd::std_specs::hash::group_hash_axioms;

/// The formula of cell `t` in `cells`, if `t` is stored and has one.
pub open spec fn dep_of(cells: Map<u32, Cell>, t: u32) -> Option<DependencyData> {
    if cells.contains_key(t) {
        cells[t].dependencies
    } else {
        None
    }
}

/// Cell `t` names `p` as an operand of a formula that is not an aggregate.
pub open spec fn point_edge_of(cells: Map<u32, Cell>, p: u32, t: u32) -> bool {
    match dep_of(cells, t) {
        Some(d) => d.names_point(p),
        None => false,
    }
}

/// `e` is the range entry of the aggregate formula of cell `e.0`.
pub open spec fn range_entry_of(cells: Map<u32, Cell>, e: RangeEntry) -> bool {
    match dep_of(cells, e.0) {
        Some(d) => d.is_range() && cells_entry(e.0, d.pre->U32_0, d.post->U32_0) == e,
        None => false,
    }
}

/// Cell `t` reads cell `p` directly: as an operand, or inside its rectangle.
pub open spec fn is_child(cells: Map<u32, Cell>, p: u32, t: u32) -> bool {
    point_edge_of(cells, p, t) || range_child(cells, p, t)
}

/// Cell `t` holds an aggregate whose rectangle holds cell `p`.
pub open spec fn range_child(cells: Map<u32, Cell>, p: u32, t: u32) -> bool {
    match dep_of(cells, t) {
        Some(d) => d.is_range() && covers(
            cells_entry(t, d.pre->U32_0, d.post->U32_0),
            row_of(p) as i64,
            col_of(p) as i64,
        ),
        None => false,
    }
}

/// What reading a stored cell gives: an absent cell reads as integer zero,
/// a cell with its error flag as `Err(true)`.
pub open spec fn cell_read(cells: Map<u32, Cell>, id: u32) -> Result<CellData, bool> {
    if !cells.contains_key(id) {
        Ok(CellData::IntData(0))
    } else if cells[id].error {
        Err(true)
    } else {
        Ok(cells[id].data)
    }
}

/// The point edges of formula `d` of cell `t`.
pub open spec fn formula_points(t: u32, d: DependencyData) -> Set<(u32, u32)> {
    Set::new(|e: (u32, u32)| e.1 == t && d.names_point(e.0))
}

/// The sheet: a sparse store of cells keyed by `1000 * column + row`, and a
/// registry of which formulas read which cells, kept as point edges for plain
/// formulas and as rectangles in a spatial index for aggregates.
pub struct Database {
    num_rows: u16,
    num_cols: u16,
    store: HashMap<u32, Cell>,
    range_deps: DepStore,
    point_deps: HashMap<u32, Vec<u32>>,
}

/// Rewriting one cell of a well-formed sheet without touching its formula
/// keeps the sheet well formed.
proof fn lemma_same_formulas(db0: Database, db1: Database, k: u32)
    requires
        db0.wf(),
        db0.in_range(k),
        db1.rows() == db0.rows(),
        db1.cols() == db0.cols(),
        db1.point_edges() == db0.point_edges(),
        db1.point_lists_distinct(),
        db1.range_index() == db0.range_index(),
        db1.cells().dom() == db0.cells().dom().insert(k),
        forall|t: u32| t != k ==> #[trigger] db1.cells().contains_key(t) ==> db1.cells()[t] == db0.cells()[t],
        dep_of(db1.cells(), k) == dep_of(db0.cells(), k),
    ensures
        db1.wf(),
{
    let c0 = db0.cells();
    let c1 = db1.cells();
    assert forall|t: u32| dep_of(c1, t) == dep_of(c0, t) by {
        if t != k && c1.contains_key(t) {
            assert(c0.contains_key(t));
        }
    }
    assert forall|p: u32, t: u32| point_edge_of(c1, p, t) == point_edge_of(c0, p, t) by {
        assert(dep_of(c1, t) == dep_of(c0, t));
    }
    assert forall|e: RangeEntry| range_entry_of(c1, e) == range_entry_of(c0, e) by {
        assert(dep_of(c1, e.0) == dep_of(c0, e.0));
    }
    assert forall|id: u32| #[trigger] c1.contains_key(id) implies db1.in_range(id) by {
        if id != k {
            assert(c0.contains_key(id));
        }
    }
    assert forall|id: u32| #[trigger]
        c1.contains_key(id) && c1[id].dependencies is Some implies db1.dep_ok(
        c1[id].dependencies->Some_0,
    ) by {
        assert(dep_of(c1, id) == dep_of(c0, id));
    }
}

impl Database {
    pub closed spec fn rows(self) -> int {
        self.num_rows as int
    }

    pub closed spec fn cols(self) -> int {
        self.num_cols as int
    }

    /// The stored cells.
    pub closed spec fn cells(self) -> Map<u32, Cell> {
        self.store@
    }

    /// The point edges `(producer, consumer)` of the registry.
    pub closed spec fn point_edges(self) -> Set<(u32, u32)> {
        Set::new(
            |e: (u32, u32)|
                self.point_deps@.contains_key(e.0) && self.point_deps@[e.0]@.contains(e.1),
        )
    }

    /// The consumers recorded for producer `p`, in the order they were added.
    pub closed spec fn point_list(self, p: u32) -> Seq<u32> {
        if self.point_deps@.contains_key(p) {
            self.point_deps@[p]@
        } else {
            Seq::empty()
        }
    }

    /// The entries of the range index.
    pub closed spec fn range_index(self) -> Multiset<RangeEntry> {
        store_entries(self.range_deps)
    }

    pub open spec fn in_range(self, id: u32) -> bool {
        col_of(id) < self.cols() && row_of(id) < self.rows()
    }

    /// A formula that the sheet can hold: a known operator, cell operands on
    /// the grid, and two corner cells for an aggregate.
    pub open spec fn dep_ok(self, d: DependencyData) -> bool {
        &&& OP_COPY <= d.oper <= OP_SLEEP
        &&& d.pre is U32 ==> self.in_range(d.pre->U32_0)
        &&& d.post is U32 ==> self.in_range(d.post->U32_0)
        &&& is_aggregate(d.oper) ==> d.is_range()
    }

    /// The registry holds exactly the edges that the formulas in `cells`
    /// induce: a point edge for each cell operand of a plain formula, and
    /// one range entry for each aggregate.
    pub open spec fn registry_for(self, cells: Map<u32, Cell>) -> bool {
        &&& forall|p: u32, t: u32| #[trigger]
            self.point_edges().contains((p, t)) <==> point_edge_of(cells, p, t)
        &&& forall|e: RangeEntry| #[trigger]
            self.range_index().count(e) == (if range_entry_of(cells, e) {
                1nat
            } else {
                0nat
            })
    }

    /// No point list of the registry names a consumer twice.
    pub closed spec fn point_lists_distinct(self) -> bool {
        forall|p: u32| #[trigger]
            self.point_deps@.contains_key(p) ==> self.point_deps@[p]@.no_duplicates()
    }

    /// Formulas and cells are on the grid, and the registry matches the
    /// formulas, each edge once.
    pub open spec fn wf(self) -> bool {
        &&& self.point_lists_distinct()
        &&& self.rows() <= 999
        &&& self.cols() <= 18278
        &&& self.registry_for(self.cells())
        &&& forall|id: u32| #[trigger] self.cells().contains_key(id) ==> self.in_range(id)
        &&& forall|id: u32| #[trigger]
            self.cells().contains_key(id) && self.cells()[id].dependencies is Some
                ==> self.dep_ok(self.cells()[id].dependencies->Some_0)
    }

    /// An empty sheet of `num_rows` rows and `num_cols` columns.
    pub fn new(num_rows: u16, num_cols: u16) -> (r: Self)
        requires
            num_rows <= 999,
            num_cols <= 18278,
        ensures
            r.wf(),
            r.rows() == num_rows,
            r.cols() == num_cols,
            r.cells() == Map::<u32, Cell>::empty(),
            acyclic(r.cells()),
    {
        let r = Database {
            num_rows,
            num_cols,
            store: HashMap::new(),
            range_deps: DepStore::new(),
            point_deps: HashMap::new(),
        };
        assert(r.point_edges() =~= Set::<(u32, u32)>::empty());
        proof {
            let c = r.cells();
            assert forall|w: Seq<u32>| #[trigger] is_path(c, w) implies !(w.len() >= 2 && w[0]
                == w.last()) by {
                if w.len() >= 2 {
                    let i = 0int;
                    assert(is_child(c, w[i], w[i + 1]));
                    assert(dep_of(c, w[i + 1]) is None);
                }
            }
        }
        r
    }

    pub fn num_rows(&self) -> (r: u16)
        ensures
            r == self.rows(),
    {
        self.num_rows
    }

    pub fn num_cols(&self) -> (r: u16)
        ensures
            r == self.cols(),
    {
        self.num_cols
    }

    pub fn cell_in_range(&self, cell_idx: u32) -> (r: bool)
        ensures
            r == self.in_range(cell_idx),
    {
        !((cell_idx / 1000) >= self.num_cols as u32 || (cell_idx % 1000) >= self.num_rows as u32)
    }

    /// The value of a cell: `Err(false)` off the grid, `Err(true)` when the
    /// cell carries an error, integer zero for an absent cell.
    pub fn get(&self, cell_idx: u32) -> (r: Result<CellData, bool>)
        ensures
            !self.in_range(cell_idx) ==> r == Err::<CellData, bool>(false),
            self.in_range(cell_idx) ==> r == cell_read(self.cells(), cell_idx),
    {
        if !self.cell_in_range(cell_idx) {
            return Err(false);
        }
        match self.store.get(&cell_idx) {
            None => Ok(CellData::IntData(0)),
            Some(cell) => {
                if cell.error {
                    Err(true)
                } else {
                    Ok(cell.data)
                }
            },
        }
    }

    /// The stored cell: `Err(false)` off the grid, `Err(true)` when absent.
    pub fn get_cell(&self, cell_idx: u32) -> (r: Result<Cell, bool>)
        ensures
            !self.in_range(cell_idx) ==> r == Err::<Cell, bool>(false),
            self.in_range(cell_idx) && !self.cells().contains_key(cell_idx) ==> r == Err::<
                Cell,
                bool,
            >(true),
            self.in_range(cell_idx) && self.cells().contains_key(cell_idx) ==> r == Ok::<
                Cell,
                bool,
            >(self.cells()[cell_idx]),
    {
        if !self.cell_in_range(cell_idx) {
            return Err(false);
        }
        match self.store.get(&cell_idx) {
            Some(cell) => Ok(*cell),
            None => Err(true),
        }
    }

    /// Same as `get_cell`; the cell is a copy.
    pub fn get_cell_clone(&self, cell_idx: u32) -> (r: Result<Cell, bool>)
        ensures
            r == self.get_cell_spec(cell_idx),
    {
        self.get_cell(cell_idx)
    }

    pub open spec fn get_cell_spec(self, cell_idx: u32) -> Result<Cell, bool> {
        if !self.in_range(cell_idx) {
            Err(false)
        } else if !self.cells().contains_key(cell_idx) {
            Err(true)
        } else {
            Ok(self.cells()[cell_idx])
        }
    }

    /// The cell after its value is set to `data`; an absent cell is created
    /// without error or formula.
    pub open spec fn with_data(self, cell_idx: u32, data: CellData) -> Cell {
        if self.cells().contains_key(cell_idx) {
            Cell { data, ..self.cells()[cell_idx] }
        } else {
            Cell { data, error: false, dependencies: None }
        }
    }

    /// Sets the value of a cell on the grid, keeping its error flag and formula.
    pub fn set_data(&mut self, cell_idx: u32, data: CellData) -> (r: Result<(), ()>)
        requires
            old(self).wf(),
        ensures
            final(self).wf(),
            final(self).rows() == old(self).rows(),
            final(self).cols() == old(self).cols(),
            r is Ok <==> old(self).in_range(cell_idx),
            r is Ok ==> final(self).cells() == old(self).cells().insert(
                cell_idx,
                old(self).with_data(cell_idx, data),
            ),
            r is Err ==> final(self).cells() == old(self).cells(),
    {
        if !self.cell_in_range(cell_idx) {
            return Err(());
        }
        let cell = match self.store.get(&cell_idx) {
            Some(c) => Cell { data, ..*c },
            None => Cell { data, error: false, dependencies: None },
        };
        self.store.insert(cell_idx, cell);
        proof {
            lemma_same_formulas(*old(self), *self, cell_idx);
        }
        Ok(())
    }

    /// Sets an integer value; see `set_data`.
    pub fn set_int(&mut self, cell_idx: u32, data: i32) -> (r: Result<(), ()>)
        requires
            old(self).wf(),
        ensures
            final(self).wf(),
            final(self).rows() == old(self).rows(),
            final(self).cols() == old(self).cols(),
            r is Ok <==> old(self).in_range(cell_idx),
            r is Ok ==> final(self).cells() == old(self).cells().insert(
                cell_idx,
                old(self).with_data(cell_idx, CellData::IntData(data)),
            ),
            r is Err ==> final(self).cells() == old(self).cells(),
    {
        self.set_data(cell_idx, CellData::IntData(data))
    }

    pub fn is_cell_initialized(&self, cell_idx: u32) -> (r: Result<bool, ()>)
        ensures
            !self.in_range(cell_idx) ==> r is Err,
            self.in_range(cell_idx) ==> r == Ok::<bool, ()>(self.cells().contains_key(cell_idx)),
    {
        if !self.cell_in_range(cell_idx) {
            return Err(());
        }
        Ok(self.store.contains_key(&cell_idx))
    }

    /// Sets the error flag of a stored cell.
    pub fn set_error(&mut self, cell_idx: u32, err: bool) -> (r: Result<(), ()>)
        requires
            old(self).wf(),
        ensures
            final(self).wf(),
            final(self).rows() == old(self).rows(),
            final(self).cols() == old(self).cols(),
            r is Ok <==> old(self).in_range(cell_idx) && old(self).cells().contains_key(cell_idx),
            r is Ok ==> final(self).cells() == old(self).cells().insert(
                cell_idx,
                Cell { error: err, ..old(self).cells()[cell_idx] },
            ),
            r is Err ==> final(self).cells() == old(self).cells(),
    {
        if !self.cell_in_range(cell_idx) {
            return Err(());
        }
        let cell = match self.store.get(&cell_idx) {
            Some(c) => Cell { error: err, ..*c },
            None => {
                return Err(());
            },
        };
        self.store.insert(cell_idx, cell);
        proof {
            lemma_same_formulas(*old(self), *self, cell_idx);
        }
        Ok(())
    }

    /// The formula of a cell, if it is stored and has one.
    pub fn get_cell_parent_dep(&self, cell_idx: u32) -> (r: Option<DependencyData>)
        ensures
            r == (if self.in_range(cell_idx) {
                dep_of(self.cells(), cell_idx)
            } else {
                None
            }),
    {
        match self.get_cell(cell_idx) {
            Ok(cell) => cell.dependencies,
            Err(_) => None,
        }
    }

    /// Whether `v` holds `x`.
    fn vec_has(v: &Vec<u32>, x: u32) -> (r: bool)
        ensures
            r == v@.contains(x),
    {
        let mut i: usize = 0;
        while i < v.len()
            invariant
                i <= v@.len(),
                forall|k: int| 0 <= k < i ==> v@[k] != x,
            decreases v@.len() - i,
        {
            if v[i] == x {
                return true;
            }
            i = i + 1;
        }
        false
    }

    /// Records that `target` reads `dep`.
    fn add_dep_point(&mut self, dep: u32, target: u32)
        ensures
            final(self).point_edges() == old(self).point_edges().insert((dep, target)),
            old(self).point_lists_distinct() ==> final(self).point_lists_distinct(),
            final(self).store == old(self).store,
            final(self).range_deps == old(self).range_deps,
            final(self).num_rows == old(self).num_rows,
            final(self).num_cols == old(self).num_cols,
    {
        let mut v = match self.point_deps.remove(&dep) {
            Some(v) => v,
            None => Vec::new(),
        };
        let ghost v0 = v@;
        if !Self::vec_has(&v, target) {
            v.push(target);
            proof {
                assert(v@[v0.len() as int] == target);
                assert forall|x: u32| v0.contains(x) implies v@.contains(x) by {
                    let k = choose|k: int| 0 <= k < v0.len() && v0[k] == x;
                    assert(v@[k] == x);
                }
            }
        }
        proof {
            assert forall|x: u32| v@.contains(x) <==> (v0.contains(x) || x == target) by {
                if v@.contains(x) && x != target {
                    let k = choose|k: int| 0 <= k < v@.len() && v@[k] == x;
                    assert(v0[k] == x);
                }
            }
        }
        self.point_deps.insert(dep, v);
        proof {
            assert(self.point_edges() =~= old(self).point_edges().insert((dep, target)));
        }
    }

    /// Forgets that `target` reads `dep`; nothing changes if it was not recorded.
    fn rem_dep_point(&mut self, dep: u32, target: u32)
        ensures
            final(self).point_edges() == old(self).point_edges().remove((dep, target)),
            old(self).point_lists_distinct() ==> final(self).point_lists_distinct(),
            final(self).store == old(self).store,
            final(self).range_deps == old(self).range_deps,
            final(self).num_rows == old(self).num_rows,
            final(self).num_cols == old(self).num_cols,
    {
        match self.point_deps.remove(&dep) {
            None => {
                proof {
                    assert(self.point_deps@ == old(self).point_deps@);
                    assert(self.point_edges() =~= old(self).point_edges().remove((dep, target)));
                }
            },
            Some(v) => {
                let mut w: Vec<u32> = Vec::new();
                let mut i: usize = 0;
                while i < v.len()
                    invariant
                        i <= v@.len(),
                        forall|x: u32| w@.contains(x) <==> (x != target && exists|k: int|
                            0 <= k < i && v@[k] == x),
                        v@.no_duplicates() ==> w@.no_duplicates(),
                    decreases v@.len() - i,
                {
                    if v[i] != target {
                        proof {
                            if v@.no_duplicates() {
                                assert(!w@.contains(v@[i as int])) by {
                                    if w@.contains(v@[i as int]) {
                                        let k = choose|k: int| 0 <= k < i && v@[k] == v@[i as int];
                                    }
                                }
                                assert forall|a: int, b: int| 0 <= a < b < w@.len() + 1 implies
                                    w@.push(v@[i as int])[a] != w@.push(v@[i as int])[b] by {
                                    if b == w@.len() {
                                        assert(w@.contains(w@[a]));
                                    }
                                }
                            }
                            assert forall|x: u32| w@.push(v@[i as int]).contains(x) <==> (x != target
                                && exists|k: int| 0 <= k < i + 1 && v@[k] == x) by {
                                if w@.push(v@[i as int]).contains(x) && x != v@[i as int] {
                                    let j = choose|j: int| 0 <= j < w@.len() + 1 && w@.push(v@[i as int])[j] == x;
                                    assert(w@.contains(x));
                                }
                                if x != target && exists|k: int| 0 <= k < i + 1 && v@[k] == x {
                                    if x != v@[i as int] {
                                        let k = choose|k: int| 0 <= k < i + 1 && v@[k] == x;
                                        assert(k < i);
                                        assert(w@.contains(x));
                                        let j = choose|j: int| 0 <= j < w@.len() && w@[j] == x;
                                        assert(w@.push(v@[i as int])[j] == x);
                                    } else {
                                        assert(w@.push(v@[i as int])[w@.len() as int] == x);
                                    }
                                }
                            }
                        }
                        w.push(v[i]);
                    } else {
                        proof {
                            assert forall|x: u32| w@.contains(x) <==> (x != target
                                && exists|k: int| 0 <= k < i + 1 && v@[k] == x) by {
                                if x != target && exists|k: int| 0 <= k < i + 1 && v@[k] == x {
                                    let k = choose|k: int| 0 <= k < i + 1 && v@[k] == x;
                                    assert(k < i);
                                }
                            }
                        }
                    }
                    i = i + 1;
                }
                self.point_deps.insert(dep, w);
                proof {
                    if old(self).point_lists_distinct() {
                        assert(old(self).point_deps@[dep] == v);
                        assert forall|p: u32| #[trigger]
                            self.point_deps@.contains_key(p) implies self.point_deps@[p]@.no_duplicates() by {
                            if p != dep {
                                assert(old(self).point_deps@.contains_key(p));
                            }
                        }
                    }
                    assert forall|x: u32| w@.contains(x) <==> (x != target && v@.contains(x)) by {
                    }
                    assert(self.point_edges() =~= old(self).point_edges().remove((dep, target)));
                }
            },
        }
    }

    /// Adds the range entry of the aggregate formula `dep`.
    fn add_dep_range(&mut self, dep: DependencyObject)
        requires
            dep.data.is_range(),
        ensures
            final(self).range_index() == old(self).range_index().insert(
                cells_entry(dep.target, dep.data.pre->U32_0, dep.data.post->U32_0),
            ),
            final(self).store == old(self).store,
            final(self).point_deps == old(self).point_deps,
            final(self).num_rows == old(self).num_rows,
            final(self).num_cols == old(self).num_cols,
    {
        self.range_deps.insert(dep);
    }

    /// Removes the range entry of the aggregate formula `dep` of `cell_idx`.
    fn rem_dep_range(&mut self, cell_idx: u32, dep: DependencyData)
        requires
            dep.is_range(),
        ensures
            final(self).range_index() == old(self).range_index().remove(
                cells_entry(cell_idx, dep.pre->U32_0, dep.post->U32_0),
            ),
            final(self).store == old(self).store,
            final(self).point_deps == old(self).point_deps,
            final(self).num_rows == old(self).num_rows,
            final(self).num_cols == old(self).num_cols,
    {
        self.range_deps.remove(DependencyObject { target: cell_idx, data: dep });
    }

    /// Adds the registry entries of formula `d` of cell `t`.
    fn wire(&mut self, t: u32, d: DependencyData)
        requires
            is_aggregate(d.oper) ==> d.is_range(),
        ensures
            !is_aggregate(d.oper) ==> final(self).point_edges() == old(self).point_edges().union(
                formula_points(t, d),
            ) && final(self).range_index() == old(self).range_index(),
            is_aggregate(d.oper) ==> final(self).range_index() == old(self).range_index().insert(
                cells_entry(t, d.pre->U32_0, d.post->U32_0),
            ) && final(self).point_edges() == old(self).point_edges(),
            old(self).point_lists_distinct() ==> final(self).point_lists_distinct(),
            final(self).store == old(self).store,
            final(self).num_rows == old(self).num_rows,
            final(self).num_cols == old(self).num_cols,
    {
        if d.oper >= 7 && d.oper <= 11 {
            self.add_dep_range(DependencyObject { target: t, data: d });
        } else {
            if let DependencyNums::U32(p) = d.pre {
                self.add_dep_point(p, t);
            }
            if let DependencyNums::U32(q) = d.post {
                self.add_dep_point(q, t);
            }
            proof {
                assert(self.point_edges() =~= old(self).point_edges().union(formula_points(t, d)));
            }
        }
    }

    /// Removes the registry entries of formula `d` of cell `t`.
    fn unwire(&mut self, t: u32, d: DependencyData)
        requires
            is_aggregate(d.oper) ==> d.is_range(),
        ensures
            !is_aggregate(d.oper) ==> final(self).point_edges() == old(self).point_edges().difference(
                formula_points(t, d),
            ) && final(self).range_index() == old(self).range_index(),
            is_aggregate(d.oper) ==> final(self).range_index() == old(self).range_index().remove(
                cells_entry(t, d.pre->U32_0, d.post->U32_0),
            ) && final(self).point_edges() == old(self).point_edges(),
            old(self).point_lists_distinct() ==> final(self).point_lists_distinct(),
            final(self).store == old(self).store,
            final(self).num_rows == old(self).num_rows,
            final(self).num_cols == old(self).num_cols,
    {
        if d.oper >= 7 && d.oper <= 11 {
            self.rem_dep_range(t, d);
        } else {
            if let DependencyNums::U32(p) = d.pre {
                self.rem_dep_point(p, t);
            }
            if let DependencyNums::U32(q) = d.post {
                self.rem_dep_point(q, t);
            }
            proof {
                assert(self.point_edges() =~= old(self).point_edges().difference(
                    formula_points(t, d),
                ));
            }
        }
    }

    /// Installs `new` as the formula of the stored cell `t`, rewires the
    /// registry to match, and hands back the formula it replaces.
    pub fn replace_dep(&mut self, t: u32, new: Option<DependencyData>) -> (r: Option<
        DependencyData,
    >)
        requires
            old(self).wf(),
            old(self).cells().contains_key(t),
            new is Some ==> old(self).dep_ok(new->Some_0),
        ensures
            final(self).wf(),
            final(self).rows() == old(self).rows(),
            final(self).cols() == old(self).cols(),
            r == old(self).cells()[t].dependencies,
            final(self).cells() == old(self).cells().insert(
                t,
                Cell { dependencies: new, ..old(self).cells()[t] },
            ),
    {
        let cell = match self.store.get(&t) {
            Some(c) => *c,
            None => Cell { data: CellData::IntData(0), error: false, dependencies: None },
        };
        let prior = cell.dependencies;
        let ghost c0 = self.cells();
        let ghost pe0 = self.point_edges();
        let ghost ri0 = self.range_index();
        if let Some(d) = prior {
            proof {
                assert(self.dep_ok(d));
            }
            self.unwire(t, d);
        }
        let ghost pe1 = self.point_edges();
        let ghost ri1 = self.range_index();
        self.store.insert(t, Cell { dependencies: new, ..cell });
        if let Some(d) = new {
            self.wire(t, d);
        }
        proof {
            let c1 = self.cells();
            assert(c1 == c0.insert(t, Cell { dependencies: new, ..c0[t] }));
            assert forall|u: u32| u != t implies dep_of(c1, u) == dep_of(c0, u) by {}
            assert(dep_of(c1, t) == new);
            // the edges into t before and after
            assert forall|p: u32, u: u32| #[trigger]
                self.point_edges().contains((p, u)) <==> point_edge_of(c1, p, u) by {
                if u != t {
                    assert(dep_of(c1, u) == dep_of(c0, u));
                    assert(pe0.contains((p, u)) <==> point_edge_of(c0, p, u));
                } else {
                    assert(pe0.contains((p, t)) <==> point_edge_of(c0, p, t));
                    assert(!pe1.contains((p, t)));
                }
            }
            assert forall|e: RangeEntry| #[trigger]
                self.range_index().count(e) == (if range_entry_of(c1, e) {
                    1nat
                } else {
                    0nat
                }) by {
                assert(ri0.count(e) == (if range_entry_of(c0, e) {
                    1nat
                } else {
                    0nat
                }));
                if e.0 != t {
                    assert(dep_of(c1, e.0) == dep_of(c0, e.0));
                    assert(ri1.count(e) == ri0.count(e));
                } else {
                    assert(ri1.count(e) == 0);
                }
            }
            assert forall|id: u32| #[trigger] c1.contains_key(id) implies self.in_range(id) by {
                assert(c0.contains_key(id));
            }
            assert forall|id: u32| #[trigger]
                c1.contains_key(id) && c1[id].dependencies is Some implies self.dep_ok(
                c1[id].dependencies->Some_0,
            ) by {
                if id != t {
                    assert(dep_of(c1, id) == dep_of(c0, id));
                }
            }
        }
        prior
    }

    /// Drops the formula of a stored cell, with its registry entries.
    pub fn rem_cell_parent_dep(&mut self, cell_idx: u32)
        requires
            old(self).wf(),
        ensures
            final(self).wf(),
            final(self).rows() == old(self).rows(),
            final(self).cols() == old(self).cols(),
            old(self).cells().contains_key(cell_idx) ==> final(self).cells() == old(
                self,
            ).cells().insert(cell_idx, Cell { dependencies: None, ..old(self).cells()[cell_idx] }),
            !old(self).cells().contains_key(cell_idx) ==> final(self).cells() == old(self).cells(),
    {
        if self.store.contains_key(&cell_idx) {
            let _ = self.replace_dep(cell_idx, None);
        }
    }

    /// Stores an absent cell on the grid as integer zero; a stored cell is kept.
    pub fn init_cell(&mut self, cell_idx: u32)
        requires
            old(self).wf(),
            old(self).in_range(cell_idx),
        ensures
            final(self).wf(),
            final(self).rows() == old(self).rows(),
            final(self).cols() == old(self).cols(),
            old(self).cells().contains_key(cell_idx) ==> final(self).cells() == old(self).cells(),
            !old(self).cells().contains_key(cell_idx) ==> final(self).cells() == old(
                self,
            ).cells().insert(
                cell_idx,
                Cell { data: CellData::IntData(0), error: false, dependencies: None },
            ),
    {
        if !self.store.contains_key(&cell_idx) {
            let _ = self.set_int(cell_idx, 0);
        }
    }

    /// Takes a cell without formula out of the store again.
    pub fn forget_cell(&mut self, cell_idx: u32)
        requires
            old(self).wf(),
            dep_of(old(self).cells(), cell_idx) is None,
        ensures
            final(self).wf(),
            final(self).rows() == old(self).rows(),
            final(self).cols() == old(self).cols(),
            final(self).cells() == old(self).cells().remove(cell_idx),
    {
        self.store.remove(&cell_idx);
        proof {
            let c0 = old(self).cells();
            let c1 = self.cells();
            assert(c1 == c0.remove(cell_idx));
            assert(self.point_edges() == old(self).point_edges());
            assert(self.range_index() == old(self).range_index());
            assert forall|u: u32| dep_of(c1, u) == dep_of(c0, u) by {}
            assert forall|p: u32, u: u32| point_edge_of(c1, p, u) == point_edge_of(c0, p, u) by {
                assert(dep_of(c1, u) == dep_of(c0, u));
            }
            assert forall|e: RangeEntry| range_entry_of(c1, e) == range_entry_of(c0, e) by {
                assert(dep_of(c1, e.0) == dep_of(c0, e.0));
            }
            assert forall|id: u32| #[trigger]
                c1.contains_key(id) && c1[id].dependencies is Some implies self.dep_ok(
                c1[id].dependencies->Some_0,
            ) by {
                assert(c0.contains_key(id));
            }
            assert forall|id: u32| #[trigger] c1.contains_key(id) implies self.in_range(id) by {
                assert(c0.contains_key(id));
            }
        }
    }

    /// The cells that read `cell_idx` directly, through a point edge or a
    /// rectangle that holds it.
    pub fn get_cell_children(&self, cell_idx: u32) -> (r: Vec<u32>)
        requires
            self.wf(),
        ensures
            forall|x: u32| r@.contains(x) <==> is_child(self.cells(), cell_idx, x),
            r@.no_duplicates(),
    {
        proof {
            let m = store_entries(self.range_deps);
            assert forall|e: RangeEntry| #[trigger] m.count(e) <= 1 by {
                assert(self.range_index().count(e) == (if range_entry_of(self.cells(), e) {
                    1nat
                } else {
                    0nat
                }));
            }
            assert forall|e1: RangeEntry, e2: RangeEntry|
                #![trigger m.count(e1), m.count(e2)]
                m.count(e1) > 0 && m.count(e2) > 0 && e1.0 == e2.0 implies e1 == e2 by {
                assert(self.range_index().count(e1) > 0);
                assert(self.range_index().count(e2) > 0);
                assert(range_entry_of(self.cells(), e1));
                assert(range_entry_of(self.cells(), e2));
            }
        }
        let mut out = self.range_deps.get_from_point(cell_idx);
        let ghost ranged = out@;
        let ghost row = row_of(cell_idx) as i64;
        let ghost col = col_of(cell_idx) as i64;
        proof {
            let c = self.cells();
            assert forall|x: u32| ranged.contains(x) <==> #[trigger] range_child(c, cell_idx, x) by {
                if ranged.contains(x) {
                    let e = choose|e: RangeEntry|
                        #![trigger store_entries(self.range_deps).count(e)]
                        store_entries(self.range_deps).count(e) > 0 && e.0 == x && covers(e, row, col);
                    assert(self.range_index().count(e) > 0);
                    assert(range_entry_of(c, e));
                }
                match dep_of(c, x) {
                    Some(d) => {
                        if d.is_range() && covers(cells_entry(x, d.pre->U32_0, d.post->U32_0), row, col) {
                            let e = cells_entry(x, d.pre->U32_0, d.post->U32_0);
                            assert(range_entry_of(c, e));
                            assert(self.range_index().count(e) == 1);
                            assert(store_entries(self.range_deps).count(e) > 0);
                        }
                    },
                    None => {},
                }
            }
        }
        match self.point_deps.get(&cell_idx) {
            Some(v) => {
                let mut i: usize = 0;
                while i < v.len()
                    invariant
                        i <= v@.len(),
                        out@ == ranged + v@.subrange(0, i as int),
                    decreases v@.len() - i,
                {
                    out.push(v[i]);
                    proof {
                        assert(out@ =~= ranged + v@.subrange(0, i + 1));
                    }
                    i = i + 1;
                }
                proof {
                    assert(out@ =~= ranged + v@);
                    assert(v@.no_duplicates());
                    assert forall|a: int, b2: int| 0 <= a < ranged.len() && 0 <= b2 < v@.len() implies ranged[a] != v@[b2] by {
                        let x = ranged[a];
                        assert(ranged.contains(x));
                        assert(range_child(self.cells(), cell_idx, x));
                        if x == v@[b2] {
                            assert(v@.contains(x));
                            assert(self.point_edges().contains((cell_idx, x)));
                            assert(point_edge_of(self.cells(), cell_idx, x));
                        }
                    }
                    vstd::seq_lib::lemma_no_dup_in_concat(ranged, v@);
                    assert forall|x: u32| out@.contains(x) <==> (ranged.contains(x) || v@.contains(x)) by {
                        if out@.contains(x) {
                            let j = choose|j: int| 0 <= j < out@.len() && out@[j] == x;
                            if j < ranged.len() {
                                assert(ranged[j] == x);
                            } else {
                                assert(v@[j - ranged.len()] == x);
                            }
                        }
                        if ranged.contains(x) {
                            let j = choose|j: int| 0 <= j < ranged.len() && ranged[j] == x;
                            assert(out@[j] == x);
                        }
                        if v@.contains(x) {
                            let j = choose|j: int| 0 <= j < v@.len() && v@[j] == x;
                            assert(out@[ranged.len() + j] == x);
                        }
                    }
                }
                proof {
                    assert(self.point_deps@.contains_key(cell_idx));
                    assert(self.point_deps@[cell_idx] == *v);
                    assert forall|x: u32| out@.contains(x) <==> is_child(self.cells(), cell_idx, x) by {
                        assert(ranged.contains(x) <==> range_child(self.cells(), cell_idx, x));
                        assert(out@.contains(x) <==> (ranged.contains(x) || v@.contains(x)));
                        assert(self.point_edges().contains((cell_idx, x)) <==> v@.contains(x));
                        assert(self.point_edges().contains((cell_idx, x)) <==> point_edge_of(
                            self.cells(),
                            cell_idx,
                            x,
                        ));
                    }
                }
            },
            None => {
                proof {
                    assert forall|x: u32| out@.contains(x) <==> is_child(self.cells(), cell_idx, x) by {
                        assert(!self.point_edges().contains((cell_idx, x)));
                    }
                }
            },
        }
        out
    }

    /// Whether some cell reads `cell_idx` directly.
    pub fn cell_has_child(&self, cell_idx: u32) -> (r: bool)
        requires
            self.wf(),
        ensures
            r == exists|x: u32| is_child(self.cells(), cell_idx, x),
    {
        let children = self.get_cell_children(cell_idx);
        proof {
            if children@.len() > 0 {
                assert(children@.contains(children@[0]));
            }
            if exists|x: u32| is_child(self.cells(), cell_idx, x) {
                let x = choose|x: u32| is_child(self.cells(), cell_idx, x);
                assert(children@.contains(x));
            }
        }
        children.len() > 0
    }
}

/// The registry holds each edge that the formulas induce exactly once and
/// nothing else: the consumers listed for a producer are exactly the plain
/// formulas naming it, none listed twice, and each aggregate has one range
/// entry. So the registry has as many edges as the formulas induce.
pub proof fn lemma_registry_counts(db: Database)
    requires
        db.wf(),
    ensures
        forall|p: u32, t: u32| db.point_list(p).contains(t) <==> point_edge_of(db.cells(), p, t),
        forall|p: u32| #[trigger] db.point_list(p).no_duplicates(),
        forall|e: RangeEntry| #[trigger]
            db.range_index().count(e) == (if range_entry_of(db.cells(), e) {
                1nat
            } else {
                0nat
            }),
{
    assert forall|p: u32, t: u32| db.point_list(p).contains(t) <==> point_edge_of(db.cells(), p, t) by {
        assert(db.point_edges().contains((p, t)) <==> point_edge_of(db.cells(), p, t));
    }
    assert forall|p: u32| #[trigger] db.point_list(p).no_duplicates() by {
        if db.point_deps@.contains_key(p) {
            assert(db.point_deps@[p]@.no_duplicates());
        }
    }
}

} // verus!
