use crate::cell::{Cell, CellData};
use crate::database::{cell_read, dep_of, is_child, point_edge_of, range_entry_of, Database};
use crate::dep_store::RangeEntry;
use crate::parser::Response;
use crate::utils::{
    acyclic, cycle_from, lemma_acyclic_no_cycle, lemma_fewer_edges_cycle,
    lemma_install_keeps_acyclic, lemma_same_formulas_acyclic, reachable, topological_sort,
};
use crate::range::{
    col_of, row_of, DependencyData, DependencyNums, OP_ADD, OP_COPY, OP_DIV, OP_MIN, OP_MUL,
    OP_SLEEP, OP_STDEV, OP_SUB,
};
use vstd::prelude::*;

verus! {

/// What is left to do for a cell once the library has done its part of the
/// evaluation. Real-valued arithmetic and pauses happen outside the library,
/// which then stores the result with `Database::complete`.
#[derive(Debug)]
pub enum Work {
    /// Nothing: the cell holds its new value or its error flag.
    Done,
    /// Arithmetic `a op b` with a real operand, in single precision.
    Arith { op: u8, a: CellData, b: CellData },
    /// Aggregate `op` over a rectangle, given column by column; the result is real.
    Aggregate { op: u8, values: Vec<Vec<CellData>> },
    /// The cell already holds this value; the caller pauses that many seconds
    /// (none when it is negative).
    Pause(CellData),
}

/// The value of an operand.
pub open spec fn operand_value(cells: Map<u32, Cell>, o: DependencyNums) -> Result<CellData, bool> {
    match o {
        DependencyNums::U32(p) => cell_read(cells, p),
        DependencyNums::I32(k) => Ok(CellData::IntData(k)),
    }
}

/// Integer arithmetic of the binary operators: `None` on division by zero or
/// when the exact result does not fit in an `i32`; division truncates.
pub open spec fn int_binop(op: u8, a: i32, b: i32) -> Option<i32> {
    if op == OP_ADD {
        a.checked_add(b)
    } else if op == OP_SUB {
        a.checked_sub(b)
    } else if op == OP_MUL {
        a.checked_mul(b)
    } else {
        a.checked_div(b)
    }
}

pub open spec fn min_int(a: int, b: int) -> int {
    if a <= b { a } else { b }
}

pub open spec fn max_int(a: int, b: int) -> int {
    if a <= b { b } else { a }
}

/// The cell id at column offset `i` and row offset `j` of the rectangle
/// spanned by cells `p` and `q`.
pub open spec fn rect_cell(p: u32, q: u32, i: int, j: int) -> u32 {
    (1000 * (min_int(col_of(p), col_of(q)) + i) + min_int(row_of(p), row_of(q)) + j) as u32
}

pub open spec fn rect_width(p: u32, q: u32) -> int {
    max_int(col_of(p), col_of(q)) - min_int(col_of(p), col_of(q)) + 1
}

pub open spec fn rect_height(p: u32, q: u32) -> int {
    max_int(row_of(p), row_of(q)) - min_int(row_of(p), row_of(q)) + 1
}

/// Some cell of the rectangle carries an error.
pub open spec fn rect_has_error(cells: Map<u32, Cell>, p: u32, q: u32) -> bool {
    exists|i: int, j: int|
        0 <= i < rect_width(p, q) && 0 <= j < rect_height(p, q) && #[trigger] cell_read(
            cells,
            rect_cell(p, q, i, j),
        ) is Err
}

/// `cells` with the value of `t` set and its error flag cleared.
pub open spec fn with_value(cells: Map<u32, Cell>, t: u32, v: CellData) -> Map<u32, Cell> {
    cells.insert(t, Cell { data: v, error: false, ..cells[t] })
}

/// `cells` with the error flag of `t` set.
pub open spec fn with_error(cells: Map<u32, Cell>, t: u32) -> Map<u32, Cell> {
    cells.insert(t, Cell { error: true, ..cells[t] })
}

/// The rectangle's values, column by column, as they read in `cells`.
pub open spec fn rect_values_are(
    cells: Map<u32, Cell>,
    p: u32,
    q: u32,
    values: Seq<Vec<CellData>>,
) -> bool {
    &&& values.len() == rect_width(p, q)
    &&& forall|i: int| 0 <= i < values.len() ==> (#[trigger] values[i])@.len() == rect_height(p, q)
    &&& forall|i: int, j: int|
        0 <= i < values.len() && 0 <= j < rect_height(p, q) ==> cell_read(cells, rect_cell(p, q, i, j))
            == Ok::<CellData, bool>(#[trigger] values[i]@[j])
}

/// One evaluation step of cell `t` takes the cells from `c0` to `c1` and
/// leaves `w` to do: the formula applied to the current values of its operands.
pub open spec fn evaluated(c0: Map<u32, Cell>, t: u32, c1: Map<u32, Cell>, w: Work) -> bool {
    match dep_of(c0, t) {
        None => c1 == c0 && w is Done,
        Some(d) => {
            if d.oper == OP_COPY {
                &&& w is Done
                &&& match operand_value(c0, d.pre) {
                    Ok(v) => c1 == with_value(c0, t, v),
                    Err(_) => c1 == with_error(c0, t),
                }
            } else if OP_ADD <= d.oper <= OP_DIV {
                let a = operand_value(c0, d.pre);
                let b = operand_value(c0, d.post);
                if a is Err || b is Err {
                    w is Done && c1 == with_error(c0, t)
                } else if a->Ok_0 is IntData && b->Ok_0 is IntData {
                    &&& w is Done
                    &&& match int_binop(d.oper, a->Ok_0->IntData_0, b->Ok_0->IntData_0) {
                        Some(v) => c1 == with_value(c0, t, CellData::IntData(v)),
                        None => c1 == with_error(c0, t),
                    }
                } else if d.oper == OP_DIV && b->Ok_0.is_zero() {
                    w is Done && c1 == with_error(c0, t)
                } else {
                    &&& c1 == c0
                    &&& w == Work::Arith { op: d.oper, a: a->Ok_0, b: b->Ok_0 }
                }
            } else if OP_MIN <= d.oper <= OP_STDEV {
                let p = d.pre->U32_0;
                let q = d.post->U32_0;
                if rect_has_error(c0, p, q) {
                    w is Done && c1 == with_error(c0, t)
                } else {
                    &&& c1 == c0
                    &&& match w {
                        Work::Aggregate { op, values } => op == d.oper && rect_values_are(
                            c0,
                            p,
                            q,
                            values@,
                        ),
                        _ => false,
                    }
                }
            } else {
                match d.pre {
                    DependencyNums::U32(p) => match cell_read(c0, p) {
                        Ok(v) => c1 == with_value(c0, t, v) && w == Work::Pause(v),
                        Err(_) => c1 == with_error(c0, t) && w is Done,
                    },
                    DependencyNums::I32(k) => c1 == with_value(c0, t, CellData::IntData(k))
                        && w == Work::Pause(CellData::IntData(k)),
                }
            }
        },
    }
}

impl Database {
    /// Stores the value computed outside the library for cell `t`, and clears
    /// its error flag.
    pub fn complete(&mut self, t: u32, v: CellData)
        requires
            old(self).wf(),
            old(self).cells().contains_key(t),
        ensures
            final(self).wf(),
            final(self).rows() == old(self).rows(),
            final(self).cols() == old(self).cols(),
            final(self).cells() == with_value(old(self).cells(), t, v),
            acyclic(old(self).cells()) ==> acyclic(final(self).cells()),
    {
        proof {
            assert(old(self).in_range(t));
        }
        let _ = self.set_data(t, v);
        let _ = self.set_error(t, false);
        proof {
            let c0 = old(self).cells();
            let c1 = self.cells();
            assert forall|u: u32| dep_of(c0, u) == dep_of(c1, u) by {}
            lemma_same_formulas_acyclic(c0, c1);
        }
    }

    /// Sets the error flag of `t`.
    fn put_error(&mut self, t: u32)
        requires
            old(self).wf(),
            old(self).cells().contains_key(t),
        ensures
            final(self).wf(),
            final(self).rows() == old(self).rows(),
            final(self).cols() == old(self).cols(),
            final(self).cells() == with_error(old(self).cells(), t),
    {
        proof {
            assert(old(self).in_range(t));
        }
        let _ = self.set_error(t, true);
    }

    /// The value of an operand of a formula of this sheet.
    fn operand(&self, o: DependencyNums) -> (r: Result<CellData, bool>)
        requires
            self.wf(),
            o is U32 ==> self.in_range(o->U32_0),
        ensures
            r == operand_value(self.cells(), o),
    {
        match o {
            DependencyNums::U32(p) => self.get(p),
            DependencyNums::I32(k) => Ok(CellData::IntData(k)),
        }
    }

    /// The values of the rectangle spanned by cells `p` and `q`, column by
    /// column; `None` when a cell of it carries an error.
    fn gather(&self, p: u32, q: u32) -> (r: Option<Vec<Vec<CellData>>>)
        requires
            self.wf(),
            self.in_range(p),
            self.in_range(q),
        ensures
            r is None <==> rect_has_error(self.cells(), p, q),
            r is Some ==> rect_values_are(self.cells(), p, q, r->Some_0@),
    {
        let pc = p / 1000;
        let pr = p % 1000;
        let qc = q / 1000;
        let qr = q % 1000;
        let c0 = if pc <= qc { pc } else { qc };
        let c1 = if pc <= qc { qc } else { pc };
        let r0 = if pr <= qr { pr } else { qr };
        let r1 = if pr <= qr { qr } else { pr };
        let ghost cells = self.cells();
        let ghost h = rect_height(p, q);
        let mut columns: Vec<Vec<CellData>> = Vec::new();
        let mut c = c0;
        while c <= c1
            invariant
                self.wf(),
                cells == self.cells(),
                c0 == min_int(col_of(p), col_of(q)),
                c1 == max_int(col_of(p), col_of(q)),
                r0 == min_int(row_of(p), row_of(q)),
                r1 == max_int(row_of(p), row_of(q)),
                h == r1 - r0 + 1,
                c1 < self.cols(),
                r1 < self.rows(),
                self.cols() <= 18278,
                c0 <= c <= c1 + 1,
                columns@.len() == c - c0,
                forall|i: int| 0 <= i < columns@.len() ==> (#[trigger] columns@[i])@.len() == h,
                forall|i: int, j: int|
                    0 <= i < columns@.len() && 0 <= j < h ==> cell_read(cells, rect_cell(p, q, i, j))
                        == Ok::<CellData, bool>(#[trigger] columns@[i]@[j]),
            decreases c1 + 1 - c,
        {
            let mut column: Vec<CellData> = Vec::new();
            let mut r = r0;
            while r <= r1
                invariant
                    self.wf(),
                    cells == self.cells(),
                    c0 == min_int(col_of(p), col_of(q)),
                    c1 == max_int(col_of(p), col_of(q)),
                    r0 == min_int(row_of(p), row_of(q)),
                    r1 == max_int(row_of(p), row_of(q)),
                    c0 <= c <= c1,
                    c1 < self.cols(),
                    r1 < self.rows(),
                    self.cols() <= 18278,
                    r0 <= r <= r1 + 1,
                    column@.len() == r - r0,
                    forall|j: int|
                        0 <= j < column@.len() ==> cell_read(cells, rect_cell(p, q, c - c0, j))
                            == Ok::<CellData, bool>(#[trigger] column@[j]),
                decreases r1 + 1 - r,
            {
                let id = 1000 * c + r;
                proof {
                    assert(rect_cell(p, q, c - c0, r - r0) == id);
                    assert(self.in_range(id));
                }
                match self.get(id) {
                    Ok(v) => {
                        column.push(v);
                    },
                    Err(_) => {
                        proof {
                            assert(cell_read(cells, rect_cell(p, q, c - c0, r - r0)) is Err);
                            assert(0 <= c - c0 < rect_width(p, q));
                            assert(0 <= r - r0 < rect_height(p, q));
                        }
                        return None;
                    },
                }
                r = r + 1;
            }
            columns.push(column);
            proof {
                assert forall|i: int, j: int|
                    0 <= i < columns@.len() && 0 <= j < h implies cell_read(cells, rect_cell(p, q, i, j))
                        == Ok::<CellData, bool>(#[trigger] columns@[i]@[j]) by {
                    if i == columns@.len() - 1 {
                        assert(columns@[i] == column);
                    }
                }
            }
            c = c + 1;
        }
        proof {
            assert(!rect_has_error(cells, p, q)) by {
                if rect_has_error(cells, p, q) {
                    let (i, j) = choose|i: int, j: int|
                        0 <= i < rect_width(p, q) && 0 <= j < rect_height(p, q) && #[trigger] cell_read(
                            cells,
                            rect_cell(p, q, i, j),
                        ) is Err;
                    assert(cell_read(cells, rect_cell(p, q, i, j)) == Ok::<CellData, bool>(columns@[i]@[j]));
                }
            }
        }
        Some(columns)
    }
}

/// Evaluates the formula of `cell_idx` from the current values of its
/// operands. An absent operand reads as integer zero; an operand with an
/// error, a division by zero or an integer overflow sets the cell's error
/// flag. What needs real arithmetic or a pause is handed back as `Work`.
pub fn evaluate(db: &mut Database, cell_idx: u32) -> (w: Work)
    requires
        old(db).wf(),
        old(db).in_range(cell_idx),
    ensures
        final(db).wf(),
        final(db).rows() == old(db).rows(),
        final(db).cols() == old(db).cols(),
        evaluated(old(db).cells(), cell_idx, final(db).cells(), w),
        acyclic(old(db).cells()) ==> acyclic(final(db).cells()),
{
    let ghost c0 = db.cells();
    let w = evaluate_step(db, cell_idx);
    proof {
        let c1 = db.cells();
        assert forall|u: u32| dep_of(c0, u) == dep_of(c1, u) by {}
        lemma_same_formulas_acyclic(c0, c1);
    }
    w
}

/// See `evaluate`.
fn evaluate_step(db: &mut Database, cell_idx: u32) -> (w: Work)
    requires
        old(db).wf(),
        old(db).in_range(cell_idx),
    ensures
        final(db).wf(),
        final(db).rows() == old(db).rows(),
        final(db).cols() == old(db).cols(),
        evaluated(old(db).cells(), cell_idx, final(db).cells(), w),
{
    let dep = match db.get_cell_parent_dep(cell_idx) {
        Some(d) => d,
        None => {
            return Work::Done;
        },
    };
    proof {
        assert(db.cells().contains_key(cell_idx));
        assert(db.dep_ok(dep));
    }
    if dep.oper == OP_COPY {
        match db.operand(dep.pre) {
            Ok(v) => db.complete(cell_idx, v),
            Err(_) => db.put_error(cell_idx),
        }
        Work::Done
    } else if dep.oper >= OP_ADD && dep.oper <= OP_DIV {
        let a = db.operand(dep.pre);
        let b = db.operand(dep.post);
        match (a, b) {
            (Ok(CellData::IntData(x)), Ok(CellData::IntData(y))) => {
                let v = if dep.oper == OP_ADD {
                    x.checked_add(y)
                } else if dep.oper == OP_SUB {
                    x.checked_sub(y)
                } else if dep.oper == OP_MUL {
                    x.checked_mul(y)
                } else {
                    x.checked_div(y)
                };
                match v {
                    Some(v) => db.complete(cell_idx, CellData::IntData(v)),
                    None => db.put_error(cell_idx),
                }
                Work::Done
            },
            (Ok(x), Ok(y)) => {
                if dep.oper == OP_DIV && y.is_zero_value() {
                    db.put_error(cell_idx);
                    Work::Done
                } else {
                    Work::Arith { op: dep.oper, a: x, b: y }
                }
            },
            _ => {
                db.put_error(cell_idx);
                Work::Done
            },
        }
    } else if dep.oper >= OP_MIN && dep.oper <= OP_STDEV {
        let (p, q) = match (dep.pre, dep.post) {
            (DependencyNums::U32(p), DependencyNums::U32(q)) => (p, q),
            _ => (cell_idx, cell_idx),
        };
        match db.gather(p, q) {
            Some(values) => Work::Aggregate { op: dep.oper, values },
            None => {
                db.put_error(cell_idx);
                Work::Done
            },
        }
    } else {
        match dep.pre {
            DependencyNums::U32(p) => match db.get(p) {
                Ok(v) => {
                    db.complete(cell_idx, v);
                    Work::Pause(v)
                },
                Err(_) => {
                    db.put_error(cell_idx);
                    Work::Done
                },
            },
            DependencyNums::I32(k) => {
                db.complete(cell_idx, CellData::IntData(k));
                Work::Pause(CellData::IntData(k))
            },
        }
    }
}

/// The cell id named by a command argument (cell ids arrive plus 1001).
pub open spec fn cell_arg(a: i32) -> u32 {
    (a - 1001) as u32
}

/// The argument names a cell on the grid.
pub open spec fn valid_ref(db: Database, a: i32) -> bool {
    a >= 1001 && db.in_range(cell_arg(a))
}

/// The command's cell arguments are on the grid.
pub open spec fn refs_ok(db: Database, r: Response) -> bool {
    &&& r.arg_type & 2 != 0 ==> valid_ref(db, r.arg1)
    &&& r.arg_type & 1 != 0 ==> valid_ref(db, r.arg2)
}

/// A cell command carries the cell operands its operator needs: a source
/// for a copy, two corners for an aggregate.
pub open spec fn shape_ok(r: Response) -> bool {
    &&& 1 <= r.func <= 12
    &&& r.func == 2 ==> r.arg_type & 2 != 0
    &&& 7 <= r.func <= 11 ==> r.arg_type & 2 != 0 && r.arg_type & 1 != 0
}

/// The formula that a cell command installs.
pub open spec fn new_formula(r: Response) -> DependencyData {
    let pre = if r.arg_type & 2 != 0 {
        DependencyNums::U32(cell_arg(r.arg1))
    } else {
        DependencyNums::I32(r.arg1)
    };
    let post = if 3 <= r.func <= 6 {
        if r.arg_type & 1 != 0 {
            DependencyNums::U32(cell_arg(r.arg2))
        } else {
            DependencyNums::I32(r.arg2)
        }
    } else if 7 <= r.func <= 11 {
        DependencyNums::U32(cell_arg(r.arg2))
    } else {
        DependencyNums::I32(0)
    };
    DependencyData { oper: r.func as u8, pre, post }
}

/// The command is arithmetic on two integer literals.
pub open spec fn literal_binop(r: Response) -> bool {
    3 <= r.func <= 6 && r.arg_type & 2 == 0 && r.arg_type & 1 == 0
}

/// The target cell after a cell command, before its cascade runs. A literal,
/// and arithmetic on two literals, store a value and no formula; every other
/// command stores its formula and keeps the value until evaluation.
pub open spec fn applied_cell(c0: Map<u32, Cell>, t: u32, r: Response) -> Cell {
    let base = if c0.contains_key(t) {
        c0[t]
    } else {
        Cell { data: CellData::IntData(0), error: false, dependencies: None }
    };
    if r.func == 1 {
        Cell { data: CellData::IntData(r.arg1), error: false, dependencies: None }
    } else if literal_binop(r) {
        match int_binop(r.func as u8, r.arg1, r.arg2) {
            Some(v) => Cell { data: CellData::IntData(v), error: false, dependencies: None },
            None => Cell { error: true, dependencies: None, ..base },
        }
    } else {
        Cell { dependencies: Some(new_formula(r)), ..base }
    }
}

/// The view's top-left cell after a move command.
pub open spec fn moved(topleft: u32, func: i32, rows: int, cols: int) -> u32 {
    let col = topleft as int / 1000;
    let row = topleft as int % 1000;
    let nc = if func == 14 {
        if col + 20 > cols {
            if cols < 10 { 0 } else { cols - 10 }
        } else {
            col + 10
        }
    } else if func == 15 {
        if col < 10 { 0 } else { col - 10 }
    } else {
        col
    };
    let nr = if func == 13 {
        if row < 10 { 0 } else { row - 10 }
    } else if func == 16 {
        if row + 20 > rows {
            if rows < 10 { 0 } else { rows - 10 }
        } else {
            row + 10
        }
    } else {
        row
    };
    (1000 * nc + nr) as u32
}

/// `order` lists the cells to evaluate, `t` first and every cell before the
/// cells that read it.
pub open spec fn is_cascade(cells: Map<u32, Cell>, db: Database, t: u32, order: Seq<u32>) -> bool {
    &&& order.len() > 0
    &&& order[0] == t
    &&& order.no_duplicates()
    &&& forall|i: int| 0 <= i < order.len() ==> db.in_range(#[trigger] order[i])
    &&& forall|i: int| 0 <= i < order.len() ==> reachable(cells, t, #[trigger] order[i])
    &&& forall|i: int, y: u32|
        0 <= i < order.len() && #[trigger] is_child(cells, order[i], y) ==> exists|j: int|
            i < j < order.len() && order[j] == y
}

/// The outcome of a command: its status code and, on success of a cell
/// command, the cells to evaluate in order.
#[derive(Debug)]
pub struct Dispatch {
    pub status: i32,
    pub cascade: Vec<u32>,
}

impl Database {
    /// Puts back the cell `t` as it was before a command (`None`: absent).
    fn restore_cell(&mut self, t: u32, prior: Option<Cell>)
        requires
            old(self).wf(),
            old(self).cells().contains_key(t),
            prior is Some ==> (prior->Some_0.dependencies is Some ==> old(self).dep_ok(
                prior->Some_0.dependencies->Some_0,
            )),
        ensures
            final(self).wf(),
            final(self).rows() == old(self).rows(),
            final(self).cols() == old(self).cols(),
            prior is Some ==> final(self).cells() == old(self).cells().insert(t, prior->Some_0),
            prior is None ==> final(self).cells() == old(self).cells().remove(t),
    {
        proof {
            assert(old(self).in_range(t));
        }
        match prior {
            Some(c) => {
                let _ = self.replace_dep(t, c.dependencies);
                let _ = self.set_data(t, c.data);
                let _ = self.set_error(t, c.error);
                proof {
                    assert(self.cells() =~= old(self).cells().insert(t, c));
                }
            },
            None => {
                let _ = self.replace_dep(t, None);
                self.forget_cell(t);
                proof {
                    assert(self.cells() =~= old(self).cells().remove(t));
                }
            },
        }
    }
}

/// Carries out one parsed command. View commands change only the view state;
/// a cell command rewires the target's formula, and either hands back the
/// cascade to evaluate (status 0) or, when the new formula closes a cycle,
/// restores the sheet as it was (status 3). Other statuses: the parser's
/// error code, -1 for quit, 2 for a command that is not well formed, 4 for a
/// cell off the grid.
pub fn dispatch(
    r: &Response,
    db: &mut Database,
    topleft: &mut u32,
    running: &mut bool,
    display_state: &mut bool,
) -> (res: Dispatch)
    requires
        old(db).wf(),
        *old(topleft) < 18_279_000,
    ensures
        final(db).wf(),
        final(db).rows() == old(db).rows(),
        final(db).cols() == old(db).cols(),
        res.status != 0 ==> res.cascade@.len() == 0,
        acyclic(old(db).cells()) ==> acyclic(final(db).cells()),
        r.status != 0 ==> res.status == r.status && final(db).cells() == old(db).cells()
            && *final(topleft) == *old(topleft) && *final(running) == *old(running)
            && *final(display_state) == *old(display_state),
        r.status == 0 && r.func == 17 ==> res.status == -1 && !*final(running)
            && !*final(display_state) && final(db).cells() == old(db).cells()
            && *final(topleft) == *old(topleft),
        r.status == 0 && (r.func == 18 || r.func == 19) ==> res.status == 0 && *final(display_state)
            == (r.func == 19) && *final(running) == *old(running) && final(db).cells() == old(db).cells() && *final(topleft) == *old(topleft),
        r.status == 0 && 13 <= r.func <= 16 ==> res.status == 0 && *final(topleft) == moved(
            *old(topleft),
            r.func,
            old(db).rows(),
            old(db).cols(),
        ) && final(db).cells() == old(db).cells() && *final(running) == *old(running)
            && *final(display_state) == *old(display_state),
        r.status == 0 && !(13 <= r.func <= 19) ==> {
            let t = cell_arg(r.target);
            let c0 = old(db).cells();
            &&& *final(running) == *old(running)
            &&& *final(display_state) == *old(display_state)
            &&& !valid_ref(*old(db), r.target) ==> res.status == 4 && final(db).cells() == c0
                && *final(topleft) == *old(topleft)
            &&& valid_ref(*old(db), r.target) && r.func == 20 ==> res.status == 0 && final(db).cells() == c0 && *final(topleft) == t
            &&& valid_ref(*old(db), r.target) && r.func != 20 ==> *final(topleft) == *old(topleft)
            &&& valid_ref(*old(db), r.target) && r.func != 20 && !refs_ok(*old(db), *r)
                ==> res.status == 4 && final(db).cells() == c0
            &&& valid_ref(*old(db), r.target) && r.func != 20 && refs_ok(*old(db), *r) && !shape_ok(
                *r,
            ) ==> res.status == 2 && final(db).cells() == c0
            &&& valid_ref(*old(db), r.target) && shape_ok(*r) && refs_ok(*old(db), *r) ==> {
                &&& res.status == 0 || res.status == 3
                &&& acyclic(c0) && (r.func == 1 || literal_binop(*r)) ==> res.status == 0
                &&& res.status == 3 <==> cycle_from(c0.insert(t, applied_cell(c0, t, *r)), t)
                &&& res.status == 3 ==> final(db).cells() == c0
                &&& res.status == 0 ==> final(db).cells() == c0.insert(t, applied_cell(c0, t, *r))
                    && is_cascade(final(db).cells(), *final(db), t, res.cascade@)
            }
        },
{
    if r.status != 0 {
        return Dispatch { status: r.status, cascade: Vec::new() };
    }
    if r.func == 17 {
        *running = false;
        *display_state = false;
        return Dispatch { status: -1, cascade: Vec::new() };
    }
    if r.func == 18 {
        *display_state = false;
        return Dispatch { status: 0, cascade: Vec::new() };
    }
    if r.func == 19 {
        *display_state = true;
        return Dispatch { status: 0, cascade: Vec::new() };
    }
    if r.func >= 13 && r.func <= 16 {
        let mut col = *topleft / 1000;
        let mut row = *topleft % 1000;
        let rows = db.num_rows() as u32;
        let cols = db.num_cols() as u32;
        if r.func == 13 {
            row = if row < 10 { 0 } else { row - 10 };
        } else if r.func == 14 {
            col = if col + 20 > cols {
                if cols < 10 { 0 } else { cols - 10 }
            } else {
                col + 10
            };
        } else if r.func == 15 {
            col = if col < 10 { 0 } else { col - 10 };
        } else {
            row = if row + 20 > rows {
                if rows < 10 { 0 } else { rows - 10 }
            } else {
                row + 10
            };
        }
        *topleft = 1000 * col + row;
        return Dispatch { status: 0, cascade: Vec::new() };
    }
    if r.target < 1001 || !db.cell_in_range((r.target - 1001) as u32) {
        return Dispatch { status: 4, cascade: Vec::new() };
    }
    let t = (r.target - 1001) as u32;
    if r.func == 20 {
        *topleft = t;
        return Dispatch { status: 0, cascade: Vec::new() };
    }
    if (r.arg_type & 2 != 0 && (r.arg1 < 1001 || !db.cell_in_range((r.arg1 - 1001) as u32))) || (
    r.arg_type & 1 != 0 && (r.arg2 < 1001 || !db.cell_in_range((r.arg2 - 1001) as u32))) {
        return Dispatch { status: 4, cascade: Vec::new() };
    }
    if r.func < 1 || r.func > 12 || (r.func == 2 && r.arg_type & 2 == 0) || (r.func >= 7
        && r.func <= 11 && (r.arg_type & 2 == 0 || r.arg_type & 1 == 0)) {
        return Dispatch { status: 2, cascade: Vec::new() };
    }
    let ghost c0 = db.cells();
    let prior = match db.get_cell(t) {
        Ok(c) => Some(c),
        Err(_) => None,
    };
    db.init_cell(t);
    if r.func == 1 {
        let _ = db.replace_dep(t, None);
        let _ = db.set_int(t, r.arg1);
        let _ = db.set_error(t, false);
    } else if r.func >= 3 && r.func <= 6 && r.arg_type & 2 == 0 && r.arg_type & 1 == 0 {
        let _ = db.replace_dep(t, None);
        let v = if r.func == 3 {
            r.arg1.checked_add(r.arg2)
        } else if r.func == 4 {
            r.arg1.checked_sub(r.arg2)
        } else if r.func == 5 {
            r.arg1.checked_mul(r.arg2)
        } else {
            r.arg1.checked_div(r.arg2)
        };
        match v {
            Some(v) => {
                let _ = db.set_int(t, v);
                let _ = db.set_error(t, false);
            },
            None => {
                let _ = db.set_error(t, true);
            },
        }
    } else {
        let pre = if r.arg_type & 2 != 0 {
            DependencyNums::U32((r.arg1 - 1001) as u32)
        } else {
            DependencyNums::I32(r.arg1)
        };
        let post = if r.func >= 3 && r.func <= 6 {
            if r.arg_type & 1 != 0 {
                DependencyNums::U32((r.arg2 - 1001) as u32)
            } else {
                DependencyNums::I32(r.arg2)
            }
        } else if r.func >= 7 && r.func <= 11 {
            DependencyNums::U32((r.arg2 - 1001) as u32)
        } else {
            DependencyNums::I32(0)
        };
        let d = DependencyData { oper: r.func as u8, pre, post };
        proof {
            assert(d == new_formula(*r));
        }
        let _ = db.replace_dep(t, Some(d));
    }
    proof {
        assert(db.cells() =~= c0.insert(t, applied_cell(c0, t, *r)));
    }
    let ghost c1 = db.cells();
    proof {
        assert forall|y: u32| y != t implies dep_of(c1, y) == dep_of(c0, y) by {}
    }
    match topological_sort(db, t) {
        Ok(order) => {
            proof {
                if acyclic(c0) {
                    lemma_install_keeps_acyclic(c0, c1, t);
                }
            }
            Dispatch { status: 0, cascade: order }
        },
        Err(_) => {
            proof {
                if acyclic(c0) && (r.func == 1 || literal_binop(*r)) {
                    assert(dep_of(c1, t) is None);
                    assert forall|p: u32, y: u32| is_child(c1, p, y) implies is_child(c0, p, y) by {
                        assert(y != t);
                        assert(dep_of(c1, y) == dep_of(c0, y));
                    }
                    lemma_fewer_edges_cycle(c0, c1, t);
                    lemma_acyclic_no_cycle(c0, t);
                }
            }
            db.restore_cell(t, prior);
            proof {
                if prior is Some {
                    assert(db.cells() =~= c0);
                } else {
                    assert(db.cells() =~= c0);
                }
            }
            Dispatch { status: 3, cascade: Vec::new() }
        },
    }
}

/// Setting a cell to a literal twice leaves the same cells as setting it once.
pub proof fn lemma_literal_set_idempotent(c0: Map<u32, Cell>, t: u32, r: Response)
    requires
        r.func == 1,
    ensures
        ({
            let c1 = c0.insert(t, applied_cell(c0, t, r));
            c1.insert(t, applied_cell(c1, t, r)) == c1
        }),
{
    let c1 = c0.insert(t, applied_cell(c0, t, r));
    assert(c1.insert(t, applied_cell(c1, t, r)) =~= c1);
}

/// A literal written over a formula leaves the cell without formula, and a
/// well-formed sheet without formula at a cell has no registry entry for it.
pub proof fn lemma_overwrite_drops_edges(c0: Map<u32, Cell>, r: Response, db: Database)
    requires
        r.func == 1,
        db.wf(),
        db.cells() == c0.insert(cell_arg(r.target), applied_cell(c0, cell_arg(r.target), r)),
    ensures
        dep_of(db.cells(), cell_arg(r.target)) is None,
        forall|p: u32| !db.point_edges().contains((p, cell_arg(r.target))),
        forall|e: RangeEntry| e.0 == cell_arg(r.target) ==> db.range_index().count(e) == 0,
{
    let t = cell_arg(r.target);
    assert(dep_of(db.cells(), t) is None);
    assert forall|p: u32| !db.point_edges().contains((p, t)) by {
        assert(!point_edge_of(db.cells(), p, t));
    }
    assert forall|e: RangeEntry| e.0 == t implies db.range_index().count(e) == 0 by {
        assert(!range_entry_of(db.cells(), e));
    }
}

/// Two well-formed sheets with the same cells have the same registry: the
/// point edges and range entries are exactly those the formulas induce.
pub proof fn lemma_registry_determined(a: Database, b: Database)
    requires
        a.wf(),
        b.wf(),
        a.cells() == b.cells(),
    ensures
        a.point_edges() == b.point_edges(),
        a.range_index() == b.range_index(),
{
    assert(a.point_edges() =~= b.point_edges()) by {
        assert forall|e: (u32, u32)| a.point_edges().contains(e) == b.point_edges().contains(e) by {
            assert(a.point_edges().contains((e.0, e.1)) == point_edge_of(a.cells(), e.0, e.1));
            assert(b.point_edges().contains((e.0, e.1)) == point_edge_of(b.cells(), e.0, e.1));
        }
    }
    assert(a.range_index() =~= b.range_index()) by {
        assert forall|e: RangeEntry| a.range_index().count(e) == b.range_index().count(e) by {}
    }
}

/// An aggregate whose rectangle holds a cell with an error gets its error
/// flag set.
pub proof fn lemma_aggregate_error_propagates(
    c0: Map<u32, Cell>,
    t: u32,
    c1: Map<u32, Cell>,
    w: Work,
)
    requires
        evaluated(c0, t, c1, w),
        dep_of(c0, t) is Some,
        OP_MIN <= dep_of(c0, t)->Some_0.oper <= OP_STDEV,
        rect_has_error(c0, dep_of(c0, t)->Some_0.pre->U32_0, dep_of(c0, t)->Some_0.post->U32_0),
    ensures
        c1.contains_key(t),
        c1[t].error,
        w is Done,
{
}

/// An aggregate over a rectangle whose cells are all absent is handed back
/// with every value integer zero.
pub proof fn lemma_empty_rect_reads_zero(c0: Map<u32, Cell>, t: u32, c1: Map<u32, Cell>, w: Work)
    requires
        evaluated(c0, t, c1, w),
        dep_of(c0, t) is Some,
        OP_MIN <= dep_of(c0, t)->Some_0.oper <= OP_STDEV,
        forall|i: int, j: int|
            0 <= i < rect_width(dep_of(c0, t)->Some_0.pre->U32_0, dep_of(c0, t)->Some_0.post->U32_0)
                && 0 <= j < rect_height(
                dep_of(c0, t)->Some_0.pre->U32_0,
                dep_of(c0, t)->Some_0.post->U32_0,
            ) ==> !c0.contains_key(
                #[trigger] rect_cell(
                    dep_of(c0, t)->Some_0.pre->U32_0,
                    dep_of(c0, t)->Some_0.post->U32_0,
                    i,
                    j,
                ),
            ),
    ensures
        c1 == c0,
        match w {
            Work::Aggregate { op: _, values } => forall|i: int, j: int|
                0 <= i < values@.len() && 0 <= j < values@[i]@.len() ==> values@[i]@[j]
                    == CellData::IntData(0),
            _ => false,
        },
{
    let d = dep_of(c0, t)->Some_0;
    let p = d.pre->U32_0;
    let q = d.post->U32_0;
    assert(!rect_has_error(c0, p, q)) by {
        if rect_has_error(c0, p, q) {
            let (i, j) = choose|i: int, j: int|
                0 <= i < rect_width(p, q) && 0 <= j < rect_height(p, q) && #[trigger] cell_read(
                    c0,
                    rect_cell(p, q, i, j),
                ) is Err;
            assert(!c0.contains_key(rect_cell(p, q, i, j)));
        }
    }
    match w {
        Work::Aggregate { op: _, values } => {
            assert forall|i: int, j: int|
                0 <= i < values@.len() && 0 <= j < values@[i]@.len() implies values@[i]@[j]
                == CellData::IntData(0) by {
                assert(!c0.contains_key(rect_cell(p, q, i, j)));
                assert(cell_read(c0, rect_cell(p, q, i, j)) == Ok::<CellData, bool>(values@[i]@[j]));
            }
        },
        _ => {},
    }
}

} // verus!
