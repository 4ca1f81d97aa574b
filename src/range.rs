use vstd::prelude::*;

verus! {

/// Row of an encoded cell id (`id = 1000 * column + row`).
pub open spec fn row_of(id: u32) -> int {
    (id % 1000) as int
}

/// Column of an encoded cell id.
pub open spec fn col_of(id: u32) -> int {
    (id / 1000) as int
}

/// Operator codes of a formula, as the dispatcher receives them.
pub const OP_COPY: u8 = 2;
pub const OP_ADD: u8 = 3;
pub const OP_SUB: u8 = 4;
pub const OP_MUL: u8 = 5;
pub const OP_DIV: u8 = 6;
pub const OP_MIN: u8 = 7;
pub const OP_MAX: u8 = 8;
pub const OP_AVG: u8 = 9;
pub const OP_SUM: u8 = 10;
pub const OP_STDEV: u8 = 11;
pub const OP_SLEEP: u8 = 12;

/// An operand of a formula: a cell reference or an integer literal.
#[derive(Clone, Copy, Debug, PartialEq, Eq, Structural)]
pub enum DependencyNums {
    U32(u32),
    I32(i32),
}

/// A formula, written `oper(pre, post)`: `ADD(A1, 3)` for `=A1+3`,
/// `SUM(A1, B4)` for `=SUM(A1:B4)`. An operand that a formula does not use
/// is `I32(0)`.
#[derive(Clone, Copy, Debug, PartialEq, Eq, Structural)]
pub struct DependencyData {
    pub oper: u8,
    pub pre: DependencyNums,
    pub post: DependencyNums,
}

/// A formula together with the cell that holds it.
#[derive(Clone, Copy, Debug, PartialEq, Eq, Structural)]
pub struct DependencyObject {
    pub target: u32,
    pub data: DependencyData,
}

/// Whether the operator is one of the range aggregates.
pub open spec fn is_aggregate(oper: u8) -> bool {
    OP_MIN <= oper <= OP_STDEV
}

impl DependencyData {
    pub fn new(oper: u8, pre: DependencyNums, post: DependencyNums) -> (r: Self)
        ensures
            r == (DependencyData { oper, pre, post }),
    {
        DependencyData { oper, pre, post }
    }

    pub fn get_oper(&self) -> (r: u8)
        ensures
            r == self.oper,
    {
        self.oper
    }

    pub fn get_pre(&self) -> (r: DependencyNums)
        ensures
            r == self.pre,
    {
        self.pre
    }

    pub fn get_post(&self) -> (r: DependencyNums)
        ensures
            r == self.post,
    {
        self.post
    }

    /// The formula reads a rectangle whose corners are its two operands.
    pub open spec fn is_range(self) -> bool {
        is_aggregate(self.oper) && self.pre is U32 && self.post is U32
    }

    /// The formula names `p` as a cell operand and is not an aggregate.
    pub open spec fn names_point(self, p: u32) -> bool {
        !is_aggregate(self.oper) && (self.pre == DependencyNums::U32(p)
            || self.post == DependencyNums::U32(p))
    }
}

impl DependencyObject {
    pub fn new(target: u32, oper: u8, pre: DependencyNums, post: DependencyNums) -> (r: Self)
        ensures
            r == (DependencyObject { target, data: DependencyData { oper, pre, post } }),
    {
        DependencyObject { target, data: DependencyData { oper, pre, post } }
    }

    pub fn from_dep_data(target: u32, dep_data: DependencyData) -> (r: DependencyObject)
        ensures
            r == (DependencyObject { target, data: dep_data }),
    {
        DependencyObject { target, data: dep_data }
    }

    pub fn get_target(&self) -> (r: u32)
        ensures
            r == self.target,
    {
        self.target
    }
}

} // verus!
