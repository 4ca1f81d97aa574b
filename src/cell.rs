use crate::range::DependencyData;
use vstd::prelude::*;

verus! {

/// What a cell holds. A real value is kept as the bit pattern of an IEEE-754
/// single-precision number; the library never computes with it.
#[derive(Clone, Copy, Debug, PartialEq, Eq, Structural)]
pub enum CellData {
    IntData(i32),
    FloatData(u32),
}

impl CellData {
    /// The value is zero (an integer zero, or a real of either sign whose
    /// exponent and mantissa bits are all clear).
    pub open spec fn is_zero(self) -> bool {
        match self {
            CellData::IntData(i) => i == 0,
            CellData::FloatData(b) => b & 0x7fff_ffffu32 == 0,
        }
    }

    pub fn is_zero_value(&self) -> (r: bool)
        ensures
            r == self.is_zero(),
    {
        match self {
            CellData::IntData(i) => *i == 0,
            CellData::FloatData(b) => *b & 0x7fff_ffffu32 == 0,
        }
    }
}

/// A cell: its value, its error flag and its formula, if any.
#[derive(Clone, Copy, Debug, PartialEq, Eq, Structural)]
pub struct Cell {
    pub data: CellData,
    pub error: bool,
    pub dependencies: Option<DependencyData>,
}

impl Cell {
    /// A new integer cell, without error or formula.
    pub fn new_i(data: i32) -> (r: Cell)
        ensures
            r == (Cell { data: CellData::IntData(data), error: false, dependencies: None }),
    {
        Cell { data: CellData::IntData(data), error: false, dependencies: None }
    }

    pub fn set_data(&mut self, data: CellData)
        ensures
            *final(self) == (Cell { data, ..*old(self) }),
    {
        self.data = data;
    }

    pub fn set_data_i(&mut self, data: i32)
        ensures
            *final(self) == (Cell { data: CellData::IntData(data), ..*old(self) }),
    {
        self.data = CellData::IntData(data);
    }

    /// The value, or `Err` when the cell carries an error.
    pub fn get_data(&self) -> (r: Result<CellData, ()>)
        ensures
            r == (if self.error { Err(()) } else { Ok(self.data) }),
    {
        if self.error {
            Err(())
        } else {
            Ok(self.data)
        }
    }

    pub fn set_error(&mut self, err: bool)
        ensures
            *final(self) == (Cell { error: err, ..*old(self) }),
    {
        self.error = err;
    }

    pub fn has_error(&self) -> (r: bool)
        ensures
            r == self.error,
    {
        self.error
    }

    pub fn has_dep(&self) -> (r: bool)
        ensures
            r == self.dependencies is Some,
    {
        self.dependencies.is_some()
    }

    pub fn get_dep(&self) -> (r: Option<DependencyData>)
        ensures
            r == self.dependencies,
    {
        self.dependencies
    }

    /// Installs `dep` and hands back the formula it replaces.
    pub fn modify_dep(&mut self, dep: DependencyData) -> (r: Option<DependencyData>)
        ensures
            r == old(self).dependencies,
            *final(self) == (Cell { dependencies: Some(dep), ..*old(self) }),
    {
        let prior = self.dependencies;
        self.dependencies = Some(dep);
        prior
    }

    pub fn rem_dep(&mut self)
        ensures
            *final(self) == (Cell { dependencies: None, ..*old(self) }),
    {
        self.dependencies = None;
    }
}

} // verus!
