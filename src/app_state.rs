use crate::database::Database;
use vstd::prelude::*;

verus! {

/// What the interactive front end asks of its main loop.
pub enum AppCommand {
    Exit,
}

/// The interactive front end's input mode.
#[derive(Debug, Clone, Copy, PartialEq, Eq)]
pub enum Mode<'a> {
    Normal,
    NormalCommand,
    Insert,
    Select(usize, usize),
    ErrMsg(&'a str),
    Graph((usize, usize), (usize, usize)),
}

/// State of the interactive front end: the sheet, the selected cell and the
/// visible window, as (row, column) pairs.
pub struct App<'a> {
    pub mode: Mode<'a>,
    pub input_buffer: String,
    pub db: Database,
    pub file_name: String,
    pub topleft: (usize, usize),
    pub selected: (usize, usize),
    pub dissz: (usize, usize),
}

impl<'a> App<'a> {
    pub fn new(db: Database) -> (r: Self)
        ensures
            r.db == db,
            r.mode == Mode::<'a>::Normal,
            r.input_buffer@.len() == 0,
            r.file_name@.len() == 0,
            r.topleft == (0usize, 0usize),
            r.selected == (0usize, 0usize),
            r.dissz == (0usize, 0usize),
    {
        App {
            db,
            file_name: String::new(),
            topleft: (0, 0),
            selected: (0, 0),
            mode: Mode::Normal,
            input_buffer: String::new(),
            dissz: (0, 0),
        }
    }

    /// Moves the selection one row up, scrolling when it leaves the window.
    pub fn move_up(&mut self)
        ensures
            old(self).selected.0 > 0 ==> final(self).selected == (
                (old(self).selected.0 - 1) as usize,
                old(self).selected.1,
            ) && final(self).topleft == (if final(self).selected.0 < old(self).topleft.0 {
                ((old(self).topleft.0 - 1) as usize, old(self).topleft.1)
            } else {
                old(self).topleft
            }),
            old(self).selected.0 == 0 ==> final(self).selected == old(self).selected
                && final(self).topleft == old(self).topleft,
            final(self).dissz == old(self).dissz,
            final(self).db == old(self).db,
    {
        if self.selected.0 > 0 {
            self.selected.0 = self.selected.0 - 1;
            if self.selected.0 < self.topleft.0 {
                self.topleft.0 = self.topleft.0 - 1;
            }
        }
    }

    /// Moves the selection one row down while it stays on the sheet,
    /// scrolling when it leaves the window.
    pub fn move_down(&mut self)
        ensures
            old(self).selected.0 + 1 < old(self).db.rows() ==> final(self).selected == (
                (old(self).selected.0 + 1) as usize,
                old(self).selected.1,
            ) && final(self).topleft == (if final(self).selected.0 > old(self).topleft.0
                + old(self).dissz.0 {
                ((old(self).topleft.0 + 1) as usize, old(self).topleft.1)
            } else {
                old(self).topleft
            }),
            !(old(self).selected.0 + 1 < old(self).db.rows()) ==> final(self).selected == old(self).selected && final(self).topleft == old(self).topleft,
            final(self).dissz == old(self).dissz,
            final(self).db == old(self).db,
    {
        let rows = self.db.num_rows() as usize;
        if rows > 0 && self.selected.0 < rows - 1 {
            self.selected.0 = self.selected.0 + 1;
            let past = match self.topleft.0.checked_add(self.dissz.0) {
                Some(limit) => self.selected.0 > limit,
                None => false,
            };
            if past {
                self.topleft.0 = self.topleft.0 + 1;
            }
        }
    }

    /// Moves the selection one column left, scrolling when it leaves the window.
    pub fn move_left(&mut self)
        ensures
            old(self).selected.1 > 0 ==> final(self).selected == (
                old(self).selected.0,
                (old(self).selected.1 - 1) as usize,
            ) && final(self).topleft == (if final(self).selected.1 < old(self).topleft.1 {
                (old(self).topleft.0, (old(self).topleft.1 - 1) as usize)
            } else {
                old(self).topleft
            }),
            old(self).selected.1 == 0 ==> final(self).selected == old(self).selected
                && final(self).topleft == old(self).topleft,
            final(self).dissz == old(self).dissz,
            final(self).db == old(self).db,
    {
        if self.selected.1 > 0 {
            self.selected.1 = self.selected.1 - 1;
            if self.selected.1 < self.topleft.1 {
                self.topleft.1 = self.topleft.1 - 1;
            }
        }
    }

    /// Moves the selection one column right while it stays on the sheet,
    /// scrolling when it leaves the window.
    pub fn move_right(&mut self)
        ensures
            old(self).selected.1 + 1 < old(self).db.cols() ==> final(self).selected == (
                old(self).selected.0,
                (old(self).selected.1 + 1) as usize,
            ) && final(self).topleft == (if final(self).selected.1 > old(self).topleft.1
                + old(self).dissz.1 {
                (old(self).topleft.0, (old(self).topleft.1 + 1) as usize)
            } else {
                old(self).topleft
            }),
            !(old(self).selected.1 + 1 < old(self).db.cols()) ==> final(self).selected == old(self).selected && final(self).topleft == old(self).topleft,
            final(self).dissz == old(self).dissz,
            final(self).db == old(self).db,
    {
        let cols = self.db.num_cols() as usize;
        if cols > 0 && self.selected.1 < cols - 1 {
            self.selected.1 = self.selected.1 + 1;
            let past = match self.topleft.1.checked_add(self.dissz.1) {
                Some(limit) => self.selected.1 > limit,
                None => false,
            };
            if past {
                self.topleft.1 = self.topleft.1 + 1;
            }
        }
    }

    /// Sets the size of the visible window.
    pub fn set_dissz(&mut self, sz: (usize, usize))
        ensures
            final(self).dissz == sz,
            final(self).selected == old(self).selected,
            final(self).topleft == old(self).topleft,
            final(self).db == old(self).db,
    {
        self.dissz = sz;
    }
}

} // verus!
