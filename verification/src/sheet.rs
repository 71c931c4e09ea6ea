//! The in-memory model of a workbook: typed cells positioned on a grid,
//! and named sheets.
use vstd::prelude::*;
use crate::text::str_eq;

verus! {

/// A raw cell as the workbook reader hands it over, with every reading
/// already a plain value: a floating-point cell carries its decimal
/// rendering and whether it was finite, and a serial date-time arrives
/// split into whole days and rounded seconds of the day.
#[derive(Debug)]
pub enum CellValue {
    Empty,
    Int(i64),
    Float { repr: String, finite: bool },
    Bool(bool),
    Str(String),
    Error,
    DateTime { days: i64, secs: u32 },
    DurationIso(String),
    Unsupported,
}

/// One sheet: a grid of cells whose top-left corner sits at
/// (`start_row`, `start_col`), both zero-based.
#[derive(Debug)]
pub struct Sheet {
    pub start_row: u32,
    pub start_col: u32,
    pub rows: Vec<Vec<CellValue>>,
}

impl Sheet {
    /// The cell at zero-based position (`r`, `c`), if the grid covers it.
    pub open spec fn spec_cell(self, r: int, c: int) -> Option<CellValue> {
        if r >= self.start_row && r - self.start_row < self.rows.len() && c >= self.start_col && c
            - self.start_col < self.rows[r - self.start_row].len() {
            Some(self.rows[r - self.start_row][c - self.start_col])
        } else {
            None
        }
    }

    /// Read the cell at zero-based position (`r`, `c`).
    pub fn cell(&self, r: u32, c: u32) -> (res: Option<&CellValue>)
        ensures
            match res {
                Some(v) => self.spec_cell(r as int, c as int) == Some(*v),
                None => self.spec_cell(r as int, c as int) is None,
            },
    {
        if r >= self.start_row && c >= self.start_col {
            let ri = (r - self.start_row) as usize;
            let ci = (c - self.start_col) as usize;
            if ri < self.rows.len() {
                let row = &self.rows[ri];
                if ci < row.len() {
                    return Some(&row[ci]);
                }
            }
        }
        None
    }
}

/// A workbook: its sheets, in file order, each under its name.
#[derive(Debug)]
pub struct Workbook {
    pub sheets: Vec<(String, Sheet)>,
}

/// The first sheet in `sheets` named `name`, if any.
pub open spec fn spec_lookup_sheet(sheets: Seq<(String, Sheet)>, name: Seq<char>) -> Option<Sheet>
    decreases sheets.len(),
{
    if sheets.len() == 0 {
        None
    } else if sheets[0].0@ == name {
        Some(sheets[0].1)
    } else {
        spec_lookup_sheet(sheets.drop_first(), name)
    }
}

pub proof fn lemma_lookup_sheet_at(sheets: Seq<(String, Sheet)>, name: Seq<char>, i: int)
    requires
        0 <= i < sheets.len(),
        sheets[i].0@ == name,
        forall|j: int| 0 <= j < i ==> sheets[j].0@ != name,
    ensures
        spec_lookup_sheet(sheets, name) == Some(sheets[i].1),
    decreases sheets.len(),
{
    if i > 0 {
        lemma_lookup_sheet_at(sheets.drop_first(), name, i - 1);
    }
}

pub proof fn lemma_lookup_sheet_none(sheets: Seq<(String, Sheet)>, name: Seq<char>)
    requires
        forall|j: int| 0 <= j < sheets.len() ==> sheets[j].0@ != name,
    ensures
        spec_lookup_sheet(sheets, name) is None,
    decreases sheets.len(),
{
    if sheets.len() > 0 {
        lemma_lookup_sheet_none(sheets.drop_first(), name);
    }
}

impl Workbook {
    /// The sheet names, in order.
    pub open spec fn spec_sheet_names(self) -> Seq<Seq<char>> {
        Seq::new(self.sheets.len() as nat, |i: int| self.sheets[i].0@)
    }

    /// List the sheet names, in order.
    pub fn sheet_names(&self) -> (r: Vec<String>)
        ensures
            r.deep_view() == self.spec_sheet_names(),
    {
        let mut out: Vec<String> = Vec::new();
        let mut i: usize = 0;
        while i < self.sheets.len()
            invariant
                i <= self.sheets.len(),
                out.deep_view() == self.spec_sheet_names().take(i as int),
            decreases self.sheets.len() - i,
        {
            out.push(self.sheets[i].0.clone());
            proof {
                assert(out.deep_view() =~= self.spec_sheet_names().take(i + 1 as int));
            }
            i = i + 1;
        }
        proof {
            assert(self.spec_sheet_names().take(self.sheets.len() as int)
                =~= self.spec_sheet_names());
        }
        out
    }

    /// Open the first sheet named `name`, if the workbook has one.
    pub fn sheet(&self, name: &str) -> (r: Option<&Sheet>)
        ensures
            match r {
                Some(s) => spec_lookup_sheet(self.sheets@, name@) == Some(*s),
                None => spec_lookup_sheet(self.sheets@, name@) is None,
            },
    {
        let mut i: usize = 0;
        while i < self.sheets.len()
            invariant
                i <= self.sheets.len(),
                forall|j: int| 0 <= j < i ==> self.sheets@[j].0@ != name@,
            decreases self.sheets.len() - i,
        {
            if str_eq(self.sheets[i].0.as_str(), name) {
                proof {
                    lemma_lookup_sheet_at(self.sheets@, name@, i as int);
                }
                return Some(&self.sheets[i].1);
            }
            i = i + 1;
        }
        proof {
            lemma_lookup_sheet_none(self.sheets@, name@);
        }
        None
    }
}

} // verus!
