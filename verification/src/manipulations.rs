//! Turning raw cells into canonical values: typed coercion, forced string
//! coercion, and the cell, header and column readers built on them.
use vstd::prelude::*;
use vstd::string::*;
use crate::conversions::{excel_datetime, spec_excel_datetime};
use crate::sheet::{CellValue, Sheet};
use crate::text::{
    clean_newlines, dec_of_i64, i64_to_dec, join_strings, spec_clean, spec_join, spec_trim,
    trim_str,
};
use crate::values::{ErrorKind, ExtractError, SpecValue, Value};

verus! {

/// The canonical value a raw cell coerces to, or the failure kind:
/// empty cells are null, text is trimmed, serial dates render as
/// date-time strings, error markers and unrepresentable numbers fail.
pub open spec fn spec_coerce(c: CellValue) -> Result<SpecValue, ErrorKind> {
    match c {
        CellValue::Empty => Ok(SpecValue::Null),
        CellValue::Int(i) => Ok(SpecValue::Int(i as int)),
        CellValue::Float { repr, finite } => if finite {
            Ok(SpecValue::Num(repr@))
        } else {
            Err(ErrorKind::InvalidNumber)
        },
        CellValue::Bool(b) => Ok(SpecValue::Bool(b)),
        CellValue::Str(s) => Ok(SpecValue::Str(spec_trim(s@))),
        CellValue::Error => Err(ErrorKind::CellError),
        CellValue::DateTime { days, secs } => match spec_excel_datetime(days as int, secs as int) {
            Ok(s) => Ok(SpecValue::Str(s)),
            Err(k) => Err(k),
        },
        CellValue::DurationIso(s) => Ok(SpecValue::Str(s@)),
        CellValue::Unsupported => Err(ErrorKind::UnsupportedType),
    }
}

/// The text a raw cell coerces to when every variant is forced into a
/// string: numbers and booleans in their decimal and lower-case forms.
pub open spec fn spec_coerce_str(c: CellValue) -> Result<Seq<char>, ErrorKind> {
    match c {
        CellValue::Empty => Ok(seq!['N', 'u', 'l', 'l']),
        CellValue::Int(i) => Ok(dec_of_i64(i as int)),
        CellValue::Float { repr, finite } => Ok(repr@),
        CellValue::Bool(b) => Ok(
            if b {
                seq!['t', 'r', 'u', 'e']
            } else {
                seq!['f', 'a', 'l', 's', 'e']
            },
        ),
        CellValue::Str(s) => Ok(spec_trim(s@)),
        CellValue::Error => Err(ErrorKind::CellError),
        CellValue::DateTime { days, secs } => spec_excel_datetime(days as int, secs as int),
        CellValue::DurationIso(s) => Ok(s@),
        CellValue::Unsupported => Err(ErrorKind::UnsupportedType),
    }
}

/// Coerce one raw cell to its canonical value.
pub fn coerce(cell: &CellValue) -> (r: Result<Value, ExtractError>)
    ensures
        match r {
            Ok(v) => spec_coerce(*cell) == Ok::<SpecValue, ErrorKind>(v.dv()),
            Err(e) => spec_coerce(*cell) == Err::<SpecValue, ErrorKind>(e.kind),
        },
{
    match cell {
        CellValue::Empty => Ok(Value::Null),
        CellValue::Int(i) => Ok(Value::Int(*i)),
        CellValue::Float { repr, finite } => {
            if *finite {
                Ok(Value::Num(repr.clone()))
            } else {
                Err(ExtractError::new(ErrorKind::InvalidNumber, "Invalid float value"))
            }
        },
        CellValue::Bool(b) => Ok(Value::Bool(*b)),
        CellValue::Str(s) => Ok(Value::Str(trim_str(s.as_str()))),
        CellValue::Error => Err(ExtractError::new(ErrorKind::CellError, "Error in cell")),
        CellValue::DateTime { days, secs } => {
            match excel_datetime(*days, *secs) {
                Ok(s) => Ok(Value::Str(s)),
                Err(e) => Err(e),
            }
        },
        CellValue::DurationIso(s) => Ok(Value::Str(s.clone())),
        CellValue::Unsupported => Err(
            ExtractError::new(ErrorKind::UnsupportedType, "Unsupported data type"),
        ),
    }
}

/// Coerce one raw cell to its forced string form.
pub fn coerce_str(cell: &CellValue) -> (r: Result<String, ExtractError>)
    ensures
        match r {
            Ok(s) => spec_coerce_str(*cell) == Ok::<Seq<char>, ErrorKind>(s@),
            Err(e) => spec_coerce_str(*cell) == Err::<Seq<char>, ErrorKind>(e.kind),
        },
{
    match cell {
        CellValue::Empty => {
            let s = "Null".to_owned();
            proof {
                reveal_strlit("Null");
                assert(s@ =~= seq!['N', 'u', 'l', 'l']);
            }
            Ok(s)
        },
        CellValue::Int(i) => Ok(i64_to_dec(*i)),
        CellValue::Float { repr, finite } => Ok(repr.clone()),
        CellValue::Bool(b) => {
            if *b {
                let s = "true".to_owned();
                proof {
                    reveal_strlit("true");
                    assert(s@ =~= seq!['t', 'r', 'u', 'e']);
                }
                Ok(s)
            } else {
                let s = "false".to_owned();
                proof {
                    reveal_strlit("false");
                    assert(s@ =~= seq!['f', 'a', 'l', 's', 'e']);
                }
                Ok(s)
            }
        },
        CellValue::Str(s) => Ok(trim_str(s.as_str())),
        CellValue::Error => Err(ExtractError::new(ErrorKind::CellError, "Error in cell")),
        CellValue::DateTime { days, secs } => excel_datetime(*days, *secs),
        CellValue::DurationIso(s) => Ok(s.clone()),
        CellValue::Unsupported => Err(
            ExtractError::new(ErrorKind::UnsupportedType, "Unsupported data type"),
        ),
    }
}

/// What reading and coercing the cell at one-based row `row` and zero-based
/// column `col` yields: `None` when the grid does not cover the position.
pub open spec fn spec_extract_cell(sheet: Sheet, row: int, col: int, force_str: bool) -> Result<
    Option<SpecValue>,
    ErrorKind,
> {
    if row < 1 {
        Ok(None)
    } else {
        match sheet.spec_cell(row - 1, col) {
            None => Ok(None),
            Some(c) => if force_str {
                match spec_coerce_str(c) {
                    Ok(s) => Ok(Some(SpecValue::Str(s))),
                    Err(k) => Err(k),
                }
            } else {
                match spec_coerce(c) {
                    Ok(v) => Ok(Some(v)),
                    Err(k) => Err(k),
                }
            },
        }
    }
}

/// Read and coerce one cell; `row` is one-based, `col` zero-based, and a
/// position outside the grid reads as `None`.
pub fn extract_cell_value(sheet: &Sheet, row: u32, col: u32, force_str: bool) -> (r: Result<
    Option<Value>,
    ExtractError,
>)
    ensures
        match r {
            Ok(None) => spec_extract_cell(*sheet, row as int, col as int, force_str) == Ok::<
                Option<SpecValue>,
                ErrorKind,
            >(None),
            Ok(Some(v)) => spec_extract_cell(*sheet, row as int, col as int, force_str) == Ok::<
                Option<SpecValue>,
                ErrorKind,
            >(Some(v.dv())),
            Err(e) => spec_extract_cell(*sheet, row as int, col as int, force_str) == Err::<
                Option<SpecValue>,
                ErrorKind,
            >(e.kind),
        },
{
    if row < 1 {
        return Ok(None);
    }
    match sheet.cell(row - 1, col) {
        None => Ok(None),
        Some(c) => {
            if force_str {
                match coerce_str(c) {
                    Ok(s) => Ok(Some(Value::Str(s))),
                    Err(e) => Err(e),
                }
            } else {
                match coerce(c) {
                    Ok(v) => Ok(Some(v)),
                    Err(e) => Err(e),
                }
            }
        },
    }
}

/// The forced string form of one cell, with a missing position reading as
/// the text `Null`.
pub open spec fn spec_cell_text(sheet: Sheet, row: int, col: int) -> Result<Seq<char>, ErrorKind> {
    if row < 1 {
        Ok(seq!['N', 'u', 'l', 'l'])
    } else {
        match sheet.spec_cell(row - 1, col) {
            None => Ok(seq!['N', 'u', 'l', 'l']),
            Some(c) => spec_coerce_str(c),
        }
    }
}

/// The forced string form of one cell; a missing position reads as `Null`.
pub fn cell_text(sheet: &Sheet, row: u32, col: u32) -> (r: Result<String, ExtractError>)
    ensures
        match r {
            Ok(s) => spec_cell_text(*sheet, row as int, col as int) == Ok::<Seq<char>, ErrorKind>(
                s@,
            ),
            Err(e) => spec_cell_text(*sheet, row as int, col as int) == Err::<Seq<char>, ErrorKind>(
                e.kind,
            ),
        },
{
    let missing = || -> (s: String)
        ensures
            s@ == seq!['N', 'u', 'l', 'l'],
        {
            let s = "Null".to_owned();
            proof {
                reveal_strlit("Null");
                assert(s@ =~= seq!['N', 'u', 'l', 'l']);
            }
            s
        };
    if row < 1 {
        return Ok(missing());
    }
    match sheet.cell(row - 1, col) {
        None => Ok(missing()),
        Some(c) => coerce_str(c),
    }
}

/// The header texts of `rows` at `column`, each cleaned of line breaks,
/// in row order; the first failure wins.
pub open spec fn spec_header_texts(sheet: Sheet, rows: Seq<u32>, col: int) -> Result<
    Seq<Seq<char>>,
    ErrorKind,
>
    decreases rows.len(),
{
    if rows.len() == 0 {
        Ok(Seq::empty())
    } else {
        match spec_cell_text(sheet, rows[0] as int, col) {
            Err(k) => Err(k),
            Ok(t) => match spec_header_texts(sheet, rows.drop_first(), col) {
                Err(k) => Err(k),
                Ok(ts) => Ok(seq![spec_clean(t)] + ts),
            },
        }
    }
}

/// The header string of `column`: the cleaned header texts joined by the
/// separator.
pub open spec fn spec_headers(sheet: Sheet, rows: Seq<u32>, col: int, sep: Seq<char>) -> Result<
    Seq<char>,
    ErrorKind,
> {
    match spec_header_texts(sheet, rows, col) {
        Err(k) => Err(k),
        Ok(ts) => Ok(spec_join(ts, sep)),
    }
}

/// Build one column's header string from the header rows.
pub fn extract_headers(sheet: &Sheet, header_rows: &Vec<u32>, column: u32, separator: &str) -> (r:
    Result<String, ExtractError>)
    ensures
        match r {
            Ok(s) => spec_headers(*sheet, header_rows@, column as int, separator@) == Ok::<
                Seq<char>,
                ErrorKind,
            >(s@),
            Err(e) => spec_headers(*sheet, header_rows@, column as int, separator@) == Err::<
                Seq<char>,
                ErrorKind,
            >(e.kind),
        },
{
    let mut texts: Vec<String> = Vec::new();
    let mut i: usize = 0;
    proof {
        assert(header_rows@.skip(0) =~= header_rows@);
    }
    while i < header_rows.len()
        invariant
            i <= header_rows.len(),
            spec_header_texts(*sheet, header_rows@, column as int) == (match spec_header_texts(
                *sheet,
                header_rows@.skip(i as int),
                column as int,
            ) {
                Ok(ts) => Ok::<Seq<Seq<char>>, ErrorKind>(texts.deep_view() + ts),
                Err(k) => Err::<Seq<Seq<char>>, ErrorKind>(k),
            }),
        decreases header_rows.len() - i,
    {
        let ghost rest = header_rows@.skip(i as int);
        let t = match cell_text(sheet, header_rows[i], column) {
            Ok(t) => t,
            Err(e) => {
                proof {
                    assert(rest[0] == header_rows@[i as int]);
                }
                return Err(e);
            },
        };
        let cleaned = clean_newlines(t.as_str());
        let ghost prev = texts.deep_view();
        texts.push(cleaned);
        proof {
            assert(texts.deep_view() =~= prev.push(spec_clean(t@)));
            assert(rest[0] == header_rows@[i as int]);
            assert(rest.drop_first() =~= header_rows@.skip(i as int + 1));
            match spec_header_texts(*sheet, header_rows@.skip(i as int + 1), column as int) {
                Ok(ts) => {
                    assert(prev + (seq![spec_clean(t@)] + ts) =~= prev.push(spec_clean(t@)) + ts);
                },
                Err(k) => {},
            }
        }
        i = i + 1;
    }
    proof {
        assert(header_rows@.skip(header_rows.len() as int) =~= Seq::<u32>::empty());
        assert(texts.deep_view() + Seq::<Seq<char>>::empty() =~= texts.deep_view());
    }
    Ok(join_strings(&texts, separator))
}

/// The coerced values of rows `start` to `end` inclusive at `col`, with
/// missing cells as null; the first failure wins.
pub open spec fn spec_column_data(sheet: Sheet, col: int, start: int, end: int) -> Result<
    Seq<SpecValue>,
    ErrorKind,
>
    decreases end + 1 - start,
{
    if start > end {
        Ok(Seq::empty())
    } else {
        match spec_extract_cell(sheet, start, col, false) {
            Err(k) => Err(k),
            Ok(opt) => match spec_column_data(sheet, col, start + 1, end) {
                Err(k) => Err(k),
                Ok(rest) => Ok(
                    seq![
                        match opt {
                            Some(v) => v,
                            None => SpecValue::Null,
                        },
                    ] + rest,
                ),
            },
        }
    }
}

/// Read one column across a row range, missing cells as null.
pub fn extract_column_data(sheet: &Sheet, column: u32, start_row: u32, end_row: u32) -> (r: Result<
    Value,
    ExtractError,
>)
    ensures
        match r {
            Ok(v) => spec_column_data(*sheet, column as int, start_row as int, end_row as int)
                matches Ok(vs) && v.dv() == SpecValue::Arr(vs),
            Err(e) => spec_column_data(*sheet, column as int, start_row as int, end_row as int)
                == Err::<Seq<SpecValue>, ErrorKind>(e.kind),
        },
{
    let mut out: Vec<Value> = Vec::new();
    let mut row: u64 = start_row as u64;
    proof {
        match spec_column_data(*sheet, column as int, start_row as int, end_row as int) {
            Ok(vs) => {
                assert(out.deep_view() + vs =~= vs);
            },
            Err(k) => {},
        }
    }
    while row <= end_row as u64
        invariant
            start_row as int <= row,
            row == start_row as int || row <= end_row as int + 1,
            spec_column_data(*sheet, column as int, start_row as int, end_row as int) == (
            match spec_column_data(*sheet, column as int, row as int, end_row as int) {
                Ok(vs) => Ok::<Seq<SpecValue>, ErrorKind>(out.deep_view() + vs),
                Err(k) => Err::<Seq<SpecValue>, ErrorKind>(k),
            }),
        decreases end_row as int + 1 - row,
    {
        let v = match extract_cell_value(sheet, row as u32, column, false) {
            Ok(Some(v)) => v,
            Ok(None) => Value::Null,
            Err(e) => {
                return Err(e);
            },
        };
        let ghost x = v.dv();
        let ghost prev = out.deep_view();
        out.push(v);
        proof {
            assert(out.deep_view() =~= prev.push(x));
            match spec_column_data(*sheet, column as int, row as int + 1, end_row as int) {
                Ok(vs) => {
                    assert(prev + (seq![x] + vs) =~= prev.push(x) + vs);
                },
                Err(k) => {},
            }
        }
        row = row + 1;
    }
    proof {
        assert(out.deep_view() + Seq::<SpecValue>::empty() =~= out.deep_view());
    }
    let res = Value::Arr(out);
    proof {
        assert(res.dv()->Arr_0 =~= res->Arr_0.deep_view());
    }
    Ok(res)
}

} // verus!
