//! The columnar extraction rule: every column of a rectangular range
//! becomes an array of coerced values under a header string built from
//! the header rows.
use vstd::prelude::*;
use vstd::string::*;
use crate::conversions::{col_numeral, column_name_to_index, valid_col_name};
use crate::manipulations::{
    extract_column_data, extract_headers, spec_column_data, spec_headers,
};
use crate::sheet::Sheet;
use crate::values::{
    obj_find, obj_set, oget, oset, spec_as_u64, ErrorKind, ExtractError, SpecObj, SpecValue, Value,
};

verus! {

/// The header row indices an instruction value names: one number, or an
/// array of numbers, each truncated to 32 bits.
pub open spec fn spec_header_rows(hv: SpecValue) -> Result<Seq<u32>, ErrorKind> {
    match hv {
        SpecValue::Arr(a) => spec_header_row_list(a),
        _ => match spec_as_u64(hv) {
            Some(u) => Ok(seq![(u % 0x1_0000_0000) as u32]),
            None => Err(ErrorKind::SpecValidation),
        },
    }
}

/// The numbers of a header-row array, truncated to 32 bits.
pub open spec fn spec_header_row_list(a: Seq<SpecValue>) -> Result<Seq<u32>, ErrorKind>
    decreases a.len(),
{
    if a.len() == 0 {
        Ok(Seq::empty())
    } else {
        match spec_as_u64(a[0]) {
            None => Err(ErrorKind::SpecValidation),
            Some(u) => match spec_header_row_list(a.drop_first()) {
                Err(k) => Err(k),
                Ok(rest) => Ok(seq![(u % 0x1_0000_0000) as u32] + rest),
            },
        }
    }
}

/// The zero-based column index a column-range entry names: a number is
/// taken as it stands, a string decodes as column letters.
pub open spec fn spec_col_bound(v: SpecValue) -> Result<int, ErrorKind> {
    match v {
        SpecValue::Str(s) => if valid_col_name(s) && col_numeral(s) <= 0x1_0000_0000 {
            Ok(col_numeral(s) - 1)
        } else {
            Err(ErrorKind::InvalidAddress)
        },
        SpecValue::Int(i) => if 0 <= i <= u64::MAX {
            Ok(i % 0x1_0000_0000)
        } else {
            Err(ErrorKind::SpecValidation)
        },
        SpecValue::Num(_) => Err(ErrorKind::SpecValidation),
        _ => Err(ErrorKind::SpecValidation),
    }
}

/// The columns `col` to `end` folded into the frame: each one's header
/// string binds to its data array, a repeated header keeping its place.
pub open spec fn spec_dataframe_cols(
    sheet: Sheet,
    col: int,
    end: int,
    hrows: Seq<u32>,
    sep: Seq<char>,
    start_row: int,
    end_row: int,
    acc: SpecObj,
) -> Result<SpecObj, ErrorKind>
    decreases end + 1 - col,
{
    if col > end {
        Ok(acc)
    } else {
        match spec_headers(sheet, hrows, col, sep) {
            Err(k) => Err(k),
            Ok(h) => match spec_column_data(sheet, col, start_row, end_row) {
                Err(k) => Err(k),
                Ok(data) => spec_dataframe_cols(
                    sheet,
                    col + 1,
                    end,
                    hrows,
                    sep,
                    start_row,
                    end_row,
                    oset(acc, h, SpecValue::Arr(data)),
                ),
            },
        }
    }
}

/// What the columnar rule yields for the given instructions. A missing
/// or non-numeric row bound reads as zero; the column range and header
/// rows are demanded.
pub open spec fn spec_dataframe(sheet: Sheet, instr: SpecObj) -> Result<SpecObj, ErrorKind> {
    match oget(instr, seq!['r', 'o', 'w', '_', 'r', 'a', 'n', 'g', 'e']) {
        Some(SpecValue::Arr(rr)) => {
            let start_row = if rr.len() >= 1 && spec_as_u64(rr[0]) is Some {
                ((spec_as_u64(rr[0])->0 as int) % 0x1_0000_0000)
            } else {
                0
            };
            let end_row = if rr.len() >= 2 && spec_as_u64(rr[1]) is Some {
                ((spec_as_u64(rr[1])->0 as int) % 0x1_0000_0000)
            } else {
                0
            };
            match oget(instr, seq!['c', 'o', 'l', 'u', 'm', 'n', '_', 'r', 'a', 'n', 'g', 'e']) {
                Some(SpecValue::Arr(cr)) => if cr.len() < 2 {
                    Err(ErrorKind::SpecValidation)
                } else {
                    match (spec_col_bound(cr[0]), spec_col_bound(cr[1])) {
                        (Ok(c0), Ok(c1)) => {
                            match oget(
                                instr,
                                seq!['h', 'e', 'a', 'd', 'e', 'r', '_', 'r', 'o', 'w'],
                            ) {
                                None => Err(ErrorKind::SpecValidation),
                                Some(hv) => match spec_header_rows(hv) {
                                    Err(k) => Err(k),
                                    Ok(hrows) => {
                                        let sep = match oget(
                                            instr,
                                            seq!['s', 'e', 'p', 'a', 'r', 'a', 't', 'o', 'r'],
                                        ) {
                                            Some(SpecValue::Str(s)) => s,
                                            _ => seq![' '],
                                        };
                                        spec_dataframe_cols(
                                            sheet,
                                            c0,
                                            c1,
                                            hrows,
                                            sep,
                                            start_row,
                                            end_row,
                                            Seq::empty(),
                                        )
                                    },
                                },
                            }
                        },
                        (Err(k), _) => Err(k),
                        (_, Err(k)) => Err(k),
                    }
                },
                _ => Err(ErrorKind::SpecValidation),
            }
        },
        _ => Err(ErrorKind::SpecValidation),
    }
}

/// One column-range bound.
fn col_bound(v: &Value) -> (r: Result<u32, ExtractError>)
    ensures
        match r {
            Ok(c) => spec_col_bound(v.dv()) == Ok::<int, ErrorKind>(c as int),
            Err(e) => spec_col_bound(v.dv()) == Err::<int, ErrorKind>(e.kind),
        },
{
    match v {
        Value::Str(s) => column_name_to_index(s.as_str()),
        Value::Int(i) => {
            if *i >= 0 {
                Ok(((*i as u64) % 0x1_0000_0000) as u32)
            } else {
                Err(ExtractError::new(ErrorKind::SpecValidation, "Invalid 'column_range'"))
            }
        },
        Value::Num(_) => Err(
            ExtractError::new(ErrorKind::SpecValidation, "Invalid 'column_range'"),
        ),
        _ => Err(ExtractError::new(ErrorKind::SpecValidation, "Invalid 'start_column' format")),
    }
}

/// The header row indices of the instruction value.
fn header_rows_of(hv: &Value) -> (r: Result<Vec<u32>, ExtractError>)
    ensures
        match r {
            Ok(rows) => spec_header_rows(hv.dv()) == Ok::<Seq<u32>, ErrorKind>(rows@),
            Err(e) => spec_header_rows(hv.dv()) == Err::<Seq<u32>, ErrorKind>(e.kind),
        },
{
    match hv {
        Value::Arr(a) => {
            proof {
                assert(hv.dv()->Arr_0 =~= a.deep_view());
            }
            let mut rows: Vec<u32> = Vec::new();
            let mut j: usize = 0;
            proof {
                assert(a.deep_view().skip(0) =~= a.deep_view());
                assert(rows@ =~= Seq::<u32>::empty());
            }
            while j < a.len()
                invariant
                    j <= a.len(),
                    spec_header_row_list(a.deep_view()) == (match spec_header_row_list(
                        a.deep_view().skip(j as int),
                    ) {
                        Ok(rest) => Ok::<Seq<u32>, ErrorKind>(rows@ + rest),
                        Err(k) => Err::<Seq<u32>, ErrorKind>(k),
                    }),
                decreases a.len() - j,
            {
                let ghost arest = a.deep_view().skip(j as int);
                proof {
                    assert(arest[0] == a.deep_view()[j as int]);
                    assert(arest.drop_first() =~= a.deep_view().skip(j as int + 1));
                }
                match a[j].as_u64() {
                    Some(u) => {
                        let ghost prev = rows@;
                        let t = ((u % 0x1_0000_0000) as u32);
                        rows.push(t);
                        proof {
                            match spec_header_row_list(a.deep_view().skip(j as int + 1)) {
                                Ok(rest) => {
                                    assert(prev + (seq![t] + rest) =~= prev.push(t) + rest);
                                },
                                Err(k) => {},
                            }
                        }
                    },
                    None => {
                        return Err(
                            ExtractError::new(
                                ErrorKind::SpecValidation,
                                "Invalid 'header_row' format",
                            ),
                        );
                    },
                }
                j = j + 1;
            }
            proof {
                assert(a.deep_view().skip(a.len() as int) =~= Seq::<SpecValue>::empty());
                assert(rows@ + Seq::<u32>::empty() =~= rows@);
            }
            Ok(rows)
        },
        _ => {
            match hv.as_u64() {
                Some(u) => {
                    let mut rows: Vec<u32> = Vec::new();
                    rows.push(((u % 0x1_0000_0000) as u32));
                    proof {
                        assert(rows@ =~= seq![((u % 0x1_0000_0000) as u32)]);
                    }
                    Ok(rows)
                },
                None => Err(
                    ExtractError::new(ErrorKind::SpecValidation, "Invalid 'header_row' format"),
                ),
            }
        },
    }
}

/// Run the columnar rule over a sheet.
#[verifier::rlimit(80)]
pub fn extract_dataframe(sheet: &Sheet, instructions: &Vec<(String, Value)>) -> (r: Result<
    Vec<(String, Value)>,
    ExtractError,
>)
    ensures
        match r {
            Ok(o) => spec_dataframe(*sheet, instructions.deep_view()) == Ok::<SpecObj, ErrorKind>(
                o.deep_view(),
            ),
            Err(e) => spec_dataframe(*sheet, instructions.deep_view()) == Err::<
                SpecObj,
                ErrorKind,
            >(e.kind),
        },
{
    proof {
        reveal_strlit("row_range");
        reveal_strlit("column_range");
        reveal_strlit("header_row");
        reveal_strlit("separator");
        assert("row_range"@ =~= seq!['r', 'o', 'w', '_', 'r', 'a', 'n', 'g', 'e']);
        assert("column_range"@ =~= seq![
            'c', 'o', 'l', 'u', 'm', 'n', '_', 'r', 'a', 'n', 'g', 'e',
        ]);
        assert("header_row"@ =~= seq!['h', 'e', 'a', 'd', 'e', 'r', '_', 'r', 'o', 'w']);
        assert("separator"@ =~= seq!['s', 'e', 'p', 'a', 'r', 'a', 't', 'o', 'r']);
    }
    let rr = match obj_find(instructions, "row_range") {
        Some(i) => match instructions[i].1.as_array() {
            Some(a) => a,
            None => {
                return Err(
                    ExtractError::new(ErrorKind::SpecValidation, "Missing or invalid 'row_range'"),
                );
            },
        },
        None => {
            return Err(
                ExtractError::new(ErrorKind::SpecValidation, "Missing or invalid 'row_range'"),
            );
        },
    };
    let start_row: u32 = if rr.len() >= 1 {
        match rr[0].as_u64() {
            Some(u) => ((u % 0x1_0000_0000) as u32),
            None => 0,
        }
    } else {
        0
    };
    let end_row: u32 = if rr.len() >= 2 {
        match rr[1].as_u64() {
            Some(u) => ((u % 0x1_0000_0000) as u32),
            None => 0,
        }
    } else {
        0
    };
    let cr = match obj_find(instructions, "column_range") {
        Some(i) => match instructions[i].1.as_array() {
            Some(a) => a,
            None => {
                return Err(
                    ExtractError::new(
                        ErrorKind::SpecValidation,
                        "Missing or invalid 'column_range'",
                    ),
                );
            },
        },
        None => {
            return Err(
                ExtractError::new(ErrorKind::SpecValidation, "Missing or invalid 'column_range'"),
            );
        },
    };
    if cr.len() < 2 {
        return Err(ExtractError::new(ErrorKind::SpecValidation, "Invalid 'column_range'"));
    }
    let start_col = match col_bound(&cr[0]) {
        Ok(c) => c,
        Err(e) => {
            return Err(e);
        },
    };
    let end_col = match col_bound(&cr[1]) {
        Ok(c) => c,
        Err(e) => {
            return Err(e);
        },
    };
    let hv = match obj_find(instructions, "header_row") {
        Some(i) => &instructions[i].1,
        None => {
            return Err(ExtractError::new(ErrorKind::SpecValidation, "Missing 'header_row'"));
        },
    };
    let hrows = match header_rows_of(hv) {
        Ok(rows) => rows,
        Err(e) => {
            return Err(e);
        },
    };
    let default_sep = " ";
    proof {
        reveal_strlit(" ");
        assert(" "@ =~= seq![' ']);
    }
    let sep: &str = match obj_find(instructions, "separator") {
        Some(i) => match instructions[i].1.as_str() {
            Some(s) => s.as_str(),
            None => default_sep,
        },
        None => default_sep,
    };
    let mut frame: Vec<(String, Value)> = Vec::new();
    let mut col: u64 = start_col as u64;
    proof {
        assert(frame.deep_view() =~= Seq::<(Seq<char>, SpecValue)>::empty());
    }
    while col <= end_col as u64
        invariant
            start_col as int <= col,
            col == start_col as int || col <= end_col as int + 1,
            spec_dataframe_cols(
                *sheet,
                start_col as int,
                end_col as int,
                hrows@,
                sep@,
                start_row as int,
                end_row as int,
                Seq::empty(),
            ) == spec_dataframe_cols(
                *sheet,
                col as int,
                end_col as int,
                hrows@,
                sep@,
                start_row as int,
                end_row as int,
                frame.deep_view(),
            ),
        decreases end_col as int + 1 - col,
    {
        let header = match extract_headers(sheet, &hrows, col as u32, sep) {
            Ok(h) => h,
            Err(e) => {
                return Err(e);
            },
        };
        let data = match extract_column_data(sheet, col as u32, start_row, end_row) {
            Ok(d) => d,
            Err(e) => {
                return Err(e);
            },
        };
        obj_set(&mut frame, header, data);
        col = col + 1;
    }
    Ok(frame)
}

} // verus!
