//! The multi-row extraction rule: one record per row of a range whose
//! unique-id cell is non-null, keyed by that id's JSON form with numeric
//! suffixing on collision.
use vstd::prelude::*;
use vstd::string::*;
use crate::assemble::{fresh_key, spec_fresh_key};
use crate::conversions::{col_numeral, column_name_to_index, valid_col_name};
use crate::manipulations::{extract_cell_value, spec_extract_cell};
use crate::render::{json_scalar_string, spec_json_scalar};
use crate::sheet::Sheet;
use crate::values::{
    obj_find, obj_set, oget, okeys, oset, ErrorKind, ExtractError, SpecObj, SpecValue, Value,
};

verus! {

/// The non-null coerced values of the listed column letters at `row`,
/// in list order; a non-string entry or a bad letter fails.
pub open spec fn spec_column_values(sheet: Sheet, row: int, cols: Seq<SpecValue>) -> Result<
    Seq<SpecValue>,
    ErrorKind,
>
    decreases cols.len(),
{
    if cols.len() == 0 {
        Ok(Seq::empty())
    } else {
        match cols[0] {
            SpecValue::Str(cname) => if !(valid_col_name(cname) && col_numeral(cname)
                <= 0x1_0000_0000) {
                Err(ErrorKind::InvalidAddress)
            } else {
                match spec_extract_cell(sheet, row, col_numeral(cname) - 1, false) {
                    Err(k) => Err(k),
                    Ok(opt) => match spec_column_values(sheet, row, cols.drop_first()) {
                        Err(k) => Err(k),
                        Ok(rest) => match opt {
                            Some(v) => if v is Null {
                                Ok(rest)
                            } else {
                                Ok(seq![v] + rest)
                            },
                            None => Ok(rest),
                        },
                    },
                }
            },
            _ => Err(ErrorKind::SpecValidation),
        }
    }
}

/// One row's record: a field given as a list of column letters always
/// yields the array of its non-null values, and a field given as a
/// single letter yields that cell's value, null when empty or absent.
pub open spec fn spec_row_record(sheet: Sheet, row: int, columns: SpecObj, acc: SpecObj) -> Result<
    SpecObj,
    ErrorKind,
>
    decreases columns.len(),
{
    if columns.len() == 0 {
        Ok(acc)
    } else {
        let (cname, cspec) = columns[0];
        match cspec {
            SpecValue::Arr(items) => match spec_column_values(sheet, row, items) {
                Err(k) => Err(k),
                Ok(vals) => spec_row_record(
                    sheet,
                    row,
                    columns.drop_first(),
                    oset(acc, cname, SpecValue::Arr(vals)),
                ),
            },
            SpecValue::Str(letters) => if !(valid_col_name(letters) && col_numeral(letters)
                <= 0x1_0000_0000) {
                Err(ErrorKind::InvalidAddress)
            } else {
                match spec_extract_cell(sheet, row, col_numeral(letters) - 1, false) {
                    Err(k) => Err(k),
                    Ok(opt) => spec_row_record(
                        sheet,
                        row,
                        columns.drop_first(),
                        oset(
                            acc,
                            cname,
                            match opt {
                                Some(v) => v,
                                None => SpecValue::Null,
                            },
                        ),
                    ),
                }
            },
            _ => Err(ErrorKind::SpecValidation),
        }
    }
}

/// The records of rows `row` to `end`: a row with a null or missing
/// unique id yields none; a colliding id key gains a numeric suffix.
pub open spec fn spec_multirow_rows(
    sheet: Sheet,
    row: int,
    end: int,
    columns: SpecObj,
    uid_col: int,
    acc: SpecObj,
) -> Result<SpecObj, ErrorKind>
    decreases end + 1 - row,
{
    if row > end {
        Ok(acc)
    } else {
        match spec_extract_cell(sheet, row, uid_col, false) {
            Err(k) => Err(k),
            Ok(opt) => if opt matches Some(id) && !(opt->0 is Null) {
                match spec_row_record(sheet, row, columns, Seq::empty()) {
                    Err(k) => Err(k),
                    Ok(rec) => match spec_json_scalar(opt->0) {
                        None => Err(ErrorKind::SpecValidation),
                        Some(keytext) => spec_multirow_rows(
                            sheet,
                            row + 1,
                            end,
                            columns,
                            uid_col,
                            acc.push((spec_fresh_key(okeys(acc), keytext), SpecValue::Obj(rec))),
                        ),
                    },
                }
            } else {
                spec_multirow_rows(sheet, row + 1, end, columns, uid_col, acc)
            },
        }
    }
}

/// A row whose unique-id cell is missing or empty contributes nothing:
/// the rows after it meet the same outcome the row loop had before it.
pub proof fn lemma_multirow_null_id_skipped(
    sheet: Sheet,
    row: int,
    end: int,
    columns: SpecObj,
    uid_col: int,
    acc: SpecObj,
)
    requires
        row <= end,
        spec_extract_cell(sheet, row, uid_col, false) == Ok::<Option<SpecValue>, ErrorKind>(None)
            || spec_extract_cell(sheet, row, uid_col, false) == Ok::<Option<SpecValue>, ErrorKind>(
            Some(SpecValue::Null),
        ),
    ensures
        spec_multirow_rows(sheet, row, end, columns, uid_col, acc) == spec_multirow_rows(
            sheet,
            row + 1,
            end,
            columns,
            uid_col,
            acc,
        ),
{
}

/// How many rows of the range carry a non-null unique id.
pub open spec fn spec_record_count(sheet: Sheet, row: int, end: int, uid_col: int) -> nat
    decreases end + 1 - row,
{
    if row > end {
        0
    } else {
        (match spec_extract_cell(sheet, row, uid_col, false) {
            Ok(Some(v)) => if v is Null {
                0nat
            } else {
                1nat
            },
            _ => 0nat,
        }) + spec_record_count(sheet, row + 1, end, uid_col)
    }
}

/// When the row loop succeeds it appends exactly one record per row
/// with a non-null unique id, in row order: everything it started with
/// stands unchanged in place, and every appended record's key is absent
/// from all that stands before it, so no record is ever overwritten.
pub proof fn lemma_multirow_one_record_per_id_row(
    sheet: Sheet,
    row: int,
    end: int,
    columns: SpecObj,
    uid_col: int,
    acc: SpecObj,
)
    ensures
        spec_multirow_rows(sheet, row, end, columns, uid_col, acc) matches Ok(m) ==> {
            &&& m.len() == acc.len() + spec_record_count(sheet, row, end, uid_col)
            &&& forall|j: int| 0 <= j < acc.len() ==> m[j] == acc[j]
            &&& forall|j: int|
                acc.len() <= j < m.len() ==> !okeys(#[trigger] m.take(j)).contains(m[j].0)
        },
    decreases end + 1 - row,
{
    if row <= end {
        match spec_multirow_rows(sheet, row, end, columns, uid_col, acc) {
            Ok(m) => {
                match spec_extract_cell(sheet, row, uid_col, false) {
                    Ok(opt) => {
                        if opt matches Some(id) && !(opt->0 is Null) {
                            match spec_row_record(sheet, row, columns, Seq::empty()) {
                                Ok(rec) => {
                                    match spec_json_scalar(opt->0) {
                                        Some(keytext) => {
                                            let key = spec_fresh_key(okeys(acc), keytext);
                                            let pushed = acc.push(
                                                (key, SpecValue::Obj(rec)),
                                            );
                                            lemma_multirow_one_record_per_id_row(
                                                sheet,
                                                row + 1,
                                                end,
                                                columns,
                                                uid_col,
                                                pushed,
                                            );
                                            assert forall|j: int|
                                                0 <= j < acc.len() implies m[j] == acc[j] by {
                                                assert(m[j] == pushed[j]);
                                            }
                                            assert forall|j: int|
                                                acc.len() <= j < m.len() implies !okeys(
                                                #[trigger] m.take(j),
                                            ).contains(m[j].0) by {
                                                if j == acc.len() {
                                                    crate::assemble::lemma_fresh_key_fresh(
                                                        okeys(acc),
                                                        keytext,
                                                    );
                                                    assert(m[j] == pushed[j]);
                                                    assert(m.take(j) =~= acc);
                                                    assert(okeys(m.take(j)) =~= okeys(acc));
                                                } else {
                                                    assert(!okeys(m.take(j)).contains(m[j].0));
                                                }
                                            }
                                        },
                                        None => {},
                                    }
                                },
                                Err(_) => {},
                            }
                        } else {
                            lemma_multirow_one_record_per_id_row(
                                sheet,
                                row + 1,
                                end,
                                columns,
                                uid_col,
                                acc,
                            );
                        }
                    },
                    Err(_) => {},
                }
            },
            Err(_) => {},
        }
    }
}

/// What the multi-row rule yields for the given instructions: the row
/// range, the columns map and the unique-id column letter are read out
/// of the instructions, then the rows produce their records.
pub open spec fn spec_multirow(sheet: Sheet, instr: SpecObj) -> Result<SpecObj, ErrorKind> {
    match oget(instr, seq!['r', 'o', 'w', '_', 'r', 'a', 'n', 'g', 'e']) {
        Some(SpecValue::Arr(rr)) => {
            let start = if rr.len() >= 1 {
                crate::values::spec_as_u64(rr[0])
            } else {
                None
            };
            let end = if rr.len() >= 2 {
                crate::values::spec_as_u64(rr[1])
            } else {
                None
            };
            match (start, end) {
                (Some(s), Some(e)) => {
                    let s32 = (s as int) % 0x1_0000_0000;
                    let e32 = (e as int) % 0x1_0000_0000;
                    match oget(instr, seq!['c', 'o', 'l', 'u', 'm', 'n', 's']) {
                        Some(SpecValue::Obj(columns)) => {
                            match oget(instr, seq!['u', 'n', 'i', 'q', 'u', 'e', '_', 'i', 'd']) {
                                Some(SpecValue::Str(uid)) => if !(valid_col_name(uid)
                                    && col_numeral(uid) <= 0x1_0000_0000) {
                                    Err(ErrorKind::InvalidAddress)
                                } else {
                                    spec_multirow_rows(
                                        sheet,
                                        s32,
                                        e32,
                                        columns,
                                        col_numeral(uid) - 1,
                                        Seq::empty(),
                                    )
                                },
                                _ => Err(ErrorKind::SpecValidation),
                            }
                        },
                        _ => Err(ErrorKind::SpecValidation),
                    }
                },
                _ => Err(ErrorKind::SpecValidation),
            }
        },
        _ => Err(ErrorKind::SpecValidation),
    }
}

/// The collected values of one list-form field at `row`.
fn column_values(sheet: &Sheet, row: u32, cspec: &Value) -> (r: Result<Vec<Value>, ExtractError>)
    ensures
        match r {
            Ok(vals) => (match cspec.dv() {
                SpecValue::Arr(a) => spec_column_values(*sheet, row as int, a) == Ok::<
                    Seq<SpecValue>,
                    ErrorKind,
                >(vals.deep_view()),
                _ => false,
            }),
            Err(e) => (match cspec.dv() {
                SpecValue::Arr(a) => spec_column_values(*sheet, row as int, a) == Err::<
                    Seq<SpecValue>,
                    ErrorKind,
                >(e.kind),
                _ => e.kind == ErrorKind::SpecValidation,
            }),
        },
{
    match cspec {
        Value::Arr(items) => {
            proof {
                assert(cspec.dv()->Arr_0 =~= items.deep_view());
            }
            let mut vals: Vec<Value> = Vec::new();
            let mut j: usize = 0;
            proof {
                assert(items.deep_view().skip(0) =~= items.deep_view());
                assert(vals.deep_view() =~= Seq::<SpecValue>::empty());
            }
            while j < items.len()
                invariant
                    j <= items.len(),
                    spec_column_values(*sheet, row as int, items.deep_view()) == (
                    match spec_column_values(
                        *sheet,
                        row as int,
                        items.deep_view().skip(j as int),
                    ) {
                        Ok(rest) => Ok::<Seq<SpecValue>, ErrorKind>(vals.deep_view() + rest),
                        Err(k) => Err::<Seq<SpecValue>, ErrorKind>(k),
                    }),
                decreases items.len() - j,
            {
                let ghost arest = items.deep_view().skip(j as int);
                proof {
                    assert(arest[0] == items.deep_view()[j as int]);
                    assert(arest.drop_first() =~= items.deep_view().skip(j as int + 1));
                }
                match one_column_value(sheet, row, &items[j]) {
                    Err(e) => {
                        return Err(e);
                    },
                    Ok(opt) => {
                        match opt {
                            Some(v) => {
                                let ghost prev = vals.deep_view();
                                let ghost x = v.dv();
                                vals.push(v);
                                proof {
                                    assert(vals.deep_view() =~= prev.push(x));
                                    match spec_column_values(
                                        *sheet,
                                        row as int,
                                        items.deep_view().skip(j as int + 1),
                                    ) {
                                        Ok(rest) => {
                                            assert(prev + (seq![x] + rest) =~= prev.push(x)
                                                + rest);
                                        },
                                        Err(k) => {},
                                    }
                                }
                            },
                            None => {},
                        }
                    },
                }
                j = j + 1;
            }
            proof {
                assert(items.deep_view().skip(items.len() as int) =~= Seq::<SpecValue>::empty());
                assert(vals.deep_view() + Seq::<SpecValue>::empty() =~= vals.deep_view());
            }
            Ok(vals)
        },
        _ => Err(ExtractError::new(ErrorKind::SpecValidation, "Invalid column specification")),
    }
}

/// One column entry's non-null value at `row`: `Ok(None)` when the cell
/// is missing or null.
fn one_column_value(sheet: &Sheet, row: u32, entry: &Value) -> (r: Result<
    Option<Value>,
    ExtractError,
>)
    ensures
        match r {
            Ok(opt) => (match entry.dv() {
                SpecValue::Str(cname) => valid_col_name(cname) && col_numeral(cname)
                    <= 0x1_0000_0000 && (match spec_extract_cell(
                    *sheet,
                    row as int,
                    col_numeral(cname) - 1,
                    false,
                ) {
                    Ok(copt) => (match opt {
                        Some(v) => copt == Some(v.dv()) && !(v.dv() is Null),
                        None => copt is None || copt == Some(SpecValue::Null),
                    }),
                    Err(_) => false,
                }),
                _ => false,
            }),
            Err(e) => (match entry.dv() {
                SpecValue::Str(cname) => if !(valid_col_name(cname) && col_numeral(cname)
                    <= 0x1_0000_0000) {
                    e.kind == ErrorKind::InvalidAddress
                } else {
                    spec_extract_cell(*sheet, row as int, col_numeral(cname) - 1, false) == Err::<
                        Option<SpecValue>,
                        ErrorKind,
                    >(e.kind)
                },
                _ => e.kind == ErrorKind::SpecValidation,
            }),
        },
{
    match entry {
        Value::Str(cname) => {
            let col = match column_name_to_index(cname.as_str()) {
                Ok(c) => c,
                Err(e) => {
                    return Err(e);
                },
            };
            match extract_cell_value(sheet, row, col, false) {
                Err(e) => Err(e),
                Ok(Some(v)) => {
                    if v.is_null() {
                        Ok(None)
                    } else {
                        Ok(Some(v))
                    }
                },
                Ok(None) => Ok(None),
            }
        },
        _ => Err(ExtractError::new(ErrorKind::SpecValidation, "Invalid column specification")),
    }
}

/// Build one row's record from the columns map.
fn row_record(sheet: &Sheet, row: u32, columns: &Vec<(String, Value)>) -> (r: Result<
    Vec<(String, Value)>,
    ExtractError,
>)
    ensures
        match r {
            Ok(rec) => spec_row_record(*sheet, row as int, columns.deep_view(), Seq::empty())
                == Ok::<SpecObj, ErrorKind>(rec.deep_view()),
            Err(e) => spec_row_record(*sheet, row as int, columns.deep_view(), Seq::empty())
                == Err::<SpecObj, ErrorKind>(e.kind),
        },
{
    let ghost cdv = columns.deep_view();
    let mut rec: Vec<(String, Value)> = Vec::new();
    let mut ci: usize = 0;
    proof {
        assert(cdv.skip(0) =~= cdv);
        assert(rec.deep_view() =~= Seq::<(Seq<char>, SpecValue)>::empty());
    }
    while ci < columns.len()
        invariant
            ci <= columns.len(),
            cdv == columns.deep_view(),
            spec_row_record(*sheet, row as int, cdv, Seq::empty()) == (spec_row_record(
                *sheet,
                row as int,
                cdv.skip(ci as int),
                rec.deep_view(),
            )),
        decreases columns.len() - ci,
    {
        let ghost crest = cdv.skip(ci as int);
        proof {
            assert(crest[0] == cdv[ci as int]);
            assert(crest.drop_first() =~= cdv.skip(ci as int + 1));
        }
        let (cname, cspec) = &columns[ci];
        let fin: Value = match cspec {
            Value::Arr(_) => {
                let vals = match column_values(sheet, row, cspec) {
                    Ok(vals) => vals,
                    Err(e) => {
                        return Err(e);
                    },
                };
                let a = Value::Arr(vals);
                proof {
                    assert(a.dv()->Arr_0 =~= a->Arr_0.deep_view());
                }
                a
            },
            _ => {
                match one_column_value(sheet, row, cspec) {
                    Ok(Some(v)) => v,
                    Ok(None) => Value::Null,
                    Err(e) => {
                        return Err(e);
                    },
                }
            },
        };
        obj_set(&mut rec, cname.clone(), fin);
        ci = ci + 1;
    }
    proof {
        assert(cdv.skip(columns.len() as int) =~= Seq::<(Seq<char>, SpecValue)>::empty());
    }
    Ok(rec)
}

/// Run the multi-row rule over a sheet.
#[verifier::rlimit(60)]
pub fn extract_rows(sheet: &Sheet, instructions: &Vec<(String, Value)>) -> (r: Result<
    Vec<(String, Value)>,
    ExtractError,
>)
    ensures
        match r {
            Ok(o) => spec_multirow(*sheet, instructions.deep_view()) == Ok::<SpecObj, ErrorKind>(
                o.deep_view(),
            ),
            Err(e) => spec_multirow(*sheet, instructions.deep_view()) == Err::<SpecObj, ErrorKind>(
                e.kind,
            ),
        },
{
    proof {
        reveal_strlit("row_range");
        reveal_strlit("columns");
        reveal_strlit("unique_id");
        assert("row_range"@ =~= seq!['r', 'o', 'w', '_', 'r', 'a', 'n', 'g', 'e']);
        assert("columns"@ =~= seq!['c', 'o', 'l', 'u', 'm', 'n', 's']);
        assert("unique_id"@ =~= seq!['u', 'n', 'i', 'q', 'u', 'e', '_', 'i', 'd']);
    }
    let rr = match obj_find(instructions, "row_range") {
        Some(i) => match instructions[i].1.as_array() {
            Some(a) => a,
            None => {
                return Err(
                    ExtractError::new(ErrorKind::SpecValidation, "Missing or invalid 'row_range'"),
                );
            },
        },
        None => {
            return Err(
                ExtractError::new(ErrorKind::SpecValidation, "Missing or invalid 'row_range'"),
            );
        },
    };
    let start64 = if rr.len() >= 1 {
        rr[0].as_u64()
    } else {
        None
    };
    let end64 = if rr.len() >= 2 {
        rr[1].as_u64()
    } else {
        None
    };
    let (start, end): (u32, u32) = match (start64, end64) {
        (Some(s), Some(e)) => (((s % 0x1_0000_0000) as u32), ((e % 0x1_0000_0000) as u32)),
        (None, _) => {
            return Err(
                ExtractError::new(ErrorKind::SpecValidation, "Missing 'start_row' in 'row_range'"),
            );
        },
        (_, None) => {
            return Err(
                ExtractError::new(ErrorKind::SpecValidation, "Missing 'end_row' in 'row_range'"),
            );
        },
    };
    let columns = match obj_find(instructions, "columns") {
        Some(i) => match instructions[i].1.as_object() {
            Some(o) => o,
            None => {
                return Err(ExtractError::new(ErrorKind::SpecValidation, "Missing 'columns'"));
            },
        },
        None => {
            return Err(ExtractError::new(ErrorKind::SpecValidation, "Missing 'columns'"));
        },
    };
    let uid = match obj_find(instructions, "unique_id") {
        Some(i) => match instructions[i].1.as_str() {
            Some(s) => s,
            None => {
                return Err(ExtractError::new(ErrorKind::SpecValidation, "Missing 'unique_id'"));
            },
        },
        None => {
            return Err(ExtractError::new(ErrorKind::SpecValidation, "Missing 'unique_id'"));
        },
    };
    let uid_col = match column_name_to_index(uid.as_str()) {
        Ok(c) => c,
        Err(e) => {
            return Err(e);
        },
    };
    let mut results: Vec<(String, Value)> = Vec::new();
    let mut row: u64 = start as u64;
    let ghost cdv = columns.deep_view();
    proof {
        assert(results.deep_view() =~= Seq::<(Seq<char>, SpecValue)>::empty());
    }
    while row <= end as u64
        invariant
            start as int <= row,
            row == start as int || row <= end as int + 1,
            cdv == columns.deep_view(),
            spec_multirow_rows(
                *sheet,
                start as int,
                end as int,
                cdv,
                uid_col as int,
                Seq::empty(),
            ) == spec_multirow_rows(
                *sheet,
                row as int,
                end as int,
                cdv,
                uid_col as int,
                results.deep_view(),
            ),
        decreases end as int + 1 - row,
    {
        let idval = match extract_cell_value(sheet, row as u32, uid_col, false) {
            Ok(opt) => opt,
            Err(e) => {
                return Err(e);
            },
        };
        match idval {
            Some(id) => {
                if !id.is_null() {
                    let rec = match row_record(sheet, row as u32, columns) {
                        Ok(rec) => rec,
                        Err(e) => {
                            return Err(e);
                        },
                    };
                    let keytext = match json_scalar_string(&id) {
                        Some(k) => k,
                        None => {
                            return Err(
                                ExtractError::new(
                                    ErrorKind::SpecValidation,
                                    "Invalid unique id value",
                                ),
                            );
                        },
                    };
                    let key = fresh_key(&results, &keytext);
                    let ghost prev = results.deep_view();
                    let robj = Value::Obj(rec);
                    proof {
                        assert(robj.dv()->Obj_0 =~= robj->Obj_0.deep_view());
                    }
                    results.push((key, robj));
                    proof {
                        assert(results.deep_view() =~= prev.push(
                            (spec_fresh_key(okeys(prev), keytext@), robj.dv()),
                        ));
                    }
                }
            },
            None => {},
        }
        row = row + 1;
    }
    Ok(results)
}

} // verus!
