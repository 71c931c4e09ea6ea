//! The single-cell extraction rule: each instruction field names one cell
//! or a list of cells, and resolves to its coerced value or to the array
//! of the non-null values.
use vstd::prelude::*;
use vstd::string::*;
use crate::conversions::{address_to_row_col, spec_address};
use crate::manipulations::{extract_cell_value, spec_extract_cell};
use crate::sheet::Sheet;
use crate::values::{
    obj_find, obj_set, oget, oset, ErrorKind, ExtractError, SpecObj, SpecValue, Value,
};

verus! {

/// The zero-based lookup position a single address value names: a literal
/// reference string resolves through the address decoder; an explicit
/// object passes its `row` and `col` numbers through unchanged, truncated
/// to the 32 bits a cell position holds.
pub open spec fn spec_resolve_address(v: SpecValue) -> Result<(int, int), ErrorKind> {
    match v {
        SpecValue::Str(s) => spec_address(s),
        SpecValue::Obj(o) => {
            let row = match oget(o, seq!['r', 'o', 'w']) {
                Some(rv) => crate::values::spec_as_u64(rv),
                None => None,
            };
            let col = match oget(o, seq!['c', 'o', 'l']) {
                Some(cv) => crate::values::spec_as_u64(cv),
                None => None,
            };
            match (row, col) {
                (Some(r), Some(c)) => Ok(((r as int) % 0x1_0000_0000, (c as int) % 0x1_0000_0000)),
                _ => Err(ErrorKind::SpecValidation),
            }
        },
        _ => Err(ErrorKind::SpecValidation),
    }
}

/// Resolve one address value of an address list.
fn resolve_address(v: &Value) -> (r: Result<(u32, u32), ExtractError>)
    ensures
        match r {
            Ok(rc) => spec_resolve_address(v.dv()) == Ok::<(int, int), ErrorKind>(
                (rc.0 as int, rc.1 as int),
            ),
            Err(e) => spec_resolve_address(v.dv()) == Err::<(int, int), ErrorKind>(e.kind),
        },
{
    match v {
        Value::Str(s) => address_to_row_col(s.as_str()),
        Value::Obj(entries) => {
            proof {
                reveal_strlit("row");
                reveal_strlit("col");
                assert("row"@ =~= seq!['r', 'o', 'w']);
                assert("col"@ =~= seq!['c', 'o', 'l']);
                assert(v.dv()->Obj_0 =~= entries.deep_view());
            }
            let row = match obj_find(entries, "row") {
                Some(i) => entries[i].1.as_u64(),
                None => None,
            };
            let col = match obj_find(entries, "col") {
                Some(i) => entries[i].1.as_u64(),
                None => None,
            };
            match (row, col) {
                (Some(r), Some(c)) => {
                    let rt = (r % 0x1_0000_0000) as u32;
                    let ct = (c % 0x1_0000_0000) as u32;
                    Ok((rt, ct))
                },
                _ => Err(ExtractError::new(ErrorKind::SpecValidation, "Missing 'row' or 'col'")),
            }
        },
        _ => Err(
            ExtractError::new(
                ErrorKind::SpecValidation,
                "Invalid or missing row/column specification",
            ),
        ),
    }
}

/// The non-null coerced values of an address list, in order; the first
/// failure wins.
pub open spec fn spec_collect_addresses(sheet: Sheet, addrs: Seq<SpecValue>) -> Result<
    Seq<SpecValue>,
    ErrorKind,
>
    decreases addrs.len(),
{
    if addrs.len() == 0 {
        Ok(Seq::empty())
    } else {
        match spec_resolve_address(addrs[0]) {
            Err(k) => Err(k),
            Ok(rc) => match spec_extract_cell(sheet, rc.0, rc.1, false) {
                Err(k) => Err(k),
                Ok(opt) => match spec_collect_addresses(sheet, addrs.drop_first()) {
                    Err(k) => Err(k),
                    Ok(rest) => match opt {
                        Some(v) => if v is Null {
                            Ok(rest)
                        } else {
                            Ok(seq![v] + rest)
                        },
                        None => Ok(rest),
                    },
                },
            },
        }
    }
}

/// What the single-cell rule yields on a sheet for the given instruction
/// fields, folded left over an accumulator: a list field collects its
/// non-null values; a scalar field, named by a reference string or an
/// explicit position object, holds its coerced value, null when the
/// cell is missing or empty.
pub open spec fn spec_single_cells(sheet: Sheet, instr: SpecObj, acc: SpecObj) -> Result<
    SpecObj,
    ErrorKind,
>
    decreases instr.len(),
{
    if instr.len() == 0 {
        Ok(acc)
    } else {
        let (key, v) = instr[0];
        match v {
            SpecValue::Arr(addrs) => match spec_collect_addresses(sheet, addrs) {
                Err(k) => Err(k),
                Ok(vals) => spec_single_cells(
                    sheet,
                    instr.drop_first(),
                    oset(acc, key, SpecValue::Arr(vals)),
                ),
            },
            _ => match spec_resolve_address(v) {
                Err(k) => Err(k),
                Ok(rc) => match spec_extract_cell(sheet, rc.0, rc.1, false) {
                    Err(k) => Err(k),
                    Ok(opt) => spec_single_cells(
                        sheet,
                        instr.drop_first(),
                        oset(
                            acc,
                            key,
                            match opt {
                                Some(v2) => v2,
                                None => SpecValue::Null,
                            },
                        ),
                    ),
                },
            },
        }
    }
}

/// Run the single-cell rule over a sheet.
#[verifier::rlimit(60)]
pub fn extract_values(sheet: &Sheet, instructions: &Vec<(String, Value)>) -> (r: Result<
    Vec<(String, Value)>,
    ExtractError,
>)
    ensures
        match r {
            Ok(o) => spec_single_cells(*sheet, instructions.deep_view(), Seq::empty()) == Ok::<
                SpecObj,
                ErrorKind,
            >(o.deep_view()),
            Err(e) => spec_single_cells(*sheet, instructions.deep_view(), Seq::empty()) == Err::<
                SpecObj,
                ErrorKind,
            >(e.kind),
        },
{
    let mut out: Vec<(String, Value)> = Vec::new();
    let mut i: usize = 0;
    proof {
        assert(instructions.deep_view().skip(0) =~= instructions.deep_view());
        assert(out.deep_view() =~= Seq::<(Seq<char>, SpecValue)>::empty());
    }
    while i < instructions.len()
        invariant
            i <= instructions.len(),
            spec_single_cells(*sheet, instructions.deep_view(), Seq::empty()) == spec_single_cells(
                *sheet,
                instructions.deep_view().skip(i as int),
                out.deep_view(),
            ),
        decreases instructions.len() - i,
    {
        let ghost rest = instructions.deep_view().skip(i as int);
        proof {
            assert(rest[0] == instructions.deep_view()[i as int]);
            assert(rest.drop_first() =~= instructions.deep_view().skip(i as int + 1));
        }
        let (key, value) = &instructions[i];
        match value {
            Value::Arr(addrs) => {
                proof {
                    assert(value.dv()->Arr_0 =~= addrs.deep_view());
                }
                let mut vals: Vec<Value> = Vec::new();
                let mut j: usize = 0;
                proof {
                    assert(addrs.deep_view().skip(0) =~= addrs.deep_view());
                    assert(vals.deep_view() =~= Seq::<SpecValue>::empty());
                }
                while j < addrs.len()
                    invariant
                        j <= addrs.len(),
                        spec_collect_addresses(*sheet, addrs.deep_view()) == (
                        match spec_collect_addresses(
                            *sheet,
                            addrs.deep_view().skip(j as int),
                        ) {
                            Ok(rest2) => Ok::<Seq<SpecValue>, ErrorKind>(
                                vals.deep_view() + rest2,
                            ),
                            Err(k) => Err::<Seq<SpecValue>, ErrorKind>(k),
                        }),
                    decreases addrs.len() - j,
                {
                    let ghost arest = addrs.deep_view().skip(j as int);
                    proof {
                        assert(arest[0] == addrs.deep_view()[j as int]);
                        assert(arest.drop_first() =~= addrs.deep_view().skip(j as int + 1));
                    }
                    let rc = match resolve_address(&addrs[j]) {
                        Ok(rc) => rc,
                        Err(e) => {
                            return Err(e);
                        },
                    };
                    match extract_cell_value(sheet, rc.0, rc.1, false) {
                        Ok(Some(v)) => {
                            if !v.is_null() {
                                let ghost prev = vals.deep_view();
                                let ghost x = v.dv();
                                vals.push(v);
                                proof {
                                    assert(vals.deep_view() =~= prev.push(x));
                                    match spec_collect_addresses(
                                        *sheet,
                                        addrs.deep_view().skip(j as int + 1),
                                    ) {
                                        Ok(rest2) => {
                                            assert(prev + (seq![x] + rest2) =~= prev.push(x)
                                                + rest2);
                                        },
                                        Err(k) => {},
                                    }
                                }
                            }
                        },
                        Ok(None) => {},
                        Err(e) => {
                            return Err(e);
                        },
                    }
                    j = j + 1;
                }
                proof {
                    assert(addrs.deep_view().skip(addrs.len() as int) =~= Seq::<
                        SpecValue,
                    >::empty());
                    assert(vals.deep_view() + Seq::<SpecValue>::empty() =~= vals.deep_view());
                }
                let arr = Value::Arr(vals);
                proof {
                    assert(arr.dv()->Arr_0 =~= arr->Arr_0.deep_view());
                }
                obj_set(&mut out, key.clone(), arr);
            },
            _ => {
                let rc = match resolve_address(value) {
                    Ok(rc) => rc,
                    Err(e) => {
                        return Err(e);
                    },
                };
                match extract_cell_value(sheet, rc.0, rc.1, false) {
                    Ok(Some(v)) => {
                        obj_set(&mut out, key.clone(), v);
                    },
                    Ok(None) => {
                        obj_set(&mut out, key.clone(), Value::Null);
                    },
                    Err(e) => {
                        return Err(e);
                    },
                }
            },
        }
        i = i + 1;
    }
    proof {
        assert(instructions.deep_view().skip(instructions.len() as int) =~= Seq::<
            (Seq<char>, SpecValue),
        >::empty());
    }
    Ok(out)
}

} // verus!
