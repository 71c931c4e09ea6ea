//! Driving one workbook through its extraction details: resolve the
//! sheets, honor the early-exit probe, run each rule over each sheet and
//! fold the fragments into the file's document.
use vstd::prelude::*;
use vstd::string::*;
use crate::assemble::{
    lemma_merge_unlabeled_keeps_existing, merge_labeled, merge_unlabeled, spec_merge_labeled,
    spec_merge_unlabeled,
};
use crate::conversions::{address_to_row_col, spec_address};
use crate::dataframe::{extract_dataframe, spec_dataframe};
use crate::manipulations::{extract_cell_value, spec_extract_cell};
use crate::multirow_patterns::{extract_rows, spec_multirow};
use crate::sheet::{spec_lookup_sheet, Sheet, Workbook};
use crate::sheets::{select_sheets, spec_select};
use crate::single_cells::{extract_values, spec_single_cells};
use crate::text::str_eq;
use crate::values::{
    clone_obj, obj_find, oget, okeys, ErrorKind, ExtractError, SpecObj, SpecValue, Value,
};

verus! {

/// One parsed extraction rule: its kind, its label, its instructions.
pub type RuleSpec = (Seq<char>, Seq<char>, SpecObj);

/// The parsed form of the `extractions` array: each entry must be an
/// object with a string `function`, an optional string `label` (anything
/// else reads as the empty label) and an object `instructions`.
pub open spec fn spec_parse_extractions(list: Seq<SpecValue>, acc: Seq<RuleSpec>) -> Result<
    Seq<RuleSpec>,
    ErrorKind,
>
    decreases list.len(),
{
    if list.len() == 0 {
        Ok(acc)
    } else {
        match list[0] {
            SpecValue::Obj(o) => {
                match oget(o, "function"@) {
                    Some(SpecValue::Str(f)) => {
                        let label = match oget(o, "label"@) {
                            Some(SpecValue::Str(l)) => l,
                            _ => Seq::empty(),
                        };
                        match oget(o, "instructions"@) {
                            Some(SpecValue::Obj(instr)) => spec_parse_extractions(
                                list.drop_first(),
                                acc.push((f, label, instr)),
                            ),
                            _ => Err(ErrorKind::SpecValidation),
                        }
                    },
                    _ => Err(ErrorKind::SpecValidation),
                }
            },
            _ => Err(ErrorKind::SpecValidation),
        }
    }
}

/// What one rule kind yields on a sheet: the known kinds run their
/// interpreter, an unknown kind yields nothing.
pub open spec fn spec_rule_fragment(sheet: Sheet, kind: Seq<char>, instr: SpecObj) -> Option<
    Result<SpecObj, ErrorKind>,
> {
    if kind == "single_cells"@ {
        Some(spec_single_cells(sheet, instr, Seq::empty()))
    } else if kind == "multirow_patterns"@ {
        Some(spec_multirow(sheet, instr))
    } else if kind == "dataframe"@ {
        Some(spec_dataframe(sheet, instr))
    } else {
        None
    }
}

/// The rules of one sheet folded into its result object: an empty label
/// merges flat without overwriting, a label nests and overwrites, an
/// unknown rule kind is skipped.
pub open spec fn spec_run_rules(sheet: Sheet, rules: Seq<RuleSpec>, acc: SpecObj) -> Result<
    SpecObj,
    ErrorKind,
>
    decreases rules.len(),
{
    if rules.len() == 0 {
        Ok(acc)
    } else {
        let (kind, label, instr) = rules[0];
        match spec_rule_fragment(sheet, kind, instr) {
            None => spec_run_rules(sheet, rules.drop_first(), acc),
            Some(Err(k)) => Err(k),
            Some(Ok(frag)) => spec_run_rules(
                sheet,
                rules.drop_first(),
                if label.len() == 0 {
                    spec_merge_unlabeled(acc, frag)
                } else {
                    spec_merge_labeled(acc, label, frag)
                },
            ),
        }
    }
}

/// When every rule of a sheet carries the empty label, running them only
/// appends: every binding the accumulator held stands unchanged at its
/// place, and every appended binding's key is absent from all that
/// stands before it — no rule's output displaces another's.
pub proof fn lemma_run_rules_unlabeled_appends(sheet: Sheet, rules: Seq<RuleSpec>, acc: SpecObj)
    requires
        forall|i: int| 0 <= i < rules.len() ==> (#[trigger] rules[i]).1.len() == 0,
    ensures
        spec_run_rules(sheet, rules, acc) matches Ok(out) ==> {
            &&& out.len() >= acc.len()
            &&& forall|j: int| 0 <= j < acc.len() ==> out[j] == acc[j]
            &&& forall|j: int|
                acc.len() <= j < out.len() ==> !okeys(#[trigger] out.take(j)).contains(out[j].0)
        },
    decreases rules.len(),
{
    if rules.len() > 0 {
        match spec_run_rules(sheet, rules, acc) {
            Ok(out) => {
                let (kind, label, instr) = rules[0];
                match spec_rule_fragment(sheet, kind, instr) {
                    None => {
                        lemma_run_rules_unlabeled_appends(sheet, rules.drop_first(), acc);
                    },
                    Some(Err(_)) => {},
                    Some(Ok(frag)) => {
                        let acc2 = spec_merge_unlabeled(acc, frag);
                        lemma_merge_unlabeled_keeps_existing(acc, frag);
                        lemma_run_rules_unlabeled_appends(sheet, rules.drop_first(), acc2);
                        assert forall|j: int| 0 <= j < acc.len() implies out[j] == acc[j] by {
                            assert(out[j] == acc2[j]);
                        }
                        assert forall|j: int|
                            acc.len() <= j < out.len() implies !okeys(
                            #[trigger] out.take(j),
                        ).contains(out[j].0) by {
                            if j < acc2.len() {
                                assert(out.take(j) =~= acc2.take(j));
                                assert(okeys(out.take(j)) =~= okeys(acc2.take(j)));
                                assert(out[j] == acc2[j]);
                            } else {
                                assert(!okeys(out.take(j)).contains(out[j].0));
                            }
                        }
                    },
                }
            },
            Err(_) => {},
        }
    }
}

/// The selected sheets folded into the document: a missing sheet is
/// skipped; a null early-exit probe ends the sheet loop for this detail;
/// each processed sheet's results merge in under its name.
pub open spec fn spec_process_sheets(
    wb: Seq<(String, Sheet)>,
    names: Seq<Seq<char>>,
    break_addr: Option<Seq<char>>,
    rules: Seq<RuleSpec>,
    doc: SpecObj,
) -> Result<SpecObj, ErrorKind>
    decreases names.len(),
{
    if names.len() == 0 {
        Ok(doc)
    } else {
        match spec_lookup_sheet(wb, names[0]) {
            None => spec_process_sheets(wb, names.drop_first(), break_addr, rules, doc),
            Some(sheet) => {
                let probe: Result<bool, ErrorKind> = match break_addr {
                    Some(addr) => match spec_address(addr) {
                        Err(k) => Err(k),
                        Ok(rc) => match spec_extract_cell(sheet, rc.0, rc.1, false) {
                            Err(k) => Err(k),
                            Ok(Some(v)) => Ok(v is Null),
                            Ok(None) => Ok(false),
                        },
                    },
                    None => Ok(false),
                };
                match probe {
                    Err(k) => Err(k),
                    Ok(true) => Ok(doc),
                    Ok(false) => match spec_run_rules(sheet, rules, Seq::empty()) {
                        Err(k) => Err(k),
                        Ok(sheet_results) => spec_process_sheets(
                            wb,
                            names.drop_first(),
                            break_addr,
                            rules,
                            spec_merge_labeled(doc, names[0], sheet_results),
                        ),
                    },
                }
            },
        }
    }
}

/// One extraction detail folded into the document: its requested sheets
/// resolve against the workbook, its rules parse, and its sheets run.
pub open spec fn spec_process_detail(wb: Workbook, detail: SpecValue, doc: SpecObj) -> Result<
    SpecObj,
    ErrorKind,
> {
    match detail {
        SpecValue::Obj(map) => {
            match oget(map, "sheets"@) {
                None => Err(ErrorKind::SpecValidation),
                Some(sv) => match sv {
                    SpecValue::Arr(sheets_arr) => {
                        let skip = match oget(map, "skip_sheets"@) {
                            Some(SpecValue::Arr(a)) => a,
                            _ => Seq::empty(),
                        };
                        match spec_select(
                            wb.spec_sheet_names(),
                            sheets_arr,
                            skip,
                            Seq::empty(),
                        ) {
                            Err(k) => Err(k),
                            Ok(selected) => {
                                let break_addr = match oget(map, "break_if_null"@) {
                                    Some(SpecValue::Str(s)) => Some(s),
                                    _ => None,
                                };
                                match oget(map, "extractions"@) {
                                    Some(SpecValue::Arr(exts)) => match spec_parse_extractions(
                                        exts,
                                        Seq::empty(),
                                    ) {
                                        Err(k) => Err(k),
                                        Ok(rules) => spec_process_sheets(
                                            wb.sheets@,
                                            selected,
                                            break_addr,
                                            rules,
                                            doc,
                                        ),
                                    },
                                    _ => Err(ErrorKind::SpecValidation),
                                }
                            },
                        }
                    },
                    _ => Err(ErrorKind::SpecValidation),
                },
            }
        },
        _ => Err(ErrorKind::SpecValidation),
    }
}

/// The details folded left over the document.
pub open spec fn spec_process_details(wb: Workbook, details: Seq<SpecValue>, doc: SpecObj) -> Result<
    SpecObj,
    ErrorKind,
>
    decreases details.len(),
{
    if details.len() == 0 {
        Ok(doc)
    } else {
        match spec_process_detail(wb, details[0], doc) {
            Err(k) => Err(k),
            Ok(doc2) => spec_process_details(wb, details.drop_first(), doc2),
        }
    }
}

/// The document a file yields: a `filepath` entry, then every detail's
/// sheets merged in under their names.
pub open spec fn spec_process_file(path: Seq<char>, wb: Workbook, details: Seq<SpecValue>) -> Result<
    SpecObj,
    ErrorKind,
> {
    spec_process_details(wb, details, seq![("filepath"@, SpecValue::Str(path))])
}

/// Parse the `extractions` array of one detail.
fn parse_extractions(list: &Vec<Value>) -> (r: Result<
    Vec<(String, String, Vec<(String, Value)>)>,
    ExtractError,
>)
    ensures
        match r {
            Ok(rules) => spec_parse_extractions(list.deep_view(), Seq::empty()) == Ok::<
                Seq<RuleSpec>,
                ErrorKind,
            >(rules.deep_view()),
            Err(e) => spec_parse_extractions(list.deep_view(), Seq::empty()) == Err::<
                Seq<RuleSpec>,
                ErrorKind,
            >(e.kind),
        },
{
    let mut rules: Vec<(String, String, Vec<(String, Value)>)> = Vec::new();
    let mut i: usize = 0;
    proof {
        assert(list.deep_view().skip(0) =~= list.deep_view());
        assert(rules.deep_view() =~= Seq::<RuleSpec>::empty());
    }
    while i < list.len()
        invariant
            i <= list.len(),
            spec_parse_extractions(list.deep_view(), Seq::empty()) == spec_parse_extractions(
                list.deep_view().skip(i as int),
                rules.deep_view(),
            ),
        decreases list.len() - i,
    {
        let ghost rest = list.deep_view().skip(i as int);
        proof {
            assert(rest[0] == list.deep_view()[i as int]);
            assert(rest.drop_first() =~= list.deep_view().skip(i as int + 1));
        }
        let entry = match list[i].as_object() {
            Some(o) => o,
            None => {
                return Err(
                    ExtractError::new(
                        ErrorKind::SpecValidation,
                        "Each extraction should be a JSON object",
                    ),
                );
            },
        };
        let func = match obj_find(entry, "function") {
            Some(j) => match entry[j].1.as_str() {
                Some(s) => s.clone(),
                None => {
                    return Err(
                        ExtractError::new(ErrorKind::SpecValidation, "Missing 'function' key"),
                    );
                },
            },
            None => {
                return Err(ExtractError::new(ErrorKind::SpecValidation, "Missing 'function' key"));
            },
        };
        let label = match obj_find(entry, "label") {
            Some(j) => match entry[j].1.as_str() {
                Some(s) => s.clone(),
                None => String::new(),
            },
            None => String::new(),
        };
        let instr = match obj_find(entry, "instructions") {
            Some(j) => match entry[j].1.as_object() {
                Some(o) => clone_obj(o),
                None => {
                    return Err(
                        ExtractError::new(ErrorKind::SpecValidation, "Missing 'instructions' key"),
                    );
                },
            },
            None => {
                return Err(
                    ExtractError::new(ErrorKind::SpecValidation, "Missing 'instructions' key"),
                );
            },
        };
        let ghost prev = rules.deep_view();
        let ghost item = (func@, label@, instr.deep_view());
        rules.push((func, label, instr));
        proof {
            assert(rules.deep_view() =~= prev.push(item));
        }
        i = i + 1;
    }
    proof {
        assert(list.deep_view().skip(list.len() as int) =~= Seq::<SpecValue>::empty());
    }
    Ok(rules)
}

/// Run one sheet's rules and fold the fragments into its result object.
fn run_rules(sheet: &Sheet, rules: &Vec<(String, String, Vec<(String, Value)>)>) -> (r: Result<
    Vec<(String, Value)>,
    ExtractError,
>)
    ensures
        match r {
            Ok(o) => spec_run_rules(*sheet, rules.deep_view(), Seq::empty()) == Ok::<
                SpecObj,
                ErrorKind,
            >(o.deep_view()),
            Err(e) => spec_run_rules(*sheet, rules.deep_view(), Seq::empty()) == Err::<
                SpecObj,
                ErrorKind,
            >(e.kind),
        },
{
    let mut acc: Vec<(String, Value)> = Vec::new();
    let mut i: usize = 0;
    proof {
        assert(rules.deep_view().skip(0) =~= rules.deep_view());
        assert(acc.deep_view() =~= Seq::<(Seq<char>, SpecValue)>::empty());
    }
    while i < rules.len()
        invariant
            i <= rules.len(),
            spec_run_rules(*sheet, rules.deep_view(), Seq::empty()) == spec_run_rules(
                *sheet,
                rules.deep_view().skip(i as int),
                acc.deep_view(),
            ),
        decreases rules.len() - i,
    {
        let ghost rest = rules.deep_view().skip(i as int);
        proof {
            assert(rest[0] == rules.deep_view()[i as int]);
            assert(rest.drop_first() =~= rules.deep_view().skip(i as int + 1));
        }
        let (kind, label, instr) = &rules[i];
        let fragment: Option<Result<Vec<(String, Value)>, ExtractError>> = if str_eq(
            kind.as_str(),
            "single_cells",
        ) {
            Some(extract_values(sheet, instr))
        } else if str_eq(kind.as_str(), "multirow_patterns") {
            Some(extract_rows(sheet, instr))
        } else if str_eq(kind.as_str(), "dataframe") {
            Some(extract_dataframe(sheet, instr))
        } else {
            None
        };
        match fragment {
            None => {},
            Some(Err(e)) => {
                return Err(e);
            },
            Some(Ok(frag)) => {
                if label.unicode_len() == 0 {
                    proof {
                        assert(label@.len() == 0);
                    }
                    merge_unlabeled(&mut acc, frag);
                } else {
                    merge_labeled(&mut acc, label, frag);
                }
            },
        }
        i = i + 1;
    }
    proof {
        assert(rules.deep_view().skip(rules.len() as int) =~= Seq::<RuleSpec>::empty());
    }
    Ok(acc)
}

/// Fold the selected sheets of one detail into the document.
fn process_sheets(
    workbook: &Workbook,
    names: &Vec<String>,
    break_addr: Option<&String>,
    rules: &Vec<(String, String, Vec<(String, Value)>)>,
    doc: Vec<(String, Value)>,
) -> (r: Result<Vec<(String, Value)>, ExtractError>)
    ensures
        match r {
            Ok(o) => spec_process_sheets(
                workbook.sheets@,
                names.deep_view(),
                match break_addr {
                    Some(s) => Some(s@),
                    None => None,
                },
                rules.deep_view(),
                doc.deep_view(),
            ) == Ok::<SpecObj, ErrorKind>(o.deep_view()),
            Err(e) => spec_process_sheets(
                workbook.sheets@,
                names.deep_view(),
                match break_addr {
                    Some(s) => Some(s@),
                    None => None,
                },
                rules.deep_view(),
                doc.deep_view(),
            ) == Err::<SpecObj, ErrorKind>(e.kind),
        },
{
    let ghost doc0 = doc.deep_view();
    let ghost baddr: Option<Seq<char>> = match break_addr {
        Some(s) => Some(s@),
        None => None,
    };
    let mut doc = doc;
    let mut i: usize = 0;
    proof {
        assert(names.deep_view().skip(0) =~= names.deep_view());
    }
    while i < names.len()
        invariant
            i <= names.len(),
            spec_process_sheets(
                workbook.sheets@,
                names.deep_view(),
                baddr,
                rules.deep_view(),
                doc0,
            ) == spec_process_sheets(
                workbook.sheets@,
                names.deep_view().skip(i as int),
                baddr,
                rules.deep_view(),
                doc.deep_view(),
            ),
        decreases names.len() - i,
    {
        let ghost rest = names.deep_view().skip(i as int);
        proof {
            assert(rest[0] == names.deep_view()[i as int]);
            assert(rest.drop_first() =~= names.deep_view().skip(i as int + 1));
        }
        let name = &names[i];
        match workbook.sheet(name.as_str()) {
            None => {},
            Some(sheet) => {
                // the early-exit probe
                match break_addr {
                    Some(addr) => {
                        let rc = match address_to_row_col(addr.as_str()) {
                            Ok(rc) => rc,
                            Err(e) => {
                                return Err(e);
                            },
                        };
                        match extract_cell_value(sheet, rc.0, rc.1, false) {
                            Err(e) => {
                                return Err(e);
                            },
                            Ok(Some(v)) => {
                                if v.is_null() {
                                    return Ok(doc);
                                }
                            },
                            Ok(None) => {},
                        }
                    },
                    None => {},
                }
                let sheet_results = match run_rules(sheet, rules) {
                    Ok(o) => o,
                    Err(e) => {
                        return Err(e);
                    },
                };
                merge_labeled(&mut doc, name, sheet_results);
            },
        }
        i = i + 1;
    }
    proof {
        assert(names.deep_view().skip(names.len() as int) =~= Seq::<Seq<char>>::empty());
    }
    Ok(doc)
}

/// Process one opened workbook under the extraction details: the returned
/// document holds the file path and one entry per processed sheet.
pub fn process_file(file_path: &String, workbook: &Workbook, extraction_details: &Vec<Value>) -> (r:
    Result<Value, ExtractError>)
    ensures
        match r {
            Ok(v) => spec_process_file(file_path@, *workbook, extraction_details.deep_view())
                == Ok::<SpecObj, ErrorKind>(v.dv()->Obj_0) && v.dv() is Obj,
            Err(e) => spec_process_file(file_path@, *workbook, extraction_details.deep_view())
                == Err::<SpecObj, ErrorKind>(e.kind),
        },
{
    let mut doc: Vec<(String, Value)> = Vec::new();
    doc.push(("filepath".to_owned(), Value::Str(file_path.clone())));
    proof {
        assert(doc.deep_view() =~= seq![("filepath"@, SpecValue::Str(file_path@))]);
        assert(extraction_details.deep_view().skip(0) =~= extraction_details.deep_view());
    }
    let mut i: usize = 0;
    while i < extraction_details.len()
        invariant
            i <= extraction_details.len(),
            spec_process_details(
                *workbook,
                extraction_details.deep_view(),
                seq![("filepath"@, SpecValue::Str(file_path@))],
            ) == spec_process_details(
                *workbook,
                extraction_details.deep_view().skip(i as int),
                doc.deep_view(),
            ),
        decreases extraction_details.len() - i,
    {
        let ghost rest = extraction_details.deep_view().skip(i as int);
        proof {
            assert(rest[0] == extraction_details.deep_view()[i as int]);
            assert(rest.drop_first() =~= extraction_details.deep_view().skip(i as int + 1));
        }
        let detail = &extraction_details[i];
        let map = match detail.as_object() {
            Some(o) => o,
            None => {
                return Err(
                    ExtractError::new(
                        ErrorKind::SpecValidation,
                        "Extraction detail should be a JSON object",
                    ),
                );
            },
        };
        let sheets_arr = match obj_find(map, "sheets") {
            Some(j) => match map[j].1.as_array() {
                Some(a) => a,
                None => {
                    return Err(
                        ExtractError::new(
                            ErrorKind::SpecValidation,
                            "Invalid \"sheets\" value in extraction details",
                        ),
                    );
                },
            },
            None => {
                return Err(
                    ExtractError::new(
                        ErrorKind::SpecValidation,
                        "Missing \"sheets\" key in extraction details",
                    ),
                );
            },
        };
        let empty_skip: Vec<Value> = Vec::new();
        let skip: &Vec<Value> = match obj_find(map, "skip_sheets") {
            Some(j) => match map[j].1.as_array() {
                Some(a) => a,
                None => &empty_skip,
            },
            None => &empty_skip,
        };
        proof {
            assert(empty_skip.deep_view() =~= Seq::<SpecValue>::empty());
        }
        let wb_names = workbook.sheet_names();
        let selected = match select_sheets(&wb_names, sheets_arr, skip) {
            Ok(v) => v,
            Err(e) => {
                return Err(e);
            },
        };
        let break_addr: Option<&String> = match obj_find(map, "break_if_null") {
            Some(j) => match map[j].1.as_str() {
                Some(s) => Some(s),
                None => None,
            },
            None => None,
        };
        let exts = match obj_find(map, "extractions") {
            Some(j) => match map[j].1.as_array() {
                Some(a) => a,
                None => {
                    return Err(
                        ExtractError::new(
                            ErrorKind::SpecValidation,
                            "Missing or invalid \"extractions\" key in extraction details",
                        ),
                    );
                },
            },
            None => {
                return Err(
                    ExtractError::new(
                        ErrorKind::SpecValidation,
                        "Missing or invalid \"extractions\" key in extraction details",
                    ),
                );
            },
        };
        let rules = match parse_extractions(exts) {
            Ok(rules) => rules,
            Err(e) => {
                return Err(e);
            },
        };
        doc = match process_sheets(workbook, &selected, break_addr, &rules, doc) {
            Ok(d) => d,
            Err(e) => {
                return Err(e);
            },
        };
        i = i + 1;
    }
    proof {
        assert(extraction_details.deep_view().skip(extraction_details.len() as int) =~= Seq::<
            SpecValue,
        >::empty());
    }
    let res = Value::Obj(doc);
    proof {
        assert(res.dv()->Obj_0 =~= res->Obj_0.deep_view());
    }
    Ok(res)
}

} // verus!
