use sheet_excavator::assemble::{fresh_key, merge_labeled, merge_unlabeled};
use sheet_excavator::batch::{insert_file_result, process_batch};
use sheet_excavator::process::process_file;
use sheet_excavator::sheet::{CellValue, Sheet, Workbook};
use sheet_excavator::sheets::{extend_unique, match_sheet_names, select_sheets};
use sheet_excavator::values::{ErrorKind, Value};

fn s(text: &str) -> CellValue {
    CellValue::Str(text.to_string())
}

fn one_cell_sheet(text: &str) -> Sheet {
    Sheet { start_row: 0, start_col: 0, rows: vec![vec![s(text)]] }
}

fn names(list: &[&str]) -> Vec<String> {
    list.iter().map(|n| n.to_string()).collect()
}

fn str_values(list: &[&str]) -> Vec<Value> {
    list.iter().map(|n| Value::Str(n.to_string())).collect()
}

fn single_cells_detail(field: &str, addr: &str, sheets: &[&str]) -> Value {
    Value::Obj(vec![
        ("sheets".to_string(), Value::Arr(str_values(sheets))),
        (
            "extractions".to_string(),
            Value::Arr(vec![Value::Obj(vec![
                ("function".to_string(), Value::Str("single_cells".to_string())),
                (
                    "instructions".to_string(),
                    Value::Obj(vec![(field.to_string(), Value::Str(addr.to_string()))]),
                ),
            ])]),
        ),
    ])
}

#[test]
fn wildcard_matches_suffix() {
    let all = names(&["Jan", "Feb", "Summary"]);
    assert_eq!(match_sheet_names(&all, "*an"), names(&["Jan"]));
}

#[test]
fn wildcard_star_matches_everything_in_order() {
    let all = names(&["Jan", "Feb", "Summary"]);
    assert_eq!(match_sheet_names(&all, "*"), all);
}

#[test]
fn wildcard_prefix_and_infix() {
    let all = names(&["data_1", "data_2", "other"]);
    assert_eq!(match_sheet_names(&all, "data*"), names(&["data_1", "data_2"]));
    assert_eq!(match_sheet_names(&all, "d*2"), names(&["data_2"]));
    assert_eq!(match_sheet_names(&all, "d**2"), names(&["data_2"]));
}

#[test]
fn select_sheets_applies_skip_list() {
    let all = names(&["Jan", "Feb", "Summary"]);
    let requested = str_values(&["*"]);
    let skip = str_values(&["Summary"]);
    assert_eq!(select_sheets(&all, &requested, &skip).unwrap(), names(&["Jan", "Feb"]));
}

#[test]
fn select_sheets_dedupes_and_keeps_literals() {
    let all = names(&["Jan", "Feb"]);
    let requested = str_values(&["Jan", "*an", "Ghost"]);
    let skip = Vec::new();
    // a literal need not exist in the workbook; duplicates collapse
    assert_eq!(select_sheets(&all, &requested, &skip).unwrap(), names(&["Jan", "Ghost"]));
}

#[test]
fn select_sheets_rejects_non_string_patterns() {
    let all = names(&["Jan"]);
    let requested = vec![Value::Int(3)];
    let skip = Vec::new();
    assert_eq!(
        select_sheets(&all, &requested, &skip).unwrap_err().kind,
        ErrorKind::SpecValidation
    );
}

#[test]
fn extend_unique_keeps_first_occurrence() {
    let mut v = names(&["a", "b"]);
    extend_unique(&mut v, "a".to_string());
    extend_unique(&mut v, "c".to_string());
    assert_eq!(v, names(&["a", "b", "c"]));
}

#[test]
fn fresh_key_suffixes_numerically() {
    let entries = vec![
        ("total".to_string(), Value::Int(1)),
        ("total_1".to_string(), Value::Int(2)),
    ];
    assert_eq!(fresh_key(&entries, &"total".to_string()), "total_2");
    assert_eq!(fresh_key(&entries, &"other".to_string()), "other");
}

#[test]
fn unlabeled_merge_preserves_both_values() {
    let mut results = Vec::new();
    merge_unlabeled(&mut results, vec![("total".to_string(), Value::Int(1))]);
    merge_unlabeled(&mut results, vec![("total".to_string(), Value::Int(2))]);
    let out = Value::Obj(results);
    let expected = Value::Obj(vec![
        ("total".to_string(), Value::Int(1)),
        ("total_1".to_string(), Value::Int(2)),
    ]);
    assert!(out.deep_eq(&expected));
}

#[test]
fn labeled_merge_overwrites_shared_keys() {
    let mut results = Vec::new();
    let label = "meta".to_string();
    merge_labeled(
        &mut results,
        &label,
        vec![
            ("a".to_string(), Value::Int(1)),
            ("b".to_string(), Value::Int(2)),
        ],
    );
    merge_labeled(&mut results, &label, vec![("b".to_string(), Value::Int(3))]);
    let out = Value::Obj(results);
    let expected = Value::Obj(vec![(
        "meta".to_string(),
        Value::Obj(vec![
            ("a".to_string(), Value::Int(1)),
            ("b".to_string(), Value::Int(3)),
        ]),
    )]);
    assert!(out.deep_eq(&expected));
}

#[test]
fn labeled_merge_replaces_non_object_value() {
    let mut results = vec![("meta".to_string(), Value::Int(9))];
    let label = "meta".to_string();
    merge_labeled(&mut results, &label, vec![("a".to_string(), Value::Int(1))]);
    let out = Value::Obj(results);
    let expected = Value::Obj(vec![(
        "meta".to_string(),
        Value::Obj(vec![("a".to_string(), Value::Int(1))]),
    )]);
    assert!(out.deep_eq(&expected));
}

fn two_sheet_workbook(a1_first: &str, a1_second: &str) -> Workbook {
    Workbook {
        sheets: vec![
            ("Alpha".to_string(), one_cell_sheet(a1_first)),
            ("Beta".to_string(), one_cell_sheet(a1_second)),
        ],
    }
}

#[test]
fn process_file_builds_document() {
    let wb = two_sheet_workbook("first", "second");
    let details = vec![single_cells_detail("name", "A1", &["*"])];
    let path = "files/demo.xlsx".to_string();
    let doc = process_file(&path, &wb, &details).unwrap();
    let expected = Value::Obj(vec![
        ("filepath".to_string(), Value::Str(path.clone())),
        (
            "Alpha".to_string(),
            Value::Obj(vec![("name".to_string(), Value::Str("first".to_string()))]),
        ),
        (
            "Beta".to_string(),
            Value::Obj(vec![("name".to_string(), Value::Str("second".to_string()))]),
        ),
    ]);
    assert!(doc.deep_eq(&expected));
}

#[test]
fn process_file_skips_missing_sheets_and_unknown_rules() {
    let wb = two_sheet_workbook("x", "y");
    let details = vec![Value::Obj(vec![
        (
            "sheets".to_string(),
            Value::Arr(str_values(&["Alpha", "Ghost"])),
        ),
        (
            "extractions".to_string(),
            Value::Arr(vec![Value::Obj(vec![
                ("function".to_string(), Value::Str("bogus".to_string())),
                ("instructions".to_string(), Value::Obj(vec![])),
            ])]),
        ),
    ])];
    let path = "p.xlsx".to_string();
    let doc = process_file(&path, &wb, &details).unwrap();
    let expected = Value::Obj(vec![
        ("filepath".to_string(), Value::Str(path.clone())),
        ("Alpha".to_string(), Value::Obj(vec![])),
    ]);
    assert!(doc.deep_eq(&expected));
}

#[test]
fn process_file_break_if_null_stops_sheet_loop() {
    let wb = Workbook {
        sheets: vec![
            (
                "Alpha".to_string(),
                Sheet { start_row: 0, start_col: 0, rows: vec![vec![CellValue::Empty, s("v")]] },
            ),
            ("Beta".to_string(), one_cell_sheet("w")),
        ],
    };
    let mut detail = single_cells_detail("name", "B1", &["*"]);
    if let Value::Obj(entries) = &mut detail {
        entries.push(("break_if_null".to_string(), Value::Str("A1".to_string())));
    }
    let path = "p.xlsx".to_string();
    let doc = process_file(&path, &wb, &vec![detail]).unwrap();
    // the first sheet's probe cell is empty: no sheet is processed
    let expected = Value::Obj(vec![("filepath".to_string(), Value::Str(path.clone()))]);
    assert!(doc.deep_eq(&expected));
}

#[test]
fn process_file_break_probe_ignores_missing_cell() {
    let wb = Workbook { sheets: vec![("Alpha".to_string(), one_cell_sheet("v"))] };
    let mut detail = single_cells_detail("name", "A1", &["Alpha"]);
    if let Value::Obj(entries) = &mut detail {
        entries.push(("break_if_null".to_string(), Value::Str("Z99".to_string())));
    }
    let path = "p.xlsx".to_string();
    let doc = process_file(&path, &wb, &vec![detail]).unwrap();
    let expected = Value::Obj(vec![
        ("filepath".to_string(), Value::Str(path.clone())),
        (
            "Alpha".to_string(),
            Value::Obj(vec![("name".to_string(), Value::Str("v".to_string()))]),
        ),
    ]);
    assert!(doc.deep_eq(&expected));
}

#[test]
fn process_file_repeated_sheet_merges_at_top_level() {
    let wb = Workbook { sheets: vec![("Alpha".to_string(), one_cell_sheet("v"))] };
    let details = vec![
        single_cells_detail("first", "A1", &["Alpha"]),
        single_cells_detail("second", "A1", &["Alpha"]),
    ];
    let path = "p.xlsx".to_string();
    let doc = process_file(&path, &wb, &details).unwrap();
    let expected = Value::Obj(vec![
        ("filepath".to_string(), Value::Str(path.clone())),
        (
            "Alpha".to_string(),
            Value::Obj(vec![
                ("first".to_string(), Value::Str("v".to_string())),
                ("second".to_string(), Value::Str("v".to_string())),
            ]),
        ),
    ]);
    assert!(doc.deep_eq(&expected));
}

#[test]
fn process_file_propagates_cell_errors() {
    let wb = Workbook {
        sheets: vec![(
            "Alpha".to_string(),
            Sheet { start_row: 0, start_col: 0, rows: vec![vec![CellValue::Error]] },
        )],
    };
    let details = vec![single_cells_detail("v", "A1", &["Alpha"])];
    let path = "p.xlsx".to_string();
    assert_eq!(process_file(&path, &wb, &details).unwrap_err().kind, ErrorKind::CellError);
}

#[test]
fn process_file_rejects_malformed_details() {
    let wb = Workbook { sheets: vec![("Alpha".to_string(), one_cell_sheet("v"))] };
    let path = "p.xlsx".to_string();
    let no_sheets = vec![Value::Obj(vec![(
        "extractions".to_string(),
        Value::Arr(vec![]),
    )])];
    assert_eq!(
        process_file(&path, &wb, &no_sheets).unwrap_err().kind,
        ErrorKind::SpecValidation
    );
    let not_an_object = vec![Value::Int(1)];
    assert_eq!(
        process_file(&path, &wb, &not_an_object).unwrap_err().kind,
        ErrorKind::SpecValidation
    );
}

#[test]
fn batch_filename_collision_suffixes() {
    let files = vec![
        ("a/report.xlsx".to_string(), Workbook { sheets: vec![("S".to_string(), one_cell_sheet("1"))] }),
        ("b/report.xlsx".to_string(), Workbook { sheets: vec![("S".to_string(), one_cell_sheet("2"))] }),
    ];
    let details = vec![single_cells_detail("v", "A1", &["S"])];
    let out = process_batch(&files, &details).unwrap();
    assert_eq!(out.len(), 2);
    assert_eq!(out[0].0, "report");
    assert_eq!(out[1].0, "report_1");
}

#[test]
fn batch_three_files_two_sheets_each() {
    let files = vec![
        ("one.xlsx".to_string(), two_sheet_workbook("a", "b")),
        ("two.xlsx".to_string(), two_sheet_workbook("c", "d")),
        ("three.xlsx".to_string(), two_sheet_workbook("e", "f")),
    ];
    let details = vec![single_cells_detail("name", "A1", &["*"])];
    let out = process_batch(&files, &details).unwrap();
    assert_eq!(out.len(), 3);
    assert_eq!(out[0].0, "one");
    assert_eq!(out[1].0, "two");
    assert_eq!(out[2].0, "three");
    for (_, doc) in &out {
        let entries = match doc {
            Value::Obj(entries) => entries,
            _ => panic!("document is not an object"),
        };
        assert_eq!(entries.len(), 3);
        assert_eq!(entries[0].0, "filepath");
        assert_eq!(entries[1].0, "Alpha");
        assert_eq!(entries[2].0, "Beta");
    }
}

#[test]
fn batch_failure_aborts_whole_invocation() {
    let files = vec![
        ("good.xlsx".to_string(), two_sheet_workbook("a", "b")),
        (
            "bad.xlsx".to_string(),
            Workbook {
                sheets: vec![(
                    "Alpha".to_string(),
                    Sheet { start_row: 0, start_col: 0, rows: vec![vec![CellValue::Error]] },
                )],
            },
        ),
    ];
    let details = vec![single_cells_detail("v", "A1", &["Alpha"])];
    assert_eq!(process_batch(&files, &details).unwrap_err().kind, ErrorKind::CellError);
}

#[test]
fn insert_keys_by_processed_path() {
    let mut results = Vec::new();
    // the document's own entries play no part in the key
    insert_file_result(&mut results, "x/y.xlsx", Value::Obj(vec![]));
    assert_eq!(results.len(), 1);
    assert_eq!(results[0].0, "y");
    insert_file_result(
        &mut results,
        "z/y.xlsx",
        Value::Obj(vec![("filepath".to_string(), Value::Str("other".to_string()))]),
    );
    assert_eq!(results.len(), 2);
    assert_eq!(results[1].0, "y_1");
}

#[test]
fn batch_keeps_file_whose_sheet_shadows_filepath() {
    // a sheet literally named `filepath` overwrites the document entry,
    // but the batch key comes from the processed path
    let wb = Workbook { sheets: vec![("filepath".to_string(), one_cell_sheet("v"))] };
    let files = vec![("dir/data.xlsx".to_string(), wb)];
    let details = vec![single_cells_detail("name", "A1", &["filepath"])];
    let out = process_batch(&files, &details).unwrap();
    assert_eq!(out.len(), 1);
    assert_eq!(out[0].0, "data");
}

#[test]
fn string_ids_render_with_json_escapes() {
    let sheet = Sheet {
        start_row: 0,
        start_col: 0,
        rows: vec![vec![s("a\"b"), CellValue::Int(1)]],
    };
    let instructions = vec![
        (
            "row_range".to_string(),
            Value::Arr(vec![Value::Int(1), Value::Int(1)]),
        ),
        (
            "columns".to_string(),
            Value::Obj(vec![("v".to_string(), Value::Str("B".to_string()))]),
        ),
        ("unique_id".to_string(), Value::Str("A".to_string())),
    ];
    let out = sheet_excavator::multirow_patterns::extract_rows(&sheet, &instructions).unwrap();
    assert_eq!(out[0].0, "\"a\\\"b\"");
}

#[test]
fn skip_list_ignores_non_string_entries() {
    let all = names(&["Jan", "Feb"]);
    let requested = str_values(&["*"]);
    let skip = vec![Value::Int(1), Value::Str("Feb".to_string())];
    assert_eq!(select_sheets(&all, &requested, &skip).unwrap(), names(&["Jan"]));
}

#[test]
fn value_dup_copies_structurally() {
    let original = Value::Obj(vec![
        ("k".to_string(), Value::Arr(vec![Value::Int(1), Value::Str("s".to_string())])),
        ("n".to_string(), Value::Null),
    ]);
    let copy = original.dup();
    assert!(copy.deep_eq(&original));
}
