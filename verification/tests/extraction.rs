use sheet_excavator::dataframe::extract_dataframe;
use sheet_excavator::manipulations::extract_cell_value;
use sheet_excavator::multirow_patterns::extract_rows;
use sheet_excavator::sheet::{CellValue, Sheet};
use sheet_excavator::single_cells::extract_values;
use sheet_excavator::values::{ErrorKind, Value};

fn sheet_of(rows: Vec<Vec<CellValue>>) -> Sheet {
    Sheet { start_row: 0, start_col: 0, rows }
}

fn s(text: &str) -> CellValue {
    CellValue::Str(text.to_string())
}

#[test]
fn coerce_int_and_trimmed_string() {
    let sheet = sheet_of(vec![vec![CellValue::Int(42), s("  padded  ")]]);
    let v = extract_cell_value(&sheet, 1, 0, false).unwrap().unwrap();
    assert!(v.deep_eq(&Value::Int(42)));
    let v = extract_cell_value(&sheet, 1, 1, false).unwrap().unwrap();
    assert!(v.deep_eq(&Value::Str("padded".to_string())));
}

#[test]
fn coerce_empty_missing_and_row_zero() {
    let sheet = sheet_of(vec![vec![CellValue::Empty]]);
    let v = extract_cell_value(&sheet, 1, 0, false).unwrap().unwrap();
    assert!(v.deep_eq(&Value::Null));
    assert!(extract_cell_value(&sheet, 5, 0, false).unwrap().is_none());
    assert!(extract_cell_value(&sheet, 0, 0, false).unwrap().is_none());
}

#[test]
fn coerce_failures() {
    let sheet = sheet_of(vec![vec![
        CellValue::Error,
        CellValue::Float { repr: "NaN".to_string(), finite: false },
        CellValue::Unsupported,
    ]]);
    assert_eq!(extract_cell_value(&sheet, 1, 0, false).unwrap_err().kind, ErrorKind::CellError);
    assert_eq!(
        extract_cell_value(&sheet, 1, 1, false).unwrap_err().kind,
        ErrorKind::InvalidNumber
    );
    assert_eq!(
        extract_cell_value(&sheet, 1, 2, false).unwrap_err().kind,
        ErrorKind::UnsupportedType
    );
}

#[test]
fn coerce_date_duration_and_float() {
    let sheet = sheet_of(vec![vec![
        CellValue::DateTime { days: 1, secs: 0 },
        CellValue::DurationIso("PT1H30M".to_string()),
        CellValue::Float { repr: "2.5".to_string(), finite: true },
    ]]);
    let v = extract_cell_value(&sheet, 1, 0, false).unwrap().unwrap();
    assert!(v.deep_eq(&Value::Str("1899-12-31 00:00:00".to_string())));
    let v = extract_cell_value(&sheet, 1, 1, false).unwrap().unwrap();
    assert!(v.deep_eq(&Value::Str("PT1H30M".to_string())));
    let v = extract_cell_value(&sheet, 1, 2, false).unwrap().unwrap();
    assert!(v.deep_eq(&Value::Num("2.5".to_string())));
}

#[test]
fn forced_string_forms() {
    let sheet = sheet_of(vec![vec![
        CellValue::Bool(true),
        CellValue::Int(42),
        CellValue::Empty,
        CellValue::Int(-7),
    ]]);
    let v = extract_cell_value(&sheet, 1, 0, true).unwrap().unwrap();
    assert!(v.deep_eq(&Value::Str("true".to_string())));
    let v = extract_cell_value(&sheet, 1, 1, true).unwrap().unwrap();
    assert!(v.deep_eq(&Value::Str("42".to_string())));
    let v = extract_cell_value(&sheet, 1, 2, true).unwrap().unwrap();
    assert!(v.deep_eq(&Value::Str("Null".to_string())));
    let v = extract_cell_value(&sheet, 1, 3, true).unwrap().unwrap();
    assert!(v.deep_eq(&Value::Str("-7".to_string())));
}

#[test]
fn single_cells_scalar_and_missing() {
    let sheet = sheet_of(vec![vec![s("hello")]]);
    let instructions = vec![
        ("name".to_string(), Value::Str("A1".to_string())),
        ("absent".to_string(), Value::Str("C9".to_string())),
    ];
    let out = Value::Obj(extract_values(&sheet, &instructions).unwrap());
    let expected = Value::Obj(vec![
        ("name".to_string(), Value::Str("hello".to_string())),
        ("absent".to_string(), Value::Null),
    ]);
    assert!(out.deep_eq(&expected));
}

#[test]
fn single_cells_array_drops_nulls() {
    let sheet = sheet_of(vec![vec![s("x"), CellValue::Empty], vec![CellValue::Int(9)]]);
    let instructions = vec![(
        "vals".to_string(),
        Value::Arr(vec![
            Value::Str("A1".to_string()),
            Value::Str("B1".to_string()),
            Value::Str("D7".to_string()),
            Value::Obj(vec![
                ("row".to_string(), Value::Int(2)),
                ("col".to_string(), Value::Int(0)),
            ]),
        ]),
    )];
    let out = Value::Obj(extract_values(&sheet, &instructions).unwrap());
    let expected = Value::Obj(vec![(
        "vals".to_string(),
        Value::Arr(vec![Value::Str("x".to_string()), Value::Int(9)]),
    )]);
    assert!(out.deep_eq(&expected));
}

#[test]
fn single_cells_rejects_other_shapes() {
    let sheet = sheet_of(vec![vec![s("x")]]);
    let instructions = vec![("bad".to_string(), Value::Int(3))];
    assert_eq!(
        extract_values(&sheet, &instructions).unwrap_err().kind,
        ErrorKind::SpecValidation
    );
}

fn multirow_instructions() -> Vec<(String, Value)> {
    vec![
        (
            "row_range".to_string(),
            Value::Arr(vec![Value::Int(1), Value::Int(3)]),
        ),
        (
            "columns".to_string(),
            Value::Obj(vec![
                ("amount".to_string(), Value::Str("B".to_string())),
                (
                    "notes".to_string(),
                    Value::Arr(vec![
                        Value::Str("C".to_string()),
                        Value::Str("D".to_string()),
                    ]),
                ),
            ]),
        ),
        ("unique_id".to_string(), Value::Str("A".to_string())),
    ]
}

#[test]
fn multirow_skips_null_ids_and_suffixes_collisions() {
    let sheet = sheet_of(vec![
        vec![s("a"), CellValue::Int(1), s("n1"), s("n2")],
        vec![CellValue::Empty, CellValue::Int(2), s("won't"), s("appear")],
        vec![s("a"), CellValue::Int(3), CellValue::Empty, CellValue::Empty],
    ]);
    let out = Value::Obj(extract_rows(&sheet, &multirow_instructions()).unwrap());
    let expected = Value::Obj(vec![
        (
            "\"a\"".to_string(),
            Value::Obj(vec![
                ("amount".to_string(), Value::Int(1)),
                (
                    "notes".to_string(),
                    Value::Arr(vec![
                        Value::Str("n1".to_string()),
                        Value::Str("n2".to_string()),
                    ]),
                ),
            ]),
        ),
        (
            "\"a\"_1".to_string(),
            Value::Obj(vec![
                ("amount".to_string(), Value::Int(3)),
                ("notes".to_string(), Value::Arr(vec![])),
            ]),
        ),
    ]);
    assert!(out.deep_eq(&expected));
}

#[test]
fn multirow_integer_id_key() {
    let sheet = sheet_of(vec![vec![CellValue::Int(7), s("x")]]);
    let instructions = vec![
        (
            "row_range".to_string(),
            Value::Arr(vec![Value::Int(1), Value::Int(1)]),
        ),
        (
            "columns".to_string(),
            Value::Obj(vec![("v".to_string(), Value::Str("B".to_string()))]),
        ),
        ("unique_id".to_string(), Value::Str("A".to_string())),
    ];
    let out = extract_rows(&sheet, &instructions).unwrap();
    assert_eq!(out.len(), 1);
    assert_eq!(out[0].0, "7");
}

#[test]
fn multirow_missing_fields_fail() {
    let sheet = sheet_of(vec![vec![s("a")]]);
    let instructions = vec![(
        "row_range".to_string(),
        Value::Arr(vec![Value::Int(1), Value::Int(1)]),
    )];
    assert_eq!(
        extract_rows(&sheet, &instructions).unwrap_err().kind,
        ErrorKind::SpecValidation
    );
}

#[test]
fn dataframe_headers_and_columns() {
    let sheet = sheet_of(vec![
        vec![s("Col\nOne"), s("Col Two")],
        vec![s("alpha"), CellValue::Int(1)],
        vec![s("beta"), CellValue::Empty],
    ]);
    let instructions = vec![
        (
            "row_range".to_string(),
            Value::Arr(vec![Value::Int(2), Value::Int(3)]),
        ),
        (
            "column_range".to_string(),
            Value::Arr(vec![Value::Str("A".to_string()), Value::Str("B".to_string())]),
        ),
        ("header_row".to_string(), Value::Int(1)),
    ];
    let out = Value::Obj(extract_dataframe(&sheet, &instructions).unwrap());
    let expected = Value::Obj(vec![
        (
            "Col One".to_string(),
            Value::Arr(vec![
                Value::Str("alpha".to_string()),
                Value::Str("beta".to_string()),
            ]),
        ),
        (
            "Col Two".to_string(),
            Value::Arr(vec![Value::Int(1), Value::Null]),
        ),
    ]);
    assert!(out.deep_eq(&expected));
}

#[test]
fn dataframe_multi_header_rows_with_separator() {
    let sheet = sheet_of(vec![
        vec![s("Top")],
        vec![s("Bottom")],
        vec![CellValue::Int(5)],
    ]);
    let instructions = vec![
        (
            "row_range".to_string(),
            Value::Arr(vec![Value::Int(3), Value::Int(3)]),
        ),
        (
            "column_range".to_string(),
            Value::Arr(vec![Value::Int(0), Value::Int(0)]),
        ),
        (
            "header_row".to_string(),
            Value::Arr(vec![Value::Int(1), Value::Int(2)]),
        ),
        ("separator".to_string(), Value::Str("|".to_string())),
    ];
    let out = extract_dataframe(&sheet, &instructions).unwrap();
    assert_eq!(out.len(), 1);
    assert_eq!(out[0].0, "Top|Bottom");
}

#[test]
fn dataframe_missing_header_cell_reads_null() {
    let sheet = sheet_of(vec![vec![s("only")]]);
    let instructions = vec![
        (
            "row_range".to_string(),
            Value::Arr(vec![Value::Int(1), Value::Int(1)]),
        ),
        (
            "column_range".to_string(),
            Value::Arr(vec![Value::Int(1), Value::Int(1)]),
        ),
        ("header_row".to_string(), Value::Int(9)),
    ];
    let out = extract_dataframe(&sheet, &instructions).unwrap();
    assert_eq!(out[0].0, "Null");
}

#[test]
fn dataframe_requires_column_range() {
    let sheet = sheet_of(vec![vec![s("x")]]);
    let instructions = vec![
        (
            "row_range".to_string(),
            Value::Arr(vec![Value::Int(1), Value::Int(1)]),
        ),
        ("header_row".to_string(), Value::Int(1)),
    ];
    assert_eq!(
        extract_dataframe(&sheet, &instructions).unwrap_err().kind,
        ErrorKind::SpecValidation
    );
}

#[test]
fn multirow_list_fields_stay_arrays() {
    // a field given as a list of letters is an array even with one hit;
    // a field given as one letter is a scalar, null when the cell is empty
    let sheet = sheet_of(vec![vec![s("id"), CellValue::Int(5), CellValue::Empty]]);
    let instructions = vec![
        (
            "row_range".to_string(),
            Value::Arr(vec![Value::Int(1), Value::Int(1)]),
        ),
        (
            "columns".to_string(),
            Value::Obj(vec![
                (
                    "listed".to_string(),
                    Value::Arr(vec![Value::Str("B".to_string()), Value::Str("C".to_string())]),
                ),
                ("single".to_string(), Value::Str("C".to_string())),
            ]),
        ),
        ("unique_id".to_string(), Value::Str("A".to_string())),
    ];
    let out = Value::Obj(extract_rows(&sheet, &instructions).unwrap());
    let expected = Value::Obj(vec![(
        "\"id\"".to_string(),
        Value::Obj(vec![
            ("listed".to_string(), Value::Arr(vec![Value::Int(5)])),
            ("single".to_string(), Value::Null),
        ]),
    )]);
    assert!(out.deep_eq(&expected));
}

#[test]
fn single_cells_scalar_explicit_object() {
    let sheet = sheet_of(vec![vec![s("x")], vec![CellValue::Int(9)]]);
    let instructions = vec![(
        "spot".to_string(),
        Value::Obj(vec![
            ("row".to_string(), Value::Int(2)),
            ("col".to_string(), Value::Int(0)),
        ]),
    )];
    let out = Value::Obj(extract_values(&sheet, &instructions).unwrap());
    let expected = Value::Obj(vec![("spot".to_string(), Value::Int(9))]);
    assert!(out.deep_eq(&expected));
}
