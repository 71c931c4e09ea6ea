use sheet_excavator::batch::progress_estimate;
use sheet_excavator::conversions::{
    address_to_row_col, column_name_to_index, excel_datetime, extract_filename,
};
use sheet_excavator::values::ErrorKind;

fn serial_parts(serial: f64) -> (i64, u32) {
    let days = serial.floor() as i64;
    let frac = serial - serial.floor();
    let secs = (frac * 86400.0).round() as u32;
    (days, secs)
}

#[test]
fn column_single_letters() {
    assert_eq!(column_name_to_index("A").unwrap(), 0);
    assert_eq!(column_name_to_index("Z").unwrap(), 25);
}

#[test]
fn column_multi_letters() {
    assert_eq!(column_name_to_index("AA").unwrap(), 26);
    assert_eq!(column_name_to_index("AB").unwrap(), 27);
    assert_eq!(column_name_to_index("BA").unwrap(), 52);
}

#[test]
fn column_lower_case() {
    assert_eq!(column_name_to_index("a").unwrap(), 0);
    assert_eq!(column_name_to_index("aa").unwrap(), 26);
}

#[test]
fn column_rejects_bad_names() {
    assert_eq!(column_name_to_index("").unwrap_err().kind, ErrorKind::InvalidAddress);
    assert_eq!(column_name_to_index("A1").unwrap_err().kind, ErrorKind::InvalidAddress);
    assert_eq!(column_name_to_index("*").unwrap_err().kind, ErrorKind::InvalidAddress);
}

#[test]
fn address_basic() {
    assert_eq!(address_to_row_col("A1").unwrap(), (1, 0));
    assert_eq!(address_to_row_col("B12").unwrap(), (12, 1));
    assert_eq!(address_to_row_col("AA7").unwrap(), (7, 26));
}

#[test]
fn address_lower_case() {
    assert_eq!(address_to_row_col("b3").unwrap(), (3, 1));
}

#[test]
fn address_rejects_bad_references() {
    assert_eq!(address_to_row_col("ABC").unwrap_err().kind, ErrorKind::InvalidAddress);
    assert_eq!(address_to_row_col("12").unwrap_err().kind, ErrorKind::InvalidAddress);
    assert_eq!(address_to_row_col("A0").unwrap_err().kind, ErrorKind::InvalidAddress);
    assert_eq!(address_to_row_col("A1B").unwrap_err().kind, ErrorKind::InvalidAddress);
    assert_eq!(address_to_row_col("").unwrap_err().kind, ErrorKind::InvalidAddress);
}

#[test]
fn serial_date_day_one() {
    let (days, secs) = serial_parts(1.0);
    assert_eq!(excel_datetime(days, secs).unwrap(), "1899-12-31 00:00:00");
}

#[test]
fn serial_date_noon() {
    let (days, secs) = serial_parts(2.5);
    assert_eq!(excel_datetime(days, secs).unwrap(), "1900-01-01 12:00:00");
}

#[test]
fn serial_date_epoch() {
    let (days, secs) = serial_parts(0.0);
    assert_eq!(excel_datetime(days, secs).unwrap(), "1899-12-30 00:00:00");
}

#[test]
fn serial_date_rounds_into_next_day() {
    // the fraction rounds up to a full day of seconds
    let (days, secs) = serial_parts(1.9999999);
    assert_eq!((days, secs), (1, 86400));
    assert_eq!(excel_datetime(days, secs).unwrap(), "1900-01-01 00:00:00");
}

#[test]
fn serial_date_modern() {
    let (days, secs) = serial_parts(45000.25);
    assert_eq!(excel_datetime(days, secs).unwrap(), "2023-03-15 06:00:00");
}

#[test]
fn serial_date_out_of_calendar() {
    assert_eq!(excel_datetime(i64::MAX, 0).unwrap_err().kind, ErrorKind::InvalidNumber);
}

#[test]
fn filename_strips_directory_and_extension() {
    assert_eq!(extract_filename("a/report.xlsx"), "report");
    assert_eq!(extract_filename("deep/dir/data.tar.gz"), "data.tar");
}

#[test]
fn filename_bare_and_odd_paths() {
    assert_eq!(extract_filename("report"), "report");
    assert_eq!(extract_filename(".bashrc"), ".bashrc");
    assert_eq!(extract_filename(""), "");
    assert_eq!(extract_filename("dir/"), "dir");
    assert_eq!(extract_filename("x."), "x");
}

#[test]
fn progress_figures() {
    assert_eq!(progress_estimate(1000, 2, 4), (500, 1000));
    assert_eq!(progress_estimate(900, 3, 3), (300, 0));
    assert_eq!(progress_estimate(500, 0, 4), (0, 0));
}
