//! Cell-address resolution, column-letter decoding, serial-date rendering
//! and file-name stemming.
use vstd::prelude::*;
use chrono::Datelike;
use vstd::string::*;
use crate::text::{
    dec_val, dec_of, spec_find_if, lemma_find_if_at, lemma_find_if_none, spec_rfind, rfind_char,
    str_eq, u64_to_dec,
};
use crate::values::{ErrorKind, ExtractError};

verus! {

/// A column letter: the Latin alphabet, either case.
pub open spec fn is_col_char(c: char) -> bool {
    ('A' <= c && c <= 'Z') || ('a' <= c && c <= 'z')
}

/// The digit value of a column letter: `A` and `a` are 1, `Z` and `z` are 26.
pub open spec fn col_digit(c: char) -> int {
    if 'A' <= c && c <= 'Z' {
        c as int - 'A' as int + 1
    } else {
        c as int - 'a' as int + 1
    }
}

/// The bijective base-26 numeral a column name stands for: `A` is 1,
/// `Z` is 26, `AA` is 27.
pub open spec fn col_numeral(s: Seq<char>) -> int
    decreases s.len(),
{
    if s.len() == 0 {
        0
    } else {
        col_numeral(s.drop_last()) * 26 + col_digit(s.last())
    }
}

/// A well-formed column name: non-empty, letters only.
pub open spec fn valid_col_name(s: Seq<char>) -> bool {
    s.len() >= 1 && forall|i: int| 0 <= i < s.len() ==> is_col_char(s[i])
}

pub proof fn lemma_col_numeral_pos(s: Seq<char>)
    requires
        forall|i: int| 0 <= i < s.len() ==> is_col_char(s[i]),
    ensures
        col_numeral(s) >= 0,
        s.len() >= 1 ==> col_numeral(s) >= 1,
    decreases s.len(),
{
    if s.len() > 0 {
        lemma_col_numeral_pos(s.drop_last());
        let a = col_numeral(s.drop_last());
        let d = col_digit(s.last());
        assert(1 <= d <= 26);
        assert(a * 26 + d >= 1) by (nonlinear_arith)
            requires
                a >= 0,
                d >= 1,
        ;
    }
}

/// Extending a column name never shrinks its numeral.
pub proof fn lemma_col_numeral_monotone(s: Seq<char>, k: int)
    requires
        0 <= k <= s.len(),
        forall|i: int| 0 <= i < s.len() ==> is_col_char(s[i]),
    ensures
        col_numeral(s) >= col_numeral(s.take(k)),
    decreases s.len() - k,
{
    if k < s.len() {
        lemma_col_numeral_monotone(s, k + 1);
        let a = col_numeral(s.take(k));
        let d = col_digit(s.take(k + 1).last());
        assert(s.take(k + 1).drop_last() =~= s.take(k));
        assert(forall|i: int| 0 <= i < k ==> is_col_char(s.take(k)[i]));
        lemma_col_numeral_pos(s.take(k));
        assert(1 <= d <= 26);
        assert(a * 26 + d >= a) by (nonlinear_arith)
            requires
                a >= 0,
                d >= 1,
        ;
    } else {
        assert(s.take(k) =~= s);
    }
}

/// Decode a column name to a zero-based column index: `A` is 0, `Z` is 25,
/// `AA` is 26. Fails on an empty or non-alphabetic name, and on an index
/// beyond `u32::MAX`.
pub fn column_name_to_index(column_name: &str) -> (r: Result<u32, ExtractError>)
    ensures
        match r {
            Ok(c) => valid_col_name(column_name@) && c as int == col_numeral(column_name@) - 1,
            Err(e) => e.kind == ErrorKind::InvalidAddress && !(valid_col_name(column_name@)
                && col_numeral(column_name@) <= 0x1_0000_0000),
        },
{
    let len = column_name.unicode_len();
    if len == 0 {
        return Err(ExtractError::new(ErrorKind::InvalidAddress, "Invalid column label"));
    }
    let mut acc: u64 = 0;
    let mut i: usize = 0;
    while i < len
        invariant
            0 < len == column_name@.len(),
            i <= len,
            forall|j: int| 0 <= j < i ==> is_col_char(column_name@[j]),
            acc == col_numeral(column_name@.take(i as int)),
            acc <= 0x1_0000_0000,
        decreases len - i,
    {
        let c = column_name.get_char(i);
        let cu = c as u32;
        let d: u32 = if cu >= 65 && cu <= 90 {
            cu - 64
        } else if cu >= 97 && cu <= 122 {
            cu - 96
        } else {
            proof {
                assert(!is_col_char(column_name@[i as int]));
            }
            return Err(ExtractError::new(ErrorKind::InvalidAddress, "Invalid column label"));
        };
        proof {
            assert(is_col_char(column_name@[i as int]));
            assert(d as int == col_digit(column_name@[i as int]));
        }
        acc = acc * 26 + d as u64;
        proof {
            let t = column_name@.take(i as int + 1);
            assert(t.drop_last() =~= column_name@.take(i as int));
            assert(t.last() == column_name@[i as int]);
        }
        if acc > 0x1_0000_0000 {
            proof {
                if valid_col_name(column_name@) {
                    lemma_col_numeral_monotone(column_name@, i as int + 1);
                }
            }
            return Err(ExtractError::new(ErrorKind::InvalidAddress, "Invalid column label"));
        }
        i = i + 1;
    }
    proof {
        assert(column_name@.take(len as int) =~= column_name@);
        lemma_col_numeral_pos(column_name@);
    }
    Ok((acc - 1) as u32)
}

/// A decimal digit.
pub open spec fn is_digit_c(c: char) -> bool {
    '0' <= c && c <= '9'
}

/// All characters are decimal digits.
pub open spec fn all_digits(s: Seq<char>) -> bool {
    forall|i: int| 0 <= i < s.len() ==> is_digit_c(s[i])
}

/// Is `c` a decimal digit?
pub fn digit_test(c: char) -> (r: bool)
    ensures
        r == is_digit_c(c),
{
    let cu = c as u32;
    cu >= 48 && cu <= 57
}

/// Where a cell reference splits: the position of its first digit.
pub open spec fn first_digit_pos(s: Seq<char>) -> Option<int> {
    spec_find_if(s, |c: char| is_digit_c(c))
}

/// What `address_to_row_col` returns on a reference, as a mathematical
/// function: a one-based row and a zero-based column, or the failure kind.
pub open spec fn spec_address(s: Seq<char>) -> Result<(int, int), ErrorKind> {
    match first_digit_pos(s) {
        None => Err(ErrorKind::InvalidAddress),
        Some(p) => {
            let letters = s.take(p);
            let digits = s.skip(p);
            if !(valid_col_name(letters) && col_numeral(letters) <= 0x1_0000_0000) {
                Err(ErrorKind::InvalidAddress)
            } else if !(all_digits(digits) && 1 <= dec_val(digits) <= u32::MAX) {
                Err(ErrorKind::InvalidAddress)
            } else {
                Ok((dec_val(digits) as int, col_numeral(letters) - 1))
            }
        },
    }
}

/// Extending a digit string never shrinks its value.
pub proof fn lemma_dec_val_monotone(s: Seq<char>, k: int)
    requires
        0 <= k <= s.len(),
    ensures
        dec_val(s) >= dec_val(s.take(k)),
    decreases s.len() - k,
{
    if k < s.len() {
        lemma_dec_val_monotone(s, k + 1);
        let a = dec_val(s.take(k));
        assert(s.take(k + 1).drop_last() =~= s.take(k));
        assert(dec_val(s.take(k + 1)) >= a * 10 >= a) by (nonlinear_arith)
            requires
                a >= 0,
                dec_val(s.take(k + 1)) >= a * 10,
        ;
    } else {
        assert(s.take(k) =~= s);
    }
}

/// Split a literal cell reference such as `B12` at its first digit: the
/// letters decode to a zero-based column index, the digits to a one-based
/// row number.
pub fn address_to_row_col(cell_address: &str) -> (r: Result<(u32, u32), ExtractError>)
    ensures
        match r {
            Ok(rc) => spec_address(cell_address@) == Ok::<(int, int), ErrorKind>((rc.0 as int, rc.1 as int)),
            Err(e) => spec_address(cell_address@) == Err::<(int, int), ErrorKind>(e.kind),
        },
{
    let len = cell_address.unicode_len();
    let ghost pred = |c: char| is_digit_c(c);
    let mut p: usize = 0;
    while p < len && !digit_test(cell_address.get_char(p))
        invariant
            p <= len,
            len == cell_address@.len(),
            forall|j: int| 0 <= j < p ==> !is_digit_c(cell_address@[j]),
        decreases len - p,
    {
        p = p + 1;
    }
    if p == len {
        proof {
            lemma_find_if_none(cell_address@, pred);
        }
        return Err(ExtractError::new(ErrorKind::InvalidAddress, "Invalid cell address format"));
    }
    proof {
        lemma_find_if_at(cell_address@, pred, p as int);
    }
    let ghost letters = cell_address@.take(p as int);
    let ghost digits = cell_address@.skip(p as int);
    let col_str = cell_address.substring_char(0, p);
    proof {
        assert(col_str@ =~= letters);
    }
    let col = match column_name_to_index(col_str) {
        Ok(c) => c,
        Err(e) => {
            return Err(e);
        },
    };
    // parse the row digits
    let mut acc: u64 = 0;
    let mut i: usize = p;
    while i < len
        invariant
            p <= i <= len,
            len == cell_address@.len(),
            digits == cell_address@.skip(p as int),
            forall|j: int| p <= j < i ==> is_digit_c(cell_address@[j]),
            acc == dec_val(digits.take(i - p)),
            acc <= u32::MAX,
        decreases len - i,
    {
        let c = cell_address.get_char(i);
        let cu = c as u32;
        if !(cu >= 48 && cu <= 57) {
            proof {
                assert(!is_digit_c(digits[i - p as int]));
            }
            return Err(ExtractError::new(ErrorKind::InvalidAddress, "Invalid row number"));
        }
        acc = acc * 10 + (cu - 48) as u64;
        proof {
            let t = digits.take(i - p as int + 1);
            assert(t.drop_last() =~= digits.take(i - p as int));
            assert(t.last() == cell_address@[i as int]);
            assert(t.last() as int - '0' as int == cu - 48);
        }
        if acc > u32::MAX as u64 {
            proof {
                lemma_dec_val_monotone(digits, i - p as int + 1);
            }
            return Err(ExtractError::new(ErrorKind::InvalidAddress, "Invalid row number"));
        }
        i = i + 1;
    }
    proof {
        assert(digits.take(len - p as int) =~= digits);
    }
    if acc == 0 {
        return Err(ExtractError::new(ErrorKind::InvalidAddress, "Invalid row number"));
    }
    Ok((acc as u32, col))
}

/// What the calendar says lies `days` days after the civil date
/// `y`-`m`-`d`: a function of its arguments alone.
pub uninterp spec fn spec_civil_add_days(y: i32, m: u32, d: u32, days: i64) -> Option<
    (i32, u32, u32),
>;

/// Relies on chrono's `NaiveDate::from_ymd_opt`, `TimeDelta::try_days`,
/// `NaiveDate::checked_add_signed` and the `Datelike` accessors: steps the
/// civil date `y`-`m`-`d` forward or back by `days` days, `None` when either
/// date falls outside the supported calendar. The month and day of a valid
/// chrono date are documented to lie in 1 to 12 and 1 to 31.
#[verifier::external_body]
fn civil_add_days(y: i32, m: u32, d: u32, days: i64) -> (r: Option<(i32, u32, u32)>)
    ensures
        r == spec_civil_add_days(y, m, d, days),
        r matches Some(t) ==> 1 <= t.1 <= 12 && 1 <= t.2 <= 31,
{
    let date = chrono::NaiveDate::from_ymd_opt(y, m, d)?;
    let delta = chrono::TimeDelta::try_days(days)?;
    let moved = date.checked_add_signed(delta)?;
    Some((moved.year(), moved.month(), moved.day()))
}

/// `s` left-padded with zeros to at least `w` characters.
pub open spec fn pad_zeros(s: Seq<char>, w: int) -> Seq<char> {
    if s.len() >= w {
        s
    } else {
        Seq::new((w - s.len()) as nat, |i: int| '0') + s
    }
}

/// A number below one hundred, two digits.
pub open spec fn render2(v: int) -> Seq<char> {
    pad_zeros(dec_of(v as nat), 2)
}

/// A year as the `%Y` format writes it: four zero-padded digits, a sign
/// in front of negative years and of years past 9999.
pub open spec fn render_year(y: int) -> Seq<char> {
    if 0 <= y <= 9999 {
        pad_zeros(dec_of(y as nat), 4)
    } else if y >= 10000 {
        seq!['+'] + dec_of(y as nat)
    } else {
        seq!['-'] + pad_zeros(dec_of((-y) as nat), 4)
    }
}

/// A date-time as `YYYY-MM-DD HH:MM:SS`.
pub open spec fn spec_datetime_render(y: int, mo: int, d: int, h: int, mi: int, s: int) -> Seq<
    char,
> {
    render_year(y) + seq!['-'] + render2(mo) + seq!['-'] + render2(d) + seq![' '] + render2(h)
        + seq![':'] + render2(mi) + seq![':'] + render2(s)
}

/// What the serial-date conversion returns: whole days go on the epoch
/// 1899-12-30, the seconds of the day fill out the clock, and a day's
/// worth of seconds rolls over to the next day.
pub open spec fn spec_excel_datetime(days: int, secs: int) -> Result<Seq<char>, ErrorKind> {
    let total = days + secs / 86400;
    let rem = secs % 86400;
    if total > i64::MAX {
        Err(ErrorKind::InvalidNumber)
    } else {
        match spec_civil_add_days(1899, 12, 30, total as i64) {
            Some(t) => Ok(
                spec_datetime_render(
                    t.0 as int,
                    t.1 as int,
                    t.2 as int,
                    rem / 3600,
                    (rem % 3600) / 60,
                    rem % 60,
                ),
            ),
            None => Err(ErrorKind::InvalidNumber),
        }
    }
}

pub proof fn lemma_dec_len(n: nat)
    ensures
        n < 10 ==> dec_of(n).len() == 1,
        10 <= n < 100 ==> dec_of(n).len() == 2,
        100 <= n < 1000 ==> dec_of(n).len() == 3,
        1000 <= n < 10000 ==> dec_of(n).len() == 4,
        n >= 10000 ==> dec_of(n).len() >= 5,
    decreases n,
{
    if n >= 10 {
        lemma_dec_len(n / 10);
    }
}

/// Two zero-padded digits.
fn pad2(v: u64) -> (r: String)
    requires
        v < 100,
    ensures
        r@ == render2(v as int),
{
    proof {
        lemma_dec_len(v as nat);
        reveal_strlit("0");
    }
    if v < 10 {
        let mut out = "0".to_owned();
        let d = u64_to_dec(v);
        out.append(d.as_str());
        proof {
            assert(Seq::new(1nat, |i: int| '0') =~= "0"@);
            assert(out@ =~= render2(v as int));
        }
        out
    } else {
        let out = u64_to_dec(v);
        proof {
            assert(out@ =~= render2(v as int));
        }
        out
    }
}

/// A year, as `%Y` writes it.
fn year_string(y: i32) -> (r: String)
    ensures
        r@ == render_year(y as int),
{
    if y >= 0 && y <= 9999 {
        let v = y as u64;
        proof {
            lemma_dec_len(v as nat);
            reveal_strlit("000");
            reveal_strlit("00");
            reveal_strlit("0");
            reveal_strlit("");
        }
        let prefix: &str = if v < 10 {
            "000"
        } else if v < 100 {
            "00"
        } else if v < 1000 {
            "0"
        } else {
            ""
        };
        let mut out = prefix.to_owned();
        let d = u64_to_dec(v);
        out.append(d.as_str());
        proof {
            if v < 10 {
                assert(Seq::new(3nat, |i: int| '0') =~= "000"@);
            } else if v < 100 {
                assert(Seq::new(2nat, |i: int| '0') =~= "00"@);
            } else if v < 1000 {
                assert(Seq::new(1nat, |i: int| '0') =~= "0"@);
            }
            assert(out@ =~= render_year(y as int));
        }
        out
    } else if y >= 10000 {
        let mut out = "+".to_owned();
        proof {
            reveal_strlit("+");
        }
        let d = u64_to_dec(y as u64);
        out.append(d.as_str());
        proof {
            assert(out@ =~= render_year(y as int));
        }
        out
    } else {
        let m: u64 = ((-(y as i64))) as u64;
        proof {
            lemma_dec_len(m as nat);
            reveal_strlit("-");
            reveal_strlit("000");
            reveal_strlit("00");
            reveal_strlit("0");
            reveal_strlit("");
        }
        let prefix: &str = if m < 10 {
            "000"
        } else if m < 100 {
            "00"
        } else if m < 1000 {
            "0"
        } else {
            ""
        };
        let mut out = "-".to_owned();
        out.append(prefix);
        let d = u64_to_dec(m);
        out.append(d.as_str());
        proof {
            if m < 10 {
                assert(Seq::new(3nat, |i: int| '0') =~= "000"@);
            } else if m < 100 {
                assert(Seq::new(2nat, |i: int| '0') =~= "00"@);
            } else if m < 1000 {
                assert(Seq::new(1nat, |i: int| '0') =~= "0"@);
            }
            assert(out@ =~= render_year(y as int));
        }
        out
    }
}

/// Render a serial date-time, given as whole days and seconds of the day,
/// as `YYYY-MM-DD HH:MM:SS` on the epoch 1899-12-30.
pub fn excel_datetime(serial_days: i64, day_seconds: u32) -> (r: Result<String, ExtractError>)
    ensures
        match r {
            Ok(s) => spec_excel_datetime(serial_days as int, day_seconds as int) == Ok::<
                Seq<char>,
                ErrorKind,
            >(s@),
            Err(e) => spec_excel_datetime(serial_days as int, day_seconds as int) == Err::<
                Seq<char>,
                ErrorKind,
            >(e.kind),
        },
{
    let extra: i64 = (day_seconds / 86400) as i64;
    let rem: u32 = day_seconds % 86400;
    if serial_days > i64::MAX - extra {
        return Err(ExtractError::new(ErrorKind::InvalidNumber, "Date calculation failed"));
    }
    let total: i64 = serial_days + extra;
    match civil_add_days(1899, 12, 30, total) {
        None => Err(ExtractError::new(ErrorKind::InvalidNumber, "Date calculation failed")),
        Some(ymd) => {
            let (y, mo, d) = ymd;
            let h: u32 = rem / 3600;
            let mi: u32 = (rem % 3600) / 60;
            let sec: u32 = rem % 60;
            let mut out = year_string(y);
            out.append("-");
            let p1 = pad2(mo as u64);
            out.append(p1.as_str());
            out.append("-");
            let p2 = pad2(d as u64);
            out.append(p2.as_str());
            out.append(" ");
            let p3 = pad2(h as u64);
            out.append(p3.as_str());
            out.append(":");
            let p4 = pad2(mi as u64);
            out.append(p4.as_str());
            out.append(":");
            let p5 = pad2(sec as u64);
            out.append(p5.as_str());
            proof {
                reveal_strlit("-");
                reveal_strlit(" ");
                reveal_strlit(":");
                assert("-"@ =~= seq!['-']);
                assert(" "@ =~= seq![' ']);
                assert(":"@ =~= seq![':']);
                assert(out@ =~= spec_datetime_render(
                    y as int,
                    mo as int,
                    d as int,
                    rem as int / 3600,
                    (rem as int % 3600) / 60,
                    rem as int % 60,
                ));
            }
            Ok(out)
        },
    }
}

/// `s` with trailing path separators removed.
pub open spec fn strip_trailing_slashes(s: Seq<char>) -> Seq<char>
    decreases s.len(),
{
    if s.len() > 0 && s.last() == '/' {
        strip_trailing_slashes(s.drop_last())
    } else {
        s
    }
}

/// The base name of a path with its extension stripped: what stands after
/// the last separator, up to the last dot unless that dot comes first.
/// Empty for paths with no base name.
pub open spec fn spec_file_stem(s: Seq<char>) -> Seq<char> {
    let t = strip_trailing_slashes(s);
    let name = match spec_rfind(t, '/') {
        Some(i) => t.skip(i + 1),
        None => t,
    };
    if name =~= seq!['.'] || name =~= seq!['.', '.'] {
        Seq::empty()
    } else {
        match spec_rfind(name, '.') {
            Some(j) => if j > 0 {
                name.take(j)
            } else {
                name
            },
            None => name,
        }
    }
}

/// The base file name of `path`, extension stripped.
pub fn extract_filename(path: &str) -> (r: String)
    ensures
        r@ == spec_file_stem(path@),
{
    let len = path.unicode_len();
    proof {
        assert(path@.subrange(0, len as int) =~= path@);
    }
    let mut b: usize = len;
    while b > 0 && path.get_char(b - 1) == '/'
        invariant
            b <= len,
            len == path@.len(),
            strip_trailing_slashes(path@) == strip_trailing_slashes(path@.subrange(0, b as int)),
        decreases b,
    {
        proof {
            assert(path@.subrange(0, b as int).drop_last() =~= path@.subrange(0, b as int - 1));
        }
        b = b - 1;
    }
    proof {
        if b == 0 {
            assert(path@.subrange(0, 0) =~= Seq::<char>::empty());
        }
        assert(strip_trailing_slashes(path@) == path@.subrange(0, b as int));
    }
    let t = path.substring_char(0, b);
    proof {
        assert(t@ =~= strip_trailing_slashes(path@));
    }
    let tlen = t.unicode_len();
    let name: &str = match rfind_char(t, '/') {
        Some(i) => t.substring_char(i + 1, tlen),
        None => t,
    };
    let ghost name_spec = match spec_rfind(t@, '/') {
        Some(i) => t@.skip(i + 1),
        None => t@,
    };
    proof {
        assert(name@ =~= name_spec);
    }
    proof {
        reveal_strlit(".");
        reveal_strlit("..");
        reveal_strlit("");
        assert("."@ =~= seq!['.']);
        assert(".."@ =~= seq!['.', '.']);
    }
    if str_eq(name, ".") || str_eq(name, "..") {
        return "".to_owned();
    }
    let nlen = name.unicode_len();
    match rfind_char(name, '.') {
        Some(j) => {
            if j > 0 {
                let r = name.substring_char(0, j).to_owned();
                proof {
                    assert(r@ =~= spec_file_stem(path@));
                }
                r
            } else {
                name.to_owned()
            }
        },
        None => name.to_owned(),
    }
}

/// The upper-case letter standing for digit `d` of a bijective base-26
/// numeral: 1 is `A`, 26 is `Z`.
pub open spec fn upper_letter(d: int) -> char {
    if d == 1 { 'A' } else if d == 2 { 'B' } else if d == 3 { 'C' } else if d == 4 { 'D' }
    else if d == 5 { 'E' } else if d == 6 { 'F' } else if d == 7 { 'G' } else if d == 8 { 'H' }
    else if d == 9 { 'I' } else if d == 10 { 'J' } else if d == 11 { 'K' } else if d == 12 { 'L' }
    else if d == 13 { 'M' } else if d == 14 { 'N' } else if d == 15 { 'O' } else if d == 16 { 'P' }
    else if d == 17 { 'Q' } else if d == 18 { 'R' } else if d == 19 { 'S' } else if d == 20 { 'T' }
    else if d == 21 { 'U' } else if d == 22 { 'V' } else if d == 23 { 'W' } else if d == 24 { 'X' }
    else if d == 25 { 'Y' } else { 'Z' }
}

/// The bijective base-26 encoding of a positive numeral in upper-case
/// letters: the inverse of `col_numeral` on canonical column names.
pub open spec fn encode_numeral(n: int) -> Seq<char>
    recommends
        n >= 1,
    decreases n,
{
    if n <= 26 {
        seq![upper_letter(n)]
    } else {
        encode_numeral((n - 1) / 26) + seq![upper_letter((n - 1) % 26 + 1)]
    }
}

/// An upper-case column name.
pub open spec fn upper_col_name(s: Seq<char>) -> bool {
    s.len() >= 1 && forall|i: int| 0 <= i < s.len() ==> 'A' <= s[i] && s[i] <= 'Z'
}

/// Decoding a canonical column name and encoding the numeral again
/// gives the name back: `column_name_to_index` and the encoding are
/// mutually inverse on upper-case names.
pub proof fn lemma_column_round_trip(s: Seq<char>)
    requires
        upper_col_name(s),
    ensures
        encode_numeral(col_numeral(s)) == s,
    decreases s.len(),
{
    let n = col_numeral(s);
    let d = col_digit(s.last());
    let rest = s.drop_last();
    assert(1 <= d <= 26);
    if s.len() == 1 {
        assert(rest =~= Seq::<char>::empty());
        assert(col_numeral(Seq::<char>::empty()) == 0);
        assert(col_numeral(rest) == 0);
        assert(n == d);
        assert(upper_letter(d) == s.last());
        assert(encode_numeral(n) =~= s);
    } else {
        assert(upper_col_name(rest));
        lemma_column_round_trip(rest);
        let m = col_numeral(rest);
        lemma_col_numeral_pos(rest);
        assert(m >= 1);
        assert(n == m * 26 + d);
        assert(n >= 27) by (nonlinear_arith)
            requires
                m >= 1,
                d >= 1,
                n == m * 26 + d,
        ;
        assert((n - 1) / 26 == m && (n - 1) % 26 == d - 1) by (nonlinear_arith)
            requires
                n == m * 26 + d,
                1 <= d <= 26,
                m >= 1,
        ;
        assert(upper_letter(d) == s.last());
        assert(encode_numeral(n) == encode_numeral(m) + seq![s.last()]);
        assert(encode_numeral(m) + seq![s.last()] =~= s);
    }
}

} // verus!
