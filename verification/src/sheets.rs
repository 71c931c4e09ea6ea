//! Resolving requested sheet names: wildcard expansion against the
//! workbook's actual names, skip-list filtering, and order-preserving
//! de-duplication.
use vstd::prelude::*;
use vstd::string::*;
use crate::text::{spec_find, find_char, lemma_find_characterization, str_eq, str_starts_with, str_ends_with};
use crate::values::{ErrorKind, ExtractError, SpecValue, Value};

verus! {

/// `s` with its leading asterisks removed.
pub open spec fn trim_stars(s: Seq<char>) -> Seq<char>
    decreases s.len(),
{
    if s.len() > 0 && s[0] == '*' {
        trim_stars(s.drop_first())
    } else {
        s
    }
}

/// A pattern splits at its first asterisk into a required prefix and a
/// required suffix; without an asterisk both parts are empty, so the
/// pattern matches every name.
pub open spec fn split_pattern(p: Seq<char>) -> (Seq<char>, Seq<char>) {
    match spec_find(p, '*') {
        Some(i) => (p.take(i), trim_stars(p.skip(i))),
        None => (Seq::empty(), Seq::empty()),
    }
}

/// Does `name` match the pattern: start with its prefix and end with
/// its suffix?
pub open spec fn name_matches(p: Seq<char>, name: Seq<char>) -> bool {
    split_pattern(p).0.is_prefix_of(name) && split_pattern(p).1.is_suffix_of(name)
}

/// The names matching the pattern, in their original order.
pub open spec fn spec_match_names(names: Seq<Seq<char>>, p: Seq<char>) -> Seq<Seq<char>> {
    names.filter(|n: Seq<char>| name_matches(p, n))
}

/// Select every sheet name that matches the pattern, keeping order.
pub fn match_sheet_names(sheet_names: &Vec<String>, pattern: &str) -> (r: Vec<String>)
    ensures
        r.deep_view() == spec_match_names(sheet_names.deep_view(), pattern@),
{
    let plen = pattern.unicode_len();
    let (pre, suf): (&str, &str) = match find_char(pattern, '*') {
        Some(i) => {
            proof {
                lemma_find_characterization(pattern@, '*');
            }
            let mut j: usize = i;
            while j < plen && pattern.get_char(j) == '*'
                invariant
                    i <= j <= plen,
                    plen == pattern@.len(),
                    trim_stars(pattern@.skip(i as int)) == trim_stars(pattern@.skip(j as int)),
                decreases plen - j,
            {
                proof {
                    assert(pattern@.skip(j as int).drop_first() =~= pattern@.skip(j as int + 1));
                }
                j = j + 1;
            }
            proof {
                if j == plen {
                    assert(pattern@.skip(j as int) =~= Seq::<char>::empty());
                }
                assert(trim_stars(pattern@.skip(j as int)) == pattern@.skip(j as int));
            }
            let pre = pattern.substring_char(0, i);
            let suf = pattern.substring_char(j, plen);
            proof {
                assert(pre@ =~= split_pattern(pattern@).0);
                assert(suf@ =~= split_pattern(pattern@).1);
            }
            (pre, suf)
        },
        None => {
            proof {
                reveal_strlit("");
                assert(""@ =~= Seq::<char>::empty());
            }
            ("", "")
        },
    };
    let mut out: Vec<String> = Vec::new();
    let ghost pred = |n: Seq<char>| name_matches(pattern@, n);
    let mut k: usize = 0;
    proof {
        assert(sheet_names.deep_view().take(0) =~= Seq::<Seq<char>>::empty());
        reveal_with_fuel(Seq::filter, 1);
        assert(sheet_names.deep_view().take(0).filter(pred) =~= Seq::<Seq<char>>::empty());
    }
    while k < sheet_names.len()
        invariant
            k <= sheet_names.len(),
            pre@ == split_pattern(pattern@).0,
            suf@ == split_pattern(pattern@).1,
            out.deep_view() == sheet_names.deep_view().take(k as int).filter(pred),
            pred == (|n: Seq<char>| name_matches(pattern@, n)),
        decreases sheet_names.len() - k,
    {
        let name = &sheet_names[k];
        let keep = str_starts_with(name.as_str(), pre) && str_ends_with(name.as_str(), suf);
        proof {
            assert(keep == pred(name@));
        }
        let ghost prevout = out.deep_view();
        if keep {
            out.push(name.clone());
            proof {
                assert(out.deep_view() =~= prevout.push(name@));
            }
        }
        proof {
            let dv = sheet_names.deep_view();
            assert(dv.take(k as int + 1) =~= dv.take(k as int) + seq![name@]);
            assert(dv.take(k as int).filter(pred) + seq![name@].filter(pred) == (dv.take(k as int)
                + seq![name@]).filter(pred));
            reveal_with_fuel(Seq::filter, 2);
            assert(seq![name@].drop_last() =~= Seq::<Seq<char>>::empty());
            if pred(name@) {
                assert(seq![name@].filter(pred) =~= seq![name@]);
                assert(out.deep_view() =~= prevout + seq![name@]);
            } else {
                assert(seq![name@].filter(pred) =~= Seq::<Seq<char>>::empty());
                assert(out.deep_view() =~= prevout + Seq::<Seq<char>>::empty());
            }
        }
        k = k + 1;
    }
    proof {
        assert(sheet_names.deep_view().take(sheet_names.len() as int) =~= sheet_names.deep_view());
    }
    out
}

/// Append `x` unless it is already present.
pub open spec fn spec_extend_unique(v: Seq<Seq<char>>, x: Seq<char>) -> Seq<Seq<char>> {
    if v.contains(x) {
        v
    } else {
        v.push(x)
    }
}

/// Push `value` unless the vector already holds it.
pub fn extend_unique(vec: &mut Vec<String>, value: String)
    ensures
        final(vec).deep_view() == spec_extend_unique(old(vec).deep_view(), value@),
{
    let mut i: usize = 0;
    while i < vec.len()
        invariant
            i <= vec.len(),
            *vec == *old(vec),
            forall|j: int| 0 <= j < i ==> vec.deep_view()[j] != value@,
        decreases vec.len() - i,
    {
        if str_eq(vec[i].as_str(), value.as_str()) {
            proof {
                assert(vec.deep_view()[i as int] == value@);
                assert(vec.deep_view().contains(value@));
            }
            return ;
        }
        i = i + 1;
    }
    proof {
        assert(!vec.deep_view().contains(value@));
    }
    let ghost prev = vec.deep_view();
    vec.push(value);
    proof {
        assert(vec.deep_view() =~= prev.push(value@));
    }
}

/// Is the name on the skip list? Only string entries count.
pub open spec fn skip_contains(skip: Seq<SpecValue>, name: Seq<char>) -> bool {
    exists|i: int| 0 <= i < skip.len() && skip[i] == SpecValue::Str(name)
}

/// Does the skip list name this sheet?
pub fn skip_has(skip: &Vec<Value>, name: &str) -> (r: bool)
    ensures
        r == skip_contains(skip.deep_view(), name@),
{
    let mut i: usize = 0;
    while i < skip.len()
        invariant
            i <= skip.len(),
            forall|j: int| 0 <= j < i ==> skip.deep_view()[j] != SpecValue::Str(name@),
        decreases skip.len() - i,
    {
        match skip[i].as_str() {
            Some(s) => {
                if str_eq(s.as_str(), name) {
                    proof {
                        assert(skip.deep_view()[i as int] == SpecValue::Str(name@));
                    }
                    return true;
                }
            },
            None => {},
        }
        i = i + 1;
    }
    false
}

/// Fold the matched names into the accumulator: each name not on the skip
/// list is appended unless already selected.
pub open spec fn spec_add_matches(
    ms: Seq<Seq<char>>,
    skip: Seq<SpecValue>,
    acc: Seq<Seq<char>>,
) -> Seq<Seq<char>>
    decreases ms.len(),
{
    if ms.len() == 0 {
        acc
    } else {
        let acc2 = if skip_contains(skip, ms[0]) {
            acc
        } else {
            spec_extend_unique(acc, ms[0])
        };
        spec_add_matches(ms.drop_first(), skip, acc2)
    }
}

/// The selected sheet names for the requested patterns: wildcard patterns
/// expand against the workbook's names, literals pass through, the skip
/// list filters, and the first occurrence of a name wins. A request that
/// is not a string is malformed.
pub open spec fn spec_select(
    names: Seq<Seq<char>>,
    req: Seq<SpecValue>,
    skip: Seq<SpecValue>,
    acc: Seq<Seq<char>>,
) -> Result<Seq<Seq<char>>, ErrorKind>
    decreases req.len(),
{
    if req.len() == 0 {
        Ok(acc)
    } else {
        match req[0] {
            SpecValue::Str(pat) => {
                let acc2 = if spec_find(pat, '*') is Some {
                    spec_add_matches(spec_match_names(names, pat), skip, acc)
                } else if skip_contains(skip, pat) {
                    acc
                } else {
                    spec_extend_unique(acc, pat)
                };
                spec_select(names, req.drop_first(), skip, acc2)
            },
            _ => Err(ErrorKind::SpecValidation),
        }
    }
}

/// Extending keeps distinctness, and adds nothing but `x`.
proof fn lemma_extend_unique_props(v: Seq<Seq<char>>, x: Seq<char>)
    requires
        v.no_duplicates(),
    ensures
        spec_extend_unique(v, x).no_duplicates(),
        forall|i: int|
            0 <= i < spec_extend_unique(v, x).len() ==> (v.contains(
                #[trigger] spec_extend_unique(v, x)[i],
            ) || spec_extend_unique(v, x)[i] == x),
{
    if !v.contains(x) {
        assert forall|i: int, j: int|
            0 <= i < j < v.push(x).len() implies v.push(x)[i] != v.push(x)[j] by {
            if j < v.len() {
            } else {
                assert(v.contains(v[i]));
            }
        }
    }
}

/// Folding matches keeps the selection duplicate-free, and every name it
/// adds passed the skip list.
proof fn lemma_add_matches_props(ms: Seq<Seq<char>>, skip: Seq<SpecValue>, acc: Seq<Seq<char>>)
    requires
        acc.no_duplicates(),
        forall|i: int| 0 <= i < acc.len() ==> !skip_contains(skip, #[trigger] acc[i]),
    ensures
        spec_add_matches(ms, skip, acc).no_duplicates(),
        forall|i: int|
            0 <= i < spec_add_matches(ms, skip, acc).len() ==> !skip_contains(
                skip,
                #[trigger] spec_add_matches(ms, skip, acc)[i],
            ),
    decreases ms.len(),
{
    if ms.len() > 0 {
        let acc2 = if skip_contains(skip, ms[0]) {
            acc
        } else {
            spec_extend_unique(acc, ms[0])
        };
        if !skip_contains(skip, ms[0]) {
            lemma_extend_unique_props(acc, ms[0]);
        }
        lemma_add_matches_props(ms.drop_first(), skip, acc2);
    }
}

/// Whatever the requested patterns were, a successful selection holds no
/// name twice and no name the skip list carries: expansion de-duplicates
/// with the first occurrence winning, and the skip list filters.
pub proof fn lemma_select_sheets_distinct_and_filtered(
    names: Seq<Seq<char>>,
    req: Seq<SpecValue>,
    skip: Seq<SpecValue>,
    acc: Seq<Seq<char>>,
)
    requires
        acc.no_duplicates(),
        forall|i: int| 0 <= i < acc.len() ==> !skip_contains(skip, #[trigger] acc[i]),
    ensures
        spec_select(names, req, skip, acc) matches Ok(sel) ==> sel.no_duplicates() && (forall|
            i: int,
        | 0 <= i < sel.len() ==> !skip_contains(skip, #[trigger] sel[i])),
    decreases req.len(),
{
    if req.len() > 0 {
        match req[0] {
            SpecValue::Str(pat) => {
                let acc2 = if spec_find(pat, '*') is Some {
                    spec_add_matches(spec_match_names(names, pat), skip, acc)
                } else if skip_contains(skip, pat) {
                    acc
                } else {
                    spec_extend_unique(acc, pat)
                };
                if spec_find(pat, '*') is Some {
                    lemma_add_matches_props(spec_match_names(names, pat), skip, acc);
                } else if !skip_contains(skip, pat) {
                    lemma_extend_unique_props(acc, pat);
                }
                lemma_select_sheets_distinct_and_filtered(names, req.drop_first(), skip, acc2);
            },
            _ => {},
        }
    }
}

/// Resolve the requested sheet patterns against the workbook's names.
pub fn select_sheets(names: &Vec<String>, requested: &Vec<Value>, skip: &Vec<Value>) -> (r: Result<
    Vec<String>,
    ExtractError,
>)
    ensures
        match r {
            Ok(v) => spec_select(
                names.deep_view(),
                requested.deep_view(),
                skip.deep_view(),
                Seq::empty(),
            ) == Ok::<Seq<Seq<char>>, ErrorKind>(v.deep_view()),
            Err(e) => spec_select(
                names.deep_view(),
                requested.deep_view(),
                skip.deep_view(),
                Seq::empty(),
            ) == Err::<Seq<Seq<char>>, ErrorKind>(e.kind),
        },
{
    let mut out: Vec<String> = Vec::new();
    let mut i: usize = 0;
    proof {
        assert(requested.deep_view().skip(0) =~= requested.deep_view());
        assert(out.deep_view() =~= Seq::<Seq<char>>::empty());
    }
    while i < requested.len()
        invariant
            i <= requested.len(),
            spec_select(
                names.deep_view(),
                requested.deep_view(),
                skip.deep_view(),
                Seq::empty(),
            ) == spec_select(
                names.deep_view(),
                requested.deep_view().skip(i as int),
                skip.deep_view(),
                out.deep_view(),
            ),
        decreases requested.len() - i,
    {
        let ghost rest = requested.deep_view().skip(i as int);
        proof {
            assert(rest[0] == requested.deep_view()[i as int]);
            assert(rest.drop_first() =~= requested.deep_view().skip(i as int + 1));
        }
        let pat = match requested[i].as_str() {
            Some(s) => s,
            None => {
                return Err(ExtractError::new(ErrorKind::SpecValidation, "Invalid sheet name"));
            },
        };
        match find_char(pat.as_str(), '*') {
            Some(_) => {
                let matched = match_sheet_names(names, pat.as_str());
                let ghost acc0 = out.deep_view();
                let mut k: usize = 0;
                proof {
                    assert(matched.deep_view().skip(0) =~= matched.deep_view());
                }
                while k < matched.len()
                    invariant
                        k <= matched.len(),
                        spec_select(
                            names.deep_view(),
                            requested.deep_view(),
                            skip.deep_view(),
                            Seq::empty(),
                        ) == spec_select(
                            names.deep_view(),
                            requested.deep_view().skip(i as int),
                            skip.deep_view(),
                            acc0,
                        ),
                        rest == requested.deep_view().skip(i as int),
                        rest[0] == SpecValue::Str(pat@),
                        spec_find(pat@, '*') is Some,
                        matched.deep_view() == spec_match_names(names.deep_view(), pat@),
                        spec_add_matches(
                            matched.deep_view(),
                            skip.deep_view(),
                            acc0,
                        ) == spec_add_matches(
                            matched.deep_view().skip(k as int),
                            skip.deep_view(),
                            out.deep_view(),
                        ),
                    decreases matched.len() - k,
                {
                    proof {
                        let mdv = matched.deep_view();
                        assert(mdv.skip(k as int)[0] == mdv[k as int]);
                        assert(mdv.skip(k as int).drop_first() =~= mdv.skip(k as int + 1));
                    }
                    let name = &matched[k];
                    if !skip_has(skip, name.as_str()) {
                        extend_unique(&mut out, name.clone());
                    }
                    k = k + 1;
                }
                proof {
                    assert(matched.deep_view().skip(matched.len() as int) =~= Seq::<
                        Seq<char>,
                    >::empty());
                }
            },
            None => {
                if !skip_has(skip, pat.as_str()) {
                    extend_unique(&mut out, pat.clone());
                }
            },
        }
        i = i + 1;
    }
    proof {
        assert(requested.deep_view().skip(requested.len() as int) =~= Seq::<SpecValue>::empty());
    }
    Ok(out)
}

} // verus!
