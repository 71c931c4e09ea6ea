//! The batch fold: completed file documents keyed by their base file
//! name with numeric suffixing on collision, progress arithmetic, and a
//! sequential driver over a set of opened workbooks.
use vstd::prelude::*;
use vstd::string::*;
use crate::assemble::{fresh_key, spec_fresh_key};
use crate::conversions::{extract_filename, spec_file_stem};
use crate::process::{process_file, spec_process_file};
use crate::sheet::Workbook;
use crate::values::{okeys, ErrorKind, ExtractError, SpecObj, SpecValue, Value};

verus! {

/// Where a completed document lands in the batch result: under the base
/// name of the file path the driver processed, with the first free
/// numeric suffix when that name is taken. Every success is inserted.
pub open spec fn spec_insert_file_result(
    results: SpecObj,
    file_path: Seq<char>,
    doc: SpecValue,
) -> SpecObj {
    results.push((spec_fresh_key(okeys(results), spec_file_stem(file_path)), doc))
}

/// Fold one completed document into the batch results, keyed by the
/// processed file's base name.
pub fn insert_file_result(results: &mut Vec<(String, Value)>, file_path: &str, doc: Value)
    ensures
        final(results).deep_view() == spec_insert_file_result(
            old(results).deep_view(),
            file_path@,
            doc.dv(),
        ),
{
    let stem = extract_filename(file_path);
    let key = fresh_key(results, &stem);
    let ghost prev = results.deep_view();
    let ghost d = doc.dv();
    results.push((key, doc));
    proof {
        assert(results.deep_view() =~= prev.push((spec_fresh_key(okeys(prev), stem@), d)));
    }
}

/// The average time one file took, in milliseconds.
pub open spec fn spec_avg_ms(elapsed_ms: int, completed: int) -> int {
    if completed > 0 {
        elapsed_ms / completed
    } else {
        0
    }
}

/// The estimated time the remaining files will take: the average times
/// the files left, saturating.
pub open spec fn spec_remaining_ms(elapsed_ms: int, completed: int, total: int) -> int {
    let avg = spec_avg_ms(elapsed_ms, completed);
    let left = if total >= completed {
        total - completed
    } else {
        0
    };
    if avg * left > u64::MAX {
        u64::MAX as int
    } else {
        avg * left
    }
}

/// Progress figures after `completed` of `total` files in `elapsed_ms`
/// milliseconds: the average per completed file, and the estimated time
/// remaining.
pub fn progress_estimate(elapsed_ms: u64, completed: u64, total: u64) -> (r: (u64, u64))
    ensures
        r.0 == spec_avg_ms(elapsed_ms as int, completed as int),
        r.1 == spec_remaining_ms(elapsed_ms as int, completed as int, total as int),
{
    let avg: u64 = if completed > 0 {
        elapsed_ms / completed
    } else {
        0
    };
    let left: u64 = if total >= completed {
        total - completed
    } else {
        0
    };
    if avg == 0 {
        proof {
            let a = spec_avg_ms(elapsed_ms as int, completed as int);
            let l = if total as int >= completed as int { total as int - completed as int } else { 0int };
            assert(a == avg as int);
            assert(a * l == 0) by (nonlinear_arith)
                requires
                    a == 0,
            ;
            assert(spec_remaining_ms(elapsed_ms as int, completed as int, total as int) == 0);
        }
        (avg, 0)
    } else if left > u64::MAX / avg {
        proof {
            assert(avg * left > u64::MAX) by (nonlinear_arith)
                requires
                    avg >= 1,
                    left > u64::MAX as int / avg as int,
            ;
        }
        (avg, u64::MAX)
    } else {
        proof {
            assert(avg * left <= u64::MAX) by (nonlinear_arith)
                requires
                    avg >= 1,
                    left <= u64::MAX as int / avg as int,
            ;
        }
        (avg, avg * left)
    }
}

/// The batch result of processing the files in order under the shared
/// details: the first failure aborts the whole batch.
pub open spec fn spec_process_batch(
    files: Seq<(String, Workbook)>,
    details: Seq<SpecValue>,
    acc: SpecObj,
) -> Result<SpecObj, ErrorKind>
    decreases files.len(),
{
    if files.len() == 0 {
        Ok(acc)
    } else {
        match spec_process_file(files[0].0@, files[0].1, details) {
            Err(k) => Err(k),
            Ok(docobj) => spec_process_batch(
                files.drop_first(),
                details,
                spec_insert_file_result(acc, files[0].0@, SpecValue::Obj(docobj)),
            ),
        }
    }
}

/// A successful batch holds exactly one entry per file, in completion
/// order: what the fold started with stands unchanged, and every added
/// document's key is absent from all that stands before it, so no
/// document ever displaces another.
pub proof fn lemma_batch_one_entry_per_file(
    files: Seq<(String, Workbook)>,
    details: Seq<SpecValue>,
    acc: SpecObj,
)
    ensures
        spec_process_batch(files, details, acc) matches Ok(m) ==> {
            &&& m.len() == acc.len() + files.len()
            &&& forall|j: int| 0 <= j < acc.len() ==> m[j] == acc[j]
            &&& forall|j: int|
                acc.len() <= j < m.len() ==> !okeys(#[trigger] m.take(j)).contains(m[j].0)
        },
    decreases files.len(),
{
    if files.len() > 0 {
        match spec_process_batch(files, details, acc) {
            Ok(m) => {
                match spec_process_file(files[0].0@, files[0].1, details) {
                    Ok(docobj) => {
                        let key = spec_fresh_key(okeys(acc), spec_file_stem(files[0].0@));
                        let pushed = acc.push((key, SpecValue::Obj(docobj)));
                        lemma_batch_one_entry_per_file(files.drop_first(), details, pushed);
                        assert forall|j: int| 0 <= j < acc.len() implies m[j] == acc[j] by {
                            assert(m[j] == pushed[j]);
                        }
                        assert forall|j: int|
                            acc.len() <= j < m.len() implies !okeys(#[trigger] m.take(j)).contains(
                            m[j].0,
                        ) by {
                            if j == acc.len() {
                                crate::assemble::lemma_fresh_key_fresh(
                                    okeys(acc),
                                    spec_file_stem(files[0].0@),
                                );
                                assert(m[j] == pushed[j]);
                                assert(m.take(j) =~= acc);
                                assert(okeys(m.take(j)) =~= okeys(acc));
                            } else {
                                assert(!okeys(m.take(j)).contains(m[j].0));
                            }
                        }
                    },
                    Err(_) => {},
                }
            },
            Err(_) => {},
        }
    }
}

/// Process every opened workbook under the shared extraction details,
/// in order, and key the documents by base file name. One file's failure
/// fails the whole batch.
pub fn process_batch(files: &Vec<(String, Workbook)>, extraction_details: &Vec<Value>) -> (r:
    Result<Vec<(String, Value)>, ExtractError>)
    ensures
        match r {
            Ok(o) => spec_process_batch(
                files@,
                extraction_details.deep_view(),
                Seq::empty(),
            ) == Ok::<SpecObj, ErrorKind>(o.deep_view()),
            Err(e) => spec_process_batch(
                files@,
                extraction_details.deep_view(),
                Seq::empty(),
            ) == Err::<SpecObj, ErrorKind>(e.kind),
        },
{
    let mut results: Vec<(String, Value)> = Vec::new();
    let mut i: usize = 0;
    proof {
        assert(files@.skip(0) =~= files@);
        assert(results.deep_view() =~= Seq::<(Seq<char>, SpecValue)>::empty());
    }
    while i < files.len()
        invariant
            i <= files.len(),
            spec_process_batch(files@, extraction_details.deep_view(), Seq::empty())
                == spec_process_batch(
                files@.skip(i as int),
                extraction_details.deep_view(),
                results.deep_view(),
            ),
        decreases files.len() - i,
    {
        let ghost rest = files@.skip(i as int);
        proof {
            assert(rest[0] == files@[i as int]);
            assert(rest.drop_first() =~= files@.skip(i as int + 1));
        }
        let (path, workbook) = &files[i];
        let doc = match process_file(path, workbook, extraction_details) {
            Ok(d) => d,
            Err(e) => {
                return Err(e);
            },
        };
        insert_file_result(&mut results, path.as_str(), doc);
        i = i + 1;
    }
    proof {
        assert(files@.skip(files.len() as int) =~= Seq::<(String, Workbook)>::empty());
    }
    Ok(results)
}

} // verus!
