//! Folding rule fragments into a sheet's result and sheet results into a
//! file's document: flat merges never overwrite and disambiguate keys by
//! numeric suffixing, labeled merges nest under the label and do overwrite.
use vstd::prelude::*;
use vstd::string::*;
use vstd::set_lib::lemma_len_subset;
use crate::text::{dec_of, lemma_dec_of_val, u64_to_dec};
use crate::values::{
    lemma_oget_oset_other, lemma_oget_oset_same, lemma_oset_at, lemma_oset_append,
    obj_contains_key, obj_find, obj_set, ocontains, oget, okeys, oset, SpecObj, SpecValue, Value,
};

verus! {

/// `base` with the numeric suffix `k` appended after an underscore.
pub open spec fn suffixed(base: Seq<char>, k: nat) -> Seq<char> {
    base + seq!['_'] + dec_of(k)
}

pub proof fn lemma_suffixed_injective(base: Seq<char>, a: nat, b: nat)
    requires
        suffixed(base, a) == suffixed(base, b),
    ensures
        a == b,
{
    let sa = suffixed(base, a);
    let sb = suffixed(base, b);
    lemma_dec_of_val(a);
    lemma_dec_of_val(b);
    assert(sa.len() == base.len() + 1 + dec_of(a).len());
    assert(dec_of(a).len() == dec_of(b).len());
    assert(dec_of(a) =~= sa.skip(base.len() as int + 1));
    assert(dec_of(b) =~= sb.skip(base.len() as int + 1));
}

/// The first fresh suffixed key at or after counter `k`; the fuel is a
/// proof bound, never exhausted when it exceeds the number of keys left.
pub open spec fn spec_fresh_from(keys: Seq<Seq<char>>, base: Seq<char>, k: nat, fuel: nat) -> Seq<
    char,
>
    decreases fuel,
{
    if fuel == 0 {
        suffixed(base, k)
    } else if !keys.contains(suffixed(base, k)) {
        suffixed(base, k)
    } else {
        spec_fresh_from(keys, base, k + 1, (fuel - 1) as nat)
    }
}

/// The key a value lands under when `base` is taken: `base` itself when
/// free, else `base` with the smallest fresh numeric suffix.
pub open spec fn spec_fresh_key(keys: Seq<Seq<char>>, base: Seq<char>) -> Seq<char> {
    if !keys.contains(base) {
        base
    } else {
        spec_fresh_from(keys, base, 1, keys.len() + 1)
    }
}

/// When `base` itself is taken, one of its first `n` suffixed forms is
/// free: the base and those forms are `n + 1` distinct names, and only
/// `n` keys exist to hold them.
proof fn lemma_exists_free(keys: Seq<Seq<char>>, base: Seq<char>, n: nat)
    requires
        keys.len() == n,
        keys.contains(base),
    ensures
        exists|j: nat| 1 <= j <= n && !keys.contains(#[trigger] suffixed(base, j)),
{
    if forall|j: nat| 1 <= j <= n ==> keys.contains(#[trigger] suffixed(base, j)) {
        let cs = Seq::new(
            (n + 1) as nat,
            |i: int| if i == 0 { base } else { suffixed(base, i as nat) },
        );
        assert forall|i: int, j: int| 0 <= i < j < cs.len() implies cs[i] != cs[j] by {
            if i == 0 {
                lemma_dec_of_val(j as nat);
                assert(suffixed(base, j as nat).len() >= base.len() + 2);
            } else if cs[i] == cs[j] {
                lemma_suffixed_injective(base, i as nat, j as nat);
            }
        }
        assert(cs.no_duplicates());
        cs.unique_seq_to_set();
        keys.lemma_cardinality_of_set();
        assert forall|x: Seq<char>| cs.to_set().contains(x) implies keys.to_set().contains(
            x,
        ) by {
            let i = choose|i: int| 0 <= i < cs.len() && cs[i] == x;
            if i == 0 {
                assert(keys.contains(base));
            } else {
                assert(keys.contains(suffixed(base, i as nat)));
            }
        }
        assert(cs.to_set() <= keys.to_set());
        lemma_len_subset(cs.to_set(), keys.to_set());
        assert(false);
    }
}

/// Walking the counters from `k` reaches a free name before the fuel
/// runs out whenever one is known to lie in reach.
proof fn lemma_fresh_from_fresh(
    keys: Seq<Seq<char>>,
    base: Seq<char>,
    k: nat,
    fuel: nat,
    j: nat,
)
    requires
        k <= j,
        j < k + fuel,
        !keys.contains(suffixed(base, j)),
    ensures
        !keys.contains(spec_fresh_from(keys, base, k, fuel)),
    decreases fuel,
{
    if keys.contains(suffixed(base, k)) {
        lemma_fresh_from_fresh(keys, base, k + 1, (fuel - 1) as nat, j);
    }
}

/// The chosen key is never one the object already holds: the base when
/// the base is free, else a suffixed name that is free.
pub proof fn lemma_fresh_key_fresh(keys: Seq<Seq<char>>, base: Seq<char>)
    ensures
        !keys.contains(spec_fresh_key(keys, base)),
{
    if keys.contains(base) {
        lemma_exists_free(keys, base, keys.len());
        let j = choose|j: nat| 1 <= j <= keys.len() && !keys.contains(#[trigger] suffixed(base, j));
        lemma_fresh_from_fresh(keys, base, 1, keys.len() + 1, j);
    }
}

/// A key under which `value` can land in the object without displacing
/// anything: the base name, or the base with the smallest fresh suffix.
pub fn fresh_key(entries: &Vec<(String, Value)>, base: &String) -> (r: String)
    ensures
        r@ == spec_fresh_key(okeys(entries.deep_view()), base@),
        !ocontains(entries.deep_view(), r@),
{
    proof {
        assert forall|key: Seq<char>| okeys(entries.deep_view()).contains(key) implies ocontains(
            entries.deep_view(),
            key,
        ) by {
            let i = choose|i: int|
                0 <= i < entries.deep_view().len() && okeys(entries.deep_view())[i] == key;
            assert(entries.deep_view()[i].0 == key);
        }
        assert forall|key: Seq<char>| ocontains(entries.deep_view(), key) implies okeys(
            entries.deep_view(),
        ).contains(key) by {
            let i = choose|i: int|
                0 <= i < entries.deep_view().len() && entries.deep_view()[i].0 == key;
            assert(okeys(entries.deep_view())[i] == key);
        }
    }
    let ghost keys = okeys(entries.deep_view());
    if !obj_contains_key(entries, base.as_str()) {
        return base.clone();
    }
    let n = entries.len();
    proof {
        assert(entries@.len() == n);
        assert(entries.deep_view().len() == entries@.len());
        assert(keys.len() == entries.deep_view().len());
    }
    proof {
        lemma_exists_free(keys, base@, n as nat);
    }
    let ghost jfree = choose|j: nat| 1 <= j <= n && !keys.contains(suffixed(base@, j));
    let mut k: usize = 1;
    loop
        invariant
            1 <= k <= jfree <= n,
            n == keys.len(),
            keys == okeys(entries.deep_view()),
            keys.contains(base@),
            !keys.contains(suffixed(base@, jfree)),
            forall|j: nat| 1 <= j < k ==> keys.contains(#[trigger] suffixed(base@, j)),
            spec_fresh_key(keys, base@) == spec_fresh_from(
                keys,
                base@,
                k as nat,
                (keys.len() + 2 - k) as nat,
            ),
        decreases jfree - k,
    {
        let mut cand = base.clone();
        cand.append("_");
        let dec = u64_to_dec(k as u64);
        cand.append(dec.as_str());
        proof {
            reveal_strlit("_");
            assert(cand@ =~= suffixed(base@, k as nat));
        }
        if !obj_contains_key(entries, cand.as_str()) {
            return cand;
        }
        proof {
            assert(k as nat != jfree);
        }
        k = k + 1;
    }
}

/// Flat merge: every fragment binding lands beside the existing ones,
/// under a suffixed key when its own is taken; nothing is overwritten.
pub open spec fn spec_merge_unlabeled(results: SpecObj, fragment: SpecObj) -> SpecObj
    decreases fragment.len(),
{
    if fragment.len() == 0 {
        results
    } else {
        let key = spec_fresh_key(okeys(results), fragment[0].0);
        spec_merge_unlabeled(results.push((key, fragment[0].1)), fragment.drop_first())
    }
}

/// Merge a fragment flat into the sheet's results, suffixing on collision.
pub fn merge_unlabeled(results: &mut Vec<(String, Value)>, fragment: Vec<(String, Value)>)
    ensures
        final(results).deep_view() == spec_merge_unlabeled(
            old(results).deep_view(),
            fragment.deep_view(),
        ),
{
    let mut fragment = fragment;
    let ghost frag0 = fragment.deep_view();
    while fragment.len() > 0
        invariant
            spec_merge_unlabeled(old(results).deep_view(), frag0) == spec_merge_unlabeled(
                results.deep_view(),
                fragment.deep_view(),
            ),
        decreases fragment.len(),
    {
        let ghost fdv = fragment.deep_view();
        let (k, v) = fragment.remove(0);
        proof {
            assert(fragment.deep_view() =~= fdv.drop_first());
        }
        let fk = fresh_key(results, &k);
        let ghost rdv = results.deep_view();
        results.push((fk, v));
        proof {
            assert(results.deep_view() =~= rdv.push((spec_fresh_key(okeys(rdv), k@), v.dv())));
        }
    }
    proof {
        assert(fragment.deep_view().len() == 0);
    }
}

/// A flat merge never displaces anything: every binding the results held
/// stands unchanged at its place, each fragment entry adds exactly one
/// binding after them, and every added binding's key is absent from all
/// that stands before it.
pub proof fn lemma_merge_unlabeled_keeps_existing(results: SpecObj, fragment: SpecObj)
    ensures
        spec_merge_unlabeled(results, fragment).len() == results.len() + fragment.len(),
        forall|j: int|
            0 <= j < results.len() ==> spec_merge_unlabeled(results, fragment)[j] == results[j],
        forall|j: int|
            results.len() <= j < spec_merge_unlabeled(results, fragment).len() ==> !okeys(
                #[trigger] spec_merge_unlabeled(results, fragment).take(j),
            ).contains(spec_merge_unlabeled(results, fragment)[j].0),
    decreases fragment.len(),
{
    let merged = spec_merge_unlabeled(results, fragment);
    if fragment.len() > 0 {
        let key = spec_fresh_key(okeys(results), fragment[0].0);
        let pushed = results.push((key, fragment[0].1));
        lemma_merge_unlabeled_keeps_existing(pushed, fragment.drop_first());
        assert forall|j: int| 0 <= j < results.len() implies merged[j] == results[j] by {
            assert(merged[j] == pushed[j]);
        }
        assert forall|j: int|
            results.len() <= j < merged.len() implies !okeys(#[trigger] merged.take(j)).contains(
            merged[j].0,
        ) by {
            if j == results.len() {
                lemma_fresh_key_fresh(okeys(results), fragment[0].0);
                assert(merged[j] == pushed[j]);
                assert(merged.take(j) =~= results);
                assert(okeys(merged.take(j)) =~= okeys(results));
            } else {
                assert(!okeys(merged.take(j)).contains(merged[j].0));
            }
        }
    }
}

/// The value the fragment binds a key to last, scanning from the front.
pub open spec fn last_value(fragment: SpecObj, key: Seq<char>) -> Option<SpecValue>
    decreases fragment.len(),
{
    if fragment.len() == 0 {
        None
    } else {
        match last_value(fragment.drop_first(), key) {
            Some(v) => Some(v),
            None => if fragment[0].0 == key {
                Some(fragment[0].1)
            } else {
                None
            },
        }
    }
}

/// Folding a fragment over an object overwrites: a key the fragment
/// binds reads back the fragment's last value for it, and every other
/// key keeps the value it had.
pub proof fn lemma_merge_entries_last_wins(target: SpecObj, fragment: SpecObj, key: Seq<char>)
    ensures
        oget(spec_merge_entries(target, fragment), key) == (match last_value(fragment, key) {
            Some(v) => Some(v),
            None => oget(target, key),
        }),
    decreases fragment.len(),
{
    if fragment.len() > 0 {
        let t2 = oset(target, fragment[0].0, fragment[0].1);
        lemma_merge_entries_last_wins(t2, fragment.drop_first(), key);
        if last_value(fragment.drop_first(), key) is None {
            if fragment[0].0 == key {
                lemma_oget_oset_same(target, key, fragment[0].1);
            } else {
                lemma_oget_oset_other(target, fragment[0].0, fragment[0].1, key);
            }
        }
    }
}

/// A labeled merge into an existing nested object leaves the label bound
/// to that object with the fragment folded in.
pub proof fn lemma_merge_labeled_nests(
    results: SpecObj,
    label: Seq<char>,
    fragment: SpecObj,
    existing: SpecObj,
)
    requires
        oget(results, label) == Some(SpecValue::Obj(existing)),
    ensures
        oget(spec_merge_labeled(results, label, fragment), label) == Some(
            SpecValue::Obj(spec_merge_entries(existing, fragment)),
        ),
{
    lemma_oget_oset_same(
        results,
        label,
        SpecValue::Obj(spec_merge_entries(existing, fragment)),
    );
}

/// Fold a fragment's bindings into an object, overwriting existing keys.
pub open spec fn spec_merge_entries(target: SpecObj, fragment: SpecObj) -> SpecObj
    decreases fragment.len(),
{
    if fragment.len() == 0 {
        target
    } else {
        spec_merge_entries(oset(target, fragment[0].0, fragment[0].1), fragment.drop_first())
    }
}

/// Labeled merge: the fragment nests under the label; when the label
/// already holds an object, the fragment's keys are folded into it and
/// existing keys are overwritten; any other existing value is replaced.
pub open spec fn spec_merge_labeled(results: SpecObj, label: Seq<char>, fragment: SpecObj) -> SpecObj {
    match oget(results, label) {
        Some(SpecValue::Obj(existing)) => oset(
            results,
            label,
            SpecValue::Obj(spec_merge_entries(existing, fragment)),
        ),
        _ => oset(results, label, SpecValue::Obj(fragment)),
    }
}

/// Two rules sharing a label, the label previously unused: the sheet
/// object under the label is the first fragment with the second folded
/// in, so for any key the second fragment's last value wins and keys
/// only the first fragment set persist.
pub proof fn lemma_labeled_twice(
    results: SpecObj,
    label: Seq<char>,
    first: SpecObj,
    second: SpecObj,
    key: Seq<char>,
)
    requires
        oget(results, label) is None,
    ensures
        ({
            let once = spec_merge_labeled(results, label, first);
            let twice = spec_merge_labeled(once, label, second);
            &&& oget(twice, label) == Some(SpecValue::Obj(spec_merge_entries(first, second)))
            &&& oget(spec_merge_entries(first, second), key) == (match last_value(second, key) {
                Some(v) => Some(v),
                None => oget(first, key),
            })
        }),
{
    let once = spec_merge_labeled(results, label, first);
    lemma_oget_oset_same(results, label, SpecValue::Obj(first));
    lemma_merge_labeled_nests(once, label, second, first);
    lemma_merge_entries_last_wins(first, second, key);
}

/// Merge a fragment into the results under `label`.
pub fn merge_labeled(results: &mut Vec<(String, Value)>, label: &String, fragment: Vec<(String, Value)>)
    ensures
        final(results).deep_view() == spec_merge_labeled(
            old(results).deep_view(),
            label@,
            fragment.deep_view(),
        ),
{
    let found = obj_find(results, label.as_str());
    match found {
        Some(i) => {
            let ghost rdv = results.deep_view();
            let entry = results.remove(i);
            let ghost entry_dv = (entry.0@, entry.1.dv());
            proof {
                assert(rdv[i as int] == entry_dv);
            }
            match entry.1 {
                Value::Obj(mut existing) => {
                    let ghost edv = existing.deep_view();
                    proof {
                        assert(entry_dv.1->Obj_0 =~= edv);
                        assert(rdv[i as int].1 == SpecValue::Obj(edv));
                    }
                    let mut fragment = fragment;
                    let ghost frag0 = fragment.deep_view();
                    while fragment.len() > 0
                        invariant
                            spec_merge_entries(edv, frag0) == spec_merge_entries(
                                existing.deep_view(),
                                fragment.deep_view(),
                            ),
                        decreases fragment.len(),
                    {
                        let ghost fdv = fragment.deep_view();
                        let (k, v) = fragment.remove(0);
                        proof {
                            assert(fragment.deep_view() =~= fdv.drop_first());
                        }
                        obj_set(&mut existing, k, v);
                    }
                    let merged = Value::Obj(existing);
                    proof {
                        assert(merged.dv()->Obj_0 =~= merged->Obj_0.deep_view());
                        lemma_oset_at(rdv, label@, merged.dv(), i as int);
                    }
                    results.insert(i, (entry.0, merged));
                    proof {
                        assert(results.deep_view() =~= rdv.update(i as int, (label@, merged.dv())));
                    }
                },
                other => {
                    let fresh = Value::Obj(fragment);
                    proof {
                        assert(fresh.dv()->Obj_0 =~= fresh->Obj_0.deep_view());
                        assert(!(rdv[i as int].1 is Obj));
                        lemma_oset_at(rdv, label@, fresh.dv(), i as int);
                    }
                    results.insert(i, (entry.0, fresh));
                    proof {
                        assert(results.deep_view() =~= rdv.update(i as int, (label@, fresh.dv())));
                    }
                },
            }
        },
        None => {
            let fresh = Value::Obj(fragment);
            let ghost rdv = results.deep_view();
            proof {
                assert(fresh.dv()->Obj_0 =~= fresh->Obj_0.deep_view());
                lemma_oset_append(rdv, label@, fresh.dv());
            }
            results.push((label.clone(), fresh));
            proof {
                assert(results.deep_view() =~= rdv.push((label@, fresh.dv())));
            }
        },
    }
}

} // verus!
