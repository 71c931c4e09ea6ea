use vstd::prelude::*;
use crate::text::str_eq;

verus! {

/// The failure taxonomy of the library.
#[derive(Clone, Copy, PartialEq, Eq, Structural, Debug)]
pub enum ErrorKind {
    /// A cell reference or column label could not be decoded.
    InvalidAddress,
    /// A numeric cell held no representable number, or a serial date
    /// fell outside the calendar.
    InvalidNumber,
    /// The cell holds a spreadsheet error marker.
    CellError,
    /// The cell type has no canonical form.
    UnsupportedType,
    /// The extraction instructions are malformed.
    SpecValidation,
}

/// An extraction failure: its kind, and a human-readable detail line.
#[derive(Debug)]
pub struct ExtractError {
    pub kind: ErrorKind,
    pub detail: String,
}

impl ExtractError {
    pub fn new(kind: ErrorKind, detail: &str) -> (r: ExtractError)
        ensures
            r.kind == kind,
            r.detail@ == detail@,
    {
        ExtractError { kind, detail: detail.to_owned() }
    }

    /// The detail line of this error.
    pub fn message(&self) -> (r: String)
        ensures
            r@ == self.detail@,
    {
        self.detail.clone()
    }
}

/// A canonical extracted value: the universal output type of the pipeline.
/// Objects are insertion-ordered key/value lists, so column order and
/// merge order are observable to callers.
#[derive(Debug)]
pub enum Value {
    Null,
    Bool(bool),
    Int(i64),
    Num(String),
    Str(String),
    Arr(Vec<Value>),
    Obj(Vec<(String, Value)>),
}

/// Mathematical model of a `Value`.
#[verifier::ext_equal]
pub enum SpecValue {
    Null,
    Bool(bool),
    Int(int),
    Num(Seq<char>),
    Str(Seq<char>),
    Arr(Seq<SpecValue>),
    Obj(Seq<(Seq<char>, SpecValue)>),
}

impl Value {
    /// Mathematical model of this value.
    pub open spec fn dv(self) -> SpecValue
        decreases self,
    {
        match self {
            Value::Null => SpecValue::Null,
            Value::Bool(b) => SpecValue::Bool(b),
            Value::Int(i) => SpecValue::Int(i as int),
            Value::Num(s) => SpecValue::Num(s@),
            Value::Str(s) => SpecValue::Str(s@),
            Value::Arr(a) => SpecValue::Arr(
                Seq::new(
                    a.len() as nat,
                    |i: int|
                        if 0 <= i < a.len() {
                            a[i].dv()
                        } else {
                            SpecValue::Null
                        },
                ),
            ),
            Value::Obj(entries) => SpecValue::Obj(
                Seq::new(
                    entries.len() as nat,
                    |i: int|
                        if 0 <= i < entries.len() {
                            (entries[i].0@, entries[i].1.dv())
                        } else {
                            (Seq::empty(), SpecValue::Null)
                        },
                ),
            ),
        }
    }
}

impl DeepView for Value {
    type V = SpecValue;

    open spec fn deep_view(&self) -> SpecValue {
        (*self).dv()
    }
}

impl Value {
    /// Structural copy of a value tree.
    pub fn dup(&self) -> (r: Value)
        ensures
            r.deep_view() == self.deep_view(),
        decreases self,
    {
        match self {
            Value::Null => Value::Null,
            Value::Bool(b) => Value::Bool(*b),
            Value::Int(i) => Value::Int(*i),
            Value::Num(s) => Value::Num(s.clone()),
            Value::Str(s) => Value::Str(s.clone()),
            Value::Arr(a) => {
                let mut out: Vec<Value> = Vec::new();
                let mut i: usize = 0;
                while i < a.len()
                    invariant
                        i <= a.len(),
                        out.deep_view() == a.deep_view().take(i as int),
                    decreases a.len() - i,
                {
                    out.push(a[i].dup());
                    assert(out.deep_view() =~= a.deep_view().take(i + 1 as int));
                    i = i + 1;
                }
                assert(a.deep_view().take(a.len() as int) =~= a.deep_view());
                let res = Value::Arr(out);
                proof {
                    let s1 = res.deep_view()->Arr_0;
                    let s2 = self.deep_view()->Arr_0;
                    assert(out.len() == a.len());
                    assert forall|j: int| 0 <= j < s1.len() implies s1[j] == s2[j] by {
                        assert(out.deep_view()[j] == a.deep_view().take(a.len() as int)[j]);
                    }
                    assert(s1 =~= s2);
                    assert(res.deep_view() == SpecValue::Arr(s1));
                    assert(self.deep_view() == SpecValue::Arr(s2));
                }
                res
            },
            Value::Obj(entries) => {
                let mut out: Vec<(String, Value)> = Vec::new();
                let mut i: usize = 0;
                while i < entries.len()
                    invariant
                        i <= entries.len(),
                        out.deep_view() == entries.deep_view().take(i as int),
                    decreases entries.len() - i,
                {
                    let (k, v) = &entries[i];
                    out.push((k.clone(), v.dup()));
                    assert(out.deep_view() =~= entries.deep_view().take(i + 1 as int));
                    i = i + 1;
                }
                assert(entries.deep_view().take(entries.len() as int) =~= entries.deep_view());
                let res = Value::Obj(out);
                proof {
                    let s1 = res.deep_view()->Obj_0;
                    let s2 = self.deep_view()->Obj_0;
                    assert(out.len() == entries.len());
                    assert forall|j: int| 0 <= j < s1.len() implies s1[j] == s2[j] by {
                        assert(s1[j] == (out[j].0@, out[j].1.deep_view()));
                        assert(out.deep_view()[j] == (out[j].0@, out[j].1.deep_view()));
                        assert(out.deep_view()[j] == entries.deep_view().take(entries.len() as int)[j]);
                        assert(s2[j] == (entries[j].0@, entries[j].1.deep_view()));
                    }
                    assert(s1 =~= s2);
                    assert(res.deep_view() == SpecValue::Obj(s1));
                    assert(self.deep_view() == SpecValue::Obj(s2));
                }
                res
            },
        }
    }
}

/// An object model: keys with their values, in insertion order.
pub type SpecObj = Seq<(Seq<char>, SpecValue)>;

/// The keys of an object model, in order.
pub open spec fn okeys(entries: SpecObj) -> Seq<Seq<char>> {
    entries.map_values(|e: (Seq<char>, SpecValue)| e.0)
}

/// Does the object hold `key`?
pub open spec fn ocontains(entries: SpecObj, key: Seq<char>) -> bool {
    exists|i: int| 0 <= i < entries.len() && entries[i].0 == key
}

/// The value under `key`: the first binding wins.
pub open spec fn oget(entries: SpecObj, key: Seq<char>) -> Option<SpecValue>
    decreases entries.len(),
{
    if entries.len() == 0 {
        None
    } else if entries[0].0 == key {
        Some(entries[0].1)
    } else {
        oget(entries.drop_first(), key)
    }
}

/// Bind `key` to `value`: the first existing binding is replaced in place,
/// otherwise the binding is appended.
pub open spec fn oset(entries: SpecObj, key: Seq<char>, value: SpecValue) -> SpecObj
    decreases entries.len(),
{
    if entries.len() == 0 {
        seq![(key, value)]
    } else if entries[0].0 == key {
        seq![(key, value)] + entries.drop_first()
    } else {
        seq![entries[0]] + oset(entries.drop_first(), key, value)
    }
}

pub proof fn lemma_oget_at(entries: SpecObj, key: Seq<char>, i: int)
    requires
        0 <= i < entries.len(),
        entries[i].0 == key,
        forall|j: int| 0 <= j < i ==> entries[j].0 != key,
    ensures
        oget(entries, key) == Some(entries[i].1),
    decreases entries.len(),
{
    if i > 0 {
        lemma_oget_at(entries.drop_first(), key, i - 1);
    }
}

pub proof fn lemma_oget_none(entries: SpecObj, key: Seq<char>)
    requires
        forall|j: int| 0 <= j < entries.len() ==> entries[j].0 != key,
    ensures
        oget(entries, key) is None,
    decreases entries.len(),
{
    if entries.len() > 0 {
        lemma_oget_none(entries.drop_first(), key);
    }
}

/// Binding a key makes that key read back the bound value.
pub proof fn lemma_oget_oset_same(entries: SpecObj, key: Seq<char>, value: SpecValue)
    ensures
        oget(oset(entries, key, value), key) == Some(value),
    decreases entries.len(),
{
    if entries.len() > 0 && entries[0].0 != key {
        lemma_oget_oset_same(entries.drop_first(), key, value);
        assert(oset(entries, key, value).drop_first() =~= oset(
            entries.drop_first(),
            key,
            value,
        ));
    } else if entries.len() > 0 {
        assert(oset(entries, key, value)[0] == (key, value));
    } else {
        assert(oset(entries, key, value)[0] == (key, value));
    }
}

/// Binding one key leaves every other key's reading unchanged.
pub proof fn lemma_oget_oset_other(
    entries: SpecObj,
    key: Seq<char>,
    value: SpecValue,
    other: Seq<char>,
)
    requires
        other != key,
    ensures
        oget(oset(entries, key, value), other) == oget(entries, other),
    decreases entries.len(),
{
    if entries.len() == 0 {
        let m = oset(entries, key, value);
        assert(m[0] == (key, value));
        assert(m.drop_first() =~= Seq::<(Seq<char>, SpecValue)>::empty());
        assert(oget(m.drop_first(), other) is None);
    } else if entries[0].0 == key {
        assert(oset(entries, key, value).drop_first() =~= entries.drop_first());
    } else {
        lemma_oget_oset_other(entries.drop_first(), key, value, other);
        assert(oset(entries, key, value).drop_first() =~= oset(
            entries.drop_first(),
            key,
            value,
        ));
    }
}

pub proof fn lemma_oset_at(entries: SpecObj, key: Seq<char>, value: SpecValue, i: int)
    requires
        0 <= i < entries.len(),
        entries[i].0 == key,
        forall|j: int| 0 <= j < i ==> entries[j].0 != key,
    ensures
        oset(entries, key, value) =~= entries.update(i, (key, value)),
    decreases entries.len(),
{
    if i > 0 {
        lemma_oset_at(entries.drop_first(), key, value, i - 1);
        assert(entries.drop_first().update(i - 1, (key, value)) =~= entries.update(
            i,
            (key, value),
        ).drop_first());
    }
}

pub proof fn lemma_oset_append(entries: SpecObj, key: Seq<char>, value: SpecValue)
    requires
        forall|j: int| 0 <= j < entries.len() ==> entries[j].0 != key,
    ensures
        oset(entries, key, value) =~= entries.push((key, value)),
    decreases entries.len(),
{
    if entries.len() > 0 {
        lemma_oset_append(entries.drop_first(), key, value);
        assert(entries.drop_first().push((key, value)) =~= entries.push((key, value)).drop_first());
    }
}

impl Value {
    /// Is this the null value?
    pub fn is_null(&self) -> (r: bool)
        ensures
            r == (self.dv() is Null),
    {
        match self {
            Value::Null => true,
            _ => false,
        }
    }

    /// The value as an unsigned integer, if it is a non-negative integer.
    pub fn as_u64(&self) -> (r: Option<u64>)
        ensures
            r == spec_as_u64(self.dv()),
    {
        match self {
            Value::Int(i) => {
                if *i >= 0 {
                    Some(*i as u64)
                } else {
                    None
                }
            },
            _ => None,
        }
    }

    /// The value as a string, if it is one.
    pub fn as_str(&self) -> (r: Option<&String>)
        ensures
            match r {
                Some(s) => self.dv() == SpecValue::Str(s@),
                None => !(self.dv() is Str),
            },
    {
        match self {
            Value::Str(s) => Some(s),
            _ => None,
        }
    }

    /// The value as an array, if it is one.
    pub fn as_array(&self) -> (r: Option<&Vec<Value>>)
        ensures
            match r {
                Some(a) => self.dv() == SpecValue::Arr(a.deep_view()),
                None => !(self.dv() is Arr),
            },
    {
        match self {
            Value::Arr(a) => {
                proof {
                    assert(self.dv()->Arr_0 =~= a.deep_view());
                }
                Some(a)
            },
            _ => None,
        }
    }

    /// The value as an object, if it is one.
    pub fn as_object(&self) -> (r: Option<&Vec<(String, Value)>>)
        ensures
            match r {
                Some(o) => self.dv() == SpecValue::Obj(o.deep_view()),
                None => !(self.dv() is Obj),
            },
    {
        match self {
            Value::Obj(entries) => {
                proof {
                    assert(self.dv()->Obj_0 =~= entries.deep_view());
                }
                Some(entries)
            },
            _ => None,
        }
    }
}

/// The unsigned integer a value stands for, if any.
pub open spec fn spec_as_u64(v: SpecValue) -> Option<u64> {
    match v {
        SpecValue::Int(i) => if 0 <= i <= u64::MAX {
            Some(i as u64)
        } else {
            None
        },
        _ => None,
    }
}

/// Does the object hold `key`?
pub fn obj_contains_key(entries: &Vec<(String, Value)>, key: &str) -> (r: bool)
    ensures
        r == ocontains(entries.deep_view(), key@),
{
    let mut i: usize = 0;
    while i < entries.len()
        invariant
            i <= entries.len(),
            forall|j: int| 0 <= j < i ==> entries.deep_view()[j].0 != key@,
        decreases entries.len() - i,
    {
        if str_eq(entries[i].0.as_str(), key) {
            proof {
                assert(entries.deep_view()[i as int].0 == key@);
            }
            return true;
        }
        i = i + 1;
    }
    false
}

/// The first index bound to `key`, if any.
pub fn obj_find(entries: &Vec<(String, Value)>, key: &str) -> (r: Option<usize>)
    ensures
        match r {
            Some(i) => i < entries.len() && entries.deep_view()[i as int].0 == key@ && (forall|
                j: int,
            | 0 <= j < i ==> entries.deep_view()[j].0 != key@) && oget(entries.deep_view(), key@)
                == Some(entries.deep_view()[i as int].1),
            None => !ocontains(entries.deep_view(), key@) && oget(entries.deep_view(), key@)
                is None,
        },
{
    let mut i: usize = 0;
    while i < entries.len()
        invariant
            i <= entries.len(),
            forall|j: int| 0 <= j < i ==> entries.deep_view()[j].0 != key@,
        decreases entries.len() - i,
    {
        if str_eq(entries[i].0.as_str(), key) {
            proof {
                lemma_oget_at(entries.deep_view(), key@, i as int);
            }
            return Some(i);
        }
        i = i + 1;
    }
    proof {
        lemma_oget_none(entries.deep_view(), key@);
    }
    None
}

/// Bind `key` to `value` in the object: replace the first existing binding
/// in place, else append.
pub fn obj_set(entries: &mut Vec<(String, Value)>, key: String, value: Value)
    ensures
        final(entries).deep_view() == oset(old(entries).deep_view(), key@, value.dv()),
{
    let found = obj_find(entries, key.as_str());
    match found {
        Some(i) => {
            proof {
                lemma_oset_at(old(entries).deep_view(), key@, value.dv(), i as int);
            }
            entries.remove(i);
            entries.insert(i, (key, value));
            proof {
                assert(entries.deep_view() =~= old(entries).deep_view().update(
                    i as int,
                    (key@, value.dv()),
                ));
            }
        },
        None => {
            proof {
                lemma_oset_append(old(entries).deep_view(), key@, value.dv());
            }
            entries.push((key, value));
            proof {
                assert(entries.deep_view() =~= old(entries).deep_view().push((key@, value.dv())));
            }
        },
    }
}

impl Value {
    /// Structural equality of two value trees.
    pub fn deep_eq(&self, other: &Value) -> (r: bool)
        ensures
            r == (self.dv() == other.dv()),
        decreases self,
    {
        match (self, other) {
            (Value::Null, Value::Null) => true,
            (Value::Bool(a), Value::Bool(b)) => a == b,
            (Value::Int(a), Value::Int(b)) => a == b,
            (Value::Num(a), Value::Num(b)) => str_eq(a.as_str(), b.as_str()),
            (Value::Str(a), Value::Str(b)) => str_eq(a.as_str(), b.as_str()),
            (Value::Arr(a), Value::Arr(b)) => {
                proof {
                    assert(self.dv()->Arr_0 =~= a.deep_view());
                    assert(other.dv()->Arr_0 =~= b.deep_view());
                }
                if a.len() != b.len() {
                    return false;
                }
                let mut i: usize = 0;
                while i < a.len()
                    invariant
                        i <= a.len(),
                        a.len() == b.len(),
                        forall|j: int| 0 <= j < i ==> a.deep_view()[j] == b.deep_view()[j],
                    decreases a.len() - i,
                {
                    if !a[i].deep_eq(&b[i]) {
                        proof {
                            assert(a.deep_view()[i as int] != b.deep_view()[i as int]);
                        }
                        return false;
                    }
                    i = i + 1;
                }
                proof {
                    assert(a.deep_view() =~= b.deep_view());
                    assert(self.dv()->Arr_0 =~= a.deep_view());
                    assert(other.dv()->Arr_0 =~= b.deep_view());
                }
                true
            },
            (Value::Obj(a), Value::Obj(b)) => {
                proof {
                    assert(self.dv()->Obj_0 =~= a.deep_view());
                    assert(other.dv()->Obj_0 =~= b.deep_view());
                }
                if a.len() != b.len() {
                    return false;
                }
                let mut i: usize = 0;
                while i < a.len()
                    invariant
                        i <= a.len(),
                        a.len() == b.len(),
                        forall|j: int| 0 <= j < i ==> a.deep_view()[j] == b.deep_view()[j],
                    decreases a.len() - i,
                {
                    let (ka, va) = &a[i];
                    let (kb, vb) = &b[i];
                    if !str_eq(ka.as_str(), kb.as_str()) {
                        proof {
                            assert(a.deep_view()[i as int].0 != b.deep_view()[i as int].0);
                        }
                        return false;
                    }
                    if !va.deep_eq(vb) {
                        proof {
                            assert(a.deep_view()[i as int].1 != b.deep_view()[i as int].1);
                        }
                        return false;
                    }
                    proof {
                        assert(a.deep_view()[i as int] == b.deep_view()[i as int]);
                    }
                    i = i + 1;
                }
                proof {
                    assert(a.deep_view() =~= b.deep_view());
                    assert(self.dv()->Obj_0 =~= a.deep_view());
                    assert(other.dv()->Obj_0 =~= b.deep_view());
                }
                true
            },
            _ => false,
        }
    }
}

/// A structural copy of an object's entry list.
pub fn clone_obj(entries: &Vec<(String, Value)>) -> (r: Vec<(String, Value)>)
    ensures
        r.deep_view() == entries.deep_view(),
{
    let mut out: Vec<(String, Value)> = Vec::new();
    let mut i: usize = 0;
    while i < entries.len()
        invariant
            i <= entries.len(),
            out.deep_view() == entries.deep_view().take(i as int),
        decreases entries.len() - i,
    {
        let (k, v) = &entries[i];
        out.push((k.clone(), v.dup()));
        proof {
            assert(out.deep_view() =~= entries.deep_view().take(i + 1 as int));
        }
        i = i + 1;
    }
    proof {
        assert(entries.deep_view().take(entries.len() as int) =~= entries.deep_view());
    }
    out
}

} // verus!
