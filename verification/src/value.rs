use vstd::prelude::*;

verus! {

/// The mathematical model of a structured value. An object is a finite map
/// from key strings to model values; an array is a sequence of model values.
#[verifier::ext_equal]
pub enum SpecValue {
    Null,
    Bool(bool),
    Num(Seq<char>),
    Text(Seq<char>),
    Arr(Seq<SpecValue>),
    Obj(Map<Seq<char>, SpecValue>),
}

/// A structured value: the tree-shaped data model shared by the merge and
/// diff operations. An object is an insertion-ordered vector of entries
/// with pairwise-distinct keys; its model forgets the order.
#[derive(Debug, PartialEq)]
pub enum Value {
    Null,
    Bool(bool),
    Num(String),
    Text(String),
    Arr(Vec<Value>),
    Obj(Vec<(String, Value)>),
}

/// Whether some entry of `s` carries `k` as its key.
pub open spec fn has_key(s: Seq<(String, Value)>, k: Seq<char>) -> bool {
    exists|i: int| 0 <= i < s.len() && s[i].0@ == k
}

/// An index of an entry of `s` whose key is `k` (unique when keys are distinct).
pub open spec fn key_index(s: Seq<(String, Value)>, k: Seq<char>) -> int {
    choose|i: int| 0 <= i < s.len() && s[i].0@ == k
}

/// The sequence of models of an array's elements.
pub open spec fn arr_view(s: Seq<Value>) -> Seq<SpecValue>
    decreases s,
{
    Seq::new(
        s.len(),
        |i: int|
            if 0 <= i < s.len() {
                s[i]@
            } else {
                SpecValue::Null
            },
    )
}

/// The finite map that an entry sequence denotes.
pub open spec fn entries_map(s: Seq<(String, Value)>) -> Map<Seq<char>, SpecValue>
    decreases s,
{
    Map::new(
        |k: Seq<char>| has_key(s, k),
        |k: Seq<char>|
            if has_key(s, k) {
                s[key_index(s, k)].1@
            } else {
                SpecValue::Null
            },
    )
}

impl View for Value {
    type V = SpecValue;

    open spec fn view(&self) -> SpecValue
        decreases self,
    {
        match self {
            Value::Null => SpecValue::Null,
            Value::Bool(b) => SpecValue::Bool(*b),
            Value::Num(s) => SpecValue::Num(s@),
            Value::Text(s) => SpecValue::Text(s@),
            Value::Arr(items) => SpecValue::Arr(arr_view(items@)),
            Value::Obj(entries) => SpecValue::Obj(entries_map(entries@)),
        }
    }
}

/// Pairwise-distinct keys in an entry sequence.
pub open spec fn distinct_keys(s: Seq<(String, Value)>) -> bool {
    forall|i: int, j: int|
        0 <= i < j < s.len() ==> (#[trigger] s[i].0@) != (#[trigger] s[j].0@)
}

/// Well-formed value: every object in the tree has pairwise-distinct keys.
pub open spec fn wf(v: Value) -> bool
    decreases v,
{
    match v {
        Value::Arr(items) => forall|i: int|
            0 <= i < items@.len() ==> wf(#[trigger] items@[i]),
        Value::Obj(entries) => {
            &&& distinct_keys(entries@)
            &&& forall|i: int| 0 <= i < entries@.len() ==> wf(#[trigger] entries@[i].1)
        },
        _ => true,
    }
}

/// A value and its model are the same variant.
pub proof fn lemma_view_variant(v: Value)
    ensures
        v is Null <==> v@ is Null,
        v is Bool <==> v@ is Bool,
        v is Num <==> v@ is Num,
        v is Text <==> v@ is Text,
        v is Arr <==> v@ is Arr,
        v is Obj <==> v@ is Obj,
{
}

/// The elements of a well-formed array are well-formed.
pub proof fn lemma_wf_arr(v: Value)
    requires
        wf(v),
        v is Arr,
    ensures
        forall|i: int| 0 <= i < v->Arr_0@.len() ==> wf(#[trigger] v->Arr_0@[i]),
{
}

/// The entries of a well-formed object carry distinct keys and well-formed
/// values.
pub proof fn lemma_wf_obj(v: Value)
    requires
        wf(v),
        v is Obj,
    ensures
        distinct_keys(v->Obj_0@),
        forall|i: int| 0 <= i < v->Obj_0@.len() ==> wf((#[trigger] v->Obj_0@[i]).1),
{
}

/// With pairwise-distinct keys, entry `i` is the entry that the map lookup
/// finds under its key.
pub proof fn lemma_entry_lookup(s: Seq<(String, Value)>, i: int)
    requires
        distinct_keys(s),
        0 <= i < s.len(),
    ensures
        has_key(s, s[i].0@),
        key_index(s, s[i].0@) == i,
        entries_map(s).dom().contains(s[i].0@),
        entries_map(s)[s[i].0@] == s[i].1@,
{
    assert(has_key(s, s[i].0@));
    let j = key_index(s, s[i].0@);
    if j < i {
        assert(s[j].0@ != s[i].0@);
    } else if i < j {
        assert(s[i].0@ != s[j].0@);
    }
}

/// Entry sequences of equal length whose entries have the same key and the
/// same value model denote the same map.
pub proof fn lemma_entries_map_congruence(s1: Seq<(String, Value)>, s2: Seq<(String, Value)>)
    requires
        distinct_keys(s1),
        s1.len() == s2.len(),
        forall|i: int|
            0 <= i < s1.len() ==> (#[trigger] s1[i]).0@ == (#[trigger] s2[i]).0@ && s1[i].1@
                == s2[i].1@,
    ensures
        distinct_keys(s2),
        entries_map(s1) =~= entries_map(s2),
{
    assert forall|a: int, b: int| 0 <= a < b < s2.len() implies (#[trigger] s2[a].0@)
        != (#[trigger] s2[b].0@) by {
        assert(s1[a].0@ == s2[a].0@ && s1[b].0@ == s2[b].0@);
    }
    assert forall|k: Seq<char>| #[trigger] has_key(s1, k) == has_key(s2, k) by {
        if has_key(s1, k) {
            let i = choose|i: int| 0 <= i < s1.len() && s1[i].0@ == k;
            assert(s2[i].0@ == k);
        }
        if has_key(s2, k) {
            let i = choose|i: int| 0 <= i < s2.len() && s2[i].0@ == k;
            assert(s1[i].0@ == k);
        }
    }
    assert forall|k: Seq<char>| has_key(s1, k) implies entries_map(s1)[k] == entries_map(s2)[k] by {
        let i = key_index(s1, k);
        lemma_entry_lookup(s1, i);
        lemma_entry_lookup(s2, i);
        assert(key_index(s2, k) == i);
    }
}

/// Pushing an entry with a fresh key adds exactly that key to the map.
pub proof fn lemma_entries_push(s: Seq<(String, Value)>, e: (String, Value))
    requires
        distinct_keys(s),
        !has_key(s, e.0@),
    ensures
        distinct_keys(s.push(e)),
        entries_map(s.push(e)) =~= entries_map(s).insert(e.0@, e.1@),
{
    let s2 = s.push(e);
    assert forall|i: int, j: int| 0 <= i < j < s2.len() implies (#[trigger] s2[i].0@)
        != (#[trigger] s2[j].0@) by {
        if j == s.len() {
            assert(s2[i] == s[i]);
            if s[i].0@ == e.0@ {
                assert(has_key(s, e.0@));
            }
        } else {
            assert(s2[i] == s[i] && s2[j] == s[j]);
        }
    }
    assert forall|k: Seq<char>| #[trigger] has_key(s2, k) == (has_key(s, k) || k == e.0@) by {
        if has_key(s2, k) {
            let i = choose|i: int| 0 <= i < s2.len() && s2[i].0@ == k;
            if i < s.len() {
                assert(s2[i] == s[i]);
                assert(has_key(s, k));
            } else {
                assert(s2[i] == e);
            }
        }
        if has_key(s, k) {
            let i = choose|i: int| 0 <= i < s.len() && s[i].0@ == k;
            assert(s2[i] == s[i]);
            assert(has_key(s2, k));
        }
        if k == e.0@ {
            assert(s2[s.len() as int] == e);
            assert(has_key(s2, k));
        }
    }
    assert forall|k: Seq<char>| has_key(s2, k) implies entries_map(s2)[k] == entries_map(s).insert(
        e.0@,
        e.1@,
    )[k] by {
        if k == e.0@ {
            lemma_entry_lookup(s2, s.len() as int);
            assert(s2[s.len() as int] == e);
        } else {
            let i = key_index(s, k);
            lemma_entry_lookup(s, i);
            assert(s2[i] == s[i]);
            lemma_entry_lookup(s2, i);
        }
    }
}

/// Removing entry `i` removes exactly its key from the map.
pub proof fn lemma_entries_remove(s: Seq<(String, Value)>, i: int)
    requires
        distinct_keys(s),
        0 <= i < s.len(),
    ensures
        distinct_keys(s.remove(i)),
        entries_map(s.remove(i)) =~= entries_map(s).remove(s[i].0@),
{
    let s2 = s.remove(i);
    s.remove_ensures(i);
    assert forall|a: int, b: int| 0 <= a < b < s2.len() implies (#[trigger] s2[a].0@)
        != (#[trigger] s2[b].0@) by {
        let a0 = if a < i { a } else { a + 1 };
        let b0 = if b < i { b } else { b + 1 };
        assert(s2[a] == s[a0] && s2[b] == s[b0]);
    }
    assert forall|k: Seq<char>| #[trigger] has_key(s2, k) == (has_key(s, k) && k != s[i].0@) by {
        if has_key(s2, k) {
            let a = choose|a: int| 0 <= a < s2.len() && s2[a].0@ == k;
            let a0 = if a < i { a } else { a + 1 };
            assert(s2[a] == s[a0]);
            assert(has_key(s, k));
            if k == s[i].0@ {
                lemma_entry_lookup(s, i);
                lemma_entry_lookup(s, a0);
            }
        }
        if has_key(s, k) && k != s[i].0@ {
            let a0 = key_index(s, k);
            lemma_entry_lookup(s, a0);
            let a = if a0 < i { a0 } else { a0 - 1 };
            assert(s2[a] == s[a0]);
            assert(has_key(s2, k));
        }
    }
    assert forall|k: Seq<char>| has_key(s2, k) implies entries_map(s2)[k] == entries_map(s)[k] by {
        let a = key_index(s2, k);
        lemma_entry_lookup(s2, a);
        let a0 = if a < i { a } else { a + 1 };
        assert(s2[a] == s[a0]);
        lemma_entry_lookup(s, a0);
    }
}

/// Replacing the value of entry `i`, keeping its key, updates exactly that
/// key in the map.
pub proof fn lemma_entries_update(s: Seq<(String, Value)>, i: int, e: (String, Value))
    requires
        distinct_keys(s),
        0 <= i < s.len(),
        e.0@ == s[i].0@,
    ensures
        distinct_keys(s.update(i, e)),
        entries_map(s.update(i, e)) =~= entries_map(s).insert(e.0@, e.1@),
{
    let s2 = s.update(i, e);
    assert forall|a: int, b: int| 0 <= a < b < s2.len() implies (#[trigger] s2[a].0@)
        != (#[trigger] s2[b].0@) by {
        assert(s2[a].0@ == s[a].0@ && s2[b].0@ == s[b].0@);
    }
    assert forall|k: Seq<char>| #[trigger] has_key(s2, k) == has_key(s, k) by {
        if has_key(s2, k) {
            let a = choose|a: int| 0 <= a < s2.len() && s2[a].0@ == k;
            assert(s2[a].0@ == s[a].0@);
            assert(has_key(s, k));
        }
        if has_key(s, k) {
            let a = choose|a: int| 0 <= a < s.len() && s[a].0@ == k;
            assert(s2[a].0@ == s[a].0@);
            assert(has_key(s2, k));
        }
    }
    assert forall|k: Seq<char>| has_key(s2, k) implies entries_map(s2)[k] == entries_map(s).insert(
        e.0@,
        e.1@,
    )[k] by {
        let a = key_index(s2, k);
        lemma_entry_lookup(s2, a);
        if k == e.0@ {
            lemma_entry_lookup(s, i);
            if a != i {
                assert(s2[a].0@ == s[a].0@);
                lemma_entry_lookup(s, a);
            }
            assert(a == i);
            assert(s2[i] == e);
        } else {
            assert(s2[a].0@ == s[a].0@);
            lemma_entry_lookup(s, a);
            assert(s2[a].1@ == s[a].1@);
        }
    }
}

/// With distinct keys, the denoted map has exactly one key per entry.
pub proof fn lemma_entries_map_len(s: Seq<(String, Value)>)
    requires
        distinct_keys(s),
    ensures
        entries_map(s).dom().finite(),
        entries_map(s).dom().len() == s.len(),
    decreases s.len(),
{
    if s.len() == 0 {
        assert(entries_map(s).dom() =~= Set::<Seq<char>>::empty());
    } else {
        let s0 = s.drop_last();
        let kl = s.last().0@;
        assert forall|a: int, b: int| 0 <= a < b < s0.len() implies (#[trigger] s0[a].0@)
            != (#[trigger] s0[b].0@) by {
            assert(s0[a] == s[a] && s0[b] == s[b]);
        }
        lemma_entries_map_len(s0);
        assert(!has_key(s0, kl)) by {
            if has_key(s0, kl) {
                let a = choose|a: int| 0 <= a < s0.len() && s0[a].0@ == kl;
                assert(s[a] == s0[a]);
                assert(s[a].0@ != s[s.len() - 1].0@);
            }
        }
        assert(entries_map(s).dom() =~= entries_map(s0).dom().insert(kl)) by {
            assert forall|k: Seq<char>| #[trigger] has_key(s, k) == (has_key(s0, k) || k == kl) by {
                if has_key(s, k) {
                    let a = choose|a: int| 0 <= a < s.len() && s[a].0@ == k;
                    if a < s.len() - 1 {
                        assert(s0[a] == s[a]);
                        assert(has_key(s0, k));
                    }
                }
                if has_key(s0, k) {
                    let a = choose|a: int| 0 <= a < s0.len() && s0[a].0@ == k;
                    assert(s[a] == s0[a]);
                    assert(has_key(s, k));
                }
                if k == kl {
                    assert(s[s.len() - 1].0@ == kl);
                    assert(has_key(s, k));
                }
            }
        }
    }
}

/// Two finite sets of keys of equal size, one within the other, are equal.
pub proof fn lemma_subset_same_len(a: Set<Seq<char>>, b: Set<Seq<char>>)
    requires
        a.subset_of(b),
        a.finite(),
        b.finite(),
        a.len() == b.len(),
    ensures
        a =~= b,
{
    if exists|x: Seq<char>| b.contains(x) && !a.contains(x) {
        let x = choose|x: Seq<char>| b.contains(x) && !a.contains(x);
        assert(a.subset_of(b.remove(x)));
        vstd::set_lib::lemma_len_subset(a, b.remove(x));
        assert(false);
    }
}

/// Element-by-element equality of the models of two arrays.
fn arr_eq(xs: &Vec<Value>, ys: &Vec<Value>) -> (r: bool)
    requires
        forall|i: int| 0 <= i < xs@.len() ==> wf(#[trigger] xs@[i]),
        forall|i: int| 0 <= i < ys@.len() ==> wf(#[trigger] ys@[i]),
    ensures
        r == (arr_view(xs@) == arr_view(ys@)),
    decreases *xs,
{
    if xs.len() != ys.len() {
        proof {
            assert(arr_view(xs@).len() != arr_view(ys@).len());
        }
        return false;
    }
    let mut i: usize = 0;
    while i < xs.len()
        invariant
            forall|j: int| 0 <= j < xs@.len() ==> wf(#[trigger] xs@[j]),
            forall|j: int| 0 <= j < ys@.len() ==> wf(#[trigger] ys@[j]),
            i <= xs@.len(),
            xs@.len() == ys@.len(),
            forall|j: int| 0 <= j < i ==> (#[trigger] xs@[j])@ == ys@[j]@,
        decreases xs@.len() - i,
    {
        if !value_eq(&xs[i], &ys[i]) {
            proof {
                assert(arr_view(xs@)[i as int] == xs@[i as int]@);
                assert(arr_view(ys@)[i as int] == ys@[i as int]@);
            }
            return false;
        }
        i += 1;
    }
    proof {
        assert forall|j: int| 0 <= j < xs@.len() implies arr_view(xs@)[j] == arr_view(ys@)[j] by {
            assert(xs@[j]@ == ys@[j]@);
        }
        assert(arr_view(xs@) =~= arr_view(ys@));
    }
    true
}

/// Key-by-key equality of the maps that two entry sequences denote.
fn obj_eq(xe: &Vec<(String, Value)>, ye: &Vec<(String, Value)>) -> (r: bool)
    requires
        distinct_keys(xe@),
        distinct_keys(ye@),
        forall|i: int| 0 <= i < xe@.len() ==> wf((#[trigger] xe@[i]).1),
        forall|i: int| 0 <= i < ye@.len() ==> wf((#[trigger] ye@[i]).1),
    ensures
        r == (entries_map(xe@) == entries_map(ye@)),
    decreases *xe,
{
    proof {
        lemma_entries_map_len(xe@);
        lemma_entries_map_len(ye@);
    }
    if xe.len() != ye.len() {
        proof {
            assert(entries_map(xe@).dom() !== entries_map(ye@).dom());
        }
        return false;
    }
    let mut i: usize = 0;
    while i < xe.len()
        invariant
            distinct_keys(xe@),
            distinct_keys(ye@),
            forall|j: int| 0 <= j < xe@.len() ==> wf((#[trigger] xe@[j]).1),
            forall|j: int| 0 <= j < ye@.len() ==> wf((#[trigger] ye@[j]).1),
            i <= xe@.len(),
            xe@.len() == ye@.len(),
            forall|j: int|
                0 <= j < i ==> entries_map(ye@).dom().contains((#[trigger] xe@[j]).0@)
                    && entries_map(ye@)[xe@[j].0@] == xe@[j].1@,
        decreases xe@.len() - i,
    {
        proof {
            lemma_entry_lookup(xe@, i as int);
        }
        match find_key(ye, &xe[i].0) {
            None => {
                proof {
                    assert(!entries_map(ye@).dom().contains(xe@[i as int].0@));
                    assert(entries_map(xe@) != entries_map(ye@));
                }
                return false;
            },
            Some(j) => {
                proof {
                    lemma_entry_lookup(ye@, j as int);
                }
                if !value_eq(&xe[i].1, &ye[j].1) {
                    proof {
                        let k = xe@[i as int].0@;
                        assert(entries_map(xe@)[k] != entries_map(ye@)[k]);
                    }
                    return false;
                }
            },
        }
        i += 1;
    }
    proof {
        assert forall|k: Seq<char>| entries_map(xe@).dom().contains(k) implies entries_map(
            ye@,
        ).dom().contains(k) && entries_map(ye@)[k] == entries_map(xe@)[k] by {
            let a = key_index(xe@, k);
            lemma_entry_lookup(xe@, a);
        }
        lemma_subset_same_len(entries_map(xe@).dom(), entries_map(ye@).dom());
        assert(entries_map(xe@) =~= entries_map(ye@));
    }
    true
}

/// Finds the position of the entry carrying the given key, if there is one.
pub fn find_key(entries: &Vec<(String, Value)>, key: &String) -> (r: Option<usize>)
    ensures
        match r {
            Some(i) => i < entries@.len() && entries@[i as int].0@ == key@,
            None => !has_key(entries@, key@),
        },
{
    let mut i: usize = 0;
    while i < entries.len()
        invariant
            i <= entries@.len(),
            forall|j: int| 0 <= j < i ==> (#[trigger] entries@[j].0@) != key@,
        decreases entries@.len() - i,
    {
        if entries[i].0 == *key {
            return Some(i);
        }
        i += 1;
    }
    None
}

/// Deep structural equality of the models of two values.
fn value_eq(a: &Value, b: &Value) -> (r: bool)
    requires
        wf(*a),
        wf(*b),
    ensures
        r == (a@ == b@),
    decreases *a,
{
    match (a, b) {
        (Value::Null, Value::Null) => {
            proof {
                assert(a@ == SpecValue::Null && b@ == SpecValue::Null);
            }
            true
        },
        (Value::Bool(x), Value::Bool(y)) => {
            proof {
                assert(a@ == SpecValue::Bool(*x) && b@ == SpecValue::Bool(*y));
            }
            *x == *y
        },
        (Value::Num(x), Value::Num(y)) => {
            proof {
                assert(a@ == SpecValue::Num(x@) && b@ == SpecValue::Num(y@));
            }
            *x == *y
        },
        (Value::Text(x), Value::Text(y)) => {
            proof {
                assert(a@ == SpecValue::Text(x@) && b@ == SpecValue::Text(y@));
            }
            *x == *y
        },
        (Value::Arr(xs), Value::Arr(ys)) => {
            proof {
                assert((*a)->Arr_0 == *xs && (*b)->Arr_0 == *ys);
                assert(a@ == SpecValue::Arr(arr_view(xs@)));
                assert(b@ == SpecValue::Arr(arr_view(ys@)));
                lemma_wf_arr(*a);
                lemma_wf_arr(*b);
                assert(decreases_to!(*a => (*a)->Arr_0));
            }
            arr_eq(xs, ys)
        },
        (Value::Obj(xe), Value::Obj(ye)) => {
            proof {
                assert((*a)->Obj_0 == *xe && (*b)->Obj_0 == *ye);
                assert(a@ == SpecValue::Obj(entries_map(xe@)));
                assert(b@ == SpecValue::Obj(entries_map(ye@)));
                lemma_wf_obj(*a);
                lemma_wf_obj(*b);
                assert(decreases_to!(*a => (*a)->Obj_0));
            }
            obj_eq(xe, ye)
        },
        _ => {
            proof {
                lemma_view_variant(*a);
                lemma_view_variant(*b);
                assert(a@ != b@);
            }
            false
        },
    }
}

impl Value {
    /// True exactly when this value is an object.
    pub fn is_object(&self) -> (r: bool)
        ensures
            r == (self is Obj),
    {
        match self {
            Value::Obj(_) => true,
            _ => false,
        }
    }

    /// True exactly when this value is null.
    pub fn is_null(&self) -> (r: bool)
        ensures
            r == (self is Null),
    {
        match self {
            Value::Null => true,
            _ => false,
        }
    }

    /// Deep structural equality of the models: variant for variant, arrays
    /// element by element in order, objects key by key with order ignored.
    pub fn deep_eq(&self, other: &Value) -> (r: bool)
        requires
            wf(*self),
            wf(*other),
        ensures
            r == (self@ == other@),
    {
        value_eq(self, other)
    }

    /// A deep copy: a fresh value with the same model.
    pub fn deep_clone(&self) -> (r: Value)
        requires
            wf(*self),
        ensures
            r@ == self@,
            wf(r),
        decreases *self,
    {
        match self {
            Value::Null => Value::Null,
            Value::Bool(b) => Value::Bool(*b),
            Value::Num(s) => Value::Num(s.clone()),
            Value::Text(s) => Value::Text(s.clone()),
            Value::Arr(items) => {
                proof {
                    assert(*self == Value::Arr(*items));
                    assert((*self)->Arr_0 == *items);
                    lemma_wf_arr(*self);
                }
                let mut out: Vec<Value> = Vec::new();
                let mut i: usize = 0;
                while i < items.len()
                    invariant
                        wf(*self),
                        *self == Value::Arr(*items),
                        i <= items@.len(),
                        out@.len() == i,
                        forall|j: int| 0 <= j < items@.len() ==> wf(#[trigger] items@[j]),
                        forall|j: int| 0 <= j < i ==> wf(#[trigger] out@[j]),
                        forall|j: int| 0 <= j < i ==> (#[trigger] out@[j])@ == items@[j]@,
                    decreases items@.len() - i,
                {
                    proof {
                        assert((*self)->Arr_0 == *items);
                        assert(decreases_to!(*self => (*self)->Arr_0));
                        assert(decreases_to!(*self => items@[i as int]));
                    }
                    out.push(items[i].deep_clone());
                    i += 1;
                }
                let r = Value::Arr(out);
                proof {
                    assert(r->Arr_0 == out);
                    assert(wf(r));
                    assert(r@->Arr_0 =~= self@->Arr_0);
                    assert(r@ =~= self@);
                }
                r
            },
            Value::Obj(entries) => {
                proof {
                    assert(*self == Value::Obj(*entries));
                    assert((*self)->Obj_0 == *entries);
                    lemma_wf_obj(*self);
                    assert(distinct_keys(entries@));
                }
                let mut out: Vec<(String, Value)> = Vec::new();
                let mut i: usize = 0;
                while i < entries.len()
                    invariant
                        wf(*self),
                        *self == Value::Obj(*entries),
                        i <= entries@.len(),
                        out@.len() == i,
                        distinct_keys(entries@),
                        forall|j: int| 0 <= j < entries@.len() ==> wf((#[trigger] entries@[j]).1),
                        forall|j: int| 0 <= j < i ==> wf((#[trigger] out@[j]).1),
                        forall|j: int|
                            0 <= j < i ==> (#[trigger] out@[j]).0@ == (
                            #[trigger] entries@[j]).0@ && out@[j].1@ == entries@[j].1@,
                    decreases entries@.len() - i,
                {
                    proof {
                        assert((*self)->Obj_0 == *entries);
                        assert(decreases_to!(*self => (*self)->Obj_0));
                        assert(decreases_to!(*self => entries@[i as int].1));
                    }
                    let k = entries[i].0.clone();
                    let v = entries[i].1.deep_clone();
                    out.push((k, v));
                    i += 1;
                }
                let r = Value::Obj(out);
                proof {
                    lemma_entries_map_congruence(entries@, out@);
                    assert(r->Obj_0 == out);
                    assert(wf(r));
                    assert(r@ =~= self@);
                }
                r
            },
        }
    }
}

} // verus!
