use crate::value::{
    distinct_keys, entries_map, find_key, has_key, lemma_entries_push, lemma_entry_lookup,
    lemma_view_variant, lemma_wf_obj, wf, SpecValue, Value,
};
use vstd::prelude::*;

verus! {

/// Whether key `k` must appear in the patch from source object `sm` to
/// target object `tm`: it does when the key is to be deleted (present in the
/// source only), added (present in the target only), or changed (present in
/// both with different values).
pub open spec fn patch_member(
    sm: Map<Seq<char>, SpecValue>,
    tm: Map<Seq<char>, SpecValue>,
    k: Seq<char>,
) -> bool {
    if tm.dom().contains(k) {
        !sm.dom().contains(k) || sm[k] != tm[k]
    } else {
        sm.dom().contains(k)
    }
}

/// The patch that transforms a source into a target, at the model level.
///
/// When either side is not an object the patch is the target verbatim (a
/// full leaf replacement). Otherwise the patch maps each deleted key to
/// null, each added key to the target's value, and each changed key to the
/// recursively computed patch between the two values; unchanged keys are
/// omitted.
pub open spec fn spec_patch(source: SpecValue, target: SpecValue) -> SpecValue
    decreases target,
{
    match (source, target) {
        (SpecValue::Obj(sm), SpecValue::Obj(tm)) => SpecValue::Obj(
            Map::new(
                |k: Seq<char>| patch_member(sm, tm, k),
                |k: Seq<char>|
                    if tm.dom().contains(k) {
                        if sm.dom().contains(k) && sm[k] != tm[k] {
                            spec_patch(sm[k], tm[k])
                        } else {
                            tm[k]
                        }
                    } else {
                        SpecValue::Null
                    },
            ),
        ),
        _ => target,
    }
}

/// The value under key `k` in the patch from source object `sm` to target
/// object `tm`: null for a deleted key, the target's value for an added or
/// unchanged key, the recursive patch for a changed one.
pub open spec fn patch_entry(
    sm: Map<Seq<char>, SpecValue>,
    tm: Map<Seq<char>, SpecValue>,
    k: Seq<char>,
) -> SpecValue {
    if tm.dom().contains(k) {
        if sm.dom().contains(k) && sm[k] != tm[k] {
            spec_patch(sm[k], tm[k])
        } else {
            tm[k]
        }
    } else {
        SpecValue::Null
    }
}

/// Diffing two objects yields an object whose members are described by
/// `patch_member` and `patch_entry`.
pub proof fn lemma_spec_patch_obj(source: SpecValue, target: SpecValue)
    requires
        source is Obj,
        target is Obj,
    ensures
        spec_patch(source, target) is Obj,
        forall|k: Seq<char>| #[trigger]
            spec_patch(source, target)->Obj_0.dom().contains(k) == patch_member(
                source->Obj_0,
                target->Obj_0,
                k,
            ),
        forall|k: Seq<char>|
            patch_member(source->Obj_0, target->Obj_0, k) ==> #[trigger] spec_patch(
                source,
                target,
            )->Obj_0[k] == patch_entry(source->Obj_0, target->Obj_0, k),
{
}

/// The patch object after the deletion pass has walked the first `i` source
/// entries: the keys among them that the target lacks, each mapped to null.
pub open spec fn deletions_upto(
    tm: Map<Seq<char>, SpecValue>,
    ss: Seq<(String, Value)>,
    i: int,
) -> Map<Seq<char>, SpecValue> {
    Map::new(
        |k: Seq<char>| has_key(ss.take(i), k) && !tm.dom().contains(k),
        |k: Seq<char>| SpecValue::Null,
    )
}

/// The keys of the first `i + 1` entries are those of the first `i` plus
/// entry `i`'s key, which is fresh when keys are distinct.
proof fn lemma_prefix_keys_step(ss: Seq<(String, Value)>, i: int)
    requires
        distinct_keys(ss),
        0 <= i < ss.len(),
    ensures
        !has_key(ss.take(i), ss[i].0@),
        forall|k: Seq<char>| #[trigger]
            has_key(ss.take(i + 1), k) == (has_key(ss.take(i), k) || k == ss[i].0@),
{
    let p = ss.take(i);
    let p1 = ss.take(i + 1);
    assert(!has_key(p, ss[i].0@)) by {
        if has_key(p, ss[i].0@) {
            let a = choose|a: int| 0 <= a < p.len() && p[a].0@ == ss[i].0@;
            assert(p[a] == ss[a]);
            assert(ss[a].0@ != ss[i].0@);
        }
    }
    assert forall|k: Seq<char>| #[trigger]
        has_key(p1, k) == (has_key(p, k) || k == ss[i].0@) by {
        if has_key(p1, k) {
            let a = choose|a: int| 0 <= a < p1.len() && p1[a].0@ == k;
            if a < i {
                assert(p[a] == p1[a]);
                assert(has_key(p, k));
            } else {
                assert(p1[a] == ss[i]);
            }
        }
        if has_key(p, k) {
            let a = choose|a: int| 0 <= a < p.len() && p[a].0@ == k;
            assert(p1[a] == p[a]);
            assert(has_key(p1, k));
        }
        if k == ss[i].0@ {
            assert(p1[i] == ss[i]);
            assert(has_key(p1, k));
        }
    }
}

/// One step of the deletion pass: a source key the target lacks joins the
/// patch mapped to null, any other source key changes nothing.
proof fn lemma_deletions_step(tm: Map<Seq<char>, SpecValue>, ss: Seq<(String, Value)>, i: int)
    requires
        distinct_keys(ss),
        0 <= i < ss.len(),
    ensures
        !deletions_upto(tm, ss, i).dom().contains(ss[i].0@),
        !tm.dom().contains(ss[i].0@) ==> deletions_upto(tm, ss, i + 1) =~= deletions_upto(
            tm,
            ss,
            i,
        ).insert(ss[i].0@, SpecValue::Null),
        tm.dom().contains(ss[i].0@) ==> deletions_upto(tm, ss, i + 1) =~= deletions_upto(
            tm,
            ss,
            i,
        ),
{
    lemma_prefix_keys_step(ss, i);
}

/// The patch object after the addition pass has walked the first `i` target
/// entries, on top of all deletion entries.
pub open spec fn patch_upto(
    sm: Map<Seq<char>, SpecValue>,
    tm: Map<Seq<char>, SpecValue>,
    ts: Seq<(String, Value)>,
    i: int,
) -> Map<Seq<char>, SpecValue> {
    Map::new(
        |k: Seq<char>|
            if has_key(ts.take(i), k) {
                patch_member(sm, tm, k)
            } else {
                sm.dom().contains(k) && !tm.dom().contains(k)
            },
        |k: Seq<char>|
            if tm.dom().contains(k) {
                patch_entry(sm, tm, k)
            } else {
                SpecValue::Null
            },
    )
}

/// One step of the addition pass: an added or changed target key joins the
/// patch with its `patch_entry` value, an unchanged one changes nothing.
proof fn lemma_patch_upto_step(
    sm: Map<Seq<char>, SpecValue>,
    tm: Map<Seq<char>, SpecValue>,
    ts: Seq<(String, Value)>,
    i: int,
)
    requires
        distinct_keys(ts),
        0 <= i < ts.len(),
        tm.dom().contains(ts[i].0@),
    ensures
        !patch_upto(sm, tm, ts, i).dom().contains(ts[i].0@),
        patch_member(sm, tm, ts[i].0@) ==> patch_upto(sm, tm, ts, i + 1) =~= patch_upto(
            sm,
            tm,
            ts,
            i,
        ).insert(ts[i].0@, patch_entry(sm, tm, ts[i].0@)),
        !patch_member(sm, tm, ts[i].0@) ==> patch_upto(sm, tm, ts, i + 1) =~= patch_upto(
            sm,
            tm,
            ts,
            i,
        ),
{
    lemma_prefix_keys_step(ts, i);
}

/// Computes the patch between two values.
fn patch_of(source: &Value, target: &Value) -> (r: Option<Value>)
    requires
        wf(*source),
        wf(*target),
    ensures
        r is Some,
        r matches Some(p) ==> p@ == spec_patch(source@, target@) && wf(p),
    decreases *target,
{
    if !target.is_object() || !source.is_object() {
        proof {
            lemma_view_variant(*source);
            lemma_view_variant(*target);
        }
        return Some(target.deep_clone());
    }
    let (se, te) = match (source, target) {
        (Value::Obj(s0), Value::Obj(t0)) => (s0, t0),
        _ => {
            return None;
        },
    };
    proof {
        assert((*source)->Obj_0 == *se && (*target)->Obj_0 == *te);
        assert(source@ == SpecValue::Obj(entries_map(se@)));
        assert(target@ == SpecValue::Obj(entries_map(te@)));
        lemma_wf_obj(*source);
        lemma_wf_obj(*target);
        lemma_spec_patch_obj(source@, target@);
    }
    let ghost sm = entries_map(se@);
    let ghost tm = entries_map(te@);
    let mut result: Vec<(String, Value)> = Vec::new();
    proof {
        assert forall|k: Seq<char>| !has_key(result@, k) by {
            if has_key(result@, k) {
                let j = choose|j: int| 0 <= j < result@.len() && result@[j].0@ == k;
            }
        }
        assert forall|k: Seq<char>| !has_key(se@.take(0), k) by {
            if has_key(se@.take(0), k) {
                let j = choose|j: int|
                    0 <= j < se@.take(0).len() && se@.take(0)[j].0@ == k;
            }
        }
        assert(entries_map(result@) =~= deletions_upto(tm, se@, 0));
    }
    let mut i: usize = 0;
    while i < se.len()
        invariant
            distinct_keys(se@),
            distinct_keys(te@),
            i <= se@.len(),
            tm == entries_map(te@),
            distinct_keys(result@),
            forall|j: int| 0 <= j < result@.len() ==> wf((#[trigger] result@[j]).1),
            entries_map(result@) == deletions_upto(tm, se@, i as int),
        decreases se@.len() - i,
    {
        proof {
            lemma_deletions_step(tm, se@, i as int);
            lemma_entry_lookup(se@, i as int);
        }
        let key = &se[i].0;
        match find_key(te, key) {
            None => {
                proof {
                    assert(!tm.dom().contains(key@));
                    assert(!has_key(result@, key@));
                }
                let kc = key.clone();
                proof {
                    lemma_entries_push(result@, (kc, Value::Null));
                }
                result.push((kc, Value::Null));
            },
            Some(j) => {
                proof {
                    lemma_entry_lookup(te@, j as int);
                    assert(tm.dom().contains(key@));
                }
            },
        }
        i += 1;
    }
    proof {
        assert(se@.take(se@.len() as int) =~= se@);
        assert forall|k: Seq<char>| #[trigger] has_key(se@, k) == sm.dom().contains(k) by {}
        assert(entries_map(result@) =~= patch_upto(sm, tm, te@, 0)) by {
            assert forall|k: Seq<char>| !has_key(te@.take(0), k) by {
                if has_key(te@.take(0), k) {
                    let j = choose|j: int|
                        0 <= j < te@.take(0).len() && te@.take(0)[j].0@ == k;
                }
            }
        }
    }
    let mut i2: usize = 0;
    while i2 < te.len()
        invariant
            wf(*source),
            wf(*target),
            *source == Value::Obj(*se),
            *target == Value::Obj(*te),
            distinct_keys(se@),
            distinct_keys(te@),
            forall|j: int| 0 <= j < se@.len() ==> wf((#[trigger] se@[j]).1),
            forall|j: int| 0 <= j < te@.len() ==> wf((#[trigger] te@[j]).1),
            i2 <= te@.len(),
            sm == entries_map(se@),
            tm == entries_map(te@),
            distinct_keys(result@),
            forall|j: int| 0 <= j < result@.len() ==> wf((#[trigger] result@[j]).1),
            entries_map(result@) == patch_upto(sm, tm, te@, i2 as int),
        decreases te@.len() - i2,
    {
        proof {
            lemma_entry_lookup(te@, i2 as int);
            lemma_patch_upto_step(sm, tm, te@, i2 as int);
            assert(!has_key(result@, te@[i2 as int].0@));
            assert((*target)->Obj_0 == *te);
            assert(decreases_to!(*target => (*target)->Obj_0));
            assert(decreases_to!(*target => te@[i2 as int].1));
        }
        let key = &te[i2].0;
        let val = &te[i2].1;
        match find_key(se, key) {
            None => {
                proof {
                    assert(!sm.dom().contains(key@));
                    assert(patch_member(sm, tm, key@));
                    assert(patch_entry(sm, tm, key@) == val@);
                }
                let kc = key.clone();
                let vc = val.deep_clone();
                proof {
                    lemma_entries_push(result@, (kc, vc));
                }
                result.push((kc, vc));
            },
            Some(j) => {
                proof {
                    lemma_entry_lookup(se@, j as int);
                    assert(sm.dom().contains(key@) && sm[key@] == se@[j as int].1@);
                    assert(tm[key@] == val@);
                }
                if !se[j].1.deep_eq(val) {
                    proof {
                        assert(sm[key@] != tm[key@]);
                        assert(patch_member(sm, tm, key@));
                    }
                    let sub = patch_of(&se[j].1, val);
                    let p = match sub {
                        Some(p) => p,
                        None => {
                            return None;
                        },
                    };
                    proof {
                        assert(p@ == spec_patch(sm[key@], tm[key@]));
                        assert(patch_entry(sm, tm, key@) == p@);
                    }
                    let kc = key.clone();
                    proof {
                        lemma_entries_push(result@, (kc, p));
                    }
                    result.push((kc, p));
                } else {
                    proof {
                        assert(sm[key@] == tm[key@]);
                        assert(!patch_member(sm, tm, key@));
                    }
                }
            },
        }
        i2 += 1;
    }
    proof {
        assert(te@.take(te@.len() as int) =~= te@);
        assert forall|k: Seq<char>| #[trigger] has_key(te@, k) == tm.dom().contains(k) by {}
        assert(entries_map(result@) =~= spec_patch(source@, target@)->Obj_0);
        assert(SpecValue::Obj(entries_map(result@)) =~= spec_patch(source@, target@));
    }
    let out = Value::Obj(result);
    proof {
        assert(out->Obj_0 == result);
        assert(wf(out));
        assert(out@ == SpecValue::Obj(entries_map(result@)));
    }
    Some(out)
}

/// Computes a best-effort merge patch that transforms `source` into
/// `target`: merging the returned patch into `source` reproduces `target`
/// whenever no object member of `target` is null. The result is absent only
/// when a nested computation yields none, which the algorithm never does;
/// callers must still check before relying on the patch.
pub fn create_patch(source: Value, target: Value) -> (r: Option<Value>)
    requires
        wf(source),
        wf(target),
    ensures
        r is Some,
        r matches Some(p) ==> p@ == spec_patch(source@, target@) && wf(p),
{
    patch_of(&source, &target)
}

} // verus!
