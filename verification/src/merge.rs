use crate::value::{
    distinct_keys, entries_map, find_key, has_key, lemma_entries_push, lemma_entries_remove,
    lemma_entries_update, lemma_entry_lookup, lemma_view_variant, lemma_wf_obj, wf, SpecValue,
    Value,
};
use vstd::prelude::*;

verus! {

/// The single error kind of the merge operation: an object's entries could
/// not be obtained although the value had just been checked to be an object.
#[derive(Debug, PartialEq)]
pub enum MergeError {
    NotAnObject,
}

/// The object entries that a target contributes to a merge: its own map when
/// it is an object, and the empty map otherwise (a non-object target is
/// discarded and replaced by a fresh empty object).
pub open spec fn target_entries(target: SpecValue) -> Map<Seq<char>, SpecValue> {
    match target {
        SpecValue::Obj(m) => m,
        _ => Map::empty(),
    }
}

/// Whether key `k` is present after merging patch object `pm` onto a target
/// contributing the object entries `tm`: a non-null patch member creates or
/// keeps the key, a null one deletes it, and an unmentioned key keeps its
/// presence in the target.
pub open spec fn merged_member(
    tm: Map<Seq<char>, SpecValue>,
    pm: Map<Seq<char>, SpecValue>,
    k: Seq<char>,
) -> bool {
    if pm.dom().contains(k) {
        !(pm[k] is Null)
    } else {
        tm.dom().contains(k)
    }
}

/// What merging a patch into a target yields, at the model level.
///
/// A non-object patch replaces the target wholesale. An object patch merges
/// member by member: a null member deletes the key, any other member is
/// merged recursively into the target's entry for that key (a missing entry
/// starts as null), and keys the patch does not mention are left untouched.
pub open spec fn spec_merge(target: SpecValue, patch: SpecValue) -> SpecValue
    decreases patch,
{
    match patch {
        SpecValue::Obj(pm) => {
            let tm = target_entries(target);
            SpecValue::Obj(
                Map::new(
                    |k: Seq<char>| merged_member(tm, pm, k),
                    |k: Seq<char>|
                        if pm.dom().contains(k) && !(pm[k] is Null) {
                            spec_merge(
                                if tm.dom().contains(k) {
                                    tm[k]
                                } else {
                                    SpecValue::Null
                                },
                                pm[k],
                            )
                        } else if tm.dom().contains(k) {
                            tm[k]
                        } else {
                            SpecValue::Null
                        },
                ),
            )
        },
        _ => patch,
    }
}

/// The value at key `k` after merging patch object `pm` onto a target
/// contributing the object entries `tm`.
pub open spec fn merged_entry(
    tm: Map<Seq<char>, SpecValue>,
    pm: Map<Seq<char>, SpecValue>,
    k: Seq<char>,
) -> SpecValue {
    if pm.dom().contains(k) && !(pm[k] is Null) {
        spec_merge(
            if tm.dom().contains(k) {
                tm[k]
            } else {
                SpecValue::Null
            },
            pm[k],
        )
    } else if tm.dom().contains(k) {
        tm[k]
    } else {
        SpecValue::Null
    }
}

/// Merging an object patch yields an object whose members are described by
/// `merged_member` and `merged_entry`.
pub proof fn lemma_spec_merge_obj(target: SpecValue, patch: SpecValue)
    requires
        patch is Obj,
    ensures
        spec_merge(target, patch) is Obj,
        forall|k: Seq<char>| #[trigger]
            spec_merge(target, patch)->Obj_0.dom().contains(k) == merged_member(
                target_entries(target),
                patch->Obj_0,
                k,
            ),
        forall|k: Seq<char>|
            merged_member(target_entries(target), patch->Obj_0, k) ==> #[trigger] spec_merge(
                target,
                patch,
            )->Obj_0[k] == merged_entry(target_entries(target), patch->Obj_0, k),
{
}

/// The object entries after the first `i` patch entries have been applied to
/// a target contributing the object entries `tm`.
pub open spec fn merged_upto(
    tm: Map<Seq<char>, SpecValue>,
    ps: Seq<(String, Value)>,
    i: int,
) -> Map<Seq<char>, SpecValue> {
    Map::new(
        |k: Seq<char>| merged_member(tm, entries_map(ps.take(i)), k),
        |k: Seq<char>| merged_entry(tm, entries_map(ps.take(i)), k),
    )
}

/// Before any patch entry is applied, the merged entries are the target's.
proof fn lemma_merged_upto_zero(tm: Map<Seq<char>, SpecValue>, ps: Seq<(String, Value)>)
    ensures
        merged_upto(tm, ps, 0) =~= tm,
{
    assert(ps.take(0) =~= Seq::<(String, Value)>::empty());
    assert forall|k: Seq<char>| !has_key(ps.take(0), k) by {
        if has_key(ps.take(0), k) {
            let j = choose|j: int| 0 <= j < ps.take(0).len() && ps.take(0)[j].0@ == k;
        }
    }
}

/// The prefix maps of a patch entry sequence grow by one member at each
/// step: the map over the first `i + 1` entries inserts entry `i`'s pair
/// into the map over the first `i`.
proof fn lemma_prefix_map_step(ps: Seq<(String, Value)>, i: int)
    requires
        distinct_keys(ps),
        0 <= i < ps.len(),
    ensures
        !has_key(ps.take(i), ps[i].0@),
        entries_map(ps.take(i + 1)) =~= entries_map(ps.take(i)).insert(ps[i].0@, ps[i].1@),
        distinct_keys(ps.take(i)),
        distinct_keys(ps.take(i + 1)),
{
    let p = ps.take(i);
    assert forall|a: int, b: int| 0 <= a < b < p.len() implies (#[trigger] p[a].0@)
        != (#[trigger] p[b].0@) by {
        assert(p[a] == ps[a] && p[b] == ps[b]);
    }
    assert(!has_key(p, ps[i].0@)) by {
        if has_key(p, ps[i].0@) {
            let a = choose|a: int| 0 <= a < p.len() && p[a].0@ == ps[i].0@;
            assert(p[a] == ps[a]);
            assert(ps[a].0@ != ps[i].0@);
        }
    }
    lemma_entries_push(p, ps[i]);
    assert(ps.take(i + 1) =~= p.push(ps[i]));
}

/// Applying patch entry `i` turns the merged entries for the first `i`
/// patch entries into those for the first `i + 1`: a null entry removes its
/// key, any other entry merges into the key's current value, which is still
/// the target's own.
proof fn lemma_merged_upto_step(tm: Map<Seq<char>, SpecValue>, ps: Seq<(String, Value)>, i: int)
    requires
        distinct_keys(ps),
        0 <= i < ps.len(),
    ensures
        merged_upto(tm, ps, i).dom().contains(ps[i].0@) == tm.dom().contains(ps[i].0@),
        tm.dom().contains(ps[i].0@) ==> merged_upto(tm, ps, i)[ps[i].0@] == tm[ps[i].0@],
        ps[i].1 is Null ==> merged_upto(tm, ps, i + 1) =~= merged_upto(tm, ps, i).remove(
            ps[i].0@,
        ),
        !(ps[i].1 is Null) ==> merged_upto(tm, ps, i + 1) =~= merged_upto(tm, ps, i).insert(
            ps[i].0@,
            spec_merge(
                if tm.dom().contains(ps[i].0@) {
                    tm[ps[i].0@]
                } else {
                    SpecValue::Null
                },
                ps[i].1@,
            ),
        ),
{
    lemma_prefix_map_step(ps, i);
    let k0 = ps[i].0@;
    let pm0 = entries_map(ps.take(i));
    let pm1 = entries_map(ps.take(i + 1));
    assert(!pm0.dom().contains(k0));
    assert(merged_member(tm, pm0, k0) == tm.dom().contains(k0));
    if ps[i].1 is Null {
        assert forall|k: Seq<char>| #[trigger]
            merged_member(tm, pm1, k) == merged_upto(tm, ps, i).remove(k0).dom().contains(k) by {
            if k != k0 {
                assert(pm1.dom().contains(k) == pm0.dom().contains(k));
                if pm0.dom().contains(k) {
                    assert(pm1[k] == pm0[k]);
                }
            } else {
                assert(pm1[k] == ps[i].1@);
            }
        }
        assert forall|k: Seq<char>| merged_member(tm, pm1, k) implies #[trigger] merged_entry(
            tm,
            pm1,
            k,
        ) == merged_entry(tm, pm0, k) by {
            assert(k != k0);
            assert(pm1.dom().contains(k) == pm0.dom().contains(k));
            if pm0.dom().contains(k) {
                assert(pm1[k] == pm0[k]);
            }
        }
        assert(merged_upto(tm, ps, i + 1) =~= merged_upto(tm, ps, i).remove(k0));
    } else {
        assert(pm1[k0] == ps[i].1@);
        assert forall|k: Seq<char>| k != k0 implies #[trigger] merged_member(tm, pm1, k)
            == merged_member(tm, pm0, k) && (merged_member(tm, pm0, k) ==> merged_entry(tm, pm1, k)
            == merged_entry(tm, pm0, k)) by {
            assert(pm1.dom().contains(k) == pm0.dom().contains(k));
            if pm0.dom().contains(k) {
                assert(pm1[k] == pm0[k]);
            }
        }
        assert(merged_member(tm, pm1, k0));
        assert(merged_entry(tm, pm1, k0) == spec_merge(
            if tm.dom().contains(k0) {
                tm[k0]
            } else {
                SpecValue::Null
            },
            ps[i].1@,
        ));
        assert(merged_upto(tm, ps, i + 1) =~= merged_upto(tm, ps, i).insert(
            k0,
            spec_merge(
                if tm.dom().contains(k0) {
                    tm[k0]
                } else {
                    SpecValue::Null
                },
                ps[i].1@,
            ),
        ));
    }
}

/// Takes the entries out of an object value, leaving an empty object behind,
/// or reports the defect when the value is not an object.
fn take_entries(v: &mut Value) -> (r: Result<Vec<(String, Value)>, MergeError>)
    ensures
        (r is Ok) == (*old(v) is Obj),
        r matches Ok(es) ==> es == old(v)->Obj_0,
{
    match v {
        Value::Obj(entries) => {
            let mut out: Vec<(String, Value)> = Vec::new();
            core::mem::swap(entries, &mut out);
            Ok(out)
        },
        _ => Err(MergeError::NotAnObject),
    }
}

/// Applies the merge patch `patch` to `target` in place.
///
/// A non-object patch replaces the target wholesale with a copy of the
/// patch. An object patch first replaces a non-object target with an empty
/// object, then walks the patch entries in order: a null entry removes the
/// key from the target, any other entry is merged recursively into the
/// target's entry for that key, which starts as null when absent. Keys the
/// patch does not mention are left untouched. The call cannot fail for
/// well-formed values; the error is reported rather than swallowed should an
/// object's entries ever be inaccessible after the object check.
pub fn merge_json(target: &mut Value, patch: &Value) -> (r: Result<(), MergeError>)
    requires
        wf(*old(target)),
        wf(*patch),
    ensures
        r is Ok,
        wf(*final(target)),
        final(target)@ == spec_merge(old(target)@, patch@),
    decreases *patch,
{
    match patch {
        Value::Obj(pentries) => {
            proof {
                assert((*patch)->Obj_0 == *pentries);
                assert(patch@ == SpecValue::Obj(entries_map(pentries@)));
                lemma_wf_obj(*patch);
                assert(distinct_keys(pentries@));
                assert(decreases_to!(*patch => (*patch)->Obj_0));
            }
            let ghost tm0 = target_entries(old(target)@);
            if !target.is_object() {
                *target = Value::Obj(Vec::new());
                proof {
                    lemma_view_variant(*old(target));
                    assert(tm0 =~= Map::<Seq<char>, SpecValue>::empty());
                }
            }
            let taken = take_entries(target);
            let mut tentries = match taken {
                Ok(es) => es,
                Err(e) => {
                    return Err(e);
                },
            };
            proof {
                if *old(target) is Obj {
                    assert((*old(target))->Obj_0 == tentries);
                    assert(old(target)@ == SpecValue::Obj(entries_map(tentries@)));
                    assert(tm0 == entries_map(tentries@));
                    lemma_wf_obj(*old(target));
                } else {
                    assert(tentries@ =~= Seq::<(String, Value)>::empty());
                    assert forall|k: Seq<char>| !has_key(tentries@, k) by {
                        if has_key(tentries@, k) {
                            let j = choose|j: int|
                                0 <= j < tentries@.len() && tentries@[j].0@ == k;
                        }
                    }
                    assert(entries_map(tentries@) =~= tm0);
                }
                lemma_merged_upto_zero(tm0, pentries@);
                assert(entries_map(tentries@) =~= merged_upto(tm0, pentries@, 0));
            }
            let mut i: usize = 0;
            while i < pentries.len()
                invariant
                    wf(*patch),
                    *patch == Value::Obj(*pentries),
                    distinct_keys(pentries@),
                    forall|j: int| 0 <= j < pentries@.len() ==> wf((#[trigger] pentries@[j]).1),
                    i <= pentries@.len(),
                    distinct_keys(tentries@),
                    forall|j: int| 0 <= j < tentries@.len() ==> wf((#[trigger] tentries@[j]).1),
                    entries_map(tentries@) == merged_upto(tm0, pentries@, i as int),
                decreases pentries@.len() - i,
            {
                proof {
                    lemma_merged_upto_step(tm0, pentries@, i as int);
                    assert((*patch)->Obj_0 == *pentries);
                    assert(decreases_to!(*patch => (*patch)->Obj_0));
                    assert(decreases_to!(*patch => pentries@[i as int].1));
                }
                let key = &pentries[i].0;
                let val = &pentries[i].1;
                if val.is_null() {
                    match find_key(&tentries, key) {
                        Some(j) => {
                            proof {
                                lemma_entry_lookup(tentries@, j as int);
                                lemma_entries_remove(tentries@, j as int);
                            }
                            tentries.remove(j);
                        },
                        None => {
                            proof {
                                let em = entries_map(tentries@);
                                assert(!em.dom().contains(key@));
                                assert(em.remove(key@) =~= em);
                            }
                        },
                    }
                } else {
                    match find_key(&tentries, key) {
                        Some(j) => {
                            proof {
                                lemma_entry_lookup(tentries@, j as int);
                            }
                            let ghost before = tentries@;
                            let (k2, mut v2) = tentries.remove(j);
                            proof {
                                assert((k2, v2) == before[j as int]);
                                assert(wf(v2));
                            }
                            let rr = merge_json(&mut v2, val);
                            match rr {
                                Ok(()) => {},
                                Err(e) => {
                                    return Err(e);
                                },
                            }
                            tentries.insert(j, (k2, v2));
                            proof {
                                before.remove_ensures(j as int);
                                before.remove(j as int).insert_ensures(j as int, (k2, v2));
                                assert(tentries@ =~= before.update(j as int, (before[j as int].0, v2)));
                                lemma_entries_update(before, j as int, (before[j as int].0, v2));
                            }
                        },
                        None => {
                            let mut slot = Value::Null;
                            let rr = merge_json(&mut slot, val);
                            match rr {
                                Ok(()) => {},
                                Err(e) => {
                                    return Err(e);
                                },
                            }
                            let kc = key.clone();
                            proof {
                                let em = entries_map(tentries@);
                                assert(!em.dom().contains(key@));
                                lemma_entries_push(tentries@, (kc, slot));
                            }
                            tentries.push((kc, slot));
                        },
                    }
                }
                i += 1;
            }
            proof {
                assert(pentries@.take(pentries@.len() as int) =~= pentries@);
                lemma_spec_merge_obj(old(target)@, patch@);
                assert(entries_map(tentries@) =~= spec_merge(old(target)@, patch@)->Obj_0);
                assert(SpecValue::Obj(entries_map(tentries@)) =~= spec_merge(
                    old(target)@,
                    patch@,
                ));
            }
            *target = Value::Obj(tentries);
            proof {
                assert((*target)->Obj_0 == tentries);
                assert(wf(*target));
                assert(target@ == SpecValue::Obj(entries_map(tentries@)));
            }
            Ok(())
        },
        _ => {
            proof {
                lemma_view_variant(*patch);
            }
            *target = patch.deep_clone();
            Ok(())
        },
    }
}

} // verus!
