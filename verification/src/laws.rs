use crate::diff::{patch_member, spec_patch};
use crate::merge::{merged_member, spec_merge, target_entries};
use crate::value::SpecValue;
use vstd::prelude::*;

verus! {

/// Leaf replacement law: merging a patch that is not an object replaces the
/// target wholesale with the patch, whatever the target held before.
pub proof fn lemma_leaf_replacement(target: SpecValue, patch: SpecValue)
    requires
        !(patch is Obj),
    ensures
        spec_merge(target, patch) == patch,
{
}

/// Null deletion is idempotent: when a patch object maps `k` to null, `k` is
/// absent after merging the patch, and absent again after merging the same
/// patch a second time, whether or not the target held `k` to begin with.
pub proof fn lemma_null_deletion_idempotent(target: SpecValue, patch: SpecValue, k: Seq<char>)
    requires
        patch is Obj,
        patch->Obj_0.dom().contains(k),
        patch->Obj_0[k] is Null,
    ensures
        spec_merge(target, patch) is Obj,
        !spec_merge(target, patch)->Obj_0.dom().contains(k),
        !spec_merge(spec_merge(target, patch), patch)->Obj_0.dom().contains(k),
{
}

/// Non-destructiveness: a key of an object target that the object patch does
/// not mention keeps its presence and its value across the merge.
pub proof fn lemma_merge_preserves_unmentioned(target: SpecValue, patch: SpecValue, k: Seq<char>)
    requires
        target is Obj,
        patch is Obj,
        !patch->Obj_0.dom().contains(k),
    ensures
        spec_merge(target, patch) is Obj,
        spec_merge(target, patch)->Obj_0.dom().contains(k) == target->Obj_0.dom().contains(k),
        target->Obj_0.dom().contains(k) ==> spec_merge(target, patch)->Obj_0[k] == target->Obj_0[k],
{
}

/// No-op diff: diffing a value against itself yields the empty object when
/// the value is an object, and the value itself otherwise.
pub proof fn lemma_no_op_patch(x: SpecValue)
    ensures
        x is Obj ==> spec_patch(x, x) == SpecValue::Obj(Map::<Seq<char>, SpecValue>::empty()),
        !(x is Obj) ==> spec_patch(x, x) == x,
{
    if x is Obj {
        let m = x->Obj_0;
        let rm = spec_patch(x, x)->Obj_0;
        assert forall|k: Seq<char>| !(#[trigger] rm.dom().contains(k)) by {
            assert(!patch_member(m, m, k));
        }
        assert(rm =~= Map::<Seq<char>, SpecValue>::empty());
        assert(spec_patch(x, x) =~= SpecValue::Obj(Map::<Seq<char>, SpecValue>::empty()));
    }
}

/// No object member anywhere in the value, descending through objects, is
/// null. A null member of a patch object means deletion, so a target with a
/// null object member cannot be reproduced by merging a patch.
pub open spec fn obj_null_free(v: SpecValue) -> bool
    decreases v,
{
    match v {
        SpecValue::Obj(m) => forall|k: Seq<char>|
            #[trigger] m.dom().contains(k) ==> !(m[k] is Null) && obj_null_free(m[k]),
        _ => true,
    }
}

/// Merging any value into a non-object target reproduces the value, as long
/// as no object member of the value is null (a null member would act as a
/// deletion instead of being kept).
pub proof fn lemma_merge_into_non_object(target: SpecValue, v: SpecValue)
    requires
        !(target is Obj),
        obj_null_free(v),
    ensures
        spec_merge(target, v) == v,
    decreases v,
{
    if v is Obj {
        let vm = v->Obj_0;
        let tm = target_entries(target);
        assert(tm =~= Map::<Seq<char>, SpecValue>::empty());
        let merged = spec_merge(target, v)->Obj_0;
        assert forall|k: Seq<char>| #[trigger] merged.dom().contains(k) == vm.dom().contains(k) by {}
        assert forall|k: Seq<char>| vm.dom().contains(k) implies #[trigger] merged[k] == vm[k] by {
            lemma_merge_into_non_object(SpecValue::Null, vm[k]);
        }
        assert(merged =~= vm);
    }
}

/// Round-trip (left-inverse) law: merging the computed patch into the source
/// reproduces the target. It holds for every source and every target in
/// which no object member is null; a null member of the target (such as the
/// object mapping one key to null) is the one kind of value a merge patch
/// cannot create, since a null patch member deletes the key instead.
pub proof fn lemma_patch_round_trip(source: SpecValue, target: SpecValue)
    requires
        obj_null_free(target),
    ensures
        spec_merge(source, spec_patch(source, target)) == target,
    decreases target,
{
    if target is Obj {
        let tm = target->Obj_0;
        if !(source is Obj) {
            lemma_merge_into_non_object(source, target);
        } else {
            let sm = source->Obj_0;
            let p = spec_patch(source, target);
            let pm = p->Obj_0;
            let merged = spec_merge(source, p)->Obj_0;
            assert forall|k: Seq<char>| #[trigger] merged.dom().contains(k)
                == tm.dom().contains(k) by {
                assert(target_entries(source) == sm);
                assert(merged.dom().contains(k) == merged_member(sm, pm, k));
                assert(pm.dom().contains(k) == patch_member(sm, tm, k));
                if pm.dom().contains(k) {
                    if tm.dom().contains(k) {
                        assert(!(tm[k] is Null));
                        if sm.dom().contains(k) && sm[k] != tm[k] {
                            assert(pm[k] == spec_patch(sm[k], tm[k]));
                            assert(!(pm[k] is Null));
                        } else {
                            assert(pm[k] == tm[k]);
                        }
                        assert(merged_member(sm, pm, k));
                    } else {
                        assert(pm[k] == SpecValue::Null);
                        assert(!merged_member(sm, pm, k));
                    }
                } else {
                    if tm.dom().contains(k) {
                        assert(sm.dom().contains(k) && sm[k] == tm[k]);
                    }
                }
            }
            assert forall|k: Seq<char>| tm.dom().contains(k) implies #[trigger] merged[k]
                == tm[k] by {
                assert(!(tm[k] is Null));
                assert(obj_null_free(tm[k]));
                if patch_member(sm, tm, k) {
                    if sm.dom().contains(k) && sm[k] != tm[k] {
                        assert(pm[k] == spec_patch(sm[k], tm[k]));
                        lemma_patch_round_trip(sm[k], tm[k]);
                    } else {
                        assert(pm[k] == tm[k]);
                        lemma_merge_into_non_object(SpecValue::Null, tm[k]);
                    }
                } else {
                    assert(sm.dom().contains(k) && sm[k] == tm[k]);
                }
            }
            assert(merged =~= tm);
        }
    }
}

} // verus!
