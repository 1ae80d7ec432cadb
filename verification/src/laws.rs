//! The engine's guarantees, stated and proved over the pass model: the
//! no-overwrite protection of the committer, the unique-by-type rule, the
//! partial resolution of an occurrence match, and the silence of the engine
//! on primitive fields with multiplicity.

use vstd::prelude::*;

use crate::database::DbView;
use crate::grouping::{
    bucket_plan, buckets_plan, filtered_a, filtered_b, pass_plan, runs_of, runs_with_len,
    strong_group, strong_keys, surviving, weak_group, ResolutionStep,
};
use crate::matcher::{apply_plan, pass_post, step_post};
use crate::prototype::{ProtoField, ProtoFieldKind, ProtoName, ProtoType};
use crate::resolve::{commit_post, commit_res, type_commit_post, type_commit_res,
    ProtoResolutionError};

verus! {

/// Monotonicity: once an id of the target table is resolved, no pass -- and
/// so no step of any run -- flips it back or changes its bound text.
pub proof fn lemma_resolution_monotone(
    adb: DbView,
    bdb: DbView,
    amsg: crate::database::MessageView,
    bmsg: crate::database::MessageView,
    id: int,
)
    requires
        bdb.wf(),
        bdb.rsv(id),
    ensures
        pass_post(adb, bdb, amsg, bmsg).rsv(id),
        pass_post(adb, bdb, amsg, bmsg).names[id] == bdb.names[id],
{
    crate::matcher::lemma_apply_plan_evolves(
        adb,
        bdb,
        pass_plan(adb, bdb, amsg.fields, bmsg.fields),
    );
}

/// No-overwrite: a commit attempt on an already-resolved target id performs
/// no mutation, and (when the source itself is resolved, so that the attempt
/// gets as far as the target check) fails with exactly
/// `TargetAlreadyResolved`.
pub proof fn lemma_no_overwrite(adb: DbView, src: ProtoName, bdb: DbView, tgt: ProtoName)
    requires
        bdb.name_resolved(tgt),
    ensures
        commit_post(adb, src, bdb, tgt) == bdb,
        adb.name_resolved(src) ==> commit_res(adb, src, bdb, tgt) == Err::<
            (),
            ProtoResolutionError,
        >(ProtoResolutionError::TargetAlreadyResolved),
{
}

/// The step makes no commit attempt against this id: its target field name is
/// a different id, and so is its target reference, if it has one.
pub open spec fn step_avoids(step: ResolutionStep, id: int) -> bool {
    match step {
        ResolutionStep::Fields(_, b) => {
            &&& b.name.id as int != id
            &&& (b.field_type.spec_inner_type() is Type ==> b.field_type.spec_inner_type().ref_id()
                != id)
        },
        ResolutionStep::Types(_, tb) => tb is Type ==> tb.ref_id() != id,
    }
}

/// A step that avoids an id leaves that id's flag and text alone.
pub proof fn lemma_step_untouched(adb: DbView, bdb: DbView, step: ResolutionStep, id: int)
    requires
        bdb.wf(),
        step_avoids(step, id),
    ensures
        step_post(adb, bdb, step).rsv(id) == bdb.rsv(id),
        bdb.id_in_range(id) ==> step_post(adb, bdb, step).names[id] == bdb.names[id],
{
    match step {
        ResolutionStep::Fields(a, b) => {
            let ta = a.field_type.spec_inner_type();
            let tb = b.field_type.spec_inner_type();
            let mid = type_commit_post(adb, ta, bdb, tb);
            crate::matcher::lemma_step_properties(adb, bdb, ResolutionStep::Types(ta, tb));
            assert(mid.rsv(id) == bdb.rsv(id));
            assert(bdb.id_in_range(id) ==> mid.names[id] == bdb.names[id]);
        },
        ResolutionStep::Types(ta, tb) => {},
    }
}

/// A plan all of whose steps avoid an id leaves that id's flag alone.
pub proof fn lemma_apply_untouched(adb: DbView, bdb: DbView, plan: Seq<ResolutionStep>, id: int)
    requires
        bdb.wf(),
        forall|i: int| 0 <= i < plan.len() ==> step_avoids(#[trigger] plan[i], id),
    ensures
        apply_plan(adb, bdb, plan).rsv(id) == bdb.rsv(id),
    decreases plan.len(),
{
    if plan.len() > 0 {
        let p1 = plan.drop_last();
        assert(forall|i: int| 0 <= i < p1.len() ==> step_avoids(#[trigger] p1[i], id)) by {
            assert(forall|i: int| 0 <= i < p1.len() ==> p1[i] == plan[i]);
        }
        lemma_apply_untouched(adb, bdb, p1, id);
        assert(step_avoids(plan[plan.len() - 1], id));
        crate::matcher::lemma_apply_plan_evolves(adb, bdb, p1);
        lemma_step_untouched(adb, apply_plan(adb, bdb, p1), plan.last(), id);
    }
}

/// Every step of the combined plan comes from the bucket of one of the keys.
pub proof fn lemma_buckets_plan_index(
    adb: DbView,
    bdb: DbView,
    fa: Seq<ProtoField>,
    fb: Seq<ProtoField>,
    keys: Seq<ProtoFieldKind>,
)
    ensures
        forall|i: int|
            0 <= i < buckets_plan(adb, bdb, fa, fb, keys).len() ==> exists|j: int|
                0 <= j < keys.len() && bucket_plan(
                    adb,
                    bdb,
                    fa,
                    keys[j],
                    strong_group(fb, keys[j]),
                ).contains(#[trigger] buckets_plan(adb, bdb, fa, fb, keys)[i]),
    decreases keys.len(),
{
    broadcast use vstd::seq_lib::group_seq_properties;

    if keys.len() > 0 {
        lemma_buckets_plan_index(adb, bdb, fa, fb, keys.drop_last());
        let a = buckets_plan(adb, bdb, fa, fb, keys.drop_last());
        let b = bucket_plan(adb, bdb, fa, keys.last(), strong_group(fb, keys.last()));
        assert forall|i: int| 0 <= i < buckets_plan(adb, bdb, fa, fb, keys).len() implies exists|
            j: int,
        |
            0 <= j < keys.len() && bucket_plan(adb, bdb, fa, keys[j], strong_group(fb, keys[j])).contains(
                #[trigger] buckets_plan(adb, bdb, fa, fb, keys)[i],
            ) by {
            let s = buckets_plan(adb, bdb, fa, fb, keys)[i];
            if i < a.len() {
                assert(a[i] == s);
                let j = choose|j: int|
                    0 <= j < keys.drop_last().len() && bucket_plan(
                        adb,
                        bdb,
                        fa,
                        keys.drop_last()[j],
                        strong_group(fb, keys.drop_last()[j]),
                    ).contains(a[i]);
                assert(keys[j] == keys.drop_last()[j]);
                assert(bucket_plan(adb, bdb, fa, keys[j], strong_group(fb, keys[j])).contains(s));
            } else {
                assert(s == b[i - a.len()]);
                assert(b.contains(s));
                let j = keys.len() - 1;
                assert(bucket_plan(adb, bdb, fa, keys[j], strong_group(fb, keys[j])).contains(s));
            }
        }
    }
}

/// A step planned by the bucket of one of the keys stands in the combined
/// plan.
pub proof fn lemma_buckets_plan_cover(
    adb: DbView,
    bdb: DbView,
    fa: Seq<ProtoField>,
    fb: Seq<ProtoField>,
    keys: Seq<ProtoFieldKind>,
    j: int,
    s: ResolutionStep,
)
    requires
        0 <= j < keys.len(),
        bucket_plan(adb, bdb, fa, keys[j], strong_group(fb, keys[j])).contains(s),
    ensures
        buckets_plan(adb, bdb, fa, fb, keys).contains(s),
    decreases keys.len(),
{
    broadcast use vstd::seq_lib::group_seq_properties;

    let a = buckets_plan(adb, bdb, fa, fb, keys.drop_last());
    let b = bucket_plan(adb, bdb, fa, keys.last(), strong_group(fb, keys.last()));
    if j == keys.len() - 1 {
        let i = choose|i: int| 0 <= i < b.len() && b[i] == s;
        assert(buckets_plan(adb, bdb, fa, fb, keys)[a.len() + i] == s);
    } else {
        assert(keys.drop_last()[j] == keys[j]);
        lemma_buckets_plan_cover(adb, bdb, fa, fb, keys.drop_last(), j, s);
        let i = choose|i: int| 0 <= i < a.len() && a[i] == s;
        assert(buckets_plan(adb, bdb, fa, fb, keys)[i] == s);
    }
}

/// A bucket plans at most one step, and its target side is the bucket's first
/// field, or that field's inner type.
pub proof fn lemma_bucket_plan_shape(
    adb: DbView,
    bdb: DbView,
    fa: Seq<ProtoField>,
    kb: ProtoFieldKind,
    fbk: Seq<ProtoField>,
)
    ensures
        forall|s: ResolutionStep|
            bucket_plan(adb, bdb, fa, kb, fbk).contains(s) ==> fbk.len() > 0 && match s {
                ResolutionStep::Fields(_, b) => b == fbk[0] && (fbk.len() == 1
                    || kb.spec_is_type_ref()),
                ResolutionStep::Types(_, tb) => tb == fbk[0].field_type.spec_inner_type(),
            },
{
    let plan = bucket_plan(adb, bdb, fa, kb, fbk);
    let wa = weak_group(fa, kb);
    if wa.len() == 0 {
    } else if fbk.len() == 1 && wa.len() == 1 {
    } else if kb.spec_is_type_ref() {
        let runs = runs_of(wa);
        let matching = runs_with_len(runs, fbk.len() as int);
        crate::grouping::lemma_runs_with_len_lens(runs, fbk.len() as int);
        crate::grouping::lemma_runs_with_len_members(runs, fbk.len() as int);
        crate::grouping::lemma_runs_shape(wa);
        if matching.len() == 1 {
            assert(matching[0].len() == fbk.len());
            let j = choose|j: int| 0 <= j < runs.len() && matching[0] == runs[j];
            assert(runs[j].len() > 0);
        }
    }
}

/// Applying a plan whose every step either avoids this field's id or is the
/// unique commit of the pair (a, f) resolves f to a's text as soon as the
/// plan holds that commit, and leaves f alone otherwise.
pub proof fn lemma_apply_tracks(
    adb: DbView,
    bdb: DbView,
    plan: Seq<ResolutionStep>,
    a: ProtoField,
    f: ProtoField,
)
    requires
        bdb.wf(),
        forall|i: int|
            0 <= i < plan.len() ==> step_avoids(#[trigger] plan[i], f.name.id as int) || plan[i]
                == ResolutionStep::Fields(a, f),
        adb.name_resolved(a.name),
        a.field_type.spec_is_type_ref() ==> adb.rsv(a.field_type.spec_inner_type().ref_id()),
        f.field_type.spec_is_type_ref() ==> f.field_type.spec_inner_type().ref_id() != f.name.id
            as int,
        bdb.id_in_range(f.name.id as int),
        !bdb.rsv(f.name.id as int),
    ensures
        plan.contains(ResolutionStep::Fields(a, f)) ==> apply_plan(adb, bdb, plan).rsv(
            f.name.id as int,
        ) && apply_plan(adb, bdb, plan).names[f.name.id as int] == adb.names[a.name.id as int],
        !plan.contains(ResolutionStep::Fields(a, f)) ==> !apply_plan(adb, bdb, plan).rsv(
            f.name.id as int,
        ),
    decreases plan.len(),
{
    broadcast use vstd::seq_lib::group_seq_properties;

    let id = f.name.id as int;
    let good = ResolutionStep::Fields(a, f);
    if plan.len() == 0 {
        assert(!plan.contains(good));
    } else {
        let p1 = plan.drop_last();
        let last = plan.last();
        assert(forall|i: int|
            0 <= i < p1.len() ==> step_avoids(#[trigger] p1[i], id) || p1[i] == good) by {
            assert(forall|i: int| 0 <= i < p1.len() ==> p1[i] == plan[i]);
        }
        lemma_apply_tracks(adb, bdb, p1, a, f);
        let mid = apply_plan(adb, bdb, p1);
        crate::matcher::lemma_apply_plan_evolves(adb, bdb, p1);
        assert(step_avoids(plan[plan.len() - 1], id) || plan[plan.len() - 1] == good);
        assert(plan.contains(good) == (p1.contains(good) || last == good)) by {
            if plan.contains(good) {
                let i = choose|i: int| 0 <= i < plan.len() && plan[i] == good;
                if i < plan.len() - 1 {
                    assert(p1[i] == good);
                }
            }
            if p1.contains(good) {
                let i = choose|i: int| 0 <= i < p1.len() && p1[i] == good;
                assert(plan[i] == good);
            }
            if last == good {
                assert(plan[plan.len() - 1] == good);
            }
        }
        let ta = a.field_type.spec_inner_type();
        let tb = f.field_type.spec_inner_type();
        if p1.contains(good) {
            if last == good {
                let mid2 = type_commit_post(adb, ta, mid, tb);
                lemma_step_untouched(adb, mid, ResolutionStep::Types(ta, tb), id);
                crate::matcher::lemma_step_properties(adb, mid, ResolutionStep::Types(ta, tb));
                assert(mid2.rsv(id) && mid2.names[id] == adb.names[a.name.id as int]);
                if type_commit_res(adb, ta, mid, tb) == Err::<(), ProtoResolutionError>(
                    ProtoResolutionError::SourceNotResolved,
                ) {
                } else {
                    assert(commit_post(adb, a.name, mid2, f.name) == mid2);
                }
            } else {
                lemma_step_untouched(adb, mid, last, id);
            }
        } else {
            assert(!mid.rsv(id));
            if last == good {
                let mid2 = type_commit_post(adb, ta, mid, tb);
                lemma_step_untouched(adb, mid, ResolutionStep::Types(ta, tb), id);
                crate::matcher::lemma_step_properties(adb, mid, ResolutionStep::Types(ta, tb));
                assert(!mid2.rsv(id));
                assert(!(type_commit_res(adb, ta, mid, tb) == Err::<(), ProtoResolutionError>(
                    ProtoResolutionError::SourceNotResolved,
                ))) by {
                    match (ta, tb) {
                        (ProtoType::Type(n), ProtoType::Type(m)) => {
                            assert(adb.name_resolved(n));
                        },
                        _ => {},
                    }
                }
                assert(commit_res(adb, a.name, mid2, f.name) is Ok);
                assert(mid2.id_in_range(id));
                assert(step_post(adb, mid, last).rsv(id));
                assert(step_post(adb, mid, last).names[id] == adb.names[a.name.id as int]);
            } else {
                lemma_step_untouched(adb, mid, last, id);
            }
        }
    }
}

/// Unique-by-type correctness: when a field kind occurs exactly once among
/// the target message's surviving fields and its weak class exactly once
/// among the reference message's surviving fields, one pass resolves the
/// target field to the reference field's name. The reference field's own name
/// (and its referenced type, if any) must already be resolved on the
/// reference side, and the target field's id must not double as a type
/// reference or another field's name within the message.
pub proof fn lemma_unique_by_type(
    adb: DbView,
    bdb: DbView,
    amsg: crate::database::MessageView,
    bmsg: crate::database::MessageView,
    a: ProtoField,
    f: ProtoField,
)
    requires
        bdb.wf(),
        forall|i: int| 0 <= i < bmsg.fields.len() ==> bdb.field_wf(#[trigger] bmsg.fields[i]),
        filtered_b(bdb, bmsg.fields).contains(f),
        strong_group(filtered_b(bdb, bmsg.fields), f.field_type) == seq![f],
        weak_group(filtered_a(adb, bdb, amsg.fields, bmsg.fields), f.field_type) == seq![a],
        adb.name_resolved(a.name),
        a.field_type.spec_is_type_ref() ==> adb.rsv(a.field_type.spec_inner_type().ref_id()),
        !bdb.rsv(f.name.id as int),
        forall|i: int|
            0 <= i < bmsg.fields.len() && (#[trigger] bmsg.fields[i]).field_type.spec_is_type_ref()
                ==> bmsg.fields[i].field_type.spec_inner_type().ref_id() != f.name.id as int,
        forall|i: int|
            0 <= i < bmsg.fields.len() && #[trigger] bmsg.fields[i] != f ==> bmsg.fields[i].name.id
                != f.name.id,
    ensures
        pass_post(adb, bdb, amsg, bmsg).rsv(f.name.id as int),
        pass_post(adb, bdb, amsg, bmsg).names[f.name.id as int] == adb.names[a.name.id as int],
{
    broadcast use vstd::seq_lib::group_seq_properties;

    let fa = filtered_a(adb, bdb, amsg.fields, bmsg.fields);
    let fb = filtered_b(bdb, bmsg.fields);
    let keys = strong_keys(fb);
    let kf = f.field_type;
    let plan = pass_plan(adb, bdb, amsg.fields, bmsg.fields);
    let good = ResolutionStep::Fields(a, f);

    crate::grouping::lemma_surviving_members(
        bdb,
        crate::grouping::resolved_texts_of(bdb, bmsg.fields),
        bmsg.fields,
    );
    assert forall|x: ProtoField| fb.contains(x) implies bdb.field_wf(x) && (
    x.field_type.spec_is_type_ref() ==> x.field_type.spec_inner_type().ref_id() != f.name.id as int)
        && (x != f ==> x.name.id != f.name.id) by {
        assert(bmsg.fields.contains(x));
        let i = choose|i: int| 0 <= i < bmsg.fields.len() && bmsg.fields[i] == x;
        assert(bdb.field_wf(bmsg.fields[i]));
    }
    assert(bdb.id_in_range(f.name.id as int)) by {
        assert(bdb.field_wf(f));
    }
    assert(f.field_type.spec_is_type_ref() ==> f.field_type.spec_inner_type().ref_id() != f.name.id
        as int);

    // The key for f's bucket is present, and that bucket plans exactly the
    // unique commit.
    crate::grouping::lemma_strong_keys_shape(fb);
    assert(keys.contains(kf)) by {
        let i = choose|i: int| 0 <= i < fb.len() && fb[i] == f;
        assert(fb[i].field_type == kf);
    }
    let j = choose|j: int| 0 <= j < keys.len() && keys[j] == kf;
    assert(bucket_plan(adb, bdb, fa, keys[j], strong_group(fb, keys[j])) == seq![good]) by {
        assert(strong_group(fb, kf) == seq![f]);
        assert(weak_group(fa, kf) == seq![a]);
    }
    assert(seq![good][0] == good);
    assert(seq![good].contains(good));
    lemma_buckets_plan_cover(adb, bdb, fa, fb, keys, j, good);
    assert(plan.contains(good));

    // Every other planned step leaves f's id alone.
    lemma_buckets_plan_index(adb, bdb, fa, fb, keys);
    assert forall|i: int|
        0 <= i < plan.len() implies step_avoids(#[trigger] plan[i], f.name.id as int) || plan[i]
        == good by {
        let s = plan[i];
        assert(buckets_plan(adb, bdb, fa, fb, keys)[i] == s);
        assert(exists|jj: int|
            0 <= jj < keys.len() && bucket_plan(adb, bdb, fa, keys[jj], strong_group(fb, keys[jj])).contains(
                s,
            ));
        let jj = choose|jj: int|
            0 <= jj < keys.len() && bucket_plan(adb, bdb, fa, keys[jj], strong_group(fb, keys[jj])).contains(
                s,
            );
        let fbk = strong_group(fb, keys[jj]);
        lemma_bucket_plan_shape(adb, bdb, fa, keys[jj], fbk);
        crate::grouping::lemma_strong_group_members(fb, keys[jj]);
        assert(bucket_plan(adb, bdb, fa, keys[jj], fbk).contains(s));
        assert(fbk.len() > 0);
        assert(fbk.contains(fbk[0]));
        let g0 = fbk[0];
        assert(fb.contains(g0) && g0.field_type == keys[jj]);
        match s {
            ResolutionStep::Fields(x, g) => {
                assert(g == g0);
                if g.name.id == f.name.id {
                    assert(g == f);
                    assert(keys[jj] == kf);
                    assert(jj == j);
                    assert(bucket_plan(adb, bdb, fa, keys[jj], fbk) == seq![good]);
                    assert(s == good);
                }
            },
            ResolutionStep::Types(x, tb) => {
                assert(tb == g0.field_type.spec_inner_type());
                if tb is Type {
                    assert(g0.field_type.spec_is_type_ref());
                }
            },
        }
    }

    lemma_apply_tracks(adb, bdb, plan, a, f);
}

/// Occurrence-count ambiguity, the partial resolution: a target message whose
/// surviving fields are exactly two fields of one reference kind, set against
/// a reference message whose matching weak bucket is one run of two fields of
/// one kind, resolves the referenced type -- the target reference id gets the
/// reference schema's type text -- but neither field name, which stay
/// unresolved for a later, data-level disambiguation.
pub proof fn lemma_occurrence_partial_resolution(
    adb: DbView,
    bdb: DbView,
    afields: Seq<ProtoField>,
    bfields: Seq<ProtoField>,
    a1: ProtoField,
    a2: ProtoField,
    f1: ProtoField,
    f2: ProtoField,
    amsg: crate::database::MessageView,
    bmsg: crate::database::MessageView,
)
    requires
        bdb.wf(),
        amsg.fields == afields,
        bmsg.fields == bfields,
        filtered_b(bdb, bfields) == seq![f1, f2],
        f1.field_type == f2.field_type,
        f1.field_type.spec_is_type_ref(),
        weak_group(filtered_a(adb, bdb, afields, bfields), f1.field_type) == seq![a1, a2],
        a1.field_type == a2.field_type,
        a1.field_type.spec_is_type_ref(),
        adb.rsv(a1.field_type.spec_inner_type().ref_id()),
        !bdb.rsv(f1.field_type.spec_inner_type().ref_id()),
        bdb.id_in_range(f1.field_type.spec_inner_type().ref_id()),
        !bdb.rsv(f1.name.id as int),
        !bdb.rsv(f2.name.id as int),
        f1.name.id != f2.name.id,
        f1.field_type.spec_inner_type().ref_id() != f1.name.id as int,
        f1.field_type.spec_inner_type().ref_id() != f2.name.id as int,
    ensures
        ({
            let post = pass_post(adb, bdb, amsg, bmsg);
            let tref = f1.field_type.spec_inner_type().ref_id();
            &&& post.rsv(tref)
            &&& post.names[tref] == adb.names[a1.field_type.spec_inner_type().ref_id()]
            &&& !post.rsv(f1.name.id as int)
            &&& !post.rsv(f2.name.id as int)
        }),
{
    let fa = filtered_a(adb, bdb, afields, bfields);
    let fb = filtered_b(bdb, bfields);
    let kf = f1.field_type;
    let plan = pass_plan(adb, bdb, afields, bfields);
    let empty_f = Seq::<ProtoField>::empty();
    let empty_k = Seq::<ProtoFieldKind>::empty();
    let empty_r = Seq::<Seq<ProtoField>>::empty();

    assert(seq![f1].drop_last() =~= empty_f);
    assert(fb.drop_last() =~= seq![f1]);
    assert(strong_keys(empty_f) =~= empty_k);
    assert(strong_keys(seq![f1]) =~= seq![kf]);
    assert(seq![kf][0] == kf);
    assert(seq![kf].contains(kf));
    assert(strong_keys(fb) =~= seq![kf]);
    assert(strong_group(empty_f, kf) =~= empty_f);
    assert(strong_group(seq![f1], kf) =~= seq![f1]);
    assert(strong_group(fb, kf) =~= seq![f1, f2]);

    let wa = weak_group(fa, kf);
    let bucket = bucket_plan(adb, bdb, fa, kf, strong_group(fb, kf));
    let tstep = ResolutionStep::Types(
        a1.field_type.spec_inner_type(),
        f1.field_type.spec_inner_type(),
    );
    assert(wa == seq![a1, a2]);
    assert(seq![a1].drop_last() =~= empty_f);
    assert(wa.drop_last() =~= seq![a1]);
    assert(runs_of(empty_f) =~= empty_r);
    assert(runs_of(seq![a1]) =~= seq![seq![a1]]);
    assert(runs_of(wa) =~= seq![seq![a1]].update(0, seq![a1].push(a2)));
    assert(seq![a1].push(a2) =~= seq![a1, a2]);
    assert(runs_of(wa) =~= seq![seq![a1, a2]]);
    let runs = runs_of(wa);
    assert(runs.drop_last() =~= empty_r);
    assert(runs_with_len(empty_r, 2) =~= empty_r);
    assert(runs_with_len(runs, 2) =~= seq![seq![a1, a2]]);
    assert(wa.len() != 1);
    assert(bucket =~= seq![tstep]);
    assert(strong_keys(fb).drop_last() =~= empty_k);
    assert(buckets_plan(adb, bdb, fa, fb, empty_k) =~= Seq::<ResolutionStep>::empty());
    assert(buckets_plan(adb, bdb, fa, fb, strong_keys(fb)) =~= bucket);
    assert(plan =~= seq![tstep]);
    let post = pass_post(adb, bdb, amsg, bmsg);
    assert(plan.drop_last() =~= Seq::<ResolutionStep>::empty());
    assert(apply_plan(adb, bdb, Seq::<ResolutionStep>::empty()) == bdb);
    assert(post == step_post(adb, bdb, tstep));
    let n = a1.field_type.spec_inner_type()->Type_0;
    let m = f1.field_type.spec_inner_type()->Type_0;
    assert(type_commit_res(
        adb,
        a1.field_type.spec_inner_type(),
        bdb,
        f1.field_type.spec_inner_type(),
    ) == commit_res(adb, n, bdb, m));
    assert(commit_res(adb, n, bdb, m) is Ok);
    assert(post == commit_post(adb, n, bdb, m));
    assert(post.rsv(m.id as int));
    assert(post.names[m.id as int] == adb.names[n.id as int]);
    assert(!post.rsv(f1.name.id as int));
    assert(!post.rsv(f2.name.id as int));
}

/// Two primitive fields of identical kind that the engine can never tell
/// apart. The pair's name ids are unresolved, carry texts of their own (no
/// other id on either side carries the same text), never double as type
/// references, and always occur together: any message holding one holds the
/// other, and no other field carries their ids.
pub open spec fn shielded_pair(adb: DbView, bdb: DbView, f1: ProtoField, f2: ProtoField) -> bool {
    let id1 = f1.name.id as int;
    let id2 = f2.name.id as int;
    &&& adb.wf()
    &&& f1.field_type == f2.field_type
    &&& !f1.field_type.spec_is_type_ref()
    &&& id1 != id2
    &&& bdb.id_in_range(id1) && bdb.id_in_range(id2)
    &&& !bdb.rsv(id1) && !bdb.rsv(id2)
    &&& forall|j: int| bdb.id_in_range(j) && j != id1 ==> bdb.names[j] != bdb.names[id1]
    &&& forall|j: int| bdb.id_in_range(j) && j != id2 ==> bdb.names[j] != bdb.names[id2]
    &&& forall|j: int|
        adb.id_in_range(j) ==> #[trigger] adb.names[j] != bdb.names[id1] && adb.names[j]
            != bdb.names[id2]
    &&& forall|mi: int, i: int|
        0 <= mi < bdb.messages.len() && 0 <= i < (#[trigger] bdb.messages[mi]).fields.len() ==> {
            let fld = #[trigger] bdb.messages[mi].fields[i];
            &&& (fld.field_type.spec_is_type_ref() ==> fld.field_type.spec_inner_type().ref_id()
                != id1 && fld.field_type.spec_inner_type().ref_id() != id2)
            &&& (fld.name.id as int == id1 ==> fld == f1)
            &&& (fld.name.id as int == id2 ==> fld == f2)
        }
    &&& forall|mi: int|
        0 <= mi < bdb.messages.len() ==> ((#[trigger] bdb.messages[mi]).fields.contains(f1)
            <==> bdb.messages[mi].fields.contains(f2))
}

/// Under a plan, every newly bound text is a text of the reference table.
pub proof fn lemma_apply_names_from(adb: DbView, bdb: DbView, plan: Seq<ResolutionStep>)
    requires
        adb.wf(),
        bdb.wf(),
    ensures
        forall|j: int|
            bdb.id_in_range(j) ==> apply_plan(adb, bdb, plan).names[j] == bdb.names[j] || exists|
                k: int,
            | adb.id_in_range(k) && apply_plan(adb, bdb, plan).names[j] == #[trigger] adb.names[k],
    decreases plan.len(),
{
    if plan.len() > 0 {
        lemma_apply_names_from(adb, bdb, plan.drop_last());
        let mid = apply_plan(adb, bdb, plan.drop_last());
        crate::matcher::lemma_apply_plan_evolves(adb, bdb, plan.drop_last());
        crate::matcher::lemma_step_properties(adb, mid, plan.last());
        let post = apply_plan(adb, bdb, plan);
        assert forall|j: int| bdb.id_in_range(j) implies post.names[j] == bdb.names[j] || exists|
            k: int,
        | adb.id_in_range(k) && post.names[j] == #[trigger] adb.names[k] by {
            match plan.last() {
                ResolutionStep::Fields(a, b) => {
                    let ta = a.field_type.spec_inner_type();
                    let tb = b.field_type.spec_inner_type();
                    let mid2 = type_commit_post(adb, ta, mid, tb);
                    if mid2.names[j] != mid.names[j] {
                        match (ta, tb) {
                            (ProtoType::Type(n), ProtoType::Type(m)) => {
                                assert(adb.rsv(n.id as int));
                                assert(adb.id_in_range(n.id as int));
                                assert(mid2.names[j] == adb.names[n.id as int]);
                            },
                            _ => {},
                        }
                    }
                    if post.names[j] != mid2.names[j] {
                        assert(adb.rsv(a.name.id as int));
                        assert(adb.id_in_range(a.name.id as int));
                        assert(post.names[j] == adb.names[a.name.id as int]);
                    }
                },
                ResolutionStep::Types(ta, tb) => {
                    if post.names[j] != mid.names[j] {
                        match (ta, tb) {
                            (ProtoType::Type(n), ProtoType::Type(m)) => {
                                assert(adb.rsv(n.id as int));
                                assert(adb.id_in_range(n.id as int));
                                assert(post.names[j] == adb.names[n.id as int]);
                            },
                            _ => {},
                        }
                    }
                },
            }
        }
    }
}

/// Primitive multiplicity never resolves, one pass: a pass over any message
/// pair leaves a shielded pair of primitive fields unresolved, and leaves the
/// pair shielded, so no later pass resolves it either.
#[verifier::rlimit(60)]
pub proof fn lemma_primitive_multiplicity_pass(
    adb: DbView,
    bdb: DbView,
    amsg: crate::database::MessageView,
    bmsg: crate::database::MessageView,
    bi: int,
    f1: ProtoField,
    f2: ProtoField,
)
    requires
        bdb.wf(),
        0 <= bi < bdb.messages.len(),
        bmsg == bdb.messages[bi],
        shielded_pair(adb, bdb, f1, f2),
    ensures
        !pass_post(adb, bdb, amsg, bmsg).rsv(f1.name.id as int),
        !pass_post(adb, bdb, amsg, bmsg).rsv(f2.name.id as int),
        shielded_pair(adb, pass_post(adb, bdb, amsg, bmsg), f1, f2),
{
    broadcast use vstd::seq_lib::group_seq_properties;

    let id1 = f1.name.id as int;
    let id2 = f2.name.id as int;
    let fa = filtered_a(adb, bdb, amsg.fields, bmsg.fields);
    let fb = filtered_b(bdb, bmsg.fields);
    let keys = strong_keys(fb);
    let plan = pass_plan(adb, bdb, amsg.fields, bmsg.fields);
    let texts = crate::grouping::resolved_texts_of(bdb, bmsg.fields);
    crate::grouping::lemma_surviving_members(bdb, texts, bmsg.fields);
    crate::grouping::lemma_resolved_texts_members(bdb, bmsg.fields);

    // A field of the pair that stands in the message survives the filter: its
    // text is its own, and it is unresolved.
    assert forall|g: ProtoField|
        (g == f1 || g == f2) && bmsg.fields.contains(g) implies fb.contains(g) by {
        assert(!texts.contains(bdb.text_of(g.name))) by {
            if texts.contains(bdb.text_of(g.name)) {
                let i = choose|i: int|
                    0 <= i < bmsg.fields.len() && bdb.name_resolved(
                        (#[trigger] bmsg.fields[i]).name,
                    ) && bdb.text_of(g.name) == bdb.text_of(bmsg.fields[i].name);
                let other = bmsg.fields[i].name.id as int;
                assert(bdb.id_in_range(other)) by {
                    assert(bdb.rsv(other));
                    assert(bdb.wf());
                }
                assert(other != g.name.id as int);
                assert(bdb.names[other] != bdb.names[g.name.id as int]);
            }
        }
        let i = choose|i: int| 0 <= i < bmsg.fields.len() && bmsg.fields[i] == g;
        assert(surviving(bdb, texts, bmsg.fields).contains(bmsg.fields[i]));
    }

    // Every planned step avoids both ids.
    lemma_buckets_plan_index(adb, bdb, fa, fb, keys);
    assert forall|i: int|
        0 <= i < plan.len() implies step_avoids(#[trigger] plan[i], id1) && step_avoids(
        plan[i],
        id2,
    ) by {
        let s = plan[i];
        assert(buckets_plan(adb, bdb, fa, fb, keys)[i] == s);
        assert(exists|jj: int|
            0 <= jj < keys.len() && bucket_plan(adb, bdb, fa, keys[jj], strong_group(fb, keys[jj])).contains(
                s,
            ));
        let jj = choose|jj: int|
            0 <= jj < keys.len() && bucket_plan(adb, bdb, fa, keys[jj], strong_group(fb, keys[jj])).contains(
                s,
            );
        let fbk = strong_group(fb, keys[jj]);
        lemma_bucket_plan_shape(adb, bdb, fa, keys[jj], fbk);
        crate::grouping::lemma_strong_group_members(fb, keys[jj]);
        assert(bucket_plan(adb, bdb, fa, keys[jj], fbk).contains(s));
        assert(fbk.len() > 0);
        let g0 = fbk[0];
        assert(fbk.contains(g0));
        assert(strong_group(fb, keys[jj]).contains(g0));
        crate::grouping::lemma_strong_group_member_one(fb, keys[jj], g0);
        assert(fb.contains(g0) && g0.field_type == keys[jj]);
        assert(surviving(bdb, texts, bmsg.fields).contains(g0));
        assert(bmsg.fields.contains(g0));
        let gi = choose|gi: int| 0 <= gi < bmsg.fields.len() && bmsg.fields[gi] == g0;
        match s {
            ResolutionStep::Fields(x, g) => {
                assert(g == g0);
                if g.name.id as int == id1 || g.name.id as int == id2 {
                    let (gf, go) = if g.name.id as int == id1 {
                        (f1, f2)
                    } else {
                        (f2, f1)
                    };
                    assert(g == gf);
                    assert(!keys[jj].spec_is_type_ref());
                    assert(fbk.len() == 1);
                    assert(bmsg.fields.contains(go));
                    assert(fb.contains(go));
                    assert(go.field_type == gf.field_type);
                    let oi = choose|oi: int| 0 <= oi < fb.len() && fb[oi] == go;
                    assert(strong_group(fb, keys[jj]).contains(fb[oi]));
                    let p1 = choose|p: int| 0 <= p < fbk.len() && fbk[p] == gf;
                    let p2 = choose|p: int| 0 <= p < fbk.len() && fbk[p] == go;
                    assert(gf != go);
                    assert(p1 != p2);
                    assert(false);
                }
            },
            ResolutionStep::Types(x, tb) => {
                if tb is Type {
                    assert(tb == g0.field_type.spec_inner_type());
                    assert(g0.field_type.spec_is_type_ref());
                    assert(bmsg.fields[gi].field_type.spec_inner_type().ref_id() != id1
                        && bmsg.fields[gi].field_type.spec_inner_type().ref_id() != id2);
                }
            },
        }
    }
    assert(forall|i: int| 0 <= i < plan.len() ==> step_avoids(#[trigger] plan[i], id1));
    assert(forall|i: int| 0 <= i < plan.len() ==> step_avoids(#[trigger] plan[i], id2));
    lemma_apply_untouched(adb, bdb, plan, id1);
    lemma_apply_untouched(adb, bdb, plan, id2);
    let post = pass_post(adb, bdb, amsg, bmsg);
    crate::matcher::lemma_apply_plan_evolves(adb, bdb, plan);
    assert(!post.rsv(id1) && !post.rsv(id2));

    // The pair stays shielded: ids, kinds and messages are static, the pair's
    // own texts are untouched, and every newly bound text comes from the
    // reference table, where neither text occurs.
    assert(post.names[id1] == bdb.names[id1] && post.names[id2] == bdb.names[id2]) by {
        lemma_apply_untouched_names(adb, bdb, plan, id1);
        lemma_apply_untouched_names(adb, bdb, plan, id2);
    }
    lemma_apply_names_from(adb, bdb, plan);
    assert forall|j: int| post.id_in_range(j) && j != id1 implies post.names[j] != post.names[id1] by {
        assert(bdb.id_in_range(j));
        assert(apply_plan(adb, bdb, plan).names[j] == bdb.names[j] || exists|k: int|
            adb.id_in_range(k) && apply_plan(adb, bdb, plan).names[j] == #[trigger] adb.names[k]);
        if post.names[j] == bdb.names[j] {
            assert(bdb.names[j] != bdb.names[id1]);
        } else {
            let k = choose|k: int|
                adb.id_in_range(k) && apply_plan(adb, bdb, plan).names[j] == #[trigger] adb.names[k];
            assert(adb.names[k] != bdb.names[id1]);
        }
    }
    assert forall|j: int| post.id_in_range(j) && j != id2 implies post.names[j] != post.names[id2] by {
        assert(bdb.id_in_range(j));
        assert(apply_plan(adb, bdb, plan).names[j] == bdb.names[j] || exists|k: int|
            adb.id_in_range(k) && apply_plan(adb, bdb, plan).names[j] == #[trigger] adb.names[k]);
        if post.names[j] == bdb.names[j] {
            assert(bdb.names[j] != bdb.names[id2]);
        } else {
            let k = choose|k: int|
                adb.id_in_range(k) && apply_plan(adb, bdb, plan).names[j] == #[trigger] adb.names[k];
            assert(adb.names[k] != bdb.names[id2]);
        }
    }
}

/// A plan all of whose steps avoid an id leaves that id's text alone.
pub proof fn lemma_apply_untouched_names(
    adb: DbView,
    bdb: DbView,
    plan: Seq<ResolutionStep>,
    id: int,
)
    requires
        bdb.wf(),
        bdb.id_in_range(id),
        forall|i: int| 0 <= i < plan.len() ==> step_avoids(#[trigger] plan[i], id),
    ensures
        apply_plan(adb, bdb, plan).names[id] == bdb.names[id],
    decreases plan.len(),
{
    if plan.len() > 0 {
        let p1 = plan.drop_last();
        assert(forall|i: int| 0 <= i < p1.len() ==> step_avoids(#[trigger] p1[i], id)) by {
            assert(forall|i: int| 0 <= i < p1.len() ==> p1[i] == plan[i]);
        }
        lemma_apply_untouched_names(adb, bdb, p1, id);
        crate::matcher::lemma_apply_plan_evolves(adb, bdb, p1);
        assert(step_avoids(plan[plan.len() - 1], id));
        lemma_step_untouched(adb, apply_plan(adb, bdb, p1), plan.last(), id);
    }
}

/// One round of the driver, seen abstractly: a sequence of passes, each over
/// some reference message and some registered target message.
pub open spec fn passes_post(
    adb: DbView,
    bdb: DbView,
    pairs: Seq<(crate::database::MessageView, int)>,
) -> DbView
    decreases pairs.len(),
{
    if pairs.len() == 0 {
        bdb
    } else {
        let mid = passes_post(adb, bdb, pairs.drop_last());
        pass_post(adb, mid, pairs.last().0, mid.messages[pairs.last().1])
    }
}

/// Primitive multiplicity never resolves, regardless of pass count: however
/// many passes run, over whatever message pairs, a shielded pair of primitive
/// fields stays unresolved.
pub proof fn lemma_primitive_multiplicity_never(
    adb: DbView,
    bdb: DbView,
    pairs: Seq<(crate::database::MessageView, int)>,
    f1: ProtoField,
    f2: ProtoField,
)
    requires
        bdb.wf(),
        shielded_pair(adb, bdb, f1, f2),
        forall|i: int| 0 <= i < pairs.len() ==> 0 <= (#[trigger] pairs[i]).1 < bdb.messages.len(),
    ensures
        !passes_post(adb, bdb, pairs).rsv(f1.name.id as int),
        !passes_post(adb, bdb, pairs).rsv(f2.name.id as int),
        shielded_pair(adb, passes_post(adb, bdb, pairs), f1, f2),
        passes_post(adb, bdb, pairs).wf(),
        crate::matcher::evolves(bdb, passes_post(adb, bdb, pairs)),
    decreases pairs.len(),
{
    if pairs.len() == 0 {
        crate::matcher::lemma_evolves_trans(bdb, bdb, bdb);
    } else {
        let p1 = pairs.drop_last();
        assert(forall|i: int|
            0 <= i < p1.len() ==> 0 <= (#[trigger] p1[i]).1 < bdb.messages.len()) by {
            assert(forall|i: int| 0 <= i < p1.len() ==> p1[i] == pairs[i]);
        }
        lemma_primitive_multiplicity_never(adb, bdb, p1, f1, f2);
        let mid = passes_post(adb, bdb, p1);
        let bi = pairs.last().1;
        assert(mid.messages == bdb.messages);
        lemma_primitive_multiplicity_pass(
            adb,
            mid,
            pairs.last().0,
            mid.messages[bi],
            bi,
            f1,
            f2,
        );
        crate::matcher::lemma_apply_plan_evolves(
            adb,
            mid,
            pass_plan(adb, mid, pairs.last().0.fields, mid.messages[bi].fields),
        );
        crate::matcher::lemma_evolves_trans(bdb, mid, passes_post(adb, bdb, pairs));
    }
}

} // verus!
