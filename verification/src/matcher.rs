//! The matching engine: one per-message pass (plan, then apply), the
//! per-message fixed point, and the global fixed-point driver over all
//! message pairs. The target table only ever evolves monotonically: a resolved
//! id keeps its text forever, and every pass that reports progress has
//! strictly shrunk the set of unresolved ids, which is what bounds the run.

use vstd::prelude::*;

use crate::database::{DbView, MessageView, ProtoDatabase};
use crate::grouping::{pass_plan, plan_pass, ResolutionStep};
use crate::prototype::{ProtoField, ProtoFieldKind, ProtoMessage, ProtoName, ProtoType};
use crate::resolve::{
    commit_post, commit_res, field_commit_post, field_commit_res, type_commit_post,
    type_commit_res,
};

verus! {

/// The target table after one commit attempt of a planned step.
pub open spec fn step_post(adb: DbView, bdb: DbView, step: ResolutionStep) -> DbView {
    match step {
        ResolutionStep::Fields(a, b) => field_commit_post(adb, a, bdb, b),
        ResolutionStep::Types(ta, tb) => type_commit_post(adb, ta, bdb, tb),
    }
}

/// Whether the commit attempt of a planned step resolves anything new: for a
/// field pair that counts a committed inner type as well as a committed field
/// name.
pub open spec fn step_ok(adb: DbView, bdb: DbView, step: ResolutionStep) -> bool {
    match step {
        ResolutionStep::Fields(a, b) => type_commit_res(
            adb,
            a.field_type.spec_inner_type(),
            bdb,
            b.field_type.spec_inner_type(),
        ) is Ok || field_commit_res(adb, a, bdb, b) is Ok,
        ResolutionStep::Types(ta, tb) => type_commit_res(adb, ta, bdb, tb) is Ok,
    }
}

/// A field pair's commit attempt can be performed as an explicit type-level
/// attempt followed by the field-level attempt on the table that left: the
/// outcome and the final table are the same.
pub proof fn lemma_field_two_phase(adb: DbView, fa: ProtoField, bdb: DbView, fb: ProtoField)
    requires
        bdb.wf(),
    ensures
        ({
            let ta = fa.field_type.spec_inner_type();
            let tb = fb.field_type.spec_inner_type();
            let mid = type_commit_post(adb, ta, bdb, tb);
            &&& field_commit_post(adb, fa, mid, fb) == field_commit_post(adb, fa, bdb, fb)
            &&& field_commit_res(adb, fa, mid, fb) == field_commit_res(adb, fa, bdb, fb)
        }),
{
    let ta = fa.field_type.spec_inner_type();
    let tb = fb.field_type.spec_inner_type();
    let mid = type_commit_post(adb, ta, bdb, tb);
    match (ta, tb) {
        (ProtoType::Type(n), ProtoType::Type(m)) => {
            if commit_res(adb, n, bdb, m) is Ok {
                if bdb.id_in_range(m.id as int) {
                    assert(mid.rsv(m.id as int));
                    assert(type_commit_res(adb, ta, mid, tb) == Err::<
                        (),
                        crate::resolve::ProtoResolutionError,
                    >(crate::resolve::ProtoResolutionError::TargetAlreadyResolved));
                    assert(type_commit_post(adb, ta, mid, tb) == mid);
                } else {
                    assert(mid == bdb);
                }
            } else {
                assert(mid == bdb);
            }
        },
        _ => {
            assert(mid == bdb);
        },
    }
}

/// The target side of a planned step mentions only issued ids.
pub open spec fn step_b_wf(bdb: DbView, step: ResolutionStep) -> bool {
    match step {
        ResolutionStep::Fields(_, b) => bdb.field_wf(b),
        ResolutionStep::Types(_, tb) => bdb.type_wf(tb),
    }
}

/// The target table after the plan's commit attempts, applied in order.
pub open spec fn apply_plan(adb: DbView, bdb: DbView, plan: Seq<ResolutionStep>) -> DbView
    decreases plan.len(),
{
    if plan.len() == 0 {
        bdb
    } else {
        step_post(adb, apply_plan(adb, bdb, plan.drop_last()), plan.last())
    }
}

/// Whether any of the plan's commit attempts succeeds.
pub open spec fn apply_any(adb: DbView, bdb: DbView, plan: Seq<ResolutionStep>) -> bool
    decreases plan.len(),
{
    if plan.len() == 0 {
        false
    } else {
        apply_any(adb, bdb, plan.drop_last()) || step_ok(
            adb,
            apply_plan(adb, bdb, plan.drop_last()),
            plan.last(),
        )
    }
}

/// The target table after one full per-message pass: the pass plans its
/// attempts against the tables as they stand, then applies them in order.
pub open spec fn pass_post(adb: DbView, bdb: DbView, amsg: MessageView, bmsg: MessageView) -> DbView {
    apply_plan(adb, bdb, pass_plan(adb, bdb, amsg.fields, bmsg.fields))
}

/// Whether one full per-message pass commits anything.
pub open spec fn pass_did(adb: DbView, bdb: DbView, amsg: MessageView, bmsg: MessageView) -> bool {
    apply_any(adb, bdb, pass_plan(adb, bdb, amsg.fields, bmsg.fields))
}

/// How the target table may evolve under the engine: the id space, the
/// load-time snapshot and the messages never change, and an id once resolved
/// stays resolved with its text unchanged.
pub open spec fn evolves(pre: DbView, post: DbView) -> bool {
    &&& post.names.len() == pre.names.len()
    &&& post.resolved.len() == pre.resolved.len()
    &&& post.original == pre.original
    &&& post.messages == pre.messages
    &&& forall|id: int| pre.rsv(id) ==> post.rsv(id) && post.names[id] == pre.names[id]
}

/// Evolution is reflexive and transitive.
pub proof fn lemma_evolves_trans(a: DbView, b: DbView, c: DbView)
    ensures
        evolves(a, a),
        evolves(a, b) && evolves(b, c) ==> evolves(a, c),
{
}

/// The number of ids not yet resolved: the measure every productive pass
/// strictly shrinks.
pub open spec fn count_unresolved(s: Seq<bool>) -> nat
    decreases s.len(),
{
    if s.len() == 0 {
        0
    } else {
        count_unresolved(s.drop_last()) + if s.last() {
            0nat
        } else {
            1nat
        }
    }
}

/// Pointwise monotone resolution can only shrink the unresolved count, and
/// shrinks it strictly as soon as one id flips.
pub proof fn lemma_count_pointwise(a: Seq<bool>, b: Seq<bool>)
    requires
        a.len() == b.len(),
        forall|i: int| 0 <= i < a.len() && a[i] ==> b[i],
    ensures
        count_unresolved(b) <= count_unresolved(a),
        (exists|i: int| 0 <= i < a.len() && !a[i] && b[i]) ==> count_unresolved(b)
            < count_unresolved(a),
    decreases a.len(),
{
    if a.len() > 0 {
        let a1 = a.drop_last();
        let b1 = b.drop_last();
        assert(forall|i: int| 0 <= i < a1.len() && a1[i] ==> b1[i]) by {
            assert(forall|i: int| 0 <= i < a1.len() ==> a1[i] == a[i] && b1[i] == b[i]);
        }
        lemma_count_pointwise(a1, b1);
        if exists|i: int| 0 <= i < a.len() && !a[i] && b[i] {
            let i = choose|i: int| 0 <= i < a.len() && !a[i] && b[i];
            if i < a.len() - 1 {
                assert(!a1[i] && b1[i]);
                assert(count_unresolved(b1) < count_unresolved(a1));
            } else {
                assert(!a.last() && b.last());
            }
        }
    }
}

/// One commit attempt evolves the table monotonically, keeps it well formed,
/// and strictly shrinks the unresolved count when it succeeds on an issued
/// target id; a failed attempt changes nothing.
pub proof fn lemma_commit_properties(adb: DbView, src: ProtoName, bdb: DbView, tgt: ProtoName)
    requires
        bdb.wf(),
    ensures
        commit_post(adb, src, bdb, tgt).wf(),
        evolves(bdb, commit_post(adb, src, bdb, tgt)),
        commit_res(adb, src, bdb, tgt) is Ok && bdb.id_in_range(tgt.id as int) ==> count_unresolved(
            commit_post(adb, src, bdb, tgt).resolved,
        ) < count_unresolved(bdb.resolved),
        !(commit_res(adb, src, bdb, tgt) is Ok) ==> commit_post(adb, src, bdb, tgt) == bdb,
        count_unresolved(commit_post(adb, src, bdb, tgt).resolved) <= count_unresolved(
            bdb.resolved,
        ),
{
    crate::resolve::lemma_commit_post_frame(adb, src, bdb, tgt);
    let post = commit_post(adb, src, bdb, tgt);
    lemma_count_pointwise(bdb.resolved, post.resolved);
    if commit_res(adb, src, bdb, tgt) is Ok && bdb.id_in_range(tgt.id as int) {
        assert(!bdb.resolved[tgt.id as int] && post.resolved[tgt.id as int]);
    }
}

/// One planned step evolves the table monotonically, keeps it well formed,
/// and strictly shrinks the unresolved count when its attempt succeeds on a
/// well-formed target; a failed attempt changes nothing.
pub proof fn lemma_step_properties(adb: DbView, bdb: DbView, step: ResolutionStep)
    requires
        bdb.wf(),
    ensures
        step_post(adb, bdb, step).wf(),
        evolves(bdb, step_post(adb, bdb, step)),
        count_unresolved(step_post(adb, bdb, step).resolved) <= count_unresolved(bdb.resolved),
        step_ok(adb, bdb, step) && step_b_wf(bdb, step) ==> count_unresolved(
            step_post(adb, bdb, step).resolved,
        ) < count_unresolved(bdb.resolved),
        !step_ok(adb, bdb, step) ==> step_post(adb, bdb, step) == bdb,
{
    match step {
        ResolutionStep::Types(ta, tb) => {
            match (ta, tb) {
                (ProtoType::Type(n), ProtoType::Type(m)) => {
                    lemma_commit_properties(adb, n, bdb, m);
                },
                _ => {},
            }
        },
        ResolutionStep::Fields(a, b) => {
            let ta = a.field_type.spec_inner_type();
            let tb = b.field_type.spec_inner_type();
            let mid = type_commit_post(adb, ta, bdb, tb);
            match (ta, tb) {
                (ProtoType::Type(n), ProtoType::Type(m)) => {
                    lemma_commit_properties(adb, n, bdb, m);
                },
                _ => {},
            }
            lemma_commit_properties(adb, a.name, mid, b.name);
            if step_ok(adb, bdb, step) && step_b_wf(bdb, step) {
                if type_commit_res(adb, ta, bdb, tb) is Ok {
                    assert(mid.id_in_range(tb.ref_id()));
                    assert(count_unresolved(mid.resolved) < count_unresolved(bdb.resolved));
                } else {
                    assert(mid == bdb);
                    assert(commit_res(adb, a.name, mid, b.name) is Ok);
                    assert(mid.id_in_range(b.name.id as int));
                    assert(count_unresolved(commit_post(adb, a.name, mid, b.name).resolved)
                        < count_unresolved(mid.resolved));
                }
            }
        },
    }
}

/// Applying any plan evolves a well-formed table monotonically and keeps it
/// well formed, whatever the plan's steps are.
pub proof fn lemma_apply_plan_evolves(adb: DbView, bdb: DbView, plan: Seq<ResolutionStep>)
    requires
        bdb.wf(),
    ensures
        apply_plan(adb, bdb, plan).wf(),
        evolves(bdb, apply_plan(adb, bdb, plan)),
    decreases plan.len(),
{
    if plan.len() > 0 {
        lemma_apply_plan_evolves(adb, bdb, plan.drop_last());
        let mid = apply_plan(adb, bdb, plan.drop_last());
        lemma_step_properties(adb, mid, plan.last());
        lemma_evolves_trans(bdb, mid, step_post(adb, mid, plan.last()));
    }
}

/// Applying a plan evolves the table monotonically and keeps it well formed;
/// it changes nothing when no attempt succeeds, and strictly shrinks the
/// unresolved count when one does (on well-formed targets).
pub proof fn lemma_apply_plan_properties(adb: DbView, bdb: DbView, plan: Seq<ResolutionStep>)
    requires
        bdb.wf(),
        forall|i: int| 0 <= i < plan.len() ==> step_b_wf(bdb, #[trigger] plan[i]),
    ensures
        apply_plan(adb, bdb, plan).wf(),
        evolves(bdb, apply_plan(adb, bdb, plan)),
        count_unresolved(apply_plan(adb, bdb, plan).resolved) <= count_unresolved(bdb.resolved),
        apply_any(adb, bdb, plan) ==> count_unresolved(apply_plan(adb, bdb, plan).resolved)
            < count_unresolved(bdb.resolved),
        !apply_any(adb, bdb, plan) ==> apply_plan(adb, bdb, plan) == bdb,
        apply_any(adb, bdb, plan) == (apply_plan(adb, bdb, plan) != bdb),
    decreases plan.len(),
{
    if plan.len() > 0 {
        let p1 = plan.drop_last();
        assert(forall|i: int| 0 <= i < p1.len() ==> step_b_wf(bdb, #[trigger] p1[i])) by {
            assert(forall|i: int| 0 <= i < p1.len() ==> p1[i] == plan[i]);
        }
        lemma_apply_plan_properties(adb, bdb, p1);
        let mid = apply_plan(adb, bdb, p1);
        let last = plan.last();
        lemma_step_properties(adb, mid, last);
        assert(step_b_wf(mid, last)) by {
            assert(step_b_wf(bdb, plan[plan.len() - 1]));
        }
        lemma_evolves_trans(bdb, mid, step_post(adb, mid, last));
        if apply_any(adb, bdb, plan) {
            if step_ok(adb, mid, last) {
                assert(count_unresolved(step_post(adb, mid, last).resolved) < count_unresolved(
                    mid.resolved,
                ));
            }
        }
        if apply_plan(adb, bdb, plan) != bdb {
            assert(apply_any(adb, bdb, plan)) by {
                if !apply_any(adb, bdb, plan) {
                    assert(mid == bdb);
                    assert(!step_ok(adb, mid, last));
                }
            }
        }
    }
}

/// A well-formed field's inner type is well formed.
pub proof fn lemma_kind_wf_inner(bdb: DbView, k: ProtoFieldKind)
    ensures
        bdb.kind_wf(k) ==> bdb.type_wf(k.spec_inner_type()),
{
}

/// Every step a bucket plans has a well-formed target side, provided the
/// bucket's fields do.
pub proof fn lemma_bucket_plan_b_wf(
    adb: DbView,
    bdb: DbView,
    fa: Seq<ProtoField>,
    kb: ProtoFieldKind,
    fbk: Seq<ProtoField>,
)
    requires
        forall|x: ProtoField| fbk.contains(x) ==> bdb.field_wf(x),
    ensures
        forall|i: int|
            0 <= i < crate::grouping::bucket_plan(adb, bdb, fa, kb, fbk).len() ==> step_b_wf(
                bdb,
                #[trigger] crate::grouping::bucket_plan(adb, bdb, fa, kb, fbk)[i],
            ),
{
    let plan = crate::grouping::bucket_plan(adb, bdb, fa, kb, fbk);
    let wa = crate::grouping::weak_group(fa, kb);
    if wa.len() == 0 {
    } else if fbk.len() == 1 && wa.len() == 1 {
        assert(fbk.contains(fbk[0]));
    } else if kb.spec_is_type_ref() {
        let runs = crate::grouping::runs_of(wa);
        let matching = crate::grouping::runs_with_len(runs, fbk.len() as int);
        crate::grouping::lemma_runs_with_len_lens(runs, fbk.len() as int);
        crate::grouping::lemma_runs_with_len_members(runs, fbk.len() as int);
        crate::grouping::lemma_runs_shape(wa);
        if matching.len() == 1 {
            assert(matching[0].len() == fbk.len());
            let j = choose|j: int| 0 <= j < runs.len() && matching[0] == runs[j];
            assert(runs[j].len() > 0);
            assert(fbk.len() > 0);
            assert(fbk.contains(fbk[0]));
            lemma_kind_wf_inner(bdb, fbk[0].field_type);
        } else if matching.len() == 0 {
        } else {
            let sat = crate::grouping::runs_eq_resolved(adb, bdb, matching, kb);
            if fbk.len() == 1 && sat.len() == 1 {
                assert(fbk.contains(fbk[0]));
            }
        }
    }
}

/// Every step a pass plans has a well-formed target side, provided the
/// target message's fields do.
pub proof fn lemma_buckets_plan_b_wf(
    adb: DbView,
    bdb: DbView,
    fa: Seq<ProtoField>,
    fb: Seq<ProtoField>,
    keys: Seq<ProtoFieldKind>,
)
    requires
        forall|x: ProtoField| fb.contains(x) ==> bdb.field_wf(x),
    ensures
        forall|i: int|
            0 <= i < crate::grouping::buckets_plan(adb, bdb, fa, fb, keys).len() ==> step_b_wf(
                bdb,
                #[trigger] crate::grouping::buckets_plan(adb, bdb, fa, fb, keys)[i],
            ),
    decreases keys.len(),
{
    if keys.len() > 0 {
        lemma_buckets_plan_b_wf(adb, bdb, fa, fb, keys.drop_last());
        let fbk = crate::grouping::strong_group(fb, keys.last());
        crate::grouping::lemma_strong_group_members(fb, keys.last());
        assert(forall|x: ProtoField| fbk.contains(x) ==> bdb.field_wf(x));
        lemma_bucket_plan_b_wf(adb, bdb, fa, keys.last(), fbk);
        let a = crate::grouping::buckets_plan(adb, bdb, fa, fb, keys.drop_last());
        let b = crate::grouping::bucket_plan(adb, bdb, fa, keys.last(), fbk);
        assert forall|i: int|
            0 <= i < crate::grouping::buckets_plan(adb, bdb, fa, fb, keys).len() implies step_b_wf(
            bdb,
            #[trigger] crate::grouping::buckets_plan(adb, bdb, fa, fb, keys)[i],
        ) by {
            if i < a.len() {
                assert(crate::grouping::buckets_plan(adb, bdb, fa, fb, keys)[i] == a[i]);
            } else {
                assert(crate::grouping::buckets_plan(adb, bdb, fa, fb, keys)[i] == b[i - a.len()]);
            }
        }
    }
}

/// Every step a pass plans has a well-formed target side.
pub proof fn lemma_pass_plan_b_wf(
    adb: DbView,
    bdb: DbView,
    afields: Seq<ProtoField>,
    bfields: Seq<ProtoField>,
)
    requires
        forall|i: int| 0 <= i < bfields.len() ==> bdb.field_wf(#[trigger] bfields[i]),
    ensures
        forall|i: int|
            0 <= i < pass_plan(adb, bdb, afields, bfields).len() ==> step_b_wf(
                bdb,
                #[trigger] pass_plan(adb, bdb, afields, bfields)[i],
            ),
{
    broadcast use vstd::seq_lib::group_seq_properties;

    let fa = crate::grouping::filtered_a(adb, bdb, afields, bfields);
    let fb = crate::grouping::filtered_b(bdb, bfields);
    crate::grouping::lemma_surviving_members(
        bdb,
        crate::grouping::resolved_texts_of(bdb, bfields),
        bfields,
    );
    assert forall|x: ProtoField| fb.contains(x) implies bdb.field_wf(x) by {
        assert(bfields.contains(x));
        let i = choose|i: int| 0 <= i < bfields.len() && bfields[i] == x;
        assert(bdb.field_wf(bfields[i]));
    }
    lemma_buckets_plan_b_wf(adb, bdb, fa, fb, crate::grouping::strong_keys(fb));
}

/// `i` is the position of the first registered message whose name's bound
/// text is `t`.
pub open spec fn is_first_msg_titled(db: DbView, t: Seq<char>, i: int) -> bool {
    &&& 0 <= i < db.messages.len()
    &&& db.text_of(db.messages[i].name) == t
    &&& forall|j: int| 0 <= j < i ==> db.text_of(db.messages[j].name) != t
}

/// At most one position is the first with a given title.
pub proof fn lemma_first_msg_titled_unique(db: DbView, t: Seq<char>, i: int, j: int)
    requires
        is_first_msg_titled(db, t, i),
        is_first_msg_titled(db, t, j),
    ensures
        i == j,
{
}

/// The position of the first registered message whose name's bound text is
/// `t`, if any message carries that text.
#[verifier::loop_isolation(false)]
pub fn find_message_by_text(db: &ProtoDatabase, t: &String) -> (r: Option<usize>)
    requires
        db@.wf(),
    ensures
        match r {
            Some(i) => is_first_msg_titled(db@, t@, i as int),
            None => forall|i: int| !is_first_msg_titled(db@, t@, i),
        },
{
    let mut i: usize = 0;
    let count = db.message_count();
    while i < count
        invariant
            0 <= i <= db@.messages.len(),
            forall|j: int| 0 <= j < i ==> db@.text_of(db@.messages[j].name) != t@,
        decreases db@.messages.len() - i,
    {
        let n = db.message_at(i).name;
        proof {
            assert(db@.msg_wf(db@.messages[i as int]));
        }
        let text = db.text_at(n.id);
        if text == *t {
            return Some(i);
        }
        i = i + 1;
    }
    None
}

/// Global convergence: for every target message, the pass over it and its
/// like-titled reference message (if one exists) changes nothing.
pub open spec fn sweep_noop(adb: DbView, bdb: DbView) -> bool {
    forall|bi: int, ai: int|
        0 <= bi < bdb.messages.len() && #[trigger] is_first_msg_titled(
            adb,
            bdb.text_of(bdb.messages[bi].name),
            ai,
        ) ==> pass_post(adb, bdb, adb.messages[ai], bdb.messages[bi]) == bdb
}

/// The matching engine: the read-only reference schema database and the
/// target schema database it resolves in place.
pub struct Matcher {
    pub proto_db_a: ProtoDatabase,
    pub proto_db_b: ProtoDatabase,
}

impl Matcher {
    /// Both databases are well formed.
    pub open spec fn wf(self) -> bool {
        &&& self.proto_db_a@.wf()
        &&& self.proto_db_b@.wf()
    }

    pub fn new(proto_db_a: ProtoDatabase, proto_db_b: ProtoDatabase) -> (r: Self)
        ensures
            r.proto_db_a == proto_db_a,
            r.proto_db_b == proto_db_b,
    {
        Self { proto_db_a, proto_db_b }
    }

    /// Hands the mutated target database back, with the run's resolutions in
    /// it.
    pub fn into_db_b(self) -> (r: ProtoDatabase)
        ensures
            r == self.proto_db_b,
    {
        self.proto_db_b
    }

    /// Drops from both messages what is already fully resolved in the target
    /// message: the resolved target fields, and the reference fields whose
    /// text a resolved target field already carries.
    pub fn remove_resolved_fields(&self, message_a: ProtoMessage, message_b: ProtoMessage) -> (r: (
        ProtoMessage,
        ProtoMessage,
    ))
        requires
            self.wf(),
            self.proto_db_a@.msg_wf(message_a@),
            self.proto_db_b@.msg_wf(message_b@),
        ensures
            r.0.name == message_a.name,
            r.1.name == message_b.name,
            r.0.fields@ == crate::grouping::filtered_a(
                self.proto_db_a@,
                self.proto_db_b@,
                message_a.fields@,
                message_b.fields@,
            ),
            r.1.fields@ == crate::grouping::filtered_b(self.proto_db_b@, message_b.fields@),
    {
        proof {
            assert forall|i: int|
                0 <= i < message_a.fields@.len() implies self.proto_db_a@.field_wf(
                #[trigger] message_a.fields@[i],
            ) by {
                assert(message_a@.fields[i] == message_a.fields@[i]);
            }
            assert forall|i: int|
                0 <= i < message_b.fields@.len() implies self.proto_db_b@.field_wf(
                #[trigger] message_b.fields@[i],
            ) by {
                assert(message_b@.fields[i] == message_b.fields@[i]);
            }
        }
        let texts = crate::grouping::resolved_field_texts(&self.proto_db_b, &message_b.fields);
        let fa = crate::grouping::surviving_fields(&self.proto_db_a, &texts, &message_a.fields);
        let fb = crate::grouping::surviving_fields(&self.proto_db_b, &texts, &message_b.fields);
        (
            ProtoMessage { name: message_a.name, fields: fa },
            ProtoMessage { name: message_b.name, fields: fb },
        )
    }

    /// One matching pass over one message pair, named by positions in the two
    /// message stores: plans the pass against the current tables, then applies
    /// the planned commit attempts in order. Returns whether any field or
    /// type got newly resolved.
    #[verifier::loop_isolation(false)]
    pub fn static_match_at(&mut self, ai: usize, bi: usize) -> (did: bool)
        requires
            old(self).wf(),
            ai < old(self).proto_db_a@.messages.len(),
            bi < old(self).proto_db_b@.messages.len(),
        ensures
            final(self).wf(),
            final(self).proto_db_a == old(self).proto_db_a,
            final(self).proto_db_b@ == pass_post(
                old(self).proto_db_a@,
                old(self).proto_db_b@,
                old(self).proto_db_a@.messages[ai as int],
                old(self).proto_db_b@.messages[bi as int],
            ),
            did == pass_did(
                old(self).proto_db_a@,
                old(self).proto_db_b@,
                old(self).proto_db_a@.messages[ai as int],
                old(self).proto_db_b@.messages[bi as int],
            ),
            evolves(old(self).proto_db_b@, final(self).proto_db_b@),
            did ==> count_unresolved(final(self).proto_db_b@.resolved) < count_unresolved(
                old(self).proto_db_b@.resolved,
            ),
            !did ==> final(self).proto_db_b@ == old(self).proto_db_b@,
            forall|f1: ProtoField, f2: ProtoField|
                #[trigger] crate::laws::shielded_pair(
                    old(self).proto_db_a@,
                    old(self).proto_db_b@,
                    f1,
                    f2,
                ) ==> crate::laws::shielded_pair(
                    old(self).proto_db_a@,
                    final(self).proto_db_b@,
                    f1,
                    f2,
                ),
    {
        let ghost adbv = self.proto_db_a@;
        let ghost bdb0 = self.proto_db_b@;
        proof {
            assert(adbv.msg_wf(adbv.messages[ai as int]));
            assert(bdb0.msg_wf(bdb0.messages[bi as int]));
        }
        let afields = self.proto_db_a.message_at(ai).duplicate().fields;
        let bfields = self.proto_db_b.message_at(bi).duplicate().fields;
        proof {
            assert forall|i: int| 0 <= i < afields@.len() implies adbv.field_wf(
                #[trigger] afields@[i],
            ) by {
                assert(adbv.messages[ai as int].fields[i] == afields@[i]);
            }
            assert forall|i: int| 0 <= i < bfields@.len() implies bdb0.field_wf(
                #[trigger] bfields@[i],
            ) by {
                assert(bdb0.messages[bi as int].fields[i] == bfields@[i]);
            }
        }
        let plan = plan_pass(&self.proto_db_a, &self.proto_db_b, &afields, &bfields);
        proof {
            lemma_pass_plan_b_wf(adbv, bdb0, afields@, bfields@);
        }
        let mut did = false;
        let mut i: usize = 0;
        while i < plan.len()
            invariant
                0 <= i <= plan@.len(),
                self.proto_db_a == old(self).proto_db_a,
                self.proto_db_b@ == apply_plan(adbv, bdb0, plan@.take(i as int)),
                did == apply_any(adbv, bdb0, plan@.take(i as int)),
                self.proto_db_b@.wf(),
            decreases plan@.len() - i,
        {
            proof {
                assert(plan@.take(i + 1 as int).drop_last() =~= plan@.take(i as int));
                assert(plan@.take(i + 1 as int).last() == plan@[i as int]);
                lemma_apply_plan_properties(adbv, bdb0, plan@.take(i as int));
            }
            let step = plan[i];
            match step {
                ResolutionStep::Fields(a, b) => {
                    proof {
                        lemma_field_two_phase(adbv, a, self.proto_db_b@, b);
                        lemma_kind_wf_inner(self.proto_db_b@, b.field_type);
                    }
                    let ta = *a.field_type.inner_type();
                    let tb = *b.field_type.inner_type();
                    let tr = ta.try_resolve_in(&self.proto_db_a, &mut self.proto_db_b, &tb);
                    if tr.is_ok() {
                        did = true;
                    }
                    let fr = a.try_resolve_in(&self.proto_db_a, &mut self.proto_db_b, &b);
                    if fr.is_ok() {
                        did = true;
                    }
                },
                ResolutionStep::Types(ta, tb) => {
                    let tr = ta.try_resolve_in(&self.proto_db_a, &mut self.proto_db_b, &tb);
                    if tr.is_ok() {
                        did = true;
                    }
                },
            }
            i = i + 1;
        }
        proof {
            assert(plan@.take(plan@.len() as int) =~= plan@);
            lemma_apply_plan_properties(adbv, bdb0, plan@);
            assert forall|f1: ProtoField, f2: ProtoField|
                #[trigger] crate::laws::shielded_pair(adbv, bdb0, f1, f2) implies crate::laws::shielded_pair(
                adbv,
                self.proto_db_b@,
                f1,
                f2,
            ) by {
                crate::laws::lemma_primitive_multiplicity_pass(
                    adbv,
                    bdb0,
                    adbv.messages[ai as int],
                    bdb0.messages[bi as int],
                    bi as int,
                    f1,
                    f2,
                );
            }
        }
        did
    }

    /// Runs the pass for one message pair to its local fixed point: until a
    /// pass commits nothing. Returns whether anything got resolved at all.
    #[verifier::loop_isolation(false)]
    pub fn full_static_match_at(&mut self, ai: usize, bi: usize) -> (did: bool)
        requires
            old(self).wf(),
            ai < old(self).proto_db_a@.messages.len(),
            bi < old(self).proto_db_b@.messages.len(),
        ensures
            final(self).wf(),
            final(self).proto_db_a == old(self).proto_db_a,
            evolves(old(self).proto_db_b@, final(self).proto_db_b@),
            pass_post(
                old(self).proto_db_a@,
                final(self).proto_db_b@,
                old(self).proto_db_a@.messages[ai as int],
                old(self).proto_db_b@.messages[bi as int],
            ) == final(self).proto_db_b@,
            did == (final(self).proto_db_b@ != old(self).proto_db_b@),
            did ==> count_unresolved(final(self).proto_db_b@.resolved) < count_unresolved(
                old(self).proto_db_b@.resolved,
            ),
            pass_post(
                old(self).proto_db_a@,
                old(self).proto_db_b@,
                old(self).proto_db_a@.messages[ai as int],
                old(self).proto_db_b@.messages[bi as int],
            ) == old(self).proto_db_b@ ==> final(self).proto_db_b@ == old(self).proto_db_b@,
            forall|f1: ProtoField, f2: ProtoField|
                #[trigger] crate::laws::shielded_pair(
                    old(self).proto_db_a@,
                    old(self).proto_db_b@,
                    f1,
                    f2,
                ) ==> crate::laws::shielded_pair(
                    old(self).proto_db_a@,
                    final(self).proto_db_b@,
                    f1,
                    f2,
                ),
    {
        let ghost adbv = self.proto_db_a@;
        let ghost bdb0 = self.proto_db_b@;
        let ghost amsg = adbv.messages[ai as int];
        let ghost bmsg = bdb0.messages[bi as int];
        let mut did = false;
        let mut go = true;
        while go
            invariant
                self.wf(),
                self.proto_db_a == old(self).proto_db_a,
                evolves(bdb0, self.proto_db_b@),
                forall|f1: ProtoField, f2: ProtoField|
                    #[trigger] crate::laws::shielded_pair(adbv, bdb0, f1, f2)
                        ==> crate::laws::shielded_pair(adbv, self.proto_db_b@, f1, f2),
                did ==> count_unresolved(self.proto_db_b@.resolved) < count_unresolved(
                    bdb0.resolved,
                ),
                !did ==> self.proto_db_b@ == bdb0,
                pass_post(adbv, bdb0, amsg, bmsg) == bdb0 ==> (self.proto_db_b@ == bdb0 && !did),
                !go ==> pass_post(adbv, self.proto_db_b@, amsg, bmsg) == self.proto_db_b@,
            decreases count_unresolved(self.proto_db_b@.resolved), (if go {
                1int
            } else {
                0int
            }),
        {
            proof {
                assert(self.proto_db_b@.messages == bdb0.messages);
            }
            let ghost pre = self.proto_db_b@;
            let attempt = self.static_match_at(ai, bi);
            if !attempt {
                go = false;
            } else {
                did = true;
            }
            proof {
                assert forall|f1: ProtoField, f2: ProtoField|
                    #[trigger] crate::laws::shielded_pair(adbv, bdb0, f1, f2) implies crate::laws::shielded_pair(
                    adbv,
                    self.proto_db_b@,
                    f1,
                    f2,
                ) by {
                    assert(crate::laws::shielded_pair(adbv, pre, f1, f2));
                }
            }
        }
        did
    }

    /// One global sweep: for every target message in store order, runs the
    /// per-message fixed point against the like-titled reference message, if
    /// one exists. Returns whether anything got resolved.
    #[verifier::loop_isolation(false)]
    fn sweep(&mut self) -> (did: bool)
        requires
            old(self).wf(),
        ensures
            final(self).wf(),
            final(self).proto_db_a == old(self).proto_db_a,
            evolves(old(self).proto_db_b@, final(self).proto_db_b@),
            did == (final(self).proto_db_b@ != old(self).proto_db_b@),
            did ==> count_unresolved(final(self).proto_db_b@.resolved) < count_unresolved(
                old(self).proto_db_b@.resolved,
            ),
            !did ==> sweep_noop(old(self).proto_db_a@, old(self).proto_db_b@),
            sweep_noop(old(self).proto_db_a@, old(self).proto_db_b@) ==> (final(self).proto_db_b@
                == old(self).proto_db_b@ && !did),
            forall|f1: ProtoField, f2: ProtoField|
                #[trigger] crate::laws::shielded_pair(
                    old(self).proto_db_a@,
                    old(self).proto_db_b@,
                    f1,
                    f2,
                ) ==> crate::laws::shielded_pair(
                    old(self).proto_db_a@,
                    final(self).proto_db_b@,
                    f1,
                    f2,
                ),
    {
        let ghost adbv = self.proto_db_a@;
        let ghost bdb0 = self.proto_db_b@;
        let mut did = false;
        let mut bi: usize = 0;
        let count = self.proto_db_b.message_count();
        while bi < count
            invariant
                0 <= bi <= bdb0.messages.len(),
                count as int == bdb0.messages.len(),
                self.wf(),
                self.proto_db_a == old(self).proto_db_a,
                evolves(bdb0, self.proto_db_b@),
                did ==> count_unresolved(self.proto_db_b@.resolved) < count_unresolved(
                    bdb0.resolved,
                ),
                !did ==> self.proto_db_b@ == bdb0,
                !did ==> forall|bj: int, ai: int|
                    0 <= bj < bi && #[trigger] is_first_msg_titled(
                        adbv,
                        bdb0.text_of(bdb0.messages[bj].name),
                        ai,
                    ) ==> pass_post(adbv, bdb0, adbv.messages[ai], bdb0.messages[bj]) == bdb0,
                sweep_noop(adbv, bdb0) ==> (self.proto_db_b@ == bdb0 && !did),
                forall|f1: ProtoField, f2: ProtoField|
                    #[trigger] crate::laws::shielded_pair(adbv, bdb0, f1, f2)
                        ==> crate::laws::shielded_pair(adbv, self.proto_db_b@, f1, f2),
            decreases bdb0.messages.len() - bi,
        {
            let ghost pre = self.proto_db_b@;
            proof {
                assert(self.proto_db_b@.messages == bdb0.messages);
                assert(self.proto_db_b@.msg_wf(self.proto_db_b@.messages[bi as int]));
            }
            let n = self.proto_db_b.message_at(bi).name;
            let t = self.proto_db_b.text_at(n.id);
            match find_message_by_text(&self.proto_db_a, &t) {
                Some(ai) => {
                    let d = self.full_static_match_at(ai, bi);
                    if d {
                        did = true;
                    }
                    proof {
                        lemma_evolves_trans(bdb0, pre, self.proto_db_b@);
                        assert forall|f1: ProtoField, f2: ProtoField|
                            #[trigger] crate::laws::shielded_pair(adbv, bdb0, f1, f2) implies crate::laws::shielded_pair(
                            adbv,
                            self.proto_db_b@,
                            f1,
                            f2,
                        ) by {
                            assert(crate::laws::shielded_pair(adbv, pre, f1, f2));
                        }
                        if !did {
                            assert(self.proto_db_b@ == bdb0);
                            assert(pre == bdb0);
                            assert forall|bj: int, aj: int|
                                0 <= bj < bi + 1 && #[trigger] is_first_msg_titled(
                                    adbv,
                                    bdb0.text_of(bdb0.messages[bj].name),
                                    aj,
                                ) implies pass_post(adbv, bdb0, adbv.messages[aj], bdb0.messages[bj])
                                == bdb0 by {
                                if bj == bi {
                                    lemma_first_msg_titled_unique(
                                        adbv,
                                        bdb0.text_of(bdb0.messages[bj].name),
                                        aj,
                                        ai as int,
                                    );
                                }
                            }
                        }
                        if sweep_noop(adbv, bdb0) {
                            assert(pre == bdb0);
                            assert(t@ == bdb0.text_of(bdb0.messages[bi as int].name));
                            assert(is_first_msg_titled(
                                adbv,
                                bdb0.text_of(bdb0.messages[bi as int].name),
                                ai as int,
                            ));
                            assert(pass_post(adbv, bdb0, adbv.messages[ai as int], bdb0.messages[
                                bi as int]) == bdb0);
                        }
                    }
                },
                None => {
                    proof {
                        if !did {
                            assert forall|bj: int, aj: int|
                                0 <= bj < bi + 1 && #[trigger] is_first_msg_titled(
                                    adbv,
                                    bdb0.text_of(bdb0.messages[bj].name),
                                    aj,
                                ) implies pass_post(adbv, bdb0, adbv.messages[aj], bdb0.messages[bj])
                                == bdb0 by {
                                if bj == bi {
                                    assert(!is_first_msg_titled(adbv, t@, aj));
                                }
                            }
                        }
                    }
                },
            }
            bi = bi + 1;
        }
        did
    }

    /// The fixed-point driver: sweeps every target message until a full sweep
    /// commits nothing. On return the tables are globally converged: running
    /// the driver again would commit nothing and change nothing, which the
    /// last two clauses state.
    #[verifier::loop_isolation(false)]
    pub fn run(&mut self)
        requires
            old(self).wf(),
        ensures
            final(self).wf(),
            final(self).proto_db_a == old(self).proto_db_a,
            evolves(old(self).proto_db_b@, final(self).proto_db_b@),
            sweep_noop(old(self).proto_db_a@, final(self).proto_db_b@),
            sweep_noop(old(self).proto_db_a@, old(self).proto_db_b@) ==> final(self).proto_db_b@
                == old(self).proto_db_b@,
            forall|f1: ProtoField, f2: ProtoField|
                #[trigger] crate::laws::shielded_pair(
                    old(self).proto_db_a@,
                    old(self).proto_db_b@,
                    f1,
                    f2,
                ) ==> crate::laws::shielded_pair(
                    old(self).proto_db_a@,
                    final(self).proto_db_b@,
                    f1,
                    f2,
                ),
    {
        let ghost adbv = self.proto_db_a@;
        let ghost bdb0 = self.proto_db_b@;
        let mut go = true;
        while go
            invariant
                self.wf(),
                self.proto_db_a == old(self).proto_db_a,
                evolves(bdb0, self.proto_db_b@),
                sweep_noop(adbv, bdb0) ==> self.proto_db_b@ == bdb0,
                !go ==> sweep_noop(adbv, self.proto_db_b@),
                forall|f1: ProtoField, f2: ProtoField|
                    #[trigger] crate::laws::shielded_pair(adbv, bdb0, f1, f2)
                        ==> crate::laws::shielded_pair(adbv, self.proto_db_b@, f1, f2),
            decreases count_unresolved(self.proto_db_b@.resolved), (if go {
                1int
            } else {
                0int
            }),
        {
            let ghost pre = self.proto_db_b@;
            let d = self.sweep();
            if !d {
                go = false;
            }
            proof {
                lemma_evolves_trans(bdb0, pre, self.proto_db_b@);
                assert forall|f1: ProtoField, f2: ProtoField|
                    #[trigger] crate::laws::shielded_pair(adbv, bdb0, f1, f2) implies crate::laws::shielded_pair(
                    adbv,
                    self.proto_db_b@,
                    f1,
                    f2,
                ) by {
                    assert(crate::laws::shielded_pair(adbv, pre, f1, f2));
                }
            }
        }
    }

    /// One matching pass over the message pair carrying this title in both
    /// schemas; the title must name a message on each side.
    pub fn static_match(&mut self, message_name: &str) -> (did: bool)
        requires
            old(self).wf(),
            exists|i: int| is_first_msg_titled(old(self).proto_db_a@, message_name@, i),
            exists|i: int| is_first_msg_titled(old(self).proto_db_b@, message_name@, i),
        ensures
            final(self).wf(),
            final(self).proto_db_a == old(self).proto_db_a,
            evolves(old(self).proto_db_b@, final(self).proto_db_b@),
            forall|ai: int, bi: int|
                #[trigger] is_first_msg_titled(old(self).proto_db_a@, message_name@, ai)
                    && #[trigger] is_first_msg_titled(old(self).proto_db_b@, message_name@, bi)
                    ==> final(self).proto_db_b@ == pass_post(
                    old(self).proto_db_a@,
                    old(self).proto_db_b@,
                    old(self).proto_db_a@.messages[ai],
                    old(self).proto_db_b@.messages[bi],
                ) && did == pass_did(
                    old(self).proto_db_a@,
                    old(self).proto_db_b@,
                    old(self).proto_db_a@.messages[ai],
                    old(self).proto_db_b@.messages[bi],
                ),
    {
        let t = message_name.to_owned();
        let ai = match find_message_by_text(&self.proto_db_a, &t) {
            Some(ai) => ai,
            None => {
                proof {
                    assert(false);
                }
                0
            },
        };
        let bi = match find_message_by_text(&self.proto_db_b, &t) {
            Some(bi) => bi,
            None => {
                proof {
                    assert(false);
                }
                0
            },
        };
        let did = self.static_match_at(ai, bi);
        proof {
            assert forall|ax: int, bx: int|
                #[trigger] is_first_msg_titled(old(self).proto_db_a@, message_name@, ax)
                    && #[trigger] is_first_msg_titled(
                    old(self).proto_db_b@,
                    message_name@,
                    bx,
                ) implies ax == ai as int && bx == bi as int by {
                lemma_first_msg_titled_unique(old(self).proto_db_a@, message_name@, ax, ai as int);
                lemma_first_msg_titled_unique(old(self).proto_db_b@, message_name@, bx, bi as int);
            }
        }
        did
    }

    /// Runs the pass for the message pair carrying this title to its local
    /// fixed point; the title must name a message on each side.
    pub fn full_static_match(&mut self, message_name: &str) -> (did: bool)
        requires
            old(self).wf(),
            exists|i: int| is_first_msg_titled(old(self).proto_db_a@, message_name@, i),
            exists|i: int| is_first_msg_titled(old(self).proto_db_b@, message_name@, i),
        ensures
            final(self).wf(),
            final(self).proto_db_a == old(self).proto_db_a,
            evolves(old(self).proto_db_b@, final(self).proto_db_b@),
            did == (final(self).proto_db_b@ != old(self).proto_db_b@),
            forall|ai: int, bi: int|
                #[trigger] is_first_msg_titled(old(self).proto_db_a@, message_name@, ai)
                    && #[trigger] is_first_msg_titled(old(self).proto_db_b@, message_name@, bi)
                    ==> pass_post(
                    old(self).proto_db_a@,
                    final(self).proto_db_b@,
                    old(self).proto_db_a@.messages[ai],
                    old(self).proto_db_b@.messages[bi],
                ) == final(self).proto_db_b@,
    {
        let t = message_name.to_owned();
        let ai = match find_message_by_text(&self.proto_db_a, &t) {
            Some(ai) => ai,
            None => {
                proof {
                    assert(false);
                }
                0
            },
        };
        let bi = match find_message_by_text(&self.proto_db_b, &t) {
            Some(bi) => bi,
            None => {
                proof {
                    assert(false);
                }
                0
            },
        };
        let did = self.full_static_match_at(ai, bi);
        proof {
            assert forall|ax: int, bx: int|
                #[trigger] is_first_msg_titled(old(self).proto_db_a@, message_name@, ax)
                    && #[trigger] is_first_msg_titled(
                    old(self).proto_db_b@,
                    message_name@,
                    bx,
                ) implies ax == ai as int && bx == bi as int by {
                lemma_first_msg_titled_unique(old(self).proto_db_a@, message_name@, ax, ai as int);
                lemma_first_msg_titled_unique(old(self).proto_db_b@, message_name@, bx, bi as int);
            }
        }
        did
    }
}

} // verus!
