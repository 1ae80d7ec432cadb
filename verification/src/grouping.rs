//! Grouping and disambiguation: the per-message classification of fields into
//! matchable buckets by strong and weak kind, the partition of a weak bucket
//! into runs of identical strong kind, and the rules that turn a bucket into
//! commit attempts. A pass first plans its attempts from the tables as they
//! stood when the pass began, then applies them in order; in particular the
//! resolved-type tie-break reads that same snapshot, never commits made
//! earlier in the same pass.

use vstd::prelude::*;

use crate::database::{DbView, ProtoDatabase};
use crate::prototype::{weak_kind_eq, ProtoField, ProtoFieldKind, ProtoType, WeakProtoFieldKind};

verus! {

/// The texts of the fields whose names are resolved in `db`, in declaration
/// order.
pub open spec fn resolved_texts_of(db: DbView, fields: Seq<ProtoField>) -> Seq<Seq<char>>
    decreases fields.len(),
{
    if fields.len() == 0 {
        Seq::empty()
    } else {
        resolved_texts_of(db, fields.drop_last()) + if db.name_resolved(fields.last().name) {
            seq![db.text_of(fields.last().name)]
        } else {
            Seq::<Seq<char>>::empty()
        }
    }
}

/// The fields whose bound text is not among the given texts, in declaration
/// order: what is left for a pass to work on.
pub open spec fn surviving(db: DbView, texts: Seq<Seq<char>>, fields: Seq<ProtoField>) -> Seq<
    ProtoField,
>
    decreases fields.len(),
{
    if fields.len() == 0 {
        Seq::empty()
    } else {
        surviving(db, texts, fields.drop_last()) + if !texts.contains(
            db.text_of(fields.last().name),
        ) {
            seq![fields.last()]
        } else {
            Seq::<ProtoField>::empty()
        }
    }
}

/// The reference schema's fields still under consideration: those whose text
/// does not match a resolved field name of the target message.
pub open spec fn filtered_a(
    adb: DbView,
    bdb: DbView,
    afields: Seq<ProtoField>,
    bfields: Seq<ProtoField>,
) -> Seq<ProtoField> {
    surviving(adb, resolved_texts_of(bdb, bfields), afields)
}

/// The target schema's fields still under consideration: those whose text
/// does not match a resolved field name of the same message.
pub open spec fn filtered_b(bdb: DbView, bfields: Seq<ProtoField>) -> Seq<ProtoField> {
    surviving(bdb, resolved_texts_of(bdb, bfields), bfields)
}

/// The distinct strong field kinds of the fields, in order of first
/// occurrence.
pub open spec fn strong_keys(fields: Seq<ProtoField>) -> Seq<ProtoFieldKind>
    decreases fields.len(),
{
    if fields.len() == 0 {
        Seq::empty()
    } else {
        let rest = strong_keys(fields.drop_last());
        if rest.contains(fields.last().field_type) {
            rest
        } else {
            rest.push(fields.last().field_type)
        }
    }
}

/// The fields of exactly this strong kind, in declaration order.
pub open spec fn strong_group(fields: Seq<ProtoField>, k: ProtoFieldKind) -> Seq<ProtoField>
    decreases fields.len(),
{
    if fields.len() == 0 {
        Seq::empty()
    } else {
        strong_group(fields.drop_last(), k) + if fields.last().field_type == k {
            seq![fields.last()]
        } else {
            Seq::<ProtoField>::empty()
        }
    }
}

/// Whether some listed kind is weakly equal to `k`.
pub open spec fn contains_weak(keys: Seq<ProtoFieldKind>, k: ProtoFieldKind) -> bool {
    exists|i: int| 0 <= i < keys.len() && weak_kind_eq(keys[i], k)
}

/// Representatives of the distinct weak kind classes of the fields, in order
/// of first occurrence.
pub open spec fn weak_keys(fields: Seq<ProtoField>) -> Seq<ProtoFieldKind>
    decreases fields.len(),
{
    if fields.len() == 0 {
        Seq::empty()
    } else {
        let rest = weak_keys(fields.drop_last());
        if contains_weak(rest, fields.last().field_type) {
            rest
        } else {
            rest.push(fields.last().field_type)
        }
    }
}

/// The fields whose kind is weakly equal to `k`, in declaration order.
pub open spec fn weak_group(fields: Seq<ProtoField>, k: ProtoFieldKind) -> Seq<ProtoField>
    decreases fields.len(),
{
    if fields.len() == 0 {
        Seq::empty()
    } else {
        weak_group(fields.drop_last(), k) + if weak_kind_eq(fields.last().field_type, k) {
            seq![fields.last()]
        } else {
            Seq::<ProtoField>::empty()
        }
    }
}

/// The partition of the fields into maximal runs of identical strong kind,
/// preserving declaration order.
pub open spec fn runs_of(fields: Seq<ProtoField>) -> Seq<Seq<ProtoField>>
    decreases fields.len(),
{
    if fields.len() == 0 {
        Seq::empty()
    } else {
        let r = runs_of(fields.drop_last());
        let f = fields.last();
        if r.len() > 0 && r.last().len() > 0 && r.last().last().field_type == f.field_type {
            r.update(r.len() - 1, r.last().push(f))
        } else {
            r.push(seq![f])
        }
    }
}

/// The runs of exactly this length, in order.
pub open spec fn runs_with_len(runs: Seq<Seq<ProtoField>>, n: int) -> Seq<Seq<ProtoField>>
    decreases runs.len(),
{
    if runs.len() == 0 {
        Seq::empty()
    } else {
        runs_with_len(runs.drop_last(), n) + if runs.last().len() == n {
            seq![runs.last()]
        } else {
            Seq::<Seq<ProtoField>>::empty()
        }
    }
}

/// Equality of two types under the current resolution state: the target's
/// reference is already resolved, and its bound text is the text of the
/// reference schema's symbol.
pub open spec fn eq_resolved_type(adb: DbView, ta: ProtoType, bdb: DbView, tb: ProtoType) -> bool {
    match (ta, tb) {
        (ProtoType::Type(n), ProtoType::Type(m)) => {
            &&& adb.id_in_range(n.id as int)
            &&& bdb.id_in_range(m.id as int)
            &&& bdb.rsv(m.id as int)
            &&& bdb.names[m.id as int] == adb.names[n.id as int]
        },
        _ => false,
    }
}

/// Equality of two field kinds under the current resolution state, judged by
/// their inner types.
pub open spec fn eq_resolved_kind(
    adb: DbView,
    ka: ProtoFieldKind,
    bdb: DbView,
    kb: ProtoFieldKind,
) -> bool {
    eq_resolved_type(adb, ka.spec_inner_type(), bdb, kb.spec_inner_type())
}

/// The runs whose kind is equal, under the current resolution state, to the
/// target bucket's kind.
pub open spec fn runs_eq_resolved(
    adb: DbView,
    bdb: DbView,
    runs: Seq<Seq<ProtoField>>,
    kb: ProtoFieldKind,
) -> Seq<Seq<ProtoField>>
    decreases runs.len(),
{
    if runs.len() == 0 {
        Seq::empty()
    } else {
        runs_eq_resolved(adb, bdb, runs.drop_last(), kb) + if runs.last().len() > 0
            && eq_resolved_kind(adb, runs.last()[0].field_type, bdb, kb) {
            seq![runs.last()]
        } else {
            Seq::<Seq<ProtoField>>::empty()
        }
    }
}

/// One planned commit attempt: a field pair, or an inner type pair alone when
/// field identities stay ambiguous.
#[derive(Debug, Clone, Copy, PartialEq, Eq, Structural)]
pub enum ResolutionStep {
    Fields(ProtoField, ProtoField),
    Types(ProtoType, ProtoType),
}

/// The commit attempts one target bucket gives rise to, judged against the
/// tables as they stood at the start of the pass. `fa` is the reference
/// message's surviving fields, `kb` the bucket's strong kind, and `fb` the
/// bucket itself (every field of `fb` has kind `kb`). In order:
/// a bucket whose kind is new to the reference side yields nothing; a unique
/// pair (one field on each side) is committed directly; for reference kinds
/// the bucket's occurrence count is matched against the run lengths of the
/// reference side's weak bucket, and an occurrence tie is broken only by a
/// reference already resolved to the same name; primitive kinds with several
/// fields carry no structural signal and yield nothing.
pub open spec fn bucket_plan(
    adb: DbView,
    bdb: DbView,
    fa: Seq<ProtoField>,
    kb: ProtoFieldKind,
    fb: Seq<ProtoField>,
) -> Seq<ResolutionStep> {
    let wa = weak_group(fa, kb);
    if wa.len() == 0 {
        Seq::empty()
    } else if fb.len() == 1 && wa.len() == 1 {
        seq![ResolutionStep::Fields(wa[0], fb[0])]
    } else if kb.spec_is_type_ref() {
        let runs = runs_of(wa);
        let matching = runs_with_len(runs, fb.len() as int);
        if matching.len() == 1 {
            if fb.len() == 1 {
                seq![ResolutionStep::Fields(matching[0][0], fb[0])]
            } else {
                seq![
                    ResolutionStep::Types(
                        matching[0][0].field_type.spec_inner_type(),
                        fb[0].field_type.spec_inner_type(),
                    ),
                ]
            }
        } else if matching.len() == 0 {
            Seq::empty()
        } else {
            let sat = runs_eq_resolved(adb, bdb, matching, kb);
            if fb.len() == 1 && sat.len() == 1 {
                seq![ResolutionStep::Fields(sat[0][0], fb[0])]
            } else {
                Seq::empty()
            }
        }
    } else {
        Seq::empty()
    }
}

/// The commit attempts of the buckets for the given keys, in key order.
pub open spec fn buckets_plan(
    adb: DbView,
    bdb: DbView,
    fa: Seq<ProtoField>,
    fb: Seq<ProtoField>,
    keys: Seq<ProtoFieldKind>,
) -> Seq<ResolutionStep>
    decreases keys.len(),
{
    if keys.len() == 0 {
        Seq::empty()
    } else {
        buckets_plan(adb, bdb, fa, fb, keys.drop_last()) + bucket_plan(
            adb,
            bdb,
            fa,
            keys.last(),
            strong_group(fb, keys.last()),
        )
    }
}

/// Every field the filter keeps is one of the message's fields, and every
/// field whose text is not among the given texts is kept.
pub proof fn lemma_surviving_members(db: DbView, texts: Seq<Seq<char>>, fields: Seq<ProtoField>)
    ensures
        forall|x: ProtoField|
            #[trigger] surviving(db, texts, fields).contains(x) ==> fields.contains(x),
        forall|i: int|
            0 <= i < fields.len() && !texts.contains(db.text_of((#[trigger] fields[i]).name))
                ==> surviving(db, texts, fields).contains(fields[i]),
    decreases fields.len(),
{
    broadcast use vstd::seq_lib::group_seq_properties;

    if fields.len() > 0 {
        lemma_surviving_members(db, texts, fields.drop_last());
        assert(forall|x: ProtoField|
            fields.drop_last().contains(x) ==> #[trigger] fields.contains(x));
        let g = surviving(db, texts, fields);
        let gd = surviving(db, texts, fields.drop_last());
        assert forall|x: ProtoField| #[trigger] g.contains(x) implies fields.contains(x) by {
            let i = choose|i: int| 0 <= i < g.len() && g[i] == x;
            if i < gd.len() {
                assert(gd.contains(x));
                assert(surviving(db, texts, fields.drop_last()).contains(x));
            } else {
                assert(x == fields.last());
                assert(fields.contains(fields.last()));
            }
        }
        assert(forall|x: ProtoField|
            #[trigger] surviving(db, texts, fields).contains(x) ==> g.contains(x));
        assert forall|i: int|
            0 <= i < fields.len() && !texts.contains(
                db.text_of((#[trigger] fields[i]).name),
            ) implies surviving(db, texts, fields).contains(fields[i]) by {
            if i < fields.len() - 1 {
                assert(fields.drop_last()[i] == fields[i]);
                assert(surviving(db, texts, fields.drop_last()).contains(fields[i]));
            } else {
                let g = surviving(db, texts, fields);
                assert(g[g.len() - 1] == fields[i]);
            }
        }
    }
}

/// Every text the resolved-name collection holds is the text of one of the
/// fields whose name is resolved.
pub proof fn lemma_resolved_texts_members(db: DbView, fields: Seq<ProtoField>)
    ensures
        forall|t: Seq<char>|
            resolved_texts_of(db, fields).contains(t) ==> exists|i: int|
                0 <= i < fields.len() && db.name_resolved((#[trigger] fields[i]).name) && t
                    == db.text_of(fields[i].name),
    decreases fields.len(),
{
    if fields.len() > 0 {
        lemma_resolved_texts_members(db, fields.drop_last());
        let a = resolved_texts_of(db, fields.drop_last());
        assert forall|t: Seq<char>| resolved_texts_of(db, fields).contains(t) implies exists|i: int|
            0 <= i < fields.len() && db.name_resolved((#[trigger] fields[i]).name) && t
                == db.text_of(fields[i].name) by {
            let j = choose|j: int|
                0 <= j < resolved_texts_of(db, fields).len() && resolved_texts_of(db, fields)[j]
                    == t;
            if j < a.len() {
                assert(a.contains(t));
                let i = choose|i: int|
                    0 <= i < fields.drop_last().len() && db.name_resolved(
                        (#[trigger] fields.drop_last()[i]).name,
                    ) && t == db.text_of(fields.drop_last()[i].name);
                assert(fields[i] == fields.drop_last()[i]);
            } else {
                assert(t == db.text_of(fields[fields.len() - 1].name));
            }
        }
    }
}

/// The distinct strong kinds are distinct and are exactly the kinds occurring
/// among the fields.
pub proof fn lemma_strong_keys_shape(fields: Seq<ProtoField>)
    ensures
        forall|i: int, j: int|
            0 <= i < j < strong_keys(fields).len() ==> strong_keys(fields)[i] != strong_keys(
                fields,
            )[j],
        forall|k: ProtoFieldKind|
            strong_keys(fields).contains(k) == exists|i: int|
                0 <= i < fields.len() && (#[trigger] fields[i]).field_type == k,
    decreases fields.len(),
{
    broadcast use vstd::seq_lib::group_seq_properties;

    if fields.len() > 0 {
        lemma_strong_keys_shape(fields.drop_last());
        let rest = strong_keys(fields.drop_last());
        let k0 = fields.last().field_type;
        assert forall|k: ProtoFieldKind| strong_keys(fields).contains(k) implies exists|i: int|
            0 <= i < fields.len() && (#[trigger] fields[i]).field_type == k by {
            if rest.contains(k) {
                let i = choose|i: int|
                    0 <= i < fields.drop_last().len() && (#[trigger] fields.drop_last()[i])
                        .field_type == k;
                assert(fields[i].field_type == k);
            } else {
                assert(fields[fields.len() - 1].field_type == k);
            }
        }
        assert forall|k: ProtoFieldKind|
            exists|i: int|
                0 <= i < fields.len() && (#[trigger] fields[i]).field_type
                    == k implies strong_keys(fields).contains(k) by {
            let i = choose|i: int| 0 <= i < fields.len() && (#[trigger] fields[i]).field_type == k;
            if i < fields.len() - 1 {
                assert(fields.drop_last()[i].field_type == k);
                assert(rest.contains(k));
            } else {
                if !rest.contains(k0) {
                    assert(strong_keys(fields)[strong_keys(fields).len() - 1] == k0);
                }
            }
        }
    }
}

/// Every field of the strong group has the group's kind, the group holds
/// every field of that kind, and its members come from the fields.
pub proof fn lemma_strong_group_members(fields: Seq<ProtoField>, k: ProtoFieldKind)
    ensures
        forall|x: ProtoField|
            #[trigger] strong_group(fields, k).contains(x) ==> fields.contains(x) && x.field_type
                == k,
        forall|i: int|
            0 <= i < fields.len() && (#[trigger] fields[i]).field_type == k ==> strong_group(
                fields,
                k,
            ).contains(fields[i]),
    decreases fields.len(),
{
    broadcast use vstd::seq_lib::group_seq_properties;

    if fields.len() > 0 {
        lemma_strong_group_members(fields.drop_last(), k);
        assert(forall|x: ProtoField|
            fields.drop_last().contains(x) ==> #[trigger] fields.contains(x));
        let g = strong_group(fields, k);
        let gd = strong_group(fields.drop_last(), k);
        assert forall|x: ProtoField| g.contains(x) implies fields.contains(x) && x.field_type
            == k by {
            let i = choose|i: int| 0 <= i < g.len() && g[i] == x;
            if i < gd.len() {
                assert(gd.contains(x));
            } else {
                assert(x == fields.last());
                assert(fields.contains(fields.last()));
            }
        }
        assert forall|i: int|
            0 <= i < fields.len() && (#[trigger] fields[i]).field_type
                == k implies strong_group(fields, k).contains(fields[i]) by {
            if i < fields.len() - 1 {
                assert(fields.drop_last()[i] == fields[i]);
                assert(strong_group(fields.drop_last(), k).contains(fields[i]));
            } else {
                assert(strong_group(fields, k)[strong_group(fields, k).len() - 1] == fields[i]);
            }
        }
    }
}

/// One member of a strong group, pinned down: it is one of the fields and has
/// the group's kind.
pub proof fn lemma_strong_group_member_one(
    fields: Seq<ProtoField>,
    k: ProtoFieldKind,
    x: ProtoField,
)
    requires
        strong_group(fields, k).contains(x),
    ensures
        fields.contains(x),
        x.field_type == k,
{
    lemma_strong_group_members(fields, k);
}

/// A strong group is nonempty exactly when its kind occurs among the fields.
pub proof fn lemma_strong_group_nonempty(fields: Seq<ProtoField>, k: ProtoFieldKind)
    ensures
        (strong_group(fields, k).len() > 0) == exists|i: int|
            0 <= i < fields.len() && (#[trigger] fields[i]).field_type == k,
    decreases fields.len(),
{
    if fields.len() > 0 {
        lemma_strong_group_nonempty(fields.drop_last(), k);
        if strong_group(fields, k).len() > 0 {
            if strong_group(fields.drop_last(), k).len() > 0 {
                let i = choose|i: int|
                    0 <= i < fields.drop_last().len() && (#[trigger] fields.drop_last()[i])
                        .field_type == k;
                assert(fields[i].field_type == k);
            }
        }
        if exists|i: int| 0 <= i < fields.len() && (#[trigger] fields[i]).field_type == k {
            let i = choose|i: int|
                0 <= i < fields.len() && (#[trigger] fields[i]).field_type == k;
            if i < fields.len() - 1 {
                assert(fields.drop_last()[i].field_type == k);
            }
        }
    }
}

/// The weak class representatives are pairwise weakly distinct and cover
/// exactly the classes occurring among the fields.
pub proof fn lemma_weak_keys_shape(fields: Seq<ProtoField>)
    ensures
        forall|i: int, j: int|
            0 <= i < j < weak_keys(fields).len() ==> !weak_kind_eq(
                weak_keys(fields)[i],
                weak_keys(fields)[j],
            ),
        forall|k: ProtoFieldKind|
            contains_weak(weak_keys(fields), k) == exists|i: int|
                0 <= i < fields.len() && weak_kind_eq((#[trigger] fields[i]).field_type, k),
    decreases fields.len(),
{
    if fields.len() > 0 {
        lemma_weak_keys_shape(fields.drop_last());
        let rest = weak_keys(fields.drop_last());
        let k0 = fields.last().field_type;
        assert forall|k: ProtoFieldKind| contains_weak(weak_keys(fields), k) implies exists|i: int|
            0 <= i < fields.len() && weak_kind_eq((#[trigger] fields[i]).field_type, k) by {
            let j = choose|j: int|
                0 <= j < weak_keys(fields).len() && weak_kind_eq(weak_keys(fields)[j], k);
            if j < rest.len() {
                assert(contains_weak(rest, k));
                let i = choose|i: int|
                    0 <= i < fields.drop_last().len() && weak_kind_eq(
                        (#[trigger] fields.drop_last()[i]).field_type,
                        k,
                    );
                assert(weak_kind_eq(fields[i].field_type, k));
            } else {
                assert(weak_kind_eq(fields[fields.len() - 1].field_type, k));
            }
        }
        assert forall|k: ProtoFieldKind|
            exists|i: int|
                0 <= i < fields.len() && weak_kind_eq(
                    (#[trigger] fields[i]).field_type,
                    k,
                ) implies contains_weak(weak_keys(fields), k) by {
            let i = choose|i: int|
                0 <= i < fields.len() && weak_kind_eq((#[trigger] fields[i]).field_type, k);
            if i < fields.len() - 1 {
                assert(weak_kind_eq(fields.drop_last()[i].field_type, k));
                assert(contains_weak(rest, k));
                let j = choose|j: int| 0 <= j < rest.len() && weak_kind_eq(rest[j], k);
                assert(weak_keys(fields)[j] == rest[j]);
            } else {
                if contains_weak(rest, k0) {
                    let j = choose|j: int| 0 <= j < rest.len() && weak_kind_eq(rest[j], k0);
                    crate::prototype::lemma_weak_kind_eq_equivalence(rest[j], k0, k);
                    assert(weak_kind_eq(weak_keys(fields)[j], k));
                } else {
                    let j = weak_keys(fields).len() - 1;
                    assert(weak_keys(fields)[j] == k0);
                }
            }
        }
        assert forall|i: int, j: int|
            0 <= i < j < weak_keys(fields).len() implies !weak_kind_eq(
            weak_keys(fields)[i],
            weak_keys(fields)[j],
        ) by {
            if j < rest.len() {
            } else if !contains_weak(rest, k0) {
                assert(weak_keys(fields)[j] == k0);
                if weak_kind_eq(weak_keys(fields)[i], k0) {
                    crate::prototype::lemma_weak_kind_eq_equivalence(rest[i], k0, k0);
                    assert(contains_weak(rest, k0));
                }
            }
        }
    }
}

/// Two weakly equal kinds carve out the same weak group.
pub proof fn lemma_weak_group_congruence(
    fields: Seq<ProtoField>,
    k1: ProtoFieldKind,
    k2: ProtoFieldKind,
)
    requires
        weak_kind_eq(k1, k2),
    ensures
        weak_group(fields, k1) == weak_group(fields, k2),
    decreases fields.len(),
{
    if fields.len() > 0 {
        lemma_weak_group_congruence(fields.drop_last(), k1, k2);
        let f = fields.last().field_type;
        crate::prototype::lemma_weak_kind_eq_equivalence(f, k1, k2);
        crate::prototype::lemma_weak_kind_eq_equivalence(k1, k2, f);
        crate::prototype::lemma_weak_kind_eq_equivalence(f, k2, k1);
        crate::prototype::lemma_weak_kind_eq_equivalence(k2, k1, f);
        assert(weak_kind_eq(f, k1) == weak_kind_eq(f, k2)) by {
            if weak_kind_eq(f, k1) {
                crate::prototype::lemma_weak_kind_eq_equivalence(f, k1, k2);
            }
            if weak_kind_eq(f, k2) {
                crate::prototype::lemma_weak_kind_eq_equivalence(k1, k2, f);
                crate::prototype::lemma_weak_kind_eq_equivalence(f, k2, k1);
            }
        }
    }
}

/// Every member of a weak group is one of the fields and weakly matches the
/// group's kind; and every weakly matching field is a member.
pub proof fn lemma_weak_group_members(fields: Seq<ProtoField>, k: ProtoFieldKind)
    ensures
        forall|x: ProtoField|
            #[trigger] weak_group(fields, k).contains(x) ==> fields.contains(x) && weak_kind_eq(
                x.field_type,
                k,
            ),
        forall|i: int|
            0 <= i < fields.len() && weak_kind_eq((#[trigger] fields[i]).field_type, k)
                ==> weak_group(fields, k).contains(fields[i]),
        (weak_group(fields, k).len() > 0) == exists|i: int|
            0 <= i < fields.len() && weak_kind_eq((#[trigger] fields[i]).field_type, k),
    decreases fields.len(),
{
    broadcast use vstd::seq_lib::group_seq_properties;

    if fields.len() > 0 {
        lemma_weak_group_members(fields.drop_last(), k);
        assert(forall|x: ProtoField|
            fields.drop_last().contains(x) ==> #[trigger] fields.contains(x));
        let g = weak_group(fields, k);
        let gd = weak_group(fields.drop_last(), k);
        assert forall|x: ProtoField| g.contains(x) implies fields.contains(x) && weak_kind_eq(
            x.field_type,
            k,
        ) by {
            let i = choose|i: int| 0 <= i < g.len() && g[i] == x;
            if i < gd.len() {
                assert(gd.contains(x));
            } else {
                assert(x == fields.last());
                assert(fields.contains(fields.last()));
            }
        }
        assert forall|i: int|
            0 <= i < fields.len() && weak_kind_eq(
                (#[trigger] fields[i]).field_type,
                k,
            ) implies weak_group(fields, k).contains(fields[i]) by {
            if i < fields.len() - 1 {
                assert(fields.drop_last()[i] == fields[i]);
            } else {
                assert(weak_group(fields, k)[weak_group(fields, k).len() - 1] == fields[i]);
            }
        }
        if weak_group(fields, k).len() > 0 {
            if weak_group(fields.drop_last(), k).len() > 0 {
                let i = choose|i: int|
                    0 <= i < fields.drop_last().len() && weak_kind_eq(
                        (#[trigger] fields.drop_last()[i]).field_type,
                        k,
                    );
                assert(weak_kind_eq(fields[i].field_type, k));
            } else {
                assert(weak_kind_eq(fields[fields.len() - 1].field_type, k));
            }
        }
    }
}

/// Every run is nonempty, no longer than the bucket, uniform in kind, and
/// made of the bucket's fields.
pub proof fn lemma_runs_shape(fields: Seq<ProtoField>)
    ensures
        forall|i: int|
            0 <= i < runs_of(fields).len() ==> {
                let r = #[trigger] runs_of(fields)[i];
                &&& r.len() > 0
                &&& r.len() <= fields.len()
                &&& forall|j: int| 0 <= j < r.len() ==> (#[trigger] r[j]).field_type == r[0].field_type
                &&& forall|j: int| 0 <= j < r.len() ==> fields.contains(#[trigger] r[j])
            },
    decreases fields.len(),
{
    broadcast use vstd::seq_lib::group_seq_properties;

    if fields.len() > 0 {
        lemma_runs_shape(fields.drop_last());
        assert(forall|x: ProtoField|
            fields.drop_last().contains(x) ==> #[trigger] fields.contains(x));
        assert(fields.contains(fields.last()));
    }
}

/// The full plan of one per-message pass: filter out what is already
/// resolved, bucket the target's remaining fields by strong kind, and plan
/// each bucket in first-occurrence order.
pub open spec fn pass_plan(
    adb: DbView,
    bdb: DbView,
    afields: Seq<ProtoField>,
    bfields: Seq<ProtoField>,
) -> Seq<ResolutionStep> {
    let fa = filtered_a(adb, bdb, afields, bfields);
    let fb = filtered_b(bdb, bfields);
    buckets_plan(adb, bdb, fa, fb, strong_keys(fb))
}

/// Whether one of the texts is `t`.
#[verifier::loop_isolation(false)]
fn contains_text(texts: &Vec<String>, t: &String) -> (r: bool)
    ensures
        r == texts.deep_view().contains(t@),
{
    let mut i: usize = 0;
    while i < texts.len()
        invariant
            0 <= i <= texts@.len(),
            forall|j: int| 0 <= j < i ==> texts.deep_view()[j] != t@,
        decreases texts@.len() - i,
    {
        if texts[i] == *t {
            proof {
                assert(texts.deep_view()[i as int] == t@);
            }
            return true;
        }
        i = i + 1;
    }
    proof {
        assert(forall|j: int| 0 <= j < texts.deep_view().len() ==> texts.deep_view()[j] != t@);
    }
    false
}

/// The texts of the resolved field names, in declaration order.
#[verifier::loop_isolation(false)]
pub(crate) fn resolved_field_texts(db: &ProtoDatabase, fields: &Vec<ProtoField>) -> (r: Vec<String>)
    requires
        db@.wf(),
        forall|i: int| 0 <= i < fields@.len() ==> db@.field_wf(#[trigger] fields@[i]),
    ensures
        r.deep_view() == resolved_texts_of(db@, fields@),
{
    let mut r: Vec<String> = Vec::new();
    let mut i: usize = 0;
    while i < fields.len()
        invariant
            0 <= i <= fields@.len(),
            r.deep_view() == resolved_texts_of(db@, fields@.take(i as int)),
        decreases fields@.len() - i,
    {
        let ghost prev = r.deep_view();
        let f = fields[i];
        if db.is_resolved(&f.name) {
            let text = db.text_at(f.name.id);
            r.push(text);
            proof {
                assert(r.deep_view() =~= prev.push(db@.text_of(f.name)));
            }
        }
        proof {
            assert(fields@.take(i + 1 as int).drop_last() =~= fields@.take(i as int));
            assert(fields@.take(i + 1 as int).last() == fields@[i as int]);
            assert(r.deep_view() =~= resolved_texts_of(db@, fields@.take(i + 1 as int)));
        }
        i = i + 1;
    }
    proof {
        assert(fields@.take(fields@.len() as int) =~= fields@);
    }
    r
}

/// The fields whose bound text is not among the given texts.
#[verifier::loop_isolation(false)]
pub(crate) fn surviving_fields(db: &ProtoDatabase, texts: &Vec<String>, fields: &Vec<ProtoField>) -> (r: Vec<
    ProtoField,
>)
    requires
        db@.wf(),
        forall|i: int| 0 <= i < fields@.len() ==> db@.field_wf(#[trigger] fields@[i]),
    ensures
        r@ == surviving(db@, texts.deep_view(), fields@),
{
    let mut r: Vec<ProtoField> = Vec::new();
    let mut i: usize = 0;
    while i < fields.len()
        invariant
            0 <= i <= fields@.len(),
            r@ == surviving(db@, texts.deep_view(), fields@.take(i as int)),
        decreases fields@.len() - i,
    {
        let f = fields[i];
        let text = db.text_at(f.name.id);
        if !contains_text(texts, &text) {
            r.push(f);
        }
        proof {
            assert(fields@.take(i + 1 as int).drop_last() =~= fields@.take(i as int));
            assert(fields@.take(i + 1 as int).last() == fields@[i as int]);
            assert(r@ =~= surviving(db@, texts.deep_view(), fields@.take(i + 1 as int)));
        }
        i = i + 1;
    }
    proof {
        assert(fields@.take(fields@.len() as int) =~= fields@);
    }
    r
}

/// One strong bucket: the fields of one strong kind, in declaration order.
pub struct FieldGroup {
    pub kind: ProtoFieldKind,
    pub fields: Vec<ProtoField>,
}

/// One weak bucket: the fields of one weak kind class, in declaration order.
pub struct WeakFieldGroup {
    pub kind: WeakProtoFieldKind,
    pub fields: Vec<ProtoField>,
}

/// Buckets the fields by their strong kind, buckets in order of the kind's
/// first occurrence, fields within a bucket in declaration order.
#[verifier::loop_isolation(false)]
pub fn group_fields_by_type(fields: &Vec<ProtoField>) -> (r: Vec<FieldGroup>)
    ensures
        r@.len() == strong_keys(fields@).len(),
        forall|i: int|
            0 <= i < r@.len() ==> (#[trigger] r@[i]).kind == strong_keys(fields@)[i] && r@[i]
                .fields@ == strong_group(fields@, strong_keys(fields@)[i]),
{
    let mut r: Vec<FieldGroup> = Vec::new();
    let mut i: usize = 0;
    while i < fields.len()
        invariant
            0 <= i <= fields@.len(),
            r@.len() == strong_keys(fields@.take(i as int)).len(),
            forall|j: int|
                0 <= j < r@.len() ==> (#[trigger] r@[j]).kind == strong_keys(
                    fields@.take(i as int),
                )[j] && r@[j].fields@ == strong_group(
                    fields@.take(i as int),
                    strong_keys(fields@.take(i as int))[j],
                ),
        decreases fields@.len() - i,
    {
        let ghost pre = fields@.take(i as int);
        let f = fields[i];
        proof {
            assert(fields@.take(i + 1 as int).drop_last() =~= pre);
            assert(fields@.take(i + 1 as int).last() == fields@[i as int]);
            lemma_strong_keys_shape(pre);
        }
        let mut j: usize = 0;
        let mut found = false;
        while j < r.len()
            invariant
                0 <= j <= r@.len(),
                !found ==> forall|l: int| 0 <= l < j ==> (#[trigger] r@[l]).kind != f.field_type,
                found ==> j < r@.len() && r@[j as int].kind == f.field_type,
            decreases r@.len() - j,
        {
            if r[j].kind == f.field_type {
                found = true;
                break ;
            }
            j = j + 1;
        }
        if found {
            proof {
                assert(strong_keys(pre).contains(f.field_type)) by {
                    assert(strong_keys(pre)[j as int] == f.field_type);
                }
            }
            let ghost rpre = r@;
            r[j].fields.push(f);
            proof {
                assert forall|l: int|
                    0 <= l < r@.len() implies (#[trigger] r@[l]).kind == strong_keys(
                    fields@.take(i + 1 as int),
                )[l] && r@[l].fields@ == strong_group(
                    fields@.take(i + 1 as int),
                    strong_keys(fields@.take(i + 1 as int))[l],
                ) by {
                    assert(strong_keys(fields@.take(i + 1 as int)) == strong_keys(pre));
                    if l != j {
                        assert(r@[l] == rpre[l]);
                        assert(strong_keys(pre)[l] != f.field_type);
                        assert(strong_group(fields@.take(i + 1 as int), strong_keys(pre)[l])
                            =~= strong_group(pre, strong_keys(pre)[l]));
                    } else {
                        assert(strong_group(fields@.take(i + 1 as int), f.field_type)
                            =~= strong_group(pre, f.field_type).push(f));
                        assert(r@[l].fields@ =~= rpre[l].fields@.push(f));
                    }
                }
            }
        } else {
            proof {
                assert(!strong_keys(pre).contains(f.field_type)) by {
                    if strong_keys(pre).contains(f.field_type) {
                        let l = choose|l: int|
                            0 <= l < strong_keys(pre).len() && strong_keys(pre)[l] == f.field_type;
                        assert(r@[l].kind == f.field_type);
                    }
                }
            }
            let mut fv: Vec<ProtoField> = Vec::new();
            fv.push(f);
            let ghost rpre = r@;
            r.push(FieldGroup { kind: f.field_type, fields: fv });
            proof {
                let post = fields@.take(i + 1 as int);
                assert(strong_keys(post) == strong_keys(pre).push(f.field_type));
                assert forall|l: int|
                    0 <= l < r@.len() implies (#[trigger] r@[l]).kind == strong_keys(post)[l] && r@[
                    l].fields@ == strong_group(post, strong_keys(post)[l]) by {
                    if l < rpre.len() {
                        assert(r@[l] == rpre[l]);
                        assert(strong_keys(post)[l] == strong_keys(pre)[l]);
                        assert(strong_keys(pre)[l] != f.field_type) by {
                            assert(strong_keys(pre).contains(strong_keys(pre)[l]));
                        }
                        assert(strong_group(post, strong_keys(pre)[l]) =~= strong_group(
                            pre,
                            strong_keys(pre)[l],
                        ));
                    } else {
                        assert(r@[l].kind == f.field_type);
                        assert(strong_group(post, f.field_type) =~= strong_group(
                            pre,
                            f.field_type,
                        ).push(f));
                        assert(strong_group(pre, f.field_type) =~= Seq::<ProtoField>::empty()) by {
                            lemma_strong_group_nonempty(pre, f.field_type);
                            lemma_strong_keys_shape(pre);
                        }
                    }
                }
            }
        }
        i = i + 1;
    }
    proof {
        assert(fields@.take(fields@.len() as int) =~= fields@);
    }
    r
}

/// Buckets the fields by their weak kind class, buckets in order of the
/// class's first occurrence, fields within a bucket in declaration order.
#[verifier::loop_isolation(false)]
pub fn group_fields_by_weak_type(fields: &Vec<ProtoField>) -> (r: Vec<WeakFieldGroup>)
    ensures
        r@.len() == weak_keys(fields@).len(),
        forall|i: int|
            0 <= i < r@.len() ==> (#[trigger] r@[i]).kind.spec_into_inner() == weak_keys(fields@)[i]
                && r@[i].fields@ == weak_group(fields@, weak_keys(fields@)[i]),
{
    let mut r: Vec<WeakFieldGroup> = Vec::new();
    let mut i: usize = 0;
    while i < fields.len()
        invariant
            0 <= i <= fields@.len(),
            r@.len() == weak_keys(fields@.take(i as int)).len(),
            forall|j: int|
                0 <= j < r@.len() ==> (#[trigger] r@[j]).kind.spec_into_inner() == weak_keys(
                    fields@.take(i as int),
                )[j] && r@[j].fields@ == weak_group(
                    fields@.take(i as int),
                    weak_keys(fields@.take(i as int))[j],
                ),
        decreases fields@.len() - i,
    {
        let ghost pre = fields@.take(i as int);
        let ghost keys = weak_keys(pre);
        let f = fields[i];
        let fw = WeakProtoFieldKind::from(f.field_type);
        proof {
            assert(fields@.take(i + 1 as int).drop_last() =~= pre);
            assert(fields@.take(i + 1 as int).last() == fields@[i as int]);
            assert(fw.spec_into_inner() == f.field_type);
            lemma_weak_keys_shape(pre);
        }
        let mut j: usize = 0;
        let mut found = false;
        while j < r.len()
            invariant
                0 <= j <= r@.len(),
                !found ==> forall|l: int|
                    0 <= l < j ==> !weak_kind_eq((#[trigger] r@[l]).kind.spec_into_inner(), f.field_type),
                found ==> j < r@.len() && weak_kind_eq(
                    r@[j as int].kind.spec_into_inner(),
                    f.field_type,
                ),
            decreases r@.len() - j,
        {
            if r[j].kind == fw {
                found = true;
                break ;
            }
            j = j + 1;
        }
        if found {
            proof {
                assert(contains_weak(keys, f.field_type)) by {
                    assert(weak_kind_eq(keys[j as int], f.field_type));
                }
            }
            let ghost rpre = r@;
            r[j].fields.push(f);
            proof {
                assert forall|l: int|
                    0 <= l < r@.len() implies (#[trigger] r@[l]).kind.spec_into_inner() == weak_keys(
                    fields@.take(i + 1 as int),
                )[l] && r@[l].fields@ == weak_group(
                    fields@.take(i + 1 as int),
                    weak_keys(fields@.take(i + 1 as int))[l],
                ) by {
                    assert(weak_keys(fields@.take(i + 1 as int)) == keys);
                    crate::prototype::lemma_weak_kind_eq_equivalence(
                        keys[l],
                        f.field_type,
                        f.field_type,
                    );
                    if l != j {
                        assert(r@[l] == rpre[l]);
                        assert(!weak_kind_eq(keys[l], f.field_type)) by {
                            if weak_kind_eq(keys[l], f.field_type) {
                                crate::prototype::lemma_weak_kind_eq_equivalence(
                                    keys[j as int],
                                    f.field_type,
                                    keys[l],
                                );
                                crate::prototype::lemma_weak_kind_eq_equivalence(
                                    keys[l],
                                    f.field_type,
                                    keys[j as int],
                                );
                                crate::prototype::lemma_weak_kind_eq_equivalence(
                                    keys[j as int],
                                    keys[l],
                                    keys[l],
                                );
                                if l < j {
                                    assert(!weak_kind_eq(keys[l], keys[j as int]));
                                } else {
                                    assert(!weak_kind_eq(keys[j as int], keys[l]));
                                }
                            }
                        }
                        assert(weak_group(fields@.take(i + 1 as int), keys[l]) =~= weak_group(
                            pre,
                            keys[l],
                        ));
                    } else {
                        assert(weak_group(fields@.take(i + 1 as int), keys[l]) =~= weak_group(
                            pre,
                            keys[l],
                        ).push(f)) by {
                            crate::prototype::lemma_weak_kind_eq_equivalence(
                                f.field_type,
                                keys[l],
                                f.field_type,
                            );
                            crate::prototype::lemma_weak_kind_eq_equivalence(
                                keys[l],
                                f.field_type,
                                keys[l],
                            );
                        }
                        assert(r@[l].fields@ =~= rpre[l].fields@.push(f));
                    }
                }
            }
        } else {
            proof {
                assert(!contains_weak(keys, f.field_type)) by {
                    if contains_weak(keys, f.field_type) {
                        let l = choose|l: int|
                            0 <= l < keys.len() && weak_kind_eq(keys[l], f.field_type);
                        assert(weak_kind_eq(r@[l].kind.spec_into_inner(), f.field_type));
                    }
                }
            }
            let mut fv: Vec<ProtoField> = Vec::new();
            fv.push(f);
            let ghost rpre = r@;
            r.push(WeakFieldGroup { kind: fw, fields: fv });
            proof {
                let post = fields@.take(i + 1 as int);
                assert(weak_keys(post) == keys.push(f.field_type));
                assert forall|l: int|
                    0 <= l < r@.len() implies (#[trigger] r@[l]).kind.spec_into_inner()
                    == weak_keys(post)[l] && r@[l].fields@ == weak_group(
                    post,
                    weak_keys(post)[l],
                ) by {
                    if l < rpre.len() {
                        assert(r@[l] == rpre[l]);
                        assert(weak_keys(post)[l] == keys[l]);
                        assert(!weak_kind_eq(f.field_type, keys[l])) by {
                            if weak_kind_eq(f.field_type, keys[l]) {
                                crate::prototype::lemma_weak_kind_eq_equivalence(
                                    keys[l],
                                    f.field_type,
                                    keys[l],
                                );
                                assert(contains_weak(keys, f.field_type));
                            }
                        }
                        assert(weak_group(post, keys[l]) =~= weak_group(pre, keys[l]));
                    } else {
                        assert(r@[l].kind.spec_into_inner() == f.field_type);
                        crate::prototype::lemma_weak_kind_eq_equivalence(
                            f.field_type,
                            f.field_type,
                            f.field_type,
                        );
                        assert(weak_group(post, f.field_type) =~= weak_group(
                            pre,
                            f.field_type,
                        ).push(f));
                        assert(weak_group(pre, f.field_type) =~= Seq::<ProtoField>::empty()) by {
                            lemma_weak_group_members(pre, f.field_type);
                        }
                    }
                }
            }
        }
        i = i + 1;
    }
    proof {
        assert(fields@.take(fields@.len() as int) =~= fields@);
    }
    r
}


/// A run of the reference side's weak bucket, summarized by its first field
/// and its length; the run is uniform in kind, so the first field carries the
/// run's kind.
#[derive(Debug, Clone, Copy)]
pub struct RunSummary {
    pub first: ProtoField,
    pub len: usize,
}

/// Every run selected by length has that length.
pub proof fn lemma_runs_with_len_lens(runs: Seq<Seq<ProtoField>>, n: int)
    ensures
        forall|i: int|
            0 <= i < runs_with_len(runs, n).len() ==> (#[trigger] runs_with_len(runs, n)[i]).len()
                == n,
    decreases runs.len(),
{
    if runs.len() > 0 {
        lemma_runs_with_len_lens(runs.drop_last(), n);
        let a = runs_with_len(runs.drop_last(), n);
        assert forall|i: int| 0 <= i < runs_with_len(runs, n).len() implies (
        #[trigger] runs_with_len(runs, n)[i]).len() == n by {
            if i < a.len() {
                assert(runs_with_len(runs, n)[i] == a[i]);
            }
        }
    }
}

/// Every run selected by length is one of the runs.
pub proof fn lemma_runs_with_len_members(runs: Seq<Seq<ProtoField>>, n: int)
    ensures
        forall|i: int|
            0 <= i < runs_with_len(runs, n).len() ==> exists|j: int|
                0 <= j < runs.len() && #[trigger] runs_with_len(runs, n)[i] == runs[j],
    decreases runs.len(),
{
    broadcast use vstd::seq_lib::group_seq_properties;

    if runs.len() > 0 {
        lemma_runs_with_len_members(runs.drop_last(), n);
        let a = runs_with_len(runs.drop_last(), n);
        assert forall|i: int| 0 <= i < runs_with_len(runs, n).len() implies exists|j: int|
            0 <= j < runs.len() && #[trigger] runs_with_len(runs, n)[i] == runs[j] by {
            if i < a.len() {
                assert(runs_with_len(runs, n)[i] == a[i]);
                let j = choose|j: int| 0 <= j < runs.drop_last().len() && a[i] == runs.drop_last()[j];
                assert(runs_with_len(runs, n)[i] == runs[j]);
            } else {
                assert(runs_with_len(runs, n)[i] == runs[runs.len() - 1]);
            }
        }
    }
}

/// The summaries describe the runs, one to one.
pub open spec fn summarizes(rs: Seq<RunSummary>, runs: Seq<Seq<ProtoField>>) -> bool {
    &&& rs.len() == runs.len()
    &&& forall|i: int|
        0 <= i < rs.len() ==> {
            &&& runs[i].len() > 0
            &&& (#[trigger] rs[i]).first == runs[i][0]
            &&& rs[i].len as int == runs[i].len()
        }
}

/// Summarizes the partition of the fields into maximal runs of identical
/// strong kind.
#[verifier::loop_isolation(false)]
fn compute_runs(wa: &Vec<ProtoField>) -> (rs: Vec<RunSummary>)
    ensures
        summarizes(rs@, runs_of(wa@)),
{
    let mut rs: Vec<RunSummary> = Vec::new();
    let mut i: usize = 0;
    while i < wa.len()
        invariant
            0 <= i <= wa@.len(),
            summarizes(rs@, runs_of(wa@.take(i as int))),
        decreases wa@.len() - i,
    {
        let ghost pre = wa@.take(i as int);
        let f = wa[i];
        proof {
            assert(wa@.take(i + 1 as int).drop_last() =~= pre);
            assert(wa@.take(i + 1 as int).last() == wa@[i as int]);
            lemma_runs_shape(pre);
        }
        let ghost rpre = rs@;
        if rs.len() > 0 {
            let last = rs.len() - 1;
            let prevlen = rs[last].len;
            if rs[last].first.field_type == f.field_type {
                proof {
                    let runs = runs_of(pre);
                    assert(runs.last().last().field_type == runs.last()[0].field_type);
                    assert(prevlen < i + 1);
                }
                rs[last] = RunSummary { first: rs[last].first, len: prevlen + 1 };
                proof {
                    let post = runs_of(wa@.take(i + 1 as int));
                    assert(post == runs_of(pre).update(
                        runs_of(pre).len() - 1,
                        runs_of(pre).last().push(f),
                    ));
                    assert(summarizes(rs@, post));
                }
            } else {
                proof {
                    let runs = runs_of(pre);
                    assert(runs.last().last().field_type == runs.last()[0].field_type);
                }
                rs.push(RunSummary { first: f, len: 1 });
                proof {
                    let post = runs_of(wa@.take(i + 1 as int));
                    assert(post == runs_of(pre).push(seq![f]));
                    assert(summarizes(rs@, post));
                }
            }
        } else {
            rs.push(RunSummary { first: f, len: 1 });
            proof {
                let post = runs_of(wa@.take(i + 1 as int));
                assert(post == runs_of(pre).push(seq![f]));
                assert(summarizes(rs@, post));
            }
        }
        i = i + 1;
    }
    proof {
        assert(wa@.take(wa@.len() as int) =~= wa@);
    }
    rs
}

/// The summaries of the runs of exactly the given length.
#[verifier::loop_isolation(false)]
fn filter_runs_by_len(
    rs: &Vec<RunSummary>,
    Ghost(runs): Ghost<Seq<Seq<ProtoField>>>,
    n: usize,
) -> (m: Vec<RunSummary>)
    requires
        summarizes(rs@, runs),
    ensures
        summarizes(m@, runs_with_len(runs, n as int)),
{
    let mut m: Vec<RunSummary> = Vec::new();
    let mut i: usize = 0;
    while i < rs.len()
        invariant
            0 <= i <= rs@.len(),
            summarizes(m@, runs_with_len(runs.take(i as int), n as int)),
        decreases rs@.len() - i,
    {
        proof {
            assert(runs.take(i + 1 as int).drop_last() =~= runs.take(i as int));
            assert(runs.take(i + 1 as int).last() == runs[i as int]);
        }
        if rs[i].len == n {
            m.push(rs[i]);
        }
        proof {
            assert(summarizes(m@, runs_with_len(runs.take(i + 1 as int), n as int)));
        }
        i = i + 1;
    }
    proof {
        assert(runs.take(runs.len() as int) =~= runs);
    }
    m
}

impl ProtoFieldKind {
    /// Whether this kind of the reference schema and the other kind of the
    /// target schema are equal under the current resolution state: both inner
    /// types are references, and the target reference is already resolved to
    /// the text of this kind's reference.
    pub fn eq_resolved_type(
        &self,
        self_db: &ProtoDatabase,
        other: &ProtoFieldKind,
        other_db: &ProtoDatabase,
    ) -> (r: bool)
        ensures
            r == eq_resolved_kind(self_db@, *self, other_db@, *other),
    {
        let ta = *self.inner_type();
        let tb = *other.inner_type();
        match (ta, tb) {
            (ProtoType::Type(n), ProtoType::Type(m)) => {
                if n.id >= self_db.name_count() {
                    return false;
                }
                if m.id >= other_db.name_count() {
                    return false;
                }
                if !other_db.is_resolved(&m) {
                    return false;
                }
                let sa = self_db.text_at(n.id);
                let sb = other_db.text_at(m.id);
                sb == sa
            },
            _ => false,
        }
    }
}

/// The summaries of the runs that are equal, under the current resolution
/// state, to the target bucket's kind.
#[verifier::loop_isolation(false)]
fn filter_runs_eq_resolved(
    adb: &ProtoDatabase,
    bdb: &ProtoDatabase,
    rs: &Vec<RunSummary>,
    Ghost(runs): Ghost<Seq<Seq<ProtoField>>>,
    kb: ProtoFieldKind,
) -> (m: Vec<RunSummary>)
    requires
        summarizes(rs@, runs),
    ensures
        summarizes(m@, runs_eq_resolved(adb@, bdb@, runs, kb)),
{
    let mut m: Vec<RunSummary> = Vec::new();
    let mut i: usize = 0;
    while i < rs.len()
        invariant
            0 <= i <= rs@.len(),
            summarizes(m@, runs_eq_resolved(adb@, bdb@, runs.take(i as int), kb)),
        decreases rs@.len() - i,
    {
        proof {
            assert(runs.take(i + 1 as int).drop_last() =~= runs.take(i as int));
            assert(runs.take(i + 1 as int).last() == runs[i as int]);
        }
        let first = rs[i].first;
        if first.field_type.eq_resolved_type(adb, &kb, bdb) {
            m.push(rs[i]);
        }
        proof {
            assert(summarizes(m@, runs_eq_resolved(adb@, bdb@, runs.take(i + 1 as int), kb)));
        }
        i = i + 1;
    }
    proof {
        assert(runs.take(runs.len() as int) =~= runs);
    }
    m
}

/// The weak buckets describe the fields `fa`, one bucket per weak class.
pub open spec fn weak_groups_match(groups: Seq<WeakFieldGroup>, fa: Seq<ProtoField>) -> bool {
    &&& groups.len() == weak_keys(fa).len()
    &&& forall|i: int|
        0 <= i < groups.len() ==> (#[trigger] groups[i]).kind.spec_into_inner() == weak_keys(fa)[i]
            && groups[i].fields@ == weak_group(fa, weak_keys(fa)[i])
}

/// Plans the commit attempts of one target bucket of kind `kb` holding the
/// fields `fbk`, against the reference side's weak buckets.
#[verifier::loop_isolation(false)]
fn plan_bucket(
    adb: &ProtoDatabase,
    bdb: &ProtoDatabase,
    weak_groups: &Vec<WeakFieldGroup>,
    Ghost(fa): Ghost<Seq<ProtoField>>,
    kb: ProtoFieldKind,
    fbk: &Vec<ProtoField>,
) -> (r: Vec<ResolutionStep>)
    requires
        weak_groups_match(weak_groups@, fa),
    ensures
        r@ == bucket_plan(adb@, bdb@, fa, kb, fbk@),
{
    let ghost keys = weak_keys(fa);
    let fwb = WeakProtoFieldKind::from(kb);
    proof {
        assert(fwb.spec_into_inner() == kb);
    }
    let mut j: usize = 0;
    let mut found = false;
    while j < weak_groups.len()
        invariant
            0 <= j <= weak_groups@.len(),
            !found ==> forall|l: int| 0 <= l < j ==> !weak_kind_eq(keys[l], kb),
            found ==> j < weak_groups@.len() && weak_kind_eq(keys[j as int], kb),
        decreases weak_groups@.len() - j,
    {
        if weak_groups[j].kind == fwb {
            found = true;
            break ;
        }
        j = j + 1;
    }
    if !found {
        proof {
            lemma_weak_keys_shape(fa);
            assert(!contains_weak(keys, kb));
            lemma_weak_group_members(fa, kb);
            assert(weak_group(fa, kb).len() == 0) by {
                if weak_group(fa, kb).len() > 0 {
                    let i = choose|i: int|
                        0 <= i < fa.len() && weak_kind_eq((#[trigger] fa[i]).field_type, kb);
                    assert(contains_weak(keys, kb));
                }
            }
        }
        let r: Vec<ResolutionStep> = Vec::new();
        return r;
    }
    let wa = &weak_groups[j].fields;
    proof {
        lemma_weak_group_congruence(fa, keys[j as int], kb);
        assert(wa@ == weak_group(fa, kb));
    }
    let mut r: Vec<ResolutionStep> = Vec::new();
    if wa.len() == 0 {
        return r;
    }
    if fbk.len() == 1 && wa.len() == 1 {
        r.push(ResolutionStep::Fields(wa[0], fbk[0]));
        proof {
            assert(r@ =~= bucket_plan(adb@, bdb@, fa, kb, fbk@));
        }
        return r;
    }
    if kb.is_type_ref() {
        let rs = compute_runs(wa);
        let ghost runs = runs_of(wa@);
        let n = fbk.len();
        let matching = filter_runs_by_len(&rs, Ghost(runs), n);
        let ghost mruns = runs_with_len(runs, n as int);
        proof {
            lemma_runs_with_len_lens(runs, n as int);
        }
        if matching.len() == 1 {
            if n == 1 {
                r.push(ResolutionStep::Fields(matching[0].first, fbk[0]));
            } else {
                let ta = *matching[0].first.field_type.inner_type();
                let tb = *fbk[0].field_type.inner_type();
                r.push(ResolutionStep::Types(ta, tb));
            }
        } else if matching.len() > 0 {
            let sat = filter_runs_eq_resolved(adb, bdb, &matching, Ghost(mruns), kb);
            let ghost satruns = runs_eq_resolved(adb@, bdb@, mruns, kb);
            proof {
                assert forall|i: int| 0 <= i < satruns.len() implies satruns[i].len()
                    > 0 by {
                    assert(sat@[i].len as int == satruns[i].len());
                }
            }
            if n == 1 && sat.len() == 1 {
                r.push(ResolutionStep::Fields(sat[0].first, fbk[0]));
            }
        }
        proof {
            assert(r@ =~= bucket_plan(adb@, bdb@, fa, kb, fbk@));
        }
        return r;
    }
    proof {
        assert(r@ =~= bucket_plan(adb@, bdb@, fa, kb, fbk@));
    }
    r
}

/// Plans one per-message pass: the commit attempts of every target bucket, in
/// first-occurrence order, judged against the tables as they stand now.
#[verifier::loop_isolation(false)]
pub fn plan_pass(
    adb: &ProtoDatabase,
    bdb: &ProtoDatabase,
    afields: &Vec<ProtoField>,
    bfields: &Vec<ProtoField>,
) -> (r: Vec<ResolutionStep>)
    requires
        adb@.wf(),
        bdb@.wf(),
        forall|i: int| 0 <= i < afields@.len() ==> adb@.field_wf(#[trigger] afields@[i]),
        forall|i: int| 0 <= i < bfields@.len() ==> bdb@.field_wf(#[trigger] bfields@[i]),
    ensures
        r@ == pass_plan(adb@, bdb@, afields@, bfields@),
{
    let texts = resolved_field_texts(bdb, bfields);
    let fa = surviving_fields(adb, &texts, afields);
    let fb = surviving_fields(bdb, &texts, bfields);
    let groups_b = group_fields_by_type(&fb);
    let weak_groups = group_fields_by_weak_type(&fa);
    let ghost keys = strong_keys(fb@);
    let mut r: Vec<ResolutionStep> = Vec::new();
    let mut i: usize = 0;
    while i < groups_b.len()
        invariant
            0 <= i <= groups_b@.len(),
            r@ == buckets_plan(adb@, bdb@, fa@, fb@, keys.take(i as int)),
        decreases groups_b@.len() - i,
    {
        proof {
            assert(keys.take(i + 1 as int).drop_last() =~= keys.take(i as int));
            assert(keys.take(i + 1 as int).last() == keys[i as int]);
        }
        let kb = groups_b[i].kind;
        let mut steps = plan_bucket(adb, bdb, &weak_groups, Ghost(fa@), kb, &groups_b[i].fields);
        r.append(&mut steps);
        proof {
            assert(r@ =~= buckets_plan(adb@, bdb@, fa@, fb@, keys.take(i + 1 as int)));
        }
        i = i + 1;
    }
    proof {
        assert(keys.take(keys.len() as int) =~= keys);
    }
    r
}

} // verus!
