//! The resolution committer: the one transactional step that propagates a
//! confirmed (source symbol, target symbol) pair into the target schema's
//! symbol table. A commit requires the source to be resolved already and the
//! target not to be, so a committed binding can never be overwritten.

use vstd::prelude::*;

use crate::database::{DbView, ProtoDatabase};
use crate::prototype::{ProtoField, ProtoName, ProtoType};

verus! {

/// Why a commit attempt did not commit. None of these aborts a run: the
/// attempt is simply skipped and may succeed in a later pass.
#[derive(Debug, Clone, Copy, PartialEq, Eq, Structural)]
pub enum ProtoResolutionError {
    /// The attempted type-level pair involves a non-reference type: nothing to
    /// resolve at the type level. A signal, not a failure.
    TypeIsPrimitive,
    /// The target id is already resolved; the existing binding is protected.
    TargetAlreadyResolved,
    /// The source id is itself not yet resolved, so there is no confirmed
    /// text to propagate.
    SourceNotResolved,
}

/// The outcome of a commit attempt of the pair (src in A, tgt in B): it
/// succeeds exactly when the source is resolved and the target is not.
pub open spec fn commit_res(adb: DbView, src: ProtoName, bdb: DbView, tgt: ProtoName) -> Result<
    (),
    ProtoResolutionError,
> {
    if !adb.name_resolved(src) {
        Err(ProtoResolutionError::SourceNotResolved)
    } else if bdb.name_resolved(tgt) {
        Err(ProtoResolutionError::TargetAlreadyResolved)
    } else {
        Ok(())
    }
}

/// The target table after a commit attempt of the pair (src, tgt): on
/// success, tgt is bound to the text currently bound to src and marked
/// resolved; on failure, nothing changes.
pub open spec fn commit_post(adb: DbView, src: ProtoName, bdb: DbView, tgt: ProtoName) -> DbView {
    if commit_res(adb, src, bdb, tgt) is Ok && bdb.id_in_range(tgt.id as int) {
        DbView {
            names: bdb.names.update(tgt.id as int, adb.names[src.id as int]),
            original: bdb.original,
            resolved: bdb.resolved.update(tgt.id as int, true),
            messages: bdb.messages,
        }
    } else {
        bdb
    }
}

/// The outcome of a type-level commit attempt: only a pair of references can
/// commit; any other pair is a primitive, which is a signal, not a failure.
pub open spec fn type_commit_res(adb: DbView, ta: ProtoType, bdb: DbView, tb: ProtoType) -> Result<
    (),
    ProtoResolutionError,
> {
    match (ta, tb) {
        (ProtoType::Type(n), ProtoType::Type(m)) => commit_res(adb, n, bdb, m),
        _ => Err(ProtoResolutionError::TypeIsPrimitive),
    }
}

/// The target table after a type-level commit attempt.
pub open spec fn type_commit_post(adb: DbView, ta: ProtoType, bdb: DbView, tb: ProtoType) -> DbView {
    match (ta, tb) {
        (ProtoType::Type(n), ProtoType::Type(m)) => commit_post(adb, n, bdb, m),
        _ => bdb,
    }
}

/// The outcome of a field-level commit attempt: first the inner types are
/// attempted (a primitive pair or an already-resolved target type is
/// swallowed; an unresolved source type aborts the attempt), then the field
/// names themselves are committed against the table the type attempt left.
pub open spec fn field_commit_res(
    adb: DbView,
    fa: ProtoField,
    bdb: DbView,
    fb: ProtoField,
) -> Result<(), ProtoResolutionError> {
    let ta = fa.field_type.spec_inner_type();
    let tb = fb.field_type.spec_inner_type();
    if type_commit_res(adb, ta, bdb, tb) == Err::<(), ProtoResolutionError>(
        ProtoResolutionError::SourceNotResolved,
    ) {
        Err(ProtoResolutionError::SourceNotResolved)
    } else {
        commit_res(adb, fa.name, type_commit_post(adb, ta, bdb, tb), fb.name)
    }
}

/// The target table after a field-level commit attempt.
pub open spec fn field_commit_post(
    adb: DbView,
    fa: ProtoField,
    bdb: DbView,
    fb: ProtoField,
) -> DbView {
    let ta = fa.field_type.spec_inner_type();
    let tb = fb.field_type.spec_inner_type();
    if type_commit_res(adb, ta, bdb, tb) == Err::<(), ProtoResolutionError>(
        ProtoResolutionError::SourceNotResolved,
    ) {
        bdb
    } else {
        commit_post(adb, fa.name, type_commit_post(adb, ta, bdb, tb), fb.name)
    }
}

/// A commit attempt leaves the column lengths, the load-time snapshot and the
/// messages untouched, and flips no resolved id back.
pub proof fn lemma_commit_post_frame(adb: DbView, src: ProtoName, bdb: DbView, tgt: ProtoName)
    requires
        bdb.wf(),
    ensures
        commit_post(adb, src, bdb, tgt).names.len() == bdb.names.len(),
        commit_post(adb, src, bdb, tgt).resolved.len() == bdb.resolved.len(),
        commit_post(adb, src, bdb, tgt).original == bdb.original,
        commit_post(adb, src, bdb, tgt).messages == bdb.messages,
        commit_post(adb, src, bdb, tgt).wf(),
        forall|id: int|
            bdb.rsv(id) ==> commit_post(adb, src, bdb, tgt).rsv(id) && commit_post(
                adb,
                src,
                bdb,
                tgt,
            ).names[id] == bdb.names[id],
        forall|id: int|
            commit_res(adb, src, bdb, tgt) is Ok && id != tgt.id as int ==> commit_post(
                adb,
                src,
                bdb,
                tgt,
            ).rsv(id) == bdb.rsv(id) && (bdb.id_in_range(id) ==> commit_post(
                adb,
                src,
                bdb,
                tgt,
            ).names[id] == bdb.names[id]),
{
    let post = commit_post(adb, src, bdb, tgt);
    assert forall|i: int| 0 <= i < post.messages.len() implies post.msg_wf(
        #[trigger] post.messages[i],
    ) by {
        assert(bdb.msg_wf(bdb.messages[i]));
    }
}

/// Attempts to commit the pair of interned names (src of the reference
/// schema, tgt of the target schema).
pub fn commit_name(
    self_db: &ProtoDatabase,
    src: ProtoName,
    other_db: &mut ProtoDatabase,
    tgt: ProtoName,
) -> (r: Result<(), ProtoResolutionError>)
    requires
        self_db@.wf(),
        old(other_db)@.wf(),
        old(other_db)@.id_in_range(tgt.id as int),
    ensures
        r == commit_res(self_db@, src, old(other_db)@, tgt),
        final(other_db)@ == commit_post(self_db@, src, old(other_db)@, tgt),
        final(other_db)@.wf(),
{
    proof {
        lemma_commit_post_frame(self_db@, src, old(other_db)@, tgt);
    }
    if !self_db.is_resolved(&src) {
        return Err(ProtoResolutionError::SourceNotResolved);
    }
    if other_db.is_resolved(&tgt) {
        return Err(ProtoResolutionError::TargetAlreadyResolved);
    }
    let text = self_db.text_at(src.id);
    other_db.bind_resolved(tgt.id, text);
    proof {
        assert(final(other_db)@ =~= commit_post(self_db@, src, old(other_db)@, tgt));
    }
    Ok(())
}

impl ProtoType {
    /// Attempts to commit this reference type of the reference schema against
    /// a type of the target schema: the target reference is bound to this
    /// reference's text. A pair that is not two references is a primitive
    /// pair and commits nothing.
    pub fn try_resolve_in(
        &self,
        self_db: &ProtoDatabase,
        other_db: &mut ProtoDatabase,
        other: &ProtoType,
    ) -> (r: Result<(), ProtoResolutionError>)
        requires
            self_db@.wf(),
            old(other_db)@.wf(),
            old(other_db)@.type_wf(*other),
        ensures
            r == type_commit_res(self_db@, *self, old(other_db)@, *other),
            final(other_db)@ == type_commit_post(self_db@, *self, old(other_db)@, *other),
            final(other_db)@.wf(),
    {
        match (self, other) {
            (ProtoType::Type(n), ProtoType::Type(m)) => commit_name(self_db, *n, other_db, *m),
            _ => Err(ProtoResolutionError::TypeIsPrimitive),
        }
    }
}

impl ProtoField {
    /// Attempts to commit this field of the reference schema against a field
    /// of the target schema: first the inner types (a primitive pair or an
    /// already-resolved target type is no obstacle; an unresolved source type
    /// aborts), then the field names themselves.
    pub fn try_resolve_in(
        &self,
        self_db: &ProtoDatabase,
        other_db: &mut ProtoDatabase,
        other: &ProtoField,
    ) -> (r: Result<(), ProtoResolutionError>)
        requires
            self_db@.wf(),
            old(other_db)@.wf(),
            old(other_db)@.field_wf(*other),
        ensures
            r == field_commit_res(self_db@, *self, old(other_db)@, *other),
            final(other_db)@ == field_commit_post(self_db@, *self, old(other_db)@, *other),
            final(other_db)@.wf(),
    {
        let ta = *self.field_type.inner_type();
        let tb = *other.field_type.inner_type();
        proof {
            if tb is Type {
                lemma_commit_post_frame(self_db@, ta->Type_0, old(other_db)@, tb->Type_0);
            }
        }
        match ta.try_resolve_in(self_db, other_db, &tb) {
            Ok(()) => (),
            Err(ProtoResolutionError::TypeIsPrimitive) => (),
            Err(ProtoResolutionError::TargetAlreadyResolved) => (),
            Err(e) => {
                return Err(e);
            },
        }
        commit_name(self_db, self.name, other_db, other.name)
    }
}

} // verus!
