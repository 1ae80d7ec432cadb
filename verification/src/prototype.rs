//! The schema entity model: interned names, field types, field kinds, and the
//! weak (reference-collapsing) equivalence used to group candidate fields.

use vstd::prelude::*;

verus! {

/// An identifier interned in one schema's symbol table: an opaque integer id,
/// meaningful only within the table that issued it. Ids are assigned
/// monotonically and never reused.
#[derive(Debug, Clone, Copy, PartialEq, Eq, Hash, Structural)]
pub struct ProtoName {
    pub id: usize,
}

/// A type of the schema language: one of the primitive scalar kinds, or a
/// reference to another message or enum by its interned name.
#[derive(Debug, Clone, Copy, PartialEq, Eq, Hash, Structural)]
pub enum ProtoType {
    Bool,
    Float,
    Double,
    Int32,
    Int64,
    Uint32,
    Uint64,
    Sint32,
    Sint64,
    Fixed32,
    Fixed64,
    Sfixed32,
    Sfixed64,
    String,
    Bytes,
    Type(ProtoName),
}

impl ProtoType {
    /// True when this type names another message or enum.
    pub open spec fn is_reference(self) -> bool {
        self is Type
    }

    /// The interned id of the referenced name (meaningful only for references).
    pub open spec fn ref_id(self) -> int {
        self->Type_0.id as int
    }
}

/// The shape of one field: a plain scalar, a map, or a repeated element.
/// Every kind exposes one inner type (the value type for a map, the element
/// type otherwise), which is what reference matching looks at.
#[derive(Debug, Clone, Copy, PartialEq, Eq, Hash, Structural)]
pub enum ProtoFieldKind {
    Scalar(ProtoType),
    Mapping(ProtoType, ProtoType),
    Repeated(ProtoType),
}

impl ProtoFieldKind {
    /// The inner type of this kind: the value type for a map, the element
    /// type otherwise.
    pub open spec fn spec_inner_type(self) -> ProtoType {
        match self {
            ProtoFieldKind::Scalar(a) => a,
            ProtoFieldKind::Mapping(_, b) => b,
            ProtoFieldKind::Repeated(a) => a,
        }
    }

    pub fn inner_type(&self) -> (r: &ProtoType)
        ensures
            *r == self.spec_inner_type(),
    {
        match self {
            ProtoFieldKind::Scalar(a) => a,
            ProtoFieldKind::Mapping(_, b) => b,
            ProtoFieldKind::Repeated(a) => a,
        }
    }

    /// True when the inner type is a reference to another message or enum.
    pub open spec fn spec_is_type_ref(self) -> bool {
        self.spec_inner_type().is_reference()
    }

    pub fn is_type_ref(&self) -> (r: bool)
        ensures
            r == self.spec_is_type_ref(),
    {
        match self.inner_type() {
            ProtoType::Type(_) => true,
            _ => false,
        }
    }
}

/// One declared field of a message: its interned name, its kind, and its
/// numeric tag.
#[derive(Debug, Clone, Copy, PartialEq, Eq, Hash, Structural)]
pub struct ProtoField {
    pub name: ProtoName,
    pub field_type: ProtoFieldKind,
    pub field_number: u32,
}

/// A message: its interned name and its fields in declaration order.
#[derive(Debug)]
pub struct ProtoMessage {
    pub name: ProtoName,
    pub fields: Vec<ProtoField>,
}

impl ProtoMessage {
    /// An exact copy of this message.
    pub fn duplicate(&self) -> (r: ProtoMessage)
        ensures
            r.name == self.name,
            r.fields@ == self.fields@,
    {
        let mut fields: Vec<ProtoField> = Vec::new();
        let mut i: usize = 0;
        while i < self.fields.len()
            invariant
                i <= self.fields.len(),
                fields@ == self.fields@.take(i as int),
            decreases self.fields.len() - i,
        {
            fields.push(self.fields[i]);
            proof {
                assert(self.fields@.take(i + 1 as int) =~= self.fields@.take(i as int).push(
                    self.fields@[i as int],
                ));
            }
            i = i + 1;
        }
        proof {
            assert(self.fields@.take(self.fields@.len() as int) =~= self.fields@);
        }
        ProtoMessage { name: self.name, fields }
    }
}

/// The weak equivalence on types: all references fall into one class,
/// regardless of which name they reference, while distinct primitive kinds
/// stay distinct.
pub open spec fn weak_type_eq(a: ProtoType, b: ProtoType) -> bool {
    match (a, b) {
        (ProtoType::Type(_), ProtoType::Type(_)) => true,
        _ => a == b,
    }
}

/// The weak equivalence lifted to field kinds, component by component.
pub open spec fn weak_kind_eq(a: ProtoFieldKind, b: ProtoFieldKind) -> bool {
    match (a, b) {
        (ProtoFieldKind::Scalar(x), ProtoFieldKind::Scalar(y)) => weak_type_eq(x, y),
        (ProtoFieldKind::Mapping(k1, v1), ProtoFieldKind::Mapping(k2, v2)) => weak_type_eq(k1, k2)
            && weak_type_eq(v1, v2),
        (ProtoFieldKind::Repeated(x), ProtoFieldKind::Repeated(y)) => weak_type_eq(x, y),
        _ => false,
    }
}

/// The weak equivalence is reflexive, symmetric and transitive.
pub proof fn lemma_weak_kind_eq_equivalence(a: ProtoFieldKind, b: ProtoFieldKind, c: ProtoFieldKind)
    ensures
        weak_kind_eq(a, a),
        weak_kind_eq(a, b) == weak_kind_eq(b, a),
        weak_kind_eq(a, b) && weak_kind_eq(b, c) ==> weak_kind_eq(a, c),
{
}

/// A type compared and grouped under the weak equivalence: equality ignores
/// which name a reference names.
#[derive(Debug, Clone, Copy, Eq)]
pub struct WeakProtoType(pub ProtoType);

impl WeakProtoType {
    /// The underlying type.
    pub open spec fn spec_inner(self) -> ProtoType {
        self.0
    }

    pub fn into_inner(self) -> (r: ProtoType)
        ensures
            r == self.spec_inner(),
    {
        self.0
    }
}

impl From<ProtoType> for WeakProtoType {
    fn from(value: ProtoType) -> (r: Self) {
        WeakProtoType(value)
    }
}

impl vstd::std_specs::convert::FromSpecImpl<ProtoType> for WeakProtoType {
    open spec fn obeys_from_spec() -> bool {
        true
    }

    open spec fn from_spec(value: ProtoType) -> Self {
        WeakProtoType(value)
    }
}

impl PartialEq for WeakProtoType {
    fn eq(&self, other: &Self) -> (r: bool) {
        match (&self.0, &other.0) {
            (ProtoType::Type(_), ProtoType::Type(_)) => true,
            (a, b) => a == b,
        }
    }
}

impl vstd::std_specs::cmp::PartialEqSpecImpl for WeakProtoType {
    open spec fn obeys_eq_spec() -> bool {
        true
    }

    open spec fn eq_spec(&self, other: &Self) -> bool {
        weak_type_eq(self.0, other.0)
    }
}

/// A field kind compared and grouped under the weak equivalence.
#[derive(Debug, Clone, Copy, Eq)]
pub enum WeakProtoFieldKind {
    Scalar(WeakProtoType),
    Mapping(WeakProtoType, WeakProtoType),
    Repeated(WeakProtoType),
}

impl WeakProtoFieldKind {
    /// The underlying strong field kind.
    pub open spec fn spec_into_inner(self) -> ProtoFieldKind {
        match self {
            WeakProtoFieldKind::Scalar(a) => ProtoFieldKind::Scalar(a.spec_inner()),
            WeakProtoFieldKind::Mapping(a, b) => ProtoFieldKind::Mapping(a.spec_inner(), b.spec_inner()),
            WeakProtoFieldKind::Repeated(a) => ProtoFieldKind::Repeated(a.spec_inner()),
        }
    }

    pub fn into_inner(self) -> (r: ProtoFieldKind)
        ensures
            r == self.spec_into_inner(),
    {
        match self {
            WeakProtoFieldKind::Scalar(a) => ProtoFieldKind::Scalar(a.into_inner()),
            WeakProtoFieldKind::Mapping(a, b) => ProtoFieldKind::Mapping(a.into_inner(), b.into_inner()),
            WeakProtoFieldKind::Repeated(a) => ProtoFieldKind::Repeated(a.into_inner()),
        }
    }
}

impl From<ProtoFieldKind> for WeakProtoFieldKind {
    fn from(value: ProtoFieldKind) -> (r: Self) {
        match value {
            ProtoFieldKind::Scalar(a) => WeakProtoFieldKind::Scalar(WeakProtoType::from(a)),
            ProtoFieldKind::Mapping(a, b) => WeakProtoFieldKind::Mapping(
                WeakProtoType::from(a),
                WeakProtoType::from(b),
            ),
            ProtoFieldKind::Repeated(a) => WeakProtoFieldKind::Repeated(WeakProtoType::from(a)),
        }
    }
}

impl vstd::std_specs::convert::FromSpecImpl<ProtoFieldKind> for WeakProtoFieldKind {
    open spec fn obeys_from_spec() -> bool {
        true
    }

    open spec fn from_spec(value: ProtoFieldKind) -> Self {
        match value {
            ProtoFieldKind::Scalar(a) => WeakProtoFieldKind::Scalar(WeakProtoType(a)),
            ProtoFieldKind::Mapping(a, b) => WeakProtoFieldKind::Mapping(WeakProtoType(a), WeakProtoType(b)),
            ProtoFieldKind::Repeated(a) => WeakProtoFieldKind::Repeated(WeakProtoType(a)),
        }
    }
}

impl PartialEq for WeakProtoFieldKind {
    fn eq(&self, other: &Self) -> (r: bool) {
        match (self, other) {
            (WeakProtoFieldKind::Scalar(a), WeakProtoFieldKind::Scalar(b)) => a == b,
            (WeakProtoFieldKind::Mapping(a, b), WeakProtoFieldKind::Mapping(c, d)) => a == c && b == d,
            (WeakProtoFieldKind::Repeated(a), WeakProtoFieldKind::Repeated(b)) => a == b,
            _ => false,
        }
    }
}

impl vstd::std_specs::cmp::PartialEqSpecImpl for WeakProtoFieldKind {
    open spec fn obeys_eq_spec() -> bool {
        true
    }

    open spec fn eq_spec(&self, other: &Self) -> bool {
        weak_kind_eq(self.spec_into_inner(), other.spec_into_inner())
    }
}

} // verus!
