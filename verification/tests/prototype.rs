use matcher::prototype::{
    ProtoField, ProtoFieldKind, ProtoName, ProtoType, WeakProtoFieldKind, WeakProtoType,
};

#[test]
fn test_type_eq() {
    let map1 = ProtoFieldKind::Mapping(ProtoType::String, ProtoType::Uint32);
    let map2 = ProtoFieldKind::Mapping(ProtoType::String, ProtoType::Uint32);
    assert_eq!(map1, map2);
}

#[test]
fn strong_eq_distinguishes_references() {
    let t1 = ProtoType::Type(ProtoName { id: 0 });
    let t2 = ProtoType::Type(ProtoName { id: 1 });
    assert_ne!(t1, t2);
    assert_ne!(ProtoFieldKind::Scalar(t1), ProtoFieldKind::Scalar(t2));
}

#[test]
fn weak_eq_collapses_references() {
    let t1 = ProtoType::Type(ProtoName { id: 0 });
    let t2 = ProtoType::Type(ProtoName { id: 1 });
    assert_eq!(WeakProtoType::from(t1), WeakProtoType::from(t2));
    assert_eq!(
        WeakProtoFieldKind::from(ProtoFieldKind::Scalar(t1)),
        WeakProtoFieldKind::from(ProtoFieldKind::Scalar(t2))
    );
    assert_eq!(
        WeakProtoFieldKind::from(ProtoFieldKind::Mapping(ProtoType::String, t1)),
        WeakProtoFieldKind::from(ProtoFieldKind::Mapping(ProtoType::String, t2))
    );
}

#[test]
fn weak_eq_keeps_primitives_distinct() {
    assert_ne!(
        WeakProtoType::from(ProtoType::Uint32),
        WeakProtoType::from(ProtoType::Uint64)
    );
    assert_ne!(
        WeakProtoFieldKind::from(ProtoFieldKind::Scalar(ProtoType::Uint32)),
        WeakProtoFieldKind::from(ProtoFieldKind::Repeated(ProtoType::Uint32))
    );
    assert_ne!(
        WeakProtoFieldKind::from(ProtoFieldKind::Mapping(ProtoType::String, ProtoType::Uint32)),
        WeakProtoFieldKind::from(ProtoFieldKind::Mapping(ProtoType::Uint64, ProtoType::Uint32))
    );
}

#[test]
fn weak_round_trip_keeps_the_kind() {
    let k = ProtoFieldKind::Mapping(ProtoType::String, ProtoType::Type(ProtoName { id: 7 }));
    assert_eq!(WeakProtoFieldKind::from(k).into_inner(), k);
    let t = ProtoType::Type(ProtoName { id: 3 });
    assert_eq!(WeakProtoType::from(t).into_inner(), t);
}

#[test]
fn inner_type_is_the_value_or_element_type() {
    let r = ProtoType::Type(ProtoName { id: 2 });
    assert_eq!(*ProtoFieldKind::Scalar(ProtoType::Bool).inner_type(), ProtoType::Bool);
    assert_eq!(
        *ProtoFieldKind::Mapping(ProtoType::String, r).inner_type(),
        r
    );
    assert_eq!(*ProtoFieldKind::Repeated(ProtoType::Bytes).inner_type(), ProtoType::Bytes);
}

#[test]
fn is_type_ref_looks_at_the_inner_type() {
    let r = ProtoType::Type(ProtoName { id: 2 });
    assert!(ProtoFieldKind::Scalar(r).is_type_ref());
    assert!(ProtoFieldKind::Mapping(ProtoType::String, r).is_type_ref());
    assert!(!ProtoFieldKind::Mapping(ProtoType::String, ProtoType::Uint32).is_type_ref());
    assert!(!ProtoFieldKind::Repeated(ProtoType::Float).is_type_ref());
}

#[test]
fn fields_compare_structurally() {
    let f1 = ProtoField {
        name: ProtoName { id: 4 },
        field_type: ProtoFieldKind::Scalar(ProtoType::Uint32),
        field_number: 1,
    };
    let f2 = ProtoField {
        name: ProtoName { id: 4 },
        field_type: ProtoFieldKind::Scalar(ProtoType::Uint32),
        field_number: 1,
    };
    assert_eq!(f1, f2);
}
