use matcher::database::ProtoDatabase;
use matcher::matcher::Matcher;
use matcher::prototype::{ProtoField, ProtoFieldKind, ProtoMessage, ProtoName, ProtoType};
use matcher::resolve::ProtoResolutionError;

fn field(id: usize, kind: ProtoFieldKind, number: u32) -> ProtoField {
    ProtoField { name: ProtoName { id }, field_type: kind, field_number: number }
}

fn uint32() -> ProtoFieldKind {
    ProtoFieldKind::Scalar(ProtoType::Uint32)
}

fn reference(id: usize) -> ProtoFieldKind {
    ProtoFieldKind::Scalar(ProtoType::Type(ProtoName { id }))
}

#[test]
fn intern_is_idempotent_and_monotone() {
    let mut db = ProtoDatabase::new();
    let a = db.register_identifier("alpha".to_string());
    let b = db.register_identifier("beta".to_string());
    let a2 = db.register_identifier("alpha".to_string());
    assert_eq!(a, a2);
    assert_ne!(a, b);
    assert_eq!(db.lookup_name_by_text("beta").id, b);
    assert_eq!(ProtoName { id: a }.name(&db), "alpha");
}

#[test]
fn load_guess_marks_opaque_tokens_unresolved() {
    let mut db = ProtoDatabase::new();
    let meaningful = db.register_identifier("number".to_string());
    let opaque = db.register_identifier("JNLOABDHEIH".to_string());
    let short = db.register_identifier("ABCDEFGHIJ".to_string());
    let lower = db.register_identifier("jnloabdheih".to_string());
    assert!(db.is_resolved(&ProtoName { id: meaningful }));
    assert!(!db.is_resolved(&ProtoName { id: opaque }));
    assert!(db.is_resolved(&ProtoName { id: short }));
    assert!(db.is_resolved(&ProtoName { id: lower }));
    assert!(!db.is_resolved(&ProtoName { id: 999 }));
}

#[test]
fn translation_is_empty_before_any_commit() {
    let mut db = ProtoDatabase::new();
    db.register_identifier("number".to_string());
    db.register_identifier("JNLOABDHEIH".to_string());
    assert!(db.generate_nametranslation().is_empty());
}

#[test]
fn get_message_finds_the_registered_message() {
    let mut db = ProtoDatabase::new();
    let m = db.register_identifier("M".to_string());
    let f = db.register_identifier("f".to_string());
    db.register_message(ProtoMessage {
        name: ProtoName { id: m },
        fields: vec![field(f, uint32(), 1)],
    });
    let found = db.get_message("M").unwrap();
    assert_eq!(found.name.id, m);
    assert_eq!(found.fields.len(), 1);
    assert_eq!(found.fields[0].field_number, 1);
    let mut db2 = ProtoDatabase::new();
    db2.register_identifier("M".to_string());
    assert!(db2.get_message("M").is_none());
}

#[test]
fn primitive_pair_commit_is_a_signal_not_a_failure() {
    let a_db = ProtoDatabase::new();
    let mut b_db = ProtoDatabase::new();
    let r = ProtoType::Uint32.try_resolve_in(&a_db, &mut b_db, &ProtoType::Uint64);
    assert_eq!(r, Err(ProtoResolutionError::TypeIsPrimitive));
}

#[test]
fn unresolved_source_cannot_teach_a_name() {
    let mut a_db = ProtoDatabase::new();
    let src = a_db.register_identifier("AAAAAAAAAAA".to_string());
    let mut b_db = ProtoDatabase::new();
    let tgt = b_db.register_identifier("BBBBBBBBBBB".to_string());
    let fa = field(src, uint32(), 1);
    let fb = field(tgt, uint32(), 1);
    let r = fa.try_resolve_in(&a_db, &mut b_db, &fb);
    assert_eq!(r, Err(ProtoResolutionError::SourceNotResolved));
    assert!(!b_db.is_resolved(&ProtoName { id: tgt }));
    assert_eq!(ProtoName { id: tgt }.name(&b_db), "BBBBBBBBBBB");
}

#[test]
fn resolved_target_is_never_overwritten() {
    let mut a_db = ProtoDatabase::new();
    let src = a_db.register_identifier("count".to_string());
    let mut b_db = ProtoDatabase::new();
    let tgt = b_db.register_identifier("CCCCCCCCCCC".to_string());
    let fa = field(src, uint32(), 1);
    let fb = field(tgt, uint32(), 1);
    assert_eq!(fa.try_resolve_in(&a_db, &mut b_db, &fb), Ok(()));
    assert!(b_db.is_resolved(&ProtoName { id: tgt }));
    assert_eq!(ProtoName { id: tgt }.name(&b_db), "count");

    let mut a2 = ProtoDatabase::new();
    let src2 = a2.register_identifier("other".to_string());
    let fa2 = field(src2, uint32(), 1);
    let r = fa2.try_resolve_in(&a2, &mut b_db, &fb);
    assert_eq!(r, Err(ProtoResolutionError::TargetAlreadyResolved));
    assert_eq!(ProtoName { id: tgt }.name(&b_db), "count");
}

struct Scenario {
    matcher: Matcher,
}

/// The running example: A has `message M { uint32 a = 1; Foo b = 2; }` with
/// `message Foo { uint32 x = 1; }`; B has the same shapes under opaque names.
fn example() -> (Scenario, [String; 4]) {
    let mut a = ProtoDatabase::new();
    let am = a.register_identifier("M".to_string());
    let aa = a.register_identifier("a".to_string());
    let afoo = a.register_identifier("Foo".to_string());
    let ab = a.register_identifier("b".to_string());
    let ax = a.register_identifier("x".to_string());
    a.register_message(ProtoMessage {
        name: ProtoName { id: am },
        fields: vec![field(aa, uint32(), 1), field(ab, reference(afoo), 2)],
    });
    a.register_message(ProtoMessage {
        name: ProtoName { id: afoo },
        fields: vec![field(ax, uint32(), 1)],
    });

    let mut b = ProtoDatabase::new();
    let bm = b.register_identifier("M".to_string());
    let bx1 = b.register_identifier("QQQQQQQQQQA".to_string());
    let by = b.register_identifier("RRRRRRRRRRB".to_string());
    let bz = b.register_identifier("SSSSSSSSSSC".to_string());
    let bw = b.register_identifier("TTTTTTTTTTD".to_string());
    b.register_message(ProtoMessage {
        name: ProtoName { id: bm },
        fields: vec![field(bx1, uint32(), 1), field(bz, reference(by), 2)],
    });
    b.register_message(ProtoMessage {
        name: ProtoName { id: by },
        fields: vec![field(bw, uint32(), 1)],
    });

    let tokens = [
        "QQQQQQQQQQA".to_string(),
        "RRRRRRRRRRB".to_string(),
        "SSSSSSSSSSC".to_string(),
        "TTTTTTTTTTD".to_string(),
    ];
    (Scenario { matcher: Matcher::new(a, b) }, tokens)
}

#[test]
fn unique_by_type_resolves_in_one_pass() {
    let (mut s, _) = example();
    let did = s.matcher.full_static_match("M");
    assert!(did);
    let b = s.matcher.into_db_b();
    // The unique primitive field and the unique reference field are resolved,
    // and so is the referenced message name.
    assert_eq!(b.find_name("a").map(|n| n.id), Some(1));
    assert_eq!(b.find_name("b").map(|n| n.id), Some(3));
    assert_eq!(b.find_name("Foo").map(|n| n.id), Some(2));
    assert!(b.is_resolved(&ProtoName { id: 1 }));
    assert!(b.is_resolved(&ProtoName { id: 2 }));
    assert!(b.is_resolved(&ProtoName { id: 3 }));
    assert!(!b.is_resolved(&ProtoName { id: 4 }));
}

#[test]
fn converged_message_pass_reports_nothing_new() {
    let (mut s, _) = example();
    assert!(s.matcher.full_static_match("M"));
    // The per-message fixed point is reached: another pass commits nothing.
    assert!(!s.matcher.full_static_match("M"));
    assert!(!s.matcher.static_match("M"));
}

#[test]
fn run_reaches_the_example_translation() {
    let (mut s, tokens) = example();
    s.matcher.run();
    let b = s.matcher.into_db_b();
    let translation = b.generate_nametranslation();
    let expected = [
        (tokens[0].clone(), "a".to_string()),
        (tokens[1].clone(), "Foo".to_string()),
        (tokens[2].clone(), "b".to_string()),
        (tokens[3].clone(), "x".to_string()),
    ];
    assert_eq!(translation.len(), expected.len());
    for pair in expected.iter() {
        assert!(translation.contains(pair));
    }
}

#[test]
fn converged_run_is_idempotent() {
    let (mut s, _) = example();
    s.matcher.run();
    let first = {
        let b = &s.matcher.proto_db_b;
        b.generate_nametranslation()
    };
    // Running the driver again after global convergence commits nothing.
    s.matcher.run();
    let second = s.matcher.into_db_b().generate_nametranslation();
    assert_eq!(first, second);
}

#[test]
fn occurrence_match_resolves_the_type_but_not_the_fields() {
    let mut a = ProtoDatabase::new();
    let ap = a.register_identifier("P".to_string());
    let afoo = a.register_identifier("Foo".to_string());
    let af1 = a.register_identifier("first".to_string());
    let af2 = a.register_identifier("second".to_string());
    a.register_message(ProtoMessage {
        name: ProtoName { id: ap },
        fields: vec![field(af1, reference(afoo), 1), field(af2, reference(afoo), 2)],
    });

    let mut b = ProtoDatabase::new();
    let bp = b.register_identifier("P".to_string());
    let bfoo = b.register_identifier("UUUUUUUUUUA".to_string());
    let bf1 = b.register_identifier("VVVVVVVVVVB".to_string());
    let bf2 = b.register_identifier("WWWWWWWWWWC".to_string());
    b.register_message(ProtoMessage {
        name: ProtoName { id: bp },
        fields: vec![field(bf1, reference(bfoo), 1), field(bf2, reference(bfoo), 2)],
    });

    let mut m = Matcher::new(a, b);
    let did = m.full_static_match("P");
    assert!(did);
    let b = m.into_db_b();
    // Partial resolution: the referenced type name is established ...
    assert!(b.is_resolved(&ProtoName { id: bfoo }));
    assert_eq!(ProtoName { id: bfoo }.name(&b), "Foo");
    // ... but the two field identities stay ambiguous.
    assert!(!b.is_resolved(&ProtoName { id: bf1 }));
    assert!(!b.is_resolved(&ProtoName { id: bf2 }));
    assert_eq!(ProtoName { id: bf1 }.name(&b), "VVVVVVVVVVB");
    assert_eq!(ProtoName { id: bf2 }.name(&b), "WWWWWWWWWWC");
}

#[test]
fn primitive_multiplicity_never_resolves() {
    let mut a = ProtoDatabase::new();
    let aq = a.register_identifier("Q".to_string());
    let aa = a.register_identifier("a".to_string());
    let ab = a.register_identifier("b".to_string());
    a.register_message(ProtoMessage {
        name: ProtoName { id: aq },
        fields: vec![field(aa, uint32(), 1), field(ab, uint32(), 2)],
    });

    let mut b = ProtoDatabase::new();
    let bq = b.register_identifier("Q".to_string());
    let bx = b.register_identifier("XXXXXXXXXXA".to_string());
    let by = b.register_identifier("YYYYYYYYYYB".to_string());
    b.register_message(ProtoMessage {
        name: ProtoName { id: bq },
        fields: vec![field(bx, uint32(), 1), field(by, uint32(), 2)],
    });

    let mut m = Matcher::new(a, b);
    m.run();
    let b = m.into_db_b();
    assert!(!b.is_resolved(&ProtoName { id: bx }));
    assert!(!b.is_resolved(&ProtoName { id: by }));
    assert!(b.generate_nametranslation().is_empty());
}

#[test]
fn remove_resolved_fields_drops_settled_pairs() {
    let (mut s, _) = example();
    assert!(s.matcher.full_static_match("M"));
    let ma = s.matcher.proto_db_a.get_message("M").unwrap();
    let mb = s.matcher.proto_db_b.get_message("M").unwrap();
    let (fa, fb) = s.matcher.remove_resolved_fields(ma, mb);
    // Everything in M is resolved after the pass, so nothing survives.
    assert!(fa.fields.is_empty());
    assert!(fb.fields.is_empty());
}

#[test]
fn resolved_type_tie_break_waits_for_prior_commits() {
    // A holds two reference kinds with equal occurrence counts in R; the tie
    // can only be broken once one of the referenced types is known from
    // elsewhere -- here from message S, where the reference is unique.
    let mut a = ProtoDatabase::new();
    let ar = a.register_identifier("R".to_string());
    let afoo = a.register_identifier("Foo".to_string());
    let abar = a.register_identifier("Bar".to_string());
    let af = a.register_identifier("foo_field".to_string());
    let ag = a.register_identifier("bar_field".to_string());
    a.register_message(ProtoMessage {
        name: ProtoName { id: ar },
        fields: vec![field(af, reference(afoo), 1), field(ag, reference(abar), 2)],
    });
    let asn = a.register_identifier("S".to_string());
    let aonly = a.register_identifier("only".to_string());
    a.register_message(ProtoMessage {
        name: ProtoName { id: asn },
        fields: vec![field(aonly, reference(afoo), 1)],
    });

    let mut b = ProtoDatabase::new();
    let br = b.register_identifier("R".to_string());
    let bfoo = b.register_identifier("FFFFFFFFFFA".to_string());
    let bbar = b.register_identifier("GGGGGGGGGGB".to_string());
    let bf = b.register_identifier("HHHHHHHHHHC".to_string());
    let bg = b.register_identifier("IIIIIIIIIID".to_string());
    b.register_message(ProtoMessage {
        name: ProtoName { id: br },
        fields: vec![field(bf, reference(bfoo), 1), field(bg, reference(bbar), 2)],
    });
    let bsn = b.register_identifier("S".to_string());
    let bonly = b.register_identifier("LLLLLLLLLLE".to_string());
    b.register_message(ProtoMessage {
        name: ProtoName { id: bsn },
        fields: vec![field(bonly, reference(bfoo), 1)],
    });

    let mut m = Matcher::new(a, b);
    m.run();
    let b = m.into_db_b();
    // S resolves the type pair and its own field; the tie-break in R then
    // decides foo_field, and bar_field becomes unique in a later pass.
    assert!(b.is_resolved(&ProtoName { id: bfoo }));
    assert_eq!(ProtoName { id: bfoo }.name(&b), "Foo");
    assert_eq!(ProtoName { id: bonly }.name(&b), "only");
    assert!(b.is_resolved(&ProtoName { id: bf }));
    assert_eq!(ProtoName { id: bf }.name(&b), "foo_field");
    assert!(b.is_resolved(&ProtoName { id: bg }));
    assert_eq!(ProtoName { id: bg }.name(&b), "bar_field");
    assert!(b.is_resolved(&ProtoName { id: bbar }));
    assert_eq!(ProtoName { id: bbar }.name(&b), "Bar");
}

#[test]
fn new_type_in_target_stays_unresolved() {
    // B holds a field whose kind has no weak counterpart in A: nothing can
    // be learned about it.
    let mut a = ProtoDatabase::new();
    let am = a.register_identifier("M".to_string());
    let aa = a.register_identifier("a".to_string());
    a.register_message(ProtoMessage {
        name: ProtoName { id: am },
        fields: vec![field(aa, uint32(), 1)],
    });

    let mut b = ProtoDatabase::new();
    let bm = b.register_identifier("M".to_string());
    let bx = b.register_identifier("XXXXXXXXXXA".to_string());
    let bextra = b.register_identifier("YYYYYYYYYYB".to_string());
    b.register_message(ProtoMessage {
        name: ProtoName { id: bm },
        fields: vec![
            field(bx, uint32(), 1),
            field(bextra, ProtoFieldKind::Scalar(ProtoType::Uint64), 2),
        ],
    });

    let mut m = Matcher::new(a, b);
    m.run();
    let b = m.into_db_b();
    assert!(b.is_resolved(&ProtoName { id: bx }));
    assert_eq!(ProtoName { id: bx }.name(&b), "a");
    assert!(!b.is_resolved(&ProtoName { id: bextra }));
}

#[test]
fn map_and_repeated_kinds_bucket_separately() {
    // A map, a repeated field and a plain scalar of the same primitive are
    // three different strong kinds, so each resolves as unique-by-type.
    let mut a = ProtoDatabase::new();
    let am = a.register_identifier("M".to_string());
    let a1 = a.register_identifier("float_map".to_string());
    let a2 = a.register_identifier("string_list".to_string());
    let a3 = a.register_identifier("number".to_string());
    a.register_message(ProtoMessage {
        name: ProtoName { id: am },
        fields: vec![
            field(a1, ProtoFieldKind::Mapping(ProtoType::String, ProtoType::Float), 1),
            field(a2, ProtoFieldKind::Repeated(ProtoType::String), 2),
            field(a3, ProtoFieldKind::Scalar(ProtoType::String), 3),
        ],
    });

    let mut b = ProtoDatabase::new();
    let bm = b.register_identifier("M".to_string());
    let b1 = b.register_identifier("AAAAAAAAAAX".to_string());
    let b2 = b.register_identifier("BBBBBBBBBBY".to_string());
    let b3 = b.register_identifier("CCCCCCCCCCZ".to_string());
    b.register_message(ProtoMessage {
        name: ProtoName { id: bm },
        fields: vec![
            field(b1, ProtoFieldKind::Mapping(ProtoType::String, ProtoType::Float), 1),
            field(b2, ProtoFieldKind::Repeated(ProtoType::String), 2),
            field(b3, ProtoFieldKind::Scalar(ProtoType::String), 3),
        ],
    });

    let mut m = Matcher::new(a, b);
    m.run();
    let b = m.into_db_b();
    assert_eq!(ProtoName { id: b1 }.name(&b), "float_map");
    assert_eq!(ProtoName { id: b2 }.name(&b), "string_list");
    assert_eq!(ProtoName { id: b3 }.name(&b), "number");
}
