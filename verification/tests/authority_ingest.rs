use schema_engine::authority_ingest::{
    AuthorityIngestError, BoundAssignment, BoundIdentities, DeclaredKey, IdentityIntent,
};
use schema_engine::encoded::{
    DeclarationRole, EncodedDeclaration, EncodedEnum, EncodedField, EncodedNewtype,
    EncodedReference, EncodedSchema, EncodedStruct, EncodedType, EncodedVariant, Visibility,
};
use schema_engine::legacy::{
    Declaration, EnumDeclaration, LoweredSource, NewtypeDeclaration, Root, TypeDeclaration,
    TypeReference, VariantDeclaration,
};
use schema_engine::legacy_ingest::LegacyIngestError;
use schema_engine::names::{Identifier, NameTable, NameTableError};
use schema_engine::shape::HashInput;
use schema_engine::ParsedSchema;

fn raw(bytes: &[u8]) -> HashInput {
    HashInput::Raw(bytes.to_vec())
}

fn prefixed(text: &str) -> HashInput {
    HashInput::LengthPrefixed(text.as_bytes().to_vec())
}

fn table(spellings: &[&str]) -> NameTable {
    let mut names = NameTable::new();
    for spelling in spellings {
        names.intern(&spelling.to_string());
    }
    names
}

/// `Point { x: Integer, y: Integer }` and `Label(Point)`, interned in the given order.
fn point_and_label(order: &[&str]) -> ParsedSchema {
    let names = table(order);
    let id = |spelling: &str| Identifier(order.iter().position(|s| *s == spelling).unwrap());
    let point = EncodedDeclaration::new(
        Visibility::Public,
        EncodedType::Struct(EncodedStruct {
            identifier: id("Point"),
            fields: vec![
                EncodedField { identifier: id("x"), reference: EncodedReference::Integer },
                EncodedField { identifier: id("y"), reference: EncodedReference::Integer },
            ],
        }),
    );
    let label = EncodedDeclaration::new(
        Visibility::Private,
        EncodedType::Newtype(EncodedNewtype {
            identifier: id("Label"),
            reference: EncodedReference::Plain(id("Point")),
        }),
    );
    ParsedSchema::from_parts(EncodedSchema::new(vec![point, label]), names)
}

#[test]
fn declared_identities_key_by_name_and_fingerprint_by_shape() {
    let parsed = point_and_label(&["x", "y", "Point", "Label"]);
    let identities = parsed.declared_identities().expect("identities");
    assert_eq!(identities.len(), 2);
    assert_eq!(identities[0].key, DeclaredKey(b"Point".to_vec()));
    assert_eq!(identities[1].key, DeclaredKey(b"Label".to_vec()));
    assert_eq!(identities[0].intent, IdentityIntent::MintOrBind);
    assert_eq!(
        identities[0].shape.inputs,
        vec![
            raw(&[0, 0]),
            raw(&[1]),
            raw(&2u64.to_le_bytes()),
            prefixed("x"),
            raw(&[1]),
            prefixed("y"),
            raw(&[1]),
        ]
    );
    assert_eq!(
        identities[1].shape.inputs,
        vec![raw(&[0, 1]), raw(&[0]), raw(&[4]), prefixed("Point")]
    );
}

#[test]
fn front_ends_with_different_name_tables_agree() {
    let first = point_and_label(&["x", "y", "Point", "Label"]);
    let second = point_and_label(&["Label", "Point", "y", "x"]);
    assert_ne!(first.schema().declarations[0].identifier(), second.schema().declarations[0].identifier());
    assert_eq!(first.declared_identities().unwrap(), second.declared_identities().unwrap());

    let bound = BoundIdentities {
        universe: 9,
        assignments: vec![
            BoundAssignment { key: DeclaredKey(b"Label".to_vec()), identity: 1 },
            BoundAssignment { key: DeclaredKey(b"Point".to_vec()), identity: 0 },
        ],
    };
    let a = first.build_universe(&bound).expect("first universe");
    let b = second.build_universe(&bound).expect("second universe");
    let members = |u: &schema_engine::authority_ingest::UniverseAssignment| {
        u.members.iter().map(|m| (m.local, m.name.clone())).collect::<Vec<_>>()
    };
    assert_eq!(members(&a), vec![(0, "Point".to_owned()), (1, "Label".to_owned())]);
    assert_eq!(members(&a), members(&b));
    assert_eq!(a.universe, 9);
}

#[test]
fn enumeration_shapes_record_payload_presence() {
    let names = table(&["Go", "Stop", "Signal", "Beat"]);
    let signal = EncodedDeclaration::interface(
        DeclarationRole::InterfaceInput,
        EncodedType::Enumeration(EncodedEnum {
            identifier: Identifier(2),
            variants: vec![
                EncodedVariant { identifier: Identifier(0), payload: Some(EncodedReference::Plain(Identifier(3))) },
                EncodedVariant { identifier: Identifier(1), payload: None },
            ],
        }),
    );
    let parsed = ParsedSchema::from_parts(EncodedSchema::new(vec![signal]), names);
    let identities = parsed.declared_identities().expect("identities");
    assert_eq!(
        identities[0].shape.inputs,
        vec![
            raw(&[1, 0]),
            raw(&[2]),
            raw(&2u64.to_le_bytes()),
            prefixed("Go"),
            raw(&[1]),
            raw(&[4]),
            prefixed("Beat"),
            prefixed("Stop"),
            raw(&[0]),
        ]
    );
}

#[test]
fn value_and_map_applications_fingerprint_their_arguments() {
    let names = table(&["Blob"]);
    let blob = EncodedDeclaration::new(
        Visibility::Public,
        EncodedType::Newtype(EncodedNewtype {
            identifier: Identifier(0),
            reference: EncodedReference::MultiTypeApplication {
                projection: schema_engine::encoded::MultiTypeReferenceProjection::MapOf,
                arguments: vec![
                    EncodedReference::String,
                    EncodedReference::ValueApplication {
                        projection: schema_engine::encoded::ValueReferenceProjection::Bytes,
                        value: 16,
                    },
                ],
            },
        }),
    );
    let parsed = ParsedSchema::from_parts(EncodedSchema::new(vec![blob]), names);
    let identities = parsed.declared_identities().expect("identities");
    assert_eq!(
        identities[0].shape.inputs,
        vec![
            raw(&[0, 0]),
            raw(&[0]),
            raw(&[6, 0]),
            raw(&2u64.to_le_bytes()),
            raw(&[0]),
            raw(&[7, 0]),
            raw(&16u64.to_le_bytes()),
        ]
    );
}

#[test]
fn an_unresolvable_identifier_fails_identity_and_universe() {
    let names = table(&["Orphan"]);
    let orphan = EncodedDeclaration::new(
        Visibility::Public,
        EncodedType::Newtype(EncodedNewtype {
            identifier: Identifier(0),
            reference: EncodedReference::Plain(Identifier(7)),
        }),
    );
    let parsed = ParsedSchema::from_parts(EncodedSchema::new(vec![orphan]), names);
    match parsed.declared_identities() {
        Err(AuthorityIngestError::Names(error)) => {
            assert_eq!(error, NameTableError::UnknownIdentifier(Identifier(7)))
        }
        other => panic!("expected a name resolution failure, got {other:?}"),
    }
    // The universe needs only the declaration's own name, which resolves.
    let bound = BoundIdentities {
        universe: 1,
        assignments: vec![BoundAssignment { key: DeclaredKey(b"Orphan".to_vec()), identity: 3 }],
    };
    let universe = parsed.build_universe(&bound).expect("universe");
    assert_eq!(universe.members[0].local, 3);
}

#[test]
fn an_unbound_key_fails_the_universe() {
    let parsed = point_and_label(&["x", "y", "Point", "Label"]);
    let bound = BoundIdentities {
        universe: 2,
        assignments: vec![BoundAssignment { key: DeclaredKey(b"Point".to_vec()), identity: 0 }],
    };
    match parsed.build_universe(&bound) {
        Err(AuthorityIngestError::UnboundDeclaration(key)) => assert_eq!(key, b"Label".to_vec()),
        other => panic!("expected an unbound declaration, got {other:?}"),
    }
}

#[test]
fn the_first_assignment_for_a_key_wins() {
    let parsed = point_and_label(&["x", "y", "Point", "Label"]);
    let bound = BoundIdentities {
        universe: 2,
        assignments: vec![
            BoundAssignment { key: DeclaredKey(b"Point".to_vec()), identity: 5 },
            BoundAssignment { key: DeclaredKey(b"Label".to_vec()), identity: 6 },
            BoundAssignment { key: DeclaredKey(b"Point".to_vec()), identity: 7 },
        ],
    };
    let universe = parsed.build_universe(&bound).expect("universe");
    assert_eq!(universe.members[0].local, 5);
    assert_eq!(universe.members[1].local, 6);
    assert_eq!(
        format!("{:?}", universe.members[1].declaration),
        format!("{:?}", parsed.schema().declarations[1])
    );
}

fn enumeration(name: &str, variants: Vec<VariantDeclaration>) -> EnumDeclaration {
    EnumDeclaration { name: name.to_owned(), variants }
}

#[test]
fn the_legacy_front_end_parses_a_lowered_source() {
    let source = LoweredSource {
        namespace: vec![Declaration {
            private: false,
            value: TypeDeclaration::Newtype(NewtypeDeclaration {
                name: "Beat".to_owned(),
                reference: TypeReference::Integer,
            }),
        }],
        input: Root::Enum(enumeration(
            "Input",
            vec![VariantDeclaration {
                name: "Ping".to_owned(),
                payload: Some(TypeReference::Plain("Beat".to_owned())),
            }],
        )),
        output: Root::Enum(enumeration("Output", vec![])),
    };
    let parsed = ParsedSchema::from_legacy(&source).expect("legacy front end");
    assert_eq!(parsed.schema().declarations.len(), 3);
    assert_eq!(parsed.names().resolve(Identifier(0)).unwrap(), "Beat");
    let identities = parsed.declared_identities().expect("identities");
    let keys: Vec<Vec<u8>> = identities.into_iter().map(|identity| identity.key.0).collect();
    assert_eq!(keys, vec![b"Beat".to_vec(), b"Input".to_vec(), b"Output".to_vec()]);

    let refused = LoweredSource {
        namespace: vec![],
        input: Root::Application { name: "Stream".to_owned(), arguments: vec![] },
        output: Root::Enum(enumeration("Output", vec![])),
    };
    match ParsedSchema::from_legacy(&refused) {
        Err(AuthorityIngestError::Legacy(error)) => {
            assert_eq!(error, LegacyIngestError::UnsupportedInterfaceApplication)
        }
        Err(other) => panic!("expected a legacy failure, got {other:?}"),
        Ok(_) => panic!("expected a legacy failure"),
    }
}

#[test]
fn assignments_for_undeclared_keys_and_their_order_do_not_matter() {
    let parsed = point_and_label(&["x", "y", "Point", "Label"]);
    let bound = BoundIdentities {
        universe: 2,
        assignments: vec![
            BoundAssignment { key: DeclaredKey(b"Point".to_vec()), identity: 5 },
            BoundAssignment { key: DeclaredKey(b"Label".to_vec()), identity: 6 },
        ],
    };
    let extended = BoundIdentities {
        universe: 2,
        assignments: vec![
            BoundAssignment { key: DeclaredKey(b"Elsewhere".to_vec()), identity: 9 },
            BoundAssignment { key: DeclaredKey(b"Label".to_vec()), identity: 6 },
            BoundAssignment { key: DeclaredKey(b"Point".to_vec()), identity: 5 },
        ],
    };
    let universe = parsed.build_universe(&bound).expect("universe");
    let reordered = parsed.build_universe(&extended).expect("universe");
    assert_eq!(format!("{universe:?}"), format!("{reordered:?}"));
    assert_eq!(universe.members[0].local, 5);
    assert_eq!(universe.members[1].local, 6);
}

#[test]
fn front_ends_agree_whatever_order_they_parse_declarations_in() {
    let first = point_and_label(&["x", "y", "Point", "Label"]);
    let order = ["Label", "Point", "y", "x"];
    let mut declarations =
        point_and_label(&order).schema().declarations.iter().map(|d| d.duplicate()).collect::<Vec<_>>();
    declarations.reverse();
    let second = ParsedSchema::from_parts(EncodedSchema::new(declarations), table(&order));

    let a = first.declared_identities().unwrap();
    let b = second.declared_identities().unwrap();
    assert_eq!(a.len(), b.len());
    assert_eq!(a[0], b[1]);
    assert_eq!(a[1], b[0]);

    let bound = BoundIdentities {
        universe: 4,
        assignments: vec![
            BoundAssignment { key: DeclaredKey(b"Point".to_vec()), identity: 7 },
            BoundAssignment { key: DeclaredKey(b"Label".to_vec()), identity: 8 },
        ],
    };
    let ua = first.build_universe(&bound).expect("first universe");
    let ub = second.build_universe(&bound).expect("second universe");
    assert_eq!((ua.members[0].local, &ua.members[0].name), (ub.members[1].local, &ub.members[1].name));
    assert_eq!((ua.members[1].local, &ua.members[1].name), (ub.members[0].local, &ub.members[0].name));

    let partial = BoundIdentities {
        universe: 4,
        assignments: vec![BoundAssignment { key: DeclaredKey(b"Point".to_vec()), identity: 7 }],
    };
    assert!(first.build_universe(&partial).is_err());
    assert!(second.build_universe(&partial).is_err());
}
