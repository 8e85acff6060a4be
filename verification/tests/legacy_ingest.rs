use schema_engine::encoded::{
    DeclarationRole, EncodedDeclaration, EncodedReference, EncodedSchema, EncodedType,
    MultiTypeReferenceProjection, SingleTypeReferenceProjection, ValueReferenceProjection,
    Visibility,
};
use schema_engine::legacy::{
    Declaration, EnumDeclaration, FieldDeclaration, LoweredSource, NewtypeDeclaration, Root,
    StructDeclaration, TypeDeclaration, TypeReference, VariantDeclaration,
};
use schema_engine::legacy;
use schema_engine::legacy_ingest::{LegacyIngestError, LegacySchemaIngest};
use schema_engine::names::{Identifier, NameTable};

fn newtype(name: &str, reference: TypeReference) -> Declaration {
    Declaration {
        private: false,
        value: TypeDeclaration::Newtype(NewtypeDeclaration { name: name.to_owned(), reference }),
    }
}

fn variant(name: &str, payload: Option<TypeReference>) -> VariantDeclaration {
    VariantDeclaration { name: name.to_owned(), payload }
}

fn plain(name: &str) -> TypeReference {
    TypeReference::Plain(name.to_owned())
}

fn enumeration(name: &str, variants: Vec<VariantDeclaration>) -> EnumDeclaration {
    EnumDeclaration { name: name.to_owned(), variants }
}

/// The lowered form of the six-slot source
/// `{} [Ping.Beat Poke.Nudge] [Pong.Tick] { Beat.Integer Nudge.Integer Tick.Integer } {} {}`.
fn shared_min() -> LoweredSource {
    LoweredSource {
        namespace: vec![
            newtype("Beat", TypeReference::Integer),
            newtype("Nudge", TypeReference::Integer),
            newtype("Tick", TypeReference::Integer),
        ],
        input: Root::Enum(enumeration(
            "Input",
            vec![variant("Ping", Some(plain("Beat"))), variant("Poke", Some(plain("Nudge")))],
        )),
        output: Root::Enum(enumeration("Output", vec![variant("Pong", Some(plain("Tick")))])),
    }
}

fn resolve(names: &NameTable, id: Identifier) -> String {
    names.resolve(id).expect("identifier resolves").clone()
}

fn declaration_name(declaration: &EncodedDeclaration, names: &NameTable) -> String {
    resolve(names, declaration.identifier())
}

/// The interface surface of a schema's input root: its name and its variants with
/// their payload names, resolved through the schema's own names.
fn input_surface(schema: &EncodedSchema, names: &NameTable) -> (String, Vec<(String, String)>) {
    let root = schema.input().expect("an input interface root");
    assert_eq!(root.role, DeclarationRole::InterfaceInput, "the input root carries the InterfaceInput role");
    let EncodedType::Enumeration(enumeration) = &root.value else {
        panic!("an interface root is an enumeration");
    };
    let variants = enumeration
        .variants
        .iter()
        .map(|variant| {
            let payload = match &variant.payload {
                Some(EncodedReference::Plain(id)) => resolve(names, *id),
                other => panic!("interface payloads are Plain references, got {other:?}"),
            };
            (resolve(names, variant.identifier), payload)
        })
        .collect();
    (declaration_name(root, names), variants)
}

#[test]
fn legacy_ingestion_tags_interface_roots_and_leaves_data_plain() {
    let migration = LegacySchemaIngest::migrate_lowered(&shared_min()).expect("legacy ingestion");
    let schema = &migration.schema;
    let names = &migration.names;

    let (input_name, input_variants) = input_surface(schema, names);
    assert_eq!(input_name, "Input");
    assert_eq!(
        input_variants,
        vec![
            ("Ping".to_owned(), "Beat".to_owned()),
            ("Poke".to_owned(), "Nudge".to_owned()),
        ],
    );

    let output = schema.output().expect("an output interface root");
    assert_eq!(output.role, DeclarationRole::InterfaceOutput);
    assert_eq!(declaration_name(output, names), "Output");

    let data: Vec<String> = schema
        .data_declarations()
        .into_iter()
        .map(|declaration| declaration_name(declaration, names))
        .collect();
    assert_eq!(data, vec!["Beat", "Nudge", "Tick"]);
    assert_eq!(
        schema
            .declarations
            .iter()
            .filter(|declaration| declaration.role != DeclarationRole::DataType)
            .count(),
        2,
        "exactly the two protocol lines are interface roots",
    );
}

#[test]
fn spellings_are_interned_once_in_parse_order() {
    let migration = LegacySchemaIngest::migrate_lowered(&shared_min()).expect("legacy ingestion");
    let names = &migration.names;
    // Beat, Nudge, Tick from the namespace; then the input root's variants and name;
    // then the output root's. Beat, Nudge and Tick are not interned twice.
    let expected = ["Beat", "Nudge", "Tick", "Ping", "Poke", "Input", "Pong", "Output"];
    assert_eq!(names.len(), expected.len());
    for (index, spelling) in expected.iter().enumerate() {
        assert_eq!(resolve(names, Identifier(index)), *spelling);
    }
    let EncodedType::Enumeration(input) = &migration.schema.declarations[3].value else {
        panic!("the input root is an enumeration");
    };
    assert!(matches!(input.variants[0].payload, Some(EncodedReference::Plain(Identifier(0)))));
    assert!(matches!(input.variants[1].payload, Some(EncodedReference::Plain(Identifier(1)))));
    assert_eq!(input.identifier, Identifier(5));
}

#[test]
fn struct_fields_intern_before_the_struct_name() {
    let source = LoweredSource {
        namespace: vec![Declaration {
            private: true,
            value: TypeDeclaration::Struct(StructDeclaration {
                name: "Pair".to_owned(),
                fields: vec![
                    FieldDeclaration { name: "left".to_owned(), reference: TypeReference::Boolean },
                    FieldDeclaration {
                        name: "right".to_owned(),
                        reference: TypeReference::SingleTypeApplication {
                            projection: legacy::SingleTypeReferenceProjection::Optional,
                            argument: Box::new(plain("Pair")),
                        },
                    },
                ],
            }),
        }],
        input: Root::Enum(enumeration("Input", vec![])),
        output: Root::Enum(enumeration("Output", vec![])),
    };
    let migration = LegacySchemaIngest::migrate_lowered(&source).expect("legacy ingestion");
    let names = &migration.names;
    assert_eq!(resolve(names, Identifier(0)), "left");
    assert_eq!(resolve(names, Identifier(1)), "right");
    assert_eq!(resolve(names, Identifier(2)), "Pair");
    let declaration = &migration.schema.declarations[0];
    assert_eq!(declaration.role, DeclarationRole::DataType);
    assert_eq!(declaration.visibility, Visibility::Private);
    let EncodedType::Struct(structure) = &declaration.value else {
        panic!("a struct migrates to a struct");
    };
    assert_eq!(structure.identifier, Identifier(2));
    assert_eq!(structure.fields.len(), 2);
    assert!(matches!(structure.fields[0].reference, EncodedReference::Boolean));
    match &structure.fields[1].reference {
        EncodedReference::SingleTypeApplication { projection, argument } => {
            assert_eq!(*projection, SingleTypeReferenceProjection::Optional);
            assert!(matches!(**argument, EncodedReference::Plain(Identifier(2))));
        }
        other => panic!("expected an optional application, got {other:?}"),
    }
    assert_eq!(migration.schema.declarations[1].visibility, Visibility::Public);
}

#[test]
fn applications_migrate_argument_for_argument() {
    let source = LoweredSource {
        namespace: vec![newtype(
            "Index",
            TypeReference::MultiTypeApplication {
                projection: legacy::MultiTypeReferenceProjection::MapOf,
                arguments: vec![
                    TypeReference::String,
                    TypeReference::ValueApplication {
                        projection: legacy::ValueReferenceProjection::Bytes,
                        value: 32,
                    },
                    TypeReference::SingleTypeApplication {
                        projection: legacy::SingleTypeReferenceProjection::Vector,
                        argument: Box::new(TypeReference::Bytes),
                    },
                ],
            },
        )],
        input: Root::Enum(enumeration("Input", vec![variant("Go", None)])),
        output: Root::Enum(enumeration("Output", vec![])),
    };
    let migration = LegacySchemaIngest::migrate_lowered(&source).expect("legacy ingestion");
    let EncodedType::Newtype(index) = &migration.schema.declarations[0].value else {
        panic!("a newtype migrates to a newtype");
    };
    assert_eq!(index.identifier, Identifier(0));
    match &index.reference {
        EncodedReference::MultiTypeApplication { projection, arguments } => {
            assert_eq!(*projection, MultiTypeReferenceProjection::MapOf);
            assert_eq!(arguments.len(), 3);
            assert!(matches!(arguments[0], EncodedReference::String));
            assert!(matches!(
                arguments[1],
                EncodedReference::ValueApplication { projection: ValueReferenceProjection::Bytes, value: 32 }
            ));
            match &arguments[2] {
                EncodedReference::SingleTypeApplication { projection, argument } => {
                    assert_eq!(*projection, SingleTypeReferenceProjection::Vector);
                    assert!(matches!(**argument, EncodedReference::Bytes));
                }
                other => panic!("expected a vector application, got {other:?}"),
            }
        }
        other => panic!("expected a map application, got {other:?}"),
    }
    let EncodedType::Enumeration(input) = &migration.schema.declarations[1].value else {
        panic!("the input root is an enumeration");
    };
    assert!(input.variants[0].payload.is_none());
}

#[test]
fn the_path_scalar_is_refused() {
    let source = LoweredSource {
        namespace: vec![newtype("Location", TypeReference::Path)],
        input: Root::Enum(enumeration("Input", vec![])),
        output: Root::Enum(enumeration("Output", vec![])),
    };
    assert_eq!(
        LegacySchemaIngest::migrate_lowered(&source).err(),
        Some(LegacyIngestError::UnsupportedPath)
    );
}

#[test]
fn a_user_defined_generic_application_is_refused() {
    let source = LoweredSource {
        namespace: vec![newtype(
            "Wrapped",
            TypeReference::SingleTypeApplication {
                projection: legacy::SingleTypeReferenceProjection::Vector,
                argument: Box::new(TypeReference::Application {
                    name: "Box".to_owned(),
                    arguments: vec![TypeReference::Integer],
                }),
            },
        )],
        input: Root::Enum(enumeration("Input", vec![])),
        output: Root::Enum(enumeration("Output", vec![])),
    };
    assert_eq!(
        LegacySchemaIngest::migrate_lowered(&source).err(),
        Some(LegacyIngestError::UnsupportedApplication)
    );
}

#[test]
fn the_first_unsupported_construct_decides_the_error() {
    let source = LoweredSource {
        namespace: vec![newtype(
            "Both",
            TypeReference::MultiTypeApplication {
                projection: legacy::MultiTypeReferenceProjection::MapOf,
                arguments: vec![
                    TypeReference::Application { name: "Box".to_owned(), arguments: vec![] },
                    TypeReference::Path,
                ],
            },
        )],
        input: Root::Application { name: "Stream".to_owned(), arguments: vec![] },
        output: Root::Enum(enumeration("Output", vec![])),
    };
    assert_eq!(
        LegacySchemaIngest::migrate_lowered(&source).err(),
        Some(LegacyIngestError::UnsupportedApplication)
    );
}

#[test]
fn an_application_form_root_is_refused() {
    let source = LoweredSource {
        namespace: vec![newtype("Beat", TypeReference::Integer)],
        input: Root::Enum(enumeration("Input", vec![])),
        output: Root::Application { name: "Stream".to_owned(), arguments: vec![plain("Beat")] },
    };
    assert_eq!(
        LegacySchemaIngest::migrate_lowered(&source).err(),
        Some(LegacyIngestError::UnsupportedInterfaceApplication)
    );
}

#[test]
fn legacy_ingest_errors_read_as_their_messages() {
    assert_eq!(LegacyIngestError::UnsupportedPath.message(), "unsupported legacy Path scalar");
    assert_eq!(
        LegacyIngestError::UnsupportedApplication.message(),
        "unsupported user-defined generic application"
    );
    assert_eq!(
        LegacyIngestError::UnsupportedInterfaceApplication.message(),
        "unsupported application-form interface root"
    );
    assert_eq!(
        LegacyIngestError::Lower("unexpected token".to_owned()).message(),
        "legacy schema lowering: unexpected token"
    );
}

#[test]
fn a_copied_declaration_is_the_same_declaration() {
    let migration = LegacySchemaIngest::migrate_lowered(&shared_min()).expect("legacy ingestion");
    for declaration in &migration.schema.declarations {
        let copy = declaration.duplicate();
        assert_eq!(format!("{copy:?}"), format!("{declaration:?}"));
    }
}

fn reference_ids(reference: &EncodedReference, into: &mut Vec<usize>) {
    match reference {
        EncodedReference::Plain(id) => into.push(id.0),
        EncodedReference::SingleTypeApplication { argument, .. } => reference_ids(argument, into),
        EncodedReference::MultiTypeApplication { arguments, .. } => {
            for argument in arguments {
                reference_ids(argument, into);
            }
        }
        _ => {}
    }
}

#[test]
fn a_migrated_table_holds_only_the_schema_spellings() {
    let source = LoweredSource {
        namespace: vec![
            newtype("Beat", TypeReference::Integer),
            Declaration {
                private: true,
                value: TypeDeclaration::Struct(StructDeclaration {
                    name: "Pulse".to_owned(),
                    fields: vec![
                        FieldDeclaration { name: "beat".to_owned(), reference: plain("Beat") },
                        FieldDeclaration {
                            name: "rest".to_owned(),
                            reference: TypeReference::SingleTypeApplication {
                                projection: legacy::SingleTypeReferenceProjection::Vector,
                                argument: Box::new(plain("Beat")),
                            },
                        },
                    ],
                }),
            },
        ],
        input: Root::Enum(enumeration("Input", vec![variant("Ping", Some(plain("Pulse")))])),
        output: Root::Enum(enumeration("Output", vec![variant("Pong", None)])),
    };
    let migration = LegacySchemaIngest::migrate_lowered(&source).expect("legacy ingestion");
    let mut ids = Vec::new();
    for declaration in &migration.schema.declarations {
        match &declaration.value {
            EncodedType::Newtype(newtype) => {
                ids.push(newtype.identifier.0);
                reference_ids(&newtype.reference, &mut ids);
            }
            EncodedType::Struct(structure) => {
                ids.push(structure.identifier.0);
                for field in &structure.fields {
                    ids.push(field.identifier.0);
                    reference_ids(&field.reference, &mut ids);
                }
            }
            EncodedType::Enumeration(enumeration) => {
                ids.push(enumeration.identifier.0);
                for variant in &enumeration.variants {
                    ids.push(variant.identifier.0);
                    if let Some(payload) = &variant.payload {
                        reference_ids(payload, &mut ids);
                    }
                }
            }
        }
    }
    ids.sort();
    ids.dedup();
    let everything: Vec<usize> = (0..migration.names.len()).collect();
    assert_eq!(ids, everything);
    assert_eq!(migration.names.len(), 8);
}
