//! Legacy ingestion: a lowered legacy source migrated into the stringless encoded
//! form, every spelling interned in parse order into the migration's own name table.

use vstd::prelude::*;

use crate::encoded::{
    data_only, DeclarationRole, EncodedDeclaration, EncodedEnum, EncodedField,
    EncodedNewtype, EncodedReference, EncodedSchema, EncodedStruct, EncodedType, EncodedVariant,
    MultiTypeReferenceProjection, SingleTypeReferenceProjection, ValueReferenceProjection,
    Visibility,
};
use crate::legacy;
use crate::legacy::{
    Declaration, EnumDeclaration, LoweredSource, Root, TypeDeclaration, TypeReference,
    VariantDeclaration, FieldDeclaration, StructDeclaration,
};
use crate::names::{
    binds, extends, intern_all, lemma_intern_all_concat, lemma_intern_all_distinct,
    lemma_intern_all_extends, lemma_intern_all_members, names_distinct, Identifier, NameTable,
};

verus! {

broadcast use vstd::std_specs::vec::group_vec_axioms;

/// A failure of legacy ingestion.
#[derive(Debug, PartialEq, Eq)]
pub enum LegacyIngestError {
    /// The legacy front end could not lower the source; the message says why.
    Lower(String),
    /// The source uses the legacy `Path` scalar.
    UnsupportedPath,
    /// The source applies a user-defined generic type.
    UnsupportedApplication,
    /// A protocol-line root is an application form rather than an enumeration.
    UnsupportedInterfaceApplication,
}

impl LegacyIngestError {
    /// What went wrong, in words.
    pub open spec fn message_text(&self) -> Seq<char> {
        match self {
            LegacyIngestError::Lower(reason) => "legacy schema lowering: "@ + reason@,
            LegacyIngestError::UnsupportedPath => "unsupported legacy Path scalar"@,
            LegacyIngestError::UnsupportedApplication => "unsupported user-defined generic application"@,
            LegacyIngestError::UnsupportedInterfaceApplication => "unsupported application-form interface root"@,
        }
    }

    /// What went wrong, in words.
    pub fn message(&self) -> (text: String)
        ensures
            text@ == self.message_text(),
    {
        match self {
            LegacyIngestError::Lower(reason) => {
                let mut text = String::from_str("legacy schema lowering: ");
                text.append(reason.as_str());
                text
            },
            LegacyIngestError::UnsupportedPath => String::from_str("unsupported legacy Path scalar"),
            LegacyIngestError::UnsupportedApplication => String::from_str(
                "unsupported user-defined generic application",
            ),
            LegacyIngestError::UnsupportedInterfaceApplication => String::from_str(
                "unsupported application-form interface root",
            ),
        }
    }
}

/// The migrated schema and the name table its identifiers resolve through.
pub struct LegacyMigration {
    pub schema: EncodedSchema,
    pub names: NameTable,
}

// ---------------------------------------------------------------------------
// Projections
// ---------------------------------------------------------------------------

pub open spec fn single_projection(
    projection: legacy::SingleTypeReferenceProjection,
) -> SingleTypeReferenceProjection {
    match projection {
        legacy::SingleTypeReferenceProjection::Vector => SingleTypeReferenceProjection::Vector,
        legacy::SingleTypeReferenceProjection::Optional => SingleTypeReferenceProjection::Optional,
        legacy::SingleTypeReferenceProjection::ScopeOf => SingleTypeReferenceProjection::ScopeOf,
    }
}

pub open spec fn multi_projection(
    projection: legacy::MultiTypeReferenceProjection,
) -> MultiTypeReferenceProjection {
    match projection {
        legacy::MultiTypeReferenceProjection::MapOf => MultiTypeReferenceProjection::MapOf,
    }
}

pub open spec fn value_projection(
    projection: legacy::ValueReferenceProjection,
) -> ValueReferenceProjection {
    match projection {
        legacy::ValueReferenceProjection::Bytes => ValueReferenceProjection::Bytes,
    }
}

// ---------------------------------------------------------------------------
// What a migration interns, in order
// ---------------------------------------------------------------------------

/// The spellings a reference interns, in the order it interns them.
pub open spec fn reference_spellings(reference: TypeReference) -> Seq<Seq<char>>
    decreases reference,
{
    match reference {
        TypeReference::Plain(name) => seq![name@],
        TypeReference::SingleTypeApplication { argument, .. } => reference_spellings(*argument),
        TypeReference::MultiTypeApplication { arguments, .. } => references_spellings(arguments@),
        _ => Seq::empty(),
    }
}

/// The spellings a list of references interns, in order.
pub open spec fn references_spellings(references: Seq<TypeReference>) -> Seq<Seq<char>>
    decreases references,
{
    if references.len() == 0 {
        Seq::empty()
    } else {
        references_spellings(references.drop_last()) + reference_spellings(references.last())
    }
}

// ---------------------------------------------------------------------------
// Where a migration fails
// ---------------------------------------------------------------------------

/// The first unsupported construct of a reference, if any.
pub open spec fn reference_error(reference: TypeReference) -> Option<LegacyIngestError>
    decreases reference,
{
    match reference {
        TypeReference::Path => Some(LegacyIngestError::UnsupportedPath),
        TypeReference::Application { .. } => Some(LegacyIngestError::UnsupportedApplication),
        TypeReference::SingleTypeApplication { argument, .. } => reference_error(*argument),
        TypeReference::MultiTypeApplication { arguments, .. } => references_error(arguments@),
        _ => None,
    }
}

/// The first unsupported construct of a list of references, if any.
pub open spec fn references_error(references: Seq<TypeReference>) -> Option<LegacyIngestError>
    decreases references,
{
    if references.len() == 0 {
        None
    } else {
        match references_error(references.drop_last()) {
            Some(error) => Some(error),
            None => reference_error(references.last()),
        }
    }
}

// ---------------------------------------------------------------------------
// What a migrated reference is
// ---------------------------------------------------------------------------

/// `migrated` is `reference` with every spelling replaced by its identifier in `names`.
pub open spec fn reference_matches(
    names: Seq<Seq<char>>,
    migrated: EncodedReference,
    reference: TypeReference,
) -> bool
    decreases reference,
{
    match reference {
        TypeReference::String => migrated is String,
        TypeReference::Integer => migrated is Integer,
        TypeReference::Boolean => migrated is Boolean,
        TypeReference::Bytes => migrated is Bytes,
        TypeReference::Plain(name) => match migrated {
            EncodedReference::Plain(id) => binds(names, id, name@),
            _ => false,
        },
        TypeReference::SingleTypeApplication { projection, argument } => match migrated {
            EncodedReference::SingleTypeApplication { projection: p, argument: a } => p
                == single_projection(projection) && reference_matches(names, *a, *argument),
            _ => false,
        },
        TypeReference::MultiTypeApplication { projection, arguments } => match migrated {
            EncodedReference::MultiTypeApplication { projection: p, arguments: a } => p
                == multi_projection(projection) && a@.len() == arguments@.len() && forall|i: int|
                0 <= i < arguments@.len() ==> reference_matches(names, a@[i], #[trigger] arguments@[i]),
            _ => false,
        },
        TypeReference::ValueApplication { projection, value } => match migrated {
            EncodedReference::ValueApplication { projection: p, value: v } => p
                == value_projection(projection) && v == value,
            _ => false,
        },
        TypeReference::Path => false,
        TypeReference::Application { .. } => false,
    }
}

// ---------------------------------------------------------------------------
// Lists, payloads, declarations and whole sources
// ---------------------------------------------------------------------------

/// The spellings of each item in turn.
pub open spec fn all_spellings<A>(items: Seq<A>, spellings_of: spec_fn(A) -> Seq<Seq<char>>) -> Seq<
    Seq<char>,
>
    decreases items.len(),
{
    if items.len() == 0 {
        Seq::empty()
    } else {
        all_spellings(items.drop_last(), spellings_of) + spellings_of(items.last())
    }
}

/// The first failure among the items, in order.
pub open spec fn first_error<A>(
    items: Seq<A>,
    error_of: spec_fn(A) -> Option<LegacyIngestError>,
) -> Option<LegacyIngestError>
    decreases items.len(),
{
    if items.len() == 0 {
        None
    } else {
        match first_error(items.drop_last(), error_of) {
            Some(error) => Some(error),
            None => error_of(items.last()),
        }
    }
}

pub open spec fn payload_spellings(payload: Option<TypeReference>) -> Seq<Seq<char>> {
    match payload {
        Some(reference) => reference_spellings(reference),
        None => Seq::empty(),
    }
}

pub open spec fn payload_error(payload: Option<TypeReference>) -> Option<LegacyIngestError> {
    match payload {
        Some(reference) => reference_error(reference),
        None => None,
    }
}

pub open spec fn payload_matches(
    names: Seq<Seq<char>>,
    migrated: Option<EncodedReference>,
    payload: Option<TypeReference>,
) -> bool {
    match (migrated, payload) {
        (Some(m), Some(reference)) => reference_matches(names, m, reference),
        (None, None) => true,
        _ => false,
    }
}

/// A variant interns its name, then its payload's spellings.
pub open spec fn variant_spellings(variant: VariantDeclaration) -> Seq<Seq<char>> {
    seq![variant.name@] + payload_spellings(variant.payload)
}

pub open spec fn variants_spellings(variants: Seq<VariantDeclaration>) -> Seq<Seq<char>> {
    all_spellings(variants, |variant: VariantDeclaration| variant_spellings(variant))
}

pub open spec fn variants_error(variants: Seq<VariantDeclaration>) -> Option<LegacyIngestError> {
    first_error(variants, |variant: VariantDeclaration| payload_error(variant.payload))
}

/// A field interns its name, then its reference's spellings.
pub open spec fn field_spellings(field: FieldDeclaration) -> Seq<Seq<char>> {
    seq![field.name@] + reference_spellings(field.reference)
}

pub open spec fn fields_spellings(fields: Seq<FieldDeclaration>) -> Seq<Seq<char>> {
    all_spellings(fields, |field: FieldDeclaration| field_spellings(field))
}

pub open spec fn fields_error(fields: Seq<FieldDeclaration>) -> Option<LegacyIngestError> {
    first_error(fields, |field: FieldDeclaration| reference_error(field.reference))
}

/// An enumeration interns its variants, then its own name.
pub open spec fn enumeration_spellings(enumeration: EnumDeclaration) -> Seq<Seq<char>> {
    variants_spellings(enumeration.variants@).push(enumeration.name@)
}

/// `migrated` is the variant with every spelling replaced by its identifier.
pub open spec fn variant_matches(
    names: Seq<Seq<char>>,
    migrated: EncodedVariant,
    variant: VariantDeclaration,
) -> bool {
    binds(names, migrated.identifier, variant.name@) && payload_matches(
        names,
        migrated.payload,
        variant.payload,
    )
}

/// `migrated` is the field with every spelling replaced by its identifier.
pub open spec fn field_matches(
    names: Seq<Seq<char>>,
    migrated: EncodedField,
    field: FieldDeclaration,
) -> bool {
    binds(names, migrated.identifier, field.name@) && reference_matches(
        names,
        migrated.reference,
        field.reference,
    )
}

/// `migrated` is the enumeration with every spelling replaced by its identifier.
pub open spec fn enumeration_matches(
    names: Seq<Seq<char>>,
    migrated: EncodedType,
    enumeration: EnumDeclaration,
) -> bool {
    match migrated {
        EncodedType::Enumeration(m) => {
            &&& binds(names, m.identifier, enumeration.name@)
            &&& m.variants@.len() == enumeration.variants@.len()
            &&& forall|i: int|
                0 <= i < m.variants@.len() ==> variant_matches(
                    names,
                    #[trigger] m.variants@[i],
                    enumeration.variants@[i],
                )
        },
        _ => false,
    }
}

/// `migrated` is the struct with every spelling replaced by its identifier.
pub open spec fn struct_matches(
    names: Seq<Seq<char>>,
    migrated: EncodedType,
    name: Seq<char>,
    fields: Seq<FieldDeclaration>,
) -> bool {
    match migrated {
        EncodedType::Struct(m) => {
            &&& binds(names, m.identifier, name)
            &&& m.fields@.len() == fields.len()
            &&& forall|i: int|
                0 <= i < m.fields@.len() ==> field_matches(names, #[trigger] m.fields@[i], fields[i])
        },
        _ => false,
    }
}

pub open spec fn type_matches(names: Seq<Seq<char>>, migrated: EncodedType, value: TypeDeclaration) -> bool {
    match value {
        TypeDeclaration::Newtype(newtype) => match migrated {
            EncodedType::Newtype(m) => binds(names, m.identifier, newtype.name@) && reference_matches(
                names,
                m.reference,
                newtype.reference,
            ),
            _ => false,
        },
        TypeDeclaration::Struct(structure) => struct_matches(
            names,
            migrated,
            structure.name@,
            structure.fields@,
        ),
        TypeDeclaration::Enum(enumeration) => enumeration_matches(names, migrated, enumeration),
    }
}

/// The visibility a legacy declaration migrates to.
pub open spec fn declared_visibility(declaration: Declaration) -> Visibility {
    if declaration.private {
        Visibility::Private
    } else {
        Visibility::Public
    }
}

/// `migrated` is the data-type declaration `declaration`, names replaced by identifiers.
pub open spec fn declaration_matches(
    names: Seq<Seq<char>>,
    migrated: EncodedDeclaration,
    declaration: Declaration,
) -> bool {
    &&& migrated.role == DeclarationRole::DataType
    &&& migrated.visibility == declared_visibility(declaration)
    &&& type_matches(names, migrated.value, declaration.value)
}

/// A newtype interns its name, then its reference; a struct its fields, then its name;
/// an enumeration its variants, then its name.
pub open spec fn declaration_spellings(declaration: Declaration) -> Seq<Seq<char>> {
    match declaration.value {
        TypeDeclaration::Newtype(newtype) => seq![newtype.name@] + reference_spellings(
            newtype.reference,
        ),
        TypeDeclaration::Struct(structure) => fields_spellings(structure.fields@).push(
            structure.name@,
        ),
        TypeDeclaration::Enum(enumeration) => enumeration_spellings(enumeration),
    }
}

pub open spec fn declaration_error(declaration: Declaration) -> Option<LegacyIngestError> {
    match declaration.value {
        TypeDeclaration::Newtype(newtype) => reference_error(newtype.reference),
        TypeDeclaration::Struct(structure) => fields_error(structure.fields@),
        TypeDeclaration::Enum(enumeration) => variants_error(enumeration.variants@),
    }
}

pub open spec fn declarations_spellings(declarations: Seq<Declaration>) -> Seq<Seq<char>> {
    all_spellings(declarations, |declaration: Declaration| declaration_spellings(declaration))
}

pub open spec fn declarations_error(declarations: Seq<Declaration>) -> Option<LegacyIngestError> {
    first_error(declarations, |declaration: Declaration| declaration_error(declaration))
}

/// `migrated` is the protocol-line root carrying `role`.
pub open spec fn interface_matches(
    names: Seq<Seq<char>>,
    migrated: EncodedDeclaration,
    root: Root,
    role: DeclarationRole,
) -> bool {
    match root {
        Root::Enum(enumeration) => {
            &&& migrated.role == role
            &&& migrated.visibility == Visibility::Public
            &&& enumeration_matches(names, migrated.value, enumeration)
        },
        Root::Application { .. } => false,
    }
}

pub open spec fn root_spellings(root: Root) -> Seq<Seq<char>> {
    match root {
        Root::Enum(enumeration) => enumeration_spellings(enumeration),
        Root::Application { .. } => Seq::empty(),
    }
}

pub open spec fn root_error(root: Root) -> Option<LegacyIngestError> {
    match root {
        Root::Enum(enumeration) => variants_error(enumeration.variants@),
        Root::Application { .. } => Some(LegacyIngestError::UnsupportedInterfaceApplication),
    }
}

/// Everything a source interns, in order: its namespace, then its input and output roots.
pub open spec fn source_spellings(source: LoweredSource) -> Seq<Seq<char>> {
    declarations_spellings(source.namespace@) + root_spellings(source.input) + root_spellings(
        source.output,
    )
}

/// The first failure of a source's migration, in order.
pub open spec fn source_error(source: LoweredSource) -> Option<LegacyIngestError> {
    match declarations_error(source.namespace@) {
        Some(error) => Some(error),
        None => match root_error(source.input) {
            Some(error) => Some(error),
            None => root_error(source.output),
        },
    }
}

/// `declarations` is the migrated source: its namespace declarations in order, then the
/// input root and the output root, each carrying its interface role.
pub open spec fn migration_matches(
    names: Seq<Seq<char>>,
    declarations: Seq<EncodedDeclaration>,
    source: LoweredSource,
) -> bool {
    let n = source.namespace@.len();
    &&& declarations.len() == n + 2
    &&& forall|i: int|
        0 <= i < n ==> declaration_matches(names, #[trigger] declarations[i], source.namespace@[i])
    &&& interface_matches(names, declarations[n as int], source.input, DeclarationRole::InterfaceInput)
    &&& interface_matches(
        names,
        declarations[n + 1 as int],
        source.output,
        DeclarationRole::InterfaceOutput,
    )
}

// ---------------------------------------------------------------------------
// Lemmas
// ---------------------------------------------------------------------------

/// A migrated reference keeps its meaning when the table only grows.
pub proof fn lemma_reference_matches_extends(
    names: Seq<Seq<char>>,
    grown: Seq<Seq<char>>,
    migrated: EncodedReference,
    reference: TypeReference,
)
    requires
        extends(grown, names),
        reference_matches(names, migrated, reference),
    ensures
        reference_matches(grown, migrated, reference),
    decreases reference,
{
    match reference {
        TypeReference::Plain(name) => {
            if let EncodedReference::Plain(id) = migrated {
                assert(grown[id.0 as int] == names[id.0 as int]);
            }
        },
        TypeReference::SingleTypeApplication { projection, argument } => {
            if let EncodedReference::SingleTypeApplication { projection: p, argument: a } = migrated {
                lemma_reference_matches_extends(names, grown, *a, *argument);
            }
        },
        TypeReference::MultiTypeApplication { projection, arguments } => {
            if let EncodedReference::MultiTypeApplication { projection: p, arguments: a } = migrated {
                assert forall|i: int| 0 <= i < arguments@.len() implies reference_matches(
                    grown,
                    a@[i],
                    #[trigger] arguments@[i],
                ) by {
                    lemma_reference_matches_extends(names, grown, a@[i], arguments@[i]);
                }
            }
        },
        _ => {},
    }
}

/// The first unsupported construct of a prefix is the first of the whole list.
pub proof fn lemma_references_error_prefix(references: Seq<TypeReference>, k: int)
    requires
        0 <= k <= references.len(),
        references_error(references.take(k)) is Some,
    ensures
        references_error(references) == references_error(references.take(k)),
    decreases references.len() - k,
{
    if k < references.len() {
        let next = references.take(k + 1);
        assert(next.drop_last() =~= references.take(k));
        lemma_references_error_prefix(references, k + 1);
    } else {
        assert(references.take(k) =~= references);
    }
}

/// The first failure of a prefix is the first failure of the whole list.
pub proof fn lemma_first_error_prefix<A>(
    items: Seq<A>,
    error_of: spec_fn(A) -> Option<LegacyIngestError>,
    k: int,
)
    requires
        0 <= k <= items.len(),
        first_error(items.take(k), error_of) is Some,
    ensures
        first_error(items, error_of) == first_error(items.take(k), error_of),
    decreases items.len() - k,
{
    if k < items.len() {
        assert(items.take(k + 1).drop_last() =~= items.take(k));
        lemma_first_error_prefix(items, error_of, k + 1);
    } else {
        assert(items.take(k) =~= items);
    }
}

/// A migrated payload keeps its meaning when the table only grows.
pub proof fn lemma_payload_matches_extends(
    names: Seq<Seq<char>>,
    grown: Seq<Seq<char>>,
    migrated: Option<EncodedReference>,
    payload: Option<TypeReference>,
)
    requires
        extends(grown, names),
        payload_matches(names, migrated, payload),
    ensures
        payload_matches(grown, migrated, payload),
{
    if let (Some(m), Some(reference)) = (migrated, payload) {
        lemma_reference_matches_extends(names, grown, m, reference);
    }
}

/// A migrated enumeration keeps its meaning when the table only grows.
pub proof fn lemma_enumeration_matches_extends(
    names: Seq<Seq<char>>,
    grown: Seq<Seq<char>>,
    migrated: EncodedType,
    enumeration: EnumDeclaration,
)
    requires
        extends(grown, names),
        enumeration_matches(names, migrated, enumeration),
    ensures
        enumeration_matches(grown, migrated, enumeration),
{
    if let EncodedType::Enumeration(m) = migrated {
        assert(grown[m.identifier.0 as int] == names[m.identifier.0 as int]);
        assert forall|i: int| 0 <= i < m.variants@.len() implies variant_matches(
            grown,
            #[trigger] m.variants@[i],
            enumeration.variants@[i],
        ) by {
            assert(grown[m.variants@[i].identifier.0 as int] == names[m.variants@[i].identifier.0 as int]);
            lemma_payload_matches_extends(
                names,
                grown,
                m.variants@[i].payload,
                enumeration.variants@[i].payload,
            );
        }
    }
}

/// A migrated declaration body keeps its meaning when the table only grows.
pub proof fn lemma_type_matches_extends(
    names: Seq<Seq<char>>,
    grown: Seq<Seq<char>>,
    migrated: EncodedType,
    value: TypeDeclaration,
)
    requires
        extends(grown, names),
        type_matches(names, migrated, value),
    ensures
        type_matches(grown, migrated, value),
{
    match value {
        TypeDeclaration::Newtype(newtype) => {
            if let EncodedType::Newtype(m) = migrated {
                assert(grown[m.identifier.0 as int] == names[m.identifier.0 as int]);
                lemma_reference_matches_extends(names, grown, m.reference, newtype.reference);
            }
        },
        TypeDeclaration::Struct(structure) => {
            if let EncodedType::Struct(m) = migrated {
                assert(grown[m.identifier.0 as int] == names[m.identifier.0 as int]);
                assert forall|i: int| 0 <= i < m.fields@.len() implies field_matches(
                    grown,
                    #[trigger] m.fields@[i],
                    structure.fields@[i],
                ) by {
                    assert(grown[m.fields@[i].identifier.0 as int] == names[m.fields@[i].identifier.0 as int]);
                    lemma_reference_matches_extends(
                        names,
                        grown,
                        m.fields@[i].reference,
                        structure.fields@[i].reference,
                    );
                }
            }
        },
        TypeDeclaration::Enum(enumeration) => {
            lemma_enumeration_matches_extends(names, grown, migrated, enumeration);
        },
    }
}

impl LegacySchemaIngest {
    fn intern(&mut self, spelling: &String) -> (id: crate::names::Identifier)
        requires
            old(self).names.wf(),
        ensures
            final(self).names.wf(),
            final(self).names@ == intern_all(old(self).names@, seq![spelling@]),
            binds(final(self).names@, id, spelling@),
    {
        let ghost start = self.names@;
        let id = self.names.intern(spelling);
        assert(seq![spelling@].drop_last() =~= Seq::<Seq<char>>::empty());
        assert(intern_all(start, Seq::<Seq<char>>::empty()) == start);
        assert(seq![spelling@].last() == spelling@);
        id
    }

    #[verifier::loop_isolation(false)]
    fn migrate_reference(&mut self, reference: &TypeReference) -> (migrated: Result<
        EncodedReference,
        LegacyIngestError,
    >)
        requires
            old(self).names.wf(),
        ensures
            final(self).names.wf(),
            extends(final(self).names@, old(self).names@),
            match migrated {
                Ok(m) => reference_error(*reference) is None && final(self).names@ == intern_all(
                    old(self).names@,
                    reference_spellings(*reference),
                ) && reference_matches(final(self).names@, m, *reference),
                Err(e) => reference_error(*reference) == Some(e),
            },
            (*reference is Path || *reference is Application) ==> final(self).names@ == old(
                self,
            ).names@,
        decreases reference,
    {
        let ghost start = self.names@;
        proof {
            lemma_intern_all_extends(start, reference_spellings(*reference));
        }
        match reference {
            TypeReference::String => Ok(EncodedReference::String),
            TypeReference::Integer => Ok(EncodedReference::Integer),
            TypeReference::Boolean => Ok(EncodedReference::Boolean),
            TypeReference::Bytes => Ok(EncodedReference::Bytes),
            TypeReference::Path => Err(LegacyIngestError::UnsupportedPath),
            TypeReference::Plain(name) => {
                let id = self.intern(name);
                Ok(EncodedReference::Plain(id))
            },
            TypeReference::SingleTypeApplication { projection, argument } => {
                let projection = match projection {
                    legacy::SingleTypeReferenceProjection::Vector => {
                        SingleTypeReferenceProjection::Vector
                    },
                    legacy::SingleTypeReferenceProjection::Optional => {
                        SingleTypeReferenceProjection::Optional
                    },
                    legacy::SingleTypeReferenceProjection::ScopeOf => {
                        SingleTypeReferenceProjection::ScopeOf
                    },
                };
                match self.migrate_reference(argument) {
                    Ok(argument) => Ok(
                        EncodedReference::SingleTypeApplication {
                            projection,
                            argument: Box::new(argument),
                        },
                    ),
                    Err(error) => Err(error),
                }
            },
            TypeReference::MultiTypeApplication { projection, arguments } => {
                let projection = match projection {
                    legacy::MultiTypeReferenceProjection::MapOf => {
                        MultiTypeReferenceProjection::MapOf
                    },
                };
                let mut migrated: Vec<EncodedReference> = Vec::new();
                let mut i: usize = 0;
                while i < arguments.len()
                    invariant
                        i <= arguments@.len(),
                        self.names.wf(),
                        extends(self.names@, start),
                        references_error(arguments@.take(i as int)) is None,
                        self.names@ == intern_all(
                            start,
                            references_spellings(arguments@.take(i as int)),
                        ),
                        migrated@.len() == i,
                        forall|k: int|
                            0 <= k < i ==> reference_matches(
                                self.names@,
                                #[trigger] migrated@[k],
                                arguments@[k],
                            ),
                    decreases arguments@.len() - i,
                {
                    let ghost before = self.names@;
                    assert(arguments@.take(i + 1).drop_last() =~= arguments@.take(i as int));
                    proof {
                        assert(decreases_to!(*reference => arguments@[i as int]));
                    }
                    match self.migrate_reference(&arguments[i]) {
                        Ok(argument) => {
                            proof {
                                assert forall|k: int| 0 <= k < i implies reference_matches(
                                    self.names@,
                                    #[trigger] migrated@[k],
                                    arguments@[k],
                                ) by {
                                    lemma_reference_matches_extends(
                                        before,
                                        self.names@,
                                        migrated@[k],
                                        arguments@[k],
                                    );
                                }
                                lemma_intern_all_concat(
                                    start,
                                    references_spellings(arguments@.take(i as int)),
                                    reference_spellings(arguments@[i as int]),
                                );
                            }
                            migrated.push(argument);
                            i += 1;
                        },
                        Err(error) => {
                            proof {
                                lemma_references_error_prefix(arguments@, i + 1);
                                assert forall|k: int| 0 <= k < start.len() implies #[trigger] self.names@[k] == start[k] by {
                                    assert(before[k] == start[k]);
                                }
                            }
                            return Err(error);
                        },
                    }
                }
                assert(arguments@.take(i as int) =~= arguments@);
                Ok(EncodedReference::MultiTypeApplication { projection, arguments: migrated })
            },
            TypeReference::ValueApplication { projection, value } => {
                let projection = match projection {
                    legacy::ValueReferenceProjection::Bytes => ValueReferenceProjection::Bytes,
                };
                Ok(EncodedReference::ValueApplication { projection, value: *value })
            },
            TypeReference::Application { .. } => Err(LegacyIngestError::UnsupportedApplication),
        }
    }
}

impl LegacySchemaIngest {
    #[verifier::loop_isolation(false)]
    fn migrate_enumeration(&mut self, enumeration: &EnumDeclaration) -> (migrated: Result<
        EncodedType,
        LegacyIngestError,
    >)
        requires
            old(self).names.wf(),
        ensures
            final(self).names.wf(),
            extends(final(self).names@, old(self).names@),
            match migrated {
                Ok(m) => variants_error(enumeration.variants@) is None && final(self).names@
                    == intern_all(old(self).names@, enumeration_spellings(*enumeration))
                    && enumeration_matches(final(self).names@, m, *enumeration),
                Err(e) => variants_error(enumeration.variants@) == Some(e),
            },
    {
        let ghost start = self.names@;
        let ghost all = enumeration.variants@;
        let mut variants: Vec<EncodedVariant> = Vec::new();
        let mut i: usize = 0;
        while i < enumeration.variants.len()
            invariant
                i <= all.len(),
                self.names.wf(),
                extends(self.names@, start),
                variants_error(all.take(i as int)) is None,
                self.names@ == intern_all(start, variants_spellings(all.take(i as int))),
                variants@.len() == i,
                forall|k: int|
                    0 <= k < i ==> variant_matches(self.names@, #[trigger] variants@[k], all[k]),
            decreases all.len() - i,
        {
            let variant = &enumeration.variants[i];
            let ghost before = self.names@;
            assert(all.take(i + 1).drop_last() =~= all.take(i as int));
            let identifier = self.intern(&variant.name);
            let ghost named = self.names@;
            let payload = match &variant.payload {
                Some(reference) => match self.migrate_reference(reference) {
                    Ok(migrated) => Some(migrated),
                    Err(error) => {
                        proof {
                            lemma_first_error_prefix(
                                all,
                                |variant: VariantDeclaration| payload_error(variant.payload),
                                i + 1,
                            );
                            lemma_intern_all_extends(before, seq![variant.name@]);
                            assert forall|k: int| 0 <= k < start.len() implies #[trigger] self.names@[k]
                                == start[k] by {
                                assert(before[k] == start[k]);
                                assert(named[k] == before[k]);
                            }
                        }
                        return Err(error);
                    },
                },
                None => None,
            };
            proof {
                lemma_intern_all_extends(before, seq![variant.name@]);
                lemma_intern_all_extends(named, payload_spellings(variant.payload));
                lemma_intern_all_concat(start, variants_spellings(all.take(i as int)), seq![variant.name@]);
                lemma_intern_all_concat(
                    start,
                    variants_spellings(all.take(i as int)) + seq![variant.name@],
                    payload_spellings(variant.payload),
                );
                assert(variants_spellings(all.take(i as int)) + seq![variant.name@]
                    + payload_spellings(variant.payload) =~= variants_spellings(all.take(i + 1)));
                assert forall|k: int| 0 <= k < i implies variant_matches(
                    self.names@,
                    #[trigger] variants@[k],
                    all[k],
                ) by {
                    lemma_intern_all_extends(before, seq![variant.name@] + payload_spellings(variant.payload));
                    lemma_intern_all_concat(before, seq![variant.name@], payload_spellings(variant.payload));
                    assert(self.names@[variants@[k].identifier.0 as int] == before[variants@[k].identifier.0 as int]);
                    lemma_payload_matches_extends(before, self.names@, variants@[k].payload, all[k].payload);
                }
                assert(self.names@[identifier.0 as int] == named[identifier.0 as int]);
                assert forall|k: int| 0 <= k < start.len() implies #[trigger] self.names@[k] == start[k] by {
                    assert(before[k] == start[k]);
                    assert(named[k] == before[k]);
                }
            }
            variants.push(EncodedVariant { identifier, payload });
            i += 1;
        }
        assert(all.take(i as int) =~= all);
        let ghost before = self.names@;
        let identifier = self.intern(&enumeration.name);
        proof {
            lemma_intern_all_extends(before, seq![enumeration.name@]);
            lemma_intern_all_concat(start, variants_spellings(all), seq![enumeration.name@]);
            assert(variants_spellings(all) + seq![enumeration.name@] =~= enumeration_spellings(
                *enumeration,
            ));
            assert forall|k: int| 0 <= k < i implies variant_matches(
                self.names@,
                #[trigger] variants@[k],
                all[k],
            ) by {
                assert(self.names@[variants@[k].identifier.0 as int] == before[variants@[k].identifier.0 as int]);
                lemma_payload_matches_extends(before, self.names@, variants@[k].payload, all[k].payload);
            }
            assert forall|k: int| 0 <= k < start.len() implies #[trigger] self.names@[k] == start[k] by {
                assert(before[k] == start[k]);
            }
        }
        Ok(EncodedType::Enumeration(EncodedEnum { identifier, variants }))
    }
}

impl LegacySchemaIngest {
    #[verifier::loop_isolation(false)]
    fn migrate_struct(&mut self, structure: &StructDeclaration) -> (migrated: Result<
        EncodedType,
        LegacyIngestError,
    >)
        requires
            old(self).names.wf(),
        ensures
            final(self).names.wf(),
            extends(final(self).names@, old(self).names@),
            match migrated {
                Ok(m) => fields_error(structure.fields@) is None && final(self).names@
                    == intern_all(
                    old(self).names@,
                    fields_spellings(structure.fields@).push(structure.name@),
                ) && struct_matches(final(self).names@, m, structure.name@, structure.fields@),
                Err(e) => fields_error(structure.fields@) == Some(e),
            },
    {
        let ghost start = self.names@;
        let ghost all = structure.fields@;
        let mut fields: Vec<EncodedField> = Vec::new();
        let mut i: usize = 0;
        while i < structure.fields.len()
            invariant
                i <= all.len(),
                self.names.wf(),
                extends(self.names@, start),
                fields_error(all.take(i as int)) is None,
                self.names@ == intern_all(start, fields_spellings(all.take(i as int))),
                fields@.len() == i,
                forall|k: int|
                    0 <= k < i ==> field_matches(self.names@, #[trigger] fields@[k], all[k]),
            decreases all.len() - i,
        {
            let field = &structure.fields[i];
            let ghost before = self.names@;
            assert(all.take(i + 1).drop_last() =~= all.take(i as int));
            let identifier = self.intern(&field.name);
            let ghost named = self.names@;
            let reference = match self.migrate_reference(&field.reference) {
                Ok(migrated) => migrated,
                Err(error) => {
                    proof {
                        lemma_first_error_prefix(
                            all,
                            |field: FieldDeclaration| reference_error(field.reference),
                            i + 1,
                        );
                        lemma_intern_all_extends(before, seq![field.name@]);
                        assert forall|k: int| 0 <= k < start.len() implies #[trigger] self.names@[k]
                            == start[k] by {
                            assert(before[k] == start[k]);
                            assert(named[k] == before[k]);
                        }
                    }
                    return Err(error);
                },
            };
            proof {
                lemma_intern_all_extends(before, seq![field.name@]);
                lemma_intern_all_concat(start, fields_spellings(all.take(i as int)), seq![field.name@]);
                lemma_intern_all_concat(
                    start,
                    fields_spellings(all.take(i as int)) + seq![field.name@],
                    reference_spellings(field.reference),
                );
                assert(fields_spellings(all.take(i as int)) + seq![field.name@]
                    + reference_spellings(field.reference) =~= fields_spellings(all.take(i + 1)));
                assert forall|k: int| 0 <= k < i implies field_matches(
                    self.names@,
                    #[trigger] fields@[k],
                    all[k],
                ) by {
                    assert(self.names@[fields@[k].identifier.0 as int] == named[fields@[k].identifier.0 as int]);
                    assert(named[fields@[k].identifier.0 as int] == before[fields@[k].identifier.0 as int]);
                    lemma_reference_matches_extends(before, named, fields@[k].reference, all[k].reference);
                    lemma_reference_matches_extends(named, self.names@, fields@[k].reference, all[k].reference);
                }
                assert(self.names@[identifier.0 as int] == named[identifier.0 as int]);
                assert forall|k: int| 0 <= k < start.len() implies #[trigger] self.names@[k] == start[k] by {
                    assert(before[k] == start[k]);
                    assert(named[k] == before[k]);
                }
            }
            fields.push(EncodedField { identifier, reference });
            i += 1;
        }
        assert(all.take(i as int) =~= all);
        let ghost before = self.names@;
        let identifier = self.intern(&structure.name);
        proof {
            lemma_intern_all_extends(before, seq![structure.name@]);
            lemma_intern_all_concat(start, fields_spellings(all), seq![structure.name@]);
            assert(fields_spellings(all) + seq![structure.name@] =~= fields_spellings(all).push(
                structure.name@,
            ));
            assert forall|k: int| 0 <= k < i implies field_matches(
                self.names@,
                #[trigger] fields@[k],
                all[k],
            ) by {
                assert(self.names@[fields@[k].identifier.0 as int] == before[fields@[k].identifier.0 as int]);
                lemma_reference_matches_extends(before, self.names@, fields@[k].reference, all[k].reference);
            }
            assert forall|k: int| 0 <= k < start.len() implies #[trigger] self.names@[k] == start[k] by {
                assert(before[k] == start[k]);
            }
        }
        Ok(EncodedType::Struct(EncodedStruct { identifier, fields }))
    }

    fn migrate_declaration(&mut self, declaration: &Declaration) -> (migrated: Result<
        EncodedDeclaration,
        LegacyIngestError,
    >)
        requires
            old(self).names.wf(),
        ensures
            final(self).names.wf(),
            extends(final(self).names@, old(self).names@),
            match migrated {
                Ok(m) => declaration_error(*declaration) is None && final(self).names@
                    == intern_all(old(self).names@, declaration_spellings(*declaration))
                    && declaration_matches(final(self).names@, m, *declaration),
                Err(e) => declaration_error(*declaration) == Some(e),
            },
    {
        let ghost start = self.names@;
        let value = match &declaration.value {
            TypeDeclaration::Newtype(newtype) => {
                let identifier = self.intern(&newtype.name);
                let ghost named = self.names@;
                match self.migrate_reference(&newtype.reference) {
                    Ok(reference) => {
                        proof {
                            lemma_intern_all_extends(start, seq![newtype.name@]);
                            lemma_intern_all_concat(
                                start,
                                seq![newtype.name@],
                                reference_spellings(newtype.reference),
                            );
                            assert(self.names@[identifier.0 as int] == named[identifier.0 as int]);
                        }
                        EncodedType::Newtype(EncodedNewtype { identifier, reference })
                    },
                    Err(error) => {
                        proof {
                            lemma_intern_all_extends(start, seq![newtype.name@]);
                            assert forall|k: int| 0 <= k < start.len() implies #[trigger] self.names@[k]
                                == start[k] by {
                                assert(named[k] == start[k]);
                            }
                        }
                        return Err(error);
                    },
                }
            },
            TypeDeclaration::Struct(structure) => match self.migrate_struct(structure) {
                Ok(value) => value,
                Err(error) => return Err(error),
            },
            TypeDeclaration::Enum(enumeration) => match self.migrate_enumeration(enumeration) {
                Ok(value) => value,
                Err(error) => return Err(error),
            },
        };
        proof {
            lemma_intern_all_extends(start, declaration_spellings(*declaration));
        }
        let visibility = if declaration.is_private() {
            Visibility::Private
        } else {
            Visibility::Public
        };
        Ok(EncodedDeclaration::new(visibility, value))
    }

    fn migrate_interface(&mut self, root: &Root, role: DeclarationRole) -> (migrated: Result<
        EncodedDeclaration,
        LegacyIngestError,
    >)
        requires
            old(self).names.wf(),
        ensures
            final(self).names.wf(),
            extends(final(self).names@, old(self).names@),
            match migrated {
                Ok(m) => root_error(*root) is None && final(self).names@ == intern_all(
                    old(self).names@,
                    root_spellings(*root),
                ) && interface_matches(final(self).names@, m, *root, role),
                Err(e) => root_error(*root) == Some(e),
            },
            *root is Application ==> final(self).names@ == old(self).names@,
    {
        let enumeration = match root.as_enum() {
            Some(enumeration) => enumeration,
            None => {
                proof {
                    assert(extends(self.names@, old(self).names@));
                }
                return Err(LegacyIngestError::UnsupportedInterfaceApplication);
            },
        };
        match self.migrate_enumeration(enumeration) {
            Ok(value) => Ok(EncodedDeclaration::interface(role, value)),
            Err(error) => Err(error),
        }
    }
}

impl LegacySchemaIngest {
    /// Migrates a lowered legacy source: each namespace declaration in order, then the
    /// input root and the output root as role-tagged interface declarations, every
    /// spelling interned in parse order into a fresh name table.
    #[verifier::loop_isolation(false)]
    pub fn migrate_lowered(source: &LoweredSource) -> (migration: Result<
        LegacyMigration,
        LegacyIngestError,
    >)
        ensures
            match migration {
                Ok(m) => {
                    &&& source_error(*source) is None
                    &&& m.names.wf()
                    &&& m.names@ == intern_all(Seq::empty(), source_spellings(*source))
                    &&& migration_matches(m.names@, m.schema.declarations@, *source)
                },
                Err(e) => source_error(*source) == Some(e),
            },
    {
        let mut ingest = LegacySchemaIngest { names: NameTable::new() };
        let ghost start = ingest.names@;
        let ghost all = source.namespace@;
        let mut declarations: Vec<EncodedDeclaration> = Vec::new();
        let mut i: usize = 0;
        while i < source.namespace.len()
            invariant
                i <= all.len(),
                ingest.names.wf(),
                declarations_error(all.take(i as int)) is None,
                ingest.names@ == intern_all(start, declarations_spellings(all.take(i as int))),
                declarations@.len() == i,
                forall|k: int|
                    0 <= k < i ==> declaration_matches(
                        ingest.names@,
                        #[trigger] declarations@[k],
                        all[k],
                    ),
            decreases all.len() - i,
        {
            let ghost before = ingest.names@;
            assert(all.take(i + 1).drop_last() =~= all.take(i as int));
            match ingest.migrate_declaration(&source.namespace[i]) {
                Ok(declaration) => {
                    proof {
                        lemma_intern_all_concat(
                            start,
                            declarations_spellings(all.take(i as int)),
                            declaration_spellings(all[i as int]),
                        );
                        assert forall|k: int| 0 <= k < i implies declaration_matches(
                            ingest.names@,
                            #[trigger] declarations@[k],
                            all[k],
                        ) by {
                            lemma_type_matches_extends(
                                before,
                                ingest.names@,
                                declarations@[k].value,
                                all[k].value,
                            );
                        }
                    }
                    declarations.push(declaration);
                    i += 1;
                },
                Err(error) => {
                    proof {
                        lemma_first_error_prefix(
                            all,
                            |declaration: Declaration| declaration_error(declaration),
                            i + 1,
                        );
                    }
                    return Err(error);
                },
            }
        }
        assert(all.take(i as int) =~= all);
        let n = i;
        let roots = source.input_and_output();
        let ghost after_namespace = ingest.names@;
        let input = match ingest.migrate_interface(roots[0], DeclarationRole::InterfaceInput) {
            Ok(input) => input,
            Err(error) => return Err(error),
        };
        let ghost after_input = ingest.names@;
        let output = match ingest.migrate_interface(roots[1], DeclarationRole::InterfaceOutput) {
            Ok(output) => output,
            Err(error) => return Err(error),
        };
        proof {
            lemma_intern_all_concat(
                start,
                declarations_spellings(all),
                root_spellings(source.input),
            );
            lemma_intern_all_concat(
                start,
                declarations_spellings(all) + root_spellings(source.input),
                root_spellings(source.output),
            );
            assert forall|k: int| 0 <= k < n implies declaration_matches(
                ingest.names@,
                #[trigger] declarations@[k],
                all[k],
            ) by {
                lemma_type_matches_extends(
                    after_namespace,
                    after_input,
                    declarations@[k].value,
                    all[k].value,
                );
                lemma_type_matches_extends(
                    after_input,
                    ingest.names@,
                    declarations@[k].value,
                    all[k].value,
                );
            }
            let ghost input_root = source.input;
            if let Root::Enum(enumeration) = input_root {
                lemma_enumeration_matches_extends(
                    after_input,
                    ingest.names@,
                    input.value,
                    enumeration,
                );
            }
        }
        declarations.push(input);
        declarations.push(output);
        proof {
            assert forall|k: int| 0 <= k < n implies declaration_matches(
                ingest.names@,
                #[trigger] declarations@[k],
                all[k],
            ) by {
                assert(declarations@[k] == declarations@.take(n as int)[k]);
            }
        }
        Ok(LegacyMigration { schema: EncodedSchema::new(declarations), names: ingest.names })
    }
}

/// A list of data-type declarations is its own data-type part.
pub proof fn lemma_data_only_of_data(declarations: Seq<EncodedDeclaration>)
    requires
        forall|i: int|
            0 <= i < declarations.len() ==> #[trigger] declarations[i].role
                == DeclarationRole::DataType,
    ensures
        data_only(declarations) == declarations,
    decreases declarations.len(),
{
    if declarations.len() > 0 {
        lemma_data_only_of_data(declarations.drop_last());
        assert(declarations.drop_last().push(declarations.last()) =~= declarations);
    }
}

/// A migration tags exactly its two protocol-line roots as interface roots, input then
/// output, and leaves every namespace declaration a plain data type: its data-type
/// declarations are exactly the migrated namespace, in order.
pub proof fn lemma_migration_tags_interface_roots(
    names: Seq<Seq<char>>,
    declarations: Seq<EncodedDeclaration>,
    source: LoweredSource,
)
    requires
        migration_matches(names, declarations, source),
    ensures
        declarations[source.namespace@.len() as int].role == DeclarationRole::InterfaceInput,
        declarations[source.namespace@.len() + 1 as int].role == DeclarationRole::InterfaceOutput,
        data_only(declarations) == declarations.take(source.namespace@.len() as int),
        data_only(declarations).len() == declarations.len() - 2,
{
    let n = source.namespace@.len() as int;
    let data = declarations.take(n);
    assert forall|i: int| 0 <= i < data.len() implies #[trigger] data[i].role
        == DeclarationRole::DataType by {
        assert(declaration_matches(names, declarations[i], source.namespace@[i]));
    }
    lemma_data_only_of_data(data);
    assert(declarations.drop_last() =~= declarations.take(n + 1));
    assert(declarations.take(n + 1).drop_last() =~= data);
    assert(declarations.last() == declarations[n + 1]);
    assert(data_only(declarations) == data_only(declarations.drop_last()));
    assert(declarations.take(n + 1).last() == declarations[n]);
    assert(data_only(declarations.take(n + 1)) == data_only(data));
}

// ---------------------------------------------------------------------------
// The identifiers a migrated schema holds
// ---------------------------------------------------------------------------

/// The spelling each identifier names in `names`, or `None` where it names nothing.
pub open spec fn spelled(names: Seq<Seq<char>>, ids: Seq<Identifier>) -> Seq<Option<Seq<char>>> {
    ids.map_values(
        |id: Identifier|
            if id.0 < names.len() {
                Some(names[id.0 as int])
            } else {
                None
            },
    )
}

/// Each spelling, present.
pub open spec fn present(spellings: Seq<Seq<char>>) -> Seq<Option<Seq<char>>> {
    spellings.map_values(|spelling: Seq<char>| Some(spelling))
}

/// The identifiers of a reference, in the order their spellings were interned.
pub open spec fn reference_identifiers(reference: EncodedReference) -> Seq<Identifier>
    decreases reference,
{
    match reference {
        EncodedReference::Plain(id) => seq![id],
        EncodedReference::SingleTypeApplication { argument, .. } => reference_identifiers(*argument),
        EncodedReference::MultiTypeApplication { arguments, .. } => references_identifiers(
            arguments@,
        ),
        _ => Seq::empty(),
    }
}

/// The identifiers of each reference in turn.
pub open spec fn references_identifiers(references: Seq<EncodedReference>) -> Seq<Identifier>
    decreases references,
{
    if references.len() == 0 {
        Seq::empty()
    } else {
        references_identifiers(references.drop_last()) + reference_identifiers(references.last())
    }
}

/// The identifiers of each item in turn.
pub open spec fn all_identifiers<A>(items: Seq<A>, ids_of: spec_fn(A) -> Seq<Identifier>) -> Seq<
    Identifier,
>
    decreases items.len(),
{
    if items.len() == 0 {
        Seq::empty()
    } else {
        all_identifiers(items.drop_last(), ids_of) + ids_of(items.last())
    }
}

pub open spec fn payload_identifiers(payload: Option<EncodedReference>) -> Seq<Identifier> {
    match payload {
        Some(reference) => reference_identifiers(reference),
        None => Seq::empty(),
    }
}

/// The identifiers of a variant: its own, then its payload's.
pub open spec fn variant_identifiers(variant: EncodedVariant) -> Seq<Identifier> {
    seq![variant.identifier] + payload_identifiers(variant.payload)
}

/// The identifiers of a field: its own, then its reference's.
pub open spec fn field_identifiers(field: EncodedField) -> Seq<Identifier> {
    seq![field.identifier] + reference_identifiers(field.reference)
}

pub open spec fn variants_identifiers(variants: Seq<EncodedVariant>) -> Seq<Identifier> {
    all_identifiers(variants, |variant: EncodedVariant| variant_identifiers(variant))
}

pub open spec fn fields_identifiers(fields: Seq<EncodedField>) -> Seq<Identifier> {
    all_identifiers(fields, |field: EncodedField| field_identifiers(field))
}

/// The identifiers of a declaration body: a newtype's name, then its reference's; a
/// struct's or enumeration's members, then its name.
pub open spec fn type_identifiers(value: EncodedType) -> Seq<Identifier> {
    match value {
        EncodedType::Newtype(newtype) => seq![newtype.identifier] + reference_identifiers(
            newtype.reference,
        ),
        EncodedType::Struct(structure) => fields_identifiers(structure.fields@).push(
            structure.identifier,
        ),
        EncodedType::Enumeration(enumeration) => variants_identifiers(enumeration.variants@).push(
            enumeration.identifier,
        ),
    }
}

/// Every identifier a schema holds, declaration by declaration.
pub open spec fn schema_identifiers(declarations: Seq<EncodedDeclaration>) -> Seq<Identifier> {
    all_identifiers(declarations, |declaration: EncodedDeclaration| type_identifiers(declaration.value))
}

proof fn lemma_spelled_concat(names: Seq<Seq<char>>, a: Seq<Identifier>, b: Seq<Identifier>)
    ensures
        spelled(names, a + b) == spelled(names, a) + spelled(names, b),
{
    assert(spelled(names, a + b) =~= spelled(names, a) + spelled(names, b));
}

proof fn lemma_present_concat(a: Seq<Seq<char>>, b: Seq<Seq<char>>)
    ensures
        present(a + b) == present(a) + present(b),
{
    assert(present(a + b) =~= present(a) + present(b));
}

proof fn lemma_reference_spelled(names: Seq<Seq<char>>, migrated: EncodedReference, reference: TypeReference)
    requires
        reference_matches(names, migrated, reference),
    ensures
        spelled(names, reference_identifiers(migrated)) == present(reference_spellings(reference)),
    decreases reference,
{
    match reference {
        TypeReference::Plain(name) => {
            assert(spelled(names, reference_identifiers(migrated)) =~= present(
                reference_spellings(reference),
            ));
        },
        TypeReference::SingleTypeApplication { argument, .. } => {
            if let EncodedReference::SingleTypeApplication { argument: a, .. } = migrated {
                lemma_reference_spelled(names, *a, *argument);
            }
        },
        TypeReference::MultiTypeApplication { arguments, .. } => {
            if let EncodedReference::MultiTypeApplication { arguments: a, .. } = migrated {
                lemma_references_spelled(names, a@, arguments@);
            }
        },
        _ => {
            assert(spelled(names, reference_identifiers(migrated)) =~= present(
                reference_spellings(reference),
            ));
        },
    }
}

proof fn lemma_references_spelled(
    names: Seq<Seq<char>>,
    migrated: Seq<EncodedReference>,
    references: Seq<TypeReference>,
)
    requires
        migrated.len() == references.len(),
        forall|i: int|
            0 <= i < references.len() ==> reference_matches(names, migrated[i], #[trigger] references[i]),
    ensures
        spelled(names, references_identifiers(migrated)) == present(references_spellings(references)),
    decreases references,
{
    if references.len() == 0 {
        assert(spelled(names, references_identifiers(migrated)) =~= present(
            references_spellings(references),
        ));
    } else {
        let n = references.len() - 1;
        assert forall|i: int| 0 <= i < references.drop_last().len() implies reference_matches(
            names,
            migrated.drop_last()[i],
            #[trigger] references.drop_last()[i],
        ) by {
            assert(references.drop_last()[i] == references[i]);
        }
        lemma_references_spelled(names, migrated.drop_last(), references.drop_last());
        assert(reference_matches(names, migrated[n], references[n]));
        lemma_reference_spelled(names, migrated.last(), references.last());
        lemma_spelled_concat(
            names,
            references_identifiers(migrated.drop_last()),
            reference_identifiers(migrated.last()),
        );
        lemma_present_concat(
            references_spellings(references.drop_last()),
            reference_spellings(references.last()),
        );
    }
}

proof fn lemma_all_spelled<A, B>(
    names: Seq<Seq<char>>,
    migrated: Seq<A>,
    items: Seq<B>,
    ids_of: spec_fn(A) -> Seq<Identifier>,
    spellings_of: spec_fn(B) -> Seq<Seq<char>>,
)
    requires
        migrated.len() == items.len(),
        forall|i: int|
            0 <= i < items.len() ==> spelled(names, ids_of(migrated[i])) == present(
                spellings_of(#[trigger] items[i]),
            ),
    ensures
        spelled(names, all_identifiers(migrated, ids_of)) == present(
            all_spellings(items, spellings_of),
        ),
    decreases items.len(),
{
    if items.len() == 0 {
        assert(spelled(names, all_identifiers(migrated, ids_of)) =~= present(
            all_spellings(items, spellings_of),
        ));
    } else {
        let n = items.len() - 1;
        assert forall|i: int| 0 <= i < items.drop_last().len() implies spelled(
            names,
            ids_of(migrated.drop_last()[i]),
        ) == present(spellings_of(#[trigger] items.drop_last()[i])) by {
            assert(items.drop_last()[i] == items[i]);
            assert(migrated.drop_last()[i] == migrated[i]);
        }
        lemma_all_spelled(names, migrated.drop_last(), items.drop_last(), ids_of, spellings_of);
        assert(spelled(names, ids_of(migrated[n])) == present(spellings_of(items[n])));
        lemma_spelled_concat(
            names,
            all_identifiers(migrated.drop_last(), ids_of),
            ids_of(migrated.last()),
        );
        lemma_present_concat(all_spellings(items.drop_last(), spellings_of), spellings_of(items.last()));
    }
}

proof fn lemma_enumeration_spelled(names: Seq<Seq<char>>, migrated: EncodedType, enumeration: EnumDeclaration)
    requires
        enumeration_matches(names, migrated, enumeration),
    ensures
        spelled(names, type_identifiers(migrated)) == present(enumeration_spellings(enumeration)),
{
    if let EncodedType::Enumeration(m) = migrated {
        assert forall|i: int| 0 <= i < enumeration.variants@.len() implies spelled(
            names,
            variant_identifiers(m.variants@[i]),
        ) == present(variant_spellings(#[trigger] enumeration.variants@[i])) by {
            assert(variant_matches(names, m.variants@[i], enumeration.variants@[i]));
            let v = m.variants@[i];
            let l = enumeration.variants@[i];
            if let (Some(r), Some(p)) = (v.payload, l.payload) {
                lemma_reference_spelled(names, r, p);
            }
            lemma_spelled_concat(names, seq![v.identifier], payload_identifiers(v.payload));
            lemma_present_concat(seq![l.name@], payload_spellings(l.payload));
            assert(spelled(names, seq![v.identifier]) =~= present(seq![l.name@]));
            assert(spelled(names, payload_identifiers(v.payload)) =~= present(payload_spellings(l.payload)));
        }
        lemma_all_spelled(
            names,
            m.variants@,
            enumeration.variants@,
            |variant: EncodedVariant| variant_identifiers(variant),
            |variant: VariantDeclaration| variant_spellings(variant),
        );
        lemma_spelled_concat(names, variants_identifiers(m.variants@), seq![m.identifier]);
        lemma_present_concat(variants_spellings(enumeration.variants@), seq![enumeration.name@]);
        assert(spelled(names, seq![m.identifier]) =~= present(seq![enumeration.name@]));
        assert(variants_identifiers(m.variants@).push(m.identifier) =~= variants_identifiers(
            m.variants@,
        ) + seq![m.identifier]);
        assert(variants_spellings(enumeration.variants@).push(enumeration.name@) =~= variants_spellings(
            enumeration.variants@,
        ) + seq![enumeration.name@]);
    }
}

proof fn lemma_declaration_spelled(names: Seq<Seq<char>>, migrated: EncodedDeclaration, declaration: Declaration)
    requires
        declaration_matches(names, migrated, declaration),
    ensures
        spelled(names, type_identifiers(migrated.value)) == present(declaration_spellings(declaration)),
{
    match declaration.value {
        TypeDeclaration::Newtype(newtype) => {
            if let EncodedType::Newtype(m) = migrated.value {
                lemma_reference_spelled(names, m.reference, newtype.reference);
                lemma_spelled_concat(names, seq![m.identifier], reference_identifiers(m.reference));
                lemma_present_concat(seq![newtype.name@], reference_spellings(newtype.reference));
                assert(spelled(names, seq![m.identifier]) =~= present(seq![newtype.name@]));
            }
        },
        TypeDeclaration::Struct(structure) => {
            if let EncodedType::Struct(m) = migrated.value {
                assert forall|i: int| 0 <= i < structure.fields@.len() implies spelled(
                    names,
                    field_identifiers(m.fields@[i]),
                ) == present(field_spellings(#[trigger] structure.fields@[i])) by {
                    assert(field_matches(names, m.fields@[i], structure.fields@[i]));
                    let f = m.fields@[i];
                    let l = structure.fields@[i];
                    lemma_reference_spelled(names, f.reference, l.reference);
                    lemma_spelled_concat(names, seq![f.identifier], reference_identifiers(f.reference));
                    lemma_present_concat(seq![l.name@], reference_spellings(l.reference));
                    assert(spelled(names, seq![f.identifier]) =~= present(seq![l.name@]));
                }
                lemma_all_spelled(
                    names,
                    m.fields@,
                    structure.fields@,
                    |field: EncodedField| field_identifiers(field),
                    |field: FieldDeclaration| field_spellings(field),
                );
                lemma_spelled_concat(names, fields_identifiers(m.fields@), seq![m.identifier]);
                lemma_present_concat(fields_spellings(structure.fields@), seq![structure.name@]);
                assert(spelled(names, seq![m.identifier]) =~= present(seq![structure.name@]));
                assert(fields_identifiers(m.fields@).push(m.identifier) =~= fields_identifiers(
                    m.fields@,
                ) + seq![m.identifier]);
                assert(fields_spellings(structure.fields@).push(structure.name@) =~= fields_spellings(
                    structure.fields@,
                ) + seq![structure.name@]);
            }
        },
        TypeDeclaration::Enum(enumeration) => {
            lemma_enumeration_spelled(names, migrated.value, enumeration);
        },
    }
}

/// A legacy single-argument projection and an encoded one carry the same name.
pub open spec fn same_projection_name(
    legacy_projection: legacy::SingleTypeReferenceProjection,
    projection: SingleTypeReferenceProjection,
) -> bool {
    &&& (legacy_projection is Vector) == (projection is Vector)
    &&& (legacy_projection is Optional) == (projection is Optional)
    &&& (legacy_projection is ScopeOf) == (projection is ScopeOf)
}

/// Migration keeps each single-argument application's projection: a legacy `Vector`,
/// `Optional` or `ScopeOf` application migrates to the encoded projection of the same
/// name, so distinct legacy projections stay distinct.
pub proof fn lemma_single_projection_kept(
    names: Seq<Seq<char>>,
    migrated: EncodedReference,
    reference: TypeReference,
)
    requires
        reference_matches(names, migrated, reference),
        reference is SingleTypeApplication,
    ensures
        migrated is SingleTypeApplication,
        same_projection_name(
            reference->SingleTypeApplication_projection,
            migrated->SingleTypeApplication_projection,
        ),
{
}

/// Distinct legacy projections migrate to distinct encoded projections.
pub proof fn lemma_single_projection_injective(
    p: legacy::SingleTypeReferenceProjection,
    q: legacy::SingleTypeReferenceProjection,
)
    ensures
        single_projection(p) == single_projection(q) ==> p == q,
{
}

/// A migrated namespace declaration is private exactly when the legacy declaration is,
/// whatever its kind: newtype, struct or enumeration.
pub proof fn lemma_visibility_kept(
    names: Seq<Seq<char>>,
    declarations: Seq<EncodedDeclaration>,
    source: LoweredSource,
)
    requires
        migration_matches(names, declarations, source),
    ensures
        forall|i: int|
            0 <= i < source.namespace@.len() ==> ((#[trigger] declarations[i]).visibility
                == Visibility::Private) == source.namespace@[i].private,
{
    assert forall|i: int| 0 <= i < source.namespace@.len() implies ((
    #[trigger] declarations[i]).visibility == Visibility::Private)
        == source.namespace@[i].private by {
        assert(declaration_matches(names, declarations[i], source.namespace@[i]));
    }
}

/// A migrated name table holds exactly the spellings of the identifiers the migrated
/// schema holds: every identifier of the schema names an entry of the table, and every
/// entry of the table is named by an identifier of the schema.
pub proof fn lemma_migrated_names_are_schema_spellings(
    names: Seq<Seq<char>>,
    declarations: Seq<EncodedDeclaration>,
    source: LoweredSource,
)
    requires
        names == intern_all(Seq::empty(), source_spellings(source)),
        migration_matches(names, declarations, source),
    ensures
        forall|k: int|
            0 <= k < schema_identifiers(declarations).len() ==> (
            #[trigger] schema_identifiers(declarations)[k]).0 < names.len(),
        forall|id: Identifier|
            id.0 < names.len() ==> #[trigger] schema_identifiers(declarations).contains(id),
{
    let n = source.namespace@.len() as int;
    let ids = schema_identifiers(declarations);
    let data = declarations.take(n);
    let type_ids = |declaration: EncodedDeclaration| type_identifiers(declaration.value);
    let declared = |declaration: Declaration| declaration_spellings(declaration);
    assert forall|i: int| 0 <= i < n implies spelled(names, type_ids(data[i])) == present(
        declared(#[trigger] source.namespace@[i]),
    ) by {
        assert(data[i] == declarations[i]);
        lemma_declaration_spelled(names, declarations[i], source.namespace@[i]);
    }
    lemma_all_spelled(names, data, source.namespace@, type_ids, declared);
    let input = declarations[n];
    let output = declarations[n + 1];
    let input_root = source.input;
    let output_root = source.output;
    if let Root::Enum(enumeration) = input_root {
        lemma_enumeration_spelled(names, input.value, enumeration);
    }
    if let Root::Enum(enumeration) = output_root {
        lemma_enumeration_spelled(names, output.value, enumeration);
    }
    let front = declarations.drop_last();
    assert(front =~= declarations.take(n + 1));
    assert(front.drop_last() =~= data);
    assert(declarations.last() == output);
    assert(front.last() == input);
    assert(ids == all_identifiers(front, type_ids) + type_ids(output));
    assert(all_identifiers(front, type_ids) == all_identifiers(data, type_ids) + type_ids(input));
    assert(ids == all_identifiers(data, type_ids) + type_identifiers(input.value) + type_identifiers(
        output.value,
    ));
    lemma_spelled_concat(names, all_identifiers(data, type_ids), type_identifiers(input.value));
    lemma_spelled_concat(
        names,
        all_identifiers(data, type_ids) + type_identifiers(input.value),
        type_identifiers(output.value),
    );
    lemma_present_concat(declarations_spellings(source.namespace@), root_spellings(source.input));
    lemma_present_concat(
        declarations_spellings(source.namespace@) + root_spellings(source.input),
        root_spellings(source.output),
    );
    assert(spelled(names, ids) == present(source_spellings(source)));
    let spellings = source_spellings(source);
    assert forall|k: int| 0 <= k < ids.len() implies (#[trigger] ids[k]).0 < names.len() by {
        assert(spelled(names, ids)[k] == present(spellings)[k]);
    }
    lemma_intern_all_members(Seq::empty(), spellings);
    lemma_intern_all_distinct(Seq::empty(), spellings);
    assert forall|id: Identifier| id.0 < names.len() implies #[trigger] ids.contains(id) by {
        let i = id.0 as int;
        assert(spellings.contains(names[i]));
        let k = choose|k: int| 0 <= k < spellings.len() && spellings[k] == names[i];
        assert(spelled(names, ids)[k] == present(spellings)[k]);
        assert(names[ids[k].0 as int] == names[i]);
        assert(ids[k].0 == i);
        assert(ids[k] == id);
    }
}

/// The legacy ingestion state: the name table spellings are interned into.
pub struct LegacySchemaIngest {
    names: NameTable,
}

} // verus!
