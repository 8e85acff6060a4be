//! The stringless encoded schema form: declarations whose names are identifiers into
//! a name table.

use vstd::prelude::*;

use crate::names::Identifier;

verus! {

broadcast use vstd::std_specs::vec::group_vec_axioms;

/// What a declaration is for.
#[derive(Clone, Copy, Debug, PartialEq, Eq, Structural)]
pub enum DeclarationRole {
    DataType,
    InterfaceInput,
    InterfaceOutput,
}

/// Whether a declaration is exported.
#[derive(Clone, Copy, Debug, PartialEq, Eq, Structural)]
pub enum Visibility {
    Public,
    Private,
}

/// The projections applied to one type argument.
#[derive(Clone, Copy, Debug, PartialEq, Eq, Structural)]
pub enum SingleTypeReferenceProjection {
    Vector,
    Optional,
    ScopeOf,
}

/// The projections applied to several type arguments.
#[derive(Clone, Copy, Debug, PartialEq, Eq, Structural)]
pub enum MultiTypeReferenceProjection {
    MapOf,
}

/// The projections applied to a value argument.
#[derive(Clone, Copy, Debug, PartialEq, Eq, Structural)]
pub enum ValueReferenceProjection {
    Bytes,
}

/// A reference to a type from inside a declaration.
#[derive(Debug)]
pub enum EncodedReference {
    String,
    Integer,
    Boolean,
    Bytes,
    Plain(Identifier),
    SingleTypeApplication {
        projection: SingleTypeReferenceProjection,
        argument: Box<EncodedReference>,
    },
    MultiTypeApplication {
        projection: MultiTypeReferenceProjection,
        arguments: Vec<EncodedReference>,
    },
    ValueApplication { projection: ValueReferenceProjection, value: u64 },
}

/// A newtype over one reference.
#[derive(Debug)]
pub struct EncodedNewtype {
    pub identifier: Identifier,
    pub reference: EncodedReference,
}

/// One named field of a struct.
#[derive(Debug)]
pub struct EncodedField {
    pub identifier: Identifier,
    pub reference: EncodedReference,
}

/// A struct of named fields.
#[derive(Debug)]
pub struct EncodedStruct {
    pub identifier: Identifier,
    pub fields: Vec<EncodedField>,
}

/// One variant of an enumeration, with an optional payload.
#[derive(Debug)]
pub struct EncodedVariant {
    pub identifier: Identifier,
    pub payload: Option<EncodedReference>,
}

/// An enumeration of variants.
#[derive(Debug)]
pub struct EncodedEnum {
    pub identifier: Identifier,
    pub variants: Vec<EncodedVariant>,
}

/// The body of a declaration.
#[derive(Debug)]
pub enum EncodedType {
    Newtype(EncodedNewtype),
    Struct(EncodedStruct),
    Enumeration(EncodedEnum),
}

/// One declaration: a role, a visibility and a body.
#[derive(Debug)]
pub struct EncodedDeclaration {
    pub role: DeclarationRole,
    pub visibility: Visibility,
    pub value: EncodedType,
}

/// A schema: its declarations in order.
#[derive(Debug)]
pub struct EncodedSchema {
    pub declarations: Vec<EncodedDeclaration>,
}

/// The identifier that names a declaration body.
pub open spec fn type_identifier(value: EncodedType) -> Identifier {
    match value {
        EncodedType::Newtype(newtype) => newtype.identifier,
        EncodedType::Struct(structure) => structure.identifier,
        EncodedType::Enumeration(enumeration) => enumeration.identifier,
    }
}

/// `a` and `b` are the same reference, argument for argument.
pub open spec fn same_reference(a: EncodedReference, b: EncodedReference) -> bool
    decreases a,
{
    match (a, b) {
        (
            EncodedReference::SingleTypeApplication { projection: pa, argument: aa },
            EncodedReference::SingleTypeApplication { projection: pb, argument: ab },
        ) => pa == pb && same_reference(*aa, *ab),
        (
            EncodedReference::MultiTypeApplication { projection: pa, arguments: aa },
            EncodedReference::MultiTypeApplication { projection: pb, arguments: ab },
        ) => pa == pb && aa@.len() == ab@.len() && forall|i: int|
            0 <= i < aa@.len() ==> same_reference(#[trigger] aa@[i], ab@[i]),
        (
            EncodedReference::SingleTypeApplication { .. },
            _,
        ) => false,
        (
            EncodedReference::MultiTypeApplication { .. },
            _,
        ) => false,
        _ => a == b,
    }
}
/// `a` and `b` are the same declaration body, field for field and variant for variant.
pub open spec fn same_type(a: EncodedType, b: EncodedType) -> bool {
    match (a, b) {
        (EncodedType::Newtype(na), EncodedType::Newtype(nb)) => na.identifier == nb.identifier
            && same_reference(na.reference, nb.reference),
        (EncodedType::Struct(sa), EncodedType::Struct(sb)) => sa.identifier == sb.identifier
            && sa.fields@.len() == sb.fields@.len() && forall|i: int|
            0 <= i < sa.fields@.len() ==> #[trigger] sa.fields@[i].identifier
                == sb.fields@[i].identifier && same_reference(
                sa.fields@[i].reference,
                sb.fields@[i].reference,
            ),
        (EncodedType::Enumeration(ea), EncodedType::Enumeration(eb)) => ea.identifier
            == eb.identifier && ea.variants@.len() == eb.variants@.len() && forall|i: int|
            0 <= i < ea.variants@.len() ==> #[trigger] ea.variants@[i].identifier
                == eb.variants@[i].identifier && same_payload(
                ea.variants@[i].payload,
                eb.variants@[i].payload,
            ),
        _ => false,
    }
}

/// `a` and `b` are both absent, or the same reference.
pub open spec fn same_payload(a: Option<EncodedReference>, b: Option<EncodedReference>) -> bool {
    match (a, b) {
        (Some(ra), Some(rb)) => same_reference(ra, rb),
        (None, None) => true,
        _ => false,
    }
}

/// `a` and `b` are the same declaration.
pub open spec fn same_declaration(a: EncodedDeclaration, b: EncodedDeclaration) -> bool {
    a.role == b.role && a.visibility == b.visibility && same_type(a.value, b.value)
}

impl EncodedReference {
    /// A copy of this reference.
    #[verifier::loop_isolation(false)]
    pub fn duplicate(&self) -> (copy: EncodedReference)
        ensures
            same_reference(copy, *self),
        decreases self,
    {
        match self {
            EncodedReference::String => EncodedReference::String,
            EncodedReference::Integer => EncodedReference::Integer,
            EncodedReference::Boolean => EncodedReference::Boolean,
            EncodedReference::Bytes => EncodedReference::Bytes,
            EncodedReference::Plain(identifier) => EncodedReference::Plain(*identifier),
            EncodedReference::SingleTypeApplication { projection, argument } => {
                EncodedReference::SingleTypeApplication {
                    projection: *projection,
                    argument: Box::new((**argument).duplicate()),
                }
            },
            EncodedReference::MultiTypeApplication { projection, arguments } => {
                let mut copies: Vec<EncodedReference> = Vec::new();
                let mut i: usize = 0;
                while i < arguments.len()
                    invariant
                        i <= arguments@.len(),
                        copies@.len() == i,
                        forall|k: int|
                            0 <= k < i ==> same_reference(#[trigger] copies@[k], arguments@[k]),
                    decreases arguments@.len() - i,
                {
                    proof {
                        assert(decreases_to!(*self => arguments@[i as int]));
                    }
                    copies.push(arguments[i].duplicate());
                    i += 1;
                }
                EncodedReference::MultiTypeApplication { projection: *projection, arguments: copies }
            },
            EncodedReference::ValueApplication { projection, value } => {
                EncodedReference::ValueApplication { projection: *projection, value: *value }
            },
        }
    }
}

impl EncodedType {
    /// A copy of this declaration body.
    #[verifier::loop_isolation(false)]
    pub fn duplicate(&self) -> (copy: EncodedType)
        ensures
            same_type(copy, *self),
    {
        match self {
            EncodedType::Newtype(newtype) => EncodedType::Newtype(
                EncodedNewtype {
                    identifier: newtype.identifier,
                    reference: newtype.reference.duplicate(),
                },
            ),
            EncodedType::Struct(structure) => {
                let mut fields: Vec<EncodedField> = Vec::new();
                let mut i: usize = 0;
                while i < structure.fields.len()
                    invariant
                        i <= structure.fields@.len(),
                        fields@.len() == i,
                        forall|k: int|
                            0 <= k < i ==> #[trigger] fields@[k].identifier
                                == structure.fields@[k].identifier && same_reference(
                                fields@[k].reference,
                                structure.fields@[k].reference,
                            ),
                    decreases structure.fields@.len() - i,
                {
                    let field = &structure.fields[i];
                    fields.push(
                        EncodedField {
                            identifier: field.identifier,
                            reference: field.reference.duplicate(),
                        },
                    );
                    i += 1;
                }
                EncodedType::Struct(EncodedStruct { identifier: structure.identifier, fields })
            },
            EncodedType::Enumeration(enumeration) => {
                let mut variants: Vec<EncodedVariant> = Vec::new();
                let mut i: usize = 0;
                while i < enumeration.variants.len()
                    invariant
                        i <= enumeration.variants@.len(),
                        variants@.len() == i,
                        forall|k: int|
                            0 <= k < i ==> #[trigger] variants@[k].identifier
                                == enumeration.variants@[k].identifier && same_payload(
                                variants@[k].payload,
                                enumeration.variants@[k].payload,
                            ),
                    decreases enumeration.variants@.len() - i,
                {
                    let variant = &enumeration.variants[i];
                    let payload = match &variant.payload {
                        Some(reference) => Some(reference.duplicate()),
                        None => None,
                    };
                    variants.push(EncodedVariant { identifier: variant.identifier, payload });
                    assert(same_payload(variants@[i as int].payload, variant.payload));
                    i += 1;
                }
                EncodedType::Enumeration(
                    EncodedEnum { identifier: enumeration.identifier, variants },
                )
            },
        }
    }
}

impl EncodedDeclaration {
    /// A data-type declaration with the given visibility.
    pub fn new(visibility: Visibility, value: EncodedType) -> (declaration: EncodedDeclaration)
        ensures
            declaration == (EncodedDeclaration { role: DeclarationRole::DataType, visibility, value }),
    {
        EncodedDeclaration { role: DeclarationRole::DataType, visibility, value }
    }

    /// A public interface-root declaration with the given role.
    pub fn interface(role: DeclarationRole, value: EncodedType) -> (declaration:
        EncodedDeclaration)
        ensures
            declaration == (EncodedDeclaration { role, visibility: Visibility::Public, value }),
    {
        EncodedDeclaration { role, visibility: Visibility::Public, value }
    }

    /// The identifier that names this declaration.
    pub fn identifier(&self) -> (id: Identifier)
        ensures
            id == type_identifier(self.value),
    {
        match &self.value {
            EncodedType::Newtype(newtype) => newtype.identifier,
            EncodedType::Struct(structure) => structure.identifier,
            EncodedType::Enumeration(enumeration) => enumeration.identifier,
        }
    }

    /// A copy of this declaration.
    pub fn duplicate(&self) -> (copy: EncodedDeclaration)
        ensures
            same_declaration(copy, *self),
    {
        EncodedDeclaration {
            role: self.role,
            visibility: self.visibility,
            value: self.value.duplicate(),
        }
    }
}

/// `found` is the first declaration of `declarations` with the given role, or `None`
/// when no declaration has it.
pub open spec fn first_with_role(
    declarations: Seq<EncodedDeclaration>,
    role: DeclarationRole,
    found: Option<&EncodedDeclaration>,
) -> bool {
    match found {
        Some(declaration) => exists|i: int|
            0 <= i < declarations.len() && declarations[i] == *declaration && declaration.role
                == role && forall|k: int| 0 <= k < i ==> #[trigger] declarations[k].role != role,
        None => forall|k: int| 0 <= k < declarations.len() ==> #[trigger] declarations[k].role != role,
    }
}

/// The data-type declarations among `declarations`, in order.
pub open spec fn data_only(declarations: Seq<EncodedDeclaration>) -> Seq<EncodedDeclaration>
    decreases declarations.len(),
{
    if declarations.len() == 0 {
        Seq::empty()
    } else if declarations.last().role == DeclarationRole::DataType {
        data_only(declarations.drop_last()).push(declarations.last())
    } else {
        data_only(declarations.drop_last())
    }
}

impl EncodedSchema {
    /// A schema of the given declarations, in order.
    pub fn new(declarations: Vec<EncodedDeclaration>) -> (schema: EncodedSchema)
        ensures
            schema.declarations@ == declarations@,
    {
        EncodedSchema { declarations }
    }

    fn with_role(&self, role: DeclarationRole) -> (found: Option<&EncodedDeclaration>)
        ensures
            first_with_role(self.declarations@, role, found),
    {
        let mut i: usize = 0;
        while i < self.declarations.len()
            invariant
                i <= self.declarations@.len(),
                forall|k: int| 0 <= k < i ==> #[trigger] self.declarations@[k].role != role,
            decreases self.declarations@.len() - i,
        {
            if self.declarations[i].role == role {
                return Some(&self.declarations[i]);
            }
            i += 1;
        }
        None
    }

    /// The input interface root: the first declaration with the input role.
    pub fn input(&self) -> (found: Option<&EncodedDeclaration>)
        ensures
            first_with_role(
                self.declarations@,
                DeclarationRole::InterfaceInput,
                found,
            ),
    {
        self.with_role(DeclarationRole::InterfaceInput)
    }

    /// The output interface root: the first declaration with the output role.
    pub fn output(&self) -> (found: Option<&EncodedDeclaration>)
        ensures
            first_with_role(
                self.declarations@,
                DeclarationRole::InterfaceOutput,
                found,
            ),
    {
        self.with_role(DeclarationRole::InterfaceOutput)
    }

    /// The data-type declarations, in order.
    pub fn data_declarations(&self) -> (data: Vec<&EncodedDeclaration>)
        ensures
            data@.map_values(|d: &EncodedDeclaration| *d) == data_only(self.declarations@),
    {
        let mut data: Vec<&EncodedDeclaration> = Vec::new();
        let mut i: usize = 0;
        while i < self.declarations.len()
            invariant
                i <= self.declarations@.len(),
                data@.map_values(|d: &EncodedDeclaration| *d) == data_only(
                    self.declarations@.take(i as int),
                ),
            decreases self.declarations@.len() - i,
        {
            let ghost before = data@;
            assert(self.declarations@.take(i + 1).drop_last() =~= self.declarations@.take(
                i as int,
            ));
            if self.declarations[i].role == DeclarationRole::DataType {
                data.push(&self.declarations[i]);
                assert(data@.map_values(|d: &EncodedDeclaration| *d) =~= before.map_values(
                    |d: &EncodedDeclaration| *d,
                ).push(self.declarations@[i as int]));
            }
            i += 1;
        }
        assert(self.declarations@.take(i as int) =~= self.declarations@);
        data
    }
}

} // verus!
