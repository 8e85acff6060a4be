//! The lowered form of a legacy schema source: named declarations whose references
//! carry their names as spellings, plus the two protocol-line roots.

use vstd::prelude::*;

verus! {

/// The legacy projections applied to one type argument.
#[derive(Clone, Copy, Debug, PartialEq, Eq, Structural)]
pub enum SingleTypeReferenceProjection {
    Vector,
    Optional,
    ScopeOf,
}

/// The legacy projections applied to several type arguments.
#[derive(Clone, Copy, Debug, PartialEq, Eq, Structural)]
pub enum MultiTypeReferenceProjection {
    MapOf,
}

/// The legacy projections applied to a value argument.
#[derive(Clone, Copy, Debug, PartialEq, Eq, Structural)]
pub enum ValueReferenceProjection {
    Bytes,
}

/// A legacy type reference.
#[derive(Debug)]
pub enum TypeReference {
    String,
    Integer,
    Boolean,
    Bytes,
    /// The legacy `Path` scalar.
    Path,
    Plain(String),
    SingleTypeApplication {
        projection: SingleTypeReferenceProjection,
        argument: Box<TypeReference>,
    },
    MultiTypeApplication {
        projection: MultiTypeReferenceProjection,
        arguments: Vec<TypeReference>,
    },
    ValueApplication { projection: ValueReferenceProjection, value: u64 },
    /// An application of a user-defined generic type.
    Application { name: String, arguments: Vec<TypeReference> },
}

/// A legacy newtype declaration.
#[derive(Debug)]
pub struct NewtypeDeclaration {
    pub name: String,
    pub reference: TypeReference,
}

/// One field of a legacy struct declaration.
#[derive(Debug)]
pub struct FieldDeclaration {
    pub name: String,
    pub reference: TypeReference,
}

/// A legacy struct declaration.
#[derive(Debug)]
pub struct StructDeclaration {
    pub name: String,
    pub fields: Vec<FieldDeclaration>,
}

/// One variant of a legacy enum declaration.
#[derive(Debug)]
pub struct VariantDeclaration {
    pub name: String,
    pub payload: Option<TypeReference>,
}

/// A legacy enum declaration.
#[derive(Debug)]
pub struct EnumDeclaration {
    pub name: String,
    pub variants: Vec<VariantDeclaration>,
}

/// The body of a legacy declaration.
#[derive(Debug)]
pub enum TypeDeclaration {
    Newtype(NewtypeDeclaration),
    Struct(StructDeclaration),
    Enum(EnumDeclaration),
}

/// A legacy namespace declaration.
#[derive(Debug)]
pub struct Declaration {
    pub private: bool,
    pub value: TypeDeclaration,
}

/// A protocol-line root: an enumeration, or an application form.
#[derive(Debug)]
pub enum Root {
    Enum(EnumDeclaration),
    Application { name: String, arguments: Vec<TypeReference> },
}

/// A lowered legacy source: its namespace in order, and its input and output roots.
#[derive(Debug)]
pub struct LoweredSource {
    pub namespace: Vec<Declaration>,
    pub input: Root,
    pub output: Root,
}

impl Declaration {
    /// Whether the declaration is private.
    pub fn is_private(&self) -> (private: bool)
        ensures
            private == self.private,
    {
        self.private
    }
}

impl Root {
    /// The enumeration of an enum-form root.
    pub fn as_enum(&self) -> (enumeration: Option<&EnumDeclaration>)
        ensures
            match self {
                Root::Enum(e) => enumeration == Some(e),
                Root::Application { .. } => enumeration is None,
            },
    {
        match self {
            Root::Enum(e) => Some(e),
            Root::Application { .. } => None,
        }
    }
}

impl LoweredSource {
    /// The two protocol-line roots, input first.
    pub fn input_and_output(&self) -> (roots: [&Root; 2])
        ensures
            roots@[0] == &self.input,
            roots@[1] == &self.output,
    {
        [&self.input, &self.output]
    }
}

} // verus!
