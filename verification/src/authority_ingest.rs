//! The authority-bound ingestion path: a parsed schema's declarations become bind-or-mint
//! identity requests keyed by resolved declared name and fingerprinted by resolved
//! structure; the authority's reply becomes the assignment a universe is built from.

use vstd::prelude::*;
use vstd::bytes::u64_to_le_bytes;
use vstd::utf8::encode_utf8;

use crate::encoded::{
    same_declaration, type_identifier, DeclarationRole, EncodedDeclaration, EncodedEnum,
    EncodedField, EncodedNewtype, EncodedStruct, EncodedReference, EncodedSchema, EncodedType, EncodedVariant, MultiTypeReferenceProjection,
    SingleTypeReferenceProjection, ValueReferenceProjection, Visibility,
};
use crate::legacy::LoweredSource;
use crate::legacy_ingest::{
    migration_matches, source_error, source_spellings, LegacyIngestError, LegacySchemaIngest,
};
use crate::names::{intern_all, Identifier, NameTable, NameTableError};
use crate::shape::{
    fields_feed, payload_feed, reference_feed, references_feed, resolve_field, resolve_fields,
    resolve_name, resolve_reference, resolve_references, resolve_shape, resolve_variant,
    resolve_variants, shape_feed, variants_feed, FeedItem, ResolvedReference, ResolvedShape,
    ShapeFeed,
};

verus! {

broadcast use vstd::std_specs::vec::group_vec_axioms;

/// A failure of the authority-bound ingestion path.
#[derive(Debug)]
pub enum AuthorityIngestError {
    /// The legacy front end failed.
    Legacy(LegacyIngestError),
    /// The native front end failed; the message says why.
    Native(String),
    /// An identifier named nothing in the schema's name table.
    Names(NameTableError),
    /// The universe could not be built from the assignment; the message says why.
    Universe(String),
    /// The authority bound no identity for this declared key.
    UnboundDeclaration(Vec<u8>),
}

/// The key a declaration is bound under: its resolved name's UTF-8 bytes.
#[derive(Clone, Debug, PartialEq, Eq)]
pub struct DeclaredKey(pub Vec<u8>);

/// What the authority is asked to do with a declared identity.
#[derive(Clone, Copy, Debug, PartialEq, Eq, Structural)]
pub enum IdentityIntent {
    /// Bind to the existing identity for the key, or mint one.
    MintOrBind,
}

/// One bind-or-mint request: the declared key, the fingerprint input of the declared
/// structure, and the intent.
#[derive(Clone, Debug, PartialEq, Eq)]
pub struct DeclaredIdentity {
    pub key: DeclaredKey,
    pub shape: ShapeFeed,
    pub intent: IdentityIntent,
}

/// One assignment of the authority's reply: a key and the local identity bound to it.
#[derive(Clone, Debug, PartialEq, Eq)]
pub struct BoundAssignment {
    pub key: DeclaredKey,
    pub identity: u64,
}

/// The authority's reply: the universe and the assignments of the presented keys.
#[derive(Clone, Debug, PartialEq, Eq)]
pub struct BoundIdentities {
    pub universe: u64,
    pub assignments: Vec<BoundAssignment>,
}

/// One member of a universe: its local identity, its name and its declaration.
#[derive(Debug)]
pub struct AssignedMember {
    pub local: u64,
    pub name: String,
    pub declaration: EncodedDeclaration,
}

/// What a universe is built from: the universe identity and its members in
/// declaration order.
#[derive(Debug)]
pub struct UniverseAssignment {
    pub universe: u64,
    pub members: Vec<AssignedMember>,
}

/// One schema unit from a single front end: its declarations and the name space they
/// were parsed against.
pub struct ParsedSchema {
    schema: EncodedSchema,
    names: NameTable,
}

// ---------------------------------------------------------------------------
// Specification
// ---------------------------------------------------------------------------

/// Why binding a declaration failed.
pub enum BindFailure {
    /// An identifier named nothing.
    Unresolved(Identifier),
    /// The authority bound nothing to the declaration's key.
    Unbound(Seq<u8>),
}

/// `error` reports `failure`.
pub open spec fn reports(error: AuthorityIngestError, failure: BindFailure) -> bool {
    match failure {
        BindFailure::Unresolved(id) => error == AuthorityIngestError::Names(
            NameTableError::UnknownIdentifier(id),
        ),
        BindFailure::Unbound(key) => match error {
            AuthorityIngestError::UnboundDeclaration(bytes) => bytes@ == key,
            _ => false,
        },
    }
}

/// The declared key of a declaration: the UTF-8 bytes of the name its identifier
/// resolves to.
pub open spec fn declared_key_of(names: Seq<Seq<char>>, declaration: EncodedDeclaration) -> Result<
    Seq<u8>,
    Identifier,
> {
    match resolve_name(names, type_identifier(declaration.value)) {
        Ok(name) => Ok(encode_utf8(name)),
        Err(id) => Err(id),
    }
}

/// The declared identity of a declaration: its key, then its shape's fingerprint input.
pub open spec fn identity_of(names: Seq<Seq<char>>, declaration: EncodedDeclaration) -> Result<
    (Seq<u8>, Seq<FeedItem>),
    Identifier,
> {
    match declared_key_of(names, declaration) {
        Ok(key) => match resolve_shape(names, declaration) {
            Ok(shape) => Ok((key, shape_feed(shape))),
            Err(id) => Err(id),
        },
        Err(id) => Err(id),
    }
}

/// The declared identities of each declaration in turn; the first failure wins.
pub open spec fn identities_of(
    names: Seq<Seq<char>>,
    declarations: Seq<EncodedDeclaration>,
) -> Result<Seq<(Seq<u8>, Seq<FeedItem>)>, Identifier>
    decreases declarations.len(),
{
    if declarations.len() == 0 {
        Ok(Seq::empty())
    } else {
        match identities_of(names, declarations.drop_last()) {
            Ok(prefix) => match identity_of(names, declarations.last()) {
                Ok(last) => Ok(prefix.push(last)),
                Err(id) => Err(id),
            },
            Err(id) => Err(id),
        }
    }
}

/// The identity of the first assignment bound to `key`.
pub open spec fn assigned_identity(assignments: Seq<BoundAssignment>, key: Seq<u8>) -> Option<u64>
    decreases assignments.len(),
{
    if assignments.len() == 0 {
        None
    } else if assignments[0].key.0@ == key {
        Some(assignments[0].identity)
    } else {
        assigned_identity(assignments.drop_first(), key)
    }
}

/// A declaration's member: the identity assigned to its key, and its name.
pub open spec fn member_of(
    names: Seq<Seq<char>>,
    assignments: Seq<BoundAssignment>,
    declaration: EncodedDeclaration,
) -> Result<(u64, Seq<char>), BindFailure> {
    match resolve_name(names, type_identifier(declaration.value)) {
        Ok(name) => match assigned_identity(assignments, encode_utf8(name)) {
            Some(local) => Ok((local, name)),
            None => Err(BindFailure::Unbound(encode_utf8(name))),
        },
        Err(id) => Err(BindFailure::Unresolved(id)),
    }
}

/// The members of each declaration in turn; the first failure wins.
pub open spec fn members_of(
    names: Seq<Seq<char>>,
    assignments: Seq<BoundAssignment>,
    declarations: Seq<EncodedDeclaration>,
) -> Result<Seq<(u64, Seq<char>)>, BindFailure>
    decreases declarations.len(),
{
    if declarations.len() == 0 {
        Ok(Seq::empty())
    } else {
        match members_of(names, assignments, declarations.drop_last()) {
            Ok(prefix) => match member_of(names, assignments, declarations.last()) {
                Ok(last) => Ok(prefix.push(last)),
                Err(failure) => Err(failure),
            },
            Err(failure) => Err(failure),
        }
    }
}

// ---------------------------------------------------------------------------
// Byte helpers
// ---------------------------------------------------------------------------

fn one_byte(a: u8) -> (bytes: Vec<u8>)
    ensures
        bytes@ == seq![a],
{
    let mut bytes = Vec::new();
    bytes.push(a);
    assert(bytes@ =~= seq![a]);
    bytes
}

fn two_bytes(a: u8, b: u8) -> (bytes: Vec<u8>)
    ensures
        bytes@ == seq![a, b],
{
    let mut bytes = Vec::new();
    bytes.push(a);
    bytes.push(b);
    assert(bytes@ =~= seq![a, b]);
    bytes
}

fn single_projection_tag(projection: SingleTypeReferenceProjection) -> (tag: u8)
    ensures
        tag == crate::shape::single_projection_tag(projection),
{
    match projection {
        SingleTypeReferenceProjection::Vector => 0,
        SingleTypeReferenceProjection::Optional => 1,
        SingleTypeReferenceProjection::ScopeOf => 2,
    }
}

fn multi_projection_tag(projection: MultiTypeReferenceProjection) -> (tag: u8)
    ensures
        tag == crate::shape::multi_projection_tag(projection),
{
    match projection {
        MultiTypeReferenceProjection::MapOf => 0,
    }
}

fn value_projection_tag(projection: ValueReferenceProjection) -> (tag: u8)
    ensures
        tag == crate::shape::value_projection_tag(projection),
{
    match projection {
        ValueReferenceProjection::Bytes => 0,
    }
}

// ---------------------------------------------------------------------------
// Prefix lemmas
// ---------------------------------------------------------------------------

proof fn lemma_resolve_references_prefix(
    names: Seq<Seq<char>>,
    references: Seq<EncodedReference>,
    k: int,
)
    requires
        0 <= k <= references.len(),
        resolve_references(names, references.take(k)) is Err,
    ensures
        resolve_references(names, references) == resolve_references(names, references.take(k)),
    decreases references.len() - k,
{
    if k < references.len() {
        assert(references.take(k + 1).drop_last() =~= references.take(k));
        lemma_resolve_references_prefix(names, references, k + 1);
    } else {
        assert(references.take(k) =~= references);
    }
}

proof fn lemma_resolve_fields_prefix(names: Seq<Seq<char>>, fields: Seq<EncodedField>, k: int)
    requires
        0 <= k <= fields.len(),
        resolve_fields(names, fields.take(k)) is Err,
    ensures
        resolve_fields(names, fields) == resolve_fields(names, fields.take(k)),
    decreases fields.len() - k,
{
    if k < fields.len() {
        assert(fields.take(k + 1).drop_last() =~= fields.take(k));
        lemma_resolve_fields_prefix(names, fields, k + 1);
    } else {
        assert(fields.take(k) =~= fields);
    }
}

proof fn lemma_resolve_variants_prefix(
    names: Seq<Seq<char>>,
    variants: Seq<EncodedVariant>,
    k: int,
)
    requires
        0 <= k <= variants.len(),
        resolve_variants(names, variants.take(k)) is Err,
    ensures
        resolve_variants(names, variants) == resolve_variants(names, variants.take(k)),
    decreases variants.len() - k,
{
    if k < variants.len() {
        assert(variants.take(k + 1).drop_last() =~= variants.take(k));
        lemma_resolve_variants_prefix(names, variants, k + 1);
    } else {
        assert(variants.take(k) =~= variants);
    }
}

// ---------------------------------------------------------------------------
// Folding a declaration's structure
// ---------------------------------------------------------------------------

impl ParsedSchema {
    #[verifier::loop_isolation(false)]
    fn fold_reference(&self, feed: &mut ShapeFeed, reference: &EncodedReference) -> (folded:
        Result<(), NameTableError>)
        ensures
            match resolve_reference(self.names@, *reference) {
                Ok(resolved) => folded is Ok && final(feed)@ == old(feed)@ + reference_feed(
                    resolved,
                ),
                Err(id) => folded == Err::<(), NameTableError>(
                    NameTableError::UnknownIdentifier(id),
                ),
            },
        decreases reference,
    {
        let ghost start = feed@;
        match reference {
            EncodedReference::String => {
                feed.update_raw(one_byte(0));
            },
            EncodedReference::Integer => {
                feed.update_raw(one_byte(1));
            },
            EncodedReference::Boolean => {
                feed.update_raw(one_byte(2));
            },
            EncodedReference::Bytes => {
                feed.update_raw(one_byte(3));
            },
            EncodedReference::Plain(identifier) => {
                feed.update_raw(one_byte(4));
                match self.names.resolve(*identifier) {
                    Ok(name) => feed.update_length_prefixed(name.as_str().as_bytes_vec()),
                    Err(error) => return Err(error),
                }
            },
            EncodedReference::SingleTypeApplication { projection, argument } => {
                feed.update_raw(two_bytes(5, single_projection_tag(*projection)));
                let ghost after_tag = feed@;
                match self.fold_reference(feed, argument) {
                    Ok(()) => {
                        proof {
                            let resolved = resolve_reference(self.names@, **argument)->Ok_0;
                            assert(after_tag + reference_feed(resolved) =~= start + reference_feed(
                                resolve_reference(self.names@, *reference)->Ok_0,
                            ));
                        }
                    },
                    Err(error) => return Err(error),
                }
            },
            EncodedReference::MultiTypeApplication { projection, arguments } => {
                feed.update_raw(two_bytes(6, multi_projection_tag(*projection)));
                feed.update_raw(u64_to_le_bytes(arguments.len() as u64));
                let ghost header = feed@;
                let mut i: usize = 0;
                while i < arguments.len()
                    invariant
                        i <= arguments@.len(),
                        resolve_references(self.names@, arguments@.take(i as int)) is Ok,
                        resolve_references(self.names@, arguments@.take(i as int))->Ok_0.len() == i,
                        feed@ == header + references_feed(
                            resolve_references(self.names@, arguments@.take(i as int))->Ok_0,
                        ),
                    decreases arguments@.len() - i,
                {
                    assert(arguments@.take(i + 1).drop_last() =~= arguments@.take(i as int));
                    assert(decreases_to!(*reference => arguments@[i as int]));
                    let ghost before = feed@;
                    match self.fold_reference(feed, &arguments[i]) {
                        Ok(()) => {
                            proof {
                                let prefix = resolve_references(
                                    self.names@,
                                    arguments@.take(i as int),
                                )->Ok_0;
                                let last = resolve_reference(self.names@, arguments@[i as int])->Ok_0;
                                assert(prefix.push(last).drop_last() =~= prefix);
                                assert(references_feed(prefix.push(last)) == references_feed(prefix)
                                    + reference_feed(last));
                                assert(feed@ =~= header + references_feed(prefix.push(last)));
                            }
                            i += 1;
                        },
                        Err(error) => {
                            proof {
                                lemma_resolve_references_prefix(self.names@, arguments@, i + 1);
                            }
                            return Err(error);
                        },
                    }
                }
                proof {
                    assert(arguments@.take(i as int) =~= arguments@);
                    let resolved = resolve_references(self.names@, arguments@)->Ok_0;
                    assert(feed@ =~= start + reference_feed(
                        ResolvedReference::MultiTypeApplication {
                            projection: *projection,
                            arguments: resolved,
                        },
                    ));
                }
            },
            EncodedReference::ValueApplication { projection, value } => {
                feed.update_raw(two_bytes(7, value_projection_tag(*projection)));
                feed.update_raw(u64_to_le_bytes(*value));
            },
        }
        Ok(())
    }
}

/// Whether two byte strings are equal.
fn bytes_equal(a: &Vec<u8>, b: &Vec<u8>) -> (equal: bool)
    ensures
        equal == (a@ == b@),
{
    if a.len() != b.len() {
        return false;
    }
    let mut i: usize = 0;
    while i < a.len()
        invariant
            i <= a@.len(),
            a@.len() == b@.len(),
            forall|k: int| 0 <= k < i ==> a@[k] == b@[k],
        decreases a@.len() - i,
    {
        if a[i] != b[i] {
            return false;
        }
        i += 1;
    }
    assert(a@ =~= b@);
    true
}

/// The identity of the first assignment bound to `key`.
fn find_assignment(assignments: &Vec<BoundAssignment>, key: &DeclaredKey) -> (found: Option<u64>)
    ensures
        found == assigned_identity(assignments@, key.0@),
{
    let mut i: usize = 0;
    assert(assignments@.skip(0) =~= assignments@);
    while i < assignments.len()
        invariant
            i <= assignments@.len(),
            assigned_identity(assignments@, key.0@) == assigned_identity(
                assignments@.skip(i as int),
                key.0@,
            ),
        decreases assignments@.len() - i,
    {
        assert(assignments@.skip(i as int)[0] == assignments@[i as int]);
        assert(assignments@.skip(i as int).drop_first() =~= assignments@.skip(i + 1));
        if bytes_equal(&assignments[i].key.0, &key.0) {
            return Some(assignments[i].identity);
        }
        i += 1;
    }
    assert(assignments@.skip(i as int).len() == 0);
    None
}

impl ParsedSchema {
    /// The declarations of this parsed schema.
    pub closed spec fn declarations(&self) -> Seq<EncodedDeclaration> {
        self.schema.declarations@
    }

    /// The name space this schema's identifiers resolve through.
    pub closed spec fn name_space(&self) -> Seq<Seq<char>> {
        self.names@
    }

    /// Parses through the legacy front end: a lowered legacy source migrated into the
    /// encoded form, with the name table the migration interned into.
    pub fn from_legacy(source: &LoweredSource) -> (parsed: Result<ParsedSchema, AuthorityIngestError>)
        ensures
            match parsed {
                Ok(p) => {
                    &&& source_error(*source) is None
                    &&& p.name_space() == intern_all(Seq::empty(), source_spellings(*source))
                    &&& migration_matches(p.name_space(), p.declarations(), *source)
                },
                Err(e) => source_error(*source) matches Some(error) && e
                    == AuthorityIngestError::Legacy(error),
            },
    {
        match LegacySchemaIngest::migrate_lowered(source) {
            Ok(migration) => Ok(ParsedSchema { schema: migration.schema, names: migration.names }),
            Err(error) => Err(AuthorityIngestError::Legacy(error)),
        }
    }

    /// A parsed schema from a decoded schema and the name table it was decoded against.
    pub fn from_parts(schema: EncodedSchema, names: NameTable) -> (parsed: ParsedSchema)
        ensures
            parsed.declarations() == schema.declarations@,
            parsed.name_space() == names@,
    {
        ParsedSchema { schema, names }
    }

    /// The parsed declarations.
    pub fn schema(&self) -> (schema: &EncodedSchema)
        ensures
            schema.declarations@ == self.declarations(),
    {
        &self.schema
    }

    /// The name table the declarations resolve through.
    pub fn names(&self) -> (names: &NameTable)
        ensures
            names@ == self.name_space(),
    {
        &self.names
    }

    fn fold_field(&self, feed: &mut ShapeFeed, field: &EncodedField) -> (folded: Result<
        (),
        NameTableError,
    >)
        ensures
            match resolve_field(self.names@, *field) {
                Ok(resolved) => folded is Ok && final(feed)@ == old(feed)@ + seq![
                    FeedItem::LengthPrefixed(encode_utf8(resolved.0)),
                ] + reference_feed(resolved.1),
                Err(id) => folded == Err::<(), NameTableError>(
                    NameTableError::UnknownIdentifier(id),
                ),
            },
    {
        match self.names.resolve(field.identifier) {
            Ok(name) => feed.update_length_prefixed(name.as_str().as_bytes_vec()),
            Err(error) => return Err(error),
        }
        self.fold_reference(feed, &field.reference)
    }

    fn fold_variant(&self, feed: &mut ShapeFeed, variant: &EncodedVariant) -> (folded: Result<
        (),
        NameTableError,
    >)
        ensures
            match resolve_variant(self.names@, *variant) {
                Ok(resolved) => folded is Ok && final(feed)@ == old(feed)@ + seq![
                    FeedItem::LengthPrefixed(encode_utf8(resolved.0)),
                ] + payload_feed(resolved.1),
                Err(id) => folded == Err::<(), NameTableError>(
                    NameTableError::UnknownIdentifier(id),
                ),
            },
    {
        match self.names.resolve(variant.identifier) {
            Ok(name) => feed.update_length_prefixed(name.as_str().as_bytes_vec()),
            Err(error) => return Err(error),
        }
        let ghost named = feed@;
        match &variant.payload {
            Some(reference) => {
                feed.update_raw(one_byte(1));
                let ghost tagged = feed@;
                let folded = self.fold_reference(feed, reference);
                proof {
                    if let Ok(resolved) = resolve_reference(self.names@, *reference) {
                        assert(tagged + reference_feed(resolved) =~= named + payload_feed(
                            Some(resolved),
                        ));
                    }
                }
                folded
            },
            None => {
                feed.update_raw(one_byte(0));
                Ok(())
            },
        }
    }
}

fn role_tag(role: DeclarationRole) -> (tag: u8)
    ensures
        tag == crate::shape::role_tag(role),
{
    match role {
        DeclarationRole::DataType => 0,
        DeclarationRole::InterfaceInput => 1,
        DeclarationRole::InterfaceOutput => 2,
    }
}

fn visibility_tag(visibility: Visibility) -> (tag: u8)
    ensures
        tag == crate::shape::visibility_tag(visibility),
{
    match visibility {
        Visibility::Public => 0,
        Visibility::Private => 1,
    }
}

impl ParsedSchema {
    /// The declared key of one declaration: its resolved name's UTF-8 bytes.
    fn declared_key(&self, declaration: &EncodedDeclaration) -> (key: Result<
        DeclaredKey,
        AuthorityIngestError,
    >)
        ensures
            match declared_key_of(self.names@, *declaration) {
                Ok(bytes) => key matches Ok(k) && k.0@ == bytes,
                Err(id) => key matches Err(e) && reports(e, BindFailure::Unresolved(id)),
            },
    {
        match self.names.resolve(declaration.identifier()) {
            Ok(name) => Ok(DeclaredKey(name.as_str().as_bytes_vec())),
            Err(error) => Err(AuthorityIngestError::Names(error)),
        }
    }

    #[verifier::loop_isolation(false)]
    fn fold_fields(&self, feed: &mut ShapeFeed, fields: &Vec<EncodedField>) -> (folded: Result<
        (),
        NameTableError,
    >)
        ensures
            match resolve_fields(self.names@, fields@) {
                Ok(resolved) => folded is Ok && resolved.len() == fields@.len() && final(feed)@
                    == old(feed)@ + fields_feed(resolved),
                Err(id) => folded == Err::<(), NameTableError>(
                    NameTableError::UnknownIdentifier(id),
                ),
            },
    {
        let ghost header = feed@;
        let ghost all = fields@;
        let mut i: usize = 0;
        while i < fields.len()
            invariant
                i <= all.len(),
                resolve_fields(self.names@, all.take(i as int)) is Ok,
                resolve_fields(self.names@, all.take(i as int))->Ok_0.len() == i,
                feed@ == header + fields_feed(resolve_fields(self.names@, all.take(i as int))->Ok_0),
            decreases all.len() - i,
        {
            assert(all.take(i + 1).drop_last() =~= all.take(i as int));
            match self.fold_field(feed, &fields[i]) {
                Ok(()) => {
                    proof {
                        let prefix = resolve_fields(self.names@, all.take(i as int))->Ok_0;
                        let last = resolve_field(self.names@, all[i as int])->Ok_0;
                        assert(prefix.push(last).drop_last() =~= prefix);
                        assert(feed@ =~= header + fields_feed(prefix.push(last)));
                    }
                    i += 1;
                },
                Err(error) => {
                    proof {
                        lemma_resolve_fields_prefix(self.names@, all, i + 1);
                    }
                    return Err(error);
                },
            }
        }
        assert(all.take(i as int) =~= all);
        Ok(())
    }

    #[verifier::loop_isolation(false)]
    fn fold_variants(&self, feed: &mut ShapeFeed, variants: &Vec<EncodedVariant>) -> (folded:
        Result<(), NameTableError>)
        ensures
            match resolve_variants(self.names@, variants@) {
                Ok(resolved) => folded is Ok && resolved.len() == variants@.len() && final(feed)@
                    == old(feed)@ + variants_feed(resolved),
                Err(id) => folded == Err::<(), NameTableError>(
                    NameTableError::UnknownIdentifier(id),
                ),
            },
    {
        let ghost header = feed@;
        let ghost all = variants@;
        let mut i: usize = 0;
        while i < variants.len()
            invariant
                i <= all.len(),
                resolve_variants(self.names@, all.take(i as int)) is Ok,
                resolve_variants(self.names@, all.take(i as int))->Ok_0.len() == i,
                feed@ == header + variants_feed(
                    resolve_variants(self.names@, all.take(i as int))->Ok_0,
                ),
            decreases all.len() - i,
        {
            assert(all.take(i + 1).drop_last() =~= all.take(i as int));
            match self.fold_variant(feed, &variants[i]) {
                Ok(()) => {
                    proof {
                        let prefix = resolve_variants(self.names@, all.take(i as int))->Ok_0;
                        let last = resolve_variant(self.names@, all[i as int])->Ok_0;
                        assert(prefix.push(last).drop_last() =~= prefix);
                        assert(feed@ =~= header + variants_feed(prefix.push(last)));
                    }
                    i += 1;
                },
                Err(error) => {
                    proof {
                        lemma_resolve_variants_prefix(self.names@, all, i + 1);
                    }
                    return Err(error);
                },
            }
        }
        assert(all.take(i as int) =~= all);
        Ok(())
    }

    /// The fingerprint input of one declaration's resolved structure.
    fn declared_shape(&self, declaration: &EncodedDeclaration) -> (shape: Result<
        ShapeFeed,
        AuthorityIngestError,
    >)
        ensures
            match resolve_shape(self.names@, *declaration) {
                Ok(resolved) => shape matches Ok(feed) && feed@ == shape_feed(resolved),
                Err(id) => shape matches Err(e) && reports(e, BindFailure::Unresolved(id)),
            },
    {
        let mut feed = ShapeFeed::new();
        feed.update_raw(two_bytes(role_tag(declaration.role), visibility_tag(declaration.visibility)));
        let folded = match &declaration.value {
            EncodedType::Newtype(newtype) => {
                feed.update_raw(one_byte(0));
                self.fold_reference(&mut feed, &newtype.reference)
            },
            EncodedType::Struct(structure) => {
                feed.update_raw(one_byte(1));
                feed.update_raw(u64_to_le_bytes(structure.fields.len() as u64));
                self.fold_fields(&mut feed, &structure.fields)
            },
            EncodedType::Enumeration(enumeration) => {
                feed.update_raw(one_byte(2));
                feed.update_raw(u64_to_le_bytes(enumeration.variants.len() as u64));
                self.fold_variants(&mut feed, &enumeration.variants)
            },
        };
        match folded {
            Ok(()) => {
                proof {
                    let resolved = resolve_shape(self.names@, *declaration)->Ok_0;
                    assert(feed@ =~= shape_feed(resolved));
                }
                Ok(feed)
            },
            Err(error) => Err(AuthorityIngestError::Names(error)),
        }
    }

    /// The bind-or-mint declaration set: one declared identity per declaration, in
    /// declaration order, keyed by resolved name and fingerprinted by resolved shape.
    pub fn declared_identities(&self) -> (identities: Result<
        Vec<DeclaredIdentity>,
        AuthorityIngestError,
    >)
        ensures
            match identities_of(self.name_space(), self.declarations()) {
                Ok(expected) => identities matches Ok(found) && found@.len() == expected.len()
                    && forall|i: int|
                    0 <= i < expected.len() ==> {
                        &&& (#[trigger] found@[i]).key.0@ == expected[i].0
                        &&& found@[i].shape@ == expected[i].1
                        &&& found@[i].intent == IdentityIntent::MintOrBind
                    },
                Err(id) => identities matches Err(e) && reports(e, BindFailure::Unresolved(id)),
            },
    {
        let ghost all = self.schema.declarations@;
        let mut identities: Vec<DeclaredIdentity> = Vec::new();
        let mut i: usize = 0;
        while i < self.schema.declarations.len()
            invariant
                i <= all.len(),
                all == self.schema.declarations@,
                identities_of(self.names@, all.take(i as int)) is Ok,
                identities@.len() == i,
                forall|k: int|
                    0 <= k < i ==> {
                        &&& (#[trigger] identities@[k]).key.0@ == identities_of(
                            self.names@,
                            all.take(i as int),
                        )->Ok_0[k].0
                        &&& identities@[k].shape@ == identities_of(
                            self.names@,
                            all.take(i as int),
                        )->Ok_0[k].1
                        &&& identities@[k].intent == IdentityIntent::MintOrBind
                    },
                identities_of(self.names@, all.take(i as int))->Ok_0.len() == i,
            decreases all.len() - i,
        {
            let declaration = &self.schema.declarations[i];
            assert(all.take(i + 1).drop_last() =~= all.take(i as int));
            let key = match self.declared_key(declaration) {
                Ok(key) => key,
                Err(error) => {
                    proof {
                        lemma_identities_prefix(self.names@, all, i + 1);
                    }
                    return Err(error);
                },
            };
            let shape = match self.declared_shape(declaration) {
                Ok(shape) => shape,
                Err(error) => {
                    proof {
                        lemma_identities_prefix(self.names@, all, i + 1);
                    }
                    return Err(error);
                },
            };
            identities.push(DeclaredIdentity { key, shape, intent: IdentityIntent::MintOrBind });
            i += 1;
        }
        assert(all.take(i as int) =~= all);
        Ok(identities)
    }

    /// The assignment a universe is built from: one member per declaration, in
    /// declaration order, at the identity the authority bound to the declaration's key.
    pub fn build_universe(&self, bound: &BoundIdentities) -> (built: Result<
        UniverseAssignment,
        AuthorityIngestError,
    >)
        ensures
            match members_of(self.name_space(), bound.assignments@, self.declarations()) {
                Ok(expected) => built matches Ok(universe) && universe.universe == bound.universe
                    && universe.members@.len() == expected.len() && forall|i: int|
                    0 <= i < expected.len() ==> {
                        &&& (#[trigger] universe.members@[i]).local == expected[i].0
                        &&& universe.members@[i].name@ == expected[i].1
                        &&& same_declaration(
                            universe.members@[i].declaration,
                            self.declarations()[i],
                        )
                    },
                Err(failure) => built matches Err(e) && reports(e, failure),
            },
    {
        let ghost all = self.schema.declarations@;
        let ghost assignments = bound.assignments@;
        let mut members: Vec<AssignedMember> = Vec::new();
        let mut i: usize = 0;
        while i < self.schema.declarations.len()
            invariant
                i <= all.len(),
                all == self.schema.declarations@,
                assignments == bound.assignments@,
                members_of(self.names@, assignments, all.take(i as int)) is Ok,
                members_of(self.names@, assignments, all.take(i as int))->Ok_0.len() == i,
                members@.len() == i,
                forall|k: int|
                    0 <= k < i ==> {
                        &&& (#[trigger] members@[k]).local == members_of(
                            self.names@,
                            assignments,
                            all.take(i as int),
                        )->Ok_0[k].0
                        &&& members@[k].name@ == members_of(
                            self.names@,
                            assignments,
                            all.take(i as int),
                        )->Ok_0[k].1
                        &&& same_declaration(members@[k].declaration, all[k])
                    },
            decreases all.len() - i,
        {
            let declaration = &self.schema.declarations[i];
            assert(all.take(i + 1).drop_last() =~= all.take(i as int));
            let key = match self.declared_key(declaration) {
                Ok(key) => key,
                Err(error) => {
                    proof {
                        lemma_members_prefix(self.names@, assignments, all, i + 1);
                    }
                    return Err(error);
                },
            };
            let local = match find_assignment(&bound.assignments, &key) {
                Some(local) => local,
                None => {
                    proof {
                        lemma_members_prefix(self.names@, assignments, all, i + 1);
                    }
                    return Err(AuthorityIngestError::UnboundDeclaration(key.0));
                },
            };
            let name = match self.names.resolve(declaration.identifier()) {
                Ok(name) => name.clone(),
                Err(error) => return Err(AuthorityIngestError::Names(error)),
            };
            members.push(AssignedMember { local, name, declaration: declaration.duplicate() });
            i += 1;
        }
        assert(all.take(i as int) =~= all);
        Ok(UniverseAssignment { universe: bound.universe, members })
    }
}

proof fn lemma_identities_prefix(
    names: Seq<Seq<char>>,
    declarations: Seq<EncodedDeclaration>,
    k: int,
)
    requires
        0 <= k <= declarations.len(),
        identities_of(names, declarations.take(k)) is Err,
    ensures
        identities_of(names, declarations) == identities_of(names, declarations.take(k)),
    decreases declarations.len() - k,
{
    if k < declarations.len() {
        assert(declarations.take(k + 1).drop_last() =~= declarations.take(k));
        lemma_identities_prefix(names, declarations, k + 1);
    } else {
        assert(declarations.take(k) =~= declarations);
    }
}

proof fn lemma_members_prefix(
    names: Seq<Seq<char>>,
    assignments: Seq<BoundAssignment>,
    declarations: Seq<EncodedDeclaration>,
    k: int,
)
    requires
        0 <= k <= declarations.len(),
        members_of(names, assignments, declarations.take(k)) is Err,
    ensures
        members_of(names, assignments, declarations) == members_of(
            names,
            assignments,
            declarations.take(k),
        ),
    decreases declarations.len() - k,
{
    if k < declarations.len() {
        assert(declarations.take(k + 1).drop_last() =~= declarations.take(k));
        lemma_members_prefix(names, assignments, declarations, k + 1);
    } else {
        assert(declarations.take(k) =~= declarations);
    }
}

/// The declared content of a declaration: its resolved name, then its resolved shape.
pub open spec fn declared_content(names: Seq<Seq<char>>, declaration: EncodedDeclaration) -> Result<
    (Seq<char>, ResolvedShape),
    Identifier,
> {
    match resolve_name(names, type_identifier(declaration.value)) {
        Ok(name) => match resolve_shape(names, declaration) {
            Ok(shape) => Ok((name, shape)),
            Err(id) => Err(id),
        },
        Err(id) => Err(id),
    }
}

/// Two declaration lists declare the same content, declaration for declaration, each
/// resolving fully through its own name table.
pub open spec fn same_declared_content(
    names_a: Seq<Seq<char>>,
    declarations_a: Seq<EncodedDeclaration>,
    names_b: Seq<Seq<char>>,
    declarations_b: Seq<EncodedDeclaration>,
) -> bool {
    &&& declarations_a.len() == declarations_b.len()
    &&& forall|i: int|
        0 <= i < declarations_a.len() ==> declared_content(names_a, #[trigger] declarations_a[i])
            is Ok && declared_content(names_a, declarations_a[i]) == declared_content(
            names_b,
            declarations_b[i],
        )
}

/// Two front ends that parse the same declared content into different private name
/// tables present the authority with identical identity requests, and, given one
/// authority reply, assign every declaration the same local identity and name.
pub proof fn lemma_front_ends_agree(
    names_a: Seq<Seq<char>>,
    declarations_a: Seq<EncodedDeclaration>,
    names_b: Seq<Seq<char>>,
    declarations_b: Seq<EncodedDeclaration>,
    assignments: Seq<BoundAssignment>,
)
    requires
        same_declared_content(names_a, declarations_a, names_b, declarations_b),
    ensures
        identities_of(names_a, declarations_a) is Ok,
        identities_of(names_a, declarations_a) == identities_of(names_b, declarations_b),
        members_of(names_a, assignments, declarations_a) == members_of(
            names_b,
            assignments,
            declarations_b,
        ),
    decreases declarations_a.len(),
{
    if declarations_a.len() > 0 {
        let n = declarations_a.len() - 1;
        assert forall|i: int| 0 <= i < declarations_a.drop_last().len() implies declared_content(
            names_a,
            #[trigger] declarations_a.drop_last()[i],
        ) is Ok && declared_content(names_a, declarations_a.drop_last()[i]) == declared_content(
            names_b,
            declarations_b.drop_last()[i],
        ) by {
            assert(declarations_a.drop_last()[i] == declarations_a[i]);
            assert(declarations_b.drop_last()[i] == declarations_b[i]);
        }
        lemma_front_ends_agree(
            names_a,
            declarations_a.drop_last(),
            names_b,
            declarations_b.drop_last(),
            assignments,
        );
        assert(declared_content(names_a, declarations_a[n]) == declared_content(
            names_b,
            declarations_b[n],
        ));
    }
}

/// `order` lists each of the positions `0..n` exactly once.
pub open spec fn is_rearrangement(order: Seq<int>, n: int) -> bool {
    &&& order.len() == n
    &&& forall|i: int| 0 <= i < n ==> 0 <= #[trigger] order[i] < n
    &&& forall|i: int, j: int|
        0 <= i < n && 0 <= j < n && i != j ==> #[trigger] order[i] != #[trigger] order[j]
    &&& forall|k: int| 0 <= k < n ==> #[trigger] order.contains(k)
}

/// Two declaration lists declare the same content in possibly different orders: the
/// declaration at position `i` of the first declares what the one at `order[i]` of the
/// second declares, each resolving fully through its own name table.
pub open spec fn same_declared_content_in_order(
    names_a: Seq<Seq<char>>,
    declarations_a: Seq<EncodedDeclaration>,
    names_b: Seq<Seq<char>>,
    declarations_b: Seq<EncodedDeclaration>,
    order: Seq<int>,
) -> bool {
    &&& declarations_a.len() == declarations_b.len()
    &&& is_rearrangement(order, declarations_a.len() as int)
    &&& forall|i: int|
        0 <= i < declarations_a.len() ==> declared_content(names_a, #[trigger] declarations_a[i])
            is Ok && declared_content(names_a, declarations_a[i]) == declared_content(
            names_b,
            declarations_b[order[i]],
        )
}

/// The declared identities succeed exactly when each declaration's does, and then list
/// them declaration for declaration.
proof fn lemma_identities_each(names: Seq<Seq<char>>, declarations: Seq<EncodedDeclaration>)
    ensures
        (identities_of(names, declarations) is Ok) == (forall|i: int|
            0 <= i < declarations.len() ==> identity_of(names, #[trigger] declarations[i]) is Ok),
        identities_of(names, declarations) is Ok ==> identities_of(names, declarations)->Ok_0.len()
            == declarations.len(),
        identities_of(names, declarations) is Ok ==> forall|i: int|
            0 <= i < declarations.len() ==> identities_of(names, declarations)->Ok_0[i]
                == identity_of(names, #[trigger] declarations[i])->Ok_0,
    decreases declarations.len(),
{
    if declarations.len() > 0 {
        let front = declarations.drop_last();
        let n = declarations.len() - 1;
        lemma_identities_each(names, front);
        assert forall|i: int| 0 <= i < front.len() implies #[trigger] front[i] == declarations[i] by {}
        if (forall|i: int| 0 <= i < declarations.len() ==> identity_of(names, #[trigger] declarations[i]) is Ok) {
            assert forall|i: int| 0 <= i < front.len() implies identity_of(names, #[trigger] front[i]) is Ok by {
                assert(front[i] == declarations[i]);
            }
            assert(identity_of(names, declarations[n]) is Ok);
        }
        if identities_of(names, front) is Ok && identity_of(names, declarations.last()) is Ok {
            assert forall|i: int| 0 <= i < declarations.len() implies identity_of(names, #[trigger] declarations[i]) is Ok by {
                if i < n {
                    assert(front[i] == declarations[i]);
                }
            }
        }
        if identities_of(names, front) is Err {
            let i = choose|i: int| 0 <= i < front.len() && !(identity_of(names, #[trigger] front[i]) is Ok);
            assert(front[i] == declarations[i]);
        }
        if identities_of(names, declarations) is Ok {
            let all = identities_of(names, declarations)->Ok_0;
            let prefix = identities_of(names, front)->Ok_0;
            assert(all == prefix.push(identity_of(names, declarations[n])->Ok_0));
            assert forall|i: int| 0 <= i < declarations.len() implies all[i] == identity_of(
                names,
                #[trigger] declarations[i],
            )->Ok_0 by {
                if i < n {
                    assert(front[i] == declarations[i]);
                    assert(all[i] == prefix[i]);
                }
            }
        }
    }
}

/// The member assignment succeeds exactly when each declaration's member does, and then
/// lists them declaration for declaration.
proof fn lemma_members_each(
    names: Seq<Seq<char>>,
    assignments: Seq<BoundAssignment>,
    declarations: Seq<EncodedDeclaration>,
)
    ensures
        (members_of(names, assignments, declarations) is Ok) == (forall|i: int|
            0 <= i < declarations.len() ==> member_of(names, assignments, #[trigger] declarations[i])
                is Ok),
        members_of(names, assignments, declarations) is Ok ==> members_of(
            names,
            assignments,
            declarations,
        )->Ok_0.len() == declarations.len(),
        members_of(names, assignments, declarations) is Ok ==> forall|i: int|
            0 <= i < declarations.len() ==> members_of(names, assignments, declarations)->Ok_0[i]
                == member_of(names, assignments, #[trigger] declarations[i])->Ok_0,
    decreases declarations.len(),
{
    if declarations.len() > 0 {
        let front = declarations.drop_last();
        let n = declarations.len() - 1;
        lemma_members_each(names, assignments, front);
        assert forall|i: int| 0 <= i < front.len() implies #[trigger] front[i] == declarations[i] by {}
        if (forall|i: int| 0 <= i < declarations.len() ==> member_of(names, assignments, #[trigger] declarations[i]) is Ok) {
            assert forall|i: int| 0 <= i < front.len() implies member_of(names, assignments, #[trigger] front[i]) is Ok by {
                assert(front[i] == declarations[i]);
            }
            assert(member_of(names, assignments, declarations[n]) is Ok);
        }
        if members_of(names, assignments, front) is Ok && member_of(names, assignments, declarations.last()) is Ok {
            assert forall|i: int| 0 <= i < declarations.len() implies member_of(names, assignments, #[trigger] declarations[i]) is Ok by {
                if i < n {
                    assert(front[i] == declarations[i]);
                }
            }
        }
        if members_of(names, assignments, front) is Err {
            let i = choose|i: int| 0 <= i < front.len() && !(member_of(names, assignments, #[trigger] front[i]) is Ok);
            assert(front[i] == declarations[i]);
        }
        if members_of(names, assignments, declarations) is Ok {
            let all = members_of(names, assignments, declarations)->Ok_0;
            let prefix = members_of(names, assignments, front)->Ok_0;
            assert(all == prefix.push(member_of(names, assignments, declarations[n])->Ok_0));
            assert forall|i: int| 0 <= i < declarations.len() implies all[i] == member_of(
                names,
                assignments,
                #[trigger] declarations[i],
            )->Ok_0 by {
                if i < n {
                    assert(front[i] == declarations[i]);
                    assert(all[i] == prefix[i]);
                }
            }
        }
    }
}

/// A declaration's identity request and member depend only on its declared content.
proof fn lemma_content_determines_request(
    names_a: Seq<Seq<char>>,
    a: EncodedDeclaration,
    names_b: Seq<Seq<char>>,
    b: EncodedDeclaration,
    assignments: Seq<BoundAssignment>,
)
    requires
        declared_content(names_a, a) is Ok,
        declared_content(names_a, a) == declared_content(names_b, b),
    ensures
        identity_of(names_a, a) is Ok,
        identity_of(names_a, a) == identity_of(names_b, b),
        member_of(names_a, assignments, a) == member_of(names_b, assignments, b),
{
}

proof fn lemma_identities_in_any_order(
    names_a: Seq<Seq<char>>,
    declarations_a: Seq<EncodedDeclaration>,
    names_b: Seq<Seq<char>>,
    declarations_b: Seq<EncodedDeclaration>,
    order: Seq<int>,
)
    requires
        declarations_a.len() == declarations_b.len(),
        is_rearrangement(order, declarations_a.len() as int),
        forall|i: int|
            0 <= i < declarations_a.len() ==> identity_of(names_a, #[trigger] declarations_a[i])
                is Ok && identity_of(names_a, declarations_a[i]) == identity_of(
                names_b,
                declarations_b[order[i]],
            ),
    ensures
        identities_of(names_a, declarations_a) is Ok,
        identities_of(names_b, declarations_b) is Ok,
        identities_of(names_a, declarations_a)->Ok_0.len() == identities_of(
            names_b,
            declarations_b,
        )->Ok_0.len(),
        forall|i: int|
            0 <= i < declarations_a.len() ==> #[trigger] identities_of(
                names_a,
                declarations_a,
            )->Ok_0[i] == identities_of(names_b, declarations_b)->Ok_0[order[i]],
{
    let n = declarations_a.len() as int;
    lemma_identities_each(names_a, declarations_a);
    lemma_identities_each(names_b, declarations_b);
    assert forall|k: int| 0 <= k < n implies identity_of(names_b, #[trigger] declarations_b[k])
        is Ok by {
        assert(order.contains(k));
        let i = choose|i: int| 0 <= i < order.len() && order[i] == k;
        assert(identity_of(names_a, declarations_a[i]) is Ok);
    }
    assert forall|i: int| 0 <= i < n implies #[trigger] identities_of(
        names_a,
        declarations_a,
    )->Ok_0[i] == identities_of(names_b, declarations_b)->Ok_0[order[i]] by {
        assert(0 <= order[i] < n);
        assert(identity_of(names_a, declarations_a[i]) == identity_of(
            names_b,
            declarations_b[order[i]],
        ));
    }
}

proof fn lemma_members_in_any_order(
    names_a: Seq<Seq<char>>,
    declarations_a: Seq<EncodedDeclaration>,
    names_b: Seq<Seq<char>>,
    declarations_b: Seq<EncodedDeclaration>,
    order: Seq<int>,
    assignments: Seq<BoundAssignment>,
)
    requires
        declarations_a.len() == declarations_b.len(),
        is_rearrangement(order, declarations_a.len() as int),
        forall|i: int|
            0 <= i < declarations_a.len() ==> member_of(
                names_a,
                assignments,
                #[trigger] declarations_a[i],
            ) == member_of(names_b, assignments, declarations_b[order[i]]),
    ensures
        (members_of(names_a, assignments, declarations_a) is Ok) == (members_of(
            names_b,
            assignments,
            declarations_b,
        ) is Ok),
        members_of(names_a, assignments, declarations_a) is Ok ==> members_of(
            names_a,
            assignments,
            declarations_a,
        )->Ok_0.len() == members_of(names_b, assignments, declarations_b)->Ok_0.len(),
        members_of(names_a, assignments, declarations_a) is Ok ==> forall|i: int|
            0 <= i < declarations_a.len() ==> #[trigger] members_of(
                names_a,
                assignments,
                declarations_a,
            )->Ok_0[i] == members_of(names_b, assignments, declarations_b)->Ok_0[order[i]],
{
    let n = declarations_a.len() as int;
    lemma_members_each(names_a, assignments, declarations_a);
    lemma_members_each(names_b, assignments, declarations_b);
    if members_of(names_a, assignments, declarations_a) is Ok {
        assert forall|k: int| 0 <= k < n implies member_of(
            names_b,
            assignments,
            #[trigger] declarations_b[k],
        ) is Ok by {
            assert(order.contains(k));
            let i = choose|i: int| 0 <= i < order.len() && order[i] == k;
            assert(member_of(names_a, assignments, declarations_a[i]) is Ok);
        }
        assert forall|i: int| 0 <= i < n implies #[trigger] members_of(
            names_a,
            assignments,
            declarations_a,
        )->Ok_0[i] == members_of(names_b, assignments, declarations_b)->Ok_0[order[i]] by {
            assert(0 <= order[i] < n);
            assert(member_of(names_a, assignments, declarations_a[i]) == member_of(
                names_b,
                assignments,
                declarations_b[order[i]],
            ));
        }
    }
    if members_of(names_b, assignments, declarations_b) is Ok {
        assert forall|i: int| 0 <= i < n implies member_of(
            names_a,
            assignments,
            #[trigger] declarations_a[i],
        ) is Ok by {
            assert(0 <= order[i] < n);
            assert(member_of(names_b, assignments, declarations_b[order[i]]) is Ok);
        }
    }
}

/// Two front ends that parse the same declared content, in any order, into different
/// private name tables present the authority with the same identity requests, rearranged
/// as the declarations are; given one authority reply, both bind every declaration or
/// both fail, and when they bind, each declaration gets the same local identity and name
/// in both.
pub proof fn lemma_front_ends_agree_in_any_order(
    names_a: Seq<Seq<char>>,
    declarations_a: Seq<EncodedDeclaration>,
    names_b: Seq<Seq<char>>,
    declarations_b: Seq<EncodedDeclaration>,
    order: Seq<int>,
    assignments: Seq<BoundAssignment>,
)
    requires
        same_declared_content_in_order(names_a, declarations_a, names_b, declarations_b, order),
    ensures
        identities_of(names_a, declarations_a) is Ok,
        identities_of(names_b, declarations_b) is Ok,
        identities_of(names_a, declarations_a)->Ok_0.len() == identities_of(
            names_b,
            declarations_b,
        )->Ok_0.len(),
        forall|i: int|
            0 <= i < declarations_a.len() ==> #[trigger] identities_of(
                names_a,
                declarations_a,
            )->Ok_0[i] == identities_of(names_b, declarations_b)->Ok_0[order[i]],
        (members_of(names_a, assignments, declarations_a) is Ok) == (members_of(
            names_b,
            assignments,
            declarations_b,
        ) is Ok),
        members_of(names_a, assignments, declarations_a) is Ok ==> members_of(
            names_a,
            assignments,
            declarations_a,
        )->Ok_0.len() == members_of(names_b, assignments, declarations_b)->Ok_0.len(),
        members_of(names_a, assignments, declarations_a) is Ok ==> forall|i: int|
            0 <= i < declarations_a.len() ==> #[trigger] members_of(
                names_a,
                assignments,
                declarations_a,
            )->Ok_0[i] == members_of(names_b, assignments, declarations_b)->Ok_0[order[i]],
{
    assert forall|i: int| 0 <= i < declarations_a.len() implies identity_of(
        names_a,
        #[trigger] declarations_a[i],
    ) is Ok && identity_of(names_a, declarations_a[i]) == identity_of(
        names_b,
        declarations_b[order[i]],
    ) && member_of(names_a, assignments, declarations_a[i]) == member_of(
        names_b,
        assignments,
        declarations_b[order[i]],
    ) by {
        lemma_content_determines_request(
            names_a,
            declarations_a[i],
            names_b,
            declarations_b[order[i]],
            assignments,
        );
    }
    lemma_identities_in_any_order(names_a, declarations_a, names_b, declarations_b, order);
    lemma_members_in_any_order(names_a, declarations_a, names_b, declarations_b, order, assignments);
}

/// A declared key determines the name it was resolved from: two declarations resolve
/// to the same name exactly when they are keyed alike.
pub proof fn lemma_key_determines_name(
    names: Seq<Seq<char>>,
    a: EncodedDeclaration,
    b: EncodedDeclaration,
)
    requires
        declared_key_of(names, a) is Ok,
        declared_key_of(names, b) is Ok,
    ensures
        (declared_key_of(names, a) == declared_key_of(names, b)) == (resolve_name(
            names,
            type_identifier(a.value),
        ) == resolve_name(names, type_identifier(b.value))),
{
    let name_a = resolve_name(names, type_identifier(a.value))->Ok_0;
    let name_b = resolve_name(names, type_identifier(b.value))->Ok_0;
    vstd::utf8::encode_utf8_decode_utf8(name_a);
    vstd::utf8::encode_utf8_decode_utf8(name_b);
}

/// The fingerprint input of a declaration's resolved shape, or the first interior
/// identifier that names nothing.
pub open spec fn declared_shape_of(names: Seq<Seq<char>>, declaration: EncodedDeclaration) -> Result<
    Seq<FeedItem>,
    Identifier,
> {
    match resolve_shape(names, declaration) {
        Ok(shape) => Ok(shape_feed(shape)),
        Err(id) => Err(id),
    }
}

/// A declaration body with its own identifier replaced by `id`.
pub open spec fn renamed(value: EncodedType, id: Identifier) -> EncodedType {
    match value {
        EncodedType::Newtype(newtype) => EncodedType::Newtype(
            EncodedNewtype { identifier: id, reference: newtype.reference },
        ),
        EncodedType::Struct(structure) => EncodedType::Struct(
            EncodedStruct { identifier: id, fields: structure.fields },
        ),
        EncodedType::Enumeration(enumeration) => EncodedType::Enumeration(
            EncodedEnum { identifier: id, variants: enumeration.variants },
        ),
    }
}

/// A declaration's shape does not depend on its own name: the name is carried by the
/// declared key alone.
pub proof fn lemma_shape_ignores_declared_name(
    names: Seq<Seq<char>>,
    declaration: EncodedDeclaration,
    id: Identifier,
)
    ensures
        declared_shape_of(
            names,
            EncodedDeclaration {
                role: declaration.role,
                visibility: declaration.visibility,
                value: renamed(declaration.value, id),
            },
        ) == declared_shape_of(names, declaration),
{
}

/// A declaration's role and visibility are part of its fingerprint: two declarations
/// with the same body that differ in role (data type, input root, output root) or in
/// visibility have different fingerprint inputs.
pub proof fn lemma_role_and_visibility_fingerprinted(
    names: Seq<Seq<char>>,
    a: EncodedDeclaration,
    b: EncodedDeclaration,
)
    requires
        declared_shape_of(names, a) is Ok,
        a.value == b.value,
        a.role != b.role || a.visibility != b.visibility,
    ensures
        declared_shape_of(names, b) is Ok,
        declared_shape_of(names, a) != declared_shape_of(names, b),
{
    let fa = declared_shape_of(names, a)->Ok_0;
    let fb = declared_shape_of(names, b)->Ok_0;
    let ha = fa[0];
    let hb = fb[0];
    if let (FeedItem::Raw(ba), FeedItem::Raw(bb)) = (ha, hb) {
        assert(ba[0] != bb[0] || ba[1] != bb[1]);
    }
    assert(ha != hb);
}

/// Two declarations, each resolved through its own name table, that have the same
/// resolved shape have the same fingerprint input, whatever identifiers the two tables
/// assigned.
pub proof fn lemma_shape_from_resolved_structure(
    names_a: Seq<Seq<char>>,
    a: EncodedDeclaration,
    names_b: Seq<Seq<char>>,
    b: EncodedDeclaration,
)
    requires
        resolve_shape(names_a, a) is Ok,
        resolve_shape(names_a, a) == resolve_shape(names_b, b),
    ensures
        declared_shape_of(names_a, a) is Ok,
        declared_shape_of(names_a, a) == declared_shape_of(names_b, b),
{
}

// ---------------------------------------------------------------------------
// What the member assignment depends on
// ---------------------------------------------------------------------------

/// Two assignment lists bind every declared key of `declarations` alike.
pub open spec fn agree_on_declared_keys(
    names: Seq<Seq<char>>,
    declarations: Seq<EncodedDeclaration>,
    a: Seq<BoundAssignment>,
    b: Seq<BoundAssignment>,
) -> bool {
    forall|i: int|
        0 <= i < declarations.len() ==> match declared_key_of(names, #[trigger] declarations[i]) {
            Ok(key) => assigned_identity(a, key) == assigned_identity(b, key),
            Err(_) => true,
        }
}

/// `key` is the declared key of none of `declarations`.
pub open spec fn undeclared_key(
    names: Seq<Seq<char>>,
    declarations: Seq<EncodedDeclaration>,
    key: Seq<u8>,
) -> bool {
    forall|i: int|
        0 <= i < declarations.len() ==> declared_key_of(names, #[trigger] declarations[i]) != Ok::<
            Seq<u8>,
            Identifier,
        >(key)
}

/// No two assignments share a key.
pub open spec fn distinct_keys(assignments: Seq<BoundAssignment>) -> bool {
    forall|i: int, j: int|
        0 <= i < assignments.len() && 0 <= j < assignments.len() && i != j ==> (
        #[trigger] assignments[i]).key.0@ != (#[trigger] assignments[j]).key.0@
}

/// Every assignment of `a` is, by key and identity, an assignment of `b`.
pub open spec fn covered_by(a: Seq<BoundAssignment>, b: Seq<BoundAssignment>) -> bool {
    forall|i: int|
        0 <= i < a.len() ==> exists|j: int|
            0 <= j < b.len() && (#[trigger] b[j]).key.0@ == (#[trigger] a[i]).key.0@ && b[j].identity
                == a[i].identity
}

/// The member assignment depends on the assignments only through the identities they
/// bind to the declared keys.
pub proof fn lemma_members_depend_on_declared_keys(
    names: Seq<Seq<char>>,
    declarations: Seq<EncodedDeclaration>,
    a: Seq<BoundAssignment>,
    b: Seq<BoundAssignment>,
)
    requires
        agree_on_declared_keys(names, declarations, a, b),
    ensures
        members_of(names, a, declarations) == members_of(names, b, declarations),
    decreases declarations.len(),
{
    if declarations.len() > 0 {
        let rest = declarations.drop_last();
        assert forall|i: int| 0 <= i < rest.len() implies match declared_key_of(
            names,
            #[trigger] rest[i],
        ) {
            Ok(key) => assigned_identity(a, key) == assigned_identity(b, key),
            Err(_) => true,
        } by {
            assert(rest[i] == declarations[i]);
        }
        lemma_members_depend_on_declared_keys(names, rest, a, b);
        assert(declarations.last() == declarations[declarations.len() - 1]);
    }
}

/// An assignment under another key does not change which identity a key is bound to.
pub proof fn lemma_assigned_identity_insert(
    assignments: Seq<BoundAssignment>,
    position: int,
    extra: BoundAssignment,
    key: Seq<u8>,
)
    requires
        0 <= position <= assignments.len(),
        extra.key.0@ != key,
    ensures
        assigned_identity(assignments.insert(position, extra), key) == assigned_identity(
            assignments,
            key,
        ),
    decreases assignments.len(),
{
    let grown = assignments.insert(position, extra);
    if position == 0 {
        assert(grown.drop_first() =~= assignments);
    } else {
        assert(grown[0] == assignments[0]);
        assert(grown.drop_first() =~= assignments.drop_first().insert(position - 1, extra));
        lemma_assigned_identity_insert(assignments.drop_first(), position - 1, extra, key);
    }
}

/// Extra assignments under keys that nothing declares leave the member assignment as it
/// is.
pub proof fn lemma_undeclared_assignment_ignored(
    names: Seq<Seq<char>>,
    declarations: Seq<EncodedDeclaration>,
    assignments: Seq<BoundAssignment>,
    position: int,
    extra: BoundAssignment,
)
    requires
        0 <= position <= assignments.len(),
        undeclared_key(names, declarations, extra.key.0@),
    ensures
        members_of(names, assignments.insert(position, extra), declarations) == members_of(
            names,
            assignments,
            declarations,
        ),
{
    assert forall|i: int| 0 <= i < declarations.len() implies match declared_key_of(
        names,
        #[trigger] declarations[i],
    ) {
        Ok(key) => assigned_identity(assignments.insert(position, extra), key)
            == assigned_identity(assignments, key),
        Err(_) => true,
    } by {
        if let Ok(key) = declared_key_of(names, declarations[i]) {
            lemma_assigned_identity_insert(assignments, position, extra, key);
        }
    }
    lemma_members_depend_on_declared_keys(
        names,
        declarations,
        assignments.insert(position, extra),
        assignments,
    );
}

/// With distinct keys, the identity bound to a key is that of the one assignment under
/// it.
proof fn lemma_assigned_identity_distinct(assignments: Seq<BoundAssignment>, key: Seq<u8>)
    requires
        distinct_keys(assignments),
    ensures
        forall|j: int|
            0 <= j < assignments.len() && (#[trigger] assignments[j]).key.0@ == key
                ==> assigned_identity(assignments, key) == Some(assignments[j].identity),
        (forall|j: int| 0 <= j < assignments.len() ==> (#[trigger] assignments[j]).key.0@ != key)
            ==> assigned_identity(assignments, key) is None,
    decreases assignments.len(),
{
    if assignments.len() > 0 {
        let rest = assignments.drop_first();
        assert forall|i: int, j: int|
            0 <= i < rest.len() && 0 <= j < rest.len() && i != j implies (
            #[trigger] rest[i]).key.0@ != (#[trigger] rest[j]).key.0@ by {
            assert(rest[i] == assignments[i + 1] && rest[j] == assignments[j + 1]);
        }
        lemma_assigned_identity_distinct(rest, key);
        assert forall|j: int|
            0 <= j < assignments.len() && (#[trigger] assignments[j]).key.0@ == key
                implies assigned_identity(assignments, key) == Some(assignments[j].identity) by {
            if j > 0 {
                assert(rest[j - 1] == assignments[j]);
                assert(assignments[0].key.0@ != assignments[j].key.0@);
            }
        }
        if forall|j: int| 0 <= j < assignments.len() ==> (#[trigger] assignments[j]).key.0@ != key {
            assert forall|j: int| 0 <= j < rest.len() implies (#[trigger] rest[j]).key.0@ != key by {
                assert(rest[j] == assignments[j + 1]);
            }
            assert(assignments[0].key.0@ != key);
        }
    }
}

/// Reordering assignments whose keys are distinct leaves the member assignment as it is.
pub proof fn lemma_reordered_assignments(
    names: Seq<Seq<char>>,
    declarations: Seq<EncodedDeclaration>,
    a: Seq<BoundAssignment>,
    b: Seq<BoundAssignment>,
)
    requires
        distinct_keys(a),
        distinct_keys(b),
        covered_by(a, b),
        covered_by(b, a),
    ensures
        members_of(names, a, declarations) == members_of(names, b, declarations),
{
    assert forall|i: int| 0 <= i < declarations.len() implies match declared_key_of(
        names,
        #[trigger] declarations[i],
    ) {
        Ok(key) => assigned_identity(a, key) == assigned_identity(b, key),
        Err(_) => true,
    } by {
        if let Ok(key) = declared_key_of(names, declarations[i]) {
            lemma_assigned_identity_distinct(a, key);
            lemma_assigned_identity_distinct(b, key);
            if exists|j: int| 0 <= j < a.len() && (#[trigger] a[j]).key.0@ == key {
                let j = choose|j: int| 0 <= j < a.len() && (#[trigger] a[j]).key.0@ == key;
                let k = choose|k: int|
                    0 <= k < b.len() && (#[trigger] b[k]).key.0@ == a[j].key.0@ && b[k].identity
                        == a[j].identity;
                assert(b[k].key.0@ == key);
            } else if exists|k: int| 0 <= k < b.len() && (#[trigger] b[k]).key.0@ == key {
                let k = choose|k: int| 0 <= k < b.len() && (#[trigger] b[k]).key.0@ == key;
                let j = choose|j: int|
                    0 <= j < a.len() && (#[trigger] a[j]).key.0@ == b[k].key.0@ && a[j].identity
                        == b[k].identity;
                assert(a[j].key.0@ == key);
            }
        }
    }
    lemma_members_depend_on_declared_keys(names, declarations, a, b);
}

} // verus!
