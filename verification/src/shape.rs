//! Declared shapes: a declaration's structure resolved through its name table, and the
//! sequence of hasher updates that fingerprints it.

use vstd::prelude::*;
use vstd::bytes::{lemma_auto_spec_u64_to_from_le_bytes, spec_u64_to_le_bytes};
use vstd::utf8::{encode_utf8, encode_utf8_decode_utf8};

use crate::encoded::{
    DeclarationRole, EncodedDeclaration, EncodedField, EncodedReference, EncodedType,
    EncodedVariant, MultiTypeReferenceProjection, SingleTypeReferenceProjection,
    ValueReferenceProjection, Visibility,
};
use crate::names::Identifier;

verus! {

broadcast use vstd::std_specs::vec::group_vec_axioms;

/// A reference with every identifier replaced by the spelling it names.
pub enum ResolvedReference {
    String,
    Integer,
    Boolean,
    Bytes,
    Plain(Seq<char>),
    SingleTypeApplication {
        projection: SingleTypeReferenceProjection,
        argument: Box<ResolvedReference>,
    },
    MultiTypeApplication {
        projection: MultiTypeReferenceProjection,
        arguments: Seq<ResolvedReference>,
    },
    ValueApplication { projection: ValueReferenceProjection, value: u64 },
}

/// A declaration body with every interior identifier resolved; the declaration's own
/// name is not part of its shape.
pub enum ResolvedBody {
    Newtype(ResolvedReference),
    Struct(Seq<(Seq<char>, ResolvedReference)>),
    Enumeration(Seq<(Seq<char>, Option<ResolvedReference>)>),
}

/// The resolved structure of a declaration: what its fingerprint is a function of.
pub struct ResolvedShape {
    pub role: DeclarationRole,
    pub visibility: Visibility,
    pub body: ResolvedBody,
}

// ---------------------------------------------------------------------------
// Resolution
// ---------------------------------------------------------------------------

/// `reference` resolved through `names`, or the first identifier (in order) that names
/// nothing.
pub open spec fn resolve_reference(
    names: Seq<Seq<char>>,
    reference: EncodedReference,
) -> Result<ResolvedReference, Identifier>
    decreases reference,
{
    match reference {
        EncodedReference::String => Ok(ResolvedReference::String),
        EncodedReference::Integer => Ok(ResolvedReference::Integer),
        EncodedReference::Boolean => Ok(ResolvedReference::Boolean),
        EncodedReference::Bytes => Ok(ResolvedReference::Bytes),
        EncodedReference::Plain(id) => if id.0 < names.len() {
            Ok(ResolvedReference::Plain(names[id.0 as int]))
        } else {
            Err(id)
        },
        EncodedReference::SingleTypeApplication { projection, argument } => match resolve_reference(
            names,
            *argument,
        ) {
            Ok(resolved) => Ok(
                ResolvedReference::SingleTypeApplication { projection, argument: Box::new(resolved) },
            ),
            Err(id) => Err(id),
        },
        EncodedReference::MultiTypeApplication { projection, arguments } => match resolve_references(
            names,
            arguments@,
        ) {
            Ok(resolved) => Ok(
                ResolvedReference::MultiTypeApplication { projection, arguments: resolved },
            ),
            Err(id) => Err(id),
        },
        EncodedReference::ValueApplication { projection, value } => Ok(
            ResolvedReference::ValueApplication { projection, value },
        ),
    }
}

/// Each reference resolved in turn; the first failure wins.
pub open spec fn resolve_references(
    names: Seq<Seq<char>>,
    references: Seq<EncodedReference>,
) -> Result<Seq<ResolvedReference>, Identifier>
    decreases references,
{
    if references.len() == 0 {
        Ok(Seq::empty())
    } else {
        match resolve_references(names, references.drop_last()) {
            Ok(prefix) => match resolve_reference(names, references.last()) {
                Ok(last) => Ok(prefix.push(last)),
                Err(id) => Err(id),
            },
            Err(id) => Err(id),
        }
    }
}

/// The spelling `id` names, or `id` itself when it names nothing.
pub open spec fn resolve_name(names: Seq<Seq<char>>, id: Identifier) -> Result<Seq<char>, Identifier> {
    if id.0 < names.len() {
        Ok(names[id.0 as int])
    } else {
        Err(id)
    }
}

/// A field resolved: its name first, then its reference.
pub open spec fn resolve_field(names: Seq<Seq<char>>, field: EncodedField) -> Result<
    (Seq<char>, ResolvedReference),
    Identifier,
> {
    match resolve_name(names, field.identifier) {
        Ok(name) => match resolve_reference(names, field.reference) {
            Ok(reference) => Ok((name, reference)),
            Err(id) => Err(id),
        },
        Err(id) => Err(id),
    }
}

pub open spec fn resolve_fields(names: Seq<Seq<char>>, fields: Seq<EncodedField>) -> Result<
    Seq<(Seq<char>, ResolvedReference)>,
    Identifier,
>
    decreases fields.len(),
{
    if fields.len() == 0 {
        Ok(Seq::empty())
    } else {
        match resolve_fields(names, fields.drop_last()) {
            Ok(prefix) => match resolve_field(names, fields.last()) {
                Ok(last) => Ok(prefix.push(last)),
                Err(id) => Err(id),
            },
            Err(id) => Err(id),
        }
    }
}

/// A variant resolved: its name first, then its payload.
pub open spec fn resolve_variant(names: Seq<Seq<char>>, variant: EncodedVariant) -> Result<
    (Seq<char>, Option<ResolvedReference>),
    Identifier,
> {
    match resolve_name(names, variant.identifier) {
        Ok(name) => match variant.payload {
            Some(reference) => match resolve_reference(names, reference) {
                Ok(resolved) => Ok((name, Some(resolved))),
                Err(id) => Err(id),
            },
            None => Ok((name, None)),
        },
        Err(id) => Err(id),
    }
}

pub open spec fn resolve_variants(names: Seq<Seq<char>>, variants: Seq<EncodedVariant>) -> Result<
    Seq<(Seq<char>, Option<ResolvedReference>)>,
    Identifier,
>
    decreases variants.len(),
{
    if variants.len() == 0 {
        Ok(Seq::empty())
    } else {
        match resolve_variants(names, variants.drop_last()) {
            Ok(prefix) => match resolve_variant(names, variants.last()) {
                Ok(last) => Ok(prefix.push(last)),
                Err(id) => Err(id),
            },
            Err(id) => Err(id),
        }
    }
}

/// A declaration's shape resolved through `names`, or the first interior identifier
/// that names nothing.
pub open spec fn resolve_shape(names: Seq<Seq<char>>, declaration: EncodedDeclaration) -> Result<
    ResolvedShape,
    Identifier,
> {
    let body = match declaration.value {
        EncodedType::Newtype(newtype) => match resolve_reference(names, newtype.reference) {
            Ok(reference) => Ok(ResolvedBody::Newtype(reference)),
            Err(id) => Err(id),
        },
        EncodedType::Struct(structure) => match resolve_fields(names, structure.fields@) {
            Ok(fields) => Ok(ResolvedBody::Struct(fields)),
            Err(id) => Err(id),
        },
        EncodedType::Enumeration(enumeration) => match resolve_variants(
            names,
            enumeration.variants@,
        ) {
            Ok(variants) => Ok(ResolvedBody::Enumeration(variants)),
            Err(id) => Err(id),
        },
    };
    match body {
        Ok(body) => Ok(
            ResolvedShape { role: declaration.role, visibility: declaration.visibility, body },
        ),
        Err(id) => Err(id),
    }
}

// ---------------------------------------------------------------------------
// Fingerprint input
// ---------------------------------------------------------------------------

/// One hasher update: raw bytes, or bytes preceded by their length.
pub enum FeedItem {
    Raw(Seq<u8>),
    LengthPrefixed(Seq<u8>),
}

/// The byte a fingerprint records for a declaration role: its position, counted from zero, among
/// the variants in the order the core schema crate declares them, which is the
/// discriminant that crate's `as u8` cast yields.
pub open spec fn role_tag(role: DeclarationRole) -> u8 {
    match role {
        DeclarationRole::DataType => 0,
        DeclarationRole::InterfaceInput => 1,
        DeclarationRole::InterfaceOutput => 2,
    }
}

/// The byte a fingerprint records for a visibility: its position, counted from zero, among
/// the variants in the order the core schema crate declares them, which is the
/// discriminant that crate's `as u8` cast yields.
pub open spec fn visibility_tag(visibility: Visibility) -> u8 {
    match visibility {
        Visibility::Public => 0,
        Visibility::Private => 1,
    }
}

/// The byte a fingerprint records for a single-argument projection: its position, counted from zero, among
/// the variants in the order the core schema crate declares them, which is the
/// discriminant that crate's `as u8` cast yields.
pub open spec fn single_projection_tag(projection: SingleTypeReferenceProjection) -> u8 {
    match projection {
        SingleTypeReferenceProjection::Vector => 0,
        SingleTypeReferenceProjection::Optional => 1,
        SingleTypeReferenceProjection::ScopeOf => 2,
    }
}

/// The byte a fingerprint records for a multi-argument projection: its position, counted from zero, among
/// the variants in the order the core schema crate declares them, which is the
/// discriminant that crate's `as u8` cast yields.
pub open spec fn multi_projection_tag(projection: MultiTypeReferenceProjection) -> u8 {
    match projection {
        MultiTypeReferenceProjection::MapOf => 0,
    }
}

/// The byte a fingerprint records for a value projection: its position, counted from zero, among
/// the variants in the order the core schema crate declares them, which is the
/// discriminant that crate's `as u8` cast yields.
pub open spec fn value_projection_tag(projection: ValueReferenceProjection) -> u8 {
    match projection {
        ValueReferenceProjection::Bytes => 0,
    }
}

/// The updates that fingerprint a resolved reference.
pub open spec fn reference_feed(reference: ResolvedReference) -> Seq<FeedItem>
    decreases reference,
{
    match reference {
        ResolvedReference::String => seq![FeedItem::Raw(seq![0u8])],
        ResolvedReference::Integer => seq![FeedItem::Raw(seq![1u8])],
        ResolvedReference::Boolean => seq![FeedItem::Raw(seq![2u8])],
        ResolvedReference::Bytes => seq![FeedItem::Raw(seq![3u8])],
        ResolvedReference::Plain(name) => seq![
            FeedItem::Raw(seq![4u8]),
            FeedItem::LengthPrefixed(encode_utf8(name)),
        ],
        ResolvedReference::SingleTypeApplication { projection, argument } => seq![
            FeedItem::Raw(seq![5u8, single_projection_tag(projection)]),
        ] + reference_feed(*argument),
        ResolvedReference::MultiTypeApplication { projection, arguments } => seq![
            FeedItem::Raw(seq![6u8, multi_projection_tag(projection)]),
            FeedItem::Raw(spec_u64_to_le_bytes(arguments.len() as u64)),
        ] + references_feed(arguments),
        ResolvedReference::ValueApplication { projection, value } => seq![
            FeedItem::Raw(seq![7u8, value_projection_tag(projection)]),
            FeedItem::Raw(spec_u64_to_le_bytes(value)),
        ],
    }
}

/// The updates of each reference in turn.
pub open spec fn references_feed(references: Seq<ResolvedReference>) -> Seq<FeedItem>
    decreases references,
{
    if references.len() == 0 {
        Seq::empty()
    } else {
        references_feed(references.drop_last()) + reference_feed(references.last())
    }
}

pub open spec fn fields_feed(fields: Seq<(Seq<char>, ResolvedReference)>) -> Seq<FeedItem>
    decreases fields.len(),
{
    if fields.len() == 0 {
        Seq::empty()
    } else {
        fields_feed(fields.drop_last()) + seq![FeedItem::LengthPrefixed(encode_utf8(fields.last().0))]
            + reference_feed(fields.last().1)
    }
}

pub open spec fn payload_feed(payload: Option<ResolvedReference>) -> Seq<FeedItem> {
    match payload {
        Some(reference) => seq![FeedItem::Raw(seq![1u8])] + reference_feed(reference),
        None => seq![FeedItem::Raw(seq![0u8])],
    }
}

pub open spec fn variants_feed(variants: Seq<(Seq<char>, Option<ResolvedReference>)>) -> Seq<FeedItem>
    decreases variants.len(),
{
    if variants.len() == 0 {
        Seq::empty()
    } else {
        variants_feed(variants.drop_last()) + seq![FeedItem::LengthPrefixed(encode_utf8(variants.last().0))]
            + payload_feed(variants.last().1)
    }
}

/// The updates that fingerprint a resolved declaration shape: role and visibility,
/// then the body's tag, size and members.
pub open spec fn shape_feed(shape: ResolvedShape) -> Seq<FeedItem> {
    seq![FeedItem::Raw(seq![role_tag(shape.role), visibility_tag(shape.visibility)])] + match shape.body {
        ResolvedBody::Newtype(reference) => seq![FeedItem::Raw(seq![0u8])] + reference_feed(reference),
        ResolvedBody::Struct(fields) => seq![
            FeedItem::Raw(seq![1u8]),
            FeedItem::Raw(spec_u64_to_le_bytes(fields.len() as u64)),
        ] + fields_feed(fields),
        ResolvedBody::Enumeration(variants) => seq![
            FeedItem::Raw(seq![2u8]),
            FeedItem::Raw(spec_u64_to_le_bytes(variants.len() as u64)),
        ] + variants_feed(variants),
    }
}

// ---------------------------------------------------------------------------
// Decoding the fingerprint input of a reference
// ---------------------------------------------------------------------------

/// Every argument list of the reference has a length a `u64` can hold.
pub open spec fn reference_fits(reference: ResolvedReference) -> bool
    decreases reference,
{
    match reference {
        ResolvedReference::SingleTypeApplication { argument, .. } => reference_fits(*argument),
        ResolvedReference::MultiTypeApplication { arguments, .. } => arguments.len() <= u64::MAX
            && forall|i: int| 0 <= i < arguments.len() ==> reference_fits(#[trigger] arguments[i]),
        _ => true,
    }
}

/// The updates of a list of references, read from the front.
proof fn lemma_references_feed_front(references: Seq<ResolvedReference>)
    requires
        references.len() > 0,
    ensures
        references_feed(references) == reference_feed(references[0]) + references_feed(
            references.drop_first(),
        ),
    decreases references.len(),
{
    if references.len() == 1 {
        assert(references.drop_last() =~= Seq::<ResolvedReference>::empty());
        assert(references.drop_first() =~= Seq::<ResolvedReference>::empty());
        assert(references_feed(references.drop_last()) == Seq::<FeedItem>::empty());
        assert(references.last() == references[0]);
        assert(references_feed(references) =~= reference_feed(references[0]));
        assert(reference_feed(references[0]) + Seq::<FeedItem>::empty() =~= reference_feed(
            references[0],
        ));
    } else {
        let front = references.drop_last();
        let tail = references.drop_first();
        lemma_references_feed_front(front);
        assert(front.drop_first() =~= tail.drop_last());
        assert(tail.last() == references.last());
        assert(front[0] == references[0]);
        assert(references_feed(tail) == references_feed(tail.drop_last()) + reference_feed(
            tail.last(),
        ));
        assert(references_feed(references) =~= reference_feed(references[0]) + references_feed(
            tail,
        ));
    }
}

/// The bytes of a reference's first update.
pub open spec fn head_bytes(reference: ResolvedReference) -> Seq<u8> {
    match reference {
        ResolvedReference::String => seq![0u8],
        ResolvedReference::Integer => seq![1u8],
        ResolvedReference::Boolean => seq![2u8],
        ResolvedReference::Bytes => seq![3u8],
        ResolvedReference::Plain(_) => seq![4u8],
        ResolvedReference::SingleTypeApplication { projection, .. } => seq![
            5u8,
            single_projection_tag(projection),
        ],
        ResolvedReference::MultiTypeApplication { projection, .. } => seq![
            6u8,
            multi_projection_tag(projection),
        ],
        ResolvedReference::ValueApplication { projection, .. } => seq![
            7u8,
            value_projection_tag(projection),
        ],
    }
}

proof fn lemma_feed_head(reference: ResolvedReference)
    ensures
        reference_feed(reference).len() >= 1,
        reference_feed(reference)[0] == FeedItem::Raw(head_bytes(reference)),
        head_bytes(reference)[0] == match reference {
            ResolvedReference::String => 0u8,
            ResolvedReference::Integer => 1u8,
            ResolvedReference::Boolean => 2u8,
            ResolvedReference::Bytes => 3u8,
            ResolvedReference::Plain(_) => 4u8,
            ResolvedReference::SingleTypeApplication { .. } => 5u8,
            ResolvedReference::MultiTypeApplication { .. } => 6u8,
            ResolvedReference::ValueApplication { .. } => 7u8,
        },
{
}

/// The updates of a reference, followed by anything, are read back unambiguously: they
/// determine the reference and where its updates end.
pub proof fn lemma_reference_feed_decodes(
    a: ResolvedReference,
    b: ResolvedReference,
    rest_a: Seq<FeedItem>,
    rest_b: Seq<FeedItem>,
)
    requires
        reference_fits(a),
        reference_fits(b),
        reference_feed(a) + rest_a == reference_feed(b) + rest_b,
    ensures
        a == b,
        rest_a == rest_b,
    decreases a,
{
    let fa = reference_feed(a);
    let fb = reference_feed(b);
    let whole = fa + rest_a;
    assert(whole == fb + rest_b);
    assert(fa.len() >= 1 && fb.len() >= 1);
    assert(whole[0] == fa[0]);
    assert(whole[0] == fb[0]);
    lemma_feed_head(a);
    lemma_feed_head(b);
    assert(head_bytes(a) == head_bytes(b));
    assert(head_bytes(a)[0] == head_bytes(b)[0]);
    match a {
        ResolvedReference::Plain(na) => {
            if let ResolvedReference::Plain(nb) = b {
                assert(whole[1] == fa[1] && whole[1] == fb[1]);
                encode_utf8_decode_utf8(na);
                encode_utf8_decode_utf8(nb);
                assert(rest_a =~= whole.skip(2));
                assert(rest_b =~= whole.skip(2));
            } else {
                assert(fb[0] != fa[0]);
            }
        },
        ResolvedReference::ValueApplication { projection: pa, value: va } => {
            if let ResolvedReference::ValueApplication { projection: pb, value: vb } = b {
                assert(whole[1] == fa[1] && whole[1] == fb[1]);
                lemma_auto_spec_u64_to_from_le_bytes();
                assert(spec_u64_to_le_bytes(va) == spec_u64_to_le_bytes(vb));
                assert(rest_a =~= whole.skip(2));
                assert(rest_b =~= whole.skip(2));
            } else {
                assert(fb[0] != fa[0]);
            }
        },
        ResolvedReference::SingleTypeApplication { projection: pa, argument: aa } => {
            if let ResolvedReference::SingleTypeApplication { projection: pb, argument: ab } = b {
                assert(fa[0] == FeedItem::Raw(seq![5u8, single_projection_tag(pa)]));
                assert(fb[0] == FeedItem::Raw(seq![5u8, single_projection_tag(pb)]));
                assert(seq![5u8, single_projection_tag(pa)][1] == seq![5u8, single_projection_tag(pb)][1]);
                assert(whole.skip(1) =~= reference_feed(*aa) + rest_a);
                assert(whole.skip(1) =~= reference_feed(*ab) + rest_b);
                lemma_reference_feed_decodes(*aa, *ab, rest_a, rest_b);
            } else {
                assert(fb[0] != fa[0]);
            }
        },
        ResolvedReference::MultiTypeApplication { projection: pa, arguments: aa } => {
            if let ResolvedReference::MultiTypeApplication { projection: pb, arguments: ab } = b {
                assert(whole[1] == fa[1] && whole[1] == fb[1]);
                lemma_auto_spec_u64_to_from_le_bytes();
                assert(spec_u64_to_le_bytes(aa.len() as u64) == spec_u64_to_le_bytes(ab.len() as u64));
                assert(aa.len() == ab.len());
                assert(whole.skip(2) =~= references_feed(aa) + rest_a);
                assert(whole.skip(2) =~= references_feed(ab) + rest_b);
                lemma_references_feed_decodes(aa, ab, rest_a, rest_b);
            } else {
                assert(fb[0] != fa[0]);
            }
        },
        _ => {
            assert(fa.len() == 1);
            assert(a == b);
            assert(rest_a =~= whole.skip(1));
            assert(rest_b =~= whole.skip(1));
        },
    }
}

/// The updates of equally long lists of references, followed by anything, are read back
/// unambiguously.
pub proof fn lemma_references_feed_decodes(
    a: Seq<ResolvedReference>,
    b: Seq<ResolvedReference>,
    rest_a: Seq<FeedItem>,
    rest_b: Seq<FeedItem>,
)
    requires
        a.len() == b.len(),
        forall|i: int| 0 <= i < a.len() ==> reference_fits(#[trigger] a[i]),
        forall|i: int| 0 <= i < b.len() ==> reference_fits(#[trigger] b[i]),
        references_feed(a) + rest_a == references_feed(b) + rest_b,
    ensures
        a == b,
        rest_a == rest_b,
    decreases a,
{
    if a.len() == 0 {
        assert(references_feed(a) + rest_a =~= rest_a);
        assert(references_feed(b) + rest_b =~= rest_b);
        assert(a =~= b);
    } else {
        lemma_references_feed_front(a);
        lemma_references_feed_front(b);
        let tail_a = a.drop_first();
        let tail_b = b.drop_first();
        assert(references_feed(a) + rest_a =~= reference_feed(a[0]) + (references_feed(tail_a)
            + rest_a));
        assert(references_feed(b) + rest_b =~= reference_feed(b[0]) + (references_feed(tail_b)
            + rest_b));
        lemma_reference_feed_decodes(
            a[0],
            b[0],
            references_feed(tail_a) + rest_a,
            references_feed(tail_b) + rest_b,
        );
        assert forall|i: int| 0 <= i < tail_a.len() implies reference_fits(#[trigger] tail_a[i]) by {
            assert(tail_a[i] == a[i + 1]);
        }
        assert forall|i: int| 0 <= i < tail_b.len() implies reference_fits(#[trigger] tail_b[i]) by {
            assert(tail_b[i] == b[i + 1]);
        }
        lemma_references_feed_decodes(tail_a, tail_b, rest_a, rest_b);
        assert forall|i: int| 0 <= i < a.len() implies a[i] == b[i] by {
            if i > 0 {
                assert(tail_a[i - 1] == a[i] && tail_b[i - 1] == b[i]);
            }
        }
        assert(a =~= b);
    }
}

/// A resolved list holds each reference resolved in turn.
proof fn lemma_resolve_references_each(names: Seq<Seq<char>>, references: Seq<EncodedReference>)
    requires
        resolve_references(names, references) is Ok,
    ensures
        resolve_references(names, references)->Ok_0.len() == references.len(),
        forall|i: int|
            0 <= i < references.len() ==> resolve_reference(names, #[trigger] references[i])
                == Ok::<ResolvedReference, Identifier>(
                resolve_references(names, references)->Ok_0[i],
            ),
    decreases references.len(),
{
    if references.len() > 0 {
        let front = references.drop_last();
        lemma_resolve_references_each(names, front);
        assert forall|i: int| 0 <= i < references.len() implies resolve_reference(
            names,
            #[trigger] references[i],
        ) == Ok::<ResolvedReference, Identifier>(resolve_references(names, references)->Ok_0[i]) by {
            if i < references.len() - 1 {
                assert(front[i] == references[i]);
            }
        }
    }
}

/// A reference resolved from an encoded one has argument lists a `u64` can hold.
pub proof fn lemma_resolved_reference_fits(names: Seq<Seq<char>>, reference: EncodedReference)
    requires
        resolve_reference(names, reference) is Ok,
    ensures
        reference_fits(resolve_reference(names, reference)->Ok_0),
    decreases reference,
{
    match reference {
        EncodedReference::SingleTypeApplication { argument, .. } => {
            lemma_resolved_reference_fits(names, *argument);
        },
        EncodedReference::MultiTypeApplication { arguments, .. } => {
            lemma_resolve_references_each(names, arguments@);
            let resolved = resolve_references(names, arguments@)->Ok_0;
            assert(arguments.len() == arguments@.len());
            assert forall|i: int| 0 <= i < resolved.len() implies reference_fits(
                #[trigger] resolved[i],
            ) by {
                assert(decreases_to!(reference => arguments@[i]));
                assert(resolve_reference(names, arguments@[i]) is Ok);
                lemma_resolved_reference_fits(names, arguments@[i]);
            }
        },
        _ => {},
    }
}

/// Two encoded references, each resolved through its own name table, have the same
/// fingerprint input exactly when they are the same once every identifier is read as
/// its spelling.
pub proof fn lemma_encoded_reference_feed_injective(
    names_a: Seq<Seq<char>>,
    a: EncodedReference,
    names_b: Seq<Seq<char>>,
    b: EncodedReference,
)
    requires
        resolve_reference(names_a, a) is Ok,
        resolve_reference(names_b, b) is Ok,
    ensures
        (reference_feed(resolve_reference(names_a, a)->Ok_0) == reference_feed(
            resolve_reference(names_b, b)->Ok_0,
        )) == (resolve_reference(names_a, a) == resolve_reference(names_b, b)),
{
    lemma_resolved_reference_fits(names_a, a);
    lemma_resolved_reference_fits(names_b, b);
    lemma_reference_feed_injective(
        resolve_reference(names_a, a)->Ok_0,
        resolve_reference(names_b, b)->Ok_0,
    );
}

/// Two references have the same fingerprint input exactly when they are the same once
/// every identifier is read as its spelling.
pub proof fn lemma_reference_feed_injective(a: ResolvedReference, b: ResolvedReference)
    requires
        reference_fits(a),
        reference_fits(b),
    ensures
        (reference_feed(a) == reference_feed(b)) == (a == b),
{
    if reference_feed(a) == reference_feed(b) {
        assert(reference_feed(a) + Seq::<FeedItem>::empty() =~= reference_feed(b) + Seq::<
            FeedItem,
        >::empty());
        lemma_reference_feed_decodes(a, b, Seq::empty(), Seq::empty());
    }
}

/// No reference's fingerprint input is a proper prefix of another's.
pub proof fn lemma_reference_feed_prefix_free(
    a: ResolvedReference,
    b: ResolvedReference,
    rest: Seq<FeedItem>,
)
    requires
        reference_fits(a),
        reference_fits(b),
        reference_feed(a) + rest == reference_feed(b),
    ensures
        rest.len() == 0,
        a == b,
{
    assert(reference_feed(b) + Seq::<FeedItem>::empty() =~= reference_feed(b));
    lemma_reference_feed_decodes(a, b, rest, Seq::empty());
}

// ---------------------------------------------------------------------------
// The recorded updates
// ---------------------------------------------------------------------------

/// One recorded hasher update.
#[derive(Clone, Debug, PartialEq, Eq)]
pub enum HashInput {
    Raw(Vec<u8>),
    LengthPrefixed(Vec<u8>),
}

impl View for HashInput {
    type V = FeedItem;

    open spec fn view(&self) -> FeedItem {
        match self {
            HashInput::Raw(bytes) => FeedItem::Raw(bytes@),
            HashInput::LengthPrefixed(bytes) => FeedItem::LengthPrefixed(bytes@),
        }
    }
}

/// The updates that fingerprint a declaration, in the order a hasher takes them.
#[derive(Clone, Debug, PartialEq, Eq)]
pub struct ShapeFeed {
    pub inputs: Vec<HashInput>,
}

impl View for ShapeFeed {
    type V = Seq<FeedItem>;

    open spec fn view(&self) -> Seq<FeedItem> {
        self.inputs@.map_values(|input: HashInput| input@)
    }
}

impl ShapeFeed {
    /// A feed with no updates yet.
    pub fn new() -> (feed: ShapeFeed)
        ensures
            feed@ == Seq::<FeedItem>::empty(),
    {
        let feed = ShapeFeed { inputs: Vec::new() };
        assert(feed@ =~= Seq::<FeedItem>::empty());
        feed
    }

    /// Records raw bytes.
    pub fn update_raw(&mut self, bytes: Vec<u8>)
        ensures
            final(self)@ == old(self)@.push(FeedItem::Raw(bytes@)),
    {
        let ghost before = self@;
        let ghost item = FeedItem::Raw(bytes@);
        self.inputs.push(HashInput::Raw(bytes));
        assert(self@ =~= before.push(item));
    }

    /// Records bytes to be taken with their length.
    pub fn update_length_prefixed(&mut self, bytes: Vec<u8>)
        ensures
            final(self)@ == old(self)@.push(FeedItem::LengthPrefixed(bytes@)),
    {
        let ghost before = self@;
        let ghost item = FeedItem::LengthPrefixed(bytes@);
        self.inputs.push(HashInput::LengthPrefixed(bytes));
        assert(self@ =~= before.push(item));
    }
}

} // verus!
