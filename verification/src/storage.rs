//! The messages exchanged with the schema front door and with the storage authority.

use vstd::prelude::*;

use crate::encoded::EncodedSchema;

verus! {

/// The scope a document lives in.
#[derive(Clone, Copy, Debug, PartialEq, Eq, Structural)]
pub struct FixtureScope(pub u64);

/// The slot a document occupies within its scope and kind.
#[derive(Clone, Copy, Debug, PartialEq, Eq, Structural)]
pub struct SlotIdentifier(pub u64);

/// The kinds of stored documents.
#[derive(Clone, Copy, Debug, PartialEq, Eq, Structural)]
pub enum DocumentKind {
    TypeSchema,
    SignalContract,
    NexusRuntime,
    SemaStorage,
}

/// Where a document is stored.
#[derive(Clone, Copy, Debug, PartialEq, Eq, Structural)]
pub struct DocumentKey {
    pub scope: FixtureScope,
    pub kind: DocumentKind,
    pub slot: SlotIdentifier,
}

/// A document's content hash.
#[derive(Clone, Copy, Debug, PartialEq, Eq)]
pub struct ContentHash(pub [u8; 32]);

/// A stored document's version.
#[derive(Clone, Copy, Debug, PartialEq, Eq, Structural)]
pub struct Version(pub u64);

/// What a slot holds: its key, version and content hash.
#[derive(Clone, Copy, Debug, PartialEq, Eq)]
pub struct SlotSummary {
    pub key: DocumentKey,
    pub version: Version,
    pub hash: ContentHash,
}

/// A fetched document, as far as the front door reads it.
#[derive(Clone, Copy, Debug, PartialEq, Eq)]
pub struct StoredDocument {
    pub key: DocumentKey,
    pub version: Version,
    pub hash: ContentHash,
}

/// A name table in its archived byte form.
#[derive(Clone, Debug, PartialEq, Eq)]
pub struct NameTableBytes(pub Vec<u8>);

/// A contract, runtime or storage root document in its archived byte form.
#[derive(Clone, Debug, PartialEq, Eq)]
pub struct RootDocument(pub Vec<u8>);

/// What a store request stores.
#[derive(Debug)]
pub enum DocumentPayload {
    TypeSchema { schema: EncodedSchema, names: NameTableBytes },
    SignalContract(RootDocument),
    NexusRuntime(RootDocument),
    SemaStorage(RootDocument),
}

/// A request to the storage authority.
#[derive(Debug)]
pub enum SemaRequest {
    Store { key: DocumentKey, payload: DocumentPayload },
    List { scope: FixtureScope, kind: Option<DocumentKind> },
    HashFetch { hash: ContentHash },
    Subscribe { scope: FixtureScope, kind: Option<DocumentKind> },
}

/// A subscription's identifier.
#[derive(Clone, Copy, Debug, PartialEq, Eq, Structural)]
pub struct SubscriptionIdentifier(pub u64);

/// A point in the store's history.
#[derive(Clone, Copy, Debug, PartialEq, Eq, Structural)]
pub struct Snapshot(pub u64);

/// A change announced to subscribers.
#[derive(Clone, Copy, Debug, PartialEq, Eq)]
pub struct ChangeEvent {
    pub subscription: SubscriptionIdentifier,
    pub snapshot: Snapshot,
    pub document: SlotSummary,
}

/// Why the storage authority refused a request.
#[derive(Clone, Debug, PartialEq, Eq)]
pub enum StorageRejection {
    /// The document failed validation; the message says why.
    InvalidDocument(String),
    /// Any other refusal; the message says why.
    Other(String),
}

/// A reply of the storage authority.
#[derive(Debug)]
pub enum SemaReply {
    Stored(SlotSummary),
    Listed(Vec<SlotSummary>),
    Document(Option<StoredDocument>),
    Subscribed { identifier: SubscriptionIdentifier, initial: Vec<SlotSummary> },
    Rejected(StorageRejection),
    /// A reply the front door has no use for.
    Unexpected,
}

/// A request to the schema front door.
#[derive(Debug)]
pub enum SchemaRequest {
    IngestTypeSchema { scope: FixtureScope, slot: SlotIdentifier, legacy_text: String },
    StoreSignalContract { scope: FixtureScope, slot: SlotIdentifier, root: RootDocument },
    StoreNexusRuntime { scope: FixtureScope, slot: SlotIdentifier, root: RootDocument },
    StoreSemaStorage { scope: FixtureScope, slot: SlotIdentifier, root: RootDocument },
    List { scope: FixtureScope, kind: Option<DocumentKind> },
    Fetch { hash: ContentHash },
    Subscribe { scope: FixtureScope, kind: Option<DocumentKind> },
}

/// Why the front door refused a request.
#[derive(Clone, Copy, Debug, PartialEq, Eq, Structural)]
pub enum SchemaRejection {
    InvalidRoot,
    StorageFailed,
}

/// A reply of the schema front door.
#[derive(Debug)]
pub enum SchemaReply {
    Stored(SlotSummary),
    Listed(Vec<SlotSummary>),
    Fetched(Option<SlotSummary>),
    Subscribed { identifier: SubscriptionIdentifier, initial: Vec<SlotSummary> },
    Rejected(SchemaRejection),
    Event(ChangeEvent),
}

} // verus!
