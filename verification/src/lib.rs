//! A schema engine: legacy schema migration into the stringless encoded form, the
//! authority-bound identity binding path, and the request routing between the signal,
//! nexus and storage planes.

pub mod authority_ingest;
pub mod client;
pub mod encoded;
pub mod legacy;
pub mod legacy_ingest;
pub mod names;
pub mod shape;
pub mod storage;
pub mod wire;

pub use authority_ingest::{AuthorityIngestError, ParsedSchema};

use vstd::prelude::*;

use crate::encoded::EncodedSchema;
use crate::legacy_ingest::LegacyIngestError;
use crate::storage::{
    ChangeEvent, DocumentKey, DocumentKind, DocumentPayload, FixtureScope, NameTableBytes, RootDocument,
    SchemaRejection, SchemaReply, SchemaRequest, SemaReply, SemaRequest, SlotIdentifier,
    SlotSummary, Snapshot, StorageRejection, SubscriptionIdentifier,
};
use crate::wire::FrameMessage;

verus! {

/// A failure of the runtime.
#[derive(Debug, PartialEq, Eq)]
pub enum Error {
    /// Input or output failed; the message says why.
    Io(String),
    /// A message could not be encoded, decoded or understood; the message says why.
    Codec(String),
    /// A plane could not be reached; the message says why.
    Actor(String),
}

impl Error {
    /// What went wrong, in words: the failure's kind, then its message.
    pub fn message(&self) -> (text: String)
        ensures
            match self {
                Error::Io(reason) => text@ == "io: "@ + reason@,
                Error::Codec(reason) => text@ == "codec: "@ + reason@,
                Error::Actor(reason) => text@ == "actor: "@ + reason@,
            },
    {
        let (mut text, reason) = match self {
            Error::Io(reason) => (String::from_str("io: "), reason),
            Error::Codec(reason) => (String::from_str("codec: "), reason),
            Error::Actor(reason) => (String::from_str("actor: "), reason),
        };
        text.append(reason.as_str());
        text
    }
}

/// The storage plane: the storage authority's socket and the number of commits made.
pub struct SemaPlane {
    socket: String,
    commits: u64,
}

impl SemaPlane {
    /// The authority's socket path.
    pub closed spec fn socket_path(&self) -> Seq<char> {
        self.socket@
    }

    /// The number of commits made.
    pub closed spec fn commit_count(&self) -> u64 {
        self.commits
    }

    /// A storage plane for the authority at `socket`, with no commits yet.
    pub fn new(socket: String) -> (plane: SemaPlane)
        ensures
            plane.socket_path() == socket@,
            plane.commit_count() == 0,
    {
        SemaPlane { socket, commits: 0 }
    }

    /// The authority's socket path.
    pub fn socket(&self) -> (socket: &String)
        ensures
            socket@ == self.socket_path(),
    {
        &self.socket
    }

    /// The number of commits made.
    pub fn commits(&self) -> (commits: u64)
        ensures
            commits == self.commit_count(),
    {
        self.commits
    }

    /// Counts one more commit and returns the exchange number its request frame
    /// carries: the new count.
    pub fn begin_commit(&mut self) -> (exchange: u64)
        requires
            old(self).commit_count() < u64::MAX,
        ensures
            final(self).commit_count() == old(self).commit_count() + 1,
            final(self).socket_path() == old(self).socket_path(),
            exchange == final(self).commit_count(),
    {
        self.commits = self.commits + 1;
        self.commits
    }

    /// The authority's answer to the handshake must accept the frame protocol.
    pub fn confirm_handshake(frame: &FrameMessage) -> (confirmed: Result<(), Error>)
        ensures
            frame matches FrameMessage::HandshakeReply { accepted: true } ==> confirmed is Ok,
            !(frame matches FrameMessage::HandshakeReply { accepted: true }) ==> (
            confirmed matches Err(Error::Codec(reason)) && reason@
                == "Sema rejected frame protocol"@),
    {
        if frame.is_accepted_handshake() {
            Ok(())
        } else {
            Err(Error::Codec(String::from_str("Sema rejected frame protocol")))
        }
    }

    /// The authority's answer to a request must be a reply frame; its payload is the
    /// archived reply.
    pub fn reply_payload(frame: FrameMessage) -> (payload: Result<Vec<u8>, Error>)
        ensures
            match frame {
                FrameMessage::Reply { payload: bytes, .. } => payload == Ok::<Vec<u8>, Error>(
                    bytes,
                ),
                _ => payload matches Err(Error::Codec(reason)) && reason@
                    == "Sema returned a non-reply frame"@,
            },
    {
        match frame {
            FrameMessage::Reply { payload, .. } => Ok(payload),
            _ => Err(Error::Codec(String::from_str("Sema returned a non-reply frame"))),
        }
    }
}

/// A request committed to the storage plane.
pub struct Commit(pub SemaRequest);

/// A request dispatched to the signal or nexus plane.
pub struct Dispatch(pub SchemaRequest);

/// Where the nexus plane sends a request.
#[derive(Debug)]
pub enum NexusRoute {
    /// Migrate the legacy text first, then store the result as a type schema.
    Ingest { scope: FixtureScope, slot: SlotIdentifier, legacy_text: String },
    /// Commit this request to the storage plane as it is.
    Commit(SemaRequest),
}

/// The front door's answer to a storage reply, and the change it announces.
#[derive(Debug)]
pub struct NexusAnswer {
    pub reply: SchemaReply,
    pub event: Option<ChangeEvent>,
}

/// Where the nexus plane sends each request.
pub open spec fn route_of(request: SchemaRequest) -> NexusRoute {
    match request {
        SchemaRequest::IngestTypeSchema { scope, slot, legacy_text } => NexusRoute::Ingest {
            scope,
            slot,
            legacy_text,
        },
        SchemaRequest::StoreSignalContract { scope, slot, root } => NexusRoute::Commit(
            SemaRequest::Store {
                key: DocumentKey { scope, kind: DocumentKind::SignalContract, slot },
                payload: DocumentPayload::SignalContract(root),
            },
        ),
        SchemaRequest::StoreNexusRuntime { scope, slot, root } => NexusRoute::Commit(
            SemaRequest::Store {
                key: DocumentKey { scope, kind: DocumentKind::NexusRuntime, slot },
                payload: DocumentPayload::NexusRuntime(root),
            },
        ),
        SchemaRequest::StoreSemaStorage { scope, slot, root } => NexusRoute::Commit(
            SemaRequest::Store {
                key: DocumentKey { scope, kind: DocumentKind::SemaStorage, slot },
                payload: DocumentPayload::SemaStorage(root),
            },
        ),
        SchemaRequest::List { scope, kind } => NexusRoute::Commit(SemaRequest::List { scope, kind }),
        SchemaRequest::Fetch { hash } => NexusRoute::Commit(SemaRequest::HashFetch { hash }),
        SchemaRequest::Subscribe { scope, kind } => NexusRoute::Commit(
            SemaRequest::Subscribe { scope, kind },
        ),
    }
}

/// Routing loses nothing: two requests routed alike are the same request. In
/// particular a listing or a subscription keeps its scope and its kind filter.
pub proof fn lemma_route_is_faithful(a: SchemaRequest, b: SchemaRequest)
    ensures
        route_of(a) == route_of(b) ==> a == b,
{
}

/// A listing and a subscription reach the storage authority with the scope and kind
/// filter they were asked with, whatever the filter.
pub proof fn lemma_route_keeps_filters(scope: FixtureScope, kind: Option<DocumentKind>)
    ensures
        route_of(SchemaRequest::List { scope, kind }) matches NexusRoute::Commit(
            SemaRequest::List { scope: s, kind: k },
        ) && s == scope && k == kind,
        route_of(SchemaRequest::Subscribe { scope, kind }) matches NexusRoute::Commit(
            SemaRequest::Subscribe { scope: s, kind: k },
        ) && s == scope && k == kind,
{
}

/// A payload is of the kind a key names.
pub open spec fn payload_of_kind(payload: DocumentPayload, kind: DocumentKind) -> bool {
    &&& (payload is TypeSchema) == (kind == DocumentKind::TypeSchema)
    &&& (payload is SignalContract) == (kind == DocumentKind::SignalContract)
    &&& (payload is NexusRuntime) == (kind == DocumentKind::NexusRuntime)
    &&& (payload is SemaStorage) == (kind == DocumentKind::SemaStorage)
}

/// A store request reaches the storage authority under the scope and slot it was asked
/// for, keyed by the kind of the document it carries, and carrying that document.
pub proof fn lemma_route_keys_stores(scope: FixtureScope, slot: SlotIdentifier, root: RootDocument)
    ensures
        route_of(SchemaRequest::StoreSignalContract { scope, slot, root }) matches NexusRoute::Commit(
            SemaRequest::Store { key, payload },
        ) && key.scope == scope && key.slot == slot && payload_of_kind(payload, key.kind)
            && payload == DocumentPayload::SignalContract(root),
        route_of(SchemaRequest::StoreNexusRuntime { scope, slot, root }) matches NexusRoute::Commit(
            SemaRequest::Store { key, payload },
        ) && key.scope == scope && key.slot == slot && payload_of_kind(payload, key.kind)
            && payload == DocumentPayload::NexusRuntime(root),
        route_of(SchemaRequest::StoreSemaStorage { scope, slot, root }) matches NexusRoute::Commit(
            SemaRequest::Store { key, payload },
        ) && key.scope == scope && key.slot == slot && payload_of_kind(payload, key.kind)
            && payload == DocumentPayload::SemaStorage(root),
{
}

/// The summary of a fetched document.
pub open spec fn summary_of(document: Option<crate::storage::StoredDocument>) -> Option<SlotSummary> {
    match document {
        Some(document) => Some(
            SlotSummary { key: document.key, version: document.version, hash: document.hash },
        ),
        None => None,
    }
}

/// The front door's answer to each storage reply: a stored document is announced as a
/// change at its version; a refused document is an invalid root; anything else the
/// front door did not ask for is a storage failure.
pub open spec fn answer_of(reply: SemaReply) -> NexusAnswer {
    match reply {
        SemaReply::Stored(summary) => NexusAnswer {
            reply: SchemaReply::Stored(summary),
            event: Some(
                ChangeEvent {
                    subscription: SubscriptionIdentifier(0),
                    snapshot: Snapshot(summary.version.0),
                    document: summary,
                },
            ),
        },
        SemaReply::Listed(values) => NexusAnswer { reply: SchemaReply::Listed(values), event: None },
        SemaReply::Document(document) => NexusAnswer {
            reply: SchemaReply::Fetched(summary_of(document)),
            event: None,
        },
        SemaReply::Subscribed { identifier, initial } => NexusAnswer {
            reply: SchemaReply::Subscribed { identifier, initial },
            event: None,
        },
        SemaReply::Rejected(StorageRejection::InvalidDocument(_)) => NexusAnswer {
            reply: SchemaReply::Rejected(SchemaRejection::InvalidRoot),
            event: None,
        },
        _ => NexusAnswer { reply: SchemaReply::Rejected(SchemaRejection::StorageFailed), event: None },
    }
}

/// The nexus plane: the number of requests it has transformed.
pub struct NexusPlane {
    transforms: u64,
}

impl NexusPlane {
    /// The number of requests transformed.
    pub closed spec fn transform_count(&self) -> u64 {
        self.transforms
    }

    /// A nexus plane that has transformed nothing yet.
    pub fn new() -> (plane: NexusPlane)
        ensures
            plane.transform_count() == 0,
    {
        NexusPlane { transforms: 0 }
    }

    /// The number of requests transformed.
    pub fn transforms(&self) -> (transforms: u64)
        ensures
            transforms == self.transform_count(),
    {
        self.transforms
    }

    /// Counts one more transformed request and decides where it goes.
    pub fn route(&mut self, request: SchemaRequest) -> (route: NexusRoute)
        requires
            old(self).transform_count() < u64::MAX,
        ensures
            final(self).transform_count() == old(self).transform_count() + 1,
            route == route_of(request),
    {
        self.transforms = self.transforms + 1;
        match request {
            SchemaRequest::IngestTypeSchema { scope, slot, legacy_text } => NexusRoute::Ingest {
                scope,
                slot,
                legacy_text,
            },
            SchemaRequest::StoreSignalContract { scope, slot, root } => NexusRoute::Commit(
                SemaRequest::Store {
                    key: DocumentKey { scope, kind: DocumentKind::SignalContract, slot },
                    payload: DocumentPayload::SignalContract(root),
                },
            ),
            SchemaRequest::StoreNexusRuntime { scope, slot, root } => NexusRoute::Commit(
                SemaRequest::Store {
                    key: DocumentKey { scope, kind: DocumentKind::NexusRuntime, slot },
                    payload: DocumentPayload::NexusRuntime(root),
                },
            ),
            SchemaRequest::StoreSemaStorage { scope, slot, root } => NexusRoute::Commit(
                SemaRequest::Store {
                    key: DocumentKey { scope, kind: DocumentKind::SemaStorage, slot },
                    payload: DocumentPayload::SemaStorage(root),
                },
            ),
            SchemaRequest::List { scope, kind } => NexusRoute::Commit(
                SemaRequest::List { scope, kind },
            ),
            SchemaRequest::Fetch { hash } => NexusRoute::Commit(SemaRequest::HashFetch { hash }),
            SchemaRequest::Subscribe { scope, kind } => NexusRoute::Commit(
                SemaRequest::Subscribe { scope, kind },
            ),
        }
    }

    /// The store request for a migrated type schema: its declarations and its archived
    /// name table, under the type-schema kind at the requested scope and slot.
    pub fn store_type_schema(
        scope: FixtureScope,
        slot: SlotIdentifier,
        schema: EncodedSchema,
        names: NameTableBytes,
    ) -> (request: SemaRequest)
        ensures
            request == (SemaRequest::Store {
                key: DocumentKey { scope, kind: DocumentKind::TypeSchema, slot },
                payload: DocumentPayload::TypeSchema { schema, names },
            }),
    {
        SemaRequest::Store {
            key: DocumentKey { scope, kind: DocumentKind::TypeSchema, slot },
            payload: DocumentPayload::TypeSchema { schema, names },
        }
    }

    /// The failure reported when the legacy text cannot be migrated.
    pub fn ingest_failure(error: &LegacyIngestError) -> (failure: Error)
        ensures
            failure matches Error::Codec(reason) && reason@ == error.message_text(),
    {
        Error::Codec(error.message())
    }

    /// The front door's answer to a storage reply.
    pub fn answer(reply: SemaReply) -> (answer: NexusAnswer)
        ensures
            answer == answer_of(reply),
    {
        match reply {
            SemaReply::Stored(summary) => NexusAnswer {
                reply: SchemaReply::Stored(summary),
                event: Some(
                    ChangeEvent {
                        subscription: SubscriptionIdentifier(0),
                        snapshot: Snapshot(summary.version.0),
                        document: summary,
                    },
                ),
            },
            SemaReply::Listed(values) => NexusAnswer {
                reply: SchemaReply::Listed(values),
                event: None,
            },
            SemaReply::Document(document) => {
                let fetched = match document {
                    Some(document) => Some(
                        SlotSummary {
                            key: document.key,
                            version: document.version,
                            hash: document.hash,
                        },
                    ),
                    None => None,
                };
                NexusAnswer { reply: SchemaReply::Fetched(fetched), event: None }
            },
            SemaReply::Subscribed { identifier, initial } => NexusAnswer {
                reply: SchemaReply::Subscribed { identifier, initial },
                event: None,
            },
            SemaReply::Rejected(StorageRejection::InvalidDocument(_)) => NexusAnswer {
                reply: SchemaReply::Rejected(SchemaRejection::InvalidRoot),
                event: None,
            },
            _ => NexusAnswer {
                reply: SchemaReply::Rejected(SchemaRejection::StorageFailed),
                event: None,
            },
        }
    }
}

/// The signal plane: the number of requests it has admitted.
pub struct SignalPlane {
    admitted: u64,
}

impl SignalPlane {
    /// The number of requests admitted.
    pub closed spec fn admitted_count(&self) -> u64 {
        self.admitted
    }

    /// A signal plane that has admitted nothing yet.
    pub fn new() -> (plane: SignalPlane)
        ensures
            plane.admitted_count() == 0,
    {
        SignalPlane { admitted: 0 }
    }

    /// The number of requests admitted.
    pub fn admitted(&self) -> (admitted: u64)
        ensures
            admitted == self.admitted_count(),
    {
        self.admitted
    }

    /// Counts one more admitted request; it is forwarded to the nexus plane unchanged.
    pub fn forward(&mut self, dispatch: Dispatch) -> (forwarded: Dispatch)
        requires
            old(self).admitted_count() < u64::MAX,
        ensures
            final(self).admitted_count() == old(self).admitted_count() + 1,
            forwarded == dispatch,
    {
        self.admitted = self.admitted + 1;
        dispatch
    }
}

} // verus!
