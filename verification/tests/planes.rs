use schema_engine::encoded::EncodedSchema;
use schema_engine::legacy_ingest::LegacyIngestError;
use schema_engine::storage::{
    ContentHash, DocumentKey, DocumentKind, DocumentPayload, FixtureScope, NameTableBytes,
    RootDocument, SchemaRejection, SchemaReply, SchemaRequest, SemaReply, SemaRequest,
    SlotIdentifier, SlotSummary, Snapshot, StorageRejection, StoredDocument,
    SubscriptionIdentifier, Version,
};
use schema_engine::wire::FrameMessage;
use schema_engine::{Dispatch, Error, NexusPlane, NexusRoute, SemaPlane, SignalPlane};

fn summary(version: u64) -> SlotSummary {
    SlotSummary {
        key: DocumentKey { scope: FixtureScope(1), kind: DocumentKind::TypeSchema, slot: SlotIdentifier(2) },
        version: Version(version),
        hash: ContentHash([7; 32]),
    }
}

#[test]
fn store_requests_keep_scope_and_slot_under_their_kind() {
    let mut nexus = NexusPlane::new();
    let cases = [
        (
            SchemaRequest::StoreSignalContract { scope: FixtureScope(3), slot: SlotIdentifier(4), root: RootDocument(vec![1]) },
            DocumentKind::SignalContract,
        ),
        (
            SchemaRequest::StoreNexusRuntime { scope: FixtureScope(3), slot: SlotIdentifier(4), root: RootDocument(vec![2]) },
            DocumentKind::NexusRuntime,
        ),
        (
            SchemaRequest::StoreSemaStorage { scope: FixtureScope(3), slot: SlotIdentifier(4), root: RootDocument(vec![3]) },
            DocumentKind::SemaStorage,
        ),
    ];
    for (request, expected_kind) in cases {
        match nexus.route(request) {
            NexusRoute::Commit(SemaRequest::Store { key, payload }) => {
                assert_eq!(key, DocumentKey { scope: FixtureScope(3), kind: expected_kind, slot: SlotIdentifier(4) });
                let root = match payload {
                    DocumentPayload::SignalContract(root)
                    | DocumentPayload::NexusRuntime(root)
                    | DocumentPayload::SemaStorage(root) => root,
                    DocumentPayload::TypeSchema { .. } => panic!("a root store is not a type schema"),
                };
                assert_eq!(root.0.len(), 1);
            }
            other => panic!("expected a store, got {other:?}"),
        }
    }
    assert_eq!(nexus.transforms(), 3);
}

#[test]
fn queries_pass_through_and_ingestion_migrates_first() {
    let mut nexus = NexusPlane::new();
    assert!(matches!(
        nexus.route(SchemaRequest::List { scope: FixtureScope(1), kind: None }),
        NexusRoute::Commit(SemaRequest::List { scope: FixtureScope(1), kind: None })
    ));
    assert!(matches!(
        nexus.route(SchemaRequest::Fetch { hash: ContentHash([9; 32]) }),
        NexusRoute::Commit(SemaRequest::HashFetch { hash: ContentHash([9, ..]) })
    ));
    assert!(matches!(
        nexus.route(SchemaRequest::Subscribe { scope: FixtureScope(5), kind: Some(DocumentKind::TypeSchema) }),
        NexusRoute::Commit(SemaRequest::Subscribe { scope: FixtureScope(5), kind: Some(DocumentKind::TypeSchema) })
    ));
    match nexus.route(SchemaRequest::IngestTypeSchema {
        scope: FixtureScope(1),
        slot: SlotIdentifier(1),
        legacy_text: "{}".to_owned(),
    }) {
        NexusRoute::Ingest { scope, slot, legacy_text } => {
            assert_eq!((scope, slot, legacy_text.as_str()), (FixtureScope(1), SlotIdentifier(1), "{}"));
        }
        other => panic!("expected an ingestion, got {other:?}"),
    }
    assert_eq!(nexus.transforms(), 4);
}

#[test]
fn a_migrated_schema_is_stored_as_a_type_schema() {
    let request = NexusPlane::store_type_schema(
        FixtureScope(1),
        SlotIdentifier(8),
        EncodedSchema::new(vec![]),
        NameTableBytes(vec![4, 2]),
    );
    match request {
        SemaRequest::Store { key, payload: DocumentPayload::TypeSchema { schema, names } } => {
            assert_eq!(key, DocumentKey { scope: FixtureScope(1), kind: DocumentKind::TypeSchema, slot: SlotIdentifier(8) });
            assert!(schema.declarations.is_empty());
            assert_eq!(names, NameTableBytes(vec![4, 2]));
        }
        other => panic!("expected a type-schema store, got {other:?}"),
    }
}

#[test]
fn a_stored_reply_announces_a_change_at_its_version() {
    let answer = NexusPlane::answer(SemaReply::Stored(summary(12)));
    assert!(matches!(answer.reply, SchemaReply::Stored(s) if s == summary(12)));
    let event = answer.event.expect("a stored document is announced");
    assert_eq!(event.subscription, SubscriptionIdentifier(0));
    assert_eq!(event.snapshot, Snapshot(12));
    assert_eq!(event.document, summary(12));
}

#[test]
fn other_replies_announce_nothing() {
    let listed = NexusPlane::answer(SemaReply::Listed(vec![summary(1), summary(2)]));
    assert!(matches!(&listed.reply, SchemaReply::Listed(values) if values.len() == 2));
    assert!(listed.event.is_none());

    let fetched = NexusPlane::answer(SemaReply::Document(Some(StoredDocument {
        key: summary(3).key,
        version: Version(3),
        hash: ContentHash([7; 32]),
    })));
    assert!(matches!(fetched.reply, SchemaReply::Fetched(Some(s)) if s == summary(3)));
    assert!(matches!(NexusPlane::answer(SemaReply::Document(None)).reply, SchemaReply::Fetched(None)));

    let subscribed = NexusPlane::answer(SemaReply::Subscribed {
        identifier: SubscriptionIdentifier(4),
        initial: vec![summary(1)],
    });
    assert!(matches!(
        &subscribed.reply,
        SchemaReply::Subscribed { identifier: SubscriptionIdentifier(4), initial } if initial.len() == 1
    ));
    assert!(subscribed.event.is_none());
}

#[test]
fn refusals_become_front_door_rejections() {
    let invalid = NexusPlane::answer(SemaReply::Rejected(StorageRejection::InvalidDocument("bad".to_owned())));
    assert!(matches!(invalid.reply, SchemaReply::Rejected(SchemaRejection::InvalidRoot)));
    let other = NexusPlane::answer(SemaReply::Rejected(StorageRejection::Other("full".to_owned())));
    assert!(matches!(other.reply, SchemaReply::Rejected(SchemaRejection::StorageFailed)));
    let unexpected = NexusPlane::answer(SemaReply::Unexpected);
    assert!(matches!(unexpected.reply, SchemaReply::Rejected(SchemaRejection::StorageFailed)));
    assert!(unexpected.event.is_none());
}

#[test]
fn a_failed_migration_is_a_codec_error() {
    assert_eq!(
        NexusPlane::ingest_failure(&LegacyIngestError::UnsupportedPath),
        Error::Codec("unsupported legacy Path scalar".to_owned())
    );
}

#[test]
fn errors_read_as_kind_and_message() {
    assert_eq!(Error::Io("broken pipe".to_owned()).message(), "io: broken pipe");
    assert_eq!(Error::Codec("bad frame".to_owned()).message(), "codec: bad frame");
    assert_eq!(Error::Actor("gone".to_owned()).message(), "actor: gone");
}

#[test]
fn each_commit_takes_the_next_exchange_number() {
    let mut sema = SemaPlane::new("/tmp/sema.sock".to_owned());
    assert_eq!(sema.commits(), 0);
    assert_eq!(sema.begin_commit(), 1);
    assert_eq!(sema.begin_commit(), 2);
    assert_eq!(sema.commits(), 2);
    assert_eq!(sema.socket(), "/tmp/sema.sock");
}

#[test]
fn the_storage_plane_checks_handshake_and_reply_frames() {
    assert_eq!(SemaPlane::confirm_handshake(&FrameMessage::HandshakeReply { accepted: true }), Ok(()));
    assert_eq!(
        SemaPlane::confirm_handshake(&FrameMessage::HandshakeReply { accepted: false }),
        Err(Error::Codec("Sema rejected frame protocol".to_owned()))
    );
    assert_eq!(
        SemaPlane::reply_payload(FrameMessage::Reply { exchange: 1, payload: vec![3, 4] }),
        Ok(vec![3, 4])
    );
    assert_eq!(
        SemaPlane::reply_payload(FrameMessage::Request { exchange: 1, payload: vec![] }),
        Err(Error::Codec("Sema returned a non-reply frame".to_owned()))
    );
}

#[test]
fn the_signal_plane_counts_and_forwards() {
    let mut signal = SignalPlane::new();
    let forwarded = signal.forward(Dispatch(SchemaRequest::List { scope: FixtureScope(2), kind: None }));
    assert!(matches!(forwarded.0, SchemaRequest::List { scope: FixtureScope(2), kind: None }));
    assert_eq!(signal.admitted(), 1);
}
