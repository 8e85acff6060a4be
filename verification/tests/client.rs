use schema_engine::client::{
    event_matches, ingest_request, parse_command, subscription_filter, subscription_request,
    Command, FramedSocket,
};
use schema_engine::storage::{
    ChangeEvent, ContentHash, DocumentKey, DocumentKind, FixtureScope, SchemaRequest,
    SlotIdentifier, SlotSummary, Snapshot, SubscriptionIdentifier, Version,
};
use schema_engine::wire::{frame_from_parts, FrameMessage};

fn arguments(words: &[&str]) -> Vec<String> {
    words.iter().map(|word| word.to_string()).collect()
}

const USAGE: &str =
    "usage: schema-engine daemon [socket] [sema-socket] | ingest <socket> <file> | subscribe <socket>";

#[test]
fn the_daemon_defaults_its_sockets() {
    assert_eq!(
        parse_command(&arguments(&["daemon"])),
        Ok(Command::Daemon {
            socket: "/tmp/new-language-engine/schema.sock".to_owned(),
            sema: "/tmp/new-language-engine/sema.sock".to_owned(),
        })
    );
    assert_eq!(
        parse_command(&arguments(&["daemon", "/run/a.sock"])),
        Ok(Command::Daemon {
            socket: "/run/a.sock".to_owned(),
            sema: "/tmp/new-language-engine/sema.sock".to_owned(),
        })
    );
    assert_eq!(
        parse_command(&arguments(&["daemon", "/run/a.sock", "/run/b.sock"])),
        Ok(Command::Daemon { socket: "/run/a.sock".to_owned(), sema: "/run/b.sock".to_owned() })
    );
}

#[test]
fn ingest_and_subscribe_need_their_arguments() {
    assert_eq!(
        parse_command(&arguments(&["ingest", "/run/a.sock", "spirit.schema"])),
        Ok(Command::Ingest { socket: "/run/a.sock".to_owned(), file: "spirit.schema".to_owned() })
    );
    assert_eq!(parse_command(&arguments(&["ingest"])), Err("socket".to_owned()));
    assert_eq!(parse_command(&arguments(&["ingest", "/run/a.sock"])), Err("schema file".to_owned()));
    assert_eq!(
        parse_command(&arguments(&["subscribe", "/run/a.sock"])),
        Ok(Command::Subscribe { socket: "/run/a.sock".to_owned() })
    );
    assert_eq!(parse_command(&arguments(&["subscribe"])), Err("socket".to_owned()));
}

#[test]
fn anything_else_is_a_usage_error() {
    assert_eq!(parse_command(&arguments(&[])), Err(USAGE.to_owned()));
    assert_eq!(parse_command(&arguments(&["serve"])), Err(USAGE.to_owned()));
}

#[test]
fn the_commands_send_scope_one_requests() {
    assert!(matches!(
        ingest_request("{}".to_owned()),
        SchemaRequest::IngestTypeSchema { scope: FixtureScope(1), slot: SlotIdentifier(1), legacy_text } if legacy_text == "{}"
    ));
    assert!(matches!(
        subscription_request(),
        SchemaRequest::Subscribe { scope: FixtureScope(1), kind: Some(DocumentKind::TypeSchema) }
    ));
}

fn event(scope: u64, kind: DocumentKind) -> ChangeEvent {
    ChangeEvent {
        subscription: SubscriptionIdentifier(0),
        snapshot: Snapshot(1),
        document: SlotSummary {
            key: DocumentKey { scope: FixtureScope(scope), kind, slot: SlotIdentifier(1) },
            version: Version(1),
            hash: ContentHash([0; 32]),
        },
    }
}

#[test]
fn subscribers_see_only_their_scope_and_kind() {
    let filter = subscription_filter(&subscription_request()).expect("a subscription");
    assert_eq!(filter, (FixtureScope(1), Some(DocumentKind::TypeSchema)));
    assert!(event_matches(filter, &event(1, DocumentKind::TypeSchema)));
    assert!(!event_matches(filter, &event(1, DocumentKind::SignalContract)));
    assert!(!event_matches(filter, &event(2, DocumentKind::TypeSchema)));
    let any_kind = (FixtureScope(2), None);
    assert!(event_matches(any_kind, &event(2, DocumentKind::NexusRuntime)));
    assert!(!event_matches(any_kind, &event(1, DocumentKind::NexusRuntime)));
    assert_eq!(subscription_filter(&SchemaRequest::List { scope: FixtureScope(1), kind: None }), None);
}

#[test]
fn a_frame_is_its_big_endian_length_then_its_body() {
    let frame = frame_from_parts(3, &[9, 8, 7]);
    assert_eq!(frame, vec![0, 0, 0, 3, 9, 8, 7]);
    let body = vec![1u8; 0x0102];
    let frame = frame_from_parts(0x0102, &body);
    assert_eq!(&frame[..4], &[0, 0, 1, 2]);
    assert_eq!(frame.len(), 0x0102 + 4);
    assert_eq!(frame_from_parts(0, &[]), vec![0, 0, 0, 0]);
}

#[test]
fn each_request_takes_the_next_exchange_number() {
    let mut socket = FramedSocket::new();
    assert_eq!(socket.take_exchange(), 0);
    assert_eq!(socket.take_exchange(), 1);
}

#[test]
fn connections_check_their_frames() {
    assert_eq!(FramedSocket::confirm_handshake(&FrameMessage::HandshakeReply { accepted: true }), Ok(()));
    assert_eq!(
        FramedSocket::confirm_handshake(&FrameMessage::HandshakeReply { accepted: false }),
        Err("daemon rejected shared frame protocol".to_owned())
    );
    assert_eq!(FramedSocket::handshake_announcement(FrameMessage::HandshakeRequest(vec![1, 0])), Ok(vec![1, 0]));
    assert_eq!(
        FramedSocket::handshake_announcement(FrameMessage::Reply { exchange: 0, payload: vec![] }),
        Err("first frame was not a protocol handshake".to_owned())
    );
    assert_eq!(
        FramedSocket::request_exchange(FrameMessage::Request { exchange: 4, payload: vec![5] }),
        Ok((4, vec![5]))
    );
    assert_eq!(
        FramedSocket::request_exchange(FrameMessage::HandshakeReply { accepted: true }),
        Err("expected shared request frame".to_owned())
    );
    assert_eq!(FramedSocket::reply_payload(FrameMessage::Reply { exchange: 4, payload: vec![6] }), Ok(vec![6]));
    assert_eq!(
        FramedSocket::reply_payload(FrameMessage::Request { exchange: 4, payload: vec![] }),
        Err("expected shared reply frame".to_owned())
    );
    assert!(!FrameMessage::HandshakeRequest(vec![]).is_accepted_handshake());
}

#[test]
fn a_failed_framing_leaves_the_exchange_number_for_the_next_request() {
    let mut socket = FramedSocket::new();
    let failed: Result<Vec<u8>, String> = Err("frame too large".to_owned());
    assert_eq!(socket.settle_request(failed), Err("frame too large".to_owned()));
    assert_eq!(socket.upcoming_exchange(), 0);
    let framed: Result<Vec<u8>, String> = Ok(vec![0, 0, 0, 1, 7]);
    assert_eq!(socket.settle_request(framed), Ok(vec![0, 0, 0, 1, 7]));
    assert_eq!(socket.upcoming_exchange(), 1);
}
