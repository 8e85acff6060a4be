//! The command line and the decisions of the framed socket connections: which command
//! runs, what each handshake and frame must be, and which change events a subscriber
//! is sent.

use vstd::prelude::*;

use crate::storage::{ChangeEvent, DocumentKind, FixtureScope, SchemaRequest, SlotIdentifier};
use crate::wire::FrameMessage;

verus! {

/// The socket the daemon listens on when none is given.
pub open spec fn default_socket() -> Seq<char> {
    "/tmp/new-language-engine/schema.sock"@
}

/// The storage authority's socket when none is given.
pub open spec fn default_sema_socket() -> Seq<char> {
    "/tmp/new-language-engine/sema.sock"@
}

/// How the command line is used.
pub open spec fn usage() -> Seq<char> {
    "usage: schema-engine daemon [socket] [sema-socket] | ingest <socket> <file> | subscribe <socket>"@
}

/// A command of the command line.
#[derive(Debug, PartialEq, Eq)]
pub enum Command {
    /// Serve requests on `socket`, storing through the authority at `sema`.
    Daemon { socket: String, sema: String },
    /// Ingest the legacy schema in `file` through the daemon at `socket`.
    Ingest { socket: String, file: String },
    /// Follow type-schema changes through the daemon at `socket`.
    Subscribe { socket: String },
}

/// A command, its paths taken by their spellings.
pub enum CommandView {
    Daemon { socket: Seq<char>, sema: Seq<char> },
    Ingest { socket: Seq<char>, file: Seq<char> },
    Subscribe { socket: Seq<char> },
}

impl View for Command {
    type V = CommandView;

    open spec fn view(&self) -> CommandView {
        match self {
            Command::Daemon { socket, sema } => CommandView::Daemon { socket: socket@, sema: sema@ },
            Command::Ingest { socket, file } => CommandView::Ingest { socket: socket@, file: file@ },
            Command::Subscribe { socket } => CommandView::Subscribe { socket: socket@ },
        }
    }
}

/// The argument at `index`, or `default` when there are fewer arguments.
pub open spec fn argument_or(arguments: Seq<Seq<char>>, index: int, default: Seq<char>) -> Seq<
    char,
> {
    if index < arguments.len() {
        arguments[index]
    } else {
        default
    }
}

/// The command the arguments (program name excluded) select, or the complaint.
pub open spec fn command_of(arguments: Seq<Seq<char>>) -> Result<CommandView, Seq<char>> {
    if arguments.len() == 0 {
        Err(usage())
    } else if arguments[0] == "daemon"@ {
        Ok(
            CommandView::Daemon {
                socket: argument_or(arguments, 1, default_socket()),
                sema: argument_or(arguments, 2, default_sema_socket()),
            },
        )
    } else if arguments[0] == "ingest"@ {
        if arguments.len() < 2 {
            Err("socket"@)
        } else if arguments.len() < 3 {
            Err("schema file"@)
        } else {
            Ok(CommandView::Ingest { socket: arguments[1], file: arguments[2] })
        }
    } else if arguments[0] == "subscribe"@ {
        if arguments.len() < 2 {
            Err("socket"@)
        } else {
            Ok(CommandView::Subscribe { socket: arguments[1] })
        }
    } else {
        Err(usage())
    }
}

fn argument_or_default(arguments: &Vec<String>, index: usize, default: &str) -> (argument: String)
    ensures
        argument@ == argument_or(arguments@.map_values(|a: String| a@), index as int, default@),
{
    if index < arguments.len() {
        arguments[index].clone()
    } else {
        String::from_str(default)
    }
}

/// The command the arguments (program name excluded) select.
pub fn parse_command(arguments: &Vec<String>) -> (command: Result<Command, String>)
    ensures
        match command_of(arguments@.map_values(|a: String| a@)) {
            Ok(expected) => command matches Ok(c) && c@ == expected,
            Err(complaint) => command matches Err(text) && text@ == complaint,
        },
{
    let ghost spelled = arguments@.map_values(|a: String| a@);
    if arguments.len() == 0 {
        return Err(String::from_str(
            "usage: schema-engine daemon [socket] [sema-socket] | ingest <socket> <file> | subscribe <socket>",
        ));
    }
    let first = &arguments[0];
    assert(spelled[0] == first@);
    if *first == String::from_str("daemon") {
        let socket = argument_or_default(arguments, 1, "/tmp/new-language-engine/schema.sock");
        let sema = argument_or_default(arguments, 2, "/tmp/new-language-engine/sema.sock");
        Ok(Command::Daemon { socket, sema })
    } else if *first == String::from_str("ingest") {
        if arguments.len() < 2 {
            Err(String::from_str("socket"))
        } else if arguments.len() < 3 {
            Err(String::from_str("schema file"))
        } else {
            assert(spelled[1] == arguments@[1]@ && spelled[2] == arguments@[2]@);
            Ok(Command::Ingest { socket: arguments[1].clone(), file: arguments[2].clone() })
        }
    } else if *first == String::from_str("subscribe") {
        if arguments.len() < 2 {
            Err(String::from_str("socket"))
        } else {
            assert(spelled[1] == arguments@[1]@);
            Ok(Command::Subscribe { socket: arguments[1].clone() })
        }
    } else {
        Err(String::from_str(
            "usage: schema-engine daemon [socket] [sema-socket] | ingest <socket> <file> | subscribe <socket>",
        ))
    }
}

/// The request the `ingest` command sends: the legacy text, for slot 1 of scope 1.
pub fn ingest_request(legacy_text: String) -> (request: SchemaRequest)
    ensures
        request == (SchemaRequest::IngestTypeSchema {
            scope: FixtureScope(1),
            slot: SlotIdentifier(1),
            legacy_text,
        }),
{
    SchemaRequest::IngestTypeSchema { scope: FixtureScope(1), slot: SlotIdentifier(1), legacy_text }
}

/// The request the `subscribe` command sends: type-schema changes in scope 1.
pub fn subscription_request() -> (request: SchemaRequest)
    ensures
        request == (SchemaRequest::Subscribe {
            scope: FixtureScope(1),
            kind: Some(DocumentKind::TypeSchema),
        }),
{
    SchemaRequest::Subscribe { scope: FixtureScope(1), kind: Some(DocumentKind::TypeSchema) }
}

/// The subscription a request opens: its scope and optional kind, when it is a
/// subscribe request.
pub fn subscription_filter(request: &SchemaRequest) -> (filter: Option<
    (FixtureScope, Option<DocumentKind>),
>)
    ensures
        match *request {
            SchemaRequest::Subscribe { scope, kind } => filter == Some((scope, kind)),
            _ => filter is None,
        },
{
    match request {
        SchemaRequest::Subscribe { scope, kind } => Some((*scope, *kind)),
        _ => None,
    }
}

/// A change event reaches a subscriber when it is in the subscribed scope and, if the
/// subscription names a kind, of that kind.
pub open spec fn event_selected(filter: (FixtureScope, Option<DocumentKind>), event: ChangeEvent) -> bool {
    &&& event.document.key.scope == filter.0
    &&& match filter.1 {
        Some(kind) => event.document.key.kind == kind,
        None => true,
    }
}

/// A subscription to one kind in a scope receives exactly the events of documents of
/// that kind in that scope; a subscription to a whole scope receives exactly the events
/// of documents in that scope, of every kind.
pub proof fn lemma_event_selection(scope: FixtureScope, kind: DocumentKind, event: ChangeEvent)
    ensures
        event_selected((scope, Some(kind)), event) == (event.document.key.scope == scope
            && event.document.key.kind == kind),
        event_selected((scope, None), event) == (event.document.key.scope == scope),
{
}

/// Whether a change event reaches a subscriber with the given subscription.
pub fn event_matches(filter: (FixtureScope, Option<DocumentKind>), event: &ChangeEvent) -> (selected:
    bool)
    ensures
        selected == event_selected(filter, *event),
{
    event.document.key.scope == filter.0 && match filter.1 {
        Some(kind) => event.document.key.kind == kind,
        None => true,
    }
}

/// A framed connection's state: the exchange number of its next request.
pub struct FramedSocket {
    sequence: u64,
}

impl FramedSocket {
    /// The exchange number of the next request.
    pub closed spec fn next_exchange(&self) -> u64 {
        self.sequence
    }

    /// A fresh connection: its first request is exchange 0.
    pub fn new() -> (socket: FramedSocket)
        ensures
            socket.next_exchange() == 0,
    {
        FramedSocket { sequence: 0 }
    }

    /// The exchange number of the next request.
    pub fn upcoming_exchange(&self) -> (exchange: u64)
        ensures
            exchange == self.next_exchange(),
    {
        self.sequence
    }

    /// Takes the exchange number for the next request.
    pub fn take_exchange(&mut self) -> (exchange: u64)
        requires
            old(self).next_exchange() < u64::MAX,
        ensures
            exchange == old(self).next_exchange(),
            final(self).next_exchange() == old(self).next_exchange() + 1,
    {
        let exchange = self.sequence;
        self.sequence = self.sequence + 1;
        exchange
    }

    /// Settles a request framed for the upcoming exchange: a request that was framed uses
    /// that exchange up, and one whose framing failed leaves it for the next request.
    pub fn settle_request<E>(&mut self, framed: Result<Vec<u8>, E>) -> (sent: Result<Vec<u8>, E>)
        requires
            framed is Ok ==> old(self).next_exchange() < u64::MAX,
        ensures
            sent == framed,
            framed is Ok ==> final(self).next_exchange() == old(self).next_exchange() + 1,
            framed is Err ==> final(self).next_exchange() == old(self).next_exchange(),
    {
        match framed {
            Ok(frame) => {
                self.sequence = self.sequence + 1;
                Ok(frame)
            },
            Err(error) => Err(error),
        }
    }

    /// A daemon's answer to the handshake must accept the frame protocol.
    pub fn confirm_handshake(frame: &FrameMessage) -> (confirmed: Result<(), String>)
        ensures
            frame matches FrameMessage::HandshakeReply { accepted: true } ==> confirmed is Ok,
            !(frame matches FrameMessage::HandshakeReply { accepted: true }) ==> (
            confirmed matches Err(text) && text@ == "daemon rejected shared frame protocol"@),
    {
        if frame.is_accepted_handshake() {
            Ok(())
        } else {
            Err(String::from_str("daemon rejected shared frame protocol"))
        }
    }

    /// A connection's first frame must open the protocol; its announcement is answered.
    pub fn handshake_announcement(frame: FrameMessage) -> (announcement: Result<Vec<u8>, String>)
        ensures
            match frame {
                FrameMessage::HandshakeRequest(peer) => announcement == Ok::<Vec<u8>, String>(
                    peer,
                ),
                _ => announcement matches Err(text) && text@
                    == "first frame was not a protocol handshake"@,
            },
    {
        match frame {
            FrameMessage::HandshakeRequest(peer) => Ok(peer),
            _ => Err(String::from_str("first frame was not a protocol handshake")),
        }
    }

    /// A served connection's second frame must be a request: its exchange number and
    /// payload.
    pub fn request_exchange(frame: FrameMessage) -> (request: Result<(u64, Vec<u8>), String>)
        ensures
            match frame {
                FrameMessage::Request { exchange, payload } => request == Ok::<
                    (u64, Vec<u8>),
                    String,
                >((exchange, payload)),
                _ => request matches Err(text) && text@ == "expected shared request frame"@,
            },
    {
        match frame {
            FrameMessage::Request { exchange, payload } => Ok((exchange, payload)),
            _ => Err(String::from_str("expected shared request frame")),
        }
    }

    /// A client's answer must be a reply frame; its payload is the archived reply.
    pub fn reply_payload(frame: FrameMessage) -> (payload: Result<Vec<u8>, String>)
        ensures
            match frame {
                FrameMessage::Reply { payload: bytes, .. } => payload == Ok::<Vec<u8>, String>(
                    bytes,
                ),
                _ => payload matches Err(text) && text@ == "expected shared reply frame"@,
            },
    {
        match frame {
            FrameMessage::Reply { payload, .. } => Ok(payload),
            _ => Err(String::from_str("expected shared reply frame")),
        }
    }
}

} // verus!
