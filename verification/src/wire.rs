//! Length-prefixed frames and the decisions taken on decoded frame messages.

use vstd::prelude::*;

verus! {

/// A decoded frame message.
#[derive(Clone, Debug, PartialEq, Eq)]
pub enum FrameMessage {
    /// A peer opening the frame protocol, with its protocol announcement.
    HandshakeRequest(Vec<u8>),
    /// The answer to a handshake: whether the protocol was accepted.
    HandshakeReply { accepted: bool },
    /// A request under an exchange number.
    Request { exchange: u64, payload: Vec<u8> },
    /// A reply under an exchange number.
    Reply { exchange: u64, payload: Vec<u8> },
}

impl FrameMessage {
    /// Whether this frame accepts the frame protocol.
    pub fn is_accepted_handshake(&self) -> (accepted: bool)
        ensures
            accepted == (*self matches FrameMessage::HandshakeReply { accepted: true }),
    {
        match self {
            FrameMessage::HandshakeReply { accepted } => *accepted,
            _ => false,
        }
    }
}

/// The four big-endian bytes of `length`.
pub open spec fn length_prefix(length: u32) -> Seq<u8> {
    seq![
        (length / 0x100_0000) as u8,
        ((length / 0x1_0000) % 0x100) as u8,
        ((length / 0x100) % 0x100) as u8,
        (length % 0x100) as u8,
    ]
}

/// The length a four-byte big-endian prefix announces.
pub open spec fn prefixed_length(prefix: Seq<u8>) -> int {
    prefix[0] * 0x100_0000 + prefix[1] * 0x1_0000 + prefix[2] * 0x100 + prefix[3]
}

/// A frame's prefix announces the length it was written with.
pub proof fn lemma_length_prefix_roundtrip(length: u32)
    ensures
        length_prefix(length).len() == 4,
        prefixed_length(length_prefix(length)) == length,
{
    let x = length as int;
    assert(x == (x / 0x100_0000) * 0x100_0000 + ((x / 0x1_0000) % 0x100) * 0x1_0000 + ((x / 0x100)
        % 0x100) * 0x100 + x % 0x100) by (nonlinear_arith)
        requires
            0 <= x < 0x1_0000_0000,
    ;
}

/// A whole frame: the length prefix, then exactly that many body bytes.
pub fn frame_from_parts(length: u32, body: &[u8]) -> (frame: Vec<u8>)
    requires
        body@.len() == length,
    ensures
        frame@ == length_prefix(length) + body@,
        frame@.len() == length + 4,
{
    let mut frame: Vec<u8> = Vec::new();
    frame.push((length / 0x100_0000) as u8);
    frame.push(((length / 0x1_0000) % 0x100) as u8);
    frame.push(((length / 0x100) % 0x100) as u8);
    frame.push((length % 0x100) as u8);
    assert(frame@ =~= length_prefix(length));
    let mut i: usize = 0;
    while i < body.len()
        invariant
            i <= body@.len(),
            frame@ == length_prefix(length) + body@.take(i as int),
        decreases body@.len() - i,
    {
        frame.push(body[i]);
        assert(body@.take(i + 1) =~= body@.take(i as int).push(body@[i as int]));
        assert(frame@ =~= length_prefix(length) + body@.take(i + 1));
        i += 1;
    }
    assert(body@.take(i as int) =~= body@);
    frame
}

} // verus!
