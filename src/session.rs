//! The session: the handshake as a state machine driven by the caller's I/O,
//! the two per-direction keystreams it yields, and what becomes of each line
//! of operator input.
use crate::frame::{
    encode_frame, frame, frame_at, lemma_frame_round_trip, lemma_u64_be_round_trip,
    u64_be, u64_from_be, u64_from_be_bytes, u64_to_be_bytes, MAX_PAYLOAD,
};
use crate::key_exchange::{
    compute_shared_secret, lemma_keypairs_agree, shared_secret, KeyPair,
};
use crate::keystream::{cipher, seed_state, state_after, transform, Lcg};
use crate::text::{trim_str, trimmed};
use vstd::prelude::*;
use vstd::string::StringSliceAdditionalSpecFns;

verus! {

/// Which side of the connection a party is on. The initiator listens and
/// sends its public value first; the responder connects and receives first.
#[derive(Clone, Copy, Debug, PartialEq, Eq, Structural)]
pub enum Role {
    Initiator,
    Responder,
}

/// What can go wrong in the protocol itself.
#[derive(Clone, Copy, Debug, PartialEq, Eq, Structural)]
pub enum SessionError {
    /// The peer's handshake frame did not carry an eight-byte public value.
    HandshakeFailure,
}

/// The two keystreams of an established session, both seeded from the
/// shared secret: `outbound` encrypts what this party sends, `inbound`
/// decrypts what it receives.
#[derive(Debug)]
pub struct Channel {
    pub secret: u64,
    pub outbound: Lcg,
    pub inbound: Lcg,
}

impl Channel {
    /// Both keystreams stand freshly seeded from `secret`.
    pub open spec fn fresh(&self, secret: u64) -> bool {
        &&& self.secret == secret
        &&& self.outbound.state == seed_state(secret)
        &&& self.outbound.position == 0
        &&& self.inbound.state == seed_state(secret)
        &&& self.inbound.position == 0
    }

    /// A channel whose keystreams are both seeded from `secret`.
    pub fn new(secret: u64) -> (r: Channel)
        ensures
            r.fresh(secret),
    {
        Channel { secret, outbound: Lcg::new(secret), inbound: Lcg::new(secret) }
    }
}

/// What the caller does next during the handshake.
pub enum HandshakeAction {
    /// Write these bytes (one frame) to the connection, then report
    /// `on_sent`.
    Send(Vec<u8>),
    /// Read one frame from the connection and hand its payload to
    /// `on_frame`.
    Receive,
    /// The handshake is over; this is the session's channel.
    Complete(Channel),
}

/// The handshake of one party: its role and key pair, whether its public
/// value has gone out, and the peer's public value once it has come in.
#[derive(Debug)]
pub struct Handshake {
    pub role: Role,
    pub keys: KeyPair,
    pub sent: bool,
    pub peer_public: Option<u64>,
}

/// The handshake frame that carries a public value.
pub open spec fn key_frame(public: u64) -> Seq<u8> {
    frame(u64_be(public))
}

impl Handshake {
    /// Our public value goes out next.
    pub open spec fn sends_next(&self) -> bool {
        !self.sent && (self.role == Role::Initiator || self.peer_public is Some)
    }

    /// The peer's public value is awaited next.
    pub open spec fn receives_next(&self) -> bool {
        self.peer_public is None && (self.sent || self.role == Role::Responder)
    }

    /// Both public values have crossed.
    pub open spec fn is_complete(&self) -> bool {
        self.sent && self.peer_public is Some
    }

    /// A handshake that has neither sent nor received anything.
    pub fn new(role: Role, keys: KeyPair) -> (r: Handshake)
        ensures
            r.role == role,
            r.keys == keys,
            !r.sent,
            r.peer_public is None,
    {
        Handshake { role, keys, sent: false, peer_public: None }
    }

    /// The next step: send our key frame, receive the peer's, or finish
    /// with the channel seeded from the shared secret.
    pub fn next_action(&self) -> (r: HandshakeAction)
        ensures
            self.sends_next() ==> r is Send && r->Send_0@ == key_frame(self.keys.public),
            self.receives_next() ==> r is Receive,
            self.is_complete() ==> r is Complete && r->Complete_0.fresh(
                shared_secret(self.peer_public->0, self.keys.private) as u64,
            ),
    {
        match self.peer_public {
            Some(peer) => {
                if self.sent {
                    HandshakeAction::Complete(
                        Channel::new(compute_shared_secret(peer, self.keys.private)),
                    )
                } else {
                    HandshakeAction::Send(encode_frame(&u64_to_be_bytes(self.keys.public)))
                }
            },
            None => {
                if !self.sent && self.role == Role::Initiator {
                    HandshakeAction::Send(encode_frame(&u64_to_be_bytes(self.keys.public)))
                } else {
                    HandshakeAction::Receive
                }
            },
        }
    }

    /// Records that our key frame has been written.
    pub fn on_sent(&mut self)
        requires
            old(self).sends_next(),
        ensures
            final(self).sent,
            final(self).role == old(self).role,
            final(self).keys == old(self).keys,
            final(self).peer_public == old(self).peer_public,
    {
        self.sent = true;
    }

    /// Takes the payload of the peer's key frame: eight big-endian bytes of
    /// its public value. Any other length is a handshake failure and leaves
    /// the handshake as it was.
    pub fn on_frame(&mut self, payload: &[u8]) -> (r: Result<(), SessionError>)
        requires
            old(self).receives_next(),
        ensures
            payload@.len() == 8 ==> r is Ok && final(self).peer_public == Some(
                u64_from_be(payload@),
            ),
            payload@.len() != 8 ==> r == Err::<(), SessionError>(SessionError::HandshakeFailure)
                && final(self).peer_public == old(self).peer_public,
            final(self).sent == old(self).sent,
            final(self).role == old(self).role,
            final(self).keys == old(self).keys,
    {
        if payload.len() != 8 {
            return Err(SessionError::HandshakeFailure);
        }
        self.peer_public = Some(u64_from_be_bytes(payload));
        Ok(())
    }
}

/// What becomes of one line of operator input.
pub enum LineAction {
    /// The line was empty: nothing is sent.
    Ignore,
    /// The operator asked to leave: the session ends and nothing is sent.
    Quit,
    /// Write these bytes (one frame of ciphertext) to the connection.
    Send(Vec<u8>),
}

/// The words that end a session.
pub open spec fn is_quit_command(text: Seq<char>) -> bool {
    text == "quit"@ || text == "exit"@
}

/// The handling of an already trimmed line: an empty one is ignored, `quit`
/// and `exit` end the session, and any other is encrypted with the outbound
/// keystream (its UTF-8 bytes, one keystream byte each) and framed. Only a
/// sent line advances the keystream.
pub fn outbound_message(text: &str, out: &mut Lcg) -> (r: LineAction)
    requires
        text.len() <= MAX_PAYLOAD,
    ensures
        text@.len() == 0 ==> r is Ignore,
        is_quit_command(text@) ==> r is Quit,
        (r is Ignore || r is Quit) ==> *final(out) == *old(out),
        text@.len() != 0 && !is_quit_command(text@) ==> {
            &&& r is Send
            &&& r->Send_0@ == frame(cipher(text.spec_bytes(), old(out).state))
            &&& final(out).state == state_after(old(out).state, text.spec_bytes().len())
            &&& final(out).position == (old(out).position + text.spec_bytes().len())
                % 0x1_0000_0000_0000_0000
        },
{
    proof {
        reveal_strlit("quit");
        reveal_strlit("exit");
    }
    if text.is_empty() {
        return LineAction::Ignore;
    }
    let owned: String = text.to_owned();
    let quit: String = "quit".to_owned();
    let exit: String = "exit".to_owned();
    if owned == quit || owned == exit {
        return LineAction::Quit;
    }
    let bytes = text.as_bytes();
    let len = bytes.len();
    assert(len <= MAX_PAYLOAD);
    let sealed = transform(bytes, out);
    LineAction::Send(encode_frame(&sealed))
}

/// The handling of a raw line of operator input: trimmed of surrounding
/// white space, then treated as `outbound_message` says.
pub fn outbound_line(line: &str, out: &mut Lcg) -> (r: LineAction)
    requires
        line.len() <= MAX_PAYLOAD,
    ensures
        trimmed(line@).len() == 0 ==> r is Ignore,
        is_quit_command(trimmed(line@)) ==> r is Quit,
        (r is Ignore || r is Quit) ==> *final(out) == *old(out),
        trimmed(line@).len() != 0 && !is_quit_command(trimmed(line@)) ==> {
            let b = vstd::utf8::encode_utf8(trimmed(line@));
            &&& r is Send
            &&& r->Send_0@ == frame(cipher(b, old(out).state))
            &&& final(out).state == state_after(old(out).state, b.len())
            &&& final(out).position == (old(out).position + b.len()) % 0x1_0000_0000_0000_0000
        },
{
    let line_len = line.as_bytes().len();
    let text = trim_str(line);
    assert(text.len() <= line_len);
    outbound_message(text, out)
}

/// Decrypts the payload of a chat frame with the inbound keystream.
pub fn inbound_message(payload: &[u8], inb: &mut Lcg) -> (r: Vec<u8>)
    ensures
        r@ == cipher(payload@, old(inb).state),
        final(inb).state == state_after(old(inb).state, payload@.len()),
        final(inb).position == (old(inb).position + payload@.len()) % 0x1_0000_0000_0000_0000,
{
    transform(payload, inb)
}

/// A key frame read back yields the public value it carries.
proof fn lemma_key_frame_read_back(public: u64)
    ensures
        frame_at(key_frame(public)) == Some((u64_be(public), 12nat)),
        u64_from_be(u64_be(public)) == public,
{
    let e = Seq::<u8>::empty();
    let p = u64_be(public);
    let f = key_frame(public);
    assert(p.len() == 8);
    lemma_frame_round_trip(p, e);
    assert(f + e =~= f);
    assert(frame_at(f) == frame_at(f + e));
    lemma_u64_be_round_trip(public);
}

/// Two honest parties end the handshake with the same secret: each one's
/// key frame, unframed and read back by the other, yields exactly the
/// sender's public value, and the two secrets derived from them agree.
pub proof fn lemma_handshake_agrees(a: KeyPair, b: KeyPair)
    requires
        a.wf(),
        b.wf(),
    ensures
        frame_at(key_frame(a.public)) == Some((u64_be(a.public), 12nat)),
        frame_at(key_frame(b.public)) == Some((u64_be(b.public), 12nat)),
        u64_from_be(u64_be(a.public)) == a.public,
        u64_from_be(u64_be(b.public)) == b.public,
        shared_secret(b.public, a.private) == shared_secret(a.public, b.private),
{
    lemma_key_frame_read_back(a.public);
    lemma_key_frame_read_back(b.public);
    lemma_keypairs_agree(a, b);
}

} // verus!
