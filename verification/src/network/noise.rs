//! The state machine of a Noise XX session with one peer: handshake
//! messages until the handshake completes, then transport encryption; a
//! session whose handshake cannot become a transport is dead for good.
//! What the messages hold is snow's (it draws fresh ephemeral keys), so the
//! contracts say what holds whatever snow answers.
use vstd::prelude::*;

verus! {

#[verifier::external_type_specification]
#[verifier::external_body]
pub struct ExHandshakeState(snow::HandshakeState);

#[verifier::external_type_specification]
#[verifier::external_body]
pub struct ExTransportState(snow::TransportState);

/// Room for one handshake message.
pub const HANDSHAKE_BUFFER: usize = 1024;

/// Bytes that transport encryption adds to a payload (the AEAD tag).
pub const TAG_LEN: usize = 16;

/// The longest message of the Noise protocol.
pub const MAX_MESSAGE_LEN: usize = 65535;

/// Writes the next handshake message carrying `payload` into a buffer of
/// `capacity` bytes (`HandshakeState::write_message`, which reports how
/// many bytes it wrote).
#[verifier::external_body]
fn handshake_write(hs: &mut snow::HandshakeState, payload: &[u8], capacity: usize) -> (r: Option<
    Vec<u8>,
>)
    ensures
        r matches Some(m) ==> m@.len() <= capacity,
{
    let mut buf = vec![0u8; capacity];
    match hs.write_message(payload, &mut buf) {
        Ok(n) => {
            buf.truncate(n);
            Some(buf)
        },
        Err(_) => None,
    }
}

/// Reads a handshake message into a buffer of `capacity` bytes
/// (`HandshakeState::read_message`), giving the payload it carried.
#[verifier::external_body]
fn handshake_read(hs: &mut snow::HandshakeState, message: &[u8], capacity: usize) -> (r: Option<
    Vec<u8>,
>)
    ensures
        r matches Some(p) ==> p@.len() <= capacity,
{
    let mut buf = vec![0u8; capacity];
    match hs.read_message(message, &mut buf) {
        Ok(n) => {
            buf.truncate(n);
            Some(buf)
        },
        Err(_) => None,
    }
}

/// Whether all handshake messages were exchanged
/// (`HandshakeState::is_handshake_finished`).
#[verifier::external_body]
fn handshake_finished(hs: &snow::HandshakeState) -> (r: bool) {
    hs.is_handshake_finished()
}

/// The transport state of a handshake (`HandshakeState::into_transport_mode`).
#[verifier::external_body]
fn into_transport(hs: snow::HandshakeState) -> (r: Option<snow::TransportState>) {
    hs.into_transport_mode().ok()
}

/// Encrypts `payload` into a buffer of `capacity` bytes
/// (`TransportState::write_message`): a message longer than the protocol
/// allows, or than the buffer, is refused; what is written is the payload
/// and its tag. (Whether the transport can send at all, which a one-way
/// pattern or an exhausted nonce forbids, is snow's state.)
#[verifier::external_body]
fn transport_write(ts: &mut snow::TransportState, payload: &[u8], capacity: usize) -> (r: Option<
    Vec<u8>,
>)
    ensures
        r matches Some(m) ==> m@.len() == payload@.len() + TAG_LEN,
        payload@.len() + TAG_LEN > MAX_MESSAGE_LEN || payload@.len() + TAG_LEN > capacity
            ==> r is None,
{
    let mut buf = vec![0u8; capacity];
    match ts.write_message(payload, &mut buf) {
        Ok(n) => {
            buf.truncate(n);
            Some(buf)
        },
        Err(_) => None,
    }
}

/// Decrypts `message` into a buffer of `capacity` bytes
/// (`TransportState::read_message`): a message longer than the protocol
/// allows, or shorter than a tag, is refused; what is read is the message
/// without its tag. (Whether the tag checks is snow's state.)
#[verifier::external_body]
fn transport_read(ts: &mut snow::TransportState, message: &[u8], capacity: usize) -> (r: Option<
    Vec<u8>,
>)
    ensures
        r matches Some(p) ==> p@.len() + TAG_LEN == message@.len(),
        message@.len() > MAX_MESSAGE_LEN || message@.len() < TAG_LEN ==> r is None,
{
    let mut buf = vec![0u8; capacity];
    match ts.read_message(message, &mut buf) {
        Ok(n) => {
            buf.truncate(n);
            Some(buf)
        },
        Err(_) => None,
    }
}

/// Where a session with a peer stands.
pub enum SecureState {
    Handshaking(Box<snow::HandshakeState>),
    Active(snow::TransportState),
    Invalid,
}

impl SecureState {
    /// The handshake is under way.
    pub open spec fn handshaking(&self) -> bool {
        self is Handshaking
    }

    /// The session encrypts and decrypts.
    pub open spec fn active(&self) -> bool {
        self is Active
    }

    /// The session can no longer be used.
    pub open spec fn dead(&self) -> bool {
        self is Invalid
    }

    /// The session once its handshake is finished: active with the
    /// transport made of the handshake, or dead when none could be made.
    pub fn completed(transport: Option<snow::TransportState>) -> (r: SecureState)
        ensures
            match transport {
                Some(t) => r == SecureState::Active(t),
                None => r.dead(),
            },
    {
        match transport {
            Some(t) => SecureState::Active(t),
            None => SecureState::Invalid,
        }
    }

    /// Prepares a message for the peer: the encryption of `payload` once
    /// the session is active, the next handshake message (flagged as such)
    /// while handshaking, nothing once the session is dead; an empty
    /// message where snow fails. Sending never changes the session's phase.
    pub fn wrap(&mut self, payload: &[u8]) -> (r: (Vec<u8>, bool))
        ensures
            r.1 <==> old(self).handshaking(),
            final(self).handshaking() <==> old(self).handshaking(),
            final(self).active() <==> old(self).active(),
            final(self).dead() <==> old(self).dead(),
            old(self).active() ==> r.0@.len() == 0 || r.0@.len() == payload@.len() + TAG_LEN,
            old(self).active() && payload@.len() + TAG_LEN > MAX_MESSAGE_LEN ==> r.0@.len() == 0,
            old(self).handshaking() ==> r.0@.len() <= HANDSHAKE_BUFFER,
            old(self).dead() ==> r.0@.len() == 0,
    {
        match self {
            SecureState::Active(transport) => {
                if payload.len() > usize::MAX - TAG_LEN {
                    return (Vec::new(), false);
                }
                match transport_write(transport, payload, payload.len() + TAG_LEN) {
                    Some(m) => (m, false),
                    None => (Vec::new(), false),
                }
            },
            SecureState::Handshaking(handshake) => {
                match handshake_write(handshake, &[], HANDSHAKE_BUFFER) {
                    Some(m) => (m, true),
                    None => (Vec::new(), true),
                }
            },
            SecureState::Invalid => (Vec::new(), false),
        }
    }

    /// Takes a message from the peer and gives the payload it carried, if
    /// snow accepts it. A dead session accepts nothing and stays dead; an
    /// active one stays active; a handshake that snow refuses a message
    /// stays where it was, and one that completes becomes active, or dead
    /// when no transport can be made of it.
    pub fn unwrap(&mut self, message: &[u8]) -> (r: Option<Vec<u8>>)
        ensures
            old(self).dead() ==> r is None && final(self).dead(),
            old(self).active() ==> final(self).active(),
            old(self).active() ==> (r matches Some(p) ==> p@.len() + TAG_LEN == message@.len()),
            old(self).active() && (message@.len() < TAG_LEN || message@.len() > MAX_MESSAGE_LEN)
                ==> r is None,
            old(self).handshaking() && r is None ==> final(self).handshaking(),
            old(self).handshaking() && !final(self).handshaking() ==> r is Some,
            old(self).handshaking() ==> (r matches Some(p) ==> p@.len() <= HANDSHAKE_BUFFER),
    {
        match self {
            SecureState::Handshaking(handshake) => {
                let read = handshake_read(handshake, message, HANDSHAKE_BUFFER);
                match read {
                    Some(p) => {
                        if handshake_finished(handshake) {
                            let mut old_state = SecureState::Invalid;
                            std::mem::swap(&mut old_state, self);
                            match old_state {
                                SecureState::Handshaking(hs) => {
                                    *self = SecureState::completed(into_transport(*hs));
                                },
                                _ => {},
                            }
                        }
                        Some(p)
                    },
                    None => None,
                }
            },
            SecureState::Active(transport) => transport_read(transport, message, message.len()),
            SecureState::Invalid => None,
        }
    }
}

} // verus!
