//! The mailbox: control bytes sealed for one recipient, and the boundary
//! that a relay client implements.
//!
//! The seal is NIP-44 between the identity keys of two devices. It keeps
//! relays from reading the mail; what it carries is sealed once more under
//! its own envelope. Size gates bracket the decryption, so oversize mail is
//! refused before and after it.

use vstd::prelude::*;
use vstd::utf8::encode_utf8;

use crate::ids::DeviceId;
use crate::order::Key;

verus! {

/// Most bytes of ciphertext that are accepted for decryption. A sealed
/// maximum stays below it.
pub const MAX_MAILBOX_CIPHERTEXT_LEN: usize = 98304;

/// Most control bytes that are sealed, or accepted from a decryption.
pub const MAX_MAILBOX_OPEN_BYTES: usize = 65536;

#[derive(Debug, PartialEq, Eq)]
pub enum MailboxError {
    /// Sealing or opening failed.
    Crypto,
    /// A payload is over its ceiling.
    Oversize { bytes: usize, max: usize },
    /// A device key is not a valid secret key.
    InvalidKey,
    /// The signer, the envelope or the open key disagree with the owner of
    /// the mailbox.
    Identity,
    /// The relay transport failed.
    Transport(String),
}

/// One sealed delivery. Sender and recipient are visible to relays.
#[derive(Debug, PartialEq, Eq)]
pub struct MailboxEnvelope {
    pub sender: DeviceId,
    pub recipient: DeviceId,
    pub ciphertext: String,
}

impl Clone for MailboxEnvelope {
    fn clone(&self) -> (r: Self)
        ensures
            r == *self,
    {
        MailboxEnvelope {
            sender: self.sender,
            recipient: self.recipient,
            ciphertext: self.ciphertext.clone(),
        }
    }
}

/// A byte string read as a number, most significant byte first.
pub open spec fn big_endian(bytes: Seq<u8>) -> nat
    decreases bytes.len(),
{
    if bytes.len() == 0 {
        0
    } else {
        big_endian(bytes.drop_last()) * 256 + bytes.last() as nat
    }
}

/// The order of the secp256k1 group.
pub open spec fn group_order() -> nat {
    0xffffffff_ffffffff_ffffffff_fffffffe_baaedce6_af48a03b_bfd25e8c_d0364141nat
}

/// Whether bytes are a secret key: a number from one up to, and without,
/// the order of the group.
pub open spec fn is_secret(bytes: Seq<u8>) -> bool {
    bytes.len() == 32 && 0 < big_endian(bytes) < group_order()
}

/// The x-only public key of a secret key.
pub uninterp spec fn x_only(secret: Seq<u8>) -> Seq<u8>;

/// The payload that NIP-44 makes of content, from the sender's secret key,
/// the recipient's public key and a nonce.
pub uninterp spec fn nip44_sealed(
    secret: Seq<u8>,
    recipient: Seq<u8>,
    content: Seq<u8>,
    nonce: Seq<u8>,
) -> Option<Seq<char>>;

/// The content that NIP-44 recovers from a payload, with the recipient's
/// secret key and the sender's public key.
pub uninterp spec fn nip44_opened(secret: Seq<u8>, sender: Seq<u8>, payload: Seq<char>) -> Option<
    Seq<u8>,
>;

/// Whether a public key is the key of some device.
pub open spec fn is_device(public: Seq<u8>) -> bool {
    exists|secret: Seq<u8>| is_secret(secret) && #[trigger] x_only(secret) == public
}

/// Whether 32 bytes are a secret key, by `secp256k1::SecretKey::from_slice`:
/// it accepts exactly the numbers, most significant byte first, that are
/// neither zero nor as large as the order of the group.
#[verifier::external_body]
fn secret_key_parses(bytes: &[u8; 32]) -> (b: bool)
    ensures
        b == is_secret(bytes@),
{
    secp256k1::SecretKey::from_slice(bytes).is_ok()
}

/// The x-only public key of a secret key, by
/// `secp256k1::XOnlyPublicKey::from_keypair`. It depends on the secret key
/// alone, and is 32 bytes long.
#[verifier::external_body]
fn x_only_public_key(secret: &[u8; 32]) -> (r: [u8; 32])
    requires
        is_secret(secret@),
    ensures
        r@ == x_only(secret@),
{
    let key = secp256k1::SecretKey::from_slice(secret).expect("a valid secret key");
    let pair = secp256k1::Keypair::from_secret_key(secp256k1::SECP256K1, &key);
    secp256k1::XOnlyPublicKey::from_keypair(&pair).0.serialize()
}

/// `nostr::nips::nip44::encrypt_with_nonce`: it depends on its arguments
/// alone, as long as memory for the payload can be had. Empty content is
/// refused. Content of up to 65536 bytes for a device's key is sealed, into
/// at most 87476 bytes of Base64, and the recipient opens the payload with
/// the sender's public key and gets the content back.
#[verifier::external_body]
fn nip44_encrypt(
    secret: &[u8; 32],
    recipient: &[u8; 32],
    content: &[u8],
    nonce: [u8; 32],
) -> (r: Option<String>)
    requires
        is_secret(secret@),
    ensures
        match r {
            Some(payload) => nip44_sealed(secret@, recipient@, content@, nonce@) == Some(payload@),
            None => nip44_sealed(secret@, recipient@, content@, nonce@) is None,
        },
        content@.len() == 0 ==> r is None,
        0 < content@.len() <= 65536 && is_device(recipient@) ==> r is Some,
        r matches Some(payload) ==> content@.len() <= 65536 ==> encode_utf8(payload@).len()
            <= 87476,
        r matches Some(payload) ==> forall|opener: Seq<u8>|
            is_secret(opener) && #[trigger] x_only(opener) == recipient@ ==> nip44_opened(
                opener,
                x_only(secret@),
                payload@,
            ) == Some(content@),
{
    nostr::nips::nip44::encrypt_with_nonce(
        &nostr::key::SecretKey::from_slice(secret).ok()?,
        &nostr::key::PublicKey::from_byte_array(*recipient),
        content,
        nostr::nips::nip44::Nonce::V2(nonce),
    ).ok()
}

/// `nostr::nips::nip44::decrypt_to_bytes`: it depends on its arguments
/// alone, as long as memory for the content can be had.
#[verifier::external_body]
fn nip44_decrypt(secret: &[u8; 32], sender: &[u8; 32], payload: &str) -> (r: Option<Vec<u8>>)
    requires
        is_secret(secret@),
    ensures
        match r {
            Some(content) => nip44_opened(secret@, sender@, payload@) == Some(content@),
            None => nip44_opened(secret@, sender@, payload@) is None,
        },
{
    nostr::nips::nip44::decrypt_to_bytes(
        &nostr::key::SecretKey::from_slice(secret).ok()?,
        &nostr::key::PublicKey::from_byte_array(*sender),
        payload,
    ).ok()
}

/// The secret identity key of a device.
pub struct DeviceIdentitySecret {
    bytes: [u8; 32],
}

impl View for DeviceIdentitySecret {
    type V = Seq<u8>;

    closed spec fn view(&self) -> Seq<u8> {
        self.bytes@
    }
}

impl DeviceIdentitySecret {
    #[verifier::type_invariant]
    spec fn valid(self) -> bool {
        is_secret(self.bytes@)
    }

    /// A secret identity key, when the bytes are a secret key.
    pub fn from_bytes(bytes: [u8; 32]) -> (r: Result<Self, MailboxError>)
        ensures
            match r {
                Ok(secret) => is_secret(bytes@) && secret@ == bytes@,
                Err(error) => !is_secret(bytes@) && error == MailboxError::InvalidKey,
            },
    {
        if secret_key_parses(&bytes) {
            Ok(DeviceIdentitySecret { bytes })
        } else {
            Err(MailboxError::InvalidKey)
        }
    }

    /// Every identity secret is a secret key.
    pub fn secret_bytes(&self) -> (r: &[u8; 32])
        ensures
            r@ == self@,
            is_secret(r@),
    {
        proof {
            use_type_invariant(self);
        }
        &self.bytes
    }
}

/// The identity that belongs to a secret identity key.
pub fn device_id_from_secret(secret: &DeviceIdentitySecret) -> (r: DeviceId)
    ensures
        r@ == x_only(secret@),
        is_secret(secret@),
{
    DeviceId::from_bytes(x_only_public_key(secret.secret_bytes()))
}

/// Refuses control bytes that a recipient would discard for their size.
pub fn check_outbound_size(control_bytes: &[u8]) -> (r: Result<(), MailboxError>)
    ensures
        r == outbound(control_bytes@),
{
    if control_bytes.len() > MAX_MAILBOX_OPEN_BYTES {
        return Err(
            MailboxError::Oversize { bytes: control_bytes.len(), max: MAX_MAILBOX_OPEN_BYTES },
        );
    }
    Ok(())
}

/// Whether control bytes may be sealed.
pub open spec fn outbound(control_bytes: Seq<u8>) -> Result<(), MailboxError> {
    if control_bytes.len() > MAX_MAILBOX_OPEN_BYTES {
        Err(
            MailboxError::Oversize {
                bytes: control_bytes.len() as usize,
                max: MAX_MAILBOX_OPEN_BYTES,
            },
        )
    } else {
        Ok(())
    }
}

/// Addresses a payload.
pub fn address_payload(
    sender: DeviceId,
    recipient: DeviceId,
    payload: Option<String>,
) -> (r: Result<MailboxEnvelope, MailboxError>)
    ensures
        r == match payload {
            Some(ciphertext) => Ok::<MailboxEnvelope, MailboxError>(
                MailboxEnvelope { sender, recipient, ciphertext },
            ),
            None => Err(MailboxError::Crypto),
        },
{
    match payload {
        Some(ciphertext) => Ok(MailboxEnvelope { sender, recipient, ciphertext }),
        None => Err(MailboxError::Crypto),
    }
}

/// Whether an envelope may be decrypted at all.
pub open spec fn inbound(expected_recipient: DeviceId, envelope: MailboxEnvelope) -> Result<
    (),
    MailboxError,
> {
    if envelope.recipient != expected_recipient {
        Err(MailboxError::Crypto)
    } else if encode_utf8(envelope.ciphertext@).len() > MAX_MAILBOX_CIPHERTEXT_LEN {
        Err(
            MailboxError::Oversize {
                bytes: encode_utf8(envelope.ciphertext@).len() as usize,
                max: MAX_MAILBOX_CIPHERTEXT_LEN,
            },
        )
    } else {
        Ok(())
    }
}

/// Refuses an envelope for another recipient, and ciphertext over the
/// ceiling, before anything is decrypted.
pub fn check_inbound(expected_recipient: DeviceId, envelope: &MailboxEnvelope) -> (r: Result<
    (),
    MailboxError,
>)
    ensures
        r == inbound(expected_recipient, *envelope),
{
    if !envelope.recipient.same(&expected_recipient) {
        return Err(MailboxError::Crypto);
    }
    let bytes: usize = envelope.ciphertext.as_str().as_bytes().len();
    if bytes > MAX_MAILBOX_CIPHERTEXT_LEN {
        return Err(MailboxError::Oversize { bytes, max: MAX_MAILBOX_CIPHERTEXT_LEN });
    }
    Ok(())
}

/// What is handed out of a decryption.
pub open spec fn released(content: Option<Seq<u8>>) -> Result<Seq<u8>, MailboxError> {
    match content {
        None => Err(MailboxError::Crypto),
        Some(bytes) => if bytes.len() > MAX_MAILBOX_OPEN_BYTES {
            Err(
                MailboxError::Oversize {
                    bytes: bytes.len() as usize,
                    max: MAX_MAILBOX_OPEN_BYTES,
                },
            )
        } else {
            Ok(bytes)
        },
    }
}

/// Control bytes, or what stands in their way, by their contents.
pub open spec fn contents(r: Result<Vec<u8>, MailboxError>) -> Result<Seq<u8>, MailboxError> {
    match r {
        Ok(bytes) => Ok(bytes@),
        Err(error) => Err(error),
    }
}

/// Refuses a failed decryption, and control bytes over the ceiling.
pub fn release_content(content: Option<Vec<u8>>) -> (r: Result<Vec<u8>, MailboxError>)
    ensures
        contents(r) == released(
            match content {
                Some(bytes) => Some(bytes@),
                None => None,
            },
        ),
{
    match content {
        None => Err(MailboxError::Crypto),
        Some(bytes) => if bytes.len() > MAX_MAILBOX_OPEN_BYTES {
            Err(MailboxError::Oversize { bytes: bytes.len(), max: MAX_MAILBOX_OPEN_BYTES })
        } else {
            Ok(bytes)
        },
    }
}

/// What opening an envelope gives.
pub open spec fn opening(
    secret: Seq<u8>,
    expected_recipient: DeviceId,
    envelope: MailboxEnvelope,
) -> Result<Seq<u8>, MailboxError> {
    match inbound(expected_recipient, envelope) {
        Err(error) => Err(error),
        Ok(_) => released(nip44_opened(secret, envelope.sender@, envelope.ciphertext@)),
    }
}

/// Seals control bytes for one recipient. The sender is derived from the
/// secret key that seals, so the visible metadata cannot name another.
/// `nonce` has to be fresh; `None` stands for a failed random source.
pub fn seal_for_recipient(
    sender_secret: &DeviceIdentitySecret,
    recipient: DeviceId,
    control_bytes: &[u8],
    nonce: Option<[u8; 32]>,
) -> (r: Result<MailboxEnvelope, MailboxError>)
    ensures
        match (outbound(control_bytes@), nonce) {
            (Err(error), _) => r == Err::<MailboxEnvelope, MailboxError>(error),
            (Ok(_), None) => r == Err::<MailboxEnvelope, MailboxError>(MailboxError::Crypto),
            (Ok(_), Some(nonce)) => match nip44_sealed(
                sender_secret@,
                recipient@,
                control_bytes@,
                nonce@,
            ) {
                None => r == Err::<MailboxEnvelope, MailboxError>(MailboxError::Crypto),
                Some(payload) => {
                    &&& r matches Ok(envelope)
                    &&& envelope.sender@ == x_only(sender_secret@)
                    &&& envelope.recipient == recipient
                    &&& envelope.ciphertext@ == payload
                },
            },
        },
        // A device can be sent anything that is neither empty nor oversize.
        0 < control_bytes@.len() <= MAX_MAILBOX_OPEN_BYTES && nonce is Some && is_device(
            recipient@,
        ) ==> r is Ok,
        control_bytes@.len() == 0 ==> r is Err,
        // Whoever holds the recipient's secret key reads what was sealed.
        r matches Ok(envelope) ==> forall|opener: Seq<u8>|
            is_secret(opener) && #[trigger] x_only(opener) == recipient@ ==> opening(
                opener,
                recipient,
                envelope,
            ) == Ok::<Seq<u8>, MailboxError>(control_bytes@),
{
    if let Err(error) = check_outbound_size(control_bytes) {
        return Err(error);
    }
    let sender = device_id_from_secret(sender_secret);
    let nonce = match nonce {
        Some(nonce) => nonce,
        None => return Err(MailboxError::Crypto),
    };
    let payload = nip44_encrypt(
        sender_secret.secret_bytes(),
        recipient.as_bytes(),
        control_bytes,
        nonce,
    );
    address_payload(sender, recipient, payload)
}

/// Opens an envelope with the recipient's secret key. The expected
/// recipient is checked first, then the size of the ciphertext, and after
/// the decryption the size of what came out.
pub fn open_from_sender(
    recipient_secret: &DeviceIdentitySecret,
    expected_recipient: DeviceId,
    envelope: &MailboxEnvelope,
) -> (r: Result<Vec<u8>, MailboxError>)
    ensures
        contents(r) == opening(recipient_secret@, expected_recipient, *envelope),
{
    if let Err(error) = check_inbound(expected_recipient, envelope) {
        return Err(error);
    }
    let content = nip44_decrypt(
        recipient_secret.secret_bytes(),
        envelope.sender.as_bytes(),
        envelope.ciphertext.as_str(),
    );
    release_content(content)
}

/// The boundary that a relay client implements. Mail is handed over, not
/// consumed: the relay retains every envelope until it is settled with
/// [`Disposition::Ack`].
pub trait Mailbox {
    /// Publishes one sealed envelope.
    fn send(&mut self, envelope: MailboxEnvelope) -> (r: Result<(), MailboxError>);

    /// Hands over the next envelope for the owner of this mailbox. An
    /// envelope that is not settled may be offered again, always under the
    /// same id.
    fn recv(&mut self) -> (r: Option<Delivery>);

    /// Settles one handover. Settling twice changes nothing, and a handover
    /// that is dropped counts as retried.
    fn settle(&mut self, id: DeliveryId, disposition: Disposition) -> (r: Result<
        (),
        MailboxError,
    >);
}

/// The identity of one handover: the same for every offer of an envelope,
/// and different for different envelopes.
#[derive(Debug, Clone, Copy, PartialEq, Eq, Hash, Structural)]
pub struct DeliveryId {
    value: u64,
}

impl View for DeliveryId {
    type V = u64;

    closed spec fn view(&self) -> u64 {
        self.value
    }
}

impl DeliveryId {
    pub fn new(value: u64) -> (r: Self)
        ensures
            r@ == value,
    {
        DeliveryId { value }
    }

    pub fn value(&self) -> (r: u64)
        ensures
            r == self@,
    {
        self.value
    }

    /// Two ids are the same id exactly when their values are.
    pub proof fn law_ids_are_their_values(a: DeliveryId, b: DeliveryId)
        ensures
            a == b <==> a@ == b@,
    {
    }
}

/// One envelope under handover, with the id that settles it.
#[derive(Debug, PartialEq, Eq)]
pub struct Delivery {
    id: DeliveryId,
    envelope: MailboxEnvelope,
}

impl View for Delivery {
    type V = (DeliveryId, MailboxEnvelope);

    closed spec fn view(&self) -> (DeliveryId, MailboxEnvelope) {
        (self.id, self.envelope)
    }
}

impl Delivery {
    pub fn new(id: DeliveryId, envelope: MailboxEnvelope) -> (r: Self)
        ensures
            r@ == (id, envelope),
    {
        Delivery { id, envelope }
    }

    pub fn id(&self) -> (r: DeliveryId)
        ensures
            r == self@.0,
    {
        self.id
    }

    pub fn envelope(&self) -> (r: &MailboxEnvelope)
        ensures
            *r == self@.1,
    {
        &self.envelope
    }
}

/// How a handover is settled.
#[derive(Debug, Clone, Copy, PartialEq, Eq, Structural)]
pub enum Disposition {
    /// The relay may discard the envelope.
    Ack,
    /// The relay has to retain the envelope.
    Retry,
}

} // verus!
