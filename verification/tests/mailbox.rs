//! Sealed mail with the real key exchange, and the relay contract.

use std::collections::VecDeque;

use wyrd_sync::ids::DeviceId;
use wyrd_sync::runtime::drain::{accept_envelope, frame, DrainPass, Framing};
use wyrd_sync::runtime::intake::Outcome;
use wyrd_sync::transport::mailbox::{
    address_payload, check_inbound, check_outbound_size, device_id_from_secret, open_from_sender,
    release_content, seal_for_recipient, Delivery, DeliveryId, DeviceIdentitySecret, Disposition,
    Mailbox, MailboxEnvelope, MailboxError, MAX_MAILBOX_CIPHERTEXT_LEN, MAX_MAILBOX_OPEN_BYTES,
};

const ROTATION_VERSION: u8 = 0x7F;

struct Slot {
    id: DeliveryId,
    envelope: MailboxEnvelope,
}

/// An in-memory relay: handovers clone out of the slot, so the queue keeps
/// every envelope until it is acknowledged.
#[derive(Default)]
struct MemoryRelay {
    queue: VecDeque<Slot>,
    next_id: u64,
}

impl MemoryRelay {
    fn push(&mut self, envelope: MailboxEnvelope) {
        let id = DeliveryId::new(self.next_id);
        self.next_id = self
            .next_id
            .checked_add(1)
            .expect("delivery id space exhausted");
        self.queue.push_back(Slot { id, envelope });
    }
}

struct MemoryMailbox<'a> {
    relay: &'a mut MemoryRelay,
    owner: DeviceId,
}

impl Mailbox for MemoryMailbox<'_> {
    fn send(&mut self, envelope: MailboxEnvelope) -> Result<(), MailboxError> {
        self.relay.push(envelope);
        Ok(())
    }

    fn recv(&mut self) -> Option<Delivery> {
        let slot = self
            .relay
            .queue
            .iter()
            .find(|s| s.envelope.recipient == self.owner)?;
        Some(Delivery::new(slot.id, slot.envelope.clone()))
    }

    fn settle(&mut self, id: DeliveryId, disposition: Disposition) -> Result<(), MailboxError> {
        if let Some(pos) = self.relay.queue.iter().position(|s| s.id == id) {
            match disposition {
                Disposition::Ack => {
                    self.relay.queue.remove(pos);
                }
                Disposition::Retry => {
                    if let Some(slot) = self.relay.queue.remove(pos) {
                        self.relay.queue.push_back(slot);
                    }
                }
            }
        }
        Ok(())
    }
}

fn identity(pattern: u8) -> (DeviceIdentitySecret, DeviceId) {
    let sk = DeviceIdentitySecret::from_bytes([pattern; 32]).unwrap();
    let key = secp256k1::SecretKey::from_slice(&[pattern; 32]).unwrap();
    let kp = secp256k1::Keypair::from_secret_key(secp256k1::SECP256K1, &key);
    let pk = secp256k1::XOnlyPublicKey::from_keypair(&kp).0;
    (sk, DeviceId::from_bytes(pk.serialize()))
}

fn nonce(seed: u8) -> Option<[u8; 32]> {
    Some([seed; 32])
}

fn seal(sk: &DeviceIdentitySecret, recipient: DeviceId, bytes: &[u8]) -> MailboxEnvelope {
    seal_for_recipient(sk, recipient, bytes, nonce(0x5C)).unwrap()
}

#[test]
fn identities_are_the_x_only_public_keys() {
    for pattern in [0x01, 0x02, 0x2A] {
        let (sk, id) = identity(pattern);
        assert_eq!(device_id_from_secret(&sk), id);
        assert_ne!(id.as_bytes(), &[pattern; 32]);
    }
}

#[test]
fn only_scalars_are_secret_keys() {
    assert!(matches!(
        DeviceIdentitySecret::from_bytes([0; 32]),
        Err(MailboxError::InvalidKey)
    ));
    assert!(matches!(
        DeviceIdentitySecret::from_bytes([0xFF; 32]),
        Err(MailboxError::InvalidKey)
    ));
    let mut order = [
        0xFF, 0xFF, 0xFF, 0xFF, 0xFF, 0xFF, 0xFF, 0xFF, 0xFF, 0xFF, 0xFF, 0xFF, 0xFF, 0xFF, 0xFF,
        0xFE, 0xBA, 0xAE, 0xDC, 0xE6, 0xAF, 0x48, 0xA0, 0x3B, 0xBF, 0xD2, 0x5E, 0x8C, 0xD0, 0x36,
        0x41, 0x41,
    ];
    assert!(DeviceIdentitySecret::from_bytes(order).is_err());
    order[31] = 0x40;
    assert_eq!(
        DeviceIdentitySecret::from_bytes(order).unwrap().secret_bytes(),
        &order
    );
}

#[test]
fn seal_open_round_trips_control_bytes() {
    let (sender_sk, sender) = identity(0x01);
    let (recipient_sk, recipient) = identity(0x02);
    let control = vec![0x33u8; 300];
    let envelope = seal(&sender_sk, recipient, &control);
    assert_eq!(envelope.sender, sender);
    assert_eq!(envelope.recipient, recipient);
    assert_ne!(envelope.ciphertext.as_bytes(), control.as_slice());
    let opened = open_from_sender(&recipient_sk, recipient, &envelope).unwrap();
    assert_eq!(opened.as_slice(), control.as_slice());
}

#[test]
fn wrong_recipient_secret_cannot_open() {
    let (sender_sk, _sender) = identity(0x01);
    let (_, recipient) = identity(0x02);
    let (wrong_sk, _) = identity(0x03);
    let envelope = seal(&sender_sk, recipient, b"control bytes");
    assert!(matches!(
        open_from_sender(&wrong_sk, recipient, &envelope),
        Err(MailboxError::Crypto)
    ));
}

#[test]
fn tampered_ciphertext_fails_to_open() {
    let (sender_sk, _sender) = identity(0x01);
    let (recipient_sk, recipient) = identity(0x02);
    let mut envelope = seal(&sender_sk, recipient, b"control bytes");
    // Flip a byte in the Base64 body, so that it still decodes and the tag
    // fails.
    let mut bytes = envelope.ciphertext.into_bytes();
    let mid = bytes.len() / 2;
    bytes[mid] = if bytes[mid] == b'A' { b'B' } else { b'A' };
    envelope.ciphertext = String::from_utf8(bytes).unwrap();
    assert!(matches!(
        open_from_sender(&recipient_sk, recipient, &envelope),
        Err(MailboxError::Crypto)
    ));
}

#[test]
fn control_message_round_trips_through_the_fake_relay_into_the_inbox() {
    let (sender_sk, sender) = identity(0x01);
    let (recipient_sk, recipient) = identity(0x02);
    let mut relay = MemoryRelay::default();
    let control = b"sealed control".to_vec();
    let envelope = seal(&sender_sk, recipient, &control);

    let mut sender_mailbox = MemoryMailbox {
        relay: &mut relay,
        owner: sender,
    };
    sender_mailbox.send(envelope).unwrap();

    let mut recipient_mailbox = MemoryMailbox {
        relay: &mut relay,
        owner: recipient,
    };
    let received = recipient_mailbox.recv().expect("envelope delivered");
    recipient_mailbox
        .settle(received.id(), Disposition::Ack)
        .unwrap();
    assert!(recipient_mailbox.recv().is_none(), "acked deliveries go");

    assert_eq!(
        accept_envelope(&recipient_sk, recipient, received.envelope(), ROTATION_VERSION),
        Framing::Control(control)
    );
}

#[test]
fn recv_returns_none_without_draining_other_recipients() {
    let (sender_sk, _sender) = identity(0x01);
    let (_, recipient) = identity(0x02);
    let (_, other) = identity(0x03);
    let mut relay = MemoryRelay::default();
    relay.push(seal(&sender_sk, recipient, b"control bytes"));

    let mut other_mailbox = MemoryMailbox {
        relay: &mut relay,
        owner: other,
    };
    assert!(other_mailbox.recv().is_none());

    let mut recipient_mailbox = MemoryMailbox {
        relay: &mut relay,
        owner: recipient,
    };
    assert!(recipient_mailbox.recv().is_some());
}

#[test]
fn unacked_delivery_is_reoffered_until_acked() {
    let (sender_sk, _sender) = identity(0x01);
    let (_, recipient) = identity(0x02);
    let mut relay = MemoryRelay::default();
    let envelope = seal(&sender_sk, recipient, b"control bytes");
    relay.push(envelope.clone());

    let mut mailbox = MemoryMailbox {
        relay: &mut relay,
        owner: recipient,
    };
    let first = mailbox.recv().expect("offered");
    assert_eq!(first.envelope(), &envelope);
    let first_id = first.id();
    drop(first);
    let second = mailbox.recv().expect("reoffered after drop");
    assert_eq!(second.id(), first_id);
    assert_eq!(second.envelope(), &envelope);
    mailbox
        .settle(second.id(), Disposition::Retry)
        .expect("retry retains");
    let third = mailbox.recv().expect("reoffered after retry");
    assert_eq!(third.id(), first_id);
    mailbox.settle(third.id(), Disposition::Ack).unwrap();
    assert!(mailbox.recv().is_none());
}

#[test]
fn delivery_ids_survive_predecessor_ack() {
    let (sender_sk, _sender) = identity(0x01);
    let (_, recipient) = identity(0x02);
    let mut relay = MemoryRelay::default();
    relay.push(seal(&sender_sk, recipient, b"first"));
    relay.push(seal(&sender_sk, recipient, b"second"));

    let mut mailbox = MemoryMailbox {
        relay: &mut relay,
        owner: recipient,
    };
    let first = mailbox.recv().expect("first offered");
    let first_id = first.id();
    mailbox.settle(first_id, Disposition::Ack).unwrap();
    let second = mailbox.recv().expect("second offered");
    assert_ne!(second.id(), first_id);
    let second_id = second.id();
    drop(second);
    let reoffered = mailbox.recv().expect("unsettled successor re-offered");
    assert_eq!(reoffered.id(), second_id);
    mailbox.settle(second_id, Disposition::Ack).unwrap();
    assert!(mailbox.recv().is_none());
}

#[test]
fn misdelivered_envelope_is_rejected_before_decrypt() {
    let (sender_sk, _sender) = identity(0x01);
    let (_, recipient) = identity(0x02);
    let (_, other) = identity(0x03);
    let envelope = seal(&sender_sk, recipient, b"control bytes");
    assert!(matches!(
        open_from_sender(&sender_sk, other, &envelope),
        Err(MailboxError::Crypto)
    ));
    assert_eq!(check_inbound(other, &envelope), Err(MailboxError::Crypto));
    assert_eq!(check_inbound(recipient, &envelope), Ok(()));
}

#[test]
fn oversize_ciphertext_is_rejected_before_decrypt() {
    let (_, sender) = identity(0x01);
    let (recipient_sk, recipient) = identity(0x02);
    let envelope = MailboxEnvelope {
        sender,
        recipient,
        ciphertext: "A".repeat(MAX_MAILBOX_CIPHERTEXT_LEN + 1),
    };
    let result = open_from_sender(&recipient_sk, recipient, &envelope);
    assert!(
        matches!(result, Err(MailboxError::Oversize { .. })),
        "over-ceiling ciphertext must fail at the length gate, got {result:?}"
    );
    // The ceiling is in bytes, not in characters.
    let wide = MailboxEnvelope {
        sender,
        recipient,
        ciphertext: "\u{e9}".repeat(MAX_MAILBOX_CIPHERTEXT_LEN / 2 + 1),
    };
    assert_eq!(
        check_inbound(recipient, &wide),
        Err(MailboxError::Oversize {
            bytes: MAX_MAILBOX_CIPHERTEXT_LEN + 2,
            max: MAX_MAILBOX_CIPHERTEXT_LEN
        })
    );
}

#[test]
fn ceiling_boundary_reaches_decrypt() {
    let (_, sender) = identity(0x01);
    let (recipient_sk, recipient) = identity(0x02);
    let envelope = MailboxEnvelope {
        sender,
        recipient,
        ciphertext: "A".repeat(MAX_MAILBOX_CIPHERTEXT_LEN),
    };
    assert!(matches!(
        open_from_sender(&recipient_sk, recipient, &envelope),
        Err(MailboxError::Crypto)
    ));
}

#[test]
fn legitimate_large_control_bytes_still_flow() {
    let (sender_sk, _sender) = identity(0x01);
    let (recipient_sk, recipient) = identity(0x02);
    for len in [
        1,
        32,
        33,
        MAX_MAILBOX_OPEN_BYTES - 1,
        MAX_MAILBOX_OPEN_BYTES,
    ] {
        let control_bytes = vec![0x42u8; len];
        let envelope = seal(&sender_sk, recipient, &control_bytes);
        assert!(envelope.ciphertext.len() <= 87476);
        assert!(envelope.ciphertext.len() <= MAX_MAILBOX_CIPHERTEXT_LEN);
        let opened = open_from_sender(&recipient_sk, recipient, &envelope).unwrap();
        assert_eq!(opened.as_slice(), control_bytes.as_slice());
    }
}

#[test]
fn oversize_outbound_bytes_fail_fast_before_sealing() {
    let (sender_sk, _sender) = identity(0x01);
    let (_, recipient) = identity(0x02);
    let control_bytes = vec![0x42u8; MAX_MAILBOX_OPEN_BYTES + 1];
    let oversize = MailboxError::Oversize {
        bytes: control_bytes.len(),
        max: MAX_MAILBOX_OPEN_BYTES,
    };
    assert_eq!(
        seal_for_recipient(&sender_sk, recipient, &control_bytes, nonce(1)),
        Err(oversize)
    );
    assert_eq!(check_outbound_size(&control_bytes[1..]), Ok(()));
    assert_eq!(
        check_outbound_size(&control_bytes),
        Err(MailboxError::Oversize {
            bytes: 65537,
            max: 65536
        })
    );
}

#[test]
fn nothing_seals_without_content_randomness_or_a_recipient() {
    let (sender_sk, _sender) = identity(0x01);
    let (_, recipient) = identity(0x02);
    assert_eq!(
        seal_for_recipient(&sender_sk, recipient, b"", nonce(1)),
        Err(MailboxError::Crypto)
    );
    assert_eq!(
        seal_for_recipient(&sender_sk, recipient, b"x", None),
        Err(MailboxError::Crypto)
    );
    // Not the x coordinate of any point.
    let nobody = DeviceId::from_bytes([0xFF; 32]);
    assert_eq!(
        seal_for_recipient(&sender_sk, nobody, b"x", nonce(1)),
        Err(MailboxError::Crypto)
    );
}

#[test]
fn the_seal_agrees_with_the_crate() {
    let (sender_sk, _sender) = identity(0x01);
    let (_, recipient) = identity(0x02);
    let envelope = seal_for_recipient(&sender_sk, recipient, b"same bytes", nonce(9)).unwrap();
    let expected = nostr::nips::nip44::encrypt_with_nonce(
        &nostr::key::SecretKey::from_slice(&[0x01; 32]).unwrap(),
        &nostr::key::PublicKey::from_byte_array(*recipient.as_bytes()),
        b"same bytes",
        nostr::nips::nip44::Nonce::V2([9; 32]),
    )
    .unwrap();
    assert_eq!(envelope.ciphertext, expected);
}

#[test]
fn payloads_are_addressed_and_contents_released() {
    let (_, sender) = identity(0x01);
    let (_, recipient) = identity(0x02);
    assert_eq!(
        address_payload(sender, recipient, None),
        Err(MailboxError::Crypto)
    );
    assert_eq!(
        address_payload(sender, recipient, Some("c".to_string())),
        Ok(MailboxEnvelope {
            sender,
            recipient,
            ciphertext: "c".to_string()
        })
    );
    assert_eq!(release_content(None), Err(MailboxError::Crypto));
    assert_eq!(release_content(Some(vec![1, 2])), Ok(vec![1, 2]));
    assert_eq!(
        release_content(Some(vec![0; MAX_MAILBOX_OPEN_BYTES + 1])),
        Err(MailboxError::Oversize {
            bytes: MAX_MAILBOX_OPEN_BYTES + 1,
            max: MAX_MAILBOX_OPEN_BYTES
        })
    );
}

#[test]
fn the_version_byte_tells_the_framings_apart() {
    assert_eq!(frame(Err(MailboxError::Crypto), ROTATION_VERSION), Framing::Poison);
    assert_eq!(
        frame(Ok(vec![ROTATION_VERSION, 1]), ROTATION_VERSION),
        Framing::Rotation(vec![ROTATION_VERSION, 1])
    );
    assert_eq!(
        frame(Ok(vec![1, ROTATION_VERSION]), ROTATION_VERSION),
        Framing::Control(vec![1, ROTATION_VERSION])
    );
    assert_eq!(frame(Ok(vec![]), ROTATION_VERSION), Framing::Control(vec![]));
}

#[test]
fn forged_envelope_discarded_without_commit() {
    // Sealed by one device and relabelled as another's: it never opens.
    let (sender_sk, _sender) = identity(0x01);
    let (recipient_sk, recipient) = identity(0x02);
    let (_, forged) = identity(0x03);
    let mut envelope = seal(&sender_sk, recipient, b"control bytes");
    envelope.sender = forged;
    assert_eq!(
        accept_envelope(&recipient_sk, recipient, &envelope, ROTATION_VERSION),
        Framing::Poison
    );
}

#[test]
fn oversize_envelope_discarded_without_commit() {
    let (_, sender) = identity(0x01);
    let (recipient_sk, recipient) = identity(0x02);
    let envelope = MailboxEnvelope {
        sender,
        recipient,
        ciphertext: "A".repeat(MAX_MAILBOX_CIPHERTEXT_LEN + 1),
    };
    assert_eq!(
        accept_envelope(&recipient_sk, recipient, &envelope, ROTATION_VERSION),
        Framing::Poison
    );
}

#[test]
fn a_pass_counts_every_handover_and_ends_on_a_repetition() {
    let mut pass = DrainPass::new();
    let outcomes = [
        (Outcome::Accepted, Disposition::Ack),
        (Outcome::Duplicate, Disposition::Ack),
        (Outcome::Deferred, Disposition::Retry),
        (Outcome::RelayHeld, Disposition::Retry),
        (Outcome::Skipped, Disposition::Retry),
        (Outcome::Discarded, Disposition::Ack),
    ];
    for (i, (outcome, disposition)) in outcomes.iter().enumerate() {
        assert!(pass.offer(&DeliveryId::new(i as u64)));
        assert_eq!(pass.settle(*outcome), *disposition);
    }
    assert!(!pass.offer(&DeliveryId::new(2)), "a repetition ends the pass");
    let report = pass.report();
    assert_eq!(report.accepted, 1);
    assert_eq!(report.duplicates, 1);
    assert_eq!(report.deferred, 2);
    assert_eq!(report.skipped, 1);
    assert_eq!(report.discarded, 1);
}

#[test]
fn a_pass_over_retried_mail_terminates() {
    let (sender_sk, _sender) = identity(0x01);
    let (_, recipient) = identity(0x02);
    let mut relay = MemoryRelay::default();
    for text in [b"one".as_slice(), b"two", b"three"] {
        relay.push(seal(&sender_sk, recipient, text));
    }
    let mut mailbox = MemoryMailbox {
        relay: &mut relay,
        owner: recipient,
    };
    let mut pass = DrainPass::new();
    while let Some(delivery) = mailbox.recv() {
        if !pass.offer(&delivery.id()) {
            break;
        }
        let disposition = pass.settle(Outcome::Deferred);
        mailbox.settle(delivery.id(), disposition).unwrap();
    }
    assert_eq!(pass.report().deferred, 3);
    assert_eq!(relay.queue.len(), 3, "everything is retained");
}

#[test]
fn delivery_ids_are_their_values() {
    for value in [0, 1, u64::MAX] {
        assert_eq!(DeliveryId::new(value).value(), value);
        assert_eq!(DeliveryId::new(value), DeliveryId::new(value));
    }
    assert_ne!(DeliveryId::new(0), DeliveryId::new(1));
}
