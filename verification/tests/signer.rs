//! The signer session contract, against an in-process signer.

use secp256k1::{Keypair, XOnlyPublicKey, SECP256K1};
use wyrd_sync::ids::{DeviceId, DriveId};
use wyrd_sync::transport::signer::{
    SignMessageRequest, SignMessageResponse, SignerError, SignerSession,
};

#[derive(Debug, Clone, Copy, PartialEq, Eq)]
enum SignDomain {
    SnapshotV1,
    MembershipTransitionV1,
}

/// A signer with a real key that allows an explicit list of domains.
struct FakeSignerSession {
    keypair: Keypair,
    allowed: Vec<SignDomain>,
}

impl FakeSignerSession {
    fn new(secret: &secp256k1::SecretKey, allowed: &[SignDomain]) -> Self {
        FakeSignerSession {
            keypair: Keypair::from_secret_key(SECP256K1, secret),
            allowed: allowed.to_vec(),
        }
    }
}

impl SignerSession<SignDomain> for FakeSignerSession {
    fn get_public_key(&self) -> Result<DeviceId, SignerError> {
        let (xonly, _) = XOnlyPublicKey::from_keypair(&self.keypair);
        Ok(DeviceId::from_bytes(xonly.serialize()))
    }

    fn sign_message(
        &self,
        request: SignMessageRequest<SignDomain>,
    ) -> Result<SignMessageResponse, SignerError> {
        if !self.allowed.contains(&request.domain) {
            return Err(SignerError::Refused);
        }
        let message = secp256k1::Message::from_digest(request.digest);
        let signature = SECP256K1
            .sign_schnorr_no_aux_rand(&message, &self.keypair)
            .serialize();
        Ok(SignMessageResponse { signature })
    }
}

fn secret() -> secp256k1::SecretKey {
    secp256k1::SecretKey::from_slice(&[0x2A; 32]).unwrap()
}

fn request(domain: SignDomain) -> SignMessageRequest<SignDomain> {
    SignMessageRequest {
        domain,
        drive: DriveId::from_bytes([0xEE; 32]),
        digest: [0x42; 32],
    }
}

#[test]
fn allowed_domain_returns_a_verifiable_signature() {
    let session = FakeSignerSession::new(&secret(), &[SignDomain::SnapshotV1]);
    let response = session
        .sign_message(request(SignDomain::SnapshotV1))
        .unwrap();
    let sig = secp256k1::schnorr::Signature::from_slice(&response.signature).unwrap();
    let kp = Keypair::from_secret_key(SECP256K1, &secret());
    let (pk, _) = XOnlyPublicKey::from_keypair(&kp);
    let message = secp256k1::Message::from_digest(request(SignDomain::SnapshotV1).digest);
    assert!(SECP256K1.verify_schnorr(&sig, &message, &pk).is_ok());
    assert_eq!(
        session.get_public_key().unwrap(),
        DeviceId::from_bytes(pk.serialize())
    );
}

#[test]
fn default_deny_refuses_domains_outside_the_allow_list() {
    let session = FakeSignerSession::new(&secret(), &[]);
    assert_eq!(
        session.sign_message(request(SignDomain::MembershipTransitionV1)),
        Err(SignerError::Refused)
    );

    let scoped = FakeSignerSession::new(&secret(), &[SignDomain::SnapshotV1]);
    assert_eq!(
        scoped.sign_message(request(SignDomain::MembershipTransitionV1)),
        Err(SignerError::Refused)
    );
}
