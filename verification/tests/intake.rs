//! Control-plane intake, against a small membership history of its own.

use std::collections::{HashSet, VecDeque};

use wyrd_sync::ids::{
    BaoRoot, ContentId, ControlMessageId, DeviceId, SnapshotId, TransitionId,
};
use wyrd_sync::model::{MembershipTransition, SnapshotAnnouncement, TransitionStatus};
use wyrd_sync::runtime::drain::{DrainPass, DrainReport};
use wyrd_sync::runtime::intake::{
    Authorization, AuthorizedCapability, Batch, Capability, CapabilityPayload, DeferredWait,
    EngineError, Evidence, Fact, Ingest, Intake, Message, Outcome, RotationDelivery,
    RotationEvidence, RotationIngest, Step, TransitionPayload,
};
use wyrd_sync::sorted::SortedMap;
use wyrd_sync::transport::mailbox::{DeliveryId, Disposition};

const MAX_PENDING_MESSAGES: usize = 64;
const MAX_TRANSITION_BYTES: usize = 4096;

fn digest(domain: u8, bytes: &[u8]) -> [u8; 32] {
    let mut out = [0u8; 32];
    for lane in 0..4u8 {
        let mut h: u64 = 0xcbf2_9ce4_8422_2325 ^ u64::from(lane) ^ (u64::from(domain) << 8);
        for b in bytes {
            h = (h ^ u64::from(*b)).wrapping_mul(0x0000_0100_0000_01b3);
            h ^= h >> 29;
        }
        out[usize::from(lane) * 8..usize::from(lane) * 8 + 8].copy_from_slice(&h.to_le_bytes());
    }
    out
}

fn control_key(epoch: u64) -> [u8; 32] {
    digest(0x01, &epoch.to_le_bytes())
}

fn device(seed: u8) -> DeviceId {
    DeviceId::from_bytes([seed; 32])
}

/// A member and the encryption key it is registered under.
type Member = (DeviceId, [u8; 32]);

/// A transition of the test history.
#[derive(Clone, PartialEq)]
struct Transition {
    author: DeviceId,
    epoch: u64,
    prev: Option<TransitionId>,
    resolves: Vec<TransitionId>,
    members: Vec<Member>,
    signature: [u8; 32],
}

impl Transition {
    fn body(&self) -> Vec<u8> {
        let mut out = self.author.as_bytes().to_vec();
        out.extend_from_slice(&self.epoch.to_le_bytes());
        match &self.prev {
            Some(prev) => {
                out.push(1);
                out.extend_from_slice(prev.as_bytes());
            }
            None => out.push(0),
        }
        out.push(self.resolves.len() as u8);
        for id in &self.resolves {
            out.extend_from_slice(id.as_bytes());
        }
        out.push(self.members.len() as u8);
        for (device, key) in &self.members {
            out.extend_from_slice(device.as_bytes());
            out.extend_from_slice(key);
        }
        out
    }

    fn sign(mut self) -> Transition {
        self.signature = digest(0x02, &self.body());
        self
    }

    fn canonical_bytes(&self) -> Vec<u8> {
        let mut out = self.body();
        out.extend_from_slice(&self.signature);
        out
    }

    fn from_canonical_bytes(bytes: &[u8]) -> Option<Transition> {
        let mut r = bytes;
        let author = DeviceId::from_bytes(take::<32>(&mut r)?);
        let epoch = u64::from_le_bytes(take::<8>(&mut r)?);
        let prev = match take::<1>(&mut r)? {
            [0] => None,
            [1] => Some(TransitionId::from_bytes(take::<32>(&mut r)?)),
            _ => return None,
        };
        let [count] = take::<1>(&mut r)?;
        let mut resolves = Vec::new();
        for _ in 0..count {
            resolves.push(TransitionId::from_bytes(take::<32>(&mut r)?));
        }
        let [count] = take::<1>(&mut r)?;
        let mut members = Vec::new();
        for _ in 0..count {
            members.push((
                DeviceId::from_bytes(take::<32>(&mut r)?),
                take::<32>(&mut r)?,
            ));
        }
        let signature = take::<32>(&mut r)?;
        if !r.is_empty() {
            return None;
        }
        Some(Transition {
            author,
            epoch,
            prev,
            resolves,
            members,
            signature,
        })
    }

    fn transition_id(&self) -> TransitionId {
        TransitionId::from_bytes(digest(0x03, &self.canonical_bytes()))
    }

    fn fact(&self) -> MembershipTransition {
        MembershipTransition {
            id: self.transition_id(),
            epoch: self.epoch,
            bytes: self.canonical_bytes(),
        }
    }
}

fn take<const N: usize>(r: &mut &[u8]) -> Option<[u8; N]> {
    if r.len() < N {
        return None;
    }
    let (head, tail) = r.split_at(N);
    *r = tail;
    head.try_into().ok()
}

/// The author of every transition: a founding owner.
fn owner() -> DeviceId {
    device(10)
}

const OWNER_KEY: [u8; 32] = [0xE9; 32];
const ENGINE_KEY: [u8; 32] = [0xE0; 32];
const DRIVE: [u8; 32] = [0xD0; 32];

fn genesis() -> Transition {
    Transition {
        author: owner(),
        epoch: 1,
        prev: None,
        resolves: Vec::new(),
        members: vec![(owner(), OWNER_KEY)],
        signature: [0; 32],
    }
    .sign()
}

fn child(parent: &Transition, members: Vec<Member>) -> Transition {
    Transition {
        author: owner(),
        epoch: parent.epoch + 1,
        prev: Some(parent.transition_id()),
        resolves: Vec::new(),
        members,
        signature: [0; 32],
    }
    .sign()
}

fn rotate(parent: &Transition) -> Transition {
    child(parent, parent.members.clone())
}

fn admitting(parent: &Transition, device: DeviceId, key: [u8; 32]) -> Transition {
    let mut members = parent.members.clone();
    members.push((device, key));
    child(parent, members)
}

/// The observed transitions and their standing.
#[derive(Clone, Default)]
struct Log {
    observed: Vec<Transition>,
    unclassified: bool,
}

impl Log {
    fn observe(&mut self, transition: Transition) {
        if !self.observed.contains(&transition) {
            self.observed.push(transition);
        }
    }

    fn transition(&self, id: &TransitionId) -> Option<&Transition> {
        self.observed.iter().find(|t| t.transition_id() == *id)
    }

    fn status(&self, id: &TransitionId) -> Option<TransitionStatus> {
        if self.unclassified {
            return None;
        }
        self.transition(id).map(|t| self.standing(t))
    }

    fn standing(&self, t: &Transition) -> TransitionStatus {
        if t.author != owner() || t.signature != digest(0x02, &t.body()) {
            return TransitionStatus::Invalid;
        }
        let prev = match &t.prev {
            None if t.epoch == 1 => return TransitionStatus::Canonical,
            None => return TransitionStatus::Invalid,
            Some(prev) => match self.transition(prev) {
                None => return TransitionStatus::Pending,
                Some(prev) => prev,
            },
        };
        if t.epoch != prev.epoch + 1 {
            return TransitionStatus::Invalid;
        }
        match self.standing(prev) {
            TransitionStatus::Invalid | TransitionStatus::Orphaned => TransitionStatus::Orphaned,
            TransitionStatus::Canonical => {
                let id = t.transition_id();
                let rivals: Vec<TransitionId> = self
                    .observed
                    .iter()
                    .filter(|s| s.prev == t.prev && *s != t)
                    .map(Transition::transition_id)
                    .collect();
                if rivals.is_empty() {
                    return TransitionStatus::Canonical;
                }
                let resolved = self.observed.iter().any(|s| {
                    s.prev == Some(id) && rivals.iter().all(|rival| s.resolves.contains(rival))
                });
                if resolved {
                    TransitionStatus::Canonical
                } else {
                    TransitionStatus::Contested
                }
            }
            blocked => blocked,
        }
    }
}

/// A capability in the clear; wrapping appends a digest.
#[derive(Clone)]
struct Grant {
    drive: [u8; 32],
    device: DeviceId,
    encryption_key: [u8; 32],
    transition: TransitionId,
    covered_epoch: u64,
    secrets: Vec<[u8; 32]>,
}

impl Grant {
    fn mint(device: DeviceId, transition: &Transition) -> Grant {
        Grant {
            drive: DRIVE,
            device,
            encryption_key: ENGINE_KEY,
            transition: transition.transition_id(),
            covered_epoch: transition.epoch,
            secrets: vec![[0x07; 32]; transition.epoch as usize],
        }
    }

    fn wrap(&self) -> Vec<u8> {
        let mut out = self.drive.to_vec();
        out.extend_from_slice(self.device.as_bytes());
        out.extend_from_slice(&self.encryption_key);
        out.extend_from_slice(self.transition.as_bytes());
        out.extend_from_slice(&self.covered_epoch.to_le_bytes());
        for secret in &self.secrets {
            out.extend_from_slice(secret);
        }
        let tag = digest(0x04, &out);
        out.extend_from_slice(&tag);
        out
    }

    fn open(wrapped: &[u8]) -> Option<Grant> {
        let at = wrapped.len().checked_sub(32)?;
        let (mut r, tag) = wrapped.split_at(at);
        if digest(0x04, r).as_slice() != tag {
            return None;
        }
        let grant = Grant {
            drive: take::<32>(&mut r)?,
            device: DeviceId::from_bytes(take::<32>(&mut r)?),
            encryption_key: take::<32>(&mut r)?,
            transition: TransitionId::from_bytes(take::<32>(&mut r)?),
            covered_epoch: u64::from_le_bytes(take::<8>(&mut r)?),
            secrets: Vec::new(),
        };
        let mut secrets = Vec::new();
        while !r.is_empty() {
            secrets.push(take::<32>(&mut r)?);
        }
        (grant.encryption_key == ENGINE_KEY).then_some(Grant { secrets, ..grant })
    }

    fn capability(&self) -> Capability {
        Capability {
            device: self.device,
            transition: self.transition,
            covered_epoch: self.covered_epoch,
        }
    }

    fn authorize(&self, log: &Log) -> Authorization {
        let Some(transition) = log.transition(&self.transition) else {
            return Authorization::UnknownTransition {
                transition: self.transition,
                observed: false,
            };
        };
        match log.standing(transition) {
            TransitionStatus::Pending => {
                return Authorization::UnknownTransition {
                    transition: self.transition,
                    observed: true,
                }
            }
            TransitionStatus::Invalid | TransitionStatus::Orphaned => {
                return Authorization::Refused
            }
            _ => {}
        }
        if self.drive != DRIVE
            || self.covered_epoch != transition.epoch
            || self.secrets.len() as u64 != self.covered_epoch
            || !transition
                .members
                .contains(&(self.device, self.encryption_key))
        {
            return Authorization::Refused;
        }
        Authorization::Authorized(AuthorizedCapability {
            device: self.device,
            transition: self.transition,
            control_keys: (1..=self.covered_epoch).map(control_key).collect(),
        })
    }
}

/// What an envelope carries.
enum Body {
    Transition(Vec<u8>),
    Announcement(SnapshotAnnouncement),
    KeyRotation(TransitionId),
    Capability {
        device: DeviceId,
        epoch: u64,
        wrapped: Vec<u8>,
    },
    Rotation {
        device: DeviceId,
        epoch: u64,
        transition: Vec<u8>,
        wrapped: Vec<u8>,
    },
}

impl Clone for Body {
    fn clone(&self) -> Body {
        match self {
            Body::Transition(bytes) => Body::Transition(bytes.clone()),
            Body::Announcement(announcement) => Body::Announcement(announcement.duplicate()),
            Body::KeyRotation(id) => Body::KeyRotation(*id),
            Body::Capability {
                device,
                epoch,
                wrapped,
            } => Body::Capability {
                device: *device,
                epoch: *epoch,
                wrapped: wrapped.clone(),
            },
            Body::Rotation {
                device,
                epoch,
                transition,
                wrapped,
            } => Body::Rotation {
                device: *device,
                epoch: *epoch,
                transition: transition.clone(),
                wrapped: wrapped.clone(),
            },
        }
    }
}

#[derive(Clone)]
struct Envelope {
    id: ControlMessageId,
    sender: DeviceId,
    epoch: u64,
    body: Body,
}

/// The durable side and the volatile views around [`Intake`].
struct Engine {
    intake: Intake,
    log: Log,
    facts: Vec<Fact>,
    commits: usize,
    seen: HashSet<ControlMessageId>,
    suppressed: HashSet<ControlMessageId>,
    inbox_keys: HashSet<u64>,
    read_only: bool,
}

fn control_message_ids(facts: &[Fact]) -> HashSet<ControlMessageId> {
    facts
        .iter()
        .filter_map(|fact| match fact {
            Fact::ControlMessage(id) => Some(*id),
            _ => None,
        })
        .collect()
}

impl Engine {
    fn new(device: DeviceId) -> Engine {
        let mut intake = Intake::new(device, MAX_PENDING_MESSAGES);
        intake.add_epoch_key(1, control_key(1));
        intake.add_epoch_key(2, control_key(2));
        Engine {
            intake,
            log: Log::default(),
            facts: Vec::new(),
            commits: 0,
            seen: HashSet::new(),
            suppressed: HashSet::new(),
            inbox_keys: HashSet::new(),
            read_only: false,
        }
    }

    fn duplicate_fact(fact: &Fact) -> Fact {
        match fact {
            Fact::Transition(t) => Fact::Transition(MembershipTransition {
                id: t.id,
                epoch: t.epoch,
                bytes: t.bytes.clone(),
            }),
            Fact::Announcement(a) => Fact::Announcement(a.duplicate()),
            Fact::Capability(c) => Fact::Capability(AuthorizedCapability {
                device: c.device,
                transition: c.transition,
                control_keys: c.control_keys.clone(),
            }),
            Fact::ControlMessage(id) => Fact::ControlMessage(*id),
            _ => unreachable!(),
        }
    }

    /// A restart: everything volatile is rebuilt from the facts.
    fn reopen(&mut self, device: DeviceId) {
        let facts = std::mem::take(&mut self.facts);
        let commits = self.commits;
        *self = Engine::new(device);
        self.commits = commits;
        let mut staged = SortedMap::new();
        let mut replayed = Vec::new();
        for fact in &facts {
            if let Fact::Announcement(a) = fact {
                staged.insert(a.snapshot, a.duplicate());
            }
            replayed.push(Engine::duplicate_fact(fact));
        }
        self.seen.extend(self.intake.note_committed(Batch {
            facts: replayed,
            staged,
        }));
        self.facts = facts;
        self.resync();
    }

    /// Volatile views return to the durable baseline; held messages stay.
    fn resync(&mut self) {
        self.log.observed.clear();
        for fact in &self.facts {
            if let Fact::Transition(t) = fact {
                self.log
                    .observe(Transition::from_canonical_bytes(&t.bytes).unwrap());
            }
        }
        self.seen = control_message_ids(&self.facts);
        self.suppressed.clear();
    }

    fn parse_transition(bytes: &[u8]) -> Option<Transition> {
        if bytes.len() > MAX_TRANSITION_BYTES {
            return None;
        }
        Transition::from_canonical_bytes(bytes)
    }

    fn evidence(&self, message: &Message) -> Evidence {
        let mut evidence = Evidence {
            transition: None,
            bound_epoch: None,
            signed: false,
            status: None,
            capability: None,
            authorization: Authorization::Refused,
        };
        match message {
            Message::MembershipTransition(payload) => {
                evidence.transition =
                    Engine::parse_transition(&payload.transition).map(|t| t.fact());
            }
            Message::SnapshotAnnouncement(announcement) => {
                evidence.bound_epoch = self
                    .log
                    .transition(&announcement.membership)
                    .map(|t| t.epoch);
                evidence.signed = announcement.signature == signature(announcement);
                evidence.status = self.log.status(&announcement.membership);
            }
            Message::KeyRotation(_) => {}
            Message::Capability(payload) => {
                if let Some(grant) = Grant::open(&payload.wrapped) {
                    evidence.capability = Some(grant.capability());
                    evidence.authorization = grant.authorize(&self.log);
                }
            }
        }
        evidence
    }

    fn pending_evidence(&self) -> Vec<Evidence> {
        (0..self.intake.pending_count())
            .map(|i| self.evidence(&self.intake.pending_entry(i).message))
            .collect()
    }

    fn opens(&self, epoch: u64) -> bool {
        self.inbox_keys.contains(&epoch) || self.intake.epoch_key(epoch).is_some()
    }

    fn accept(&mut self, envelope: &Envelope) -> Result<Outcome, EngineError> {
        let pass = match &envelope.body {
            Body::Rotation {
                device,
                epoch,
                transition,
                wrapped,
            } => {
                let ingest = if self.is_seen(&envelope.id) {
                    RotationIngest::Duplicate
                } else {
                    self.seen.insert(envelope.id);
                    RotationIngest::Accepted {
                        id: envelope.id,
                        delivery: RotationDelivery {
                            device: *device,
                            epoch: *epoch,
                            transition: transition.clone(),
                            wrapped: wrapped.clone(),
                        },
                        evidence: self.rotation_evidence(transition, wrapped),
                    }
                };
                // The held messages are judged with the transition observed.
                let mut ahead = self.log.clone();
                if let Some(transition) = Transition::from_canonical_bytes(transition) {
                    ahead.observe(transition);
                }
                std::mem::swap(&mut ahead, &mut self.log);
                let pending = self.pending_evidence();
                let pass = self.intake.accept_rotation(envelope.sender, ingest, pending);
                if !matches!(&pass, Ok(pass) if matches!(pass.step, Step::Commit(_))) {
                    self.log = ahead;
                }
                pass
            }
            body => {
                let ingest = if !self.opens(envelope.epoch) {
                    Ingest::UnknownEpoch
                } else if self.is_seen(&envelope.id) {
                    Ingest::Duplicate(Some(envelope.id))
                } else {
                    self.seen.insert(envelope.id);
                    let message = message(body);
                    if let Message::MembershipTransition(payload) = &message {
                        if let Some(transition) = Engine::parse_transition(&payload.transition) {
                            self.log.observe(transition);
                        }
                    }
                    Ingest::Accepted {
                        id: envelope.id,
                        evidence: self.evidence(&message),
                        message,
                    }
                };
                let pending = self.pending_evidence();
                self.intake.accept_control(ingest, pending)
            }
        };
        let pass = match pass {
            Ok(pass) => pass,
            Err(error) => {
                self.resync();
                return Err(error);
            }
        };
        for id in pass.suppressed {
            self.suppressed.insert(id);
        }
        for id in pass.forgotten {
            self.seen.remove(&id);
        }
        match pass.step {
            Step::Settle(outcome) => Ok(outcome),
            Step::Commit(_) if self.read_only => {
                self.resync();
                Err(EngineError::Store(
                    wyrd_sync::model::StoreFailure::Unwritable,
                ))
            }
            Step::Commit(batch) => {
                self.facts
                    .extend(batch.facts.iter().map(Engine::duplicate_fact));
                self.commits += 1;
                self.seen.extend(self.intake.note_committed(batch));
                Ok(Outcome::Accepted)
            }
        }
    }

    fn is_seen(&self, id: &ControlMessageId) -> bool {
        self.seen.contains(id) || self.suppressed.contains(id)
    }

    fn rotation_evidence(&self, transition: &[u8], wrapped: &[u8]) -> RotationEvidence {
        let grant = Grant::open(wrapped);
        let transition = Transition::from_canonical_bytes(transition);
        let mut scratch = self.log.clone();
        if let Some(transition) = &transition {
            scratch.observe(transition.clone());
        }
        RotationEvidence {
            capability: grant.as_ref().map(Grant::capability),
            authorization: grant
                .map(|grant| grant.authorize(&scratch))
                .unwrap_or(Authorization::Refused),
            within_limits: true,
            members: transition
                .as_ref()
                .map(|t| t.members.iter().map(|(device, _)| *device).collect()),
            transition: transition.map(|t| t.fact()),
        }
    }

    fn transitions(&self) -> usize {
        self.count(|fact| matches!(fact, Fact::Transition(_)))
    }

    fn capabilities(&self) -> usize {
        self.count(|fact| matches!(fact, Fact::Capability(_)))
    }

    fn announcements(&self) -> Vec<&SnapshotAnnouncement> {
        self.facts
            .iter()
            .filter_map(|fact| match fact {
                Fact::Announcement(a) => Some(a),
                _ => None,
            })
            .collect()
    }

    fn count(&self, matches: impl Fn(&Fact) -> bool) -> usize {
        self.facts.iter().filter(|fact| matches(fact)).count()
    }

    fn known_epoch(&self) -> Option<u64> {
        self.log
            .observed
            .iter()
            .filter(|t| self.log.standing(t) == TransitionStatus::Canonical)
            .map(|t| t.epoch)
            .max()
    }

    fn waits(&self) -> Vec<DeferredWait> {
        (0..self.intake.pending_count())
            .map(|i| self.intake.pending_entry(i).wait)
            .collect()
    }
}

fn message(body: &Body) -> Message {
    match body.clone() {
        Body::Transition(transition) => {
            Message::MembershipTransition(TransitionPayload { transition })
        }
        Body::Announcement(announcement) => Message::SnapshotAnnouncement(announcement),
        Body::KeyRotation(transition) => Message::KeyRotation(transition),
        Body::Capability {
            device,
            epoch,
            wrapped,
        } => Message::Capability(CapabilityPayload {
            device,
            epoch,
            wrapped,
        }),
        Body::Rotation { .. } => unreachable!(),
    }
}

fn signature(announcement: &SnapshotAnnouncement) -> [u8; 64] {
    let mut bytes = announcement.snapshot.as_bytes().to_vec();
    bytes.extend_from_slice(announcement.author.as_bytes());
    bytes.extend_from_slice(&announcement.epoch.to_le_bytes());
    bytes.extend_from_slice(announcement.membership.as_bytes());
    bytes.extend_from_slice(announcement.body_root.as_bytes());
    bytes.extend_from_slice(announcement.root_manifest.as_bytes());
    bytes.extend_from_slice(announcement.root_manifest_transport.as_bytes());
    if let Some(addr) = &announcement.node_addr {
        bytes.extend_from_slice(addr);
    }
    let half = digest(0x05, &bytes);
    let mut out = [0u8; 64];
    out[..32].copy_from_slice(&half);
    out[32..].copy_from_slice(&half);
    out
}

fn announcement(
    snapshot: u8,
    epoch: u64,
    membership: TransitionId,
    root_manifest: u8,
    node_addr: Option<Vec<u8>>,
) -> Body {
    let mut announcement = SnapshotAnnouncement {
        snapshot: SnapshotId::from_bytes([snapshot; 32]),
        author: device(0x22),
        epoch,
        membership,
        body_root: BaoRoot::from_bytes([0x44; 32]),
        root_manifest: ContentId::from_bytes([root_manifest; 32]),
        root_manifest_transport: BaoRoot::from_bytes([0x66; 32]),
        node_addr,
        signature: [0; 64],
    };
    announcement.signature = signature(&announcement);
    Body::Announcement(announcement)
}

fn announcement_for(epoch: u64, membership: TransitionId) -> Body {
    announcement(0x11, epoch, membership, 0x55, None)
}

fn transition_message(transition: &Transition) -> Body {
    Body::Transition(transition.canonical_bytes())
}

struct Fixture {
    engine: Engine,
    recipient: DeviceId,
    sender: DeviceId,
    queue: VecDeque<(u64, Envelope)>,
    next_id: u64,
    nonce: u64,
}

fn fixture() -> Fixture {
    let recipient = device(0x02);
    Fixture {
        engine: Engine::new(recipient),
        recipient,
        sender: device(0x01),
        queue: VecDeque::new(),
        next_id: 0,
        nonce: 0,
    }
}

impl Fixture {
    /// Every delivery is sealed anew, so it has an id of its own.
    fn deliver(&mut self, epoch: u64, body: &Body) -> Envelope {
        self.deliver_from(self.sender, epoch, body)
    }

    fn deliver_from(&mut self, sender: DeviceId, epoch: u64, body: &Body) -> Envelope {
        self.nonce += 1;
        Envelope {
            id: ControlMessageId::from_bytes(digest(0x06, &self.nonce.to_le_bytes())),
            sender,
            epoch,
            body: body.clone(),
        }
    }

    fn rotation(&mut self, epoch: u64, transition: &Transition, grant: &Grant) -> Envelope {
        self.rotation_from(self.sender, self.recipient, epoch, transition, grant)
    }

    fn rotation_from(
        &mut self,
        sender: DeviceId,
        device: DeviceId,
        epoch: u64,
        transition: &Transition,
        grant: &Grant,
    ) -> Envelope {
        let body = Body::Rotation {
            device,
            epoch,
            transition: transition.canonical_bytes(),
            wrapped: grant.wrap(),
        };
        self.deliver_from(sender, epoch, &body)
    }

    fn queue(&mut self, mail: Vec<Envelope>) {
        for envelope in mail {
            self.queue.push_back((self.next_id, envelope));
            self.next_id += 1;
        }
    }

    fn try_drain(&mut self) -> Result<DrainReport, EngineError> {
        let mut pass = DrainPass::new();
        // The relay hands over each envelope that it holds, and keeps it
        // until it is acknowledged.
        for (id, envelope) in self.queue.clone() {
            assert!(pass.offer(&DeliveryId::new(id)));
            let outcome = self.engine.accept(&envelope)?;
            if pass.settle(outcome) == Disposition::Ack {
                self.queue.retain(|(held, _)| *held != id);
            }
        }
        Ok(pass.report())
    }

    fn drain(&mut self) -> DrainReport {
        self.try_drain().unwrap()
    }

    fn reopen(&mut self) {
        self.engine.reopen(self.recipient);
    }

    fn root_manifest(&self, snapshot: u8) -> Option<ContentId> {
        // The projection shows in what the next statement is held against.
        self.engine
            .announcements()
            .iter()
            .filter(|a| a.snapshot == SnapshotId::from_bytes([snapshot; 32]))
            .last()
            .map(|a| a.root_manifest)
    }
}

#[test]
fn intake_commits_transitions_and_announcements() {
    let mut fixture = fixture();
    let genesis = genesis();
    let child = rotate(&genesis);
    let bound = announcement_for(2, child.transition_id());
    let mail = vec![
        fixture.deliver(1, &transition_message(&genesis)),
        fixture.deliver(1, &transition_message(&child)),
        fixture.deliver(2, &bound),
    ];
    fixture.queue(mail);
    let report = fixture.drain();
    assert_eq!(
        report,
        DrainReport {
            accepted: 3,
            duplicates: 0,
            deferred: 0,
            skipped: 0,
            discarded: 0,
        }
    );
    assert_eq!(fixture.engine.commits, 3);
}

#[test]
fn announcement_forks_commit_seen_id_but_never_a_fact() {
    let mut fixture = fixture();
    let genesis = genesis();
    let child = rotate(&genesis);
    let first = announcement_for(2, child.transition_id());
    let fork = announcement(0x11, 2, child.transition_id(), 0x99, None);
    let mail = vec![
        fixture.deliver(1, &transition_message(&genesis)),
        fixture.deliver(1, &transition_message(&child)),
        fixture.deliver(2, &first),
        fixture.deliver(2, &fork),
    ];
    fixture.queue(mail);
    assert_eq!(fixture.drain().accepted, 4);
    assert_eq!(fixture.engine.announcements().len(), 1);
    assert_eq!(
        fixture.root_manifest(0x11),
        Some(ContentId::from_bytes([0x55; 32])),
        "the projection keeps the first statement, never the fork"
    );
    fixture.reopen();
    let again = fixture.deliver(2, &fork);
    fixture.queue(vec![again]);
    assert_eq!(fixture.drain().accepted, 1);
    assert_eq!(fixture.engine.announcements().len(), 1, "refused again");
}

fn garbage(fixture: &mut Fixture) -> Vec<Envelope> {
    (0..64u8)
        .map(|i| fixture.deliver(1, &Body::Transition(vec![0x5A, i])))
        .collect()
}

#[test]
fn suppressed_invalid_messages_leave_no_durable_seen_fact() {
    let mut fixture = fixture();
    let mail = garbage(&mut fixture);
    fixture.queue(mail);
    let report = fixture.drain();
    assert_eq!(
        report.accepted, 64,
        "every invalid message reaches a verdict"
    );
    assert!(
        control_message_ids(&fixture.engine.facts).is_empty(),
        "suppressions must not grow durable state"
    );
}

#[test]
fn suppressed_ids_short_circuit_redelivery() {
    let mut fixture = fixture();
    let mail = garbage(&mut fixture);
    fixture.queue(mail.clone());
    assert_eq!(fixture.drain().accepted, 64);
    fixture.queue(mail);
    let report = fixture.drain();
    assert_eq!(report.accepted, 0, "no revalidation on redelivery");
    assert_eq!(report.duplicates, 64);
    assert!(fixture.engine.facts.is_empty(), "nothing durable");
}

#[test]
fn suppression_revalidates_after_restart() {
    let mut fixture = fixture();
    let mail = garbage(&mut fixture);
    fixture.queue(mail.clone());
    assert_eq!(fixture.drain().accepted, 64);
    fixture.reopen();
    fixture.queue(mail);
    let report = fixture.drain();
    assert_eq!(
        report.accepted, 64,
        "verdicts revalidate to the same outcome"
    );
    assert_eq!(report.duplicates, 0);
    assert!(fixture.engine.facts.is_empty(), "nothing durable");
}

#[test]
fn key_rotation_is_a_terminal_noop_without_durable_trace() {
    let mut fixture = fixture();
    let rotation = Body::KeyRotation(TransitionId::from_bytes([0x31; 32]));
    let mail = vec![fixture.deliver(1, &rotation)];
    fixture.queue(mail.clone());
    assert_eq!(fixture.drain().accepted, 1);
    assert!(fixture.engine.facts.is_empty(), "no durable fact");
    fixture.queue(mail);
    let report = fixture.drain();
    assert_eq!(report.accepted, 0, "no revalidation on redelivery");
    assert_eq!(report.duplicates, 1);
}

#[test]
fn announcement_route_updates_replace_the_recorded_route() {
    let mut fixture = fixture();
    let genesis = genesis();
    let child = rotate(&genesis);
    let routed = |addr: Vec<u8>| announcement(0x11, 2, child.transition_id(), 0x55, Some(addr));
    let mail = vec![
        fixture.deliver(1, &transition_message(&genesis)),
        fixture.deliver(1, &transition_message(&child)),
        fixture.deliver(2, &routed(vec![0x01, 0x02])),
        fixture.deliver(2, &routed(vec![0x03, 0x04])),
    ];
    fixture.queue(mail);
    assert_eq!(fixture.drain().accepted, 4);
    let routes = |fixture: &Fixture| -> Vec<Option<Vec<u8>>> {
        fixture
            .engine
            .announcements()
            .iter()
            .map(|a| a.node_addr.clone())
            .collect()
    };
    assert_eq!(
        routes(&fixture),
        vec![Some(vec![0x01, 0x02]), Some(vec![0x03, 0x04])]
    );
    fixture.reopen();
    let third = fixture.deliver(2, &routed(vec![0x05, 0x06]));
    fixture.queue(vec![third]);
    assert_eq!(fixture.drain().accepted, 1);
    assert_eq!(
        routes(&fixture).last(),
        Some(&Some(vec![0x05, 0x06])),
        "a further route update is accepted and wins"
    );
}

#[test]
fn deferred_route_updates_flush_in_arrival_order() {
    let mut fixture = fixture();
    let genesis = genesis();
    let child = rotate(&genesis);
    let routed = |addr: Vec<u8>| announcement(0x11, 2, child.transition_id(), 0x55, Some(addr));
    let mail = vec![
        fixture.deliver(2, &routed(vec![0x01, 0x02])),
        fixture.deliver(2, &routed(vec![0x03, 0x04])),
    ];
    fixture.queue(mail);
    let report = fixture.drain();
    assert_eq!(report.accepted, 0);
    assert_eq!(report.deferred, 2);
    let mail = vec![
        fixture.deliver(1, &transition_message(&genesis)),
        fixture.deliver(1, &transition_message(&child)),
    ];
    fixture.queue(mail);
    assert_eq!(fixture.drain().accepted, 2);
    let facts = fixture.engine.announcements();
    assert_eq!(facts.len(), 2);
    assert_eq!(facts[0].node_addr, Some(vec![0x01, 0x02]));
    assert_eq!(facts[1].node_addr, Some(vec![0x03, 0x04]));
}

#[test]
fn deferred_fork_never_commits_when_the_batch_flushes() {
    let mut fixture = fixture();
    let genesis = genesis();
    let child = rotate(&genesis);
    let first = announcement(0x11, 2, child.transition_id(), 0x55, None);
    let fork = announcement(0x11, 2, child.transition_id(), 0x99, None);
    let mail = vec![fixture.deliver(2, &first), fixture.deliver(2, &fork)];
    fixture.queue(mail);
    assert_eq!(fixture.drain().deferred, 2);
    let mail = vec![
        fixture.deliver(1, &transition_message(&genesis)),
        fixture.deliver(1, &transition_message(&child)),
    ];
    fixture.queue(mail);
    assert_eq!(fixture.drain().accepted, 2);
    assert_eq!(
        fixture.engine.announcements().len(),
        1,
        "the fork never commits"
    );
    assert_eq!(
        fixture.root_manifest(0x11),
        Some(ContentId::from_bytes([0x55; 32]))
    );
}

#[test]
fn redelivery_after_restart_stays_duplicate() {
    let mut fixture = fixture();
    let genesis = genesis();
    let child = rotate(&genesis);
    let mail = vec![
        fixture.deliver(1, &transition_message(&genesis)),
        fixture.deliver(1, &transition_message(&child)),
    ];
    fixture.queue(mail.clone());
    assert_eq!(fixture.drain().accepted, 2);
    fixture.reopen();
    fixture.queue(mail);
    let report = fixture.drain();
    assert_eq!(report.duplicates, 2);
    assert_eq!(report.accepted, 0);
    assert_eq!(fixture.engine.commits, 2);
}

#[test]
fn deferred_message_survives_restart_before_unblock() {
    let mut fixture = fixture();
    let genesis = genesis();
    let child = rotate(&genesis);
    let bound = announcement_for(2, child.transition_id());
    let mail = vec![fixture.deliver(2, &bound)];
    fixture.queue(mail);
    assert_eq!(fixture.drain().deferred, 1);
    assert_eq!(fixture.engine.intake.pending_count(), 1);
    fixture.reopen();
    assert_eq!(fixture.engine.intake.pending_count(), 0);
    let mail = vec![
        fixture.deliver(1, &transition_message(&genesis)),
        fixture.deliver(1, &transition_message(&child)),
    ];
    fixture.queue(mail);
    assert_eq!(fixture.drain().accepted, 2);
    assert_eq!(fixture.engine.announcements().len(), 1);
    assert_eq!(fixture.engine.intake.pending_count(), 0);
}

#[test]
fn crash_before_commit_redelivers() {
    let mut fixture = fixture();
    let mail = vec![fixture.deliver(1, &transition_message(&genesis()))];
    fixture.queue(mail);
    // A handover that is taken and never settled stays in the relay.
    let _taken = fixture.queue.front().cloned();
    fixture.reopen();
    assert_eq!(fixture.drain().accepted, 1);
    assert_eq!(fixture.engine.commits, 1);
}

#[test]
fn unknown_epoch_skips_without_commit_then_lands() {
    let mut fixture = fixture();
    let mut chain = vec![genesis()];
    for _ in 1..9 {
        chain.push(rotate(chain.last().unwrap()));
    }
    let bound = announcement_for(9, chain.last().unwrap().transition_id());
    let mail = vec![fixture.deliver(9, &bound)];
    fixture.queue(mail);
    let report = fixture.drain();
    assert_eq!(report.skipped, 1);
    assert_eq!(report.accepted, 0);
    assert_eq!(fixture.engine.commits, 0);
    fixture.queue.clear();
    fixture.engine.intake.add_epoch_key(9, control_key(9));
    let mut mail: Vec<Envelope> = chain
        .iter()
        .map(|t| fixture.deliver(1, &transition_message(t)))
        .collect();
    mail.push(fixture.deliver(9, &bound));
    fixture.queue(mail);
    assert_eq!(fixture.drain().accepted, 10);
    assert_eq!(fixture.engine.commits, 10);
}

#[test]
fn garbage_transition_suppresses_redelivery() {
    let mut fixture = fixture();
    let mut poisoned = genesis().canonical_bytes();
    poisoned[10] ^= 0xFF;
    let mail = vec![fixture.deliver(1, &Body::Transition(poisoned))];
    fixture.queue(mail.clone());
    assert_eq!(fixture.drain().accepted, 1);
    assert_eq!(fixture.engine.commits, 1);
    fixture.queue(mail);
    let report = fixture.drain();
    assert_eq!(report.duplicates, 1);
    assert_eq!(report.accepted, 0);
    assert_eq!(fixture.engine.commits, 1);
}

#[test]
fn announcement_defers_until_membership_lands() {
    let mut fixture = fixture();
    let genesis = genesis();
    let child = rotate(&genesis);
    let bound = announcement_for(2, child.transition_id());
    let mail = vec![fixture.deliver(2, &bound)];
    fixture.queue(mail);
    assert_eq!(fixture.drain().deferred, 1);
    assert_eq!(fixture.engine.intake.pending_count(), 1);
    assert_eq!(fixture.engine.commits, 0);
    let mail = vec![
        fixture.deliver(1, &transition_message(&genesis)),
        fixture.deliver(1, &transition_message(&child)),
    ];
    fixture.queue(mail);
    let report = fixture.drain();
    assert_eq!(report.accepted, 2);
    assert_eq!(fixture.engine.intake.pending_count(), 0);
    assert_eq!(fixture.engine.commits, 2);
    assert_eq!(fixture.engine.announcements().len(), 1);
}

#[test]
fn unsigned_announcement_for_unseen_transition_defers_then_suppresses() {
    let mut fixture = fixture();
    let genesis = genesis();
    let child = rotate(&genesis);
    let mut bad = announcement_for(2, child.transition_id());
    let Body::Announcement(a) = &mut bad else {
        panic!("announcement kind");
    };
    a.signature[0] ^= 0xFF;
    let mail = vec![fixture.deliver(2, &bad)];
    fixture.queue(mail);
    assert_eq!(
        fixture.drain().deferred,
        1,
        "unseen membership defers before any signature work"
    );
    assert_eq!(fixture.engine.intake.pending_count(), 1);
    assert_eq!(fixture.engine.commits, 0);
    let mail = vec![
        fixture.deliver(1, &transition_message(&genesis)),
        fixture.deliver(1, &transition_message(&child)),
    ];
    fixture.queue(mail);
    assert_eq!(fixture.drain().accepted, 2);
    assert_eq!(fixture.engine.intake.pending_count(), 0);
    assert_eq!(fixture.engine.transitions(), 2);
    assert!(
        fixture.engine.announcements().is_empty(),
        "the bad signature still gates the commit"
    );
}

#[test]
fn classification_disagreement_recovers_and_converges_on_redelivery() {
    let mut fixture = fixture();
    let genesis = genesis();
    let child = rotate(&genesis);
    let bound = announcement_for(2, child.transition_id());
    let mail = vec![fixture.deliver(2, &bound)];
    fixture.queue(mail);
    assert_eq!(fixture.drain().deferred, 1);
    assert_eq!(fixture.engine.intake.pending_count(), 1);
    assert_eq!(fixture.engine.commits, 0);
    let mail = vec![
        fixture.deliver(1, &transition_message(&genesis)),
        fixture.deliver(1, &transition_message(&child)),
    ];
    fixture.queue(mail);
    fixture.engine.log.unclassified = true;
    assert!(matches!(
        fixture.try_drain(),
        Err(EngineError::TransitionUnclassified(_))
    ));
    fixture.engine.log.unclassified = false;
    assert_eq!(fixture.engine.intake.pending_count(), 1);
    assert_eq!(fixture.engine.commits, 1);
    assert_eq!(fixture.engine.transitions(), 1);
    assert!(fixture.engine.announcements().is_empty());
    let report = fixture.drain();
    assert!(report.accepted >= 1);
    assert_eq!(fixture.engine.intake.pending_count(), 0);
    assert_eq!(fixture.engine.commits, 2);
    assert_eq!(fixture.engine.transitions(), 2);
    assert_eq!(fixture.engine.announcements().len(), 1);
}

#[test]
fn announcement_epoch_mismatch_suppresses() {
    let mut fixture = fixture();
    let genesis = genesis();
    let mail = vec![fixture.deliver(1, &transition_message(&genesis))];
    fixture.queue(mail);
    assert_eq!(fixture.drain().accepted, 1);
    let bad = announcement_for(2, genesis.transition_id());
    let mail = vec![fixture.deliver(2, &bad)];
    fixture.queue(mail.clone());
    assert_eq!(fixture.drain().accepted, 1);
    assert!(fixture.engine.announcements().is_empty());
    fixture.queue(mail);
    assert_eq!(fixture.drain().duplicates, 1);
}

#[test]
fn announcement_bound_to_orphaned_transition_defers() {
    let mut fixture = fixture();
    fixture.engine.intake.add_epoch_key(3, control_key(3));
    let genesis = genesis();
    let mut bad = rotate(&genesis);
    bad.author = device(20);
    let bad = bad.sign();
    let child = rotate(&bad);
    let bound = announcement_for(3, child.transition_id());
    let mail = vec![
        fixture.deliver(1, &transition_message(&genesis)),
        fixture.deliver(1, &transition_message(&bad)),
        fixture.deliver(1, &transition_message(&child)),
        fixture.deliver(3, &bound),
    ];
    fixture.queue(mail);
    let report = fixture.drain();
    assert_eq!(report.accepted, 3);
    assert_eq!(report.deferred, 1);
    assert_eq!(fixture.engine.intake.pending_count(), 1);
    assert!(fixture.engine.announcements().is_empty());
}

#[test]
fn announcement_bound_to_contested_transition_resolves() {
    let mut fixture = fixture();
    let genesis = genesis();
    let sibling_a = rotate(&genesis);
    let sibling_b = admitting(&genesis, device(11), [0xEB; 32]);
    let bound = announcement_for(2, sibling_a.transition_id());
    let mail = vec![
        fixture.deliver(1, &transition_message(&genesis)),
        fixture.deliver(1, &transition_message(&sibling_a)),
        fixture.deliver(1, &transition_message(&sibling_b)),
        fixture.deliver(2, &bound),
    ];
    fixture.queue(mail);
    let report = fixture.drain();
    assert_eq!(report.accepted, 3);
    assert_eq!(report.deferred, 1);
    assert_eq!(fixture.engine.intake.pending_count(), 1);
    let mut resolution = rotate(&sibling_a);
    resolution.resolves = vec![sibling_b.transition_id()];
    let resolution = resolution.sign();
    let mail = vec![fixture.deliver(1, &transition_message(&resolution))];
    fixture.queue(mail);
    assert_eq!(fixture.drain().accepted, 1);
    assert_eq!(fixture.engine.intake.pending_count(), 0);
    assert_eq!(fixture.engine.announcements().len(), 1);
}

#[test]
fn announcement_bound_to_invalid_transition_suppresses() {
    let mut fixture = fixture();
    fixture.engine.intake.add_epoch_key(5, control_key(5));
    let genesis = genesis();
    let mut bad = rotate(&genesis);
    bad.epoch = 5;
    let bad = bad.sign();
    let bound = announcement_for(5, bad.transition_id());
    let mail = vec![
        fixture.deliver(1, &transition_message(&genesis)),
        fixture.deliver(1, &transition_message(&bad)),
        fixture.deliver(5, &bound),
    ];
    fixture.queue(mail);
    let report = fixture.drain();
    assert_eq!(report.accepted, 3);
    assert_eq!(report.deferred, 0);
    assert!(fixture.engine.announcements().is_empty());
}

fn capability(device: DeviceId, epoch: u64, wrapped: Vec<u8>) -> Body {
    Body::Capability {
        device,
        epoch,
        wrapped,
    }
}

fn capability_message(device: DeviceId, transition: &Transition) -> Body {
    capability(
        device,
        transition.epoch,
        Grant::mint(device, transition).wrap(),
    )
}

#[test]
fn capability_defers_until_its_transition_lands() {
    let mut fixture = fixture();
    let device = fixture.recipient;
    let genesis = genesis();
    let admission = admitting(&genesis, device, ENGINE_KEY);
    let delivery = capability_message(device, &admission);
    let mail = vec![fixture.deliver(2, &delivery)];
    fixture.queue(mail);
    assert_eq!(fixture.drain().deferred, 1);
    assert_eq!(fixture.engine.intake.pending_count(), 1);
    assert_eq!(fixture.engine.commits, 0);
    let mail = vec![
        fixture.deliver(1, &transition_message(&genesis)),
        fixture.deliver(1, &transition_message(&admission)),
    ];
    fixture.queue(mail);
    assert_eq!(fixture.drain().accepted, 2);
    assert_eq!(fixture.engine.intake.pending_count(), 0);
    assert_eq!(fixture.engine.commits, 2);
    assert_eq!(fixture.engine.capabilities(), 1);
}

#[test]
fn received_capability_installs_its_control_keys() {
    let mut fixture = fixture();
    let device = fixture.recipient;
    // Only the key of epoch 2 is held.
    fixture.engine.intake = Intake::new(device, MAX_PENDING_MESSAGES);
    fixture.engine.intake.add_epoch_key(2, control_key(2));
    let genesis = genesis();
    let admission = admitting(&genesis, device, ENGINE_KEY);
    let mail = vec![fixture.deliver(2, &capability_message(device, &admission))];
    fixture.queue(mail);
    assert_eq!(
        fixture.drain().deferred,
        1,
        "capability holds for its transition"
    );
    let mail = vec![
        fixture.deliver(2, &transition_message(&genesis)),
        fixture.deliver(2, &transition_message(&admission)),
    ];
    fixture.queue(mail);
    assert_eq!(fixture.drain().accepted, 2);
    // The relay still has the deferred delivery: it settles now.
    assert_eq!(fixture.drain().duplicates, 1);
    let rotation = Body::KeyRotation(admission.transition_id());
    let mail = vec![fixture.deliver(1, &rotation)];
    fixture.queue(mail);
    let report = fixture.drain();
    assert_eq!(report.skipped, 0, "capability installed epoch 1");
    assert_eq!(report.accepted, 1, "the rotation is consumed");
    assert_eq!(fixture.engine.intake.epoch_key(1), Some(control_key(1)));
}

#[test]
fn malformed_capability_suppresses_without_pending() {
    let mut fixture = fixture();
    let device = fixture.recipient;
    for (name, wrapped) in [("garbage", vec![0xCC; 48]), ("truncated", vec![0xDD; 7])] {
        let mail = vec![fixture.deliver(2, &capability(device, 2, wrapped))];
        fixture.queue(mail.clone());
        assert_eq!(fixture.drain().accepted, 1, "{name} suppresses");
        assert_eq!(
            fixture.engine.intake.pending_count(),
            0,
            "{name} never pends"
        );
        fixture.queue(mail);
        assert_eq!(
            fixture.drain().duplicates,
            1,
            "{name} redelivery is a duplicate"
        );
    }
}

/// A capability that is refused for good: nothing is held or installed,
/// and its redelivery is a duplicate.
fn refused(fixture: &mut Fixture, epoch: u64, delivery: &Body) {
    let mail = vec![fixture.deliver(epoch, delivery)];
    fixture.queue(mail.clone());
    assert_eq!(
        fixture.drain().accepted,
        1,
        "mismatch suppresses, never defers"
    );
    assert_eq!(fixture.engine.intake.pending_count(), 0);
    assert_eq!(fixture.engine.capabilities(), 0, "no capability installs");
    fixture.queue(mail);
    assert_eq!(fixture.drain().duplicates, 1);
}

#[test]
fn tampered_capability_wrap_suppresses() {
    let mut fixture = fixture();
    let device = fixture.recipient;
    let admission = admitting(&genesis(), device, ENGINE_KEY);
    let mut wrapped = Grant::mint(device, &admission).wrap();
    wrapped[20] ^= 0xFF;
    refused(&mut fixture, 2, &capability(device, 2, wrapped));
}

#[test]
fn mismatched_capability_device_suppresses() {
    let mut fixture = fixture();
    let engine = fixture.recipient;
    let admission = admitting(&genesis(), engine, ENGINE_KEY);
    let wrapped = Grant::mint(engine, &admission).wrap();
    refused(&mut fixture, 2, &capability(device(0x99), 2, wrapped));
}

fn land(fixture: &mut Fixture, transitions: &[&Transition]) {
    let mail: Vec<Envelope> = transitions
        .iter()
        .map(|t| fixture.deliver(1, &transition_message(t)))
        .collect();
    fixture.queue(mail);
    assert_eq!(fixture.drain().accepted, transitions.len());
}

#[test]
fn mismatched_capability_secrets_suppresses() {
    let mut fixture = fixture();
    let device = fixture.recipient;
    let genesis = genesis();
    let admission = admitting(&genesis, device, ENGINE_KEY);
    land(&mut fixture, &[&genesis, &admission]);
    let grant = Grant {
        covered_epoch: 1,
        secrets: vec![[0x07; 32]],
        ..Grant::mint(device, &admission)
    };
    refused(&mut fixture, 1, &capability(device, 1, grant.wrap()));
}

#[test]
fn capability_for_another_drive_suppresses() {
    let mut fixture = fixture();
    let device = fixture.recipient;
    let genesis = genesis();
    let admission = admitting(&genesis, device, ENGINE_KEY);
    land(&mut fixture, &[&genesis, &admission]);
    let grant = Grant {
        drive: [0xDE; 32],
        ..Grant::mint(device, &admission)
    };
    refused(&mut fixture, 2, &capability(device, 2, grant.wrap()));
}

#[test]
fn capability_on_invalid_transition_suppresses() {
    let mut fixture = fixture();
    let device = fixture.recipient;
    let genesis = genesis();
    let mut broken = admitting(&genesis, device, ENGINE_KEY);
    broken.signature[10] ^= 0xFF;
    land(&mut fixture, &[&genesis, &broken]);
    refused(&mut fixture, 2, &capability_message(device, &broken));
}

#[test]
fn capability_on_orphaned_transition_suppresses() {
    let mut fixture = fixture();
    let device = fixture.recipient;
    let genesis = genesis();
    let mut broken = admitting(&genesis, device, ENGINE_KEY);
    broken.signature[10] ^= 0xFF;
    let orphan = rotate(&broken);
    land(&mut fixture, &[&genesis, &broken, &orphan]);
    fixture.engine.intake.add_epoch_key(3, control_key(3));
    refused(&mut fixture, 3, &capability_message(device, &orphan));
}

#[test]
fn mismatched_capability_epoch_suppresses() {
    let mut fixture = fixture();
    let device = fixture.recipient;
    let admission = admitting(&genesis(), device, ENGINE_KEY);
    fixture.engine.intake.add_epoch_key(3, control_key(3));
    let wrapped = Grant::mint(device, &admission).wrap();
    refused(&mut fixture, 3, &capability(device, 3, wrapped));
}

#[test]
fn unauthorized_capability_suppresses_without_pending() {
    let mut fixture = fixture();
    let device = fixture.recipient;
    let genesis = genesis();
    land(&mut fixture, &[&genesis]);
    // No member of the genesis.
    refused(&mut fixture, 1, &capability_message(device, &genesis));
    // Admitted under another key than the capability is delivered to.
    let admission = admitting(&genesis, device, [0x5E; 32]);
    land(&mut fixture, &[&admission]);
    refused(&mut fixture, 2, &capability_message(device, &admission));
}

#[test]
fn selective_wake_only_unblocks_matching_dependency() {
    let mut fixture = fixture();
    fixture.engine.intake.add_epoch_key(3, control_key(3));
    let genesis = genesis();
    let child_a = rotate(&genesis);
    let child_b = rotate(&child_a);
    let ann_x = announcement(0xA1, 2, child_a.transition_id(), 0x55, None);
    let ann_y = announcement(0xA2, 3, child_b.transition_id(), 0x55, None);
    let mail = vec![fixture.deliver(2, &ann_x), fixture.deliver(3, &ann_y)];
    fixture.queue(mail);
    assert_eq!(fixture.drain().deferred, 2);
    assert_eq!(fixture.engine.intake.pending_count(), 2);
    assert_eq!(
        fixture.engine.waits(),
        vec![
            DeferredWait::Unseen(child_a.transition_id()),
            DeferredWait::Unseen(child_b.transition_id()),
        ]
    );
    let mail = vec![
        fixture.deliver(1, &transition_message(&genesis)),
        fixture.deliver(1, &transition_message(&child_a)),
    ];
    fixture.queue(mail);
    assert_eq!(fixture.drain().accepted, 2);
    assert_eq!(fixture.engine.intake.pending_count(), 1);
    assert_eq!(fixture.engine.announcements().len(), 1);
    assert_eq!(
        fixture.engine.waits(),
        vec![DeferredWait::Unseen(child_b.transition_id())]
    );
    let mail = vec![fixture.deliver(1, &transition_message(&child_b))];
    fixture.queue(mail);
    assert_eq!(fixture.drain().accepted, 1);
    assert_eq!(fixture.engine.intake.pending_count(), 0);
    let facts = fixture.engine.announcements();
    assert_eq!(facts.len(), 2);
    assert_eq!(facts[0].snapshot, SnapshotId::from_bytes([0xA1; 32]));
    assert_eq!(facts[1].snapshot, SnapshotId::from_bytes([0xA2; 32]));
}

#[test]
fn flushed_deferred_redelivery_is_duplicate() {
    let mut fixture = fixture();
    let genesis = genesis();
    let child = rotate(&genesis);
    let bound = announcement_for(2, child.transition_id());
    let mail = vec![fixture.deliver(2, &bound)];
    fixture.queue(mail.clone());
    assert_eq!(fixture.drain().deferred, 1);
    let unblock = vec![
        fixture.deliver(1, &transition_message(&genesis)),
        fixture.deliver(1, &transition_message(&child)),
    ];
    fixture.queue(unblock);
    assert_eq!(fixture.drain().accepted, 2);
    assert_eq!(fixture.engine.intake.pending_count(), 0);
    let commits = fixture.engine.commits;
    let report = fixture.drain();
    assert_eq!(report.duplicates, 1);
    assert_eq!(report.accepted, 0);
    fixture.queue(mail);
    let report = fixture.drain();
    assert_eq!(report.duplicates, 1);
    assert_eq!(report.accepted, 0);
    assert_eq!(fixture.engine.commits, commits);
    assert_eq!(fixture.engine.announcements().len(), 1);
}

#[test]
fn status_blocked_wakes_on_any_transition() {
    let mut fixture = fixture();
    let genesis = genesis();
    let child = rotate(&genesis);
    land(&mut fixture, &[&child]);
    let bound = announcement_for(2, child.transition_id());
    let mail = vec![fixture.deliver(2, &bound)];
    fixture.queue(mail);
    assert_eq!(fixture.drain().deferred, 1);
    assert_eq!(
        fixture.engine.waits(),
        vec![DeferredWait::StatusBlocked(child.transition_id())]
    );
    let mail = vec![fixture.deliver(1, &transition_message(&genesis))];
    fixture.queue(mail);
    assert_eq!(fixture.drain().accepted, 1);
    assert_eq!(fixture.engine.intake.pending_count(), 0);
    assert_eq!(fixture.engine.announcements().len(), 1);
}

#[test]
fn a_wait_wakes_on_its_transition_or_on_any() {
    let awaited = TransitionId::from_bytes([1; 32]);
    let other = TransitionId::from_bytes([2; 32]);
    assert!(DeferredWait::Unseen(awaited).wake_on(&awaited));
    assert!(!DeferredWait::Unseen(awaited).wake_on(&other));
    assert!(DeferredWait::StatusBlocked(awaited).wake_on(&other));
}

#[test]
fn pending_holds_are_bounded() {
    let mut fixture = fixture();
    let device = fixture.recipient;
    let admission = admitting(&genesis(), device, ENGINE_KEY);
    let delivery = capability_message(device, &admission);
    let mail = (0..=MAX_PENDING_MESSAGES)
        .map(|_| fixture.deliver(2, &delivery))
        .collect();
    fixture.queue(mail);
    let report = fixture.drain();
    assert_eq!(report.deferred, MAX_PENDING_MESSAGES + 1);
    assert_eq!(report.accepted, 0);
    assert_eq!(fixture.engine.intake.pending_count(), MAX_PENDING_MESSAGES);
}

#[test]
fn overflowed_hold_survives_queue_pressure() {
    let mut fixture = fixture();
    let genesis = genesis();
    let child = rotate(&genesis);
    let bound = announcement_for(2, child.transition_id());
    let mail = (0..=MAX_PENDING_MESSAGES)
        .map(|_| fixture.deliver(2, &bound))
        .collect();
    fixture.queue(mail);
    let report = fixture.drain();
    assert_eq!(report.accepted, 0);
    assert_eq!(report.deferred, MAX_PENDING_MESSAGES + 1);
    assert_eq!(fixture.engine.intake.pending_count(), MAX_PENDING_MESSAGES);
    let unblock = vec![
        fixture.deliver(1, &transition_message(&genesis)),
        fixture.deliver(1, &transition_message(&child)),
    ];
    fixture.queue(unblock);
    assert_eq!(fixture.drain().accepted, 2);
    assert_eq!(fixture.engine.intake.pending_count(), 0);
    assert_eq!(fixture.drain().accepted, 1);
    assert_eq!(fixture.engine.intake.pending_count(), 0);
    assert_eq!(
        fixture.engine.announcements().len(),
        MAX_PENDING_MESSAGES + 1
    );
}

#[test]
fn commit_failure_resyncs_uncommitted_views() {
    let mut fixture = fixture();
    let mail = vec![fixture.deliver(1, &transition_message(&genesis()))];
    fixture.engine.read_only = true;
    fixture.queue(mail);
    assert!(fixture.try_drain().is_err());
    fixture.engine.read_only = false;
    let report = fixture.drain();
    assert_eq!(report.accepted, 1);
    assert_eq!(fixture.engine.commits, 1);
}

#[test]
fn commit_failure_resyncs_and_retries() {
    let mut fixture = fixture();
    let device = fixture.recipient;
    let genesis = genesis();
    let admission = admitting(&genesis, device, ENGINE_KEY);
    let bound = announcement_for(2, admission.transition_id());
    let mail = vec![
        fixture.deliver(1, &transition_message(&genesis)),
        fixture.deliver(1, &transition_message(&admission)),
        fixture.deliver(2, &capability_message(device, &admission)),
        fixture.deliver(2, &bound),
    ];
    fixture.queue(mail);
    fixture.engine.read_only = true;
    assert!(fixture.try_drain().is_err());
    fixture.engine.read_only = false;
    let report = fixture.drain();
    assert_eq!(report.accepted, 4);
    assert_eq!(report.deferred, 0);
    assert_eq!(report.duplicates, 0);
    assert_eq!(fixture.engine.intake.pending_count(), 0);
    assert_eq!(fixture.engine.transitions(), 2);
    assert_eq!(fixture.engine.capabilities(), 1);
    assert_eq!(fixture.engine.announcements().len(), 1);
}

/// A history of four epochs: the sender is admitted at the second, the
/// engine's device at the third, another device at the fourth.
fn chain(engine: DeviceId) -> [Transition; 4] {
    let genesis = genesis();
    let admit_sender = admitting(&genesis, device(0x01), [0xE2; 32]);
    let admission = admitting(&admit_sender, engine, ENGINE_KEY);
    let last = admitting(&admission, device(0x03), [0xE3; 32]);
    [genesis, admit_sender, admission, last]
}

/// Delivers the first two epochs, then one rotation.
fn rotate_onto_two(fixture: &mut Fixture, chain: &[Transition; 4], rotation: Envelope) -> DrainReport {
    let mail = vec![
        fixture.deliver(1, &transition_message(&chain[0])),
        fixture.deliver(2, &transition_message(&chain[1])),
        rotation,
    ];
    fixture.queue(mail);
    fixture.drain()
}

#[test]
fn rotation_with_substituted_transition_suppresses() {
    let mut fixture = fixture();
    let chain = chain(fixture.recipient);
    let grant = Grant::mint(fixture.recipient, &chain[2]);
    let rival = rotate(&chain[1]);
    let rotation = fixture.rotation(3, &rival, &grant);
    let report = rotate_onto_two(&mut fixture, &chain, rotation);
    assert_eq!(report.accepted, 3);
    assert!(
        fixture
            .engine
            .log
            .transition(&rival.transition_id())
            .is_none(),
        "the substituted transition never reaches the log"
    );
    assert_eq!(fixture.engine.transitions(), 2);
    assert_eq!(fixture.engine.capabilities(), 0);
}

#[test]
fn rotation_converges_without_the_epoch_key_in_one_drain() {
    let mut fixture = fixture();
    let chain = chain(fixture.recipient);
    let grant = Grant::mint(fixture.recipient, &chain[2]);
    let rotation = fixture.rotation(3, &chain[2], &grant);
    let report = rotate_onto_two(&mut fixture, &chain, rotation.clone());
    assert_eq!(report.accepted, 3);
    assert_eq!(report.skipped, 0);
    assert_eq!(report.deferred, 0);
    assert_eq!(fixture.engine.intake.pending_count(), 0);
    assert_eq!(fixture.engine.known_epoch(), Some(3));
    for epoch in [1, 2, 3] {
        assert!(
            fixture.engine.intake.epoch_key(epoch).is_some(),
            "rotation installs the missing control key for epoch {epoch}"
        );
    }
    assert_eq!(fixture.engine.capabilities(), 1);
    assert_eq!(fixture.engine.transitions(), 3);
    let mail = vec![fixture.deliver(3, &transition_message(&chain[2]))];
    fixture.queue(mail);
    assert_eq!(fixture.drain().accepted, 1);
    assert_eq!(fixture.engine.known_epoch(), Some(3));
    fixture.queue(vec![rotation]);
    let report = fixture.drain();
    assert_eq!(report.accepted, 0);
    assert_eq!(report.duplicates, 1);
}

#[test]
fn rotation_from_a_non_member_is_suppressed() {
    let mut fixture = fixture();
    let chain = chain(fixture.recipient);
    let grant = Grant::mint(fixture.recipient, &chain[2]);
    let rotation =
        fixture.rotation_from(device(0x09), fixture.recipient, 3, &chain[2], &grant);
    let report = rotate_onto_two(&mut fixture, &chain, rotation);
    assert_eq!(report.accepted, 3, "suppression counts as accepted");
    assert_eq!(fixture.engine.known_epoch(), Some(2));
    assert_eq!(fixture.engine.capabilities(), 0);
    assert_eq!(fixture.engine.transitions(), 2);
    let report = fixture.drain();
    assert_eq!(report.accepted, 0);
    assert_eq!(report.duplicates, 0);
}

#[test]
fn rotation_for_another_device_is_suppressed() {
    let mut fixture = fixture();
    let chain = chain(fixture.recipient);
    let grant = Grant::mint(fixture.recipient, &chain[2]);
    let misaddressed =
        fixture.rotation_from(fixture.sender, device(0x09), 3, &chain[2], &grant);
    let report = rotate_onto_two(&mut fixture, &chain, misaddressed);
    assert_eq!(report.accepted, 3, "suppression counts as accepted");
    assert_eq!(fixture.engine.known_epoch(), Some(2));
    assert_eq!(fixture.engine.capabilities(), 0);
}

#[test]
fn rotation_skips_until_its_ancestry_lands_then_converges() {
    let mut fixture = fixture();
    let chain = chain(fixture.recipient);
    let grant3 = Grant::mint(fixture.recipient, &chain[2]);
    let grant4 = Grant::mint(fixture.recipient, &chain[3]);
    let rotation4 = fixture.rotation(4, &chain[3], &grant4);
    let report = rotate_onto_two(&mut fixture, &chain, rotation4);
    assert_eq!(report.accepted, 2);
    assert_eq!(report.skipped, 1, "pending ancestry retains the envelope");
    assert_eq!(
        fixture.engine.intake.pending_count(),
        0,
        "skips never park"
    );
    assert_eq!(fixture.engine.known_epoch(), Some(2));
    let rotation3 = fixture.rotation(3, &chain[2], &grant3);
    fixture.queue(vec![rotation3]);
    let report = fixture.drain();
    assert_eq!(report.accepted, 1);
    assert_eq!(report.skipped, 1);
    assert_eq!(fixture.engine.known_epoch(), Some(3));
    let report = fixture.drain();
    assert_eq!(report.accepted, 1);
    assert_eq!(report.skipped, 0);
    assert_eq!(fixture.engine.known_epoch(), Some(4));
    for epoch in [1, 2, 3, 4] {
        assert_eq!(
            fixture.engine.intake.epoch_key(epoch),
            Some(control_key(epoch))
        );
    }
    assert_eq!(fixture.engine.capabilities(), 2);
}

#[test]
fn rotation_observing_a_transition_flushes_held_announcements() {
    let mut fixture = fixture();
    let chain = chain(fixture.recipient);
    let grant = Grant::mint(fixture.recipient, &chain[2]);
    land(&mut fixture, &[&chain[0], &chain[1]]);
    fixture.engine.inbox_keys.insert(3);
    let bound = announcement_for(3, chain[2].transition_id());
    let mail = vec![fixture.deliver(3, &bound)];
    fixture.queue(mail);
    assert_eq!(fixture.drain().deferred, 1);
    assert_eq!(fixture.engine.intake.pending_count(), 1);
    let rotation = fixture.rotation(3, &chain[2], &grant);
    fixture.queue(vec![rotation]);
    assert_eq!(
        fixture.drain().accepted,
        1,
        "the rotation commits; the flush is silent"
    );
    assert_eq!(fixture.engine.intake.pending_count(), 0);
    assert_eq!(fixture.engine.announcements().len(), 1);
    assert_eq!(fixture.engine.capabilities(), 1);
    assert_eq!(fixture.engine.transitions(), 3);
}

#[test]
fn rotation_from_a_sender_removed_after_authorizing_still_converges() {
    let mut fixture = fixture();
    let engine = fixture.recipient;
    let [genesis, admit_sender, admission, _] = chain(engine);
    let remaining = admission
        .members
        .iter()
        .copied()
        .filter(|(member, _)| *member != device(0x01))
        .collect();
    let removal = child(&admission, remaining);
    fixture.engine.inbox_keys.insert(3);
    let mail = vec![
        fixture.deliver(1, &transition_message(&genesis)),
        fixture.deliver(2, &transition_message(&admit_sender)),
        fixture.deliver(3, &transition_message(&admission)),
    ];
    fixture.queue(mail);
    assert_eq!(fixture.drain().accepted, 3);
    let grant4 = Grant::mint(engine, &removal);
    let rotation4 = fixture.rotation_from(owner(), engine, 4, &removal, &grant4);
    fixture.queue(vec![rotation4]);
    assert_eq!(fixture.drain().accepted, 1);
    assert_eq!(fixture.engine.known_epoch(), Some(4));
    let grant3 = Grant::mint(engine, &admission);
    let rotation3 = fixture.rotation(3, &admission, &grant3);
    fixture.queue(vec![rotation3]);
    let report = fixture.drain();
    assert_eq!(report.accepted, 1, "delayed grant commits, not suppresses");
    assert_eq!(report.skipped, 0);
    assert_eq!(fixture.engine.intake.pending_count(), 0);
    for epoch in [1, 2, 3, 4] {
        assert!(fixture.engine.intake.epoch_key(epoch).is_some());
    }
    assert_eq!(fixture.engine.capabilities(), 2, "delayed grant commits");
    assert_eq!(fixture.engine.transitions(), 5);
}

#[test]
fn rotation_without_derived_members_fails_the_pass() {
    let mut intake = Intake::new(device(2), MAX_PENDING_MESSAGES);
    let chain = chain(device(2));
    let grant = Grant::mint(device(2), &chain[2]);
    let mut log = Log::default();
    for transition in &chain[..3] {
        log.observe(transition.clone());
    }
    let result = intake.accept_rotation(
        device(1),
        RotationIngest::Accepted {
            id: ControlMessageId::from_bytes([9; 32]),
            delivery: RotationDelivery {
                device: device(2),
                epoch: 3,
                transition: chain[2].canonical_bytes(),
                wrapped: grant.wrap(),
            },
            evidence: RotationEvidence {
                capability: Some(grant.capability()),
                transition: Some(chain[2].fact()),
                within_limits: true,
                authorization: grant.authorize(&log),
                members: None,
            },
        },
        Vec::new(),
    );
    assert_eq!(
        result.err(),
        Some(EngineError::TransitionUnclassified(
            chain[2].transition_id()
        ))
    );
}

#[test]
fn undecodable_bytes_are_discarded() {
    let mut intake = Intake::new(device(2), MAX_PENDING_MESSAGES);
    let pass = intake.accept_control(Ingest::Failed, Vec::new()).unwrap();
    assert!(matches!(pass.step, Step::Settle(Outcome::Discarded)));
    let pass = intake
        .accept_rotation(device(1), RotationIngest::Failed, Vec::new())
        .unwrap();
    assert!(matches!(pass.step, Step::Settle(Outcome::Discarded)));
    let pass = intake
        .accept_control(Ingest::Duplicate(None), Vec::new())
        .unwrap();
    assert!(matches!(pass.step, Step::Settle(Outcome::Duplicate)));
}

#[test]
fn a_redelivered_hold_is_driven_again_and_stays() {
    let mut fixture = fixture();
    let child = rotate(&genesis());
    let bound = announcement_for(2, child.transition_id());
    let mail = vec![fixture.deliver(2, &bound)];
    fixture.queue(mail);
    assert_eq!(fixture.drain().deferred, 1);
    assert_eq!(fixture.drain().deferred, 1, "still waiting");
    assert_eq!(fixture.engine.intake.pending_count(), 1);
    let id = fixture.engine.intake.pending_entry(0).id;
    assert!(fixture.engine.intake.take_pending(&id).is_some());
    assert!(fixture.engine.intake.take_pending(&id).is_none());
}

#[test]
fn held_control_keys_are_never_replaced() {
    let mut fixture = fixture();
    let engine = fixture.recipient;
    fixture.engine.intake.add_epoch_key(1, [0xAA; 32]);
    let genesis = genesis();
    let admission = admitting(&genesis, engine, ENGINE_KEY);
    land(&mut fixture, &[&genesis, &admission]);
    let mail = vec![fixture.deliver(2, &capability_message(engine, &admission))];
    fixture.queue(mail);
    assert_eq!(fixture.drain().accepted, 1);
    assert_eq!(fixture.engine.intake.epoch_key(1), Some([0xAA; 32]));
    assert_eq!(fixture.engine.intake.epoch_key(2), Some(control_key(2)));
}
