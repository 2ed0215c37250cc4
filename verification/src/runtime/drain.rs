//! One pass over a mailbox: what each envelope carries, how each handover
//! is settled, and the counts of the pass.

use vstd::prelude::*;

use crate::ids::DeviceId;
use crate::runtime::intake::Outcome;
use crate::sorted::SortedSet;
use crate::transport::mailbox::{
    contents, open_from_sender, opening, DeliveryId, DeviceIdentitySecret, Disposition,
    MailboxEnvelope, MailboxError,
};

verus! {

/// What an envelope carries.
#[derive(Debug, PartialEq, Eq)]
pub enum Framing {
    /// Nothing that can be opened, now or ever.
    Poison,
    /// A rotation delivery.
    Rotation(Vec<u8>),
    /// A control message.
    Control(Vec<u8>),
}

/// Whether control bytes are framed as a rotation delivery.
pub open spec fn is_rotation(bytes: Seq<u8>, rotation_version: u8) -> bool {
    bytes.len() > 0 && bytes[0] == rotation_version
}

/// Whether a framing is that of what an envelope opened to.
pub open spec fn frames(
    framing: Framing,
    opened: Result<Seq<u8>, MailboxError>,
    rotation_version: u8,
) -> bool {
    match opened {
        Err(_) => framing is Poison,
        Ok(bytes) => if is_rotation(bytes, rotation_version) {
            framing matches Framing::Rotation(carried) && carried@ == bytes
        } else {
            framing matches Framing::Control(carried) && carried@ == bytes
        },
    }
}

/// Tells the two framings apart by their version byte, before either is
/// decoded.
pub fn frame(opened: Result<Vec<u8>, MailboxError>, rotation_version: u8) -> (r: Framing)
    ensures
        frames(r, contents(opened), rotation_version),
{
    match opened {
        Err(_) => Framing::Poison,
        Ok(bytes) => if bytes.len() > 0 && bytes[0] == rotation_version {
            Framing::Rotation(bytes)
        } else {
            Framing::Control(bytes)
        },
    }
}

/// Opens an envelope and tells what it carries.
pub fn accept_envelope(
    secret: &DeviceIdentitySecret,
    device: DeviceId,
    envelope: &MailboxEnvelope,
    rotation_version: u8,
) -> (r: Framing)
    ensures
        frames(r, opening(secret@, device, *envelope), rotation_version),
{
    frame(open_from_sender(secret, device, envelope), rotation_version)
}

/// The counts of one pass.
#[derive(Debug, Clone, Copy, PartialEq, Eq, Structural)]
pub struct DrainReport {
    pub accepted: usize,
    pub duplicates: usize,
    pub deferred: usize,
    pub skipped: usize,
    pub discarded: usize,
}

impl DrainReport {
    /// How many handovers were counted.
    pub open spec fn total(self) -> int {
        self.accepted + self.duplicates + self.deferred + self.skipped + self.discarded
    }

    /// The counts after one more outcome.
    pub open spec fn counting(self, outcome: Outcome) -> DrainReport {
        match outcome {
            Outcome::Accepted => DrainReport { accepted: (self.accepted + 1) as usize, ..self },
            Outcome::Duplicate => DrainReport {
                duplicates: (self.duplicates + 1) as usize,
                ..self
            },
            Outcome::Deferred => DrainReport { deferred: (self.deferred + 1) as usize, ..self },
            Outcome::RelayHeld => DrainReport { deferred: (self.deferred + 1) as usize, ..self },
            Outcome::Skipped => DrainReport { skipped: (self.skipped + 1) as usize, ..self },
            Outcome::Discarded => DrainReport { discarded: (self.discarded + 1) as usize, ..self },
        }
    }
}

/// How an outcome settles its handover: what was taken responsibility for,
/// and what can never become a message, is consumed; everything else stays
/// with the relay.
pub open spec fn disposed(outcome: Outcome) -> Disposition {
    match outcome {
        Outcome::Accepted | Outcome::Duplicate | Outcome::Discarded => Disposition::Ack,
        Outcome::Deferred | Outcome::RelayHeld | Outcome::Skipped => Disposition::Retry,
    }
}

/// One pass over a mailbox.
pub struct DrainPass {
    offered: SortedSet<u64>,
    report: DrainReport,
}

/// The mathematical value of a [`DrainPass`].
#[verifier::ext_equal]
pub struct DrainView {
    /// The handovers that were offered.
    pub offered: Set<u64>,
    pub report: DrainReport,
}

impl View for DrainPass {
    type V = DrainView;

    closed spec fn view(&self) -> DrainView {
        DrainView { offered: self.offered@, report: self.report }
    }
}

impl DrainPass {
    pub closed spec fn wf(&self) -> bool {
        self.offered.wf() && self.report.total() <= self.offered.keys().len()
    }

    /// How many handovers were offered and not settled yet.
    pub closed spec fn open_handovers(&self) -> int {
        self.offered.keys().len() - self.report.total()
    }

    pub fn new() -> (r: Self)
        ensures
            r.wf(),
            r.open_handovers() == 0,
            r@ == (DrainView {
                offered: Set::empty(),
                report: DrainReport {
                    accepted: 0,
                    duplicates: 0,
                    deferred: 0,
                    skipped: 0,
                    discarded: 0,
                },
            }),
    {
        DrainPass {
            offered: SortedSet::new(),
            report: DrainReport {
                accepted: 0,
                duplicates: 0,
                deferred: 0,
                skipped: 0,
                discarded: 0,
            },
        }
    }

    /// Takes an offered handover into the pass. A handover that the pass
    /// already had ends it.
    pub fn offer(&mut self, id: &DeliveryId) -> (fresh: bool)
        requires
            old(self).wf(),
        ensures
            final(self).wf(),
            fresh == !old(self)@.offered.contains(id@),
            final(self)@ == (DrainView {
                offered: old(self)@.offered.insert(id@),
                ..old(self)@
            }),
            final(self).open_handovers() == old(self).open_handovers() + if fresh {
                1int
            } else {
                0int
            },
    {
        let fresh: bool = self.offered.insert(id.value());
        proof {
            assert(self@ =~= (DrainView {
                offered: old(self)@.offered.insert(id@),
                ..old(self)@
            }));
        }
        fresh
    }

    /// Counts an outcome and tells how to settle its handover.
    pub fn settle(&mut self, outcome: Outcome) -> (r: Disposition)
        requires
            old(self).wf(),
            old(self).open_handovers() > 0,
        ensures
            final(self).wf(),
            r == disposed(outcome),
            final(self)@ == (DrainView {
                report: old(self)@.report.counting(outcome),
                ..old(self)@
            }),
            final(self)@.report.total() == old(self)@.report.total() + 1,
            final(self).open_handovers() == old(self).open_handovers() - 1,
    {
        // No counter passes the number of handovers.
        let offered: usize = self.offered.len();
        assert(self.report.total() < offered);
        match outcome {
            Outcome::Accepted => {
                self.report.accepted = self.report.accepted + 1;
                Disposition::Ack
            },
            Outcome::Duplicate => {
                self.report.duplicates = self.report.duplicates + 1;
                Disposition::Ack
            },
            Outcome::Deferred => {
                self.report.deferred = self.report.deferred + 1;
                Disposition::Retry
            },
            Outcome::RelayHeld => {
                self.report.deferred = self.report.deferred + 1;
                Disposition::Retry
            },
            Outcome::Skipped => {
                self.report.skipped = self.report.skipped + 1;
                Disposition::Retry
            },
            Outcome::Discarded => {
                self.report.discarded = self.report.discarded + 1;
                Disposition::Ack
            },
        }
    }

    /// The counts so far.
    pub fn report(&self) -> (r: DrainReport)
        ensures
            r == self@.report,
    {
        self.report
    }
}

} // verus!
