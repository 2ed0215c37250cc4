//! Which mail is sealed, and which is opened.

use vstd::arithmetic::power::pow;
use vstd::prelude::*;
use vstd::utf8::encode_utf8;

use crate::ids::DeviceId;
use crate::order::lex_before;
use crate::transport::mailbox::{
    big_endian, group_order, inbound, is_secret, nip44_opened, opening, outbound, released,
    MailboxEnvelope, MailboxError,
};

verus! {

/// Control bytes may be sealed exactly when there are at most 65536 of
/// them; more are refused with their number and the ceiling.
pub proof fn law_outbound_mail_keeps_to_its_ceiling(control_bytes: Seq<u8>)
    requires
        control_bytes.len() <= usize::MAX,
    ensures
        outbound(control_bytes) is Ok <==> control_bytes.len() <= 65536,
        control_bytes.len() > 65536 ==> outbound(control_bytes) == Err::<(), MailboxError>(
            MailboxError::Oversize { bytes: control_bytes.len() as usize, max: 65536 },
        ),
{
}

/// An envelope for someone else is refused before its size is looked at;
/// one whose ciphertext is over 98304 bytes is refused with its size and
/// the ceiling; any other may be decrypted.
pub proof fn law_inbound_mail_is_checked_before_it_is_opened(
    expected: DeviceId,
    envelope: MailboxEnvelope,
)
    ensures
        inbound(expected, envelope) is Ok <==> envelope.recipient == expected && encode_utf8(
            envelope.ciphertext@,
        ).len() <= 98304,
        envelope.recipient != expected ==> inbound(expected, envelope) == Err::<(), MailboxError>(
            MailboxError::Crypto,
        ),
        envelope.recipient == expected && encode_utf8(envelope.ciphertext@).len() > 98304
            ==> inbound(expected, envelope) == Err::<(), MailboxError>(
            MailboxError::Oversize {
                bytes: encode_utf8(envelope.ciphertext@).len() as usize,
                max: 98304,
            },
        ),
{
}

/// A decryption that fails hands out nothing; one that comes to more than
/// 65536 bytes is refused with its size and the ceiling; any other is
/// handed out unchanged.
pub proof fn law_opened_mail_keeps_to_its_ceiling(content: Option<Seq<u8>>)
    ensures
        content is None ==> released(content) == Err::<Seq<u8>, MailboxError>(
            MailboxError::Crypto,
        ),
        content matches Some(bytes) ==> bytes.len() <= 65536 ==> released(content) == Ok::<
            Seq<u8>,
            MailboxError,
        >(bytes),
        content matches Some(bytes) ==> bytes.len() > 65536 ==> released(content) == Err::<
            Seq<u8>,
            MailboxError,
        >(MailboxError::Oversize { bytes: bytes.len() as usize, max: 65536 }),
{
}

/// Mail opens exactly when it is for the expected recipient, its ciphertext
/// keeps to its ceiling, it decrypts under the recipient's key and the
/// sender that it names, and what comes out keeps to its ceiling; that is
/// what it opens to.
pub proof fn law_mail_opens_to_what_it_decrypts_to(
    secret: Seq<u8>,
    expected: DeviceId,
    envelope: MailboxEnvelope,
    content: Seq<u8>,
)
    ensures
        opening(secret, expected, envelope) == Ok::<Seq<u8>, MailboxError>(content) <==> {
            &&& envelope.recipient == expected
            &&& encode_utf8(envelope.ciphertext@).len() <= 98304
            &&& nip44_opened(secret, envelope.sender@, envelope.ciphertext@) == Some(content)
            &&& content.len() <= 65536
        },
        envelope.recipient != expected ==> opening(secret, expected, envelope) == Err::<
            Seq<u8>,
            MailboxError,
        >(MailboxError::Crypto),
{
}

proof fn lemma_big_endian(bytes: Seq<u8>)
    ensures
        big_endian(bytes) < pow(256, bytes.len()),
        bytes.len() > 0 ==> big_endian(bytes) == bytes[0] * pow(256, (bytes.len() - 1) as nat)
            + big_endian(bytes.skip(1)),
    decreases bytes.len(),
{
    reveal(pow);
    if bytes.len() == 1 {
        assert(bytes.drop_last() =~= Seq::<u8>::empty());
        assert(bytes.skip(1) =~= Seq::<u8>::empty());
        assert(big_endian(bytes.drop_last()) == 0);
        assert(pow(256, 0) == 1);
        assert(bytes.last() == bytes[0]);
        let first = bytes[0] as int;
        assert(first * pow(256, 0) == first) by (nonlinear_arith)
            requires
                pow(256, 0) == 1,
        ;
        assert(big_endian(bytes.skip(1)) == 0);
    } else if bytes.len() > 1 {
        let init = bytes.drop_last();
        let rest = bytes.skip(1);
        let n = bytes.len();
        let unit = pow(256, (n - 2) as nat);
        lemma_big_endian(init);
        assert(init.skip(1) =~= rest.drop_last());
        assert(rest.last() == bytes.last());
        assert(init[0] == bytes[0]);
        let low = big_endian(init.skip(1));
        let first = bytes[0] as int;
        assert(pow(256, (n - 1) as nat) == 256 * unit);
        assert(pow(256, n) == 256 * pow(256, (n - 1) as nat));
        assert((first * unit + low) * 256 == first * (256 * unit) + low * 256)
            by (nonlinear_arith);
        assert(big_endian(rest) == low * 256 + bytes.last());
        assert(big_endian(bytes) == big_endian(init) * 256 + bytes.last());
    }
}

/// Secret keys are read most significant byte first: of two of one length,
/// the one that comes first byte by byte is the smaller number.
pub proof fn law_numbers_compare_as_their_bytes(a: Seq<u8>, b: Seq<u8>)
    requires
        a.len() == b.len(),
        lex_before(a, b),
    ensures
        big_endian(a) < big_endian(b),
    decreases a.len(),
{
    lemma_big_endian(a);
    lemma_big_endian(b);
    let unit = pow(256, (a.len() - 1) as nat);
    if a[0] == b[0] {
        law_numbers_compare_as_their_bytes(a.skip(1), b.skip(1));
    } else {
        lemma_big_endian(a.skip(1));
        let x = a[0] as int;
        let y = b[0] as int;
        let low = big_endian(a.skip(1)) as int;
        assert(x * unit + low < y * unit) by (nonlinear_arith)
            requires
                x + 1 <= y,
                low < unit,
                0 <= low,
        ;
    }
}

/// A secret key is thirty-two bytes that stand for a number which is
/// neither zero nor as large as the order of the group.
pub proof fn law_secrets_are_in_range(bytes: Seq<u8>)
    ensures
        is_secret(bytes) <==> bytes.len() == 32 && big_endian(bytes) != 0 && big_endian(bytes)
            < group_order(),
{
}

} // verus!
