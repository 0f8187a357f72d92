//! Content identifiers: SHA-1 digests and their hexadecimal form.

use vstd::prelude::*;
use sha1::{Digest, Sha1};

verus! {

/// The SHA-1 digest of `message`, as the `sha1` crate computes it.
pub uninterp spec fn sha1_digest(message: Seq<u8>) -> Seq<u8>;

/// The number of bytes from which on no digest is taken: a message of
/// 2^61 bytes has a length in bits that no longer fits in 64 bits.
pub const DIGEST_LIMIT: u64 = 0x2000_0000_0000_0000;

/// The sixteen hexadecimal digits, lower case.
pub open spec fn hex_digits() -> Seq<char> {
    seq!['0', '1', '2', '3', '4', '5', '6', '7', '8', '9', 'a', 'b', 'c', 'd', 'e', 'f']
}

/// `bytes` in hexadecimal: for each byte the digit of its upper four bits,
/// then that of its lower four, in lower case.
pub open spec fn hex_lower(bytes: Seq<u8>) -> Seq<char> {
    Seq::new(
        2 * bytes.len(),
        |i: int|
            if i % 2 == 0 {
                hex_digits()[bytes[i / 2] as int / 16]
            } else {
                hex_digits()[bytes[i / 2] as int % 16]
            },
    )
}

/// `Sha1::digest` of the `sha1` crate: the SHA-1 digest of `message`, which
/// is 20 bytes long. The message must be shorter than 2^61 bytes, since the
/// crate multiplies its length by eight in 64 bits.
#[verifier::external_body]
fn sha1_of(message: &[u8]) -> (digest: [u8; 20])
    requires
        message@.len() < DIGEST_LIMIT,
    ensures
        digest@ == sha1_digest(message@),
{
    Sha1::digest(message).into()
}

/// `hex::encode`: two lower-case hexadecimal digits for each byte of
/// `bytes`, upper four bits first.
#[verifier::external_body]
fn hex_encode(bytes: &[u8]) -> (text: String)
    ensures
        text@ == hex_lower(bytes@),
{
    hex::encode(bytes)
}

/// The 20-byte digest that names a piece of content.
#[derive(Clone, Copy, Debug, PartialEq, Eq)]
pub struct ContentId {
    pub digest: [u8; 20],
}

impl View for ContentId {
    type V = Seq<u8>;

    open spec fn view(&self) -> Seq<u8> {
        self.digest@
    }
}

impl ContentId {
    /// The identifier of the content that `message` describes: its SHA-1
    /// digest. `None` for a message of `DIGEST_LIMIT` bytes or more.
    pub fn of(message: &[u8]) -> (id: Option<ContentId>)
        ensures
            match id {
                Some(id) => message@.len() < DIGEST_LIMIT && id@ == sha1_digest(message@),
                None => message@.len() >= DIGEST_LIMIT,
            },
    {
        if message.len() as u64 >= DIGEST_LIMIT {
            None
        } else {
            Some(ContentId { digest: sha1_of(message) })
        }
    }

    /// The identifier as 40 lower-case hexadecimal digits.
    pub fn to_hex(&self) -> (text: String)
        ensures
            text@ == hex_lower(self@),
            text@.len() == 40,
    {
        hex_encode(self.digest.as_slice())
    }
}

/// Byte strings with the same hexadecimal form are the same.
pub proof fn lemma_hex_injective(a: Seq<u8>, b: Seq<u8>)
    requires
        hex_lower(a) == hex_lower(b),
    ensures
        a == b,
{
    assert(hex_lower(a).len() == 2 * a.len());
    assert(hex_lower(b).len() == 2 * b.len());
    assert forall|i: int| 0 <= i < a.len() implies a[i] == b[i] by {
        let x = a[i] as int;
        let y = b[i] as int;
        assert(hex_lower(a)[2 * i] == hex_digits()[x / 16]);
        assert(hex_lower(b)[2 * i] == hex_digits()[y / 16]);
        assert(hex_lower(a)[2 * i + 1] == hex_digits()[x % 16]);
        assert(hex_lower(b)[2 * i + 1] == hex_digits()[y % 16]);
        lemma_hex_digits_distinct(x / 16, y / 16);
        lemma_hex_digits_distinct(x % 16, y % 16);
    }
    assert(a =~= b);
}

/// No two of the sixteen digits are the same.
proof fn lemma_hex_digits_distinct(m: int, n: int)
    requires
        0 <= m < 16,
        0 <= n < 16,
        hex_digits()[m] == hex_digits()[n],
    ensures
        m == n,
{
}

} // verus!
