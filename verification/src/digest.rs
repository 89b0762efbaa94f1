//! Content digests: the MD5 sum of a file's bytes, written in hexadecimal.

use crate::format::{is_space, storable, Record};
use crate::text::push_char;
use vstd::prelude::*;

verus! {

/// The MD5 sum of `data`: what `md5::Md5::digest` returns for it.
pub uninterp spec fn md5_of(data: Seq<u8>) -> Seq<u8>;

/// Computes the MD5 sum of `data`.
///
/// Trusted: stands for `md5::Md5::digest`, which depends on the bytes alone
/// and returns sixteen bytes. The contract names that result and states its
/// length.
#[verifier::external_body]
pub(crate) fn md5_bytes(data: &[u8]) -> (sum: Vec<u8>)
    ensures
        sum@ == md5_of(data@),
        sum@.len() == 16,
{
    <md5::Md5 as md5::Digest>::digest(data).to_vec()
}

/// The hexadecimal digit for `n`, in lower case.
pub open spec fn hex_digit(n: int) -> char {
    "0123456789abcdef"@[n]
}

/// `bytes` in hexadecimal: two digits for each byte, the high one first.
pub open spec fn hex_text(bytes: Seq<u8>) -> Seq<char> {
    Seq::new(
        2 * bytes.len(),
        |i: int|
            hex_digit(
                if i % 2 == 0 {
                    bytes[i / 2] as int / 16
                } else {
                    bytes[i / 2] as int % 16
                },
            ),
    )
}

/// The hexadecimal digit for `n`.
fn digit(n: u8) -> (c: char)
    requires
        n < 16,
    ensures
        c == hex_digit(n as int),
{
    proof {
        reveal_strlit("0123456789abcdef");
    }
    "0123456789abcdef".get_char(n as usize)
}

/// Writes `bytes` in hexadecimal.
pub fn to_hex(bytes: &[u8]) -> (text: String)
    ensures
        text@ == hex_text(bytes@),
{
    let mut text = String::new();
    let mut i: usize = 0;
    while i < bytes.len()
        invariant
            i <= bytes.len(),
            text@ == hex_text(bytes@.take(i as int)),
        decreases bytes.len() - i,
    {
        let ghost before = text@;
        let b: u8 = bytes[i];
        push_char(&mut text, digit(b / 16));
        push_char(&mut text, digit(b % 16));
        proof {
            assert(text@ =~= hex_text(bytes@.take(i + 1)));
        }
        i += 1;
    }
    proof {
        assert(bytes@.take(bytes.len() as int) =~= bytes@);
    }
    text
}

/// The digest of a file with the given content: its MD5 sum in hexadecimal,
/// thirty-two digits.
pub fn compute_hash(content: &[u8]) -> (hash: String)
    ensures
        hash@ == hex_text(md5_of(content@)),
        hash@.len() == 32,
{
    let sum = md5_bytes(content);
    to_hex(sum.as_slice())
}

/// A digest in hexadecimal can stand in a line of the ledger, with any path
/// that can: it is made of digits and the letters `a` to `f`, so it holds no
/// white space, no blank and no line break.
pub proof fn law_hex_digest_is_storable(sum: Seq<u8>, path: Seq<char>)
    requires
        sum.len() > 0,
        path.len() > 0,
        !is_space(path.last()),
        forall|i: int| 0 <= i < path.len() ==> path[i] != '\n',
    ensures
        storable(Record { path, digest: hex_text(sum) }),
{
    reveal_strlit("0123456789abcdef");
    let digest = hex_text(sum);
    assert forall|i: int| 0 <= i < digest.len() implies ('0' <= #[trigger] digest[i] <= '9') || (
    'a' <= digest[i] <= 'f') by {
        let n = if i % 2 == 0 {
            sum[i / 2] as int / 16
        } else {
            sum[i / 2] as int % 16
        };
        assert(0 <= n < 16);
        assert(digest[i] == hex_digit(n));
    }
    assert(('0' <= digest[0] <= '9') || ('a' <= digest[0] <= 'f'));
}

} // verus!
