//! Entity tags: the MD5 digest of a body, written in hexadecimal.

use crate::encoding::{decimal, hex_bytes, push_decimal, push_hex_bytes, to_hex_bytes};
use vstd::prelude::*;
use vstd::string::*;

verus! {

/// The MD5 digest of `data`, as the `md5` crate computes it.
pub uninterp spec fn md5_digest(data: Seq<u8>) -> Seq<u8>;

/// Calls `md5::compute` and hands back the bytes of the digest that it
/// returns. The digest depends on `data` alone; nothing else is claimed of it.
#[verifier::external_body]
pub(crate) fn md5_of(data: &[u8]) -> (digest: Vec<u8>)
    ensures
        digest@ == md5_digest(data@),
{
    md5::compute(data).0.to_vec()
}

/// The entity tag of a body: its digest in hexadecimal, two digits a byte.
pub open spec fn etag_of(data: Seq<u8>) -> Seq<char> {
    hex_bytes(md5_digest(data))
}

/// The entity tag of an object assembled from parts, given the digest of each
/// part in part order: the digest of the digests, a hyphen and the number of
/// parts in decimal.
pub open spec fn composite_etag(part_digests: Seq<Seq<u8>>) -> Seq<char> {
    hex_bytes(md5_digest(part_digests.flatten())) + seq!['-'] + decimal(part_digests.len())
}

/// The digest of each body of `parts`, in order.
pub open spec fn digests_of(parts: Seq<Seq<u8>>) -> Seq<Seq<u8>> {
    parts.map_values(|part: Seq<u8>| md5_digest(part))
}

/// Computes [`etag_of`].
pub fn content_etag(data: &[u8]) -> (etag: String)
    ensures
        etag@ == etag_of(data@),
{
    let d = md5_of(data);
    to_hex_bytes(d.as_slice())
}

/// Writes out a composite tag from the digest of the part digests and the
/// number of parts.
pub fn format_composite_etag(digest_of_digests: &[u8], parts: u64) -> (etag: String)
    ensures
        etag@ == hex_bytes(digest_of_digests@) + seq!['-'] + decimal(parts as nat),
{
    let mut etag = String::new();
    push_hex_bytes(&mut etag, digest_of_digests);
    proof {
        reveal_strlit("-");
    }
    etag.append("-");
    assert("-"@ =~= seq!['-']);
    push_decimal(&mut etag, parts);
    assert(etag@ =~= hex_bytes(digest_of_digests@) + seq!['-'] + decimal(parts as nat));
    etag
}

} // verus!
