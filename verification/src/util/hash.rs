//! MD5 content hashes, written as 32 lowercase hexadecimal characters.
use md5::Digest;
use vstd::prelude::*;
use vstd::utf8::encode_utf8;

verus! {

/// The 16 bytes of the MD5 digest of `data`.
pub uninterp spec fn md5_digest(data: Seq<u8>) -> Seq<u8>;

/// Calls `md5::Md5::digest` on the whole input. The contract gives the digest
/// its name and states its length, which the hasher fixes at 16 bytes.
#[verifier::external_body]
fn md5_of(data: &[u8]) -> (r: Vec<u8>)
    ensures
        r@ == md5_digest(data@),
        r@.len() == 16,
{
    md5::Md5::digest(data).to_vec()
}

/// The lowercase hexadecimal digit for a value below 16.
pub open spec fn nibble_char(n: nat) -> char {
    if n == 0 {
        '0'
    } else if n == 1 {
        '1'
    } else if n == 2 {
        '2'
    } else if n == 3 {
        '3'
    } else if n == 4 {
        '4'
    } else if n == 5 {
        '5'
    } else if n == 6 {
        '6'
    } else if n == 7 {
        '7'
    } else if n == 8 {
        '8'
    } else if n == 9 {
        '9'
    } else if n == 10 {
        'a'
    } else if n == 11 {
        'b'
    } else if n == 12 {
        'c'
    } else if n == 13 {
        'd'
    } else if n == 14 {
        'e'
    } else {
        'f'
    }
}

/// Lowercase base 16: two digits per byte, the high half first.
pub open spec fn hex_lower(bytes: Seq<u8>) -> Seq<char>
    decreases bytes.len(),
{
    if bytes.len() == 0 {
        Seq::empty()
    } else {
        hex_lower(bytes.drop_last()).push(nibble_char((bytes.last() / 16) as nat)).push(
            nibble_char((bytes.last() % 16) as nat),
        )
    }
}

/// Calls `base16ct::lower::encode_string`, which writes each byte as two
/// lowercase hexadecimal digits, high half first. It panics on an input longer
/// than half the address space, which the precondition leaves out.
#[verifier::external_body]
fn hex_lower_string(bytes: &[u8]) -> (r: String)
    requires
        bytes@.len() <= usize::MAX / 2,
    ensures
        r@ == hex_lower(bytes@),
{
    base16ct::lower::encode_string(bytes)
}

/// Whether `c` is a digit of lowercase base 16.
pub open spec fn is_lower_hex(c: char) -> bool {
    ('0' <= c && c <= '9') || ('a' <= c && c <= 'f')
}

/// The digest of `data` as text.
pub open spec fn digest_text(data: Seq<u8>) -> Seq<char> {
    hex_lower(md5_digest(data))
}

/// Base 16 doubles the length and uses lowercase hexadecimal digits only.
pub proof fn lemma_hex_lower_shape(bytes: Seq<u8>)
    ensures
        hex_lower(bytes).len() == 2 * bytes.len(),
        forall|i: int| 0 <= i < hex_lower(bytes).len() ==> is_lower_hex(#[trigger] hex_lower(bytes)[i]),
    decreases bytes.len(),
{
    if bytes.len() > 0 {
        lemma_hex_lower_shape(bytes.drop_last());
    }
}

/// Computes the MD5 hash of `data` as 32 lowercase hexadecimal characters.
pub fn hash_bytes(data: &[u8]) -> (r: String)
    ensures
        r@ == digest_text(data@),
        r@.len() == 32,
        forall|i: int| 0 <= i < r@.len() ==> is_lower_hex(#[trigger] r@[i]),
{
    let digest = md5_of(data);
    proof {
        lemma_hex_lower_shape(digest@);
    }
    hex_lower_string(digest.as_slice())
}

/// Computes the MD5 hash of the UTF-8 bytes of `source`.
pub fn hash_str(source: &str) -> (r: String)
    ensures
        r@ == digest_text(encode_utf8(source@)),
        r@.len() == 32,
        forall|i: int| 0 <= i < r@.len() ==> is_lower_hex(#[trigger] r@[i]),
{
    hash_bytes(source.as_bytes())
}

} // verus!
