//! Digest functions: byte strings to lowercase hexadecimal digests.
//!
//! The hash algorithms are external collaborators; each digest value gets a
//! name, and only the hex rendering is the library's own, with an exact
//! contract.

use vstd::prelude::*;
use md5::Digest;

verus! {

/// The MD5 digest of the input bytes.
pub uninterp spec fn md5_of(data: Seq<u8>) -> Seq<u8>;

/// The SHA-1 digest of the input bytes.
pub uninterp spec fn sha1_of(data: Seq<u8>) -> Seq<u8>;

/// The SHA-256 digest of the input bytes.
pub uninterp spec fn sha256_of(data: Seq<u8>) -> Seq<u8>;

/// The SHA-512 digest of the input bytes.
pub uninterp spec fn sha512_of(data: Seq<u8>) -> Seq<u8>;

/// The BLAKE2s-256 digest of the input bytes.
pub uninterp spec fn blake2s_of(data: Seq<u8>) -> Seq<u8>;

/// The BLAKE2b-512 digest of the input bytes.
pub uninterp spec fn blake2b_of(data: Seq<u8>) -> Seq<u8>;

/// Relies on `md5::Md5` (RustCrypto): the digest is a function of the
/// input bytes alone, sixteen bytes long.
#[verifier::external_body]
fn md5_digest(data: &[u8]) -> (r: Vec<u8>)
    ensures
        r@ == md5_of(data@),
        r@.len() == 16,
{
    md5::Md5::digest(data).to_vec()
}

/// Relies on `sha1::Sha1` (RustCrypto): the digest is a function of the
/// input bytes alone, twenty bytes long.
#[verifier::external_body]
fn sha1_digest(data: &[u8]) -> (r: Vec<u8>)
    ensures
        r@ == sha1_of(data@),
        r@.len() == 20,
{
    sha1::Sha1::digest(data).to_vec()
}

/// Relies on `sha2::Sha256`: the digest is a function of the input bytes
/// alone, thirty-two bytes long.
#[verifier::external_body]
fn sha256_digest(data: &[u8]) -> (r: Vec<u8>)
    ensures
        r@ == sha256_of(data@),
        r@.len() == 32,
{
    sha2::Sha256::digest(data).to_vec()
}

/// Relies on `sha2::Sha512`: the digest is a function of the input bytes
/// alone, sixty-four bytes long.
#[verifier::external_body]
fn sha512_digest(data: &[u8]) -> (r: Vec<u8>)
    ensures
        r@ == sha512_of(data@),
        r@.len() == 64,
{
    sha2::Sha512::digest(data).to_vec()
}

/// Relies on `blake2::Blake2s256`: the digest is a function of the input
/// bytes alone, thirty-two bytes long.
#[verifier::external_body]
fn blake2s_digest(data: &[u8]) -> (r: Vec<u8>)
    ensures
        r@ == blake2s_of(data@),
        r@.len() == 32,
{
    blake2::Blake2s256::digest(data).to_vec()
}

/// Relies on `blake2::Blake2b512`: the digest is a function of the input
/// bytes alone, sixty-four bytes long.
#[verifier::external_body]
fn blake2b_digest(data: &[u8]) -> (r: Vec<u8>)
    ensures
        r@ == blake2b_of(data@),
        r@.len() == 64,
{
    blake2::Blake2b512::digest(data).to_vec()
}

/// The lowercase hexadecimal digit for a value below sixteen.
pub open spec fn hex_digit(n: int) -> char {
    if n == 0 {
        '0'
    } else if n == 1 {
        '1'
    } else if n == 2 {
        '2'
    } else if n == 3 {
        '3'
    } else if n == 4 {
        '4'
    } else if n == 5 {
        '5'
    } else if n == 6 {
        '6'
    } else if n == 7 {
        '7'
    } else if n == 8 {
        '8'
    } else if n == 9 {
        '9'
    } else if n == 10 {
        'a'
    } else if n == 11 {
        'b'
    } else if n == 12 {
        'c'
    } else if n == 13 {
        'd'
    } else if n == 14 {
        'e'
    } else {
        'f'
    }
}

/// The lowercase hexadecimal rendering of a byte string, two digits per
/// byte.
pub open spec fn hex_lower(bs: Seq<u8>) -> Seq<char>
    decreases bs.len(),
{
    if bs.len() == 0 {
        Seq::empty()
    } else {
        hex_lower(bs.drop_last()) + seq![
            hex_digit(bs.last() as int / 16),
            hex_digit(bs.last() as int % 16),
        ]
    }
}

/// Executable hexadecimal digit.
pub fn hex_digit_exec(n: u8) -> (r: char)
    requires
        n < 16,
    ensures
        r == hex_digit(n as int),
{
    match n {
        0 => '0',
        1 => '1',
        2 => '2',
        3 => '3',
        4 => '4',
        5 => '5',
        6 => '6',
        7 => '7',
        8 => '8',
        9 => '9',
        10 => 'a',
        11 => 'b',
        12 => 'c',
        13 => 'd',
        14 => 'e',
        _ => 'f',
    }
}

/// Renders bytes as lowercase hexadecimal.
pub fn to_hex_lower(bs: &Vec<u8>) -> (r: String)
    ensures
        r@ == hex_lower(bs@),
{
    let mut out: Vec<char> = Vec::new();
    let mut i: usize = 0;
    while i < bs.len()
        invariant
            i <= bs@.len(),
            out@ == hex_lower(bs@.take(i as int)),
        decreases bs@.len() - i,
    {
        let b = bs[i];
        out.push(hex_digit_exec(b / 16));
        out.push(hex_digit_exec(b % 16));
        proof {
            let t1 = bs@.take(i as int + 1);
            assert(t1.drop_last() =~= bs@.take(i as int));
            assert(t1.last() == bs@[i as int]);
            assert(out@ =~= hex_lower(t1));
        }
        i = i + 1;
    }
    proof {
        assert(bs@.take(bs@.len() as int) =~= bs@);
    }
    crate::chars::chars_to_string(&out)
}

/// The MD5 digest as lowercase hex.
pub fn md5_hex(data: &[u8]) -> (r: String)
    ensures
        r@ == hex_lower(md5_of(data@)),
        r@.len() == 32,
{
    let d = md5_digest(data);
    proof {
        lemma_hex_len(d@);
    }
    to_hex_lower(&d)
}

/// The SHA-1 digest as lowercase hex.
pub fn sha1_hex(data: &[u8]) -> (r: String)
    ensures
        r@ == hex_lower(sha1_of(data@)),
        r@.len() == 40,
{
    let d = sha1_digest(data);
    proof {
        lemma_hex_len(d@);
    }
    to_hex_lower(&d)
}

/// The SHA-256 digest as lowercase hex.
pub fn sha256_hex(data: &[u8]) -> (r: String)
    ensures
        r@ == hex_lower(sha256_of(data@)),
        r@.len() == 64,
{
    let d = sha256_digest(data);
    proof {
        lemma_hex_len(d@);
    }
    to_hex_lower(&d)
}

/// The SHA-512 digest as lowercase hex.
pub fn sha512_hex(data: &[u8]) -> (r: String)
    ensures
        r@ == hex_lower(sha512_of(data@)),
        r@.len() == 128,
{
    let d = sha512_digest(data);
    proof {
        lemma_hex_len(d@);
    }
    to_hex_lower(&d)
}

/// The BLAKE2s-256 digest as lowercase hex.
pub fn blake2s_hex(data: &[u8]) -> (r: String)
    ensures
        r@ == hex_lower(blake2s_of(data@)),
        r@.len() == 64,
{
    let d = blake2s_digest(data);
    proof {
        lemma_hex_len(d@);
    }
    to_hex_lower(&d)
}

/// The BLAKE2b-512 digest as lowercase hex.
pub fn blake2b_hex(data: &[u8]) -> (r: String)
    ensures
        r@ == hex_lower(blake2b_of(data@)),
        r@.len() == 128,
{
    let d = blake2b_digest(data);
    proof {
        lemma_hex_len(d@);
    }
    to_hex_lower(&d)
}

/// Hex rendering is two characters per byte.
proof fn lemma_hex_len(bs: Seq<u8>)
    ensures
        hex_lower(bs).len() == 2 * bs.len(),
    decreases bs.len(),
{
    if bs.len() > 0 {
        lemma_hex_len(bs.drop_last());
    }
}

} // verus!
