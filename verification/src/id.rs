//! Identifier generation: `eg-` plus ten lowercase hex characters drawn
//! from a digest of the title, the creation instant and fresh randomness.

use vstd::prelude::*;

use sha2::Digest;

verus! {

/// The digest that SHA-256 assigns to a byte sequence.
pub uninterp spec fn sha256_of(data: Seq<u8>) -> Seq<u8>;

/// Relies on sha2's `Sha256`: a 32-byte digest that depends on the input
/// bytes alone.
#[verifier::external_body]
fn sha256(data: &Vec<u8>) -> (r: Vec<u8>)
    ensures
        r@ == sha256_of(data@),
        r@.len() == 32,
{
    let mut h = sha2::Sha256::new();
    h.update(data.as_slice());
    h.finalize().to_vec()
}

/// Relies on rand's `random`: eight bytes from the thread-local generator.
/// Nothing is assumed of their values.
#[verifier::external_body]
fn random_bytes8() -> (r: Vec<u8>)
    ensures
        r@.len() == 8,
{
    rand::random::<[u8; 8]>().to_vec()
}

/// Relies on chrono's `Utc::now` and `timestamp_nanos_opt`: the current
/// instant as a nanosecond count. Nothing is assumed of the value.
#[verifier::external_body]
fn now_nanos() -> u64 {
    chrono::Utc::now().timestamp_nanos_opt().unwrap_or(0) as u64
}

/// A lowercase hexadecimal digit.
pub open spec fn is_hex_lower(c: char) -> bool {
    (48 <= (c as u32) && (c as u32) <= 57) || (97 <= (c as u32) && (c as u32) <= 102)
}

/// The shape of an item identifier: `eg-` and ten lowercase hex characters.
pub open spec fn id_format(s: Seq<char>) -> bool {
    s.len() == 13 && s[0] == 'e' && s[1] == 'g' && s[2] == '-' && forall|i: int|
        3 <= i < 13 ==> is_hex_lower(#[trigger] s[i])
}

fn hex_char(n: u8) -> (c: char)
    requires
        n < 16,
    ensures
        is_hex_lower(c),
{
    if n < 10 {
        ((48 + n) as u8) as char
    } else {
        ((87 + n) as u8) as char
    }
}

/// Produce a fresh identifier from the title, the current instant and
/// eight random bytes, through a 256-bit digest of which forty bits are
/// kept. Two calls with the same title yield different identifiers with
/// overwhelming probability.
pub fn generate_id(title: &str) -> (r: String)
    ensures
        id_format(r@),
{
    let mut data: Vec<u8> = Vec::new();
    let tb = title.as_bytes_vec();
    let mut i: usize = 0;
    while i < tb.len()
        invariant
            i <= tb@.len(),
        decreases tb@.len() - i,
    {
        data.push(tb[i]);
        i = i + 1;
    }
    let nanos = now_nanos();
    let mut sh: u64 = nanos;
    let mut k: usize = 0;
    while k < 8
        invariant
            k <= 8,
        decreases 8 - k,
    {
        data.push((sh & 0xff) as u8);
        sh = sh / 256;
        k = k + 1;
    }
    let rb = random_bytes8();
    let mut k2: usize = 0;
    while k2 < 8
        invariant
            rb@.len() == 8,
            k2 <= 8,
        decreases 8 - k2,
    {
        data.push(rb[k2]);
        k2 = k2 + 1;
    }
    let digest = sha256(&data);
    let mut out: Vec<char> = Vec::new();
    out.push('e');
    out.push('g');
    out.push('-');
    let mut b: usize = 0;
    while b < 5
        invariant
            digest@.len() == 32,
            b <= 5,
            out@.len() == 3 + 2 * b,
            out@[0] == 'e' && out@[1] == 'g' && out@[2] == '-',
            forall|i: int| 3 <= i < out@.len() ==> is_hex_lower(#[trigger] out@[i]),
        decreases 5 - b,
    {
        let byte = digest[b];
        out.push(hex_char(byte / 16));
        out.push(hex_char(byte % 16));
        b = b + 1;
    }
    let r = crate::text::string_from_chars(&out);
    proof {
        assert(id_format(r@));
    }
    r
}

} // verus!
