//! Generation of short human-typeable item ids: a salted digest mapped onto a
//! small alphabet, retried on collision a bounded number of times.

use vstd::prelude::*;

use sha2::Digest;

use crate::strutil::chars_to_string;
use crate::strutil::str_eq;

verus! {

/// How many salted candidates are tried before giving up.
pub const ID_RETRY_LIMIT: u32 = 4096;

/// The id alphabet: decimal digits and lower-case letters.
pub open spec fn is_base36_char(c: char) -> bool {
    ('0' <= c && c <= '9') || ('a' <= c && c <= 'z')
}

/// A well-formed item id: the fixed tag followed by four alphabet characters.
pub open spec fn is_item_id(s: Seq<char>) -> bool {
    s.len() == 7 && s[0] == 'l' && s[1] == 'b' && s[2] == '-' && forall|i: int|
        3 <= i < 7 ==> is_base36_char(s[i])
}

/// The SHA-256 digest of a title, a clock salt, and a nonce, as the bytes of
/// the title in order followed by the little-endian bytes of the two numbers.
pub uninterp spec fn digest_of(title: Seq<char>, salt: i64, nonce: u32) -> Seq<u8>;

/// Relies on `sha2::Sha256` (via the `Digest` trait): the 32-byte digest of
/// the title, the salt, and the nonce, a function of its arguments alone.
#[verifier::external_body]
fn salted_digest(title: &str, salt: i64, nonce: u32) -> (r: Vec<u8>)
    ensures
        r@ == digest_of(title@, salt, nonce),
        r@.len() == 32,
{
    let mut hasher = sha2::Sha256::new();
    hasher.update(title.as_bytes());
    hasher.update(salt.to_le_bytes());
    hasher.update(nonce.to_le_bytes());
    let out = hasher.finalize();
    out.as_slice().to_vec()
}

/// Maps a byte onto the id alphabet.
fn base36_char(b: u8) -> (c: char)
    ensures
        is_base36_char(c),
{
    let d = b % 36;
    if d < 10 {
        (('0' as u8) + d) as char
    } else {
        (('a' as u8) + (d - 10)) as char
    }
}

/// Builds a candidate id from digest bytes: the fixed tag and four alphabet
/// characters taken from the first four bytes.
fn candidate_id(bytes: &Vec<u8>) -> (r: String)
    requires
        bytes@.len() >= 4,
    ensures
        is_item_id(r@),
{
    let mut v: Vec<char> = Vec::new();
    v.push('l');
    v.push('b');
    v.push('-');
    let mut i: usize = 0;
    while i < 4
        invariant
            bytes@.len() >= 4,
            i <= 4,
            v@.len() == 3 + i,
            v@[0] == 'l' && v@[1] == 'b' && v@[2] == '-',
            forall|k: int| 3 <= k < v@.len() ==> is_base36_char(v@[k]),
        decreases 4 - i,
    {
        let c = base36_char(bytes[i]);
        v.push(c);
        i = i + 1;
    }
    chars_to_string(&v)
}

/// True when `id` occurs in `existing`.
fn contains_str(existing: &Vec<String>, id: &String) -> (r: bool)
    ensures
        r == existing@.map_values(|s: String| s@).contains(id@),
{
    let mut i: usize = 0;
    while i < existing.len()
        invariant
            i <= existing@.len(),
            forall|k: int| 0 <= k < i ==> existing@[k]@ != id@,
        decreases existing@.len() - i,
    {
        if str_eq(existing[i].as_str(), id.as_str()) {
            proof {
                assert(existing@.map_values(|s: String| s@)[i as int] == id@);
            }
            return true;
        }
        i = i + 1;
    }
    proof {
        let m = existing@.map_values(|s: String| s@);
        if m.contains(id@) {
            let w = choose|k: int| 0 <= k < m.len() && m[k] == id@;
            assert(existing@[w]@ == id@);
        }
    }
    false
}

/// Generates a fresh well-formed id that does not collide with any existing
/// id, retrying salted digests a bounded number of times; exhaustion of the
/// retry budget reports `None` rather than looping forever.
pub fn generate_id(title: &String, existing: &Vec<String>) -> (r: Option<String>)
    ensures
        match r {
            Some(id) => is_item_id(id@) && !existing@.map_values(|s: String| s@).contains(id@),
            None => true,
        },
{
    let salt = crate::clock::now_millis();
    let mut nonce: u32 = 0;
    while nonce < ID_RETRY_LIMIT
        decreases ID_RETRY_LIMIT - nonce,
    {
        let digest = salted_digest(title.as_str(), salt, nonce);
        let id = candidate_id(&digest);
        if !contains_str(existing, &id) {
            return Some(id);
        }
        nonce = nonce + 1;
    }
    None
}

} // verus!
