//! The render cache: one slot per node, keyed by a hash of the node's raw
//! content.  A cache file holds the content hash, a newline, and the cached
//! payload; a lookup yields the payload only while the stored hash matches
//! the hash of the node's current text.

use vstd::prelude::*;

use crate::chars::{
    chars_range, chars_to_string, find_char, is_digit_char, lemma_find_char, push_char,
    str_to_chars,
};

verus! {

/// The SHA-256 digest of the UTF-8 bytes of `s`, rendered as lowercase hex:
/// a function of `s` alone.
pub uninterp spec fn sha256_hex_of(s: Seq<char>) -> Seq<char>;

/// `c` is a lowercase hexadecimal digit.
pub open spec fn is_lower_hex(c: char) -> bool {
    is_digit_char(c) || (97 <= c as u32 <= 102)
}

/// Relies on `sha256::digest`: the SHA-256 digest of the UTF-8 bytes of
/// `s`, hex-encoded as 64 lowercase hex digits.
#[verifier::external_body]
fn sha256_hex(s: &str) -> (r: String)
    ensures
        r@ == sha256_hex_of(s@),
        r@.len() == 64,
        forall|i: int| 0 <= i < r@.len() ==> is_lower_hex(#[trigger] r@[i]),
{
    sha256::digest(s)
}

/// The content of a cache file: the hash of the raw text, a newline, and
/// the payload.
pub open spec fn cache_entry_of(raw: Seq<char>, payload: Seq<char>) -> Seq<char> {
    sha256_hex_of(raw) + seq!['\n'] + payload
}

/// The cache file content that stores `to_cache` for a node whose raw text
/// is `raw`.
pub fn set_cached_node(raw: &str, to_cache: &str) -> (r: String)
    ensures
        r@ == cache_entry_of(raw@, to_cache@),
        sha256_hex_of(raw@).len() == 64,
        forall|i: int|
            0 <= i < sha256_hex_of(raw@).len() ==> is_lower_hex(#[trigger] sha256_hex_of(raw@)[i]),
{
    let mut out = sha256_hex(raw);
    push_char(&mut out, '\n');
    out.append(to_cache);
    proof {
        assert(out@ =~= cache_entry_of(raw@, to_cache@));
    }
    out
}

/// The payload stored in the cache file `stored`, provided its recorded
/// hash equals the hash of `raw`; `None` on a malformed file or a stale
/// hash — a miss, not an error.
pub fn get_cached_node(raw: &str, stored: &str) -> (r: Option<String>)
    ensures
        sha256_hex_of(raw@).len() == 64,
        forall|i: int|
            0 <= i < sha256_hex_of(raw@).len() ==> is_lower_hex(#[trigger] sha256_hex_of(raw@)[i]),
        match r {
            Some(p) => {
                let i = find_char(stored@, '\n');
                &&& i != -1
                &&& stored@.take(i) == sha256_hex_of(raw@)
                &&& p@ == stored@.skip(i + 1)
            },
            None => {
                let i = find_char(stored@, '\n');
                i == -1 || stored@.take(i) != sha256_hex_of(raw@)
            },
        },
{
    let hash = sha256_hex(raw);
    let cv = str_to_chars(stored);
    proof {
        lemma_find_char(cv@, '\n');
    }
    let mut i: usize = 0;
    while i < cv.len()
        invariant
            i <= cv@.len(),
            cv@ == stored@,
            hash@ == sha256_hex_of(raw@),
            sha256_hex_of(raw@).len() == 64,
            forall|k: int|
                0 <= k < sha256_hex_of(raw@).len() ==> is_lower_hex(
                    #[trigger] sha256_hex_of(raw@)[k],
                ),
            forall|j: int| 0 <= j < i ==> cv@[j] != '\n',
        decreases cv@.len() - i,
    {
        if cv[i] == '\n' {
            proof {
                lemma_find_char(cv@, '\n');
                if find_char(cv@, '\n') == -1 {
                    assert(cv@[i as int] != '\n');
                }
                if find_char(cv@, '\n') > i {
                    assert(cv@[i as int] != '\n');
                }
                if 0 <= find_char(cv@, '\n') < i {
                    assert(cv@[find_char(cv@, '\n')] != '\n');
                }
            }
            let stored_hash = chars_range(&cv, 0, i);
            let stored_hash_s = chars_to_string(&stored_hash);
            proof {
                assert(stored_hash@ =~= cv@.take(i as int));
            }
            if stored_hash_s.eq(&hash) {
                let payload = chars_range(&cv, i + 1, cv.len());
                proof {
                    assert(payload@ =~= cv@.skip(i + 1));
                }
                return Some(chars_to_string(&payload));
            } else {
                return None;
            }
        }
        i = i + 1;
    }
    proof {
        lemma_find_char(cv@, '\n');
        if find_char(cv@, '\n') != -1 {
            assert(cv@[find_char(cv@, '\n')] == '\n');
        }
    }
    None
}

/// Cache correctness, the hit half: an entry freshly written as `hash`,
/// newline, `payload` — with a hash of lowercase hex digits, as
/// `set_cached_node` ensures of the hash it stores — reads back as exactly
/// that hash and that payload.  (That a lookup yields a payload only while
/// the stored hash matches the current one, and misses otherwise, is an
/// ensures of `get_cached_node`.)
pub proof fn lemma_cache_round_trip(hash: Seq<char>, payload: Seq<char>)
    requires
        hash.len() >= 1,
        forall|i: int| 0 <= i < hash.len() ==> is_lower_hex(#[trigger] hash[i]),
    ensures
        ({
            let entry = hash + seq!['\n'] + payload;
            &&& find_char(entry, '\n') == hash.len()
            &&& entry.take(hash.len() as int) == hash
            &&& entry.skip(hash.len() as int + 1) == payload
        }),
{
    assert forall|i: int| 0 <= i < hash.len() implies (#[trigger] hash[i]) != '\n' by {
        assert(is_lower_hex(hash[i]));
    }
    let entry = hash + seq!['\n'] + payload;
    lemma_find_char(entry, '\n');
    assert(entry[hash.len() as int] == '\n');
    let f = find_char(entry, '\n');
    if f == -1 {
        assert(entry[hash.len() as int] != '\n');
    }
    if 0 <= f < hash.len() {
        assert(entry[f] == hash[f]);
        assert(hash[f] != '\n');
    }
    if f > hash.len() {
        assert(entry[hash.len() as int] != '\n');
    }
    assert(f == hash.len());
    assert(entry.take(hash.len() as int) =~= hash);
    assert(entry.skip(hash.len() as int + 1) =~= payload);
}

} // verus!
