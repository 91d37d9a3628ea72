//! 32-byte BLAKE3 content hashes, as used for chunk and object keys.

use vstd::prelude::*;
use crate::hex::{hex_digit, hex_of};

verus! {

broadcast use vstd::array::group_array_axioms;

/// What `blake3::hash` returns for the given input bytes.
pub uninterp spec fn blake3_of(data: Seq<u8>) -> Seq<u8>;

/// Calls `blake3::hash` and returns the 32 digest bytes. The digest is a
/// function of the input alone; nothing else is claimed about it.
#[verifier::external_body]
fn blake3_digest(data: &[u8]) -> (out: [u8; 32])
    ensures
        out@ == blake3_of(data@),
{
    *blake3::hash(data).as_bytes()
}

/// A content hash: the 32 bytes of a BLAKE3 digest.
#[derive(Clone, Copy, Debug)]
pub struct Hash(pub [u8; 32]);

impl PartialEq for Hash {
    fn eq(&self, other: &Self) -> (r: bool) {
        let mut i: usize = 0;
        while i < 32
            invariant
                i <= 32,
                forall|j: int| 0 <= j < i ==> self.0@[j] == other.0@[j],
            decreases 32 - i,
        {
            if self.0[i] != other.0[i] {
                return false;
            }
            i = i + 1;
        }
        assert(self.0@ =~= other.0@);
        true
    }
}

impl Eq for Hash {}

impl vstd::std_specs::cmp::PartialEqSpecImpl for Hash {
    open spec fn obeys_eq_spec() -> bool {
        true
    }

    open spec fn eq_spec(&self, other: &Self) -> bool {
        self.0@ == other.0@
    }
}

/// `c` is an ASCII hexadecimal digit (either case).
pub open spec fn is_hex_char(c: char) -> bool {
    ('0' <= c && c <= '9') || ('a' <= c && c <= 'f') || ('A' <= c && c <= 'F')
}

/// The value of a hexadecimal digit.
pub open spec fn hex_val(c: char) -> int {
    if '0' <= c && c <= '9' {
        c as int - 48
    } else if 'a' <= c && c <= 'f' {
        c as int - 87
    } else {
        c as int - 55
    }
}

/// `s` is exactly 64 hexadecimal digits.
pub open spec fn is_hash_hex(s: Seq<char>) -> bool {
    s.len() == 64 && forall|i: int| 0 <= i < 64 ==> #[trigger] is_hex_char(s[i])
}

/// The 32 bytes that 64 hex digits spell, high nibble first.
pub open spec fn unhex(s: Seq<char>) -> Seq<u8> {
    Seq::new(32, |i: int| (hex_val(s[2 * i]) * 16 + hex_val(s[2 * i + 1])) as u8)
}

/// Why a string is not a hash.
#[derive(Clone, Copy, Debug, PartialEq, Eq)]
pub enum HashParseError {
    /// The string does not hold exactly 64 characters.
    BadLength,
    /// A character is not a hexadecimal digit.
    BadDigit,
}

/// Character index `i` of `hex_of(b)` is a digit of byte `i / 2`.
pub proof fn lemma_hex_of_index(b: Seq<u8>)
    ensures
        hex_of(b).len() == 2 * b.len(),
        forall|i: int|
            0 <= i < b.len() ==> #[trigger] hex_of(b)[2 * i] == hex_digit(b[i] as int / 16)
                && hex_of(b)[2 * i + 1] == hex_digit(b[i] as int % 16),
    decreases b.len(),
{
    if b.len() > 0 {
        lemma_hex_of_index(b.drop_last());
        assert forall|i: int| 0 <= i < b.len() implies #[trigger] hex_of(b)[2 * i] == hex_digit(
            b[i] as int / 16,
        ) && hex_of(b)[2 * i + 1] == hex_digit(b[i] as int % 16) by {
            if i < b.len() - 1 {
                assert(b.drop_last()[i] == b[i]);
            }
        }
    }
}

proof fn lemma_hex_digit_roundtrip(n: int)
    requires
        0 <= n < 16,
    ensures
        is_hex_char(hex_digit(n)),
        hex_val(hex_digit(n)) == n,
{
}

fn hex_char_value(c: char) -> (r: Option<u8>)
    ensures
        r is Some <==> is_hex_char(c),
        r matches Some(v) ==> v as int == hex_val(c) && v < 16,
{
    if '0' <= c && c <= '9' {
        Some(((c as u32) - 48) as u8)
    } else if 'a' <= c && c <= 'f' {
        Some(((c as u32) - 87) as u8)
    } else if 'A' <= c && c <= 'F' {
        Some(((c as u32) - 55) as u8)
    } else {
        None
    }
}

impl Hash {
    /// The BLAKE3 hash of `data`.
    pub fn of(data: &[u8]) -> (h: Hash)
        ensures
            h.0@ == blake3_of(data@),
    {
        Hash(blake3_digest(data))
    }

    /// Lowercase hex form, 64 characters.
    pub fn to_hex(&self) -> (s: String)
        ensures
            s@ == hex_of(self.0@),
            s@.len() == 64,
    {
        proof {
            lemma_hex_of_index(self.0@);
        }
        crate::hex::encode(self.0.as_slice())
    }

    /// Parse 64 hex digits (either case) into a hash.
    pub fn from_hex(s: &str) -> (r: Result<Hash, HashParseError>)
        ensures
            r is Ok <==> is_hash_hex(s@),
            r matches Ok(h) ==> h.0@ == unhex(s@),
            r == Err::<Hash, _>(HashParseError::BadLength) <==> s@.len() != 64,
    {
        let n: usize = s.unicode_len();
        if n != 64 {
            return Err(HashParseError::BadLength);
        }
        let mut out = [0u8; 32];
        let mut i: usize = 0;
        while i < 32
            invariant
                i <= 32,
                s@.len() == 64,
                forall|j: int| 0 <= j < 2 * i ==> #[trigger] is_hex_char(s@[j]),
                forall|j: int| 0 <= j < i ==> out@[j] == unhex(s@)[j],
            decreases 32 - i,
        {
            let hi = hex_char_value(s.get_char(2 * i));
            let lo = hex_char_value(s.get_char(2 * i + 1));
            match (hi, lo) {
                (Some(h), Some(l)) => {
                    out[i] = h * 16 + l;
                },
                _ => {
                    assert(!is_hash_hex(s@)) by {
                        if hi is None {
                            assert(!is_hex_char(s@[2 * i as int]));
                        } else {
                            assert(!is_hex_char(s@[2 * i as int + 1]));
                        }
                    }
                    return Err(HashParseError::BadDigit);
                },
            }
            i = i + 1;
        }
        assert(out@ =~= unhex(s@));
        Ok(Hash(out))
    }
}

/// Parsing the hex form of 32 bytes gives those bytes back.
pub proof fn lemma_unhex_hex(b: Seq<u8>)
    requires
        b.len() == 32,
    ensures
        is_hash_hex(hex_of(b)),
        unhex(hex_of(b)) == b,
{
    lemma_hex_of_index(b);
    assert forall|i: int| 0 <= i < 64 implies #[trigger] is_hex_char(hex_of(b)[i]) by {
        let j = i / 2;
        if i % 2 == 0 {
            assert(i == 2 * j);
            assert(hex_of(b)[2 * j] == hex_digit(b[j] as int / 16));
            lemma_hex_digit_roundtrip(b[j] as int / 16);
        } else {
            assert(i == 2 * j + 1);
            assert(hex_of(b)[2 * j] == hex_digit(b[j] as int / 16));
            lemma_hex_digit_roundtrip(b[j] as int % 16);
        }
    }
    assert forall|j: int| 0 <= j < 32 implies #[trigger] unhex(hex_of(b))[j] == b[j] by {
        lemma_hex_digit_roundtrip(b[j] as int / 16);
        lemma_hex_digit_roundtrip(b[j] as int % 16);
    }
    assert(unhex(hex_of(b)) =~= b);
}

/// Parsing the hex form of a hash gives the hash back.
pub proof fn lemma_from_hex_to_hex(h: Hash)
    ensures
        is_hash_hex(hex_of(h.0@)),
        unhex(hex_of(h.0@)) == h.0@,
{
    lemma_unhex_hex(h.0@);
}

} // verus!
