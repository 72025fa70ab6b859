use vstd::prelude::*;

use rand::rngs::StdRng;

verus! {

#[verifier::external_type_specification]
#[verifier::external_body]
pub struct ExBase58DecodeError(bs58::decode::Error);

#[verifier::external_type_specification]
#[verifier::external_body]
pub struct ExFromHexError(hex::FromHexError);

#[verifier::external_type_specification]
#[verifier::external_body]
pub struct ExStdRng(rand::rngs::StdRng);

/// Why a journal id could not be parsed.
#[derive(Debug)]
pub enum JournalIdParseError {
    /// expected 16 or 32 bytes, got this many instead
    InvalidByteLength(usize),
    /// the text is not base58
    Base58Error(bs58::decode::Error),
    /// the text is not hex
    HexError(hex::FromHexError),
}

/// The value of one hex digit, upper or lower case.
pub open spec fn hex_digit_value(c: char) -> Option<int> {
    if '0' <= c && c <= '9' {
        Some(c as int - '0' as int)
    } else if 'a' <= c && c <= 'f' {
        Some(c as int - 'a' as int + 10)
    } else if 'A' <= c && c <= 'F' {
        Some(c as int - 'A' as int + 10)
    } else {
        None
    }
}

/// Text that hex decoding accepts: an even number of hex digits.
pub open spec fn is_hex_string(s: Seq<char>) -> bool {
    &&& s.len() % 2 == 0
    &&& forall|i: int| 0 <= i < s.len() ==> (#[trigger] hex_digit_value(s[i])) is Some
}

/// The bytes that a hex string denotes, two digits per byte, high digit first.
pub open spec fn hex_decode_spec(s: Seq<char>) -> Seq<u8> {
    Seq::new(
        (s.len() / 2) as nat,
        |i: int| (hex_digit_value(s[2 * i])->0 * 16 + hex_digit_value(s[2 * i + 1])->0) as u8,
    )
}

/// The lower-case hex digit for a value below 16.
pub open spec fn hex_digit_char(n: int) -> char {
    if n < 10 {
        ('0' as int + n) as char
    } else {
        ('a' as int + n - 10) as char
    }
}

/// Lower-case hex text for bytes, two digits per byte, high digit first.
pub open spec fn hex_encode_spec(b: Seq<u8>) -> Seq<char> {
    Seq::new(
        2 * b.len(),
        |i: int|
            if i % 2 == 0 {
                hex_digit_char(b[i / 2] as int / 16)
            } else {
                hex_digit_char(b[i / 2] as int % 16)
            },
    )
}

/// Hex text written by `to_hex` is read back by `from_hex`: encoding is a
/// valid hex string and decoding it gives back the bytes.
pub proof fn lemma_hex_roundtrip(b: Seq<u8>)
    ensures
        is_hex_string(hex_encode_spec(b)),
        hex_decode_spec(hex_encode_spec(b)) == b,
{
    let s = hex_encode_spec(b);
    assert forall|i: int| 0 <= i < s.len() implies (#[trigger] hex_digit_value(s[i])) is Some by {
        let v = if i % 2 == 0 { b[i / 2] as int / 16 } else { b[i / 2] as int % 16 };
        assert(0 <= v < 16);
        assert(hex_digit_value(hex_digit_char(v)) == Some(v));
    }
    assert forall|i: int| 0 <= i < b.len() implies hex_decode_spec(s)[i] == b[i] by {
        let hi = b[i] as int / 16;
        let lo = b[i] as int % 16;
        assert(hex_digit_value(hex_digit_char(hi)) == Some(hi));
        assert(hex_digit_value(hex_digit_char(lo)) == Some(lo));
        assert((2 * i) / 2 == i);
        assert((2 * i + 1) / 2 == i);
        assert((2 * i) % 2 == 0);
        assert((2 * i + 1) % 2 == 1);
    }
    assert(hex_decode_spec(s) =~= b);
}

/// The bytes that base58 text (bitcoin alphabet) decodes to, if it is
/// valid base58.
pub uninterp spec fn base58_decoded(s: Seq<char>) -> Option<Seq<u8>>;

/// The base58 text (bitcoin alphabet) that encodes the bytes.
pub uninterp spec fn base58_encoded(b: Seq<u8>) -> Seq<char>;

/// Calls `hex::decode`. Per its documentation and source, it succeeds
/// exactly on an even number of hex digits (either case) and gives two digits
/// per byte, high digit first. Which `FromHexError` comes back on failure is
/// not stated.
#[verifier::external_body]
fn hex_decode(s: &str) -> (r: Result<Vec<u8>, hex::FromHexError>)
    ensures
        match r {
            Ok(v) => is_hex_string(s@) && v@ == hex_decode_spec(s@),
            Err(_) => !is_hex_string(s@),
        },
{
    hex::decode(s)
}

/// Calls `hex::encode`: lower-case hex, two digits per byte, high digit
/// first, as its documentation states.
#[verifier::external_body]
fn hex_encode(b: &[u8]) -> (r: String)
    ensures
        r@ == hex_encode_spec(b@),
{
    hex::encode(b)
}

/// Calls `bs58::decode(..).with_alphabet(bs58::Alphabet::BITCOIN).into_vec()`.
/// The bytes it returns are named by `base58_decoded`; failure is named by
/// `base58_decoded` being `None`. Which decode error comes back is not stated.
#[verifier::external_body]
fn bs58_decode(s: &str) -> (r: Result<Vec<u8>, bs58::decode::Error>)
    ensures
        match r {
            Ok(v) => base58_decoded(s@) == Some(v@),
            Err(_) => base58_decoded(s@) is None,
        },
{
    bs58::decode(s).with_alphabet(bs58::Alphabet::BITCOIN).into_vec()
}

/// Calls `bs58::encode(..).with_alphabet(bs58::Alphabet::BITCOIN).into_string()`;
/// the text is named by `base58_encoded`.
#[verifier::external_body]
fn bs58_encode(b: &[u8]) -> (r: String)
    ensures
        r@ == base58_encoded(b@),
{
    bs58::encode(b).with_alphabet(bs58::Alphabet::BITCOIN).into_string()
}

/// Fills 16 bytes from `rng` with `rand::Rng::fill`. For `StdRng` the
/// call cannot fail: `fill` goes through `Fill::try_fill` for `[u8]` to
/// `StdRng::try_fill_bytes`, which is ChaCha's block RNG, whose
/// `try_fill_bytes` fills the buffer and returns `Ok`. Nothing is stated of
/// the bytes: they are random.
#[verifier::external_body]
fn random_bytes_128(rng: &mut StdRng) -> [u8; 16] {
    let mut data = [0u8; 16];
    rand::Rng::fill(rng, &mut data);
    data
}

/// Fills 32 bytes from `rng` with `rand::Rng::fill`, which cannot fail for
/// `StdRng` (see `random_bytes_128`). Nothing is stated of the bytes: they
/// are random.
#[verifier::external_body]
fn random_bytes_256(rng: &mut StdRng) -> [u8; 32] {
    let mut data = [0u8; 32];
    rand::Rng::fill(rng, &mut data);
    data
}

/// A journal identifier: 16 or 32 random bytes.
#[derive(Clone, Copy, PartialEq, Eq, Debug, Hash)]
pub enum JournalId {
    Size128([u8; 16]),
    Size256([u8; 32]),
}

impl JournalId {
    pub open spec fn bytes_view(self) -> Seq<u8> {
        match self {
            JournalId::Size128(data) => data@,
            JournalId::Size256(data) => data@,
        }
    }

    pub fn new128(rng: &mut StdRng) -> (id: Self)
        ensures
            id is Size128,
            id.bytes_view().len() == 16,
    {
        JournalId::Size128(random_bytes_128(rng))
    }

    pub fn new256(rng: &mut StdRng) -> (id: Self)
        ensures
            id is Size256,
            id.bytes_view().len() == 32,
    {
        JournalId::Size256(random_bytes_256(rng))
    }

    /// Builds an id from its raw bytes, which must number 16 or 32.
    pub fn try_from(value: &[u8]) -> (r: Result<JournalId, JournalIdParseError>)
        ensures
            match r {
                Ok(id) => {
                    &&& id.bytes_view() == value@
                    &&& value.len() == 16 ==> id is Size128
                    &&& value.len() == 32 ==> id is Size256
                },
                Err(e) => {
                    &&& value.len() != 16
                    &&& value.len() != 32
                    &&& e matches JournalIdParseError::InvalidByteLength(n) && n == value.len()
                },
            },
    {
        if value.len() == 16 {
            let mut data = [0u8; 16];
            let mut i: usize = 0;
            while i < 16
                invariant
                    value@.len() == 16,
                    0 <= i <= 16,
                    forall|k: int| 0 <= k < i ==> data@[k] == value@[k],
                decreases 16 - i,
            {
                data[i] = value[i];
                i = i + 1;
            }
            assert(data@ =~= value@);
            Ok(JournalId::Size128(data))
        } else if value.len() == 32 {
            let mut data = [0u8; 32];
            let mut i: usize = 0;
            while i < 32
                invariant
                    value@.len() == 32,
                    0 <= i <= 32,
                    forall|k: int| 0 <= k < i ==> data@[k] == value@[k],
                decreases 32 - i,
            {
                data[i] = value[i];
                i = i + 1;
            }
            assert(data@ =~= value@);
            Ok(JournalId::Size256(data))
        } else {
            Err(JournalIdParseError::InvalidByteLength(value.len()))
        }
    }

    pub fn from_base58(str: &str) -> (r: Result<JournalId, JournalIdParseError>)
        ensures
            match r {
                Ok(id) => base58_decoded(str@) == Some(id.bytes_view()),
                Err(JournalIdParseError::InvalidByteLength(n)) => {
                    &&& base58_decoded(str@) is Some
                    &&& base58_decoded(str@)->0.len() == n
                    &&& n != 16
                    &&& n != 32
                },
                Err(JournalIdParseError::Base58Error(_)) => base58_decoded(str@) is None,
                Err(JournalIdParseError::HexError(_)) => false,
            },
    {
        match bs58_decode(str) {
            Ok(data) => JournalId::try_from(data.as_slice()),
            Err(e) => Err(JournalIdParseError::Base58Error(e)),
        }
    }

    pub fn to_base58(&self) -> (r: String)
        ensures
            r@ == base58_encoded(self.bytes_view()),
    {
        bs58_encode(self.bytes())
    }

    pub fn from_hex(str: &str) -> (r: Result<JournalId, JournalIdParseError>)
        ensures
            match r {
                Ok(id) => is_hex_string(str@) && hex_decode_spec(str@) == id.bytes_view(),
                Err(JournalIdParseError::InvalidByteLength(n)) => {
                    &&& is_hex_string(str@)
                    &&& n == str@.len() / 2
                    &&& n != 16
                    &&& n != 32
                },
                Err(JournalIdParseError::HexError(_)) => !is_hex_string(str@),
                Err(JournalIdParseError::Base58Error(_)) => false,
            },
    {
        match hex_decode(str) {
            Ok(data) => JournalId::try_from(data.as_slice()),
            Err(e) => Err(JournalIdParseError::HexError(e)),
        }
    }

    pub fn to_hex(&self) -> (r: String)
        ensures
            r@ == hex_encode_spec(self.bytes_view()),
    {
        hex_encode(self.bytes())
    }

    pub fn bytes(&self) -> (r: &[u8])
        ensures
            r@ == self.bytes_view(),
    {
        match self {
            JournalId::Size128(data) => data.as_slice(),
            JournalId::Size256(data) => data.as_slice(),
        }
    }

    /// Compares two ids byte for byte (the same comparison as `==`).
    pub fn same_id(&self, other: &JournalId) -> (r: bool)
        ensures
            r == (*self == *other),
    {
        let a = self.bytes();
        let b = other.bytes();
        if a.len() != b.len() {
            proof {
                if *self == *other {
                    assert(false);
                }
            }
            return false;
        }
        let mut i: usize = 0;
        while i < a.len()
            invariant
                a@ == self.bytes_view(),
                b@ == other.bytes_view(),
                a.len() == b.len(),
                0 <= i <= a.len(),
                forall|k: int| 0 <= k < i ==> a@[k] == b@[k],
            decreases a.len() - i,
        {
            if a[i] != b[i] {
                return false;
            }
            i = i + 1;
        }
        proof {
            assert(a@ =~= b@);
            match (*self, *other) {
                (JournalId::Size128(x), JournalId::Size128(y)) => {
                    assert(x =~= y);
                },
                (JournalId::Size256(x), JournalId::Size256(y)) => {
                    assert(x =~= y);
                },
                _ => {},
            }
        }
        true
    }
}

} // verus!
