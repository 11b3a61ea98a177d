//! SHA-256 and SHA-512 digests, their lower-case hexadecimal form, and
//! `ShaSum`, a SHA-512 sum that parses from and prints to 128 hexadecimal
//! digits.
use crate::text::string_of;
use vstd::prelude::*;
use vstd::utf8::{encode_utf8, is_ascii_chars, is_ascii_chars_encode_utf8};

verus! {

/// The SHA-256 digest of `data`, as computed by the `sha2` crate.
pub uninterp spec fn sha256_of(data: Seq<u8>) -> Seq<u8>;

/// Calls `sha2::Sha256::digest`; its result is the SHA-256 digest of
/// `data`, 32 bytes long (FIPS 180-4, as the crate documents).
#[verifier::external_body]
pub fn sha256_digest(data: &[u8]) -> (r: Vec<u8>)
    ensures
        r@ == sha256_of(data@),
        r@.len() == 32,
{
    <sha2::Sha256 as sha2::Digest>::digest(data).to_vec()
}

/// The SHA-512 digest of `data`, as computed by the `sha2` crate.
pub uninterp spec fn sha512_of(data: Seq<u8>) -> Seq<u8>;

/// Calls `sha2::Sha512::digest`; its result is the SHA-512 digest of
/// `data`, 64 bytes long (FIPS 180-4, as the crate documents).
#[verifier::external_body]
pub fn sha512_digest(data: &[u8]) -> (r: Vec<u8>)
    ensures
        r@ == sha512_of(data@),
        r@.len() == 64,
{
    <sha2::Sha512 as sha2::Digest>::digest(data).to_vec()
}

/// The lower-case hexadecimal digit for `n < 16`.
pub open spec fn hex_char(n: u8) -> char {
    if n < 10 {
        ('0' as u8 + n) as char
    } else {
        ('a' as u8 + (n - 10)) as char
    }
}

/// Two lower-case hexadecimal digits per byte, high nibble first.
pub open spec fn hex_lower(b: Seq<u8>) -> Seq<char> {
    Seq::new(
        2 * b.len(),
        |i: int|
            if i % 2 == 0 {
                hex_char(b[i / 2] / 16)
            } else {
                hex_char(b[i / 2] % 16)
            },
    )
}

/// Every character of a hexadecimal form is a lower-case hexadecimal digit,
/// and there are two per byte.
pub proof fn lemma_hex_lower_digits(b: Seq<u8>)
    ensures
        hex_lower(b).len() == 2 * b.len(),
        forall|i: int| 0 <= i < 2 * b.len() ==> crate::text::is_lower_hex(#[trigger] hex_lower(b)[i]),
{
    assert forall|i: int| 0 <= i < 2 * b.len() implies crate::text::is_lower_hex(#[trigger] hex_lower(b)[i]) by {
        let x = b[i / 2];
        let n: u8 = if i % 2 == 0 { x / 16 } else { x % 16 };
        assert(n < 16);
        assert(hex_lower(b)[i] == hex_char(n));
    }
}

/// The value of a hexadecimal digit, upper or lower case.
pub open spec fn hex_value(c: u8) -> Option<u8> {
    if 48 <= c <= 57 {
        Some((c - 48) as u8)
    } else if 97 <= c <= 102 {
        Some((c - 97 + 10) as u8)
    } else if 65 <= c <= 70 {
        Some((c - 65 + 10) as u8)
    } else {
        None
    }
}

fn digit(n: u8) -> (c: char)
    requires
        n < 16,
    ensures
        c == hex_char(n),
        '\0' <= c <= '\u{7f}',
{
    if n < 10 {
        ((48u8 + n) as char)
    } else {
        ((97u8 + (n - 10)) as char)
    }
}

/// The lower-case hexadecimal form of `b`.
pub fn hex_encode(b: &[u8]) -> (s: String)
    ensures
        s@ == hex_lower(b@),
        is_ascii_chars(s@),
{
    let mut v: Vec<char> = Vec::new();
    let mut i: usize = 0;
    while i < b.len()
        invariant
            i <= b@.len(),
            v@.len() == 2 * i,
            forall|j: int| 0 <= j < 2 * i ==> v@[j] == #[trigger] hex_lower(b@)[j],
            is_ascii_chars(v@),
        decreases b@.len() - i,
    {
        let x = b[i];
        v.push(digit(x / 16));
        v.push(digit(x % 16));
        proof {
            assert(hex_lower(b@)[2 * i] == hex_char(x / 16));
            assert(hex_lower(b@)[2 * i + 1] == hex_char(x % 16));
        }
        i = i + 1;
    }
    proof {
        assert(v@ =~= hex_lower(b@));
    }
    string_of(v.as_slice())
}

/// The lower-case hexadecimal SHA-256 digest of `bytes`: 64 characters.
pub fn sha256_hex(bytes: &[u8]) -> (s: String)
    ensures
        s@ == hex_lower(sha256_of(bytes@)),
        s@.len() == 64,
{
    let d = sha256_digest(bytes);
    hex_encode(d.as_slice())
}

/// A SHA-512 sum, the content hash of a resource.
#[derive(Debug, Clone, Copy, PartialEq, Eq, PartialOrd, Ord, Hash)]
pub struct ShaSum(pub [u8; 64]);

/// Why a text is not a SHA-512 sum.
#[derive(Debug, Clone, Copy, PartialEq, Eq, Structural)]
pub enum ShaParseError {
    Length,
    Hex,
}

impl ShaParseError {
    /// The message shown for the error.
    pub fn message(&self) -> (m: String)
        ensures
            m@ == match self {
                ShaParseError::Length => "invalid sha512 sum: expected 128 hex digits"@,
                ShaParseError::Hex => "invalid sha512 sum: invalid hex digit"@,
            },
    {
        match self {
            ShaParseError::Length => crate::text::owned("invalid sha512 sum: expected 128 hex digits"),
            ShaParseError::Hex => crate::text::owned("invalid sha512 sum: invalid hex digit"),
        }
    }
}

/// The bytes that 128 hexadecimal digits spell, or why they do not.
pub open spec fn parse_sha_spec(t: Seq<u8>) -> Result<Seq<u8>, ShaParseError> {
    if t.len() != 128 {
        Err(ShaParseError::Length)
    } else if exists|i: int| 0 <= i < 128 && (#[trigger] hex_value(t[i])) is None {
        Err(ShaParseError::Hex)
    } else {
        Ok(
            Seq::new(
                64,
                |i: int| (hex_value(t[2 * i])->0 * 16 + hex_value(t[2 * i + 1])->0) as u8,
            ),
        )
    }
}

/// The value of a hexadecimal digit.
pub fn hex(value: u8) -> (r: Result<u8, ShaParseError>)
    ensures
        match r {
            Ok(n) => hex_value(value) == Some(n) && n < 16,
            Err(e) => hex_value(value) is None && e == ShaParseError::Hex,
        },
{
    if 48 <= value && value <= 57 {
        Ok(value - 48)
    } else if 97 <= value && value <= 102 {
        Ok(value - 97 + 10)
    } else if 65 <= value && value <= 70 {
        Ok(value - 65 + 10)
    } else {
        Err(ShaParseError::Hex)
    }
}

impl ShaSum {
    pub fn as_bytes(&self) -> (b: &[u8; 64])
        ensures
            b@ == self.0@,
    {
        &self.0
    }

    /// Parses 128 hexadecimal digits of either case.
    pub fn parse(value: &str) -> (r: Result<ShaSum, ShaParseError>)
        ensures
            match r {
                Ok(s) => parse_sha_spec(encode_utf8(value@)) == Ok::<Seq<u8>, ShaParseError>(s.0@),
                Err(e) => parse_sha_spec(encode_utf8(value@)) == Err::<Seq<u8>, ShaParseError>(e),
            },
    {
        let t = value.as_bytes();
        if t.len() != 128 {
            return Err(ShaParseError::Length);
        }
        let mut bytes = [0u8; 64];
        let mut i: usize = 0;
        while i < 64
            invariant
                t@ == encode_utf8(value@),
                t@.len() == 128,
                i <= 64,
                forall|j: int| 0 <= j < 2 * i ==> (#[trigger] hex_value(t@[j])) is Some,
                forall|j: int|
                    0 <= j < i ==> #[trigger] bytes@[j] == (hex_value(t@[2 * j])->0 * 16 + hex_value(
                        t@[2 * j + 1],
                    )->0) as u8,
            decreases 64 - i,
        {
            let hi = match hex(t[2 * i]) {
                Ok(n) => n,
                Err(e) => {
                    return Err(e);
                },
            };
            let lo = match hex(t[2 * i + 1]) {
                Ok(n) => n,
                Err(e) => {
                    return Err(e);
                },
            };
            bytes[i] = hi * 16 + lo;
            i = i + 1;
        }
        proof {
            assert(!exists|j: int| 0 <= j < 128 && (#[trigger] hex_value(t@[j])) is None);
            assert(bytes@ =~= Seq::new(
                64,
                |j: int| (hex_value(t@[2 * j])->0 * 16 + hex_value(t@[2 * j + 1])->0) as u8,
            ));
        }
        Ok(ShaSum(bytes))
    }

    /// The 128 lower-case hexadecimal digits of the sum.
    pub fn to_string(&self) -> (s: String)
        ensures
            s@ == hex_lower(self.0@),
            s@.len() == 128,
    {
        hex_encode(self.0.as_slice())
    }
}

/// What `to_string` prints, `parse` reads back: the printed form of a sum
/// parses to the same sum.
pub proof fn lemma_sha_text_round_trip(s: ShaSum)
    ensures
        parse_sha_spec(encode_utf8(hex_lower(s.0@))) == Ok::<Seq<u8>, ShaParseError>(s.0@),
{
    let h = hex_lower(s.0@);
    assert(is_ascii_chars(h)) by {
        assert forall|i: int| 0 <= i < h.len() implies '\0' <= #[trigger] h[i] <= '\u{7f}' by {
            let b = s.0@[i / 2];
            if i % 2 == 0 {
                assert(b / 16 < 16);
            } else {
                assert(b % 16 < 16);
            }
        }
    }
    is_ascii_chars_encode_utf8(h);
    let t = encode_utf8(h);
    assert forall|i: int| 0 <= i < 128 implies (#[trigger] hex_value(t[i])) is Some && hex_value(t[i])->0 == if i % 2 == 0 {
        s.0@[i / 2] / 16
    } else {
        s.0@[i / 2] % 16
    } by {
        assert(h[i] as u8 == t[i]);
        let b = s.0@[i / 2];
        if i % 2 == 0 {
            assert(b / 16 < 16);
        } else {
            assert(b % 16 < 16);
        }
    }
    assert forall|j: int| 0 <= j < 64 implies (hex_value(t[2 * j])->0 * 16 + hex_value(t[2 * j + 1])->0) as u8
        == #[trigger] s.0@[j] by {
        assert(hex_value(t[2 * j])->0 == s.0@[j] / 16);
        assert(hex_value(t[2 * j + 1])->0 == s.0@[j] % 16);
    }
    assert(Seq::new(64, |j: int| (hex_value(t[2 * j])->0 * 16 + hex_value(t[2 * j + 1])->0) as u8) =~= s.0@);
}

/// A hexadecimal digit of either case.
pub open spec fn is_hex_digit(c: char) -> bool {
    ('0' <= c <= '9') || ('a' <= c <= 'f') || ('A' <= c <= 'F')
}

/// `t` with its upper-case ASCII letters in lower case.
pub open spec fn ascii_lowercase(t: Seq<char>) -> Seq<char> {
    t.map_values(|c: char| if 'A' <= c <= 'Z' { ((c as u8) + 32) as char } else { c })
}

/// What `parse` reads, `to_string` prints in lower case: 128 hexadecimal
/// digits of either case parse to a sum whose printed form is those digits
/// lower-cased.
pub proof fn lemma_sha_parse_prints_lowercase(t: Seq<char>)
    requires
        t.len() == 128,
        forall|i: int| 0 <= i < 128 ==> is_hex_digit(#[trigger] t[i]),
    ensures
        parse_sha_spec(encode_utf8(t)) is Ok,
        hex_lower(parse_sha_spec(encode_utf8(t))->Ok_0) == ascii_lowercase(t),
{
    assert(is_ascii_chars(t)) by {
        assert forall|i: int| 0 <= i < t.len() implies '\0' <= #[trigger] t[i] <= '\u{7f}' by {
            assert(is_hex_digit(t[i]));
        }
    }
    is_ascii_chars_encode_utf8(t);
    let e = encode_utf8(t);
    assert forall|i: int| 0 <= i < 128 implies (#[trigger] hex_value(e[i])) is Some && hex_char(hex_value(e[i])->0)
        == ascii_lowercase(t)[i] && hex_value(e[i])->0 < 16 by {
        assert(t[i] as u8 == e[i]);
        assert(is_hex_digit(t[i]));
    }
    assert(!exists|i: int| 0 <= i < 128 && (#[trigger] hex_value(e[i])) is None);
    let b = parse_sha_spec(e)->Ok_0;
    assert forall|i: int| 0 <= i < 128 implies #[trigger] hex_lower(b)[i] == ascii_lowercase(t)[i] by {
        let j = i / 2;
        let hi = hex_value(e[2 * j])->0;
        let lo = hex_value(e[2 * j + 1])->0;
        assert(hex_value(e[2 * j]) is Some && hi < 16);
        assert(hex_value(e[2 * j + 1]) is Some && lo < 16);
        assert(b[j] == (hi * 16 + lo) as u8);
        assert((hi * 16 + lo) / 16 == hi && (hi * 16 + lo) % 16 == lo) by (nonlinear_arith)
            requires
                hi < 16,
                lo < 16,
        ;
        if i % 2 == 0 {
            assert(2 * j == i);
        } else {
            assert(2 * j + 1 == i);
        }
    }
    assert(hex_lower(b) =~= ascii_lowercase(t));
}


impl std::str::FromStr for ShaSum {
    type Err = ShaParseError;

    fn from_str(value: &str) -> (r: Result<Self, Self::Err>)
        ensures
            match r {
                Ok(s) => parse_sha_spec(encode_utf8(value@)) == Ok::<Seq<u8>, ShaParseError>(s.0@),
                Err(e) => parse_sha_spec(encode_utf8(value@)) == Err::<Seq<u8>, ShaParseError>(e),
            },
    {
        ShaSum::parse(value)
    }
}

} // verus!
