//! Hex byte strings as the patcher takes them: decorations (spaces, commas,
//! `0x`/`0X` prefixes) are stripped, and `??` stands for a wildcard byte.

use vstd::prelude::*;
use vstd::utf8::encode_utf8;

use crate::search::Pattern;
use crate::text::push_char;

verus! {

/// Why a hex pattern could not be decoded.
#[derive(Clone, Debug, PartialEq, Eq, Structural)]
pub enum PatternError {
    /// The cleaned string has an odd number of bytes.
    OddLength,
    /// The two bytes at `offset` of the cleaned string are neither `??` nor a
    /// hex byte.
    InvalidHex { offset: usize, first: u8, second: u8 },
}

/// Why `hex::decode` refused its input (the cases of `hex::FromHexError`).
#[derive(Clone, Debug, PartialEq, Eq, Structural)]
pub enum HexDecodeError {
    /// The byte at `index` is not a hex digit; `c` is that byte as a char.
    InvalidHexCharacter { c: char, index: usize },
    /// The input has an odd number of bytes.
    OddLength,
    /// The input does not fit the fixed-size output.
    InvalidStringLength,
}

pub open spec fn is_separator(c: char) -> bool {
    c == ' ' || c == ','
}

/// `cs` with every space and comma removed.
pub open spec fn drop_separators(cs: Seq<char>) -> Seq<char>
    decreases cs.len(),
{
    if cs.len() == 0 {
        seq![]
    } else if is_separator(cs[0]) {
        drop_separators(cs.drop_first())
    } else {
        seq![cs[0]] + drop_separators(cs.drop_first())
    }
}

/// `cs` with the two-character string `ab` removed wherever it occurs,
/// scanning left to right without overlap (what `str::replace(.., "")` does).
pub open spec fn strip_pair(cs: Seq<char>, a: char, b: char) -> Seq<char>
    decreases cs.len(),
{
    if cs.len() < 2 {
        cs
    } else if cs[0] == a && cs[1] == b {
        strip_pair(cs.skip(2), a, b)
    } else {
        seq![cs[0]] + strip_pair(cs.drop_first(), a, b)
    }
}

/// A hex string with its decorations removed: spaces and commas first, then
/// every `0x`, then every `0X`.
pub open spec fn cleaned_hex(cs: Seq<char>) -> Seq<char> {
    strip_pair(strip_pair(drop_separators(cs), '0', 'x'), '0', 'X')
}

/// The UTF-8 bytes of the cleaned string.
pub open spec fn cleaned_bytes(cs: Seq<char>) -> Seq<u8> {
    encode_utf8(cleaned_hex(cs))
}

/// The value of a hex digit (either case).
pub open spec fn hex_value(c: u8) -> Option<u8> {
    if 48 <= c <= 57 {
        Some((c - 48) as u8)
    } else if 65 <= c <= 70 {
        Some((c - 55) as u8)
    } else if 97 <= c <= 102 {
        Some((c - 87) as u8)
    } else {
        None
    }
}

/// `u8::from_str_radix` in base 16 on a two-byte string: an optional leading
/// `+`, then only hex digits.
pub open spec fn radix16_pair(a: u8, b: u8) -> Option<u8> {
    if a == 43 {
        hex_value(b)
    } else {
        match (hex_value(a), hex_value(b)) {
            (Some(x), Some(y)) => Some((x * 16 + y) as u8),
            _ => None,
        }
    }
}

/// The pattern element spelled by two bytes: `??`, or a hex byte.
pub open spec fn pair_element(a: u8, b: u8) -> Option<Pattern> {
    if a == 63 && b == 63 {
        Some(Pattern::Wildcard)
    } else {
        match radix16_pair(a, b) {
            Some(v) => Some(Pattern::Byte(v)),
            None => None,
        }
    }
}

/// The pattern spelled by the byte pairs of `b` from offset `i` on.
pub open spec fn decode_pairs(b: Seq<u8>, i: int) -> Result<Seq<Pattern>, PatternError>
    decreases b.len() - i,
{
    if i < 0 || i + 2 > b.len() {
        Ok(seq![])
    } else {
        match pair_element(b[i], b[i + 1]) {
            None => Err(PatternError::InvalidHex { offset: i as usize, first: b[i], second: b[i + 1] }),
            Some(p) => match decode_pairs(b, i + 2) {
                Ok(rest) => Ok(seq![p] + rest),
                Err(e) => Err(e),
            },
        }
    }
}

/// The pattern spelled by a cleaned hex string.
pub open spec fn decode_pattern_spec(b: Seq<u8>) -> Result<Seq<Pattern>, PatternError> {
    if b.len() % 2 == 1 {
        Err(PatternError::OddLength)
    } else {
        decode_pairs(b, 0)
    }
}

/// The ASCII code of the hex digit for `v` (below 16): `0`-`9`, then `a`-`f`
/// or, with `upper`, `A`-`F`.
pub open spec fn digit_code(v: u8, upper: bool) -> u8 {
    if v < 10 {
        (48 + v) as u8
    } else if upper {
        (55 + v) as u8
    } else {
        (87 + v) as u8
    }
}

/// Law of [`decode_hex_pattern`] and [`decode_hex`]: every byte spelled as
/// two hex digits, high half first, in either case, decodes to exactly that
/// byte.
pub proof fn lemma_hex_byte_roundtrip(b: u8, upper: bool)
    ensures
        decode_pattern_spec(seq![digit_code(b / 16, upper), digit_code(b % 16, upper)])
            == Ok::<Seq<Pattern>, PatternError>(seq![Pattern::Byte(b)]),
        hex_decode_spec(seq![digit_code(b / 16, upper), digit_code(b % 16, upper)])
            == Ok::<Seq<u8>, HexDecodeError>(seq![b]),
{
    let hi = b / 16;
    let lo = b % 16;
    let s = seq![digit_code(hi, upper), digit_code(lo, upper)];
    assert(hex_value(digit_code(hi, upper)) == Some(hi));
    assert(hex_value(digit_code(lo, upper)) == Some(lo));
    assert(hi * 16 + lo == b);
    assert(s.len() == 2);
    assert(decode_pairs(s, 2) == Ok::<Seq<Pattern>, PatternError>(seq![]));
    assert(hex_pairs(s, 2) == Ok::<Seq<u8>, HexDecodeError>(seq![]));
    assert(seq![Pattern::Byte(b)] + Seq::<Pattern>::empty() =~= seq![Pattern::Byte(b)]);
    assert(seq![b] + Seq::<u8>::empty() =~= seq![b]);
}

/// Law of [`decode_hex_pattern`]: `??` is one wildcard, and a string of an
/// odd number of bytes is refused as such.
pub proof fn lemma_wildcard_and_odd(b: Seq<u8>)
    ensures
        decode_pattern_spec(seq![63u8, 63u8]) == Ok::<Seq<Pattern>, PatternError>(seq![Pattern::Wildcard]),
        b.len() % 2 == 1 ==> decode_pattern_spec(b) == Err::<Seq<Pattern>, PatternError>(PatternError::OddLength),
{
    let s = seq![63u8, 63u8];
    assert(decode_pairs(s, 2) == Ok::<Seq<Pattern>, PatternError>(seq![]));
    assert(seq![Pattern::Wildcard] + Seq::<Pattern>::empty() =~= seq![Pattern::Wildcard]);
}

/// A byte that begins a UTF-8 encoded character (is no continuation byte).
pub open spec fn starts_char(b: u8) -> bool {
    !(0x80 <= b < 0xC0)
}

/// Every pair that decoding reaches lies on character boundaries (slicing
/// the string there panics otherwise).
pub open spec fn pairs_sliceable(b: Seq<u8>, i: int) -> bool
    decreases b.len() - i,
{
    if i < 0 || i + 2 > b.len() {
        true
    } else {
        &&& starts_char(b[i])
        &&& (i + 2 == b.len() || starts_char(b[i + 2]))
        &&& (pair_element(b[i], b[i + 1]) is None || pairs_sliceable(b, i + 2))
    }
}

/// `hex::decode` of the bytes of `b` from offset `i` on (an even count).
pub open spec fn hex_pairs(b: Seq<u8>, i: int) -> Result<Seq<u8>, HexDecodeError>
    decreases b.len() - i,
{
    if i < 0 || i + 2 > b.len() {
        Ok(seq![])
    } else {
        match (hex_value(b[i]), hex_value(b[i + 1])) {
            (None, _) => Err(HexDecodeError::InvalidHexCharacter { c: b[i] as char, index: i as usize }),
            (Some(_), None) => Err(
                HexDecodeError::InvalidHexCharacter { c: b[i + 1] as char, index: (i + 1) as usize },
            ),
            (Some(x), Some(y)) => match hex_pairs(b, i + 2) {
                Ok(rest) => Ok(seq![(x * 16 + y) as u8] + rest),
                Err(e) => Err(e),
            },
        }
    }
}

/// What `hex::decode` returns for the bytes `b`: an error on an odd count,
/// else the first non-hex byte in order, else the decoded bytes.
pub open spec fn hex_decode_spec(b: Seq<u8>) -> Result<Seq<u8>, HexDecodeError> {
    if b.len() % 2 == 1 {
        Err(HexDecodeError::OddLength)
    } else {
        hex_pairs(b, 0)
    }
}

/// `hex::decode`.  Trusted: the crate checks for an odd length first, then
/// decodes two digits per byte (either case) and stops at the first byte that
/// is no hex digit, in order, reporting it and its index.  Its error is
/// turned into the library's own enum, one variant for one variant.
#[verifier::external_body]
pub(crate) fn hex_decode(data: &[u8]) -> (r: Result<Vec<u8>, HexDecodeError>)
    ensures
        match r {
            Ok(v) => hex_decode_spec(data@) == Ok::<Seq<u8>, HexDecodeError>(v@),
            Err(e) => hex_decode_spec(data@) == Err::<Seq<u8>, HexDecodeError>(e),
        },
{
    match hex::decode(data) {
        Ok(v) => Ok(v),
        Err(hex::FromHexError::InvalidHexCharacter { c, index }) => Err(
            HexDecodeError::InvalidHexCharacter { c, index },
        ),
        Err(hex::FromHexError::OddLength) => Err(HexDecodeError::OddLength),
        Err(hex::FromHexError::InvalidStringLength) => Err(HexDecodeError::InvalidStringLength),
    }
}

/// The value of a hex digit byte.
fn hex_digit(c: u8) -> (r: Option<u8>)
    ensures
        r == hex_value(c),
{
    if 48 <= c && c <= 57 {
        Some(c - 48)
    } else if 65 <= c && c <= 70 {
        Some(c - 55)
    } else if 97 <= c && c <= 102 {
        Some(c - 87)
    } else {
        None
    }
}

/// The pattern element spelled by two bytes.
fn decode_pair(a: u8, b: u8) -> (r: Option<Pattern>)
    ensures
        r == pair_element(a, b),
{
    if a == 63 && b == 63 {
        return Some(Pattern::Wildcard);
    }
    if a == 43 {
        return match hex_digit(b) {
            Some(v) => Some(Pattern::Byte(v)),
            None => None,
        };
    }
    match (hex_digit(a), hex_digit(b)) {
        (Some(x), Some(y)) => {
            assert(x < 16 && y < 16);
            Some(Pattern::Byte(x * 16 + y))
        },
        _ => None,
    }
}

/// Whether two bytes spell a pattern element.
pub(crate) fn pair_is_valid(a: u8, b: u8) -> (r: bool)
    ensures
        r == pair_element(a, b) is Some,
{
    decode_pair(a, b).is_some()
}

/// `cs` without spaces and commas.
fn drop_separators_vec(cs: &Vec<char>) -> (r: Vec<char>)
    ensures
        r@ == drop_separators(cs@),
{
    let mut out: Vec<char> = Vec::new();
    let mut i: usize = 0;
    assert(cs@.skip(0) =~= cs@);
    while i < cs.len()
        invariant
            0 <= i <= cs@.len(),
            out@ + drop_separators(cs@.skip(i as int)) == drop_separators(cs@),
        decreases cs@.len() - i,
    {
        let c = cs[i];
        assert(cs@.skip(i as int).drop_first() =~= cs@.skip(i + 1));
        if c != ' ' && c != ',' {
            out.push(c);
            assert(out@ + drop_separators(cs@.skip(i + 1)) =~= drop_separators(cs@));
        }
        i = i + 1;
    }
    assert(cs@.skip(i as int) =~= Seq::<char>::empty());
    assert(out@ + Seq::<char>::empty() =~= out@);
    out
}

/// `cs` with every non-overlapping `ab` removed, left to right.
fn strip_pair_vec(cs: &Vec<char>, a: char, b: char) -> (r: Vec<char>)
    ensures
        r@ == strip_pair(cs@, a, b),
{
    let mut out: Vec<char> = Vec::new();
    let mut i: usize = 0;
    let n = cs.len();
    assert(cs@.skip(0) =~= cs@);
    while i < n
        invariant
            0 <= i <= n,
            n == cs@.len(),
            out@ + strip_pair(cs@.skip(i as int), a, b) == strip_pair(cs@, a, b),
        decreases n - i,
    {
        let ghost rest = cs@.skip(i as int);
        if i + 1 < n && cs[i] == a && cs[i + 1] == b {
            assert(rest.skip(2) =~= cs@.skip(i + 2));
            i = i + 2;
        } else {
            let c = cs[i];
            assert(rest.drop_first() =~= cs@.skip(i + 1));
            proof {
                if rest.len() < 2 {
                    assert(rest =~= seq![c]);
                    assert(strip_pair(rest.drop_first(), a, b) =~= Seq::<char>::empty());
                }
            }
            out.push(c);
            assert(out@ + strip_pair(cs@.skip(i + 1), a, b) =~= strip_pair(cs@, a, b));
            i = i + 1;
        }
    }
    assert(cs@.skip(i as int) =~= Seq::<char>::empty());
    assert(out@ + Seq::<char>::empty() =~= out@);
    out
}

/// A string holding the characters `cs`.
fn string_of(cs: &Vec<char>) -> (r: String)
    ensures
        r@ == cs@,
{
    let mut s = String::new();
    let mut i: usize = 0;
    while i < cs.len()
        invariant
            0 <= i <= cs@.len(),
            s@ =~= cs@.take(i as int),
        decreases cs@.len() - i,
    {
        push_char(&mut s, cs[i]);
        i = i + 1;
        assert(s@ =~= cs@.take(i as int));
    }
    s
}

/// Strip decorations: spaces and commas, then `0x`, then `0X`.
pub fn clean_hex(s: &str) -> (r: String)
    ensures
        r@ == cleaned_hex(s@),
{
    let cs = crate::text::chars_of(s);
    let no_sep = drop_separators_vec(&cs);
    let no_lower = strip_pair_vec(&no_sep, '0', 'x');
    let no_upper = strip_pair_vec(&no_lower, '0', 'X');
    string_of(&no_upper)
}

/// Whether every pair that decoding reaches lies on character boundaries.
fn pairs_sliceable_exec(b: &[u8]) -> (r: bool)
    ensures
        r == pairs_sliceable(b@, 0),
{
    let n = b.len();
    let mut i: usize = 0;
    while i < n && n - i >= 2
        invariant
            n == b@.len(),
            0 <= i <= n,
            pairs_sliceable(b@, 0) == pairs_sliceable(b@, i as int),
        decreases n - i,
    {
        let starts = !(0x80 <= b[i] && b[i] < 0xC0);
        let next_starts = i + 2 == n || !(0x80 <= b[i + 2] && b[i + 2] < 0xC0);
        if !starts || !next_starts {
            return false;
        }
        if pair_is_valid(b[i], b[i + 1]) {
            i = i + 2;
        } else {
            return true;
        }
    }
    true
}

/// Whether [`decode_hex_pattern`] may be called on `s`: where the cleaned
/// string has an even length, the pairs it reaches lie on character
/// boundaries.
pub fn pattern_is_sliceable(s: &str) -> (r: bool)
    ensures
        r == (cleaned_bytes(s@).len() % 2 == 0 ==> pairs_sliceable(cleaned_bytes(s@), 0)),
{
    let cleaned = clean_hex(s);
    let b = cleaned.as_str().as_bytes();
    assert(b@ == cleaned_bytes(s@));
    b.len() % 2 == 1 || pairs_sliceable_exec(b)
}

/// Decode a hex string into a pattern, supporting `??` as wildcard.
///
/// Pairs are cut from the cleaned string by byte offset, and a cut may not
/// fall inside a character, so such input is left out.
pub fn decode_hex_pattern(s: &str) -> (r: Result<Vec<Pattern>, PatternError>)
    requires
        cleaned_bytes(s@).len() % 2 == 0 ==> pairs_sliceable(cleaned_bytes(s@), 0),
    ensures
        match decode_pattern_spec(cleaned_bytes(s@)) {
            Ok(ps) => r matches Ok(v) && v@ == ps,
            Err(e) => r == Err::<Vec<Pattern>, PatternError>(e),
        },
{
    let cleaned = clean_hex(s);
    let b = cleaned.as_str().as_bytes();
    let ghost bs = cleaned_bytes(s@);
    assert(b@ == bs);
    let n = b.len();
    if n % 2 != 0 {
        return Err(PatternError::OddLength);
    }
    let mut patterns: Vec<Pattern> = Vec::with_capacity(n / 2);
    let mut i: usize = 0;
    while i < n
        invariant
            b@ == bs,
            bs == cleaned_bytes(s@),
            n == bs.len(),
            n % 2 == 0,
            i % 2 == 0,
            0 <= i <= n,
            pairs_sliceable(bs, i as int),
            match decode_pairs(bs, i as int) {
                Ok(rest) => decode_pairs(bs, 0) == Ok::<Seq<Pattern>, PatternError>(patterns@ + rest),
                Err(e) => decode_pairs(bs, 0) == Err::<Seq<Pattern>, PatternError>(e),
            },
        decreases n - i,
    {
        let first = b[i];
        let second = b[i + 1];
        match decode_pair(first, second) {
            Some(p) => {
                let ghost before = patterns@;
                patterns.push(p);
                proof {
                    match decode_pairs(bs, i + 2) {
                        Ok(rest) => {
                            assert(before + (seq![p] + rest) =~= patterns@ + rest);
                        },
                        Err(e) => {},
                    }
                }
                i = i + 2;
            },
            None => {
                assert(decode_pairs(bs, i as int) == Err::<Seq<Pattern>, PatternError>(
                    PatternError::InvalidHex { offset: i, first, second },
                ));
                return Err(PatternError::InvalidHex { offset: i, first, second });
            },
        }
    }
    assert(decode_pairs(bs, i as int) == Ok::<Seq<Pattern>, PatternError>(Seq::<Pattern>::empty()));
    assert(patterns@ + Seq::<Pattern>::empty() =~= patterns@);
    Ok(patterns)
}

/// Decode a hex string into raw bytes (no wildcards allowed).
pub fn decode_hex(s: &str) -> (r: Result<Vec<u8>, HexDecodeError>)
    ensures
        match r {
            Ok(v) => hex_decode_spec(cleaned_bytes(s@)) == Ok::<Seq<u8>, HexDecodeError>(v@),
            Err(e) => hex_decode_spec(cleaned_bytes(s@)) == Err::<Seq<u8>, HexDecodeError>(e),
        },
{
    let cleaned = clean_hex(s);
    hex_decode(cleaned.as_str().as_bytes())
}

} // verus!
