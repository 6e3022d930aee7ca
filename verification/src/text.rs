//! Character-level helpers for the library's strings.

use sha2::Digest;
use vstd::prelude::*;

verus! {

/// All of `cs` is ASCII.
pub open spec fn ascii(cs: Seq<char>) -> bool {
    forall|i: int| 0 <= i < cs.len() ==> (#[trigger] cs[i] as u32) < 128
}

/// ASCII lower-casing of one character.
pub open spec fn ascii_lower(c: char) -> char {
    if 'A' <= c <= 'Z' {
        ((c as u32) + 32) as char
    } else {
        c
    }
}

/// ASCII upper-casing of one character.
pub open spec fn ascii_upper(c: char) -> char {
    if 'a' <= c <= 'z' {
        ((c as u32) - 32) as char
    } else {
        c
    }
}

/// What `str::to_lowercase` returns (the Unicode lowercase mapping).
pub uninterp spec fn lower_case(s: Seq<char>) -> Seq<char>;

/// What `str::to_uppercase` returns (the Unicode uppercase mapping).
pub uninterp spec fn upper_case(s: Seq<char>) -> Seq<char>;

/// The SHA-256 digest of `data`.
pub uninterp spec fn sha256_digest(data: Seq<u8>) -> Seq<u8>;

/// `str::to_lowercase`.  Trusted: the result is the named Unicode mapping of
/// the input; on ASCII input it lowers `A`-`Z` and keeps every other
/// character.  What it does to other characters is not stated.
#[verifier::external_body]
pub(crate) fn to_lowercase(s: &str) -> (r: String)
    ensures
        r@ == lower_case(s@),
        ascii(s@) ==> r@ == s@.map_values(|c: char| ascii_lower(c)),
{
    s.to_lowercase()
}

/// `str::to_uppercase`.  Trusted: the result is the named Unicode mapping of
/// the input; on ASCII input it raises `a`-`z` and keeps every other
/// character.  What it does to other characters is not stated.
#[verifier::external_body]
pub(crate) fn to_uppercase(s: &str) -> (r: String)
    ensures
        r@ == upper_case(s@),
        ascii(s@) ==> r@ == s@.map_values(|c: char| ascii_upper(c)),
{
    s.to_uppercase()
}

pub open spec fn opt_view(o: Option<String>) -> Option<Seq<char>> {
    match o {
        Some(s) => Some(s@),
        None => None,
    }
}

/// `sha2::Sha256::digest`.  Trusted: the result is the named digest of the
/// input, 32 bytes long.
#[verifier::external_body]
pub(crate) fn sha256(data: &[u8]) -> (r: Vec<u8>)
    ensures
        r@ == sha256_digest(data@),
        r@.len() == 32,
{
    sha2::Sha256::digest(data).to_vec()
}

/// The lowercase hex digit of a value below 16.
pub open spec fn hex_digit_lower(v: u8) -> char {
    if v < 10 {
        (48 + v) as char
    } else {
        (87 + v) as char
    }
}

/// Lowercase hex of `bs`, two digits per byte, high half first.
pub open spec fn hex_lower(bs: Seq<u8>) -> Seq<char>
    decreases bs.len(),
{
    if bs.len() == 0 {
        seq![]
    } else {
        seq![hex_digit_lower(bs[0] / 16), hex_digit_lower(bs[0] % 16)] + hex_lower(bs.drop_first())
    }
}

/// `hex::encode`.  Trusted: the crate writes each byte as two lowercase hex
/// digits, the high half first.
#[verifier::external_body]
pub(crate) fn hex_encode(data: &[u8]) -> (r: String)
    ensures
        r@ == hex_lower(data@),
{
    hex::encode(data)
}

/// `String::push`.  Trusted: appends `c` to the end of the string.
#[verifier::external_body]
pub(crate) fn push_char(s: &mut String, c: char)
    ensures
        final(s)@ == old(s)@.push(c),
{
    s.push(c);
}

/// The file name of a Unix path, scanning back from the end of `p` with
/// `piece` the characters read since the last `/`: empty pieces and `.` are
/// skipped, `..` has no file name, and any other piece is the name.
pub open spec fn name_before(p: Seq<char>, piece: Seq<char>) -> Option<Seq<char>>
    decreases p.len(),
{
    if p.len() == 0 || p.last() == '/' {
        if piece.len() == 0 || piece == seq!['.'] {
            if p.len() == 0 {
                None
            } else {
                name_before(p.drop_last(), seq![])
            }
        } else if piece == seq!['.', '.'] {
            None
        } else {
            Some(piece)
        }
    } else {
        name_before(p.drop_last(), seq![p.last()] + piece)
    }
}

/// What `Path::file_name` gives on Unix: the last component of the path if
/// it is a name (not `..`, a root, or nothing), with `/` separating the
/// components and `.` components skipped.
pub open spec fn unix_file_name(p: Seq<char>) -> Option<Seq<char>> {
    name_before(p, seq![])
}

/// The file name of a Unix path, as `Path::file_name` gives it.
pub fn file_name(p: &str) -> (r: Option<String>)
    ensures
        opt_view(r) == unix_file_name(p@),
{
    let cs = chars_of(p);
    let mut end: usize = cs.len();
    let mut i: usize = cs.len();
    assert(cs@.take(i as int) =~= cs@);
    assert(cs@.subrange(i as int, end as int) =~= Seq::<char>::empty());
    loop
        invariant
            0 <= i <= end <= cs@.len(),
            name_before(cs@.take(i as int), cs@.subrange(i as int, end as int)) == unix_file_name(p@),
            cs@ == p@,
        decreases i,
    {
        let ghost pre = cs@.take(i as int);
        let ghost piece = cs@.subrange(i as int, end as int);
        if i == 0 || cs[i - 1] == '/' {
            let n = end - i;
            if n == 0 || (n == 1 && cs[i] == '.') {
                if n == 1 {
                    assert(piece =~= seq!['.']);
                }
                if i == 0 {
                    return None;
                }
                assert(pre.drop_last() =~= cs@.take(i - 1));
                i = i - 1;
                end = i;
                assert(cs@.subrange(i as int, end as int) =~= Seq::<char>::empty());
            } else if n == 2 && cs[i] == '.' && cs[i + 1] == '.' {
                assert(piece =~= seq!['.', '.']);
                return None;
            } else {
                assert(piece != seq!['.']) by {
                    if n == 1 {
                        assert(piece[0] == cs[i as int]);
                    }
                }
                assert(piece != seq!['.', '.']) by {
                    if n == 2 {
                        assert(piece[0] == cs[i as int] && piece[1] == cs[i + 1]);
                    }
                }
                return Some(string_of_range(&cs, i, end));
            }
        } else {
            assert(pre.last() == cs@[i - 1]);
            assert(pre.drop_last() =~= cs@.take(i - 1));
            assert(seq![pre.last()] + piece =~= cs@.subrange(i - 1, end as int));
            i = i - 1;
        }
    }
}

/// A string of the characters `d[a..b]`.
pub(crate) fn string_of_range(d: &Vec<char>, a: usize, b: usize) -> (r: String)
    requires
        a <= b <= d@.len(),
    ensures
        r@ == d@.subrange(a as int, b as int),
{
    let mut out = String::new();
    let mut j: usize = a;
    while j < b
        invariant
            a <= j <= b,
            b <= d@.len(),
            out@ =~= d@.subrange(a as int, j as int),
        decreases b - j,
    {
        push_char(&mut out, d[j]);
        j = j + 1;
        assert(out@ =~= d@.subrange(a as int, j as int));
    }
    out
}

/// The characters of `s`, in order.
pub fn chars_of(s: &str) -> (r: Vec<char>)
    ensures
        r@ == s@,
{
    let mut out: Vec<char> = Vec::new();
    for c in it: s.chars()
        invariant
            out@ == it.seq().take(it.index() as int),
    {
        out.push(c);
    }
    assert(out@ =~= s@);
    out
}

} // verus!
