//! Rendering of numbers and byte strings into text: decimal suffixes for
//! generated names and identifiers, hexadecimal for content checksums.

use vstd::prelude::*;

verus! {

/// Relies on `String::push`: appends exactly the given character.
#[verifier::external_body]
pub fn push_char(s: &mut String, c: char)
    ensures
        final(s)@ == old(s)@.push(c),
{
    s.push(c);
}

/// The decimal rendering of `n`, most significant digit first.
pub open spec fn spec_dec(n: nat) -> Seq<char>
    decreases n,
{
    if n < 10 {
        seq![((48 + n) as char)]
    } else {
        spec_dec(n / 10).push(((48 + n % 10) as char))
    }
}

fn digit_char(d: u8) -> (c: char)
    requires
        d < 10,
    ensures
        c == ((48 + d) as char),
{
    (48 + d) as char
}

/// Appends the decimal rendering of `n` to `s`.
pub fn push_dec(s: &mut String, n: u64)
    ensures
        final(s)@ == old(s)@ + spec_dec(n as nat),
    decreases n,
{
    if n < 10 {
        push_char(s, digit_char(n as u8));
        assert(final(s)@ =~= old(s)@ + spec_dec(n as nat));
    } else {
        push_dec(s, n / 10);
        push_char(s, digit_char((n % 10) as u8));
        assert(final(s)@ =~= old(s)@ + spec_dec(n as nat));
    }
}

/// The decimal rendering of `n` on its own.
pub fn u64_to_string(n: u64) -> (r: String)
    ensures
        r@ == spec_dec(n as nat),
{
    let mut s = String::new();
    push_dec(&mut s, n);
    proof {
        assert(s@ =~= spec_dec(n as nat));
    }
    s
}

/// What `str::to_lowercase` returns; it depends on the characters alone.
pub uninterp spec fn lower_of(s: Seq<char>) -> Seq<char>;

/// Relies on `str::to_lowercase`: the Unicode lowercase mapping of the
/// string, a function of its characters alone.
#[verifier::external_body]
pub fn to_lowercase(s: &str) -> (r: String)
    ensures
        r@ == lower_of(s@),
{
    s.to_lowercase()
}

/// Whether `n` occurs in `h` as a contiguous run of characters.
pub open spec fn has_substring(h: Seq<char>, n: Seq<char>) -> bool {
    exists|i: int| 0 <= i && i + n.len() <= h.len() && #[trigger] h.subrange(i, i + n.len()) == n
}

/// Relies on `str::contains` with a string pattern: true exactly when the
/// needle's characters occur contiguously in the haystack (UTF-8 is
/// self-synchronizing, so byte matches align with character boundaries).
#[verifier::external_body]
pub fn str_contains(haystack: &str, needle: &str) -> (r: bool)
    ensures
        r == has_substring(haystack@, needle@),
{
    haystack.contains(needle)
}

/// The lowercase hexadecimal character for a value below 16.
pub open spec fn spec_hex_digit(d: u8) -> char {
    if d < 10 {
        (48 + d) as char
    } else {
        (87 + d) as char
    }
}

/// The lowercase hexadecimal rendering of a byte string, two characters a byte.
pub open spec fn spec_hex(s: Seq<u8>) -> Seq<char>
    decreases s.len(),
{
    if s.len() == 0 {
        Seq::empty()
    } else {
        spec_hex(s.drop_last()).push(spec_hex_digit(s.last() / 16)).push(
            spec_hex_digit(s.last() % 16),
        )
    }
}

fn hex_digit(d: u8) -> (c: char)
    requires
        d < 16,
    ensures
        c == spec_hex_digit(d),
{
    if d < 10 {
        (48 + d) as char
    } else {
        (87 + d) as char
    }
}

/// The lowercase hexadecimal rendering of a byte string.
pub fn bytes_to_hex(bytes: &Vec<u8>) -> (r: String)
    ensures
        r@ == spec_hex(bytes@),
{
    let mut s = String::new();
    let n = bytes.len();
    for i in 0..n
        invariant
            n == bytes@.len(),
            s@ == spec_hex(bytes@.take(i as int)),
    {
        let b = bytes[i];
        push_char(&mut s, hex_digit(b / 16));
        push_char(&mut s, hex_digit(b % 16));
        proof {
            assert(bytes@.take(i + 1).drop_last() =~= bytes@.take(i as int));
            assert(bytes@.take(i + 1).last() == bytes@[i as int]);
        }
    }
    proof {
        assert(bytes@.take(n as int) =~= bytes@);
    }
    s
}

} // verus!
