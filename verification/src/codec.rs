//! A small self-describing binary encoding: little-endian integers, length
//! prefixes, tagged options. Values written by the encoders are read back by
//! the decoders; the `lemma_dec_*` lemmas state that round trip, each against
//! an arbitrary surrounding buffer.

use vstd::prelude::*;
use vstd::bytes::{
    lemma_auto_spec_u32_to_from_le_bytes, lemma_auto_spec_u64_to_from_le_bytes,
    spec_u32_from_le_bytes, spec_u32_to_le_bytes, spec_u64_from_le_bytes, spec_u64_to_le_bytes,
    u32_from_le_bytes, u32_to_le_bytes, u64_from_le_bytes, u64_to_le_bytes,
};
use vstd::slice::slice_subrange;
use vstd::utf8::{char_is_scalar, char_u32_cast, is_scalar};

verus! {

/// Relies on `char::from_u32`: `Some` exactly on Unicode scalar values, and
/// then the character with that value.
#[verifier::external_body]
fn char_from_u32(v: u32) -> (r: Option<char>)
    ensures
        r matches Some(c) ==> c == (v as char) && is_scalar(v),
        r is None ==> !is_scalar(v),
{
    char::from_u32(v)
}

// ---- spec encoders ----

pub open spec fn enc_u8(b: u8) -> Seq<u8> {
    seq![b]
}

pub open spec fn enc_u32(x: u32) -> Seq<u8> {
    spec_u32_to_le_bytes(x)
}

pub open spec fn enc_u64(x: u64) -> Seq<u8> {
    spec_u64_to_le_bytes(x)
}

pub open spec fn enc_bool(b: bool) -> Seq<u8> {
    seq![(if b { 1u8 } else { 0u8 })]
}

pub open spec fn enc_bytes(s: Seq<u8>) -> Seq<u8> {
    enc_u64(s.len() as u64) + s
}

/// Characters, four little-endian bytes each.
pub open spec fn enc_chars(s: Seq<char>) -> Seq<u8>
    decreases s.len(),
{
    if s.len() == 0 {
        Seq::empty()
    } else {
        enc_chars(s.drop_last()) + enc_u32(s.last() as u32)
    }
}

pub open spec fn enc_str(s: Seq<char>) -> Seq<u8> {
    enc_u64(s.len() as u64) + enc_chars(s)
}

pub open spec fn enc_opt_bytes(o: Option<Seq<u8>>) -> Seq<u8> {
    match o {
        None => seq![0u8],
        Some(s) => seq![1u8] + enc_bytes(s),
    }
}

pub open spec fn enc_opt_str(o: Option<Seq<char>>) -> Seq<u8> {
    match o {
        None => seq![0u8],
        Some(s) => seq![1u8] + enc_str(s),
    }
}

/// An encoded character sequence takes four bytes a character.
pub proof fn lemma_enc_chars_len(v: Seq<char>)
    ensures
        enc_chars(v).len() == 4 * v.len(),
    decreases v.len(),
{
    lemma_auto_spec_u32_to_from_le_bytes();
    if v.len() > 0 {
        lemma_enc_chars_len(v.drop_last());
    }
}

// ---- spec decoders ----

pub open spec fn dec_u8(s: Seq<u8>, pos: int) -> Option<(u8, int)> {
    if 0 <= pos && pos + 1 <= s.len() {
        Some((s[pos], pos + 1))
    } else {
        None
    }
}

pub open spec fn dec_u32(s: Seq<u8>, pos: int) -> Option<(u32, int)> {
    if 0 <= pos && pos + 4 <= s.len() {
        Some((spec_u32_from_le_bytes(s.subrange(pos, pos + 4)), pos + 4))
    } else {
        None
    }
}

pub open spec fn dec_u64(s: Seq<u8>, pos: int) -> Option<(u64, int)> {
    if 0 <= pos && pos + 8 <= s.len() {
        Some((spec_u64_from_le_bytes(s.subrange(pos, pos + 8)), pos + 8))
    } else {
        None
    }
}

pub open spec fn dec_bool(s: Seq<u8>, pos: int) -> Option<(bool, int)> {
    match dec_u8(s, pos) {
        Some((b, p)) => if b == 0 {
            Some((false, p))
        } else if b == 1 {
            Some((true, p))
        } else {
            None
        },
        None => None,
    }
}

pub open spec fn dec_bytes(s: Seq<u8>, pos: int) -> Option<(Seq<u8>, int)> {
    match dec_u64(s, pos) {
        Some((n, p)) => if p + n <= s.len() {
            Some((s.subrange(p, p + n), p + n))
        } else {
            None
        },
        None => None,
    }
}

/// `n` characters, four bytes each, starting at `pos`.
pub open spec fn dec_chars(s: Seq<u8>, pos: int, n: nat) -> Option<(Seq<char>, int)>
    decreases n,
{
    if n == 0 {
        if 0 <= pos && pos <= s.len() {
            Some((Seq::empty(), pos))
        } else {
            None
        }
    } else {
        match dec_chars(s, pos, (n - 1) as nat) {
            Some((cs, p)) => match dec_u32(s, p) {
                Some((v, p2)) => if is_scalar(v) {
                    Some((cs.push(v as char), p2))
                } else {
                    None
                },
                None => None,
            },
            None => None,
        }
    }
}

pub open spec fn dec_str(s: Seq<u8>, pos: int) -> Option<(Seq<char>, int)> {
    match dec_u64(s, pos) {
        Some((n, p)) => dec_chars(s, p, n as nat),
        None => None,
    }
}

pub open spec fn dec_opt_bytes(s: Seq<u8>, pos: int) -> Option<(Option<Seq<u8>>, int)> {
    match dec_u8(s, pos) {
        Some((t, p)) => if t == 0 {
            Some((None, p))
        } else if t == 1 {
            match dec_bytes(s, p) {
                Some((v, p2)) => Some((Some(v), p2)),
                None => None,
            }
        } else {
            None
        },
        None => None,
    }
}

pub open spec fn dec_opt_str(s: Seq<u8>, pos: int) -> Option<(Option<Seq<char>>, int)> {
    match dec_u8(s, pos) {
        Some((t, p)) => if t == 0 {
            Some((None, p))
        } else if t == 1 {
            match dec_str(s, p) {
                Some((v, p2)) => Some((Some(v), p2)),
                None => None,
            }
        } else {
            None
        },
        None => None,
    }
}

// ---- round-trip lemmas: decoding at `pos` in a buffer whose bytes there are
// an encoding yields the encoded value ----

/// Splitting a known region of a buffer: if the bytes at `pos` are `a + b`,
/// the first `a.len()` of them are `a` and the rest are `b`.
pub proof fn lemma_subrange_split(s: Seq<u8>, pos: int, a: Seq<u8>, b: Seq<u8>)
    requires
        0 <= pos,
        pos + a.len() + b.len() <= s.len(),
        s.subrange(pos, pos + a.len() + b.len()) == a + b,
    ensures
        s.subrange(pos, pos + a.len()) == a,
        s.subrange(pos + a.len(), pos + a.len() + b.len()) == b,
{
    let whole = s.subrange(pos, pos + a.len() + b.len());
    assert forall|i: int| 0 <= i < a.len() implies s.subrange(pos, pos + a.len() as int)[i]
        == a[i] by {
        assert(whole[i] == (a + b)[i]);
        assert(s.subrange(pos, pos + a.len() as int)[i] == s[pos + i]);
        assert(whole[i] == s[pos + i]);
    }
    assert(s.subrange(pos, pos + a.len() as int) =~= a);
    let q = pos + a.len() as int;
    assert forall|i: int| 0 <= i < b.len() implies s.subrange(
        q,
        q + b.len() as int,
    )[i] == b[i] by {
        assert(whole[a.len() + i] == (a + b)[a.len() + i]);
        assert(s.subrange(q, q + b.len() as int)[i] == s[q + i]);
        assert(whole[a.len() + i] == s[q + i]);
    }
    assert(s.subrange(q, q + b.len() as int) =~= b);
}

pub proof fn lemma_dec_u8(s: Seq<u8>, pos: int, b: u8)
    requires
        0 <= pos,
        pos + 1 <= s.len(),
        s.subrange(pos, pos + 1) == enc_u8(b),
    ensures
        dec_u8(s, pos) == Some((b, pos + 1)),
{
    assert(s[pos] == s.subrange(pos, pos + 1)[0]);
}

pub proof fn lemma_dec_u32(s: Seq<u8>, pos: int, x: u32)
    requires
        0 <= pos,
        pos + 4 <= s.len(),
        s.subrange(pos, pos + 4) == enc_u32(x),
    ensures
        dec_u32(s, pos) == Some((x, pos + 4)),
{
    lemma_auto_spec_u32_to_from_le_bytes();
    assert(spec_u32_to_le_bytes(x).len() == 4);
}

pub proof fn lemma_dec_u64(s: Seq<u8>, pos: int, x: u64)
    requires
        0 <= pos,
        pos + 8 <= s.len(),
        s.subrange(pos, pos + 8) == enc_u64(x),
    ensures
        dec_u64(s, pos) == Some((x, pos + 8)),
{
    lemma_auto_spec_u64_to_from_le_bytes();
}

pub proof fn lemma_dec_bool(s: Seq<u8>, pos: int, b: bool)
    requires
        0 <= pos,
        pos + 1 <= s.len(),
        s.subrange(pos, pos + 1) == enc_bool(b),
    ensures
        dec_bool(s, pos) == Some((b, pos + 1)),
{
    assert(s[pos] == s.subrange(pos, pos + 1)[0]);
}

pub proof fn lemma_dec_bytes(s: Seq<u8>, pos: int, v: Seq<u8>)
    requires
        0 <= pos,
        v.len() <= u64::MAX,
        pos + enc_bytes(v).len() <= s.len(),
        s.subrange(pos, pos + enc_bytes(v).len()) == enc_bytes(v),
    ensures
        dec_bytes(s, pos) == Some((v, pos + enc_bytes(v).len())),
{
    lemma_auto_spec_u64_to_from_le_bytes();
    lemma_subrange_split(s, pos, enc_u64(v.len() as u64), v);
    lemma_dec_u64(s, pos, v.len() as u64);
    assert(s.subrange(pos + 8, pos + 8 + v.len() as int) =~= v);
}

/// A character's scalar value casts back to the same character.
proof fn proof_char_cast(c: char)
    ensures
        is_scalar(c as u32),
        ((c as u32) as char) == c,
{
    char_is_scalar(c);
    char_u32_cast(c, c as u32);
}

pub proof fn lemma_dec_chars(s: Seq<u8>, pos: int, v: Seq<char>)
    requires
        0 <= pos,
        pos + enc_chars(v).len() <= s.len(),
        s.subrange(pos, pos + enc_chars(v).len()) == enc_chars(v),
    ensures
        enc_chars(v).len() == 4 * v.len(),
        dec_chars(s, pos, v.len()) == Some((v, pos + enc_chars(v).len())),
    decreases v.len(),
{
    if v.len() == 0 {
    } else {
        let w = v.drop_last();
        let ew = enc_chars(w);
        let last = enc_u32(v.last() as u32);
        lemma_auto_spec_u32_to_from_le_bytes();
        assert(last.len() == 4);
        lemma_subrange_split(s, pos, ew, last);
        lemma_dec_chars(s, pos, w);
        let p = pos + ew.len() as int;
        lemma_dec_u32(s, p, v.last() as u32);
        proof_char_cast(v.last());
        assert(w.push(v.last()) =~= v);
    }
}

pub proof fn lemma_dec_str(s: Seq<u8>, pos: int, v: Seq<char>)
    requires
        0 <= pos,
        v.len() <= u64::MAX,
        pos + enc_str(v).len() <= s.len(),
        s.subrange(pos, pos + enc_str(v).len()) == enc_str(v),
    ensures
        enc_str(v).len() == 8 + 4 * v.len(),
        dec_str(s, pos) == Some((v, pos + enc_str(v).len())),
{
    lemma_auto_spec_u64_to_from_le_bytes();
    lemma_enc_chars_len(v);
    lemma_subrange_split(s, pos, enc_u64(v.len() as u64), enc_chars(v));
    lemma_dec_u64(s, pos, v.len() as u64);
    lemma_dec_chars(s, pos + 8, v);
}

pub proof fn lemma_dec_opt_bytes(s: Seq<u8>, pos: int, o: Option<Seq<u8>>)
    requires
        0 <= pos,
        (o matches Some(v) ==> v.len() <= u64::MAX),
        pos + enc_opt_bytes(o).len() <= s.len(),
        s.subrange(pos, pos + enc_opt_bytes(o).len()) == enc_opt_bytes(o),
    ensures
        dec_opt_bytes(s, pos) == Some((o, pos + enc_opt_bytes(o).len())),
{
    match o {
        None => {
            assert(s.subrange(pos, pos + 1) =~= enc_u8(0));
            lemma_dec_u8(s, pos, 0);
        },
        Some(v) => {
            assert(enc_opt_bytes(o) == enc_u8(1) + enc_bytes(v)) by {
                assert(enc_opt_bytes(o) =~= enc_u8(1) + enc_bytes(v));
            }
            lemma_subrange_split(s, pos, enc_u8(1), enc_bytes(v));
            lemma_dec_u8(s, pos, 1);
            lemma_dec_bytes(s, pos + 1, v);
        },
    }
}

pub proof fn lemma_dec_opt_str(s: Seq<u8>, pos: int, o: Option<Seq<char>>)
    requires
        0 <= pos,
        (o matches Some(v) ==> v.len() <= u64::MAX),
        pos + enc_opt_str(o).len() <= s.len(),
        s.subrange(pos, pos + enc_opt_str(o).len()) == enc_opt_str(o),
    ensures
        dec_opt_str(s, pos) == Some((o, pos + enc_opt_str(o).len())),
{
    match o {
        None => {
            assert(s.subrange(pos, pos + 1) =~= enc_u8(0));
            lemma_dec_u8(s, pos, 0);
        },
        Some(v) => {
            assert(enc_opt_str(o) == enc_u8(1) + enc_str(v)) by {
                assert(enc_opt_str(o) =~= enc_u8(1) + enc_str(v));
            }
            lemma_subrange_split(s, pos, enc_u8(1), enc_str(v));
            lemma_dec_u8(s, pos, 1);
            lemma_dec_str(s, pos + 1, v);
        },
    }
}

// ---- exec encoders: append one value to a buffer ----

pub fn put_u8(out: &mut Vec<u8>, b: u8)
    ensures
        final(out)@ == old(out)@ + enc_u8(b),
{
    out.push(b);
    proof {
        assert(final(out)@ =~= old(out)@ + enc_u8(b));
    }
}

pub fn put_u32(out: &mut Vec<u8>, x: u32)
    ensures
        final(out)@ == old(out)@ + enc_u32(x),
{
    let mut bytes = u32_to_le_bytes(x);
    out.append(&mut bytes);
    proof {
        assert(final(out)@ =~= old(out)@ + enc_u32(x));
    }
}

pub fn put_u64(out: &mut Vec<u8>, x: u64)
    ensures
        final(out)@ == old(out)@ + enc_u64(x),
{
    let mut bytes = u64_to_le_bytes(x);
    out.append(&mut bytes);
    proof {
        assert(final(out)@ =~= old(out)@ + enc_u64(x));
    }
}

pub fn put_bool(out: &mut Vec<u8>, b: bool)
    ensures
        final(out)@ == old(out)@ + enc_bool(b),
{
    out.push(if b {
        1
    } else {
        0
    });
    proof {
        assert(final(out)@ =~= old(out)@ + enc_bool(b));
    }
}

pub fn put_bytes(out: &mut Vec<u8>, v: &Vec<u8>)
    ensures
        final(out)@ == old(out)@ + enc_bytes(v@),
        v@.len() <= u64::MAX,
{
    let len = v.len();
    assert(v@.len() <= usize::MAX);
    put_u64(out, len as u64);
    let n = v.len();
    for i in 0..n
        invariant
            n == v@.len(),
            out@ == old(out)@ + enc_u64(v@.len() as u64) + v@.take(i as int),
    {
        out.push(v[i]);
        proof {
            assert(out@ =~= old(out)@ + enc_u64(v@.len() as u64) + v@.take(i + 1));
        }
    }
    proof {
        assert(v@.take(n as int) =~= v@);
        assert(final(out)@ =~= old(out)@ + enc_bytes(v@));
    }
}

pub fn put_str(out: &mut Vec<u8>, s: &str)
    ensures
        final(out)@ == old(out)@ + enc_str(s@),
        s@.len() <= u64::MAX,
{
    let n = s.unicode_len();
    assert(s@.len() <= usize::MAX);
    put_u64(out, n as u64);
    for i in 0..n
        invariant
            n == s@.len(),
            s@.len() <= u64::MAX,
            out@ == old(out)@ + enc_u64(s@.len() as u64) + enc_chars(s@.take(i as int)),
    {
        let c = s.get_char(i);
        put_u32(out, c as u32);
        proof {
            assert(s@.take(i + 1).drop_last() =~= s@.take(i as int));
            assert(s@.take(i + 1).last() == s@[i as int]);
            assert(out@ =~= old(out)@ + enc_u64(s@.len() as u64) + enc_chars(s@.take(i + 1)));
        }
    }
    proof {
        assert(s@.take(n as int) =~= s@);
        assert(final(out)@ =~= old(out)@ + enc_str(s@));
    }
}

pub fn put_opt_bytes(out: &mut Vec<u8>, o: &Option<Vec<u8>>)
    ensures
        final(out)@ == old(out)@ + enc_opt_bytes(
            match *o {
                Some(ref v) => Some(v@),
                None => None,
            },
        ),
        (o matches Some(v) ==> v@.len() <= u64::MAX),
{
    match o {
        None => {
            put_u8(out, 0);
            proof {
                assert(final(out)@ =~= old(out)@ + enc_opt_bytes(None));
            }
        },
        Some(v) => {
            put_u8(out, 1);
            put_bytes(out, v);
            proof {
                assert(final(out)@ =~= old(out)@ + enc_opt_bytes(Some(v@)));
            }
        },
    }
}

pub fn put_opt_str(out: &mut Vec<u8>, o: &Option<String>)
    ensures
        final(out)@ == old(out)@ + enc_opt_str(
            match *o {
                Some(ref v) => Some(v@),
                None => None,
            },
        ),
        (o matches Some(v) ==> v@.len() <= u64::MAX),
{
    match o {
        None => {
            put_u8(out, 0);
            proof {
                assert(final(out)@ =~= old(out)@ + enc_opt_str(None));
            }
        },
        Some(v) => {
            put_u8(out, 1);
            put_str(out, v.as_str());
            proof {
                assert(final(out)@ =~= old(out)@ + enc_opt_str(Some(v@)));
            }
        },
    }
}

// ---- exec decoders: read one value at a position ----

pub fn take_u8(s: &Vec<u8>, pos: usize) -> (r: Option<(u8, usize)>)
    ensures
        match r {
            Some((v, p)) => dec_u8(s@, pos as int) == Some((v, p as int)),
            None => dec_u8(s@, pos as int) is None,
        },
{
    if pos < s.len() {
        Some((s[pos], pos + 1))
    } else {
        None
    }
}

pub fn take_u32(s: &Vec<u8>, pos: usize) -> (r: Option<(u32, usize)>)
    ensures
        match r {
            Some((v, p)) => dec_u32(s@, pos as int) == Some((v, p as int)),
            None => dec_u32(s@, pos as int) is None,
        },
{
    if pos <= s.len() && s.len() - pos >= 4 {
        let chunk = slice_subrange(s.as_slice(), pos, pos + 4);
        Some((u32_from_le_bytes(chunk), pos + 4))
    } else {
        None
    }
}

pub fn take_u64(s: &Vec<u8>, pos: usize) -> (r: Option<(u64, usize)>)
    ensures
        match r {
            Some((v, p)) => dec_u64(s@, pos as int) == Some((v, p as int)),
            None => dec_u64(s@, pos as int) is None,
        },
{
    if pos <= s.len() && s.len() - pos >= 8 {
        let chunk = slice_subrange(s.as_slice(), pos, pos + 8);
        Some((u64_from_le_bytes(chunk), pos + 8))
    } else {
        None
    }
}

pub fn take_bool(s: &Vec<u8>, pos: usize) -> (r: Option<(bool, usize)>)
    ensures
        match r {
            Some((v, p)) => dec_bool(s@, pos as int) == Some((v, p as int)),
            None => dec_bool(s@, pos as int) is None,
        },
{
    match take_u8(s, pos) {
        Some((0, p)) => Some((false, p)),
        Some((1, p)) => Some((true, p)),
        _ => None,
    }
}

pub fn take_bytes(s: &Vec<u8>, pos: usize) -> (r: Option<(Vec<u8>, usize)>)
    ensures
        match r {
            Some((v, p)) => dec_bytes(s@, pos as int) == Some((v@, p as int)),
            None => dec_bytes(s@, pos as int) is None,
        },
{
    let (n, p) = match take_u64(s, pos) {
        Some(x) => x,
        None => {
            return None;
        },
    };
    if n <= (s.len() - p) as u64 {
        let end = p + (n as usize);
        let v = vstd::slice::slice_to_vec(slice_subrange(s.as_slice(), p, end));
        Some((v, end))
    } else {
        None
    }
}

pub fn take_str(s: &Vec<u8>, pos: usize) -> (r: Option<(String, usize)>)
    ensures
        match r {
            Some((v, p)) => dec_str(s@, pos as int) == Some((v@, p as int)),
            None => dec_str(s@, pos as int) is None,
        },
{
    let (n64, p0) = match take_u64(s, pos) {
        Some(x) => x,
        None => {
            return None;
        },
    };
    let ghost n_spec = n64 as nat;
    let buf_len = s.len();
    if n64 > (usize::MAX as u64) / 4 {
        // More characters than the buffer could possibly hold.
        proof {
            assert(s@.len() == buf_len as nat);
            assert(4 * n_spec > usize::MAX as nat);
            lemma_dec_chars_len(s@, p0 as int, n_spec);
        }
        return None;
    }
    let n = n64 as usize;
    let mut out = String::new();
    let mut p = p0;
    let mut i: usize = 0;
    proof {
        assert(dec_chars(s@, p0 as int, 0nat) == Some((Seq::<char>::empty(), p0 as int)));
    }
    while i < n
        invariant
            i <= n,
            n_spec == n as nat,
            n_spec == n64 as nat,
            dec_u64(s@, pos as int) == Some((n64, p0 as int)),
            dec_chars(s@, p0 as int, i as nat) == Some((out@, p as int)),
        decreases n - i,
    {
        let (v, p2) = match take_u32(s, p) {
            Some(x) => x,
            None => {
                proof {
                    lemma_dec_chars_stuck(s@, p0 as int, i as nat, n_spec, p as int);
                    assert(dec_chars(s@, p0 as int, n_spec) is None);
                    assert(dec_str(s@, pos as int) is None);
                }
                return None;
            },
        };
        let c = match char_from_u32(v) {
            Some(c) => c,
            None => {
                proof {
                    lemma_dec_chars_stuck(s@, p0 as int, i as nat, n_spec, p as int);
                    assert(dec_chars(s@, p0 as int, n_spec) is None);
                    assert(dec_str(s@, pos as int) is None);
                }
                return None;
            },
        };
        crate::text::push_char(&mut out, c);
        p = p2;
        i = i + 1;
    }
    proof {
        assert(dec_str(s@, pos as int) == Some((out@, p as int)));
    }
    Some((out, p))
}

/// If decoding stalls after `i` of `n` characters, decoding all `n` fails.
proof fn lemma_dec_chars_stuck(s: Seq<u8>, pos: int, i: nat, n: nat, p: int)
    requires
        i < n,
        dec_chars(s, pos, i) matches Some(x) && x.1 == p,
        match dec_u32(s, p) {
            Some((v, _)) => !is_scalar(v),
            None => true,
        },
    ensures
        dec_chars(s, pos, n) is None,
    decreases n,
{
    if n == i + 1 {
    } else {
        lemma_dec_chars_stuck(s, pos, i, (n - 1) as nat, p);
    }
}

/// Decoding `n` characters needs four bytes each.
proof fn lemma_dec_chars_len(s: Seq<u8>, pos: int, n: nat)
    requires
        4 * n > s.len(),
    ensures
        dec_chars(s, pos, n) is None,
    decreases n,
{
    if n > 0 {
        if dec_chars(s, pos, (n - 1) as nat) is Some {
            lemma_dec_chars_advance(s, pos, (n - 1) as nat);
        }
    }
}

/// Decoding `n` characters advances the position by exactly four bytes each.
proof fn lemma_dec_chars_advance(s: Seq<u8>, pos: int, n: nat)
    requires
        dec_chars(s, pos, n) is Some,
    ensures
        dec_chars(s, pos, n) matches Some(x) && x.1 == pos + 4 * n && pos + 4 * n <= s.len()
            && pos >= 0,
    decreases n,
{
    if n > 0 {
        lemma_dec_chars_advance(s, pos, (n - 1) as nat);
    }
}

pub fn take_opt_bytes(s: &Vec<u8>, pos: usize) -> (r: Option<(Option<Vec<u8>>, usize)>)
    ensures
        match r {
            Some((v, p)) => dec_opt_bytes(s@, pos as int) == Some(
                (
                    match v {
                        Some(ref b) => Some(b@),
                        None => None,
                    },
                    p as int,
                ),
            ),
            None => dec_opt_bytes(s@, pos as int) is None,
        },
{
    match take_u8(s, pos) {
        Some((0, p)) => Some((None, p)),
        Some((1, p)) => match take_bytes(s, p) {
            Some((v, p2)) => Some((Some(v), p2)),
            None => None,
        },
        _ => None,
    }
}

pub fn take_opt_str(s: &Vec<u8>, pos: usize) -> (r: Option<(Option<String>, usize)>)
    ensures
        match r {
            Some((v, p)) => dec_opt_str(s@, pos as int) == Some(
                (
                    match v {
                        Some(ref t) => Some(t@),
                        None => None,
                    },
                    p as int,
                ),
            ),
            None => dec_opt_str(s@, pos as int) is None,
        },
{
    match take_u8(s, pos) {
        Some((0, p)) => Some((None, p)),
        Some((1, p)) => match take_str(s, p) {
            Some((v, p2)) => Some((Some(v), p2)),
            None => None,
        },
        _ => None,
    }
}

} // verus!
