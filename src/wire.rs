//! Primitive wire forms: bytes, booleans, 64-bit integers, byte strings and
//! identifiers, each with its parser over a byte sequence and a position.

use vstd::prelude::*;
use crate::channel::Reason;
use crate::channel::stream::{opt_value, opt_wf};
use crate::ubig::{be_value, lemma_strip_zeros_props, strip_zeros, UBig, MAX_ID_BYTES};

verus! {

/// The tag of an absent identifier.
pub const TAG_NONE: u8 = 0;

/// The tag of an identifier in its 64-bit form.
pub const TAG_UINT64: u8 = 1;

/// The tag of an identifier as big-endian bytes.
pub const TAG_BYTES: u8 = 2;

/// The error of a primitive reader: the input ends early or holds a value
/// that the wire form does not allow.
#[derive(Clone, Copy, Debug, PartialEq, Eq, Structural)]
pub enum ConvertError {
    Malformed,
}

/// The eight big-endian bytes of a 64-bit integer.
pub open spec fn u64_bytes(v: u64) -> Seq<u8> {
    seq![
        ((v >> 56u64) & 0xffu64) as u8,
        ((v >> 48u64) & 0xffu64) as u8,
        ((v >> 40u64) & 0xffu64) as u8,
        ((v >> 32u64) & 0xffu64) as u8,
        ((v >> 24u64) & 0xffu64) as u8,
        ((v >> 16u64) & 0xffu64) as u8,
        ((v >> 8u64) & 0xffu64) as u8,
        (v & 0xffu64) as u8,
    ]
}

/// The 64-bit integer held by eight big-endian bytes.
pub open spec fn u64_of(b: Seq<u8>) -> u64 {
    ((b[0] as u64) << 56u64) | ((b[1] as u64) << 48u64) | ((b[2] as u64) << 40u64) | ((b[3] as u64)
        << 32u64) | ((b[4] as u64) << 24u64) | ((b[5] as u64) << 16u64) | ((b[6] as u64) << 8u64)
        | (b[7] as u64)
}

pub open spec fn parse_u8(s: Seq<u8>, p: int) -> Option<(u8, int)> {
    if 0 <= p < s.len() {
        Some((s[p], p + 1))
    } else {
        None
    }
}

pub open spec fn parse_bool(s: Seq<u8>, p: int) -> Option<(bool, int)> {
    match parse_u8(s, p) {
        Some((b, q)) => if b == 0 {
            Some((false, q))
        } else if b == 1 {
            Some((true, q))
        } else {
            None
        },
        None => None,
    }
}

pub open spec fn parse_u64(s: Seq<u8>, p: int) -> Option<(u64, int)> {
    if 0 <= p && p + 8 <= s.len() {
        Some((u64_of(s.subrange(p, p + 8)), p + 8))
    } else {
        None
    }
}

/// A byte string: its length as a 64-bit integer, then its bytes.
pub open spec fn parse_bytes(s: Seq<u8>, p: int) -> Option<(Seq<u8>, int)> {
    match parse_u64(s, p) {
        Some((n, q)) => if q + n <= s.len() {
            Some((s.subrange(q, q + n), q + n))
        } else {
            None
        },
        None => None,
    }
}

/// The number that a non-empty byte string denotes; an empty one means absent.
pub open spec fn bytes_id(b: Seq<u8>) -> Option<nat> {
    if b.len() == 0 {
        None
    } else {
        Some(be_value(strip_zeros(b)))
    }
}

/// The identifier union: a 64-bit form, or big-endian bytes (empty for
/// absent, at most `MAX_ID_BYTES`).
pub open spec fn parse_ubig_union(s: Seq<u8>, p: int) -> Option<(Option<nat>, int)> {
    match parse_u8(s, p) {
        Some((t, q)) => if t == TAG_UINT64 {
            match parse_u64(s, q) {
                Some((v, r)) => Some((Some(v as nat), r)),
                None => None,
            }
        } else if t == TAG_BYTES {
            match parse_bytes(s, q) {
                Some((b, r)) => if b.len() <= MAX_ID_BYTES {
                    Some((bytes_id(b), r))
                } else {
                    None
                },
                None => None,
            }
        } else {
            None
        },
        None => None,
    }
}

/// An optional identifier: the absent tag, or the identifier union.
pub open spec fn parse_opt_ubig(s: Seq<u8>, p: int) -> Option<(Option<nat>, int)> {
    match parse_u8(s, p) {
        Some((t, q)) => if t == TAG_NONE {
            Some((None, q))
        } else {
            parse_ubig_union(s, p)
        },
        None => None,
    }
}

/// A required identifier: the identifier union, present.
pub open spec fn parse_ubig(s: Seq<u8>, p: int) -> Option<(nat, int)> {
    match parse_ubig_union(s, p) {
        Some((Some(v), q)) => Some((v, q)),
        _ => None,
    }
}

pub open spec fn parse_reason(s: Seq<u8>, p: int) -> Option<(Reason, int)> {
    match parse_u64(s, p) {
        Some((c, q)) => Some((Reason { code: c }, q)),
        None => None,
    }
}

pub open spec fn enc_bool(b: bool) -> Seq<u8> {
    if b {
        seq![1u8]
    } else {
        seq![0u8]
    }
}

pub open spec fn enc_bytes(b: Seq<u8>) -> Seq<u8> {
    u64_bytes(b.len() as u64) + b
}

/// An identifier in its compact form: 64 bits where it fits, else its bytes.
pub open spec fn enc_ubig(u: UBig) -> Seq<u8> {
    match u {
        UBig::Small(v) => seq![TAG_UINT64] + u64_bytes(v),
        UBig::Large(b) => seq![TAG_BYTES] + enc_bytes(b@),
    }
}

pub open spec fn enc_opt_ubig(o: Option<UBig>) -> Seq<u8> {
    match o {
        Some(u) => enc_ubig(u),
        None => seq![TAG_NONE],
    }
}

pub open spec fn enc_reason(r: Reason) -> Seq<u8> {
    u64_bytes(r.code)
}

/// `s` holds `e` at position `p`.
pub open spec fn holds_at(s: Seq<u8>, p: int, e: Seq<u8>) -> bool {
    0 <= p && p + e.len() <= s.len() && s.subrange(p, p + e.len()) == e
}

pub proof fn lemma_holds_split(s: Seq<u8>, p: int, a: Seq<u8>, b: Seq<u8>)
    requires
        holds_at(s, p, a + b),
    ensures
        holds_at(s, p, a),
        holds_at(s, p + a.len(), b),
{
    assert(s.subrange(p, p + a.len()) =~= (a + b).subrange(0, a.len() as int));
    assert((a + b).subrange(0, a.len() as int) =~= a);
    assert(s.subrange(p + a.len(), p + a.len() + b.len()) =~= (a + b).subrange(
        a.len() as int,
        (a + b).len() as int,
    ));
    assert((a + b).subrange(a.len() as int, (a + b).len() as int) =~= b);
}

pub proof fn lemma_u64_round_trip(v: u64)
    ensures
        u64_of(u64_bytes(v)) == v,
        u64_bytes(v).len() == 8,
{
    let b = u64_bytes(v);
    assert(((v >> 56u64) & 0xffu64) <= 0xff) by (bit_vector);
    assert(((v >> 48u64) & 0xffu64) <= 0xff) by (bit_vector);
    assert(((v >> 40u64) & 0xffu64) <= 0xff) by (bit_vector);
    assert(((v >> 32u64) & 0xffu64) <= 0xff) by (bit_vector);
    assert(((v >> 24u64) & 0xffu64) <= 0xff) by (bit_vector);
    assert(((v >> 16u64) & 0xffu64) <= 0xff) by (bit_vector);
    assert(((v >> 8u64) & 0xffu64) <= 0xff) by (bit_vector);
    assert((v & 0xffu64) <= 0xff) by (bit_vector);
    assert((((v >> 56u64) & 0xffu64) << 56u64) | (((v >> 48u64) & 0xffu64) << 48u64) | (((v
        >> 40u64) & 0xffu64) << 40u64) | (((v >> 32u64) & 0xffu64) << 32u64) | (((v >> 24u64)
        & 0xffu64) << 24u64) | (((v >> 16u64) & 0xffu64) << 16u64) | (((v >> 8u64) & 0xffu64)
        << 8u64) | (v & 0xffu64) == v) by (bit_vector);
}

pub proof fn lemma_parse_u64(s: Seq<u8>, p: int, v: u64)
    requires
        holds_at(s, p, u64_bytes(v)),
    ensures
        parse_u64(s, p) == Some((v, p + 8)),
{
    lemma_u64_round_trip(v);
}

pub proof fn lemma_parse_bool(s: Seq<u8>, p: int, b: bool)
    requires
        holds_at(s, p, enc_bool(b)),
    ensures
        parse_bool(s, p) == Some((b, p + 1)),
{
    assert(s[p] == s.subrange(p, p + 1)[0]);
}

pub proof fn lemma_parse_bytes(s: Seq<u8>, p: int, b: Seq<u8>)
    requires
        holds_at(s, p, enc_bytes(b)),
        b.len() <= u64::MAX,
    ensures
        parse_bytes(s, p) == Some((b, p + 8 + b.len())),
{
    lemma_holds_split(s, p, u64_bytes(b.len() as u64), b);
    lemma_parse_u64(s, p, b.len() as u64);
}

pub proof fn lemma_parse_ubig(s: Seq<u8>, p: int, u: UBig)
    requires
        holds_at(s, p, enc_ubig(u)),
        u.wf(),
    ensures
        parse_ubig_union(s, p) == Some((Some(u.value()), p + enc_ubig(u).len())),
        parse_ubig(s, p) == Some((u.value(), p + enc_ubig(u).len())),
        parse_opt_ubig(s, p) == Some((Some(u.value()), p + enc_ubig(u).len())),
{
    match u {
        UBig::Small(v) => {
            lemma_holds_split(s, p, seq![TAG_UINT64], u64_bytes(v));
            assert(s[p] == s.subrange(p, p + 1)[0]);
            lemma_parse_u64(s, p + 1, v);
            lemma_u64_round_trip(v);
        },
        UBig::Large(b) => {
            lemma_holds_split(s, p, seq![TAG_BYTES], enc_bytes(b@));
            assert(s[p] == s.subrange(p, p + 1)[0]);
            lemma_parse_bytes(s, p + 1, b@);
            lemma_strip_zeros_props(b@);
            lemma_u64_round_trip(b@.len() as u64);
        },
    }
}

pub proof fn lemma_parse_opt_ubig(s: Seq<u8>, p: int, o: Option<UBig>)
    requires
        holds_at(s, p, enc_opt_ubig(o)),
        match o {
            Some(u) => u.wf(),
            None => true,
        },
    ensures
        parse_opt_ubig(s, p) == Some((
            match o {
                Some(u) => Some(u.value()),
                None => None,
            },
            p + enc_opt_ubig(o).len(),
        )),
{
    match o {
        Some(u) => lemma_parse_ubig(s, p, u),
        None => {
            assert(s[p] == s.subrange(p, p + 1)[0]);
        },
    }
}

pub proof fn lemma_parse_reason(s: Seq<u8>, p: int, r: Reason)
    requires
        holds_at(s, p, enc_reason(r)),
    ensures
        parse_reason(s, p) == Some((r, p + 8)),
{
    lemma_parse_u64(s, p, r.code);
}

pub fn read_u8(buf: &[u8], pos: usize) -> (r: Option<(u8, usize)>)
    ensures
        match r {
            Some((v, q)) => parse_u8(buf@, pos as int) == Some((v, q as int)),
            None => parse_u8(buf@, pos as int) is None,
        },
{
    if pos < buf.len() {
        Some((buf[pos], pos + 1))
    } else {
        None
    }
}

pub fn read_bool(buf: &[u8], pos: usize) -> (r: Option<(bool, usize)>)
    ensures
        match r {
            Some((v, q)) => parse_bool(buf@, pos as int) == Some((v, q as int)),
            None => parse_bool(buf@, pos as int) is None,
        },
{
    match read_u8(buf, pos) {
        Some((b, q)) => if b == 0 {
            Some((false, q))
        } else if b == 1 {
            Some((true, q))
        } else {
            None
        },
        None => None,
    }
}

pub fn read_u64(buf: &[u8], pos: usize) -> (r: Option<(u64, usize)>)
    ensures
        match r {
            Some((v, q)) => parse_u64(buf@, pos as int) == Some((v, q as int)),
            None => parse_u64(buf@, pos as int) is None,
        },
{
    if pos <= buf.len() && buf.len() - pos >= 8 {
        let v: u64 = ((buf[pos] as u64) << 56u64) | ((buf[pos + 1] as u64) << 48u64) | ((buf[pos
            + 2] as u64) << 40u64) | ((buf[pos + 3] as u64) << 32u64) | ((buf[pos + 4] as u64)
            << 24u64) | ((buf[pos + 5] as u64) << 16u64) | ((buf[pos + 6] as u64) << 8u64) | (buf[pos
            + 7] as u64);
        let ghost sub = buf@.subrange(pos as int, pos as int + 8);
        assert(sub[0] == buf@[pos as int] && sub[1] == buf@[pos + 1] && sub[2] == buf@[pos + 2]
            && sub[3] == buf@[pos + 3] && sub[4] == buf@[pos + 4] && sub[5] == buf@[pos + 5]
            && sub[6] == buf@[pos + 6] && sub[7] == buf@[pos + 7]);
        Some((v, pos + 8))
    } else {
        None
    }
}

/// Copies `buf[from..from + n]`.
fn copy_range(buf: &[u8], from: usize, n: usize) -> (r: Vec<u8>)
    requires
        from + n <= buf@.len(),
    ensures
        r@ == buf@.subrange(from as int, from + n),
{
    let len = buf.len();
    let end: usize = from + n;
    let mut out: Vec<u8> = Vec::new();
    let mut i: usize = from;
    while i < end
        invariant
            end == from + n,
            from <= i <= end <= buf@.len(),
            out@ == buf@.subrange(from as int, i as int),
        decreases end - i,
    {
        out.push(buf[i]);
        i = i + 1;
        assert(out@ =~= buf@.subrange(from as int, i as int));
    }
    out
}

pub fn read_bytes(buf: &[u8], pos: usize) -> (r: Option<(Vec<u8>, usize)>)
    ensures
        match r {
            Some((v, q)) => parse_bytes(buf@, pos as int) == Some((v@, q as int)) && v@.len()
                <= usize::MAX,
            None => parse_bytes(buf@, pos as int) is None,
        },
{
    match read_u64(buf, pos) {
        Some((n, q)) => {
            if n <= (buf.len() - q) as u64 {
                let data = copy_range(buf, q, n as usize);
                let _l = data.len();
                Some((data, q + n as usize))
            } else {
                None
            }
        },
        None => None,
    }
}

/// Reads the identifier union at `pos`: an empty byte string gives `None`.
pub fn get_ubig(buf: &[u8], pos: usize) -> (r: Result<(Option<UBig>, usize), ConvertError>)
    ensures
        match r {
            Ok((v, q)) => parse_ubig_union(buf@, pos as int) == Some((opt_value(v), q as int))
                && opt_wf(v),
            Err(_) => parse_ubig_union(buf@, pos as int) is None,
        },
{
    match read_u8(buf, pos) {
        Some((t, q)) => if t == TAG_UINT64 {
            match read_u64(buf, q) {
                Some((v, r)) => Ok((Some(UBig::from_u64(v)), r)),
                None => Err(ConvertError::Malformed),
            }
        } else if t == TAG_BYTES {
            match read_bytes(buf, q) {
                Some((b, r)) => if b.len() == 0 {
                    Ok((None, r))
                } else if b.len() > MAX_ID_BYTES {
                    Err(ConvertError::Malformed)
                } else {
                    Ok((Some(UBig::from_be_bytes(b.as_slice())), r))
                },
                None => Err(ConvertError::Malformed),
            }
        } else {
            Err(ConvertError::Malformed)
        },
        None => Err(ConvertError::Malformed),
    }
}

/// Reads an optional identifier at `pos`.
pub fn get_id(buf: &[u8], pos: usize) -> (r: Result<(Option<UBig>, usize), ConvertError>)
    ensures
        match r {
            Ok((v, q)) => parse_opt_ubig(buf@, pos as int) == Some((opt_value(v), q as int))
                && opt_wf(v),
            Err(_) => parse_opt_ubig(buf@, pos as int) is None,
        },
{
    match read_u8(buf, pos) {
        Some((t, q)) => if t == TAG_NONE {
            Ok((None, q))
        } else {
            get_ubig(buf, pos)
        },
        None => Err(ConvertError::Malformed),
    }
}

/// Reads a required identifier at `pos`.
pub fn read_ubig(buf: &[u8], pos: usize) -> (r: Option<(UBig, usize)>)
    ensures
        match r {
            Some((v, q)) => parse_ubig(buf@, pos as int) == Some((v.value(), q as int)) && v.wf(),
            None => parse_ubig(buf@, pos as int) is None,
        },
{
    match get_ubig(buf, pos) {
        Ok((Some(v), q)) => Some((v, q)),
        _ => None,
    }
}

/// Reads a reason code at `pos`.
pub fn get_reason(buf: &[u8], pos: usize) -> (r: Result<(Reason, usize), ConvertError>)
    ensures
        match r {
            Ok((v, q)) => parse_reason(buf@, pos as int) == Some((v, q as int)),
            Err(_) => parse_reason(buf@, pos as int) is None,
        },
{
    match read_u64(buf, pos) {
        Some((c, q)) => Ok((Reason { code: c }, q)),
        None => Err(ConvertError::Malformed),
    }
}

pub fn write_u64(out: &mut Vec<u8>, v: u64)
    ensures
        final(out)@ == old(out)@ + u64_bytes(v),
{
    out.push(((v >> 56u64) & 0xffu64) as u8);
    out.push(((v >> 48u64) & 0xffu64) as u8);
    out.push(((v >> 40u64) & 0xffu64) as u8);
    out.push(((v >> 32u64) & 0xffu64) as u8);
    out.push(((v >> 24u64) & 0xffu64) as u8);
    out.push(((v >> 16u64) & 0xffu64) as u8);
    out.push(((v >> 8u64) & 0xffu64) as u8);
    out.push((v & 0xffu64) as u8);
    assert(out@ =~= old(out)@ + u64_bytes(v));
}

pub fn write_bool(out: &mut Vec<u8>, b: bool)
    ensures
        final(out)@ == old(out)@ + enc_bool(b),
{
    if b {
        out.push(1u8);
    } else {
        out.push(0u8);
    }
    assert(out@ =~= old(out)@ + enc_bool(b));
}

pub fn write_bytes(out: &mut Vec<u8>, b: &[u8])
    ensures
        final(out)@ == old(out)@ + enc_bytes(b@),
{
    write_u64(out, b.len() as u64);
    let ghost mid = out@;
    let mut i: usize = 0;
    while i < b.len()
        invariant
            i <= b@.len(),
            out@ == mid + b@.subrange(0, i as int),
        decreases b@.len() - i,
    {
        out.push(b[i]);
        i = i + 1;
        assert(out@ =~= mid + b@.subrange(0, i as int));
    }
    assert(b@.subrange(0, b@.len() as int) =~= b@);
    assert(out@ =~= old(out)@ + enc_bytes(b@));
}

pub fn write_ubig(out: &mut Vec<u8>, u: &UBig)
    ensures
        final(out)@ == old(out)@ + enc_ubig(*u),
{
    match u {
        UBig::Small(v) => {
            out.push(TAG_UINT64);
            write_u64(out, *v);
        },
        UBig::Large(b) => {
            out.push(TAG_BYTES);
            write_bytes(out, b.as_slice());
        },
    }
    assert(out@ =~= old(out)@ + enc_ubig(*u));
}

pub fn write_opt_ubig(out: &mut Vec<u8>, o: &Option<UBig>)
    ensures
        final(out)@ == old(out)@ + enc_opt_ubig(*o),
{
    match o {
        Some(u) => write_ubig(out, u),
        None => {
            out.push(TAG_NONE);
            assert(out@ =~= old(out)@ + enc_opt_ubig(*o));
        },
    }
}

} // verus!
