//! Unbounded non-negative identifiers, kept in a compact canonical form.

use vstd::prelude::*;

verus! {

/// The most bytes an identifier may have on the wire (256 MiB), well within
/// what ibig accepts on 32- and 64-bit targets.
pub const MAX_ID_BYTES: usize = 0x1000_0000;

/// The number that a big-endian byte sequence denotes.
pub open spec fn be_value(s: Seq<u8>) -> nat
    decreases s.len(),
{
    if s.len() == 0 {
        0
    } else {
        be_value(s.drop_last()) * 256 + s.last() as nat
    }
}

/// The sequence without its leading zero bytes.
pub open spec fn strip_zeros(s: Seq<u8>) -> Seq<u8>
    decreases s.len(),
{
    if s.len() > 0 && s[0] == 0 {
        strip_zeros(s.drop_first())
    } else {
        s
    }
}

pub open spec fn pow256(n: nat) -> nat
    decreases n,
{
    if n == 0 {
        1
    } else {
        256 * pow256((n - 1) as nat)
    }
}

/// The largest value of the compact form, 2^64 - 1.
pub open spec fn u64_limit() -> nat {
    0xffff_ffff_ffff_ffffnat
}

pub proof fn lemma_pow256_8()
    ensures
        pow256(8) == u64_limit() + 1,
{
    reveal_with_fuel(pow256, 9);
}

pub proof fn lemma_pow256_mono(a: nat, b: nat)
    requires
        a <= b,
    ensures
        pow256(a) <= pow256(b),
    decreases b,
{
    if a < b {
        lemma_pow256_mono(a, (b - 1) as nat);
        assert(pow256(b) == 256 * pow256((b - 1) as nat));
    }
}

pub proof fn lemma_be_value_bound(s: Seq<u8>)
    ensures
        be_value(s) < pow256(s.len()),
    decreases s.len(),
{
    if s.len() > 0 {
        let init = s.drop_last();
        lemma_be_value_bound(init);
        let a = be_value(init);
        let p = pow256(init.len());
        let l = s.last() as nat;
        assert(a * 256 + l < 256 * p) by (nonlinear_arith)
            requires
                a < p,
                l < 256,
        ;
    }
}

pub proof fn lemma_be_value_lower(s: Seq<u8>)
    requires
        s.len() > 0,
        s[0] != 0,
    ensures
        be_value(s) >= pow256((s.len() - 1) as nat),
    decreases s.len(),
{
    if s.len() == 1 {
        reveal_with_fuel(be_value, 2);
        assert(s.drop_last().len() == 0);
    } else {
        let init = s.drop_last();
        assert(init[0] == s[0]);
        lemma_be_value_lower(init);
        let a = be_value(init);
        let p = pow256((init.len() - 1) as nat);
        assert(a * 256 >= p * 256) by (nonlinear_arith)
            requires
                a >= p,
        ;
    }
}

/// A canonical byte sequence that is too long for the compact form denotes a
/// number above 2^64 - 1.
pub proof fn lemma_long_is_large(s: Seq<u8>)
    requires
        s.len() > 8,
        s[0] != 0,
    ensures
        be_value(s) > u64_limit(),
{
    lemma_be_value_lower(s);
    lemma_pow256_mono(8, (s.len() - 1) as nat);
    lemma_pow256_8();
}

pub proof fn lemma_strip_zeros_props(s: Seq<u8>)
    ensures
        strip_zeros(s).len() <= s.len(),
        strip_zeros(s).len() > 0 ==> strip_zeros(s)[0] != 0,
        s.len() > 0 && s[0] != 0 ==> strip_zeros(s) == s,
    decreases s.len(),
{
    if s.len() > 0 && s[0] == 0 {
        lemma_strip_zeros_props(s.drop_first());
    }
}

/// A non-negative identifier of unbounded magnitude.
///
/// Values up to 2^64 - 1 are held as `Small`; larger ones as their
/// big-endian bytes, without leading zeros.
#[derive(Clone, Debug)]
pub enum UBig {
    Small(u64),
    Large(Vec<u8>),
}

impl UBig {
    /// The number denoted.
    pub open spec fn value(&self) -> nat {
        match self {
            UBig::Small(v) => *v as nat,
            UBig::Large(b) => be_value(b@),
        }
    }

    /// Each number has exactly one form: `Large` only above 2^64 - 1, and
    /// without leading zero bytes.
    pub open spec fn wf(&self) -> bool {
        match self {
            UBig::Small(_) => true,
            UBig::Large(b) => 8 < b@.len() <= MAX_ID_BYTES && b@[0] != 0,
        }
    }

    /// A copy of the identifier, with the same number and form.
    pub fn copy(&self) -> (r: UBig)
        ensures
            r.value() == self.value(),
            r.wf() == self.wf(),
            self.wf() ==> (r.value() <= u64_limit() <==> r is Small),
    {
        match self {
            UBig::Small(v) => UBig::Small(*v),
            UBig::Large(b) => {
                proof {
                    if self.wf() {
                        lemma_long_is_large(b@);
                    }
                }
                UBig::Large(b.clone())
            },
        }
    }

    /// Whether the identifier is in its canonical form.
    pub fn is_wf(&self) -> (r: bool)
        ensures
            r == self.wf(),
    {
        match self {
            UBig::Small(_) => true,
            UBig::Large(b) => b.len() > 8 && b.len() <= MAX_ID_BYTES && b[0] != 0,
        }
    }

    pub fn from_u64(v: u64) -> (r: UBig)
        ensures
            r.wf(),
            r.value() == v,
            r == UBig::Small(v),
    {
        UBig::Small(v)
    }

    /// The number as a `u64`, where it fits.
    pub fn to_u64(&self) -> (r: Option<u64>)
        requires
            self.wf(),
        ensures
            r.is_some() <==> self.value() <= u64_limit(),
            r.is_some() ==> r.unwrap() == self.value(),
    {
        match self {
            UBig::Small(v) => Some(*v),
            UBig::Large(b) => {
                proof {
                    lemma_long_is_large(b@);
                }
                None
            },
        }
    }

    /// Reads a number from big-endian bytes; leading zeros are allowed.
    pub fn from_be_bytes(bytes: &[u8]) -> (r: UBig)
        requires
            bytes@.len() <= MAX_ID_BYTES,
        ensures
            r.wf(),
            r.value() == be_value(strip_zeros(bytes@)),
    {
        let trimmed = trim_be_bytes(bytes);
        proof {
            lemma_strip_zeros_props(bytes@);
        }
        if trimmed.len() <= 8 {
            let v = small_be_value(&trimmed);
            UBig::Small(v)
        } else {
            UBig::Large(trimmed)
        }
    }
}

/// Relies on ibig's `UBig::from_be_bytes` and `UBig::to_be_bytes`: reading
/// big-endian bytes and writing them back gives the same bytes without their
/// leading zeros (none at all for zero). ibig panics only on numbers longer
/// than its `MAX_BIT_LEN`, which on 32- and 64-bit targets is far above
/// `MAX_ID_BYTES`.
#[verifier::external_body]
fn trim_be_bytes(b: &[u8]) -> (r: Vec<u8>)
    requires
        b@.len() <= MAX_ID_BYTES,
    ensures
        r@ == strip_zeros(b@),
{
    ibig::UBig::from_be_bytes(b).to_be_bytes()
}

/// The number held by at most eight big-endian bytes.
fn small_be_value(b: &Vec<u8>) -> (r: u64)
    requires
        b@.len() <= 8,
    ensures
        r == be_value(b@),
{
    let mut acc: u64 = 0;
    let mut i: usize = 0;
    while i < b.len()
        invariant
            i <= b@.len() <= 8,
            acc == be_value(b@.take(i as int)),
        decreases b@.len() - i,
    {
        proof {
            lemma_be_value_bound(b@.take(i as int));
            lemma_pow256_mono(i as nat, 7);
            reveal_with_fuel(pow256, 8);
            assert(b@.take(i as int + 1).drop_last() == b@.take(i as int));
        }
        acc = acc * 256 + b[i] as u64;
        i = i + 1;
    }
    assert(b@.take(i as int) == b@);
    acc
}

} // verus!
