use vstd::prelude::*;

use crate::io::{Decode, Encode, Write};

verus! {

// ---------------------------------------------------------------------------
// Big-endian integers
// ---------------------------------------------------------------------------

/// The value of a byte sequence read as a big-endian unsigned integer.
pub open spec fn be_value(s: Seq<u8>) -> nat
    decreases s.len(),
{
    if s.len() == 0 {
        0
    } else {
        be_value(s.drop_last()) * 256 + s.last() as nat
    }
}

/// The `k` low-order bytes of `v`, most significant first.
pub open spec fn be_bytes(v: nat, k: nat) -> Seq<u8>
    decreases k,
{
    if k == 0 {
        Seq::empty()
    } else {
        be_bytes(v / 256, (k - 1) as nat).push((v % 256) as u8)
    }
}

/// `256` to the power `k`.
pub open spec fn pow256(k: nat) -> nat
    decreases k,
{
    if k == 0 {
        1
    } else {
        256 * pow256((k - 1) as nat)
    }
}

pub proof fn lemma_pow256_mono(a: nat, b: nat)
    requires
        a <= b,
    ensures
        1 <= pow256(a) <= pow256(b),
    decreases b,
{
    if a < b {
        lemma_pow256_mono(a, (b - 1) as nat);
    } else if b > 0 {
        lemma_pow256_mono((b - 1) as nat, (b - 1) as nat);
    }
}

pub proof fn lemma_pow256_values()
    ensures
        pow256(1) == 0x100,
        pow256(2) == 0x1_0000,
        pow256(4) == 0x1_0000_0000,
        pow256(8) == 0x1_0000_0000_0000_0000,
{
    reveal_with_fuel(pow256, 9);
}

pub proof fn lemma_be_bytes_len(v: nat, k: nat)
    ensures
        be_bytes(v, k).len() == k,
    decreases k,
{
    if k > 0 {
        lemma_be_bytes_len(v / 256, (k - 1) as nat);
    }
}

pub proof fn lemma_be_value_bound(s: Seq<u8>)
    ensures
        be_value(s) < pow256(s.len()),
    decreases s.len(),
{
    if s.len() > 0 {
        lemma_be_value_bound(s.drop_last());
        let a = be_value(s.drop_last());
        let p = pow256((s.len() - 1) as nat);
        let b = s.last() as nat;
        assert(a * 256 + b < 256 * p) by (nonlinear_arith)
            requires
                a < p,
                b < 256,
        ;
    }
}

/// Reading back the bytes of a value that fits gives the value.
pub proof fn lemma_be_value_of_bytes(v: nat, k: nat)
    requires
        v < pow256(k),
    ensures
        be_value(be_bytes(v, k)) == v,
    decreases k,
{
    if k == 0 {
    } else {
        let p = pow256((k - 1) as nat);
        assert(v / 256 < p) by (nonlinear_arith)
            requires
                v < 256 * p,
        ;
        lemma_be_value_of_bytes(v / 256, (k - 1) as nat);
        let s = be_bytes(v, k);
        assert(s.drop_last() =~= be_bytes(v / 256, (k - 1) as nat));
        assert((v / 256) * 256 + v % 256 == v) by (nonlinear_arith);
    }
}

/// Writing the value of some bytes in as many bytes gives them back.
pub proof fn lemma_be_bytes_of_value(s: Seq<u8>)
    ensures
        be_bytes(be_value(s), s.len()) == s,
    decreases s.len(),
{
    if s.len() > 0 {
        let a = be_value(s.drop_last());
        let b = s.last() as nat;
        assert((a * 256 + b) / 256 == a && (a * 256 + b) % 256 == b) by (nonlinear_arith)
            requires
                b < 256,
        ;
        lemma_be_bytes_of_value(s.drop_last());
        assert(be_bytes(be_value(s), s.len()) =~= s.drop_last().push(s.last()));
        assert(s.drop_last().push(s.last()) =~= s);
    }
}

/// Reads `k` bytes of `bytes` from `start` as a big-endian integer.
pub fn read_be(bytes: &[u8], start: usize, k: usize) -> (r: u64)
    requires
        k <= 8,
        start + k <= bytes@.len(),
    ensures
        r as nat == be_value(bytes@.subrange(start as int, start + k)),
{
    let mut v: u64 = 0;
    let mut i: usize = start;
    proof {
        lemma_pow256_values();
        assert(bytes@.subrange(start as int, start as int) =~= Seq::<u8>::empty());
    }
    let total = bytes.len();
    let end = start + k;
    while i < end
        invariant
            end == start + k,
            start <= i <= start + k,
            start + k <= bytes@.len(),
            k <= 8,
            pow256(8) == 0x1_0000_0000_0000_0000,
            v as nat == be_value(bytes@.subrange(start as int, i as int)),
        decreases end - i,
    {
        proof {
            let sub = bytes@.subrange(start as int, i as int);
            lemma_be_value_bound(sub);
            lemma_pow256_mono((i - start) as nat, 7);
            lemma_pow256_mono(7, 7);
            assert(pow256(8) == 256 * pow256(7));
            let nsub = bytes@.subrange(start as int, i + 1);
            assert(nsub.drop_last() =~= sub);
        }
        let b = bytes[i];
        assert((v as nat) * 256 + b as nat <= 0xFFFF_FFFF_FFFF_FFFF) by (nonlinear_arith)
            requires
                (v as nat) * 256 < 0x1_0000_0000_0000_0000,
                (v as nat) < 0x1_0000_0000_0000_00,
                b < 256,
        ;
        v = v * 256 + b as u64;
        i = i + 1;
    }
    v
}

/// Appends the `k` low-order bytes of `v`, most significant first.
fn push_be(v: u64, k: usize, out: &mut Vec<u8>)
    ensures
        final(out)@ == old(out)@ + be_bytes(v as nat, k as nat),
    decreases k,
{
    if k > 0 {
        push_be(v / 256, k - 1, out);
        out.push((v % 256) as u8);
        assert(be_bytes(v as nat, k as nat) == be_bytes((v / 256) as nat, (k - 1) as nat).push(
            (v % 256) as u8,
        ));
    }
}

// ---------------------------------------------------------------------------
// Errors
// ---------------------------------------------------------------------------

#[derive(Clone, Copy, PartialEq, Eq, Structural, Debug)]
pub enum VarintDecodingError {
    BufferTooShort,
    NonMinimalIntegerEncoding,
    InvalidValue,
}

#[derive(Clone, Copy, PartialEq, Eq, Structural, Debug)]
pub enum TlvDecodingError {
    CannotDecodeType { err: VarintDecodingError },
    CannotDecodeLength { typ: u32, err: VarintDecodingError },
    CannotDecodeValue { typ: u32, len: usize },
}

// ---------------------------------------------------------------------------
// Varint: the encoding of TLV types and lengths
// ---------------------------------------------------------------------------

/// The number of bytes after the marker byte of a long varint.
pub open spec fn varint_body_len(marker: u8) -> nat {
    if marker == 253 {
        2
    } else if marker == 254 {
        4
    } else {
        8
    }
}

/// The largest value that the next shorter varint form can hold.
pub open spec fn varint_shorter_max(marker: u8) -> nat {
    if marker == 253 {
        252
    } else if marker == 254 {
        0xFFFF
    } else {
        0xFFFF_FFFF
    }
}

/// The minimal varint encoding of `v`: one byte up to 252, else a marker
/// (253, 254, 255) and 2, 4 or 8 big-endian bytes.
pub open spec fn varint_encoding(v: u64) -> Seq<u8> {
    if v <= 252 {
        seq![v as u8]
    } else if v <= 0xFFFF {
        seq![253u8] + be_bytes(v as nat, 2)
    } else if v <= 0xFFFF_FFFF {
        seq![254u8] + be_bytes(v as nat, 4)
    } else {
        seq![255u8] + be_bytes(v as nat, 8)
    }
}

/// What reading a varint from the front of `s` gives: the value and the number
/// of bytes it took, or why it failed.
pub open spec fn varint_parse(s: Seq<u8>) -> Result<(u64, nat), VarintDecodingError> {
    if s.len() == 0 {
        Err(VarintDecodingError::BufferTooShort)
    } else if s[0] <= 252 {
        Ok((s[0] as u64, 1))
    } else if s.len() < varint_body_len(s[0]) + 1 {
        Err(VarintDecodingError::BufferTooShort)
    } else {
        let val = be_value(s.subrange(1, varint_body_len(s[0]) + 1int));
        if val > varint_shorter_max(s[0]) {
            Ok((val as u64, varint_body_len(s[0]) + 1))
        } else {
            Err(VarintDecodingError::NonMinimalIntegerEncoding)
        }
    }
}

pub proof fn lemma_varint_encoding_len(v: u64)
    ensures
        varint_encoding(v).len() == (if v <= 252 {
            1nat
        } else if v <= 0xFFFF {
            3nat
        } else if v <= 0xFFFF_FFFF {
            5nat
        } else {
            9nat
        }),
{
    lemma_be_bytes_len(v as nat, 2);
    lemma_be_bytes_len(v as nat, 4);
    lemma_be_bytes_len(v as nat, 8);
}

/// Decoding the encoding of any `u64`, followed by anything, gives it back
/// with the length of its encoding.
pub proof fn lemma_varint_round_trip(v: u64, rest: Seq<u8>)
    ensures
        varint_parse(varint_encoding(v) + rest) == Ok::<(u64, nat), VarintDecodingError>(
            (v, varint_encoding(v).len()),
        ),
{
    let e = varint_encoding(v);
    let s = e + rest;
    lemma_varint_encoding_len(v);
    lemma_pow256_values();
    if v > 252 {
        let k: nat = if v <= 0xFFFF {
            2
        } else if v <= 0xFFFF_FFFF {
            4
        } else {
            8
        };
        assert(s.subrange(1, k + 1int) =~= be_bytes(v as nat, k));
        lemma_be_value_of_bytes(v as nat, k);
    }
}

/// Every input that decodes as a varint starts with the minimal encoding of
/// its value: no non-minimal form is accepted.
pub proof fn lemma_varint_parse_minimal(s: Seq<u8>)
    requires
        varint_parse(s) is Ok,
    ensures
        ({
            let (v, n) = varint_parse(s)->Ok_0;
            n == varint_encoding(v).len() && s.subrange(0, n as int) == varint_encoding(v)
        }),
{
    let (v, n) = varint_parse(s)->Ok_0;
    lemma_varint_encoding_len(v);
    lemma_pow256_values();
    if s[0] <= 252 {
        assert(s.subrange(0, 1) =~= seq![v as u8]);
    } else {
        let k = varint_body_len(s[0]);
        let body = s.subrange(1, k + 1int);
        lemma_be_value_bound(body);
        lemma_be_bytes_of_value(body);
        assert(s.subrange(0, n as int) =~= seq![s[0]] + body);
    }
}

/// A varint: the variable-length integer of TLV type and length fields.
#[derive(Clone, Copy, PartialEq, Eq, Structural, Debug)]
pub struct Varint(pub u64);

impl Varint {
    pub fn try_decode(bytes: &[u8]) -> (r: Result<(Varint, usize), VarintDecodingError>)
        ensures
            match (r, varint_parse(bytes@)) {
                (Ok((v, n)), Ok((sv, sn))) => v.0 == sv && n as nat == sn,
                (Err(e), Err(se)) => e == se,
                _ => false,
            },
    {
        let len = bytes.len();
        if len == 0 {
            return Err(VarintDecodingError::BufferTooShort);
        }
        let first = bytes[0];
        if first <= 252 {
            return Ok((Varint(first as u64), 1));
        }
        let (k, shorter_max): (usize, u64) = if first == 253 {
            (2, 252)
        } else if first == 254 {
            (4, 0xFFFF)
        } else {
            (8, 0xFFFF_FFFF)
        };
        if len < k + 1 {
            return Err(VarintDecodingError::BufferTooShort);
        }
        let val = read_be(bytes, 1, k);
        if val > shorter_max {
            Ok((Varint(val), k + 1))
        } else {
            Err(VarintDecodingError::NonMinimalIntegerEncoding)
        }
    }
}

impl Encode for Varint {
    open spec fn encoding(&self) -> Seq<u8> {
        varint_encoding(self.0)
    }

    open spec fn encodable(&self) -> bool {
        true
    }

    fn encoded_length(&self) -> (r: usize) {
        proof {
            lemma_varint_encoding_len(self.0);
        }
        if self.0 <= 252 {
            1
        } else if self.0 <= 0xFFFF {
            3
        } else if self.0 <= 0xFFFF_FFFF {
            5
        } else {
            9
        }
    }

    fn append_to(&self, out: &mut Vec<u8>) {
        assert(self.encoding() == varint_encoding(self.0));
        let v = self.0;
        if v <= 252 {
            out.push(v as u8);
            assert(out@ =~= old(out)@ + seq![v as u8]);
        } else {
            let (marker, k): (u8, usize) = if v <= 0xFFFF {
                (253, 2)
            } else if v <= 0xFFFF_FFFF {
                (254, 4)
            } else {
                (255, 8)
            };
            out.push(marker);
            let ghost mid = out@;
            push_be(v, k, out);
            assert(out@ =~= old(out)@ + (seq![marker] + be_bytes(v as nat, k as nat)));
        }
    }
}

// ---------------------------------------------------------------------------
// Non-negative integers as TLV values: 1, 2, 4 or 8 big-endian bytes
// ---------------------------------------------------------------------------

/// The shortest of the 1, 2, 4 or 8 byte big-endian forms of `v`.
pub open spec fn unsigned_encoding(v: u64) -> Seq<u8> {
    if v <= 252 {
        be_bytes(v as nat, 1)
    } else if v <= 0xFFFF {
        be_bytes(v as nat, 2)
    } else if v <= 0xFFFF_FFFF {
        be_bytes(v as nat, 4)
    } else {
        be_bytes(v as nat, 8)
    }
}

/// A TLV value read as an integer: defined on 1, 2, 4 and 8 bytes.
pub open spec fn unsigned_parse(s: Seq<u8>) -> Option<u64> {
    if s.len() == 1 || s.len() == 2 || s.len() == 4 || s.len() == 8 {
        Some(be_value(s) as u64)
    } else {
        None
    }
}

pub proof fn lemma_unsigned_round_trip(v: u64)
    ensures
        unsigned_parse(unsigned_encoding(v)) == Some(v),
{
    lemma_pow256_values();
    lemma_be_bytes_len(v as nat, 1);
    lemma_be_bytes_len(v as nat, 2);
    lemma_be_bytes_len(v as nat, 4);
    lemma_be_bytes_len(v as nat, 8);
    if v <= 252 {
        lemma_be_value_of_bytes(v as nat, 1);
    } else if v <= 0xFFFF {
        lemma_be_value_of_bytes(v as nat, 2);
    } else if v <= 0xFFFF_FFFF {
        lemma_be_value_of_bytes(v as nat, 4);
    } else {
        lemma_be_value_of_bytes(v as nat, 8);
    }
}

/// Reads a whole TLV value as an integer.
pub fn unsigned_from_value(bytes: &[u8]) -> (r: Option<u64>)
    ensures
        r == unsigned_parse(bytes@),
{
    let n = bytes.len();
    if n == 1 || n == 2 || n == 4 || n == 8 {
        let v = read_be(bytes, 0, n);
        assert(bytes@.subrange(0, n as int) =~= bytes@);
        Some(v)
    } else {
        None
    }
}

impl<'a> Decode<'a> for u64 {
    type Error = ();

    fn try_decode(bytes: &'a [u8]) -> (r: Result<(u64, usize), ()>)
        ensures
            match unsigned_parse(bytes@) {
                Some(v) => r == Ok::<(u64, usize), ()>((v, bytes@.len() as usize)),
                None => r is Err,
            },
    {
        match unsigned_from_value(bytes) {
            Some(v) => Ok((v, bytes.len())),
            None => Err(()),
        }
    }
}

impl Encode for u64 {
    open spec fn encoding(&self) -> Seq<u8> {
        unsigned_encoding(*self)
    }

    open spec fn encodable(&self) -> bool {
        true
    }

    fn encoded_length(&self) -> (r: usize) {
        proof {
            lemma_be_bytes_len(*self as nat, 1);
            lemma_be_bytes_len(*self as nat, 2);
            lemma_be_bytes_len(*self as nat, 4);
            lemma_be_bytes_len(*self as nat, 8);
        }
        if *self <= 252 {
            1
        } else if *self <= 0xFFFF {
            2
        } else if *self <= 0xFFFF_FFFF {
            4
        } else {
            8
        }
    }

    fn append_to(&self, out: &mut Vec<u8>) {
        let k: usize = if *self <= 252 {
            1
        } else if *self <= 0xFFFF {
            2
        } else if *self <= 0xFFFF_FFFF {
            4
        } else {
            8
        };
        push_be(*self, k, out);
        assert(self.encoding() == unsigned_encoding(*self));
    }
}

// ---------------------------------------------------------------------------
// TLV
// ---------------------------------------------------------------------------

/// The encoding of a TLV of type `typ` holding `val`.
pub open spec fn tlv_encoding(typ: u32, val: Seq<u8>) -> Seq<u8> {
    varint_encoding(typ as u64) + varint_encoding(val.len() as u64) + val
}

/// What reading one TLV from the front of `s` gives: its type, its value and
/// the number of bytes it took, or why it failed.
#[verifier::opaque]
pub open spec fn tlv_parse(s: Seq<u8>) -> Result<(u32, Seq<u8>, nat), TlvDecodingError> {
    match varint_parse(s) {
        Err(e) => Err(TlvDecodingError::CannotDecodeType { err: e }),
        Ok((t, tn)) => if t == 0 || t > u32::MAX {
            Err(TlvDecodingError::CannotDecodeType { err: VarintDecodingError::InvalidValue })
        } else {
            match varint_parse(s.subrange(tn as int, s.len() as int)) {
                Err(e) => Err(TlvDecodingError::CannotDecodeLength { typ: t as u32, err: e }),
                Ok((l, ln)) => if l > usize::MAX {
                    Err(
                        TlvDecodingError::CannotDecodeLength {
                            typ: t as u32,
                            err: VarintDecodingError::InvalidValue,
                        },
                    )
                } else if tn + ln + l > s.len() {
                    Err(TlvDecodingError::CannotDecodeValue { typ: t as u32, len: l as usize })
                } else {
                    Ok(
                        (
                            t as u32,
                            s.subrange((tn + ln) as int, (tn + ln + l) as int),
                            (tn + ln + l) as nat,
                        ),
                    )
                },
            }
        },
    }
}

/// Whether a failed read could succeed once more bytes have arrived.
pub open spec fn tlv_error_needs_more(e: TlvDecodingError) -> bool {
    match e {
        TlvDecodingError::CannotDecodeType { err } => err == VarintDecodingError::BufferTooShort,
        TlvDecodingError::CannotDecodeLength { err, .. } => err
            == VarintDecodingError::BufferTooShort,
        TlvDecodingError::CannotDecodeValue { .. } => true,
    }
}

/// Decoding an encoded TLV, followed by anything, gives back its type and value.
pub proof fn lemma_tlv_round_trip(typ: u32, val: Seq<u8>, rest: Seq<u8>)
    requires
        typ != 0,
        val.len() <= usize::MAX,
    ensures
        tlv_parse(tlv_encoding(typ, val) + rest) == Ok::<
            (u32, Seq<u8>, nat),
            TlvDecodingError,
        >((typ, val, tlv_encoding(typ, val).len())),
{
    reveal(tlv_parse);
    let te = varint_encoding(typ as u64);
    let le = varint_encoding(val.len() as u64);
    let s = tlv_encoding(typ, val) + rest;
    assert(s =~= te + (le + val + rest));
    lemma_varint_round_trip(typ as u64, le + val + rest);
    assert(s.subrange(te.len() as int, s.len() as int) =~= le + (val + rest));
    lemma_varint_round_trip(val.len() as u64, val + rest);
    assert(s.subrange((te.len() + le.len()) as int, (te.len() + le.len() + val.len()) as int) =~= val);
}

/// Every input that decodes as a TLV starts with the canonical encoding of
/// what it decoded to.
/// Nothing decodes from no bytes, and more bytes may help.
pub proof fn lemma_tlv_parse_empty(s: Seq<u8>)
    requires
        s.len() == 0,
    ensures
        tlv_parse(s) == Err::<(u32, Seq<u8>, nat), TlvDecodingError>(
            TlvDecodingError::CannotDecodeType { err: VarintDecodingError::BufferTooShort },
        ),
{
    reveal(tlv_parse);
}

pub proof fn lemma_tlv_parse_canonical(s: Seq<u8>)
    requires
        tlv_parse(s) is Ok,
    ensures
        ({
            let (t, v, n) = tlv_parse(s)->Ok_0;
            t != 0 && v.len() <= usize::MAX && n == tlv_encoding(t, v).len() && n <= s.len()
                && s.subrange(0, n as int) == tlv_encoding(t, v)
        }),
{
    reveal(tlv_parse);
    let (t, v, n) = tlv_parse(s)->Ok_0;
    lemma_varint_parse_minimal(s);
    let (t64, tn) = varint_parse(s)->Ok_0;
    let rest = s.subrange(tn as int, s.len() as int);
    lemma_varint_parse_minimal(rest);
    let (l, ln) = varint_parse(rest)->Ok_0;
    assert(rest.subrange(0, ln as int) =~= s.subrange(tn as int, (tn + ln) as int));
    assert(s.subrange(0, n as int) =~= s.subrange(0, tn as int) + s.subrange(tn as int, (tn + ln) as int)
        + v);
}

/// A view of one TLV: a non-zero type and the bytes of its value.
#[derive(Clone, Copy, Debug)]
pub struct TLV<'a> {
    pub typ: u32,
    pub val: &'a [u8],
}

impl<'a> TLV<'a> {
    /// An unknown TLV may only be skipped if it is not critical: a type of 32
    /// or more that is even.
    pub fn type_is_critical(&self) -> (r: bool)
        ensures
            r == (self.typ < 32 || self.typ % 2 == 1),
    {
        self.typ < 32 || self.typ % 2 == 1
    }
}

impl<'a> Decode<'a> for TLV<'a> {
    type Error = TlvDecodingError;

    fn try_decode(bytes: &'a [u8]) -> (r: Result<(TLV<'a>, usize), TlvDecodingError>)
        ensures
            match (r, tlv_parse(bytes@)) {
                (Ok((tlv, n)), Ok((t, v, sn))) => tlv.typ == t && tlv.val@ == v && n as nat == sn,
                (Err(e), Err(se)) => e == se,
                _ => false,
            },
    {
        reveal(tlv_parse);
        let total = bytes.len();
        let (typ, typ_len) = match Varint::try_decode(bytes) {
            Ok(x) => x,
            Err(err) => {
                return Err(TlvDecodingError::CannotDecodeType { err });
            },
        };
        if typ.0 == 0 || typ.0 > 0xFFFF_FFFF {
            return Err(
                TlvDecodingError::CannotDecodeType { err: VarintDecodingError::InvalidValue },
            );
        }
        let typ = typ.0 as u32;
        let rest = &bytes[typ_len..total];
        let (len, len_len) = match Varint::try_decode(rest) {
            Ok(x) => x,
            Err(err) => {
                return Err(TlvDecodingError::CannotDecodeLength { typ, err });
            },
        };
        if len.0 > usize::MAX as u64 {
            return Err(
                TlvDecodingError::CannotDecodeLength {
                    typ,
                    err: VarintDecodingError::InvalidValue,
                },
            );
        }
        let len = len.0 as usize;
        let header = typ_len + len_len;
        if len > total - header {
            return Err(TlvDecodingError::CannotDecodeValue { typ, len });
        }
        let val = &bytes[header..header + len];
        Ok((TLV { typ, val }, header + len))
    }
}

impl<'a> Encode for TLV<'a> {
    open spec fn encoding(&self) -> Seq<u8> {
        tlv_encoding(self.typ, self.val@)
    }

    open spec fn encodable(&self) -> bool {
        self.typ != 0 && self.val@.len() + 18 <= usize::MAX
    }

    fn encoded_length(&self) -> (r: usize) {
        assert(self.encoding() == tlv_encoding(self.typ, self.val@));
        let l = self.val.len();
        proof {
            lemma_varint_encoding_len(self.typ as u64);
            lemma_varint_encoding_len(l as u64);
        }
        Varint(self.typ as u64).encoded_length() + Varint(l as u64).encoded_length() + l
    }

    fn append_to(&self, out: &mut Vec<u8>) {
        assert(self.encoding() == tlv_encoding(self.typ, self.val@));
        Varint(self.typ as u64).append_to(out);
        Varint(self.val.len() as u64).append_to(out);
        crate::io::append_bytes(out, self.val);
        assert(out@ =~= old(out)@ + self.encoding());
    }

    /// Writes the type and length, then the value as it stands.
    fn encode<W: Write>(&self, writer: &mut W) -> Result<(), W::Error> {
        let mut header: Vec<u8> = Vec::new();
        Varint(self.typ as u64).append_to(&mut header);
        Varint(self.val.len() as u64).append_to(&mut header);
        match writer.write(header.as_slice()) {
            Ok(()) => {},
            Err(e) => {
                return Err(e);
            },
        }
        writer.write(self.val)
    }
}

/// Appends the encoding of a TLV of type `typ` holding `val`.
pub fn append_tlv(out: &mut Vec<u8>, typ: u32, val: &[u8])
    ensures
        final(out)@ == old(out)@ + tlv_encoding(typ, val@),
{
    Varint(typ as u64).append_to(out);
    Varint(val.len() as u64).append_to(out);
    crate::io::append_bytes(out, val);
    assert(out@ =~= old(out)@ + tlv_encoding(typ, val@));
}

/// Whether a failed read could succeed once more bytes have arrived.
pub fn needs_more_bytes(e: TlvDecodingError) -> (r: bool)
    ensures
        r == tlv_error_needs_more(e),
{
    match e {
        TlvDecodingError::CannotDecodeType { err } => match err {
            VarintDecodingError::BufferTooShort => true,
            _ => false,
        },
        TlvDecodingError::CannotDecodeLength { err, .. } => match err {
            VarintDecodingError::BufferTooShort => true,
            _ => false,
        },
        TlvDecodingError::CannotDecodeValue { .. } => true,
    }
}

} // verus!
