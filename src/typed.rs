use vstd::prelude::*;

use crate::io::{Decode, Encode};
use crate::tlv::{append_tlv, tlv_encoding, tlv_parse, unsigned_encoding, TlvDecodingError, TLV};

verus! {

// Fields of a fixed TLV type: a flag with no value, an unsigned integer,
// opaque bytes, or a byte array of a fixed length.

/// Why a TLV of an expected type could not be read.
#[derive(Clone, Copy, Debug)]
pub enum DecodingError {
    TlvDecodingError(TlvDecodingError),
    WrongTlvType,
    InnerDecodingError,
}

/// Reads a TLV of type `typ` from the front of `bytes`: its value and the
/// number of bytes it took.
pub fn typed_value<'a>(bytes: &'a [u8], typ: u32) -> (r: Result<(&'a [u8], usize), DecodingError>)
    ensures
        match tlv_parse(bytes@) {
            Err(e) => r == Err::<(&'a [u8], usize), DecodingError>(
                DecodingError::TlvDecodingError(e),
            ),
            Ok((t, v, n)) => if t != typ {
                r == Err::<(&'a [u8], usize), DecodingError>(DecodingError::WrongTlvType)
            } else {
                r matches Ok((val, m)) && val@ == v && m as nat == n
            },
        },
{
    match TLV::try_decode(bytes) {
        Err(e) => Err(DecodingError::TlvDecodingError(e)),
        Ok((tlv, n)) => {
            if tlv.typ != typ {
                Err(DecodingError::WrongTlvType)
            } else {
                Ok((tlv.val, n))
            }
        },
    }
}

/// A TLV of type `TYPE` with an empty value.
#[derive(Clone, Copy, Debug)]
pub struct TypedEmpty<const TYPE: u32> {}

impl<const TYPE: u32> TypedEmpty<TYPE> {
    pub fn inner_length(&self) -> (r: usize)
        ensures
            r == 0,
    {
        0
    }

    /// Appends the value: nothing.
    pub fn encode_inner(&self, out: &mut Vec<u8>)
        ensures
            final(out)@ == old(out)@,
    {
    }
}

impl<const TYPE: u32> Encode for TypedEmpty<TYPE> {
    open spec fn encoding(&self) -> Seq<u8> {
        tlv_encoding(TYPE, Seq::empty())
    }

    open spec fn encodable(&self) -> bool {
        TYPE != 0
    }

    fn encoded_length(&self) -> (r: usize) {
        let empty: [u8; 0] = [];
        let t = TLV { typ: TYPE, val: empty.as_slice() };
        assert(t.val@ =~= Seq::<u8>::empty());
        t.encoded_length()
    }

    fn append_to(&self, out: &mut Vec<u8>) {
        let empty: [u8; 0] = [];
        assert(empty@ =~= Seq::<u8>::empty());
        assert(self.encoding() == tlv_encoding(TYPE, empty@));
        append_tlv(out, TYPE, empty.as_slice());
    }
}

/// A TLV of type `TYPE` holding an unsigned integer in its shortest form.
#[derive(Clone, Copy, Debug)]
pub struct TypedInteger<const TYPE: u32> {
    pub val: u64,
}

impl<const TYPE: u32> TypedInteger<TYPE> {
    pub fn inner_length(&self) -> (r: usize)
        ensures
            r == unsigned_encoding(self.val).len(),
    {
        self.val.encoded_length()
    }

    /// Appends the value: the integer in 1, 2, 4 or 8 big-endian bytes.
    pub fn encode_inner(&self, out: &mut Vec<u8>)
        ensures
            final(out)@ == old(out)@ + unsigned_encoding(self.val),
    {
        self.val.append_to(out)
    }
}

impl<const TYPE: u32> Encode for TypedInteger<TYPE> {
    open spec fn encoding(&self) -> Seq<u8> {
        tlv_encoding(TYPE, unsigned_encoding(self.val))
    }

    open spec fn encodable(&self) -> bool {
        TYPE != 0
    }

    fn encoded_length(&self) -> (r: usize) {
        let mut inner: Vec<u8> = Vec::new();
        self.val.append_to(&mut inner);
        proof {
            crate::tlv::lemma_be_bytes_len(self.val as nat, 1);
            crate::tlv::lemma_be_bytes_len(self.val as nat, 2);
            crate::tlv::lemma_be_bytes_len(self.val as nat, 4);
            crate::tlv::lemma_be_bytes_len(self.val as nat, 8);
        }
        let t = TLV { typ: TYPE, val: inner.as_slice() };
        t.encoded_length()
    }

    fn append_to(&self, out: &mut Vec<u8>) {
        let mut inner: Vec<u8> = Vec::new();
        self.val.append_to(&mut inner);
        assert(self.val.encoding() == unsigned_encoding(self.val));
        assert(inner@ =~= unsigned_encoding(self.val));
        assert(self.encoding() == tlv_encoding(TYPE, inner@));
        append_tlv(out, TYPE, inner.as_slice());
    }
}

/// A TLV of type `TYPE` holding opaque bytes.
#[derive(Clone, Copy, Debug)]
pub struct TypedBytes<'a, const TYPE: u32> {
    pub bytes: &'a [u8],
}

impl<'a, const TYPE: u32> TypedBytes<'a, TYPE> {
    pub fn inner_length(&self) -> (r: usize)
        ensures
            r == self.bytes@.len(),
    {
        self.bytes.len()
    }

    /// Appends the value: the bytes as they are.
    pub fn encode_inner(&self, out: &mut Vec<u8>)
        ensures
            final(out)@ == old(out)@ + self.bytes@,
    {
        crate::io::append_bytes(out, self.bytes)
    }
}

impl<'a, const TYPE: u32> Encode for TypedBytes<'a, TYPE> {
    open spec fn encoding(&self) -> Seq<u8> {
        tlv_encoding(TYPE, self.bytes@)
    }

    open spec fn encodable(&self) -> bool {
        TYPE != 0 && self.bytes@.len() + 18 <= usize::MAX
    }

    fn encoded_length(&self) -> (r: usize) {
        let t = TLV { typ: TYPE, val: self.bytes };
        t.encoded_length()
    }

    fn append_to(&self, out: &mut Vec<u8>) {
        assert(self.encoding() == tlv_encoding(TYPE, self.bytes@));
        append_tlv(out, TYPE, self.bytes);
    }
}

/// A TLV of type `TYPE` holding exactly `LEN` bytes.
#[derive(Clone, Copy, Debug)]
pub struct TypedArray<const TYPE: u32, const LEN: usize> {
    pub bytes: [u8; LEN],
}

impl<const TYPE: u32, const LEN: usize> TypedArray<TYPE, LEN> {
    pub fn inner_length(&self) -> (r: usize)
        ensures
            r == LEN,
    {
        LEN
    }

    /// Appends the value: the bytes as they are.
    pub fn encode_inner(&self, out: &mut Vec<u8>)
        ensures
            final(out)@ == old(out)@ + self.bytes@,
    {
        crate::io::append_bytes(out, self.bytes.as_slice())
    }
}

impl<const TYPE: u32, const LEN: usize> Encode for TypedArray<TYPE, LEN> {
    open spec fn encoding(&self) -> Seq<u8> {
        tlv_encoding(TYPE, self.bytes@)
    }

    open spec fn encodable(&self) -> bool {
        TYPE != 0 && LEN + 18 <= usize::MAX
    }

    fn encoded_length(&self) -> (r: usize) {
        let t = TLV { typ: TYPE, val: self.bytes.as_slice() };
        t.encoded_length()
    }

    fn append_to(&self, out: &mut Vec<u8>) {
        assert(self.encoding() == tlv_encoding(TYPE, self.bytes@));
        append_tlv(out, TYPE, self.bytes.as_slice());
    }
}

} // verus!
