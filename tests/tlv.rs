use ndn_forwarder::io::{Decode, Encode, Write};
use ndn_forwarder::tlv::{TlvDecodingError, VarintDecodingError, TLV};
use ndn_forwarder::typed::{
    typed_value, DecodingError, TypedArray, TypedBytes, TypedEmpty, TypedInteger,
};

struct SliceBuffer<const N: usize> {
    bytes: [u8; N],
    cursor: usize,
}

#[derive(Copy, Clone, PartialEq, Eq, Debug)]
struct BufferTooShort {}

impl<const N: usize> Write for SliceBuffer<N> {
    type Error = BufferTooShort;
    fn write(&mut self, bytes: &[u8]) -> Result<(), BufferTooShort> {
        if self.cursor + bytes.len() <= N {
            self.bytes[self.cursor..(self.cursor + bytes.len())].copy_from_slice(bytes);
            self.cursor += bytes.len();
            return Ok(());
        }
        Err(BufferTooShort {})
    }
}

#[test]
fn test_unsigned_size() {
    for v in 0u64..252 {
        assert_eq!(v.encoded_length(), 1);
    }
    assert_eq!(253u64.encoded_length(), 2);
    assert_eq!(254u64.encoded_length(), 2);
    assert_eq!(255u64.encoded_length(), 2);
    assert_eq!(256u64.encoded_length(), 2);
    assert_eq!(65535u64.encoded_length(), 2);
    assert_eq!(65536u64.encoded_length(), 4);
    assert_eq!(4294967295u64.encoded_length(), 4);
    assert_eq!(4294967296u64.encoded_length(), 8);
}

#[test]
fn test_unsigned_encode_decode() {
    let mut buf: Vec<u8> = Vec::new();

    let mut s0: SliceBuffer<0> = SliceBuffer { bytes: [], cursor: 0 };
    let mut s1: SliceBuffer<1> = SliceBuffer { bytes: [0; 1], cursor: 0 };
    let mut s2: SliceBuffer<2> = SliceBuffer { bytes: [0; 2], cursor: 0 };
    let mut s3: SliceBuffer<3> = SliceBuffer { bytes: [0; 3], cursor: 0 };
    let mut s4: SliceBuffer<4> = SliceBuffer { bytes: [0; 4], cursor: 0 };
    let mut s7: SliceBuffer<7> = SliceBuffer { bytes: [0; 7], cursor: 0 };
    let mut s8: SliceBuffer<8> = SliceBuffer { bytes: [0; 8], cursor: 0 };

    for v in (0u64..2)
        .chain(252..256)
        .chain(65535..65537)
        .chain(4294967295..4294967297)
    {
        buf.clear();
        s0.cursor = 0;
        s1.cursor = 0;
        s2.cursor = 0;
        s3.cursor = 0;
        s4.cursor = 0;
        s7.cursor = 0;
        s8.cursor = 0;

        let ret = v.encode(&mut buf);
        assert_eq!(ret, Ok(()));
        assert_eq!(v.encoded_length(), buf.len());
        let dec = u64::try_decode(&buf);
        assert!(dec.is_ok());
        let (dec, dec_len) = dec.unwrap();
        assert_eq!(dec, v);
        assert_eq!(dec_len, v.encoded_length());

        match v.encoded_length() {
            1 => {
                assert_eq!(v.encode(&mut s0), Err(BufferTooShort {}));
                assert_eq!(v.encode(&mut s1), Ok(()));
                assert_eq!(v.encode(&mut s2), Ok(()));
                assert_eq!(v.encode(&mut s3), Ok(()));
                assert_eq!(v.encode(&mut s4), Ok(()));
                assert_eq!(v.encode(&mut s7), Ok(()));
                assert_eq!(v.encode(&mut s8), Ok(()));
            }
            2 => {
                assert_eq!(v.encode(&mut s0), Err(BufferTooShort {}));
                assert_eq!(v.encode(&mut s1), Err(BufferTooShort {}));
                assert_eq!(v.encode(&mut s2), Ok(()));
                assert_eq!(v.encode(&mut s3), Ok(()));
                assert_eq!(v.encode(&mut s4), Ok(()));
                assert_eq!(v.encode(&mut s7), Ok(()));
                assert_eq!(v.encode(&mut s8), Ok(()));
            }
            4 => {
                assert_eq!(v.encode(&mut s0), Err(BufferTooShort {}));
                assert_eq!(v.encode(&mut s1), Err(BufferTooShort {}));
                assert_eq!(v.encode(&mut s2), Err(BufferTooShort {}));
                assert_eq!(v.encode(&mut s3), Err(BufferTooShort {}));
                assert_eq!(v.encode(&mut s4), Ok(()));
                assert_eq!(v.encode(&mut s7), Ok(()));
                assert_eq!(v.encode(&mut s8), Ok(()));
            }
            8 => {
                assert_eq!(v.encode(&mut s0), Err(BufferTooShort {}));
                assert_eq!(v.encode(&mut s1), Err(BufferTooShort {}));
                assert_eq!(v.encode(&mut s2), Err(BufferTooShort {}));
                assert_eq!(v.encode(&mut s3), Err(BufferTooShort {}));
                assert_eq!(v.encode(&mut s4), Err(BufferTooShort {}));
                assert_eq!(v.encode(&mut s7), Err(BufferTooShort {}));
                assert_eq!(v.encode(&mut s8), Ok(()));
            }
            _ => panic!(),
        }
    }
}

#[test]
fn test_tlv_encode_decode() {
    let mut buf: Vec<u8> = Vec::new();

    let types: [u32; 7] = [1, 252, 255, 256, 65535, 65536, 4294967295];

    // Payloads of 4294967295 and 4294967296 bytes cannot be allocated on the
    // test machine; their length fields are checked by decoding below.
    for v in (0u64..2).chain(252..256).chain(65535..65537) {
        let payload = vec![(v % 256) as u8; v as usize];

        for typ in types {
            buf.clear();
            let tlv = TLV { typ, val: &payload };
            let ret = tlv.encode(&mut buf);
            assert_eq!(ret, Ok(()));
            assert_eq!(tlv.encoded_length(), buf.len());
            let dec = TLV::try_decode(&buf);
            assert_eq!(dec.is_ok(), true);
            let (dec, dec_len) = dec.unwrap();
            assert_eq!(dec_len, tlv.encoded_length());
            assert_eq!(dec.typ, typ);
            assert_eq!(dec.val, &payload[..]);

            let mut s0: SliceBuffer<0> = SliceBuffer { bytes: [], cursor: 0 };
            assert_eq!(tlv.encode(&mut s0), Err(BufferTooShort {}));
        }
    }

    assert_eq!(
        TLV::try_decode(&[]).err(),
        Some(TlvDecodingError::CannotDecodeType { err: VarintDecodingError::BufferTooShort })
    );
    assert_eq!(
        TLV::try_decode(&[0]).err(),
        Some(TlvDecodingError::CannotDecodeType { err: VarintDecodingError::InvalidValue })
    );
    assert_eq!(
        TLV::try_decode(&[255, 255, 255, 255, 255, 255, 255, 255, 255]).err(),
        Some(TlvDecodingError::CannotDecodeType { err: VarintDecodingError::InvalidValue })
    );
    assert_eq!(
        TLV::try_decode(&[253, 0, 0]).err(),
        Some(TlvDecodingError::CannotDecodeType {
            err: VarintDecodingError::NonMinimalIntegerEncoding
        })
    );

    let (tlv, len) = TLV::try_decode(&[1, 0]).unwrap();
    assert_eq!((tlv.typ, tlv.val, len), (1, &[][..], 2));

    let (tlv, len) = TLV::try_decode(&[1, 0, 0]).unwrap();
    assert_eq!((tlv.typ, tlv.val, len), (1, &[][..], 2));

    assert_eq!(
        TLV::try_decode(&[1]).err(),
        Some(TlvDecodingError::CannotDecodeLength {
            typ: 1,
            err: VarintDecodingError::BufferTooShort
        })
    );

    let (tlv, len) = TLV::try_decode(&[1, 1, 1]).unwrap();
    assert_eq!((tlv.typ, tlv.val, len), (1, &[1u8][..], 3));

    assert_eq!(
        TLV::try_decode(&[1, 253, 0, 0]).err(),
        Some(TlvDecodingError::CannotDecodeLength {
            typ: 1,
            err: VarintDecodingError::NonMinimalIntegerEncoding
        })
    );

    assert_eq!(
        TLV::try_decode(&[1, 5, 0, 0]).err(),
        Some(TlvDecodingError::CannotDecodeValue { typ: 1, len: 5 })
    );

    assert_eq!(
        TLV::try_decode(&[1, 254, 255, 255, 255, 255, 0]).err(),
        Some(TlvDecodingError::CannotDecodeValue { typ: 1, len: 4294967295 })
    );
    assert_eq!(
        TLV::try_decode(&[1, 255, 0, 0, 0, 1, 0, 0, 0, 0, 0]).err(),
        Some(TlvDecodingError::CannotDecodeValue { typ: 1, len: 4294967296 })
    );
    let mut buf: Vec<u8> = Vec::new();
    let tlv = TLV { typ: 4294967295, val: &[] };
    assert_eq!(tlv.encode(&mut buf), Ok(()));
    assert_eq!(buf, vec![254, 255, 255, 255, 255, 0]);
}

#[test]
fn typed_fields_encode() {
    let mut out = Vec::new();
    TypedEmpty::<33> {}.append_to(&mut out);
    assert_eq!(out, vec![33, 0]);
    assert_eq!(TypedEmpty::<33> {}.encoded_length(), 2);
    let mut out = Vec::new();
    TypedInteger::<25> { val: 10000 }.append_to(&mut out);
    assert_eq!(out, vec![25, 2, 0x27, 0x10]);
    assert_eq!(TypedInteger::<25> { val: 10000 }.encoded_length(), 4);
    assert_eq!(TypedInteger::<25> { val: 10000 }.inner_length(), 2);
    let mut out = Vec::new();
    TypedBytes::<21> { bytes: b"hi" }.append_to(&mut out);
    assert_eq!(out, vec![21, 2, b'h', b'i']);
    let mut out = Vec::new();
    TypedArray::<10, 4> { bytes: [1, 2, 3, 4] }.append_to(&mut out);
    assert_eq!(out, vec![10, 4, 1, 2, 3, 4]);
    let mut inner = Vec::new();
    TypedArray::<10, 4> { bytes: [1, 2, 3, 4] }.encode_inner(&mut inner);
    assert_eq!(inner, vec![1, 2, 3, 4]);
}

#[test]
fn typed_value_checks_type() {
    assert!(matches!(typed_value(&[10, 1, 7, 9], 10), Ok((v, 3)) if v == [7]));
    assert!(matches!(typed_value(&[10, 1, 7], 11), Err(DecodingError::WrongTlvType)));
    assert!(matches!(typed_value(&[10, 2, 7], 10), Err(DecodingError::TlvDecodingError(_))));
}
