use ndn_forwarder::io::Encode;
use sha2::Digest;
use ndn_forwarder::packet::{
    Data, Interest, InterestSignatureInfo, KeyLocator, MetaInfo, SignatureInfo,
};

#[test]
fn test_key_locator() {
    let name_locator_inner_bytes = &[
        7, 14, 8, 5, b'h', b'e', b'l', b'l', b'o', 1, 5, b'w', b'o', b'r', b'l', b'd',
    ];

    let name_locator_outer_bytes = &[
        29, 16, 7, 14, 8, 5, b'h', b'e', b'l', b'l', b'o', 1, 5, b'w', b'o', b'r', b'l', b'd',
    ];

    let name_locator = KeyLocator::try_decode(name_locator_inner_bytes);
    assert!(name_locator.is_some());
    let name = match &name_locator {
        Some(KeyLocator::Name(name)) => name,
        _ => panic!(),
    };
    assert!(name.component_count() == 2);

    let mut buf = Vec::new();
    let name_locator = name_locator.unwrap();
    assert!(name_locator.encoded_length() == name_locator_outer_bytes.len());
    let _ = name_locator.encode(&mut buf);
    assert!(buf.as_slice() == name_locator_outer_bytes);

    let name_locator = KeyLocator::try_decode(&[
        7, 15, 8, 5, b'h', b'e', b'l', b'l', b'o', 1, 5, b'w', b'o', b'r', b'l', b'd',
    ]);
    assert!(name_locator.is_none());

    let name_locator = KeyLocator::try_decode(&[
        7, 15, 8, 5, b'h', b'e', b'l', b'l', b'o', 1, 6, b'w', b'o', b'r', b'l', b'd',
    ]);
    assert!(name_locator.is_none());

    let digest_locator_inner_bytes = &[28, 4, 255, 254, 253, 252];

    let digest_locator_outer_bytes = &[29, 6, 28, 4, 255, 254, 253, 252];

    let digest_locator = KeyLocator::try_decode(digest_locator_inner_bytes);
    assert!(digest_locator.is_some());
    let digest = match &digest_locator {
        Some(KeyLocator::KeyDigest(digest)) => digest,
        _ => panic!(),
    };
    assert!(*digest == &[255, 254, 253, 252]);

    let mut buf = Vec::new();
    let digest_locator = digest_locator.unwrap();
    assert!(digest_locator.encoded_length() == digest_locator_outer_bytes.len());
    let _ = digest_locator.encode(&mut buf);
    assert!(buf.as_slice() == digest_locator_outer_bytes);
}

#[test]
fn test_signature_info() {
    // SignatureType 0, then a KeyLocator holding a KeyDigest.
    let bytes = [27, 1, 0, 29, 4, 28, 2, 0xAB, 0xCD];
    let si = SignatureInfo::try_decode(&bytes).unwrap();
    assert_eq!(si.signature_type, 0);
    match si.key_locator {
        Some(KeyLocator::KeyDigest(d)) => assert_eq!(d, &[0xAB, 0xCD]),
        _ => panic!(),
    }

    let si = SignatureInfo::try_decode(&[27, 1, 3]).unwrap();
    assert_eq!(si.signature_type, 3);
    assert!(si.key_locator.is_none());

    // The signature type must come first and be an integer.
    assert!(SignatureInfo::try_decode(&[29, 4, 28, 2, 0xAB, 0xCD]).is_none());
    assert!(SignatureInfo::try_decode(&[27, 3, 0, 0, 0]).is_none());
    assert!(SignatureInfo::try_decode(&[]).is_none());
    // An unknown critical TLV fails it; a non-critical one is kept.
    assert!(SignatureInfo::try_decode(&[27, 1, 0, 31, 0]).is_none());
    let si = SignatureInfo::try_decode(&[27, 1, 0, 32, 1, 7]).unwrap();
    assert_eq!(si.unknown_tlvs[1], &[32, 1, 7]);

    let si = SignatureInfo::new_digest_sha256();
    assert_eq!(si.signature_type, 0);
    assert!(si.key_locator.is_none());
}

#[test]
fn test_interest_signature_info() {
    let bytes = [27, 1, 5, 38, 2, 1, 2, 40, 1, 9, 42, 2, 1, 0];
    let si = InterestSignatureInfo::try_decode(&bytes).unwrap();
    assert_eq!(si.signature_type, 5);
    assert!(si.key_locator.is_none());
    assert_eq!(si.nonce, Some(&[1u8, 2][..]));
    assert_eq!(si.signature_time, Some(9));
    assert_eq!(si.signature_seq_num, Some(256));

    // Out of order, unknown, or without a signature type: rejected.
    assert!(InterestSignatureInfo::try_decode(&[27, 1, 5, 40, 1, 9, 38, 2, 1, 2]).is_none());
    assert!(InterestSignatureInfo::try_decode(&[27, 1, 5, 48, 0]).is_none());
    assert!(InterestSignatureInfo::try_decode(&[38, 2, 1, 2]).is_none());
}

#[test]
fn test_meta_info() {
    let bytes = [24, 1, 0, 25, 2, 0x27, 0x10, 26, 3, 8, 1, b'x'];
    let mi = MetaInfo::try_decode(&bytes).unwrap();
    assert_eq!(mi.content_type, Some(0));
    assert_eq!(mi.freshness_period, Some(10000));
    let fb = mi.final_block_id.unwrap();
    assert_eq!(fb.component.typ, 8);
    assert_eq!(fb.component.bytes, b"x");

    let mi = MetaInfo::try_decode(&[]).unwrap();
    assert!(mi.content_type.is_none());
    assert!(mi.freshness_period.is_none());
    assert!(mi.final_block_id.is_none());

    // A freshness period of 3 bytes is no integer; a critical unknown fails.
    assert!(MetaInfo::try_decode(&[25, 3, 0, 0, 1]).is_none());
    assert!(MetaInfo::try_decode(&[25, 1, 1, 27, 0]).is_none());
    let mi = MetaInfo::try_decode(&[25, 1, 1, 100, 0]).unwrap();
    assert_eq!(mi.freshness_period, Some(1));
    assert_eq!(mi.unknown_tlvs[2], &[100, 0]);
}

#[test]
fn test_application_parameters() {
    // Name /A, nonce, ApplicationParameters "p", then a signature.
    let bytes = [
        7, 3, 8, 1, b'A', 10, 4, 1, 2, 3, 4, 36, 1, b'p', 44, 3, 27, 1, 0, 46, 2, 0xEE, 0xFF,
    ];
    let interest = Interest::try_decode(&bytes).unwrap();
    assert_eq!(interest.application_parameters, Some(&b"p"[..]));
    let (si, sv) = interest.signature.unwrap();
    assert_eq!(si.signature_type, 0);
    assert_eq!(sv, &[0xEE, 0xFF]);

    // Without a signature.
    let bytes = [7, 3, 8, 1, b'A', 36, 2, b'p', b'q'];
    let interest = Interest::try_decode(&bytes).unwrap();
    assert_eq!(interest.application_parameters, Some(&b"pq"[..]));
    assert!(interest.signature.is_none());

    // A signature value must end the packet.
    let bytes = [7, 3, 8, 1, b'A', 36, 1, b'p', 44, 3, 27, 1, 0, 46, 0, 32, 0];
    assert!(Interest::try_decode(&bytes).is_none());
}

#[test]
fn test_data() {
    // Name /A, MetaInfo with freshness 10, Content "hi", SignatureInfo, SignatureValue.
    let bytes = [
        7, 3, 8, 1, b'A', 20, 3, 25, 1, 10, 21, 2, b'h', b'i', 22, 3, 27, 1, 0, 23, 2, 0xAA,
        0xBB,
    ];
    let data = Data::try_decode(&bytes).unwrap();
    assert_eq!(data.name.component_count(), 1);
    assert_eq!(data.content, Some(&b"hi"[..]));
    assert_eq!(data.freshness_period(), 10);
    assert_eq!(data.signature_info.signature_type, 0);
    assert_eq!(data.signature_value, &[0xAA, 0xBB]);
    let signed = ndn_forwarder::packet::signed_portion_of(&bytes, data.signature_value);
    assert_eq!(signed, &bytes[..19]);

    // SignatureInfo and SignatureValue are required, in order.
    assert!(Data::try_decode(&[7, 3, 8, 1, b'A', 21, 0]).is_none());
    assert!(Data::try_decode(&[7, 3, 8, 1, b'A', 23, 0, 22, 3, 27, 1, 0]).is_none());
    // The Name comes first.
    assert!(Data::try_decode(&[21, 0, 7, 3, 8, 1, b'A', 22, 3, 27, 1, 0, 23, 0]).is_none());
    // A non-critical unknown TLV before the content is kept.
    let bytes = [7, 3, 8, 1, b'A', 40, 0, 21, 0, 22, 3, 27, 1, 0, 23, 0];
    let data = Data::try_decode(&bytes).unwrap();
    assert_eq!(data.unknown_tlvs[0], &[40, 0]);
    assert_eq!(data.freshness_period(), 0);
}

#[test]
fn test_interest() {
    // Name /A/B, CanBePrefix, MustBeFresh, Nonce, Lifetime 100, HopLimit 2.
    let bytes = [
        7, 6, 8, 1, b'A', 8, 1, b'B', 33, 0, 18, 0, 10, 4, 9, 9, 9, 9, 12, 1, 100, 34, 1, 2,
    ];
    let interest = Interest::try_decode(&bytes).unwrap();
    assert_eq!(interest.name.component_count(), 2);
    assert!(interest.can_be_prefix);
    assert!(interest.must_be_fresh);
    assert_eq!(interest.nonce, Some([9, 9, 9, 9]));
    assert_eq!(interest.interest_lifetime, Some(100));
    assert_eq!(interest.hop_limit, Some(2));

    // Known fields out of order, a wrong-sized nonce, a critical unknown TLV.
    assert!(Interest::try_decode(&[7, 3, 8, 1, b'A', 18, 0, 33, 0]).is_none());
    assert!(Interest::try_decode(&[7, 3, 8, 1, b'A', 10, 3, 1, 2, 3]).is_none());
    assert!(Interest::try_decode(&[7, 3, 8, 1, b'A', 31, 0]).is_none());
    // A non-critical unknown TLV is kept in its gap.
    let interest = Interest::try_decode(&[7, 3, 8, 1, b'A', 33, 0, 50, 1, 7]).unwrap();
    assert_eq!(interest.unknown_tlvs[1], &[50, 1, 7]);

    let name = ndn_forwarder::name::Name::new();
    let interest = Interest::new(name, true, [1, 2, 3, 4]);
    assert!(interest.can_be_prefix);
    assert_eq!(interest.nonce, Some([1, 2, 3, 4]));
}

#[test]
fn interest_encodes_back_to_its_bytes() {
    let inner = [
        7, 6, 8, 1, b'A', 8, 1, b'B', 33, 0, 50, 1, 7, 18, 0, 10, 4, 9, 9, 9, 9, 12, 1, 100, 34,
        1, 2, 36, 1, b'p', 44, 3, 27, 1, 0, 46, 1, 0xEE,
    ];
    let interest = Interest::try_decode(&inner).unwrap();
    let mut out: Vec<u8> = Vec::new();
    interest.encode(&mut out).unwrap();
    assert_eq!(out[0], 5);
    assert_eq!(out[1] as usize, inner.len());
    assert_eq!(&out[2..], &inner[..]);
    assert_eq!(interest.encoded_length(), inner.len() + 2);
}

#[test]
fn data_encodes_back_to_its_bytes() {
    let inner = [
        7, 3, 8, 1, b'A', 20, 8, 25, 1, 10, 26, 3, 8, 1, b'x', 40, 0, 21, 2, b'h', b'i', 22, 5,
        27, 1, 0, 32, 0, 23, 2, 0xAA, 0xBB,
    ];
    let data = Data::try_decode(&inner).unwrap();
    let mut out: Vec<u8> = Vec::new();
    data.encode(&mut out).unwrap();
    assert_eq!(&out[..2], &[6, inner.len() as u8]);
    assert_eq!(&out[2..], &inner[..]);
}

#[test]
fn data_signed_portion_digest() {
    let inner = [
        7, 3, 8, 1, b'A', 20, 3, 25, 1, 10, 21, 2, b'h', b'i', 22, 3, 27, 1, 0, 23, 2, 0xAA, 0xBB,
    ];
    let data = Data::try_decode(&inner).unwrap();
    let expected = sha2::Sha256::digest(&inner[..19]).to_vec();
    assert_eq!(data.hash_signed_portion(), expected);
    assert_ne!(data.hash_signed_portion(), inner[..19].to_vec());
    assert_eq!(data.hash_signed_portion().len(), 32);
}

#[test]
fn interest_signed_portion_digest() {
    // Name /A/<parameters digest "d">, ApplicationParameters "p", then the signature.
    let inner = [
        7, 6, 8, 1, b'A', 2, 1, b'd', 36, 1, b'p', 44, 3, 27, 1, 0, 46, 1, 0xEE,
    ];
    let interest = Interest::try_decode(&inner).unwrap();
    let mut covered = vec![7, 3, 8, 1, b'A'];
    covered.extend_from_slice(&[36, 1, b'p', 44, 3, 27, 1, 0]);
    let expected = sha2::Sha256::digest(&covered).to_vec();
    assert_eq!(interest.hash_signed_portion(), Some(expected));
    let unsigned = Interest::try_decode(&[7, 3, 8, 1, b'A']).unwrap();
    assert_eq!(unsigned.hash_signed_portion(), None);
}

#[test]
fn meta_info_unknown_tlvs_only_trail() {
    // An unknown TLV before a known field fails the meta info.
    assert!(MetaInfo::try_decode(&[32, 0, 25, 1, 10]).is_none());
    assert!(MetaInfo::try_decode(&[24, 1, 0, 32, 0, 26, 3, 8, 1, b'x']).is_none());
    // After the known fields it is kept.
    let mi = MetaInfo::try_decode(&[25, 1, 10, 32, 0]).unwrap();
    assert_eq!(mi.freshness_period, Some(10));
    assert_eq!(mi.unknown_tlvs[2], &[32, 0]);
}
