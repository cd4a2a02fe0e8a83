use ndn_forwarder::io::{Decode, Encode};
use ndn_forwarder::name::{Name, NameComponent};
use ndn_forwarder::tlv::TLV;

#[test]
fn test_component() {
    let comp = NameComponent::new_generic(b"Hello");
    assert!(comp.typ == NameComponent::TYPE_GENERIC);
    assert!(comp.bytes == b"Hello");

    let comp = NameComponent::new_implicit(b"");
    assert!(comp.typ == NameComponent::TYPE_IMPLICIT_SHA256);
    assert!(comp.bytes == b"");

    let comp = NameComponent::new_parameter(b"parpar");
    assert!(comp.typ == NameComponent::TYPE_PARAMETER_SHA256);
    assert!(comp.bytes == b"parpar");

    let comp = NameComponent::new(28, b"test");
    assert!(comp.is_some());
    let comp = comp.unwrap();
    assert!(comp.typ == 28);
    assert!(comp.bytes == b"test");

    let comp = NameComponent::new(0, b"none");
    assert!(comp.is_none());
}

#[test]
fn test_basics() {
    let name = Name::new();
    assert_eq!(name.component_count(), 0);
    assert!(name.components().into_iter().next().is_none());

    let name = name.adding_component(NameComponent::new_generic(b"Hello"));
    assert_eq!(name.component_count(), 1);
    let mut nc = name.components().into_iter();
    let comp = nc.next();
    assert!(comp.is_some());
    let comp = comp.unwrap();
    assert!(comp.typ == NameComponent::TYPE_GENERIC);
    assert!(comp.bytes == b"Hello");
    assert!(nc.next().is_none());

    let name = name.adding_component(NameComponent::new_implicit(b"CAFECAFE"));
    assert_eq!(name.component_count(), 2);
    let mut nc = name.components().into_iter();
    let comp = nc.next();
    assert!(comp.is_some());
    let comp = comp.unwrap();
    assert!(comp.typ == NameComponent::TYPE_GENERIC);
    assert!(comp.bytes == b"Hello");
    let comp = nc.next();
    assert!(comp.is_some());
    let comp = comp.unwrap();
    assert!(comp.typ == NameComponent::TYPE_IMPLICIT_SHA256);
    assert!(comp.bytes == b"CAFECAFE");
    assert!(nc.next().is_none());

    let name = name.dropping_last_component();
    assert!(name.is_some());
    let name = name.unwrap();
    assert_eq!(name.component_count(), 1);
    let mut nc = name.components().into_iter();
    let comp = nc.next();
    assert!(comp.is_some());
    let comp = comp.unwrap();
    assert!(comp.typ == NameComponent::TYPE_GENERIC);
    assert!(comp.bytes == b"Hello");
    assert!(nc.next().is_none());

    let name = name.dropping_last_component();
    assert!(name.is_some());
    let name = name.unwrap();
    assert_eq!(name.component_count(), 0);

    let name = name.dropping_last_component();
    assert!(name.is_none());
}

#[test]
fn test_decoding() {
    let inner_bytes: &[u8] = &[];
    let name = Name::try_decode(inner_bytes);
    assert!(name.is_some());
    let name = name.unwrap();
    assert!(name.component_count() == 0);
    assert!(name.components().into_iter().next().is_none());

    let inner_bytes = &[8, 0];
    let name = Name::try_decode(inner_bytes);
    assert!(name.is_some());
    let name = name.unwrap();
    assert!(name.component_count() == 1);
    let mut nc = name.components().into_iter();
    let comp = nc.next();
    assert!(comp.is_some());
    let comp = comp.unwrap();
    assert!(comp.typ == NameComponent::TYPE_GENERIC);
    assert!(comp.bytes == &[] as &[u8]);
    assert!(nc.next().is_none());

    let inner_bytes = &[8, 5, b'h', b'e', b'l', b'l', b'o'];
    let name = Name::try_decode(inner_bytes);
    assert!(name.is_some());
    let name = name.unwrap();
    assert!(name.component_count() == 1);
    let mut nc = name.components().into_iter();
    let comp = nc.next();
    assert!(comp.is_some());
    let comp = comp.unwrap();
    assert!(comp.typ == NameComponent::TYPE_GENERIC);
    assert!(comp.bytes == b"hello");
    assert!(nc.next().is_none());

    let name = name.dropping_last_component();
    assert!(name.is_some());
    let name = name.unwrap();
    assert_eq!(name.component_count(), 0);

    let name = name.dropping_last_component();
    assert!(name.is_none());

    let inner_bytes = &[
        8, 5, b'h', b'e', b'l', b'l', b'o', 1, 5, b'w', b'o', b'r', b'l', b'd',
    ];
    let name = Name::try_decode(inner_bytes);
    assert!(name.is_some());
    let name = name.unwrap();
    assert!(name.component_count() == 2);
    let mut nc = name.components().into_iter();
    let comp = nc.next();
    assert!(comp.is_some());
    let comp = comp.unwrap();
    assert!(comp.typ == NameComponent::TYPE_GENERIC);
    assert!(comp.bytes == b"hello");
    let comp = nc.next();
    assert!(comp.is_some());
    let comp = comp.unwrap();
    assert!(comp.typ == NameComponent::TYPE_IMPLICIT_SHA256);
    assert!(comp.bytes == b"world");
    assert!(nc.next().is_none());

    let name = name.adding_component(NameComponent::new_parameter(b"CAFECAFE"));
    assert_eq!(name.component_count(), 3);
    let mut nc = name.components().into_iter();
    let comp = nc.next();
    assert!(comp.is_some());
    let comp = comp.unwrap();
    assert!(comp.typ == NameComponent::TYPE_GENERIC);
    assert!(comp.bytes == b"hello");
    let comp = nc.next();
    assert!(comp.is_some());
    let comp = comp.unwrap();
    assert!(comp.typ == NameComponent::TYPE_IMPLICIT_SHA256);
    assert!(comp.bytes == b"world");
    let comp = nc.next();
    assert!(comp.is_some());
    let comp = comp.unwrap();
    assert!(comp.typ == NameComponent::TYPE_PARAMETER_SHA256);
    assert!(comp.bytes == b"CAFECAFE");
    assert!(nc.next().is_none());

    let name = name.dropping_last_component();
    assert!(name.is_some());
    let name = name.unwrap();
    assert_eq!(name.component_count(), 2);
    let mut nc = name.components().into_iter();
    let comp = nc.next();
    assert!(comp.is_some());
    let comp = comp.unwrap();
    assert!(comp.typ == NameComponent::TYPE_GENERIC);
    assert!(comp.bytes == b"hello");
    let comp = nc.next();
    assert!(comp.is_some());
    let comp = comp.unwrap();
    assert!(comp.typ == NameComponent::TYPE_IMPLICIT_SHA256);
    assert!(comp.bytes == b"world");
    assert!(nc.next().is_none());

    let name = name.dropping_last_component();
    assert!(name.is_some());
    let name = name.unwrap();
    assert_eq!(name.component_count(), 1);
    let mut nc = name.components().into_iter();
    let comp = nc.next();
    assert!(comp.is_some());
    let comp = comp.unwrap();
    assert!(comp.typ == NameComponent::TYPE_GENERIC);
    assert!(comp.bytes == b"hello");
    assert!(nc.next().is_none());

    let name = name.adding_component(NameComponent::new_parameter(b"CAFECAFE"));
    assert_eq!(name.component_count(), 2);
    let mut nc = name.components().into_iter();
    let comp = nc.next();
    assert!(comp.is_some());
    let comp = comp.unwrap();
    assert!(comp.typ == NameComponent::TYPE_GENERIC);
    assert!(comp.bytes == b"hello");
    let comp = nc.next();
    assert!(comp.is_some());
    let comp = comp.unwrap();
    assert!(comp.typ == NameComponent::TYPE_PARAMETER_SHA256);
    assert!(comp.bytes == b"CAFECAFE");
    assert!(nc.next().is_none());

    let name = name.dropping_last_component();
    assert!(name.is_some());
    let name = name.unwrap();
    assert_eq!(name.component_count(), 1);
    let mut nc = name.components().into_iter();
    let comp = nc.next();
    assert!(comp.is_some());
    let comp = comp.unwrap();
    assert!(comp.typ == NameComponent::TYPE_GENERIC);
    assert!(comp.bytes == b"hello");
    assert!(nc.next().is_none());

    let name = name.dropping_last_component();
    assert!(name.is_some());
    let name = name.unwrap();
    assert_eq!(name.component_count(), 0);

    let name = name.dropping_last_component();
    assert!(name.is_none());

    let inner_bytes = &[
        8, 5, b'h', b'e', b'l', b'l', b'o', 0, 5, b'w', b'o', b'r', b'l', b'd',
    ];
    let name = Name::try_decode(inner_bytes);
    assert!(name.is_none());

    let inner_bytes = &[
        8, 5, b'h', b'e', b'l', b'l', b'o', 1, 6, b'w', b'o', b'r', b'l', b'd',
    ];
    let name = Name::try_decode(inner_bytes);
    assert!(name.is_none());

    let inner_bytes = &[
        8, 5, b'h', b'e', b'l', b'l', b'o', 0, 5, b'w', b'o', b'r', b'l', b'd', 1,
    ];
    let name = Name::try_decode(inner_bytes);
    assert!(name.is_none());

    let inner_bytes = &[253, 251, 252, 0];
    let name = Name::try_decode(inner_bytes);
    assert!(name.is_some());
    let name = name.unwrap();
    assert!(name.component_count() == 1);
    let mut nc = name.components().into_iter();
    let comp = nc.next();
    assert!(comp.is_some());
    let comp = comp.unwrap();
    assert!(comp.typ == u16::from_be_bytes([251, 252]));
    assert!(comp.bytes == &[] as &[u8]);
    assert!(nc.next().is_none());

    let inner_bytes = &[254, 251, 252, 253, 254, 0];
    let name = Name::try_decode(inner_bytes);
    assert!(name.is_none());
}


#[test]
fn test_encoding() {
    let inner_bytes = &[
        8, 5, b'h', b'e', b'l', b'l', b'o', 1, 5, b'w', b'o', b'r', b'l', b'd',
    ];
    let outer_bytes = &[
        7, 14, 8, 5, b'h', b'e', b'l', b'l', b'o', 1, 5, b'w', b'o', b'r', b'l', b'd',
    ];

    let name = Name::try_decode(inner_bytes);
    assert!(name.is_some());
    let name = name.unwrap();
    assert!(name.component_count() == 2);

    let mut buf = Vec::new();
    assert!(name.encoded_length() == outer_bytes.len());
    let _ = name.encode(&mut buf);
    assert!(buf.as_slice() == outer_bytes);

    let tlv = TLV::try_decode(&buf);
    assert!(tlv.is_ok());
    let (tlv, tlv_len) = tlv.unwrap();
    assert!(tlv_len == outer_bytes.len());
    assert!(tlv.typ == Name::TLV_TYPE_NAME);
    assert!(tlv.val == inner_bytes);

    let inner_bytes = &[
        8, 5, b'h', b'e', b'l', b'l', b'o', 1, 5, b'w', b'o', b'r', b'l', b'd', 2, 8, b'C',
        b'A', b'F', b'E', b'C', b'A', b'F', b'E',
    ];
    let outer_bytes = &[
        7, 24, 8, 5, b'h', b'e', b'l', b'l', b'o', 1, 5, b'w', b'o', b'r', b'l', b'd', 2, 8,
        b'C', b'A', b'F', b'E', b'C', b'A', b'F', b'E',
    ];
    let name = name.adding_component(NameComponent::new_parameter(b"CAFECAFE"));

    let mut buf = Vec::new();
    assert!(name.encoded_length() == outer_bytes.len());
    let _ = name.encode(&mut buf);
    assert!(buf.as_slice() == outer_bytes);

    let tlv = TLV::try_decode(&buf);
    assert!(tlv.is_ok());
    let (tlv, tlv_len) = tlv.unwrap();
    assert!(tlv_len == outer_bytes.len());
    assert!(tlv.typ == Name::TLV_TYPE_NAME);
    assert!(tlv.val == inner_bytes);

    let inner_bytes = &[8, 5, b'h', b'e', b'l', b'l', b'o'];
    let outer_bytes = &[7, 7, 8, 5, b'h', b'e', b'l', b'l', b'o'];
    let name = name
        .dropping_last_component()
        .unwrap()
        .dropping_last_component()
        .unwrap();

    let mut buf = Vec::new();
    assert!(name.encoded_length() == outer_bytes.len());
    let _ = name.encode(&mut buf);
    assert!(buf.as_slice() == outer_bytes);

    let tlv = TLV::try_decode(&buf);
    assert!(tlv.is_ok());
    let (tlv, tlv_len) = tlv.unwrap();
    assert!(tlv_len == outer_bytes.len());
    assert!(tlv.typ == Name::TLV_TYPE_NAME);
    assert!(tlv.val == inner_bytes);
}
