use vstd::prelude::*;

use crate::fields::{fields_parse, fields_start, parse_fields, Fields, FieldsView};
use crate::io::{Decode, Encode};
use crate::name::{components_parse, ComponentView, Name, NameComponent};
use crate::digest::{sha256, sha256_of};
use crate::tlv::{tlv_parse, unsigned_from_value, unsigned_parse, TLV};

verus! {

// ---------------------------------------------------------------------------
// TLV types
// ---------------------------------------------------------------------------

pub const TLV_TYPE_INTEREST: u32 = 5;

pub const TLV_TYPE_DATA: u32 = 6;

pub const TLV_TYPE_NAME: u32 = 7;

pub const TLV_TYPE_NONCE: u32 = 10;

pub const TLV_TYPE_INTEREST_LIFETIME: u32 = 12;

pub const TLV_TYPE_MUST_BE_FRESH: u32 = 18;

pub const TLV_TYPE_META_INFO: u32 = 20;

pub const TLV_TYPE_CONTENT: u32 = 21;

pub const TLV_TYPE_SIGNATURE_INFO: u32 = 22;

pub const TLV_TYPE_SIGNATURE_VALUE: u32 = 23;

pub const TLV_TYPE_CONTENT_TYPE: u32 = 24;

pub const TLV_TYPE_FRESHNESS_PERIOD: u32 = 25;

pub const TLV_TYPE_FINAL_BLOCK_ID: u32 = 26;

pub const TLV_TYPE_SIGNATURE_TYPE: u32 = 27;

pub const TLV_TYPE_KEY_DIGEST: u32 = 28;

pub const TLV_TYPE_KEY_LOCATOR: u32 = 29;

pub const TLV_TYPE_FORWARDING_HINT: u32 = 30;

pub const TLV_TYPE_CAN_BE_PREFIX: u32 = 33;

pub const TLV_TYPE_HOP_LIMIT: u32 = 34;

pub const TLV_TYPE_APPLICATION_PARAMETERS: u32 = 36;

pub const TLV_TYPE_INTEREST_SIGNATURE_NONCE: u32 = 38;

pub const TLV_TYPE_INTEREST_SIGNATURE_TIME: u32 = 40;

pub const TLV_TYPE_INTEREST_SIGNATURE_SEQ_NUM: u32 = 42;

pub const TLV_TYPE_INTEREST_SIGNATURE_INFO: u32 = 44;

pub const TLV_TYPE_INTEREST_SIGNATURE_VALUE: u32 = 46;

/// The known fields of an Interest after its Name, in canonical order.
pub open spec fn interest_kinds() -> Seq<u32> {
    seq![33u32, 18, 30, 10, 12, 34, 36]
}

/// The known fields of a Data packet after its Name, in canonical order.
pub open spec fn data_kinds() -> Seq<u32> {
    seq![20u32, 21, 22, 23]
}

pub open spec fn meta_info_kinds() -> Seq<u32> {
    seq![24u32, 25, 26]
}

pub open spec fn signature_info_kinds() -> Seq<u32> {
    seq![27u32, 29]
}

pub open spec fn interest_signature_info_kinds() -> Seq<u32> {
    seq![27u32, 29, 38, 40, 42]
}

// ---------------------------------------------------------------------------
// Field values
// ---------------------------------------------------------------------------

/// An optional integer field: absent, or a valid integer.
pub open spec fn opt_unsigned(v: Option<Seq<u8>>) -> Option<Option<u64>> {
    match v {
        None => Some(None),
        Some(b) => match unsigned_parse(b) {
            Some(x) => Some(Some(x)),
            None => None,
        },
    }
}

fn opt_unsigned_exec(v: Option<&[u8]>) -> (r: Option<Option<u64>>)
    ensures
        r == opt_unsigned(
            match v {
                Some(b) => Some(b@),
                None => None,
            },
        ),
{
    match v {
        None => Some(None),
        Some(b) => match unsigned_from_value(b) {
            Some(x) => Some(Some(x)),
            None => None,
        },
    }
}

pub open spec fn opt_view(v: Option<&[u8]>) -> Option<Seq<u8>> {
    match v {
        Some(b) => Some(b@),
        None => None,
    }
}

// ---------------------------------------------------------------------------
// KeyLocator
// ---------------------------------------------------------------------------

pub enum KeyLocator<'a> {
    Name(Name<'a>),
    KeyDigest(&'a [u8]),
}

pub enum KeyLocatorView {
    Name(Seq<ComponentView>),
    KeyDigest(Seq<u8>),
}

impl<'a> KeyLocator<'a> {
    pub open spec fn view(&self) -> KeyLocatorView {
        match self {
            KeyLocator::Name(n) => KeyLocatorView::Name(n@),
            KeyLocator::KeyDigest(d) => KeyLocatorView::KeyDigest(d@),
        }
    }

    /// Decodes the inner bytes of a KeyLocator: one Name or KeyDigest TLV.
    pub fn try_decode(inner_bytes: &'a [u8]) -> (r: Option<Self>)
        ensures
            match r {
                Some(k) => key_locator_parse(inner_bytes@) == Some(k.view()) && k.wf(),
                None => key_locator_parse(inner_bytes@) is None,
            },
    {
        let (tlv, n) = match TLV::try_decode(inner_bytes) {
            Ok(x) => x,
            Err(_) => {
                return None;
            },
        };
        if n != inner_bytes.len() {
            return None;
        }
        if tlv.typ == TLV_TYPE_NAME {
            match Name::try_decode(tlv.val) {
                Some(name) => Some(KeyLocator::Name(name)),
                None => None,
            }
        } else if tlv.typ == TLV_TYPE_KEY_DIGEST {
            Some(KeyLocator::KeyDigest(tlv.val))
        } else {
            None
        }
    }
}

pub open spec fn key_locator_parse(s: Seq<u8>) -> Option<KeyLocatorView> {
    match tlv_parse(s) {
        Ok((t, v, n)) => if n != s.len() {
            None
        } else if t == TLV_TYPE_NAME {
            match components_parse(v) {
                Some(cs) => Some(KeyLocatorView::Name(cs)),
                None => None,
            }
        } else if t == TLV_TYPE_KEY_DIGEST {
            Some(KeyLocatorView::KeyDigest(v))
        } else {
            None
        },
        Err(_) => None,
    }
}

/// The inner bytes of a KeyLocator TLV.
pub open spec fn key_locator_inner_encoding(k: KeyLocatorView) -> Seq<u8> {
    match k {
        KeyLocatorView::Name(n) => crate::tlv::tlv_encoding(
            TLV_TYPE_NAME,
            crate::name::components_encoding(n),
        ),
        KeyLocatorView::KeyDigest(d) => crate::tlv::tlv_encoding(TLV_TYPE_KEY_DIGEST, d),
    }
}

impl<'a> KeyLocator<'a> {
    /// A name locator's components have non-zero types.
    pub open spec fn wf(&self) -> bool {
        match self {
            KeyLocator::Name(n) => n.wf(),
            KeyLocator::KeyDigest(_) => true,
        }
    }

    fn inner_to_vec(&self) -> (r: Vec<u8>)
        requires
            self.wf(),
        ensures
            r@ == key_locator_inner_encoding(self.view()),
    {
        let mut out: Vec<u8> = Vec::new();
        match self {
            KeyLocator::Name(n) => n.append_name_tlv(&mut out),
            KeyLocator::KeyDigest(d) => crate::tlv::append_tlv(&mut out, TLV_TYPE_KEY_DIGEST, d),
        }
        assert(out@ =~= key_locator_inner_encoding(self.view()));
        out
    }
}

impl<'a> Encode for KeyLocator<'a> {
    open spec fn encoding(&self) -> Seq<u8> {
        crate::tlv::tlv_encoding(TLV_TYPE_KEY_LOCATOR, key_locator_inner_encoding(self.view()))
    }

    open spec fn encodable(&self) -> bool {
        self.wf()
    }

    fn encoded_length(&self) -> (r: usize) {
        let mut v: Vec<u8> = Vec::new();
        self.append_to(&mut v);
        assert(v@ =~= self.encoding());
        v.len()
    }

    fn append_to(&self, out: &mut Vec<u8>) {
        assert(self.encoding() == crate::tlv::tlv_encoding(
            TLV_TYPE_KEY_LOCATOR,
            key_locator_inner_encoding(self.view()),
        ));
        let inner = self.inner_to_vec();
        crate::tlv::append_tlv(out, TLV_TYPE_KEY_LOCATOR, inner.as_slice());
    }
}

pub open spec fn opt_key_locator(v: Option<Seq<u8>>) -> Option<Option<KeyLocatorView>> {
    match v {
        None => Some(None),
        Some(b) => match key_locator_parse(b) {
            Some(k) => Some(Some(k)),
            None => None,
        },
    }
}

fn opt_key_locator_exec<'a>(v: Option<&'a [u8]>) -> (r: Option<Option<KeyLocator<'a>>>)
    ensures
        match r {
            Some(Some(k)) => opt_key_locator(opt_view(v)) == Some(Some(k.view())) && k.wf(),
            Some(None) => opt_key_locator(opt_view(v)) == Some(None::<KeyLocatorView>),
            None => opt_key_locator(opt_view(v)) is None,
        },
{
    match v {
        None => Some(None),
        Some(b) => match KeyLocator::try_decode(b) {
            Some(k) => Some(Some(k)),
            None => None,
        },
    }
}

// ---------------------------------------------------------------------------
// SignatureInfo
// ---------------------------------------------------------------------------

pub const SIGNATURE_TYPE_DIGEST_SHA256: u64 = 0;

pub const SIGNATURE_TYPE_SHA256_RSA: u64 = 1;

pub const SIGNATURE_TYPE_SHA256_ECDSA: u64 = 3;

pub const SIGNATURE_TYPE_HMAC_SHA256: u64 = 4;

pub const SIGNATURE_TYPE_ED25519: u64 = 5;

/// The signature info of a Data packet: its type first, then an optional key
/// locator; unknown non-critical TLVs may follow either.
pub struct SignatureInfo<'a> {
    pub signature_type: u64,
    pub key_locator: Option<KeyLocator<'a>>,
    pub unknown_tlvs: Vec<&'a [u8]>,
}

pub struct SignatureInfoView {
    pub signature_type: u64,
    pub key_locator: Option<KeyLocatorView>,
    pub unknown_tlvs: Seq<Seq<u8>>,
}

pub open spec fn signature_info_from(f: FieldsView) -> Option<SignatureInfoView> {
    if f.known[0] is None || f.gaps[0].len() != 0 {
        None
    } else {
        match (opt_unsigned(f.known[0]), opt_key_locator(f.known[1])) {
            (Some(Some(t)), Some(k)) => Some(
                SignatureInfoView { signature_type: t, key_locator: k, unknown_tlvs: f.gaps },
            ),
            _ => None,
        }
    }
}

pub open spec fn signature_info_parse(s: Seq<u8>) -> Option<SignatureInfoView> {
    match fields_parse(s, signature_info_kinds(), 2, fields_start(2, 3)) {
        Some((f, m)) => if m == s.len() {
            signature_info_from(f)
        } else {
            None
        },
        None => None,
    }
}

pub open spec fn gap_views<'a>(g: Seq<&'a [u8]>) -> Seq<Seq<u8>> {
    crate::fields::gap_views(g)
}

impl<'a> SignatureInfo<'a> {
    pub open spec fn view(&self) -> SignatureInfoView {
        SignatureInfoView {
            signature_type: self.signature_type,
            key_locator: match self.key_locator {
                Some(k) => Some(k.view()),
                None => None,
            },
            unknown_tlvs: gap_views(self.unknown_tlvs@),
        }
    }

    /// The signature info of a packet signed with a plain SHA-256 digest.
    pub fn new_digest_sha256() -> (r: Self)
        ensures
            r.signature_type == SIGNATURE_TYPE_DIGEST_SHA256,
            r.key_locator is None,
    {
        let mut unknown_tlvs: Vec<&'a [u8]> = Vec::new();
        let empty: &'a [u8] = &[];
        unknown_tlvs.push(empty);
        unknown_tlvs.push(empty);
        unknown_tlvs.push(empty);
        SignatureInfo { signature_type: SIGNATURE_TYPE_DIGEST_SHA256, key_locator: None, unknown_tlvs }
    }

    pub fn try_decode(inner_bytes: &'a [u8]) -> (r: Option<Self>)
        ensures
            match r {
                Some(si) => signature_info_parse(inner_bytes@) == Some(si.view()) && si.wf(),
                None => signature_info_parse(inner_bytes@) is None,
            },
    {
        let kinds: [u32; 2] = [TLV_TYPE_SIGNATURE_TYPE, TLV_TYPE_KEY_LOCATOR];
        let kinds = kinds.as_slice();
        assert(kinds@ =~= signature_info_kinds());
        assert(inner_bytes@.skip(0) =~= inner_bytes@);
        let (f, end) = match parse_fields(inner_bytes, 0, kinds, 3, 2) {
            Some(x) => x,
            None => {
                return None;
            },
        };
        if end != inner_bytes.len() || f.known[0].is_none() || f.gaps[0].len() != 0 {
            return None;
        }
        let t = match opt_unsigned_exec(f.known[0]) {
            Some(Some(t)) => t,
            _ => {
                return None;
            },
        };
        let k = match opt_key_locator_exec(f.known[1]) {
            Some(k) => k,
            None => {
                return None;
            },
        };
        let r = SignatureInfo { signature_type: t, key_locator: k, unknown_tlvs: f.gaps };
        proof {
            assert(f.view().known[0] == opt_view(f.known@[0]));
            assert(f.view().known[1] == opt_view(f.known@[1]));
        }
        Some(r)
    }
}

// ---------------------------------------------------------------------------
// InterestSignatureInfo
// ---------------------------------------------------------------------------

/// The signature info of a signed Interest; no unknown TLVs are allowed.
pub struct InterestSignatureInfo<'a> {
    pub signature_type: u64,
    pub key_locator: Option<KeyLocator<'a>>,
    pub nonce: Option<&'a [u8]>,
    pub signature_time: Option<u64>,
    pub signature_seq_num: Option<u64>,
}

pub struct InterestSignatureInfoView {
    pub signature_type: u64,
    pub key_locator: Option<KeyLocatorView>,
    pub nonce: Option<Seq<u8>>,
    pub signature_time: Option<u64>,
    pub signature_seq_num: Option<u64>,
}

pub open spec fn interest_signature_info_parse(s: Seq<u8>) -> Option<InterestSignatureInfoView> {
    match fields_parse(s, interest_signature_info_kinds(), 4, fields_start(5, 0)) {
        Some((f, m)) => if m != s.len() || f.known[0] is None {
            None
        } else {
            match (
                opt_unsigned(f.known[0]),
                opt_key_locator(f.known[1]),
                opt_unsigned(f.known[3]),
                opt_unsigned(f.known[4]),
            ) {
                (Some(Some(t)), Some(k), Some(time), Some(seq_num)) => Some(
                    InterestSignatureInfoView {
                        signature_type: t,
                        key_locator: k,
                        nonce: f.known[2],
                        signature_time: time,
                        signature_seq_num: seq_num,
                    },
                ),
                _ => None,
            }
        },
        None => None,
    }
}

impl<'a> InterestSignatureInfo<'a> {
    pub open spec fn view(&self) -> InterestSignatureInfoView {
        InterestSignatureInfoView {
            signature_type: self.signature_type,
            key_locator: match self.key_locator {
                Some(k) => Some(k.view()),
                None => None,
            },
            nonce: opt_view(self.nonce),
            signature_time: self.signature_time,
            signature_seq_num: self.signature_seq_num,
        }
    }

    pub fn try_decode(inner_bytes: &'a [u8]) -> (r: Option<Self>)
        ensures
            match r {
                Some(si) => interest_signature_info_parse(inner_bytes@) == Some(si.view()) && si.wf(),
                None => interest_signature_info_parse(inner_bytes@) is None,
            },
    {
        let kinds: [u32; 5] = [
            TLV_TYPE_SIGNATURE_TYPE,
            TLV_TYPE_KEY_LOCATOR,
            TLV_TYPE_INTEREST_SIGNATURE_NONCE,
            TLV_TYPE_INTEREST_SIGNATURE_TIME,
            TLV_TYPE_INTEREST_SIGNATURE_SEQ_NUM,
        ];
        let kinds = kinds.as_slice();
        assert(kinds@ =~= interest_signature_info_kinds());
        assert(inner_bytes@.skip(0) =~= inner_bytes@);
        let (f, end) = match parse_fields(inner_bytes, 0, kinds, 0, 4) {
            Some(x) => x,
            None => {
                return None;
            },
        };
        if end != inner_bytes.len() || f.known[0].is_none() {
            return None;
        }
        proof {
            assert(f.view().known[0] == opt_view(f.known@[0]));
            assert(f.view().known[1] == opt_view(f.known@[1]));
            assert(f.view().known[2] == opt_view(f.known@[2]));
            assert(f.view().known[3] == opt_view(f.known@[3]));
            assert(f.view().known[4] == opt_view(f.known@[4]));
        }
        let t = match opt_unsigned_exec(f.known[0]) {
            Some(Some(t)) => t,
            _ => {
                return None;
            },
        };
        let k = match opt_key_locator_exec(f.known[1]) {
            Some(k) => k,
            None => {
                return None;
            },
        };
        let time = match opt_unsigned_exec(f.known[3]) {
            Some(x) => x,
            None => {
                return None;
            },
        };
        let seq_num = match opt_unsigned_exec(f.known[4]) {
            Some(x) => x,
            None => {
                return None;
            },
        };
        Some(
            InterestSignatureInfo {
                signature_type: t,
                key_locator: k,
                nonce: f.known[2],
                signature_time: time,
                signature_seq_num: seq_num,
            },
        )
    }
}

// ---------------------------------------------------------------------------
// MetaInfo
// ---------------------------------------------------------------------------

pub const CONTENT_TYPE_BLOB: u64 = 0;

pub const CONTENT_TYPE_KEY: u64 = 1;

pub const CONTENT_TYPE_LINK: u64 = 2;

pub const CONTENT_TYPE_NACK: u64 = 3;

/// The last component of the content's name.
#[derive(Clone, Copy)]
pub struct FinalBlockId<'a> {
    pub component: NameComponent<'a>,
}

pub open spec fn final_block_id_parse(s: Seq<u8>) -> Option<ComponentView> {
    match tlv_parse(s) {
        Ok((t, v, n)) => if n == s.len() && t <= 0xFFFF {
            Some((t as u16, v))
        } else {
            None
        },
        Err(_) => None,
    }
}

impl<'a> FinalBlockId<'a> {
    /// Decodes the inner bytes of a FinalBlockId: one name component.
    pub fn try_decode(inner_bytes: &'a [u8]) -> (r: Option<Self>)
        ensures
            match r {
                Some(f) => final_block_id_parse(inner_bytes@) == Some(f.component@),
                None => final_block_id_parse(inner_bytes@) is None,
            },
    {
        let (tlv, n) = match TLV::try_decode(inner_bytes) {
            Ok(x) => x,
            Err(_) => {
                return None;
            },
        };
        if n != inner_bytes.len() || tlv.typ > 0xFFFF {
            return None;
        }
        Some(FinalBlockId { component: NameComponent { typ: tlv.typ as u16, bytes: tlv.val } })
    }
}

pub open spec fn opt_final_block_id(v: Option<Seq<u8>>) -> Option<Option<ComponentView>> {
    match v {
        None => Some(None),
        Some(b) => match final_block_id_parse(b) {
            Some(c) => Some(Some(c)),
            None => None,
        },
    }
}

/// The meta info of a Data packet; unknown non-critical TLVs may follow its
/// fields.
pub struct MetaInfo<'a> {
    pub content_type: Option<u64>,
    pub freshness_period: Option<u64>,
    pub final_block_id: Option<FinalBlockId<'a>>,
    pub unknown_tlvs: Vec<&'a [u8]>,
}

pub struct MetaInfoView {
    pub content_type: Option<u64>,
    pub freshness_period: Option<u64>,
    pub final_block_id: Option<ComponentView>,
    pub unknown_tlvs: Seq<Seq<u8>>,
}

/// Whether no known field follows an unknown TLV: in a meta info unknown
/// TLVs may only trail the known fields.
pub open spec fn unknown_tlvs_trail(f: FieldsView) -> bool {
    forall|j: int, k: int|
        0 <= j <= k < f.known.len() && #[trigger] f.gaps[j].len() > 0 ==> #[trigger] f.known[k]
            is None
}

fn unknown_tlvs_trail_exec(f: &Fields) -> (r: bool)
    requires
        f.known@.len() <= f.gaps@.len(),
    ensures
        r == unknown_tlvs_trail(f.view()),
{
    let n = f.known.len();
    let mut seen = false;
    let mut k: usize = 0;
    while k < n
        invariant
            k <= n,
            n == f.known@.len(),
            n <= f.gaps@.len(),
            seen == exists|j: int| 0 <= j < k && #[trigger] f.view().gaps[j].len() > 0,
            forall|j: int, i: int|
                0 <= j <= i < k && #[trigger] f.view().gaps[j].len() > 0 ==> #[trigger] f.view().known[i]
                    is None,
        decreases n - k,
    {
        assert(f.view().gaps[k as int] == f.gaps@[k as int]@);
        if f.gaps[k].len() > 0 {
            seen = true;
        }
        let present = match f.known[k] {
            Some(_) => true,
            None => false,
        };
        assert(present == (f.view().known[k as int] is Some));
        if seen && present {
            assert(!unknown_tlvs_trail(f.view()));
            return false;
        }
        k = k + 1;
    }
    true
}

pub open spec fn meta_info_parse(s: Seq<u8>) -> Option<MetaInfoView> {
    match fields_parse(s, meta_info_kinds(), 3, fields_start(3, 4)) {
        Some((f, m)) => if m != s.len() || !unknown_tlvs_trail(f) {
            None
        } else {
            match (
                opt_unsigned(f.known[0]),
                opt_unsigned(f.known[1]),
                opt_final_block_id(f.known[2]),
            ) {
                (Some(ct), Some(fp), Some(fb)) => Some(
                    MetaInfoView {
                        content_type: ct,
                        freshness_period: fp,
                        final_block_id: fb,
                        unknown_tlvs: f.gaps,
                    },
                ),
                _ => None,
            }
        },
        None => None,
    }
}

impl<'a> MetaInfo<'a> {
    pub open spec fn view(&self) -> MetaInfoView {
        MetaInfoView {
            content_type: self.content_type,
            freshness_period: self.freshness_period,
            final_block_id: match self.final_block_id {
                Some(f) => Some(f.component@),
                None => None,
            },
            unknown_tlvs: gap_views(self.unknown_tlvs@),
        }
    }

    pub fn try_decode(inner_bytes: &'a [u8]) -> (r: Option<Self>)
        ensures
            match r {
                Some(mi) => meta_info_parse(inner_bytes@) == Some(mi.view()),
                None => meta_info_parse(inner_bytes@) is None,
            },
    {
        let kinds: [u32; 3] = [
            TLV_TYPE_CONTENT_TYPE,
            TLV_TYPE_FRESHNESS_PERIOD,
            TLV_TYPE_FINAL_BLOCK_ID,
        ];
        let kinds = kinds.as_slice();
        assert(kinds@ =~= meta_info_kinds());
        assert(inner_bytes@.skip(0) =~= inner_bytes@);
        let (f, end) = match parse_fields(inner_bytes, 0, kinds, 4, 3) {
            Some(x) => x,
            None => {
                return None;
            },
        };
        if end != inner_bytes.len() || !unknown_tlvs_trail_exec(&f) {
            return None;
        }
        proof {
            assert(f.view().known[0] == opt_view(f.known@[0]));
            assert(f.view().known[1] == opt_view(f.known@[1]));
            assert(f.view().known[2] == opt_view(f.known@[2]));
        }
        let ct = match opt_unsigned_exec(f.known[0]) {
            Some(x) => x,
            None => {
                return None;
            },
        };
        let fp = match opt_unsigned_exec(f.known[1]) {
            Some(x) => x,
            None => {
                return None;
            },
        };
        let fb = match f.known[2] {
            None => None,
            Some(b) => match FinalBlockId::try_decode(b) {
                Some(x) => Some(x),
                None => {
                    return None;
                },
            },
        };
        Some(
            MetaInfo {
                content_type: ct,
                freshness_period: fp,
                final_block_id: fb,
                unknown_tlvs: f.gaps,
            },
        )
    }
}


// ---------------------------------------------------------------------------
// Interest
// ---------------------------------------------------------------------------

/// An Interest: a request for Data under a name.
pub struct Interest<'a> {
    pub name: Name<'a>,
    pub can_be_prefix: bool,
    pub must_be_fresh: bool,
    pub forwarding_hint: Option<&'a [u8]>,
    pub nonce: Option<[u8; 4]>,
    pub interest_lifetime: Option<u64>,
    pub hop_limit: Option<u8>,
    pub application_parameters: Option<&'a [u8]>,
    pub signature: Option<(InterestSignatureInfo<'a>, &'a [u8])>,
    /// The unknown non-critical TLVs before each known field after the name.
    pub unknown_tlvs: Vec<&'a [u8]>,
}

pub struct InterestView {
    pub name: Seq<ComponentView>,
    pub can_be_prefix: bool,
    pub must_be_fresh: bool,
    pub forwarding_hint: Option<Seq<u8>>,
    pub nonce: Option<Seq<u8>>,
    pub interest_lifetime: Option<u64>,
    pub hop_limit: Option<u8>,
    pub application_parameters: Option<Seq<u8>>,
    pub signature: Option<(InterestSignatureInfoView, Seq<u8>)>,
    pub unknown_tlvs: Seq<Seq<u8>>,
}

/// A flag field: absent, or present and empty.
pub open spec fn flag_ok(v: Option<Seq<u8>>) -> bool {
    v is None || v == Some(Seq::<u8>::empty())
}

/// The optional signature after an Interest's application parameters: none
/// where nothing follows, else an InterestSignatureInfo and an
/// InterestSignatureValue that end the packet.
pub open spec fn interest_signature_parse(rest: Seq<u8>) -> Option<
    Option<(InterestSignatureInfoView, Seq<u8>)>,
> {
    if rest.len() == 0 {
        Some(None)
    } else {
        match tlv_parse(rest) {
            Ok((t1, v1, n1)) => if t1 != TLV_TYPE_INTEREST_SIGNATURE_INFO || n1 > rest.len() {
                None
            } else {
                match (
                    interest_signature_info_parse(v1),
                    tlv_parse(rest.skip(n1 as int)),
                ) {
                    (Some(si), Ok((t2, v2, n2))) => if t2 == TLV_TYPE_INTEREST_SIGNATURE_VALUE
                        && n1 + n2 == rest.len() {
                        Some(Some((si, v2)))
                    } else {
                        None
                    },
                    _ => None,
                }
            },
            Err(_) => None,
        }
    }
}

/// What decoding the inner bytes of an Interest TLV gives.
pub open spec fn interest_parse(s: Seq<u8>) -> Option<InterestView> {
    match tlv_parse(s) {
        Err(_) => None,
        Ok((t, v, n)) => if t != TLV_TYPE_NAME || n > s.len() {
            None
        } else {
            match (
                components_parse(v),
                fields_parse(s.skip(n as int), interest_kinds(), 6, fields_start(7, 7)),
            ) {
                (Some(name), Some((f, m))) => {
                    let k = f.known;
                    if !flag_ok(k[0]) || !flag_ok(k[1]) || (k[3] matches Some(b) && b.len() != 4)
                        || opt_unsigned(k[4]) is None || (k[5] matches Some(b) && b.len() != 1)
                        || n + m > s.len() {
                        None
                    } else {
                        match interest_signature_parse(s.skip((n + m) as int)) {
                            Some(sig) => Some(
                                InterestView {
                                    name,
                                    can_be_prefix: k[0] is Some,
                                    must_be_fresh: k[1] is Some,
                                    forwarding_hint: k[2],
                                    nonce: k[3],
                                    interest_lifetime: opt_unsigned(k[4])->Some_0,
                                    hop_limit: match k[5] {
                                        Some(b) => Some(b[0]),
                                        None => None,
                                    },
                                    application_parameters: k[6],
                                    signature: sig,
                                    unknown_tlvs: f.gaps,
                                },
                            ),
                            None => None,
                        }
                    }
                },
                _ => None,
            }
        },
    }
}

impl<'a> Interest<'a> {
    pub open spec fn view(&self) -> InterestView {
        InterestView {
            name: self.name@,
            can_be_prefix: self.can_be_prefix,
            must_be_fresh: self.must_be_fresh,
            forwarding_hint: opt_view(self.forwarding_hint),
            nonce: match self.nonce {
                Some(n) => Some(n@),
                None => None,
            },
            interest_lifetime: self.interest_lifetime,
            hop_limit: self.hop_limit,
            application_parameters: opt_view(self.application_parameters),
            signature: match self.signature {
                Some((si, sv)) => Some((si.view(), sv@)),
                None => None,
            },
            unknown_tlvs: gap_views(self.unknown_tlvs@),
        }
    }

    /// An Interest for `name` with a nonce and nothing else.
    pub fn new(name: Name<'a>, can_be_prefix: bool, nonce: [u8; 4]) -> (r: Self)
        ensures
            r.name@ == name@,
            r.can_be_prefix == can_be_prefix,
            !r.must_be_fresh,
            r.nonce == Some(nonce),
            r.forwarding_hint is None,
            r.interest_lifetime is None,
            r.hop_limit is None,
            r.application_parameters is None,
            r.signature is None,
            r.unknown_tlvs@.len() == 7,
            forall|i: int| 0 <= i < 7 ==> (#[trigger] r.unknown_tlvs@[i])@.len() == 0,
    {
        let mut unknown_tlvs: Vec<&'a [u8]> = Vec::new();
        let empty: &'a [u8] = &[];
        let mut i: usize = 0;
        while i < 7
            invariant
                i <= 7,
                unknown_tlvs@.len() == i,
                empty@.len() == 0,
                forall|j: int| 0 <= j < i ==> (#[trigger] unknown_tlvs@[j])@.len() == 0,
            decreases 7 - i,
        {
            unknown_tlvs.push(empty);
            i = i + 1;
        }
        Interest {
            name,
            can_be_prefix,
            must_be_fresh: false,
            forwarding_hint: None,
            nonce: Some(nonce),
            interest_lifetime: None,
            hop_limit: None,
            application_parameters: None,
            signature: None,
            unknown_tlvs,
        }
    }

    /// Decodes the inner bytes of an Interest TLV: the Name first, then the
    /// known fields in canonical order with unknown non-critical TLVs between
    /// them, then, after application parameters, an optional signature.
    pub fn try_decode(inner_bytes: &'a [u8]) -> (r: Option<Self>)
        ensures
            match r {
                Some(i) => interest_parse(inner_bytes@) == Some(i.view()) && i.wf(),
                None => interest_parse(inner_bytes@) is None,
            },
    {
        let total = inner_bytes.len();
        let (name_tlv, n) = match TLV::try_decode(inner_bytes) {
            Ok(x) => x,
            Err(_) => {
                return None;
            },
        };
        proof {
            crate::tlv::lemma_tlv_parse_canonical(inner_bytes@);
        }
        if name_tlv.typ != TLV_TYPE_NAME {
            return None;
        }
        let name = match Name::try_decode(name_tlv.val) {
            Some(x) => x,
            None => {
                return None;
            },
        };
        let kinds: [u32; 7] = [
            TLV_TYPE_CAN_BE_PREFIX,
            TLV_TYPE_MUST_BE_FRESH,
            TLV_TYPE_FORWARDING_HINT,
            TLV_TYPE_NONCE,
            TLV_TYPE_INTEREST_LIFETIME,
            TLV_TYPE_HOP_LIMIT,
            TLV_TYPE_APPLICATION_PARAMETERS,
        ];
        let kinds = kinds.as_slice();
        assert(kinds@ =~= interest_kinds());
        let (f, end) = match parse_fields(inner_bytes, n, kinds, 7, 6) {
            Some(x) => x,
            None => {
                return None;
            },
        };
        proof {
            assert(f.view().known[0] == opt_view(f.known@[0]));
            assert(f.view().known[1] == opt_view(f.known@[1]));
            assert(f.view().known[2] == opt_view(f.known@[2]));
            assert(f.view().known[3] == opt_view(f.known@[3]));
            assert(f.view().known[4] == opt_view(f.known@[4]));
            assert(f.view().known[5] == opt_view(f.known@[5]));
            assert(f.view().known[6] == opt_view(f.known@[6]));
            assert(inner_bytes@.skip(n as int).skip((end - n) as int) =~= inner_bytes@.skip(
                end as int,
            ));
        }
        let cbp_ok = match f.known[0] {
            Some(b) => b.len() == 0,
            None => true,
        };
        let mbf_ok = match f.known[1] {
            Some(b) => b.len() == 0,
            None => true,
        };
        proof {
            if let Some(b) = f.known@[0] {
                if b@.len() == 0 {
                    assert(b@ =~= Seq::<u8>::empty());
                }
            }
            if let Some(b) = f.known@[1] {
                if b@.len() == 0 {
                    assert(b@ =~= Seq::<u8>::empty());
                }
            }
        }
        if !cbp_ok || !mbf_ok {
            return None;
        }
        let nonce = match f.known[3] {
            Some(b) => {
                if b.len() != 4 {
                    return None;
                }
                let a: [u8; 4] = [b[0], b[1], b[2], b[3]];
                assert(a@ =~= b@);
                Some(a)
            },
            None => None,
        };
        let lifetime = match opt_unsigned_exec(f.known[4]) {
            Some(x) => x,
            None => {
                return None;
            },
        };
        let hop_limit = match f.known[5] {
            Some(b) => {
                if b.len() != 1 {
                    return None;
                }
                Some(b[0])
            },
            None => None,
        };
        let rest = &inner_bytes[end..total];
        assert(rest@ =~= inner_bytes@.skip(end as int));
        let signature = match Self::decode_signature(rest) {
            Some(sig) => sig,
            None => {
                return None;
            },
        };
        Some(
            Interest {
                name,
                can_be_prefix: f.known[0].is_some(),
                must_be_fresh: f.known[1].is_some(),
                forwarding_hint: f.known[2],
                nonce,
                interest_lifetime: lifetime,
                hop_limit,
                application_parameters: f.known[6],
                signature,
                unknown_tlvs: f.gaps,
            },
        )
    }

    fn decode_signature(rest: &'a [u8]) -> (r: Option<
        Option<(InterestSignatureInfo<'a>, &'a [u8])>,
    >)
        ensures
            match r {
                Some(Some((si, sv))) => interest_signature_parse(rest@) == Some(
                    Some((si.view(), sv@)),
                ) && si.wf(),
                Some(None) => interest_signature_parse(rest@) == Some(
                    None::<(InterestSignatureInfoView, Seq<u8>)>,
                ),
                None => interest_signature_parse(rest@) is None,
            },
    {
        let total = rest.len();
        if total == 0 {
            return Some(None);
        }
        let (si_tlv, n1) = match TLV::try_decode(rest) {
            Ok(x) => x,
            Err(_) => {
                return None;
            },
        };
        proof {
            crate::tlv::lemma_tlv_parse_canonical(rest@);
        }
        if si_tlv.typ != TLV_TYPE_INTEREST_SIGNATURE_INFO {
            return None;
        }
        let si = match InterestSignatureInfo::try_decode(si_tlv.val) {
            Some(x) => x,
            None => {
                return None;
            },
        };
        let tail = &rest[n1..total];
        assert(tail@ =~= rest@.skip(n1 as int));
        let (sv_tlv, n2) = match TLV::try_decode(tail) {
            Ok(x) => x,
            Err(_) => {
                return None;
            },
        };
        proof {
            crate::tlv::lemma_tlv_parse_canonical(tail@);
        }
        if sv_tlv.typ != TLV_TYPE_INTEREST_SIGNATURE_VALUE || n2 != total - n1 {
            return None;
        }
        Some(Some((si, sv_tlv.val)))
    }
}

// ---------------------------------------------------------------------------
// Data
// ---------------------------------------------------------------------------

/// A Data packet: content bound to a name and signed.
pub struct Data<'a> {
    pub name: Name<'a>,
    pub meta_info: Option<MetaInfo<'a>>,
    pub content: Option<&'a [u8]>,
    pub signature_info: SignatureInfo<'a>,
    pub signature_value: &'a [u8],
    /// The unknown non-critical TLVs before MetaInfo, Content and SignatureInfo.
    pub unknown_tlvs: Vec<&'a [u8]>,
}

pub struct DataView {
    pub name: Seq<ComponentView>,
    pub meta_info: Option<MetaInfoView>,
    pub content: Option<Seq<u8>>,
    pub signature_info: SignatureInfoView,
    pub signature_value: Seq<u8>,
    pub unknown_tlvs: Seq<Seq<u8>>,
}

pub open spec fn opt_meta_info(v: Option<Seq<u8>>) -> Option<Option<MetaInfoView>> {
    match v {
        None => Some(None),
        Some(b) => match meta_info_parse(b) {
            Some(m) => Some(Some(m)),
            None => None,
        },
    }
}

/// What decoding the inner bytes of a Data TLV gives.
pub open spec fn data_parse(s: Seq<u8>) -> Option<DataView> {
    match tlv_parse(s) {
        Err(_) => None,
        Ok((t, v, n)) => if t != TLV_TYPE_NAME || n > s.len() {
            None
        } else {
            match (
                components_parse(v),
                fields_parse(s.skip(n as int), data_kinds(), 3, fields_start(4, 3)),
            ) {
                (Some(name), Some((f, m))) => {
                    let k = f.known;
                    if n + m != s.len() || k[2] is None || k[3] is None {
                        None
                    } else {
                        match (opt_meta_info(k[0]), signature_info_parse(k[2]->Some_0)) {
                            (Some(mi), Some(si)) => Some(
                                DataView {
                                    name,
                                    meta_info: mi,
                                    content: k[1],
                                    signature_info: si,
                                    signature_value: k[3]->Some_0,
                                    unknown_tlvs: f.gaps,
                                },
                            ),
                            _ => None,
                        }
                    }
                },
                _ => None,
            }
        },
    }
}

impl<'a> Data<'a> {
    pub open spec fn view(&self) -> DataView {
        DataView {
            name: self.name@,
            meta_info: match self.meta_info {
                Some(m) => Some(m.view()),
                None => None,
            },
            content: opt_view(self.content),
            signature_info: self.signature_info.view(),
            signature_value: self.signature_value@,
            unknown_tlvs: gap_views(self.unknown_tlvs@),
        }
    }

    /// Data for `name` carrying `payload`, with an empty signature value.
    pub fn new_unsigned(name: Name<'a>, payload: &'a [u8], signature_info: SignatureInfo<'a>) -> (r:
        Self)
        ensures
            r.name@ == name@,
            r.content == Some(payload),
            r.meta_info is None,
            r.signature_value@.len() == 0,
            r.unknown_tlvs@.len() == 3,
    {
        let empty: &'a [u8] = &[];
        let mut unknown_tlvs: Vec<&'a [u8]> = Vec::new();
        unknown_tlvs.push(empty);
        unknown_tlvs.push(empty);
        unknown_tlvs.push(empty);
        Data {
            name,
            meta_info: None,
            content: Some(payload),
            signature_info,
            signature_value: empty,
            unknown_tlvs,
        }
    }

    /// Decodes the inner bytes of a Data TLV: the Name first, then MetaInfo,
    /// Content, SignatureInfo (required) and SignatureValue (required) in this
    /// order, with unknown non-critical TLVs before the SignatureInfo.
    pub fn try_decode(inner_bytes: &'a [u8]) -> (r: Option<Self>)
        ensures
            match r {
                Some(d) => data_parse(inner_bytes@) == Some(d.view()) && d.wf(),
                None => data_parse(inner_bytes@) is None,
            },
    {
        let total = inner_bytes.len();
        let (name_tlv, n) = match TLV::try_decode(inner_bytes) {
            Ok(x) => x,
            Err(_) => {
                return None;
            },
        };
        proof {
            crate::tlv::lemma_tlv_parse_canonical(inner_bytes@);
        }
        if name_tlv.typ != TLV_TYPE_NAME {
            return None;
        }
        let name = match Name::try_decode(name_tlv.val) {
            Some(x) => x,
            None => {
                return None;
            },
        };
        let kinds: [u32; 4] = [
            TLV_TYPE_META_INFO,
            TLV_TYPE_CONTENT,
            TLV_TYPE_SIGNATURE_INFO,
            TLV_TYPE_SIGNATURE_VALUE,
        ];
        let kinds = kinds.as_slice();
        assert(kinds@ =~= data_kinds());
        let (f, end) = match parse_fields(inner_bytes, n, kinds, 3, 3) {
            Some(x) => x,
            None => {
                return None;
            },
        };
        proof {
            assert(f.view().known[0] == opt_view(f.known@[0]));
            assert(f.view().known[1] == opt_view(f.known@[1]));
            assert(f.view().known[2] == opt_view(f.known@[2]));
            assert(f.view().known[3] == opt_view(f.known@[3]));
        }
        if end != total {
            return None;
        }
        let si_bytes = match f.known[2] {
            Some(b) => b,
            None => {
                return None;
            },
        };
        let sv = match f.known[3] {
            Some(b) => b,
            None => {
                return None;
            },
        };
        let meta_info = match f.known[0] {
            None => None,
            Some(b) => match MetaInfo::try_decode(b) {
                Some(m) => Some(m),
                None => {
                    return None;
                },
            },
        };
        let signature_info = match SignatureInfo::try_decode(si_bytes) {
            Some(x) => x,
            None => {
                return None;
            },
        };
        Some(
            Data {
                name,
                meta_info,
                content: f.known[1],
                signature_info,
                signature_value: sv,
                unknown_tlvs: f.gaps,
            },
        )
    }

    /// The freshness period of the Data, 0 without one.
    pub fn freshness_period(&self) -> (r: u64)
        ensures
            r == (match self.view().meta_info {
                Some(m) => match m.freshness_period {
                    Some(p) => p,
                    None => 0,
                },
                None => 0,
            }),
    {
        match &self.meta_info {
            Some(m) => match m.freshness_period {
                Some(p) => p,
                None => 0,
            },
            None => 0,
        }
    }
}

/// The signed portion of Data on the wire: its inner bytes without the
/// SignatureValue TLV that ends them, i.e. from the Name through the
/// SignatureInfo.
pub open spec fn signed_portion(inner: Seq<u8>, signature_value: Seq<u8>) -> Seq<u8> {
    let sv_len = crate::tlv::tlv_encoding(TLV_TYPE_SIGNATURE_VALUE, signature_value).len();
    inner.take(
        if inner.len() >= sv_len {
            inner.len() - sv_len
        } else {
            0
        },
    )
}

/// The signed portion of the Data whose inner bytes are `inner`, with
/// signature value `signature_value`.
pub fn signed_portion_of<'a>(inner: &'a [u8], signature_value: &[u8]) -> (r: &'a [u8])
    ensures
        r@ == signed_portion(inner@, signature_value@),
{
    let l = signature_value.len();
    proof {
        crate::tlv::lemma_varint_encoding_len(l as u64);
        crate::tlv::lemma_varint_encoding_len(TLV_TYPE_SIGNATURE_VALUE as u64);
    }
    let header = 1 + crate::tlv::Varint(l as u64).encoded_length();
    let total = inner.len();
    if total >= header && total - header >= l {
        &inner[0..total - header - l]
    } else {
        &inner[0..0]
    }
}


// ---------------------------------------------------------------------------
// Encoding
// ---------------------------------------------------------------------------

pub open spec fn opt_unsigned_encoding(v: Option<u64>) -> Option<Seq<u8>> {
    match v {
        Some(x) => Some(crate::tlv::unsigned_encoding(x)),
        None => None,
    }
}

pub open spec fn opt_key_locator_encoding(k: Option<KeyLocatorView>) -> Option<Seq<u8>> {
    match k {
        Some(l) => Some(key_locator_inner_encoding(l)),
        None => None,
    }
}

pub open spec fn flag_value(b: bool) -> Option<Seq<u8>> {
    if b {
        Some(Seq::empty())
    } else {
        None
    }
}

pub open spec fn signature_info_inner_encoding(v: SignatureInfoView) -> Seq<u8> {
    crate::fields::fields_encoding(
        FieldsView {
            known: seq![
                Some(crate::tlv::unsigned_encoding(v.signature_type)),
                opt_key_locator_encoding(v.key_locator),
            ],
            gaps: v.unknown_tlvs,
            next: 0,
        },
        signature_info_kinds(),
    )
}

pub open spec fn interest_signature_info_inner_encoding(v: InterestSignatureInfoView) -> Seq<u8> {
    crate::fields::fields_encoding(
        FieldsView {
            known: seq![
                Some(crate::tlv::unsigned_encoding(v.signature_type)),
                opt_key_locator_encoding(v.key_locator),
                v.nonce,
                opt_unsigned_encoding(v.signature_time),
                opt_unsigned_encoding(v.signature_seq_num),
            ],
            gaps: Seq::empty(),
            next: 0,
        },
        interest_signature_info_kinds(),
    )
}

pub open spec fn meta_info_inner_encoding(v: MetaInfoView) -> Seq<u8> {
    crate::fields::fields_encoding(
        FieldsView {
            known: seq![
                opt_unsigned_encoding(v.content_type),
                opt_unsigned_encoding(v.freshness_period),
                match v.final_block_id {
                    Some(c) => Some(crate::name::component_encoding(c)),
                    None => None,
                },
            ],
            gaps: v.unknown_tlvs,
            next: 0,
        },
        meta_info_kinds(),
    )
}

/// The fields of an Interest after its Name, as encoded.
pub open spec fn interest_fields(v: InterestView) -> FieldsView {
    FieldsView {
        known: seq![
            flag_value(v.can_be_prefix),
            flag_value(v.must_be_fresh),
            v.forwarding_hint,
            v.nonce,
            opt_unsigned_encoding(v.interest_lifetime),
            match v.hop_limit {
                Some(h) => Some(seq![h]),
                None => None,
            },
            v.application_parameters,
        ],
        gaps: v.unknown_tlvs,
        next: 0,
    }
}

/// The inner bytes of an Interest TLV.
pub open spec fn interest_inner_encoding(v: InterestView) -> Seq<u8> {
    crate::tlv::tlv_encoding(TLV_TYPE_NAME, crate::name::components_encoding(v.name))
        + crate::fields::fields_encoding(interest_fields(v), interest_kinds()) + match v.signature {
        Some((si, sv)) => crate::tlv::tlv_encoding(
            TLV_TYPE_INTEREST_SIGNATURE_INFO,
            interest_signature_info_inner_encoding(si),
        ) + crate::tlv::tlv_encoding(TLV_TYPE_INTEREST_SIGNATURE_VALUE, sv),
        None => Seq::empty(),
    }
}

/// The fields of Data after its Name, as encoded; without the signature
/// value where `signed_only`.
pub open spec fn data_fields(v: DataView, signed_only: bool) -> FieldsView {
    FieldsView {
        known: seq![
            match v.meta_info {
                Some(m) => Some(meta_info_inner_encoding(m)),
                None => None,
            },
            v.content,
            Some(signature_info_inner_encoding(v.signature_info)),
            if signed_only {
                None
            } else {
                Some(v.signature_value)
            },
        ],
        gaps: v.unknown_tlvs,
        next: 0,
    }
}

/// The inner bytes of a Data TLV, or only its signed portion.
pub open spec fn data_inner_encoding(v: DataView, signed_only: bool) -> Seq<u8> {
    crate::tlv::tlv_encoding(TLV_TYPE_NAME, crate::name::components_encoding(v.name))
        + crate::fields::fields_encoding(data_fields(v, signed_only), data_kinds())
}

fn unsigned_bytes(v: u64) -> (r: Vec<u8>)
    ensures
        r@ == crate::tlv::unsigned_encoding(v),
{
    let mut out: Vec<u8> = Vec::new();
    v.append_to(&mut out);
    assert(out@ =~= crate::tlv::unsigned_encoding(v));
    out
}

fn opt_unsigned_bytes(v: Option<u64>) -> (r: Option<Vec<u8>>)
    ensures
        match r {
            Some(b) => opt_unsigned_encoding(v) == Some(b@),
            None => opt_unsigned_encoding(v) is None,
        },
{
    match v {
        Some(x) => Some(unsigned_bytes(x)),
        None => None,
    }
}

fn opt_slice_bytes(v: Option<&[u8]>) -> (r: Option<Vec<u8>>)
    ensures
        match r {
            Some(b) => opt_view(v) == Some(b@),
            None => opt_view(v) is None,
        },
{
    match v {
        Some(b) => {
            let mut out: Vec<u8> = Vec::new();
            crate::io::append_bytes(&mut out, b);
            assert(out@ =~= b@);
            Some(out)
        },
        None => None,
    }
}

fn opt_key_locator_bytes(k: &Option<KeyLocator>) -> (r: Option<Vec<u8>>)
    requires
        k matches Some(l) ==> l.wf(),
    ensures
        match r {
            Some(b) => opt_key_locator_encoding(
                match k {
                    Some(l) => Some(l.view()),
                    None => None,
                },
            ) == Some(b@),
            None => k is None,
        },
{
    match k {
        Some(l) => Some(l.inner_to_vec()),
        None => None,
    }
}

proof fn lemma_owned_views_eq(values: Seq<Option<Vec<u8>>>, expected: Seq<Option<Seq<u8>>>)
    requires
        values.len() == expected.len(),
        forall|k: int|
            0 <= k < values.len() ==> match #[trigger] values[k] {
                Some(b) => expected[k] == Some(b@),
                None => expected[k] is None,
            },
    ensures
        crate::fields::owned_views(values) == expected,
{
    assert(crate::fields::owned_views(values) =~= expected);
}

impl<'a> SignatureInfo<'a> {
    pub open spec fn wf(&self) -> bool {
        self.key_locator matches Some(l) ==> l.wf()
    }

    fn inner_to_vec(&self) -> (r: Vec<u8>)
        requires
            self.wf(),
        ensures
            r@ == signature_info_inner_encoding(self.view()),
    {
        let kinds: [u32; 2] = [TLV_TYPE_SIGNATURE_TYPE, TLV_TYPE_KEY_LOCATOR];
        let kinds = kinds.as_slice();
        assert(kinds@ =~= signature_info_kinds());
        let mut values: Vec<Option<Vec<u8>>> = Vec::new();
        values.push(Some(unsigned_bytes(self.signature_type)));
        values.push(opt_key_locator_bytes(&self.key_locator));
        let ghost v = self.view();
        proof {
            lemma_owned_views_eq(
                values@,
                seq![
                    Some(crate::tlv::unsigned_encoding(v.signature_type)),
                    opt_key_locator_encoding(v.key_locator),
                ],
            );
        }
        let mut out: Vec<u8> = Vec::new();
        crate::fields::append_fields(&mut out, kinds, &values, &self.unknown_tlvs);
        assert(out@ =~= signature_info_inner_encoding(self.view()));
        out
    }
}

impl<'a> InterestSignatureInfo<'a> {
    pub open spec fn wf(&self) -> bool {
        self.key_locator matches Some(l) ==> l.wf()
    }

    fn inner_to_vec(&self) -> (r: Vec<u8>)
        requires
            self.wf(),
        ensures
            r@ == interest_signature_info_inner_encoding(self.view()),
    {
        let kinds: [u32; 5] = [
            TLV_TYPE_SIGNATURE_TYPE,
            TLV_TYPE_KEY_LOCATOR,
            TLV_TYPE_INTEREST_SIGNATURE_NONCE,
            TLV_TYPE_INTEREST_SIGNATURE_TIME,
            TLV_TYPE_INTEREST_SIGNATURE_SEQ_NUM,
        ];
        let kinds = kinds.as_slice();
        assert(kinds@ =~= interest_signature_info_kinds());
        let mut values: Vec<Option<Vec<u8>>> = Vec::new();
        values.push(Some(unsigned_bytes(self.signature_type)));
        values.push(opt_key_locator_bytes(&self.key_locator));
        values.push(opt_slice_bytes(self.nonce));
        values.push(opt_unsigned_bytes(self.signature_time));
        values.push(opt_unsigned_bytes(self.signature_seq_num));
        let ghost v = self.view();
        proof {
            lemma_owned_views_eq(
                values@,
                seq![
                    Some(crate::tlv::unsigned_encoding(v.signature_type)),
                    opt_key_locator_encoding(v.key_locator),
                    v.nonce,
                    opt_unsigned_encoding(v.signature_time),
                    opt_unsigned_encoding(v.signature_seq_num),
                ],
            );
        }
        let gaps: Vec<&[u8]> = Vec::new();
        let mut out: Vec<u8> = Vec::new();
        crate::fields::append_fields(&mut out, kinds, &values, &gaps);
        assert(crate::fields::gap_views(gaps@) =~= Seq::<Seq<u8>>::empty());
        assert(out@ =~= interest_signature_info_inner_encoding(self.view()));
        out
    }
}

impl<'a> MetaInfo<'a> {
    fn inner_to_vec(&self) -> (r: Vec<u8>)
        ensures
            r@ == meta_info_inner_encoding(self.view()),
    {
        let kinds: [u32; 3] = [
            TLV_TYPE_CONTENT_TYPE,
            TLV_TYPE_FRESHNESS_PERIOD,
            TLV_TYPE_FINAL_BLOCK_ID,
        ];
        let kinds = kinds.as_slice();
        assert(kinds@ =~= meta_info_kinds());
        let mut values: Vec<Option<Vec<u8>>> = Vec::new();
        values.push(opt_unsigned_bytes(self.content_type));
        values.push(opt_unsigned_bytes(self.freshness_period));
        let fb = match &self.final_block_id {
            Some(f) => {
                let mut b: Vec<u8> = Vec::new();
                crate::tlv::append_tlv(&mut b, f.component.typ as u32, f.component.bytes);
                Some(b)
            },
            None => None,
        };
        values.push(fb);
        let ghost v = self.view();
        proof {
            lemma_owned_views_eq(
                values@,
                seq![
                    opt_unsigned_encoding(v.content_type),
                    opt_unsigned_encoding(v.freshness_period),
                    match v.final_block_id {
                        Some(c) => Some(crate::name::component_encoding(c)),
                        None => None,
                    },
                ],
            );
        }
        let mut out: Vec<u8> = Vec::new();
        crate::fields::append_fields(&mut out, kinds, &values, &self.unknown_tlvs);
        assert(out@ =~= meta_info_inner_encoding(self.view()));
        out
    }
}

impl<'a> Interest<'a> {
    pub open spec fn wf(&self) -> bool {
        &&& self.name.wf()
        &&& (self.signature matches Some((si, _)) ==> si.wf())
    }

    /// Appends the inner bytes of this Interest's TLV.
    pub fn append_inner(&self, out: &mut Vec<u8>)
        requires
            self.wf(),
        ensures
            final(out)@ == old(out)@ + interest_inner_encoding(self.view()),
    {
        self.name.append_name_tlv(out);
        let kinds: [u32; 7] = [
            TLV_TYPE_CAN_BE_PREFIX,
            TLV_TYPE_MUST_BE_FRESH,
            TLV_TYPE_FORWARDING_HINT,
            TLV_TYPE_NONCE,
            TLV_TYPE_INTEREST_LIFETIME,
            TLV_TYPE_HOP_LIMIT,
            TLV_TYPE_APPLICATION_PARAMETERS,
        ];
        let kinds = kinds.as_slice();
        assert(kinds@ =~= interest_kinds());
        let mut values: Vec<Option<Vec<u8>>> = Vec::new();
        values.push(
            if self.can_be_prefix {
                Some(Vec::new())
            } else {
                None
            },
        );
        values.push(
            if self.must_be_fresh {
                Some(Vec::new())
            } else {
                None
            },
        );
        values.push(opt_slice_bytes(self.forwarding_hint));
        values.push(
            match self.nonce {
                Some(n) => opt_slice_bytes(Some(n.as_slice())),
                None => None,
            },
        );
        values.push(opt_unsigned_bytes(self.interest_lifetime));
        values.push(
            match self.hop_limit {
                Some(h) => {
                    let mut b: Vec<u8> = Vec::new();
                    b.push(h);
                    Some(b)
                },
                None => None,
            },
        );
        values.push(opt_slice_bytes(self.application_parameters));
        let ghost v = self.view();
        proof {
            let f = interest_fields(v);
            assert forall|k: int| 0 <= k < 7 implies match #[trigger] values@[k] {
                Some(b) => f.known[k] == Some(b@),
                None => f.known[k] is None,
            } by {
                if k == 0 || k == 1 {
                    if let Some(b) = values@[k] {
                        assert(b@ =~= Seq::<u8>::empty());
                    }
                }
                if k == 5 {
                    if let Some(b) = values@[k] {
                        assert(b@ =~= seq![self.hop_limit->Some_0]);
                    }
                }
            }
            lemma_owned_views_eq(values@, f.known);
        }
        crate::fields::append_fields(out, kinds, &values, &self.unknown_tlvs);
        let ghost mid = out@;
        match &self.signature {
            Some((si, sv)) => {
                let si_bytes = si.inner_to_vec();
                crate::tlv::append_tlv(out, TLV_TYPE_INTEREST_SIGNATURE_INFO, si_bytes.as_slice());
                crate::tlv::append_tlv(out, TLV_TYPE_INTEREST_SIGNATURE_VALUE, sv);
            },
            None => {},
        }
        assert(out@ =~= old(out)@ + interest_inner_encoding(self.view()));
    }

    /// The SHA-256 digest of the portion a signed Interest's signature
    /// covers: its Name without a final parameters digest, then its
    /// ApplicationParameters and InterestSignatureInfo; none for an unsigned
    /// Interest.
    pub fn hash_signed_portion(&self) -> (r: Option<Vec<u8>>)
        requires
            self.wf(),
        ensures
            match (self.view().application_parameters, self.view().signature) {
                (Some(ap), Some((si, _))) => r matches Some(d) && d@ == sha256_of(
                    interest_signed_portion(self.view().name, ap, si),
                ),
                _ => r is None,
            },
    {
        let ap = match self.application_parameters {
            Some(ap) => ap,
            None => {
                return None;
            },
        };
        let si = match &self.signature {
            Some((si, _)) => si,
            None => {
                return None;
            },
        };
        let n = self.name.component_count();
        let mut out: Vec<u8> = Vec::new();
        if n > 0 && self.name.component(n - 1).typ == NameComponent::TYPE_PARAMETER_SHA256 {
            match self.name.dropping_last_component() {
                Some(shorter) => shorter.append_name_tlv(&mut out),
                None => {},
            }
        } else {
            self.name.append_name_tlv(&mut out);
        }
        crate::tlv::append_tlv(&mut out, TLV_TYPE_APPLICATION_PARAMETERS, ap);
        let si_bytes = si.inner_to_vec();
        crate::tlv::append_tlv(&mut out, TLV_TYPE_INTEREST_SIGNATURE_INFO, si_bytes.as_slice());
        assert(out@ =~= interest_signed_portion(self.view().name, ap@, si.view()));
        Some(sha256(out.as_slice()))
    }
}

/// The portion of a signed Interest that its signature covers.
pub open spec fn interest_signed_portion(
    name: Seq<ComponentView>,
    ap: Seq<u8>,
    si: InterestSignatureInfoView,
) -> Seq<u8> {
    let covered = if name.len() > 0 && name.last().0 == NameComponent::TYPE_PARAMETER_SHA256 {
        name.drop_last()
    } else {
        name
    };
    crate::tlv::tlv_encoding(TLV_TYPE_NAME, crate::name::components_encoding(covered))
        + crate::tlv::tlv_encoding(TLV_TYPE_APPLICATION_PARAMETERS, ap) + crate::tlv::tlv_encoding(
        TLV_TYPE_INTEREST_SIGNATURE_INFO,
        interest_signature_info_inner_encoding(si),
    )
}

impl<'a> Encode for Interest<'a> {
    open spec fn encoding(&self) -> Seq<u8> {
        crate::tlv::tlv_encoding(TLV_TYPE_INTEREST, interest_inner_encoding(self.view()))
    }

    open spec fn encodable(&self) -> bool {
        self.wf()
    }

    fn encoded_length(&self) -> (r: usize) {
        let mut v: Vec<u8> = Vec::new();
        self.append_to(&mut v);
        assert(v@ =~= self.encoding());
        v.len()
    }

    fn append_to(&self, out: &mut Vec<u8>) {
        assert(self.encoding() == crate::tlv::tlv_encoding(
            TLV_TYPE_INTEREST,
            interest_inner_encoding(self.view()),
        ));
        let mut inner: Vec<u8> = Vec::new();
        self.append_inner(&mut inner);
        assert(inner@ =~= interest_inner_encoding(self.view()));
        crate::tlv::append_tlv(out, TLV_TYPE_INTEREST, inner.as_slice());
    }
}

impl<'a> Data<'a> {
    pub open spec fn wf(&self) -> bool {
        self.name.wf() && self.signature_info.wf()
    }

    /// Appends the inner bytes of this Data's TLV, or only its signed portion.
    pub fn append_inner(&self, out: &mut Vec<u8>, signed_only: bool)
        requires
            self.wf(),
        ensures
            final(out)@ == old(out)@ + data_inner_encoding(self.view(), signed_only),
    {
        self.name.append_name_tlv(out);
        let kinds: [u32; 4] = [
            TLV_TYPE_META_INFO,
            TLV_TYPE_CONTENT,
            TLV_TYPE_SIGNATURE_INFO,
            TLV_TYPE_SIGNATURE_VALUE,
        ];
        let kinds = kinds.as_slice();
        assert(kinds@ =~= data_kinds());
        let mut values: Vec<Option<Vec<u8>>> = Vec::new();
        values.push(
            match &self.meta_info {
                Some(m) => Some(m.inner_to_vec()),
                None => None,
            },
        );
        values.push(opt_slice_bytes(self.content));
        values.push(Some(self.signature_info.inner_to_vec()));
        values.push(
            if signed_only {
                None
            } else {
                opt_slice_bytes(Some(self.signature_value))
            },
        );
        proof {
            lemma_owned_views_eq(values@, data_fields(self.view(), signed_only).known);
        }
        crate::fields::append_fields(out, kinds, &values, &self.unknown_tlvs);
        assert(out@ =~= old(out)@ + data_inner_encoding(self.view(), signed_only));
    }

    /// The SHA-256 digest of the signed portion, re-encoded from the fields:
    /// the Name through the SignatureInfo.
    pub fn hash_signed_portion(&self) -> (r: Vec<u8>)
        requires
            self.wf(),
        ensures
            r@ == sha256_of(data_inner_encoding(self.view(), true)),
    {
        let mut out: Vec<u8> = Vec::new();
        self.append_inner(&mut out, true);
        assert(out@ =~= data_inner_encoding(self.view(), true));
        sha256(out.as_slice())
    }
}

impl<'a> Encode for Data<'a> {
    open spec fn encoding(&self) -> Seq<u8> {
        crate::tlv::tlv_encoding(TLV_TYPE_DATA, data_inner_encoding(self.view(), false))
    }

    open spec fn encodable(&self) -> bool {
        self.wf()
    }

    fn encoded_length(&self) -> (r: usize) {
        let mut v: Vec<u8> = Vec::new();
        self.append_to(&mut v);
        assert(v@ =~= self.encoding());
        v.len()
    }

    fn append_to(&self, out: &mut Vec<u8>) {
        assert(self.encoding() == crate::tlv::tlv_encoding(
            TLV_TYPE_DATA,
            data_inner_encoding(self.view(), false),
        ));
        let mut inner: Vec<u8> = Vec::new();
        self.append_inner(&mut inner, false);
        assert(inner@ =~= data_inner_encoding(self.view(), false));
        crate::tlv::append_tlv(out, TLV_TYPE_DATA, inner.as_slice());
    }
}

// ---------------------------------------------------------------------------
// Round trip
// ---------------------------------------------------------------------------

/// Codec round trip for Interests: the inner bytes of every Interest that
/// decodes are the encoding of what they decode to, field for field: the
/// Name's components, each known field and gap in canonical order, and the
/// InterestSignatureInfo and InterestSignatureValue that may end it.
pub proof fn lemma_interest_round_trip(b: Seq<u8>)
    requires
        interest_parse(b) is Some,
    ensures
        ({
            let (t, v, n) = tlv_parse(b)->Ok_0;
            let name = components_parse(v)->Some_0;
            let (f, m) = fields_parse(
                b.skip(n as int),
                interest_kinds(),
                6,
                fields_start(7, 7),
            )->Some_0;
            let rest = b.skip((n + m) as int);
            &&& b == crate::tlv::tlv_encoding(TLV_TYPE_NAME, crate::name::components_encoding(name))
                + crate::fields::fields_encoding(f, interest_kinds()) + rest
            &&& rest.len() > 0 ==> ({
                let (t1, v1, n1) = tlv_parse(rest)->Ok_0;
                let (t2, v2, n2) = tlv_parse(rest.skip(n1 as int))->Ok_0;
                rest == crate::tlv::tlv_encoding(TLV_TYPE_INTEREST_SIGNATURE_INFO, v1)
                    + crate::tlv::tlv_encoding(TLV_TYPE_INTEREST_SIGNATURE_VALUE, v2)
            })
        }),
{
    let (t, v, n) = tlv_parse(b)->Ok_0;
    crate::tlv::lemma_tlv_parse_canonical(b);
    crate::name::lemma_components_parse_canonical(v);
    let s = b.skip(n as int);
    crate::fields::lemma_fields_start(7, 7, interest_kinds());
    crate::fields::lemma_fields_round_trip(s, interest_kinds(), 6, fields_start(7, 7));
    let (f, m) = fields_parse(s, interest_kinds(), 6, fields_start(7, 7))->Some_0;
    let rest = b.skip((n + m) as int);
    assert(b =~= b.take(n as int) + s.take(m as int) + rest);
    if rest.len() > 0 {
        crate::tlv::lemma_tlv_parse_canonical(rest);
        let (t1, v1, n1) = tlv_parse(rest)->Ok_0;
        crate::tlv::lemma_tlv_parse_canonical(rest.skip(n1 as int));
        let (t2, v2, n2) = tlv_parse(rest.skip(n1 as int))->Ok_0;
        assert(rest =~= rest.take(n1 as int) + rest.skip(n1 as int).take(n2 as int));
    }
}

/// Codec round trip for Data: the inner bytes of all Data that decodes are
/// the encoding of its Name's components followed by its known fields and
/// gaps in canonical order.
pub proof fn lemma_data_round_trip(b: Seq<u8>)
    requires
        data_parse(b) is Some,
    ensures
        ({
            let (t, v, n) = tlv_parse(b)->Ok_0;
            let name = components_parse(v)->Some_0;
            let (f, m) = fields_parse(
                b.skip(n as int),
                data_kinds(),
                3,
                fields_start(4, 3),
            )->Some_0;
            b == crate::tlv::tlv_encoding(TLV_TYPE_NAME, crate::name::components_encoding(name))
                + crate::fields::fields_encoding(f, data_kinds())
        }),
{
    let (t, v, n) = tlv_parse(b)->Ok_0;
    crate::tlv::lemma_tlv_parse_canonical(b);
    crate::name::lemma_components_parse_canonical(v);
    let s = b.skip(n as int);
    crate::fields::lemma_fields_start(4, 3, data_kinds());
    crate::fields::lemma_fields_round_trip(s, data_kinds(), 3, fields_start(4, 3));
    let (f, m) = fields_parse(s, data_kinds(), 3, fields_start(4, 3))->Some_0;
    assert(b =~= b.take(n as int) + s.take(m as int));
}


/// An optional integer field written in its shortest form.
pub open spec fn minimal_integer(v: Option<Seq<u8>>) -> bool {
    v matches Some(b) ==> unsigned_parse(b) matches Some(x) && crate::tlv::unsigned_encoding(x)
        == b
}

proof fn lemma_opt_unsigned_minimal(v: Option<Seq<u8>>)
    requires
        minimal_integer(v),
        opt_unsigned(v) is Some,
    ensures
        opt_unsigned_encoding(opt_unsigned(v)->Some_0) == v,
{
}

/// A KeyLocator that decodes is the encoding of what it decodes to.
pub proof fn lemma_key_locator_round_trip(b: Seq<u8>)
    requires
        key_locator_parse(b) is Some,
    ensures
        key_locator_inner_encoding(key_locator_parse(b)->Some_0) == b,
{
    crate::tlv::lemma_tlv_parse_canonical(b);
    let (t, v, n) = tlv_parse(b)->Ok_0;
    assert(b.take(n as int) =~= b);
    if t == TLV_TYPE_NAME {
        crate::name::lemma_components_parse_canonical(v);
    }
}

proof fn lemma_opt_key_locator_round_trip(v: Option<Seq<u8>>)
    requires
        opt_key_locator(v) is Some,
    ensures
        opt_key_locator_encoding(opt_key_locator(v)->Some_0) == v,
{
    if let Some(b) = v {
        lemma_key_locator_round_trip(b);
    }
}

/// The fields that an InterestSignatureInfo's bytes decode into.
pub open spec fn interest_signature_info_fields(b: Seq<u8>) -> FieldsView {
    fields_parse(b, interest_signature_info_kinds(), 4, fields_start(5, 0))->Some_0.0
}

/// Its integers are in their shortest form.
pub open spec fn interest_signature_info_minimal(b: Seq<u8>) -> bool {
    let f = interest_signature_info_fields(b);
    minimal_integer(f.known[0]) && minimal_integer(f.known[3]) && minimal_integer(f.known[4])
}

proof fn lemma_interest_signature_info_round_trip(b: Seq<u8>)
    requires
        interest_signature_info_parse(b) is Some,
        interest_signature_info_minimal(b),
    ensures
        interest_signature_info_inner_encoding(interest_signature_info_parse(b)->Some_0) == b,
{
    let kinds = interest_signature_info_kinds();
    crate::fields::lemma_fields_start(5, 0, kinds);
    crate::fields::lemma_fields_round_trip(b, kinds, 4, fields_start(5, 0));
    let (f, m) = fields_parse(b, kinds, 4, fields_start(5, 0))->Some_0;
    let v = interest_signature_info_parse(b)->Some_0;
    assert(f.known.len() == 5);
    lemma_opt_unsigned_minimal(f.known[0]);
    lemma_opt_unsigned_minimal(f.known[3]);
    lemma_opt_unsigned_minimal(f.known[4]);
    lemma_opt_key_locator_round_trip(f.known[1]);
    let g = FieldsView {
        known: seq![
            Some(crate::tlv::unsigned_encoding(v.signature_type)),
            opt_key_locator_encoding(v.key_locator),
            v.nonce,
            opt_unsigned_encoding(v.signature_time),
            opt_unsigned_encoding(v.signature_seq_num),
        ],
        gaps: Seq::empty(),
        next: 0,
    };
    assert(fields_start(5, 0).gaps =~= Seq::<Seq<u8>>::empty());
    assert(f.gaps =~= Seq::<Seq<u8>>::empty());
    crate::fields::lemma_fields_encoding_ext(f, g, kinds);
    assert(b.take(m as int) =~= b);
}

/// The fields after an Interest's Name, as its bytes decode.
pub open spec fn interest_fields_of(b: Seq<u8>) -> FieldsView {
    let (t, v, n) = tlv_parse(b)->Ok_0;
    fields_parse(b.skip(n as int), interest_kinds(), 6, fields_start(7, 7))->Some_0.0
}

/// The bytes after an Interest's fields: its signature, if any.
pub open spec fn interest_signature_bytes(b: Seq<u8>) -> Seq<u8> {
    let (t, v, n) = tlv_parse(b)->Ok_0;
    let (f, m) = fields_parse(b.skip(n as int), interest_kinds(), 6, fields_start(7, 7))->Some_0;
    b.skip((n + m) as int)
}

/// An Interest whose integers are all in their shortest form.
pub open spec fn interest_minimal(b: Seq<u8>) -> bool {
    &&& minimal_integer(interest_fields_of(b).known[4])
    &&& interest_signature_bytes(b).len() > 0 ==> interest_signature_info_minimal(
        tlv_parse(interest_signature_bytes(b))->Ok_0.1,
    )
}

/// Codec round trip for Interests: decoding an Interest whose integers are
/// in their shortest form and encoding the result gives back its bytes.
pub proof fn lemma_interest_decode_encode(b: Seq<u8>)
    requires
        interest_parse(b) is Some,
        interest_minimal(b),
    ensures
        interest_inner_encoding(interest_parse(b)->Some_0) == b,
{
    lemma_interest_round_trip(b);
    let v = interest_parse(b)->Some_0;
    let (t, nv, n) = tlv_parse(b)->Ok_0;
    crate::name::lemma_components_parse_canonical(nv);
    let f = interest_fields_of(b);
    let rest = interest_signature_bytes(b);
    crate::tlv::lemma_tlv_parse_canonical(b);
    crate::fields::lemma_fields_start(7, 7, interest_kinds());
    crate::fields::lemma_fields_round_trip(b.skip(n as int), interest_kinds(), 6, fields_start(7, 7));
    lemma_opt_unsigned_minimal(f.known[4]);
    let g = interest_fields(v);
    assert forall|k: int| 0 <= k < 7 implies g.known[k] == f.known[k] by {
        if k == 0 || k == 1 {
            if let Some(x) = f.known[k] {
                assert(x =~= Seq::<u8>::empty());
            }
        }
        if k == 5 {
            if let Some(x) = f.known[k] {
                assert(x =~= seq![x[0]]);
            }
        }
    }
    crate::fields::lemma_fields_encoding_ext(f, g, interest_kinds());
    if rest.len() > 0 {
        let (t1, v1, n1) = tlv_parse(rest)->Ok_0;
        lemma_interest_signature_info_round_trip(v1);
    } else {
        assert(rest =~= Seq::<u8>::empty());
    }
    assert(interest_inner_encoding(v) =~= b);
}


proof fn lemma_final_block_id_round_trip(v: Option<Seq<u8>>)
    requires
        opt_final_block_id(v) is Some,
    ensures
        (match opt_final_block_id(v)->Some_0 {
            Some(c) => Some(crate::name::component_encoding(c)),
            None => None,
        }) == v,
{
    if let Some(b) = v {
        crate::tlv::lemma_tlv_parse_canonical(b);
        let (t, x, n) = tlv_parse(b)->Ok_0;
        assert(b.take(n as int) =~= b);
    }
}

/// The fields that a MetaInfo's bytes decode into.
pub open spec fn meta_info_fields(b: Seq<u8>) -> FieldsView {
    fields_parse(b, meta_info_kinds(), 3, fields_start(3, 4))->Some_0.0
}

pub open spec fn meta_info_minimal(b: Seq<u8>) -> bool {
    minimal_integer(meta_info_fields(b).known[0]) && minimal_integer(meta_info_fields(b).known[1])
}

proof fn lemma_meta_info_round_trip(b: Seq<u8>)
    requires
        meta_info_parse(b) is Some,
        meta_info_minimal(b),
    ensures
        meta_info_inner_encoding(meta_info_parse(b)->Some_0) == b,
{
    let kinds = meta_info_kinds();
    crate::fields::lemma_fields_start(3, 4, kinds);
    crate::fields::lemma_fields_round_trip(b, kinds, 3, fields_start(3, 4));
    let (f, m) = fields_parse(b, kinds, 3, fields_start(3, 4))->Some_0;
    let v = meta_info_parse(b)->Some_0;
    lemma_opt_unsigned_minimal(f.known[0]);
    lemma_opt_unsigned_minimal(f.known[1]);
    lemma_final_block_id_round_trip(f.known[2]);
    let g = FieldsView {
        known: seq![
            opt_unsigned_encoding(v.content_type),
            opt_unsigned_encoding(v.freshness_period),
            match v.final_block_id {
                Some(c) => Some(crate::name::component_encoding(c)),
                None => None,
            },
        ],
        gaps: v.unknown_tlvs,
        next: 0,
    };
    crate::fields::lemma_fields_encoding_ext(f, g, kinds);
    assert(b.take(m as int) =~= b);
}

/// The fields that a SignatureInfo's bytes decode into.
pub open spec fn signature_info_fields(b: Seq<u8>) -> FieldsView {
    fields_parse(b, signature_info_kinds(), 2, fields_start(2, 3))->Some_0.0
}

proof fn lemma_signature_info_round_trip(b: Seq<u8>)
    requires
        signature_info_parse(b) is Some,
        minimal_integer(signature_info_fields(b).known[0]),
    ensures
        signature_info_inner_encoding(signature_info_parse(b)->Some_0) == b,
{
    let kinds = signature_info_kinds();
    crate::fields::lemma_fields_start(2, 3, kinds);
    crate::fields::lemma_fields_round_trip(b, kinds, 2, fields_start(2, 3));
    let (f, m) = fields_parse(b, kinds, 2, fields_start(2, 3))->Some_0;
    let v = signature_info_parse(b)->Some_0;
    lemma_opt_unsigned_minimal(f.known[0]);
    lemma_opt_key_locator_round_trip(f.known[1]);
    let g = FieldsView {
        known: seq![
            Some(crate::tlv::unsigned_encoding(v.signature_type)),
            opt_key_locator_encoding(v.key_locator),
        ],
        gaps: v.unknown_tlvs,
        next: 0,
    };
    crate::fields::lemma_fields_encoding_ext(f, g, kinds);
    assert(b.take(m as int) =~= b);
}

/// The fields after a Data packet's Name, as its bytes decode.
pub open spec fn data_fields_of(b: Seq<u8>) -> FieldsView {
    let (t, v, n) = tlv_parse(b)->Ok_0;
    fields_parse(b.skip(n as int), data_kinds(), 3, fields_start(4, 3))->Some_0.0
}

/// Data whose integers are all in their shortest form.
pub open spec fn data_minimal(b: Seq<u8>) -> bool {
    let f = data_fields_of(b);
    &&& (f.known[0] matches Some(mi) ==> meta_info_minimal(mi))
    &&& minimal_integer(signature_info_fields(f.known[2]->Some_0).known[0])
}

/// Codec round trip for Data: decoding Data whose integers are in their
/// shortest form and encoding the result gives back its bytes.
pub proof fn lemma_data_decode_encode(b: Seq<u8>)
    requires
        data_parse(b) is Some,
        data_minimal(b),
    ensures
        data_inner_encoding(data_parse(b)->Some_0, false) == b,
{
    lemma_data_round_trip(b);
    let v = data_parse(b)->Some_0;
    let (t, nv, n) = tlv_parse(b)->Ok_0;
    crate::tlv::lemma_tlv_parse_canonical(b);
    crate::name::lemma_components_parse_canonical(nv);
    crate::fields::lemma_fields_start(4, 3, data_kinds());
    crate::fields::lemma_fields_round_trip(b.skip(n as int), data_kinds(), 3, fields_start(4, 3));
    let f = data_fields_of(b);
    if let Some(mi) = f.known[0] {
        lemma_meta_info_round_trip(mi);
    }
    lemma_signature_info_round_trip(f.known[2]->Some_0);
    let g = data_fields(v, false);
    assert forall|k: int| 0 <= k < 4 implies g.known[k] == f.known[k] by {}
    crate::fields::lemma_fields_encoding_ext(f, g, data_kinds());
    assert(data_inner_encoding(v, false) =~= b);
}

} // verus!
