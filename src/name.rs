use vstd::prelude::*;

use crate::io::{Decode, Encode};
use crate::tlv::{
    lemma_tlv_parse_canonical, lemma_tlv_round_trip, lemma_varint_encoding_len, tlv_encoding,
    tlv_parse, Varint, TLV,
};

verus! {

/// The TLV type of a Name.
pub const TLV_TYPE_NAME: u32 = 7;

/// A component as a plain value: its type tag and its bytes.
pub type ComponentView = (u16, Seq<u8>);

/// One name component: a non-zero type tag and a view of its bytes.
#[derive(Clone, Copy, Debug)]
pub struct NameComponent<'a> {
    pub typ: u16,
    pub bytes: &'a [u8],
}

impl<'a> View for NameComponent<'a> {
    type V = ComponentView;

    open spec fn view(&self) -> ComponentView {
        (self.typ, self.bytes@)
    }
}

impl<'a> NameComponent<'a> {
    pub const TYPE_GENERIC: u16 = 8;

    pub const TYPE_IMPLICIT_SHA256: u16 = 1;

    pub const TYPE_PARAMETER_SHA256: u16 = 2;

    /// A component of type `typ`; none for the type 0.
    pub fn new(typ: u16, bytes: &'a [u8]) -> (r: Option<Self>)
        ensures
            typ == 0 ==> r is None,
            typ != 0 ==> (r matches Some(c) && c.typ == typ && c.bytes@ == bytes@),
    {
        if typ == 0 {
            None
        } else {
            Some(NameComponent { typ, bytes })
        }
    }

    pub fn new_generic(bytes: &'a [u8]) -> (r: Self)
        ensures
            r.typ == 8,
            r.bytes@ == bytes@,
    {
        NameComponent { typ: Self::TYPE_GENERIC, bytes }
    }

    pub fn new_implicit(bytes: &'a [u8]) -> (r: Self)
        ensures
            r.typ == 1,
            r.bytes@ == bytes@,
    {
        NameComponent { typ: Self::TYPE_IMPLICIT_SHA256, bytes }
    }

    pub fn new_parameter(bytes: &'a [u8]) -> (r: Self)
        ensures
            r.typ == 2,
            r.bytes@ == bytes@,
    {
        NameComponent { typ: Self::TYPE_PARAMETER_SHA256, bytes }
    }
}

impl<'a> Encode for NameComponent<'a> {
    open spec fn encoding(&self) -> Seq<u8> {
        component_encoding(self@)
    }

    open spec fn encodable(&self) -> bool {
        self.typ != 0 && self.bytes@.len() + 18 <= usize::MAX
    }

    fn encoded_length(&self) -> (r: usize) {
        let t = TLV { typ: self.typ as u32, val: self.bytes };
        assert(t.encoding() == self.encoding());
        t.encoded_length()
    }

    fn append_to(&self, out: &mut Vec<u8>) {
        let t = TLV { typ: self.typ as u32, val: self.bytes };
        assert(t.encoding() == self.encoding());
        t.append_to(out)
    }
}

/// The encoding of one component: a TLV whose type is the component's tag.
pub open spec fn component_encoding(c: ComponentView) -> Seq<u8> {
    tlv_encoding(c.0 as u32, c.1)
}

/// The inner bytes of a Name TLV: its components' encodings one after another.
pub open spec fn components_encoding(cs: Seq<ComponentView>) -> Seq<u8>
    decreases cs.len(),
{
    if cs.len() == 0 {
        Seq::empty()
    } else {
        component_encoding(cs[0]) + components_encoding(cs.drop_first())
    }
}

/// Components that can stand in a name: non-zero tags, lengths that fit.
pub open spec fn components_valid(cs: Seq<ComponentView>) -> bool {
    forall|i: int| #![trigger cs[i]] 0 <= i < cs.len() ==> cs[i].0 != 0 && cs[i].1.len() <= usize::MAX
}

/// What reading the inner bytes of a Name TLV gives: its components, or none
/// where a component does not decode or has a type outside 1..=65535.
pub open spec fn components_parse(s: Seq<u8>) -> Option<Seq<ComponentView>>
    decreases s.len(),
{
    if s.len() == 0 {
        Some(Seq::empty())
    } else {
        match tlv_parse(s) {
            Ok((t, v, n)) => if t <= 0xFFFF && 0 < n <= s.len() {
                match components_parse(s.subrange(n as int, s.len() as int)) {
                    Some(rest) => Some(seq![(t as u16, v)] + rest),
                    None => None,
                }
            } else {
                None
            },
            Err(_) => None,
        }
    }
}

pub proof fn lemma_components_encoding_push(cs: Seq<ComponentView>, c: ComponentView)
    ensures
        components_encoding(cs.push(c)) == components_encoding(cs) + component_encoding(c),
    decreases cs.len(),
{
    if cs.len() == 0 {
        assert(cs.push(c).drop_first() =~= Seq::<ComponentView>::empty());
        assert(components_encoding(Seq::<ComponentView>::empty()) =~= Seq::<u8>::empty());
        assert(components_encoding(cs.push(c)) =~= component_encoding(c));
    } else {
        assert(cs.push(c).drop_first() =~= cs.drop_first().push(c));
        lemma_components_encoding_push(cs.drop_first(), c);
        assert(components_encoding(cs.push(c)) =~= components_encoding(cs) + component_encoding(
            c,
        ));
    }
}

pub proof fn lemma_components_encoding_prefix(cs: Seq<ComponentView>, i: int)
    requires
        0 <= i <= cs.len(),
    ensures
        components_encoding(cs.take(i)).len() <= components_encoding(cs).len(),
    decreases cs.len() - i,
{
    if i < cs.len() {
        lemma_components_encoding_prefix(cs, i + 1);
        assert(cs.take(i + 1) =~= cs.take(i).push(cs[i]));
        lemma_components_encoding_push(cs.take(i), cs[i]);
    } else {
        assert(cs.take(i) =~= cs);
    }
}

/// Decoding the encoding of valid components gives them back.
pub proof fn lemma_components_round_trip(cs: Seq<ComponentView>)
    requires
        components_valid(cs),
    ensures
        components_parse(components_encoding(cs)) == Some(cs),
    decreases cs.len(),
{
    if cs.len() > 0 {
        let c = cs[0];
        let rest = cs.drop_first();
        assert(components_valid(rest)) by {
            assert forall|i: int| #![trigger rest[i]] 0 <= i < rest.len() implies rest[i].0 != 0
                && rest[i].1.len() <= usize::MAX by {
                assert(rest[i] == cs[i + 1]);
            }
        }
        lemma_components_round_trip(rest);
        let s = components_encoding(cs);
        lemma_tlv_round_trip(c.0 as u32, c.1, components_encoding(rest));
        let n = component_encoding(c).len();
        lemma_varint_encoding_len(c.0 as u64);
        lemma_varint_encoding_len(c.1.len() as u64);
        assert(s.subrange(n as int, s.len() as int) =~= components_encoding(rest));
        assert(seq![(c.0 as u32 as u16, c.1)] + rest =~= cs);
    }
}

/// Inner bytes that decode as components are exactly their encoding.
pub proof fn lemma_components_parse_canonical(s: Seq<u8>)
    requires
        components_parse(s) is Some,
    ensures
        components_valid(components_parse(s)->Some_0),
        components_encoding(components_parse(s)->Some_0) == s,
    decreases s.len(),
{
    if s.len() > 0 {
        let (t, v, n) = tlv_parse(s)->Ok_0;
        lemma_tlv_parse_canonical(s);
        let tail = s.subrange(n as int, s.len() as int);
        lemma_components_parse_canonical(tail);
        let cs = components_parse(s)->Some_0;
        let rest = components_parse(tail)->Some_0;
        assert(cs.drop_first() =~= rest);
        assert(s =~= s.subrange(0, n as int) + tail);
        assert(components_valid(cs)) by {
            assert forall|i: int| #![trigger cs[i]] 0 <= i < cs.len() implies cs[i].0 != 0
                && cs[i].1.len() <= usize::MAX by {
                if i > 0 {
                    assert(cs[i] == rest[i - 1]);
                }
            }
        }
    }
}

/// The plain values of a sequence of components.
pub open spec fn component_views<'a>(s: Seq<NameComponent<'a>>) -> Seq<ComponentView> {
    s.map_values(|c: NameComponent<'a>| c@)
}

/// A name: an ordered sequence of components. Its components are views of
/// the buffers the name was decoded from or built over; extending or
/// shortening a name copies these views, never the component bytes.
#[derive(Clone, Debug)]
pub struct Name<'a> {
    components: Vec<NameComponent<'a>>,
}

impl<'a> View for Name<'a> {
    type V = Seq<ComponentView>;

    closed spec fn view(&self) -> Seq<ComponentView> {
        component_views(self.components@)
    }
}

impl<'a> Name<'a> {
    pub const TLV_TYPE: u32 = 7;

    pub const TLV_TYPE_NAME: u32 = 7;

    /// Every component tag is non-zero and every length fits in memory.
    pub open spec fn wf(&self) -> bool {
        forall|i: int| #![trigger self@[i]] 0 <= i < self@.len() ==> self@[i].0 != 0
    }

    /// The empty name.
    pub fn new() -> (r: Self)
        ensures
            r@ == Seq::<ComponentView>::empty(),
            r.wf(),
    {
        let r = Name { components: Vec::new() };
        assert(r@ =~= Seq::<ComponentView>::empty());
        r
    }

    /// Decodes the inner bytes of a Name TLV; none where a component does not
    /// decode or has a type outside 1..=65535.
    pub fn try_decode(inner_bytes: &'a [u8]) -> (r: Option<Self>)
        ensures
            match components_parse(inner_bytes@) {
                Some(cs) => r matches Some(n) && n@ == cs && n.wf(),
                None => r is None,
            },
    {
        let total = inner_bytes.len();
        let mut components: Vec<NameComponent<'a>> = Vec::new();
        let mut offset: usize = 0;
        proof {
            assert(inner_bytes@.subrange(0, total as int) =~= inner_bytes@);
        }
        while offset < total
            invariant
                total == inner_bytes@.len(),
                offset <= total,
                components_parse(inner_bytes@) == match components_parse(
                    inner_bytes@.subrange(offset as int, total as int),
                ) {
                    Some(rest) => Some(component_views(components@) + rest),
                    None => None::<Seq<ComponentView>>,
                },
            decreases total - offset,
        {
            let rest = &inner_bytes[offset..total];
            let ghost before = component_views(components@);
            match TLV::try_decode(rest) {
                Ok((tlv, tlv_len)) => {
                    if tlv.typ > 0xFFFF {
                        return None;
                    }
                    proof {
                        lemma_tlv_parse_canonical(rest@);
                        assert(rest@.subrange(tlv_len as int, rest@.len() as int) =~= inner_bytes@.subrange(
                            offset + tlv_len,
                            total as int,
                        ));
                    }
                    components.push(NameComponent { typ: tlv.typ as u16, bytes: tlv.val });
                    proof {
                        let after = component_views(components@);
                        assert(after =~= before.push((tlv.typ as u16, tlv.val@)));
                        match components_parse(
                            inner_bytes@.subrange(offset + tlv_len, total as int),
                        ) {
                            Some(tail) => {
                                assert(before + (seq![(tlv.typ as u16, tlv.val@)] + tail)
                                    =~= after + tail);
                            },
                            None => {},
                        }
                    }
                    offset = offset + tlv_len;
                },
                Err(_) => {
                    return None;
                },
            }
        }
        let r = Name { components };
        proof {
            assert(inner_bytes@.subrange(offset as int, total as int) =~= Seq::<u8>::empty());
            assert(r@ =~= component_views(components@) + Seq::<
                ComponentView,
            >::empty());
            lemma_components_parse_canonical(inner_bytes@);
        }
        Some(r)
    }

    pub fn component_count(&self) -> (r: usize)
        ensures
            r == self@.len(),
    {
        self.components.len()
    }

    /// The name without its last component; none for the empty name.
    pub fn dropping_last_component(&self) -> (r: Option<Self>)
        ensures
            self@.len() == 0 ==> r is None,
            self@.len() > 0 ==> (r matches Some(n) && n@ == self@.drop_last()),
            self.wf() && r is Some ==> r->Some_0.wf(),
    {
        let n = self.components.len();
        if n == 0 {
            return None;
        }
        let mut components: Vec<NameComponent<'a>> = Vec::new();
        let mut i: usize = 0;
        while i < n - 1
            invariant
                n == self.components@.len(),
                n > 0,
                i <= n - 1,
                components@ == self.components@.take(i as int),
            decreases n - 1 - i,
        {
            components.push(self.components[i]);
            i = i + 1;
            assert(components@ =~= self.components@.take(i as int));
        }
        let r = Name { components };
        assert(r@ =~= self@.drop_last());
        Some(r)
    }

    /// The name extended by one component.
    pub fn adding_component(&self, component: NameComponent<'a>) -> (r: Self)
        ensures
            r@ == self@.push(component@),
            self.wf() && component.typ != 0 ==> r.wf(),
    {
        let mut components = self.components_vec();
        components.push(component);
        let r = Name { components };
        assert(r@ =~= self@.push(component@));
        proof {
            if self.wf() && component.typ != 0 {
                assert forall|i: int| #![trigger r@[i]] 0 <= i < r@.len() implies r@[i].0 != 0 by {
                    if i < self@.len() {
                        assert(r@[i] == self@[i]);
                    }
                }
            }
        }
        r
    }

    /// The name extended by a batch of components, in order.
    pub fn adding(&self, batch: &[NameComponent<'a>]) -> (r: Self)
        ensures
            r@ == self@ + component_views(batch@),
            self.wf() && (forall|i: int| 0 <= i < batch@.len() ==> #[trigger] batch@[i].typ != 0)
                ==> r.wf(),
    {
        let mut components = self.components_vec();
        let mut i: usize = 0;
        while i < batch.len()
            invariant
                i <= batch@.len(),
                component_views(components@) == self@ + component_views(batch@.take(i as int)),
            decreases batch@.len() - i,
        {
            let ghost prev = components@;
            components.push(batch[i]);
            proof {
                assert(batch@.take(i + 1) =~= batch@.take(i as int).push(batch@[i as int]));
                assert(component_views(components@) =~= component_views(prev).push(batch@[i as int]@));
                assert(component_views(batch@.take(i + 1)) =~= component_views(batch@.take(i as int)).push(batch@[i as int]@));
            }
            i = i + 1;
            assert(component_views(components@) =~= self@ + component_views(batch@.take(i as int)));
        }
        assert(batch@.take(i as int) =~= batch@);
        let r = Name { components };
        proof {
            if self.wf() && (forall|i: int| 0 <= i < batch@.len() ==> #[trigger] batch@[i].typ != 0) {
                assert forall|i: int| #![trigger r@[i]] 0 <= i < r@.len() implies r@[i].0 != 0 by {
                    if i < self@.len() {
                        assert(r@[i] == self@[i]);
                    } else {
                        assert(r@[i] == batch@[i - self@.len()]@);
                    }
                }
            }
        }
        r
    }

    /// The components in order.
    pub fn components(&self) -> (r: Vec<NameComponent<'a>>)
        ensures
            component_views(r@) == self@,
    {
        self.components_vec()
    }

    fn components_vec(&self) -> (r: Vec<NameComponent<'a>>)
        ensures
            r@ == self.components@,
            component_views(r@) == self@,
    {
        let mut r: Vec<NameComponent<'a>> = Vec::new();
        let mut i: usize = 0;
        while i < self.components.len()
            invariant
                i <= self.components@.len(),
                r@ == self.components@.take(i as int),
            decreases self.components@.len() - i,
        {
            r.push(self.components[i]);
            i = i + 1;
            assert(r@ =~= self.components@.take(i as int));
        }
        assert(r@ =~= self.components@);
        r
    }

    /// The component at `i`.
    pub fn component(&self, i: usize) -> (r: NameComponent<'a>)
        requires
            i < self@.len(),
        ensures
            r@ == self@[i as int],
    {
        self.components[i]
    }

    /// The length of the inner bytes of this name's TLV.
    fn inner_length(&self) -> (r: usize)
        requires
            self.encodable(),
        ensures
            r == components_encoding(self@).len(),
    {
        let mut len: usize = 0;
        let mut i: usize = 0;
        while i < self.components.len()
            invariant
                self.encodable(),
                i <= self@.len(),
                self@.len() == self.components@.len(),
                len == components_encoding(self@.take(i as int)).len(),
            decreases self@.len() - i,
        {
            let c = self.components[i];
            proof {
                assert(self@[i as int] == c@);
                assert(self@.take(i + 1) =~= self@.take(i as int).push(c@));
                lemma_components_encoding_push(self@.take(i as int), c@);
                lemma_components_encoding_prefix(self@, i + 1);
                lemma_varint_encoding_len(c.typ as u64);
                lemma_varint_encoding_len(c.bytes@.len() as u64);
            }
            len = len + c.encoded_length();
            i = i + 1;
        }
        assert(self@.take(i as int) =~= self@);
        len
    }

    fn append_inner(&self, out: &mut Vec<u8>)
        requires
            self.wf(),
        ensures
            final(out)@ == old(out)@ + components_encoding(self@),
    {
        let mut i: usize = 0;
        while i < self.components.len()
            invariant
                i <= self@.len(),
                self@.len() == self.components@.len(),
                out@ == old(out)@ + components_encoding(self@.take(i as int)),
            decreases self@.len() - i,
        {
            let c = self.components[i];
            proof {
                assert(self@[i as int] == c@);
                assert(self@.take(i + 1) =~= self@.take(i as int).push(c@));
                lemma_components_encoding_push(self@.take(i as int), c@);
            }
            crate::tlv::append_tlv(out, c.typ as u32, c.bytes);
            i = i + 1;
            assert(out@ =~= old(out)@ + components_encoding(self@.take(i as int)));
        }
        assert(self@.take(i as int) =~= self@);
    }

    /// Appends this name's TLV.
    pub fn append_name_tlv(&self, out: &mut Vec<u8>)
        requires
            self.wf(),
        ensures
            final(out)@ == old(out)@ + self.encoding(),
    {
        let mut inner: Vec<u8> = Vec::new();
        self.append_inner(&mut inner);
        assert(inner@ =~= components_encoding(self@));
        crate::tlv::append_tlv(out, TLV_TYPE_NAME, inner.as_slice());
    }
}

impl<'a> Encode for Name<'a> {
    open spec fn encoding(&self) -> Seq<u8> {
        tlv_encoding(TLV_TYPE_NAME, components_encoding(self@))
    }

    open spec fn encodable(&self) -> bool {
        self.wf() && components_encoding(self@).len() + 18 <= usize::MAX
    }

    fn encoded_length(&self) -> (r: usize) {
        let inner = self.inner_length();
        proof {
            lemma_varint_encoding_len(inner as u64);
        }
        1 + Varint(inner as u64).encoded_length() + inner
    }

    fn append_to(&self, out: &mut Vec<u8>) {
        let inner = self.inner_length();
        Varint(TLV_TYPE_NAME as u64).append_to(out);
        Varint(inner as u64).append_to(out);
        self.append_inner(out);
        assert(out@ =~= old(out)@ + self.encoding());
    }
}

/// Decoding the encoding of a valid name gives back its components, and
/// inner bytes that decode are exactly the encoding of what they decode to.
pub proof fn lemma_name_round_trip(cs: Seq<ComponentView>, inner: Seq<u8>)
    ensures
        components_valid(cs) ==> components_parse(components_encoding(cs)) == Some(cs),
        components_parse(inner) matches Some(ds) ==> components_encoding(ds) == inner,
{
    if components_valid(cs) {
        lemma_components_round_trip(cs);
    }
    if components_parse(inner) is Some {
        lemma_components_parse_canonical(inner);
    }
}

} // verus!
