use vstd::prelude::*;

use crate::digest::{sha256, sha256_of};
use crate::face::{FaceError, FaceReceiver, FaceSender, FaceToken};
use crate::io::Decode;
use crate::name::Name;
use crate::packet::{
    data_parse, interest_parse, signed_portion, signed_portion_of, Data, Interest, TLV_TYPE_DATA,
    TLV_TYPE_HOP_LIMIT, TLV_TYPE_INTEREST,
};
use crate::tables::{
    get_data_spec, insert_data_spec, prune_spec, register_interest_spec, register_prefix_spec,
    satisfy_interests_spec, unregister_face_spec, unregister_prefix_spec, Tables, TablesView,
};
use crate::timestamp::{Clock, Timestamp};
use crate::tlv::{tlv_error_needs_more, tlv_parse, TlvDecodingError, TLV};

verus! {

/// The capacity of a face's receive buffer: the largest packet a face takes.
pub const MAX_PACKET_SIZE: usize = 8800;

/// How many times in a row a sender may accept nothing before the rest of a
/// packet is given up.
pub const MAX_SEND_STALLS: usize = 1024;

#[derive(Clone, Copy, Debug)]
pub enum ForwarderError {
    NothingToForward,
    FaceNotfound,
    FaceDisconnected(FaceToken),
    FaceUnrecoverableError(FaceToken, TlvDecodingError),
}

/// Counters that a forwarder reports to; every event is optional.
pub trait ForwarderMetrics {
    fn interest_received(&mut self, from_face: FaceToken);

    fn interest_dropped(&mut self, from_face: FaceToken);

    fn interest_satisfied(&mut self, from_face: FaceToken);

    fn interest_sent(&mut self, to_face: FaceToken);

    fn data_received(&mut self, from_face: FaceToken);

    fn data_sent(&mut self, to_face: FaceToken);

    fn data_dropped(&mut self, from_face: FaceToken);

    fn invalid_packet_received(&mut self, from_face: FaceToken);
}

/// Metrics that record nothing.
pub struct InertMetrics {}

impl ForwarderMetrics for InertMetrics {
    fn interest_received(&mut self, from_face: FaceToken) {
    }

    fn interest_dropped(&mut self, from_face: FaceToken) {
    }

    fn interest_satisfied(&mut self, from_face: FaceToken) {
    }

    fn interest_sent(&mut self, to_face: FaceToken) {
    }

    fn data_received(&mut self, from_face: FaceToken) {
    }

    fn data_sent(&mut self, to_face: FaceToken) {
    }

    fn data_dropped(&mut self, from_face: FaceToken) {
    }

    fn invalid_packet_received(&mut self, from_face: FaceToken) {
    }
}

/// An event reported to a forwarder's metrics.
pub enum MetricEvent {
    InterestReceived(FaceToken),
    InterestDropped(FaceToken),
    InterestSatisfied(FaceToken),
    DataReceived(FaceToken),
    DataSent(FaceToken),
    DataDropped(FaceToken),
    InvalidPacketReceived(FaceToken),
}

/// Metrics together with the events reported to them so far.
pub struct Reporter<M> {
    pub metrics: M,
    pub events: Ghost<Seq<MetricEvent>>,
}

impl<M: ForwarderMetrics> Reporter<M> {
    pub fn new(metrics: M) -> (r: Self)
        ensures
            r.events@ == Seq::<MetricEvent>::empty(),
    {
        Reporter { metrics, events: Ghost(Seq::empty()) }
    }

    fn interest_received(&mut self, face: FaceToken)
        ensures
            final(self).events@ == old(self).events@.push(MetricEvent::InterestReceived(face)),
    {
        self.metrics.interest_received(face);
        self.events = Ghost(self.events@.push(MetricEvent::InterestReceived(face)));
    }

    fn interest_dropped(&mut self, face: FaceToken)
        ensures
            final(self).events@ == old(self).events@.push(MetricEvent::InterestDropped(face)),
    {
        self.metrics.interest_dropped(face);
        self.events = Ghost(self.events@.push(MetricEvent::InterestDropped(face)));
    }

    fn interest_satisfied(&mut self, face: FaceToken)
        ensures
            final(self).events@ == old(self).events@.push(MetricEvent::InterestSatisfied(face)),
    {
        self.metrics.interest_satisfied(face);
        self.events = Ghost(self.events@.push(MetricEvent::InterestSatisfied(face)));
    }

    fn data_received(&mut self, face: FaceToken)
        ensures
            final(self).events@ == old(self).events@.push(MetricEvent::DataReceived(face)),
    {
        self.metrics.data_received(face);
        self.events = Ghost(self.events@.push(MetricEvent::DataReceived(face)));
    }

    fn data_sent(&mut self, face: FaceToken)
        ensures
            final(self).events@ == old(self).events@.push(MetricEvent::DataSent(face)),
    {
        self.metrics.data_sent(face);
        self.events = Ghost(self.events@.push(MetricEvent::DataSent(face)));
    }

    fn data_dropped(&mut self, face: FaceToken)
        ensures
            final(self).events@ == old(self).events@.push(MetricEvent::DataDropped(face)),
    {
        self.metrics.data_dropped(face);
        self.events = Ghost(self.events@.push(MetricEvent::DataDropped(face)));
    }

    fn invalid_packet_received(&mut self, face: FaceToken)
        ensures
            final(self).events@ == old(self).events@.push(
                MetricEvent::InvalidPacketReceived(face),
            ),
    {
        self.metrics.invalid_packet_received(face);
        self.events = Ghost(self.events@.push(MetricEvent::InvalidPacketReceived(face)));
    }
}

// ---------------------------------------------------------------------------
// Decisions on one packet
// ---------------------------------------------------------------------------

/// A packet to send on a face.
pub struct Outgoing {
    pub face: FaceToken,
    pub packet: Vec<u8>,
}

pub open spec fn outgoing_views(s: Seq<Outgoing>) -> Seq<(FaceToken, Seq<u8>)> {
    s.map_values(|o: Outgoing| (o.face, o.packet@))
}

/// Where the value of the first TLV of type `t` among the TLVs of `s` starts.
pub open spec fn tlv_value_offset(s: Seq<u8>, t: u32) -> Option<nat>
    decreases s.len(),
{
    if s.len() == 0 {
        None
    } else {
        match tlv_parse(s) {
            Ok((t2, v, n)) => if n == 0 || n > s.len() {
                None
            } else if t2 == t {
                Some((n - v.len()) as nat)
            } else {
                match tlv_value_offset(s.skip(n as int), t) {
                    Some(o) => Some(o + n),
                    None => None,
                }
            },
            Err(_) => None,
        }
    }
}

/// Where the hop-limit value byte of the Interest packet `packet` stands.
pub open spec fn hop_byte_index(packet: Seq<u8>) -> Option<nat> {
    match tlv_parse(packet) {
        Ok((t, inner, n)) => match tlv_value_offset(inner, TLV_TYPE_HOP_LIMIT) {
            Some(o) => Some(((n - inner.len()) + o) as nat),
            None => None,
        },
        Err(_) => None,
    }
}

/// The packet to forward an Interest with: the received packet with its hop
/// limit decremented (saturating) where it has one.
pub open spec fn forwarded_interest(packet: Seq<u8>, hop_limit: Option<u8>) -> Seq<u8> {
    match (hop_limit, hop_byte_index(packet)) {
        (Some(h), Some(i)) => if i < packet.len() {
            packet.update(i as int, (if h > 0 {
                (h - 1) as u8
            } else {
                0u8
            }))
        } else {
            packet
        },
        _ => packet,
    }
}

/// Copies of `packet` for each face but `origin`.
pub open spec fn copies_for(faces: Seq<FaceToken>, origin: FaceToken, packet: Seq<u8>) -> Seq<
    (FaceToken, Seq<u8>),
>
    decreases faces.len(),
{
    if faces.len() == 0 {
        Seq::empty()
    } else if faces.last() == origin {
        copies_for(faces.drop_last(), origin, packet)
    } else {
        copies_for(faces.drop_last(), origin, packet).push((faces.last(), packet))
    }
}

/// What the forwarder does with an Interest `i` that arrived as `packet` on
/// `origin` at `now`: the new tables and the packets to send.
pub open spec fn interest_decision(
    t: TablesView,
    i: crate::packet::InterestView,
    packet: Seq<u8>,
    origin: FaceToken,
    now: u64,
) -> (TablesView, Seq<(FaceToken, Seq<u8>)>) {
    if i.name.len() == 0 || i.nonce is None || i.hop_limit == Some(0u8) {
        (t, Seq::empty())
    } else {
        let (t1, cached) = get_data_spec(t, i.name, i.can_be_prefix, i.must_be_fresh, now);
        match cached {
            Some(d) => (t1, seq![(origin, d)]),
            None => if i.hop_limit == Some(1u8) {
                (t1, Seq::empty())
            } else {
                let nonce = i.nonce->Some_0;
                let (t2, hops) = register_interest_spec(
                    t1,
                    i.name,
                    i.can_be_prefix,
                    i.interest_lifetime,
                    crate::tlv::be_value(nonce) as u32,
                    origin,
                    now,
                );
                (t2, copies_for(hops, origin, forwarded_interest(packet, i.hop_limit)))
            },
        }
    }
}

/// The events that handling Interest `i` reports: its arrival, then whether
/// it was dropped or satisfied from the content store.
pub open spec fn interest_events(
    t: TablesView,
    i: crate::packet::InterestView,
    packet: Seq<u8>,
    origin: FaceToken,
    now: u64,
) -> Seq<MetricEvent> {
    let received = seq![MetricEvent::InterestReceived(origin)];
    let dropped = received.push(MetricEvent::InterestDropped(origin));
    if i.name.len() == 0 || i.nonce is None || i.hop_limit == Some(0u8) {
        dropped
    } else if get_data_spec(t, i.name, i.can_be_prefix, i.must_be_fresh, now).1 is Some {
        received.push(MetricEvent::InterestSatisfied(origin)).push(MetricEvent::DataSent(origin))
    } else if i.hop_limit == Some(1u8) || interest_decision(t, i, packet, origin, now).1.len()
        == 0 {
        dropped
    } else {
        received
    }
}

/// The implicit digest that Data needs, where its name has children.
pub open spec fn data_digest(t: TablesView, d: crate::packet::DataView, inner: Seq<u8>) -> Option<
    Seq<u8>,
> {
    if exists|k: int|
        0 <= k < t.entries.len() && #[trigger] t.entries[k].name.len() == d.name.len() + 1
            && t.entries[k].name.take(d.name.len() as int) == d.name {
        Some(sha256_of(signed_portion(inner, d.signature_value)))
    } else {
        None
    }
}

/// What the forwarder does with Data `d` that arrived as `packet` (with inner
/// bytes `inner`) on `origin` at `now`.
pub open spec fn data_decision(
    t: TablesView,
    d: crate::packet::DataView,
    packet: Seq<u8>,
    inner: Seq<u8>,
    origin: FaceToken,
    now: u64,
) -> (TablesView, Seq<(FaceToken, Seq<u8>)>) {
    let (t1, faces) = satisfy_interests_spec(t, d.name, data_digest(t, d, inner), now);
    if faces.len() == 0 {
        (t1, Seq::empty())
    } else {
        let freshness = match d.meta_info {
            Some(m) => match m.freshness_period {
                Some(p) => p,
                None => 0,
            },
            None => 0,
        };
        (
            insert_data_spec(
                t1,
                d.name,
                sha256_of(signed_portion(inner, d.signature_value)),
                freshness,
                now,
                packet,
            ),
            copies_for(faces, origin, packet),
        )
    }
}

/// The events that handling Data `d` reports: its arrival, then whether it
/// satisfied no pending Interest.
pub open spec fn data_events(
    t: TablesView,
    d: crate::packet::DataView,
    inner: Seq<u8>,
    origin: FaceToken,
    now: u64,
) -> Seq<MetricEvent> {
    let received = seq![MetricEvent::DataReceived(origin)];
    if satisfy_interests_spec(t, d.name, data_digest(t, d, inner), now).1.len() == 0 {
        received.push(MetricEvent::DataDropped(origin))
    } else {
        received
    }
}

/// Whether the forwarder handles the TLV of type `typ` and value `inner`: an
/// Interest or Data that decodes.
pub open spec fn packet_handled(typ: u32, inner: Seq<u8>) -> bool {
    (typ == TLV_TYPE_INTEREST && interest_parse(inner) is Some) || (typ == TLV_TYPE_DATA
        && data_parse(inner) is Some)
}

/// What the forwarder does with the TLV of type `typ` and value `inner` that
/// arrived whole as `packet` on `origin` at `now`: the new tables, the
/// packets to send, the events to report, and whether it was handled. Any
/// other packet is reported as invalid and changes nothing.
pub open spec fn packet_decision(
    t: TablesView,
    typ: u32,
    inner: Seq<u8>,
    packet: Seq<u8>,
    origin: FaceToken,
    now: u64,
) -> (TablesView, Seq<(FaceToken, Seq<u8>)>, Seq<MetricEvent>, bool) {
    let invalid = (t, Seq::empty(), seq![MetricEvent::InvalidPacketReceived(origin)], false);
    if typ == TLV_TYPE_INTEREST {
        match interest_parse(inner) {
            Some(i) => {
                let (t2, out) = interest_decision(t, i, packet, origin, now);
                (t2, out, interest_events(t, i, packet, origin, now), true)
            },
            None => invalid,
        }
    } else if typ == TLV_TYPE_DATA {
        match data_parse(inner) {
            Some(d) => {
                let (t2, out) = data_decision(t, d, packet, inner, origin, now);
                (t2, out, data_events(t, d, inner, origin, now), true)
            },
            None => invalid,
        }
    } else {
        invalid
    }
}

pub proof fn lemma_copies_avoid_origin(faces: Seq<FaceToken>, origin: FaceToken, packet: Seq<u8>)
    ensures
        forall|k: int|
            0 <= k < copies_for(faces, origin, packet).len() ==> (#[trigger] copies_for(
                faces,
                origin,
                packet,
            )[k]).0 != origin,
    decreases faces.len(),
{
    if faces.len() > 0 {
        lemma_copies_avoid_origin(faces.drop_last(), origin, packet);
        let c0 = copies_for(faces.drop_last(), origin, packet);
        let c = copies_for(faces, origin, packet);
        assert forall|k: int| 0 <= k < c.len() implies (#[trigger] c[k]).0 != origin by {
            if k < c0.len() {
                assert(c[k] == c0[k]);
            }
        }
    }
}

/// Face symmetry: an Interest or Data that arrives on a face is never sent
/// back on it, except for the one reply that the content store gives to an
/// Interest.
pub proof fn lemma_face_symmetry(
    t: TablesView,
    i: crate::packet::InterestView,
    d: crate::packet::DataView,
    packet: Seq<u8>,
    inner: Seq<u8>,
    origin: FaceToken,
    now: u64,
)
    ensures
        ({
            let out = interest_decision(t, i, packet, origin, now).1;
            let cached = get_data_spec(t, i.name, i.can_be_prefix, i.must_be_fresh, now).1;
            forall|k: int|
                0 <= k < out.len() && (#[trigger] out[k]).0 == origin ==> cached is Some
                    && out.len() == 1
        }),
        ({
            let out = data_decision(t, d, packet, inner, origin, now).1;
            forall|k: int| 0 <= k < out.len() ==> (#[trigger] out[k]).0 != origin
        }),
{
    let (t1, cached) = get_data_spec(t, i.name, i.can_be_prefix, i.must_be_fresh, now);
    if cached is None && i.nonce is Some {
        let (t2, hops) = register_interest_spec(
            t1,
            i.name,
            i.can_be_prefix,
            i.interest_lifetime,
            crate::tlv::be_value(i.nonce->Some_0) as u32,
            origin,
            now,
        );
        lemma_copies_avoid_origin(hops, origin, forwarded_interest(packet, i.hop_limit));
    }
    let (t3, faces) = satisfy_interests_spec(t, d.name, data_digest(t, d, inner), now);
    lemma_copies_avoid_origin(faces, origin, packet);
}

/// Finds where the value of the first TLV of type `t` in `s` starts.
fn value_offset_of_type(s: &[u8], t: u32) -> (r: Option<usize>)
    ensures
        match r {
            Some(o) => tlv_value_offset(s@, t) == Some(o as nat),
            None => tlv_value_offset(s@, t) is None,
        },
{
    let total = s.len();
    let mut offset: usize = 0;
    assert(s@.skip(0) =~= s@);
    while offset < total
        invariant
            total == s@.len(),
            offset <= total,
            match tlv_value_offset(s@, t) {
                Some(o) => tlv_value_offset(s@.skip(offset as int), t) == Some(
                    (o - offset) as nat,
                ) && o >= offset,
                None => tlv_value_offset(s@.skip(offset as int), t) is None,
            },
        decreases total - offset,
    {
        let rest = &s[offset..total];
        assert(rest@ =~= s@.skip(offset as int));
        let (tlv, n) = match TLV::try_decode(rest) {
            Ok(x) => x,
            Err(_) => {
                return None;
            },
        };
        proof {
            crate::tlv::lemma_tlv_parse_canonical(rest@);
            crate::tlv::lemma_varint_encoding_len(tlv.typ as u64);
        }
        if tlv.typ == t {
            return Some(offset + (n - tlv.val.len()));
        }
        assert(rest@.skip(n as int) =~= s@.skip(offset + n));
        offset = offset + n;
    }
    assert(s@.skip(offset as int).len() == 0);
    None
}

/// The packet to forward an Interest with; see `forwarded_interest`.
fn forwarded_interest_exec(packet: &[u8], hop_limit: Option<u8>) -> (r: Vec<u8>)
    ensures
        r@ == forwarded_interest(packet@, hop_limit),
{
    let mut out: Vec<u8> = Vec::new();
    crate::io::append_bytes(&mut out, packet);
    assert(out@ =~= packet@);
    let h = match hop_limit {
        Some(h) => h,
        None => {
            return out;
        },
    };
    let (tlv, n) = match TLV::try_decode(packet) {
        Ok(x) => x,
        Err(_) => {
            return out;
        },
    };
    proof {
        crate::tlv::lemma_tlv_parse_canonical(packet@);
    }
    let o = match value_offset_of_type(tlv.val, TLV_TYPE_HOP_LIMIT) {
        Some(o) => o,
        None => {
            return out;
        },
    };
    let header = n - tlv.val.len();
    if o >= packet.len() - header {
        return out;
    }
    let i = header + o;
    out.set(i, h.saturating_sub(1));
    out
}

/// Keeps, of `hops`, those that are not `origin`, each with `packet`.
fn copies_for_exec(hops: &Vec<FaceToken>, origin: FaceToken, packet: &Vec<u8>) -> (r: Vec<Outgoing>)
    ensures
        outgoing_views(r@) == copies_for(hops@, origin, packet@),
{
    let mut r: Vec<Outgoing> = Vec::new();
    let mut i: usize = 0;
    while i < hops.len()
        invariant
            i <= hops@.len(),
            outgoing_views(r@) == copies_for(hops@.take(i as int), origin, packet@),
        decreases hops@.len() - i,
    {
        assert(hops@.take(i + 1).drop_last() =~= hops@.take(i as int));
        if hops[i].0 != origin.0 {
            let mut copy: Vec<u8> = Vec::new();
            crate::io::append_bytes(&mut copy, packet.as_slice());
            assert(copy@ =~= packet@);
            let ghost prev = r@;
            r.push(Outgoing { face: hops[i], packet: copy });
            assert(outgoing_views(r@) =~= outgoing_views(prev).push((hops@[i as int], packet@)));
        }
        i = i + 1;
    }
    assert(hops@.take(i as int) =~= hops@);
    r
}

/// Decides what to do with an Interest (see `interest_decision`), updating
/// the tables.
pub fn decide_interest<M: ForwarderMetrics>(
    tables: &mut Tables,
    metrics: &mut Reporter<M>,
    interest: &Interest,
    packet: &[u8],
    origin: FaceToken,
    now: Timestamp,
) -> (r: Vec<Outgoing>)
    ensures
        ({
            let (t, out) = interest_decision(
                old(tables)@,
                interest.view(),
                packet@,
                origin,
                now.ms_since_1970,
            );
            final(tables)@ == t && outgoing_views(r@) == out
        }),
        final(metrics).events@ == old(metrics).events@ + interest_events(
            old(tables)@,
            interest.view(),
            packet@,
            origin,
            now.ms_since_1970,
        ),
        forall|k: int|
            0 <= k < r@.len() && (#[trigger] r@[k]).face == origin ==> r@.len() == 1
                && get_data_spec(
                old(tables)@,
                interest.name@,
                interest.can_be_prefix,
                interest.must_be_fresh,
                now.ms_since_1970,
            ).1 is Some,
{
    let mut out: Vec<Outgoing> = Vec::new();
    metrics.interest_received(origin);
    let nonce = match interest.nonce {
        Some(n) => n,
        None => {
            metrics.interest_dropped(origin);
            assert(metrics.events@ =~= old(metrics).events@ + interest_events(old(tables)@, interest.view(), packet@, origin, now.ms_since_1970));
            return out;
        },
    };
    if interest.name.component_count() == 0 {
        metrics.interest_dropped(origin);
        assert(metrics.events@ =~= old(metrics).events@ + interest_events(old(tables)@, interest.view(), packet@, origin, now.ms_since_1970));
        return out;
    }
    if interest.hop_limit == Some(0u8) {
        metrics.interest_dropped(origin);
        assert(metrics.events@ =~= old(metrics).events@ + interest_events(old(tables)@, interest.view(), packet@, origin, now.ms_since_1970));
        return out;
    }
    match tables.get_data(&interest.name, interest.can_be_prefix, interest.must_be_fresh, now) {
        Some(bytes) => {
            metrics.interest_satisfied(origin);
            metrics.data_sent(origin);
            out.push(Outgoing { face: origin, packet: bytes });
            proof {
                lemma_face_symmetry(
                    old(tables)@,
                    interest.view(),
                    arbitrary(),
                    packet@,
                    Seq::empty(),
                    origin,
                    now.ms_since_1970,
                );
            }
            assert(outgoing_views(out@) =~= seq![(origin, out@[0].packet@)]);
            assert(metrics.events@ =~= old(metrics).events@ + interest_events(old(tables)@, interest.view(), packet@, origin, now.ms_since_1970));
            return out;
        },
        None => {},
    }
    if interest.hop_limit == Some(1u8) {
        metrics.interest_dropped(origin);
        assert(metrics.events@ =~= old(metrics).events@ + interest_events(old(tables)@, interest.view(), packet@, origin, now.ms_since_1970));
        return out;
    }
    let hops = tables.register_interest(
        &interest.name,
        interest.can_be_prefix,
        interest.interest_lifetime,
        nonce,
        origin,
        now,
    );
    let forwarded = forwarded_interest_exec(packet, interest.hop_limit);
    let out = copies_for_exec(&hops, origin, &forwarded);
    if out.len() == 0 {
        metrics.interest_dropped(origin);
    }
    proof {
        assert(metrics.events@ =~= old(metrics).events@ + interest_events(old(tables)@, interest.view(), packet@, origin, now.ms_since_1970));
        lemma_copies_avoid_origin(hops@, origin, forwarded@);
        assert forall|k: int| 0 <= k < out@.len() implies (#[trigger] out@[k]).face != origin by {
            assert(outgoing_views(out@)[k].0 == out@[k].face);
        }
    }
    out
}

/// Decides what to do with Data (see `data_decision`), updating the tables.
pub fn decide_data<M: ForwarderMetrics>(
    tables: &mut Tables,
    metrics: &mut Reporter<M>,
    data: &Data,
    packet: &[u8],
    inner: &[u8],
    origin: FaceToken,
    now: Timestamp,
) -> (r: Vec<Outgoing>)
    ensures
        ({
            let (t, out) = data_decision(
                old(tables)@,
                data.view(),
                packet@,
                inner@,
                origin,
                now.ms_since_1970,
            );
            final(tables)@ == t && outgoing_views(r@) == out
        }),
        final(metrics).events@ == old(metrics).events@ + data_events(
            old(tables)@,
            data.view(),
            inner@,
            origin,
            now.ms_since_1970,
        ),
        forall|k: int| 0 <= k < r@.len() ==> (#[trigger] r@[k]).face != origin,
{
    metrics.data_received(origin);
    let signed = signed_portion_of(inner, data.signature_value);
    let needs_digest = tables.has_children(&data.name);
    let mut digest: Option<Vec<u8>> = None;
    if needs_digest {
        digest = Some(sha256(signed));
    }
    let faces = match &digest {
        Some(d) => tables.satisfy_interests(&data.name, now, Some(d.as_slice())),
        None => tables.satisfy_interests(&data.name, now, None),
    };
    if faces.len() == 0 {
        metrics.data_dropped(origin);
        assert(metrics.events@ =~= old(metrics).events@ + data_events(old(tables)@, data.view(), inner@, origin, now.ms_since_1970));
        let out: Vec<Outgoing> = Vec::new();
        assert(outgoing_views(out@) =~= Seq::<(FaceToken, Seq<u8>)>::empty());
        return out;
    }
    let mut whole: Vec<u8> = Vec::new();
    crate::io::append_bytes(&mut whole, packet);
    let out = copies_for_exec(&faces, origin, &whole);
    let digest = match digest {
        Some(d) => d,
        None => sha256(signed),
    };
    let freshness = data.freshness_period();
    tables.insert_data(&data.name, digest.as_slice(), freshness, now, packet);
    proof {
        assert(metrics.events@ =~= old(metrics).events@ + data_events(old(tables)@, data.view(), inner@, origin, now.ms_since_1970));
        lemma_copies_avoid_origin(faces@, origin, packet@);
        assert(whole@ =~= packet@);
        assert forall|k: int| 0 <= k < out@.len() implies (#[trigger] out@[k]).face != origin by {
            assert(outgoing_views(out@)[k].0 == out@[k].face);
        }
    }
    out
}


// ---------------------------------------------------------------------------
// Faces
// ---------------------------------------------------------------------------

/// A face as the forwarder holds it: its halves, its receive buffer with the
/// number of bytes in it, and whether it is to be closed.
struct FaceEntry<S, R> {
    token: u32,
    sender: S,
    receiver: R,
    should_close: bool,
    recv_buffer: Vec<u8>,
    recv_cursor: usize,
    /// Every byte received on the face so far.
    received: Ghost<Seq<u8>>,
}

impl<S: FaceSender, R: FaceReceiver> FaceEntry<S, R> {
    spec fn wf(&self) -> bool {
        self.recv_buffer@.len() == MAX_PACKET_SIZE && self.recv_cursor <= MAX_PACKET_SIZE
    }

    /// Writes all of `bytes`, retrying while the sender makes progress; a
    /// disconnect marks the face to be closed.
    fn write_all(&mut self, bytes: &[u8]) -> (r: bool)
        ensures
            final(self).token == old(self).token,
            final(self).recv_buffer == old(self).recv_buffer,
            final(self).recv_cursor == old(self).recv_cursor,
            final(self).received == old(self).received,
            final(self).should_close == (old(self).should_close || !r),
    {
        let total = bytes.len();
        let mut sent: usize = 0;
        let mut stalls: usize = 0;
        while sent < total && stalls < MAX_SEND_STALLS
            invariant
                total == bytes@.len(),
                sent <= total,
                stalls <= MAX_SEND_STALLS,
                self.token == old(self).token,
                self.recv_buffer == old(self).recv_buffer,
                self.recv_cursor == old(self).recv_cursor,
                self.received == old(self).received,
                self.should_close == old(self).should_close,
            decreases total - sent, MAX_SEND_STALLS - stalls,
        {
            match self.sender.try_send(&bytes[sent..total]) {
                Ok(n) => {
                    if n == 0 {
                        stalls = stalls + 1;
                    } else {
                        sent = sent + n;
                        stalls = 0;
                    }
                },
                Err(FaceError::Disconnected) => {
                    self.should_close = true;
                    return false;
                },
            }
        }
        if sent < total {
            // The sender stopped taking bytes: the rest of the packet is lost.
            self.should_close = true;
            return false;
        }
        true
    }

    /// Sends a whole packet and flushes.
    fn send_whole_packet(&mut self, packet: &[u8])
        ensures
            final(self).token == old(self).token,
            final(self).recv_buffer == old(self).recv_buffer,
            final(self).recv_cursor == old(self).recv_cursor,
            final(self).received == old(self).received,
            old(self).should_close ==> final(self).should_close,
    {
        if !self.write_all(packet) {
            return;
        }
        match self.sender.flush() {
            Ok(()) => {},
            Err(FaceError::Disconnected) => {
                self.should_close = true;
            },
        }
    }

    /// Receives into the free tail of the receive buffer.
    fn try_recv(&mut self) -> (r: Result<usize, FaceError>)
        requires
            old(self).wf(),
        ensures
            final(self).wf(),
            final(self).token == old(self).token,
            final(self).should_close == old(self).should_close,
            r matches Ok(n) ==> final(self).recv_cursor == old(self).recv_cursor + n,
            r is Err ==> final(self).recv_cursor == old(self).recv_cursor
                && final(self).recv_buffer == old(self).recv_buffer && final(self).received
                == old(self).received,
            r matches Ok(n) ==> final(self).received@ == old(self).received@
                + final(self).recv_buffer@.subrange(
                old(self).recv_cursor as int,
                old(self).recv_cursor + n,
            ),
            final(self).recv_buffer@.take(old(self).recv_cursor as int) == old(
                self,
            ).recv_buffer@.take(old(self).recv_cursor as int),
    {
        let free = MAX_PACKET_SIZE - self.recv_cursor;
        let mut tmp: Vec<u8> = Vec::new();
        let mut k: usize = 0;
        while k < free
            invariant
                k <= free,
                tmp@.len() == k,
            decreases free - k,
        {
            tmp.push(0);
            k = k + 1;
        }
        let n = match self.receiver.try_recv(tmp.as_mut_slice()) {
            Ok(n) => n,
            Err(e) => {
                return Err(e);
            },
        };
        let start = self.recv_cursor;
        let mut j: usize = 0;
        while j < n
            invariant
                n <= tmp@.len(),
                tmp@.len() == free,
                free == MAX_PACKET_SIZE - start,
                start == self.recv_cursor,
                self.recv_buffer@.len() == MAX_PACKET_SIZE,
                j <= n,
                self.token == old(self).token,
                self.should_close == old(self).should_close,
                self.received == old(self).received,
                forall|m: int| 0 <= m < start ==> self.recv_buffer@[m] == old(self).recv_buffer@[m],
                forall|m: int| 0 <= m < j ==> self.recv_buffer@[start + m] == tmp@[m],
            decreases n - j,
        {
            self.recv_buffer.set(start + j, tmp[j]);
            j = j + 1;
        }
        self.recv_cursor = start + n;
        assert(self.recv_buffer@.subrange(start as int, start + n) =~= tmp@.take(n as int));
        self.received = Ghost(self.received@ + tmp@.take(n as int));
        assert(self.recv_buffer@.take(start as int) =~= old(self).recv_buffer@.take(start as int));
        Ok(n)
    }

    /// Drops the first `len` bytes of the receive buffer.
    fn consume(&mut self, len: usize)
        requires
            old(self).wf(),
            len <= old(self).recv_cursor,
        ensures
            final(self).wf(),
            final(self).token == old(self).token,
            final(self).should_close == old(self).should_close,
            final(self).recv_cursor == old(self).recv_cursor - len,
            final(self).received == old(self).received,
            final(self).recv_buffer@.take(final(self).recv_cursor as int) == old(
                self,
            ).recv_buffer@.subrange(len as int, old(self).recv_cursor as int),
    {
        let rest = self.recv_cursor - len;
        let mut j: usize = 0;
        while j < rest
            invariant
                rest == old(self).recv_cursor - len,
                len <= old(self).recv_cursor <= MAX_PACKET_SIZE,
                j <= rest,
                self.recv_buffer@.len() == MAX_PACKET_SIZE,
                self.recv_cursor == old(self).recv_cursor,
                self.token == old(self).token,
                self.should_close == old(self).should_close,
                self.received == old(self).received,
                forall|m: int| 0 <= m < j ==> self.recv_buffer@[m] == old(self).recv_buffer@[m
                    + len],
                forall|m: int|
                    j <= m < MAX_PACKET_SIZE ==> self.recv_buffer@[m] == old(self).recv_buffer@[m],
            decreases rest - j,
        {
            let b = self.recv_buffer[j + len];
            self.recv_buffer.set(j, b);
            j = j + 1;
        }
        self.recv_cursor = rest;
        assert(self.recv_buffer@.take(rest as int) =~= old(self).recv_buffer@.subrange(
            len as int,
            old(self).recv_cursor as int,
        ));
    }
}

pub open spec fn strictly_increasing(s: Seq<u32>) -> bool {
    forall|i: int, j: int| 0 <= i < j < s.len() ==> s[i] < s[j]
}

/// The forwarding engine: its faces, the tables, a clock and metrics.
pub struct Forwarder<C, M, S, R> {
    faces: Vec<FaceEntry<S, R>>,
    tables: Tables,
    metrics: Reporter<M>,
    clock: C,
    latest_face_token: u32,
    last_checked_face: usize,
    /// The packets handed to the faces' senders so far.
    sent: Ghost<Seq<(FaceToken, Seq<u8>)>>,
}

/// Of `out`, the packets whose face is among `tokens`, in order.
pub open spec fn deliverable(tokens: Seq<u32>, out: Seq<(FaceToken, Seq<u8>)>) -> Seq<
    (FaceToken, Seq<u8>),
>
    decreases out.len(),
{
    if out.len() == 0 {
        out
    } else if tokens.contains(out.last().0.0) {
        deliverable(tokens, out.drop_last()).push(out.last())
    } else {
        deliverable(tokens, out.drop_last())
    }
}

impl<C: Clock, M: ForwarderMetrics, S: FaceSender, R: FaceReceiver> Forwarder<C, M, S, R> {
    /// The tokens of the faces, in the order they were added.
    pub closed spec fn face_tokens(&self) -> Seq<u32> {
        self.faces@.map_values(|f: FaceEntry<S, R>| f.token)
    }

    pub closed spec fn tables_view(&self) -> TablesView {
        self.tables@
    }

    pub closed spec fn latest_token(&self) -> u32 {
        self.latest_face_token
    }

    /// The events reported to the metrics so far.
    pub closed spec fn metric_events(&self) -> Seq<MetricEvent> {
        self.metrics.events@
    }

    /// The packets handed to the faces' senders so far.
    pub closed spec fn sent(&self) -> Seq<(FaceToken, Seq<u8>)> {
        self.sent@
    }

    /// The bytes buffered from the face at `i` and not yet handled.
    pub closed spec fn buffered(&self, i: int) -> Seq<u8> {
        self.faces@[i].recv_buffer@.take(self.faces@[i].recv_cursor as int)
    }

    /// The index of the face visited last by a round over the faces.
    pub closed spec fn cursor(&self) -> usize {
        self.last_checked_face
    }

    /// Whether the face at `i` is to be closed.
    pub closed spec fn closing(&self, i: int) -> bool {
        self.faces@[i].should_close
    }

    /// Every byte received on the face at `i` so far.
    pub closed spec fn received(&self, i: int) -> Seq<u8> {
        self.faces@[i].received@
    }

    /// `b` is `a` after framing on the face at `index`, with `b2` buffered:
    /// a whole TLV at the front is handled at some time; bytes that can never
    /// frame a packet fail the face; else the face waits for more bytes.
    pub open spec fn frame_step(
        a: Self,
        b: Self,
        index: int,
        b2: Seq<u8>,
        r: Result<bool, ForwarderError>,
    ) -> bool {
        let origin = FaceToken(a.face_tokens()[index]);
        match tlv_parse(b2) {
            Ok((typ, inner, n)) => {
                &&& r == Ok::<bool, ForwarderError>(packet_handled(typ, inner))
                &&& exists|now: u64| Self::handled_front(a, b, index, b2, now)
            },
            Err(e) => {
                &&& Self::same_tables_and_logs(a, b)
                &&& b.buffered(index) == b2
                &&& if framing_fails(e, b2.len()) {
                    r == Err::<bool, ForwarderError>(ForwarderError::FaceUnrecoverableError(origin, e))
                } else {
                    r == Ok::<bool, ForwarderError>(false)
                }
            },
        }
    }

    /// `b` is `a` after the face at `index`, with `buf` buffered, handled the
    /// whole TLV at the front of `buf` at `now`; the rest stays buffered.
    pub open spec fn handled_front(a: Self, b: Self, index: int, buf: Seq<u8>, now: u64) -> bool {
        let origin = FaceToken(a.face_tokens()[index]);
        match tlv_parse(buf) {
            Ok((typ, inner, n)) => {
                let (t, out, ev, h) = packet_decision(
                    a.tables_view(),
                    typ,
                    inner,
                    buf.take(n as int),
                    origin,
                    now,
                );
                &&& b.buffered(index) == buf.skip(n as int)
                &&& b.tables_view() == t
                &&& b.metric_events() == a.metric_events() + ev
                &&& b.sent() == a.sent() + deliverable(a.face_tokens(), out)
            },
            Err(_) => false,
        }
    }

    /// `b` is `a` with its tables pruned at `now`.
    pub open spec fn pruned(a: Self, b: Self, now: u64) -> bool {
        &&& b.face_tokens() == a.face_tokens()
        &&& b.tables_view() == prune_spec(a.tables_view(), now)
        &&& b.metric_events() == a.metric_events()
        &&& b.sent() == a.sent()
        &&& forall|j: int|
            0 <= j < a.face_tokens().len() ==> #[trigger] b.buffered(j) == a.buffered(j)
                && b.closing(j) == a.closing(j)
    }

    /// The same tables, reported events and packets sent.
    pub open spec fn same_tables_and_logs(a: Self, b: Self) -> bool {
        &&& b.tables_view() == a.tables_view()
        &&& b.metric_events() == a.metric_events()
        &&& b.sent() == a.sent()
    }

    /// Framing depends on the state before it only through the tables, the
    /// logs and the faces' tokens.
    proof fn lemma_frame_step_base(
        a: Self,
        a2: Self,
        b: Self,
        index: int,
        b2: Seq<u8>,
        r: Result<bool, ForwarderError>,
    )
        requires
            Self::frame_step(a2, b, index, b2, r),
            a.face_tokens() == a2.face_tokens(),
            Self::same_tables_and_logs(a2, a),
        ensures
            Self::frame_step(a, b, index, b2, r),
    {
        if tlv_parse(b2) is Ok {
            let now = choose|now: u64| Self::handled_front(a2, b, index, b2, now);
            assert(Self::handled_front(a, b, index, b2, now));
        }
    }

    /// `b` is `a` after one step of the framing loop on the face at `index`
    /// returned `r`. A face to be closed fails at once. A buffer that starts
    /// with a whole packet, or with bytes that can never frame one, is framed
    /// without receiving. Otherwise the face receives once: it disconnects,
    /// or the bytes it gave are appended to the buffer, which is framed.
    /// Other faces keep their buffers.
    pub open spec fn recv_step(a: Self, b: Self, index: int, r: Result<bool, ForwarderError>) -> bool {
        let origin = FaceToken(a.face_tokens()[index]);
        let buf = a.buffered(index);
        &&& forall|j: int|
            0 <= j < a.face_tokens().len() && j != index ==> #[trigger] b.buffered(j)
                == a.buffered(j) && (a.closing(j) ==> b.closing(j)) && b.received(j)
                == a.received(j)
        &&& if a.closing(index) {
            r == Err::<bool, ForwarderError>(ForwarderError::FaceDisconnected(origin)) && b == a
        } else if tlv_parse(buf) is Ok {
            &&& b.received(index) == a.received(index)
            &&& Self::frame_step(a, b, index, buf, r)
        } else if framing_fails(tlv_parse(buf)->Err_0, buf.len()) {
            &&& r == Err::<bool, ForwarderError>(
                ForwarderError::FaceUnrecoverableError(origin, tlv_parse(buf)->Err_0),
            )
            &&& b == a
        } else {
            ||| r == Err::<bool, ForwarderError>(ForwarderError::FaceDisconnected(origin))
                && b.closing(index) && Self::same_tables_and_logs(a, b) && b.buffered(index)
                == buf && b.received(index) == a.received(index)
            ||| exists|b2: Seq<u8>|
                buf.len() <= b2.len() <= MAX_PACKET_SIZE && b2.take(buf.len() as int) == buf
                    && b.received(index) == a.received(index) + b2.skip(buf.len() as int)
                    && #[trigger] Self::frame_step(a, b, index, b2, r)
        }
    }

    /// Tokens increase in the order faces were added and none exceeds the
    /// latest one given out; every receive buffer has its full capacity.
    pub closed spec fn wf(&self) -> bool {
        &&& strictly_increasing(self.face_tokens())
        &&& forall|i: int|
            0 <= i < self.faces@.len() ==> (#[trigger] self.faces@[i]).token
                <= self.latest_face_token && self.faces@[i].token > 0 && self.faces@[i].wf()
    }

    pub fn new(clock: C, metrics: M, tables: Tables) -> (r: Self)
        ensures
            r.wf(),
            r.face_tokens().len() == 0,
            r.tables_view() == tables@,
            r.latest_token() == 0,
            r.metric_events() == Seq::<MetricEvent>::empty(),
            r.sent() == Seq::<(FaceToken, Seq<u8>)>::empty(),
    {
        let r = Forwarder {
            faces: Vec::new(),
            tables,
            metrics: Reporter::new(metrics),
            clock,
            latest_face_token: 0,
            last_checked_face: 0,
            sent: Ghost(Seq::empty()),
        };
        assert(r.face_tokens() =~= Seq::<u32>::empty());
        r
    }

    /// The token the next face will get; none once all are used.
    pub fn next_face_token(&self) -> (r: Option<FaceToken>)
        requires
            self.wf(),
        ensures
            self.latest_token() == u32::MAX ==> r is None,
            r matches Some(t) ==> t.0 != 0 && forall|i: int|
                0 <= i < self.face_tokens().len() ==> #[trigger] self.face_tokens()[i] < t.0,
            self.latest_token() < u32::MAX ==> r == Some(FaceToken((self.latest_token() + 1) as u32)),
    {
        match self.latest_face_token.checked_add(1) {
            Some(t) => Some(FaceToken(t)),
            None => None,
        }
    }

    /// Adds a face and returns its token: one more than the last given out.
    pub fn add_face(&mut self, sender: S, receiver: R) -> (r: Option<FaceToken>)
        requires
            old(self).wf(),
        ensures
            final(self).wf(),
            final(self).tables_view() == old(self).tables_view(),
            final(self).metric_events() == old(self).metric_events(),
            final(self).sent() == old(self).sent(),
            r matches Some(t) ==> t.0 != 0 && forall|i: int|
                0 <= i < old(self).face_tokens().len() ==> #[trigger] old(self).face_tokens()[i]
                    < t.0,
            old(self).latest_token() == u32::MAX ==> r is None && final(self).face_tokens()
                == old(self).face_tokens(),
            old(self).latest_token() < u32::MAX ==> r == Some(
                FaceToken((old(self).latest_token() + 1) as u32),
            ) && final(self).face_tokens() == old(self).face_tokens().push(
                (old(self).latest_token() + 1) as u32,
            ) && final(self).latest_token() == old(self).latest_token() + 1,
    {
        let token = match self.latest_face_token.checked_add(1) {
            Some(t) => t,
            None => {
                return None;
            },
        };
        let mut recv_buffer: Vec<u8> = Vec::new();
        let mut k: usize = 0;
        while k < MAX_PACKET_SIZE
            invariant
                k <= MAX_PACKET_SIZE,
                recv_buffer@.len() == k,
            decreases MAX_PACKET_SIZE - k,
        {
            recv_buffer.push(0);
            k = k + 1;
        }
        self.faces.push(
            FaceEntry {
                token,
                sender,
                receiver,
                should_close: false,
                recv_buffer,
                recv_cursor: 0,
                received: Ghost(Seq::empty()),
            },
        );
        self.latest_face_token = token;
        assert(self.face_tokens() =~= old(self).face_tokens().push(token));
        Some(FaceToken(token))
    }

    /// Finds a face by binary search over the increasing tokens.
    fn find_face(&self, token: FaceToken) -> (r: Option<usize>)
        requires
            self.wf(),
        ensures
            match r {
                Some(i) => i < self.faces@.len() && self.face_tokens()[i as int] == token.0,
                None => !self.face_tokens().contains(token.0),
            },
    {
        let mut lo: usize = 0;
        let mut hi: usize = self.faces.len();
        while lo < hi
            invariant
                self.wf(),
                lo <= hi <= self.faces@.len(),
                forall|j: int| 0 <= j < lo ==> self.face_tokens()[j] < token.0,
                forall|j: int| hi <= j < self.faces@.len() ==> self.face_tokens()[j] > token.0,
            decreases hi - lo,
        {
            let mid = lo + (hi - lo) / 2;
            let t = self.faces[mid].token;
            assert(self.face_tokens()[mid as int] == t);
            if t == token.0 {
                return Some(mid);
            } else if t < token.0 {
                lo = mid + 1;
            } else {
                hi = mid;
            }
        }
        proof {
            if self.face_tokens().contains(token.0) {
                let j = choose|j: int| 0 <= j < self.face_tokens().len() && self.face_tokens()[j]
                    == token.0;
                assert(false);
            }
        }
        None
    }

    /// Removes a face and every FIB and PIT record that names it; returns
    /// whether there was such a face.
    pub fn remove_face(&mut self, token: FaceToken) -> (r: bool)
        requires
            old(self).wf(),
        ensures
            final(self).wf(),
            r == old(self).face_tokens().contains(token.0),
            final(self).face_tokens() == old(self).face_tokens().filter(|t: u32| t != token.0),
            final(self).tables_view() == unregister_face_spec(old(self).tables_view(), token),
            final(self).latest_token() == old(self).latest_token(),
    {
        self.tables.unregister_face(token);
        match self.find_face(token) {
            Some(i) => {
                let ghost before = self.face_tokens();
                self.faces.remove(i);
                if self.last_checked_face >= self.faces.len() {
                    self.last_checked_face = 0;
                }
                proof {
                    assert(self.face_tokens() =~= before.remove(i as int));
                    assert(before.filter(|t: u32| t != token.0) =~= before.remove(i as int)) by {
                        lemma_filter_remove_unique(before, i as int, token.0);
                    }
                }
                true
            },
            None => {
                proof {
                    lemma_filter_absent(self.face_tokens(), token.0);
                }
                false
            },
        }
    }

    /// Forwards `face` as a next hop for `name_prefix` at `cost`.
    pub fn register_name_prefix_for_forwarding(
        &mut self,
        name_prefix: &Name,
        forward_to: FaceToken,
        cost: u32,
    )
        requires
            old(self).wf(),
        ensures
            final(self).wf(),
            final(self).face_tokens() == old(self).face_tokens(),
            final(self).latest_token() == old(self).latest_token(),
            final(self).metric_events() == old(self).metric_events(),
            final(self).sent() == old(self).sent(),
            final(self).tables_view() == register_prefix_spec(
                old(self).tables_view(),
                name_prefix@,
                forward_to,
                cost,
            ),
    {
        self.tables.register_prefix(name_prefix, forward_to, cost)
    }

    /// Stops forwarding `name_prefix` to `forward_to`; returns whether it was.
    pub fn unregister_name_prefix_for_forwarding(
        &mut self,
        name_prefix: &Name,
        forward_to: FaceToken,
    ) -> (r: bool)
        requires
            old(self).wf(),
        ensures
            final(self).wf(),
            final(self).face_tokens() == old(self).face_tokens(),
            final(self).latest_token() == old(self).latest_token(),
            final(self).metric_events() == old(self).metric_events(),
            final(self).sent() == old(self).sent(),
            (final(self).tables_view(), r) == unregister_prefix_spec(
                old(self).tables_view(),
                name_prefix@,
                forward_to,
            ),
    {
        self.tables.unregister_prefix(name_prefix, forward_to)
    }

    /// Sends each packet to its face, where the face is there.
    fn send_all(&mut self, out: &Vec<Outgoing>)
        requires
            old(self).wf(),
        ensures
            final(self).wf(),
            final(self).face_tokens() == old(self).face_tokens(),
            final(self).tables == old(self).tables,
            final(self).latest_face_token == old(self).latest_face_token,
            final(self).last_checked_face == old(self).last_checked_face,
            final(self).metrics == old(self).metrics,
            final(self).sent@ == old(self).sent@ + deliverable(
                old(self).face_tokens(),
                outgoing_views(out@),
            ),
            forall|j: int|
                0 <= j < old(self).faces@.len() ==> (#[trigger] final(self).faces@[j]).recv_buffer
                    == old(self).faces@[j].recv_buffer && final(self).faces@[j].recv_cursor
                    == old(self).faces@[j].recv_cursor && final(self).faces@[j].received
                    == old(self).faces@[j].received && (old(self).faces@[j].should_close
                    ==> final(self).faces@[j].should_close),
    {
        let mut k: usize = 0;
        while k < out.len()
            invariant
                self.wf(),
                k <= out@.len(),
                self.face_tokens() == old(self).face_tokens(),
                self.faces@.len() == old(self).faces@.len(),
                self.tables == old(self).tables,
                self.latest_face_token == old(self).latest_face_token,
                self.last_checked_face == old(self).last_checked_face,
                self.metrics == old(self).metrics,
                self.sent@ == old(self).sent@ + deliverable(
                    old(self).face_tokens(),
                    outgoing_views(out@).take(k as int),
                ),
                forall|j: int|
                    0 <= j < old(self).faces@.len() ==> (#[trigger] self.faces@[j]).recv_buffer
                        == old(self).faces@[j].recv_buffer && self.faces@[j].recv_cursor
                        == old(self).faces@[j].recv_cursor && self.faces@[j].received
                        == old(self).faces@[j].received && (old(self).faces@[j].should_close
                        ==> self.faces@[j].should_close),
            decreases out@.len() - k,
        {
            let o = &out[k];
            let ghost prefix = outgoing_views(out@).take(k as int);
            assert(outgoing_views(out@).take(k + 1) =~= prefix.push((o.face, o.packet@)));
            assert(outgoing_views(out@).take(k + 1).drop_last() =~= prefix);
            match self.find_face(o.face) {
                Some(i) => {
                    let ghost before = self.faces@;
                    self.faces[i].send_whole_packet(o.packet.as_slice());
                    self.sent = Ghost(self.sent@.push((o.face, o.packet@)));
                    proof {
                        assert(self.faces@ == before.update(i as int, self.faces@[i as int]));
                        assert(self.face_tokens() =~= old(self).face_tokens());
                        assert forall|j: int| 0 <= j < self.faces@.len() implies (
                        #[trigger] self.faces@[j]).token <= self.latest_face_token
                            && self.faces@[j].token > 0 && self.faces@[j].wf() by {
                            if j != i {
                                assert(self.faces@[j] == before[j]);
                            }
                        }
                        assert forall|j: int| 0 <= j < old(self).faces@.len() implies (
                        #[trigger] self.faces@[j]).recv_buffer == old(self).faces@[j].recv_buffer
                            && self.faces@[j].recv_cursor == old(self).faces@[j].recv_cursor
                            && self.faces@[j].received == old(self).faces@[j].received && (
                        old(self).faces@[j].should_close ==> self.faces@[j].should_close) by {
                            if j != i {
                                assert(self.faces@[j] == before[j]);
                            }
                        }
                        assert(old(self).face_tokens().contains(o.face.0)) by {
                            assert(old(self).face_tokens()[i as int] == o.face.0);
                        }
                        assert(self.sent@ =~= old(self).sent@ + deliverable(
                            old(self).face_tokens(),
                            outgoing_views(out@).take(k + 1),
                        ));
                    }
                },
                None => {},
            }
            k = k + 1;
        }
        assert(outgoing_views(out@).take(k as int) =~= outgoing_views(out@));
    }

    /// Runs the framing loop once on the face at `index`: receives if no
    /// whole packet is buffered, then handles the packet at the front of the
    /// buffer. Returns whether a packet was handled.
    #[verifier::spinoff_prover]
    #[verifier::rlimit(60)]
    fn try_recv_from_face_at_index(&mut self, index: usize) -> (r: Result<bool, ForwarderError>)
        requires
            old(self).wf(),
            index < old(self).faces@.len(),
        ensures
            final(self).wf(),
            final(self).face_tokens() == old(self).face_tokens(),
            final(self).latest_token() == old(self).latest_token(),
            final(self).last_checked_face == old(self).last_checked_face,
            Self::recv_step(*old(self), *final(self), index as int, r),
    {
        let ghost a = *old(self);
        let origin = FaceToken(self.faces[index].token);
        assert(self.face_tokens()[index as int] == origin.0);
        if self.faces[index].should_close {
            return Err(ForwarderError::FaceDisconnected(origin));
        }
        let ghost buf = a.buffered(index as int);
        match self.check_buffered(index) {
            Err(e) => {
                return Err(ForwarderError::FaceUnrecoverableError(origin, e));
            },
            Ok(false) => {
                let r = self.frame_buffered(index);
                return r;
            },
            Ok(true) => {},
        }
        match self.receive_at(index) {
            Err(_) => {
                return Err(ForwarderError::FaceDisconnected(origin));
            },
            Ok(_) => {},
        }
        let ghost mid = *self;
        let r = self.frame_buffered(index);
        proof {
            Self::lemma_frame_step_base(a, mid, *self, index as int, mid.buffered(index as int), r);
            assert(Self::frame_step(a, *self, index as int, mid.buffered(index as int), r));
        }
        r
    }

    /// Whether the bytes buffered on the face at `index` need a receive:
    /// `Ok(false)` where a whole TLV stands at their front, `Ok(true)` where
    /// more bytes may still frame one, and the error where none can.
    fn check_buffered(&self, index: usize) -> (r: Result<bool, TlvDecodingError>)
        requires
            self.wf(),
            index < self.faces@.len(),
        ensures
            ({
                let buf = self.buffered(index as int);
                match r {
                    Ok(false) => tlv_parse(buf) is Ok,
                    Ok(true) => tlv_parse(buf) is Err && !framing_fails(
                        tlv_parse(buf)->Err_0,
                        buf.len(),
                    ),
                    Err(e) => tlv_parse(buf) == Err::<(u32, Seq<u8>, nat), TlvDecodingError>(e)
                        && framing_fails(e, buf.len()),
                }
            }),
    {
        let cursor = self.faces[index].recv_cursor;
        let ghost buf = self.buffered(index as int);
        let bytes = &self.faces[index].recv_buffer.as_slice()[0..cursor];
        assert(bytes@ =~= buf);
        match TLV::try_decode(bytes) {
            Ok(_) => Ok(false),
            Err(err) => {
                // A full buffer without a whole packet can never complete one.
                if too_large(err) || !crate::tlv::needs_more_bytes(err) || cursor
                    == MAX_PACKET_SIZE {
                    Err(err)
                } else {
                    Ok(true)
                }
            },
        }
    }

    /// Receives once into the free end of the buffer of the face at `index`;
    /// a disconnect marks the face to be closed.
    fn receive_at(&mut self, index: usize) -> (r: Result<usize, FaceError>)
        requires
            old(self).wf(),
            index < old(self).faces@.len(),
        ensures
            final(self).wf(),
            final(self).face_tokens() == old(self).face_tokens(),
            final(self).latest_token() == old(self).latest_token(),
            final(self).last_checked_face == old(self).last_checked_face,
            Self::same_tables_and_logs(*old(self), *final(self)),
            forall|j: int|
                0 <= j < old(self).face_tokens().len() && j != index ==> #[trigger] final(self).buffered(j)
                    == old(self).buffered(j) && final(self).closing(j) == old(self).closing(j)
                    && final(self).received(j) == old(self).received(j),
            r is Err ==> final(self).closing(index as int) && final(self).buffered(index as int)
                == old(self).buffered(index as int) && final(self).received(index as int)
                == old(self).received(index as int),
            r is Ok ==> ({
                let buf = old(self).buffered(index as int);
                let b2 = final(self).buffered(index as int);
                &&& final(self).closing(index as int) == old(self).closing(index as int)
                &&& buf.len() <= b2.len() <= MAX_PACKET_SIZE
                &&& b2.take(buf.len() as int) == buf
                &&& final(self).received(index as int) == old(self).received(index as int)
                    + b2.skip(buf.len() as int)
            }),
    {
        let ghost before = self.faces@;
        let cursor = self.faces[index].recv_cursor;
        let received = self.faces[index].try_recv();
        proof {
            assert(self.face_tokens() =~= old(self).face_tokens());
            assert forall|j: int| 0 <= j < self.faces@.len() implies (
            #[trigger] self.faces@[j]).token <= self.latest_face_token && self.faces@[j].token > 0
                && self.faces@[j].wf() by {
                if j != index {
                    assert(self.faces@[j] == before[j]);
                }
            }
            assert forall|j: int| 0 <= j < self.faces@.len() && j != index implies self.buffered(j)
                == old(self).buffered(j) && self.closing(j) == old(self).closing(j)
                && self.received(j) == old(self).received(j) by {
                assert(self.faces@[j] == before[j]);
            }
            assert(self.buffered(index as int).take(cursor as int) =~= old(self).buffered(
                index as int,
            ));
            if let Ok(k) = received {
                assert(self.buffered(index as int).skip(cursor as int)
                    =~= self.faces@[index as int].recv_buffer@.subrange(
                    cursor as int,
                    cursor + k,
                ));
            } else {
                assert(self.buffered(index as int) =~= old(self).buffered(index as int));
            }
        }
        if received.is_err() {
            let ghost before = self.faces@;
            self.faces[index].should_close = true;
            proof {
                assert(self.face_tokens() =~= old(self).face_tokens());
                assert forall|j: int| 0 <= j < self.faces@.len() implies (
                #[trigger] self.faces@[j]).token <= self.latest_face_token
                    && self.faces@[j].token > 0 && self.faces@[j].wf() by {
                    if j != index {
                        assert(self.faces@[j] == before[j]);
                    }
                }
                assert forall|j: int| 0 <= j < self.faces@.len() && j != index implies self.buffered(j)
                    == old(self).buffered(j) && self.closing(j) == old(self).closing(j)
                    && self.received(j) == old(self).received(j) by {
                    assert(self.faces@[j] == before[j]);
                }
            }
        }
        received
    }

    /// Frames the bytes buffered on the face at `index`, receiving nothing.
    fn frame_buffered(&mut self, index: usize) -> (r: Result<bool, ForwarderError>)
        requires
            old(self).wf(),
            index < old(self).faces@.len(),
        ensures
            final(self).wf(),
            final(self).face_tokens() == old(self).face_tokens(),
            final(self).latest_token() == old(self).latest_token(),
            final(self).last_checked_face == old(self).last_checked_face,
            final(self).received(index as int) == old(self).received(index as int),
            Self::frame_step(*old(self), *final(self), index as int, old(self).buffered(index as int), r),
            forall|j: int|
                0 <= j < old(self).face_tokens().len() && j != index ==> #[trigger] final(self).buffered(j)
                    == old(self).buffered(j) && (old(self).closing(j) ==> final(self).closing(j))
                    && final(self).received(j) == old(self).received(j),
    {
        let ghost a = *old(self);
        let origin = FaceToken(self.faces[index].token);
        assert(self.face_tokens()[index as int] == origin.0);
        let cursor = self.faces[index].recv_cursor;
        let ghost b2 = self.buffered(index as int);
        let ghost mid = *self;
        let now = self.clock.now();
        let ((out, handled), tlv_len) = {
            let buffered = &self.faces[index].recv_buffer.as_slice()[0..cursor];
            assert(buffered@ =~= b2);
            let (tlv, tlv_len) = match TLV::try_decode(buffered) {
                Ok(x) => x,
                Err(err) => {
                    // A full buffer without a whole packet can never complete one.
                    if too_large(err) || !crate::tlv::needs_more_bytes(err) || cursor
                        == MAX_PACKET_SIZE {
                        assert(Self::frame_step(
                            a,
                            *self,
                            index as int,
                            b2,
                            Err(ForwarderError::FaceUnrecoverableError(origin, err)),
                        ));
                        return Err(ForwarderError::FaceUnrecoverableError(origin, err));
                    }
                    assert(Self::frame_step(a, *self, index as int, b2, Ok(false)));
                    return Ok(false);
                },
            };
            proof {
                crate::tlv::lemma_tlv_parse_canonical(buffered@);
            }
            let packet = &buffered[0..tlv_len];
            assert(packet@ =~= b2.take(tlv_len as int));
            let mut out: Vec<Outgoing> = Vec::new();
            let mut handled = false;
            if tlv.typ == TLV_TYPE_INTEREST {
                match Interest::try_decode(tlv.val) {
                    Some(interest) => {
                        out = decide_interest(
                            &mut self.tables,
                            &mut self.metrics,
                            &interest,
                            packet,
                            origin,
                            now,
                        );
                        handled = true;
                    },
                    None => {
                        self.metrics.invalid_packet_received(origin);
                    },
                }
            } else if tlv.typ == TLV_TYPE_DATA {
                match Data::try_decode(tlv.val) {
                    Some(data) => {
                        out = decide_data(
                            &mut self.tables,
                            &mut self.metrics,
                            &data,
                            packet,
                            tlv.val,
                            origin,
                            now,
                        );
                        handled = true;
                    },
                    None => {
                        self.metrics.invalid_packet_received(origin);
                    },
                }
            } else {
                self.metrics.invalid_packet_received(origin);
            }
            proof {
                let (t, o, ev, h) = packet_decision(
                    mid.tables_view(),
                    tlv.typ,
                    tlv.val@,
                    b2.take(tlv_len as int),
                    origin,
                    now.ms_since_1970,
                );
                assert(self.tables@ == t);
                assert(outgoing_views(out@) == o);
                assert(self.metrics.events@ =~= mid.metric_events() + ev);
                assert(handled == h);
            }
            ((out, handled), tlv_len)
        };
        let ghost before = self.faces@;
        let ghost decided = *self;
        self.faces[index].consume(tlv_len);
        proof {
            assert(self.face_tokens() =~= old(self).face_tokens());
            assert forall|j: int| 0 <= j < self.faces@.len() implies (
            #[trigger] self.faces@[j]).token <= self.latest_face_token && self.faces@[j].token > 0
                && self.faces@[j].wf() by {
                if j != index {
                    assert(self.faces@[j] == before[j]);
                }
            }
            assert forall|j: int| 0 <= j < self.faces@.len() && j != index implies self.buffered(
                j,
            ) == decided.buffered(j) && self.closing(j) == decided.closing(j) && self.received(j)
                == decided.received(j) by {
                assert(self.faces@[j] == before[j]);
            }
            assert(self.buffered(index as int) =~= b2.skip(tlv_len as int));
        }
        let ghost consumed = *self;
        self.send_all(&out);
        proof {
            assert forall|j: int| 0 <= j < self.faces@.len() && j != index implies self.buffered(
                j,
            ) == a.buffered(j) && (a.closing(j) ==> self.closing(j)) && self.received(j)
                == a.received(j) by {
                assert(self.faces@[j].recv_buffer == consumed.faces@[j].recv_buffer);
            }
            assert(self.buffered(index as int) == consumed.buffered(index as int));
            assert(self.received(index as int) == mid.received(index as int));
            assert(Self::handled_front(a, *self, index as int, b2, now.ms_since_1970));
            assert(Self::frame_step(a, *self, index as int, b2, Ok(handled)));
        }
        Ok(handled)
    }

    /// Handles one packet from the face `face` (one step of the framing loop,
    /// see `recv_step`), then prunes the tables.
    pub fn try_forward_from_face(&mut self, face: FaceToken) -> (r: Result<(), ForwarderError>)
        requires
            old(self).wf(),
        ensures
            final(self).wf(),
            final(self).face_tokens() == old(self).face_tokens(),
            final(self).latest_token() == old(self).latest_token(),
            (r matches Err(ForwarderError::FaceNotfound)) <==> !old(self).face_tokens().contains(
                face.0,
            ),
            !old(self).face_tokens().contains(face.0) ==> exists|now: u64|
                Self::pruned(*old(self), *final(self), now),
            old(self).face_tokens().contains(face.0) ==> exists|
                i: int,
                mid: Self,
                step: Result<bool, ForwarderError>,
                now: u64,
            |
                0 <= i < old(self).face_tokens().len() && old(self).face_tokens()[i] == face.0
                    && #[trigger] Self::recv_step(*old(self), mid, i, step) && #[trigger] Self::pruned(
                    mid,
                    *final(self),
                    now,
                ) && r == step_result(step),
    {
        let ghost a = *old(self);
        let ghost mut step: Result<bool, ForwarderError> = Ok(false);
        let ghost mut at: int = 0;
        let ret = match self.find_face(face) {
            Some(index) => {
                let s = self.try_recv_from_face_at_index(index);
                proof {
                    step = s;
                    at = index as int;
                }
                match s {
                    Ok(true) => Ok(()),
                    Ok(false) => Err(ForwarderError::NothingToForward),
                    Err(e) => {
                        if let ForwarderError::FaceNotfound = e {
                            Err(ForwarderError::NothingToForward)
                        } else {
                            Err(e)
                        }
                    },
                }
            },
            None => Err(ForwarderError::FaceNotfound),
        };
        assert(a.face_tokens().contains(face.0) ==> ret == step_result(step) && Self::recv_step(
            a,
            *self,
            at,
            step,
        ) && 0 <= at < a.face_tokens().len() && a.face_tokens()[at] == face.0);
        let ghost mid = *self;
        let now = self.clock.now();
        self.tables.prune_if_needed(now);
        assert(Self::pruned(mid, *self, now.ms_since_1970));
        ret
    }

    /// Whether the face at `j` holds a whole packet that it would handle at
    /// the front of its buffer.
    pub open spec fn holds_packet(&self, j: int) -> bool {
        tlv_parse(self.buffered(j)) is Ok && packet_handled(
            tlv_parse(self.buffered(j))->Ok_0.0,
            tlv_parse(self.buffered(j))->Ok_0.1,
        )
    }

    /// Face symmetry at the forwarder: of the packets that handling a packet
    /// from a face hands to the senders, none goes back to that face, but
    /// for the one reply that the content store gives to an Interest.
    pub proof fn lemma_forwarder_face_symmetry(a: Self, b: Self, index: int, buf: Seq<u8>, now: u64)
        requires
            0 <= index < a.face_tokens().len(),
            Self::handled_front(a, b, index, buf, now),
        ensures
            forall|k: int|
                a.sent().len() <= k < b.sent().len() && (#[trigger] b.sent()[k]).0 == FaceToken(
                    a.face_tokens()[index],
                ) ==> b.sent().len() == a.sent().len() + 1 && tlv_parse(buf)->Ok_0.0
                    == TLV_TYPE_INTEREST,
    {
        let origin = FaceToken(a.face_tokens()[index]);
        let (typ, inner, n) = tlv_parse(buf)->Ok_0;
        let packet = buf.take(n as int);
        let t = a.tables_view();
        let out = packet_decision(t, typ, inner, packet, origin, now).1;
        let del = deliverable(a.face_tokens(), out);
        lemma_deliverable(a.face_tokens(), out);
        assert forall|k: int|
            a.sent().len() <= k < b.sent().len() && (#[trigger] b.sent()[k]).0 == origin implies b.sent().len()
            == a.sent().len() + 1 && typ == TLV_TYPE_INTEREST by {
            assert(b.sent()[k] == del[k - a.sent().len()]);
            let m = choose|m: int| 0 <= m < out.len() && #[trigger] out[m] == del[k - a.sent().len()];
            let iv = match interest_parse(inner) {
                Some(i) => i,
                None => arbitrary(),
            };
            let dv = match data_parse(inner) {
                Some(d) => d,
                None => arbitrary(),
            };
            lemma_face_symmetry(t, iv, dv, packet, inner, origin, now);
            if typ == TLV_TYPE_INTEREST && interest_parse(inner) is Some {
                let io = interest_decision(t, iv, packet, origin, now).1;
                assert(io[m].0 == origin);
            } else if typ == TLV_TYPE_DATA && data_parse(inner) is Some {
                let dout = data_decision(t, dv, packet, inner, origin, now).1;
                assert(dout[m].0 != origin);
            }
        }
    }

    /// A step of the framing loop keeps the buffers of the other faces.
    proof fn lemma_recv_step_frame(
        a: Self,
        b: Self,
        index: int,
        r: Result<bool, ForwarderError>,
        j: int,
    )
        requires
            Self::recv_step(a, b, index, r),
            0 <= j < a.face_tokens().len(),
            j != index,
        ensures
            b.buffered(j) == a.buffered(j),
            a.closing(j) ==> b.closing(j),
    {
        assert(b.buffered(j) == a.buffered(j));
    }

    /// A step of the framing loop that handled nothing found no face to
    /// close and no packet to handle, and changed no table or log.
    proof fn lemma_quiet_step(a: Self, b: Self, index: int)
        requires
            0 <= index < a.face_tokens().len(),
            Self::recv_step(a, b, index, Ok(false)),
        ensures
            !a.closing(index),
            !a.holds_packet(index),
            b.tables_view() == a.tables_view(),
            b.sent() == a.sent(),
    {
        let buf = a.buffered(index);
        if tlv_parse(buf) is Ok {
            let now = choose|now: u64| Self::handled_front(a, b, index, buf, now);
            assert(Self::handled_front(a, b, index, buf, now));
            assert(b.sent() =~= a.sent());
        } else if !Self::same_tables_and_logs(a, b) {
            let (b2, now) = choose|b2: Seq<u8>, now: u64|
                buf.len() <= b2.len() && b2.take(buf.len() as int) == buf && tlv_parse(b2) is Ok
                    && Ok::<bool, ForwarderError>(false) == Ok::<bool, ForwarderError>(
                    packet_handled(tlv_parse(b2)->Ok_0.0, tlv_parse(b2)->Ok_0.1),
                ) && #[trigger] Self::handled_front(a, b, index, b2, now);
            assert(Self::handled_front(a, b, index, b2, now));
            assert(b.sent() =~= a.sent());
        }
    }

    /// `states` are the forwarder before and after each step of a round
    /// over the faces of `a` that starts after its cursor, in turn
    /// (`rr_index`), and `steps` what each step returned: every step is a
    /// step of the framing loop (`recv_step`), and the round ends after all
    /// faces or at the first step that failed.
    pub open spec fn round(a: Self, states: Seq<Self>, steps: Seq<Result<bool, ForwarderError>>) -> bool {
        let n = a.face_tokens().len();
        let start = a.cursor() as int % n as int;
        &&& states.len() == steps.len() + 1
        &&& states[0] == a
        &&& steps.len() <= n
        &&& forall|k: int|
            0 <= k < steps.len() ==> Self::recv_step(
                #[trigger] states[k],
                states[k + 1],
                rr_index(start, n as int, k),
                steps[k],
            )
        &&& forall|k: int| 0 <= k < steps.len() - 1 ==> (#[trigger] steps[k]) is Ok
        &&& steps.len() < n ==> steps.len() > 0 && steps.last() is Err
    }

    /// What a round with these steps returns: the error of a step that
    /// failed; else the last face that handled a packet, if one did.
    pub open spec fn round_result(a: Self, steps: Seq<Result<bool, ForwarderError>>) -> Result<
        FaceToken,
        ForwarderError,
    > {
        let n = a.face_tokens().len();
        if steps.len() > 0 && steps.last() is Err {
            Err(steps.last()->Err_0)
        } else {
            match last_handled(steps, a.cursor() as int % n as int, n as int) {
                Some(i) => Ok(FaceToken(a.face_tokens()[i])),
                None => Err(ForwarderError::NothingToForward),
            }
        }
    }

    /// Visits each face once, round robin from the one after the last
    /// visited, taking one step of the framing loop on each (see `round`),
    /// then prunes the tables. Returns the last face that handled a packet;
    /// stops at the first face error.
    #[verifier::spinoff_prover]
    #[verifier::rlimit(80)]
    pub fn try_forward_from_any_face(&mut self) -> (r: Result<FaceToken, ForwarderError>)
        requires
            old(self).wf(),
        ensures
            final(self).wf(),
            final(self).face_tokens() == old(self).face_tokens(),
            final(self).latest_token() == old(self).latest_token(),
            old(self).face_tokens().len() == 0 ==> (r matches Err(ForwarderError::NothingToForward))
                && exists|now: u64| #[trigger] Self::pruned(*old(self), *final(self), now),
            old(self).face_tokens().len() > 0 ==> exists|
                states: Seq<Self>,
                steps: Seq<Result<bool, ForwarderError>>,
                now: u64,
            |
                #[trigger] Self::round(*old(self), states, steps) && #[trigger] Self::pruned(
                    states.last(),
                    *final(self),
                    now,
                ) && r == Self::round_result(*old(self), steps),
            old(self).face_tokens().len() > 0 && (r is Ok || r matches Err(
                ForwarderError::NothingToForward,
            )) ==> final(self).cursor() as int == old(self).cursor() as int % old(self).face_tokens().len() as int,
            r matches Err(ForwarderError::NothingToForward) ==> forall|j: int|
                #![trigger old(self).closing(j)]
                #![trigger old(self).holds_packet(j)]
                0 <= j < old(self).face_tokens().len() ==> !old(self).closing(j)
                    && !old(self).holds_packet(j),
    {
        let ghost a = *old(self);
        let mut ret: Result<FaceToken, ForwarderError> = Err(ForwarderError::NothingToForward);
        let n = self.faces.len();
        if n == 0 {
            let now = self.clock.now();
            self.tables.prune_if_needed(now);
            assert(Self::pruned(a, *self, now.ms_since_1970));
            return ret;
        }
        assert(a.face_tokens().len() == n);
        let start = self.last_checked_face % n;
        let ghost mut states: Seq<Self> = seq![a];
        let ghost mut steps: Seq<Result<bool, ForwarderError>> = Seq::empty();
        let mut k: usize = 0;
        while k < n
            invariant
                self.wf(),
                a == *old(self),
                0 <= start < n,
                start as int == a.cursor() as int % n as int,
                k <= n,
                n == self.faces@.len(),
                self.face_tokens() == a.face_tokens(),
                self.latest_token() == a.latest_token(),
                self.last_checked_face == a.last_checked_face,
                states.len() == k + 1,
                steps.len() == k,
                states[0] == a,
                states.last() == *self,
                forall|m: int|
                    0 <= m < k ==> Self::recv_step(
                        #[trigger] states[m],
                        states[m + 1],
                        rr_index(start as int, n as int, m),
                        steps[m],
                    ),
                forall|m: int| 0 <= m < k ==> (#[trigger] steps[m]) is Ok,
                ret == (match last_handled(steps, start as int, n as int) {
                    Some(i) => Ok(FaceToken(a.face_tokens()[i])),
                    None => Err(ForwarderError::NothingToForward),
                }),
                forall|j: int|
                    #![trigger self.buffered(j)]
                    #![trigger self.closing(j)]
                    0 <= j < n && rr_step(start as int, n as int, j) >= k ==> self.buffered(j)
                        == a.buffered(j) && (a.closing(j) ==> self.closing(j)),
                ret matches Err(ForwarderError::NothingToForward) ==> forall|j: int|
                    #![trigger a.closing(j)]
                    #![trigger a.holds_packet(j)]
                    0 <= j < n && rr_step(start as int, n as int, j) < k ==> !a.closing(j)
                        && !a.holds_packet(j),
            decreases n - k,
        {
            let index = if k < n - 1 - start {
                start + 1 + k
            } else {
                k - (n - 1 - start)
            };
            assert(index == rr_index(start as int, n as int, k as int));
            assert(rr_step(start as int, n as int, index as int) == k);
            let ghost head = *self;
            let step = self.try_recv_from_face_at_index(index);
            proof {
                let ghost old_steps = steps;
                let ghost old_states = states;
                states = states.push(*self);
                steps = steps.push(step);
                assert forall|m: int| 0 <= m < k + 1 implies Self::recv_step(
                    #[trigger] states[m],
                    states[m + 1],
                    rr_index(start as int, n as int, m),
                    steps[m],
                ) by {
                    if m < k {
                        assert(states[m] == old_states[m] && states[m + 1] == old_states[m + 1]);
                        assert(steps[m] == old_steps[m]);
                    }
                }
                assert(steps.drop_last() =~= old_steps);
                assert forall|j: int|
                    #![trigger self.buffered(j)]
                    #![trigger self.closing(j)]
                    0 <= j < n && rr_step(start as int, n as int, j) >= k + 1 implies self.buffered(j)
                        == a.buffered(j) && (a.closing(j) ==> self.closing(j)) by {
                    assert(head.buffered(j) == a.buffered(j));
                    assert(a.closing(j) ==> head.closing(j));
                    Self::lemma_recv_step_frame(head, *self, index as int, step, j);
                }
                if step == Ok::<bool, ForwarderError>(false) && ret matches Err(
                    ForwarderError::NothingToForward,
                ) {
                    assert(a.closing(index as int) ==> head.closing(index as int));
                    Self::lemma_quiet_step(head, *self, index as int);
                    assert(!a.closing(index as int));
                    assert(!a.holds_packet(index as int));
                    assert forall|j: int|
                        #![trigger a.closing(j)]
                        #![trigger a.holds_packet(j)]
                        0 <= j < n && rr_step(start as int, n as int, j) < k + 1 implies !a.closing(j)
                            && !a.holds_packet(j) by {
                        if rr_step(start as int, n as int, j) == k {
                            assert(j == index);
                        } else {
                            assert(rr_step(start as int, n as int, j) < k);
                        }
                    }
                }
            }
            match step {
                Ok(true) => {
                    assert(self.face_tokens()[index as int] == self.faces@[index as int].token);
                    ret = Ok(FaceToken(self.faces[index].token));
                },
                Ok(false) => {},
                Err(e) => {
                    self.last_checked_face = index;
                    let ghost stopped = *self;
                    let now = self.clock.now();
                    self.tables.prune_if_needed(now);
                    proof {
                        assert(Self::pruned(states.last(), *self, now.ms_since_1970));
                        assert(Self::round(a, states, steps));
                    }
                    return Err(e);
                },
            }
            k = k + 1;
        }
        proof {
            assert forall|j: int| 0 <= j < n implies rr_step(start as int, n as int, j) < n by {}
            assert(Self::round(a, states, steps));
        }
        self.last_checked_face = start;
        let now = self.clock.now();
        self.tables.prune_if_needed(now);
        assert(Self::pruned(states.last(), *self, now.ms_since_1970));
        ret
    }
}

/// What `deliverable` keeps is taken from `out`.
pub proof fn lemma_deliverable(tokens: Seq<u32>, out: Seq<(FaceToken, Seq<u8>)>)
    ensures
        deliverable(tokens, out).len() <= out.len(),
        forall|k: int|
            0 <= k < deliverable(tokens, out).len() ==> exists|m: int|
                0 <= m < out.len() && #[trigger] out[m] == #[trigger] deliverable(tokens, out)[k],
    decreases out.len(),
{
    if out.len() > 0 {
        lemma_deliverable(tokens, out.drop_last());
        let d0 = deliverable(tokens, out.drop_last());
        let d = deliverable(tokens, out);
        assert forall|k: int| 0 <= k < d.len() implies exists|m: int|
            0 <= m < out.len() && #[trigger] out[m] == #[trigger] d[k] by {
            if k < d0.len() {
                assert(d[k] == d0[k]);
                let m = choose|m: int| 0 <= m < out.drop_last().len() && out.drop_last()[m] == d0[k];
                assert(out[m] == d[k]);
            } else {
                assert(out[out.len() - 1] == d[k]);
            }
        }
    }
}

/// The face that a round of the faces `0..n` that starts after `start`
/// visits at step `k`.
pub open spec fn rr_index(start: int, n: int, k: int) -> int {
    if start + 1 + k < n {
        start + 1 + k
    } else {
        start + 1 + k - n
    }
}

/// The face that the last step among `steps` that handled a packet visited,
/// in a round that starts after `start`.
pub open spec fn last_handled(steps: Seq<Result<bool, ForwarderError>>, start: int, n: int) -> Option<
    int,
>
    decreases steps.len(),
{
    if steps.len() == 0 {
        None
    } else if steps.last() == Ok::<bool, ForwarderError>(true) {
        Some(rr_index(start, n, steps.len() - 1))
    } else {
        last_handled(steps.drop_last(), start, n)
    }
}

/// At which step a round of the faces `0..n` that starts after `start` visits
/// the face `j`.
pub open spec fn rr_step(start: int, n: int, j: int) -> int {
    if j > start {
        j - start - 1
    } else {
        j + n - start - 1
    }
}

/// What a driver does after trying a face that signalled it has bytes:
/// stops with the face or the error, or goes on where the face had nothing
/// or is gone.
pub fn signalled_outcome(face: FaceToken, r: Result<(), ForwarderError>) -> (o: Option<
    Result<FaceToken, ForwarderError>,
>)
    ensures
        o == match r {
            Ok(()) => Some(Ok::<FaceToken, ForwarderError>(face)),
            Err(ForwarderError::NothingToForward) => None,
            Err(ForwarderError::FaceNotfound) => None,
            Err(e) => Some(Err(e)),
        },
{
    match r {
        Ok(()) => Some(Ok(face)),
        Err(ForwarderError::NothingToForward) => None,
        Err(ForwarderError::FaceNotfound) => None,
        Err(e) => Some(Err(e)),
    }
}

/// What a driver does after a round over all faces: stops with its result,
/// or goes on to wait where no face had anything.
pub fn round_outcome(r: Result<FaceToken, ForwarderError>) -> (o: Option<
    Result<FaceToken, ForwarderError>,
>)
    ensures
        o == match r {
            Err(ForwarderError::NothingToForward) => None,
            _ => Some(r),
        },
{
    match r {
        Err(ForwarderError::NothingToForward) => None,
        _ => Some(r),
    }
}

/// What handling a packet from one face returns after a step of the framing
/// loop returned `step`.
pub open spec fn step_result(step: Result<bool, ForwarderError>) -> Result<(), ForwarderError> {
    match step {
        Ok(true) => Ok(()),
        Ok(false) => Err(ForwarderError::NothingToForward),
        Err(ForwarderError::FaceNotfound) => Err(ForwarderError::NothingToForward),
        Err(e) => Err(e),
    }
}

/// Whether framing fails for good on `len` buffered bytes that did not
/// decode with `e`: they are malformed, declare a packet larger than a
/// receive buffer, or fill the buffer.
pub open spec fn framing_fails(e: TlvDecodingError, len: nat) -> bool {
    ||| !tlv_error_needs_more(e)
    ||| (e matches TlvDecodingError::CannotDecodeValue { len: l, .. } && l > MAX_PACKET_SIZE)
    ||| len >= MAX_PACKET_SIZE
}

/// Whether a packet declares a length beyond what a receive buffer holds.
fn too_large(e: TlvDecodingError) -> (r: bool)
    ensures
        r == (e matches TlvDecodingError::CannotDecodeValue { len, .. } && len > MAX_PACKET_SIZE),
{
    match e {
        TlvDecodingError::CannotDecodeValue { len, .. } => len > MAX_PACKET_SIZE,
        _ => false,
    }
}

proof fn lemma_filter_absent(s: Seq<u32>, x: u32)
    requires
        !s.contains(x),
    ensures
        s.filter(|t: u32| t != x) == s,
    decreases s.len(),
{
    reveal(Seq::filter);
    if s.len() > 0 {
        assert(!s.drop_last().contains(x)) by {
            if s.drop_last().contains(x) {
                let j = choose|j: int| 0 <= j < s.drop_last().len() && s.drop_last()[j] == x;
                assert(s[j] == x);
            }
        }
        lemma_filter_absent(s.drop_last(), x);
        assert(s.last() != x) by {
            if s.last() == x {
                assert(s[s.len() - 1] == x);
            }
        }
        assert(s.drop_last().push(s.last()) =~= s);
    }
}

proof fn lemma_filter_remove_unique(s: Seq<u32>, i: int, x: u32)
    requires
        0 <= i < s.len(),
        s[i] == x,
        strictly_increasing(s),
    ensures
        s.filter(|t: u32| t != x) == s.remove(i),
    decreases s.len(),
{
    reveal(Seq::filter);
    if i == s.len() - 1 {
        assert(!s.drop_last().contains(x)) by {
            if s.drop_last().contains(x) {
                let j = choose|j: int| 0 <= j < s.drop_last().len() && s.drop_last()[j] == x;
                assert(s[j] == x && j < i);
            }
        }
        lemma_filter_absent(s.drop_last(), x);
        assert(s.remove(i) =~= s.drop_last());
    } else {
        assert(strictly_increasing(s.drop_last()));
        lemma_filter_remove_unique(s.drop_last(), i, x);
        assert(s.last() != x) by {
            assert(s[i] < s[s.len() - 1]);
        }
        assert(s.remove(i) =~= s.drop_last().remove(i).push(s.last()));
    }
}

} // verus!
