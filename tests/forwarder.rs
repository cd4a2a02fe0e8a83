use std::cell::{Cell, RefCell};
use std::collections::VecDeque;
use std::rc::Rc;

use ndn_forwarder::face::{FaceError, FaceReceiver, FaceSender, FaceToken};
use ndn_forwarder::forwarder::{
    round_outcome, signalled_outcome, Forwarder, ForwarderError, ForwarderMetrics,
};
use ndn_forwarder::io::Encode;
use ndn_forwarder::name::{Name, NameComponent};
use ndn_forwarder::tables::Tables;
use ndn_forwarder::timestamp::{Clock, Timestamp};

#[derive(Clone, Default)]
struct Wire {
    sent: Rc<RefCell<Vec<Vec<u8>>>>,
    incoming: Rc<RefCell<VecDeque<u8>>>,
}

struct Sink {
    wire: Wire,
    pending: Vec<u8>,
}

struct Source {
    wire: Wire,
}

impl FaceSender for Sink {
    fn try_send(&mut self, src: &[u8]) -> Result<usize, FaceError> {
        self.pending.extend_from_slice(src);
        Ok(src.len())
    }

    fn flush(&mut self) -> Result<(), FaceError> {
        let packet = std::mem::take(&mut self.pending);
        self.wire.sent.borrow_mut().push(packet);
        Ok(())
    }
}

impl FaceReceiver for Source {
    fn try_recv(&mut self, dst: &mut [u8]) -> Result<usize, FaceError> {
        let mut q = self.wire.incoming.borrow_mut();
        let mut n = 0;
        while n < dst.len() {
            match q.pop_front() {
                Some(b) => {
                    dst[n] = b;
                    n += 1;
                }
                None => break,
            }
        }
        Ok(n)
    }
}

#[derive(Clone)]
struct TestClock(Rc<Cell<u64>>);

impl Clock for TestClock {
    fn now(&mut self) -> Timestamp {
        Timestamp { ms_since_1970: self.0.get() }
    }
}

#[derive(Clone, Default)]
struct Counts {
    interests_dropped: Rc<Cell<u32>>,
}

impl ForwarderMetrics for Counts {
    fn interest_received(&mut self, _: FaceToken) {}
    fn interest_dropped(&mut self, _: FaceToken) {
        self.interests_dropped.set(self.interests_dropped.get() + 1);
    }
    fn interest_satisfied(&mut self, _: FaceToken) {}
    fn interest_sent(&mut self, _: FaceToken) {}
    fn data_received(&mut self, _: FaceToken) {}
    fn data_sent(&mut self, _: FaceToken) {}
    fn data_dropped(&mut self, _: FaceToken) {}
    fn invalid_packet_received(&mut self, _: FaceToken) {}
}

type TestForwarder = Forwarder<TestClock, Counts, Sink, Source>;

fn setup(n_faces: usize) -> (TestForwarder, Vec<(FaceToken, Wire)>, Rc<Cell<u64>>, Counts) {
    let time = Rc::new(Cell::new(1000));
    let counts = Counts::default();
    let mut fw = Forwarder::new(TestClock(time.clone()), counts.clone(), Tables::new(10000, 6000));
    let mut faces = Vec::new();
    for _ in 0..n_faces {
        let wire = Wire::default();
        let token = fw
            .add_face(Sink { wire: wire.clone(), pending: Vec::new() }, Source { wire: wire.clone() })
            .unwrap();
        faces.push((token, wire));
    }
    (fw, faces, time, counts)
}

fn inject(wire: &Wire, bytes: &[u8]) {
    wire.incoming.borrow_mut().extend(bytes.iter().copied());
}

fn sent(wire: &Wire) -> Vec<Vec<u8>> {
    wire.sent.borrow().clone()
}

const INTEREST_A: [u8; 13] = [5, 11, 7, 3, 8, 1, b'A', 10, 4, 1, 2, 3, 4];
const DATA_A: [u8; 18] = [
    6, 16, 7, 3, 8, 1, b'A', 21, 2, b'h', b'i', 22, 3, 27, 1, 0, 23, 0,
];

fn name_a(bytes: &[u8]) -> Name<'_> {
    Name::try_decode(bytes).unwrap()
}

#[test]
fn decode_trivial_name() {
    let inner = [8, 5, b'h', b'e', b'l', b'l', b'o'];
    let name = Name::try_decode(&inner).unwrap();
    assert_eq!(name.component_count(), 1);
    let comp = name.components()[0];
    assert_eq!(comp.typ, NameComponent::TYPE_GENERIC);
    assert_eq!(comp.bytes, b"hello");
    let mut buf: Vec<u8> = Vec::new();
    name.encode(&mut buf).unwrap();
    assert_eq!(buf, vec![7, 7, 8, 5, b'h', b'e', b'l', b'l', b'o']);
}

#[test]
fn forward_interest_multicast() {
    let (mut fw, faces, _time, _counts) = setup(3);
    let a = [8, 1, b'A'];
    fw.register_name_prefix_for_forwarding(&name_a(&a), faces[1].0, 10);
    fw.register_name_prefix_for_forwarding(&name_a(&a), faces[2].0, 10);
    inject(&faces[0].1, &INTEREST_A);
    assert!(fw.try_forward_from_face(faces[0].0).is_ok());
    let to_f2 = sent(&faces[1].1);
    let to_f3 = sent(&faces[2].1);
    assert_eq!(to_f2.len() + to_f3.len(), 1);
    let forwarded = if to_f2.len() == 1 { &to_f2[0] } else { &to_f3[0] };
    assert_eq!(forwarded.as_slice(), &INTEREST_A[..]);
    assert!(sent(&faces[0].1).is_empty());
}

#[test]
fn loop_suppression() {
    let (mut fw, faces, _time, counts) = setup(3);
    let a = [8, 1, b'A'];
    fw.register_name_prefix_for_forwarding(&name_a(&a), faces[1].0, 10);
    fw.register_name_prefix_for_forwarding(&name_a(&a), faces[2].0, 10);
    inject(&faces[0].1, &INTEREST_A);
    fw.try_forward_from_face(faces[0].0).unwrap();
    let before: usize = faces.iter().map(|f| sent(&f.1).len()).sum();
    let drops = counts.interests_dropped.get();
    inject(&faces[1].1, &INTEREST_A);
    fw.try_forward_from_face(faces[1].0).unwrap();
    let after: usize = faces.iter().map(|f| sent(&f.1).len()).sum();
    assert_eq!(before, after);
    assert_eq!(counts.interests_dropped.get(), drops + 1);
}

#[test]
fn satisfy_data() {
    let (mut fw, faces, _time, _counts) = setup(3);
    let a = [8, 1, b'A'];
    fw.register_name_prefix_for_forwarding(&name_a(&a), faces[1].0, 10);
    inject(&faces[0].1, &INTEREST_A);
    fw.try_forward_from_face(faces[0].0).unwrap();
    assert_eq!(sent(&faces[1].1).len(), 1);

    inject(&faces[1].1, &DATA_A);
    fw.try_forward_from_face(faces[1].0).unwrap();
    let to_f1 = sent(&faces[0].1);
    assert_eq!(to_f1.len(), 1);
    assert_eq!(to_f1[0].as_slice(), &DATA_A[..]);
    // Never back to where the Data came from.
    assert_eq!(sent(&faces[1].1).len(), 1);

    // The Data is now cached: a later Interest from another face is answered from the store.
    let interest_a2 = [5, 11, 7, 3, 8, 1, b'A', 10, 4, 5, 6, 7, 8];
    inject(&faces[2].1, &interest_a2);
    fw.try_forward_from_face(faces[2].0).unwrap();
    let to_f3 = sent(&faces[2].1);
    assert_eq!(to_f3.len(), 1);
    assert_eq!(to_f3[0].as_slice(), &DATA_A[..]);

    // The satisfied nonce is dead: the same Interest again is not forwarded.
    inject(&faces[0].1, &INTEREST_A);
    fw.try_forward_from_face(faces[0].0).unwrap();
    assert_eq!(sent(&faces[1].1).len(), 1);
}

#[test]
fn unsolicited_data_is_dropped() {
    let (mut fw, faces, _time, _counts) = setup(2);
    inject(&faces[1].1, &DATA_A);
    fw.try_forward_from_face(faces[1].0).unwrap();
    assert!(sent(&faces[0].1).is_empty());
    // Not cached either.
    inject(&faces[0].1, &INTEREST_A);
    fw.try_forward_from_face(faces[0].0).unwrap();
    assert!(sent(&faces[0].1).is_empty());
}

#[test]
fn hop_limit_decrement() {
    let (mut fw, faces, _time, counts) = setup(2);
    let b = [8, 1, b'B'];
    fw.register_name_prefix_for_forwarding(&name_a(&b), faces[1].0, 1);
    let interest = [5, 14, 7, 3, 8, 1, b'B', 10, 4, 9, 9, 9, 9, 34, 1, 2];
    inject(&faces[0].1, &interest);
    fw.try_forward_from_face(faces[0].0).unwrap();
    let to_f2 = sent(&faces[1].1);
    assert_eq!(to_f2.len(), 1);
    let mut expected = interest.to_vec();
    expected[15] = 1;
    assert_eq!(to_f2[0], expected);

    let drops = counts.interests_dropped.get();
    let last_hop = [5, 14, 7, 3, 8, 1, b'B', 10, 4, 8, 8, 8, 8, 34, 1, 1];
    inject(&faces[0].1, &last_hop);
    fw.try_forward_from_face(faces[0].0).unwrap();
    assert_eq!(sent(&faces[1].1).len(), 1);
    assert_eq!(counts.interests_dropped.get(), drops + 1);

    // A hop limit of zero is dropped too.
    let zero = [5, 14, 7, 3, 8, 1, b'B', 10, 4, 7, 7, 7, 7, 34, 1, 0];
    inject(&faces[0].1, &zero);
    fw.try_forward_from_face(faces[0].0).unwrap();
    assert_eq!(sent(&faces[1].1).len(), 1);
}

#[test]
fn freshness_filtering() {
    let mut tables = Tables::new(1000, 1000);
    let c = [8, 1, b'C'];
    let name = name_a(&c);
    let digest = [7u8; 32];
    let packet = [1u8, 2, 3];
    tables.insert_data(&name, &digest, 10, Timestamp { ms_since_1970: 0 }, &packet);
    let at = |ms| Timestamp { ms_since_1970: ms };
    assert_eq!(tables.get_data(&name, false, true, at(5)), Some(packet.to_vec()));
    assert_eq!(tables.get_data(&name, false, true, at(15)), None);
    assert_eq!(tables.get_data(&name, false, false, at(15)), Some(packet.to_vec()));
    // By its full name as well, and as a prefix.
    let full = name.adding_component(NameComponent::new_implicit(&digest));
    assert_eq!(tables.get_data(&full, false, false, at(15)), Some(packet.to_vec()));
    assert_eq!(tables.get_data(&Name::new(), true, false, at(15)), Some(packet.to_vec()));
}

#[test]
fn fib_registration_is_idempotent_and_ordered() {
    let mut tables = Tables::new(1000, 1000);
    let a = [8, 1, b'A'];
    let name = name_a(&a);
    tables.register_prefix(&name, FaceToken(2), 5);
    tables.register_prefix(&name, FaceToken(3), 1);
    tables.register_prefix(&name, FaceToken(3), 1);
    let now = Timestamp { ms_since_1970: 100 };
    // The lowest cost has the highest priority: a new Interest goes there.
    let hops = tables.register_interest(&name, false, None, [1, 1, 1, 1], FaceToken(1), now);
    assert_eq!(hops, vec![FaceToken(3)]);
    assert!(tables.unregister_prefix(&name, FaceToken(3)));
    assert!(!tables.unregister_prefix(&name, FaceToken(3)));
}

#[test]
fn retransmission_backoff() {
    let mut tables = Tables::new(1000, 1000);
    let a = [8, 1, b'A'];
    let name = name_a(&a);
    tables.register_prefix(&name, FaceToken(2), 1);
    tables.register_prefix(&name, FaceToken(3), 2);
    let at = |ms| Timestamp { ms_since_1970: ms };
    let first = tables.register_interest(&name, false, None, [1, 0, 0, 0], FaceToken(1), at(100));
    assert_eq!(first, vec![FaceToken(2)]);
    // After one transmission the back-off is 16 ms.
    let early = tables.register_interest(&name, false, None, [2, 0, 0, 0], FaceToken(1), at(115));
    assert!(early.is_empty());
    let later = tables.register_interest(&name, false, None, [3, 0, 0, 0], FaceToken(1), at(116));
    assert_eq!(later.len(), 1);
    // Then 32 ms after that.
    let early = tables.register_interest(&name, false, None, [4, 0, 0, 0], FaceToken(1), at(147));
    assert!(early.is_empty());
    let later = tables.register_interest(&name, false, None, [5, 0, 0, 0], FaceToken(1), at(148));
    assert_eq!(later.len(), 1);
}

#[test]
fn pit_loop_and_drain() {
    let mut tables = Tables::new(1000, 1000);
    let a = [8, 1, b'A'];
    let name = name_a(&a);
    tables.register_prefix(&name, FaceToken(2), 1);
    let now = Timestamp { ms_since_1970: 10 };
    assert_eq!(tables.register_interest(&name, false, None, [4, 3, 2, 1], FaceToken(1), now).len(), 1);
    assert!(tables.register_interest(&name, false, None, [4, 3, 2, 1], FaceToken(3), now).is_empty());
    let faces = tables.satisfy_interests(&name, now, None);
    assert_eq!(faces, vec![FaceToken(1)]);
    // Drained: nothing left to satisfy; the nonce is dead.
    assert!(tables.satisfy_interests(&name, now, None).is_empty());
    let later = Timestamp { ms_since_1970: 500 };
    assert!(tables.register_interest(&name, false, None, [4, 3, 2, 1], FaceToken(1), later).is_empty());
}

#[test]
fn pruning_forgets_expired_state() {
    let mut tables = Tables::new(100, 50);
    let a = [8, 1, b'A'];
    let name = name_a(&a);
    tables.register_prefix(&name, FaceToken(2), 1);
    let t0 = Timestamp { ms_since_1970: 0 };
    assert_eq!(tables.register_interest(&name, false, Some(20), [1, 1, 1, 1], FaceToken(1), t0).len(), 1);
    tables.insert_data(&name, &[9u8; 32], 0, t0, &[1, 2]);
    // At 30 ms the PIT entry has expired: its nonce is dead for a while.
    tables.prune_if_needed(Timestamp { ms_since_1970: 30 });
    assert!(tables.satisfy_interests(&name, Timestamp { ms_since_1970: 31 }, None).is_empty());
    assert!(tables.register_interest(&name, false, Some(20), [1, 1, 1, 1], FaceToken(1), Timestamp { ms_since_1970: 40 }).is_empty());
    // Much later the cached Data and the dead nonce are gone.
    tables.prune_if_needed(Timestamp { ms_since_1970: 1000 });
    assert_eq!(tables.get_data(&name, true, false, Timestamp { ms_since_1970: 1001 }), None);
    assert_eq!(tables.register_interest(&name, false, Some(20), [1, 1, 1, 1], FaceToken(1), Timestamp { ms_since_1970: 1002 }).len(), 1);
}

#[test]
fn faces_get_increasing_tokens() {
    let (mut fw, faces, _time, _counts) = setup(3);
    assert_eq!(faces[0].0, FaceToken(1));
    assert_eq!(faces[1].0, FaceToken(2));
    assert_eq!(faces[2].0, FaceToken(3));
    assert!(fw.remove_face(faces[1].0));
    assert!(!fw.remove_face(faces[1].0));
    assert_eq!(fw.next_face_token(), Some(FaceToken(4)));
    assert!(matches!(fw.try_forward_from_face(faces[1].0), Err(ForwarderError::FaceNotfound)));
    assert!(matches!(fw.try_forward_from_face(faces[0].0), Err(ForwarderError::NothingToForward)));
}

#[test]
fn round_robin_over_faces() {
    let (mut fw, faces, _time, _counts) = setup(2);
    assert!(matches!(fw.try_forward_from_any_face(), Err(ForwarderError::NothingToForward)));
    let a = [8, 1, b'A'];
    fw.register_name_prefix_for_forwarding(&name_a(&a), faces[1].0, 1);
    inject(&faces[0].1, &INTEREST_A);
    assert_eq!(fw.try_forward_from_any_face().ok(), Some(faces[0].0));
    assert_eq!(sent(&faces[1].1).len(), 1);
}

#[test]
fn packets_split_across_reads() {
    let (mut fw, faces, _time, _counts) = setup(2);
    let a = [8, 1, b'A'];
    fw.register_name_prefix_for_forwarding(&name_a(&a), faces[1].0, 1);
    inject(&faces[0].1, &INTEREST_A[..4]);
    assert!(matches!(fw.try_forward_from_face(faces[0].0), Err(ForwarderError::NothingToForward)));
    inject(&faces[0].1, &INTEREST_A[4..]);
    assert!(fw.try_forward_from_face(faces[0].0).is_ok());
    assert_eq!(sent(&faces[1].1).len(), 1);
    // A packet that declares more than a face buffer holds is unrecoverable.
    inject(&faces[0].1, &[5, 253, 0xFF, 0xFF]);
    assert!(matches!(
        fw.try_forward_from_face(faces[0].0),
        Err(ForwarderError::FaceUnrecoverableError(_, _))
    ));
}

#[test]
fn loop_suppressed_across_can_be_prefix() {
    let mut tables = Tables::new(1000, 1000);
    let a = [8, 1, b'A'];
    let name = name_a(&a);
    tables.register_prefix(&name, FaceToken(2), 1);
    let now = Timestamp { ms_since_1970: 10 };
    assert_eq!(tables.register_interest(&name, false, None, [4, 3, 2, 1], FaceToken(1), now).len(), 1);
    let later = Timestamp { ms_since_1970: 400 };
    assert!(tables.register_interest(&name, true, None, [4, 3, 2, 1], FaceToken(3), later).is_empty());
    assert!(tables.register_interest(&name, false, None, [4, 3, 2, 1], FaceToken(3), later).is_empty());
    // The other way round.
    assert_eq!(tables.register_interest(&name, true, None, [5, 5, 5, 5], FaceToken(1), later).len(), 1);
    assert!(tables.register_interest(&name, false, None, [5, 5, 5, 5], FaceToken(3), later).is_empty());
}

#[test]
fn looped_interest_is_counted_as_dropped() {
    let (mut fw, faces, _time, counts) = setup(3);
    let a = [8, 1, b'A'];
    fw.register_name_prefix_for_forwarding(&name_a(&a), faces[1].0, 10);
    inject(&faces[0].1, &INTEREST_A);
    fw.try_forward_from_face(faces[0].0).unwrap();
    assert_eq!(counts.interests_dropped.get(), 0);
    inject(&faces[2].1, &INTEREST_A);
    fw.try_forward_from_face(faces[2].0).unwrap();
    assert_eq!(counts.interests_dropped.get(), 1);
    assert_eq!(sent(&faces[1].1).len(), 1);
    assert!(sent(&faces[2].1).is_empty());
}

#[test]
fn buffered_packets_are_handled_one_per_call() {
    let (mut fw, faces, _time, _counts) = setup(2);
    let a = [8, 1, b'A'];
    fw.register_name_prefix_for_forwarding(&name_a(&a), faces[1].0, 1);
    let mut two = INTEREST_A.to_vec();
    let mut second = INTEREST_A;
    second[12] = 5;
    two.extend_from_slice(&second);
    inject(&faces[0].1, &two);
    assert!(fw.try_forward_from_face(faces[0].0).is_ok());
    // The second packet is already buffered: it is handled without new bytes.
    assert!(fw.try_forward_from_face(faces[0].0).is_ok());
    assert!(matches!(fw.try_forward_from_face(faces[0].0), Err(ForwarderError::NothingToForward)));
    assert!(sent(&faces[0].1).is_empty());
}

#[test]
fn refresh_without_next_hop_keeps_pit_current() {
    let mut tables = Tables::new(1000, 1000);
    let a = [8, 1, b'A'];
    let name = name_a(&a);
    let at = |ms: u64| Timestamp { ms_since_1970: ms };
    tables.register_prefix(&name, FaceToken(2), 1);
    assert_eq!(tables.register_interest(&name, false, None, [1, 1, 1, 1], FaceToken(1), at(10)).len(), 1);
    assert!(tables.unregister_prefix(&name, FaceToken(2)));
    // No next hop: the new nonce is taken in but not forwarded.
    assert!(tables.register_interest(&name, false, None, [2, 2, 2, 2], FaceToken(1), at(20)).is_empty());
    tables.register_prefix(&name, FaceToken(2), 1);
    // The new nonce is pending and the prior one is dead.
    assert!(tables.register_interest(&name, false, None, [2, 2, 2, 2], FaceToken(3), at(30)).is_empty());
    assert!(tables.register_interest(&name, false, None, [1, 1, 1, 1], FaceToken(3), at(30)).is_empty());
    assert_eq!(tables.satisfy_interests(&name, at(31), None), vec![FaceToken(1)]);
}

#[test]
fn oversized_packet_stays_unrecoverable() {
    let (mut fw, faces, _time, _counts) = setup(1);
    inject(&faces[0].1, &[5, 253, 0x30, 0x00]);
    assert!(matches!(
        fw.try_forward_from_face(faces[0].0),
        Err(ForwarderError::FaceUnrecoverableError(_, _))
    ));
    // Still buffered: it fails again without waiting for more bytes.
    assert!(matches!(
        fw.try_forward_from_face(faces[0].0),
        Err(ForwarderError::FaceUnrecoverableError(_, _))
    ));
    assert!(matches!(
        fw.try_forward_from_any_face(),
        Err(ForwarderError::FaceUnrecoverableError(_, _))
    ));
}

#[test]
fn driver_decisions() {
    let f = FaceToken(3);
    assert!(matches!(signalled_outcome(f, Ok(())), Some(Ok(FaceToken(3)))));
    assert!(signalled_outcome(f, Err(ForwarderError::NothingToForward)).is_none());
    assert!(signalled_outcome(f, Err(ForwarderError::FaceNotfound)).is_none());
    assert!(matches!(
        signalled_outcome(f, Err(ForwarderError::FaceDisconnected(f))),
        Some(Err(ForwarderError::FaceDisconnected(FaceToken(3))))
    ));
    assert!(round_outcome(Err(ForwarderError::NothingToForward)).is_none());
    assert!(matches!(round_outcome(Ok(f)), Some(Ok(FaceToken(3)))));
    assert!(matches!(
        round_outcome(Err(ForwarderError::FaceDisconnected(f))),
        Some(Err(ForwarderError::FaceDisconnected(_)))
    ));
}
