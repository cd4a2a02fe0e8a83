use std::collections::VecDeque;

use ndn_forwarder::buffered::{
    default_buffered_receiver, BufferedFaceReceiver, BufferedRecvError, BufferedReceiver,
};
use ndn_forwarder::face::{FaceError, FaceReceiver, RingBuffer};
use ndn_forwarder::name::{Name, NameComponent};

struct Chunks(VecDeque<Vec<u8>>);

impl FaceReceiver for Chunks {
    fn try_recv(&mut self, dst: &mut [u8]) -> Result<usize, FaceError> {
        match self.0.pop_front() {
            Some(c) => {
                let n = c.len().min(dst.len());
                dst[..n].copy_from_slice(&c[..n]);
                if n < c.len() {
                    self.0.push_front(c[n..].to_vec());
                }
                Ok(n)
            }
            None => Err(FaceError::Disconnected),
        }
    }
}

#[test]
fn ring_buffer_wraps_around() {
    let mut ring: RingBuffer<8> = RingBuffer::new();
    // Seven bytes fit in a ring of eight.
    assert_eq!(ring.write(&[1, 2, 3, 4, 5, 6, 7, 8, 9]), 7);
    let mut out = [0u8; 5];
    assert_eq!(ring.read(&mut out), 5);
    assert_eq!(out, [1, 2, 3, 4, 5]);
    assert_eq!(ring.write(&[10, 11, 12, 13, 14, 15]), 5);
    let mut out = [0u8; 10];
    assert_eq!(ring.read(&mut out), 7);
    assert_eq!(&out[..7], &[6, 7, 10, 11, 12, 13, 14]);
    assert_eq!(ring.read(&mut out), 0);
    assert_eq!(ring.write(&[]), 0);
}

#[test]
fn buffered_receiver_frames_packets() {
    let chunks = Chunks(VecDeque::from(vec![vec![5, 3, 7], vec![1, 8, 6, 0], vec![]]));
    let mut rx: BufferedReceiver<Chunks, 64> = BufferedReceiver::new(chunks);
    assert!(matches!(rx.try_recv(), Err(BufferedRecvError::NothingReceived)));
    assert_eq!(rx.try_recv().unwrap(), 5);
    assert_eq!(rx.packet(), &[5, 3, 7, 1, 8]);
    // The second packet is already buffered.
    assert_eq!(rx.try_recv().unwrap(), 2);
    assert_eq!(rx.packet(), &[6, 0]);
    assert!(matches!(rx.try_recv(), Err(BufferedRecvError::FaceError(FaceError::Disconnected))));
}

#[test]
fn buffered_receiver_rejects_oversized_and_malformed() {
    let chunks = Chunks(VecDeque::from(vec![vec![5, 253, 0x10, 0x00]]));
    let mut rx: BufferedReceiver<Chunks, 64> = BufferedReceiver::new(chunks);
    assert!(matches!(rx.try_recv(), Err(BufferedRecvError::TlvTooBig(4096))));

    let chunks = Chunks(VecDeque::from(vec![vec![0, 1, 2]]));
    let mut rx = default_buffered_receiver(chunks);
    assert!(matches!(rx.try_recv(), Err(BufferedRecvError::DecodingError(_))));
}

#[test]
fn name_extension_by_batch() {
    let inner = [8, 1, b'a', 8, 1, b'b'];
    let name = Name::try_decode(&inner).unwrap();
    let batch = [NameComponent::new_generic(b"c"), NameComponent::new_implicit(b"dd")];
    let extended = name.adding(&batch);
    let comps = extended.components();
    assert_eq!(comps.len(), 4);
    let got: Vec<(u16, &[u8])> = comps.iter().map(|c| (c.typ, c.bytes)).collect();
    assert_eq!(got, vec![(8, &b"a"[..]), (8, &b"b"[..]), (8, &b"c"[..]), (1, &b"dd"[..])]);
    assert_eq!(name.adding(&[]).component_count(), 2);
}
