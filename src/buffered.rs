use vstd::prelude::*;

use crate::face::{FaceError, FaceReceiver};
use crate::forwarder::MAX_PACKET_SIZE;
use crate::io::Decode;
use crate::tlv::{tlv_parse, TlvDecodingError, TLV};

verus! {

#[derive(Clone, Copy, Debug)]
pub enum BufferedRecvError {
    NothingReceived,
    TlvTooBig(usize),
    DecodingError(TlvDecodingError),
    FaceError(FaceError),
}

/// A receiver that hands out whole TLVs.
pub trait BufferedFaceReceiver {
    /// Receives what is ready and frames the TLV at the front of the buffer;
    /// returns its length (see `packet` on the receiver).
    fn try_recv(&mut self) -> Result<usize, BufferedRecvError>;
}

/// Frames the bytes of a face receiver into TLVs, in a buffer of `CAPACITY` bytes.
pub struct BufferedReceiver<FR, const CAPACITY: usize> {
    receiver: FR,
    buffer: Vec<u8>,
    cursor: usize,
    pending: usize,
}

impl<FR: FaceReceiver, const CAPACITY: usize> BufferedReceiver<FR, CAPACITY> {
    pub closed spec fn wf(&self) -> bool {
        &&& self.buffer@.len() == CAPACITY
        &&& self.pending <= self.cursor <= CAPACITY
    }

    /// The buffered bytes that have not been handed out.
    pub closed spec fn buffered(&self) -> Seq<u8> {
        self.buffer@.subrange(self.pending as int, self.cursor as int)
    }

    /// The last TLV handed out, if any.
    pub closed spec fn last_packet(&self) -> Seq<u8> {
        self.buffer@.take(self.pending as int)
    }

    /// All buffered bytes, the last TLV handed out first.
    pub closed spec fn received(&self) -> Seq<u8> {
        self.buffer@.take(self.cursor as int)
    }

    pub fn new(receiver: FR) -> (r: Self)
        ensures
            r.wf(),
            r.buffered().len() == 0,
            r.last_packet().len() == 0,
    {
        let mut buffer: Vec<u8> = Vec::new();
        let mut i: usize = 0;
        while i < CAPACITY
            invariant
                i <= CAPACITY,
                buffer@.len() == i,
            decreases CAPACITY - i,
        {
            buffer.push(0);
            i = i + 1;
        }
        BufferedReceiver { receiver, buffer, cursor: 0, pending: 0 }
    }

    /// The bytes of the last TLV handed out.
    pub fn packet(&self) -> (r: &[u8])
        requires
            self.wf(),
        ensures
            r@ == self.last_packet(),
    {
        &self.buffer.as_slice()[0..self.pending]
    }

    /// Drops the bytes of the last TLV handed out.
    fn drop_pending(&mut self)
        requires
            old(self).wf(),
        ensures
            final(self).wf(),
            final(self).pending == 0,
            final(self).buffered() == old(self).buffered(),
    {
        let len = self.pending;
        let rest = self.cursor - len;
        let mut j: usize = 0;
        while j < rest
            invariant
                rest == old(self).cursor - len,
                len == old(self).pending,
                len <= old(self).cursor <= CAPACITY,
                j <= rest,
                self.buffer@.len() == CAPACITY,
                self.cursor == old(self).cursor,
                self.pending == old(self).pending,
                forall|m: int| 0 <= m < j ==> self.buffer@[m] == old(self).buffer@[m + len],
                forall|m: int| j <= m < CAPACITY ==> self.buffer@[m] == old(self).buffer@[m],
            decreases rest - j,
        {
            let b = self.buffer[j + len];
            self.buffer.set(j, b);
            j = j + 1;
        }
        self.cursor = rest;
        self.pending = 0;
        assert(self.buffered() =~= old(self).buffered());
    }
}

/// The default buffered receiver: one packet of the largest size a face takes.
pub fn default_buffered_receiver<FR: FaceReceiver>(receiver: FR) -> (r: BufferedReceiver<
    FR,
    MAX_PACKET_SIZE,
>)
    ensures
        r.wf(),
        r.buffered().len() == 0,
{
    BufferedReceiver::new(receiver)
}

impl<FR: FaceReceiver, const CAPACITY: usize> BufferedFaceReceiver for BufferedReceiver<
    FR,
    CAPACITY,
> {
    /// Drops the TLV handed out last, receives into the free tail, and hands
    /// out the TLV at the front when it is whole: `NothingReceived` while it
    /// needs more bytes, `TlvTooBig` when it declares more than the buffer holds.
    fn try_recv(&mut self) -> (r: Result<usize, BufferedRecvError>)
        ensures
            old(self).wf() ==> final(self).wf(),
            old(self).wf() ==> old(self).buffered().len() <= final(self).received().len()
                && final(self).received().take(old(self).buffered().len() as int) == old(
                self,
            ).buffered(),
            old(self).wf() ==> match r {
                Ok(n) => tlv_parse(final(self).received()) matches Ok((_, _, m)) && m == n
                    && final(self).last_packet() == final(self).received().take(n as int),
                Err(BufferedRecvError::NothingReceived) => tlv_parse(final(self).received()) matches Err(e)
                    && crate::tlv::tlv_error_needs_more(e) && !(e matches TlvDecodingError::CannotDecodeValue { len, .. } && len > CAPACITY),
                Err(BufferedRecvError::TlvTooBig(l)) => tlv_parse(final(self).received()) matches Err(TlvDecodingError::CannotDecodeValue { len, .. })
                    && len == l && l > CAPACITY,
                Err(BufferedRecvError::DecodingError(e)) => tlv_parse(final(self).received()) == Err::<(u32, Seq<u8>, nat), TlvDecodingError>(e)
                    && !crate::tlv::tlv_error_needs_more(e),
                Err(BufferedRecvError::FaceError(_)) => true,
            },
    {
        if !(self.buffer.len() == CAPACITY && self.pending <= self.cursor && self.cursor <= CAPACITY) {
            return Err(BufferedRecvError::NothingReceived);
        }
        self.drop_pending();
        let ghost kept = self.buffered();
        assert(self.received() =~= kept);
        let free = CAPACITY - self.cursor;
        let mut tmp: Vec<u8> = Vec::new();
        let mut k: usize = 0;
        while k < free
            invariant
                k <= free,
                tmp@.len() == k,
            decreases free - k,
        {
            tmp.push(0);
            k = k + 1;
        }
        let n = match self.receiver.try_recv(tmp.as_mut_slice()) {
            Ok(n) => n,
            Err(e) => {
                return Err(BufferedRecvError::FaceError(e));
            },
        };
        let start = self.cursor;
        let mut j: usize = 0;
        while j < n
            invariant
                n <= tmp@.len(),
                tmp@.len() == free,
                free == CAPACITY - start,
                start == self.cursor,
                self.buffer@.len() == CAPACITY,
                self.pending == 0,
                start <= CAPACITY,
                j <= n,
                kept.len() == start,
                forall|m: int| 0 <= m < start ==> self.buffer@[m] == kept[m],
            decreases n - j,
        {
            self.buffer.set(start + j, tmp[j]);
            j = j + 1;
        }
        self.cursor = start + n;
        assert(self.received().take(start as int) =~= kept);
        assert(self.buffer@.subrange(0, self.cursor as int) =~= self.received());
        let (_, tlv_len) = match TLV::try_decode(&self.buffer.as_slice()[0..self.cursor]) {
            Ok(x) => x,
            Err(err) => {
                if let TlvDecodingError::CannotDecodeValue { len, .. } = err {
                    if len > CAPACITY {
                        return Err(BufferedRecvError::TlvTooBig(len));
                    }
                }
                if crate::tlv::needs_more_bytes(err) {
                    return Err(BufferedRecvError::NothingReceived);
                }
                return Err(BufferedRecvError::DecodingError(err));
            },
        };
        proof {
            let s = self.received();
            crate::tlv::lemma_tlv_parse_canonical(s);
        }
        self.pending = tlv_len;
        assert(self.last_packet() =~= self.received().take(tlv_len as int));
        Ok(tlv_len)
    }
}

} // verus!
