use vstd::prelude::*;

verus! {

/// A face's identity within a forwarder: a non-zero token, never reused.
#[derive(Clone, Copy, PartialEq, Eq, Structural, Debug)]
pub struct FaceToken(pub u32);

#[derive(Clone, Copy, PartialEq, Eq, Structural, Debug)]
pub enum FaceError {
    Disconnected,
}

/// The receiving half of a face.
pub trait FaceReceiver {
    /// Copies the bytes that are ready into the front of `dst` and returns
    /// how many; 0 where none are ready. A disconnect is sticky.
    fn try_recv(&mut self, dst: &mut [u8]) -> (r: Result<usize, FaceError>)
        ensures
            final(dst)@.len() == old(dst)@.len(),
            r matches Ok(n) ==> n <= old(dst)@.len(),
    ;
}

/// The sending half of a face.
pub trait FaceSender {
    /// Accepts a prefix of `src`, possibly empty, and returns its length.
    fn try_send(&mut self, src: &[u8]) -> (r: Result<usize, FaceError>)
        ensures
            r matches Ok(n) ==> n <= src@.len(),
    ;

    /// Signals that what was accepted so far forms a unit that can go out
    /// (a datagram face sends its buffered bytes here).
    fn flush(&mut self) -> Result<(), FaceError>;
}


/// Where the `k`-th buffered byte of a ring of `size` bytes read from `read` lies.
pub open spec fn ring_pos(read: nat, k: nat, size: nat) -> nat {
    if read + k < size {
        read + k
    } else {
        (read + k - size) as nat
    }
}

/// A byte queue of `SIZE - 1` bytes in a ring of `SIZE` bytes: a writer
/// appends what fits, a reader takes bytes in order.
pub struct RingBuffer<const SIZE: usize> {
    storage: Vec<u8>,
    read: usize,
    len: usize,
}

impl<const SIZE: usize> RingBuffer<SIZE> {
    /// The buffered bytes, oldest first.
    pub closed spec fn view(&self) -> Seq<u8> {
        Seq::new(
            self.len as nat,
            |k: int| self.storage@[ring_pos(self.read as nat, k as nat, SIZE as nat) as int],
        )
    }

    pub closed spec fn wf(&self) -> bool {
        &&& self.storage@.len() == SIZE
        &&& self.read < SIZE
        &&& self.len < SIZE
    }

    /// An empty ring; `SIZE` must be at least 1.
    pub fn new() -> (r: Self)
        requires
            SIZE > 0,
        ensures
            r.wf(),
            r.view().len() == 0,
    {
        let mut storage: Vec<u8> = Vec::new();
        let mut i: usize = 0;
        while i < SIZE
            invariant
                i <= SIZE,
                storage@.len() == i,
            decreases SIZE - i,
        {
            storage.push(0);
            i = i + 1;
        }
        let r = RingBuffer { storage, read: 0, len: 0 };
        assert(r.view() =~= Seq::<u8>::empty());
        r
    }

    fn pos(&self, k: usize) -> (r: usize)
        requires
            self.wf(),
            k < SIZE,
        ensures
            r == ring_pos(self.read as nat, k as nat, SIZE as nat),
            r < SIZE,
    {
        if k < SIZE - self.read {
            self.read + k
        } else {
            k - (SIZE - self.read)
        }
    }

    /// Appends as much of `src` as fits and returns how much that was.
    pub fn write(&mut self, src: &[u8]) -> (r: usize)
        requires
            old(self).wf(),
        ensures
            final(self).wf(),
            r == (if src@.len() <= SIZE - 1 - old(self).view().len() {
                src@.len()
            } else {
                (SIZE - 1 - old(self).view().len()) as nat
            }),
            final(self).view() == old(self).view() + src@.take(r as int),
    {
        let mut written: usize = 0;
        assert(self.view() =~= old(self).view() + src@.take(0));
        while written < src.len() && self.len < SIZE - 1
            invariant
                self.wf(),
                self.read == old(self).read,
                self.len == old(self).len + written,
                written <= src@.len(),
                self.view() == old(self).view() + src@.take(written as int),
            decreases src@.len() - written,
        {
            let p = self.pos(self.len);
            let ghost before = self.view();
            self.storage.set(p, src[written]);
            self.len = self.len + 1;
            written = written + 1;
            assert forall|k: int| 0 <= k < before.len() implies self.view()[k] == before[k] by {
                assert(ring_pos(self.read as nat, k as nat, SIZE as nat) != p);
            }
            assert(self.view()[before.len() as int] == src@[written - 1]);
            assert(src@.take(written as int) =~= src@.take(written - 1).push(src@[written - 1]));
            assert(self.view() =~= before.push(src@[written - 1]));
            assert(self.view() =~= old(self).view() + src@.take(written as int));
        }
        written
    }

    /// Moves the oldest bytes into `dst`, as many as fit, and returns how many.
    pub fn read(&mut self, dst: &mut [u8]) -> (r: usize)
        requires
            old(self).wf(),
        ensures
            final(self).wf(),
            r == (if old(dst)@.len() <= old(self).view().len() {
                old(dst)@.len()
            } else {
                old(self).view().len()
            }),
            final(dst)@.len() == old(dst)@.len(),
            final(dst)@.take(r as int) == old(self).view().take(r as int),
            final(dst)@.skip(r as int) == old(dst)@.skip(r as int),
            final(self).view() == old(self).view().skip(r as int),
    {
        let n = if dst.len() <= self.len {
            dst.len()
        } else {
            self.len
        };
        let mut j: usize = 0;
        while j < n
            invariant
                self.wf(),
                self == old(self),
                n <= old(self).len,
                n <= old(dst)@.len(),
                j <= n,
                dst@.len() == old(dst)@.len(),
                dst@.take(j as int) == old(self).view().take(j as int),
                dst@.skip(n as int) == old(dst)@.skip(n as int),
            decreases n - j,
        {
            let p = self.pos(j);
            dst[j] = self.storage[p];
            j = j + 1;
            assert(dst@.take(j as int) =~= old(self).view().take(j as int));
        }
        let ghost before = self.view();
        let new_read = if n < SIZE - self.read {
            self.read + n
        } else {
            n - (SIZE - self.read)
        };
        self.read = new_read;
        self.len = self.len - n;
        assert(self.view() =~= before.skip(n as int));
        n
    }
}

} // verus!
