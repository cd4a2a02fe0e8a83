use vstd::prelude::*;

verus! {

/// A sink of bytes, such as a buffer or a face.
pub trait Write {
    type Error;

    /// Accepts all of `bytes`, or fails.
    fn write(&mut self, bytes: &[u8]) -> Result<(), Self::Error>;
}

impl Write for Vec<u8> {
    type Error = ();

    fn write(&mut self, bytes: &[u8]) -> (r: Result<(), ()>)
        ensures
            r is Ok,
            final(self)@ == old(self)@ + bytes@,
    {
        append_bytes(self, bytes);
        Ok(())
    }
}

/// Appends `bytes` to `out`.
pub fn append_bytes(out: &mut Vec<u8>, bytes: &[u8])
    ensures
        final(out)@ == old(out)@ + bytes@,
{
    out.extend_from_slice(bytes);
    proof {
        assert forall|i: int| 0 <= i < out@.len() implies out@[i] == (old(out)@ + bytes@)[i] by {
            if i >= old(out)@.len() {
                let k = i - old(out)@.len();
                assert(cloned::<u8>(bytes@[k], out@[i]));
            }
        }
        assert(out@ =~= old(out)@ + bytes@);
    }
}

/// A value with a canonical byte encoding.
pub trait Encode {
    /// The bytes that encode this value.
    spec fn encoding(&self) -> Seq<u8>;

    /// Whether the value can be encoded (it is well formed and its encoding fits in memory).
    spec fn encodable(&self) -> bool;

    fn encoded_length(&self) -> (r: usize)
        requires
            self.encodable(),
        ensures
            r as int == self.encoding().len(),
    ;

    /// Appends the encoding to `out`.
    fn append_to(&self, out: &mut Vec<u8>)
        requires
            self.encodable(),
        ensures
            final(out)@ == old(out)@ + self.encoding(),
    ;

    /// Writes the encoding (see `append_to`) to `writer` in one piece.
    fn encode<W: Write>(&self, writer: &mut W) -> Result<(), W::Error>
        requires
            self.encodable(),
    {
        let mut bytes: Vec<u8> = Vec::new();
        self.append_to(&mut bytes);
        writer.write(bytes.as_slice())
    }
}

/// A value that can be read from the front of a byte buffer.
pub trait Decode<'a>: Sized {
    type Error;

    fn try_decode(bytes: &'a [u8]) -> Result<(Self, usize), Self::Error>;
}

} // verus!
