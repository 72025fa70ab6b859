use vstd::prelude::*;

use std::io;

use crate::positioned_io::PositionedReader;

verus! {

/// An object that can be written out as bytes.
pub trait Serializable {
    /// The object is in a state that can be serialized at all.
    spec fn serializable(&self) -> bool;

    /// The bytes that serializing the object writes.
    spec fn serialized(&self) -> Seq<u8>;

    /// Serializing the object into a vector never fails.
    spec fn serialize_infallible(&self) -> bool;

    /// serialize the object into the given writer
    fn serialize_into(&self, writer: &mut Vec<u8>) -> (r: io::Result<()>)
        requires
            self.serializable(),
        ensures
            self.serialize_infallible() ==> r is Ok,
            r is Ok ==> final(writer)@ == old(writer)@ + self.serialized(),
    ;
}

/// An object that can be read back from bytes.
pub trait Deserializable: Sized {
    /// deserialize the object from the given reader
    fn deserialize_from<R: PositionedReader>(reader: R) -> io::Result<Self>;
}

impl<'a> Serializable for &'a [u8] {
    open spec fn serializable(&self) -> bool {
        true
    }

    open spec fn serialized(&self) -> Seq<u8> {
        (*self)@
    }

    open spec fn serialize_infallible(&self) -> bool {
        true
    }

    fn serialize_into(&self, writer: &mut Vec<u8>) -> (r: io::Result<()>)
        ensures
            r is Ok,
    {
        let bytes: &[u8] = *self;
        let ghost start = writer@;
        let mut i: usize = 0;
        while i < bytes.len()
            invariant
                0 <= i <= bytes@.len(),
                writer@ == start + bytes@.subrange(0, i as int),
            decreases bytes@.len() - i,
        {
            writer.push(bytes[i]);
            i = i + 1;
            proof {
                assert(writer@ =~= start + bytes@.subrange(0, i as int));
            }
        }
        proof {
            assert(bytes@.subrange(0, bytes@.len() as int) =~= bytes@);
        }
        Ok(())
    }
}

} // verus!
