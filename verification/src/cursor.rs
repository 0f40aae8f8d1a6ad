//! A cursor over a byte buffer that can be moved back: reading advances
//! it, and a scanner that has read past the end of what it was looking
//! for rolls it back by an explicit number of bytes.

use vstd::prelude::*;
use vstd::slice::slice_subrange;

verus! {

/// A position in a byte buffer. The position never lies beyond the end
/// of the buffer.
pub struct ByteCursor<'a> {
    data: &'a [u8],
    pos: usize,
}

impl<'a> ByteCursor<'a> {
    #[verifier::type_invariant]
    spec fn in_bounds(self) -> bool {
        self.pos <= self.data@.len()
    }

    /// The bytes the cursor moves over.
    pub closed spec fn stream(self) -> Seq<u8> {
        self.data@
    }

    /// Index of the next byte to be read.
    pub closed spec fn position(self) -> int {
        self.pos as int
    }

    /// A cursor at the beginning of `data`.
    pub fn new(data: &'a [u8]) -> (cursor: Self)
        ensures
            cursor.stream() == data@,
            cursor.position() == 0,
    {
        ByteCursor { data, pos: 0 }
    }

    /// The current position.
    pub fn pos(&self) -> (p: usize)
        ensures
            p == self.position(),
            p <= self.stream().len(),
    {
        proof {
            use_type_invariant(self);
        }
        self.pos
    }

    /// Length of the whole buffer.
    pub fn len(&self) -> (n: usize)
        ensures
            n == self.stream().len(),
    {
        self.data.len()
    }

    /// Reads one byte and steps over it; `None` at the end of the buffer,
    /// where the cursor stays.
    pub fn read(&mut self) -> (byte: Option<u8>)
        ensures
            final(self).stream() == old(self).stream(),
            0 <= old(self).position() <= old(self).stream().len() <= usize::MAX,
            old(self).position() < old(self).stream().len() ==> {
                &&& byte == Some(old(self).stream()[old(self).position()])
                &&& final(self).position() == old(self).position() + 1
            },
            old(self).position() >= old(self).stream().len() ==> {
                &&& byte.is_none()
                &&& final(self).position() == old(self).position()
            },
    {
        proof {
            use_type_invariant(&*self);
        }
        assert(self.data@.len() <= usize::MAX) by {
            assert(self.data.len() <= usize::MAX);
        }
        if self.pos < self.data.len() {
            let b = self.data[self.pos];
            self.pos = self.pos + 1;
            Some(b)
        } else {
            None
        }
    }

    /// Reads `count` bytes and steps over them; `None` where fewer are
    /// left, and the cursor stays.
    pub fn take(&mut self, count: usize) -> (bytes: Option<&'a [u8]>)
        ensures
            final(self).stream() == old(self).stream(),
            0 <= old(self).position() <= old(self).stream().len() <= usize::MAX,
            old(self).position() + count <= old(self).stream().len() ==> {
                &&& bytes.is_some()
                &&& bytes.unwrap()@ == old(self).stream().subrange(
                    old(self).position(),
                    old(self).position() + count,
                )
                &&& final(self).position() == old(self).position() + count
            },
            old(self).position() + count > old(self).stream().len() ==> {
                &&& bytes.is_none()
                &&& final(self).position() == old(self).position()
            },
    {
        proof {
            use_type_invariant(&*self);
        }
        assert(self.data@.len() <= usize::MAX) by {
            assert(self.data.len() <= usize::MAX);
        }
        if count <= self.data.len() - self.pos {
            let bytes = slice_subrange(self.data, self.pos, self.pos + count);
            self.pos = self.pos + count;
            Some(bytes)
        } else {
            None
        }
    }

    /// Moves the cursor back by `count` bytes.
    pub fn seek_back(&mut self, count: usize)
        requires
            count <= old(self).position(),
        ensures
            final(self).stream() == old(self).stream(),
            final(self).position() == old(self).position() - count,
    {
        proof {
            use_type_invariant(&*self);
        }
        self.pos = self.pos - count;
    }

    /// Places the cursor at `position`, or at the end of the buffer where
    /// `position` lies beyond it.
    pub fn set_position(&mut self, position: usize)
        ensures
            final(self).stream() == old(self).stream(),
            final(self).position() == if position <= old(self).stream().len() {
                position as int
            } else {
                old(self).stream().len() as int
            },
    {
        if position <= self.data.len() {
            self.pos = position;
        } else {
            self.pos = self.data.len();
        }
    }
}

} // verus!
