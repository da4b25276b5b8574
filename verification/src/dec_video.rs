//! The stream reader: splits a byte stream into length-prefixed payloads.
use vstd::prelude::*;

verus! {

/// Where the next payload of a stream read at `i` lies: two little-endian
/// length bytes, then that many payload bytes.  A missing prefix, or a
/// payload that runs past the end of the stream, ends the stream.
pub open spec fn vs_next(bytes: Seq<u8>, i: int) -> Option<(int, int)> {
    if !(0 <= i && i + 2 <= bytes.len()) {
        None
    } else {
        let size = bytes[i] + 256 * bytes[i + 1];
        if i + 2 + size <= bytes.len() {
            Some((i + 2, i + 2 + size))
        } else {
            None
        }
    }
}

/// A forward-only reader of length-prefixed payloads.
#[derive(Debug, Clone, Copy)]
pub struct VideoSlice<'a> {
    pub buf: &'a [u8],
    pub index: usize,
}

impl<'a> VideoSlice<'a> {
    pub fn new(buf: &'a [u8]) -> (r: Self)
        ensures
            r.buf@ == buf@,
            r.index == 0,
    {
        Self { buf, index: 0 }
    }

    /// The next payload, advancing past it.  On a truncated final payload
    /// the reader parks past the end and yields nothing further.
    pub fn next(&mut self) -> (r: Option<&'a [u8]>)
        requires
            old(self).buf@.len() <= 0x1000_0000,
            old(self).index <= 0x2000_0000,
        ensures
            final(self).buf == old(self).buf,
            final(self).index <= 0x2000_0000,
            match vs_next(old(self).buf@, old(self).index as int) {
                None => r is None,
                Some((s, e)) => {
                    &&& r matches Some(p) && p@ == old(self).buf@.subrange(s, e)
                    &&& final(self).index == e
                },
            },
    {
        let i = self.index;
        if i + 2 > self.buf.len() {
            return None;
        }
        let b0 = *vstd::slice::slice_index_get(self.buf, i);
        let b1 = *vstd::slice::slice_index_get(self.buf, i + 1);
        let size: usize = (b0 as usize) + 256 * (b1 as usize);
        let start = i + 2;
        let end = start + size;
        self.index = end;
        if end <= self.buf.len() {
            Some(vstd::slice::slice_subrange(self.buf, start, end))
        } else {
            None
        }
    }
}

} // verus!
