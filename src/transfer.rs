use vstd::prelude::*;

verus! {

/// Where a chunked copy of the byte range `[start, end)` of a file stands.
/// Each step reads the next chunk, as long as the buffer or as what is left
/// of the range, whichever is shorter.
#[derive(Debug, Copy, Clone, PartialEq, Eq, Structural)]
pub struct ChunkCursor {
    pub position: u64,
    pub end: u64,
}

impl ChunkCursor {
    pub open spec fn wf(self) -> bool {
        self.position <= self.end
    }

    /// A copy of `[start, end)` that has not begun.
    pub fn new(start: u64, end: u64) -> (r: ChunkCursor)
        requires
            start <= end,
        ensures
            r.wf(),
            r.position == start,
            r.end == end,
    {
        ChunkCursor { position: start, end }
    }

    /// Moves the copy to `index`, which must lie within the range.
    pub fn seek_to(&mut self, index: u64)
        requires
            index <= old(self).end,
        ensures
            final(self).wf(),
            final(self).position == index,
            final(self).end == old(self).end,
    {
        self.position = index;
    }

    /// The bytes of the range not yet copied.
    pub fn bytes_left(&self) -> (r: u64)
        requires
            self.wf(),
        ensures
            r == self.end - self.position,
    {
        self.end - self.position
    }

    /// The length of the next chunk, given a buffer of `capacity` bytes, with
    /// the copy moved past it; `None` once the range is exhausted.
    pub fn next_chunk(&mut self, capacity: usize) -> (r: Option<usize>)
        requires
            old(self).wf(),
            capacity > 0,
        ensures
            final(self).wf(),
            final(self).end == old(self).end,
            old(self).position == old(self).end ==> r is None && final(self).position
                == old(self).position,
            old(self).position < old(self).end ==> (r matches Some(n) && n as int
                == vstd::math::min(capacity as int, old(self).end - old(self).position)
                && final(self).position == old(self).position + n),
    {
        let left = self.end - self.position;
        if left == 0 {
            None
        } else {
            let n: usize = if (capacity as u128) < (left as u128) {
                capacity
            } else {
                left as usize
            };
            self.position = self.position + n as u64;
            Some(n)
        }
    }
}

} // verus!
