//! The buffer of input bytes the lz77 pass works on: two windows and a lookahead.
use vstd::prelude::*;
use vstd::slice::slice_subrange;
use crate::chained_hash_table::WINDOW_SIZE;

verus! {

pub const MAX_MATCH: usize = 258;
pub const MAX_DISTANCE: usize = 32768;
pub const BUFFER_SIZE: usize = 65794;

/// Copy `src` into `dst` starting at `at`.
fn copy_into(dst: &mut Vec<u8>, at: usize, src: &[u8])
    requires
        at + src@.len() <= old(dst)@.len(),
    ensures
        final(dst)@ == old(dst)@.take(at as int) + src@ + old(dst)@.skip(at + src@.len()),
{
    let mut i: usize = 0;
    let n = dst.len();
    while i < src.len()
        invariant
            i <= src@.len(),
            n == old(dst)@.len(),
            at + src@.len() <= old(dst)@.len(),
            dst@.len() == old(dst)@.len(),
            dst@ =~= old(dst)@.take(at as int) + src@.take(i as int) + old(dst)@.skip(at + i),
        decreases src@.len() - i,
    {
        dst[at + i] = src[i];
        i = i + 1;
        assert(dst@ =~= old(dst)@.take(at as int) + src@.take(i as int) + old(dst)@.skip(at + i));
    }
    assert(src@.take(src@.len() as int) =~= src@);
}

pub struct InputBuffer {
    buffer: Vec<u8>,
    current_end: usize,
}

impl InputBuffer {
    /// The bytes held, up to the current end.
    pub closed spec fn data(&self) -> Seq<u8> {
        self.buffer@.take(self.current_end as int)
    }

    pub closed spec fn wf(&self) -> bool {
        self.buffer@.len() == BUFFER_SIZE && self.current_end <= BUFFER_SIZE
    }

    pub proof fn lemma_wf(&self)
        requires
            self.wf(),
        ensures
            self.data().len() <= BUFFER_SIZE,
    {
    }

    /// A buffer holding as much of `data` as fits, and the rest of `data` if any.
    pub fn new<'a>(data: &'a [u8]) -> (r: (InputBuffer, Option<&'a [u8]>))
        ensures
            r.0.wf(),
            data@.len() <= BUFFER_SIZE ==> r.0.data() == data@ && r.1 is None,
            data@.len() > BUFFER_SIZE ==> r.0.data() == data@.take(BUFFER_SIZE as int) && (r.1 matches Some(rest)
                && rest@ == data@.skip(BUFFER_SIZE as int)),
    {
        let mut b = InputBuffer::empty();
        let rem = b.add_data(data);
        proof {
            assert(Seq::<u8>::empty() + data@ =~= data@);
            assert(Seq::<u8>::empty() + data@.take(BUFFER_SIZE as int) =~= data@.take(BUFFER_SIZE as int));
        }
        (b, rem)
    }

    /// An empty buffer.
    pub fn empty() -> (r: InputBuffer)
        ensures
            r.wf(),
            r.data() == Seq::<u8>::empty(),
    {
        let r = InputBuffer { buffer: vec![0u8; BUFFER_SIZE], current_end: 0 };
        assert(r.buffer@.take(0) =~= Seq::<u8>::empty());
        r
    }

    /// Add data to the buffer.
    ///
    /// Returns a slice of the data that was not added (including the lookahead if any).
    pub fn add_data<'a>(&mut self, data: &'a [u8]) -> (r: Option<&'a [u8]>)
        requires
            old(self).wf(),
        ensures
            final(self).wf(),
            old(self).data().len() + data@.len() <= BUFFER_SIZE ==> final(self).data() == old(self).data() + data@
                && r is None,
            old(self).data().len() + data@.len() > BUFFER_SIZE ==> {
                let k = BUFFER_SIZE - old(self).data().len();
                &&& final(self).data() == old(self).data() + data@.take(k)
                &&& r matches Some(rest) && rest@ == data@.skip(k)
            },
    {
        let ghost old_data = self.data();
        if data.len() > BUFFER_SIZE - self.current_end {
            let len = BUFFER_SIZE - self.current_end;
            copy_into(&mut self.buffer, self.current_end, slice_subrange(data, 0, len));
            self.current_end = BUFFER_SIZE;
            assert(self.data() =~= old_data + data@.take(len as int));
            Some(slice_subrange(data, len, data.len()))
        } else {
            copy_into(&mut self.buffer, self.current_end, data);
            self.current_end = self.current_end + data.len();
            assert(self.data() =~= old_data + data@);
            None
        }
    }

    /// The number of bytes held.
    pub fn current_end(&self) -> (r: usize)
        requires
            self.wf(),
        ensures
            r == self.data().len(),
    {
        self.current_end
    }

    /// Slide the input window and add new data.
    ///
    /// Returns a slice containing the data that did not fit, or None if all data was consumed.
    pub fn slide<'a>(&mut self, data: &'a [u8]) -> (r: Option<&'a [u8]>)
        requires
            old(self).wf(),
            old(self).data().len() == BUFFER_SIZE,
        ensures
            final(self).wf(),
            data@.len() <= WINDOW_SIZE ==> final(self).data() == old(self).data().skip(WINDOW_SIZE as int) + data@
                && r is None,
            data@.len() > WINDOW_SIZE ==> final(self).data() == old(self).data().skip(WINDOW_SIZE as int)
                + data@.take(WINDOW_SIZE as int) && (r matches Some(rest) && rest@ == data@.skip(WINDOW_SIZE as int)),
    {
        let ghost old_buf = self.buffer@;
        // Copy the upper window and the lookahead down by one window.
        let mut i: usize = 0;
        while i < WINDOW_SIZE + MAX_MATCH
            invariant
                i <= WINDOW_SIZE + MAX_MATCH,
                self.buffer@.len() == BUFFER_SIZE,
                old_buf.len() == BUFFER_SIZE,
                forall|j: int| 0 <= j < i ==> self.buffer@[j] == old_buf[j + WINDOW_SIZE],
                forall|j: int| i <= j < BUFFER_SIZE ==> self.buffer@[j] == old_buf[j],
            decreases WINDOW_SIZE + MAX_MATCH - i,
        {
            let b = self.buffer[i + WINDOW_SIZE];
            self.buffer[i] = b;
            i = i + 1;
        }
        let upper_len = WINDOW_SIZE;
        let end = if data.len() < upper_len { data.len() } else { upper_len };
        let ghost mid = self.buffer@;
        copy_into(&mut self.buffer, WINDOW_SIZE + MAX_MATCH, slice_subrange(data, 0, end));
        self.current_end = WINDOW_SIZE + MAX_MATCH + end;
        proof {
            assert(self.buffer@.take((WINDOW_SIZE + MAX_MATCH) as int) =~= old_buf.take(BUFFER_SIZE as int).skip(
                WINDOW_SIZE as int,
            ));
            assert(self.data() =~= old_buf.take(BUFFER_SIZE as int).skip(WINDOW_SIZE as int) + data@.take(end as int));
            if data@.len() <= WINDOW_SIZE {
                assert(data@.take(end as int) =~= data@);
            }
        }
        if data.len() > upper_len {
            // Return a slice of the data that was not added
            Some(slice_subrange(data, end, data.len()))
        } else {
            None
        }
    }

    /// Slide the buffer such that the current end of the buffer (including lookahead) is moved to
    /// the position of WINDOW_SIZE, and return the number of bytes slid.
    pub fn move_down(&mut self) -> (r: usize)
        requires
            old(self).wf(),
            old(self).data().len() >= WINDOW_SIZE,
        ensures
            final(self).wf(),
            r == old(self).data().len() - WINDOW_SIZE,
            final(self).data() == old(self).data().skip(r as int),
    {
        // Avoid doing anything if the end is already at WINDOW_SIZE.
        if self.current_end == WINDOW_SIZE {
            assert(self.data().skip(0) =~= self.data());
            return 0;
        }
        let ghost old_buf = self.buffer@;
        let start = self.current_end - WINDOW_SIZE;
        let mut i: usize = 0;
        while i < WINDOW_SIZE
            invariant
                i <= WINDOW_SIZE,
                start + WINDOW_SIZE <= BUFFER_SIZE,
                start >= 1,
                self.buffer@.len() == BUFFER_SIZE,
                forall|j: int| 0 <= j < i ==> self.buffer@[j] == old_buf[j + start],
                forall|j: int| i <= j < BUFFER_SIZE ==> self.buffer@[j] == old_buf[j],
            decreases WINDOW_SIZE - i,
        {
            let b = self.buffer[start + i];
            self.buffer[i] = b;
            i = i + 1;
        }
        self.current_end = WINDOW_SIZE;
        assert(self.data() =~= old_buf.take((start + WINDOW_SIZE) as int).skip(start as int));
        start
    }

    /// The bytes held.
    pub fn get_buffer(&self) -> (r: &[u8])
        requires
            self.wf(),
        ensures
            r@ == self.data(),
    {
        slice_subrange(self.buffer.as_slice(), 0, self.current_end)
    }
}

/// A buffer used to keep a backlog of the last 2^15 (maximum match distance) of bytes of the
/// previous block, so that a block whose matches reach into the previous one can still be
/// turned back into bytes.
pub struct BackBuffer {
    buffer: Vec<u8>,
}

impl BackBuffer {
    /// The bytes held.
    pub closed spec fn data(&self) -> Seq<u8> {
        self.buffer@
    }

    pub fn new() -> (r: BackBuffer)
        ensures
            r.data() == Seq::<u8>::empty(),
    {
        BackBuffer { buffer: Vec::with_capacity(MAX_DISTANCE) }
    }

    /// Fill the buffer with up to 2^15 (`MAX_DISTANCE`) data from the end of the input slice.
    ///
    /// This will erase the current buffer data.
    pub fn fill_buffer(&mut self, data: &[u8])
        ensures
            data@.len() <= MAX_DISTANCE ==> final(self).data() == data@,
            data@.len() > MAX_DISTANCE ==> final(self).data() == data@.skip(data@.len() - MAX_DISTANCE),
    {
        let start = data.len().saturating_sub(MAX_DISTANCE);
        self.buffer.clear();
        self.buffer.extend_from_slice(slice_subrange(data, start, data.len()));
        proof {
            if data@.len() <= MAX_DISTANCE {
                assert(data@.subrange(0, data@.len() as int) =~= data@);
            }
            assert(Seq::<u8>::empty() + data@.subrange(start as int, data@.len() as int) =~= data@.skip(start as int));
        }
    }

    /// Borrow a slice of the currently buffered data.
    pub fn get_buffer(&self) -> (r: &[u8])
        ensures
            r@ == self.data(),
    {
        self.buffer.as_slice()
    }

    /// Clear the internal buffer.
    pub fn clear(&mut self)
        ensures
            final(self).data() == Seq::<u8>::empty(),
    {
        self.buffer.clear();
    }
}

} // verus!
