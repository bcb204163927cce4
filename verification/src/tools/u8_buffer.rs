//! A window on a borrowed run of bytes, read from its front and written at
//! its back.

use vstd::prelude::*;
use vstd::slice::slice_subrange;

verus! {

/// A run of bytes with a window on it. The bytes from `begin` up to `end` are
/// the data: reading takes them from the front of the window, writing adds
/// behind its back.
pub struct U8Buffer<'a> {
    buf: &'a mut [u8],
    begin: usize,
    end: usize,
}

/// What a [`U8Buffer`] holds, as mathematical values.
pub struct U8BufferView {
    /// All bytes of the run, inside the window and outside.
    pub bytes: Seq<u8>,
    /// Where the window begins.
    pub begin: usize,
    /// Where the window ends.
    pub end: usize,
}

impl U8BufferView {
    /// The window lies within the run.
    pub open spec fn wf(self) -> bool {
        self.begin <= self.end <= self.bytes.len()
    }

    /// The bytes in the window.
    pub open spec fn data(self) -> Seq<u8>
        recommends
            self.wf(),
    {
        self.bytes.subrange(self.begin as int, self.end as int)
    }
}

impl<'a> View for U8Buffer<'a> {
    type V = U8BufferView;

    closed spec fn view(&self) -> U8BufferView {
        U8BufferView { bytes: self.buf@, begin: self.begin, end: self.end }
    }
}

impl<'a> U8Buffer<'a> {
    /// A buffer on `buf` whose window is empty and stands at the front.
    pub fn create_empty<'b>(buf: &'b mut [u8]) -> (b: U8Buffer<'b>)
        ensures
            b@ == (U8BufferView { bytes: old(buf)@, begin: 0, end: 0 }),
    {
        U8Buffer { buf, begin: 0, end: 0 }
    }

    /// A buffer on `buf` whose window is all of it.
    pub fn create_full<'b>(buf: &'b mut [u8]) -> (b: U8Buffer<'b>)
        ensures
            b@ == (U8BufferView { bytes: old(buf)@, begin: 0, end: old(buf)@.len() as usize }),
    {
        let end = buf.len();
        U8Buffer { begin: 0, end, buf }
    }

    /// The number of bytes in the window.
    pub fn len(&self) -> (n: usize)
        requires
            self@.begin <= self@.end,
        ensures
            n == self@.end - self@.begin,
    {
        self.end - self.begin
    }

    /// The number of bytes in the run.
    pub fn capacity(&self) -> (n: usize)
        ensures
            n == self@.bytes.len(),
    {
        self.buf.len()
    }

    /// The bytes in the window.
    pub fn get_data<'s>(&'s self) -> (data: &'s [u8])
        requires
            self@.wf(),
        ensures
            data@ == self@.data(),
    {
        slice_subrange(self.buf, self.begin, self.end)
    }

    /// Sets the length of the window, keeping its front, and returns the
    /// length it had.
    pub fn force_len(&mut self, len: usize) -> (prev: usize)
        requires
            old(self)@.begin <= old(self)@.end,
            old(self)@.begin + len <= usize::MAX,
        ensures
            prev == old(self)@.end - old(self)@.begin,
            final(self)@ == (U8BufferView { end: (old(self)@.begin + len) as usize, ..old(self)@ }),
    {
        let prev = self.len();
        self.end = self.begin + len;
        prev
    }

    /// Moves the front of the window forward by `amount`.
    pub fn advance_read(&mut self, amount: usize)
        requires
            old(self)@.begin + amount <= usize::MAX,
        ensures
            final(self)@ == (U8BufferView {
                begin: (old(self)@.begin + amount) as usize,
                ..old(self)@
            }),
    {
        self.begin += amount;
    }

    /// Moves the front of the window back by `amount`.
    pub fn reverse_read(&mut self, amount: usize)
        requires
            amount <= old(self)@.begin,
        ensures
            final(self)@ == (U8BufferView {
                begin: (old(self)@.begin - amount) as usize,
                ..old(self)@
            }),
    {
        self.begin -= amount;
    }

    /// Moves the back of the window forward by `amount`.
    pub fn advance_write(&mut self, amount: usize)
        requires
            old(self)@.end + amount <= usize::MAX,
        ensures
            final(self)@ == (U8BufferView { end: (old(self)@.end + amount) as usize, ..old(self)@ }),
    {
        self.end += amount;
    }

    /// Moves the back of the window back by `amount`.
    pub fn reverse_write(&mut self, amount: usize)
        requires
            amount <= old(self)@.end,
        ensures
            final(self)@ == (U8BufferView { end: (old(self)@.end - amount) as usize, ..old(self)@ }),
    {
        self.end -= amount;
    }

    /// Moves the data to the front of the run.
    pub fn shift_to_front(&mut self)
        requires
            old(self)@.wf(),
        ensures
            final(self)@.begin == 0,
            final(self)@.end == old(self)@.end - old(self)@.begin,
            final(self)@.bytes.len() == old(self)@.bytes.len(),
            final(self)@.data() == old(self)@.data(),
            forall|i: int|
                final(self)@.end <= i < final(self)@.bytes.len() ==> final(self)@.bytes[i] == old(
                    self,
                )@.bytes[i],
    {
        if self.begin == 0 {
            assert(self@.data() =~= old(self)@.data());
            return;
        }
        let size = self.len();
        let begin = self.begin;
        let mut i: usize = 0;
        while i < size
            invariant
                i <= size,
                begin > 0,
                self.begin == begin,
                self.end == old(self)@.end,
                size == old(self)@.end - begin,
                old(self)@.wf(),
                old(self)@.begin == begin,
                self.buf@.len() == old(self)@.bytes.len(),
                forall|j: int| 0 <= j < i ==> self.buf@[j] == old(self)@.bytes[j + begin],
                forall|j: int| i <= j < self.buf@.len() ==> self.buf@[j] == old(self)@.bytes[j],
            decreases size - i,
        {
            let b = self.buf[i + begin];
            self.buf[i] = b;
            i += 1;
        }
        self.begin = 0;
        self.end = size;
        assert(self@.data() =~= old(self)@.data());
    }

    /// Copies `data` behind the back of the window and takes it into the
    /// window. Returns the number of bytes written.
    pub fn write(&mut self, data: &[u8]) -> (n: usize)
        requires
            old(self)@.end + data@.len() <= old(self)@.bytes.len(),
        ensures
            n == data@.len(),
            final(self)@.begin == old(self)@.begin,
            final(self)@.end == old(self)@.end + data@.len(),
            final(self)@.bytes == old(self)@.bytes.subrange(0, old(self)@.end as int) + data@ + old(
                self,
            )@.bytes.subrange(old(self)@.end + data@.len(), old(self)@.bytes.len() as int),
    {
        let start = self.end;
        let capacity: usize = self.buf.len();
        let mut i: usize = 0;
        while i < data.len()
            invariant
                i <= data.len(),
                capacity == self.buf@.len(),
                start == old(self)@.end,
                self.begin == old(self)@.begin,
                self.end == start,
                start + data@.len() <= old(self)@.bytes.len(),
                self.buf@.len() == old(self)@.bytes.len(),
                forall|j: int| 0 <= j < i ==> self.buf@[start + j] == data@[j],
                forall|j: int|
                    0 <= j < self.buf@.len() && !(start <= j < start + i) ==> self.buf@[j] == old(
                        self,
                    )@.bytes[j],
            decreases data.len() - i,
        {
            self.buf[start + i] = data[i];
            i += 1;
        }
        self.end = start + data.len();
        assert(self@.bytes =~= old(self)@.bytes.subrange(0, start as int) + data@ + old(
            self,
        )@.bytes.subrange(start + data@.len(), old(self)@.bytes.len() as int));
        data.len()
    }

    /// Fills `out` with bytes taken from the front of the window. Returns the
    /// number of bytes read.
    pub fn read(&mut self, out: &mut [u8]) -> (n: usize)
        requires
            old(self)@.wf(),
            old(out)@.len() <= old(self)@.end - old(self)@.begin,
        ensures
            n == old(out)@.len(),
            final(out)@ == old(self)@.data().take(n as int),
            final(self)@ == (U8BufferView { begin: (old(self)@.begin + n) as usize, ..old(self)@ }),
    {
        let n = out.len();
        let begin = self.begin;
        let mut i: usize = 0;
        while i < n
            invariant
                i <= n,
                n == out@.len(),
                begin == old(self)@.begin,
                *self == *old(self),
                old(self)@.wf(),
                n <= old(self)@.end - begin,
                forall|j: int| 0 <= j < i ==> out@[j] == old(self)@.bytes[begin + j],
            decreases n - i,
        {
            out[i] = self.buf[begin + i];
            i += 1;
        }
        assert(out@ =~= old(self)@.data().take(n as int));
        self.begin += n;
        n
    }

    /// Appends the bytes in the window to `out`, leaving the window as it is,
    /// and returns their number.
    pub fn read_to_end(&self, out: &mut Vec<u8>) -> (n: usize)
        requires
            self@.wf(),
        ensures
            n == self@.end - self@.begin,
            final(out)@ == old(out)@ + self@.data(),
    {
        crate::tools::wire::append(out, self.get_data());
        self.len()
    }
}

} // verus!
