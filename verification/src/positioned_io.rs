use vstd::prelude::*;

use std::io;

verus! {

#[verifier::external_type_specification]
#[verifier::external_body]
pub struct ExIoError(io::Error);

/// Builds the error that `read_exact_at` reports when the source ends before
/// the buffer is full: `io::Error::new(io::ErrorKind::UnexpectedEof, ..)`.
/// Nothing is stated of the value.
#[verifier::external_body]
fn unexpected_eof_error() -> io::Error {
    io::Error::new(io::ErrorKind::UnexpectedEof, "failed to fill whole buffer")
}

/// Builds the error that `write_all_at` reports when the sink accepts no
/// byte: `io::Error::new(io::ErrorKind::WriteZero, ..)`. Nothing is stated of
/// the value.
#[verifier::external_body]
fn write_zero_error() -> io::Error {
    io::Error::new(io::ErrorKind::WriteZero, "failed to write whole buffer")
}

/// What a successful positioned read of `n` bytes at `pos` leaves in the
/// buffer: the source's bytes `[pos, pos + n)` in front, the buffer's old
/// bytes after them.
pub open spec fn read_result(
    contents: Seq<u8>,
    pos: int,
    old_buf: Seq<u8>,
    new_buf: Seq<u8>,
    n: int,
) -> bool {
    &&& 0 <= n <= old_buf.len()
    &&& new_buf.len() == old_buf.len()
    &&& n > 0 ==> pos + n <= contents.len() && new_buf.subrange(0, n) == contents.subrange(
        pos,
        pos + n,
    )
    &&& new_buf.subrange(n, new_buf.len() as int) == old_buf.subrange(n, old_buf.len() as int)
    &&& n == 0 ==> (old_buf.len() == 0 || pos >= contents.len())
}

/// A source of bytes that can be read at any position.
///
/// Its bytes are `contents()`; they do not change while the source is
/// shared. A source whose reads cannot fail (one held in memory) says so by
/// `reads_infallible`.
pub trait PositionedReader {
    spec fn contents(&self) -> Seq<u8>;

    /// Reads of this source never fail.
    spec fn reads_infallible(&self) -> bool;

    /// A source whose reads cannot fail holds at most `usize::MAX` bytes.
    proof fn lemma_reads_infallible(&self)
        requires
            self.reads_infallible(),
        ensures
            self.contents().len() <= usize::MAX,
    ;

    /// Reads bytes from an offset in this source into a buffer, returning how
    /// many bytes were read.
    ///
    /// This function may yield fewer bytes than the size of `buf`, if it was
    /// interrupted or hit the "end of file"; it yields no byte only at the end
    /// of the source or for an empty buffer.
    fn read_at(&self, pos: usize, buf: &mut [u8]) -> (r: io::Result<usize>)
        ensures
            final(buf)@.len() == old(buf)@.len(),
            self.reads_infallible() ==> r is Ok,
            r is Ok ==> read_result(
                self.contents(),
                pos as int,
                old(buf)@,
                final(buf)@,
                r->Ok_0 as int,
            ),
    ;

    /// Get the size of this object, in bytes.
    fn size(&self) -> (r: io::Result<usize>)
        ensures
            self.reads_infallible() ==> r is Ok,
            r is Ok ==> r->Ok_0 == self.contents().len(),
    ;

    /// Reads the exact number of bytes required to fill `buf` from an offset.
    ///
    /// Errors if the "end of file" is encountered before filling the buffer,
    /// or if the source reports an error.
    fn read_exact_at(&self, pos: usize, buf: &mut [u8]) -> (r: io::Result<()>)
        ensures
            final(buf)@.len() == old(buf)@.len(),
            r is Ok ==> old(buf)@.len() == 0 || (pos + old(buf)@.len() <= self.contents().len()
                && final(buf)@ == self.contents().subrange(pos as int, pos + old(buf)@.len())),
            self.reads_infallible() && (old(buf)@.len() == 0 || pos + old(buf)@.len()
                <= self.contents().len()) ==> r is Ok,
    {
        proof {
            if self.reads_infallible() {
                self.lemma_reads_infallible();
            }
        }
        let len = buf.len();
        let mut filled: usize = 0;
        while filled < len
            invariant
                buf@.len() == len,
                len == old(buf)@.len(),
                self.reads_infallible() ==> self.contents().len() <= usize::MAX,
                0 <= filled <= len,
                filled > 0 ==> pos + filled <= self.contents().len(),
                forall|t: int| 0 <= t < filled ==> buf@[t] == self.contents()[pos + t],
            decreases len - filled,
        {
            if pos > usize::MAX - filled {
                return Err(unexpected_eof_error());
            }
            let mut rest: Vec<u8> = Vec::new();
            let mut k: usize = filled;
            while k < len
                invariant
                    filled <= k <= len,
                    rest@.len() == k - filled,
                decreases len - k,
            {
                rest.push(0u8);
                k = k + 1;
            }
            let n = match self.read_at(pos + filled, rest.as_mut_slice()) {
                Ok(n) => n,
                Err(e) => {
                    return Err(e);
                },
            };
            if n == 0 {
                return Err(unexpected_eof_error());
            }
            proof {
                assert forall|t: int| 0 <= t < n implies rest@[t] == self.contents()[pos + filled
                    + t] by {
                    assert(rest@.subrange(0, n as int)[t] == rest@[t]);
                }
            }
            let mut j: usize = 0;
            while j < n
                invariant
                    buf@.len() == len,
                    0 < n <= rest@.len(),
                    rest@.len() == len - filled,
                    0 <= j <= n,
                    filled + n <= len,
                    pos + filled + n <= self.contents().len(),
                    forall|t: int| 0 <= t < filled ==> buf@[t] == self.contents()[pos + t],
                    forall|t: int| 0 <= t < n ==> rest@[t] == self.contents()[pos + filled + t],
                    forall|t: int| 0 <= t < j ==> buf@[filled + t] == rest@[t],
                decreases n - j,
            {
                let b = rest[j];
                buf[filled + j] = b;
                j = j + 1;
            }
            proof {
                assert forall|t: int| 0 <= t < filled + n implies buf@[t] == self.contents()[pos
                    + t] by {
                    if t >= filled {
                        assert(buf@[filled + (t - filled)] == rest@[t - filled]);
                    }
                }
            }
            filled = filled + n;
        }
        proof {
            if len > 0 {
                assert(buf@ =~= self.contents().subrange(pos as int, pos + len));
            }
        }
        Ok(())
    }

    /// Reads every byte of the source.
    fn read_all(&self) -> (r: io::Result<Vec<u8>>)
        ensures
            self.reads_infallible() ==> r is Ok,
            r is Ok ==> r->Ok_0@ == self.contents(),
    {
        let size = self.size()?;
        let mut out: Vec<u8> = Vec::new();
        let mut k: usize = 0;
        while k < size
            invariant
                0 <= k <= size,
                out@.len() == k,
            decreases size - k,
        {
            out.push(0u8);
            k = k + 1;
        }
        self.read_exact_at(0, out.as_mut_slice())?;
        proof {
            if size == 0 {
                assert(out@ =~= self.contents());
            } else {
                assert(self.contents().subrange(0, size as int) =~= self.contents());
            }
        }
        Ok(out)
    }
}

/// Two successful reads, the second at the position where the first
/// stopped (as `PositionedCursor::read` moves it), read consecutive bytes of
/// the source: none is skipped and none repeated.
pub proof fn lemma_reads_in_order(
    contents: Seq<u8>,
    pos: int,
    first_old: Seq<u8>,
    first_new: Seq<u8>,
    n1: int,
    second_old: Seq<u8>,
    second_new: Seq<u8>,
    n2: int,
)
    requires
        0 <= pos,
        read_result(contents, pos, first_old, first_new, n1),
        read_result(contents, pos + n1, second_old, second_new, n2),
        n1 > 0,
        n2 > 0,
    ensures
        first_new.take(n1) + second_new.take(n2) == contents.subrange(pos, pos + n1 + n2),
{
    assert(first_new.take(n1) =~= first_new.subrange(0, n1));
    assert(second_new.take(n2) =~= second_new.subrange(0, n2));
    assert(first_new.take(n1) + second_new.take(n2) =~= contents.subrange(pos, pos + n1 + n2));
}

/// Copies `contents[pos..]` into the front of `buf`, as much as fits;
/// returns how many bytes were copied.
fn copy_from_at(contents: &[u8], pos: usize, buf: &mut [u8]) -> (n: usize)
    ensures
        final(buf)@.len() == old(buf)@.len(),
        read_result(contents@, pos as int, old(buf)@, final(buf)@, n as int),
        n == if pos >= contents@.len() {
            0
        } else if old(buf)@.len() <= contents@.len() - pos {
            old(buf)@.len() as int
        } else {
            contents@.len() - pos
        },
{
    if pos >= contents.len() {
        assert(buf@.subrange(0, buf@.len() as int) =~= buf@);
        return 0;
    }
    let avail = contents.len() - pos;
    let bytes = if buf.len() <= avail {
        buf.len()
    } else {
        avail
    };
    let ghost old_buf = buf@;
    let mut i: usize = 0;
    while i < bytes
        invariant
            buf@.len() == old_buf.len(),
            bytes <= old_buf.len(),
            pos + bytes <= contents@.len(),
            contents@.len() == contents.len(),
            0 <= i <= bytes,
            forall|t: int| 0 <= t < i ==> buf@[t] == contents@[pos + t],
            forall|t: int| i <= t < buf@.len() ==> buf@[t] == old_buf[t],
        decreases bytes - i,
    {
        buf[i] = contents[pos + i];
        i = i + 1;
    }
    assert(buf@.subrange(0, bytes as int) =~= contents@.subrange(pos as int, pos + bytes));
    assert(buf@.subrange(bytes as int, buf@.len() as int) =~= old_buf.subrange(
        bytes as int,
        old_buf.len() as int,
    ));
    bytes
}

impl PositionedReader for Vec<u8> {
    open spec fn contents(&self) -> Seq<u8> {
        self@
    }

    open spec fn reads_infallible(&self) -> bool {
        true
    }

    proof fn lemma_reads_infallible(&self) {
        vstd::std_specs::vec::axiom_spec_len(self);
    }

    fn read_at(&self, pos: usize, buf: &mut [u8]) -> (r: io::Result<usize>) {
        Ok(copy_from_at(self.as_slice(), pos, buf))
    }

    fn size(&self) -> (r: io::Result<usize>) {
        Ok(self.len())
    }
}

impl<'a> PositionedReader for &'a [u8] {
    open spec fn contents(&self) -> Seq<u8> {
        (*self)@
    }

    open spec fn reads_infallible(&self) -> bool {
        true
    }

    proof fn lemma_reads_infallible(&self) {
        vstd::slice::axiom_spec_len(*self);
    }

    fn read_at(&self, pos: usize, buf: &mut [u8]) -> (r: io::Result<usize>) {
        let s: &[u8] = *self;
        let n = copy_from_at(s, pos, buf);
        assert(s@ == self.contents());
        Ok(n)
    }

    fn size(&self) -> (r: io::Result<usize>) {
        Ok(self.len())
    }
}

impl<'b, T: PositionedReader> PositionedReader for &'b T {
    open spec fn contents(&self) -> Seq<u8> {
        (**self).contents()
    }

    open spec fn reads_infallible(&self) -> bool {
        (**self).reads_infallible()
    }

    proof fn lemma_reads_infallible(&self) {
        (**self).lemma_reads_infallible();
    }

    fn read_at(&self, pos: usize, buf: &mut [u8]) -> (r: io::Result<usize>) {
        (**self).read_at(pos, buf)
    }

    fn size(&self) -> (r: io::Result<usize>) {
        (**self).size()
    }
}

impl<'b, T: PositionedReader> PositionedReader for &'b mut T {
    open spec fn contents(&self) -> Seq<u8> {
        (**self).contents()
    }

    open spec fn reads_infallible(&self) -> bool {
        (**self).reads_infallible()
    }

    proof fn lemma_reads_infallible(&self) {
        (**self).lemma_reads_infallible();
    }

    fn read_at(&self, pos: usize, buf: &mut [u8]) -> (r: io::Result<usize>) {
        (**self).read_at(pos, buf)
    }

    fn size(&self) -> (r: io::Result<usize>) {
        (**self).size()
    }
}

/// Where a seek goes: to an offset from the start, from the end of the
/// source, or from the current position (as `std::io::SeekFrom`).
#[derive(Clone, Copy, PartialEq, Eq, Structural, Debug)]
pub enum SeekFrom {
    Start(u64),
    End(i64),
    Current(i64),
}

/// A reader (or writer) that keeps its own position, for sequential use.
pub struct PositionedCursor<I> {
    inner: I,
    pos: usize,
}

impl<I> PositionedCursor<I> {
    pub closed spec fn inner(self) -> I {
        self.inner
    }

    pub closed spec fn position(self) -> usize {
        self.pos
    }

    pub fn new(inner: I) -> (c: Self)
        ensures
            c.inner() == inner,
            c.position() == 0,
    {
        Self { inner, pos: 0 }
    }
}

impl<I: PositionedReader> PositionedCursor<I> {
    /// Reads from the current position and moves past what was read.
    pub fn read(&mut self, buf: &mut [u8]) -> (r: io::Result<usize>)
        requires
            old(self).position() + old(buf)@.len() <= usize::MAX,
        ensures
            final(self).inner() == old(self).inner(),
            final(buf)@.len() == old(buf)@.len(),
            old(self).inner().reads_infallible() ==> r is Ok,
            match r {
                Ok(n) => {
                    &&& read_result(
                        old(self).inner().contents(),
                        old(self).position() as int,
                        old(buf)@,
                        final(buf)@,
                        n as int,
                    )
                    &&& final(self).position() == old(self).position() + n
                },
                Err(_) => final(self).position() == old(self).position(),
            },
    {
        let bytes = self.inner.read_at(self.pos, buf)?;
        self.pos = self.pos + bytes;
        Ok(bytes)
    }
}

impl<I: PositionedWriter> PositionedCursor<I> {
    /// Writes at the current position and moves past what was written.
    pub fn write(&mut self, buf: &[u8]) -> (r: io::Result<usize>)
        requires
            old(self).position() + buf@.len() <= usize::MAX,
        ensures
            old(self).inner().writes_infallible() ==> r is Ok && final(self).inner().writes_infallible(),
            match r {
                Ok(n) => {
                    &&& n <= buf@.len()
                    &&& final(self).inner().written_contents() == written(
                        old(self).inner().written_contents(),
                        old(self).position() as int,
                        buf@,
                        n as int,
                    )
                    &&& final(self).position() == old(self).position() + n
                },
                Err(_) => final(self).position() == old(self).position(),
            },
    {
        let pos = self.pos;
        let bytes = self.inner.write_at(pos, buf)?;
        self.pos = self.pos + bytes;
        Ok(bytes)
    }

    pub fn flush(&mut self) -> (r: io::Result<()>)
        ensures
            final(self).position() == old(self).position(),
            final(self).inner().written_contents() == old(self).inner().written_contents(),
            old(self).inner().writes_infallible() ==> r is Ok && final(self).inner().writes_infallible(),
    {
        self.inner.flush()
    }
}

/// What a successful positioned write of `n` bytes of `buf` at `pos` makes
/// of the sink's contents: those bytes replace `[pos, pos + n)`, the sink
/// growing (with zero bytes before `pos` if needed) to hold them.
pub open spec fn written(contents: Seq<u8>, pos: int, buf: Seq<u8>, n: int) -> Seq<u8> {
    let end = if contents.len() >= pos + n {
        contents.len() as int
    } else {
        pos + n
    };
    Seq::new(
        end as nat,
        |i: int|
            if pos <= i < pos + n {
                buf[i - pos]
            } else if i < contents.len() {
                contents[i]
            } else {
                0u8
            },
    )
}

/// A sink of bytes that can be written at any position.
///
/// A sink whose writes cannot fail, and that takes at least one byte of every
/// non-empty buffer, says so by `writes_infallible`.
pub trait PositionedWriter {
    spec fn written_contents(&self) -> Seq<u8>;

    /// Writes to this sink never fail and make progress.
    spec fn writes_infallible(&self) -> bool;

    /// Writes bytes from a buffer to an offset, returning the number of bytes
    /// written.
    ///
    /// This function may write fewer bytes than the size of `buf`, for example
    /// if it is interrupted.
    fn write_at(&mut self, pos: usize, buf: &[u8]) -> (r: io::Result<usize>)
        ensures
            old(self).writes_infallible() ==> r is Ok && (buf@.len() > 0 ==> r->Ok_0 > 0)
                && final(self).writes_infallible(),
            r is Ok ==> r->Ok_0 <= buf@.len() && final(self).written_contents() == written(
                old(self).written_contents(),
                pos as int,
                buf@,
                r->Ok_0 as int,
            ),
    ;

    /// Flush this writer, ensuring that any intermediately buffered data
    /// reaches its destination.
    fn flush(&mut self) -> (r: io::Result<()>)
        ensures
            final(self).written_contents() == old(self).written_contents(),
            old(self).writes_infallible() ==> r is Ok && final(self).writes_infallible(),
    ;

    /// Writes a complete buffer at an offset.
    ///
    /// Errors if it could not write the entire buffer.
    fn write_all_at(&mut self, pos: usize, buf: &[u8]) -> (r: io::Result<()>)
        requires
            pos + buf@.len() <= usize::MAX,
        ensures
            old(self).writes_infallible() ==> r is Ok,
            r is Ok && buf@.len() > 0 ==> final(self).written_contents().len() >= pos
                + buf@.len()
                && final(self).written_contents().subrange(pos as int, pos + buf@.len())
                == buf@,
    {
        let mut done: usize = 0;
        let ghost c0 = self.written_contents();
        while done < buf.len()
            invariant
                0 <= done <= buf@.len(),
                pos + buf@.len() <= usize::MAX,
                old(self).writes_infallible() ==> self.writes_infallible(),
                done > 0 ==> self.written_contents().len() >= pos + done,
                done > 0 ==> self.written_contents().subrange(pos as int, pos + done)
                    == buf@.subrange(0, done as int),
            decreases buf@.len() - done,
        {
            let mut rest: Vec<u8> = Vec::new();
            let mut k: usize = done;
            while k < buf.len()
                invariant
                    done <= k <= buf@.len(),
                    rest@ == buf@.subrange(done as int, k as int),
                decreases buf@.len() - k,
            {
                rest.push(buf[k]);
                k = k + 1;
                proof {
                    assert(rest@ =~= buf@.subrange(done as int, k as int));
                }
            }
            let ghost before = self.written_contents();
            let n = match self.write_at(pos + done, rest.as_slice()) {
                Ok(n) => n,
                Err(e) => {
                    return Err(e);
                },
            };
            if n == 0 {
                return Err(write_zero_error());
            }
            proof {
                let after = self.written_contents();
                assert(after == written(before, pos + done, rest@, n as int));
                assert forall|t: int| 0 <= t < done + n implies after[pos + t] == buf@[t] by {
                    if t < done {
                        assert(before.subrange(pos as int, pos + done)[t] == before[pos + t]);
                        assert(buf@.subrange(0, done as int)[t] == buf@[t]);
                    } else {
                        assert(rest@[t - done] == buf@[t]);
                    }
                }
                assert(after.subrange(pos as int, pos + done + n) =~= buf@.subrange(
                    0,
                    done + n,
                ));
            }
            done = done + n;
        }
        proof {
            assert(buf@.subrange(0, buf@.len() as int) =~= buf@);
        }
        Ok(())
    }
}

impl<I: PositionedReader> PositionedCursor<I> {
    /// Moves the position; an offset from the end or from the current
    /// position is added as a `usize` (a negative offset wraps around, as
    /// `as usize` does).
    pub fn seek(&mut self, pos: SeekFrom) -> (r: io::Result<u64>)
        requires
            pos matches SeekFrom::Current(p) ==> old(self).position() + (p as usize) <= usize::MAX,
            pos matches SeekFrom::End(p) ==> old(self).inner().contents().len() + (p as usize)
                <= usize::MAX,
        ensures
            final(self).inner() == old(self).inner(),
            !(pos is End) || old(self).inner().reads_infallible() ==> r is Ok,
            match r {
                Ok(at) => {
                    &&& at == final(self).position()
                    &&& final(self).position() == match pos {
                        SeekFrom::Start(p) => p as usize,
                        SeekFrom::Current(p) => (old(self).position() + (p as usize)) as usize,
                        SeekFrom::End(p) => (old(self).inner().contents().len() + (p as usize)) as usize,
                    }
                },
                Err(_) => final(self).position() == old(self).position(),
            },
    {
        let pos = match pos {
            SeekFrom::Start(p) => p as usize,
            SeekFrom::Current(p) => self.pos + (p as usize),
            SeekFrom::End(p) => {
                let size = self.inner.size()?;
                size + (p as usize)
            },
        };
        self.pos = pos;
        Ok(self.pos as u64)
    }
}

impl<'b, T: PositionedWriter> PositionedWriter for &'b mut T {
    open spec fn written_contents(&self) -> Seq<u8> {
        (**self).written_contents()
    }

    open spec fn writes_infallible(&self) -> bool {
        (**self).writes_infallible()
    }

    fn write_at(&mut self, pos: usize, buf: &[u8]) -> (r: io::Result<usize>) {
        (**self).write_at(pos, buf)
    }

    fn flush(&mut self) -> (r: io::Result<()>) {
        (**self).flush()
    }
}

} // verus!
