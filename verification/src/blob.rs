//! Blobs: byte sequences that are stored as a head block, which carries a
//! header, and continuation blocks.

use crate::error::Error;
use vstd::prelude::*;

verus! {

/// The size of a block in bytes.
pub const BLOCK_SIZE: u64 = 32768;

/// Where to seek to.
#[derive(Clone, Copy, Debug, PartialEq, Eq, Structural)]
pub enum SeekFrom {
    /// So many bytes from the start.
    Start(u64),
    /// So many bytes from the end; behind the end if positive.
    End(i64),
    /// So many bytes from the current position.
    Current(i64),
}

/// The number of content bytes that the head block holds beside a header
/// of the given size.
pub open spec fn head_capacity(header_size: u64) -> int {
    BLOCK_SIZE - header_size
}

/// The number of blocks that a blob of the given length takes, as a
/// specification: the head block, and as many continuation blocks as the
/// content that the head block does not hold needs.
pub open spec fn spec_block_count(len: u64, header_size: u64) -> int {
    if len <= head_capacity(header_size) {
        1
    } else {
        1 + (len - head_capacity(header_size) + BLOCK_SIZE - 1) / (BLOCK_SIZE as int)
    }
}

/// The number of blocks that a blob of the given length takes.
pub fn block_count(len: u64, header_size: u64) -> (r: u64)
    requires
        header_size <= BLOCK_SIZE,
    ensures
        r == spec_block_count(len, header_size),
        r >= 1,
{
    let capacity = BLOCK_SIZE - header_size;
    if len <= capacity {
        1
    } else {
        let rest = len - capacity;
        // Rounded up, without leaving the range of the type.
        let full = rest / BLOCK_SIZE;
        let partial: u64 = if rest % BLOCK_SIZE == 0 {
            0
        } else {
            1
        };
        assert((rest + BLOCK_SIZE - 1) / (BLOCK_SIZE as int) == full + partial);
        1 + full + partial
    }
}

/// Where a byte of a blob sits: in which block, the head block being block
/// zero, and at which offset in that block.
#[derive(Clone, Copy, Debug, PartialEq, Eq, Structural)]
pub struct BlockPosition {
    pub block: u64,
    pub offset: u64,
}

/// Where the byte at `pos` sits, as a specification. In the head block the
/// content starts behind the header.
pub open spec fn spec_locate(pos: u64, header_size: u64) -> BlockPosition {
    if pos < head_capacity(header_size) {
        BlockPosition { block: 0, offset: (header_size + pos) as u64 }
    } else {
        BlockPosition {
            block: (1 + (pos - head_capacity(header_size)) / (BLOCK_SIZE as int)) as u64,
            offset: ((pos - head_capacity(header_size)) % (BLOCK_SIZE as int)) as u64,
        }
    }
}

/// Where the byte at `pos` sits.
pub fn locate(pos: u64, header_size: u64) -> (r: BlockPosition)
    requires
        header_size <= BLOCK_SIZE,
    ensures
        r == spec_locate(pos, header_size),
        r.offset < BLOCK_SIZE,
{
    let capacity = BLOCK_SIZE - header_size;
    if pos < capacity {
        BlockPosition { block: 0, offset: header_size + pos }
    } else {
        let rest = pos - capacity;
        BlockPosition { block: 1 + rest / BLOCK_SIZE, offset: rest % BLOCK_SIZE }
    }
}

/// Every byte of a blob sits in one of its blocks.
pub proof fn law_bytes_sit_in_blocks(pos: u64, len: u64, header_size: u64)
    requires
        header_size <= BLOCK_SIZE,
        pos < len,
    ensures
        spec_locate(pos, header_size).block < spec_block_count(len, header_size),
{
    let capacity = head_capacity(header_size);
    if pos >= capacity {
        let a = pos - capacity;
        let b = len - capacity;
        assert(a / (BLOCK_SIZE as int) < (b + BLOCK_SIZE - 1) / (BLOCK_SIZE as int));
    }
}

/// How far a negative offset reaches back.
fn magnitude(n: i64) -> (r: u64)
    requires
        n < 0,
    ensures
        r == -(n as int),
{
    if n == i64::MIN {
        9223372036854775808u64
    } else {
        (-n) as u64
    }
}

/// The chunks put one behind the other.
pub open spec fn joined(chunks: Seq<Seq<u8>>) -> Seq<u8>
    decreases chunks.len(),
{
    if chunks.len() == 0 {
        Seq::empty()
    } else {
        joined(chunks.drop_last()) + chunks.last()
    }
}

/// The chunks as sequences of bytes.
pub open spec fn chunk_views(chunks: Seq<Vec<u8>>) -> Seq<Seq<u8>> {
    chunks.map_values(|c: Vec<u8>| c@)
}

/// A blob held in memory: its content, the position of its cursor, and
/// whether it holds changes that were not written out.
#[derive(Debug)]
pub struct Blob {
    content: Vec<u8>,
    pos: usize,
    dirty: bool,
}

impl View for Blob {
    type V = Seq<u8>;

    closed spec fn view(&self) -> Seq<u8> {
        self.content@
    }
}

impl Blob {
    /// The cursor is within the content or at its end.
    pub closed spec fn wf(&self) -> bool {
        self.pos <= self.content@.len()
    }

    /// The position of the cursor.
    pub closed spec fn cursor(&self) -> nat {
        self.pos as nat
    }

    /// Whether there are changes that were not written out.
    pub closed spec fn dirty(&self) -> bool {
        self.dirty
    }

    /// A new blob without content.
    pub fn create() -> (r: Self)
        ensures
            r.wf(),
            r@ == Seq::<u8>::empty(),
            r.cursor() == 0,
            r.dirty(),
    {
        Blob { content: Vec::new(), pos: 0, dirty: true }
    }

    /// A blob with the content that was read from the store.
    pub fn open(content: Vec<u8>) -> (r: Self)
        ensures
            r.wf(),
            r@ == content@,
            r.cursor() == 0,
            !r.dirty(),
    {
        Blob { content, pos: 0, dirty: false }
    }

    /// Length of the blob in bytes.
    pub fn len(&self) -> (r: usize)
        ensures
            r == self@.len(),
    {
        self.content.len()
    }

    pub fn is_dirty(&self) -> (r: bool)
        ensures
            r == self.dirty(),
    {
        self.dirty
    }

    /// Notes that the changes were written out.
    pub fn mark_flushed(&mut self)
        ensures
            final(self)@ == old(self)@,
            final(self).cursor() == old(self).cursor(),
            !final(self).dirty(),
            old(self).wf() ==> final(self).wf(),
    {
        self.dirty = false;
    }

    /// Reads from the cursor on into `buffer`, as much as there is and as
    /// fits, and moves the cursor behind what was read. Returns the number
    /// of bytes read.
    pub fn read(&mut self, buffer: &mut Vec<u8>) -> (r: usize)
        requires
            old(self).wf(),
        ensures
            final(self).wf(),
            final(self)@ == old(self)@,
            final(self).dirty() == old(self).dirty(),
            r == (if old(buffer)@.len() <= old(self)@.len() - old(self).cursor() {
                old(buffer)@.len() as int
            } else {
                old(self)@.len() - old(self).cursor()
            }),
            final(self).cursor() == old(self).cursor() + r,
            final(buffer)@.len() == old(buffer)@.len(),
            final(buffer)@.take(r as int) == old(self)@.subrange(old(self).cursor() as int, old(self).cursor() + r),
            final(buffer)@.skip(r as int) == old(buffer)@.skip(r as int),
    {
        let available = self.content.len() - self.pos;
        let count = if buffer.len() <= available {
            buffer.len()
        } else {
            available
        };
        let start = self.pos;
        let mut i: usize = 0;
        while i < count
            invariant
                0 <= i <= count,
                count <= buffer@.len(),
                start + count <= self.content@.len(),
                self.content@.len() <= usize::MAX,
                start == self.pos,
                self.pos == old(self).pos,
                self.content@ == old(self).content@,
                self.dirty == old(self).dirty,
                buffer@.len() == old(buffer)@.len(),
                buffer@.take(i as int) == self.content@.subrange(start as int, start + i),
                buffer@.skip(i as int) == old(buffer)@.skip(i as int),
            decreases count - i,
        {
            let ghost before = buffer@;
            buffer.set(i, self.content[start + i]);
            proof {
                assert(buffer@.take(i + 1) =~= before.take(i as int).push(self.content@[start + i]));
                assert(self.content@.subrange(start as int, start + i + 1) =~= self.content@.subrange(
                    start as int,
                    start + i,
                ).push(self.content@[start + i]));
                assert(buffer@.skip(i + 1) =~= before.skip(i as int).skip(1));
                assert(old(buffer)@.skip(i + 1) =~= old(buffer)@.skip(i as int).skip(1));
            }
            i = i + 1;
        }
        self.pos = start + count;
        count
    }

    /// Reads everything from the cursor to the end and moves the cursor there.
    pub fn read_to_end(&mut self) -> (r: Vec<u8>)
        requires
            old(self).wf(),
        ensures
            final(self).wf(),
            final(self)@ == old(self)@,
            final(self).dirty() == old(self).dirty(),
            final(self).cursor() == old(self)@.len(),
            r@ == old(self)@.skip(old(self).cursor() as int),
    {
        let mut out: Vec<u8> = Vec::new();
        let start = self.pos;
        let mut i: usize = start;
        assert(self.content@.subrange(start as int, start as int) =~= Seq::<u8>::empty());
        while i < self.content.len()
            invariant
                start <= i <= self.content@.len(),
                self.pos == old(self).pos,
                start == self.pos,
                self.content@ == old(self).content@,
                self.dirty == old(self).dirty,
                out@ == self.content@.subrange(start as int, i as int),
            decreases self.content@.len() - i,
        {
            out.push(self.content[i]);
            assert(self.content@.subrange(start as int, i + 1) =~= self.content@.subrange(start as int, i as int).push(
                self.content@[i as int],
            ));
            i = i + 1;
        }
        assert(self.content@.subrange(start as int, self.content@.len() as int) =~= self.content@.skip(start as int));
        self.pos = self.content.len();
        out
    }

    /// Copies what stands from the cursor to the end, in the chunks that a
    /// copy through a buffer of `buffer_len` bytes makes: every chunk fills
    /// the buffer but the last one, which does not and may be empty. The
    /// cursor moves to the end.
    pub fn copy_chunks(&mut self, buffer_len: usize) -> (r: Vec<Vec<u8>>)
        requires
            old(self).wf(),
            buffer_len > 0,
        ensures
            final(self).wf(),
            final(self)@ == old(self)@,
            final(self).dirty() == old(self).dirty(),
            final(self).cursor() == old(self)@.len(),
            joined(chunk_views(r@)) == old(self)@.skip(old(self).cursor() as int),
            r@.len() >= 1,
            forall|i: int| 0 <= i < r@.len() - 1 ==> (#[trigger] r@[i])@.len() == buffer_len,
            r@[r@.len() - 1]@.len() < buffer_len,
    {
        let mut out: Vec<Vec<u8>> = Vec::new();
        let start = self.pos;
        let total = self.content.len();
        let mut goes_on = true;
        proof {
            assert(self.content@.subrange(start as int, start as int) =~= Seq::<u8>::empty());
            assert(chunk_views(out@) =~= Seq::<Seq<u8>>::empty());
        }
        while goes_on
            invariant
                buffer_len > 0,
                start == old(self).pos,
                self.content@ == old(self).content@,
                self.dirty == old(self).dirty,
                start <= self.pos <= self.content@.len(),
                total == self.content@.len(),
                joined(chunk_views(out@)) == self.content@.subrange(start as int, self.pos as int),
                goes_on ==> forall|i: int| 0 <= i < out@.len() ==> (#[trigger] out@[i])@.len() == buffer_len,
                !goes_on ==> out@.len() >= 1 && self.pos == self.content@.len() && out@[out@.len() - 1]@.len() < buffer_len
                    && forall|i: int| 0 <= i < out@.len() - 1 ==> (#[trigger] out@[i])@.len() == buffer_len,
            decreases 2 * (self.content@.len() - self.pos) + (if goes_on { 1int } else { 0int }),
        {
            let available = total - self.pos;
            let count = if buffer_len <= available {
                buffer_len
            } else {
                available
            };
            let from = self.pos;
            let mut chunk: Vec<u8> = Vec::new();
            let mut k: usize = 0;
            assert(self.content@.subrange(from as int, from as int) =~= Seq::<u8>::empty());
            while k < count
                invariant
                    0 <= k <= count,
                    from + count <= self.content@.len(),
                    self.content@.len() <= usize::MAX,
                    chunk@ == self.content@.subrange(from as int, from + k),
                decreases count - k,
            {
                chunk.push(self.content[from + k]);
                assert(self.content@.subrange(from as int, from + k + 1) =~= self.content@.subrange(
                    from as int,
                    from + k,
                ).push(self.content@[from + k]));
                k = k + 1;
            }
            let ghost before = out@;
            out.push(chunk);
            self.pos = from + count;
            goes_on = crate::interface::copy_goes_on(count, buffer_len);
            proof {
                let views = chunk_views(out@);
                assert(views.drop_last() =~= chunk_views(before));
                assert(views.last() == chunk@);
                assert(self.content@.subrange(start as int, from as int) + self.content@.subrange(
                    from as int,
                    from + count,
                ) =~= self.content@.subrange(start as int, from + count));
                assert forall|i: int| 0 <= i < out@.len() - 1 implies (#[trigger] out@[i])@.len() == buffer_len by {
                    assert(out@[i] == before[i]);
                }
            }
        }
        proof {
            assert(self.content@.subrange(start as int, self.content@.len() as int) =~= self.content@.skip(start as int));
        }
        out
    }

    /// The content after `buffer` was written at the position `at`: what
    /// stood there is overwritten, and what reaches beyond the end
    /// lengthens the content.
    pub open spec fn written(content: Seq<u8>, at: int, buffer: Seq<u8>) -> Seq<u8> {
        content.take(at) + buffer + content.skip(if at + buffer.len() <= content.len() {
            at + buffer.len()
        } else {
            content.len() as int
        })
    }

    /// Writes `buffer` at the cursor and moves the cursor behind it.
    pub fn write(&mut self, buffer: &[u8])
        requires
            old(self).wf(),
            old(self)@.len() + buffer@.len() <= usize::MAX,
        ensures
            final(self).wf(),
            final(self)@ == Self::written(old(self)@, old(self).cursor() as int, buffer@),
            final(self).cursor() == old(self).cursor() + buffer@.len(),
            final(self).dirty() == (old(self).dirty() || buffer@.len() > 0),
    {
        let start = self.pos;
        let mut i: usize = 0;
        assert(self.content@ =~= Self::written(self.content@, start as int, buffer@.take(0)));
        while i < buffer.len()
            invariant
                0 <= i <= buffer@.len(),
                start == old(self).pos,
                start <= old(self).content@.len(),
                old(self).content@.len() + buffer@.len() <= usize::MAX,
                self.dirty == old(self).dirty,
                self.content@ == Self::written(old(self).content@, start as int, buffer@.take(i as int)),
            decreases buffer@.len() - i,
        {
            let ghost before = self.content@;
            let ghost orig = old(self).content@;
            if start + i < self.content.len() {
                self.content.set(start + i, buffer[i]);
            } else {
                self.content.push(buffer[i]);
            }
            proof {
                assert(buffer@.take(i + 1) =~= buffer@.take(i as int).push(buffer@[i as int]));
                assert(self.content@ =~= Self::written(orig, start as int, buffer@.take(i + 1)));
            }
            i = i + 1;
        }
        assert(buffer@.take(buffer@.len() as int) =~= buffer@);
        self.pos = start + buffer.len();
        if buffer.len() > 0 {
            self.dirty = true;
        }
    }

    /// The position that a seek leads to, as a specification: the place
    /// asked for, but no further back than the start and no further on
    /// than the end.
    pub open spec fn seek_target(len: int, cursor: int, pos: SeekFrom) -> int {
        let wanted = match pos {
            SeekFrom::Start(n) => n as int,
            SeekFrom::End(n) => len + n,
            SeekFrom::Current(n) => cursor + n,
        };
        if wanted < 0 {
            0
        } else if wanted > len {
            len
        } else {
            wanted
        }
    }

    /// Moves the cursor and returns its new position.
    pub fn seek(&mut self, pos: SeekFrom) -> (r: u64)
        requires
            old(self).wf(),
        ensures
            final(self).wf(),
            final(self)@ == old(self)@,
            final(self).dirty() == old(self).dirty(),
            r == Self::seek_target(old(self)@.len() as int, old(self).cursor() as int, pos),
            final(self).cursor() == r,
    {
        let len = self.content.len() as u64;
        let target: u64 = match pos {
            SeekFrom::Start(n) => if n > len {
                len
            } else {
                n
            },
            SeekFrom::End(n) => if n >= 0 {
                len
            } else {
                let back = magnitude(n);
                if back > len {
                    0
                } else {
                    len - back
                }
            },
            SeekFrom::Current(n) => {
                let cursor = self.pos as u64;
                if n >= 0 {
                    if n as u64 > len - cursor {
                        len
                    } else {
                        cursor + n as u64
                    }
                } else {
                    let back = magnitude(n);
                    if back > cursor {
                        0
                    } else {
                        cursor - back
                    }
                }
            },
        };
        self.pos = target as usize;
        target
    }

    /// Shortens the blob to `len` bytes. A cursor behind the new end moves
    /// to the new end. A length beyond the end is refused.
    pub fn truncate(&mut self, len: u64) -> (r: Result<(), Error>)
        requires
            old(self).wf(),
        ensures
            final(self).wf(),
            match r {
                Ok(_) => len <= old(self)@.len() && final(self)@ == old(self)@.take(len as int) && final(self).cursor() == (
                if old(self).cursor() <= len {
                    old(self).cursor()
                } else {
                    len as nat
                }) && final(self).dirty() == (old(self).dirty() || len < old(self)@.len()),
                Err(e) => e == Error::OperationNotSupported && len > old(self)@.len() && final(self)@ == old(self)@
                    && final(self).cursor() == old(self).cursor() && final(self).dirty() == old(self).dirty(),
            },
    {
        if len > self.content.len() as u64 {
            return Err(Error::OperationNotSupported);
        }
        let new_len = len as usize;
        if new_len < self.content.len() {
            self.dirty = true;
        }
        self.content.truncate(new_len);
        assert(self.content@ =~= old(self).content@.take(len as int));
        if self.pos > new_len {
            self.pos = new_len;
        }
        Ok(())
    }
}

/// What was written to a new blob is what is read back from its start:
/// the content is what was written, seeking to the start leads to the
/// first byte, and everything from there on is the content.
pub proof fn law_write_then_read(buffer: Seq<u8>, cursor: int)
    requires
        0 <= cursor <= buffer.len(),
    ensures
        Blob::written(Seq::<u8>::empty(), 0, buffer) == buffer,
        Blob::seek_target(buffer.len() as int, cursor, SeekFrom::Start(0)) == 0,
        buffer.skip(0) == buffer,
{
    assert(Blob::written(Seq::<u8>::empty(), 0, buffer) =~= buffer);
    assert(buffer.skip(0) =~= buffer);
}

/// A write changes nothing but the bytes that it covers: the content
/// before the cursor stays, what was written stands at the cursor, and the
/// content behind what was written stays.
pub proof fn law_write_is_local(content: Seq<u8>, at: int, buffer: Seq<u8>)
    requires
        0 <= at <= content.len(),
    ensures
        Blob::written(content, at, buffer).len() == (if at + buffer.len() <= content.len() {
            content.len() as int
        } else {
            at + buffer.len()
        }),
        Blob::written(content, at, buffer).subrange(at, at + buffer.len()) == buffer,
        Blob::written(content, at, buffer).take(at) == content.take(at),
        forall|i: int| at + buffer.len() <= i < content.len() ==> #[trigger] Blob::written(content, at, buffer)[i] == content[i],
{
    let w = Blob::written(content, at, buffer);
    assert(w.subrange(at, at + buffer.len()) =~= buffer);
    assert(w.take(at) =~= content.take(at));
}

} // verus!
