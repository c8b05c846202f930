//! The I/O backend capability: transfer whole buffers between memory and
//! one flat byte store, addressed by absolute byte offsets.
//!
//! Two interchangeable implementations are provided, mirroring the two ways
//! a host can move the bytes: `RamDisk` commits each transfer positionally
//! in one step, the way a completion-ring submission does, while `SeekDisk`
//! first seeks and then transfers sequentially, the way a blocking
//! seek-then-write worker does. Both meet the same contract, so everything
//! built on a [`Backend`] behaves identically over either.

use vstd::prelude::*;

verus! {

/// Failure of a backend transfer.
#[derive(Clone, Copy, PartialEq, Eq, Structural, Debug)]
pub enum IoError {
    /// Fewer bytes were available than the read asked for.
    ShortRead,
}

/// The byte store after writing `data` at `offset`: bytes below `offset`
/// keep their value, the written span holds `data`, and the store grows
/// when the write runs past its old end.
pub open spec fn store_bytes(disk: Seq<u8>, offset: int, data: Seq<u8>) -> Seq<u8> {
    disk.take(offset) + data + (if offset + data.len() < disk.len() {
        disk.skip(offset + data.len())
    } else {
        Seq::empty()
    })
}

/// A backend moves whole buffers between memory and one flat byte store.
/// `write_at` commits exactly the caller's buffer at the given offset;
/// `read_at` returns exactly `size` bytes, or fails when the store ends
/// first. Callers are trusted to keep offsets and buffer sizes
/// block-aligned; the backend does not re-validate alignment.
pub trait Backend: View<V = Seq<u8>> + Sized {
    /// Number of bytes the store holds; seeds the write cursor at startup.
    fn byte_len(&self) -> (r: u64)
        requires
            self@.len() <= u64::MAX,
        ensures
            r == self@.len(),
    ;

    /// Commits exactly `data.len()` bytes at `offset`.
    fn write_at(&mut self, data: Vec<u8>, offset: u64) -> (r: Result<(), IoError>)
        requires
            offset <= old(self)@.len(),
            offset + data@.len() <= usize::MAX,
        ensures
            r is Ok,
            final(self)@ == store_bytes(old(self)@, offset as int, data@),
    ;

    /// Returns exactly `size` bytes starting at `offset`, or fails when the
    /// store ends before `offset + size`.
    fn read_at(&self, size: u64, offset: u64) -> (r: Result<Vec<u8>, IoError>)
        ensures
            r is Ok <==> offset + size <= self@.len(),
            r matches Ok(v) ==> v@ == self@.subrange(offset as int, offset + size),
            r matches Err(e) ==> e == IoError::ShortRead,
    ;
}

/// A byte store written positionally: each transfer lands at its absolute
/// offset in one step, as a completion-ring submission does.
pub struct RamDisk {
    bytes: Vec<u8>,
}

impl View for RamDisk {
    type V = Seq<u8>;

    closed spec fn view(&self) -> Seq<u8> {
        self.bytes@
    }
}

impl RamDisk {
    /// An empty store.
    pub fn new() -> (r: RamDisk)
        ensures
            r@ == Seq::<u8>::empty(),
    {
        RamDisk { bytes: Vec::new() }
    }

    /// A store that begins with the given bytes, as a reopened backing
    /// file would.
    pub fn from_bytes(bytes: Vec<u8>) -> (r: RamDisk)
        ensures
            r@ == bytes@,
    {
        RamDisk { bytes }
    }
}

impl Backend for RamDisk {
    fn byte_len(&self) -> (r: u64) {
        self.bytes.len() as u64
    }

    fn write_at(&mut self, data: Vec<u8>, offset: u64) -> (r: Result<(), IoError>) {
        let ghost d0 = self.bytes@;
        let off = offset as usize;
        let n = data.len();
        let mut i: usize = 0;
        while i < n
            invariant
                0 <= i <= n,
                n == data@.len(),
                off == offset,
                off <= d0.len(),
                off + n <= usize::MAX,
                self.bytes@.len() == (if off + i <= d0.len() {
                    d0.len() as int
                } else {
                    off + i
                }),
                forall|j: int|
                    0 <= j < self.bytes@.len() && !(off <= j < off + i) ==> self.bytes@[j]
                        == d0[j],
                forall|j: int| off <= j < off + i ==> self.bytes@[j] == data@[j - off],
            decreases n - i,
        {
            if off + i < self.bytes.len() {
                self.bytes[off + i] = data[i];
            } else {
                self.bytes.push(data[i]);
            }
            i += 1;
        }
        proof {
            assert(self.bytes@ =~= store_bytes(d0, offset as int, data@));
        }
        Ok(())
    }

    fn read_at(&self, size: u64, offset: u64) -> (r: Result<Vec<u8>, IoError>) {
        let len = self.bytes.len() as u64;
        if offset > len || size > len - offset {
            return Err(IoError::ShortRead);
        }
        let off = offset as usize;
        let sz = size as usize;
        let mut out: Vec<u8> = Vec::new();
        let mut i: usize = 0;
        while i < sz
            invariant
                0 <= i <= sz,
                off == offset,
                sz == size,
                off + sz <= usize::MAX,
                off + sz <= self.bytes@.len(),
                out@.len() == i,
                forall|j: int| 0 <= j < i ==> out@[j] == self.bytes@[off + j],
            decreases sz - i,
        {
            out.push(self.bytes[off + i]);
            i += 1;
        }
        proof {
            assert(out@ =~= self@.subrange(offset as int, offset + size));
        }
        Ok(out)
    }
}

/// A byte store written through a seek cursor: each transfer first moves
/// the cursor to its offset and then runs sequentially, as a blocking
/// seek-then-write worker does.
pub struct SeekDisk {
    bytes: Vec<u8>,
    pos: usize,
}

impl View for SeekDisk {
    type V = Seq<u8>;

    closed spec fn view(&self) -> Seq<u8> {
        self.bytes@
    }
}

impl SeekDisk {
    /// An empty store with the cursor at its start.
    pub fn new() -> (r: SeekDisk)
        ensures
            r@ == Seq::<u8>::empty(),
    {
        SeekDisk { bytes: Vec::new(), pos: 0 }
    }

    /// A store that begins with the given bytes, as a reopened backing
    /// file would.
    pub fn from_bytes(bytes: Vec<u8>) -> (r: SeekDisk)
        ensures
            r@ == bytes@,
    {
        SeekDisk { bytes, pos: 0 }
    }
}

impl Backend for SeekDisk {
    fn byte_len(&self) -> (r: u64) {
        self.bytes.len() as u64
    }

    fn write_at(&mut self, data: Vec<u8>, offset: u64) -> (r: Result<(), IoError>) {
        let ghost d0 = self.bytes@;
        // Seek to the absolute offset, then transfer one byte at a time.
        self.pos = offset as usize;
        let n = data.len();
        let mut i: usize = 0;
        while i < n
            invariant
                0 <= i <= n,
                n == data@.len(),
                self.pos == offset + i,
                offset <= d0.len(),
                offset + n <= usize::MAX,
                self.bytes@.len() == (if offset + i <= d0.len() {
                    d0.len() as int
                } else {
                    offset + i
                }),
                forall|j: int|
                    0 <= j < self.bytes@.len() && !(offset <= j < offset + i) ==> self.bytes@[j]
                        == d0[j],
                forall|j: int| offset <= j < offset + i ==> self.bytes@[j] == data@[j - offset],
            decreases n - i,
        {
            if self.pos < self.bytes.len() {
                self.bytes[self.pos] = data[i];
            } else {
                self.bytes.push(data[i]);
            }
            self.pos = self.pos + 1;
            i += 1;
        }
        proof {
            assert(self.bytes@ =~= store_bytes(d0, offset as int, data@));
        }
        Ok(())
    }

    fn read_at(&self, size: u64, offset: u64) -> (r: Result<Vec<u8>, IoError>) {
        let len = self.bytes.len() as u64;
        if offset > len || size > len - offset {
            return Err(IoError::ShortRead);
        }
        // A read goes through its own duplicated handle, so it does not
        // move this handle's cursor.
        let mut cursor = offset as usize;
        let sz = size as usize;
        let mut out: Vec<u8> = Vec::new();
        let mut i: usize = 0;
        while i < sz
            invariant
                0 <= i <= sz,
                cursor == offset + i,
                sz == size,
                offset + sz <= usize::MAX,
                offset + sz <= self.bytes@.len(),
                out@.len() == i,
                forall|j: int| 0 <= j < i ==> out@[j] == self.bytes@[offset + j],
            decreases sz - i,
        {
            out.push(self.bytes[cursor]);
            cursor += 1;
            i += 1;
        }
        proof {
            assert(out@ =~= self@.subrange(offset as int, offset + size));
        }
        Ok(out)
    }
}

} // verus!
