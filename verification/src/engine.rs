//! The storage engine: turns write and read requests into reservations,
//! aligned transfers, and index commits over an I/O backend.
//!
//! A write runs the reserve-transfer-commit protocol: the volume grants a
//! byte range atomically, the padded payload is transferred through the
//! backend, and only then is the identifier committed to the index. A read
//! resolves the identifier, transfers the aligned range back, and truncates
//! it to the logical payload length.

use vstd::prelude::*;
use crate::backend::Backend;
use crate::block::align_data_for_odirect;
use crate::block::align_up;
use crate::block::aligned_size;
use crate::block::lemma_align_up_properties;
use crate::block::lemma_align_within_max;
use crate::block::truncate_payload;
use crate::volume::range_end;
use crate::volume::RecordMeta;
use crate::volume::Volume;

verus! {

/// Outcome of a write request, returned in-payload: on success `offset` is
/// the starting byte position assigned to the payload; on failure `offset`
/// is zero and `error_message` carries the cause.
pub struct WriteResponse {
    pub request_id: String,
    pub offset: u64,
    pub success: bool,
    pub error_message: String,
}

/// Outcome of a successful read: exactly the bytes originally written,
/// with the padding stripped.
pub struct ReadResponse {
    pub request_id: String,
    pub data: Vec<u8>,
    pub success: bool,
    pub error_message: String,
}

/// Protocol-level failure of a read, distinct from the write path's
/// in-payload failure signalling.
#[derive(Clone, Copy, PartialEq, Eq, Structural, Debug)]
pub enum ReadError {
    /// The identifier has no committed write.
    NotFound,
}

/// The storage engine: the volume bookkeeping and a backend onto the byte
/// store, run under the reserve-transfer-commit protocol.
pub struct StorageEngine<B: Backend> {
    volume: Volume,
    file: B,
}

impl<B: Backend> StorageEngine<B> {
    /// Next free, block-aligned byte position in the store.
    pub closed spec fn cursor(self) -> u64 {
        self.volume.cursor()
    }

    /// The committed identifier-to-record map.
    pub closed spec fn index(self) -> Map<Seq<char>, RecordMeta> {
        self.volume.index()
    }

    /// The bytes the store currently holds.
    pub closed spec fn file_bytes(self) -> Seq<u8> {
        self.file@
    }

    /// What each committed identifier denotes: the logical payload bytes
    /// recorded for it, read back from the store.
    pub closed spec fn contents(self) -> Map<Seq<char>, Seq<u8>> {
        Map::new(
            |id: Seq<char>| self.volume.index().contains_key(id),
            |id: Seq<char>|
                self.file@.subrange(
                    self.volume.index()[id].offset as int,
                    self.volume.index()[id].offset + self.volume.index()[id].size,
                ),
        )
    }

    /// The engine's invariant: the volume is well formed, no reservation
    /// is left outstanding between requests, and the store ends exactly at
    /// the write cursor.
    pub closed spec fn wf(self) -> bool {
        &&& self.volume.wf()
        &&& self.volume.reservations() == Seq::<RecordMeta>::empty()
        &&& self.file@.len() == self.volume.cursor()
    }

    /// Whether a payload of `len` bytes still fits in the store: its
    /// aligned footprint must keep the cursor within addressable memory.
    pub open spec fn write_fits(self, len: nat) -> bool {
        &&& len + 511 <= usize::MAX
        &&& self.cursor() + align_up(len as int) <= usize::MAX
    }

    /// An engine over a byte store, continuing to append after whatever
    /// the store already holds; the index starts empty.
    pub fn new(file: B) -> (r: StorageEngine<B>)
        requires
            file@.len() <= u64::MAX,
        ensures
            r.wf(),
            r.cursor() == file@.len(),
            r.contents() == Map::<Seq<char>, Seq<u8>>::empty(),
    {
        let len = file.byte_len();
        let volume = Volume::new(len);
        let r = StorageEngine { volume, file };
        proof {
            assert(r.contents() =~= Map::<Seq<char>, Seq<u8>>::empty());
        }
        r
    }

    fn write_failure(request_id: String) -> (r: WriteResponse)
        ensures
            r.request_id@ == request_id@,
            !r.success,
            r.offset == 0,
            r.error_message@ == "storage capacity exceeded"@,
            r.error_message@.len() > 0,
    {
        proof {
            reveal_strlit("storage capacity exceeded");
        }
        WriteResponse {
            request_id,
            offset: 0,
            success: false,
            error_message: "storage capacity exceeded".to_owned(),
        }
    }

    /// Stores `data` under `request_id`: reserves the next aligned byte
    /// range, transfers the zero-padded payload, and commits the index
    /// entry. On success the response carries the assigned offset and the
    /// store grows by exactly the aligned footprint; a payload that no
    /// longer fits leaves the engine unchanged and is reported in-payload.
    /// Writing an identifier again replaces what it denotes.
    pub fn write_data(&mut self, request_id: String, data: Vec<u8>) -> (r: WriteResponse)
        requires
            old(self).wf(),
        ensures
            final(self).wf(),
            r.request_id@ == request_id@,
            old(self).write_fits(data@.len()) ==> {
                &&& r.success
                &&& r.offset == old(self).cursor()
                &&& r.error_message@ == Seq::<char>::empty()
                &&& final(self).cursor() == old(self).cursor() + align_up(data@.len() as int)
                &&& final(self).file_bytes().len() == old(self).file_bytes().len() + align_up(
                    data@.len() as int,
                )
                &&& final(self).contents() == old(self).contents().insert(request_id@, data@)
            },
            !old(self).write_fits(data@.len()) ==> {
                &&& !r.success
                &&& r.offset == 0
                &&& r.error_message@ == "storage capacity exceeded"@
                &&& r.error_message@.len() > 0
                &&& final(self).cursor() == old(self).cursor()
                &&& final(self).file_bytes() == old(self).file_bytes()
                &&& final(self).contents() == old(self).contents()
            },
    {
        let ghost dview: Seq<u8> = data@;
        let len = data.len();
        if len > usize::MAX - 511 {
            return Self::write_failure(request_id);
        }
        let len_u64 = len as u64;
        let aligned = match aligned_size(len_u64) {
            Some(a) => a,
            None => {
                proof {
                    assert(false);
                }
                return Self::write_failure(request_id);
            },
        };
        let cur = self.volume.current_cursor();
        let fits = match cur.checked_add(aligned) {
            Some(nc) => nc <= usize::MAX as u64,
            None => false,
        };
        if !fits {
            return Self::write_failure(request_id);
        }

        let rid = request_id.clone();
        let ghost pre = *old(self);

        // Reserve: read and advance the cursor in one atomic step.
        let offset = match self.volume.reserve(len_u64) {
            Some(o) => o,
            None => {
                proof {
                    assert(false);
                }
                return Self::write_failure(request_id);
            },
        };
        let ghost m = RecordMeta { offset, size: len_u64 };

        // Transfer the padded payload outside the bookkeeping.
        let padded = align_data_for_odirect(data);
        let ghost padded_view: Seq<u8> = padded@;
        let _ = self.file.write_at(padded, offset);

        // Commit the index entry only after the transfer has completed.
        proof {
            assert(self.volume.reservations()[0] == m);
        }
        self.volume.commit(rid, offset, len_u64);

        proof {
            assert(self.volume.reservations() =~= Seq::<RecordMeta>::empty()) by {
                let k = choose|k: int|
                    0 <= k < pre.volume.reservations().push(m).len()
                        && pre.volume.reservations().push(m)[k] == m
                        && self.volume.reservations() == pre.volume.reservations().push(
                        m,
                    ).remove(k);
            }
            assert(self.file@ =~= pre.file@ + padded_view);
            assert(self.file@.len() == self.volume.cursor());

            pre.volume.lemma_index_within_cursor();
            lemma_align_up_properties(dview.len() as int);

            assert(self.contents() =~= pre.contents().insert(request_id@, dview)) by {
                assert(self.volume.index() == pre.volume.index().insert(request_id@, m));
                assert(self.contents()[request_id@] == dview) by {
                    assert(self.file@.subrange(offset as int, offset + len_u64) =~= dview);
                }
                assert forall|id2: Seq<char>|
                    pre.volume.index().contains_key(id2) && id2 != request_id@
                    implies #[trigger] self.contents()[id2] == pre.contents()[id2] by {
                    let m2 = pre.volume.index()[id2];
                    lemma_align_up_properties(m2.size as int);
                    assert(range_end(m2) <= pre.volume.cursor());
                    assert(self.file@.subrange(m2.offset as int, m2.offset + m2.size)
                        =~= pre.file@.subrange(m2.offset as int, m2.offset + m2.size));
                }
            }
        }

        WriteResponse {
            request_id,
            offset,
            success: true,
            error_message: String::new(),
        }
    }

    /// Retrieves the payload committed under `request_id`: exactly the
    /// original bytes, or a not-found failure when the identifier has
    /// never been committed. Reading never changes the engine, so two
    /// reads of one identifier return identical bytes.
    pub fn read_data(&self, request_id: String) -> (r: Result<ReadResponse, ReadError>)
        requires
            self.wf(),
        ensures
            r is Ok <==> self.contents().contains_key(request_id@),
            r matches Ok(resp) ==> {
                &&& resp.request_id@ == request_id@
                &&& resp.data@ == self.contents()[request_id@]
                &&& resp.success
                &&& resp.error_message@ == Seq::<char>::empty()
            },
            r matches Err(e) ==> e == ReadError::NotFound,
    {
        let meta = match self.volume.lookup(&request_id) {
            Some(meta) => meta,
            None => {
                return Err(ReadError::NotFound);
            },
        };
        proof {
            self.volume.lemma_index_within_cursor();
            lemma_align_up_properties(meta.size as int);
            lemma_align_within_max(meta.size as int);
        }
        let aligned = match aligned_size(meta.size) {
            Some(a) => a,
            None => {
                proof {
                    assert(false);
                }
                return Err(ReadError::NotFound);
            },
        };
        let buf = match self.file.read_at(aligned, meta.offset) {
            Ok(buf) => buf,
            Err(_) => {
                proof {
                    assert(false);
                }
                return Err(ReadError::NotFound);
            },
        };
        let buf_len = buf.len();
        proof {
            assert(buf@.len() == align_up(meta.size as int));
            assert(meta.size <= buf_len);
        }
        let data = truncate_payload(buf, meta.size as usize);
        proof {
            assert(data@ =~= self.contents()[request_id@]);
        }
        Ok(ReadResponse {
            request_id,
            data,
            success: true,
            error_message: String::new(),
        })
    }

    /// Round trip: a successful write of `data` under `id` makes `id`
    /// denote exactly `data`, so a read that follows it returns the
    /// payload unchanged, whatever else the store holds.
    pub proof fn lemma_round_trip(pre: Self, post: Self, id: Seq<char>, data: Seq<u8>)
        requires
            post.contents() == pre.contents().insert(id, data),
        ensures
            post.contents().contains_key(id),
            post.contents()[id] == data,
    {
    }

    /// Alignment: a payload of `len0` bytes written at `off0` occupies
    /// `ceil(len0 / 512) * 512` bytes, so the offset assigned to the write
    /// that follows is exactly `off0` plus that footprint.
    pub proof fn lemma_consecutive_offsets(pre: Self, mid: Self, off0: u64, off1: u64, len0: nat)
        requires
            off0 == pre.cursor(),
            mid.cursor() == pre.cursor() + align_up(len0 as int),
            off1 == mid.cursor(),
        ensures
            off1 == off0 + ((len0 + 511) / 512) * 512,
    {
    }
}

/// Backend equivalence: every response of the engine is pinned by its
/// contract as a function of the cursor and the contents map alone,
/// whatever backend carries the bytes. Two engines that agree on those
/// views therefore answer every request identically, whether the bytes
/// travel through a completion ring or a blocking seek-and-transfer
/// worker.
pub proof fn lemma_backend_equivalence<A: Backend, B: Backend>(
    a: StorageEngine<A>,
    b: StorageEngine<B>,
    id: Seq<char>,
    len: nat,
)
    requires
        a.cursor() == b.cursor(),
        a.contents() == b.contents(),
    ensures
        a.write_fits(len) <==> b.write_fits(len),
        a.contents().contains_key(id) <==> b.contents().contains_key(id),
        a.contents().contains_key(id) ==> a.contents()[id] == b.contents()[id],
{
}

} // verus!
