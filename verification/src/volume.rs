//! Storage volume bookkeeping: the monotonic write cursor, the
//! identifier index, and the byte-range reservation protocol.
//!
//! A write first *reserves* a byte range: the cursor is read and advanced
//! by the aligned size of the payload in one atomic step, so that no two
//! writes are ever granted overlapping ranges. After the data transfer has
//! completed, the range is *committed* under its request identifier. A
//! reservation whose transfer fails is simply never committed; its range
//! stays permanently unused.

use vstd::prelude::*;
use crate::block::align_up;
use crate::block::aligned_size;

verus! {

/// Byte range held by one write: the aligned start offset and the logical
/// (unpadded) payload length. The on-disk footprint runs from `offset` to
/// `offset + align_up(size)`.
#[derive(Clone, Copy, PartialEq, Eq, Structural, Debug)]
pub struct RecordMeta {
    pub offset: u64,
    pub size: u64,
}

/// First byte past the aligned footprint of a record.
pub open spec fn range_end(m: RecordMeta) -> int {
    m.offset + align_up(m.size as int)
}

/// Whether two aligned footprints share no byte.
pub open spec fn ranges_disjoint(a: RecordMeta, b: RecordMeta) -> bool {
    range_end(a) <= b.offset || range_end(b) <= a.offset
}

/// One committed index entry: a request identifier and the byte range that
/// holds its payload.
pub struct IndexEntry {
    pub id: String,
    pub meta: RecordMeta,
}

/// The identifier-to-record map described by a sequence of index entries;
/// a later entry for the same identifier overrides an earlier one.
pub open spec fn index_of(s: Seq<IndexEntry>) -> Map<Seq<char>, RecordMeta>
    decreases s.len(),
{
    if s.len() == 0 {
        Map::empty()
    } else {
        index_of(s.drop_last()).insert(s.last().id@, s.last().meta)
    }
}

/// No two entries carry the same identifier.
pub open spec fn ids_unique(s: Seq<IndexEntry>) -> bool {
    forall|i: int, j: int| 0 <= i < j < s.len() ==> s[i].id@ != s[j].id@
}

proof fn lemma_index_of_contains(s: Seq<IndexEntry>, id: Seq<char>)
    ensures
        index_of(s).contains_key(id) <==> exists|i: int| 0 <= i < s.len() && s[i].id@ == id,
    decreases s.len(),
{
    if s.len() > 0 {
        lemma_index_of_contains(s.drop_last(), id);
        if s.last().id@ == id {
            assert(s[s.len() - 1].id@ == id);
        } else {
            if exists|i: int| 0 <= i < s.drop_last().len() && s.drop_last()[i].id@ == id {
                let i = choose|i: int| 0 <= i < s.drop_last().len() && s.drop_last()[i].id@ == id;
                assert(s[i].id@ == id);
            }
            if exists|i: int| 0 <= i < s.len() && s[i].id@ == id {
                let i = choose|i: int| 0 <= i < s.len() && s[i].id@ == id;
                assert(s.drop_last()[i].id@ == id);
            }
        }
    }
}

proof fn lemma_index_of_value(s: Seq<IndexEntry>, i: int)
    requires
        ids_unique(s),
        0 <= i < s.len(),
    ensures
        index_of(s).contains_key(s[i].id@),
        index_of(s)[s[i].id@] == s[i].meta,
    decreases s.len(),
{
    if i < s.len() - 1 {
        assert(ids_unique(s.drop_last())) by {
            assert(forall|p: int, q: int|
                0 <= p < q < s.drop_last().len() ==> s.drop_last()[p].id@ != s.drop_last()[q].id@)
                by {
                assert(forall|p: int, q: int| 0 <= p < q < s.len() - 1 ==> s[p].id@ != s[q].id@);
            }
        }
        lemma_index_of_value(s.drop_last(), i);
        assert(s[i].id@ != s.last().id@);
    }
}

proof fn lemma_index_of_remove(s: Seq<IndexEntry>, i: int)
    requires
        ids_unique(s),
        0 <= i < s.len(),
    ensures
        index_of(s.remove(i)) == index_of(s).remove(s[i].id@),
    decreases s.len(),
{
    if i == s.len() - 1 {
        assert(s.remove(i) =~= s.drop_last());
        lemma_index_of_contains(s.drop_last(), s[i].id@);
        assert(!index_of(s.drop_last()).contains_key(s[i].id@)) by {
            if exists|j: int| 0 <= j < s.drop_last().len() && s.drop_last()[j].id@ == s[i].id@ {
                let j = choose|j: int|
                    0 <= j < s.drop_last().len() && s.drop_last()[j].id@ == s[i].id@;
                assert(s[j].id@ == s[i].id@ && j < i);
            }
        }
        assert(index_of(s.drop_last()) =~= index_of(s).remove(s[i].id@));
    } else {
        assert(ids_unique(s.drop_last())) by {
            assert(forall|p: int, q: int| 0 <= p < q < s.len() - 1 ==> s[p].id@ != s[q].id@);
        }
        lemma_index_of_remove(s.drop_last(), i);
        assert(s.remove(i).drop_last() =~= s.drop_last().remove(i));
        assert(s.remove(i).last() == s.last());
        assert(index_of(s.remove(i)) == index_of(s.drop_last().remove(i)).insert(
            s.last().id@,
            s.last().meta,
        ));
        assert(s[i].id@ != s.last().id@);
        assert(index_of(s.drop_last()).remove(s[i].id@).insert(s.last().id@, s.last().meta)
            =~= index_of(s).remove(s[i].id@));
    }
}

/// The storage volume's bookkeeping: the next free aligned position and the
/// identifier index, together with the ghost record of byte ranges that have
/// been reserved but not yet committed.
pub struct Volume {
    write_cursor: u64,
    entries: Vec<IndexEntry>,
    reserved: Ghost<Seq<RecordMeta>>,
}

impl Volume {
    /// Next free, block-aligned byte position in the backing file.
    pub closed spec fn cursor(self) -> u64 {
        self.write_cursor
    }

    /// The committed identifier-to-record map.
    pub closed spec fn index(self) -> Map<Seq<char>, RecordMeta> {
        index_of(self.entries@)
    }

    /// Byte ranges granted to writes whose transfer has not yet committed.
    pub closed spec fn reservations(self) -> Seq<RecordMeta> {
        self.reserved@
    }

    /// Every byte range the volume has granted: committed entries first,
    /// outstanding reservations after them.
    pub closed spec fn granted(self) -> Seq<RecordMeta> {
        self.entries@.map_values(|e: IndexEntry| e.meta) + self.reserved@
    }

    /// The volume's invariant: identifiers are unique, every granted range
    /// lies below the write cursor, and no two granted ranges overlap.
    pub closed spec fn wf(self) -> bool {
        &&& ids_unique(self.entries@)
        &&& forall|i: int|
            0 <= i < self.granted().len() ==> range_end(#[trigger] self.granted()[i])
                <= self.write_cursor
        &&& forall|i: int, j: int|
            0 <= i < self.granted().len() && 0 <= j < self.granted().len() && i != j
                ==> ranges_disjoint(#[trigger] self.granted()[i], #[trigger] self.granted()[j])
    }

    /// No two distinct granted byte ranges of a well-formed volume ever
    /// overlap: reservations are handed out atomically at the cursor, so
    /// every pair of writes works on disjoint spans.
    pub proof fn lemma_granted_ranges_disjoint(self, i: int, j: int)
        requires
            self.wf(),
            0 <= i < self.granted().len(),
            0 <= j < self.granted().len(),
            i != j,
        ensures
            ranges_disjoint(self.granted()[i], self.granted()[j]),
    {
    }

    /// Every granted range ends at or below the write cursor.
    pub proof fn lemma_granted_below_cursor(self, i: int)
        requires
            self.wf(),
            0 <= i < self.granted().len(),
        ensures
            range_end(self.granted()[i]) <= self.cursor(),
    {
    }

    /// Every committed record ends at or below the write cursor.
    pub proof fn lemma_index_within_cursor(self)
        requires
            self.wf(),
        ensures
            forall|id: Seq<char>| #[trigger] self.index().contains_key(id)
                ==> range_end(self.index()[id]) <= self.cursor(),
    {
        assert forall|id: Seq<char>| #[trigger] self.index().contains_key(id)
            implies range_end(self.index()[id]) <= self.cursor() by {
            lemma_index_of_contains(self.entries@, id);
            let i = choose|i: int| 0 <= i < self.entries@.len() && self.entries@[i].id@ == id;
            lemma_index_of_value(self.entries@, i);
            assert(self.granted()[i] == self.entries@[i].meta);
        }
    }

    /// Reads the current write cursor.
    pub fn current_cursor(&self) -> (r: u64)
        ensures
            r == self.cursor(),
    {
        self.write_cursor
    }

    /// A fresh volume over a backing file of `initial_size` bytes: the
    /// cursor continues from the end of the file, the index is empty.
    pub fn new(initial_size: u64) -> (v: Volume)
        ensures
            v.wf(),
            v.cursor() == initial_size,
            v.index() == Map::<Seq<char>, RecordMeta>::empty(),
            v.reservations() == Seq::<RecordMeta>::empty(),
    {
        let v = Volume {
            write_cursor: initial_size,
            entries: Vec::new(),
            reserved: Ghost(Seq::empty()),
        };
        proof {
            assert(v.granted() =~= Seq::<RecordMeta>::empty());
        }
        v
    }

    /// Atomically grants the next `align_up(size)` bytes to one write: the
    /// cursor is read and advanced in the same step, so the returned offset
    /// is exclusive to the caller. Returns `None` when the cursor would
    /// pass the largest representable offset; the volume is unchanged then.
    pub fn reserve(&mut self, size: u64) -> (r: Option<u64>)
        requires
            old(self).wf(),
        ensures
            final(self).wf(),
            r is Some <==> old(self).cursor() + align_up(size as int) <= u64::MAX,
            r matches Some(offset) ==> {
                &&& offset == old(self).cursor()
                &&& final(self).cursor() == old(self).cursor() + align_up(size as int)
                &&& final(self).index() == old(self).index()
                &&& final(self).reservations() == old(self).reservations().push(
                    (RecordMeta { offset, size }),
                )
            },
            r is None ==> {
                &&& final(self).cursor() == old(self).cursor()
                &&& final(self).index() == old(self).index()
                &&& final(self).reservations() == old(self).reservations()
            },
    {
        proof {
            crate::block::lemma_align_up_properties(size as int);
        }
        match aligned_size(size) {
            None => None,
            Some(aligned) => {
                match self.write_cursor.checked_add(aligned) {
                    None => None,
                    Some(new_cursor) => {
                        let offset = self.write_cursor;
                        let ghost m = RecordMeta { offset, size };
                        let ghost g0 = self.granted();
                        self.write_cursor = new_cursor;
                        self.reserved = Ghost(self.reserved@.push(m));
                        proof {
                            assert(self.granted() =~= g0.push(m));
                            assert forall|i: int|
                                0 <= i < self.granted().len() implies range_end(
                                #[trigger] self.granted()[i]) <= self.write_cursor by {
                                if i < g0.len() {
                                    assert(self.granted()[i] == g0[i]);
                                } else {
                                    assert(self.granted()[i] == m);
                                }
                            }
                            assert forall|i: int, j: int|
                                0 <= i < self.granted().len() && 0 <= j < self.granted().len()
                                    && i != j implies ranges_disjoint(
                                #[trigger] self.granted()[i],
                                #[trigger] self.granted()[j],
                            ) by {
                                if i < g0.len() && j < g0.len() {
                                    assert(ranges_disjoint(g0[i], g0[j]));
                                } else if i < g0.len() {
                                    assert(range_end(g0[i]) <= m.offset);
                                } else {
                                    assert(range_end(g0[j]) <= m.offset);
                                }
                            }
                        }
                        Some(offset)
                    },
                }
            },
        }
    }

    /// Records a completed transfer under its request identifier. The range
    /// must have been granted by `reserve`; a second write under an already
    /// used identifier replaces the old entry, orphaning its byte range.
    pub fn commit(&mut self, id: String, offset: u64, size: u64)
        requires
            old(self).wf(),
            exists|k: int|
                0 <= k < old(self).reservations().len() && old(self).reservations()[k]
                    == (RecordMeta { offset, size }),
        ensures
            final(self).wf(),
            final(self).cursor() == old(self).cursor(),
            final(self).index() == old(self).index().insert(id@, (RecordMeta { offset, size })),
            exists|k: int|
                0 <= k < old(self).reservations().len() && old(self).reservations()[k]
                    == (RecordMeta { offset, size }) && final(self).reservations()
                    == old(self).reservations().remove(k),
    {
        let ghost m = RecordMeta { offset, size };
        let ghost idv: Seq<char> = id@;
        let ghost k = choose|k: int|
            0 <= k < self.reserved@.len() && self.reserved@[k] == m;
        let ghost s0 = self.entries@;
        let ghost res0 = self.reserved@;
        let ghost g0 = self.granted();

        // Drop any previous entry for this identifier.
        let n = self.entries.len();
        let mut i: usize = 0;
        let mut found: bool = false;
        let mut pos: usize = 0;
        while i < n
            invariant
                self.wf(),
                0 <= i <= n,
                n == s0.len(),
                self.entries@ == s0,
                !found ==> forall|j: int| 0 <= j < i ==> s0[j].id@ != id@,
                found ==> pos < n && s0[pos as int].id@ == id@,
            decreases n - i,
        {
            if !found && self.entries[i].id == id {
                found = true;
                pos = i;
            }
            i += 1;
        }
        proof {
            lemma_index_of_contains(s0, id@);
        }
        if found {
            proof {
                lemma_index_of_remove(s0, pos as int);
            }
            self.entries.remove(pos);
        }
        let ghost s1 = self.entries@;

        self.entries.push(IndexEntry { id, meta: RecordMeta { offset, size } });
        self.reserved = Ghost(self.reserved@.remove(k));

        proof {
            let s2 = self.entries@;
            let res1 = self.reserved@;
            let g2 = self.granted();

            assert(s2.drop_last() =~= s1);
            assert(s2.last().id@ == idv && s2.last().meta == m);

            // The committed map gains exactly this identifier.
            assert(self.index() == old(self).index().insert(idv, m)) by {
                if found {
                    assert(index_of(s1) == index_of(s0).remove(idv));
                    assert(index_of(s2) == index_of(s0).remove(idv).insert(idv, m));
                    assert(index_of(s0).remove(idv).insert(idv, m) =~= index_of(s0).insert(
                        idv,
                        m,
                    ));
                } else {
                    assert(index_of(s2) == index_of(s1).insert(idv, m));
                }
            }

            // No entry besides the new last one carries this identifier.
            assert forall|j: int| 0 <= j < s1.len() implies s1[j].id@ != idv by {
                if found {
                    let j0: int = if j >= pos { j + 1 } else { j };
                    assert(s1[j] == s0[j0]);
                    assert(s0[j0].id@ != s0[pos as int].id@);
                }
            }
            assert(ids_unique(s2)) by {
                assert forall|p: int, q: int| 0 <= p < q < s2.len() implies s2[p].id@
                    != s2[q].id@ by {
                    if q < s1.len() {
                        if found {
                            let p0: int = if p >= pos { p + 1 } else { p };
                            let q0: int = if q >= pos { q + 1 } else { q };
                            assert(s2[p] == s0[p0] && s2[q] == s0[q0]);
                        }
                    } else {
                        assert(s2[q].id@ == idv);
                    }
                }
            }

            // Each new granted position shows the same range as some old
            // granted position, and distinct positions map to distinct ones.
            let oldpos = |p: int|
                if p < s1.len() {
                    if found && p >= pos {
                        p + 1
                    } else {
                        p
                    }
                } else if p == s1.len() {
                    s0.len() + k
                } else {
                    let r = p - s1.len() - 1;
                    if r >= k {
                        s0.len() + r + 1
                    } else {
                        s0.len() + r
                    }
                };
            assert(g2.len() == s1.len() + 1 + res1.len());
            assert forall|p: int| 0 <= p < g2.len() implies {
                &&& 0 <= oldpos(p) < g0.len()
                &&& g2[p] == g0[oldpos(p)]
            } by {
                if p < s1.len() {
                    assert(g2[p] == s1[p].meta);
                    assert(s1[p] == s0[oldpos(p)]);
                    assert(g0[oldpos(p)] == s0[oldpos(p)].meta);
                } else if p == s1.len() {
                    assert(g2[p] == m);
                    assert(g0[s0.len() + k] == res0[k]);
                } else {
                    let r = p - s1.len() - 1;
                    assert(g2[p] == res1[r]);
                    if r >= k {
                        assert(res1[r] == res0[r + 1]);
                        assert(g0[oldpos(p)] == res0[r + 1]);
                    } else {
                        assert(res1[r] == res0[r]);
                        assert(g0[oldpos(p)] == res0[r]);
                    }
                }
            }
            assert forall|p: int, q: int| #![trigger g2[p], g2[q]]
                0 <= p < g2.len() && 0 <= q < g2.len() && p != q implies oldpos(p)
                != oldpos(q) by {
            }
            assert forall|p: int| 0 <= p < g2.len() implies range_end(#[trigger] g2[p])
                <= self.write_cursor by {
                assert(g2[p] == g0[oldpos(p)]);
                assert(range_end(g0[oldpos(p)]) <= old(self).cursor());
            }
            assert forall|p: int, q: int|
                0 <= p < g2.len() && 0 <= q < g2.len() && p != q implies ranges_disjoint(
                #[trigger] g2[p],
                #[trigger] g2[q],
            ) by {
                assert(g2[p] == g0[oldpos(p)] && g2[q] == g0[oldpos(q)]);
                assert(oldpos(p) != oldpos(q));
                assert(ranges_disjoint(g0[oldpos(p)], g0[oldpos(q)]));
            }
        }
    }

    /// Looks the identifier up in the committed index.
    pub fn lookup(&self, id: &String) -> (r: Option<RecordMeta>)
        requires
            self.wf(),
        ensures
            r matches Some(m) ==> self.index().contains_key(id@) && self.index()[id@] == m,
            r is None ==> !self.index().contains_key(id@),
    {
        let n = self.entries.len();
        let mut i: usize = 0;
        while i < n
            invariant
                self.wf(),
                0 <= i <= n,
                n == self.entries@.len(),
                forall|j: int| 0 <= j < i ==> self.entries@[j].id@ != id@,
            decreases n - i,
        {
            if self.entries[i].id == *id {
                proof {
                    lemma_index_of_value(self.entries@, i as int);
                }
                return Some(self.entries[i].meta);
            }
            i += 1;
        }
        proof {
            lemma_index_of_contains(self.entries@, id@);
        }
        None
    }
}

} // verus!
