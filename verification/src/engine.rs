//! The storage engine: an append-only record log over a word region, with
//! a checksum-guarded append path and a full-region recovery scan.

use crate::hasher::StorageHasher32;
use crate::layout::{
    checksum_input, fits_at, payload_at, record_words, splice, valid_record_at, Header,
    ERASED_WORD, HEADER_LEN, WORD_SIZE,
};
use vstd::prelude::*;
use vstd::slice::{slice_index_get, slice_subrange};

verus! {

/// Errors the engine reports to the caller.
#[derive(Debug, PartialEq, Eq, Structural)]
pub enum Error {
    /// An append does not fit within the remaining free words.
    OutOfFreeSpace,
    /// A descriptor's cached pointer disagrees with its expected tag, or
    /// points outside the region: stale or corrupted.
    CorruptedRecordOnGet,
}

/// A caller-held descriptor pairing a tag with the word offset of the
/// latest validated header for that tag, if any.
#[derive(Copy, Clone, Debug, PartialEq, Eq, Structural)]
pub struct RecordDesc {
    pub tag: u32,
    /// Word offset of the latest validated header, or `None` if no value
    /// has been seen for this tag yet.
    pub ptr: Option<usize>,
}

/// Counts reported by the recovery scan.
#[derive(Debug)]
pub struct InitStats {
    /// Words after the last valid record that are not in erased state:
    /// leftovers of an aborted write.
    pub words_wasted: usize,
    /// Directory entries that hold a pointer after the scan.
    pub unique_tags: usize,
}

/// The engine: a bounded word region and a monotonically advancing write
/// cursor marking the first unused word.
pub struct Storage {
    storage: Vec<u32>,
    current: usize,
}

/// Does tag `t` have its slot in the directory? The tag space is dense and
/// pre-declared: slot `t` must carry tag `t`.
pub open spec fn tag_slot_ok(list: Seq<RecordDesc>, t: u32) -> bool {
    &&& (t as int) < list.len()
    &&& list[t as int].tag == t
}

/// The forward recovery scan, starting at word `idx` with directory `list`
/// and last valid record end `lve`: at a valid record, repoint the tag's
/// slot to the header and jump past the record; otherwise advance one word.
/// Returns the final directory and the end of the last valid record.
pub open spec fn scan<H: StorageHasher32>(
    mem: Seq<u32>,
    idx: int,
    list: Seq<RecordDesc>,
    lve: int,
) -> (Seq<RecordDesc>, int)
    decreases mem.len() - idx,
{
    if idx + HEADER_LEN < mem.len() {
        if valid_record_at::<H>(mem, idx) {
            let next = idx + HEADER_LEN + mem[idx + 1] as int;
            scan::<H>(
                mem,
                next,
                list.update(
                    mem[idx] as int,
                    RecordDesc { tag: mem[idx], ptr: Some(idx as usize) },
                ),
                next,
            )
        } else {
            scan::<H>(mem, idx + 1, list, lve)
        }
    } else {
        (list, lve)
    }
}

/// The number of words in `mem[from .. to]` that are not in erased state.
pub open spec fn wasted_in(mem: Seq<u32>, from: int, to: int) -> int
    decreases to - from,
{
    if from < to {
        wasted_in(mem, from, to - 1) + (if mem[to - 1] != ERASED_WORD {
            1int
        } else {
            0int
        })
    } else {
        0
    }
}

/// The number of descriptors among the first `to` that hold a pointer.
pub open spec fn count_resolved(list: Seq<RecordDesc>, to: int) -> int
    decreases to,
{
    if 0 < to {
        count_resolved(list, to - 1) + (if list[to - 1].ptr is Some {
            1int
        } else {
            0int
        })
    } else {
        0
    }
}

/// What a lookup returns on region `mem` for descriptor `desc`: no value
/// when no pointer is cached; the payload words behind the header when the
/// pointer is in bounds and the stored tag matches; an error otherwise.
pub open spec fn lookup_model(mem: Seq<u32>, desc: RecordDesc) -> Result<Option<Seq<u32>>, Error> {
    match desc.ptr {
        None => Ok(None),
        Some(h) => {
            if h + HEADER_LEN <= mem.len() && mem[h as int] == desc.tag && fits_at(mem, h as int) {
                Ok(Some(payload_at(mem, h as int)))
            } else {
                Err(Error::CorruptedRecordOnGet)
            }
        },
    }
}

impl Storage {
    /// The words of the region.
    pub closed spec fn mem(self) -> Seq<u32> {
        self.storage@
    }

    /// The first unused word offset.
    pub closed spec fn cursor(self) -> int {
        self.current as int
    }

    /// The cursor stays within the region, and the byte size fits the
    /// machine word.
    pub open spec fn wf(self) -> bool {
        &&& 0 <= self.cursor() <= self.mem().len()
        &&& self.mem().len() * (WORD_SIZE as int) <= usize::MAX as int
    }

    /// Bind a fresh engine to a memory region; the cursor starts at zero
    /// and is then set by recovery.
    pub fn new(mem: Vec<u32>) -> (s: Storage)
        requires
            mem@.len() * (WORD_SIZE as int) <= usize::MAX as int,
        ensures
            s.mem() == mem@,
            s.cursor() == 0,
            s.wf(),
    {
        Storage { storage: mem, current: 0 }
    }

    /// Give the region's words back, for instance to rebind a fresh engine
    /// over the same bytes.
    pub fn into_mem(self) -> (mem: Vec<u32>)
        ensures
            mem@ == self.mem(),
    {
        self.storage
    }

    /// Total amount of occupied storage space in bytes.
    pub fn len(&self) -> (r: usize)
        requires
            self.wf(),
        ensures
            r == self.cursor() * (WORD_SIZE as int),
    {
        self.current * WORD_SIZE
    }

    /// Total storage space in bytes.
    pub fn capacity(&self) -> (r: usize)
        requires
            self.wf(),
        ensures
            r == self.mem().len() * (WORD_SIZE as int),
    {
        self.storage.len() * WORD_SIZE
    }

    fn free_space_in_words(&self) -> (r: usize)
        requires
            self.wf(),
        ensures
            r == self.mem().len() - self.cursor(),
    {
        self.storage.len() - self.current
    }

    fn is_ffed(word: u32) -> (r: bool)
        ensures
            r == (word == ERASED_WORD),
    {
        word == ERASED_WORD
    }

    /// Scan the whole region forward to find every valid record and
    /// populate the caller's record descriptor table with the latest
    /// header offset per tag; a failed candidate advances the scan by one
    /// word, so trailing garbage and mid-record starts are tolerated. Then
    /// count the words behind the last valid record that are not in erased
    /// state — leftovers of an aborted write — and park the cursor behind
    /// them, so future appends overwrite nothing. Returns those counts.
    ///
    /// The tag space is closed and pre-declared: every tag a valid record
    /// on the medium may carry must already own its directory slot.
    pub fn init<H: StorageHasher32>(
        &mut self,
        list: &mut Vec<RecordDesc>,
        hasher: &mut H,
    ) -> (stats: InitStats)
        requires
            old(self).wf(),
            forall|k: int|
                0 <= k && k + HEADER_LEN < old(self).mem().len() && #[trigger] valid_record_at::<
                    H,
                >(old(self).mem(), k) ==> tag_slot_ok(old(list)@, old(self).mem()[k]),
        ensures
            final(self).mem() == old(self).mem(),
            final(self).wf(),
            final(list)@.len() == old(list)@.len(),
            forall|i: int| 0 <= i < old(list)@.len() ==> final(list)@[i].tag == old(list)@[i].tag,
            ({
                let r = scan::<H>(old(self).mem(), 0, old(list)@, 0);
                &&& final(list)@ == r.0
                &&& final(self).cursor() == r.1 + wasted_in(
                    old(self).mem(),
                    r.1,
                    old(self).mem().len() as int,
                )
                &&& stats.words_wasted == wasted_in(
                    old(self).mem(),
                    r.1,
                    old(self).mem().len() as int,
                )
            }),
            stats.unique_tags == count_resolved(final(list)@, old(list)@.len() as int),
    {
        let ghost mem = self.storage@;
        let ghost list0 = list@;

        let capacity = self.storage.len();
        let mut idx: usize = 0;
        let mut last_valid_end: usize = 0;

        // Scanning through whole storage to find all valid records
        while idx + HEADER_LEN < capacity
            invariant
                self.storage@ == mem,
                self.current == old(self).current,
                old(self).wf(),
                capacity == mem.len(),
                list@.len() == list0.len(),
                forall|i: int| 0 <= i < list0.len() ==> list@[i].tag == list0[i].tag,
                0 <= last_valid_end <= idx,
                idx <= capacity,
                scan::<H>(mem, 0, list0, 0) == scan::<H>(
                    mem,
                    idx as int,
                    list@,
                    last_valid_end as int,
                ),
                forall|k: int|
                    0 <= k && k + HEADER_LEN < mem.len() && #[trigger] valid_record_at::<H>(
                        mem,
                        k,
                    ) ==> tag_slot_ok(list0, mem[k]),
            decreases capacity - idx,
        {
            let res = self.validate_record::<H>(idx, hasher);
            match res {
                Some(header) => {
                    proof {
                        assert(valid_record_at::<H>(mem, idx as int));
                        assert(tag_slot_ok(list0, mem[idx as int]));
                    }
                    let t = header.tag as usize;
                    // The slot index in the table matches the tag
                    assert(list@[t as int].tag == header.tag);
                    let ghost pre_list = list@;
                    list[t] = RecordDesc { tag: header.tag, ptr: Some(idx) };
                    let step = HEADER_LEN + header.sz as usize;
                    proof {
                        assert(list@ == pre_list.update(
                            mem[idx as int] as int,
                            RecordDesc { tag: mem[idx as int], ptr: Some(idx) },
                        ));
                        assert(scan::<H>(mem, idx as int, pre_list, last_valid_end as int) == scan::<
                            H,
                        >(mem, idx + step, list@, idx + step));
                    }
                    idx = idx + step;
                    last_valid_end = idx;
                },
                None => {
                    proof {
                        assert(!valid_record_at::<H>(mem, idx as int));
                        assert(scan::<H>(mem, idx as int, list@, last_valid_end as int) == scan::<
                            H,
                        >(mem, idx as int + 1, list@, last_valid_end as int));
                    }
                    idx = idx + 1;
                },
            }
        }
        proof {
            assert(scan::<H>(mem, idx as int, list@, last_valid_end as int) == (
                list@,
                last_valid_end as int,
            ));
        }
        let ghost list1 = list@;
        let ghost lve1 = last_valid_end as int;

        // Scanning from last record end position, to determine whether the
        // rest of the region was already written (NOT 0xFF'ed)
        let mut wasted: usize = 0;
        let mut j: usize = last_valid_end;
        while j < capacity
            invariant
                self.storage@ == mem,
                self.current == old(self).current,
                capacity == mem.len(),
                list@ == list1,
                last_valid_end as int == lve1,
                lve1 <= j <= capacity,
                wasted == wasted_in(mem, lve1, j as int),
                wasted <= j - lve1,
            decreases capacity - j,
        {
            let w = self.storage[j];
            if !Self::is_ffed(w) {
                wasted = wasted + 1;
            }
            j = j + 1;
        }

        self.current = last_valid_end + wasted;

        // Stats
        let mut unique: usize = 0;
        let mut i: usize = 0;
        while i < list.len()
            invariant
                list@ == list1,
                i <= list@.len(),
                unique == count_resolved(list@, i as int),
                unique <= i,
            decreases list@.len() - i,
        {
            if list[i].ptr.is_some() {
                unique = unique + 1;
            }
            i = i + 1;
        }

        InitStats { words_wasted: wasted, unique_tags: unique }
    }

    /// Try to read a record starting at word `idx`: reject a declared
    /// payload that leaves the region, recompute the checksum over
    /// `[tag, length] ++ payload` with the session, reject on mismatch,
    /// and otherwise hand back the decoded header.
    fn validate_record<H: StorageHasher32>(&self, idx: usize, hasher: &mut H) -> (res: Option<
        Header,
    >)
        requires
            idx + HEADER_LEN <= self.mem().len(),
        ensures
            res is Some <==> valid_record_at::<H>(self.mem(), idx as int),
            res is Some ==> res->Some_0 == (Header {
                tag: self.mem()[idx as int],
                sz: self.mem()[idx as int + 1],
                crc: self.mem()[idx as int + 2],
            }),
    {
        let cap = self.storage.len();
        let tag = self.storage[idx];
        let len_w = self.storage[idx + 1];
        let crc = self.storage[idx + 2];

        let payload_start = idx + HEADER_LEN;
        let sz = len_w as usize;
        // Check the declared payload is not out of bounds
        if cap - payload_start < sz {
            return None;
        }

        // Recompute the checksum over the header fields and the payload
        hasher.reset();
        let header_part = slice_subrange(self.storage.as_slice(), idx, idx + 2);
        hasher.write(header_part);
        let payload_slice = slice_subrange(self.storage.as_slice(), payload_start, payload_start + sz);
        hasher.write(payload_slice);

        // Compare checksums
        let calc_crc = hasher.sum();
        proof {
            assert(hasher.accum() =~= checksum_input(self.mem(), idx as int));
        }
        if crc != calc_crc {
            return None;
        }

        Some(Header { tag, sz: len_w, crc })
    }

    /// Append a record for `record.tag` with the given payload: write the
    /// header and payload at the cursor, seal them with the session's
    /// checksum, repoint the descriptor at the fresh header, and advance
    /// the cursor. Fails with `OutOfFreeSpace`, leaving every word, the
    /// cursor and the descriptor unchanged, exactly when fewer free words
    /// remain than the record needs.
    pub fn update<H: StorageHasher32>(
        &mut self,
        record: &mut RecordDesc,
        payload: &[u32],
        hasher: &mut H,
    ) -> (res: Result<(), Error>)
        requires
            old(self).wf(),
            payload@.len() <= u32::MAX,
            HEADER_LEN + payload@.len() <= usize::MAX,
        ensures
            final(self).wf(),
            res is Err <==> old(self).mem().len() - old(self).cursor() < HEADER_LEN
                + payload@.len(),
            res is Err ==> {
                &&& res == Err::<(), Error>(Error::OutOfFreeSpace)
                &&& final(self).mem() == old(self).mem()
                &&& final(self).cursor() == old(self).cursor()
                &&& *final(record) == *old(record)
            },
            res is Ok ==> {
                &&& final(self).mem() == splice(
                    old(self).mem(),
                    old(self).cursor(),
                    record_words::<H>(old(record).tag, payload@),
                )
                &&& final(self).cursor() == old(self).cursor() + HEADER_LEN + payload@.len()
                &&& *final(record) == (RecordDesc {
                    tag: old(record).tag,
                    ptr: Some(old(self).cursor() as usize),
                })
            },
    {
        let record_len = HEADER_LEN + payload.len();
        if self.free_space_in_words() < record_len {
            return Err(Error::OutOfFreeSpace);
        }
        let ghost mem0 = self.storage@;
        let cur = self.current;

        // Fill header
        self.storage[cur] = record.tag;
        self.storage[cur + 1] = payload.len() as u32;

        // Copy payload
        let mut j: usize = 0;
        while j < payload.len()
            invariant
                self.current == cur,
                j <= payload@.len(),
                HEADER_LEN + payload@.len() <= usize::MAX,
                payload@.len() <= u32::MAX,
                cur + HEADER_LEN + payload@.len() <= self.storage@.len(),
                self.storage@.len() == mem0.len(),
                mem0.len() * (WORD_SIZE as int) <= usize::MAX as int,
                forall|i: int|
                    0 <= i < mem0.len() && !(cur <= i < cur + HEADER_LEN + payload@.len())
                        ==> self.storage@[i] == mem0[i],
                self.storage@[cur as int] == record.tag,
                self.storage@[cur as int + 1] == payload@.len() as u32,
                forall|i: int| 0 <= i < j ==> self.storage@[cur + HEADER_LEN + i] == payload@[i],
                *record == *old(record),
            decreases payload@.len() - j,
        {
            let w = *slice_index_get(payload, j);
            self.storage[cur + HEADER_LEN + j] = w;
            j = j + 1;
        }

        // Calculate and set checksum
        hasher.reset();
        let header_part = slice_subrange(self.storage.as_slice(), cur, cur + 2);
        hasher.write(header_part);
        let payload_part = slice_subrange(
            self.storage.as_slice(),
            cur + HEADER_LEN,
            cur + record_len,
        );
        hasher.write(payload_part);
        let checksum = hasher.sum();
        proof {
            assert(hasher.accum() =~= seq![record.tag, payload@.len() as u32] + payload@);
        }
        self.storage[cur + 2] = checksum;

        // Update record descriptor
        record.ptr = Some(cur);

        // Update current len
        self.current = cur + record_len;

        proof {
            let rw = record_words::<H>(old(record).tag, payload@);
            assert(self.storage@ =~= splice(mem0, cur as int, rw));
        }
        Ok(())
    }

    /// Resolve a descriptor to its latest payload: no cached pointer means
    /// no value (not an error); a pointer whose header lies outside the
    /// region, stores a different tag, or declares a payload leaving the
    /// region is stale or corrupted and fails with `CorruptedRecordOnGet`;
    /// otherwise the payload words are returned as a view over the region,
    /// without a copy.
    pub fn get(&self, record: &RecordDesc) -> (res: Result<Option<&[u32]>, Error>)
        ensures
            ({
                let m = lookup_model(self.mem(), *record);
                match res {
                    Ok(None) => m == Ok::<Option<Seq<u32>>, Error>(None),
                    Ok(Some(s)) => m == Ok::<Option<Seq<u32>>, Error>(Some(s@)),
                    Err(e) => m == Err::<Option<Seq<u32>>, Error>(e),
                }
            }),
    {
        match record.ptr {
            Some(h) => {
                let cap = self.storage.len();
                if h >= cap || cap - h < HEADER_LEN {
                    return Err(Error::CorruptedRecordOnGet);
                }
                // Basic sanity check: the stored tag must match
                if self.storage[h] != record.tag {
                    return Err(Error::CorruptedRecordOnGet);
                }
                let sz = self.storage[h + 1] as usize;
                let payload_start = h + HEADER_LEN;
                if cap - payload_start < sz {
                    return Err(Error::CorruptedRecordOnGet);
                }
                let s = slice_subrange(self.storage.as_slice(), payload_start, payload_start + sz);
                Ok(Some(s))
            },
            None => Ok(None),
        }
    }
}

} // verus!
