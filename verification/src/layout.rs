//! On-medium record layout: the fixed header and the word arithmetic
//! around it.

use crate::hasher::StorageHasher32;
use vstd::prelude::*;

verus! {

/// Length of a record header, in words.
pub const HEADER_LEN: usize = 3;

/// Size of a word, in bytes.
pub const WORD_SIZE: usize = 4;

/// The bit pattern an erased (never written) medium word reads.
pub const ERASED_WORD: u32 = 0xFFFF_FFFF;

/// A decoded record header: tag, payload length in words, checksum.
#[derive(Clone, Copy, Debug, PartialEq, Eq, Structural)]
pub struct Header {
    pub tag: u32,
    /// Size of the payload in words.
    pub sz: u32,
    pub crc: u32,
}

/// Does the record declared at `idx` lie within the region?
///
/// The header occupies `[idx, idx + HEADER_LEN)` and declares
/// `mem[idx + 1]` payload words immediately after it.
pub open spec fn fits_at(mem: Seq<u32>, idx: int) -> bool {
    idx + HEADER_LEN + mem[idx + 1] as int <= mem.len()
}

/// The payload words of the record whose header starts at `idx`.
pub open spec fn payload_at(mem: Seq<u32>, idx: int) -> Seq<u32> {
    mem.subrange(idx + HEADER_LEN, idx + HEADER_LEN + mem[idx + 1] as int)
}

/// The words the checksum is computed over for the record at `idx`:
/// the tag and length fields followed by the payload. The checksum field
/// itself is excluded from its own computation.
pub open spec fn checksum_input(mem: Seq<u32>, idx: int) -> Seq<u32> {
    mem.subrange(idx, idx + 2) + payload_at(mem, idx)
}

/// A record at `idx` is valid iff its declared payload stays within the
/// region and the stored checksum matches the one recomputed over
/// `[tag, length] ++ payload` with hasher `H`.
pub open spec fn valid_record_at<H: StorageHasher32>(mem: Seq<u32>, idx: int) -> bool {
    &&& fits_at(mem, idx)
    &&& mem[idx + 2] == H::spec_sum(checksum_input(mem, idx))
}

/// The full word image of a record: header `[tag, length, checksum]`
/// followed by the payload, with the checksum computed by `H` over
/// `[tag, length] ++ payload`.
pub open spec fn record_words<H: StorageHasher32>(tag: u32, p: Seq<u32>) -> Seq<u32> {
    seq![tag, p.len() as u32, H::spec_sum(seq![tag, p.len() as u32] + p)] + p
}

/// `mem` with the words starting at `at` replaced by `ws`.
pub open spec fn splice(mem: Seq<u32>, at: int, ws: Seq<u32>) -> Seq<u32> {
    mem.subrange(0, at) + ws + mem.subrange(at + ws.len(), mem.len() as int)
}

/// Splicing within bounds keeps the region length, writes exactly `ws`,
/// and leaves every word outside `[at, at + ws.len())` unchanged.
pub proof fn lemma_splice_facts(mem: Seq<u32>, at: int, ws: Seq<u32>)
    requires
        0 <= at,
        at + ws.len() <= mem.len(),
    ensures
        splice(mem, at, ws).len() == mem.len(),
        splice(mem, at, ws).subrange(at, at + ws.len()) == ws,
        forall|i: int|
            0 <= i < mem.len() && !(at <= i < at + ws.len()) ==> splice(mem, at, ws)[i] == mem[i],
{
    let s = splice(mem, at, ws);
    assert(s.len() == mem.len());
    assert(s.subrange(at, at + ws.len()) =~= ws);
}

/// A record image is valid at the offset it was spliced to: the stored
/// checksum field is by construction the code over `[tag, length] ++ payload`.
pub proof fn lemma_record_words_valid<H: StorageHasher32>(mem: Seq<u32>, at: int, tag: u32, p: Seq<u32>)
    requires
        0 <= at,
        p.len() <= u32::MAX,
        at + HEADER_LEN + p.len() <= mem.len(),
        mem.subrange(at, at + HEADER_LEN + p.len()) == record_words::<H>(tag, p),
    ensures
        valid_record_at::<H>(mem, at),
        mem[at] == tag,
        mem[at + 1] == p.len() as u32,
        payload_at(mem, at) == p,
{
    let rw = record_words::<H>(tag, p);
    let sub = mem.subrange(at, at + HEADER_LEN + p.len());
    assert(mem[at] == sub[0] && sub[0] == rw[0]);
    assert(mem[at + 1] == sub[1] && sub[1] == rw[1]);
    assert(mem[at + 2] == sub[2] && sub[2] == rw[2]);
    assert(mem[at + 1] == p.len() as u32);
    assert forall|i: int| 0 <= i < p.len() implies mem[at + HEADER_LEN + i] == p[i] by {
        assert(mem[at + HEADER_LEN + i] == sub[HEADER_LEN + i]);
        assert(sub[HEADER_LEN + i] == rw[HEADER_LEN + i]);
        assert(rw[HEADER_LEN + i] == p[i]);
    }
    assert(payload_at(mem, at) =~= p);
    assert(mem.subrange(at, at + 2) =~= seq![tag, p.len() as u32]);
    assert(checksum_input(mem, at) =~= seq![tag, p.len() as u32] + p);
}

} // verus!
