//! General properties of the engine, stated and proved over its
//! specification-level models: what a sequence of successful appends
//! leaves on the medium, and what the recovery scan and lookups make of
//! it, for every hasher implementation.

use crate::engine::{lookup_model, scan, wasted_in, Error, RecordDesc};
use crate::hasher::StorageHasher32;
use crate::layout::{
    lemma_record_words_valid, lemma_splice_facts, payload_at, record_words, splice, ERASED_WORD,
    HEADER_LEN,
};
use vstd::prelude::*;

verus! {

/// The words one append consumes for entry `e`: the header plus the
/// payload.
pub open spec fn entry_size(e: (u32, Seq<u32>)) -> int {
    HEADER_LEN + e.1.len() as int
}

/// The words the appends in `es` consume in total.
pub open spec fn total_size(es: Seq<(u32, Seq<u32>)>) -> int
    decreases es.len(),
{
    if es.len() == 0 {
        0
    } else {
        entry_size(es[0]) + total_size(es.drop_first())
    }
}

/// Every append in `es`, performed in order from cursor `cur` in a region
/// of `cap` words, succeeds: it fits the remaining free words, and its
/// payload length fits the length field.
pub open spec fn appends_fit(cap: int, cur: int, es: Seq<(u32, Seq<u32>)>) -> bool
    decreases es.len(),
{
    es.len() == 0 || {
        &&& es[0].1.len() <= u32::MAX
        &&& cur + entry_size(es[0]) <= cap
        &&& appends_fit(cap, cur + entry_size(es[0]), es.drop_first())
    }
}

/// The region and cursor after performing the appends in `es` in order,
/// starting from `mem` with cursor `cur`.
pub open spec fn multi_append<H: StorageHasher32>(
    mem: Seq<u32>,
    cur: int,
    es: Seq<(u32, Seq<u32>)>,
) -> (Seq<u32>, int)
    decreases es.len(),
{
    if es.len() == 0 {
        (mem, cur)
    } else {
        multi_append::<H>(
            splice(mem, cur, record_words::<H>(es[0].0, es[0].1)),
            cur + entry_size(es[0]),
            es.drop_first(),
        )
    }
}

/// `mem` holds the records of `es` packed back to back from `off`, ending
/// exactly at `end`.
pub open spec fn log_at<H: StorageHasher32>(
    mem: Seq<u32>,
    off: int,
    es: Seq<(u32, Seq<u32>)>,
    end: int,
) -> bool
    decreases es.len(),
{
    if es.len() == 0 {
        off == end
    } else {
        &&& es[0].1.len() <= u32::MAX
        &&& 0 <= off
        &&& off + entry_size(es[0]) <= mem.len()
        &&& mem.subrange(off, off + entry_size(es[0])) == record_words::<H>(es[0].0, es[0].1)
        &&& log_at::<H>(mem, off + entry_size(es[0]), es.drop_first(), end)
    }
}

/// Every word from `from` on reads the erased bit pattern.
pub open spec fn erased_from(mem: Seq<u32>, from: int) -> bool {
    forall|i: int| from <= i < mem.len() ==> mem[i] == ERASED_WORD
}

/// The directory after replaying the records of `es` laid out from `off`:
/// each entry in order repoints its tag's slot at its header offset. This
/// is also exactly how the append path leaves the descriptors at runtime,
/// since each append repoints its descriptor at the cursor it wrote to —
/// so a recovery that rebuilds this directory restores what the writer
/// held before a restart.
pub open spec fn replay(
    list: Seq<RecordDesc>,
    off: int,
    es: Seq<(u32, Seq<u32>)>,
) -> Seq<RecordDesc>
    decreases es.len(),
{
    if es.len() == 0 {
        list
    } else {
        replay(
            list.update(es[0].0 as int, RecordDesc { tag: es[0].0, ptr: Some(off as usize) }),
            off + entry_size(es[0]),
            es.drop_first(),
        )
    }
}

/// The payload of the last entry for tag `t` in `es`, if `t` appears.
pub open spec fn last_payload(es: Seq<(u32, Seq<u32>)>, t: u32) -> Option<Seq<u32>>
    decreases es.len(),
{
    if es.len() == 0 {
        None
    } else if es.last().0 == t {
        Some(es.last().1)
    } else {
        last_payload(es.drop_last(), t)
    }
}

/// A log's end never lies before its start, and a non-empty log ends
/// within the region.
pub proof fn lemma_log_at_bounds<H: StorageHasher32>(
    mem: Seq<u32>,
    off: int,
    es: Seq<(u32, Seq<u32>)>,
    end: int,
)
    requires
        log_at::<H>(mem, off, es, end),
    ensures
        off <= end,
        es.len() > 0 ==> 0 <= off && end <= mem.len(),
    decreases es.len(),
{
    if es.len() > 0 {
        lemma_log_at_bounds::<H>(mem, off + entry_size(es[0]), es.drop_first(), end);
    }
}

/// A log only constrains the words it occupies: any region of the same
/// size agreeing on `[off, end)` holds the same log.
pub proof fn lemma_log_at_frame<H: StorageHasher32>(
    m1: Seq<u32>,
    m2: Seq<u32>,
    off: int,
    es: Seq<(u32, Seq<u32>)>,
    end: int,
)
    requires
        log_at::<H>(m1, off, es, end),
        m1.len() == m2.len(),
        forall|i: int| off <= i < end ==> m1[i] == m2[i],
    ensures
        log_at::<H>(m2, off, es, end),
    decreases es.len(),
{
    if es.len() > 0 {
        let k = entry_size(es[0]);
        lemma_log_at_bounds::<H>(m1, off + k, es.drop_first(), end);
        assert(m2.subrange(off, off + k) =~= m1.subrange(off, off + k));
        lemma_log_at_frame::<H>(m1, m2, off + k, es.drop_first(), end);
    }
}

/// Extending a log with one more record image directly behind it.
pub proof fn lemma_log_at_push<H: StorageHasher32>(
    mem: Seq<u32>,
    off: int,
    es: Seq<(u32, Seq<u32>)>,
    end: int,
    t: u32,
    p: Seq<u32>,
)
    requires
        log_at::<H>(mem, off, es, end),
        0 <= off,
        p.len() <= u32::MAX,
        end + HEADER_LEN + p.len() <= mem.len(),
        mem.subrange(end, end + HEADER_LEN + p.len()) == record_words::<H>(t, p),
    ensures
        log_at::<H>(mem, off, es.push((t, p)), end + HEADER_LEN + p.len()),
    decreases es.len(),
{
    let es2 = es.push((t, p));
    let end2 = end + HEADER_LEN + p.len();
    lemma_log_at_bounds::<H>(mem, off, es, end);
    if es.len() == 0 {
        assert(es2[0] == (t, p));
        assert(es2.drop_first() =~= Seq::<(u32, Seq<u32>)>::empty());
        assert(entry_size(es2[0]) == HEADER_LEN + p.len());
        assert(mem.subrange(off, off + entry_size(es2[0])) == record_words::<H>(t, p));
        assert(log_at::<H>(mem, off + entry_size(es2[0]), es2.drop_first(), end2));
    } else {
        lemma_log_at_push::<H>(mem, off + entry_size(es[0]), es.drop_first(), end, t, p);
        assert(es2[0] == es[0]);
        assert(es2.drop_first() =~= es.drop_first().push((t, p)));
        assert(log_at::<H>(mem, off + entry_size(es2[0]), es2.drop_first(), end2));
    }
}

/// Appending into the erased space behind a log keeps the region a log:
/// the new records line up behind the old ones, the space behind the new
/// end stays erased, and the cursor advances by exactly the words written.
pub proof fn lemma_multi_append_log<H: StorageHasher32>(
    mem: Seq<u32>,
    cur: int,
    done: Seq<(u32, Seq<u32>)>,
    es: Seq<(u32, Seq<u32>)>,
)
    requires
        log_at::<H>(mem, 0, done, cur),
        erased_from(mem, cur),
        appends_fit(mem.len() as int, cur, es),
        0 <= cur <= mem.len(),
    ensures
        ({
            let r = multi_append::<H>(mem, cur, es);
            &&& r.0.len() == mem.len()
            &&& r.1 == cur + total_size(es)
            &&& log_at::<H>(r.0, 0, done + es, r.1)
            &&& erased_from(r.0, r.1)
        }),
    decreases es.len(),
{
    if es.len() == 0 {
        assert(done + es =~= done);
    } else {
        let e = es[0];
        let k = entry_size(e);
        let rw = record_words::<H>(e.0, e.1);
        assert(rw.len() == k);
        let m1 = splice(mem, cur, rw);
        lemma_splice_facts(mem, cur, rw);
        lemma_log_at_frame::<H>(mem, m1, 0, done, cur);
        lemma_log_at_push::<H>(m1, 0, done, cur, e.0, e.1);
        assert(erased_from(m1, cur + k));
        lemma_multi_append_log::<H>(m1, cur + k, done.push(e), es.drop_first());
        assert(done.push(e) + es.drop_first() =~= done + es);
    }
}

/// The scan finds nothing in erased space: an erased word read as a length
/// field declares a payload no region under 2^32 words can hold.
pub proof fn lemma_scan_erased<H: StorageHasher32>(
    mem: Seq<u32>,
    off: int,
    list: Seq<RecordDesc>,
    lve: int,
)
    requires
        erased_from(mem, off),
        0 <= off,
        mem.len() < 0x1_0000_0000,
    ensures
        scan::<H>(mem, off, list, lve) == (list, lve),
    decreases mem.len() - off,
{
    if off + HEADER_LEN < mem.len() {
        assert(mem[off + 1] == ERASED_WORD);
        assert(!crate::layout::fits_at(mem, off));
        lemma_scan_erased::<H>(mem, off + 1, list, lve);
    }
}

/// Erased space holds no wasted words.
pub proof fn lemma_wasted_erased(mem: Seq<u32>, from: int, to: int)
    requires
        erased_from(mem, from),
        from <= to <= mem.len(),
    ensures
        wasted_in(mem, from, to) == 0,
    decreases to - from,
{
    if from < to {
        lemma_wasted_erased(mem, from, to - 1);
    }
}

/// Over a log with an erased tail, the scan steps from record start to
/// record start: it finds exactly the records of the log, repoints each
/// tag's slot in order, and reports the log's end as the last valid end —
/// except that a record with an empty payload ending exactly at the
/// region's edge lies beyond the scan's last candidate offset, which is
/// why such a log is excluded here.
pub proof fn lemma_scan_log<H: StorageHasher32>(
    mem: Seq<u32>,
    off: int,
    es: Seq<(u32, Seq<u32>)>,
    end: int,
    list: Seq<RecordDesc>,
    lve: int,
)
    requires
        log_at::<H>(mem, off, es, end),
        erased_from(mem, end),
        0 <= off,
        end <= mem.len(),
        mem.len() < 0x1_0000_0000,
        es.len() > 0 && es.last().1.len() == 0 ==> end < mem.len(),
    ensures
        scan::<H>(mem, off, list, lve) == (
            replay(list, off, es),
            if es.len() == 0 {
                lve
            } else {
                end
            },
        ),
    decreases es.len(),
{
    if es.len() == 0 {
        lemma_scan_erased::<H>(mem, off, list, lve);
    } else {
        let e = es[0];
        let k = entry_size(e);
        lemma_record_words_valid::<H>(mem, off, e.0, e.1);
        if es.len() == 1 {
            assert(log_at::<H>(mem, off + k, es.drop_first(), end));
            assert(off + k == end);
            assert(es.last() == e);
            assert(off + HEADER_LEN < mem.len());
        } else {
            assert(log_at::<H>(mem, off + k, es.drop_first(), end));
            assert(off + k + entry_size(es.drop_first()[0]) <= mem.len());
            assert(off + HEADER_LEN < mem.len());
            assert(es.drop_first().last() == es.last());
        }
        let list1 = list.update(e.0 as int, RecordDesc { tag: e.0, ptr: Some(off as usize) });
        assert(mem[off] == e.0 && mem[off + 1] == e.1.len() as u32);
        lemma_scan_log::<H>(mem, off + k, es.drop_first(), end, list1, off + k);
        assert(scan::<H>(mem, off, list, lve) == scan::<H>(mem, off + k, list1, off + k));
    }
}

/// Unfolding the latest payload per tag from the front of the appends.
pub proof fn lemma_last_payload_front(es: Seq<(u32, Seq<u32>)>, t: u32)
    requires
        es.len() > 0,
    ensures
        last_payload(es, t) == (if last_payload(es.drop_first(), t) is Some {
            last_payload(es.drop_first(), t)
        } else if es[0].0 == t {
            Some(es[0].1)
        } else {
            None
        }),
    decreases es.len(),
{
    if es.len() == 1 {
        assert(es.drop_first() =~= Seq::<(u32, Seq<u32>)>::empty());
        assert(es.last() == es[0]);
    } else {
        assert(es.drop_first().last() == es.last());
        if es.last().0 != t {
            lemma_last_payload_front(es.drop_last(), t);
            assert(es.drop_last()[0] == es[0]);
            assert(es.drop_last().drop_first() =~= es.drop_first().drop_last());
        }
    }
}

/// What a lookup finds through the replayed directory: for a tag that
/// appears in the appends, the payload of its last append; for any other
/// tag, its directory slot is untouched.
pub proof fn lemma_replay_lookup<H: StorageHasher32>(
    mem: Seq<u32>,
    off: int,
    es: Seq<(u32, Seq<u32>)>,
    end: int,
    list: Seq<RecordDesc>,
)
    requires
        log_at::<H>(mem, off, es, end),
        forall|j: int| 0 <= j < es.len() ==> (#[trigger] es[j].0 as int) < list.len(),
        mem.len() <= usize::MAX,
    ensures
        replay(list, off, es).len() == list.len(),
        forall|t: u32| #![trigger last_payload(es, t)]
            (t as int) < list.len() && last_payload(es, t) is None ==> replay(list, off, es)[t as int]
                == list[t as int],
        forall|t: u32| #![trigger last_payload(es, t)]
            (t as int) < list.len() && last_payload(es, t) is Some ==> lookup_model(
                mem,
                replay(list, off, es)[t as int],
            ) == Ok::<Option<Seq<u32>>, Error>(Some(last_payload(es, t)->Some_0)),
    decreases es.len(),
{
    if es.len() > 0 {
        let e = es[0];
        let k = entry_size(e);
        let list1 = list.update(e.0 as int, RecordDesc { tag: e.0, ptr: Some(off as usize) });
        lemma_record_words_valid::<H>(mem, off, e.0, e.1);
        assert(forall|j: int|
            0 <= j < es.drop_first().len() ==> (#[trigger] es.drop_first()[j].0 as int)
                < list1.len());
        lemma_replay_lookup::<H>(mem, off + k, es.drop_first(), end, list1);
        assert forall|t: u32| (t as int) < list.len() implies {
            &&& (#[trigger] last_payload(es, t) is None ==> replay(list, off, es)[t as int]
                == list[t as int])
            &&& (last_payload(es, t) is Some ==> lookup_model(mem, replay(list, off, es)[t as int])
                == Ok::<Option<Seq<u32>>, Error>(Some(last_payload(es, t)->Some_0)))
        } by {
            lemma_last_payload_front(es, t);
            let es1 = es.drop_first();
            if last_payload(es1, t) is Some {
                // the tail's last entry for t wins, by induction
            } else if e.0 == t {
                // t's slot points at this record; read it back
                assert(replay(list, off, es)[t as int] == list1[t as int]);
                assert(list1[t as int] == (RecordDesc { tag: t, ptr: Some(off as usize) }));
                assert(payload_at(mem, off) == e.1);
            } else {
                assert(replay(list, off, es)[t as int] == list1[t as int]);
                assert(list1[t as int] == list[t as int]);
            }
        }
    }
}

/// Round trip for a single record: a record image spliced at `cur` is
/// found unchanged by a lookup through the descriptor the append hands
/// back.
pub proof fn lemma_append_then_lookup<H: StorageHasher32>(
    mem: Seq<u32>,
    cur: int,
    tag: u32,
    p: Seq<u32>,
)
    requires
        0 <= cur,
        cur + HEADER_LEN + p.len() <= mem.len(),
        mem.len() <= usize::MAX as int,
        p.len() <= u32::MAX as int,
    ensures
        ({
            let m2 = splice(mem, cur, record_words::<H>(tag, p));
            lookup_model(m2, RecordDesc { tag, ptr: Some(cur as usize) })
                == Ok::<Option<Seq<u32>>, Error>(Some(p))
        }),
{
    let rw = record_words::<H>(tag, p);
    let m2 = splice(mem, cur, rw);
    lemma_splice_facts(mem, cur, rw);
    lemma_record_words_valid::<H>(m2, cur, tag, p);
}

/// Monotonic occupancy: a run of successful appends advances the cursor by
/// exactly the header and payload words written, so the occupied length
/// never decreases and always equals the total written so far.
pub proof fn lemma_occupancy_after_appends<H: StorageHasher32>(
    mem: Seq<u32>,
    cur: int,
    es: Seq<(u32, Seq<u32>)>,
)
    requires
        appends_fit(mem.len() as int, cur, es),
        0 <= cur <= mem.len(),
    ensures
        multi_append::<H>(mem, cur, es).1 == cur + total_size(es),
        total_size(es) >= 0,
        cur <= multi_append::<H>(mem, cur, es).1,
        multi_append::<H>(mem, cur, es).0.len() == mem.len(),
    decreases es.len(),
{
    if es.len() > 0 {
        let e = es[0];
        let rw = record_words::<H>(e.0, e.1);
        assert(rw.len() == entry_size(e));
        lemma_splice_facts(mem, cur, rw);
        lemma_occupancy_after_appends::<H>(
            splice(mem, cur, rw),
            cur + entry_size(e),
            es.drop_first(),
        );
    }
}

/// Idempotent recovery: after any run of successful appends into an erased
/// region, a fresh engine's recovery scan over the same words rebuilds the
/// directory so that every tag resolves to the payload of its last append
/// — exactly what a lookup would have returned before the restart — finds
/// no wasted words, and so parks the cursor where it stood.
///
/// The one excluded layout is a final record with an empty payload ending
/// exactly at the region's edge: the scan stops as soon as less than a
/// header's worth of words remains, so such a record lies beyond its last
/// candidate offset and is not found.
pub proof fn lemma_recovery_finds_latest<H: StorageHasher32>(
    mem0: Seq<u32>,
    es: Seq<(u32, Seq<u32>)>,
    list: Seq<RecordDesc>,
)
    requires
        erased_from(mem0, 0),
        mem0.len() < 0x1_0000_0000,
        appends_fit(mem0.len() as int, 0, es),
        forall|j: int| 0 <= j < es.len() ==> (#[trigger] es[j].0 as int) < list.len(),
        forall|i: int| 0 <= i < list.len() ==> list[i].ptr is None,
        es.len() > 0 && es.last().1.len() == 0 ==> total_size(es) < mem0.len(),
    ensures
        ({
            let r = multi_append::<H>(mem0, 0, es);
            let s = scan::<H>(r.0, 0, list, 0);
            &&& log_at::<H>(r.0, 0, es, r.1)
            &&& s.0 == replay(list, 0, es)
            &&& s.1 + wasted_in(r.0, s.1, r.0.len() as int) == r.1
            &&& forall|t: u32| #![trigger last_payload(es, t)]
                (t as int) < list.len() ==> lookup_model(r.0, s.0[t as int]) == (
                match last_payload(es, t) {
                    Some(p) => Ok::<Option<Seq<u32>>, Error>(Some(p)),
                    None => Ok::<Option<Seq<u32>>, Error>(None),
                })
        }),
{
    let r = multi_append::<H>(mem0, 0, es);
    let s = scan::<H>(r.0, 0, list, 0);
    lemma_multi_append_log::<H>(mem0, 0, Seq::<(u32, Seq<u32>)>::empty(), es);
    assert(Seq::<(u32, Seq<u32>)>::empty() + es =~= es);
    lemma_occupancy_after_appends::<H>(mem0, 0, es);
    if es.len() > 0 {
        lemma_log_at_bounds::<H>(r.0, 0, es, r.1);
    }
    lemma_scan_log::<H>(r.0, 0, es, r.1, list, 0);
    lemma_wasted_erased(r.0, r.1, r.0.len() as int);
    lemma_replay_lookup::<H>(r.0, 0, es, r.1, list);
    assert forall|t: u32| (t as int) < list.len() implies lookup_model(
        r.0,
        s.0[t as int],
    ) == (match #[trigger] last_payload(es, t) {
        Some(p) => Ok::<Option<Seq<u32>>, Error>(Some(p)),
        None => Ok::<Option<Seq<u32>>, Error>(None),
    }) by {
        if last_payload(es, t) is None {
            assert(s.0[t as int] == list[t as int]);
            assert(list[t as int].ptr is None);
        }
    }
}

/// Last write wins: appending `p1` then `p2` under one tag and then
/// recovering makes a lookup return `p2`, while `p1`'s words remain
/// physically present behind the first header, merely unreferenced.
pub proof fn lemma_last_write_wins<H: StorageHasher32>(
    mem0: Seq<u32>,
    t: u32,
    p1: Seq<u32>,
    p2: Seq<u32>,
    list: Seq<RecordDesc>,
)
    requires
        erased_from(mem0, 0),
        mem0.len() < 0x1_0000_0000,
        p1.len() <= u32::MAX,
        p2.len() <= u32::MAX,
        2 * HEADER_LEN + p1.len() + p2.len() <= mem0.len(),
        p2.len() == 0 ==> 2 * HEADER_LEN + p1.len() + p2.len() < mem0.len(),
        (t as int) < list.len(),
        forall|i: int| 0 <= i < list.len() ==> list[i].ptr is None,
    ensures
        ({
            let es = seq![(t, p1), (t, p2)];
            let r = multi_append::<H>(mem0, 0, es);
            let s = scan::<H>(r.0, 0, list, 0);
            &&& lookup_model(r.0, s.0[t as int]) == Ok::<Option<Seq<u32>>, Error>(Some(p2))
            &&& r.0.subrange(HEADER_LEN as int, HEADER_LEN + p1.len()) == p1
        }),
{
    let es = seq![(t, p1), (t, p2)];
    let es1 = es.drop_first();
    assert(es1 =~= seq![(t, p2)]);
    assert(es1.drop_first() =~= Seq::<(u32, Seq<u32>)>::empty());
    assert(es[0] == (t, p1));
    assert(es1[0] == (t, p2));
    assert(entry_size(es[0]) == HEADER_LEN + p1.len());
    assert(entry_size(es1[0]) == HEADER_LEN + p2.len());
    assert(appends_fit(
        mem0.len() as int,
        2 * HEADER_LEN + p1.len() + p2.len(),
        es1.drop_first(),
    ));
    assert(appends_fit(mem0.len() as int, HEADER_LEN + p1.len(), es1));
    assert(appends_fit(mem0.len() as int, 0, es));
    assert(es.last() == (t, p2));
    assert(total_size(es1.drop_first()) == 0);
    assert(total_size(es1) == HEADER_LEN + p2.len());
    assert(total_size(es) == 2 * HEADER_LEN + p1.len() + p2.len());
    lemma_recovery_finds_latest::<H>(mem0, es, list);
    assert(last_payload(es, t) == Some(p2));
    let r = multi_append::<H>(mem0, 0, es);
    lemma_record_words_valid::<H>(r.0, 0, t, p1);
    assert(r.0.subrange(HEADER_LEN as int, HEADER_LEN + p1.len()) =~= payload_at(r.0, 0));
}

} // verus!
