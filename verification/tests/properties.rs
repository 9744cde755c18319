use crc::crc32::{Digest, Hasher32, IEEE};
use iced::{Error, RecordDesc, Storage, StorageHasher32, HEADER_LEN, WORD_SIZE};

struct Crc32Session {
    digest: Digest,
}

impl StorageHasher32 for Crc32Session {
    fn reset(&mut self) {
        Hasher32::reset(&mut self.digest);
    }

    fn write(&mut self, words: &[u32]) {
        let mut bytes: Vec<u8> = Vec::with_capacity(words.len() * WORD_SIZE);
        for w in words {
            bytes.extend_from_slice(&w.to_le_bytes());
        }
        Hasher32::write(&mut self.digest, &bytes);
    }

    fn sum(&self) -> u32 {
        self.digest.sum32()
    }
}

fn crc32_ethernet() -> Crc32Session {
    Crc32Session { digest: Digest::new_with_initial(IEEE, !0u32) }
}

fn fresh_directory(tags: u32) -> Vec<RecordDesc> {
    let mut list = Vec::new();
    let mut t: u32 = 0;
    while t < tags {
        list.push(RecordDesc { tag: t, ptr: None });
        t += 1;
    }
    list
}

#[test]
fn round_trip_several_tags() {
    let mut storage = Storage::new(vec![!0u32; 0x100]);
    let mut crc = crc32_ethernet();
    let mut descs = fresh_directory(3);

    let p0 = [0xDEAD_BEEFu32, 0x0BAD_F00D];
    let p1: [u32; 0] = [];
    let p2 = [7u32, 8, 9, 10];

    storage.update(&mut descs[0], &p0, &mut crc).unwrap();
    storage.update(&mut descs[1], &p1, &mut crc).unwrap();
    storage.update(&mut descs[2], &p2, &mut crc).unwrap();

    assert_eq!(storage.get(&descs[0]).unwrap().unwrap(), &p0[..]);
    assert_eq!(storage.get(&descs[1]).unwrap().unwrap(), &p1[..]);
    assert_eq!(storage.get(&descs[2]).unwrap().unwrap(), &p2[..]);
}

#[test]
fn occupancy_is_monotonic_and_exact() {
    let mut storage = Storage::new(vec![!0u32; 0x40]);
    let mut crc = crc32_ethernet();
    let mut descs = fresh_directory(2);

    assert_eq!(storage.len(), 0);

    let mut previous = storage.len();
    let mut words_written: usize = 0;

    let payloads: [&[u32]; 4] = [&[1, 2, 3], &[], &[4], &[5, 6]];
    for (i, p) in payloads.iter().enumerate() {
        let tag = (i % 2) as usize;
        storage.update(&mut descs[tag], p, &mut crc).unwrap();
        words_written += HEADER_LEN + p.len();
        let now = storage.len();
        assert!(now >= previous);
        assert_eq!(now, words_written * WORD_SIZE);
        previous = now;
    }
}

#[test]
fn recovery_is_idempotent() {
    let mut storage = Storage::new(vec![!0u32; 0x100]);
    let mut crc = crc32_ethernet();
    let mut descs = fresh_directory(3);

    storage.update(&mut descs[0], &[11, 12], &mut crc).unwrap();
    storage.update(&mut descs[2], &[13], &mut crc).unwrap();
    storage.update(&mut descs[0], &[14, 15, 16], &mut crc).unwrap();

    let before_0: Vec<u32> = storage.get(&descs[0]).unwrap().unwrap().to_vec();
    let before_2: Vec<u32> = storage.get(&descs[2]).unwrap().unwrap().to_vec();
    let len_before = storage.len();

    // A cold start: same bytes, fresh engine, empty directory.
    let words = storage.into_mem();
    let mut revived = Storage::new(words);
    let mut fresh = fresh_directory(3);
    let stats = revived.init(&mut fresh, &mut crc);

    assert_eq!(revived.get(&fresh[0]).unwrap().unwrap(), &before_0[..]);
    assert!(revived.get(&fresh[1]).unwrap().is_none());
    assert_eq!(revived.get(&fresh[2]).unwrap().unwrap(), &before_2[..]);
    assert_eq!(revived.len(), len_before);
    assert_eq!(stats.words_wasted, 0);
    assert_eq!(stats.unique_tags, 2);
}

#[test]
fn last_write_wins_after_recovery() {
    let mut storage = Storage::new(vec![!0u32; 0x100]);
    let mut crc = crc32_ethernet();
    let mut descs = fresh_directory(1);

    let p1 = [0x1111_1111u32, 0x2222_2222];
    let p2 = [0x3333_3333u32];
    storage.update(&mut descs[0], &p1, &mut crc).unwrap();
    storage.update(&mut descs[0], &p2, &mut crc).unwrap();

    let words = storage.into_mem();
    // The superseded payload is physically present behind the first header.
    assert_eq!(&words[HEADER_LEN..HEADER_LEN + p1.len()], &p1[..]);

    let mut revived = Storage::new(words);
    let mut fresh = fresh_directory(1);
    revived.init(&mut fresh, &mut crc);
    assert_eq!(revived.get(&fresh[0]).unwrap().unwrap(), &p2[..]);
}

#[test]
fn append_fails_exactly_when_out_of_space() {
    let mut storage = Storage::new(vec![!0u32; 8]);
    let mut crc = crc32_ethernet();
    let mut desc = RecordDesc { tag: 0, ptr: None };

    // One word more than fits: 8 free words cannot hold header + 6.
    let too_big = [9u32; 6];
    let err = storage.update(&mut desc, &too_big, &mut crc).unwrap_err();
    assert_eq!(err, Error::OutOfFreeSpace);
    assert_eq!(storage.len(), 0);
    assert!(desc.ptr.is_none());

    // Exactly filling the region succeeds.
    let exact = [9u32; 5];
    storage.update(&mut desc, &exact, &mut crc).unwrap();
    assert_eq!(storage.len(), 8 * WORD_SIZE);

    // Now even an empty payload no longer fits; prior data is unharmed.
    let err = storage.update(&mut desc, &[], &mut crc).unwrap_err();
    assert_eq!(err, Error::OutOfFreeSpace);
    assert_eq!(storage.len(), 8 * WORD_SIZE);
    assert_eq!(storage.get(&desc).unwrap().unwrap(), &exact[..]);
}

#[test]
fn tampered_record_is_not_found() {
    // Region of 0x100 words, all erased.
    let mut storage = Storage::new(vec![!0u32; 0x100]);
    let mut crc = crc32_ethernet();
    let mut desc = RecordDesc { tag: 1, ptr: None };
    storage.update(&mut desc, &[42u32], &mut crc).unwrap();

    // Flip one payload bit in the stored record.
    let mut words = storage.into_mem();
    words[HEADER_LEN] ^= 1;

    // A fresh engine's recovery treats the corrupted record as noise.
    let mut revived = Storage::new(words);
    let mut fresh = fresh_directory(2);
    let stats = revived.init(&mut fresh, &mut crc);
    assert!(fresh[1].ptr.is_none());
    assert_eq!(stats.unique_tags, 0);
}

#[test]
fn single_record_scenario() {
    // Fresh 0x100-word region; Append(tag=1, [42]).
    let mut storage = Storage::new(vec![!0u32; 0x100]);
    let mut crc = crc32_ethernet();
    let mut descs = fresh_directory(2);

    storage.update(&mut descs[1], &[42u32], &mut crc).unwrap();
    assert_eq!(storage.get(&descs[1]).unwrap().unwrap(), &[42u32][..]);
    assert_eq!(storage.len(), (HEADER_LEN + 1) * WORD_SIZE);
}

#[test]
fn interleaved_tags_recover_to_latest() {
    let mut storage = Storage::new(vec![!0u32; 0x100]);
    let mut crc = crc32_ethernet();
    let mut descs = fresh_directory(3);

    storage.update(&mut descs[0], &[1u32; 4], &mut crc).unwrap();
    storage.update(&mut descs[1], &[2u32; 2], &mut crc).unwrap();
    storage.update(&mut descs[2], &[3u32; 5], &mut crc).unwrap();
    storage.update(&mut descs[1], &[4u32; 6], &mut crc).unwrap();
    storage.update(&mut descs[0], &[5u32; 1], &mut crc).unwrap();
    storage.update(&mut descs[2], &[6u32; 3], &mut crc).unwrap();
    storage.update(&mut descs[0], &[7u32; 2], &mut crc).unwrap();

    let words = storage.into_mem();
    let mut revived = Storage::new(words);
    let mut fresh = fresh_directory(3);
    revived.init(&mut fresh, &mut crc);

    assert_eq!(revived.get(&fresh[0]).unwrap().unwrap(), &[7u32; 2][..]);
    assert_eq!(revived.get(&fresh[1]).unwrap().unwrap(), &[4u32; 6][..]);
    assert_eq!(revived.get(&fresh[2]).unwrap().unwrap(), &[6u32; 3][..]);
}

#[test]
fn stale_pointer_is_reported() {
    let mut storage = Storage::new(vec![!0u32; 0x40]);
    let mut crc = crc32_ethernet();
    let mut desc = RecordDesc { tag: 1, ptr: None };
    storage.update(&mut desc, &[5u32, 6], &mut crc).unwrap();

    // A descriptor whose tag disagrees with the record it points at.
    let foreign = RecordDesc { tag: 2, ptr: desc.ptr };
    assert_eq!(storage.get(&foreign).unwrap_err(), Error::CorruptedRecordOnGet);

    // A pointer outside the region is just as stale.
    let way_out = RecordDesc { tag: 1, ptr: Some(0x40) };
    assert_eq!(storage.get(&way_out).unwrap_err(), Error::CorruptedRecordOnGet);

    // No cached pointer is not an error: there is just no value yet.
    let empty = RecordDesc { tag: 0, ptr: None };
    assert!(storage.get(&empty).unwrap().is_none());
}

#[test]
fn garbage_tail_is_counted_and_skipped() {
    let mut storage = Storage::new(vec![!0u32; 0x20]);
    let mut crc = crc32_ethernet();
    let mut descs = fresh_directory(1);
    storage.update(&mut descs[0], &[77u32], &mut crc).unwrap();

    // An interrupted later write left two non-erased words behind the
    // last valid record.
    let mut words = storage.into_mem();
    words[6] = 0x1234_5678;
    words[7] = 0x0FFF_FFFF;

    let mut revived = Storage::new(words);
    let mut fresh = fresh_directory(1);
    let stats = revived.init(&mut fresh, &mut crc);

    assert_eq!(stats.words_wasted, 2);
    assert_eq!(stats.unique_tags, 1);
    // The cursor parks behind the garbage: 4 record words + 2 wasted.
    assert_eq!(revived.len(), 6 * WORD_SIZE);
    assert_eq!(revived.get(&fresh[0]).unwrap().unwrap(), &[77u32][..]);
}

#[test]
fn recovery_of_erased_region_finds_nothing() {
    let mut storage = Storage::new(vec![!0u32; 0x20]);
    let mut crc = crc32_ethernet();
    let mut descs = fresh_directory(3);

    let stats = storage.init(&mut descs, &mut crc);
    assert!(descs.iter().all(|d| d.ptr.is_none()));
    assert_eq!(stats.words_wasted, 0);
    assert_eq!(stats.unique_tags, 0);
    assert_eq!(storage.len(), 0);
}

#[test]
fn record_ending_at_capacity_recovers() {
    let mut storage = Storage::new(vec![!0u32; 8]);
    let mut crc = crc32_ethernet();
    let mut descs = fresh_directory(1);

    // Header + 5 payload words fill the 8-word region exactly.
    let payload = [0xCAFEu32, 2, 3, 4, 5];
    storage.update(&mut descs[0], &payload, &mut crc).unwrap();

    let words = storage.into_mem();
    let mut revived = Storage::new(words);
    let mut fresh = fresh_directory(1);
    let stats = revived.init(&mut fresh, &mut crc);

    assert_eq!(revived.get(&fresh[0]).unwrap().unwrap(), &payload[..]);
    assert_eq!(stats.words_wasted, 0);
    assert_eq!(revived.len(), 8 * WORD_SIZE);
}
