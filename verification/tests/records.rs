use crc::crc32::{Digest, Hasher32, IEEE};
use iced::{RecordDesc, Storage, StorageHasher32, HEADER_LEN, WORD_SIZE};

struct Crc32Session {
    digest: Digest,
}

impl StorageHasher32 for Crc32Session {
    fn reset(&mut self) {
        Hasher32::reset(&mut self.digest);
    }

    fn write(&mut self, words: &[u32]) {
        let mut bytes: Vec<u8> = Vec::with_capacity(words.len() * WORD_SIZE);
        for w in words {
            bytes.extend_from_slice(&w.to_le_bytes());
        }
        Hasher32::write(&mut self.digest, &bytes);
    }

    fn sum(&self) -> u32 {
        self.digest.sum32()
    }
}

fn crc32_ethernet() -> impl StorageHasher32 {
    Crc32Session { digest: Digest::new_with_initial(IEEE, !0u32) }
}

fn new_storage(storage_mem: Vec<u32>) -> Storage {
    Storage::new(storage_mem)
}

#[test]
fn new_record_test() {
    let storage_mem = vec![!0u32; 0x100];
    let mut storage = new_storage(storage_mem);
    let mut rec_desc = RecordDesc { tag: 1, ptr: None };

    let rec_payload = [42u32; 1];
    let mut crc32 = crc32_ethernet();

    storage.update(&mut rec_desc, &rec_payload, &mut crc32).unwrap();
    assert_eq!(storage.len(), (HEADER_LEN + rec_payload.len()) * WORD_SIZE);
    assert!(&rec_desc.ptr.is_some());

    let out_rec_payload = storage.get(&rec_desc).unwrap().unwrap();
    assert_eq!(&rec_payload[..], out_rec_payload);

    let mut desc_list = vec![
        RecordDesc { tag: 0, ptr: None },
        RecordDesc { tag: 1, ptr: None },
    ];
    let _stats = storage.init(&mut desc_list, &mut crc32);
    assert_eq!(&desc_list[1], &rec_desc);
}

#[test]
fn series_of_records_test() {
    let storage_mem = vec![!0u32; 0x100];
    let mut storage = new_storage(storage_mem);
    let mut crc32 = crc32_ethernet();

    let mut desc_list = vec![
        RecordDesc { tag: 0, ptr: None },
        RecordDesc { tag: 1, ptr: None },
        RecordDesc { tag: 2, ptr: None },
    ];

    let e0 = [!42u32; 10];
    storage.update(&mut desc_list[0], &e0, &mut crc32).unwrap();

    let e1 = [0x7777_7777; 3];
    storage.update(&mut desc_list[1], &e1, &mut crc32).unwrap();

    let e0 = [0x6666_6666; 3];
    storage.update(&mut desc_list[0], &e0, &mut crc32).unwrap();

    let e2 = [0x5555_5555; 3];
    storage.update(&mut desc_list[2], &e2, &mut crc32).unwrap();

    let e0 = [0xA5B5A5A5u32; 2];
    storage.update(&mut desc_list[0], &e0, &mut crc32).unwrap();

    let e1 = [66u32; 5];
    storage.update(&mut desc_list[1], &e1, &mut crc32).unwrap();

    storage.init(&mut desc_list, &mut crc32);
    assert_eq!(storage.get(&desc_list[0]).unwrap().unwrap(), &e0);
    assert_eq!(storage.get(&desc_list[1]).unwrap().unwrap(), &e1);
    assert_eq!(storage.get(&desc_list[2]).unwrap().unwrap(), &e2);
}
