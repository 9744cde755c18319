use iced::{Storage, WORD_SIZE};

#[test]
fn it_works() {
    assert_eq!(2 + 2, 4);
}

#[test]
fn empty_test() {
    let storage_mem = vec![!0u32; 0x100];
    let capacity = WORD_SIZE * storage_mem.len();
    let storage = Storage::new(storage_mem);

    assert_eq!(storage.len(), 0);
    assert_eq!(storage.capacity(), capacity);
}
