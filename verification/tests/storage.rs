//! Engine-level behaviour over an in-memory region.

use nor_storage::{Crc32, Error, RecordDesc, Storage, StorageHasher32, TestMem};

const WORD_SZ: usize = 4;
const HEADER_SZ: usize = 12;

fn erased_words(n: usize) -> Vec<u32> {
    vec![!0u32; n]
}

fn new_storage() -> Storage<TestMem, Crc32> {
    Storage::new(TestMem { words: erased_words(0x100) })
}

fn crc32_new() -> Crc32 {
    Crc32::new()
}

fn convert_sz_in_words(sz: usize) -> usize {
    nor_storage::words::convert_sz_in_words(sz)
}

#[test]
fn empty_test() {
    let storage_mem = erased_words(0x100);
    let capacity = storage_mem.len() * WORD_SZ;
    let storage: Storage<TestMem, Crc32> = Storage::new(TestMem { words: storage_mem });

    assert_eq!(storage.len(), 0);
    assert_eq!(storage.capacity(), capacity);
}

#[test]
fn reinit_test() {
    let mut storage: Storage<TestMem, Crc32> = Storage::new(TestMem { words: erased_words(0x100) });
    let mut crc32 = crc32_new();

    let mut rec_desc = vec![
        RecordDesc { tag: 0, ptr: None },
        RecordDesc { tag: 1, ptr: None },
    ];

    let rec_payload = b"test";
    storage.init(&mut rec_desc, &mut crc32);
    storage.update(&mut rec_desc[1], &rec_payload[..], &mut crc32).unwrap();
    assert!(rec_desc[1].ptr.is_some());

    let mut rec_desc = vec![
        RecordDesc { tag: 0, ptr: None },
        RecordDesc { tag: 1, ptr: None },
    ];
    let rec_payload = b"foo";
    storage.init(&mut rec_desc, &mut crc32);
    storage.update(&mut rec_desc[1], &rec_payload[..], &mut crc32).unwrap();
    assert!(rec_desc[1].ptr.is_some());

    let out = storage.get_checked(&rec_desc[1], &mut crc32).unwrap().unwrap();
    assert_eq!(out.as_slice(), &b"foo"[..]);
}

#[test]
fn new_record_test() {
    let mut storage = new_storage();
    let mut rec_desc = RecordDesc { tag: 1, ptr: None };

    let rec_payload = [42u8; 1];
    let mut crc32 = crc32_new();

    storage.update(&mut rec_desc, &rec_payload, &mut crc32).unwrap();
    assert_eq!(storage.len(), HEADER_SZ + convert_sz_in_words(rec_payload.len()) * WORD_SZ);
    assert!(rec_desc.ptr.is_some());

    let out_rec_payload = storage.get_checked(&rec_desc, &mut crc32).unwrap().unwrap();
    assert_eq!(&rec_payload[..], out_rec_payload.as_slice());

    let mut desc_list = vec![
        RecordDesc { tag: 0, ptr: None },
        RecordDesc { tag: 1, ptr: None },
    ];
    let _stats = storage.init(&mut desc_list, &mut crc32);
    assert_eq!(&desc_list[1], &rec_desc);
}

#[test]
fn series_of_records_test() {
    let mut storage = new_storage();
    let mut crc32 = crc32_new();

    let mut desc_list = vec![
        RecordDesc { tag: 0, ptr: None },
        RecordDesc { tag: 1, ptr: None },
        RecordDesc { tag: 2, ptr: None },
    ];

    let e0 = [!42u8; 10];
    storage.update(&mut desc_list[0], &e0, &mut crc32).unwrap();

    let e1 = [0x77u8; 3];
    storage.update(&mut desc_list[1], &e1, &mut crc32).unwrap();

    let e0 = [0x66u8; 3];
    storage.update(&mut desc_list[0], &e0, &mut crc32).unwrap();

    let e2 = [0x55u8; 4];
    storage.update(&mut desc_list[2], &e2, &mut crc32).unwrap();

    let e0 = [0xB5u8, 0xA5, 0x7E];
    storage.update(&mut desc_list[0], &e0, &mut crc32).unwrap();

    let e1 = [66u8; 5];
    storage.update(&mut desc_list[1], &e1, &mut crc32).unwrap();

    let mut ndesc_list = vec![
        RecordDesc { tag: 0, ptr: None },
        RecordDesc { tag: 1, ptr: None },
        RecordDesc { tag: 2, ptr: None },
    ];
    storage.init(&mut ndesc_list, &mut crc32);
    assert_eq!(
        storage.get_checked(&ndesc_list[0], &mut crc32).unwrap().unwrap().as_slice(),
        &e0[..]
    );
    assert_eq!(
        storage.get_checked(&ndesc_list[1], &mut crc32).unwrap().unwrap().as_slice(),
        &e1[..]
    );
    assert_eq!(
        storage.get_checked(&ndesc_list[2], &mut crc32).unwrap().unwrap().as_slice(),
        &e2[..]
    );

    assert_eq!(&desc_list, &ndesc_list);
}

#[test]
fn oom_test() {
    let mut storage = new_storage();
    let mut crc32 = crc32_new();

    let mut desc_list = vec![RecordDesc { tag: 0, ptr: None }];

    let e0 = [!42u8; 10];
    while let Err(e) = storage.update(&mut desc_list[0], &e0, &mut crc32) {
        if let Error::OutOfMemory = e {
        } else {
            panic!()
        }
    }
}

#[test]
fn crc32_test() {
    // CRC-32/MPEG-2: IEEE polynomial, all-ones start, no final xor,
    // non-reflected.
    let mut crc = crc32_new();
    crc.reset();
    crc.write32(&[0xA5A5A5A5]);
    let res: u32 = crc.finish();
    assert_eq!(res, 0x29928E70);
}

#[test]
fn oom_exact_boundary() {
    // 16-word region. A 10-byte payload record takes 3 + 3 = 6 words.
    // Two fit; the third does not: 4 free words are 16 bytes, but header
    // plus payload ask for 22.
    let mut storage: Storage<TestMem, Crc32> = Storage::new(TestMem { words: erased_words(16) });
    let mut crc32 = crc32_new();
    let mut desc = RecordDesc { tag: 1, ptr: None };

    let first = [1u8; 10];
    let second = [2u8; 10];
    let third = [3u8; 10];
    storage.update(&mut desc, &first, &mut crc32).unwrap();
    storage.update(&mut desc, &second, &mut crc32).unwrap();
    match storage.update(&mut desc, &third, &mut crc32) {
        Err(Error::OutOfMemory) => {}
        _ => panic!("expected OutOfMemory"),
    }
    // The descriptor still reads back the second value.
    let out = storage.get_checked(&desc, &mut crc32).unwrap().unwrap();
    assert_eq!(out.as_slice(), &second[..]);
}

#[test]
fn corrupted_tag_on_get() {
    let mut storage = new_storage();
    let mut crc32 = crc32_new();
    let mut desc = RecordDesc { tag: 1, ptr: None };
    storage.update(&mut desc, &[7u8; 4], &mut crc32).unwrap();

    // A descriptor whose tag disagrees with the stored header's tag.
    let bad = RecordDesc { tag: 2, ptr: desc.ptr };
    match storage.get(&bad) {
        Err(Error::CorruptedRecordOnGet) => {}
        _ => panic!("expected CorruptedRecordOnGet"),
    }
}

#[test]
fn crc_error_on_checked_get() {
    let mut crc32 = crc32_new();
    let mut desc = RecordDesc { tag: 1, ptr: None };
    let mut storage: Storage<TestMem, Crc32> = Storage::new(TestMem { words: erased_words(0x100) });
    storage.update(&mut desc, &[9u8; 4], &mut crc32).unwrap();

    // Flip a bit in the payload word behind the engine's back.
    let mut mem = storage.into_inner();
    mem.words[3] ^= 1;
    let storage: Storage<TestMem, Crc32> = Storage::new(mem);
    match storage.get_checked(&desc, &mut crc32) {
        Err(Error::Crc) => {}
        _ => panic!("expected Crc"),
    }
    // Without re-validation the raw (corrupted) bytes still come back.
    let raw = storage.get(&desc).unwrap().unwrap();
    assert_eq!(raw.len(), 4);
}

#[test]
fn driver_error_on_nonerased_write() {
    // The header slot is already written, so the driver must refuse.
    let mut words = erased_words(8);
    words[0] = 0;
    let mut storage: Storage<TestMem, Crc32> = Storage::new(TestMem { words });
    let mut crc32 = crc32_new();
    let mut desc = RecordDesc { tag: 1, ptr: None };
    match storage.update(&mut desc, &[1u8; 4], &mut crc32) {
        Err(Error::Driver(())) => {}
        _ => panic!("expected Driver"),
    }
    assert!(desc.ptr.is_none());
}
