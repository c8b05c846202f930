use blockstore::backend::Backend;
use blockstore::backend::IoError;
use blockstore::backend::RamDisk;
use blockstore::backend::SeekDisk;
use blockstore::block::align_data_for_odirect;
use blockstore::block::aligned_size;
use blockstore::block::truncate_payload;
use blockstore::block::BLOCK_SIZE;
use blockstore::volume::Volume;

#[test]
fn block_size_is_512() {
    assert_eq!(BLOCK_SIZE, 512);
}

#[test]
fn aligned_size_values() {
    assert_eq!(aligned_size(0), Some(0));
    assert_eq!(aligned_size(1), Some(512));
    assert_eq!(aligned_size(13), Some(512));
    assert_eq!(aligned_size(511), Some(512));
    assert_eq!(aligned_size(512), Some(512));
    assert_eq!(aligned_size(513), Some(1024));
    assert_eq!(aligned_size(1024), Some(1024));
    assert_eq!(aligned_size(u64::MAX - 511), Some(u64::MAX - 511));
    assert_eq!(aligned_size(u64::MAX - 510), None);
    assert_eq!(aligned_size(u64::MAX), None);
}

#[test]
fn padding_zero_fills_to_block() {
    let padded = align_data_for_odirect(vec![9u8; 13]);
    assert_eq!(padded.len(), 512);
    assert_eq!(&padded[..13], &[9u8; 13]);
    assert!(padded[13..].iter().all(|b| *b == 0));

    let empty = align_data_for_odirect(Vec::new());
    assert_eq!(empty.len(), 0);

    let exact = align_data_for_odirect(vec![1u8; 1024]);
    assert_eq!(exact.len(), 1024);
}

#[test]
fn truncation_keeps_prefix() {
    let buf: Vec<u8> = (0..32u8).collect();
    let cut = truncate_payload(buf, 5);
    assert_eq!(cut, vec![0, 1, 2, 3, 4]);
}

#[test]
fn backend_write_then_read() {
    let mut ram = RamDisk::new();
    let mut seek = SeekDisk::new();
    for disk in [&mut ram as &mut dyn AnyBackend, &mut seek as &mut dyn AnyBackend] {
        disk.put(vec![1, 2, 3, 4], 0);
        disk.put(vec![9, 9], 2);
        assert_eq!(disk.get(4, 0), Some(vec![1, 2, 9, 9]));
        assert_eq!(disk.get(2, 2), Some(vec![9, 9]));
        assert_eq!(disk.get(5, 0), None, "reading past the end must fail");
    }
}

// Object-safe shim so one test body can drive both backends.
trait AnyBackend {
    fn put(&mut self, data: Vec<u8>, offset: u64);
    fn get(&self, size: u64, offset: u64) -> Option<Vec<u8>>;
}

impl<B: Backend> AnyBackend for B {
    fn put(&mut self, data: Vec<u8>, offset: u64) {
        self.write_at(data, offset).expect("in-memory write cannot fail");
    }

    fn get(&self, size: u64, offset: u64) -> Option<Vec<u8>> {
        match self.read_at(size, offset) {
            Ok(v) => Some(v),
            Err(IoError::ShortRead) => None,
        }
    }
}

#[test]
fn backend_extends_store() {
    let mut disk = RamDisk::from_bytes(vec![5u8; 4]);
    assert_eq!(disk.byte_len(), 4);
    disk.write_at(vec![7u8; 4], 4).unwrap();
    assert_eq!(disk.byte_len(), 8);
    assert_eq!(disk.read_at(8, 0).unwrap(), vec![5, 5, 5, 5, 7, 7, 7, 7]);
}

#[test]
fn volume_reserve_advances_cursor() {
    let mut vol = Volume::new(0);
    assert_eq!(vol.current_cursor(), 0);
    let o1 = vol.reserve(13).unwrap();
    assert_eq!(o1, 0);
    assert_eq!(vol.current_cursor(), 512);
    let o2 = vol.reserve(600).unwrap();
    assert_eq!(o2, 512);
    assert_eq!(vol.current_cursor(), 512 + 1024);
}

#[test]
fn volume_reserve_fails_near_the_limit() {
    let mut vol = Volume::new(u64::MAX - 100);
    assert_eq!(vol.reserve(600), None);
    assert_eq!(vol.current_cursor(), u64::MAX - 100);
}

#[test]
fn interleaved_reservations_do_not_overlap() {
    // Three writes reserve before any commits, as concurrent writers do;
    // the granted ranges are increasing and pairwise disjoint, whatever
    // order the transfers finish in.
    let mut vol = Volume::new(0);
    let o1 = vol.reserve(100).unwrap();
    let o2 = vol.reserve(700).unwrap();
    let o3 = vol.reserve(1).unwrap();
    assert_eq!(o1, 0);
    assert_eq!(o2, 512); // 100 aligns to 512
    assert_eq!(o3, 512 + 1024); // 700 aligns to 1024

    // Commits arrive out of completion order; the middle transfer failed
    // and is never committed, so its range stays permanently skipped.
    vol.commit("w3".to_owned(), o3, 1);
    vol.commit("w1".to_owned(), o1, 100);
    assert_eq!(vol.lookup(&"w1".to_owned()).unwrap().offset, 0);
    assert_eq!(vol.lookup(&"w2".to_owned()), None);
    assert_eq!(vol.lookup(&"w3".to_owned()).unwrap().offset, 1536);
    assert_eq!(vol.current_cursor(), 2048);
}

#[test]
fn volume_commit_and_lookup() {
    let mut vol = Volume::new(0);
    let off = vol.reserve(13).unwrap();
    assert_eq!(vol.lookup(&"r1".to_owned()), None);
    vol.commit("r1".to_owned(), off, 13);
    let meta = vol.lookup(&"r1".to_owned()).expect("committed entry");
    assert_eq!(meta.offset, 0);
    assert_eq!(meta.size, 13);
    assert_eq!(vol.lookup(&"r2".to_owned()), None);
}
