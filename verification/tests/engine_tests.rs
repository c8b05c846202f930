use blockstore::backend::Backend;
use blockstore::backend::RamDisk;
use blockstore::backend::SeekDisk;
use blockstore::engine::ReadError;
use blockstore::engine::StorageEngine;

fn write_ok<B: Backend>(eng: &mut StorageEngine<B>, id: &str, data: &[u8]) -> u64 {
    let resp = eng.write_data(id.to_owned(), data.to_vec());
    assert!(resp.success, "write of {} failed: {}", id, resp.error_message);
    assert_eq!(resp.request_id, id);
    assert_eq!(resp.error_message, "");
    resp.offset
}

fn read_ok<B: Backend>(eng: &StorageEngine<B>, id: &str) -> Vec<u8> {
    let resp = eng.read_data(id.to_owned()).expect("read should succeed");
    assert!(resp.success);
    assert_eq!(resp.request_id, id);
    assert_eq!(resp.error_message, "");
    resp.data
}

#[test]
fn concrete_scenario() {
    let mut eng = StorageEngine::new(RamDisk::new());

    let hello = "Hello, World!".as_bytes();
    assert_eq!(hello.len(), 13);
    let offset_a = write_ok(&mut eng, "a", hello);
    assert_eq!(offset_a, 0);

    let second = "This is a test message.".as_bytes();
    assert_eq!(second.len(), 23);
    let offset_b = write_ok(&mut eng, "b", second);
    assert_eq!(offset_b, 512);

    assert_eq!(read_ok(&eng, "a"), hello.to_vec());

    let missing = eng.read_data("c".to_owned());
    assert!(matches!(missing, Err(ReadError::NotFound)));
}

#[test]
fn round_trip_various_payloads() {
    let mut eng = StorageEngine::new(RamDisk::new());
    let payloads: Vec<(&str, Vec<u8>)> = vec![
        ("empty", Vec::new()),
        ("one", vec![0xABu8]),
        ("block", vec![7u8; 512]),
        ("crossing", (0..1000u32).map(|i| (i % 251) as u8).collect()),
        ("hello", "Hello, World!".as_bytes().to_vec()),
    ];
    for (id, data) in &payloads {
        write_ok(&mut eng, id, data);
    }
    for (id, data) in &payloads {
        assert_eq!(&read_ok(&eng, id), data, "payload for {} differs", id);
    }
}

#[test]
fn alignment_of_consecutive_offsets() {
    let mut eng = StorageEngine::new(RamDisk::new());
    // Each write's footprint is its length rounded up to 512 bytes; the
    // next assigned offset moves by exactly that footprint.
    let o1 = write_ok(&mut eng, "w1", &[1u8; 13]);
    let o2 = write_ok(&mut eng, "w2", &[2u8; 512]);
    let o3 = write_ok(&mut eng, "w3", &[3u8; 513]);
    let o4 = write_ok(&mut eng, "w4", &[4u8; 1]);
    assert_eq!(o1, 0);
    assert_eq!(o2, o1 + 512); // 13 aligns to 512
    assert_eq!(o3, o2 + 512); // 512 is already aligned
    assert_eq!(o4, o3 + 1024); // 513 aligns to 1024
}

#[test]
fn unknown_identifier_is_not_found() {
    let eng = StorageEngine::new(RamDisk::new());
    match eng.read_data("nonexistent".to_owned()) {
        Err(ReadError::NotFound) => {},
        Ok(resp) => panic!(
            "read of an unknown identifier must not succeed (got {} bytes)",
            resp.data.len()
        ),
    }
}

#[test]
fn reread_is_identical() {
    let mut eng = StorageEngine::new(RamDisk::new());
    let data = b"some stable payload".to_vec();
    write_ok(&mut eng, "stable", &data);
    let first = read_ok(&eng, "stable");
    let second = read_ok(&eng, "stable");
    assert_eq!(first, second);
    assert_eq!(first, data);
}

#[test]
fn rewrite_replaces_payload() {
    // A second write under an already used identifier replaces what the
    // identifier denotes; the old byte range is orphaned.
    let mut eng = StorageEngine::new(RamDisk::new());
    write_ok(&mut eng, "k", b"first value");
    let off2 = write_ok(&mut eng, "k", b"second value");
    assert_eq!(off2, 512);
    assert_eq!(read_ok(&eng, "k"), b"second value".to_vec());
}

#[test]
fn engine_continues_after_existing_bytes() {
    // A store that already holds bytes behaves like a reopened backing
    // file: the cursor continues from its end.
    let existing = vec![0x55u8; 1024];
    let mut eng = StorageEngine::new(RamDisk::from_bytes(existing));
    let off = write_ok(&mut eng, "appended", b"xyz");
    assert_eq!(off, 1024);
    assert_eq!(read_ok(&eng, "appended"), b"xyz".to_vec());
}

fn run_script<B: Backend>(eng: &mut StorageEngine<B>) -> Vec<(String, u64, bool, Option<Vec<u8>>)> {
    let mut log = Vec::new();
    let ops: Vec<(&str, Vec<u8>)> = vec![
        ("a", b"Hello, World!".to_vec()),
        ("b", vec![0u8; 600]),
        ("c", Vec::new()),
        ("a", b"rewritten".to_vec()),
    ];
    for (id, data) in ops {
        let resp = eng.write_data(id.to_owned(), data);
        log.push((resp.request_id, resp.offset, resp.success, None));
    }
    for id in ["a", "b", "c", "never-written"] {
        match eng.read_data(id.to_owned()) {
            Ok(resp) => log.push((resp.request_id, 0, resp.success, Some(resp.data))),
            Err(ReadError::NotFound) => log.push((id.to_owned(), 0, false, None)),
        }
    }
    log
}

#[test]
fn backend_equivalence() {
    // The ring-style positional backend and the seek-style fallback
    // backend must produce byte-identical observable behaviour for the
    // same sequence of operations.
    let mut ring_engine = StorageEngine::new(RamDisk::new());
    let mut seek_engine = StorageEngine::new(SeekDisk::new());
    let ring_log = run_script(&mut ring_engine);
    let seek_log = run_script(&mut seek_engine);
    assert_eq!(ring_log, seek_log);
}
