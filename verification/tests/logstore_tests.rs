use firmware::frame::Frame;
use firmware::frame::GAS_LEAKAGE_TYPE;
use firmware::frame::TEMPERATURE_TYPE;
use firmware::logstore::LogStore;
use firmware::logstore::BLOCK_SIZE;

fn reading(msg_type: u8, device_id: u64, value: u64, timestamp: u64) -> Frame {
    Frame { msg_type, timestamp, fields: vec![device_id, value] }
}

fn drain(store: &mut LogStore) -> Vec<Frame> {
    let mut out = Vec::new();
    loop {
        let before = store.pending_len();
        out.extend(store.read().expect("log decodes cleanly"));
        if store.pending_len() == 0 || store.pending_len() == before {
            break;
        }
    }
    out
}

#[test]
fn restart_returns_flushed_frames_exactly_once() {
    // One frame encodes to 26 bytes; 256 of them fill exactly 13 blocks, so
    // everything is flushed and survives the restart.
    let mut store = LogStore::open(Vec::new());
    for i in 0..256u64 {
        store.write(&reading(TEMPERATURE_TYPE, i % 5, i, 1000 + i));
    }
    let file = store.persisted().clone();
    assert_eq!(file.len(), 13 * BLOCK_SIZE);

    // Restart: a fresh instance over the same backing file.
    let mut store2 = LogStore::open(file);
    let frames = drain(&mut store2);
    assert_eq!(frames.len(), 256);
    for (i, f) in frames.iter().enumerate() {
        assert_eq!(f.fields, vec![i as u64 % 5, i as u64]);
        assert_eq!(f.timestamp, 1000 + i as u64);
    }
    // Drained exactly once: nothing left, and the file was compacted.
    assert_eq!(store2.pending_len(), 0);
    assert_eq!(store2.persisted().len(), 0);
    let again = store2.read().unwrap();
    assert!(again.is_empty());
}

#[test]
fn unflushed_tail_does_not_survive_restart() {
    // Three frames (78 bytes) stay below one block: nothing reaches the
    // medium, so a power loss loses them.
    let mut store = LogStore::open(Vec::new());
    for i in 0..3u64 {
        store.write(&reading(TEMPERATURE_TYPE, 0, i, i));
    }
    assert_eq!(store.persisted().len(), 0);
    assert_eq!(store.pending_len(), 3 * 26);
}

#[test]
fn read_returns_unflushed_frames_without_restart() {
    let mut store = LogStore::open(Vec::new());
    store.write(&reading(GAS_LEAKAGE_TYPE, 1, 11, 100));
    store.write(&reading(GAS_LEAKAGE_TYPE, 2, 22, 200));
    let frames = store.read().unwrap();
    assert_eq!(frames.len(), 2);
    assert_eq!(frames[0].fields, vec![1, 11]);
    assert_eq!(frames[1].fields, vec![2, 22]);
    assert_eq!(store.pending_len(), 0);
}

#[test]
fn compaction_never_replays_drained_frames() {
    let mut store = LogStore::open(Vec::new());
    // Fill two whole blocks plus a tail, drain everything.
    for i in 0..45u64 {
        store.write(&reading(TEMPERATURE_TYPE, 0, i, i));
    }
    let first = drain(&mut store);
    assert_eq!(first.len(), 45);
    assert_eq!(store.persisted().len(), 0);

    // A later write followed by a read yields only the new frame.
    store.write(&reading(TEMPERATURE_TYPE, 3, 999, 777));
    let second = drain(&mut store);
    assert_eq!(second.len(), 1);
    assert_eq!(second[0].fields, vec![3, 999]);
    assert_eq!(second[0].timestamp, 777);
}

#[test]
fn reading_an_empty_store_yields_nothing() {
    let mut store = LogStore::open(Vec::new());
    assert_eq!(store.read().unwrap().len(), 0);
    assert_eq!(store.pending_len(), 0);
}

#[test]
fn corrupted_file_reports_error_and_store_is_unchanged() {
    let mut store = LogStore::open(vec![255u8; BLOCK_SIZE]);
    assert!(store.read().is_err());
    // The instance is meant to be dropped by its owner; meanwhile nothing
    // was consumed and the error repeats.
    assert_eq!(store.pending_len(), BLOCK_SIZE);
    assert!(store.read().is_err());
}

#[test]
fn frame_straddling_a_block_boundary_is_not_lost() {
    // 26-byte frames against 512-byte blocks: frame 19 straddles the first
    // block boundary and must come back whole.
    let mut store = LogStore::open(Vec::new());
    for i in 0..20u64 {
        store.write(&reading(TEMPERATURE_TYPE, 0, i, i));
    }
    let frames = drain(&mut store);
    assert_eq!(frames.len(), 20);
    for (i, f) in frames.iter().enumerate() {
        assert_eq!(f.fields[1], i as u64);
    }
}
