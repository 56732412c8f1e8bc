use walcraft::lock::LockState;
use walcraft::pointer::{meta_file, segment_file, write_pointer};
use walcraft::reader::WalReader;
use walcraft::writer::WalWriter;
use walcraft::{Wal, WalError};

// The files of a ring, kept in memory: the pointer file and the segments.
struct Disk {
    meta: Vec<u8>,
    segments: Vec<Vec<u8>>,
}

fn start(capacity: usize) -> (Wal, WalWriter, Disk) {
    let wal = Wal::new("./tmp/", capacity).unwrap();
    let writer = WalWriter::new(&wal);
    let disk = Disk {
        meta: write_pointer(writer.pointer()),
        segments: vec![Vec::new(); 5],
    };
    (wal, writer, disk)
}

// One wake-up of the writer, with file operations that succeed.
fn cycle(wal: &mut Wal, writer: &mut WalWriter, disk: &mut Disk) {
    let chunks = writer.run(wal);
    if chunks.is_empty() {
        return;
    }
    let at = writer.pointer() as usize;
    for chunk in chunks {
        disk.segments[at - 1].extend(chunk);
    }
    if let Some(next) = writer.next_file() {
        disk.meta = write_pointer(next);
        disk.segments[next as usize - 1].clear();
        writer.rotate();
    }
    writer.finish(wal);
}

fn encode(id: u16) -> Option<Vec<u8>> {
    bincode::serialize(&id).ok()
}

fn read_all(wal: &mut Wal, writer: &WalWriter, disk: &Disk) -> Result<Vec<u16>, WalError> {
    wal.request_read();
    writer.finish(wal);
    assert!(wal.can_read());
    let pointer = WalReader::current_pointer(&disk.meta)?;
    let mut bytes = Vec::new();
    for i in WalReader::read_order(pointer) {
        if let Some(segment) = disk.segments.get(i as usize - 1) {
            bytes.extend_from_slice(segment);
        }
    }
    let reader = WalReader::new(wal.location().clone());
    let entries = reader.read(&bytes)?;
    let decoded: Vec<Option<u16>> = entries
        .iter()
        .map(|e| bincode::deserialize::<u16>(e.payload()).ok())
        .collect();
    Ok(wal.read(decoded))
}

#[test]
fn capacity_below_the_minimum_is_refused() {
    for capacity in [0, 1, 50, 99] {
        match Wal::new("./tmp/", capacity) {
            Err(WalError::Capacity(msg)) => assert_eq!(msg, "Capacity should be at least 100"),
            _ => panic!("capacity {} accepted", capacity),
        }
    }
}

#[test]
fn capacity_from_the_minimum_on_is_accepted() {
    for capacity in [100, 101, 500, 1_000_000, usize::MAX] {
        let wal = Wal::new("./tmp/", capacity).unwrap();
        assert_eq!(wal.capacity(), capacity);
        assert_eq!(wal.location(), "./tmp/");
        assert_eq!(wal.pending_len(), 0);
        assert!(!wal.can_read());
    }
}

#[test]
fn write_notifies_once_until_the_writer_drains() {
    let (mut wal, mut writer, mut disk) = start(1000);
    assert!(wal.write(encode(1)));
    assert!(!wal.write(encode(2)));
    assert!(!wal.batch_write(vec![encode(3), encode(4)]));
    assert_eq!(wal.pending_len(), 4);
    cycle(&mut wal, &mut writer, &mut disk);
    assert_eq!(wal.pending_len(), 0);
    assert!(wal.batch_write(vec![encode(5), encode(6), encode(7)]));
    assert!(!wal.write(encode(8)));
}

#[test]
fn a_record_that_failed_to_encode_is_dropped() {
    let (mut wal, _writer, _disk) = start(1000);
    assert!(!wal.write(None));
    assert_eq!(wal.pending_len(), 0);
    assert!(wal.write(encode(1)));
    assert!(!wal.write(None));
    assert_eq!(wal.pending_len(), 1);
}

#[test]
fn a_batch_keeps_what_encoded_and_drops_the_rest() {
    let (mut wal, mut writer, mut disk) = start(1000);
    assert!(!wal.batch_write(Vec::new()));
    assert!(!wal.batch_write(vec![None, None]));
    assert_eq!(wal.pending_len(), 0);
    assert!(wal.batch_write(vec![None, encode(1), None, encode(2), encode(3), None]));
    assert_eq!(wal.pending_len(), 3);
    cycle(&mut wal, &mut writer, &mut disk);
    assert_eq!(read_all(&mut wal, &writer, &disk).unwrap(), vec![1, 2, 3]);
}

#[test]
fn read_after_write() {
    let (mut wal, mut writer, mut disk) = start(1000);
    let dump = (1..=1234).map(encode).collect::<Vec<_>>();
    wal.batch_write(dump);
    cycle(&mut wal, &mut writer, &mut disk);
    let data = read_all(&mut wal, &writer, &disk);
    assert!(data.is_ok());
    let data = data.unwrap();
    assert_eq!(data.len(), 1000);
    assert_eq!(*data.last().unwrap(), 1234);
    assert_eq!(*data.first().unwrap(), 235);
}

#[test]
fn simple_write() {
    let (mut wal, mut writer, mut disk) = start(10_000);
    for i in 0..1000 {
        wal.write(encode(i));
        cycle(&mut wal, &mut writer, &mut disk);
    }
    assert_eq!(writer.pointer(), 1);
    assert!(disk.segments[0].len() > 5000);
    assert_eq!(disk.segments[0].len(), 6000);
}

#[test]
fn multiple_files() {
    let (mut wal, mut writer, mut disk) = start(100);
    let dump = (1..=30).map(encode).collect::<Vec<_>>();
    wal.batch_write(dump);
    cycle(&mut wal, &mut writer, &mut disk);
    let dump = (40..=45).map(encode).collect::<Vec<_>>();
    wal.batch_write(dump);
    cycle(&mut wal, &mut writer, &mut disk);
    assert!(disk.segments[0].len() > 10);
    assert!(disk.segments[1].len() > 10);
    assert_eq!(disk.segments[0].len(), 30 * 6);
    assert_eq!(disk.segments[1].len(), 6 * 6);
    assert_eq!(disk.meta, b"2");
}

#[test]
fn read_keeps_the_newest_records() {
    let mut wal = Wal::new("./tmp/", 100).unwrap();
    let decoded: Vec<Option<u32>> = (0..150).map(Some).collect();
    let data = wal.read(decoded);
    assert_eq!(data, (50..150).collect::<Vec<u32>>());
    let decoded: Vec<Option<u32>> = (0..100).map(Some).collect();
    assert_eq!(wal.read(decoded), (0..100).collect::<Vec<u32>>());
    assert_eq!(wal.read(Vec::<Option<u32>>::new()), Vec::<u32>::new());
}

#[test]
fn read_skips_what_did_not_decode() {
    let mut wal = Wal::new("./tmp/", 100).unwrap();
    let decoded = vec![Some("a"), None, Some("b"), None, None, Some("c")];
    assert_eq!(wal.read(decoded), vec!["a", "b", "c"]);
}

#[test]
fn read_pauses_the_writer_and_lets_it_go_again() {
    let (mut wal, mut writer, mut disk) = start(100);
    wal.write(encode(7));
    assert!(writer.ready(&wal));
    wal.request_read();
    assert!(!writer.ready(&wal));
    assert!(!wal.can_read());
    cycle(&mut wal, &mut writer, &mut disk);
    assert!(wal.can_read());
    assert_eq!(read_all(&mut wal, &writer, &disk).unwrap(), vec![7]);
    assert!(writer.ready(&wal));
    assert!(!wal.can_read());
}

#[test]
fn rotation_goes_round_the_ring_and_empties_what_it_reuses() {
    let (mut wal, mut writer, mut disk) = start(100);
    let mut id = 0u16;
    for round in 0..7 {
        assert_eq!(writer.pointer() as usize, round % 5 + 1);
        let batch: Vec<_> = (0..20)
            .map(|_| {
                id += 1;
                encode(id)
            })
            .collect();
        wal.batch_write(batch);
        cycle(&mut wal, &mut writer, &mut disk);
    }
    // seven shares were written: two segments were used twice
    assert_eq!(writer.pointer(), 3);
    assert_eq!(disk.meta, b"3");
    assert!(disk.segments[2].is_empty());
    let total: usize = disk.segments.iter().map(|s| s.len() / 6).sum();
    assert_eq!(total, 80);
    assert!(total <= 5 * writer.capacity_per_file());
    let data = read_all(&mut wal, &writer, &disk).unwrap();
    // newest segment first, as the reader visits them
    let mut expected: Vec<u16> = Vec::new();
    expected.extend(121..=140);
    expected.extend(101..=120);
    expected.extend(81..=100);
    expected.extend(61..=80);
    assert_eq!(data, expected);
}

#[test]
fn single_records_never_exceed_the_capacity_on_disk() {
    let (mut wal, mut writer, mut disk) = start(100);
    for id in 0..1000u16 {
        wal.write(encode(id));
        cycle(&mut wal, &mut writer, &mut disk);
        let total: usize = disk.segments.iter().map(|s| s.len() / 6).sum();
        assert!(total <= 100);
        assert!(writer.filled() < writer.capacity_per_file());
    }
}

#[test]
fn the_writer_starts_at_the_first_segment() {
    let (wal, writer, disk) = start(103);
    assert_eq!(writer.pointer(), 1);
    assert_eq!(writer.filled(), 0);
    assert_eq!(writer.capacity_per_file(), 20);
    assert_eq!(writer.next_file(), None);
    assert_eq!(disk.meta, b"1");
    assert_eq!(wal.capacity(), 103);
}

#[test]
fn a_wake_up_with_nothing_pending_does_nothing() {
    let (mut wal, mut writer, _disk) = start(100);
    assert!(writer.run(&mut wal).is_empty());
    assert_eq!(writer.filled(), 0);
    assert_eq!(writer.next_file(), None);
}

#[test]
fn the_writer_acknowledges_a_stop_at_the_end_of_a_cycle() {
    let (mut wal, writer, _disk) = start(100);
    writer.finish(&mut wal);
    assert!(writer.ready(&wal));
    wal.request_read();
    writer.finish(&mut wal);
    assert!(wal.can_read());
    let _ = LockState::Stopped;
}

#[test]
fn file_names() {
    assert_eq!(meta_file(), b"meta");
    assert_eq!(segment_file(1), b"wal_1");
    assert_eq!(segment_file(5), b"wal_5");
    assert_eq!(segment_file(10), b"wal_10");
    assert_eq!(segment_file(255), b"wal_255");
}

#[test]
fn pointer_text_is_plain_decimal() {
    for pointer in 0..=255u8 {
        let text = write_pointer(pointer);
        assert_eq!(text, pointer.to_string().into_bytes());
        assert_eq!(WalReader::current_pointer(&text).unwrap(), pointer);
    }
}
