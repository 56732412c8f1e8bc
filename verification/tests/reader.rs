use walcraft::entry::LogEntry;
use walcraft::reader::WalReader;
use walcraft::WalError;

fn reader() -> WalReader {
    WalReader::new(String::from("./tmp/"))
}

fn frame_of(payload: &[u8]) -> Vec<u8> {
    LogEntry::from_vec(payload.to_vec()).to_vec()
}

#[test]
fn it_works() {
    let location = String::from("./tmp/");
    let reader = WalReader::new(location);
    let d = reader.read(&[]);
    println!("d is {:?}", d);
}

#[test]
fn order() {
    assert_eq!(WalReader::read_order(5), Vec::from([5, 4, 3, 2, 1]));
    assert_eq!(WalReader::read_order(4), Vec::from([4, 3, 2, 1, 5]));
    assert_eq!(WalReader::read_order(3), Vec::from([3, 2, 1, 5, 4]));
    assert_eq!(WalReader::read_order(2), Vec::from([2, 1, 5, 4, 3]));
    assert_eq!(WalReader::read_order(1), Vec::from([1, 5, 4, 3, 2]));
}

#[test]
fn order_visits_each_segment_once() {
    for pointer in 1..=5u8 {
        let mut order = WalReader::read_order(pointer);
        assert_eq!(order[0], pointer);
        order.sort();
        assert_eq!(order, vec![1, 2, 3, 4, 5]);
    }
}

#[test]
fn order_beyond_the_ring_counts_down() {
    assert_eq!(WalReader::read_order(7), vec![7, 6, 5, 4, 3]);
    assert_eq!(WalReader::read_order(255), vec![255, 254, 253, 252, 251]);
}

#[test]
fn reader_keeps_its_location() {
    assert_eq!(reader().location(), "./tmp/");
}

#[test]
fn read_of_nothing_is_empty() {
    let entries = reader().read(&[]).unwrap();
    assert!(entries.is_empty());
}

#[test]
fn read_splits_frames_in_order() {
    let mut bytes = Vec::new();
    bytes.extend(frame_of(&[1, 2, 3]));
    bytes.extend(frame_of(&[]));
    bytes.extend(frame_of(&[9; 300]));
    let entries = reader().read(&bytes).unwrap();
    assert_eq!(entries.len(), 3);
    assert_eq!(entries[0].payload(), &vec![1, 2, 3]);
    assert_eq!(entries[1].payload(), &Vec::<u8>::new());
    assert_eq!(entries[2].payload(), &vec![9u8; 300]);
}

#[test]
fn read_takes_the_length_from_the_header() {
    let mut bytes = 2u32.to_ne_bytes().to_vec();
    bytes.extend([7, 8]);
    bytes.extend(1u32.to_ne_bytes());
    bytes.push(9);
    let entries = reader().read(&bytes).unwrap();
    assert_eq!(entries.len(), 2);
    assert_eq!(entries[0].payload(), &vec![7, 8]);
    assert_eq!(entries[1].payload(), &vec![9]);
}

#[test]
fn read_fails_on_a_header_cut_short() {
    let mut bytes = frame_of(&[1, 2, 3]);
    bytes.extend([1, 0, 0]);
    match reader().read(&bytes) {
        Err(WalError::Serialization(msg)) => {
            assert_eq!(msg, "Failed to split log file into entries")
        }
        other => panic!("unexpected {:?}", other),
    }
}

#[test]
fn read_fails_on_a_length_past_the_end() {
    let mut bytes = frame_of(&[1, 2, 3]);
    bytes.extend(5u32.to_ne_bytes());
    bytes.extend([1, 2, 3, 4]);
    assert!(matches!(
        reader().read(&bytes),
        Err(WalError::Serialization(_))
    ));
    let huge = u32::MAX.to_ne_bytes().to_vec();
    assert!(matches!(
        reader().read(&huge),
        Err(WalError::Serialization(_))
    ));
}

#[test]
fn current_pointer_reads_decimal_text() {
    assert_eq!(WalReader::current_pointer(b"1").unwrap(), 1);
    assert_eq!(WalReader::current_pointer(b"5").unwrap(), 5);
    assert_eq!(WalReader::current_pointer(b"42").unwrap(), 42);
    assert_eq!(WalReader::current_pointer(b"255").unwrap(), 255);
    assert_eq!(WalReader::current_pointer(b"0").unwrap(), 0);
}

#[test]
fn current_pointer_takes_a_plus_sign_and_leading_zeros() {
    assert_eq!(WalReader::current_pointer(b"+3").unwrap(), 3);
    assert_eq!(WalReader::current_pointer(b"007").unwrap(), 7);
    assert_eq!(
        WalReader::current_pointer(b"000000000000000000000255").unwrap(),
        255
    );
}

#[test]
fn current_pointer_agrees_with_the_standard_parser() {
    let texts: [&str; 14] = [
        "", "+", "-", "-1", "1", "+1", "++1", "12", "256", "999", "1a", " 1", "1\n", "0255",
    ];
    for text in texts {
        let expected = text.parse::<u8>().ok();
        let got = WalReader::current_pointer(text.as_bytes()).ok();
        assert_eq!(got, expected, "text {:?}", text);
    }
}

#[test]
fn current_pointer_fails_on_other_text() {
    let texts: [&[u8]; 8] = [b"", b"+", b"-1", b"256", b"1000", b"1 ", b"x", b"\xff"];
    for text in texts {
        match WalReader::current_pointer(text) {
            Err(WalError::File(msg)) => assert_eq!(msg, "Failed to read pointer file"),
            other => panic!("unexpected {:?}", other),
        }
    }
}
