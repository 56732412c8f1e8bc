use walcraft::buffer::Buffer;
use walcraft::entry::LogEntry;

fn entry(byte: u8) -> LogEntry {
    LogEntry::from_vec(vec![byte])
}

fn bytes_of(entries: &[LogEntry]) -> Vec<u8> {
    entries.iter().map(|e| e.payload()[0]).collect()
}

#[test]
fn new_buffer_is_empty() {
    let mut buffer = Buffer::new();
    assert_eq!(buffer.len(), 0);
    assert!(buffer.drain().is_empty());
}

#[test]
fn add_reports_whether_the_buffer_was_empty() {
    let mut buffer = Buffer::new();
    assert!(buffer.add(entry(1)));
    assert!(!buffer.add(entry(2)));
    assert!(!buffer.add(entry(3)));
    assert_eq!(buffer.len(), 3);
}

#[test]
fn bulk_add_reports_whether_the_buffer_was_empty() {
    let mut buffer = Buffer::new();
    assert!(buffer.bulk_add(vec![entry(1), entry(2)]));
    assert!(!buffer.bulk_add(vec![entry(3)]));
    assert_eq!(buffer.len(), 3);
}

#[test]
fn drain_hands_out_everything_in_order() {
    let mut buffer = Buffer::new();
    buffer.add(entry(1));
    buffer.bulk_add(vec![entry(2), entry(3)]);
    buffer.add(entry(4));
    let data = buffer.drain();
    assert_eq!(bytes_of(&data), vec![1, 2, 3, 4]);
    assert_eq!(buffer.len(), 0);
    assert!(buffer.drain().is_empty());
}

#[test]
fn one_signal_for_any_number_of_insertions() {
    for k in 1..20u8 {
        let mut buffer = Buffer::new();
        let mut signals = 0;
        for i in 0..k {
            let notify = if i % 2 == 0 {
                buffer.add(entry(i))
            } else {
                buffer.bulk_add(vec![entry(i), entry(i)])
            };
            if notify {
                signals += 1;
            }
        }
        assert_eq!(signals, 1);
    }
}

#[test]
fn a_drain_lets_the_next_insertion_signal_again() {
    let mut buffer = Buffer::new();
    assert!(buffer.add(entry(1)));
    assert!(!buffer.add(entry(2)));
    buffer.drain();
    assert!(buffer.bulk_add(vec![entry(3)]));
    assert!(!buffer.add(entry(4)));
}

#[test]
fn an_empty_bulk_add_leaves_the_buffer_empty() {
    let mut buffer = Buffer::new();
    assert!(buffer.bulk_add(Vec::new()));
    assert_eq!(buffer.len(), 0);
    assert!(buffer.add(entry(1)));
}
