use datakit::packet_split::PacketSplitter;

#[test]
fn a_whole_packet_in_one_piece() {
    let mut splitter = PacketSplitter::new();
    assert!(splitter.accepts(b"5|hello"));
    assert_eq!(splitter.receive(b"5|hello"), Some(b"hello".to_vec()));
    assert_eq!(splitter.receive(b"11|hello world"), Some(b"hello world".to_vec()));
}

#[test]
fn a_packet_in_pieces() {
    let mut splitter = PacketSplitter::new();
    assert_eq!(splitter.receive(b"11|hel"), None);
    assert_eq!(splitter.receive(b"lo wo"), None);
    assert_eq!(splitter.receive(b"rld"), Some(b"hello world".to_vec()));
}

#[test]
fn one_packet_per_piece_received() {
    let mut splitter = PacketSplitter::new();
    assert_eq!(splitter.receive(b"2|ab3|cde"), Some(b"ab".to_vec()));
    assert_eq!(splitter.receive(b""), Some(b"cde".to_vec()));
    assert_eq!(splitter.receive(b""), Some(Vec::new()));
}

#[test]
fn an_empty_packet() {
    let mut splitter = PacketSplitter::new();
    assert_eq!(splitter.receive(b"0|"), Some(Vec::new()));
    assert_eq!(splitter.receive(b"|"), Some(Vec::new()));
}

#[test]
fn a_length_cut_in_two_is_taken_as_read() {
    let mut splitter = PacketSplitter::new();
    assert_eq!(splitter.receive(b"1"), None);
    assert_eq!(splitter.receive(b"1|hello world"), Some(b"1".to_vec()));
}

#[test]
fn what_can_be_taken_in() {
    let splitter = PacketSplitter::new();
    assert!(splitter.accepts(b""));
    assert!(splitter.accepts(b"12"));
    assert!(splitter.accepts(b"a|"));
    assert!(!splitter.accepts(b" |"));
    assert!(!splitter.accepts(b"1/2|"));
    assert!(!splitter.accepts(b"99999999999999999999999999|"));
    assert!(splitter.accepts(b"3|9999999999999999999999999 "));

    let mut waiting = PacketSplitter::new();
    assert_eq!(waiting.receive(b"4|ab"), None);
    assert!(waiting.accepts(b" |"));
    assert_eq!(waiting.receive(b" |"), Some(b"ab |".to_vec()));
}

#[test]
fn bytes_above_the_digits_count_as_digits() {
    let mut splitter = PacketSplitter::new();
    // ':' is the byte after '9' and counts as 10.
    assert_eq!(splitter.receive(b":|0123456789"), Some(b"0123456789".to_vec()));
}
