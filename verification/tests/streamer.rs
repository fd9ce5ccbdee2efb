use utrace::streamer::proto::{Inst, Timestamp, UtMsg};
use utrace::streamer::Streamer;

fn with_symbol(symbol: Option<&str>) -> UtMsg {
    UtMsg {
        inst: Inst {
            binary: 0,
            mnemonic: String::new(),
            disasm: String::new(),
            pc: 0,
            symbol: symbol.map(|s| s.to_string()),
            offset: None,
            flags: 0,
        },
        timestamp: Timestamp { commit: 0 },
        reg: None,
    }
}

#[test]
fn frames_follow_their_length_prefix() {
    let mut s = Streamer::new(&[]);
    assert!(s.needs_input());
    s.feed(&[3, 10, 11, 12, 1, 20]);
    assert_eq!(s.next_frame(), Some(vec![10, 11, 12]));
    assert_eq!(s.next_frame(), Some(vec![20]));
    assert!(!s.is_end());
    assert_eq!(s.next_frame(), None);
    assert!(s.is_end());
    assert!(!s.needs_input());
    assert_eq!(s.next_frame(), None);
}

#[test]
fn multi_byte_length_prefix() {
    let mut s = Streamer::new(&[]);
    let mut bytes = vec![0x81, 0x01];
    bytes.extend((0..129u32).map(|i| i as u8));
    bytes.extend([0, 0]);
    s.feed(&bytes);
    let f = s.next_frame().unwrap();
    assert_eq!(f.len(), 129);
    assert_eq!(f[128], 128);
    // A zero-length frame.
    assert_eq!(s.next_frame(), Some(vec![]));
}

#[test]
fn overrunning_frame_is_refused() {
    let mut s = Streamer::new(&[]);
    s.feed(&[5, 1, 2]);
    assert!(!s.frame_fits());
    assert_eq!(s.checked_next_frame(), None);
    s.feed(&[3, 4, 5]);
    assert!(s.frame_fits());
    assert_eq!(s.checked_next_frame(), Some(Some(vec![1, 2, 3, 4, 5])));
    assert_eq!(s.checked_next_frame(), Some(None));
}

#[test]
fn bad_prefix_gives_an_empty_frame() {
    // Eleven continuation bytes do not decode: the frame size is then zero.
    let mut s = Streamer::new(&[]);
    s.feed(&[0x80; 12]);
    assert_eq!(s.next_frame(), Some(vec![]));
}

#[test]
fn decode_failure_ends_the_stream() {
    let mut s = Streamer::new(&[]);
    s.feed(&[1, 2, 3]);
    s.decode_failed();
    assert!(s.is_end());
    assert_eq!(s.next_frame(), None);
}

#[test]
fn needs_input_below_256_bytes() {
    let mut s = Streamer::new(&[]);
    s.feed(&[0u8; 255]);
    assert!(s.needs_input());
    s.feed(&[0u8; 1]);
    assert!(!s.needs_input());
}

#[test]
fn symbols_of_interest() {
    let all = Streamer::new(&[]);
    assert!(all.is_of_interest(&with_symbol(None)));
    assert!(all.is_of_interest(&with_symbol(Some("main"))));
    let some = Streamer::new(&["spmv", "main"]);
    assert!(some.is_of_interest(&with_symbol(Some("main"))));
    assert!(!some.is_of_interest(&with_symbol(Some("other"))));
    assert!(!some.is_of_interest(&with_symbol(None)));
    let empty_name = Streamer::new(&[""]);
    assert!(empty_name.is_of_interest(&with_symbol(None)));
}

#[test]
fn decoded_frame_is_taken_after_its_prefix() {
    let mut s = Streamer::new(&[]);
    s.feed(&[0x83, 0x00, 1, 2, 3, 4]);
    assert_eq!(s.take_decoded_frame(Some(3), 2), vec![1, 2, 3]);
    assert_eq!(s.take_decoded_frame(None, 0), Vec::<u8>::new());
    assert_eq!(s.take_decoded_frame(Some(1), 0), vec![4]);
    assert_eq!(s.next_frame(), None);
    assert!(s.is_end());
}

#[test]
fn short_unfinished_prefix_is_consumed() {
    // Two continuation bytes and nothing after: the decoder reads them both.
    let mut s = Streamer::new(&[]);
    s.feed(&[0x80, 0x80]);
    assert!(s.frame_fits());
    assert_eq!(s.next_frame(), Some(vec![]));
    assert_eq!(s.next_frame(), None);
    assert!(s.is_end());
}

#[test]
fn overlong_prefix_is_left_in_place() {
    // Twelve continuation bytes: the decoder leaves them, so the next take sees them again.
    let mut s = Streamer::new(&[]);
    s.feed(&[0x80; 12]);
    assert_eq!(s.next_frame(), Some(vec![]));
    assert_eq!(s.next_frame(), Some(vec![]));
    assert!(!s.is_end());
}

#[test]
fn whole_first_frame_is_taken_from_a_partial_read() {
    // The first frame and part of the second have been read.
    let mut s = Streamer::new(&[]);
    s.feed(&[2, 7, 8, 3, 9]);
    assert!(s.frame_fits());
    assert_eq!(s.next_frame(), Some(vec![7, 8]));
    // The rest of the second frame arrives.
    s.feed(&[10, 11]);
    assert_eq!(s.next_frame(), Some(vec![9, 10, 11]));
    assert_eq!(s.next_frame(), None);
    assert!(s.is_end());
}
