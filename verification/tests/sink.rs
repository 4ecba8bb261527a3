use lz4rip::sink::{Sink, SliceSink};

#[test]
fn sink_test_sink_slice() {
    let mut data = vec![0; 5];
    let sink = SliceSink::new(&mut data, 1);
    assert_eq!(sink.pos(), 1);
    assert_eq!(sink.capacity(), 5);
}

#[test]
fn test_sink_slice() {
    let mut data = vec![0; 5];
    let sink = SliceSink::new(&mut data, 1);
    assert_eq!(sink.pos(), 1);
    assert_eq!(sink.capacity(), 5);
}

#[test]
fn sink_push_and_extend() {
    let mut data = vec![0u8; 8];
    let mut sink = SliceSink::new(&mut data, 1);
    sink.push(7);
    sink.extend_from_slice(&[1, 2, 3]);
    assert_eq!(sink.pos(), 5);
    drop(sink);
    assert_eq!(data, vec![0, 7, 1, 2, 3, 0, 0, 0]);
}

#[test]
fn sink_extend_wild_advances_by_copy_len() {
    let mut data = vec![0u8; 6];
    let mut sink = SliceSink::new(&mut data, 0);
    sink.extend_from_slice_wild(&[9, 8, 7, 6], 2);
    assert_eq!(sink.pos(), 2);
    drop(sink);
    // The whole slice is written; only the position stops early.
    assert_eq!(data, vec![9, 8, 7, 6, 0, 0]);
}

#[test]
fn sink_extend_from_within_overlapping_repeats_pattern() {
    let mut data = vec![0u8; 8];
    data[0] = b'a';
    data[1] = b'b';
    let mut sink = SliceSink::new(&mut data, 2);
    sink.extend_from_within_overlapping(0, 5);
    assert_eq!(sink.pos(), 7);
    drop(sink);
    assert_eq!(&data[..7], b"abababa");
}
