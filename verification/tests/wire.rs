use pog_bilder::wire::{frame_delimited, FramePhase, ReaderBuffer};

fn read_all(reader: &mut ReaderBuffer, bytes: &[u8]) -> Vec<Vec<u8>> {
    let mut frames = Vec::new();
    for &b in bytes {
        if let Some(f) = reader.read_delimited(b) {
            frames.push(f);
        }
    }
    frames
}

#[test]
fn frame_short_body() {
    assert_eq!(frame_delimited(&[1, 2, 3]), vec![3, 1, 2, 3]);
}

#[test]
fn frame_empty_body() {
    assert_eq!(frame_delimited(&[]), vec![0]);
}

#[test]
fn frame_two_byte_delimiter() {
    let body = vec![7u8; 300];
    let out = frame_delimited(&body);
    assert_eq!(&out[..2], &[0xAC, 0x02]);
    assert_eq!(&out[2..], &body[..]);
}

#[test]
fn roundtrip_single_frame() {
    let mut reader = ReaderBuffer::with_capacity(128);
    let body: Vec<u8> = (0..200u8).collect();
    let frames = read_all(&mut reader, &frame_delimited(&body));
    assert_eq!(frames, vec![body]);
    assert_eq!(reader.frame_phase(), FramePhase::Length { value: 0, count: 0 });
    assert!(reader.read_buffer().is_empty());
}

#[test]
fn roundtrip_several_frames() {
    let bodies: Vec<Vec<u8>> = vec![vec![1, 2], vec![], vec![9; 130], b"hello".to_vec()];
    let mut wire = Vec::new();
    for b in &bodies {
        wire.extend(frame_delimited(b));
    }
    let mut reader = ReaderBuffer::with_capacity(16);
    assert_eq!(read_all(&mut reader, &wire), bodies);
}

#[test]
fn zero_delimiter_gives_empty_frame_at_once() {
    let mut reader = ReaderBuffer::with_capacity(4);
    assert_eq!(reader.read_delimited(0), Some(vec![]));
    assert_eq!(reader.frame_phase(), FramePhase::Length { value: 0, count: 0 });
}

#[test]
fn body_phase_counts_down() {
    let mut reader = ReaderBuffer::with_capacity(4);
    assert_eq!(reader.read_delimited(2), None);
    assert_eq!(reader.frame_phase(), FramePhase::Body { length: 2, remaining: 2 });
    assert_eq!(reader.read_delimited(5), None);
    assert_eq!(reader.frame_phase(), FramePhase::Body { length: 2, remaining: 1 });
    assert_eq!(reader.read_delimited(6), Some(vec![5, 6]));
}

#[test]
fn delimiter_stops_after_eight_bytes() {
    let mut reader = ReaderBuffer::with_capacity(4);
    // seven bytes with the continuation bit, then an eighth that also has it
    for _ in 0..7 {
        assert_eq!(reader.read_delimited(0x80), None);
    }
    assert_eq!(reader.read_delimited(0x81), None);
    // the eighth byte ends the delimiter anyway: 1 * 128^7
    assert_eq!(
        reader.frame_phase(),
        FramePhase::Body { length: 1usize << 49, remaining: 1usize << 49 }
    );
}

#[test]
fn delimiter_of_all_zero_groups_is_zero() {
    let mut reader = ReaderBuffer::with_capacity(4);
    assert_eq!(reader.read_delimited(0x80), None);
    assert_eq!(reader.read_delimited(0x00), Some(vec![]));
}

#[test]
fn leftover_bytes_come_first() {
    let mut reader = ReaderBuffer::with_capacity(4);
    assert!(!reader.fill_buffer(&[42, 43]));
    assert_eq!(read_all(&mut reader, &[2, 1, 2]), vec![vec![42, 43]]);
    assert_eq!(reader.read_buffer(), &[1, 2]);
}

#[test]
fn fill_buffer_and_confirm_read() {
    let mut reader = ReaderBuffer::with_capacity(8);
    assert!(!reader.fill_buffer(&[1, 2, 3, 4, 5]));
    assert!(reader.fill_buffer(&[]));
    assert_eq!(reader.read_buffer(), &[1, 2, 3, 4, 5]);
    reader.confirm_read(3);
    assert_eq!(reader.read_buffer(), &[4, 5]);
    reader.confirm_read(2);
    assert!(reader.read_buffer().is_empty());
}

#[test]
fn varint_delimiter_then_rest() {
    // 300 is [0xAC, 0x02]; the reader then waits for 300 body bytes
    let mut reader = ReaderBuffer::with_capacity(4);
    assert_eq!(reader.read_delimited(0xAC), None);
    assert_eq!(reader.read_delimited(0x02), None);
    assert_eq!(reader.frame_phase(), FramePhase::Body { length: 300, remaining: 300 });
    assert!(reader.read_buffer().is_empty());
    assert_eq!(reader.read_delimited(9), None);
    assert_eq!(reader.frame_phase(), FramePhase::Body { length: 300, remaining: 299 });
}

#[test]
fn confirm_read_mid_frame_and_clear() {
    let mut reader = ReaderBuffer::with_capacity(4);
    assert_eq!(reader.read_delimited(3), None);
    assert_eq!(reader.read_delimited(1), None);
    assert!(!reader.fill_buffer(&[7, 8]));
    reader.confirm_read(2);
    assert_eq!(reader.read_buffer(), &[8]);
    assert_eq!(reader.frame_phase(), FramePhase::Body { length: 3, remaining: 2 });
    reader.clear();
    assert!(reader.read_buffer().is_empty());
    assert_eq!(reader.frame_phase(), FramePhase::Body { length: 3, remaining: 2 });
    assert_eq!(reader.read_delimited(2), None);
    assert!(!reader.fill_buffer(&[5]));
    assert_eq!(reader.read_delimited(3), Some(vec![2, 5, 3]));
}
