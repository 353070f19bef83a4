use pog_bilder::big_file::{BigFileWriter, FileReader, WriteError};
use pog_bilder::messages::Timestamp;

#[test]
fn writer_counts_down_to_done() {
    let ts = Timestamp { seconds: 10, nanos: 1 };
    let mut w = BigFileWriter::new("f".to_string(), ts, 5);
    assert!(!w.is_done());
    assert_eq!(w.write_bytes(&[1, 2]), Ok(false));
    assert_eq!(w.bytes_remaining(), 3);
    assert_eq!(w.bytes_remaining, 3);
    assert_eq!(w.write_bytes(&[3, 4, 5]), Ok(true));
    assert!(w.is_done());
    assert_eq!(w.id(), ts);
    assert_eq!(w.file_path(), "f");
}

#[test]
fn writer_of_nothing_is_done() {
    let w = BigFileWriter::new("f".to_string(), Timestamp { seconds: 0, nanos: 0 }, 0);
    assert!(w.is_done());
}

#[test]
fn writers_equal_by_id() {
    let a = BigFileWriter::new("a".to_string(), Timestamp { seconds: 1, nanos: 2 }, 5);
    let b = BigFileWriter::new("b".to_string(), Timestamp { seconds: 1, nanos: 2 }, 9);
    let c = BigFileWriter::new("a".to_string(), Timestamp { seconds: 1, nanos: 3 }, 5);
    assert!(a == b);
    assert!(a != c);
}

#[test]
fn reader_hands_out_sections_until_empty() {
    let mut r = FileReader::<4>::open();
    assert_eq!(r.read_section(&[1, 2, 3, 4]), Some(vec![1, 2, 3, 4]));
    assert_eq!(r.read_section(&[5]), Some(vec![5]));
    assert_eq!(r.read_section(&[]), None);
}

#[test]
fn a_short_section_finishes_the_file() {
    let mut r = FileReader::<4>::open();
    assert_eq!(r.read_section(&[1, 2]), Some(vec![1, 2]));
    // the file ended inside the last section: nothing more is handed out
    assert_eq!(r.read_section(&[3, 4, 5, 6]), None);
    assert_eq!(r.read_section(&[]), None);
}

#[test]
fn a_file_of_whole_sections_ends_with_an_empty_fill() {
    let file: Vec<u8> = (0..8).collect();
    let mut r = FileReader::<4>::open();
    let mut sections = Vec::new();
    let mut pos = 0;
    loop {
        let end = (pos + 4).min(file.len());
        match r.read_section(&file[pos..end]) {
            Some(s) => sections.push(s),
            None => break,
        }
        pos = end;
    }
    assert_eq!(sections, vec![vec![0, 1, 2, 3], vec![4, 5, 6, 7]]);
    assert_eq!(r.read_section(&[9]), None);
}

#[test]
fn an_empty_file_gives_nothing_at_once() {
    let mut r = FileReader::<4>::open();
    assert_eq!(r.read_section(&[]), None);
    assert_eq!(r.read_section(&[1]), None);
}

#[test]
fn write_refuses_too_many_bytes() {
    let mut w = BigFileWriter::new("f".to_string(), Timestamp { seconds: 0, nanos: 0 }, 3);
    assert_eq!(w.write_bytes(&[1, 2, 3, 4]), Err(WriteError::PastPromisedSize));
    assert_eq!(w.bytes_remaining(), 3);
    assert_eq!(w.write_bytes(&[1]), Ok(false));
    assert_eq!(w.write_bytes(&[2, 3]), Ok(true));
    assert!(w.is_done());
    assert_eq!(w.write_bytes(&[4]), Err(WriteError::PastPromisedSize));
    assert_eq!(w.write_bytes(&[]), Ok(true));
    assert_eq!(w.bytes_remaining(), 0);
}

#[test]
fn successive_writes_complete_at_the_promised_size() {
    let chunks: Vec<Vec<u8>> = vec![vec![1, 2], vec![], vec![3, 4, 5], vec![6]];
    let mut w = BigFileWriter::new("f".to_string(), Timestamp { seconds: 0, nanos: 0 }, 6);
    let mut written = 0;
    for c in &chunks {
        let done = w.write_bytes(c).unwrap();
        written += c.len();
        assert_eq!(done, written == 6);
        assert_eq!(w.bytes_remaining(), 6 - written);
    }
    assert!(w.is_done());
}
