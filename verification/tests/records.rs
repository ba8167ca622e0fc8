use botao::text::{DataRecord, DataRecordReader, DataRecordReaderBuilder, MemorySource, ReaderError};

fn reader_over(data: &str) -> DataRecordReader<MemorySource> {
    DataRecordReader::new(MemorySource::new(data.as_bytes().to_vec()))
}

fn fields(items: &[&str]) -> DataRecord {
    DataRecord::Fields(items.iter().map(|s| s.to_string()).collect())
}

#[test]
fn test_lone_delimiter_is_one_empty_field() {
    let mut rdr = reader_over(",\n");
    assert_eq!(rdr.next_record().unwrap(), fields(&[""]));
}

#[test]
fn test_whitespace_line_is_blank() {
    let mut rdr = reader_over(" \t  \n1, 2\n");
    assert_eq!(rdr.next_record().unwrap(), DataRecord::Blank);
    assert_eq!(rdr.next_record().unwrap(), fields(&["1", "2"]));
}

#[test]
fn test_comment_keeps_raw_text() {
    let mut rdr = reader_over("# heading, with, commas\n10, 20\n");
    assert_eq!(
        rdr.next_record().unwrap(),
        DataRecord::Comment("# heading, with, commas\n".to_string())
    );
    assert_eq!(rdr.next_record().unwrap(), fields(&["10", "20"]));
}

#[test]
fn test_peek_idempotent() {
    let mut rdr = reader_over("1, 2\n3, 4\n");
    let first = format!("{:?}", rdr.peek_record().unwrap());
    let second = format!("{:?}", rdr.peek_record().unwrap());
    assert_eq!(first, second);
    // The peeked record was read once, so the source advanced only
    // one record for both peeks.
    assert_eq!(rdr.next_record().unwrap(), fields(&["1", "2"]));
    assert_eq!(rdr.next_record().unwrap(), fields(&["3", "4"]));
    assert_eq!(rdr.next_record().unwrap(), DataRecord::EOF);
}

#[test]
fn test_eof_is_idempotent() {
    let mut rdr = reader_over("");
    assert_eq!(rdr.next_record().unwrap(), DataRecord::EOF);
    assert_eq!(rdr.next_record().unwrap(), DataRecord::EOF);
}

#[test]
fn test_last_line_without_newline() {
    let mut rdr = reader_over("7, 8");
    assert_eq!(rdr.next_record().unwrap(), fields(&["7", "8"]));
    assert_eq!(rdr.next_record().unwrap(), DataRecord::EOF);
}

#[test]
fn test_invalid_utf8_is_decode_error() {
    let mut rdr = DataRecordReader::new(MemorySource::new(vec![0xff, 0xfe, b'\n', b'5', b'\n']));
    assert_eq!(rdr.next_record().unwrap_err(), ReaderError::FromUTF8);
    // The bad line is gone; the next call reads the following line.
    assert_eq!(rdr.next_record().unwrap(), fields(&["5"]));
}

#[test]
fn test_set_field_delimiter() {
    let mut rdr = reader_over("1;2\n");
    assert_eq!(*rdr.field_delimiter(), b',');
    rdr.set_field_delimiter(b';');
    assert_eq!(*rdr.field_delimiter(), b';');
    assert_eq!(rdr.next_record().unwrap(), fields(&["1", "2"]));
}

#[test]
fn test_builder_delimiters() {
    let data = MemorySource::new("1; 2\n3 ;4\n".as_bytes().to_vec());
    let mut rdr = DataRecordReaderBuilder::new()
        .record_delimiter(b'\n')
        .field_delimiter(b';')
        .build(data);
    assert_eq!(rdr.next_record().unwrap(), fields(&["1", "2"]));
    assert_eq!(rdr.next_record().unwrap(), fields(&["3", "4"]));
    assert_eq!(rdr.next_record().unwrap(), DataRecord::EOF);
}

#[test]
fn test_custom_record_delimiter_keeps_raw_byte() {
    // A record delimiter that is not whitespace stays in the last
    // field's text, since only whitespace is trimmed.
    let data = MemorySource::new("1;2|3;4|".as_bytes().to_vec());
    let mut rdr = DataRecordReaderBuilder::new()
        .record_delimiter(b'|')
        .field_delimiter(b';')
        .build(data);
    assert_eq!(rdr.next_record().unwrap(), fields(&["1", "2|"]));
    assert_eq!(rdr.next_record().unwrap(), fields(&["3", "4|"]));
    assert_eq!(rdr.next_record().unwrap(), DataRecord::EOF);
}
