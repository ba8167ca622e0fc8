use botao::blocks::{drain_with_size_check, BlockError, TableError};
use botao::text::{DataBlockReader, DataRecordReader, MemorySource};

fn block_reader(data: &str) -> DataBlockReader<i64, MemorySource> {
    let src = MemorySource::new(data.as_bytes().to_vec());
    DataBlockReader::new(DataRecordReader::new(src))
}

#[test]
fn test_block_stops_at_blank() {
    let mut rdr = block_reader("0, 0, 0\n1, 1, 1\n2, 2, 2\n\n3, 3, 3\n");
    let block = rdr.next_block().unwrap().unwrap();
    assert_eq!(block, vec![vec![0, 0, 0], vec![1, 1, 1], vec![2, 2, 2]]);
    // The terminating blank was not consumed; one call skips it.
    let count = rdr.consume_blanks().unwrap();
    assert_eq!(count, 1);
    let block = rdr.next_block().unwrap().unwrap();
    assert_eq!(block, vec![vec![3, 3, 3]]);
}

#[test]
fn test_consume_blanks_counts_all() {
    let mut rdr = block_reader("1, 1\n\n\n2, 2\n");
    assert_eq!(rdr.next_block().unwrap().unwrap(), vec![vec![1, 1]]);
    assert_eq!(rdr.consume_blanks().unwrap(), 2);
    assert_eq!(rdr.next_block().unwrap().unwrap(), vec![vec![2, 2]]);
}

#[test]
fn test_no_block_after_end_is_idempotent() {
    let mut rdr = block_reader("4, 5\n");
    assert_eq!(rdr.next_block().unwrap().unwrap(), vec![vec![4, 5]]);
    assert_eq!(rdr.next_block().unwrap(), None);
    assert_eq!(rdr.next_block().unwrap(), None);
}

#[test]
fn test_comments_are_skipped_inside_block() {
    let mut rdr = block_reader("# head\n1, 2\n# middle\n3, 4\n");
    let block = rdr.next_block().unwrap().unwrap();
    assert_eq!(block, vec![vec![1, 2], vec![3, 4]]);
}

#[test]
fn test_consume_blanks_counts_comments() {
    let mut rdr = block_reader("1, 2\n\n# note\n\n3, 4\n");
    assert_eq!(rdr.next_block().unwrap().unwrap(), vec![vec![1, 2]]);
    assert_eq!(rdr.consume_blanks().unwrap(), 3);
    assert_eq!(rdr.next_block().unwrap().unwrap(), vec![vec![3, 4]]);
}

#[test]
fn test_parse_failure_aborts_block() {
    let mut rdr = block_reader("1, 2\n3, x, 5\n");
    let err = rdr.next_block().unwrap_err();
    assert_eq!(err, BlockError::Parse("x".to_string()));
}

#[test]
fn test_decode_failure_aborts_block() {
    let mut data = b"1, 2\n".to_vec();
    data.extend_from_slice(&[0xff, 0xfe, b'\n']);
    let src = MemorySource::new(data);
    let mut rdr = DataBlockReader::<i64, _>::new(DataRecordReader::new(src));
    let err = rdr.next_block().unwrap_err();
    assert_eq!(err, BlockError::Reader(botao::text::ReaderError::FromUTF8));
}

#[test]
fn test_parse_signed_and_extremes() {
    let mut rdr = block_reader("+5, -7\n9223372036854775807, -9223372036854775808\n007, 0\n");
    let block = rdr.next_block().unwrap().unwrap();
    assert_eq!(
        block,
        vec![
            vec![5, -7],
            vec![i64::MAX, i64::MIN],
            vec![7, 0],
        ]
    );
}

#[test]
fn test_parse_overflow_fails() {
    let mut rdr = block_reader("9223372036854775808\n");
    let err = rdr.next_block().unwrap_err();
    assert_eq!(err, BlockError::Parse("9223372036854775808".to_string()));
}

#[test]
fn test_into_inner_returns_reader() {
    let rdr = block_reader("1, 2\n");
    let mut inner = rdr.into_inner();
    let record = inner.next_record().unwrap();
    assert_eq!(format!("{:?}", record), "Fields([\"1\", \"2\"])");
}

#[test]
fn test_table_size_mismatch() {
    let mut rdr = block_reader("0, 0, 0\n1, 1, 1\n2, 2, 2\n\n9, 9\n");
    let err = drain_with_size_check(&mut rdr).unwrap_err();
    assert_eq!(err, TableError::SizeMismatch);
}

#[test]
fn test_table_of_zero_rows() {
    let mut rdr = block_reader("");
    let table = drain_with_size_check(&mut rdr).unwrap();
    assert_eq!(table, Vec::<Vec<i64>>::new());
    let mut rdr = block_reader("\n\n# only comments and blanks\n\n");
    let table = drain_with_size_check(&mut rdr).unwrap();
    assert_eq!(table, Vec::<Vec<i64>>::new());
}

#[test]
fn test_table_collects_all_blocks() {
    let mut rdr = block_reader("0, 1\n2, 3\n\n\n4, 5\n# tail comment\n6, 7\n");
    let table = drain_with_size_check(&mut rdr).unwrap();
    assert_eq!(
        table,
        vec![vec![0, 1], vec![2, 3], vec![4, 5], vec![6, 7]]
    );
}

#[test]
fn test_table_parse_error() {
    let mut rdr = block_reader("1, 2\n\nbad, 4\n");
    let err = drain_with_size_check(&mut rdr).unwrap_err();
    assert_eq!(err, TableError::Block(BlockError::Parse("bad".to_string())));
}
