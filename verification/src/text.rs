//! Record reading: classifies the lines of a byte source as field
//! records, comments or blank lines, with single-record lookahead.

use vstd::prelude::*;
use vstd::slice::{slice_subrange, slice_to_vec};

pub use crate::blocks::BlockError;
pub use crate::blocks::DataBlockReader;
pub use crate::fields::EnumFields;
pub use crate::fields::enum_fields;
pub use crate::fields::next_field;

use crate::fields::find_first;
use crate::fields::lemma_find_first;

verus! {

/// Error type returned by `DataRecordReader` and `DataBlockReader`.
#[derive(Clone, Copy, Debug, PartialEq, Eq, Structural)]
pub enum ReaderError {
    /// The underlying byte source failed.
    Io,
    /// The bytes of a record are not valid UTF-8.
    FromUTF8,
}

/// Relies on `memchr::memchr`: the index of the first occurrence of
/// `needle` in `haystack`, or `None` when it does not occur.
pub assume_specification[ memchr::memchr ](needle: u8, haystack: &[u8]) -> (r: Option<usize>)
    ensures
        match r {
            Some(i) => i < haystack@.len() && haystack@[i as int] == needle && forall|j: int|
                0 <= j < i ==> haystack@[j] != needle,
            None => forall|j: int| 0 <= j < haystack@.len() ==> haystack@[j] != needle,
        },
;

#[verifier::external_type_specification]
#[verifier::external_body]
pub struct ExFromUtf8Error(std::string::FromUtf8Error);

/// Relies on `String::from_utf8`: succeeds exactly on valid UTF-8 and
/// returns the decoded text.
pub assume_specification[ String::from_utf8 ](bytes: Vec<u8>) -> (r: Result<
    String,
    std::string::FromUtf8Error,
>)
    ensures
        r is Ok <==> vstd::utf8::valid_utf8(bytes@),
        r matches Ok(s) ==> s@ == vstd::utf8::decode_utf8(bytes@),
;

/// The bytes of one record read from `input`: everything through the
/// first occurrence of the record delimiter (inclusive), or all of
/// `input` when the delimiter does not occur.
pub open spec fn chunk_of(delim: u8, input: Seq<u8>) -> Seq<u8> {
    match find_first(delim, input) {
        Some(i) => input.take(i + 1),
        None => input,
    }
}

/// What remains of `input` after one record is read from it.
pub open spec fn chunk_rest(delim: u8, input: Seq<u8>) -> Seq<u8> {
    match find_first(delim, input) {
        Some(i) => input.skip(i + 1),
        None => Seq::empty(),
    }
}

/// A byte source that records are read from: it hands out all bytes
/// through the next occurrence of a delimiter byte (inclusive), or an
/// empty chunk once it is exhausted.
pub trait RecordSource: Sized {
    /// The bytes the source has not yet handed out.
    spec fn remaining(&self) -> Seq<u8>;

    /// The source's own well-formedness.
    spec fn wf(&self) -> bool;

    /// Whether reading from this source can never fail. A source over
    /// memory is infallible; one over a device need not be.
    spec fn infallible(&self) -> bool;

    /// What the source holds always fits the machine's address space.
    proof fn remaining_bounded(&self)
        requires
            self.wf(),
        ensures
            self.remaining().len() < usize::MAX,
    ;

    /// Reads one record: the bytes through the next occurrence of
    /// `delim` inclusive, or everything left, or an empty chunk at the
    /// end of the input. A failing read reports `Io` and hands out
    /// nothing.
    fn read_record(&mut self, delim: u8) -> (r: Result<Vec<u8>, ReaderError>)
        requires
            old(self).wf(),
        ensures
            final(self).wf(),
            final(self).infallible() == old(self).infallible(),
            old(self).infallible() ==> r is Ok,
            match r {
                Ok(bytes) => bytes@ == chunk_of(delim, old(self).remaining())
                    && final(self).remaining() == chunk_rest(delim, old(self).remaining()),
                Err(e) => e == ReaderError::Io
                    && final(self).remaining() == old(self).remaining(),
            },
    ;
}

/// An in-memory byte source over an owned buffer.
pub struct MemorySource {
    data: Vec<u8>,
    pos: usize,
}

impl MemorySource {
    /// Creates a source that reads the given bytes from the start.
    ///
    /// The length bound is a machine limit: a buffer one byte short of
    /// the address space's top cannot arise from a real allocation.
    pub fn new(data: Vec<u8>) -> (r: MemorySource)
        requires
            data@.len() < usize::MAX,
        ensures
            r.wf(),
            r.infallible(),
            r.remaining() == data@,
    {
        let r = MemorySource { data, pos: 0 };
        proof {
            assert(r.remaining() =~= r.data@);
        }
        r
    }
}

impl RecordSource for MemorySource {
    closed spec fn remaining(&self) -> Seq<u8> {
        self.data@.skip(self.pos as int)
    }

    closed spec fn wf(&self) -> bool {
        self.pos <= self.data@.len() && self.data@.len() < usize::MAX
    }

    closed spec fn infallible(&self) -> bool {
        true
    }

    proof fn remaining_bounded(&self) {
    }

    fn read_record(&mut self, delim: u8) -> (r: Result<Vec<u8>, ReaderError>) {
        let ghost rem = self.remaining();
        let n = self.data.len();
        let hay = slice_subrange(self.data.as_slice(), self.pos, n);
        proof {
            assert(hay@ =~= rem);
        }
        match memchr::memchr(delim, hay) {
            Some(i) => {
                let end = self.pos + i + 1;
                let chunk = slice_to_vec(slice_subrange(self.data.as_slice(), self.pos, end));
                self.pos = end;
                proof {
                    lemma_find_first(delim, rem);
                    assert(find_first(delim, rem) matches Some(j) && j == i) by {
                        match find_first(delim, rem) {
                            None => {
                                assert(rem[i as int] != delim);
                            },
                            Some(j) => {
                                if j < i {
                                    assert(rem[j] != delim);
                                }
                                if j > i {
                                    assert(rem[i as int] != delim);
                                }
                            },
                        }
                    }
                    assert(chunk@ =~= chunk_of(delim, rem));
                    assert(self.remaining() =~= chunk_rest(delim, rem));
                }
                Ok(chunk)
            },
            None => {
                let chunk = slice_to_vec(slice_subrange(self.data.as_slice(), self.pos, n));
                self.pos = n;
                proof {
                    lemma_find_first(delim, rem);
                    assert(find_first(delim, rem) is None) by {
                        if let Some(j) = find_first(delim, rem) {
                            assert(rem[j] == delim);
                        }
                    }
                    assert(chunk@ =~= chunk_of(delim, rem));
                    assert(self.remaining() =~= chunk_rest(delim, rem));
                }
                Ok(chunk)
            },
        }
    }
}

/// `DataRecord` represents one classified record of a data file.
#[derive(Debug, PartialEq)]
pub enum DataRecord {
    /// A record with fields.
    Fields(Vec<String>),
    /// A comment line.
    Comment(String),
    /// A blank line.
    Blank,
    /// The end of the input.
    EOF,
}

/// The mathematical value of one classified record.
pub enum RecordModel {
    /// A record with fields, each a trimmed text.
    Fields(Seq<Seq<char>>),
    /// A comment line, with its raw text.
    Comment(Seq<char>),
    /// A blank line.
    Blank,
    /// The end of the input.
    EndOfInput,
}

impl View for DataRecord {
    type V = RecordModel;

    open spec fn view(&self) -> RecordModel {
        match self {
            DataRecord::Fields(v) => RecordModel::Fields(v.deep_view()),
            DataRecord::Comment(s) => RecordModel::Comment(s@),
            DataRecord::Blank => RecordModel::Blank,
            DataRecord::EOF => RecordModel::EndOfInput,
        }
    }
}

/// The mathematical state of a record reader: the bytes still to be
/// read, the two delimiters, and the record held by the lookahead
/// slot, if any.
#[verifier::ext_equal]
pub struct ReaderModel {
    pub remaining: Seq<u8>,
    pub record_delim: u8,
    pub field_delim: u8,
    pub peeked: Option<RecordModel>,
}

/// How one chunk of raw bytes is classified: an empty chunk marks the
/// end of the input; a chunk whose first byte is `#` is a comment,
/// kept untrimmed; anything else is split into fields, an empty split
/// meaning a blank line. A chunk that is not valid UTF-8 (other than
/// the end of the input) is a decode error.
pub open spec fn classify_chunk(fdelim: u8, chunk: Seq<u8>) -> Result<RecordModel, ReaderError> {
    if chunk.len() == 0 {
        Ok(RecordModel::EndOfInput)
    } else if !vstd::utf8::valid_utf8(chunk) {
        Err(ReaderError::FromUTF8)
    } else if chunk[0] == '#' as u8 {
        Ok(RecordModel::Comment(vstd::utf8::decode_utf8(chunk)))
    } else {
        let fs = crate::fields::fields_of(fdelim as char, vstd::utf8::decode_utf8(chunk));
        if fs.len() == 0 {
            Ok(RecordModel::Blank)
        } else {
            Ok(RecordModel::Fields(fs))
        }
    }
}

/// The record that reading next returns: the one held in the lookahead
/// slot, or the classification of the next chunk of the source.
pub open spec fn read_result(m: ReaderModel) -> Result<RecordModel, ReaderError> {
    match m.peeked {
        Some(r) => Ok(r),
        None => classify_chunk(m.field_delim, chunk_of(m.record_delim, m.remaining)),
    }
}

/// The reader's state after one record is consumed.
pub open spec fn after_next(m: ReaderModel) -> ReaderModel {
    match m.peeked {
        Some(_) => ReaderModel { peeked: None, ..m },
        None => ReaderModel {
            remaining: chunk_rest(m.record_delim, m.remaining),
            peeked: None,
            ..m
        },
    }
}

/// The reader's state after one record is peeked: the slot is filled
/// if it was empty and the read succeeded, and a record already in the
/// slot leaves the state unchanged.
pub open spec fn after_peek(m: ReaderModel) -> ReaderModel {
    match m.peeked {
        Some(_) => m,
        None => {
            let m2 = after_next(m);
            match read_result(m) {
                Ok(r) => ReaderModel { peeked: Some(r), ..m2 },
                Err(_) => m2,
            }
        },
    }
}

/// `DataRecordReader` reads the text records of a byte source.
///
/// Each record is one line; the lines are delimited with the record
/// delimiter, by default the line feed. A single record can be peeked
/// without being consumed.
#[derive(Debug)]
pub struct DataRecordReader<S: RecordSource> {
    stream: S,
    record_delimiter: u8,
    field_delimiter: u8,
    peek_buf: Option<DataRecord>,
}

impl<S: RecordSource> View for DataRecordReader<S> {
    type V = ReaderModel;

    closed spec fn view(&self) -> ReaderModel {
        ReaderModel {
            remaining: self.stream.remaining(),
            record_delim: self.record_delimiter,
            field_delim: self.field_delimiter,
            peeked: match self.peek_buf {
                Some(r) => Some(r@),
                None => None,
            },
        }
    }
}

impl<S: RecordSource> DataRecordReader<S> {
    /// The reader is well formed when its source is.
    pub closed spec fn wf(&self) -> bool {
        self.stream.wf()
    }

    /// Whether the underlying source can never fail a read: over such
    /// a source the reader never reports `Io`.
    pub closed spec fn source_infallible(&self) -> bool {
        self.stream.infallible()
    }

    /// Creates a reader over the given source, with the line feed as
    /// the record delimiter and the comma as the field delimiter.
    pub fn new(stream: S) -> (r: DataRecordReader<S>)
        requires
            stream.wf(),
        ensures
            r.wf(),
            r.source_infallible() == stream.infallible(),
            r@.remaining == stream.remaining(),
            r@.record_delim == ('\n' as u8),
            r@.field_delim == (',' as u8),
            r@.peeked is None,
    {
        DataRecordReader { stream, record_delimiter: ('\n' as u8), field_delimiter: (',' as u8), peek_buf: None }
    }

    /// The delimiter used for field splitting.
    pub fn field_delimiter(&self) -> (r: &u8)
        ensures
            *r == self@.field_delim,
    {
        &self.field_delimiter
    }

    /// Changes the delimiter used for subsequent field splitting; a
    /// record already peeked is not re-split.
    pub fn set_field_delimiter(&mut self, delim: u8)
        requires
            old(self).wf(),
        ensures
            final(self).wf(),
            final(self).source_infallible() == old(self).source_infallible(),
            final(self)@ == (ReaderModel { field_delim: delim, ..old(self)@ }),
    {
        self.field_delimiter = delim;
        proof {
            assert(self@ =~= (ReaderModel { field_delim: delim, ..old(self)@ }));
        }
    }

    /// What a well-formed source holds always fits the machine's
    /// address space.
    pub proof fn bounded(&self)
        requires
            self.wf(),
        ensures
            self@.remaining.len() < usize::MAX,
    {
        self.stream.remaining_bounded();
    }

    /// Returns the next record without consuming it. Repeated peeks
    /// return the same record; the source advances only for the first.
    /// A read that fails leaves the lookahead slot empty.
    pub fn peek_record(&mut self) -> (r: Result<&DataRecord, ReaderError>)
        requires
            old(self).wf(),
        ensures
            final(self).wf(),
            final(self).source_infallible() == old(self).source_infallible(),
            final(self)@ == after_peek(old(self)@) || (r matches Err(e) && e == ReaderError::Io
                && final(self)@ == old(self)@),
            old(self)@.peeked is Some ==> r is Ok,
            r is Err ==> final(self)@.peeked is None,
            old(self).source_infallible() ==> (r matches Err(e) ==> e != ReaderError::Io),
            match r {
                Ok(rec) => read_result(old(self)@) == Ok::<RecordModel, ReaderError>(rec@),
                Err(e) => read_result(old(self)@) == Err::<RecordModel, ReaderError>(e) || e
                    == ReaderError::Io,
            },
    {
        if self.peek_buf.is_none() {
            let record = match self.next_record() {
                Ok(record) => record,
                Err(e) => {
                    proof {
                        if e != ReaderError::Io || self@.remaining != old(self)@.remaining {
                            assert(self@ =~= after_peek(old(self)@));
                        }
                    }
                    return Err(e);
                },
            };
            self.peek_buf = Some(record);
            proof {
                assert(self@ =~= after_peek(old(self)@));
            }
        } else {
            proof {
                assert(self@ =~= after_peek(old(self)@));
            }
        }
        Ok(self.peek_buf.as_ref().unwrap())
    }

    /// Returns and consumes the next record: the peeked record if one
    /// is buffered, otherwise the classification of a fresh read.
    pub fn next_record(&mut self) -> (r: Result<DataRecord, ReaderError>)
        requires
            old(self).wf(),
        ensures
            final(self).wf(),
            final(self).source_infallible() == old(self).source_infallible(),
            final(self)@.record_delim == old(self)@.record_delim,
            final(self)@.field_delim == old(self)@.field_delim,
            final(self)@.peeked is None,
            old(self)@.peeked is Some ==> r is Ok,
            old(self).source_infallible() ==> (r matches Err(e) ==> e != ReaderError::Io),
            match r {
                Ok(rec) => read_result(old(self)@) == Ok::<RecordModel, ReaderError>(rec@)
                    && final(self)@.remaining == after_next(old(self)@).remaining,
                Err(e) => (read_result(old(self)@) == Err::<RecordModel, ReaderError>(e)
                    && final(self)@.remaining == after_next(old(self)@).remaining) || (e
                    == ReaderError::Io && final(self)@.remaining == old(self)@.remaining),
            },
    {
        if let Some(record) = self.peek_buf.take() {
            return Ok(record);
        }
        let bytes = match self.stream.read_record(self.record_delimiter) {
            Ok(bytes) => bytes,
            Err(e) => {
                return Err(e);
            },
        };
        let ghost chunk = bytes@;
        if bytes.len() == 0 {
            return Ok(DataRecord::EOF);
        }
        if bytes[0] == ('#' as u8) {
            match String::from_utf8(bytes) {
                Ok(comment) => Ok(DataRecord::Comment(comment)),
                Err(_) => Err(ReaderError::FromUTF8),
            }
        } else {
            let text = match String::from_utf8(bytes) {
                Ok(text) => text,
                Err(_) => {
                    return Err(ReaderError::FromUTF8);
                },
            };
            let ghost d = self.field_delimiter as char;
            let mut fields: Vec<String> = Vec::new();
            let mut iter = enum_fields(self.field_delimiter, text.as_str());
            loop
                invariant
                    iter.spec_delim() == d,
                    fields.deep_view() + crate::fields::fields_from(d, iter.spec_rest())
                        == crate::fields::fields_of(d, text@),
                ensures
                    fields.deep_view() == crate::fields::fields_of(d, text@),
                decreases iter.spec_rest().len(),
            {
                let ghost rest0 = iter.spec_rest();
                match iter.next() {
                    Some(f) => {
                        let ghost fields0 = fields.deep_view();
                        fields.push(f.to_owned());
                        proof {
                            crate::fields::lemma_trim_len(rest0);
                            crate::fields::lemma_find_first(
                                d,
                                crate::fields::spec_trim(rest0),
                            );
                            assert(fields.deep_view() =~= fields0.push(f@));
                            assert(crate::fields::fields_from(d, rest0) == seq![f@]
                                + crate::fields::fields_from(d, iter.spec_rest()));
                            assert(fields.deep_view() + crate::fields::fields_from(
                                d,
                                iter.spec_rest(),
                            ) =~= fields0 + crate::fields::fields_from(d, rest0));
                        }
                    },
                    None => {
                        proof {
                            assert(crate::fields::fields_from(d, iter.spec_rest())
                                =~= Seq::<Seq<char>>::empty());
                            assert(fields.deep_view() =~= crate::fields::fields_of(d, text@));
                        }
                        break ;
                    },
                }
            }
            if fields.len() == 0 {
                proof {
                    assert(fields.deep_view() =~= Seq::<Seq<char>>::empty());
                }
                Ok(DataRecord::Blank)
            } else {
                Ok(DataRecord::Fields(fields))
            }
        }
    }
}

/// Builds a `DataRecordReader`, with both delimiters chosen
/// explicitly. The type arguments record which delimiters have been
/// set; only a builder with both set can build.
#[derive(Debug)]
pub struct DataRecordReaderBuilder<RdType, FdType> {
    record_delimiter: RdType,
    field_delimiter: FdType,
}

impl<RdType, FdType> DataRecordReaderBuilder<RdType, FdType> {
    /// The record delimiter chosen so far.
    pub closed spec fn spec_record_delim(&self) -> RdType {
        self.record_delimiter
    }

    /// The field delimiter chosen so far.
    pub closed spec fn spec_field_delim(&self) -> FdType {
        self.field_delimiter
    }

    /// Chooses the record delimiter.
    pub fn record_delimiter(self, delim: u8) -> (r: DataRecordReaderBuilder<u8, FdType>)
        ensures
            r.spec_record_delim() == delim,
            r.spec_field_delim() == self.spec_field_delim(),
    {
        DataRecordReaderBuilder { record_delimiter: delim, field_delimiter: self.field_delimiter }
    }

    /// Chooses the field delimiter.
    pub fn field_delimiter(self, delim: u8) -> (r: DataRecordReaderBuilder<RdType, u8>)
        ensures
            r.spec_field_delim() == delim,
            r.spec_record_delim() == self.spec_record_delim(),
    {
        DataRecordReaderBuilder { record_delimiter: self.record_delimiter, field_delimiter: delim }
    }
}

impl DataRecordReaderBuilder<(), ()> {
    /// Creates a builder with neither delimiter chosen.
    pub fn new() -> Self {
        DataRecordReaderBuilder { record_delimiter: (), field_delimiter: () }
    }
}

impl DataRecordReaderBuilder<u8, u8> {
    /// Builds a reader over the given source with the chosen
    /// delimiters.
    pub fn build<S: RecordSource>(self, stream: S) -> (r: DataRecordReader<S>)
        requires
            stream.wf(),
        ensures
            r.wf(),
            r.source_infallible() == stream.infallible(),
            r@.remaining == stream.remaining(),
            r@.record_delim == self.spec_record_delim(),
            r@.field_delim == self.spec_field_delim(),
            r@.peeked is None,
    {
        DataRecordReader {
            stream,
            record_delimiter: self.record_delimiter,
            field_delimiter: self.field_delimiter,
            peek_buf: None,
        }
    }
}

/// A line whose first byte is `#` is always classified as a comment,
/// whatever the field delimiter, and its text is kept untrimmed.
pub proof fn lemma_comment_always(fdelim: u8, chunk: Seq<u8>)
    requires
        chunk.len() > 0,
        chunk[0] == '#' as u8,
        vstd::utf8::valid_utf8(chunk),
    ensures
        classify_chunk(fdelim, chunk) == Ok::<RecordModel, ReaderError>(
            RecordModel::Comment(vstd::utf8::decode_utf8(chunk)),
        ),
{
}

/// A line of whitespace alone is classified as blank.
pub proof fn lemma_whitespace_blank(fdelim: u8, chunk: Seq<u8>)
    requires
        chunk.len() > 0,
        vstd::utf8::valid_utf8(chunk),
        forall|j: int|
            0 <= j < vstd::utf8::decode_utf8(chunk).len() ==> crate::fields::is_ws_char(
                vstd::utf8::decode_utf8(chunk)[j],
            ),
        chunk[0] != '#' as u8,
    ensures
        classify_chunk(fdelim, chunk) == Ok::<RecordModel, ReaderError>(RecordModel::Blank),
{
    crate::fields::lemma_all_ws_no_fields(fdelim as char, vstd::utf8::decode_utf8(chunk));
}

/// Peeking is idempotent: once a peek has succeeded, peeking again
/// returns the same record and does not move the source.
pub proof fn lemma_peek_idempotent(m: ReaderModel)
    requires
        read_result(m) is Ok,
    ensures
        read_result(after_peek(m)) == read_result(m),
        after_peek(after_peek(m)) == after_peek(m),
{
}

} // verus!
