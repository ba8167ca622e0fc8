//! Block reading: groups consecutive field records into blocks
//! separated by blank lines, parses every field into a caller-chosen
//! type, and can drain a whole input into a width-checked table.

use vstd::prelude::*;

use core::marker::PhantomData;

use crate::parse::FieldParse;
use crate::text::DataRecord;
use crate::text::DataRecordReader;
use crate::text::ReaderError;
use crate::text::ReaderModel;
use crate::text::RecordModel;
use crate::text::RecordSource;
use crate::text::after_next;
use crate::text::after_peek;
use crate::text::chunk_of;
use crate::text::chunk_rest;
use crate::text::read_result;

verus! {

/// Error type returned by `DataBlockReader`.
#[derive(Debug, PartialEq)]
pub enum BlockError {
    /// The underlying record reader failed.
    Reader(ReaderError),
    /// A field could not be parsed; the error carries its text.
    Parse(String),
}

/// The mathematical value of a block reader error.
pub enum BlockErrorModel {
    Reader(ReaderError),
    Parse(Seq<char>),
}

impl View for BlockError {
    type V = BlockErrorModel;

    open spec fn view(&self) -> BlockErrorModel {
        match self {
            BlockError::Reader(e) => BlockErrorModel::Reader(*e),
            BlockError::Parse(s) => BlockErrorModel::Parse(s@),
        }
    }
}

/// A bound on the work a reader can still do, used to show that
/// reading to the end terminates: consuming a record always shrinks
/// it.
pub open spec fn reader_measure(m: ReaderModel) -> int {
    2 * m.remaining.len() + (if m.peeked is Some {
        1int
    } else {
        0int
    })
}

/// Whether the reader stands at the end of its input with the end
/// already peeked.
pub open spec fn at_end(m: ReaderModel) -> bool {
    m.remaining.len() == 0 && m.peeked == Some(RecordModel::EndOfInput)
}

/// Whether the next record is the end of the input.
pub open spec fn eof_next(m: ReaderModel) -> bool {
    read_result(m) == Ok::<RecordModel, ReaderError>(RecordModel::EndOfInput)
}

/// Consuming a record that exists (and is not the end of the input)
/// strictly shrinks the measure.
proof fn lemma_consume_decreases(m: ReaderModel)
    requires
        read_result(m) matches Ok(r) && !(r is EndOfInput),
    ensures
        reader_measure(after_next(m)) < reader_measure(m),
{
    if m.peeked is None {
        let chunk = chunk_of(m.record_delim, m.remaining);
        crate::fields::lemma_find_first(m.record_delim, m.remaining);
        if m.remaining.len() == 0 {
            assert(chunk.len() == 0);
        }
        assert(chunk.len() > 0);
        assert(chunk_rest(m.record_delim, m.remaining).len() < m.remaining.len());
    }
}

/// Peeking at the terminal record of a block changes the measure by at
/// most one upward, and only at the very end of the input.
proof fn lemma_terminal_peek(m: ReaderModel)
    requires
        read_result(m) is Ok,
    ensures
        reader_measure(after_peek(m)) <= reader_measure(m) + 1,
        reader_measure(after_peek(m)) >= reader_measure(m) ==> after_peek(m) == m || (at_end(
            after_peek(m),
        ) && reader_measure(m) == 0),
        after_peek(m).peeked is Some,
{
    if m.peeked is None {
        let chunk = chunk_of(m.record_delim, m.remaining);
        crate::fields::lemma_find_first(m.record_delim, m.remaining);
        if m.remaining.len() > 0 {
            assert(chunk.len() > 0);
            assert(chunk_rest(m.record_delim, m.remaining).len() < m.remaining.len());
        } else {
            assert(chunk.len() == 0);
            assert(chunk_rest(m.record_delim, m.remaining) =~= Seq::<u8>::empty());
        }
    }
}

/// The index of the first field of a row that does not parse, if any.
pub open spec fn first_unparsable<T: FieldParse>(fs: Seq<Seq<char>>) -> Option<int>
    decreases fs.len(),
{
    if fs.len() == 0 {
        None
    } else if T::parse_spec(fs[0]) is None {
        Some(0)
    } else {
        match first_unparsable::<T>(fs.drop_first()) {
            Some(i) => Some(i + 1),
            None => None,
        }
    }
}

/// What `first_unparsable` returns, characterized without recursion.
proof fn lemma_first_unparsable<T: FieldParse>(fs: Seq<Seq<char>>)
    ensures
        match first_unparsable::<T>(fs) {
            Some(i) => 0 <= i < fs.len() && T::parse_spec(fs[i]) is None && forall|j: int|
                0 <= j < i ==> T::parse_spec(#[trigger] fs[j]) is Some,
            None => forall|j: int| 0 <= j < fs.len() ==> T::parse_spec(#[trigger] fs[j]) is Some,
        },
    decreases fs.len(),
{
    if fs.len() > 0 && T::parse_spec(fs[0]) is Some {
        lemma_first_unparsable::<T>(fs.drop_first());
        let t = fs.drop_first();
        assert(forall|j: int| 1 <= j < fs.len() ==> fs[j] == t[j - 1]);
    }
}

/// The row a fully parsable record stands for.
pub open spec fn parse_row<T: FieldParse>(fs: Seq<Seq<char>>) -> Seq<T> {
    Seq::new(fs.len(), |i: int| T::parse_spec(fs[i]).unwrap())
}

/// What reading one block yields: the parsed rows and the reader state
/// left behind, or the first failure and the state at that point.
pub enum BlockOutcome<T> {
    /// The rows of the block (none at the end of the input), with the
    /// terminating blank or end record left peeked.
    Rows(Seq<Seq<T>>, ReaderModel),
    /// Reading or parsing failed; no rows are handed out.
    Failed(BlockErrorModel, ReaderModel),
}

/// Reading one block: comments are skipped, field records are parsed
/// row by row, and the first blank or end record terminates the block
/// and is left unconsumed.
pub open spec fn block_outcome<T: FieldParse>(m: ReaderModel) -> BlockOutcome<T>
    decreases reader_measure(m),
    via block_outcome_decreases::<T>
{
    match read_result(m) {
        Err(e) => BlockOutcome::Failed(BlockErrorModel::Reader(e), after_next(m)),
        Ok(r) => match r {
            RecordModel::EndOfInput | RecordModel::Blank => BlockOutcome::Rows(
                Seq::empty(),
                after_peek(m),
            ),
            RecordModel::Comment(_) => block_outcome::<T>(after_next(m)),
            RecordModel::Fields(fs) => match first_unparsable::<T>(fs) {
                Some(i) => BlockOutcome::Failed(BlockErrorModel::Parse(fs[i]), after_next(m)),
                None => match block_outcome::<T>(after_next(m)) {
                    BlockOutcome::Rows(rows, m2) => BlockOutcome::Rows(
                        seq![parse_row::<T>(fs)] + rows,
                        m2,
                    ),
                    BlockOutcome::Failed(e, m2) => BlockOutcome::Failed(e, m2),
                },
            },
        },
    }
}

#[via_fn]
proof fn block_outcome_decreases<T: FieldParse>(m: ReaderModel) {
    if read_result(m) matches Ok(r) && !(r is EndOfInput) && !(r is Blank) {
        lemma_consume_decreases(m);
    }
}

/// Reading a block moves the reader forward: the measure grows only in
/// the one step that peeks the end of an empty input, and a block read
/// always leaves a record peeked.
proof fn lemma_block_measure<T: FieldParse>(m: ReaderModel)
    ensures
        block_outcome::<T>(m) matches BlockOutcome::Rows(rows, m2) ==> {
            &&& m2.peeked is Some
            &&& reader_measure(m2) <= reader_measure(m) + 1
            &&& reader_measure(m2) > reader_measure(m) ==> at_end(m2) && rows.len() == 0
            &&& reader_measure(m2) == reader_measure(m) ==> m2 == m || at_end(m2)
            &&& rows.len() > 0 ==> reader_measure(m2) < reader_measure(m) || at_end(m2)
        },
    decreases reader_measure(m),
{
    match read_result(m) {
        Err(_) => {},
        Ok(r) => match r {
            RecordModel::EndOfInput | RecordModel::Blank => {
                lemma_terminal_peek(m);
            },
            RecordModel::Comment(_) | RecordModel::Fields(_) => {
                lemma_consume_decreases(m);
                lemma_block_measure::<T>(after_next(m));
            },
        },
    }
}

/// What consuming the blank and comment run between blocks yields: the
/// count of consumed records, or the first failure.
pub enum BlanksOutcome {
    /// The number of blank and comment records consumed before the
    /// first field record or the end of the input, which is left
    /// peeked.
    Counted(nat, ReaderModel),
    /// A read failed; the count is lost.
    Failed(ReaderError, ReaderModel),
}

/// Consuming separators: blank lines and comments are consumed and
/// counted; the first field record or end of input stops the run and
/// is left unconsumed.
pub open spec fn blanks_outcome(m: ReaderModel) -> BlanksOutcome
    decreases reader_measure(m),
    via blanks_outcome_decreases
{
    match read_result(m) {
        Err(e) => BlanksOutcome::Failed(e, after_next(m)),
        Ok(r) => match r {
            RecordModel::Blank | RecordModel::Comment(_) => match blanks_outcome(after_next(m)) {
                BlanksOutcome::Counted(k, m2) => BlanksOutcome::Counted(k + 1, m2),
                BlanksOutcome::Failed(e, m2) => BlanksOutcome::Failed(e, m2),
            },
            RecordModel::Fields(_) | RecordModel::EndOfInput => BlanksOutcome::Counted(
                0,
                after_peek(m),
            ),
        },
    }
}

#[via_fn]
proof fn blanks_outcome_decreases(m: ReaderModel) {
    if read_result(m) matches Ok(r) && (r is Blank || r is Comment) {
        lemma_consume_decreases(m);
    }
}

/// Consuming separators moves the reader forward in the same way a
/// block read does.
proof fn lemma_blanks_measure(m: ReaderModel)
    ensures
        blanks_outcome(m) matches BlanksOutcome::Counted(k, m2) ==> {
            &&& m2.peeked is Some
            &&& reader_measure(m2) <= reader_measure(m) + 1
            &&& reader_measure(m2) > reader_measure(m) ==> at_end(m2) && k == 0
            &&& reader_measure(m2) == reader_measure(m) ==> m2 == m || at_end(m2)
            &&& k > 0 ==> reader_measure(m2) < reader_measure(m) || at_end(m2)
        },
    decreases reader_measure(m),
{
    match read_result(m) {
        Err(_) => {},
        Ok(r) => match r {
            RecordModel::Fields(_) | RecordModel::EndOfInput => {
                lemma_terminal_peek(m);
            },
            RecordModel::Blank | RecordModel::Comment(_) => {
                lemma_consume_decreases(m);
                lemma_blanks_measure(after_next(m));
            },
        },
    }
}

/// Error type returned by table construction.
#[derive(Debug, PartialEq)]
pub enum TableError {
    /// Reading or parsing a block failed.
    Block(BlockError),
    /// A row's width differs from the first row's width.
    SizeMismatch,
}

/// The mathematical value of a table construction error.
pub enum TableErrorModel {
    Block(BlockErrorModel),
    SizeMismatch,
}

impl View for TableError {
    type V = TableErrorModel;

    open spec fn view(&self) -> TableErrorModel {
        match self {
            TableError::Block(e) => TableErrorModel::Block(e@),
            TableError::SizeMismatch => TableErrorModel::SizeMismatch,
        }
    }
}

/// Whether every row has the width of the first row.
pub open spec fn uniform_width<T>(rows: Seq<Seq<T>>) -> bool {
    forall|i: int| 0 <= i < rows.len() ==> #[trigger] rows[i].len() == rows[0].len()
}

/// What draining a whole input into a table yields: every row of
/// every block in order, or the first failure.
pub enum TableOutcome<T> {
    /// All rows, of one width, and the reader state at the end.
    Table(Seq<Seq<T>>, ReaderModel),
    /// Reading, parsing or the width check failed.
    Failed(TableErrorModel, ReaderModel),
}

/// Draining the reader: blocks are read and their rows collected,
/// separators are consumed between them, every row's width is checked
/// against the first row's, and the drain ends when a read of no rows
/// is followed by no separators.
pub open spec fn table_outcome<T: FieldParse>(m: ReaderModel, acc: Seq<Seq<T>>) -> TableOutcome<T>
    decreases
            reader_measure(m),
            (if eof_next(m) {
                0int
            } else {
                1int
            }),
    via table_outcome_decreases::<T>
{
    match block_outcome::<T>(m) {
        BlockOutcome::Failed(e, m2) => TableOutcome::Failed(TableErrorModel::Block(e), m2),
        BlockOutcome::Rows(rows, m2) => {
            if !uniform_width(acc + rows) {
                TableOutcome::Failed(TableErrorModel::SizeMismatch, m2)
            } else {
                match blanks_outcome(m2) {
                    BlanksOutcome::Failed(e, m3) => TableOutcome::Failed(
                        TableErrorModel::Block(BlockErrorModel::Reader(e)),
                        m3,
                    ),
                    BlanksOutcome::Counted(k, m3) => {
                        if rows.len() == 0 && k == 0 {
                            TableOutcome::Table(acc, m3)
                        } else {
                            table_outcome::<T>(m3, acc + rows)
                        }
                    },
                }
            }
        },
    }
}

/// At the end of the input a block read yields no rows and a
/// separator run yields no count, both leaving the reader at the end.
proof fn lemma_at_eof<T: FieldParse>(m: ReaderModel)
    requires
        eof_next(m),
    ensures
        block_outcome::<T>(m) matches BlockOutcome::Rows(rows, m2) && rows.len() == 0 && m2
            == after_peek(m) && m2.peeked == Some(RecordModel::EndOfInput) && blanks_outcome(m2)
            == BlanksOutcome::Counted(0 as nat, m2),
{
    let m2 = after_peek(m);
    assert(m2.peeked == Some(RecordModel::EndOfInput));
    assert(read_result(m2) == Ok::<RecordModel, ReaderError>(RecordModel::EndOfInput));
    assert(after_peek(m2) == m2);
}

/// One round of the drain either consumes something, which shrinks
/// the measure or reaches the peeked end of the input, or ends the
/// drain.
proof fn lemma_table_step<T: FieldParse>(m: ReaderModel)
    ensures
        match block_outcome::<T>(m) {
            BlockOutcome::Rows(rows, m2) => match blanks_outcome(m2) {
                BlanksOutcome::Counted(k, m3) => (rows.len() == 0 && k == 0) || reader_measure(m3)
                    < reader_measure(m) || (reader_measure(m3) == reader_measure(m) && eof_next(m3)
                    && !eof_next(m)),
                BlanksOutcome::Failed(_, _) => true,
            },
            BlockOutcome::Failed(_, _) => true,
        },
{
    lemma_block_measure::<T>(m);
    if let BlockOutcome::Rows(rows, m2) = block_outcome::<T>(m) {
        lemma_blanks_measure(m2);
        if let BlanksOutcome::Counted(k, m3) = blanks_outcome(m2) {
            if !(rows.len() == 0 && k == 0) {
                // The recursion only continues when something was
                // consumed, which cannot happen at the end of the
                // input.
                if eof_next(m) {
                    lemma_at_eof::<T>(m);
                }
                assert(!eof_next(m));
                // A record is peeked at `m2`, so its measure is
                // positive and consuming separators cannot grow it.
                assert(reader_measure(m2) >= 1);
                assert(reader_measure(m3) <= reader_measure(m2));
                if reader_measure(m2) > reader_measure(m) {
                    assert(rows.len() == 0 && at_end(m2));
                    assert(eof_next(m2));
                    lemma_at_eof::<T>(m2);
                    assert(k == 0 && m3 == m2);
                    assert(false);
                }
                assert(reader_measure(m3) <= reader_measure(m));
                if reader_measure(m3) == reader_measure(m) {
                    // Equality can only mean the end was reached and
                    // peeked, and there the tie-breaker drops.
                    assert(reader_measure(m3) == reader_measure(m2));
                    if m3 == m2 {
                        if at_end(m2) {
                            assert(at_end(m3));
                        } else {
                            assert(m2 == m);
                            // No rows and no separators were consumed.
                            if rows.len() > 0 {
                                assert(reader_measure(m2) < reader_measure(m) || at_end(m2));
                                assert(false);
                            }
                            assert(k > 0);
                            assert(reader_measure(m3) < reader_measure(m2) || at_end(m3));
                            assert(false);
                        }
                    } else {
                        assert(at_end(m3));
                    }
                    assert(at_end(m3));
                    assert(eof_next(m3));
                }
            }
        }
    }
}

#[via_fn]
proof fn table_outcome_decreases<T: FieldParse>(m: ReaderModel, acc: Seq<Seq<T>>) {
    lemma_table_step::<T>(m);
}

/// Whether the lookahead slot is occupied, as a number.
spec fn slot_bit(m: ReaderModel) -> int {
    if m.peeked is Some {
        1int
    } else {
        0int
    }
}

/// Consuming a record that exists (and is not the end of the input)
/// takes at least one record's worth of input with it.
proof fn lemma_consume_bytes(m: ReaderModel)
    requires
        read_result(m) matches Ok(r) && !(r is EndOfInput),
    ensures
        after_next(m).remaining.len() + slot_bit(after_next(m)) + 1 <= m.remaining.len()
            + slot_bit(m),
{
    if m.peeked is None {
        let chunk = chunk_of(m.record_delim, m.remaining);
        crate::fields::lemma_find_first(m.record_delim, m.remaining);
        if m.remaining.len() == 0 {
            assert(chunk.len() == 0);
        }
        assert(chunk.len() > 0);
        assert(chunk_rest(m.record_delim, m.remaining).len() < m.remaining.len());
    }
}

/// A count of consumed separators put in front of an outcome's count.
spec fn blanks_plus(k: nat, o: BlanksOutcome) -> BlanksOutcome {
    match o {
        BlanksOutcome::Counted(j, m2) => BlanksOutcome::Counted((k + j) as nat, m2),
        BlanksOutcome::Failed(_, _) => o,
    }
}

/// The views of a table's rows.
pub open spec fn rows_view<T>(rows: Seq<Vec<T>>) -> Seq<Seq<T>> {
    Seq::new(rows.len(), |i: int| rows[i]@)
}

/// The rows a block reader has accumulated so far.
pub open spec fn acc_view<T>(block: Option<Vec<Vec<T>>>) -> Seq<Seq<T>> {
    match block {
        Some(b) => rows_view(b@),
        None => Seq::empty(),
    }
}

/// The outcome of the rest of a block, with rows already accumulated
/// put in front.
spec fn with_prefix<T>(acc: Seq<Seq<T>>, o: BlockOutcome<T>) -> BlockOutcome<T> {
    match o {
        BlockOutcome::Rows(rows, m2) => BlockOutcome::Rows(acc + rows, m2),
        BlockOutcome::Failed(_, _) => o,
    }
}

/// A reader that groups the records of a data file into blocks.
///
/// A data block is a contiguous run of field records; comments inside
/// it are skipped. Blocks are separated by one or more blank lines.
/// Every field is parsed into the caller-chosen type `T`.
#[derive(Debug)]
pub struct DataBlockReader<T, S> where T: FieldParse, S: RecordSource {
    reader: DataRecordReader<S>,
    _phantom: PhantomData<T>,
}

impl<T: FieldParse, S: RecordSource> View for DataBlockReader<T, S> {
    type V = ReaderModel;

    closed spec fn view(&self) -> ReaderModel {
        self.reader@
    }
}

impl<T: FieldParse, S: RecordSource> DataBlockReader<T, S> {
    /// The block reader is well formed when its record reader is.
    pub closed spec fn wf(&self) -> bool {
        self.reader.wf()
    }

    /// Whether the underlying source can never fail a read: over such
    /// a source the block reader never reports `Io`.
    pub closed spec fn source_infallible(&self) -> bool {
        self.reader.source_infallible()
    }

    /// Creates a block reader over the given record reader.
    pub fn new(reader: DataRecordReader<S>) -> (r: DataBlockReader<T, S>)
        ensures
            r@ == reader@,
            reader.wf() ==> r.wf(),
            r.source_infallible() == reader.source_infallible(),
    {
        DataBlockReader { reader, _phantom: PhantomData }
    }

    /// Hands the underlying record reader back.
    pub fn into_inner(self) -> (r: DataRecordReader<S>)
        ensures
            r@ == self@,
            self.wf() ==> r.wf(),
            r.source_infallible() == self.source_infallible(),
    {
        self.reader
    }

    /// Returns the next block, or `None` when no field record remains
    /// before the next blank line or the end of the input.
    ///
    /// The terminating blank or end record is left unconsumed, and
    /// only one separating blank line is observed: call
    /// `consume_blanks` between blocks when several may separate them.
    /// A field that does not parse fails the whole block; no partial
    /// block is handed out.
    pub fn next_block(&mut self) -> (r: Result<Option<Vec<Vec<T>>>, BlockError>)
        requires
            old(self).wf(),
        ensures
            final(self).wf(),
            final(self).source_infallible() == old(self).source_infallible(),
            final(self)@.record_delim == old(self)@.record_delim,
            final(self)@.field_delim == old(self)@.field_delim,
            old(self)@.peeked matches Some(rec) && (rec is Blank || rec is EndOfInput) ==> r
                is Ok,
            old(self).source_infallible() ==> (r matches Err(e) ==> e@ != BlockErrorModel::Reader(
                ReaderError::Io,
            )),
            match r {
                Ok(opt) => block_outcome::<T>(old(self)@) matches BlockOutcome::Rows(rows, m2)
                    && final(self)@ == m2 && (match opt {
                    Some(block) => rows.len() > 0 && rows_view(block@) == rows,
                    None => rows.len() == 0,
                }),
                Err(e) => (block_outcome::<T>(old(self)@) matches BlockOutcome::Failed(f, m2)
                    && e@ == f && final(self)@ == m2) || (e@ == BlockErrorModel::Reader(
                    ReaderError::Io,
                ) && final(self)@.peeked is None && reader_measure(final(self)@)
                    <= reader_measure(old(self)@)),
            },
    {
        let ghost m0 = old(self)@;
        let mut block: Option<Vec<Vec<T>>> = None;
        loop
            invariant_except_break
                reader_measure(self@) <= reader_measure(m0),
            invariant
                m0 == old(self)@,
                self.wf(),
                self.source_infallible() == old(self).source_infallible(),
                self@.record_delim == m0.record_delim,
                self@.field_delim == m0.field_delim,
                (old(self)@.peeked matches Some(rec) && (rec is Blank || rec is EndOfInput))
                    ==> self@ == old(self)@,
                (block matches Some(b) ==> b@.len() > 0),
                block_outcome::<T>(m0) == with_prefix(acc_view(block), block_outcome::<T>(self@)),
            ensures
                self.wf(),
                self@.record_delim == m0.record_delim,
                self@.field_delim == m0.field_delim,
                (block matches Some(b) ==> b@.len() > 0),
                block_outcome::<T>(m0) matches BlockOutcome::Rows(rows, m2) && m2 == self@ && rows
                    == acc_view(block),
            decreases reader_measure(self@),
        {
            let ghost mpre = self@;
            let terminal = match self.reader.peek_record() {
                Ok(rec) => {
                    let stop = match rec {
                        DataRecord::EOF | DataRecord::Blank => true,
                        _ => false,
                    };
                    proof {
                        if !stop {
                            assert(!(rec@ is Blank) && !(rec@ is EndOfInput));
                        }
                    }
                    stop
                },
                Err(e) => {
                    proof {
                        if let Some(rec0) = old(self)@.peeked {
                            if rec0 is Blank || rec0 is EndOfInput {
                                assert(mpre.peeked is Some);
                                assert(false);
                            }
                        }
                        if e != ReaderError::Io {
                            assert(read_result(mpre) == Err::<RecordModel, ReaderError>(e));
                            assert(self@ == after_peek(mpre));
                            assert(block_outcome::<T>(mpre) == BlockOutcome::<T>::Failed(
                                BlockErrorModel::Reader(e),
                                after_next(mpre),
                            ));
                        } else {
                            // The failed read cached nothing and moved
                            // the source at most one record forward.
                            assert(self@.peeked is None);
                            if self@ != mpre {
                                assert(self@ == after_peek(mpre));
                                assert(self@ == after_next(mpre));
                                crate::fields::lemma_find_first(
                                    mpre.record_delim,
                                    mpre.remaining,
                                );
                                assert(reader_measure(self@) <= reader_measure(mpre));
                            }
                        }
                    }
                    return Err(BlockError::Reader(e));
                },
            };
            proof {
                assert(self@ == after_peek(mpre));
                assert(read_result(self@) == read_result(mpre));
            }
            if terminal {
                proof {
                    assert(block_outcome::<T>(mpre) == BlockOutcome::<T>::Rows(
                        Seq::empty(),
                        after_peek(mpre),
                    ));
                    assert(acc_view(block) + Seq::<Seq<T>>::empty() =~= acc_view(block));
                }
                break ;
            }
            let record = self.reader.next_record().unwrap();
            proof {
                assert(self@ =~= after_next(mpre));
                lemma_consume_decreases(mpre);
                if let Some(rec0) = old(self)@.peeked {
                    if rec0 is Blank || rec0 is EndOfInput {
                        assert(read_result(mpre) == Ok::<RecordModel, ReaderError>(rec0));
                        assert(false);
                    }
                }
            }
            match record {
                DataRecord::Comment(_) => {},
                DataRecord::Fields(fields) => {
                    let ghost fsv = fields.deep_view();
                    proof {
                        assert(read_result(mpre) == Ok::<RecordModel, ReaderError>(
                            RecordModel::Fields(fsv),
                        ));
                    }
                    let mut row: Vec<T> = Vec::new();
                    let mut k: usize = 0;
                    while k < fields.len()
                        invariant
                            m0 == old(self)@,
                            self.wf(),
                            self.source_infallible() == old(self).source_infallible(),
                            self@.record_delim == m0.record_delim,
                            self@.field_delim == m0.field_delim,
                            (block matches Some(b) ==> b@.len() > 0),
                            block_outcome::<T>(m0) == with_prefix(
                                acc_view(block),
                                block_outcome::<T>(mpre),
                            ),
                            read_result(mpre) == Ok::<RecordModel, ReaderError>(
                                RecordModel::Fields(fsv),
                            ),
                            self@ == after_next(mpre),
                            k <= fields@.len(),
                            fsv == fields.deep_view(),
                            row@.len() == k,
                            forall|j: int|
                                0 <= j < k ==> T::parse_spec(#[trigger] fsv[j]) is Some && row@[j]
                                    == T::parse_spec(fsv[j]).unwrap(),
                        decreases fields@.len() - k,
                    {
                        match T::parse_field(fields[k].as_str()) {
                            Some(v) => {
                                row.push(v);
                            },
                            None => {
                                proof {
                                    lemma_first_unparsable::<T>(fsv);
                                    assert(first_unparsable::<T>(fsv) matches Some(i) && i == k)
                                        by {
                                        match first_unparsable::<T>(fsv) {
                                            None => {
                                                assert(T::parse_spec(fsv[k as int]) is Some);
                                            },
                                            Some(i) => {
                                                if i < k {
                                                    assert(T::parse_spec(fsv[i]) is Some);
                                                }
                                                if i > k {
                                                    assert(T::parse_spec(fsv[k as int]) is Some);
                                                }
                                            },
                                        }
                                    }
                                    assert(block_outcome::<T>(mpre) == BlockOutcome::<T>::Failed(
                                        BlockErrorModel::Parse(fsv[k as int]),
                                        after_next(mpre),
                                    ));
                                }
                                return Err(BlockError::Parse(fields[k].clone()));
                            },
                        }
                        k = k + 1;
                    }
                    proof {
                        lemma_first_unparsable::<T>(fsv);
                        assert(first_unparsable::<T>(fsv) is None) by {
                            if let Some(i) = first_unparsable::<T>(fsv) {
                                assert(T::parse_spec(fsv[i]) is Some);
                            }
                        }
                        assert(row@ =~= parse_row::<T>(fsv));
                    }
                    let ghost acc0 = acc_view(block);
                    let mut rows_acc = match block {
                        Some(b) => b,
                        None => Vec::new(),
                    };
                    rows_acc.push(row);
                    block = Some(rows_acc);
                    proof {
                        assert(acc_view(block) =~= acc0.push(parse_row::<T>(fsv)));
                        match block_outcome::<T>(self@) {
                            BlockOutcome::Rows(rows2, _) => {
                                assert(acc0 + (seq![parse_row::<T>(fsv)] + rows2) =~= acc0.push(
                                    parse_row::<T>(fsv),
                                ) + rows2);
                            },
                            BlockOutcome::Failed(_, _) => {},
                        }
                    }
                },
                DataRecord::Blank => {
                    proof {
                        assert(false);
                    }
                },
                DataRecord::EOF => {
                    proof {
                        assert(false);
                    }
                },
            }
        }
        Ok(block)
    }

    /// Consumes the run of blank lines and comments before the next
    /// field record or the end of the input, and returns the number of
    /// records consumed. The record that stops the run is left
    /// unconsumed.
    pub fn consume_blanks(&mut self) -> (r: Result<usize, ReaderError>)
        requires
            old(self).wf(),
        ensures
            final(self).wf(),
            final(self).source_infallible() == old(self).source_infallible(),
            final(self)@.record_delim == old(self)@.record_delim,
            final(self)@.field_delim == old(self)@.field_delim,
            old(self)@.peeked matches Some(rec) && (rec is Fields || rec is EndOfInput) ==> r
                is Ok,
            old(self).source_infallible() ==> (r matches Err(e) ==> e != ReaderError::Io),
            match r {
                Ok(count) => blanks_outcome(old(self)@) matches BlanksOutcome::Counted(k, m2)
                    && count == k && final(self)@ == m2,
                Err(e) => (blanks_outcome(old(self)@) matches BlanksOutcome::Failed(f, m2) && f
                    == e && final(self)@ == m2) || (e == ReaderError::Io && final(self)@.peeked
                    is None && reader_measure(final(self)@) <= reader_measure(old(self)@)),
            },
    {
        let ghost m0 = old(self)@;
        proof {
            self.reader.bounded();
        }
        let mut count: usize = 0;
        loop
            invariant_except_break
                count + self@.remaining.len() + slot_bit(self@) <= m0.remaining.len() + slot_bit(
                    m0,
                ),
                reader_measure(self@) <= reader_measure(m0),
            invariant
                m0 == old(self)@,
                self.wf(),
                self.source_infallible() == old(self).source_infallible(),
                self@.record_delim == m0.record_delim,
                self@.field_delim == m0.field_delim,
                m0.remaining.len() < usize::MAX,
                (old(self)@.peeked matches Some(rec) && (rec is Fields || rec is EndOfInput))
                    ==> self@ == old(self)@,
                blanks_outcome(m0) == blanks_plus(count as nat, blanks_outcome(self@)),
            ensures
                self.wf(),
                self@.record_delim == m0.record_delim,
                self@.field_delim == m0.field_delim,
                blanks_outcome(m0) matches BlanksOutcome::Counted(k, m2) && k == count && m2
                    == self@,
            decreases reader_measure(self@),
        {
            let ghost mpre = self@;
            let advance = match self.reader.peek_record() {
                Ok(rec) => {
                    let step = match rec {
                        DataRecord::Blank | DataRecord::Comment(_) => true,
                        _ => false,
                    };
                    proof {
                        if step {
                            assert(rec@ is Blank || rec@ is Comment);
                        }
                    }
                    step
                },
                Err(e) => {
                    proof {
                        if let Some(rec0) = old(self)@.peeked {
                            if rec0 is Fields || rec0 is EndOfInput {
                                assert(mpre.peeked is Some);
                                assert(false);
                            }
                        }
                        if e != ReaderError::Io {
                            assert(read_result(mpre) == Err::<RecordModel, ReaderError>(e));
                            assert(self@ == after_peek(mpre));
                            assert(blanks_outcome(mpre) == BlanksOutcome::Failed(
                                e,
                                after_next(mpre),
                            ));
                        } else {
                            // The failed read cached nothing and moved
                            // the source at most one record forward.
                            assert(self@.peeked is None);
                            if self@ != mpre {
                                assert(self@ == after_peek(mpre));
                                assert(self@ == after_next(mpre));
                                crate::fields::lemma_find_first(
                                    mpre.record_delim,
                                    mpre.remaining,
                                );
                                assert(reader_measure(self@) <= reader_measure(mpre));
                            }
                        }
                    }
                    return Err(e);
                },
            };
            proof {
                assert(self@ == after_peek(mpre));
                assert(read_result(self@) == read_result(mpre));
            }
            if !advance {
                proof {
                    assert(blanks_outcome(mpre) == BlanksOutcome::Counted(
                        0 as nat,
                        after_peek(mpre),
                    ));
                }
                break ;
            }
            self.reader.next_record().unwrap();
            proof {
                assert(self@ =~= after_next(mpre));
                lemma_consume_decreases(mpre);
                lemma_consume_bytes(mpre);
                if let Some(rec0) = old(self)@.peeked {
                    if rec0 is Fields || rec0 is EndOfInput {
                        assert(read_result(mpre) == Ok::<RecordModel, ReaderError>(rec0));
                        assert(false);
                    }
                }
            }
            count = count + 1;
            proof {
                match blanks_outcome(self@) {
                    BlanksOutcome::Counted(j, _) => {
                        assert(blanks_outcome(mpre) == blanks_plus(1 as nat, blanks_outcome(
                            self@,
                        )));
                    },
                    BlanksOutcome::Failed(_, _) => {},
                }
            }
        }
        Ok(count)
    }
}

/// Drains a block reader into a fully materialized table, validating
/// that every row has the width of the first row.
///
/// All blocks are read, with the separating blank lines and comments
/// consumed between them; a row whose width differs from the first
/// row's fails the whole construction with a size mismatch, and no
/// partial table is handed out. An input with no rows at all is a
/// valid table of zero rows.
pub fn drain_with_size_check<T: FieldParse, S: RecordSource>(
    reader: &mut DataBlockReader<T, S>,
) -> (r: Result<Vec<Vec<T>>, TableError>)
    requires
        old(reader).wf(),
    ensures
        final(reader).wf(),
        final(reader).source_infallible() == old(reader).source_infallible(),
        old(reader)@.peeked == Some(RecordModel::EndOfInput) ==> r is Ok,
        old(reader).source_infallible() ==> (r matches Err(e) ==> e@ != TableErrorModel::Block(
            BlockErrorModel::Reader(ReaderError::Io),
        )),
        match r {
            Ok(table) => table_outcome::<T>(old(reader)@, Seq::empty())
                matches TableOutcome::Table(rows, m2) && rows_view(table@) == rows
                && final(reader)@ == m2,
            Err(e) => (table_outcome::<T>(old(reader)@, Seq::empty())
                matches TableOutcome::Failed(f, m2) && e@ == f && final(reader)@ == m2) || (e@
                == TableErrorModel::Block(BlockErrorModel::Reader(ReaderError::Io))),
        },
{
    let ghost m0 = old(reader)@;
    let mut table: Vec<Vec<T>> = Vec::new();
    let mut width: usize = 0;
    let mut have_width = false;
    loop
        invariant_except_break
            table_outcome::<T>(m0, Seq::empty()) == table_outcome::<T>(reader@, rows_view(table@)),
        invariant
            m0 == old(reader)@,
            reader.wf(),
            reader.source_infallible() == old(reader).source_infallible(),
            old(reader)@.peeked == Some(RecordModel::EndOfInput) ==> reader@ == old(reader)@,
            have_width ==> table@.len() > 0 && rows_view(table@)[0].len() == width,
            !have_width ==> table@.len() == 0,
            uniform_width(rows_view(table@)),
        ensures
            reader.wf(),
            table_outcome::<T>(m0, Seq::empty()) matches TableOutcome::Table(rows, m2) && rows
                == rows_view(table@) && m2 == reader@,
        decreases
                reader_measure(reader@),
                (if eof_next(reader@) {
                    0int
                } else {
                    1int
                }),
    {
        let ghost mpre = reader@;
        let ghost acc = rows_view(table@);
        let got = match reader.next_block() {
            Ok(got) => got,
            Err(e) => {
                proof {
                    if m0.peeked == Some(RecordModel::EndOfInput) {
                        assert(mpre.peeked matches Some(rec) && rec is EndOfInput);
                        assert(false);
                    }
                }
                return Err(TableError::Block(e));
            },
        };
        proof {
            if m0.peeked == Some(RecordModel::EndOfInput) {
                assert(read_result(mpre) == Ok::<RecordModel, ReaderError>(
                    RecordModel::EndOfInput,
                ));
                assert(block_outcome::<T>(mpre) == BlockOutcome::<T>::Rows(
                    Seq::empty(),
                    after_peek(mpre),
                ));
                assert(after_peek(mpre) == mpre);
            }
        }
        let ghost brows: Seq<Seq<T>> = match block_outcome::<T>(mpre) {
            BlockOutcome::Rows(rows, _) => rows,
            BlockOutcome::Failed(_, _) => Seq::empty(),
        };
        let got_rows = got.is_some();
        match got {
            Some(mut rows) => {
                let ghost rowsv = rows_view(rows@);
                proof {
                    assert(rowsv == brows);
                }
                let mut k: usize = 0;
                while k < rows.len()
                    invariant
                        m0 == old(reader)@,
                        reader.wf(),
                        reader.source_infallible() == old(reader).source_infallible(),
                        table_outcome::<T>(m0, Seq::empty()) == table_outcome::<T>(mpre, acc),
                        block_outcome::<T>(mpre) == BlockOutcome::<T>::Rows(rowsv, reader@),
                        k <= rows@.len(),
                        rowsv == rows_view(rows@),
                        rowsv.len() > 0,
                        acc == rows_view(table@),
                        uniform_width(acc),
                        !have_width ==> acc.len() == 0 && k == 0,
                        have_width ==> width == (acc + rowsv)[0].len(),
                        forall|j: int|
                            0 <= j < k ==> #[trigger] rowsv[j].len() == (acc + rowsv)[0].len(),
                    decreases rows@.len() - k,
                {
                    if !have_width {
                        width = rows[0].len();
                        have_width = true;
                        proof {
                            assert((acc + rowsv)[0] =~= rowsv[0]);
                        }
                    }
                    if rows[k].len() != width {
                        proof {
                            assert((acc + rowsv)[acc.len() + k] =~= rowsv[k as int]);
                            assert(!uniform_width(acc + rowsv));
                        }
                        return Err(TableError::SizeMismatch);
                    }
                    proof {
                        assert(rowsv[k as int] =~= (acc + rowsv)[acc.len() + k]);
                    }
                    k = k + 1;
                }
                proof {
                    assert(uniform_width(acc + rowsv)) by {
                        assert forall|j: int|
                            0 <= j < (acc + rowsv).len() implies #[trigger] (acc + rowsv)[j].len()
                            == (acc + rowsv)[0].len() by {
                            if j < acc.len() {
                                assert((acc + rowsv)[j] =~= acc[j]);
                                if acc.len() > 0 {
                                    assert((acc + rowsv)[0] =~= acc[0]);
                                }
                            } else {
                                assert((acc + rowsv)[j] =~= rowsv[j - acc.len()]);
                            }
                        }
                    }
                }
                table.append(&mut rows);
                proof {
                    assert(rows_view(table@) =~= acc + brows);
                    assert(rows_view(table@)[0].len() == width);
                }
            },
            None => {
                proof {
                    assert(acc + brows =~= acc);
                    assert(uniform_width(acc + brows));
                }
            },
        };
        proof {
            assert(rows_view(table@) == acc + brows);
            assert(uniform_width(acc + brows));
            assert(have_width ==> table@.len() > 0 && rows_view(table@)[0].len() == width);
        }
        let count = match reader.consume_blanks() {
            Ok(count) => count,
            Err(e) => {
                proof {
                    if m0.peeked == Some(RecordModel::EndOfInput) {
                        assert(false);
                    }
                }
                return Err(TableError::Block(BlockError::Reader(e)));
            },
        };
        if !got_rows && count == 0 {
            break ;
        }
        proof {
            lemma_table_step::<T>(mpre);
            if m0.peeked == Some(RecordModel::EndOfInput) {
                assert(blanks_outcome(mpre) == BlanksOutcome::Counted(0 as nat, mpre));
                assert(false);
            }
        }
    }
    Ok(table)
}

/// After the final block, reading another block yields no block again:
/// the end of the input is idempotent, so asking repeatedly returns no
/// rows and no error, without moving the reader.
pub proof fn lemma_no_block_at_end<T: FieldParse>(m: ReaderModel)
    requires
        eof_next(m),
    ensures
        block_outcome::<T>(m) matches BlockOutcome::Rows(rows, m2) && rows.len() == 0 && (
        block_outcome::<T>(m2) matches BlockOutcome::Rows(rows2, m3) && rows2.len() == 0 && m3
            == m2),
{
    lemma_at_eof::<T>(m);
    if let BlockOutcome::Rows(rows, m2) = block_outcome::<T>(m) {
        assert(read_result(m2) == Ok::<RecordModel, ReaderError>(RecordModel::EndOfInput));
        assert(after_peek(m2) == m2);
    }
}

} // verus!
