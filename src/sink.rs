//! A write-only table whose rows go to a broker topic, one message per
//! nonempty batch.
//!
//! The decisions of a write are made here; the caller pulls batches, encodes
//! and publishes them, and reports back.
use vstd::prelude::*;
use crate::value::DataType;

verus! {

/// One column of the rows written to the topic.
#[derive(Debug)]
pub struct Field {
    pub name: String,
    pub data_type: DataType,
}

/// Where a sink sends its rows and what they look like.
#[derive(Debug)]
pub struct KafkaWriteConfig {
    pub topic: String,
    pub schema: Vec<Field>,
}

/// How the surrounding engine sees this table.
#[derive(Clone, Copy, Debug, PartialEq, Eq, Structural)]
pub enum TableType {
    Base,
    View,
    Temporary,
}

/// An operation that this write-only destination does not offer.
#[derive(Clone, Copy, Debug, PartialEq, Eq, Structural)]
pub enum UnsupportedOperation {
    Read,
    Overwrite,
}

#[derive(Clone, Copy, Debug, PartialEq, Eq, Structural)]
pub enum SinkError {
    /// The operation is refused before anything is attempted.
    Unsupported(UnsupportedOperation),
    /// A publish failed; `rows_published` rows had been delivered before it.
    Delivery { rows_published: u64 },
}

impl SinkError {
    /// A human-readable description of the error.
    pub fn message(&self) -> (r: String)
        ensures
            r@ == match *self {
                SinkError::Unsupported(UnsupportedOperation::Read) =>
                    "Reading not implemented for TopicWriter please use TopicReader"@,
                SinkError::Unsupported(UnsupportedOperation::Overwrite) =>
                    "Overwrite not implemented for TopicWriter"@,
                SinkError::Delivery { .. } => "Message not delivered"@,
            },
    {
        let r = match self {
            SinkError::Unsupported(UnsupportedOperation::Read) => String::from_str(
                "Reading not implemented for TopicWriter please use TopicReader",
            ),
            SinkError::Unsupported(UnsupportedOperation::Overwrite) => String::from_str(
                "Overwrite not implemented for TopicWriter",
            ),
            SinkError::Delivery { .. } => String::from_str("Message not delivered"),
        };
        r
    }
}

/// A table that can only be written to: its rows are published to a topic.
#[derive(Debug)]
pub struct TopicWriter(pub KafkaWriteConfig);

impl TopicWriter {
    pub fn new(config: KafkaWriteConfig) -> (r: Self)
        ensures
            r.0 == config,
    {
        TopicWriter(config)
    }

    /// The fixed schema of the rows written here.
    pub fn schema(&self) -> (r: &Vec<Field>)
        ensures
            *r == self.0.schema,
    {
        &self.0.schema
    }

    pub fn table_type(&self) -> (r: TableType)
        ensures
            r == TableType::View,
    {
        TableType::View
    }

    /// Reading is not offered: every scan fails at once.
    pub fn scan(&self, projection: Option<&Vec<usize>>, limit: Option<usize>) -> (r: Result<
        (),
        SinkError,
    >)
        ensures
            r == Err::<(), SinkError>(SinkError::Unsupported(UnsupportedOperation::Read)),
    {
        Err(SinkError::Unsupported(UnsupportedOperation::Read))
    }

    /// A sink that appends to the topic; overwriting is refused.
    pub fn insert_into(&self, overwrite: bool) -> (r: Result<KafkaSink, SinkError>)
        ensures
            overwrite ==> r == Err::<KafkaSink, SinkError>(
                SinkError::Unsupported(UnsupportedOperation::Overwrite),
            ),
            !overwrite ==> (r matches Ok(s) && s.topic@ == self.0.topic@ && s.rows_written == 0
                && s.messages_sent == 0),
    {
        if overwrite {
            return Err(SinkError::Unsupported(UnsupportedOperation::Overwrite));
        }
        Ok(KafkaSink::new(&self.0))
    }
}

/// What to do with the batch that was just pulled.
#[derive(Clone, Copy, Debug, PartialEq, Eq, Structural)]
pub enum BatchAction {
    /// The batch is empty: send nothing.
    Skip,
    /// Encode every row of the batch and publish it as one message.
    Publish,
}

/// The state of one write: the topic and what has been sent so far.
#[derive(Debug)]
pub struct KafkaSink {
    pub topic: String,
    pub rows_written: u64,
    pub messages_sent: u64,
}

impl KafkaSink {
    pub fn new(config: &KafkaWriteConfig) -> (r: Self)
        ensures
            r.topic@ == config.topic@,
            r.rows_written == 0,
            r.messages_sent == 0,
    {
        KafkaSink { topic: config.topic.clone(), rows_written: 0, messages_sent: 0 }
    }

    /// Decides on a batch of `num_rows` rows; an empty batch is skipped.
    pub fn next_batch(&self, num_rows: u64) -> (r: BatchAction)
        ensures
            r == (if num_rows == 0 { BatchAction::Skip } else { BatchAction::Publish }),
    {
        if num_rows == 0 {
            BatchAction::Skip
        } else {
            BatchAction::Publish
        }
    }

    /// Records that a batch of `num_rows` rows was delivered.
    pub fn delivered(&mut self, num_rows: u64)
        requires
            old(self).rows_written + num_rows <= u64::MAX,
            old(self).messages_sent < u64::MAX,
        ensures
            final(self).topic == old(self).topic,
            final(self).rows_written == old(self).rows_written + num_rows,
            final(self).messages_sent == old(self).messages_sent + 1,
    {
        self.rows_written = self.rows_written + num_rows;
        self.messages_sent = self.messages_sent + 1;
    }

    /// The error that ends the write when a publish fails.
    pub fn delivery_failed(&self) -> (r: SinkError)
        ensures
            r == (SinkError::Delivery { rows_published: self.rows_written }),
    {
        SinkError::Delivery { rows_published: self.rows_written }
    }

    /// The row count reported when the batch stream is exhausted.
    pub fn finish(&self) -> (r: u64)
        ensures
            r == self.rows_written,
    {
        self.rows_written
    }
}

/// Sum of the row counts of `rows`.
pub open spec fn total_rows(rows: Seq<u64>) -> nat
    decreases rows.len(),
{
    if rows.len() == 0 {
        0
    } else {
        total_rows(rows.drop_last()) + rows.last() as nat
    }
}

/// Positions of the nonempty batches of `rows`, in order.
pub open spec fn nonempty_positions(rows: Seq<u64>) -> Seq<usize>
    decreases rows.len(),
{
    if rows.len() == 0 {
        Seq::empty()
    } else if rows.last() == 0 {
        nonempty_positions(rows.drop_last())
    } else {
        nonempty_positions(rows.drop_last()).push((rows.len() - 1) as usize)
    }
}

/// The outcome of writing a sequence of batches: the batches published, by
/// position, and the total row count.
#[derive(Debug)]
pub struct WritePlan {
    pub published: Vec<usize>,
    pub row_count: u64,
}

/// Writes batches of the given row counts, in order, with every publish
/// succeeding: each nonempty batch becomes exactly one message, empty ones
/// none, and the result counts every row.
pub fn write_all(batch_rows: &Vec<u64>) -> (r: Option<WritePlan>)
    ensures
        total_rows(batch_rows@) <= u64::MAX ==> (r matches Some(p) && p.published@
            == nonempty_positions(batch_rows@) && p.row_count == total_rows(batch_rows@)),
        total_rows(batch_rows@) > u64::MAX ==> r is None,
{
    let mut sink = KafkaSink { topic: String::new(), rows_written: 0, messages_sent: 0 };
    let mut published: Vec<usize> = Vec::new();
    let mut i: usize = 0;
    while i < batch_rows.len()
        invariant
            i <= batch_rows.len(),
            sink.rows_written == total_rows(batch_rows@.take(i as int)),
            published@ == nonempty_positions(batch_rows@.take(i as int)),
            sink.messages_sent == published@.len(),
            published@.len() <= i,
        decreases batch_rows.len() - i,
    {
        let n = batch_rows[i];
        proof {
            assert(batch_rows@.take(i + 1).drop_last() =~= batch_rows@.take(i as int));
        }
        if n > u64::MAX - sink.rows_written {
            proof {
                lemma_total_rows_prefix(batch_rows@, i + 1);
            }
            return None;
        }
        match sink.next_batch(n) {
            BatchAction::Skip => {},
            BatchAction::Publish => {
                published.push(i);
                sink.delivered(n);
            },
        }
        i = i + 1;
    }
    assert(batch_rows@.take(i as int) =~= batch_rows@);
    Some(WritePlan { published, row_count: sink.finish() })
}

proof fn lemma_total_rows_prefix(rows: Seq<u64>, k: int)
    requires
        0 <= k <= rows.len(),
    ensures
        total_rows(rows.take(k)) <= total_rows(rows),
    decreases rows.len() - k,
{
    if k < rows.len() {
        lemma_total_rows_prefix(rows, k + 1);
        assert(rows.take(k + 1).drop_last() =~= rows.take(k));
    } else {
        assert(rows.take(k) =~= rows);
    }
}

} // verus!
