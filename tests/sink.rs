use stream_core::sink::{
    write_all, BatchAction, Field, KafkaSink, KafkaWriteConfig, SinkError, TableType, TopicWriter,
    UnsupportedOperation,
};
use stream_core::value::DataType;

fn config() -> KafkaWriteConfig {
    KafkaWriteConfig {
        topic: "out".to_string(),
        schema: vec![Field { name: "n".to_string(), data_type: DataType::Int64 }],
    }
}

#[test]
fn empty_batches_send_nothing() {
    let plan = write_all(&vec![0, 0]).unwrap();
    assert_eq!(plan.row_count, 0);
    assert!(plan.published.is_empty());
}

#[test]
fn rows_are_counted_and_batches_published_in_order() {
    let plan = write_all(&vec![3, 2]).unwrap();
    assert_eq!(plan.row_count, 5);
    assert_eq!(plan.published, vec![0, 1]);
    let plan = write_all(&vec![0, 4, 0, 1]).unwrap();
    assert_eq!(plan.row_count, 5);
    assert_eq!(plan.published, vec![1, 3]);
    let plan = write_all(&vec![]).unwrap();
    assert_eq!(plan.row_count, 0);
}

#[test]
fn row_count_overflow_is_reported() {
    assert!(write_all(&vec![u64::MAX, 1]).is_none());
    assert_eq!(write_all(&vec![u64::MAX, 0]).unwrap().row_count, u64::MAX);
}

#[test]
fn reading_and_overwriting_are_refused() {
    let writer = TopicWriter::new(config());
    assert_eq!(writer.scan(None, None), Err(SinkError::Unsupported(UnsupportedOperation::Read)));
    assert_eq!(writer.scan(Some(&vec![0]), Some(10)), Err(SinkError::Unsupported(UnsupportedOperation::Read)));
    assert_eq!(
        writer.insert_into(true).err(),
        Some(SinkError::Unsupported(UnsupportedOperation::Overwrite))
    );
    assert!(writer.scan(None, None).unwrap_err().message().contains("TopicReader"));
}

#[test]
fn appending_insert_gives_a_fresh_sink() {
    let writer = TopicWriter::new(config());
    assert_eq!(writer.table_type(), TableType::View);
    assert_eq!(writer.schema().len(), 1);
    assert_eq!(writer.schema()[0].name, "n");
    let sink = writer.insert_into(false).unwrap();
    assert_eq!(sink.topic, "out");
    assert_eq!(sink.rows_written, 0);
    assert_eq!(sink.messages_sent, 0);
}

#[test]
fn sink_steps() {
    let mut sink = KafkaSink::new(&config());
    assert_eq!(sink.next_batch(0), BatchAction::Skip);
    assert_eq!(sink.next_batch(3), BatchAction::Publish);
    sink.delivered(3);
    sink.delivered(2);
    assert_eq!(sink.messages_sent, 2);
    assert_eq!(sink.finish(), 5);
    assert_eq!(sink.delivery_failed(), SinkError::Delivery { rows_published: 5 });
    assert!(!sink.delivery_failed().message().is_empty());
}
