use waterfall::publish::{RowBatch, RowDto};

fn row(sample: u64) -> RowDto<f32> {
    RowDto {
        sample,
        bins: vec![sample as f32],
    }
}

#[test]
fn batch_keeps_the_newest_rows_when_full() {
    let mut batch = RowBatch::new(3);
    for s in 0..5 {
        batch.push(row(s));
    }
    assert_eq!(batch.len(), 3);
    assert_eq!(batch.dropped(), 2);
    let drained = batch.drain();
    assert_eq!(
        drained.iter().map(|r| r.sample).collect::<Vec<_>>(),
        vec![2, 3, 4],
        "oldest rows are the ones discarded"
    );
    assert!(batch.is_empty());
    assert_eq!(batch.dropped(), 2, "drop count survives a drain");
}

#[test]
fn every_row_is_held_or_counted_as_dropped() {
    let mut batch = RowBatch::new(4);
    for s in 0..100 {
        assert!(batch.can_push(1));
        batch.push(row(s));
        assert_eq!(batch.len() as u64 + batch.dropped(), s + 1);
    }
    let drained = batch.drain();
    assert_eq!(drained, vec![row(96), row(97), row(98), row(99)]);
    assert_eq!(batch.drain(), vec![]);
    batch.push(row(100));
    assert_eq!(batch.len(), 1);
    assert_eq!(batch.dropped(), 96);
}

#[test]
fn a_batch_of_one_holds_the_last_row() {
    let mut batch = RowBatch::new(1);
    assert!(batch.is_empty());
    batch.push(row(1));
    batch.push(row(2));
    assert_eq!(batch.drain(), vec![row(2)]);
    assert_eq!(batch.dropped(), 1);
}
