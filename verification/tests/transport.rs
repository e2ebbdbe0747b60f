use point_viewer::data::Batch;
use point_viewer::geom::Pos;
use point_viewer::pipeline::BoundedQueue;
use point_viewer::pipeline::QueryError;
use point_viewer::wire::reassemble;
use point_viewer::wire::rows_per_message;
use point_viewer::wire::split_batch;

fn sample_batch(n: i64) -> Batch {
    let mut positions = Vec::new();
    let mut color = Vec::new();
    for i in 0..n {
        positions.push(Pos { x: i, y: -i, z: 2 * i });
        color.push(i % 256);
    }
    Batch { positions, columns: vec![color] }
}

#[test]
fn wire_split_respects_message_size() {
    let b = sample_batch(1000);
    // 32 bytes per row (24 position + 8 for one column), 100-byte messages
    let cap = rows_per_message(100, 1);
    assert_eq!(cap, 3);
    let msgs = split_batch(&b, cap);
    for m in &msgs {
        assert!(m.positions.len() <= cap);
        assert_eq!(m.columns.len(), 1);
    }
    assert_eq!(msgs.len(), (1000 + cap - 1) / cap);
}

#[test]
fn wire_messages_always_carry_at_least_one_row() {
    // a budget below one row's size still makes progress
    assert_eq!(rows_per_message(10, 4), 1);
}

#[test]
fn wire_roundtrip_restores_the_batch() {
    let b = sample_batch(997);
    let msgs = split_batch(&b, 64);
    let back = reassemble(&msgs, 1).expect("reassembly should succeed");
    assert_eq!(back.positions, b.positions);
    assert_eq!(back.columns, b.columns);
}

#[test]
fn wire_reassembly_rejects_mismatched_layout() {
    let b = sample_batch(10);
    let msgs = split_batch(&b, 4);
    // the caller expected two attribute columns, the stream carries one
    assert!(matches!(reassemble(&msgs, 2), Err(QueryError::Transport)));
}

#[test]
fn bounded_queue_is_fifo_and_bounded() {
    let mut q = BoundedQueue::new(2, 100);
    assert!(!q.is_full());
    assert_eq!(q.len(), 0);
    q.push(sample_batch(3));
    q.push(sample_batch(5));
    assert!(q.is_full());
    q.in_flight_rows_bounded();
    let first = q.pop().unwrap();
    assert_eq!(first.positions.len(), 3);
    let second = q.pop().unwrap();
    assert_eq!(second.positions.len(), 5);
    assert!(q.pop().is_none());
}
