use logstash_rs::{Command, Level, LogStashRecord, TransportOp, Worker, WorkerEvent};

fn record(level: Level, message: &str) -> LogStashRecord {
    let mut r = LogStashRecord::from_record(
        None,
        None,
        None,
        level,
        "test".to_string(),
        message.to_string(),
    );
    r.set_timestamp(0);
    r
}

fn message_of(r: &LogStashRecord) -> String {
    match r.fields.get("message") {
        Some(logstash_rs::JsonValue::Str(s)) => s.clone(),
        _ => panic!("record without message"),
    }
}

fn batches(ops: &[TransportOp]) -> Vec<Vec<String>> {
    ops.iter()
        .filter_map(|op| match op {
            TransportOp::SendBatch(rs) => Some(rs.iter().map(message_of).collect()),
            _ => None,
        })
        .collect()
}

fn singles(ops: &[TransportOp]) -> Vec<String> {
    ops.iter()
        .filter_map(|op| match op {
            TransportOp::SendRecord(r) => Some(message_of(r)),
            _ => None,
        })
        .collect()
}

fn flush_count(ops: &[TransportOp]) -> usize {
    ops.iter().filter(|op| matches!(op, TransportOp::Flush)).count()
}

#[test]
fn seven_records_at_size_three_make_three_batches_in_order() {
    let mut w = Worker::new(Some(3), None, Level::Error, 10_000);
    let mut ops = Vec::new();
    for i in 0..7 {
        w.send(record(Level::Info, &format!("r{}", i)), 0, &mut ops);
    }
    w.flush(&mut ops);
    let bs = batches(&ops);
    assert_eq!(bs.len(), 3, "ceil(7/3) batches");
    assert_eq!(bs[0], vec!["r0", "r1", "r2"]);
    assert_eq!(bs[1], vec!["r3", "r4", "r5"]);
    assert_eq!(bs[2], vec!["r6"]);
    assert!(singles(&ops).is_empty(), "no record goes out alone");
}

#[test]
fn six_records_at_size_three_leave_nothing_for_the_final_flush() {
    let mut w = Worker::new(Some(3), None, Level::Error, 10_000);
    let mut ops = Vec::new();
    for i in 0..6 {
        w.send(record(Level::Info, &format!("r{}", i)), 0, &mut ops);
    }
    assert_eq!(batches(&ops).len(), 2);
    let before = ops.len();
    w.flush(&mut ops);
    assert_eq!(batches(&ops).len(), 2, "the final flush adds no batch");
    assert_eq!(ops.len(), before + 1, "only the transport-level flush");
}

#[test]
fn unbuffered_worker_forwards_individually_in_order() {
    let mut w = Worker::new(None, None, Level::Error, 10_000);
    let mut ops = Vec::new();
    for i in 0..4 {
        w.send(record(Level::Info, &format!("r{}", i)), 0, &mut ops);
    }
    assert_eq!(singles(&ops), vec!["r0", "r1", "r2", "r3"]);
    assert!(batches(&ops).is_empty());
}

#[test]
fn buffer_size_below_two_means_unbuffered() {
    for size in [Some(0), Some(1)] {
        let mut w = Worker::new(size, None, Level::Error, 10_000);
        let mut ops = Vec::new();
        w.send(record(Level::Info, "x"), 0, &mut ops);
        assert_eq!(singles(&ops).len(), 1);
        assert!(batches(&ops).is_empty());
    }
}

#[test]
fn bypass_record_jumps_the_queue() {
    let mut w = Worker::new(Some(10), None, Level::Error, 10_000);
    let mut ops = Vec::new();
    w.send(record(Level::Info, "buffered1"), 0, &mut ops);
    w.send(record(Level::Info, "buffered2"), 0, &mut ops);
    w.send(record(Level::Error, "urgent"), 0, &mut ops);
    assert_eq!(singles(&ops), vec!["urgent"], "the urgent record went out at once");
    assert!(batches(&ops).is_empty(), "the buffered records did not");
    w.flush(&mut ops);
    assert_eq!(batches(&ops), vec![vec!["buffered1", "buffered2"]]);
}

#[test]
fn first_record_in_empty_buffer_arms_the_deadline() {
    let mut w = Worker::new(Some(10), Some(1_000), Level::Error, 10_000);
    let mut ops = Vec::new();
    assert_eq!(w.deadline_ms, None);
    w.send(record(Level::Info, "a"), 5_000, &mut ops);
    assert_eq!(w.deadline_ms, Some(6_000));
    // a second record does not move the deadline
    w.send(record(Level::Info, "b"), 5_700, &mut ops);
    assert_eq!(w.deadline_ms, Some(6_000));
    assert!(ops.is_empty());
}

#[test]
fn timeout_flushes_accumulated_records_once() {
    let mut w = Worker::new(Some(10), Some(1_000), Level::Error, 10_000);
    let mut ops = Vec::new();
    w.send(record(Level::Info, "a"), 0, &mut ops);
    w.send(record(Level::Info, "b"), 100, &mut ops);
    let stop = w.step(WorkerEvent::TimedOut, 1_000, &mut ops);
    assert!(!stop);
    assert_eq!(batches(&ops), vec![vec!["a", "b"]]);
    assert_eq!(flush_count(&ops), 1);
    assert_eq!(w.deadline_ms, None);
    assert!(w.buffer.is_empty());
}

#[test]
fn flush_command_clears_deadline_and_buffer() {
    let mut w = Worker::new(Some(10), Some(1_000), Level::Error, 10_000);
    let mut ops = Vec::new();
    w.send(record(Level::Info, "a"), 0, &mut ops);
    let stop = w.step(WorkerEvent::Cmd(Command::Flush), 10, &mut ops);
    assert!(!stop);
    assert_eq!(batches(&ops), vec![vec!["a"]]);
    assert_eq!(w.deadline_ms, None);
}

#[test]
fn flushing_empty_buffer_still_flushes_the_transport() {
    let mut w = Worker::new(Some(10), None, Level::Error, 10_000);
    let mut ops = Vec::new();
    w.flush(&mut ops);
    assert_eq!(ops.len(), 1);
    assert!(matches!(ops[0], TransportOp::Flush));
}

#[test]
fn batch_command_is_admitted_record_by_record() {
    let mut w = Worker::new(Some(2), None, Level::Error, 10_000);
    let mut ops = Vec::new();
    let batch = vec![
        record(Level::Info, "a"),
        record(Level::Error, "urgent"),
        record(Level::Info, "b"),
        record(Level::Info, "c"),
    ];
    let stop = w.step(WorkerEvent::Cmd(Command::SendBatch(batch)), 0, &mut ops);
    assert!(!stop);
    assert_eq!(singles(&ops), vec!["urgent"]);
    assert_eq!(batches(&ops), vec![vec!["a", "b"]]);
    // "c" is still buffered
    assert_eq!(w.buffer.len(), 1);
}

#[test]
fn closed_event_stops_the_worker() {
    let mut w = Worker::new(Some(10), None, Level::Error, 10_000);
    let mut ops = Vec::new();
    let stop = w.step(WorkerEvent::Closed, 0, &mut ops);
    assert!(stop);
    assert!(ops.is_empty());
}

#[test]
fn mixed_traffic_reaches_the_transport_in_arrival_order() {
    let mut w = Worker::new(Some(3), None, Level::Error, 10_000);
    let mut ops = Vec::new();
    w.step(WorkerEvent::Cmd(Command::Send(record(Level::Info, "r0"))), 0, &mut ops);
    w.step(
        WorkerEvent::Cmd(Command::SendBatch(vec![
            record(Level::Info, "r1"),
            record(Level::Info, "r2"),
            record(Level::Info, "r3"),
        ])),
        0,
        &mut ops,
    );
    w.step(WorkerEvent::Cmd(Command::Flush), 0, &mut ops);
    w.step(WorkerEvent::Cmd(Command::Send(record(Level::Info, "r4"))), 0, &mut ops);
    w.step(WorkerEvent::TimedOut, 0, &mut ops);
    let mut seen: Vec<String> = Vec::new();
    for op in &ops {
        match op {
            TransportOp::SendRecord(r) => seen.push(message_of(r)),
            TransportOp::SendBatch(rs) => seen.extend(rs.iter().map(message_of)),
            TransportOp::Flush => {},
        }
    }
    assert_eq!(seen, vec!["r0", "r1", "r2", "r3", "r4"]);
    assert!(w.buffer.is_empty());
}

#[test]
fn error_reports_are_rate_limited() {
    let mut w = Worker::new(Some(10), None, Level::Error, 10_000);
    let io = logstash_rs::Error::Io("broken pipe".to_string());
    let (report, stop) = w.on_error(&io, 1_000);
    assert!(report && !stop, "the first error is reported");
    let (report, stop) = w.on_error(&io, 5_000);
    assert!(!report && !stop, "a repeat inside the period is suppressed");
    let (report, stop) = w.on_error(&io, 11_001);
    assert!(report && !stop, "after the period it is reported again");
}

#[test]
fn fatal_errors_stop_the_worker() {
    let mut w = Worker::new(Some(10), None, Level::Error, 10_000);
    let fatal = logstash_rs::Error::FatalInternal("poisoned".to_string());
    let (_, stop) = w.on_error(&fatal, 0);
    assert!(stop);
    let io = logstash_rs::Error::Io("broken pipe".to_string());
    let (_, stop) = w.on_error(&io, 20_000);
    assert!(!stop);
}
