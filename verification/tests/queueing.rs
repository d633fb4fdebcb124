use logstash_rs::queue::process_result;
use logstash_rs::{Command, CommandQueue, EnqueueOutcome, Error, Level, LogStashRecord};

fn record(level: Level, message: &str) -> LogStashRecord {
    let mut r = LogStashRecord::from_record(
        None,
        None,
        None,
        level,
        "test".to_string(),
        message.to_string(),
    );
    r.set_timestamp(0);
    r
}

#[test]
fn full_queue_rejects_an_important_record_with_backpressure() {
    let mut q = CommandQueue::new(3);
    for i in 0..3 {
        assert!(q.send(record(Level::Error, &format!("r{}", i))).is_ok());
    }
    let res = q.send(record(Level::Error, "one too many"));
    assert!(matches!(res, Err(Error::BufferFull)));
    assert_eq!(q.items.len(), 3, "the overflowing record was dropped");
}

#[test]
fn full_queue_drops_an_unimportant_record_silently() {
    let mut q = CommandQueue::new(3);
    for i in 0..3 {
        assert!(q.send(record(Level::Error, &format!("r{}", i))).is_ok());
    }
    let res = q.send(record(Level::Info, "telemetry"));
    assert!(res.is_ok(), "best-effort telemetry may be dropped without an error");
    assert_eq!(q.items.len(), 3);
}

#[test]
fn warn_is_the_importance_threshold() {
    let mut q = CommandQueue::new(1);
    assert!(q.send(record(Level::Info, "fill")).is_ok());
    assert!(matches!(q.send(record(Level::Warn, "w")), Err(Error::BufferFull)));
    assert!(q.send(record(Level::Info, "i")).is_ok());
    assert!(q.send(record(Level::Debug, "d")).is_ok());
    assert!(q.send(record(Level::Trace, "t")).is_ok());
}

#[test]
fn batch_is_important_when_any_record_is() {
    let mut q = CommandQueue::new(1);
    assert!(q.send(record(Level::Info, "fill")).is_ok());
    let unimportant = vec![record(Level::Info, "a"), record(Level::Debug, "b")];
    assert!(q.send_batch(unimportant).is_ok());
    let mixed = vec![record(Level::Info, "a"), record(Level::Error, "b")];
    assert!(matches!(q.send_batch(mixed), Err(Error::BufferFull)));
}

#[test]
fn flush_is_never_important() {
    let mut q = CommandQueue::new(1);
    assert!(q.send(record(Level::Error, "fill")).is_ok());
    assert!(q.flush().is_ok(), "a dropped flush is not an error");
    assert_eq!(q.items.len(), 1);
}

#[test]
fn stopped_queue_fails_every_call() {
    let mut q = CommandQueue::new(10);
    q.mark_stopped();
    assert!(matches!(
        q.send(record(Level::Info, "x")),
        Err(Error::SenderThreadStopped(_))
    ));
    assert!(matches!(q.send_batch(vec![]), Err(Error::SenderThreadStopped(_))));
    assert!(matches!(q.flush(), Err(Error::SenderThreadStopped(_))));
}

#[test]
fn commands_come_out_in_enqueue_order() {
    let mut q = CommandQueue::new(10);
    q.send(record(Level::Info, "first")).unwrap();
    q.flush().unwrap();
    q.send(record(Level::Info, "second")).unwrap();
    match q.dequeue() {
        Some(Command::Send(r)) => {
            match r.fields.get("message") {
                Some(logstash_rs::JsonValue::Str(s)) => assert_eq!(s, "first"),
                _ => panic!("missing message"),
            }
        },
        _ => panic!("expected the first send"),
    }
    assert!(matches!(q.dequeue(), Some(Command::Flush)));
    assert!(matches!(q.dequeue(), Some(Command::Send(_))));
    assert!(q.dequeue().is_none());
}

#[test]
fn process_result_maps_outcomes_to_producer_errors() {
    assert!(process_result(&EnqueueOutcome::Accepted, true).is_ok());
    assert!(process_result(&EnqueueOutcome::Accepted, false).is_ok());
    assert!(process_result(&EnqueueOutcome::Full, false).is_ok());
    assert!(matches!(
        process_result(&EnqueueOutcome::Full, true),
        Err(Error::BufferFull)
    ));
    assert!(matches!(
        process_result(&EnqueueOutcome::Disconnected, false),
        Err(Error::SenderThreadStopped(_))
    ));
    assert!(matches!(
        process_result(&EnqueueOutcome::Disconnected, true),
        Err(Error::SenderThreadStopped(_))
    ));
}

#[test]
fn error_kinds_classify_fatality() {
    assert!(Error::SenderThreadStopped("x".to_string()).is_fatal());
    assert!(Error::FatalInternal("x".to_string()).is_fatal());
    assert!(!Error::Io("x".to_string()).is_fatal());
    assert!(!Error::Serialization("x".to_string()).is_fatal());
    assert!(!Error::AddressResolution("h".to_string(), 1).is_fatal());
    assert!(!Error::Tls("x".to_string()).is_fatal());
    assert!(!Error::BufferFull.is_fatal());
    assert_eq!(Error::BufferFull.kind_name(), "buffer full");
    assert_eq!(Error::Io("x".to_string()).kind_name(), "io");
}
