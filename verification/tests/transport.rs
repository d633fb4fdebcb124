use logstash_rs::{AdvancedTcpStream, Error, SendPhase, TcpSender};

fn io_err(msg: &str) -> Result<(), Error> {
    Err(Error::Io(msg.to_string()))
}

#[test]
fn starts_disconnected_and_connects_lazily() {
    let sender = TcpSender::new("localhost".to_string(), 5044, false, Some(10_000));
    assert!(!sender.stream.connected);
    assert_eq!(sender.stream.port, 5044);
    assert_eq!(sender.stream.hostname, "localhost");
    assert!(!sender.stream.use_tls);
    assert_eq!(sender.stream.connection_timeout_ms, Some(10_000));
}

#[test]
fn happy_path_connects_once_then_writes() {
    let mut t = AdvancedTcpStream::new("h".to_string(), 1, false, None);
    let phase = t.begin_send();
    assert!(matches!(phase, SendPhase::Connecting { retry: false }));
    let phase = t.on_connect_result(Ok(()));
    assert!(t.connected);
    assert!(matches!(phase, SendPhase::Writing { fresh: true }));
    let phase = t.on_write_result(true, Ok(()));
    assert!(matches!(phase, SendPhase::Done(Ok(()))));
    assert!(t.connected);
    // the next send starts writing right away: no reconnect
    assert!(matches!(t.begin_send(), SendPhase::Writing { fresh: false }));
}

#[test]
fn write_failure_triggers_exactly_one_reconnect() {
    let mut t = AdvancedTcpStream::new("h".to_string(), 1, false, None);
    t.on_connect_result(Ok(()));
    t.on_write_result(true, Ok(()));
    assert!(t.connected);

    // an established stream fails mid-write: the machine asks for one
    // reconnect
    let phase = t.begin_send();
    assert!(matches!(phase, SendPhase::Writing { fresh: false }));
    let phase = t.on_write_result(false, io_err("reset"));
    assert!(!t.connected);
    assert!(matches!(phase, SendPhase::Connecting { retry: true }));

    // the reconnect fails: the send is over with an I/O error, and the
    // phase asks for nothing further
    let phase = t.on_connect_result(io_err("refused"));
    match phase {
        SendPhase::Done(Err(Error::Io(msg))) => assert_eq!(msg, "refused"),
        _ => panic!("expected the send to end with the connect error"),
    }
    assert!(!t.connected);
}

#[test]
fn retried_write_failure_ends_the_send() {
    let mut t = AdvancedTcpStream::new("h".to_string(), 1, false, None);
    t.on_connect_result(Ok(()));
    t.on_write_result(true, Ok(()));

    t.begin_send();
    let phase = t.on_write_result(false, io_err("reset"));
    assert!(matches!(phase, SendPhase::Connecting { retry: true }));
    // the reconnect succeeds, but the retried write fails too: no
    // further retry
    let phase = t.on_connect_result(Ok(()));
    assert!(matches!(phase, SendPhase::Writing { fresh: true }));
    let phase = t.on_write_result(true, io_err("reset again"));
    match phase {
        SendPhase::Done(Err(Error::Io(msg))) => assert_eq!(msg, "reset again"),
        _ => panic!("expected the send to end with the write error"),
    }
    assert!(!t.connected);
}

#[test]
fn failed_first_connect_ends_the_send() {
    let mut t = AdvancedTcpStream::new("h".to_string(), 1, false, None);
    let phase = t.begin_send();
    assert!(matches!(phase, SendPhase::Connecting { retry: false }));
    let phase = t.on_connect_result(io_err("no route"));
    assert!(matches!(phase, SendPhase::Done(Err(_))));
    assert!(!t.connected);
}

#[test]
fn write_failure_on_fresh_stream_is_final() {
    let mut t = AdvancedTcpStream::new("h".to_string(), 1, false, None);
    t.begin_send();
    let phase = t.on_connect_result(Ok(()));
    assert!(matches!(phase, SendPhase::Writing { fresh: true }));
    let phase = t.on_write_result(true, io_err("reset"));
    assert!(matches!(phase, SendPhase::Done(Err(_))));
    assert!(!t.connected);
}

#[test]
fn flush_is_a_no_op_when_disconnected() {
    let t = AdvancedTcpStream::new("h".to_string(), 1, false, None);
    assert!(!t.flush_needed());
}

#[test]
fn flush_failure_discards_the_stream() {
    let mut t = AdvancedTcpStream::new("h".to_string(), 1, false, None);
    t.on_connect_result(Ok(()));
    assert!(t.flush_needed());
    let res = t.on_flush_result(io_err("reset"));
    assert!(res.is_err());
    assert!(!t.connected);
    // the next send reconnects
    assert!(matches!(t.begin_send(), SendPhase::Connecting { retry: false }));
}
