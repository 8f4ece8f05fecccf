//! The connection state machine: queueing, partial writes, interest
//! transitions, and read outcomes.
use eligos::{Codec, Conn, ConnError, Framed, ReadOutcome, WriteOutcome};

fn new_conn() -> Conn<Framed> {
    Conn::new(Framed::new(4))
}

/// Drain the connection by writing at most `step` bytes per writable
/// event, returning everything "written to the peer".
fn drain(conn: &mut Conn<Framed>, step: usize) -> Vec<u8> {
    let mut written: Vec<u8> = Vec::new();
    loop {
        let head: Vec<u8> = match conn.write_head() {
            Some(b) => b.clone(),
            None => break,
        };
        let n = step.min(head.len());
        written.extend_from_slice(&head[..n]);
        conn.writable(WriteOutcome::Wrote(n)).unwrap();
    }
    written
}

#[test]
fn written_bytes_equal_enqueued_bytes_in_order() {
    // However the writes are chopped up, the peer sees the enqueued
    // buffers, concatenated in enqueue order.
    for step in [1usize, 2, 3, 4, 100] {
        let mut conn = new_conn();
        conn.reply(vec![1, 2, 3]).unwrap();
        conn.reply(vec![]).unwrap();
        conn.reply(vec![4, 5]).unwrap();
        conn.reply(vec![6]).unwrap();
        assert_eq!(conn.res_remaining, 6);
        let written = drain(&mut conn, step);
        assert_eq!(written, vec![1, 2, 3, 4, 5, 6], "step {step}");
        assert_eq!(conn.res_remaining, 0);
    }
}

#[test]
fn interest_tracks_write_pending_state() {
    let mut conn = new_conn();
    assert!(conn.interest.readable && !conn.interest.writable);
    assert!(conn.interest.hup && conn.interest.error);

    let es = conn.reply(vec![7, 8]).unwrap();
    assert!(es.writable, "enqueueing adds writable interest");

    let es = conn.writable(WriteOutcome::Wrote(1)).unwrap();
    assert!(es.writable, "still write-pending with bytes queued");

    let es = conn.writable(WriteOutcome::Wrote(1)).unwrap();
    assert!(!es.writable && es.readable, "drained: back to idle");
    assert!(es.hup && es.error, "hangup/error monitoring stays active");
}

#[test]
fn would_block_keeps_queue_and_arms_writable() {
    let mut conn = new_conn();
    conn.reply(vec![9, 9, 9]).unwrap();
    let before = conn.res_remaining;
    let es = conn.writable(WriteOutcome::WouldBlock).unwrap();
    assert!(es.writable);
    assert_eq!(conn.res_remaining, before);
    assert_eq!(conn.write_head().unwrap(), &vec![9, 9, 9]);
}

#[test]
fn spurious_writable_with_empty_queue_is_harmless() {
    let mut conn = new_conn();
    let es = conn.writable(WriteOutcome::WouldBlock).unwrap();
    assert_eq!(es, conn.interest);
    assert_eq!(conn.res_remaining, 0);
}

#[test]
fn failed_write_is_fatal() {
    let mut conn = new_conn();
    conn.reply(vec![1]).unwrap();
    let r = conn.writable(WriteOutcome::Failed);
    assert_eq!(r, Err(ConnError::Fatal));
}

#[test]
fn readable_decodes_through_connection_codec() {
    let mut conn = new_conn();
    let codec = Framed::new(4);
    let mut stream = codec.encode(&vec![1u8, 2]);
    stream.extend_from_slice(&codec.encode(&vec![3u8]));

    // Feed the first half, then the rest: partial frames stay buffered.
    let half = 5usize;
    let (msgs, _) = conn
        .readable::<Vec<u8>>(ReadOutcome::Read(stream[..half].to_vec()))
        .unwrap();
    assert_eq!(msgs.len(), 0);
    let (msgs, es) = conn
        .readable::<Vec<u8>>(ReadOutcome::Read(stream[half..].to_vec()))
        .unwrap();
    assert_eq!(msgs, vec![vec![1u8, 2], vec![3u8]]);
    assert!(es.readable);
}

#[test]
fn readable_would_block_is_transient() {
    let mut conn = new_conn();
    let (msgs, es) = conn.readable::<Vec<u8>>(ReadOutcome::WouldBlock).unwrap();
    assert_eq!(msgs.len(), 0);
    assert!(es.readable, "re-armed, not torn down");
}

#[test]
fn readable_failure_is_fatal() {
    let mut conn = new_conn();
    let r = conn.readable::<Vec<u8>>(ReadOutcome::Failed);
    assert_eq!(r.err(), Some(ConnError::Fatal));
}

#[test]
fn reply_overflow_is_reported_not_panicked() {
    let mut conn = new_conn();
    conn.res_remaining = usize::MAX;
    let r = conn.reply(vec![1]);
    assert_eq!(r, Err(ConnError::QueueOverflow));
}
