//! Worker behaviour: bounded registration, dispatch ordering, slot
//! teardown, and accept-batch assignment.
use eligos::{
    assign_accepted, choose_worker, ClientInfo, Codec, EchoReceiver, Framed, ReadOutcome,
    SlotsFull, Worker, WriteOutcome,
};

type EchoWorker = Worker<Framed, Framed, EchoReceiver>;

fn new_worker(capacity: usize) -> EchoWorker {
    Worker::new(capacity, Framed::new(4), EchoReceiver)
}

fn info() -> ClientInfo {
    ClientInfo { addr: None }
}

#[test]
fn registration_fails_exactly_when_full() {
    let mut w = new_worker(2);
    let t0 = w.register(Framed::new(4)).unwrap();
    let t1 = w.register(Framed::new(4)).unwrap();
    assert_ne!(t0, t1);
    assert_eq!(w.conn_count(), 2);

    // The table is full: the explicit exhaustion failure, surfaced.
    assert_eq!(w.register(Framed::new(4)), Err(SlotsFull));

    // Freeing one slot makes registration succeed immediately.
    assert!(w.close_conn(t0));
    let t2 = w.register(Framed::new(4)).unwrap();
    assert_eq!(w.conn_count(), 2);
    assert!(w.contains(t2));
}

#[test]
fn two_pipelined_requests_get_two_ordered_responses() {
    let mut w = new_worker(8);
    let tok = w.register(Framed::new(4)).unwrap();

    // Two framed requests arriving in one read.
    let codec = Framed::new(4);
    let mut stream = codec.encode(&vec![1u8, 1]);
    stream.extend_from_slice(&codec.encode(&vec![2u8, 2, 2]));

    let (reqs, es) = w.conn_readable(tok, ReadOutcome::Read(stream)).unwrap();
    assert_eq!(reqs, vec![vec![1u8, 1], vec![2u8, 2, 2]]);
    assert!(es.unwrap().readable);

    // The echo handler answers both; both responses are enqueued in
    // request order, and the connection becomes write-pending.
    let es = w.dispatch(tok, info(), &reqs).unwrap().unwrap();
    assert!(es.writable);

    // Drain with partial writes and check the wire bytes: the two framed
    // responses, in order.
    let mut written: Vec<u8> = Vec::new();
    loop {
        let head: Vec<u8> = match w.write_head(tok) {
            Some(b) => b.clone(),
            None => break,
        };
        let n = 2usize.min(head.len());
        written.extend_from_slice(&head[..n]);
        w.conn_writable(tok, WriteOutcome::Wrote(n)).unwrap();
    }
    let mut expect = codec.encode(&vec![1u8, 1]);
    expect.extend_from_slice(&codec.encode(&vec![2u8, 2, 2]));
    assert_eq!(written, expect);
}

#[test]
fn disconnect_mid_write_frees_the_slot() {
    let mut w = new_worker(4);
    let tok = w.register(Framed::new(4)).unwrap();
    let reqs = vec![vec![5u8, 5]];
    w.dispatch(tok, info(), &reqs).unwrap();
    assert!(w.write_head(tok).is_some(), "bytes still queued");

    // The peer disconnects mid-write: the slot is freed, nothing panics.
    let r = w.conn_writable(tok, WriteOutcome::Failed);
    assert!(r.is_err());
    assert!(!w.contains(tok));
    assert_eq!(w.conn_count(), 0);

    // The freed slot is usable again.
    let t2 = w.register(Framed::new(4)).unwrap();
    assert!(w.contains(t2));
}

#[test]
fn hup_frees_the_slot() {
    let mut w = new_worker(4);
    let tok = w.register(Framed::new(4)).unwrap();
    assert!(w.close_conn(tok));
    assert!(!w.contains(tok));
    assert!(!w.close_conn(tok), "already gone");
}

#[test]
fn unknown_tokens_are_ignored() {
    let mut w = new_worker(4);
    let (reqs, es) = w
        .conn_readable::<Vec<u8>>(99, ReadOutcome::WouldBlock)
        .unwrap();
    assert!(reqs.is_empty());
    assert!(es.is_none());
    assert_eq!(w.conn_writable(99, WriteOutcome::WouldBlock), Ok(None));
    assert_eq!(w.dispatch(99, info(), &Vec::<Vec<u8>>::new()), Ok(None));
}

#[test]
fn accept_batch_assigns_every_connection() {
    // Three connections accepted in one readiness wakeup: all three are
    // assigned, in order, not just the first.
    let accepted = vec![10u32, 20, 30];
    let assigned = assign_accepted(2, accepted);
    assert_eq!(assigned.len(), 3);
    assert_eq!(assigned, vec![(0usize, 10u32), (0, 20), (0, 30)]);
}

#[test]
fn worker_choice_is_first_worker_placeholder() {
    assert_eq!(choose_worker(1), 0);
    assert_eq!(choose_worker(7), 0);
}
