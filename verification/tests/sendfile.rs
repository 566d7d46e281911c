//! The transport stream against a transport in memory.
use lanfile::sendfile::accept::{not_bound, Admission, AdmitAction, AdmitEvent, Decision};
use lanfile::sendfile::body::SendfileSlot;
use lanfile::sendfile::registry::{conn_key, shard_index, ConnKey, Ip, Registry, SHARDS};
use lanfile::sendfile::stream::{find_head_end, trailing, SendfileStream, StreamError, WriteStep};
use lanfile::sendfile::target::{Polled, SendError, SendfileTarget};
use lanfile::sendfile::upgrade::{range_start, upgrade_response, upgrade_response_with_slot};
use std::cell::{Cell, RefCell};
use std::collections::HashSet;
use std::rc::Rc;

#[test]
fn head_end_is_found_across_the_carry_boundary() {
    assert_eq!(find_head_end(b"\r\n\r", b"\nbody"), Some(0));
    assert_eq!(find_head_end(b"ab\r", b"\n\r\nrest"), Some(2));
}

#[test]
fn head_end_is_found_inside_one_buffer() {
    assert_eq!(find_head_end(&[], b"HTTP/1.1 200 OK\r\n\r\nbody"), Some(18));
}

#[test]
fn head_end_absent_reports_none() {
    assert_eq!(find_head_end(&[], b"HTTP/1.1 200 OK\r\n"), None);
    assert_eq!(find_head_end(b"\r\n", b""), None);
}

#[test]
fn trailing_keeps_the_last_three_bytes() {
    assert_eq!(trailing(b"ab", b"cdef"), (*b"def", 3));
    assert_eq!(trailing(&[], b"a"), (*b"a\0\0", 1));
    assert_eq!(trailing(b"abc", b""), (*b"abc", 3));
}

#[derive(Clone, Default)]
struct Record {
    out: Rc<RefCell<Vec<u8>>>,
    head: Rc<RefCell<Vec<u8>>>,
    stall_once: Rc<Cell<bool>>,
    sendfile_calls: Rc<Cell<usize>>,
    block_sendfile: Rc<Cell<bool>>,
    writable_polls: Rc<Cell<usize>>,
    flushed: Rc<Cell<bool>>,
    closed: Rc<Cell<bool>>,
}

struct FakeTarget(Record);

impl SendfileTarget for FakeTarget {
    type File = Rc<Vec<u8>>;
    type Waker = ();
    type Error = String;

    fn try_sendfile(
        &mut self,
        file: &Rc<Vec<u8>>,
        offset: u64,
        count: usize,
    ) -> Result<usize, SendError<String>> {
        self.0.sendfile_calls.set(self.0.sendfile_calls.get() + 1);
        if self.0.block_sendfile.get() {
            return Err(SendError::WouldBlock);
        }
        let start = (offset as usize).min(file.len());
        let end = (start + count.min(64 * 1024)).min(file.len());
        self.0.out.borrow_mut().extend_from_slice(&file[start..end]);
        Ok(end - start)
    }

    fn poll_writable(&mut self, _waker: &()) -> Polled<(), String> {
        self.0.writable_polls.set(self.0.writable_polls.get() + 1);
        if self.0.block_sendfile.get() {
            Polled::Pending
        } else {
            Polled::Ready(Ok(()))
        }
    }

    fn poll_write(&mut self, _waker: &(), buf: &[u8]) -> Polled<usize, String> {
        if self.0.stall_once.replace(false) {
            return Polled::Pending;
        }
        self.0.out.borrow_mut().extend_from_slice(buf);
        Polled::Ready(Ok(buf.len()))
    }

    fn poll_write_more(&mut self, _waker: &(), buf: &[u8]) -> Polled<usize, String> {
        if self.0.stall_once.replace(false) {
            return Polled::Pending;
        }
        self.0.out.borrow_mut().extend_from_slice(buf);
        self.0.head.borrow_mut().extend_from_slice(buf);
        Polled::Ready(Ok(buf.len()))
    }

    fn poll_flush(&mut self, _waker: &()) -> Polled<(), String> {
        self.0.flushed.set(true);
        Polled::Ready(Ok(()))
    }

    fn poll_shutdown(&mut self, _waker: &()) -> Polled<(), String> {
        self.0.closed.set(true);
        Polled::Ready(Ok(()))
    }
}

const HEAD: &[u8] = b"HTTP/1.1 200 OK\r\ncontent-length: 150000\r\n\r\n";
const OFFSET: u64 = 1000;
const LEN: u64 = 150_000;

type Slot = SendfileSlot<Rc<Vec<u8>>>;

fn armed_stream() -> (Record, SendfileStream<FakeTarget>, Slot, Vec<u8>) {
    let payload: Vec<u8> = (0..200_000_u32).map(|index| (index % 251) as u8 + 1).collect();
    let mut slot: Slot = SendfileSlot::new();
    let body = slot.arm(Rc::new(payload.clone()), OFFSET, LEN).unwrap();
    assert_eq!(body.len(), LEN);
    let record = Record::default();
    let stream = SendfileStream::new(FakeTarget(record.clone()));
    (record, stream, slot, payload)
}

/// Writes all of `buf`; false where the transport stays full.
fn write_all(stream: &mut SendfileStream<FakeTarget>, slot: &mut Slot, buf: &[u8]) -> bool {
    let mut rest = buf;
    let mut stalls = 0;
    while !rest.is_empty() {
        match stream.poll_write(slot, &(), rest) {
            WriteStep::Pending => {
                stalls += 1;
                if stalls > 3 {
                    return false;
                }
            }
            WriteStep::Again => {}
            WriteStep::Ready(Ok(n)) => rest = &rest[n..],
            WriteStep::Ready(Err(_)) => panic!("the stream failed"),
        }
    }
    true
}

fn write_response(stream: &mut SendfileStream<FakeTarget>, slot: &mut Slot) -> bool {
    let placeholders = vec![0_u8; 50_000];
    let wrote = write_all(stream, slot, &HEAD[..HEAD.len() - 2])
        && write_all(stream, slot, &HEAD[HEAD.len() - 2..])
        && write_all(stream, slot, &placeholders)
        && write_all(stream, slot, &placeholders)
        && write_all(stream, slot, &placeholders);
    wrote && matches!(stream.poll_flush(&()), Polled::Ready(Ok(())))
}

#[test]
fn placeholders_become_file_content_at_the_requested_offset() {
    let (record, mut stream, mut slot, payload) = armed_stream();
    assert!(write_response(&mut stream, &mut slot));
    let out = record.out.borrow();
    assert_eq!(&out[..HEAD.len()], HEAD);
    assert_eq!(&out[HEAD.len()..], &payload[OFFSET as usize..(OFFSET + LEN) as usize]);
    assert!(record.sendfile_calls.get() > 0, "no sendfile was issued");
    assert!(record.flushed.get());
}

#[test]
fn the_head_is_handed_over_with_more_so_it_shares_a_segment_with_the_body() {
    let (record, mut stream, mut slot, _) = armed_stream();
    assert!(write_response(&mut stream, &mut slot));
    assert_eq!(record.head.borrow().as_slice(), HEAD);
}

#[test]
fn a_stalled_head_write_is_finished_before_the_file_content() {
    let (record, mut stream, mut slot, payload) = armed_stream();
    record.stall_once.set(true);
    assert!(write_response(&mut stream, &mut slot));
    let out = record.out.borrow();
    assert_eq!(&out[..HEAD.len()], HEAD, "head bytes were lost or reordered");
    assert_eq!(&out[HEAD.len()..], &payload[OFFSET as usize..(OFFSET + LEN) as usize]);
}

#[test]
fn a_blocked_sendfile_registers_a_wakeup() {
    let (record, mut stream, mut slot, _) = armed_stream();
    record.block_sendfile.set(true);
    assert!(
        !write_response(&mut stream, &mut slot),
        "a write must not finish while the socket stays full"
    );
    assert!(
        record.writable_polls.get() > 0,
        "a blocked sendfile parked the task without registering a wakeup"
    );
}

#[test]
fn a_response_in_one_write_is_the_same() {
    let (record, mut stream, mut slot, payload) = armed_stream();
    let mut all = HEAD.to_vec();
    all.extend_from_slice(&vec![0_u8; LEN as usize]);
    assert!(write_all(&mut stream, &mut slot, &all));
    assert_eq!(&record.out.borrow()[HEAD.len()..], &payload[1000..151_000]);
    // The connection is idle again: what follows is passed through.
    assert!(!slot.is_armed());
    assert!(write_all(&mut stream, &mut slot, b"plain"));
    assert!(record.out.borrow().ends_with(b"plain"));
}

#[test]
fn a_body_that_is_too_long_fails() {
    let mut slot: Slot = SendfileSlot::new();
    assert!(slot.arm(Rc::new(vec![1, 2, 3, 4]), 0, 2).is_some());
    let mut stream = SendfileStream::new(FakeTarget(Record::default()));
    let step = stream.poll_write(&mut slot, &(), b"\r\n\r\nabc");
    assert!(matches!(step, WriteStep::Ready(Err(StreamError::BodyTooLong))));
}

#[test]
fn a_file_that_ends_too_soon_fails() {
    let mut slot: Slot = SendfileSlot::new();
    assert!(slot.arm(Rc::new(vec![1]), 0, 3).is_some());
    let mut stream = SendfileStream::new(FakeTarget(Record::default()));
    let step = stream.poll_write(&mut slot, &(), b"\r\n\r\nabc");
    assert!(matches!(step, WriteStep::Ready(Err(StreamError::FileEnded))));
}

#[test]
fn a_plan_that_was_taken_away_fails() {
    let mut slot: Slot = SendfileSlot::new();
    assert!(slot.arm(Rc::new(vec![1]), 0, 1).is_some());
    let mut stream = SendfileStream::new(FakeTarget(Record::default()));
    assert!(matches!(
        stream.poll_write(&mut slot, &(), b"head\r\n"),
        WriteStep::Ready(Ok(6))
    ));
    assert!(slot.take_plan().is_some());
    let step = stream.poll_write(&mut slot, &(), b"\r\n");
    assert!(matches!(step, WriteStep::Ready(Err(StreamError::PlanDisappeared))));
    let error: StreamError<String> = StreamError::PlanDisappeared;
    assert_eq!(error.message(), Some("sendfile plan disappeared"));
    let other: StreamError<String> = StreamError::Transport("x".to_string());
    assert_eq!(other.message(), None);
}

/// A transport that takes nothing, or fails.
struct Broken(Option<String>);

impl SendfileTarget for Broken {
    type File = ();
    type Waker = ();
    type Error = String;

    fn try_sendfile(&mut self, _: &(), _: u64, _: usize) -> Result<usize, SendError<String>> {
        Err(SendError::Failed("sendfile".to_string()))
    }
    fn poll_writable(&mut self, _: &()) -> Polled<(), String> {
        Polled::Pending
    }
    fn poll_write(&mut self, _: &(), buf: &[u8]) -> Polled<usize, String> {
        match &self.0 {
            Some(error) => Polled::Ready(Err(error.clone())),
            None => Polled::Ready(Ok(buf.len())),
        }
    }
    fn poll_write_more(&mut self, _: &(), buf: &[u8]) -> Polled<usize, String> {
        match &self.0 {
            Some(_) => Polled::Ready(Ok(0)),
            None => Polled::Ready(Ok(buf.len())),
        }
    }
    fn poll_flush(&mut self, _: &()) -> Polled<(), String> {
        Polled::Pending
    }
    fn poll_shutdown(&mut self, _: &()) -> Polled<(), String> {
        Polled::Ready(Err("shut".to_string()))
    }
}

#[test]
fn failures_of_the_transport_are_passed_on() {
    let mut slot: SendfileSlot<()> = SendfileSlot::default();
    let mut stream = SendfileStream::new(Broken(Some("down".to_string())));
    assert!(matches!(
        stream.poll_write(&mut slot, &(), b"x"),
        WriteStep::Ready(Err(StreamError::Transport(error))) if error == "down"
    ));
    assert!(slot.arm((), 0, 1).is_some());
    assert!(matches!(
        stream.poll_write(&mut slot, &(), b"x"),
        WriteStep::Ready(Err(StreamError::WriteZero))
    ));
    assert!(matches!(stream.poll_flush(&()), Polled::Pending));
    assert!(matches!(
        stream.poll_shutdown(&()),
        Polled::Ready(Err(StreamError::Transport(_)))
    ));

    let mut slot: SendfileSlot<()> = SendfileSlot::new();
    assert!(slot.arm((), 0, 1).is_some());
    let mut stream = SendfileStream::new(Broken(None));
    assert!(matches!(
        stream.poll_write(&mut slot, &(), b"\r\n\r\nx"),
        WriteStep::Ready(Err(StreamError::Transport(error))) if error == "sendfile"
    ));
}

/// A transport that writes everything straight away.
struct Plain(Vec<u8>);

impl SendfileTarget for Plain {
    type File = Vec<u8>;
    type Waker = ();
    type Error = ();

    fn try_sendfile(
        &mut self,
        file: &Vec<u8>,
        offset: u64,
        count: usize,
    ) -> Result<usize, SendError<()>> {
        self.0.extend_from_slice(&file[offset as usize..offset as usize + count]);
        Ok(count)
    }
    fn poll_writable(&mut self, _: &()) -> Polled<(), ()> {
        Polled::Ready(Ok(()))
    }
    fn poll_write(&mut self, _: &(), buf: &[u8]) -> Polled<usize, ()> {
        self.0.extend_from_slice(buf);
        Polled::Ready(Ok(buf.len()))
    }
    fn poll_flush(&mut self, _: &()) -> Polled<(), ()> {
        Polled::Ready(Ok(()))
    }
    fn poll_shutdown(&mut self, _: &()) -> Polled<(), ()> {
        Polled::Ready(Ok(()))
    }
}

#[test]
fn a_transport_need_not_hold_back_a_head() {
    let mut slot: SendfileSlot<Vec<u8>> = SendfileSlot::new();
    assert!(slot.arm(b"0123456789".to_vec(), 4, 3).is_some());
    let mut stream = SendfileStream::new(Plain(Vec::new()));
    assert!(matches!(
        stream.poll_write(&mut slot, &(), b"H\r\n\r\n___"),
        WriteStep::Ready(Ok(8))
    ));
    assert_eq!(stream.get_ref().0, b"H\r\n\r\n456");
}

#[test]
fn an_empty_write_takes_nothing() {
    let (record, mut stream, mut slot, _) = armed_stream();
    assert!(matches!(stream.poll_write(&mut slot, &(), b""), WriteStep::Ready(Ok(0))));
    assert!(record.out.borrow().is_empty());
    assert!(matches!(stream.poll_shutdown(&()), Polled::Ready(Ok(()))));
    assert!(record.closed.get());
}

#[test]
fn a_slot_is_armed_once() {
    let mut slot: SendfileSlot<u8> = SendfileSlot::new();
    assert!(slot.arm(1, 0, 0).is_none());
    assert!(!slot.is_armed());
    let mut body = slot.arm(1, 5, 600_000).unwrap();
    assert!(slot.arm(2, 0, 1).is_none());
    assert!(!body.is_empty());
    assert_eq!(body.size_hint(), 600_000);
    let mut frames = Vec::new();
    while let Some(len) = body.poll_frame() {
        frames.push(len);
    }
    assert_eq!(frames, vec![262_144, 262_144, 75_712]);
    assert!(body.is_end_stream());
    assert!(!body.is_empty(), "an armed plan is never empty");
    assert_eq!(body.len(), 0);
    let plan = slot.take_plan().unwrap();
    assert_eq!((plan.file, plan.offset, plan.remaining), (1, 5, 600_000));
    assert!(slot.take_plan().is_none());
}

#[test]
fn range_start_parses_a_partial_content_header() {
    assert_eq!(range_start("bytes 1048576-2097151/8388608"), Some(1_048_576));
    assert_eq!(range_start("bytes 0-99/100"), Some(0));
}

#[test]
fn range_start_rejects_other_forms() {
    assert_eq!(range_start("items 0-99/100"), None);
    assert_eq!(range_start("bytes */100"), None);
}

#[test]
fn only_whole_and_partial_responses_are_upgraded() {
    let mut slot: SendfileSlot<u8> = SendfileSlot::new();
    assert!(upgrade_response_with_slot(&mut slot, Some(304), Some("5"), None, 1).is_none());
    assert!(upgrade_response_with_slot(&mut slot, None, Some("5"), None, 1).is_none());
    assert!(upgrade_response_with_slot(&mut slot, Some(200), None, None, 1).is_none());
    assert!(upgrade_response_with_slot(&mut slot, Some(200), Some("x"), None, 1).is_none());
    assert!(upgrade_response_with_slot(&mut slot, Some(200), Some("0"), None, 1).is_none());
    let body = upgrade_response_with_slot(&mut slot, Some(206), Some("5"), Some("bytes 3-7/9"), 1).unwrap();
    assert_eq!(body.len(), 5);
    assert!(upgrade_response_with_slot(&mut slot, Some(200), Some("5"), None, 2).is_none());
    assert_eq!(slot.take_plan().unwrap().offset, 3);
    assert!(upgrade_response_with_slot(&mut slot, Some(200), Some("+7"), Some("junk"), 3).is_some());
    assert_eq!(slot.take_plan().unwrap().offset, 0);
}

fn key(peer_port: u16) -> ConnKey {
    let local = Some(Ip::V4(0x7f00_0001));
    conn_key(local, Some(8000), local, Some(peer_port))
}

#[test]
fn a_registered_slot_is_found_again() {
    let mut registry: Registry<u32> = Registry::new();
    let key = key(40_000);
    registry.register(key, 9);
    assert!(registry.slot_for(&key).is_some());
    assert_eq!(registry.slot_for(&key), Some(&9));
    registry.unregister(key);
    assert!(registry.slot_for(&key).is_none());
}

#[test]
fn the_slot_of_a_connection_is_armed_for_its_response() {
    let mut registry: Registry<u32> = Registry::new();
    registry.register(key(7), 5);
    assert_eq!(upgrade_response(&registry, &key(7), Some(200), Some("3")), Some(&5));
    assert_eq!(upgrade_response(&registry, &key(8), Some(200), Some("3")), None);
    assert_eq!(upgrade_response(&registry, &key(7), Some(404), Some("3")), None);
    assert_eq!(upgrade_response(&registry, &key(7), Some(206), None), None);
    assert_eq!(upgrade_response(&registry, &key(7), Some(206), Some("-1")), None);
}

#[test]
fn registering_again_replaces_and_leaves_others() {
    let mut registry: Registry<u32> = Registry::new();
    // Two connections of one part.
    registry.register(key(16), 1);
    registry.register(key(32), 2);
    registry.register(key(16), 3);
    assert_eq!(registry.slot_for(&key(16)), Some(&3));
    assert_eq!(registry.slot_for(&key(32)), Some(&2));
    registry.unregister(key(16));
    assert_eq!(registry.slot_for(&key(16)), None);
    assert_eq!(registry.slot_for(&key(32)), Some(&2));
    let v6 = conn_key(Some(Ip::V6(1)), None, None, None);
    registry.register(v6, 4);
    assert_eq!(registry.slot_for(&v6), Some(&4));
}

#[test]
fn consecutive_peer_ports_spread_over_every_shard() {
    let mut shards = HashSet::new();
    for peer_port in 40_000..40_000 + SHARDS as u16 {
        shards.insert(shard_index(&key(peer_port)));
    }
    assert_eq!(shards.len(), SHARDS);
}

#[test]
fn a_connection_waits_while_it_is_decided_about() {
    let mut admission: Admission<u8, u8> = Admission::new();
    type Event = AdmitEvent<u8, u8, String>;
    assert!(matches!(admission.step(Event::Begin), AdmitAction::Accept));
    assert!(matches!(admission.step(Event::Accepted(Ok(1))), AdmitAction::ReadLocalAddr));
    assert!(matches!(admission.step(Event::Bound(true)), AdmitAction::Decide));
    // The decision was given up: the connection is still there.
    assert_eq!(admission.waiting(), Some(&1));
    assert!(matches!(admission.step(Event::Begin), AdmitAction::ReadLocalAddr));
    assert!(matches!(
        admission.step(Event::Decided(Decision::Refuse)),
        AdmitAction::Accept
    ));
    assert_eq!(admission.waiting(), None);
    assert!(matches!(admission.step(Event::Accepted(Ok(2))), AdmitAction::ReadLocalAddr));
    assert!(matches!(
        admission.step(Event::Decided(Decision::Admit(7))),
        AdmitAction::SetNoDelay
    ));
    assert!(matches!(admission.step(Event::NoDelay(Ok(()))), AdmitAction::Serve(Some(7))));
    assert_eq!(admission.take(), Some(2));
    assert!(matches!(admission.step(Event::Accepted(Ok(3))), AdmitAction::ReadLocalAddr));
    assert!(matches!(
        admission.step(Event::Decided(Decision::NoPolicy)),
        AdmitAction::SetNoDelay
    ));
    let failed = Event::NoDelay(Err("no".to_string()));
    assert!(matches!(admission.step(failed), AdmitAction::Fail(_)));
    assert_eq!(admission.take(), None);
    assert!(matches!(admission.step(Event::Bound(false)), AdmitAction::NotBound));
    assert!(matches!(
        admission.step(Event::Accepted(Err("x".to_string()))),
        AdmitAction::Fail(_)
    ));
    assert_eq!(not_bound(), "acceptor is bound to nothing");
}

#[test]
fn the_settings_of_a_refused_connection_are_forgotten() {
    let mut admission: Admission<u8, u8> = Admission::new();
    type Event = AdmitEvent<u8, u8, String>;
    admission.step(Event::Accepted(Ok(1)));
    admission.step(Event::Decided(Decision::Admit(7)));
    admission.step(Event::NoDelay(Err("no".to_string())));
    admission.step(Event::Accepted(Ok(2)));
    admission.step(Event::Decided(Decision::NoPolicy));
    assert!(matches!(admission.step(Event::NoDelay(Ok(()))), AdmitAction::Serve(None)));
}

#[test]
fn head_file_and_what_follows_are_delivered_over_a_stalling_transport() {
    let (record, mut stream, mut slot, payload) = armed_stream();
    record.stall_once.set(true);
    assert!(write_response(&mut stream, &mut slot));
    record.stall_once.set(true);
    assert!(write_all(&mut stream, &mut slot, b"HTTP/1.1 204\r\n\r\n"));
    assert!(matches!(stream.poll_flush(&()), Polled::Ready(Ok(()))));
    let mut expected = HEAD.to_vec();
    expected.extend_from_slice(&payload[OFFSET as usize..(OFFSET + LEN) as usize]);
    expected.extend_from_slice(b"HTTP/1.1 204\r\n\r\n");
    assert_eq!(*record.out.borrow(), expected);
}
