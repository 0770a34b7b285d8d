use std::cell::RefCell;
use std::io;
use std::rc::Rc;

use mudtcp::codec::Decoded;
use mudtcp::server::{listener_error, read_event, write_event};
use mudtcp::{ClientId, Codec, Event, Server, ServerError};

struct Scripted {
    id: ClientId,
    open: bool,
    reads: Vec<Decoded>,
    fail_writes: bool,
    written: Rc<RefCell<Vec<(ClientId, String)>>>,
}

impl Codec for Scripted {
    fn read(&mut self) -> Decoded {
        if !self.open {
            return Decoded::Failed(io::ErrorKind::NotConnected.into());
        }
        if self.reads.is_empty() {
            Decoded::WouldBlock
        } else {
            self.reads.remove(0)
        }
    }

    fn write(&mut self, message: &str) -> Result<(), io::Error> {
        if !self.open {
            return Err(io::ErrorKind::NotConnected.into());
        }
        if self.fail_writes {
            return Err(io::ErrorKind::BrokenPipe.into());
        }
        self.written.borrow_mut().push((self.id, message.to_string()));
        Ok(())
    }

    fn shutdown(&mut self) {
        self.open = false;
    }

    fn is_open(&self) -> bool {
        self.open
    }

    fn id(&self) -> ClientId {
        self.id
    }
}

type Log = Rc<RefCell<Vec<(ClientId, String)>>>;

fn join(server: &mut Server<Scripted>, reads: Vec<Decoded>, fail_writes: bool, log: &Log) -> Event {
    let written = log.clone();
    server.accept(move |id| {
        Ok(Scripted {
            id,
            open: true,
            reads,
            fail_writes,
            written,
        })
    })
}

fn msg(text: &str) -> Decoded {
    Decoded::Message(text.to_string())
}

#[test]
fn ids_increase_and_never_repeat() {
    let log = Log::default();
    let mut s = Server::new();
    assert!(matches!(join(&mut s, vec![], false, &log), Event::Join(1)));
    assert!(matches!(join(&mut s, vec![Decoded::Closed], false, &log), Event::Join(2)));
    let evs = s.poll();
    assert_eq!(evs.len(), 1);
    assert!(matches!(evs[0], Event::Leave(2)));
    assert!(s.poll().is_empty());
    assert_eq!(s.ids(), vec![(1, true)]);
    assert!(matches!(join(&mut s, vec![], false, &log), Event::Join(3)));
    assert_eq!(s.ids(), vec![(1, true), (3, true)]);
    assert_eq!(s.last_id(), 3);
}

#[test]
fn failed_accept_still_uses_an_id() {
    let log = Log::default();
    let mut s: Server<Scripted> = Server::new();
    let ev = s.accept(|_| Err(io::ErrorKind::Other.into()));
    assert!(matches!(ev, Event::ServerError(_)));
    assert!(s.ids().is_empty());
    assert!(matches!(join(&mut s, vec![], false, &log), Event::Join(2)));
}

#[test]
fn closed_client_is_pruned_before_sends() {
    let log = Log::default();
    let mut s = Server::new();
    join(&mut s, vec![], false, &log);
    join(&mut s, vec![], false, &log);
    assert!(s.kick(1).is_ok());
    s.enqueue((1, "late".to_string()));
    s.enqueue((2, "ok".to_string()));
    let evs = s.poll();
    assert_eq!(evs.len(), 1);
    assert!(matches!(evs[0], Event::Send(2)));
    assert_eq!(*log.borrow(), vec![(2, "ok".to_string())]);
    assert_eq!(s.ids(), vec![(2, true)]);
}

#[test]
fn idle_poll_is_empty() {
    let log = Log::default();
    let mut s: Server<Scripted> = Server::new();
    assert!(s.poll().is_empty());
    join(&mut s, vec![], false, &log);
    join(&mut s, vec![], false, &log);
    assert!(s.poll().is_empty());
    assert!(s.poll().is_empty());
}

#[test]
fn join_then_receive_in_order() {
    let log = Log::default();
    let mut s = Server::new();
    let mut batch: Vec<Event> = s.poll();
    batch.push(join(&mut s, vec![msg("hi")], false, &log));
    batch.push(join(&mut s, vec![], false, &log));
    assert_eq!(batch.len(), 2);
    assert!(matches!(batch[0], Event::Join(1)));
    assert!(matches!(batch[1], Event::Join(2)));
    let next = s.poll();
    assert_eq!(next.len(), 1);
    match &next[0] {
        Event::Receive((id, text)) => {
            assert_eq!(*id, 1);
            assert_eq!(text, "hi");
        }
        other => panic!("unexpected event {:?}", other),
    }
}

#[test]
fn one_message_per_client_per_poll() {
    let log = Log::default();
    let mut s = Server::new();
    join(&mut s, vec![msg("one"), msg("two")], false, &log);
    let first = s.poll();
    assert_eq!(first.len(), 1);
    assert!(matches!(&first[0], Event::Receive((1, t)) if t == "one"));
    let second = s.poll();
    assert_eq!(second.len(), 1);
    assert!(matches!(&second[0], Event::Receive((1, t)) if t == "two"));
    assert!(s.poll().is_empty());
}

#[test]
fn message_to_unknown_id_is_dropped() {
    let mut s: Server<Scripted> = Server::new();
    s.enqueue((99, "hello".to_string()));
    assert!(s.poll().is_empty());
    assert!(s.poll().is_empty());
}

#[test]
fn kick_prunes_without_leave() {
    let log = Log::default();
    let mut s = Server::new();
    join(&mut s, vec![Decoded::Closed], false, &log);
    assert!(s.kick(1).is_ok());
    assert_eq!(s.ids(), vec![(1, false)]);
    assert_eq!(s.ids_disconnected(), vec![1]);
    assert!(s.ids_connected().is_empty());
    assert!(s.poll().is_empty());
    assert!(s.ids().is_empty());
}

#[test]
fn kick_unknown_id_fails() {
    let mut s: Server<Scripted> = Server::new();
    assert!(matches!(s.kick(5), Err(ServerError::IdNotFound(5))));
}

#[test]
fn failed_write_closes_client() {
    let log = Log::default();
    let mut s = Server::new();
    join(&mut s, vec![], true, &log);
    s.enqueue((1, "x".to_string()));
    s.enqueue((1, "y".to_string()));
    let evs = s.poll();
    // the write error closes the client; the second message is dropped and
    // the read attempt on the closed codec fails as well
    assert_eq!(evs.len(), 2);
    assert!(matches!(&evs[0], Event::ClientError((1, e)) if e.kind() == io::ErrorKind::BrokenPipe));
    assert!(matches!(&evs[1], Event::ClientError((1, e)) if e.kind() == io::ErrorKind::NotConnected));
    assert_eq!(s.ids_disconnected(), vec![1]);
    assert!(s.poll().is_empty());
    assert!(s.ids().is_empty());
}

#[test]
fn read_failure_is_client_error() {
    let log = Log::default();
    let mut s = Server::new();
    join(&mut s, vec![Decoded::Failed(io::ErrorKind::ConnectionReset.into())], false, &log);
    let evs = s.poll();
    assert_eq!(evs.len(), 1);
    assert!(matches!(&evs[0], Event::ClientError((1, e)) if e.kind() == io::ErrorKind::ConnectionReset));
    assert_eq!(s.ids(), vec![(1, false)]);
}

#[test]
fn sends_go_out_in_queue_order() {
    let log = Log::default();
    let mut s = Server::new();
    join(&mut s, vec![], false, &log);
    join(&mut s, vec![], false, &log);
    s.enqueue_many(vec![(2, "a".to_string()), (1, "b".to_string()), (2, "c".to_string())]);
    let evs = s.poll();
    assert_eq!(evs.len(), 3);
    assert!(matches!(evs[0], Event::Send(2)));
    assert!(matches!(evs[1], Event::Send(1)));
    assert!(matches!(evs[2], Event::Send(2)));
    assert_eq!(
        *log.borrow(),
        vec![(2, "a".to_string()), (1, "b".to_string()), (2, "c".to_string())]
    );
}

#[test]
fn enqueue_for_each_reaches_open_clients_only() {
    let log = Log::default();
    let mut s = Server::new();
    join(&mut s, vec![], false, &log);
    join(&mut s, vec![], false, &log);
    join(&mut s, vec![], false, &log);
    assert!(s.kick(2).is_ok());
    s.enqueue_for_each("all");
    let evs = s.poll();
    assert_eq!(evs.len(), 2);
    assert_eq!(*log.borrow(), vec![(1, "all".to_string()), (3, "all".to_string())]);
    assert_eq!(s.ids_connected(), vec![1, 3]);
}

#[test]
fn read_outcomes_map_to_events() {
    assert!(matches!(read_event(4, msg("m")), Some(Event::Receive((4, t))) if t == "m"));
    assert!(read_event(4, Decoded::WouldBlock).is_none());
    assert!(matches!(read_event(4, Decoded::Closed), Some(Event::Leave(4))));
    assert!(matches!(
        read_event(4, Decoded::Failed(io::ErrorKind::Other.into())),
        Some(Event::ClientError((4, _)))
    ));
}

#[test]
fn write_outcomes_map_to_events() {
    assert!(matches!(write_event(7, Ok(())), Event::Send(7)));
    assert!(matches!(
        write_event(7, Err(io::ErrorKind::BrokenPipe.into())),
        Event::ClientError((7, _))
    ));
}

#[test]
fn register_after_failed_build() {
    let log = Log::default();
    let mut s: Server<Scripted> = Server::new();
    let ev = s.accept(|_| Err(io::ErrorKind::Other.into()));
    assert!(matches!(ev, Event::ServerError(_)));
    let codec = Scripted {
        id: 1,
        open: true,
        reads: vec![msg("late")],
        fail_writes: false,
        written: log.clone(),
    };
    assert!(matches!(s.register(1, Ok(codec)), Event::Join(1)));
    assert_eq!(s.ids(), vec![(1, true)]);

    let mut t: Server<Scripted> = Server::new();
    let ev = t.accept(|_| Err(io::ErrorKind::Other.into()));
    assert!(matches!(ev, Event::ServerError(_)));
    let ev = t.register(1, Err(io::ErrorKind::InvalidInput.into()));
    assert!(matches!(&ev, Event::ServerError(e) if e.kind() == io::ErrorKind::InvalidInput));
    assert!(t.ids().is_empty());
}

#[test]
fn target_is_the_open_client_with_that_id() {
    let log = Log::default();
    let mut s = Server::new();
    join(&mut s, vec![], false, &log);
    join(&mut s, vec![], false, &log);
    assert_eq!(s.target(2), Some(1));
    assert_eq!(s.target(1), Some(0));
    assert_eq!(s.target(9), None);
    assert!(s.kick(2).is_ok());
    assert_eq!(s.target(2), None);
}

#[test]
fn record_write_closes_on_failure_only() {
    let log = Log::default();
    let mut s = Server::new();
    join(&mut s, vec![], false, &log);
    join(&mut s, vec![], false, &log);
    assert!(matches!(s.record_write(0, Ok(())), Event::Send(1)));
    assert_eq!(s.ids(), vec![(1, true), (2, true)]);
    let ev = s.record_write(1, Err(io::ErrorKind::BrokenPipe.into()));
    assert!(matches!(&ev, Event::ClientError((2, e)) if e.kind() == io::ErrorKind::BrokenPipe));
    assert_eq!(s.ids(), vec![(1, true), (2, false)]);
}

#[test]
fn record_read_closes_on_close_or_failure() {
    let log = Log::default();
    let mut s = Server::new();
    join(&mut s, vec![], false, &log);
    join(&mut s, vec![], false, &log);
    join(&mut s, vec![], false, &log);
    assert!(s.record_read(0, Decoded::WouldBlock).is_none());
    assert!(matches!(s.record_read(0, msg("m")), Some(Event::Receive((1, t))) if t == "m"));
    assert!(matches!(s.record_read(1, Decoded::Closed), Some(Event::Leave(2))));
    assert!(matches!(
        s.record_read(2, Decoded::Failed(io::ErrorKind::Other.into())),
        Some(Event::ClientError((3, _)))
    ));
    assert_eq!(s.ids(), vec![(1, true), (2, false), (3, false)]);
}

#[test]
fn listener_errors_stop_quietly_only_when_nothing_is_pending() {
    assert!(listener_error(io::ErrorKind::WouldBlock.into(), true).is_none());
    assert!(matches!(
        listener_error(io::ErrorKind::PermissionDenied.into(), false),
        Some(Event::ServerError(e)) if e.kind() == io::ErrorKind::PermissionDenied
    ));
}
