//! The server's client set, outbound queue and poll cycle.
//!
//! The listening socket lives with the owner of the server: it accepts
//! connections, builds a codec for each through [`Server::accept`], and adds
//! the resulting events to those of [`Server::poll`].
//!
//! Each call into a codec stands between two verified steps: which client a
//! queued message is handed to ([`Server::target`]), and what each write or
//! read outcome does to the client set and the batch
//! ([`Server::record_write`], [`Server::record_read`]).
use vstd::prelude::*;

use crate::codec::{Codec, Decoded};
use crate::{client_of, ClientId, Event, ServerError};

verus! {

/// The ids of the entries of `roster` whose state is `open`, in order.
pub open spec fn ids_where(roster: Seq<(ClientId, bool)>, open: bool) -> Seq<ClientId>
    decreases roster.len(),
{
    if roster.len() == 0 {
        Seq::empty()
    } else {
        let prev = ids_where(roster.drop_last(), open);
        if roster.last().1 == open {
            prev.push(roster.last().0)
        } else {
            prev
        }
    }
}

/// The ids of a roster, in order.
pub open spec fn ids_of(roster: Seq<(ClientId, bool)>) -> Seq<ClientId> {
    roster.map_values(|p: (ClientId, bool)| p.0)
}

/// Whether some entry of `roster` has the id `id`.
pub open spec fn has_id(roster: Seq<(ClientId, bool)>, id: ClientId) -> bool {
    exists|j: int| 0 <= j < roster.len() && roster[j].0 == id
}

/// `roster` with the entry of `id` marked closed.
pub open spec fn closed_for(roster: Seq<(ClientId, bool)>, id: ClientId) -> Seq<
    (ClientId, bool),
> {
    roster.map_values(|p: (ClientId, bool)| (p.0, p.1 && p.0 != id))
}

/// Outbound messages as ids and texts.
pub open spec fn messages_view(msgs: Seq<(ClientId, String)>) -> Seq<(ClientId, Seq<char>)> {
    msgs.map_values(|m: (ClientId, String)| (m.0, m.1@))
}

/// Two rosters with the same ids in the same order.
pub open spec fn same_ids(a: Seq<(ClientId, bool)>, b: Seq<(ClientId, bool)>) -> bool {
    &&& a.len() == b.len()
    &&& forall|i: int| 0 <= i < a.len() ==> #[trigger] a[i].0 == b[i].0
}

/// The event that writing to client `id` gives.
pub open spec fn write_event_spec(id: ClientId, outcome: Result<(), std::io::Error>) -> Event {
    match outcome {
        Ok(_) => Event::Send(id),
        Err(e) => Event::ClientError((id, e)),
    }
}

/// The event that one read attempt on client `id` gives, if any.
pub open spec fn read_event_spec(id: ClientId, outcome: Decoded) -> Option<Event> {
    match outcome {
        Decoded::Message(m) => Some(Event::Receive((id, m))),
        Decoded::WouldBlock => None,
        Decoded::Closed => Some(Event::Leave(id)),
        Decoded::Failed(e) => Some(Event::ClientError((id, e))),
    }
}

/// Whether a read outcome closes the client.
pub open spec fn read_closes(outcome: Decoded) -> bool {
    outcome is Closed || outcome is Failed
}

/// The event for the outcome of writing a queued message to client `id`.
pub fn write_event(id: ClientId, outcome: Result<(), std::io::Error>) -> (r: Event)
    ensures
        r == write_event_spec(id, outcome),
{
    match outcome {
        Ok(()) => Event::Send(id),
        Err(e) => Event::ClientError((id, e)),
    }
}

/// The event for the outcome of one read attempt on client `id`: a message
/// is received, an orderly close is a leave, a failure is a client error,
/// and no data yet is no event.
pub fn read_event(id: ClientId, outcome: Decoded) -> (r: Option<Event>)
    ensures
        r == read_event_spec(id, outcome),
{
    match outcome {
        Decoded::Message(m) => Some(Event::Receive((id, m))),
        Decoded::WouldBlock => None,
        Decoded::Closed => Some(Event::Leave(id)),
        Decoded::Failed(e) => Some(Event::ClientError((id, e))),
    }
}

/// What the accept loop reports when the listener fails; the loop stops
/// either way. `no_pending` tells that the failure only means that no
/// connection is waiting: that ends the loop quietly. Any other failure is a
/// `ServerError`.
pub fn listener_error(e: std::io::Error, no_pending: bool) -> (r: Option<Event>)
    ensures
        no_pending ==> r is None,
        !no_pending ==> r == Some(Event::ServerError(e)),
{
    if no_pending {
        None
    } else {
        Some(Event::ServerError(e))
    }
}

/// Ids that rise strictly along `roster`.
pub open spec fn ascending(roster: Seq<(ClientId, bool)>) -> bool {
    forall|a: int, b: int| 0 <= a < b < roster.len() ==> roster[a].0 < roster[b].0
}

/// Whether `roster` holds client `id`, open.
pub open spec fn open_in(roster: Seq<(ClientId, bool)>, id: ClientId) -> bool {
    exists|j: int| 0 <= j < roster.len() && roster[j] == (id, true)
}

/// The roster that pruning leaves: the open clients, in order.
pub open spec fn pruned(roster: Seq<(ClientId, bool)>) -> Seq<(ClientId, bool)> {
    ids_where(roster, true).map_values(|id: ClientId| (id, true))
}

/// The send step: the roster and the events after draining `queue`, in
/// order, from `roster`, where `outcomes[k]` is what writing message `k`
/// returned. A message whose client is absent or closed at that moment is
/// dropped with no event (its outcome is not used); any other gives the
/// write's event, and a failed write closes the client.
pub open spec fn send_step(
    roster: Seq<(ClientId, bool)>,
    queue: Seq<(ClientId, Seq<char>)>,
    outcomes: Seq<Result<(), std::io::Error>>,
) -> (Seq<(ClientId, bool)>, Seq<Event>)
    decreases queue.len(),
{
    if queue.len() == 0 || outcomes.len() == 0 {
        (roster, Seq::empty())
    } else {
        let prev = send_step(roster, queue.drop_last(), outcomes.drop_last());
        let id = queue.last().0;
        let o = outcomes.last();
        if open_in(prev.0, id) {
            (
                if o is Err {
                    closed_for(prev.0, id)
                } else {
                    prev.0
                },
                prev.1.push(write_event_spec(id, o)),
            )
        } else {
            prev
        }
    }
}

/// The read step: the roster and the events after one read attempt on each
/// client of `roster`, in order, where `outcomes[i]` is what reading client
/// `i` returned. A client stays as it was unless the outcome closes it.
pub open spec fn read_step(roster: Seq<(ClientId, bool)>, outcomes: Seq<Decoded>) -> (
    Seq<(ClientId, bool)>,
    Seq<Event>,
)
    decreases roster.len(),
{
    if roster.len() == 0 || outcomes.len() == 0 {
        (Seq::empty(), Seq::empty())
    } else {
        let prev = read_step(roster.drop_last(), outcomes.drop_last());
        let id = roster.last().0;
        let d = outcomes.last();
        (
            prev.0.push((id, roster.last().1 && !read_closes(d))),
            match read_event_spec(id, d) {
                Some(ev) => prev.1.push(ev),
                None => prev.1,
            },
        )
    }
}

/// With distinct ids, the entry at `i` is the one open entry for its id if
/// it is open, and closing it is closing its id.
proof fn lemma_entry(roster: Seq<(ClientId, bool)>, i: int)
    requires
        ascending(roster),
        0 <= i < roster.len(),
    ensures
        open_in(roster, roster[i].0) == roster[i].1,
        roster.update(i, (roster[i].0, false)) == closed_for(roster, roster[i].0),
{
    if open_in(roster, roster[i].0) {
        let j = choose|j: int| 0 <= j < roster.len() && roster[j] == (roster[i].0, true);
        if j < i {
            assert(roster[j].0 < roster[i].0);
        } else if j > i {
            assert(roster[i].0 < roster[j].0);
        }
    }
    let c = closed_for(roster, roster[i].0);
    assert forall|j: int| 0 <= j < roster.len() implies #[trigger] roster.update(
        i,
        (roster[i].0, false),
    )[j] == c[j] by {
        if j < i {
            assert(roster[j].0 < roster[i].0);
        } else if j > i {
            assert(roster[i].0 < roster[j].0);
        }
    }
    assert(roster.update(i, (roster[i].0, false)) =~= c);
}

/// An id held by no entry is open in none.
proof fn lemma_absent(roster: Seq<(ClientId, bool)>, id: ClientId)
    requires
        forall|j: int| 0 <= j < roster.len() ==> #[trigger] roster[j].0 != id,
    ensures
        !open_in(roster, id),
{
    if open_in(roster, id) {
        let j = choose|j: int| 0 <= j < roster.len() && roster[j] == (id, true);
        assert(roster[j].0 != id);
    }
}

/// Whether `ev` reports that a client left or failed.
pub open spec fn ends_client(ev: Event) -> bool {
    ev is Leave || ev is ClientError
}

/// Whether `roster` holds client `id`, closed.
pub open spec fn closed_in(roster: Seq<(ClientId, bool)>, id: ClientId) -> bool {
    exists|j: int| 0 <= j < roster.len() && roster[j] == (id, false)
}

/// Whether `evs[m]` reports that client `id` left or failed.
pub open spec fn reports_end(evs: Seq<Event>, m: int, id: ClientId) -> bool {
    0 <= m < evs.len() && ends_client(evs[m]) && client_of(evs[m]) == Some(id)
}

/// Every closed client of `roster` has a leave or error event in `evs`.
pub open spec fn closures_reported(roster: Seq<(ClientId, bool)>, evs: Seq<Event>) -> bool {
    forall|j: int|
        0 <= j < roster.len() && !#[trigger] roster[j].1 ==> exists|m: int|
            reports_end(evs, m, roster[j].0)
}

/// Every leave or error event in `evs` is about a closed client of `roster`.
pub open spec fn reported_are_closed(roster: Seq<(ClientId, bool)>, evs: Seq<Event>) -> bool {
    forall|m: int|
        0 <= m < evs.len() && #[trigger] ends_client(evs[m]) ==> closed_in(
            roster,
            client_of(evs[m])->0,
        )
}

/// The messages received in `evs` come from distinct clients, in rising
/// order of id.
pub open spec fn receives_ascending(evs: Seq<Event>) -> bool {
    forall|a: int, b: int|
        0 <= a < b < evs.len() && #[trigger] (evs[a] is Receive) && #[trigger] (evs[b] is Receive)
            ==> client_of(evs[a])->0 < client_of(evs[b])->0
}

/// An event that closes no client keeps the lifecycle reports in step.
proof fn lemma_report_quiet(roster: Seq<(ClientId, bool)>, evs: Seq<Event>, ev: Event)
    requires
        closures_reported(roster, evs),
        reported_are_closed(roster, evs),
        !ends_client(ev),
    ensures
        closures_reported(roster, evs.push(ev)),
        reported_are_closed(roster, evs.push(ev)),
{
    let e2 = evs.push(ev);
    assert forall|j: int| 0 <= j < roster.len() && !#[trigger] roster[j].1 implies exists|m: int|
        reports_end(e2, m, roster[j].0) by {
        let m = choose|m: int| reports_end(evs, m, roster[j].0);
        assert(e2[m] == evs[m]);
        assert(reports_end(e2, m, roster[j].0));
    }
    assert forall|m: int| 0 <= m < e2.len() && #[trigger] ends_client(e2[m]) implies closed_in(
        roster,
        client_of(e2[m])->0,
    ) by {
        assert(m < evs.len());
        assert(e2[m] == evs[m]);
    }
}

/// Closing the client at `i` and reporting it keeps the lifecycle reports
/// in step.
proof fn lemma_report_close(roster: Seq<(ClientId, bool)>, evs: Seq<Event>, i: int, ev: Event)
    requires
        closures_reported(roster, evs),
        reported_are_closed(roster, evs),
        0 <= i < roster.len(),
        ends_client(ev),
        client_of(ev) == Some(roster[i].0),
    ensures
        closures_reported(roster.update(i, (roster[i].0, false)), evs.push(ev)),
        reported_are_closed(roster.update(i, (roster[i].0, false)), evs.push(ev)),
{
    let r2 = roster.update(i, (roster[i].0, false));
    let e2 = evs.push(ev);
    assert forall|j: int| 0 <= j < r2.len() && !#[trigger] r2[j].1 implies exists|m: int|
        reports_end(e2, m, r2[j].0) by {
        if j == i {
            assert(reports_end(e2, evs.len() as int, r2[j].0));
        } else {
            assert(r2[j] == roster[j]);
            assert(!roster[j].1);
            let m = choose|m: int| reports_end(evs, m, roster[j].0);
            assert(e2[m] == evs[m]);
            assert(reports_end(e2, m, r2[j].0));
        }
    }
    assert forall|m: int| 0 <= m < e2.len() && #[trigger] ends_client(e2[m]) implies closed_in(
        r2,
        client_of(e2[m])->0,
    ) by {
        if m == evs.len() {
            assert(r2[i] == (roster[i].0, false));
        } else {
            assert(e2[m] == evs[m]);
            let x = client_of(evs[m])->0;
            assert(closed_in(roster, x));
            let j = choose|j: int| 0 <= j < roster.len() && roster[j] == (x, false);
            assert(r2[j] == (x, false));
        }
    }
}

/// An id among the `open`-state ids of a roster belongs to an entry in that
/// state.
proof fn lemma_ids_where_member(roster: Seq<(ClientId, bool)>, open: bool, id: ClientId)
    requires
        ids_where(roster, open).contains(id),
    ensures
        exists|j: int| 0 <= j < roster.len() && roster[j].0 == id && roster[j].1 == open,
    decreases roster.len(),
{
    let prev = ids_where(roster.drop_last(), open);
    if prev.contains(id) {
        lemma_ids_where_member(roster.drop_last(), open, id);
        let j = choose|j: int|
            0 <= j < roster.drop_last().len() && roster.drop_last()[j].0 == id
                && roster.drop_last()[j].1 == open;
        assert(roster[j] == roster.drop_last()[j]);
    } else {
        let w = choose|k: int| 0 <= k < ids_where(roster, open).len() && ids_where(roster, open)[k] == id;
        assert(roster.last().1 == open);
        assert(w == prev.len());
        assert(roster[roster.len() - 1] == roster.last());
    }
}

/// A client that is closed when a poll begins is silent in it: with
/// distinct ids, its id is not among the open ids of the roster, which are
/// the only ids that the poll's events name and the ones it keeps.
pub proof fn lemma_closed_client_is_silent(roster: Seq<(ClientId, bool)>, i: int)
    requires
        0 <= i < roster.len(),
        !roster[i].1,
        forall|a: int, b: int| 0 <= a < b < roster.len() ==> roster[a].0 < roster[b].0,
    ensures
        !ids_where(roster, true).contains(roster[i].0),
{
    if ids_where(roster, true).contains(roster[i].0) {
        lemma_ids_where_member(roster, true, roster[i].0);
        let j = choose|j: int| 0 <= j < roster.len() && roster[j].0 == roster[i].0 && roster[j].1 == true;
        if j < i {
            assert(roster[j].0 < roster[i].0);
        } else if i < j {
            assert(roster[i].0 < roster[j].0);
        }
    }
}

/// Client ids never repeat: the clients a server holds have distinct ids
/// that rise in order of arrival, and the id issued next is above all of
/// them, whether or not earlier clients have left.
pub proof fn lemma_ids_unique<C>(s: &Server<C>)
    requires
        s.wf(),
    ensures
        forall|i: int, j: int|
            0 <= i < j < s.roster().len() ==> s.roster()[i].0 < s.roster()[j].0,
        forall|i: int| 0 <= i < s.roster().len() ==> #[trigger] s.roster()[i].0 < s.last_issued() + 1,
{
}

/// One connected client: its id, whether it is open, and its codec.
struct Client<C> {
    id: ClientId,
    open: bool,
    codec: C,
}

spec fn roster_of<C>(clients: Seq<Client<C>>) -> Seq<(ClientId, bool)> {
    clients.map_values(|c: Client<C>| (c.id, c.open))
}

/// A connection server core over codecs of type `C`.
pub struct Server<C> {
    clients: Vec<Client<C>>,
    message_queue: Vec<(ClientId, String)>,
    last_id: ClientId,
}

impl<C> Server<C> {
    /// The clients held, as ids with their open state, in order of arrival.
    pub closed spec fn roster(&self) -> Seq<(ClientId, bool)> {
        roster_of(self.clients@)
    }

    /// The outbound queue, oldest first.
    pub closed spec fn queue(&self) -> Seq<(ClientId, Seq<char>)> {
        messages_view(self.message_queue@)
    }

    /// The last id issued; 0 before the first.
    pub closed spec fn last_issued(&self) -> ClientId {
        self.last_id
    }

    /// Ids rise strictly in order of arrival, and none is 0 or above the
    /// last id issued.
    pub open spec fn wf(&self) -> bool {
        &&& forall|i: int, j: int|
            0 <= i < j < self.roster().len() ==> self.roster()[i].0 < self.roster()[j].0
        &&& forall|i: int|
            0 <= i < self.roster().len() ==> 0 < #[trigger] self.roster()[i].0
                <= self.last_issued()
    }
}

impl<C> Server<C> {
    /// Changing only open states keeps a server well formed.
    proof fn lemma_same_ids_wf(&self, other: &Self)
        requires
            other.wf(),
            same_ids(self.roster(), other.roster()),
            self.last_issued() == other.last_issued(),
        ensures
            self.wf(),
    {
        assert forall|i: int, j: int| 0 <= i < j < self.roster().len() implies self.roster()[i].0
            < self.roster()[j].0 by {
            assert(self.roster()[i].0 == other.roster()[i].0);
            assert(self.roster()[j].0 == other.roster()[j].0);
        }
        assert forall|i: int| 0 <= i < self.roster().len() implies 0 < #[trigger] self.roster()[i].0
            <= self.last_issued() by {
            assert(self.roster()[i].0 == other.roster()[i].0);
        }
    }
}

impl<C: Codec> Server<C> {
    /// A server with no clients, an empty queue and no id issued yet.
    pub fn new() -> (s: Self)
        ensures
            s.wf(),
            s.roster() == Seq::<(ClientId, bool)>::empty(),
            s.queue() == Seq::<(ClientId, Seq<char>)>::empty(),
            s.last_issued() == 0,
    {
        let s = Server { clients: Vec::new(), message_queue: Vec::new(), last_id: 0 };
        assert(s.roster() =~= Seq::<(ClientId, bool)>::empty());
        assert(s.queue() =~= Seq::<(ClientId, Seq<char>)>::empty());
        s
    }

    /// The last id issued, 0 before the first; no id can be issued once it
    /// is `usize::MAX`.
    pub fn last_id(&self) -> (r: ClientId)
        ensures
            r == self.last_issued(),
    {
        self.last_id
    }

    /// Appends one message to the outbound queue.
    pub fn enqueue(&mut self, msg: (ClientId, String))
        ensures
            final(self).roster() == old(self).roster(),
            final(self).last_issued() == old(self).last_issued(),
            final(self).queue() == old(self).queue().push((msg.0, msg.1@)),
    {
        let ghost m = (msg.0, msg.1@);
        self.message_queue.push(msg);
        assert(self.queue() =~= old(self).queue().push(m));
    }

    /// Appends messages to the outbound queue, in order.
    pub fn enqueue_many(&mut self, msgs: Vec<(ClientId, String)>)
        ensures
            final(self).roster() == old(self).roster(),
            final(self).last_issued() == old(self).last_issued(),
            final(self).queue() == old(self).queue() + messages_view(msgs@),
    {
        let mut msgs = msgs;
        let ghost added = msgs@;
        self.message_queue.append(&mut msgs);
        assert(self.queue() =~= old(self).queue() + messages_view(added));
    }

    /// The index of the client with id `id`, if there is one.
    fn find(&self, id: ClientId) -> (r: Option<usize>)
        ensures
            match r {
                Some(i) => i < self.clients@.len() && self.clients@[i as int].id == id,
                None => forall|j: int|
                    0 <= j < self.clients@.len() ==> #[trigger] self.clients@[j].id != id,
            },
    {
        let mut i: usize = 0;
        while i < self.clients.len()
            invariant
                i <= self.clients@.len(),
                forall|j: int| 0 <= j < i ==> #[trigger] self.clients@[j].id != id,
            decreases self.clients@.len() - i,
        {
            if self.clients[i].id == id {
                return Some(i);
            }
            i += 1;
        }
        None
    }

    /// Every client's id with whether it is open, in order of arrival.
    pub fn ids(&self) -> (r: Vec<(ClientId, bool)>)
        ensures
            r@ == self.roster(),
    {
        let mut r: Vec<(ClientId, bool)> = Vec::new();
        let mut i: usize = 0;
        while i < self.clients.len()
            invariant
                i <= self.clients@.len(),
                r@ =~= self.roster().subrange(0, i as int),
            decreases self.clients@.len() - i,
        {
            r.push((self.clients[i].id, self.clients[i].open));
            i += 1;
        }
        assert(r@ =~= self.roster());
        r
    }

    /// The ids of the clients whose state is `open`, in order of arrival.
    fn ids_with(&self, open: bool) -> (r: Vec<ClientId>)
        ensures
            r@ == ids_where(self.roster(), open),
    {
        let mut r: Vec<ClientId> = Vec::new();
        let mut i: usize = 0;
        while i < self.clients.len()
            invariant
                i <= self.clients@.len(),
                r@ == ids_where(self.roster().subrange(0, i as int), open),
            decreases self.clients@.len() - i,
        {
            let ghost next = self.roster().subrange(0, i + 1);
            assert(next.drop_last() =~= self.roster().subrange(0, i as int));
            if self.clients[i].open == open {
                r.push(self.clients[i].id);
            }
            i += 1;
        }
        assert(self.roster().subrange(0, i as int) =~= self.roster());
        r
    }

    /// The ids of the open clients, in order of arrival.
    pub fn ids_connected(&self) -> (r: Vec<ClientId>)
        ensures
            r@ == ids_where(self.roster(), true),
    {
        self.ids_with(true)
    }

    /// The ids of the closed clients not yet pruned, in order of arrival.
    pub fn ids_disconnected(&self) -> (r: Vec<ClientId>)
        ensures
            r@ == ids_where(self.roster(), false),
    {
        self.ids_with(false)
    }

    /// Queues `msg` for every open client, in order of arrival.
    pub fn enqueue_for_each(&mut self, msg: &str)
        ensures
            final(self).roster() == old(self).roster(),
            final(self).last_issued() == old(self).last_issued(),
            final(self).queue() == old(self).queue() + ids_where(old(self).roster(), true).map_values(
                |id: ClientId| (id, msg@),
            ),
    {
        let ids = self.ids_connected();
        let mut k: usize = 0;
        while k < ids.len()
            invariant
                k <= ids@.len(),
                ids@ == ids_where(old(self).roster(), true),
                self.roster() == old(self).roster(),
                self.last_issued() == old(self).last_issued(),
                self.queue() == old(self).queue() + ids@.subrange(0, k as int).map_values(
                    |id: ClientId| (id, msg@),
                ),
            decreases ids@.len() - k,
        {
            let text = msg.to_owned();
            self.enqueue((ids[k], text));
            assert(ids@.subrange(0, k + 1).map_values(|id: ClientId| (id, msg@)) =~= ids@.subrange(
                0,
                k as int,
            ).map_values(|id: ClientId| (id, msg@)).push((ids@[k as int], msg@)));
            k += 1;
        }
        assert(ids@.subrange(0, k as int) =~= ids@);
    }

    /// Closes the client `id` at once; it is pruned at the next poll, with
    /// no leave event. Fails when no client has that id.
    pub fn kick(&mut self, id: ClientId) -> (r: Result<(), ServerError>)
        requires
            old(self).wf(),
        ensures
            final(self).wf(),
            r is Ok <==> has_id(old(self).roster(), id),
            r is Err ==> r == Err::<(), ServerError>(ServerError::IdNotFound(id)),
            final(self).roster() == if r is Ok {
                closed_for(old(self).roster(), id)
            } else {
                old(self).roster()
            },
            final(self).queue() == old(self).queue(),
            final(self).last_issued() == old(self).last_issued(),
    {
        match self.find(id) {
            Some(i) => {
                let ghost before = self.roster();
                self.close_at(i);
                assert(self.roster() =~= closed_for(before, id)) by {
                    assert forall|j: int| 0 <= j < self.roster().len() implies #[trigger] self.roster()[j]
                        == closed_for(before, id)[j] by {
                        if j < i {
                            assert(before[j].0 < before[i as int].0);
                        } else if j > i {
                            assert(before[i as int].0 < before[j].0);
                        }
                    }
                }
                assert(before[i as int].0 == id);
                Ok(())
            },
            None => {
                assert forall|j: int| 0 <= j < old(self).roster().len() implies #[trigger] old(
                    self,
                ).roster()[j].0 != id by {
                    assert(self.clients@[j].id != id);
                }
                Err(ServerError::IdNotFound(id))
            },
        }
    }
    /// Marks the client at index `i` closed and shuts its codec down.
    fn close_at(&mut self, i: usize)
        requires
            old(self).wf(),
            i < old(self).roster().len(),
        ensures
            final(self).wf(),
            final(self).roster() == old(self).roster().update(
                i as int,
                (old(self).roster()[i as int].0, false),
            ),
            same_ids(final(self).roster(), old(self).roster()),
            final(self).message_queue == old(self).message_queue,
            final(self).last_id == old(self).last_id,
    {
        self.clients[i].open = false;
        self.clients[i].codec.shutdown();
        assert(self.roster() =~= old(self).roster().update(
            i as int,
            (old(self).roster()[i as int].0, false),
        ));
        proof {
            self.lemma_same_ids_wf(old(self));
        }
    }

    /// The index of the client that a message for `id` is handed to: the
    /// open client with that id, if there is one.
    pub fn target(&self, id: ClientId) -> (r: Option<usize>)
        requires
            self.wf(),
        ensures
            match r {
                Some(i) => i < self.roster().len() && self.roster()[i as int] == (id, true),
                None => !open_in(self.roster(), id),
            },
    {
        match self.find(id) {
            Some(i) => {
                proof {
                    lemma_entry(self.roster(), i as int);
                }
                assert(self.roster()[i as int].0 == id);
                if self.clients[i].open {
                    Some(i)
                } else {
                    None
                }
            },
            None => {
                proof {
                    lemma_absent(self.roster(), id);
                }
                None
            },
        }
    }

    /// Records what writing a message to the client at index `i` returned:
    /// success gives `Send`, a failure closes the client and gives
    /// `ClientError` with the failure.
    pub fn record_write(&mut self, i: usize, outcome: Result<(), std::io::Error>) -> (ev: Event)
        requires
            old(self).wf(),
            i < old(self).roster().len(),
        ensures
            final(self).wf(),
            ev == write_event_spec(old(self).roster()[i as int].0, outcome),
            final(self).roster() == if outcome is Err {
                old(self).roster().update(i as int, (old(self).roster()[i as int].0, false))
            } else {
                old(self).roster()
            },
            final(self).queue() == old(self).queue(),
            final(self).last_issued() == old(self).last_issued(),
    {
        let id = self.clients[i].id;
        assert(self.roster()[i as int].0 == id);
        if outcome.is_err() {
            self.close_at(i);
        }
        write_event(id, outcome)
    }

    /// Records what one read attempt on the client at index `i` returned:
    /// the event of [`read_event`], and the client closed when the outcome
    /// is an orderly close or a failure.
    pub fn record_read(&mut self, i: usize, outcome: Decoded) -> (ev: Option<Event>)
        requires
            old(self).wf(),
            i < old(self).roster().len(),
        ensures
            final(self).wf(),
            ev == read_event_spec(old(self).roster()[i as int].0, outcome),
            final(self).roster() == old(self).roster().update(
                i as int,
                (
                    old(self).roster()[i as int].0,
                    old(self).roster()[i as int].1 && !read_closes(outcome),
                ),
            ),
            final(self).queue() == old(self).queue(),
            final(self).last_issued() == old(self).last_issued(),
    {
        let id = self.clients[i].id;
        assert(self.roster()[i as int].0 == id);
        let closes = match &outcome {
            Decoded::Closed => true,
            Decoded::Failed(_) => true,
            _ => false,
        };
        if closes {
            self.close_at(i);
        } else {
            assert(self.roster() =~= old(self).roster().update(
                i as int,
                (old(self).roster()[i as int].0, old(self).roster()[i as int].1),
            ));
        }
        read_event(id, outcome)
    }

    /// Drops every closed client.
    fn prune(&mut self)
        requires
            old(self).wf(),
        ensures
            final(self).wf(),
            ids_of(final(self).roster()) == ids_where(old(self).roster(), true),
            forall|i: int| 0 <= i < final(self).roster().len() ==> #[trigger] final(self).roster()[i].1,
            final(self).roster() == pruned(old(self).roster()),
            final(self).queue() == old(self).queue(),
            final(self).last_issued() == old(self).last_issued(),
    {
        let ghost orig = old(self).roster();
        let mut rest: Vec<Client<C>> = Vec::new();
        std::mem::swap(&mut rest, &mut self.clients);
        let ghost n = rest@.len();
        let ghost mut j: int = 0;
        assert(orig.subrange(0, 0) =~= Seq::<(ClientId, bool)>::empty());
        assert(roster_of(rest@) =~= orig.subrange(0, n as int));
        assert(self.roster() =~= Seq::<(ClientId, bool)>::empty());
        assert(ids_of(self.roster()) =~= Seq::<ClientId>::empty());
        while rest.len() > 0
            invariant
                0 <= j <= n,
                rest@.len() == n - j,
                n == orig.len(),
                roster_of(rest@) == orig.subrange(j, n as int),
                ids_of(self.roster()) == ids_where(orig.subrange(0, j), true),
                forall|i: int| 0 <= i < self.roster().len() ==> #[trigger] self.roster()[i].1,
                forall|i: int, k: int|
                    0 <= i < k < self.roster().len() ==> self.roster()[i].0 < self.roster()[k].0,
                forall|i: int|
                    0 <= i < self.roster().len() ==> 0 < #[trigger] self.roster()[i].0
                        <= self.last_id,
                j < n ==> forall|i: int|
                    0 <= i < self.roster().len() ==> #[trigger] self.roster()[i].0 < orig[j].0,
                self.last_id == old(self).last_issued(),
                self.message_queue == old(self).message_queue,
                forall|i: int, k: int| 0 <= i < k < orig.len() ==> orig[i].0 < orig[k].0,
                forall|i: int| 0 <= i < orig.len() ==> 0 < #[trigger] orig[i].0 <= self.last_id,
            decreases rest@.len(),
        {
            let ghost before = self.roster();
            assert(roster_of(rest@)[0] == orig[j]);
            let ghost old_rest = rest@;
            let c = rest.remove(0);
            assert forall|k: int| 0 <= k < rest@.len() implies #[trigger] roster_of(rest@)[k]
                == orig.subrange(j + 1, n as int)[k] by {
                assert(rest@[k] == old_rest[k + 1]);
                assert(roster_of(old_rest)[k + 1] == orig.subrange(j, n as int)[k + 1]);
            }
            assert(roster_of(rest@) =~= orig.subrange(j + 1, n as int));
            let ghost upto = orig.subrange(0, j + 1);
            assert(upto.drop_last() =~= orig.subrange(0, j));
            if c.open {
                self.clients.push(c);
                assert(self.roster() =~= before.push(orig[j]));
                assert(ids_of(self.roster()) =~= ids_of(before).push(orig[j].0));
            } else {
                assert(self.roster() =~= before);
            }
            proof {
                j = j + 1;
                if j < n {
                    assert(orig[j - 1].0 < orig[j].0);
                }
            }
        }
        assert(orig.subrange(0, n as int) =~= orig);
        assert forall|i: int| 0 <= i < self.roster().len() implies #[trigger] self.roster()[i]
            == pruned(orig)[i] by {
            assert(ids_of(self.roster())[i] == self.roster()[i].0);
        }
        assert(self.roster() =~= pruned(orig));
    }

    /// Drains the outbound queue in order: a message to a client that is
    /// absent or already closed is dropped; otherwise it is written, and a
    /// failed write closes the client.
    fn send_messages(&mut self, events: &mut Vec<Event>)
        requires
            old(self).wf(),
            old(events)@.len() == 0,
            forall|j: int| 0 <= j < old(self).roster().len() ==> #[trigger] old(self).roster()[j].1,
        ensures
            closures_reported(final(self).roster(), final(events)@),
            reported_are_closed(final(self).roster(), final(events)@),
            forall|m: int| 0 <= m < final(events)@.len() ==> !(#[trigger] final(events)@[m] is Receive),
            forall|m: int|
                0 <= m < final(events)@.len() ==> !(#[trigger] final(events)@[m] is Join) && !(
                final(events)@[m] is ServerError),
            exists|outcomes: Seq<Result<(), std::io::Error>>|
                outcomes.len() == old(self).queue().len() && #[trigger] send_step(
                    old(self).roster(),
                    old(self).queue(),
                    outcomes,
                ) == (final(self).roster(), final(events)@),
            final(self).wf(),
            same_ids(final(self).roster(), old(self).roster()),
            final(self).queue().len() == 0,
            final(self).last_issued() == old(self).last_issued(),
            final(events)@.len() <= old(events)@.len() + old(self).queue().len(),
            old(events)@.len() <= final(events)@.len(),
            final(events)@.subrange(0, old(events)@.len() as int) == old(events)@,
            forall|k: int|
                old(events)@.len() <= k < final(events)@.len() ==> #[trigger] client_of(
                    final(events)@[k],
                ) is Some && has_id(old(self).roster(), client_of(final(events)@[k])->0),
    {
        let mut queue: Vec<(ClientId, String)> = Vec::new();
        std::mem::swap(&mut queue, &mut self.message_queue);
        assert(self.roster() == old(self).roster());
        let ghost start = self.roster();
        let ghost qv = old(self).queue();
        let ghost mut outs: Seq<Result<(), std::io::Error>> = Seq::empty();
        assert forall|j: int| 0 <= j < self.roster().len() && !#[trigger] self.roster()[j].1 implies exists|m: int|
            reports_end(events@, m, self.roster()[j].0) by {
            assert(old(self).roster()[j].1);
        }
        assert(events@ =~= Seq::<Event>::empty());
        assert(qv.subrange(0, 0) =~= Seq::<(ClientId, Seq<char>)>::empty());
        let mut k: usize = 0;
        while k < queue.len()
            invariant
                k <= queue@.len(),
                queue@.len() == old(self).queue().len(),
                self.wf(),
                same_ids(self.roster(), start),
                start == old(self).roster(),
                old(self).wf(),
                self.queue().len() == 0,
                self.last_id == old(self).last_issued(),
                events@.len() <= old(events)@.len() + k,
                closures_reported(self.roster(), events@),
                reported_are_closed(self.roster(), events@),
                forall|m: int| 0 <= m < events@.len() ==> !(#[trigger] events@[m] is Receive),
                forall|m: int|
                    0 <= m < events@.len() ==> !(#[trigger] events@[m] is Join) && !(
                    events@[m] is ServerError),
                qv == old(self).queue(),
                messages_view(queue@) == qv,
                outs.len() == k,
                send_step(start, qv.subrange(0, k as int), outs) == (self.roster(), events@),
                old(events)@.len() <= events@.len(),
                events@.subrange(0, old(events)@.len() as int) == old(events)@,
                forall|m: int|
                    old(events)@.len() <= m < events@.len() ==> #[trigger] client_of(events@[m]) is Some
                        && has_id(start, client_of(events@[m])->0),
            decreases queue@.len() - k,
        {
            let id = queue[k].0;
            let ghost before = events@;
            let ghost old_roster = self.roster();
            let ghost mut o: Result<(), std::io::Error> = Ok(());
            assert(qv[k as int].0 == id);
            assert(qv.subrange(0, k + 1).drop_last() =~= qv.subrange(0, k as int));
            assert(qv.subrange(0, k + 1).last() == qv[k as int]);
            match self.target(id) {
                Some(i) => {
                    assert(old_roster[i as int] == (id, true));
                    assert(old_roster[i as int].0 == start[i as int].0);
                    let outcome = self.clients[i].codec.write(queue[k].1.as_str());
                    proof {
                        o = outcome;
                    }
                    assert(self.roster() == old_roster);
                    let failed = outcome.is_err();
                    let ev = self.record_write(i, outcome);
                    proof {
                        lemma_entry(old_roster, i as int);
                        if failed {
                            lemma_report_close(old_roster, events@, i as int, ev);
                        } else {
                            lemma_report_quiet(old_roster, events@, ev);
                        }
                    }
                    events.push(ev);
                    assert(events@.subrange(0, old(events)@.len() as int) =~= before.subrange(
                        0,
                        old(events)@.len() as int,
                    ));
                },
                None => {},
            }
            proof {
                assert(outs.push(o).drop_last() =~= outs);
                outs = outs.push(o);
            }
            k += 1;
        }
        assert(qv.subrange(0, k as int) =~= qv);
        assert(self.queue() =~= Seq::<(ClientId, Seq<char>)>::empty());
    }

    /// Makes one read attempt on every client, in order of arrival; an
    /// orderly close or a failure closes the client.
    fn poll_clients(&mut self, events: &mut Vec<Event>)
        requires
            old(self).wf(),
            closures_reported(old(self).roster(), old(events)@),
            reported_are_closed(old(self).roster(), old(events)@),
            forall|m: int| 0 <= m < old(events)@.len() ==> !(#[trigger] old(events)@[m] is Receive),
            forall|m: int|
                0 <= m < old(events)@.len() ==> !(#[trigger] old(events)@[m] is Join) && !(
                old(events)@[m] is ServerError),
        ensures
            forall|m: int|
                0 <= m < final(events)@.len() ==> !(#[trigger] final(events)@[m] is Join) && !(
                final(events)@[m] is ServerError),
            closures_reported(final(self).roster(), final(events)@),
            reported_are_closed(final(self).roster(), final(events)@),
            receives_ascending(final(events)@),
            exists|outcomes: Seq<Decoded>|
                outcomes.len() == old(self).roster().len() && #[trigger] read_step(
                    old(self).roster(),
                    outcomes,
                ).0 == final(self).roster() && final(events)@ == old(events)@ + read_step(
                    old(self).roster(),
                    outcomes,
                ).1,
            final(self).wf(),
            same_ids(final(self).roster(), old(self).roster()),
            final(self).queue() == old(self).queue(),
            final(self).last_issued() == old(self).last_issued(),
            final(events)@.len() <= old(events)@.len() + old(self).roster().len(),
            old(events)@.len() <= final(events)@.len(),
            final(events)@.subrange(0, old(events)@.len() as int) == old(events)@,
            forall|k: int|
                old(events)@.len() <= k < final(events)@.len() ==> #[trigger] client_of(
                    final(events)@[k],
                ) is Some && has_id(old(self).roster(), client_of(final(events)@[k])->0),
    {
        let ghost start = self.roster();
        let ghost mut outs: Seq<Decoded> = Seq::empty();
        let n = self.clients.len();
        assert(start.subrange(0, 0) =~= Seq::<(ClientId, bool)>::empty());
        assert(self.roster() =~= start.subrange(0, 0) + start.subrange(0, n as int));
        assert(events@ =~= old(events)@ + Seq::<Event>::empty());
        let mut i: usize = 0;
        while i < n
            invariant
                i <= n,
                n == start.len(),
                self.wf(),
                same_ids(self.roster(), start),
                start == old(self).roster(),
                old(self).wf(),
                self.queue() == old(self).queue(),
                self.last_id == old(self).last_issued(),
                events@.len() <= old(events)@.len() + i,
                closures_reported(self.roster(), events@),
                reported_are_closed(self.roster(), events@),
                receives_ascending(events@),
                forall|m: int|
                    0 <= m < events@.len() ==> !(#[trigger] events@[m] is Join) && !(
                    events@[m] is ServerError),
                outs.len() == i,
                self.roster() == read_step(start.subrange(0, i as int), outs).0 + start.subrange(
                    i as int,
                    n as int,
                ),
                events@ == old(events)@ + read_step(start.subrange(0, i as int), outs).1,
                read_step(start.subrange(0, i as int), outs).0.len() == i,
                forall|m: int, j: int|
                    0 <= m < events@.len() && i <= j < n && #[trigger] (events@[m] is Receive)
                        ==> client_of(events@[m])->0 < #[trigger] start[j].0,
                old(events)@.len() <= events@.len(),
                events@.subrange(0, old(events)@.len() as int) == old(events)@,
                forall|m: int|
                    old(events)@.len() <= m < events@.len() ==> #[trigger] client_of(events@[m]) is Some
                        && has_id(start, client_of(events@[m])->0),
            decreases n - i,
        {
            let id = self.clients[i].id;
            let ghost old_roster = self.roster();
            assert(self.roster()[i as int].0 == id);
            assert(start[i as int].0 == id);
            let outcome = self.clients[i].codec.read();
            let ghost d = outcome;
            assert(self.roster() == old_roster);
            let ghost pre = read_step(start.subrange(0, i as int), outs);
            let ghost nxt = start.subrange(0, i + 1);
            assert(nxt.drop_last() =~= start.subrange(0, i as int));
            assert(outs.push(d).drop_last() =~= outs);
            assert(nxt.last() == start[i as int]);
            let closes = match &outcome {
                Decoded::Closed => true,
                Decoded::Failed(_) => true,
                _ => false,
            };
            assert(closes == read_closes(d));
            assert(old_roster[i as int] == start[i as int]) by {
                assert(old_roster[i as int] == (pre.0 + start.subrange(i as int, n as int))[i as int]);
            }
            let got = self.record_read(i, outcome);
            if !closes {
                assert(self.roster() =~= old_roster);
            }
            assert(self.roster() =~= pre.0.push((id, start[i as int].1 && !read_closes(d)))
                + start.subrange(i + 1, n as int));
            let ghost before = events@;
            match got {
                Some(ev) => {
                    proof {
                        if closes {
                            lemma_report_close(old_roster, events@, i as int, ev);
                        } else {
                            lemma_report_quiet(old_roster, events@, ev);
                        }
                        let e2 = events@.push(ev);
                        assert forall|a: int, b: int|
                            0 <= a < b < e2.len() && #[trigger] (e2[a] is Receive) && #[trigger] (
                            e2[b] is Receive) implies client_of(e2[a])->0 < client_of(e2[b])->0 by {
                            assert(e2[a] == events@[a]);
                            if b < events@.len() {
                                assert(e2[b] == events@[b]);
                            } else {
                                assert(client_of(e2[b])->0 == start[i as int].0);
                            }
                        }
                        assert forall|m: int, j: int|
                            0 <= m < e2.len() && i + 1 <= j < n && #[trigger] (e2[m] is Receive)
                                implies client_of(e2[m])->0 < #[trigger] start[j].0 by {
                            assert(start[i as int].0 < start[j].0);
                            if m < events@.len() {
                                assert(e2[m] == events@[m]);
                            }
                        }
                    }
                    events.push(ev);
                    assert(events@.subrange(0, old(events)@.len() as int) =~= before.subrange(
                        0,
                        old(events)@.len() as int,
                    ));
                },
                None => {},
            }
            assert(events@ =~= old(events)@ + read_step(nxt, outs.push(d)).1);
            proof {
                outs = outs.push(d);
            }
            i += 1;
        }
        assert(start.subrange(0, n as int) =~= start);
        assert(self.roster() =~= read_step(start, outs).0);
        assert(events@ == old(events)@ + read_step(start, outs).1);
    }

    /// One poll cycle without the accept step: drops closed clients, drains
    /// the outbound queue, then makes one read attempt on each remaining
    /// client, and returns the events in that order.
    ///
    /// Whatever the codecs return, the batch is the send step's events
    /// followed by the read step's: for some write outcome per queued message
    /// and some read outcome per remaining client, the batch and the new
    /// roster are those of [`send_step`] then [`read_step`]. There is no
    /// `Join` or `ServerError` event here; those come from [`Server::accept`].
    ///
    /// Every event is about a client that was open when the cycle began, so a
    /// client closed before it (kicked, or failed in an earlier cycle) is
    /// dropped without a word. A client closed during the cycle is reported
    /// by a leave or error event, and only such clients are; each client
    /// yields at most one received message.
    pub fn poll(&mut self) -> (evs: Vec<Event>)
        requires
            old(self).wf(),
        ensures
            final(self).wf(),
            ids_of(final(self).roster()) == ids_where(old(self).roster(), true),
            final(self).queue().len() == 0,
            final(self).last_issued() == old(self).last_issued(),
            evs@.len() <= old(self).queue().len() + ids_where(old(self).roster(), true).len(),
            forall|k: int|
                0 <= k < evs@.len() ==> #[trigger] client_of(evs@[k]) is Some && ids_where(
                    old(self).roster(),
                    true,
                ).contains(client_of(evs@[k])->0),
            closures_reported(final(self).roster(), evs@),
            reported_are_closed(final(self).roster(), evs@),
            receives_ascending(evs@),
            forall|k: int| 0 <= k < evs@.len() ==> !(#[trigger] evs@[k] is Join) && !(evs@[k] is ServerError),
            exists|writes: Seq<Result<(), std::io::Error>>, reads: Seq<Decoded>|
                writes.len() == old(self).queue().len() && reads.len() == pruned(old(self).roster()).len()
                    && #[trigger] read_step(
                    send_step(pruned(old(self).roster()), old(self).queue(), writes).0,
                    reads,
                ).0 == final(self).roster() && evs@ == send_step(
                    pruned(old(self).roster()),
                    old(self).queue(),
                    writes,
                ).1 + read_step(
                    send_step(pruned(old(self).roster()), old(self).queue(), writes).0,
                    reads,
                ).1,
    {
        self.prune();
        let ghost live = self.roster();
        let mut events: Vec<Event> = Vec::new();
        self.send_messages(&mut events);
        let ghost mid = self.roster();
        let ghost after_send = events@;
        let ghost q0 = old(self).queue();
        let ghost writes = choose|w: Seq<Result<(), std::io::Error>>|
            w.len() == q0.len() && #[trigger] send_step(live, q0, w) == (mid, after_send);
        self.poll_clients(&mut events);
        let ghost reads = choose|r: Seq<Decoded>|
            r.len() == mid.len() && #[trigger] read_step(mid, r).0 == self.roster() && events@
                == after_send + read_step(mid, r).1;
        assert(read_step(send_step(pruned(old(self).roster()), q0, writes).0, reads).0
            == self.roster());
        assert(ids_of(self.roster()) =~= ids_of(live));
        assert(ids_of(live).len() == live.len());
        assert forall|k: int| 0 <= k < events@.len() implies #[trigger] client_of(events@[k]) is Some
            && ids_where(old(self).roster(), true).contains(client_of(events@[k])->0) by {
            let x = client_of(events@[k])->0;
            if k >= after_send.len() {
                let w = choose|j: int| 0 <= j < mid.len() && mid[j].0 == x;
                assert(ids_of(live)[w] == x);
            } else {
                assert(events@[k] == events@.subrange(0, after_send.len() as int)[k]);
                let w = choose|j: int| 0 <= j < live.len() && live[j].0 == x;
                assert(ids_of(live)[w] == x);
            }
        }
        events
    }

    /// Issues the next id.
    fn next_id(&mut self) -> (id: ClientId)
        requires
            old(self).wf(),
            old(self).last_issued() < usize::MAX,
        ensures
            final(self).wf(),
            id == old(self).last_issued() + 1,
            final(self).last_issued() == id,
            final(self).roster() == old(self).roster(),
            final(self).queue() == old(self).queue(),
    {
        self.last_id = self.last_id + 1;
        assert(self.roster() == old(self).roster());
        self.last_id
    }

    /// Registers the outcome of building the codec for `id`, the id just
    /// issued: a codec joins as an open client and gives `Join(id)`; an
    /// error gives `ServerError` with that error and changes nothing.
    pub fn register(&mut self, id: ClientId, made: Result<C, std::io::Error>) -> (ev: Event)
        requires
            old(self).wf(),
            0 < id == old(self).last_issued(),
            forall|j: int| 0 <= j < old(self).roster().len() ==> #[trigger] old(self).roster()[j].0 < id,
        ensures
            final(self).wf(),
            final(self).last_issued() == old(self).last_issued(),
            final(self).queue() == old(self).queue(),
            match made {
                Ok(_) => ev == Event::Join(id) && final(self).roster() == old(self).roster().push(
                    (id, true),
                ),
                Err(e) => ev == Event::ServerError(e) && final(self).roster() == old(self).roster(),
            },
    {
        match made {
            Ok(codec) => {
                let ghost before = self.roster();
                self.clients.push(Client { id, open: true, codec });
                assert(self.roster() =~= before.push((id, true)));
                Event::Join(id)
            },
            Err(e) => Event::ServerError(e),
        }
    }

    /// The accept step for one connection: issues the next id, hands it to
    /// `make` to build the codec, and registers what `make` returned with
    /// [`Server::register`]: `Join` with the new id when it built a codec,
    /// `ServerError` with its error otherwise.
    pub fn accept<F>(&mut self, make: F) -> (ev: Event) where
        F: FnOnce(ClientId) -> Result<C, std::io::Error>,
        requires
            old(self).wf(),
            old(self).last_issued() < usize::MAX,
            call_requires(make, ((old(self).last_issued() + 1) as ClientId,)),
        ensures
            final(self).wf(),
            final(self).last_issued() == old(self).last_issued() + 1,
            final(self).queue() == old(self).queue(),
            exists|made: Result<C, std::io::Error>|
                #[trigger] call_ensures(make, (final(self).last_issued(),), made) && match made {
                    Ok(_) => ev == Event::Join(final(self).last_issued()) && final(self).roster()
                        == old(self).roster().push((final(self).last_issued(), true)),
                    Err(e) => ev == Event::ServerError(e) && final(self).roster() == old(
                        self,
                    ).roster(),
                },
    {
        let id = self.next_id();
        let made = make(id);
        let ghost g = made;
        assert(call_ensures(make, (id,), g));
        self.register(id, made)
    }
} // impl

} // verus!
