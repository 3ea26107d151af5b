//! The relay run in one thread over in-memory endpoints: clients connect,
//! their reads feed a first-in first-out channel, and each message taken
//! from the channel is written to every other client's inbox.
use vstd::prelude::*;
use crate::acceptor::IdAllocator;
use crate::ingress::{on_read, IngressStep, Message, ReadOutcome};
use crate::registry::{append_bytes, ClientHandle, fan_out, ids_of, inboxes, unique_ids, without, Registry};

verus! {

/// Every id in `ids` is below `next`.
pub open spec fn all_below(ids: Seq<u64>, next: u64) -> bool {
    forall|i: int| 0 <= i < ids.len() ==> ids[i] < next
}

/// The messages of a channel as (sender, payload) pairs, oldest first.
pub open spec fn queued(m: Seq<Message>) -> Seq<(u64, Seq<u8>)> {
    m.map_values(|x: Message| (x.sender, x.payload@))
}

/// A relay whose endpoints are in-memory inboxes, run one step at a time.
pub struct Relay {
    clients: Registry<Vec<u8>>,
    allocator: IdAllocator,
    channel: Vec<Message>,
}

impl Relay {
    /// The connected clients, in order of connection, each with the
    /// in-memory endpoint that broadcasts are written to.
    pub closed spec fn clients(&self) -> Seq<ClientHandle<Vec<u8>>> {
        self.clients@
    }

    /// Each connected client with the bytes written to it so far.
    pub open spec fn inboxes(&self) -> Seq<(u64, Seq<u8>)> {
        inboxes(self.clients())
    }

    /// The ids of the connected clients, in order of connection.
    pub open spec fn ids(&self) -> Seq<u64> {
        ids_of(self.clients())
    }

    /// The id the next connection receives.
    pub closed spec fn next_id(&self) -> u64 {
        self.allocator@
    }

    /// The messages waiting for the broadcaster, oldest first.
    pub closed spec fn pending(&self) -> Seq<(u64, Seq<u8>)> {
        queued(self.channel@)
    }

    /// Connected ids are unique and were all handed out already.
    pub closed spec fn wf(&self) -> bool {
        unique_ids(self.clients@) && all_below(ids_of(self.clients@), self.allocator@)
    }

    /// No two connected clients share an id, and every connected id was
    /// handed out before the next one.
    pub proof fn lemma_ids_unique(&self)
        requires
            self.wf(),
        ensures
            self.ids().no_duplicates(),
            all_below(self.ids(), self.next_id()),
            self.ids() == self.inboxes().map_values(|e: (u64, Seq<u8>)| e.0),
    {
        assert(self.ids() =~= self.inboxes().map_values(|e: (u64, Seq<u8>)| e.0));
    }

    /// A relay with no clients and an empty channel.
    pub fn new() -> (r: Self)
        ensures
            r.wf(),
            r.inboxes() == Seq::<(u64, Seq<u8>)>::empty(),
            r.pending() == Seq::<(u64, Seq<u8>)>::empty(),
            r.next_id() == 0,
    {
        let r = Relay { clients: Registry::new(), allocator: IdAllocator::new(), channel: Vec::new() };
        assert(r.inboxes() =~= Seq::<(u64, Seq<u8>)>::empty());
        assert(r.pending() =~= Seq::<(u64, Seq<u8>)>::empty());
        r
    }

    /// Accepts a connection: the client gets the next id and an empty inbox.
    /// `None` once the ids are spent, with nothing changed.
    pub fn connect(&mut self) -> (r: Option<u64>)
        requires
            old(self).wf(),
        ensures
            final(self).wf(),
            final(self).pending() == old(self).pending(),
            old(self).next_id() < u64::MAX ==> r == Some(old(self).next_id())
                && final(self).next_id() == old(self).next_id() + 1
                && final(self).inboxes() == old(self).inboxes().push((old(self).next_id(), Seq::<u8>::empty())),
            old(self).next_id() == u64::MAX ==> r.is_none()
                && final(self).clients() == old(self).clients()
                && final(self).next_id() == old(self).next_id(),
    {
        let ghost before = self.clients@;
        match self.allocator.allocate() {
            None => None,
            Some(id) => {
                proof { lemma_fresh_id_keeps_unique(ids_of(before), id); }
                self.clients.register(id, Vec::new());
                assert(self.inboxes() =~= inboxes(before).push((id, Seq::<u8>::empty())));
                assert(ids_of(self.clients@) =~= ids_of(before).push(id));
                Some(id)
            },
        }
    }

    /// Acts on one read of client `id`'s stream, as its reading worker
    /// would: bytes are queued as a message from `id`, a closed stream
    /// unregisters `id`, a failed read changes nothing. Returns whether the
    /// worker goes on reading.
    pub fn handle_read(&mut self, id: u64, outcome: ReadOutcome) -> (r: bool)
        requires
            old(self).wf(),
        ensures
            final(self).wf(),
            final(self).next_id() == old(self).next_id(),
            match outcome {
                ReadOutcome::Bytes(b) => if b@.len() == 0 {
                    !r
                        && final(self).inboxes() == inboxes(without(old(self).clients(), id))
                        && final(self).pending() == old(self).pending()
                } else {
                    r
                        && final(self).inboxes() == old(self).inboxes()
                        && final(self).pending() == old(self).pending().push((id, b@))
                },
                ReadOutcome::Error => r && *final(self) == *old(self),
            },
    {
        let step = on_read(id, outcome);
        match step {
            IngressStep::Forward(m) => {
                let ghost q = self.channel@;
                self.channel.push(m);
                assert(queued(self.channel@) =~= queued(q).push((id, outcome->Bytes_0@)));
                true
            },
            IngressStep::Close => {
                self.clients.unregister(id);
                proof { lemma_without_below(old(self).clients@, id, self.allocator@); }
                false
            },
            IngressStep::Retry => true,
        }
    }

    /// Takes the oldest message from the channel and writes its payload to
    /// every connected client but its sender. Returns `false`, with nothing
    /// changed, when the channel is empty.
    pub fn deliver_next(&mut self) -> (r: bool)
        requires
            old(self).wf(),
        ensures
            final(self).wf(),
            final(self).next_id() == old(self).next_id(),
            r == (old(self).pending().len() > 0),
            !r ==> final(self).clients() == old(self).clients() && final(self).pending() == old(self).pending(),
            r ==> final(self).pending() == old(self).pending().drop_first()
                && final(self).ids() == old(self).ids()
                && final(self).inboxes() == fan_out(
                    old(self).inboxes(),
                    old(self).pending()[0].0,
                    old(self).pending()[0].1,
                ),
    {
        if self.channel.len() == 0 {
            return false;
        }
        let ghost q = self.channel@;
        let m = self.channel.remove(0);
        assert(queued(self.channel@) =~= queued(q).drop_first());
        self.clients.broadcast_snapshot(m.sender, m.payload.as_slice());
        true
    }

    /// The bytes written so far to client `id`, if it is connected.
    pub fn inbox(&self, id: u64) -> (r: Option<Vec<u8>>)
        requires
            self.wf(),
        ensures
            r.is_none() <==> !self.ids().contains(id),
            forall|k: int|
                0 <= k < self.inboxes().len() && self.inboxes()[k].0 == id ==> r.is_some() && r.unwrap()@
                    == #[trigger] self.inboxes()[k].1,
    {
        match self.clients.endpoint(id) {
            None => None,
            Some(e) => {
                let mut out: Vec<u8> = Vec::new();
                append_bytes(&mut out, e.as_slice());
                Some(out)
            },
        }
    }
}

/// Registering the id an allocator hands out next keeps the ids unique:
/// every id already registered is below it.
pub proof fn lemma_fresh_id_keeps_unique(ids: Seq<u64>, next: u64)
    requires
        ids.no_duplicates(),
        all_below(ids, next),
        next < u64::MAX,
    ensures
        !ids.contains(next),
        ids.push(next).no_duplicates(),
        all_below(ids.push(next), (next + 1) as u64),
{
    if ids.contains(next) {
        let j = choose|j: int| 0 <= j < ids.len() && ids[j] == next;
    }
    let p = ids.push(next);
    assert forall|i: int, j: int| 0 <= i < p.len() && 0 <= j < p.len() && i != j implies p[i] != p[j] by {
        if i < ids.len() && j < ids.len() {
            assert(p[i] == ids[i] && p[j] == ids[j]);
        }
    }
}

/// What stays after dropping an id is still below the bound.
proof fn lemma_without_below(s: Seq<ClientHandle<Vec<u8>>>, id: u64, next: u64)
    requires
        all_below(ids_of(s), next),
    ensures
        all_below(ids_of(without(s, id)), next),
    decreases s.len(),
{
    if s.len() > 0 {
        assert(ids_of(s.drop_last()) =~= ids_of(s).drop_last());
        assert(ids_of(s)[s.len() - 1] == s.last().id);
        lemma_without_below(s.drop_last(), id, next);
        let rest = without(s.drop_last(), id);
        assert(ids_of(rest.push(s.last())) =~= ids_of(rest).push(s.last().id));
    }
}

} // verus!
