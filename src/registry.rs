//! The registry of connected clients: one handle per client id.
use vstd::prelude::*;

verus! {

/// A client id bound to the endpoint that broadcasts are written to.
pub struct ClientHandle<W> {
    pub id: u64,
    pub endpoint: W,
}

/// The ids of a sequence of handles, in order.
pub open spec fn ids_of<W>(s: Seq<ClientHandle<W>>) -> Seq<u64> {
    s.map_values(|h: ClientHandle<W>| h.id)
}

/// The handles of `s` whose id is not `id`, in order.
pub open spec fn without<W>(s: Seq<ClientHandle<W>>, id: u64) -> Seq<ClientHandle<W>>
    decreases s.len(),
{
    if s.len() == 0 {
        s
    } else {
        let rest = without(s.drop_last(), id);
        if s.last().id == id {
            rest
        } else {
            rest.push(s.last())
        }
    }
}

/// The ids that a broadcast from `sender` is written to.
pub open spec fn fan_out_ids<W>(s: Seq<ClientHandle<W>>, sender: u64) -> Seq<u64> {
    ids_of(without(s, sender))
}

/// No id stands twice in the registry.
pub open spec fn unique_ids<W>(s: Seq<ClientHandle<W>>) -> bool {
    ids_of(s).no_duplicates()
}

/// The set of currently connected clients.
pub struct Registry<W> {
    handles: Vec<ClientHandle<W>>,
}

impl<W> View for Registry<W> {
    type V = Seq<ClientHandle<W>>;

    closed spec fn view(&self) -> Seq<ClientHandle<W>> {
        self.handles@
    }
}

/// Dropping one element keeps a sequence free of duplicates.
proof fn lemma_unique_remove(s: Seq<u64>, k: int)
    requires
        0 <= k < s.len(),
        s.no_duplicates(),
    ensures
        s.remove(k).no_duplicates(),
{
    let r = s.remove(k);
    assert forall|i: int, j: int| 0 <= i < r.len() && 0 <= j < r.len() && i != j implies r[i] != r[j] by {
        let si = if i < k { i } else { i + 1 };
        let sj = if j < k { j } else { j + 1 };
        assert(r[i] == s[si] && r[j] == s[sj]);
    }
}

/// Dropping an id that no handle has changes nothing.
pub proof fn lemma_without_absent<W>(s: Seq<ClientHandle<W>>, id: u64)
    requires
        !ids_of(s).contains(id),
    ensures
        without(s, id) == s,
    decreases s.len(),
{
    if s.len() > 0 {
        assert(ids_of(s.drop_last()) =~= ids_of(s).drop_last());
        if ids_of(s.drop_last()).contains(id) {
            let j = choose|j: int| 0 <= j < ids_of(s.drop_last()).len() && ids_of(s.drop_last())[j] == id;
            assert(ids_of(s)[j] == id);
        }
        assert(ids_of(s)[s.len() - 1] == s.last().id);
        lemma_without_absent(s.drop_last(), id);
        assert(s.drop_last().push(s.last()) =~= s);
    }
}


/// An id survives dropping `x` exactly when it was there and is not `x`.
pub proof fn lemma_without_contains<W>(s: Seq<ClientHandle<W>>, x: u64, id: u64)
    ensures
        ids_of(without(s, x)).contains(id) <==> (ids_of(s).contains(id) && id != x),
    decreases s.len(),
{
    if s.len() > 0 {
        let d = s.drop_last();
        let rest = without(d, x);
        lemma_without_contains(d, x, id);
        assert(ids_of(s) =~= ids_of(d).push(s.last().id));
        lemma_push_contains(ids_of(d), s.last().id, id);
        if s.last().id != x {
            assert(ids_of(rest.push(s.last())) =~= ids_of(rest).push(s.last().id));
            lemma_push_contains(ids_of(rest), s.last().id, id);
        }
    }
}

/// Pushing `e` adds exactly `e` to what a sequence contains.
proof fn lemma_push_contains(a: Seq<u64>, e: u64, id: u64)
    ensures
        a.push(e).contains(id) <==> (a.contains(id) || e == id),
{
    let b = a.push(e);
    if a.contains(id) {
        let j = choose|j: int| 0 <= j < a.len() && a[j] == id;
        assert(b[j] == id);
    }
    if e == id {
        assert(b[a.len() as int] == id);
    }
    if b.contains(id) && e != id {
        let j = choose|j: int| 0 <= j < b.len() && b[j] == id;
        assert(a[j] == id);
    }
}

/// Dropping an id twice leaves what dropping it once left.
pub proof fn lemma_unregister_idempotent<W>(s: Seq<ClientHandle<W>>, id: u64)
    ensures
        without(without(s, id), id) == without(s, id),
        !ids_of(s).contains(id) ==> without(s, id) == s,
{
    lemma_without_contains(s, id, id);
    lemma_without_absent(without(s, id), id);
    if !ids_of(s).contains(id) {
        lemma_without_absent(s, id);
    }
}

/// A broadcast is never written back to its sender: the sender is not
/// among the recipients, and its inbox is left as it was.
pub proof fn lemma_no_self_delivery<W>(s: Seq<ClientHandle<W>>, v: Seq<(u64, Seq<u8>)>, sender: u64, payload: Seq<u8>)
    ensures
        !fan_out_ids(s, sender).contains(sender),
        forall|k: int| 0 <= k < v.len() && v[k].0 == sender ==> #[trigger] fan_out(v, sender, payload)[k] == v[k],
{
    lemma_without_contains(s, sender, sender);
}

/// A broadcast reaches every registered client but its sender, each with
/// the payload unchanged appended to what it had, and no one else.
pub proof fn lemma_fan_out_complete<W>(s: Seq<ClientHandle<W>>, v: Seq<(u64, Seq<u8>)>, sender: u64, payload: Seq<u8>)
    ensures
        forall|id: u64| id != sender ==> (#[trigger] fan_out_ids(s, sender).contains(id) <==> ids_of(s).contains(id)),
        fan_out(v, sender, payload).len() == v.len(),
        forall|k: int| 0 <= k < v.len() && v[k].0 != sender ==> #[trigger] fan_out(v, sender, payload)[k] == (v[k].0, v[k].1 + payload),
{
    assert forall|id: u64| id != sender implies (#[trigger] fan_out_ids(s, sender).contains(id) <==> ids_of(s).contains(id)) by {
        lemma_without_contains(s, sender, id);
    }
}

/// Once a client is unregistered, no later broadcast is written to it.
pub proof fn lemma_removed_never_recipient<W>(s: Seq<ClientHandle<W>>, id: u64, sender: u64)
    ensures
        !ids_of(without(s, id)).contains(id),
        !fan_out_ids(without(s, id), sender).contains(id),
{
    lemma_without_contains(s, id, id);
    lemma_without_contains(without(s, id), sender, id);
}

/// Two messages from one sender reach each other client in the order sent.
pub proof fn lemma_sender_order(v: Seq<(u64, Seq<u8>)>, sender: u64, first: Seq<u8>, second: Seq<u8>)
    ensures
        fan_out(fan_out(v, sender, first), sender, second).len() == v.len(),
        forall|k: int| 0 <= k < v.len() ==> #[trigger] fan_out(fan_out(v, sender, first), sender, second)[k] == (
        if v[k].0 == sender {
            v[k]
        } else {
            (v[k].0, v[k].1 + first + second)
        }),
{
    assert forall|k: int| 0 <= k < v.len() implies #[trigger] fan_out(fan_out(v, sender, first), sender, second)[k] == (
    if v[k].0 == sender {
        v[k]
    } else {
        (v[k].0, v[k].1 + first + second)
    }) by {
        if v[k].0 != sender {
            assert(v[k].1 + first + second =~= (v[k].1 + first) + second);
        }
    }
}

/// Where `s[k]` is the only handle with id `id`, dropping that id drops index `k`.
proof fn lemma_without_single<W>(s: Seq<ClientHandle<W>>, id: u64, k: int)
    requires
        0 <= k < s.len(),
        s[k].id == id,
        unique_ids(s),
    ensures
        without(s, id) == s.remove(k),
    decreases s.len(),
{
    let d = s.drop_last();
    assert(ids_of(d) =~= ids_of(s).drop_last());
    if k == s.len() - 1 {
        if ids_of(d).contains(id) {
            let j = choose|j: int| 0 <= j < ids_of(d).len() && ids_of(d)[j] == id;
            assert(ids_of(s)[j] == ids_of(s)[k]);
        }
        lemma_without_absent(d, id);
        assert(d =~= s.remove(k));
    } else {
        assert(ids_of(s)[s.len() - 1] != ids_of(s)[k]);
        lemma_without_single(d, id, k);
        assert(d.remove(k).push(s.last()) =~= s.remove(k));
    }
}

impl<W> Registry<W> {
    /// Ids are unique.
    pub open spec fn wf(&self) -> bool {
        unique_ids(self@)
    }

    /// The ids of the registered clients, in order of registration.
    pub open spec fn ids(&self) -> Seq<u64> {
        ids_of(self@)
    }

    /// An empty registry.
    pub fn new() -> (r: Self)
        ensures
            r.wf(),
            r@ == Seq::<ClientHandle<W>>::empty(),
    {
        Registry { handles: Vec::new() }
    }

    /// The number of registered clients.
    pub fn len(&self) -> (r: usize)
        ensures
            r == self@.len(),
    {
        self.handles.len()
    }

    /// Whether a client with id `id` is registered.
    pub fn contains(&self, id: u64) -> (r: bool)
        ensures
            r == self.ids().contains(id),
    {
        let p = self.position(id);
        proof {
            if p.is_some() {
                assert(self.ids()[p.unwrap() as int] == id);
            }
        }
        p.is_some()
    }

    /// The index of the handle with id `id`, if there is one.
    fn position(&self, id: u64) -> (r: Option<usize>)
        ensures
            r.is_none() ==> !self.ids().contains(id),
            r.is_some() ==> r.unwrap() < self@.len() && self@[r.unwrap() as int].id == id,
    {
        let mut i: usize = 0;
        while i < self.handles.len()
            invariant
                i <= self.handles@.len(),
                forall|j: int| 0 <= j < i ==> self.handles@[j].id != id,
            decreases self.handles@.len() - i,
        {
            if self.handles[i].id == id {
                return Some(i);
            }
            i = i + 1;
        }
        proof {
            if self.ids().contains(id) {
                let j = choose|j: int| 0 <= j < self.ids().len() && self.ids()[j] == id;
                assert(self@[j].id == id);
            }
        }
        None
    }

    /// The ids of every registered client but `sender`, in registry order.
    pub fn recipients(&self, sender: u64) -> (r: Vec<u64>)
        ensures
            r@ == fan_out_ids(self@, sender),
    {
        let mut r: Vec<u64> = Vec::new();
        let mut i: usize = 0;
        while i < self.handles.len()
            invariant
                i <= self.handles@.len(),
                r@ == fan_out_ids(self@.take(i as int), sender),
            decreases self.handles@.len() - i,
        {
            let ghost t = self@.take(i as int + 1);
            assert(t.drop_last() =~= self@.take(i as int));
            let id = self.handles[i].id;
            if id != sender {
                r.push(id);
                assert(r@ =~= ids_of(without(t.drop_last(), sender).push(t.last())));
            }
            i = i + 1;
        }
        assert(self@.take(self@.len() as int) =~= self@);
        r
    }

    /// The handles of every registered client but `sender`, in registry
    /// order: the snapshot a broadcast from `sender` is written to.
    pub fn snapshot(&self, sender: u64) -> (r: Vec<&ClientHandle<W>>)
        ensures
            r@.len() == without(self@, sender).len(),
            forall|k: int| 0 <= k < r@.len() ==> *r@[k] == without(self@, sender)[k],
    {
        let mut r: Vec<&ClientHandle<W>> = Vec::new();
        let mut i: usize = 0;
        while i < self.handles.len()
            invariant
                i <= self.handles@.len(),
                r@.len() == without(self@.take(i as int), sender).len(),
                forall|k: int| 0 <= k < r@.len() ==> *r@[k] == without(self@.take(i as int), sender)[k],
            decreases self.handles@.len() - i,
        {
            let ghost t = self@.take(i as int + 1);
            assert(t.drop_last() =~= self@.take(i as int));
            let h = &self.handles[i];
            if h.id != sender {
                r.push(h);
            }
            i = i + 1;
        }
        assert(self@.take(self@.len() as int) =~= self@);
        r
    }

    /// The endpoint of the client with id `id`, if it is registered.
    pub fn endpoint(&self, id: u64) -> (r: Option<&W>)
        requires
            self.wf(),
        ensures
            r.is_none() <==> !self.ids().contains(id),
            forall|k: int|
                0 <= k < self@.len() && self@[k].id == id ==> r.is_some() && *r.unwrap() == #[trigger] self@[k].endpoint,
    {
        match self.position(id) {
            None => {
                assert forall|j: int| 0 <= j < self@.len() implies self@[j].id != id by {
                    assert(self.ids()[j] == self@[j].id);
                }
                None
            },
            Some(k) => {
                assert(self.ids()[k as int] == id);
                assert forall|j: int| 0 <= j < self@.len() && self@[j].id == id implies j == k by {
                    assert(self.ids()[j] == self.ids()[k as int]);
                }
                Some(&self.handles[k].endpoint)
            },
        }
    }

    /// Adds a handle under a fresh id, after those already registered.
    pub fn register(&mut self, id: u64, endpoint: W)
        requires
            old(self).wf(),
            !old(self).ids().contains(id),
        ensures
            final(self).wf(),
            final(self)@ == old(self)@.push(ClientHandle { id, endpoint }),
    {
        let ghost before = self@;
        self.handles.push(ClientHandle { id, endpoint });
        assert(self.ids() =~= ids_of(before).push(id));
    }

    /// Removes every handle with id `id`; an absent id changes nothing.
    pub fn unregister(&mut self, id: u64)
        requires
            old(self).wf(),
        ensures
            final(self).wf(),
            final(self)@ == without(old(self)@, id),
    {
        match self.position(id) {
            None => {
                proof { lemma_without_absent(self@, id); }
            },
            Some(k) => {
                let ghost before = self@;
                proof { lemma_without_single(before, id, k as int); }
                self.handles.remove(k);
                assert(ids_of(self@) =~= ids_of(before).remove(k as int));
                proof { lemma_unique_remove(ids_of(before), k as int); }
            },
        }
    }
}


/// Each client's id with the bytes its in-memory endpoint holds.
pub open spec fn inboxes(s: Seq<ClientHandle<Vec<u8>>>) -> Seq<(u64, Seq<u8>)> {
    s.map_values(|h: ClientHandle<Vec<u8>>| (h.id, h.endpoint@))
}

/// The inboxes after `payload` from `sender` is written to every other client.
pub open spec fn fan_out(v: Seq<(u64, Seq<u8>)>, sender: u64, payload: Seq<u8>) -> Seq<(u64, Seq<u8>)> {
    v.map_values(
        |e: (u64, Seq<u8>)|
            if e.0 == sender {
                e
            } else {
                (e.0, e.1 + payload)
            },
    )
}

/// Appends `src` to `dst`.
pub(crate) fn append_bytes(dst: &mut Vec<u8>, src: &[u8])
    ensures
        final(dst)@ == old(dst)@ + src@,
{
    let mut i: usize = 0;
    while i < src.len()
        invariant
            i <= src@.len(),
            dst@ == old(dst)@ + src@.take(i as int),
        decreases src@.len() - i,
    {
        dst.push(src[i]);
        assert(src@.take(i as int + 1) =~= src@.take(i as int).push(src@[i as int]));
        i = i + 1;
    }
    assert(src@.take(src@.len() as int) =~= src@);
}

impl Registry<Vec<u8>> {
    /// Writes `payload` to the in-memory endpoint of every registered client
    /// but `sender`, in registry order; the set of clients is unchanged.
    pub fn broadcast_snapshot(&mut self, sender: u64, payload: &[u8])
        requires
            old(self).wf(),
        ensures
            final(self).wf(),
            final(self).ids() == old(self).ids(),
            inboxes(final(self)@) == fan_out(inboxes(old(self)@), sender, payload@),
    {
        let ghost before = self@;
        let mut i: usize = 0;
        while i < self.handles.len()
            invariant
                i <= self.handles@.len(),
                self@.len() == before.len(),
                forall|k: int| 0 <= k < before.len() ==> #[trigger] self@[k].id == before[k].id,
                forall|k: int| i <= k < before.len() ==> #[trigger] self@[k] == before[k],
                forall|k: int| 0 <= k < i ==> #[trigger] self@[k].endpoint@ == (if before[k].id == sender {
                    before[k].endpoint@
                } else {
                    before[k].endpoint@ + payload@
                }),
            decreases self.handles@.len() - i,
        {
            if self.handles[i].id != sender {
                append_bytes(&mut self.handles[i].endpoint, payload);
            }
            i = i + 1;
        }
        assert(self.ids() =~= ids_of(before));
        assert(inboxes(self@) =~= fan_out(inboxes(before), sender, payload@));
    }
}

} // verus!
