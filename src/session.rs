//! Nodes and their group sessions: joining, live-neighbor tracking, and the
//! derivation of new tickets from a session's state.

use vstd::prelude::*;
use crate::codec::{copy_bytes, decoded, hex_encode, hex_text, lemma_decode_encode};
use crate::endpoint::{parsed_endpoint_key, parse_endpoint_key, string_of_chars};
use crate::error::StreamError;
use crate::feed::{
    NeighborSet, RawItem, WasmStreamEvent, emitted, feed_output, neighbors_after, next_neighbors,
    string_texts,
};
use crate::ticket::Ticket;

verus! {

/// Which endpoints a derived ticket names for bootstrapping.
#[derive(Debug, Clone, Copy, PartialEq, Eq, Structural)]
pub struct TicketOpts {
    /// This node's own identity.
    pub include_myself: bool,
    /// The bootstrap keys of the ticket the session was joined with.
    pub include_bootstrap: bool,
    /// The live neighbors at the time of the call.
    pub include_neighbors: bool,
}

/// The members of a sequence, as a set.
pub open spec fn seq_set(s: Seq<Seq<u8>>) -> Set<Seq<u8>> {
    Set::new(|k: Seq<u8>| s.contains(k))
}

/// The keys that the endpoint texts at the given positions parse to; texts that do not parse give none.
pub open spec fn parsed_keys(ts: Seq<Seq<char>>) -> Set<Seq<u8>> {
    Set::new(|k: Seq<u8>| exists|m: int| 0 <= m < ts.len() && parsed_endpoint_key(ts[m]) == Some(k))
}

/// The keys that the endpoint texts of a set parse to; texts that do not parse give none.
pub open spec fn neighbor_keys(ns: Set<Seq<char>>) -> Set<Seq<u8>> {
    Set::new(|k: Seq<u8>| exists|n: Seq<char>| ns.contains(n) && parsed_endpoint_key(n) == Some(k))
}

/// The bootstrap set of a derived ticket: the union of the parts that `opts` selects.
pub open spec fn derived_bootstrap(
    opts: TicketOpts,
    me: Seq<char>,
    boot: Set<Seq<u8>>,
    live: Set<Seq<char>>,
) -> Set<Seq<u8>> {
    let mine = if opts.include_myself && parsed_endpoint_key(me) is Some {
        set![parsed_endpoint_key(me)->0]
    } else {
        Set::empty()
    };
    let orig = if opts.include_bootstrap { boot } else { Set::empty() };
    let near = if opts.include_neighbors { neighbor_keys(live) } else { Set::empty() };
    mine + orig + near
}

/// Whether deriving with `opts` fails: the node's own identity is asked for and does not parse.
pub open spec fn derive_fails(opts: TicketOpts, me: Seq<char>) -> bool {
    opts.include_myself && parsed_endpoint_key(me) is None
}

proof fn lemma_seq_set_push(s: Seq<Seq<u8>>, x: Seq<u8>)
    ensures
        seq_set(s.push(x)) == seq_set(s).insert(x),
{
    assert forall|k: Seq<u8>| seq_set(s.push(x)).contains(k) <==> seq_set(s).insert(x).contains(k) by {
        if s.push(x).contains(k) {
            let m = choose|m: int| 0 <= m < s.push(x).len() && s.push(x)[m] == k;
            if m < s.len() {
                assert(s[m] == k);
            }
        }
        if s.contains(k) {
            let m = choose|m: int| 0 <= m < s.len() && s[m] == k;
            assert(s.push(x)[m] == k);
        }
        if k == x {
            assert(s.push(x)[s.len() as int] == k);
        }
    }
    assert(seq_set(s.push(x)) =~= seq_set(s).insert(x));
}

proof fn lemma_parsed_keys_push(ts: Seq<Seq<char>>, x: Seq<char>)
    ensures
        parsed_keys(ts.push(x)) == parsed_keys(ts) + match parsed_endpoint_key(x) {
            Some(k) => set![k],
            None => Set::<Seq<u8>>::empty(),
        },
{
    let extra = match parsed_endpoint_key(x) {
        Some(k) => set![k],
        None => Set::<Seq<u8>>::empty(),
    };
    assert forall|k: Seq<u8>| parsed_keys(ts.push(x)).contains(k) <==> (parsed_keys(ts) + extra).contains(k) by {
        if parsed_keys(ts.push(x)).contains(k) {
            let m = choose|m: int| 0 <= m < ts.push(x).len() && parsed_endpoint_key(ts.push(x)[m]) == Some(k);
            if m < ts.len() {
                assert(ts.push(x)[m] == ts[m]);
            }
        }
        if parsed_keys(ts).contains(k) {
            let m = choose|m: int| 0 <= m < ts.len() && parsed_endpoint_key(ts[m]) == Some(k);
            assert(ts.push(x)[m] == ts[m]);
        }
        if extra.contains(k) {
            assert(ts.push(x)[ts.len() as int] == x);
        }
    }
    assert(parsed_keys(ts.push(x)) =~= parsed_keys(ts) + extra);
}

proof fn lemma_parsed_keys_of_set(ns: &NeighborSet)
    ensures
        parsed_keys(ns.texts()) == neighbor_keys(ns.view()),
{
    assert forall|k: Seq<u8>| parsed_keys(ns.texts()).contains(k) <==> neighbor_keys(ns.view()).contains(k) by {
        if parsed_keys(ns.texts()).contains(k) {
            let m = choose|m: int| 0 <= m < ns.texts().len() && parsed_endpoint_key(ns.texts()[m]) == Some(k);
            assert(ns.view().contains(ns.texts()[m]));
        }
        if neighbor_keys(ns.view()).contains(k) {
            let n = choose|n: Seq<char>| ns.view().contains(n) && parsed_endpoint_key(n) == Some(k);
            let m = choose|m: int| 0 <= m < ns.texts().len() && ns.texts()[m] == n;
            assert(parsed_endpoint_key(ns.texts()[m]) == Some(k));
        }
    }
    assert(parsed_keys(ns.texts()) =~= neighbor_keys(ns.view()));
}

/// A payload that a session broadcasts to its group.
pub enum OutboundMessage {
    Presence { name: String, sent_timestamp: u64 },
    MediaChunk { data: Vec<u8>, sequence: u64, timestamp: u64 },
    Signal { data: Vec<u8>, timestamp: u64 },
}

/// The outbound side of a session: it holds the display name sent with presence.
pub struct StreamSender {
    pub name: String,
}

impl StreamSender {
    /// A sender that announces itself under `name`.
    pub fn new(name: String) -> (r: StreamSender)
        ensures
            r.name@ == name@,
    {
        StreamSender { name }
    }

    /// The name sent with the next presence announcement.
    pub fn name(&self) -> (r: String)
        ensures
            r@ == self.name@,
    {
        self.name.clone()
    }

    /// The message that carries a media chunk; sequence numbers are the caller's own.
    pub fn broadcast_chunk(&self, data: Vec<u8>, sequence: u32, now: u64) -> (r: OutboundMessage)
        ensures
            r == (OutboundMessage::MediaChunk { data, sequence: sequence as u64, timestamp: now }),
    {
        OutboundMessage::MediaChunk { data, sequence: sequence as u64, timestamp: now }
    }

    /// The presence announcement: the current name and the time of sending.
    pub fn send_presence(&self, now: u64) -> (r: OutboundMessage)
        ensures
            r matches OutboundMessage::Presence { name, sent_timestamp } && name@ == self.name@
                && sent_timestamp == now,
    {
        OutboundMessage::Presence { name: self.name.clone(), sent_timestamp: now }
    }

    /// The message that carries an opaque signaling payload.
    pub fn send_signal(&self, data: Vec<u8>, now: u64) -> (r: OutboundMessage)
        ensures
            r == (OutboundMessage::Signal { data, timestamp: now }),
    {
        OutboundMessage::Signal { data, timestamp: now }
    }

    /// Sets the name used by later presence announcements.
    pub fn set_name(&mut self, name: String)
        ensures
            final(self).name@ == name@,
    {
        self.name = name;
    }
}

/// One joined group: the ticket it was joined with, this node's identity, the
/// live neighbors, and the outbound sender.
pub struct Stream {
    pub me: String,
    pub ticket: Ticket,
    pub neighbors: NeighborSet,
    pub sender: StreamSender,
}

impl Stream {
    /// The joining ticket and the neighbor set are well formed.
    pub open spec fn wf(&self) -> bool {
        self.ticket.wf() && self.neighbors.wf()
    }

    /// A session for `ticket`, with no neighbors seen yet.
    pub fn new(ticket: Ticket, me: String, name: String) -> (r: Stream)
        requires
            ticket.wf(),
        ensures
            r.wf(),
            r.ticket == ticket,
            r.me@ == me@,
            r.sender.name@ == name@,
            r.neighbors.view() == Set::<Seq<char>>::empty(),
            r.neighbors.texts().len() == 0,
    {
        Stream { me, ticket, neighbors: NeighborSet::new(), sender: StreamSender::new(name) }
    }

    /// A sender for this session, with its current name.
    pub fn sender(&self) -> (r: StreamSender)
        ensures
            r.name@ == self.sender.name@,
    {
        StreamSender { name: self.sender.name() }
    }

    /// The topic as lowercase hex.
    pub fn id(&self) -> (r: String)
        requires
            self.wf(),
        ensures
            r@ == hex_text(self.ticket.topic@),
    {
        let cs = hex_encode(&self.ticket.topic);
        string_of_chars(&cs)
    }

    /// The endpoints currently known to be live, each once.
    pub fn neighbors(&self) -> (r: Vec<String>)
        requires
            self.wf(),
        ensures
            string_texts(r@) == self.neighbors.texts(),
    {
        self.neighbors.to_vec()
    }

    /// Takes one item pulled from the overlay: updates the live neighbors first,
    /// then returns the public event, or nothing for a delivery error.
    pub fn observe(&mut self, item: RawItem) -> (r: Option<WasmStreamEvent>)
        requires
            old(self).wf(),
        ensures
            final(self).wf(),
            final(self).ticket == old(self).ticket,
            final(self).me == old(self).me,
            final(self).neighbors.view() == next_neighbors(old(self).neighbors.view(), item),
            r == emitted(item),
    {
        self.neighbors.observe(item)
    }

    /// Takes a run of pulled items in order and returns the public events.
    pub fn observe_all(&mut self, items: Vec<RawItem>) -> (r: Vec<WasmStreamEvent>)
        requires
            old(self).wf(),
        ensures
            final(self).wf(),
            final(self).ticket == old(self).ticket,
            final(self).me == old(self).me,
            final(self).neighbors.view() == neighbors_after(old(self).neighbors.view(), items@),
            r@ == feed_output(items@),
    {
        self.neighbors.observe_all(items)
    }

    /// A new ticket for this session's topic whose bootstrap set is what `opts` selects.
    pub fn derive_ticket(&self, opts: TicketOpts) -> (r: Result<Ticket, StreamError>)
        requires
            self.wf(),
            1 + self.ticket.keys().len() + self.neighbors.texts().len() <= u32::MAX,
        ensures
            r is Err <==> derive_fails(opts, self.me@),
            match r {
                Ok(t) => t.wf() && t.topic@ == self.ticket.topic@
                    && t.keys().len() <= 1 + self.ticket.keys().len() + self.neighbors.texts().len()
                    && t.bootstrap_set() == derived_bootstrap(
                    opts,
                    self.me@,
                    self.ticket.bootstrap_set(),
                    self.neighbors.view(),
                ),
                Err(e) => e == StreamError::InvariantViolation,
            },
    {
        let mut t = Ticket::new(copy_bytes(&self.ticket.topic));
        let ghost boot = self.ticket.keys();
        let ghost texts = self.neighbors.texts();
        if opts.include_myself {
            match parse_endpoint_key(self.me.as_str()) {
                Some(k) => {
                    t.insert(k);
                },
                None => {
                    return Err(StreamError::InvariantViolation);
                },
            }
        }
        let ghost mine = t.bootstrap_set();
        assert(t.keys().len() <= 1);
        if opts.include_bootstrap {
            let mut i: usize = 0;
            assert(seq_set(boot.take(0)) =~= Set::<Seq<u8>>::empty());
            while i < self.ticket.bootstrap.len()
                invariant
                    self.wf(),
                    boot == self.ticket.keys(),
                    1 + boot.len() + texts.len() <= u32::MAX,
                    i <= boot.len(),
                    t.wf(),
                    t.topic@ == self.ticket.topic@,
                    t.keys().len() <= 1 + i,
                    t.bootstrap_set() == mine + seq_set(boot.take(i as int)),
                decreases boot.len() - i,
            {
                let k = copy_bytes(&self.ticket.bootstrap[i]);
                assert(k@ == boot[i as int]);
                t.insert(k);
                proof {
                    assert(boot.take(i + 1) =~= boot.take(i as int).push(boot[i as int]));
                    lemma_seq_set_push(boot.take(i as int), boot[i as int]);
                    assert(t.bootstrap_set() =~= mine + seq_set(boot.take(i + 1)));
                }
                i = i + 1;
            }
            assert(boot.take(i as int) =~= boot);
            assert(seq_set(boot) =~= self.ticket.bootstrap_set());
        }
        let ghost mid = t.bootstrap_set();
        let ghost mid_len = if opts.include_bootstrap { boot.len() } else { 0 };
        if opts.include_neighbors {
            let mut i: usize = 0;
            assert(parsed_keys(texts.take(0)) =~= Set::<Seq<u8>>::empty());
            while i < self.neighbors.ids.len()
                invariant
                    self.wf(),
                    texts == self.neighbors.texts(),
                    1 + boot.len() + texts.len() <= u32::MAX,
                    mid_len <= boot.len(),
                    i <= texts.len(),
                    t.wf(),
                    t.topic@ == self.ticket.topic@,
                    t.keys().len() <= 1 + mid_len + i,
                    t.bootstrap_set() == mid + parsed_keys(texts.take(i as int)),
                decreases texts.len() - i,
            {
                let p = parse_endpoint_key(self.neighbors.ids[i].as_str());
                proof {
                    assert(self.neighbors.ids@[i as int]@ == texts[i as int]);
                    assert(texts.take(i + 1) =~= texts.take(i as int).push(texts[i as int]));
                    lemma_parsed_keys_push(texts.take(i as int), texts[i as int]);
                }
                match p {
                    Some(k) => {
                        t.insert(k);
                        assert(t.bootstrap_set() =~= mid + parsed_keys(texts.take(i + 1)));
                    },
                    None => {
                        assert(t.bootstrap_set() =~= mid + parsed_keys(texts.take(i + 1)));
                    },
                }
                i = i + 1;
            }
            assert(texts.take(i as int) =~= texts);
            proof {
                lemma_parsed_keys_of_set(&self.neighbors);
            }
        }
        assert(t.bootstrap_set() =~= derived_bootstrap(
            opts,
            self.me@,
            self.ticket.bootstrap_set(),
            self.neighbors.view(),
        ));
        Ok(t)
    }

    /// The text of a derived ticket (see `derive_ticket`).
    pub fn ticket(&self, opts: TicketOpts) -> (r: Result<String, StreamError>)
        requires
            self.wf(),
            1 + self.ticket.keys().len() + self.neighbors.texts().len() <= u32::MAX,
            2 * (37 + 32 * (1 + self.ticket.keys().len() + self.neighbors.texts().len())) <= usize::MAX,
        ensures
            r is Err <==> derive_fails(opts, self.me@),
            match r {
                Ok(s) => decoded(s@) matches Some((topic, keys)) && topic == self.ticket.topic@
                    && seq_set(keys) == derived_bootstrap(
                    opts,
                    self.me@,
                    self.ticket.bootstrap_set(),
                    self.neighbors.view(),
                ),
                Err(e) => e == StreamError::InvariantViolation,
            },
    {
        match self.derive_ticket(opts) {
            Err(e) => Err(e),
            Ok(t) => {
                let s = t.serialize_ticket();
                proof {
                    lemma_decode_encode(t.topic@, t.keys());
                    assert(seq_set(t.keys()) =~= t.bootstrap_set());
                }
                Ok(s)
            },
        }
    }
}

/// A node: its own identity and whether it has been shut down.
pub struct StreamingNode {
    pub endpoint_id: String,
    pub closed: bool,
}

impl StreamingNode {
    /// A running node with the given identity.
    pub fn new(endpoint_id: String) -> (r: StreamingNode)
        ensures
            r.endpoint_id@ == endpoint_id@,
            !r.closed,
    {
        StreamingNode { endpoint_id, closed: false }
    }

    /// This node's identity as text.
    pub fn endpoint_id(&self) -> (r: String)
        ensures
            r@ == self.endpoint_id@,
    {
        self.endpoint_id.clone()
    }

    /// Whether the node has been shut down.
    pub fn is_closed(&self) -> (r: bool)
        ensures
            r == self.closed,
    {
        self.closed
    }

    /// Shuts the node down; a second call changes nothing and reports `NodeClosed`.
    pub fn shutdown(&mut self) -> (r: Result<(), StreamError>)
        ensures
            final(self).closed,
            final(self).endpoint_id == old(self).endpoint_id,
            r == if old(self).closed { Err(StreamError::NodeClosed) } else { Ok::<(), StreamError>(()) },
    {
        if self.closed {
            Err(StreamError::NodeClosed)
        } else {
            self.closed = true;
            Ok(())
        }
    }

    /// Starts a session on `ticket`; fails with `NodeClosed` after shutdown.
    pub fn join(&self, ticket: Ticket, name: String) -> (r: Result<Stream, StreamError>)
        requires
            ticket.wf(),
        ensures
            r is Err <==> self.closed,
            match r {
                Ok(s) => s.wf() && s.ticket == ticket && s.me@ == self.endpoint_id@
                    && s.sender.name@ == name@ && s.neighbors.view() == Set::<Seq<char>>::empty()
                    && s.neighbors.texts().len() == 0,
                Err(e) => e == StreamError::NodeClosed,
            },
    {
        if self.closed {
            return Err(StreamError::NodeClosed);
        }
        Ok(Stream::new(ticket, self.endpoint_id(), name))
    }

    /// Starts a new group on a fresh topic, with no bootstrap keys.
    pub fn create_stream(&self, topic: Vec<u8>, name: String) -> (r: Result<Stream, StreamError>)
        requires
            topic@.len() == crate::endpoint::KEY_LEN,
        ensures
            r is Err <==> self.closed,
            match r {
                Ok(s) => s.wf() && s.ticket.topic@ == topic@ && s.ticket.keys().len() == 0
                    && s.me@ == self.endpoint_id@ && s.sender.name@ == name@
                    && s.neighbors.view() == Set::<Seq<char>>::empty()
                    && s.neighbors.texts().len() == 0,
                Err(e) => e == StreamError::NodeClosed,
            },
    {
        self.join(Ticket::new(topic), name)
    }

    /// Joins the group that a ticket's text names.
    pub fn join_stream(&self, ticket_str: &str, name: String) -> (r: Result<Stream, StreamError>)
        ensures
            match r {
                Ok(s) => !self.closed && s.wf()
                    && decoded(ticket_str@) == Some((s.ticket.topic@, s.ticket.keys()))
                    && s.me@ == self.endpoint_id@ && s.sender.name@ == name@
                    && s.neighbors.view() == Set::<Seq<char>>::empty()
                    && s.neighbors.texts().len() == 0,
                Err(e) => if self.closed {
                    e == StreamError::NodeClosed
                } else {
                    e == StreamError::InvalidTicket && decoded(ticket_str@) is None
                },
            },
    {
        if self.closed {
            return Err(StreamError::NodeClosed);
        }
        let ticket = Ticket::deserialize_ticket(ticket_str)?;
        self.join(ticket, name)
    }
}

/// A ticket derived with every switch off names no bootstrap endpoint.
pub proof fn lemma_plain_ticket_is_empty(me: Seq<char>, boot: Set<Seq<u8>>, live: Set<Seq<char>>)
    ensures
        derived_bootstrap(
            TicketOpts { include_myself: false, include_bootstrap: false, include_neighbors: false },
            me,
            boot,
            live,
        ) == Set::<Seq<u8>>::empty(),
        !derive_fails(
            TicketOpts { include_myself: false, include_bootstrap: false, include_neighbors: false },
            me,
        ),
{
    assert(derived_bootstrap(
        TicketOpts { include_myself: false, include_bootstrap: false, include_neighbors: false },
        me,
        boot,
        live,
    ) =~= Set::<Seq<u8>>::empty());
}

} // verus!
