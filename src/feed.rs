//! The inbound event feed: overlay events in, public events out, with the live
//! neighbor set kept up to date from membership events.

use vstd::prelude::*;

verus! {

/// An event as the overlay delivers it for one topic; endpoints are given as text.
pub enum StreamEvent {
    NeighborUp { endpoint_id: String },
    NeighborDown { endpoint_id: String },
    Presence { from: String, name: String, sent_timestamp: u64 },
    MediaChunk { from: String, data: Vec<u8>, sequence: u64, timestamp: u64 },
    Signal { from: String, data: Vec<u8>, timestamp: u64 },
    Lagged,
}

/// An event as the session hands it to its consumer.
pub enum WasmStreamEvent {
    NeighborUp { endpoint_id: String },
    NeighborDown { endpoint_id: String },
    Presence { from: String, name: String, sent_timestamp: u64 },
    MediaChunk { from: String, data: Vec<u8>, sequence: u64, timestamp: u64 },
    Signal { from: String, data: Vec<u8>, timestamp: u64 },
    Lagged,
}

/// One item pulled from the overlay: an event, or a delivery error with its description.
pub type RawItem = Result<StreamEvent, String>;

/// The public form of an overlay event: the same variant with the same fields.
pub open spec fn public_event(e: StreamEvent) -> WasmStreamEvent {
    match e {
        StreamEvent::NeighborUp { endpoint_id } => WasmStreamEvent::NeighborUp { endpoint_id },
        StreamEvent::NeighborDown { endpoint_id } => WasmStreamEvent::NeighborDown { endpoint_id },
        StreamEvent::Presence { from, name, sent_timestamp } => WasmStreamEvent::Presence {
            from,
            name,
            sent_timestamp,
        },
        StreamEvent::MediaChunk { from, data, sequence, timestamp } =>
            WasmStreamEvent::MediaChunk { from, data, sequence, timestamp },
        StreamEvent::Signal { from, data, timestamp } => WasmStreamEvent::Signal {
            from,
            data,
            timestamp,
        },
        StreamEvent::Lagged => WasmStreamEvent::Lagged,
    }
}

/// What the feed emits for one pulled item: nothing for a delivery error.
pub open spec fn emitted(item: RawItem) -> Option<WasmStreamEvent> {
    match item {
        Ok(e) => Some(public_event(e)),
        Err(_) => None,
    }
}

/// The live neighbor set after one pulled item.
pub open spec fn next_neighbors(s: Set<Seq<char>>, item: RawItem) -> Set<Seq<char>> {
    match item {
        Ok(StreamEvent::NeighborUp { endpoint_id }) => s.insert(endpoint_id@),
        Ok(StreamEvent::NeighborDown { endpoint_id }) => s.remove(endpoint_id@),
        _ => s,
    }
}

/// The live neighbor set after a run of pulled items, in order.
pub open spec fn neighbors_after(s: Set<Seq<char>>, items: Seq<RawItem>) -> Set<Seq<char>>
    decreases items.len(),
{
    if items.len() == 0 {
        s
    } else {
        next_neighbors(neighbors_after(s, items.drop_last()), items.last())
    }
}

/// The public events for a run of pulled items, in arrival order.
pub open spec fn feed_output(items: Seq<RawItem>) -> Seq<WasmStreamEvent>
    decreases items.len(),
{
    if items.len() == 0 {
        Seq::empty()
    } else {
        match emitted(items.last()) {
            Some(e) => feed_output(items.drop_last()).push(e),
            None => feed_output(items.drop_last()),
        }
    }
}

/// Whether the item announces that `x` came up.
pub open spec fn is_up_of(item: RawItem, x: Seq<char>) -> bool {
    item matches Ok(StreamEvent::NeighborUp { endpoint_id }) && endpoint_id@ == x
}

/// Whether the item announces that `x` went down.
pub open spec fn is_down_of(item: RawItem, x: Seq<char>) -> bool {
    item matches Ok(StreamEvent::NeighborDown { endpoint_id }) && endpoint_id@ == x
}

/// The texts of a list of strings.
pub open spec fn string_texts(v: Seq<String>) -> Seq<Seq<char>> {
    v.map_values(|s: String| s@)
}

/// Translates one overlay event into its public form.
pub fn to_public(e: StreamEvent) -> (r: WasmStreamEvent)
    ensures
        r == public_event(e),
{
    match e {
        StreamEvent::NeighborUp { endpoint_id } => WasmStreamEvent::NeighborUp { endpoint_id },
        StreamEvent::NeighborDown { endpoint_id } => WasmStreamEvent::NeighborDown { endpoint_id },
        StreamEvent::Presence { from, name, sent_timestamp } => WasmStreamEvent::Presence {
            from,
            name,
            sent_timestamp,
        },
        StreamEvent::MediaChunk { from, data, sequence, timestamp } =>
            WasmStreamEvent::MediaChunk { from, data, sequence, timestamp },
        StreamEvent::Signal { from, data, timestamp } => WasmStreamEvent::Signal {
            from,
            data,
            timestamp,
        },
        StreamEvent::Lagged => WasmStreamEvent::Lagged,
    }
}

/// The endpoints currently known to be live in one session, each held once.
pub struct NeighborSet {
    pub ids: Vec<String>,
}

impl NeighborSet {
    /// The held endpoint texts in the order held.
    pub open spec fn texts(&self) -> Seq<Seq<char>> {
        string_texts(self.ids@)
    }

    /// The held endpoint texts as a set.
    pub open spec fn view(&self) -> Set<Seq<char>> {
        Set::new(|x: Seq<char>| self.texts().contains(x))
    }

    /// No endpoint is held twice.
    pub open spec fn wf(&self) -> bool {
        forall|i: int, j: int| 0 <= i < j < self.texts().len() ==> self.texts()[i] != self.texts()[j]
    }

    /// An empty set.
    pub fn new() -> (r: NeighborSet)
        ensures
            r.wf(),
            r.view() == Set::<Seq<char>>::empty(),
            r.texts().len() == 0,
    {
        let r = NeighborSet { ids: Vec::new() };
        assert(r.view() =~= Set::<Seq<char>>::empty());
        r
    }

    /// The number of endpoints held.
    pub fn len(&self) -> (r: usize)
        ensures
            r == self.texts().len(),
    {
        self.ids.len()
    }

    /// The position of `id`, if held.
    fn find(&self, id: &String) -> (r: Option<usize>)
        ensures
            match r {
                Some(i) => i < self.texts().len() && self.texts()[i as int] == id@,
                None => !self.view().contains(id@),
            },
    {
        let mut i: usize = 0;
        while i < self.ids.len()
            invariant
                i <= self.ids@.len(),
                forall|m: int| 0 <= m < i ==> self.texts()[m] != id@,
            decreases self.ids@.len() - i,
        {
            if self.ids[i] == *id {
                return Some(i);
            }
            i = i + 1;
        }
        None
    }

    /// Whether `id` is held.
    pub fn contains(&self, id: &String) -> (r: bool)
        ensures
            r == self.view().contains(id@),
    {
        self.find(id).is_some()
    }

    /// Adds `id`; nothing changes if it is already held.
    pub fn insert(&mut self, id: String)
        requires
            old(self).wf(),
        ensures
            final(self).wf(),
            final(self).view() == old(self).view().insert(id@),
    {
        if self.contains(&id) {
            assert(self.view().insert(id@) =~= self.view());
            return;
        }
        let ghost before = self.texts();
        self.ids.push(id);
        assert(self.texts() =~= before.push(id@));
        assert(self.view() =~= old(self).view().insert(id@)) by {
            assert forall|x: Seq<char>| self.texts().contains(x) <==> (before.contains(x) || x == id@) by {
                if self.texts().contains(x) {
                    let m = choose|m: int| 0 <= m < self.texts().len() && self.texts()[m] == x;
                    if m < before.len() {
                        assert(before[m] == x);
                    }
                }
                if before.contains(x) {
                    let m = choose|m: int| 0 <= m < before.len() && before[m] == x;
                    assert(self.texts()[m] == x);
                }
                if x == id@ {
                    assert(self.texts()[before.len() as int] == x);
                }
            }
        }
    }

    /// Drops `id`; nothing changes if it is not held.
    pub fn remove(&mut self, id: &String)
        requires
            old(self).wf(),
        ensures
            final(self).wf(),
            final(self).view() == old(self).view().remove(id@),
    {
        match self.find(id) {
            None => {
                assert(self.view().remove(id@) =~= self.view());
            },
            Some(i) => {
                let ghost before = self.texts();
                self.ids.remove(i);
                assert(self.texts() =~= before.remove(i as int));
                assert(self.view() =~= old(self).view().remove(id@)) by {
                    assert forall|x: Seq<char>| self.texts().contains(x) <==> (before.contains(x) && x != id@) by {
                        if self.texts().contains(x) {
                            let m = choose|m: int| 0 <= m < self.texts().len() && self.texts()[m] == x;
                            if m < i {
                                assert(before[m] == x);
                            } else {
                                assert(before[m + 1] == x);
                            }
                        }
                        if before.contains(x) && x != id@ {
                            let m = choose|m: int| 0 <= m < before.len() && before[m] == x;
                            if m < i {
                                assert(self.texts()[m] == x);
                            } else {
                                assert(m != i);
                                assert(self.texts()[m - 1] == x);
                            }
                        }
                    }
                }
            },
        }
    }

    /// A copy of the held endpoint texts.
    pub fn to_vec(&self) -> (r: Vec<String>)
        ensures
            string_texts(r@) == self.texts(),
    {
        let mut out: Vec<String> = Vec::new();
        let mut i: usize = 0;
        while i < self.ids.len()
            invariant
                i <= self.ids@.len(),
                out@.len() == i,
                string_texts(out@) =~= self.texts().take(i as int),
            decreases self.ids@.len() - i,
        {
            let c: String = self.ids[i].clone();
            assert(c@ == self.texts()[i as int]);
            let ghost prev = out@;
            out.push(c);
            i = i + 1;
            assert forall|m: int| 0 <= m < i implies string_texts(out@)[m] == self.texts()[m] by {
                if m < i - 1 {
                    assert(out@[m] == prev[m]);
                    assert(string_texts(prev)[m] == self.texts()[m]);
                }
            }
            assert(string_texts(out@) =~= self.texts().take(i as int));
        }
        assert(self.texts().take(i as int) =~= self.texts());
        out
    }

    /// One step of the feed: updates the set from a membership event and returns
    /// the public event, or nothing for a delivery error.
    pub fn observe(&mut self, item: RawItem) -> (r: Option<WasmStreamEvent>)
        requires
            old(self).wf(),
        ensures
            final(self).wf(),
            final(self).view() == next_neighbors(old(self).view(), item),
            r == emitted(item),
    {
        match item {
            Err(_) => None,
            Ok(e) => {
                match &e {
                    StreamEvent::NeighborUp { endpoint_id } => {
                        self.insert(endpoint_id.clone());
                    },
                    StreamEvent::NeighborDown { endpoint_id } => {
                        self.remove(endpoint_id);
                    },
                    _ => {},
                }
                Some(to_public(e))
            },
        }
    }

    /// Runs the feed over pulled items in order, dropping delivery errors.
    pub fn observe_all(&mut self, items: Vec<RawItem>) -> (r: Vec<WasmStreamEvent>)
        requires
            old(self).wf(),
        ensures
            final(self).wf(),
            final(self).view() == neighbors_after(old(self).view(), items@),
            r@ == feed_output(items@),
    {
        let ghost all = items@;
        let n: usize = items.len();
        let ghost start = self.view();
        let mut out: Vec<WasmStreamEvent> = Vec::new();
        let mut src = items;
        let mut rest: Vec<RawItem> = Vec::new();
        while src.len() > 0
            invariant
                src@.len() + rest@.len() == all.len(),
                forall|m: int| 0 <= m < src@.len() ==> src@[m] == all[m],
                forall|m: int| 0 <= m < rest@.len() ==> rest@[m] == all[all.len() - 1 - m],
            decreases src@.len(),
        {
            let item = src.pop().unwrap();
            rest.push(item);
        }
        let mut i: usize = 0;
        while rest.len() > 0
            invariant
                self.wf(),
                i + rest@.len() == all.len(),
                all.len() == n,
                forall|m: int| 0 <= m < rest@.len() ==> rest@[m] == all[all.len() - 1 - m],
                self.view() == neighbors_after(start, all.take(i as int)),
                out@ == feed_output(all.take(i as int)),
            decreases rest@.len(),
        {
            let item = rest.pop().unwrap();
            assert(item == all[i as int]);
            assert(all.take(i as int + 1).drop_last() =~= all.take(i as int));
            let e = self.observe(item);
            match e {
                Some(ev) => out.push(ev),
                None => {},
            }
            i = i + 1;
        }
        assert(all.take(i as int) =~= all);
        out
    }
}

/// An endpoint stays live from the event that brings it up until one that takes it down.
pub proof fn lemma_up_until_down(s: Set<Seq<char>>, items: Seq<RawItem>, x: Seq<char>, i: int)
    requires
        0 <= i < items.len(),
        is_up_of(items[i], x),
        forall|j: int| i < j < items.len() ==> !is_down_of(#[trigger] items[j], x),
    ensures
        neighbors_after(s, items).contains(x),
    decreases items.len(),
{
    if i < items.len() - 1 {
        let prev = items.drop_last();
        assert forall|j: int| i < j < prev.len() implies !is_down_of(#[trigger] prev[j], x) by {
            assert(prev[j] == items[j]);
        }
        lemma_up_until_down(s, prev, x, i);
        assert(!is_down_of(items.last(), x));
    }
}

/// An endpoint stays gone from the event that takes it down until one that brings it up.
pub proof fn lemma_down_until_up(s: Set<Seq<char>>, items: Seq<RawItem>, x: Seq<char>, i: int)
    requires
        0 <= i < items.len(),
        is_down_of(items[i], x),
        forall|j: int| i < j < items.len() ==> !is_up_of(#[trigger] items[j], x),
    ensures
        !neighbors_after(s, items).contains(x),
    decreases items.len(),
{
    if i < items.len() - 1 {
        let prev = items.drop_last();
        assert forall|j: int| i < j < prev.len() implies !is_up_of(#[trigger] prev[j], x) by {
            assert(prev[j] == items[j]);
        }
        lemma_down_until_up(s, prev, x, i);
        assert(!is_up_of(items.last(), x));
    }
}

} // verus!
