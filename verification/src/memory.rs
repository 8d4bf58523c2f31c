//! An in-memory event store that assigns global ordering, keeps one ordered
//! event history per source, and serves resumable catch-up reads.

use vstd::prelude::*;

use crate::EventStore;
use crate::PersistedEvent;
use crate::SourceId;
use crate::numbered_from;

verus! {

/// One source's recorded history: its identifier and the `(global offset,
/// payload)` pairs in append order.
type Bucket<Event> = (SourceId, Vec<(usize, Event)>);

/// The history that `buckets` records for `source_id`: the entries of the
/// first (and, under the store's invariant, only) bucket with that id, or the
/// empty sequence if no bucket has it.
spec fn lookup<Event>(buckets: Seq<Bucket<Event>>, source_id: SourceId) -> Seq<(usize, Event)>
    decreases buckets.len(),
{
    if buckets.len() == 0 {
        Seq::empty()
    } else if buckets[0].0 == source_id {
        buckets[0].1@
    } else {
        lookup(buckets.drop_first(), source_id)
    }
}

/// Whether `buckets` holds a bucket for `source_id`.
spec fn has_bucket<Event>(buckets: Seq<Bucket<Event>>, source_id: SourceId) -> bool
    decreases buckets.len(),
{
    if buckets.len() == 0 {
        false
    } else {
        buckets[0].0 == source_id || has_bucket(buckets.drop_first(), source_id)
    }
}

/// Well-formed entries of one bucket: global offsets strictly increasing in
/// storage order, and all below the store's next free offset.
spec fn entries_wf<Event>(entries: Seq<(usize, Event)>, bound: usize) -> bool {
    &&& (forall|k: int, l: int| 0 <= k < l < entries.len() ==> entries[k].0 < entries[l].0)
    &&& (forall|k: int| 0 <= k < entries.len() ==> (#[trigger] entries[k]).0 < bound)
}

/// Two histories never holding a common global offset.
spec fn disjoint_offsets<Event>(a: Seq<(usize, Event)>, b: Seq<(usize, Event)>) -> bool {
    forall|k: int, l: int| 0 <= k < a.len() && 0 <= l < b.len() ==> a[k].0 != b[l].0
}

/// `lookup` reads the bucket that holds `source_id`, provided no earlier
/// bucket holds it.
proof fn lemma_lookup_at<Event>(buckets: Seq<Bucket<Event>>, i: int)
    requires
        0 <= i < buckets.len(),
        forall|j: int| 0 <= j < i ==> (#[trigger] buckets[j]).0 != buckets[i].0,
    ensures
        lookup(buckets, buckets[i].0) == buckets[i].1@,
    decreases i,
{
    if i > 0 {
        assert(buckets.drop_first()[i - 1] == buckets[i]);
        assert(forall|j: int| 0 <= j < i - 1
            ==> (#[trigger] buckets.drop_first()[j]).0 == buckets[j + 1].0);
        lemma_lookup_at(buckets.drop_first(), i - 1);
    }
}

/// A source without a bucket has an empty history.
proof fn lemma_lookup_absent<Event>(buckets: Seq<Bucket<Event>>, source_id: SourceId)
    requires
        forall|j: int| 0 <= j < buckets.len() ==> (#[trigger] buckets[j]).0 != source_id,
    ensures
        lookup(buckets, source_id) == Seq::<(usize, Event)>::empty(),
        !has_bucket(buckets, source_id),
    decreases buckets.len(),
{
    if buckets.len() > 0 {
        assert(forall|j: int| 0 <= j < buckets.len() - 1
            ==> (#[trigger] buckets.drop_first()[j]).0 == buckets[j + 1].0);
        lemma_lookup_absent(buckets.drop_first(), source_id);
    }
}

/// A source has a bucket exactly when some position holds its id.
proof fn lemma_has_bucket<Event>(buckets: Seq<Bucket<Event>>, source_id: SourceId)
    ensures
        has_bucket(buckets, source_id)
            <==> exists|j: int| 0 <= j < buckets.len() && (#[trigger] buckets[j]).0 == source_id,
    decreases buckets.len(),
{
    if buckets.len() > 0 {
        let dropped = buckets.drop_first();
        assert(forall|j: int| 0 <= j < dropped.len()
            ==> #[trigger] dropped[j] == buckets[j + 1]);
        lemma_has_bucket(dropped, source_id);
        if buckets[0].0 == source_id {
            assert(buckets[0].0 == source_id);
        } else if has_bucket(dropped, source_id) {
            let j = choose|j: int| 0 <= j < dropped.len()
                && (#[trigger] dropped[j]).0 == source_id;
            assert(buckets[j + 1].0 == source_id);
        } else if exists|j: int| 0 <= j < buckets.len()
            && (#[trigger] buckets[j]).0 == source_id {
            let j = choose|j: int| 0 <= j < buckets.len()
                && (#[trigger] buckets[j]).0 == source_id;
            assert(j > 0);
            assert(dropped[j - 1].0 == source_id);
        }
    }
}

/// Replacing the one bucket that holds an id changes that id's history to the
/// replacement's entries and no other id's history.
proof fn lemma_lookup_update<Event>(
    buckets: Seq<Bucket<Event>>,
    i: int,
    bucket: Bucket<Event>,
    other: SourceId,
)
    requires
        0 <= i < buckets.len(),
        buckets[i].0 == bucket.0,
        forall|j: int| 0 <= j < buckets.len() && j != i ==> (#[trigger] buckets[j]).0 != bucket.0,
    ensures
        lookup(buckets.update(i, bucket), other) == (if other == bucket.0 {
            bucket.1@
        } else {
            lookup(buckets, other)
        }),
    decreases buckets.len(),
{
    let updated = buckets.update(i, bucket);
    if i == 0 {
        assert(updated.drop_first() =~= buckets.drop_first());
    } else {
        assert(updated[0] == buckets[0]);
        assert(updated.drop_first() =~= buckets.drop_first().update(i - 1, bucket));
        assert(forall|j: int| 0 <= j < buckets.len() - 1 && j != i - 1
            ==> (#[trigger] buckets.drop_first()[j]).0 == buckets[j + 1].0);
        lemma_lookup_update(buckets.drop_first(), i - 1, bucket, other);
    }
}

/// Adding a bucket for a fresh id leaves every other id's history unchanged
/// and gives the fresh id the new bucket's entries.
proof fn lemma_lookup_push<Event>(
    buckets: Seq<Bucket<Event>>,
    bucket: Bucket<Event>,
    other: SourceId,
)
    requires
        forall|j: int| 0 <= j < buckets.len() ==> (#[trigger] buckets[j]).0 != bucket.0,
    ensures
        lookup(buckets.push(bucket), other) == (if other == bucket.0 {
            bucket.1@
        } else {
            lookup(buckets, other)
        }),
    decreases buckets.len(),
{
    let pushed = buckets.push(bucket);
    if buckets.len() == 0 {
        assert(pushed[0] == bucket);
        assert(pushed.drop_first() =~= Seq::<Bucket<Event>>::empty());
        assert(lookup(Seq::<Bucket<Event>>::empty(), other) == Seq::<(usize, Event)>::empty());
        assert(lookup(buckets, other) == Seq::<(usize, Event)>::empty());
    } else {
        assert(pushed[0] == buckets[0]);
        assert(pushed.drop_first() =~= buckets.drop_first().push(bucket));
        assert(forall|j: int| 0 <= j < buckets.len() - 1
            ==> (#[trigger] buckets.drop_first()[j]).0 == buckets[j + 1].0);
        lemma_lookup_push(buckets.drop_first(), bucket, other);
    }
}

/// Extending well-formed entries with a freshly numbered batch keeps them
/// well formed under the advanced bound.
proof fn lemma_entries_wf_extend<Event>(
    entries: Seq<(usize, Event)>,
    start: usize,
    payloads: Seq<Event>,
)
    requires
        entries_wf(entries, start),
        start + payloads.len() <= usize::MAX,
    ensures
        entries_wf(
            entries + numbered_from(start as int, payloads),
            (start + payloads.len()) as usize,
        ),
{
    let combined = entries + numbered_from(start as int, payloads);
    assert forall|k: int, l: int| 0 <= k < l < combined.len() implies combined[k].0
        < combined[l].0 by {
        if l >= entries.len() {
            assert(combined[l].0 == start + (l - entries.len()));
        }
        if k >= entries.len() {
            assert(combined[k].0 == start + (k - entries.len()));
        }
    }
    assert forall|k: int| 0 <= k < combined.len() implies (#[trigger] combined[k]).0
        < start + payloads.len() by {
        if k >= entries.len() {
            assert(combined[k].0 == start + (k - entries.len()));
        }
    }
}

/// An in-memory event store implementation.
///
/// The store owns a global offset counter and one append-only history per
/// source; every append pairs its batch with a contiguous, freshly allocated
/// block of global offsets.
#[derive(Debug, Clone)]
pub struct MemoryEventStore<Event> {
    /// The next global offset to be allocated
    offset: usize,
    /// The stored event payloads and their global offset number, one ordered
    /// history per source
    events: Vec<Bucket<Event>>,
}

impl<Event> MemoryEventStore<Event> {
    /// Create an empty event store
    pub fn new() -> (store: MemoryEventStore<Event>)
        ensures
            store.inv(),
            store.allocated() == 0,
            (forall|source_id: SourceId|
                store.history(source_id) == Seq::<(usize, Event)>::empty()),
            (forall|source_id: SourceId| !store.has_source(source_id)),
    {
        MemoryEventStore { offset: 0, events: Vec::new() }
    }

    /// Whether the store has recorded any history for the source (even an
    /// empty one left by construction).
    pub closed spec fn has_source(&self, source_id: SourceId) -> bool {
        has_bucket(self.events@, source_id)
    }

    /// The value of the global offset counter: how many events the store has
    /// recorded overall, which is also the next offset it will assign.
    pub fn global_count(&self) -> (count: usize)
        ensures
            count == self.allocated(),
    {
        self.offset
    }

    /// The recorded `(global offset, payload)` pairs of one source, in append
    /// order, or `None` if the store holds no history for it.
    pub fn stored_events(&self, source_id: SourceId) -> (entries: Option<
        Vec<(usize, Event)>,
    >) where Event: Copy
        ensures
            match entries {
                Some(recorded) => self.has_source(source_id)
                    && recorded@ == self.history(source_id),
                None => !self.has_source(source_id),
            },
    {
        let mut b: usize = 0;
        while b < self.events.len() && self.events[b].0 != source_id
            invariant
                b <= self.events@.len(),
                forall|j: int| 0 <= j < b ==> (#[trigger] self.events@[j]).0 != source_id,
            decreases self.events@.len() - b,
        {
            b = b + 1;
        }
        if b == self.events.len() {
            proof {
                lemma_lookup_absent(self.events@, source_id);
            }
            return None;
        }
        proof {
            lemma_lookup_at(self.events@, b as int);
            lemma_has_bucket(self.events@, source_id);
        }
        let mut recorded: Vec<(usize, Event)> = Vec::new();
        let mut k: usize = 0;
        proof {
            assert(self.events@[b as int].1@.take(0) =~= recorded@);
        }
        while k < self.events[b].1.len()
            invariant
                b < self.events@.len(),
                k <= self.events@[b as int].1@.len(),
                recorded@ == self.events@[b as int].1@.take(k as int),
            decreases self.events@[b as int].1@.len() - k,
        {
            let entry = self.events[b].1[k];
            recorded.push(entry);
            k = k + 1;
            proof {
                assert(self.events@[b as int].1@.take(k as int)
                    =~= self.events@[b as int].1@.take(k - 1).push(entry));
            }
        }
        proof {
            assert(self.events@[b as int].1@.take(k as int) =~= self.events@[b as int].1@);
        }
        Some(recorded)
    }
}

impl<Event> EventStore for MemoryEventStore<Event> {
    type Offset = usize;

    type Event = Event;

    type EventsStream = EventsStream;

    closed spec fn inv(&self) -> bool {
        &&& (forall|i: int, j: int| 0 <= i < j < self.events@.len()
            ==> self.events@[i].0 != self.events@[j].0)
        &&& (forall|i: int| 0 <= i < self.events@.len()
            ==> entries_wf((#[trigger] self.events@[i]).1@, self.offset))
        &&& (forall|i: int, j: int| 0 <= i < self.events@.len() && 0 <= j < self.events@.len()
            && i != j
            ==> disjoint_offsets(self.events@[i].1@, self.events@[j].1@))
    }

    closed spec fn allocated(&self) -> nat {
        self.offset as nat
    }

    closed spec fn history(&self, source_id: SourceId) -> Seq<(usize, Event)> {
        lookup(self.events@, source_id)
    }

    fn append_events(&mut self, source_id: SourceId, events: Vec<Event>) {
        if events.len() == 0 {
            proof {
                assert(self.history(source_id)
                    =~= old(self).history(source_id) + numbered_from(self.offset as int, events@));
            }
            return;
        }
        let ghost start = self.offset;
        let ghost buckets0 = self.events@;
        let ghost payloads = events@;

        // Find this source's bucket, if it has one.
        let mut i: usize = 0;
        while i < self.events.len() && self.events[i].0 != source_id
            invariant
                i <= self.events@.len(),
                self.events@ == buckets0,
                self.offset == start,
                forall|j: int| 0 <= j < i ==> (#[trigger] self.events@[j]).0 != source_id,
            decreases self.events@.len() - i,
        {
            i = i + 1;
        }
        let ghost found = (i as int) < buckets0.len();

        // Take the bucket out (or start a fresh one), pair the batch with a
        // contiguous block of global offsets, and put the bucket back.
        let mut bucket: Bucket<Event> = if i < self.events.len() {
            self.events.remove(i)
        } else {
            (source_id, Vec::new())
        };
        let ghost history0 = bucket.1@;
        proof {
            assert(payloads.skip(0) =~= payloads);
            assert(history0 + numbered_from(start as int, payloads.take(0)) =~= history0);
        }

        let mut remaining = events;
        while remaining.len() > 0
            invariant
                remaining@.len() <= payloads.len(),
                remaining@ == payloads.skip(payloads.len() - remaining@.len()),
                self.offset == start + payloads.len() - remaining@.len(),
                start + payloads.len() <= usize::MAX,
                bucket.0 == source_id,
                bucket.1@ == history0
                    + numbered_from(start as int, payloads.take(payloads.len() - remaining@.len())),
                self.events@ == (if found { buckets0.remove(i as int) } else { buckets0 }),
            decreases remaining@.len(),
        {
            let ghost done = payloads.len() - remaining@.len();
            let event = remaining.remove(0);
            proof {
                assert(event == payloads[done]);
                assert(payloads.skip(done).remove(0) =~= payloads.skip(done + 1));
            }
            let next = self.offset;
            bucket.1.push((next, event));
            self.offset = self.offset + 1;
            proof {
                assert(payloads.take(done + 1) =~= payloads.take(done).push(payloads[done]));
                assert(numbered_from(start as int, payloads.take(done + 1))
                    =~= numbered_from(start as int, payloads.take(done))
                        .push((((start + done) as usize), payloads[done])));
            }
        }
        proof {
            assert(payloads.take(payloads.len() as int) =~= payloads);
        }
        let ghost filled = bucket;
        self.events.insert(i, bucket);

        proof {
            let after = self.events@;
            if found {
                assert(after =~= buckets0.update(i as int, filled));
                lemma_lookup_at(buckets0, i as int);
                assert forall|other: SourceId|
                    #[trigger] lookup(after, other) == (if other == source_id {
                        filled.1@
                    } else {
                        lookup(buckets0, other)
                    }) by {
                    lemma_lookup_update(buckets0, i as int, filled, other);
                }
            } else {
                assert(after =~= buckets0.push(filled));
                lemma_lookup_absent(buckets0, source_id);
                assert forall|other: SourceId|
                    #[trigger] lookup(after, other) == (if other == source_id {
                        filled.1@
                    } else {
                        lookup(buckets0, other)
                    }) by {
                    lemma_lookup_push(buckets0, filled, other);
                }
            }
            lemma_entries_wf_extend(history0, start, payloads);
            assert forall|k: int| 0 <= k < after.len() implies entries_wf(
                (#[trigger] after[k]).1@,
                self.offset,
            ) by {
                if k == i as int {
                    assert(after[k] == filled);
                } else {
                    assert(after[k] == buckets0[k]);
                    assert(entries_wf(buckets0[k].1@, start));
                }
            }
            assert forall|p: int, q: int| 0 <= p < q < after.len() implies after[p].0
                != after[q].0 by {
                if found {
                    assert(after[p].0 == buckets0[p].0);
                    assert(after[q].0 == buckets0[q].0);
                } else {
                    if q == buckets0.len() {
                        assert(after[p] == buckets0[p]);
                        assert(after[q].0 == source_id);
                    } else {
                        assert(after[p] == buckets0[p]);
                        assert(after[q] == buckets0[q]);
                    }
                }
            }
            assert forall|p: int, q: int| 0 <= p < after.len() && 0 <= q < after.len() && p != q
                implies disjoint_offsets(after[p].1@, after[q].1@) by {
                if p != i as int && q != i as int {
                    assert(after[p] == buckets0[p]);
                    assert(after[q] == buckets0[q]);
                    assert(disjoint_offsets(buckets0[p].1@, buckets0[q].1@));
                } else {
                    // One side is the refreshed bucket: its old entries were
                    // disjoint from every other bucket already, and its fresh
                    // entries sit at offsets no other bucket reaches.
                    let o = if p == i as int { q } else { p };
                    assert(after[o] == buckets0[o]);
                    let other_entries = buckets0[o].1@;
                    assert(entries_wf(other_entries, start));
                    let fresh = filled.1@;
                    assert forall|k: int, l: int| 0 <= k < fresh.len() && 0 <= l
                        < other_entries.len() implies fresh[k].0 != other_entries[l].0 by {
                        if k < history0.len() {
                            assert(fresh[k] == history0[k]);
                            assert(found);
                            assert(disjoint_offsets(buckets0[i as int].1@, other_entries));
                        } else {
                            assert(fresh[k].0 == start + (k - history0.len()));
                        }
                    }
                    if p == i as int {
                        assert(disjoint_offsets(fresh, other_entries));
                    } else {
                        assert forall|k: int, l: int| 0 <= k < other_entries.len() && 0 <= l
                            < fresh.len() implies other_entries[k].0 != fresh[l].0 by {
                            assert(fresh[l].0 != other_entries[k].0);
                        }
                        assert(disjoint_offsets(other_entries, fresh));
                    }
                }
            }
        }
    }

    fn events(&self, source_id: SourceId, offset: usize) -> (stream: EventsStream)
        ensures
            stream.source_id == source_id,
            stream.sequence_number == 0,
            stream.offset == offset,
    {
        EventsStream { source_id, sequence_number: 0, offset }
    }
}

/// A catch-up cursor over one source's history: walks the history from
/// `sequence_number` on, yielding the events whose global offset is at least
/// `offset`.
pub struct EventsStream {
    /// The source whose history the cursor walks
    pub source_id: SourceId,
    /// The position in the source's history that the next pull inspects
    pub sequence_number: usize,
    /// The resumption offset: events with a smaller global offset are skipped
    pub offset: usize,
}

/// The first position of `history` at or after `from` whose entry's global
/// offset is at least `resume`; the history's length if no such position is
/// left, and `from` itself if `from` is already past the end.
pub open spec fn first_visible<Event>(
    history: Seq<(usize, Event)>,
    from: int,
    resume: usize,
) -> int
    decreases (if from < history.len() { history.len() - from } else { 0 }),
{
    if from >= history.len() {
        from
    } else if history[from].0 >= resume {
        from
    } else {
        first_visible(history, from + 1, resume)
    }
}

/// The persisted events that a cursor standing at position `from` with
/// resumption offset `resume` still has to yield: one record per entry of
/// `history` from `from` on whose global offset is at least `resume`, in
/// position order, carrying its position as the sequence number.
pub open spec fn visible_from<Event>(
    source_id: SourceId,
    history: Seq<(usize, Event)>,
    from: int,
    resume: usize,
) -> Seq<PersistedEvent<usize, Event>>
    decreases (if from < history.len() { history.len() - from } else { 0 }),
{
    if from >= history.len() {
        Seq::empty()
    } else if history[from].0 >= resume {
        seq![
            (PersistedEvent {
                offset: history[from].0,
                source_id: source_id,
                sequence_number: from as usize,
                payload: history[from].1,
            }),
        ] + visible_from(source_id, history, from + 1, resume)
    } else {
        visible_from(source_id, history, from + 1, resume)
    }
}

/// A cursor with nothing visible left yields nothing.
proof fn lemma_visible_from_none<Event>(
    source_id: SourceId,
    history: Seq<(usize, Event)>,
    from: int,
    resume: usize,
)
    requires
        first_visible(history, from, resume) >= history.len(),
    ensures
        visible_from(source_id, history, from, resume)
            == Seq::<PersistedEvent<usize, Event>>::empty(),
    decreases (if from < history.len() { history.len() - from } else { 0 }),
{
    if from < history.len() {
        lemma_visible_from_none(source_id, history, from + 1, resume);
    }
}

/// A cursor whose next visible entry stands at position `m` yields that
/// entry's record first and then what is visible after `m`.
proof fn lemma_visible_from_step<Event>(
    source_id: SourceId,
    history: Seq<(usize, Event)>,
    from: int,
    resume: usize,
)
    requires
        0 <= from,
        first_visible(history, from, resume) < history.len(),
    ensures
        ({
            let m = first_visible(history, from, resume);
            &&& from <= m
            &&& history[m].0 >= resume
            &&& visible_from(source_id, history, from, resume) == seq![
                (PersistedEvent {
                    offset: history[m].0,
                    source_id: source_id,
                    sequence_number: m as usize,
                    payload: history[m].1,
                }),
            ] + visible_from(source_id, history, m + 1, resume)
        }),
    decreases (if from < history.len() { history.len() - from } else { 0 }),
{
    if from < history.len() && history[from].0 < resume {
        lemma_visible_from_step(source_id, history, from + 1, resume);
    }
}

impl EventsStream {
    /// Pull the next event: skip entries below the resumption offset, advance
    /// past what was inspected, and yield the first visible entry, or `None`
    /// once the currently recorded history is exhausted. The history length is
    /// read fresh on every pull, so a cursor can see events appended after it
    /// was created.
    pub fn poll<Event: Copy>(&mut self, store: &MemoryEventStore<Event>) -> (next: Option<
        PersistedEvent<usize, Event>,
    >)
        ensures
            final(self).source_id == old(self).source_id,
            final(self).offset == old(self).offset,
            ({
                let history = store.history(old(self).source_id);
                let m = first_visible(history, old(self).sequence_number as int, old(self).offset);
                if m < history.len() {
                    &&& next == Some(
                        (PersistedEvent {
                            offset: history[m].0,
                            source_id: old(self).source_id,
                            sequence_number: m as usize,
                            payload: history[m].1,
                        }),
                    )
                    &&& final(self).sequence_number == m
                        + 1
                } else {
                    &&& next is None
                    &&& final(self).sequence_number == m
                }
            }),
    {
        let ghost history = store.history(self.source_id);
        let ghost start = self.sequence_number as int;
        let ghost resume = self.offset;

        // Find the source's bucket.
        let mut b: usize = 0;
        while b < store.events.len() && store.events[b].0 != self.source_id
            invariant
                b <= store.events@.len(),
                forall|j: int| 0 <= j < b ==> (#[trigger] store.events@[j]).0 != self.source_id,
            decreases store.events@.len() - b,
        {
            b = b + 1;
        }
        if b == store.events.len() {
            proof {
                lemma_lookup_absent(store.events@, self.source_id);
            }
            return None;
        }
        proof {
            lemma_lookup_at(store.events@, b as int);
        }

        // Walk the history from the cursor position, skipping entries below
        // the resumption offset.
        while self.sequence_number < store.events[b].1.len()
            invariant
                b < store.events@.len(),
                store.events@[b as int].0 == self.source_id,
                history == store.events@[b as int].1@,
                history == store.history(old(self).source_id),
                self.source_id == old(self).source_id,
                self.offset == old(self).offset,
                resume == old(self).offset,
                start == old(self).sequence_number as int,
                start <= self.sequence_number,
                self.sequence_number as int <= (if start <= history.len() {
                    history.len() as int
                } else {
                    start
                }),
                first_visible(history, start, resume)
                    == first_visible(history, self.sequence_number as int, resume),
            decreases (if self.sequence_number as int <= history.len() {
                history.len() - self.sequence_number
            } else {
                0
            }),
        {
            let position = self.sequence_number;
            let entry = store.events[b].1[position];
            self.sequence_number = position + 1;
            if entry.0 >= self.offset {
                return Some(
                    PersistedEvent {
                        offset: entry.0,
                        source_id: self.source_id,
                        sequence_number: position,
                        payload: entry.1,
                    },
                );
            }
        }
        None
    }

    /// Drain the cursor against the store: pull until the recorded history is
    /// exhausted and collect every yielded event, in order.
    pub fn collect<Event: Copy>(self, store: &MemoryEventStore<Event>) -> (events: Vec<
        PersistedEvent<usize, Event>,
    >)
        ensures
            events@ == visible_from(
                self.source_id,
                store.history(self.source_id),
                self.sequence_number as int,
                self.offset,
            ),
    {
        let ghost source_id = self.source_id;
        let ghost history = store.history(self.source_id);
        let ghost resume = self.offset;
        let ghost start = self.sequence_number as int;
        let mut cursor = self;
        let mut collected: Vec<PersistedEvent<usize, Event>> = Vec::new();
        proof {
            assert(collected@ + visible_from(source_id, history, start, resume)
                =~= visible_from(source_id, history, start, resume));
        }
        loop
            invariant
                source_id == self.source_id,
                history == store.history(self.source_id),
                resume == self.offset,
                start == self.sequence_number as int,
                cursor.source_id == source_id,
                cursor.offset == resume,
                0 <= cursor.sequence_number,
                collected@ + visible_from(source_id, history, cursor.sequence_number as int, resume)
                    == visible_from(source_id, history, start, resume),
            decreases (if cursor.sequence_number as int <= history.len() {
                history.len() - cursor.sequence_number + 1
            } else {
                0
            }),
        {
            let ghost before = cursor.sequence_number as int;
            match cursor.poll(store) {
                Some(event) => {
                    proof {
                        lemma_visible_from_step(source_id, history, before, resume);
                        let m = first_visible(history, before, resume);
                        assert((collected@ + seq![event]) + visible_from(
                            source_id,
                            history,
                            m + 1,
                            resume,
                        ) =~= collected@ + (seq![event] + visible_from(
                            source_id,
                            history,
                            m + 1,
                            resume,
                        )));
                        assert(collected@.push(event) =~= collected@ + seq![event]);
                    }
                    collected.push(event);
                },
                None => {
                    proof {
                        lemma_visible_from_none(source_id, history, before, resume);
                        assert(collected@ + Seq::<PersistedEvent<usize, Event>>::empty()
                            =~= collected@);
                    }
                    return collected;
                },
            }
        }
    }
}

/// Every recorded history fits the machine: it lives in one vector.
proof fn lemma_lookup_len_bound<Event>(buckets: Seq<Bucket<Event>>, source_id: SourceId)
    ensures
        lookup(buckets, source_id).len() <= usize::MAX,
    decreases buckets.len(),
{
    broadcast use vstd::std_specs::vec::axiom_spec_len;

    if buckets.len() > 0 {
        if buckets[0].0 == source_id {
            assert(buckets[0].1@.len() == buckets[0].1.len());
        } else {
            lemma_lookup_len_bound(buckets.drop_first(), source_id);
        }
    }
}

/// A history is either empty or the entries of one recorded bucket.
proof fn lemma_lookup_cases<Event>(buckets: Seq<Bucket<Event>>, source_id: SourceId)
    ensures
        lookup(buckets, source_id) == Seq::<(usize, Event)>::empty() || exists|j: int|
            0 <= j < buckets.len() && (#[trigger] buckets[j]).0 == source_id
                && lookup(buckets, source_id) == buckets[j].1@,
    decreases buckets.len(),
{
    if buckets.len() > 0 {
        let dropped = buckets.drop_first();
        assert(forall|j: int| 0 <= j < dropped.len()
            ==> #[trigger] dropped[j] == buckets[j + 1]);
        if buckets[0].0 == source_id {
            assert(buckets[0].0 == source_id && lookup(buckets, source_id) == buckets[0].1@);
        } else {
            lemma_lookup_cases(dropped, source_id);
            if lookup(dropped, source_id) != Seq::<(usize, Event)>::empty() {
                let j = choose|j: int| 0 <= j < dropped.len()
                    && (#[trigger] dropped[j]).0 == source_id
                    && lookup(dropped, source_id) == dropped[j].1@;
                assert(buckets[j + 1].0 == source_id
                    && lookup(buckets, source_id) == buckets[j + 1].1@);
            }
        }
    }
}

/// Under the store invariant a history's global offsets strictly increase in
/// storage order and all lie below the number of offsets allocated so far.
proof fn lemma_history_wf<Event>(store: MemoryEventStore<Event>, source_id: SourceId)
    requires
        store.inv(),
    ensures
        ({
            let history = store.history(source_id);
            &&& (forall|k: int, l: int| 0 <= k < l < history.len()
                ==> history[k].0 < history[l].0)
            &&& (forall|k: int| 0 <= k < history.len()
                ==> (#[trigger] history[k]).0 < store.allocated())
        }),
{
    lemma_lookup_cases(store.events@, source_id);
}

/// With resumption offset zero every entry is visible: the read yields one
/// record per history position, in position order.
proof fn lemma_visible_from_zero<Event>(
    source_id: SourceId,
    history: Seq<(usize, Event)>,
    from: int,
)
    requires
        0 <= from <= history.len(),
        history.len() <= usize::MAX,
    ensures
        ({
            let events = visible_from(source_id, history, from, 0);
            &&& events.len() == history.len() - from
            &&& (forall|k: int| 0 <= k < events.len() ==> #[trigger] events[k]
                == (PersistedEvent {
                    offset: history[from + k].0,
                    source_id: source_id,
                    sequence_number: (from + k) as usize,
                    payload: history[from + k].1,
                }))
        }),
    decreases history.len() - from,
{
    if from < history.len() {
        lemma_visible_from_zero(source_id, history, from + 1);
        let events = visible_from(source_id, history, from, 0);
        let rest = visible_from(source_id, history, from + 1, 0);
        assert forall|k: int| 0 <= k < events.len() implies #[trigger] events[k]
            == (PersistedEvent {
                offset: history[from + k].0,
                source_id: source_id,
                sequence_number: (from + k) as usize,
                payload: history[from + k].1,
            }) by {
            if k > 0 {
                assert(events[k] == rest[k - 1]);
            }
        }
    }
}

/// Each record a read yields carries the history entry at its sequence
/// number, meets the resumption offset, and the yielded sequence numbers
/// strictly increase.
proof fn lemma_visible_from_structure<Event>(
    source_id: SourceId,
    history: Seq<(usize, Event)>,
    from: int,
    resume: usize,
)
    requires
        0 <= from,
        history.len() <= usize::MAX,
    ensures
        ({
            let events = visible_from(source_id, history, from, resume);
            &&& (forall|k: int| 0 <= k < events.len() ==> {
                let record = #[trigger] events[k];
                &&& from <= record.sequence_number < history.len()
                &&& record.offset == history[record.sequence_number as int].0
                &&& record.payload == history[record.sequence_number as int].1
                &&& record.source_id == source_id
                &&& record.offset >= resume
            })
            &&& (forall|k: int, l: int| 0 <= k < l < events.len()
                ==> events[k].sequence_number < events[l].sequence_number)
        }),
    decreases (if from < history.len() { history.len() - from } else { 0 }),
{
    if from < history.len() {
        lemma_visible_from_structure(source_id, history, from + 1, resume);
        let events = visible_from(source_id, history, from, resume);
        let rest = visible_from(source_id, history, from + 1, resume);
        if history[from].0 >= resume {
            assert(events[0].sequence_number == from);
            assert(forall|k: int| 1 <= k < events.len()
                ==> #[trigger] events[k] == rest[k - 1]);
        }
    }
}

/// All entries from `from` on fall below the resumption offset: nothing is
/// visible.
proof fn lemma_visible_from_all_below<Event>(
    source_id: SourceId,
    history: Seq<(usize, Event)>,
    from: int,
    resume: usize,
)
    requires
        forall|k: int| from <= k < history.len() ==> (#[trigger] history[k]).0 < resume,
    ensures
        visible_from(source_id, history, from, resume)
            == Seq::<PersistedEvent<usize, Event>>::empty(),
    decreases (if from < history.len() { history.len() - from } else { 0 }),
{
    if from < history.len() {
        lemma_visible_from_all_below(source_id, history, from + 1, resume);
    }
}

/// Law: a full read from offset zero yields every recorded event of a source
/// — each record carries the history entry at its position — with sequence
/// numbers exactly 0, 1, ..., n-1, contiguous, without gaps or repeats,
/// however the source's appends interleaved with other sources'.
pub proof fn lemma_full_read_sequence_numbers<Event>(
    store: MemoryEventStore<Event>,
    source_id: SourceId,
)
    ensures
        ({
            let history = store.history(source_id);
            let events = visible_from(source_id, history, 0, 0);
            &&& events.len() == history.len()
            &&& (forall|k: int| 0 <= k < events.len()
                ==> (#[trigger] events[k]).sequence_number == k)
            &&& (forall|k: int| 0 <= k < events.len()
                ==> (#[trigger] events[k]).offset == history[k].0)
            &&& (forall|k: int| 0 <= k < events.len()
                ==> (#[trigger] events[k]).payload == history[k].1)
            &&& (forall|k: int| 0 <= k < events.len()
                ==> (#[trigger] events[k]).source_id == source_id)
        }),
{
    lemma_lookup_len_bound(store.events@, source_id);
    lemma_visible_from_zero(source_id, store.history(source_id), 0);
}

/// Law: the global offsets of the events that a read yields are strictly
/// increasing, whatever the resumption offset.
pub proof fn lemma_read_offsets_strictly_increasing<Event>(
    store: MemoryEventStore<Event>,
    source_id: SourceId,
    resume: usize,
)
    requires
        store.inv(),
    ensures
        ({
            let events = visible_from(source_id, store.history(source_id), 0, resume);
            forall|k: int, l: int| 0 <= k < l < events.len()
                ==> events[k].offset < events[l].offset
        }),
{
    let history = store.history(source_id);
    let events = visible_from(source_id, history, 0, resume);
    lemma_lookup_len_bound(store.events@, source_id);
    lemma_history_wf(store, source_id);
    lemma_visible_from_structure(source_id, history, 0, resume);
    assert forall|k: int, l: int| 0 <= k < l < events.len() implies events[k].offset
        < events[l].offset by {
        assert(events[k].sequence_number < events[l].sequence_number);
        assert(events[k].offset == history[events[k].sequence_number as int].0);
        assert(events[l].offset == history[events[l].sequence_number as int].0);
    }
}

/// Law: a read never yields an event whose global offset lies below the
/// resumption offset it was asked for.
pub proof fn lemma_read_respects_resume_offset<Event>(
    store: MemoryEventStore<Event>,
    source_id: SourceId,
    resume: usize,
)
    ensures
        ({
            let events = visible_from(source_id, store.history(source_id), 0, resume);
            forall|k: int| 0 <= k < events.len() ==> (#[trigger] events[k]).offset >= resume
        }),
{
    lemma_lookup_len_bound(store.events@, source_id);
    lemma_visible_from_structure(source_id, store.history(source_id), 0, resume);
}

/// Law: reading a source with no recorded history yields the empty sequence.
pub proof fn lemma_read_absent_source_empty<Event>(
    store: MemoryEventStore<Event>,
    source_id: SourceId,
    resume: usize,
)
    requires
        !store.has_source(source_id),
    ensures
        store.history(source_id) == Seq::<(usize, Event)>::empty(),
        visible_from(source_id, store.history(source_id), 0, resume)
            == Seq::<PersistedEvent<usize, Event>>::empty(),
{
    lemma_has_bucket(store.events@, source_id);
    assert(forall|j: int| 0 <= j < store.events@.len()
        ==> (#[trigger] store.events@[j]).0 != source_id);
    lemma_lookup_absent(store.events@, source_id);
}

/// Law: reading with a resumption offset greater than every recorded offset
/// of the source yields the empty sequence. In particular any offset at or
/// beyond the store's global counter qualifies.
pub proof fn lemma_read_past_end_empty<Event>(
    store: MemoryEventStore<Event>,
    source_id: SourceId,
    resume: usize,
)
    requires
        forall|k: int| 0 <= k < store.history(source_id).len()
            ==> (#[trigger] store.history(source_id)[k]).0 < resume,
    ensures
        visible_from(source_id, store.history(source_id), 0, resume)
            == Seq::<PersistedEvent<usize, Event>>::empty(),
{
    lemma_visible_from_all_below(source_id, store.history(source_id), 0, resume);
}

/// Law: a resumption offset at or beyond the global counter is greater than
/// every recorded offset, so such a read yields the empty sequence.
pub proof fn lemma_read_beyond_counter_empty<Event>(
    store: MemoryEventStore<Event>,
    source_id: SourceId,
    resume: usize,
)
    requires
        store.inv(),
        resume >= store.allocated(),
    ensures
        visible_from(source_id, store.history(source_id), 0, resume)
            == Seq::<PersistedEvent<usize, Event>>::empty(),
{
    lemma_history_wf(store, source_id);
    lemma_read_past_end_empty(store, source_id, resume);
}

/// Law: two different sources never share a global offset — global offsets
/// are store-wide unique.
pub proof fn lemma_global_offsets_unique<Event>(
    store: MemoryEventStore<Event>,
    first: SourceId,
    second: SourceId,
)
    requires
        store.inv(),
        first != second,
    ensures
        ({
            let h1 = store.history(first);
            let h2 = store.history(second);
            forall|k: int, l: int| 0 <= k < h1.len() && 0 <= l < h2.len()
                ==> h1[k].0 != h2[l].0
        }),
{
    let h1 = store.history(first);
    let h2 = store.history(second);
    lemma_lookup_cases(store.events@, first);
    lemma_lookup_cases(store.events@, second);
    if h1 != Seq::<(usize, Event)>::empty() && h2 != Seq::<(usize, Event)>::empty() {
        let p = choose|j: int| 0 <= j < store.events@.len()
            && (#[trigger] store.events@[j]).0 == first && h1 == store.events@[j].1@;
        let q = choose|j: int| 0 <= j < store.events@.len()
            && (#[trigger] store.events@[j]).0 == second && h2 == store.events@[j].1@;
        assert(p != q);
        assert(disjoint_offsets(store.events@[p].1@, store.events@[q].1@));
    }
}

} // verus!
