//! Range tombstones and the stream of events that stands for them.

use crate::key::{UserKey, UserKeyView, user_key_le, user_key_lt, MAX_EPOCH};
use vstd::prelude::*;

verus! {

pub struct DeleteRangeTombstoneView {
    pub start_user_key: UserKeyView,
    pub end_user_key: UserKeyView,
    pub sequence: u64,
}

impl DeleteRangeTombstoneView {
    /// Whether the tombstone covers any key at all.
    pub open spec fn valid(self) -> bool {
        user_key_lt(self.start_user_key, self.end_user_key)
    }

    /// Whether the tombstone covers `key`: from its start, up to its end.
    pub open spec fn covers(self, key: UserKeyView) -> bool {
        user_key_le(self.start_user_key, key) && user_key_lt(key, self.end_user_key)
    }
}

/// The deletion of the keys from `start_user_key` up to `end_user_key`, the
/// end out, as of epoch `sequence`.
#[derive(Debug, PartialEq, Eq)]
pub struct DeleteRangeTombstone {
    pub start_user_key: UserKey,
    pub end_user_key: UserKey,
    pub sequence: u64,
}

impl View for DeleteRangeTombstone {
    type V = DeleteRangeTombstoneView;

    open spec fn view(&self) -> DeleteRangeTombstoneView {
        DeleteRangeTombstoneView {
            start_user_key: self.start_user_key@,
            end_user_key: self.end_user_key@,
            sequence: self.sequence,
        }
    }
}

/// The views of a list of tombstones.
pub open spec fn tombstones_view(t: Seq<DeleteRangeTombstone>) -> Seq<DeleteRangeTombstoneView> {
    t.map_values(|x: DeleteRangeTombstone| x@)
}

impl DeleteRangeTombstone {
    /// The tombstone on table `table_id` from `start_table_key` up to `end_table_key`.
    pub fn new(table_id: u32, start_table_key: Vec<u8>, end_table_key: Vec<u8>, sequence: u64) -> (t:
        DeleteRangeTombstone)
        ensures
            t@ == (DeleteRangeTombstoneView {
                start_user_key: UserKeyView { table_id, table_key: start_table_key@ },
                end_user_key: UserKeyView { table_id, table_key: end_table_key@ },
                sequence,
            }),
    {
        DeleteRangeTombstone {
            start_user_key: UserKey::new(table_id, start_table_key),
            end_user_key: UserKey::new(table_id, end_table_key),
            sequence,
        }
    }

    /// A copy of this tombstone.
    pub fn duplicate(&self) -> (t: DeleteRangeTombstone)
        ensures
            t@ == self@,
    {
        DeleteRangeTombstone {
            start_user_key: self.start_user_key.duplicate(),
            end_user_key: self.end_user_key.duplicate(),
            sequence: self.sequence,
        }
    }

    /// Whether the tombstone covers any key at all.
    pub fn is_valid(&self) -> (r: bool)
        ensures
            r == self@.valid(),
    {
        self.start_user_key.less(&self.end_user_key)
    }

    /// Whether the tombstone covers `key`.
    pub fn covers(&self, key: &UserKey) -> (r: bool)
        ensures
            r == self@.covers(key@),
    {
        !key.less(&self.start_user_key) && key.less(&self.end_user_key)
    }
}

pub struct MonotonicDeleteEventView {
    pub event_key: UserKeyView,
    pub new_epoch: u64,
}

/// From `event_key` on, up to the next event, the keys are deleted as of
/// `new_epoch`; the never-epoch says that they are not deleted.
#[derive(Debug, PartialEq, Eq)]
pub struct MonotonicDeleteEvent {
    pub event_key: UserKey,
    pub new_epoch: u64,
}

impl View for MonotonicDeleteEvent {
    type V = MonotonicDeleteEventView;

    open spec fn view(&self) -> MonotonicDeleteEventView {
        MonotonicDeleteEventView { event_key: self.event_key@, new_epoch: self.new_epoch }
    }
}

/// The views of a list of events.
pub open spec fn events_view(e: Seq<MonotonicDeleteEvent>) -> Seq<MonotonicDeleteEventView> {
    e.map_values(|x: MonotonicDeleteEvent| x@)
}

impl MonotonicDeleteEvent {
    pub fn new(event_key: UserKey, new_epoch: u64) -> (e: MonotonicDeleteEvent)
        ensures
            e@ == (MonotonicDeleteEventView { event_key: event_key@, new_epoch }),
    {
        MonotonicDeleteEvent { event_key, new_epoch }
    }

    /// A copy of this event.
    pub fn duplicate(&self) -> (e: MonotonicDeleteEvent)
        ensures
            e@ == self@,
    {
        MonotonicDeleteEvent { event_key: self.event_key.duplicate(), new_epoch: self.new_epoch }
    }

    /// Whether the two events are the same.
    pub fn same(&self, other: &MonotonicDeleteEvent) -> (r: bool)
        ensures
            r == (self@ == other@),
    {
        self.new_epoch == other.new_epoch && self.event_key.same(&other.event_key)
    }
}

/// The tombstones that the first `n` events stand for: each event with an
/// epoch other than the never-epoch deletes from its key up to the key of the
/// next event, on the table of its own key.
pub open spec fn tombstones_of_events(events: Seq<MonotonicDeleteEventView>, n: int) -> Seq<
    DeleteRangeTombstoneView,
>
    decreases n,
{
    if n <= 1 || n > events.len() {
        Seq::empty()
    } else {
        let before = tombstones_of_events(events, n - 1);
        if events[n - 2].new_epoch != MAX_EPOCH {
            before.push(
                DeleteRangeTombstoneView {
                    start_user_key: events[n - 2].event_key,
                    end_user_key: UserKeyView {
                        table_id: events[n - 2].event_key.table_id,
                        table_key: events[n - 1].event_key.table_key,
                    },
                    sequence: events[n - 2].new_epoch,
                },
            )
        } else {
            before
        }
    }
}

/// The tombstones that a stream of events stands for.
pub fn create_tombstones_to_represent_monotonic_deletes(
    monotonic_tombstone_events: &[MonotonicDeleteEvent],
) -> (tombstones: Vec<DeleteRangeTombstone>)
    ensures
        tombstones_view(tombstones@) == tombstones_of_events(
            events_view(monotonic_tombstone_events@),
            monotonic_tombstone_events@.len() as int,
        ),
{
    let ghost events = events_view(monotonic_tombstone_events@);
    let mut tombstones: Vec<DeleteRangeTombstone> = Vec::new();
    proof {
        assert(tombstones_view(tombstones@) =~= Seq::empty());
    }
    if monotonic_tombstone_events.len() == 0 {
        return tombstones;
    }
    let mut i: usize = 1;
    while i < monotonic_tombstone_events.len()
        invariant
            1 <= i <= monotonic_tombstone_events.len(),
            events == events_view(monotonic_tombstone_events@),
            tombstones_view(tombstones@) == tombstones_of_events(events, i as int),
        decreases monotonic_tombstone_events.len() - i,
    {
        let last = &monotonic_tombstone_events[i - 1];
        let next = &monotonic_tombstone_events[i];
        if last.new_epoch != MAX_EPOCH {
            let ghost before = tombstones_view(tombstones@);
            tombstones.push(
                DeleteRangeTombstone {
                    start_user_key: last.event_key.duplicate(),
                    end_user_key: UserKey::new(
                        last.event_key.table_id,
                        crate::seqs::copy_slice(next.event_key.table_key.as_slice()),
                    ),
                    sequence: last.new_epoch,
                },
            );
            proof {
                assert(tombstones_view(tombstones@) =~= before.push(tombstones@.last()@));
            }
        }
        i = i + 1;
    }
    tombstones
}


/// The least sequence, from `epoch` on, of the tombstones of `ts` that cover
/// `key`; the never-epoch where there is none.
pub open spec fn earliest_delete_spec(
    ts: Seq<DeleteRangeTombstoneView>,
    key: UserKeyView,
    epoch: u64,
) -> u64
    decreases ts.len(),
{
    if ts.len() == 0 {
        MAX_EPOCH
    } else {
        let rest = earliest_delete_spec(ts.drop_last(), key, epoch);
        let t = ts.last();
        if t.covers(key) && epoch <= t.sequence && t.sequence < rest {
            t.sequence
        } else {
            rest
        }
    }
}

/// The epoch as of which the tombstones of `ts` delete `key`: the least
/// sequence of those that cover it, the never-epoch where none does.
pub open spec fn cover_epoch(ts: Seq<DeleteRangeTombstoneView>, key: UserKeyView) -> u64 {
    earliest_delete_spec(ts, key, 0)
}

/// Whether a tombstone of `ts` deletes the version of `key` written at
/// `epoch` for every reader at `limit`: the earliest deletion from `epoch` on
/// is no later than `limit`, and there is one.
pub open spec fn range_deleted(
    ts: Seq<DeleteRangeTombstoneView>,
    key: UserKeyView,
    epoch: u64,
    limit: u64,
) -> bool {
    earliest_delete_spec(ts, key, epoch) != MAX_EPOCH && earliest_delete_spec(ts, key, epoch)
        <= limit
}

/// A version is deleted for the readers at `limit` exactly where a tombstone
/// that covers its key has its sequence between the epoch of the version and
/// `limit`; a tombstone at the never-epoch deletes nothing.
pub proof fn lemma_range_deleted_meaning(
    ts: Seq<DeleteRangeTombstoneView>,
    key: UserKeyView,
    epoch: u64,
    limit: u64,
)
    ensures
        range_deleted(ts, key, epoch, limit) <==> exists|n: int|
            0 <= n < ts.len() && (#[trigger] ts[n]).covers(key) && epoch <= ts[n].sequence
                <= limit && ts[n].sequence != MAX_EPOCH,
    decreases ts.len(),
{
    if ts.len() > 0 {
        let before = ts.drop_last();
        lemma_range_deleted_meaning(before, key, epoch, limit);
        lemma_earliest_is_least(before, key, epoch);
        if exists|n: int|
            0 <= n < before.len() && (#[trigger] before[n]).covers(key) && epoch
                <= before[n].sequence <= limit && before[n].sequence != MAX_EPOCH {
            let n = choose|n: int|
                0 <= n < before.len() && (#[trigger] before[n]).covers(key) && epoch
                    <= before[n].sequence <= limit && before[n].sequence != MAX_EPOCH;
            assert(ts[n] == before[n]);
        }
        if exists|n: int|
            0 <= n < ts.len() && (#[trigger] ts[n]).covers(key) && epoch <= ts[n].sequence
                <= limit && ts[n].sequence != MAX_EPOCH {
            let n = choose|n: int|
                0 <= n < ts.len() && (#[trigger] ts[n]).covers(key) && epoch <= ts[n].sequence
                    <= limit && ts[n].sequence != MAX_EPOCH;
            if n < ts.len() - 1 {
                assert(before[n] == ts[n]);
            }
        }
    }
}

/// The earliest deletion is no later than any tombstone that covers the key
/// from `epoch` on.
proof fn lemma_earliest_is_least(ts: Seq<DeleteRangeTombstoneView>, key: UserKeyView, epoch: u64)
    ensures
        forall|n: int|
            0 <= n < ts.len() && (#[trigger] ts[n]).covers(key) && epoch <= ts[n].sequence
                ==> earliest_delete_spec(ts, key, epoch) <= ts[n].sequence,
    decreases ts.len(),
{
    if ts.len() > 0 {
        let before = ts.drop_last();
        lemma_earliest_is_least(before, key, epoch);
        assert forall|n: int|
            0 <= n < ts.len() && (#[trigger] ts[n]).covers(key) && epoch
                <= ts[n].sequence implies earliest_delete_spec(ts, key, epoch)
            <= ts[n].sequence by {
            if n < ts.len() - 1 {
                assert(before[n] == ts[n]);
            }
        }
    }
}

/// Two keys that the same tombstones cover are deleted as of the same epoch.
proof fn lemma_same_cover(ts: Seq<DeleteRangeTombstoneView>, a: UserKeyView, b: UserKeyView)
    requires
        forall|n: int| 0 <= n < ts.len() ==> (#[trigger] ts[n]).covers(a) == ts[n].covers(b),
    ensures
        cover_epoch(ts, a) == cover_epoch(ts, b),
    decreases ts.len(),
{
    if ts.len() > 0 {
        let before = ts.drop_last();
        assert forall|n: int| 0 <= n < before.len() implies (#[trigger] before[n]).covers(a)
            == before[n].covers(b) by {
            assert(before[n] == ts[n]);
        }
        lemma_same_cover(before, a, b);
        assert(ts.last() == ts[ts.len() - 1]);
    }
}

/// A key that no tombstone covers is not deleted.
proof fn lemma_no_cover(ts: Seq<DeleteRangeTombstoneView>, key: UserKeyView)
    requires
        forall|n: int| 0 <= n < ts.len() ==> !(#[trigger] ts[n]).covers(key),
    ensures
        cover_epoch(ts, key) == MAX_EPOCH,
    decreases ts.len(),
{
    if ts.len() > 0 {
        let before = ts.drop_last();
        assert forall|n: int| 0 <= n < before.len() implies !(#[trigger] before[n]).covers(key) by {
            assert(before[n] == ts[n]);
        }
        lemma_no_cover(before, key);
        assert(ts.last() == ts[ts.len() - 1]);
    }
}

/// The epoch that a stream of events gives for `key`: that of the last event
/// whose key is at or before `key`, the never-epoch where there is none.
pub open spec fn epoch_at(events: Seq<MonotonicDeleteEventView>, key: UserKeyView) -> u64
    decreases events.len(),
{
    if events.len() == 0 {
        MAX_EPOCH
    } else if user_key_le(events.last().event_key, key) {
        events.last().new_epoch
    } else {
        epoch_at(events.drop_last(), key)
    }
}

/// The keys of the events grow strictly.
pub open spec fn events_ascending(events: Seq<MonotonicDeleteEventView>) -> bool {
    forall|i: int, j: int|
        0 <= i < j < events.len() ==> user_key_lt(
            (#[trigger] events[i]).event_key,
            (#[trigger] events[j]).event_key,
        )
}

/// No event repeats the epoch of the one before it, and the first one deletes.
pub open spec fn events_compact(events: Seq<MonotonicDeleteEventView>) -> bool {
    &&& events.len() > 0 ==> events[0].new_epoch != MAX_EPOCH
    &&& forall|i: int|
        1 <= i < events.len() ==> (#[trigger] events[i]).new_epoch != events[i - 1].new_epoch
}

/// The events stand for the tombstones: they are in key order, none is
/// superfluous, and they give for every key the epoch as of which the
/// tombstones delete it.
pub open spec fn represents(
    events: Seq<MonotonicDeleteEventView>,
    ts: Seq<DeleteRangeTombstoneView>,
) -> bool {
    &&& events_ascending(events)
    &&& events_compact(events)
    &&& forall|key: UserKeyView| #[trigger] epoch_at(events, key) == cover_epoch(ts, key)
}

/// The views of a list of keys.
pub open spec fn keys_view(keys: Seq<UserKey>) -> Seq<UserKeyView> {
    keys.map_values(|k: UserKey| k@)
}

/// The keys grow strictly.
pub open spec fn keys_ascending(keys: Seq<UserKeyView>) -> bool {
    forall|i: int, j: int|
        0 <= i < j < keys.len() ==> user_key_lt(#[trigger] keys[i], #[trigger] keys[j])
}

/// Puts `key` in its place among the ascending `keys`, unless it is there.
fn insert_boundary(keys: &mut Vec<UserKey>, key: &UserKey)
    requires
        keys_ascending(keys_view(old(keys)@)),
    ensures
        keys_ascending(keys_view(final(keys)@)),
        forall|k: UserKeyView|
            keys_view(final(keys)@).contains(k) == (keys_view(old(keys)@).contains(k) || k
                == key@),
{
    let ghost before = keys_view(keys@);
    let mut p: usize = 0;
    while p < keys.len() && keys[p].less(key)
        invariant
            p <= keys.len(),
            keys@ == old(keys)@,
            before == keys_view(keys@),
            forall|i: int| 0 <= i < p ==> user_key_lt(#[trigger] before[i], key@),
        decreases keys.len() - p,
    {
        p = p + 1;
    }
    if p < keys.len() && keys[p].same(key) {
        proof {
            assert(before[p as int] == key@);
        }
        return ;
    }
    proof {
        assert forall|i: int| p <= i < before.len() implies user_key_lt(key@, #[trigger] before[i]) by {
            crate::key::lemma_user_key_order(key@, before[p as int], before[i]);
            crate::key::lemma_user_key_order(before[p as int], key@, before[i]);
        }
    }
    keys.insert(p, key.duplicate());
    proof {
        let after = keys_view(keys@);
        assert(after =~= before.insert(p as int, key@));
        assert forall|i: int, j: int| 0 <= i < j < after.len() implies user_key_lt(
            #[trigger] after[i],
            #[trigger] after[j],
        ) by {
            let oi = if i < p { i } else { i - 1 };
            let oj = if j < p { j } else { j - 1 };
            if i == p {
                assert(after[j] == before[oj]);
            } else if j == p {
                assert(after[i] == before[oi]);
            } else {
                assert(after[i] == before[oi]);
                assert(after[j] == before[oj]);
            }
        }
        assert forall|k: UserKeyView| after.contains(k) == (before.contains(k) || k == key@) by {
            if before.contains(k) {
                let i = choose|i: int| 0 <= i < before.len() && before[i] == k;
                let ni = if i < p { i } else { i + 1 };
                assert(after[ni] == k);
            }
            if k == key@ {
                assert(after[p as int] == k);
            }
            if after.contains(k) {
                let i = choose|i: int| 0 <= i < after.len() && after[i] == k;
                if i != p {
                    let oi = if i < p { i } else { i - 1 };
                    assert(before[oi] == k);
                }
            }
        }
    }
}

/// Every bound of a tombstone that covers a key is among `keys`.
spec fn holds_bounds(keys: Seq<UserKeyView>, ts: Seq<DeleteRangeTombstoneView>, n: int) -> bool {
    forall|m: int|
        0 <= m < n && (#[trigger] ts[m]).valid() ==> keys.contains(ts[m].start_user_key)
            && keys.contains(ts[m].end_user_key)
}

/// The bounds of the tombstones that cover a key, in key order, each once.
fn boundaries(tombstones: &Vec<DeleteRangeTombstone>) -> (keys: Vec<UserKey>)
    ensures
        keys_ascending(keys_view(keys@)),
        holds_bounds(keys_view(keys@), tombstones_view(tombstones@), tombstones@.len() as int),
        forall|k: UserKeyView|
            keys_view(keys@).contains(k) ==> exists|m: int|
                0 <= m < tombstones@.len() && (#[trigger] tombstones_view(tombstones@)[m]).valid()
                    && (k == tombstones_view(tombstones@)[m].start_user_key || k
                    == tombstones_view(tombstones@)[m].end_user_key),
{
    let ghost ts = tombstones_view(tombstones@);
    let mut keys: Vec<UserKey> = Vec::new();
    let mut n: usize = 0;
    while n < tombstones.len()
        invariant
            n <= tombstones.len(),
            ts == tombstones_view(tombstones@),
            keys_ascending(keys_view(keys@)),
            holds_bounds(keys_view(keys@), ts, n as int),
            forall|k: UserKeyView|
                keys_view(keys@).contains(k) ==> exists|m: int|
                    0 <= m < n && (#[trigger] ts[m]).valid() && (k == ts[m].start_user_key || k
                        == ts[m].end_user_key),
        decreases tombstones.len() - n,
    {
        let ghost had = keys_view(keys@);
        if tombstones[n].is_valid() {
            insert_boundary(&mut keys, &tombstones[n].start_user_key);
            insert_boundary(&mut keys, &tombstones[n].end_user_key);
        }
        proof {
            let now = keys_view(keys@);
            assert(ts[n as int] == tombstones@[n as int]@);
            assert forall|k: UserKeyView| had.contains(k) implies now.contains(k) by {}
            assert forall|k: UserKeyView| now.contains(k) implies exists|m: int|
                0 <= m < n + 1 && (#[trigger] ts[m]).valid() && (k == ts[m].start_user_key || k
                    == ts[m].end_user_key) by {
                if had.contains(k) {
                    let m = choose|m: int|
                        0 <= m < n && (#[trigger] ts[m]).valid() && (k == ts[m].start_user_key
                            || k == ts[m].end_user_key);
                    assert(0 <= m < n + 1);
                } else {
                    assert(ts[n as int].valid());
                }
            }
        }
        n = n + 1;
    }
    keys
}

/// The epoch as of which `tombstones` delete `key`.
fn cover_epoch_of(tombstones: &Vec<DeleteRangeTombstone>, key: &UserKey) -> (epoch: u64)
    ensures
        epoch == cover_epoch(tombstones_view(tombstones@), key@),
{
    let ghost ts = tombstones_view(tombstones@);
    let mut epoch: u64 = MAX_EPOCH;
    let mut n: usize = 0;
    while n < tombstones.len()
        invariant
            n <= tombstones.len(),
            ts == tombstones_view(tombstones@),
            epoch == cover_epoch(ts.take(n as int), key@),
        decreases tombstones.len() - n,
    {
        proof {
            crate::seqs::lemma_take_step(ts, n as int);
        }
        if tombstones[n].covers(key) && tombstones[n].sequence < epoch {
            epoch = tombstones[n].sequence;
        }
        n = n + 1;
    }
    proof {
        crate::seqs::lemma_take_all(ts);
    }
    epoch
}

/// Between one bound and the next, every key is covered by the same tombstones.
proof fn lemma_cover_between_bounds(
    ts: Seq<DeleteRangeTombstoneView>,
    keys: Seq<UserKeyView>,
    i: int,
    key: UserKeyView,
)
    requires
        keys_ascending(keys),
        holds_bounds(keys, ts, ts.len() as int),
        0 <= i < keys.len(),
        user_key_le(keys[i], key),
        i + 1 < keys.len() ==> user_key_lt(key, keys[i + 1]),
    ensures
        cover_epoch(ts, key) == cover_epoch(ts, keys[i]),
{
    assert forall|n: int| 0 <= n < ts.len() implies (#[trigger] ts[n]).covers(key)
        == ts[n].covers(keys[i]) by {
        let t = ts[n];
        let lo = t.start_user_key;
        let hi = t.end_user_key;
        if t.covers(key) {
            crate::key::lemma_user_key_order(lo, key, hi);
            assert(t.valid());
            let p = choose|p: int| 0 <= p < keys.len() && keys[p] == lo;
            crate::key::lemma_user_key_order(keys[i], key, hi);
            assert(user_key_lt(keys[i], hi));
            if p > i {
                if p > i + 1 {
                    assert(user_key_lt(keys[i + 1], keys[p]));
                }
                crate::key::lemma_user_key_order(key, keys[i + 1], keys[p]);
                assert(user_key_lt(key, lo));
            } else if p < i {
                assert(user_key_lt(keys[p], keys[i]));
                crate::key::lemma_user_key_order(keys[p], keys[i], keys[i]);
            } else {
                crate::key::lemma_user_key_order(keys[i], keys[i], keys[i]);
            }
            assert(t.covers(keys[i]));
        }
        if t.covers(keys[i]) {
            crate::key::lemma_user_key_order(lo, keys[i], hi);
            assert(t.valid());
            let q = choose|q: int| 0 <= q < keys.len() && keys[q] == hi;
            crate::key::lemma_user_key_order(lo, keys[i], key);
            assert(user_key_le(lo, key));
            if q < i {
                assert(user_key_lt(keys[q], keys[i]));
                crate::key::lemma_user_key_order(keys[q], keys[i], keys[q]);
            } else if q == i {
                crate::key::lemma_user_key_order(keys[i], keys[i], keys[i]);
            } else {
                if q > i + 1 {
                    assert(user_key_lt(keys[i + 1], keys[q]));
                }
                crate::key::lemma_user_key_order(key, keys[i + 1], keys[q]);
                assert(user_key_lt(key, hi));
            }
            assert(t.covers(key));
        }
    }
    lemma_same_cover(ts, key, keys[i]);
}

/// Before the first bound, no key is covered.
proof fn lemma_cover_before_bounds(
    ts: Seq<DeleteRangeTombstoneView>,
    keys: Seq<UserKeyView>,
    key: UserKeyView,
)
    requires
        keys_ascending(keys),
        holds_bounds(keys, ts, ts.len() as int),
        keys.len() > 0 ==> user_key_lt(key, keys[0]),
    ensures
        cover_epoch(ts, key) == MAX_EPOCH,
{
    assert forall|n: int| 0 <= n < ts.len() implies !(#[trigger] ts[n]).covers(key) by {
        let t = ts[n];
        if t.covers(key) {
            crate::key::lemma_user_key_order(t.start_user_key, key, t.end_user_key);
            assert(t.valid());
            let p = choose|p: int| 0 <= p < keys.len() && keys[p] == t.start_user_key;
            if p > 0 {
                assert(user_key_lt(keys[0], keys[p]));
            }
            crate::key::lemma_user_key_order(key, keys[0], keys[p]);
        }
    }
    lemma_no_cover(ts, key);
}

/// The stream of events that stands for `delete_range_tombstones`: at each
/// bound of a tombstone, in key order, the epoch as of which the keys from
/// there on are deleted, where it differs from the epoch before.
pub fn create_monotonic_events(delete_range_tombstones: &Vec<DeleteRangeTombstone>) -> (events: Vec<
    MonotonicDeleteEvent,
>)
    ensures
        represents(events_view(events@), tombstones_view(delete_range_tombstones@)),
{
    let ghost ts = tombstones_view(delete_range_tombstones@);
    let bounds = boundaries(delete_range_tombstones);
    let ghost keys = keys_view(bounds@);
    let mut events: Vec<MonotonicDeleteEvent> = Vec::new();
    let mut last_epoch: u64 = MAX_EPOCH;
    let mut i: usize = 0;
    proof {
        assert forall|key: UserKeyView|
            (keys.len() > 0 ==> user_key_lt(key, keys[0])) implies #[trigger] epoch_at(
            events_view(events@),
            key,
        ) == cover_epoch(ts, key) by {
            lemma_cover_before_bounds(ts, keys, key);
        }
    }
    while i < bounds.len()
        invariant
            i <= bounds.len(),
            ts == tombstones_view(delete_range_tombstones@),
            keys == keys_view(bounds@),
            keys_ascending(keys),
            holds_bounds(keys, ts, ts.len() as int),
            events_ascending(events_view(events@)),
            events_compact(events_view(events@)),
            events@.len() == 0 ==> last_epoch == MAX_EPOCH,
            events@.len() > 0 ==> last_epoch == events_view(events@).last().new_epoch,
            forall|m: int|
                0 <= m < events@.len() && i < keys.len() ==> user_key_lt(
                    (#[trigger] events_view(events@)[m]).event_key,
                    keys[i as int],
                ),
            i > 0 ==> last_epoch == cover_epoch(ts, keys[i - 1]),
            i > 0 ==> forall|m: int|
                0 <= m < events@.len() ==> user_key_le(
                    (#[trigger] events_view(events@)[m]).event_key,
                    keys[i - 1],
                ),
            forall|key: UserKeyView|
                (i < keys.len() ==> user_key_lt(key, keys[i as int])) ==> #[trigger] epoch_at(
                    events_view(events@),
                    key,
                ) == cover_epoch(ts, key),
        decreases bounds.len() - i,
    {
        let ghost had = events_view(events@);
        let ghost prev_epoch = last_epoch;
        let epoch = cover_epoch_of(delete_range_tombstones, &bounds[i]);
        let pushed = epoch != last_epoch;
        if pushed {
            events.push(MonotonicDeleteEvent::new(bounds[i].duplicate(), epoch));
            last_epoch = epoch;
        }
        proof {
            let now = events_view(events@);
            let b = keys[i as int];
            if pushed {
                assert(now =~= had.push(MonotonicDeleteEventView { event_key: b, new_epoch: epoch }));
                assert(now.drop_last() =~= had);
            } else {
                assert(now =~= had);
            }
            assert forall|m: int|
                0 <= m < now.len() && i + 1 < keys.len() implies user_key_lt(
                (#[trigger] now[m]).event_key,
                keys[i + 1],
            ) by {
                assert(user_key_lt(keys[i as int], keys[i + 1]));
                if m < had.len() {
                    assert(now[m] == had[m]);
                    crate::key::lemma_user_key_order(had[m].event_key, b, keys[i + 1]);
                }
            }
            assert forall|m: int| 0 <= m < now.len() implies user_key_le(
                (#[trigger] now[m]).event_key,
                b,
            ) by {
                if m < had.len() {
                    assert(now[m] == had[m]);
                    crate::key::lemma_user_key_order(had[m].event_key, b, b);
                } else {
                    crate::key::lemma_user_key_order(b, b, b);
                }
            }
            assert forall|key: UserKeyView|
                (i + 1 < keys.len() ==> user_key_lt(key, keys[i + 1])) implies #[trigger] epoch_at(
                now,
                key,
            ) == cover_epoch(ts, key) by {
                crate::key::lemma_user_key_order(key, b, key);
                if user_key_lt(key, b) {
                    assert(epoch_at(had, key) == cover_epoch(ts, key));
                } else {
                    lemma_cover_between_bounds(ts, keys, i as int, key);
                    if !pushed {
                        if had.len() > 0 {
                            crate::key::lemma_user_key_order(had.last().event_key, b, key);
                            if i > 0 {
                                crate::key::lemma_user_key_order(
                                    had.last().event_key,
                                    keys[i - 1],
                                    b,
                                );
                            }
                            assert(user_key_lt(had[had.len() - 1].event_key, b));
                        }
                    }
                }
            }
        }
        i = i + 1;
    }
    events
}


/// Whether a key stands for "no bound": its table key is empty.
pub open spec fn unbounded(key: UserKeyView) -> bool {
    key.table_key.len() == 0
}

/// Whether the stretch of keys that event `i` speaks of, from its key up to
/// the key of the next event, meets the keys from `lo` up to `hi`.
pub open spec fn event_intersects(
    events: Seq<MonotonicDeleteEventView>,
    i: int,
    lo: UserKeyView,
    hi: UserKeyView,
) -> bool {
    &&& unbounded(hi) || user_key_lt(events[i].event_key, hi)
    &&& unbounded(lo) || i + 1 >= events.len() || user_key_lt(lo, events[i + 1].event_key)
}

/// Those of the first `n` events whose stretch meets the keys from `lo` up to
/// `hi`, in their order.
pub open spec fn events_between(
    events: Seq<MonotonicDeleteEventView>,
    lo: UserKeyView,
    hi: UserKeyView,
    n: int,
) -> Seq<MonotonicDeleteEventView>
    decreases n,
{
    if n <= 0 || n > events.len() {
        Seq::empty()
    } else {
        let before = events_between(events, lo, hi, n - 1);
        if event_intersects(events, n - 1, lo, hi) {
            before.push(events[n - 1])
        } else {
            before
        }
    }
}

/// Collects the range tombstones of the tables that a compaction reads.
#[derive(Debug, PartialEq, Eq)]
pub struct CompactionDeleteRangesBuilder {
    delete_tombstones: Vec<DeleteRangeTombstone>,
}

impl View for CompactionDeleteRangesBuilder {
    type V = Seq<DeleteRangeTombstoneView>;

    closed spec fn view(&self) -> Seq<DeleteRangeTombstoneView> {
        tombstones_view(self.delete_tombstones@)
    }
}

impl Default for CompactionDeleteRangesBuilder {
    fn default() -> (b: CompactionDeleteRangesBuilder)
        ensures
            b@ == Seq::<DeleteRangeTombstoneView>::empty(),
    {
        let b = CompactionDeleteRangesBuilder { delete_tombstones: Vec::new() };
        proof {
            assert(b@ =~= Seq::<DeleteRangeTombstoneView>::empty());
        }
        b
    }
}

impl CompactionDeleteRangesBuilder {
    /// Adds the tombstones `data` after those already there.
    pub fn add_tombstone(&mut self, data: Vec<DeleteRangeTombstone>)
        ensures
            final(self)@ == old(self)@ + tombstones_view(data@),
    {
        let mut data = data;
        let ghost added = data@;
        self.delete_tombstones.append(&mut data);
        proof {
            assert(final(self)@ =~= old(self)@ + tombstones_view(added));
        }
    }

    /// The aggregator of the collected tombstones. It keeps them all, with
    /// the stream of events that stands for them, whatever `gc_delete_keys`
    /// says; the flag tells the compaction whether it may drop what they
    /// delete.
    pub fn build_for_compaction(self, gc_delete_keys: bool) -> (r: CompactionDeleteRanges)
        ensures
            r.tombstones() == self@,
            r.gc_delete_keys() == gc_delete_keys,
            represents(r.events(), self@),
    {
        let events = create_monotonic_events(&self.delete_tombstones);
        CompactionDeleteRanges { tombstones: self.delete_tombstones, events, gc_delete_keys }
    }
}

/// The range tombstones of one compaction, ready to be asked.
#[derive(Debug, PartialEq, Eq)]
pub struct CompactionDeleteRanges {
    tombstones: Vec<DeleteRangeTombstone>,
    events: Vec<MonotonicDeleteEvent>,
    gc_delete_keys: bool,
}

impl CompactionDeleteRanges {
    /// The tombstones, in the order in which they were collected.
    pub closed spec fn tombstones(&self) -> Seq<DeleteRangeTombstoneView> {
        tombstones_view(self.tombstones@)
    }

    /// The stream of events that was made of the tombstones.
    pub closed spec fn events(&self) -> Seq<MonotonicDeleteEventView> {
        events_view(self.events@)
    }

    /// Whether the compaction may drop what the tombstones delete.
    pub closed spec fn gc_delete_keys(&self) -> bool {
        self.gc_delete_keys
    }

    /// Whether the compaction may drop what the tombstones delete.
    pub fn may_drop(&self) -> (r: bool)
        ensures
            r == self.gc_delete_keys(),
    {
        self.gc_delete_keys
    }

    /// The least sequence, from `epoch` on, of the tombstones that cover
    /// `user_key`: the earliest deletion that a write of `epoch` cannot
    /// escape. The never-epoch where there is none.
    pub fn earliest_delete_which_can_see_key(&self, user_key: &UserKey, epoch: u64) -> (r: u64)
        ensures
            r == earliest_delete_spec(self.tombstones(), user_key@, epoch),
    {
        let ghost ts = self.tombstones();
        let mut earliest: u64 = MAX_EPOCH;
        let mut n: usize = 0;
        while n < self.tombstones.len()
            invariant
                n <= self.tombstones.len(),
                ts == self.tombstones(),
                earliest == earliest_delete_spec(ts.take(n as int), user_key@, epoch),
            decreases self.tombstones.len() - n,
        {
            proof {
                crate::seqs::lemma_take_step(ts, n as int);
            }
            let t = &self.tombstones[n];
            if t.covers(user_key) && epoch <= t.sequence && t.sequence < earliest {
                earliest = t.sequence;
            }
            n = n + 1;
        }
        proof {
            crate::seqs::lemma_take_all(ts);
        }
        earliest
    }

    /// The events whose stretch of keys meets the keys from
    /// `smallest_user_key` up to `largest_user_key`, in their order. A key
    /// with an empty table key stands for "no bound".
    pub fn get_tombstone_between(&self, smallest_user_key: &UserKey, largest_user_key: &UserKey) -> (r:
        Vec<MonotonicDeleteEvent>)
        ensures
            events_view(r@) == events_between(
                self.events(),
                smallest_user_key@,
                largest_user_key@,
                self.events().len() as int,
            ),
    {
        let ghost events = self.events();
        let mut r: Vec<MonotonicDeleteEvent> = Vec::new();
        let mut i: usize = 0;
        proof {
            assert(events_view(r@) =~= Seq::empty());
        }
        while i < self.events.len()
            invariant
                i <= self.events.len(),
                events == self.events(),
                events_view(r@) == events_between(
                    events,
                    smallest_user_key@,
                    largest_user_key@,
                    i as int,
                ),
            decreases self.events.len() - i,
        {
            let starts_in_time = largest_user_key.table_key.len() == 0
                || self.events[i].event_key.less(largest_user_key);
            let ends_late_enough = smallest_user_key.table_key.len() == 0 || i + 1
                >= self.events.len() || smallest_user_key.less(&self.events[i + 1].event_key);
            if starts_in_time && ends_late_enough {
                let ghost before = events_view(r@);
                r.push(self.events[i].duplicate());
                proof {
                    assert(events_view(r@) =~= before.push(events[i as int]));
                }
            }
            i = i + 1;
        }
        r
    }
}


/// Within the stretch of event `i`, the events give the epoch of event `i`.
proof fn lemma_epoch_at_stretch(events: Seq<MonotonicDeleteEventView>, i: int, key: UserKeyView)
    requires
        events_ascending(events),
        0 <= i < events.len(),
        user_key_le(events[i].event_key, key),
        i + 1 < events.len() ==> user_key_lt(key, events[i + 1].event_key),
    ensures
        epoch_at(events, key) == events[i].new_epoch,
    decreases events.len(),
{
    if i < events.len() - 1 {
        let last = events[events.len() - 1];
        if i + 1 < events.len() - 1 {
            assert(user_key_lt(events[i + 1].event_key, last.event_key));
        }
        crate::key::lemma_user_key_order(key, events[i + 1].event_key, last.event_key);
        crate::key::lemma_user_key_order(key, last.event_key, key);
        let before = events.drop_last();
        assert(events_ascending(before)) by {
            assert forall|x: int, y: int| 0 <= x < y < before.len() implies user_key_lt(
                (#[trigger] before[x]).event_key,
                (#[trigger] before[y]).event_key,
            ) by {
                assert(before[x] == events[x]);
                assert(before[y] == events[y]);
            }
        }
        assert(before[i] == events[i]);
        if i + 1 < before.len() {
            assert(before[i + 1] == events[i + 1]);
        }
        lemma_epoch_at_stretch(before, i, key);
    }
}

/// Before the first event, the events give the never-epoch.
proof fn lemma_epoch_at_start(events: Seq<MonotonicDeleteEventView>, key: UserKeyView)
    requires
        events_ascending(events),
        events.len() > 0 ==> user_key_lt(key, events[0].event_key),
    ensures
        epoch_at(events, key) == MAX_EPOCH,
    decreases events.len(),
{
    if events.len() > 0 {
        let last = events[events.len() - 1];
        if events.len() > 1 {
            assert(user_key_lt(events[0].event_key, last.event_key));
        }
        crate::key::lemma_user_key_order(key, events[0].event_key, last.event_key);
        crate::key::lemma_user_key_order(key, last.event_key, key);
        let before = events.drop_last();
        assert(events_ascending(before)) by {
            assert forall|x: int, y: int| 0 <= x < y < before.len() implies user_key_lt(
                (#[trigger] before[x]).event_key,
                (#[trigger] before[y]).event_key,
            ) by {
                assert(before[x] == events[x]);
                assert(before[y] == events[y]);
            }
        }
        if before.len() > 0 {
            assert(before[0] == events[0]);
        }
        lemma_epoch_at_start(before, key);
    }
}

/// Between the key of event `n - 1` and the key of event `n`, the events
/// give the epoch of event `n - 1`, and the never-epoch before the first event.
proof fn lemma_epoch_at_gap(
    events: Seq<MonotonicDeleteEventView>,
    n: int,
    key: UserKeyView,
)
    requires
        events_ascending(events),
        0 <= n <= events.len(),
        n > 0 ==> user_key_lt(events[n - 1].event_key, key),
        n < events.len() ==> user_key_lt(key, events[n].event_key),
    ensures
        epoch_at(events, key) == if n == 0 {
            MAX_EPOCH
        } else {
            events[n - 1].new_epoch
        },
{
    if n == 0 {
        lemma_epoch_at_start(events, key);
    } else {
        crate::key::lemma_user_key_order(events[n - 1].event_key, key, key);
        lemma_epoch_at_stretch(events, n - 1, key);
    }
}

proof fn lemma_events_prefix(
    a: Seq<MonotonicDeleteEventView>,
    b: Seq<MonotonicDeleteEventView>,
    n: int,
)
    requires
        events_ascending(a),
        events_compact(a),
        events_ascending(b),
        events_compact(b),
        forall|key: UserKeyView| #[trigger] epoch_at(a, key) == epoch_at(b, key),
        0 <= n <= a.len(),
    ensures
        n <= b.len(),
        forall|i: int| 0 <= i < n ==> a[i] == b[i],
    decreases n,
{
    if n > 0 {
        let m = n - 1;
        lemma_events_prefix(a, b, m);
        let k = a[m].event_key;
        crate::key::lemma_user_key_order(k, k, k);
        if m + 1 < a.len() {
            assert(user_key_lt(a[m].event_key, a[m + 1].event_key));
        }
        lemma_epoch_at_stretch(a, m, k);
        assert(epoch_at(a, k) == epoch_at(b, k));
        if m > 0 {
            assert(a[m - 1] == b[m - 1]);
            assert(user_key_lt(a[m - 1].event_key, a[m].event_key));
        }
        if b.len() == m {
            lemma_epoch_at_gap(b, m, k);
            assert(false);
        }
        let kb = b[m].event_key;
        crate::key::lemma_user_key_order(k, kb, k);
        if user_key_lt(k, kb) {
            lemma_epoch_at_gap(b, m, k);
            assert(false);
        }
        if user_key_lt(kb, k) {
            crate::key::lemma_user_key_order(kb, kb, kb);
            if m + 1 < b.len() {
                assert(user_key_lt(b[m].event_key, b[m + 1].event_key));
            }
            if m > 0 {
                assert(user_key_lt(b[m - 1].event_key, b[m].event_key));
            }
            lemma_epoch_at_stretch(b, m, kb);
            lemma_epoch_at_gap(a, m, kb);
            assert(epoch_at(a, kb) == epoch_at(b, kb));
            assert(false);
        }
        assert(k == kb);
        if m + 1 < b.len() {
            assert(user_key_lt(b[m].event_key, b[m + 1].event_key));
        }
        lemma_epoch_at_stretch(b, m, k);
    }
}

/// Only one stream of events stands for given tombstones.
pub proof fn lemma_represents_unique(
    a: Seq<MonotonicDeleteEventView>,
    b: Seq<MonotonicDeleteEventView>,
    ts: Seq<DeleteRangeTombstoneView>,
)
    requires
        represents(a, ts),
        represents(b, ts),
    ensures
        a == b,
{
    assert forall|key: UserKeyView| #[trigger] epoch_at(a, key) == epoch_at(b, key) by {
        assert(epoch_at(a, key) == cover_epoch(ts, key));
        assert(epoch_at(b, key) == cover_epoch(ts, key));
    }
    lemma_events_prefix(a, b, a.len() as int);
    lemma_events_prefix(b, a, b.len() as int);
    assert(a =~= b);
}

/// The events of tombstones tell of every key whether a tombstone deletes
/// it at or before `limit`.
pub proof fn lemma_events_tell_deletion(
    events: Seq<MonotonicDeleteEventView>,
    ts: Seq<DeleteRangeTombstoneView>,
    key: UserKeyView,
    limit: u64,
)
    requires
        represents(events, ts),
    ensures
        epoch_at(events, key) != MAX_EPOCH && epoch_at(events, key) <= limit <==> exists|n: int|
            0 <= n < ts.len() && (#[trigger] ts[n]).covers(key) && ts[n].sequence <= limit
                && ts[n].sequence != MAX_EPOCH,
{
    assert(epoch_at(events, key) == cover_epoch(ts, key));
    lemma_range_deleted_meaning(ts, key, 0, limit);
}

} // verus!
