//! Readers-writers lock built from a turnstile and a lightswitch.

use crate::randomness::random_in_range;
use vstd::prelude::*;

verus! {

/// Amount by which an action of the demo queue changes the shared value:
/// `0` reads, `1` adds one, anything else adds two.
pub open spec fn action_delta(action: u8) -> int {
    if action == 0 {
        0
    } else if action == 1 {
        1
    } else {
        2
    }
}

/// Value held by the lock after the actions of `queue` ran one after the
/// other, starting from zero.
pub open spec fn value_after(queue: Seq<u8>) -> int
    decreases queue.len(),
{
    if queue.len() == 0 {
        0
    } else {
        value_after(queue.drop_last()) + action_delta(queue.last())
    }
}

/// The value only grows along a queue.
pub proof fn lemma_value_after_prefix(queue: Seq<u8>, i: int)
    requires
        0 <= i <= queue.len(),
    ensures
        0 <= value_after(queue.take(i)) <= value_after(queue),
    decreases queue.len(),
{
    if queue.len() > 0 {
        if i == queue.len() {
            assert(queue.take(i) =~= queue);
            lemma_value_after_prefix(queue.drop_last(), i - 1);
            assert(queue.drop_last().take(i - 1) =~= queue.drop_last());
        } else {
            lemma_value_after_prefix(queue.drop_last(), i);
            assert(queue.drop_last().take(i) =~= queue.take(i));
            lemma_value_after_prefix(queue.drop_last(), queue.len() - 1);
            assert(queue.drop_last().take(queue.len() - 1) =~= queue.drop_last());
        }
    } else {
        assert(queue.take(i) =~= queue);
    }
}

/// The values that each action of `queue` observes when the queue runs
/// sequentially from zero.
pub fn compute_expected_values(queue: &[u8]) -> (expected: Vec<i32>)
    requires
        value_after(queue@) <= i32::MAX,
    ensures
        expected.len() == queue.len(),
        forall|i: int| 0 <= i < queue.len() ==> #[trigger] expected[i] == value_after(queue@.take(i + 1)),
{
    let mut current_val: i32 = 0;
    let mut expected: Vec<i32> = Vec::new();
    let mut i: usize = 0;
    while i < queue.len()
        invariant
            i <= queue.len(),
            value_after(queue@) <= i32::MAX,
            current_val == value_after(queue@.take(i as int)),
            expected.len() == i,
            forall|k: int| 0 <= k < i ==> expected[k] == value_after(#[trigger] queue@.take(k + 1)),
        decreases queue.len() - i,
    {
        assert(queue@.take(i + 1).drop_last() =~= queue@.take(i as int));
        proof {
            lemma_value_after_prefix(queue@, i + 1);
        }
        let action = queue[i];
        if action == 1 {
            current_val = current_val + 1;
        } else if action != 0 {
            current_val = current_val + 2;
        }
        expected.push(current_val);
        i = i + 1;
    }
    expected
}

/// Draws a random queue of `len` actions, each `0` (read), `1` (write +1)
/// or `2` (write +2).
pub fn generate_random_queue(len: usize) -> (queue: Vec<u8>)
    ensures
        queue.len() == len,
        forall|i: int| 0 <= i < len ==> #[trigger] queue[i] <= 2,
{
    let mut rng = rand::thread_rng();
    let mut queue: Vec<u8> = Vec::new();
    let mut i: usize = 0;
    while i < len
        invariant
            i <= len,
            queue.len() == i,
            forall|k: int| 0 <= k < i ==> #[trigger] queue[k] <= 2,
        decreases len - i,
    {
        let action = random_in_range(&mut rng, 0, 3);
        queue.push(action as u8);
        i = i + 1;
    }
    queue
}

/// The name under which an action is shown.
pub fn op_name(action: u8) -> (name: &'static str)
    ensures
        name@ == action_name(action),
        action == 0 ==> name@ == "Read"@,
        action == 1 ==> name@ == "Write"@,
        action >= 2 ==> name@ == "Write2"@,
{
    match action {
        0 => "Read",
        1 => "Write",
        _ => "Write2",
    }
}

/// Performs one action of the queue on the value held by the lock and
/// returns the value that the action observes: a read leaves it as it is,
/// a write adds one or two and observes the sum.
pub fn apply_action(data: &mut i32, action: u8) -> (observed: i32)
    requires
        *old(data) + action_delta(action) <= i32::MAX,
    ensures
        *final(data) == *old(data) + action_delta(action),
        observed == *final(data),
{
    if action == 0 {
        // a read
    } else if action == 1 {
        *data = *data + 1;
    } else {
        *data = *data + 2;
    }
    *data
}

/// The value reached after a queue depends only on how many actions of each
/// kind it holds.
pub proof fn lemma_value_after_counts(queue: Seq<u8>)
    ensures
        value_after(queue) == queue.to_multiset().count(1u8) + 2 * (queue.len()
            - queue.to_multiset().count(0u8) - queue.to_multiset().count(1u8)),
    decreases queue.len(),
{
    broadcast use vstd::multiset::group_multiset_axioms;
    broadcast use vstd::seq_lib::to_multiset_build;

    if queue.len() == 0 {
        queue.to_multiset_ensures();
        assert(!queue.contains(0u8));
        assert(!queue.contains(1u8));
    } else {
        let front = queue.drop_last();
        lemma_value_after_counts(front);
        assert(queue =~= front.push(queue.last()));
        assert(queue.to_multiset() =~= front.to_multiset().insert(queue.last()));
    }
}

/// Whatever order the actions of a queue take, the lock ends with the same
/// value: a reordering of the queue ends where the queue ends.
pub proof fn lemma_final_value_independent_of_order(queue: Seq<u8>, reordered: Seq<u8>)
    requires
        reordered.to_multiset() == queue.to_multiset(),
    ensures
        value_after(reordered) == value_after(queue),
{
    broadcast use vstd::seq_lib::to_multiset_len;

    lemma_value_after_counts(queue);
    lemma_value_after_counts(reordered);
    assert(queue.len() == queue.to_multiset().len());
    assert(reordered.len() == reordered.to_multiset().len());
}

/// A reader that moves the reader count from `readers_before` is the first
/// one in: it must take the room for all readers.
pub open spec fn first_in(readers_before: nat) -> bool {
    readers_before == 0
}

/// A reader that moves the reader count from `readers_before` is the last
/// one out: it must hand the room back.
pub open spec fn last_out(readers_before: nat) -> bool {
    readers_before == 1
}

/// The count of readers inside the lock (the lightswitch): the first reader
/// in takes the room for all readers, the last one out gives it back.
pub struct LightSwitch {
    readers: usize,
}

impl View for LightSwitch {
    type V = nat;

    closed spec fn view(&self) -> nat {
        self.readers as nat
    }
}

impl LightSwitch {
    /// No reader inside.
    pub fn new() -> (switch: Self)
        ensures
            switch@ == 0,
    {
        LightSwitch { readers: 0 }
    }

    /// Number of readers inside.
    pub fn readers(&self) -> (n: usize)
        ensures
            n == self@,
    {
        self.readers
    }

    /// A reader comes in; tells whether it is the first one, which must then
    /// take the room.
    pub fn enter(&mut self) -> (first: bool)
        requires
            old(self)@ < usize::MAX,
        ensures
            final(self)@ == old(self)@ + 1,
            first == first_in(old(self)@),
    {
        self.readers = self.readers + 1;
        self.readers == 1
    }

    /// A reader leaves; tells whether it was the last one, which must then
    /// give the room back.
    pub fn leave(&mut self) -> (last: bool)
        requires
            old(self)@ > 0,
        ensures
            final(self)@ == old(self)@ - 1,
            last == last_out(old(self)@),
    {
        self.readers = self.readers - 1;
        self.readers == 0
    }
}

/// Reader count after a run of enters (`true`) and leaves (`false`) from an
/// empty lightswitch, together with the number of times the room was taken
/// minus the number of times it was given back; `None` when a leave finds
/// nobody inside.
pub open spec fn switch_run(ops: Seq<bool>) -> Option<(nat, int)>
    decreases ops.len(),
{
    if ops.len() == 0 {
        Some((0nat, 0int))
    } else {
        match switch_run(ops.drop_last()) {
            None => None,
            Some((readers, held)) => if ops.last() {
                Some(((readers + 1) as nat, held + if first_in(readers) { 1int } else { 0int }))
            } else if readers == 0 {
                None
            } else {
                Some(((readers - 1) as nat, held - if last_out(readers) { 1int } else { 0int }))
            },
        }
    }
}

/// The room is taken by the readers exactly while some reader is inside:
/// over any run of enters and leaves, every take by a first reader is
/// matched by one give-back by a last reader.
pub proof fn lemma_lightswitch_balanced(ops: Seq<bool>)
    requires
        switch_run(ops) is Some,
    ensures
        ({
            let (readers, held) = switch_run(ops).unwrap();
            held == if readers > 0 { 1int } else { 0int }
        }),
    decreases ops.len(),
{
    if ops.len() > 0 {
        lemma_lightswitch_balanced(ops.drop_last());
    }
}

/// Who holds the turnstile of the readers-writers lock.
pub enum TurnstileHolder {
    /// The turnstile is free.
    Nobody,
    /// A reader passed it and is about to count itself in.
    ArrivingReader,
    /// The first reader counted itself in and waits for the room.
    FirstReaderWaiting,
    /// A writer passed it and waits for the room to empty.
    WaitingWriter,
    /// A writer holds the room.
    Writer,
}

/// The state of the readers-writers lock protocol: the permits of the two
/// semaphores, the lightswitch's reader count, the readers that hold a
/// read guard and the holder of the turnstile (at most one thread, since it
/// has one permit).
pub struct RwProtocol {
    pub turnstile: nat,
    pub room_empty: nat,
    pub reader_count: nat,
    pub reading: nat,
    pub holder: TurnstileHolder,
}

/// One atomic step of some thread in the protocol.
pub enum RwEvent {
    /// A reader takes the turnstile.
    ReaderArrives,
    /// The reader on the turnstile counts itself in; all but the first
    /// release the turnstile and read.
    ReaderCounts,
    /// The first reader takes the room (and forgets the permit), releases
    /// the turnstile and reads.
    ReaderTakesRoom,
    /// A reader drops its guard and counts itself out; the last one adds
    /// the room's permit back.
    ReaderLeaves,
    /// A writer takes the turnstile.
    WriterArrives,
    /// The writer on the turnstile takes the room.
    WriterTakesRoom,
    /// The writer drops its guard, giving back both permits.
    WriterLeaves,
}

/// The lock as created: both semaphores with their one permit, no reader.
pub open spec fn rw_initial() -> RwProtocol {
    RwProtocol { turnstile: 1, room_empty: 1, reader_count: 0, reading: 0, holder: TurnstileHolder::Nobody }
}

/// The state after `event`, or `None` when the event cannot happen (the
/// thread would wait for a permit, or no thread is in the position to take
/// that step).
pub open spec fn rw_step(s: RwProtocol, event: RwEvent) -> Option<RwProtocol> {
    match event {
        RwEvent::ReaderArrives => if s.turnstile >= 1 && s.holder is Nobody {
            Some(RwProtocol { turnstile: (s.turnstile - 1) as nat, holder: TurnstileHolder::ArrivingReader, ..s })
        } else {
            None
        },
        RwEvent::ReaderCounts => if s.holder is ArrivingReader {
            if first_in(s.reader_count) {
                Some(RwProtocol { reader_count: s.reader_count + 1, holder: TurnstileHolder::FirstReaderWaiting, ..s })
            } else {
                Some(RwProtocol {
                    reader_count: s.reader_count + 1,
                    reading: s.reading + 1,
                    turnstile: s.turnstile + 1,
                    holder: TurnstileHolder::Nobody,
                    ..s
                })
            }
        } else {
            None
        },
        RwEvent::ReaderTakesRoom => if s.holder is FirstReaderWaiting && s.room_empty >= 1 {
            Some(RwProtocol {
                room_empty: (s.room_empty - 1) as nat,
                reading: s.reading + 1,
                turnstile: s.turnstile + 1,
                holder: TurnstileHolder::Nobody,
                ..s
            })
        } else {
            None
        },
        RwEvent::ReaderLeaves => if s.reading >= 1 && s.reader_count >= 1 {
            Some(RwProtocol {
                reading: (s.reading - 1) as nat,
                reader_count: (s.reader_count - 1) as nat,
                room_empty: s.room_empty + if last_out(s.reader_count) { 1nat } else { 0nat },
                ..s
            })
        } else {
            None
        },
        RwEvent::WriterArrives => if s.turnstile >= 1 && s.holder is Nobody {
            Some(RwProtocol { turnstile: (s.turnstile - 1) as nat, holder: TurnstileHolder::WaitingWriter, ..s })
        } else {
            None
        },
        RwEvent::WriterTakesRoom => if s.holder is WaitingWriter && s.room_empty >= 1 {
            Some(RwProtocol { room_empty: (s.room_empty - 1) as nat, holder: TurnstileHolder::Writer, ..s })
        } else {
            None
        },
        RwEvent::WriterLeaves => if s.holder is Writer {
            Some(RwProtocol {
                room_empty: s.room_empty + 1,
                turnstile: s.turnstile + 1,
                holder: TurnstileHolder::Nobody,
                ..s
            })
        } else {
            None
        },
    }
}

/// What holds in every reachable state of the protocol.
pub open spec fn rw_invariant(s: RwProtocol) -> bool {
    &&& s.turnstile == if s.holder is Nobody { 1nat } else { 0nat }
    &&& s.reader_count == s.reading + if s.holder is FirstReaderWaiting { 1nat } else { 0nat }
    &&& (s.holder is FirstReaderWaiting ==> s.reading == 0)
    &&& s.room_empty + (if s.reading > 0 { 1nat } else { 0nat }) + (if s.holder is Writer { 1nat } else { 0nat }) == 1
}

/// The lock starts in a state of the invariant.
pub proof fn lemma_rw_initial()
    ensures
        rw_invariant(rw_initial()),
{
}

/// Every step keeps the invariant.
pub proof fn lemma_rw_step(s: RwProtocol, event: RwEvent)
    requires
        rw_invariant(s),
        rw_step(s, event) is Some,
    ensures
        rw_invariant(rw_step(s, event).unwrap()),
{
}

/// Readers and a writer never hold the lock together, and a writer holds
/// the room alone.
pub proof fn lemma_rw_exclusion(s: RwProtocol)
    requires
        rw_invariant(s),
    ensures
        s.holder is Writer ==> s.reading == 0 && s.room_empty == 0,
        s.reading > 0 ==> s.room_empty == 0,
        s.reading == 0 && !(s.holder is Writer) ==> s.room_empty == 1,
{
}

/// Writer priority: while a writer waits on the turnstile no reader or
/// other writer can get past it, and once the readers inside have left the
/// writer can take the room. The first reader waiting for the room always
/// finds it free.
pub proof fn lemma_rw_writer_priority(s: RwProtocol)
    requires
        rw_invariant(s),
    ensures
        s.holder is WaitingWriter ==> rw_step(s, RwEvent::ReaderArrives) is None && rw_step(s, RwEvent::WriterArrives) is None,
        s.holder is WaitingWriter && s.reading == 0 ==> rw_step(s, RwEvent::WriterTakesRoom) is Some,
        s.holder is FirstReaderWaiting ==> rw_step(s, RwEvent::ReaderTakesRoom) is Some,
{
}

/// The i-th action of a queue, run on the value the actions before it left,
/// observes the value that `compute_expected_values` gives for it.
pub proof fn lemma_expected_is_sequential(queue: Seq<u8>, i: int)
    requires
        0 <= i < queue.len(),
    ensures
        value_after(queue.take(i + 1)) == value_after(queue.take(i)) + action_delta(queue[i]),
{
    assert(queue.take(i + 1).drop_last() =~= queue.take(i));
}

/// The state after the events of `events`, from the initial state; `None`
/// when one of them cannot happen.
pub open spec fn rw_run(events: Seq<RwEvent>) -> Option<RwProtocol>
    decreases events.len(),
{
    if events.len() == 0 {
        Some(rw_initial())
    } else {
        match rw_run(events.drop_last()) {
            Some(s) => rw_step(s, events.last()),
            None => None,
        }
    }
}

/// Every state that any interleaving of readers and writers reaches
/// satisfies the invariant; with `lemma_rw_exclusion`, readers and a writer
/// never share the data.
pub proof fn lemma_rw_reachable(events: Seq<RwEvent>)
    requires
        rw_run(events) is Some,
    ensures
        rw_invariant(rw_run(events).unwrap()),
    decreases events.len(),
{
    if events.len() > 0 {
        lemma_rw_reachable(events.drop_last());
        lemma_rw_step(rw_run(events.drop_last()).unwrap(), events.last());
    }
}

/// The state after the events of `events`, from the state `s`; `None` when
/// one of them cannot happen.
pub open spec fn rw_run_from(s: RwProtocol, events: Seq<RwEvent>) -> Option<RwProtocol>
    decreases events.len(),
{
    if events.len() == 0 {
        Some(s)
    } else {
        match rw_run_from(s, events.drop_last()) {
            Some(t) => rw_step(t, events.last()),
            None => None,
        }
    }
}

/// Among `events` the writer takes the room and later leaves.
pub open spec fn writer_served(events: Seq<RwEvent>) -> bool {
    exists|i: int, j: int|
        0 <= i < j < events.len() && #[trigger] events[i] == RwEvent::WriterTakesRoom && #[trigger] events[j]
            == RwEvent::WriterLeaves
}

/// From a state where a writer waits on the turnstile, until the writer has
/// taken the room and left, the turnstile stays with that writer.
proof fn lemma_writer_keeps_turnstile(s: RwProtocol, events: Seq<RwEvent>)
    requires
        s.holder is WaitingWriter,
        rw_run_from(s, events) is Some,
    ensures
        !writer_served(events) ==> {
            let t = rw_run_from(s, events).unwrap();
            &&& (t.holder is WaitingWriter || t.holder is Writer)
            &&& (t.holder is Writer ==> exists|i: int|
                0 <= i < events.len() && #[trigger] events[i] == RwEvent::WriterTakesRoom)
        },
    decreases events.len(),
{
    if events.len() > 0 {
        let front = events.drop_last();
        let last = events.len() - 1;
        lemma_writer_keeps_turnstile(s, front);
        if writer_served(front) {
            let (i, j) = choose|i: int, j: int|
                0 <= i < j < front.len() && #[trigger] front[i] == RwEvent::WriterTakesRoom && #[trigger] front[j]
                    == RwEvent::WriterLeaves;
            assert(events[i] == front[i] && events[j] == front[j]);
            assert(writer_served(events));
        } else {
            let t = rw_run_from(s, front).unwrap();
            if t.holder is Writer {
                let i = choose|i: int| 0 <= i < front.len() && #[trigger] front[i] == RwEvent::WriterTakesRoom;
                assert(events[i] == front[i]);
                if events[last] == RwEvent::WriterLeaves {
                    assert(writer_served(events));
                }
            } else if events[last] == RwEvent::WriterTakesRoom {
                assert(events[last] == RwEvent::WriterTakesRoom);
            }
        }
    }
}

/// Writer precedence over whole runs: once a writer holds the turnstile, no
/// reader (and no other writer) gets past it until that writer has taken
/// the room and dropped its guard.
pub proof fn lemma_rw_writer_precedence(s: RwProtocol, events: Seq<RwEvent>)
    requires
        s.holder is WaitingWriter,
        events.len() > 0,
        events.last() == RwEvent::ReaderArrives || events.last() == RwEvent::WriterArrives,
        rw_run_from(s, events) is Some,
    ensures
        writer_served(events.drop_last()),
{
    let front = events.drop_last();
    lemma_writer_keeps_turnstile(s, front);
}

/// The name under which an action is shown.
pub open spec fn action_name(action: u8) -> Seq<char> {
    if action == 0 {
        "Read"@
    } else if action == 1 {
        "Write"@
    } else {
        "Write2"@
    }
}

/// The name shown for an action tells how the action changes the value:
/// "Read" exactly when it stays, "Write" exactly when it grows by one,
/// "Write2" exactly when it grows by two. `compute_expected_values` gives
/// the value after each action, `op_name` its name.
pub proof fn lemma_name_tells_change(queue: Seq<u8>, i: int)
    requires
        0 <= i < queue.len(),
    ensures
        action_name(queue[i]) == "Read"@ <==> value_after(queue.take(i + 1)) == value_after(queue.take(i)),
        action_name(queue[i]) == "Write"@ <==> value_after(queue.take(i + 1)) == value_after(queue.take(i)) + 1,
        action_name(queue[i]) == "Write2"@ <==> value_after(queue.take(i + 1)) == value_after(queue.take(i)) + 2,
{
    reveal_strlit("Read");
    reveal_strlit("Write");
    reveal_strlit("Write2");
    lemma_expected_is_sequential(queue, i);
    assert("Read"@.len() == 4 && "Write"@.len() == 5 && "Write2"@.len() == 6);
}

} // verus!
