//! The bounded queue on which note events travel to the audio engine.
//!
//! The queue is [`crossbeam_queue::ArrayQueue`]. It is used here through
//! exclusive references only, so that what it holds is known exactly.
use crate::synth::NoteEvent;
use crossbeam_queue::ArrayQueue;
use vstd::prelude::*;

verus! {

/// Declares [`crossbeam_queue::ArrayQueue`]; nothing inside it is visible.
#[verifier::external_type_specification]
#[verifier::external_body]
#[verifier::reject_recursive_types(T)]
pub struct ExArrayQueue<T>(ArrayQueue<T>);

/// The events that a queue holds, the oldest first.
pub uninterp spec fn queued(queue: ArrayQueue<NoteEvent>) -> Seq<NoteEvent>;

/// How many events a queue can hold, as it was made.
pub uninterp spec fn slots(queue: ArrayQueue<NoteEvent>) -> nat;

/// How many events may wait for the audio engine.
pub const QUEUE_CAPACITY: usize = 512;

/// What a queue holds after events were offered in turn: those that find
/// no room are dropped.
pub open spec fn offered(
    held: Seq<NoteEvent>,
    room: nat,
    events: Seq<NoteEvent>,
) -> Seq<NoteEvent> {
    if held.len() + events.len() <= room {
        held + events
    } else if held.len() < room {
        held + events.take(room - held.len())
    } else {
        held
    }
}

/// [`ArrayQueue::new`]: an empty queue for `capacity` events. It panics when
/// the capacity is zero or when so many slots cannot be had.
#[verifier::external_body]
fn new_queue(capacity: usize) -> (r: ArrayQueue<NoteEvent>)
    requires
        0 < capacity <= 0x1_0000,
    ensures
        queued(r) == Seq::<NoteEvent>::empty(),
        slots(r) == capacity,
{
    ArrayQueue::new(capacity)
}

/// [`ArrayQueue::push`] on a queue that no other thread can reach: the event
/// goes in last, or, when the queue is full, comes back.
#[verifier::external_body]
fn push(queue: &mut ArrayQueue<NoteEvent>, event: NoteEvent) -> (r: Result<(), NoteEvent>)
    ensures
        slots(*final(queue)) == slots(*old(queue)),
        match r {
            Ok(_) => {
                &&& queued(*old(queue)).len() < slots(*old(queue))
                &&& queued(*final(queue)) == queued(*old(queue)).push(event)
            },
            Err(e) => {
                &&& queued(*old(queue)).len() >= slots(*old(queue))
                &&& queued(*final(queue)) == queued(*old(queue))
                &&& e == event
            },
        },
{
    queue.push(event)
}

/// [`ArrayQueue::pop`] on a queue that no other thread can reach: the oldest
/// event comes out, or nothing when the queue is empty.
#[verifier::external_body]
pub(crate) fn pop(queue: &mut ArrayQueue<NoteEvent>) -> (r: Option<NoteEvent>)
    ensures
        slots(*final(queue)) == slots(*old(queue)),
        match r {
            Some(event) => {
                &&& queued(*old(queue)).len() > 0
                &&& event == queued(*old(queue))[0]
                &&& queued(*final(queue)) == queued(*old(queue)).drop_first()
            },
            None => {
                &&& queued(*old(queue)).len() == 0
                &&& queued(*final(queue)) == queued(*old(queue))
            },
        },
{
    queue.pop()
}

/// An empty queue for note events.
pub fn note_queue() -> (r: ArrayQueue<NoteEvent>)
    ensures
        queued(r) == Seq::<NoteEvent>::empty(),
        slots(r) == QUEUE_CAPACITY,
        slots(r) == 512,
{
    new_queue(QUEUE_CAPACITY)
}

/// Puts an event last in the queue; a full queue drops it.
pub fn offer(queue: &mut ArrayQueue<NoteEvent>, event: NoteEvent)
    ensures
        slots(*final(queue)) == slots(*old(queue)),
        queued(*final(queue)) == offered(
            queued(*old(queue)),
            slots(*old(queue)),
            seq![event],
        ),
{
    let _ = push(queue, event);
}

/// Puts events last in the queue, in their order; a full queue drops them.
pub fn offer_all(queue: &mut ArrayQueue<NoteEvent>, events: &Vec<NoteEvent>)
    ensures
        slots(*final(queue)) == slots(*old(queue)),
        queued(*final(queue)) == offered(
            queued(*old(queue)),
            slots(*old(queue)),
            events@,
        ),
{
    let ghost held = queued(*queue);
    let ghost room = slots(*queue);
    let mut i: usize = 0;
    assert(events@.take(0) =~= Seq::<NoteEvent>::empty());
    assert(offered(held, room, events@.take(0)) =~= held);
    while i < events.len()
        invariant
            i <= events.len(),
            held == queued(*old(queue)),
            room == slots(*old(queue)),
            slots(*queue) == room,
            queued(*queue) == offered(held, room, events@.take(i as int)),
        decreases events.len() - i,
    {
        proof {
            lemma_offered_step(held, room, events@, i as int);
        }
        offer(queue, events[i]);
        i = i + 1;
    }
    assert(events@.take(i as int) =~= events@);
}

proof fn lemma_offered_step(held: Seq<NoteEvent>, room: nat, events: Seq<NoteEvent>, i: int)
    requires
        0 <= i < events.len(),
    ensures
        offered(held, room, events.take(i + 1)) == offered(
            offered(held, room, events.take(i)),
            room,
            seq![events[i]],
        ),
{
    let before = events.take(i);
    let after = events.take(i + 1);
    assert(after =~= before.push(events[i]));
    if held.len() + after.len() <= room {
        assert(held + after =~= (held + before) + seq![events[i]]);
    } else if held.len() < room {
        if held.len() + before.len() <= room {
            assert(after.take(room - held.len()) =~= before);
        } else {
            assert(after.take(room - held.len()) =~= before.take(room - held.len()));
        }
    }
    assert(seq![events[i]].take(0) =~= Seq::<NoteEvent>::empty());
}

/// A queue never grows beyond its slots.
pub proof fn lemma_offered_fits(held: Seq<NoteEvent>, room: nat, events: Seq<NoteEvent>)
    requires
        held.len() <= room,
    ensures
        offered(held, room, events).len() <= room,
{
}

/// What waits in the queue keeps its place: new events only come after it.
pub proof fn lemma_offered_keeps_order(held: Seq<NoteEvent>, room: nat, events: Seq<NoteEvent>)
    ensures
        held.is_prefix_of(offered(held, room, events)),
        forall|k: int|
            held.len() <= k < offered(held, room, events).len() ==> offered(
                held,
                room,
                events,
            )[k] == #[trigger] events[k - held.len()],
{
    assert(held =~= offered(held, room, events).subrange(0, held.len() as int));
}

/// Offering one batch after another is offering both at once.
pub proof fn lemma_offered_twice(
    held: Seq<NoteEvent>,
    room: nat,
    first: Seq<NoteEvent>,
    second: Seq<NoteEvent>,
)
    ensures
        offered(offered(held, room, first), room, second) == offered(held, room, first + second),
{
    let once = offered(held, room, first);
    let both = first + second;
    if held.len() + both.len() <= room {
        assert(once + second =~= held + both);
    } else if held.len() + first.len() <= room {
        if held.len() + first.len() < room {
            assert(once + second.take(room - once.len()) =~= held + both.take(
                room - held.len(),
            ));
        } else if held.len() < room {
            assert(both.take(room - held.len()) =~= first);
        } else {
            assert(first =~= Seq::<NoteEvent>::empty());
            assert(once =~= held);
        }
        if second.len() == 0 {
            assert(both =~= first);
        }
    } else if held.len() < room {
        assert(both.take(room - held.len()) =~= first.take(room - held.len()));
        if second.len() == 0 {
            assert(both =~= first);
        }
    }
    if second.len() == 0 {
        assert(both =~= first);
        assert(once + second =~= once);
    }
}

/// As long as there is room nothing is dropped, and a queue that cannot take
/// all events is full afterwards.
pub proof fn lemma_offered_is_complete(held: Seq<NoteEvent>, room: nat, events: Seq<NoteEvent>)
    requires
        held.len() <= room,
    ensures
        held.len() + events.len() <= room ==> offered(held, room, events) == held + events,
        held.len() + events.len() > room ==> offered(held, room, events) == (held + events).take(
            room as int,
        ),
{
    if held.len() + events.len() > room {
        assert(offered(held, room, events) =~= (held + events).take(room as int));
    }
}

} // verus!
