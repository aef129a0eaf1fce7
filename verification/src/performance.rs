//! The performer: from keys to notes, as chords or through the arpeggiator.
use crate::arpeggio::{
    arp_octaves, arp_place, arp_pool, arp_range, in_turn, lemma_in_turn, lemma_place_in_range,
    lemma_pool, lemma_round_takes_every_place_once, note_at, pattern_place, place_note,
    PATTERN_AS_PLAYED, PATTERN_DOWN, PATTERN_RANDOM,
};
use crate::chords::{
    build_pool, chord_notes, covered, expand_chord, holds, lemma_chord_notes,
    lemma_chord_notes_rise_from_the_key, lemma_chord_table, sort_notes, TOP_NOTE,
};
use crate::ieee754::{
    at_least, clamp, is_on, lemma_magnitude_order, less, not_a_number, on, round_to_i32, rounded,
    scaled, ONE,
};
use crate::noise::{lemma_never_stuck, shifted, xorshift};
use crate::params::{Params, ARP_ENABLED, ARP_GATE, ARP_PATTERN, ARP_RATE};
use crate::queue::{lemma_offered_twice, offer, offer_all, offered, queued, slots};
use crate::synth::{handled, handled_all, NoteEvent, Voice};
use crossbeam_queue::ArrayQueue;
use std::collections::HashMap;
use vstd::arithmetic::div_mod::{
    lemma_fundamental_div_mod, lemma_fundamental_div_mod_converse, lemma_small_mod,
};
use vstd::arithmetic::mul::lemma_mul_is_commutative;
use vstd::prelude::*;
use vstd::std_specs::hash::group_hash_axioms;

verus! {

/// The velocity of an arpeggio's notes: 0.85.
pub const ARP_VELOCITY: u32 = 0x3f59_999a;

/// The slowest arpeggio, in notes per second: 0.1.
pub const MIN_RATE: u32 = 0x3dcc_cccd;

/// The shortest part of a step that an arpeggio note may sound: 0.05.
pub const MIN_GATE: u32 = 0x3d4c_cccd;

/// The longest part of a step that an arpeggio note may sound: 0.95.
pub const MAX_GATE: u32 = 0x3f73_3333;

/// How long the arpeggiator waits for a key when it has nothing to play, in
/// milliseconds.
pub const ARP_IDLE_MS: u64 = 200;

/// The events that start notes.
pub open spec fn note_ons(notes: Seq<u8>, velocity: u32) -> Seq<NoteEvent> {
    notes.map_values(|n: u8| NoteEvent::On { note: n, velocity })
}

/// The events that end notes.
pub open spec fn note_offs(notes: Seq<u8>) -> Seq<NoteEvent> {
    notes.map_values(|n: u8| NoteEvent::Off { note: n })
}

/// Keys without one of them.
pub open spec fn without(keys: Seq<u8>, note: u8) -> Seq<u8> {
    keys.filter(|k: u8| k != note)
}

/// How many notes a second the arpeggio plays: not too few.
pub open spec fn arp_rate(values: Seq<u32>) -> u32 {
    if less(MIN_RATE, values[ARP_RATE as int]) {
        values[ARP_RATE as int]
    } else {
        MIN_RATE
    }
}

/// For what part of a step an arpeggio note sounds: neither too short nor too
/// long.
pub open spec fn arp_gate(values: Seq<u32>) -> u32 {
    if less(values[ARP_GATE as int], MIN_GATE) {
        MIN_GATE
    } else if less(MAX_GATE, values[ARP_GATE as int]) {
        MAX_GATE
    } else {
        values[ARP_GATE as int]
    }
}

/// What a performer keeps track of.
#[verifier::ext_equal]
pub struct PerfState {
    /// The notes that each held key started, while the arpeggiator is off.
    pub sounding: Map<u8, Seq<u8>>,
    /// The keys held for the arpeggiator, in the order pressed.
    pub arp_keys: Seq<u8>,
    /// How many steps the arpeggio has taken.
    pub arp_step: i64,
    /// The arpeggio's note that is sounding.
    pub arp_current: Option<u8>,
    /// The random register.
    pub rng: u32,
}

impl PerfState {
    /// The state before any key was pressed.
    pub open spec fn initial() -> PerfState {
        PerfState {
            sounding: Map::empty(),
            arp_keys: Seq::empty(),
            arp_step: 0,
            arp_current: None,
            rng: 0x0135_7bdf,
        }
    }

    /// What holds of every reachable state: no key is held twice for the
    /// arpeggiator, only existing notes sound, and the random register works.
    pub open spec fn wf(self) -> bool {
        &&& self.arp_keys.no_duplicates()
        &&& self.arp_current is Some ==> self.arp_current->0 <= TOP_NOTE
        &&& self.rng != 0
        &&& forall|key: u8, i: int|
            self.sounding.contains_key(key) && 0 <= i < self.sounding[key].len()
                ==> #[trigger] self.sounding[key][i] <= TOP_NOTE
    }

    /// The state after a key was pressed.
    pub open spec fn pressed(self, values: Seq<u32>, note: u8) -> PerfState {
        if on(values[ARP_ENABLED as int]) {
            if self.arp_keys.contains(note) {
                self
            } else {
                PerfState { arp_keys: self.arp_keys.push(note), ..self }
            }
        } else {
            PerfState {
                sounding: self.sounding.insert(note, chord_notes(values, note)),
                ..self
            }
        }
    }

    /// The events that pressing a key causes.
    pub open spec fn press_events(values: Seq<u32>, note: u8, velocity: u32) -> Seq<NoteEvent> {
        if on(values[ARP_ENABLED as int]) {
            Seq::empty()
        } else {
            note_ons(chord_notes(values, note), velocity)
        }
    }

    /// The state after a key was released.
    pub open spec fn released(self, values: Seq<u32>, note: u8) -> PerfState {
        if on(values[ARP_ENABLED as int]) {
            let keys = without(self.arp_keys, note);
            PerfState {
                arp_keys: keys,
                arp_current: if keys.len() == 0 {
                    None
                } else {
                    self.arp_current
                },
                ..self
            }
        } else {
            PerfState { sounding: self.sounding.remove(note), ..self }
        }
    }

    /// The events that releasing a key causes.
    pub open spec fn release_events(self, values: Seq<u32>, note: u8) -> Seq<NoteEvent> {
        if on(values[ARP_ENABLED as int]) {
            if without(self.arp_keys, note).len() == 0 {
                self.current_off()
            } else {
                Seq::empty()
            }
        } else if self.sounding.contains_key(note) {
            note_offs(self.sounding[note])
        } else {
            Seq::empty()
        }
    }

    /// The event that ends the arpeggio's note, if one is sounding.
    pub open spec fn current_off(self) -> Seq<NoteEvent> {
        match self.arp_current {
            Some(n) => seq![NoteEvent::Off { note: n }],
            None => Seq::empty(),
        }
    }

    /// The state after everything was stopped.
    pub open spec fn silenced(self) -> PerfState {
        PerfState {
            sounding: Map::empty(),
            arp_keys: Seq::empty(),
            arp_step: 0,
            arp_current: None,
            ..self
        }
    }

    /// The state after the arpeggio's note was ended.
    pub open spec fn gate_ended(self) -> PerfState {
        PerfState { arp_current: None, ..self }
    }

    /// Whether the arpeggiator has nothing to do.
    pub open spec fn arp_resting(self, values: Seq<u32>) -> bool {
        !on(values[ARP_ENABLED as int]) || self.arp_keys.len() == 0
    }

    /// Whether the arpeggio plays a note at its next step.
    pub open spec fn arp_plays(self, values: Seq<u32>) -> bool {
        !self.arp_resting(values) && arp_pool(values, self.arp_keys).len() > 0
    }

    /// The random register after the arpeggio's next step.
    pub open spec fn next_register(self, values: Seq<u32>) -> u32 {
        if rounded(values[ARP_PATTERN as int]) == PATTERN_RANDOM {
            shifted(self.rng)
        } else {
            self.rng
        }
    }

    /// The place that the arpeggio takes at its next step, among the notes of
    /// the pool octave by octave.
    pub open spec fn next_place(self, values: Seq<u32>) -> int {
        arp_place(
            rounded(values[ARP_PATTERN as int]),
            self.arp_step as int,
            self.next_register(values),
            self.places(values),
        )
    }

    /// How many places the arpeggio has.
    pub open spec fn places(self, values: Seq<u32>) -> int {
        arp_pool(values, self.arp_keys).len() * arp_octaves(values)
    }

    /// The note that the arpeggio plays at its next step.
    pub open spec fn arp_note(self, values: Seq<u32>) -> u8 {
        place_note(arp_pool(values, self.arp_keys), self.next_place(values)) as u8
    }

    /// The state after the arpeggio's next step.
    pub open spec fn arp_stepped(self, values: Seq<u32>) -> PerfState {
        if self.arp_resting(values) {
            self.gate_ended()
        } else if self.arp_plays(values) {
            PerfState {
                arp_step: self.arp_step.wrapping_add(1),
                arp_current: Some(self.arp_note(values)),
                rng: self.next_register(values),
                ..self
            }
        } else {
            self
        }
    }

    /// The state after several steps of the arpeggio, each note sounding for its
    /// part of the step.
    pub open spec fn arp_ran(self, values: Seq<u32>, steps: nat) -> PerfState
        decreases steps,
    {
        if steps == 0 {
            self
        } else {
            self.arp_ran(values, (steps - 1) as nat).arp_stepped(values).gate_ended()
        }
    }

    /// Whether the arpeggio, after so many steps, plays the pool's note `i`, so
    /// many octaves up.
    pub open spec fn arp_comes_to(
        self,
        values: Seq<u32>,
        steps: nat,
        i: int,
        octave: int,
    ) -> bool {
        let pool = arp_pool(values, self.arp_keys);
        let then = self.arp_ran(values, steps);
        &&& then.arp_plays(values)
        &&& then.next_place(values) == octave * pool.len() + i
        &&& then.arp_note(values) == (if pool[i] + 12 * octave > TOP_NOTE {
            TOP_NOTE as int
        } else {
            pool[i] + 12 * octave
        })
    }

    /// The events of the arpeggio's next step: the note that is sounding
    /// ends before the next one starts.
    pub open spec fn arp_step_events(self, values: Seq<u32>) -> Seq<NoteEvent> {
        if self.arp_resting(values) {
            self.current_off()
        } else if self.arp_plays(values) {
            self.current_off() + seq![
                NoteEvent::On { note: self.arp_note(values), velocity: ARP_VELOCITY },
            ]
        } else {
            Seq::empty()
        }
    }
}

/// Something that a performer is told or does.
pub enum PerfCall {
    /// A key is pressed.
    Press { note: u8, velocity: u32 },
    /// A key is released.
    Release { note: u8 },
    /// Everything is stopped.
    Silence,
    /// The arpeggio takes a step.
    Step,
    /// The arpeggio's note has sounded long enough.
    GateEnd,
}

impl PerfCall {
    /// Whether a key is pressed or released.
    pub open spec fn is_about(self, note: u8) -> bool {
        match self {
            PerfCall::Press { note: n, velocity } => n == note,
            PerfCall::Release { note: n } => n == note,
            _ => false,
        }
    }
}

impl PerfState {
    /// The state after a call, with these parameters.
    pub open spec fn called(self, values: Seq<u32>, call: PerfCall) -> PerfState {
        match call {
            PerfCall::Press { note, velocity } => self.pressed(values, note),
            PerfCall::Release { note } => self.released(values, note),
            PerfCall::Silence => self.silenced(),
            PerfCall::Step => self.arp_stepped(values),
            PerfCall::GateEnd => self.gate_ended(),
        }
    }

    /// The events that a call causes.
    pub open spec fn call_events(self, values: Seq<u32>, call: PerfCall) -> Seq<NoteEvent> {
        match call {
            PerfCall::Press { note, velocity } => PerfState::press_events(values, note, velocity),
            PerfCall::Release { note } => self.release_events(values, note),
            PerfCall::Silence => seq![NoteEvent::AllOff],
            PerfCall::Step => self.arp_step_events(values),
            PerfCall::GateEnd => self.current_off(),
        }
    }

    /// The state after several calls in turn, each with the parameters of its
    /// moment.
    pub open spec fn called_all(self, calls: Seq<(Seq<u32>, PerfCall)>) -> PerfState
        decreases calls.len(),
    {
        if calls.len() == 0 {
            self
        } else {
            self.called_all(calls.drop_last()).called(calls.last().0, calls.last().1)
        }
    }

    /// The events that several calls cause.
    pub open spec fn all_events(self, calls: Seq<(Seq<u32>, PerfCall)>) -> Seq<NoteEvent>
        decreases calls.len(),
    {
        if calls.len() == 0 {
            Seq::empty()
        } else {
            self.all_events(calls.drop_last()) + self.called_all(calls.drop_last()).call_events(
                calls.last().0,
                calls.last().1,
            )
        }
    }
}

/// What the arpeggiator was waiting for.
#[derive(Copy, Clone, Debug, PartialEq, Eq, Structural)]
pub enum ArpEvent {
    /// Its turn has come: at the start, after the rest of a step, or after it
    /// had nothing to play.
    Ready,
    /// Its note has sounded long enough.
    GateOver,
}

/// What the arpeggiator waits for next.
#[derive(Copy, Clone, Debug, PartialEq, Eq, Structural)]
pub enum ArpAction {
    /// A note was started: wait for its part of the step, then
    /// [`ArpEvent::GateOver`].
    Sound { step: ArpStep },
    /// The note was ended: wait for the rest of the step, then
    /// [`ArpEvent::Ready`].
    Rest,
    /// There is nothing to play: wait for a key, though no longer than
    /// [`ARP_IDLE_MS`], then [`ArpEvent::Ready`].
    Idle,
}

/// One step of the arpeggio: the note played, how many notes a second there
/// are, and for what part of the step the note sounds (both bit patterns).
#[derive(Copy, Clone, Debug, PartialEq, Eq, Structural)]
pub struct ArpStep {
    pub note: u8,
    pub rate: u32,
    pub gate: u32,
}

/// Turns keys into notes: as chords, or through the arpeggiator.
pub struct Performer {
    chord_sounding: HashMap<u8, Vec<u8>>,
    arp_keys: Vec<u8>,
    arp_step: i64,
    arp_current: Option<u8>,
    rng: u32,
}

impl View for Performer {
    type V = PerfState;

    closed spec fn view(&self) -> PerfState {
        PerfState {
            sounding: self.chord_sounding@.map_values(|notes: Vec<u8>| notes@),
            arp_keys: self.arp_keys@,
            arp_step: self.arp_step,
            arp_current: self.arp_current,
            rng: self.rng,
        }
    }
}

impl Performer {
    /// A performer before any key was pressed.
    pub fn new() -> (r: Performer)
        ensures
            r@ == PerfState::initial(),
    {
        let r = Performer {
            chord_sounding: HashMap::new(),
            arp_keys: Vec::new(),
            arp_step: 0,
            arp_current: None,
            rng: 0x0135_7bdf,
        };
        assert(r@ =~= PerfState::initial());
        r
    }

    /// A key was pressed. True when the arpeggiator should wake up.
    pub fn note_on(
        &mut self,
        params: &Params,
        queue: &mut ArrayQueue<NoteEvent>,
        note: u8,
        velocity: u32,
    ) -> (r: bool)
        ensures
            r == on(params@[ARP_ENABLED as int]),
            final(self)@ == old(self)@.pressed(params@, note),
            slots(*final(queue)) == slots(*old(queue)),
            queued(*final(queue)) == offered(
                queued(*old(queue)),
                slots(*old(queue)),
                PerfState::press_events(params@, note, velocity),
            ),
    {
        broadcast use group_hash_axioms;

        if is_on(params.values[ARP_ENABLED]) {
            if !holds(&self.arp_keys, note) {
                self.arp_keys.push(note);
            }
            assert(queued(*queue) + Seq::<NoteEvent>::empty() =~= queued(*queue));
            assert(self@ =~= old(self)@.pressed(params@, note));
            true
        } else {
            let notes = expand_chord(params, note);
            let events = on_events(&notes, velocity);
            offer_all(queue, &events);
            self.chord_sounding.insert(note, notes);
            assert(self@ =~= old(self)@.pressed(params@, note));
            false
        }
    }

    /// A key was released.
    pub fn note_off(&mut self, params: &Params, queue: &mut ArrayQueue<NoteEvent>, note: u8)
        ensures
            final(self)@ == old(self)@.released(params@, note),
            slots(*final(queue)) == slots(*old(queue)),
            queued(*final(queue)) == offered(
                queued(*old(queue)),
                slots(*old(queue)),
                old(self)@.release_events(params@, note),
            ),
    {
        broadcast use group_hash_axioms;

        if is_on(params.values[ARP_ENABLED]) {
            self.arp_keys = keys_without(&self.arp_keys, note);
            if self.arp_keys.is_empty() {
                self.end_gate(queue);
            }
            assert(queued(*queue) + Seq::<NoteEvent>::empty() =~= queued(*queue));
            assert(self@ =~= old(self)@.released(params@, note));
        } else {
            match self.chord_sounding.remove(&note) {
                Some(notes) => {
                    let events = off_events(&notes);
                    offer_all(queue, &events);
                },
                None => {},
            }
            assert(queued(*queue) + Seq::<NoteEvent>::empty() =~= queued(*queue));
            assert(self@ =~= old(self)@.released(params@, note));
        }
    }

    /// Stops everything.
    pub fn all_off(&mut self, queue: &mut ArrayQueue<NoteEvent>)
        ensures
            final(self)@ == old(self)@.silenced(),
            slots(*final(queue)) == slots(*old(queue)),
            queued(*final(queue)) == offered(
                queued(*old(queue)),
                slots(*old(queue)),
                seq![NoteEvent::AllOff],
            ),
    {
        self.chord_sounding.clear();
        self.arp_keys.clear();
        self.arp_current = None;
        self.arp_step = 0;
        offer(queue, NoteEvent::AllOff);
        assert(self@ =~= old(self)@.silenced());
    }

    /// The arpeggio's note has sounded long enough.
    pub fn end_gate(&mut self, queue: &mut ArrayQueue<NoteEvent>)
        ensures
            final(self)@ == old(self)@.gate_ended(),
            slots(*final(queue)) == slots(*old(queue)),
            queued(*final(queue)) == offered(
                queued(*old(queue)),
                slots(*old(queue)),
                old(self)@.current_off(),
            ),
    {
        match self.arp_current {
            Some(n) => {
                offer(queue, NoteEvent::Off { note: n });
            },
            None => {
                assert(queued(*queue) + Seq::<NoteEvent>::empty() =~= queued(*queue));
            },
        }
        self.arp_current = None;
    }

    /// One step of the arpeggiator. Nothing comes back when it has nothing to
    /// play and waits for a key.
    pub fn step_arp(&mut self, params: &Params, queue: &mut ArrayQueue<NoteEvent>) -> (r: Option<
        ArpStep,
    >)
        ensures
            final(self)@ == old(self)@.arp_stepped(params@),
            slots(*final(queue)) == slots(*old(queue)),
            queued(*final(queue)) == offered(
                queued(*old(queue)),
                slots(*old(queue)),
                old(self)@.arp_step_events(params@),
            ),
            match r {
                Some(step) => {
                    &&& old(self)@.arp_plays(params@)
                    &&& step.note == old(self)@.arp_note(params@)
                    &&& step.rate == arp_rate(params@)
                    &&& step.gate == arp_gate(params@)
                },
                None => !old(self)@.arp_plays(params@),
            },
    {
        if !is_on(params.values[ARP_ENABLED]) || self.arp_keys.is_empty() {
            self.end_gate(queue);
            return None;
        }
        let played = build_pool(params, &self.arp_keys);
        let pattern: i32 = round_to_i32(params.values[ARP_PATTERN]);
        let pool = if pattern == PATTERN_AS_PLAYED {
            played
        } else {
            sort_notes(&played)
        };
        let ghost held = queued(*queue);
        if pool.len() == 0 {
            assert(held + Seq::<NoteEvent>::empty() =~= held);
            return None;
        }
        proof {
            lemma_pool(params@, self.arp_keys@);
        }
        let octaves: i32 = arp_range(params);
        let len: i64 = pool.len() as i64;
        assert(len * octaves == octaves * len) by (nonlinear_arith);
        assert(1 <= len * octaves <= 1024) by (nonlinear_arith)
            requires
                1 <= len <= 256,
                1 <= octaves <= 4,
        ;
        let total: i64 = len * octaves as i64;
        if pattern == PATTERN_RANDOM {
            self.rng = xorshift(self.rng);
        }
        let place: i64 = pattern_place(pattern, self.arp_step, self.rng, total);
        self.arp_step = self.arp_step.wrapping_add(1);
        let note = note_at(&pool, place, octaves);
        proof {
            lemma_offered_twice(
                held,
                slots(*queue),
                old(self)@.current_off(),
                seq![NoteEvent::On { note, velocity: ARP_VELOCITY }],
            );
        }
        self.end_gate(queue);
        offer(queue, NoteEvent::On { note, velocity: ARP_VELOCITY });
        self.arp_current = Some(note);
        assert(self@ =~= old(self)@.arp_stepped(params@));
        Some(
            ArpStep {
                note,
                rate: at_least(params.values[ARP_RATE], MIN_RATE),
                gate: clamp(params.values[ARP_GATE], MIN_GATE, MAX_GATE),
            },
        )
    }
}

impl Performer {
    /// One turn of the arpeggiator: takes what it was waiting for and says what
    /// it waits for next.
    pub fn arp_next(
        &mut self,
        params: &Params,
        queue: &mut ArrayQueue<NoteEvent>,
        event: ArpEvent,
    ) -> (r: ArpAction)
        ensures
            slots(*final(queue)) == slots(*old(queue)),
            match event {
                ArpEvent::Ready => {
                    &&& final(self)@ == old(self)@.arp_stepped(params@)
                    &&& queued(*final(queue)) == offered(
                        queued(*old(queue)),
                        slots(*old(queue)),
                        old(self)@.arp_step_events(params@),
                    )
                    &&& r == (if old(self)@.arp_plays(params@) {
                        ArpAction::Sound {
                            step: (ArpStep {
                                note: old(self)@.arp_note(params@),
                                rate: arp_rate(params@),
                                gate: arp_gate(params@),
                            }),
                        }
                    } else {
                        ArpAction::Idle
                    })
                },
                ArpEvent::GateOver => {
                    &&& final(self)@ == old(self)@.gate_ended()
                    &&& queued(*final(queue)) == offered(
                        queued(*old(queue)),
                        slots(*old(queue)),
                        old(self)@.current_off(),
                    )
                    &&& r == ArpAction::Rest
                },
            },
    {
        match event {
            ArpEvent::Ready => match self.step_arp(params, queue) {
                Some(step) => ArpAction::Sound { step },
                None => ArpAction::Idle,
            },
            ArpEvent::GateOver => {
                self.end_gate(queue);
                ArpAction::Rest
            },
        }
    }
}

fn on_events(notes: &Vec<u8>, velocity: u32) -> (r: Vec<NoteEvent>)
    ensures
        r@ == note_ons(notes@, velocity),
{
    let mut events: Vec<NoteEvent> = Vec::new();
    let mut i: usize = 0;
    while i < notes.len()
        invariant
            i <= notes.len(),
            events@ =~= note_ons(notes@.take(i as int), velocity),
        decreases notes.len() - i,
    {
        events.push(NoteEvent::On { note: notes[i], velocity });
        i = i + 1;
    }
    assert(notes@.take(i as int) =~= notes@);
    events
}

fn off_events(notes: &Vec<u8>) -> (r: Vec<NoteEvent>)
    ensures
        r@ == note_offs(notes@),
{
    let mut events: Vec<NoteEvent> = Vec::new();
    let mut i: usize = 0;
    while i < notes.len()
        invariant
            i <= notes.len(),
            events@ =~= note_offs(notes@.take(i as int)),
        decreases notes.len() - i,
    {
        events.push(NoteEvent::Off { note: notes[i] });
        i = i + 1;
    }
    assert(notes@.take(i as int) =~= notes@);
    events
}

fn keys_without(keys: &Vec<u8>, note: u8) -> (r: Vec<u8>)
    ensures
        r@ == without(keys@, note),
{
    let mut kept: Vec<u8> = Vec::new();
    let mut i: usize = 0;
    assert(keys@.take(0) =~= Seq::<u8>::empty());
    reveal(Seq::filter);
    while i < keys.len()
        invariant
            i <= keys.len(),
            kept@ == without(keys@.take(i as int), note),
        decreases keys.len() - i,
    {
        proof {
            reveal(Seq::filter);
            assert(keys@.take(i + 1).drop_last() =~= keys@.take(i as int));
        }
        if keys[i] != note {
            kept.push(keys[i]);
        }
        i = i + 1;
    }
    assert(keys@.take(i as int) =~= keys@);
    kept
}

/// Every state that a performer can reach is well formed: the first one is,
/// and every operation keeps it so.
pub proof fn lemma_performer_stays_well_formed(s: PerfState, values: Seq<u32>, note: u8)
    requires
        s.wf(),
    ensures
        PerfState::initial().wf(),
        s.pressed(values, note).wf(),
        s.released(values, note).wf(),
        s.silenced().wf(),
        s.gate_ended().wf(),
        s.arp_stepped(values).wf(),
{
    lemma_chord_notes(values, note);
    lemma_never_stuck(s.rng);
    lemma_without(s.arp_keys, note);
    let pressed = s.pressed(values, note);
    assert forall|key: u8, i: int|
        pressed.sounding.contains_key(key) && 0 <= i
            < pressed.sounding[key].len() implies #[trigger] pressed.sounding[key][i]
        <= TOP_NOTE by {
        if key != note || on(values[ARP_ENABLED as int]) {
            assert(pressed.sounding[key] == s.sounding[key]);
        }
    }
    let released = s.released(values, note);
    assert forall|key: u8, i: int|
        released.sounding.contains_key(key) && 0 <= i
            < released.sounding[key].len() implies #[trigger] released.sounding[key][i]
        <= TOP_NOTE by {
        assert(released.sounding[key] == s.sounding[key]);
    }
    if s.arp_plays(values) {
        lemma_arp_note(s, values);
    }
}

/// The arpeggio plays a note of the pool or one that lies whole octaves
/// above it, and never one above the highest.
pub proof fn lemma_arp_note(s: PerfState, values: Seq<u32>)
    requires
        s.arp_plays(values),
    ensures
        s.arp_note(values) <= TOP_NOTE,
        exists|i: int, octave: int|
            #![trigger arp_pool(values, s.arp_keys)[i], 12 * octave]
            0 <= i < arp_pool(values, s.arp_keys).len() && 0 <= octave < arp_octaves(values)
                && s.arp_note(values) == (if arp_pool(values, s.arp_keys)[i] + 12 * octave
                > TOP_NOTE {
                TOP_NOTE as int
            } else {
                arp_pool(values, s.arp_keys)[i] + 12 * octave
            }),
{
    let pool = arp_pool(values, s.arp_keys);
    let len = pool.len() as int;
    let octaves = arp_octaves(values);
    lemma_pool(values, s.arp_keys);
    assert(1 <= len * octaves) by (nonlinear_arith)
        requires
            1 <= len,
            1 <= octaves,
    ;
    let place = arp_place(
        rounded(values[ARP_PATTERN as int]),
        s.arp_step as int,
        s.next_register(values),
        len * octaves,
    );
    lemma_place_in_range(
        rounded(values[ARP_PATTERN as int]),
        s.arp_step as int,
        s.next_register(values),
        len * octaves,
    );
    assert(0 <= place / len < octaves && 0 <= place % len < len) by (nonlinear_arith)
        requires
            1 <= len,
            0 <= place < len * octaves,
    ;
    let i = place % len;
    let octave = place / len;
    assert(pool[i] + 12 * octave >= 0);
}

proof fn lemma_without(keys: Seq<u8>, note: u8)
    ensures
        keys.no_duplicates() ==> without(keys, note).no_duplicates(),
        forall|k: u8| #[trigger]
            without(keys, note).contains(k) <==> keys.contains(k) && k != note,
        !keys.contains(note) ==> without(keys, note) == keys,
    decreases keys.len(),
{
    reveal(Seq::filter);
    if keys.len() > 0 {
        let init = keys.drop_last();
        let rest = without(init, note);
        let all = without(keys, note);
        lemma_without(init, note);
        assert forall|k: u8| #[trigger] all.contains(k) <==> keys.contains(k) && k != note by {
            if keys.contains(k) && k != note {
                let i = choose|i: int| 0 <= i < keys.len() && keys[i] == k;
                if i < init.len() {
                    assert(init[i] == k);
                    assert(rest.contains(k));
                    let m = choose|m: int| 0 <= m < rest.len() && rest[m] == k;
                    assert(all[m] == k);
                } else {
                    assert(all[all.len() - 1] == k);
                }
            }
            if all.contains(k) {
                let m = choose|m: int| 0 <= m < all.len() && all[m] == k;
                if m < rest.len() {
                    assert(rest[m] == k);
                    assert(rest.contains(k));
                    let i = choose|i: int| 0 <= i < init.len() && init[i] == k;
                    assert(keys[i] == k);
                } else {
                    assert(keys[keys.len() - 1] == k);
                }
            }
        }
        if keys.no_duplicates() {
            assert(init.no_duplicates());
            assert(!init.contains(keys.last())) by {
                if init.contains(keys.last()) {
                    let i = choose|i: int| 0 <= i < init.len() && init[i] == keys.last();
                    assert(keys[i] == keys[keys.len() - 1]);
                }
            }
            if keys.last() != note {
                assert(!rest.contains(keys.last()));
                assert(all =~= rest.push(keys.last()));
            }
        }
        if !keys.contains(note) {
            assert(!init.contains(note)) by {
                if init.contains(note) {
                    let i = choose|i: int| 0 <= i < init.len() && init[i] == note;
                    assert(keys[i] == note);
                }
            }
            assert(keys[keys.len() - 1] != note);
            assert(all =~= keys);
        }
    }
}

proof fn lemma_notes_stay_with_their_key(
    s: PerfState,
    calls: Seq<(Seq<u32>, PerfCall)>,
    note: u8,
)
    requires
        s.sounding.contains_key(note),
        forall|i: int|
            0 <= i < calls.len() ==> !(#[trigger] calls[i]).1.is_about(note)
                && calls[i].1 != PerfCall::Silence,
    ensures
        s.called_all(calls).sounding.contains_key(note),
        s.called_all(calls).sounding[note] == s.sounding[note],
    decreases calls.len(),
{
    if calls.len() > 0 {
        let init = calls.drop_last();
        assert forall|i: int| 0 <= i < init.len() implies !(#[trigger] init[i]).1.is_about(note)
            && init[i].1 != PerfCall::Silence by {
            assert(init[i] == calls[i]);
        }
        lemma_notes_stay_with_their_key(s, init, note);
        assert(!calls[calls.len() - 1].1.is_about(note));
    }
}

/// While the arpeggiator is off, releasing a key ends the very notes that
/// pressing it started, whatever was played and whichever chord was selected in
/// between, as long as nothing was done with the key itself and not everything
/// was stopped. It leaves the other keys' notes alone.
pub proof fn lemma_release_ends_what_was_started(
    s: PerfState,
    pressed_with: Seq<u32>,
    calls: Seq<(Seq<u32>, PerfCall)>,
    released_with: Seq<u32>,
    note: u8,
)
    requires
        !on(pressed_with[ARP_ENABLED as int]),
        !on(released_with[ARP_ENABLED as int]),
        forall|i: int|
            0 <= i < calls.len() ==> !(#[trigger] calls[i]).1.is_about(note)
                && calls[i].1 != PerfCall::Silence,
    ensures
        ({
            let later = s.pressed(pressed_with, note).called_all(calls);
            &&& later.release_events(released_with, note) == note_offs(
                chord_notes(pressed_with, note),
            )
            &&& later.released(released_with, note) == (PerfState {
                sounding: later.sounding.remove(note),
                ..later
            })
        }),
{
    lemma_notes_stay_with_their_key(s.pressed(pressed_with, note), calls, note);
}

/// While the arpeggiator is on, pressing and releasing a key that was not
/// held leaves the held keys as they were.
pub proof fn lemma_arp_key_comes_and_goes(s: PerfState, values: Seq<u32>, note: u8)
    requires
        on(values[ARP_ENABLED as int]),
        !s.arp_keys.contains(note),
    ensures
        s.pressed(values, note).arp_keys == s.arp_keys.push(note),
        s.pressed(values, note).released(values, note).arp_keys == s.arp_keys,
{
    reveal(Seq::filter);
    lemma_without(s.arp_keys, note);
    assert(s.arp_keys.push(note).drop_last() =~= s.arp_keys);
}

/// After everything was stopped, nothing sounds: the arpeggiator rests, and
/// releasing any key ends no note.
pub proof fn lemma_silence(s: PerfState, values: Seq<u32>, note: u8)
    ensures
        s.silenced().arp_resting(values),
        s.silenced().arp_step_events(values) == Seq::<NoteEvent>::empty(),
        s.silenced().release_events(values, note) == Seq::<NoteEvent>::empty(),
{
    reveal(Seq::filter);
}

/// The arpeggiator ends the note that is sounding before it starts another,
/// so that no two of its notes sound at once.
pub proof fn lemma_arp_plays_one_note(s: PerfState, values: Seq<u32>)
    requires
        s.arp_plays(values),
    ensures
        s.arp_stepped(values).arp_current == Some(s.arp_note(values)),
        match s.arp_current {
            Some(n) => s.arp_step_events(values) == seq![
                NoteEvent::Off { note: n },
                NoteEvent::On { note: s.arp_note(values), velocity: ARP_VELOCITY },
            ],
            None => s.arp_step_events(values) == seq![
                NoteEvent::On { note: s.arp_note(values), velocity: ARP_VELOCITY },
            ],
        },
{
}

proof fn lemma_current_is_ended(s: PerfState, calls: Seq<(Seq<u32>, PerfCall)>, note: u8)
    requires
        s.arp_current == Some(note),
    ensures
        ({
            let events = s.all_events(calls);
            ||| events.contains(NoteEvent::Off { note })
            ||| events.contains(NoteEvent::AllOff)
            ||| s.called_all(calls).arp_current == Some(note)
        }),
    decreases calls.len(),
{
    if calls.len() > 0 {
        let init = calls.drop_last();
        let before = s.called_all(init);
        let first = s.all_events(init);
        let last = before.call_events(calls.last().0, calls.last().1);
        let off = NoteEvent::Off { note };
        lemma_current_is_ended(s, init, note);
        if first.contains(off) {
            let k = choose|k: int| 0 <= k < first.len() && first[k] == off;
            assert((first + last)[k] == off);
        } else if first.contains(NoteEvent::AllOff) {
            let k = choose|k: int| 0 <= k < first.len() && first[k] == NoteEvent::AllOff;
            assert((first + last)[k] == NoteEvent::AllOff);
        } else if s.called_all(calls).arp_current != Some(note) || (calls.last().1
            == PerfCall::Step && before.arp_plays(calls.last().0)) {
            let ended = if calls.last().1 == PerfCall::Silence {
                NoteEvent::AllOff
            } else {
                off
            };
            assert(last[0] == ended);
            assert((first + last)[first.len() as int] == ended);
        }
    }
}

/// Between two notes of the arpeggio the first is ended, whatever is done in
/// between: before the second starts, either the first was ended or everything
/// was stopped.
pub proof fn lemma_arp_note_ends_before_the_next(
    s: PerfState,
    values: Seq<u32>,
    calls: Seq<(Seq<u32>, PerfCall)>,
    next_values: Seq<u32>,
)
    requires
        s.arp_plays(values),
        s.arp_stepped(values).called_all(calls).arp_plays(next_values),
    ensures
        ({
            let started = s.arp_stepped(values);
            let next = started.called_all(calls);
            let events = started.all_events(calls) + next.arp_step_events(next_values);
            &&& s.arp_step_events(values).last() == (NoteEvent::On {
                note: s.arp_note(values),
                velocity: ARP_VELOCITY,
            })
            &&& events.last() == (NoteEvent::On {
                note: next.arp_note(next_values),
                velocity: ARP_VELOCITY,
            })
            &&& events.drop_last().contains(NoteEvent::Off { note: s.arp_note(values) })
                || events.drop_last().contains(NoteEvent::AllOff)
        }),
{
    let started = s.arp_stepped(values);
    let next = started.called_all(calls);
    let first = started.all_events(calls);
    let last = next.arp_step_events(next_values);
    let events = first + last;
    let off = NoteEvent::Off { note: s.arp_note(values) };
    lemma_current_is_ended(started, calls, s.arp_note(values));
    if first.contains(off) {
        let k = choose|k: int| 0 <= k < first.len() && first[k] == off;
        assert(events.drop_last()[k] == off);
    } else if first.contains(NoteEvent::AllOff) {
        let k = choose|k: int| 0 <= k < first.len() && first[k] == NoteEvent::AllOff;
        assert(events.drop_last()[k] == NoteEvent::AllOff);
    } else {
        assert(events.drop_last()[first.len() as int] == off);
    }
}

proof fn lemma_arp_ran(s: PerfState, values: Seq<u32>, steps: nat)
    requires
        s.arp_plays(values),
        s.arp_step + steps <= i64::MAX,
    ensures
        s.arp_ran(values, steps).arp_keys == s.arp_keys,
        s.arp_ran(values, steps).arp_step == s.arp_step + steps,
        s.arp_ran(values, steps).arp_plays(values),
    decreases steps,
{
    if steps > 0 {
        lemma_arp_ran(s, values, (steps - 1) as nat);
    }
}

/// While the same keys are held, an arpeggio that takes its places in turn (up,
/// down or as played) plays every note of the pool in every octave exactly once
/// in a round, that is in as many steps as it has places, wherever the round
/// starts. (The step counter is not to wrap in the round.)
pub proof fn lemma_arp_round(s: PerfState, values: Seq<u32>, i: int, octave: int) -> (k: nat)
    requires
        s.arp_plays(values),
        in_turn(rounded(values[ARP_PATTERN as int])),
        s.arp_step + s.places(values) - 1 <= i64::MAX,
        0 <= i < arp_pool(values, s.arp_keys).len(),
        0 <= octave < arp_octaves(values),
    ensures
        k < s.places(values),
        s.arp_comes_to(values, k, i, octave),
        forall|j: nat|
            j < s.places(values) && #[trigger] s.arp_comes_to(values, j, i, octave) ==> j == k,
{
    let pattern = rounded(values[ARP_PATTERN as int]);
    let pool = arp_pool(values, s.arp_keys);
    let len = pool.len() as int;
    let total = s.places(values);
    let place = octave * len + i;
    assert(0 <= place < total) by (nonlinear_arith)
        requires
            place == octave * len + i,
            total == len * arp_octaves(values),
            0 <= i < len,
            0 <= octave < arp_octaves(values),
    ;
    let k = lemma_round_takes_every_place_once(pattern, s.arp_step as int, s.rng, total, place);
    lemma_arp_ran(s, values, k as nat);
    lemma_fundamental_div_mod_converse(place, len, octave, i);
    lemma_pool(values, s.arp_keys);
    assert forall|j: nat|
        j < total && #[trigger] s.arp_comes_to(values, j, i, octave) implies j == k by {
        lemma_arp_ran(s, values, j);
        assert(arp_place(pattern, s.arp_step + j as int, s.rng, total) == place);
    }
    k as nat
}

/// In a round an arpeggio that takes its places in turn goes through one octave
/// after another: upwards from the bottom, or downwards from the top, when the
/// round starts there.
pub proof fn lemma_octaves_follow_each_other(s: PerfState, values: Seq<u32>, k: nat)
    requires
        s.arp_plays(values),
        in_turn(rounded(values[ARP_PATTERN as int])),
        s.arp_step + s.places(values) - 1 <= i64::MAX,
        s.arp_step as int % s.places(values) == 0,
        k < s.places(values),
    ensures
        ({
            let len = arp_pool(values, s.arp_keys).len() as int;
            let place = if rounded(values[ARP_PATTERN as int]) == PATTERN_DOWN {
                s.places(values) - 1 - k
            } else {
                k as int
            };
            s.arp_comes_to(values, k, place % len, place / len)
        }),
{
    let len = arp_pool(values, s.arp_keys).len() as int;
    let total = s.places(values);
    let pattern = rounded(values[ARP_PATTERN as int]);
    lemma_arp_ran(s, values, k);
    lemma_in_turn(pattern, s.arp_step as int, k as int, s.rng, total);
    lemma_small_mod(k, total as nat);
    let place = if pattern == PATTERN_DOWN {
        total - 1 - k
    } else {
        k as int
    };
    assert(s.arp_ran(values, k).next_place(values) == place);
    lemma_fundamental_div_mod(place, len);
    lemma_mul_is_commutative(place / len, len);
    lemma_pool(values, s.arp_keys);
    assert(0 <= place % len < len && 0 <= place / len) by (nonlinear_arith)
        requires
            1 <= len,
            0 <= place,
    ;
}

/// The arpeggio keeps going: it never plays slower than the slowest rate, and a
/// note ends before its step does. A gate that is no number stays none.
pub proof fn lemma_arp_timing(values: Seq<u32>)
    ensures
        !not_a_number(arp_rate(values)),
        scaled(MIN_RATE) <= scaled(arp_rate(values)),
        not_a_number(arp_gate(values)) == not_a_number(values[ARP_GATE as int]),
        !not_a_number(arp_gate(values)) ==> scaled(MIN_GATE) <= scaled(arp_gate(values))
            <= scaled(MAX_GATE) && less(arp_gate(values), ONE),
{
    lemma_magnitude_order(MIN_GATE, MAX_GATE);
    lemma_magnitude_order(MAX_GATE, ONE);
}

/// Once a key's notes were ended, no voice holds one of them, while voices are
/// shared out.
pub proof fn lemma_released_notes_are_not_held(
    voices: Seq<Voice>,
    tick: u64,
    notes: Seq<u8>,
    note: u8,
    i: int,
)
    requires
        0 <= i < voices.len(),
        notes.contains(note) || !voices[i].plays(note),
    ensures
        handled_all(voices, false, tick, note_offs(notes)).len() == voices.len(),
        !handled_all(voices, false, tick, note_offs(notes))[i].plays(note),
    decreases notes.len(),
{
    if notes.len() > 0 {
        let first = NoteEvent::Off { note: notes[0] };
        let rest = notes.drop_first();
        let after = handled(voices, false, tick, first);
        assert(note_offs(notes)[0] == first);
        assert(note_offs(notes).drop_first() =~= note_offs(rest));
        if notes.contains(note) && notes[0] != note {
            let k = choose|k: int| 0 <= k < notes.len() && notes[k] == note;
            assert(rest[k - 1] == note);
        }
        lemma_released_notes_are_not_held(after, tick, rest, note, i);
    }
}

/// With the arpeggiator off, pressing a key starts every note of its chord, in
/// order and as hard as the key was struck, and remembers them for that key; the
/// other keys' notes and the arpeggio stay as they are. With the arpeggiator on
/// it starts nothing, and the key is held last, unless it was held already.
pub proof fn lemma_press(s: PerfState, values: Seq<u32>, note: u8, velocity: u32)
    ensures
        ({
            let after = s.pressed(values, note);
            let events = PerfState::press_events(values, note, velocity);
            let notes = chord_notes(values, note);
            &&& after.arp_step == s.arp_step
            &&& after.arp_current == s.arp_current
            &&& after.rng == s.rng
            &&& !on(values[ARP_ENABLED as int]) ==> {
                &&& events.len() == notes.len()
                &&& forall|i: int|
                    0 <= i < notes.len() ==> #[trigger] events[i] == (NoteEvent::On {
                        note: notes[i],
                        velocity,
                    })
                &&& after.sounding.contains_key(note)
                &&& after.sounding[note] == notes
                &&& forall|key: u8|
                    key != note ==> {
                        &&& #[trigger] after.sounding.contains_key(key)
                            == s.sounding.contains_key(key)
                        &&& s.sounding.contains_key(key) ==> after.sounding[key]
                            == s.sounding[key]
                    }
                &&& after.arp_keys == s.arp_keys
            }
            &&& on(values[ARP_ENABLED as int]) ==> {
                &&& events.len() == 0
                &&& after.sounding == s.sounding
                &&& s.arp_keys.contains(note) ==> after.arp_keys == s.arp_keys
                &&& !s.arp_keys.contains(note) ==> after.arp_keys == s.arp_keys.push(note)
            }
        }),
{
}

/// With the arpeggiator off, releasing a key ends the notes that are remembered
/// for it, in order, and forgets them; everything else stays. With the
/// arpeggiator on the key is no longer held and the others keep their order;
/// when it was the last, the arpeggio's note ends, and else nothing does.
pub proof fn lemma_release(s: PerfState, values: Seq<u32>, note: u8, i: int)
    requires
        s.arp_keys.no_duplicates(),
        s.arp_keys.contains(note) ==> 0 <= i < s.arp_keys.len() && s.arp_keys[i] == note,
    ensures
        ({
            let after = s.released(values, note);
            let events = s.release_events(values, note);
            &&& after.arp_step == s.arp_step
            &&& after.rng == s.rng
            &&& !on(values[ARP_ENABLED as int]) ==> {
                &&& !s.sounding.contains_key(note) ==> events.len() == 0
                &&& s.sounding.contains_key(note) ==> events.len() == s.sounding[note].len()
                    && forall|k: int|
                    0 <= k < events.len() ==> #[trigger] events[k] == (NoteEvent::Off {
                        note: s.sounding[note][k],
                    })
                &&& !after.sounding.contains_key(note)
                &&& forall|key: u8|
                    key != note ==> {
                        &&& #[trigger] after.sounding.contains_key(key)
                            == s.sounding.contains_key(key)
                        &&& s.sounding.contains_key(key) ==> after.sounding[key]
                            == s.sounding[key]
                    }
                &&& after.arp_keys == s.arp_keys
                &&& after.arp_current == s.arp_current
            }
            &&& on(values[ARP_ENABLED as int]) ==> {
                &&& after.sounding == s.sounding
                &&& !s.arp_keys.contains(note) ==> after.arp_keys == s.arp_keys
                &&& s.arp_keys.contains(note) ==> after.arp_keys == s.arp_keys.remove(i)
                &&& after.arp_keys.len() > 0 ==> events.len() == 0 && after.arp_current
                    == s.arp_current
                &&& after.arp_keys.len() == 0 ==> after.arp_current is None
                &&& after.arp_keys.len() == 0 && s.arp_current is None ==> events.len() == 0
                &&& after.arp_keys.len() == 0 && s.arp_current is Some ==> events == seq![
                    NoteEvent::Off { note: s.arp_current->0 },
                ]
            }
        }),
{
    lemma_without(s.arp_keys, note);
    if s.arp_keys.contains(note) {
        let head = s.arp_keys.take(i);
        let tail = s.arp_keys.skip(i + 1);
        let f = |k: u8| k != note;
        assert(s.arp_keys =~= head + seq![note] + tail);
        Seq::filter_distributes_over_add(head + seq![note], tail, f);
        Seq::filter_distributes_over_add(head, seq![note], f);
        assert(!head.contains(note)) by {
            if head.contains(note) {
                let k = choose|k: int| 0 <= k < head.len() && head[k] == note;
                assert(s.arp_keys[k] == s.arp_keys[i]);
            }
        }
        assert(!tail.contains(note)) by {
            if tail.contains(note) {
                let k = choose|k: int| 0 <= k < tail.len() && tail[k] == note;
                assert(s.arp_keys[i + 1 + k] == s.arp_keys[i]);
            }
        }
        lemma_without(head, note);
        lemma_without(tail, note);
        reveal_with_fuel(Seq::filter, 2);
        assert(seq![note].drop_last() =~= Seq::<u8>::empty());
        assert(seq![note].last() == note);
        assert(without(s.arp_keys, note) =~= head + tail);
        assert(s.arp_keys.remove(i) =~= head + tail);
    }
}

/// Stopping everything forgets every key and note and starts the arpeggio over;
/// ending the arpeggio's note ends that note, if there is one, and changes
/// nothing else.
pub proof fn lemma_stops(s: PerfState, key: u8)
    ensures
        !s.silenced().sounding.contains_key(key),
        s.silenced().arp_keys.len() == 0,
        s.silenced().arp_step == 0,
        s.silenced().arp_current is None,
        s.silenced().rng == s.rng,
        s.gate_ended().sounding == s.sounding,
        s.gate_ended().arp_keys == s.arp_keys,
        s.gate_ended().arp_step == s.arp_step,
        s.gate_ended().arp_current is None,
        s.gate_ended().rng == s.rng,
        s.arp_current is None ==> s.current_off().len() == 0,
        s.arp_current is Some ==> s.current_off() == seq![
            NoteEvent::Off { note: s.arp_current->0 },
        ],
{
}

/// The arpeggio plays exactly when it is switched on and a key is held whose
/// note exists.
pub proof fn lemma_arp_plays(s: PerfState, values: Seq<u32>)
    ensures
        s.arp_plays(values) <==> on(values[ARP_ENABLED as int]) && exists|k: int|
            0 <= k < s.arp_keys.len() && #[trigger] s.arp_keys[k] <= 127,
{
    let pool = arp_pool(values, s.arp_keys);
    lemma_pool(values, s.arp_keys);
    if pool.len() > 0 {
        assert(pool.contains(pool[0]));
        let k = choose|k: int|
            0 <= k < s.arp_keys.len() && #[trigger] chord_notes(values, s.arp_keys[k]).contains(
                pool[0],
            );
        let notes = chord_notes(values, s.arp_keys[k]);
        lemma_chord_notes_rise_from_the_key(values, s.arp_keys[k]);
        let m = choose|m: int| 0 <= m < notes.len() && notes[m] == pool[0];
        assert(notes[m] <= 127);
        lemma_chord_table(values);
        assert(s.arp_keys[k] <= 127);
    }
    if exists|k: int| 0 <= k < s.arp_keys.len() && #[trigger] s.arp_keys[k] <= 127 {
        let k = choose|k: int| 0 <= k < s.arp_keys.len() && #[trigger] s.arp_keys[k] <= 127;
        lemma_chord_notes(values, s.arp_keys[k]);
        assert(chord_notes(values, s.arp_keys[k]).contains(s.arp_keys[k]));
        assert(covered(values, s.arp_keys, s.arp_keys[k]));
        assert(pool.contains(s.arp_keys[k]));
    }
}

/// A step of the arpeggio leaves the keys as they are. When it plays, it counts
/// one step more, ends the note that is sounding and starts the one at its
/// place, which goes by the pattern, the steps taken and, for the random
/// pattern alone, the random register after its next step. When it does not
/// play it starts nothing; switched off or without a key it ends its note.
pub proof fn lemma_arp_step(s: PerfState, values: Seq<u32>)
    ensures
        ({
            let after = s.arp_stepped(values);
            let events = s.arp_step_events(values);
            let pattern = rounded(values[ARP_PATTERN as int]);
            let register = if pattern == 3 {
                shifted(s.rng)
            } else {
                s.rng
            };
            let pool = arp_pool(values, s.arp_keys);
            let note = place_note(
                pool,
                arp_place(
                    pattern,
                    s.arp_step as int,
                    register,
                    pool.len() * arp_octaves(values),
                ),
            );
            let ended = if s.arp_current is Some {
                seq![NoteEvent::Off { note: s.arp_current->0 }]
            } else {
                Seq::empty()
            };
            &&& after.sounding == s.sounding
            &&& after.arp_keys == s.arp_keys
            &&& s.arp_plays(values) ==> {
                &&& after.arp_step == (if s.arp_step == i64::MAX {
                    i64::MIN as int
                } else {
                    s.arp_step + 1
                })
                &&& after.rng == register
                &&& after.arp_current is Some
                &&& after.arp_current->0 == note
                &&& events == ended.push(
                    NoteEvent::On { note: after.arp_current->0, velocity: ARP_VELOCITY },
                )
            }
            &&& !s.arp_plays(values) ==> after.arp_step == s.arp_step && after.rng == s.rng
            &&& !on(values[ARP_ENABLED as int]) || s.arp_keys.len() == 0 ==> events == ended
                && after.arp_current is None
            &&& on(values[ARP_ENABLED as int]) && s.arp_keys.len() > 0 && !s.arp_plays(values)
                ==> events.len() == 0 && after.arp_current == s.arp_current
        }),
{
    if s.arp_plays(values) {
        lemma_arp_note(s, values);
        lemma_note_fits(s, values);
    }
}

proof fn lemma_note_fits(s: PerfState, values: Seq<u32>)
    requires
        s.arp_plays(values),
    ensures
        0 <= place_note(arp_pool(values, s.arp_keys), s.next_place(values)) <= 127,
{
    let pool = arp_pool(values, s.arp_keys);
    let len = pool.len() as int;
    lemma_pool(values, s.arp_keys);
    assert(1 <= len * arp_octaves(values)) by (nonlinear_arith)
        requires
            1 <= len,
            1 <= arp_octaves(values),
    ;
    lemma_place_in_range(
        rounded(values[ARP_PATTERN as int]),
        s.arp_step as int,
        s.next_register(values),
        s.places(values),
    );
    let place = s.next_place(values);
    assert(0 <= place / len && 0 <= place % len < len) by (nonlinear_arith)
        requires
            1 <= len,
            0 <= place,
    ;
}

/// A rate and a gate that are within their bounds are played as they are; those
/// beyond are brought to the bound.
pub proof fn lemma_arp_timing_is_kept(values: Seq<u32>)
    ensures
        ({
            let rate = values[ARP_RATE as int];
            let gate = values[ARP_GATE as int];
            &&& !not_a_number(rate) && scaled(MIN_RATE) < scaled(rate) ==> arp_rate(values) == rate
            &&& not_a_number(rate) || scaled(rate) <= scaled(MIN_RATE) ==> arp_rate(values)
                == MIN_RATE
            &&& not_a_number(gate) || scaled(MIN_GATE) <= scaled(gate) <= scaled(MAX_GATE)
                ==> arp_gate(values) == gate
            &&& !not_a_number(gate) && scaled(gate) < scaled(MIN_GATE) ==> arp_gate(values)
                == MIN_GATE
            &&& !not_a_number(gate) && scaled(gate) > scaled(MAX_GATE) ==> arp_gate(values)
                == MAX_GATE
        }),
{
    lemma_magnitude_order(MIN_GATE, MAX_GATE);
}

/// A performer starts with no key held, nothing sounding and the arpeggio at its
/// first step.
pub proof fn lemma_start(key: u8)
    ensures
        !PerfState::initial().sounding.contains_key(key),
        PerfState::initial().arp_keys.len() == 0,
        PerfState::initial().arp_step == 0,
        PerfState::initial().arp_current is None,
{
}

} // verus!
