//! Voices and envelopes of the audio engine.
//!
//! The engine's arithmetic on samples lives outside this crate. Here is what
//! decides which voice plays which note, and what each envelope does next.
use crate::ieee754::{
    at_least, is_difference, is_nan, is_on, is_product, is_sum, lemma_closest_bounds,
    lemma_magnitude_order, lemma_negated, lemma_one_and_zero, lemma_part_of, lemma_sum_up_to_one,
    less, less_than, magnitude, negated, negative, not_a_number, on, round_to_i32, rounded, scaled,
    trunc_to_i32, truncated, ONE, ZERO,
};
use crate::noise::{lemma_never_stuck, shifted, xorshift};
use crate::params::{Params, MONO};
use crate::queue::{pop, queued, slots};
use crossbeam_queue::ArrayQueue;
use vstd::prelude::*;

verus! {

/// How many notes can sound at once.
pub const NUM_VOICES: usize = 8;

/// The softest a note can be: 0.05.
pub const MIN_VELOCITY: u32 = 0x3d4c_cccd;

/// What an attack aims at, so that it does reach its top: 1.2.
pub const ATTACK_TARGET: u32 = 0x3f99_999a;

/// How close a decay has to come to the sustain level: 0.001.
pub const DECAY_DISTANCE: u32 = 0x3a83_126f;

/// The level below which a release is over: 0.0005.
pub const RELEASE_FLOOR: u32 = 0x3a03_126f;

/// The shortest glide that is one: 0.0005 seconds.
pub const MIN_GLIDE: u32 = 0x3a03_126f;

/// What the audio engine is told to do. A velocity is a bit pattern.
#[derive(Copy, Clone, Debug, PartialEq, Eq, Structural)]
pub enum NoteEvent {
    On { note: u8, velocity: u32 },
    Off { note: u8 },
    AllOff,
}

/// The waves that an oscillator can make.
#[derive(Copy, Clone, Debug, PartialEq, Eq, Structural)]
pub enum Wave {
    Saw,
    Square,
    Triangle,
    Sine,
    Noise,
}

/// The ways in which the distortion can bend a wave.
#[derive(Copy, Clone, Debug, PartialEq, Eq, Structural)]
pub enum Shape {
    Soft,
    Hard,
    Fold,
    Crush,
}

/// The wave that a parameter's value selects: its whole part counts.
pub fn wave(value: u32) -> (r: Wave)
    ensures
        r == (if truncated(value) == 0 {
            Wave::Saw
        } else if truncated(value) == 1 {
            Wave::Square
        } else if truncated(value) == 2 {
            Wave::Triangle
        } else if truncated(value) == 3 {
            Wave::Sine
        } else {
            Wave::Noise
        }),
{
    match trunc_to_i32(value) {
        0 => Wave::Saw,
        1 => Wave::Square,
        2 => Wave::Triangle,
        3 => Wave::Sine,
        _ => Wave::Noise,
    }
}

/// The distortion that a parameter's value selects: the nearest whole number
/// counts.
pub fn shape(value: u32) -> (r: Shape)
    ensures
        r == (if rounded(value) == 0 {
            Shape::Soft
        } else if rounded(value) == 1 {
            Shape::Hard
        } else if rounded(value) == 2 {
            Shape::Fold
        } else {
            Shape::Crush
        }),
{
    match round_to_i32(value) {
        0 => Shape::Soft,
        1 => Shape::Hard,
        2 => Shape::Fold,
        _ => Shape::Crush,
    }
}

/// Whether a glide time is long enough to glide at all.
pub fn glides(value: u32) -> (r: bool)
    ensures
        r == less(MIN_GLIDE, value),
{
    less_than(MIN_GLIDE, value)
}

/// Where an envelope stands.
#[derive(Copy, Clone, Debug, PartialEq, Eq, Structural)]
pub enum Stage {
    Idle,
    Attack,
    Decay,
    Sustain,
    Release,
}

/// An envelope: its stage, and its level as a bit pattern.
#[derive(Copy, Clone, Debug, PartialEq, Eq, Structural)]
pub struct Adsr {
    pub stage: Stage,
    pub value: u32,
}

/// Where an envelope is heading: how long that takes, and the level (both bit
/// patterns).
#[derive(Copy, Clone, Debug, PartialEq, Eq, Structural)]
pub struct Course {
    pub time: u32,
    pub target: u32,
}

impl Adsr {
    /// The envelope after its key was pressed.
    pub open spec fn gated_on(self) -> Adsr {
        Adsr { stage: Stage::Attack, ..self }
    }

    /// The envelope after its key was released.
    pub open spec fn gated_off(self) -> Adsr {
        if self.stage == Stage::Idle {
            self
        } else {
            Adsr { stage: Stage::Release, ..self }
        }
    }

    /// The level that the envelope is heading for; none while it rests or holds
    /// its level.
    pub open spec fn target(self, sustain: u32) -> Option<u32> {
        match self.stage {
            Stage::Attack => Some(ATTACK_TARGET),
            Stage::Decay => Some(sustain),
            Stage::Release => Some(ZERO),
            Stage::Idle => None,
            Stage::Sustain => None,
        }
    }

    /// The envelope one sample later. `moved` is its level moved towards where
    /// it is heading, and `distance` is how far `moved` is from `sustain`.
    pub open spec fn ticked(self, moved: u32, sustain: u32, distance: u32) -> Adsr {
        match self.stage {
            Stage::Idle => Adsr { stage: Stage::Idle, value: ZERO },
            Stage::Attack => if !not_a_number(moved) && scaled(moved) >= scaled(ONE) {
                Adsr { stage: Stage::Decay, value: ONE }
            } else {
                Adsr { stage: Stage::Attack, value: moved }
            },
            Stage::Decay => if less(distance, DECAY_DISTANCE) {
                Adsr { stage: Stage::Sustain, value: sustain }
            } else {
                Adsr { stage: Stage::Decay, value: moved }
            },
            Stage::Sustain => Adsr { stage: Stage::Sustain, value: sustain },
            Stage::Release => if less(moved, RELEASE_FLOOR) {
                Adsr { stage: Stage::Idle, value: ZERO }
            } else {
                Adsr { stage: Stage::Release, value: moved }
            },
        }
    }

    /// An envelope at rest.
    pub fn new() -> (r: Adsr)
        ensures
            r == (Adsr { stage: Stage::Idle, value: ZERO }),
    {
        Adsr { stage: Stage::Idle, value: ZERO }
    }

    /// The key was pressed.
    pub fn gate_on(&mut self)
        ensures
            *final(self) == old(self).gated_on(),
    {
        self.stage = Stage::Attack;
    }

    /// The key was released.
    pub fn gate_off(&mut self)
        ensures
            *final(self) == old(self).gated_off(),
    {
        if self.stage != Stage::Idle {
            self.stage = Stage::Release;
        }
    }

    /// Whether the envelope is not at rest.
    pub fn active(&self) -> (r: bool)
        ensures
            r == (self.stage != Stage::Idle),
    {
        self.stage != Stage::Idle
    }

    /// Where the envelope is heading with these settings; nowhere while it
    /// rests or holds its level.
    pub fn course(&self, attack: u32, decay: u32, sustain: u32, release: u32) -> (r: Option<Course>)
        ensures
            r == (match self.stage {
                Stage::Attack => Some(Course { time: attack, target: ATTACK_TARGET }),
                Stage::Decay => Some(Course { time: decay, target: sustain }),
                Stage::Release => Some(Course { time: release, target: ZERO }),
                Stage::Idle => None,
                Stage::Sustain => None,
            }),
            self.target(sustain) == (match r {
                Some(course) => Some(course.target),
                None => None,
            }),
    {
        match self.stage {
            Stage::Attack => Some(Course { time: attack, target: ATTACK_TARGET }),
            Stage::Decay => Some(Course { time: decay, target: sustain }),
            Stage::Release => Some(Course { time: release, target: ZERO }),
            Stage::Idle => None,
            Stage::Sustain => None,
        }
    }

    /// One sample passed; gives the envelope's level.
    pub fn tick(&mut self, moved: u32, sustain: u32, distance: u32) -> (r: u32)
        ensures
            *final(self) == old(self).ticked(moved, sustain, distance),
            r == final(self).value,
    {
        match self.stage {
            Stage::Idle => {
                self.value = ZERO;
            },
            Stage::Attack => {
                if !is_nan(moved) && !less_than(moved, ONE) {
                    self.value = ONE;
                    self.stage = Stage::Decay;
                } else {
                    self.value = moved;
                }
            },
            Stage::Decay => {
                if less_than(distance, DECAY_DISTANCE) {
                    self.value = sustain;
                    self.stage = Stage::Sustain;
                } else {
                    self.value = moved;
                }
            },
            Stage::Sustain => {
                self.value = sustain;
            },
            Stage::Release => {
                if less_than(moved, RELEASE_FLOOR) {
                    self.value = ZERO;
                    self.stage = Stage::Idle;
                } else {
                    self.value = moved;
                }
            },
        }
        self.value
    }
}

/// An oscillator's source of noise.
#[derive(Copy, Clone, Debug, PartialEq, Eq, Structural)]
pub struct Osc {
    pub rng: u32,
}

impl Osc {
    /// An oscillator whose noise depends on the seed.
    pub open spec fn seeded(seed: u32) -> Osc {
        let r = seed.wrapping_mul(2654435761);
        Osc {
            rng: if r == 0 {
                1
            } else {
                r
            },
        }
    }

    /// An oscillator whose noise depends on the seed.
    pub fn new(seed: u32) -> (r: Osc)
        ensures
            r == Osc::seeded(seed),
    {
        let r: u32 = seed.wrapping_mul(2654435761);
        Osc {
            rng: if r == 0 {
                1
            } else {
                r
            },
        }
    }

    /// The next value of the noise.
    pub fn noise(&mut self) -> (r: u32)
        ensures
            final(self).rng == shifted(old(self).rng),
            r == final(self).rng,
    {
        self.rng = xorshift(self.rng);
        self.rng
    }
}

/// One of the engine's voices.
#[derive(Copy, Clone, Debug, PartialEq, Eq, Structural)]
pub struct Voice {
    pub note: u8,
    /// How hard the key was struck, as a bit pattern.
    pub velocity: u32,
    /// The note whose pitch the voice takes up at once instead of gliding,
    /// until the engine has done so.
    pub jump: Option<u8>,
    pub osc1: Osc,
    pub osc2: Osc,
    pub sub: Osc,
    pub noise: Osc,
    pub amp_env: Adsr,
    pub filt_env: Adsr,
    /// Whether the key is held.
    pub gate: bool,
    /// When the voice was last started.
    pub age: u64,
}

/// A velocity that is not too soft.
pub open spec fn audible(velocity: u32) -> u32 {
    if less(MIN_VELOCITY, velocity) {
        velocity
    } else {
        MIN_VELOCITY
    }
}

impl Voice {
    /// A voice that is not playing.
    pub open spec fn resting(seed: u32) -> Voice {
        let env = Adsr { stage: Stage::Idle, value: ZERO };
        Voice {
            note: 0,
            velocity: ZERO,
            jump: None,
            osc1: Osc::seeded(seed),
            osc2: Osc::seeded(seed ^ 0xa5a5),
            sub: Osc::seeded(seed ^ 0x5a5a),
            noise: Osc::seeded(seed ^ 0xdead),
            amp_env: env,
            filt_env: env,
            gate: false,
            age: 0,
        }
    }

    /// Whether the voice can be heard.
    pub open spec fn sounds(self) -> bool {
        self.amp_env.stage != Stage::Idle
    }

    /// Whether the voice plays a note whose key is held.
    pub open spec fn plays(self, note: u8) -> bool {
        self.note == note && self.gate
    }

    /// The voice after it was started.
    pub open spec fn started(self, note: u8, velocity: u32, tick: u64) -> Voice {
        Voice {
            note,
            velocity: audible(velocity),
            jump: if self.sounds() {
                self.jump
            } else {
                Some(note)
            },
            amp_env: self.amp_env.gated_on(),
            filt_env: self.filt_env.gated_on(),
            gate: true,
            age: tick,
            ..self
        }
    }

    /// The voice after it took over a note as the only voice: while a key was
    /// still held the note slides over, else it starts afresh.
    pub open spec fn slid(self, note: u8, velocity: u32, tick: u64, still_held: bool) -> Voice {
        Voice {
            note,
            velocity: audible(velocity),
            jump: if still_held {
                self.jump
            } else {
                Some(note)
            },
            amp_env: if still_held {
                self.amp_env
            } else {
                self.amp_env.gated_on()
            },
            filt_env: if still_held {
                self.filt_env
            } else {
                self.filt_env.gated_on()
            },
            gate: true,
            age: tick,
            ..self
        }
    }

    /// The voice after its key was released.
    pub open spec fn stopped(self) -> Voice {
        Voice {
            amp_env: self.amp_env.gated_off(),
            filt_env: self.filt_env.gated_off(),
            gate: false,
            ..self
        }
    }

    /// A voice that is not playing.
    pub fn new(seed: u32) -> (r: Voice)
        ensures
            r == Voice::resting(seed),
    {
        Voice {
            note: 0,
            velocity: ZERO,
            jump: None,
            osc1: Osc::new(seed),
            osc2: Osc::new(seed ^ 0xa5a5),
            sub: Osc::new(seed ^ 0x5a5a),
            noise: Osc::new(seed ^ 0xdead),
            amp_env: Adsr::new(),
            filt_env: Adsr::new(),
            gate: false,
            age: 0,
        }
    }

    /// Starts a note.
    pub fn note_on(&mut self, note: u8, velocity: u32, tick: u64)
        ensures
            *final(self) == old(self).started(note, velocity, tick),
    {
        self.note = note;
        self.velocity = at_least(velocity, MIN_VELOCITY);
        if !self.amp_env.active() {
            self.jump = Some(note);
        }
        self.amp_env.gate_on();
        self.filt_env.gate_on();
        self.gate = true;
        self.age = tick;
    }

    /// Lets the note fade.
    pub fn note_off(&mut self)
        ensures
            *final(self) == old(self).stopped(),
    {
        self.amp_env.gate_off();
        self.filt_env.gate_off();
        self.gate = false;
    }

    /// Whether the voice can be heard.
    pub fn active(&self) -> (r: bool)
        ensures
            r == self.sounds(),
    {
        self.amp_env.active()
    }
}

/// Whether `i` is the voice that starts a note when voices are shared out: the
/// one that plays the note already, else the first that is silent, else the
/// one that was started longest ago.
pub open spec fn suits(voices: Seq<Voice>, note: u8, i: int) -> bool {
    &&& 0 <= i < voices.len()
    &&& if exists|k: int| 0 <= k < voices.len() && #[trigger] voices[k].plays(note) {
        voices[i].plays(note) && forall|k: int|
            0 <= k < i ==> !#[trigger] voices[k].plays(note)
    } else if exists|k: int| 0 <= k < voices.len() && !#[trigger] voices[k].sounds() {
        !voices[i].sounds() && forall|k: int| 0 <= k < i ==> #[trigger] voices[k].sounds()
    } else {
        &&& forall|k: int|
            0 <= k < voices.len() ==> voices[i].age <= #[trigger] voices[k].age
        &&& forall|k: int| 0 <= k < i ==> voices[i].age < #[trigger] voices[k].age
    }
}

/// The voice that starts a note when voices are shared out.
pub open spec fn chosen(voices: Seq<Voice>, note: u8) -> int {
    choose|i: int| suits(voices, note, i)
}

proof fn lemma_chosen(voices: Seq<Voice>, note: u8, i: int)
    requires
        suits(voices, note, i),
    ensures
        chosen(voices, note) == i,
{
    let j = chosen(voices, note);
    assert(suits(voices, note, j));
    if j < i {
        assert(voices[j].plays(note) || !voices[j].plays(note));
        assert(voices[j].sounds() || !voices[j].sounds());
        assert(voices[j].age <= voices[i].age);
    }
    if i < j {
        assert(voices[i].plays(note) || !voices[i].plays(note));
        assert(voices[i].sounds() || !voices[i].sounds());
        assert(voices[i].age <= voices[j].age);
    }
}

/// The voices after an event; with `mono` the first voice plays alone.
pub open spec fn handled(
    voices: Seq<Voice>,
    mono: bool,
    tick: u64,
    event: NoteEvent,
) -> Seq<Voice> {
    match event {
        NoteEvent::On { note, velocity } => if mono {
            voices.update(
                0,
                voices[0].slid(
                    note,
                    velocity,
                    tick,
                    exists|k: int| 0 <= k < voices.len() && #[trigger] voices[k].gate,
                ),
            )
        } else {
            let i = chosen(voices, note);
            voices.update(i, voices[i].started(note, velocity, tick))
        },
        NoteEvent::Off { note } => if mono {
            if voices[0].note == note {
                voices.update(0, voices[0].stopped())
            } else {
                voices
            }
        } else {
            voices.map_values(
                |v: Voice|
                    if v.plays(note) {
                        v.stopped()
                    } else {
                        v
                    },
            )
        },
        NoteEvent::AllOff => voices.map_values(|v: Voice| v.stopped()),
    }
}

/// The voices after several events in turn.
pub open spec fn handled_all(
    voices: Seq<Voice>,
    mono: bool,
    tick: u64,
    events: Seq<NoteEvent>,
) -> Seq<Voice>
    decreases events.len(),
{
    if events.len() == 0 {
        voices
    } else {
        handled_all(handled(voices, mono, tick, events[0]), mono, tick, events.drop_first())
    }
}

/// The seed of a voice.
pub open spec fn voice_seed(i: int) -> u32 {
    0xdead_beefu32 ^ ((i * 7919) as u32)
}

/// The part of the audio engine that decides who plays.
pub struct Engine {
    pub voices: Vec<Voice>,
    /// How many frames were rendered.
    pub tick_counter: u64,
}

impl Engine {
    /// All the voices are there.
    pub open spec fn wf(self) -> bool {
        self.voices@.len() == NUM_VOICES
    }

    /// An engine whose voices are all at rest.
    pub fn new() -> (r: Engine)
        ensures
            r.wf(),
            r.voices@.len() == 8,
            r.voices@ == Seq::new(NUM_VOICES as nat, |i: int| Voice::resting(voice_seed(i))),
            r.tick_counter == 0,
    {
        let mut voices: Vec<Voice> = Vec::new();
        let mut i: u32 = 0;
        while i < NUM_VOICES as u32
            invariant
                i <= NUM_VOICES,
                voices@.len() == i,
                forall|k: int| 0 <= k < i ==> voices@[k] == Voice::resting(voice_seed(k)),
            decreases NUM_VOICES - i,
        {
            voices.push(Voice::new(0xdead_beef ^ (i * 7919)));
            i = i + 1;
        }
        Engine { voices, tick_counter: 0 }
    }

    fn any_held(&self) -> (r: bool)
        ensures
            r == exists|k: int| 0 <= k < self.voices@.len() && #[trigger] self.voices@[k].gate,
    {
        let mut i: usize = 0;
        while i < self.voices.len()
            invariant
                i <= self.voices.len(),
                forall|k: int| 0 <= k < i ==> !#[trigger] self.voices@[k].gate,
            decreases self.voices.len() - i,
        {
            if self.voices[i].gate {
                return true;
            }
            i = i + 1;
        }
        false
    }

    fn pick_voice(&self, note: u8) -> (r: usize)
        requires
            self.wf(),
        ensures
            suits(self.voices@, note, r as int),
    {
        let mut i: usize = 0;
        while i < self.voices.len()
            invariant
                i <= self.voices.len(),
                forall|k: int| 0 <= k < i ==> !#[trigger] self.voices@[k].plays(note),
            decreases self.voices.len() - i,
        {
            if self.voices[i].note == note && self.voices[i].gate {
                assert(self.voices@[i as int].plays(note));
                return i;
            }
            i = i + 1;
        }
        i = 0;
        while i < self.voices.len()
            invariant
                i <= self.voices.len(),
                forall|k: int|
                    0 <= k < self.voices@.len() ==> !#[trigger] self.voices@[k].plays(note),
                forall|k: int| 0 <= k < i ==> #[trigger] self.voices@[k].sounds(),
            decreases self.voices.len() - i,
        {
            if !self.voices[i].active() {
                return i;
            }
            i = i + 1;
        }
        let mut oldest: usize = 0;
        i = 1;
        while i < self.voices.len()
            invariant
                1 <= i <= self.voices.len(),
                oldest < i,
                forall|k: int|
                    0 <= k < i ==> self.voices@[oldest as int].age
                        <= #[trigger] self.voices@[k].age,
                forall|k: int|
                    0 <= k < oldest ==> self.voices@[oldest as int].age
                        < #[trigger] self.voices@[k].age,
            decreases self.voices.len() - i,
        {
            if self.voices[i].age < self.voices[oldest].age {
                oldest = i;
            }
            i = i + 1;
        }
        oldest
    }

    /// Does what an event says.
    pub fn handle(&mut self, params: &Params, event: NoteEvent)
        requires
            old(self).wf(),
        ensures
            final(self).wf(),
            final(self).tick_counter == old(self).tick_counter,
            final(self).voices@ == handled(
                old(self).voices@,
                on(params@[MONO as int]),
                old(self).tick_counter,
                event,
            ),
    {
        let mono = is_on(params.values[MONO]);
        let tick = self.tick_counter;
        match event {
            NoteEvent::On { note, velocity } => {
                if mono {
                    let still_held = self.any_held();
                    let mut voice = self.voices[0];
                    voice.note = note;
                    voice.velocity = at_least(velocity, MIN_VELOCITY);
                    if !still_held {
                        voice.jump = Some(note);
                        voice.amp_env.gate_on();
                        voice.filt_env.gate_on();
                    }
                    voice.gate = true;
                    voice.age = tick;
                    self.voices[0] = voice;
                } else {
                    let i = self.pick_voice(note);
                    proof {
                        lemma_chosen(self.voices@, note, i as int);
                    }
                    let mut voice = self.voices[i];
                    voice.note_on(note, velocity, tick);
                    self.voices[i] = voice;
                }
            },
            NoteEvent::Off { note } => {
                if mono {
                    if self.voices[0].note == note {
                        let mut voice = self.voices[0];
                        voice.note_off();
                        self.voices[0] = voice;
                    }
                } else {
                    let ghost before = self.voices@;
                    let mut i: usize = 0;
                    while i < self.voices.len()
                        invariant
                            i <= self.voices@.len() == before.len(),
                            self.tick_counter == tick,
                            forall|k: int|
                                0 <= k < before.len() ==> #[trigger] self.voices@[k] == (if k < i
                                    && before[k].plays(note) {
                                    before[k].stopped()
                                } else {
                                    before[k]
                                }),
                        decreases self.voices.len() - i,
                    {
                        let mut voice = self.voices[i];
                        if voice.note == note && voice.gate {
                            voice.note_off();
                            self.voices[i] = voice;
                        }
                        i = i + 1;
                    }
                    assert(self.voices@ =~= handled(before, mono, tick, event));
                }
            },
            NoteEvent::AllOff => {
                let ghost before = self.voices@;
                let mut i: usize = 0;
                while i < self.voices.len()
                    invariant
                        i <= self.voices@.len() == before.len(),
                        self.tick_counter == tick,
                        forall|k: int|
                            0 <= k < before.len() ==> #[trigger] self.voices@[k] == (if k < i {
                                before[k].stopped()
                            } else {
                                before[k]
                            }),
                    decreases self.voices.len() - i,
                {
                    let mut voice = self.voices[i];
                    voice.note_off();
                    self.voices[i] = voice;
                    i = i + 1;
                }
                assert(self.voices@ =~= handled(before, mono, tick, event));
            },
        }
    }

    /// Does what all the waiting events say, the oldest first.
    pub fn handle_queued(&mut self, params: &Params, queue: &mut ArrayQueue<NoteEvent>)
        requires
            old(self).wf(),
        ensures
            final(self).wf(),
            final(self).tick_counter == old(self).tick_counter,
            final(self).voices@ == handled_all(
                old(self).voices@,
                on(params@[MONO as int]),
                old(self).tick_counter,
                queued(*old(queue)),
            ),
            queued(*final(queue)) == Seq::<NoteEvent>::empty(),
            slots(*final(queue)) == slots(*old(queue)),
    {
        let ghost mono = on(params@[MONO as int]);
        let ghost tick = self.tick_counter;
        let ghost goal = handled_all(self.voices@, mono, tick, queued(*queue));
        loop
            invariant
                self.wf(),
                mono == on(params@[MONO as int]),
                tick == old(self).tick_counter,
                self.tick_counter == tick,
                slots(*queue) == slots(*old(queue)),
                handled_all(self.voices@, mono, tick, queued(*queue)) == goal,
            ensures
                self.voices@ == goal,
                queued(*queue).len() == 0,
            decreases queued(*queue).len(),
        {
            match pop(queue) {
                Some(event) => {
                    self.handle(params, event);
                },
                None => {
                    break;
                },
            }
        }
        assert(queued(*queue) =~= Seq::<NoteEvent>::empty());
    }

    /// One frame was rendered.
    pub fn end_frame(&mut self)
        ensures
            final(self).voices@ == old(self).voices@,
            final(self).tick_counter == old(self).tick_counter.wrapping_add(1),
    {
        self.tick_counter = self.tick_counter.wrapping_add(1);
    }
}

/// A noise source is never stuck at zero.
pub proof fn lemma_noise_never_stuck(seed: u32, rng: u32)
    ensures
        Osc::seeded(seed).rng != 0,
        rng != 0 ==> shifted(rng) != 0,
{
    if rng != 0 {
        lemma_never_stuck(rng);
    }
}

/// Whether a level is a number from nothing to full.
pub open spec fn in_range(level: u32) -> bool {
    !not_a_number(level) && 0 <= scaled(level) <= scaled(ONE)
}

/// Whether a sample moves a level so: a part of the way to its target is added to
/// it, every step as single-precision arithmetic has it. The part is one less
/// `left`, what is left of the way after the sample.
pub open spec fn moves(value: u32, target: u32, left: u32, moved: u32) -> bool {
    exists|part: u32, way: u32, share: u32|
        {
            &&& is_difference(ONE, left, part)
            &&& is_difference(target, value, way)
            &&& #[trigger] is_product(part, way, share)
            &&& is_sum(value, share, moved)
        }
}

/// Whether `distance` is how far two levels are apart, as single-precision
/// arithmetic has it.
pub open spec fn is_distance(a: u32, b: u32, distance: u32) -> bool {
    exists|gap: u32| #[trigger]
        is_difference(a, b, gap) && !not_a_number(distance) && !negative(distance) && scaled(
            distance,
        ) == magnitude(gap)
}

/// The stages follow one another: an attack ends when the level has come to the
/// top, a decay when it is close to the sustain level, and a release when it is
/// next to nothing. An envelope at rest stays at rest, and one that holds its
/// level keeps holding it.
pub proof fn lemma_envelope_stages(env: Adsr, moved: u32, sustain: u32, distance: u32)
    ensures
        ({
            let next = env.ticked(moved, sustain, distance).stage;
            match env.stage {
                Stage::Idle => next == Stage::Idle,
                Stage::Attack => next == (if !not_a_number(moved) && scaled(ONE) <= scaled(moved) {
                    Stage::Decay
                } else {
                    Stage::Attack
                }),
                Stage::Decay => next == (if less(distance, DECAY_DISTANCE) {
                    Stage::Sustain
                } else {
                    Stage::Decay
                }),
                Stage::Sustain => next == Stage::Sustain,
                Stage::Release => next == (if less(moved, RELEASE_FLOOR) {
                    Stage::Idle
                } else {
                    Stage::Release
                }),
            }
        }),
{
}

/// The level stays between nothing and full, and it tells when a stage ends: an
/// attack exactly at full level, a decay exactly at the sustain level, a release
/// exactly at nothing. An attack never lowers the level and a release never
/// raises it. At rest there is no level, and while it is held it is the sustain
/// level. This is so with every rounding of the arithmetic on the way, as long
/// as what is left of the way (an exponential of a negative number) is a number
/// from zero to one.
pub proof fn lemma_envelope_levels(
    env: Adsr,
    left: u32,
    moved: u32,
    sustain: u32,
    distance: u32,
)
    requires
        in_range(env.value),
        in_range(sustain),
        in_range(left),
        env.target(sustain) is Some ==> moves(env.value, env.target(sustain)->0, left, moved)
            && is_distance(moved, sustain, distance),
    ensures
        ({
            let next = env.ticked(moved, sustain, distance);
            &&& in_range(next.value)
            &&& match env.stage {
                Stage::Idle => next.stage == Stage::Idle && next.value == ZERO,
                Stage::Attack => {
                    &&& next.stage == Stage::Decay <==> next.value == ONE
                    &&& next.stage == Stage::Decay || next.stage == Stage::Attack
                    &&& scaled(env.value) <= scaled(next.value)
                },
                Stage::Decay => {
                    &&& next.stage == Stage::Sustain <==> scaled(next.value) == scaled(sustain)
                    &&& next.stage == Stage::Sustain || next.stage == Stage::Decay
                },
                Stage::Sustain => next.stage == Stage::Sustain && next.value == sustain,
                Stage::Release => {
                    &&& next.stage == Stage::Idle <==> scaled(next.value) == 0
                    &&& next.stage == Stage::Idle || next.stage == Stage::Release
                    &&& scaled(next.value) <= scaled(env.value)
                },
            }
        }),
{
    lemma_level_constants();
    lemma_one_and_zero();
    match env.target(sustain) {
        Some(target) => {
            lemma_moved_level(env.value, target, left, moved);
            let gap = choose|gap: u32| #[trigger]
                is_difference(moved, sustain, gap) && !not_a_number(distance) && !negative(
                    distance,
                ) && scaled(distance) == magnitude(gap);
            lemma_closest_bounds(gap, scaled(moved) - scaled(sustain), 1, ZERO);
        },
        None => {},
    }
}

/// What a sample does to a level: it rises when its target is above, falls when
/// it is below, falls no lower than nothing, and rises no higher than full unless
/// its target does.
proof fn lemma_moved_level(value: u32, target: u32, left: u32, moved: u32)
    requires
        in_range(value),
        in_range(left),
        !not_a_number(target),
        0 <= scaled(target),
        moves(value, target, left, moved),
    ensures
        !not_a_number(moved),
        0 <= scaled(moved),
        scaled(value) <= scaled(target) ==> scaled(value) <= scaled(moved),
        scaled(target) <= scaled(value) ==> scaled(moved) <= scaled(value),
        scaled(target) <= scaled(ONE) ==> scaled(moved) <= scaled(ONE),
{
    let (part, way, share) = choose|part: u32, way: u32, share: u32|
        {
            &&& is_difference(ONE, left, part)
            &&& is_difference(target, value, way)
            &&& #[trigger] is_product(part, way, share)
            &&& is_sum(value, share, moved)
        };
    lemma_one_and_zero();
    lemma_negated(value);
    lemma_closest_bounds(part, scaled(ONE) - scaled(left), 1, ZERO);
    lemma_closest_bounds(part, scaled(ONE) - scaled(left), 1, ONE);
    lemma_closest_bounds(way, scaled(target) - scaled(value), 1, ZERO);
    lemma_closest_bounds(way, scaled(target) - scaled(value), 1, negated(value));
    lemma_part_of(part, way, share);
    lemma_closest_bounds(moved, scaled(value) + scaled(share), 1, ZERO);
    lemma_closest_bounds(moved, scaled(value) + scaled(share), 1, value);
    if scaled(target) <= scaled(ONE) {
        lemma_sum_up_to_one(value, target, way, share, moved);
    }
}

proof fn lemma_level_constants()
    ensures
        scaled(ZERO) == 0,
        0 < scaled(DECAY_DISTANCE),
        0 < scaled(RELEASE_FLOOR),
        scaled(RELEASE_FLOOR) < scaled(ONE) < scaled(ATTACK_TARGET),
{
    lemma_one_and_zero();
    lemma_magnitude_order(ZERO, DECAY_DISTANCE);
    lemma_magnitude_order(ZERO, RELEASE_FLOOR);
    lemma_magnitude_order(RELEASE_FLOOR, ONE);
    lemma_magnitude_order(ONE, ATTACK_TARGET);
}

/// An envelope starts between nothing and full, and keys leave it there.
pub proof fn lemma_keys_keep_the_level(env: Adsr)
    ensures
        in_range(ZERO),
        env.gated_on().value == env.value,
        env.gated_off().value == env.value,
        env.gated_on().stage == Stage::Attack,
        env.gated_off().stage == (if env.stage == Stage::Idle {
            Stage::Idle
        } else {
            Stage::Release
        }),
{
    lemma_level_constants();
}

proof fn lemma_first_where(voices: Seq<Voice>, p: spec_fn(Voice) -> bool, k: int) -> (i: int)
    requires
        0 <= k < voices.len(),
        p(voices[k]),
    ensures
        0 <= i <= k,
        p(voices[i]),
        forall|m: int| 0 <= m < i ==> !p(#[trigger] voices[m]),
    decreases k,
{
    if exists|m: int| 0 <= m < k && p(#[trigger] voices[m]) {
        let m = choose|m: int| 0 <= m < k && p(#[trigger] voices[m]);
        lemma_first_where(voices, p, m)
    } else {
        k
    }
}

proof fn lemma_oldest(voices: Seq<Voice>, n: int) -> (i: int)
    requires
        1 <= n <= voices.len(),
    ensures
        0 <= i < n,
        forall|k: int| 0 <= k < n ==> voices[i].age <= #[trigger] voices[k].age,
        forall|k: int| 0 <= k < i ==> voices[i].age < #[trigger] voices[k].age,
    decreases n,
{
    if n == 1 {
        0
    } else {
        let i = lemma_oldest(voices, n - 1);
        if voices[n - 1].age < voices[i].age {
            n - 1
        } else {
            i
        }
    }
}

/// There is always exactly one voice that starts a note.
pub proof fn lemma_voice_is_chosen(voices: Seq<Voice>, note: u8)
    requires
        voices.len() > 0,
    ensures
        suits(voices, note, chosen(voices, note)),
        forall|i: int| suits(voices, note, i) ==> i == chosen(voices, note),
{
    if exists|k: int| 0 <= k < voices.len() && #[trigger] voices[k].plays(note) {
        let k = choose|k: int| 0 <= k < voices.len() && #[trigger] voices[k].plays(note);
        let i = lemma_first_where(voices, |v: Voice| v.plays(note), k);
        assert(forall|m: int| 0 <= m < i ==> !#[trigger] voices[m].plays(note)) by {
            assert(forall|m: int|
                0 <= m < i ==> !(|v: Voice| v.plays(note))(#[trigger] voices[m]));
        }
        assert(suits(voices, note, i));
    } else if exists|k: int| 0 <= k < voices.len() && !#[trigger] voices[k].sounds() {
        let k = choose|k: int| 0 <= k < voices.len() && !#[trigger] voices[k].sounds();
        let i = lemma_first_where(voices, |v: Voice| !v.sounds(), k);
        assert(suits(voices, note, i));
    } else {
        let i = lemma_oldest(voices, voices.len() as int);
        assert(suits(voices, note, i));
    }
    assert forall|i: int| suits(voices, note, i) implies i == chosen(voices, note) by {
        lemma_chosen(voices, note, i);
    }
}

/// No note is held by two voices.
pub open spec fn one_voice_per_note(voices: Seq<Voice>) -> bool {
    forall|i: int, j: int|
        0 <= i < j < voices.len() && #[trigger] voices[i].gate && #[trigger] voices[j].gate
            ==> voices[i].note != voices[j].note
}

/// While voices are shared out, no note comes to be held by two of them.
pub proof fn lemma_notes_stay_apart(voices: Seq<Voice>, tick: u64, event: NoteEvent)
    requires
        voices.len() > 0,
        one_voice_per_note(voices),
    ensures
        one_voice_per_note(handled(voices, false, tick, event)),
{
    let after = handled(voices, false, tick, event);
    match event {
        NoteEvent::On { note, velocity } => {
            lemma_voice_is_chosen(voices, note);
            let c = chosen(voices, note);
            assert forall|i: int, j: int|
                0 <= i < j < after.len() && #[trigger] after[i].gate
                    && #[trigger] after[j].gate implies after[i].note != after[j].note by {
                assert(i != c ==> after[i] == voices[i]);
                assert(j != c ==> after[j] == voices[j]);
                if i == c && voices[j].note == note {
                    assert(voices[j].plays(note));
                    assert(voices[c].plays(note));
                }
                if j == c && voices[i].note == note {
                    assert(voices[i].plays(note));
                    assert(voices[c].plays(note));
                }
            }
        },
        _ => {
            assert forall|i: int, j: int|
                0 <= i < j < after.len() && #[trigger] after[i].gate
                    && #[trigger] after[j].gate implies after[i].note != after[j].note by {
                assert(voices[i].gate && voices[i].note == after[i].note);
                assert(voices[j].gate && voices[j].note == after[j].note);
            }
        },
    }
}

/// A note that was started is held by a voice that can be heard, whether
/// voices are shared out or one plays alone with no other key held.
pub proof fn lemma_started_note_is_held(
    voices: Seq<Voice>,
    mono: bool,
    tick: u64,
    note: u8,
    velocity: u32,
)
    requires
        voices.len() > 0,
        mono ==> forall|k: int| 0 <= k < voices.len() ==> !#[trigger] voices[k].gate,
    ensures
        exists|i: int|
            #![trigger handled(voices, mono, tick, NoteEvent::On { note, velocity })[i]]
            0 <= i < voices.len() && ({
                let v = handled(voices, mono, tick, NoteEvent::On { note, velocity })[i];
                v.plays(note) && v.amp_env.stage == Stage::Attack && v.filt_env.stage
                    == Stage::Attack && v.velocity == audible(velocity)
            }),
{
    lemma_voice_is_chosen(voices, note);
    let after = handled(voices, mono, tick, NoteEvent::On { note, velocity });
    if mono {
        assert(after[0].plays(note));
    } else {
        assert(after[chosen(voices, note)].plays(note));
    }
}

/// While voices are shared out and one is silent, starting a note cuts off no
/// other note: every voice that can be heard goes on as it was, but for the
/// one that plays this note already.
pub proof fn lemma_no_note_is_cut_off(
    voices: Seq<Voice>,
    tick: u64,
    note: u8,
    velocity: u32,
    i: int,
)
    requires
        0 <= i < voices.len(),
        exists|k: int| 0 <= k < voices.len() && !#[trigger] voices[k].sounds(),
        voices[i].sounds(),
        !voices[i].plays(note),
    ensures
        handled(voices, false, tick, NoteEvent::On { note, velocity })[i] == voices[i],
{
    lemma_voice_is_chosen(voices, note);
}

/// While voices are shared out, releasing a key leaves no voice holding its
/// note, and leaves the voices of other notes alone.
pub proof fn lemma_released_note_is_not_held(voices: Seq<Voice>, tick: u64, note: u8, i: int)
    requires
        0 <= i < voices.len(),
    ensures
        !handled(voices, false, tick, NoteEvent::Off { note })[i].plays(note),
        !voices[i].plays(note) ==> handled(voices, false, tick, NoteEvent::Off { note })[i]
            == voices[i],
{
}

/// After everything was stopped, no key is held and every voice is fading or
/// silent.
pub proof fn lemma_all_off_releases(voices: Seq<Voice>, mono: bool, tick: u64, i: int)
    requires
        0 <= i < voices.len(),
    ensures
        ({
            let v = handled(voices, mono, tick, NoteEvent::AllOff)[i];
            !v.gate && (v.amp_env.stage == Stage::Idle || v.amp_env.stage == Stage::Release) && (
            v.filt_env.stage == Stage::Idle || v.filt_env.stage == Stage::Release)
        }),
{
}

/// Every voice whose key is held can be heard and is not fading.
pub open spec fn held_voices_sound(voices: Seq<Voice>) -> bool {
    forall|i: int|
        0 <= i < voices.len() && #[trigger] voices[i].gate ==> voices[i].amp_env.stage
            != Stage::Idle && voices[i].amp_env.stage != Stage::Release
}

/// A voice whose key is held stays audible: events keep it so, unless the
/// first voice is to play alone while another one's key is held; and so does
/// the passing of a sample.
pub proof fn lemma_held_voices_sound(voices: Seq<Voice>, mono: bool, tick: u64, event: NoteEvent)
    requires
        voices.len() > 0,
        held_voices_sound(voices),
        mono ==> forall|k: int| 1 <= k < voices.len() ==> !#[trigger] voices[k].gate,
    ensures
        held_voices_sound(handled(voices, mono, tick, event)),
        forall|env: Adsr, moved: u32, sustain: u32, distance: u32|
            env.stage != Stage::Idle && env.stage != Stage::Release ==> ({
                let next = #[trigger] env.ticked(moved, sustain, distance);
                next.stage != Stage::Idle && next.stage != Stage::Release
            }),
{
    let after = handled(voices, mono, tick, event);
    match event {
        NoteEvent::On { note, velocity } => {
            lemma_voice_is_chosen(voices, note);
        },
        _ => {},
    }
    assert forall|i: int| 0 <= i < after.len() && #[trigger] after[i].gate implies after[
        i
    ].amp_env.stage != Stage::Idle && after[i].amp_env.stage != Stage::Release by {
        assert(voices[i].gate ==> voices[i].amp_env.stage != Stage::Release);
    }
}

/// Handling events in two batches is handling them all at once.
pub proof fn lemma_batches(
    voices: Seq<Voice>,
    mono: bool,
    tick: u64,
    first: Seq<NoteEvent>,
    second: Seq<NoteEvent>,
)
    ensures
        handled_all(voices, mono, tick, first + second) == handled_all(
            handled_all(voices, mono, tick, first),
            mono,
            tick,
            second,
        ),
    decreases first.len(),
{
    if first.len() == 0 {
        assert(first + second =~= second);
    } else {
        assert((first + second).drop_first() =~= first.drop_first() + second);
        lemma_batches(
            handled(voices, mono, tick, first[0]),
            mono,
            tick,
            first.drop_first(),
            second,
        );
    }
}

/// While a stage lasts the level is where the sample moved it; a stage that ends
/// leaves it at full, at the sustain level or at nothing.
pub proof fn lemma_tick_takes_the_moved_level(env: Adsr, moved: u32, sustain: u32, distance: u32)
    ensures
        ({
            let next = env.ticked(moved, sustain, distance);
            &&& env.stage == Stage::Attack && next.stage == Stage::Attack ==> next.value == moved
            &&& env.stage == Stage::Attack && next.stage == Stage::Decay ==> next.value == ONE
            &&& env.stage == Stage::Decay && next.stage == Stage::Decay ==> next.value == moved
            &&& env.stage == Stage::Decay && next.stage == Stage::Sustain ==> next.value == sustain
            &&& env.stage == Stage::Sustain ==> next.value == sustain
            &&& env.stage == Stage::Release && next.stage == Stage::Release ==> next.value == moved
            &&& env.stage == Stage::Release && next.stage == Stage::Idle ==> next.value == ZERO
            &&& env.stage == Stage::Idle ==> next.value == ZERO
        }),
{
}

/// A noise source starts at the seed times a large odd number, modulo 2 to the
/// power of 32, or at one if that is zero.
pub proof fn lemma_seed(seed: u32)
    ensures
        ({
            let n = seed as int * 2654435761 % 0x1_0000_0000;
            &&& n != 0 ==> Osc::seeded(seed).rng == n
            &&& n == 0 ==> Osc::seeded(seed).rng == 1
        }),
{
}

/// A note is as loud as it was struck, but never softer than the softest.
pub proof fn lemma_audible(velocity: u32)
    ensures
        !not_a_number(velocity) && scaled(MIN_VELOCITY) < scaled(velocity) ==> audible(velocity)
            == velocity,
        not_a_number(velocity) || scaled(velocity) <= scaled(MIN_VELOCITY) ==> audible(velocity)
            == MIN_VELOCITY,
{
}

/// A voice at rest cannot be heard, holds no key and has nothing to take up.
pub proof fn lemma_resting_voice(seed: u32)
    ensures
        ({
            let v = Voice::resting(seed);
            &&& v.amp_env.stage == Stage::Idle
            &&& v.filt_env.stage == Stage::Idle
            &&& v.amp_env.value == ZERO
            &&& v.filt_env.value == ZERO
            &&& !v.gate
            &&& v.jump is None
            &&& v.age == 0
            &&& v.osc1 == Osc::seeded(seed)
            &&& v.osc2 == Osc::seeded(seed ^ 0xa5a5)
            &&& v.sub == Osc::seeded(seed ^ 0x5a5a)
            &&& v.noise == Osc::seeded(seed ^ 0xdead)
        }),
{
}

/// While voices are shared out, starting a note changes one voice: the first
/// whose held note it is, else the first that is silent, else the one that was
/// started longest ago. That voice plays the note from now on: both envelopes
/// attack from where they are, it is as old as the moment, and it takes up the
/// pitch at once only if it was silent.
pub proof fn lemma_note_gets_its_voice(
    voices: Seq<Voice>,
    tick: u64,
    note: u8,
    velocity: u32,
) -> (c: int)
    requires
        voices.len() > 0,
    ensures
        ({
            let after = handled(voices, false, tick, NoteEvent::On { note, velocity });
            let held = exists|k: int|
                0 <= k < voices.len() && #[trigger] voices[k].note == note && voices[k].gate;
            let silent = exists|k: int|
                0 <= k < voices.len() && #[trigger] voices[k].amp_env.stage == Stage::Idle;
            &&& 0 <= c < voices.len()
            &&& after.len() == voices.len()
            &&& forall|k: int|
                0 <= k < voices.len() && k != c ==> #[trigger] after[k] == voices[k]
            &&& held ==> voices[c].note == note && voices[c].gate && forall|k: int|
                0 <= k < c ==> !(#[trigger] voices[k].note == note && voices[k].gate)
            &&& !held && silent ==> voices[c].amp_env.stage == Stage::Idle && forall|k: int|
                0 <= k < c ==> #[trigger] voices[k].amp_env.stage != Stage::Idle
            &&& !held && !silent ==> {
                &&& forall|k: int|
                    0 <= k < voices.len() ==> voices[c].age <= #[trigger] voices[k].age
                &&& forall|k: int| 0 <= k < c ==> voices[c].age < #[trigger] voices[k].age
            }
            &&& after[c].note == note
            &&& after[c].gate
            &&& after[c].velocity == audible(velocity)
            &&& after[c].age == tick
            &&& after[c].jump == (if voices[c].amp_env.stage == Stage::Idle {
                Some(note)
            } else {
                voices[c].jump
            })
            &&& after[c].amp_env.stage == Stage::Attack
            &&& after[c].filt_env.stage == Stage::Attack
            &&& after[c].amp_env.value == voices[c].amp_env.value
            &&& after[c].filt_env.value == voices[c].filt_env.value
            &&& after[c].osc1 == voices[c].osc1
            &&& after[c].osc2 == voices[c].osc2
            &&& after[c].sub == voices[c].sub
            &&& after[c].noise == voices[c].noise
        }),
{
    lemma_voice_is_chosen(voices, note);
    let c = chosen(voices, note);
    if exists|k: int| 0 <= k < voices.len() && #[trigger] voices[k].note == note && voices[k].gate {
        let k = choose|k: int|
            0 <= k < voices.len() && #[trigger] voices[k].note == note && voices[k].gate;
        assert(voices[k].plays(note));
        assert forall|m: int| 0 <= m < c implies !(#[trigger] voices[m].note == note
            && voices[m].gate) by {
            assert(!voices[m].plays(note));
        }
    } else {
        assert forall|k: int| 0 <= k < voices.len() implies !#[trigger] voices[k].plays(note) by {
            assert(!(voices[k].note == note && voices[k].gate));
        }
        if exists|k: int|
            0 <= k < voices.len() && #[trigger] voices[k].amp_env.stage == Stage::Idle {
            let k = choose|k: int|
                0 <= k < voices.len() && #[trigger] voices[k].amp_env.stage == Stage::Idle;
            assert(!voices[k].sounds());
            assert forall|m: int| 0 <= m < c implies #[trigger] voices[m].amp_env.stage
                != Stage::Idle by {
                assert(voices[m].sounds());
            }
        } else {
            assert forall|k: int| 0 <= k < voices.len() implies #[trigger] voices[k].sounds() by {
                assert(voices[k].amp_env.stage != Stage::Idle);
            }
        }
    }
    c
}

/// With one voice playing alone, starting a note changes the first voice only.
/// While any key is held the note slides over: the envelopes go on as they are
/// and the pitch glides. Else both envelopes attack and the pitch is taken up at
/// once.
pub proof fn lemma_lone_voice_starts(voices: Seq<Voice>, tick: u64, note: u8, velocity: u32)
    requires
        voices.len() > 0,
    ensures
        ({
            let after = handled(voices, true, tick, NoteEvent::On { note, velocity });
            let held = exists|k: int| 0 <= k < voices.len() && #[trigger] voices[k].gate;
            &&& after.len() == voices.len()
            &&& forall|k: int| 1 <= k < voices.len() ==> #[trigger] after[k] == voices[k]
            &&& after[0].note == note
            &&& after[0].gate
            &&& after[0].velocity == audible(velocity)
            &&& after[0].age == tick
            &&& held ==> after[0].amp_env == voices[0].amp_env && after[0].filt_env
                == voices[0].filt_env && after[0].jump == voices[0].jump
            &&& !held ==> {
                &&& after[0].amp_env.stage == Stage::Attack
                &&& after[0].filt_env.stage == Stage::Attack
                &&& after[0].amp_env.value == voices[0].amp_env.value
                &&& after[0].filt_env.value == voices[0].filt_env.value
                &&& after[0].jump == Some(note)
            }
            &&& after[0].osc1 == voices[0].osc1
            &&& after[0].osc2 == voices[0].osc2
            &&& after[0].sub == voices[0].sub
            &&& after[0].noise == voices[0].noise
        }),
{
}

/// With one voice playing alone, releasing the key of its note lets it fade:
/// its key is no longer held and both envelopes go into release, if they are not
/// at rest, from where they are. Releasing another key changes nothing, and the
/// other voices stay as they are.
pub proof fn lemma_lone_voice_stops(voices: Seq<Voice>, tick: u64, note: u8)
    requires
        voices.len() > 0,
    ensures
        ({
            let after = handled(voices, true, tick, NoteEvent::Off { note });
            &&& after.len() == voices.len()
            &&& forall|k: int| 1 <= k < voices.len() ==> #[trigger] after[k] == voices[k]
            &&& voices[0].note != note ==> after[0] == voices[0]
            &&& voices[0].note == note ==> {
                &&& !after[0].gate
                &&& after[0].amp_env.stage == (if voices[0].amp_env.stage == Stage::Idle {
                    Stage::Idle
                } else {
                    Stage::Release
                })
                &&& after[0].amp_env.value == voices[0].amp_env.value
                &&& after[0].filt_env.stage == (if voices[0].filt_env.stage == Stage::Idle {
                    Stage::Idle
                } else {
                    Stage::Release
                })
                &&& after[0].filt_env.value == voices[0].filt_env.value
                &&& after[0].note == voices[0].note
                &&& after[0].velocity == voices[0].velocity
                &&& after[0].jump == voices[0].jump
                &&& after[0].age == voices[0].age
                &&& after[0].osc1 == voices[0].osc1
                &&& after[0].osc2 == voices[0].osc2
                &&& after[0].sub == voices[0].sub
                &&& after[0].noise == voices[0].noise
            }
        }),
{
}

/// While voices are shared out, releasing a key lets every voice that holds its
/// note fade, from where it is, and changes no other voice.
pub proof fn lemma_released_voices_fade(voices: Seq<Voice>, tick: u64, note: u8, i: int)
    requires
        0 <= i < voices.len(),
    ensures
        ({
            let after = handled(voices, false, tick, NoteEvent::Off { note });
            &&& after.len() == voices.len()
            &&& !(voices[i].note == note && voices[i].gate) ==> after[i] == voices[i]
            &&& voices[i].note == note && voices[i].gate ==> {
                &&& !after[i].gate
                &&& after[i].amp_env.stage == (if voices[i].amp_env.stage == Stage::Idle {
                    Stage::Idle
                } else {
                    Stage::Release
                })
                &&& after[i].amp_env.value == voices[i].amp_env.value
                &&& after[i].filt_env.stage == (if voices[i].filt_env.stage == Stage::Idle {
                    Stage::Idle
                } else {
                    Stage::Release
                })
                &&& after[i].filt_env.value == voices[i].filt_env.value
                &&& after[i].note == voices[i].note
                &&& after[i].velocity == voices[i].velocity
                &&& after[i].jump == voices[i].jump
                &&& after[i].age == voices[i].age
                &&& after[i].osc1 == voices[i].osc1
                &&& after[i].osc2 == voices[i].osc2
                &&& after[i].sub == voices[i].sub
                &&& after[i].noise == voices[i].noise
            }
        }),
{
}

/// Stopping everything lets every voice fade, from where it is.
pub proof fn lemma_all_voices_fade(voices: Seq<Voice>, mono: bool, tick: u64, i: int)
    requires
        0 <= i < voices.len(),
    ensures
        ({
            let after = handled(voices, mono, tick, NoteEvent::AllOff);
            &&& after.len() == voices.len()
            &&& !after[i].gate
            &&& after[i].amp_env.stage == (if voices[i].amp_env.stage == Stage::Idle {
                Stage::Idle
            } else {
                Stage::Release
            })
            &&& after[i].amp_env.value == voices[i].amp_env.value
            &&& after[i].filt_env.stage == (if voices[i].filt_env.stage == Stage::Idle {
                Stage::Idle
            } else {
                Stage::Release
            })
            &&& after[i].filt_env.value == voices[i].filt_env.value
            &&& after[i].note == voices[i].note
            &&& after[i].velocity == voices[i].velocity
            &&& after[i].jump == voices[i].jump
            &&& after[i].age == voices[i].age
            &&& after[i].osc1 == voices[i].osc1
            &&& after[i].osc2 == voices[i].osc2
            &&& after[i].sub == voices[i].sub
            &&& after[i].noise == voices[i].noise
        }),
{
}

/// Events are handled one after another, the last after all others.
pub proof fn lemma_events_in_order(
    voices: Seq<Voice>,
    mono: bool,
    tick: u64,
    events: Seq<NoteEvent>,
    event: NoteEvent,
)
    ensures
        handled_all(voices, mono, tick, Seq::empty()) == voices,
        handled_all(voices, mono, tick, events.push(event)) == handled(
            handled_all(voices, mono, tick, events),
            mono,
            tick,
            event,
        ),
{
    lemma_batches(voices, mono, tick, events, seq![event]);
    assert(events.push(event) =~= events + seq![event]);
    reveal_with_fuel(handled_all, 2);
    assert(seq![event].drop_first() =~= Seq::<NoteEvent>::empty());
}

/// The voices' seeds differ from a common one by multiples of a prime number.
pub proof fn lemma_voice_seeds(i: int)
    requires
        0 <= i < 8,
    ensures
        voice_seed(i) ^ 0xdead_beef == i * 7919,
{
    let n = (i * 7919) as u32;
    assert((0xdead_beefu32 ^ n) ^ 0xdead_beef == n) by (bit_vector);
}

} // verus!
