//! The synthesizer's parameters.
//!
//! Every parameter has a name, a place in the parameter table and a
//! single-precision value, held as its bit pattern.
use core::sync::atomic::{AtomicU32, Ordering};
use vstd::prelude::*;

verus! {

/// How many parameters there are.
pub const PARAM_COUNT: usize = 50;

/// The parameters' names, in table order.
pub const PARAM_NAMES: [&'static str; PARAM_COUNT] = [
    "osc1_wave",
    "osc1_detune",
    "osc1_level",
    "osc2_wave",
    "osc2_detune",
    "osc2_level",
    "osc2_octave",
    "sub_level",
    "noise_level",
    "filter_cutoff",
    "filter_resonance",
    "filter_env_amount",
    "filter_drive",
    "filter_keytrack",
    "amp_a",
    "amp_d",
    "amp_s",
    "amp_r",
    "fenv_a",
    "fenv_d",
    "fenv_s",
    "fenv_r",
    "lfo_rate",
    "lfo_to_cutoff",
    "lfo_to_pitch",
    "master_volume",
    "master_drive",
    "glide",
    "mono",
    "chord_type",
    "arp_enabled",
    "arp_pattern",
    "arp_rate",
    "arp_gate",
    "arp_octaves",
    "dist_enabled",
    "dist_type",
    "dist_drive",
    "dist_tone",
    "dist_mix",
    "comp_enabled",
    "comp_xover_low",
    "comp_xover_high",
    "comp_threshold",
    "comp_ratio",
    "comp_attack",
    "comp_release",
    "comp_gain_low",
    "comp_gain_mid",
    "comp_gain_high",
];

/// The value that each parameter starts with, in table order. The effects
/// (the last fifteen parameters) start switched off.
pub const DEFAULTS: [u32; PARAM_COUNT] = [
    0x0000_0000,  // osc1_wave: 0.0
    0xc0e0_0000,  // osc1_detune: -7.0
    0x3f33_3333,  // osc1_level: 0.7
    0x0000_0000,  // osc2_wave: 0.0
    0x40e0_0000,  // osc2_detune: 7.0
    0x3f33_3333,  // osc2_level: 0.7
    0x0000_0000,  // osc2_octave: 0.0
    0x3f00_0000,  // sub_level: 0.5
    0x0000_0000,  // noise_level: 0.0
    0x3ee6_6666,  // filter_cutoff: 0.45
    0x3eb3_3333,  // filter_resonance: 0.35
    0x3f0c_cccd,  // filter_env_amount: 0.55
    0x3ecc_cccd,  // filter_drive: 0.4
    0x3e99_999a,  // filter_keytrack: 0.3
    0x3ba3_d70a,  // amp_a: 0.005
    0x3e4c_cccd,  // amp_d: 0.2
    0x3f33_3333,  // amp_s: 0.7
    0x3e99_999a,  // amp_r: 0.3
    0x3ba3_d70a,  // fenv_a: 0.005
    0x3e80_0000,  // fenv_d: 0.25
    0x3e4c_cccd,  // fenv_s: 0.2
    0x3e99_999a,  // fenv_r: 0.3
    0x4000_0000,  // lfo_rate: 2.0
    0x0000_0000,  // lfo_to_cutoff: 0.0
    0x0000_0000,  // lfo_to_pitch: 0.0
    0x3f0c_cccd,  // master_volume: 0.55
    0x3e4c_cccd,  // master_drive: 0.2
    0x0000_0000,  // glide: 0.0
    0x0000_0000,  // mono: 0.0
    0x0000_0000,  // chord_type: 0.0
    0x0000_0000,  // arp_enabled: 0.0
    0x0000_0000,  // arp_pattern: 0.0
    0x40c0_0000,  // arp_rate: 6.0
    0x3f00_0000,  // arp_gate: 0.5
    0x3f80_0000,  // arp_octaves: 1.0
    0x0000_0000,  // dist_enabled: 0.0
    0x0000_0000,  // dist_type: 0.0
    0x0000_0000,  // dist_drive: 0.0
    0x0000_0000,  // dist_tone: 0.0
    0x0000_0000,  // dist_mix: 0.0
    0x0000_0000,  // comp_enabled: 0.0
    0x0000_0000,  // comp_xover_low: 0.0
    0x0000_0000,  // comp_xover_high: 0.0
    0x0000_0000,  // comp_threshold: 0.0
    0x0000_0000,  // comp_ratio: 0.0
    0x0000_0000,  // comp_attack: 0.0
    0x0000_0000,  // comp_release: 0.0
    0x0000_0000,  // comp_gain_low: 0.0
    0x0000_0000,  // comp_gain_mid: 0.0
    0x0000_0000,  // comp_gain_high: 0.0
];

pub const OSC1_WAVE: usize = 0;

pub const OSC1_DETUNE: usize = 1;

pub const OSC1_LEVEL: usize = 2;

pub const OSC2_WAVE: usize = 3;

pub const OSC2_DETUNE: usize = 4;

pub const OSC2_LEVEL: usize = 5;

pub const OSC2_OCTAVE: usize = 6;

pub const SUB_LEVEL: usize = 7;

pub const NOISE_LEVEL: usize = 8;

pub const FILTER_CUTOFF: usize = 9;

pub const FILTER_RESONANCE: usize = 10;

pub const FILTER_ENV_AMOUNT: usize = 11;

pub const FILTER_DRIVE: usize = 12;

pub const FILTER_KEYTRACK: usize = 13;

pub const AMP_A: usize = 14;

pub const AMP_D: usize = 15;

pub const AMP_S: usize = 16;

pub const AMP_R: usize = 17;

pub const FENV_A: usize = 18;

pub const FENV_D: usize = 19;

pub const FENV_S: usize = 20;

pub const FENV_R: usize = 21;

pub const LFO_RATE: usize = 22;

pub const LFO_TO_CUTOFF: usize = 23;

pub const LFO_TO_PITCH: usize = 24;

pub const MASTER_VOLUME: usize = 25;

pub const MASTER_DRIVE: usize = 26;

pub const GLIDE: usize = 27;

pub const MONO: usize = 28;

pub const CHORD_TYPE: usize = 29;

pub const ARP_ENABLED: usize = 30;

pub const ARP_PATTERN: usize = 31;

pub const ARP_RATE: usize = 32;

pub const ARP_GATE: usize = 33;

pub const ARP_OCTAVES: usize = 34;

pub const DIST_ENABLED: usize = 35;

pub const DIST_TYPE: usize = 36;

pub const DIST_DRIVE: usize = 37;

pub const DIST_TONE: usize = 38;

pub const DIST_MIX: usize = 39;

pub const COMP_ENABLED: usize = 40;

pub const COMP_XOVER_LOW: usize = 41;

pub const COMP_XOVER_HIGH: usize = 42;

pub const COMP_THRESHOLD: usize = 43;

pub const COMP_RATIO: usize = 44;

pub const COMP_ATTACK: usize = 45;

pub const COMP_RELEASE: usize = 46;

pub const COMP_GAIN_LOW: usize = 47;

pub const COMP_GAIN_MID: usize = 48;

pub const COMP_GAIN_HIGH: usize = 49;

/// Whether the parameter at place `i` has this name.
pub open spec fn named(name: Seq<char>, i: int) -> bool {
    0 <= i < PARAM_COUNT && PARAM_NAMES@[i]@ == name
}

/// A few of a name's letters, which tell the parameters apart.
spec fn letters(name: Seq<char>) -> (nat, char, char, char, char, char) {
    let n = name.len();
    (n, name[0], name[3], name[n - 4], name[n - 2], name[n - 1])
}

/// No two parameters share a name.
pub proof fn lemma_names_distinct(name: Seq<char>, i: int, j: int)
    requires
        named(name, i),
        named(name, j),
    ensures
        i == j,
{
    reveal_strlit("osc1_wave");
    reveal_strlit("osc1_detune");
    reveal_strlit("osc1_level");
    reveal_strlit("osc2_wave");
    reveal_strlit("osc2_detune");
    reveal_strlit("osc2_level");
    reveal_strlit("osc2_octave");
    reveal_strlit("sub_level");
    reveal_strlit("noise_level");
    reveal_strlit("filter_cutoff");
    reveal_strlit("filter_resonance");
    reveal_strlit("filter_env_amount");
    reveal_strlit("filter_drive");
    reveal_strlit("filter_keytrack");
    reveal_strlit("amp_a");
    reveal_strlit("amp_d");
    reveal_strlit("amp_s");
    reveal_strlit("amp_r");
    reveal_strlit("fenv_a");
    reveal_strlit("fenv_d");
    reveal_strlit("fenv_s");
    reveal_strlit("fenv_r");
    reveal_strlit("lfo_rate");
    reveal_strlit("lfo_to_cutoff");
    reveal_strlit("lfo_to_pitch");
    reveal_strlit("master_volume");
    reveal_strlit("master_drive");
    reveal_strlit("glide");
    reveal_strlit("mono");
    reveal_strlit("chord_type");
    reveal_strlit("arp_enabled");
    reveal_strlit("arp_pattern");
    reveal_strlit("arp_rate");
    reveal_strlit("arp_gate");
    reveal_strlit("arp_octaves");
    reveal_strlit("dist_enabled");
    reveal_strlit("dist_type");
    reveal_strlit("dist_drive");
    reveal_strlit("dist_tone");
    reveal_strlit("dist_mix");
    reveal_strlit("comp_enabled");
    reveal_strlit("comp_xover_low");
    reveal_strlit("comp_xover_high");
    reveal_strlit("comp_threshold");
    reveal_strlit("comp_ratio");
    reveal_strlit("comp_attack");
    reveal_strlit("comp_release");
    reveal_strlit("comp_gain_low");
    reveal_strlit("comp_gain_mid");
    reveal_strlit("comp_gain_high");
    assert(forall|k: int| 0 <= k < PARAM_COUNT && k != i ==> letters(PARAM_NAMES@[k]@) != letters(name));
}

/// The place of the parameter with this name, if there is one.
pub open spec fn param_index(name: Seq<char>) -> Option<int> {
    if exists|i: int| named(name, i) {
        Some(choose|i: int| named(name, i))
    } else {
        None
    }
}

/// A name stands at the place where the table lists it.
pub proof fn lemma_param_index(name: Seq<char>, i: int)
    requires
        named(name, i),
    ensures
        param_index(name) == Some(i),
{
    lemma_names_distinct(name, i, param_index(name)->0);
}

/// The values after one parameter was set by name.
pub open spec fn with_param(values: Seq<u32>, name: Seq<char>, value: u32) -> Seq<u32> {
    match param_index(name) {
        Some(i) => values.update(i, value),
        None => values,
    }
}

/// The value that a parameter has, by its name.
pub open spec fn value_of(values: Seq<u32>, name: Seq<char>) -> Option<u32> {
    match param_index(name) {
        Some(i) => Some(values[i]),
        None => None,
    }
}

/// Setting a parameter by name gives it the value and leaves every other
/// parameter as it was.
pub proof fn lemma_set_reads_back(values: Seq<u32>, name: Seq<char>, value: u32, other: Seq<char>)
    requires
        values.len() == PARAM_COUNT,
    ensures
        param_index(name) is Some ==> value_of(with_param(values, name, value), name) == Some(
            value,
        ),
        other != name ==> value_of(with_param(values, name, value), other) == value_of(
            values,
            other,
        ),
{
    if param_index(name) is Some && param_index(other) is Some && other != name {
        assert(named(name, param_index(name)->0));
        assert(named(other, param_index(other)->0));
    }
}

/// The place of the parameter with this name.
pub fn find_param(name: &str) -> (r: Option<usize>)
    ensures
        match r {
            Some(i) => named(name@, i as int) && param_index(name@) == Some(i as int),
            None => param_index(name@) is None,
        },
{
    let mut i: usize = 0;
    while i < PARAM_COUNT
        invariant
            i <= PARAM_COUNT,
            forall|k: int| 0 <= k < i ==> !named(name@, k),
        decreases PARAM_COUNT - i,
    {
        if *name == *PARAM_NAMES[i] {
            proof {
                lemma_param_index(name@, i as int);
            }
            return Some(i);
        }
        i = i + 1;
    }
    None
}

/// A stored sound: one value for every parameter.
#[derive(Clone, Copy, Debug, PartialEq, Eq)]
pub struct Patch {
    pub values: [u32; PARAM_COUNT],
}

impl View for Patch {
    type V = Seq<u32>;

    open spec fn view(&self) -> Seq<u32> {
        self.values@
    }
}

impl Default for Patch {
    fn default() -> (r: Self)
        ensures
            r@ == DEFAULTS@,
    {
        Patch { values: DEFAULTS }
    }
}

/// The values that the synthesizer plays with.
#[derive(Clone, Copy, Debug, PartialEq, Eq)]
pub struct Params {
    pub values: [u32; PARAM_COUNT],
}

impl View for Params {
    type V = Seq<u32>;

    open spec fn view(&self) -> Seq<u32> {
        self.values@
    }
}

impl Default for Params {
    fn default() -> (r: Self)
        ensures
            r@ == DEFAULTS@,
    {
        Params { values: DEFAULTS }
    }
}

impl Params {
    /// Sets the parameter with this name; false when there is none.
    pub fn set(&mut self, name: &str, value: u32) -> (r: bool)
        ensures
            r == (param_index(name@) is Some),
            final(self)@ == with_param(old(self)@, name@, value),
    {
        match find_param(name) {
            Some(i) => {
                self.values[i] = value;
                true
            },
            None => false,
        }
    }

    /// The current values as a sound to store.
    pub fn to_patch(&self) -> (r: Patch)
        ensures
            r@ == self@,
    {
        Patch { values: self.values }
    }

    /// Takes over every value of a stored sound.
    pub fn apply_patch(&mut self, patch: &Patch)
        ensures
            final(self)@ == patch@,
    {
        self.values = patch.values;
    }
}

/// A parameter's value, as a bit pattern, in a cell that several threads may
/// use at once. Nothing is stated of what a cell holds or what a load gives: any
/// thread that shares the cell may store another value at any moment.
pub struct AtomicF32(AtomicU32);

impl AtomicF32 {
    /// A cell that holds `v`.
    pub fn new(v: u32) -> (r: Self) {
        AtomicF32(AtomicU32::new(v))
    }

    /// The value that was stored last, by whichever thread.
    pub fn load(&self) -> (r: u32) {
        self.0.load(Ordering::Relaxed)
    }

    /// Puts a value in place of the one that was there.
    pub fn store(&self, v: u32) {
        self.0.store(v, Ordering::Relaxed);
    }
}

/// Every place is that of the parameter it is called after.
pub proof fn lemma_places()
    ensures
        named("osc1_wave"@, OSC1_WAVE as int),
        named("osc1_detune"@, OSC1_DETUNE as int),
        named("osc1_level"@, OSC1_LEVEL as int),
        named("osc2_wave"@, OSC2_WAVE as int),
        named("osc2_detune"@, OSC2_DETUNE as int),
        named("osc2_level"@, OSC2_LEVEL as int),
        named("osc2_octave"@, OSC2_OCTAVE as int),
        named("sub_level"@, SUB_LEVEL as int),
        named("noise_level"@, NOISE_LEVEL as int),
        named("filter_cutoff"@, FILTER_CUTOFF as int),
        named("filter_resonance"@, FILTER_RESONANCE as int),
        named("filter_env_amount"@, FILTER_ENV_AMOUNT as int),
        named("filter_drive"@, FILTER_DRIVE as int),
        named("filter_keytrack"@, FILTER_KEYTRACK as int),
        named("amp_a"@, AMP_A as int),
        named("amp_d"@, AMP_D as int),
        named("amp_s"@, AMP_S as int),
        named("amp_r"@, AMP_R as int),
        named("fenv_a"@, FENV_A as int),
        named("fenv_d"@, FENV_D as int),
        named("fenv_s"@, FENV_S as int),
        named("fenv_r"@, FENV_R as int),
        named("lfo_rate"@, LFO_RATE as int),
        named("lfo_to_cutoff"@, LFO_TO_CUTOFF as int),
        named("lfo_to_pitch"@, LFO_TO_PITCH as int),
        named("master_volume"@, MASTER_VOLUME as int),
        named("master_drive"@, MASTER_DRIVE as int),
        named("glide"@, GLIDE as int),
        named("mono"@, MONO as int),
        named("chord_type"@, CHORD_TYPE as int),
        named("arp_enabled"@, ARP_ENABLED as int),
        named("arp_pattern"@, ARP_PATTERN as int),
        named("arp_rate"@, ARP_RATE as int),
        named("arp_gate"@, ARP_GATE as int),
        named("arp_octaves"@, ARP_OCTAVES as int),
        named("dist_enabled"@, DIST_ENABLED as int),
        named("dist_type"@, DIST_TYPE as int),
        named("dist_drive"@, DIST_DRIVE as int),
        named("dist_tone"@, DIST_TONE as int),
        named("dist_mix"@, DIST_MIX as int),
        named("comp_enabled"@, COMP_ENABLED as int),
        named("comp_xover_low"@, COMP_XOVER_LOW as int),
        named("comp_xover_high"@, COMP_XOVER_HIGH as int),
        named("comp_threshold"@, COMP_THRESHOLD as int),
        named("comp_ratio"@, COMP_RATIO as int),
        named("comp_attack"@, COMP_ATTACK as int),
        named("comp_release"@, COMP_RELEASE as int),
        named("comp_gain_low"@, COMP_GAIN_LOW as int),
        named("comp_gain_mid"@, COMP_GAIN_MID as int),
        named("comp_gain_high"@, COMP_GAIN_HIGH as int),
{
}

/// A name that is not in the table sets nothing, and setting a parameter keeps
/// their number.
pub proof fn lemma_set_of_unknown_name(values: Seq<u32>, name: Seq<char>, value: u32)
    requires
        values.len() == PARAM_COUNT,
    ensures
        with_param(values, name, value).len() == values.len(),
        (forall|i: int| 0 <= i < PARAM_COUNT ==> #[trigger] PARAM_NAMES@[i]@ != name)
            ==> with_param(values, name, value) == values,
{
    if param_index(name) is Some {
        assert(named(name, param_index(name)->0));
    }
}

} // verus!
