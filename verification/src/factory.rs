//! The patches that the synthesizer comes with.
use crate::names::{file_name, lemma_patch_files, patch_file};
use crate::params::{
    AMP_A, AMP_D, AMP_R, AMP_S, ARP_ENABLED, ARP_GATE, ARP_OCTAVES, ARP_PATTERN, ARP_RATE,
    CHORD_TYPE, COMP_ATTACK, COMP_ENABLED, COMP_GAIN_HIGH, COMP_GAIN_LOW, COMP_GAIN_MID,
    COMP_RATIO, COMP_RELEASE, COMP_THRESHOLD, COMP_XOVER_HIGH, COMP_XOVER_LOW, DEFAULTS,
    DIST_DRIVE, DIST_ENABLED, DIST_MIX, DIST_TONE, DIST_TYPE, FENV_A, FENV_D, FENV_R, FENV_S,
    FILTER_CUTOFF, FILTER_DRIVE, FILTER_ENV_AMOUNT, FILTER_KEYTRACK, FILTER_RESONANCE, GLIDE,
    LFO_RATE, LFO_TO_CUTOFF, LFO_TO_PITCH, MASTER_DRIVE, MASTER_VOLUME, MONO, NOISE_LEVEL,
    OSC1_DETUNE, OSC1_LEVEL, OSC1_WAVE, OSC2_DETUNE, OSC2_LEVEL, OSC2_OCTAVE, OSC2_WAVE,
    PARAM_COUNT, Patch, SUB_LEVEL,
};
use vstd::prelude::*;

verus! {

/// What the factory patch `init` changes of the defaults.
pub const INIT: [(usize, u32); 14] = [
    (OSC1_LEVEL, 0x3f4c_cccd),  // 0.8
    (OSC2_LEVEL, 0x0000_0000),  // 0.0
    (SUB_LEVEL, 0x0000_0000),  // 0.0
    (FILTER_CUTOFF, 0x3f00_0000),  // 0.5
    (FILTER_RESONANCE, 0x3dcc_cccd),  // 0.1
    (FILTER_ENV_AMOUNT, 0x0000_0000),  // 0.0
    (FILTER_DRIVE, 0x0000_0000),  // 0.0
    (FILTER_KEYTRACK, 0x0000_0000),  // 0.0
    (AMP_S, 0x3f4c_cccd),  // 0.8
    (AMP_R, 0x3e4c_cccd),  // 0.2
    (FENV_S, 0x0000_0000),  // 0.0
    (FENV_R, 0x3e4c_cccd),  // 0.2
    (MASTER_VOLUME, 0x3f00_0000),  // 0.5
    (MASTER_DRIVE, 0x0000_0000),  // 0.0
];

/// What the factory patch `fat_bass` changes of the defaults.
pub const FAT_BASS: [(usize, u32); 19] = [
    (OSC1_DETUNE, 0xc110_0000),  // -9.0
    (OSC2_DETUNE, 0x4110_0000),  // 9.0
    (SUB_LEVEL, 0x3f4c_cccd),  // 0.8
    (FILTER_CUTOFF, 0x3e8f_5c29),  // 0.28
    (FILTER_RESONANCE, 0x3ee6_6666),  // 0.45
    (FILTER_ENV_AMOUNT, 0x3f0c_cccd),  // 0.55
    (FILTER_DRIVE, 0x3f19_999a),  // 0.6
    (FILTER_KEYTRACK, 0x3e80_0000),  // 0.25
    (AMP_A, 0x3b03_126f),  // 0.002
    (AMP_D, 0x3ecc_cccd),  // 0.4
    (AMP_S, 0x3f0c_cccd),  // 0.55
    (AMP_R, 0x3e19_999a),  // 0.15
    (FENV_A, 0x3b03_126f),  // 0.002
    (FENV_D, 0x3e38_51ec),  // 0.18
    (FENV_S, 0x3dcc_cccd),  // 0.1
    (FENV_R, 0x3e19_999a),  // 0.15
    (MASTER_VOLUME, 0x3f19_999a),  // 0.6
    (MASTER_DRIVE, 0x3eb3_3333),  // 0.35
    (MONO, 0x3f80_0000),  // 1.0
];

/// What the factory patch `acid_lead` changes of the defaults.
pub const ACID_LEAD: [(usize, u32); 24] = [
    (OSC1_DETUNE, 0x0000_0000),  // 0.0
    (OSC1_LEVEL, 0x3f80_0000),  // 1.0
    (OSC2_WAVE, 0x3f80_0000),  // 1.0
    (OSC2_DETUNE, 0x0000_0000),  // 0.0
    (OSC2_LEVEL, 0x0000_0000),  // 0.0
    (SUB_LEVEL, 0x0000_0000),  // 0.0
    (FILTER_CUTOFF, 0x3ea3_d70a),  // 0.32
    (FILTER_RESONANCE, 0x3f51_eb85),  // 0.82
    (FILTER_ENV_AMOUNT, 0x3f26_6666),  // 0.65
    (FILTER_DRIVE, 0x3f0c_cccd),  // 0.55
    (FILTER_KEYTRACK, 0x3ecc_cccd),  // 0.4
    (AMP_A, 0x3b03_126f),  // 0.002
    (AMP_D, 0x3eb3_3333),  // 0.35
    (AMP_S, 0x0000_0000),  // 0.0
    (AMP_R, 0x3da3_d70a),  // 0.08
    (FENV_A, 0x3b03_126f),  // 0.002
    (FENV_D, 0x3e8f_5c29),  // 0.28
    (FENV_S, 0x0000_0000),  // 0.0
    (FENV_R, 0x3e38_51ec),  // 0.18
    (LFO_RATE, 0x4080_0000),  // 4.0
    (MASTER_VOLUME, 0x3f0c_cccd),  // 0.55
    (MASTER_DRIVE, 0x3f00_0000),  // 0.5
    (GLIDE, 0x3d75_c28f),  // 0.06
    (MONO, 0x3f80_0000),  // 1.0
];

/// What the factory patch `super_pad` changes of the defaults.
pub const SUPER_PAD: [(usize, u32); 22] = [
    (OSC1_DETUNE, 0xc130_0000),  // -11.0
    (OSC1_LEVEL, 0x3f0c_cccd),  // 0.55
    (OSC2_DETUNE, 0x4140_0000),  // 12.0
    (OSC2_LEVEL, 0x3f0c_cccd),  // 0.55
    (SUB_LEVEL, 0x3e80_0000),  // 0.25
    (FILTER_CUTOFF, 0x3f0c_cccd),  // 0.55
    (FILTER_RESONANCE, 0x3e80_0000),  // 0.25
    (FILTER_ENV_AMOUNT, 0x3e4c_cccd),  // 0.2
    (FILTER_DRIVE, 0x3e4c_cccd),  // 0.2
    (FILTER_KEYTRACK, 0x3ecc_cccd),  // 0.4
    (AMP_A, 0x3f19_999a),  // 0.6
    (AMP_D, 0x3f00_0000),  // 0.5
    (AMP_S, 0x3f40_0000),  // 0.75
    (AMP_R, 0x3f99_999a),  // 1.2
    (FENV_A, 0x3f33_3333),  // 0.7
    (FENV_D, 0x3f19_999a),  // 0.6
    (FENV_S, 0x3ecc_cccd),  // 0.4
    (FENV_R, 0x3f80_0000),  // 1.0
    (LFO_RATE, 0x3e99_999a),  // 0.3
    (LFO_TO_CUTOFF, 0x3e19_999a),  // 0.15
    (MASTER_VOLUME, 0x3ee6_6666),  // 0.45
    (MASTER_DRIVE, 0x3dcc_cccd),  // 0.1
];

/// What the factory patch `pluck` changes of the defaults.
pub const PLUCK: [(usize, u32); 22] = [
    (OSC1_LEVEL, 0x3f33_3333),  // 0.7
    (OSC1_DETUNE, 0x0000_0000),  // 0.0
    (OSC2_WAVE, 0x4000_0000),  // 2.0
    (OSC2_DETUNE, 0x0000_0000),  // 0.0
    (OSC2_LEVEL, 0x3ecc_cccd),  // 0.4
    (OSC2_OCTAVE, 0x3f80_0000),  // 1.0
    (SUB_LEVEL, 0x3e99_999a),  // 0.3
    (FILTER_CUTOFF, 0x3ecc_cccd),  // 0.4
    (FILTER_RESONANCE, 0x3ecc_cccd),  // 0.4
    (FILTER_ENV_AMOUNT, 0x3f0c_cccd),  // 0.55
    (FILTER_DRIVE, 0x3e99_999a),  // 0.3
    (FILTER_KEYTRACK, 0x3f00_0000),  // 0.5
    (AMP_A, 0x3b03_126f),  // 0.002
    (AMP_D, 0x3e38_51ec),  // 0.18
    (AMP_S, 0x0000_0000),  // 0.0
    (AMP_R, 0x3e38_51ec),  // 0.18
    (FENV_A, 0x3b03_126f),  // 0.002
    (FENV_D, 0x3df5_c28f),  // 0.12
    (FENV_S, 0x0000_0000),  // 0.0
    (FENV_R, 0x3e38_51ec),  // 0.18
    (MASTER_VOLUME, 0x3f0c_cccd),  // 0.55
    (MASTER_DRIVE, 0x3e4c_cccd),  // 0.2
];

/// What the factory patch `crunch_lead` changes of the defaults.
pub const CRUNCH_LEAD: [(usize, u32); 33] = [
    (OSC1_DETUNE, 0xc100_0000),  // -8.0
    (OSC2_DETUNE, 0x4100_0000),  // 8.0
    (SUB_LEVEL, 0x3ecc_cccd),  // 0.4
    (FILTER_CUTOFF, 0x3f0c_cccd),  // 0.55
    (FILTER_RESONANCE, 0x3e99_999a),  // 0.3
    (FILTER_ENV_AMOUNT, 0x3ecc_cccd),  // 0.4
    (FILTER_DRIVE, 0x3e99_999a),  // 0.3
    (FILTER_KEYTRACK, 0x3ecc_cccd),  // 0.4
    (AMP_A, 0x3b44_9ba6),  // 0.003
    (AMP_D, 0x3e99_999a),  // 0.3
    (AMP_S, 0x3f33_3333),  // 0.7
    (AMP_R, 0x3e4c_cccd),  // 0.2
    (FENV_A, 0x3b44_9ba6),  // 0.003
    (FENV_D, 0x3e4c_cccd),  // 0.2
    (FENV_S, 0x3e4c_cccd),  // 0.2
    (FENV_R, 0x3e4c_cccd),  // 0.2
    (MASTER_VOLUME, 0x3ee6_6666),  // 0.45
    (MASTER_DRIVE, 0x3dcc_cccd),  // 0.1
    (DIST_ENABLED, 0x3f80_0000),  // 1.0
    (DIST_TYPE, 0x0000_0000),  // 0.0
    (DIST_DRIVE, 0x3f0c_cccd),  // 0.55
    (DIST_TONE, 0x3f0c_cccd),  // 0.55
    (DIST_MIX, 0x3f59_999a),  // 0.85
    (COMP_ENABLED, 0x3f80_0000),  // 1.0
    (COMP_XOVER_LOW, 0x435c_0000),  // 220.0
    (COMP_XOVER_HIGH, 0x4509_8000),  // 2200.0
    (COMP_THRESHOLD, 0xc1b0_0000),  // -22.0
    (COMP_RATIO, 0x40a0_0000),  // 5.0
    (COMP_ATTACK, 0x3b83_126f),  // 0.004
    (COMP_RELEASE, 0x3df5_c28f),  // 0.12
    (COMP_GAIN_LOW, 0x4000_0000),  // 2.0
    (COMP_GAIN_MID, 0x0000_0000),  // 0.0
    (COMP_GAIN_HIGH, 0x3fc0_0000),  // 1.5
];

/// What the factory patch `arp_house` changes of the defaults.
pub const ARP_HOUSE: [(usize, u32); 24] = [
    (OSC1_DETUNE, 0xc0a0_0000),  // -5.0
    (OSC2_DETUNE, 0x40a0_0000),  // 5.0
    (SUB_LEVEL, 0x3e99_999a),  // 0.3
    (FILTER_CUTOFF, 0x3ee6_6666),  // 0.45
    (FILTER_RESONANCE, 0x3ecc_cccd),  // 0.4
    (FILTER_ENV_AMOUNT, 0x3ee6_6666),  // 0.45
    (FILTER_DRIVE, 0x3e99_999a),  // 0.3
    (FILTER_KEYTRACK, 0x3f00_0000),  // 0.5
    (AMP_A, 0x3b03_126f),  // 0.002
    (AMP_D, 0x3e19_999a),  // 0.15
    (AMP_S, 0x0000_0000),  // 0.0
    (AMP_R, 0x3dcc_cccd),  // 0.1
    (FENV_A, 0x3b03_126f),  // 0.002
    (FENV_D, 0x3df5_c28f),  // 0.12
    (FENV_S, 0x0000_0000),  // 0.0
    (FENV_R, 0x3dcc_cccd),  // 0.1
    (MASTER_VOLUME, 0x3f00_0000),  // 0.5
    (MASTER_DRIVE, 0x3e4c_cccd),  // 0.2
    (CHORD_TYPE, 0x4040_0000),  // 3.0
    (ARP_ENABLED, 0x3f80_0000),  // 1.0
    (ARP_PATTERN, 0x0000_0000),  // 0.0
    (ARP_RATE, 0x4100_0000),  // 8.0
    (ARP_GATE, 0x3ee6_6666),  // 0.45
    (ARP_OCTAVES, 0x4000_0000),  // 2.0
];

/// What the web version's factory patch `init` changes of the defaults.
pub const WEB_INIT: [(usize, u32); 29] = [
    (OSC1_WAVE, 0x0000_0000),  // 0.0
    (OSC1_DETUNE, 0x0000_0000),  // 0.0
    (OSC1_LEVEL, 0x3f4c_cccd),  // 0.8
    (OSC2_WAVE, 0x0000_0000),  // 0.0
    (OSC2_DETUNE, 0x0000_0000),  // 0.0
    (OSC2_LEVEL, 0x0000_0000),  // 0.0
    (OSC2_OCTAVE, 0x0000_0000),  // 0.0
    (SUB_LEVEL, 0x0000_0000),  // 0.0
    (NOISE_LEVEL, 0x0000_0000),  // 0.0
    (FILTER_CUTOFF, 0x3f00_0000),  // 0.5
    (FILTER_RESONANCE, 0x3dcc_cccd),  // 0.1
    (FILTER_ENV_AMOUNT, 0x0000_0000),  // 0.0
    (FILTER_DRIVE, 0x0000_0000),  // 0.0
    (FILTER_KEYTRACK, 0x0000_0000),  // 0.0
    (AMP_A, 0x3ba3_d70a),  // 0.005
    (AMP_D, 0x3e4c_cccd),  // 0.2
    (AMP_S, 0x3f4c_cccd),  // 0.8
    (AMP_R, 0x3e4c_cccd),  // 0.2
    (FENV_A, 0x3ba3_d70a),  // 0.005
    (FENV_D, 0x3e4c_cccd),  // 0.2
    (FENV_S, 0x0000_0000),  // 0.0
    (FENV_R, 0x3e4c_cccd),  // 0.2
    (LFO_RATE, 0x4000_0000),  // 2.0
    (LFO_TO_CUTOFF, 0x0000_0000),  // 0.0
    (LFO_TO_PITCH, 0x0000_0000),  // 0.0
    (MASTER_VOLUME, 0x3f00_0000),  // 0.5
    (MASTER_DRIVE, 0x0000_0000),  // 0.0
    (GLIDE, 0x0000_0000),  // 0.0
    (MONO, 0x0000_0000),  // 0.0
];

/// What the web version's factory patch `fat_bass` changes of the defaults.
pub const WEB_FAT_BASS: [(usize, u32); 29] = [
    (OSC1_WAVE, 0x0000_0000),  // 0.0
    (OSC1_DETUNE, 0xc110_0000),  // -9.0
    (OSC1_LEVEL, 0x3f33_3333),  // 0.7
    (OSC2_WAVE, 0x0000_0000),  // 0.0
    (OSC2_DETUNE, 0x4110_0000),  // 9.0
    (OSC2_LEVEL, 0x3f33_3333),  // 0.7
    (OSC2_OCTAVE, 0x0000_0000),  // 0.0
    (SUB_LEVEL, 0x3f4c_cccd),  // 0.8
    (NOISE_LEVEL, 0x0000_0000),  // 0.0
    (FILTER_CUTOFF, 0x3e8f_5c29),  // 0.28
    (FILTER_RESONANCE, 0x3ee6_6666),  // 0.45
    (FILTER_ENV_AMOUNT, 0x3f0c_cccd),  // 0.55
    (FILTER_DRIVE, 0x3f19_999a),  // 0.6
    (FILTER_KEYTRACK, 0x3e80_0000),  // 0.25
    (AMP_A, 0x3b03_126f),  // 0.002
    (AMP_D, 0x3ecc_cccd),  // 0.4
    (AMP_S, 0x3f0c_cccd),  // 0.55
    (AMP_R, 0x3e19_999a),  // 0.15
    (FENV_A, 0x3b03_126f),  // 0.002
    (FENV_D, 0x3e38_51ec),  // 0.18
    (FENV_S, 0x3dcc_cccd),  // 0.1
    (FENV_R, 0x3e19_999a),  // 0.15
    (LFO_RATE, 0x4000_0000),  // 2.0
    (LFO_TO_CUTOFF, 0x0000_0000),  // 0.0
    (LFO_TO_PITCH, 0x0000_0000),  // 0.0
    (MASTER_VOLUME, 0x3f19_999a),  // 0.6
    (MASTER_DRIVE, 0x3eb3_3333),  // 0.35
    (GLIDE, 0x0000_0000),  // 0.0
    (MONO, 0x3f80_0000),  // 1.0
];

/// What the web version's factory patch `acid_lead` changes of the defaults.
pub const WEB_ACID_LEAD: [(usize, u32); 29] = [
    (OSC1_WAVE, 0x0000_0000),  // 0.0
    (OSC1_DETUNE, 0x0000_0000),  // 0.0
    (OSC1_LEVEL, 0x3f80_0000),  // 1.0
    (OSC2_WAVE, 0x3f80_0000),  // 1.0
    (OSC2_DETUNE, 0x0000_0000),  // 0.0
    (OSC2_LEVEL, 0x0000_0000),  // 0.0
    (OSC2_OCTAVE, 0x0000_0000),  // 0.0
    (SUB_LEVEL, 0x0000_0000),  // 0.0
    (NOISE_LEVEL, 0x0000_0000),  // 0.0
    (FILTER_CUTOFF, 0x3ea3_d70a),  // 0.32
    (FILTER_RESONANCE, 0x3f51_eb85),  // 0.82
    (FILTER_ENV_AMOUNT, 0x3f26_6666),  // 0.65
    (FILTER_DRIVE, 0x3f0c_cccd),  // 0.55
    (FILTER_KEYTRACK, 0x3ecc_cccd),  // 0.4
    (AMP_A, 0x3b03_126f),  // 0.002
    (AMP_D, 0x3eb3_3333),  // 0.35
    (AMP_S, 0x0000_0000),  // 0.0
    (AMP_R, 0x3da3_d70a),  // 0.08
    (FENV_A, 0x3b03_126f),  // 0.002
    (FENV_D, 0x3e8f_5c29),  // 0.28
    (FENV_S, 0x0000_0000),  // 0.0
    (FENV_R, 0x3e38_51ec),  // 0.18
    (LFO_RATE, 0x4080_0000),  // 4.0
    (LFO_TO_CUTOFF, 0x0000_0000),  // 0.0
    (LFO_TO_PITCH, 0x0000_0000),  // 0.0
    (MASTER_VOLUME, 0x3f0c_cccd),  // 0.55
    (MASTER_DRIVE, 0x3f00_0000),  // 0.5
    (GLIDE, 0x3d75_c28f),  // 0.06
    (MONO, 0x3f80_0000),  // 1.0
];

/// What the web version's factory patch `super_pad` changes of the defaults.
pub const WEB_SUPER_PAD: [(usize, u32); 29] = [
    (OSC1_WAVE, 0x0000_0000),  // 0.0
    (OSC1_DETUNE, 0xc130_0000),  // -11.0
    (OSC1_LEVEL, 0x3f0c_cccd),  // 0.55
    (OSC2_WAVE, 0x0000_0000),  // 0.0
    (OSC2_DETUNE, 0x4140_0000),  // 12.0
    (OSC2_LEVEL, 0x3f0c_cccd),  // 0.55
    (OSC2_OCTAVE, 0x0000_0000),  // 0.0
    (SUB_LEVEL, 0x3e80_0000),  // 0.25
    (NOISE_LEVEL, 0x0000_0000),  // 0.0
    (FILTER_CUTOFF, 0x3f0c_cccd),  // 0.55
    (FILTER_RESONANCE, 0x3e80_0000),  // 0.25
    (FILTER_ENV_AMOUNT, 0x3e4c_cccd),  // 0.2
    (FILTER_DRIVE, 0x3e4c_cccd),  // 0.2
    (FILTER_KEYTRACK, 0x3ecc_cccd),  // 0.4
    (AMP_A, 0x3f19_999a),  // 0.6
    (AMP_D, 0x3f00_0000),  // 0.5
    (AMP_S, 0x3f40_0000),  // 0.75
    (AMP_R, 0x3f99_999a),  // 1.2
    (FENV_A, 0x3f33_3333),  // 0.7
    (FENV_D, 0x3f19_999a),  // 0.6
    (FENV_S, 0x3ecc_cccd),  // 0.4
    (FENV_R, 0x3f80_0000),  // 1.0
    (LFO_RATE, 0x3e99_999a),  // 0.3
    (LFO_TO_CUTOFF, 0x3e19_999a),  // 0.15
    (LFO_TO_PITCH, 0x0000_0000),  // 0.0
    (MASTER_VOLUME, 0x3ee6_6666),  // 0.45
    (MASTER_DRIVE, 0x3dcc_cccd),  // 0.1
    (GLIDE, 0x0000_0000),  // 0.0
    (MONO, 0x0000_0000),  // 0.0
];

/// What the web version's factory patch `pluck` changes of the defaults.
pub const WEB_PLUCK: [(usize, u32); 29] = [
    (OSC1_WAVE, 0x0000_0000),  // 0.0
    (OSC1_DETUNE, 0x0000_0000),  // 0.0
    (OSC1_LEVEL, 0x3f33_3333),  // 0.7
    (OSC2_WAVE, 0x4000_0000),  // 2.0
    (OSC2_DETUNE, 0x0000_0000),  // 0.0
    (OSC2_LEVEL, 0x3ecc_cccd),  // 0.4
    (OSC2_OCTAVE, 0x3f80_0000),  // 1.0
    (SUB_LEVEL, 0x3e99_999a),  // 0.3
    (NOISE_LEVEL, 0x0000_0000),  // 0.0
    (FILTER_CUTOFF, 0x3ecc_cccd),  // 0.4
    (FILTER_RESONANCE, 0x3ecc_cccd),  // 0.4
    (FILTER_ENV_AMOUNT, 0x3f0c_cccd),  // 0.55
    (FILTER_DRIVE, 0x3e99_999a),  // 0.3
    (FILTER_KEYTRACK, 0x3f00_0000),  // 0.5
    (AMP_A, 0x3b03_126f),  // 0.002
    (AMP_D, 0x3e38_51ec),  // 0.18
    (AMP_S, 0x0000_0000),  // 0.0
    (AMP_R, 0x3e38_51ec),  // 0.18
    (FENV_A, 0x3b03_126f),  // 0.002
    (FENV_D, 0x3df5_c28f),  // 0.12
    (FENV_S, 0x0000_0000),  // 0.0
    (FENV_R, 0x3e38_51ec),  // 0.18
    (LFO_RATE, 0x4000_0000),  // 2.0
    (LFO_TO_CUTOFF, 0x0000_0000),  // 0.0
    (LFO_TO_PITCH, 0x0000_0000),  // 0.0
    (MASTER_VOLUME, 0x3f0c_cccd),  // 0.55
    (MASTER_DRIVE, 0x3e4c_cccd),  // 0.2
    (GLIDE, 0x0000_0000),  // 0.0
    (MONO, 0x0000_0000),  // 0.0
];

/// The factory patch that plays after the start.
pub const WELCOME: &'static str = "fat_bass";

/// The defaults with some values replaced.
pub open spec fn changed(table: Seq<(usize, u32)>) -> Seq<u32>
    decreases table.len(),
{
    if table.len() == 0 {
        DEFAULTS@
    } else {
        changed(table.drop_last()).update(table.last().0 as int, table.last().1)
    }
}

/// The factory patches' names and values.
pub open spec fn factory() -> Seq<(Seq<char>, Seq<u32>)> {
    seq![
        ("init"@, changed(INIT@)),
        ("fat_bass"@, changed(FAT_BASS@)),
        ("acid_lead"@, changed(ACID_LEAD@)),
        ("super_pad"@, changed(SUPER_PAD@)),
        ("pluck"@, changed(PLUCK@)),
        ("crunch_lead"@, changed(CRUNCH_LEAD@)),
        ("arp_house"@, changed(ARP_HOUSE@)),
    ]
}

/// The names and values of the web version's factory patches.
pub open spec fn web_factory() -> Seq<(Seq<char>, Seq<u32>)> {
    seq![
        ("init"@, changed(WEB_INIT@)),
        ("fat_bass"@, changed(WEB_FAT_BASS@)),
        ("acid_lead"@, changed(WEB_ACID_LEAD@)),
        ("super_pad"@, changed(WEB_SUPER_PAD@)),
        ("pluck"@, changed(WEB_PLUCK@)),
    ]
}

/// A patch that comes with the synthesizer.
#[derive(Clone, Debug)]
pub struct FactoryPatch {
    pub name: String,
    pub patch: Patch,
}

impl View for FactoryPatch {
    type V = (Seq<char>, Seq<u32>);

    open spec fn view(&self) -> (Seq<char>, Seq<u32>) {
        (self.name@, self.patch@)
    }
}

/// The names and values of a list of patches.
pub open spec fn contents(list: Seq<FactoryPatch>) -> Seq<(Seq<char>, Seq<u32>)> {
    list.map_values(|p: FactoryPatch| p@)
}

/// The defaults with some values replaced.
fn build(table: &[(usize, u32)]) -> (r: Patch)
    requires
        forall|i: int| 0 <= i < table@.len() ==> (#[trigger] table@[i]).0 < PARAM_COUNT,
    ensures
        r@ == changed(table@),
{
    let mut patch = Patch::default();
    let mut i: usize = 0;
    assert(table@.take(0) =~= Seq::<(usize, u32)>::empty());
    while i < table.len()
        invariant
            i <= table@.len(),
            forall|k: int| 0 <= k < table@.len() ==> (#[trigger] table@[k]).0 < PARAM_COUNT,
            patch@ == changed(table@.take(i as int)),
        decreases table@.len() - i,
    {
        let entry = table[i];
        assert(table@.take(i + 1).drop_last() =~= table@.take(i as int));
        patch.values[entry.0] = entry.1;
        i = i + 1;
    }
    assert(table@.take(i as int) =~= table@);
    patch
}

fn add_patch(list: &mut Vec<FactoryPatch>, name: &str, table: &[(usize, u32)])
    requires
        forall|i: int| 0 <= i < table@.len() ==> (#[trigger] table@[i]).0 < PARAM_COUNT,
    ensures
        contents(final(list)@) == contents(old(list)@).push((name@, changed(table@))),
{
    list.push(FactoryPatch { name: name.to_owned(), patch: build(table) });
    assert(contents(list@) =~= contents(old(list)@).push((name@, changed(table@))));
}

/// The patches that come with the synthesizer.
pub fn factory_patches() -> (r: Vec<FactoryPatch>)
    ensures
        contents(r@) == factory(),
{
    let mut list: Vec<FactoryPatch> = Vec::new();
    add_patch(&mut list, "init", &INIT);
    add_patch(&mut list, "fat_bass", &FAT_BASS);
    add_patch(&mut list, "acid_lead", &ACID_LEAD);
    add_patch(&mut list, "super_pad", &SUPER_PAD);
    add_patch(&mut list, "pluck", &PLUCK);
    add_patch(&mut list, "crunch_lead", &CRUNCH_LEAD);
    add_patch(&mut list, "arp_house", &ARP_HOUSE);
    assert(contents(list@) =~= factory());
    list
}

/// The patches that come with the web version.
pub fn web_factory_patches() -> (r: Vec<FactoryPatch>)
    ensures
        contents(r@) == web_factory(),
{
    let mut list: Vec<FactoryPatch> = Vec::new();
    add_patch(&mut list, "init", &WEB_INIT);
    add_patch(&mut list, "fat_bass", &WEB_FAT_BASS);
    add_patch(&mut list, "acid_lead", &WEB_ACID_LEAD);
    add_patch(&mut list, "super_pad", &WEB_SUPER_PAD);
    add_patch(&mut list, "pluck", &WEB_PLUCK);
    assert(contents(list@) =~= web_factory());
    list
}

/// A step of putting the factory patches in place.
#[derive(Clone, Debug)]
pub enum InstallStep {
    /// Store the patch in this file.
    Write { file: String, patch: Patch },
    /// Play with the patch.
    Apply { patch: Patch },
}

/// A step of putting the factory patches in place, with texts and patches as
/// sequences.
#[verifier::ext_equal]
pub enum StepView {
    Write { file: Seq<char>, patch: Seq<u32> },
    Apply { patch: Seq<u32> },
}

impl View for InstallStep {
    type V = StepView;

    open spec fn view(&self) -> StepView {
        match *self {
            InstallStep::Write { file, patch } => StepView::Write {
                file: file@,
                patch: patch@,
            },
            InstallStep::Apply { patch } => StepView::Apply { patch: patch@ },
        }
    }
}

/// The steps of a list.
pub open spec fn steps(list: Seq<InstallStep>) -> Seq<StepView> {
    list.map_values(|s: InstallStep| s@)
}

/// The steps for one patch: it is stored unless its file is there, and the
/// welcome sound is played.
pub open spec fn patch_steps(patch: (Seq<char>, Seq<u32>), there: bool) -> Seq<StepView> {
    (if there {
        Seq::empty()
    } else {
        seq![StepView::Write { file: patch_file(patch.0), patch: patch.1 }]
    }) + (if patch.0 == WELCOME@ {
        seq![StepView::Apply { patch: patch.1 }]
    } else {
        Seq::empty()
    })
}

/// The steps for several patches, one after another.
pub open spec fn all_steps(
    patches: Seq<(Seq<char>, Seq<u32>)>,
    there: Seq<bool>,
) -> Seq<StepView>
    decreases patches.len(),
{
    if patches.len() == 0 {
        Seq::empty()
    } else {
        all_steps(patches.drop_last(), there.drop_last()) + patch_steps(
            patches.last(),
            there.last(),
        )
    }
}

/// The steps that put factory patches in place. `there` says of each whether
/// its file exists.
pub fn install_steps(patches: &Vec<FactoryPatch>, there: &Vec<bool>) -> (r: Vec<InstallStep>)
    requires
        patches@.len() == there@.len(),
    ensures
        steps(r@) == all_steps(contents(patches@), there@),
{
    let mut list: Vec<InstallStep> = Vec::new();
    let ghost all = contents(patches@);
    let mut i: usize = 0;
    assert(steps(list@) =~= Seq::<StepView>::empty());
    while i < patches.len()
        invariant
            i <= patches@.len() == there@.len(),
            all == contents(patches@),
            steps(list@) == all_steps(all.take(i as int), there@.take(i as int)),
        decreases patches@.len() - i,
    {
        let p = &patches[i];
        let ghost before = steps(list@);
        if !there[i] {
            list.push(InstallStep::Write { file: file_name(p.name.as_str()), patch: p.patch });
        }
        if *p.name.as_str() == *WELCOME {
            list.push(InstallStep::Apply { patch: p.patch });
        }
        proof {
            assert(all.take(i + 1).drop_last() =~= all.take(i as int));
            assert(there@.take(i + 1).drop_last() =~= there@.take(i as int));
            assert(all.take(i + 1).last() == p@);
            assert(steps(list@) =~= before + patch_steps(p@, there@[i as int]));
        }
        i = i + 1;
    }
    assert(all.take(i as int) =~= all);
    assert(there@.take(i as int) =~= there@);
    list
}

/// Whether a step comes from one of the patches.
pub open spec fn stems_from(
    step: StepView,
    patches: Seq<(Seq<char>, Seq<u32>)>,
    there: Seq<bool>,
    i: int,
) -> bool {
    match step {
        StepView::Write { file, patch } => !there[i] && file == patch_file(patches[i].0) && patch
            == patches[i].1,
        StepView::Apply { patch } => patches[i].0 == WELCOME@ && patch == patches[i].1,
    }
}

/// Only patches whose files are missing are stored, so that no stored sound is
/// overwritten; and only the welcome sound is played.
pub proof fn lemma_no_patch_is_overwritten(
    patches: Seq<(Seq<char>, Seq<u32>)>,
    there: Seq<bool>,
    k: int,
)
    requires
        patches.len() == there.len(),
        0 <= k < all_steps(patches, there).len(),
    ensures
        exists|i: int|
            0 <= i < patches.len() && #[trigger] stems_from(
                all_steps(patches, there)[k],
                patches,
                there,
                i,
            ),
    decreases patches.len(),
{
    if patches.len() > 0 {
        let rest = all_steps(patches.drop_last(), there.drop_last());
        let step = all_steps(patches, there)[k];
        if k < rest.len() {
            lemma_no_patch_is_overwritten(patches.drop_last(), there.drop_last(), k);
            let i = choose|i: int|
                0 <= i < patches.drop_last().len() && #[trigger] stems_from(
                    rest[k],
                    patches.drop_last(),
                    there.drop_last(),
                    i,
                );
            assert(stems_from(step, patches, there, i));
        } else {
            assert(stems_from(step, patches, there, patches.len() - 1));
        }
    }
}

/// Every patch whose file is missing is stored, and the welcome sound is
/// played whether or not its file is there.
pub proof fn lemma_missing_patches_are_stored(
    patches: Seq<(Seq<char>, Seq<u32>)>,
    there: Seq<bool>,
    i: int,
)
    requires
        patches.len() == there.len(),
        0 <= i < patches.len(),
    ensures
        !there[i] ==> all_steps(patches, there).contains(
            StepView::Write { file: patch_file(patches[i].0), patch: patches[i].1 },
        ),
        patches[i].0 == WELCOME@ ==> all_steps(patches, there).contains(
            StepView::Apply { patch: patches[i].1 },
        ),
    decreases patches.len(),
{
    let write = StepView::Write { file: patch_file(patches[i].0), patch: patches[i].1 };
    let apply = StepView::Apply { patch: patches[i].1 };
    let init = patches.drop_last();
    let rest = all_steps(init, there.drop_last());
    let own = patch_steps(patches.last(), there.last());
    let all = all_steps(patches, there);
    if i < init.len() {
        lemma_missing_patches_are_stored(init, there.drop_last(), i);
        if !there[i] {
            let k = choose|k: int| 0 <= k < rest.len() && rest[k] == write;
            assert(all[k] == write);
        }
        if patches[i].0 == WELCOME@ {
            let k = choose|k: int| 0 <= k < rest.len() && rest[k] == apply;
            assert(all[k] == apply);
        }
    } else {
        if !there[i] {
            assert(all[rest.len() as int] == write);
        }
        if patches[i].0 == WELCOME@ {
            assert(own.last() == apply);
            assert(all[all.len() - 1] == apply);
        }
    }
}

/// A factory patch has the values of its table, the last one where a parameter is
/// listed twice, and the defaults where it is not listed.
pub proof fn lemma_changed(table: Seq<(usize, u32)>, i: int, k: int)
    requires
        0 <= i < 50,
        forall|j: int| 0 <= j < table.len() ==> (#[trigger] table[j]).0 < 50,
    ensures
        changed(table).len() == 50,
        (forall|j: int| 0 <= j < table.len() ==> (#[trigger] table[j]).0 != i) ==> changed(
            table,
        )[i] == DEFAULTS@[i],
        0 <= k < table.len() && table[k].0 == i && (forall|j: int|
            k < j < table.len() ==> (#[trigger] table[j]).0 != i) ==> changed(table)[i]
            == table[k].1,
    decreases table.len(),
{
    if table.len() > 0 {
        let init = table.drop_last();
        assert forall|j: int| 0 <= j < init.len() implies (#[trigger] init[j]).0 < 50 by {
            assert(table[j].0 < 50);
        }
        lemma_changed(init, i, k);
        assert(table[table.len() - 1].0 < 50);
        if forall|j: int| 0 <= j < table.len() ==> (#[trigger] table[j]).0 != i {
            assert(table[table.len() - 1].0 != i);
            assert forall|j: int| 0 <= j < init.len() implies (#[trigger] init[j]).0 != i by {
                assert(table[j].0 != i);
            }
        }
        if 0 <= k < table.len() - 1 && table[k].0 == i && (forall|j: int|
            k < j < table.len() ==> (#[trigger] table[j]).0 != i) {
            assert(table[table.len() - 1].0 != i);
            assert(init[k].0 == i);
            assert forall|j: int| k < j < init.len() implies (#[trigger] init[j]).0 != i by {
                assert(table[j].0 != i);
            }
        }
    }
}

/// The patches are put in place one after another: each is stored in its file if
/// that is missing, and `fat_bass` is then played.
pub proof fn lemma_steps_grow(
    patches: Seq<(Seq<char>, Seq<u32>)>,
    there: Seq<bool>,
    patch: (Seq<char>, Seq<u32>),
    is_there: bool,
)
    requires
        patches.len() == there.len(),
    ensures
        all_steps(Seq::empty(), Seq::empty()) == Seq::<StepView>::empty(),
        ({
            let before = all_steps(patches, there);
            let stored = if is_there {
                before
            } else {
                before.push(StepView::Write { file: patch.0 + ".json"@, patch: patch.1 })
            };
            all_steps(patches.push(patch), there.push(is_there)) == (if patch.0 == "fat_bass"@ {
                stored.push(StepView::Apply { patch: patch.1 })
            } else {
                stored
            })
        }),
{
    lemma_patch_files(patch.0, patch.0);
    assert(patches.push(patch).drop_last() =~= patches);
    assert(there.push(is_there).drop_last() =~= there);
    let before = all_steps(patches, there);
    let stored = if is_there {
        before
    } else {
        before.push(StepView::Write { file: patch.0 + ".json"@, patch: patch.1 })
    };
    assert(all_steps(patches.push(patch), there.push(is_there)) =~= (if patch.0 == "fat_bass"@ {
        stored.push(StepView::Apply { patch: patch.1 })
    } else {
        stored
    }));
}

/// What a patch and a step are seen as is what they hold.
pub proof fn lemma_views(list: Seq<FactoryPatch>, todo: Seq<InstallStep>, i: int)
    ensures
        contents(list).len() == list.len(),
        0 <= i < list.len() ==> contents(list)[i] == (list[i].name@, list[i].patch.values@),
        steps(todo).len() == todo.len(),
        0 <= i < todo.len() ==> match todo[i] {
            InstallStep::Write { file, patch } => steps(todo)[i] == (StepView::Write {
                file: file@,
                patch: patch.values@,
            }),
            InstallStep::Apply { patch } => steps(todo)[i] == (StepView::Apply {
                patch: patch.values@,
            }),
        },
{
}

} // verus!
