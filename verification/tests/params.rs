use chonk::factory::{
    factory_patches, install_steps, web_factory_patches, FactoryPatch, InstallStep,
};
use chonk::params::{
    find_param, AtomicF32, Params, Patch, CHORD_TYPE, DEFAULTS, MONO, PARAM_COUNT, PARAM_NAMES,
};

const EXPECTED_DEFAULTS: [(&str, f32); 35] = [
    ("osc1_wave", 0.0),
    ("osc1_detune", -7.0),
    ("osc1_level", 0.7),
    ("osc2_wave", 0.0),
    ("osc2_detune", 7.0),
    ("osc2_level", 0.7),
    ("osc2_octave", 0.0),
    ("sub_level", 0.5),
    ("noise_level", 0.0),
    ("filter_cutoff", 0.45),
    ("filter_resonance", 0.35),
    ("filter_env_amount", 0.55),
    ("filter_drive", 0.4),
    ("filter_keytrack", 0.3),
    ("amp_a", 0.005),
    ("amp_d", 0.2),
    ("amp_s", 0.7),
    ("amp_r", 0.3),
    ("fenv_a", 0.005),
    ("fenv_d", 0.25),
    ("fenv_s", 0.2),
    ("fenv_r", 0.3),
    ("lfo_rate", 2.0),
    ("lfo_to_cutoff", 0.0),
    ("lfo_to_pitch", 0.0),
    ("master_volume", 0.55),
    ("master_drive", 0.2),
    ("glide", 0.0),
    ("mono", 0.0),
    ("chord_type", 0.0),
    ("arp_enabled", 0.0),
    ("arp_pattern", 0.0),
    ("arp_rate", 6.0),
    ("arp_gate", 0.5),
    ("arp_octaves", 1.0),
];

fn value(patch: &Patch, name: &str) -> f32 {
    f32::from_bits(patch.values[find_param(name).unwrap()])
}

fn check(patches: &[FactoryPatch], name: &str, expected: &[(&str, f32)]) {
    let p = patches.iter().find(|p| p.name == name).unwrap();
    for i in 0..PARAM_COUNT {
        let listed = expected.iter().find(|e| e.0 == PARAM_NAMES[i]);
        let want = match listed {
            Some(e) => e.1,
            None => f32::from_bits(DEFAULTS[i]),
        };
        assert_eq!(f32::from_bits(p.patch.values[i]), want, "{} of {}", PARAM_NAMES[i], name);
    }
    for e in expected {
        assert!(find_param(e.0).is_some());
    }
}

#[test]
fn defaults() {
    let p = Params::default();
    for (name, v) in EXPECTED_DEFAULTS {
        assert_eq!(value(&p.to_patch(), name), v);
    }
    for i in 35..PARAM_COUNT {
        assert_eq!(f32::from_bits(p.values[i]), 0.0);
    }
    assert_eq!(Patch::default().values, p.values);
}

#[test]
fn every_name_finds_its_place() {
    for i in 0..PARAM_COUNT {
        assert_eq!(find_param(PARAM_NAMES[i]), Some(i));
    }
    assert_eq!(find_param("mono"), Some(MONO));
    assert_eq!(find_param("chord_type"), Some(CHORD_TYPE));
    assert_eq!(find_param(""), None);
    assert_eq!(find_param("Mono"), None);
    assert_eq!(find_param("mono "), None);
}

#[test]
fn setting_reads_back_and_leaves_the_rest() {
    let mut p = Params::default();
    assert!(p.set("glide", 0.25f32.to_bits()));
    for i in 0..PARAM_COUNT {
        if PARAM_NAMES[i] == "glide" {
            assert_eq!(p.values[i], 0.25f32.to_bits());
        } else {
            assert_eq!(p.values[i], DEFAULTS[i]);
        }
    }
    let before = p;
    assert!(!p.set("no_such_param", 1));
    assert_eq!(p, before);
}

#[test]
fn patches_go_round() {
    let mut p = Params::default();
    p.set("osc1_level", 0.125f32.to_bits());
    let patch = p.to_patch();
    let mut q = Params::default();
    q.apply_patch(&patch);
    assert_eq!(q, p);
}

#[test]
fn shared_cells_hold_their_bits() {
    let c = AtomicF32::new(0.5f32.to_bits());
    assert_eq!(c.load(), 0.5f32.to_bits());
    c.store(0.75f32.to_bits());
    assert_eq!(c.load(), 0.75f32.to_bits());
}

#[test]
fn factory_names() {
    let names: Vec<String> = factory_patches().into_iter().map(|p| p.name).collect();
    assert_eq!(
        names,
        ["init", "fat_bass", "acid_lead", "super_pad", "pluck", "crunch_lead", "arp_house"]
    );
    let web: Vec<String> = web_factory_patches().into_iter().map(|p| p.name).collect();
    assert_eq!(web, ["init", "fat_bass", "acid_lead", "super_pad", "pluck"]);
}

#[test]
fn factory_values() {
    let all = factory_patches();
    check(
        &all,
        "init",
        &[
            ("osc1_level", 0.8),
            ("osc2_level", 0.0),
            ("sub_level", 0.0),
            ("filter_cutoff", 0.5),
            ("filter_resonance", 0.1),
            ("filter_env_amount", 0.0),
            ("filter_drive", 0.0),
            ("filter_keytrack", 0.0),
            ("amp_s", 0.8),
            ("amp_r", 0.2),
            ("fenv_s", 0.0),
            ("fenv_r", 0.2),
            ("master_volume", 0.5),
            ("master_drive", 0.0),
        ],
    );
    check(
        &all,
        "fat_bass",
        &[
            ("osc1_detune", -9.0),
            ("osc2_detune", 9.0),
            ("sub_level", 0.8),
            ("filter_cutoff", 0.28),
            ("filter_resonance", 0.45),
            ("filter_env_amount", 0.55),
            ("filter_drive", 0.6),
            ("filter_keytrack", 0.25),
            ("amp_a", 0.002),
            ("amp_d", 0.4),
            ("amp_s", 0.55),
            ("amp_r", 0.15),
            ("fenv_a", 0.002),
            ("fenv_d", 0.18),
            ("fenv_s", 0.1),
            ("fenv_r", 0.15),
            ("master_volume", 0.6),
            ("master_drive", 0.35),
            ("mono", 1.0),
        ],
    );
    check(
        &all,
        "acid_lead",
        &[
            ("osc1_detune", 0.0),
            ("osc1_level", 1.0),
            ("osc2_wave", 1.0),
            ("osc2_detune", 0.0),
            ("osc2_level", 0.0),
            ("sub_level", 0.0),
            ("filter_cutoff", 0.32),
            ("filter_resonance", 0.82),
            ("filter_env_amount", 0.65),
            ("filter_drive", 0.55),
            ("filter_keytrack", 0.4),
            ("amp_a", 0.002),
            ("amp_d", 0.35),
            ("amp_s", 0.0),
            ("amp_r", 0.08),
            ("fenv_a", 0.002),
            ("fenv_d", 0.28),
            ("fenv_s", 0.0),
            ("fenv_r", 0.18),
            ("lfo_rate", 4.0),
            ("master_volume", 0.55),
            ("master_drive", 0.5),
            ("glide", 0.06),
            ("mono", 1.0),
        ],
    );
    check(
        &all,
        "super_pad",
        &[
            ("osc1_detune", -11.0),
            ("osc1_level", 0.55),
            ("osc2_detune", 12.0),
            ("osc2_level", 0.55),
            ("sub_level", 0.25),
            ("filter_cutoff", 0.55),
            ("filter_resonance", 0.25),
            ("filter_env_amount", 0.2),
            ("filter_drive", 0.2),
            ("filter_keytrack", 0.4),
            ("amp_a", 0.6),
            ("amp_d", 0.5),
            ("amp_s", 0.75),
            ("amp_r", 1.2),
            ("fenv_a", 0.7),
            ("fenv_d", 0.6),
            ("fenv_s", 0.4),
            ("fenv_r", 1.0),
            ("lfo_rate", 0.3),
            ("lfo_to_cutoff", 0.15),
            ("master_volume", 0.45),
            ("master_drive", 0.1),
        ],
    );
    check(
        &all,
        "pluck",
        &[
            ("osc1_level", 0.7),
            ("osc1_detune", 0.0),
            ("osc2_wave", 2.0),
            ("osc2_detune", 0.0),
            ("osc2_level", 0.4),
            ("osc2_octave", 1.0),
            ("sub_level", 0.3),
            ("filter_cutoff", 0.4),
            ("filter_resonance", 0.4),
            ("filter_env_amount", 0.55),
            ("filter_drive", 0.3),
            ("filter_keytrack", 0.5),
            ("amp_a", 0.002),
            ("amp_d", 0.18),
            ("amp_s", 0.0),
            ("amp_r", 0.18),
            ("fenv_a", 0.002),
            ("fenv_d", 0.12),
            ("fenv_s", 0.0),
            ("fenv_r", 0.18),
            ("master_volume", 0.55),
            ("master_drive", 0.2),
        ],
    );
    check(
        &all,
        "crunch_lead",
        &[
            ("osc1_detune", -8.0),
            ("osc2_detune", 8.0),
            ("sub_level", 0.4),
            ("filter_cutoff", 0.55),
            ("filter_resonance", 0.3),
            ("filter_env_amount", 0.4),
            ("filter_drive", 0.3),
            ("filter_keytrack", 0.4),
            ("amp_a", 0.003),
            ("amp_d", 0.3),
            ("amp_s", 0.7),
            ("amp_r", 0.2),
            ("fenv_a", 0.003),
            ("fenv_d", 0.2),
            ("fenv_s", 0.2),
            ("fenv_r", 0.2),
            ("master_volume", 0.45),
            ("master_drive", 0.1),
            ("dist_enabled", 1.0),
            ("dist_type", 0.0),
            ("dist_drive", 0.55),
            ("dist_tone", 0.55),
            ("dist_mix", 0.85),
            ("comp_enabled", 1.0),
            ("comp_xover_low", 220.0),
            ("comp_xover_high", 2200.0),
            ("comp_threshold", -22.0),
            ("comp_ratio", 5.0),
            ("comp_attack", 0.004),
            ("comp_release", 0.12),
            ("comp_gain_low", 2.0),
            ("comp_gain_mid", 0.0),
            ("comp_gain_high", 1.5),
        ],
    );
    check(
        &all,
        "arp_house",
        &[
            ("osc1_detune", -5.0),
            ("osc2_detune", 5.0),
            ("sub_level", 0.3),
            ("filter_cutoff", 0.45),
            ("filter_resonance", 0.4),
            ("filter_env_amount", 0.45),
            ("filter_drive", 0.3),
            ("filter_keytrack", 0.5),
            ("amp_a", 0.002),
            ("amp_d", 0.15),
            ("amp_s", 0.0),
            ("amp_r", 0.1),
            ("fenv_a", 0.002),
            ("fenv_d", 0.12),
            ("fenv_s", 0.0),
            ("fenv_r", 0.1),
            ("master_volume", 0.5),
            ("master_drive", 0.2),
            ("chord_type", 3.0),
            ("arp_enabled", 1.0),
            ("arp_pattern", 0.0),
            ("arp_rate", 8.0),
            ("arp_gate", 0.45),
            ("arp_octaves", 2.0),
        ],
    );
}

#[test]
fn web_factory_values() {
    let all = web_factory_patches();
    check(
        &all,
        "init",
        &[
            ("osc1_wave", 0.0),
            ("osc1_detune", 0.0),
            ("osc1_level", 0.8),
            ("osc2_wave", 0.0),
            ("osc2_detune", 0.0),
            ("osc2_level", 0.0),
            ("osc2_octave", 0.0),
            ("sub_level", 0.0),
            ("noise_level", 0.0),
            ("filter_cutoff", 0.5),
            ("filter_resonance", 0.1),
            ("filter_env_amount", 0.0),
            ("filter_drive", 0.0),
            ("filter_keytrack", 0.0),
            ("amp_a", 0.005),
            ("amp_d", 0.2),
            ("amp_s", 0.8),
            ("amp_r", 0.2),
            ("fenv_a", 0.005),
            ("fenv_d", 0.2),
            ("fenv_s", 0.0),
            ("fenv_r", 0.2),
            ("lfo_rate", 2.0),
            ("lfo_to_cutoff", 0.0),
            ("lfo_to_pitch", 0.0),
            ("master_volume", 0.5),
            ("master_drive", 0.0),
            ("glide", 0.0),
            ("mono", 0.0),
        ],
    );
    check(
        &all,
        "fat_bass",
        &[
            ("osc1_wave", 0.0),
            ("osc1_detune", -9.0),
            ("osc1_level", 0.7),
            ("osc2_wave", 0.0),
            ("osc2_detune", 9.0),
            ("osc2_level", 0.7),
            ("osc2_octave", 0.0),
            ("sub_level", 0.8),
            ("noise_level", 0.0),
            ("filter_cutoff", 0.28),
            ("filter_resonance", 0.45),
            ("filter_env_amount", 0.55),
            ("filter_drive", 0.6),
            ("filter_keytrack", 0.25),
            ("amp_a", 0.002),
            ("amp_d", 0.4),
            ("amp_s", 0.55),
            ("amp_r", 0.15),
            ("fenv_a", 0.002),
            ("fenv_d", 0.18),
            ("fenv_s", 0.1),
            ("fenv_r", 0.15),
            ("lfo_rate", 2.0),
            ("lfo_to_cutoff", 0.0),
            ("lfo_to_pitch", 0.0),
            ("master_volume", 0.6),
            ("master_drive", 0.35),
            ("glide", 0.0),
            ("mono", 1.0),
        ],
    );
    check(
        &all,
        "acid_lead",
        &[
            ("osc1_wave", 0.0),
            ("osc1_detune", 0.0),
            ("osc1_level", 1.0),
            ("osc2_wave", 1.0),
            ("osc2_detune", 0.0),
            ("osc2_level", 0.0),
            ("osc2_octave", 0.0),
            ("sub_level", 0.0),
            ("noise_level", 0.0),
            ("filter_cutoff", 0.32),
            ("filter_resonance", 0.82),
            ("filter_env_amount", 0.65),
            ("filter_drive", 0.55),
            ("filter_keytrack", 0.4),
            ("amp_a", 0.002),
            ("amp_d", 0.35),
            ("amp_s", 0.0),
            ("amp_r", 0.08),
            ("fenv_a", 0.002),
            ("fenv_d", 0.28),
            ("fenv_s", 0.0),
            ("fenv_r", 0.18),
            ("lfo_rate", 4.0),
            ("lfo_to_cutoff", 0.0),
            ("lfo_to_pitch", 0.0),
            ("master_volume", 0.55),
            ("master_drive", 0.5),
            ("glide", 0.06),
            ("mono", 1.0),
        ],
    );
    check(
        &all,
        "super_pad",
        &[
            ("osc1_wave", 0.0),
            ("osc1_detune", -11.0),
            ("osc1_level", 0.55),
            ("osc2_wave", 0.0),
            ("osc2_detune", 12.0),
            ("osc2_level", 0.55),
            ("osc2_octave", 0.0),
            ("sub_level", 0.25),
            ("noise_level", 0.0),
            ("filter_cutoff", 0.55),
            ("filter_resonance", 0.25),
            ("filter_env_amount", 0.2),
            ("filter_drive", 0.2),
            ("filter_keytrack", 0.4),
            ("amp_a", 0.6),
            ("amp_d", 0.5),
            ("amp_s", 0.75),
            ("amp_r", 1.2),
            ("fenv_a", 0.7),
            ("fenv_d", 0.6),
            ("fenv_s", 0.4),
            ("fenv_r", 1.0),
            ("lfo_rate", 0.3),
            ("lfo_to_cutoff", 0.15),
            ("lfo_to_pitch", 0.0),
            ("master_volume", 0.45),
            ("master_drive", 0.1),
            ("glide", 0.0),
            ("mono", 0.0),
        ],
    );
    check(
        &all,
        "pluck",
        &[
            ("osc1_wave", 0.0),
            ("osc1_detune", 0.0),
            ("osc1_level", 0.7),
            ("osc2_wave", 2.0),
            ("osc2_detune", 0.0),
            ("osc2_level", 0.4),
            ("osc2_octave", 1.0),
            ("sub_level", 0.3),
            ("noise_level", 0.0),
            ("filter_cutoff", 0.4),
            ("filter_resonance", 0.4),
            ("filter_env_amount", 0.55),
            ("filter_drive", 0.3),
            ("filter_keytrack", 0.5),
            ("amp_a", 0.002),
            ("amp_d", 0.18),
            ("amp_s", 0.0),
            ("amp_r", 0.18),
            ("fenv_a", 0.002),
            ("fenv_d", 0.12),
            ("fenv_s", 0.0),
            ("fenv_r", 0.18),
            ("lfo_rate", 2.0),
            ("lfo_to_cutoff", 0.0),
            ("lfo_to_pitch", 0.0),
            ("master_volume", 0.55),
            ("master_drive", 0.2),
            ("glide", 0.0),
            ("mono", 0.0),
        ],
    );
}

#[test]
fn missing_patches_are_stored_and_the_welcome_sound_plays() {
    let all = factory_patches();
    let mut there = vec![true; all.len()];
    there[0] = false;
    there[1] = false;
    let steps = install_steps(&all, &there);
    assert_eq!(steps.len(), 3);
    match &steps[0] {
        InstallStep::Write { file, patch } => {
            assert_eq!(file, "init.json");
            assert_eq!(*patch, all[0].patch);
        }
        _ => panic!(),
    }
    match &steps[1] {
        InstallStep::Write { file, patch } => {
            assert_eq!(file, "fat_bass.json");
            assert_eq!(*patch, all[1].patch);
        }
        _ => panic!(),
    }
    match &steps[2] {
        InstallStep::Apply { patch } => assert_eq!(*patch, all[1].patch),
        _ => panic!(),
    }
    let steps = install_steps(&all, &vec![true; all.len()]);
    assert_eq!(steps.len(), 1);
    assert!(matches!(steps[0], InstallStep::Apply { .. }));
}
