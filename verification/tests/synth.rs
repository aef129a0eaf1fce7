use chonk::params::Params;
use chonk::queue::{note_queue, offer};
use chonk::synth::{
    glides, shape, wave, Adsr, Course, Engine, NoteEvent, Osc, Shape, Stage, Voice, Wave,
    ATTACK_TARGET, DECAY_DISTANCE, MIN_GLIDE, MIN_VELOCITY, NUM_VOICES, RELEASE_FLOOR,
};

fn b(x: f32) -> u32 {
    x.to_bits()
}

fn on(note: u8) -> NoteEvent {
    NoteEvent::On { note, velocity: b(0.8) }
}

fn mono() -> Params {
    let mut p = Params::default();
    p.set("mono", b(1.0));
    p
}

#[test]
fn level_constants() {
    assert_eq!(f32::from_bits(MIN_VELOCITY), 0.05);
    assert_eq!(f32::from_bits(ATTACK_TARGET), 1.2);
    assert_eq!(f32::from_bits(DECAY_DISTANCE), 0.001);
    assert_eq!(f32::from_bits(RELEASE_FLOOR), 0.0005);
    assert_eq!(f32::from_bits(MIN_GLIDE), 0.0005);
}

#[test]
fn selections() {
    assert_eq!(wave(b(0.9)), Wave::Saw);
    assert_eq!(wave(b(1.0)), Wave::Square);
    assert_eq!(wave(b(2.5)), Wave::Triangle);
    assert_eq!(wave(b(3.0)), Wave::Sine);
    assert_eq!(wave(b(4.0)), Wave::Noise);
    assert_eq!(wave(b(-1.0)), Wave::Noise);
    assert_eq!(shape(b(0.4)), Shape::Soft);
    assert_eq!(shape(b(0.6)), Shape::Hard);
    assert_eq!(shape(b(2.0)), Shape::Fold);
    assert_eq!(shape(b(3.0)), Shape::Crush);
    assert_eq!(shape(b(-1.0)), Shape::Crush);
    assert!(!glides(b(0.0005)));
    assert!(glides(b(0.06)));
}

#[test]
fn envelope_runs_through_its_stages() {
    let mut e = Adsr::new();
    assert!(!e.active());
    e.gate_off();
    assert_eq!(e.stage, Stage::Idle);
    assert_eq!(e.course(b(1.0), b(2.0), b(0.5), b(3.0)), None);
    e.gate_on();
    assert_eq!(
        e.course(b(1.0), b(2.0), b(0.5), b(3.0)),
        Some(Course { time: b(1.0), target: b(1.2) })
    );
    assert_eq!(e.tick(b(0.4), b(0.5), b(0.1)), b(0.4));
    assert_eq!(e.stage, Stage::Attack);
    assert_eq!(e.tick(b(1.01), b(0.5), b(0.51)), b(1.0));
    assert_eq!(e.stage, Stage::Decay);
    assert_eq!(
        e.course(b(1.0), b(2.0), b(0.5), b(3.0)),
        Some(Course { time: b(2.0), target: b(0.5) })
    );
    assert_eq!(e.tick(b(0.6), b(0.5), b(0.1)), b(0.6));
    assert_eq!(e.tick(b(0.5005), b(0.5), b(0.0005)), b(0.5));
    assert_eq!(e.stage, Stage::Sustain);
    assert_eq!(e.tick(b(0.0), b(0.3), b(0.3)), b(0.3));
    assert_eq!(e.stage, Stage::Sustain);
    e.gate_off();
    assert_eq!(
        e.course(b(1.0), b(2.0), b(0.5), b(3.0)),
        Some(Course { time: b(3.0), target: b(0.0) })
    );
    assert_eq!(e.tick(b(0.1), b(0.3), b(0.2)), b(0.1));
    assert_eq!(e.tick(b(0.0004), b(0.3), b(0.3)), b(0.0));
    assert_eq!(e.stage, Stage::Idle);
    assert_eq!(e.tick(b(0.7), b(0.3), b(0.4)), b(0.0));
    e.gate_on();
    assert_eq!(e.tick(f32::NAN.to_bits(), b(0.3), b(0.3)), f32::NAN.to_bits());
    assert_eq!(e.stage, Stage::Attack);
}

#[test]
fn noise_seeds() {
    assert_eq!(Osc::new(0).rng, 1);
    assert_eq!(Osc::new(1).rng, 2654435761);
    let mut o = Osc::new(0);
    assert_eq!(o.noise(), 270369);
    let v = Voice::new(0xdeadbeef);
    assert_eq!(v.osc1, Osc::new(0xdeadbeef));
    assert_eq!(v.osc2, Osc::new(0xdeadbeef ^ 0xa5a5));
    assert_eq!(v.sub, Osc::new(0xdeadbeef ^ 0x5a5a));
    assert_eq!(v.noise, Osc::new(0xdeadbeef ^ 0xdead));
    let e = Engine::new();
    assert_eq!(e.voices.len(), NUM_VOICES);
    assert_eq!(e.voices[3], Voice::new(0xdeadbeef ^ (3 * 7919)));
}

#[test]
fn voices_are_shared_out() {
    let p = Params::default();
    let mut e = Engine::new();
    for n in 0..8u8 {
        e.handle(&p, on(60 + n));
        e.end_frame();
    }
    for n in 0..8u8 {
        let v = &e.voices[n as usize];
        assert_eq!(v.note, 60 + n);
        assert_eq!(v.age, n as u64);
        assert_eq!(v.jump, Some(60 + n));
        assert!(v.gate && v.active());
    }
    // The same note again takes the voice that plays it.
    e.handle(&p, on(60));
    assert_eq!(e.voices[0].age, 8);
    e.end_frame();
    // A ninth note takes the voice that was started longest ago.
    e.handle(&p, on(80));
    assert_eq!(e.voices[1].note, 80);
    assert_eq!(e.voices[1].jump, Some(61));
    // A released voice still sounds, so the next oldest one goes.
    e.handle(&p, NoteEvent::Off { note: 65 });
    assert_eq!(e.voices[5].amp_env.stage, Stage::Release);
    e.handle(&p, on(81));
    assert_eq!(e.voices[2].note, 81);
    // A silent voice comes first.
    e.voices[7].amp_env.stage = Stage::Idle;
    e.handle(&p, on(82));
    assert_eq!(e.voices[7].note, 82);
    assert_eq!(e.voices[7].jump, Some(82));
}

#[test]
fn releasing_stops_every_voice_of_the_note() {
    let p = Params::default();
    let mut e = Engine::new();
    e.handle(&p, on(60));
    e.handle(&p, on(62));
    e.handle(&p, NoteEvent::Off { note: 60 });
    assert!(!e.voices[0].gate);
    assert!(e.voices[1].gate);
    e.handle(&p, NoteEvent::AllOff);
    for v in &e.voices {
        assert!(!v.gate);
        assert!(matches!(v.amp_env.stage, Stage::Idle | Stage::Release));
    }
}

#[test]
fn one_voice_slides() {
    let p = mono();
    let mut e = Engine::new();
    e.handle(&p, on(60));
    assert_eq!(e.voices[0].jump, Some(60));
    assert_eq!(e.voices[0].amp_env.stage, Stage::Attack);
    e.voices[0].jump = None;
    e.voices[0].amp_env.stage = Stage::Sustain;
    e.handle(&p, on(64));
    assert_eq!(e.voices[0].note, 64);
    assert_eq!(e.voices[0].jump, None);
    assert_eq!(e.voices[0].amp_env.stage, Stage::Sustain);
    // Releasing a note that was taken over does nothing.
    e.handle(&p, NoteEvent::Off { note: 60 });
    assert!(e.voices[0].gate);
    e.handle(&p, NoteEvent::Off { note: 64 });
    assert!(!e.voices[0].gate);
    e.handle(&p, on(65));
    assert_eq!(e.voices[0].jump, Some(65));
    assert_eq!(e.voices[0].amp_env.stage, Stage::Attack);
    for v in &e.voices[1..] {
        assert!(!v.active());
    }
}

#[test]
fn soft_notes_are_audible() {
    let p = Params::default();
    let mut e = Engine::new();
    e.handle(&p, NoteEvent::On { note: 60, velocity: b(0.01) });
    assert_eq!(e.voices[0].velocity, b(0.05));
    e.handle(&p, NoteEvent::On { note: 61, velocity: f32::NAN.to_bits() });
    assert_eq!(e.voices[1].velocity, b(0.05));
    e.handle(&mono(), NoteEvent::On { note: 62, velocity: b(0.9) });
    assert_eq!(e.voices[0].velocity, b(0.9));
}

#[test]
fn waiting_events_are_handled_in_order() {
    let p = Params::default();
    let mut q = note_queue();
    offer(&mut q, on(60));
    offer(&mut q, on(61));
    offer(&mut q, NoteEvent::Off { note: 60 });
    let mut e = Engine::new();
    e.handle_queued(&p, &mut q);
    assert!(q.is_empty());
    assert!(!e.voices[0].gate);
    assert!(e.voices[1].gate);
    assert_eq!(e.tick_counter, 0);
    e.tick_counter = u64::MAX;
    e.end_frame();
    assert_eq!(e.tick_counter, 0);
}

#[test]
fn envelope_levels_stay_in_range() {
    let sustain = 0.4f32;
    let mut env = Adsr::new();
    env.gate_on();
    let mut ended = Vec::new();
    for i in 0..4000 {
        if i == 2000 {
            env.gate_off();
        }
        let before = (env.stage, f32::from_bits(env.value));
        let times = (b(0.01), b(0.02), b(sustain), b(0.03));
        let mut moved = before.1;
        if let Some(course) = env.course(times.0, times.1, times.2, times.3) {
            moved += 0.05 * (f32::from_bits(course.target) - moved);
        }
        let level = f32::from_bits(env.tick(b(moved), b(sustain), b((moved - sustain).abs())));
        assert!((0.0..=1.0).contains(&level));
        if env.stage != before.0 {
            ended.push((env.stage, level));
        } else if before.0 == Stage::Attack {
            assert!(level >= before.1 && level < 1.0);
        } else if before.0 == Stage::Release {
            assert!(level <= before.1 && level > 0.0);
        }
    }
    assert_eq!(
        ended,
        [(Stage::Decay, 1.0), (Stage::Sustain, sustain), (Stage::Idle, 0.0)]
    );
}

#[test]
fn one_sample_keeps_the_level_in_range() {
    let levels = [0.0f32, 1e-38, 9.3e-10, 0.0004, 0.3333333, 0.5, 0.99999994, 1.0];
    for value in levels {
        for sustain in levels {
            for time in [0.0f32, 0.005, 0.2, 1e9, f32::INFINITY, f32::NAN] {
                for sr in [1.0f32, 44100.0] {
                    for stage in [Stage::Attack, Stage::Decay, Stage::Release] {
                        let mut env = Adsr { stage, value: b(value) };
                        let course = env.course(b(time), b(time), b(sustain), b(time)).unwrap();
                        let left = (-1.0 / (f32::from_bits(course.time).max(0.0005) * sr)).exp();
                        assert!((0.0..=1.0).contains(&left));
                        let moved =
                            value + (1.0 - left) * (f32::from_bits(course.target) - value);
                        let distance = (moved - sustain).abs();
                        let level = f32::from_bits(env.tick(b(moved), b(sustain), b(distance)));
                        assert!((0.0..=1.0).contains(&level));
                        match stage {
                            Stage::Attack => {
                                assert!(level >= value);
                                assert_eq!(env.stage == Stage::Decay, level == 1.0);
                            }
                            Stage::Decay => {
                                assert_eq!(env.stage == Stage::Sustain, level == sustain);
                            }
                            _ => {
                                assert!(level <= value);
                                assert_eq!(env.stage == Stage::Idle, level == 0.0);
                            }
                        }
                    }
                }
            }
        }
    }
}
