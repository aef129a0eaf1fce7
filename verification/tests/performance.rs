use chonk::arpeggio::{PATTERN_AS_PLAYED, PATTERN_DOWN, PATTERN_RANDOM, PATTERN_UP_DOWN};
use chonk::chords::{build_pool, expand_chord, selected_chord, sort_notes, CHORDS};
use chonk::noise::xorshift;
use chonk::params::Params;
use chonk::performance::{
    ArpAction, ArpEvent, ArpStep, Performer, ARP_IDLE_MS, ARP_VELOCITY, MAX_GATE, MIN_GATE,
    MIN_RATE,
};
use chonk::queue::{note_queue, offer, offer_all, QUEUE_CAPACITY};
use chonk::synth::{Engine, NoteEvent};
use crossbeam_queue::ArrayQueue;

fn with(settings: &[(&str, f32)]) -> Params {
    let mut p = Params::default();
    for (name, v) in settings {
        assert!(p.set(name, v.to_bits()));
    }
    p
}

fn drain(queue: &ArrayQueue<NoteEvent>) -> Vec<NoteEvent> {
    let mut all = Vec::new();
    while let Some(e) = queue.pop() {
        all.push(e);
    }
    all
}

fn on(note: u8) -> NoteEvent {
    NoteEvent::On { note, velocity: 0.5f32.to_bits() }
}

fn off(note: u8) -> NoteEvent {
    NoteEvent::Off { note }
}

#[test]
fn queue_keeps_order_and_drops_what_does_not_fit() {
    let mut q = note_queue();
    assert_eq!(q.capacity(), QUEUE_CAPACITY);
    offer(&mut q, on(1));
    offer_all(&mut q, &vec![on(2), off(3), NoteEvent::AllOff]);
    assert_eq!(drain(&q), [on(1), on(2), off(3), NoteEvent::AllOff]);
    for i in 0..600usize {
        offer(&mut q, off((i % 100) as u8));
    }
    assert_eq!(q.len(), 512);
    let all = drain(&q);
    assert_eq!(all[511], off(11));
    let mut small: ArrayQueue<NoteEvent> = ArrayQueue::new(2);
    offer_all(&mut small, &vec![on(1), on(2), on(3)]);
    assert_eq!(drain(&small), [on(1), on(2)]);
}

#[test]
fn chord_selection() {
    for (value, name) in [
        (0.0, "Off"),
        (0.4, "Off"),
        (0.5, "Oct"),
        (3.0, "Maj"),
        (13.4, "Min9"),
        (14.0, "Min9"),
        (1e9, "Min9"),
        (-3.0, "Off"),
        (f32::NAN, "Off"),
    ] {
        let p = with(&[("chord_type", value)]);
        assert_eq!(CHORDS[selected_chord(&p)].0, name, "{}", value);
    }
}

#[test]
fn chord_expansion() {
    assert_eq!(expand_chord(&with(&[]), 60), [60]);
    assert_eq!(expand_chord(&with(&[("chord_type", 1.0)]), 60), [60, 72]);
    assert_eq!(expand_chord(&with(&[("chord_type", 2.0)]), 60), [60, 67]);
    assert_eq!(expand_chord(&with(&[("chord_type", 3.0)]), 60), [60, 64, 67]);
    assert_eq!(expand_chord(&with(&[("chord_type", 4.0)]), 60), [60, 63, 67]);
    assert_eq!(expand_chord(&with(&[("chord_type", 5.0)]), 60), [60, 62, 67]);
    assert_eq!(expand_chord(&with(&[("chord_type", 6.0)]), 60), [60, 65, 67]);
    assert_eq!(expand_chord(&with(&[("chord_type", 7.0)]), 60), [60, 64, 67, 71]);
    assert_eq!(expand_chord(&with(&[("chord_type", 8.0)]), 60), [60, 63, 67, 70]);
    assert_eq!(expand_chord(&with(&[("chord_type", 9.0)]), 60), [60, 64, 67, 70]);
    assert_eq!(expand_chord(&with(&[("chord_type", 10.0)]), 60), [60, 63, 66]);
    assert_eq!(expand_chord(&with(&[("chord_type", 11.0)]), 60), [60, 64, 68]);
    assert_eq!(expand_chord(&with(&[("chord_type", 12.0)]), 60), [60, 64, 67, 74]);
    assert_eq!(expand_chord(&with(&[("chord_type", 13.0)]), 60), [60, 63, 67, 70, 74]);
    assert_eq!(expand_chord(&with(&[("chord_type", 13.0)]), 120), [120, 123, 127]);
    assert_eq!(expand_chord(&with(&[("chord_type", 3.0)]), 127), [127]);
    assert!(expand_chord(&with(&[("chord_type", 3.0)]), 128).is_empty());
}

#[test]
fn pool_takes_every_note_once() {
    let p = with(&[("chord_type", 3.0)]);
    assert_eq!(build_pool(&p, &vec![64, 60, 67]), [64, 68, 71, 60, 67, 74]);
    assert_eq!(sort_notes(&vec![64, 68, 71, 60, 67, 74]), [60, 64, 67, 68, 71, 74]);
    assert_eq!(sort_notes(&vec![5, 3, 5, 1]), [1, 3, 5, 5]);
}

#[test]
fn keys_start_and_end_chords() {
    let p = with(&[("chord_type", 3.0)]);
    let mut q = note_queue();
    let mut perf = Performer::new();
    assert!(!perf.note_on(&p, &mut q, 60, 0.5f32.to_bits()));
    assert_eq!(drain(&q), [on(60), on(64), on(67)]);
    // Another chord is selected before the key is released.
    let other = with(&[("chord_type", 4.0)]);
    perf.note_off(&other, &mut q, 60);
    assert_eq!(drain(&q), [off(60), off(64), off(67)]);
    perf.note_off(&other, &mut q, 60);
    assert!(drain(&q).is_empty());
}

#[test]
fn all_off_stops_everything() {
    let p = with(&[]);
    let mut q = note_queue();
    let mut perf = Performer::new();
    perf.note_on(&p, &mut q, 60, 0);
    perf.all_off(&mut q);
    perf.note_off(&p, &mut q, 60);
    assert_eq!(drain(&q).last(), Some(&NoteEvent::AllOff));
}

fn arp(pattern: i32, octaves: f32, keys: &[u8], steps: usize) -> Vec<u8> {
    let p = with(&[
        ("arp_enabled", 1.0),
        ("arp_pattern", pattern as f32),
        ("arp_octaves", octaves),
    ]);
    let mut q = note_queue();
    let mut perf = Performer::new();
    for k in keys {
        assert!(perf.note_on(&p, &mut q, *k, 0));
    }
    assert!(drain(&q).is_empty());
    let mut notes = Vec::new();
    for _ in 0..steps {
        let step = perf.step_arp(&p, &mut q).unwrap();
        assert_eq!(drain(&q), [NoteEvent::On { note: step.note, velocity: ARP_VELOCITY }]);
        perf.end_gate(&mut q);
        assert_eq!(drain(&q), [off(step.note)]);
        notes.push(step.note);
    }
    notes
}

#[test]
fn patterns() {
    let keys = [64, 60, 67];
    assert_eq!(arp(0, 1.0, &keys, 6), [60, 64, 67, 60, 64, 67]);
    assert_eq!(arp(PATTERN_DOWN, 1.0, &keys, 6), [67, 64, 60, 67, 64, 60]);
    assert_eq!(arp(PATTERN_UP_DOWN, 1.0, &keys, 6), [60, 64, 67, 64, 60, 64]);
    assert_eq!(arp(PATTERN_AS_PLAYED, 1.0, &keys, 6), [64, 60, 67, 64, 60, 67]);
    assert_eq!(arp(0, 2.0, &keys, 6), [60, 64, 67, 72, 76, 79]);
    assert_eq!(arp(9, 0.0, &keys, 3), [60, 64, 67]);
    assert_eq!(arp(0, 9.0, &[100], 6), [100, 112, 124, 127, 100, 112]);
    assert_eq!(arp(PATTERN_UP_DOWN, 1.0, &[60], 3), [60, 60, 60]);
    assert_eq!(arp(PATTERN_UP_DOWN, 1.0, &[60, 62], 3), [60, 62, 60]);
}

#[test]
fn random_pattern_follows_the_register() {
    let keys = [60, 64, 67];
    let mut r: u32 = 0x1357bdf;
    let mut expected = Vec::new();
    for _ in 0..3 {
        r ^= r << 13;
        r ^= r >> 17;
        r ^= r << 5;
        expected.push(keys[(r % 3) as usize]);
    }
    assert_eq!(arp(PATTERN_RANDOM, 1.0, &keys, 3), expected);
    assert_eq!(xorshift(1), 270369);
    assert_ne!(xorshift(0xffff_ffff), 0);
}

#[test]
fn a_step_ends_the_note_that_still_sounds() {
    let p = with(&[("arp_enabled", 1.0)]);
    let mut q = note_queue();
    let mut perf = Performer::new();
    perf.note_on(&p, &mut q, 60, 0);
    perf.note_on(&p, &mut q, 62, 0);
    perf.step_arp(&p, &mut q);
    drain(&q);
    perf.step_arp(&p, &mut q);
    assert_eq!(
        drain(&q),
        [off(60), NoteEvent::On { note: 62, velocity: ARP_VELOCITY }]
    );
}

#[test]
fn releasing_the_last_arp_key_ends_its_note() {
    let p = with(&[("arp_enabled", 1.0)]);
    let mut q = note_queue();
    let mut perf = Performer::new();
    perf.note_on(&p, &mut q, 60, 0);
    perf.note_on(&p, &mut q, 60, 0);
    perf.note_on(&p, &mut q, 62, 0);
    perf.step_arp(&p, &mut q);
    drain(&q);
    perf.note_off(&p, &mut q, 60);
    assert!(drain(&q).is_empty());
    perf.note_off(&p, &mut q, 62);
    assert_eq!(drain(&q), [off(60)]);
    assert_eq!(perf.step_arp(&p, &mut q), None);
    assert!(drain(&q).is_empty());
}

#[test]
fn switching_the_arp_off_ends_its_note() {
    let p = with(&[("arp_enabled", 1.0)]);
    let mut q = note_queue();
    let mut perf = Performer::new();
    perf.note_on(&p, &mut q, 60, 0);
    perf.step_arp(&p, &mut q);
    drain(&q);
    assert_eq!(perf.step_arp(&with(&[]), &mut q), None);
    assert_eq!(drain(&q), [off(60)]);
}

#[test]
fn arp_waits_when_no_key_has_a_note() {
    let p = with(&[("arp_enabled", 1.0)]);
    let mut q = note_queue();
    let mut perf = Performer::new();
    perf.note_on(&p, &mut q, 200, 0);
    assert_eq!(perf.step_arp(&p, &mut q), None);
    assert!(drain(&q).is_empty());
}

#[test]
fn arp_timing_is_bounded() {
    let mut q = note_queue();
    for (rate, gate, want_rate, want_gate) in [
        (6.0, 0.5, 6.0, 0.5),
        (0.0, 0.0, 0.1, 0.05),
        (f32::NAN, 1.0, 0.1, 0.95),
    ] {
        let p = with(&[("arp_enabled", 1.0), ("arp_rate", rate), ("arp_gate", gate)]);
        let mut perf = Performer::new();
        perf.note_on(&p, &mut q, 60, 0);
        let step: ArpStep = perf.step_arp(&p, &mut q).unwrap();
        assert_eq!(f32::from_bits(step.rate), want_rate);
        assert_eq!(f32::from_bits(step.gate), want_gate);
    }
    assert_eq!(f32::from_bits(MIN_RATE), 0.1);
    assert_eq!(f32::from_bits(MIN_GATE), 0.05);
    assert_eq!(f32::from_bits(MAX_GATE), 0.95);
    assert_eq!(f32::from_bits(ARP_VELOCITY), 0.85);
}

#[test]
fn a_released_chord_is_held_by_no_voice() {
    let mut p = with(&[("chord_type", 7.0)]);
    let mut q = note_queue();
    let mut perf = Performer::new();
    let mut engine = Engine::new();
    perf.note_on(&p, &mut q, 60, 0.5f32.to_bits());
    perf.note_on(&p, &mut q, 48, 0.5f32.to_bits());
    engine.handle_queued(&p, &mut q);
    assert_eq!(engine.voices.iter().filter(|v| v.gate).count(), 8);
    // Another chord was selected before the key went up.
    p.set("chord_type", 0.0f32.to_bits());
    perf.note_off(&p, &mut q, 60);
    engine.handle_queued(&p, &mut q);
    let held: Vec<u8> = engine.voices.iter().filter(|v| v.gate).map(|v| v.note).collect();
    assert_eq!(held, [48, 52, 55, 59]);
}

#[test]
fn turns_of_the_arpeggiator() {
    let p = with(&[("arp_enabled", 1.0)]);
    let mut q = note_queue();
    let mut perf = Performer::new();
    assert_eq!(ARP_IDLE_MS, 200);
    assert_eq!(perf.arp_next(&p, &mut q, ArpEvent::Ready), ArpAction::Idle);
    perf.note_on(&p, &mut q, 60, 0);
    let step = ArpStep {
        note: 60,
        rate: 6.0f32.to_bits(),
        gate: 0.5f32.to_bits(),
    };
    assert_eq!(perf.arp_next(&p, &mut q, ArpEvent::Ready), ArpAction::Sound { step });
    assert_eq!(drain(&q), [NoteEvent::On { note: 60, velocity: ARP_VELOCITY }]);
    assert_eq!(perf.arp_next(&p, &mut q, ArpEvent::GateOver), ArpAction::Rest);
    assert_eq!(drain(&q), [off(60)]);
}

#[test]
fn a_round_plays_every_note_in_every_octave_once() {
    for pattern in [0, PATTERN_DOWN, PATTERN_AS_PLAYED] {
        let all = arp(pattern, 3.0, &[40, 47, 43], 20);
        for start in 0..11 {
            let mut round = all[start..start + 9].to_vec();
            round.sort();
            assert_eq!(round, [40, 43, 47, 52, 55, 59, 64, 67, 71]);
        }
    }
}

#[test]
fn a_key_ends_its_notes_long_after() {
    let major = with(&[("chord_type", 3.0)]);
    let arp_on = with(&[("arp_enabled", 1.0)]);
    let single = with(&[]);
    let mut q = note_queue();
    let mut perf = Performer::new();
    perf.note_on(&major, &mut q, 60, 0);
    perf.note_on(&single, &mut q, 50, 0);
    perf.note_on(&arp_on, &mut q, 70, 0);
    perf.step_arp(&arp_on, &mut q);
    perf.end_gate(&mut q);
    perf.note_off(&single, &mut q, 50);
    drain(&q);
    perf.note_off(&single, &mut q, 60);
    assert_eq!(drain(&q), [off(60), off(64), off(67)]);
}

#[test]
fn an_arp_note_ends_before_the_next_starts() {
    let p = with(&[("arp_enabled", 1.0)]);
    let chords = with(&[("chord_type", 1.0)]);
    let mut q = note_queue();
    let mut perf = Performer::new();
    perf.note_on(&p, &mut q, 60, 0);
    perf.note_on(&p, &mut q, 62, 0);
    perf.step_arp(&p, &mut q);
    drain(&q);
    perf.note_on(&chords, &mut q, 30, 0.5f32.to_bits());
    perf.note_off(&p, &mut q, 60);
    perf.step_arp(&p, &mut q);
    assert_eq!(
        drain(&q),
        [on(30), on(42), off(60), NoteEvent::On { note: 62, velocity: ARP_VELOCITY }]
    );
}
