use chonk::history::{LogEvent, LogMsg, Logger};
use chonk::ipc::{
    finish_delete, finish_list, finish_load, finish_save, handle_msg, wakes_arp, AppState,
    ClientMsg, PatchState, ServerMsg, Step,
};
use chonk::params::{find_param, Params, Patch};
use chonk::queue::note_queue;
use chonk::synth::NoteEvent;
use chonk::web::{self, frame_action, FrameAction, FrameKind};
use crossbeam_queue::ArrayQueue;

fn b(x: f32) -> u32 {
    x.to_bits()
}

fn start() -> (AppState, ArrayQueue<NoteEvent>) {
    (AppState::new(Params::default()), note_queue())
}

fn param(name: &str, value: f32) -> ClientMsg {
    ClientMsg::Param { name: name.to_string(), value: b(value) }
}

fn get(values: &[u32], name: &str) -> f32 {
    f32::from_bits(values[find_param(name).unwrap()])
}

fn answer(step: Step) -> ServerMsg {
    match step {
        Step::Reply { answer } => answer,
        _ => panic!("no answer yet"),
    }
}

fn error(msg: ServerMsg) -> String {
    match msg {
        ServerMsg::Error { message } => message,
        _ => panic!("no error"),
    }
}

fn state(msg: ServerMsg) -> Patch {
    match msg {
        ServerMsg::State { patch } => patch,
        _ => panic!("no state"),
    }
}

fn drain(queue: &ArrayQueue<NoteEvent>) -> Vec<NoteEvent> {
    let mut all = Vec::new();
    while let Some(e) = queue.pop() {
        all.push(e);
    }
    all
}

#[test]
fn keys_play_and_are_logged() {
    let (mut s, mut q) = start();
    let press = ClientMsg::NoteOn { note: 60, velocity: b(0.5) };
    assert!(!wakes_arp(&press, &s));
    assert!(matches!(answer(handle_msg(press, &mut s, &mut q)), ServerMsg::Done));
    let release = ClientMsg::NoteOff { note: 60 };
    assert!(matches!(answer(handle_msg(release, &mut s, &mut q)), ServerMsg::Done));
    assert!(matches!(answer(handle_msg(ClientMsg::AllOff, &mut s, &mut q)), ServerMsg::Done));
    assert_eq!(
        drain(&q),
        [
            NoteEvent::On { note: 60, velocity: b(0.5) },
            NoteEvent::Off { note: 60 },
            NoteEvent::AllOff
        ]
    );
    let log = s.history.take();
    assert_eq!(log.len(), 2);
    assert!(matches!(log[0], LogMsg::NoteOn { note: 60, .. }));
    assert!(matches!(log[1], LogMsg::NoteOff { note: 60 }));
}

#[test]
fn a_key_wakes_the_arpeggiator() {
    let (mut s, mut q) = start();
    handle_msg(param("arp_enabled", 1.0), &mut s, &mut q);
    assert!(wakes_arp(&ClientMsg::NoteOn { note: 60, velocity: 0 }, &s));
    assert!(!wakes_arp(&ClientMsg::NoteOff { note: 60 }, &s));
}

#[test]
fn unknown_param_changes_nothing() {
    let (mut s, mut q) = start();
    let r = answer(handle_msg(param("nope", 1.0), &mut s, &mut q));
    assert_eq!(error(r), "Unknown param: nope");
    assert_eq!(s.params, Params::default());
    assert!(!s.patch.dirty);
    assert!(s.history.outbox.is_empty());
    assert!(q.is_empty());
}

#[test]
fn setting_a_param_marks_the_sound_as_changed_once() {
    let (mut s, mut q) = start();
    s.patch = PatchState { name: Some("pluck".to_string()), dirty: false };
    let r = answer(handle_msg(param("glide", 0.5), &mut s, &mut q));
    assert!(matches!(r, ServerMsg::Done));
    handle_msg(param("glide", 0.6), &mut s, &mut q);
    assert!(s.patch.dirty);
    let log = s.history.take();
    assert_eq!(log.len(), 3);
    match &log[0] {
        LogMsg::PatchDirty { base } => assert_eq!(base.as_deref(), Some("pluck")),
        _ => panic!(),
    }
    assert!(matches!(log[1], LogMsg::Param { .. }));
    assert!(matches!(log[2], LogMsg::Param { .. }));
    assert!(q.is_empty());
    assert_eq!(get(&s.params.values, "glide"), 0.6);
}

#[test]
fn chords_and_one_note_at_a_time_exclude_each_other() {
    let (mut s, mut q) = start();
    assert!(matches!(
        answer(handle_msg(param("mono", 1.0), &mut s, &mut q)),
        ServerMsg::Done
    ));
    let p = state(answer(handle_msg(param("chord_type", 3.0), &mut s, &mut q)));
    assert_eq!(get(&p.values, "mono"), 0.0);
    assert_eq!(get(&p.values, "chord_type"), 3.0);
    assert_eq!(drain(&q), [NoteEvent::AllOff]);
    let p = state(answer(handle_msg(param("mono", 1.0), &mut s, &mut q)));
    assert_eq!(get(&p.values, "mono"), 0.0);
    assert_eq!(p.values, s.params.values);
    assert!(q.is_empty());
    handle_msg(param("chord_type", 0.0), &mut s, &mut q);
    assert!(matches!(
        answer(handle_msg(param("mono", 1.0), &mut s, &mut q)),
        ServerMsg::Done
    ));
    assert_eq!(get(&s.params.values, "mono"), 1.0);
}

#[test]
fn switching_the_arpeggiator_stops_all_notes() {
    let (mut s, mut q) = start();
    handle_msg(param("arp_enabled", 1.0), &mut s, &mut q);
    assert_eq!(drain(&q), [NoteEvent::AllOff]);
}

#[test]
fn loading() {
    let (mut s, mut q) = start();
    handle_msg(param("glide", 0.5), &mut s, &mut q);
    s.history.take();
    let step = handle_msg(ClientMsg::LoadPatch { name: "my ../patch".to_string() }, &mut s, &mut q);
    let name = match step {
        Step::Load { name, file } => {
            assert_eq!(name, "my_patch");
            assert_eq!(file, "my_patch.json");
            name
        }
        _ => panic!(),
    };
    let mut stored = Params::default();
    stored.set("mono", b(1.0));
    stored.set("chord_type", b(2.0));
    let p = state(finish_load(&mut s, &mut q, name, Ok(stored.to_patch())));
    assert_eq!(get(&p.values, "mono"), 0.0);
    assert_eq!(get(&p.values, "chord_type"), 2.0);
    assert_eq!(s.params.values, p.values);
    assert_eq!(s.patch.name.as_deref(), Some("my_patch"));
    assert!(!s.patch.dirty);
    assert_eq!(drain(&q), [NoteEvent::AllOff]);
    assert!(matches!(s.history.take()[0], LogMsg::PatchLoad { .. }));
    let r = finish_load(&mut s, &mut q, "x".to_string(), Err("gone".to_string()));
    assert_eq!(error(r), "gone");
    assert_eq!(s.patch.name.as_deref(), Some("my_patch"));
    assert!(q.is_empty());
}

#[test]
fn saving() {
    let (mut s, mut q) = start();
    let r = answer(handle_msg(ClientMsg::SavePatch { name: "/..".to_string() }, &mut s, &mut q));
    assert_eq!(error(r), "Invalid patch name");
    handle_msg(param("glide", 0.5), &mut s, &mut q);
    s.history.take();
    match handle_msg(ClientMsg::SavePatch { name: "new one".to_string() }, &mut s, &mut q) {
        Step::Save { name, file, patch } => {
            assert_eq!(file, "new_one.json");
            assert_eq!(patch.values, s.params.values);
            let r = finish_save(&mut s, name.clone(), patch, Err("disk full".to_string()));
            assert_eq!(error(r), "disk full");
            assert!(s.patch.dirty);
            assert!(s.history.outbox.is_empty());
            assert!(matches!(finish_save(&mut s, name, patch, Ok(())), ServerMsg::Done));
        }
        _ => panic!(),
    }
    assert_eq!(s.patch.name.as_deref(), Some("new_one"));
    assert!(!s.patch.dirty);
    assert!(matches!(s.history.take()[0], LogMsg::PatchSave { .. }));
}

#[test]
fn what_was_saved_comes_back() {
    let (mut s, mut q) = start();
    handle_msg(param("glide", 0.5), &mut s, &mut q);
    handle_msg(param("chord_type", 3.0), &mut s, &mut q);
    let saved = s.params;
    let patch = match handle_msg(ClientMsg::SavePatch { name: "a".to_string() }, &mut s, &mut q) {
        Step::Save { patch, .. } => patch,
        _ => panic!(),
    };
    handle_msg(param("glide", 0.1), &mut s, &mut q);
    finish_load(&mut s, &mut q, "a".to_string(), Ok(patch));
    assert_eq!(s.params, saved);
}

#[test]
fn deleting_and_listing() {
    let (mut s, mut q) = start();
    match handle_msg(ClientMsg::DeletePatch { name: "a b".to_string() }, &mut s, &mut q) {
        Step::Delete { file } => assert_eq!(file, "a_b.json"),
        _ => panic!(),
    }
    assert!(matches!(finish_delete(Ok(())), ServerMsg::Done));
    assert_eq!(error(finish_delete(Err("no".to_string()))), "no");
    assert!(matches!(handle_msg(ClientMsg::ListPatches, &mut s, &mut q), Step::List));
    s.patch.name = Some("b".to_string());
    let files: Vec<String> =
        ["b.json", "Zoo.json", "x.txt", "apple.json", "Bee.json"].map(String::from).to_vec();
    match finish_list(&s, &files) {
        ServerMsg::Patches { names, current } => {
            assert_eq!(names, ["apple", "b", "Bee", "Zoo"]);
            assert_eq!(current.as_deref(), Some("b"));
        }
        _ => panic!(),
    }
}

#[test]
fn asking_for_the_state() {
    let (mut s, mut q) = start();
    let p = state(answer(handle_msg(ClientMsg::GetState, &mut s, &mut q)));
    assert_eq!(p, Patch::default());
}

#[test]
fn start_state() {
    let p = PatchState::default();
    assert!(p.name.is_none());
    assert!(!p.dirty);
}

#[test]
fn the_log_marks_the_first_change_once() {
    let (mut s, mut q) = start();
    finish_load(&mut s, &mut q, "pluck".to_string(), Ok(Patch::default()));
    handle_msg(param("glide", 0.5), &mut s, &mut q);
    handle_msg(param("glide", 0.6), &mut s, &mut q);
    let mut log = Logger::new();
    let mut markers = 0;
    for m in s.history.take() {
        for line in log.handle(m, 0) {
            if let LogEvent::PatchDirty { base } = line.event {
                assert_eq!(base.as_deref(), Some("pluck"));
                markers += 1;
            }
        }
    }
    assert_eq!(markers, 1);
}

fn web_answer(step: web::Step) -> web::ServerMsg {
    match step {
        web::Step::Reply { answer } => answer,
        _ => panic!("no answer yet"),
    }
}

#[test]
fn web_requests() {
    let mut p = Params::default();
    let mut q = note_queue();
    for msg in [
        ClientMsg::NoteOn { note: 1, velocity: 2 },
        ClientMsg::NoteOff { note: 1 },
        ClientMsg::AllOff,
        param("mono", 1.0),
        param("chord_type", 3.0),
    ] {
        let r = web_answer(web::handle_msg(msg, &mut p, &mut q));
        assert!(matches!(r, web::ServerMsg::Done));
    }
    assert_eq!(
        drain(&q),
        [
            NoteEvent::On { note: 1, velocity: 2 },
            NoteEvent::Off { note: 1 },
            NoteEvent::AllOff
        ]
    );
    assert_eq!(get(&p.values, "mono"), 1.0);
    match web_answer(web::handle_msg(param("nope", 1.0), &mut p, &mut q)) {
        web::ServerMsg::Error { message } => assert_eq!(message, "Unknown param: nope"),
        _ => panic!(),
    }
    match web_answer(web::handle_msg(ClientMsg::GetState, &mut p, &mut q)) {
        web::ServerMsg::State { patch } => assert_eq!(patch.values, p.values),
        _ => panic!(),
    }
    match web_answer(web::handle_msg(
        ClientMsg::SavePatch { name: "?".to_string() },
        &mut p,
        &mut q,
    )) {
        web::ServerMsg::Error { message } => assert_eq!(message, "Invalid patch name"),
        _ => panic!(),
    }
}

#[test]
fn web_files() {
    let mut p = Params::default();
    let mut q = note_queue();
    p.set("glide", b(0.5));
    let saved = p;
    let patch = match web::handle_msg(ClientMsg::SavePatch { name: "a b".into() }, &mut p, &mut q) {
        web::Step::Save { file, patch } => {
            assert_eq!(file, "a_b.json");
            patch
        }
        _ => panic!(),
    };
    match web::handle_msg(ClientMsg::LoadPatch { name: "a b".into() }, &mut p, &mut q) {
        web::Step::Load { file } => assert_eq!(file, "a_b.json"),
        _ => panic!(),
    }
    match web::handle_msg(ClientMsg::DeletePatch { name: "a b".into() }, &mut p, &mut q) {
        web::Step::Delete { file } => assert_eq!(file, "a_b.json"),
        _ => panic!(),
    }
    p.set("glide", b(0.1));
    assert!(matches!(
        web::finish_load(&mut p, Err("gone".to_string())),
        web::ServerMsg::Error { .. }
    ));
    match web::finish_load(&mut p, Ok(patch)) {
        web::ServerMsg::State { patch } => assert_eq!(patch.values, saved.values),
        _ => panic!(),
    }
    assert_eq!(p, saved);
    assert!(matches!(web::finish_write(Ok(())), web::ServerMsg::Done));
    assert!(matches!(web::finish_write(Err("x".to_string())), web::ServerMsg::Error { .. }));
    assert!(matches!(web::handle_msg(ClientMsg::ListPatches, &mut p, &mut q), web::Step::List));
    let files: Vec<String> = ["b.json", "Zoo.json", "apple.json"].map(String::from).to_vec();
    match web::finish_list(&files) {
        web::ServerMsg::Patches { names } => assert_eq!(names, ["Zoo", "apple", "b"]),
        _ => panic!(),
    }
    match web::bad_msg("oops") {
        web::ServerMsg::Error { message } => assert_eq!(message, "Bad msg: oops"),
        _ => panic!(),
    }
    assert_eq!(web::sanitize("a b"), "a_b");
}

#[test]
fn files_stay_in_their_directory() {
    let (mut s, mut q) = start();
    let name = "../.\\../C:/x y".to_string();
    match handle_msg(ClientMsg::DeletePatch { name: name.clone() }, &mut s, &mut q) {
        Step::Delete { file } => assert_eq!(file, "Cx_y.json"),
        _ => panic!(),
    }
    match web::handle_msg(ClientMsg::LoadPatch { name }, &mut s.params, &mut q) {
        web::Step::Load { file } => assert_eq!(file, "Cx_y.json"),
        _ => panic!(),
    }
}

#[test]
fn frames() {
    assert_eq!(frame_action(FrameKind::Text), FrameAction::Answer);
    assert_eq!(frame_action(FrameKind::Close), FrameAction::Stop);
    assert_eq!(frame_action(FrameKind::Broken), FrameAction::Stop);
    assert_eq!(frame_action(FrameKind::Other), FrameAction::Skip);
}

#[test]
fn a_name_that_is_made_the_same_finds_the_patch() {
    let (mut s, mut q) = start();
    // Both modes on at once, which only a hand-made state can have.
    s.params.set("mono", b(1.0));
    s.params.set("chord_type", b(2.0));
    let (file, patch) =
        match handle_msg(ClientMsg::SavePatch { name: "my sound".to_string() }, &mut s, &mut q) {
            Step::Save { file, patch, .. } => (file, patch),
            _ => panic!(),
        };
    handle_msg(param("glide", 0.9), &mut s, &mut q);
    match handle_msg(ClientMsg::LoadPatch { name: "my_sound!".to_string() }, &mut s, &mut q) {
        Step::Load { name, file: read } => {
            assert_eq!(read, file);
            finish_load(&mut s, &mut q, name, Ok(patch));
        }
        _ => panic!(),
    }
    let mut expected = patch;
    expected.values[find_param("mono").unwrap()] = b(0.0);
    assert_eq!(s.params.values, expected.values);
    assert_eq!(s.patch.name.as_deref(), Some("my_sound"));
    assert!(!s.patch.dirty);
}
