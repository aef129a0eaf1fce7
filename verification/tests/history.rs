use chonk::history::{
    t_ms, History, LogEvent, LogInput, LogLine, LogMsg, Logger, BUSY_TIMEOUT_MS, COALESCE_MS,
    COALESCE_NANOS, FORMAT_VERSION, IDLE_TIMEOUT_MS, NANOS_PER_MS,
};
use chonk::params::Patch;

const MS: u128 = 1_000_000;

fn param(name: &str, value: u32) -> LogMsg {
    LogMsg::Param { name: name.to_string(), value }
}

fn load(name: &str) -> LogMsg {
    LogMsg::PatchLoad { name: name.to_string(), patch: Patch::default() }
}

fn show(lines: &[LogLine]) -> Vec<String> {
    lines
        .iter()
        .map(|l| match &l.event {
            LogEvent::SessionStart { v, wall_unix, .. } => {
                format!("{} start {} {}", l.t, v, wall_unix)
            }
            LogEvent::PatchLoad { name, .. } => format!("{} load {}", l.t, name),
            LogEvent::PatchSave { name, .. } => format!("{} save {}", l.t, name),
            LogEvent::PatchDirty { base } => {
                format!("{} dirty {}", l.t, base.clone().unwrap_or("-".to_string()))
            }
            LogEvent::Param { name, value } => format!("{} {}={}", l.t, name, value),
            LogEvent::NoteOn { id, ch, note, vel } => {
                format!("{} on {} {} {} {}", l.t, id, ch, note, vel)
            }
            LogEvent::NoteOff { id, ch, note } => format!("{} off {} {} {}", l.t, id, ch, note),
        })
        .collect()
}

#[test]
fn times() {
    assert_eq!(COALESCE_MS as u128 * NANOS_PER_MS, COALESCE_NANOS);
    assert_eq!(t_ms(0), 0);
    assert_eq!(t_ms(1_999_999), 1);
    assert_eq!(t_ms(2_000_000), 2);
    assert_eq!(t_ms((1u128 << 64) * MS + 5 * MS), 5);
}

#[test]
fn header_comes_first() {
    let h = Logger::header(1234, Patch::default());
    assert_eq!(show(&[h]), [format!("0 start {} 1234", FORMAT_VERSION)]);
}

#[test]
fn notes_are_numbered() {
    let mut log = Logger::new();
    assert_eq!(show(&log.handle(LogMsg::NoteOn { note: 60, vel: 7 }, 5 * MS)), ["5 on 1 0 60 7"]);
    assert_eq!(show(&log.handle(LogMsg::NoteOn { note: 62, vel: 7 }, 6 * MS)), ["6 on 2 0 62 7"]);
    assert_eq!(show(&log.handle(LogMsg::NoteOff { note: 60 }, 7 * MS)), ["7 off 1 0 60"]);
    // A key that was not held gets a number of its own.
    assert_eq!(show(&log.handle(LogMsg::NoteOff { note: 60 }, 8 * MS)), ["8 off 3 0 60"]);
    // Loading a patch forgets the held keys.
    log.handle(load("x"), 9 * MS);
    assert_eq!(show(&log.handle(LogMsg::NoteOff { note: 62 }, 10 * MS)), ["10 off 4 0 62"]);
}

#[test]
fn saving_keeps_the_held_keys() {
    let mut log = Logger::new();
    log.handle(LogMsg::NoteOn { note: 60, vel: 7 }, 0);
    let save = LogMsg::PatchSave { name: "x".to_string(), patch: Patch::default() };
    assert_eq!(show(&log.handle(save, 0)), ["0 save x"]);
    assert_eq!(show(&log.handle(LogMsg::NoteOff { note: 60 }, 0)), ["0 off 1 0 60"]);
}

#[test]
fn changes_are_taken_together() {
    let mut log = Logger::new();
    assert_eq!(log.timeout_ms(), IDLE_TIMEOUT_MS);
    assert!(log.handle(param("glide", 1), 0).is_empty());
    assert_eq!(log.timeout_ms(), BUSY_TIMEOUT_MS);
    assert!(log.handle(param("glide", 2), 10 * MS).is_empty());
    assert!(log.handle(param("amp_a", 3), 20 * MS).is_empty());
    assert!(log.flush_stale_pending(59 * MS).is_empty());
    assert_eq!(show(&log.flush_stale_pending(60 * MS)), ["60 glide=2"]);
    assert_eq!(show(&log.flush_stale_pending(70 * MS)), ["70 amp_a=3"]);
    assert_eq!(log.timeout_ms(), IDLE_TIMEOUT_MS);
    // A clock that went back makes nothing stale.
    log.handle(param("glide", 4), 100 * MS);
    assert!(log.flush_stale_pending(90 * MS).is_empty());
}

#[test]
fn changes_come_before_notes_in_the_order_of_their_names() {
    let mut log = Logger::new();
    log.handle(param("mono", 1), 0);
    log.handle(param("amp_a", 2), 0);
    log.handle(param("glide", 3), 0);
    log.handle(param("amp_a", 4), 0);
    assert_eq!(
        show(&log.handle(LogMsg::NoteOn { note: 60, vel: 0 }, MS)),
        ["1 amp_a=4", "1 glide=3", "1 mono=1", "1 on 1 0 60 0"]
    );
    assert!(log.flush_all_pending(2 * MS).is_empty());
}

#[test]
fn first_change_after_a_load_is_marked() {
    let mut log = Logger::new();
    // Nothing was loaded yet.
    assert!(log.handle(param("mono", 1), 0).is_empty());
    assert_eq!(show(&log.handle(load("pluck"), 0)), ["0 mono=1", "0 load pluck"]);
    assert_eq!(show(&log.handle(param("mono", 2), 0)), ["0 dirty pluck"]);
    assert!(log.handle(param("glide", 2), 0).is_empty());
    assert_eq!(show(&log.flush_all_pending(0)), ["0 glide=2", "0 mono=2"]);
    assert!(log.handle(param("glide", 3), 0).is_empty());
}

#[test]
fn a_marker_is_not_repeated() {
    let mut log = Logger::new();
    log.handle(load("pluck"), 0);
    let marker = LogMsg::PatchDirty { base: Some("pluck".to_string()) };
    assert_eq!(show(&log.handle(marker, 0)), ["0 dirty pluck"]);
    assert!(log.handle(param("mono", 2), 0).is_empty());
    assert_eq!(show(&log.handle(LogMsg::PatchDirty { base: None }, 0)), ["0 dirty -"]);
}

#[test]
fn messages_wait_in_order() {
    let mut h = History::new();
    h.note_on(60, 1);
    h.note_off(60);
    h.param("mono", 2);
    h.patch_load("a", Patch::default());
    h.patch_save("b", Patch::default());
    h.patch_dirty(Some("b".to_string()));
    let all = h.take();
    assert!(h.outbox.is_empty());
    let mut log = Logger::new();
    let mut out = Vec::new();
    for m in all {
        out.extend(log.handle(m, 0));
    }
    assert_eq!(
        show(&out),
        ["0 on 1 0 60 1", "0 off 1 0 60", "0 mono=2", "0 load a", "0 save b", "0 dirty b"]
    );
}

#[test]
fn turns() {
    let mut log = Logger::new();
    let turn = log.turn(LogInput::Message { msg: param("mono", 1) }, 0);
    assert!(turn.lines.is_empty() && turn.go_on);
    // A later change lets the earlier one go when it has waited long enough.
    let turn = log.turn(LogInput::Message { msg: param("glide", 2) }, 50 * MS);
    assert_eq!(show(&turn.lines), ["50 mono=1"]);
    let turn = log.turn(LogInput::Timeout, 99 * MS);
    assert!(turn.lines.is_empty() && turn.go_on);
    let turn = log.turn(LogInput::Timeout, 100 * MS);
    assert_eq!(show(&turn.lines), ["100 glide=2"]);
    log.turn(LogInput::Message { msg: param("glide", 3) }, 101 * MS);
    let turn = log.turn(LogInput::Disconnected, 102 * MS);
    assert_eq!(show(&turn.lines), ["102 glide=3"]);
    assert!(!turn.go_on);
}

#[test]
fn a_run_of_changes() {
    let mut log = Logger::new();
    log.turn(LogInput::Message { msg: load("pluck") }, 0);
    let mut out = Vec::new();
    for (value, at) in [(1, 10), (2, 20), (3, 90), (4, 95), (5, 200), (6, 201)] {
        out.extend(log.turn(LogInput::Timeout, (at - 1) * MS).lines);
        out.extend(log.turn(LogInput::Message { msg: param("mono", value) }, at * MS).lines);
    }
    out.extend(log.turn(LogInput::Message { msg: LogMsg::NoteOff { note: 9 } }, 210 * MS).lines);
    assert_eq!(
        show(&out),
        ["10 dirty pluck", "89 mono=2", "199 mono=4", "210 mono=6", "210 off 1 0 9"]
    );
}
