//! The session log: what was played and changed, line by line.
//!
//! Times are nanoseconds since the session started; the log itself counts
//! milliseconds. Parameter changes are held back for a moment, so that of
//! several changes to one parameter only the last is written.
use crate::listing::{at_most, in_order, lemma_order_is_total};
use crate::names::chars_of;
use crate::params::Patch;
use std::collections::HashMap;
use vstd::prelude::*;
use vstd::std_specs::hash::group_hash_axioms;

verus! {

/// For how long changes to one parameter are taken together, in milliseconds.
pub const COALESCE_MS: u64 = 50;

/// The same in nanoseconds.
pub const COALESCE_NANOS: u128 = 50_000_000;

/// How many nanoseconds a millisecond has.
pub const NANOS_PER_MS: u128 = 1_000_000;

/// The version of the log's format.
pub const FORMAT_VERSION: u32 = 1;

/// How long to wait for a message when no change is held back, in
/// milliseconds.
pub const IDLE_TIMEOUT_MS: u64 = 60_000;

/// How long to wait for a message while a change is held back, in
/// milliseconds.
pub const BUSY_TIMEOUT_MS: u64 = 20;

/// The channel that notes are logged on.
pub const CHANNEL: u8 = 0;

/// The time that a log line shows.
pub open spec fn shown_time(elapsed: u128) -> u64 {
    ((elapsed / NANOS_PER_MS) % 0x1_0000_0000_0000_0000) as u64
}

/// The time that a log line shows, in milliseconds.
pub fn t_ms(elapsed: u128) -> (r: u64)
    ensures
        r == shown_time(elapsed),
        elapsed / NANOS_PER_MS <= u64::MAX ==> r == elapsed / NANOS_PER_MS,
{
    ((elapsed / NANOS_PER_MS) % 0x1_0000_0000_0000_0000) as u64
}

/// What the logger is told.
#[derive(Clone, Debug)]
pub enum LogMsg {
    NoteOn { note: u8, vel: u32 },
    NoteOff { note: u8 },
    Param { name: String, value: u32 },
    PatchLoad { name: String, patch: Patch },
    PatchSave { name: String, patch: Patch },
    PatchDirty { base: Option<String> },
}

/// What a log line says.
#[derive(Clone, Debug)]
pub enum LogEvent {
    SessionStart { v: u32, wall_unix: u64, patch: Patch },
    PatchLoad { name: String, patch: Patch },
    PatchSave { name: String, patch: Patch },
    PatchDirty { base: Option<String> },
    Param { name: String, value: u32 },
    NoteOn { id: u32, ch: u8, note: u8, vel: u32 },
    NoteOff { id: u32, ch: u8, note: u8 },
}

/// A line of the log.
#[derive(Clone, Debug)]
pub struct LogLine {
    pub t: u64,
    pub event: LogEvent,
}

/// What the logger waits for: a message, or the end of the wait without one,
/// or the news that none will come any more.
#[derive(Clone, Debug)]
pub enum LogInput {
    Message { msg: LogMsg },
    Timeout,
    Disconnected,
}

/// What the logger does next: lines to write, and whether to go on waiting.
#[derive(Clone, Debug)]
pub struct Turn {
    pub lines: Vec<LogLine>,
    pub go_on: bool,
}

/// What the logger is told, with texts and patches as sequences.
#[verifier::ext_equal]
pub enum MsgView {
    NoteOn { note: u8, vel: u32 },
    NoteOff { note: u8 },
    Param { name: Seq<char>, value: u32 },
    PatchLoad { name: Seq<char>, patch: Seq<u32> },
    PatchSave { name: Seq<char>, patch: Seq<u32> },
    PatchDirty { base: Option<Seq<char>> },
}

/// What the logger waits for, with texts and patches as sequences.
#[verifier::ext_equal]
pub enum InputView {
    Message { msg: MsgView },
    Timeout,
    Disconnected,
}

/// What a log line says, with texts and patches as sequences.
#[verifier::ext_equal]
pub enum EventView {
    SessionStart { v: u32, wall_unix: u64, patch: Seq<u32> },
    PatchLoad { name: Seq<char>, patch: Seq<u32> },
    PatchSave { name: Seq<char>, patch: Seq<u32> },
    PatchDirty { base: Option<Seq<char>> },
    Param { name: Seq<char>, value: u32 },
    NoteOn { id: u32, ch: u8, note: u8, vel: u32 },
    NoteOff { id: u32, ch: u8, note: u8 },
}

/// A line of the log: its time and what it says.
#[verifier::ext_equal]
pub struct LineView {
    pub t: u64,
    pub event: EventView,
}

/// The text of a name, if there is one.
pub open spec fn text(name: Option<String>) -> Option<Seq<char>> {
    match name {
        Some(s) => Some(s@),
        None => None,
    }
}

impl View for LogMsg {
    type V = MsgView;

    open spec fn view(&self) -> MsgView {
        match *self {
            LogMsg::NoteOn { note, vel } => MsgView::NoteOn { note, vel },
            LogMsg::NoteOff { note } => MsgView::NoteOff { note },
            LogMsg::Param { name, value } => MsgView::Param { name: name@, value },
            LogMsg::PatchLoad { name, patch } => MsgView::PatchLoad {
                name: name@,
                patch: patch@,
            },
            LogMsg::PatchSave { name, patch } => MsgView::PatchSave {
                name: name@,
                patch: patch@,
            },
            LogMsg::PatchDirty { base } => MsgView::PatchDirty { base: text(base) },
        }
    }
}

impl View for LogInput {
    type V = InputView;

    open spec fn view(&self) -> InputView {
        match *self {
            LogInput::Message { msg } => InputView::Message { msg: msg@ },
            LogInput::Timeout => InputView::Timeout,
            LogInput::Disconnected => InputView::Disconnected,
        }
    }
}

impl View for LogEvent {
    type V = EventView;

    open spec fn view(&self) -> EventView {
        match *self {
            LogEvent::SessionStart { v, wall_unix, patch } => EventView::SessionStart {
                v,
                wall_unix,
                patch: patch@,
            },
            LogEvent::PatchLoad { name, patch } => EventView::PatchLoad {
                name: name@,
                patch: patch@,
            },
            LogEvent::PatchSave { name, patch } => EventView::PatchSave {
                name: name@,
                patch: patch@,
            },
            LogEvent::PatchDirty { base } => EventView::PatchDirty { base: text(base) },
            LogEvent::Param { name, value } => EventView::Param { name: name@, value },
            LogEvent::NoteOn { id, ch, note, vel } => EventView::NoteOn { id, ch, note, vel },
            LogEvent::NoteOff { id, ch, note } => EventView::NoteOff { id, ch, note },
        }
    }
}

impl View for LogLine {
    type V = LineView;

    open spec fn view(&self) -> LineView {
        LineView { t: self.t, event: self.event@ }
    }
}

/// The messages of a list.
pub open spec fn messages(list: Seq<LogMsg>) -> Seq<MsgView> {
    list.map_values(|m: LogMsg| m@)
}

/// The lines of a list.
pub open spec fn lines(list: Seq<LogLine>) -> Seq<LineView> {
    list.map_values(|l: LogLine| l@)
}

/// A parameter change that is held back: the parameter's name, its latest
/// value, and when it was set.
#[verifier::ext_equal]
pub struct Change {
    pub name: Seq<char>,
    pub value: u32,
    pub at: u128,
}

/// A change that is held back.
#[derive(Clone, Debug)]
pub struct Pending {
    pub name: String,
    pub value: u32,
    pub at: u128,
}

impl View for Pending {
    type V = Change;

    open spec fn view(&self) -> Change {
        Change { name: self.name@, value: self.value, at: self.at }
    }
}

/// The changes of a list.
pub open spec fn changes(list: Seq<Pending>) -> Seq<Change> {
    list.map_values(|p: Pending| p@)
}

/// Whether one name comes before another.
pub open spec fn before(a: Seq<char>, b: Seq<char>) -> bool {
    at_most(a, b) && a != b
}

/// Changes are kept by name, and none comes twice.
pub open spec fn by_name(pending: Seq<Change>) -> bool {
    forall|i: int, j: int|
        0 <= i < j < pending.len() ==> before(
            (#[trigger] pending[i]).name,
            (#[trigger] pending[j]).name,
        )
}

/// Being about a parameter that comes before another one.
pub open spec fn earlier(name: Seq<char>) -> spec_fn(Change) -> bool {
    |c: Change| before(c.name, name)
}

/// Being about a parameter that comes after another one.
pub open spec fn later(name: Seq<char>) -> spec_fn(Change) -> bool {
    |c: Change| before(name, c.name)
}

/// The changes held back after one more: it takes the place of an earlier
/// change to the same parameter.
pub open spec fn put(pending: Seq<Change>, change: Change) -> Seq<Change> {
    pending.filter(earlier(change.name)) + seq![change] + pending.filter(later(change.name))
}

/// Having been held back long enough.
pub open spec fn stale(now: u128) -> spec_fn(Change) -> bool {
    |c: Change| c.at + COALESCE_NANOS <= now
}

/// Not having been held back long enough.
pub open spec fn fresh(now: u128) -> spec_fn(Change) -> bool {
    |c: Change| c.at + COALESCE_NANOS > now
}

/// The lines that write changes down.
pub open spec fn change_lines(pending: Seq<Change>, now: u128) -> Seq<LineView> {
    pending.map_values(
        |c: Change|
            LineView {
                t: shown_time(now),
                event: EventView::Param { name: c.name, value: c.value },
            },
    )
}

/// What the logger keeps track of.
#[verifier::ext_equal]
pub struct LogState {
    /// The patch that was last loaded or saved.
    pub last_loaded: Option<Seq<char>>,
    /// Whether a parameter was changed since.
    pub dirty: bool,
    /// The number of the next note.
    pub next_id: u32,
    /// The numbers of the notes whose keys are held.
    pub active: Map<u8, u32>,
    /// The parameter changes that are held back, by name.
    pub pending: Seq<Change>,
}

impl LogState {
    /// The state at the start of a session.
    pub open spec fn initial() -> LogState {
        LogState {
            last_loaded: None,
            dirty: false,
            next_id: 1,
            active: Map::empty(),
            pending: Seq::empty(),
        }
    }

    /// What holds of every reachable state: the changes held back are in order,
    /// and there are none as long as the patch is as it was loaded.
    pub open spec fn wf(self) -> bool {
        &&& by_name(self.pending)
        &&& !self.dirty ==> self.pending.len() == 0
    }

    /// The number that a released key's note has.
    pub open spec fn off_id(self, note: u8) -> u32 {
        if self.active.contains_key(note) {
            self.active[note]
        } else {
            self.next_id
        }
    }

    /// The state after a message.
    pub open spec fn told(self, msg: MsgView, now: u128) -> LogState {
        match msg {
            MsgView::Param { name, value } => LogState {
                dirty: true,
                pending: put(self.pending, Change { name, value, at: now }),
                ..self
            },
            MsgView::NoteOn { note, vel } => LogState {
                pending: Seq::empty(),
                next_id: self.next_id.wrapping_add(1),
                active: self.active.insert(note, self.next_id),
                ..self
            },
            MsgView::NoteOff { note } => LogState {
                pending: Seq::empty(),
                next_id: if self.active.contains_key(note) {
                    self.next_id
                } else {
                    self.next_id.wrapping_add(1)
                },
                active: self.active.remove(note),
                ..self
            },
            MsgView::PatchLoad { name, patch } => LogState {
                pending: Seq::empty(),
                last_loaded: Some(name),
                dirty: false,
                active: Map::empty(),
                ..self
            },
            MsgView::PatchSave { name, patch } => LogState {
                pending: Seq::empty(),
                last_loaded: Some(name),
                dirty: false,
                ..self
            },
            MsgView::PatchDirty { base } => LogState { dirty: true, ..self },
        }
    }

    /// What a message itself writes, apart from changes that were held back.
    pub open spec fn own_event(self, msg: MsgView) -> Option<EventView> {
        match msg {
            MsgView::Param { name, value } => if !self.dirty && self.last_loaded is Some {
                Some(EventView::PatchDirty { base: self.last_loaded })
            } else {
                None
            },
            MsgView::NoteOn { note, vel } => Some(
                EventView::NoteOn { id: self.next_id, ch: CHANNEL, note, vel },
            ),
            MsgView::NoteOff { note } => Some(
                EventView::NoteOff { id: self.off_id(note), ch: CHANNEL, note },
            ),
            MsgView::PatchLoad { name, patch } => Some(EventView::PatchLoad { name, patch }),
            MsgView::PatchSave { name, patch } => Some(EventView::PatchSave { name, patch }),
            MsgView::PatchDirty { base } => Some(EventView::PatchDirty { base }),
        }
    }

    /// The lines that a message causes. Changes that were held back come first,
    /// so that the log tells things in the order in which they happened.
    pub open spec fn told_lines(self, msg: MsgView, now: u128) -> Seq<LineView> {
        let held = match msg {
            MsgView::Param { name, value } => Seq::empty(),
            MsgView::PatchDirty { base } => Seq::empty(),
            _ => change_lines(self.pending, now),
        };
        match self.own_event(msg) {
            Some(event) => held.push(LineView { t: shown_time(now), event }),
            None => held,
        }
    }

    /// The state after the changes that were held back long enough were
    /// written.
    pub open spec fn settled(self, now: u128) -> LogState {
        LogState { pending: self.pending.filter(fresh(now)), ..self }
    }

    /// The lines that write the changes which were held back long enough.
    pub open spec fn settling_lines(self, now: u128) -> Seq<LineView> {
        change_lines(self.pending.filter(stale(now)), now)
    }

    /// The state after the logger has waited.
    pub open spec fn turned(self, input: InputView, now: u128) -> LogState {
        match input {
            InputView::Message { msg } => self.told(msg, now).settled(now),
            InputView::Timeout => self.settled(now),
            InputView::Disconnected => LogState { pending: Seq::empty(), ..self },
        }
    }

    /// The lines that are written after the logger has waited.
    pub open spec fn turn_lines(self, input: InputView, now: u128) -> Seq<LineView> {
        match input {
            InputView::Message { msg } => self.told_lines(msg, now) + self.told(
                msg,
                now,
            ).settling_lines(now),
            InputView::Timeout => self.settling_lines(now),
            InputView::Disconnected => change_lines(self.pending, now),
        }
    }
}

impl LogState {
    /// The state after the logger has waited several times, each time until its
    /// own moment.
    pub open spec fn turned_all(self, inputs: Seq<(InputView, u128)>) -> LogState
        decreases inputs.len(),
    {
        if inputs.len() == 0 {
            self
        } else {
            self.turned_all(inputs.drop_last()).turned(inputs.last().0, inputs.last().1)
        }
    }

    /// The lines that are written meanwhile.
    pub open spec fn run_lines(self, inputs: Seq<(InputView, u128)>) -> Seq<LineView>
        decreases inputs.len(),
    {
        if inputs.len() == 0 {
            Seq::empty()
        } else {
            self.run_lines(inputs.drop_last()) + self.turned_all(inputs.drop_last()).turn_lines(
                inputs.last().0,
                inputs.last().1,
            )
        }
    }

    /// Which patch the sound comes from, and whether it was changed.
    pub open spec fn lineage(self) -> Lineage {
        Lineage { base: self.last_loaded, dirty: self.dirty }
    }
}

/// Where a sound comes from, as a log tells it.
#[verifier::ext_equal]
pub struct Lineage {
    /// The patch that was last loaded or saved.
    pub base: Option<Seq<char>>,
    /// Whether a parameter was changed since.
    pub dirty: bool,
}

impl Lineage {
    /// Where the sound comes from after a message.
    pub open spec fn told(self, msg: MsgView) -> Lineage {
        match msg {
            MsgView::Param { name, value } => Lineage { dirty: true, ..self },
            MsgView::PatchDirty { base } => Lineage { dirty: true, ..self },
            MsgView::PatchLoad { name, patch } => Lineage { base: Some(name), dirty: false },
            MsgView::PatchSave { name, patch } => Lineage { base: Some(name), dirty: false },
            _ => self,
        }
    }

    /// The marker that a message causes, if it causes one.
    pub open spec fn mark(self, msg: MsgView) -> Option<Option<Seq<char>>> {
        match msg {
            MsgView::Param { name, value } => if !self.dirty && self.base is Some {
                Some(self.base)
            } else {
                None
            },
            MsgView::PatchDirty { base } => Some(base),
            _ => None,
        }
    }

    /// Where the sound comes from after several messages.
    pub open spec fn told_all(self, msgs: Seq<MsgView>) -> Lineage
        decreases msgs.len(),
    {
        if msgs.len() == 0 {
            self
        } else {
            self.told_all(msgs.drop_last()).told(msgs.last())
        }
    }

    /// The markers that several messages cause.
    pub open spec fn marks(self, msgs: Seq<MsgView>) -> Seq<Option<Seq<char>>>
        decreases msgs.len(),
    {
        if msgs.len() == 0 {
            Seq::empty()
        } else {
            let earlier = self.marks(msgs.drop_last());
            match self.told_all(msgs.drop_last()).mark(msgs.last()) {
                Some(base) => earlier.push(base),
                None => earlier,
            }
        }
    }
}

/// The value that a line gives a parameter, if it is about it.
pub open spec fn writes(name: Seq<char>) -> spec_fn(LineView) -> Option<u32> {
    |line: LineView|
        match line.event {
            EventView::Param { name: n, value } => if n == name {
                Some(value)
            } else {
                None
            },
            _ => None,
        }
}

/// The values that lines give a parameter, in their order.
pub open spec fn written(list: Seq<LineView>, name: Seq<char>) -> Seq<u32> {
    list.filter_map(writes(name))
}

/// The value that the logger is told a parameter has, if it is told.
pub open spec fn sends(name: Seq<char>) -> spec_fn((InputView, u128)) -> Option<u32> {
    |input: (InputView, u128)|
        match input.0 {
            InputView::Message { msg: MsgView::Param { name: n, value } } => if n == name {
                Some(value)
            } else {
                None
            },
            _ => None,
        }
}

/// The values that the logger is told a parameter has, in their order.
pub open spec fn sent(inputs: Seq<(InputView, u128)>, name: Seq<char>) -> Seq<u32> {
    inputs.filter_map(sends(name))
}

/// The value of a change, if it is to a parameter.
pub open spec fn changes_to(name: Seq<char>) -> spec_fn(Change) -> Option<u32> {
    |c: Change|
        if c.name == name {
            Some(c.value)
        } else {
            None
        }
}

/// The values of the changes to a parameter.
pub open spec fn held(pending: Seq<Change>, name: Seq<char>) -> Seq<u32> {
    pending.filter_map(changes_to(name))
}

/// The patch that a marker names.
pub open spec fn marks_from() -> spec_fn(LineView) -> Option<Option<Seq<char>>> {
    |line: LineView|
        match line.event {
            EventView::PatchDirty { base } => Some(base),
            _ => None,
        }
}

/// The patches that the markers among lines name.
pub open spec fn markers(list: Seq<LineView>) -> Seq<Option<Seq<char>>> {
    list.filter_map(marks_from())
}

/// The message that the logger was told, if it was one.
pub open spec fn message_of() -> spec_fn((InputView, u128)) -> Option<MsgView> {
    |input: (InputView, u128)|
        match input.0 {
            InputView::Message { msg } => Some(msg),
            _ => None,
        }
}

/// The messages that the logger was told.
pub open spec fn messages_in(inputs: Seq<(InputView, u128)>) -> Seq<MsgView> {
    inputs.filter_map(message_of())
}

/// Whether the logger goes on holding changes back: it is told of a change or a
/// marker, or nothing.
pub open spec fn holds_back(input: InputView) -> bool {
    match input {
        InputView::Message { msg } => msg is Param || msg is PatchDirty,
        InputView::Timeout => true,
        InputView::Disconnected => false,
    }
}

/// Writes the session log.
pub struct Logger {
    last_loaded: Option<String>,
    dirty: bool,
    next_id: u32,
    active_notes: HashMap<u8, u32>,
    pending_params: Vec<Pending>,
}

impl View for Logger {
    type V = LogState;

    closed spec fn view(&self) -> LogState {
        LogState {
            last_loaded: text(self.last_loaded),
            dirty: self.dirty,
            next_id: self.next_id,
            active: self.active_notes@,
            pending: changes(self.pending_params@),
        }
    }
}

proof fn lemma_filter_split(s: Seq<Change>, f: spec_fn(Change) -> bool, n: int, head: bool)
    requires
        0 <= n <= s.len(),
        forall|i: int| 0 <= i < n ==> f(#[trigger] s[i]) == head,
        forall|i: int| n <= i < s.len() ==> f(#[trigger] s[i]) == !head,
    ensures
        s.filter(f) == (if head {
            s.take(n)
        } else {
            s.skip(n)
        }),
    decreases s.len(),
{
    reveal(Seq::filter);
    if s.len() > 0 {
        let init = s.drop_last();
        assert(f(s[s.len() - 1]) == f(s.last()));
        if n < s.len() {
            lemma_filter_split(init, f, n, head);
            if head {
                assert(init.take(n) =~= s.take(n));
            } else {
                assert(init.skip(n).push(s.last()) =~= s.skip(n));
            }
        } else {
            lemma_filter_split(init, f, n - 1, head);
            if head {
                assert(init.take(n - 1).push(s.last()) =~= s.take(n));
            } else {
                assert(init.skip(n - 1) =~= s.skip(n));
            }
        }
    } else {
        assert(s.take(n) =~= s);
        assert(s.skip(n) =~= s);
    }
}

proof fn lemma_put(pending: Seq<Change>, change: Change, p: int)
    requires
        by_name(pending),
        0 <= p <= pending.len(),
        forall|i: int| 0 <= i < p ==> before((#[trigger] pending[i]).name, change.name),
        p < pending.len() ==> at_most(change.name, pending[p].name),
    ensures
        put(pending, change) == (if p < pending.len() && pending[p].name == change.name {
            pending.update(p, change)
        } else {
            pending.insert(p, change)
        }),
{
    let name = change.name;
    let same = p < pending.len() && pending[p].name == name;
    let q = if same {
        p + 1
    } else {
        p
    };
    assert forall|i: int| p <= i < pending.len() implies at_most(
        name,
        (#[trigger] pending[i]).name,
    ) && (pending[i].name == name ==> i == p) by {
        if i > p {
            assert(before(pending[p].name, pending[i].name));
            lemma_order_is_total(name, pending[p].name, pending[i].name);
            lemma_order_is_total(pending[p].name, pending[i].name, name);
        }
    }
    assert forall|i: int| 0 <= i < p implies !before(name, (#[trigger] pending[i]).name) by {
        lemma_order_is_total(name, pending[i].name, name);
    }
    assert forall|i: int| p <= i < pending.len() implies !before(
        (#[trigger] pending[i]).name,
        name,
    ) by {
        lemma_order_is_total(name, pending[i].name, name);
    }
    lemma_filter_split(pending, earlier(name), p, true);
    lemma_filter_split(pending, later(name), q, false);
    if same {
        assert(put(pending, change) =~= pending.update(p, change));
    } else {
        assert(put(pending, change) =~= pending.insert(p, change));
    }
}

proof fn lemma_put_by_name(pending: Seq<Change>, change: Change)
    requires
        by_name(pending),
    ensures
        by_name(put(pending, change)),
{
    reveal(Seq::filter);
    let head = pending.filter(earlier(change.name));
    let tail = pending.filter(later(change.name));
    lemma_filter_by_name(pending, earlier(change.name));
    lemma_filter_by_name(pending, later(change.name));
    let all = put(pending, change);
    assert forall|i: int, j: int| 0 <= i < j < all.len() implies before(
        (#[trigger] all[i]).name,
        (#[trigger] all[j]).name,
    ) by {
        let h = head.len() as int;
        if i < h {
            assert(earlier(change.name)(head[i]));
        }
        if j < h {
            assert(before(head[i].name, head[j].name));
        } else if j > h {
            assert(later(change.name)(tail[j - h - 1]));
            if i > h {
                assert(before(tail[i - h - 1].name, tail[j - h - 1].name));
            }
            lemma_order_is_total(all[i].name, change.name, all[j].name);
            lemma_order_is_total(change.name, all[i].name, change.name);
        }
    }
}

proof fn lemma_filter_by_name(pending: Seq<Change>, f: spec_fn(Change) -> bool)
    requires
        by_name(pending),
    ensures
        by_name(pending.filter(f)),
        forall|i: int| 0 <= i < pending.filter(f).len() ==> f(#[trigger] pending.filter(f)[i]),
        forall|i: int|
            0 <= i < pending.filter(f).len() ==> pending.contains(
                #[trigger] pending.filter(f)[i],
            ),
    decreases pending.len(),
{
    reveal(Seq::filter);
    if pending.len() > 0 {
        let init = pending.drop_last();
        let last = pending.last();
        lemma_filter_by_name(init, f);
        let kept = pending.filter(f);
        assert forall|i: int| 0 <= i < kept.len() implies pending.contains(#[trigger] kept[i]) by {
            if i < init.filter(f).len() {
                assert(init.contains(init.filter(f)[i]));
                let k = choose|k: int| 0 <= k < init.len() && init[k] == init.filter(f)[i];
                assert(pending[k] == kept[i]);
            } else {
                assert(pending[pending.len() - 1] == kept[i]);
            }
        }
        assert forall|i: int, j: int| 0 <= i < j < kept.len() implies before(
            (#[trigger] kept[i]).name,
            (#[trigger] kept[j]).name,
        ) by {
            if j == init.filter(f).len() {
                assert(init.contains(init.filter(f)[i]));
                let k = choose|k: int| 0 <= k < init.len() && init[k] == init.filter(f)[i];
                assert(pending[k] == kept[i]);
                assert(pending[pending.len() - 1] == kept[j]);
            }
        }
    }
}

impl Logger {
    /// What holds of every logger that [`Logger::new`] made.
    pub open spec fn wf(self) -> bool {
        self@.wf()
    }

    /// A logger at the start of a session.
    pub fn new() -> (r: Logger)
        ensures
            r@ == LogState::initial(),
            r.wf(),
    {
        let r = Logger {
            last_loaded: None,
            dirty: false,
            next_id: 1,
            active_notes: HashMap::new(),
            pending_params: Vec::new(),
        };
        assert(r@ =~= LogState::initial());
        r
    }

    /// The first line of a log.
    pub fn header(wall_unix: u64, patch: Patch) -> (r: LogLine)
        ensures
            r@ == (LineView {
                t: 0,
                event: EventView::SessionStart { v: FORMAT_VERSION, wall_unix, patch: patch@ },
            }),
            r@.event->SessionStart_v == 1,
    {
        LogLine {
            t: 0,
            event: LogEvent::SessionStart { v: FORMAT_VERSION, wall_unix, patch },
        }
    }

    /// How long to wait for the next message, in milliseconds.
    pub fn timeout_ms(&self) -> (r: u64)
        ensures
            r == (if self@.pending.len() == 0 {
                IDLE_TIMEOUT_MS
            } else {
                BUSY_TIMEOUT_MS
            }),
            self@.pending.len() == 0 ==> r == 60_000,
            self@.pending.len() > 0 ==> r == 20,
    {
        if self.pending_params.is_empty() {
            IDLE_TIMEOUT_MS
        } else {
            BUSY_TIMEOUT_MS
        }
    }

    /// Writes every change that is held back.
    pub fn flush_all_pending(&mut self, now: u128) -> (r: Vec<LogLine>)
        ensures
            lines(r@) == change_lines(old(self)@.pending, now),
            final(self)@ == (LogState { pending: Seq::empty(), ..old(self)@ }),
    {
        let mut out: Vec<LogLine> = Vec::new();
        let t = t_ms(now);
        let ghost all = self@.pending;
        let mut i: usize = 0;
        while i < self.pending_params.len()
            invariant
                i <= self.pending_params.len(),
                *self == *old(self),
                t == shown_time(now),
                all == changes(self.pending_params@),
                lines(out@) =~= change_lines(all.take(i as int), now),
            decreases self.pending_params.len() - i,
        {
            let p = &self.pending_params[i];
            let ghost before = out@;
            out.push(
                LogLine { t, event: LogEvent::Param { name: p.name.clone(), value: p.value } },
            );
            assert(lines(out@) =~= lines(before).push(out@.last()@));
            assert(all.take(i + 1) =~= all.take(i as int).push(all[i as int]));
            i = i + 1;
        }
        assert(all.take(i as int) =~= all);
        self.pending_params = Vec::new();
        assert(self@ =~= (LogState { pending: Seq::empty(), ..old(self)@ }));
        out
    }

    /// Writes the changes that were held back long enough.
    pub fn flush_stale_pending(&mut self, now: u128) -> (r: Vec<LogLine>)
        ensures
            lines(r@) == old(self)@.settling_lines(now),
            final(self)@ == old(self)@.settled(now),
            old(self).wf() ==> final(self).wf(),
    {
        let mut out: Vec<LogLine> = Vec::new();
        let mut kept: Vec<Pending> = Vec::new();
        let t = t_ms(now);
        let ghost all = self@.pending;
        let mut i: usize = 0;
        reveal(Seq::filter);
        assert(all.take(0) =~= Seq::<Change>::empty());
        while i < self.pending_params.len()
            invariant
                i <= self.pending_params.len(),
                *self == *old(self),
                t == shown_time(now),
                all == changes(self.pending_params@),
                changes(kept@) =~= all.take(i as int).filter(fresh(now)),
                lines(out@) =~= change_lines(all.take(i as int).filter(stale(now)), now),
            decreases self.pending_params.len() - i,
        {
            let p = &self.pending_params[i];
            proof {
                reveal(Seq::filter);
                assert(all.take(i + 1).drop_last() =~= all.take(i as int));
                assert(all.take(i + 1).last() == p@);
            }
            if now >= COALESCE_NANOS && p.at <= now - COALESCE_NANOS {
                let ghost before = out@;
                out.push(
                    LogLine { t, event: LogEvent::Param { name: p.name.clone(), value: p.value } },
                );
                assert(lines(out@) =~= lines(before).push(out@.last()@));
            } else {
                let ghost before = kept@;
                kept.push(Pending { name: p.name.clone(), value: p.value, at: p.at });
                assert(changes(kept@) =~= changes(before).push(p@));
            }
            i = i + 1;
        }
        assert(all.take(i as int) =~= all);
        self.pending_params = kept;
        proof {
            if old(self).wf() {
                lemma_filter_by_name(all, fresh(now));
                all.lemma_filter_len(fresh(now));
            }
        }
        assert(self@ =~= old(self)@.settled(now));
        out
    }

    /// Holds a change back.
    fn hold_back(&mut self, name: String, value: u32, now: u128)
        requires
            by_name(old(self)@.pending),
        ensures
            final(self)@ == (LogState {
                pending: put(
                    old(self)@.pending,
                    Change { name: name@, value, at: now },
                ),
                ..old(self)@
            }),
    {
        let ghost all = self@.pending;
        let ghost change = Change { name: name@, value, at: now };
        let key = chars_of(name.as_str());
        let mut p: usize = 0;
        while p < self.pending_params.len()
            invariant
                *self == *old(self),
                key@ == name@,
                all == changes(self.pending_params@),
                by_name(all),
                p <= self.pending_params.len(),
                forall|i: int| 0 <= i < p ==> before((#[trigger] all[i]).name, name@),
            ensures
                p < all.len() ==> at_most(name@, all[p as int].name),
            decreases self.pending_params.len() - p,
        {
            let other = chars_of(self.pending_params[p].name.as_str());
            if in_order(&key, &other) {
                break;
            }
            proof {
                lemma_order_is_total(name@, other@, name@);
            }
            p = p + 1;
        }
        proof {
            lemma_put(all, change, p as int);
        }
        if p < self.pending_params.len() && self.pending_params[p].name == name {
            self.pending_params[p] = Pending { name, value, at: now };
            assert(changes(self.pending_params@) =~= all.update(p as int, change));
        } else {
            self.pending_params.insert(p, Pending { name, value, at: now });
            assert(changes(self.pending_params@) =~= all.insert(p as int, change));
        }
    }

    /// Takes a message; gives the lines to write.
    pub fn handle(&mut self, msg: LogMsg, now: u128) -> (r: Vec<LogLine>)
        requires
            old(self).wf(),
        ensures
            lines(r@) == old(self)@.told_lines(msg@, now),
            final(self)@ == old(self)@.told(msg@, now),
            final(self).wf(),
    {
        broadcast use group_hash_axioms;

        let t = t_ms(now);
        let ghost st = self@;
        let ghost m = msg@;
        match msg {
            LogMsg::Param { name, value } => {
                let mut out: Vec<LogLine> = Vec::new();
                if !self.dirty {
                    match &self.last_loaded {
                        Some(base) => {
                            out.push(
                                LogLine {
                                    t,
                                    event: LogEvent::PatchDirty { base: Some(base.clone()) },
                                },
                            );
                        },
                        None => {},
                    }
                    self.dirty = true;
                }
                proof {
                    lemma_put_by_name(st.pending, Change { name: name@, value, at: now });
                }
                self.hold_back(name, value, now);
                assert(lines(out@) =~= st.told_lines(m, now));
                assert(self@ =~= st.told(m, now));
                out
            },
            LogMsg::NoteOn { note, vel } => {
                let mut out = self.flush_all_pending(now);
                let id = self.next_id;
                self.next_id = self.next_id.wrapping_add(1);
                self.active_notes.insert(note, id);
                out.push(LogLine { t, event: LogEvent::NoteOn { id, ch: CHANNEL, note, vel } });
                assert(lines(out@) =~= st.told_lines(m, now));
                assert(self@ =~= st.told(m, now));
                out
            },
            LogMsg::NoteOff { note } => {
                let mut out = self.flush_all_pending(now);
                let id: u32 = match self.active_notes.remove(&note) {
                    Some(id) => id,
                    None => {
                        let id: u32 = self.next_id;
                        self.next_id = self.next_id.wrapping_add(1);
                        id
                    },
                };
                out.push(LogLine { t, event: LogEvent::NoteOff { id, ch: CHANNEL, note } });
                assert(lines(out@) =~= st.told_lines(m, now));
                assert(self@ =~= st.told(m, now));
                out
            },
            LogMsg::PatchLoad { name, patch } => {
                let mut out = self.flush_all_pending(now);
                out.push(
                    LogLine { t, event: LogEvent::PatchLoad { name: name.clone(), patch } },
                );
                self.last_loaded = Some(name);
                self.dirty = false;
                self.active_notes.clear();
                assert(lines(out@) =~= st.told_lines(m, now));
                assert(self@ =~= st.told(m, now));
                out
            },
            LogMsg::PatchSave { name, patch } => {
                let mut out = self.flush_all_pending(now);
                out.push(
                    LogLine { t, event: LogEvent::PatchSave { name: name.clone(), patch } },
                );
                self.last_loaded = Some(name);
                self.dirty = false;
                assert(lines(out@) =~= st.told_lines(m, now));
                assert(self@ =~= st.told(m, now));
                out
            },
            LogMsg::PatchDirty { base } => {
                let mut out: Vec<LogLine> = Vec::new();
                out.push(LogLine { t, event: LogEvent::PatchDirty { base } });
                self.dirty = true;
                assert(lines(out@) =~= st.told_lines(m, now));
                assert(self@ =~= st.told(m, now));
                out
            },
        }
    }

    /// One turn: takes what the wait has brought and says what to write. When
    /// no message will come any more, everything that is held back is written
    /// and the log ends.
    pub fn turn(&mut self, input: LogInput, now: u128) -> (r: Turn)
        requires
            old(self).wf(),
        ensures
            lines(r.lines@) == old(self)@.turn_lines(input@, now),
            r.go_on == !(input is Disconnected),
            final(self)@ == old(self)@.turned(input@, now),
            final(self).wf(),
    {
        match input {
            LogInput::Message { msg } => {
                let mut out = self.handle(msg, now);
                let mut settled = self.flush_stale_pending(now);
                let ghost first = out@;
                let ghost second = settled@;
                out.append(&mut settled);
                assert(lines(out@) =~= lines(first) + lines(second));
                Turn { lines: out, go_on: true }
            },
            LogInput::Timeout => Turn { lines: self.flush_stale_pending(now), go_on: true },
            LogInput::Disconnected => Turn { lines: self.flush_all_pending(now), go_on: false },
        }
    }
}

/// Every state that a logger can reach is well formed: the first one is, and
/// messages and the passing of time keep it so.
pub proof fn lemma_logger_stays_well_formed(s: LogState, msg: MsgView, now: u128)
    requires
        s.wf(),
    ensures
        LogState::initial().wf(),
        s.told(msg, now).wf(),
        s.settled(now).wf(),
        s.turned(InputView::Message { msg }, now).wf(),
        s.turned(InputView::Timeout, now).wf(),
        s.turned(InputView::Disconnected, now).wf(),
{
    match msg {
        MsgView::Param { name, value } => {
            lemma_put_by_name(s.pending, Change { name, value, at: now });
        },
        _ => {},
    }
    lemma_filter_by_name(s.pending, fresh(now));
    s.pending.lemma_filter_len(fresh(now));
    let told = s.told(msg, now).pending;
    lemma_filter_by_name(told, fresh(now));
    told.lemma_filter_len(fresh(now));
}

/// The first parameter change after a patch was loaded or saved is marked, with
/// that patch's name, before any such change is written: none is held back
/// yet, and this one only now.
pub proof fn lemma_first_change_is_marked(
    s: LogState,
    base: Seq<char>,
    name: Seq<char>,
    value: u32,
    now: u128,
)
    requires
        s.wf(),
        !s.dirty,
        s.last_loaded == Some(base),
    ensures
        s.told_lines(MsgView::Param { name, value }, now) == seq![
            LineView {
                t: shown_time(now),
                event: EventView::PatchDirty { base: Some(base) },
            },
        ],
        s.pending == Seq::<Change>::empty(),
        s.told(MsgView::Param { name, value }, now).pending == seq![
            Change { name, value, at: now },
        ],
        s.told(MsgView::Param { name, value }, now).dirty,
{
    reveal(Seq::filter);
    assert(s.pending =~= Seq::<Change>::empty());
    assert(put(s.pending, Change { name, value, at: now }) =~= seq![
        Change { name, value, at: now },
    ]);
    assert(s.told_lines(MsgView::Param { name, value }, now) =~= seq![
        LineView { t: shown_time(now), event: EventView::PatchDirty { base: Some(base) } },
    ]);
}

/// Later changes are not marked again, until a patch is loaded or saved.
pub proof fn lemma_change_is_marked_once(s: LogState, msg: MsgView, now: u128)
    requires
        s.dirty,
    ensures
        msg is Param ==> s.told_lines(msg, now) == Seq::<LineView>::empty(),
        !(msg is PatchLoad) && !(msg is PatchSave) ==> s.told(msg, now).dirty,
        s.settled(now).dirty,
{
}

/// Of several changes to one parameter only the last is held back.
pub proof fn lemma_last_change_wins(
    s: LogState,
    name: Seq<char>,
    first: u32,
    first_at: u128,
    last: u32,
    last_at: u128,
)
    requires
        s.wf(),
    ensures
        s.told(MsgView::Param { name, value: first }, first_at).told(
            MsgView::Param { name, value: last },
            last_at,
        ).pending == s.told(MsgView::Param { name, value: last }, last_at).pending,
{
    let p = s.pending;
    let a = Change { name, value: first, at: first_at };
    let b = Change { name, value: last, at: last_at };
    let once = put(p, a);
    let head = p.filter(earlier(name));
    let tail = p.filter(later(name));
    lemma_filter_by_name(p, earlier(name));
    lemma_filter_by_name(p, later(name));
    lemma_put_by_name(p, a);
    assert forall|i: int| 0 <= i < head.len() implies before((#[trigger] once[i]).name, name) by {
        assert(earlier(name)(head[i]));
    }
    assert(once[head.len() as int] == a);
    lemma_order_is_total(name, name, name);
    lemma_put(once, b, head.len() as int);
    assert(once.update(head.len() as int, b) =~= put(p, b));
}

/// Holding a change back loses no change to another parameter.
pub proof fn lemma_other_changes_stay(pending: Seq<Change>, change: Change, i: int)
    requires
        0 <= i < pending.len(),
        pending[i].name != change.name,
    ensures
        put(pending, change).contains(pending[i]),
        put(pending, change).contains(change),
{
    let c = pending[i];
    let head = pending.filter(earlier(change.name));
    let tail = pending.filter(later(change.name));
    let all = put(pending, change);
    assert(all[head.len() as int] == change);
    lemma_order_is_total(c.name, change.name, c.name);
    if before(c.name, change.name) {
        assert(earlier(change.name)(pending[i]));
        pending.lemma_filter_contains(earlier(change.name), i);
        let k = choose|k: int| 0 <= k < head.len() && head[k] == c;
        assert(all[k] == c);
    } else {
        assert(later(change.name)(pending[i]));
        pending.lemma_filter_contains(later(change.name), i);
        let k = choose|k: int| 0 <= k < tail.len() && tail[k] == c;
        assert(all[head.len() + 1 + k] == c);
    }
}

/// A released key is logged under the number that its press was logged under,
/// unless a patch was loaded in between; other keys and parameter changes make
/// no difference.
pub proof fn lemma_note_off_matches_note_on(
    s: LogState,
    note: u8,
    vel: u32,
    msg: MsgView,
    now: u128,
)
    ensures
        s.own_event(MsgView::NoteOn { note, vel }) == Some(
            EventView::NoteOn { id: s.next_id, ch: CHANNEL, note, vel },
        ),
        s.told(MsgView::NoteOn { note, vel }, now).off_id(note) == s.next_id,
        s.active.contains_key(note) && !(msg is PatchLoad) && !(msg is NoteOn && msg->NoteOn_note
            == note) && !(msg is NoteOff && msg->NoteOff_note == note) ==> s.told(
            msg,
            now,
        ).active.contains_key(note) && s.told(msg, now).off_id(note) == s.off_id(note),
{
}

/// Notes and patches are logged after every change that came before them:
/// whatever was held back is written first, and nothing stays behind.
pub proof fn lemma_log_keeps_order(s: LogState, msg: MsgView, now: u128)
    requires
        !(msg is Param),
        !(msg is PatchDirty),
    ensures
        s.told(msg, now).pending.len() == 0,
        s.told_lines(msg, now) == change_lines(s.pending, now).push(
            LineView { t: shown_time(now), event: s.own_event(msg)->0 },
        ),
{
}

/// Changes are written in the order of the parameters' names.
pub proof fn lemma_changes_are_written_by_name(pending: Seq<Change>, now: u128, i: int, j: int)
    requires
        by_name(pending),
        0 <= i < j < pending.len(),
    ensures
        before(
            change_lines(pending, now)[i].event->Param_name,
            change_lines(pending, now)[j].event->Param_name,
        ),
{
    assert(before(pending[i].name, pending[j].name));
}

/// As time passes a change is either written or still held back, and it is
/// held back only as long as it is fresh.
pub proof fn lemma_no_change_is_lost(s: LogState, now: u128, i: int)
    requires
        0 <= i < s.pending.len(),
    ensures
        s.pending[i].at + COALESCE_NANOS <= now ==> s.settling_lines(now).contains(
            LineView {
                t: shown_time(now),
                event: EventView::Param { name: s.pending[i].name, value: s.pending[i].value },
            },
        ),
        s.pending[i].at + COALESCE_NANOS > now ==> s.settled(now).pending.contains(s.pending[i]),
{
    if s.pending[i].at + COALESCE_NANOS <= now {
        assert(stale(now)(s.pending[i]));
        s.pending.lemma_filter_contains(stale(now), i);
        let written = s.pending.filter(stale(now));
        let k = choose|k: int| 0 <= k < written.len() && written[k] == s.pending[i];
        assert(s.settling_lines(now)[k].event == (EventView::Param {
            name: s.pending[i].name,
            value: s.pending[i].value,
        }));
    } else {
        assert(fresh(now)(s.pending[i]));
        s.pending.lemma_filter_contains(fresh(now), i);
    }
}

/// After the changes that were held back long enough were written, those that
/// are left are fresh.
pub proof fn lemma_settled_changes_are_fresh(s: LogState, now: u128, i: int)
    requires
        0 <= i < s.settled(now).pending.len(),
    ensures
        s.settled(now).pending[i].at + COALESCE_NANOS > now,
{
    s.pending.lemma_filter_pred(fresh(now), i);
}

/// The change that a message makes is not written in the same turn: it is held
/// back, so that a later one can take its place.
pub proof fn lemma_change_is_held_back(s: LogState, name: Seq<char>, value: u32, now: u128)
    ensures
        s.turned(
            InputView::Message { msg: MsgView::Param { name, value } },
            now,
        ).pending.contains(Change { name, value, at: now }),
{
    let change = Change { name, value, at: now };
    let all = put(s.pending, change);
    let i = s.pending.filter(earlier(name)).len() as int;
    assert(all[i] == change);
    assert(fresh(now)(all[i]));
    all.lemma_filter_contains(fresh(now), i);
}

/// When the log ends, nothing is left unwritten.
pub proof fn lemma_log_ends_complete(s: LogState, now: u128)
    ensures
        s.turned(InputView::Disconnected, now).pending.len() == 0,
        s.turn_lines(InputView::Disconnected, now) == change_lines(s.pending, now),
{
}

proof fn lemma_filter_map_add<A, B>(a: Seq<A>, b: Seq<A>, f: spec_fn(A) -> Option<B>)
    ensures
        (a + b).filter_map(f) == a.filter_map(f) + b.filter_map(f),
    decreases b.len(),
{
    if b.len() == 0 {
        assert(a + b =~= a);
        assert(b.filter_map(f) =~= Seq::<B>::empty());
    } else {
        assert((a + b).drop_last() =~= a + b.drop_last());
        lemma_filter_map_add(a, b.drop_last(), f);
        assert((a + b).filter_map(f) =~= a.filter_map(f) + b.filter_map(f));
    }
}

proof fn lemma_filter_map_none<A, B>(s: Seq<A>, f: spec_fn(A) -> Option<B>)
    requires
        forall|i: int| 0 <= i < s.len() ==> f(#[trigger] s[i]) is None,
    ensures
        s.filter_map(f) == Seq::<B>::empty(),
    decreases s.len(),
{
    if s.len() > 0 {
        assert(f(s[s.len() - 1]) is None);
        lemma_filter_map_none(s.drop_last(), f);
    }
}

proof fn lemma_written_changes(pending: Seq<Change>, now: u128, name: Seq<char>)
    ensures
        written(change_lines(pending, now), name) == held(pending, name),
        markers(change_lines(pending, now)) == Seq::<Option<Seq<char>>>::empty(),
    decreases pending.len(),
{
    lemma_filter_map_none(change_lines(pending, now), marks_from());
    if pending.len() > 0 {
        lemma_written_changes(pending.drop_last(), now, name);
        assert(change_lines(pending, now).drop_last() =~= change_lines(pending.drop_last(), now));
    }
}

proof fn lemma_held_once(pending: Seq<Change>, name: Seq<char>)
    requires
        by_name(pending),
    ensures
        held(pending, name).len() <= 1,
    decreases pending.len(),
{
    if pending.len() > 0 {
        let init = pending.drop_last();
        lemma_held_once(init, name);
        if pending.last().name == name {
            assert forall|i: int| 0 <= i < init.len() implies changes_to(name)(
                #[trigger] init[i],
            ) is None by {
                assert(before(pending[i].name, pending[pending.len() - 1].name));
            }
            lemma_filter_map_none(init, changes_to(name));
        }
    }
}

proof fn lemma_held_apart(
    pending: Seq<Change>,
    name: Seq<char>,
    f: spec_fn(Change) -> bool,
    g: spec_fn(Change) -> bool,
)
    requires
        held(pending, name).len() <= 1,
        forall|i: int|
            0 <= i < pending.len() && (#[trigger] pending[i]).name == name ==> f(pending[i]) != g(
                pending[i],
            ),
    ensures
        held(pending, name) == held(pending.filter(f), name) + held(pending.filter(g), name),
    decreases pending.len(),
{
    reveal(Seq::filter);
    if pending.len() > 0 {
        let init = pending.drop_last();
        let last = pending.last();
        assert forall|i: int| 0 <= i < init.len() && (#[trigger] init[i]).name == name implies f(
            init[i],
        ) != g(init[i]) by {
            assert(pending[i] == init[i]);
        }
        lemma_held_apart(init, name, f, g);
        assert(last == pending[pending.len() - 1]);
        let fi = init.filter(f);
        let gi = init.filter(g);
        assert(fi.push(last).drop_last() =~= fi);
        assert(gi.push(last).drop_last() =~= gi);
        assert(held(fi.push(last), name) =~= held(fi, name) + (if last.name == name {
            seq![last.value]
        } else {
            Seq::empty()
        }));
        assert(held(gi.push(last), name) =~= held(gi, name) + (if last.name == name {
            seq![last.value]
        } else {
            Seq::empty()
        }));
        assert(held(pending, name) =~= held(pending.filter(f), name) + held(
            pending.filter(g),
            name,
        ));
    } else {
        assert(held(pending, name) =~= held(pending.filter(f), name) + held(
            pending.filter(g),
            name,
        ));
    }
}

proof fn lemma_held_after_put(pending: Seq<Change>, change: Change, name: Seq<char>)
    requires
        by_name(pending),
    ensures
        held(put(pending, change), name) == (if change.name == name {
            seq![change.value]
        } else {
            held(pending, name)
        }),
{
    let f = earlier(change.name);
    let g = later(change.name);
    let head = pending.filter(f);
    let tail = pending.filter(g);
    lemma_filter_by_name(pending, f);
    lemma_filter_by_name(pending, g);
    lemma_filter_map_add(head + seq![change], tail, changes_to(name));
    lemma_filter_map_add(head, seq![change], changes_to(name));
    Seq::lemma_filter_map_singleton(change, changes_to(name));
    if change.name == name {
        assert forall|i: int| 0 <= i < head.len() implies changes_to(name)(
            #[trigger] head[i],
        ) is None by {
            assert(f(head[i]));
        }
        assert forall|i: int| 0 <= i < tail.len() implies changes_to(name)(
            #[trigger] tail[i],
        ) is None by {
            assert(g(tail[i]));
        }
        lemma_filter_map_none(head, changes_to(name));
        lemma_filter_map_none(tail, changes_to(name));
    } else {
        lemma_held_once(pending, name);
        assert forall|i: int|
            0 <= i < pending.len() && (#[trigger] pending[i]).name == name implies f(pending[i])
            != g(pending[i]) by {
            lemma_order_is_total(name, change.name, name);
        }
        lemma_held_apart(pending, name, f, g);
    }
    assert(held(put(pending, change), name) =~= (if change.name == name {
        seq![change.value]
    } else {
        held(pending, name)
    }));
}

/// What one turn does to the values written and held back of a parameter.
proof fn lemma_turn_of_changes(s: LogState, input: InputView, now: u128, name: Seq<char>)
    requires
        by_name(s.pending),
        holds_back(input),
    ensures
        by_name(s.turned(input, now).pending),
        held(s.turned(input, now).pending, name).len() <= 1,
        written(s.turn_lines(input, now), name) + held(s.turned(input, now).pending, name) == (
        match sends(name)((input, now)) {
            Some(value) => seq![value],
            None => held(s.pending, name),
        }),
{
    let told = match input {
        InputView::Message { msg } => s.told(msg, now),
        _ => s,
    };
    let own = match input {
        InputView::Message { msg } => s.told_lines(msg, now),
        _ => Seq::empty(),
    };
    match input {
        InputView::Message { msg: MsgView::Param { name: n, value } } => {
            lemma_put_by_name(s.pending, Change { name: n, value, at: now });
            lemma_held_after_put(s.pending, Change { name: n, value, at: now }, name);
        },
        _ => {},
    }
    lemma_held_once(told.pending, name);
    lemma_held_apart(told.pending, name, stale(now), fresh(now));
    lemma_filter_by_name(told.pending, fresh(now));
    lemma_held_once(told.pending.filter(fresh(now)), name);
    lemma_written_changes(told.pending.filter(stale(now)), now, name);
    lemma_filter_map_none(own, writes(name));
    lemma_filter_map_add(own, told.settling_lines(now), writes(name));
    assert(own + told.settling_lines(now) =~= s.turn_lines(input, now));
    assert(written(s.turn_lines(input, now), name) =~= held(
        told.pending.filter(stale(now)),
        name,
    ));
}

proof fn lemma_run_of_changes(s: LogState, inputs: Seq<(InputView, u128)>, name: Seq<char>)
    requires
        s.pending.len() == 0,
        forall|i: int| 0 <= i < inputs.len() ==> holds_back((#[trigger] inputs[i]).0),
    ensures
        ({
            let w = written(s.run_lines(inputs), name);
            let h = held(s.turned_all(inputs).pending, name);
            let a = sent(inputs, name);
            &&& by_name(s.turned_all(inputs).pending)
            &&& (w + h).len() <= a.len()
            &&& a.len() > 0 ==> (w + h).len() > 0 && (w + h).last() == a.last()
        }),
    decreases inputs.len(),
{
    if inputs.len() > 0 {
        let init = inputs.drop_last();
        let (input, now) = inputs.last();
        let t = s.turned_all(init);
        assert forall|i: int| 0 <= i < init.len() implies holds_back((#[trigger] init[i]).0) by {
            assert(inputs[i] == init[i]);
        }
        lemma_run_of_changes(s, init, name);
        assert(holds_back(inputs[inputs.len() - 1].0));
        lemma_turn_of_changes(t, input, now, name);
        lemma_filter_map_add(s.run_lines(init), t.turn_lines(input, now), writes(name));
        let w = written(s.run_lines(init), name);
        let x = written(t.turn_lines(input, now), name);
        let h = held(t.turned(input, now).pending, name);
        assert((w + x) + h =~= w + (x + h));
    }
}

/// Between two other messages (notes, patches, or the end of the log) every
/// parameter that was changed gets at least one line and at most one for every
/// change, and the last of its lines has the last value; a parameter that was
/// not changed gets none. It makes no difference when the changes come.
pub proof fn lemma_changes_between_messages(
    s: LogState,
    inputs: Seq<(InputView, u128)>,
    end: InputView,
    now: u128,
    name: Seq<char>,
)
    requires
        s.pending.len() == 0,
        forall|i: int| 0 <= i < inputs.len() ==> holds_back((#[trigger] inputs[i]).0),
        !holds_back(end),
    ensures
        ({
            let values = written(s.run_lines(inputs.push((end, now))), name);
            let changes = sent(inputs, name);
            if changes.len() == 0 {
                values.len() == 0
            } else {
                1 <= values.len() <= changes.len() && values.last() == changes.last()
            }
        }),
        s.turned_all(inputs.push((end, now))).pending.len() == 0,
{
    let t = s.turned_all(inputs);
    let all = inputs.push((end, now));
    assert(all.drop_last() =~= inputs);
    lemma_run_of_changes(s, inputs, name);
    lemma_filter_map_add(s.run_lines(inputs), t.turn_lines(end, now), writes(name));
    lemma_written_changes(t.pending, now, name);
    reveal(Seq::filter);
    match end {
        InputView::Message { msg } => {
            let line = LineView { t: shown_time(now), event: t.own_event(msg)->0 };
            let flushed = change_lines(t.pending, now);
            assert(t.told(msg, now).pending =~= Seq::<Change>::empty());
            assert(t.turn_lines(end, now) =~= flushed + seq![line]);
            lemma_filter_map_add(flushed, seq![line], writes(name));
            lemma_filter_map_none(seq![line], writes(name));
            assert(written(t.turn_lines(end, now), name) =~= held(t.pending, name));
        },
        _ => {},
    }
}

pub(crate) proof fn lemma_marks_add(l: Lineage, a: Seq<MsgView>, b: Seq<MsgView>)
    ensures
        l.told_all(a + b) == l.told_all(a).told_all(b),
        l.marks(a + b) == l.marks(a) + l.told_all(a).marks(b),
    decreases b.len(),
{
    if b.len() == 0 {
        assert(a + b =~= a);
        assert(l.marks(a) + l.told_all(a).marks(b) =~= l.marks(a));
    } else {
        assert((a + b).drop_last() =~= a + b.drop_last());
        lemma_marks_add(l, a, b.drop_last());
        assert(l.marks(a + b) =~= l.marks(a) + l.told_all(a).marks(b));
    }
}

/// The markers in a log follow from the messages alone, whenever they come.
pub proof fn lemma_markers_follow_the_messages(s: LogState, inputs: Seq<(InputView, u128)>)
    ensures
        markers(s.run_lines(inputs)) == s.lineage().marks(messages_in(inputs)),
        s.turned_all(inputs).lineage() == s.lineage().told_all(messages_in(inputs)),
    decreases inputs.len(),
{
    if inputs.len() > 0 {
        let init = inputs.drop_last();
        let (input, now) = inputs.last();
        let t = s.turned_all(init);
        let l = s.lineage();
        lemma_markers_follow_the_messages(s, init);
        lemma_filter_map_add(s.run_lines(init), t.turn_lines(input, now), marks_from());
        lemma_written_changes(t.pending, now, Seq::empty());
        lemma_written_changes(t.pending.filter(stale(now)), now, Seq::empty());
        match input {
            InputView::Message { msg } => {
                let told = t.told(msg, now);
                let settled = told.settling_lines(now);
                lemma_written_changes(told.pending.filter(stale(now)), now, Seq::empty());
                lemma_filter_map_add(t.told_lines(msg, now), settled, marks_from());
                let held_lines = match msg {
                    MsgView::Param { name, value } => Seq::empty(),
                    MsgView::PatchDirty { base } => Seq::empty(),
                    _ => change_lines(t.pending, now),
                };
                let own = match t.own_event(msg) {
                    Some(event) => seq![LineView { t: shown_time(now), event }],
                    None => Seq::empty(),
                };
                assert(t.told_lines(msg, now) =~= held_lines + own);
                lemma_filter_map_add(held_lines, own, marks_from());
                reveal_with_fuel(Seq::filter_map, 2);
                assert(messages_in(inputs) =~= messages_in(init) + seq![msg]);
                assert(messages_in(inputs).drop_last() =~= messages_in(init));
                assert(markers(s.run_lines(inputs)) =~= l.marks(messages_in(inputs)));
            },
            _ => {
                assert(markers(t.turn_lines(input, now)) =~= Seq::<Option<Seq<char>>>::empty());
                assert(markers(s.run_lines(inputs)) =~= l.marks(messages_in(inputs)));
            },
        }
    }
}

proof fn lemma_marks_once(l: Lineage, msgs: Seq<MsgView>)
    requires
        forall|i: int|
            0 <= i < msgs.len() ==> !(#[trigger] msgs[i] is PatchLoad) && !(msgs[i] is PatchSave)
                && !(msgs[i] is PatchDirty),
    ensures
        l.told_all(msgs).base == l.base,
        l.told_all(msgs).dirty == (l.dirty || exists|i: int|
            0 <= i < msgs.len() && #[trigger] msgs[i] is Param),
        l.marks(msgs) == (if !l.dirty && l.base is Some && exists|i: int|
            0 <= i < msgs.len() && #[trigger] msgs[i] is Param {
            seq![l.base]
        } else {
            Seq::empty()
        }),
    decreases msgs.len(),
{
    if msgs.len() > 0 {
        let init = msgs.drop_last();
        assert forall|i: int| 0 <= i < init.len() implies !(#[trigger] init[i] is PatchLoad) && !(
        init[i] is PatchSave) && !(init[i] is PatchDirty) by {
            assert(msgs[i] == init[i]);
        }
        lemma_marks_once(l, init);
        let last = msgs[msgs.len() - 1];
        assert(!(last is PatchLoad) && !(last is PatchSave) && !(last is PatchDirty));
        if exists|i: int| 0 <= i < init.len() && #[trigger] init[i] is Param {
            let i = choose|i: int| 0 <= i < init.len() && #[trigger] init[i] is Param;
            assert(msgs[i] is Param);
        }
        if exists|i: int| 0 <= i < msgs.len() && #[trigger] msgs[i] is Param {
            let i = choose|i: int| 0 <= i < msgs.len() && #[trigger] msgs[i] is Param;
            assert(i < init.len() ==> init[i] is Param);
        }
        assert(l.marks(init).push(l.base) =~= seq![l.base] || l.marks(init).len() > 0);
    }
}

/// From one load or save to the next the log marks the first change, with the
/// patch's name, and nothing else: one marker when there is a change, none when
/// there is not, however many changes follow and whenever they come.
pub proof fn lemma_one_marker_after_a_patch(
    s: LogState,
    base: Seq<char>,
    inputs: Seq<(InputView, u128)>,
)
    requires
        !s.dirty,
        s.last_loaded == Some(base),
        forall|i: int|
            0 <= i < messages_in(inputs).len() ==> !(
            #[trigger] messages_in(inputs)[i] is PatchLoad) && !(messages_in(
                inputs,
            )[i] is PatchSave) && !(messages_in(inputs)[i] is PatchDirty),
    ensures
        markers(s.run_lines(inputs)) == (if exists|i: int|
            0 <= i < messages_in(inputs).len() && #[trigger] messages_in(inputs)[i] is Param {
            seq![Some(base)]
        } else {
            Seq::empty()
        }),
{
    lemma_markers_follow_the_messages(s, inputs);
    lemma_marks_once(s.lineage(), messages_in(inputs));
}

/// The log's times do not run backwards.
pub proof fn lemma_times_do_not_run_backwards(first: u128, second: u128)
    requires
        first <= second,
        second / NANOS_PER_MS <= u64::MAX,
    ensures
        shown_time(first) <= shown_time(second),
{
}

/// The messages for the logger, until they are sent off.
pub struct History {
    pub outbox: Vec<LogMsg>,
}

impl View for History {
    type V = Seq<MsgView>;

    open spec fn view(&self) -> Seq<MsgView> {
        messages(self.outbox@)
    }
}

impl History {
    /// No messages yet.
    pub fn new() -> (r: History)
        ensures
            r@ == Seq::<MsgView>::empty(),
    {
        let r = History { outbox: Vec::new() };
        assert(r@ =~= Seq::<MsgView>::empty());
        r
    }

    fn send(&mut self, msg: LogMsg)
        ensures
            final(self)@ == old(self)@.push(msg@),
    {
        self.outbox.push(msg);
        assert(self@ =~= old(self)@.push(msg@));
    }

    /// A key was pressed.
    pub fn note_on(&mut self, note: u8, vel: u32)
        ensures
            final(self)@ == old(self)@.push(MsgView::NoteOn { note, vel }),
    {
        self.send(LogMsg::NoteOn { note, vel });
    }

    /// A key was released.
    pub fn note_off(&mut self, note: u8)
        ensures
            final(self)@ == old(self)@.push(MsgView::NoteOff { note }),
    {
        self.send(LogMsg::NoteOff { note });
    }

    /// A parameter was set.
    pub fn param(&mut self, name: &str, value: u32)
        ensures
            final(self)@ == old(self)@.push(MsgView::Param { name: name@, value }),
    {
        self.send(LogMsg::Param { name: name.to_owned(), value });
    }

    /// A patch was loaded.
    pub fn patch_load(&mut self, name: &str, patch: Patch)
        ensures
            final(self)@ == old(self)@.push(
                MsgView::PatchLoad { name: name@, patch: patch@ },
            ),
    {
        self.send(LogMsg::PatchLoad { name: name.to_owned(), patch });
    }

    /// A patch was saved.
    pub fn patch_save(&mut self, name: &str, patch: Patch)
        ensures
            final(self)@ == old(self)@.push(
                MsgView::PatchSave { name: name@, patch: patch@ },
            ),
    {
        self.send(LogMsg::PatchSave { name: name.to_owned(), patch });
    }

    /// The sound no longer is the one of its patch.
    pub fn patch_dirty(&mut self, base: Option<String>)
        ensures
            final(self)@ == old(self)@.push(MsgView::PatchDirty { base: text(base) }),
    {
        self.send(LogMsg::PatchDirty { base });
    }

    /// Takes the messages out, the oldest first.
    pub fn take(&mut self) -> (r: Vec<LogMsg>)
        ensures
            messages(r@) == old(self)@,
            final(self)@ == Seq::<MsgView>::empty(),
    {
        let mut sent: Vec<LogMsg> = Vec::new();
        core::mem::swap(&mut sent, &mut self.outbox);
        assert(self@ =~= Seq::<MsgView>::empty());
        sent
    }
}

/// What a message writes. First come the changes that were held back, each with
/// its name and value, unless the message is itself about a change; then comes
/// the message's own line, with just what the message says. A note that is
/// pressed gets the next number, and one that is released the number of its
/// press, or the next one if there was none. Setting a parameter writes the
/// marker for its patch, if one is due, and nothing else. All lines show the
/// same time.
pub proof fn lemma_lines_of_a_message(s: LogState, msg: MsgView, now: u128)
    ensures
        ({
            let list = s.told_lines(msg, now);
            let n = s.pending.len() as int;
            &&& forall|i: int| 0 <= i < list.len() ==> (#[trigger] list[i]).t == shown_time(now)
            &&& !(msg is Param) && !(msg is PatchDirty) ==> {
                &&& list.len() == n + 1
                &&& forall|i: int|
                    0 <= i < n ==> (#[trigger] list[i]).event == (EventView::Param {
                        name: s.pending[i].name,
                        value: s.pending[i].value,
                    })
            }
            &&& match msg {
                MsgView::NoteOn { note, vel } => list.last().event == (EventView::NoteOn {
                    id: s.next_id,
                    ch: 0,
                    note,
                    vel,
                }),
                MsgView::NoteOff { note } => list.last().event == (EventView::NoteOff {
                    id: if s.active.contains_key(note) {
                        s.active[note]
                    } else {
                        s.next_id
                    },
                    ch: 0,
                    note,
                }),
                MsgView::PatchLoad { name, patch } => list.last().event == (EventView::PatchLoad {
                    name,
                    patch,
                }),
                MsgView::PatchSave { name, patch } => list.last().event == (EventView::PatchSave {
                    name,
                    patch,
                }),
                MsgView::PatchDirty { base } => list.len() == 1 && list[0].event == (
                EventView::PatchDirty { base }),
                MsgView::Param { name, value } => if s.last_loaded is Some && !s.dirty {
                    list.len() == 1 && list[0].event == (EventView::PatchDirty {
                        base: s.last_loaded,
                    })
                } else {
                    list.len() == 0
                },
            }
        }),
{
}

/// What a message changes. Only a change is held back; every other message but a
/// marker leaves nothing held back. A press takes the next number, and so does a
/// release without a press. Loading and saving name the patch and make the
/// sound unchanged; loading also forgets the held keys. A change or a marker
/// makes it changed. Nothing else is touched.
pub proof fn lemma_state_after_a_message(s: LogState, msg: MsgView, now: u128, key: u8)
    ensures
        ({
            let after = s.told(msg, now);
            let next = if s.next_id == u32::MAX {
                0
            } else {
                s.next_id + 1
            };
            let unheard = msg is NoteOff && !s.active.contains_key(msg->NoteOff_note);
            &&& after.next_id == (if msg is NoteOn || unheard {
                next
            } else {
                s.next_id as int
            })
            &&& after.last_loaded == (match msg {
                MsgView::PatchLoad { name, patch } => Some(name),
                MsgView::PatchSave { name, patch } => Some(name),
                _ => s.last_loaded,
            })
            &&& after.dirty == (if msg is Param || msg is PatchDirty {
                true
            } else if msg is PatchLoad || msg is PatchSave {
                false
            } else {
                s.dirty
            })
            &&& msg is PatchDirty ==> after.pending == s.pending
            &&& !(msg is PatchDirty) && !(msg is Param) ==> after.pending.len() == 0
            &&& msg is PatchLoad ==> !after.active.contains_key(key)
            &&& msg is NoteOn && msg->NoteOn_note == key ==> after.active.contains_key(key)
                && after.active[key] == s.next_id
            &&& msg is NoteOff && msg->NoteOff_note == key ==> !after.active.contains_key(key)
            &&& !(msg is PatchLoad) && !(msg is NoteOn && msg->NoteOn_note == key) && !(
            msg is NoteOff && msg->NoteOff_note == key) ==> {
                &&& after.active.contains_key(key) == s.active.contains_key(key)
                &&& s.active.contains_key(key) ==> after.active[key] == s.active[key]
            }
        }),
{
}

/// What is held back after one more change: that change, and every other that was
/// held back for another parameter, and nothing else.
pub proof fn lemma_held_back_changes(s: LogState, name: Seq<char>, value: u32, now: u128, c: Change)
    ensures
        s.told(MsgView::Param { name, value }, now).pending.contains(c) <==> c == (Change {
            name,
            value,
            at: now,
        }) || (s.pending.contains(c) && c.name != name),
{
    let change = Change { name, value, at: now };
    let f = earlier(name);
    let g = later(name);
    let head = s.pending.filter(f);
    let tail = s.pending.filter(g);
    let all = put(s.pending, change);
    assert(all[head.len() as int] == change);
    if all.contains(c) && c != change {
        let k = choose|k: int| 0 <= k < all.len() && all[k] == c;
        lemma_order_is_total(name, name, name);
        if k < head.len() {
            assert(head[k] == c);
            assert(head.contains(c));
            s.pending.lemma_filter_contains_rev(f, c);
            s.pending.lemma_filter_pred(f, k);
        } else {
            let m = k - head.len() - 1;
            assert(tail[m] == c);
            assert(tail.contains(c));
            s.pending.lemma_filter_contains_rev(g, c);
            s.pending.lemma_filter_pred(g, m);
        }
    }
    if s.pending.contains(c) && c.name != name {
        let i = choose|i: int| 0 <= i < s.pending.len() && s.pending[i] == c;
        lemma_other_changes_stay(s.pending, change, i);
    }
}

/// Changes are held back for fifty milliseconds after the parameter was set;
/// then they are written, and all others go on being held back.
pub proof fn lemma_settling(s: LogState, now: u128, c: Change)
    ensures
        s.settled(now).pending.contains(c) <==> s.pending.contains(c) && now < c.at + 50_000_000,
        s.settled(now).pending.len() + s.settling_lines(now).len() == s.pending.len(),
        s.settled(now).last_loaded == s.last_loaded,
        s.settled(now).dirty == s.dirty,
        s.settled(now).next_id == s.next_id,
        s.settled(now).active == s.active,
{
    let kept = s.pending.filter(fresh(now));
    if kept.contains(c) {
        let k = choose|k: int| 0 <= k < kept.len() && kept[k] == c;
        s.pending.lemma_filter_pred(fresh(now), k);
        s.pending.lemma_filter_contains_rev(fresh(now), c);
    }
    if s.pending.contains(c) && now < c.at + 50_000_000 {
        let i = choose|i: int| 0 <= i < s.pending.len() && s.pending[i] == c;
        assert(fresh(now)(s.pending[i]));
        s.pending.lemma_filter_contains(fresh(now), i);
    }
    lemma_split_len(s.pending, now);
}

proof fn lemma_split_len(pending: Seq<Change>, now: u128)
    ensures
        pending.filter(fresh(now)).len() + pending.filter(stale(now)).len() == pending.len(),
    decreases pending.len(),
{
    reveal(Seq::filter);
    if pending.len() > 0 {
        lemma_split_len(pending.drop_last(), now);
    }
}

/// A turn of the logger: a message writes its lines and then those changes that
/// have been held back long enough; without a message only the latter are
/// written; and at the end everything is.
pub proof fn lemma_turns(s: LogState, msg: MsgView, now: u128)
    ensures
        ({
            let told = s.told(msg, now);
            let own = s.told_lines(msg, now);
            let list = s.turn_lines(InputView::Message { msg }, now);
            &&& s.turned(InputView::Message { msg }, now) == told.settled(now)
            &&& list.take(own.len() as int) == own
            &&& list.skip(own.len() as int) == told.settling_lines(now)
        }),
        s.turned(InputView::Timeout, now) == s.settled(now),
        s.turn_lines(InputView::Timeout, now) == s.settling_lines(now),
        s.turned(InputView::Disconnected, now).pending.len() == 0,
        s.turn_lines(InputView::Disconnected, now).len() == s.pending.len(),
        forall|i: int|
            0 <= i < s.pending.len() ==> (#[trigger] s.turn_lines(
                InputView::Disconnected,
                now,
            )[i]) == (LineView {
                t: shown_time(now),
                event: EventView::Param { name: s.pending[i].name, value: s.pending[i].value },
            }),
{
    let own = s.told_lines(msg, now);
    let list = s.turn_lines(InputView::Message { msg }, now);
    assert(list.take(own.len() as int) =~= own);
    assert(list.skip(own.len() as int) =~= s.told(msg, now).settling_lines(now));
}

/// A line shows the whole milliseconds that have passed.
pub proof fn lemma_shown_time(elapsed: u128)
    requires
        elapsed < 0x1_0000_0000_0000_0000 * 1_000_000,
    ensures
        shown_time(elapsed) * 1_000_000 <= elapsed < (shown_time(elapsed) + 1) * 1_000_000,
{
}

/// A log starts with nothing loaded, nothing held back and the first number.
pub proof fn lemma_log_start(key: u8)
    ensures
        LogState::initial().last_loaded is None,
        !LogState::initial().dirty,
        LogState::initial().next_id == 1,
        !LogState::initial().active.contains_key(key),
        LogState::initial().pending.len() == 0,
{
}

/// What a message is seen as is what it says.
pub proof fn lemma_message_views(msg: LogMsg)
    ensures
        match msg {
            LogMsg::NoteOn { note, vel } => msg@ == (MsgView::NoteOn { note, vel }),
            LogMsg::NoteOff { note } => msg@ == (MsgView::NoteOff { note }),
            LogMsg::Param { name, value } => msg@ == (MsgView::Param { name: name@, value }),
            LogMsg::PatchLoad { name, patch } => msg@ == (MsgView::PatchLoad {
                name: name@,
                patch: patch.values@,
            }),
            LogMsg::PatchSave { name, patch } => msg@ == (MsgView::PatchSave {
                name: name@,
                patch: patch.values@,
            }),
            LogMsg::PatchDirty { base: Some(base) } => msg@ == (MsgView::PatchDirty {
                base: Some(base@),
            }),
            LogMsg::PatchDirty { base: None } => msg@ == (MsgView::PatchDirty { base: None }),
        },
{
}

/// What a line is seen as is what it says.
pub proof fn lemma_line_views(line: LogLine)
    ensures
        line@.t == line.t,
        match line.event {
            LogEvent::SessionStart { v, wall_unix, patch } => line@.event == (
            EventView::SessionStart { v, wall_unix, patch: patch.values@ }),
            LogEvent::PatchLoad { name, patch } => line@.event == (EventView::PatchLoad {
                name: name@,
                patch: patch.values@,
            }),
            LogEvent::PatchSave { name, patch } => line@.event == (EventView::PatchSave {
                name: name@,
                patch: patch.values@,
            }),
            LogEvent::PatchDirty { base: Some(base) } => line@.event == (EventView::PatchDirty {
                base: Some(base@),
            }),
            LogEvent::PatchDirty { base: None } => line@.event == (EventView::PatchDirty {
                base: None,
            }),
            LogEvent::Param { name, value } => line@.event == (EventView::Param {
                name: name@,
                value,
            }),
            LogEvent::NoteOn { id, ch, note, vel } => line@.event == (EventView::NoteOn {
                id,
                ch,
                note,
                vel,
            }),
            LogEvent::NoteOff { id, ch, note } => line@.event == (EventView::NoteOff {
                id,
                ch,
                note,
            }),
        },
{
}

/// Lists are seen item by item.
pub proof fn lemma_list_views(msgs: Seq<LogMsg>, list: Seq<LogLine>, i: int)
    ensures
        messages(msgs).len() == msgs.len(),
        0 <= i < msgs.len() ==> messages(msgs)[i] == msgs[i]@,
        lines(list).len() == list.len(),
        0 <= i < list.len() ==> lines(list)[i] == list[i]@,
{
}

} // verus!
