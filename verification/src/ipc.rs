//! What the synthesizer does when the user interface asks for something.
//!
//! Requests that need the disk come in two parts: [`handle_msg`] says what to
//! read or write, and a `finish` function turns what came of it into the
//! answer.
use crate::history::{
    lemma_markers_follow_the_messages, lemma_marks_add, markers, messages_in, text, EventView,
    History, InputView, Lineage, LogState, MsgView,
};
use crate::ieee754::{is_on, lemma_magnitude_order, on, HALF, ZERO};
use crate::listing::{
    all_ascii, patch_names, patches_among, sort_names_without_case, sorted_from, texts,
    without_ascii_case, without_case,
};
use crate::names::{file_name, joined, lemma_patch_files, lemma_safe_file, patch_file, safe_file, sanitized};
use crate::params::{
    find_param, lemma_param_index, lemma_places, named, param_index, value_of, Params, Patch,
    ARP_ENABLED, CHORD_TYPE, DEFAULTS, MONO, PARAM_COUNT, PARAM_NAMES,
};
use crate::performance::{PerfState, Performer};
use crate::queue::{offered, queued, slots};
use crate::synth::NoteEvent;
use crossbeam_queue::ArrayQueue;
use vstd::prelude::*;

pub use crate::names::sanitize;

verus! {

/// Which patch the sound comes from, and whether it was changed since.
#[derive(Clone, Debug)]
pub struct PatchState {
    pub name: Option<String>,
    pub dirty: bool,
}

impl Default for PatchState {
    fn default() -> (r: Self)
        ensures
            r.name is None,
            !r.dirty,
    {
        PatchState { name: None, dirty: false }
    }
}

/// A request. Numbers that are not whole are bit patterns.
#[derive(Clone, Debug)]
pub enum ClientMsg {
    NoteOn { note: u8, velocity: u32 },
    NoteOff { note: u8 },
    AllOff,
    Param { name: String, value: u32 },
    LoadPatch { name: String },
    SavePatch { name: String },
    DeletePatch { name: String },
    ListPatches,
    GetState,
}

/// An answer.
#[derive(Clone, Debug)]
pub enum ServerMsg {
    Patches { names: Vec<String>, current: Option<String> },
    State { patch: Patch },
    Done,
    Error { message: String },
}

/// What comes of a request: the answer, or something to do on the disk first.
#[derive(Clone, Debug)]
pub enum Step {
    Reply { answer: ServerMsg },
    /// Read the patch in this file, then [`finish_load`].
    Load { name: String, file: String },
    /// Store the patch in this file, then [`finish_save`].
    Save { name: String, file: String, patch: Patch },
    /// Remove this file, then [`finish_delete`].
    Delete { file: String },
    /// List the files, then [`finish_list`].
    List,
}

/// A request, with texts as sequences.
#[verifier::ext_equal]
pub enum ClientView {
    NoteOn { note: u8, velocity: u32 },
    NoteOff { note: u8 },
    AllOff,
    Param { name: Seq<char>, value: u32 },
    LoadPatch { name: Seq<char> },
    SavePatch { name: Seq<char> },
    DeletePatch { name: Seq<char> },
    ListPatches,
    GetState,
}

/// An answer, with texts and patches as sequences.
#[verifier::ext_equal]
pub enum ServerView {
    Patches { names: Seq<Seq<char>>, current: Option<Seq<char>> },
    State { patch: Seq<u32> },
    Done,
    Error { message: Seq<char> },
}

/// What comes of a request, with texts and patches as sequences.
#[verifier::ext_equal]
pub enum StepView {
    Reply { answer: ServerView },
    Load { name: Seq<char>, file: Seq<char> },
    Save { name: Seq<char>, file: Seq<char>, patch: Seq<u32> },
    Delete { file: Seq<char> },
    List,
}

impl View for ClientMsg {
    type V = ClientView;

    open spec fn view(&self) -> ClientView {
        match *self {
            ClientMsg::NoteOn { note, velocity } => ClientView::NoteOn { note, velocity },
            ClientMsg::NoteOff { note } => ClientView::NoteOff { note },
            ClientMsg::AllOff => ClientView::AllOff,
            ClientMsg::Param { name, value } => ClientView::Param { name: name@, value },
            ClientMsg::LoadPatch { name } => ClientView::LoadPatch { name: name@ },
            ClientMsg::SavePatch { name } => ClientView::SavePatch { name: name@ },
            ClientMsg::DeletePatch { name } => ClientView::DeletePatch { name: name@ },
            ClientMsg::ListPatches => ClientView::ListPatches,
            ClientMsg::GetState => ClientView::GetState,
        }
    }
}

impl View for ServerMsg {
    type V = ServerView;

    open spec fn view(&self) -> ServerView {
        match *self {
            ServerMsg::Patches { names, current } => ServerView::Patches {
                names: texts(names@),
                current: text(current),
            },
            ServerMsg::State { patch } => ServerView::State { patch: patch@ },
            ServerMsg::Done => ServerView::Done,
            ServerMsg::Error { message } => ServerView::Error { message: message@ },
        }
    }
}

impl StepView {
    /// The file that is to be read, stored or removed, if there is one.
    pub open spec fn file(self) -> Option<Seq<char>> {
        match self {
            StepView::Load { file, .. } => Some(file),
            StepView::Save { file, .. } => Some(file),
            StepView::Delete { file } => Some(file),
            _ => None,
        }
    }
}

impl View for Step {
    type V = StepView;

    open spec fn view(&self) -> StepView {
        match *self {
            Step::Reply { answer } => StepView::Reply { answer: answer@ },
            Step::Load { name, file } => StepView::Load { name: name@, file: file@ },
            Step::Save { name, file, patch } => StepView::Save {
                name: name@,
                file: file@,
                patch: patch@,
            },
            Step::Delete { file } => StepView::Delete { file: file@ },
            Step::List => StepView::List,
        }
    }
}

/// What the synthesizer keeps between requests.
pub struct AppState {
    pub params: Params,
    pub performer: Performer,
    pub history: History,
    pub patch: PatchState,
}

/// What the synthesizer keeps between requests, with texts as sequences.
#[verifier::ext_equal]
pub struct AppView {
    pub params: Seq<u32>,
    pub performer: PerfState,
    /// The messages for the logger that were not sent off yet.
    pub history: Seq<MsgView>,
    /// The patch that was last loaded or saved.
    pub name: Option<Seq<char>>,
    /// Whether a parameter was set since.
    pub dirty: bool,
}

impl View for AppState {
    type V = AppView;

    open spec fn view(&self) -> AppView {
        AppView {
            params: self.params@,
            performer: self.performer@,
            history: self.history@,
            name: text(self.patch.name),
            dirty: self.patch.dirty,
        }
    }
}

/// Chords and playing one note at a time exclude each other.
pub open spec fn modes_agree(params: Seq<u32>) -> bool {
    !(on(params[MONO as int]) && on(params[CHORD_TYPE as int]))
}

/// Whether setting a parameter would switch on both chords and playing one
/// note at a time; `params` are the values with the parameter set.
pub open spec fn clashes(params: Seq<u32>, i: int) -> bool {
    (i == CHORD_TYPE || i == MONO) && on(params[CHORD_TYPE as int]) && on(params[MONO as int])
}

/// The values after a parameter was set: where chords and playing one note at
/// a time come together, chords win.
pub open spec fn settled_params(params: Seq<u32>, i: int, value: u32) -> Seq<u32> {
    let set = params.update(i, value);
    if clashes(set, i) {
        set.update(MONO as int, ZERO)
    } else {
        set
    }
}

/// A patch as it is played: chords exclude playing one note at a time.
pub open spec fn playable(patch: Seq<u32>) -> Seq<u32> {
    if on(patch[CHORD_TYPE as int]) {
        patch.update(MONO as int, ZERO)
    } else {
        patch
    }
}

/// Whether setting a parameter stops all notes.
pub open spec fn stops_notes(i: int) -> bool {
    i == ARP_ENABLED || i == CHORD_TYPE
}

/// The answer to a parameter name that is not known.
pub open spec fn unknown_param(name: Seq<char>) -> ServerView {
    ServerView::Error { message: "Unknown param: "@ + name }
}

impl AppView {
    /// The state after a parameter was set.
    pub open spec fn param_set(self, i: int, name: Seq<char>, value: u32) -> AppView {
        AppView {
            params: settled_params(self.params, i, value),
            performer: if stops_notes(i) {
                self.performer.silenced()
            } else {
                self.performer
            },
            history: (if self.dirty {
                self.history
            } else {
                self.history.push(MsgView::PatchDirty { base: self.name })
            }).push(MsgView::Param { name, value }),
            dirty: true,
            ..self
        }
    }

    /// The state after a request.
    pub open spec fn told(self, msg: ClientView) -> AppView {
        match msg {
            ClientView::NoteOn { note, velocity } => AppView {
                performer: self.performer.pressed(self.params, note),
                history: self.history.push(MsgView::NoteOn { note, vel: velocity }),
                ..self
            },
            ClientView::NoteOff { note } => AppView {
                performer: self.performer.released(self.params, note),
                history: self.history.push(MsgView::NoteOff { note }),
                ..self
            },
            ClientView::AllOff => AppView { performer: self.performer.silenced(), ..self },
            ClientView::Param { name, value } => match param_index(name) {
                Some(i) => self.param_set(i, name, value),
                None => self,
            },
            _ => self,
        }
    }

    /// The events that a request causes.
    pub open spec fn events(self, msg: ClientView) -> Seq<NoteEvent> {
        match msg {
            ClientView::NoteOn { note, velocity } => PerfState::press_events(
                self.params,
                note,
                velocity,
            ),
            ClientView::NoteOff { note } => self.performer.release_events(self.params, note),
            ClientView::AllOff => seq![NoteEvent::AllOff],
            ClientView::Param { name, value } => match param_index(name) {
                Some(i) => if stops_notes(i) {
                    seq![NoteEvent::AllOff]
                } else {
                    Seq::empty()
                },
                None => Seq::empty(),
            },
            _ => Seq::empty(),
        }
    }

    /// What comes of a request.
    pub open spec fn step(self, msg: ClientView) -> StepView {
        match msg {
            ClientView::Param { name, value } => StepView::Reply {
                answer: match param_index(name) {
                    Some(i) => if clashes(self.params.update(i, value), i) {
                        ServerView::State { patch: self.told(msg).params }
                    } else {
                        ServerView::Done
                    },
                    None => unknown_param(name),
                },
            },
            ClientView::LoadPatch { name } => StepView::Load {
                name: sanitized(name),
                file: patch_file(sanitized(name)),
            },
            ClientView::SavePatch { name } => if sanitized(name).len() == 0 {
                StepView::Reply { answer: ServerView::Error { message: "Invalid patch name"@ } }
            } else {
                StepView::Save {
                    name: sanitized(name),
                    file: patch_file(sanitized(name)),
                    patch: self.params,
                }
            },
            ClientView::DeletePatch { name } => StepView::Delete {
                file: patch_file(sanitized(name)),
            },
            ClientView::ListPatches => StepView::List,
            ClientView::GetState => StepView::Reply {
                answer: ServerView::State { patch: self.params },
            },
            _ => StepView::Reply { answer: ServerView::Done },
        }
    }

    /// The state after a patch was read.
    pub open spec fn loaded(self, name: Seq<char>, patch: Seq<u32>) -> AppView {
        AppView {
            params: playable(patch),
            performer: self.performer.silenced(),
            history: self.history.push(MsgView::PatchLoad { name, patch: playable(patch) }),
            name: Some(name),
            dirty: false,
        }
    }

    /// The state after a patch was stored.
    pub open spec fn saved(self, name: Seq<char>, patch: Seq<u32>) -> AppView {
        AppView {
            history: self.history.push(MsgView::PatchSave { name, patch }),
            name: Some(name),
            dirty: false,
            ..self
        }
    }
}

impl AppState {
    /// The synthesizer at its start, with these parameters.
    pub fn new(params: Params) -> (r: AppState)
        ensures
            r@ == (AppView {
                params: params@,
                performer: PerfState::initial(),
                history: Seq::empty(),
                name: None,
                dirty: false,
            }),
    {
        AppState {
            params,
            performer: Performer::new(),
            history: History::new(),
            patch: PatchState::default(),
        }
    }
}

/// A parameter with a known name is set.
fn set_param(
    state: &mut AppState,
    queue: &mut ArrayQueue<NoteEvent>,
    i: usize,
    name: &String,
    value: u32,
) -> (r: ServerMsg)
    requires
        i < PARAM_COUNT,
    ensures
        final(state)@ == old(state)@.param_set(i as int, name@, value),
        slots(*final(queue)) == slots(*old(queue)),
        queued(*final(queue)) == offered(
            queued(*old(queue)),
            slots(*old(queue)),
            if stops_notes(i as int) {
                seq![NoteEvent::AllOff]
            } else {
                Seq::empty()
            },
        ),
        r@ == (if clashes(old(state)@.params.update(i as int, value), i as int) {
            ServerView::State { patch: final(state)@.params }
        } else {
            ServerView::Done
        }),
{
    state.params.values[i] = value;
    if !state.patch.dirty {
        state.history.patch_dirty(state.patch.name.clone());
        state.patch.dirty = true;
    }
    state.history.param(name.as_str(), value);
    if i == ARP_ENABLED || i == CHORD_TYPE {
        state.performer.all_off(queue);
    } else {
        assert(queued(*queue) + Seq::<NoteEvent>::empty() =~= queued(*queue));
    }
    let clash = (i == CHORD_TYPE || i == MONO) && is_on(state.params.values[CHORD_TYPE]) && is_on(
        state.params.values[MONO],
    );
    if clash {
        state.params.values[MONO] = ZERO;
        ServerMsg::State { patch: state.params.to_patch() }
    } else {
        ServerMsg::Done
    }
}

/// Does what a request asks for, up to what needs the disk.
pub fn handle_msg(
    msg: ClientMsg,
    state: &mut AppState,
    queue: &mut ArrayQueue<NoteEvent>,
) -> (r: Step)
    ensures
        final(state)@ == old(state)@.told(msg@),
        r@ == old(state)@.step(msg@),
        r@.file() is Some ==> safe_file(r@.file()->0),
        slots(*final(queue)) == slots(*old(queue)),
        queued(*final(queue)) == offered(
            queued(*old(queue)),
            slots(*old(queue)),
            old(state)@.events(msg@),
        ),
{
    assert(queued(*queue) + Seq::<NoteEvent>::empty() =~= queued(*queue));
    match msg {
        ClientMsg::NoteOn { note, velocity } => {
            let _ = state.performer.note_on(&state.params, queue, note, velocity);
            state.history.note_on(note, velocity);
            Step::Reply { answer: ServerMsg::Done }
        },
        ClientMsg::NoteOff { note } => {
            state.performer.note_off(&state.params, queue, note);
            state.history.note_off(note);
            Step::Reply { answer: ServerMsg::Done }
        },
        ClientMsg::AllOff => {
            state.performer.all_off(queue);
            Step::Reply { answer: ServerMsg::Done }
        },
        ClientMsg::Param { name, value } => {
            match find_param(name.as_str()) {
                Some(i) => Step::Reply { answer: set_param(state, queue, i, &name, value) },
                None => Step::Reply {
                    answer: ServerMsg::Error {
                        message: joined("Unknown param: ", name.as_str()),
                    },
                },
            }
        },
        ClientMsg::LoadPatch { name } => {
            let safe = sanitize(name.as_str());
            proof {
                lemma_safe_file(safe@);
            }
            let file = file_name(safe.as_str());
            Step::Load { name: safe, file }
        },
        ClientMsg::SavePatch { name } => {
            let safe = sanitize(name.as_str());
            proof {
                lemma_safe_file(safe@);
            }
            if safe.as_str().is_empty() {
                assert(safe@.len() == 0);
                return Step::Reply {
                    answer: ServerMsg::Error { message: "Invalid patch name".to_owned() },
                };
            }
            let file = file_name(safe.as_str());
            Step::Save { name: safe, file, patch: state.params.to_patch() }
        },
        ClientMsg::DeletePatch { name } => {
            let safe = sanitize(name.as_str());
            proof {
                lemma_safe_file(safe@);
            }
            Step::Delete { file: file_name(safe.as_str()) }
        },
        ClientMsg::ListPatches => Step::List,
        ClientMsg::GetState => Step::Reply {
            answer: ServerMsg::State { patch: state.params.to_patch() },
        },
    }
}

/// A patch was read, or could not be.
pub fn finish_load(
    state: &mut AppState,
    queue: &mut ArrayQueue<NoteEvent>,
    name: String,
    read: Result<Patch, String>,
) -> (r: ServerMsg)
    ensures
        slots(*final(queue)) == slots(*old(queue)),
        match read {
            Ok(patch) => {
                &&& final(state)@ == old(state)@.loaded(name@, patch@)
                &&& queued(*final(queue)) == offered(
                    queued(*old(queue)),
                    slots(*old(queue)),
                    seq![NoteEvent::AllOff],
                )
                &&& r@ == (ServerView::State { patch: playable(patch@) })
            },
            Err(message) => {
                &&& final(state)@ == old(state)@
                &&& queued(*final(queue)) == queued(*old(queue))
                &&& r@ == (ServerView::Error { message: message@ })
            },
        },
{
    match read {
        Ok(read_patch) => {
            let mut patch = read_patch;
            if is_on(patch.values[CHORD_TYPE]) {
                patch.values[MONO] = ZERO;
            }
            state.params.apply_patch(&patch);
            state.performer.all_off(queue);
            state.history.patch_load(name.as_str(), patch);
            state.patch = PatchState { name: Some(name), dirty: false };
            ServerMsg::State { patch }
        },
        Err(message) => ServerMsg::Error { message },
    }
}

/// A patch was stored, or could not be.
pub fn finish_save(
    state: &mut AppState,
    name: String,
    patch: Patch,
    written: Result<(), String>,
) -> (r: ServerMsg)
    ensures
        match written {
            Ok(_) => {
                &&& final(state)@ == old(state)@.saved(name@, patch@)
                &&& r@ == ServerView::Done
            },
            Err(message) => {
                &&& final(state)@ == old(state)@
                &&& r@ == (ServerView::Error { message: message@ })
            },
        },
{
    match written {
        Ok(_) => {
            state.history.patch_save(name.as_str(), patch);
            state.patch = PatchState { name: Some(name), dirty: false };
            ServerMsg::Done
        },
        Err(message) => ServerMsg::Error { message },
    }
}

/// A patch's file was removed, or could not be.
pub fn finish_delete(removed: Result<(), String>) -> (r: ServerMsg)
    ensures
        match removed {
            Ok(_) => r@ == ServerView::Done,
            Err(message) => r@ == (ServerView::Error { message: message@ }),
        },
{
    match removed {
        Ok(_) => ServerMsg::Done,
        Err(message) => ServerMsg::Error { message },
    }
}

/// The patches among a directory's files, in alphabetical order.
pub fn list_patches(files: &Vec<String>) -> (r: Vec<String>)
    ensures
        sorted_from(texts(r@), patches_among(texts(files@)), without_case()),
        all_ascii(patches_among(texts(files@))) ==> sorted_from(
            texts(r@),
            patches_among(texts(files@)),
            without_ascii_case(),
        ),
{
    sort_names_without_case(&patch_names(files))
}

/// The directory of patches was listed.
pub fn finish_list(state: &AppState, files: &Vec<String>) -> (r: ServerMsg)
    ensures
        r@ matches ServerView::Patches { names, current } && {
            &&& current == state@.name
            &&& sorted_from(names, patches_among(texts(files@)), without_case())
            &&& all_ascii(patches_among(texts(files@))) ==> sorted_from(
                names,
                patches_among(texts(files@)),
                without_ascii_case(),
            )
        },
{
    ServerMsg::Patches { names: list_patches(files), current: state.patch.name.clone() }
}

/// Whether a request gives the arpeggiator something to play, so that it should
/// not go on waiting.
pub fn wakes_arp(msg: &ClientMsg, state: &AppState) -> (r: bool)
    ensures
        r == (msg@ is NoteOn && on(state@.params[ARP_ENABLED as int])),
{
    match msg {
        ClientMsg::NoteOn { note: _, velocity: _ } => is_on(state.params.values[ARP_ENABLED]),
        _ => false,
    }
}

proof fn lemma_zero_is_off()
    ensures
        !on(ZERO),
{
    lemma_magnitude_order(HALF, ZERO);
}

/// Chords and playing one note at a time are never both on: they are not at
/// the start, and no request and no patch brings them together.
pub proof fn lemma_modes_agree(
    s: AppView,
    msg: ClientView,
    name: Seq<char>,
    patch: Seq<u32>,
)
    requires
        s.params.len() == PARAM_COUNT,
        patch.len() == PARAM_COUNT,
        modes_agree(s.params),
    ensures
        modes_agree(DEFAULTS@),
        modes_agree(s.told(msg).params),
        modes_agree(s.loaded(name, patch).params),
        modes_agree(s.saved(name, patch).params),
{
    lemma_zero_is_off();
    assert(DEFAULTS@[MONO as int] == ZERO);
}

/// Switching on chords while one note at a time is played, or the other way
/// round, leaves chords on and the other off, and the answer then tells all
/// the values. Any other parameter is set and nothing else, and the answer
/// says no more than that it is done.
pub proof fn lemma_chords_win(s: AppView, name: Seq<char>, value: u32, i: int)
    requires
        s.params.len() == PARAM_COUNT,
        param_index(name) == Some(i),
        0 <= i < PARAM_COUNT,
    ensures
        ({
            let msg = ClientView::Param { name, value };
            let after = s.told(msg).params;
            if on(value) && (i == CHORD_TYPE && on(s.params[MONO as int]) || i == MONO && on(
                s.params[CHORD_TYPE as int],
            )) {
                &&& after == s.params.update(i, value).update(MONO as int, ZERO)
                &&& on(after[CHORD_TYPE as int]) && !on(after[MONO as int])
                &&& s.step(msg) == (StepView::Reply { answer: ServerView::State { patch: after } })
            } else {
                &&& after == s.params.update(i, value)
                &&& s.step(msg) == (StepView::Reply { answer: ServerView::Done })
            }
        }),
{
    lemma_zero_is_off();
}

/// A request about a parameter that does not exist is answered with an error
/// and changes nothing.
pub proof fn lemma_unknown_param_changes_nothing(s: AppView, name: Seq<char>, value: u32)
    requires
        param_index(name) is None,
    ensures
        ({
            let msg = ClientView::Param { name, value };
            s.told(msg) == s && s.events(msg) == Seq::<NoteEvent>::empty() && s.step(msg) == (
            StepView::Reply { answer: unknown_param(name) })
        }),
{
}

/// What was saved comes back when it is loaded, under any name that is made the
/// same safe name: the stored values are played again as far as chords and
/// playing one note at a time allow, whatever was played in between, and the
/// sound then goes by that name and counts as unchanged. All the values come
/// back but the switch for one note at a time, which is zero when chords are on;
/// unless both were on, that switches nothing off that was on.
pub proof fn lemma_saved_sound_comes_back(
    s: AppView,
    later: AppView,
    name: Seq<char>,
    other_name: Seq<char>,
)
    requires
        s.params.len() == PARAM_COUNT,
        sanitized(name).len() > 0,
        sanitized(other_name) == sanitized(name),
    ensures
        s.step(ClientView::SavePatch { name }) == (StepView::Save {
            name: sanitized(name),
            file: patch_file(sanitized(name)),
            patch: s.params,
        }),
        later.step(ClientView::LoadPatch { name: other_name }) == (StepView::Load {
            name: sanitized(name),
            file: patch_file(sanitized(name)),
        }),
        ({
            let back = later.loaded(sanitized(name), s.params);
            &&& back.params == playable(s.params)
            &&& back.name == Some(sanitized(name))
            &&& !back.dirty
            &&& !on(s.params[CHORD_TYPE as int]) || s.params[MONO as int] == ZERO ==> back.params
                == s.params
            &&& forall|i: int|
                0 <= i < PARAM_COUNT && i != MONO ==> #[trigger] back.params[i] == s.params[i]
            &&& modes_agree(s.params) ==> on(back.params[MONO as int]) == on(
                s.params[MONO as int],
            )
        }),
{
    lemma_zero_is_off();
    if on(s.params[CHORD_TYPE as int]) && s.params[MONO as int] == ZERO {
        assert(s.params.update(MONO as int, ZERO) =~= s.params);
    }
}

/// A sound counts as changed from the first parameter that is set until a patch
/// is loaded or saved, and then goes by that patch's name.
pub proof fn lemma_dirty(
    s: AppView,
    msg: ClientView,
    name: Seq<char>,
    patch: Seq<u32>,
)
    ensures
        s.told(msg).dirty == (s.dirty || (msg is Param && param_index(msg->Param_name) is Some)),
        s.told(msg).name == s.name,
        !s.loaded(name, patch).dirty,
        s.loaded(name, patch).name == Some(name),
        !s.saved(name, patch).dirty,
        s.saved(name, patch).name == Some(name),
{
}

/// Requests that only ask change nothing.
pub proof fn lemma_questions_change_nothing(s: AppView, msg: ClientView)
    requires
        msg is GetState || msg is ListPatches,
    ensures
        s.told(msg) == s,
        s.events(msg) == Seq::<NoteEvent>::empty(),
{
}

impl AppView {
    /// The state after several requests in turn.
    pub open spec fn told_all(self, msgs: Seq<ClientView>) -> AppView
        decreases msgs.len(),
    {
        if msgs.len() == 0 {
            self
        } else {
            self.told_all(msgs.drop_last()).told(msgs.last())
        }
    }

    /// Which patch the sound comes from, and whether it was changed.
    pub open spec fn lineage(self) -> Lineage {
        Lineage { base: self.name, dirty: self.dirty }
    }
}

/// Whether a request sets a parameter that there is.
pub open spec fn sets_param(msg: ClientView) -> bool {
    msg is Param && param_index(msg->Param_name) is Some
}

/// The state of a logger after several messages in turn.
pub open spec fn logged(log: LogState, msgs: Seq<MsgView>, now: u128) -> LogState
    decreases msgs.len(),
{
    if msgs.len() == 0 {
        log
    } else {
        logged(log, msgs.drop_last(), now).told(msgs.last(), now)
    }
}

/// Whether a logger knows which patch the sound comes from and whether it was
/// changed.
pub open spec fn log_agrees(log: LogState, s: AppView) -> bool {
    log.last_loaded == s.name && log.dirty == s.dirty
}

/// The logger and the synthesizer agree on which patch the sound comes from and
/// whether it was changed: they go on agreeing when the logger takes the
/// messages that a request, a load or a save adds.
pub proof fn lemma_log_agrees(
    log: LogState,
    s: AppView,
    msg: ClientView,
    name: Seq<char>,
    patch: Seq<u32>,
    now: u128,
)
    requires
        log_agrees(log, s),
    ensures
        log_agrees(logged(log, s.told(msg).history.skip(s.history.len() as int), now), s.told(msg)),
        log_agrees(
            logged(log, s.loaded(name, patch).history.skip(s.history.len() as int), now),
            s.loaded(name, patch),
        ),
        log_agrees(
            logged(log, s.saved(name, patch).history.skip(s.history.len() as int), now),
            s.saved(name, patch),
        ),
{
    let n = s.history.len() as int;
    reveal_with_fuel(logged, 3);
    let told = s.told(msg).history.skip(n);
    assert(s.history.skip(n) =~= Seq::<MsgView>::empty());
    match msg {
        ClientView::NoteOn { note, velocity } => {
            assert(told =~= seq![MsgView::NoteOn { note, vel: velocity }]);
            assert(told.drop_last() =~= Seq::<MsgView>::empty());
        },
        ClientView::NoteOff { note } => {
            assert(told =~= seq![MsgView::NoteOff { note }]);
            assert(told.drop_last() =~= Seq::<MsgView>::empty());
        },
        ClientView::Param { name: param, value } => {
            if param_index(param) is Some {
                if s.dirty {
                    assert(told =~= seq![MsgView::Param { name: param, value }]);
                    assert(told.drop_last() =~= Seq::<MsgView>::empty());
                } else {
                    let marker = MsgView::PatchDirty { base: s.name };
                    assert(told =~= seq![marker, MsgView::Param { name: param, value }]);
                    assert(told.drop_last() =~= seq![marker]);
                    assert(told.drop_last().drop_last() =~= Seq::<MsgView>::empty());
                }
            }
        },
        _ => {},
    }
    let l = s.loaded(name, patch).history.skip(n);
    assert(l =~= seq![MsgView::PatchLoad { name, patch: playable(patch) }]);
    assert(l.drop_last() =~= Seq::<MsgView>::empty());
    let v = s.saved(name, patch).history.skip(n);
    assert(v =~= seq![MsgView::PatchSave { name, patch }]);
    assert(v.drop_last() =~= Seq::<MsgView>::empty());
}

/// The first change of a sound is marked once in the log, before the change
/// itself, with the name of the patch that the sound comes from; later
/// changes are not marked.
pub proof fn lemma_change_is_marked_once(
    log: LogState,
    s: AppView,
    name: Seq<char>,
    value: u32,
    now: u128,
)
    requires
        log_agrees(log, s),
        param_index(name) is Some,
    ensures
        ({
            let change = MsgView::Param { name, value };
            let marker = MsgView::PatchDirty { base: s.name };
            let added = s.told(ClientView::Param { name, value }).history.skip(
                s.history.len() as int,
            );
            if s.dirty {
                &&& added == seq![change]
                &&& log.own_event(change) is None
            } else {
                &&& added == seq![marker, change]
                &&& log.own_event(marker) == Some(EventView::PatchDirty { base: s.name })
                &&& log.told(marker, now).own_event(change) is None
            }
        }),
{
    let added = s.told(ClientView::Param { name, value }).history.skip(s.history.len() as int);
    if s.dirty {
        assert(added =~= seq![MsgView::Param { name, value }]);
    } else {
        assert(added =~= seq![
            MsgView::PatchDirty { base: s.name },
            MsgView::Param { name, value },
        ]);
    }
}

proof fn lemma_request_marks(s: AppView, msg: ClientView)
    ensures
        s.history.len() <= s.told(msg).history.len(),
        s.told(msg).history.take(s.history.len() as int) == s.history,
        s.told(msg).lineage() == s.lineage().told_all(
            s.told(msg).history.skip(s.history.len() as int),
        ),
        s.lineage().marks(s.told(msg).history.skip(s.history.len() as int)) == (if !s.dirty
            && sets_param(msg) {
            seq![s.name]
        } else {
            Seq::empty()
        }),
{
    let n = s.history.len() as int;
    let added = s.told(msg).history.skip(n);
    reveal_with_fuel(Lineage::told_all, 3);
    reveal_with_fuel(Lineage::marks, 3);
    assert(s.told(msg).history.take(n) =~= s.history);
    match msg {
        ClientView::NoteOn { note, velocity } => {
            assert(added =~= seq![MsgView::NoteOn { note, vel: velocity }]);
            assert(added.drop_last() =~= Seq::<MsgView>::empty());
        },
        ClientView::NoteOff { note } => {
            assert(added =~= seq![MsgView::NoteOff { note }]);
            assert(added.drop_last() =~= Seq::<MsgView>::empty());
        },
        ClientView::Param { name, value } => {
            if param_index(name) is Some {
                let change = MsgView::Param { name, value };
                if s.dirty {
                    assert(added =~= seq![change]);
                    assert(added.drop_last() =~= Seq::<MsgView>::empty());
                } else {
                    let marker = MsgView::PatchDirty { base: s.name };
                    assert(added =~= seq![marker, change]);
                    assert(added.drop_last() =~= seq![marker]);
                    assert(added.drop_last().drop_last() =~= Seq::<MsgView>::empty());
                    assert(s.lineage().marks(added) =~= seq![s.name]);
                }
            } else {
                assert(added =~= Seq::<MsgView>::empty());
            }
        },
        _ => {
            assert(added =~= Seq::<MsgView>::empty());
        },
    }
}

proof fn lemma_requests_mark(s: AppView, msgs: Seq<ClientView>)
    ensures
        s.history.len() <= s.told_all(msgs).history.len(),
        s.told_all(msgs).history.take(s.history.len() as int) == s.history,
        s.told_all(msgs).name == s.name,
        s.told_all(msgs).dirty == (s.dirty || exists|i: int|
            0 <= i < msgs.len() && #[trigger] sets_param(msgs[i])),
        s.told_all(msgs).lineage() == s.lineage().told_all(
            s.told_all(msgs).history.skip(s.history.len() as int),
        ),
        s.lineage().marks(s.told_all(msgs).history.skip(s.history.len() as int)) == (if !s.dirty
            && exists|i: int| 0 <= i < msgs.len() && #[trigger] sets_param(msgs[i]) {
            seq![s.name]
        } else {
            Seq::empty()
        }),
    decreases msgs.len(),
{
    let n = s.history.len() as int;
    if msgs.len() == 0 {
        assert(s.history.skip(n) =~= Seq::<MsgView>::empty());
        assert(s.history.take(n) =~= s.history);
    } else {
        let init = msgs.drop_last();
        let last = msgs[msgs.len() - 1];
        let t = s.told_all(init);
        let m = t.history.len() as int;
        let after = t.told(last);
        lemma_requests_mark(s, init);
        lemma_request_marks(t, last);
        let first = t.history.skip(n);
        let second = after.history.skip(m);
        assert(after.history =~= t.history + second) by {
            assert(after.history.take(m) == t.history);
        }
        assert(after.history.skip(n) =~= first + second);
        assert(after.history.take(n) =~= s.history) by {
            assert(t.history.take(n) == s.history);
        }
        lemma_marks_add(s.lineage(), first, second);
        if exists|i: int| 0 <= i < init.len() && #[trigger] sets_param(init[i]) {
            let i = choose|i: int| 0 <= i < init.len() && #[trigger] sets_param(init[i]);
            assert(sets_param(msgs[i]));
        }
        if exists|i: int| 0 <= i < msgs.len() && #[trigger] sets_param(msgs[i]) {
            let i = choose|i: int| 0 <= i < msgs.len() && #[trigger] sets_param(msgs[i]);
            assert(i < init.len() ==> sets_param(init[i]));
        }
        assert(s.lineage().marks(after.history.skip(n)) =~= s.lineage().marks(first)
            + t.lineage().marks(second));
    }
}

/// Over any run of requests the log marks the first parameter that is set since
/// the last load or save, with that patch's name, and nothing else, whenever
/// the logger gets the messages; and it goes on agreeing with the synthesizer on
/// which patch the sound comes from and whether it was changed.
pub proof fn lemma_requests_are_marked_once(
    log: LogState,
    s: AppView,
    msgs: Seq<ClientView>,
    inputs: Seq<(InputView, u128)>,
)
    requires
        log_agrees(log, s),
        messages_in(inputs) == s.told_all(msgs).history.skip(s.history.len() as int),
    ensures
        log_agrees(log.turned_all(inputs), s.told_all(msgs)),
        markers(log.run_lines(inputs)) == (if !s.dirty && exists|i: int|
            0 <= i < msgs.len() && #[trigger] sets_param(msgs[i]) {
            seq![s.name]
        } else {
            Seq::empty()
        }),
{
    lemma_requests_mark(s, msgs);
    lemma_markers_follow_the_messages(log, inputs);
    assert(log.lineage() == s.lineage());
    assert(log.turned_all(inputs).lineage() == s.told_all(msgs).lineage());
}

/// The parameters whose names are spelt out here stand at these places, and no
/// other name does.
proof fn lemma_named_params(name: Seq<char>)
    ensures
        param_index(name) == Some(MONO as int) <==> name == "mono"@,
        param_index(name) == Some(CHORD_TYPE as int) <==> name == "chord_type"@,
        param_index(name) == Some(ARP_ENABLED as int) <==> name == "arp_enabled"@,
        param_index(name) is Some ==> 0 <= param_index(name)->0 < PARAM_COUNT && named(
            name,
            param_index(name)->0,
        ),
{
    lemma_places();
    lemma_param_index("mono"@, MONO as int);
    lemma_param_index("chord_type"@, CHORD_TYPE as int);
    lemma_param_index("arp_enabled"@, ARP_ENABLED as int);
}

/// Setting a parameter stops all notes if it switches the arpeggiator or the
/// chord, and then once; any other leaves the notes and the performer alone.
pub proof fn lemma_which_params_stop_notes(s: AppView, name: Seq<char>, value: u32)
    requires
        param_index(name) is Some,
    ensures
        ({
            let msg = ClientView::Param { name, value };
            if name == "arp_enabled"@ || name == "chord_type"@ {
                &&& s.events(msg) == seq![NoteEvent::AllOff]
                &&& s.told(msg).performer.sounding == Map::<u8, Seq<u8>>::empty()
                &&& s.told(msg).performer.arp_keys == Seq::<u8>::empty()
                &&& s.told(msg).performer.arp_current is None
                &&& s.told(msg).performer.arp_step == 0
                &&& s.told(msg).performer.rng == s.performer.rng
            } else {
                &&& s.events(msg) == Seq::<NoteEvent>::empty()
                &&& s.told(msg).performer == s.performer
            }
        }),
{
    lemma_named_params(name);
}

/// Setting a parameter gives it the value and leaves all others as they were, but
/// for the switch for one note at a time, which is zero if chords would come
/// together with it. The log is told the name and the value as they were sent,
/// after a marker for the patch if this is the first change.
pub proof fn lemma_param_request(s: AppView, name: Seq<char>, value: u32, other: Seq<char>)
    requires
        s.params.len() == PARAM_COUNT,
        param_index(name) is Some,
        param_index(other) is Some,
    ensures
        ({
            let after = s.told(ClientView::Param { name, value });
            let set = |n: Seq<char>|
                if n == name {
                    value
                } else {
                    value_of(s.params, n)->0
                };
            let clash = (name == "mono"@ || name == "chord_type"@) && on(set("mono"@)) && on(
                set("chord_type"@),
            );
            let sent = MsgView::Param { name, value };
            &&& after.params.len() == s.params.len()
            &&& !(clash && other == "mono"@) ==> value_of(after.params, other)->0 == set(other)
            &&& clash ==> value_of(after.params, "mono"@)->0 == 0
            &&& s.step(ClientView::Param { name, value }) == (if clash {
                StepView::Reply { answer: ServerView::State { patch: after.params } }
            } else {
                StepView::Reply { answer: ServerView::Done }
            })
            &&& s.dirty ==> after.history == s.history.push(sent)
            &&& !s.dirty ==> after.history == s.history.push(
                MsgView::PatchDirty { base: s.name },
            ).push(sent)
            &&& after.dirty
            &&& after.name == s.name
        }),
{
    lemma_named_params(name);
    lemma_named_params(other);
    lemma_named_params("mono"@);
    lemma_named_params("chord_type"@);
    assert(param_index("mono"@) == Some(MONO as int));
    assert(param_index("chord_type"@) == Some(CHORD_TYPE as int));
}

/// Keys and the stop of everything go to the performer with the parameters of the
/// moment, as hard as they were struck; keys also go to the log as they are. The
/// answer is that it is done, and nothing else changes.
pub proof fn lemma_key_requests(s: AppView, note: u8, velocity: u32)
    ensures
        ({
            let on = ClientView::NoteOn { note, velocity };
            &&& s.told(on).performer == s.performer.pressed(s.params, note)
            &&& s.events(on) == PerfState::press_events(s.params, note, velocity)
            &&& s.told(on).history == s.history.push(MsgView::NoteOn { note, vel: velocity })
            &&& s.step(on) == (StepView::Reply { answer: ServerView::Done })
            &&& s.told(on).params == s.params && s.told(on).lineage() == s.lineage()
        }),
        ({
            let off = ClientView::NoteOff { note };
            &&& s.told(off).performer == s.performer.released(s.params, note)
            &&& s.events(off) == s.performer.release_events(s.params, note)
            &&& s.told(off).history == s.history.push(MsgView::NoteOff { note })
            &&& s.step(off) == (StepView::Reply { answer: ServerView::Done })
            &&& s.told(off).params == s.params && s.told(off).lineage() == s.lineage()
        }),
        ({
            let stop = ClientView::AllOff;
            &&& s.told(stop).performer == s.performer.silenced()
            &&& s.events(stop) == seq![NoteEvent::AllOff]
            &&& s.told(stop).history == s.history
            &&& s.step(stop) == (StepView::Reply { answer: ServerView::Done })
            &&& s.told(stop).params == s.params && s.told(stop).lineage() == s.lineage()
        }),
{
}

/// Requests about patches change nothing by themselves. Loading, saving and
/// deleting a patch are about the one file that is called after its safe name;
/// saving stores the values of the moment, and is refused when no character of
/// the name is left. The state is answered with those values. A parameter that
/// does not exist is named in the error.
pub proof fn lemma_patch_requests(s: AppView, name: Seq<char>, value: u32)
    ensures
        ({
            let safe = sanitized(name);
            &&& s.told(ClientView::LoadPatch { name }) == s
            &&& s.told(ClientView::SavePatch { name }) == s
            &&& s.told(ClientView::DeletePatch { name }) == s
            &&& s.events(ClientView::LoadPatch { name }).len() == 0
            &&& s.events(ClientView::SavePatch { name }).len() == 0
            &&& s.events(ClientView::DeletePatch { name }).len() == 0
            &&& s.step(ClientView::LoadPatch { name }) == (StepView::Load {
                name: safe,
                file: safe + ".json"@,
            })
            &&& s.step(ClientView::DeletePatch { name }) == (StepView::Delete {
                file: safe + ".json"@,
            })
            &&& safe.len() > 0 ==> s.step(ClientView::SavePatch { name }) == (StepView::Save {
                name: safe,
                file: safe + ".json"@,
                patch: s.params,
            })
            &&& safe.len() == 0 ==> s.step(ClientView::SavePatch { name }) == (StepView::Reply {
                answer: ServerView::Error { message: "Invalid patch name"@ },
            })
        }),
        s.step(ClientView::ListPatches) == StepView::List,
        s.step(ClientView::GetState) == (StepView::Reply {
            answer: ServerView::State { patch: s.params },
        }),
        param_index(name) is None ==> s.step(ClientView::Param { name, value }) == (
        StepView::Reply { answer: ServerView::Error { message: "Unknown param: "@ + name } }),
{
    lemma_patch_files(sanitized(name), name);
}

/// A patch that was read is played as it is, but that the switch for one note at
/// a time is zero when it has chords on. All notes stop, and the log is told the
/// patch's name and the values that are played.
pub proof fn lemma_load(s: AppView, name: Seq<char>, patch: Seq<u32>, i: int)
    requires
        patch.len() == PARAM_COUNT,
        0 <= i < PARAM_COUNT,
    ensures
        ({
            let after = s.loaded(name, patch);
            &&& after.params.len() == PARAM_COUNT
            &&& PARAM_NAMES@[i]@ != "mono"@ ==> after.params[i] == patch[i]
            &&& on(value_of(patch, "chord_type"@)->0) ==> value_of(after.params, "mono"@)->0 == 0
            &&& !on(value_of(patch, "chord_type"@)->0) ==> after.params == patch
            &&& after.performer == s.performer.silenced()
            &&& after.history == s.history.push(
                MsgView::PatchLoad { name, patch: after.params },
            )
            &&& after.name == Some(name)
            &&& !after.dirty
        }),
{
    lemma_named_params("mono"@);
    lemma_named_params("chord_type"@);
    if i == MONO {
        assert(named("mono"@, i));
    }
}

/// A patch that was stored leaves the sound and the notes as they are; the log is
/// told its name and values.
pub proof fn lemma_save(s: AppView, name: Seq<char>, patch: Seq<u32>)
    ensures
        ({
            let after = s.saved(name, patch);
            &&& after.params == s.params
            &&& after.performer == s.performer
            &&& after.history == s.history.push(MsgView::PatchSave { name, patch })
            &&& after.name == Some(name)
            &&& !after.dirty
        }),
{
}

/// What a request is seen as is what it says.
pub proof fn lemma_request_views(msg: ClientMsg)
    ensures
        match msg {
            ClientMsg::NoteOn { note, velocity } => msg@ == (ClientView::NoteOn {
                note,
                velocity,
            }),
            ClientMsg::NoteOff { note } => msg@ == (ClientView::NoteOff { note }),
            ClientMsg::AllOff => msg@ == ClientView::AllOff,
            ClientMsg::Param { name, value } => msg@ == (ClientView::Param {
                name: name@,
                value,
            }),
            ClientMsg::LoadPatch { name } => msg@ == (ClientView::LoadPatch { name: name@ }),
            ClientMsg::SavePatch { name } => msg@ == (ClientView::SavePatch { name: name@ }),
            ClientMsg::DeletePatch { name } => msg@ == (ClientView::DeletePatch { name: name@ }),
            ClientMsg::ListPatches => msg@ == ClientView::ListPatches,
            ClientMsg::GetState => msg@ == ClientView::GetState,
        },
{
}

/// What an answer and a step are seen as is what they say.
pub proof fn lemma_answer_views(msg: ServerMsg, todo: Step)
    ensures
        match msg {
            ServerMsg::Patches { names, current } => msg@ == (ServerView::Patches {
                names: names@.map_values(|n: String| n@),
                current: match current {
                    Some(n) => Some(n@),
                    None => None,
                },
            }),
            ServerMsg::State { patch } => msg@ == (ServerView::State { patch: patch.values@ }),
            ServerMsg::Done => msg@ == ServerView::Done,
            ServerMsg::Error { message } => msg@ == (ServerView::Error { message: message@ }),
        },
        match todo {
            Step::Reply { answer } => todo@ == (StepView::Reply { answer: answer@ }),
            Step::Load { name, file } => todo@ == (StepView::Load { name: name@, file: file@ }),
            Step::Save { name, file, patch } => todo@ == (StepView::Save {
                name: name@,
                file: file@,
                patch: patch.values@,
            }),
            Step::Delete { file } => todo@ == (StepView::Delete { file: file@ }),
            Step::List => todo@ == StepView::List,
        },
{
    match msg {
        ServerMsg::Patches { names, current } => {
            assert(texts(names@) =~= names@.map_values(|n: String| n@));
        },
        _ => {},
    }
}

} // verus!
