//! What the web version of the synthesizer does when the page asks for
//! something. It has neither a performer nor a log.
use crate::ipc::{ClientMsg, ClientView};
use crate::listing::{as_written, patch_names, patches_among, sort_names, sorted_from, texts};
use crate::names::{file_name, joined, lemma_patch_files, lemma_safe_file, patch_file, safe_file, sanitized};
use crate::params::{
    lemma_set_reads_back, param_index, value_of, with_param, Params, Patch, PARAM_COUNT,
};
use crate::queue::{offer, offered, queued, slots};
use crate::synth::NoteEvent;
use crossbeam_queue::ArrayQueue;
use vstd::prelude::*;

pub use crate::names::sanitize;

verus! {

/// An answer.
#[derive(Clone, Debug)]
pub enum ServerMsg {
    Patches { names: Vec<String> },
    State { patch: Patch },
    Done,
    Error { message: String },
}

/// What comes of a request: the answer, or something to do on the disk first.
#[derive(Clone, Debug)]
pub enum Step {
    Reply { answer: ServerMsg },
    /// Read the patch in this file, then [`finish_load`].
    Load { file: String },
    /// Store the patch in this file, then [`finish_write`].
    Save { file: String, patch: Patch },
    /// Remove this file, then [`finish_write`].
    Delete { file: String },
    /// List the files, then [`finish_list`].
    List,
}

/// An answer, with texts and patches as sequences.
#[verifier::ext_equal]
pub enum ServerView {
    Patches { names: Seq<Seq<char>> },
    State { patch: Seq<u32> },
    Done,
    Error { message: Seq<char> },
}

/// What comes of a request, with texts and patches as sequences.
#[verifier::ext_equal]
pub enum StepView {
    Reply { answer: ServerView },
    Load { file: Seq<char> },
    Save { file: Seq<char>, patch: Seq<u32> },
    Delete { file: Seq<char> },
    List,
}

impl View for ServerMsg {
    type V = ServerView;

    open spec fn view(&self) -> ServerView {
        match *self {
            ServerMsg::Patches { names } => ServerView::Patches { names: texts(names@) },
            ServerMsg::State { patch } => ServerView::State { patch: patch@ },
            ServerMsg::Done => ServerView::Done,
            ServerMsg::Error { message } => ServerView::Error { message: message@ },
        }
    }
}

impl StepView {
    /// The file that is to be read, stored or removed, if there is one.
    pub open spec fn file(self) -> Option<Seq<char>> {
        match self {
            StepView::Load { file, .. } => Some(file),
            StepView::Save { file, .. } => Some(file),
            StepView::Delete { file } => Some(file),
            _ => None,
        }
    }
}

impl View for Step {
    type V = StepView;

    open spec fn view(&self) -> StepView {
        match *self {
            Step::Reply { answer } => StepView::Reply { answer: answer@ },
            Step::Load { file } => StepView::Load { file: file@ },
            Step::Save { file, patch } => StepView::Save { file: file@, patch: patch@ },
            Step::Delete { file } => StepView::Delete { file: file@ },
            Step::List => StepView::List,
        }
    }
}

/// The parameters after a request.
pub open spec fn told(params: Seq<u32>, msg: ClientView) -> Seq<u32> {
    match msg {
        ClientView::Param { name, value } => with_param(params, name, value),
        _ => params,
    }
}

/// The events that a request causes.
pub open spec fn events(msg: ClientView) -> Seq<NoteEvent> {
    match msg {
        ClientView::NoteOn { note, velocity } => seq![NoteEvent::On { note, velocity }],
        ClientView::NoteOff { note } => seq![NoteEvent::Off { note }],
        ClientView::AllOff => seq![NoteEvent::AllOff],
        _ => Seq::empty(),
    }
}

/// What comes of a request.
pub open spec fn step(params: Seq<u32>, msg: ClientView) -> StepView {
    match msg {
        ClientView::Param { name, value } => StepView::Reply {
            answer: if param_index(name) is Some {
                ServerView::Done
            } else {
                ServerView::Error { message: "Unknown param: "@ + name }
            },
        },
        ClientView::LoadPatch { name } => StepView::Load { file: patch_file(sanitized(name)) },
        ClientView::SavePatch { name } => if sanitized(name).len() == 0 {
            StepView::Reply { answer: ServerView::Error { message: "Invalid patch name"@ } }
        } else {
            StepView::Save { file: patch_file(sanitized(name)), patch: params }
        },
        ClientView::DeletePatch { name } => StepView::Delete {
            file: patch_file(sanitized(name)),
        },
        ClientView::ListPatches => StepView::List,
        ClientView::GetState => StepView::Reply { answer: ServerView::State { patch: params } },
        _ => StepView::Reply { answer: ServerView::Done },
    }
}

/// Does what a request asks for, up to what needs the disk.
pub fn handle_msg(
    msg: ClientMsg,
    params: &mut Params,
    queue: &mut ArrayQueue<NoteEvent>,
) -> (r: Step)
    ensures
        final(params)@ == told(old(params)@, msg@),
        r@ == step(old(params)@, msg@),
        r@.file() is Some ==> safe_file(r@.file()->0),
        slots(*final(queue)) == slots(*old(queue)),
        queued(*final(queue)) == offered(
            queued(*old(queue)),
            slots(*old(queue)),
            events(msg@),
        ),
{
    assert(queued(*queue) + Seq::<NoteEvent>::empty() =~= queued(*queue));
    match msg {
        ClientMsg::NoteOn { note, velocity } => {
            offer(queue, NoteEvent::On { note, velocity });
            Step::Reply { answer: ServerMsg::Done }
        },
        ClientMsg::NoteOff { note } => {
            offer(queue, NoteEvent::Off { note });
            Step::Reply { answer: ServerMsg::Done }
        },
        ClientMsg::AllOff => {
            offer(queue, NoteEvent::AllOff);
            Step::Reply { answer: ServerMsg::Done }
        },
        ClientMsg::Param { name, value } => {
            if params.set(name.as_str(), value) {
                Step::Reply { answer: ServerMsg::Done }
            } else {
                Step::Reply {
                    answer: ServerMsg::Error {
                        message: joined("Unknown param: ", name.as_str()),
                    },
                }
            }
        },
        ClientMsg::LoadPatch { name } => {
            let safe = sanitize(name.as_str());
            proof {
                lemma_safe_file(safe@);
            }
            Step::Load { file: file_name(safe.as_str()) }
        },
        ClientMsg::SavePatch { name } => {
            let safe = sanitize(name.as_str());
            proof {
                lemma_safe_file(safe@);
            }
            if safe.as_str().is_empty() {
                assert(safe@.len() == 0);
                return Step::Reply {
                    answer: ServerMsg::Error { message: "Invalid patch name".to_owned() },
                };
            }
            Step::Save { file: file_name(safe.as_str()), patch: params.to_patch() }
        },
        ClientMsg::DeletePatch { name } => {
            let safe = sanitize(name.as_str());
            proof {
                lemma_safe_file(safe@);
            }
            Step::Delete { file: file_name(safe.as_str()) }
        },
        ClientMsg::ListPatches => Step::List,
        ClientMsg::GetState => Step::Reply {
            answer: ServerMsg::State { patch: params.to_patch() },
        },
    }
}

/// A patch was read, or could not be.
pub fn finish_load(params: &mut Params, read: Result<Patch, String>) -> (r: ServerMsg)
    ensures
        match read {
            Ok(patch) => {
                &&& final(params)@ == patch@
                &&& r@ == (ServerView::State { patch: patch@ })
            },
            Err(message) => {
                &&& final(params)@ == old(params)@
                &&& r@ == (ServerView::Error { message: message@ })
            },
        },
{
    match read {
        Ok(patch) => {
            params.apply_patch(&patch);
            ServerMsg::State { patch }
        },
        Err(message) => ServerMsg::Error { message },
    }
}

/// A patch's file was stored or removed, or could not be.
pub fn finish_write(written: Result<(), String>) -> (r: ServerMsg)
    ensures
        match written {
            Ok(_) => r@ == ServerView::Done,
            Err(message) => r@ == (ServerView::Error { message: message@ }),
        },
{
    match written {
        Ok(_) => ServerMsg::Done,
        Err(message) => ServerMsg::Error { message },
    }
}

/// The patches among a directory's files, in alphabetical order.
pub fn list_patches(files: &Vec<String>) -> (r: Vec<String>)
    ensures
        sorted_from(texts(r@), patches_among(texts(files@)), as_written()),
{
    sort_names(&patch_names(files))
}

/// The directory of patches was listed.
pub fn finish_list(files: &Vec<String>) -> (r: ServerMsg)
    ensures
        r@ matches ServerView::Patches { names } && sorted_from(
            names,
            patches_among(texts(files@)),
            as_written(),
        ),
{
    ServerMsg::Patches { names: list_patches(files) }
}

/// What comes over the page's socket.
#[derive(Copy, Clone, Debug, PartialEq, Eq, Structural)]
pub enum FrameKind {
    /// A text, which should be a request.
    Text,
    /// The page closes the socket.
    Close,
    /// The socket is broken or was closed.
    Broken,
    /// Anything else.
    Other,
}

/// What to do about it.
#[derive(Copy, Clone, Debug, PartialEq, Eq, Structural)]
pub enum FrameAction {
    /// Send an answer.
    Answer,
    /// Wait for the next one.
    Skip,
    /// Stop listening.
    Stop,
}

/// What to do about what came over the page's socket.
pub fn frame_action(kind: FrameKind) -> (r: FrameAction)
    ensures
        r == (match kind {
            FrameKind::Text => FrameAction::Answer,
            FrameKind::Close => FrameAction::Stop,
            FrameKind::Broken => FrameAction::Stop,
            FrameKind::Other => FrameAction::Skip,
        }),
{
    match kind {
        FrameKind::Text => FrameAction::Answer,
        FrameKind::Close => FrameAction::Stop,
        FrameKind::Broken => FrameAction::Stop,
        FrameKind::Other => FrameAction::Skip,
    }
}

/// The answer to a message that makes no sense.
pub fn bad_msg(error: &str) -> (r: ServerMsg)
    ensures
        r@ == (ServerView::Error { message: "Bad msg: "@ + error@ }),
{
    ServerMsg::Error { message: joined("Bad msg: ", error) }
}

/// What was saved comes back when it is loaded, under any name that is made the
/// same safe name: the patch is read from the file that it was stored in, and
/// once its values are taken over, as [`finish_load`] does, they are those of the
/// moment when it was saved, whatever was played in between.
pub proof fn lemma_saved_sound_comes_back(
    params: Seq<u32>,
    later: Seq<u32>,
    name: Seq<char>,
    other_name: Seq<char>,
    saved: StepView,
    after: Seq<u32>,
)
    requires
        sanitized(name).len() > 0,
        sanitized(other_name) == sanitized(name),
        saved == step(params, ClientView::SavePatch { name }),
        saved is Save ==> after == saved->patch,
    ensures
        saved is Save,
        step(later, ClientView::LoadPatch { name: other_name }) == (StepView::Load {
            file: saved.file()->0,
        }),
        after == params,
        step(after, ClientView::GetState) == step(params, ClientView::GetState),
{
}

/// Notes go straight to the audio engine, as hard as they were struck; nothing
/// else makes an event.
pub proof fn lemma_events(note: u8, velocity: u32, msg: ClientView)
    ensures
        events(ClientView::NoteOn { note, velocity }) == seq![NoteEvent::On { note, velocity }],
        events(ClientView::NoteOff { note }) == seq![NoteEvent::Off { note }],
        events(ClientView::AllOff) == seq![NoteEvent::AllOff],
        !(msg is NoteOn) && !(msg is NoteOff) && !(msg is AllOff) ==> events(msg).len() == 0,
{
}

/// A parameter that there is gets the value that was sent, and all others keep
/// theirs; no other request changes any.
pub proof fn lemma_params_after(
    params: Seq<u32>,
    name: Seq<char>,
    value: u32,
    other: Seq<char>,
    msg: ClientView,
)
    requires
        params.len() == PARAM_COUNT,
    ensures
        ({
            let after = told(params, ClientView::Param { name, value });
            &&& param_index(name) is Some ==> value_of(after, name) == Some(value)
            &&& other != name ==> value_of(after, other) == value_of(params, other)
            &&& param_index(name) is None ==> after == params
        }),
        !(msg is Param) ==> told(params, msg) == params,
{
    lemma_set_reads_back(params, name, value, other);
}

/// What is answered at once, and what is to be done on the disk: loading, saving
/// and deleting a patch are about the one file that is called after its safe
/// name, and saving stores the values of the moment.
pub proof fn lemma_answers(params: Seq<u32>, msg: ClientView, name: Seq<char>, value: u32)
    ensures
        msg is NoteOn || msg is NoteOff || msg is AllOff ==> step(params, msg) == (
        StepView::Reply { answer: ServerView::Done }),
        step(params, ClientView::ListPatches) == StepView::List,
        step(params, ClientView::GetState) == (StepView::Reply {
            answer: ServerView::State { patch: params },
        }),
        step(params, ClientView::Param { name, value }) == (StepView::Reply {
            answer: if param_index(name) is Some {
                ServerView::Done
            } else {
                ServerView::Error { message: "Unknown param: "@ + name }
            },
        }),
        step(params, ClientView::LoadPatch { name }) == (StepView::Load {
            file: sanitized(name) + ".json"@,
        }),
        step(params, ClientView::DeletePatch { name }) == (StepView::Delete {
            file: sanitized(name) + ".json"@,
        }),
        sanitized(name).len() > 0 ==> step(params, ClientView::SavePatch { name }) == (
        StepView::Save { file: sanitized(name) + ".json"@, patch: params }),
        sanitized(name).len() == 0 ==> step(params, ClientView::SavePatch { name }) == (
        StepView::Reply { answer: ServerView::Error { message: "Invalid patch name"@ } }),
{
    lemma_patch_files(sanitized(name), name);
}

/// What an answer and a step are seen as is what they say.
pub proof fn lemma_answer_views(msg: ServerMsg, todo: Step)
    ensures
        match msg {
            ServerMsg::Patches { names } => msg@ == (ServerView::Patches {
                names: names@.map_values(|n: String| n@),
            }),
            ServerMsg::State { patch } => msg@ == (ServerView::State { patch: patch.values@ }),
            ServerMsg::Done => msg@ == ServerView::Done,
            ServerMsg::Error { message } => msg@ == (ServerView::Error { message: message@ }),
        },
        match todo {
            Step::Reply { answer } => todo@ == (StepView::Reply { answer: answer@ }),
            Step::Load { file } => todo@ == (StepView::Load { file: file@ }),
            Step::Save { file, patch } => todo@ == (StepView::Save {
                file: file@,
                patch: patch.values@,
            }),
            Step::Delete { file } => todo@ == (StepView::Delete { file: file@ }),
            Step::List => todo@ == StepView::List,
        },
{
    match msg {
        ServerMsg::Patches { names } => {
            assert(texts(names@) =~= names@.map_values(|n: String| n@));
        },
        _ => {},
    }
}

} // verus!
