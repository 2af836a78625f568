//! What a container asks of the system, one step at a time, and what the
//! system answers.
use vstd::prelude::*;
use vstd::utf8::encode_utf8;

use crate::cgroups::{SizeError, SizeFault};

verus! {

/// How a mount is made.
#[derive(Clone, Copy, Debug, PartialEq, Eq, Structural)]
pub struct MountFlags {
    /// Mount and unmount events stay within the mount namespace.
    pub private: bool,
    /// The whole tree below the target is meant.
    pub recursive: bool,
    /// The source is a directory that also appears at the target.
    pub bind: bool,
}

/// The namespaces that a process leaves for new ones.
#[derive(Clone, Copy, Debug, PartialEq, Eq, Structural)]
pub struct Namespaces {
    pub pid: bool,
    pub uts: bool,
    pub mount: bool,
    pub ipc: bool,
}

/// One thing to ask of the system. Paths and arguments are the bytes that the
/// system is handed.
#[derive(Debug, PartialEq, Eq)]
pub enum Action {
    /// Find the canonical form of a path.
    Resolve { path: Vec<u8> },
    /// Create a directory with its parents.
    CreateDirAll { path: Vec<u8> },
    /// Write a file.
    WriteFile { path: Vec<u8>, contents: String },
    /// Remove an empty directory.
    RemoveDir { path: Vec<u8> },
    /// Run this program again, with these arguments, in new namespaces.
    Spawn { arguments: Vec<Vec<u8>>, namespaces: Namespaces },
    /// Wait for the process that was spawned.
    WaitForChild,
    /// Set the host name.
    SetHostname { name: String },
    /// Mount something.
    Mount {
        source: Option<Vec<u8>>,
        target: Vec<u8>,
        filesystem: Option<String>,
        flags: MountFlags,
    },
    /// Make `new_root` the root, and let the old one appear at `put_old`.
    PivotRoot { new_root: Vec<u8>, put_old: Vec<u8> },
    /// Change the working directory.
    ChangeDir { path: Vec<u8> },
    /// Unmount something as soon as it is no longer in use.
    Detach { target: Vec<u8> },
    /// Fork.
    Fork,
    /// Wait for the process that was forked.
    WaitForInit,
    /// Become another program, with these words for its arguments, the first
    /// of them for its name.
    Execute { program: String, words: Vec<String> },
}

/// What an [`Action`] says.
pub enum ActionModel {
    Resolve { path: Seq<u8> },
    CreateDirAll { path: Seq<u8> },
    WriteFile { path: Seq<u8>, contents: Seq<char> },
    RemoveDir { path: Seq<u8> },
    Spawn { arguments: Seq<Seq<u8>>, namespaces: Namespaces },
    WaitForChild,
    SetHostname { name: Seq<char> },
    Mount {
        source: Option<Seq<u8>>,
        target: Seq<u8>,
        filesystem: Option<Seq<char>>,
        flags: MountFlags,
    },
    PivotRoot { new_root: Seq<u8>, put_old: Seq<u8> },
    ChangeDir { path: Seq<u8> },
    Detach { target: Seq<u8> },
    Fork,
    WaitForInit,
    Execute { program: Seq<char>, words: Seq<Seq<char>> },
}

/// The bytes of each element.
pub open spec fn all_bytes(items: Seq<Vec<u8>>) -> Seq<Seq<u8>> {
    items.map_values(|item: Vec<u8>| item@)
}

/// The text of each element.
pub open spec fn all_text(items: Seq<String>) -> Seq<Seq<char>> {
    items.map_values(|item: String| item@)
}

impl View for Action {
    type V = ActionModel;

    open spec fn view(&self) -> ActionModel {
        match self {
            Action::Resolve { path } => ActionModel::Resolve { path: path@ },
            Action::CreateDirAll { path } => ActionModel::CreateDirAll { path: path@ },
            Action::WriteFile { path, contents } => ActionModel::WriteFile {
                path: path@,
                contents: contents@,
            },
            Action::RemoveDir { path } => ActionModel::RemoveDir { path: path@ },
            Action::Spawn { arguments, namespaces } => ActionModel::Spawn {
                arguments: all_bytes(arguments@),
                namespaces: *namespaces,
            },
            Action::WaitForChild => ActionModel::WaitForChild,
            Action::SetHostname { name } => ActionModel::SetHostname { name: name@ },
            Action::Mount { source, target, filesystem, flags } => ActionModel::Mount {
                source: match source {
                    None => None,
                    Some(source) => Some(source@),
                },
                target: target@,
                filesystem: match filesystem {
                    None => None,
                    Some(filesystem) => Some(filesystem@),
                },
                flags: *flags,
            },
            Action::PivotRoot { new_root, put_old } => ActionModel::PivotRoot {
                new_root: new_root@,
                put_old: put_old@,
            },
            Action::ChangeDir { path } => ActionModel::ChangeDir { path: path@ },
            Action::Detach { target } => ActionModel::Detach { target: target@ },
            Action::Fork => ActionModel::Fork,
            Action::WaitForInit => ActionModel::WaitForInit,
            Action::Execute { program, words } => ActionModel::Execute {
                program: program@,
                words: all_text(words@),
            },
        }
    }
}

impl ActionModel {
    /// Whether the system has nothing to answer but whether it succeeded.
    pub open spec fn plain(self) -> bool {
        match self {
            ActionModel::Resolve { .. } => false,
            ActionModel::Spawn { .. } => false,
            ActionModel::WaitForChild => false,
            ActionModel::Fork => false,
            ActionModel::WaitForInit => false,
            ActionModel::Execute { .. } => false,
            _ => true,
        }
    }
}

impl Action {
    /// Whether the system has nothing to answer but whether it succeeded.
    pub fn is_plain(&self) -> (result: bool)
        ensures
            result == self@.plain(),
    {
        match self {
            Action::Resolve { .. } => false,
            Action::Spawn { .. } => false,
            Action::WaitForChild => false,
            Action::Fork => false,
            Action::WaitForInit => false,
            Action::Execute { .. } => false,
            _ => true,
        }
    }
}

/// What a step is for.
#[derive(Clone, Copy, Debug, PartialEq, Eq, Structural)]
pub enum Stage {
    ResolveRootfs,
    EnableControllers,
    Spawn,
    CreateCgroup,
    AddProcess,
    LimitMemory,
    CapSwap,
    LimitCpu,
    LimitPids,
    WaitForContainer,
    RemoveCgroup,
    SetHostname,
    MakeRootPrivate,
    ResolveNewRoot,
    BindRootfs,
    CreateOldRoot,
    PivotRoot,
    EnterNewRoot,
    DetachOldRoot,
    RemoveOldRoot,
    ForkInit,
    WaitForInit,
    CreateProc,
    MountProc,
    CreateSys,
    MountSys,
    ExecuteCommand,
}

/// A step: what to do, and whether to give up where it fails.
#[derive(Debug, PartialEq, Eq)]
pub struct Step {
    pub stage: Stage,
    pub action: Action,
    /// Whether a failure ends everything. Where it does not, the next step
    /// follows as after a success.
    pub required: bool,
}

/// What a [`Step`] says.
pub struct StepModel {
    pub stage: Stage,
    pub action: ActionModel,
    pub required: bool,
}

impl View for Step {
    type V = StepModel;

    open spec fn view(&self) -> StepModel {
        StepModel { stage: self.stage, action: self.action@, required: self.required }
    }
}

/// What each of several steps says.
pub open spec fn all_steps(steps: Seq<Step>) -> Seq<StepModel> {
    steps.map_values(|step: Step| step@)
}

/// How a process that was waited for came to its end.
#[derive(Clone, Copy, Debug, PartialEq, Eq, Structural)]
pub enum WaitOutcome {
    /// It exited with a status.
    Exited { code: i32 },
    /// A signal killed it.
    Signaled { signal: u8 },
    /// Anything else.
    Other,
}

/// What the system answers.
#[derive(Debug, PartialEq, Eq)]
pub enum Event {
    /// The action succeeded.
    Done,
    /// The action failed.
    Failed,
    /// The path resolves to this one.
    Resolved { path: Vec<u8> },
    /// The process was spawned, with this id.
    Spawned { id: u32 },
    /// The spawned process ended, with an exit status unless a signal killed it.
    ChildEnded { code: Option<i32> },
    /// The fork succeeded, and this is the parent.
    InParent,
    /// The fork succeeded, and this is the child.
    InChild,
    /// The forked process ended.
    InitEnded { outcome: WaitOutcome },
}

/// What an [`Event`] says.
pub enum EventModel {
    Done,
    Failed,
    Resolved { path: Seq<u8> },
    Spawned { id: u32 },
    ChildEnded { code: Option<i32> },
    InParent,
    InChild,
    InitEnded { outcome: WaitOutcome },
}

impl View for Event {
    type V = EventModel;

    open spec fn view(&self) -> EventModel {
        match self {
            Event::Done => EventModel::Done,
            Event::Failed => EventModel::Failed,
            Event::Resolved { path } => EventModel::Resolved { path: path@ },
            Event::Spawned { id } => EventModel::Spawned { id: *id },
            Event::ChildEnded { code } => EventModel::ChildEnded { code: *code },
            Event::InParent => EventModel::InParent,
            Event::InChild => EventModel::InChild,
            Event::InitEnded { outcome } => EventModel::InitEnded { outcome: *outcome },
        }
    }
}

/// Why there is no container.
#[derive(Debug, PartialEq, Eq)]
pub enum Error {
    /// The caller is not root.
    NotRoot,
    /// There is no command to run.
    NoCommand,
    /// A required step failed.
    Failed { stage: Stage },
    /// The memory limit is no size.
    MemoryLimit { error: SizeError },
    /// The CPU limit is not above zero.
    CpuLimitNotPositive,
    /// The command holds a NUL character.
    NulInCommand,
    /// An argument of the command holds a NUL character.
    NulInArgument,
}

/// What an [`Error`] says.
pub enum Fault {
    NotRoot,
    NoCommand,
    Failed { stage: Stage },
    MemoryLimit { error: SizeFault },
    CpuLimitNotPositive,
    NulInCommand,
    NulInArgument,
}

impl View for Error {
    type V = Fault;

    open spec fn view(&self) -> Fault {
        match self {
            Error::NotRoot => Fault::NotRoot,
            Error::NoCommand => Fault::NoCommand,
            Error::Failed { stage } => Fault::Failed { stage: *stage },
            Error::MemoryLimit { error } => Fault::MemoryLimit { error: error@ },
            Error::CpuLimitNotPositive => Fault::CpuLimitNotPositive,
            Error::NulInCommand => Fault::NulInCommand,
            Error::NulInArgument => Fault::NulInArgument,
        }
    }
}

/// The bytes of a text.
pub open spec fn bytes(text: Seq<char>) -> Seq<u8> {
    encode_utf8(text)
}

/// The path of `name` in the directory `dir`.
pub open spec fn joined(dir: Seq<u8>, name: Seq<u8>) -> Seq<u8> {
    if dir.len() == 0 || dir.last() == 0x2f {
        dir + name
    } else {
        dir.push(0x2f) + name
    }
}

/// A copy of some bytes.
pub fn copy_bytes(source: &Vec<u8>) -> (result: Vec<u8>)
    ensures
        result@ == source@,
{
    let mut result: Vec<u8> = Vec::new();
    let mut i: usize = 0;
    while i < source.len()
        invariant
            i <= source.len(),
            result@ == source@.take(i as int),
        decreases source.len() - i,
    {
        result.push(source[i]);
        i = i + 1;
        assert(source@.take(i as int) =~= source@.take(i - 1).push(source@[i - 1]));
    }
    assert(source@.take(i as int) =~= source@);
    result
}

/// The path of `name` in the directory `dir`.
pub fn join(dir: &Vec<u8>, name: &str) -> (result: Vec<u8>)
    ensures
        result@ == joined(dir@, bytes(name@)),
{
    let mut result = copy_bytes(dir);
    if result.len() > 0 && result[result.len() - 1] != 0x2f {
        result.push(0x2f);
    }
    let mut tail = name.as_bytes_vec();
    result.append(&mut tail);
    result
}

} // verus!
