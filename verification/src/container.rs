//! Process lifecycle orchestration for both halves of the self-exec pattern:
//! `run` (host-side parent) and `child_init` (re-executed inside new
//! namespaces).
//!
//! Each half is a machine: it names the step to perform, is told what came of
//! it, and names the next, until it has an outcome.
use vstd::prelude::*;

use crate::action::{
    all_steps, all_text, copy_bytes, Action, ActionModel, Error, Event, EventModel, Fault, Stage,
    Step, StepModel, WaitOutcome,
};
use crate::cgroups::{
    add_process, cgroup_dir, cgroup_path, cleanup, cpu_step, create_cgroup, enable_controllers,
    memory_steps, parse_size_to_bytes, set_cpu_limit, set_memory_limit, set_pids_limit,
    size_in_bytes, subtree_control, write_step,
};
use crate::filesystem::{
    make_root_private, mount_proc_and_sys, pivot_root_into, pivot_steps, private_step,
    proc_and_sys_steps, required,
};
use crate::float::Float;
use crate::namespaces::{spawn_isolated, spawn_step};
use crate::text::{chars_of, numeral, signed_numeral};

verus! {

/// How many processes a container may have unless something else is asked for.
pub const DEFAULT_MAX_PIDS: u64 = 64;

/// What kind of container to run.
#[derive(Debug, PartialEq, Eq)]
pub struct RunOptions {
    /// The directory that becomes the root filesystem.
    pub rootfs: Vec<u8>,
    /// The memory ceiling, e.g. "50M".
    pub memory: Option<String>,
    /// The fraction of a single CPU core, as the bits of a double-precision
    /// number.
    pub cpu: Option<u64>,
    /// How many processes there may be.
    pub max_pids: Option<u64>,
    /// The command to run.
    pub command: Vec<String>,
}

/// What [`RunOptions`] say.
pub struct OptionsModel {
    pub rootfs: Seq<u8>,
    pub memory: Option<Seq<char>>,
    pub cpu: Option<u64>,
    pub max_pids: Option<u64>,
    pub command: Seq<Seq<char>>,
}

impl View for RunOptions {
    type V = OptionsModel;

    open spec fn view(&self) -> OptionsModel {
        OptionsModel {
            rootfs: self.rootfs@,
            memory: match self.memory {
                None => None,
                Some(memory) => Some(memory@),
            },
            cpu: self.cpu,
            max_pids: self.max_pids,
            command: all_text(self.command@),
        }
    }
}

/// How a machine ends.
#[derive(Debug, PartialEq, Eq)]
pub enum Outcome {
    /// The program is to exit with this status.
    Exit { code: i32 },
    /// There is no container, for this reason.
    Fail { error: Error },
}

/// What an [`Outcome`] says.
pub enum OutcomeModel {
    Exit { code: i32 },
    Fail { fault: Fault },
}

impl View for Outcome {
    type V = OutcomeModel;

    open spec fn view(&self) -> OutcomeModel {
        match self {
            Outcome::Exit { code } => OutcomeModel::Exit { code: *code },
            Outcome::Fail { error } => OutcomeModel::Fail { fault: error@ },
        }
    }
}

/// The signed process id with the same bits as `id`.
pub open spec fn pid_of(id: u32) -> i32 {
    if id < 0x8000_0000 {
        id as i32
    } else {
        (id - 0x1_0000_0000) as i32
    }
}

fn to_pid(id: u32) -> (pid: i32)
    ensures
        pid == pid_of(id),
{
    if id < 0x8000_0000 {
        id as i32
    } else {
        (id as i64 - 0x1_0000_0000) as i32
    }
}

/// Why the limits asked for cannot be set, if they cannot.
pub open spec fn limit_fault(options: OptionsModel) -> Option<Fault> {
    if options.memory is Some && size_in_bytes(options.memory->0) is Err {
        Some(Fault::MemoryLimit { error: size_in_bytes(options.memory->0)->Err_0 })
    } else if options.cpu is Some && !Float::of_bits(options.cpu->0).positive() {
        Some(Fault::CpuLimitNotPositive)
    } else {
        None
    }
}

/// How many processes the container may have.
pub open spec fn pids_limit(options: OptionsModel) -> u64 {
    match options.max_pids {
        Some(max_pids) => max_pids,
        None => DEFAULT_MAX_PIDS,
    }
}

/// The steps that put the process into a cgroup of its own.
pub open spec fn cgroup_steps(pid: i32) -> Seq<StepModel> {
    seq![
        required(Stage::CreateCgroup, ActionModel::CreateDirAll { path: cgroup_path(pid) }),
        write_step(
            Stage::AddProcess,
            cgroup_path(pid),
            "cgroup.procs"@,
            signed_numeral(pid as int),
            true,
        ),
    ]
}

/// The steps that limit the container: those for each limit in turn, up to the
/// first that cannot be set.
pub open spec fn limit_steps(pid: i32, options: OptionsModel) -> Seq<StepModel> {
    let dir = cgroup_path(pid);
    let memory = if options.memory is Some && size_in_bytes(options.memory->0) is Ok {
        memory_steps(dir, size_in_bytes(options.memory->0)->Ok_0)
    } else {
        Seq::empty()
    };
    let cpu = if options.cpu is Some && limit_fault(options) is None {
        seq![cpu_step(dir, Float::of_bits(options.cpu->0))]
    } else {
        Seq::empty()
    };
    let pids = if limit_fault(options) is None {
        seq![
            write_step(
                Stage::LimitPids,
                dir,
                "pids.max"@,
                numeral(pids_limit(options) as nat),
                true,
            ),
        ]
    } else {
        Seq::empty()
    };
    cgroup_steps(pid) + memory + cpu + pids
}

/// Says why the limits asked for cannot be set, if they cannot.
fn find_limit_fault(options: &RunOptions) -> (result: Option<Error>)
    ensures
        match result {
            None => limit_fault(options@) is None,
            Some(error) => limit_fault(options@) == Some(error@),
        },
{
    if let Some(memory) = &options.memory {
        if let Err(error) = parse_size_to_bytes(memory.as_str()) {
            return Some(Error::MemoryLimit { error });
        }
    }
    if let Some(bits) = options.cpu {
        if !Float::from_bits(bits).is_positive() {
            return Some(Error::CpuLimitNotPositive);
        }
    }
    None
}

/// Plans the steps that limit the container.
fn plan_limits(pid: i32, options: &RunOptions) -> (steps: Vec<Step>)
    ensures
        all_steps(steps@) == limit_steps(pid, options@),
{
    let dir = cgroup_dir(pid);
    let mut steps: Vec<Step> = Vec::new();
    steps.push(create_cgroup(pid));
    steps.push(add_process(&dir, pid));
    assert(all_steps(steps@) =~= cgroup_steps(pid));
    let ghost first = steps@;
    if let Some(memory) = &options.memory {
        match set_memory_limit(&dir, memory.as_str()) {
            Err(_) => {
                assert(all_steps(steps@) =~= limit_steps(pid, options@));
                return steps;
            },
            Ok(mut more) => {
                let ghost second = more@;
                steps.append(&mut more);
                assert(all_steps(steps@) =~= all_steps(first) + all_steps(second));
            },
        }
    }
    let ghost with_memory = steps@;
    if let Some(bits) = options.cpu {
        match set_cpu_limit(&dir, Float::from_bits(bits)) {
            Err(_) => {
                assert(all_steps(steps@) =~= limit_steps(pid, options@));
                return steps;
            },
            Ok(step) => {
                steps.push(step);
                assert(all_steps(steps@) =~= all_steps(with_memory).push(step@));
            },
        }
    }
    let ghost with_cpu = steps@;
    let max_pids: u64 = match options.max_pids {
        Some(max_pids) => max_pids,
        None => DEFAULT_MAX_PIDS,
    };
    let last = set_pids_limit(&dir, max_pids);
    let ghost last_model = last@;
    steps.push(last);
    assert(all_steps(steps@) =~= all_steps(with_cpu).push(last_model));
    assert(all_steps(steps@) =~= limit_steps(pid, options@));
    steps
}

/// How far a run has come.
#[derive(Clone, Copy, Debug, PartialEq, Eq, Structural)]
pub enum RunPhase {
    /// The rootfs is being resolved.
    Resolving,
    /// The container's first process is being started.
    Launching,
    /// The process is being limited.
    Limiting { pid: i32 },
    /// The container is running.
    Waiting { pid: i32 },
    /// The container has ended with this status.
    CleaningUp { code: i32 },
}

/// A container as the host sees it.
pub struct Run {
    options: RunOptions,
    phase: RunPhase,
    /// What is to be done in this phase, the current step first.
    plan: Vec<Step>,
    outcome: Option<Outcome>,
}

/// What a [`Run`] is.
pub struct RunModel {
    pub options: OptionsModel,
    pub phase: RunPhase,
    pub plan: Seq<StepModel>,
    pub outcome: Option<OutcomeModel>,
}

impl View for Run {
    type V = RunModel;

    closed spec fn view(&self) -> RunModel {
        RunModel {
            options: self.options@,
            phase: self.phase,
            plan: all_steps(self.plan@),
            outcome: match self.outcome {
                None => None,
                Some(outcome) => Some(outcome@),
            },
        }
    }
}

/// The step that enables the controllers.
pub open spec fn enable_step() -> StepModel {
    StepModel {
        stage: Stage::EnableControllers,
        action: ActionModel::WriteFile {
            path: subtree_control(),
            contents: "+memory +cpu +pids"@,
        },
        required: false,
    }
}

/// The step that removes the cgroup of `pid`.
pub open spec fn cleanup_step(pid: i32) -> StepModel {
    StepModel {
        stage: Stage::RemoveCgroup,
        action: ActionModel::RemoveDir { path: cgroup_path(pid) },
        required: false,
    }
}

/// The status with which a run ends: that of the container, or one where a
/// signal killed the container's supervisor.
pub open spec fn relayed(code: Option<i32>) -> i32 {
    match code {
        Some(code) => code,
        None => 1,
    }
}

impl RunModel {
    /// The run, ended.
    pub open spec fn ended(self, outcome: OutcomeModel) -> RunModel {
        RunModel { plan: Seq::empty(), outcome: Some(outcome), ..self }
    }

    /// The run, at the start of another phase.
    pub open spec fn entered(self, phase: RunPhase, plan: Seq<StepModel>) -> RunModel {
        RunModel { phase, plan, ..self }
    }

    /// The run once its current step is over, and nothing came of it but that.
    pub open spec fn advanced(self) -> RunModel {
        let rest = self.plan.drop_first();
        if rest.len() > 0 {
            self.entered(self.phase, rest)
        } else {
            match self.phase {
                RunPhase::Limiting { pid } => match limit_fault(self.options) {
                    Some(fault) => self.ended(OutcomeModel::Fail { fault }),
                    None => self.entered(
                        RunPhase::Waiting { pid },
                        seq![required(Stage::WaitForContainer, ActionModel::WaitForChild)],
                    ),
                },
                RunPhase::CleaningUp { code } => self.ended(OutcomeModel::Exit { code }),
                _ => self.entered(self.phase, rest),
            }
        }
    }

    /// The run once the system has answered. An answer that does not fit the
    /// current step changes nothing.
    pub open spec fn next(self, event: EventModel) -> RunModel {
        if self.plan.len() == 0 {
            self
        } else {
            let step = self.plan[0];
            match event {
                EventModel::Failed => if step.required {
                    self.ended(OutcomeModel::Fail { fault: Fault::Failed { stage: step.stage } })
                } else {
                    self.advanced()
                },
                EventModel::Done => if step.action.plain() {
                    self.advanced()
                } else {
                    self
                },
                EventModel::Resolved { path } => if step.action is Resolve {
                    self.entered(
                        RunPhase::Launching,
                        seq![enable_step(), spawn_step(path, self.options.command)],
                    )
                } else {
                    self
                },
                EventModel::Spawned { id } => if step.action is Spawn {
                    let pid = pid_of(id);
                    self.entered(RunPhase::Limiting { pid }, limit_steps(pid, self.options))
                } else {
                    self
                },
                EventModel::ChildEnded { code } => match self.phase {
                    RunPhase::Waiting { pid } => if step.action is WaitForChild {
                        self.entered(
                            RunPhase::CleaningUp { code: relayed(code) },
                            seq![cleanup_step(pid)],
                        )
                    } else {
                        self
                    },
                    _ => self,
                },
                _ => self,
            }
        }
    }
}

/// A run at its start: it is refused unless the caller is root and there is a
/// command.
pub open spec fn run_start(effective_uid: u32, options: OptionsModel) -> RunModel {
    let idle = RunModel {
        options,
        phase: RunPhase::Resolving,
        plan: seq![
            required(Stage::ResolveRootfs, ActionModel::Resolve { path: options.rootfs }),
        ],
        outcome: None,
    };
    if effective_uid != 0 {
        idle.ended(OutcomeModel::Fail { fault: Fault::NotRoot })
    } else if options.command.len() == 0 {
        idle.ended(OutcomeModel::Fail { fault: Fault::NoCommand })
    } else {
        idle
    }
}

/// Host-side entrypoint: starts a run.
pub fn run(effective_uid: u32, options: RunOptions) -> (result: Run)
    ensures
        result@ == run_start(effective_uid, options@),
{
    let mut plan: Vec<Step> = Vec::new();
    let mut outcome: Option<Outcome> = None;
    if effective_uid != 0 {
        outcome = Some(Outcome::Fail { error: Error::NotRoot });
    } else if options.command.len() == 0 {
        outcome = Some(Outcome::Fail { error: Error::NoCommand });
    } else {
        plan.push(
            Step {
                stage: Stage::ResolveRootfs,
                action: Action::Resolve { path: copy_bytes(&options.rootfs) },
                required: true,
            },
        );
    }
    let result = Run { options, phase: RunPhase::Resolving, plan, outcome };
    assert(result@.plan =~= run_start(effective_uid, options@).plan);
    result
}

impl Run {
    /// The step to perform, unless the run has ended.
    pub fn step(&self) -> (result: Option<&Step>)
        ensures
            match result {
                None => self@.plan.len() == 0,
                Some(step) => self@.plan.len() > 0 && step@ == self@.plan[0],
            },
    {
        if self.plan.len() == 0 {
            None
        } else {
            Some(&self.plan[0])
        }
    }

    /// How the run has ended, if it has.
    pub fn outcome(&self) -> (result: Option<&Outcome>)
        ensures
            match result {
                None => self@.outcome is None,
                Some(outcome) => self@.outcome == Some(outcome@),
            },
    {
        self.outcome.as_ref()
    }

    fn end(&mut self, outcome: Outcome)
        ensures
            final(self)@ == old(self)@.ended(outcome@),
    {
        self.plan = Vec::new();
        self.outcome = Some(outcome);
        assert(all_steps(self.plan@) =~= Seq::empty());
    }

    fn advance(&mut self)
        requires
            old(self)@.plan.len() > 0,
        ensures
            final(self)@ == old(self)@.advanced(),
    {
        let ghost before = self.plan@;
        let _ = self.plan.remove(0);
        assert(all_steps(self.plan@) =~= all_steps(before).drop_first());
        if self.plan.len() == 0 {
            match self.phase {
                RunPhase::Limiting { pid } => match find_limit_fault(&self.options) {
                    Some(error) => {
                        self.end(Outcome::Fail { error });
                    },
                    None => {
                        self.phase = RunPhase::Waiting { pid };
                        self.plan.push(
                            Step {
                                stage: Stage::WaitForContainer,
                                action: Action::WaitForChild,
                                required: true,
                            },
                        );
                        assert(all_steps(self.plan@) =~= seq![
                            required(Stage::WaitForContainer, ActionModel::WaitForChild),
                        ]);
                    },
                },
                RunPhase::CleaningUp { code } => {
                    self.end(Outcome::Exit { code });
                },
                _ => {},
            }
        }
    }

    /// Takes the system's answer to the current step.
    pub fn resume(&mut self, event: Event)
        ensures
            final(self)@ == old(self)@.next(event@),
    {
        if self.plan.len() == 0 {
            return;
        }
        match event {
            Event::Failed => {
                if self.plan[0].required {
                    let stage: Stage = self.plan[0].stage;
                    self.end(Outcome::Fail { error: Error::Failed { stage } });
                } else {
                    self.advance();
                }
            },
            Event::Done => {
                if self.plan[0].action.is_plain() {
                    self.advance();
                }
            },
            Event::Resolved { path } => {
                if let Action::Resolve { .. } = self.plan[0].action {
                    let mut plan: Vec<Step> = Vec::new();
                    plan.push(enable_controllers());
                    plan.push(spawn_isolated(&path, &self.options.command));
                    self.phase = RunPhase::Launching;
                    self.plan = plan;
                    assert(all_steps(self.plan@) =~= seq![
                        enable_step(),
                        spawn_step(path@, self.options@.command),
                    ]);
                }
            },
            Event::Spawned { id } => {
                if let Action::Spawn { .. } = self.plan[0].action {
                    let pid: i32 = to_pid(id);
                    self.phase = RunPhase::Limiting { pid };
                    self.plan = plan_limits(pid, &self.options);
                }
            },
            Event::ChildEnded { code } => {
                if let RunPhase::Waiting { pid } = self.phase {
                    if let Action::WaitForChild = self.plan[0].action {
                        let status: i32 = match code {
                            Some(code) => code,
                            None => 1,
                        };
                        let mut plan: Vec<Step> = Vec::new();
                        plan.push(cleanup(&cgroup_dir(pid)));
                        self.phase = RunPhase::CleaningUp { code: status };
                        self.plan = plan;
                        assert(all_steps(self.plan@) =~= seq![cleanup_step(pid)]);
                    }
                }
            },
            _ => {},
        }
    }
}

/// The exit status that a process ended with: its own, or 128 and the number of
/// the signal that killed it.
pub open spec fn exit_code(outcome: WaitOutcome) -> int {
    match outcome {
        WaitOutcome::Exited { code } => code as int,
        WaitOutcome::Signaled { signal } => 128 + signal,
        WaitOutcome::Other => 1,
    }
}

/// The exit status that relays how a process ended.
pub fn exit_code_from(outcome: WaitOutcome) -> (code: i32)
    ensures
        code == exit_code(outcome),
{
    match outcome {
        WaitOutcome::Exited { code } => code,
        WaitOutcome::Signaled { signal } => 128 + signal as i32,
        WaitOutcome::Other => 1,
    }
}

/// Whether a text holds a NUL character, which the system cannot be handed.
pub open spec fn has_nul(text: Seq<char>) -> bool {
    text.contains('\0')
}

fn contains_nul(text: &str) -> (result: bool)
    ensures
        result == has_nul(text@),
{
    let chars = chars_of(text);
    let mut i: usize = 0;
    while i < chars.len()
        invariant
            i <= chars.len(),
            chars@ == text@,
            forall|j: int| 0 <= j < i ==> chars@[j] != '\0',
        decreases chars.len() - i,
    {
        if chars[i] == '\0' {
            assert(text@[i as int] == '\0');
            return true;
        }
        i = i + 1;
    }
    false
}

/// Why a command cannot be executed, if it cannot.
pub open spec fn command_fault(command: Seq<Seq<char>>) -> Option<Fault> {
    if command.len() == 0 {
        Some(Fault::NoCommand)
    } else if has_nul(command[0]) {
        Some(Fault::NulInCommand)
    } else if exists|i: int| 0 <= i < command.len() && has_nul(#[trigger] command[i]) {
        Some(Fault::NulInArgument)
    } else {
        None
    }
}

/// The step that turns the process into the command: the first word is the
/// program, and all words are its arguments.
pub open spec fn execute_step(command: Seq<Seq<char>>) -> StepModel {
    required(
        Stage::ExecuteCommand,
        ActionModel::Execute { program: command[0], words: command },
    )
}

/// Plans to execute the user's command.
pub fn exec_user_command(command: &Vec<String>) -> (result: Result<Step, Error>)
    ensures
        match result {
            Ok(step) => {
                &&& command_fault(all_text(command@)) is None
                &&& step@ == execute_step(all_text(command@))
                &&& step@.action == (ActionModel::Execute {
                    program: command@[0]@,
                    words: all_text(command@),
                })
            },
            Err(error) => command_fault(all_text(command@)) == Some(error@),
        },
{
    let ghost texts = all_text(command@);
    if command.len() == 0 {
        return Err(Error::NoCommand);
    }
    if contains_nul(command[0].as_str()) {
        return Err(Error::NulInCommand);
    }
    let mut words: Vec<String> = Vec::new();
    let mut i: usize = 0;
    while i < command.len()
        invariant
            i <= command.len(),
            texts == all_text(command@),
            command.len() > 0,
            !has_nul(texts[0]),
            all_text(words@) =~= texts.take(i as int),
            forall|j: int| 0 <= j < i ==> !has_nul(#[trigger] texts[j]),
        decreases command.len() - i,
    {
        assert(texts[i as int] == command@[i as int]@);
        if contains_nul(command[i].as_str()) {
            return Err(Error::NulInArgument);
        }
        let ghost before = words@;
        words.push(command[i].clone());
        i = i + 1;
        proof {
            assert(all_text(words@) =~= all_text(before).push(texts[i - 1]));
            assert(texts.take(i as int) =~= texts.take(i - 1).push(texts[i - 1]));
        }
    }
    assert(texts.take(i as int) =~= texts);
    Ok(
        Step {
            stage: Stage::ExecuteCommand,
            action: Action::Execute { program: command[0].clone(), words },
            required: true,
        },
    )
}

/// How far the container's own side has come.
#[derive(Clone, Copy, Debug, PartialEq, Eq, Structural)]
pub enum ChildPhase {
    /// The host name, mount propagation and rootfs are being seen to.
    Preparing,
    /// The root filesystem is being swapped.
    Pivoting,
    /// This process waits for the container's init process.
    Supervising,
    /// This is the container's init process.
    Initialising,
    /// The init process becomes the user's command.
    Executing,
}

/// A container as it sees itself.
pub struct ChildInit {
    command: Vec<String>,
    phase: ChildPhase,
    /// What is to be done in this phase, the current step first.
    plan: Vec<Step>,
    outcome: Option<Outcome>,
}

/// What a [`ChildInit`] is.
pub struct ChildModel {
    pub command: Seq<Seq<char>>,
    pub phase: ChildPhase,
    pub plan: Seq<StepModel>,
    pub outcome: Option<OutcomeModel>,
}

impl View for ChildInit {
    type V = ChildModel;

    closed spec fn view(&self) -> ChildModel {
        ChildModel {
            command: all_text(self.command@),
            phase: self.phase,
            plan: all_steps(self.plan@),
            outcome: match self.outcome {
                None => None,
                Some(outcome) => Some(outcome@),
            },
        }
    }
}

/// The steps before the root filesystem is swapped. Mount propagation is cut
/// before anything is mounted.
pub open spec fn preparing_steps(rootfs: Seq<u8>) -> Seq<StepModel> {
    seq![
        required(Stage::SetHostname, ActionModel::SetHostname { name: "isolated-box"@ }),
        private_step(),
        required(Stage::ResolveNewRoot, ActionModel::Resolve { path: rootfs }),
    ]
}

/// The step that forks.
pub open spec fn fork_step() -> StepModel {
    required(Stage::ForkInit, ActionModel::Fork)
}

impl ChildModel {
    /// The container, ended.
    pub open spec fn ended(self, outcome: OutcomeModel) -> ChildModel {
        ChildModel { plan: Seq::empty(), outcome: Some(outcome), ..self }
    }

    /// The container, at the start of another phase.
    pub open spec fn entered(self, phase: ChildPhase, plan: Seq<StepModel>) -> ChildModel {
        ChildModel { phase, plan, ..self }
    }

    /// The container once its current step is over, and nothing came of it but
    /// that.
    pub open spec fn advanced(self) -> ChildModel {
        let rest = self.plan.drop_first();
        if rest.len() == 0 && self.phase == ChildPhase::Initialising {
            match command_fault(self.command) {
                Some(fault) => self.ended(OutcomeModel::Fail { fault }),
                None => self.entered(ChildPhase::Executing, seq![execute_step(self.command)]),
            }
        } else {
            self.entered(self.phase, rest)
        }
    }

    /// The container once the system has answered. An answer that does not fit
    /// the current step changes nothing.
    pub open spec fn next(self, event: EventModel) -> ChildModel {
        if self.plan.len() == 0 {
            self
        } else {
            let step = self.plan[0];
            match event {
                EventModel::Failed => if step.required {
                    self.ended(OutcomeModel::Fail { fault: Fault::Failed { stage: step.stage } })
                } else {
                    self.advanced()
                },
                EventModel::Done => if step.action.plain() {
                    self.advanced()
                } else {
                    self
                },
                EventModel::Resolved { path } => if step.action is Resolve {
                    self.entered(ChildPhase::Pivoting, pivot_steps(path).push(fork_step()))
                } else {
                    self
                },
                EventModel::InParent => if step.action is Fork {
                    self.entered(
                        ChildPhase::Supervising,
                        seq![required(Stage::WaitForInit, ActionModel::WaitForInit)],
                    )
                } else {
                    self
                },
                EventModel::InChild => if step.action is Fork {
                    self.entered(ChildPhase::Initialising, proc_and_sys_steps())
                } else {
                    self
                },
                EventModel::InitEnded { outcome } => if step.action is WaitForInit {
                    self.ended(OutcomeModel::Exit { code: exit_code(outcome) as i32 })
                } else {
                    self
                },
                _ => self,
            }
        }
    }
}

/// The container's own side at its start.
pub open spec fn child_start(rootfs: Seq<u8>, command: Seq<Seq<char>>) -> ChildModel {
    ChildModel {
        command,
        phase: ChildPhase::Preparing,
        plan: preparing_steps(rootfs),
        outcome: None,
    }
}

/// Re-executed inside new PID/UTS/MNT/IPC namespaces.
///
/// The process that left its PID namespace is not in the new one: only the
/// processes that it forks are. So it forks once more. The forked process is
/// PID 1 of the container and becomes the user's command; this process
/// supervises it and relays its exit status.
pub fn child_init(rootfs: &Vec<u8>, command: Vec<String>) -> (result: ChildInit)
    ensures
        result@ == child_start(rootfs@, all_text(command@)),
        result@.plan[2].action == (ActionModel::Resolve { path: rootfs@ }),
{
    let mut plan: Vec<Step> = Vec::new();
    plan.push(
        Step {
            stage: Stage::SetHostname,
            action: Action::SetHostname { name: "isolated-box".to_owned() },
            required: true,
        },
    );
    plan.push(make_root_private());
    plan.push(
        Step {
            stage: Stage::ResolveNewRoot,
            action: Action::Resolve { path: copy_bytes(rootfs) },
            required: true,
        },
    );
    assert(all_steps(plan@) =~= preparing_steps(rootfs@));
    ChildInit { command, phase: ChildPhase::Preparing, plan, outcome: None }
}

impl ChildInit {
    /// The step to perform, unless the container has ended.
    pub fn step(&self) -> (result: Option<&Step>)
        ensures
            match result {
                None => self@.plan.len() == 0,
                Some(step) => self@.plan.len() > 0 && step@ == self@.plan[0],
            },
    {
        if self.plan.len() == 0 {
            None
        } else {
            Some(&self.plan[0])
        }
    }

    /// How the container has ended, if it has.
    pub fn outcome(&self) -> (result: Option<&Outcome>)
        ensures
            match result {
                None => self@.outcome is None,
                Some(outcome) => self@.outcome == Some(outcome@),
            },
    {
        self.outcome.as_ref()
    }

    fn end(&mut self, outcome: Outcome)
        ensures
            final(self)@ == old(self)@.ended(outcome@),
    {
        self.plan = Vec::new();
        self.outcome = Some(outcome);
        assert(all_steps(self.plan@) =~= Seq::empty());
    }

    fn advance(&mut self)
        requires
            old(self)@.plan.len() > 0,
        ensures
            final(self)@ == old(self)@.advanced(),
    {
        let ghost before = self.plan@;
        let _ = self.plan.remove(0);
        assert(all_steps(self.plan@) =~= all_steps(before).drop_first());
        if self.plan.len() == 0 && self.phase == ChildPhase::Initialising {
            match exec_user_command(&self.command) {
                Err(error) => {
                    self.end(Outcome::Fail { error });
                },
                Ok(step) => {
                    self.phase = ChildPhase::Executing;
                    self.plan.push(step);
                    assert(all_steps(self.plan@) =~= seq![execute_step(self@.command)]);
                },
            }
        }
    }

    /// Takes the system's answer to the current step.
    pub fn resume(&mut self, event: Event)
        ensures
            final(self)@ == old(self)@.next(event@),
    {
        if self.plan.len() == 0 {
            return;
        }
        match event {
            Event::Failed => {
                if self.plan[0].required {
                    let stage: Stage = self.plan[0].stage;
                    self.end(Outcome::Fail { error: Error::Failed { stage } });
                } else {
                    self.advance();
                }
            },
            Event::Done => {
                if self.plan[0].action.is_plain() {
                    self.advance();
                }
            },
            Event::Resolved { path } => {
                if let Action::Resolve { .. } = self.plan[0].action {
                    let mut plan = pivot_root_into(&path);
                    let ghost pivot = plan@;
                    plan.push(
                        Step { stage: Stage::ForkInit, action: Action::Fork, required: true },
                    );
                    self.phase = ChildPhase::Pivoting;
                    self.plan = plan;
                    assert(all_steps(self.plan@) =~= all_steps(pivot).push(fork_step()));
                }
            },
            Event::InParent => {
                if let Action::Fork = self.plan[0].action {
                    let mut plan: Vec<Step> = Vec::new();
                    plan.push(
                        Step {
                            stage: Stage::WaitForInit,
                            action: Action::WaitForInit,
                            required: true,
                        },
                    );
                    self.phase = ChildPhase::Supervising;
                    self.plan = plan;
                    assert(all_steps(self.plan@) =~= seq![
                        required(Stage::WaitForInit, ActionModel::WaitForInit),
                    ]);
                }
            },
            Event::InChild => {
                if let Action::Fork = self.plan[0].action {
                    self.phase = ChildPhase::Initialising;
                    self.plan = mount_proc_and_sys();
                }
            },
            Event::InitEnded { outcome } => {
                if let Action::WaitForInit = self.plan[0].action {
                    self.end(Outcome::Exit { code: exit_code_from(outcome) });
                }
            },
            _ => {},
        }
    }
}

} // verus!
