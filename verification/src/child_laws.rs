//! What holds of every container, as it sees itself, and of both sides together.
use vstd::prelude::*;
use vstd::utf8::encode_utf8;

use crate::action::{ActionModel, EventModel, Fault, MountFlags, Stage, StepModel, WaitOutcome};
use crate::container::{
    child_start, command_fault, execute_step, exit_code, fork_step, limit_fault, limit_steps,
    pid_of, preparing_steps, run_start, ChildModel, ChildPhase, OptionsModel, OutcomeModel,
};
use crate::filesystem::{pivot_steps, proc_and_sys_steps, required};
use crate::run_laws::{a_successful_run, answers, gets_past, run_after};
use crate::step_laws::{
    commands_are_refused_for_a_reason, every_word_is_executed, old_root_in,
    proc_and_sys_are_mounted, the_root_is_swapped,
};

verus! {

/// The container once the system has given several answers.
pub open spec fn child_after(child: ChildModel, events: Seq<EventModel>) -> ChildModel
    decreases events.len(),
{
    if events.len() == 0 {
        child
    } else {
        child_after(child.next(events[0]), events.drop_first())
    }
}

/// The steps that those answers were to.
pub open spec fn child_steps(child: ChildModel, events: Seq<EventModel>) -> Seq<StepModel>
    decreases events.len(),
{
    if events.len() == 0 || child.plan.len() == 0 {
        Seq::empty()
    } else {
        seq![child.plan[0]] + child_steps(child.next(events[0]), events.drop_first())
    }
}

/// Whether a container is where one can be: at a step of its phase, or at its
/// end.
pub open spec fn child_sound(child: ChildModel) -> bool {
    if child.outcome is Some {
        child.plan.len() == 0
    } else {
        &&& child.plan.len() > 0
        &&& forall|i: int|
            0 <= i < child.plan.len() - 1 ==> (#[trigger] child.plan[i]).action.plain()
        &&& match child.phase {
            ChildPhase::Preparing => child.plan.last().action is Resolve
                && child.plan.last().required,
            ChildPhase::Pivoting => child.plan.last().action is Fork && child.plan.last().required,
            ChildPhase::Supervising => child.plan.last().action is WaitForInit
                && child.plan.last().required,
            ChildPhase::Initialising => child.plan.last().action.plain(),
            ChildPhase::Executing => child.plan.last().action is Execute
                && child.plan.last().required,
        }
    }
}

proof fn lemma_sound_advanced(child: ChildModel)
    requires
        child_sound(child),
        child.plan.len() > 0,
        child.plan[0].action.plain(),
    ensures
        child_sound(child.advanced()),
{
    let rest = child.plan.drop_first();
    assert forall|i: int| 0 <= i < rest.len() - 1 implies (#[trigger] rest[i]).action.plain() by {
        assert(rest[i] == child.plan[i + 1]);
    }
    if rest.len() > 0 {
        assert(rest.last() == child.plan.last());
    } else {
        assert(child.plan[0] == child.plan.last());
    }
}

proof fn lemma_sound_next(child: ChildModel, event: EventModel)
    requires
        child_sound(child),
    ensures
        child_sound(child.next(event)),
{
    if child.plan.len() > 0 {
        if child.plan.len() == 1 {
            assert(child.plan[0] == child.plan.last());
        }
        if child.plan[0].action.plain() {
            lemma_sound_advanced(child);
        }
        match event {
            EventModel::Resolved { path } => {
                let plan = pivot_steps(path).push(fork_step());
                assert(plan.last() == fork_step());
            },
            EventModel::InChild => {
                let plan = proc_and_sys_steps();
                assert(plan.last() == plan[3]);
            },
            EventModel::InParent => {
                let plan = seq![required(Stage::WaitForInit, ActionModel::WaitForInit)];
                assert(plan.last() == plan[0]);
            },
            _ => {},
        }
    }
}

proof fn lemma_sound_after(child: ChildModel, events: Seq<EventModel>)
    requires
        child_sound(child),
    ensures
        child_sound(child_after(child, events)),
    decreases events.len(),
{
    if events.len() > 0 {
        lemma_sound_next(child, events[0]);
        lemma_sound_after(child.next(events[0]), events.drop_first());
    }
}

proof fn lemma_sound_start(rootfs: Seq<u8>, command: Seq<Seq<char>>)
    ensures
        child_sound(child_start(rootfs, command)),
{
    let plan = preparing_steps(rootfs);
    assert(plan.last() == plan[2]);
}

/// Whatever the system answers, a container either names a step or has an
/// outcome, and never both.
pub proof fn a_container_has_a_step_or_an_outcome(
    rootfs: Seq<u8>,
    command: Seq<Seq<char>>,
    events: Seq<EventModel>,
)
    ensures
        ({
            let child = child_after(child_start(rootfs, command), events);
            child.plan.len() > 0 <==> child.outcome is None
        }),
{
    lemma_sound_start(rootfs, command);
    lemma_sound_after(child_start(rootfs, command), events);
}

/// A container that has ended stays as it is.
pub proof fn an_ended_container_is_over(child: ChildModel, events: Seq<EventModel>)
    requires
        child.plan.len() == 0,
    ensures
        child_after(child, events) == child,
        child_steps(child, events).len() == 0,
    decreases events.len(),
{
    if events.len() > 0 {
        an_ended_container_is_over(child, events.drop_first());
    }
}

/// A failed step that is required ends the container, and says which step it
/// was; no further step is named.
pub proof fn a_required_failure_ends_a_container(child: ChildModel, events: Seq<EventModel>)
    requires
        child.plan.len() > 0,
        child.plan[0].required,
    ensures
        ({
            let failed = child.next(EventModel::Failed);
            &&& child_after(failed, events).outcome == Some(
                OutcomeModel::Fail { fault: Fault::Failed { stage: child.plan[0].stage } },
            )
            &&& child_steps(failed, events).len() == 0
        }),
{
    an_ended_container_is_over(child.next(EventModel::Failed), events);
}

/// It makes no difference whether a step that is not required fails.
pub proof fn an_optional_failure_changes_no_container(child: ChildModel)
    requires
        child.plan.len() > 0,
        !child.plan[0].required,
        child.plan[0].action.plain(),
    ensures
        child.next(EventModel::Failed) == child.next(EventModel::Done),
{
}

/// A process that was not forked off, and stays out of it, is not the
/// container's init process.
proof fn lemma_only_forked(child: ChildModel, events: Seq<EventModel>)
    requires
        !(child.phase is Initialising || child.phase is Executing),
        forall|i: int| 0 <= i < events.len() ==> !(#[trigger] events[i] is InChild),
    ensures
        !(child_after(child, events).phase is Initialising || child_after(
            child,
            events,
        ).phase is Executing),
    decreases events.len(),
{
    if events.len() > 0 {
        let rest = events.drop_first();
        assert(!(events[0] is InChild));
        assert forall|i: int| 0 <= i < rest.len() implies !(#[trigger] rest[i] is InChild) by {
            assert(rest[i] == events[i + 1]);
        }
        lemma_only_forked(child.next(events[0]), rest);
    }
}

/// The user's command is executed in the forked process alone, which is PID 1 of
/// the new PID namespace: a process that never learns that it is the child of
/// the fork never comes to that step.
pub proof fn only_the_forked_process_executes(
    rootfs: Seq<u8>,
    command: Seq<Seq<char>>,
    events: Seq<EventModel>,
)
    requires
        forall|i: int| 0 <= i < events.len() ==> !(#[trigger] events[i] is InChild),
    ensures
        ({
            let child = child_after(child_start(rootfs, command), events);
            child.plan.len() > 0 ==> !(child.plan[0].action is Execute)
        }),
{
    let start = child_start(rootfs, command);
    lemma_sound_start(rootfs, command);
    lemma_sound_after(start, events);
    lemma_only_forked(start, events);
    let child = child_after(start, events);
    if child.plan.len() == 1 {
        assert(child.plan[0] == child.plan.last());
    }
}

proof fn lemma_split(child: ChildModel, first: Seq<EventModel>, second: Seq<EventModel>)
    ensures
        child_after(child, first + second) == child_after(child_after(child, first), second),
        child_steps(child, first + second) == child_steps(child, first) + child_steps(
            child_after(child, first),
            second,
        ),
    decreases first.len(),
{
    if first.len() == 0 {
        assert(first + second =~= second);
        assert(Seq::<StepModel>::empty() + child_steps(child, second) =~= child_steps(
            child,
            second,
        ));
    } else if child.plan.len() == 0 {
        an_ended_container_is_over(child, first + second);
        an_ended_container_is_over(child, first);
        an_ended_container_is_over(child, second);
        assert(child_steps(child, first + second) =~= child_steps(child, first) + child_steps(
            child,
            second,
        ));
    } else {
        let rest = first.drop_first();
        assert((first + second).drop_first() =~= rest + second);
        assert((first + second)[0] == first[0]);
        lemma_split(child.next(first[0]), rest, second);
        let a = seq![child.plan[0]];
        let b = child_steps(child.next(first[0]), rest);
        let c = child_steps(child_after(child.next(first[0]), rest), second);
        assert(a + (b + c) =~= (a + b) + c);
    }
}

/// A single answer.
proof fn lemma_one(child: ChildModel, event: EventModel)
    requires
        child.plan.len() > 0,
    ensures
        child_after(child, seq![event]) == child.next(event),
        child_steps(child, seq![event]) == seq![child.plan[0]],
{
    let events = seq![event];
    let next = child.next(event);
    assert(events.drop_first() =~= Seq::empty());
    assert(child_after(next, Seq::empty()) == next);
    assert(child_steps(next, Seq::empty()) =~= Seq::empty());
    assert(child_steps(child, events) =~= seq![child.plan[0]]);
}

/// Where the system lets the first steps of a plan pass, they are performed in
/// order.
proof fn lemma_plain_steps_pass(child: ChildModel, events: Seq<EventModel>)
    requires
        events.len() < child.plan.len(),
        forall|i: int| 0 <= i < events.len() ==> (#[trigger] child.plan[i]).action.plain(),
        forall|i: int| 0 <= i < events.len() ==> gets_past(child.plan[i], #[trigger] events[i]),
    ensures
        child_steps(child, events) == child.plan.take(events.len() as int),
        child_after(child, events) == child.entered(
            child.phase,
            child.plan.skip(events.len() as int),
        ),
    decreases events.len(),
{
    if events.len() == 0 {
        assert(child.plan.skip(0) =~= child.plan);
        assert(child_steps(child, events) =~= child.plan.take(0));
    } else {
        let rest = events.drop_first();
        assert(gets_past(child.plan[0], events[0]));
        assert(child.plan[0].action.plain());
        let next = child.next(events[0]);
        assert(next == child.entered(child.phase, child.plan.drop_first()));
        assert forall|i: int| 0 <= i < rest.len() implies (
        #[trigger] next.plan[i]).action.plain() by {
            assert(next.plan[i] == child.plan[i + 1]);
        }
        assert forall|i: int| 0 <= i < rest.len() implies gets_past(
            next.plan[i],
            #[trigger] rest[i],
        ) by {
            assert(rest[i] == events[i + 1]);
            assert(next.plan[i] == child.plan[i + 1]);
        }
        lemma_plain_steps_pass(next, rest);
        assert(next.plan.skip(rest.len() as int) =~= child.plan.skip(events.len() as int));
        assert(seq![child.plan[0]] + next.plan.take(rest.len() as int) =~= child.plan.take(
            events.len() as int,
        ));
    }
}

/// The answers with which a container comes to its fork.
pub open spec fn prepared(path: Seq<u8>) -> Seq<EventModel> {
    seq![EventModel::Done, EventModel::Done, EventModel::Resolved { path }] + Seq::new(
        6,
        |i: int| EventModel::Done,
    )
}

/// Up to the fork: the host name is set, mount propagation is cut before
/// anything is mounted, the rootfs is resolved, and the root filesystem is
/// swapped for what it resolved to, in this order and with nothing else.
pub proof fn a_container_is_isolated_before_it_forks(
    rootfs: Seq<u8>,
    command: Seq<Seq<char>>,
    path: Seq<u8>,
)
    ensures
        ({
            let start = child_start(rootfs, command);
            &&& child_steps(start, prepared(path)) == preparing_steps(rootfs) + pivot_steps(path)
            &&& child_after(start, prepared(path)) == start.entered(
                ChildPhase::Pivoting,
                seq![fork_step()],
            )
        }),
{
    let start = child_start(rootfs, command);
    let early = seq![EventModel::Done, EventModel::Done];
    let resolved = seq![EventModel::Resolved { path }];
    let late = Seq::new(6, |i: int| EventModel::Done);
    assert(prepared(path) =~= early + resolved + late);
    lemma_split(start, early + resolved, late);
    lemma_split(start, early, resolved);
    lemma_plain_steps_pass(start, early);
    let resolving = child_after(start, early);
    assert(resolving.plan =~= seq![preparing_steps(rootfs)[2]]);
    lemma_one(resolving, EventModel::Resolved { path });
    let pivoting = child_after(resolving, resolved);
    assert(pivoting.plan == pivot_steps(path).push(fork_step()));
    assert forall|i: int| 0 <= i < 6 implies (#[trigger] pivoting.plan[i]).action.plain() by {
        assert(pivoting.plan[i] == pivot_steps(path)[i]);
    }
    lemma_plain_steps_pass(pivoting, late);
    assert(pivoting.plan.skip(6) =~= seq![fork_step()]);
    assert(pivoting.plan.take(6) =~= pivot_steps(path));
    assert(start.plan.take(2) + seq![resolving.plan[0]] =~= preparing_steps(rootfs));
}

/// The parent of the fork waits for the container's init process and exits with
/// the status that relays how that ended.
pub proof fn the_parent_relays_the_exit_status(
    rootfs: Seq<u8>,
    command: Seq<Seq<char>>,
    path: Seq<u8>,
    outcome: WaitOutcome,
)
    ensures
        ({
            let start = child_start(rootfs, command);
            let events = prepared(path) + seq![
                EventModel::InParent,
                EventModel::InitEnded { outcome },
            ];
            &&& child_steps(start, events) == preparing_steps(rootfs) + pivot_steps(path) + seq![
                fork_step(),
                required(Stage::WaitForInit, ActionModel::WaitForInit),
            ]
            &&& child_after(start, events).outcome == Some(
                OutcomeModel::Exit { code: exit_code(outcome) as i32 },
            )
        }),
{
    let start = child_start(rootfs, command);
    a_container_is_isolated_before_it_forks(rootfs, command, path);
    let forking = child_after(start, prepared(path));
    let parent = seq![EventModel::InParent];
    let ended = seq![EventModel::InitEnded { outcome }];
    assert(seq![EventModel::InParent, EventModel::InitEnded { outcome }] =~= parent + ended);
    lemma_split(start, prepared(path), parent + ended);
    lemma_split(forking, parent, ended);
    lemma_one(forking, EventModel::InParent);
    let waiting = forking.next(EventModel::InParent);
    lemma_one(waiting, EventModel::InitEnded { outcome });
    assert(child_steps(forking, parent + ended) =~= seq![
        fork_step(),
        required(Stage::WaitForInit, ActionModel::WaitForInit),
    ]);
}

/// The child of the fork mounts `/proc` and `/sys`, there being nothing else in
/// between, and then becomes the user's command; or it ends, with the reason,
/// where the command cannot be executed. It does not matter whether the mount
/// points had to be created.
pub proof fn the_child_becomes_the_command(
    rootfs: Seq<u8>,
    command: Seq<Seq<char>>,
    path: Seq<u8>,
    mounted: Seq<EventModel>,
)
    requires
        mounted.len() == proc_and_sys_steps().len(),
        forall|i: int|
            0 <= i < mounted.len() ==> gets_past(proc_and_sys_steps()[i], #[trigger] mounted[i]),
    ensures
        ({
            let start = child_start(rootfs, command);
            let events = prepared(path) + seq![EventModel::InChild] + mounted;
            let child = child_after(start, events);
            &&& child_steps(start, events) == preparing_steps(rootfs) + pivot_steps(path) + seq![
                fork_step(),
            ] + proc_and_sys_steps()
            &&& match command_fault(command) {
                None => child.outcome is None && child.plan == seq![execute_step(command)],
                Some(fault) => child.outcome == Some(OutcomeModel::Fail { fault }),
            }
        }),
{
    let start = child_start(rootfs, command);
    a_container_is_isolated_before_it_forks(rootfs, command, path);
    let forking = child_after(start, prepared(path));
    let forked = seq![EventModel::InChild];
    let mounts = proc_and_sys_steps();
    lemma_split(start, prepared(path) + forked, mounted);
    lemma_split(start, prepared(path), forked);
    lemma_one(forking, EventModel::InChild);
    let mounting = forking.next(EventModel::InChild);
    let most = mounted.drop_last();
    let last = mounted.last();
    assert(mounted =~= most + seq![last]);
    lemma_split(mounting, most, seq![last]);
    assert forall|i: int| 0 <= i < most.len() implies gets_past(
        mounting.plan[i],
        #[trigger] most[i],
    ) by {
        assert(most[i] == mounted[i]);
    }
    lemma_plain_steps_pass(mounting, most);
    let almost = child_after(mounting, most);
    assert(almost.plan =~= seq![mounts[3]]);
    assert(gets_past(mounts[3], mounted[3]));
    lemma_one(almost, last);
    assert(almost.plan.drop_first() =~= Seq::empty());
    assert(mounts.take(3) + seq![mounts[3]] =~= mounts);
}

/// Both sides of a container that runs to its end exit alike: the status with
/// which the supervisor exits is the one with which the whole run does. That is
/// 128 and the number of the signal where a signal killed the command, and the
/// command's own status where it exited.
pub proof fn both_sides_exit_alike(
    options: OptionsModel,
    path: Seq<u8>,
    enabled: EventModel,
    id: u32,
    limited: Seq<EventModel>,
    removed: EventModel,
    new_root: Seq<u8>,
    outcome: WaitOutcome,
)
    requires
        options.command.len() > 0,
        limit_fault(options) is None,
        enabled is Done || enabled is Failed,
        removed is Done || removed is Failed,
        limited.len() == limit_steps(pid_of(id), options).len(),
        forall|i: int|
            0 <= i < limited.len() ==> gets_past(
                limit_steps(pid_of(id), options)[i],
                #[trigger] limited[i],
            ),
    ensures
        ({
            let inside = child_after(
                child_start(path, options.command),
                prepared(new_root) + seq![EventModel::InParent, EventModel::InitEnded { outcome }],
            ).outcome;
            let status = exit_code(outcome) as i32;
            let outside = run_after(
                run_start(0, options),
                seq![
                    EventModel::Resolved { path },
                    enabled,
                    EventModel::Spawned { id },
                ] + limited + seq![EventModel::ChildEnded { code: Some(status) }, removed],
            ).outcome;
            &&& inside == Some(OutcomeModel::Exit { code: status })
            &&& outside == inside
            &&& outcome matches WaitOutcome::Signaled { signal } ==> status == 128 + signal
            &&& outcome matches WaitOutcome::Exited { code } ==> status == code
        }),
{
    the_parent_relays_the_exit_status(path, options.command, new_root, outcome);
    a_successful_run(
        options,
        path,
        enabled,
        id,
        limited,
        Some(exit_code(outcome) as i32),
        removed,
    );
}

/// Whether a container asks for nothing but what its rootfs and command call for.
spec fn asks_for(child: ChildModel, rootfs: Seq<u8>, command: Seq<Seq<char>>) -> bool {
    &&& child.command == command
    &&& forall|i: int|
        0 <= i < child.plan.len() ==> match (#[trigger] child.plan[i]).action {
            ActionModel::Resolve { path } => path == rootfs && child.plan[i].stage
                == Stage::ResolveNewRoot && child.plan[i].required,
            ActionModel::Execute { .. } => command_fault(command) is None && child.plan[i]
                == execute_step(command),
            ActionModel::SetHostname { name } => name == "isolated-box"@,
            _ => true,
        }
}

proof fn lemma_asks_for_next(
    child: ChildModel,
    rootfs: Seq<u8>,
    command: Seq<Seq<char>>,
    event: EventModel,
)
    requires
        asks_for(child, rootfs, command),
    ensures
        asks_for(child.next(event), rootfs, command),
{
    if child.plan.len() > 0 {
        let next = child.next(event);
        let rest = child.plan.drop_first();
        assert forall|i: int| 0 <= i < rest.len() implies rest[i] == child.plan[i + 1] by {}
        if let EventModel::Resolved { path } = event {
            let pivot = pivot_steps(path);
            assert forall|i: int| 0 <= i < pivot.push(fork_step()).len() implies !(pivot.push(
                fork_step(),
            )[i].action is Resolve || pivot.push(fork_step())[i].action is Execute || pivot.push(
                fork_step(),
            )[i].action is SetHostname) by {
                if i < 6 {
                    assert(pivot.push(fork_step())[i] == pivot[i]);
                }
            }
        }
    }
}

proof fn lemma_asks_for_after(
    child: ChildModel,
    rootfs: Seq<u8>,
    command: Seq<Seq<char>>,
    events: Seq<EventModel>,
)
    requires
        asks_for(child, rootfs, command),
    ensures
        asks_for(child_after(child, events), rootfs, command),
    decreases events.len(),
{
    if events.len() > 0 {
        lemma_asks_for_next(child, rootfs, command, events[0]);
        lemma_asks_for_after(child.next(events[0]), rootfs, command, events.drop_first());
    }
}

/// Whatever the system answers, the only path that a container has resolved is the
/// rootfs that it was given, its host name is `isolated-box`, and what it executes
/// is the command that it was given: the first word for the program and every word
/// for an argument, and no word with a NUL.
pub proof fn a_container_keeps_to_its_rootfs_and_command(
    rootfs: Seq<u8>,
    command: Seq<Seq<char>>,
    events: Seq<EventModel>,
)
    ensures
        ({
            let child = child_after(child_start(rootfs, command), events);
            child.plan.len() > 0 ==> match child.plan[0].action {
                ActionModel::Resolve { path } => {
                    &&& path == rootfs
                    &&& child.plan[0].stage == Stage::ResolveNewRoot
                    &&& child.plan[0].required
                },
                ActionModel::SetHostname { name } => name == "isolated-box"@,
                ActionModel::Execute { program, words } => {
                    &&& child.plan[0].stage == Stage::ExecuteCommand
                    &&& child.plan[0].required
                    &&& command.len() > 0
                    &&& program == command[0]
                    &&& words.len() == command.len()
                    &&& forall|i: int| 0 <= i < command.len() ==> #[trigger] words[i] == command[i]
                    &&& forall|i: int|
                        0 <= i < command.len() ==> !#[trigger] command[i].contains('\0')
                },
                _ => true,
            }
        }),
{
    let start = child_start(rootfs, command);
    assert(asks_for(start, rootfs, command));
    lemma_asks_for_after(start, rootfs, command, events);
    commands_are_refused_for_a_reason(command);
    every_word_is_executed(command);
}

/// The steps of a phase, all but the last, were asked for where the last one is the
/// current one; and the last one too where the phase is over.
proof fn lemma_phase_passed(child: ChildModel, events: Seq<EventModel>)
    requires
        child_sound(child),
        child.outcome is None,
    ensures
        ({
            let later = child_after(child, events);
            &&& later.plan.len() == 1 || later.phase != child.phase ==> forall|i: int|
                0 <= i < child.plan.len() - 1 ==> child_steps(child, events).contains(
                    #[trigger] child.plan[i],
                )
            &&& later.phase != child.phase ==> child_steps(child, events).contains(
                child.plan.last(),
            )
        }),
    decreases events.len(),
{
    let steps = child_steps(child, events);
    let later = child_after(child, events);
    if events.len() > 0 {
        let next = child.next(events[0]);
        let rest = events.drop_first();
        let tail = child_steps(next, rest);
        assert(steps[0] == child.plan[0]);
        lemma_sound_next(child, events[0]);
        if child.plan.len() > 1 {
            assert(child.plan[0].action.plain());
        } else {
            assert(child.plan[0] == child.plan.last());
        }
        if next.outcome is Some {
            an_ended_container_is_over(next, rest);
        } else if next.phase == child.phase {
            let done: int = if next.plan.len() == child.plan.len() {
                0
            } else {
                1
            };
            if next.plan.len() > 0 {
                assert forall|i: int| 0 <= i < next.plan.len() implies #[trigger] next.plan[i]
                    == child.plan[i + done] by {}
                lemma_phase_passed(next, rest);
                if later.plan.len() == 1 || later.phase != child.phase {
                    assert forall|i: int| 0 <= i < child.plan.len() - 1 implies steps.contains(
                        #[trigger] child.plan[i],
                    ) by {
                        if i >= done {
                            assert(next.plan[i - done] == child.plan[i]);
                            assert(tail.contains(child.plan[i]));
                            let j = choose|j: int| 0 <= j < tail.len() && tail[j] == child.plan[i];
                            assert(steps[j + 1] == child.plan[i]);
                        } else {
                            assert(steps[0] == child.plan[i]);
                        }
                    }
                }
                if later.phase != child.phase {
                    let last = child.plan.last();
                    assert(next.plan.last() == last);
                    let j = choose|j: int| 0 <= j < tail.len() && tail[j] == last;
                    assert(steps[j + 1] == last);
                }
            } else {
                an_ended_container_is_over(next, rest);
            }
        } else {
            assert(child.plan.len() == 1);
            assert(steps[0] == child.plan.last());
        }
    }
}

/// Whether a container has come to its fork or past it.
pub open spec fn at_its_fork(child: ChildModel) -> bool {
    ||| child.phase is Supervising
    ||| child.phase is Initialising
    ||| child.phase is Executing
    ||| child.plan.len() > 0 && child.plan[0].action is Fork
}

proof fn lemma_swapped(child: ChildModel, events: Seq<EventModel>) -> (path: Seq<u8>)
    requires
        child_sound(child),
        child.outcome is None,
        child.phase is Preparing,
        at_its_fork(child_after(child, events)),
    ensures
        events.contains(EventModel::Resolved { path }),
        forall|i: int|
            0 <= i < 6 ==> child_steps(child, events).contains(#[trigger] pivot_steps(path)[i]),
    decreases events.len(),
{
    let steps = child_steps(child, events);
    if events.len() == 0 {
        if child.plan.len() > 1 {
            assert(child.plan[0].action.plain());
        }
        assert(child.plan[0] == child.plan.last() || child.plan[0].action.plain());
        Seq::empty()
    } else {
        let next = child.next(events[0]);
        let rest = events.drop_first();
        let tail = child_steps(next, rest);
        lemma_sound_next(child, events[0]);
        lemma_sound_after(next, rest);
        if child.plan.len() > 1 {
            assert(child.plan[0].action.plain());
        } else {
            assert(child.plan[0] == child.plan.last());
        }
        if next.outcome is Some {
            an_ended_container_is_over(next, rest);
            Seq::empty()
        } else if next.phase is Preparing {
            let path = lemma_swapped(next, rest);
            let event = EventModel::Resolved { path };
            let k = choose|k: int| 0 <= k < rest.len() && rest[k] == event;
            assert(events[k + 1] == event);
            assert forall|i: int| 0 <= i < 6 implies steps.contains(
                #[trigger] pivot_steps(path)[i],
            ) by {
                let step = pivot_steps(path)[i];
                assert(tail.contains(step));
                let j = choose|j: int| 0 <= j < tail.len() && tail[j] == step;
                assert(steps[j + 1] == step);
            }
            path
        } else {
            let path = events[0]->path;
            assert(events[0] == EventModel::Resolved { path });
            let pivot = pivot_steps(path);
            assert(next.plan == pivot.push(fork_step()));
            lemma_phase_passed(next, rest);
            let later = child_after(next, rest);
            if later.plan.len() > 1 {
                assert(later.outcome is None);
                assert(later.plan[0].action.plain());
            }
            assert(later.plan.len() == 1 || later.phase != next.phase);
            assert forall|i: int| 0 <= i < 6 implies steps.contains(#[trigger] pivot[i]) by {
                let step = pivot[i];
                assert(next.plan[i] == step);
                assert(tail.contains(step));
                let j = choose|j: int| 0 <= j < tail.len() && tail[j] == step;
                assert(steps[j + 1] == step);
            }
            path
        }
    }
}

/// No container forks, supervises or executes anything before its host name was
/// set, mount propagation cut, the rootfs that it was given resolved, and the root
/// swapped for what the rootfs resolved to, whatever the system answers.
pub proof fn no_container_forks_before_it_is_isolated(
    rootfs: Seq<u8>,
    command: Seq<Seq<char>>,
    events: Seq<EventModel>,
)
    requires
        at_its_fork(child_after(child_start(rootfs, command), events)),
    ensures
        ({
            let steps = child_steps(child_start(rootfs, command), events);
            &&& steps.contains(
                StepModel {
                    stage: Stage::SetHostname,
                    action: ActionModel::SetHostname { name: "isolated-box"@ },
                    required: true,
                },
            )
            &&& steps.contains(
                StepModel {
                    stage: Stage::MakeRootPrivate,
                    action: ActionModel::Mount {
                        source: None,
                        target: encode_utf8("/"@),
                        filesystem: None,
                        flags: MountFlags { private: true, recursive: true, bind: false },
                    },
                    required: true,
                },
            )
            &&& steps.contains(
                StepModel {
                    stage: Stage::ResolveNewRoot,
                    action: ActionModel::Resolve { path: rootfs },
                    required: true,
                },
            )
            &&& exists|path: Seq<u8>|
                events.contains(EventModel::Resolved { path }) && #[trigger] swapped_for(
                    steps,
                    path,
                )
        }),
{
    let start = child_start(rootfs, command);
    let steps = child_steps(start, events);
    lemma_sound_start(rootfs, command);
    let path = lemma_swapped(start, events);
    lemma_phase_passed(start, events);
    let later = child_after(start, events);
    lemma_sound_after(start, events);
    if later.phase is Preparing {
        if later.plan.len() > 1 {
            assert(later.plan[0].action.plain());
        }
        assert(later.plan[0] == later.plan.last() || later.plan[0].action.plain());
    }
    assert(steps.contains(start.plan[0]) && steps.contains(start.plan[1]));
    assert(start.plan.last() == start.plan[2]);
    the_root_is_swapped(path);
    let pivot = pivot_steps(path);
    assert(steps.contains(pivot[0]) && steps.contains(pivot[1]) && steps.contains(pivot[2])
        && steps.contains(pivot[3]) && steps.contains(pivot[4]) && steps.contains(pivot[5]));
    assert(swapped_for(steps, path));
}

/// Whether the root was swapped for `path`: bound onto itself, made the root with
/// the old one inside it, entered, and the old one detached and removed.
pub open spec fn swapped_for(steps: Seq<StepModel>, path: Seq<u8>) -> bool {
    &&& steps.contains(
        StepModel {
            stage: Stage::BindRootfs,
            action: ActionModel::Mount {
                source: Some(path),
                target: path,
                filesystem: None,
                flags: MountFlags { private: false, recursive: true, bind: true },
            },
            required: true,
        },
    )
    &&& steps.contains(
        StepModel {
            stage: Stage::CreateOldRoot,
            action: ActionModel::CreateDirAll { path: old_root_in(path) },
            required: true,
        },
    )
    &&& steps.contains(
        StepModel {
            stage: Stage::PivotRoot,
            action: ActionModel::PivotRoot { new_root: path, put_old: old_root_in(path) },
            required: true,
        },
    )
    &&& steps.contains(
        StepModel {
            stage: Stage::EnterNewRoot,
            action: ActionModel::ChangeDir { path: encode_utf8("/"@) },
            required: true,
        },
    )
    &&& steps.contains(
        StepModel {
            stage: Stage::DetachOldRoot,
            action: ActionModel::Detach { target: encode_utf8("/.old_root"@) },
            required: true,
        },
    )
    &&& steps.contains(
        StepModel {
            stage: Stage::RemoveOldRoot,
            action: ActionModel::RemoveDir { path: encode_utf8("/.old_root"@) },
            required: true,
        },
    )
}

/// All that a container asks of the system up to its fork and with it.
pub open spec fn steps_to_the_fork(rootfs: Seq<u8>, path: Seq<u8>) -> Seq<StepModel> {
    seq![
        StepModel {
            stage: Stage::SetHostname,
            action: ActionModel::SetHostname { name: "isolated-box"@ },
            required: true,
        },
        StepModel {
            stage: Stage::MakeRootPrivate,
            action: ActionModel::Mount {
                source: None,
                target: encode_utf8("/"@),
                filesystem: None,
                flags: MountFlags { private: true, recursive: true, bind: false },
            },
            required: true,
        },
        StepModel {
            stage: Stage::ResolveNewRoot,
            action: ActionModel::Resolve { path: rootfs },
            required: true,
        },
        StepModel {
            stage: Stage::BindRootfs,
            action: ActionModel::Mount {
                source: Some(path),
                target: path,
                filesystem: None,
                flags: MountFlags { private: false, recursive: true, bind: true },
            },
            required: true,
        },
        StepModel {
            stage: Stage::CreateOldRoot,
            action: ActionModel::CreateDirAll { path: old_root_in(path) },
            required: true,
        },
        StepModel {
            stage: Stage::PivotRoot,
            action: ActionModel::PivotRoot { new_root: path, put_old: old_root_in(path) },
            required: true,
        },
        StepModel {
            stage: Stage::EnterNewRoot,
            action: ActionModel::ChangeDir { path: encode_utf8("/"@) },
            required: true,
        },
        StepModel {
            stage: Stage::DetachOldRoot,
            action: ActionModel::Detach { target: encode_utf8("/.old_root"@) },
            required: true,
        },
        StepModel {
            stage: Stage::RemoveOldRoot,
            action: ActionModel::RemoveDir { path: encode_utf8("/.old_root"@) },
            required: true,
        },
        StepModel { stage: Stage::ForkInit, action: ActionModel::Fork, required: true },
    ]
}

proof fn lemma_steps_to_the_fork(rootfs: Seq<u8>, path: Seq<u8>)
    ensures
        preparing_steps(rootfs) + pivot_steps(path) + seq![fork_step()] == steps_to_the_fork(
            rootfs,
            path,
        ),
{
    the_root_is_swapped(path);
    assert(preparing_steps(rootfs) + pivot_steps(path) + seq![fork_step()] =~= steps_to_the_fork(
        rootfs,
        path,
    ));
}

/// The supervisor from start to end: all that it asks of the system, in order and
/// word for word, and the status with which it exits.
pub proof fn the_supervisor_from_start_to_end(
    rootfs: Seq<u8>,
    command: Seq<Seq<char>>,
    path: Seq<u8>,
    outcome: WaitOutcome,
)
    ensures
        ({
            let start = child_start(rootfs, command);
            let events = prepared(path) + seq![
                EventModel::InParent,
                EventModel::InitEnded { outcome },
            ];
            &&& child_steps(start, events) == steps_to_the_fork(rootfs, path) + seq![
                StepModel {
                    stage: Stage::WaitForInit,
                    action: ActionModel::WaitForInit,
                    required: true,
                },
            ]
            &&& child_after(start, events).outcome == Some(
                OutcomeModel::Exit {
                    code: match outcome {
                        WaitOutcome::Exited { code } => code,
                        WaitOutcome::Signaled { signal } => (128 + signal) as i32,
                        WaitOutcome::Other => 1,
                    },
                },
            )
        }),
{
    the_parent_relays_the_exit_status(rootfs, command, path, outcome);
    lemma_steps_to_the_fork(rootfs, path);
    let before = preparing_steps(rootfs) + pivot_steps(path);
    let wait = required(Stage::WaitForInit, ActionModel::WaitForInit);
    assert(before + seq![fork_step(), wait] =~= before + seq![fork_step()] + seq![wait]);
}

/// The container's init process from start to its command: all that it asks of the
/// system, in order and word for word. Creating the mount points may fail. What
/// follows is the command with all its words, or the reason why it is refused.
pub proof fn the_init_process_from_start_to_its_command(
    rootfs: Seq<u8>,
    command: Seq<Seq<char>>,
    path: Seq<u8>,
    proc_made: EventModel,
    sys_made: EventModel,
)
    requires
        proc_made is Done || proc_made is Failed,
        sys_made is Done || sys_made is Failed,
    ensures
        ({
            let start = child_start(rootfs, command);
            let events = prepared(path) + seq![EventModel::InChild] + seq![
                proc_made,
                EventModel::Done,
                sys_made,
                EventModel::Done,
            ];
            let child = child_after(start, events);
            &&& child_steps(start, events) == steps_to_the_fork(rootfs, path) + seq![
                StepModel {
                    stage: Stage::CreateProc,
                    action: ActionModel::CreateDirAll { path: encode_utf8("/proc"@) },
                    required: false,
                },
                StepModel {
                    stage: Stage::MountProc,
                    action: ActionModel::Mount {
                        source: Some(encode_utf8("proc"@)),
                        target: encode_utf8("/proc"@),
                        filesystem: Some("proc"@),
                        flags: MountFlags { private: false, recursive: false, bind: false },
                    },
                    required: true,
                },
                StepModel {
                    stage: Stage::CreateSys,
                    action: ActionModel::CreateDirAll { path: encode_utf8("/sys"@) },
                    required: false,
                },
                StepModel {
                    stage: Stage::MountSys,
                    action: ActionModel::Mount {
                        source: Some(encode_utf8("sysfs"@)),
                        target: encode_utf8("/sys"@),
                        filesystem: Some("sysfs"@),
                        flags: MountFlags { private: false, recursive: false, bind: false },
                    },
                    required: true,
                },
            ]
            &&& command.len() == 0 ==> child.outcome == Some(
                OutcomeModel::Fail { fault: Fault::NoCommand },
            )
            &&& command.len() > 0 && command[0].contains('\0') ==> child.outcome == Some(
                OutcomeModel::Fail { fault: Fault::NulInCommand },
            )
            &&& command.len() > 0 && !command[0].contains('\0') && (exists|i: int|
                0 <= i < command.len() && #[trigger] command[i].contains('\0')) ==> child.outcome
                == Some(OutcomeModel::Fail { fault: Fault::NulInArgument })
            &&& command.len() > 0 && (forall|i: int|
                0 <= i < command.len() ==> !#[trigger] command[i].contains('\0')) ==> {
                &&& child.outcome is None
                &&& child.plan == seq![
                    StepModel {
                        stage: Stage::ExecuteCommand,
                        action: ActionModel::Execute { program: command[0], words: command },
                        required: true,
                    },
                ]
            }
        }),
{
    let mounted = seq![proc_made, EventModel::Done, sys_made, EventModel::Done];
    proc_and_sys_are_mounted();
    let mounts = proc_and_sys_steps();
    assert forall|i: int| 0 <= i < mounted.len() implies gets_past(
        mounts[i],
        #[trigger] mounted[i],
    ) by {
        assert(i == 0 || i == 1 || i == 2 || i == 3);
    }
    the_child_becomes_the_command(rootfs, command, path, mounted);
    lemma_steps_to_the_fork(rootfs, path);
    commands_are_refused_for_a_reason(command);
    every_word_is_executed(command);
    assert(execute_step(command).action->words =~= command);
}

proof fn lemma_mounted(child: ChildModel, events: Seq<EventModel>)
    requires
        child_sound(child),
        !(child.phase is Initialising || child.phase is Executing),
        child_after(child, events).phase is Executing,
    ensures
        forall|i: int|
            0 <= i < 4 ==> child_steps(child, events).contains(#[trigger] proc_and_sys_steps()[i]),
    decreases events.len(),
{
    let steps = child_steps(child, events);
    let mounts = proc_and_sys_steps();
    if events.len() > 0 {
        let next = child.next(events[0]);
        let rest = events.drop_first();
        let tail = child_steps(next, rest);
        lemma_sound_next(child, events[0]);
        if child.plan.len() == 0 {
            an_ended_container_is_over(child, events);
        } else {
            if next.phase is Initialising {
                assert(next.plan == mounts);
                lemma_phase_passed(next, rest);
                assert(next.plan.last() == mounts[3]);
                assert forall|i: int| 0 <= i < 4 implies tail.contains(#[trigger] mounts[i]) by {
                    assert(next.plan[i] == mounts[i]);
                }
            } else {
                lemma_mounted(next, rest);
            }
            assert forall|i: int| 0 <= i < 4 implies steps.contains(#[trigger] mounts[i]) by {
                assert(tail.contains(mounts[i]));
                let j = choose|j: int| 0 <= j < tail.len() && tail[j] == mounts[i];
                assert(steps[j + 1] == mounts[i]);
            }
        }
    }
}

/// Nothing is executed before `proc` and `sysfs` were mounted at `/proc` and `/sys`,
/// whatever the system answers.
pub proof fn no_command_runs_without_proc_and_sys(
    rootfs: Seq<u8>,
    command: Seq<Seq<char>>,
    events: Seq<EventModel>,
)
    requires
        ({
            let child = child_after(child_start(rootfs, command), events);
            child.plan.len() > 0 && child.plan[0].action is Execute
        }),
    ensures
        ({
            let steps = child_steps(child_start(rootfs, command), events);
            &&& steps.contains(
                StepModel {
                    stage: Stage::MountProc,
                    action: ActionModel::Mount {
                        source: Some(encode_utf8("proc"@)),
                        target: encode_utf8("/proc"@),
                        filesystem: Some("proc"@),
                        flags: MountFlags { private: false, recursive: false, bind: false },
                    },
                    required: true,
                },
            )
            &&& steps.contains(
                StepModel {
                    stage: Stage::MountSys,
                    action: ActionModel::Mount {
                        source: Some(encode_utf8("sysfs"@)),
                        target: encode_utf8("/sys"@),
                        filesystem: Some("sysfs"@),
                        flags: MountFlags { private: false, recursive: false, bind: false },
                    },
                    required: true,
                },
            )
        }),
{
    let start = child_start(rootfs, command);
    lemma_sound_start(rootfs, command);
    lemma_sound_after(start, events);
    let child = child_after(start, events);
    assert(child.plan[0] == child.plan.last() || child.plan[0].action.plain());
    lemma_mounted(start, events);
    proc_and_sys_are_mounted();
    let mounts = proc_and_sys_steps();
    let steps = child_steps(start, events);
    assert(steps.contains(mounts[1]) && steps.contains(mounts[3]));
}

/// An answer that does not fit the current step leaves a container where it is.
pub proof fn a_container_heeds_no_stray_answer(child: ChildModel, event: EventModel)
    requires
        child.plan.len() > 0,
        !(event is Failed),
        !answers(child.plan[0].action, event),
    ensures
        child.next(event) == child,
{
}

} // verus!
