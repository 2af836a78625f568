//! What holds of every run of a container, as the host sees it.
use vstd::prelude::*;
use vstd::utf8::encode_utf8;

use crate::action::{ActionModel, EventModel, Fault, Namespaces, Stage, StepModel};
use crate::cgroups::{cgroup_path, memory_steps, size_in_bytes, write_step, SizeFault};
use crate::container::{
    cleanup_step, enable_step, limit_fault, limit_steps, pid_of, pids_limit, relayed, run_start,
    OptionsModel, OutcomeModel, RunModel, RunPhase,
};
use crate::filesystem::required;
use crate::float::Float;
use crate::namespaces::spawn_step;
use crate::step_laws::{
    a_cpu_limit_is_written, a_memory_limit_is_written, a_process_gets_a_cgroup_of_its_own,
    a_process_limit_is_written, all_limits, exit_statuses_are_relayed, in_cgroup, lemma_all_limits,
    lemma_cgroup_path_end, lemma_limits_before_cpu, limits_are_refused_for_a_reason,
    limits_before_cpu, nothing_else_is_limited, pid_text, process_ids_are_kept,
    the_program_is_run_again, written,
};
use crate::text::numeral;

verus! {

/// The run once the system has given several answers.
pub open spec fn run_after(run: RunModel, events: Seq<EventModel>) -> RunModel
    decreases events.len(),
{
    if events.len() == 0 {
        run
    } else {
        run_after(run.next(events[0]), events.drop_first())
    }
}

/// The steps that those answers were to.
pub open spec fn run_steps(run: RunModel, events: Seq<EventModel>) -> Seq<StepModel>
    decreases events.len(),
{
    if events.len() == 0 || run.plan.len() == 0 {
        Seq::empty()
    } else {
        seq![run.plan[0]] + run_steps(run.next(events[0]), events.drop_first())
    }
}

/// Whether `event` lets a run get past a plain `step`: it succeeded, or need not
/// have.
pub open spec fn gets_past(step: StepModel, event: EventModel) -> bool {
    event is Done || (event is Failed && !step.required)
}

/// Whether a run has performed `done` of the steps that limit its container, and
/// not all.
pub open spec fn has_limited(run: RunModel, pid: i32, done: int) -> bool {
    let all = limit_steps(pid, run.options);
    0 <= done < all.len() && run.plan == all.skip(done)
}

/// Whether a run is where one can be: at a step of its phase, or at its end.
pub open spec fn run_sound(run: RunModel) -> bool {
    if run.outcome is Some {
        &&& run.plan.len() == 0
        &&& run.outcome->0 is Exit ==> {
            &&& run.phase == (RunPhase::CleaningUp { code: run.outcome->0->code })
            &&& limit_fault(run.options) is None
        }
    } else {
        match run.phase {
            RunPhase::Resolving => {
                &&& run.plan.len() == 1
                &&& run.plan[0] == required(
                    Stage::ResolveRootfs,
                    ActionModel::Resolve { path: run.options.rootfs },
                )
            },
            RunPhase::Launching => {
                &&& 1 <= run.plan.len() <= 2
                &&& run.plan.len() == 2 ==> run.plan[0] == enable_step()
                &&& run.plan.last().required
                &&& run.plan.last().action is Spawn
            },
            RunPhase::Limiting { pid } => exists|done: int| #[trigger] has_limited(run, pid, done),
            RunPhase::Waiting { .. } => {
                &&& run.plan =~= seq![required(Stage::WaitForContainer, ActionModel::WaitForChild)]
                &&& limit_fault(run.options) is None
            },
            RunPhase::CleaningUp { .. } => {
                &&& run.plan.len() == 1
                &&& run.plan[0].action is RemoveDir
                &&& limit_fault(run.options) is None
            },
        }
    }
}

/// Every step that limits a container is plain.
proof fn lemma_limits_plain(pid: i32, options: OptionsModel)
    ensures
        limit_steps(pid, options).len() >= 2,
        forall|i: int|
            0 <= i < limit_steps(pid, options).len() ==> (#[trigger] limit_steps(
                pid,
                options,
            )[i]).action.plain(),
{
}

proof fn lemma_limiting_sound(run: RunModel, pid: i32, done: int)
    requires
        run.outcome is None,
        run.phase == (RunPhase::Limiting { pid }),
        has_limited(run, pid, done),
    ensures
        run_sound(run),
{
    let found = run.phase->Limiting_pid;
    assert(exists|done: int| #[trigger] has_limited(run, found, done));
}

proof fn lemma_sound_advanced(run: RunModel)
    requires
        run_sound(run),
        run.plan.len() > 0,
        run.plan[0].action.plain(),
    ensures
        run_sound(run.advanced()),
        run.advanced().options == run.options,
{
    let rest = run.plan.drop_first();
    match run.phase {
        RunPhase::Limiting { pid } => {
            let all = limit_steps(pid, run.options);
            let done = choose|done: int| has_limited(run, pid, done);
            assert(rest =~= all.skip(done + 1));
            if rest.len() > 0 {
                assert(has_limited(run.advanced(), pid, done + 1));
            }
        },
        RunPhase::Launching => {
            assert(rest.len() == 1);
            assert(rest.last() == run.plan.last());
        },
        _ => {},
    }
}

proof fn lemma_sound_next(run: RunModel, event: EventModel)
    requires
        run_sound(run),
    ensures
        run_sound(run.next(event)),
        run.next(event).options == run.options,
{
    if run.plan.len() > 0 {
        if let RunPhase::Limiting { pid } = run.phase {
            lemma_limits_plain(pid, run.options);
            let all = limit_steps(pid, run.options);
            let done = choose|done: int| has_limited(run, pid, done);
            assert(run.plan[0] == all[done]);
        }
        if run.plan[0].action.plain() {
            lemma_sound_advanced(run);
        }
        let next = run.next(event);
        match event {
            EventModel::Resolved { path } => {
                let plan = seq![enable_step(), spawn_step(path, run.options.command)];
                assert(plan.last() == spawn_step(path, run.options.command));
            },
            EventModel::Spawned { id } => {
                let pid = pid_of(id);
                let all = limit_steps(pid, run.options);
                lemma_limits_plain(pid, run.options);
                assert(all.skip(0) =~= all);
                if run.plan[0].action is Spawn {
                    lemma_limiting_sound(next, pid, 0);
                }
            },
            _ => {},
        }
    }
}

proof fn lemma_sound_after(run: RunModel, events: Seq<EventModel>)
    requires
        run_sound(run),
    ensures
        run_sound(run_after(run, events)),
        run_after(run, events).options == run.options,
    decreases events.len(),
{
    if events.len() > 0 {
        lemma_sound_next(run, events[0]);
        lemma_sound_after(run.next(events[0]), events.drop_first());
    }
}

/// Whatever the system answers, a run either names a step or has an outcome,
/// and never both.
pub proof fn a_run_has_a_step_or_an_outcome(
    effective_uid: u32,
    options: OptionsModel,
    events: Seq<EventModel>,
)
    ensures
        ({
            let run = run_after(run_start(effective_uid, options), events);
            run.plan.len() > 0 <==> run.outcome is None
        }),
{
    lemma_sound_after(run_start(effective_uid, options), events);
}

/// A run whose limits cannot be set never exits as if it had been limited,
/// whatever the system answers.
pub proof fn a_bad_limit_is_never_passed_over(
    effective_uid: u32,
    options: OptionsModel,
    events: Seq<EventModel>,
)
    requires
        limit_fault(options) is Some,
    ensures
        ({
            let run = run_after(run_start(effective_uid, options), events);
            &&& !(run.outcome is Some && run.outcome->0 is Exit)
            &&& !(run.outcome is None && run.phase is Waiting)
        }),
{
    lemma_sound_after(run_start(effective_uid, options), events);
}

/// A run that has ended stays as it is.
pub proof fn an_ended_run_is_over(run: RunModel, events: Seq<EventModel>)
    requires
        run.plan.len() == 0,
    ensures
        run_after(run, events) == run,
        run_steps(run, events).len() == 0,
    decreases events.len(),
{
    if events.len() > 0 {
        an_ended_run_is_over(run, events.drop_first());
    }
}

/// Without root, or without a command, nothing at all is asked of the system.
pub proof fn a_refused_run_does_nothing(
    effective_uid: u32,
    options: OptionsModel,
    events: Seq<EventModel>,
)
    requires
        effective_uid != 0 || options.command.len() == 0,
    ensures
        ({
            let start = run_start(effective_uid, options);
            &&& run_steps(start, events).len() == 0
            &&& run_after(start, events).outcome == Some(
                OutcomeModel::Fail {
                    fault: if effective_uid != 0 {
                        Fault::NotRoot
                    } else {
                        Fault::NoCommand
                    },
                },
            )
        }),
{
    an_ended_run_is_over(run_start(effective_uid, options), events);
}

/// A failed step that is required ends the run, and says which step it was; no
/// further step is named.
pub proof fn a_required_failure_ends_a_run(run: RunModel, events: Seq<EventModel>)
    requires
        run.plan.len() > 0,
        run.plan[0].required,
    ensures
        ({
            let failed = run.next(EventModel::Failed);
            &&& run_after(failed, events).outcome == Some(
                OutcomeModel::Fail { fault: Fault::Failed { stage: run.plan[0].stage } },
            )
            &&& run_steps(failed, events).len() == 0
        }),
{
    an_ended_run_is_over(run.next(EventModel::Failed), events);
}

/// It makes no difference whether a step that is not required fails.
pub proof fn an_optional_failure_changes_nothing(run: RunModel)
    requires
        run.plan.len() > 0,
        !run.plan[0].required,
        run.plan[0].action.plain(),
    ensures
        run.next(EventModel::Failed) == run.next(EventModel::Done),
{
}

proof fn lemma_split(run: RunModel, first: Seq<EventModel>, second: Seq<EventModel>)
    ensures
        run_after(run, first + second) == run_after(run_after(run, first), second),
        run_steps(run, first + second) == run_steps(run, first) + run_steps(
            run_after(run, first),
            second,
        ),
    decreases first.len(),
{
    if first.len() == 0 {
        assert(first + second =~= second);
        assert(Seq::<StepModel>::empty() + run_steps(run, second) =~= run_steps(run, second));
    } else if run.plan.len() == 0 {
        an_ended_run_is_over(run, first + second);
        an_ended_run_is_over(run, first);
        an_ended_run_is_over(run, second);
        assert(run_steps(run, first + second) =~= run_steps(run, first) + run_steps(run, second));
    } else {
        let rest = first.drop_first();
        assert((first + second).drop_first() =~= rest + second);
        assert((first + second)[0] == first[0]);
        lemma_split(run.next(first[0]), rest, second);
        let a = seq![run.plan[0]];
        let b = run_steps(run.next(first[0]), rest);
        let c = run_steps(run_after(run.next(first[0]), rest), second);
        assert(a + (b + c) =~= (a + b) + c);
    }
}

/// Where the system lets each limiting step pass, all of them are performed in
/// order, and the container is waited for.
proof fn lemma_limits_pass(run: RunModel, pid: i32, events: Seq<EventModel>)
    requires
        run.phase == (RunPhase::Limiting { pid }),
        run.plan.len() > 0,
        run.plan.len() == events.len(),
        limit_fault(run.options) is None,
        forall|i: int| 0 <= i < run.plan.len() ==> (#[trigger] run.plan[i]).action.plain(),
        forall|i: int| 0 <= i < events.len() ==> gets_past(run.plan[i], #[trigger] events[i]),
    ensures
        run_steps(run, events) == run.plan,
        run_after(run, events) == run.entered(
            RunPhase::Waiting { pid },
            seq![required(Stage::WaitForContainer, ActionModel::WaitForChild)],
        ),
    decreases events.len(),
{
    assert(gets_past(run.plan[0], events[0]));
    assert(run.plan[0].action.plain());
    let next = run.next(events[0]);
    let rest = events.drop_first();
    assert(next == run.advanced());
    if rest.len() == 0 {
        assert(run_after(next, rest) == next);
        assert(run_steps(next, rest) =~= Seq::empty());
        assert(run_steps(run, events) =~= run.plan);
    } else {
        assert forall|i: int| 0 <= i < next.plan.len() implies (
        #[trigger] next.plan[i]).action.plain() by {
            assert(next.plan[i] == run.plan[i + 1]);
        }
        assert forall|i: int| 0 <= i < rest.len() implies gets_past(
            next.plan[i],
            #[trigger] rest[i],
        ) by {
            assert(rest[i] == events[i + 1]);
            assert(next.plan[i] == run.plan[i + 1]);
        }
        lemma_limits_pass(next, pid, rest);
        assert(seq![run.plan[0]] + next.plan =~= run.plan);
    }
}

/// How a run comes to the point where the container is limited.
proof fn lemma_launch(options: OptionsModel, path: Seq<u8>, enabled: EventModel, id: u32)
    requires
        options.command.len() > 0,
        enabled is Done || enabled is Failed,
    ensures
        ({
            let start = run_start(0, options);
            let events = seq![EventModel::Resolved { path }, enabled, EventModel::Spawned { id }];
            let pid = pid_of(id);
            &&& run_after(start, events) == start.entered(
                RunPhase::Limiting { pid },
                limit_steps(pid, options),
            )
            &&& run_steps(start, events) == seq![
                required(Stage::ResolveRootfs, ActionModel::Resolve { path: options.rootfs }),
                enable_step(),
                spawn_step(path, options.command),
            ]
        }),
{
    let start = run_start(0, options);
    let events = seq![EventModel::Resolved { path }, enabled, EventModel::Spawned { id }];
    let launching = start.next(events[0]);
    let spawning = launching.next(enabled);
    assert(launching.plan.drop_first() =~= seq![spawn_step(path, options.command)]);
    assert(events.drop_first() =~= seq![enabled, events[2]]);
    assert(events.drop_first().drop_first() =~= seq![events[2]]);
    assert(events.drop_first().drop_first().drop_first() =~= Seq::empty());
    let limiting = spawning.next(events[2]);
    assert(run_after(limiting, Seq::empty()) == limiting);
    assert(run_steps(limiting, Seq::empty()) =~= Seq::empty());
    assert(run_after(spawning, seq![events[2]]) == limiting);
    assert(run_after(launching, seq![enabled, events[2]]) == limiting);
    assert(run_steps(spawning, seq![events[2]]) =~= seq![spawning.plan[0]]);
    assert(run_steps(launching, seq![enabled, events[2]]) =~= seq![
        launching.plan[0],
        spawning.plan[0],
    ]);
    assert(run_steps(start, events) =~= seq![
        start.plan[0],
        launching.plan[0],
        spawning.plan[0],
    ]);
}

/// How a run ends once the container is waited for.
proof fn lemma_wind_up(waiting: RunModel, pid: i32, code: Option<i32>, removed: EventModel)
    requires
        waiting.phase == (RunPhase::Waiting { pid }),
        waiting.plan == seq![required(Stage::WaitForContainer, ActionModel::WaitForChild)],
        removed is Done || removed is Failed,
    ensures
        ({
            let events = seq![EventModel::ChildEnded { code }, removed];
            &&& run_after(waiting, events).outcome == Some(
                OutcomeModel::Exit { code: relayed(code) },
            )
            &&& run_steps(waiting, events) == seq![
                required(Stage::WaitForContainer, ActionModel::WaitForChild),
                cleanup_step(pid),
            ]
        }),
{
    let events = seq![EventModel::ChildEnded { code }, removed];
    let cleaning = waiting.next(events[0]);
    let ended = cleaning.next(removed);
    assert(cleaning.plan.drop_first() =~= Seq::empty());
    assert(events.drop_first() =~= seq![removed]);
    assert(seq![removed].drop_first() =~= Seq::empty());
    assert(run_after(ended, Seq::empty()) == ended);
    assert(run_steps(ended, Seq::empty()) =~= Seq::empty());
    assert(run_after(cleaning, seq![removed]) == ended);
    assert(run_steps(cleaning, seq![removed]) =~= seq![cleaning.plan[0]]);
    assert(run_steps(waiting, events) =~= seq![waiting.plan[0], cleaning.plan[0]]);
}

/// A container that runs to its end: as root, with a command and with limits
/// that can be set, the rootfs is resolved, the controllers are enabled, the
/// first process is spawned in new namespaces with the resolved rootfs, it is
/// put into its cgroup and limited in every way asked for, waited for, and its
/// cgroup removed, in this order and with nothing else. The exit status is the
/// container's. None of it depends on whether the steps that are not required
/// succeed.
pub proof fn a_successful_run(
    options: OptionsModel,
    path: Seq<u8>,
    enabled: EventModel,
    id: u32,
    limited: Seq<EventModel>,
    code: Option<i32>,
    removed: EventModel,
)
    requires
        options.command.len() > 0,
        limit_fault(options) is None,
        enabled is Done || enabled is Failed,
        removed is Done || removed is Failed,
        limited.len() == limit_steps(pid_of(id), options).len(),
        forall|i: int|
            0 <= i < limited.len() ==> gets_past(
                limit_steps(pid_of(id), options)[i],
                #[trigger] limited[i],
            ),
    ensures
        ({
            let start = run_start(0, options);
            let pid = pid_of(id);
            let events = seq![
                EventModel::Resolved { path },
                enabled,
                EventModel::Spawned { id },
            ] + limited + seq![EventModel::ChildEnded { code }, removed];
            &&& run_steps(start, events) == seq![
                required(Stage::ResolveRootfs, ActionModel::Resolve { path: options.rootfs }),
                enable_step(),
                spawn_step(path, options.command),
            ] + limit_steps(pid, options) + seq![
                required(Stage::WaitForContainer, ActionModel::WaitForChild),
                cleanup_step(pid),
            ]
            &&& run_after(start, events).outcome == Some(
                OutcomeModel::Exit { code: relayed(code) },
            )
        }),
{
    let start = run_start(0, options);
    let pid = pid_of(id);
    let first = seq![EventModel::Resolved { path }, enabled, EventModel::Spawned { id }];
    let last = seq![EventModel::ChildEnded { code }, removed];
    lemma_split(start, first + limited, last);
    lemma_split(start, first, limited);
    lemma_launch(options, path, enabled, id);
    lemma_limits_plain(pid, options);
    let limiting = run_after(start, first);
    lemma_limits_pass(limiting, pid, limited);
    lemma_wind_up(run_after(limiting, limited), pid, code, removed);
}

/// Every container that is limited at all has its number of processes capped:
/// at what was asked for, or at the default.
pub proof fn processes_are_always_capped(pid: i32, options: OptionsModel)
    requires
        limit_fault(options) is None,
    ensures
        limit_steps(pid, options).last() == write_step(
            Stage::LimitPids,
            cgroup_path(pid),
            "pids.max"@,
            numeral(pids_limit(options) as nat),
            true,
        ),
{
}

/// A memory ceiling is in place as soon as the process is in its cgroup, and
/// swap is capped right after it.
pub proof fn swap_is_capped_with_memory(pid: i32, options: OptionsModel)
    requires
        options.memory is Some,
        size_in_bytes(options.memory->0) is Ok,
    ensures
        limit_steps(pid, options).len() >= 4,
        limit_steps(pid, options).subrange(2, 4) == memory_steps(
            cgroup_path(pid),
            size_in_bytes(options.memory->0)->Ok_0,
        ),
{
    assert(limit_steps(pid, options).subrange(2, 4) =~= memory_steps(
        cgroup_path(pid),
        size_in_bytes(options.memory->0)->Ok_0,
    ));
}

/// Whether a run has come as far as the container, limited and running.
pub open spec fn under_way(run: RunModel) -> bool {
    run.phase is Waiting || run.phase is CleaningUp
}

proof fn lemma_refused_stays_back(run: RunModel, events: Seq<EventModel>)
    requires
        limit_fault(run.options) is Some,
        !under_way(run),
        !(run.outcome is Some && run.outcome->0 is Exit),
    ensures
        !under_way(run_after(run, events)),
        !(run_after(run, events).outcome is Some && run_after(run, events).outcome->0 is Exit),
    decreases events.len(),
{
    if events.len() > 0 {
        lemma_refused_stays_back(run.next(events[0]), events.drop_first());
    }
}

/// Where the memory limit cannot be read or the CPU limit is not above zero, the
/// container is never waited for and the run never exits, whatever else is asked
/// for and whatever the system answers.
pub proof fn no_container_runs_past_a_bad_limit(
    effective_uid: u32,
    options: OptionsModel,
    events: Seq<EventModel>,
)
    requires
        (options.memory is Some && size_in_bytes(options.memory->0) is Err) || (options.cpu is Some
            && !Float::of_bits(options.cpu->0).positive()),
    ensures
        ({
            let run = run_after(run_start(effective_uid, options), events);
            &&& !(run.phase is Waiting)
            &&& !(run.phase is CleaningUp)
            &&& !(run.outcome is Some && run.outcome->0 is Exit)
        }),
{
    limits_are_refused_for_a_reason(options);
    lemma_refused_stays_back(run_start(effective_uid, options), events);
}

proof fn lemma_enabled_from_launch(run: RunModel, events: Seq<EventModel>, enable: StepModel)
    requires
        run.phase is Launching,
        run.plan.len() == 2,
        run.plan[0] == enable,
        enable.action.plain(),
        !enable.required,
        run.plan[1].action is Spawn,
    ensures
        ({
            let later = run_after(run, events);
            later.phase is Limiting || under_way(later) || (later.plan.len() > 0
                && later.plan[0].action is Spawn) ==> run_steps(run, events).contains(enable)
        }),
    decreases events.len(),
{
    if events.len() > 0 {
        let steps = run_steps(run, events);
        assert(steps[0] == enable);
    }
}

proof fn lemma_enabled_from_start(run: RunModel, events: Seq<EventModel>, enable: StepModel)
    requires
        run.phase is Resolving,
        run.plan.len() <= 1,
        run.plan.len() == 1 ==> run.plan[0].action is Resolve && run.plan[0].required,
        forall|path: Seq<u8>|
            (#[trigger] run.next(EventModel::Resolved { path })).phase is Launching
                ==> run.next(EventModel::Resolved { path }).plan[0] == enable,
        enable == enable_step(),
    ensures
        ({
            let later = run_after(run, events);
            later.phase is Limiting || under_way(later) || (later.plan.len() > 0
                && later.plan[0].action is Spawn) ==> run_steps(run, events).contains(enable)
        }),
    decreases events.len(),
{
    if events.len() > 0 && run.plan.len() == 0 {
        an_ended_run_is_over(run, events);
    } else if events.len() > 0 {
        let next = run.next(events[0]);
        let rest = events.drop_first();
        let later = run_after(run, events);
        let tail = run_steps(next, rest);
        if next.phase is Launching {
            lemma_enabled_from_launch(next, rest, enable);
        } else if next.plan.len() == 0 {
            an_ended_run_is_over(next, rest);
        } else {
            assert(next == run);
            lemma_enabled_from_start(run, rest, enable);
        }
        if tail.contains(enable) {
            let i = choose|i: int| 0 <= i < tail.len() && tail[i] == enable;
            assert(run_steps(run, events)[i + 1] == enable);
        }
    }
}

/// No container is spawned before the memory, cpu and pids controllers were asked
/// for at the root of the cgroups, whatever the system answers: without them,
/// limits that are written later have no effect.
pub proof fn controllers_are_enabled_before_the_spawn(
    effective_uid: u32,
    options: OptionsModel,
    events: Seq<EventModel>,
)
    ensures
        ({
            let start = run_start(effective_uid, options);
            let run = run_after(start, events);
            run.phase is Limiting || run.phase is Waiting || run.phase is CleaningUp || (
            run.plan.len() > 0 && run.plan[0].action is Spawn) ==> run_steps(
                start,
                events,
            ).contains(
                StepModel {
                    stage: Stage::EnableControllers,
                    action: ActionModel::WriteFile {
                        path: encode_utf8("/sys/fs/cgroup/cgroup.subtree_control"@),
                        contents: "+memory +cpu +pids"@,
                    },
                    required: false,
                },
            )
        }),
{
    lemma_enabled_from_start(run_start(effective_uid, options), events, enable_step());
}

/// A run that waits, or has done so, waits for nothing else.
proof fn lemma_waits_for_one(run: RunModel, events: Seq<EventModel>)
    requires
        run_sound(run),
        under_way(run),
    ensures
        run_after(run, events).phase is Waiting ==> run_after(run, events).phase == run.phase,
    decreases events.len(),
{
    if events.len() > 0 {
        lemma_sound_next(run, events[0]);
        lemma_waits_for_one(run.next(events[0]), events.drop_first());
    }
}

proof fn lemma_limited_while_limiting(run: RunModel, pid: i32, events: Seq<EventModel>)
    requires
        run_sound(run),
        run.outcome is None,
        run.phase == (RunPhase::Limiting { pid }),
        run.plan.len() > 0,
        forall|i: int| 0 <= i < run.plan.len() ==> (#[trigger] run.plan[i]).action.plain(),
        run_after(run, events).phase is Waiting,
    ensures
        run_after(run, events).phase == (RunPhase::Waiting { pid }),
        forall|i: int|
            0 <= i < run.plan.len() ==> run_steps(run, events).contains(#[trigger] run.plan[i]),
    decreases events.len(),
{
    assert(run.plan[0].action.plain());
    let next = run.next(events[0]);
    let rest = events.drop_first();
    let steps = run_steps(run, events);
    let tail = run_steps(next, rest);
    assert(steps[0] == run.plan[0]);
    lemma_sound_next(run, events[0]);
    if next.outcome is Some {
        an_ended_run_is_over(next, rest);
    } else if next.phase is Limiting {
        let done: int = if next.plan.len() == run.plan.len() {
            0
        } else {
            1
        };
        assert forall|i: int| 0 <= i < next.plan.len() implies (
        #[trigger] next.plan[i]).action.plain() by {
            assert(next.plan[i] == run.plan[i + done]);
        }
        lemma_limited_while_limiting(next, pid, rest);
        assert forall|i: int| 0 <= i < run.plan.len() implies steps.contains(
            #[trigger] run.plan[i],
        ) by {
            if i >= done {
                assert(next.plan[i - done] == run.plan[i]);
                let j = choose|j: int| 0 <= j < tail.len() && tail[j] == run.plan[i];
                assert(steps[j + 1] == run.plan[i]);
            } else {
                assert(steps[0] == run.plan[i]);
            }
        }
    } else {
        assert forall|i: int| 0 <= i < run.plan.len() implies steps.contains(
            #[trigger] run.plan[i],
        ) by {
            assert(steps[0] == run.plan[i]);
        }
        lemma_waits_for_one(next, rest);
    }
}

proof fn lemma_limited_from_start(
    run: RunModel,
    events: Seq<EventModel>,
    pid: i32,
    limits: Seq<StepModel>,
)
    requires
        run_sound(run),
        run.phase is Resolving || run.phase is Launching,
        run_after(run, events).phase == (RunPhase::Waiting { pid }),
        limits == limit_steps(pid, run.options),
    ensures
        forall|i: int|
            0 <= i < limits.len() ==> run_steps(run, events).contains(#[trigger] limits[i]),
    decreases events.len(),
{
    let next = run.next(events[0]);
    let rest = events.drop_first();
    if run.plan.len() == 0 {
        an_ended_run_is_over(run, events);
    } else {
        let steps = run_steps(run, events);
        let tail = run_steps(next, rest);
        lemma_sound_next(run, events[0]);
        if next.phase is Limiting {
            let started = next.phase->Limiting_pid;
            lemma_limits_plain(started, run.options);
            lemma_limited_while_limiting(next, started, rest);
            assert(next.plan == limits);
        } else {
            lemma_limited_from_start(next, rest, pid, limits);
        }
        assert forall|i: int| 0 <= i < limits.len() implies steps.contains(
            #[trigger] limits[i],
        ) by {
            assert(tail.contains(limits[i]));
            let j = choose|j: int| 0 <= j < tail.len() && tail[j] == limits[i];
            assert(steps[j + 1] == limits[i]);
        }
    }
}

proof fn lemma_limits_asked(
    effective_uid: u32,
    options: OptionsModel,
    events: Seq<EventModel>,
    pid: i32,
    steps: Seq<StepModel>,
    limits: Seq<StepModel>,
)
    requires
        run_after(run_start(effective_uid, options), events).phase == (RunPhase::Waiting { pid }),
        steps == run_steps(run_start(effective_uid, options), events),
        limits == limit_steps(pid, options),
    ensures
        limit_fault(options) is None,
        forall|i: int| 0 <= i < limits.len() ==> steps.contains(#[trigger] limits[i]),
{
    let start = run_start(effective_uid, options);
    assert(start.options == options);
    if limit_fault(options) is Some {
        lemma_refused_stays_back(start, events);
    }
    lemma_limited_from_start(start, events, pid, limits);
}

/// No container is waited for before everything was asked of the system that
/// limits it: its cgroup, the memory ceiling with swap capped and the CPU bandwidth
/// where those were asked for, and the number of processes in any case. That holds
/// whatever the system answers.
pub proof fn no_container_runs_unlimited(
    effective_uid: u32,
    options: OptionsModel,
    events: Seq<EventModel>,
    pid: i32,
)
    requires
        run_after(run_start(effective_uid, options), events).phase == (RunPhase::Waiting { pid }),
    ensures
        ({
            let steps = run_steps(run_start(effective_uid, options), events);
            let n = pid as int;
            &&& steps.contains(
                StepModel {
                    stage: Stage::CreateCgroup,
                    action: ActionModel::CreateDirAll { path: in_cgroup(n, ""@) },
                    required: true,
                },
            )
            &&& steps.contains(
                written(Stage::AddProcess, n, "/cgroup.procs"@, pid_text(n), true),
            )
            &&& options.memory is Some ==> {
                &&& size_in_bytes(options.memory->0) is Ok
                &&& steps.contains(
                    written(
                        Stage::LimitMemory,
                        n,
                        "/memory.max"@,
                        numeral(size_in_bytes(options.memory->0)->Ok_0 as nat),
                        true,
                    ),
                )
                &&& steps.contains(written(Stage::CapSwap, n, "/memory.swap.max"@, "0"@, false))
            }
            &&& options.cpu is Some ==> {
                &&& Float::of_bits(options.cpu->0).positive()
                &&& steps.contains(
                    written(
                        Stage::LimitCpu,
                        n,
                        "/cpu.max"@,
                        numeral(Float::of_bits(options.cpu->0).product(100_000).nearest() as nat)
                            + " 100000"@,
                        true,
                    ),
                )
            }
            &&& options.max_pids is None ==> steps.contains(
                written(Stage::LimitPids, n, "/pids.max"@, "64"@, true),
            )
            &&& options.max_pids is Some ==> steps.contains(
                written(
                    Stage::LimitPids,
                    n,
                    "/pids.max"@,
                    numeral(options.max_pids->0 as nat),
                    true,
                ),
            )
        }),
{
    let limits = limit_steps(pid, options);
    let steps = run_steps(run_start(effective_uid, options), events);
    lemma_limits_asked(effective_uid, options, events, pid, steps, limits);
    limits_are_refused_for_a_reason(options);
    a_process_gets_a_cgroup_of_its_own(pid, options);
    assert(steps.contains(limits[0]) && steps.contains(limits[1]));
    if options.memory is Some {
        a_memory_limit_is_written(pid, options, size_in_bytes(options.memory->0)->Ok_0);
        assert(steps.contains(limits[2]) && steps.contains(limits[3]));
    }
    if options.cpu is Some {
        a_cpu_limit_is_written(pid, options, options.cpu->0);
        let i: int = if options.memory is Some {
            4
        } else {
            2
        };
        assert(steps.contains(limits[i]));
    }
    a_process_limit_is_written(pid, options);
    assert(steps.contains(limits[limits.len() - 1]));
}

/// What is asked of the system up to the spawn.
pub open spec fn launch_steps(options: OptionsModel, path: Seq<u8>) -> Seq<StepModel> {
    seq![
        StepModel {
            stage: Stage::ResolveRootfs,
            action: ActionModel::Resolve { path: options.rootfs },
            required: true,
        },
        StepModel {
            stage: Stage::EnableControllers,
            action: ActionModel::WriteFile {
                path: encode_utf8("/sys/fs/cgroup/cgroup.subtree_control"@),
                contents: "+memory +cpu +pids"@,
            },
            required: false,
        },
        StepModel {
            stage: Stage::Spawn,
            action: ActionModel::Spawn {
                arguments: seq![
                    encode_utf8("child-init"@),
                    encode_utf8("--rootfs"@),
                    path,
                    encode_utf8("--"@),
                ] + Seq::new(options.command.len(), |i: int| encode_utf8(options.command[i])),
                namespaces: Namespaces { pid: true, uts: true, mount: true, ipc: true },
            },
            required: true,
        },
    ]
}

proof fn lemma_launch_steps(options: OptionsModel, path: Seq<u8>, enabled: EventModel, id: u32)
    requires
        options.command.len() > 0,
        enabled is Done || enabled is Failed,
    ensures
        ({
            let start = run_start(0, options);
            let events = seq![EventModel::Resolved { path }, enabled, EventModel::Spawned { id }];
            &&& run_after(start, events) == start.entered(
                RunPhase::Limiting { pid: pid_of(id) },
                limit_steps(pid_of(id), options),
            )
            &&& run_steps(start, events) == launch_steps(options, path)
        }),
{
    lemma_launch(options, path, enabled, id);
    the_program_is_run_again(path, options.command);
    let spawned = spawn_step(path, options.command).action->Spawn_arguments;
    let expected = launch_steps(options, path)[2].action->Spawn_arguments;
    assert forall|i: int| 0 <= i < spawned.len() implies spawned[i] == expected[i] by {
        if i >= 4 {
            assert(spawned[4 + (i - 4)] == encode_utf8(options.command[i - 4]));
        }
    }
    assert(spawned =~= expected);
    let start = run_start(0, options);
    let events = seq![EventModel::Resolved { path }, enabled, EventModel::Spawned { id }];
    assert(run_steps(start, events) =~= launch_steps(options, path));
}

/// The answers to the steps that limit a container, where all of them succeed but
/// the one that caps swap, which need not.
pub open spec fn limited_with(options: OptionsModel, capped: EventModel) -> Seq<EventModel> {
    seq![EventModel::Done, EventModel::Done] + (if options.memory is Some {
        seq![EventModel::Done, capped]
    } else {
        Seq::empty()
    }) + (if options.cpu is Some {
        seq![EventModel::Done]
    } else {
        Seq::empty()
    }) + seq![EventModel::Done]
}

/// A run from start to end, with limits that can be set: all that is asked of the
/// system, in order and word for word, and the exit status, which is the
/// container's, or one where the container's supervisor was killed.
pub proof fn a_run_from_start_to_end(
    options: OptionsModel,
    path: Seq<u8>,
    enabled: EventModel,
    id: u32,
    capped: EventModel,
    code: Option<i32>,
    removed: EventModel,
)
    requires
        options.command.len() > 0,
        options.memory is None || size_in_bytes(options.memory->0) is Ok,
        options.cpu is None || Float::of_bits(options.cpu->0).positive(),
        enabled is Done || enabled is Failed,
        capped is Done || capped is Failed,
        removed is Done || removed is Failed,
    ensures
        ({
            let start = run_start(0, options);
            let pid: int = if id < 0x8000_0000 {
                id as int
            } else {
                id - 0x1_0000_0000
            };
            let events = seq![
                EventModel::Resolved { path },
                enabled,
                EventModel::Spawned { id },
            ] + limited_with(options, capped) + seq![EventModel::ChildEnded { code }, removed];
            &&& run_steps(start, events) == launch_steps(options, path) + all_limits(pid, options)
                + seq![
                StepModel {
                    stage: Stage::WaitForContainer,
                    action: ActionModel::WaitForChild,
                    required: true,
                },
                StepModel {
                    stage: Stage::RemoveCgroup,
                    action: ActionModel::RemoveDir { path: in_cgroup(pid, ""@) },
                    required: false,
                },
            ]
            &&& run_after(start, events).outcome == Some(
                OutcomeModel::Exit {
                    code: match code {
                        Some(code) => code,
                        None => 1,
                    },
                },
            )
        }),
{
    let pid = pid_of(id);
    let limited = limited_with(options, capped);
    process_ids_are_kept(id);
    limits_are_refused_for_a_reason(options);
    lemma_all_limits(pid, options);
    nothing_else_is_limited(pid, options);
    a_process_gets_a_cgroup_of_its_own(pid, options);
    lemma_cgroup_path_end(pid);
    let limits = limit_steps(pid, options);
    assert forall|i: int| 0 <= i < limited.len() implies gets_past(
        limits[i],
        #[trigger] limited[i],
    ) by {
        if options.memory is Some && i == 3 {
            a_memory_limit_is_written(pid, options, size_in_bytes(options.memory->0)->Ok_0);
        }
    }
    a_successful_run(options, path, enabled, id, limited, code, removed);
    lemma_launch_steps(options, path, enabled, id);
    lemma_launch(options, path, enabled, id);
    exit_statuses_are_relayed(0, 0);
}

/// Where the system lets each limiting step pass but a limit cannot be set, the
/// run ends with the reason.
proof fn lemma_limits_refused(run: RunModel, pid: i32, events: Seq<EventModel>)
    requires
        run.phase == (RunPhase::Limiting { pid }),
        run.plan.len() > 0,
        run.plan.len() == events.len(),
        limit_fault(run.options) is Some,
        forall|i: int| 0 <= i < run.plan.len() ==> (#[trigger] run.plan[i]).action.plain(),
        forall|i: int| 0 <= i < events.len() ==> gets_past(run.plan[i], #[trigger] events[i]),
    ensures
        run_steps(run, events) == run.plan,
        run_after(run, events).outcome == Some(
            OutcomeModel::Fail { fault: limit_fault(run.options)->0 },
        ),
    decreases events.len(),
{
    assert(gets_past(run.plan[0], events[0]));
    assert(run.plan[0].action.plain());
    let next = run.next(events[0]);
    let rest = events.drop_first();
    assert(next == run.advanced());
    if rest.len() == 0 {
        assert(run_after(next, rest) == next);
        assert(run_steps(next, rest) =~= Seq::empty());
        assert(run_steps(run, events) =~= run.plan);
    } else {
        assert forall|i: int| 0 <= i < next.plan.len() implies (
        #[trigger] next.plan[i]).action.plain() by {
            assert(next.plan[i] == run.plan[i + 1]);
        }
        assert forall|i: int| 0 <= i < rest.len() implies gets_past(
            next.plan[i],
            #[trigger] rest[i],
        ) by {
            assert(rest[i] == events[i + 1]);
            assert(next.plan[i] == run.plan[i + 1]);
        }
        lemma_limits_refused(next, pid, rest);
        assert(seq![run.plan[0]] + next.plan =~= run.plan);
    }
}

/// A memory limit that cannot be read ends the run once the process is in its
/// cgroup, with the reason why it cannot be read; nothing else is asked of the
/// system.
pub proof fn an_unreadable_memory_limit_ends_the_run(
    options: OptionsModel,
    path: Seq<u8>,
    enabled: EventModel,
    id: u32,
    error: SizeFault,
)
    requires
        options.command.len() > 0,
        options.memory is Some,
        size_in_bytes(options.memory->0) == Err::<u64, SizeFault>(error),
        enabled is Done || enabled is Failed,
    ensures
        ({
            let start = run_start(0, options);
            let pid: int = if id < 0x8000_0000 {
                id as int
            } else {
                id - 0x1_0000_0000
            };
            let events = seq![
                EventModel::Resolved { path },
                enabled,
                EventModel::Spawned { id },
            ] + seq![EventModel::Done, EventModel::Done];
            &&& run_steps(start, events) == launch_steps(options, path) + seq![
                StepModel {
                    stage: Stage::CreateCgroup,
                    action: ActionModel::CreateDirAll { path: in_cgroup(pid, ""@) },
                    required: true,
                },
                written(Stage::AddProcess, pid, "/cgroup.procs"@, pid_text(pid), true),
            ]
            &&& run_after(start, events).outcome == Some(
                OutcomeModel::Fail { fault: Fault::MemoryLimit { error } },
            )
        }),
{
    let pid = pid_of(id);
    let start = run_start(0, options);
    let first = seq![EventModel::Resolved { path }, enabled, EventModel::Spawned { id }];
    let done = seq![EventModel::Done, EventModel::Done];
    process_ids_are_kept(id);
    limits_are_refused_for_a_reason(options);
    nothing_else_is_limited(pid, options);
    a_process_gets_a_cgroup_of_its_own(pid, options);
    lemma_launch_steps(options, path, enabled, id);
    lemma_split(start, first, done);
    lemma_limits_plain(pid, options);
    lemma_limits_refused(run_after(start, first), pid, done);
    let limits = limit_steps(pid, options);
    assert(limits =~= seq![limits[0], limits[1]]);
}

/// A CPU limit that is not above zero ends the run in its turn, after the memory
/// limit.
pub proof fn a_cpu_limit_of_nothing_ends_the_run(
    options: OptionsModel,
    path: Seq<u8>,
    enabled: EventModel,
    id: u32,
    capped: EventModel,
)
    requires
        options.command.len() > 0,
        options.memory is None || size_in_bytes(options.memory->0) is Ok,
        options.cpu is Some,
        !Float::of_bits(options.cpu->0).positive(),
        enabled is Done || enabled is Failed,
        capped is Done || capped is Failed,
    ensures
        ({
            let start = run_start(0, options);
            let pid: int = if id < 0x8000_0000 {
                id as int
            } else {
                id - 0x1_0000_0000
            };
            let events = seq![
                EventModel::Resolved { path },
                enabled,
                EventModel::Spawned { id },
            ] + (seq![EventModel::Done, EventModel::Done] + (if options.memory is Some {
                seq![EventModel::Done, capped]
            } else {
                Seq::empty()
            }));
            &&& run_steps(start, events) == launch_steps(options, path) + limits_before_cpu(
                pid,
                options,
            )
            &&& run_after(start, events).outcome == Some(
                OutcomeModel::Fail { fault: Fault::CpuLimitNotPositive },
            )
        }),
{
    let pid = pid_of(id);
    let start = run_start(0, options);
    let first = seq![EventModel::Resolved { path }, enabled, EventModel::Spawned { id }];
    let done = seq![EventModel::Done, EventModel::Done] + (if options.memory is Some {
        seq![EventModel::Done, capped]
    } else {
        Seq::empty()
    });
    process_ids_are_kept(id);
    limits_are_refused_for_a_reason(options);
    nothing_else_is_limited(pid, options);
    lemma_limits_before_cpu(pid, options);
    lemma_launch_steps(options, path, enabled, id);
    lemma_split(start, first, done);
    lemma_limits_plain(pid, options);
    let limits = limit_steps(pid, options);
    assert forall|i: int| 0 <= i < done.len() implies gets_past(limits[i], #[trigger] done[i]) by {
        if i == 3 {
            a_memory_limit_is_written(pid, options, size_in_bytes(options.memory->0)->Ok_0);
        }
    }
    lemma_limits_refused(run_after(start, first), pid, done);
}

/// Whether an answer is one that the system can give to a step, other than that it
/// failed.
pub open spec fn answers(action: ActionModel, event: EventModel) -> bool {
    match action {
        ActionModel::Resolve { .. } => event is Resolved,
        ActionModel::Spawn { .. } => event is Spawned,
        ActionModel::WaitForChild => event is ChildEnded,
        ActionModel::Fork => event is InParent || event is InChild,
        ActionModel::WaitForInit => event is InitEnded,
        ActionModel::Execute { .. } => false,
        ActionModel::CreateDirAll { .. } => event is Done,
        ActionModel::WriteFile { .. } => event is Done,
        ActionModel::RemoveDir { .. } => event is Done,
        ActionModel::SetHostname { .. } => event is Done,
        ActionModel::Mount { .. } => event is Done,
        ActionModel::PivotRoot { .. } => event is Done,
        ActionModel::ChangeDir { .. } => event is Done,
        ActionModel::Detach { .. } => event is Done,
    }
}

/// An answer that does not fit the current step leaves a run where it is.
pub proof fn a_run_heeds_no_stray_answer(run: RunModel, event: EventModel)
    requires
        run.plan.len() > 0,
        !(event is Failed),
        !answers(run.plan[0].action, event),
    ensures
        run.next(event) == run,
{
}

} // verus!
