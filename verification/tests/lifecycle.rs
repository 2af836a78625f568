use sorby::action::{
    join, Action, Error, Event, MountFlags, Namespaces, Stage, Step, WaitOutcome,
};
use sorby::cgroups::SizeError;
use sorby::container::{
    child_init, exec_user_command, exit_code_from, run, ChildInit, Outcome, Run, RunOptions,
};
use sorby::filesystem::{make_root_private, mount_proc_and_sys, pivot_root_into};
use sorby::namespaces::spawn_isolated;

fn path(text: &str) -> Vec<u8> {
    text.as_bytes().to_vec()
}

fn words(texts: &[&str]) -> Vec<String> {
    texts.iter().map(|text| text.to_string()).collect()
}

fn shell() -> RunOptions {
    RunOptions {
        rootfs: path("./alpine-rootfs"),
        memory: None,
        cpu: None,
        max_pids: None,
        command: words(&["/bin/sh", "-c", "echo $$"]),
    }
}

/// What a plain mount flag set looks like.
fn flags(private: bool, recursive: bool, bind: bool) -> MountFlags {
    MountFlags { private, recursive, bind }
}

fn required(stage: Stage, action: Action) -> Step {
    Step { stage, action, required: true }
}

fn stage_of(run: &Run) -> Stage {
    run.step().expect("a step").stage
}

/// Answers every step as a system on which everything works would, except that
/// the steps of `failing` fail; gives the stages in order, and the outcome.
fn drive(mut run: Run, failing: &[Stage], ending: Option<i32>) -> (Vec<Stage>, Outcome) {
    let mut stages = Vec::new();
    loop {
        let event = match run.step() {
            None => break,
            Some(step) => {
                stages.push(step.stage);
                if failing.contains(&step.stage) {
                    Event::Failed
                } else {
                    match &step.action {
                        Action::Resolve { .. } => Event::Resolved { path: path("/srv/rootfs") },
                        Action::Spawn { .. } => Event::Spawned { id: 4321 },
                        Action::WaitForChild => Event::ChildEnded { code: ending },
                        _ => Event::Done,
                    }
                }
            }
        };
        run.resume(event);
    }
    match run.outcome() {
        Some(Outcome::Exit { code }) => (stages, Outcome::Exit { code: *code }),
        Some(Outcome::Fail { error: Error::Failed { stage } }) => {
            (stages, Outcome::Fail { error: Error::Failed { stage: *stage } })
        }
        Some(Outcome::Fail { error: Error::CpuLimitNotPositive }) => {
            (stages, Outcome::Fail { error: Error::CpuLimitNotPositive })
        }
        Some(Outcome::Fail { error: Error::MemoryLimit { error: SizeError::NotPositive } }) => (
            stages,
            Outcome::Fail { error: Error::MemoryLimit { error: SizeError::NotPositive } },
        ),
        other => panic!("{other:?}"),
    }
}

fn drive_child(
    mut child: ChildInit,
    failing: &[Stage],
    forked: bool,
    ending: WaitOutcome,
) -> (Vec<Stage>, ChildInit) {
    let mut stages = Vec::new();
    loop {
        let event = match child.step() {
            None => break,
            Some(step) => {
                stages.push(step.stage);
                if failing.contains(&step.stage) {
                    Event::Failed
                } else {
                    match &step.action {
                        Action::Resolve { path } => Event::Resolved { path: path.clone() },
                        Action::Fork if forked => Event::InChild,
                        Action::Fork => Event::InParent,
                        Action::WaitForInit => Event::InitEnded { outcome: ending },
                        Action::Execute { .. } => break,
                        _ => Event::Done,
                    }
                }
            }
        };
        child.resume(event);
    }
    (stages, child)
}

#[test]
fn the_mount_tree_becomes_private() {
    assert_eq!(
        make_root_private(),
        required(
            Stage::MakeRootPrivate,
            Action::Mount {
                source: None,
                target: path("/"),
                filesystem: None,
                flags: flags(true, true, false),
            },
        ),
    );
}

#[test]
fn the_root_filesystem_is_swapped() {
    assert_eq!(
        pivot_root_into(&path("/srv/rootfs")),
        vec![
            required(
                Stage::BindRootfs,
                Action::Mount {
                    source: Some(path("/srv/rootfs")),
                    target: path("/srv/rootfs"),
                    filesystem: None,
                    flags: flags(false, true, true),
                },
            ),
            required(
                Stage::CreateOldRoot,
                Action::CreateDirAll { path: path("/srv/rootfs/.old_root") },
            ),
            required(
                Stage::PivotRoot,
                Action::PivotRoot {
                    new_root: path("/srv/rootfs"),
                    put_old: path("/srv/rootfs/.old_root"),
                },
            ),
            required(Stage::EnterNewRoot, Action::ChangeDir { path: path("/") }),
            required(Stage::DetachOldRoot, Action::Detach { target: path("/.old_root") }),
            required(Stage::RemoveOldRoot, Action::RemoveDir { path: path("/.old_root") }),
        ],
    );
}

#[test]
fn paths_are_joined_as_the_system_joins_them() {
    for dir in ["/", "/a", "/a/", "", "a", "./a//"] {
        let expected = std::path::Path::new(dir).join(".old_root");
        assert_eq!(join(&path(dir), ".old_root"), path(expected.to_str().unwrap()), "{dir:?}");
    }
    assert_eq!(join(&vec![0xff, 0xfe], "é"), vec![0xff, 0xfe, b'/', 0xc3, 0xa9]);
}

#[test]
fn proc_and_sys_are_mounted() {
    let mount = |stage, kind: &str, target: &str| {
        required(
            stage,
            Action::Mount {
                source: Some(path(kind)),
                target: path(target),
                filesystem: Some(kind.to_string()),
                flags: flags(false, false, false),
            },
        )
    };
    let create = |stage, dir: &str| Step {
        stage,
        action: Action::CreateDirAll { path: path(dir) },
        required: false,
    };
    assert_eq!(
        mount_proc_and_sys(),
        vec![
            create(Stage::CreateProc, "/proc"),
            mount(Stage::MountProc, "proc", "/proc"),
            create(Stage::CreateSys, "/sys"),
            mount(Stage::MountSys, "sysfs", "/sys"),
        ],
    );
}

#[test]
fn the_program_runs_itself_in_new_namespaces() {
    assert_eq!(
        spawn_isolated(&vec![b'/', 0xff], &words(&["/bin/écho", "", "a b"])),
        required(
            Stage::Spawn,
            Action::Spawn {
                arguments: vec![
                    path("child-init"),
                    path("--rootfs"),
                    vec![b'/', 0xff],
                    path("--"),
                    path("/bin/écho"),
                    path(""),
                    path("a b"),
                ],
                namespaces: Namespaces { pid: true, uts: true, mount: true, ipc: true },
            },
        ),
    );
}

#[test]
fn exit_codes_follow_the_shell() {
    assert_eq!(exit_code_from(WaitOutcome::Exited { code: 0 }), 0);
    assert_eq!(exit_code_from(WaitOutcome::Exited { code: 42 }), 42);
    assert_eq!(exit_code_from(WaitOutcome::Signaled { signal: 9 }), 128 + 9);
    assert_eq!(exit_code_from(WaitOutcome::Signaled { signal: 15 }), 143);
    assert_eq!(exit_code_from(WaitOutcome::Other), 1);
}

#[test]
fn commands_are_checked_before_they_are_executed() {
    assert_eq!(
        exec_user_command(&words(&["/bin/sh", "-c", ""])).unwrap(),
        required(
            Stage::ExecuteCommand,
            Action::Execute {
                program: "/bin/sh".to_string(),
                words: words(&["/bin/sh", "-c", ""]),
            },
        ),
    );
    assert_eq!(exec_user_command(&vec![]), Err(Error::NoCommand));
    assert_eq!(exec_user_command(&words(&["/bin/\0sh", "a\0"])), Err(Error::NulInCommand));
    assert_eq!(exec_user_command(&words(&["/bin/sh", "a", "b\0"])), Err(Error::NulInArgument));
}

#[test]
fn a_run_is_for_root_with_a_command() {
    let refused = run(1000, shell());
    assert!(refused.step().is_none());
    assert_eq!(refused.outcome(), Some(&Outcome::Fail { error: Error::NotRoot }));
    let mut refused = run(0, RunOptions { command: vec![], ..shell() });
    assert!(refused.step().is_none());
    refused.resume(Event::Done);
    assert_eq!(refused.outcome(), Some(&Outcome::Fail { error: Error::NoCommand }));
    let refused = run(1, RunOptions { command: vec![], ..shell() });
    assert_eq!(refused.outcome(), Some(&Outcome::Fail { error: Error::NotRoot }));
}

#[test]
fn a_run_with_every_limit() {
    let mut run = run(
        0,
        RunOptions {
            memory: Some("20M".to_string()),
            cpu: Some(0.2f64.to_bits()),
            max_pids: Some(10),
            ..shell()
        },
    );
    assert_eq!(
        run.step(),
        Some(&required(Stage::ResolveRootfs, Action::Resolve { path: path("./alpine-rootfs") })),
    );
    run.resume(Event::Resolved { path: path("/srv/rootfs") });
    assert_eq!(stage_of(&run), Stage::EnableControllers);
    run.resume(Event::Done);
    assert_eq!(
        run.step(),
        Some(&spawn_isolated(&path("/srv/rootfs"), &words(&["/bin/sh", "-c", "echo $$"]))),
    );
    run.resume(Event::Spawned { id: 4321 });
    let expected = [
        (Stage::CreateCgroup, None, true),
        (Stage::AddProcess, Some(("cgroup.procs", "4321")), true),
        (Stage::LimitMemory, Some(("memory.max", "20971520")), true),
        (Stage::CapSwap, Some(("memory.swap.max", "0")), false),
        (Stage::LimitCpu, Some(("cpu.max", "20000 100000")), true),
        (Stage::LimitPids, Some(("pids.max", "10")), true),
    ];
    for (stage, written, required) in expected {
        let action = match written {
            None => Action::CreateDirAll { path: path("/sys/fs/cgroup/sorby_4321") },
            Some((file, contents)) => Action::WriteFile {
                path: path(&format!("/sys/fs/cgroup/sorby_4321/{file}")),
                contents: contents.to_string(),
            },
        };
        assert_eq!(run.step(), Some(&Step { stage, action, required }));
        run.resume(Event::Done);
    }
    assert_eq!(
        run.step(),
        Some(&required(Stage::WaitForContainer, Action::WaitForChild)),
    );
    // The supervisor relays that the command was killed for its use of memory.
    run.resume(Event::ChildEnded { code: Some(128 + 9) });
    assert_eq!(
        run.step(),
        Some(&Step {
            stage: Stage::RemoveCgroup,
            action: Action::RemoveDir { path: path("/sys/fs/cgroup/sorby_4321") },
            required: false,
        }),
    );
    assert_eq!(run.outcome(), None);
    run.resume(Event::Done);
    assert_eq!(run.outcome(), Some(&Outcome::Exit { code: 137 }));
    run.resume(Event::Failed);
    assert_eq!(run.outcome(), Some(&Outcome::Exit { code: 137 }));
    assert!(run.step().is_none());
}

#[test]
fn a_run_without_limits_still_caps_processes() {
    let (stages, outcome) = drive(run(0, shell()), &[], Some(0));
    assert_eq!(
        stages,
        vec![
            Stage::ResolveRootfs,
            Stage::EnableControllers,
            Stage::Spawn,
            Stage::CreateCgroup,
            Stage::AddProcess,
            Stage::LimitPids,
            Stage::WaitForContainer,
            Stage::RemoveCgroup,
        ],
    );
    assert_eq!(outcome, Outcome::Exit { code: 0 });
    let mut run = run(0, shell());
    run.resume(Event::Resolved { path: path("/r") });
    run.resume(Event::Done);
    run.resume(Event::Spawned { id: 5 });
    run.resume(Event::Done);
    run.resume(Event::Done);
    assert_eq!(
        run.step().unwrap().action,
        Action::WriteFile {
            path: path("/sys/fs/cgroup/sorby_5/pids.max"),
            contents: "64".to_string(),
        },
    );
}

#[test]
fn best_effort_steps_may_fail() {
    let options = || RunOptions { memory: Some("1G".to_string()), ..shell() };
    let (all, _) = drive(run(0, options()), &[], Some(3));
    let failing = [Stage::EnableControllers, Stage::CapSwap, Stage::RemoveCgroup];
    assert_eq!(drive(run(0, options()), &failing, Some(3)), (all, Outcome::Exit { code: 3 }));
}

#[test]
fn a_required_step_that_fails_ends_the_run() {
    let options = || RunOptions {
        memory: Some("1G".to_string()),
        cpu: Some(1f64.to_bits()),
        ..shell()
    };
    for stage in [
        Stage::ResolveRootfs,
        Stage::Spawn,
        Stage::CreateCgroup,
        Stage::AddProcess,
        Stage::LimitMemory,
        Stage::LimitCpu,
        Stage::LimitPids,
        Stage::WaitForContainer,
    ] {
        let (stages, outcome) = drive(run(0, options()), &[stage], Some(0));
        assert_eq!(stages.last(), Some(&stage));
        assert_eq!(outcome, Outcome::Fail { error: Error::Failed { stage } });
    }
}

#[test]
fn a_killed_supervisor_counts_as_a_failure() {
    assert_eq!(drive(run(0, shell()), &[], None).1, Outcome::Exit { code: 1 });
}

#[test]
fn bad_limits_end_the_run_in_their_turn() {
    let bad_memory = RunOptions {
        memory: Some("0M".to_string()),
        cpu: Some((-1f64).to_bits()),
        ..shell()
    };
    let (stages, outcome) = drive(run(0, bad_memory), &[], Some(0));
    assert_eq!(stages.last(), Some(&Stage::AddProcess));
    assert_eq!(
        outcome,
        Outcome::Fail { error: Error::MemoryLimit { error: SizeError::NotPositive } },
    );
    let bad_cpu = RunOptions {
        memory: Some("1M".to_string()),
        cpu: Some(0f64.to_bits()),
        ..shell()
    };
    let (stages, outcome) = drive(run(0, bad_cpu), &[], Some(0));
    assert_eq!(stages.last(), Some(&Stage::CapSwap));
    assert_eq!(outcome, Outcome::Fail { error: Error::CpuLimitNotPositive });
}

#[test]
fn answers_that_do_not_fit_change_nothing() {
    let mut run = run(0, shell());
    for event in [
        Event::Done,
        Event::Spawned { id: 1 },
        Event::ChildEnded { code: Some(0) },
        Event::InChild,
        Event::InParent,
        Event::InitEnded { outcome: WaitOutcome::Other },
    ] {
        run.resume(event);
        assert_eq!(stage_of(&run), Stage::ResolveRootfs);
        assert_eq!(run.outcome(), None);
    }
    let mut child = child_init(&path("/r"), words(&["a"]));
    for event in [Event::InChild, Event::Resolved { path: path("/") }, Event::Spawned { id: 1 }] {
        child.resume(event);
        assert_eq!(child.step().unwrap().stage, Stage::SetHostname);
    }
}

#[test]
fn large_process_ids_keep_their_bits() {
    for id in [1u32, 0x7fff_ffff, 0x8000_0000, u32::MAX] {
        let mut run = run(0, shell());
        run.resume(Event::Resolved { path: path("/r") });
        run.resume(Event::Failed);
        run.resume(Event::Spawned { id });
        assert_eq!(
            run.step().unwrap().action,
            Action::CreateDirAll { path: path(&format!("/sys/fs/cgroup/sorby_{}", id as i32)) },
        );
    }
}

#[test]
fn the_supervisor_isolates_and_relays() {
    let child = child_init(&path("/srv/rootfs"), words(&["hostname"]));
    assert_eq!(
        child.step(),
        Some(&required(
            Stage::SetHostname,
            Action::SetHostname { name: "isolated-box".to_string() },
        )),
    );
    let (stages, child) =
        drive_child(child, &[], false, WaitOutcome::Signaled { signal: 9 });
    assert_eq!(
        stages,
        vec![
            Stage::SetHostname,
            Stage::MakeRootPrivate,
            Stage::ResolveNewRoot,
            Stage::BindRootfs,
            Stage::CreateOldRoot,
            Stage::PivotRoot,
            Stage::EnterNewRoot,
            Stage::DetachOldRoot,
            Stage::RemoveOldRoot,
            Stage::ForkInit,
            Stage::WaitForInit,
        ],
    );
    assert_eq!(child.outcome(), Some(&Outcome::Exit { code: 128 + 9 }));
    assert!(child.step().is_none());
}

#[test]
fn the_forked_process_becomes_the_command() {
    let child = child_init(&path("/srv/rootfs"), words(&["/bin/sh", "-c", "echo $$"]));
    let failing = [Stage::CreateProc, Stage::CreateSys];
    let (stages, mut child) = drive_child(child, &failing, true, WaitOutcome::Other);
    assert_eq!(
        stages[9..],
        [
            Stage::ForkInit,
            Stage::CreateProc,
            Stage::MountProc,
            Stage::CreateSys,
            Stage::MountSys,
            Stage::ExecuteCommand,
        ],
    );
    assert_eq!(
        child.step(),
        Some(&exec_user_command(&words(&["/bin/sh", "-c", "echo $$"])).unwrap()),
    );
    child.resume(Event::Failed);
    assert_eq!(
        child.outcome(),
        Some(&Outcome::Fail { error: Error::Failed { stage: Stage::ExecuteCommand } }),
    );
}

#[test]
fn the_forked_process_refuses_what_cannot_be_executed() {
    for (command, error) in [
        (words(&[]), Error::NoCommand),
        (words(&["a\0"]), Error::NulInCommand),
        (words(&["a", "\0"]), Error::NulInArgument),
    ] {
        let child = child_init(&path("/r"), command);
        let (stages, child) = drive_child(child, &[], true, WaitOutcome::Other);
        assert_eq!(stages.last(), Some(&Stage::MountSys));
        assert_eq!(child.outcome(), Some(&Outcome::Fail { error }));
    }
}

#[test]
fn a_required_step_that_fails_ends_the_container() {
    for stage in [
        Stage::SetHostname,
        Stage::MakeRootPrivate,
        Stage::ResolveNewRoot,
        Stage::BindRootfs,
        Stage::CreateOldRoot,
        Stage::PivotRoot,
        Stage::EnterNewRoot,
        Stage::DetachOldRoot,
        Stage::RemoveOldRoot,
        Stage::ForkInit,
        Stage::MountProc,
        Stage::MountSys,
    ] {
        let child = child_init(&path("/r"), words(&["a"]));
        let (stages, child) = drive_child(child, &[stage], true, WaitOutcome::Other);
        assert_eq!(stages.last(), Some(&stage));
        assert_eq!(
            child.outcome(),
            Some(&Outcome::Fail { error: Error::Failed { stage } }),
        );
    }
    let child = child_init(&path("/r"), words(&["a"]));
    let (_, child) = drive_child(child, &[Stage::WaitForInit], false, WaitOutcome::Other);
    assert_eq!(
        child.outcome(),
        Some(&Outcome::Fail { error: Error::Failed { stage: Stage::WaitForInit } }),
    );
}
