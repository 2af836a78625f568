//! What the steps of a container come to, file by file and word by word.
use vstd::prelude::*;
use vstd::utf8::{encode_utf8, is_ascii_chars, is_ascii_chars_encode_utf8};

use crate::action::{
    bytes, joined, ActionModel, Fault, MountFlags, Stage, StepModel, WaitOutcome,
};
use crate::cgroups::{
    cgroup_path, cpu_step, memory_steps, size_in_bytes, write_step, SizeFault, CPU_PERIOD_US,
};
use crate::container::{
    command_fault, execute_step, exit_code, has_nul, limit_fault, limit_steps, pid_of, relayed,
    OptionsModel,
};
use crate::filesystem::{pivot_steps, proc_and_sys_steps};
use crate::float::Float;
use crate::namespaces::spawn_step;
use crate::text::numeral;
use crate::text_laws::{
    lemma_encoding_joins, numbers_are_written_in_decimal, only_negative_numbers_have_a_sign,
    paths_are_joined_by_one_slash,
};

verus! {

/// A process id as it is written.
pub open spec fn pid_text(pid: int) -> Seq<char> {
    if pid < 0 {
        seq!['-'] + numeral((-pid) as nat)
    } else {
        numeral(pid as nat)
    }
}

/// The path of what `rest` says below the cgroup of `pid`, or of the cgroup itself
/// where that is empty.
pub open spec fn in_cgroup(pid: int, rest: Seq<char>) -> Seq<u8> {
    encode_utf8("/sys/fs/cgroup/sorby_"@ + pid_text(pid) + rest)
}

/// That `contents` are written to a file of the cgroup of `pid`.
pub open spec fn written(
    stage: Stage,
    pid: int,
    file: Seq<char>,
    contents: Seq<char>,
    required: bool,
) -> StepModel {
    StepModel {
        stage,
        action: ActionModel::WriteFile { path: in_cgroup(pid, file), contents },
        required,
    }
}

/// Whether the memory limit is absent or can be read.
pub open spec fn memory_is_fine(options: OptionsModel) -> bool {
    options.memory is Some ==> size_in_bytes(options.memory->0) is Ok
}

/// Whether the CPU limit is absent or above zero.
pub open spec fn cpu_is_fine(options: OptionsModel) -> bool {
    options.cpu is Some ==> Float::of_bits(options.cpu->0).positive()
}

/// How many steps the memory limit takes.
pub open spec fn memory_count(options: OptionsModel) -> int {
    if options.memory is Some {
        2
    } else {
        0
    }
}

/// How many steps the CPU limit takes.
pub open spec fn cpu_count(options: OptionsModel) -> int {
    if options.cpu is Some {
        1
    } else {
        0
    }
}

/// The last byte of the path of a cgroup is a digit.
pub proof fn lemma_cgroup_path_end(pid: i32)
    ensures
        cgroup_path(pid) == in_cgroup(pid as int, ""@),
        cgroup_path(pid).len() > 0,
        cgroup_path(pid).last() != 47,
{
    let digits = pid_text(pid as int);
    only_negative_numbers_have_a_sign(pid as int);
    numbers_are_written_in_decimal(pid as nat);
    numbers_are_written_in_decimal((-pid) as nat);
    let text = "/sys/fs/cgroup/sorby_"@ + digits;
    assert(text.last() == digits.last());
    assert(48 <= digits.last() as int <= 57) by {
        if pid < 0 {
            let n = numeral((-pid) as nat);
            assert(digits.last() == n[n.len() - 1]);
        } else {
            let n = numeral(pid as nat);
            assert(digits.last() == n[n.len() - 1]);
        }
    }
    let end = seq![text.last()];
    assert(text =~= text.drop_last() + end);
    lemma_encoding_joins(text.drop_last(), end);
    assert(is_ascii_chars(end));
    is_ascii_chars_encode_utf8(end);
    assert(end[0] as u8 == encode_utf8(end)[0]);
    reveal_strlit("");
    assert(text + ""@ =~= text);
    assert(cgroup_path(pid) == encode_utf8(text));
}

/// The path of a file of a cgroup.
proof fn lemma_cgroup_file(pid: i32, name: Seq<char>, file: Seq<char>)
    requires
        file == seq!['/'] + name,
    ensures
        joined(cgroup_path(pid), bytes(name)) == in_cgroup(pid as int, file),
{
    lemma_cgroup_path_end(pid);
    paths_are_joined_by_one_slash(cgroup_path(pid), bytes(name));
    let text = "/sys/fs/cgroup/sorby_"@ + pid_text(pid as int);
    reveal_strlit("");
    assert(text + ""@ =~= text);
    let slash = seq!['/'];
    assert(is_ascii_chars(slash));
    is_ascii_chars_encode_utf8(slash);
    assert(slash[0] as u8 == encode_utf8(slash)[0]);
    assert(encode_utf8(slash) =~= seq![47u8]);
    lemma_encoding_joins(slash, name);
    lemma_encoding_joins(text, file);
    assert(encode_utf8(text) + (seq![47u8] + encode_utf8(name)) =~= encode_utf8(text) + seq![47u8]
        + encode_utf8(name));
}

proof fn lemma_small_numerals()
    ensures
        numeral(64) == "64"@,
        numeral(100_000) == "100000"@,
        " "@ + "100000"@ == " 100000"@,
{
    reveal_strlit("64");
    reveal_strlit("100000");
    reveal_strlit(" ");
    reveal_strlit(" 100000");
    reveal_with_fuel(numeral, 7);
    assert(numeral(64) =~= "64"@);
    assert(numeral(100_000) =~= "100000"@);
    assert(" "@ + "100000"@ =~= " 100000"@);
}

/// The limits asked for are refused exactly where the memory limit cannot be read
/// or the CPU limit is not above zero; the memory limit comes first, with the
/// reason why it cannot be read.
pub proof fn limits_are_refused_for_a_reason(options: OptionsModel)
    ensures
        limit_fault(options) is None <==> {
            &&& options.memory is None || size_in_bytes(options.memory->0) is Ok
            &&& options.cpu is None || Float::of_bits(options.cpu->0).positive()
        },
        options.memory is Some && size_in_bytes(options.memory->0) is Err ==> limit_fault(options)
            == Some(Fault::MemoryLimit { error: size_in_bytes(options.memory->0)->Err_0 }),
        (options.memory is None || size_in_bytes(options.memory->0) is Ok) && options.cpu is Some
            && !Float::of_bits(options.cpu->0).positive() ==> limit_fault(options) == Some(
            Fault::CpuLimitNotPositive,
        ),
{
}

/// The process is put into a cgroup that is named after it before anything is
/// limited, whatever the limits.
pub proof fn a_process_gets_a_cgroup_of_its_own(pid: i32, options: OptionsModel)
    ensures
        limit_steps(pid, options).len() >= 2,
        limit_steps(pid, options)[0] == (StepModel {
            stage: Stage::CreateCgroup,
            action: ActionModel::CreateDirAll { path: in_cgroup(pid as int, ""@) },
            required: true,
        }),
        limit_steps(pid, options)[1] == (StepModel {
            stage: Stage::AddProcess,
            action: ActionModel::WriteFile {
                path: in_cgroup(pid as int, "/cgroup.procs"@),
                contents: pid_text(pid as int),
            },
            required: true,
        }),
{
    reveal_strlit("cgroup.procs");
    reveal_strlit("/cgroup.procs");
    assert("/cgroup.procs"@ =~= seq!['/'] + "cgroup.procs"@);
    lemma_cgroup_path_end(pid);
    lemma_cgroup_file(pid, "cgroup.procs"@, "/cgroup.procs"@);
    only_negative_numbers_have_a_sign(pid as int);
}

/// A memory limit is written as a number of bytes, and swap is capped at zero,
/// whatever the other limits. Only the limit itself has to succeed.
pub proof fn a_memory_limit_is_written(pid: i32, options: OptionsModel, limit: u64)
    requires
        options.memory is Some,
        size_in_bytes(options.memory->0) == Ok::<u64, SizeFault>(limit),
    ensures
        limit_steps(pid, options).len() >= 4,
        limit_steps(pid, options)[2] == (StepModel {
            stage: Stage::LimitMemory,
            action: ActionModel::WriteFile {
                path: in_cgroup(pid as int, "/memory.max"@),
                contents: numeral(limit as nat),
            },
            required: true,
        }),
        limit_steps(pid, options)[3] == (StepModel {
            stage: Stage::CapSwap,
            action: ActionModel::WriteFile {
                path: in_cgroup(pid as int, "/memory.swap.max"@),
                contents: "0"@,
            },
            required: false,
        }),
{
    reveal_strlit("memory.max");
    reveal_strlit("/memory.max");
    assert("/memory.max"@ =~= seq!['/'] + "memory.max"@);
    reveal_strlit("memory.swap.max");
    reveal_strlit("/memory.swap.max");
    assert("/memory.swap.max"@ =~= seq!['/'] + "memory.swap.max"@);
    lemma_cgroup_file(pid, "memory.max"@, "/memory.max"@);
    lemma_cgroup_file(pid, "memory.swap.max"@, "/memory.swap.max"@);
}

/// A CPU limit is written, whatever the other limits, as a number of microseconds
/// out of 100000: the fraction times 100000, as a whole number.
pub proof fn a_cpu_limit_is_written(pid: i32, options: OptionsModel, bits: u64)
    requires
        options.cpu == Some(bits),
        Float::of_bits(bits).positive(),
        options.memory is None || size_in_bytes(options.memory->0) is Ok,
    ensures
        limit_steps(pid, options).len() > 2 + memory_count(options),
        limit_steps(pid, options)[2 + memory_count(options)] == (StepModel {
            stage: Stage::LimitCpu,
            action: ActionModel::WriteFile {
                path: in_cgroup(pid as int, "/cpu.max"@),
                contents: numeral(Float::of_bits(bits).product(100_000).nearest() as nat)
                    + " 100000"@,
            },
            required: true,
        }),
{
    reveal_strlit("cpu.max");
    reveal_strlit("/cpu.max");
    assert("/cpu.max"@ =~= seq!['/'] + "cpu.max"@);
    lemma_cgroup_file(pid, "cpu.max"@, "/cpu.max"@);
    lemma_small_numerals();
    let quota = numeral(Float::of_bits(bits).product(CPU_PERIOD_US as nat).nearest() as nat);
    assert(quota + " "@ + "100000"@ =~= quota + (" "@ + "100000"@));
}

/// The cap on the number of processes is written last, whatever the other limits:
/// what was asked for, or 64.
pub proof fn a_process_limit_is_written(pid: i32, options: OptionsModel)
    requires
        options.memory is None || size_in_bytes(options.memory->0) is Ok,
        options.cpu is None || Float::of_bits(options.cpu->0).positive(),
    ensures
        limit_steps(pid, options).len() > 2,
        limit_steps(pid, options).last() == (StepModel {
            stage: Stage::LimitPids,
            action: ActionModel::WriteFile {
                path: in_cgroup(pid as int, "/pids.max"@),
                contents: match options.max_pids {
                    Some(n) => numeral(n as nat),
                    None => "64"@,
                },
            },
            required: true,
        }),
{
    reveal_strlit("pids.max");
    reveal_strlit("/pids.max");
    assert("/pids.max"@ =~= seq!['/'] + "pids.max"@);
    lemma_cgroup_file(pid, "pids.max"@, "/pids.max"@);
    lemma_small_numerals();
}

/// Nothing is limited that was not asked for, but the number of processes; and of
/// what comes after a limit that cannot be set, nothing is.
pub proof fn nothing_else_is_limited(pid: i32, options: OptionsModel)
    ensures
        memory_is_fine(options) && cpu_is_fine(options) ==> limit_steps(pid, options).len() == 3
            + memory_count(options) + cpu_count(options),
        memory_is_fine(options) && !cpu_is_fine(options) ==> limit_steps(pid, options).len() == 2
            + memory_count(options),
        !memory_is_fine(options) ==> limit_steps(pid, options).len() == 2,
{
}

/// All that is written to limit a container whose limits can be set.
pub open spec fn all_limits(pid: int, options: OptionsModel) -> Seq<StepModel> {
    limits_before_cpu(pid, options) + (match options.cpu {
        None => Seq::empty(),
        Some(bits) => seq![
            written(
                Stage::LimitCpu,
                pid,
                "/cpu.max"@,
                numeral(Float::of_bits(bits).product(100_000).nearest() as nat) + " 100000"@,
                true,
            ),
        ],
    }) + seq![
        written(
            Stage::LimitPids,
            pid,
            "/pids.max"@,
            match options.max_pids {
                Some(n) => numeral(n as nat),
                None => "64"@,
            },
            true,
        ),
    ]
}

/// What is written before the CPU limit.
pub open spec fn limits_before_cpu(pid: int, options: OptionsModel) -> Seq<StepModel> {
    seq![
        StepModel {
            stage: Stage::CreateCgroup,
            action: ActionModel::CreateDirAll { path: in_cgroup(pid, ""@) },
            required: true,
        },
        written(Stage::AddProcess, pid, "/cgroup.procs"@, pid_text(pid), true),
    ] + match options.memory {
        None => Seq::empty(),
        Some(memory) => seq![
            written(
                Stage::LimitMemory,
                pid,
                "/memory.max"@,
                numeral(size_in_bytes(memory)->Ok_0 as nat),
                true,
            ),
            written(Stage::CapSwap, pid, "/memory.swap.max"@, "0"@, false),
        ],
    }
}

/// The steps that limit a container, one after another.
pub proof fn lemma_all_limits(pid: i32, options: OptionsModel)
    requires
        memory_is_fine(options),
        cpu_is_fine(options),
    ensures
        limit_steps(pid, options) == all_limits(pid as int, options),
{
    let steps = limit_steps(pid, options);
    nothing_else_is_limited(pid, options);
    a_process_gets_a_cgroup_of_its_own(pid, options);
    if options.memory is Some {
        a_memory_limit_is_written(pid, options, size_in_bytes(options.memory->0)->Ok_0);
    }
    if options.cpu is Some {
        a_cpu_limit_is_written(pid, options, options.cpu->0);
    }
    a_process_limit_is_written(pid, options);
    assert(steps =~= all_limits(pid as int, options));
}

/// The steps up to a CPU limit that cannot be set.
pub proof fn lemma_limits_before_cpu(pid: i32, options: OptionsModel)
    requires
        memory_is_fine(options),
        !cpu_is_fine(options),
    ensures
        limit_steps(pid, options) == limits_before_cpu(pid as int, options),
{
    nothing_else_is_limited(pid, options);
    a_process_gets_a_cgroup_of_its_own(pid, options);
    if options.memory is Some {
        a_memory_limit_is_written(pid, options, size_in_bytes(options.memory->0)->Ok_0);
    }
    assert(limit_steps(pid, options) =~= limits_before_cpu(pid as int, options));
}

/// The process id is the one that the system gave, with the same 32 bits.
pub proof fn process_ids_are_kept(id: u32)
    ensures
        id < 0x8000_0000 ==> pid_of(id) == id,
        id >= 0x8000_0000 ==> pid_of(id) == id - 0x1_0000_0000,
{
}

/// The program runs itself again as `child-init`, with the rootfs and every word
/// of the command in its place, in new PID, UTS, mount and IPC namespaces.
pub proof fn the_program_is_run_again(rootfs: Seq<u8>, command: Seq<Seq<char>>)
    ensures
        ({
            let step = spawn_step(rootfs, command);
            &&& step.stage == Stage::Spawn
            &&& step.required
            &&& step.action matches ActionModel::Spawn { arguments, namespaces }
            &&& namespaces.pid && namespaces.uts && namespaces.mount && namespaces.ipc
            &&& arguments.len() == 4 + command.len()
            &&& arguments[0] == encode_utf8("child-init"@)
            &&& arguments[1] == encode_utf8("--rootfs"@)
            &&& arguments[2] == rootfs
            &&& arguments[3] == encode_utf8("--"@)
            &&& forall|i: int|
                0 <= i < command.len() ==> #[trigger] arguments[4 + i] == encode_utf8(command[i])
        }),
{
    let step = spawn_step(rootfs, command);
    let arguments = step.action->Spawn_arguments;
    assert forall|i: int| 0 <= i < command.len() implies #[trigger] arguments[4 + i]
        == encode_utf8(command[i]) by {}
}

/// Where the old root appears while the root is swapped.
pub open spec fn old_root_in(rootfs: Seq<u8>) -> Seq<u8> {
    if rootfs.len() == 0 {
        encode_utf8(".old_root"@)
    } else if rootfs.last() == 47 {
        rootfs + encode_utf8(".old_root"@)
    } else {
        rootfs + seq![47u8] + encode_utf8(".old_root"@)
    }
}

/// The root is swapped for `rootfs`, bound onto itself with all that is mounted
/// below it; the old root is put inside, left behind, detached and removed. All of
/// that has to succeed.
pub proof fn the_root_is_swapped(rootfs: Seq<u8>)
    ensures
        pivot_steps(rootfs) == seq![
            StepModel {
                stage: Stage::BindRootfs,
                action: ActionModel::Mount {
                    source: Some(rootfs),
                    target: rootfs,
                    filesystem: None,
                    flags: MountFlags { private: false, recursive: true, bind: true },
                },
                required: true,
            },
            StepModel {
                stage: Stage::CreateOldRoot,
                action: ActionModel::CreateDirAll { path: old_root_in(rootfs) },
                required: true,
            },
            StepModel {
                stage: Stage::PivotRoot,
                action: ActionModel::PivotRoot { new_root: rootfs, put_old: old_root_in(rootfs) },
                required: true,
            },
            StepModel {
                stage: Stage::EnterNewRoot,
                action: ActionModel::ChangeDir { path: encode_utf8("/"@) },
                required: true,
            },
            StepModel {
                stage: Stage::DetachOldRoot,
                action: ActionModel::Detach { target: encode_utf8("/.old_root"@) },
                required: true,
            },
            StepModel {
                stage: Stage::RemoveOldRoot,
                action: ActionModel::RemoveDir { path: encode_utf8("/.old_root"@) },
                required: true,
            },
        ],
{
    paths_are_joined_by_one_slash(rootfs, bytes(".old_root"@));
}

/// The virtual filesystems `proc` and `sysfs` are mounted at `/proc` and `/sys`,
/// which are created where they are missing; only the mounts have to succeed.
pub proof fn proc_and_sys_are_mounted()
    ensures
        proc_and_sys_steps() == seq![
            StepModel {
                stage: Stage::CreateProc,
                action: ActionModel::CreateDirAll { path: encode_utf8("/proc"@) },
                required: false,
            },
            StepModel {
                stage: Stage::MountProc,
                action: ActionModel::Mount {
                    source: Some(encode_utf8("proc"@)),
                    target: encode_utf8("/proc"@),
                    filesystem: Some("proc"@),
                    flags: MountFlags { private: false, recursive: false, bind: false },
                },
                required: true,
            },
            StepModel {
                stage: Stage::CreateSys,
                action: ActionModel::CreateDirAll { path: encode_utf8("/sys"@) },
                required: false,
            },
            StepModel {
                stage: Stage::MountSys,
                action: ActionModel::Mount {
                    source: Some(encode_utf8("sysfs"@)),
                    target: encode_utf8("/sys"@),
                    filesystem: Some("sysfs"@),
                    flags: MountFlags { private: false, recursive: false, bind: false },
                },
                required: true,
            },
        ],
{
}

/// A command is refused where there is none, where its program holds a NUL, or
/// where one of its arguments does, in this order of precedence; no other command
/// is refused.
pub proof fn commands_are_refused_for_a_reason(command: Seq<Seq<char>>)
    ensures
        command.len() == 0 ==> command_fault(command) == Some(Fault::NoCommand),
        command.len() > 0 && command[0].contains('\0') ==> command_fault(command) == Some(
            Fault::NulInCommand,
        ),
        command.len() > 0 && !command[0].contains('\0') && (exists|i: int|
            0 <= i < command.len() && #[trigger] command[i].contains('\0')) ==> command_fault(
            command,
        ) == Some(Fault::NulInArgument),
        command.len() > 0 && (forall|i: int|
            0 <= i < command.len() ==> !#[trigger] command[i].contains('\0')) ==> command_fault(
            command,
        ) is None,
{
    if exists|i: int| 0 <= i < command.len() && #[trigger] command[i].contains('\0') {
        let i = choose|i: int| 0 <= i < command.len() && #[trigger] command[i].contains('\0');
        assert(has_nul(command[i]));
    }
    if forall|i: int| 0 <= i < command.len() ==> !#[trigger] command[i].contains('\0') {
        assert forall|i: int| 0 <= i < command.len() implies !has_nul(
            #[trigger] command[i],
        ) by {
            assert(!command[i].contains('\0'));
        }
    }
}

/// A command is executed with its first word for a program and with every word for
/// an argument, none left out and none changed.
pub proof fn every_word_is_executed(command: Seq<Seq<char>>)
    ensures
        ({
            let step = execute_step(command);
            &&& step.stage == Stage::ExecuteCommand
            &&& step.required
            &&& step.action matches ActionModel::Execute { program, words }
            &&& program == command[0]
            &&& words.len() == command.len()
            &&& forall|i: int| 0 <= i < command.len() ==> #[trigger] words[i] == command[i]
        }),
{
}

/// An exit status is relayed as it is, and a process that a signal killed counts as
/// one that exited with 128 and the number of the signal; anything else counts as
/// failed.
pub proof fn exit_statuses_are_relayed(code: i32, signal: u8)
    ensures
        exit_code(WaitOutcome::Exited { code }) == code,
        exit_code(WaitOutcome::Signaled { signal }) == 128 + signal,
        exit_code(WaitOutcome::Other) == 1,
        relayed(Some(code)) == code,
        relayed(None) == 1,
{
}

/// The path of a file in a directory: a slash stands between the two unless the
/// directory ends in one or is empty.
pub open spec fn file_in(dir: Seq<u8>, name: Seq<char>) -> Seq<u8> {
    if dir.len() == 0 || dir.last() == 47 {
        dir + encode_utf8(name)
    } else {
        dir + seq![47u8] + encode_utf8(name)
    }
}

/// In whatever directory a limit is set, what is written is the limit, to the file
/// that is named after it.
pub proof fn limits_are_written_in_any_directory(
    stage: Stage,
    dir: Seq<u8>,
    name: Seq<char>,
    contents: Seq<char>,
    required: bool,
    limit: u64,
    fraction: Float,
)
    ensures
        write_step(stage, dir, name, contents, required) == (StepModel {
            stage,
            action: ActionModel::WriteFile { path: file_in(dir, name), contents },
            required,
        }),
        memory_steps(dir, limit) == seq![
            StepModel {
                stage: Stage::LimitMemory,
                action: ActionModel::WriteFile {
                    path: file_in(dir, "memory.max"@),
                    contents: numeral(limit as nat),
                },
                required: true,
            },
            StepModel {
                stage: Stage::CapSwap,
                action: ActionModel::WriteFile {
                    path: file_in(dir, "memory.swap.max"@),
                    contents: "0"@,
                },
                required: false,
            },
        ],
        cpu_step(dir, fraction) == (StepModel {
            stage: Stage::LimitCpu,
            action: ActionModel::WriteFile {
                path: file_in(dir, "cpu.max"@),
                contents: numeral(fraction.product(100_000).nearest() as nat) + " 100000"@,
            },
            required: true,
        }),
{
    paths_are_joined_by_one_slash(dir, bytes(name));
    paths_are_joined_by_one_slash(dir, bytes("memory.max"@));
    paths_are_joined_by_one_slash(dir, bytes("memory.swap.max"@));
    paths_are_joined_by_one_slash(dir, bytes("cpu.max"@));
    if dir.len() == 0 {
        assert(dir + bytes(name) =~= bytes(name));
        assert(dir + bytes("memory.max"@) =~= bytes("memory.max"@));
        assert(dir + bytes("memory.swap.max"@) =~= bytes("memory.swap.max"@));
        assert(dir + bytes("cpu.max"@) =~= bytes("cpu.max"@));
    }
    lemma_small_numerals();
    let quota = numeral(fraction.product(CPU_PERIOD_US as nat).nearest() as nat);
    assert(quota + " "@ + "100000"@ =~= quota + (" "@ + "100000"@));
}

/// A cgroup's directory is named after its process.
pub proof fn cgroups_are_named_after_their_process(pid: i32)
    ensures
        cgroup_path(pid) == encode_utf8("/sys/fs/cgroup/sorby_"@ + pid_text(pid as int)),
{
    lemma_cgroup_path_end(pid);
    reveal_strlit("");
    let text = "/sys/fs/cgroup/sorby_"@ + pid_text(pid as int);
    assert(text + ""@ =~= text);
}

} // verus!
