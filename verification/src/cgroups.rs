//! Cgroups v2 resource limiting.
use vstd::prelude::*;

use crate::action::{
    all_steps, bytes, copy_bytes, join, joined, Action, ActionModel, Error, Fault, Stage, Step,
    StepModel,
};
use crate::float::Float;
use crate::literal::{float_literal, parse_float};
use crate::text::{
    capital, digit, is_digit, numeral, signed_numeral, to_capital, to_decimal, to_signed_decimal,
    trim, trimmed,
};

verus! {

/// Why a size was refused.
#[derive(Debug, PartialEq, Eq)]
pub enum SizeError {
    /// There is nothing but white space.
    Empty,
    /// The last character is neither a digit nor a known suffix; it is given
    /// as a capital, with the whole size.
    UnrecognizedSuffix { suffix: char, size: String },
    /// What stands before the suffix is no number.
    InvalidNumber { number: String },
    /// The number is zero, negative or not a number.
    NotPositive,
}

/// What a [`SizeError`] says.
pub enum SizeFault {
    Empty,
    UnrecognizedSuffix { suffix: char, size: Seq<char> },
    InvalidNumber { number: Seq<char> },
    NotPositive,
}

impl View for SizeError {
    type V = SizeFault;

    open spec fn view(&self) -> SizeFault {
        match self {
            SizeError::Empty => SizeFault::Empty,
            SizeError::UnrecognizedSuffix { suffix, size } => SizeFault::UnrecognizedSuffix {
                suffix: *suffix,
                size: size@,
            },
            SizeError::InvalidNumber { number } => SizeFault::InvalidNumber { number: number@ },
            SizeError::NotPositive => SizeFault::NotPositive,
        }
    }
}

/// How many bytes the unit that `last` names holds, `last` being the last
/// character of a size: a suffix in either case, or a digit for plain bytes.
pub open spec fn unit(last: char) -> Option<nat> {
    if capital(last) == 'G' {
        Some(1024 * 1024 * 1024)
    } else if capital(last) == 'M' {
        Some(1024 * 1024)
    } else if capital(last) == 'K' {
        Some(1024)
    } else if capital(last) == 'B' || digit(last) {
        Some(1)
    } else {
        None
    }
}

/// How many bytes the size `s` stands for, or why it is refused: the number
/// before the suffix times the unit, in double precision, without its
/// fraction and at most the largest 64-bit number.
pub open spec fn size_in_bytes(s: Seq<char>) -> Result<u64, SizeFault> {
    let size = trimmed(s);
    if size.len() == 0 {
        Err(SizeFault::Empty)
    } else {
        match unit(size.last()) {
            None => Err(SizeFault::UnrecognizedSuffix { suffix: capital(size.last()), size }),
            Some(bytes) => {
                let number = if digit(size.last()) {
                    size
                } else {
                    size.drop_last()
                };
                match float_literal(number) {
                    None => Err(SizeFault::InvalidNumber { number }),
                    Some(value) => if value.positive() {
                        Ok(value.product(bytes).truncated())
                    } else {
                        Err(SizeFault::NotPositive)
                    },
                }
            },
        }
    }
}

/// Parses sizes like "50M", "1.5G", "2048K", or a plain byte count into bytes.
pub fn parse_size_to_bytes(s: &str) -> (result: Result<u64, SizeError>)
    ensures
        match result {
            Ok(bytes) => size_in_bytes(s@) == Ok::<u64, SizeFault>(bytes),
            Err(error) => size_in_bytes(s@) == Err::<u64, SizeFault>(error@),
        },
{
    let size = trim(s);
    let n: usize = size.unicode_len();
    if n == 0 {
        return Err(SizeError::Empty);
    }
    let last: char = size.get_char(n - 1);
    let suffix: char = to_capital(last);
    let multiplier: u32 = if suffix == 'G' {
        1024 * 1024 * 1024
    } else if suffix == 'M' {
        1024 * 1024
    } else if suffix == 'K' {
        1024
    } else if suffix == 'B' || is_digit(last) {
        1
    } else {
        return Err(SizeError::UnrecognizedSuffix { suffix, size: size.to_owned() });
    };
    let end: usize = if is_digit(last) {
        n
    } else {
        n - 1
    };
    let number = size.substring_char(0, end);
    proof {
        if digit(last) {
            assert(number@ =~= size@);
        } else {
            assert(number@ =~= size@.drop_last());
        }
    }
    match parse_float(number) {
        None => Err(SizeError::InvalidNumber { number: number.to_owned() }),
        Some(value) => {
            if value.is_positive() {
                Ok(value.times(multiplier).truncate())
            } else {
                Err(SizeError::NotPositive)
            }
        },
    }
}

/// A step that writes `contents` to the file `name` of the directory `dir`.
pub open spec fn write_step(
    stage: Stage,
    dir: Seq<u8>,
    name: Seq<char>,
    contents: Seq<char>,
    required: bool,
) -> StepModel {
    StepModel {
        stage,
        action: ActionModel::WriteFile { path: joined(dir, bytes(name)), contents },
        required,
    }
}

/// A step that writes `contents` to the file `name` of the directory `dir`.
fn write_file(stage: Stage, dir: &Vec<u8>, name: &str, contents: String, required: bool) -> (result:
    Step)
    ensures
        result@ == write_step(stage, dir@, name@, contents@, required),
{
    Step { stage, action: Action::WriteFile { path: join(dir, name), contents }, required }
}

/// The file in which the controllers of the root cgroup's children are enabled.
pub open spec fn subtree_control() -> Seq<u8> {
    bytes("/sys/fs/cgroup/cgroup.subtree_control"@)
}

/// Enables the memory, cpu and pids controllers for children of the root
/// cgroup: without that, limits written in a child have no effect. It may
/// already have been done, or fail harmlessly, so nothing depends on it.
pub fn enable_controllers() -> (step: Step)
    ensures
        step@ == (StepModel {
            stage: Stage::EnableControllers,
            action: ActionModel::WriteFile {
                path: subtree_control(),
                contents: "+memory +cpu +pids"@,
            },
            required: false,
        }),
{
    Step {
        stage: Stage::EnableControllers,
        action: Action::WriteFile {
            path: "/sys/fs/cgroup/cgroup.subtree_control".as_bytes_vec(),
            contents: "+memory +cpu +pids".to_owned(),
        },
        required: false,
    }
}

/// The directory of the cgroup for the process `pid`.
pub open spec fn cgroup_path(pid: i32) -> Seq<u8> {
    bytes("/sys/fs/cgroup/sorby_"@ + signed_numeral(pid as int))
}

/// The directory of the cgroup for the process `pid`.
pub fn cgroup_dir(pid: i32) -> (dir: Vec<u8>)
    ensures
        dir@ == cgroup_path(pid),
{
    let mut path = "/sys/fs/cgroup/sorby_".to_owned();
    let digits = to_signed_decimal(pid);
    path.append(digits.as_str());
    path.as_str().as_bytes_vec()
}

/// Creates `/sys/fs/cgroup/sorby_<pid>`.
pub fn create_cgroup(pid: i32) -> (step: Step)
    ensures
        step@ == (StepModel {
            stage: Stage::CreateCgroup,
            action: ActionModel::CreateDirAll { path: cgroup_path(pid) },
            required: true,
        }),
{
    Step {
        stage: Stage::CreateCgroup,
        action: Action::CreateDirAll { path: cgroup_dir(pid) },
        required: true,
    }
}

/// Moves `pid` into the given cgroup.
pub fn add_process(dir: &Vec<u8>, pid: i32) -> (step: Step)
    ensures
        step@ == write_step(
            Stage::AddProcess,
            dir@,
            "cgroup.procs"@,
            signed_numeral(pid as int),
            true,
        ),
{
    write_file(Stage::AddProcess, dir, "cgroup.procs", to_signed_decimal(pid), true)
}

/// The steps that limit memory to `limit` bytes.
pub open spec fn memory_steps(dir: Seq<u8>, limit: u64) -> Seq<StepModel> {
    seq![
        write_step(Stage::LimitMemory, dir, "memory.max"@, numeral(limit as nat), true),
        write_step(Stage::CapSwap, dir, "memory.swap.max"@, "0"@, false),
    ]
}

/// Sets a hard memory ceiling, e.g. "50M", "1.5G", "1024K", or a bare byte count.
///
/// Swap is capped at zero too: with swap, a container that exceeds its ceiling
/// has its pages moved there, and the ceiling seems to do nothing. Some kernels
/// have no such file, so that step may fail.
pub fn set_memory_limit(dir: &Vec<u8>, memory: &str) -> (result: Result<Vec<Step>, SizeError>)
    ensures
        match result {
            Ok(steps) => {
                &&& size_in_bytes(memory@) is Ok
                &&& all_steps(steps@) == memory_steps(dir@, size_in_bytes(memory@)->Ok_0)
            },
            Err(error) => size_in_bytes(memory@) == Err::<u64, SizeFault>(error@),
        },
{
    match parse_size_to_bytes(memory) {
        Err(error) => Err(error),
        Ok(limit) => {
            let mut steps: Vec<Step> = Vec::new();
            steps.push(write_file(Stage::LimitMemory, dir, "memory.max", to_decimal(limit), true));
            steps.push(
                write_file(Stage::CapSwap, dir, "memory.swap.max", "0".to_owned(), false),
            );
            assert(all_steps(steps@) =~= memory_steps(dir@, limit));
            Ok(steps)
        },
    }
}

/// The accounting period of CPU bandwidth, in microseconds.
pub const CPU_PERIOD_US: u32 = 100_000;

/// The share of the accounting period that a fraction of one core comes to, in
/// whole microseconds.
pub open spec fn cpu_quota(fraction_of_core: Float) -> u64 {
    fraction_of_core.product(CPU_PERIOD_US as nat).nearest()
}

/// The step that limits CPU bandwidth to a fraction of one core.
pub open spec fn cpu_step(dir: Seq<u8>, fraction_of_core: Float) -> StepModel {
    write_step(
        Stage::LimitCpu,
        dir,
        "cpu.max"@,
        numeral(cpu_quota(fraction_of_core) as nat) + " "@ + numeral(CPU_PERIOD_US as nat),
        true,
    )
}

/// Sets a CPU bandwidth limit as a fraction of one core (e.g. 0.2 == 20%),
/// using a 100ms accounting period: quota = fraction * period.
pub fn set_cpu_limit(dir: &Vec<u8>, fraction_of_core: Float) -> (result: Result<Step, Error>)
    requires
        fraction_of_core.well_formed(),
    ensures
        match result {
            Ok(step) => fraction_of_core.positive() && step@ == cpu_step(dir@, fraction_of_core),
            Err(error) => !fraction_of_core.positive() && error@ == Fault::CpuLimitNotPositive,
        },
{
    if !fraction_of_core.is_positive() {
        return Err(Error::CpuLimitNotPositive);
    }
    let quota: u64 = fraction_of_core.times(CPU_PERIOD_US).round_to_u64();
    let mut contents = to_decimal(quota);
    contents.append(" ");
    let period = to_decimal(CPU_PERIOD_US as u64);
    contents.append(period.as_str());
    Ok(write_file(Stage::LimitCpu, dir, "cpu.max", contents, true))
}

/// Caps the number of processes in the cgroup, so that a fork bomb fails to
/// fork well before it can take down the host.
pub fn set_pids_limit(dir: &Vec<u8>, max_pids: u64) -> (step: Step)
    ensures
        step@ == write_step(
            Stage::LimitPids,
            dir@,
            "pids.max"@,
            numeral(max_pids as nat),
            true,
        ),
{
    write_file(Stage::LimitPids, dir, "pids.max", to_decimal(max_pids), true)
}

/// Removes the cgroup directory once the container has exited and no processes
/// remain in it.
pub fn cleanup(dir: &Vec<u8>) -> (step: Step)
    ensures
        step@ == (StepModel {
            stage: Stage::RemoveCgroup,
            action: ActionModel::RemoveDir { path: dir@ },
            required: false,
        }),
{
    Step {
        stage: Stage::RemoveCgroup,
        action: Action::RemoveDir { path: copy_bytes(dir) },
        required: false,
    }
}

} // verus!
