use sorby::action::{Action, Error, Stage, Step};
use sorby::cgroups::{
    add_process, cgroup_dir, cleanup, create_cgroup, enable_controllers, parse_size_to_bytes,
    set_cpu_limit, set_memory_limit, set_pids_limit, SizeError, CPU_PERIOD_US,
};
use sorby::container::DEFAULT_MAX_PIDS;
use sorby::float::Float;

fn path(text: &str) -> Vec<u8> {
    text.as_bytes().to_vec()
}

fn write(stage: Stage, file: &str, contents: &str, required: bool) -> Step {
    Step {
        stage,
        action: Action::WriteFile { path: path(file), contents: contents.to_string() },
        required,
    }
}

fn share(fraction: f64) -> Float {
    Float::from_bits(fraction.to_bits())
}

/// What is written for a fraction of a core.
fn quota(fraction: f64) -> String {
    let step = set_cpu_limit(&path("/c"), share(fraction)).unwrap();
    match step.action {
        Action::WriteFile { contents, .. } => contents,
        other => panic!("{other:?}"),
    }
}

#[test]
fn controllers_are_enabled_as_far_as_possible() {
    assert_eq!(
        enable_controllers(),
        write(
            Stage::EnableControllers,
            "/sys/fs/cgroup/cgroup.subtree_control",
            "+memory +cpu +pids",
            false,
        ),
    );
}

#[test]
fn a_cgroup_is_named_after_its_process() {
    for pid in [0, 1, 9, 10, 4194304, i32::MAX, -1, -10, i32::MIN] {
        let dir = format!("/sys/fs/cgroup/sorby_{pid}");
        assert_eq!(cgroup_dir(pid), path(&dir));
        assert_eq!(
            create_cgroup(pid),
            Step {
                stage: Stage::CreateCgroup,
                action: Action::CreateDirAll { path: path(&dir) },
                required: true,
            },
        );
        assert_eq!(
            add_process(&path(&dir), pid),
            write(Stage::AddProcess, &format!("{dir}/cgroup.procs"), &pid.to_string(), true),
        );
        assert_eq!(
            cleanup(&path(&dir)),
            Step {
                stage: Stage::RemoveCgroup,
                action: Action::RemoveDir { path: path(&dir) },
                required: false,
            },
        );
    }
}

#[test]
fn files_are_found_in_any_directory() {
    for (dir, file) in [("/a/b", "/a/b/pids.max"), ("/a/", "/a/pids.max"), ("", "pids.max")] {
        assert_eq!(
            set_pids_limit(&path(dir), 7),
            write(Stage::LimitPids, file, "7", true),
        );
    }
}

#[test]
fn a_memory_limit_caps_swap_too() {
    assert_eq!(
        set_memory_limit(&path("/sys/fs/cgroup/sorby_7"), "50M").unwrap(),
        vec![
            write(Stage::LimitMemory, "/sys/fs/cgroup/sorby_7/memory.max", "52428800", true),
            write(Stage::CapSwap, "/sys/fs/cgroup/sorby_7/memory.swap.max", "0", false),
        ],
    );
    assert_eq!(
        set_memory_limit(&path("/c"), "infB").unwrap(),
        vec![
            write(Stage::LimitMemory, "/c/memory.max", "18446744073709551615", true),
            write(Stage::CapSwap, "/c/memory.swap.max", "0", false),
        ],
    );
}

#[test]
fn a_memory_limit_that_is_no_size_is_refused() {
    assert_eq!(set_memory_limit(&path("/c"), ""), Err(SizeError::Empty));
    assert_eq!(
        set_memory_limit(&path("/c"), "lots"),
        Err(SizeError::UnrecognizedSuffix { suffix: 'S', size: "lots".to_string() }),
    );
    assert_eq!(
        set_memory_limit(&path("/c"), "1,5G"),
        Err(SizeError::InvalidNumber { number: "1,5".to_string() }),
    );
    assert_eq!(set_memory_limit(&path("/c"), "-1M"), Err(SizeError::NotPositive));
}

#[test]
fn a_fifth_of_a_core() {
    assert_eq!(CPU_PERIOD_US, 100_000);
    assert_eq!(
        set_cpu_limit(&path("/sys/fs/cgroup/sorby_7"), share(0.2)).unwrap(),
        write(Stage::LimitCpu, "/sys/fs/cgroup/sorby_7/cpu.max", "20000 100000", true),
    );
}

#[test]
fn a_cpu_limit_has_to_be_positive() {
    for fraction in [0.0, -0.0, -0.2, f64::NAN, -f64::NAN, f64::NEG_INFINITY, -5e-324] {
        assert_eq!(
            set_cpu_limit(&path("/c"), share(fraction)),
            Err(Error::CpuLimitNotPositive),
            "{fraction}",
        );
    }
}

#[test]
fn quotas_agree_with_double_precision() {
    let fractions = [
        0.2, 0.1, 0.3, 0.7, 1.0, 1.5, 2.0, 0.000005, 0.0000049999, 0.000015, 0.000025, 0.123456789,
        5e-324, 1e-300, 1e14, 1e15, 184467440737095.0, 184467440737096.0, 1e300,
        f64::MAX, f64::INFINITY, f64::MIN_POSITIVE, 1.0 / 3.0, 0.29, 0.57, 90071992547.40991,
        0.000004999999999999999, 0.00000500000000000001,
    ];
    for fraction in fractions {
        let expected = (fraction * 100_000u64 as f64).round() as u64;
        assert_eq!(quota(fraction), format!("{expected} 100000"), "{fraction}");
    }
    let mut state: u64 = 7;
    for _ in 0..400 {
        state = state.wrapping_mul(6364136223846793005).wrapping_add(1442695040888963407);
        let fraction = f64::from_bits(state >> 1);
        if fraction > 0.0 {
            let expected = (fraction * 100_000u64 as f64).round() as u64;
            assert_eq!(quota(fraction), format!("{expected} 100000"), "{fraction}");
        }
    }
}

#[test]
fn whole_microseconds_are_granted_exactly() {
    for k in 1..=300u64 {
        let fraction: f64 = format!("{k}e-5").parse().unwrap();
        assert_eq!(quota(fraction), format!("{k} 100000"));
        let fraction: f64 = format!("{}.{:05}", k * 31, k * 7).parse().unwrap();
        assert_eq!(quota(fraction), format!("{} 100000", k * 31 * 100_000 + k * 7));
    }
}

#[test]
fn the_number_of_processes_is_capped() {
    assert_eq!(DEFAULT_MAX_PIDS, 64);
    assert_eq!(
        set_pids_limit(&path("/sys/fs/cgroup/sorby_7"), DEFAULT_MAX_PIDS),
        write(Stage::LimitPids, "/sys/fs/cgroup/sorby_7/pids.max", "64", true),
    );
    assert_eq!(
        set_pids_limit(&path("/c"), u64::MAX),
        write(Stage::LimitPids, "/c/pids.max", "18446744073709551615", true),
    );
}

#[test]
fn sizes_do_not_depend_on_space_or_case() {
    for s in ["50M", "1.5G", "2048K", "7B", "2048"] {
        let expected = parse_size_to_bytes(s).unwrap();
        assert_eq!(parse_size_to_bytes(&s.to_lowercase()).unwrap(), expected);
        assert_eq!(parse_size_to_bytes(&format!(" \t{s}\u{a0}\n")).unwrap(), expected);
    }
    assert_eq!(parse_size_to_bytes("2048B"), parse_size_to_bytes("2048"));
}

#[test]
fn sizes_that_come_to_whole_bytes_are_exact() {
    assert_eq!(parse_size_to_bytes("1024K").unwrap(), 1 << 20);
    assert_eq!(parse_size_to_bytes("1.5G").unwrap(), 1_610_612_736);
    assert_eq!(parse_size_to_bytes("0.0009765625M").unwrap(), 1024);
    assert_eq!(parse_size_to_bytes("9007199254740991").unwrap(), (1 << 53) - 1);
    assert_eq!(parse_size_to_bytes("8388607.9990234375G").unwrap(), (1 << 53) - (1 << 20));
    for n in [1, 2, 1023, 1024, 52_428_800, 4_503_599_627_370_497, (1 << 53) - 1] {
        assert_eq!(parse_size_to_bytes(&n.to_string()).unwrap(), n);
    }
}
