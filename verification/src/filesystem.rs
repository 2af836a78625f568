//! Filesystem sandboxing: `pivot_root` into the container's rootfs, and fresh,
//! namespace-scoped `/proc` and `/sys`.
use vstd::prelude::*;

use crate::action::{
    all_steps, bytes, copy_bytes, join, joined, Action, ActionModel, MountFlags, Stage, Step,
    StepModel,
};

verus! {

/// A required step.
pub open spec fn required(stage: Stage, action: ActionModel) -> StepModel {
    StepModel { stage, action, required: true }
}

/// The step that marks the mount tree as private.
pub open spec fn private_step() -> StepModel {
    required(
        Stage::MakeRootPrivate,
        ActionModel::Mount {
            source: None,
            target: bytes("/"@),
            filesystem: None,
            flags: MountFlags { private: true, recursive: true, bind: false },
        },
    )
}

/// Marks the whole mount tree as private, so that mount and unmount events
/// inside the container's mount namespace never propagate back out to the
/// host, and vice versa.
pub fn make_root_private() -> (step: Step)
    ensures
        step@ == private_step(),
{
    Step {
        stage: Stage::MakeRootPrivate,
        action: Action::Mount {
            source: None,
            target: "/".as_bytes_vec(),
            filesystem: None,
            flags: MountFlags { private: true, recursive: true, bind: false },
        },
        required: true,
    }
}

/// The steps that make `rootfs` the root and leave nothing of the old one: a
/// new root has to be a mount point, so `rootfs` is mounted onto itself; the
/// old root appears in it, and once the working directory has left the old
/// root, that is detached and its mount point removed.
pub open spec fn pivot_steps(rootfs: Seq<u8>) -> Seq<StepModel> {
    let staging = joined(rootfs, bytes(".old_root"@));
    let old_root = bytes("/.old_root"@);
    seq![
        required(
            Stage::BindRootfs,
            ActionModel::Mount {
                source: Some(rootfs),
                target: rootfs,
                filesystem: None,
                flags: MountFlags { private: false, recursive: true, bind: true },
            },
        ),
        required(Stage::CreateOldRoot, ActionModel::CreateDirAll { path: staging }),
        required(Stage::PivotRoot, ActionModel::PivotRoot { new_root: rootfs, put_old: staging }),
        required(Stage::EnterNewRoot, ActionModel::ChangeDir { path: bytes("/"@) }),
        required(Stage::DetachOldRoot, ActionModel::Detach { target: old_root }),
        required(Stage::RemoveOldRoot, ActionModel::RemoveDir { path: old_root }),
    ]
}

/// Swaps the root filesystem to `rootfs`, a canonical path, using `pivot_root`,
/// which (unlike `chroot`) changes the root mount itself, so that the old root
/// can be detached entirely.
pub fn pivot_root_into(rootfs: &Vec<u8>) -> (steps: Vec<Step>)
    ensures
        all_steps(steps@) == pivot_steps(rootfs@),
{
    let mut steps: Vec<Step> = Vec::new();
    steps.push(
        Step {
            stage: Stage::BindRootfs,
            action: Action::Mount {
                source: Some(copy_bytes(rootfs)),
                target: copy_bytes(rootfs),
                filesystem: None,
                flags: MountFlags { private: false, recursive: true, bind: true },
            },
            required: true,
        },
    );
    steps.push(
        Step {
            stage: Stage::CreateOldRoot,
            action: Action::CreateDirAll { path: join(rootfs, ".old_root") },
            required: true,
        },
    );
    steps.push(
        Step {
            stage: Stage::PivotRoot,
            action: Action::PivotRoot {
                new_root: copy_bytes(rootfs),
                put_old: join(rootfs, ".old_root"),
            },
            required: true,
        },
    );
    steps.push(
        Step {
            stage: Stage::EnterNewRoot,
            action: Action::ChangeDir { path: "/".as_bytes_vec() },
            required: true,
        },
    );
    steps.push(
        Step {
            stage: Stage::DetachOldRoot,
            action: Action::Detach { target: "/.old_root".as_bytes_vec() },
            required: true,
        },
    );
    steps.push(
        Step {
            stage: Stage::RemoveOldRoot,
            action: Action::RemoveDir { path: "/.old_root".as_bytes_vec() },
            required: true,
        },
    );
    assert(all_steps(steps@) =~= pivot_steps(rootfs@));
    steps
}

/// The step that mounts the virtual filesystem `kind` at `target`.
pub open spec fn virtual_mount(stage: Stage, kind: Seq<char>, target: Seq<char>) -> StepModel {
    required(
        stage,
        ActionModel::Mount {
            source: Some(bytes(kind)),
            target: bytes(target),
            filesystem: Some(kind),
            flags: MountFlags { private: false, recursive: false, bind: false },
        },
    )
}

/// The step that sees to it that a mount point exists; it may be there already.
pub open spec fn mount_point(stage: Stage, path: Seq<char>) -> StepModel {
    StepModel {
        stage,
        action: ActionModel::CreateDirAll { path: bytes(path) },
        required: false,
    }
}

/// The steps that mount `/proc` and `/sys`.
pub open spec fn proc_and_sys_steps() -> Seq<StepModel> {
    seq![
        mount_point(Stage::CreateProc, "/proc"@),
        virtual_mount(Stage::MountProc, "proc"@, "/proc"@),
        mount_point(Stage::CreateSys, "/sys"@),
        virtual_mount(Stage::MountSys, "sysfs"@, "/sys"@),
    ]
}

fn mount_virtual(stage: Stage, kind: &str, target: &str) -> (step: Step)
    ensures
        step@ == virtual_mount(stage, kind@, target@),
{
    Step {
        stage,
        action: Action::Mount {
            source: Some(kind.as_bytes_vec()),
            target: target.as_bytes_vec(),
            filesystem: Some(kind.to_owned()),
            flags: MountFlags { private: false, recursive: false, bind: false },
        },
        required: true,
    }
}

fn create_mount_point(stage: Stage, path: &str) -> (step: Step)
    ensures
        step@ == mount_point(stage, path@),
{
    Step { stage, action: Action::CreateDirAll { path: path.as_bytes_vec() }, required: false }
}

/// Mounts fresh `/proc` and `/sys` inside the container. To be done *after* the
/// process is running inside the new PID namespace, since `/proc` reflects the
/// caller's own PID namespace.
pub fn mount_proc_and_sys() -> (steps: Vec<Step>)
    ensures
        all_steps(steps@) == proc_and_sys_steps(),
{
    let mut steps: Vec<Step> = Vec::new();
    steps.push(create_mount_point(Stage::CreateProc, "/proc"));
    steps.push(mount_virtual(Stage::MountProc, "proc", "/proc"));
    steps.push(create_mount_point(Stage::CreateSys, "/sys"));
    steps.push(mount_virtual(Stage::MountSys, "sysfs", "/sys"));
    assert(all_steps(steps@) =~= proc_and_sys_steps());
    steps
}

} // verus!
