//! Namespace isolation via the "self-exec" pattern: the program runs itself
//! again, as `child-init`, and the new process leaves its namespaces before it
//! does anything else.
use vstd::prelude::*;

use crate::action::{
    all_bytes, all_text, bytes, copy_bytes, Action, ActionModel, Namespaces, Stage, Step, StepModel,
};

verus! {

/// New PID, UTS, mount and IPC namespaces.
pub open spec fn isolated() -> Namespaces {
    Namespaces { pid: true, uts: true, mount: true, ipc: true }
}

/// The bytes of each text.
pub open spec fn bytes_of_each(texts: Seq<Seq<char>>) -> Seq<Seq<u8>> {
    texts.map_values(|text: Seq<char>| bytes(text))
}

/// The arguments with which the program runs itself again:
/// `child-init --rootfs <rootfs> -- <command>`.
pub open spec fn child_arguments(rootfs: Seq<u8>, command: Seq<Seq<char>>) -> Seq<Seq<u8>> {
    seq![bytes("child-init"@), bytes("--rootfs"@), rootfs, bytes("--"@)] + bytes_of_each(command)
}

/// The step that starts the container's first process.
pub open spec fn spawn_step(rootfs: Seq<u8>, command: Seq<Seq<char>>) -> StepModel {
    StepModel {
        stage: Stage::Spawn,
        action: ActionModel::Spawn {
            arguments: child_arguments(rootfs, command),
            namespaces: isolated(),
        },
        required: true,
    }
}

/// Spawns `child-init --rootfs <rootfs> -- <command>` inside new PID, mount,
/// UTS, and IPC namespaces.
///
/// A process that leaves its PID namespace does not enter the new one itself:
/// only the processes that it forks from then on do. `child-init` therefore
/// forks once more.
pub fn spawn_isolated(rootfs: &Vec<u8>, command: &Vec<String>) -> (step: Step)
    ensures
        step@ == spawn_step(rootfs@, all_text(command@)),
{
    let mut arguments: Vec<Vec<u8>> = Vec::new();
    arguments.push("child-init".as_bytes_vec());
    arguments.push("--rootfs".as_bytes_vec());
    arguments.push(copy_bytes(rootfs));
    arguments.push("--".as_bytes_vec());
    let ghost head = seq![bytes("child-init"@), bytes("--rootfs"@), rootfs@, bytes("--"@)];
    let ghost tail = bytes_of_each(all_text(command@));
    assert(all_bytes(arguments@) =~= head + tail.take(0));
    let mut i: usize = 0;
    while i < command.len()
        invariant
            i <= command.len(),
            tail == bytes_of_each(all_text(command@)),
            all_bytes(arguments@) == head + tail.take(i as int),
        decreases command.len() - i,
    {
        let ghost before = arguments@;
        arguments.push(command[i].as_str().as_bytes_vec());
        i = i + 1;
        proof {
            assert(all_bytes(arguments@) =~= all_bytes(before).push(bytes(command@[i - 1]@)));
            assert(tail.take(i as int) =~= tail.take(i - 1).push(bytes(command@[i - 1]@)));
            assert(head + tail.take(i as int) =~= (head + tail.take(i - 1)).push(
                bytes(command@[i - 1]@),
            ));
        }
    }
    assert(tail.take(i as int) =~= tail);
    Step {
        stage: Stage::Spawn,
        action: Action::Spawn {
            arguments,
            namespaces: Namespaces { pid: true, uts: true, mount: true, ipc: true },
        },
        required: true,
    }
}

} // verus!
