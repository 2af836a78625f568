//! That models leave nothing out: each says all that its value holds.
use vstd::prelude::*;

use crate::action::{
    all_bytes, all_steps, all_text, Action, ActionModel, Error, Event, EventModel, Fault, Step,
};
use crate::cgroups::{SizeError, SizeFault};
use crate::container::{Outcome, OutcomeModel, RunOptions};

verus! {

/// Options are taken as they are given.
pub proof fn options_are_taken_as_given(options: RunOptions)
    ensures
        options@.rootfs == options.rootfs@,
        options.memory is None <==> options@.memory is None,
        options.memory is Some ==> options@.memory->0 == options.memory->0@,
        options@.cpu == options.cpu,
        options@.max_pids == options.max_pids,
        options@.command.len() == options.command@.len(),
        forall|i: int|
            0 <= i < options.command@.len() ==> #[trigger] options@.command[i]
                == options.command@[i]@,
{
}

/// The model of several values holds the model of each, in its place.
pub proof fn sequences_are_modelled_one_by_one(
    parts: Seq<Vec<u8>>,
    texts: Seq<String>,
    steps: Seq<Step>,
)
    ensures
        all_bytes(parts).len() == parts.len(),
        forall|i: int| 0 <= i < parts.len() ==> #[trigger] all_bytes(parts)[i] == parts[i]@,
        all_text(texts).len() == texts.len(),
        forall|i: int| 0 <= i < texts.len() ==> #[trigger] all_text(texts)[i] == texts[i]@,
        all_steps(steps).len() == steps.len(),
        forall|i: int| 0 <= i < steps.len() ==> #[trigger] all_steps(steps)[i] == steps[i]@,
{
}

/// The model of a step holds its stage, its action and whether it is required.
pub proof fn steps_are_modelled_in_full(step: Step)
    ensures
        step@.stage == step.stage,
        step@.action == step.action@,
        step@.required == step.required,
{
}

/// The model of an action is of the same kind and holds the same bytes and text.
pub proof fn actions_are_modelled_in_full(action: Action)
    ensures
        action matches Action::Resolve { path } ==> action@ == (ActionModel::Resolve {
            path: path@,
        }),
        action matches Action::CreateDirAll { path } ==> action@ == (ActionModel::CreateDirAll {
            path: path@,
        }),
        action matches Action::WriteFile { path, contents } ==> action@ == (
        ActionModel::WriteFile { path: path@, contents: contents@ }),
        action matches Action::RemoveDir { path } ==> action@ == (ActionModel::RemoveDir {
            path: path@,
        }),
        action matches Action::Spawn { arguments, namespaces } ==> {
            &&& action@ matches ActionModel::Spawn { arguments: modelled, namespaces: n }
            &&& n == namespaces
            &&& modelled.len() == arguments@.len()
            &&& forall|i: int|
                0 <= i < arguments@.len() ==> #[trigger] modelled[i] == arguments@[i]@
        },
        action matches Action::WaitForChild ==> action@ == ActionModel::WaitForChild,
        action matches Action::SetHostname { name } ==> action@ == (ActionModel::SetHostname {
            name: name@,
        }),
        action matches Action::Mount { source, target, filesystem, flags } ==> {
            &&& action@ matches ActionModel::Mount { source: s, target: t, filesystem: f, flags: g }
            &&& source is None <==> s is None
            &&& source is Some ==> s->0 == source->0@
            &&& t == target@
            &&& filesystem is None <==> f is None
            &&& filesystem is Some ==> f->0 == filesystem->0@
            &&& g.private == flags.private
            &&& g.recursive == flags.recursive
            &&& g.bind == flags.bind
        },
        action matches Action::PivotRoot { new_root, put_old } ==> action@ == (
        ActionModel::PivotRoot { new_root: new_root@, put_old: put_old@ }),
        action matches Action::ChangeDir { path } ==> action@ == (ActionModel::ChangeDir {
            path: path@,
        }),
        action matches Action::Detach { target } ==> action@ == (ActionModel::Detach {
            target: target@,
        }),
        action matches Action::Fork ==> action@ == ActionModel::Fork,
        action matches Action::WaitForInit ==> action@ == ActionModel::WaitForInit,
        action matches Action::Execute { program, words } ==> {
            &&& action@ matches ActionModel::Execute { program: p, words: modelled }
            &&& p == program@
            &&& modelled.len() == words@.len()
            &&& forall|i: int| 0 <= i < words@.len() ==> #[trigger] modelled[i] == words@[i]@
        },
{
}

/// The model of an answer is of the same kind and holds the same path and numbers.
pub proof fn events_are_modelled_in_full(event: Event)
    ensures
        event matches Event::Done ==> event@ == EventModel::Done,
        event matches Event::Failed ==> event@ == EventModel::Failed,
        event matches Event::Resolved { path } ==> event@ == (EventModel::Resolved { path: path@ }),
        event matches Event::Spawned { id } ==> event@ == (EventModel::Spawned { id }),
        event matches Event::ChildEnded { code } ==> event@ == (EventModel::ChildEnded { code }),
        event matches Event::InParent ==> event@ == EventModel::InParent,
        event matches Event::InChild ==> event@ == EventModel::InChild,
        event matches Event::InitEnded { outcome } ==> event@ == (EventModel::InitEnded {
            outcome,
        }),
{
}

/// The model of an error is of the same kind and holds the same reason.
pub proof fn errors_are_modelled_in_full(error: Error)
    ensures
        error matches Error::NotRoot ==> error@ == Fault::NotRoot,
        error matches Error::NoCommand ==> error@ == Fault::NoCommand,
        error matches Error::Failed { stage } ==> error@ == (Fault::Failed { stage }),
        error matches Error::MemoryLimit { error: reason } ==> error@ == (Fault::MemoryLimit {
            error: reason@,
        }),
        error matches Error::CpuLimitNotPositive ==> error@ == Fault::CpuLimitNotPositive,
        error matches Error::NulInCommand ==> error@ == Fault::NulInCommand,
        error matches Error::NulInArgument ==> error@ == Fault::NulInArgument,
{
}

/// The model of a refused size is of the same kind and holds the same text.
pub proof fn size_errors_are_modelled_in_full(error: SizeError)
    ensures
        error matches SizeError::Empty ==> error@ == SizeFault::Empty,
        error matches SizeError::UnrecognizedSuffix { suffix, size } ==> error@ == (
        SizeFault::UnrecognizedSuffix { suffix, size: size@ }),
        error matches SizeError::InvalidNumber { number } ==> error@ == (SizeFault::InvalidNumber {
            number: number@,
        }),
        error matches SizeError::NotPositive ==> error@ == SizeFault::NotPositive,
{
}

/// The model of an outcome is of the same kind and holds the same status or reason.
pub proof fn outcomes_are_modelled_in_full(outcome: Outcome)
    ensures
        outcome matches Outcome::Exit { code } ==> outcome@ == (OutcomeModel::Exit { code }),
        outcome matches Outcome::Fail { error } ==> outcome@ == (OutcomeModel::Fail {
            fault: error@,
        }),
{
}

} // verus!
