//! Chains of states: what to do next, given what the last step came to.
//!
//! A state is executed, performs I/O, or splits into parallel states outside
//! of this library, at its own pace. Each function here takes what such a step
//! came to and says what is to be done next, until there is a result.

use vstd::prelude::*;

verus! {

/// What executing a state leads to: another state, or the result.
pub enum Step<S, K> {
    Continue(S),
    Done(K),
}

/// What the driver of a chain does next.
pub enum Drive<S, K, E> {
    /// Execute this state and report what it came to.
    Execute(S),
    /// The chain is over.
    Return(Result<K, E>),
}

/// What is to be done after a state was executed.
pub open spec fn spec_drive<S, K, E>(outcome: Result<Step<S, K>, E>) -> Drive<S, K, E> {
    match outcome {
        Ok(Step::Continue(next)) => Drive::Execute(next),
        Ok(Step::Done(result)) => Drive::Return(Ok(result)),
        Err(error) => Drive::Return(Err(error)),
    }
}

/// Drive a chain of states to completion: after each execution, go on with the
/// next state, or return the result or the first error.
pub fn run_to_completion<S, K, E>(outcome: Result<Step<S, K>, E>) -> (r: Drive<S, K, E>)
    ensures
        r == spec_drive(outcome),
{
    match outcome {
        Ok(Step::Continue(next)) => Drive::Execute(next),
        Ok(Step::Done(result)) => Drive::Return(Ok(result)),
        Err(error) => Drive::Return(Err(error)),
    }
}

/// What the executor of an I/O state does next.
pub enum IoDrive<O, S, K, E> {
    /// Hand the output to the state's transition and report what it came to.
    Transition(O),
    /// The state is done with.
    Return(Result<Step<S, K>, E>),
}

/// What an I/O state has come to.
pub enum IoEvent<O, S, K, E> {
    /// The I/O was performed.
    Performed(Result<O, E>),
    /// The transition was made.
    Transitioned(Result<Step<S, K>, E>),
}

/// What is to be done after an I/O state has come to something.
pub open spec fn spec_io_drive<O, S, K, E>(event: IoEvent<O, S, K, E>) -> IoDrive<O, S, K, E> {
    match event {
        IoEvent::Performed(Ok(output)) => IoDrive::Transition(output),
        IoEvent::Performed(Err(error)) => IoDrive::Return(Err(error)),
        IoEvent::Transitioned(step) => IoDrive::Return(step),
    }
}

/// Execute an I/O state: perform the I/O, then make the transition on its
/// output. If the I/O fails there is no transition.
pub fn execute_io<O, S, K, E>(event: IoEvent<O, S, K, E>) -> (r: IoDrive<O, S, K, E>)
    ensures
        r == spec_io_drive(event),
{
    match event {
        IoEvent::Performed(Ok(output)) => IoDrive::Transition(output),
        IoEvent::Performed(Err(error)) => IoDrive::Return(Err(error)),
        IoEvent::Transitioned(step) => IoDrive::Return(step),
    }
}

/// What the executor of a parallel state does next.
pub enum ParallelDrive<S, I, T, K, E> {
    /// Run all these states to completion and report their results, in order.
    RunAll(Vec<S>),
    /// Hand the results to the state and report what it came to.
    Collect(Vec<I>),
    /// The state is done with.
    Return(Result<Step<T, K>, E>),
}

/// What a parallel state has come to.
pub enum ParallelEvent<S, I, T, K, E> {
    /// It was split.
    Split(Result<Vec<S>, E>),
    /// Its parts were run: their results, or the error of one of them.
    Joined(Result<Vec<I>, E>),
    /// The results were collected.
    Collected(Result<Step<T, K>, E>),
}

/// What is to be done after a parallel state has come to something.
pub open spec fn spec_parallel_drive<S, I, T, K, E>(
    event: ParallelEvent<S, I, T, K, E>,
) -> ParallelDrive<S, I, T, K, E> {
    match event {
        ParallelEvent::Split(Ok(parts)) => ParallelDrive::RunAll(parts),
        ParallelEvent::Split(Err(error)) => ParallelDrive::Return(Err(error)),
        ParallelEvent::Joined(Ok(results)) => ParallelDrive::Collect(results),
        ParallelEvent::Joined(Err(error)) => ParallelDrive::Return(Err(error)),
        ParallelEvent::Collected(step) => ParallelDrive::Return(step),
    }
}

/// Execute a parallel state: split it, run the parts to completion, and
/// collect their results. The first error ends it.
pub fn execute_parallel<S, I, T, K, E>(event: ParallelEvent<S, I, T, K, E>) -> (r: ParallelDrive<
    S,
    I,
    T,
    K,
    E,
>)
    ensures
        r == spec_parallel_drive(event),
{
    match event {
        ParallelEvent::Split(Ok(parts)) => ParallelDrive::RunAll(parts),
        ParallelEvent::Split(Err(error)) => ParallelDrive::Return(Err(error)),
        ParallelEvent::Joined(Ok(results)) => ParallelDrive::Collect(results),
        ParallelEvent::Joined(Err(error)) => ParallelDrive::Return(Err(error)),
        ParallelEvent::Collected(step) => ParallelDrive::Return(step),
    }
}

/// A chain as it is driven from its first state: `states[k]` is the state that
/// is executed in step `k`, `outcomes[k]` what that came to, and each state but
/// the first is the one that the step before said to go on with.
pub open spec fn is_driven<S, K, E>(
    states: Seq<S>,
    outcomes: Seq<Result<Step<S, K>, E>>,
) -> bool {
    &&& states.len() == outcomes.len()
    &&& states.len() > 0
    &&& forall|k: int|
        0 <= k < states.len() - 1 ==> #[trigger] spec_drive(outcomes[k]) == Drive::<S, K, E>::Execute(
            states[k + 1],
        )
}

/// A chain is followed to its end and no further: every outcome but the last
/// was a next state, which was then executed, and a last outcome that is a
/// result or an error is what the run returns.
pub proof fn lemma_chain_is_followed_to_its_end<S, K, E>(
    states: Seq<S>,
    outcomes: Seq<Result<Step<S, K>, E>>,
)
    requires
        is_driven(states, outcomes),
    ensures
        forall|k: int|
            0 <= k < outcomes.len() - 1 ==> #[trigger] outcomes[k] == Ok::<Step<S, K>, E>(
                Step::Continue(states[k + 1]),
            ),
        match outcomes.last() {
            Ok(Step::Continue(next)) => spec_drive(outcomes.last()) == Drive::<S, K, E>::Execute(
                next,
            ),
            Ok(Step::Done(result)) => spec_drive(outcomes.last()) == Drive::<S, K, E>::Return(
                Ok(result),
            ),
            Err(error) => spec_drive(outcomes.last()) == Drive::<S, K, E>::Return(Err(error)),
        },
{
    assert forall|k: int| 0 <= k < outcomes.len() - 1 implies #[trigger] outcomes[k] == Ok::<
        Step<S, K>,
        E,
    >(Step::Continue(states[k + 1])) by {
        assert(spec_drive(outcomes[k]) == Drive::<S, K, E>::Execute(states[k + 1]));
    }
}

/// What each outcome leads to, case by case: a next state is executed, a result and an
/// error end the chain as they are.
pub proof fn lemma_drive_case_by_case<S, K, E>(next: S, result: K, error: E)
    ensures
        spec_drive(Ok::<Step<S, K>, E>(Step::Continue(next))) == Drive::<S, K, E>::Execute(next),
        spec_drive(Ok::<Step<S, K>, E>(Step::Done(result))) == Drive::<S, K, E>::Return(
            Ok(result),
        ),
        spec_drive(Err::<Step<S, K>, E>(error)) == Drive::<S, K, E>::Return(Err(error)),
{
}

/// What an I/O state leads to, case by case: the output of the I/O goes to the
/// transition, an error of the I/O ends it with that error and without a transition, and
/// what the transition came to is what the state came to.
pub proof fn lemma_io_case_by_case<O, S, K, E>(output: O, error: E, step: Result<Step<S, K>, E>)
    ensures
        spec_io_drive(IoEvent::<O, S, K, E>::Performed(Ok(output)))
            == IoDrive::<O, S, K, E>::Transition(output),
        spec_io_drive(IoEvent::<O, S, K, E>::Performed(Err(error)))
            == IoDrive::<O, S, K, E>::Return(Err(error)),
        spec_io_drive(IoEvent::<O, S, K, E>::Transitioned(step))
            == IoDrive::<O, S, K, E>::Return(step),
{
}

/// What a parallel state leads to, case by case: the parts are run, all of them and in
/// their order; their results, all of them and in their order, are collected; what
/// collecting them came to is what the state came to; and an error on the way ends it
/// with that error.
pub proof fn lemma_parallel_case_by_case<S, I, T, K, E>(
    parts: Vec<S>,
    results: Vec<I>,
    error: E,
    step: Result<Step<T, K>, E>,
)
    ensures
        spec_parallel_drive(ParallelEvent::<S, I, T, K, E>::Split(Ok(parts)))
            == ParallelDrive::<S, I, T, K, E>::RunAll(parts),
        spec_parallel_drive(ParallelEvent::<S, I, T, K, E>::Split(Err(error)))
            == ParallelDrive::<S, I, T, K, E>::Return(Err(error)),
        spec_parallel_drive(ParallelEvent::<S, I, T, K, E>::Joined(Ok(results)))
            == ParallelDrive::<S, I, T, K, E>::Collect(results),
        spec_parallel_drive(ParallelEvent::<S, I, T, K, E>::Joined(Err(error)))
            == ParallelDrive::<S, I, T, K, E>::Return(Err(error)),
        spec_parallel_drive(ParallelEvent::<S, I, T, K, E>::Collected(step))
            == ParallelDrive::<S, I, T, K, E>::Return(step),
{
}

} // verus!
