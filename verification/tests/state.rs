use servyi_states::state::{Drive, IoDrive, IoEvent, ParallelDrive, ParallelEvent};
use servyi_states::{execute_io, execute_parallel, run_to_completion, Step};

struct Increment(u32);

impl Increment {
    fn execute(self) -> Result<Step<Increment, u32>, String> {
        if self.0 > 0 {
            Ok(Step::Continue(Increment(self.0 - 1)))
        } else {
            Ok(Step::Done(42))
        }
    }
}

fn run(first: Increment) -> (Result<u32, String>, usize) {
    let mut executed = 0;
    let mut drive = Drive::Execute(first);
    loop {
        match drive {
            Drive::Execute(state) => {
                executed += 1;
                drive = run_to_completion(state.execute());
            }
            Drive::Return(result) => return (result, executed),
        }
    }
}

#[test]
fn test_run_to_completion_linear() {
    let (result, _) = run(Increment(3));
    assert_eq!(result.unwrap(), 42);
}

#[test]
fn test_run_to_completion_immediate() {
    let (result, _) = run(Increment(0));
    assert_eq!(result.unwrap(), 42);
}

struct FailState;

impl FailState {
    fn execute(self) -> Result<Step<FailState, ()>, String> {
        Err("intentional failure".to_string())
    }
}

#[test]
fn test_state_error_propagates() {
    match run_to_completion(FailState.execute()) {
        Drive::Return(result) => assert!(result.is_err()),
        Drive::Execute(_) => panic!("a failed state has no successor"),
    }
}

#[test]
fn each_state_of_a_chain_is_executed_once() {
    assert_eq!(run(Increment(3)).1, 4);
    assert_eq!(run(Increment(0)).1, 1);
}

type Io = IoEvent<u8, &'static str, u32, String>;

#[test]
fn transition_follows_successful_io() {
    assert!(matches!(execute_io(Io::Performed(Ok(9))), IoDrive::Transition(9)));
    assert!(matches!(
        execute_io(Io::Transitioned(Ok(Step::Done(1)))),
        IoDrive::Return(Ok(Step::Done(1)))
    ));
    assert!(matches!(
        execute_io(Io::Transitioned(Ok(Step::Continue("next")))),
        IoDrive::Return(Ok(Step::Continue("next")))
    ));
}

#[test]
fn failed_io_ends_without_a_transition() {
    match execute_io(Io::Performed(Err("disk".to_string()))) {
        IoDrive::Return(Err(error)) => assert_eq!(error, "disk"),
        _ => panic!("the error is returned"),
    }
    match execute_io(Io::Transitioned(Err("late".to_string()))) {
        IoDrive::Return(Err(error)) => assert_eq!(error, "late"),
        _ => panic!("the error is returned"),
    }
}

type Parallel = ParallelEvent<&'static str, u8, (), u32, String>;

#[test]
fn parts_are_run_and_their_results_collected_in_order() {
    match execute_parallel(Parallel::Split(Ok(vec!["a", "b"]))) {
        ParallelDrive::RunAll(parts) => assert_eq!(parts, vec!["a", "b"]),
        _ => panic!("the parts are run"),
    }
    match execute_parallel(Parallel::Joined(Ok(vec![1, 2]))) {
        ParallelDrive::Collect(results) => assert_eq!(results, vec![1, 2]),
        _ => panic!("the results are collected"),
    }
    assert!(matches!(
        execute_parallel(Parallel::Collected(Ok(Step::Done(3)))),
        ParallelDrive::Return(Ok(Step::Done(3)))
    ));
}

#[test]
fn first_error_ends_a_parallel_state() {
    let events = vec![
        Parallel::Split(Err("split".to_string())),
        Parallel::Joined(Err("join".to_string())),
        Parallel::Collected(Err("collect".to_string())),
    ];
    let mut errors: Vec<String> = Vec::new();
    for event in events {
        match execute_parallel(event) {
            ParallelDrive::Return(Err(error)) => errors.push(error),
            _ => panic!("the error is returned"),
        }
    }
    assert_eq!(errors, vec!["split", "join", "collect"]);
}
