use dpml::assignment::assignment::{Assignment, AssignmentReason as BorrowedReason, AssignmentValue as BorrowedValue};
use dpml::assignment::assignments::Assignments;
use dpml::assignment::single_assignment::{AssignmentReason, AssignmentValue, SingleAssignment};
use dpml::cdcl::heuristics::restart::{FixedIntervalHeuristic, LubyHeuristic, Never};
use dpml::cdcl::heuristics::{RestartHeuristic, SolverStats};
use dpml::cli::{CliArguments, HeuristicCliArgument};

#[test]
fn single_assignment_inverse_and_text() {
    let a = SingleAssignment::new(3, AssignmentValue::True, AssignmentReason::Forced);
    assert_eq!(a.to_string(), "3");
    let b = a.inverse();
    assert_eq!(b.variable_id, 3);
    assert_eq!(b.value, AssignmentValue::False);
    assert_eq!(b.reason, AssignmentReason::Forced);
    assert_eq!(b.to_string(), "-3");
    assert_eq!(b.inverse().value, AssignmentValue::True);
    assert_eq!(AssignmentValue::False.get_inverse(), AssignmentValue::True);
}

#[test]
fn assignments_join_with_spaces() {
    let mut all = Assignments::new();
    assert_eq!(all.to_string(), "");
    all.push(SingleAssignment::new(1, AssignmentValue::True, AssignmentReason::Branching));
    all.push(SingleAssignment::new(10, AssignmentValue::False, AssignmentReason::Forced));
    all.push(SingleAssignment::new(205, AssignmentValue::True, AssignmentReason::Forced));
    assert_eq!(all.to_string(), "1 -10 205");
    let ids: Vec<usize> = all.iter().map(|a| a.variable_id).collect();
    assert_eq!(ids, vec![1, 10, 205]);
}

#[test]
fn borrowed_assignment_keeps_its_parts() {
    let value = BorrowedValue::False;
    let a = Assignment::new(9, &value, BorrowedReason::Branching);
    assert_eq!(a.variable_id, 9);
    assert_eq!(*a.value, BorrowedValue::False);
}

#[test]
fn restart_heuristics_decide() {
    let stats = SolverStats { conflict_count: 700, number_of_restarts: 0 };
    assert!(!Never {}.should_restart(&stats));
    let mut fixed = FixedIntervalHeuristic { fixed_restart_policy: 700, max_restarts: 10 };
    assert!(fixed.should_restart(&stats));
    let stats = SolverStats { conflict_count: 699, number_of_restarts: 0 };
    assert!(!fixed.should_restart(&stats));
    let stats = SolverStats { conflict_count: 10_000, number_of_restarts: 10 };
    assert!(!fixed.should_restart(&stats));
    let mut luby = LubyHeuristic::new(10);
    let stats = SolverStats { conflict_count: 32, number_of_restarts: 0 };
    assert!(luby.should_restart(&stats));
    let stats = SolverStats { conflict_count: 33, number_of_restarts: 0 };
    assert!(!luby.should_restart(&stats));
    let stats = SolverStats { conflict_count: 64, number_of_restarts: 2 };
    assert!(luby.should_restart(&stats));
    let stats = SolverStats { conflict_count: 0, number_of_restarts: 10 };
    assert!(!luby.should_restart(&stats));
}

#[test]
fn luby_sequence_values() {
    let expected = [1usize, 1, 2, 1, 1, 2, 4, 1, 1, 2, 1, 1, 2, 4, 8];
    for (i, &e) in expected.iter().enumerate() {
        assert_eq!(dpml::cdcl::heuristics::restart::luby(i + 1), e);
    }
}

#[test]
fn cli_getters() {
    let cli = CliArguments {
        input_file: "formula.cnf".to_string(),
        disable_preprocess: true,
        phase_saving: false,
        proof_logging: true,
        restart_heuristic: HeuristicCliArgument::Luby,
    };
    assert_eq!(cli.get_input_file(), "formula.cnf");
    assert!(cli.get_disable_preprocess());
    assert!(!cli.get_phase_saving());
    assert!(cli.get_proof_logging());
    assert_eq!(cli.get_restart_heuristic(), HeuristicCliArgument::Luby);
    assert!(HeuristicCliArgument::Geometric.get().is_none());
    assert!(HeuristicCliArgument::Never.get().is_some());
}
