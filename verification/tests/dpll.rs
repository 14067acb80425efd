use dpml::dpll::heuristics::dlcs::DLCS;
use dpml::dpll::heuristics::dlis::DLIS;
use dpml::dpll::heuristics::heuristic::Heuristic as FormulaHeuristic;
use dpml::dpll::heuristics::mom::MOM;
use dpml::branching::chose_next_assignment::Branching;
use dpml::branching::monien_speckenmeyer::MonienSpeckenmeyer;
use dpml::branching::chose_next_variable::{ChooseNextVariable, TrivialChooseNextVariable};
use dpml::cdcl::assignment::Assignment as CdclAssignment;
use dpml::dpll::assignment::Assignment;
use dpml::dpll::assignment_stack::AssignmentStack;
use dpml::dpll::chose_next_variable::ChooseNextVariable as DpllChoose;
use dpml::dpll::chose_next_variable::ChooseNextVariableFromShortestClause;
use dpml::dpll::dpll::{Dpll, DpllStatus};
use dpml::dpll::heuristics::combined_heuristic::CombinedHeuristic;
use dpml::dpll::heuristics::dlcs1::DLCS1;
use dpml::dpll::heuristics::from_shortest_clause::FromShortestClause;
use dpml::dpll::heuristics::static_jw::StaticJW;
use dpml::dpll::heuristics::trivial::Trivial;
use dpml::dpll::heuristics::Heuristic;
use dpml::dpll::verify::verify_satisfied;
use dpml::parser::parse_cnf;
use std::collections::VecDeque;

#[test]
fn dpll_assignment_inverse_flips_value() {
    let a = Assignment::new(4, true);
    let b = a.inverse();
    assert_eq!(b.variable_id, 4);
    assert!(!b.value);
    assert_eq!(b.to_string(), "-4");
    assert_eq!(a.to_string(), "4");
}

#[test]
fn assignment_stack_levels() {
    let mut stack = AssignmentStack::new();
    assert!(stack.is_empty());
    assert_eq!(stack.get_decision_level(), 0);
    stack.start_decision_level();
    stack.push_assignment(Assignment::new(1, true));
    stack.push_assignment(Assignment::new(2, false));
    assert!(!stack.is_empty());
    assert_eq!(stack.get_decision_level(), 2);
}

#[test]
fn assignment_stack_undo_keeps_the_decision() {
    let mut cnf = parse_cnf("p cnf 3 1\n1 2 3 0").unwrap();
    let mut stack = AssignmentStack::new();
    let mut queue = VecDeque::new();
    stack.start_decision_level();
    for (v, value) in [(1u32, true), (2, false), (3, true)] {
        let _ = cnf.apply_assignment(&CdclAssignment::new(v, value, None), &mut queue);
        stack.push_assignment(Assignment::new(v, value));
    }
    stack.undo_assignment_current_decision_level(&mut cnf);
    assert_eq!(stack.get_decision_level(), 1);
    assert_eq!(cnf.assignments, vec![Some(true), None, None]);
    let last = stack.undo_last_assignment(&mut cnf);
    assert_eq!(last.variable_id, 1);
    assert!(stack.is_empty());
    assert_eq!(cnf.assignments, vec![None, None, None]);
}

fn solve_with(text: &str, heuristic: Box<dyn Heuristic>) -> (DpllStatus, bool) {
    let cnf = parse_cnf(text).unwrap();
    let mut dpll = Dpll::new(cnf, heuristic);
    let status = dpll.solve();
    (status, verify_satisfied(&dpll.cnf_formula))
}

const SAT_TEXT: &str = "p cnf 4 5\n1 2 0\n-1 3 0\n-3 -2 0\n2 4 0\n-4 -1 0\n";
const UNSAT_TEXT: &str = "p cnf 2 4\n1 2 0\n-1 2 0\n1 -2 0\n-1 -2 0\n";

#[test]
fn dpll_trivial_finds_a_model() {
    let (status, ok) = solve_with(SAT_TEXT, Box::new(Trivial));
    assert_eq!(status, DpllStatus::Sat);
    assert!(ok);
}

#[test]
fn dpll_answers_unsat() {
    let (status, _) = solve_with(UNSAT_TEXT, Box::new(Trivial));
    assert_eq!(status, DpllStatus::Unsat);
    let (status, _) = solve_with(UNSAT_TEXT, Box::new(DLCS1));
    assert_eq!(status, DpllStatus::Unsat);
}

#[test]
fn dpll_other_heuristics_find_models() {
    for heuristic in [
        Box::new(DLCS1) as Box<dyn Heuristic>,
        Box::new(FromShortestClause),
        Box::new(CombinedHeuristic::new(Box::new(DLCS1), Box::new(Trivial), 2)),
    ] {
        let (status, ok) = solve_with(SAT_TEXT, heuristic);
        assert_eq!(status, DpllStatus::Sat);
        assert!(ok);
    }
}

#[test]
fn trivial_heuristic_picks_first_unassigned() {
    let mut cnf = parse_cnf("p cnf 3 1\n1 2 3 0").unwrap();
    let _ = cnf.apply_assignment(&CdclAssignment::new(1, false, None), &mut VecDeque::new());
    let a = Trivial.chose_next_assignment(&cnf, 0);
    assert_eq!(a.variable_id, 2);
    assert!(a.value);
}

#[test]
fn dlcs1_picks_most_frequent_variable() {
    let cnf = parse_cnf("p cnf 3 3\n1 -2 0\n-2 3 0\n-2 -1 0").unwrap();
    let a = DLCS1.chose_next_assignment(&cnf, 0);
    assert_eq!(a.variable_id, 2);
    assert!(!a.value);
}

#[test]
fn shortest_clause_rule_takes_the_narrowest_open_clause() {
    let cnf = parse_cnf("p cnf 4 2\n1 2 3 0\n-4 2 0").unwrap();
    let a = <ChooseNextVariableFromShortestClause as DpllChoose>::chose(&cnf);
    assert_eq!(a.variable_id, 4);
    assert_eq!(a.to_string(), "-4");
    let b = TrivialChooseNextVariable::chose(&cnf);
    assert_eq!(b.variable_id, 4);
    let c = <dpml::dpll::chose_next_variable::TrivialChooseNextVariable as DpllChoose>::chose(&cnf);
    assert_eq!(c.variable_id, 1);
}

#[test]
fn static_jw_walks_its_order() {
    let cnf = parse_cnf("p cnf 3 1\n1 2 3 0").unwrap();
    let mut jw = StaticJW::new();
    assert!(!jw.is_computed());
    jw.set_order(vec![-3, 1, 2]);
    assert!(jw.is_computed());
    let a = jw.next_from_order(&cnf, 0);
    assert_eq!(a.variable_id, 3);
    assert!(!a.value);
}

#[test]
fn monien_speckenmeyer_branches() {
    let cnf = parse_cnf("p cnf 4 2\n1 2 3 0\n-4 2 0").unwrap();
    let branches = MonienSpeckenmeyer::chose_branches(&cnf);
    let texts: Vec<String> = branches.iter().map(|b| b.to_string()).collect();
    assert_eq!(texts, vec!["-4".to_string(), "4 2".to_string(), "4 -2".to_string()]);
}

#[test]
fn occurrence_heuristics_pick_the_busiest_variable() {
    let cnf = parse_cnf("p cnf 3 3\n1 -2 0\n-2 3 0\n-2 -1 0").unwrap();
    let a = DLCS.chose_next_assignment(&cnf, 0);
    assert_eq!(a.variable_id, 2);
    assert!(!a.value);
    let b = <DLIS as FormulaHeuristic>::chose_next_assignment(&cnf);
    assert_eq!(b.variable_id, 2);
    assert!(!b.value);
    let c = <MOM as FormulaHeuristic>::chose_next_assignment(&cnf);
    assert_eq!(c.variable_id, 2);
    assert!(c.value);
}

#[test]
fn dlcs_search_agrees() {
    let (status, ok) = solve_with(SAT_TEXT, Box::new(DLCS));
    assert_eq!(status, DpllStatus::Sat);
    assert!(ok);
    let (status, _) = solve_with(UNSAT_TEXT, Box::new(DLCS));
    assert_eq!(status, DpllStatus::Unsat);
}

#[test]
fn open_clause_count_counts_unsatisfied_clauses() {
    let mut cnf = parse_cnf("p cnf 3 3\n1 2 0\n-1 3 0\n2 3 0").unwrap();
    assert_eq!(dpml::dpll::chose_next_variable::open_clause_count(&cnf), 3);
    let _ = cnf.apply_assignment(&CdclAssignment::new(1, true, None), &mut VecDeque::new());
    assert_eq!(dpml::dpll::chose_next_variable::open_clause_count(&cnf), 2);
}
