use dpml::cdcl::assignment::Assignment;
use dpml::cnf::clause::ClauseID;
use dpml::cnf::literals::{to_lit, Polarity};
use dpml::cnf::variable::Variables;
use dpml::parser::parse_cnf;
use std::collections::VecDeque;

#[test]
fn test_formula_assign_is_reversible() {
    let mut cnf = parse_cnf(
        "\
p cnf 6 2
1 2 3 0
4 5 6 0",
    )
    .unwrap();

    let snapshot = cnf.clone();

    let assignment = Assignment::new(1, true, None);
    let _ = cnf.apply_assignment(&assignment, &mut VecDeque::new());
    let _ = cnf.undo_assignment(&assignment);

    assert_eq!(snapshot, cnf);
}

#[test]
fn test_unit_queue() {
    let mut cnf = parse_cnf(
        "\
p cnf 5 2
1 2 0
3 4 5 0",
    )
    .unwrap();

    let assignment = Assignment::new(1, false, None);
    let mut queue: VecDeque<ClauseID> = VecDeque::new();

    let _ = cnf.apply_assignment(&assignment, &mut queue);
    assert!(!queue.is_empty());
}

#[test]
fn test_satisfy_occurance_in_single_clause() {
    let mut cnf = parse_cnf(
        "\
p cnf 4 2
1 2 0
3 4 0",
    )
    .unwrap();

    assert!(!cnf.all_assigned());

    let unit_queue = &mut VecDeque::new();

    let first_assignment = &Assignment::new(1, true, None);
    let second_assignment = &Assignment::new(3, true, None);

    let _ = cnf.apply_assignment(first_assignment, unit_queue);

    assert!(!cnf.all_assigned());

    let _ = cnf.apply_assignment(second_assignment, unit_queue);

    assert!(!cnf.all_assigned());

    let _ = cnf.undo_assignment(second_assignment);

    assert!(!cnf.all_assigned());
}

#[test]
fn test_parse_cnf() {
    let parse_input = "\
p cnf 4 2
1 2 0
3 4 0";
    let _ = parse_cnf(parse_input).unwrap();
}

#[test]
fn assignment_view_lists_assigned_variables_with_signs() {
    let mut cnf = parse_cnf("p cnf 4 2\n1 2 0\n3 4 0").unwrap();
    let mut queue = VecDeque::new();
    let _ = cnf.apply_assignment(&Assignment::new(1, true, None), &mut queue);
    let _ = cnf.apply_assignment(&Assignment::new(3, false, None), &mut queue);
    assert_eq!(cnf.get_assignment_view().to_string(), "1 -3");
    let _ = cnf.apply_assignment(&Assignment::new(4, true, None), &mut queue);
    assert_eq!(cnf.get_assignment_view().to_string(), "1 -3 4");
}

#[test]
fn assignment_view_of_an_unassigned_formula_is_empty() {
    let cnf = parse_cnf("p cnf 3 1\n1 2 3 0").unwrap();
    assert_eq!(cnf.get_assignment_view().to_string(), "");
}

#[test]
fn cdcl_assignment_text_has_sign() {
    assert_eq!(Assignment::new(12, false, None).to_string(), "-12");
    assert_eq!(Assignment::new(7, true, Some(3)).to_string(), "7");
}

#[test]
fn apply_then_undo_restores_every_assignment() {
    let mut cnf = parse_cnf("p cnf 3 2\n1 -2 0\n2 3 0").unwrap();
    let before = cnf.assignments.clone();
    let a = Assignment::new(2, true, None);
    let _ = cnf.apply_assignment(&a, &mut VecDeque::new());
    assert_eq!(cnf.assignments[1], Some(true));
    cnf.undo_assignment(&a);
    assert_eq!(cnf.assignments, before);
}

#[test]
fn polarity_gives_signed_literal() {
    assert_eq!(to_lit(&(5, Polarity::Negative)), -5);
    assert_eq!(to_lit(&(5, Polarity::Positive)), 5);
    assert!(Polarity::Positive.get_satisfying_assignment());
    assert!(!Polarity::Negative.get_satisfying_assignment());
    assert!(Polarity::Positive.reverse().is_negative());
    assert!(Polarity::Negative.reverse().is_positive());
}

#[test]
fn variables_iterate_in_order() {
    let vars = Variables::new(3);
    assert_eq!(vars.iter().count(), 3);
    assert_eq!(vars.len(), 3);
}

#[test]
fn find_unassigned_takes_smallest() {
    let vars = Variables::new(4);
    let a = vec![Some(true), None, Some(false), None];
    assert_eq!(vars.find_unassigned(&a), 2);
    assert_eq!(vars.find_all_unassigned(&a), vec![2, 4]);
}

#[test]
fn formula_text_is_dimacs() {
    let cnf = parse_cnf(
        "\
p cnf 3 2
1 -2 3 0
-1 2 0",
    )
    .unwrap();
    assert_eq!(cnf.clauses[0].literals.to_string(), "1 -2 3");
    assert_eq!(cnf.clauses[0].to_string(), "1 -2 3 0");
    assert_eq!(cnf.clauses[1].to_string(), "-1 2 0");
    assert_eq!(cnf.variables.to_string(), "1 2 3");
    assert_eq!(cnf.to_string(), "p cnf 3 2\n1 -2 3 0\n-1 2 0");
}

#[test]
fn formula_text_of_single_clause() {
    let cnf = parse_cnf("p cnf 12 1\n-12 0\n").unwrap();
    assert_eq!(cnf.to_string(), "p cnf 12 1\n-12 0");
    assert_eq!(
        cnf.variables.to_string(),
        "1 2 3 4 5 6 7 8 9 10 11 12"
    );
}

#[test]
fn generate_unit_queue_lists_the_unit_clauses() {
    let cnf = parse_cnf("p cnf 2 2\n1 0\n1 2 0").unwrap();
    assert_eq!(cnf.generate_unit_queue(), VecDeque::from(vec![0]));
}

#[test]
fn generate_unit_queue_lists_clauses_made_unit_by_the_assignment() {
    let mut cnf = parse_cnf("p cnf 3 3\n1 2 0\n-1 3 0\n2 3 0").unwrap();
    let _ = cnf.apply_assignment(&Assignment::new(1, false, None), &mut VecDeque::new());
    assert_eq!(cnf.generate_unit_queue(), VecDeque::from(vec![0]));
}
