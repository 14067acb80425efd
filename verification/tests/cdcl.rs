use dpml::cdcl::assignment::Assignment;
use dpml::cdcl::cdcl::{Cdcl, CdclStatus};
use dpml::cdcl::heuristics::restart::{LubyHeuristic, Never};
use dpml::cdcl::implication_graph::ImplicationGraph;
use dpml::cnf::clause::ClauseID;
use dpml::cnf::cnf_formula::CnfFormula;
use dpml::cnf::literals::{Literals, VariableId};
use dpml::dpll::verify::verify_satisfied;
use dpml::parser::parse_cnf;
use std::collections::VecDeque;

struct ConflictAnalysisTest {
    cnf: CnfFormula,
    implication_graph: ImplicationGraph,
}

impl ConflictAnalysisTest {
    fn new(cnf_string: &str) -> Self {
        let cnf = parse_cnf(cnf_string).unwrap();
        let implication_graph = ImplicationGraph::new();
        ConflictAnalysisTest { cnf, implication_graph }
    }

    fn decide(&mut self, variable_id: VariableId, value: bool) -> &mut Self {
        let assignment = Assignment::new(variable_id, value, None);
        self.cnf.apply_assignment(&assignment, &mut VecDeque::new());
        self.implication_graph.push_decision(assignment);
        self
    }

    fn propagate(&mut self, variable_id: VariableId, value: bool, reason: ClauseID) -> &mut Self {
        let assignment = Assignment::new(variable_id, value, Some(reason));
        self.cnf.apply_assignment(&assignment, &mut VecDeque::new());
        self.implication_graph.push_forced(assignment);
        self
    }

    fn execute(&self, conflict_clause_id: ClauseID) -> Option<Literals> {
        let conflict_clause = self.cnf.clauses[conflict_clause_id].clone();
        let mut cdcl = Cdcl::new(parse_cnf("p cnf 1 1\n1 0").unwrap(), Box::new(Never {}));
        cdcl.cnf_formula = self.cnf.clone();
        cdcl.implication_graph = self.implication_graph.clone();
        cdcl.generate_learned_clause(&conflict_clause)
    }
}

#[test]
fn test_cdcl() {
        let raw_cnf = "\
p cnf 50 300
25 27 32 0
25 -27 32 0
21 -32 42 0
-21 25 -32 0
3 37 -42 0
1 11 37 0
25 37 45 0
25 37 -45 0
-1 29 -42 0
2 11 -29 0
2 22 -42 0
2 -11 -22 0
-2 -3 -29 0
-3 -11 46 0
-3 -29 -46 0
-11 -29 -36 0
6 34 42 0
20 34 -42 0
6 -20 26 0
6 11 -20 0
6 -8 -20 0
6 -20 34 0
27 44 50 0
27 35 44 0
-27 40 44 0
2 35 44 0
-2 36 44 0
21 -34 36 0
-21 27 -44 0
-21 36 -44 0
-27 -34 35 0
-34 -35 45 0
6 -35 36 0
-15 -35 -45 0
-12 32 43 0
-12 32 -43 0
6 -12 -32 0
-25 -36 50 0
6 -25 -50 0
-25 -44 -50 0
-15 -25 -44 0
-25 -48 -50 0
-25 37 43 0
-6 37 -43 0
3 9 50 0
3 9 39 0
3 9 -50 0
3 11 -37 0
-9 -11 49 0
3 8 42 0
8 -42 -49 0
3 -8 -9 0
3 -8 -50 0
-3 5 -12 0
-3 7 -12 0
-12 13 -32 0
-7 -12 13 0
-3 -12 -13 0
-31 -37 38 0
12 -31 -37 0
8 12 -38 0
-23 -38 49 0
12 -31 -49 0
-2 -23 -37 0
-10 12 -38 0
-5 -31 -38 0
22 24 42 0
22 -24 46 0
34 -37 -46 0
2 31 34 0
-2 22 31 0
8 26 45 0
26 -42 -45 0
8 -29 -42 0
22 -29 -42 0
11 26 31 0
-22 26 43 0
31 34 43 0
21 31 34 0
-21 31 -43 0
14 23 40 0
-22 35 40 0
-22 23 40 0
-14 23 -34 0
33 -34 40 0
-23 -33 40 0
35 41 -46 0
-12 41 -46 0
27 -41 -46 0
-27 32 -46 0
-32 -40 -41 0
-3 -35 -46 0
21 24 46 0
21 -24 46 0
21 -37 46 0
13 -34 46 0
4 -21 -24 0
-4 18 -24 0
-13 -24 42 0
-13 -21 -24 0
-13 -24 -28 0
16 30 -36 0
11 17 -30 0
-17 24 -36 0
-10 16 24 0
-11 12 16 0
-16 34 -36 0
-16 24 -36 0
12 46 50 0
33 -34 50 0
13 29 50 0
-13 -33 50 0
-29 -46 50 0
-13 -40 -43 0
-9 39 -50 0
-9 -40 43 0
-9 16 39 0
-7 -9 16 0
-9 -16 -40 0
-9 -39 -40 0
11 -17 24 0
-11 -17 -40 0
17 32 48 0
7 16 -48 0
17 32 -48 0
-16 17 32 0
2 38 43 0
2 -32 38 0
-2 38 45 0
-32 38 -45 0
5 -7 24 0
1 -7 43 0
-5 13 24 0
3 -5 -13 0
-3 -7 33 0
-3 -7 43 0
7 47 48 0
7 47 -48 0
9 24 47 0
-24 -43 47 0
-14 18 47 0
7 29 47 0
7 17 26 0
22 -26 40 0
1 36 45 0
1 37 -45 0
1 -17 36 0
-1 12 36 0
-1 -17 36 0
22 -26 -50 0
15 -26 -36 0
15 41 -48 0
14 15 -41 0
-10 27 -48 0
-10 40 -48 0
-10 -36 37 0
-10 -37 -48 0
4 15 22 0
-4 -14 15 0
-15 17 26 0
-15 -26 -36 0
-15 -17 -50 0
9 25 -38 0
9 -11 -38 0
9 -26 33 0
-26 33 -50 0
9 33 -40 0
-14 -32 -38 0
29 -33 -41 0
14 -33 -41 0
-14 -33 -41 0
-22 28 -38 0
-27 -28 49 0
-28 41 -49 0
-27 -28 -41 0
4 27 38 0
4 25 -38 0
22 25 27 0
-4 11 25 0
8 14 -23 0
1 -8 -23 0
-1 -23 26 0
14 -23 -26 0
14 -39 41 0
14 23 -41 0
-14 20 -22 0
-1 20 -22 0
11 -20 -22 0
-11 -14 -20 0
14 -22 45 0
5 23 46 0
2 5 14 0
5 23 34 0
-2 5 -34 0
6 9 31 0
21 -25 -33 0
-21 -31 -33 0
-9 -25 -33 0
-25 -33 -39 0
-10 44 -45 0
-10 35 -44 0
-35 -44 -45 0
-10 -19 -45 0
10 -19 39 0
-4 44 49 0
-44 47 49 0
-4 -47 49 0
-4 10 -49 0
-5 18 23 0
-1 -6 19 0
13 -15 19 0
-15 19 39 0
-19 31 39 0
-19 -31 39 0
-5 -6 -19 0
17 20 35 0
-18 -20 35 0
2 -18 45 0
-6 -17 -18 0
-17 -18 35 0
-1 -18 40 0
-17 -18 -40 0
10 13 39 0
10 -13 -20 0
-6 36 -39 0
-6 -20 26 0
5 -7 -39 0
5 -6 -26 0
-5 30 -39 0
-30 -39 41 0
10 -30 41 0
-5 32 -39 0
-6 -32 -39 0
7 8 12 0
8 12 -18 0
1 8 -18 0
-15 19 41 0
-15 19 -41 0
15 -16 19 0
10 20 -43 0
10 -26 28 0
-8 20 28 0
-8 28 -40 0
-11 23 28 0
4 28 -35 0
4 28 -43 0
-4 28 -42 0
20 21 28 0
-21 -23 -47 0
20 -28 -29 0
20 -29 -47 0
1 29 -44 0
-35 -48 49 0
16 30 -49 0
16 -30 -35 0
-30 46 47 0
-30 44 -46 0
17 -30 -47 0
7 -30 -47 0
7 -14 -47 0
-7 15 -47 0
5 15 -47 0
15 -30 -47 0
-28 48 -49 0
37 39 48 0
43 48 -49 0
-43 48 -49 0
-37 48 50 0
-37 48 -49 0
-5 -31 48 0
27 42 44 0
29 42 -44 0
-8 29 42 0
1 42 -45 0
-8 -27 29 0
-1 -27 29 0
-1 -27 -35 0
23 30 45 0
19 -23 31 0
19 30 -31 0
19 30 -31 0
4 -19 45 0
-4 -28 30 0
-2 -28 30 0
13 18 30 0
17 41 47 0
-18 -19 0
-8 18 -24 0
10 -16 -34 0
13 -14 16 0
4 38 0
-2 10 -28 0
-5 18 38 0
33 -43 0
4 -7 18 0
-6 -16 49 0
-4 -13 -21 0
-16 -19 49 0
-2 18 33 0
-16 18 21 0";

        let cnf = parse_cnf(raw_cnf).unwrap();
        let mut cdcl = Cdcl::new(cnf, Box::new(LubyHeuristic::new(10)));
        cdcl.solve();

        println!("\n\n\n\n\n\n{:#?}", cdcl.status);
}

#[test]
fn test_single_resolution() {
    let cnf = "\
p cnf 3 2
1 2 3 0
1 2 -3 0";

    let mut test = ConflictAnalysisTest::new(cnf);

    test.decide(1, false).decide(2, false).propagate(3, true, 0);

    let result = test.execute(1);
    assert!(result.unwrap() == Literals::from_vec(vec![1, 2]));
}

#[test]
fn test_deep_multiple_resolutions() {
    let cnf = "\
p cnf 5 4
1 2 3 0
-3 4 0
-3 5 0
-4 -5 0";

    let mut test = ConflictAnalysisTest::new(cnf);

    test.decide(1, false)
        .decide(2, false)
        .propagate(3, true, 0)
        .propagate(4, true, 1)
        .propagate(5, true, 2);

    let result = test.execute(3);
    println!("{:#?}", result);
}

#[test]
fn cdcl_solves_test_formula_with_a_model() {
        let raw_cnf = "\
p cnf 50 300
25 27 32 0
25 -27 32 0
21 -32 42 0
-21 25 -32 0
3 37 -42 0
1 11 37 0
25 37 45 0
25 37 -45 0
-1 29 -42 0
2 11 -29 0
2 22 -42 0
2 -11 -22 0
-2 -3 -29 0
-3 -11 46 0
-3 -29 -46 0
-11 -29 -36 0
6 34 42 0
20 34 -42 0
6 -20 26 0
6 11 -20 0
6 -8 -20 0
6 -20 34 0
27 44 50 0
27 35 44 0
-27 40 44 0
2 35 44 0
-2 36 44 0
21 -34 36 0
-21 27 -44 0
-21 36 -44 0
-27 -34 35 0
-34 -35 45 0
6 -35 36 0
-15 -35 -45 0
-12 32 43 0
-12 32 -43 0
6 -12 -32 0
-25 -36 50 0
6 -25 -50 0
-25 -44 -50 0
-15 -25 -44 0
-25 -48 -50 0
-25 37 43 0
-6 37 -43 0
3 9 50 0
3 9 39 0
3 9 -50 0
3 11 -37 0
-9 -11 49 0
3 8 42 0
8 -42 -49 0
3 -8 -9 0
3 -8 -50 0
-3 5 -12 0
-3 7 -12 0
-12 13 -32 0
-7 -12 13 0
-3 -12 -13 0
-31 -37 38 0
12 -31 -37 0
8 12 -38 0
-23 -38 49 0
12 -31 -49 0
-2 -23 -37 0
-10 12 -38 0
-5 -31 -38 0
22 24 42 0
22 -24 46 0
34 -37 -46 0
2 31 34 0
-2 22 31 0
8 26 45 0
26 -42 -45 0
8 -29 -42 0
22 -29 -42 0
11 26 31 0
-22 26 43 0
31 34 43 0
21 31 34 0
-21 31 -43 0
14 23 40 0
-22 35 40 0
-22 23 40 0
-14 23 -34 0
33 -34 40 0
-23 -33 40 0
35 41 -46 0
-12 41 -46 0
27 -41 -46 0
-27 32 -46 0
-32 -40 -41 0
-3 -35 -46 0
21 24 46 0
21 -24 46 0
21 -37 46 0
13 -34 46 0
4 -21 -24 0
-4 18 -24 0
-13 -24 42 0
-13 -21 -24 0
-13 -24 -28 0
16 30 -36 0
11 17 -30 0
-17 24 -36 0
-10 16 24 0
-11 12 16 0
-16 34 -36 0
-16 24 -36 0
12 46 50 0
33 -34 50 0
13 29 50 0
-13 -33 50 0
-29 -46 50 0
-13 -40 -43 0
-9 39 -50 0
-9 -40 43 0
-9 16 39 0
-7 -9 16 0
-9 -16 -40 0
-9 -39 -40 0
11 -17 24 0
-11 -17 -40 0
17 32 48 0
7 16 -48 0
17 32 -48 0
-16 17 32 0
2 38 43 0
2 -32 38 0
-2 38 45 0
-32 38 -45 0
5 -7 24 0
1 -7 43 0
-5 13 24 0
3 -5 -13 0
-3 -7 33 0
-3 -7 43 0
7 47 48 0
7 47 -48 0
9 24 47 0
-24 -43 47 0
-14 18 47 0
7 29 47 0
7 17 26 0
22 -26 40 0
1 36 45 0
1 37 -45 0
1 -17 36 0
-1 12 36 0
-1 -17 36 0
22 -26 -50 0
15 -26 -36 0
15 41 -48 0
14 15 -41 0
-10 27 -48 0
-10 40 -48 0
-10 -36 37 0
-10 -37 -48 0
4 15 22 0
-4 -14 15 0
-15 17 26 0
-15 -26 -36 0
-15 -17 -50 0
9 25 -38 0
9 -11 -38 0
9 -26 33 0
-26 33 -50 0
9 33 -40 0
-14 -32 -38 0
29 -33 -41 0
14 -33 -41 0
-14 -33 -41 0
-22 28 -38 0
-27 -28 49 0
-28 41 -49 0
-27 -28 -41 0
4 27 38 0
4 25 -38 0
22 25 27 0
-4 11 25 0
8 14 -23 0
1 -8 -23 0
-1 -23 26 0
14 -23 -26 0
14 -39 41 0
14 23 -41 0
-14 20 -22 0
-1 20 -22 0
11 -20 -22 0
-11 -14 -20 0
14 -22 45 0
5 23 46 0
2 5 14 0
5 23 34 0
-2 5 -34 0
6 9 31 0
21 -25 -33 0
-21 -31 -33 0
-9 -25 -33 0
-25 -33 -39 0
-10 44 -45 0
-10 35 -44 0
-35 -44 -45 0
-10 -19 -45 0
10 -19 39 0
-4 44 49 0
-44 47 49 0
-4 -47 49 0
-4 10 -49 0
-5 18 23 0
-1 -6 19 0
13 -15 19 0
-15 19 39 0
-19 31 39 0
-19 -31 39 0
-5 -6 -19 0
17 20 35 0
-18 -20 35 0
2 -18 45 0
-6 -17 -18 0
-17 -18 35 0
-1 -18 40 0
-17 -18 -40 0
10 13 39 0
10 -13 -20 0
-6 36 -39 0
-6 -20 26 0
5 -7 -39 0
5 -6 -26 0
-5 30 -39 0
-30 -39 41 0
10 -30 41 0
-5 32 -39 0
-6 -32 -39 0
7 8 12 0
8 12 -18 0
1 8 -18 0
-15 19 41 0
-15 19 -41 0
15 -16 19 0
10 20 -43 0
10 -26 28 0
-8 20 28 0
-8 28 -40 0
-11 23 28 0
4 28 -35 0
4 28 -43 0
-4 28 -42 0
20 21 28 0
-21 -23 -47 0
20 -28 -29 0
20 -29 -47 0
1 29 -44 0
-35 -48 49 0
16 30 -49 0
16 -30 -35 0
-30 46 47 0
-30 44 -46 0
17 -30 -47 0
7 -30 -47 0
7 -14 -47 0
-7 15 -47 0
5 15 -47 0
15 -30 -47 0
-28 48 -49 0
37 39 48 0
43 48 -49 0
-43 48 -49 0
-37 48 50 0
-37 48 -49 0
-5 -31 48 0
27 42 44 0
29 42 -44 0
-8 29 42 0
1 42 -45 0
-8 -27 29 0
-1 -27 29 0
-1 -27 -35 0
23 30 45 0
19 -23 31 0
19 30 -31 0
19 30 -31 0
4 -19 45 0
-4 -28 30 0
-2 -28 30 0
13 18 30 0
17 41 47 0
-18 -19 0
-8 18 -24 0
10 -16 -34 0
13 -14 16 0
4 38 0
-2 10 -28 0
-5 18 38 0
33 -43 0
4 -7 18 0
-6 -16 49 0
-4 -13 -21 0
-16 -19 49 0
-2 18 33 0
-16 18 21 0";

    let cnf = parse_cnf(raw_cnf).unwrap();
    let mut cdcl = Cdcl::new(cnf, Box::new(LubyHeuristic::new(10)));
    let status = cdcl.solve();
    assert_eq!(status, CdclStatus::Sat);
    assert!(verify_satisfied(&cdcl.cnf_formula));
    assert!(cdcl.cnf_formula.all_assigned());
}

#[test]
fn cdcl_answers_unsat_for_contradictory_units() {
    let cnf = parse_cnf("p cnf 1 2\n1 0\n-1 0").unwrap();
    let mut cdcl = Cdcl::new(cnf, Box::new(Never {}));
    assert_eq!(cdcl.solve(), CdclStatus::Unsat);
}

#[test]
fn cdcl_answers_unsat_for_all_sign_combinations() {
    let cnf = parse_cnf("p cnf 2 4\n1 2 0\n-1 2 0\n1 -2 0\n-1 -2 0").unwrap();
    let mut cdcl = Cdcl::new(cnf, Box::new(LubyHeuristic::new(10)));
    assert_eq!(cdcl.solve(), CdclStatus::Unsat);
}

#[test]
fn trail_text_marks_decisions_and_propagations() {
    let cnf = parse_cnf("p cnf 3 2\n-1 2 0\n-2 -3 0\n").unwrap();
    let mut cdcl = Cdcl::new(cnf, Box::new(Never {}));
    assert_eq!(cdcl.implication_graph.to_string(), "");
    cdcl.decide(Assignment::new(1, true, None));
    cdcl.propagate_unit_clauses();
    assert_eq!(cdcl.implication_graph.to_string(), " D:1→2→-3");
}
