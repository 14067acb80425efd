use dpml::dpll::dpll::{Dpll, DpllStatus};
use dpml::dpll::heuristics::trivial::Trivial;
use dpml::parser::parse;
use dpml::preprocess::cnf::cnf::CNF;
use dpml::preprocess::cnf::lit::Lit;
use dpml::preprocess::cnf::lit_hash;
use dpml::preprocess::cnf::misc::remove_element;
use dpml::preprocess::cnf::var::Var;
use dpml::preprocess::niver::{niver, niver_all, recover_assigment_niver_compat};
use dpml::preprocess::preprocess::preprocess;
use dpml::preprocess::selfsubsume::selfsubsumes;
use dpml::preprocess::subsume::subsumed;

#[test]
fn test_cnf_parser_skip_tautologies() {
    let cnf_pre = parse(
        "\
p cnf 2 2
1 2 0
-2 2 0
",
    )
    .unwrap();
    let cnf = CNF::from_pre(&cnf_pre.0, cnf_pre.1);
    assert_eq!(cnf.clauses.len(), 1);
}

#[test]
fn test_cnf_parser_skip_duplicate_literals() {
    let cnf_pre = parse(
        "\
p cnf 3 1
1 2 2 0
",
    )
    .unwrap();
    let cnf = CNF::from_pre(&cnf_pre.0, cnf_pre.1);
    assert_eq!(cnf.clauses[&1].lits, vec![Lit::new(1), Lit::new(2)]);
}

#[test]
fn cnf_test_cnf_parser_skip_tautologies() {
    let cnf_pre = parse(
        "\
p cnf 2 2
1 2 0
-2 2 0
",
    )
    .unwrap();
    let cnf = CNF::from_pre(&cnf_pre.0, cnf_pre.1);
    assert_eq!(cnf.clauses.len(), 1);
}

#[test]
fn cnf_test_cnf_parser_skip_duplicate_literals() {
    let cnf_pre = parse(
        "\
p cnf 3 1
1 2 2 0
",
    )
    .unwrap();
    let cnf = CNF::from_pre(&cnf_pre.0, cnf_pre.1);
    let lits: Vec<i32> = cnf.clauses[&1].lits.iter().map(|l| l.0).collect();
    assert_eq!(lits, vec![1, 2]);
}

#[test]
fn test_cnf_unit_prop() {
    let cnf_pre = parse(
        "\
p cnf 3 3
1 0
-1 2 0
-2 3 0
",
    )
    .unwrap();
    let mut cnf = CNF::from_pre(&cnf_pre.0, cnf_pre.1);
    cnf.unit_prop();
    assert!(cnf.clauses.iter().all(|(_, clause)| clause.lits.len() == 1));
}

#[test]
fn test_niver_does_pure_literal() {
    let cnf_pre = parse(
        "\
p cnf 3 2
1 2 0
-1 3 0
",
    )
    .unwrap();
    let mut cnf = CNF::from_pre(&cnf_pre.0, cnf_pre.1);
    niver(1, &mut cnf);
    assert_eq!(cnf.clauses[&3].lits, vec![Lit::new(2), Lit::new(3)]);
}

#[test]
fn test_selfsubsumes() {
    let cnf_pre = parse(
        "\
p cnf 3 2
1 2 3 0
-1 2 0
",
    )
    .unwrap();
    let mut cnf = CNF::from_pre(&cnf_pre.0, cnf_pre.1);
    selfsubsumes(1, &mut cnf);
    assert_eq!(cnf.clauses[&1].lits, vec![Lit::new(3), Lit::new(2)]);
}

#[test]
fn test_subsumed() {
    let cnf_pre = parse(
        "\
p cnf 3 2
1 2 0
1 3 2 0
",
    )
    .unwrap();
    let cnf = CNF::from_pre(&cnf_pre.0, cnf_pre.1);
    assert!(subsumed(1, &cnf));
}

fn satisfies(formula: &[Vec<i32>], model: &std::collections::BTreeMap<u32, bool>) -> bool {
    formula.iter().all(|clause| {
        clause.iter().any(|&lit| {
            let value = *model.get(&lit.unsigned_abs()).unwrap();
            if lit > 0 {
                value
            } else {
                !value
            }
        })
    })
}

#[test]
fn niver_all_then_search_recovers_a_model_of_the_input() {
    let text = "\
p cnf 5 6
1 2 0
-1 3 0
-2 -3 0
3 4 5 0
-4 5 0
-5 -1 2 0
";
    let cnf_pre = parse(text).unwrap();
    let mut cnf = CNF::from_pre(&cnf_pre.0, cnf_pre.1);
    let niver_trace = niver_all(&mut cnf);

    let mut dpll = Dpll::new(cnf.to_cnf_formula(), Box::new(Trivial));
    let status = dpll.solve();
    assert_eq!(status, DpllStatus::Sat);

    let assignment = recover_assigment_niver_compat(niver_trace, cnf, dpll.cnf_formula);
    assert!(satisfies(&cnf_pre.0, &assignment));
}

#[test]
fn preprocess_keeps_the_variables() {
    let text = "p cnf 4 4\n1 2 0\n1 2 3 0\n-1 2 0\n3 4 0\n";
    let cnf_pre = parse(text).unwrap();
    let mut cnf = CNF::from_pre(&cnf_pre.0, cnf_pre.1);
    let vars_before = cnf.vars.len();
    let _trace = preprocess(&mut cnf);
    assert_eq!(cnf.vars.len(), vars_before);
}

#[test]
fn subsumed_is_false_without_a_superset() {
    let cnf_pre = parse("p cnf 3 2\n1 2 0\n-1 3 0\n").unwrap();
    let cnf = CNF::from_pre(&cnf_pre.0, cnf_pre.1);
    assert!(!subsumed(1, &cnf));
}

#[test]
fn lit_helpers() {
    let l = Lit::new(-7);
    assert!(l.neg() == Lit::new(7));
    assert!(!l.pos());
    assert_eq!(l.var_id(), 7);
    assert_eq!(lit_hash(-1), 63);
    assert_eq!(lit_hash(5), 5);
}

#[test]
fn remove_element_drops_first_occurrence() {
    let mut v = vec![3u32, 1, 3, 2];
    assert_eq!(remove_element(&mut v, 3), Some(3));
    assert_eq!(v, vec![2, 1, 3]);
    assert_eq!(remove_element(&mut v, 9), None);
    assert_eq!(v, vec![2, 1, 3]);
}

#[test]
fn var_occurrences_are_recorded_once() {
    let mut var = Var::new();
    var.add_pos_occ(4);
    var.add_pos_occ(4);
    var.add_neg_occ(2);
    assert_eq!(var.pos_occ, vec![4]);
    assert_eq!(var.neg_occ, vec![2]);
    var.remove_clause(4);
    assert!(var.active);
    var.remove_clause(2);
    assert!(!var.active);
}

#[test]
fn occurrence_var_forgets_every_occurrence() {
    let mut var = dpml::preprocess::cnf::Var::new();
    var.pos_occ = vec![1, 5, 1, 3];
    var.neg_occ = vec![1];
    var.remove_clause(1);
    assert_eq!(var.pos_occ, vec![5, 3]);
    assert!(var.neg_occ.is_empty());
    assert!(var.active);
    var.remove_clause(5);
    var.remove_clause(3);
    assert!(!var.active);
    var.add_neg_occ(8);
    var.add_neg_occ(8);
    assert_eq!(var.neg_occ, vec![8]);
}

#[test]
fn unit_prop_takes_out_the_other_clauses_of_each_queued_unit() {
    let cnf_pre = parse(
        "\
p cnf 3 3
1 0
1 2 0
-1 3 0
",
    )
    .unwrap();
    let mut cnf = CNF::from_pre(&cnf_pre.0, cnf_pre.1);
    let queued: Vec<(u32, Lit)> = cnf.units.iter().cloned().collect();
    assert_eq!(queued, vec![(1, Lit::new(1))]);
    let taken_out = cnf.unit_prop();
    assert_eq!(taken_out, vec![2]);
    for (clause_id, lit) in queued {
        let var = &cnf.vars[&lit.var_id()];
        let listed = if lit.pos() { &var.pos_occ } else { &var.neg_occ };
        for id in listed {
            if *id != clause_id {
                assert!(!cnf.clauses[id].active);
                assert!(taken_out.contains(id));
            }
        }
    }
    assert_eq!(cnf.clauses[&3].lits, vec![Lit::new(3)]);
}

#[test]
fn niver_all_leaves_no_variable_to_eliminate() {
    let text = "\
p cnf 5 6
1 2 0
-1 3 0
-2 -3 0
3 4 5 0
-4 5 0
-5 -1 2 0
";
    let cnf_pre = parse(text).unwrap();
    let mut cnf = CNF::from_pre(&cnf_pre.0, cnf_pre.1);
    let trace = niver_all(&mut cnf);
    assert!(!trace.is_empty());
    for (_, ids) in &trace {
        for id in ids {
            assert!(!cnf.clauses[id].active);
        }
    }
    let var_ids: Vec<u32> = cnf.vars.keys().cloned().collect();
    for var_id in var_ids {
        if cnf.vars[&var_id].active {
            let mut copy = cnf.clone();
            let (changed, _) = niver(var_id, &mut copy);
            assert!(!changed);
        }
    }
}

#[test]
fn preprocess_strengthens_a_clause_that_can_be_strengthened() {
    let text = "p cnf 3 2\n1 2 3 0\n-1 2 0\n";
    let cnf_pre = parse(text).unwrap();
    let mut cnf = CNF::from_pre(&cnf_pre.0, cnf_pre.1);
    let trace = preprocess(&mut cnf);
    assert!(cnf.clauses[&1].lits.len() < 3);
    for (_, ids) in &trace {
        assert!(!ids.is_empty());
        for id in ids {
            assert!(!cnf.clauses[id].active);
        }
    }
}
