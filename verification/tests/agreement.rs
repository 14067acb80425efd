use dpml::cdcl::cdcl::{Cdcl, CdclStatus};
use dpml::cdcl::heuristics::restart::{LubyHeuristic, Never};
use dpml::cdcl::heuristics::RestartHeuristic;
use dpml::dpll::dpll::{Dpll, DpllStatus};
use dpml::dpll::heuristics::dlcs1::DLCS1;
use dpml::dpll::heuristics::trivial::Trivial;
use dpml::dpll::verify::verify_satisfied;
use dpml::parser::parse_cnf;

fn next(seed: &mut u64) -> u64 {
    *seed = seed.wrapping_mul(6364136223846793005).wrapping_add(1442695040888963407);
    *seed >> 33
}

/// A random formula of three-literal clauses over distinct variables.
fn random_formula(seed: &mut u64, n: u32, m: u32) -> String {
    let mut s = format!("p cnf {} {}\n", n, m);
    for _ in 0..m {
        let mut used: Vec<i32> = vec![];
        while used.len() < 3 {
            let v = (next(seed) % n as u64) as i32 + 1;
            if used.iter().any(|u| u.abs() == v) {
                continue;
            }
            let neg = next(seed) & 1 == 1;
            used.push(if neg { -v } else { v });
        }
        for u in used {
            s.push_str(&format!("{} ", u));
        }
        s.push_str("0\n");
    }
    s
}

#[test]
fn cdcl_and_dpll_agree_on_random_formulas() {
    let mut seed = 11u64;
    for round in 0..600 {
        let n = 4 + (round % 8) as u32;
        let m = 3 + (round % 40) as u32;
        let text = random_formula(&mut seed, n, m);
        let cnf = parse_cnf(&text).unwrap();
        let restart: Box<dyn RestartHeuristic> = if round % 2 == 0 {
            Box::new(LubyHeuristic::new(10))
        } else {
            Box::new(Never {})
        };
        let mut cdcl = Cdcl::new(cnf.clone(), restart);
        let c = cdcl.solve();
        let mut dpll = Dpll::new(cnf.clone(), Box::new(Trivial));
        let d = dpll.solve();
        let mut dpll2 = Dpll::new(cnf, Box::new(DLCS1));
        let d2 = dpll2.solve();
        assert_eq!(d, d2, "{}", text);
        match c {
            CdclStatus::Sat => {
                assert_eq!(d, DpllStatus::Sat, "{}", text);
                assert!(verify_satisfied(&cdcl.cnf_formula), "{}", text);
                assert!(verify_satisfied(&dpll.cnf_formula), "{}", text);
            }
            CdclStatus::Unsat => assert_eq!(d, DpllStatus::Unsat, "{}", text),
            other => panic!("{:?}\n{}", other, text),
        }
    }
}

/// The clauses of a DIMACS text as written by `random_formula`.
fn clauses_of(text: &str) -> Vec<Vec<i32>> {
    text.lines()
        .skip(1)
        .map(|line| {
            line.split_whitespace()
                .map(|x| x.parse::<i32>().unwrap())
                .filter(|&x| x != 0)
                .collect()
        })
        .collect()
}

/// Whether some assignment of the variables `1..=n` satisfies every clause.
fn satisfiable_by_enumeration(clauses: &[Vec<i32>], n: u32) -> bool {
    (0u32..(1u32 << n)).any(|bits| {
        clauses.iter().all(|clause| {
            clause.iter().any(|&l| {
                let value = bits & (1 << (l.unsigned_abs() - 1)) != 0;
                value == (l > 0)
            })
        })
    })
}

#[test]
fn solver_answers_match_exhaustive_search() {
    let mut seed = 29u64;
    for round in 0..400 {
        let n = 3 + (round % 8) as u32;
        let m = 2 + (round % 45) as u32;
        let text = random_formula(&mut seed, n, m);
        let expected = satisfiable_by_enumeration(&clauses_of(&text), n);
        let cnf = parse_cnf(&text).unwrap();
        let mut cdcl = Cdcl::new(cnf.clone(), Box::new(LubyHeuristic::new(5)));
        let c = cdcl.solve();
        assert_eq!(c == CdclStatus::Sat, expected, "{}", text);
        assert_eq!(c == CdclStatus::Unsat, !expected, "{}", text);
        let mut dpll = Dpll::new(cnf, Box::new(Trivial));
        let d = dpll.solve();
        assert_eq!(d == DpllStatus::Sat, expected, "{}", text);
        assert_eq!(d == DpllStatus::Unsat, !expected, "{}", text);
    }
}
