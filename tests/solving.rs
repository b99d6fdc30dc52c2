use dissat::solver::Limits;
use dissat::{Result, Solver};

fn solver_of(clauses: &[Vec<i32>]) -> Solver {
    let mut s = Solver::new();
    for c in clauses {
        s.add_clause(c.clone());
    }
    s
}

fn is_sat(clauses: &[Vec<i32>]) -> bool {
    solver_of(clauses).solve().is_sat()
}

/// Tautologies are dropped when added, so they are not checked against the model.
fn satisfies(model: &[i32], clauses: &[Vec<i32>]) -> bool {
    clauses
        .iter()
        .all(|c| c.iter().any(|l| c.contains(&-l)) || c.iter().any(|l| model.contains(l)))
}

/// Exhaustive check for small formulas.
fn brute_force_sat(clauses: &[Vec<i32>], n: u32) -> bool {
    (0..(1u32 << n)).any(|bits| {
        let model: Vec<i32> = (1..=n as i32)
            .map(|v| if bits & (1 << (v - 1)) != 0 { v } else { -v })
            .collect();
        satisfies(&model, clauses)
    })
}

#[test]
fn unit_clause_is_sat() {
    let mut s = solver_of(&[vec![1]]);
    let r = s.solve();
    assert!(r.is_sat());
    let m = r.unwrap_sat();
    assert!(m.lit(1));
    assert!(!m.lit(-1));
    assert_eq!(m.as_vec(), vec![1]);
}

#[test]
fn contradicting_units_are_unsat() {
    let mut s = solver_of(&[vec![1], vec![-1]]);
    assert!(s.solve().is_unsat());
}

#[test]
fn propagation_conflict_is_unsat() {
    assert!(!is_sat(&[vec![-1, 2], vec![-1, -2], vec![1]]));
}

#[test]
fn all_four_two_clauses_are_unsat() {
    assert!(!is_sat(&[vec![1, 2], vec![-1, 2], vec![1, -2], vec![-1, -2]]));
}

#[test]
fn exactly_one_of_three_is_sat() {
    let clauses = [vec![1, 2, 3], vec![-1, -2], vec![-2, -3], vec![-1, -3]];
    let mut s = solver_of(&clauses);
    let r = s.solve();
    assert!(r.is_sat());
    let m = r.unwrap_sat().as_vec();
    assert!(satisfies(&m, &clauses));
    assert_eq!(m.iter().filter(|&&l| l > 0).count(), 1);
}

#[test]
fn forced_units_with_free_variable() {
    let clauses = [vec![1, -2, -3], vec![2, 3, 1], vec![1], vec![2]];
    let mut s = solver_of(&clauses);
    let r = s.solve();
    assert!(r.is_sat());
    let m = r.unwrap_sat();
    assert!(m.lit(1));
    assert!(m.lit(2));
    assert!(satisfies(&m.as_vec(), &clauses));
}

#[test]
fn empty_clause_is_trivially_unsat() {
    let mut s = solver_of(&[vec![1, 2], vec![]]);
    assert!(s.solve().is_unsat());
}

#[test]
fn empty_formula_is_sat() {
    let mut s = Solver::new();
    let r = s.solve();
    assert!(r.is_sat());
    assert_eq!(r.unwrap_sat().as_vec(), Vec::<i32>::new());
}

#[test]
fn tautology_is_dropped() {
    let base = [vec![1, 2], vec![-1]];
    let with_taut = [vec![1, 2], vec![3, -3, 1], vec![-1]];
    assert_eq!(is_sat(&base), is_sat(&with_taut));
    let mut s = solver_of(&with_taut);
    let r = s.solve();
    let m = r.unwrap_sat();
    assert!(m.lit(2));
}

#[test]
fn duplicate_literals_do_not_matter() {
    let a = [vec![1, 1, 2], vec![-1, -1], vec![-2, 3, 3]];
    let b = [vec![1, 2], vec![-1], vec![-2, 3]];
    assert_eq!(is_sat(&a), is_sat(&b));
    assert!(is_sat(&a));
}

#[test]
fn clause_order_does_not_change_satisfiability() {
    let a = [vec![1, 2], vec![-1, 2], vec![1, -2], vec![-1, -2]];
    let mut b = a.clone();
    b.reverse();
    assert_eq!(is_sat(&a), is_sat(&b));
}

#[test]
fn dimacs_round_trip_keeps_the_result() {
    let formulas: Vec<Vec<Vec<i32>>> = vec![
        vec![vec![1, 2, 3], vec![-1, -2], vec![-2, -3], vec![-1, -3]],
        vec![vec![1, 2], vec![-1, 2], vec![1, -2], vec![-1, -2]],
    ];
    for f in formulas {
        let mut text = String::from("p cnf 3 4\n");
        for c in &f {
            for l in c {
                text.push_str(&format!("{} ", l));
            }
            text.push_str("0\n");
        }
        let mut s = Solver::from_dimacs(&text).unwrap();
        assert_eq!(s.solve().is_sat(), is_sat(&f));
    }
}

#[test]
fn results_match_exhaustive_search() {
    let mut seed: u64 = 12345;
    let mut next = || {
        seed = seed.wrapping_mul(6364136223846793005).wrapping_add(1442695040888963407);
        (seed >> 33) as u32
    };
    for _ in 0..200 {
        let n = 1 + next() % 6;
        let m = 1 + next() % 20;
        let clauses: Vec<Vec<i32>> = (0..m)
            .map(|_| {
                let len = 1 + next() % 3;
                (0..len)
                    .map(|_| {
                        let v = (1 + next() % n) as i32;
                        if next() % 2 == 0 { v } else { -v }
                    })
                    .collect()
            })
            .collect();
        let mut s = solver_of(&clauses);
        let expected = brute_force_sat(&clauses, n);
        match s.solve() {
            Result::Sat(model) => {
                let mv = model.as_vec();
                assert!(expected);
                assert!(satisfies(&mv, &clauses));
            }
            Result::Unsat(_) => assert!(!expected),
        }
    }
}

#[test]
fn pigeonhole_three_into_two_is_unsat_and_learns() {
    // p(i, h): pigeon i in hole h, variable 2 * i + h + 1
    let p = |i: i32, h: i32| 2 * i + h + 1;
    let mut clauses = Vec::new();
    for i in 0..3 {
        clauses.push(vec![p(i, 0), p(i, 1)]);
    }
    for h in 0..2 {
        for i in 0..3 {
            for j in (i + 1)..3 {
                clauses.push(vec![-p(i, h), -p(j, h)]);
            }
        }
    }
    let mut s = solver_of(&clauses);
    assert!(s.solve().is_unsat());
    assert!(s.stats().contradictions >= 1);
}

#[test]
fn larger_random_instances_are_consistent() {
    let mut seed: u64 = 99;
    let mut next = || {
        seed = seed.wrapping_mul(6364136223846793005).wrapping_add(1442695040888963407);
        (seed >> 33) as u32
    };
    for _ in 0..20 {
        let n = 12;
        let clauses: Vec<Vec<i32>> = (0..50)
            .map(|_| {
                (0..3)
                    .map(|_| {
                        let v = (1 + next() % n) as i32;
                        if next() % 2 == 0 { v } else { -v }
                    })
                    .collect()
            })
            .collect();
        let mut s = solver_of(&clauses);
        let expected = brute_force_sat(&clauses, n);
        match s.solve() {
            Result::Sat(model) => {
                assert!(expected);
                assert!(satisfies(&model.as_vec(), &clauses));
            }
            Result::Unsat(_) => assert!(!expected),
        }
    }
}

#[test]
fn frequent_clause_reduction_keeps_results_correct() {
    let mut seed: u64 = 7;
    let mut next = || {
        seed = seed.wrapping_mul(6364136223846793005).wrapping_add(1442695040888963407);
        (seed >> 33) as u32
    };
    for _ in 0..30 {
        let n = 10;
        let clauses: Vec<Vec<i32>> = (0..45)
            .map(|_| {
                (0..3)
                    .map(|_| {
                        let v = (1 + next() % n) as i32;
                        if next() % 2 == 0 { v } else { -v }
                    })
                    .collect()
            })
            .collect();
        let mut s = solver_of(&clauses);
        s.set_limits(Limits { garbage_collection_conflicts: 1 });
        let expected = brute_force_sat(&clauses, n);
        match s.solve() {
            Result::Sat(model) => {
                assert!(expected);
                assert!(satisfies(&model.as_vec(), &clauses));
            }
            Result::Unsat(_) => assert!(!expected),
        }
    }
}

#[test]
fn default_limits_and_fresh_stats() {
    let s = Solver::new();
    assert_eq!(s.stats().contradictions, 0);
    assert_eq!(s.stats().propagations, 0);
    assert_eq!(Limits::new().garbage_collection_conflicts, 3000);
}
