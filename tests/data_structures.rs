use dissat::clause::{ClauseDB, Flags};
use dissat::litvec::{lit_to_idx, LitVec};
use dissat::normalize::normalise_clause;
use dissat::trail::Trail;
use dissat::assignment::TrailReason;
use dissat::varvec::VarVec;
use dissat::{remaining, Dimacs, Lit, ParseError, Var};

#[test]
fn parse_test() {
    let dimacs = "
        c test comment \n\
        p 3 3          \n\
        1 -2 -3 0      \n\
        2 3 1 0        \n\
        1 0            \n\
        2 0            
        ";

    let result = Dimacs::parse(dimacs).unwrap();
    assert_eq!(result[0], vec![1, -2, -3]);
    assert_eq!(result[1], vec![2, 3, 1]);
    assert_eq!(result[2], vec![1]);
    assert_eq!(result[3], vec![2]);
}

#[test]
fn test_lit_to_idx() {
    assert_eq!(lit_to_idx(Lit::new(1)), 0);
    assert_eq!(lit_to_idx(Lit::new(-1)), 1);
    assert_eq!(lit_to_idx(Lit::new(2)), 2);
    assert_eq!(lit_to_idx(Lit::new(-2)), 3);
    assert_eq!(lit_to_idx(Lit::new(3)), 4);
    assert_eq!(lit_to_idx(Lit::new(-3)), 5);
    assert_eq!(lit_to_idx(Lit::new(4)), 6);
    assert_eq!(lit_to_idx(Lit::new(-4)), 7);
}

#[test]
fn test() {
    let mut litvec: LitVec<i32> = LitVec::new();
    litvec.expand(Lit::new(4), 0);

    litvec.set(Lit::new(1), 1);
    litvec.set(Lit::new(-1), -1);

    litvec.set(Lit::new(3), 3);
    litvec.set(Lit::new(-3), -3);

    assert_eq!(*litvec.get(Lit::new(1)), 1);
    assert_eq!(*litvec.get(Lit::new(-1)), -1);
    assert_eq!(*litvec.get(Lit::new(3)), 3);
    assert_eq!(*litvec.get(Lit::new(-3)), -3);
    assert_eq!(*litvec.get(Lit::new(2)), 0);
}

#[test]
fn remaining_test() {
    let mut data = vec![1, 2, 3, 4];

    let (val, remaining) = remaining(&mut data, 2).unwrap();
    assert_eq!(*val, 3);

    let val1 = remaining.get(0).unwrap();
    assert_eq!(*val1, 1);

    let val2 = remaining.get(1).unwrap();
    assert_eq!(*val2, 2);

    assert!(remaining.get(2).is_none());

    let val4 = remaining.get(3).unwrap();
    assert_eq!(*val4, 4);

    assert!(remaining.get(4).is_none());
}

#[test]
fn remaining_mut_and_out_of_bounds() {
    let mut data = vec![10, 20, 30];
    {
        let (val, mut rest) = remaining(&mut data, 0).unwrap();
        *val = 11;
        *rest.get_mut(2).unwrap() = 33;
        assert!(rest.get_mut(0).is_none());
    }
    assert_eq!(data, vec![11, 20, 33]);
    assert!(remaining(&mut data, 3).is_none());
}

#[test]
fn literal_encoding() {
    let l = Lit::new(5);
    assert_eq!(l.get(), 10);
    assert!(l.is_pos());
    assert!(!l.is_neg());
    assert_eq!(l.var().get(), 5);
    let n = l.neg();
    assert_eq!(n.get(), 11);
    assert!(n.is_neg());
    assert_eq!(n.neg(), l);
    assert_eq!(n.to_int(), -5);
    assert_eq!(Lit::from_var(Var::new(5), false), n);
}

#[test]
fn varvec_expand_and_iter() {
    let mut v: VarVec<u8> = VarVec::new();
    assert_eq!(v.len(), 0);
    v.expand(Var::new(3), 7);
    assert_eq!(v.len(), 3);
    v.set(Var::new(2), 9);
    let pairs = v.iter_with_var();
    assert_eq!(pairs.len(), 3);
    assert_eq!(pairs[0].0.get(), 1);
    assert_eq!(pairs[1].1, 9);
    assert_eq!(pairs[2].1, 7);
}

#[test]
fn flags_bits() {
    let mut f = Flags::new();
    assert!(!f.is_reason() && !f.is_garbage());
    f.set_is_reason(true);
    assert!(f.is_reason() && !f.is_garbage());
    f.set_is_garbage(true);
    f.set_is_reason(false);
    assert!(!f.is_reason() && f.is_garbage());
}

#[test]
fn arena_insert_get_and_collect() {
    let mut db = ClauseDB::new();
    let a = db.insert_clause(&vec![Lit::new(1), Lit::new(-2)], 0);
    let b = db.insert_clause(&vec![Lit::new(2), Lit::new(3), Lit::new(-4)], 5);
    let c = db.insert_clause(&vec![Lit::new(-1), Lit::new(4)], 3);
    let cl = db.get(b);
    assert_eq!(cl.len(), 3);
    assert_eq!(cl.glue(), 5);
    assert_eq!(cl.lits(), vec![Lit::new(2), Lit::new(3), Lit::new(-4)]);
    assert_eq!(db.iter().len(), 3);
    db.swap_lits(b, 0, 2);
    assert_eq!(db.lit(b, 0), Lit::new(-4));
    db.set_is_garbage(b, true);
    db.collect_garbage();
    assert_eq!(db.iter().len(), 2);
    let mut a2 = a;
    let mut b2 = b;
    let mut c2 = c;
    assert!(db.update_old_clause_index(&mut a2));
    assert!(!db.update_old_clause_index(&mut b2));
    assert!(db.update_old_clause_index(&mut c2));
    assert_eq!(db.get(a2).lits(), vec![Lit::new(1), Lit::new(-2)]);
    assert_eq!(db.get(c2).lits(), vec![Lit::new(-1), Lit::new(4)]);
    assert_eq!(db.get(c2).glue(), 3);
}

#[test]
fn normalization_sorts_dedups_and_detects_tautologies() {
    let mut c = vec![Lit::new(3), Lit::new(-1), Lit::new(3), Lit::new(2)];
    assert!(!normalise_clause(&mut c));
    assert_eq!(c, vec![Lit::new(-1), Lit::new(2), Lit::new(3)]);
    let mut t = vec![Lit::new(2), Lit::new(1), Lit::new(-2)];
    assert!(normalise_clause(&mut t));
}

#[test]
fn trail_assign_and_backtrack() {
    let mut t = Trail::new();
    t.expand(Var::new(3));
    t.assign_lit(Lit::new(1), TrailReason::Axiom);
    t.assign_lit(Lit::new(2), TrailReason::Decision);
    t.assign_lit(Lit::new(-3), TrailReason::Decision);
    assert_eq!(t.current_decision_level(), 2);
    assert_eq!(t.get_decision_level(Lit::new(-3)), Some(2));
    assert_eq!(t.get_lit_assignment(Lit::new(3)), Some(false));
    assert!(t.assignment_complete());
    let cut = t.backtrack(1);
    assert_eq!(cut, 2);
    assert_eq!(t.assigned_vars(), 2);
    assert!(t.is_lit_unassigned(Lit::new(3)));
    assert_eq!(t.find_unassigned_variable().map(|v| v.get()), Some(3));
    let d = t.pop_decision().unwrap();
    assert_eq!(d.lit, Lit::new(2));
    assert_eq!(t.current_decision_level(), 0);
    assert!(t.is_lit_satisfied(Lit::new(1)));
}

#[test]
fn dimacs_errors_and_wrapped_clauses() {
    assert_eq!(Dimacs::parse("1 x 0").unwrap_err(), ParseError::InvalidToken);
    assert_eq!(Dimacs::parse("1 -0a 0").unwrap_err(), ParseError::InvalidToken);
    assert_eq!(Dimacs::parse("99999999999 0").unwrap_err(), ParseError::LiteralTooLarge);
    let r = Dimacs::parse("1 2\n -3 0 4 0\n5").unwrap();
    assert_eq!(r, vec![vec![1, 2, -3], vec![4], vec![5]]);
    assert_eq!(Dimacs::parse("c only a comment\n").unwrap().len(), 0);
}

#[test]
fn dimacs_negative_and_comment_after_clause() {
    let r = Dimacs::parse("p cnf 2 2\n-1 2 0\nc note\n  -2 0\n").unwrap();
    assert_eq!(r, vec![vec![-1, 2], vec![-2]]);
    assert_eq!(Dimacs::parse("1 - 0").unwrap_err(), ParseError::InvalidToken);
    assert_eq!(Dimacs::parse("1073741824 0").unwrap_err(), ParseError::LiteralTooLarge);
    assert_eq!(Dimacs::parse("1073741823 0").unwrap(), vec![vec![1073741823]]);
}
