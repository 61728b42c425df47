use pumpkin_lib::{
    equals, not_equals, register_each, Constraint, ConstraintOperationError, DomainId, Literal,
    NegatableConstraint, Propagator, ReifiedPropagator, Solver, Unit,
};

fn bounds(solver: &Solver, v: DomainId) -> (i64, i64) {
    (solver.lower_bound(v), solver.upper_bound(v))
}

#[test]
fn equals_keeps_overlapping_domains_and_follows_an_assignment() {
    let mut solver = Solver::new();
    let a = solver.new_bounded_integer(0, 3);
    let b = solver.new_bounded_integer(0, 3);
    assert_eq!(equals(a, b).post(&mut solver), Ok(()));
    assert_eq!(bounds(&solver, a), (0, 3));
    assert_eq!(bounds(&solver, b), (0, 3));
    assert_eq!(solver.restrict(a, 1, 1), Ok(()));
    assert_eq!(bounds(&solver, b), (1, 1));
}

#[test]
fn equals_narrows_to_the_intersection() {
    let mut solver = Solver::new();
    let a = solver.new_bounded_integer(0, 5);
    let b = solver.new_bounded_integer(3, 9);
    assert_eq!(equals(a, b).post(&mut solver), Ok(()));
    assert_eq!(bounds(&solver, a), (3, 5));
    assert_eq!(bounds(&solver, b), (3, 5));
    assert_eq!(solver.num_propagators(), 1);
}

#[test]
fn equals_on_disjoint_domains_is_a_root_conflict() {
    let mut solver = Solver::new();
    let a = solver.new_bounded_integer(2, 2);
    let b = solver.new_bounded_integer(5, 5);
    assert_eq!(
        equals(a, b).post(&mut solver),
        Err(ConstraintOperationError::InfeasiblePropagator)
    );
    assert!(solver.is_infeasible());
}

#[test]
fn posting_on_an_infeasible_model_is_refused() {
    let mut solver = Solver::new();
    let a = solver.new_bounded_integer(2, 2);
    let b = solver.new_bounded_integer(5, 5);
    let c = solver.new_bounded_integer(0, 9);
    assert!(equals(a, b).post(&mut solver).is_err());
    assert_eq!(
        equals(a, c).post(&mut solver),
        Err(ConstraintOperationError::InfeasibleState)
    );
    assert_eq!(bounds(&solver, c), (0, 9));
    assert_eq!(
        solver.restrict(c, 1, 1),
        Err(ConstraintOperationError::InfeasibleState)
    );
}

#[test]
fn not_equals_removes_a_fixed_value_from_a_bound() {
    let mut solver = Solver::new();
    let a = solver.new_bounded_integer(2, 2);
    let b = solver.new_bounded_integer(2, 5);
    let c = solver.new_bounded_integer(0, 2);
    assert_eq!(not_equals(a, b).post(&mut solver), Ok(()));
    assert_eq!(bounds(&solver, b), (3, 5));
    assert_eq!(not_equals(c, a).post(&mut solver), Ok(()));
    assert_eq!(bounds(&solver, c), (0, 1));
}

#[test]
fn not_equals_on_equal_fixed_values_is_a_root_conflict() {
    let mut solver = Solver::new();
    let a = solver.new_bounded_integer(4, 4);
    let b = solver.new_bounded_integer(4, 4);
    assert_eq!(
        not_equals(a, b).post(&mut solver),
        Err(ConstraintOperationError::InfeasiblePropagator)
    );
}

#[test]
fn restrict_to_no_value_is_a_conflict() {
    let mut solver = Solver::new();
    let a = solver.new_bounded_integer(0, 3);
    assert_eq!(
        solver.restrict(a, 5, 7),
        Err(ConstraintOperationError::InfeasiblePropagator)
    );
    assert!(solver.is_infeasible());
}

#[test]
fn propagation_chains_to_a_fixed_point() {
    let mut solver = Solver::new();
    let a = solver.new_bounded_integer(0, 9);
    let b = solver.new_bounded_integer(0, 9);
    let c = solver.new_bounded_integer(0, 9);
    assert_eq!(equals(b, c).post(&mut solver), Ok(()));
    assert_eq!(equals(a, b).post(&mut solver), Ok(()));
    assert_eq!(solver.restrict(a, 4, 6), Ok(()));
    assert_eq!(bounds(&solver, c), (4, 6));
    assert_eq!(solver.restrict(c, 6, 9), Ok(()));
    assert_eq!(bounds(&solver, a), (6, 6));
}

#[test]
fn reify_with_disjoint_values_makes_the_literal_false() {
    let mut solver = Solver::new();
    let a = solver.new_bounded_integer(2, 2);
    let b = solver.new_bounded_integer(5, 5);
    let r = solver.new_literal();
    assert_eq!(equals(a, b).reify(&mut solver, r), Ok(()));
    assert!(solver.is_literal_false(r));
    assert_eq!(bounds(&solver, r.var), (0, 0));
    assert_eq!(solver.num_propagators(), 2);
}

#[test]
fn reify_with_a_true_literal_enforces_the_constraint() {
    let mut solver = Solver::new();
    let a = solver.new_bounded_integer(0, 5);
    let b = solver.new_bounded_integer(3, 9);
    let r = solver.new_literal();
    assert_eq!(equals(a, b).reify(&mut solver, r), Ok(()));
    assert_eq!(bounds(&solver, a), (0, 5));
    assert_eq!(bounds(&solver, b), (3, 9));
    assert_eq!(solver.restrict(r.var, 1, 1), Ok(()));
    assert!(solver.is_literal_true(r));
    assert_eq!(bounds(&solver, a), (3, 5));
    assert_eq!(bounds(&solver, b), (3, 5));
}

#[test]
fn reify_with_a_false_literal_enforces_the_negation() {
    let mut solver = Solver::new();
    let a = solver.new_bounded_integer(3, 3);
    let b = solver.new_bounded_integer(3, 9);
    let r = solver.new_literal();
    assert_eq!(equals(a, b).reify(&mut solver, r), Ok(()));
    assert_eq!(bounds(&solver, b), (3, 9));
    assert_eq!(solver.restrict(r.var, 0, 0), Ok(()));
    assert_eq!(bounds(&solver, b), (4, 9));
}

#[test]
fn reify_with_an_undecided_literal_narrows_nothing() {
    let mut solver = Solver::new();
    let a = solver.new_bounded_integer(0, 5);
    let b = solver.new_bounded_integer(3, 9);
    let r = solver.new_literal();
    assert_eq!(equals(a, b).reify(&mut solver, r), Ok(()));
    assert_eq!(bounds(&solver, a), (0, 5));
    assert_eq!(bounds(&solver, b), (3, 9));
    assert_eq!(bounds(&solver, r.var), (0, 1));
}

#[test]
fn reify_of_a_violated_negation_makes_the_literal_true() {
    let mut solver = Solver::new();
    let a = solver.new_bounded_integer(4, 4);
    let b = solver.new_bounded_integer(4, 4);
    let r = solver.new_literal();
    assert_eq!(equals(a, b).reify(&mut solver, r), Ok(()));
    assert!(solver.is_literal_true(r));
    assert_eq!(bounds(&solver, r.var), (1, 1));
}

#[test]
fn implied_by_a_false_literal_changes_nothing() {
    let mut solver = Solver::new();
    let a = solver.new_bounded_integer(0, 3);
    let b = solver.new_bounded_integer(2, 5);
    let r = solver.new_literal();
    assert_eq!(solver.restrict(r.var, 0, 0), Ok(()));
    assert_eq!(equals(a, b).implied_by(&mut solver, r), Ok(()));
    assert_eq!(bounds(&solver, a), (0, 3));
    assert_eq!(bounds(&solver, b), (2, 5));
    assert_eq!(solver.num_propagators(), 1);
}

#[test]
fn implied_by_a_true_literal_enforces_the_constraint() {
    let mut solver = Solver::new();
    let a = solver.new_bounded_integer(0, 3);
    let b = solver.new_bounded_integer(2, 5);
    let r = solver.new_literal();
    assert_eq!(solver.restrict(r.var, 1, 1), Ok(()));
    assert_eq!(equals(a, b).implied_by(&mut solver, r), Ok(()));
    assert_eq!(bounds(&solver, a), (2, 3));
    assert_eq!(bounds(&solver, b), (2, 3));
}

#[test]
fn implied_by_a_negative_literal() {
    let mut solver = Solver::new();
    let a = solver.new_bounded_integer(0, 3);
    let b = solver.new_bounded_integer(2, 5);
    let r = solver.new_literal();
    assert_eq!(equals(a, b).implied_by(&mut solver, r.negated()), Ok(()));
    assert_eq!(bounds(&solver, a), (0, 3));
    assert_eq!(solver.restrict(r.var, 0, 0), Ok(()));
    assert_eq!(bounds(&solver, a), (2, 3));
}

#[test]
fn sequence_stops_at_the_first_conflict() {
    let mut solver = Solver::new();
    let x = solver.new_bounded_integer(0, 5);
    let y = solver.new_bounded_integer(3, 9);
    let a = solver.new_bounded_integer(2, 2);
    let b = solver.new_bounded_integer(5, 5);
    let p = solver.new_bounded_integer(0, 9);
    let q = solver.new_bounded_integer(7, 8);
    let cs = vec![equals(x, y), equals(a, b), equals(p, q)];
    assert_eq!(
        cs.post(&mut solver),
        Err(ConstraintOperationError::InfeasiblePropagator)
    );
    assert_eq!(solver.num_propagators(), 2);
    assert_eq!(bounds(&solver, x), (3, 5));
    assert_eq!(bounds(&solver, p), (0, 9));

    let mut alone = Solver::new();
    let a2 = alone.new_bounded_integer(2, 2);
    let b2 = alone.new_bounded_integer(5, 5);
    assert_eq!(
        equals(a2, b2).post(&mut alone),
        Err(ConstraintOperationError::InfeasiblePropagator)
    );
}

#[test]
fn sequence_posts_every_constraint_in_order() {
    let mut solver = Solver::new();
    let a = solver.new_bounded_integer(0, 9);
    let b = solver.new_bounded_integer(4, 6);
    let c = solver.new_bounded_integer(5, 9);
    let cs = vec![equals(a, b), equals(b, c)];
    assert_eq!(cs.post(&mut solver), Ok(()));
    assert_eq!(solver.num_propagators(), 2);
    assert_eq!(bounds(&solver, a), (5, 6));
    assert_eq!(bounds(&solver, c), (5, 6));
}

#[test]
fn empty_sequence_posts_nothing() {
    let mut solver = Solver::new();
    let cs: Vec<Propagator> = Vec::new();
    assert_eq!(cs.post(&mut solver), Ok(()));
    assert_eq!(solver.num_propagators(), 0);
}

#[test]
fn sequence_implied_by_a_literal_guards_every_element() {
    let mut solver = Solver::new();
    let a = solver.new_bounded_integer(0, 9);
    let b = solver.new_bounded_integer(4, 6);
    let c = solver.new_bounded_integer(5, 9);
    let r = solver.new_literal();
    let cs = vec![equals(a, b), equals(b, c)];
    assert_eq!(cs.implied_by(&mut solver, r), Ok(()));
    assert_eq!(bounds(&solver, a), (0, 9));
    assert_eq!(solver.num_propagators(), 2);
    assert_eq!(solver.restrict(r.var, 1, 1), Ok(()));
    assert_eq!(bounds(&solver, a), (5, 6));
}

#[test]
fn register_each_with_a_guard() {
    let mut solver = Solver::new();
    let a = solver.new_bounded_integer(2, 2);
    let b = solver.new_bounded_integer(5, 5);
    let r = solver.new_literal();
    assert_eq!(register_each(vec![equals(a, b)], &mut solver, Some(r)), Ok(()));
    assert!(solver.is_literal_false(r));
}

#[test]
fn negation_is_the_complement() {
    let a = DomainId { id: 0 };
    let b = DomainId { id: 1 };
    assert_eq!(equals(a, b).negation(), not_equals(a, b));
    assert_eq!(not_equals(a, b).negation(), equals(a, b));
    assert_eq!(equals(a, b).negation().negation(), equals(a, b));
}

#[test]
fn literal_negation_flips_polarity() {
    let l = Literal { var: DomainId { id: 3 }, positive: true };
    let n = l.negated();
    assert_eq!(n.var, l.var);
    assert!(!n.positive);
    assert_eq!(n.negated(), l);
}

#[test]
fn add_propagator_registers_a_guarded_unit() {
    let mut solver = Solver::new();
    let a = solver.new_bounded_integer(1, 1);
    let b = solver.new_bounded_integer(0, 3);
    let r = solver.new_literal();
    let u = Unit::Reified(ReifiedPropagator { inner: not_equals(a, b), guard: r });
    assert_eq!(solver.add_propagator(u), Ok(()));
    assert_eq!(bounds(&solver, b), (0, 3));
    assert_eq!(solver.restrict(b, 1, 1), Ok(()));
    assert!(solver.is_literal_false(r));
    assert_eq!(solver.num_variables(), 3);
}

#[test]
fn default_solver_is_empty() {
    let solver = Solver::default();
    assert_eq!(solver.num_variables(), 0);
    assert_eq!(solver.num_propagators(), 0);
    assert!(!solver.is_infeasible());
}

#[test]
fn narrowing_wakes_only_watching_units_until_quiet() {
    let mut solver = Solver::new();
    let a = solver.new_bounded_integer(0, 5);
    let b = solver.new_bounded_integer(0, 5);
    let c = solver.new_bounded_integer(0, 0);
    assert_eq!(not_equals(b, c).post(&mut solver), Ok(()));
    assert_eq!(bounds(&solver, b), (1, 5));
    assert_eq!(equals(a, b).post(&mut solver), Ok(()));
    assert_eq!(bounds(&solver, a), (1, 5));
    assert_eq!(solver.restrict(a, 0, 1), Ok(()));
    assert_eq!(bounds(&solver, a), (1, 1));
    assert_eq!(bounds(&solver, b), (1, 1));
    assert_eq!(bounds(&solver, c), (0, 0));
}

#[test]
fn literal_holds_as_nonzero_or_zero() {
    let mut solver = Solver::new();
    let x = solver.new_bounded_integer(-3, -1);
    let pos = Literal { var: x, positive: true };
    assert!(solver.is_literal_true(pos));
    assert!(solver.is_literal_false(pos.negated()));
    let r = solver.new_literal();
    assert_eq!(bounds(&solver, r.var), (0, 1));
    assert!(!solver.is_literal_true(r));
    assert!(!solver.is_literal_false(r));
}

#[test]
fn error_only_when_propagation_reaches_a_conflict() {
    let mut solver = Solver::new();
    let a = solver.new_bounded_integer(0, 1);
    let b = solver.new_bounded_integer(0, 1);
    assert_eq!(equals(a, b).post(&mut solver), Ok(()));
    assert_eq!(not_equals(a, b).post(&mut solver), Ok(()));
    assert_eq!(bounds(&solver, a), (0, 1));
    assert_eq!(bounds(&solver, b), (0, 1));
}

#[test]
fn reify_refused_first_half_registers_no_negation() {
    let mut solver = Solver::new();
    let a = solver.new_bounded_integer(2, 2);
    let b = solver.new_bounded_integer(5, 5);
    let r = solver.new_literal();
    assert_eq!(solver.restrict(r.var, 1, 1), Ok(()));
    assert_eq!(
        equals(a, b).reify(&mut solver, r),
        Err(ConstraintOperationError::InfeasiblePropagator)
    );
    assert_eq!(solver.num_propagators(), 1);
}

#[test]
fn reify_refused_second_half_fails_the_whole() {
    let mut solver = Solver::new();
    let a = solver.new_bounded_integer(4, 4);
    let b = solver.new_bounded_integer(4, 4);
    let r = solver.new_literal();
    assert_eq!(solver.restrict(r.var, 0, 0), Ok(()));
    assert_eq!(
        equals(a, b).reify(&mut solver, r),
        Err(ConstraintOperationError::InfeasiblePropagator)
    );
    assert_eq!(solver.num_propagators(), 2);
}

#[test]
fn refusal_on_an_infeasible_model_changes_nothing() {
    let mut solver = Solver::new();
    let a = solver.new_bounded_integer(2, 2);
    let b = solver.new_bounded_integer(5, 5);
    let c = solver.new_bounded_integer(0, 9);
    assert!(equals(a, b).post(&mut solver).is_err());
    let n = solver.num_propagators();
    assert_eq!(
        solver.restrict(c, 3, 4),
        Err(ConstraintOperationError::InfeasibleState)
    );
    assert_eq!(bounds(&solver, c), (0, 9));
    assert_eq!(
        vec![equals(a, c)].implied_by(&mut solver, Literal { var: c, positive: true }),
        Err(ConstraintOperationError::InfeasibleState)
    );
    assert_eq!(solver.num_propagators(), n);
}

#[test]
fn implied_by_a_true_literal_matches_post() {
    let mut s1 = Solver::new();
    let a1 = s1.new_bounded_integer(0, 3);
    let b1 = s1.new_bounded_integer(2, 5);
    let r1 = s1.new_literal();
    assert_eq!(s1.restrict(r1.var, 1, 1), Ok(()));
    assert_eq!(vec![equals(a1, b1)].implied_by(&mut s1, r1), Ok(()));

    let mut s2 = Solver::new();
    let a2 = s2.new_bounded_integer(0, 3);
    let b2 = s2.new_bounded_integer(2, 5);
    let r2 = s2.new_literal();
    assert_eq!(s2.restrict(r2.var, 1, 1), Ok(()));
    assert_eq!(vec![equals(a2, b2)].post(&mut s2), Ok(()));

    assert_eq!(bounds(&s1, a1), bounds(&s2, a2));
    assert_eq!(bounds(&s1, b1), bounds(&s2, b2));
}
