use vstd::prelude::*;
use crate::domains::{all_nonempty, narrows, Domain, DomainId, Literal};
use crate::engine::{
    at_fixpoint, lemma_posted_nothing, lemma_posted_stop, lemma_posted_then, posted,
    ConstraintOperationError, Solver,
};
use crate::propagators::{Propagator, ReifiedPropagator, Unit};

verus! {

/// Whether the assignment `s` satisfies every relation of `ps`.
pub open spec fn accepts(ps: Seq<Propagator>, s: Seq<int>) -> bool {
    forall|j: int| 0 <= j < ps.len() ==> (#[trigger] ps[j]).holds(s)
}

pub open spec fn props_below(ps: Seq<Propagator>, n: nat) -> bool {
    forall|j: int| 0 <= j < ps.len() ==> (#[trigger] ps[j]).vars_below(n)
}

/// The units that registering `ps` adds: plain ones, or ones guarded by the literal.
pub open spec fn registered(ps: Seq<Propagator>, guard: Option<Literal>) -> Seq<Unit> {
    match guard {
        None => ps.map_values(|p: Propagator| Unit::Plain(p)),
        Some(g) => ps.map_values(|p: Propagator| Unit::Reified(ReifiedPropagator { inner: p, guard: g })),
    }
}

pub proof fn lemma_registered_concat(a: Seq<Propagator>, b: Seq<Propagator>, guard: Option<Literal>)
    ensures
        registered(a + b, guard) == registered(a, guard) + registered(b, guard),
{
    assert(registered(a + b, guard) =~= registered(a, guard) + registered(b, guard));
}

/// A relation over variables, enforced by the propagation units that posting registers.
///
/// For example, `a = b` over two variables `a` and `b` only allows assignments of the same
/// value to both.
pub trait Constraint {
    /// The propagation units of the constraint, in the order in which they are registered.
    spec fn propagators(&self) -> Seq<Propagator>;

    /// Adds the constraint to the solver; fails with a conflict if that shows the model to have
    /// no solution.
    fn post(self, solver: &mut Solver) -> (r: Result<(), ConstraintOperationError>)
        requires
            old(solver).wf(),
            props_below(self.propagators(), old(solver).doms().len()),
        ensures
            final(solver).wf(),
            final(solver).doms().len() == old(solver).doms().len(),
            posted(*old(solver), *final(solver), registered(self.propagators(), None), r),
    ;

    /// Adds `reification_literal -> constraint` to the solver; fails with a conflict if that
    /// shows the model to have no solution.
    fn implied_by(self, solver: &mut Solver, reification_literal: Literal) -> (r: Result<
        (),
        ConstraintOperationError,
    >)
        requires
            old(solver).wf(),
            props_below(self.propagators(), old(solver).doms().len()),
            reification_literal.var.id < old(solver).doms().len(),
        ensures
            final(solver).wf(),
            final(solver).doms().len() == old(solver).doms().len(),
            posted(
                *old(solver),
                *final(solver),
                registered(self.propagators(), Some(reification_literal)),
                r,
            ),
    ;
}

/// A single propagation unit is a constraint of its own.
impl Constraint for Propagator {
    open spec fn propagators(&self) -> Seq<Propagator> {
        seq![*self]
    }

    fn post(self, solver: &mut Solver) -> (r: Result<(), ConstraintOperationError>) {
        proof {
            assert(registered(seq![self], None) =~= seq![Unit::Plain(self)]);
            assert(seq![self][0] == self);
        }
        solver.add_propagator(Unit::Plain(self))
    }

    fn implied_by(self, solver: &mut Solver, reification_literal: Literal) -> (r: Result<
        (),
        ConstraintOperationError,
    >) {
        let u = Unit::Reified(ReifiedPropagator { inner: self, guard: reification_literal });
        proof {
            assert(registered(seq![self], Some(reification_literal)) =~= seq![u]);
            assert(seq![self][0] == self);
        }
        solver.add_propagator(u)
    }
}

/// A constraint with a well-defined negation, which lets it be fully reified: `r <-> C`.
///
/// For example, the negation of `a = b` is `a != b`.
pub trait NegatableConstraint: Constraint {
    type NegatedConstraint: Constraint;

    spec fn negation_spec(&self) -> Self::NegatedConstraint;

    /// The negation accepts exactly the assignments that the constraint rejects.
    proof fn lemma_negation_complement(&self, s: Seq<int>)
        ensures
            accepts(self.negation_spec().propagators(), s) == !accepts(self.propagators(), s),
    ;

    /// The negation speaks of no other variables than the constraint.
    proof fn lemma_negation_vars(&self, n: nat)
        requires
            props_below(self.propagators(), n),
        ensures
            props_below(self.negation_spec().propagators(), n),
    ;

    /// The negated constraint; registers nothing.
    fn negation(&self) -> (r: Self::NegatedConstraint)
        ensures
            r == self.negation_spec(),
    ;

    /// Adds `reification_literal <-> constraint` to the solver: the constraint implied by the
    /// literal, then its negation implied by the literal's negation, stopping at the first
    /// conflict.
    fn reify(self, solver: &mut Solver, reification_literal: Literal) -> (r: Result<
        (),
        ConstraintOperationError,
    >) where Self: Sized
        requires
            old(solver).wf(),
            props_below(self.propagators(), old(solver).doms().len()),
            reification_literal.var.id < old(solver).doms().len(),
        ensures
            final(solver).wf(),
            final(solver).doms().len() == old(solver).doms().len(),
            posted(
                *old(solver),
                *final(solver),
                registered(self.propagators(), Some(reification_literal)) + registered(
                    self.negation_spec().propagators(),
                    Some(reification_literal.negation_spec()),
                ),
                r,
            ),
    {
        let negation = self.negation();
        let ghost s0 = *solver;
        let ghost us1 = registered(self.propagators(), Some(reification_literal));
        let ghost us2 = registered(
            self.negation_spec().propagators(),
            Some(reification_literal.negation_spec()),
        );
        proof {
            self.lemma_negation_vars(s0.doms().len());
        }
        match self.implied_by(solver, reification_literal) {
            Ok(()) => {},
            Err(e) => {
                proof {
                    lemma_posted_stop(s0, *solver, us1, us2, e);
                }
                return Err(e);
            },
        }
        let ghost s1 = *solver;
        let r = negation.implied_by(solver, reification_literal.negated());
        proof {
            lemma_posted_then(s0, s1, *solver, us1, us2, r);
        }
        r
    }
}

impl NegatableConstraint for Propagator {
    type NegatedConstraint = Propagator;

    open spec fn negation_spec(&self) -> Propagator {
        Propagator::negation_spec(*self)
    }

    proof fn lemma_negation_complement(&self, s: Seq<int>) {
        let n = Propagator::negation_spec(*self);
        assert(seq![n][0] == n);
        assert(seq![*self][0] == *self);
    }

    proof fn lemma_negation_vars(&self, n: nat) {
        assert(seq![*self][0] == *self);
    }

    fn negation(&self) -> (r: Propagator) {
        Propagator::negation(self)
    }
}

/// The propagation units of a sequence of constraints, one constraint after the other.
pub open spec fn flatten<C: Constraint>(cs: Seq<C>) -> Seq<Propagator>
    decreases cs.len(),
{
    if cs.len() == 0 {
        Seq::empty()
    } else {
        flatten(cs.drop_last()) + cs.last().propagators()
    }
}

pub proof fn lemma_flatten_split<C: Constraint>(cs: Seq<C>, k: int)
    requires
        0 <= k <= cs.len(),
    ensures
        flatten(cs) == flatten(cs.take(k)) + flatten(cs.skip(k)),
    decreases cs.len(),
{
    if k == cs.len() {
        assert(cs.take(k) =~= cs);
        assert(cs.skip(k) =~= Seq::<C>::empty());
        assert(flatten(cs) + Seq::<Propagator>::empty() =~= flatten(cs));
    } else {
        let dl = cs.drop_last();
        lemma_flatten_split(dl, k);
        assert(dl.take(k) =~= cs.take(k));
        assert(cs.skip(k).drop_last() =~= dl.skip(k));
        assert(cs.skip(k).last() == cs.last());
        assert(flatten(cs) =~= flatten(cs.take(k)) + flatten(cs.skip(k)));
    }
}

/// Every constraint of `cs` speaks of variables below `n`.
pub open spec fn all_below<C: Constraint>(cs: Seq<C>, n: nat) -> bool {
    forall|i: int| 0 <= i < cs.len() ==> props_below((#[trigger] cs[i]).propagators(), n)
}

pub proof fn lemma_flatten_below<C: Constraint>(cs: Seq<C>, n: nat)
    requires
        all_below(cs, n),
    ensures
        props_below(flatten(cs), n),
    decreases cs.len(),
{
    if cs.len() > 0 {
        let dl = cs.drop_last();
        assert(all_below(dl, n)) by {
            assert forall|i: int| 0 <= i < dl.len() implies props_below(
                (#[trigger] dl[i]).propagators(),
                n,
            ) by {
                assert(dl[i] == cs[i]);
            }
        }
        lemma_flatten_below(dl, n);
        assert(props_below(cs[cs.len() - 1].propagators(), n));
        let f = flatten(cs);
        assert forall|j: int| 0 <= j < f.len() implies (#[trigger] f[j]).vars_below(n) by {
            if j < flatten(dl).len() {
                assert(f[j] == flatten(dl)[j]);
            } else {
                assert(f[j] == cs.last().propagators()[j - flatten(dl).len()]);
            }
        }
    }
}

proof fn lemma_below_flatten<C: Constraint>(cs: Seq<C>, n: nat)
    requires
        props_below(flatten(cs), n),
    ensures
        all_below(cs, n),
    decreases cs.len(),
{
    if cs.len() > 0 {
        let dl = cs.drop_last();
        let f = flatten(cs);
        let fd = flatten(dl);
        assert(props_below(fd, n)) by {
            assert forall|j: int| 0 <= j < fd.len() implies (#[trigger] fd[j]).vars_below(n) by {
                assert(f[j] == fd[j]);
            }
        }
        lemma_below_flatten(dl, n);
        let lp = cs.last().propagators();
        assert(props_below(lp, n)) by {
            assert forall|j: int| 0 <= j < lp.len() implies (#[trigger] lp[j]).vars_below(n) by {
                assert(f[fd.len() + j] == lp[j]);
            }
        }
        assert forall|i: int| 0 <= i < cs.len() implies props_below(
            (#[trigger] cs[i]).propagators(),
            n,
        ) by {
            if i < dl.len() {
                assert(dl[i] == cs[i]);
            }
        }
    }
}

/// Registers the constraints of `cs` in order, each plain (`guard` is `None`) or implied by the
/// guard, stopping at the first refusal, which is the result: nothing after the refused unit is
/// registered.
pub fn register_each<C: Constraint>(cs: Vec<C>, solver: &mut Solver, guard: Option<Literal>) -> (r:
    Result<(), ConstraintOperationError>)
    requires
        old(solver).wf(),
        props_below(flatten(cs@), old(solver).doms().len()),
        guard matches Some(g) ==> g.var.id < old(solver).doms().len(),
    ensures
        final(solver).wf(),
        final(solver).doms().len() == old(solver).doms().len(),
        posted(*old(solver), *final(solver), registered(flatten(cs@), guard), r),
{
    let ghost s0 = *solver;
    let ghost all = cs@;
    let ghost n = s0.doms().len();
    proof {
        lemma_below_flatten(all, n);
        lemma_posted_nothing(s0);
        assert(all.take(0) =~= Seq::<C>::empty());
        assert(registered(Seq::empty(), guard) =~= Seq::<Unit>::empty());
    }
    let mut rest = cs;
    let ghost mut i: int = 0;
    while rest.len() > 0
        invariant
            s0 == *old(solver),
            all == cs@,
            n == s0.doms().len(),
            0 <= i <= all.len(),
            rest@ == all.skip(i),
            all_below(all, n),
            solver.wf(),
            solver.doms().len() == n,
            guard matches Some(g) ==> g.var.id < n,
            posted(s0, *solver, registered(flatten(all.take(i)), guard), Ok(())),
        decreases rest@.len(),
    {
        let c = rest.remove(0);
        let ghost s1 = *solver;
        proof {
            assert(c == all[i]);
            assert(props_below(all[i].propagators(), n));
        }
        let r = match guard {
            None => c.post(solver),
            Some(g) => c.implied_by(solver, g),
        };
        proof {
            let done = registered(flatten(all.take(i)), guard);
            let this = registered(all[i].propagators(), guard);
            lemma_posted_then(s0, s1, *solver, done, this, r);
            assert(all.take(i + 1).drop_last() =~= all.take(i));
            assert(all.take(i + 1).last() == all[i]);
            lemma_registered_concat(flatten(all.take(i)), all[i].propagators(), guard);
            if r is Err {
                let e = r->Err_0;
                lemma_flatten_split(all, i + 1);
                lemma_registered_concat(flatten(all.take(i + 1)), flatten(all.skip(i + 1)), guard);
                lemma_posted_stop(
                    s0,
                    *solver,
                    registered(flatten(all.take(i + 1)), guard),
                    registered(flatten(all.skip(i + 1)), guard),
                    e,
                );
                assert(registered(flatten(all), guard) == registered(flatten(all.take(i + 1)), guard)
                    + registered(flatten(all.skip(i + 1)), guard));
            }
        }
        if r.is_err() {
            return r;
        }
        proof {
            i = i + 1;
            assert(rest@ =~= all.skip(i));
        }
    }
    proof {
        assert(all.take(i) =~= all);
    }
    Ok(())
}

/// An ordered sequence of constraints is one constraint: each is registered in turn, and the
/// first refusal ends the whole.
impl<C: Constraint> Constraint for Vec<C> {
    open spec fn propagators(&self) -> Seq<Propagator> {
        flatten(self@)
    }

    fn post(self, solver: &mut Solver) -> (r: Result<(), ConstraintOperationError>) {
        register_each(self, solver, None)
    }

    fn implied_by(self, solver: &mut Solver, reification_literal: Literal) -> (r: Result<
        (),
        ConstraintOperationError,
    >) {
        register_each(self, solver, Some(reification_literal))
    }
}

/// The constraint `a == b`.
pub fn equals(a: DomainId, b: DomainId) -> (r: Propagator)
    ensures
        r == (Propagator::Equals { a, b }),
{
    Propagator::Equals { a, b }
}

/// The constraint `a != b`.
pub fn not_equals(a: DomainId, b: DomainId) -> (r: Propagator)
    ensures
        r == (Propagator::NotEquals { a, b }),
{
    Propagator::NotEquals { a, b }
}

/// Negating a constraint twice gives one that accepts exactly the assignments that it accepts.
pub proof fn lemma_double_negation<C: NegatableConstraint>(c: C, s: Seq<int>) where
    C::NegatedConstraint: NegatableConstraint,

    ensures
        accepts(c.negation_spec().negation_spec().propagators(), s) == accepts(c.propagators(), s),
{
    c.lemma_negation_complement(s);
    c.negation_spec().lemma_negation_complement(s);
}

/// Below domains where the literal is true, the units guarded by it have exactly the fixed
/// points of the same units unguarded: implied by a true literal, constraints act as posted.
pub proof fn lemma_true_guard_as_post(
    base: Seq<Unit>,
    ps: Seq<Propagator>,
    reification_literal: Literal,
    d: Seq<Domain>,
    e: Seq<Domain>,
)
    requires
        reification_literal.var.id < d.len(),
        reification_literal.true_in(d[reification_literal.var.id as int]),
        narrows(e, d),
        all_nonempty(e),
    ensures
        at_fixpoint(e, base + registered(ps, Some(reification_literal))) == at_fixpoint(
            e,
            base + registered(ps, None),
        ),
{
    let g = reification_literal;
    let gi = g.var.id as int;
    assert(e[gi].within(d[gi]) && !e[gi].is_empty());
    assert(g.true_in(e[gi]) && !g.false_in(e[gi]));
    let x = base + registered(ps, Some(g));
    let y = base + registered(ps, None);
    assert forall|j: int| 0 <= j < x.len() implies (#[trigger] x[j]).prop(e) == y[j].prop(e) by {
        if j >= base.len() {
            assert(x[j] == registered(ps, Some(g))[j - base.len()]);
            assert(y[j] == registered(ps, None)[j - base.len()]);
        }
    }
    if at_fixpoint(e, x) {
        assert forall|j: int| 0 <= j < y.len() implies (#[trigger] y[j]).prop(e) == e by {
            assert(x[j].prop(e) == e);
        }
    }
    if at_fixpoint(e, y) {
        assert forall|j: int| 0 <= j < x.len() implies (#[trigger] x[j]).prop(e) == e by {
            assert(y[j].prop(e) == e);
        }
    }
}

/// Once a consistent solver holds both halves of `reification_literal <-> c`, its domains are a
/// fixed point of every unit of `c` when the literal is true, and of every unit of the negation
/// when it is false.
pub proof fn lemma_reified_enforced<C: NegatableConstraint>(
    c: C,
    solver: Solver,
    reification_literal: Literal,
)
    requires
        solver.wf(),
        !solver.infeasible_spec(),
        reification_literal.var.id < solver.doms().len(),
        forall|u: Unit|
            (registered(c.propagators(), Some(reification_literal)) + registered(
                c.negation_spec().propagators(),
                Some(reification_literal.negation_spec()),
            )).contains(u) ==> #[trigger] solver.units_spec().contains(u),
    ensures
        reification_literal.true_in(solver.doms()[reification_literal.var.id as int]) ==> forall|
            j: int,
        |
            0 <= j < c.propagators().len() ==> (#[trigger] c.propagators()[j]).prop(solver.doms())
                == solver.doms(),
        reification_literal.false_in(solver.doms()[reification_literal.var.id as int]) ==> forall|
            j: int,
        |
            0 <= j < c.negation_spec().propagators().len() ==> (
            #[trigger] c.negation_spec().propagators()[j]).prop(solver.doms()) == solver.doms(),
{
    let g = reification_literal;
    let doms = solver.doms();
    let gd = doms[g.var.id as int];
    let us = solver.units_spec();
    let pos = registered(c.propagators(), Some(g));
    let neg = registered(c.negation_spec().propagators(), Some(g.negation_spec()));
    solver.lemma_consistent();
    assert forall|j: int| 0 <= j < c.propagators().len() && g.true_in(gd) implies (
    #[trigger] c.propagators()[j]).prop(doms) == doms by {
        let u = pos[j];
        assert((pos + neg)[j] == u);
        assert((pos + neg).contains(u));
        assert(us.contains(u));
        let k = choose|k: int| 0 <= k < us.len() && us[k] == u;
        assert(us[k].prop(doms) == doms);
    }
    assert forall|j: int|
        0 <= j < c.negation_spec().propagators().len() && g.false_in(gd) implies (
    #[trigger] c.negation_spec().propagators()[j]).prop(doms) == doms by {
        let u = neg[j];
        assert((pos + neg)[pos.len() + j] == u);
        assert((pos + neg).contains(u));
        assert(us.contains(u));
        let k = choose|k: int| 0 <= k < us.len() && us[k] == u;
        assert(us[k].prop(doms) == doms);
    }
}

/// A guarded unit whose guard is undecided changes no variable but the guard's own: the inner
/// unit's narrowing does not fire.
pub proof fn lemma_undecided_guard(r: ReifiedPropagator, doms: Seq<Domain>)
    requires
        r.vars_below(doms.len()),
        !r.guard.true_in(doms[r.guard.var.id as int]),
        !r.guard.false_in(doms[r.guard.var.id as int]),
    ensures
        r.prop(doms).len() == doms.len(),
        forall|i: int| 0 <= i < doms.len() && i != r.guard.var.id ==> #[trigger] r.prop(doms)[i] == doms[i],
{
}

/// Registering constraints implied by a literal that is already false changes no domain, and
/// succeeds on a consistent solver.
pub proof fn lemma_false_guard_inert(
    ps: Seq<Propagator>,
    reification_literal: Literal,
    s0: Solver,
    s1: Solver,
    r: Result<(), ConstraintOperationError>,
)
    requires
        reification_literal.var.id < s0.doms().len(),
        reification_literal.false_in(s0.doms()[reification_literal.var.id as int]),
        posted(s0, s1, registered(ps, Some(reification_literal)), r),
    ensures
        !s0.infeasible_spec() ==> r is Ok,
        s1.doms() == s0.doms(),
{
    let us = registered(ps, Some(reification_literal));
    assert forall|j: int| 0 <= j < us.len() implies (#[trigger] us[j]).prop(s0.doms())
        == s0.doms() by {}
    if s0.infeasible_spec() && us.len() > 0 {
        match r {
            Ok(()) => {},
            Err(e) => match e {
                ConstraintOperationError::InfeasibleState => {},
                ConstraintOperationError::InfeasiblePropagator => {},
            },
        }
    }
}

/// After a successful registration every registered unit stands in the solver.
pub proof fn lemma_posted_registers(s0: Solver, s1: Solver, us: Seq<Unit>)
    requires
        posted(s0, s1, us, Ok(())),
    ensures
        forall|u: Unit| us.contains(u) ==> #[trigger] s1.units_spec().contains(u),
{
    assert forall|u: Unit| us.contains(u) implies #[trigger] s1.units_spec().contains(u) by {
        let j = choose|j: int| 0 <= j < us.len() && us[j] == u;
        assert(s1.units_spec()[s0.units_spec().len() + j] == u);
    }
}

} // verus!
