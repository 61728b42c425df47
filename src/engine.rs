use vstd::prelude::*;
use crate::domains::{all_nonempty, in_domains, narrows, Domain, DomainId, Literal};
use crate::propagators::{intersection, Unit};

verus! {

/// Why posting a constraint was refused.
#[derive(Clone, Copy, Debug, PartialEq, Eq, Structural)]
pub enum ConstraintOperationError {
    /// Registering the constraint led to a conflict before any decision: the model has no
    /// solution.
    InfeasiblePropagator,
    /// The solver had already found the model to have no solution.
    InfeasibleState,
}

/// A domain became empty while running the units to a fixed point.
#[derive(Clone, Copy, Debug, PartialEq, Eq, Structural)]
pub struct Contradiction;

/// Whether every unit of `us` holds of the assignment `s`.
pub open spec fn holds_all(us: Seq<Unit>, s: Seq<int>) -> bool {
    forall|j: int| 0 <= j < us.len() ==> (#[trigger] us[j]).holds(s)
}

pub open spec fn is_solution(s: Seq<int>, doms: Seq<Domain>, us: Seq<Unit>) -> bool {
    in_domains(s, doms) && holds_all(us, s)
}

pub open spec fn no_solution(doms: Seq<Domain>, us: Seq<Unit>) -> bool {
    forall|s: Seq<int>| !#[trigger] is_solution(s, doms, us)
}

/// Every solution of the units within `old` stays within `new`.
pub open spec fn keeps_solutions(old: Seq<Domain>, us: Seq<Unit>, new: Seq<Domain>) -> bool {
    forall|s: Seq<int>| #[trigger] is_solution(s, old, us) ==> in_domains(s, new)
}

/// No unit narrows `doms` any further.
pub open spec fn at_fixpoint(doms: Seq<Domain>, us: Seq<Unit>) -> bool {
    forall|j: int| 0 <= j < us.len() ==> (#[trigger] us[j]).prop(doms) == doms
}

pub open spec fn units_below(us: Seq<Unit>, n: nat) -> bool {
    forall|j: int| 0 <= j < us.len() ==> (#[trigger] us[j]).vars_below(n)
}

/// The number of values that narrowing can still take away from `doms`.
pub open spec fn total_slack(doms: Seq<Domain>) -> nat
    decreases doms.len(),
{
    if doms.len() == 0 {
        0
    } else {
        total_slack(doms.drop_last()) + doms.last().slack()
    }
}

proof fn lemma_slack_narrows(x: Seq<Domain>, y: Seq<Domain>)
    requires
        narrows(x, y),
        all_nonempty(x),
    ensures
        total_slack(x) <= total_slack(y),
        x != y ==> total_slack(x) < total_slack(y),
    decreases x.len(),
{
    if x.len() > 0 {
        let (xp, yp) = (x.drop_last(), y.drop_last());
        assert(narrows(xp, yp)) by {
            assert forall|i: int| 0 <= i < xp.len() implies (#[trigger] xp[i]).within(yp[i]) by {
                assert(x[i].within(y[i]));
            }
        }
        assert(all_nonempty(xp)) by {
            assert forall|i: int| 0 <= i < xp.len() implies !(#[trigger] xp[i]).is_empty() by {
                assert(!x[i].is_empty());
            }
        }
        lemma_slack_narrows(xp, yp);
        let (xl, yl) = (x.last(), y.last());
        assert(xl.within(y.last()) && !xl.is_empty());
        assert(xl.slack() <= yl.slack());
        assert(total_slack(x) == total_slack(xp) + xl.slack());
        assert(total_slack(y) == total_slack(yp) + yl.slack());
        if x != y && xp == yp {
            assert(x.last() != y.last()) by {
                if xl == yl {
                    assert(x =~= y) by {
                        assert forall|i: int| 0 <= i < x.len() implies x[i] == y[i] by {
                            if i < xp.len() {
                                assert(xp[i] == yp[i]);
                            }
                        }
                    }
                }
            }
            assert(xl.slack() < yl.slack());
        }
    } else {
        assert(x =~= y);
    }
}

/// Narrowing is transitive.
proof fn lemma_narrows_trans(x: Seq<Domain>, y: Seq<Domain>, z: Seq<Domain>)
    requires
        narrows(x, y),
        narrows(y, z),
    ensures
        narrows(x, z),
{
    assert forall|i: int| 0 <= i < x.len() implies (#[trigger] x[i]).within(z[i]) by {
        assert(y[i].within(z[i]));
    }
}

/// Each solution inside narrower domains is a solution inside the wider ones.
proof fn lemma_in_narrower(s: Seq<int>, x: Seq<Domain>, y: Seq<Domain>)
    requires
        narrows(x, y),
        in_domains(s, x),
    ensures
        in_domains(s, y),
{
    assert forall|i: int| 0 <= i < y.len() implies (#[trigger] y[i]).contains(s[i]) by {
        assert(x[i].contains(s[i]));
    }
}

/// The propagation engine: the variables' domains and the units registered on them.
pub struct Solver {
    domains: Vec<Domain>,
    units: Vec<Unit>,
    infeasible: bool,
}

impl Solver {
    /// The domain of each variable, by identifier.
    pub closed spec fn doms(&self) -> Seq<Domain> {
        self.domains@
    }

    /// The registered units, in the order of registration.
    pub closed spec fn units_spec(&self) -> Seq<Unit> {
        self.units@
    }

    /// Set once posting has shown that the model has no solution.
    pub closed spec fn infeasible_spec(&self) -> bool {
        self.infeasible
    }

    /// Every unit speaks of existing variables; an infeasible model has no solution; otherwise
    /// every domain is nonempty and no unit can narrow them further.
    pub open spec fn wf(&self) -> bool {
        &&& units_below(self.units_spec(), self.doms().len())
        &&& self.infeasible_spec() ==> no_solution(self.doms(), self.units_spec())
        &&& !self.infeasible_spec() ==> all_nonempty(self.doms()) && at_fixpoint(
            self.doms(),
            self.units_spec(),
        )
    }

    /// A solver with no variables and no units.
    pub fn new() -> (r: Solver)
        ensures
            r.wf(),
            r.doms() == Seq::<Domain>::empty(),
            r.units_spec() == Seq::<Unit>::empty(),
            !r.infeasible_spec(),
    {
        Solver { domains: Vec::new(), units: Vec::new(), infeasible: false }
    }

    /// Runs queued units, one at a time, until none is queued or a domain becomes empty. After a
    /// unit narrows a domain, every unit that watches that variable is queued again.
    fn run_to_fixpoint(&mut self, queued: Vec<bool>) -> (r: Result<(), Contradiction>)
        requires
            units_below(old(self).units@, old(self).domains@.len()),
            queued@.len() == old(self).units@.len(),
            all_nonempty(old(self).domains@),
            settled(old(self).domains@, old(self).units@, queued@),
        ensures
            final(self).units@ == old(self).units@,
            final(self).infeasible == old(self).infeasible,
            narrows(final(self).domains@, old(self).domains@),
            keeps_solutions(old(self).domains@, old(self).units@, final(self).domains@),
            r is Ok ==> all_nonempty(final(self).domains@) && at_fixpoint(
                final(self).domains@,
                final(self).units@,
            ),
            r is Ok ==> below_fixpoints(old(self).domains@, old(self).units@, final(self).domains@),
            r is Err ==> no_solution(old(self).domains@, old(self).units@) && !consistent_below(
                old(self).domains@,
                old(self).units@,
            ),
            at_fixpoint(old(self).domains@, old(self).units@) ==> r is Ok && final(self).domains@
                == old(self).domains@,
    {
        let ghost d0 = self.domains@;
        let ghost us = self.units@;
        let mut queued = queued;
        assert(narrows(d0, d0));
        assert(below_fixpoints(d0, us, d0));
        loop
            invariant
                d0 == old(self).domains@,
                us == old(self).units@,
                self.units@ == us,
                self.infeasible == old(self).infeasible,
                units_below(us, d0.len()),
                all_nonempty(self.domains@),
                narrows(self.domains@, d0),
                keeps_solutions(d0, us, self.domains@),
                below_fixpoints(d0, us, self.domains@),
                queued@.len() == us.len(),
                settled(self.domains@, us, queued@),
                at_fixpoint(d0, us) ==> self.domains@ == d0,
            decreases total_slack(self.domains@), count_queued(queued@),
        {
            let j = match first_queued(&queued) {
                None => {
                    return Ok(());
                },
                Some(j) => j,
            };
            let ghost q0 = queued@;
            queued.set(j, false);
            let ghost q1 = queued@;
            proof {
                lemma_count_dequeue(q0, j as int);
            }
            let prev = copy_domains(&self.domains);
            let ghost u = us[j as int];
            proof {
                assert(u.vars_below(d0.len()));
            }
            self.units[j].propagate(&mut self.domains);
            proof {
                assert forall|s: Seq<int>| #[trigger] is_solution(s, d0, us) implies in_domains(
                    s,
                    self.domains@,
                ) by {
                    u.lemma_prop_sound(prev@, s);
                    assert(u.holds(s));
                }
                u.lemma_prop_sound(prev@, Seq::empty());
                u.lemma_prop_frame(prev@);
                lemma_narrows_trans(self.domains@, prev@, d0);
                assert forall|e: Seq<Domain>|
                    narrows(e, d0) && all_nonempty(e) && #[trigger] at_fixpoint(e, us) implies narrows(
                        e,
                        self.domains@,
                    ) by {
                    assert(us[j as int].prop(e) == e);
                    u.lemma_prop_monotone(prev@, e);
                }
            }
            if !nonempty(&self.domains) {
                proof {
                    let dn = self.domains@;
                    let i = choose|i: int| 0 <= i < dn.len() && (#[trigger] dn[i]).is_empty();
                    assert forall|e: Seq<Domain>|
                        narrows(e, d0) && all_nonempty(e) implies !#[trigger] at_fixpoint(e, us) by {
                        if at_fixpoint(e, us) {
                            assert(e[i].within(dn[i]) && !e[i].is_empty());
                        }
                    }
                    assert forall|s: Seq<int>| !#[trigger] is_solution(s, d0, us) by {
                        if is_solution(s, d0, us) {
                            let i = choose|i: int|
                                0 <= i < self.domains@.len() && (#[trigger] self.domains@[i]).is_empty();
                            assert(self.domains@[i].contains(s[i]));
                        }
                    }
                }
                return Err(Contradiction);
            }
            let vars = self.units[j].watched();
            requeue(&self.units, &mut queued, &vars, &prev, &self.domains);
            proof {
                let dn = self.domains@;
                lemma_slack_narrows(dn, prev@);
                assert forall|k: int| 0 <= k < us.len() && !queued@[k] implies (
                #[trigger] us[k]).prop(dn) == dn by {
                    assert forall|v: int| 0 <= v < dn.len() && us[k].mentions(v) implies #[trigger] dn[v]
                        == prev@[v] by {
                        if dn[v] != prev@[v] {
                            assert(u.mentions(v));
                            assert(vars@.contains(v as usize));
                            let idx = choose|idx: int| 0 <= idx < vars@.len() && vars@[idx] == v as usize;
                            assert(prev@[vars@[idx] as int] != dn[vars@[idx] as int]);
                        }
                    }
                    assert(us[k].vars_below(d0.len()));
                    if k == j {
                        assert(dn =~= prev@);
                    } else {
                        assert(!q1[k]);
                        assert(us[k].prop(prev@) == prev@);
                        us[k].lemma_prop_local(prev@, dn);
                    }
                }
                if dn == prev@ {
                    assert(queued@ =~= q1) by {
                        assert forall|k: int| 0 <= k < us.len() implies queued@[k] == q1[k] by {
                            if queued@[k] && !q1[k] {
                                let idx = choose|idx: int|
                                    0 <= idx < vars@.len() && prev@[vars@[idx] as int] != dn[vars@[idx] as int];
                            }
                        }
                    }
                }
            }
        }
    }
}

/// Every nonempty fixed point of `us` below `d0` lies below `d`: `d` is the greatest one when it
/// is a fixed point itself.
pub open spec fn below_fixpoints(d0: Seq<Domain>, us: Seq<Unit>, d: Seq<Domain>) -> bool {
    forall|e: Seq<Domain>|
        narrows(e, d0) && all_nonempty(e) && #[trigger] at_fixpoint(e, us) ==> narrows(e, d)
}

/// Some nonempty domains below `d0` are a fixed point of `us`: propagation from `d0` ends
/// without a conflict.
pub open spec fn consistent_below(d0: Seq<Domain>, us: Seq<Unit>) -> bool {
    exists|e: Seq<Domain>| narrows(e, d0) && all_nonempty(e) && #[trigger] at_fixpoint(e, us)
}

/// Units that are not queued are at a fixed point of `doms`.
pub open spec fn settled(doms: Seq<Domain>, us: Seq<Unit>, queued: Seq<bool>) -> bool {
    forall|k: int| 0 <= k < us.len() && !queued[k] ==> (#[trigger] us[k]).prop(doms) == doms
}

/// The number of queued units.
pub open spec fn count_queued(q: Seq<bool>) -> nat
    decreases q.len(),
{
    if q.len() == 0 {
        0
    } else {
        count_queued(q.drop_last()) + if q.last() {
            1nat
        } else {
            0nat
        }
    }
}

proof fn lemma_count_dequeue(q: Seq<bool>, j: int)
    requires
        0 <= j < q.len(),
        q[j],
    ensures
        count_queued(q.update(j, false)) < count_queued(q),
    decreases q.len(),
{
    if j == q.len() - 1 {
        assert(q.update(j, false).drop_last() =~= q.drop_last());
    } else {
        lemma_count_dequeue(q.drop_last(), j);
        assert(q.update(j, false).drop_last() =~= q.drop_last().update(j, false));
    }
}

fn first_queued(q: &Vec<bool>) -> (r: Option<usize>)
    ensures
        r matches Some(j) ==> j < q@.len() && q@[j as int],
        r is None ==> forall|k: int| 0 <= k < q@.len() ==> !q@[k],
{
    let mut i: usize = 0;
    while i < q.len()
        invariant
            i <= q@.len(),
            forall|k: int| 0 <= k < i ==> !q@[k],
        decreases q@.len() - i,
    {
        if q[i] {
            return Some(i);
        }
        i = i + 1;
    }
    None
}

/// Queues every unit that watches the variable `v`.
fn enqueue_watchers(units: &Vec<Unit>, queued: &mut Vec<bool>, v: usize)
    requires
        old(queued)@.len() == units@.len(),
    ensures
        final(queued)@.len() == units@.len(),
        forall|k: int|
            0 <= k < units@.len() ==> #[trigger] final(queued)@[k] == (old(queued)@[k]
                || units@[k].mentions(v as int)),
{
    let mut k: usize = 0;
    while k < units.len()
        invariant
            queued@.len() == units@.len(),
            k <= units@.len(),
            forall|i: int|
                0 <= i < units@.len() ==> #[trigger] queued@[i] == (old(queued)@[i] || (i < k
                    && units@[i].mentions(v as int))),
        decreases units@.len() - k,
    {
        if units[k].watches(v) {
            queued.set(k, true);
        }
        k = k + 1;
    }
}

/// Queues every unit that watches a variable of `vars` whose domain differs between `prev` and
/// `now`.
fn requeue(
    units: &Vec<Unit>,
    queued: &mut Vec<bool>,
    vars: &Vec<usize>,
    prev: &Vec<Domain>,
    now: &Vec<Domain>,
)
    requires
        old(queued)@.len() == units@.len(),
        prev@.len() == now@.len(),
        forall|i: int| 0 <= i < vars@.len() ==> #[trigger] vars@[i] < prev@.len(),
    ensures
        final(queued)@.len() == units@.len(),
        forall|k: int| 0 <= k < units@.len() && old(queued)@[k] ==> #[trigger] final(queued)@[k],
        forall|k: int, idx: int|
            0 <= k < units@.len() && !final(queued)@[k] && 0 <= idx < vars@.len() && prev@[vars@[idx] as int]
                != now@[vars@[idx] as int] ==> !(#[trigger] units@[k]).mentions(#[trigger] vars@[idx] as int),
        (forall|idx: int| 0 <= idx < vars@.len() ==> prev@[vars@[idx] as int] == now@[#[trigger] vars@[idx] as int])
            ==> final(queued)@ == old(queued)@,
{
    let ghost q0 = queued@;
    let mut i: usize = 0;
    while i < vars.len()
        invariant
            queued@.len() == units@.len(),
            i <= vars@.len(),
            forall|i: int| 0 <= i < vars@.len() ==> #[trigger] vars@[i] < prev@.len(),
            prev@.len() == now@.len(),
            forall|k: int| 0 <= k < units@.len() && q0[k] ==> #[trigger] queued@[k],
            forall|k: int, idx: int|
                0 <= k < units@.len() && !queued@[k] && 0 <= idx < i && prev@[vars@[idx] as int]
                    != now@[vars@[idx] as int] ==> !(#[trigger] units@[k]).mentions(#[trigger] vars@[idx] as int),
            (forall|idx: int| 0 <= idx < i ==> prev@[vars@[idx] as int] == now@[#[trigger] vars@[idx] as int])
                ==> queued@ == q0,
        decreases vars@.len() - i,
    {
        let v = vars[i];
        if prev[v] != now[v] {
            enqueue_watchers(units, queued, v);
        }
        i = i + 1;
    }
}

impl Default for Solver {
    /// A solver with no variables and no units.
    fn default() -> (r: Solver)
        ensures
            r.wf(),
            r.doms() == Seq::<Domain>::empty(),
            r.units_spec() == Seq::<Unit>::empty(),
            !r.infeasible_spec(),
    {
        Solver::new()
    }
}

/// A queue of `m` units with none queued.
fn idle_queue(m: usize) -> (r: Vec<bool>)
    ensures
        r@.len() == m,
        forall|k: int| 0 <= k < m ==> !#[trigger] r@[k],
{
    let mut r: Vec<bool> = Vec::new();
    let mut i: usize = 0;
    while i < m
        invariant
            i <= m,
            r@.len() == i,
            forall|k: int| 0 <= k < i ==> !#[trigger] r@[k],
        decreases m - i,
    {
        r.push(false);
        i = i + 1;
    }
    r
}

fn nonempty(doms: &Vec<Domain>) -> (r: bool)
    ensures
        r == all_nonempty(doms@),
{
    let mut i: usize = 0;
    while i < doms.len()
        invariant
            i <= doms@.len(),
            forall|k: int| 0 <= k < i ==> !(#[trigger] doms@[k]).is_empty(),
        decreases doms@.len() - i,
    {
        if doms[i].empty() {
            return false;
        }
        i = i + 1;
    }
    true
}

fn copy_domains(doms: &Vec<Domain>) -> (r: Vec<Domain>)
    ensures
        r@ == doms@,
{
    let mut r: Vec<Domain> = Vec::new();
    let mut i: usize = 0;
    while i < doms.len()
        invariant
            i <= doms@.len(),
            r@ == doms@.subrange(0, i as int),
        decreases doms@.len() - i,
    {
        r.push(doms[i]);
        i = i + 1;
    }
    assert(r@ =~= doms@);
    r
}

/// The relation between the solver before (`s0`) and after (`s1`) registering the units `us`
/// one by one, stopping at the first refusal, with the result `r`. Success ends at the greatest
/// nonempty fixed point below the starting domains; a conflict names the unit that brought it;
/// a solver already infeasible is left as it was.
pub open spec fn posted(
    s0: Solver,
    s1: Solver,
    us: Seq<Unit>,
    r: Result<(), ConstraintOperationError>,
) -> bool {
    &&& narrows(s1.doms(), s0.doms())
    &&& keeps_solutions(s0.doms(), s0.units_spec() + us, s1.doms())
    &&& r is Ok ==> {
        &&& s1.units_spec() == s0.units_spec() + us
        &&& s1.infeasible_spec() == s0.infeasible_spec()
        &&& us.len() > 0 ==> !s0.infeasible_spec()
    }
    &&& r is Ok ==> below_fixpoints(s0.doms(), s0.units_spec() + us, s1.doms())
    &&& r is Err ==> {
        &&& s1.infeasible_spec()
        &&& no_solution(s0.doms(), s0.units_spec() + us)
        &&& (r == Err::<(), ConstraintOperationError>(ConstraintOperationError::InfeasibleState)
            <==> s0.infeasible_spec())
    }
    &&& r == Err::<(), ConstraintOperationError>(ConstraintOperationError::InfeasibleState) ==> s1
        == s0
    &&& r == Err::<(), ConstraintOperationError>(ConstraintOperationError::InfeasiblePropagator)
        ==> refused_at(s0, s1, us)
    &&& us.len() == 0 ==> r is Ok && s1 == s0
    &&& inert(s0, us) ==> r is Ok && s1.doms() == s0.doms()
}

/// Registration stopped at some unit of `us`: the units before it reach a fixed point without a
/// conflict, that unit brings one, and nothing after it is registered.
pub open spec fn refused_at(s0: Solver, s1: Solver, us: Seq<Unit>) -> bool {
    exists|k: int|
        0 <= k < us.len() && s1.units_spec() == s0.units_spec() + #[trigger] us.take(k + 1)
            && consistent_below(s0.doms(), s0.units_spec() + us.take(k)) && !consistent_below(
            s0.doms(),
            s0.units_spec() + us.take(k + 1),
        )
}

proof fn lemma_fixpoint_prefix(e: Seq<Domain>, a: Seq<Unit>, b: Seq<Unit>)
    requires
        at_fixpoint(e, a + b),
    ensures
        at_fixpoint(e, a),
{
    assert forall|j: int| 0 <= j < a.len() implies (#[trigger] a[j]).prop(e) == e by {
        assert((a + b)[j] == a[j]);
    }
}

/// The solver is consistent and none of `us` would narrow its domains.
pub open spec fn inert(s: Solver, us: Seq<Unit>) -> bool {
    !s.infeasible_spec() && at_fixpoint(s.doms(), us)
}

proof fn lemma_holds_prefix(a: Seq<Unit>, b: Seq<Unit>, s: Seq<int>)
    requires
        holds_all(a + b, s),
    ensures
        holds_all(a, s),
        holds_all(b, s),
{
    assert forall|j: int| 0 <= j < a.len() implies (#[trigger] a[j]).holds(s) by {
        assert((a + b)[j] == a[j]);
    }
    assert forall|j: int| 0 <= j < b.len() implies (#[trigger] b[j]).holds(s) by {
        assert((a + b)[a.len() + j] == b[j]);
    }
}

/// Posting nothing leaves the solver as it was and succeeds.
pub proof fn lemma_posted_nothing(s: Solver)
    ensures
        posted(s, s, Seq::empty(), Ok(())),
{
    assert(s.units_spec() + Seq::<Unit>::empty() =~= s.units_spec());
    assert forall|i: int| 0 <= i < s.doms().len() implies (#[trigger] s.doms()[i]).within(
        s.doms()[i],
    ) by {}
}

/// Posting `us1` with success and then `us2` is posting `us1 + us2`.
pub proof fn lemma_posted_then(
    s0: Solver,
    s1: Solver,
    s2: Solver,
    us1: Seq<Unit>,
    us2: Seq<Unit>,
    r: Result<(), ConstraintOperationError>,
)
    requires
        posted(s0, s1, us1, Ok(())),
        posted(s1, s2, us2, r),
    ensures
        posted(s0, s2, us1 + us2, r),
{
    let all = s0.units_spec() + (us1 + us2);
    assert(all =~= (s0.units_spec() + us1) + us2);
    if us1.len() == 0 {
        assert(us1 + us2 =~= us2);
    } else {
        lemma_narrows_trans(s2.doms(), s1.doms(), s0.doms());
        assert forall|s: Seq<int>| #[trigger] is_solution(s, s0.doms(), all) implies is_solution(
            s,
            s1.doms(),
            s1.units_spec() + us2,
        ) by {
            lemma_holds_prefix(s0.units_spec() + us1, us2, s);
            assert(is_solution(s, s0.doms(), s0.units_spec() + us1));
        }
        if r is Ok {
            assert(s2.units_spec() =~= all);
            assert forall|e: Seq<Domain>|
                narrows(e, s0.doms()) && all_nonempty(e) && #[trigger] at_fixpoint(e, all) implies narrows(
                    e,
                    s2.doms(),
                ) by {
                lemma_fixpoint_prefix(e, s0.units_spec() + us1, us2);
                assert(at_fixpoint(e, s0.units_spec() + us1));
                assert(narrows(e, s1.doms()));
                assert(at_fixpoint(e, s1.units_spec() + us2));
            }
        }
        if r is Err {
            assert forall|s: Seq<int>| !#[trigger] is_solution(s, s0.doms(), all) by {
                if is_solution(s, s0.doms(), all) {
                    assert(is_solution(s, s1.doms(), s1.units_spec() + us2));
                }
            }
        }
        if r == Err::<(), ConstraintOperationError>(ConstraintOperationError::InfeasiblePropagator) {
            let k = choose|k: int|
                0 <= k < us2.len() && s2.units_spec() == s1.units_spec() + #[trigger] us2.take(k + 1)
                    && consistent_below(s1.doms(), s1.units_spec() + us2.take(k))
                    && !consistent_below(s1.doms(), s1.units_spec() + us2.take(k + 1));
            let kk = us1.len() + k;
            let lo = s0.units_spec() + (us1 + us2).take(kk);
            let hi = s0.units_spec() + (us1 + us2).take(kk + 1);
            assert(lo =~= s1.units_spec() + us2.take(k));
            assert(hi =~= s1.units_spec() + us2.take(k + 1));
            assert(hi =~= (s0.units_spec() + us1) + us2.take(k + 1));
            assert(s2.units_spec() == s0.units_spec() + (us1 + us2).take(kk + 1));
            let w = choose|e: Seq<Domain>|
                narrows(e, s1.doms()) && all_nonempty(e) && #[trigger] at_fixpoint(
                    e,
                    s1.units_spec() + us2.take(k),
                );
            lemma_narrows_trans(w, s1.doms(), s0.doms());
            assert(at_fixpoint(w, lo));
            assert forall|e: Seq<Domain>|
                narrows(e, s0.doms()) && all_nonempty(e) implies !#[trigger] at_fixpoint(e, hi) by {
                if at_fixpoint(e, hi) {
                    lemma_fixpoint_prefix(e, s0.units_spec() + us1, us2.take(k + 1));
                    assert(at_fixpoint(e, s0.units_spec() + us1));
                    assert(narrows(e, s1.doms()));
                    assert(at_fixpoint(e, s1.units_spec() + us2.take(k + 1)));
                }
            }
            assert(refused_at(s0, s2, us1 + us2));
        }
        if inert(s0, us1 + us2) {
            assert forall|j: int| 0 <= j < us1.len() implies (#[trigger] us1[j]).prop(s0.doms())
                == s0.doms() by {
                assert((us1 + us2)[j] == us1[j]);
            }
            assert forall|j: int| 0 <= j < us2.len() implies (#[trigger] us2[j]).prop(s1.doms())
                == s1.doms() by {
                assert((us1 + us2)[us1.len() + j] == us2[j]);
            }
        }
    }
}

/// A refusal while posting `us1` is a refusal of posting `us1 + us2`: nothing of `us2` is
/// registered.
pub proof fn lemma_posted_stop(
    s0: Solver,
    s1: Solver,
    us1: Seq<Unit>,
    us2: Seq<Unit>,
    e: ConstraintOperationError,
)
    requires
        posted(s0, s1, us1, Err(e)),
    ensures
        posted(s0, s1, us1 + us2, Err(e)),
{
    let all = s0.units_spec() + (us1 + us2);
    if e == ConstraintOperationError::InfeasiblePropagator {
        let k = choose|k: int|
            0 <= k < us1.len() && s1.units_spec() == s0.units_spec() + #[trigger] us1.take(k + 1)
                && consistent_below(s0.doms(), s0.units_spec() + us1.take(k))
                && !consistent_below(s0.doms(), s0.units_spec() + us1.take(k + 1));
        assert(us1.take(k) =~= (us1 + us2).take(k));
        assert(us1.take(k + 1) =~= (us1 + us2).take(k + 1));
        assert(refused_at(s0, s1, us1 + us2));
    }
    assert forall|s: Seq<int>| !#[trigger] is_solution(s, s0.doms(), all) by {
        if is_solution(s, s0.doms(), all) {
            assert(all =~= (s0.units_spec() + us1) + us2);
            lemma_holds_prefix(s0.units_spec() + us1, us2, s);
            assert(is_solution(s, s0.doms(), s0.units_spec() + us1));
        }
    }
    if inert(s0, us1 + us2) {
        assert forall|j: int| 0 <= j < us1.len() implies (#[trigger] us1[j]).prop(s0.doms())
            == s0.doms() by {
            assert((us1 + us2)[j] == us1[j]);
        }
    }
}


proof fn lemma_fixpoint_take(e: Seq<Domain>, base: Seq<Unit>, us: Seq<Unit>, i: int, j: int)
    requires
        0 <= i <= j <= us.len(),
        at_fixpoint(e, base + us.take(j)),
    ensures
        at_fixpoint(e, base + us.take(i)),
{
    let x = base + us.take(i);
    let y = base + us.take(j);
    assert forall|t: int| 0 <= t < x.len() implies (#[trigger] x[t]).prop(e) == e by {
        assert(x[t] == y[t]);
    }
}

proof fn lemma_narrows_antisym(x: Seq<Domain>, y: Seq<Domain>)
    requires
        narrows(x, y),
        narrows(y, x),
        all_nonempty(x),
        all_nonempty(y),
    ensures
        x == y,
{
    assert forall|i: int| 0 <= i < x.len() implies x[i] == y[i] by {
        assert(x[i].within(y[i]) && y[i].within(x[i]) && !x[i].is_empty() && !y[i].is_empty());
    }
    assert(x =~= y);
}

/// Posting the same units on the same solver twice gives the same result, registers the same
/// units and, on success, leaves the same domains.
pub proof fn lemma_posted_determined(
    s0: Solver,
    s1: Solver,
    s2: Solver,
    us: Seq<Unit>,
    r1: Result<(), ConstraintOperationError>,
    r2: Result<(), ConstraintOperationError>,
)
    requires
        s1.wf(),
        s2.wf(),
        posted(s0, s1, us, r1),
        posted(s0, s2, us, r2),
    ensures
        r1 is Ok <==> r2 is Ok,
        r1 is Err ==> r1 == r2,
        s1.units_spec() == s2.units_spec(),
        s1.infeasible_spec() == s2.infeasible_spec(),
        r1 is Ok ==> s1.doms() == s2.doms(),
{
    let all = s0.units_spec() + us;
    let is = Err::<(), ConstraintOperationError>(ConstraintOperationError::InfeasibleState);
    let ip = Err::<(), ConstraintOperationError>(ConstraintOperationError::InfeasiblePropagator);
    match r1 {
        Ok(()) => {},
        Err(e) => match e {
            ConstraintOperationError::InfeasibleState => {},
            ConstraintOperationError::InfeasiblePropagator => {},
        },
    }
    match r2 {
        Ok(()) => {},
        Err(e) => match e {
            ConstraintOperationError::InfeasibleState => {},
            ConstraintOperationError::InfeasiblePropagator => {},
        },
    }
    assert(r1 is Err ==> r1 == is || r1 == ip);
    assert(r2 is Err ==> r2 == is || r2 == ip);

    if us.len() > 0 && s0.infeasible_spec() {
        assert(r1 == is && r2 == is);
    }
    if us.len() > 0 && !s0.infeasible_spec() {
        assert(r1 is Err ==> r1 == ip);
        assert(r2 is Err ==> r2 == ip);
        assert(r1 is Err ==> refused_at(s0, s1, us));
        assert(r2 is Err ==> refused_at(s0, s2, us));
        if r1 is Ok && r2 is Ok {
            assert(at_fixpoint(s1.doms(), all) && at_fixpoint(s2.doms(), all));
            assert(narrows(s1.doms(), s2.doms()));
            assert(narrows(s2.doms(), s1.doms()));
            lemma_narrows_antisym(s1.doms(), s2.doms());
        }
        if r1 is Ok && r2 is Err {
            let k = choose|k: int|
                0 <= k < us.len() && s2.units_spec() == s0.units_spec() + #[trigger] us.take(k + 1)
                    && consistent_below(s0.doms(), s0.units_spec() + us.take(k))
                    && !consistent_below(s0.doms(), s0.units_spec() + us.take(k + 1));
            assert(us.take(us.len() as int) =~= us);
            lemma_fixpoint_take(s1.doms(), s0.units_spec(), us, k + 1, us.len() as int);
            assert(at_fixpoint(s1.doms(), s0.units_spec() + us.take(k + 1)));
        }
        if r1 is Err && r2 is Ok {
            let k = choose|k: int|
                0 <= k < us.len() && s1.units_spec() == s0.units_spec() + #[trigger] us.take(k + 1)
                    && consistent_below(s0.doms(), s0.units_spec() + us.take(k))
                    && !consistent_below(s0.doms(), s0.units_spec() + us.take(k + 1));
            assert(us.take(us.len() as int) =~= us);
            lemma_fixpoint_take(s2.doms(), s0.units_spec(), us, k + 1, us.len() as int);
            assert(at_fixpoint(s2.doms(), s0.units_spec() + us.take(k + 1)));
        }
        if r1 is Err && r2 is Err {
            let k1 = choose|k: int|
                0 <= k < us.len() && s1.units_spec() == s0.units_spec() + #[trigger] us.take(k + 1)
                    && consistent_below(s0.doms(), s0.units_spec() + us.take(k))
                    && !consistent_below(s0.doms(), s0.units_spec() + us.take(k + 1));
            let k2 = choose|k: int|
                0 <= k < us.len() && s2.units_spec() == s0.units_spec() + #[trigger] us.take(k + 1)
                    && consistent_below(s0.doms(), s0.units_spec() + us.take(k))
                    && !consistent_below(s0.doms(), s0.units_spec() + us.take(k + 1));
            if k1 < k2 {
                let w = choose|e: Seq<Domain>|
                    narrows(e, s0.doms()) && all_nonempty(e) && #[trigger] at_fixpoint(
                        e,
                        s0.units_spec() + us.take(k2),
                    );
                lemma_fixpoint_take(w, s0.units_spec(), us, k1 + 1, k2);
            }
            if k2 < k1 {
                let w = choose|e: Seq<Domain>|
                    narrows(e, s0.doms()) && all_nonempty(e) && #[trigger] at_fixpoint(
                        e,
                        s0.units_spec() + us.take(k1),
                    );
                lemma_fixpoint_take(w, s0.units_spec(), us, k2 + 1, k1);
            }
        }
    }
}

impl Solver {
    /// A consistent solver is at a fixed point of its units with no empty domain.
    pub proof fn lemma_consistent(&self)
        requires
            self.wf(),
            !self.infeasible_spec(),
        ensures
            all_nonempty(self.doms()),
            at_fixpoint(self.doms(), self.units_spec()),
    {
    }

    pub fn num_variables(&self) -> (r: usize)
        ensures
            r == self.doms().len(),
    {
        self.domains.len()
    }

    pub fn num_propagators(&self) -> (r: usize)
        ensures
            r == self.units_spec().len(),
    {
        self.units.len()
    }

    /// Whether posting has shown that the model has no solution.
    pub fn is_infeasible(&self) -> (r: bool)
        ensures
            r == self.infeasible_spec(),
    {
        self.infeasible
    }

    pub fn lower_bound(&self, var: DomainId) -> (r: i64)
        requires
            var.id < self.doms().len(),
        ensures
            r == self.doms()[var.id as int].lb,
    {
        self.domains[var.id].lb
    }

    pub fn upper_bound(&self, var: DomainId) -> (r: i64)
        requires
            var.id < self.doms().len(),
        ensures
            r == self.doms()[var.id as int].ub,
    {
        self.domains[var.id].ub
    }

    /// Whether every value left for the literal's variable makes it true.
    pub fn is_literal_true(&self, lit: Literal) -> (r: bool)
        requires
            lit.var.id < self.doms().len(),
        ensures
            r == lit.true_in(self.doms()[lit.var.id as int]),
    {
        lit.is_true_in(&self.domains[lit.var.id])
    }

    /// Whether every value left for the literal's variable makes it false.
    pub fn is_literal_false(&self, lit: Literal) -> (r: bool)
        requires
            lit.var.id < self.doms().len(),
        ensures
            r == lit.false_in(self.doms()[lit.var.id as int]),
    {
        lit.is_false_in(&self.domains[lit.var.id])
    }

    /// A fresh variable with the values `lb..=ub`.
    pub fn new_bounded_integer(&mut self, lb: i64, ub: i64) -> (r: DomainId)
        requires
            old(self).wf(),
            lb <= ub,
        ensures
            final(self).wf(),
            r.id == old(self).doms().len(),
            final(self).doms() == old(self).doms().push(Domain { lb, ub }),
            final(self).units_spec() == old(self).units_spec(),
            final(self).infeasible_spec() == old(self).infeasible_spec(),
    {
        let ghost d0 = self.domains@;
        let ghost us = self.units@;
        let x = Domain { lb, ub };
        let r = DomainId { id: self.domains.len() };
        self.domains.push(x);
        proof {
            let d1 = self.domains@;
            assert(units_below(us, d1.len()));
            if self.infeasible {
                assert forall|s: Seq<int>| !#[trigger] is_solution(s, d1, us) by {
                    if is_solution(s, d1, us) {
                        let t = s.drop_last();
                        assert forall|j: int| 0 <= j < us.len() implies (#[trigger] us[j]).holds(
                            t,
                        ) by {
                            assert(us[j].holds(s));
                            assert(us[j].vars_below(d0.len()));
                        }
                        assert forall|i: int| 0 <= i < d0.len() implies (#[trigger] d0[i]).contains(
                            t[i],
                        ) by {
                            assert(d1[i].contains(s[i]));
                        }
                        assert(is_solution(t, d0, us));
                    }
                }
            } else {
                assert forall|j: int| 0 <= j < us.len() implies (#[trigger] us[j]).prop(d1)
                    == d1 by {
                    us[j].lemma_prop_push(d0, x);
                }
            }
        }
        r
    }

    /// A fresh variable with the values 0 and 1, and the literal that it is nonzero.
    pub fn new_literal(&mut self) -> (r: Literal)
        requires
            old(self).wf(),
        ensures
            final(self).wf(),
            r.var.id == old(self).doms().len(),
            r.positive,
            final(self).doms() == old(self).doms().push(Domain { lb: 0, ub: 1 }),
            final(self).units_spec() == old(self).units_spec(),
            final(self).infeasible_spec() == old(self).infeasible_spec(),
    {
        let var = self.new_bounded_integer(0, 1);
        Literal { var, positive: true }
    }

    /// Registers the unit `u` and runs all units to a fixed point.
    pub fn add_propagator(&mut self, u: Unit) -> (r: Result<(), ConstraintOperationError>)
        requires
            old(self).wf(),
            u.vars_below(old(self).doms().len()),
        ensures
            final(self).wf(),
            final(self).doms().len() == old(self).doms().len(),
            posted(*old(self), *final(self), seq![u], r),
    {
        let ghost s0 = *self;
        if self.infeasible {
            proof {
                assert(s0.units_spec() =~= s0.units_spec() + seq![u].take(0));
                assert forall|s: Seq<int>| !#[trigger] is_solution(
                    s,
                    s0.doms(),
                    s0.units_spec() + seq![u],
                ) by {
                    if is_solution(s, s0.doms(), s0.units_spec() + seq![u]) {
                        lemma_holds_prefix(s0.units_spec(), seq![u], s);
                        assert(is_solution(s, s0.doms(), s0.units_spec()));
                    }
                }
                lemma_posted_nothing(s0);
            }
            return Err(ConstraintOperationError::InfeasibleState);
        }
        self.units.push(u);
        proof {
            assert(self.units@ == s0.units_spec() + seq![u]);
            assert(seq![u].take(1) =~= seq![u]);
            assert forall|j: int| 0 <= j < self.units@.len() implies (#[trigger] self.units@[j]).vars_below(
                self.domains@.len(),
            ) by {
                if j < s0.units_spec().len() {
                    assert(s0.units_spec()[j].vars_below(s0.doms().len()));
                }
            }
            if inert(s0, seq![u]) {
                assert(seq![u][0] == u);
            }
        }
        let mut queued = idle_queue(self.units.len() - 1);
        queued.push(true);
        proof {
            assert forall|k: int| 0 <= k < self.units@.len() && !queued@[k] implies (
            #[trigger] self.units@[k]).prop(self.domains@) == self.domains@ by {
                assert(self.units@[k] == s0.units_spec()[k]);
            }
        }
        let res = self.run_to_fixpoint(queued);
        proof {
            assert forall|i: int| 0 <= i < s0.doms().len() implies (#[trigger] s0.doms()[i]).within(
                s0.doms()[i],
            ) by {}
        }
        match res {
            Ok(()) => Ok(()),
            Err(_) => {
                self.infeasible = true;
                proof {
                    assert forall|s: Seq<int>| !#[trigger] is_solution(
                        s,
                        self.domains@,
                        self.units@,
                    ) by {
                        if is_solution(s, self.domains@, self.units@) {
                            lemma_in_narrower(s, self.domains@, s0.doms());
                            assert(is_solution(s, s0.doms(), self.units@));
                        }
                    }
                }
                Err(ConstraintOperationError::InfeasiblePropagator)
            },
        }
    }

    /// Narrows the domain of `var` to the values `lb..=ub` and runs all units to a fixed point;
    /// on a conflict the model is marked infeasible.
    pub fn restrict(&mut self, var: DomainId, lb: i64, ub: i64) -> (r: Result<
        (),
        ConstraintOperationError,
    >)
        requires
            old(self).wf(),
            var.id < old(self).doms().len(),
        ensures
            final(self).wf(),
            final(self).units_spec() == old(self).units_spec(),
            ({
                let d = old(self).doms().update(
                    var.id as int,
                    intersection(old(self).doms()[var.id as int], Domain { lb, ub }),
                );
                &&& (r == Err::<(), ConstraintOperationError>(
                    ConstraintOperationError::InfeasibleState,
                ) <==> old(self).infeasible_spec())
                &&& old(self).infeasible_spec() ==> *final(self) == *old(self)
                &&& !old(self).infeasible_spec() ==> {
                    &&& narrows(final(self).doms(), d)
                    &&& keeps_solutions(d, old(self).units_spec(), final(self).doms())
                    &&& r is Ok ==> !final(self).infeasible_spec() && below_fixpoints(
                        d,
                        old(self).units_spec(),
                        final(self).doms(),
                    )
                    &&& r is Err ==> final(self).infeasible_spec() && no_solution(
                        d,
                        old(self).units_spec(),
                    ) && !consistent_below(d, old(self).units_spec())
                }
            }),
    {
        let ghost s0 = *self;
        let ghost d = s0.doms().update(
            var.id as int,
            intersection(s0.doms()[var.id as int], Domain { lb, ub }),
        );
        if self.infeasible {
            return Err(ConstraintOperationError::InfeasibleState);
        }
        let cur = self.domains[var.id];
        let nd = Domain {
            lb: if cur.lb >= lb { cur.lb } else { lb },
            ub: if cur.ub <= ub { cur.ub } else { ub },
        };
        self.domains.set(var.id, nd);
        assert(self.domains@ == d);
        proof {
            assert forall|i: int| 0 <= i < d.len() implies (#[trigger] d[i]).within(d[i]) by {}
        }
        if nd.empty() {
            self.infeasible = true;
            proof {
                assert forall|s: Seq<int>| !#[trigger] is_solution(s, d, s0.units_spec()) by {
                    if is_solution(s, d, s0.units_spec()) {
                        assert(d[var.id as int].contains(s[var.id as int]));
                    }
                }
                assert forall|e: Seq<Domain>|
                    narrows(e, d) && all_nonempty(e) implies !#[trigger] at_fixpoint(
                        e,
                        s0.units_spec(),
                    ) by {
                    assert(e[var.id as int].within(d[var.id as int]));
                    assert(!e[var.id as int].is_empty());
                }
            }
            return Err(ConstraintOperationError::InfeasiblePropagator);
        }
        let mut queued = idle_queue(self.units.len());
        enqueue_watchers(&self.units, &mut queued, var.id);
        proof {
            assert forall|i: int| 0 <= i < d.len() implies !(#[trigger] d[i]).is_empty() by {
                if i != var.id {
                    assert(s0.doms()[i] == d[i]);
                }
            }
            assert forall|k: int| 0 <= k < self.units@.len() && !queued@[k] implies (
            #[trigger] self.units@[k]).prop(d) == d by {
                let u = self.units@[k];
                assert(u.vars_below(d.len()));
                assert(u.prop(s0.doms()) == s0.doms());
                u.lemma_prop_local(s0.doms(), d);
            }
        }
        let res = self.run_to_fixpoint(queued);
        match res {
            Ok(()) => Ok(()),
            Err(_) => {
                self.infeasible = true;
                proof {
                    assert forall|s: Seq<int>| !#[trigger] is_solution(
                        s,
                        self.domains@,
                        self.units@,
                    ) by {
                        if is_solution(s, self.domains@, self.units@) {
                            lemma_in_narrower(s, self.domains@, d);
                            assert(is_solution(s, d, self.units@));
                        }
                    }
                }
                Err(ConstraintOperationError::InfeasiblePropagator)
            },
        }
    }
}

} // verus!
