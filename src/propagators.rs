use vstd::prelude::*;
use crate::domains::{all_nonempty, in_domains, narrows, Domain, DomainId, Literal};

verus! {

/// A propagation unit: a relation over variables together with the filtering that narrows their
/// domains by bounds reasoning.
#[derive(Clone, Copy, Debug, PartialEq, Eq, Structural)]
pub enum Propagator {
    /// `a == b`: both domains are narrowed to their intersection.
    Equals { a: DomainId, b: DomainId },
    /// `a != b`: once one side is fixed, its value is taken off the bounds of the other.
    NotEquals { a: DomainId, b: DomainId },
}

/// A propagation unit guarded by a literal: it enforces `guard -> inner`.
#[derive(Clone, Copy, Debug, PartialEq, Eq, Structural)]
pub struct ReifiedPropagator {
    pub inner: Propagator,
    pub guard: Literal,
}

/// What the solver registers: a plain unit or a guarded one.
#[derive(Clone, Copy, Debug, PartialEq, Eq, Structural)]
pub enum Unit {
    Plain(Propagator),
    Reified(ReifiedPropagator),
}

pub open spec fn intersection(x: Domain, y: Domain) -> Domain {
    Domain {
        lb: if x.lb >= y.lb { x.lb } else { y.lb },
        ub: if x.ub <= y.ub { x.ub } else { y.ub },
    }
}

/// `d` without the value of `f` when `f` is fixed and that value is a bound of `d`.
pub open spec fn without_fixed(d: Domain, f: Domain) -> Domain {
    if f.lb != f.ub || d.is_empty() {
        d
    } else if d.lb == f.lb && d.ub == f.lb {
        Domain { lb: 1, ub: 0 }
    } else if d.lb == f.lb {
        Domain { lb: (d.lb + 1) as i64, ub: d.ub }
    } else if d.ub == f.lb {
        Domain { lb: d.lb, ub: (d.ub - 1) as i64 }
    } else {
        d
    }
}

/// `d` narrowed so that the literal `l` over it can only be false, as far as bounds allow.
pub open spec fn forcing_false(l: Literal, d: Domain) -> Domain {
    if l.positive {
        if d.lb <= 0 <= d.ub {
            Domain { lb: 0, ub: 0 }
        } else {
            d
        }
    } else if d.lb == 0 && d.ub > 0 {
        Domain { lb: 1, ub: d.ub }
    } else if d.ub == 0 && d.lb < 0 {
        Domain { lb: d.lb, ub: -1i64 }
    } else {
        d
    }
}

impl Propagator {
    pub open spec fn vars_below(self, n: nat) -> bool {
        match self {
            Propagator::Equals { a, b } => a.id < n && b.id < n,
            Propagator::NotEquals { a, b } => a.id < n && b.id < n,
        }
    }

    /// Whether the assignment `s` satisfies the relation.
    pub open spec fn holds(self, s: Seq<int>) -> bool {
        match self {
            Propagator::Equals { a, b } => s[a.id as int] == s[b.id as int],
            Propagator::NotEquals { a, b } => s[a.id as int] != s[b.id as int],
        }
    }

    /// The domains after one run of the unit.
    pub open spec fn prop(self, doms: Seq<Domain>) -> Seq<Domain> {
        match self {
            Propagator::Equals { a, b } => {
                let i = intersection(doms[a.id as int], doms[b.id as int]);
                doms.update(a.id as int, i).update(b.id as int, i)
            },
            Propagator::NotEquals { a, b } => {
                let d1 = doms.update(
                    b.id as int,
                    without_fixed(doms[b.id as int], doms[a.id as int]),
                );
                d1.update(a.id as int, without_fixed(d1[a.id as int], d1[b.id as int]))
            },
        }
    }

    /// No assignment inside `doms` satisfies the relation, as bounds alone show.
    pub open spec fn violated_in(self, doms: Seq<Domain>) -> bool {
        match self {
            Propagator::Equals { a, b } => {
                doms[a.id as int].ub < doms[b.id as int].lb || doms[b.id as int].ub < doms[
                    a.id as int].lb
            },
            Propagator::NotEquals { a, b } => {
                let da = doms[a.id as int];
                let db = doms[b.id as int];
                da.lb == da.ub && db.lb == db.ub && da.lb == db.lb
            },
        }
    }

    /// The relation that holds exactly where this one does not.
    pub open spec fn negation_spec(self) -> Propagator {
        match self {
            Propagator::Equals { a, b } => Propagator::NotEquals { a, b },
            Propagator::NotEquals { a, b } => Propagator::Equals { a, b },
        }
    }

    /// Running the unit removes no value that some satisfying assignment uses, and only narrows.
    pub proof fn lemma_prop_sound(self, doms: Seq<Domain>, s: Seq<int>)
        requires
            self.vars_below(doms.len()),
        ensures
            narrows(self.prop(doms), doms),
            in_domains(s, doms) && self.holds(s) ==> in_domains(s, self.prop(doms)),
    {
        let p = self.prop(doms);
        assert forall|i: int| 0 <= i < p.len() implies (#[trigger] p[i]).within(doms[i]) by {}
        if in_domains(s, doms) && self.holds(s) {
            assert forall|i: int| 0 <= i < p.len() implies (#[trigger] p[i]).contains(s[i]) by {
                assert(doms[i].contains(s[i]));
                match self {
                    Propagator::Equals { a, b } => {
                        assert(doms[a.id as int].contains(s[a.id as int]));
                        assert(doms[b.id as int].contains(s[b.id as int]));
                    },
                    Propagator::NotEquals { a, b } => {
                        assert(doms[a.id as int].contains(s[a.id as int]));
                        assert(doms[b.id as int].contains(s[b.id as int]));
                    },
                }
            }
        }
    }

    /// When the unit is violated in `doms`, no assignment inside them satisfies it.
    pub proof fn lemma_violated_sound(self, doms: Seq<Domain>, s: Seq<int>)
        requires
            self.vars_below(doms.len()),
            self.violated_in(doms),
            in_domains(s, doms),
        ensures
            !self.holds(s),
    {
        match self {
            Propagator::Equals { a, b } => {
                assert(doms[a.id as int].contains(s[a.id as int]));
                assert(doms[b.id as int].contains(s[b.id as int]));
            },
            Propagator::NotEquals { a, b } => {
                assert(doms[a.id as int].contains(s[a.id as int]));
                assert(doms[b.id as int].contains(s[b.id as int]));
            },
        }
    }

    /// The relation of the negation.
    pub fn negation(&self) -> (r: Propagator)
        ensures
            r == self.negation_spec(),
    {
        match *self {
            Propagator::Equals { a, b } => Propagator::NotEquals { a, b },
            Propagator::NotEquals { a, b } => Propagator::Equals { a, b },
        }
    }

    pub fn is_violated_in(&self, doms: &Vec<Domain>) -> (r: bool)
        requires
            self.vars_below(doms@.len()),
        ensures
            r == self.violated_in(doms@),
    {
        match *self {
            Propagator::Equals { a, b } => {
                doms[a.id].ub < doms[b.id].lb || doms[b.id].ub < doms[a.id].lb
            },
            Propagator::NotEquals { a, b } => {
                let da = doms[a.id];
                let db = doms[b.id];
                da.lb == da.ub && db.lb == db.ub && da.lb == db.lb
            },
        }
    }

    /// Runs the unit once on `doms`.
    pub fn propagate(&self, doms: &mut Vec<Domain>)
        requires
            self.vars_below(old(doms)@.len()),
        ensures
            final(doms)@ == self.prop(old(doms)@),
    {
        match *self {
            Propagator::Equals { a, b } => {
                let i = intersect(&doms[a.id], &doms[b.id]);
                doms.set(a.id, i);
                doms.set(b.id, i);
            },
            Propagator::NotEquals { a, b } => {
                let nb = remove_fixed(&doms[b.id], &doms[a.id]);
                doms.set(b.id, nb);
                let na = remove_fixed(&doms[a.id], &doms[b.id]);
                doms.set(a.id, na);
            },
        }
    }
}

fn intersect(x: &Domain, y: &Domain) -> (r: Domain)
    ensures
        r == intersection(*x, *y),
{
    Domain {
        lb: if x.lb >= y.lb { x.lb } else { y.lb },
        ub: if x.ub <= y.ub { x.ub } else { y.ub },
    }
}

fn remove_fixed(d: &Domain, f: &Domain) -> (r: Domain)
    ensures
        r == without_fixed(*d, *f),
{
    if f.lb != f.ub || d.lb > d.ub {
        *d
    } else if d.lb == f.lb && d.ub == f.lb {
        Domain { lb: 1, ub: 0 }
    } else if d.lb == f.lb {
        Domain { lb: d.lb + 1, ub: d.ub }
    } else if d.ub == f.lb {
        Domain { lb: d.lb, ub: d.ub - 1 }
    } else {
        *d
    }
}

fn force_false(l: &Literal, d: &Domain) -> (r: Domain)
    ensures
        r == forcing_false(*l, *d),
{
    if l.positive {
        if d.lb <= 0 && 0 <= d.ub {
            Domain { lb: 0, ub: 0 }
        } else {
            *d
        }
    } else if d.lb == 0 && d.ub > 0 {
        Domain { lb: 1, ub: d.ub }
    } else if d.ub == 0 && d.lb < 0 {
        Domain { lb: d.lb, ub: -1 }
    } else {
        *d
    }
}

impl ReifiedPropagator {
    pub open spec fn vars_below(self, n: nat) -> bool {
        self.inner.vars_below(n) && self.guard.var.id < n
    }

    pub open spec fn holds(self, s: Seq<int>) -> bool {
        self.guard.holds(s[self.guard.var.id as int]) ==> self.inner.holds(s)
    }

    /// A false guard leaves everything alone; a true one runs the inner unit; an undecided one
    /// is forced false when the inner unit is already violated, and otherwise nothing happens.
    pub open spec fn prop(self, doms: Seq<Domain>) -> Seq<Domain> {
        let g = self.guard;
        let gd = doms[g.var.id as int];
        if g.false_in(gd) {
            doms
        } else if g.true_in(gd) {
            self.inner.prop(doms)
        } else if self.inner.violated_in(doms) {
            doms.update(g.var.id as int, forcing_false(g, gd))
        } else {
            doms
        }
    }

    pub proof fn lemma_prop_sound(self, doms: Seq<Domain>, s: Seq<int>)
        requires
            self.vars_below(doms.len()),
        ensures
            narrows(self.prop(doms), doms),
            in_domains(s, doms) && self.holds(s) ==> in_domains(s, self.prop(doms)),
    {
        let g = self.guard;
        let gi = g.var.id as int;
        let gd = doms[gi];
        self.inner.lemma_prop_sound(doms, s);
        if !g.false_in(gd) && !g.true_in(gd) && self.inner.violated_in(doms) {
            let p = self.prop(doms);
            assert forall|i: int| 0 <= i < p.len() implies (#[trigger] p[i]).within(doms[i]) by {}
            if in_domains(s, doms) && self.holds(s) {
                self.inner.lemma_violated_sound(doms, s);
                assert(doms[gi].contains(s[gi]));
                assert forall|i: int| 0 <= i < p.len() implies (#[trigger] p[i]).contains(s[i]) by {
                    assert(doms[i].contains(s[i]));
                }
            }
        }
    }

    pub fn propagate(&self, doms: &mut Vec<Domain>)
        requires
            self.vars_below(old(doms)@.len()),
        ensures
            final(doms)@ == self.prop(old(doms)@),
    {
        let g = self.guard;
        let gd = doms[g.var.id];
        if g.is_false_in(&gd) {
        } else if g.is_true_in(&gd) {
            self.inner.propagate(doms);
        } else if self.inner.is_violated_in(doms) {
            doms.set(g.var.id, force_false(&g, &gd));
        }
    }
}

impl Unit {
    pub open spec fn vars_below(self, n: nat) -> bool {
        match self {
            Unit::Plain(p) => p.vars_below(n),
            Unit::Reified(r) => r.vars_below(n),
        }
    }

    pub open spec fn holds(self, s: Seq<int>) -> bool {
        match self {
            Unit::Plain(p) => p.holds(s),
            Unit::Reified(r) => r.holds(s),
        }
    }

    pub open spec fn prop(self, doms: Seq<Domain>) -> Seq<Domain> {
        match self {
            Unit::Plain(p) => p.prop(doms),
            Unit::Reified(r) => r.prop(doms),
        }
    }

    pub proof fn lemma_prop_sound(self, doms: Seq<Domain>, s: Seq<int>)
        requires
            self.vars_below(doms.len()),
        ensures
            narrows(self.prop(doms), doms),
            in_domains(s, doms) && self.holds(s) ==> in_domains(s, self.prop(doms)),
    {
        match self {
            Unit::Plain(p) => p.lemma_prop_sound(doms, s),
            Unit::Reified(r) => r.lemma_prop_sound(doms, s),
        }
    }

    pub fn propagate(&self, doms: &mut Vec<Domain>)
        requires
            self.vars_below(old(doms)@.len()),
        ensures
            final(doms)@ == self.prop(old(doms)@),
    {
        match self {
            Unit::Plain(p) => p.propagate(doms),
            Unit::Reified(r) => r.propagate(doms),
        }
    }
}

impl Unit {
    /// Running a unit on domains with one more variable at the end leaves that variable alone
    /// and does to the others what it did before.
    pub proof fn lemma_prop_push(self, doms: Seq<Domain>, x: Domain)
        requires
            self.vars_below(doms.len()),
        ensures
            self.prop(doms.push(x)) == self.prop(doms).push(x),
    {
        let e = doms.push(x);
        let p = match self {
            Unit::Plain(p) => p,
            Unit::Reified(r) => r.inner,
        };
        match p {
            Propagator::Equals { a, b } => {
                assert(e[a.id as int] == doms[a.id as int]);
                assert(e[b.id as int] == doms[b.id as int]);
            },
            Propagator::NotEquals { a, b } => {
                assert(e[a.id as int] == doms[a.id as int]);
                assert(e[b.id as int] == doms[b.id as int]);
            },
        }
        assert(p.prop(e) =~= p.prop(doms).push(x));
        match self {
            Unit::Plain(_) => {},
            Unit::Reified(r) => {
                assert(e[r.guard.var.id as int] == doms[r.guard.var.id as int]);
                assert(doms.update(r.guard.var.id as int, forcing_false(r.guard, doms[r.guard.var.id as int])).push(x)
                    =~= e.update(r.guard.var.id as int, forcing_false(r.guard, e[r.guard.var.id as int])));
            },
        }
    }
}

impl Propagator {
    pub open spec fn mentions(self, v: int) -> bool {
        match self {
            Propagator::Equals { a, b } => v == a.id || v == b.id,
            Propagator::NotEquals { a, b } => v == a.id || v == b.id,
        }
    }
}

impl Unit {
    /// Whether the unit watches the variable `v`: its relation's variables and its guard's.
    pub open spec fn mentions(self, v: int) -> bool {
        match self {
            Unit::Plain(p) => p.mentions(v),
            Unit::Reified(r) => r.inner.mentions(v) || v == r.guard.var.id,
        }
    }

    /// A unit narrows no variable that it does not watch.
    pub proof fn lemma_prop_frame(self, doms: Seq<Domain>)
        requires
            self.vars_below(doms.len()),
        ensures
            self.prop(doms).len() == doms.len(),
            forall|i: int| 0 <= i < doms.len() && !self.mentions(i) ==> #[trigger] self.prop(doms)[i] == doms[i],
    {
    }

    /// Whether a unit is at a fixed point depends only on the domains that it watches.
    pub proof fn lemma_prop_local(self, d: Seq<Domain>, e: Seq<Domain>)
        requires
            self.vars_below(d.len()),
            e.len() == d.len(),
            forall|v: int| 0 <= v < d.len() && self.mentions(v) ==> #[trigger] e[v] == d[v],
            self.prop(d) == d,
        ensures
            self.prop(e) == e,
    {
        let p = match self {
            Unit::Plain(p) => p,
            Unit::Reified(r) => r.inner,
        };
        match p {
            Propagator::Equals { a, b } => {
                assert(self.mentions(a.id as int) && self.mentions(b.id as int));
                assert(e[a.id as int] == d[a.id as int]);
                assert(e[b.id as int] == d[b.id as int]);
            },
            Propagator::NotEquals { a, b } => {
                assert(self.mentions(a.id as int) && self.mentions(b.id as int));
                assert(e[a.id as int] == d[a.id as int]);
                assert(e[b.id as int] == d[b.id as int]);
            },
        }
        if let Unit::Reified(r) = self {
            assert(self.mentions(r.guard.var.id as int));
            assert(e[r.guard.var.id as int] == d[r.guard.var.id as int]);
        }
        assert(self.prop(e) =~= e) by {
            assert forall|i: int| 0 <= i < e.len() implies self.prop(e)[i] == e[i] by {
                if self.mentions(i) {
                    assert(e[i] == d[i]);
                    assert(self.prop(d)[i] == d[i]);
                }
            }
        }
    }

    /// The variables that the unit watches.
    pub fn watched(&self) -> (r: Vec<usize>)
        ensures
            forall|v: usize| self.mentions(v as int) ==> r@.contains(v),
            forall|i: int| 0 <= i < r@.len() ==> self.mentions(#[trigger] r@[i] as int),
    {
        let p = match self {
            Unit::Plain(p) => *p,
            Unit::Reified(r) => r.inner,
        };
        let (a, b) = match p {
            Propagator::Equals { a, b } => (a, b),
            Propagator::NotEquals { a, b } => (a, b),
        };
        let r = match self {
            Unit::Plain(_) => vec![a.id, b.id],
            Unit::Reified(rp) => vec![a.id, b.id, rp.guard.var.id],
        };
        proof {
            assert forall|v: usize| self.mentions(v as int) implies r@.contains(v) by {
                if v == a.id {
                    assert(r@[0] == v);
                } else if v == b.id {
                    assert(r@[1] == v);
                } else {
                    assert(r@[2] == v);
                }
            }
        }
        r
    }

    pub fn watches(&self, v: usize) -> (r: bool)
        ensures
            r == self.mentions(v as int),
    {
        let (p, g) = match self {
            Unit::Plain(p) => (*p, false),
            Unit::Reified(r) => (r.inner, r.guard.var.id == v),
        };
        match p {
            Propagator::Equals { a, b } => a.id == v || b.id == v || g,
            Propagator::NotEquals { a, b } => a.id == v || b.id == v || g,
        }
    }
}

impl Propagator {
    /// A unit violated in nonempty domains narrows them.
    pub proof fn lemma_violated_moves(self, e: Seq<Domain>)
        requires
            self.vars_below(e.len()),
            all_nonempty(e),
            self.violated_in(e),
        ensures
            self.prop(e) != e,
    {
        match self {
            Propagator::Equals { a, b } => {
                assert(!e[a.id as int].is_empty() && !e[b.id as int].is_empty());
                assert(self.prop(e)[b.id as int].is_empty());
            },
            Propagator::NotEquals { a, b } => {
                assert(!e[a.id as int].is_empty() && !e[b.id as int].is_empty());
                if a == b {
                    assert(self.prop(e)[a.id as int].is_empty());
                } else {
                    assert(self.prop(e)[b.id as int].is_empty());
                }
            },
        }
    }

    /// Narrowing is monotone: nonempty domains below `d` that the unit leaves alone stay below
    /// what the unit makes of `d`.
    pub proof fn lemma_prop_monotone(self, d: Seq<Domain>, e: Seq<Domain>)
        requires
            self.vars_below(d.len()),
            narrows(e, d),
            all_nonempty(e),
            self.prop(e) == e,
        ensures
            narrows(e, self.prop(d)),
    {
        let p = self.prop(d);
        match self {
            Propagator::Equals { a, b } => {
                let (ai, bi) = (a.id as int, b.id as int);
                assert(!e[ai].is_empty() && !e[bi].is_empty());
                assert(e[ai].within(d[ai]) && e[bi].within(d[bi]));
                assert(self.prop(e)[ai] == e[ai] && self.prop(e)[bi] == e[bi]);
            },
            Propagator::NotEquals { a, b } => {
                let (ai, bi) = (a.id as int, b.id as int);
                assert(!e[ai].is_empty() && !e[bi].is_empty());
                assert(e[ai].within(d[ai]) && e[bi].within(d[bi]));
                assert(self.prop(e)[ai] == e[ai] && self.prop(e)[bi] == e[bi]);
            },
        }
        assert forall|i: int| 0 <= i < e.len() implies (#[trigger] e[i]).within(p[i]) by {
            assert(e[i].within(d[i]));
        }
    }
}

impl ReifiedPropagator {
    pub proof fn lemma_prop_monotone(self, d: Seq<Domain>, e: Seq<Domain>)
        requires
            self.vars_below(d.len()),
            narrows(e, d),
            all_nonempty(e),
            self.prop(e) == e,
        ensures
            narrows(e, self.prop(d)),
    {
        let g = self.guard;
        let gi = g.var.id as int;
        assert(!e[gi].is_empty() && e[gi].within(d[gi]));
        if g.false_in(d[gi]) {
        } else if g.true_in(d[gi]) {
            assert(g.true_in(e[gi]) && !g.false_in(e[gi]));
            self.inner.lemma_prop_monotone(d, e);
        } else if self.inner.violated_in(d) {
            assert(self.inner.violated_in(e)) by {
                match self.inner {
                    Propagator::Equals { a, b } => {
                        assert(!e[a.id as int].is_empty() && !e[b.id as int].is_empty());
                        assert(e[a.id as int].within(d[a.id as int]));
                        assert(e[b.id as int].within(d[b.id as int]));
                    },
                    Propagator::NotEquals { a, b } => {
                        assert(!e[a.id as int].is_empty() && !e[b.id as int].is_empty());
                        assert(e[a.id as int].within(d[a.id as int]));
                        assert(e[b.id as int].within(d[b.id as int]));
                    },
                }
            }
            if g.true_in(e[gi]) && !g.false_in(e[gi]) {
                self.inner.lemma_violated_moves(e);
            }
            let p = self.prop(d);
            if !g.false_in(e[gi]) && !g.true_in(e[gi]) {
                assert(self.prop(e)[gi] == e[gi]);
            }
            assert forall|i: int| 0 <= i < e.len() implies (#[trigger] e[i]).within(p[i]) by {
                assert(e[i].within(d[i]));
            }
        }
    }
}

impl Unit {
    pub proof fn lemma_prop_monotone(self, d: Seq<Domain>, e: Seq<Domain>)
        requires
            self.vars_below(d.len()),
            narrows(e, d),
            all_nonempty(e),
            self.prop(e) == e,
        ensures
            narrows(e, self.prop(d)),
    {
        match self {
            Unit::Plain(p) => p.lemma_prop_monotone(d, e),
            Unit::Reified(r) => r.lemma_prop_monotone(d, e),
        }
    }
}

} // verus!
