use vstd::prelude::*;

verus! {

/// The identifier of a finite-domain variable held by the solver.
#[derive(Clone, Copy, Debug, PartialEq, Eq, Structural)]
pub struct DomainId {
    pub id: usize,
}

/// A Boolean proposition over a variable: with `positive` it holds when the variable is nonzero,
/// otherwise when the variable is zero.
#[derive(Clone, Copy, Debug, PartialEq, Eq, Structural)]
pub struct Literal {
    pub var: DomainId,
    pub positive: bool,
}

/// The interval `lb..=ub` of values still possible for a variable; empty when `lb > ub`.
#[derive(Clone, Copy, Debug, PartialEq, Eq, Structural)]
pub struct Domain {
    pub lb: i64,
    pub ub: i64,
}

impl Domain {
    pub open spec fn contains(self, v: int) -> bool {
        self.lb <= v <= self.ub
    }

    pub open spec fn is_empty(self) -> bool {
        self.lb > self.ub
    }

    /// `self` allows no value that `other` does not.
    pub open spec fn within(self, other: Domain) -> bool {
        self.is_empty() || (other.lb <= self.lb && self.ub <= other.ub)
    }

    /// The number of values beyond the first one: what narrowing can still take away.
    pub open spec fn slack(self) -> nat {
        if self.is_empty() {
            0
        } else {
            (self.ub - self.lb) as nat
        }
    }

    pub fn empty(&self) -> (r: bool)
        ensures
            r == self.is_empty(),
    {
        self.lb > self.ub
    }
}

impl Literal {
    pub open spec fn negation_spec(self) -> Literal {
        Literal { var: self.var, positive: !self.positive }
    }

    /// The literal with the opposite polarity over the same variable.
    pub fn negated(self) -> (r: Literal)
        ensures
            r == self.negation_spec(),
    {
        Literal { var: self.var, positive: !self.positive }
    }

    /// Whether the literal holds under the value `v` of its variable.
    pub open spec fn holds(self, v: int) -> bool {
        if self.positive {
            v != 0
        } else {
            v == 0
        }
    }

    /// Every value left in `d` makes the literal true.
    pub open spec fn true_in(self, d: Domain) -> bool {
        if self.positive {
            d.lb > 0 || d.ub < 0
        } else {
            d.lb == 0 && d.ub == 0
        }
    }

    /// Every value left in `d` makes the literal false.
    pub open spec fn false_in(self, d: Domain) -> bool {
        self.negation_spec().true_in(d)
    }

    pub fn is_true_in(&self, d: &Domain) -> (r: bool)
        ensures
            r == self.true_in(*d),
    {
        if self.positive {
            d.lb > 0 || d.ub < 0
        } else {
            d.lb == 0 && d.ub == 0
        }
    }

    pub fn is_false_in(&self, d: &Domain) -> (r: bool)
        ensures
            r == self.false_in(*d),
    {
        self.negated().is_true_in(d)
    }
}

/// A full assignment: one value per variable, each inside its domain.
pub open spec fn in_domains(a: Seq<int>, doms: Seq<Domain>) -> bool {
    &&& a.len() == doms.len()
    &&& forall|i: int| 0 <= i < doms.len() ==> (#[trigger] doms[i]).contains(a[i])
}

/// Every domain of `new` allows no value that the same domain of `old` does not.
pub open spec fn narrows(new: Seq<Domain>, old: Seq<Domain>) -> bool {
    &&& new.len() == old.len()
    &&& forall|i: int| 0 <= i < new.len() ==> (#[trigger] new[i]).within(old[i])
}

pub open spec fn all_nonempty(doms: Seq<Domain>) -> bool {
    forall|i: int| 0 <= i < doms.len() ==> !(#[trigger] doms[i]).is_empty()
}

} // verus!
