use vstd::prelude::*;

use crate::assignment::Assignment;

verus! {

/// A propositional variable, identified by a 0-based id, possibly negated.
#[derive(Clone, Copy, PartialEq, Eq, Structural, Debug)]
pub struct Literal {
    pub id: usize,
    pub negated: bool,
}

/// The complementary literal: same variable, opposite polarity.
pub open spec fn opposite(l: Literal) -> Literal {
    Literal { id: l.id, negated: !l.negated }
}

/// The literal holds under `a`: its variable is recorded with its polarity.
pub open spec fn lit_holds(a: Seq<Option<bool>>, l: Literal) -> bool {
    l.id < a.len() && a[l.id as int] == Some(l.negated)
}

/// Some literal of `c` holds under `a`.
pub open spec fn clause_satisfied(a: Seq<Option<bool>>, c: Seq<Literal>) -> bool {
    exists|i: int| 0 <= i < c.len() && #[trigger] lit_holds(a, c[i])
}

/// The complement of every literal of `c` holds under `a`.
pub open spec fn clause_falsified(a: Seq<Option<bool>>, c: Seq<Literal>) -> bool {
    forall|i: int| 0 <= i < c.len() ==> #[trigger] lit_holds(a, opposite(c[i]))
}

impl Literal {
    /// The literal of a signed DIMACS variable: `3` is id 2, `-42` is id 41 negated.
    pub fn from_var(var: isize) -> (r: Literal)
        requires
            var != 0,
            var != isize::MIN,
        ensures
            r.negated == (var < 0),
            r.id as int == (if var < 0 { -var } else { var as int }) - 1,
    {
        let magnitude: usize = if var < 0 { (-var) as usize } else { var as usize };
        Literal { id: magnitude - 1, negated: var < 0 }
    }

    /// The complementary literal.
    pub fn negate(self) -> (r: Literal)
        ensures
            r == opposite(self),
    {
        Literal { id: self.id, negated: !self.negated }
    }
}

/// A disjunction of literals.
#[derive(Debug)]
pub struct Clause(Vec<Literal>);

impl View for Clause {
    type V = Seq<Literal>;

    closed spec fn view(&self) -> Seq<Literal> {
        self.0@
    }
}

impl Clause {
    /// The empty clause, which no assignment satisfies.
    pub fn new() -> (r: Clause)
        ensures
            r@ == Seq::<Literal>::empty(),
    {
        Clause(Vec::new())
    }

    /// Appends a literal to the disjunction.
    pub fn push(&mut self, lit: Literal)
        ensures
            final(self)@ == old(self)@.push(lit),
    {
        self.0.push(lit);
    }

    /// Whether some literal holds under the assignment.
    pub fn solved(&self, assignment: &Assignment) -> (r: bool)
        requires
            forall|i: int| 0 <= i < self@.len() ==> #[trigger] self@[i].id < assignment@.len(),
        ensures
            r == clause_satisfied(assignment@, self@),
    {
        let mut i: usize = 0;
        while i < self.0.len()
            invariant
                0 <= i <= self@.len(),
                forall|j: int| 0 <= j < self@.len() ==> #[trigger] self@[j].id < assignment@.len(),
                forall|j: int| 0 <= j < i ==> !#[trigger] lit_holds(assignment@, self@[j]),
            decreases self@.len() - i,
        {
            if assignment.assigned(self.0[i]) {
                return true;
            }
            i = i + 1;
        }
        false
    }

    /// Whether the complement of every literal holds under the assignment.
    pub fn unsolvable(&self, assignment: &Assignment) -> (r: bool)
        requires
            forall|i: int| 0 <= i < self@.len() ==> #[trigger] self@[i].id < assignment@.len(),
        ensures
            r == clause_falsified(assignment@, self@),
    {
        let mut i: usize = 0;
        while i < self.0.len()
            invariant
                0 <= i <= self@.len(),
                forall|j: int| 0 <= j < self@.len() ==> #[trigger] self@[j].id < assignment@.len(),
                forall|j: int| 0 <= j < i ==> #[trigger] lit_holds(assignment@, opposite(self@[j])),
            decreases self@.len() - i,
        {
            if !assignment.assigned(self.0[i].negate()) {
                return false;
            }
            i = i + 1;
        }
        true
    }
}

} // verus!
