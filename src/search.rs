use vstd::prelude::*;

use crate::assignment::{unassigned, Assignment};
use crate::clause::{
    clause_falsified, clause_satisfied, lit_holds, opposite, Clause, Literal,
};

verus! {

/// Every clause of `cs` is satisfied under `a`.
pub open spec fn all_satisfied(cs: Seq<Seq<Literal>>, a: Seq<Option<bool>>) -> bool {
    forall|j: int| 0 <= j < cs.len() ==> #[trigger] clause_satisfied(a, cs[j])
}

/// Some clause of `cs` is falsified under `a`.
pub open spec fn any_falsified(cs: Seq<Seq<Literal>>, a: Seq<Option<bool>>) -> bool {
    exists|j: int| 0 <= j < cs.len() && #[trigger] clause_falsified(a, cs[j])
}

/// Every literal of `cs` names a variable below `n`.
pub open spec fn vars_in_range(cs: Seq<Seq<Literal>>, n: nat) -> bool {
    forall|j: int, i: int|
        0 <= j < cs.len() && 0 <= i < cs[j].len() ==> (#[trigger] cs[j][i]).id < n
}

/// Every variable of `t` is assigned.
pub open spec fn is_total(t: Seq<Option<bool>>) -> bool {
    forall|v: int| 0 <= v < t.len() ==> (#[trigger] t[v]) is Some
}

/// `t` agrees with `a` on every variable that `a` assigns.
pub open spec fn extends(t: Seq<Option<bool>>, a: Seq<Option<bool>>) -> bool {
    &&& t.len() == a.len()
    &&& forall|v: int| 0 <= v < a.len() && (#[trigger] a[v]) is Some ==> t[v] == a[v]
}

/// The lowest unassigned variable at or above `k`, or `a.len()` if there is none.
pub open spec fn first_free(a: Seq<Option<bool>>, k: nat) -> nat
    decreases a.len() - k,
{
    if k >= a.len() {
        a.len()
    } else if a[k as int] is None {
        k
    } else {
        first_free(a, k + 1)
    }
}

/// The result of the depth-first search from assignment `a`, where every
/// variable below `k` is assigned: `None` where no extension was found,
/// otherwise the assignment at which every clause was first satisfied.
/// The lowest unassigned variable is tried with the positive polarity first.
pub open spec fn search(cs: Seq<Seq<Literal>>, a: Seq<Option<bool>>, k: nat) -> Option<
    Seq<Option<bool>>,
>
    decreases a.len() - k,
{
    if any_falsified(cs, a) {
        None
    } else if all_satisfied(cs, a) {
        Some(a)
    } else {
        let v = first_free(a, k);
        if v >= a.len() {
            None
        } else {
            proof {
                lemma_first_free_bounds(a, k);
            }
            match search(cs, a.update(v as int, Some(false)), v + 1) {
                Some(r) => Some(r),
                None => search(cs, a.update(v as int, Some(true)), v + 1),
            }
        }
    }
}

/// What `first_free` returns lies at or above `k`, is unassigned if in range,
/// and every variable between `k` and it is assigned.
pub proof fn lemma_first_free_bounds(a: Seq<Option<bool>>, k: nat)
    ensures
        k <= first_free(a, k) || k > a.len(),
        first_free(a, k) <= a.len(),
        first_free(a, k) < a.len() ==> a[first_free(a, k) as int] is None,
        forall|u: int| k <= u < first_free(a, k) ==> (#[trigger] a[u]) is Some,
    decreases a.len() - k,
{
    if k < a.len() && a[k as int] is Some {
        lemma_first_free_bounds(a, k + 1);
    }
}

/// Under an assignment that assigns every variable, a clause that is not
/// falsified is satisfied.
proof fn lemma_total_decides(cs: Seq<Seq<Literal>>, a: Seq<Option<bool>>)
    requires
        is_total(a),
        vars_in_range(cs, a.len()),
        !any_falsified(cs, a),
    ensures
        all_satisfied(cs, a),
{
    assert forall|j: int| 0 <= j < cs.len() implies #[trigger] clause_satisfied(a, cs[j]) by {
        assert(!clause_falsified(a, cs[j]));
        let i = choose|i: int| 0 <= i < cs[j].len() && !#[trigger] lit_holds(a, opposite(cs[j][i]));
        let l = cs[j][i];
        assert(l.id < a.len());
        assert(a[l.id as int] is Some);
        assert(!lit_holds(a, opposite(l)));
        assert(a[l.id as int] != Some(!l.negated));
        assert(a[l.id as int] == Some(l.negated));
        assert(lit_holds(a, l));
    }
}

/// Whatever the search returns satisfies every clause and extends the
/// assignment it started from.
pub proof fn lemma_search_sound(cs: Seq<Seq<Literal>>, a: Seq<Option<bool>>, k: nat)
    ensures
        search(cs, a, k) matches Some(r) ==> all_satisfied(cs, r) && extends(r, a),
    decreases a.len() - k,
{
    if !any_falsified(cs, a) && !all_satisfied(cs, a) {
        let v = first_free(a, k);
        lemma_first_free_bounds(a, k);
        if v < a.len() {
            let a0 = a.update(v as int, Some(false));
            let a1 = a.update(v as int, Some(true));
            lemma_search_sound(cs, a0, v + 1);
            lemma_search_sound(cs, a1, v + 1);
            if let Some(r) = search(cs, a, k) {
                assert forall|u: int| 0 <= u < a.len() && (#[trigger] a[u]) is Some implies r[u] == a[u] by {
                    if search(cs, a0, v + 1) is Some {
                        assert(a0[u] == a[u]);
                    } else {
                        assert(a1[u] == a[u]);
                    }
                }
            }
        }
    }
}

/// A falsified clause stays falsified under every extension.
proof fn lemma_falsified_extends(c: Seq<Literal>, a: Seq<Option<bool>>, t: Seq<Option<bool>>)
    requires
        clause_falsified(a, c),
        extends(t, a),
    ensures
        !clause_satisfied(t, c),
{
    if clause_satisfied(t, c) {
        let i = choose|i: int| 0 <= i < c.len() && #[trigger] lit_holds(t, c[i]);
        assert(lit_holds(a, opposite(c[i])));
    }
}

/// Where the search from `a` finds nothing, no total extension of `a`
/// satisfies every clause.
pub proof fn lemma_search_complete(
    cs: Seq<Seq<Literal>>,
    a: Seq<Option<bool>>,
    k: nat,
    t: Seq<Option<bool>>,
)
    requires
        k <= a.len(),
        forall|u: int| 0 <= u < k ==> (#[trigger] a[u]) is Some,
        vars_in_range(cs, a.len()),
        search(cs, a, k) is None,
        is_total(t),
        extends(t, a),
    ensures
        !all_satisfied(cs, t),
    decreases a.len() - k,
{
    if any_falsified(cs, a) {
        let j = choose|j: int| 0 <= j < cs.len() && #[trigger] clause_falsified(a, cs[j]);
        lemma_falsified_extends(cs[j], a, t);
    } else {
        let v = first_free(a, k);
        lemma_first_free_bounds(a, k);
        if v >= a.len() {
            assert(is_total(a));
            lemma_total_decides(cs, a);
        } else {
            let b = t[v as int]->Some_0;
            let child = a.update(v as int, Some(b));
            assert forall|u: int| 0 <= u < v + 1 implies (#[trigger] child[u]) is Some by {
                if u < k {
                    assert(a[u] is Some);
                }
            }
            lemma_search_complete(cs, child, v + 1, t);
        }
    }
}

/// A set of clauses that holds an empty clause has no satisfying
/// assignment, and the search from any state finds none.
pub proof fn lemma_empty_clause_unsat(cs: Seq<Seq<Literal>>, a: Seq<Option<bool>>, k: nat, j: int)
    requires
        0 <= j < cs.len(),
        cs[j].len() == 0,
    ensures
        search(cs, a, k) is None,
        !all_satisfied(cs, a),
{
    assert(clause_falsified(a, cs[j]));
    assert(!clause_satisfied(a, cs[j]));
}

/// With no clauses the search succeeds at once, assigning nothing.
pub proof fn lemma_no_clauses_sat(n: nat)
    ensures
        search(Seq::<Seq<Literal>>::empty(), unassigned(n), 0) == Some(unassigned(n)),
{
}

/// A set of clauses together with the state of the search over them.
pub struct Formula {
    clauses: Vec<Clause>,
    assignment: Assignment,
    next_literal_id: usize,
}

impl Formula {
    /// The number of variables.
    pub closed spec fn num_vars(&self) -> nat {
        self.assignment@.len()
    }

    /// The clauses, each as its sequence of literals.
    pub closed spec fn clause_seq(&self) -> Seq<Seq<Literal>> {
        Seq::new(self.clauses@.len(), |j: int| self.clauses@[j]@)
    }

    /// A formula ready to be solved: literals in range, nothing assigned.
    pub closed spec fn wf(&self) -> bool {
        &&& vars_in_range(self.clause_seq(), self.num_vars())
        &&& self.assignment@ == unassigned(self.num_vars())
        &&& self.next_literal_id == 0
    }

    /// The state that the search keeps: literals in range, and the assigned
    /// variables are exactly those below `next_literal_id`, a stack of
    /// decisions taken lowest id first.
    closed spec fn search_state(&self) -> bool {
        &&& vars_in_range(self.clause_seq(), self.num_vars())
        &&& self.next_literal_id <= self.num_vars()
        &&& forall|u: int|
            0 <= u < self.num_vars() ==> ((#[trigger] self.assignment@[u]) is Some <==> u
                < self.next_literal_id)
    }

    /// Builds a formula over `num_vars` variables from its clauses, with
    /// nothing assigned.
    pub(crate) fn from_clauses(clauses: Vec<Clause>, num_vars: usize) -> (r: Formula)
        requires
            vars_in_range(Seq::new(clauses@.len(), |j: int| clauses@[j]@), num_vars as nat),
        ensures
            r.wf(),
            r.num_vars() == num_vars,
            r.clause_seq() == Seq::new(clauses@.len(), |j: int| clauses@[j]@),
    {
        Formula { clauses, assignment: Assignment::new(num_vars), next_literal_id: 0 }
    }

    fn solved(&self) -> (r: bool)
        requires
            vars_in_range(self.clause_seq(), self.num_vars()),
        ensures
            r == all_satisfied(self.clause_seq(), self.assignment@),
    {
        let mut j: usize = 0;
        while j < self.clauses.len()
            invariant
                vars_in_range(self.clause_seq(), self.num_vars()),
                j <= self.clauses@.len(),
                forall|i: int| 0 <= i < j ==> #[trigger] clause_satisfied(self.assignment@, self.clause_seq()[i]),
            decreases self.clauses@.len() - j,
        {
            assert(self.clause_seq()[j as int] == self.clauses@[j as int]@);
            if !self.clauses[j].solved(&self.assignment) {
                return false;
            }
            j = j + 1;
        }
        true
    }

    fn unsolvable(&self) -> (r: bool)
        requires
            vars_in_range(self.clause_seq(), self.num_vars()),
        ensures
            r == any_falsified(self.clause_seq(), self.assignment@),
    {
        let mut j: usize = 0;
        while j < self.clauses.len()
            invariant
                vars_in_range(self.clause_seq(), self.num_vars()),
                j <= self.clauses@.len(),
                forall|i: int| 0 <= i < j ==> !#[trigger] clause_falsified(self.assignment@, self.clause_seq()[i]),
            decreases self.clauses@.len() - j,
        {
            assert(self.clause_seq()[j as int] == self.clauses@[j as int]@);
            if self.clauses[j].unsolvable(&self.assignment) {
                return true;
            }
            j = j + 1;
        }
        false
    }

    fn next_un_assigned(&self) -> (r: Literal)
        requires
            first_free(self.assignment@, self.next_literal_id as nat) < self.num_vars(),
        ensures
            r.id == first_free(self.assignment@, self.next_literal_id as nat),
            !r.negated,
    {
        proof {
            lemma_first_free_bounds(self.assignment@, self.next_literal_id as nat);
        }
        let num_vars = self.assignment.num_vars();
        let mut id: usize = self.next_literal_id;
        while self.assignment.value(id).is_some()
            invariant
                self.next_literal_id <= id <= first_free(self.assignment@, self.next_literal_id as nat),
                first_free(self.assignment@, self.next_literal_id as nat) < self.num_vars(),
                self.assignment@[first_free(self.assignment@, self.next_literal_id as nat) as int] is None,
                num_vars == self.num_vars(),
                first_free(self.assignment@, id as nat) == first_free(self.assignment@, self.next_literal_id as nat),
            decreases first_free(self.assignment@, self.next_literal_id as nat) - id,
        {
            assert(id != first_free(self.assignment@, self.next_literal_id as nat));
            assert(first_free(self.assignment@, id as nat) == first_free(self.assignment@, id as nat + 1));
            id = id + 1;
        }
        Literal { id, negated: false }
    }

    fn assign(&mut self, lit: Literal)
        requires
            lit.id < old(self).num_vars(),
        ensures
            final(self).assignment@ == old(self).assignment@.update(lit.id as int, Some(lit.negated)),
            final(self).next_literal_id == lit.id + 1,
            final(self).clauses == old(self).clauses,
    {
        let num_vars = self.assignment.num_vars();
        assert(lit.id + 1 <= num_vars);
        self.next_literal_id = lit.id + 1;
        self.assignment.assign(lit);
    }

    fn un_assign(&mut self, lit: Literal)
        requires
            lit.id < old(self).num_vars(),
        ensures
            final(self).assignment@ == old(self).assignment@.update(lit.id as int, None),
            final(self).next_literal_id == lit.id,
            final(self).clauses == old(self).clauses,
    {
        self.next_literal_id = lit.id;
        self.assignment.un_assign(lit);
    }

    fn dpll(&mut self) -> (r: bool)
        requires
            old(self).search_state(),
        ensures
            final(self).search_state(),
            final(self).clauses == old(self).clauses,
            final(self).num_vars() == old(self).num_vars(),
            r == search(old(self).clause_seq(), old(self).assignment@, old(self).next_literal_id as nat) is Some,
            r ==> search(old(self).clause_seq(), old(self).assignment@, old(self).next_literal_id as nat) == Some(final(self).assignment@),
            !r ==> final(self).assignment@ == old(self).assignment@,
            !r ==> final(self).next_literal_id == old(self).next_literal_id,
        decreases old(self).num_vars() - old(self).next_literal_id,
    {
        let ghost cs = self.clause_seq();
        let ghost a = self.assignment@;
        let ghost k = self.next_literal_id as nat;
        if self.unsolvable() {
            return false;
        }
        if self.solved() {
            return true;
        }
        proof {
            if k >= a.len() {
                assert(is_total(a)) by {
                    assert forall|u: int| 0 <= u < a.len() implies (#[trigger] a[u]) is Some by {
                        assert(u < k);
                    }
                }
                lemma_total_decides(cs, a);
            }
            assert(a[k as int] is None);
            assert(first_free(a, k) == k);
        }
        let next = self.next_un_assigned();
        self.assign(next);
        assert(self.clause_seq() == cs);
        assert(self.assignment@ == a.update(k as int, Some(false)));
        assert forall|u: int| 0 <= u < self.num_vars() implies ((#[trigger] self.assignment@[u]) is Some <==> u
            < self.next_literal_id) by {
            if u != k {
                assert(self.assignment@[u] == a[u]);
            }
        }
        if self.dpll() {
            return true;
        }
        self.un_assign(next);
        let neg = next.negate();
        self.assign(neg);
        assert(self.assignment@ == a.update(k as int, Some(true)));
        assert forall|u: int| 0 <= u < self.num_vars() implies ((#[trigger] self.assignment@[u]) is Some <==> u
            < self.next_literal_id) by {
            if u != k {
                assert(self.assignment@[u] == a[u]);
            }
        }
        let res = self.dpll();
        if !res {
            self.un_assign(neg);
            assert(self.assignment@ =~= a);
        }
        res
    }

    /// Two ready formulas with the same variables and clauses are solved alike:
    /// the verdict and the assignment depend on nothing else.
    pub proof fn lemma_solve_deterministic(f: &Formula, g: &Formula)
        requires
            f.wf(),
            g.wf(),
            f.num_vars() == g.num_vars(),
            f.clause_seq() == g.clause_seq(),
        ensures
            search(f.clause_seq(), unassigned(f.num_vars()), 0) == search(
                g.clause_seq(),
                unassigned(g.num_vars()),
                0,
            ),
    {
    }

    /// Solves the formula: a satisfying assignment, or `None` where none exists.
    /// Variables are decided lowest id first, positive polarity first, and the
    /// search stops as soon as every clause is satisfied, so variables that
    /// were not needed may be left unassigned.
    pub fn solve(self) -> (r: Option<Assignment>)
        requires
            self.wf(),
        ensures
            r matches Some(m) ==> search(self.clause_seq(), unassigned(self.num_vars()), 0) == Some(m@),
            r is None ==> search(self.clause_seq(), unassigned(self.num_vars()), 0) is None,
            r matches Some(m) ==> m@.len() == self.num_vars() && all_satisfied(self.clause_seq(), m@),
            r is None ==> forall|t: Seq<Option<bool>>|
                t.len() == self.num_vars() && #[trigger] is_total(t) ==> !all_satisfied(self.clause_seq(), t),
    {
        let ghost cs = self.clause_seq();
        let ghost n = self.num_vars();
        let mut f = self;
        if f.dpll() {
            proof {
                lemma_search_sound(cs, unassigned(n), 0);
            }
            Some(f.assignment)
        } else {
            proof {
                assert forall|t: Seq<Option<bool>>|
                    t.len() == n && #[trigger] is_total(t) implies !all_satisfied(cs, t) by {
                    lemma_search_complete(cs, unassigned(n), 0, t);
                }
            }
            None
        }
    }
}

} // verus!
