use vstd::prelude::*;
use vstd::utf8::is_ascii_chars;

use crate::clause::{lit_holds, Literal};

verus! {

/// A partial assignment: for each variable, the recorded polarity
/// (`Some(negated)`), or `None` while it is unassigned.
#[derive(Debug)]
pub struct Assignment(Vec<Option<bool>>);

impl View for Assignment {
    type V = Seq<Option<bool>>;

    closed spec fn view(&self) -> Seq<Option<bool>> {
        self.0@
    }
}

/// The decimal digit `d` as a character.
pub open spec fn digit_char(d: nat) -> char {
    seq!['0', '1', '2', '3', '4', '5', '6', '7', '8', '9'][d as int]
}

/// The decimal text of `n`.
pub open spec fn decimal(n: nat) -> Seq<char>
    decreases n,
{
    if n < 10 {
        seq![digit_char(n)]
    } else {
        decimal(n / 10) + seq![digit_char(n % 10)]
    }
}

/// The token of variable `id` in the rendering: its id, preceded by `-`
/// where it is negated, or the marker `UNASSIGNED` where it has no value;
/// a space ends it.
pub open spec fn variable_text(id: nat, v: Option<bool>) -> Seq<char> {
    match v {
        Some(negated) => (if negated {
            seq!['-']
        } else {
            Seq::empty()
        }) + decimal(id) + seq![' '],
        None => seq!['U', 'N', 'A', 'S', 'S', 'I', 'G', 'N', 'E', 'D', ' '],
    }
}

/// The texts of the first `k` variables of `a`, in ascending id order.
pub open spec fn variables_text(a: Seq<Option<bool>>, k: nat) -> Seq<char>
    decreases k,
{
    if k == 0 || k > a.len() {
        Seq::empty()
    } else {
        variables_text(a, (k - 1) as nat) + variable_text((k - 1) as nat, a[k - 1])
    }
}

/// The rendering of an assignment: each variable in ascending id order,
/// then the terminator `0`.
pub open spec fn rendering(a: Seq<Option<bool>>) -> Seq<char> {
    variables_text(a, a.len()) + seq!['0']
}

/// Appends the decimal text of `n`.
fn push_decimal(out: &mut String, n: usize)
    ensures
        final(out)@ == old(out)@ + decimal(n as nat),
    decreases n,
{
    if n >= 10 {
        push_decimal(out, n / 10);
    }
    let digits = "0123456789";
    proof {
        reveal_strlit("0123456789");
        assert(is_ascii_chars(digits@));
    }
    let d = n % 10;
    out.append(digits.substring_ascii(d, d + 1));
    assert(digits@.subrange(d as int, d + 1) =~= seq![digit_char(d as nat)]);
    if n >= 10 {
        assert(decimal(n as nat) == decimal((n / 10) as nat) + seq![digit_char((n % 10) as nat)]);
    }
}

/// The assignment of `n` variables with none of them assigned.
pub open spec fn unassigned(n: nat) -> Seq<Option<bool>> {
    Seq::new(n, |i: int| None)
}

impl Assignment {
    /// A fully unassigned assignment of `num_vars` variables.
    pub fn new(num_vars: usize) -> (r: Assignment)
        ensures
            r@ == unassigned(num_vars as nat),
    {
        let mut v: Vec<Option<bool>> = Vec::new();
        let mut i: usize = 0;
        while i < num_vars
            invariant
                i <= num_vars,
                v@ == unassigned(i as nat),
            decreases num_vars - i,
        {
            v.push(None);
            i = i + 1;
            assert(v@ =~= unassigned(i as nat));
        }
        Assignment(v)
    }

    /// The number of variables.
    pub fn num_vars(&self) -> (r: usize)
        ensures
            r == self@.len(),
    {
        self.0.len()
    }

    /// The truth value of variable `var`: `Some(true)` where it is assigned
    /// the positive polarity, `Some(false)` the negated one, `None` where unassigned.
    pub fn value(&self, var: usize) -> (r: Option<bool>)
        requires
            var < self@.len(),
        ensures
            r == (match self@[var as int] {
                Some(n) => Some(!n),
                None => None,
            }),
    {
        match self.0[var] {
            Some(n) => Some(!n),
            None => None,
        }
    }

    /// The textual rendering: one token per variable in ascending id order,
    /// its id (negated with `-` where its polarity is negated) or the marker
    /// `UNASSIGNED` where it has none; then the terminator `0`.
    pub fn render(&self) -> (r: String)
        ensures
            r@ == rendering(self@),
    {
        let mut out = String::new();
        let mut i: usize = 0;
        while i < self.0.len()
            invariant
                i <= self@.len(),
                out@ == variables_text(self@, i as nat),
            decreases self@.len() - i,
        {
            let ghost before = out@;
            match self.0[i] {
                Some(negated) => {
                    if negated {
                        out.append("-");
                        proof {
                            reveal_strlit("-");
                        }
                    }
                    push_decimal(&mut out, i);
                    out.append(" ");
                    proof {
                        reveal_strlit(" ");
                    }
                },
                None => {
                    out.append("UNASSIGNED ");
                    proof {
                        reveal_strlit("UNASSIGNED ");
                    }
                },
            }
            assert(out@ =~= before + variable_text(i as nat, self@[i as int]));
            i = i + 1;
        }
        out.append("0");
        proof {
            reveal_strlit("0");
        }
        assert(out@ =~= rendering(self@));
        out
    }

    /// Records the literal's polarity for its variable.
    pub fn assign(&mut self, lit: Literal)
        requires
            lit.id < old(self)@.len(),
        ensures
            final(self)@ == old(self)@.update(lit.id as int, Some(lit.negated)),
    {
        self.0.set(lit.id, Some(lit.negated));
    }

    /// Clears the recorded polarity of the literal's variable.
    pub fn un_assign(&mut self, lit: Literal)
        requires
            lit.id < old(self)@.len(),
        ensures
            final(self)@ == old(self)@.update(lit.id as int, None),
    {
        self.0.set(lit.id, None);
    }

    /// Whether the literal's variable is recorded with exactly its polarity.
    pub fn assigned(&self, lit: Literal) -> (r: bool)
        requires
            lit.id < self@.len(),
        ensures
            r == lit_holds(self@, lit),
    {
        match self.0[lit.id] {
            Some(n) => n == lit.negated,
            None => false,
        }
    }
}

} // verus!
