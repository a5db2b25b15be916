//! Binary boolean expression trees, as a front end builds them, and the
//! rewrite that pushes negation to the leaves and distributes the binary
//! operators toward the canonical form the later stages consume.

use vstd::prelude::*;

verus! {

/// A boolean formula over named variables, with binary connectives.
#[derive(Debug, PartialEq, Eq)]
pub enum Expr {
    And(Box<Expr>, Box<Expr>),
    Or(Box<Expr>, Box<Expr>),
    Not(Box<Expr>),
    Var(String),
    True,
    False,
}

/// Mathematical model of a binary formula; variable names are character
/// sequences.
pub enum ExprV {
    And(Box<ExprV>, Box<ExprV>),
    Or(Box<ExprV>, Box<ExprV>),
    Not(Box<ExprV>),
    Var(Seq<char>),
    True,
    False,
}

/// The model of a concrete formula.
pub open spec fn model(e: Expr) -> ExprV
    decreases e,
{
    match e {
        Expr::And(a, b) => ExprV::And(Box::new(model(*a)), Box::new(model(*b))),
        Expr::Or(a, b) => ExprV::Or(Box::new(model(*a)), Box::new(model(*b))),
        Expr::Not(a) => ExprV::Not(Box::new(model(*a))),
        Expr::Var(n) => ExprV::Var(n@),
        Expr::True => ExprV::True,
        Expr::False => ExprV::False,
    }
}

impl View for Expr {
    type V = ExprV;

    open spec fn view(&self) -> ExprV {
        model(*self)
    }
}

/// The truth value of a formula under an assignment of its variables.
pub open spec fn beval(e: ExprV, m: Map<Seq<char>, bool>) -> bool
    decreases e,
{
    match e {
        ExprV::And(a, b) => beval(*a, m) && beval(*b, m),
        ExprV::Or(a, b) => beval(*a, m) || beval(*b, m),
        ExprV::Not(a) => !beval(*a, m),
        ExprV::Var(n) => m[n],
        ExprV::True => true,
        ExprV::False => false,
    }
}

/// Node count of a formula; the measure under which `distribute`
/// terminates.
pub open spec fn esize(e: ExprV) -> nat
    decreases e,
{
    match e {
        ExprV::And(a, b) => 1 + esize(*a) + esize(*b),
        ExprV::Or(a, b) => 1 + esize(*a) + esize(*b),
        ExprV::Not(a) => 1 + esize(*a),
        ExprV::Var(_) => 1,
        ExprV::True => 1,
        ExprV::False => 1,
    }
}

/// Negation-normal shape: every `Not` node wraps a bare variable.
pub open spec fn is_nnf(e: ExprV) -> bool
    decreases e,
{
    match e {
        ExprV::And(a, b) => is_nnf(*a) && is_nnf(*b),
        ExprV::Or(a, b) => is_nnf(*a) && is_nnf(*b),
        ExprV::Not(a) => *a is Var,
        ExprV::Var(_) => true,
        ExprV::True => true,
        ExprV::False => true,
    }
}

/// A variable as a formula.
pub fn var(n: &str) -> (r: Box<Expr>)
    ensures
        r@ == ExprV::Var(n@),
{
    Box::new(Expr::Var(n.to_owned()))
}

/// The constant true formula.
pub fn etrue() -> (r: Box<Expr>)
    ensures
        r@ == ExprV::True,
{
    Box::new(Expr::True)
}

/// The constant false formula.
pub fn efalse() -> (r: Box<Expr>)
    ensures
        r@ == ExprV::False,
{
    Box::new(Expr::False)
}

/// The conjunction of two formulas.
pub fn make_and(a: Box<Expr>, b: Box<Expr>) -> (r: Box<Expr>)
    ensures
        r@ == ExprV::And(Box::new(a@), Box::new(b@)),
{
    Box::new(Expr::And(a, b))
}

/// The disjunction of two formulas.
pub fn make_or(a: Box<Expr>, b: Box<Expr>) -> (r: Box<Expr>)
    ensures
        r@ == ExprV::Or(Box::new(a@), Box::new(b@)),
{
    Box::new(Expr::Or(a, b))
}

/// The negation of a formula.
pub fn make_not(a: Box<Expr>) -> (r: Box<Expr>)
    ensures
        r@ == ExprV::Not(Box::new(a@)),
{
    Box::new(Expr::Not(a))
}

/// The set of variable names a formula mentions.
pub open spec fn bvars(e: ExprV) -> Set<Seq<char>>
    decreases e,
{
    match e {
        ExprV::And(a, b) => bvars(*a).union(bvars(*b)),
        ExprV::Or(a, b) => bvars(*a).union(bvars(*b)),
        ExprV::Not(a) => bvars(*a),
        ExprV::Var(n) => Set::empty().insert(n),
        ExprV::True => Set::empty(),
        ExprV::False => Set::empty(),
    }
}

impl Expr {
    /// The truth value of the formula under a total assignment of its
    /// variables.
    pub fn eval(&self, m: &crate::nodes::VarMap) -> (r: bool)
        requires
            bvars(self@).subset_of(m@.dom()),
        ensures
            r == beval(self@, m@),
        decreases self,
    {
        match self {
            Expr::And(a, b) => a.eval(m) && b.eval(m),
            Expr::Or(a, b) => a.eval(m) || b.eval(m),
            Expr::Not(a) => !a.eval(m),
            Expr::Var(n) => {
                proof {
                    assert(bvars(self@).contains(n@));
                }
                match m.get(n.as_str()) {
                    Some(v) => v,
                    None => {
                        proof {
                            assert(false);
                        }
                        false
                    },
                }
            },
            Expr::True => true,
            Expr::False => false,
        }
    }

    /// A structurally equal copy of the formula.
    pub fn dup(&self) -> (r: Expr)
        ensures
            r@ == self@,
        decreases self,
    {
        match self {
            Expr::And(a, b) => Expr::And(Box::new(a.dup()), Box::new(b.dup())),
            Expr::Or(a, b) => Expr::Or(Box::new(a.dup()), Box::new(b.dup())),
            Expr::Not(a) => Expr::Not(Box::new(a.dup())),
            Expr::Var(n) => Expr::Var(n.clone()),
            Expr::True => Expr::True,
            Expr::False => Expr::False,
        }
    }
}

/// What `distribute` returns: negation is pushed to the leaves by De
/// Morgan's laws and double-negation elimination, conjunction is
/// distributed over disjunction, and disjunction is distributed over
/// disjunction by the absorption-backed dual rule.  Each rewrite strictly
/// shrinks the node count of its argument, which bounds the recursion.
pub open spec fn distribute_spec(e: ExprV) -> ExprV
    decreases esize(e),
    via distribute_spec_decreases
{
    match e {
        ExprV::Var(n) => ExprV::Var(n),
        ExprV::True => ExprV::True,
        ExprV::False => ExprV::False,
        ExprV::Not(v) => match *v {
            ExprV::Var(n) => ExprV::Not(Box::new(ExprV::Var(n))),
            // double negation
            ExprV::Not(a) => distribute_spec(*a),
            // De Morgan
            ExprV::And(a, b) => ExprV::Or(
                Box::new(distribute_spec(ExprV::Not(a))),
                Box::new(distribute_spec(ExprV::Not(b))),
            ),
            // De Morgan
            ExprV::Or(a, b) => ExprV::And(
                Box::new(distribute_spec(ExprV::Not(a))),
                Box::new(distribute_spec(ExprV::Not(b))),
            ),
            ExprV::True => ExprV::False,
            ExprV::False => ExprV::True,
        },
        // a(b + c) = ab + ac, pivoting on whichever operand is a disjunction
        ExprV::And(s, t) => match (*s, *t) {
            (ExprV::Or(b, c), a) => ExprV::Or(
                Box::new(distribute_spec(ExprV::And(Box::new(a), b))),
                Box::new(distribute_spec(ExprV::And(Box::new(a), c))),
            ),
            (a, ExprV::Or(b, c)) => ExprV::Or(
                Box::new(distribute_spec(ExprV::And(Box::new(a), b))),
                Box::new(distribute_spec(ExprV::And(Box::new(a), c))),
            ),
            // annulment
            (ExprV::False, _) => ExprV::False,
            // identity
            (ExprV::True, a) => distribute_spec(a),
            (a, ExprV::True) => distribute_spec(a),
            (s2, t2) => ExprV::And(
                Box::new(distribute_spec(s2)),
                Box::new(distribute_spec(t2)),
            ),
        },
        // a + bc = (a + b)(a + c), the dual distribution rule
        ExprV::Or(s, t) => match (*s, *t) {
            (ExprV::Or(b, c), a) => ExprV::And(
                Box::new(distribute_spec(ExprV::Or(Box::new(a), b))),
                Box::new(distribute_spec(ExprV::Or(Box::new(a), c))),
            ),
            (a, ExprV::Or(b, c)) => ExprV::And(
                Box::new(distribute_spec(ExprV::Or(Box::new(a), b))),
                Box::new(distribute_spec(ExprV::Or(Box::new(a), c))),
            ),
            // annulment
            (ExprV::True, _) => ExprV::True,
            // identity
            (ExprV::False, a) => distribute_spec(a),
            (a, ExprV::False) => distribute_spec(a),
            (s2, t2) => ExprV::Or(
                Box::new(distribute_spec(s2)),
                Box::new(distribute_spec(t2)),
            ),
        },
    }
}

/// Each rewrite that `distribute_spec` makes recurses on a strictly
/// smaller node count.
#[via_fn]
proof fn distribute_spec_decreases(e: ExprV) {
    reveal_with_fuel(esize, 4);
}

/// After distribution, every `Not` node wraps a bare variable.
pub proof fn lemma_distribute_nnf(e: ExprV)
    ensures
        is_nnf(distribute_spec(e)),
    decreases esize(e),
{
    reveal_with_fuel(esize, 4);
    match e {
        ExprV::Var(n) => {},
        ExprV::True => {},
        ExprV::False => {},
        ExprV::Not(v) => match *v {
            ExprV::Var(n) => {},
            ExprV::Not(a) => {
                lemma_distribute_nnf(*a);
            },
            ExprV::And(a, b) => {
                lemma_distribute_nnf(ExprV::Not(a));
                lemma_distribute_nnf(ExprV::Not(b));
            },
            ExprV::Or(a, b) => {
                lemma_distribute_nnf(ExprV::Not(a));
                lemma_distribute_nnf(ExprV::Not(b));
            },
            ExprV::True => {},
            ExprV::False => {},
        },
        ExprV::And(s, t) => match (*s, *t) {
            (ExprV::Or(b, c), a) => {
                lemma_distribute_nnf(ExprV::And(Box::new(a), b));
                lemma_distribute_nnf(ExprV::And(Box::new(a), c));
            },
            (a, ExprV::Or(b, c)) => {
                lemma_distribute_nnf(ExprV::And(Box::new(a), b));
                lemma_distribute_nnf(ExprV::And(Box::new(a), c));
            },
            (ExprV::False, _) => {},
            (ExprV::True, a) => {
                lemma_distribute_nnf(a);
            },
            (a, ExprV::True) => {
                lemma_distribute_nnf(a);
            },
            (s2, t2) => {
                lemma_distribute_nnf(s2);
                lemma_distribute_nnf(t2);
            },
        },
        ExprV::Or(s, t) => match (*s, *t) {
            (ExprV::Or(b, c), a) => {
                lemma_distribute_nnf(ExprV::Or(Box::new(a), b));
                lemma_distribute_nnf(ExprV::Or(Box::new(a), c));
            },
            (a, ExprV::Or(b, c)) => {
                lemma_distribute_nnf(ExprV::Or(Box::new(a), b));
                lemma_distribute_nnf(ExprV::Or(Box::new(a), c));
            },
            (ExprV::True, _) => {},
            (ExprV::False, a) => {
                lemma_distribute_nnf(a);
            },
            (a, ExprV::False) => {
                lemma_distribute_nnf(a);
            },
            (s2, t2) => {
                lemma_distribute_nnf(s2);
                lemma_distribute_nnf(t2);
            },
        },
    }
}

/// Inputs on which every rewrite of `distribute_spec` is sound: no
/// disjunction has a disjunction as a direct child in positive position.
/// The dual rule rewrites `(b + c) + a` to `(a + b)(a + c)`, which is not
/// an equivalence; under a negation De Morgan's law splits the formula
/// before such a pair is exposed, so there the shape is harmless.
pub open spec fn dist_safe(e: ExprV) -> bool
    decreases e,
{
    match e {
        ExprV::And(a, b) => dist_safe(*a) && dist_safe(*b),
        ExprV::Or(a, b) => !(*a is Or) && !(*b is Or) && dist_safe(*a) && dist_safe(*b),
        ExprV::Not(a) => neg_safe(*a),
        ExprV::Var(_) => true,
        ExprV::True => true,
        ExprV::False => true,
    }
}

/// Inputs that are safe when they stand under one negation.
pub open spec fn neg_safe(e: ExprV) -> bool
    decreases e,
{
    match e {
        ExprV::And(a, b) => neg_safe(*a) && neg_safe(*b),
        ExprV::Or(a, b) => neg_safe(*a) && neg_safe(*b),
        ExprV::Not(a) => dist_safe(*a),
        ExprV::Var(_) => true,
        ExprV::True => true,
        ExprV::False => true,
    }
}

/// Distribution preserves the truth value of the formula under every
/// assignment, for every input whose disjunctions do not directly nest.
pub proof fn lemma_distribute_eval(e: ExprV, m: Map<Seq<char>, bool>)
    requires
        dist_safe(e),
    ensures
        beval(distribute_spec(e), m) == beval(e, m),
    decreases esize(e),
{
    reveal_with_fuel(esize, 4);
    reveal_with_fuel(beval, 4);
    reveal_with_fuel(dist_safe, 4);
    reveal_with_fuel(neg_safe, 4);
    match e {
        ExprV::Var(n) => {},
        ExprV::True => {},
        ExprV::False => {},
        ExprV::Not(v) => match *v {
            ExprV::Var(n) => {},
            ExprV::Not(a) => {
                lemma_distribute_eval(*a, m);
            },
            ExprV::And(a, b) => {
                lemma_distribute_eval(ExprV::Not(a), m);
                lemma_distribute_eval(ExprV::Not(b), m);
            },
            ExprV::Or(a, b) => {
                lemma_distribute_eval(ExprV::Not(a), m);
                lemma_distribute_eval(ExprV::Not(b), m);
            },
            ExprV::True => {},
            ExprV::False => {},
        },
        ExprV::And(s, t) => match (*s, *t) {
            (ExprV::Or(b, c), a) => {
                lemma_distribute_eval(ExprV::And(Box::new(a), b), m);
                lemma_distribute_eval(ExprV::And(Box::new(a), c), m);
            },
            (a, ExprV::Or(b, c)) => {
                lemma_distribute_eval(ExprV::And(Box::new(a), b), m);
                lemma_distribute_eval(ExprV::And(Box::new(a), c), m);
            },
            (ExprV::False, _) => {},
            (ExprV::True, a) => {
                lemma_distribute_eval(a, m);
            },
            (a, ExprV::True) => {
                lemma_distribute_eval(a, m);
            },
            (s2, t2) => {
                lemma_distribute_eval(s2, m);
                lemma_distribute_eval(t2, m);
            },
        },
        ExprV::Or(s, t) => match (*s, *t) {
            (ExprV::Or(b, c), a) => {
                lemma_distribute_eval(ExprV::Or(Box::new(a), b), m);
                lemma_distribute_eval(ExprV::Or(Box::new(a), c), m);
            },
            (a, ExprV::Or(b, c)) => {
                lemma_distribute_eval(ExprV::Or(Box::new(a), b), m);
                lemma_distribute_eval(ExprV::Or(Box::new(a), c), m);
            },
            (ExprV::True, _) => {},
            (ExprV::False, a) => {
                lemma_distribute_eval(a, m);
            },
            (a, ExprV::False) => {
                lemma_distribute_eval(a, m);
            },
            (s2, t2) => {
                lemma_distribute_eval(s2, m);
                lemma_distribute_eval(t2, m);
            },
        },
    }
}

/// Rewrites a formula so that negation sits only on variables and the
/// connectives are distributed toward the canonical form.
fn distribute_rec(e: Box<Expr>) -> (r: Box<Expr>)
    ensures
        r@ == distribute_spec(e@),
    decreases esize(e@),
{
    proof {
        reveal_with_fuel(esize, 4);
        reveal_with_fuel(model, 4);
    }
    let ghost ev = e@;
    match *e {
        Expr::Var(n) => Box::new(Expr::Var(n)),
        Expr::True => etrue(),
        Expr::False => efalse(),
        Expr::Not(v) => match *v {
            Expr::Var(n) => Box::new(Expr::Not(Box::new(Expr::Var(n)))),
            Expr::Not(a) => distribute_rec(a),
            Expr::And(a, b) => {
                let l = distribute_rec(Box::new(Expr::Not(a)));
                let r2 = distribute_rec(Box::new(Expr::Not(b)));
                Box::new(Expr::Or(l, r2))
            },
            Expr::Or(a, b) => {
                let l = distribute_rec(Box::new(Expr::Not(a)));
                let r2 = distribute_rec(Box::new(Expr::Not(b)));
                Box::new(Expr::And(l, r2))
            },
            Expr::True => efalse(),
            Expr::False => etrue(),
        },
        Expr::And(s, t) => match (*s, *t) {
            (Expr::Or(b, c), a) => {
                let a2 = a.dup();
                let l = distribute_rec(Box::new(Expr::And(Box::new(a), b)));
                let r2 = distribute_rec(Box::new(Expr::And(Box::new(a2), c)));
                Box::new(Expr::Or(l, r2))
            },
            (a, Expr::Or(b, c)) => {
                let a2 = a.dup();
                let l = distribute_rec(Box::new(Expr::And(Box::new(a), b)));
                let r2 = distribute_rec(Box::new(Expr::And(Box::new(a2), c)));
                Box::new(Expr::Or(l, r2))
            },
            (Expr::False, _) => efalse(),
            (Expr::True, a) => distribute_rec(Box::new(a)),
            (a, Expr::True) => distribute_rec(Box::new(a)),
            (s2, t2) => {
                let l = distribute_rec(Box::new(s2));
                let r2 = distribute_rec(Box::new(t2));
                Box::new(Expr::And(l, r2))
            },
        },
        Expr::Or(s, t) => match (*s, *t) {
            (Expr::Or(b, c), a) => {
                let a2 = a.dup();
                let l = distribute_rec(Box::new(Expr::Or(Box::new(a), b)));
                let r2 = distribute_rec(Box::new(Expr::Or(Box::new(a2), c)));
                Box::new(Expr::And(l, r2))
            },
            (a, Expr::Or(b, c)) => {
                let a2 = a.dup();
                let l = distribute_rec(Box::new(Expr::Or(Box::new(a), b)));
                let r2 = distribute_rec(Box::new(Expr::Or(Box::new(a2), c)));
                Box::new(Expr::And(l, r2))
            },
            (Expr::True, _) => etrue(),
            (Expr::False, a) => distribute_rec(Box::new(a)),
            (a, Expr::False) => distribute_rec(Box::new(a)),
            (s2, t2) => {
                let l = distribute_rec(Box::new(s2));
                let r2 = distribute_rec(Box::new(t2));
                Box::new(Expr::Or(l, r2))
            },
        },
    }
}

/// Pushes negation to the leaves and distributes the connectives; the
/// result is in negation-normal form and true under exactly the same
/// assignments as the input.
pub fn distribute(e: Box<Expr>) -> (r: Box<Expr>)
    ensures
        r@ == distribute_spec(e@),
        is_nnf(r@),
        dist_safe(e@) ==> forall|m: Map<Seq<char>, bool>|
            #[trigger] beval(r@, m) == beval(e@, m),
{
    let ghost ev = e@;
    let r = distribute_rec(e);
    proof {
        lemma_distribute_nnf(ev);
        if dist_safe(ev) {
            assert forall|m: Map<Seq<char>, bool>| #[trigger] beval(r@, m) == beval(ev, m) by {
                lemma_distribute_eval(ev, m);
            }
        }
    }
    r
}

} // verus!
