//! Front-end expression trees with the richer connectives, variable
//! assignments, partial evaluation, and the truth tables of the
//! bound/free-variable constraint checker.

use vstd::prelude::*;
use crate::order::{Comparison, lex_lt, name_set, strictly_sorted, sorted_insert, str_compare};
use crate::order::{names_of, lemma_names_of_index, sorted_names};

verus! {

/// An assignment of truth values to variable names.  A later insertion of
/// a name overrides an earlier one.
pub struct VarMap {
    entries: Vec<(String, bool)>,
}

/// The assignment a list of entries denotes; later entries win.
pub open spec fn map_of(s: Seq<(String, bool)>) -> Map<Seq<char>, bool>
    decreases s.len(),
{
    if s.len() == 0 {
        Map::empty()
    } else {
        map_of(s.drop_last()).insert(s.last().0@, s.last().1)
    }
}

impl View for VarMap {
    type V = Map<Seq<char>, bool>;

    closed spec fn view(&self) -> Map<Seq<char>, bool> {
        map_of(self.entries@)
    }
}

impl VarMap {
    /// The empty assignment.
    pub fn new() -> (r: VarMap)
        ensures
            r@ == Map::<Seq<char>, bool>::empty(),
    {
        VarMap { entries: Vec::new() }
    }

    /// Binds a name to a value, overriding any earlier binding.
    pub fn insert(&mut self, name: &str, value: bool)
        ensures
            final(self)@ == old(self)@.insert(name@, value),
    {
        let ghost before = self.entries@;
        self.entries.push((name.to_owned(), value));
        proof {
            assert(self.entries@.drop_last() =~= before);
        }
    }

    /// The value bound to a name, if any.
    pub fn get(&self, name: &str) -> (r: Option<bool>)
        ensures
            match r {
                Some(v) => self@.dom().contains(name@) && self@[name@] == v,
                None => !self@.dom().contains(name@),
            },
    {
        let mut i: usize = self.entries.len();
        proof {
            assert(self.entries@.take(i as int) =~= self.entries@);
        }
        loop
            invariant
                i <= self.entries.len(),
                map_of(self.entries@.take(i as int)).dom().contains(name@)
                    == self@.dom().contains(name@),
                map_of(self.entries@.take(i as int)).dom().contains(name@)
                    ==> map_of(self.entries@.take(i as int))[name@] == self@[name@],
            decreases i,
        {
            if i == 0 {
                proof {
                    assert(self.entries@.take(0).len() == 0);
                }
                return None;
            }
            i = i - 1;
            let ghost pre = self.entries@.take(i + 1);
            proof {
                assert(pre.drop_last() =~= self.entries@.take(i as int));
                assert(pre.last() == self.entries@[i as int]);
                assert(map_of(pre) == map_of(self.entries@.take(i as int))
                    .insert(self.entries@[i as int].0@, self.entries@[i as int].1));
            }
            let hit = crate::order::str_compare(self.entries[i].0.as_str(), name)
                == Comparison::Equal;
            if hit {
                let v = self.entries[i].1;
                return Some(v);
            }
        }
    }

    /// The number of entries ever inserted.
    pub fn len(&self) -> usize {
        self.entries.len()
    }

    /// The entries inserted so far, in insertion order.
    pub fn pairs(&self) -> (r: &Vec<(String, bool)>)
        ensures
            map_of(r@) == self@,
    {
        &self.entries
    }
}


/// A boolean formula over named terms, with the richer front-end
/// connectives.
#[derive(Debug, PartialEq, Eq)]
pub enum Expr {
    Term(String),
    And(Box<Expr>, Box<Expr>),
    Or(Box<Expr>, Box<Expr>),
    Implication(Box<Expr>, Box<Expr>),
    Biconditional(Box<Expr>, Box<Expr>),
    Xor(Box<Expr>, Box<Expr>),
    Not(Box<Expr>),
    True,
    False,
}

/// Mathematical model of a front-end formula.
pub enum ExprV {
    Term(Seq<char>),
    And(Box<ExprV>, Box<ExprV>),
    Or(Box<ExprV>, Box<ExprV>),
    Implication(Box<ExprV>, Box<ExprV>),
    Biconditional(Box<ExprV>, Box<ExprV>),
    Xor(Box<ExprV>, Box<ExprV>),
    Not(Box<ExprV>),
    True,
    False,
}

/// The model of a concrete formula.
pub open spec fn model(e: Expr) -> ExprV
    decreases e,
{
    match e {
        Expr::Term(n) => ExprV::Term(n@),
        Expr::And(a, b) => ExprV::And(Box::new(model(*a)), Box::new(model(*b))),
        Expr::Or(a, b) => ExprV::Or(Box::new(model(*a)), Box::new(model(*b))),
        Expr::Implication(a, b) => ExprV::Implication(Box::new(model(*a)), Box::new(model(*b))),
        Expr::Biconditional(a, b) => ExprV::Biconditional(
            Box::new(model(*a)), Box::new(model(*b))),
        Expr::Xor(a, b) => ExprV::Xor(Box::new(model(*a)), Box::new(model(*b))),
        Expr::Not(a) => ExprV::Not(Box::new(model(*a))),
        Expr::True => ExprV::True,
        Expr::False => ExprV::False,
    }
}

impl View for Expr {
    type V = ExprV;

    open spec fn view(&self) -> ExprV {
        model(*self)
    }
}

/// The truth value of a formula under a total assignment.
pub open spec fn fev(e: ExprV, m: Map<Seq<char>, bool>) -> bool
    decreases e,
{
    match e {
        ExprV::Term(n) => m[n],
        ExprV::And(a, b) => fev(*a, m) && fev(*b, m),
        ExprV::Or(a, b) => fev(*a, m) || fev(*b, m),
        ExprV::Implication(a, b) => !fev(*a, m) || fev(*b, m),
        ExprV::Biconditional(a, b) => fev(*a, m) == fev(*b, m),
        ExprV::Xor(a, b) => fev(*a, m) != fev(*b, m),
        ExprV::Not(a) => !fev(*a, m),
        ExprV::True => true,
        ExprV::False => false,
    }
}

/// The set of term names a formula mentions.
pub open spec fn fvars(e: ExprV) -> Set<Seq<char>>
    decreases e,
{
    match e {
        ExprV::Term(n) => Set::empty().insert(n),
        ExprV::And(a, b) => fvars(*a).union(fvars(*b)),
        ExprV::Or(a, b) => fvars(*a).union(fvars(*b)),
        ExprV::Implication(a, b) => fvars(*a).union(fvars(*b)),
        ExprV::Biconditional(a, b) => fvars(*a).union(fvars(*b)),
        ExprV::Xor(a, b) => fvars(*a).union(fvars(*b)),
        ExprV::Not(a) => fvars(*a),
        ExprV::True => Set::empty(),
        ExprV::False => Set::empty(),
    }
}

/// The constant-folding cleanup the evaluator applies: a double negation
/// or a negated constant collapses, a conjunction with a constant operand
/// folds, and everything else stands.
pub open spec fn nsimp(e: ExprV) -> ExprV
    decreases e,
{
    match e {
        ExprV::Not(a) => match *a {
            ExprV::Not(b) => nsimp(*b),
            ExprV::True => ExprV::False,
            ExprV::False => ExprV::True,
            _ => ExprV::Not(Box::new(nsimp(*a))),
        },
        ExprV::And(a, b) => {
            if *a == ExprV::True {
                *b
            } else if *b == ExprV::True {
                *a
            } else if *a == ExprV::False || *b == ExprV::False {
                ExprV::False
            } else {
                e
            }
        },
        _ => e,
    }
}

/// What the partial evaluator returns: known terms replaced by their
/// constants, and every connective folded as far as the constants allow.
pub open spec fn eval_in(e: ExprV, m: Map<Seq<char>, bool>) -> ExprV
    decreases e,
{
    match e {
        ExprV::False => ExprV::False,
        ExprV::True => ExprV::True,
        ExprV::Term(n) => if m.dom().contains(n) {
            if m[n] { ExprV::True } else { ExprV::False }
        } else {
            ExprV::Term(n)
        },
        ExprV::And(a, b) => {
            let x = eval_in(*a, m);
            let y = eval_in(*b, m);
            if x == ExprV::False || y == ExprV::False {
                ExprV::False
            } else if x == ExprV::True && y == ExprV::True {
                ExprV::True
            } else if x == ExprV::True {
                y
            } else if y == ExprV::True {
                x
            } else {
                ExprV::And(Box::new(x), Box::new(y))
            }
        },
        ExprV::Or(a, b) => {
            let x = eval_in(*a, m);
            let y = eval_in(*b, m);
            if x == ExprV::True || y == ExprV::True {
                ExprV::True
            } else if x == ExprV::False {
                y
            } else if y == ExprV::False {
                x
            } else {
                ExprV::Or(Box::new(x), Box::new(y))
            }
        },
        ExprV::Xor(a, b) => {
            let x = eval_in(*a, m);
            let y = eval_in(*b, m);
            if x == ExprV::True && y == ExprV::True {
                ExprV::False
            } else if x == ExprV::False {
                y
            } else if y == ExprV::False {
                x
            } else if x == ExprV::True {
                nsimp(ExprV::Not(Box::new(y)))
            } else if y == ExprV::True {
                nsimp(ExprV::Not(Box::new(x)))
            } else {
                ExprV::Xor(Box::new(x), Box::new(y))
            }
        },
        ExprV::Implication(a, b) => {
            let x = eval_in(*a, m);
            let y = eval_in(*b, m);
            if x == ExprV::False || y == ExprV::True {
                ExprV::True
            } else if x == ExprV::True {
                y
            } else {
                ExprV::Implication(Box::new(x), Box::new(y))
            }
        },
        ExprV::Biconditional(a, b) => {
            let x = eval_in(*a, m);
            let y = eval_in(*b, m);
            if x == ExprV::True {
                y
            } else if y == ExprV::True {
                x
            } else if x == ExprV::False {
                nsimp(ExprV::Not(Box::new(y)))
            } else if y == ExprV::False {
                nsimp(ExprV::Not(Box::new(x)))
            } else {
                ExprV::Biconditional(Box::new(x), Box::new(y))
            }
        },
        ExprV::Not(a) => {
            let x = eval_in(*a, m);
            if x == ExprV::True {
                ExprV::False
            } else if x == ExprV::False {
                ExprV::True
            } else {
                nsimp(ExprV::Not(Box::new(x)))
            }
        },
    }
}

impl Expr {
    /// A structurally equal copy of the formula.
    pub fn dup(&self) -> (r: Expr)
        ensures
            r@ == self@,
        decreases self,
    {
        match self {
            Expr::Term(n) => Expr::Term(n.clone()),
            Expr::And(a, b) => Expr::And(Box::new(a.dup()), Box::new(b.dup())),
            Expr::Or(a, b) => Expr::Or(Box::new(a.dup()), Box::new(b.dup())),
            Expr::Implication(a, b) => Expr::Implication(Box::new(a.dup()), Box::new(b.dup())),
            Expr::Biconditional(a, b) => Expr::Biconditional(
                Box::new(a.dup()), Box::new(b.dup())),
            Expr::Xor(a, b) => Expr::Xor(Box::new(a.dup()), Box::new(b.dup())),
            Expr::Not(a) => Expr::Not(Box::new(a.dup())),
            Expr::True => Expr::True,
            Expr::False => Expr::False,
        }
    }

    /// Whether the formula is the given constant.
    fn is_const(&self, want_true: bool) -> (r: bool)
        ensures
            want_true ==> r == (self@ == ExprV::True),
            !want_true ==> r == (self@ == ExprV::False),
    {
        proof {
            lemma_fvariant(*self);
        }
        if want_true {
            matches!(self, Expr::True)
        } else {
            matches!(self, Expr::False)
        }
    }

    /// The evaluator's constant folding.
    fn fold_consts(self) -> (r: Expr)
        ensures
            r@ == nsimp(self@),
        decreases self,
    {
        proof {
            lemma_fvariant(self);
        }
        match self {
            Expr::Not(a) => {
                proof {
                    lemma_fvariant(*a);
                }
                match *a {
                    Expr::Not(b) => b.fold_consts(),
                    Expr::True => Expr::False,
                    Expr::False => Expr::True,
                    other => Expr::Not(Box::new(other.fold_consts())),
                }
            },
            Expr::And(a, b) => {
                proof {
                    lemma_fvariant(*a);
                    lemma_fvariant(*b);
                }
                if a.is_const(true) {
                    *b
                } else if b.is_const(true) {
                    *a
                } else if a.is_const(false) || b.is_const(false) {
                    Expr::False
                } else {
                    Expr::And(a, b)
                }
            },
            other => other,
        }
    }

    /// Evaluates the formula under a partial assignment: every known term
    /// becomes its constant and the connectives fold as far as the
    /// constants allow, leaving a formula over the unknown terms only.
    pub fn evaluate(&self, m: &VarMap) -> (r: Expr)
        ensures
            r@ == eval_in(self@, m@),
        decreases self,
    {
        match self {
            Expr::False => Expr::False,
            Expr::True => Expr::True,
            Expr::Term(n) => {
                match m.get(n.as_str()) {
                    Some(v) => if v {
                        Expr::True
                    } else {
                        Expr::False
                    },
                    None => Expr::Term(n.clone()),
                }
            },
            Expr::And(a, b) => {
                let x = a.evaluate(m);
                let y = b.evaluate(m);
                proof {
                    lemma_fvariant(x);
                    lemma_fvariant(y);
                }
                if x.is_const(false) || y.is_const(false) {
                    Expr::False
                } else if x.is_const(true) && y.is_const(true) {
                    Expr::True
                } else if x.is_const(true) {
                    y
                } else if y.is_const(true) {
                    x
                } else {
                    Expr::And(Box::new(x), Box::new(y))
                }
            },
            Expr::Or(a, b) => {
                let x = a.evaluate(m);
                let y = b.evaluate(m);
                if x.is_const(true) || y.is_const(true) {
                    Expr::True
                } else if x.is_const(false) {
                    y
                } else if y.is_const(false) {
                    x
                } else {
                    Expr::Or(Box::new(x), Box::new(y))
                }
            },
            Expr::Xor(a, b) => {
                let x = a.evaluate(m);
                let y = b.evaluate(m);
                if x.is_const(true) && y.is_const(true) {
                    Expr::False
                } else if x.is_const(false) {
                    y
                } else if y.is_const(false) {
                    x
                } else if x.is_const(true) {
                    Expr::Not(Box::new(y)).fold_consts()
                } else if y.is_const(true) {
                    Expr::Not(Box::new(x)).fold_consts()
                } else {
                    Expr::Xor(Box::new(x), Box::new(y))
                }
            },
            Expr::Implication(a, b) => {
                let x = a.evaluate(m);
                let y = b.evaluate(m);
                if x.is_const(false) || y.is_const(true) {
                    Expr::True
                } else if x.is_const(true) {
                    y
                } else {
                    Expr::Implication(Box::new(x), Box::new(y))
                }
            },
            Expr::Biconditional(a, b) => {
                let x = a.evaluate(m);
                let y = b.evaluate(m);
                if x.is_const(true) {
                    y
                } else if y.is_const(true) {
                    x
                } else if x.is_const(false) {
                    Expr::Not(Box::new(y)).fold_consts()
                } else if y.is_const(false) {
                    Expr::Not(Box::new(x)).fold_consts()
                } else {
                    Expr::Biconditional(Box::new(x), Box::new(y))
                }
            },
            Expr::Not(a) => {
                let x = a.evaluate(m);
                if x.is_const(true) {
                    Expr::False
                } else if x.is_const(false) {
                    Expr::True
                } else {
                    Expr::Not(Box::new(x)).fold_consts()
                }
            },
        }
    }

    /// Whether the formula mentions the given term name.
    pub fn contains(&self, t: &str) -> (r: bool)
        ensures
            r == fvars(self@).contains(t@),
        decreases self,
    {
        match self {
            Expr::Term(n) => str_compare(n.as_str(), t) == Comparison::Equal,
            Expr::False => false,
            Expr::True => false,
            Expr::And(a, b) => a.contains(t) || b.contains(t),
            Expr::Or(a, b) => a.contains(t) || b.contains(t),
            Expr::Implication(a, b) => a.contains(t) || b.contains(t),
            Expr::Biconditional(a, b) => a.contains(t) || b.contains(t),
            Expr::Xor(a, b) => a.contains(t) || b.contains(t),
            Expr::Not(a) => a.contains(t),
        }
    }

    /// Adds the formula's term names to a sorted name list.
    fn collect_names(&self, out: &mut Vec<String>)
        requires
            strictly_sorted(old(out)@),
        ensures
            strictly_sorted(final(out)@),
            name_set(final(out)@) == name_set(old(out)@).union(fvars(self@)),
        decreases self,
    {
        match self {
            Expr::Term(n) => {
                sorted_insert(out, n.clone());
                proof {
                    assert(name_set(out@) =~= name_set(old(out)@).union(fvars(self@)));
                }
            },
            Expr::And(a, b) => {
                a.collect_names(out);
                b.collect_names(out);
                proof {
                    assert(name_set(out@) =~= name_set(old(out)@).union(fvars(self@)));
                }
            },
            Expr::Or(a, b) => {
                a.collect_names(out);
                b.collect_names(out);
                proof {
                    assert(name_set(out@) =~= name_set(old(out)@).union(fvars(self@)));
                }
            },
            Expr::Implication(a, b) => {
                a.collect_names(out);
                b.collect_names(out);
                proof {
                    assert(name_set(out@) =~= name_set(old(out)@).union(fvars(self@)));
                }
            },
            Expr::Biconditional(a, b) => {
                a.collect_names(out);
                b.collect_names(out);
                proof {
                    assert(name_set(out@) =~= name_set(old(out)@).union(fvars(self@)));
                }
            },
            Expr::Xor(a, b) => {
                a.collect_names(out);
                b.collect_names(out);
                proof {
                    assert(name_set(out@) =~= name_set(old(out)@).union(fvars(self@)));
                }
            },
            Expr::Not(a) => {
                a.collect_names(out);
            },
            Expr::True => {
                proof {
                    assert(name_set(out@) =~= name_set(old(out)@).union(fvars(self@)));
                }
            },
            Expr::False => {
                proof {
                    assert(name_set(out@) =~= name_set(old(out)@).union(fvars(self@)));
                }
            },
        }
    }

    /// The sorted, duplicate-free list of term names the formula mentions.
    pub fn variables(&self) -> (r: Vec<String>)
        ensures
            strictly_sorted(r@),
            name_set(r@) == fvars(self@),
    {
        let mut out: Vec<String> = Vec::new();
        proof {
            assert(name_set(out@) =~= Set::<Seq<char>>::empty());
        }
        self.collect_names(&mut out);
        proof {
            assert(name_set(out@) =~= fvars(self@));
        }
        out
    }
}

/// A formula and its model are built by the same connective.
pub proof fn lemma_fvariant(e: Expr)
    ensures
        model(e) is Term <==> e is Term,
        model(e) is And <==> e is And,
        model(e) is Or <==> e is Or,
        model(e) is Implication <==> e is Implication,
        model(e) is Biconditional <==> e is Biconditional,
        model(e) is Xor <==> e is Xor,
        model(e) is Not <==> e is Not,
        model(e) is True <==> e is True,
        model(e) is False <==> e is False,
{
    match e {
        Expr::Term(n) => {},
        Expr::And(a, b) => {},
        Expr::Or(a, b) => {},
        Expr::Implication(a, b) => {},
        Expr::Biconditional(a, b) => {},
        Expr::Xor(a, b) => {},
        Expr::Not(a) => {},
        Expr::True => {},
        Expr::False => {},
    }
}


/// Whether the `i`-th bit of a row number is set.
pub open spec fn nth_bit(n: usize, i: nat) -> bool {
    (n >> (i as usize)) & 1 == 1
}

/// The assignment row `n` of a truth table denotes over a variable list:
/// variable `i` is bound to bit `i` of `n`, later entries overriding.
pub open spec fn assign_map(vs: Seq<Seq<char>>, n: usize) -> Map<Seq<char>, bool>
    decreases vs.len(),
{
    if vs.len() == 0 {
        Map::empty()
    } else {
        assign_map(vs.drop_last(), n).insert(vs.last(), nth_bit(n, (vs.len() - 1) as nat))
    }
}

/// One row of a truth table: the assignment tried and what the formula
/// evaluated to under it.
pub struct TruthTable {
    pub free_map: VarMap,
    pub result: Expr,
}

/// The rows of a truth table for a formula over a variable list: row `n`
/// holds the assignment numbered `n` and the formula evaluated under it.
pub open spec fn table_matches(rows: Seq<TruthTable>, e: ExprV, vs: Seq<Seq<char>>) -> bool {
    &&& rows.len() == vstd::arithmetic::power2::pow2(vs.len())
    &&& forall|n: int| 0 <= n < rows.len()
        ==> (#[trigger] rows[n]).free_map@ == assign_map(vs, n as usize)
            && rows[n].result@ == eval_in(e, assign_map(vs, n as usize))
}

/// A constraint system: the bound variables to solve for and the
/// constraint formulas over bound and free variables.
pub struct Constraints {
    pub bound: Vec<String>,
    pub exprs: Vec<Expr>,
}

/// The names of the members of a name list that a formula mentions, in
/// list order.
pub open spec fn filter_members(bound: Seq<String>, names: Set<Seq<char>>) -> Seq<Seq<char>>
    decreases bound.len(),
{
    if bound.len() == 0 {
        Seq::empty()
    } else if names.contains(bound.last()@) {
        filter_members(bound.drop_last(), names).push(bound.last()@)
    } else {
        filter_members(bound.drop_last(), names)
    }
}

/// The names of a list that do not appear among the bound names.
pub open spec fn not_bound(vs: Seq<Seq<char>>, bound: Set<Seq<char>>) -> Seq<Seq<char>>
    decreases vs.len(),
{
    if vs.len() == 0 {
        Seq::empty()
    } else if bound.contains(vs.last()) {
        not_bound(vs.drop_last(), bound)
    } else {
        not_bound(vs.drop_last(), bound).push(vs.last())
    }
}

/// The sorted, duplicate-free variable list of a formula; the list is
/// unique, so it is written as a choice.
pub open spec fn sorted_vars_of(e: ExprV) -> Seq<Seq<char>> {
    choose|vs: Seq<Seq<char>>| sorted_names(vs) && #[trigger] vs.to_set() == fvars(e)
}

/// The free variables of the whole constraint system: the variables of
/// each constraint in order, the bound ones left out.
pub open spec fn free_list(exprs: Seq<Expr>, bound: Seq<String>) -> Seq<Seq<char>>
    decreases exprs.len(),
{
    if exprs.len() == 0 {
        Seq::empty()
    } else {
        free_list(exprs.drop_last(), bound)
            + not_bound(sorted_vars_of(exprs.last()@), name_set(bound))
    }
}

/// Builds the assignment numbered `n` over a variable list.
#[verifier::loop_isolation(false)]
fn build_assignment(vs: &Vec<String>, n: usize) -> (r: VarMap)
    requires
        vs@.len() <= 32,
    ensures
        r@ == assign_map(names_of(vs@), n),
{
    let ghost nv = names_of(vs@);
    proof {
        lemma_names_of_index(vs@);
    }
    let mut run = VarMap::new();
    proof {
        assert(assign_map(nv.take(0), n) =~= Map::<Seq<char>, bool>::empty());
    }
    let mut i: usize = 0;
    while i < vs.len()
        invariant
            i <= vs.len(),
            run@ == assign_map(nv.take(i as int), n),
        decreases vs.len() - i,
    {
        proof {
            assert(nv.take(i + 1).drop_last() =~= nv.take(i as int));
            assert(nv.take(i + 1).last() == nv[i as int]);
        }
        let bit = (n >> i) & 1 == 1;
        run.insert(vs[i].as_str(), bit);
        i = i + 1;
    }
    proof {
        assert(nv.take(vs@.len() as int) =~= nv);
    }
    run
}

/// Builds the full truth table of a formula over a variable list.
#[verifier::loop_isolation(false)]
fn table_over(e: &Expr, vs: &Vec<String>) -> (rows: Vec<TruthTable>)
    requires
        vs@.len() < 32,
    ensures
        table_matches(rows@, e@, names_of(vs@)),
{
    proof {
        lemma_names_of_index(vs@);
        vstd::arithmetic::power2::lemma2_to64();
        vstd::arithmetic::power2::lemma_pow2_strictly_increases(vs@.len(), 32);
    }
    let len32: u32 = vs.len() as u32;
    let total32: u32 = 1u32 << len32;
    proof {
        vstd::bits::lemma_u32_shl_is_mul(1u32, len32);
        assert(total32 == vstd::arithmetic::power2::pow2(vs@.len()));
    }
    let total: usize = total32 as usize;
    let mut rows: Vec<TruthTable> = Vec::new();
    let mut n: usize = 0;
    while n < total
        invariant
            n <= total,
            total == vstd::arithmetic::power2::pow2(names_of(vs@).len()),
            rows@.len() == n,
            forall|k: int| 0 <= k < n
                ==> (#[trigger] rows@[k]).free_map@ == assign_map(names_of(vs@), k as usize)
                    && rows@[k].result@
                        == eval_in(e@, assign_map(names_of(vs@), k as usize)),
        decreases total - n,
    {
        let run = build_assignment(vs, n);
        let result = e.evaluate(&run);
        rows.push(TruthTable { free_map: run, result });
        n = n + 1;
    }
    rows
}

impl Constraints {
    /// The bound variables the formula mentions, in the bound list's
    /// order.
    #[verifier::loop_isolation(false)]
    pub fn bound_vars_in_expr(&self, e: &Expr) -> (r: Vec<String>)
        ensures
            names_of(r@) == filter_members(self.bound@, fvars(e@)),
            r@.len() <= self.bound@.len(),
    {
        let mut r: Vec<String> = Vec::new();
        proof {
            assert(names_of(r@) =~= filter_members(self.bound@.take(0), fvars(e@)));
        }
        let mut i: usize = 0;
        while i < self.bound.len()
            invariant
                i <= self.bound.len(),
                r@.len() <= i,
                names_of(r@) == filter_members(self.bound@.take(i as int), fvars(e@)),
            decreases self.bound.len() - i,
        {
            proof {
                assert(self.bound@.take(i + 1).drop_last() =~= self.bound@.take(i as int));
                assert(self.bound@.take(i + 1).last() == self.bound@[i as int]);
            }
            if e.contains(self.bound[i].as_str()) {
                let ghost pre = r@;
                let c = self.bound[i].clone();
                r.push(c);
                proof {
                    assert(r@.drop_last() =~= pre);
                }
            }
            i = i + 1;
        }
        proof {
            assert(self.bound@.take(self.bound@.len() as int) =~= self.bound@);
        }
        r
    }

    /// The truth table of a formula over the bound variables it mentions:
    /// one row per assignment of those variables, free variables left
    /// symbolic in each row's result.
    pub fn bound_truth_table(&self, e: &Expr) -> (rows: Vec<TruthTable>)
        requires
            self.bound@.len() < 32,
        ensures
            table_matches(rows@, e@, filter_members(self.bound@, fvars(e@))),
    {
        let vars = self.bound_vars_in_expr(e);
        proof {
            crate::order::lemma_names_of_index(vars@);
        }
        table_over(e, &vars)
    }

    /// The truth table of a formula over the whole system's free
    /// variables: the variables of every constraint, bound ones left out.
    pub fn free_truth_table(&self, e: &Expr) -> (rows: Vec<TruthTable>)
        requires
            free_list(self.exprs@, self.bound@).len() < 32,
        ensures
            table_matches(rows@, e@, free_list(self.exprs@, self.bound@)),
    {
        let vars = self.free_vars();
        proof {
            lemma_names_of_index(vars@);
        }
        table_over(e, &vars)
    }

    /// The free-variable truth table of every constraint, in order.
    #[verifier::loop_isolation(false)]
    pub fn free_truth_tables(&self) -> (r: Vec<Vec<TruthTable>>)
        requires
            free_list(self.exprs@, self.bound@).len() < 32,
        ensures
            r@.len() == self.exprs@.len(),
            forall|i: int| 0 <= i < r@.len() ==> table_matches(
                (#[trigger] r@[i])@, self.exprs@[i]@,
                free_list(self.exprs@, self.bound@)),
    {
        let mut r: Vec<Vec<TruthTable>> = Vec::new();
        let mut i: usize = 0;
        while i < self.exprs.len()
            invariant
                i <= self.exprs.len(),
                r@.len() == i,
                forall|j: int| 0 <= j < i ==> table_matches(
                    (#[trigger] r@[j])@, self.exprs@[j]@,
                    free_list(self.exprs@, self.bound@)),
            decreases self.exprs.len() - i,
        {
            let rows = self.free_truth_table(&self.exprs[i]);
            r.push(rows);
            i = i + 1;
        }
        r
    }

    /// The whole system's free-variable list.
    #[verifier::loop_isolation(false)]
    fn free_vars(&self) -> (r: Vec<String>)
        ensures
            names_of(r@) == free_list(self.exprs@, self.bound@),
    {
        let mut r: Vec<String> = Vec::new();
        proof {
            assert(names_of(r@) =~= free_list(self.exprs@.take(0), self.bound@));
        }
        let mut i: usize = 0;
        while i < self.exprs.len()
            invariant
                i <= self.exprs.len(),
                names_of(r@) == free_list(self.exprs@.take(i as int), self.bound@),
            decreases self.exprs.len() - i,
        {
            proof {
                assert(self.exprs@.take(i + 1).drop_last() =~= self.exprs@.take(i as int));
                assert(self.exprs@.take(i + 1).last() == self.exprs@[i as int]);
            }
            let vs = self.exprs[i].variables();
            let ghost vn = names_of(vs@);
            proof {
                lemma_names_of_index(vs@);
                assert(vn.to_set() =~= fvars(self.exprs@[i as int]@)) by {
                    assert forall|nm: Seq<char>| vn.to_set().contains(nm)
                        implies fvars(self.exprs@[i as int]@).contains(nm) by {
                        let w = choose|w: int| 0 <= w < vn.len() && vn[w] == nm;
                        assert(vs@[w]@ == nm);
                        assert(name_set(vs@).contains(nm));
                    }
                    assert forall|nm: Seq<char>| fvars(self.exprs@[i as int]@).contains(nm)
                        implies vn.to_set().contains(nm) by {
                        assert(name_set(vs@).contains(nm));
                        let w = choose|w: int| 0 <= w < vs@.len() && #[trigger] vs@[w]@ == nm;
                        assert(vn[w] == nm);
                    }
                }
                assert(sorted_names(vn)) by {
                    assert forall|p: int, q: int| 0 <= p < q < vn.len()
                        implies lex_lt(#[trigger] vn[p], #[trigger] vn[q]) by {
                        assert(lex_lt(vs@[p]@, vs@[q]@));
                    }
                }
                crate::order::lemma_sorted_names_unique(vn,
                    sorted_vars_of(self.exprs@[i as int]@));
                assert(vn == sorted_vars_of(self.exprs@[i as int]@));
                assert(not_bound(vn.take(0), name_set(self.bound@)) =~=
                    Seq::<Seq<char>>::empty());
            }
            let ghost base = names_of(r@);
            let mut j: usize = 0;
            while j < vs.len()
                invariant
                    j <= vs.len(),
                    vn == names_of(vs@),
                    vn.len() == vs@.len(),
                    forall|w: int| 0 <= w < vs@.len() ==> #[trigger] vn[w] == vs@[w]@,
                    names_of(r@) == base + not_bound(vn.take(j as int), name_set(self.bound@)),
                decreases vs.len() - j,
            {
                proof {
                    assert(vn.take(j + 1).drop_last() =~= vn.take(j as int));
                    assert(vn.take(j + 1).last() == vn[j as int]);
                }
                let mut is_bound = false;
                let mut k: usize = 0;
                while k < self.bound.len()
                    invariant
                        k <= self.bound.len(),
                        j < vs.len(),
                        is_bound ==> name_set(self.bound@).contains(vs@[j as int]@),
                        !is_bound ==> forall|q: int| 0 <= q < k
                            ==> #[trigger] self.bound@[q]@ != vs@[j as int]@,
                    decreases self.bound.len() - k,
                {
                    if !is_bound {
                        if str_compare(self.bound[k].as_str(), vs[j].as_str())
                            == Comparison::Equal {
                            is_bound = true;
                            proof {
                                assert(name_set(self.bound@).contains(vs@[j as int]@));
                            }
                        }
                    }
                    k = k + 1;
                }
                proof {
                    if !is_bound {
                        assert(!name_set(self.bound@).contains(vs@[j as int]@)) by {
                            if name_set(self.bound@).contains(vs@[j as int]@) {
                                let w = choose|w: int| 0 <= w < self.bound@.len()
                                    && #[trigger] self.bound@[w]@ == vs@[j as int]@;
                            }
                        }
                    }
                }
                if !is_bound {
                    let ghost pre = r@;
                    let c = vs[j].clone();
                    r.push(c);
                    proof {
                        assert(r@.drop_last() =~= pre);
                    }
                }
                j = j + 1;
            }
            proof {
                assert(vn.take(vs@.len() as int) =~= vn);
                assert(names_of(r@) == free_list(self.exprs@.take(i + 1), self.bound@));
            }
            i = i + 1;
        }
        proof {
            assert(self.exprs@.take(self.exprs@.len() as int) =~= self.exprs@);
        }
        r
    }
}


/// The evaluator's constant folding preserves the truth value.
pub proof fn lemma_nsimp_fev(e: ExprV, t: Map<Seq<char>, bool>)
    ensures
        fev(nsimp(e), t) == fev(e, t),
    decreases e,
{
    reveal_with_fuel(fev, 4);
    match e {
        ExprV::Not(a) => {
            match *a {
                ExprV::Not(b) => {
                    lemma_nsimp_fev(*b, t);
                },
                ExprV::True => {},
                ExprV::False => {},
                _ => {
                    lemma_nsimp_fev(*a, t);
                },
            }
        },
        ExprV::And(a, b) => {},
        _ => {},
    }
}

/// Partial evaluation agrees with full evaluation: under any total
/// assignment that extends the partial one, the evaluated formula has the
/// value of the original.
pub proof fn lemma_eval_in_agrees(e: ExprV, m: Map<Seq<char>, bool>, t: Map<Seq<char>, bool>)
    requires
        m.submap_of(t),
    ensures
        fev(eval_in(e, m), t) == fev(e, t),
    decreases e,
{
    reveal_with_fuel(fev, 4);
    match e {
        ExprV::Term(n) => {
            if m.dom().contains(n) {
                assert(t.dom().contains(n) && m[n] == t[n]);
                if m[n] {
                    assert(eval_in(e, m) == ExprV::True);
                    assert(fev(ExprV::True, t));
                } else {
                    assert(eval_in(e, m) == ExprV::False);
                    assert(!fev(ExprV::False, t));
                }
                assert(fev(e, t) == t[n]);
            }
        },
        ExprV::And(a, b) => {
            lemma_eval_in_agrees(*a, m, t);
            lemma_eval_in_agrees(*b, m, t);
        },
        ExprV::Or(a, b) => {
            lemma_eval_in_agrees(*a, m, t);
            lemma_eval_in_agrees(*b, m, t);
        },
        ExprV::Xor(a, b) => {
            lemma_eval_in_agrees(*a, m, t);
            lemma_eval_in_agrees(*b, m, t);
            let x = eval_in(*a, m);
            let y = eval_in(*b, m);
            if !(x == ExprV::True && y == ExprV::True) && x != ExprV::False
                && y != ExprV::False {
                if x == ExprV::True {
                    lemma_nsimp_fev(ExprV::Not(Box::new(y)), t);
                } else if y == ExprV::True {
                    lemma_nsimp_fev(ExprV::Not(Box::new(x)), t);
                }
            }
        },
        ExprV::Implication(a, b) => {
            lemma_eval_in_agrees(*a, m, t);
            lemma_eval_in_agrees(*b, m, t);
        },
        ExprV::Biconditional(a, b) => {
            lemma_eval_in_agrees(*a, m, t);
            lemma_eval_in_agrees(*b, m, t);
            let x = eval_in(*a, m);
            let y = eval_in(*b, m);
            if x != ExprV::True && y != ExprV::True {
                if x == ExprV::False {
                    lemma_nsimp_fev(ExprV::Not(Box::new(y)), t);
                } else if y == ExprV::False {
                    lemma_nsimp_fev(ExprV::Not(Box::new(x)), t);
                }
            }
        },
        ExprV::Not(a) => {
            lemma_eval_in_agrees(*a, m, t);
            let x = eval_in(*a, m);
            if x != ExprV::True && x != ExprV::False {
                lemma_nsimp_fev(ExprV::Not(Box::new(x)), t);
            }
        },
        _ => {},
    }
}

/// Under an assignment covering all its terms, partial evaluation reaches
/// a constant.
pub proof fn lemma_eval_in_ground(e: ExprV, m: Map<Seq<char>, bool>)
    requires
        fvars(e).subset_of(m.dom()),
    ensures
        eval_in(e, m) == ExprV::True || eval_in(e, m) == ExprV::False,
    decreases e,
{
    match e {
        ExprV::Term(n) => {
            assert(fvars(e).contains(n));
        },
        ExprV::And(a, b) => {
            lemma_eval_in_ground(*a, m);
            lemma_eval_in_ground(*b, m);
        },
        ExprV::Or(a, b) => {
            lemma_eval_in_ground(*a, m);
            lemma_eval_in_ground(*b, m);
        },
        ExprV::Xor(a, b) => {
            lemma_eval_in_ground(*a, m);
            lemma_eval_in_ground(*b, m);
        },
        ExprV::Implication(a, b) => {
            lemma_eval_in_ground(*a, m);
            lemma_eval_in_ground(*b, m);
        },
        ExprV::Biconditional(a, b) => {
            lemma_eval_in_ground(*a, m);
            lemma_eval_in_ground(*b, m);
        },
        ExprV::Not(a) => {
            lemma_eval_in_ground(*a, m);
        },
        _ => {},
    }
}

} // verus!
