//! The demonstration variant of the engine: binary formulas with the
//! derived connectives, builder functions, evaluation, truth tables, and
//! the clause-list form of a conjunctive normal form.

use vstd::prelude::*;
use crate::nodes::VarMap;
use crate::order::{lex_lt, name_set, strictly_sorted, sorted_insert};
use crate::order::{names_of, lemma_names_of_index};

verus! {

/// A boolean formula with the derived connectives.
#[derive(Debug, PartialEq, Eq)]
pub enum Expr {
    Var(String),
    Not(Box<Expr>),
    And(Box<Expr>, Box<Expr>),
    Implication(Box<Expr>, Box<Expr>),
    Biconditional(Box<Expr>, Box<Expr>),
    Or(Box<Expr>, Box<Expr>),
    Xor(Box<Expr>, Box<Expr>),
    True,
    False,
}

/// Mathematical model of a formula.
pub enum ExprV {
    Var(Seq<char>),
    Not(Box<ExprV>),
    And(Box<ExprV>, Box<ExprV>),
    Implication(Box<ExprV>, Box<ExprV>),
    Biconditional(Box<ExprV>, Box<ExprV>),
    Or(Box<ExprV>, Box<ExprV>),
    Xor(Box<ExprV>, Box<ExprV>),
    True,
    False,
}

/// The model of a concrete formula.
pub open spec fn model(e: Expr) -> ExprV
    decreases e,
{
    match e {
        Expr::Var(n) => ExprV::Var(n@),
        Expr::Not(a) => ExprV::Not(Box::new(model(*a))),
        Expr::And(a, b) => ExprV::And(Box::new(model(*a)), Box::new(model(*b))),
        Expr::Implication(a, b) => ExprV::Implication(Box::new(model(*a)), Box::new(model(*b))),
        Expr::Biconditional(a, b) => ExprV::Biconditional(
            Box::new(model(*a)), Box::new(model(*b))),
        Expr::Or(a, b) => ExprV::Or(Box::new(model(*a)), Box::new(model(*b))),
        Expr::Xor(a, b) => ExprV::Xor(Box::new(model(*a)), Box::new(model(*b))),
        Expr::True => ExprV::True,
        Expr::False => ExprV::False,
    }
}

impl View for Expr {
    type V = ExprV;

    open spec fn view(&self) -> ExprV {
        model(*self)
    }
}

/// The truth value of a formula under a total assignment.
pub open spec fn lev(e: ExprV, m: Map<Seq<char>, bool>) -> bool
    decreases e,
{
    match e {
        ExprV::Var(n) => m[n],
        ExprV::Not(a) => !lev(*a, m),
        ExprV::And(a, b) => lev(*a, m) && lev(*b, m),
        ExprV::Implication(a, b) => !lev(*a, m) || lev(*b, m),
        ExprV::Biconditional(a, b) => lev(*a, m) == lev(*b, m),
        ExprV::Or(a, b) => lev(*a, m) || lev(*b, m),
        ExprV::Xor(a, b) => lev(*a, m) != lev(*b, m),
        ExprV::True => true,
        ExprV::False => false,
    }
}

/// The set of variable names a formula mentions.
pub open spec fn lvars(e: ExprV) -> Set<Seq<char>>
    decreases e,
{
    match e {
        ExprV::Var(n) => Set::empty().insert(n),
        ExprV::Not(a) => lvars(*a),
        ExprV::And(a, b) => lvars(*a).union(lvars(*b)),
        ExprV::Implication(a, b) => lvars(*a).union(lvars(*b)),
        ExprV::Biconditional(a, b) => lvars(*a).union(lvars(*b)),
        ExprV::Or(a, b) => lvars(*a).union(lvars(*b)),
        ExprV::Xor(a, b) => lvars(*a).union(lvars(*b)),
        ExprV::True => Set::empty(),
        ExprV::False => Set::empty(),
    }
}

impl Expr {
    /// A variable as a formula.
    pub fn var(s: &str) -> (r: Box<Expr>)
        ensures
            r@ == ExprV::Var(s@),
    {
        Box::new(Expr::Var(s.to_owned()))
    }

    /// The negation of a formula.
    pub fn not(p: Box<Expr>) -> (r: Box<Expr>)
        ensures
            r@ == ExprV::Not(Box::new(p@)),
    {
        Box::new(Expr::Not(p))
    }

    /// The conjunction of two formulas.
    pub fn and(p: Box<Expr>, q: Box<Expr>) -> (r: Box<Expr>)
        ensures
            r@ == ExprV::And(Box::new(p@), Box::new(q@)),
    {
        Box::new(Expr::And(p, q))
    }

    /// The disjunction of two formulas.
    pub fn or(p: Box<Expr>, q: Box<Expr>) -> (r: Box<Expr>)
        ensures
            r@ == ExprV::Or(Box::new(p@), Box::new(q@)),
    {
        Box::new(Expr::Or(p, q))
    }

    /// The constant true formula.
    pub fn truth() -> (r: Box<Expr>)
        ensures
            r@ == ExprV::True,
    {
        Box::new(Expr::True)
    }

    /// The constant false formula.
    pub fn falsey() -> (r: Box<Expr>)
        ensures
            r@ == ExprV::False,
    {
        Box::new(Expr::False)
    }

    /// The exclusive disjunction of two formulas.
    pub fn xor(p: Box<Expr>, q: Box<Expr>) -> (r: Box<Expr>)
        ensures
            r@ == ExprV::Xor(Box::new(p@), Box::new(q@)),
    {
        Box::new(Expr::Xor(p, q))
    }

    /// The implication between two formulas.
    pub fn implication(p: Box<Expr>, q: Box<Expr>) -> (r: Box<Expr>)
        ensures
            r@ == ExprV::Implication(Box::new(p@), Box::new(q@)),
    {
        Box::new(Expr::Implication(p, q))
    }

    /// The biconditional between two formulas.
    pub fn biconditional(p: Box<Expr>, q: Box<Expr>) -> (r: Box<Expr>)
        ensures
            r@ == ExprV::Biconditional(Box::new(p@), Box::new(q@)),
    {
        Box::new(Expr::Biconditional(p, q))
    }

    /// Adds the formula's variable names to a sorted name list.
    fn collect_names(&self, out: &mut Vec<String>)
        requires
            strictly_sorted(old(out)@),
        ensures
            strictly_sorted(final(out)@),
            name_set(final(out)@) == name_set(old(out)@).union(lvars(self@)),
        decreases self,
    {
        match self {
            Expr::Var(n) => {
                sorted_insert(out, n.clone());
                proof {
                    assert(name_set(out@) =~= name_set(old(out)@).union(lvars(self@)));
                }
            },
            Expr::Not(a) => {
                a.collect_names(out);
            },
            Expr::And(a, b) => {
                a.collect_names(out);
                b.collect_names(out);
                proof {
                    assert(name_set(out@) =~= name_set(old(out)@).union(lvars(self@)));
                }
            },
            Expr::Implication(a, b) => {
                a.collect_names(out);
                b.collect_names(out);
                proof {
                    assert(name_set(out@) =~= name_set(old(out)@).union(lvars(self@)));
                }
            },
            Expr::Biconditional(a, b) => {
                a.collect_names(out);
                b.collect_names(out);
                proof {
                    assert(name_set(out@) =~= name_set(old(out)@).union(lvars(self@)));
                }
            },
            Expr::Or(a, b) => {
                a.collect_names(out);
                b.collect_names(out);
                proof {
                    assert(name_set(out@) =~= name_set(old(out)@).union(lvars(self@)));
                }
            },
            Expr::Xor(a, b) => {
                a.collect_names(out);
                b.collect_names(out);
                proof {
                    assert(name_set(out@) =~= name_set(old(out)@).union(lvars(self@)));
                }
            },
            Expr::True => {
                proof {
                    assert(name_set(out@) =~= name_set(old(out)@).union(lvars(self@)));
                }
            },
            Expr::False => {
                proof {
                    assert(name_set(out@) =~= name_set(old(out)@).union(lvars(self@)));
                }
            },
        }
    }

    /// The sorted, duplicate-free list of variable names the formula
    /// mentions.
    pub fn vars(&self) -> (r: Vec<String>)
        ensures
            strictly_sorted(r@),
            name_set(r@) == lvars(self@),
    {
        let mut out: Vec<String> = Vec::new();
        proof {
            assert(name_set(out@) =~= Set::<Seq<char>>::empty());
        }
        self.collect_names(&mut out);
        proof {
            assert(name_set(out@) =~= lvars(self@));
        }
        out
    }

    /// The truth value of the formula under a total assignment of its
    /// variables.
    pub fn eval(&self, vals: &VarMap) -> (r: bool)
        requires
            lvars(self@).subset_of(vals@.dom()),
        ensures
            r == lev(self@, vals@),
        decreases self,
    {
        match self {
            Expr::Var(n) => {
                proof {
                    assert(lvars(self@).contains(n@));
                }
                match vals.get(n.as_str()) {
                    Some(v) => v,
                    None => {
                        proof {
                            assert(false);
                        }
                        false
                    },
                }
            },
            Expr::Not(a) => !a.eval(vals),
            Expr::And(a, b) => a.eval(vals) && b.eval(vals),
            Expr::Implication(a, b) => !a.eval(vals) || b.eval(vals),
            Expr::Biconditional(a, b) => {
                let x = a.eval(vals);
                let y = b.eval(vals);
                x == y
            },
            Expr::Or(a, b) => a.eval(vals) || b.eval(vals),
            Expr::Xor(a, b) => {
                let x = a.eval(vals);
                let y = b.eval(vals);
                x != y
            },
            Expr::True => true,
            Expr::False => false,
        }
    }
}

/// The assignment a truth-table row denotes: the variable in column `i`
/// is bound to bit `len - 1 - i` of the row number, so the first column
/// varies slowest.
pub open spec fn row_assign(vs: Seq<Seq<char>>, n: usize) -> Map<Seq<char>, bool>
    decreases vs.len(),
{
    if vs.len() == 0 {
        Map::empty()
    } else {
        row_assign(vs.drop_first(), n).insert(
            vs.first(), (n >> ((vs.len() - 1) as usize)) & 1 == 1)
    }
}

/// The bit of a truth-table row shown in one column.
pub open spec fn row_bit(n: usize, len: nat, col: nat) -> bool {
    (n >> ((len - col - 1) as usize)) & 1 == 1
}

impl Expr {
    /// The full truth table of the formula: its sorted variable list, and
    /// one row for each assignment, the first column varying slowest; the
    /// last entry of each row is the formula's value.
    pub fn truth_table(&self) -> (r: (Vec<String>, Vec<Vec<bool>>))
        requires
            lvars(self@).len() < 32,
        ensures
            strictly_sorted(r.0@),
            name_set(r.0@) == lvars(self@),
            r.1@.len() == vstd::arithmetic::power2::pow2(r.0@.len()),
            forall|n: int| 0 <= n < r.1@.len() ==> (#[trigger] r.1@[n])@.len() == r.0@.len() + 1,
            forall|n: int, i: int| 0 <= n < r.1@.len() && 0 <= i < r.0@.len()
                ==> (#[trigger] r.1@[n]@[i]) == row_bit(n as usize, r.0@.len(), i as nat),
            forall|n: int| 0 <= n < r.1@.len()
                ==> (#[trigger] r.1@[n])@.last() == lev(self@, row_assign(names_of(r.0@),
                    n as usize)),
    {
        let vars = self.vars();
        proof {
            lemma_names_of_index(vars@);
            let nv = names_of(vars@);
            assert(nv.to_set() =~= lvars(self@)) by {
                assert forall|nm: Seq<char>| nv.to_set().contains(nm)
                    implies lvars(self@).contains(nm) by {
                    let w = choose|w: int| 0 <= w < nv.len() && nv[w] == nm;
                    assert(vars@[w]@ == nm);
                    assert(name_set(vars@).contains(nm));
                }
                assert forall|nm: Seq<char>| lvars(self@).contains(nm)
                    implies nv.to_set().contains(nm) by {
                    assert(name_set(vars@).contains(nm));
                    let w = choose|w: int| 0 <= w < vars@.len() && #[trigger] vars@[w]@ == nm;
                    assert(nv[w] == nm);
                }
            }
            assert(nv.no_duplicates()) by {
                assert forall|i: int, j: int| 0 <= i < j < nv.len()
                    implies nv[i] != nv[j] by {
                    assert(lex_lt(vars@[i]@, vars@[j]@));
                    crate::order::lemma_lex_trichotomy(vars@[i]@, vars@[j]@);
                }
            }
            nv.unique_seq_to_set();
            assert(vars@.len() < 32);
        }
        let len32: u32 = vars.len() as u32;
        proof {
            vstd::arithmetic::power2::lemma2_to64();
            vstd::arithmetic::power2::lemma_pow2_strictly_increases(vars@.len(), 32);
        }
        let total32: u32 = 1u32 << len32;
        proof {
            vstd::bits::lemma_u32_shl_is_mul(1u32, len32);
        }
        let total: usize = total32 as usize;
        let mut rows: Vec<Vec<bool>> = Vec::new();
        let mut n: usize = 0;
        while n < total
            invariant
                n <= total,
                total == vstd::arithmetic::power2::pow2(vars@.len()),
                vars@.len() < 32,
                strictly_sorted(vars@),
                name_set(vars@) == lvars(self@),
                rows@.len() == n,
                forall|k: int| 0 <= k < n ==> (#[trigger] rows@[k])@.len() == vars@.len() + 1,
                forall|k: int, i: int| 0 <= k < n && 0 <= i < vars@.len()
                    ==> (#[trigger] rows@[k]@[i]) == row_bit(k as usize, vars@.len(), i as nat),
                forall|k: int| 0 <= k < n
                    ==> (#[trigger] rows@[k])@.last() == lev(self@,
                        row_assign(names_of(vars@), k as usize)),
            decreases total - n,
        {
            let row = self.truth_table_row(&vars, n);
            rows.push(row);
            n = n + 1;
        }
        (vars, rows)
    }

    /// One truth-table row: the assignment's bits, then the formula's
    /// value under it.
    #[verifier::loop_isolation(false)]
    fn truth_table_row(&self, vars: &Vec<String>, n: usize) -> (row: Vec<bool>)
        requires
            vars@.len() < 32,
            strictly_sorted(vars@),
            name_set(vars@) == lvars(self@),
        ensures
            row@.len() == vars@.len() + 1,
            forall|i: int| 0 <= i < vars@.len()
                ==> #[trigger] row@[i] == row_bit(n, vars@.len(), i as nat),
            row@.last() == lev(self@, row_assign(names_of(vars@), n)),
    {
        let ghost nv = names_of(vars@);
        proof {
            lemma_names_of_index(vars@);
        }
        let mut row: Vec<bool> = Vec::new();
        let mut vals = VarMap::new();
        proof {
            assert(row_assign(nv.skip(nv.len() as int), n)
                =~= Map::<Seq<char>, bool>::empty());
        }
        let mut i: usize = vars.len();
        while i > 0
            invariant
                i <= vars.len(),
                vals@ == row_assign(nv.skip(i as int), n),
            decreases i,
        {
            i = i - 1;
            proof {
                assert(nv.skip(i as int).first() == nv[i as int]);
                assert(nv.skip(i as int).drop_first() =~= nv.skip(i + 1));
                assert(nv.skip(i as int).len() == vars@.len() - i);
            }
            let shift = vars.len() - 1 - i;
            let bit = (n >> shift) & 1 == 1;
            vals.insert(vars[i].as_str(), bit);
        }
        proof {
            assert(nv.skip(0) =~= nv);
            assert(vals@.dom() =~= nv.to_set()) by {
                lemma_row_assign_dom(nv, n);
            }
            assert(lvars(self@).subset_of(vals@.dom())) by {
                assert forall|nm: Seq<char>| lvars(self@).contains(nm)
                    implies vals@.dom().contains(nm) by {
                    assert(name_set(vars@).contains(nm));
                    let w = choose|w: int| 0 <= w < vars@.len() && #[trigger] vars@[w]@ == nm;
                    assert(nv[w] == nm);
                    assert(nv.to_set().contains(nm));
                }
            }
        }
        let mut j: usize = 0;
        while j < vars.len()
            invariant
                j <= vars.len(),
                row@.len() == j,
                forall|k: int| 0 <= k < j
                    ==> #[trigger] row@[k] == row_bit(n, vars@.len(), k as nat),
            decreases vars.len() - j,
        {
            let shift = vars.len() - 1 - j;
            let bit = (n >> shift) & 1 == 1;
            row.push(bit);
            j = j + 1;
        }
        let v = self.eval(&vals);
        row.push(v);
        row
    }
}

/// The domain of a truth-table row's assignment is its variable list.
proof fn lemma_row_assign_dom(vs: Seq<Seq<char>>, n: usize)
    ensures
        row_assign(vs, n).dom() =~= vs.to_set(),
    decreases vs.len(),
{
    if vs.len() > 0 {
        lemma_row_assign_dom(vs.drop_first(), n);
        assert forall|nm: Seq<char>| vs.to_set().contains(nm)
            implies row_assign(vs, n).dom().contains(nm) by {
            let w = choose|w: int| 0 <= w < vs.len() && vs[w] == nm;
            if w > 0 {
                assert(vs.drop_first()[w - 1] == nm);
                assert(vs.drop_first().to_set().contains(nm));
            }
        }
        assert forall|nm: Seq<char>| row_assign(vs, n).dom().contains(nm)
            implies vs.to_set().contains(nm) by {
            if nm != vs.first() {
                assert(vs.drop_first().to_set().contains(nm));
                let w = choose|w: int| 0 <= w < vs.drop_first().len()
                    && vs.drop_first()[w] == nm;
                assert(vs[w + 1] == nm);
            } else {
                assert(vs[0] == nm);
            }
        }
    }
}

} // verus!
