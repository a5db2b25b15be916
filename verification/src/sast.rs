//! Canonical n-ary expression trees: the flattened form that the rewrite
//! engine lowers binary trees into, with the canonical comparator, the
//! fixed-point simplifier, term ordering, and the variable collector.

use vstd::prelude::*;
use crate::ast;
use crate::order::{lex_lt, str_compare, Comparison, name_set, strictly_sorted, sorted_insert};
use crate::order::{lemma_lex_trichotomy, lemma_lex_transitive};

verus! {

/// A boolean formula whose conjunctions and disjunctions hold any number
/// of children.
#[derive(Debug, PartialEq, Eq)]
pub enum Expr {
    And(Vec<Expr>),
    Or(Vec<Expr>),
    Not(Box<Expr>),
    Var(String),
    True,
    False,
}

/// Mathematical model of an n-ary formula.
pub enum ExprV {
    And(Seq<ExprV>),
    Or(Seq<ExprV>),
    Not(Box<ExprV>),
    Var(Seq<char>),
    True,
    False,
}

/// The model of a concrete formula.
pub open spec fn model(e: Expr) -> ExprV
    decreases e,
{
    match e {
        Expr::And(v) => ExprV::And(models(v@)),
        Expr::Or(v) => ExprV::Or(models(v@)),
        Expr::Not(a) => ExprV::Not(Box::new(model(*a))),
        Expr::Var(n) => ExprV::Var(n@),
        Expr::True => ExprV::True,
        Expr::False => ExprV::False,
    }
}

/// The models of a sequence of concrete formulas.
pub open spec fn models(s: Seq<Expr>) -> Seq<ExprV>
    decreases s,
{
    if s.len() == 0 {
        Seq::empty()
    } else {
        models(s.drop_last()).push(model(s.last()))
    }
}

/// `models` maps the sequence elementwise.
pub proof fn lemma_models_index(s: Seq<Expr>)
    ensures
        models(s).len() == s.len(),
        forall|i: int| 0 <= i < s.len() ==> #[trigger] models(s)[i] == model(s[i]),
    decreases s.len(),
{
    if s.len() > 0 {
        lemma_models_index(s.drop_last());
        assert forall|i: int| 0 <= i < s.len() implies #[trigger] models(s)[i] == model(s[i]) by {
            if i < s.len() - 1 {
                assert(models(s)[i] == models(s.drop_last())[i]);
                assert(s.drop_last()[i] == s[i]);
            }
        }
    }
}

impl View for Expr {
    type V = ExprV;

    open spec fn view(&self) -> ExprV {
        model(*self)
    }
}

/// The truth value of a canonical formula under an assignment.  An empty
/// conjunction is true; an empty disjunction is false.
pub open spec fn seval(e: ExprV, m: Map<Seq<char>, bool>) -> bool
    decreases e,
{
    match e {
        ExprV::And(v) => seval_all(v, m),
        ExprV::Or(v) => seval_any(v, m),
        ExprV::Not(a) => !seval(*a, m),
        ExprV::Var(n) => m[n],
        ExprV::True => true,
        ExprV::False => false,
    }
}

/// All formulas of the sequence are true under the assignment.
pub open spec fn seval_all(s: Seq<ExprV>, m: Map<Seq<char>, bool>) -> bool
    decreases s,
{
    s.len() == 0 || (seval(s[0], m) && seval_all(s.drop_first(), m))
}

/// Some formula of the sequence is true under the assignment.
pub open spec fn seval_any(s: Seq<ExprV>, m: Map<Seq<char>, bool>) -> bool
    decreases s,
{
    s.len() > 0 && (seval(s[0], m) || seval_any(s.drop_first(), m))
}

/// A conjunction is true exactly when no child is false.
pub proof fn lemma_seval_all_index(s: Seq<ExprV>, m: Map<Seq<char>, bool>)
    ensures
        seval_all(s, m) <==> forall|i: int| 0 <= i < s.len() ==> seval(#[trigger] s[i], m),
    decreases s.len(),
{
    if s.len() > 0 {
        lemma_seval_all_index(s.drop_first(), m);
        assert forall|i: int| 1 <= i < s.len() implies s.drop_first()[i - 1] == s[i] by {}
        if seval(s[0], m) && seval_all(s.drop_first(), m) {
            assert forall|i: int| 0 <= i < s.len() implies seval(#[trigger] s[i], m) by {
                if i > 0 {
                    assert(seval(s.drop_first()[i - 1], m));
                }
            }
        }
        if forall|i: int| 0 <= i < s.len() ==> seval(#[trigger] s[i], m) {
            assert forall|i: int| 0 <= i < s.drop_first().len()
                implies seval(#[trigger] s.drop_first()[i], m) by {
                assert(s.drop_first()[i] == s[i + 1]);
            }
        }
    }
}

/// A disjunction is true exactly when some child is true.
pub proof fn lemma_seval_any_index(s: Seq<ExprV>, m: Map<Seq<char>, bool>)
    ensures
        seval_any(s, m) <==> exists|i: int| 0 <= i < s.len() && seval(#[trigger] s[i], m),
    decreases s.len(),
{
    if s.len() > 0 {
        lemma_seval_any_index(s.drop_first(), m);
        if seval_any(s, m) {
            if seval(s[0], m) {
                assert(seval(s[0], m) && 0 < s.len());
            } else {
                let i = choose|i: int| 0 <= i < s.drop_first().len()
                    && seval(#[trigger] s.drop_first()[i], m);
                assert(s.drop_first()[i] == s[i + 1]);
                assert(seval(s[i + 1], m));
            }
        }
        if exists|i: int| 0 <= i < s.len() && seval(#[trigger] s[i], m) {
            let i = choose|i: int| 0 <= i < s.len() && seval(#[trigger] s[i], m);
            if i > 0 {
                assert(s.drop_first()[i - 1] == s[i]);
                assert(seval(s.drop_first()[i - 1], m));
            }
        }
    }
}

/// The set of variable names a canonical formula mentions.
pub open spec fn vars_of(e: ExprV) -> Set<Seq<char>>
    decreases e,
{
    match e {
        ExprV::And(v) => vars_seq(v),
        ExprV::Or(v) => vars_seq(v),
        ExprV::Not(a) => vars_of(*a),
        ExprV::Var(n) => Set::empty().insert(n),
        ExprV::True => Set::empty(),
        ExprV::False => Set::empty(),
    }
}

/// The variable names mentioned anywhere in a sequence of formulas.
pub open spec fn vars_seq(s: Seq<ExprV>) -> Set<Seq<char>>
    decreases s,
{
    if s.len() == 0 {
        Set::empty()
    } else {
        vars_of(s[0]).union(vars_seq(s.drop_first()))
    }
}


/// A formula has no conjunction directly inside a conjunction and no
/// disjunction directly inside a disjunction: associative chains are flat.
pub open spec fn no_nested_same(e: ExprV) -> bool
    decreases e,
{
    match e {
        ExprV::And(v) => (forall|i: int| 0 <= i < v.len() ==> !(#[trigger] v[i] is And))
            && all_flat(v),
        ExprV::Or(v) => (forall|i: int| 0 <= i < v.len() ==> !(#[trigger] v[i] is Or))
            && all_flat(v),
        ExprV::Not(a) => no_nested_same(*a),
        ExprV::Var(_) => true,
        ExprV::True => true,
        ExprV::False => true,
    }
}

/// Every formula of the sequence has flat associative chains.
pub open spec fn all_flat(s: Seq<ExprV>) -> bool
    decreases s,
{
    s.len() == 0 || (no_nested_same(s[0]) && all_flat(s.drop_first()))
}

/// A sequence is flat exactly when each of its formulas is.
pub proof fn lemma_all_flat_index(s: Seq<ExprV>)
    ensures
        all_flat(s) <==> forall|i: int| 0 <= i < s.len() ==> no_nested_same(#[trigger] s[i]),
    decreases s.len(),
{
    if s.len() > 0 {
        lemma_all_flat_index(s.drop_first());
        if all_flat(s) {
            assert forall|i: int| 0 <= i < s.len() implies no_nested_same(#[trigger] s[i]) by {
                if i > 0 {
                    assert(no_nested_same(s.drop_first()[i - 1]));
                }
            }
        }
        if forall|i: int| 0 <= i < s.len() ==> no_nested_same(#[trigger] s[i]) {
            assert forall|i: int| 0 <= i < s.drop_first().len()
                implies no_nested_same(#[trigger] s.drop_first()[i]) by {
                assert(s.drop_first()[i] == s[i + 1]);
            }
        }
    }
}

/// The child list a formula contributes to an enclosing conjunction: its
/// own children if it is a conjunction, else the formula alone.
pub open spec fn and_children(e: ExprV) -> Seq<ExprV> {
    match e {
        ExprV::And(v) => v,
        _ => seq![e],
    }
}

/// The child list a formula contributes to an enclosing disjunction.
pub open spec fn or_children(e: ExprV) -> Seq<ExprV> {
    match e {
        ExprV::Or(v) => v,
        _ => seq![e],
    }
}

/// What lowering a binary formula yields: the same formula with binary
/// conjunction and disjunction chains flattened into n-ary children,
/// bottom up.
pub open spec fn lower_spec(e: ast::ExprV) -> ExprV
    decreases e,
{
    match e {
        ast::ExprV::And(a, b) => ExprV::And(
            and_children(lower_spec(*a)) + and_children(lower_spec(*b))),
        ast::ExprV::Or(a, b) => ExprV::Or(
            or_children(lower_spec(*a)) + or_children(lower_spec(*b))),
        ast::ExprV::Not(a) => ExprV::Not(Box::new(lower_spec(*a))),
        ast::ExprV::Var(n) => ExprV::Var(n),
        ast::ExprV::True => ExprV::True,
        ast::ExprV::False => ExprV::False,
    }
}

/// A conjunction over a concatenation is the conjunction of the parts.
pub proof fn lemma_seval_all_concat(x: Seq<ExprV>, y: Seq<ExprV>, m: Map<Seq<char>, bool>)
    ensures
        seval_all(x + y, m) == (seval_all(x, m) && seval_all(y, m)),
    decreases x.len(),
{
    if x.len() == 0 {
        assert(x + y =~= y);
    } else {
        assert((x + y).drop_first() =~= x.drop_first() + y);
        assert((x + y)[0] == x[0]);
        lemma_seval_all_concat(x.drop_first(), y, m);
    }
}

/// A disjunction over a concatenation is the disjunction of the parts.
pub proof fn lemma_seval_any_concat(x: Seq<ExprV>, y: Seq<ExprV>, m: Map<Seq<char>, bool>)
    ensures
        seval_any(x + y, m) == (seval_any(x, m) || seval_any(y, m)),
    decreases x.len(),
{
    if x.len() == 0 {
        assert(x + y =~= y);
    } else {
        assert((x + y).drop_first() =~= x.drop_first() + y);
        assert((x + y)[0] == x[0]);
        lemma_seval_any_concat(x.drop_first(), y, m);
    }
}

/// The list a formula contributes to a conjunction carries its truth value.
proof fn lemma_and_children_eval(e: ExprV, m: Map<Seq<char>, bool>)
    ensures
        seval_all(and_children(e), m) == seval(e, m),
{
    reveal_with_fuel(seval_all, 3);
    if !(e is And) {
        assert(and_children(e) == seq![e]);
        assert(seq![e].drop_first() =~= Seq::<ExprV>::empty());
        assert(seval_all(seq![e], m) == seval(e, m));
    }
}

/// The list a formula contributes to a disjunction carries its truth value.
proof fn lemma_or_children_eval(e: ExprV, m: Map<Seq<char>, bool>)
    ensures
        seval_any(or_children(e), m) == seval(e, m),
{
    reveal_with_fuel(seval_any, 3);
    if !(e is Or) {
        assert(or_children(e) == seq![e]);
        assert(seq![e].drop_first() =~= Seq::<ExprV>::empty());
        assert(seval_any(seq![e], m) == seval(e, m));
    }
}

/// Lowering preserves the truth value under every assignment.
pub proof fn lemma_lower_eval(e: ast::ExprV, m: Map<Seq<char>, bool>)
    ensures
        seval(lower_spec(e), m) == ast::beval(e, m),
    decreases e,
{
    match e {
        ast::ExprV::And(a, b) => {
            lemma_lower_eval(*a, m);
            lemma_lower_eval(*b, m);
            lemma_seval_all_concat(
                and_children(lower_spec(*a)), and_children(lower_spec(*b)), m);
            lemma_and_children_eval(lower_spec(*a), m);
            lemma_and_children_eval(lower_spec(*b), m);
        },
        ast::ExprV::Or(a, b) => {
            lemma_lower_eval(*a, m);
            lemma_lower_eval(*b, m);
            lemma_seval_any_concat(
                or_children(lower_spec(*a)), or_children(lower_spec(*b)), m);
            lemma_or_children_eval(lower_spec(*a), m);
            lemma_or_children_eval(lower_spec(*b), m);
        },
        ast::ExprV::Not(a) => {
            lemma_lower_eval(*a, m);
        },
        _ => {},
    }
}

/// Lowering flattens every associative chain completely.
pub proof fn lemma_lower_flat(e: ast::ExprV)
    ensures
        no_nested_same(lower_spec(e)),
    decreases e,
{
    match e {
        ast::ExprV::And(a, b) => {
            lemma_lower_flat(*a);
            lemma_lower_flat(*b);
            let la = lower_spec(*a);
            let lb = lower_spec(*b);
            let u = and_children(la);
            let w = and_children(lb);
            lemma_all_flat_index(u);
            lemma_all_flat_index(w);
            lemma_all_flat_index(u + w);
            if la is And {
                lemma_all_flat_index(la->And_0);
            }
            if lb is And {
                lemma_all_flat_index(lb->And_0);
            }
            assert forall|i: int| 0 <= i < (u + w).len()
                implies !(#[trigger] (u + w)[i] is And) && no_nested_same((u + w)[i]) by {
                if i < u.len() {
                    assert((u + w)[i] == u[i]);
                } else {
                    assert((u + w)[i] == w[i - u.len()]);
                }
            }
        },
        ast::ExprV::Or(a, b) => {
            lemma_lower_flat(*a);
            lemma_lower_flat(*b);
            let la = lower_spec(*a);
            let lb = lower_spec(*b);
            let u = or_children(la);
            let w = or_children(lb);
            lemma_all_flat_index(u);
            lemma_all_flat_index(w);
            lemma_all_flat_index(u + w);
            if la is Or {
                lemma_all_flat_index(la->Or_0);
            }
            if lb is Or {
                lemma_all_flat_index(lb->Or_0);
            }
            assert forall|i: int| 0 <= i < (u + w).len()
                implies !(#[trigger] (u + w)[i] is Or) && no_nested_same((u + w)[i]) by {
                if i < u.len() {
                    assert((u + w)[i] == u[i]);
                } else {
                    assert((u + w)[i] == w[i - u.len()]);
                }
            }
        },
        ast::ExprV::Not(a) => {
            lemma_lower_flat(*a);
        },
        _ => {},
    }
}

/// A formula and its model are the same connective.
pub proof fn lemma_model_variant(e: Expr)
    ensures
        (model(e) is And <==> e is And) && (model(e) is Or <==> e is Or),
{
    match e {
        Expr::And(v) => {},
        Expr::Or(v) => {},
        Expr::Not(a) => {},
        Expr::Var(n) => {},
        Expr::True => {},
        Expr::False => {},
    }
}

/// Models distribute over concatenation.
pub proof fn lemma_models_concat(x: Seq<Expr>, y: Seq<Expr>)
    ensures
        models(x + y) == models(x) + models(y),
    decreases y.len(),
{
    if y.len() == 0 {
        assert(x + y =~= x);
        assert(models(x) + models(y) =~= models(x));
    } else {
        assert((x + y).drop_last() =~= x + y.drop_last());
        assert((x + y).last() == y.last());
        lemma_models_concat(x, y.drop_last());
        assert(models(x + y) =~= models(x) + models(y)) by {
            lemma_models_index(x);
            lemma_models_index(y);
            lemma_models_index(x + y);
            lemma_models_index(y.drop_last());
        }
    }
}

/// Lowers a binary formula into the flattened n-ary form: a conjunction
/// or disjunction child that is itself the same connective is merged into
/// one flat child list, recursively bottom up.
pub fn from_ast(e: Box<ast::Expr>) -> (r: Result<Box<Expr>, String>)
    ensures
        r matches Ok(x) && x@ == lower_spec(e@),
    decreases ast::esize(e@),
{
    proof {
        reveal_with_fuel(ast::esize, 3);
        reveal_with_fuel(ast::model, 3);
        reveal_with_fuel(models, 3);
    }
    match *e {
        ast::Expr::True => Ok(Box::new(Expr::True)),
        ast::Expr::False => Ok(Box::new(Expr::False)),
        ast::Expr::Var(n) => Ok(Box::new(Expr::Var(n))),
        ast::Expr::Not(a) => {
            let ia = from_ast(a)?;
            Ok(Box::new(Expr::Not(ia)))
        },
        ast::Expr::And(a, b) => {
            let ghost av = a@;
            let ghost bv = b@;
            let ia = from_ast(a)?;
            let ib = from_ast(b)?;
            let ghost iav = ia@;
            let ghost ibv = ib@;
            let mut r: Vec<Expr> = Vec::new();
            match *ia {
                Expr::And(mut a2) => {
                    let ghost a2v = a2@;
                    r.append(&mut a2);
                    proof {
                        assert(r@ =~= a2v);
                        assert(iav == ExprV::And(models(a2v)));
                    }
                },
                other => {
                    proof {
                        lemma_model_variant(other);
                    }
                    r.push(other);
                    proof {
                        assert(r@.drop_last() =~= Seq::<Expr>::empty());
                        assert(models(r@) =~= seq![iav]);
                    }
                },
            }
            let ghost first = r@;
            proof {
                assert(models(first) == and_children(lower_spec(av)));
            }
            match *ib {
                Expr::And(mut b2) => {
                    let ghost b2v = b2@;
                    r.append(&mut b2);
                    proof {
                        assert(r@ =~= first + b2v);
                        assert(ibv == ExprV::And(models(b2v)));
                        lemma_models_concat(first, b2v);
                    }
                },
                other => {
                    proof {
                        lemma_model_variant(other);
                    }
                    r.push(other);
                    proof {
                        assert(r@ =~= first + seq![r@.last()]);
                        lemma_models_concat(first, seq![r@.last()]);
                        assert(seq![r@.last()].drop_last() =~= Seq::<Expr>::empty());
                        assert(models(seq![r@.last()]) =~= seq![ibv]);
                    }
                },
            }
            proof {
                assert(models(r@) == and_children(lower_spec(av)) + and_children(lower_spec(bv)));
            }
            Ok(Box::new(Expr::And(r)))
        },
        ast::Expr::Or(a, b) => {
            let ghost av = a@;
            let ghost bv = b@;
            let ia = from_ast(a)?;
            let ib = from_ast(b)?;
            let ghost iav = ia@;
            let ghost ibv = ib@;
            let mut r: Vec<Expr> = Vec::new();
            match *ia {
                Expr::Or(mut a2) => {
                    let ghost a2v = a2@;
                    r.append(&mut a2);
                    proof {
                        assert(r@ =~= a2v);
                        assert(iav == ExprV::Or(models(a2v)));
                    }
                },
                other => {
                    proof {
                        lemma_model_variant(other);
                    }
                    r.push(other);
                    proof {
                        assert(r@.drop_last() =~= Seq::<Expr>::empty());
                        assert(models(r@) =~= seq![iav]);
                    }
                },
            }
            let ghost first = r@;
            proof {
                assert(models(first) == or_children(lower_spec(av)));
            }
            match *ib {
                Expr::Or(mut b2) => {
                    let ghost b2v = b2@;
                    r.append(&mut b2);
                    proof {
                        assert(r@ =~= first + b2v);
                        assert(ibv == ExprV::Or(models(b2v)));
                        lemma_models_concat(first, b2v);
                    }
                },
                other => {
                    proof {
                        lemma_model_variant(other);
                    }
                    r.push(other);
                    proof {
                        assert(r@ =~= first + seq![r@.last()]);
                        lemma_models_concat(first, seq![r@.last()]);
                        assert(seq![r@.last()].drop_last() =~= Seq::<Expr>::empty());
                        assert(models(seq![r@.last()]) =~= seq![ibv]);
                    }
                },
            }
            proof {
                assert(models(r@) == or_children(lower_spec(av)) + or_children(lower_spec(bv)));
            }
            Ok(Box::new(Expr::Or(r)))
        },
    }
}


/// A variable of a sequence member is a variable of the sequence.
pub proof fn lemma_vars_seq_member(s: Seq<ExprV>, i: int)
    requires
        0 <= i < s.len(),
    ensures
        vars_of(s[i]).subset_of(vars_seq(s)),
    decreases s.len(),
{
    if i > 0 {
        lemma_vars_seq_member(s.drop_first(), i - 1);
        assert(s.drop_first()[i - 1] == s[i]);
    }
}

/// Appending a formula to a sequence adds exactly its variables.
pub proof fn lemma_vars_seq_push(s: Seq<ExprV>, x: ExprV)
    ensures
        vars_seq(s.push(x)) == vars_seq(s).union(vars_of(x)),
    decreases s.len(),
{
    reveal_with_fuel(vars_seq, 3);
    if s.len() == 0 {
        assert(s.push(x)[0] == x);
        assert(s.push(x).drop_first() =~= Seq::<ExprV>::empty());
        assert(vars_seq(s.push(x)) =~= vars_seq(s).union(vars_of(x)));
    } else {
        assert(s.push(x).drop_first() =~= s.drop_first().push(x));
        assert(s.push(x)[0] == s[0]);
        lemma_vars_seq_push(s.drop_first(), x);
        assert(vars_seq(s.push(x)) =~= vars_seq(s).union(vars_of(x)));
    }
}

impl Expr {
    /// A structurally equal copy of the formula.
    pub fn dup(&self) -> (r: Expr)
        ensures
            r@ == self@,
        decreases self,
    {
        match self {
            Expr::And(v) => Expr::And(dup_vec(v)),
            Expr::Or(v) => Expr::Or(dup_vec(v)),
            Expr::Not(a) => Expr::Not(Box::new(a.dup())),
            Expr::Var(n) => Expr::Var(n.clone()),
            Expr::True => Expr::True,
            Expr::False => Expr::False,
        }
    }

    /// The truth value of the formula under a total assignment of its
    /// variables.
    #[verifier::loop_isolation(false)]
    pub fn eval(&self, m: &crate::nodes::VarMap) -> (r: bool)
        requires
            vars_of(self@).subset_of(m@.dom()),
        ensures
            r == seval(self@, m@),
        decreases self,
    {
        match self {
            Expr::Var(n) => {
                proof {
                    assert(vars_of(self@).contains(n@));
                }
                match m.get(n.as_str()) {
                    Some(v) => v,
                    None => {
                        proof {
                            assert(false);
                        }
                        false
                    },
                }
            },
            Expr::Not(a) => !a.eval(m),
            Expr::True => true,
            Expr::False => false,
            Expr::And(v) => {
                let ghost vs = models(v@);
                proof {
                    lemma_models_index(v@);
                    lemma_seval_all_index(vs, m@);
                }
                let mut i: usize = 0;
                let mut r = true;
                while i < v.len()
                    invariant
                        i <= v.len(),
                        vs == models(v@),
                        vs.len() == v@.len(),
                        forall|j: int| 0 <= j < v@.len() ==> #[trigger] vs[j] == v@[j]@,
                        vars_of(self@).subset_of(m@.dom()),
                        self@ == ExprV::And(vs),
                        r == (forall|j: int| 0 <= j < i ==> seval(#[trigger] vs[j], m@)),
                        seval(self@, m@) == (forall|j: int|
                            0 <= j < vs.len() ==> seval(#[trigger] vs[j], m@)),
                    decreases v.len() - i,
                {
                    proof {
                        lemma_vars_seq_member(vs, i as int);
                        assert(decreases_to!(self => v@[i as int]));
                    }
                    let c = v[i].eval(m);
                    r = r && c;
                    i = i + 1;
                }
                r
            },
            Expr::Or(v) => {
                let ghost vs = models(v@);
                proof {
                    lemma_models_index(v@);
                    lemma_seval_any_index(vs, m@);
                }
                let mut i: usize = 0;
                let mut r = false;
                while i < v.len()
                    invariant
                        i <= v.len(),
                        vs == models(v@),
                        vs.len() == v@.len(),
                        forall|j: int| 0 <= j < v@.len() ==> #[trigger] vs[j] == v@[j]@,
                        vars_of(self@).subset_of(m@.dom()),
                        self@ == ExprV::Or(vs),
                        r == (exists|j: int| 0 <= j < i && seval(#[trigger] vs[j], m@)),
                        seval(self@, m@) == (exists|j: int|
                            0 <= j < vs.len() && seval(#[trigger] vs[j], m@)),
                    decreases v.len() - i,
                {
                    proof {
                        lemma_vars_seq_member(vs, i as int);
                        assert(decreases_to!(self => v@[i as int]));
                    }
                    let c = v[i].eval(m);
                    r = r || c;
                    i = i + 1;
                }
                r
            },
        }
    }

    /// The sorted, deduplicated list of variable names the formula
    /// mentions; the position of a name in this list is its bit position
    /// in every ternary vector built from the formula.
    pub fn terms(&self) -> (r: Vec<String>)
        ensures
            strictly_sorted(r@),
            name_set(r@) == vars_of(self@),
    {
        let mut out: Vec<String> = Vec::new();
        proof {
            assert(name_set(out@) =~= Set::<Seq<char>>::empty());
        }
        self.collect_terms(&mut out);
        proof {
            assert(name_set(out@) =~= vars_of(self@));
        }
        out
    }

    /// Adds the formula's variable names to a sorted name list.
    fn collect_terms(&self, out: &mut Vec<String>)
        requires
            strictly_sorted(old(out)@),
        ensures
            strictly_sorted(final(out)@),
            name_set(final(out)@) == name_set(old(out)@).union(vars_of(self@)),
        decreases self,
    {
        match self {
            Expr::Var(n) => {
                sorted_insert(out, n.clone());
                proof {
                    assert(name_set(out@) =~= name_set(old(out)@).union(vars_of(self@)));
                }
            },
            Expr::Not(a) => {
                a.collect_terms(out);
            },
            Expr::True => {
                proof {
                    assert(name_set(out@) =~= name_set(old(out)@).union(vars_of(self@)));
                }
            },
            Expr::False => {
                proof {
                    assert(name_set(out@) =~= name_set(old(out)@).union(vars_of(self@)));
                }
            },
            Expr::And(v) => {
                collect_terms_vec(v, out);
            },
            Expr::Or(v) => {
                collect_terms_vec(v, out);
            },
        }
    }
}

/// Duplicates of members of a list of formulas.
#[verifier::loop_isolation(false)]
fn dup_vec(v: &Vec<Expr>) -> (r: Vec<Expr>)
    ensures
        models(r@) == models(v@),
    decreases v,
{
    let mut r: Vec<Expr> = Vec::new();
    let mut i: usize = 0;
    while i < v.len()
        invariant
            i <= v.len(),
            r@.len() == i,
            forall|j: int| 0 <= j < i ==> #[trigger] r@[j]@ == v@[j]@,
        decreases v.len() - i,
    {
        proof {
            assert(decreases_to!(v => v@[i as int]));
        }
        let d = v[i].dup();
        r.push(d);
        i = i + 1;
    }
    proof {
        lemma_models_index(r@);
        lemma_models_index(v@);
        assert forall|j: int| 0 <= j < v@.len()
            implies models(r@)[j] == models(v@)[j] by {
            assert(r@[j]@ == v@[j]@);
        }
        assert(models(r@) =~= models(v@));
    }
    r
}

/// Adds the variable names of every formula in the list to a sorted name
/// list.
#[verifier::loop_isolation(false)]
fn collect_terms_vec(v: &Vec<Expr>, out: &mut Vec<String>)
    requires
        strictly_sorted(old(out)@),
    ensures
        strictly_sorted(final(out)@),
        name_set(final(out)@) == name_set(old(out)@).union(vars_seq(models(v@))),
    decreases v,
{
    let ghost vs = models(v@);
    proof {
        lemma_models_index(v@);
    }
    let mut i: usize = 0;
    while i < v.len()
        invariant
            i <= v.len(),
            vs == models(v@),
            vs.len() == v@.len(),
            forall|j: int| 0 <= j < v@.len() ==> #[trigger] vs[j] == v@[j]@,
            strictly_sorted(out@),
            name_set(out@) == name_set(old(out)@).union(vars_seq(vs.take(i as int))),
        decreases v.len() - i,
    {
        proof {
            assert(vs.take(i + 1) =~= vs.take(i as int).push(vs[i as int]));
            lemma_vars_seq_push(vs.take(i as int), vs[i as int]);
            assert(decreases_to!(v => v@[i as int]));
        }
        v[i].collect_terms(out);
        proof {
            assert(name_set(out@) =~= name_set(old(out)@).union(vars_seq(vs.take(i + 1))));
        }
        i = i + 1;
    }
    proof {
        assert(vs.take(v@.len() as int) =~= vs);
    }
}


/// The formula with every negation erased: the canonical order treats a
/// negated formula exactly as the formula itself.
pub open spec fn erase(e: ExprV) -> ExprV
    decreases e,
{
    match e {
        ExprV::And(v) => ExprV::And(erase_seq(v)),
        ExprV::Or(v) => ExprV::Or(erase_seq(v)),
        ExprV::Not(a) => erase(*a),
        ExprV::Var(n) => ExprV::Var(n),
        ExprV::True => ExprV::True,
        ExprV::False => ExprV::False,
    }
}

/// Negations erased in every formula of the sequence.
pub open spec fn erase_seq(s: Seq<ExprV>) -> Seq<ExprV>
    decreases s,
{
    if s.len() == 0 {
        Seq::empty()
    } else {
        erase_seq(s.drop_last()).push(erase(s.last()))
    }
}

/// `erase_seq` maps the sequence elementwise.
pub proof fn lemma_erase_seq_index(s: Seq<ExprV>)
    ensures
        erase_seq(s).len() == s.len(),
        forall|i: int| 0 <= i < s.len() ==> #[trigger] erase_seq(s)[i] == erase(s[i]),
    decreases s.len(),
{
    if s.len() > 0 {
        lemma_erase_seq_index(s.drop_last());
        assert forall|i: int| 0 <= i < s.len()
            implies #[trigger] erase_seq(s)[i] == erase(s[i]) by {
            if i < s.len() - 1 {
                assert(erase_seq(s)[i] == erase_seq(s.drop_last())[i]);
                assert(s.drop_last()[i] == s[i]);
            }
        }
    }
}

/// The fixed precedence of the connectives in the canonical order.
pub open spec fn rank(e: ExprV) -> int {
    match e {
        ExprV::True => 0,
        ExprV::False => 1,
        ExprV::Var(_) => 2,
        ExprV::And(_) => 3,
        ExprV::Or(_) => 4,
        ExprV::Not(_) => 5,
    }
}

/// Three-way lexicographic order on names.
pub open spec fn lex3(a: Seq<char>, b: Seq<char>) -> Comparison {
    if lex_lt(a, b) {
        Comparison::Less
    } else if lex_lt(b, a) {
        Comparison::Greater
    } else {
        Comparison::Equal
    }
}

/// The canonical order on negation-free formulas: by connective rank
/// first; variables lexicographically by name; conjunctions and
/// disjunctions by their children, first difference deciding and a proper
/// prefix ordering first.
pub open spec fn cmp_erased(a: ExprV, b: ExprV) -> Comparison
    decreases a, b,
{
    if rank(a) < rank(b) {
        Comparison::Less
    } else if rank(a) > rank(b) {
        Comparison::Greater
    } else {
        match (a, b) {
            (ExprV::Var(m), ExprV::Var(n)) => lex3(m, n),
            (ExprV::And(u), ExprV::And(v)) => cmp_seq(u, v),
            (ExprV::Or(u), ExprV::Or(v)) => cmp_seq(u, v),
            (ExprV::Not(x), ExprV::Not(y)) => cmp_erased(*x, *y),
            _ => Comparison::Equal,
        }
    }
}

/// Lexicographic comparison of child lists.
pub open spec fn cmp_seq(u: Seq<ExprV>, v: Seq<ExprV>) -> Comparison
    decreases u, v,
{
    if u.len() == 0 && v.len() == 0 {
        Comparison::Equal
    } else if u.len() == 0 {
        Comparison::Less
    } else if v.len() == 0 {
        Comparison::Greater
    } else {
        let c = cmp_erased(u[0], v[0]);
        if c == Comparison::Equal {
            cmp_seq(u.drop_first(), v.drop_first())
        } else {
            c
        }
    }
}

/// The canonical total order on formulas: negations are erased, then
/// formulas compare by rank, name, and children.
pub open spec fn cmp_spec(a: ExprV, b: ExprV) -> Comparison {
    cmp_erased(erase(a), erase(b))
}

/// Negation-free formulas compare equal exactly when they are equal.
pub proof fn lemma_cmp_erased_eq(a: ExprV, b: ExprV)
    ensures
        cmp_erased(a, b) == Comparison::Equal <==> a == b,
    decreases a, b,
{
    if rank(a) == rank(b) {
        match (a, b) {
            (ExprV::Var(m), ExprV::Var(n)) => {
                lemma_lex_trichotomy(m, n);
            },
            (ExprV::And(u), ExprV::And(v)) => {
                lemma_cmp_seq_eq(u, v);
            },
            (ExprV::Or(u), ExprV::Or(v)) => {
                lemma_cmp_seq_eq(u, v);
            },
            (ExprV::Not(x), ExprV::Not(y)) => {
                lemma_cmp_erased_eq(*x, *y);
            },
            _ => {},
        }
    }
}

/// Child lists compare equal exactly when they are equal.
pub proof fn lemma_cmp_seq_eq(u: Seq<ExprV>, v: Seq<ExprV>)
    ensures
        cmp_seq(u, v) == Comparison::Equal <==> u == v,
    decreases u, v,
{
    if u.len() == 0 && v.len() == 0 {
        assert(u =~= v);
    } else if u.len() != 0 && v.len() != 0 {
        lemma_cmp_erased_eq(u[0], v[0]);
        lemma_cmp_seq_eq(u.drop_first(), v.drop_first());
        if cmp_seq(u, v) == Comparison::Equal {
            assert(u[0] == v[0] && u.drop_first() == v.drop_first());
            assert(u =~= v) by {
                assert forall|i: int| 0 <= i < u.len() implies u[i] == v[i] by {
                    if i > 0 {
                        assert(u.drop_first()[i - 1] == v.drop_first()[i - 1]);
                    }
                }
            }
        }
        if u == v {
            assert(u[0] == v[0]);
            assert(u.drop_first() == v.drop_first());
        }
    }
}

/// Swapping the operands of a comparison swaps the verdict.
pub proof fn lemma_cmp_erased_antisym(a: ExprV, b: ExprV)
    ensures
        cmp_erased(a, b) == Comparison::Less <==> cmp_erased(b, a) == Comparison::Greater,
        cmp_erased(a, b) == Comparison::Equal <==> cmp_erased(b, a) == Comparison::Equal,
    decreases a, b,
{
    lemma_cmp_erased_eq(a, b);
    lemma_cmp_erased_eq(b, a);
    if rank(a) == rank(b) {
        match (a, b) {
            (ExprV::Var(m), ExprV::Var(n)) => {
                lemma_lex_trichotomy(m, n);
            },
            (ExprV::And(u), ExprV::And(v)) => {
                lemma_cmp_seq_antisym(u, v);
            },
            (ExprV::Or(u), ExprV::Or(v)) => {
                lemma_cmp_seq_antisym(u, v);
            },
            (ExprV::Not(x), ExprV::Not(y)) => {
                lemma_cmp_erased_antisym(*x, *y);
            },
            _ => {},
        }
    }
}

/// Swapping the operands of a child-list comparison swaps the verdict.
pub proof fn lemma_cmp_seq_antisym(u: Seq<ExprV>, v: Seq<ExprV>)
    ensures
        cmp_seq(u, v) == Comparison::Less <==> cmp_seq(v, u) == Comparison::Greater,
        cmp_seq(u, v) == Comparison::Equal <==> cmp_seq(v, u) == Comparison::Equal,
    decreases u, v,
{
    if u.len() != 0 && v.len() != 0 {
        lemma_cmp_erased_antisym(u[0], v[0]);
        lemma_cmp_seq_antisym(u.drop_first(), v.drop_first());
    }
}

/// The canonical order is transitive.
pub proof fn lemma_cmp_erased_trans(a: ExprV, b: ExprV, c: ExprV)
    requires
        cmp_erased(a, b) == Comparison::Less,
        cmp_erased(b, c) == Comparison::Less,
    ensures
        cmp_erased(a, c) == Comparison::Less,
    decreases a, b, c,
{
    if rank(a) == rank(b) && rank(b) == rank(c) {
        match (a, b) {
            (ExprV::Var(m), ExprV::Var(n)) => {
                if c is Var {
                    lemma_lex_transitive(m, n, c->Var_0);
                }
            },
            (ExprV::And(u), ExprV::And(v)) => {
                if c is And {
                    lemma_cmp_seq_trans(u, v, c->And_0);
                }
            },
            (ExprV::Or(u), ExprV::Or(v)) => {
                if c is Or {
                    lemma_cmp_seq_trans(u, v, c->Or_0);
                }
            },
            (ExprV::Not(x), ExprV::Not(y)) => {
                if c is Not {
                    lemma_cmp_erased_trans(*x, *y, *c->Not_0);
                }
            },
            _ => {},
        }
    }
}

/// Child-list comparison is transitive.
pub proof fn lemma_cmp_seq_trans(u: Seq<ExprV>, v: Seq<ExprV>, w: Seq<ExprV>)
    requires
        cmp_seq(u, v) == Comparison::Less,
        cmp_seq(v, w) == Comparison::Less,
    ensures
        cmp_seq(u, w) == Comparison::Less,
    decreases u, v, w,
{
    if u.len() != 0 && v.len() != 0 && w.len() != 0 {
        let c1 = cmp_erased(u[0], v[0]);
        let c2 = cmp_erased(v[0], w[0]);
        lemma_cmp_erased_eq(u[0], v[0]);
        lemma_cmp_erased_eq(v[0], w[0]);
        lemma_cmp_erased_eq(u[0], w[0]);
        if c1 == Comparison::Equal && c2 == Comparison::Equal {
            lemma_cmp_seq_trans(u.drop_first(), v.drop_first(), w.drop_first());
        } else if c1 == Comparison::Less && c2 == Comparison::Less {
            lemma_cmp_erased_trans(u[0], v[0], w[0]);
        }
    }
}

/// The canonical comparator never orders a formula before itself.
pub proof fn lemma_compare_reflexive(a: ExprV)
    ensures
        cmp_spec(a, a) == Comparison::Equal,
{
    lemma_cmp_erased_eq(erase(a), erase(a));
}

/// The canonical comparator is antisymmetric and total: of two formulas,
/// one verdict of the three holds, swapping the operands swaps it, and
/// two formulas compare equal exactly when erasing negations makes them
/// equal.
pub proof fn lemma_compare_antisymmetric(a: ExprV, b: ExprV)
    ensures
        cmp_spec(a, b) == Comparison::Less <==> cmp_spec(b, a) == Comparison::Greater,
        cmp_spec(a, b) == Comparison::Equal <==> cmp_spec(b, a) == Comparison::Equal,
        cmp_spec(a, b) == Comparison::Equal <==> erase(a) == erase(b),
{
    lemma_cmp_erased_antisym(erase(a), erase(b));
    lemma_cmp_erased_eq(erase(a), erase(b));
}

/// The canonical comparator is transitive.
pub proof fn lemma_compare_transitive(a: ExprV, b: ExprV, c: ExprV)
    requires
        cmp_spec(a, b) == Comparison::Less,
        cmp_spec(b, c) == Comparison::Less,
    ensures
        cmp_spec(a, c) == Comparison::Less,
{
    lemma_cmp_erased_trans(erase(a), erase(b), erase(c));
}

/// Formulas that compare equal order the same way against every third
/// formula.
pub proof fn lemma_compare_equal_congruent(a: ExprV, b: ExprV, c: ExprV)
    requires
        cmp_spec(a, b) == Comparison::Equal,
    ensures
        cmp_spec(a, c) == cmp_spec(b, c),
        cmp_spec(c, a) == cmp_spec(c, b),
{
    lemma_cmp_erased_eq(erase(a), erase(b));
}

impl Expr {
    /// The rank of the formula's connective in the fixed precedence.
    fn rank_of(&self) -> (r: u8)
        ensures
            r as int == rank(self@),
    {
        match self {
            Expr::True => 0,
            Expr::False => 1,
            Expr::Var(_) => 2,
            Expr::And(_) => 3,
            Expr::Or(_) => 4,
            Expr::Not(_) => 5,
        }
    }

    /// Compares two formulas in the canonical order: a negation orders as
    /// the formula it negates; constants order before variables, which
    /// order before conjunctions, which order before disjunctions;
    /// variables order by name and child lists order lexicographically.
    pub fn compare(&self, other: &Expr) -> (r: Comparison)
        ensures
            r == cmp_spec(self@, other@),
        decreases self, other,
    {
        match self {
            Expr::Not(a) => a.compare(other),
            _ => {
                match other {
                    Expr::Not(b) => self.compare(b),
                    _ => {
                        proof {
                            lemma_erase_keeps_rank(self@);
                            lemma_erase_keeps_rank(other@);
                        }
                        let ra = self.rank_of();
                        let rb = other.rank_of();
                        if ra < rb {
                            Comparison::Less
                        } else if ra > rb {
                            Comparison::Greater
                        } else {
                            match (self, other) {
                                (Expr::Var(m), Expr::Var(n)) => {
                                    proof {
                                        lemma_lex_trichotomy(m@, n@);
                                    }
                                    str_compare(m.as_str(), n.as_str())
                                },
                                (Expr::And(u), Expr::And(v)) => compare_vecs(u, v),
                                (Expr::Or(u), Expr::Or(v)) => compare_vecs(u, v),
                                _ => Comparison::Equal,
                            }
                        }
                    },
                }
            },
        }
    }
}

/// Erasing negations does not change the connective of a formula that is
/// not itself a negation.
proof fn lemma_erase_keeps_rank(e: ExprV)
    ensures
        !(e is Not) ==> rank(erase(e)) == rank(e),
        e is Var ==> erase(e) == e,
{
    match e {
        ExprV::And(v) => {},
        ExprV::Or(v) => {},
        ExprV::Not(a) => {},
        ExprV::Var(n) => {},
        ExprV::True => {},
        ExprV::False => {},
    }
}

/// Compares two child lists lexicographically in the canonical order.
#[verifier::loop_isolation(false)]
fn compare_vecs(u: &Vec<Expr>, v: &Vec<Expr>) -> (r: Comparison)
    ensures
        r == cmp_seq(erase_seq(models(u@)), erase_seq(models(v@))),
    decreases u, v,
{
    let ghost eu = erase_seq(models(u@));
    let ghost ev = erase_seq(models(v@));
    proof {
        lemma_models_index(u@);
        lemma_models_index(v@);
        lemma_erase_seq_index(models(u@));
        lemma_erase_seq_index(models(v@));
        assert(eu.skip(0) =~= eu);
        assert(ev.skip(0) =~= ev);
    }
    let mut i: usize = 0;
    loop
        invariant
            i <= u.len(),
            i <= v.len(),
            cmp_seq(eu.skip(i as int), ev.skip(i as int)) == cmp_seq(eu, ev),
        decreases u.len() - i,
    {
        proof {
            assert(eu.skip(i as int).len() == u.len() - i);
            assert(ev.skip(i as int).len() == v.len() - i);
        }
        if i == u.len() && i == v.len() {
            return Comparison::Equal;
        } else if i == u.len() {
            return Comparison::Less;
        } else if i == v.len() {
            return Comparison::Greater;
        }
        proof {
            assert(eu.skip(i as int)[0] == eu[i as int]);
            assert(ev.skip(i as int)[0] == ev[i as int]);
            assert(eu[i as int] == erase(u@[i as int]@));
            assert(ev[i as int] == erase(v@[i as int]@));
        }
        let c = u[i].compare(&v[i]);
        match c {
            Comparison::Equal => {
                proof {
                    assert(eu.skip(i as int).drop_first() =~= eu.skip(i + 1));
                    assert(ev.skip(i as int).drop_first() =~= ev.skip(i + 1));
                }
                i = i + 1;
            },
            other_c => {
                return other_c;
            },
        }
    }
}


/// Stable insertion of a formula into a sorted child list: the formula
/// goes after every child not strictly greater than it.
pub open spec fn ins(t: Seq<ExprV>, x: ExprV) -> Seq<ExprV>
    decreases t.len(),
{
    if t.len() == 0 {
        seq![x]
    } else if cmp_spec(t.last(), x) == Comparison::Greater {
        ins(t.drop_last(), x).push(t.last())
    } else {
        t.push(x)
    }
}

/// Stable sort of a child list under the canonical order.
pub open spec fn sort_by_cmp(s: Seq<ExprV>) -> Seq<ExprV>
    decreases s.len(),
{
    if s.len() == 0 {
        Seq::empty()
    } else {
        ins(sort_by_cmp(s.drop_last()), s.last())
    }
}

/// What `order_terms` leaves behind: every conjunction's and
/// disjunction's children ordered recursively and then sorted stably
/// under the canonical order; all other formulas untouched.
pub open spec fn order_spec(e: ExprV) -> ExprV
    decreases e,
{
    match e {
        ExprV::And(v) => ExprV::And(sort_by_cmp(order_seq(v))),
        ExprV::Or(v) => ExprV::Or(sort_by_cmp(order_seq(v))),
        _ => e,
    }
}

/// `order_spec` applied to every formula of the sequence.
pub open spec fn order_seq(s: Seq<ExprV>) -> Seq<ExprV>
    decreases s,
{
    if s.len() == 0 {
        Seq::empty()
    } else {
        order_seq(s.drop_last()).push(order_spec(s.last()))
    }
}

/// `order_seq` maps the sequence elementwise.
pub proof fn lemma_order_seq_index(s: Seq<ExprV>)
    ensures
        order_seq(s).len() == s.len(),
        forall|i: int| 0 <= i < s.len() ==> #[trigger] order_seq(s)[i] == order_spec(s[i]),
    decreases s.len(),
{
    if s.len() > 0 {
        lemma_order_seq_index(s.drop_last());
        assert forall|i: int| 0 <= i < s.len()
            implies #[trigger] order_seq(s)[i] == order_spec(s[i]) by {
            if i < s.len() - 1 {
                assert(order_seq(s)[i] == order_seq(s.drop_last())[i]);
                assert(s.drop_last()[i] == s[i]);
            }
        }
    }
}

/// Inserting below the trailing run of strictly greater children places
/// the formula exactly at the scanned position.
proof fn lemma_ins_split(t: Seq<ExprV>, x: ExprV, i: int)
    requires
        0 <= i <= t.len(),
        i == 0 || cmp_spec(t[i - 1], x) != Comparison::Greater,
        forall|j: int| i <= j < t.len() ==> cmp_spec(#[trigger] t[j], x) == Comparison::Greater,
    ensures
        ins(t, x) == t.take(i).push(x) + t.skip(i),
    decreases t.len() - i,
{
    if i == t.len() {
        if t.len() == 0 {
            assert(ins(t, x) =~= t.take(i).push(x) + t.skip(i));
        } else {
            assert(cmp_spec(t.last(), x) != Comparison::Greater);
            assert(ins(t, x) == t.push(x));
            assert(t.take(i) =~= t);
            assert(ins(t, x) =~= t.take(i).push(x) + t.skip(i));
        }
    } else {
        assert(cmp_spec(t.last(), x) == Comparison::Greater);
        assert(ins(t, x) == ins(t.drop_last(), x).push(t.last()));
        assert forall|j: int| i <= j < t.drop_last().len()
            implies cmp_spec(#[trigger] t.drop_last()[j], x) == Comparison::Greater by {
            assert(t.drop_last()[j] == t[j]);
        }
        if i > 0 {
            assert(t.drop_last()[i - 1] == t[i - 1]);
        }
        lemma_ins_split(t.drop_last(), x, i);
        assert(t.drop_last().take(i) =~= t.take(i));
        assert(ins(t, x) =~= t.take(i).push(x) + t.skip(i)) by {
            assert(ins(t.drop_last(), x) == t.take(i).push(x) + t.drop_last().skip(i));
        }
    }
}

impl Expr {
    /// Sorts the children of every conjunction and disjunction,
    /// recursively and then at this node, under the canonical order; the
    /// sort is stable, so children that compare equal keep their relative
    /// order.
    pub fn order_terms(&mut self)
        ensures
            final(self)@ == order_spec(old(self)@),
    {
        let r = self.ordered();
        *self = r;
    }

    /// The formula with every conjunction's and disjunction's children
    /// sorted.
    fn ordered(&self) -> (r: Expr)
        ensures
            r@ == order_spec(self@),
        decreases self,
    {
        match self {
            Expr::And(v) => Expr::And(sort_children(v)),
            Expr::Or(v) => Expr::Or(sort_children(v)),
            _ => self.dup(),
        }
    }
}

/// Orders each child recursively, then sorts the list stably under the
/// canonical order.
#[verifier::loop_isolation(false)]
fn sort_children(v: &Vec<Expr>) -> (r: Vec<Expr>)
    ensures
        models(r@) == sort_by_cmp(order_seq(models(v@))),
    decreases v,
{
    let ghost vs = models(v@);
    proof {
        lemma_models_index(v@);
    }
    let mut ov: Vec<Expr> = Vec::new();
    let mut i: usize = 0;
    while i < v.len()
        invariant
            i <= v.len(),
            ov@.len() == i,
            forall|j: int| 0 <= j < i ==> #[trigger] ov@[j]@ == order_spec(vs[j]),
        decreases v.len() - i,
    {
        proof {
            assert(decreases_to!(v => v@[i as int]));
        }
        let d = v[i].ordered();
        ov.push(d);
        i = i + 1;
    }
    let ghost os = order_seq(vs);
    proof {
        lemma_order_seq_index(vs);
        lemma_models_index(ov@);
        assert(models(ov@) =~= os) by {
            assert forall|j: int| 0 <= j < i as int
                implies models(ov@)[j] == os[j] by {
                assert(ov@[j]@ == order_spec(vs[j]));
            }
        }
    }
    let mut out: Vec<Expr> = Vec::new();
    let mut k: usize = 0;
    while k < ov.len()
        invariant
            k <= ov.len(),
            models(ov@) == os,
            models(out@) == sort_by_cmp(os.take(k as int)),
        decreases ov.len() - k,
    {
        proof {
            lemma_models_index(ov@);
            assert(os.take(k + 1).drop_last() =~= os.take(k as int));
            assert(os.take(k + 1).last() == os[k as int]);
            assert(decreases_to!(ov => ov@[k as int]));
        }
        let x = ov[k].dup();
        insert_in_order(&mut out, x);
        k = k + 1;
    }
    proof {
        assert(os.take(ov@.len() as int) =~= os);
    }
    out
}

/// Places a formula into a sorted child list at the stable position.
fn insert_in_order(out: &mut Vec<Expr>, x: Expr)
    ensures
        models(final(out)@) == ins(models(old(out)@), x@),
{
    let ghost t = models(out@);
    proof {
        lemma_models_index(out@);
    }
    let mut i: usize = out.len();
    loop
        invariant_except_break
            i <= out.len(),
            out@ == old(out)@,
            t == models(out@),
            forall|j: int| i <= j < t.len()
                ==> cmp_spec(#[trigger] t[j], x@) == Comparison::Greater,
        ensures
            i <= out.len(),
            out@ == old(out)@,
            forall|j: int| i <= j < t.len()
                ==> cmp_spec(#[trigger] t[j], x@) == Comparison::Greater,
            i > 0 ==> cmp_spec(t[i as int - 1], x@) != Comparison::Greater,
        decreases i,
    {
        if i == 0 {
            break;
        }
        proof {
            lemma_models_index(out@);
            assert(t[i as int - 1] == out@[i as int - 1]@);
        }
        let c = out[i - 1].compare(&x);
        if c == Comparison::Greater {
            i = i - 1;
        } else {
            break;
        }
    }
    proof {
        if i > 0 {
            assert(t[i as int - 1] == out@[i as int - 1]@);
        }
        lemma_ins_split(t, x@, i as int);
    }
    let ghost before = out@;
    let ghost pos = i as int;
    proof {
        before.insert_ensures(pos, x);
    }
    out.insert(i, x);
    proof {
        lemma_models_index(out@);
        lemma_models_index(before);
        assert(models(out@) =~= t.take(pos).push(x@) + t.skip(pos)) by {
            assert forall|j: int| 0 <= j < out@.len()
                implies models(out@)[j] == (t.take(pos).push(x@) + t.skip(pos))[j] by {
                if j < pos {
                    assert(out@[j] == before[j]);
                } else if j > pos {
                    assert(out@[j] == before[j - 1]);
                }
            }
        }
    }
}


/// Adjacent equal formulas collapsed to one: the idempotence law, applied
/// to neighbours only.
pub open spec fn dedup_adj(s: Seq<ExprV>) -> Seq<ExprV>
    decreases s.len(),
{
    if s.len() < 2 {
        s
    } else if s[s.len() - 2] == s.last() {
        dedup_adj(s.drop_last())
    } else {
        dedup_adj(s.drop_last()).push(s.last())
    }
}

/// The list without its `True` members: the conjunction identity law.
pub open spec fn drop_true(s: Seq<ExprV>) -> Seq<ExprV>
    decreases s.len(),
{
    if s.len() == 0 {
        Seq::empty()
    } else if s.last() == ExprV::True {
        drop_true(s.drop_last())
    } else {
        drop_true(s.drop_last()).push(s.last())
    }
}

/// The list without its `False` members: the disjunction identity law.
pub open spec fn drop_false(s: Seq<ExprV>) -> Seq<ExprV>
    decreases s.len(),
{
    if s.len() == 0 {
        Seq::empty()
    } else if s.last() == ExprV::False {
        drop_false(s.drop_last())
    } else {
        drop_false(s.drop_last()).push(s.last())
    }
}

/// The complement of a formula, as the simplifier forms it: stripping a
/// negation, or wrapping one.
pub open spec fn complement_of(e: ExprV) -> ExprV {
    match e {
        ExprV::Not(w) => *w,
        _ => ExprV::Not(Box::new(e)),
    }
}

/// Some neighbouring pair of the list is a formula and its complement.
pub open spec fn has_adj_complement(s: Seq<ExprV>) -> bool {
    exists|i: int| 0 <= i < s.len() - 1 && s[i + 1] == complement_of(#[trigger] s[i])
}

/// The simplified children of a conjunction: each child simplified,
/// `True` children dropped, neighbouring duplicates collapsed.
pub open spec fn and_core(v: Seq<ExprV>) -> Seq<ExprV> {
    dedup_adj(drop_true(map_simplify(v)))
}

/// The simplified children of a disjunction.
pub open spec fn or_core(v: Seq<ExprV>) -> Seq<ExprV> {
    dedup_adj(drop_false(map_simplify(v)))
}

/// What the simplifier returns.  Constants and variables are untouched; a
/// double negation is unwrapped; a conjunction's children are simplified,
/// `True` children dropped (identity), neighbouring duplicates collapsed
/// (idempotence), and the whole formula becomes `False` on a `False`
/// child (annulment) or a neighbouring complement pair (complement law),
/// or `True` when no child remains; a disjunction is treated dually.
pub open spec fn simplify_spec(e: ExprV) -> ExprV
    decreases e,
{
    match e {
        ExprV::Not(v) => match *v {
            ExprV::Not(w) => *w,
            _ => ExprV::Not(v),
        },
        ExprV::And(v) => {
            let c = dedup_adj(drop_true(map_simplify(v)));
            if c.len() == 0 {
                ExprV::True
            } else if c.contains(ExprV::False) || has_adj_complement(c) {
                ExprV::False
            } else {
                ExprV::And(c)
            }
        },
        ExprV::Or(v) => {
            let c = dedup_adj(drop_false(map_simplify(v)));
            if c.len() == 0 {
                ExprV::False
            } else if c.contains(ExprV::True) || has_adj_complement(c) {
                ExprV::True
            } else {
                ExprV::Or(c)
            }
        },
        _ => e,
    }
}

/// The simplifier applied to every formula of the sequence.
pub open spec fn map_simplify(s: Seq<ExprV>) -> Seq<ExprV>
    decreases s,
{
    if s.len() == 0 {
        Seq::empty()
    } else {
        map_simplify(s.drop_last()).push(simplify_spec(s.last()))
    }
}

/// `map_simplify` maps the sequence elementwise.
pub proof fn lemma_map_simplify_index(s: Seq<ExprV>)
    ensures
        map_simplify(s).len() == s.len(),
        forall|i: int| 0 <= i < s.len() ==> #[trigger] map_simplify(s)[i] == simplify_spec(s[i]),
    decreases s.len(),
{
    if s.len() > 0 {
        lemma_map_simplify_index(s.drop_last());
        assert forall|i: int| 0 <= i < s.len()
            implies #[trigger] map_simplify(s)[i] == simplify_spec(s[i]) by {
            if i < s.len() - 1 {
                assert(map_simplify(s)[i] == map_simplify(s.drop_last())[i]);
                assert(s.drop_last()[i] == s[i]);
            }
        }
    }
}

/// Collapsing neighbours keeps the last formula of a nonempty list.
pub proof fn lemma_dedup_last(s: Seq<ExprV>)
    ensures
        s.len() == 0 ==> dedup_adj(s).len() == 0,
        s.len() > 0 ==> dedup_adj(s).len() > 0 && dedup_adj(s).last() == s.last(),
    decreases s.len(),
{
    if s.len() >= 2 {
        lemma_dedup_last(s.drop_last());
    }
}

/// How one more simplified child extends a conjunction's simplified list.
proof fn lemma_and_core_step(vs: Seq<ExprV>, i: int, prev: Seq<ExprV>, x: ExprV)
    requires
        0 <= i < vs.len(),
        prev == and_core(vs.take(i)),
        x == simplify_spec(vs[i]),
    ensures
        and_core(vs.take(i + 1)) == (if x == ExprV::True {
            prev
        } else if prev.len() > 0 && prev.last() == x {
            prev
        } else {
            prev.push(x)
        }),
{
    let t = map_simplify(vs.take(i));
    let ft = drop_true(t);
    assert(vs.take(i + 1).drop_last() =~= vs.take(i));
    assert(vs.take(i + 1).last() == vs[i]);
    assert(map_simplify(vs.take(i + 1)) == t.push(x)) by {
        assert(map_simplify(vs.take(i + 1))
            == map_simplify(vs.take(i + 1).drop_last()).push(simplify_spec(vs.take(i + 1).last())));
    }
    assert(t.push(x).drop_last() =~= t);
    assert(t.push(x).last() == x);
    lemma_dedup_last(ft);
    if x == ExprV::True {
        assert(drop_true(t.push(x)) == ft);
    } else {
        assert(drop_true(t.push(x)) == ft.push(x));
        assert(ft.push(x).drop_last() =~= ft);
        if ft.len() > 0 {
            assert(ft.push(x)[ft.push(x).len() - 2] == ft.last());
            if prev.len() > 0 && prev.last() == x {
                assert(ft.last() == prev.last());
                assert(dedup_adj(ft.push(x)) == dedup_adj(ft));
            } else {
                assert(prev.last() == ft.last());
                assert(ft.last() != x);
                assert(dedup_adj(ft.push(x)) == dedup_adj(ft).push(x));
            }
        } else {
            assert(prev.len() == 0);
            assert(ft.push(x).len() == 1);
            assert(dedup_adj(ft.push(x)) == ft.push(x));
            assert(ft.push(x) =~= prev.push(x));
        }
    }
}

/// How one more simplified child extends a disjunction's simplified list.
proof fn lemma_or_core_step(vs: Seq<ExprV>, i: int, prev: Seq<ExprV>, x: ExprV)
    requires
        0 <= i < vs.len(),
        prev == or_core(vs.take(i)),
        x == simplify_spec(vs[i]),
    ensures
        or_core(vs.take(i + 1)) == (if x == ExprV::False {
            prev
        } else if prev.len() > 0 && prev.last() == x {
            prev
        } else {
            prev.push(x)
        }),
{
    let t = map_simplify(vs.take(i));
    let ft = drop_false(t);
    assert(vs.take(i + 1).drop_last() =~= vs.take(i));
    assert(vs.take(i + 1).last() == vs[i]);
    assert(map_simplify(vs.take(i + 1)) == t.push(x)) by {
        assert(map_simplify(vs.take(i + 1))
            == map_simplify(vs.take(i + 1).drop_last()).push(simplify_spec(vs.take(i + 1).last())));
    }
    assert(t.push(x).drop_last() =~= t);
    assert(t.push(x).last() == x);
    lemma_dedup_last(ft);
    if x == ExprV::False {
        assert(drop_false(t.push(x)) == ft);
    } else {
        assert(drop_false(t.push(x)) == ft.push(x));
        assert(ft.push(x).drop_last() =~= ft);
        if ft.len() > 0 {
            assert(ft.push(x)[ft.push(x).len() - 2] == ft.last());
            if prev.len() > 0 && prev.last() == x {
                assert(ft.last() == prev.last());
                assert(dedup_adj(ft.push(x)) == dedup_adj(ft));
            } else {
                assert(prev.last() == ft.last());
                assert(ft.last() != x);
                assert(dedup_adj(ft.push(x)) == dedup_adj(ft).push(x));
            }
        } else {
            assert(prev.len() == 0);
            assert(ft.push(x).len() == 1);
            assert(dedup_adj(ft.push(x)) == ft.push(x));
            assert(ft.push(x) =~= prev.push(x));
        }
    }
}

/// A formula and its model are built by the same connective.
pub proof fn lemma_variant(e: Expr)
    ensures
        model(e) is And <==> e is And,
        model(e) is Or <==> e is Or,
        model(e) is Not <==> e is Not,
        model(e) is Var <==> e is Var,
        model(e) is True <==> e is True,
        model(e) is False <==> e is False,
{
    match e {
        Expr::And(v) => {},
        Expr::Or(v) => {},
        Expr::Not(a) => {},
        Expr::Var(n) => {},
        Expr::True => {},
        Expr::False => {},
    }
}

/// Whether two formulas are structurally equal.
fn eq_expr(a: &Expr, b: &Expr) -> (r: bool)
    ensures
        r == (a@ == b@),
    decreases a, b,
{
    proof {
        lemma_variant(*a);
        lemma_variant(*b);
    }
    match (a, b) {
        (Expr::Var(m), Expr::Var(n)) => {
            let c = str_compare(m.as_str(), n.as_str());
            c == Comparison::Equal
        },
        (Expr::Not(x), Expr::Not(y)) => eq_expr(x, y),
        (Expr::And(u), Expr::And(v)) => eq_vecs(u, v),
        (Expr::Or(u), Expr::Or(v)) => eq_vecs(u, v),
        (Expr::True, Expr::True) => true,
        (Expr::False, Expr::False) => true,
        _ => false,
    }
}

/// Whether two lists of formulas are structurally equal.
#[verifier::loop_isolation(false)]
fn eq_vecs(u: &Vec<Expr>, v: &Vec<Expr>) -> (r: bool)
    ensures
        r == (models(u@) == models(v@)),
    decreases u, v,
{
    proof {
        lemma_models_index(u@);
        lemma_models_index(v@);
    }
    if u.len() != v.len() {
        return false;
    }
    let mut i: usize = 0;
    while i < u.len()
        invariant
            i <= u.len(),
            forall|j: int| 0 <= j < i ==> #[trigger] u@[j]@ == v@[j]@,
        decreases u.len() - i,
    {
        proof {
            assert(decreases_to!(u => u@[i as int]));
        }
        if !eq_expr(&u[i], &v[i]) {
            proof {
                assert(models(u@)[i as int] != models(v@)[i as int]);
            }
            return false;
        }
        i = i + 1;
    }
    proof {
        assert(models(u@) =~= models(v@)) by {
            assert forall|j: int| 0 <= j < u@.len()
                implies models(u@)[j] == models(v@)[j] by {
                assert(u@[j]@ == v@[j]@);
            }
        }
    }
    true
}

/// Whether a formula is the complement the simplifier would form of
/// another.
fn is_complement(cur: &Expr, prev: &Expr) -> (r: bool)
    ensures
        r == (cur@ == complement_of(prev@)),
{
    proof {
        lemma_variant(*cur);
        lemma_variant(*prev);
    }
    match prev {
        Expr::Not(w) => eq_expr(cur, w),
        _ => match cur {
            Expr::Not(wc) => eq_expr(wc, prev),
            _ => false,
        },
    }
}

impl Expr {
    /// Simplifies the formula by the identity, annulment, idempotence,
    /// complement and double-negation laws; duplicate and complementary
    /// children are recognised only when they are neighbours, so the
    /// children should be ordered first.
    pub fn simplify(self) -> (r: Box<Expr>)
        ensures
            r@ == simplify_spec(self@),
    {
        Box::new(self.simplify_ref())
    }

    /// Simplification, building a fresh formula.
    fn simplify_ref(&self) -> (r: Expr)
        ensures
            r@ == simplify_spec(self@),
        decreases self,
    {
        match self {
            Expr::True => Expr::True,
            Expr::False => Expr::False,
            Expr::Var(n) => Expr::Var(n.clone()),
            Expr::Not(v) => {
                proof {
                    lemma_variant(**v);
                }
                match &**v {
                    Expr::Not(w) => w.dup(),
                    _ => Expr::Not(Box::new(v.dup())),
                }
            },
            Expr::And(v) => simplify_and(v),
            Expr::Or(v) => simplify_or(v),
        }
    }
}

/// Simplifies the children of a conjunction and applies the conjunction
/// laws.
#[verifier::loop_isolation(false)]
#[verifier::rlimit(60)]
fn simplify_and(v: &Vec<Expr>) -> (r: Expr)
    ensures
        r@ == simplify_spec(ExprV::And(models(v@))),
    decreases v,
{
    let ghost vs = models(v@);
    let ghost c = and_core(vs);
    proof {
        lemma_models_index(v@);
        assert(vs.take(0) =~= Seq::<ExprV>::empty());
    }
    let mut cs: Vec<Expr> = Vec::new();
    let mut i: usize = 0;
    while i < v.len()
        invariant
            i <= v.len(),
            models(cs@) == and_core(vs.take(i as int)),
        decreases v.len() - i,
    {
        proof {
            assert(decreases_to!(v => v@[i as int]));
        }
        let si = v[i].simplify_ref();
        proof {
            lemma_and_core_step(vs, i as int, models(cs@), si@);
            lemma_variant(si);
            lemma_models_index(cs@);
        }
        if !matches!(si, Expr::True) {
            let mut skip_dup = false;
            if cs.len() > 0 {
                skip_dup = eq_expr(&cs[cs.len() - 1], &si);
                proof {
                    assert(models(cs@).last() == cs@[cs@.len() - 1]@);
                }
            }
            if !skip_dup {
                let ghost prev_cs = cs@;
                cs.push(si);
                proof {
                    assert(cs@.drop_last() =~= prev_cs);
                }
            }
        }
        i = i + 1;
    }
    proof {
        assert(vs.take(v@.len() as int) =~= vs);
        assert(models(cs@) == c);
        lemma_models_index(cs@);
    }
    if cs.len() == 0 {
        return Expr::True;
    }
    // annulment: a false child forces the whole conjunction false
    let mut j: usize = 0;
    while j < cs.len()
        invariant
            j <= cs.len(),
            forall|k: int| 0 <= k < j ==> !(#[trigger] c[k] is False),
        decreases cs.len() - j,
    {
        proof {
            lemma_variant(cs@[j as int]);
            assert(c[j as int] == cs@[j as int]@);
        }
        if matches!(cs[j], Expr::False) {
            proof {
                assert(c.contains(ExprV::False));
            }
            return Expr::False;
        }
        j = j + 1;
    }
    proof {
        assert(!c.contains(ExprV::False)) by {
            if c.contains(ExprV::False) {
                let w = choose|w: int| 0 <= w < c.len() && c[w] == ExprV::False;
                assert(c[w] is False);
            }
        }
    }
    // complement law: neighbouring complements force the conjunction false
    let mut k: usize = 1;
    while k < cs.len()
        invariant
            1 <= k,
            forall|p: int| 0 <= p < k - 1 ==> c[p + 1] != complement_of(#[trigger] c[p]),
        decreases cs.len() - k,
    {
        proof {
            assert(c[k as int] == cs@[k as int]@);
            assert(c[k as int - 1] == cs@[k as int - 1]@);
        }
        if is_complement(&cs[k], &cs[k - 1]) {
            proof {
                assert(c[k as int] == complement_of(c[k as int - 1]));
            }
            return Expr::False;
        }
        k = k + 1;
    }
    proof {
        assert(!has_adj_complement(c));
    }
    Expr::And(cs)
}

/// Simplifies the children of a disjunction and applies the disjunction
/// laws.
#[verifier::loop_isolation(false)]
#[verifier::rlimit(60)]
fn simplify_or(v: &Vec<Expr>) -> (r: Expr)
    ensures
        r@ == simplify_spec(ExprV::Or(models(v@))),
    decreases v,
{
    let ghost vs = models(v@);
    let ghost c = or_core(vs);
    proof {
        lemma_models_index(v@);
        assert(vs.take(0) =~= Seq::<ExprV>::empty());
    }
    let mut cs: Vec<Expr> = Vec::new();
    let mut i: usize = 0;
    while i < v.len()
        invariant
            i <= v.len(),
            models(cs@) == or_core(vs.take(i as int)),
        decreases v.len() - i,
    {
        proof {
            assert(decreases_to!(v => v@[i as int]));
        }
        let si = v[i].simplify_ref();
        proof {
            lemma_or_core_step(vs, i as int, models(cs@), si@);
            lemma_variant(si);
            lemma_models_index(cs@);
        }
        if !matches!(si, Expr::False) {
            let mut skip_dup = false;
            if cs.len() > 0 {
                skip_dup = eq_expr(&cs[cs.len() - 1], &si);
                proof {
                    assert(models(cs@).last() == cs@[cs@.len() - 1]@);
                }
            }
            if !skip_dup {
                let ghost prev_cs = cs@;
                cs.push(si);
                proof {
                    assert(cs@.drop_last() =~= prev_cs);
                }
            }
        }
        i = i + 1;
    }
    proof {
        assert(vs.take(v@.len() as int) =~= vs);
        assert(models(cs@) == c);
        lemma_models_index(cs@);
    }
    if cs.len() == 0 {
        return Expr::False;
    }
    // annulment: a true child forces the whole disjunction true
    let mut j: usize = 0;
    while j < cs.len()
        invariant
            j <= cs.len(),
            forall|k: int| 0 <= k < j ==> !(#[trigger] c[k] is True),
        decreases cs.len() - j,
    {
        proof {
            lemma_variant(cs@[j as int]);
            assert(c[j as int] == cs@[j as int]@);
        }
        if matches!(cs[j], Expr::True) {
            proof {
                assert(c.contains(ExprV::True));
            }
            return Expr::True;
        }
        j = j + 1;
    }
    proof {
        assert(!c.contains(ExprV::True)) by {
            if c.contains(ExprV::True) {
                let w = choose|w: int| 0 <= w < c.len() && c[w] == ExprV::True;
                assert(c[w] is True);
            }
        }
    }
    // complement law: neighbouring complements force the disjunction true
    let mut k: usize = 1;
    while k < cs.len()
        invariant
            1 <= k,
            forall|p: int| 0 <= p < k - 1 ==> c[p + 1] != complement_of(#[trigger] c[p]),
        decreases cs.len() - k,
    {
        proof {
            assert(c[k as int] == cs@[k as int]@);
            assert(c[k as int - 1] == cs@[k as int - 1]@);
        }
        if is_complement(&cs[k], &cs[k - 1]) {
            proof {
                assert(c[k as int] == complement_of(c[k as int - 1]));
            }
            return Expr::True;
        }
        k = k + 1;
    }
    proof {
        assert(!has_adj_complement(c));
    }
    Expr::Or(cs)
}


/// Appending a formula to a conjunction's children conjoins its value.
pub proof fn lemma_seval_all_push(s: Seq<ExprV>, x: ExprV, m: Map<Seq<char>, bool>)
    ensures
        seval_all(s.push(x), m) == (seval_all(s, m) && seval(x, m)),
    decreases s.len(),
{
    reveal_with_fuel(seval_all, 3);
    if s.len() == 0 {
        assert(s.push(x)[0] == x);
        assert(s.push(x).drop_first() =~= Seq::<ExprV>::empty());
    } else {
        assert(s.push(x)[0] == s[0]);
        assert(s.push(x).drop_first() =~= s.drop_first().push(x));
        lemma_seval_all_push(s.drop_first(), x, m);
    }
}

/// Appending a formula to a disjunction's children disjoins its value.
pub proof fn lemma_seval_any_push(s: Seq<ExprV>, x: ExprV, m: Map<Seq<char>, bool>)
    ensures
        seval_any(s.push(x), m) == (seval_any(s, m) || seval(x, m)),
    decreases s.len(),
{
    reveal_with_fuel(seval_any, 3);
    if s.len() == 0 {
        assert(s.push(x)[0] == x);
        assert(s.push(x).drop_first() =~= Seq::<ExprV>::empty());
    } else {
        assert(s.push(x)[0] == s[0]);
        assert(s.push(x).drop_first() =~= s.drop_first().push(x));
        lemma_seval_any_push(s.drop_first(), x, m);
    }
}

/// Dropping `True` children does not change a conjunction's value.
proof fn lemma_drop_true_eval(s: Seq<ExprV>, m: Map<Seq<char>, bool>)
    ensures
        seval_all(drop_true(s), m) == seval_all(s, m),
    decreases s.len(),
{
    if s.len() > 0 {
        lemma_drop_true_eval(s.drop_last(), m);
        assert(s =~= s.drop_last().push(s.last()));
        lemma_seval_all_push(s.drop_last(), s.last(), m);
        if s.last() != ExprV::True {
            lemma_seval_all_push(drop_true(s.drop_last()), s.last(), m);
        }
    }
}

/// Dropping `False` children does not change a disjunction's value.
proof fn lemma_drop_false_eval(s: Seq<ExprV>, m: Map<Seq<char>, bool>)
    ensures
        seval_any(drop_false(s), m) == seval_any(s, m),
    decreases s.len(),
{
    if s.len() > 0 {
        lemma_drop_false_eval(s.drop_last(), m);
        assert(s =~= s.drop_last().push(s.last()));
        lemma_seval_any_push(s.drop_last(), s.last(), m);
        if s.last() != ExprV::False {
            lemma_seval_any_push(drop_false(s.drop_last()), s.last(), m);
        }
    }
}

/// Collapsing neighbouring duplicates does not change a conjunction's or
/// a disjunction's value.
proof fn lemma_dedup_eval(s: Seq<ExprV>, m: Map<Seq<char>, bool>)
    ensures
        seval_all(dedup_adj(s), m) == seval_all(s, m),
        seval_any(dedup_adj(s), m) == seval_any(s, m),
    decreases s.len(),
{
    if s.len() >= 2 {
        lemma_dedup_eval(s.drop_last(), m);
        assert(s =~= s.drop_last().push(s.last()));
        lemma_seval_all_push(s.drop_last(), s.last(), m);
        lemma_seval_any_push(s.drop_last(), s.last(), m);
        if s[s.len() - 2] == s.last() {
            lemma_seval_all_index(s.drop_last(), m);
            lemma_seval_any_index(s.drop_last(), m);
            assert(s.drop_last()[s.len() - 2] == s[s.len() - 2]);
        } else {
            lemma_seval_all_push(dedup_adj(s.drop_last()), s.last(), m);
            lemma_seval_any_push(dedup_adj(s.drop_last()), s.last(), m);
        }
    }
}

/// The simplifier's complement of a formula always has the opposite value.
pub proof fn lemma_complement_eval(x: ExprV, m: Map<Seq<char>, bool>)
    ensures
        seval(complement_of(x), m) == !seval(x, m),
{
    match x {
        ExprV::Not(w) => {},
        _ => {},
    }
}

/// Simplification preserves the truth value of the formula, and of every
/// child list, under every assignment.
pub proof fn lemma_simplify_eval(e: ExprV, m: Map<Seq<char>, bool>)
    ensures
        seval(simplify_spec(e), m) == seval(e, m),
    decreases e,
{
    reveal_with_fuel(seval, 3);
    match e {
        ExprV::Not(v) => {
            match *v {
                ExprV::Not(w) => {},
                _ => {},
            }
        },
        ExprV::And(v) => {
            lemma_map_simplify_eval(v, m);
            lemma_drop_true_eval(map_simplify(v), m);
            lemma_dedup_eval(drop_true(map_simplify(v)), m);
            let c = dedup_adj(drop_true(map_simplify(v)));
            lemma_seval_all_index(c, m);
            if c.len() == 0 {
            } else if c.contains(ExprV::False) {
                let w = choose|w: int| 0 <= w < c.len() && c[w] == ExprV::False;
                assert(!seval(c[w], m));
            } else if has_adj_complement(c) {
                let i = choose|i: int| 0 <= i < c.len() - 1
                    && c[i + 1] == complement_of(#[trigger] c[i]);
                lemma_complement_eval(c[i], m);
                assert(!(seval(c[i], m) && seval(c[i + 1], m)));
            }
        },
        ExprV::Or(v) => {
            lemma_map_simplify_eval(v, m);
            lemma_drop_false_eval(map_simplify(v), m);
            lemma_dedup_eval(drop_false(map_simplify(v)), m);
            let c = dedup_adj(drop_false(map_simplify(v)));
            lemma_seval_any_index(c, m);
            if c.len() == 0 {
            } else if c.contains(ExprV::True) {
                let w = choose|w: int| 0 <= w < c.len() && c[w] == ExprV::True;
                assert(seval(c[w], m));
            } else if has_adj_complement(c) {
                let i = choose|i: int| 0 <= i < c.len() - 1
                    && c[i + 1] == complement_of(#[trigger] c[i]);
                lemma_complement_eval(c[i], m);
                assert(seval(c[i], m) || seval(c[i + 1], m));
            }
        },
        _ => {},
    }
}

/// Simplifying each formula of a list preserves the list's conjunction
/// and disjunction values.
proof fn lemma_map_simplify_eval(s: Seq<ExprV>, m: Map<Seq<char>, bool>)
    ensures
        seval_all(map_simplify(s), m) == seval_all(s, m),
        seval_any(map_simplify(s), m) == seval_any(s, m),
    decreases s,
{
    if s.len() > 0 {
        lemma_map_simplify_eval(s.drop_last(), m);
        lemma_simplify_eval(s.last(), m);
        assert(s =~= s.drop_last().push(s.last()));
        lemma_seval_all_push(s.drop_last(), s.last(), m);
        lemma_seval_any_push(s.drop_last(), s.last(), m);
        lemma_seval_all_push(map_simplify(s.drop_last()), simplify_spec(s.last()), m);
        lemma_seval_any_push(map_simplify(s.drop_last()), simplify_spec(s.last()), m);
    }
}

/// Stable insertion conjoins or disjoins exactly the inserted formula.
proof fn lemma_ins_eval(t: Seq<ExprV>, x: ExprV, m: Map<Seq<char>, bool>)
    ensures
        seval_all(ins(t, x), m) == (seval_all(t, m) && seval(x, m)),
        seval_any(ins(t, x), m) == (seval_any(t, m) || seval(x, m)),
    decreases t.len(),
{
    if t.len() == 0 {
        lemma_seval_all_push(Seq::<ExprV>::empty(), x, m);
        lemma_seval_any_push(Seq::<ExprV>::empty(), x, m);
        assert(Seq::<ExprV>::empty().push(x) =~= seq![x]);
    } else if cmp_spec(t.last(), x) == Comparison::Greater {
        lemma_ins_eval(t.drop_last(), x, m);
        assert(t =~= t.drop_last().push(t.last()));
        lemma_seval_all_push(t.drop_last(), t.last(), m);
        lemma_seval_any_push(t.drop_last(), t.last(), m);
        lemma_seval_all_push(ins(t.drop_last(), x), t.last(), m);
        lemma_seval_any_push(ins(t.drop_last(), x), t.last(), m);
    } else {
        lemma_seval_all_push(t, x, m);
        lemma_seval_any_push(t, x, m);
    }
}

/// Sorting a child list preserves its conjunction and disjunction values.
pub proof fn lemma_sort_eval(s: Seq<ExprV>, m: Map<Seq<char>, bool>)
    ensures
        seval_all(sort_by_cmp(s), m) == seval_all(s, m),
        seval_any(sort_by_cmp(s), m) == seval_any(s, m),
    decreases s.len(),
{
    if s.len() > 0 {
        lemma_sort_eval(s.drop_last(), m);
        assert(s =~= s.drop_last().push(s.last()));
        lemma_seval_all_push(s.drop_last(), s.last(), m);
        lemma_seval_any_push(s.drop_last(), s.last(), m);
        lemma_ins_eval(sort_by_cmp(s.drop_last()), s.last(), m);
    }
}

/// Ordering terms preserves the truth value under every assignment.
pub proof fn lemma_order_eval(e: ExprV, m: Map<Seq<char>, bool>)
    ensures
        seval(order_spec(e), m) == seval(e, m),
    decreases e,
{
    match e {
        ExprV::And(v) => {
            lemma_order_seq_eval(v, m);
            lemma_sort_eval(order_seq(v), m);
        },
        ExprV::Or(v) => {
            lemma_order_seq_eval(v, m);
            lemma_sort_eval(order_seq(v), m);
        },
        _ => {},
    }
}

/// Ordering each formula of a list preserves the list's conjunction and
/// disjunction values.
proof fn lemma_order_seq_eval(s: Seq<ExprV>, m: Map<Seq<char>, bool>)
    ensures
        seval_all(order_seq(s), m) == seval_all(s, m),
        seval_any(order_seq(s), m) == seval_any(s, m),
    decreases s,
{
    if s.len() > 0 {
        lemma_order_seq_eval(s.drop_last(), m);
        lemma_order_eval(s.last(), m);
        assert(s =~= s.drop_last().push(s.last()));
        lemma_seval_all_push(s.drop_last(), s.last(), m);
        lemma_seval_any_push(s.drop_last(), s.last(), m);
        lemma_seval_all_push(order_seq(s.drop_last()), order_spec(s.last()), m);
        lemma_seval_any_push(order_seq(s.drop_last()), order_spec(s.last()), m);
    }
}

/// The whole pipeline preserves truth: for a distribution-safe binary
/// formula, distributing, lowering, ordering and simplifying yields a
/// formula with the same value under every assignment.
pub proof fn lemma_pipeline_preserves_eval(e: ast::ExprV, m: Map<Seq<char>, bool>)
    requires
        ast::dist_safe(e),
    ensures
        seval(simplify_spec(order_spec(lower_spec(ast::distribute_spec(e)))), m)
            == ast::beval(e, m),
        seval(lower_spec(ast::distribute_spec(e)), m) == ast::beval(e, m),
{
    ast::lemma_distribute_eval(e, m);
    lemma_lower_eval(ast::distribute_spec(e), m);
    lemma_order_eval(lower_spec(ast::distribute_spec(e)), m);
    lemma_simplify_eval(order_spec(lower_spec(ast::distribute_spec(e))), m);
}


/// Canonical negation shape for n-ary formulas: every negation wraps a
/// bare variable.
pub open spec fn nnf_n(e: ExprV) -> bool
    decreases e,
{
    match e {
        ExprV::And(v) => all_nnf(v),
        ExprV::Or(v) => all_nnf(v),
        ExprV::Not(a) => *a is Var,
        _ => true,
    }
}

/// Every formula of the sequence is in canonical negation shape.
pub open spec fn all_nnf(s: Seq<ExprV>) -> bool
    decreases s,
{
    s.len() == 0 || (nnf_n(s[0]) && all_nnf(s.drop_first()))
}

/// A sequence is in canonical negation shape exactly when each member is.
pub proof fn lemma_all_nnf_index(s: Seq<ExprV>)
    ensures
        all_nnf(s) <==> forall|i: int| 0 <= i < s.len() ==> nnf_n(#[trigger] s[i]),
    decreases s.len(),
{
    if s.len() > 0 {
        lemma_all_nnf_index(s.drop_first());
        if all_nnf(s) {
            assert forall|i: int| 0 <= i < s.len() implies nnf_n(#[trigger] s[i]) by {
                if i > 0 {
                    assert(nnf_n(s.drop_first()[i - 1]));
                }
            }
        }
        if forall|i: int| 0 <= i < s.len() ==> nnf_n(#[trigger] s[i]) {
            assert forall|i: int| 0 <= i < s.drop_first().len()
                implies nnf_n(#[trigger] s.drop_first()[i]) by {
                assert(s.drop_first()[i] == s[i + 1]);
            }
        }
    }
}

/// Every member of the `True`-stripped list is a non-`True` member of the
/// original.
proof fn lemma_drop_true_members(s: Seq<ExprV>)
    ensures
        forall|i: int| 0 <= i < drop_true(s).len()
            ==> s.contains(#[trigger] drop_true(s)[i]) && drop_true(s)[i] != ExprV::True,
    decreases s.len(),
{
    if s.len() > 0 {
        lemma_drop_true_members(s.drop_last());
        assert forall|i: int| 0 <= i < drop_true(s).len()
            implies s.contains(#[trigger] drop_true(s)[i])
                && drop_true(s)[i] != ExprV::True by {
            let d = drop_true(s);
            if s.last() == ExprV::True {
                assert(s.drop_last().contains(d[i]));
                let w = choose|w: int| 0 <= w < s.drop_last().len()
                    && s.drop_last()[w] == d[i];
                assert(s[w] == d[i]);
            } else {
                if i < d.len() - 1 {
                    assert(d[i] == drop_true(s.drop_last())[i]);
                    assert(s.drop_last().contains(d[i]));
                    let w = choose|w: int| 0 <= w < s.drop_last().len()
                        && s.drop_last()[w] == d[i];
                    assert(s[w] == d[i]);
                } else {
                    assert(d[i] == s.last());
                    assert(s[s.len() - 1] == d[i]);
                }
            }
        }
    }
}

/// Every member of the `False`-stripped list is a non-`False` member of
/// the original.
proof fn lemma_drop_false_members(s: Seq<ExprV>)
    ensures
        forall|i: int| 0 <= i < drop_false(s).len()
            ==> s.contains(#[trigger] drop_false(s)[i]) && drop_false(s)[i] != ExprV::False,
    decreases s.len(),
{
    if s.len() > 0 {
        lemma_drop_false_members(s.drop_last());
        assert forall|i: int| 0 <= i < drop_false(s).len()
            implies s.contains(#[trigger] drop_false(s)[i])
                && drop_false(s)[i] != ExprV::False by {
            let d = drop_false(s);
            if s.last() == ExprV::False {
                assert(s.drop_last().contains(d[i]));
                let w = choose|w: int| 0 <= w < s.drop_last().len()
                    && s.drop_last()[w] == d[i];
                assert(s[w] == d[i]);
            } else {
                if i < d.len() - 1 {
                    assert(d[i] == drop_false(s.drop_last())[i]);
                    assert(s.drop_last().contains(d[i]));
                    let w = choose|w: int| 0 <= w < s.drop_last().len()
                        && s.drop_last()[w] == d[i];
                    assert(s[w] == d[i]);
                } else {
                    assert(d[i] == s.last());
                    assert(s[s.len() - 1] == d[i]);
                }
            }
        }
    }
}

/// Collapsing neighbours keeps only members of the original list, and
/// leaves no two equal neighbours.
proof fn lemma_dedup_members(s: Seq<ExprV>)
    ensures
        forall|i: int| 0 <= i < dedup_adj(s).len() ==> s.contains(#[trigger] dedup_adj(s)[i]),
        forall|i: int| 0 <= i < dedup_adj(s).len() - 1
            ==> #[trigger] dedup_adj(s)[i] != dedup_adj(s)[i + 1],
    decreases s.len(),
{
    if s.len() >= 2 {
        lemma_dedup_members(s.drop_last());
        lemma_dedup_last(s.drop_last());
        let d = dedup_adj(s);
        assert forall|i: int| 0 <= i < d.len()
            implies s.contains(#[trigger] d[i]) by {
            if s[s.len() - 2] == s.last() {
                assert(s.drop_last().contains(d[i]));
                let w = choose|w: int| 0 <= w < s.drop_last().len()
                    && s.drop_last()[w] == d[i];
                assert(s[w] == d[i]);
            } else {
                if i < d.len() - 1 {
                    assert(d[i] == dedup_adj(s.drop_last())[i]);
                    assert(s.drop_last().contains(d[i]));
                    let w = choose|w: int| 0 <= w < s.drop_last().len()
                        && s.drop_last()[w] == d[i];
                    assert(s[w] == d[i]);
                } else {
                    assert(d[i] == s.last());
                    assert(s[s.len() - 1] == d[i]);
                }
            }
        }
        if s[s.len() - 2] != s.last() {
            let p = dedup_adj(s.drop_last());
            assert forall|i: int| 0 <= i < d.len() - 1
                implies #[trigger] d[i] != d[i + 1] by {
                if i + 1 < d.len() - 1 {
                    assert(d[i] == p[i] && d[i + 1] == p[i + 1]);
                } else {
                    assert(d[i + 1] == s.last());
                    assert(d[i] == p[p.len() - 1]);
                    assert(p.last() == s.drop_last().last());
                    assert(s.drop_last().last() == s[s.len() - 2]);
                }
            }
        }
    } else {
        if s.len() == 1 {
            assert(s[0] == dedup_adj(s)[0]);
            assert(s.contains(s[0]));
        }
    }
}

/// A list with no two equal neighbours is already collapsed.
proof fn lemma_dedup_fixed(s: Seq<ExprV>)
    requires
        forall|i: int| 0 <= i < s.len() - 1 ==> #[trigger] s[i] != s[i + 1],
    ensures
        dedup_adj(s) == s,
    decreases s.len(),
{
    if s.len() >= 2 {
        assert(s[s.len() - 2] != s[s.len() - 1]);
        assert forall|i: int| 0 <= i < s.drop_last().len() - 1
            implies #[trigger] s.drop_last()[i] != s.drop_last()[i + 1] by {
            assert(s.drop_last()[i] == s[i] && s.drop_last()[i + 1] == s[i + 1]);
        }
        lemma_dedup_fixed(s.drop_last());
        assert(dedup_adj(s) =~= s);
    }
}

/// A list with no `True` member keeps every member when `True`s drop.
proof fn lemma_drop_true_fixed(s: Seq<ExprV>)
    requires
        forall|i: int| 0 <= i < s.len() ==> #[trigger] s[i] != ExprV::True,
    ensures
        drop_true(s) == s,
    decreases s.len(),
{
    if s.len() > 0 {
        assert(s[s.len() - 1] != ExprV::True);
        assert forall|i: int| 0 <= i < s.drop_last().len()
            implies #[trigger] s.drop_last()[i] != ExprV::True by {
            assert(s.drop_last()[i] == s[i]);
        }
        lemma_drop_true_fixed(s.drop_last());
        assert(drop_true(s) =~= s);
    }
}

/// A list with no `False` member keeps every member when `False`s drop.
proof fn lemma_drop_false_fixed(s: Seq<ExprV>)
    requires
        forall|i: int| 0 <= i < s.len() ==> #[trigger] s[i] != ExprV::False,
    ensures
        drop_false(s) == s,
    decreases s.len(),
{
    if s.len() > 0 {
        assert(s[s.len() - 1] != ExprV::False);
        assert forall|i: int| 0 <= i < s.drop_last().len()
            implies #[trigger] s.drop_last()[i] != ExprV::False by {
            assert(s.drop_last()[i] == s[i]);
        }
        lemma_drop_false_fixed(s.drop_last());
        assert(drop_false(s) =~= s);
    }
}

/// A list of simplification fixed points maps to itself.
proof fn lemma_map_simplify_fixed(s: Seq<ExprV>)
    requires
        forall|i: int| 0 <= i < s.len() ==> simplify_spec(#[trigger] s[i]) == s[i],
    ensures
        map_simplify(s) == s,
    decreases s.len(),
{
    if s.len() > 0 {
        assert(simplify_spec(s[s.len() - 1]) == s[s.len() - 1]);
        assert forall|i: int| 0 <= i < s.drop_last().len()
            implies simplify_spec(#[trigger] s.drop_last()[i]) == s.drop_last()[i] by {
            assert(s.drop_last()[i] == s[i]);
        }
        lemma_map_simplify_fixed(s.drop_last());
        assert(map_simplify(s) =~= s);
    }
}

/// Simplification is idempotent on formulas in canonical negation shape:
/// simplifying a second time changes nothing.
pub proof fn lemma_simplify_idempotent(e: ExprV)
    requires
        nnf_n(e),
    ensures
        simplify_spec(simplify_spec(e)) == simplify_spec(e),
        nnf_n(simplify_spec(e)),
    decreases e,
{
    match e {
        ExprV::Not(v) => {},
        ExprV::And(v) => {
            let t = map_simplify(v);
            let ft = drop_true(t);
            let c = dedup_adj(ft);
            lemma_all_nnf_index(v);
            lemma_map_simplify_index(v);
            lemma_drop_true_members(t);
            lemma_dedup_members(ft);
            if c.len() != 0 && !c.contains(ExprV::False) && !has_adj_complement(c) {
                assert forall|i: int| 0 <= i < c.len()
                    implies simplify_spec(#[trigger] c[i]) == c[i] && nnf_n(c[i])
                        && c[i] != ExprV::True by {
                    assert(ft.contains(c[i]));
                    let w = choose|w: int| 0 <= w < ft.len() && ft[w] == c[i];
                    assert(t.contains(ft[w]));
                    let u = choose|u: int| 0 <= u < t.len() && t[u] == ft[w];
                    assert(t[u] == simplify_spec(v[u]));
                    lemma_simplify_idempotent(v[u]);
                }
                lemma_map_simplify_fixed(c);
                lemma_drop_true_fixed(c);
                lemma_dedup_fixed(c);
                lemma_all_nnf_index(c);
                assert(simplify_spec(ExprV::And(c)) == ExprV::And(c));
            }
        },
        ExprV::Or(v) => {
            let t = map_simplify(v);
            let ft = drop_false(t);
            let c = dedup_adj(ft);
            lemma_all_nnf_index(v);
            lemma_map_simplify_index(v);
            lemma_drop_false_members(t);
            lemma_dedup_members(ft);
            if c.len() != 0 && !c.contains(ExprV::True) && !has_adj_complement(c) {
                assert forall|i: int| 0 <= i < c.len()
                    implies simplify_spec(#[trigger] c[i]) == c[i] && nnf_n(c[i])
                        && c[i] != ExprV::False by {
                    assert(ft.contains(c[i]));
                    let w = choose|w: int| 0 <= w < ft.len() && ft[w] == c[i];
                    assert(t.contains(ft[w]));
                    let u = choose|u: int| 0 <= u < t.len() && t[u] == ft[w];
                    assert(t[u] == simplify_spec(v[u]));
                    lemma_simplify_idempotent(v[u]);
                }
                lemma_map_simplify_fixed(c);
                lemma_drop_false_fixed(c);
                lemma_dedup_fixed(c);
                lemma_all_nnf_index(c);
                assert(simplify_spec(ExprV::Or(c)) == ExprV::Or(c));
            }
        },
        _ => {},
    }
}

} // verus!







