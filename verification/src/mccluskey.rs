//! Minterm encoding and prime-implicant discovery: canonical
//! disjunctions-of-conjunctions become fixed-width ternary vectors keyed
//! by the expression's variable list, grouped by population count, merged
//! where they differ in one bit, and reduced to prime implicants.

use vstd::prelude::*;
use itertools::Itertools;
use crate::order::lex_lt;
use crate::sast::{Expr, ExprV, models, lemma_models_index, vars_of};
use crate::order::{name_set, names_of, lemma_names_of_index};

verus! {

/// One position of a ternary vector: the variable appears un-negated,
/// negated, or not at all.
#[derive(Debug, Clone, Copy, PartialEq, Eq, Structural)]
pub enum BoolOrDontCare {
    One,
    Zero,
    DontCare,
}

/// The population count of a ternary vector: its number of `One` entries.
pub open spec fn ones(s: Seq<BoolOrDontCare>) -> nat
    decreases s.len(),
{
    if s.len() == 0 {
        0
    } else {
        ones(s.drop_last()) + (if s.last() is One { 1nat } else { 0nat })
    }
}

/// Counts the `One` entries of a ternary vector.
pub fn count_ones(a: &Vec<BoolOrDontCare>) -> (r: usize)
    ensures
        r == ones(a@),
{
    let mut n: usize = 0;
    let mut i: usize = 0;
    while i < a.len()
        invariant
            i <= a.len(),
            n == ones(a@.take(i as int)),
            n <= i,
        decreases a.len() - i,
    {
        proof {
            assert(a@.take(i + 1).drop_last() =~= a@.take(i as int));
            assert(a@.take(i + 1).last() == a@[i as int]);
        }
        if matches!(a[i], BoolOrDontCare::One) {
            n = n + 1;
        }
        i = i + 1;
    }
    proof {
        assert(a@.take(a@.len() as int) =~= a@);
    }
    n
}

/// The rows of a count-grouped table, in order.
pub open spec fn flatten_groups(g: Seq<(usize, Vec<Vec<BoolOrDontCare>>)>)
    -> Seq<Vec<BoolOrDontCare>>
    decreases g.len(),
{
    if g.len() == 0 {
        Seq::empty()
    } else {
        flatten_groups(g.drop_last()) + g.last().1@
    }
}

/// Relies on itertools' `chunk_by`: consecutive elements that map to the
/// same key are grouped into one run, the runs come out in order, and
/// neighbouring runs have different keys.
#[verifier::external_body]
fn group_runs_by_ones(v: Vec<Vec<BoolOrDontCare>>)
    -> (r: Vec<(usize, Vec<Vec<BoolOrDontCare>>)>)
    ensures
        flatten_groups(r@) == v@,
        forall|i: int| 0 <= i < r@.len() ==> #[trigger] r@[i].1@.len() > 0,
        forall|i: int, j: int| 0 <= i < r@.len() && 0 <= j < r@[i].1@.len()
            ==> ones(#[trigger] r@[i].1@[j]@) == r@[i].0,
        forall|i: int| 0 <= i < r@.len() - 1 ==> #[trigger] r@[i].0 != r@[i + 1].0,
{
    let runs = v.into_iter().chunk_by(|a| count_ones(a));
    let mut out: Vec<(usize, Vec<Vec<BoolOrDontCare>>)> = Vec::new();
    for (k, g) in &runs {
        out.push((k, g.collect()));
    }
    out
}


/// A literal: a variable or a negated variable.
pub open spec fn lit_shape(e: ExprV) -> bool {
    match e {
        ExprV::Var(_) => true,
        ExprV::Not(a) => *a is Var,
        _ => false,
    }
}

/// Every formula of the sequence is a literal.
pub open spec fn all_lits(s: Seq<ExprV>) -> bool
    decreases s.len(),
{
    s.len() == 0 || (lit_shape(s[0]) && all_lits(s.drop_first()))
}

/// A sequence is all literals exactly when each member is.
pub proof fn lemma_all_lits_index(s: Seq<ExprV>)
    ensures
        all_lits(s) <==> forall|i: int| 0 <= i < s.len() ==> lit_shape(#[trigger] s[i]),
    decreases s.len(),
{
    if s.len() > 0 {
        lemma_all_lits_index(s.drop_first());
        if all_lits(s) {
            assert forall|i: int| 0 <= i < s.len() implies lit_shape(#[trigger] s[i]) by {
                if i > 0 {
                    assert(lit_shape(s.drop_first()[i - 1]));
                }
            }
        }
        if forall|i: int| 0 <= i < s.len() ==> lit_shape(#[trigger] s[i]) {
            assert forall|i: int| 0 <= i < s.drop_first().len()
                implies lit_shape(#[trigger] s.drop_first()[i]) by {
                assert(s.drop_first()[i] == s[i + 1]);
            }
        }
    }
}

/// A conjunctive term: a literal, or a conjunction of literals.
pub open spec fn term_shape(e: ExprV) -> bool {
    match e {
        ExprV::And(v) => all_lits(v),
        _ => lit_shape(e),
    }
}

/// Every formula of the sequence is a conjunctive term.
pub open spec fn all_terms(s: Seq<ExprV>) -> bool
    decreases s.len(),
{
    s.len() == 0 || (term_shape(s[0]) && all_terms(s.drop_first()))
}

/// A sequence is all terms exactly when each member is.
pub proof fn lemma_all_terms_index(s: Seq<ExprV>)
    ensures
        all_terms(s) <==> forall|i: int| 0 <= i < s.len() ==> term_shape(#[trigger] s[i]),
    decreases s.len(),
{
    if s.len() > 0 {
        lemma_all_terms_index(s.drop_first());
        if all_terms(s) {
            assert forall|i: int| 0 <= i < s.len() implies term_shape(#[trigger] s[i]) by {
                if i > 0 {
                    assert(term_shape(s.drop_first()[i - 1]));
                }
            }
        }
        if forall|i: int| 0 <= i < s.len() ==> term_shape(#[trigger] s[i]) {
            assert forall|i: int| 0 <= i < s.drop_first().len()
                implies term_shape(#[trigger] s.drop_first()[i]) by {
                assert(s.drop_first()[i] == s[i + 1]);
            }
        }
    }
}

/// A disjunction of conjunctive terms: the shape the encoder accepts.
pub open spec fn dnf_shape(e: ExprV) -> bool {
    match e {
        ExprV::Or(d) => all_terms(d),
        _ => false,
    }
}

/// The disjuncts of a disjunction.
pub open spec fn disjuncts(e: ExprV) -> Seq<ExprV> {
    match e {
        ExprV::Or(d) => d,
        _ => Seq::empty(),
    }
}

/// The literals of a conjunctive term.
pub open spec fn term_lits(t: ExprV) -> Seq<ExprV> {
    match t {
        ExprV::And(v) => v,
        _ => seq![t],
    }
}

/// The polarity with which a variable first appears in a literal list:
/// `One` un-negated, `Zero` negated, `DontCare` when absent.
pub open spec fn sign_in(lits: Seq<ExprV>, x: Seq<char>) -> BoolOrDontCare
    decreases lits.len(),
{
    if lits.len() == 0 {
        BoolOrDontCare::DontCare
    } else if lits[0] == ExprV::Var(x) {
        BoolOrDontCare::One
    } else if lits[0] == ExprV::Not(Box::new(ExprV::Var(x))) {
        BoolOrDontCare::Zero
    } else {
        sign_in(lits.drop_first(), x)
    }
}

/// The ternary vector a conjunctive term encodes to, over a variable
/// list: position `i` holds the polarity of variable `i` in the term.
pub open spec fn encode_term(t: ExprV, vars: Seq<Seq<char>>) -> Seq<BoolOrDontCare> {
    Seq::new(vars.len(), |i: int| sign_in(term_lits(t), vars[i]))
}

/// The vectors every disjunct encodes to, in order.
pub open spec fn encode_rows(ds: Seq<ExprV>, vars: Seq<Seq<char>>) -> Seq<Seq<BoolOrDontCare>>
    decreases ds.len(),
{
    if ds.len() == 0 {
        Seq::empty()
    } else {
        encode_rows(ds.drop_last(), vars).push(encode_term(ds.last(), vars))
    }
}

/// `encode_rows` maps the disjuncts elementwise.
pub proof fn lemma_encode_rows_index(ds: Seq<ExprV>, vars: Seq<Seq<char>>)
    ensures
        encode_rows(ds, vars).len() == ds.len(),
        forall|i: int| 0 <= i < ds.len()
            ==> #[trigger] encode_rows(ds, vars)[i] == encode_term(ds[i], vars),
    decreases ds.len(),
{
    if ds.len() > 0 {
        lemma_encode_rows_index(ds.drop_last(), vars);
        assert forall|i: int| 0 <= i < ds.len()
            implies #[trigger] encode_rows(ds, vars)[i] == encode_term(ds[i], vars) by {
            if i < ds.len() - 1 {
                assert(encode_rows(ds, vars)[i] == encode_rows(ds.drop_last(), vars)[i]);
                assert(ds.drop_last()[i] == ds[i]);
            }
        }
    }
}

/// The contents of a list of vectors, as character-free sequences.
pub open spec fn deep(s: Seq<Vec<BoolOrDontCare>>) -> Seq<Seq<BoolOrDontCare>>
    decreases s.len(),
{
    if s.len() == 0 {
        Seq::empty()
    } else {
        deep(s.drop_last()).push(s.last()@)
    }
}

/// `deep` maps the list elementwise.
pub proof fn lemma_deep_index(s: Seq<Vec<BoolOrDontCare>>)
    ensures
        deep(s).len() == s.len(),
        forall|i: int| 0 <= i < s.len() ==> #[trigger] deep(s)[i] == s[i]@,
    decreases s.len(),
{
    if s.len() > 0 {
        lemma_deep_index(s.drop_last());
        assert forall|i: int| 0 <= i < s.len() implies #[trigger] deep(s)[i] == s[i]@ by {
            if i < s.len() - 1 {
                assert(deep(s)[i] == deep(s.drop_last())[i]);
                assert(s.drop_last()[i] == s[i]);
            }
        }
    }
}

/// Stable insertion of a vector into a list sorted by population count.
pub open spec fn ins_row(t: Seq<Seq<BoolOrDontCare>>, x: Seq<BoolOrDontCare>)
    -> Seq<Seq<BoolOrDontCare>>
    decreases t.len(),
{
    if t.len() == 0 {
        seq![x]
    } else if ones(t.last()) > ones(x) {
        ins_row(t.drop_last(), x).push(t.last())
    } else {
        t.push(x)
    }
}

/// Stable sort of a list of vectors by ascending population count.
pub open spec fn sort_rows(s: Seq<Seq<BoolOrDontCare>>) -> Seq<Seq<BoolOrDontCare>>
    decreases s.len(),
{
    if s.len() == 0 {
        Seq::empty()
    } else {
        ins_row(sort_rows(s.drop_last()), s.last())
    }
}

/// The list is ordered by ascending population count.
pub open spec fn sorted_by_ones(s: Seq<Seq<BoolOrDontCare>>) -> bool {
    forall|i: int, j: int| 0 <= i < j < s.len() ==> ones(#[trigger] s[i]) <= ones(#[trigger] s[j])
}

/// Stable insertion keeps the list sorted by population count.
proof fn lemma_ins_row_sorted(t: Seq<Seq<BoolOrDontCare>>, x: Seq<BoolOrDontCare>)
    requires
        sorted_by_ones(t),
    ensures
        sorted_by_ones(ins_row(t, x)),
        ins_row(t, x).len() == t.len() + 1,
        ins_row(t, x).to_multiset() == t.push(x).to_multiset(),
    decreases t.len(),
{
    t.push(x).to_multiset_ensures();
    if t.len() == 0 {
        assert(seq![x] =~= t.push(x));
    } else if ones(t.last()) > ones(x) {
        assert forall|i: int, j: int| 0 <= i < j < t.drop_last().len()
            implies ones(#[trigger] t.drop_last()[i]) <= ones(#[trigger] t.drop_last()[j]) by {
            assert(t.drop_last()[i] == t[i] && t.drop_last()[j] == t[j]);
        }
        lemma_ins_row_sorted(t.drop_last(), x);
        let r = ins_row(t.drop_last(), x);
        r.push(t.last()).to_multiset_ensures();
        r.to_multiset_ensures();
        t.drop_last().push(x).to_multiset_ensures();
        assert(t =~= t.drop_last().push(t.last()));
        t.drop_last().push(t.last()).to_multiset_ensures();
        t.drop_last().to_multiset_ensures();
        t.push(x).to_multiset_ensures();
        assert(r.push(t.last()).to_multiset() =~= t.push(x).to_multiset());
        // sortedness: everything in r is at most ones(x) or from t.drop_last()
        assert forall|i: int, j: int| 0 <= i < j < r.push(t.last()).len()
            implies ones(#[trigger] r.push(t.last())[i]) <= ones(#[trigger] r.push(t.last())[j]) by {
            if j < r.len() {
            } else {
                // j is the reinstated last element; every member of r is a
                // member of t.drop_last() or x, all of count at most
                // ones(t.last())
                let ri = r.push(t.last())[i];
                assert(r.to_multiset().contains(ri)) by {
                    r.to_multiset_ensures();
                }
                t.drop_last().push(x).to_multiset_ensures();
                assert(t.drop_last().push(x).to_multiset().contains(ri));
                assert(t.drop_last().push(x).contains(ri));
                let w = choose|w: int| 0 <= w < t.drop_last().push(x).len()
                    && t.drop_last().push(x)[w] == ri;
                if w < t.drop_last().len() {
                    assert(ones(t[w]) <= ones(t[t.len() - 1]));
                } else {
                    assert(ri == x);
                }
            }
        }
    } else {
        assert forall|i: int, j: int| 0 <= i < j < t.push(x).len()
            implies ones(#[trigger] t.push(x)[i]) <= ones(#[trigger] t.push(x)[j]) by {
            if j < t.len() {
            } else {
                assert(ones(t[t.len() - 1]) <= ones(x));
                if i < t.len() - 1 {
                    assert(ones(t[i]) <= ones(t[t.len() - 1]));
                }
            }
        }
    }
}

/// Sorting by population count sorts and permutes.
pub proof fn lemma_sort_rows_sorted(s: Seq<Seq<BoolOrDontCare>>)
    ensures
        sorted_by_ones(sort_rows(s)),
        sort_rows(s).len() == s.len(),
        sort_rows(s).to_multiset() == s.to_multiset(),
    decreases s.len(),
{
    s.to_multiset_ensures();
    if s.len() == 0 {
        assert(s =~= Seq::<Seq<BoolOrDontCare>>::empty());
    } else {
        lemma_sort_rows_sorted(s.drop_last());
        lemma_ins_row_sorted(sort_rows(s.drop_last()), s.last());
        assert(s =~= s.drop_last().push(s.last()));
        s.drop_last().push(s.last()).to_multiset_ensures();
        s.drop_last().to_multiset_ensures();
        sort_rows(s.drop_last()).push(s.last()).to_multiset_ensures();
        sort_rows(s.drop_last()).to_multiset_ensures();
        assert(sort_rows(s.drop_last()).push(s.last()).to_multiset() =~= s.to_multiset());
    }
}


/// A variable list agreeing with a set of names: sorted, duplicate-free,
/// and holding exactly those names.
pub open spec fn sorted_var_list(vars: Seq<Seq<char>>, names: Set<Seq<char>>) -> bool {
    &&& forall|i: int, j: int| 0 <= i < j < vars.len()
        ==> lex_lt(#[trigger] vars[i], #[trigger] vars[j])
    &&& vars.to_set() == names
}

/// The count-grouped minterm table of a disjunction's encoded rows over a
/// variable list: the groups flatten to the stable count-sort of the
/// rows, every group is a nonempty run of one population count, and the
/// counts ascend.
pub open spec fn table_for(
    t: Seq<(usize, Vec<Vec<BoolOrDontCare>>)>,
    ds: Seq<ExprV>,
    vars: Seq<Seq<char>>,
) -> bool {
    &&& deep(flatten_groups(t)) == sort_rows(encode_rows(ds, vars))
    &&& forall|i: int| 0 <= i < t.len() ==> #[trigger] t[i].1@.len() > 0
    &&& forall|i: int, j: int| 0 <= i < t.len() && 0 <= j < t[i].1@.len()
        ==> ones(#[trigger] t[i].1@[j]@) == t[i].0
    &&& forall|i: int| 0 <= i < t.len() - 1 ==> #[trigger] t[i].0 < t[i + 1].0
}

/// A table correct for some variable list of the expression; the list is
/// unique, since it is sorted and duplicate-free.
pub open spec fn encodes(t: Seq<(usize, Vec<Vec<BoolOrDontCare>>)>, e: ExprV) -> bool {
    exists|vars: Seq<Seq<char>>| #[trigger] table_ok(t, e, vars)
}

/// The whole contract of the encoder's successful result.
pub open spec fn table_ok(
    t: Seq<(usize, Vec<Vec<BoolOrDontCare>>)>,
    e: ExprV,
    vars: Seq<Seq<char>>,
) -> bool {
    &&& sorted_var_list(vars, vars_of(e))
    &&& table_for(t, disjuncts(e), vars)
}

/// Whether a formula is a literal.
fn lit_ok(t: &Expr) -> (r: bool)
    ensures
        r == lit_shape(t@),
{
    proof {
        crate::sast::lemma_variant(*t);
    }
    match t {
        Expr::Var(_) => true,
        Expr::Not(w) => {
            proof {
                crate::sast::lemma_variant(**w);
            }
            matches!(&**w, Expr::Var(_))
        },
        _ => false,
    }
}

/// Whether a formula is a conjunctive term.
#[verifier::loop_isolation(false)]
fn term_ok(t: &Expr) -> (r: bool)
    ensures
        r == term_shape(t@),
{
    proof {
        crate::sast::lemma_variant(*t);
    }
    match t {
        Expr::And(v) => {
            proof {
                lemma_models_index(v@);
                assert(t@ == ExprV::And(models(v@)));
            }
            let mut i: usize = 0;
            while i < v.len()
                invariant
                    i <= v.len(),
                    t@ == ExprV::And(models(v@)),
                    forall|j: int| 0 <= j < i ==> lit_shape(#[trigger] models(v@)[j]),
                decreases v.len() - i,
            {
                if !lit_ok(&v[i]) {
                    proof {
                        lemma_models_index(v@);
                        lemma_all_lits_index(models(v@));
                        assert(models(v@)[i as int] == crate::sast::model(v@[i as int]));
                        assert(!lit_shape(models(v@)[i as int]));
                        assert(!term_shape(t@));
                    }
                    return false;
                }
                i = i + 1;
            }
            proof {
                lemma_all_lits_index(models(v@));
                assert(term_shape(t@));
            }
            true
        },
        _ => {
            let r0 = lit_ok(t);
            proof {
                assert(!(t@ is And));
                assert(term_shape(t@) == lit_shape(t@));
            }
            r0
        },
    }
}

/// The polarity with which a variable appears in a literal list, scanning
/// in order; the first occurrence decides.
#[verifier::loop_isolation(false)]
fn sign_scan(v: &Vec<Expr>, x: &str) -> (r: BoolOrDontCare)
    requires
        forall|j: int| 0 <= j < models(v@).len() ==> lit_shape(#[trigger] models(v@)[j]),
    ensures
        r == sign_in(models(v@), x@),
{
    let ghost lits = models(v@);
    proof {
        lemma_models_index(v@);
        assert(lits.skip(0) =~= lits);
    }
    let mut j: usize = 0;
    while j < v.len()
        invariant
            j <= v.len(),
            sign_in(lits, x@) == sign_in(lits.skip(j as int), x@),
        decreases v.len() - j,
    {
        proof {
            assert(lits.skip(j as int)[0] == lits[j as int]);
            assert(lits.skip(j as int).drop_first() =~= lits.skip(j + 1));
            crate::sast::lemma_variant(v@[j as int]);
        }
        match &v[j] {
            Expr::Var(n) => {
                let c = crate::order::str_compare(n.as_str(), x);
                if c == crate::order::Comparison::Equal {
                    proof {
                        assert(lits[j as int] == ExprV::Var(x@));
                    }
                    return BoolOrDontCare::One;
                }
                proof {
                    assert(lits[j as int] != ExprV::Var(x@));
                    assert(lits[j as int] != ExprV::Not(Box::new(ExprV::Var(x@))));
                }
            },
            Expr::Not(w) => {
                proof {
                    crate::sast::lemma_variant(**w);
                }
                match &**w {
                    Expr::Var(n) => {
                        let c = crate::order::str_compare(n.as_str(), x);
                        if c == crate::order::Comparison::Equal {
                            proof {
                                assert(lits[j as int] == ExprV::Not(Box::new(ExprV::Var(x@))));
                            }
                            return BoolOrDontCare::Zero;
                        }
                        proof {
                            assert(lits[j as int] != ExprV::Var(x@));
                            assert(lits[j as int] != ExprV::Not(Box::new(ExprV::Var(x@))));
                        }
                    },
                    _ => {
                        proof {
                            assert(lit_shape(lits[j as int]));
                            assert(false);
                        }
                    },
                }
            },
            _ => {
                proof {
                    assert(lit_shape(lits[j as int]));
                    assert(false);
                }
            },
        }
        j = j + 1;
    }
    proof {
        assert(lits.skip(v@.len() as int).len() == 0);
    }
    BoolOrDontCare::DontCare
}

/// The ternary vector one conjunctive term encodes to.
#[verifier::loop_isolation(false)]
fn encode_one(t: &Expr, vars: &Vec<String>) -> (row: Vec<BoolOrDontCare>)
    requires
        term_shape(t@),
    ensures
        row@ == encode_term(t@, names_of(vars@)),
{
    let ghost nv = names_of(vars@);
    proof {
        lemma_names_of_index(vars@);
        crate::sast::lemma_variant(*t);
        reveal_with_fuel(sign_in, 3);
    }
    let mut row: Vec<BoolOrDontCare> = Vec::new();
    let mut i: usize = 0;
    while i < vars.len()
        invariant
            i <= vars.len(),
            row@.len() == i,
            forall|k: int| 0 <= k < i
                ==> #[trigger] row@[k] == sign_in(term_lits(t@), nv[k]),
        decreases vars.len() - i,
    {
        let s = match t {
            Expr::And(v) => {
                proof {
                    assert(term_lits(t@) == models(v@));
                    lemma_models_index(v@);
                    lemma_all_lits_index(models(v@));
                }
                sign_scan(v, vars[i].as_str())
            },
            Expr::Var(n) => {
                proof {
                    assert(term_lits(t@) =~= seq![t@]);
                    assert(term_lits(t@)[0] == t@);
                    assert(term_lits(t@).drop_first() =~= Seq::<ExprV>::empty());
                }
                let c = crate::order::str_compare(n.as_str(), vars[i].as_str());
                if c == crate::order::Comparison::Equal {
                    proof {
                        assert(t@ == ExprV::Var(nv[i as int]));
                    }
                    BoolOrDontCare::One
                } else {
                    proof {
                        assert(t@ != ExprV::Var(nv[i as int]));
                        assert(t@ != ExprV::Not(Box::new(ExprV::Var(nv[i as int]))));
                    }
                    BoolOrDontCare::DontCare
                }
            },
            Expr::Not(w) => {
                proof {
                    crate::sast::lemma_variant(**w);
                    assert(term_lits(t@) =~= seq![t@]);
                    assert(term_lits(t@)[0] == t@);
                    assert(term_lits(t@).drop_first() =~= Seq::<ExprV>::empty());
                }
                match &**w {
                    Expr::Var(n) => {
                        let c = crate::order::str_compare(n.as_str(), vars[i].as_str());
                        if c == crate::order::Comparison::Equal {
                            proof {
                                assert(t@ == ExprV::Not(Box::new(ExprV::Var(nv[i as int]))));
                                assert(t@ != ExprV::Var(nv[i as int]));
                            }
                            BoolOrDontCare::Zero
                        } else {
                            proof {
                                assert(t@ != ExprV::Var(nv[i as int]));
                                assert(t@ != ExprV::Not(Box::new(ExprV::Var(nv[i as int]))));
                            }
                            BoolOrDontCare::DontCare
                        }
                    },
                    _ => {
                        proof {
                            assert(false);
                        }
                        BoolOrDontCare::DontCare
                    },
                }
            },
            _ => {
                proof {
                    assert(false);
                }
                BoolOrDontCare::DontCare
            },
        };
        row.push(s);
        i = i + 1;
    }
    proof {
        assert(row@ =~= encode_term(t@, nv));
    }
    row
}


/// Inserting below the trailing run of strictly heavier vectors places
/// the vector exactly at the scanned position.
proof fn lemma_ins_row_split(t: Seq<Seq<BoolOrDontCare>>, x: Seq<BoolOrDontCare>, i: int)
    requires
        0 <= i <= t.len(),
        i == 0 || !(ones(t[i - 1]) > ones(x)),
        forall|j: int| i <= j < t.len() ==> ones(#[trigger] t[j]) > ones(x),
    ensures
        ins_row(t, x) == t.take(i).push(x) + t.skip(i),
    decreases t.len() - i,
{
    if i == t.len() {
        if t.len() == 0 {
            assert(ins_row(t, x) =~= t.take(i).push(x) + t.skip(i));
        } else {
            assert(!(ones(t.last()) > ones(x)));
            assert(t.take(i) =~= t);
            assert(ins_row(t, x) =~= t.take(i).push(x) + t.skip(i));
        }
    } else {
        assert(ones(t.last()) > ones(x));
        assert forall|j: int| i <= j < t.drop_last().len()
            implies ones(#[trigger] t.drop_last()[j]) > ones(x) by {
            assert(t.drop_last()[j] == t[j]);
        }
        if i > 0 {
            assert(t.drop_last()[i - 1] == t[i - 1]);
        }
        lemma_ins_row_split(t.drop_last(), x, i);
        assert(t.drop_last().take(i) =~= t.take(i));
        assert(ins_row(t, x) =~= t.take(i).push(x) + t.skip(i)) by {
            assert(ins_row(t.drop_last(), x) == t.take(i).push(x) + t.drop_last().skip(i));
        }
    }
}

/// A copy of a ternary vector.
fn copy_row(v: &Vec<BoolOrDontCare>) -> (r: Vec<BoolOrDontCare>)
    ensures
        r@ == v@,
{
    let mut r: Vec<BoolOrDontCare> = Vec::new();
    let mut i: usize = 0;
    while i < v.len()
        invariant
            i <= v.len(),
            r@ == v@.take(i as int),
        decreases v.len() - i,
    {
        r.push(v[i]);
        proof {
            assert(r@ =~= v@.take(i + 1));
        }
        i = i + 1;
    }
    proof {
        assert(v@.take(v@.len() as int) =~= v@);
    }
    r
}

/// Places a vector into a list sorted by population count, at the stable
/// position.
fn insert_row(out: &mut Vec<Vec<BoolOrDontCare>>, x: Vec<BoolOrDontCare>)
    ensures
        deep(final(out)@) == ins_row(deep(old(out)@), x@),
{
    let ghost t = deep(out@);
    proof {
        lemma_deep_index(out@);
    }
    let cx = count_ones(&x);
    let mut i: usize = out.len();
    loop
        invariant_except_break
            i <= out.len(),
            out@ == old(out)@,
            t == deep(out@),
            cx == ones(x@),
            forall|j: int| i <= j < t.len() ==> ones(#[trigger] t[j]) > ones(x@),
        ensures
            i <= out.len(),
            out@ == old(out)@,
            forall|j: int| i <= j < t.len() ==> ones(#[trigger] t[j]) > ones(x@),
            i > 0 ==> !(ones(t[i as int - 1]) > ones(x@)),
        decreases i,
    {
        if i == 0 {
            break;
        }
        proof {
            lemma_deep_index(out@);
            assert(t[i as int - 1] == out@[i as int - 1]@);
        }
        let c = count_ones(&out[i - 1]);
        if c > cx {
            i = i - 1;
        } else {
            break;
        }
    }
    proof {
        lemma_ins_row_split(t, x@, i as int);
    }
    let ghost before = out@;
    let ghost pos = i as int;
    proof {
        before.insert_ensures(pos, x);
    }
    out.insert(i, x);
    proof {
        lemma_deep_index(out@);
        lemma_deep_index(before);
        assert(deep(out@) =~= t.take(pos).push(x@) + t.skip(pos)) by {
            assert forall|j: int| 0 <= j < out@.len()
                implies deep(out@)[j] == (t.take(pos).push(x@) + t.skip(pos))[j] by {
                if j < pos {
                    assert(out@[j] == before[j]);
                } else if j > pos {
                    assert(out@[j] == before[j - 1]);
                }
            }
        }
    }
}

/// Sorts a list of vectors stably by ascending population count.
#[verifier::loop_isolation(false)]
fn sort_vecs_by_ones(rows: Vec<Vec<BoolOrDontCare>>) -> (out: Vec<Vec<BoolOrDontCare>>)
    ensures
        deep(out@) == sort_rows(deep(rows@)),
{
    let ghost dr = deep(rows@);
    proof {
        lemma_deep_index(rows@);
        assert(dr.take(0) =~= Seq::<Seq<BoolOrDontCare>>::empty());
    }
    let mut out: Vec<Vec<BoolOrDontCare>> = Vec::new();
    let mut k: usize = 0;
    while k < rows.len()
        invariant
            k <= rows.len(),
            deep(out@) == sort_rows(dr.take(k as int)),
        decreases rows.len() - k,
    {
        proof {
            assert(dr.take(k + 1).drop_last() =~= dr.take(k as int));
            assert(dr.take(k + 1).last() == dr[k as int]);
            assert(dr[k as int] == rows@[k as int]@);
        }
        let x = copy_row(&rows[k]);
        insert_row(&mut out, x);
        k = k + 1;
    }
    proof {
        assert(dr.take(rows@.len() as int) =~= dr);
    }
    out
}

/// The last row of a table whose groups are nonempty is the last row of
/// its last group.
proof fn lemma_flatten_last(g: Seq<(usize, Vec<Vec<BoolOrDontCare>>)>)
    requires
        g.len() > 0,
        g.last().1@.len() > 0,
    ensures
        flatten_groups(g).len() >= g.last().1@.len(),
        flatten_groups(g).last() == g.last().1@.last(),
{
}

/// In a table of nonempty constant-count runs whose rows ascend by count
/// and whose neighbouring runs have different counts, the counts ascend
/// strictly.
proof fn lemma_group_keys(t: Seq<(usize, Vec<Vec<BoolOrDontCare>>)>)
    requires
        sorted_by_ones(deep(flatten_groups(t))),
        forall|i: int| 0 <= i < t.len() ==> #[trigger] t[i].1@.len() > 0,
        forall|i: int, j: int| 0 <= i < t.len() && 0 <= j < t[i].1@.len()
            ==> ones(#[trigger] t[i].1@[j]@) == t[i].0,
        forall|i: int| 0 <= i < t.len() - 1 ==> #[trigger] t[i].0 != t[i + 1].0,
    ensures
        forall|i: int| 0 <= i < t.len() - 1 ==> #[trigger] t[i].0 < t[i + 1].0,
    decreases t.len(),
{
    if t.len() >= 2 {
        let dl = t.drop_last();
        let fl = flatten_groups(t);
        let fld = flatten_groups(dl);
        assert(fl == fld + t.last().1@);
        lemma_deep_index(fl);
        lemma_deep_index(fld);
        assert forall|i: int, j: int| 0 <= i < j < deep(fld).len()
            implies ones(#[trigger] deep(fld)[i]) <= ones(#[trigger] deep(fld)[j]) by {
            assert(fl[i] == fld[i] && fl[j] == fld[j]);
            assert(deep(fl)[i] == deep(fld)[i] && deep(fl)[j] == deep(fld)[j]);
        }
        assert forall|i: int| 0 <= i < dl.len() implies #[trigger] dl[i].1@.len() > 0 by {
            assert(dl[i] == t[i]);
        }
        assert forall|i: int, j: int| 0 <= i < dl.len() && 0 <= j < dl[i].1@.len()
            implies ones(#[trigger] dl[i].1@[j]@) == dl[i].0 by {
            assert(dl[i] == t[i]);
        }
        assert forall|i: int| 0 <= i < dl.len() - 1 implies #[trigger] dl[i].0 != dl[i + 1].0 by {
            assert(dl[i] == t[i] && dl[i + 1] == t[i + 1]);
        }
        lemma_group_keys(dl);
        // the boundary between the last two groups
        assert(dl.last() == t[t.len() - 2]);
        lemma_flatten_last(dl);
        let p = fld.len() - 1;
        assert(fld.len() >= t[t.len() - 2].1@.len());
        assert(fl[p] == fld[p]);
        assert(fld[p] == t[t.len() - 2].1@.last());
        assert(fl[p + 1] == t.last().1@[0]);
        assert(ones(deep(fl)[p]) == t[t.len() - 2].0) by {
            assert(deep(fl)[p] == fl[p]@);
            assert(ones(t[t.len() - 2].1@[t[t.len() - 2].1@.len() - 1]@) == t[t.len() - 2].0);
        }
        assert(ones(deep(fl)[p + 1]) == t[t.len() - 1].0) by {
            assert(deep(fl)[p + 1] == fl[p + 1]@);
            assert(ones(t[t.len() - 1].1@[0]@) == t[t.len() - 1].0);
        }
        assert(ones(deep(fl)[p]) <= ones(deep(fl)[p + 1]));
        assert forall|i: int| 0 <= i < t.len() - 1 implies #[trigger] t[i].0 < t[i + 1].0 by {
            if i < t.len() - 2 {
                assert(dl[i].0 < dl[i + 1].0);
                assert(dl[i] == t[i] && dl[i + 1] == t[i + 1]);
            }
        }
    }
}

/// Encodes a canonical disjunction of conjunctive terms into its
/// count-grouped minterm table over a given variable list: one ternary
/// vector per disjunct, vectors sorted stably by ascending population
/// count and grouped into runs of one count.  A formula of any other
/// shape is rejected whole.
#[verifier::loop_isolation(false)]
#[verifier::rlimit(100)]
pub fn encode(r: &Expr, vars: &Vec<String>)
    -> (res: Result<Vec<(usize, Vec<Vec<BoolOrDontCare>>)>, String>)
    ensures
        res is Ok <==> dnf_shape(r@),
        res matches Ok(t) ==> table_for(t@, disjuncts(r@), names_of(vars@)),
{
    proof {
        crate::sast::lemma_variant(*r);
    }
    match r {
        Expr::Or(ds) => {
            let ghost dsm = models(ds@);
            let ghost nv = names_of(vars@);
            proof {
                lemma_models_index(ds@);
                lemma_names_of_index(vars@);
                assert(r@ == ExprV::Or(dsm));
                assert(disjuncts(r@) == dsm);
                assert(encode_rows(dsm.take(0), nv) =~= Seq::<Seq<BoolOrDontCare>>::empty());
            }
            let mut rows: Vec<Vec<BoolOrDontCare>> = Vec::new();
            let mut i: usize = 0;
            while i < ds.len()
                invariant
                    i <= ds.len(),
                    deep(rows@) == encode_rows(dsm.take(i as int), nv),
                    forall|j: int| 0 <= j < i ==> term_shape(#[trigger] dsm[j]),
                decreases ds.len() - i,
            {
                proof {
                    assert(dsm[i as int] == ds@[i as int]@);
                }
                if !term_ok(&ds[i]) {
                    proof {
                        lemma_all_terms_index(dsm);
                        assert(!dnf_shape(r@));
                    }
                    return Err("a disjunct is not a conjunction of literals".to_owned());
                }
                let ghost prev = rows@;
                let row = encode_one(&ds[i], vars);
                rows.push(row);
                proof {
                    assert(dsm.take(i + 1).drop_last() =~= dsm.take(i as int));
                    assert(dsm.take(i + 1).last() == dsm[i as int]);
                    assert(rows@.drop_last() =~= prev);
                    assert(deep(rows@) == encode_rows(dsm.take(i + 1), nv));
                }
                i = i + 1;
            }
            proof {
                lemma_all_terms_index(dsm);
                assert(dnf_shape(r@));
                assert(dsm.take(ds@.len() as int) =~= dsm);
            }
            let sorted = sort_vecs_by_ones(rows);
            let t = group_runs_by_ones(sorted);
            proof {
                lemma_sort_rows_sorted(encode_rows(dsm, nv));
                assert(deep(flatten_groups(t@)) == sort_rows(encode_rows(dsm, nv)));
                lemma_group_keys(t@);
                assert(table_for(t@, disjuncts(r@), nv));
            }
            Ok(t)
        },
        _ => {
            proof {
                assert(!dnf_shape(r@));
            }
            Err("the root is not a disjunction of conjunctive terms".to_owned())
        },
    }
}

/// Encodes a canonical disjunction of conjunctive terms over the
/// expression's own sorted variable list, discovered by the variable
/// collector.
pub fn build_number(r: &Expr) -> (res: Result<Vec<(usize, Vec<Vec<BoolOrDontCare>>)>, String>)
    ensures
        res is Ok <==> dnf_shape(r@),
        res matches Ok(t) ==> encodes(t@, r@),
{
    let vars = r.terms();
    let ghost nv = names_of(vars@);
    proof {
        lemma_names_of_index(vars@);
        assert forall|i: int, j: int| 0 <= i < j < nv.len()
            implies lex_lt(#[trigger] nv[i], #[trigger] nv[j]) by {
            assert(lex_lt(vars@[i]@, vars@[j]@));
        }
        assert(nv.to_set() =~= vars_of(r@)) by {
            assert forall|n: Seq<char>| nv.to_set().contains(n)
                implies vars_of(r@).contains(n) by {
                let w = choose|w: int| 0 <= w < nv.len() && nv[w] == n;
                assert(vars@[w]@ == n);
                assert(name_set(vars@).contains(n));
            }
            assert forall|n: Seq<char>| vars_of(r@).contains(n)
                implies nv.to_set().contains(n) by {
                assert(name_set(vars@).contains(n));
                let w = choose|w: int| 0 <= w < vars@.len() && #[trigger] vars@[w]@ == n;
                assert(nv[w] == n);
            }
        }
    }
    let res = encode(r, &vars);
    proof {
        if res is Ok {
            assert(table_ok(res->Ok_0@, r@, nv));
            assert(encodes(res->Ok_0@, r@));
        }
    }
    res
}


/// The number of positions at which two equal-length vectors differ.
pub open spec fn diff_count(a: Seq<BoolOrDontCare>, b: Seq<BoolOrDontCare>) -> nat
    decreases a.len(),
{
    if a.len() == 0 || b.len() == 0 {
        0
    } else {
        diff_count(a.drop_last(), b.drop_last())
            + (if a.last() == b.last() { 0nat } else { 1nat })
    }
}

/// Two vectors merged: agreeing positions kept, differing positions
/// blanked to don't-care.
pub open spec fn merge_vec(a: Seq<BoolOrDontCare>, b: Seq<BoolOrDontCare>)
    -> Seq<BoolOrDontCare> {
    Seq::new(a.len(), |i: int| if a[i] == b[i] { a[i] } else { BoolOrDontCare::DontCare })
}

/// Position `p` is the one place two vectors differ, and there one is
/// `One` and the other `Zero`.
pub open spec fn merge_pos(a: Seq<BoolOrDontCare>, b: Seq<BoolOrDontCare>, p: int) -> bool {
    &&& 0 <= p < a.len()
    &&& a.len() == b.len()
    &&& forall|q: int| 0 <= q < a.len() && q != p ==> #[trigger] a[q] == b[q]
    &&& ((a[p] is One && b[p] is Zero) || (a[p] is Zero && b[p] is One))
}

/// Two vectors are adjacent: they differ in exactly one position, and not
/// through a don't-care.
pub open spec fn mergeable(a: Seq<BoolOrDontCare>, b: Seq<BoolOrDontCare>) -> bool {
    exists|p: int| merge_pos(a, b, p)
}

/// The value of the `One`/`Zero` pattern read as a binary number, most
/// significant bit first; don't-care positions contribute nothing.
pub open spec fn value_of(s: Seq<BoolOrDontCare>) -> nat
    decreases s.len(),
{
    if s.len() == 0 {
        0
    } else {
        match s.last() {
            BoolOrDontCare::One => 2 * value_of(s.drop_last()) + 1,
            BoolOrDontCare::Zero => 2 * value_of(s.drop_last()),
            BoolOrDontCare::DontCare => value_of(s.drop_last()),
        }
    }
}

/// The value of a vector is below two to its length.
pub proof fn lemma_value_bound(s: Seq<BoolOrDontCare>)
    ensures
        value_of(s) < vstd::arithmetic::power2::pow2(s.len()),
    decreases s.len(),
{
    vstd::arithmetic::power2::lemma_pow2_pos(s.len());
    if s.len() > 0 {
        lemma_value_bound(s.drop_last());
        vstd::arithmetic::power2::lemma_pow2_unfold(s.len());
        vstd::arithmetic::power2::lemma_pow2_pos((s.len() - 1) as nat);
    }
}

/// Whether two vectors hold the same entries.
pub fn eq_row(a: &Vec<BoolOrDontCare>, b: &Vec<BoolOrDontCare>) -> (r: bool)
    ensures
        r == (a@ == b@),
{
    if a.len() != b.len() {
        return false;
    }
    let mut i: usize = 0;
    while i < a.len()
        invariant
            i <= a.len(),
            a@.len() == b@.len(),
            forall|j: int| 0 <= j < i ==> #[trigger] a@[j] == b@[j],
        decreases a.len() - i,
    {
        if a[i] != b[i] {
            return false;
        }
        i = i + 1;
    }
    proof {
        assert(a@ =~= b@);
    }
    true
}

/// Counts the positions at which two vectors differ.
pub fn count_diff(a: &Vec<BoolOrDontCare>, b: &Vec<BoolOrDontCare>) -> (r: usize)
    requires
        a@.len() == b@.len(),
    ensures
        r == diff_count(a@, b@),
{
    let mut n: usize = 0;
    let mut i: usize = 0;
    while i < a.len()
        invariant
            i <= a.len(),
            a@.len() == b@.len(),
            n == diff_count(a@.take(i as int), b@.take(i as int)),
            n <= i,
        decreases a.len() - i,
    {
        proof {
            assert(a@.take(i + 1).drop_last() =~= a@.take(i as int));
            assert(b@.take(i + 1).drop_last() =~= b@.take(i as int));
            assert(a@.take(i + 1).last() == a@[i as int]);
            assert(b@.take(i + 1).last() == b@[i as int]);
        }
        if a[i] != b[i] {
            n = n + 1;
        }
        i = i + 1;
    }
    proof {
        assert(a@.take(a@.len() as int) =~= a@);
        assert(b@.take(b@.len() as int) =~= b@);
    }
    n
}

/// The merged vector of two equal-length vectors: agreeing positions
/// kept, the differing position blanked to don't-care.
pub fn diff(a: &Vec<BoolOrDontCare>, b: &Vec<BoolOrDontCare>) -> (r: Vec<BoolOrDontCare>)
    requires
        a@.len() == b@.len(),
    ensures
        r@ == merge_vec(a@, b@),
{
    let mut r: Vec<BoolOrDontCare> = Vec::new();
    let mut i: usize = 0;
    while i < a.len()
        invariant
            i <= a.len(),
            a@.len() == b@.len(),
            r@.len() == i,
            forall|j: int| 0 <= j < i ==> #[trigger] r@[j] == merge_vec(a@, b@)[j],
        decreases a.len() - i,
    {
        if a[i] == b[i] {
            r.push(a[i]);
        } else {
            r.push(BoolOrDontCare::DontCare);
        }
        i = i + 1;
    }
    proof {
        assert(r@ =~= merge_vec(a@, b@));
    }
    r
}

/// The binary value of a vector's `One`/`Zero` pattern.
pub fn number(a: &Vec<BoolOrDontCare>) -> (r: u64)
    requires
        a@.len() <= 63,
    ensures
        r == value_of(a@),
{
    proof {
        lemma_value_bound(a@);
    }
    let mut v: u64 = 0;
    let mut i: usize = 0;
    while i < a.len()
        invariant
            i <= a.len(),
            a@.len() <= 63,
            v == value_of(a@.take(i as int)),
        decreases a.len() - i,
    {
        proof {
            assert(a@.take(i + 1).drop_last() =~= a@.take(i as int));
            assert(a@.take(i + 1).last() == a@[i as int]);
            lemma_value_bound(a@.take(i + 1));
            vstd::arithmetic::power2::lemma_pow2_adds(a@.take(i + 1).len(), (63 - i) as nat);
            vstd::arithmetic::power2::lemma_pow2_pos((63 - i) as nat);
            assert(vstd::arithmetic::power2::pow2(63) <= u64::MAX) by {
                vstd::arithmetic::power2::lemma2_to64();
                vstd::arithmetic::power2::lemma2_to64_rest();
            }
            assert(vstd::arithmetic::power2::pow2(a@.take(i + 1).len())
                <= vstd::arithmetic::power2::pow2(63)) by {
                if a@.take(i + 1).len() < 63 {
                    vstd::arithmetic::power2::lemma_pow2_strictly_increases(
                        a@.take(i + 1).len(), 63);
                }
            }
        }
        match a[i] {
            BoolOrDontCare::One => {
                v = 2 * v + 1;
            },
            BoolOrDontCare::Zero => {
                v = 2 * v;
            },
            BoolOrDontCare::DontCare => {},
        }
        i = i + 1;
    }
    proof {
        assert(a@.take(a@.len() as int) =~= a@);
    }
    v
}


/// The table's contents: each group's key with its rows.
pub open spec fn tview(t: Seq<(usize, Vec<Vec<BoolOrDontCare>>)>)
    -> Seq<(usize, Seq<Seq<BoolOrDontCare>>)>
    decreases t.len(),
{
    if t.len() == 0 {
        Seq::empty()
    } else {
        tview(t.drop_last()).push((t.last().0, deep(t.last().1@)))
    }
}

/// `tview` maps the table elementwise.
pub proof fn lemma_tview_index(t: Seq<(usize, Vec<Vec<BoolOrDontCare>>)>)
    ensures
        tview(t).len() == t.len(),
        forall|i: int| 0 <= i < t.len()
            ==> #[trigger] tview(t)[i] == (t[i].0, deep(t[i].1@)),
    decreases t.len(),
{
    if t.len() > 0 {
        lemma_tview_index(t.drop_last());
        assert forall|i: int| 0 <= i < t.len()
            implies #[trigger] tview(t)[i] == (t[i].0, deep(t[i].1@)) by {
            if i < t.len() - 1 {
                assert(tview(t)[i] == tview(t.drop_last())[i]);
                assert(t.drop_last()[i] == t[i]);
            }
        }
    }
}

/// The merge records one row of the higher group makes against a lower
/// group, in the lower group's order.
pub open spec fn row_merges(j: Seq<BoolOrDontCare>, prev: Seq<Seq<BoolOrDontCare>>)
    -> Seq<(Seq<BoolOrDontCare>, Seq<BoolOrDontCare>, Seq<BoolOrDontCare>)>
    decreases prev.len(),
{
    if prev.len() == 0 {
        Seq::empty()
    } else if mergeable(j, prev.last()) {
        row_merges(j, prev.drop_last()).push((j, prev.last(), merge_vec(j, prev.last())))
    } else {
        row_merges(j, prev.drop_last())
    }
}

/// The merge records of a whole group pair, higher rows outermost.
pub open spec fn group_merges(
    cur: Seq<Seq<BoolOrDontCare>>,
    prev: Seq<Seq<BoolOrDontCare>>,
) -> Seq<(Seq<BoolOrDontCare>, Seq<BoolOrDontCare>, Seq<BoolOrDontCare>)>
    decreases cur.len(),
{
    if cur.len() == 0 {
        Seq::empty()
    } else {
        group_merges(cur.drop_last(), prev) + row_merges(cur.last(), prev)
    }
}

/// All one-bit merges between neighbouring groups whose counts differ by
/// one, walking the table in order.
pub open spec fn merges_spec(tv: Seq<(usize, Seq<Seq<BoolOrDontCare>>)>)
    -> Seq<(Seq<BoolOrDontCare>, Seq<BoolOrDontCare>, Seq<BoolOrDontCare>)>
    decreases tv.len(),
{
    if tv.len() < 2 {
        Seq::empty()
    } else if tv.last().0 == tv[tv.len() - 2].0 + 1 {
        merges_spec(tv.drop_last()) + group_merges(tv.last().1, tv[tv.len() - 2].1)
    } else {
        merges_spec(tv.drop_last())
    }
}

/// The triples held by a list of merge records.
pub open spec fn trips(s: Seq<(Vec<BoolOrDontCare>, Vec<BoolOrDontCare>, Vec<BoolOrDontCare>)>)
    -> Seq<(Seq<BoolOrDontCare>, Seq<BoolOrDontCare>, Seq<BoolOrDontCare>)>
    decreases s.len(),
{
    if s.len() == 0 {
        Seq::empty()
    } else {
        trips(s.drop_last()).push((s.last().0@, s.last().1@, s.last().2@))
    }
}

/// `trips` maps the records elementwise.
pub proof fn lemma_trips_index(
    s: Seq<(Vec<BoolOrDontCare>, Vec<BoolOrDontCare>, Vec<BoolOrDontCare>)>,
)
    ensures
        trips(s).len() == s.len(),
        forall|i: int| 0 <= i < s.len()
            ==> #[trigger] trips(s)[i] == (s[i].0@, s[i].1@, s[i].2@),
    decreases s.len(),
{
    if s.len() > 0 {
        lemma_trips_index(s.drop_last());
        assert forall|i: int| 0 <= i < s.len()
            implies #[trigger] trips(s)[i] == (s[i].0@, s[i].1@, s[i].2@) by {
            if i < s.len() - 1 {
                assert(trips(s)[i] == trips(s.drop_last())[i]);
                assert(s.drop_last()[i] == s[i]);
            }
        }
    }
}

/// Whether two vectors are adjacent: exactly one differing position, and
/// there one is `One` and the other `Zero`.
pub fn is_mergeable(a: &Vec<BoolOrDontCare>, b: &Vec<BoolOrDontCare>) -> (r: bool)
    ensures
        r == mergeable(a@, b@),
{
    if a.len() != b.len() {
        proof {
            assert(!mergeable(a@, b@)) by {
                if mergeable(a@, b@) {
                    let p = choose|p: int| merge_pos(a@, b@, p);
                }
            }
        }
        return false;
    }
    let mut found: usize = 0;
    let mut have: bool = false;
    let mut i: usize = 0;
    while i < a.len()
        invariant
            i <= a.len(),
            a@.len() == b@.len(),
            have ==> found < i,
            have ==> merge_pos(a@, b@, found as int) || !mergeable(a@, b@),
            have ==> a@[found as int] != b@[found as int],
            !have ==> forall|q: int| 0 <= q < i ==> #[trigger] a@[q] == b@[q],
            have ==> forall|q: int| 0 <= q < i && q != found ==> #[trigger] a@[q] == b@[q],
        decreases a.len() - i,
    {
        if a[i] != b[i] {
            if have {
                // a second differing position: not adjacent
                proof {
                    assert(!mergeable(a@, b@)) by {
                        if mergeable(a@, b@) {
                            let p = choose|p: int| merge_pos(a@, b@, p);
                            if p != found {
                                assert(a@[found as int] == b@[found as int]);
                            } else {
                                assert(a@[i as int] == b@[i as int]);
                            }
                        }
                    }
                }
                return false;
            }
            found = i;
            have = true;
            proof {
                let ok = (a@[i as int] is One && b@[i as int] is Zero)
                    || (a@[i as int] is Zero && b@[i as int] is One);
                if !ok {
                    assert(!mergeable(a@, b@)) by {
                        if mergeable(a@, b@) {
                            let p = choose|p: int| merge_pos(a@, b@, p);
                            if p != i {
                                assert(a@[i as int] == b@[i as int]);
                            }
                        }
                    }
                }
            }
        }
        i = i + 1;
    }
    if !have {
        proof {
            assert(!mergeable(a@, b@)) by {
                if mergeable(a@, b@) {
                    let p = choose|p: int| merge_pos(a@, b@, p);
                }
            }
        }
        return false;
    }
    let ok = (matches!(a[found], BoolOrDontCare::One) && matches!(b[found], BoolOrDontCare::Zero))
        || (matches!(a[found], BoolOrDontCare::Zero) && matches!(b[found], BoolOrDontCare::One));
    proof {
        if ok {
            assert(merge_pos(a@, b@, found as int));
        } else {
            assert(!mergeable(a@, b@)) by {
                if mergeable(a@, b@) {
                    let p = choose|p: int| merge_pos(a@, b@, p);
                    if p != found {
                        assert(a@[found as int] == b@[found as int]);
                    }
                }
            }
        }
    }
    ok
}

/// Collects every one-bit merge between neighbouring count groups: for
/// each pair of groups whose counts differ by one, each adjacent pair of
/// rows yields a record of the two rows and their merged vector.
#[verifier::loop_isolation(false)]
pub fn merges(t: &Vec<(usize, Vec<Vec<BoolOrDontCare>>)>)
    -> (r: Vec<(Vec<BoolOrDontCare>, Vec<BoolOrDontCare>, Vec<BoolOrDontCare>)>)
    ensures
        trips(r@) == merges_spec(tview(t@)),
{
    let ghost tv = tview(t@);
    proof {
        lemma_tview_index(t@);
    }
    let mut out: Vec<(Vec<BoolOrDontCare>, Vec<BoolOrDontCare>, Vec<BoolOrDontCare>)> =
        Vec::new();
    if t.len() < 2 {
        proof {
            assert(out@ =~= Seq::<(Vec<BoolOrDontCare>, Vec<BoolOrDontCare>,
                Vec<BoolOrDontCare>)>::empty());
            assert(trips(out@) =~= merges_spec(tv));
        }
        return out;
    }
    proof {
        assert(tv.take(1).len() < 2);
        assert(out@ =~= Seq::<(Vec<BoolOrDontCare>, Vec<BoolOrDontCare>,
            Vec<BoolOrDontCare>)>::empty());
        assert(trips(out@) =~= merges_spec(tv.take(1)));
    }
    let mut gi: usize = 1;
    while gi < t.len()
        invariant
            1 <= gi <= t.len(),
            trips(out@) == merges_spec(tv.take(gi as int)),
        decreases t.len() - gi,
    {
        proof {
            assert(tv.take(gi + 1).drop_last() =~= tv.take(gi as int));
            assert(tv.take(gi + 1).last() == tv[gi as int]);
            assert(tv.take(gi + 1)[gi as int - 1] == tv[gi as int - 1]);
        }
        let key_hi = t[gi].0;
        let key_lo = t[gi - 1].0;
        if key_hi > key_lo && key_hi - key_lo == 1 {
            let ghost cur = tv[gi as int].1;
            let ghost prev = tv[gi as int - 1].1;
            proof {
                lemma_deep_index(t@[gi as int].1@);
                lemma_deep_index(t@[gi as int - 1].1@);
                assert(group_merges(cur.take(0), prev) =~=
                    Seq::<(Seq<BoolOrDontCare>, Seq<BoolOrDontCare>, Seq<BoolOrDontCare>)>::empty());
                assert(trips(out@) + group_merges(cur.take(0), prev) =~= trips(out@));
            }
            let ghost base = trips(out@);
            let mut ai: usize = 0;
            while ai < t[gi].1.len()
                invariant
                    ai <= t@[gi as int].1@.len(),
                    trips(out@) == base + group_merges(cur.take(ai as int), prev),
                decreases t@[gi as int].1@.len() - ai,
            {
                proof {
                    assert(cur.take(ai + 1).drop_last() =~= cur.take(ai as int));
                    assert(cur.take(ai + 1).last() == cur[ai as int]);
                    assert(row_merges(cur[ai as int], prev.take(0)) =~=
                        Seq::<(Seq<BoolOrDontCare>, Seq<BoolOrDontCare>, Seq<BoolOrDontCare>)>::empty());
                    assert(trips(out@) + row_merges(cur[ai as int], prev.take(0))
                        =~= trips(out@));
                }
                let ghost base2 = trips(out@);
                let mut bi: usize = 0;
                while bi < t[gi - 1].1.len()
                    invariant
                        bi <= t@[gi as int - 1].1@.len(),
                        trips(out@) == base2 + row_merges(cur[ai as int], prev.take(bi as int)),
                    decreases t@[gi as int - 1].1@.len() - bi,
                {
                    proof {
                        assert(prev.take(bi + 1).drop_last() =~= prev.take(bi as int));
                        assert(prev.take(bi + 1).last() == prev[bi as int]);
                        assert(cur[ai as int] == t@[gi as int].1@[ai as int]@);
                        assert(prev[bi as int] == t@[gi as int - 1].1@[bi as int]@);
                    }
                    let arow = &t[gi].1[ai];
                    let brow = &t[gi - 1].1[bi];
                    if is_mergeable(arow, brow) {
                        let ghost pre = out@;
                        let m = diff(arow, brow);
                        let ca = copy_row(arow);
                        let cb = copy_row(brow);
                        out.push((ca, cb, m));
                        proof {
                            assert(out@.drop_last() =~= pre);
                            assert(trips(out@) =~= base2
                                + row_merges(cur[ai as int], prev.take(bi + 1)));
                        }
                    } else {
                        proof {
                            assert(trips(out@) =~= base2
                                + row_merges(cur[ai as int], prev.take(bi + 1)));
                        }
                    }
                    bi = bi + 1;
                }
                proof {
                    assert(prev.take(prev.len() as int) =~= prev);
                    assert(trips(out@) =~= base + group_merges(cur.take(ai + 1), prev));
                }
                ai = ai + 1;
            }
            proof {
                assert(cur.take(cur.len() as int) =~= cur);
                assert(trips(out@) =~= merges_spec(tv.take(gi + 1)));
            }
        } else {
            proof {
                assert(!(tv.take(gi + 1).last().0 == tv.take(gi + 1)[gi as int - 1].0 + 1));
                assert(trips(out@) == merges_spec(tv.take(gi + 1)));
            }
        }
        gi = gi + 1;
    }
    proof {
        assert(tv.take(t@.len() as int) =~= tv);
    }
    out
}


/// How many merge records mention a vector as one of their two rows.
pub open spec fn usage(
    x: Seq<BoolOrDontCare>,
    ms: Seq<(Seq<BoolOrDontCare>, Seq<BoolOrDontCare>, Seq<BoolOrDontCare>)>,
) -> nat
    decreases ms.len(),
{
    if ms.len() == 0 {
        0
    } else {
        usage(x, ms.drop_last()) + (if ms.last().0 == x || ms.last().1 == x { 1nat } else { 0nat })
    }
}

/// A list of rows with later duplicates removed, first occurrences kept.
pub open spec fn dedup_first(s: Seq<Seq<BoolOrDontCare>>) -> Seq<Seq<BoolOrDontCare>>
    decreases s.len(),
{
    if s.len() == 0 {
        Seq::empty()
    } else if s.drop_last().contains(s.last()) {
        dedup_first(s.drop_last())
    } else {
        dedup_first(s.drop_last()).push(s.last())
    }
}

/// The table with each group's duplicate rows removed.
pub open spec fn dedup_table(tv: Seq<(usize, Seq<Seq<BoolOrDontCare>>)>)
    -> Seq<(usize, Seq<Seq<BoolOrDontCare>>)>
    decreases tv.len(),
{
    if tv.len() == 0 {
        Seq::empty()
    } else {
        dedup_table(tv.drop_last()).push((tv.last().0, dedup_first(tv.last().1)))
    }
}

/// The rows of a table's contents, in order.
pub open spec fn rows_of(tv: Seq<(usize, Seq<Seq<BoolOrDontCare>>)>)
    -> Seq<Seq<BoolOrDontCare>>
    decreases tv.len(),
{
    if tv.len() == 0 {
        Seq::empty()
    } else {
        rows_of(tv.drop_last()) + tv.last().1
    }
}

/// A prime implicant of a table, after its groups are deduplicated: a
/// merged vector one of whose two rows took part in exactly one merge, or
/// a row that took part in none.
pub open spec fn is_prime_of(tv: Seq<(usize, Seq<Seq<BoolOrDontCare>>)>,
    p: Seq<BoolOrDontCare>) -> bool {
    let dt = dedup_table(tv);
    let ms = merges_spec(dt);
    ||| exists|k: int| 0 <= k < ms.len() && (#[trigger] ms[k]).2 == p
        && (usage(ms[k].0, ms) == 1 || usage(ms[k].1, ms) == 1)
    ||| rows_of(dt).contains(p) && usage(p, ms) == 0
}

/// One vector covers another under don't-care matching: wherever the
/// first is constrained, the second agrees.
pub open spec fn covers(p: Seq<BoolOrDontCare>, v: Seq<BoolOrDontCare>) -> bool {
    p.len() == v.len()
        && forall|q: int| 0 <= q < p.len() && !(#[trigger] p[q] is DontCare) ==> p[q] == v[q]
}

/// Counts the merge records that mention a vector.
#[verifier::loop_isolation(false)]
fn usage_count(
    ms: &Vec<(Vec<BoolOrDontCare>, Vec<BoolOrDontCare>, Vec<BoolOrDontCare>)>,
    x: &Vec<BoolOrDontCare>,
) -> (r: usize)
    ensures
        r == usage(x@, trips(ms@)),
{
    let ghost tm = trips(ms@);
    proof {
        lemma_trips_index(ms@);
        assert(tm.take(0) =~= Seq::<(Seq<BoolOrDontCare>, Seq<BoolOrDontCare>,
            Seq<BoolOrDontCare>)>::empty());
    }
    let mut n: usize = 0;
    let mut i: usize = 0;
    while i < ms.len()
        invariant
            i <= ms.len(),
            n == usage(x@, tm.take(i as int)),
            n <= i,
        decreases ms.len() - i,
    {
        proof {
            assert(tm.take(i + 1).drop_last() =~= tm.take(i as int));
            assert(tm.take(i + 1).last() == tm[i as int]);
        }
        let hit0 = eq_row(&ms[i].0, x);
        let hit1 = eq_row(&ms[i].1, x);
        if hit0 || hit1 {
            n = n + 1;
        }
        i = i + 1;
    }
    proof {
        assert(tm.take(ms@.len() as int) =~= tm);
    }
    n
}

/// Adds a vector to a duplicate-free list unless it is already there.
fn push_unique(out: &mut Vec<Vec<BoolOrDontCare>>, x: Vec<BoolOrDontCare>)
    requires
        deep(old(out)@).no_duplicates(),
    ensures
        deep(final(out)@).no_duplicates(),
        forall|y: Seq<BoolOrDontCare>| deep(final(out)@).contains(y)
            <==> deep(old(out)@).contains(y) || y == x@,
{
    let ghost t = deep(out@);
    proof {
        lemma_deep_index(out@);
    }
    let mut i: usize = 0;
    while i < out.len()
        invariant
            i <= out.len(),
            out@ == old(out)@,
            t == deep(out@),
            t.no_duplicates(),
            forall|j: int| 0 <= j < i ==> #[trigger] t[j] != x@,
        decreases out.len() - i,
    {
        proof {
            lemma_deep_index(out@);
            assert(t[i as int] == out@[i as int]@);
        }
        if eq_row(&out[i], &x) {
            proof {
                assert(t.contains(x@)) by {
                    assert(t[i as int] == x@);
                }
                assert forall|y: Seq<BoolOrDontCare>| deep(out@).contains(y)
                    implies deep(out@).contains(y) || y == x@ by {}
            }
            return;
        }
        i = i + 1;
    }
    let ghost before = out@;
    out.push(x);
    proof {
        lemma_deep_index(out@);
        lemma_deep_index(before);
        assert(out@.drop_last() =~= before);
        assert(deep(out@) == t.push(x@));
        assert(!t.contains(x@)) by {
            if t.contains(x@) {
                let w = choose|w: int| 0 <= w < t.len() && t[w] == x@;
            }
        }
        assert(deep(out@).no_duplicates()) by {
            assert forall|a: int, b: int| 0 <= a < b < deep(out@).len()
                implies deep(out@)[a] != deep(out@)[b] by {
                if b < t.len() {
                    assert(t[a] != t[b]);
                } else {
                    assert(deep(out@)[b] == x@);
                    if t[a] == x@ {
                        assert(t.contains(x@));
                    }
                }
            }
        }
        assert forall|y: Seq<BoolOrDontCare>| deep(out@).contains(y)
            implies t.contains(y) || y == x@ by {
            let w = choose|w: int| 0 <= w < deep(out@).len() && deep(out@)[w] == y;
            if w < t.len() {
                assert(t[w] == y);
            }
        }
        assert forall|y: Seq<BoolOrDontCare>| t.contains(y) || y == x@
            implies deep(out@).contains(y) by {
            if t.contains(y) {
                let w = choose|w: int| 0 <= w < t.len() && t[w] == y;
                assert(deep(out@)[w] == y);
            } else {
                assert(deep(out@)[t.len() as int] == x@);
            }
        }
    }
}

/// Removes duplicate rows from one group, keeping first occurrences.
#[verifier::loop_isolation(false)]
fn dedup_group(g: &Vec<Vec<BoolOrDontCare>>) -> (r: Vec<Vec<BoolOrDontCare>>)
    ensures
        deep(r@) == dedup_first(deep(g@)),
{
    let ghost dg = deep(g@);
    proof {
        lemma_deep_index(g@);
        assert(dg.take(0) =~= Seq::<Seq<BoolOrDontCare>>::empty());
    }
    let mut out: Vec<Vec<BoolOrDontCare>> = Vec::new();
    let mut i: usize = 0;
    while i < g.len()
        invariant
            i <= g.len(),
            deep(out@) == dedup_first(dg.take(i as int)),
        decreases g.len() - i,
    {
        proof {
            assert(dg.take(i + 1).drop_last() =~= dg.take(i as int));
            assert(dg.take(i + 1).last() == dg[i as int]);
        }
        // scan the already-processed prefix for an equal row
        let mut seen = false;
        let mut j: usize = 0;
        while j < i
            invariant
                j <= i,
                i <= g.len(),
                seen ==> dg.take(i as int).contains(dg[i as int]),
                !seen ==> forall|k: int| 0 <= k < j ==> #[trigger] dg[k] != dg[i as int],
            decreases i - j,
        {
            if !seen {
                if eq_row(&g[j], &g[i]) {
                    seen = true;
                    proof {
                        assert(dg.take(i as int)[j as int] == dg[j as int]);
                        assert(dg.take(i as int).contains(dg[i as int]));
                    }
                }
            }
            j = j + 1;
        }
        proof {
            if !seen {
                assert(!dg.take(i as int).contains(dg[i as int])) by {
                    if dg.take(i as int).contains(dg[i as int]) {
                        let w = choose|w: int| 0 <= w < i
                            && dg.take(i as int)[w] == dg[i as int];
                        assert(dg[w] == dg[i as int]);
                    }
                }
            }
        }
        if !seen {
            let ghost pre = out@;
            let c = copy_row(&g[i]);
            out.push(c);
            proof {
                assert(out@.drop_last() =~= pre);
                assert(deep(out@) == dedup_first(dg.take(i + 1)));
            }
        }
        i = i + 1;
    }
    proof {
        assert(dg.take(g@.len() as int) =~= dg);
    }
    out
}

/// Reduces a count-grouped minterm table to its prime implicants: rows
/// are deduplicated within each group, every one-bit merge between
/// neighbouring groups is collected, and the result holds each merged
/// vector one of whose rows merged exactly once, together with every row
/// that merged not at all, without duplicates.
#[verifier::loop_isolation(false)]
pub fn reduce(t: &Vec<(usize, Vec<Vec<BoolOrDontCare>>)>) -> (r: Vec<Vec<BoolOrDontCare>>)
    ensures
        deep(r@).no_duplicates(),
        forall|p: Seq<BoolOrDontCare>| deep(r@).contains(p) <==> is_prime_of(tview(t@), p),
{
    let ghost tv = tview(t@);
    let ghost dt = dedup_table(tv);
    proof {
        lemma_tview_index(t@);
        assert(dedup_table(tv.take(0)) =~=
            Seq::<(usize, Seq<Seq<BoolOrDontCare>>)>::empty());
    }
    let mut td: Vec<(usize, Vec<Vec<BoolOrDontCare>>)> = Vec::new();
    let mut gi: usize = 0;
    while gi < t.len()
        invariant
            gi <= t.len(),
            tview(td@) == dedup_table(tv.take(gi as int)),
        decreases t.len() - gi,
    {
        proof {
            assert(tv.take(gi + 1).drop_last() =~= tv.take(gi as int));
            assert(tv.take(gi + 1).last() == tv[gi as int]);
        }
        let ghost pre = td@;
        let dg = dedup_group(&t[gi].1);
        let key = t[gi].0;
        td.push((key, dg));
        proof {
            assert(td@.drop_last() =~= pre);
            assert(tview(td@) == dedup_table(tv.take(gi + 1)));
        }
        gi = gi + 1;
    }
    proof {
        assert(tv.take(t@.len() as int) =~= tv);
        assert(tview(td@) == dt);
    }
    let ms = merges(&td);
    let ghost tm = trips(ms@);
    proof {
        lemma_trips_index(ms@);
    }
    let mut out: Vec<Vec<BoolOrDontCare>> = Vec::new();
    proof {
        assert(deep(out@) =~= Seq::<Seq<BoolOrDontCare>>::empty());
    }
    // merged vectors whose rows merged exactly once
    let mut k: usize = 0;
    while k < ms.len()
        invariant
            k <= ms.len(),
            deep(out@).no_duplicates(),
            forall|p: Seq<BoolOrDontCare>| deep(out@).contains(p)
                <==> exists|kk: int| 0 <= kk < k && (#[trigger] tm[kk]).2 == p
                    && (usage(tm[kk].0, tm) == 1 || usage(tm[kk].1, tm) == 1),
        decreases ms.len() - k,
    {
        let ghost prev_set = deep(out@);
        proof {
            assert(tm[k as int] == (ms@[k as int].0@, ms@[k as int].1@, ms@[k as int].2@));
        }
        let u0 = usage_count(&ms, &ms[k].0);
        let u1 = usage_count(&ms, &ms[k].1);
        let qualifies = u0 == 1 || u1 == 1;
        if qualifies {
            let c = copy_row(&ms[k].2);
            push_unique(&mut out, c);
        }
        proof {
            assert forall|p: Seq<BoolOrDontCare>| deep(out@).contains(p)
                implies exists|kk: int| 0 <= kk < k + 1 && (#[trigger] tm[kk]).2 == p
                    && (usage(tm[kk].0, tm) == 1 || usage(tm[kk].1, tm) == 1) by {
                if prev_set.contains(p) {
                    let kk = choose|kk: int| 0 <= kk < k && (#[trigger] tm[kk]).2 == p
                        && (usage(tm[kk].0, tm) == 1 || usage(tm[kk].1, tm) == 1);
                    assert(0 <= kk < k + 1 && tm[kk].2 == p
                        && (usage(tm[kk].0, tm) == 1 || usage(tm[kk].1, tm) == 1));
                } else {
                    assert(qualifies && p == tm[k as int].2);
                    assert(0 <= k < k + 1 && tm[k as int].2 == p
                        && (usage(tm[k as int].0, tm) == 1 || usage(tm[k as int].1, tm) == 1));
                }
            }
            assert forall|p: Seq<BoolOrDontCare>|
                    (exists|kk: int| 0 <= kk < k + 1 && (#[trigger] tm[kk]).2 == p
                        && (usage(tm[kk].0, tm) == 1 || usage(tm[kk].1, tm) == 1))
                implies deep(out@).contains(p) by {
                let kk = choose|kk: int| 0 <= kk < k + 1 && (#[trigger] tm[kk]).2 == p
                    && (usage(tm[kk].0, tm) == 1 || usage(tm[kk].1, tm) == 1);
                if kk < k {
                    assert(prev_set.contains(p));
                } else {
                    assert(kk == k);
                    assert(qualifies);
                }
            }
        }
        k = k + 1;
    }
    // rows that merged not at all
    let ghost rs = rows_of(dt);
    let ghost primes_merged = deep(out@);
    let mut g2: usize = 0;
    proof {
        assert(rows_of(dt.take(0)) =~= Seq::<Seq<BoolOrDontCare>>::empty());
        lemma_tview_index(td@);
    }
    while g2 < td.len()
        invariant
            g2 <= td.len(),
            tview(td@) == dt,
            tm == trips(ms@),
            deep(out@).no_duplicates(),
            forall|p: Seq<BoolOrDontCare>| deep(out@).contains(p)
                <==> primes_merged.contains(p)
                    || (rows_of(dt.take(g2 as int)).contains(p) && usage(p, tm) == 0),
        decreases td.len() - g2,
    {
        proof {
            assert(dt.take(g2 + 1).drop_last() =~= dt.take(g2 as int));
            assert(dt.take(g2 + 1).last() == dt[g2 as int]);
            assert(dt[g2 as int] == (td@[g2 as int].0, deep(td@[g2 as int].1@)));
            lemma_deep_index(td@[g2 as int].1@);
        }
        let ghost grp = dt[g2 as int].1;
        let mut ri: usize = 0;
        while ri < td[g2].1.len()
            invariant
                ri <= td@[g2 as int].1@.len(),
                g2 < td.len(),
                tview(td@) == dt,
                tm == trips(ms@),
                grp == dt[g2 as int].1,
                grp.len() == td@[g2 as int].1@.len(),
                forall|j: int| 0 <= j < grp.len() ==> #[trigger] grp[j] == td@[g2 as int].1@[j]@,
                deep(out@).no_duplicates(),
                forall|p: Seq<BoolOrDontCare>| deep(out@).contains(p)
                    <==> primes_merged.contains(p)
                        || (rows_of(dt.take(g2 as int)).contains(p) && usage(p, tm) == 0)
                        || (grp.take(ri as int).contains(p) && usage(p, tm) == 0),
            decreases td@[g2 as int].1@.len() - ri,
        {
            let u = usage_count(&ms, &td[g2].1[ri]);
            proof {
                assert(grp.take(ri + 1).drop_last() =~= grp.take(ri as int));
                assert(grp.take(ri + 1).last() == grp[ri as int]);
            }
            if u == 0 {
                let c = copy_row(&td[g2].1[ri]);
                push_unique(&mut out, c);
                proof {
                    assert forall|p: Seq<BoolOrDontCare>| deep(out@).contains(p)
                        implies primes_merged.contains(p)
                            || (rows_of(dt.take(g2 as int)).contains(p) && usage(p, tm) == 0)
                            || (grp.take(ri + 1).contains(p) && usage(p, tm) == 0) by {
                        if p == grp[ri as int] {
                            assert(grp.take(ri + 1).last() == p);
                            assert(grp.take(ri + 1).contains(p));
                        }
                    }
                    assert forall|p: Seq<BoolOrDontCare>| primes_merged.contains(p)
                            || (rows_of(dt.take(g2 as int)).contains(p) && usage(p, tm) == 0)
                            || (grp.take(ri + 1).contains(p) && usage(p, tm) == 0)
                        implies deep(out@).contains(p) by {
                        if grp.take(ri + 1).contains(p) && usage(p, tm) == 0 {
                            let w = choose|w: int| 0 <= w < ri + 1
                                && #[trigger] grp.take(ri + 1)[w] == p;
                            if w < ri {
                                assert(grp.take(ri as int)[w] == p);
                                assert(grp.take(ri as int).contains(p));
                            } else {
                                assert(p == grp[ri as int]);
                            }
                        }
                    }
                }
            } else {
                proof {
                    assert forall|p: Seq<BoolOrDontCare>|
                            grp.take(ri + 1).contains(p) && usage(p, tm) == 0
                        implies grp.take(ri as int).contains(p) by {
                        let w = choose|w: int| 0 <= w < ri + 1
                            && #[trigger] grp.take(ri + 1)[w] == p;
                        if w < ri {
                            assert(grp.take(ri as int)[w] == p);
                        } else {
                            assert(p == grp[ri as int]);
                            assert(usage(grp[ri as int], tm) != 0);
                        }
                    }
                }
            }
            ri = ri + 1;
        }
        proof {
            assert(grp.take(grp.len() as int) =~= grp);
            assert forall|p: Seq<BoolOrDontCare>|
                    rows_of(dt.take(g2 + 1)).contains(p)
                implies rows_of(dt.take(g2 as int)).contains(p) || grp.contains(p) by {
                assert(rows_of(dt.take(g2 + 1)) == rows_of(dt.take(g2 as int)) + grp);
                let w = choose|w: int| 0 <= w < rows_of(dt.take(g2 + 1)).len()
                    && #[trigger] rows_of(dt.take(g2 + 1))[w] == p;
                if w < rows_of(dt.take(g2 as int)).len() {
                    assert(rows_of(dt.take(g2 as int))[w] == p);
                } else {
                    assert(grp[w - rows_of(dt.take(g2 as int)).len()] == p);
                }
            }
            assert forall|p: Seq<BoolOrDontCare>|
                    rows_of(dt.take(g2 as int)).contains(p) || grp.contains(p)
                implies rows_of(dt.take(g2 + 1)).contains(p) by {
                assert(rows_of(dt.take(g2 + 1)) == rows_of(dt.take(g2 as int)) + grp);
                if rows_of(dt.take(g2 as int)).contains(p) {
                    let w = choose|w: int| 0 <= w < rows_of(dt.take(g2 as int)).len()
                        && #[trigger] rows_of(dt.take(g2 as int))[w] == p;
                    assert(rows_of(dt.take(g2 + 1))[w] == p);
                } else {
                    let w = choose|w: int| 0 <= w < grp.len() && #[trigger] grp[w] == p;
                    assert(rows_of(dt.take(g2 + 1))[rows_of(dt.take(g2 as int)).len() + w]
                        == p);
                }
            }
            assert forall|p: Seq<BoolOrDontCare>| deep(out@).contains(p)
                implies primes_merged.contains(p)
                    || (rows_of(dt.take(g2 + 1)).contains(p) && usage(p, tm) == 0) by {
                assert(grp.take(grp.len() as int) == grp);
                if !primes_merged.contains(p) {
                    assert(rows_of(dt.take(g2 as int)).contains(p) || grp.contains(p));
                    assert(rows_of(dt.take(g2 + 1)) == rows_of(dt.take(g2 as int)) + grp);
                    if rows_of(dt.take(g2 as int)).contains(p) {
                        let w = choose|w: int| 0 <= w < rows_of(dt.take(g2 as int)).len()
                            && #[trigger] rows_of(dt.take(g2 as int))[w] == p;
                        assert(rows_of(dt.take(g2 + 1))[w] == p);
                    } else {
                        let w = choose|w: int| 0 <= w < grp.len() && #[trigger] grp[w] == p;
                        assert(rows_of(dt.take(g2 + 1))[
                            rows_of(dt.take(g2 as int)).len() + w] == p);
                    }
                    assert(rows_of(dt.take(g2 + 1)).contains(p));
                    assert(usage(p, tm) == 0);
                }
            }
            assert forall|p: Seq<BoolOrDontCare>| primes_merged.contains(p)
                    || (rows_of(dt.take(g2 + 1)).contains(p) && usage(p, tm) == 0)
                implies deep(out@).contains(p) by {
                assert(grp.take(grp.len() as int) == grp);
                if !primes_merged.contains(p) {
                    assert(rows_of(dt.take(g2 as int)).contains(p) || grp.contains(p));
                }
            }
        }
        g2 = g2 + 1;
    }
    proof {
        assert(dt.take(td@.len() as int) =~= dt);
        assert forall|p: Seq<BoolOrDontCare>| deep(out@).contains(p)
            implies is_prime_of(tv, p) by {
            if primes_merged.contains(p) {
                let kk = choose|kk: int| 0 <= kk < tm.len() && (#[trigger] tm[kk]).2 == p
                    && (usage(tm[kk].0, tm) == 1 || usage(tm[kk].1, tm) == 1);
                assert(tm == merges_spec(dt));
            }
        }
        assert forall|p: Seq<BoolOrDontCare>| is_prime_of(tv, p)
            implies deep(out@).contains(p) by {
            if exists|kk: int| 0 <= kk < merges_spec(dt).len()
                && (#[trigger] merges_spec(dt)[kk]).2 == p
                && (usage(merges_spec(dt)[kk].0, merges_spec(dt)) == 1
                    || usage(merges_spec(dt)[kk].1, merges_spec(dt)) == 1) {
                let kk = choose|kk: int| 0 <= kk < merges_spec(dt).len()
                    && (#[trigger] merges_spec(dt)[kk]).2 == p
                    && (usage(merges_spec(dt)[kk].0, merges_spec(dt)) == 1
                        || usage(merges_spec(dt)[kk].1, merges_spec(dt)) == 1);
                assert(tm[kk].2 == p);
                assert(primes_merged.contains(p));
            }
        }
    }
    out
}


/// Every merge record pairs two adjacent rows with their merged vector.
proof fn lemma_row_merges_sound(j: Seq<BoolOrDontCare>, prev: Seq<Seq<BoolOrDontCare>>)
    ensures
        forall|k: int| 0 <= k < row_merges(j, prev).len()
            ==> mergeable((#[trigger] row_merges(j, prev)[k]).0, row_merges(j, prev)[k].1)
                && row_merges(j, prev)[k].2
                    == merge_vec(row_merges(j, prev)[k].0, row_merges(j, prev)[k].1),
    decreases prev.len(),
{
    if prev.len() > 0 {
        lemma_row_merges_sound(j, prev.drop_last());
        let r = row_merges(j, prev);
        let p = row_merges(j, prev.drop_last());
        assert forall|k: int| 0 <= k < r.len()
            implies mergeable((#[trigger] r[k]).0, r[k].1)
                && r[k].2 == merge_vec(r[k].0, r[k].1) by {
            if mergeable(j, prev.last()) {
                if k < p.len() {
                    assert(r[k] == p[k]);
                }
            } else {
                assert(r[k] == p[k]);
            }
        }
    }
}

/// Every merge record of a group pair is sound.
proof fn lemma_group_merges_sound(cur: Seq<Seq<BoolOrDontCare>>, prev: Seq<Seq<BoolOrDontCare>>)
    ensures
        forall|k: int| 0 <= k < group_merges(cur, prev).len()
            ==> mergeable((#[trigger] group_merges(cur, prev)[k]).0,
                    group_merges(cur, prev)[k].1)
                && group_merges(cur, prev)[k].2
                    == merge_vec(group_merges(cur, prev)[k].0, group_merges(cur, prev)[k].1),
    decreases cur.len(),
{
    if cur.len() > 0 {
        lemma_group_merges_sound(cur.drop_last(), prev);
        lemma_row_merges_sound(cur.last(), prev);
        let g = group_merges(cur, prev);
        let a = group_merges(cur.drop_last(), prev);
        let b = row_merges(cur.last(), prev);
        assert forall|k: int| 0 <= k < g.len()
            implies mergeable((#[trigger] g[k]).0, g[k].1)
                && g[k].2 == merge_vec(g[k].0, g[k].1) by {
            if k < a.len() {
                assert(g[k] == a[k]);
            } else {
                assert(g[k] == b[k - a.len()]);
            }
        }
    }
}

/// Every merge record of a table is sound: its two rows are adjacent and
/// its third vector is their merge.
pub proof fn lemma_merges_sound(tv: Seq<(usize, Seq<Seq<BoolOrDontCare>>)>)
    ensures
        forall|k: int| 0 <= k < merges_spec(tv).len()
            ==> mergeable((#[trigger] merges_spec(tv)[k]).0, merges_spec(tv)[k].1)
                && merges_spec(tv)[k].2
                    == merge_vec(merges_spec(tv)[k].0, merges_spec(tv)[k].1),
    decreases tv.len(),
{
    if tv.len() >= 2 {
        lemma_merges_sound(tv.drop_last());
        let ms = merges_spec(tv);
        let a = merges_spec(tv.drop_last());
        if tv.last().0 == tv[tv.len() - 2].0 + 1 {
            lemma_group_merges_sound(tv.last().1, tv[tv.len() - 2].1);
            let b = group_merges(tv.last().1, tv[tv.len() - 2].1);
            assert forall|k: int| 0 <= k < ms.len()
                implies mergeable((#[trigger] ms[k]).0, ms[k].1)
                    && ms[k].2 == merge_vec(ms[k].0, ms[k].1) by {
                if k < a.len() {
                    assert(ms[k] == a[k]);
                } else {
                    assert(ms[k] == b[k - a.len()]);
                }
            }
        }
    }
}

/// A vector mentioned by some record has positive usage, and a vector
/// with positive usage is mentioned by some record.
proof fn lemma_usage_witness(
    x: Seq<BoolOrDontCare>,
    ms: Seq<(Seq<BoolOrDontCare>, Seq<BoolOrDontCare>, Seq<BoolOrDontCare>)>,
)
    requires
        usage(x, ms) > 0,
    ensures
        exists|k: int| 0 <= k < ms.len()
            && ((#[trigger] ms[k]).0 == x || ms[k].1 == x),
    decreases ms.len(),
{
    if ms.len() > 0 {
        if ms.last().0 == x || ms.last().1 == x {
            assert(ms[ms.len() - 1].0 == x || ms[ms.len() - 1].1 == x);
        } else {
            lemma_usage_witness(x, ms.drop_last());
            let k = choose|k: int| 0 <= k < ms.drop_last().len()
                && ((#[trigger] ms.drop_last()[k]).0 == x || ms.drop_last()[k].1 == x);
            assert(ms[k] == ms.drop_last()[k]);
        }
    }
}

/// The count of records mentioning a vector bounds the count over a
/// prefix: a record mentioning the vector makes the usage positive.
proof fn lemma_usage_at_least(
    x: Seq<BoolOrDontCare>,
    ms: Seq<(Seq<BoolOrDontCare>, Seq<BoolOrDontCare>, Seq<BoolOrDontCare>)>,
    k: int,
)
    requires
        0 <= k < ms.len(),
        ms[k].0 == x || ms[k].1 == x,
    ensures
        usage(x, ms) > 0,
    decreases ms.len(),
{
    if k < ms.len() - 1 {
        assert(ms.drop_last()[k] == ms[k]);
        lemma_usage_at_least(x, ms.drop_last(), k);
    }
}

/// The merged vector of two adjacent rows covers both rows under
/// don't-care matching.
pub proof fn lemma_merge_covers(a: Seq<BoolOrDontCare>, b: Seq<BoolOrDontCare>)
    requires
        mergeable(a, b),
    ensures
        covers(merge_vec(a, b), a),
        covers(merge_vec(a, b), b),
{
    let p = choose|p: int| merge_pos(a, b, p);
    assert forall|q: int| 0 <= q < a.len() && !(#[trigger] merge_vec(a, b)[q] is DontCare)
        implies merge_vec(a, b)[q] == a[q] && merge_vec(a, b)[q] == b[q] by {
        if q != p {
            assert(a[q] == b[q]);
        }
    }
}

/// Prime-implicant coverage for the rows the single pass can cover: every
/// row of the deduplicated table that took part in at most one merge is
/// covered, under don't-care matching, by some emitted prime implicant.
/// A row that merged twice or more can be left uncovered by the single
/// pass.
pub proof fn lemma_prime_coverage(tv: Seq<(usize, Seq<Seq<BoolOrDontCare>>)>,
    v: Seq<BoolOrDontCare>)
    requires
        rows_of(dedup_table(tv)).contains(v),
        usage(v, merges_spec(dedup_table(tv))) <= 1,
    ensures
        exists|p: Seq<BoolOrDontCare>| #[trigger] is_prime_of(tv, p) && covers(p, v),
{
    let dt = dedup_table(tv);
    let ms = merges_spec(dt);
    if usage(v, ms) == 0 {
        assert(is_prime_of(tv, v));
        assert(covers(v, v));
    } else {
        lemma_usage_witness(v, ms);
        let k = choose|k: int| 0 <= k < ms.len()
            && ((#[trigger] ms[k]).0 == v || ms[k].1 == v);
        lemma_merges_sound(dt);
        lemma_merge_covers(ms[k].0, ms[k].1);
        let p = ms[k].2;
        assert(usage(ms[k].0, ms) == 1 || usage(ms[k].1, ms) == 1) by {
            lemma_usage_at_least(v, ms, k);
        }
        assert(is_prime_of(tv, p));
        assert(covers(p, v));
    }
}


/// A ternary vector matches an assignment: every constrained position
/// agrees with it.
pub open spec fn row_matches(
    row: Seq<BoolOrDontCare>,
    vars: Seq<Seq<char>>,
    m: Map<Seq<char>, bool>,
) -> bool {
    forall|i: int| 0 <= i < vars.len()
        ==> ((#[trigger] row[i]) is One ==> m[vars[i]])
            && (row[i] is Zero ==> !m[vars[i]])
}

/// No variable occurs both plain and negated among the literals.
pub open spec fn consistent_lits(lits: Seq<ExprV>) -> bool {
    forall|n: Seq<char>| #[trigger] lits.contains(ExprV::Var(n))
        ==> !lits.contains(ExprV::Not(Box::new(ExprV::Var(n))))
}

/// What each polarity verdict says about the literal list.
proof fn lemma_sign_to_contains(lits: Seq<ExprV>, x: Seq<char>)
    ensures
        sign_in(lits, x) is One ==> lits.contains(ExprV::Var(x)),
        sign_in(lits, x) is Zero ==> lits.contains(ExprV::Not(Box::new(ExprV::Var(x)))),
    decreases lits.len(),
{
    if lits.len() > 0 {
        if lits[0] == ExprV::Var(x) {
        } else if lits[0] == ExprV::Not(Box::new(ExprV::Var(x))) {
        } else {
            lemma_sign_to_contains(lits.drop_first(), x);
            if sign_in(lits, x) is One {
                let w = choose|w: int| 0 <= w < lits.drop_first().len()
                    && lits.drop_first()[w] == ExprV::Var(x);
                assert(lits[w + 1] == ExprV::Var(x));
            }
            if sign_in(lits, x) is Zero {
                let w = choose|w: int| 0 <= w < lits.drop_first().len()
                    && lits.drop_first()[w] == ExprV::Not(Box::new(ExprV::Var(x)));
                assert(lits[w + 1] == ExprV::Not(Box::new(ExprV::Var(x))));
            }
        }
    }
}

/// A variable that occurs only plain gets polarity `One`; one that occurs
/// only negated gets `Zero`.
proof fn lemma_contains_to_sign(lits: Seq<ExprV>, x: Seq<char>)
    ensures
        lits.contains(ExprV::Var(x))
            && !lits.contains(ExprV::Not(Box::new(ExprV::Var(x))))
            ==> sign_in(lits, x) is One,
        lits.contains(ExprV::Not(Box::new(ExprV::Var(x))))
            && !lits.contains(ExprV::Var(x))
            ==> sign_in(lits, x) is Zero,
    decreases lits.len(),
{
    if lits.len() > 0 {
        lemma_contains_to_sign(lits.drop_first(), x);
        if lits[0] == ExprV::Var(x) {
            assert(lits.contains(ExprV::Var(x))) by {
                assert(lits[0] == ExprV::Var(x));
            }
        } else if lits[0] == ExprV::Not(Box::new(ExprV::Var(x))) {
            assert(lits.contains(ExprV::Not(Box::new(ExprV::Var(x))))) by {
                assert(lits[0] == ExprV::Not(Box::new(ExprV::Var(x))));
            }
        } else {
            if lits.contains(ExprV::Var(x)) {
                let w = choose|w: int| 0 <= w < lits.len() && lits[w] == ExprV::Var(x);
                assert(lits.drop_first()[w - 1] == ExprV::Var(x));
            }
            if lits.contains(ExprV::Not(Box::new(ExprV::Var(x)))) {
                let w = choose|w: int| 0 <= w < lits.len()
                    && lits[w] == ExprV::Not(Box::new(ExprV::Var(x)));
                assert(lits.drop_first()[w - 1] == ExprV::Not(Box::new(ExprV::Var(x))));
            }
            if lits.drop_first().contains(ExprV::Var(x)) {
                let w = choose|w: int| 0 <= w < lits.drop_first().len()
                    && lits.drop_first()[w] == ExprV::Var(x);
                assert(lits[w + 1] == ExprV::Var(x));
            }
            if lits.drop_first().contains(ExprV::Not(Box::new(ExprV::Var(x)))) {
                let w = choose|w: int| 0 <= w < lits.drop_first().len()
                    && lits.drop_first()[w] == ExprV::Not(Box::new(ExprV::Var(x)));
                assert(lits[w + 1] == ExprV::Not(Box::new(ExprV::Var(x))));
            }
        }
    }
}

/// A conjunctive term is true under an assignment exactly when its
/// encoded vector matches the assignment, provided the term is
/// polarity-consistent and the variable list covers its variables.
proof fn lemma_term_matches(t: ExprV, vars: Seq<Seq<char>>, m: Map<Seq<char>, bool>)
    requires
        term_shape(t),
        consistent_lits(term_lits(t)),
        vars_of(t).subset_of(vars.to_set()),
    ensures
        crate::sast::seval(t, m) == row_matches(encode_term(t, vars), vars, m),
{
    let lits = term_lits(t);
    let row = encode_term(t, vars);
    reveal_with_fuel(crate::sast::seval, 3);
    reveal_with_fuel(crate::sast::vars_of, 3);
    crate::sast::lemma_seval_all_index(lits, m);
    // the term's truth is the truth of all its literals
    assert(crate::sast::seval(t, m) == crate::sast::seval_all(lits, m)) by {
        match t {
            ExprV::And(v) => {},
            _ => {
                assert(lits =~= seq![t]);
                assert(lits[0] == t);
                assert(lits.drop_first() =~= Seq::<ExprV>::empty());
            },
        }
    }
    let all_lit = forall|i: int| 0 <= i < lits.len() ==> lit_shape(#[trigger] lits[i]);
    assert(all_lit) by {
        match t {
            ExprV::And(v) => {
                lemma_all_lits_index(v);
            },
            _ => {
                assert(lits[0] == t);
                assert forall|i: int| 0 <= i < lits.len()
                    implies lit_shape(#[trigger] lits[i]) by {
                    assert(lits[i] == t);
                }
            },
        }
    }
    if crate::sast::seval_all(lits, m) {
        assert forall|i: int| 0 <= i < vars.len()
            implies ((#[trigger] row[i]) is One ==> m[vars[i]])
                && (row[i] is Zero ==> !m[vars[i]]) by {
            assert(row[i] == sign_in(lits, vars[i]));
            lemma_sign_to_contains(lits, vars[i]);
            if sign_in(lits, vars[i]) is One {
                let w = choose|w: int| 0 <= w < lits.len()
                    && #[trigger] lits[w] == ExprV::Var(vars[i]);
                assert(crate::sast::seval(lits[w], m));
                assert(crate::sast::seval(ExprV::Var(vars[i]), m) == m[vars[i]]);
            }
            if sign_in(lits, vars[i]) is Zero {
                let w = choose|w: int| 0 <= w < lits.len()
                    && #[trigger] lits[w] == ExprV::Not(Box::new(ExprV::Var(vars[i])));
                assert(crate::sast::seval(lits[w], m));
                assert(crate::sast::seval(ExprV::Not(Box::new(ExprV::Var(vars[i]))), m)
                    == !m[vars[i]]);
            }
        }
    }
    if row_matches(row, vars, m) {
        assert forall|i: int| 0 <= i < lits.len()
            implies crate::sast::seval(#[trigger] lits[i], m) by {
            assert(lit_shape(lits[i])) by {
                match t {
                    ExprV::And(v) => {
                        lemma_all_lits_index(v);
                    },
                    _ => {
                        assert(lits[i] == t);
                    },
                }
            }
            match lits[i] {
                ExprV::Var(y) => {
                    assert(vars_of(lits[i]) == Set::<Seq<char>>::empty().insert(y));
                    assert(vars_of(lits[i]).contains(y));
                    assert(vars_of(t).contains(y)) by {
                        match t {
                            ExprV::And(v) => {
                                assert(lits[i] == v[i]);
                                crate::sast::lemma_vars_seq_member(v, i);
                            },
                            _ => {
                                assert(lits[i] == t);
                            },
                        }
                    }
                    assert(vars.to_set().contains(y));
                    let j = choose|j: int| 0 <= j < vars.len() && vars[j] == y;
                    assert(lits.contains(ExprV::Var(y))) by {
                        assert(lits[i] == ExprV::Var(y));
                    }
                    lemma_contains_to_sign(lits, y);
                    assert(sign_in(lits, y) is One);
                    assert(row[j] == sign_in(lits, vars[j]));
                    assert(m[y]);
                },
                ExprV::Not(w) => {
                    let y = (*w)->Var_0;
                    assert(*w == ExprV::Var(y));
                    assert(vars_of(lits[i]) == Set::<Seq<char>>::empty().insert(y));
                    assert(vars_of(lits[i]).contains(y));
                    assert(vars_of(t).contains(y)) by {
                        match t {
                            ExprV::And(v) => {
                                assert(lits[i] == v[i]);
                                crate::sast::lemma_vars_seq_member(v, i);
                            },
                            _ => {
                                assert(lits[i] == t);
                            },
                        }
                    }
                    assert(vars.to_set().contains(y));
                    let j = choose|j: int| 0 <= j < vars.len() && vars[j] == y;
                    assert(lits.contains(ExprV::Not(Box::new(ExprV::Var(y))))) by {
                        assert(lits[i] == ExprV::Not(Box::new(ExprV::Var(y))));
                    }
                    assert(!lits.contains(ExprV::Var(y))) by {
                        if lits.contains(ExprV::Var(y)) {
                            assert(!lits.contains(ExprV::Not(Box::new(ExprV::Var(y)))));
                        }
                    }
                    lemma_contains_to_sign(lits, y);
                    assert(sign_in(lits, y) is Zero);
                    assert(row[j] == sign_in(lits, vars[j]));
                    assert(!m[y]);
                },
                _ => {
                    assert(false);
                },
            }
        }
    }
}

/// Encoding is faithful: a polarity-consistent disjunction of conjunctive
/// terms is true under an assignment exactly when some encoded vector
/// matches the assignment.  Re-expanding each vector into a conjunction
/// and disjoining them therefore yields a formula true under exactly the
/// same assignments.
pub proof fn lemma_encode_semantics(e: ExprV, vars: Seq<Seq<char>>, m: Map<Seq<char>, bool>)
    requires
        dnf_shape(e),
        forall|i: int| 0 <= i < disjuncts(e).len()
            ==> consistent_lits(term_lits(#[trigger] disjuncts(e)[i])),
        vars_of(e).subset_of(vars.to_set()),
    ensures
        crate::sast::seval(e, m) == exists|j: int|
            0 <= j < encode_rows(disjuncts(e), vars).len()
                && row_matches(#[trigger] encode_rows(disjuncts(e), vars)[j], vars, m),
{
    let ds = disjuncts(e);
    let rows = encode_rows(ds, vars);
    lemma_encode_rows_index(ds, vars);
    lemma_all_terms_index(ds);
    crate::sast::lemma_seval_any_index(ds, m);
    assert forall|j: int| 0 <= j < ds.len()
        implies crate::sast::seval(#[trigger] ds[j], m)
            == row_matches(rows[j], vars, m) by {
        assert(vars_of(ds[j]).subset_of(vars.to_set())) by {
            crate::sast::lemma_vars_seq_member(ds, j);
        }
        lemma_term_matches(ds[j], vars, m);
    }
    if crate::sast::seval(e, m) {
        let j = choose|j: int| 0 <= j < ds.len() && crate::sast::seval(#[trigger] ds[j], m);
        assert(row_matches(rows[j], vars, m));
    }
    if exists|j: int| 0 <= j < rows.len()
        && row_matches(#[trigger] rows[j], vars, m) {
        let j = choose|j: int| 0 <= j < rows.len()
            && row_matches(#[trigger] rows[j], vars, m);
        assert(crate::sast::seval(ds[j], m));
    }
}

} // verus!








