use boolmin::ast;
use boolmin::logic;
use boolmin::mccluskey::{self, BoolOrDontCare};
use boolmin::nodes::{self, VarMap};
use boolmin::sast;
use boolmin::order::Comparison;

use BoolOrDontCare::{DontCare, One, Zero};
use nodes::Expr as N;
use logic::Expr as L;

fn bvar(n: &str) -> Box<ast::Expr> {
    ast::var(n)
}

fn svar(n: &str) -> sast::Expr {
    sast::Expr::Var(n.to_string())
}

fn snot(e: sast::Expr) -> sast::Expr {
    sast::Expr::Not(Box::new(e))
}

fn assignment(names: &[&str], bits: &[bool]) -> VarMap {
    let mut m = VarMap::new();
    for (n, b) in names.iter().zip(bits.iter()) {
        m.insert(n, *b);
    }
    m
}

/// The worked rewrite example: d * !(e + !b + !d) * (e + c) + a, run
/// through the whole pipeline, keeps its truth table.
#[test]
fn pipeline_preserves_worked_example() {
    let build = || {
        ast::make_or(
            ast::make_and(
                ast::make_and(
                    bvar("d"),
                    ast::make_not(ast::make_or(
                        ast::make_or(bvar("e"), ast::make_not(bvar("b"))),
                        ast::make_not(bvar("d")),
                    )),
                ),
                ast::make_or(bvar("e"), bvar("c")),
            ),
            bvar("a"),
        )
    };
    let reference = build();
    let distributed = ast::distribute(build());
    let mut lowered = sast::from_ast(distributed).unwrap();
    lowered.order_terms();
    let simplified = lowered.simplify();

    let names = ["a", "b", "c", "d", "e"];
    for n in 0..32u32 {
        let bits: Vec<bool> = (0..5).map(|i| (n >> i) & 1 == 1).collect();
        let m = assignment(&names, &bits);
        assert_eq!(reference.eval(&m), simplified.eval(&m));
    }
}

/// After distribution every negation wraps a bare variable.
#[test]
fn distribute_gives_negation_normal_form() {
    fn nnf(e: &ast::Expr) -> bool {
        match e {
            ast::Expr::And(a, b) => nnf(a) && nnf(b),
            ast::Expr::Or(a, b) => nnf(a) && nnf(b),
            ast::Expr::Not(a) => matches!(**a, ast::Expr::Var(_)),
            _ => true,
        }
    }
    let e = ast::make_not(ast::make_and(
        ast::make_not(ast::make_or(bvar("x"), bvar("y"))),
        ast::make_not(ast::make_not(bvar("z"))),
    ));
    let d = ast::distribute(e);
    assert!(nnf(&d));
}

/// The simplifier is idempotent on ordered canonical input.
#[test]
fn simplify_is_idempotent() {
    let mut e = sast::Expr::Or(vec![
        sast::Expr::And(vec![svar("a"), svar("a"), snot(svar("b"))]),
        sast::Expr::And(vec![svar("b"), snot(svar("b"))]),
        sast::Expr::True,
        svar("c"),
    ]);
    e.order_terms();
    let once = e.simplify();
    let twice = once.dup().simplify();
    assert_eq!(*once, *twice);
}

/// The simplifier's laws on small inputs.
#[test]
fn simplify_laws() {
    // complement law: a & !a collapses to false
    let e = sast::Expr::And(vec![svar("a"), snot(svar("a"))]);
    assert_eq!(*e.simplify(), sast::Expr::False);
    // identity: a true child is dropped
    let e = sast::Expr::And(vec![sast::Expr::True, svar("a")]);
    assert_eq!(*e.simplify(), sast::Expr::And(vec![svar("a")]));
    // annulment: a false child forces false
    let e = sast::Expr::And(vec![svar("a"), sast::Expr::False]);
    assert_eq!(*e.simplify(), sast::Expr::False);
    // idempotence: neighbouring duplicates collapse
    let e = sast::Expr::And(vec![svar("a"), svar("a")]);
    assert_eq!(*e.simplify(), sast::Expr::And(vec![svar("a")]));
    // an empty conjunction is true, an empty disjunction false
    assert_eq!(*sast::Expr::And(vec![]).simplify(), sast::Expr::True);
    assert_eq!(*sast::Expr::Or(vec![]).simplify(), sast::Expr::False);
    // double negation unwraps
    let e = snot(snot(svar("x")));
    assert_eq!(*e.simplify(), svar("x"));
    // the dual laws on disjunctions
    let e = sast::Expr::Or(vec![svar("a"), snot(svar("a"))]);
    assert_eq!(*e.simplify(), sast::Expr::True);
    let e = sast::Expr::Or(vec![sast::Expr::False, svar("a")]);
    assert_eq!(*e.simplify(), sast::Expr::Or(vec![svar("a")]));
}

/// The canonical comparator is a total order: antisymmetric and
/// transitive, with negations ordering as what they negate.
#[test]
fn comparator_orders_totally() {
    let samples = vec![
        sast::Expr::True,
        sast::Expr::False,
        svar("a"),
        svar("b"),
        snot(svar("a")),
        sast::Expr::And(vec![svar("a"), svar("b")]),
        sast::Expr::And(vec![svar("a")]),
        sast::Expr::Or(vec![svar("a"), svar("b")]),
    ];
    for x in &samples {
        assert_eq!(x.compare(x), Comparison::Equal);
        for y in &samples {
            match x.compare(y) {
                Comparison::Less => assert_eq!(y.compare(x), Comparison::Greater),
                Comparison::Greater => assert_eq!(y.compare(x), Comparison::Less),
                Comparison::Equal => assert_eq!(y.compare(x), Comparison::Equal),
            }
            for z in &samples {
                if x.compare(y) == Comparison::Less && y.compare(z) == Comparison::Less {
                    assert_eq!(x.compare(z), Comparison::Less);
                }
            }
        }
    }
    // a negation orders as the formula it negates
    assert_eq!(svar("a").compare(&snot(svar("a"))), Comparison::Equal);
    // the fixed precedence: constants, variables, conjunctions, disjunctions
    assert_eq!(sast::Expr::True.compare(&sast::Expr::False), Comparison::Less);
    assert_eq!(sast::Expr::False.compare(&svar("a")), Comparison::Less);
    assert_eq!(svar("z").compare(&sast::Expr::And(vec![svar("a")])), Comparison::Less);
    assert_eq!(
        sast::Expr::And(vec![svar("z")]).compare(&sast::Expr::Or(vec![svar("a")])),
        Comparison::Less
    );
    // a proper prefix orders first
    assert_eq!(
        sast::Expr::And(vec![svar("a")])
            .compare(&sast::Expr::And(vec![svar("a"), svar("b")])),
        Comparison::Less
    );
}

/// Ordering terms sorts children and keeps the formula's value.
#[test]
fn order_terms_sorts_children() {
    let mut e = sast::Expr::And(vec![svar("c"), svar("a"), svar("b")]);
    e.order_terms();
    assert_eq!(e, sast::Expr::And(vec![svar("a"), svar("b"), svar("c")]));
}

/// Lowering flattens nested associative chains completely.
#[test]
fn from_ast_flattens() {
    let e = ast::make_and(
        ast::make_and(bvar("a"), bvar("b")),
        ast::make_and(bvar("c"), bvar("d")),
    );
    let s = sast::from_ast(e).unwrap();
    assert_eq!(
        *s,
        sast::Expr::And(vec![svar("a"), svar("b"), svar("c"), svar("d")])
    );
}

/// The variable collector returns a sorted, deduplicated list.
#[test]
fn terms_sorted_and_deduplicated() {
    let e = sast::Expr::Or(vec![
        sast::Expr::And(vec![svar("d"), snot(svar("b"))]),
        sast::Expr::And(vec![svar("b"), svar("a"), svar("d")]),
    ]);
    let t = e.terms();
    assert_eq!(t, vec!["a".to_string(), "b".to_string(), "d".to_string()]);
}

fn minterm(bits: &[u8]) -> sast::Expr {
    let names = ["a", "b", "c", "d"];
    let lits: Vec<sast::Expr> = bits
        .iter()
        .enumerate()
        .map(|(i, b)| {
            if *b == 1 {
                svar(names[i])
            } else {
                snot(svar(names[i]))
            }
        })
        .collect();
    sast::Expr::And(lits)
}

fn row(bits: &[u8]) -> Vec<BoolOrDontCare> {
    bits.iter()
        .map(|b| match b {
            0 => Zero,
            1 => One,
            _ => DontCare,
        })
        .collect()
}

/// The worked minterm table: grouping six four-variable minterms by
/// population count.
#[test]
fn build_number_groups_worked_example() {
    let e = sast::Expr::Or(vec![
        minterm(&[0, 1, 1, 0]),
        minterm(&[1, 0, 0, 0]),
        minterm(&[1, 0, 1, 0]),
        minterm(&[1, 1, 0, 0]),
        minterm(&[1, 1, 0, 1]),
        minterm(&[1, 1, 1, 1]),
    ]);
    let t = mccluskey::build_number(&e).unwrap();
    let keys: Vec<usize> = t.iter().map(|g| g.0).collect();
    assert_eq!(keys, vec![1, 2, 3, 4]);
    assert_eq!(t[0].1, vec![row(&[1, 0, 0, 0])]);
    assert_eq!(
        t[1].1,
        vec![row(&[0, 1, 1, 0]), row(&[1, 0, 1, 0]), row(&[1, 1, 0, 0])]
    );
    assert_eq!(t[2].1, vec![row(&[1, 1, 0, 1])]);
    assert_eq!(t[3].1, vec![row(&[1, 1, 1, 1])]);
}

/// Merging the worked table's neighbouring groups discovers the expected
/// one-bit merges.
#[test]
fn merges_discovers_adjacent_pairs() {
    let e = sast::Expr::Or(vec![
        minterm(&[0, 1, 1, 0]),
        minterm(&[1, 0, 0, 0]),
        minterm(&[1, 0, 1, 0]),
        minterm(&[1, 1, 0, 0]),
        minterm(&[1, 1, 0, 1]),
        minterm(&[1, 1, 1, 1]),
    ]);
    let t = mccluskey::build_number(&e).unwrap();
    let ms = mccluskey::merges(&t);
    let expected = (row(&[1, 0, 1, 0]), row(&[1, 0, 0, 0]), row(&[1, 0, 2, 0]));
    assert!(ms.contains(&expected));
    let all: Vec<(Vec<BoolOrDontCare>, Vec<BoolOrDontCare>, Vec<BoolOrDontCare>)> = vec![
        (row(&[1, 0, 1, 0]), row(&[1, 0, 0, 0]), row(&[1, 0, 2, 0])),
        (row(&[1, 1, 0, 0]), row(&[1, 0, 0, 0]), row(&[1, 2, 0, 0])),
        (row(&[1, 1, 0, 1]), row(&[1, 1, 0, 0]), row(&[1, 1, 0, 2])),
        (row(&[1, 1, 1, 1]), row(&[1, 1, 0, 1]), row(&[1, 1, 2, 1])),
    ];
    assert_eq!(ms, all);
}

/// Reducing the worked table yields its prime implicants, and each
/// minterm that merged at most once is covered by one of them.
#[test]
fn reduce_worked_example() {
    let e = sast::Expr::Or(vec![
        minterm(&[0, 1, 1, 0]),
        minterm(&[1, 0, 0, 0]),
        minterm(&[1, 0, 1, 0]),
        minterm(&[1, 1, 0, 0]),
        minterm(&[1, 1, 0, 1]),
        minterm(&[1, 1, 1, 1]),
    ]);
    let t = mccluskey::build_number(&e).unwrap();
    let primes = mccluskey::reduce(&t);
    assert_eq!(primes.len(), 3);
    assert!(primes.contains(&row(&[1, 0, 2, 0])));
    assert!(primes.contains(&row(&[1, 1, 2, 1])));
    assert!(primes.contains(&row(&[0, 1, 1, 0])));

    // coverage under don't-care matching for the once-merged minterms
    fn covered(p: &[BoolOrDontCare], v: &[BoolOrDontCare]) -> bool {
        p.iter().zip(v.iter()).all(|(a, b)| *a == DontCare || a == b)
    }
    for v in [row(&[1, 0, 0, 0]), row(&[1, 0, 1, 0]), row(&[0, 1, 1, 0]),
              row(&[1, 1, 1, 1])] {
        assert!(primes.iter().any(|p| covered(p, &v)));
    }
}

/// Re-expanding every encoded vector and disjoining them keeps the truth
/// table of the encoded expression.
#[test]
fn encoding_round_trip_truth_equivalent() {
    let e = sast::Expr::Or(vec![
        sast::Expr::And(vec![svar("a"), snot(svar("b"))]),
        svar("c"),
        snot(svar("b")),
    ]);
    let t = mccluskey::build_number(&e).unwrap();
    let vars = e.terms();
    let mut decoded_terms: Vec<sast::Expr> = Vec::new();
    for (_, group) in &t {
        for v in group {
            let lits: Vec<sast::Expr> = v
                .iter()
                .enumerate()
                .filter(|(_, b)| **b != DontCare)
                .map(|(i, b)| {
                    if *b == One {
                        svar(&vars[i])
                    } else {
                        snot(svar(&vars[i]))
                    }
                })
                .collect();
            decoded_terms.push(sast::Expr::And(lits));
        }
    }
    let decoded = sast::Expr::Or(decoded_terms);
    let names = ["a", "b", "c"];
    for n in 0..8u32 {
        let bits: Vec<bool> = (0..3).map(|i| (n >> i) & 1 == 1).collect();
        let m = assignment(&names, &bits);
        assert_eq!(e.eval(&m), decoded.eval(&m));
    }
}

/// The encoder rejects every shape other than a disjunction of
/// conjunctive terms, and accepts that shape.
#[test]
fn build_number_rejects_bad_shapes() {
    // the root must be a disjunction
    assert!(mccluskey::build_number(&svar("a")).is_err());
    assert!(mccluskey::build_number(&sast::Expr::And(vec![svar("a")])).is_err());
    // a negation inside a term must wrap a variable
    let bad = sast::Expr::Or(vec![snot(sast::Expr::And(vec![svar("a")]))]);
    assert!(mccluskey::build_number(&bad).is_err());
    // a nested disjunction inside a term is rejected
    let bad = sast::Expr::Or(vec![sast::Expr::And(vec![sast::Expr::Or(vec![svar("a")])])]);
    assert!(mccluskey::build_number(&bad).is_err());
    // a constant is not a literal
    let bad = sast::Expr::Or(vec![sast::Expr::True]);
    assert!(mccluskey::build_number(&bad).is_err());
    // a bare variable, a negated variable and a conjunction are accepted
    let good = sast::Expr::Or(vec![
        svar("a"),
        snot(svar("b")),
        sast::Expr::And(vec![svar("a"), snot(svar("b"))]),
    ]);
    assert!(mccluskey::build_number(&good).is_ok());
}

/// A negated variable encodes as `Zero` and an absent one as don't-care.
#[test]
fn encoder_polarity() {
    let e = sast::Expr::Or(vec![
        sast::Expr::And(vec![svar("a"), snot(svar("b"))]),
        snot(svar("b")),
        svar("a"),
    ]);
    let t = mccluskey::build_number(&e).unwrap();
    let mut rows: Vec<Vec<BoolOrDontCare>> = Vec::new();
    for (_, g) in &t {
        for r in g {
            rows.push(r.clone());
        }
    }
    assert!(rows.contains(&vec![One, Zero]));
    assert!(rows.contains(&vec![DontCare, Zero]));
    assert!(rows.contains(&vec![One, DontCare]));
}

/// `count_ones`, `count_diff`, `diff` and `number` on concrete vectors.
#[test]
fn vector_primitives() {
    let a = row(&[1, 0, 1, 0]);
    let b = row(&[1, 0, 0, 0]);
    assert_eq!(mccluskey::count_ones(&a), 2);
    assert_eq!(mccluskey::count_diff(&a, &b), 1);
    assert_eq!(mccluskey::diff(&a, &b), row(&[1, 0, 2, 0]));
    assert_eq!(mccluskey::number(&a), 10);
    assert_eq!(mccluskey::number(&row(&[1, 0, 2, 0])), 4);
    assert_eq!(mccluskey::number(&row(&[])), 0);
}

/// A later insertion into an assignment overrides an earlier one.
#[test]
fn varmap_overrides() {
    let mut m = VarMap::new();
    m.insert("x", false);
    m.insert("y", true);
    m.insert("x", true);
    assert_eq!(m.get("x"), Some(true));
    assert_eq!(m.get("y"), Some(true));
    assert_eq!(m.get("z"), None);
}

/// The partial evaluator folds what it knows and leaves the rest.
#[test]
fn evaluate_partial() {
    let e = N::And(
        Box::new(N::Term("p".to_string())),
        Box::new(N::Or(
            Box::new(N::Term("q".to_string())),
            Box::new(N::Term("r".to_string())),
        )),
    );
    let mut m = VarMap::new();
    m.insert("p", true);
    m.insert("q", false);
    let folded = e.evaluate(&m);
    assert_eq!(folded, N::Term("r".to_string()));
    let mut m2 = VarMap::new();
    m2.insert("p", false);
    assert_eq!(e.evaluate(&m2), N::False);
}

/// The evaluator folds the derived connectives through negation.
#[test]
fn evaluate_derived_connectives() {
    let e = N::Xor(
        Box::new(N::True),
        Box::new(N::Term("q".to_string())),
    );
    let m = VarMap::new();
    assert_eq!(e.evaluate(&m), N::Not(Box::new(N::Term("q".to_string()))));
    let e = N::Implication(Box::new(N::False), Box::new(N::Term("q".to_string())));
    assert_eq!(e.evaluate(&m), N::True);
}

/// `contains` and `variables` on the front-end formulas.
#[test]
fn nodes_variables() {
    let e = N::Biconditional(
        Box::new(N::Term("beta".to_string())),
        Box::new(N::Not(Box::new(N::Term("alpha".to_string())))),
    );
    assert!(e.contains("alpha"));
    assert!(e.contains("beta"));
    assert!(!e.contains("gamma"));
    assert_eq!(e.variables(), vec!["alpha".to_string(), "beta".to_string()]);
}

/// Truth tables over the bound variables of a constraint system.
#[test]
fn bound_truth_table_rows() {
    let c = nodes::Constraints {
        bound: vec!["s".to_string()],
        exprs: vec![N::Or(
            Box::new(N::Term("s".to_string())),
            Box::new(N::Term("f".to_string())),
        )],
    };
    let e = N::Or(
        Box::new(N::Term("s".to_string())),
        Box::new(N::Term("f".to_string())),
    );
    let rows = c.bound_truth_table(&e);
    assert_eq!(rows.len(), 2);
    // with s false the constraint stays symbolic; with s true it is true
    assert_eq!(rows[0].result, N::Term("f".to_string()));
    assert_eq!(rows[1].result, N::True);
    let tables = c.free_truth_tables();
    assert_eq!(tables.len(), 1);
    assert_eq!(tables[0].len(), 2);
}

/// A truth table of the demonstration variant: x & y.
#[test]
fn logic_truth_table() {
    let e = L::and(L::var("x"), L::var("y"));
    let (vars, rows) = e.truth_table();
    assert_eq!(vars, vec!["x".to_string(), "y".to_string()]);
    assert_eq!(
        rows,
        vec![
            vec![false, false, false],
            vec![false, true, false],
            vec![true, false, false],
            vec![true, true, true],
        ]
    );
}

/// Evaluation of the derived connectives in the demonstration variant.
#[test]
fn logic_eval() {
    let e = L::biconditional(
        L::xor(L::var("x"), L::var("y")),
        L::implication(L::var("x"), L::var("y")),
    );
    let m = assignment(&["x", "y"], &[true, false]);
    // xor is true, implication is false
    assert!(!e.eval(&m));
    assert!(L::truth().eval(&m));
    assert!(!L::falsey().eval(&m));
    assert!(L::not(L::falsey()).eval(&m));
    assert!(L::or(L::falsey(), L::var("x")).eval(&m));
    let v = L::and(L::var("x"), L::var("y"));
    assert!(!v.eval(&m));
    assert_eq!(v.vars(), vec!["x".to_string(), "y".to_string()]);
}

/// The trivial builders build what they say.
#[test]
fn builders() {
    assert_eq!(*ast::etrue(), ast::Expr::True);
    assert_eq!(*ast::efalse(), ast::Expr::False);
    assert_eq!(*ast::var("q"), ast::Expr::Var("q".to_string()));
    assert_eq!(
        *logic::Expr::var("q"),
        logic::Expr::Var("q".to_string())
    );
}

/// Encoding over an explicit variable list: absent variables become
/// don't-cares at their positions.
#[test]
fn encode_over_given_variables() {
    let e = sast::Expr::Or(vec![sast::Expr::And(vec![svar("b"), snot(svar("d"))])]);
    let vars = vec![
        "a".to_string(),
        "b".to_string(),
        "c".to_string(),
        "d".to_string(),
    ];
    let t = mccluskey::encode(&e, &vars).unwrap();
    assert_eq!(t.len(), 1);
    assert_eq!(t[0].0, 1);
    assert_eq!(t[0].1, vec![vec![DontCare, One, DontCare, Zero]]);
    assert!(mccluskey::encode(&svar("b"), &vars).is_err());
}
