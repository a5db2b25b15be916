//! Ordering utilities shared by the expression modules: a three-way
//! comparison result and a lexicographic order on variable names.

use vstd::prelude::*;

verus! {

/// Result of a three-way comparison.
#[derive(Clone, Copy, Debug, PartialEq, Eq, Structural)]
pub enum Comparison {
    Less,
    Equal,
    Greater,
}

/// Strict lexicographic order on character sequences, by code point.
pub open spec fn lex_lt(a: Seq<char>, b: Seq<char>) -> bool
    decreases a.len(), b.len(),
{
    if b.len() == 0 {
        false
    } else if a.len() == 0 {
        true
    } else if (a[0] as u32) < (b[0] as u32) {
        true
    } else if (a[0] as u32) > (b[0] as u32) {
        false
    } else {
        lex_lt(a.drop_first(), b.drop_first())
    }
}

/// Of two names, exactly one of `a < b`, `a == b`, `b < a` holds.
pub proof fn lemma_lex_trichotomy(a: Seq<char>, b: Seq<char>)
    ensures
        lex_lt(a, b) ==> !lex_lt(b, a) && a != b,
        !lex_lt(a, b) && !lex_lt(b, a) ==> a == b,
    decreases a.len(), b.len(),
{
    if b.len() == 0 || a.len() == 0 {
        if a.len() == 0 && b.len() == 0 {
            assert(a =~= b);
        }
    } else if (a[0] as u32) == (b[0] as u32) {
        lemma_lex_trichotomy(a.drop_first(), b.drop_first());
        assert(a[0] == b[0]) by {
            vstd::utf8::char_u32_cast(a[0], a[0] as u32);
            vstd::utf8::char_u32_cast(b[0], b[0] as u32);
        }
        if !lex_lt(a, b) && !lex_lt(b, a) {
            assert(a.drop_first() == b.drop_first());
            assert(a =~= b) by {
                assert forall|i: int| 1 <= i < a.len() implies a[i] == b[i] by {
                    assert(a.drop_first()[i - 1] == b.drop_first()[i - 1]);
                }
            }
        }
        if lex_lt(a, b) && a == b {
            assert(a.drop_first() == b.drop_first());
        }
    }
}

/// Lexicographic order is transitive.
pub proof fn lemma_lex_transitive(a: Seq<char>, b: Seq<char>, c: Seq<char>)
    requires
        lex_lt(a, b),
        lex_lt(b, c),
    ensures
        lex_lt(a, c),
    decreases a.len(),
{
    if a.len() != 0 && b.len() != 0 && c.len() != 0 {
        if (a[0] as u32) == (b[0] as u32) && (b[0] as u32) == (c[0] as u32) {
            lemma_lex_transitive(a.drop_first(), b.drop_first(), c.drop_first());
        }
    }
}

/// On names that agree on their first `i` characters, the lexicographic
/// order is decided by the remainders alone.
proof fn lemma_lex_skip(a: Seq<char>, b: Seq<char>, i: int)
    requires
        0 <= i <= a.len(),
        0 <= i <= b.len(),
        a.subrange(0, i) == b.subrange(0, i),
    ensures
        lex_lt(a, b) == lex_lt(a.skip(i), b.skip(i)),
    decreases i,
{
    if i > 0 {
        assert(a[0] == a.subrange(0, i)[0]);
        assert(b[0] == b.subrange(0, i)[0]);
        assert(a.drop_first().subrange(0, i - 1) =~= b.drop_first().subrange(0, i - 1)) by {
            assert(forall|j: int| 0 <= j < i - 1 ==>
                #[trigger] a.drop_first()[j] == a.subrange(0, i)[j + 1]
                && b.drop_first()[j] == b.subrange(0, i)[j + 1]);
        }
        lemma_lex_skip(a.drop_first(), b.drop_first(), i - 1);
        assert(a.drop_first().skip(i - 1) =~= a.skip(i));
        assert(b.drop_first().skip(i - 1) =~= b.skip(i));
    } else {
        assert(a.skip(0) =~= a);
        assert(b.skip(0) =~= b);
    }
}

/// Three-way lexicographic comparison of two names.
pub fn str_compare(a: &str, b: &str) -> (r: Comparison)
    ensures
        r == Comparison::Less <==> lex_lt(a@, b@),
        r == Comparison::Equal <==> a@ == b@,
        r == Comparison::Greater <==> lex_lt(b@, a@),
{
    let alen = a.unicode_len();
    let blen = b.unicode_len();
    let mut i: usize = 0;
    loop
        invariant
            i <= alen,
            i <= blen,
            alen == a@.len(),
            blen == b@.len(),
            a@.subrange(0, i as int) == b@.subrange(0, i as int),
        decreases alen - i,
    {
        proof {
            lemma_lex_skip(a@, b@, i as int);
            lemma_lex_skip(b@, a@, i as int);
            lemma_lex_trichotomy(a@, b@);
        }
        if i == alen || i == blen {
            if alen == blen {
                proof {
                    assert(a@ =~= b@);
                }
                return Comparison::Equal;
            } else if alen < blen {
                proof {
                    assert(a@.skip(i as int).len() == 0);
                    assert(b@.skip(i as int).len() > 0);
                }
                return Comparison::Less;
            } else {
                proof {
                    assert(b@.skip(i as int).len() == 0);
                    assert(a@.skip(i as int).len() > 0);
                }
                return Comparison::Greater;
            }
        }
        let ca = a.get_char(i) as u32;
        let cb = b.get_char(i) as u32;
        proof {
            assert(a@.skip(i as int)[0] == a@[i as int]);
            assert(b@.skip(i as int)[0] == b@[i as int]);
        }
        if ca < cb {
            return Comparison::Less;
        } else if ca > cb {
            return Comparison::Greater;
        }
        proof {
            assert(a@[i as int] == b@[i as int]);
            assert forall|j: int| 0 <= j <= i implies a@[j] == b@[j] by {
                if j < i {
                    assert(a@.subrange(0, i as int)[j] == b@.subrange(0, i as int)[j]);
                }
            }
            assert(a@.subrange(0, i + 1) =~= b@.subrange(0, i + 1));
        }
        i = i + 1;
    }
}

/// The names in a list, as a set of character sequences.
pub open spec fn name_set(s: Seq<String>) -> Set<Seq<char>> {
    Set::new(|n: Seq<char>| exists|i: int| 0 <= i < s.len() && #[trigger] s[i]@ == n)
}

/// The name list is strictly increasing: sorted with no duplicates.
pub open spec fn strictly_sorted(s: Seq<String>) -> bool {
    forall|i: int, j: int| 0 <= i < j < s.len() ==> lex_lt(#[trigger] s[i]@, #[trigger] s[j]@)
}

/// Places a name into a sorted duplicate-free list, keeping it sorted and
/// duplicate-free; a name already present is left alone.
pub fn sorted_insert(v: &mut Vec<String>, s: String)
    requires
        strictly_sorted(old(v)@),
    ensures
        strictly_sorted(final(v)@),
        name_set(final(v)@) == name_set(old(v)@).insert(s@),
{
    let mut i: usize = 0;
    loop
        invariant
            i <= v.len(),
            v@ == old(v)@,
            strictly_sorted(v@),
            forall|j: int| 0 <= j < i ==> lex_lt(#[trigger] v@[j]@, s@),
        ensures
            v@ == old(v)@,
            i <= v.len(),
            forall|j: int| 0 <= j < i ==> lex_lt(#[trigger] v@[j]@, s@),
            i < v.len() ==> !lex_lt(v@[i as int]@, s@),
            i < v.len() ==> v@[i as int]@ != s@,
        decreases v.len() - i,
    {
        if i == v.len() {
            break;
        }
        let c = str_compare(v[i].as_str(), s.as_str());
        match c {
            Comparison::Less => {
                i = i + 1;
            },
            Comparison::Equal => {
                proof {
                    assert(name_set(v@).contains(s@));
                    assert(name_set(v@).insert(s@) =~= name_set(v@));
                }
                return;
            },
            Comparison::Greater => {
                proof {
                    lemma_lex_trichotomy(v@[i as int]@, s@);
                }
                break;
            },
        }
    }
    let ghost before = v@;
    let ghost pos = i as int;
    proof {
        if pos < before.len() {
            lemma_lex_trichotomy(before[pos]@, s@);
            assert(lex_lt(s@, before[pos]@));
        }
        before.insert_ensures(pos, s);
    }
    v.insert(i, s);
    proof {
        assert(v@ == before.insert(pos, s));
        assert forall|j: int, k: int| 0 <= j < k < v@.len()
            implies lex_lt(#[trigger] v@[j]@, #[trigger] v@[k]@) by {
            if k < pos {
                assert(v@[j] == before[j] && v@[k] == before[k]);
            } else if k == pos {
                assert(v@[j] == before[j]);
                assert(v@[k] == s);
            } else {
                assert(v@[k] == before[k - 1]);
                if j < pos {
                    assert(v@[j] == before[j]);
                    if k - 1 == j {
                        assert(lex_lt(before[j]@, s@));
                        assert(false);
                    }
                } else if j == pos {
                    assert(v@[j] == s);
                    assert(lex_lt(s@, before[pos]@));
                    if k - 1 > pos {
                        assert(lex_lt(before[pos]@, before[k - 1]@));
                        lemma_lex_transitive(s@, before[pos]@, before[k - 1]@);
                    }
                } else {
                    assert(v@[j] == before[j - 1]);
                }
            }
        }
        assert(name_set(v@) =~= name_set(before).insert(s@)) by {
            assert forall|n: Seq<char>| name_set(v@).contains(n)
                implies name_set(before).insert(s@).contains(n) by {
                let w = choose|w: int| 0 <= w < v@.len() && #[trigger] v@[w]@ == n;
                if w < pos {
                    assert(before[w]@ == n);
                } else if w > pos {
                    assert(before[w - 1]@ == n);
                }
            }
            assert forall|n: Seq<char>| name_set(before).insert(s@).contains(n)
                implies name_set(v@).contains(n) by {
                if n == s@ {
                    assert(v@[pos]@ == n);
                } else {
                    let w = choose|w: int| 0 <= w < before.len() && #[trigger] before[w]@ == n;
                    if w < pos {
                        assert(v@[w]@ == n);
                    } else {
                        assert(v@[w + 1]@ == n);
                    }
                }
            }
        }
    }
}

/// The names of a list of strings, as character sequences.
pub open spec fn names_of(s: Seq<String>) -> Seq<Seq<char>>
    decreases s.len(),
{
    if s.len() == 0 {
        Seq::empty()
    } else {
        names_of(s.drop_last()).push(s.last()@)
    }
}

/// `names_of` maps the list elementwise.
pub proof fn lemma_names_of_index(s: Seq<String>)
    ensures
        names_of(s).len() == s.len(),
        forall|i: int| 0 <= i < s.len() ==> #[trigger] names_of(s)[i] == s[i]@,
    decreases s.len(),
{
    if s.len() > 0 {
        lemma_names_of_index(s.drop_last());
        assert forall|i: int| 0 <= i < s.len() implies #[trigger] names_of(s)[i] == s[i]@ by {
            if i < s.len() - 1 {
                assert(names_of(s)[i] == names_of(s.drop_last())[i]);
                assert(s.drop_last()[i] == s[i]);
            }
        }
    }
}

/// A name list in strictly increasing lexicographic order.
pub open spec fn sorted_names(s: Seq<Seq<char>>) -> bool {
    forall|i: int, j: int| 0 <= i < j < s.len() ==> lex_lt(#[trigger] s[i], #[trigger] s[j])
}

/// Two sorted name lists holding the same names are equal.
pub proof fn lemma_sorted_names_unique(a: Seq<Seq<char>>, b: Seq<Seq<char>>)
    requires
        sorted_names(a),
        sorted_names(b),
        a.to_set() == b.to_set(),
    ensures
        a == b,
    decreases a.len(),
{
    if a.len() == 0 {
        if b.len() > 0 {
            assert(b.to_set().contains(b[0]));
            assert(a.to_set().contains(b[0]));
            let w = choose|w: int| 0 <= w < a.len() && a[w] == b[0];
            assert(false);
        }
        assert(a =~= b);
    } else if b.len() == 0 {
        assert(a.to_set().contains(a[0]));
        assert(b.to_set().contains(a[0]));
        let w = choose|w: int| 0 <= w < b.len() && b[w] == a[0];
        assert(false);
    } else {
        assert(a[0] == b[0]) by {
            assert(a.to_set().contains(a[0]));
            assert(b.to_set().contains(a[0]));
            let wa = choose|w: int| 0 <= w < b.len() && b[w] == a[0];
            assert(b.to_set().contains(b[0]));
            assert(a.to_set().contains(b[0]));
            let wb = choose|w: int| 0 <= w < a.len() && a[w] == b[0];
            lemma_lex_trichotomy(a[0], b[0]);
            if lex_lt(a[0], b[0]) {
                if wa > 0 {
                    assert(lex_lt(b[0], b[wa]));
                    lemma_lex_trichotomy(b[0], b[wa]);
                }
                assert(false);
            } else if lex_lt(b[0], a[0]) {
                if wb > 0 {
                    assert(lex_lt(a[0], a[wb]));
                    lemma_lex_trichotomy(a[0], a[wb]);
                }
                assert(false);
            }
        }
        assert forall|i: int, j: int| 0 <= i < j < a.drop_first().len()
            implies lex_lt(#[trigger] a.drop_first()[i], #[trigger] a.drop_first()[j]) by {
            assert(a.drop_first()[i] == a[i + 1] && a.drop_first()[j] == a[j + 1]);
        }
        assert forall|i: int, j: int| 0 <= i < j < b.drop_first().len()
            implies lex_lt(#[trigger] b.drop_first()[i], #[trigger] b.drop_first()[j]) by {
            assert(b.drop_first()[i] == b[i + 1] && b.drop_first()[j] == b[j + 1]);
        }
        assert(a.drop_first().to_set() =~= b.drop_first().to_set()) by {
            assert forall|n: Seq<char>| a.drop_first().to_set().contains(n)
                implies b.drop_first().to_set().contains(n) by {
                let w = choose|w: int| 0 <= w < a.drop_first().len()
                    && #[trigger] a.drop_first()[w] == n;
                assert(a[w + 1] == n);
                assert(a.to_set().contains(n));
                assert(b.to_set().contains(n));
                let u = choose|u: int| 0 <= u < b.len() && #[trigger] b[u] == n;
                assert(lex_lt(a[0], a[w + 1]));
                if u == 0 {
                    lemma_lex_trichotomy(a[0], n);
                    assert(false);
                }
                assert(b.drop_first()[u - 1] == n);
            }
            assert forall|n: Seq<char>| b.drop_first().to_set().contains(n)
                implies a.drop_first().to_set().contains(n) by {
                let w = choose|w: int| 0 <= w < b.drop_first().len()
                    && #[trigger] b.drop_first()[w] == n;
                assert(b[w + 1] == n);
                assert(b.to_set().contains(n));
                assert(a.to_set().contains(n));
                let u = choose|u: int| 0 <= u < a.len() && #[trigger] a[u] == n;
                assert(lex_lt(b[0], b[w + 1]));
                if u == 0 {
                    lemma_lex_trichotomy(b[0], n);
                    assert(false);
                }
                assert(a.drop_first()[u - 1] == n);
            }
        }
        lemma_sorted_names_unique(a.drop_first(), b.drop_first());
        assert(a =~= b) by {
            assert forall|i: int| 0 <= i < a.len() implies a[i] == b[i] by {
                if i > 0 {
                    assert(a.drop_first()[i - 1] == b.drop_first()[i - 1]);
                }
            }
        }
    }
}

} // verus!
