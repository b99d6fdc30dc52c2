//! Normalization of input clauses: sorted, without duplicates, tautologies detected.
use vstd::prelude::*;

use crate::lit::{int_code, Lit};

verus! {

/// The literals are in strictly increasing order of code: sorted, and no literal twice.
pub open spec fn strictly_sorted(s: Seq<Lit>) -> bool {
    forall|i: int, j: int| 0 <= i < j < s.len() ==> s[i].code() < s[j].code()
}

/// The clause holds a literal and its negation.
pub open spec fn tautology(s: Seq<Lit>) -> bool {
    exists|i: int, j: int|
        0 <= i < s.len() && 0 <= j < s.len() && #[trigger] s[i].var_id() == #[trigger] s[j].var_id()
            && s[i].positive() != s[j].positive()
}

/// The two sequences hold the same literals.
pub open spec fn same_lits(a: Seq<Lit>, b: Seq<Lit>) -> bool {
    forall|l: Lit| a.contains(l) <==> b.contains(l)
}

/// Inserts `x` into the strictly sorted `out`, unless it is already there.
fn insert_sorted(out: &mut Vec<Lit>, x: Lit)
    requires
        strictly_sorted(old(out)@),
    ensures
        strictly_sorted(final(out)@),
        forall|l: Lit| final(out)@.contains(l) <==> (old(out)@.contains(l) || l == x),
{
    let c = x.get();
    let mut i: usize = 0;
    while i < out.len() && out[i].get() < c
        invariant
            i <= out@.len(),
            out@ == old(out)@,
            c == x.code(),
            forall|k: int| 0 <= k < i ==> #[trigger] out@[k].code() < c,
        decreases out@.len() - i,
    {
        i = i + 1;
    }
    if i < out.len() && out[i].get() == c {
        proof {
            x.lemma_code_injective(out@[i as int]);
            assert(out@[i as int] == x);
            assert(out@.contains(x));
            assert forall|l: Lit| out@.contains(l) <==> (old(out)@.contains(l) || l == x) by {}
        }
        return;
    }
    out.insert(i, x);
    proof {
        let o = old(out)@;
        assert(out@ == o.insert(i as int, x));
        assert forall|l: Lit| #[trigger] out@.contains(l) implies o.contains(l) || l == x by {
            let k = choose|k: int| 0 <= k < out@.len() && out@[k] == l;
            if k < i {
                assert(o[k] == l);
            } else if k > i {
                assert(o[k - 1] == l);
            }
        }
        assert forall|l: Lit| #[trigger] o.contains(l) implies out@.contains(l) by {
            let k = choose|k: int| 0 <= k < o.len() && o[k] == l;
            if k < i {
                assert(out@[k] == l);
            } else {
                assert(out@[k + 1] == l);
            }
        }
        assert(out@[i as int] == x);
    }
}

/// Sorts `cls` by code and removes duplicate literals. Returns whether it is a tautology.
pub fn normalise_clause(cls: &mut Vec<Lit>) -> (r: bool)
    ensures
        strictly_sorted(final(cls)@),
        same_lits(final(cls)@, old(cls)@),
        r == tautology(old(cls)@),
{
    let mut out: Vec<Lit> = Vec::new();
    let mut i: usize = 0;
    while i < cls.len()
        invariant
            i <= cls@.len(),
            strictly_sorted(out@),
            forall|l: Lit| out@.contains(l) <==> cls@.subrange(0, i as int).contains(l),
        decreases cls@.len() - i,
    {
        let ghost before = out@;
        insert_sorted(&mut out, cls[i]);
        proof {
            let s0 = cls@.subrange(0, i as int);
            let s1 = cls@.subrange(0, i + 1);
            assert forall|l: Lit| out@.contains(l) <==> s1.contains(l) by {
                if s1.contains(l) {
                    let k = choose|k: int| 0 <= k < s1.len() && #[trigger] s1[k] == l;
                    if k < i {
                        assert(s0[k] == l);
                    }
                }
                if s0.contains(l) {
                    let k = choose|k: int| 0 <= k < s0.len() && #[trigger] s0[k] == l;
                    assert(s1[k] == l);
                }
                if l == cls@[i as int] {
                    assert(s1[i as int] == l);
                }
            }
        }
        i = i + 1;
    }
    proof {
        assert(cls@.subrange(0, cls@.len() as int) =~= cls@);
    }
    let mut taut = false;
    let mut j: usize = 1;
    while j < out.len()
        invariant
            1 <= j,
            j <= out@.len() || out@.len() == 0,
            strictly_sorted(out@),
            !taut ==> forall|k: int| 1 <= k < j ==> #[trigger] out@[k].var_id() != out@[k - 1].var_id(),
            taut ==> tautology(out@),
        decreases out@.len() - j,
    {
        let a = out[j - 1];
        let b = out[j];
        if a.var().get() == b.var().get() {
            assert(a.positive() != b.positive()) by {
                a.lemma_code_injective(b);
            }
            taut = true;
        }
        j = j + 1;
    }
    proof {
        lemma_tautology_same_lits(out@, cls@);
        if !taut {
            assert(!tautology(out@)) by {
                if tautology(out@) {
                    let (a, b) = choose|a: int, b: int|
                        0 <= a < out@.len() && 0 <= b < out@.len() && #[trigger] out@[a].var_id() == #[trigger] out@[b].var_id()
                            && out@[a].positive() != out@[b].positive();
                    let (p, q) = if a < b { (a, b) } else { (b, a) };
                    assert(out@[p].code() < out@[q].code());
                    if q > p + 1 {
                        assert(out@[p].code() < out@[p + 1].code() < out@[q].code());
                        assert(out@[p + 1].var_id() == out@[p].var_id());
                    }
                    assert(out@[q].var_id() != out@[q - 1].var_id());
                }
            }
        }
    }
    *cls = out;
    taut
}

/// Normalization forgets order and repeats: two clauses with the same literals normalize
/// to the same clause, since a strictly sorted sequence is fixed by the literals it holds.
pub proof fn lemma_normal_form_unique(a: Seq<Lit>, b: Seq<Lit>)
    requires
        strictly_sorted(a),
        strictly_sorted(b),
        same_lits(a, b),
    ensures
        a == b,
    decreases a.len(),
{
    if a.len() == 0 {
        if b.len() > 0 {
            assert(b.contains(b[0]));
        }
        assert(a =~= b);
    } else if b.len() == 0 {
        assert(a.contains(a[0]));
    } else {
        // The first literals agree: each is the least of the common set.
        assert(a.contains(a[0]) && b.contains(b[0]));
        let i = choose|i: int| 0 <= i < b.len() && b[i] == a[0];
        let j = choose|j: int| 0 <= j < a.len() && a[j] == b[0];
        if i > 0 {
            assert(b[0].code() < b[i].code());
            if j > 0 {
                assert(a[0].code() < a[j].code());
            }
        }
        if j > 0 {
            assert(a[0].code() < a[j].code());
        }
        assert(a[0] == b[0]);
        let a1 = a.subrange(1, a.len() as int);
        let b1 = b.subrange(1, b.len() as int);
        assert forall|l: Lit| a1.contains(l) <==> b1.contains(l) by {
            if a1.contains(l) {
                let k = choose|k: int| 0 <= k < a1.len() && a1[k] == l;
                assert(a[k + 1] == l && a.contains(l));
                let m = choose|m: int| 0 <= m < b.len() && b[m] == l;
                if m == 0 {
                    assert(a[0].code() < a[k + 1].code());
                }
                assert(b1[m - 1] == l);
            }
            if b1.contains(l) {
                let k = choose|k: int| 0 <= k < b1.len() && b1[k] == l;
                assert(b[k + 1] == l && b.contains(l));
                let m = choose|m: int| 0 <= m < a.len() && a[m] == l;
                if m == 0 {
                    assert(b[0].code() < b[k + 1].code());
                }
                assert(a1[m - 1] == l);
            }
        }
        lemma_normal_form_unique(a1, b1);
        assert(a =~= seq![a[0]] + a1);
        assert(b =~= seq![b[0]] + b1);
    }
}

/// A sequence without repeats, all of whose literals are in `b`, is no longer than `b`.
pub proof fn lemma_sorted_len(a: Seq<Lit>, b: Seq<Lit>)
    requires
        strictly_sorted(a),
        same_lits(a, b),
    ensures
        a.len() <= b.len(),
{
    assert(a.no_duplicates()) by {
        assert forall|i: int, j: int| 0 <= i < a.len() && 0 <= j < a.len() && i != j implies a[i] != a[j] by {
            if i < j {
                assert(a[i].code() < a[j].code());
            } else {
                assert(a[j].code() < a[i].code());
            }
        }
    }
    a.unique_seq_to_set();
    b.lemma_cardinality_of_set();
    assert(a.to_set() =~= b.to_set());
}

/// Whether a clause is a tautology depends only on which literals it holds.
pub proof fn lemma_tautology_same_lits(a: Seq<Lit>, b: Seq<Lit>)
    requires
        same_lits(a, b),
    ensures
        tautology(a) == tautology(b),
{
    if tautology(a) {
        let (i, j) = choose|i: int, j: int|
            0 <= i < a.len() && 0 <= j < a.len() && #[trigger] a[i].var_id() == #[trigger] a[j].var_id()
                && a[i].positive() != a[j].positive();
        assert(a.contains(a[i]) && a.contains(a[j]));
        let k = choose|k: int| 0 <= k < b.len() && b[k] == a[i];
        let m = choose|m: int| 0 <= m < b.len() && b[m] == a[j];
        assert(b[k].var_id() == b[m].var_id());
    }
    if tautology(b) {
        let (i, j) = choose|i: int, j: int|
            0 <= i < b.len() && 0 <= j < b.len() && #[trigger] b[i].var_id() == #[trigger] b[j].var_id()
                && b[i].positive() != b[j].positive();
        assert(b.contains(b[i]) && b.contains(b[j]));
        let k = choose|k: int| 0 <= k < a.len() && a[k] == b[i];
        let m = choose|m: int| 0 <= m < a.len() && a[m] == b[j];
        assert(a[k].var_id() == a[m].var_id());
    }
}

/// The literals of a clause written as DIMACS integers.
pub open spec fn dimacs_lits(c: Seq<int>) -> Seq<Lit> {
    Seq::new(c.len(), |i: int| Lit::from_code_spec(int_code(c[i]) as u32))
}

/// The normal form of a clause: its literals, strictly sorted.
pub open spec fn normal_form(c: Seq<Lit>) -> Seq<Lit> {
    choose|s: Seq<Lit>| strictly_sorted(s) && same_lits(s, c)
}

/// The normal forms of the clauses of a DIMACS formula, tautologies left out.
pub open spec fn normal_forms(cs: Seq<Seq<int>>) -> Seq<Seq<Lit>>
    decreases cs.len(),
{
    if cs.len() == 0 {
        Seq::empty()
    } else {
        let rest = normal_forms(cs.drop_last());
        let c = dimacs_lits(cs.last());
        if tautology(c) { rest } else { rest.push(normal_form(c)) }
    }
}

/// A strictly sorted sequence with the literals of `c` is its normal form.
pub proof fn lemma_is_normal_form(s: Seq<Lit>, c: Seq<Lit>)
    requires
        strictly_sorted(s),
        same_lits(s, c),
    ensures
        s == normal_form(c),
{
    let t = normal_form(c);
    assert(strictly_sorted(t) && same_lits(t, c));
    assert forall|l: Lit| s.contains(l) <==> t.contains(l) by {}
    lemma_normal_form_unique(s, t);
}

} // verus!
