//! A ranking of trails that every step of the search strictly increases.
//!
//! A trail is read as the sequence of the decision levels of its literals. With `n`
//! variables the trail holds at most `n` literals, each at a level of at most `n`. Read
//! each level `x` as the digit `n + 1 - x` in base `n + 2`, and pad the number on the
//! right to `n` digits: propagating or deciding appends a digit, and a backjump replaces
//! a digit by a larger one and drops what followed it. Both increase the number, which
//! stays below `(n + 2)^n`.
use vstd::arithmetic::power::*;
use vstd::prelude::*;

verus! {

pub open spec fn base(n: nat) -> int {
    n as int + 2
}

pub open spec fn digit(n: nat, x: int) -> int {
    n as int + 1 - x
}

/// The levels of a trail with `n` variables: at most `n` of them, each in `0..=n`.
pub open spec fn bounded(n: nat, s: Seq<int>) -> bool {
    s.len() <= n && forall|i: int| 0 <= i < s.len() ==> 0 <= #[trigger] s[i] <= n
}

/// The digits of `s`, read as a number in base `n + 2`.
pub open spec fn horner(n: nat, s: Seq<int>) -> int
    decreases s.len(),
{
    if s.len() == 0 {
        0
    } else {
        horner(n, s.drop_last()) * base(n) + digit(n, s.last())
    }
}

/// The rank of a trail whose levels are `s`.
pub open spec fn rank(n: nat, s: Seq<int>) -> int {
    horner(n, s) * pow(base(n), (n - s.len()) as nat)
}

/// The rank's upper bound.
pub open spec fn rank_limit(n: nat) -> int {
    pow(base(n), n)
}

proof fn lemma_pow_step(b: int, e: nat)
    requires
        e >= 1,
    ensures
        pow(b, e) == b * pow(b, (e - 1) as nat),
{
    reveal(pow);
}

proof fn lemma_horner_bound(n: nat, s: Seq<int>)
    requires
        forall|i: int| 0 <= i < s.len() ==> 0 <= #[trigger] s[i] <= n,
    ensures
        0 <= horner(n, s) < pow(base(n), s.len()),
        s.len() > 0 ==> horner(n, s) >= 1,
    decreases s.len(),
{
    reveal(pow);
    if s.len() > 0 {
        let t = s.drop_last();
        assert forall|i: int| 0 <= i < t.len() implies 0 <= #[trigger] t[i] <= n by {
            assert(t[i] == s[i]);
        }
        lemma_horner_bound(n, t);
        let h = horner(n, t);
        let p = pow(base(n), t.len());
        let d = digit(n, s.last());
        let b = base(n);
        lemma_pow_step(b, s.len());
        assert(1 <= d < b);
        assert(h * b + d < p * b && h * b + d >= 1) by (nonlinear_arith)
            requires
                0 <= h < p,
                1 <= d < b,
        ;
        assert(horner(n, s) == h * b + d);
        assert(pow(b, s.len()) == b * p);
        assert(p * b == b * p) by (nonlinear_arith);
    } else {
        assert(pow(base(n), 0) == 1);
    }
}

proof fn lemma_horner_append(n: nat, p: Seq<int>, q: Seq<int>)
    ensures
        horner(n, p + q) == horner(n, p) * pow(base(n), q.len()) + horner(n, q),
    decreases q.len(),
{
    reveal(pow);
    if q.len() == 0 {
        assert(p + q =~= p);
    } else {
        let q0 = q.drop_last();
        assert((p + q).drop_last() =~= p + q0);
        assert((p + q).last() == q.last());
        lemma_horner_append(n, p, q0);
        let b = base(n);
        lemma_pow_step(b, q.len());
        let hp = horner(n, p);
        let pw = pow(b, q0.len());
        let hq = horner(n, q0);
        assert((hp * pw + hq) * b == hp * (b * pw) + hq * b) by (nonlinear_arith);
    }
}

/// The rank of a bounded trail is below the limit, and not negative.
pub proof fn lemma_rank_bound(n: nat, s: Seq<int>)
    requires
        bounded(n, s),
    ensures
        0 <= rank(n, s) < rank_limit(n),
{
    lemma_horner_bound(n, s);
    let b = base(n);
    let h = horner(n, s);
    let e1 = s.len();
    let e2 = (n - s.len()) as nat;
    lemma_pow_adds(b, e1, e2);
    lemma_pow_positive(b, e2);
    let p1 = pow(b, e1);
    let p2 = pow(b, e2);
    assert(h * p2 < p1 * p2 && h * p2 >= 0) by (nonlinear_arith)
        requires
            0 <= h < p1,
            p2 > 0,
    ;
}

/// Appending levels does not lower the rank, and appending at least one raises it.
pub proof fn lemma_rank_extend(n: nat, p: Seq<int>, q: Seq<int>)
    requires
        bounded(n, p + q),
    ensures
        rank(n, p + q) >= rank(n, p),
        q.len() > 0 ==> rank(n, p + q) > rank(n, p),
{
    assert forall|i: int| 0 <= i < q.len() implies 0 <= #[trigger] q[i] <= n by {
        assert(q[i] == (p + q)[p.len() + i]);
    }
    lemma_horner_append(n, p, q);
    lemma_horner_bound(n, q);
    let b = base(n);
    let e = (n - (p + q).len()) as nat;
    lemma_pow_adds(b, q.len(), e);
    lemma_pow_positive(b, e);
    let hp = horner(n, p);
    let hq = horner(n, q);
    let pq = pow(b, q.len());
    let pe = pow(b, e);
    assert((p + q).len() == p.len() + q.len());
    assert((n - p.len()) as nat == q.len() + e);
    assert((hp * pq + hq) * pe == hp * (pq * pe) + hq * pe) by (nonlinear_arith);
    assert(hq * pe >= 0) by (nonlinear_arith)
        requires
            hq >= 0,
            pe > 0,
    ;
    if q.len() > 0 {
        assert(hq * pe > 0) by (nonlinear_arith)
            requires
                hq >= 1,
                pe > 0,
        ;
    }
}

/// Keeping the first `c` levels and then one level lower than the one at `c` raises the rank.
pub proof fn lemma_rank_backjump(n: nat, s: Seq<int>, c: int, x: int)
    requires
        bounded(n, s),
        0 <= c < s.len(),
        0 <= x < s[c],
    ensures
        rank(n, s.subrange(0, c).push(x)) > rank(n, s),
{
    let b = base(n);
    let p = s.subrange(0, c);
    let pa = p.push(s[c]);
    let r = s.subrange(c + 1, s.len() as int);
    assert(s =~= pa + r);
    assert forall|i: int| 0 <= i < r.len() implies 0 <= #[trigger] r[i] <= n by {
        assert(r[i] == s[c + 1 + i]);
    }
    lemma_horner_append(n, pa, r);
    lemma_horner_bound(n, r);
    assert(pa.drop_last() =~= p);
    let t = p.push(x);
    assert(t.drop_last() =~= p);
    let hp = horner(n, p);
    let da = digit(n, s[c]);
    let dx = digit(n, x);
    let hr = horner(n, r);
    let pr = pow(b, r.len());
    let e = (n - s.len()) as nat;
    let et = (n - t.len()) as nat;
    lemma_pow_adds(b, r.len(), e);
    lemma_pow_positive(b, e);
    lemma_pow_positive(b, et);
    assert(et == r.len() + e);
    let pe = pow(b, e);
    let pt = pow(b, et);
    assert(pt == pr * pe);
    assert(horner(n, s) == (hp * b + da) * pr + hr);
    assert(horner(n, t) == hp * b + dx);
    assert(dx >= da + 1);
    assert(((hp * b + da) * pr + hr) * pe < (hp * b + dx) * pt) by (nonlinear_arith)
        requires
            0 <= hr < pr,
            pe > 0,
            pt == pr * pe,
            dx >= da + 1,
    ;
}

} // verus!
