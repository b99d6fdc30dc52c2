//! Reduction of the learned clauses: marking by glue, compaction, handle rewriting.
use vstd::prelude::*;

use crate::assignment::TrailReason;
use crate::clause::{ClauseDB, ClauseIdx, REMOVED};
use crate::solver::{same_clauses, Solver, Watch};
use crate::sound::{lemma_sound_db, lemma_sound_trail_prefix};

verus! {

/// Learned clauses with a glue up to this are always kept.
pub const KEEP_GLUE: u32 = 2;

/// The clause at `s` may be dropped: it is no reason and its glue is above [`KEEP_GLUE`].
pub open spec fn candidate(db: ClauseDB, s: int) -> bool {
    !db.clause(s).reason() && db.clause(s).glue > KEEP_GLUE
}

/// `x` ranks at least as high as `y` for removal: higher glue, or equal glue and at
/// least the length.
pub open spec fn ranks_above(x: (u32, u32, ClauseIdx), y: (u32, u32, ClauseIdx)) -> bool {
    x.0 > y.0 || (x.0 == y.0 && x.1 >= y.1)
}

/// The candidates are in order of rank, highest first.
pub open spec fn ranked(c: Seq<(u32, u32, ClauseIdx)>) -> bool {
    forall|a: int, b: int| 0 <= a < b < c.len() ==> ranks_above(#[trigger] c[a], #[trigger] c[b])
}

/// The number of candidates for removal in `db`.
pub open spec fn candidate_count(db: ClauseDB) -> nat {
    Set::new(|s: int| db.handles().contains(s) && candidate(db, s)).len()
}

/// The number of clauses of `db` that are marked as garbage in `db2`.
pub open spec fn marked_count(db: ClauseDB, db2: ClauseDB) -> nat {
    Set::new(|s: int| db.handles().contains(s) && db2.clause(s).garbage()).len()
}

/// The handles of a watch list.
pub open spec fn watch_handles(l: Seq<Watch>) -> Seq<int> {
    Seq::new(l.len(), |b: int| l[b].clause.at())
}

/// Handles taken before a garbage collection of `db`, rewritten: those of removed
/// clauses dropped, the others forwarded, in order.
pub open spec fn rewritten(hs: Seq<int>, db: ClauseDB) -> Seq<int>
    decreases hs.len(),
{
    if hs.len() == 0 {
        Seq::empty()
    } else {
        let r = rewritten(hs.drop_last(), db);
        if db.forward(hs.last()) == REMOVED { r } else { r.push(db.forward(hs.last()) as int) }
    }
}

/// No two candidates name the same clause.
pub open spec fn distinct_handles(c: Seq<(u32, u32, ClauseIdx)>) -> bool {
    forall|a: int, b: int| 0 <= a < c.len() && 0 <= b < c.len() && a != b ==> #[trigger] c[a].2.at() != #[trigger] c[b].2.at()
}

/// Puts the candidates in order of glue, highest first, and of length, longest first.
fn sort_candidates(c: &mut Vec<(u32, u32, ClauseIdx)>)
    requires
        distinct_handles(old(c)@),
    ensures
        distinct_handles(final(c)@),
        final(c)@.len() == old(c)@.len(),
        forall|i: int| 0 <= i < final(c)@.len() ==> old(c)@.contains(#[trigger] final(c)@[i]),
        forall|i: int| 0 <= i < old(c)@.len() ==> final(c)@.contains(#[trigger] old(c)@[i]),
        ranked(final(c)@),
{
    let mut i: usize = 1;
    proof {
        assert forall|a: int| 0 <= a < c@.len() implies old(c)@.contains(#[trigger] c@[a]) by {
            assert(old(c)@[a] == c@[a]);
        }
        assert forall|a: int| 0 <= a < old(c)@.len() implies c@.contains(#[trigger] old(c)@[a]) by {
            assert(old(c)@[a] == c@[a]);
        }
    }
    while i < c.len()
        invariant
            1 <= i,
            distinct_handles(c@),
            c@.len() == old(c)@.len(),
            forall|a: int| 0 <= a < c@.len() ==> old(c)@.contains(#[trigger] c@[a]),
            forall|a: int| 0 <= a < old(c)@.len() ==> c@.contains(#[trigger] old(c)@[a]),
            forall|a: int, b: int| 0 <= a < b < i && b < c@.len() ==> ranks_above(#[trigger] c@[a], #[trigger] c@[b]),
        decreases c@.len() - i,
    {
        let mut k: usize = i;
        while k > 0 && (c[k - 1].0 < c[k].0 || (c[k - 1].0 == c[k].0 && c[k - 1].1 < c[k].1))
            invariant
                k <= i < c@.len(),
                distinct_handles(c@),
                c@.len() == old(c)@.len(),
                forall|a: int| 0 <= a < c@.len() ==> old(c)@.contains(#[trigger] c@[a]),
                forall|a: int| 0 <= a < old(c)@.len() ==> c@.contains(#[trigger] old(c)@[a]),
                forall|a: int, b: int| 0 <= a < b <= i && a != k && b != k ==> ranks_above(#[trigger] c@[a], #[trigger] c@[b]),
                forall|b: int| k < b <= i ==> ranks_above(c@[k as int], #[trigger] c@[b]),
            decreases k,
        {
            let ghost before = c@;
            let x = c[k - 1];
            let y = c[k];
            c.set(k - 1, y);
            c.set(k, x);
            proof {
                assert forall|a: int| 0 <= a < c@.len() implies old(c)@.contains(#[trigger] c@[a]) by {
                    if a == k - 1 {
                        assert(c@[a] == before[k as int]);
                    } else if a == k {
                        assert(c@[a] == before[k - 1]);
                    } else {
                        assert(c@[a] == before[a]);
                    }
                }
                assert forall|a: int| 0 <= a < old(c)@.len() implies c@.contains(#[trigger] old(c)@[a]) by {
                    let q = choose|q: int| 0 <= q < before.len() && before[q] == old(c)@[a];
                    if q == k - 1 {
                        assert(c@[k as int] == before[q]);
                    } else if q == k {
                        assert(c@[k - 1] == before[q]);
                    } else {
                        assert(c@[q] == before[q]);
                    }
                }
                assert forall|a: int, b: int| 0 <= a < b <= i && a != k - 1 && b != k - 1 implies ranks_above(#[trigger] c@[a], #[trigger] c@[b]) by {
                    let oa = if a == k { k - 1 } else { a };
                    let ob = if b == k { k - 1 } else { b };
                    assert(c@[a] == before[oa] && c@[b] == before[ob]);
                }
                assert forall|a: int, b: int| 0 <= a < c@.len() && 0 <= b < c@.len() && a != b implies #[trigger] c@[a].2.at() != #[trigger] c@[b].2.at() by {
                    let oa = if a == k { k - 1 } else if a == k - 1 { k as int } else { a };
                    let ob = if b == k { k - 1 } else if b == k - 1 { k as int } else { b };
                    assert(c@[a] == before[oa] && c@[b] == before[ob]);
                }
                assert forall|b: int| k - 1 < b <= i implies ranks_above(c@[k - 1], #[trigger] c@[b]) by {
                    if b > k {
                        assert(c@[b] == before[b]);
                    }
                }
            }
            k = k - 1;
        }
        proof {
            assert forall|a: int, b: int| 0 <= a < b < i + 1 && b < c@.len() implies ranks_above(#[trigger] c@[a], #[trigger] c@[b]) by {
                if b == k as int && a < k {
                    assert(ranks_above(c@[k - 1], c@[k as int]));
                    if a < k - 1 {
                        assert(ranks_above(c@[a], c@[k - 1]));
                    }
                } else if a == k as int {
                } else {
                }
            }
        }
        i = i + 1;
    }
}

impl Solver {
    /// Sets the reason flag of the clause of every reason on the trail.
    fn pin_reasons(&mut self)
        requires
            old(self).inv(),
        ensures
            final(self).inv(),
            same_clauses(old(self).clause_db, final(self).clause_db),
            *final(self) == old(self).with_db(final(self).clause_db),
            forall|p: int| #![trigger final(self).trail.elems()[p]]
                0 <= p < final(self).trail.elems().len() && final(self).trail.elems()[p].reason is Propagated
                ==> final(self).clause_db.clause(final(self).trail.elems()[p].reason->cls.at()).reason(),
    {
        proof {
            self.lemma_inv_basic();
        }
        let len = self.trail.assigned_vars();
        let mut p: usize = 0;
        while p < len
            invariant
                old(self).inv(),
                *self == old(self).with_db(self.clause_db),
                self.clause_db.wf(),
                same_clauses(old(self).clause_db, self.clause_db),
                len == self.trail.elems().len(),
                p <= len,
                forall|q: int| #![trigger self.trail.elems()[q]] 0 <= q < p && self.trail.elems()[q].reason is Propagated
                    ==> self.clause_db.clause(self.trail.elems()[q].reason->cls.at()).reason(),
            decreases len - p,
        {
            let e = self.trail.trail()[p];
            match e.reason {
                TrailReason::Propagated { cls } => {
                    proof {
                        old(self).lemma_reason_valid(p as int);
                    }
                    let ghost before = self.clause_db;
                    self.clause_db.set_is_reason(cls, true);
                    proof {
                        assert forall|s: int| #[trigger] old(self).clause_db.handles().contains(s) implies
                            self.clause_db.clause(s).lits == old(self).clause_db.clause(s).lits
                            && self.clause_db.clause(s).glue == old(self).clause_db.clause(s).glue
                            && self.clause_db.clause(s).garbage() == old(self).clause_db.clause(s).garbage() by {
                            assert(before.handles().contains(s));
                        }
                        assert forall|q: int| #![trigger self.trail.elems()[q]] 0 <= q < p + 1 && self.trail.elems()[q].reason is Propagated
                            implies self.clause_db.clause(self.trail.elems()[q].reason->cls.at()).reason() by {
                            if q < p {
                                let c = self.trail.elems()[q].reason->cls;
                                old(self).lemma_reason_valid(q);
                                if c.at() != cls.at() {
                                    assert(before.clause(c.at()).reason());
                                }
                            }
                        }
                    }
                },
                _ => {},
            }
            p = p + 1;
        }
        proof {
            old(self).lemma_inv_same_clauses(self.clause_db);
        }
    }

    /// Marks as garbage three quarters of the candidates for removal, those with the
    /// highest glue first, then the longest.
    fn mark_garbage(&mut self)
        requires
            old(self).clause_db.wf(),
            forall|s: int| #[trigger] old(self).clause_db.handles().contains(s) ==> !old(self).clause_db.clause(s).garbage(),
        ensures
            *final(self) == old(self).with_db(final(self).clause_db),
            final(self).clause_db.wf(),
            final(self).clause_db.handles() == old(self).clause_db.handles(),
            final(self).clause_db.old_handles() == old(self).clause_db.old_handles(),
            forall|s: int| #[trigger] old(self).clause_db.handles().contains(s) ==>
                final(self).clause_db.clause(s).lits == old(self).clause_db.clause(s).lits
                && final(self).clause_db.clause(s).glue == old(self).clause_db.clause(s).glue
                && final(self).clause_db.clause(s).reason() == old(self).clause_db.clause(s).reason()
                && (final(self).clause_db.clause(s).garbage() ==> candidate(old(self).clause_db, s)),
            marked_count(old(self).clause_db, final(self).clause_db) == candidate_count(old(self).clause_db) * 3 / 4,
            forall|s: int, t: int| old(self).clause_db.handles().contains(s) && old(self).clause_db.handles().contains(t)
                && candidate(old(self).clause_db, s) && !#[trigger] final(self).clause_db.clause(s).garbage()
                && #[trigger] final(self).clause_db.clause(t).garbage() ==>
                old(self).clause_db.clause(t).glue > old(self).clause_db.clause(s).glue
                || (old(self).clause_db.clause(t).glue == old(self).clause_db.clause(s).glue
                    && old(self).clause_db.clause(t).lits.len() >= old(self).clause_db.clause(s).lits.len()),
    {
        let hs = self.clause_db.iter();
        let mut cands: Vec<(u32, u32, ClauseIdx)> = Vec::new();
        let mut i: usize = 0;
        while i < hs.len()
            invariant
                *self == *old(self),
                self.clause_db.wf(),
                forall|s: int| #[trigger] old(self).clause_db.handles().contains(s) ==> !old(self).clause_db.clause(s).garbage(),
                hs@.len() == self.clause_db.handles().len(),
                forall|k: int| 0 <= k < hs@.len() ==> #[trigger] hs@[k].at() == self.clause_db.handles()[k],
                i <= hs@.len(),
                forall|k: int| 0 <= k < cands@.len() ==> self.clause_db.valid(#[trigger] cands@[k].2)
                    && candidate(self.clause_db, cands@[k].2.at())
                    && cands@[k].0 == self.clause_db.clause(cands@[k].2.at()).glue
                    && cands@[k].1 == self.clause_db.clause(cands@[k].2.at()).lits.len(),
                forall|k: int| 0 <= k < i && candidate(self.clause_db, #[trigger] self.clause_db.handles()[k]) ==>
                    exists|j: int| 0 <= j < cands@.len() && cands@[j].2.at() == self.clause_db.handles()[k],
                distinct_handles(cands@),
                i < hs@.len() ==> forall|j: int| 0 <= j < cands@.len() ==> #[trigger] cands@[j].2.at() < self.clause_db.handles()[i as int],
            decreases hs@.len() - i,
        {
            let h = hs[i];
            proof {
                assert(self.clause_db.handles()[i as int] == h.at());
                assert(self.clause_db.valid(h));
            }
            let f = self.clause_db.flags(h);
            let glue = self.clause_db.glue(h);
            let ghost c0 = cands@;
            if !f.is_garbage() && !f.is_reason() && glue > KEEP_GLUE {
                let len = self.clause_db.clause_len(h) as u32;
                proof {
                    self.clause_db.lemma_valid(h);
                }
                cands.push((glue, len, h));
            }
            proof {
                if i + 1 < hs@.len() {
                    self.clause_db.lemma_handles_increasing(i as int, i + 1);
                }
                assert forall|j: int| 0 <= j < cands@.len() && i + 1 < hs@.len() implies #[trigger] cands@[j].2.at() < self.clause_db.handles()[i + 1] by {
                    if j < c0.len() {
                        assert(cands@[j] == c0[j]);
                    }
                }
                assert forall|a: int, b: int| 0 <= a < cands@.len() && 0 <= b < cands@.len() && a != b implies #[trigger] cands@[a].2.at() != #[trigger] cands@[b].2.at() by {
                    if a < c0.len() && b < c0.len() {
                        assert(cands@[a] == c0[a] && cands@[b] == c0[b]);
                    } else if a < c0.len() {
                        assert(cands@[a] == c0[a]);
                    } else {
                        assert(cands@[b] == c0[b]);
                    }
                }
                assert(old(self).clause_db.handles().contains(h.at()));
                assert(!self.clause_db.clause(h.at()).garbage());
                if candidate(self.clause_db, h.at()) {
                    assert(cands@.len() == c0.len() + 1);
                    assert(cands@[c0.len() as int].2 == h);
                }
                assert forall|k: int| 0 <= k < i + 1 && candidate(self.clause_db, #[trigger] self.clause_db.handles()[k]) implies
                    exists|j: int| 0 <= j < cands@.len() && cands@[j].2.at() == self.clause_db.handles()[k] by {
                    if k < i {
                        let j = choose|j: int| 0 <= j < c0.len() && c0[j].2.at() == self.clause_db.handles()[k];
                        assert(cands@[j] == c0[j]);
                    } else {
                        assert(cands@[c0.len() as int].2 == h);
                    }
                }
            }
            i = i + 1;
        }
        let ghost unsorted = cands@;
        sort_candidates(&mut cands);
        proof {
            assert forall|k: int| 0 <= k < cands@.len() implies old(self).clause_db.valid(#[trigger] cands@[k].2)
                && candidate(old(self).clause_db, cands@[k].2.at())
                && cands@[k].0 == old(self).clause_db.clause(cands@[k].2.at()).glue
                && cands@[k].1 == old(self).clause_db.clause(cands@[k].2.at()).lits.len() by {
                assert(unsorted.contains(cands@[k]));
                let q = choose|q: int| 0 <= q < unsorted.len() && unsorted[q] == cands@[k];
            }
            assert forall|s: int| #[trigger] old(self).clause_db.handles().contains(s) && candidate(old(self).clause_db, s) implies
                exists|j: int| 0 <= j < cands@.len() && cands@[j].2.at() == s by {
                let k = choose|k: int| 0 <= k < old(self).clause_db.handles().len() && old(self).clause_db.handles()[k] == s;
                let q = choose|q: int| 0 <= q < unsorted.len() && unsorted[q].2.at() == old(self).clause_db.handles()[k];
                assert(cands@.contains(unsorted[q]));
            }
        }
        let target = cands.len() / 4 * 3 + (cands.len() % 4) * 3 / 4;
        proof {
            let n = cands@.len() as int;
            assert((n / 4) * 3 + (n % 4) * 3 / 4 <= n) by (nonlinear_arith)
                requires
                    n >= 0,
            ;
        }
        let mut k: usize = 0;
        while k < target && k < cands.len()
            invariant
                *self == old(self).with_db(self.clause_db),
                self.clause_db.wf(),
                self.clause_db.handles() == old(self).clause_db.handles(),
                self.clause_db.old_handles() == old(self).clause_db.old_handles(),
                forall|a: int| 0 <= a < cands@.len() ==> old(self).clause_db.valid(#[trigger] cands@[a].2)
                    && candidate(old(self).clause_db, cands@[a].2.at())
                    && cands@[a].0 == old(self).clause_db.clause(cands@[a].2.at()).glue
                    && cands@[a].1 == old(self).clause_db.clause(cands@[a].2.at()).lits.len(),
                ranked(cands@),
                forall|s: int| #[trigger] old(self).clause_db.handles().contains(s) && candidate(old(self).clause_db, s) ==>
                    exists|j: int| 0 <= j < cands@.len() && cands@[j].2.at() == s,
                forall|s: int| #[trigger] old(self).clause_db.handles().contains(s) && self.clause_db.clause(s).garbage() ==>
                    exists|j: int| 0 <= j < k && cands@[j].2.at() == s,
                forall|j: int| 0 <= j < k ==> #[trigger] self.clause_db.clause(cands@[j].2.at()).garbage(),
                k <= cands@.len(),
                k <= target,
                target <= cands@.len(),
                distinct_handles(cands@),
                forall|s: int| #[trigger] old(self).clause_db.handles().contains(s) ==>
                    self.clause_db.clause(s).lits == old(self).clause_db.clause(s).lits
                    && self.clause_db.clause(s).glue == old(self).clause_db.clause(s).glue
                    && self.clause_db.clause(s).reason() == old(self).clause_db.clause(s).reason()
                    && (self.clause_db.clause(s).garbage() ==> candidate(old(self).clause_db, s)),
            decreases cands@.len() - k,
        {
            let h = cands[k].2;
            let ghost before = self.clause_db;
            self.clause_db.set_is_garbage(h, true);
            proof {
                assert forall|s: int| #[trigger] old(self).clause_db.handles().contains(s) implies
                    self.clause_db.clause(s).lits == old(self).clause_db.clause(s).lits
                    && self.clause_db.clause(s).glue == old(self).clause_db.clause(s).glue
                    && self.clause_db.clause(s).reason() == old(self).clause_db.clause(s).reason()
                    && (self.clause_db.clause(s).garbage() ==> candidate(old(self).clause_db, s)) by {
                    assert(before.handles().contains(s));
                }
                assert forall|s: int| #[trigger] old(self).clause_db.handles().contains(s) && self.clause_db.clause(s).garbage() implies
                    exists|j: int| 0 <= j < k + 1 && cands@[j].2.at() == s by {
                    if s != h.at() {
                        assert(before.clause(s).garbage());
                    }
                }
                assert forall|j: int| 0 <= j < k + 1 implies #[trigger] self.clause_db.clause(cands@[j].2.at()).garbage() by {
                    if j < k && cands@[j].2.at() != h.at() {
                        assert(before.clause(cands@[j].2.at()).garbage());
                        assert(old(self).clause_db.handles().contains(cands@[j].2.at()));
                    }
                }
            }
            k = k + 1;
        }
        proof {
            let n = cands@.len() as int;
            assert((n / 4) * 3 + (n % 4) * 3 / 4 == n * 3 / 4) by (nonlinear_arith)
                requires
                    n >= 0,
            ;
            assert(k == target);
            let hseq = Seq::new(cands@.len(), |j: int| cands@[j].2.at());
            assert(hseq.no_duplicates());
            let cset = Set::new(|s: int| old(self).clause_db.handles().contains(s) && candidate(old(self).clause_db, s));
            assert(cset =~= hseq.to_set()) by {
                assert forall|s: int| cset.contains(s) implies hseq.to_set().contains(s) by {
                    let j = choose|j: int| 0 <= j < cands@.len() && cands@[j].2.at() == s;
                    assert(hseq[j] == s);
                }
                assert forall|s: int| hseq.to_set().contains(s) implies cset.contains(s) by {
                    let j = choose|j: int| 0 <= j < hseq.len() && hseq[j] == s;
                    assert(old(self).clause_db.valid(cands@[j].2));
                }
            }
            hseq.unique_seq_to_set();
            let hk = hseq.subrange(0, k as int);
            assert(hk.no_duplicates());
            let mset = Set::new(|s: int| old(self).clause_db.handles().contains(s) && self.clause_db.clause(s).garbage());
            assert(mset =~= hk.to_set()) by {
                assert forall|s: int| mset.contains(s) implies hk.to_set().contains(s) by {
                    let j = choose|j: int| 0 <= j < k && cands@[j].2.at() == s;
                    assert(hk[j] == s);
                }
                assert forall|s: int| hk.to_set().contains(s) implies mset.contains(s) by {
                    let j = choose|j: int| 0 <= j < hk.len() && hk[j] == s;
                    assert(self.clause_db.clause(cands@[j].2.at()).garbage());
                    assert(old(self).clause_db.valid(cands@[j].2));
                }
            }
            hk.unique_seq_to_set();
            assert forall|s: int, t: int| old(self).clause_db.handles().contains(s) && old(self).clause_db.handles().contains(t)
                && candidate(old(self).clause_db, s) && !#[trigger] self.clause_db.clause(s).garbage()
                && #[trigger] self.clause_db.clause(t).garbage() implies
                old(self).clause_db.clause(t).glue > old(self).clause_db.clause(s).glue
                || (old(self).clause_db.clause(t).glue == old(self).clause_db.clause(s).glue
                    && old(self).clause_db.clause(t).lits.len() >= old(self).clause_db.clause(s).lits.len()) by {
                let js = choose|j: int| 0 <= j < cands@.len() && cands@[j].2.at() == s;
                let jt = choose|j: int| 0 <= j < k && cands@[j].2.at() == t;
                if js < k {
                    assert(self.clause_db.clause(cands@[js].2.at()).garbage());
                }
                assert(ranks_above(cands@[jt], cands@[js]));
            }
        }
    }

    /// Reduces the learned clauses: marks the garbage, compacts the arena, and rewrites
    /// every handle held by the watch lists (dropping those of removed clauses) and by
    /// the trail (whose reason clauses are never removed).
    pub(crate) fn collect_garbage(&mut self)
        requires
            old(self).inv(),
        ensures
            final(self).inv(),
            final(self).formula == old(self).formula,
            final(self).trivially_unsat == old(self).trivially_unsat,
            final(self).trail.levels() == old(self).trail.levels(),
            final(self).trail.decisions() == old(self).trail.decisions(),
            final(self).trail.assign().len() == old(self).trail.assign().len(),
            final(self).trail.elems().len() == old(self).trail.elems().len(),
            forall|p: int| 0 <= p < old(self).trail.elems().len() ==> #[trigger] final(self).trail.elems()[p].lit == old(self).trail.elems()[p].lit,
            forall|v: int| 0 <= v < old(self).trail.assign().len() ==> (#[trigger] final(self).trail.assign()[v]).is_some() == old(self).trail.assign()[v].is_some()
                && (final(self).trail.assign()[v].is_some() ==> final(self).trail.assign()[v].unwrap().status == old(self).trail.assign()[v].unwrap().status
                    && final(self).trail.assign()[v].unwrap().decision_level == old(self).trail.assign()[v].unwrap().decision_level),
            forall|t: int| #[trigger] final(self).clause_db.handles().contains(t) ==> exists|s: int|
                old(self).clause_db.handles().contains(s) && #[trigger] old(self).clause_db.clause(s).lits == final(self).clause_db.clause(t).lits,
            final(self).stats == old(self).stats,
            final(self).limits == old(self).limits,
            old(self).sound() ==> final(self).sound(),
            final(self).watches@.len() == old(self).watches@.len(),
            forall|a: int| 0 <= a < old(self).watches@.len() ==> watch_handles(#[trigger] final(self).watches@[a]@)
                == rewritten(watch_handles(old(self).watches@[a]@), final(self).clause_db),
            forall|p: int| #![trigger old(self).trail.elems()[p]] 0 <= p < old(self).trail.elems().len()
                && old(self).trail.elems()[p].reason is Propagated ==> final(self).trail.elems()[p].reason is Propagated
                && final(self).clause_db.clause(final(self).trail.elems()[p].reason->cls.at()).lits
                    == old(self).clause_db.clause(old(self).trail.elems()[p].reason->cls.at()).lits,
    {
        self.pin_reasons();
        let ghost s0 = *self;
        proof {
            s0.lemma_inv_basic();
            s0.lemma_no_garbage();
        }
        self.mark_garbage();
        let ghost s1 = *self;
        self.clause_db.collect_garbage();
        let ghost s2 = *self;
        proof {
            assert forall|s: int| #[trigger] s0.clause_db.handles().contains(s) implies
                s1.clause_db.clause(s).reason() == s0.clause_db.clause(s).reason()
                && (s1.clause_db.clause(s).garbage() ==> candidate(s0.clause_db, s))
                && ((self.clause_db.forward(s) == REMOVED) == s1.clause_db.clause(s).garbage()) by {
                assert(s1.clause_db.handles().contains(s));
            }
        }
        // Rewrite the watch lists.
        let nslots = self.watches.len();
        let mut i: usize = 0;
        while i < nslots
            invariant
                s0.inv(),
                self.clause_db == s2.clause_db,
                self.trail == s2.trail,
                self.clause_db.wf(),
                self.clause_db.old_handles() == s0.clause_db.handles(),
                nslots == self.watches@.len(),
                nslots == s0.watches@.len(),
                i <= nslots,
                forall|a: int, b: int| #![trigger self.watches@[a]@[b]] 0 <= a < i && 0 <= b < self.watches@[a]@.len()
                    ==> self.clause_db.valid(self.watches@[a]@[b].clause),
                forall|a: int| #![trigger self.watches@[a]] i <= a < nslots ==> self.watches@[a] == s0.watches@[a],
                forall|a: int| 0 <= a < i ==> watch_handles(#[trigger] self.watches@[a]@)
                    == rewritten(watch_handles(s0.watches@[a]@), self.clause_db),
                self.formula == s0.formula,
                self.input_handles == s0.input_handles,
                self.trivially_unsat == s0.trivially_unsat,
                self.unpropagated_lit_pos == s0.unpropagated_lit_pos,
                self.stats == s0.stats,
                self.limits == s0.limits,
                forall|q: int| #![trigger s0.trail.elems()[q]] 0 <= q < s0.trail.elems().len() && s0.trail.elems()[q].reason is Propagated
                    ==> s0.clause_db.clause(s0.trail.elems()[q].reason->cls.at()).reason(),
                forall|s: int| #[trigger] s0.clause_db.handles().contains(s) ==>
                    s1.clause_db.clause(s).reason() == s0.clause_db.clause(s).reason()
                    && (s1.clause_db.clause(s).garbage() ==> candidate(s0.clause_db, s))
                    && ((self.clause_db.forward(s) == REMOVED) == s1.clause_db.clause(s).garbage()),
            decreases nslots - i,
        {
            let list = self.watches.replace_slot(i, Vec::new());
            let mut kept: Vec<Watch> = Vec::new();
            let mut j: usize = 0;
            while j < list.len()
                invariant
                    s0.inv(),
                    self.clause_db == s2.clause_db,
                    self.clause_db.wf(),
                    self.clause_db.old_handles() == s0.clause_db.handles(),
                    i < nslots,
                    nslots == s0.watches@.len(),
                    list == s0.watches@[i as int],
                    j <= list@.len(),
                    forall|b: int| 0 <= b < kept@.len() ==> self.clause_db.valid(#[trigger] kept@[b].clause),
                    watch_handles(kept@) == rewritten(watch_handles(list@).subrange(0, j as int), self.clause_db),
                decreases list@.len() - j,
            {
                let mut c = list[j].clause;
                proof {
                    s0.lemma_watch_valid(i as int, j as int);
                }
                let ghost k0 = kept@;
                let ghost wl = watch_handles(list@);
                if self.clause_db.update_old_clause_index(&mut c) {
                    kept.push(Watch { clause: c });
                }
                proof {
                    let sub1 = wl.subrange(0, j + 1);
                    assert(sub1.drop_last() =~= wl.subrange(0, j as int));
                    assert(sub1.last() == list@[j as int].clause.at());
                    if kept@.len() > k0.len() {
                        assert(watch_handles(kept@) =~= watch_handles(k0).push(c.at()));
                    } else {
                        assert(watch_handles(kept@) =~= watch_handles(k0));
                    }
                }
                j = j + 1;
            }
            proof {
                assert(watch_handles(list@).subrange(0, list@.len() as int) =~= watch_handles(list@));
            }
            let ghost wb = self.watches@;
            self.watches.replace_slot(i, kept);
            proof {
                assert forall|a: int| 0 <= a < i + 1 implies watch_handles(#[trigger] self.watches@[a]@)
                    == rewritten(watch_handles(s0.watches@[a]@), self.clause_db) by {
                    if a < i {
                        assert(self.watches@[a] == wb[a]);
                    }
                }
            }
            i = i + 1;
        }
        // Rewrite the reasons on the trail.
        let ghost w1 = self.watches;
        let len = self.trail.assigned_vars();
        let mut p: usize = 0;
        while p < len
            invariant
                s0.inv(),
                self.clause_db == s2.clause_db,
                self.clause_db.wf(),
                self.clause_db.old_handles() == s0.clause_db.handles(),
                self.trail.wf(),
                self.watches == w1,
                w1@.len() == s0.watches@.len(),
                forall|a: int, b: int| #![trigger w1@[a]@[b]] 0 <= a < w1@.len() && 0 <= b < w1@[a]@.len()
                    ==> self.clause_db.valid(w1@[a]@[b].clause),
                self.formula == s0.formula,
                self.input_handles == s0.input_handles,
                self.trivially_unsat == s0.trivially_unsat,
                self.unpropagated_lit_pos == s0.unpropagated_lit_pos,
                self.stats == s0.stats,
                self.limits == s0.limits,
                len == self.trail.elems().len(),
                self.trail.elems().len() == s0.trail.elems().len(),
                self.trail.decisions() == s0.trail.decisions(),
                self.trail.levels() == s0.trail.levels(),
                self.trail.assign().len() == s0.trail.assign().len(),
                forall|v: int| 0 <= v < s0.trail.assign().len() ==> (#[trigger] self.trail.assign()[v]).is_some() == s0.trail.assign()[v].is_some()
                    && (self.trail.assign()[v].is_some() ==> self.trail.assign()[v].unwrap().status == s0.trail.assign()[v].unwrap().status
                        && self.trail.assign()[v].unwrap().decision_level == s0.trail.assign()[v].unwrap().decision_level),
                forall|q: int| #![trigger self.trail.elems()[q]] 0 <= q < len ==> self.trail.elems()[q].lit == s0.trail.elems()[q].lit
                    && (self.trail.elems()[q].reason is Propagated) == (s0.trail.elems()[q].reason is Propagated)
                    && (self.trail.elems()[q].reason is Propagated ==> q < p || self.trail.elems()[q].reason == s0.trail.elems()[q].reason),
                forall|q: int| #![trigger self.trail.elems()[q]] 0 <= q < p && self.trail.elems()[q].reason is Propagated
                    ==> self.clause_db.valid(self.trail.elems()[q].reason->cls)
                    && self.clause_db.clause(self.trail.elems()[q].reason->cls.at()).lits
                        == s0.clause_db.clause(s0.trail.elems()[q].reason->cls.at()).lits,
                forall|s: int| #[trigger] s0.clause_db.handles().contains(s) ==> s1.clause_db.clause(s).lits == s0.clause_db.clause(s).lits,
                forall|s: int| #[trigger] s1.clause_db.handles().contains(s) && !s1.clause_db.clause(s).garbage() ==>
                    self.clause_db.clause(self.clause_db.forward(s) as int) == s1.clause_db.clause(s),
                s1.clause_db.handles() == s0.clause_db.handles(),
                p <= len,
                forall|q: int| #![trigger s0.trail.elems()[q]] 0 <= q < s0.trail.elems().len() && s0.trail.elems()[q].reason is Propagated
                    ==> s0.clause_db.clause(s0.trail.elems()[q].reason->cls.at()).reason(),
                forall|s: int| #[trigger] s0.clause_db.handles().contains(s) ==>
                    s1.clause_db.clause(s).reason() == s0.clause_db.clause(s).reason()
                    && (s1.clause_db.clause(s).garbage() ==> candidate(s0.clause_db, s))
                    && ((self.clause_db.forward(s) == REMOVED) == s1.clause_db.clause(s).garbage()),
            decreases len - p,
        {
            let e = self.trail.trail()[p];
            match e.reason {
                TrailReason::Propagated { cls } => {
                    let mut c = cls;
                    proof {
                        s0.lemma_reason_valid(p as int);
                    }
                    proof {
                        assert(s0.trail.elems()[p as int].reason == (TrailReason::Propagated { cls }));
                        assert(s0.clause_db.clause(cls.at()).reason());
                        assert(s0.clause_db.handles().contains(cls.at()));
                    }
                    if self.clause_db.update_old_clause_index(&mut c) {
                        self.trail.set_reason_at(p, c);
                        proof {
                            assert(s1.clause_db.handles().contains(cls.at()));
                        }
                    }
                },
                _ => {},
            }
            p = p + 1;
        }
        proof {
            assert forall|t: int| #[trigger] self.clause_db.handles().contains(t) implies exists|s: int|
                old(self).clause_db.handles().contains(s) && #[trigger] old(self).clause_db.clause(s).lits == self.clause_db.clause(t).lits by {
                let s = choose|s: int| s1.clause_db.handles().contains(s) && !s1.clause_db.clause(s).garbage()
                    && #[trigger] self.clause_db.forward(s) == t && self.clause_db.clause(t) == s1.clause_db.clause(s);
                assert(s0.clause_db.handles().contains(s));
            }
            let f = self.formula@;
            let ih = self.input_handles@;
            self.input_handles@ = Seq::new(ih.len(), |k: int| if f[k].len() >= 2 { self.clause_db.forward(ih[k]) as int } else { ih[k] });
            Solver::lemma_inv_after_gc(s0, s1, *self);
            assert forall|q: int| #![trigger old(self).trail.elems()[q]] 0 <= q < old(self).trail.elems().len()
                && old(self).trail.elems()[q].reason is Propagated implies self.trail.elems()[q].reason is Propagated
                && self.clause_db.clause(self.trail.elems()[q].reason->cls.at()).lits
                    == old(self).clause_db.clause(old(self).trail.elems()[q].reason->cls.at()).lits by {
                assert(s0.trail.elems()[q] == old(self).trail.elems()[q]);
                assert(self.trail.elems()[q] == self.trail.elems()[q]);
                old(self).lemma_reason_valid(q);
                assert(old(self).clause_db.handles().contains(old(self).trail.elems()[q].reason->cls.at()));
            }
            if old(self).sound() {
                let f = old(self).formula@;
                assert forall|t: int| #[trigger] self.clause_db.handles().contains(t) implies exists|o: int| old(self).clause_db.handles().contains(o)
                    && forall|c: u32| #[trigger] old(self).clause_db.clause(o).lits.contains(c) ==> self.clause_db.clause(t).lits.contains(c) by {
                    let o = choose|o: int| old(self).clause_db.handles().contains(o) && #[trigger] old(self).clause_db.clause(o).lits == self.clause_db.clause(t).lits;
                }
                lemma_sound_db(f, old(self).clause_db, self.clause_db, old(self).trail, old(self).trivially_unsat);
                self.lemma_inv_basic();
                assert forall|p: int| 0 <= p < self.trail.elems().len() implies #[trigger] self.trail.elems()[p].lit == old(self).trail.elems()[p].lit
                    && self.trail.level_at(p) == old(self).trail.level_at(p) by {
                    assert(self.trail.levels()[p] == old(self).trail.levels()[p]);
                }
                lemma_sound_trail_prefix(f, self.clause_db, old(self).trail, self.trail, old(self).trivially_unsat);
            }
        }
    }

    /// The state after garbage collection satisfies the invariant.
    proof fn lemma_inv_after_gc(s0: Solver, s1: Solver, post: Solver)
        requires
            s0.inv(),
            forall|q: int| #![trigger s0.trail.elems()[q]] 0 <= q < s0.trail.elems().len() && s0.trail.elems()[q].reason is Propagated
                ==> s0.clause_db.clause(s0.trail.elems()[q].reason->cls.at()).reason(),
            s1.clause_db.handles() == s0.clause_db.handles(),
            forall|s: int| #[trigger] s0.clause_db.handles().contains(s) ==>
                s1.clause_db.clause(s).lits == s0.clause_db.clause(s).lits
                && s1.clause_db.clause(s).glue == s0.clause_db.clause(s).glue
                && (s1.clause_db.clause(s).garbage() ==> candidate(s0.clause_db, s))
                && ((post.clause_db.forward(s) == REMOVED) == s1.clause_db.clause(s).garbage())
                && (!s1.clause_db.clause(s).garbage() ==> post.clause_db.handles().contains(post.clause_db.forward(s) as int)
                    && post.clause_db.clause(post.clause_db.forward(s) as int) == s1.clause_db.clause(s)),
            post.clause_db.wf(),
            forall|t: int| #[trigger] post.clause_db.handles().contains(t) ==> !post.clause_db.clause(t).garbage(),
            forall|t: int| #[trigger] post.clause_db.handles().contains(t) ==> exists|s: int|
                s1.clause_db.handles().contains(s) && !s1.clause_db.clause(s).garbage() && #[trigger] post.clause_db.forward(s) == t
                && post.clause_db.clause(t) == s1.clause_db.clause(s),
            post.trail.wf(),
            post.trail.assign().len() == s0.trail.assign().len(),
            post.trail.elems().len() == s0.trail.elems().len(),
            forall|v: int| 0 <= v < s0.trail.assign().len() ==> (#[trigger] post.trail.assign()[v]).is_some() == s0.trail.assign()[v].is_some()
                && (post.trail.assign()[v].is_some() ==> post.trail.assign()[v].unwrap().status == s0.trail.assign()[v].unwrap().status
                    && post.trail.assign()[v].unwrap().decision_level == s0.trail.assign()[v].unwrap().decision_level),
            forall|q: int| #![trigger post.trail.elems()[q]] 0 <= q < post.trail.elems().len() && post.trail.elems()[q].reason is Propagated
                ==> post.clause_db.valid(post.trail.elems()[q].reason->cls),
            post.watches@.len() == s0.watches@.len(),
            forall|a: int, b: int| #![trigger post.watches@[a]@[b]] 0 <= a < post.watches@.len() && 0 <= b < post.watches@[a]@.len()
                ==> post.clause_db.valid(post.watches@[a]@[b].clause),
            post.formula == s0.formula,
            post.input_handles@.len() == s0.input_handles@.len(),
            forall|k: int| 0 <= k < s0.input_handles@.len() && s0.formula@[k].len() >= 2 ==>
                #[trigger] post.input_handles@[k] == post.clause_db.forward(s0.input_handles@[k]) as int,
            post.trivially_unsat == s0.trivially_unsat,
            post.unpropagated_lit_pos == s0.unpropagated_lit_pos,
        ensures
            post.inv(),
    {
        reveal(Solver::inv);
        assert forall|s: int, j: int| #![trigger post.clause_db.clause(s).lits[j]]
            post.clause_db.handles().contains(s) && 0 <= j < post.clause_db.clause(s).lits.len()
                implies post.clause_db.clause(s).lits[j] / 2 <= post.n() by {
            let o = choose|o: int| s1.clause_db.handles().contains(o) && !s1.clause_db.clause(o).garbage() && #[trigger] post.clause_db.forward(o) == s
                && post.clause_db.clause(s) == s1.clause_db.clause(o);
            assert(s0.clause_db.clause(o).lits[j] / 2 <= s0.n());
        }
        assert forall|k: int| #![trigger post.formula@[k]] 0 <= k < post.formula@.len() implies post.input_ok(k) by {
            assert(s0.input_ok(k));
            let f = s0.formula@[k];
            if f.len() >= 2 {
                let s = s0.input_handles@[k];
                assert(s0.clause_db.handles().contains(s));
                assert(!candidate(s0.clause_db, s));
            }
            if f.len() == 1 && !s0.trivially_unsat {
                let l = f[0];
                assert(post.trail.assign()[l.var_id() as int].is_some());
            }
        }
    }

    /// Reduces the learned clauses once the conflicts since the last reduction exceed
    /// the limit; the counter then restarts from zero and the limit grows by five percent.
    pub(crate) fn maybe_collect_garbage(&mut self)
        requires
            old(self).inv(),
        ensures
            final(self).inv(),
            old(self).stats.contradiction_since_last_garbage_collections <= old(self).limits.garbage_collection_conflicts
                ==> *final(self) == *old(self),
            old(self).stats.contradiction_since_last_garbage_collections > old(self).limits.garbage_collection_conflicts ==> {
                &&& final(self).stats.contradiction_since_last_garbage_collections == 0
                &&& final(self).limits.garbage_collection_conflicts == if old(self).limits.garbage_collection_conflicts <= u64::MAX / 105 {
                    old(self).limits.garbage_collection_conflicts * 105 / 100
                } else {
                    old(self).limits.garbage_collection_conflicts as int
                }
            },
            final(self).formula == old(self).formula,
            final(self).trivially_unsat == old(self).trivially_unsat,
            final(self).trail.levels() == old(self).trail.levels(),
            final(self).trail.assign().len() == old(self).trail.assign().len(),
            old(self).sound() ==> final(self).sound(),
    {
        if self.stats.contradiction_since_last_garbage_collections <= self.limits.garbage_collection_conflicts {
            return;
        }
        let ghost s0 = *self;
        self.stats.contradiction_since_last_garbage_collections = 0;
        let limit = self.limits.garbage_collection_conflicts;
        if limit <= u64::MAX / 105 {
            self.limits.garbage_collection_conflicts = limit * 105 / 100;
        }
        proof {
            s0.lemma_inv_stats(self.stats);
            let s1 = Solver { stats: self.stats, ..s0 };
            s1.lemma_inv_limits(self.limits);
            assert(*self == (Solver { limits: self.limits, ..s1 }));
        }
        self.collect_garbage();
    }
}

} // verus!
