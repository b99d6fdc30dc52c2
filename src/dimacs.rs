//! Reading clauses in the DIMACS CNF format.
use vstd::prelude::*;
use vstd::string::StringSliceAdditionalSpecFns;

use crate::lit::MAX_VAR;

verus! {

/// Why a DIMACS text was rejected.
#[derive(Clone, Copy, PartialEq, Eq, Structural, Debug)]
pub enum ParseError {
    /// A token is not an integer.
    InvalidToken,
    /// A literal's variable is beyond the largest variable id.
    LiteralTooLarge,
    /// The clauses do not fit in the clause arena.
    FormulaTooLarge,
}

/// Every literal is a non-zero integer whose variable fits the solver.
pub open spec fn literals_ok(clauses: Seq<Vec<i32>>) -> bool {
    forall|i: int, j: int| 0 <= i < clauses.len() && 0 <= j < clauses[i]@.len() ==>
        #[trigger] clauses[i]@[j] != 0 && -(MAX_VAR as int) <= clauses[i]@[j] <= MAX_VAR
}

pub open spec fn is_space(b: u8) -> bool {
    b == 32 || b == 9 || b == 13 || b == 11 || b == 12
}

pub open spec fn is_digit(b: u8) -> bool {
    48 <= b <= 57
}

/// Where the reader is within a line.
#[derive(Clone, Copy, PartialEq, Eq, Structural, Debug)]
pub enum Mode {
    /// Between tokens; `true` if nothing but blanks precede on the line.
    Blank(bool),
    /// In a comment or header line.
    Comment,
    /// In an integer: whether it is negative, whether a digit was read, and its value so far.
    Number(bool, bool, u32),
}

/// The state of the reader: its mode, the clause being read and the clauses read.
pub struct Scan {
    pub mode: Mode,
    pub cur: Seq<int>,
    pub acc: Seq<Seq<int>>,
}

/// The reader's state after the integer of `mode` ended.
pub open spec fn end_number(st: Scan) -> Scan
    recommends
        st.mode is Number,
{
    let (neg, v) = match st.mode {
        Mode::Number(neg, _, v) => (neg, v as int),
        _ => (false, 0),
    };
    if v == 0 {
        Scan { cur: Seq::empty(), acc: st.acc.push(st.cur), ..st }
    } else {
        Scan { cur: st.cur.push(if neg { -v } else { v }), ..st }
    }
}

/// Reading byte `c` in state `st`.
pub open spec fn step(st: Scan, c: u8) -> Result<Scan, ParseError> {
    match st.mode {
        Mode::Blank(line_start) => {
            if c == 10 {
                Ok(Scan { mode: Mode::Blank(true), ..st })
            } else if is_space(c) {
                Ok(st)
            } else if line_start && (c == 99 || c == 112) {
                Ok(Scan { mode: Mode::Comment, ..st })
            } else if c == 45 {
                Ok(Scan { mode: Mode::Number(true, false, 0), ..st })
            } else if is_digit(c) {
                Ok(Scan { mode: Mode::Number(false, true, (c - 48) as u32), ..st })
            } else {
                Err(ParseError::InvalidToken)
            }
        },
        Mode::Comment => {
            if c == 10 {
                Ok(Scan { mode: Mode::Blank(true), ..st })
            } else {
                Ok(st)
            }
        },
        Mode::Number(neg, has_digit, v) => {
            if is_digit(c) {
                if v * 10 + (c - 48) > MAX_VAR {
                    Err(ParseError::LiteralTooLarge)
                } else {
                    Ok(Scan { mode: Mode::Number(neg, true, (v * 10 + (c - 48)) as u32), ..st })
                }
            } else if (is_space(c) || c == 10) && has_digit {
                Ok(Scan { mode: Mode::Blank(c == 10), ..end_number(st) })
            } else {
                Err(ParseError::InvalidToken)
            }
        },
    }
}

/// The clauses read once the input ends in state `st`.
pub open spec fn finish(st: Scan) -> Result<Seq<Seq<int>>, ParseError> {
    let st2 = match st.mode {
        Mode::Number(_, true, _) => end_number(st),
        _ => st,
    };
    match st.mode {
        Mode::Number(_, false, _) => Err(ParseError::InvalidToken),
        _ => Ok(if st2.cur.len() > 0 { st2.acc.push(st2.cur) } else { st2.acc }),
    }
}

/// The outcome of reading `b` from position `i` on, in state `st`.
pub open spec fn run(b: Seq<u8>, i: int, st: Scan) -> Result<Seq<Seq<int>>, ParseError>
    decreases b.len() - i,
{
    if i >= b.len() {
        finish(st)
    } else {
        match step(st, b[i]) {
            Ok(next) => run(b, i + 1, next),
            Err(e) => Err(e),
        }
    }
}

/// The outcome of reading the DIMACS text `b`.
pub open spec fn parse_spec(b: Seq<u8>) -> Result<Seq<Seq<int>>, ParseError> {
    run(b, 0, Scan { mode: Mode::Blank(true), cur: Seq::empty(), acc: Seq::empty() })
}

/// A clause as integers.
pub open spec fn ints(c: Seq<i32>) -> Seq<int> {
    c.map_values(|x: i32| x as int)
}

/// Clauses as integers.
pub open spec fn clause_ints(cs: Seq<Vec<i32>>) -> Seq<Seq<int>> {
    cs.map_values(|v: Vec<i32>| ints(v@))
}

/// The DIMACS reader.
pub struct Dimacs;

impl Dimacs {
    /// Reads the clauses of a DIMACS text. Lines whose first non-blank character is `c`
    /// (comments) or `p` (the header) are skipped. The other lines hold integers
    /// separated by blanks: `0` ends a clause, which may span several lines; a last
    /// clause without its `0` is kept.
    pub fn parse(input: &str) -> (r: Result<Vec<Vec<i32>>, ParseError>)
        ensures
            r matches Ok(clauses) ==> parse_spec(input.spec_bytes()) == Ok::<Seq<Seq<int>>, ParseError>(clause_ints(clauses@))
                && literals_ok(clauses@),
            r matches Err(e) ==> parse_spec(input.spec_bytes()) == Err::<Seq<Seq<int>>, ParseError>(e)
                && e != ParseError::FormulaTooLarge,
    {
        let b = input.as_bytes();
        let n = b.len();
        let mut clauses: Vec<Vec<i32>> = Vec::new();
        let mut current: Vec<i32> = Vec::new();
        let mut mode = Mode::Blank(true);
        let mut i: usize = 0;
        proof {
            assert(clause_ints(clauses@) =~= Seq::<Seq<int>>::empty());
            assert(ints(current@) =~= Seq::<int>::empty());
        }
        while i < n
            invariant
                i <= n,
                n == b@.len(),
                b@ == input.spec_bytes(),
                parse_spec(b@) == run(b@, i as int, Scan { mode, cur: ints(current@), acc: clause_ints(clauses@) }),
                literals_ok(clauses@),
                forall|j: int| 0 <= j < current@.len() ==> #[trigger] current@[j] != 0
                    && -(MAX_VAR as int) <= current@[j] <= MAX_VAR,
                mode matches Mode::Number(_, _, v) ==> v <= MAX_VAR,
            decreases n - i,
        {
            let c = b[i];
            let ghost st = Scan { mode, cur: ints(current@), acc: clause_ints(clauses@) };
            match mode {
                Mode::Blank(line_start) => {
                    if c == 10 {
                        mode = Mode::Blank(true);
                    } else if c == 32 || c == 9 || c == 13 || c == 11 || c == 12 {
                    } else if line_start && (c == 99 || c == 112) {
                        mode = Mode::Comment;
                    } else if c == 45 {
                        mode = Mode::Number(true, false, 0);
                    } else if 48 <= c && c <= 57 {
                        mode = Mode::Number(false, true, (c - 48) as u32);
                    } else {
                        return Err(ParseError::InvalidToken);
                    }
                },
                Mode::Comment => {
                    if c == 10 {
                        mode = Mode::Blank(true);
                    }
                },
                Mode::Number(neg, has_digit, v) => {
                    if 48 <= c && c <= 57 {
                        let d = (c - 48) as u32;
                        if v > (MAX_VAR - d) / 10 {
                            return Err(ParseError::LiteralTooLarge);
                        }
                        mode = Mode::Number(neg, true, v * 10 + d);
                    } else if (c == 32 || c == 9 || c == 13 || c == 11 || c == 12 || c == 10) && has_digit {
                        close_number(&mut clauses, &mut current, neg, v);
                        mode = Mode::Blank(c == 10);
                    } else {
                        return Err(ParseError::InvalidToken);
                    }
                },
            }
            proof {
                assert(step(st, c) == Ok::<Scan, ParseError>(Scan { mode, cur: ints(current@), acc: clause_ints(clauses@) }));
            }
            i = i + 1;
        }
        match mode {
            Mode::Number(neg, has_digit, v) => {
                if !has_digit {
                    return Err(ParseError::InvalidToken);
                }
                close_number(&mut clauses, &mut current, neg, v);
            },
            _ => {},
        }
        if current.len() > 0 {
            let ghost before = clauses@;
            clauses.push(current);
            proof {
                assert(clause_ints(clauses@) =~= clause_ints(before).push(ints(current@)));
                assert forall|x: int, y: int| 0 <= x < clauses@.len() && 0 <= y < clauses@[x]@.len() implies
                    #[trigger] clauses@[x]@[y] != 0 && -(MAX_VAR as int) <= clauses@[x]@[y] <= MAX_VAR by {
                    if x < before.len() {
                        assert(clauses@[x] == before[x]);
                    }
                }
            }
        }
        Ok(clauses)
    }
}

/// Ends the integer `v` (negated if `neg`): zero closes the current clause, any other
/// value joins it.
fn close_number(clauses: &mut Vec<Vec<i32>>, current: &mut Vec<i32>, neg: bool, v: u32)
    requires
        v <= MAX_VAR,
        literals_ok(old(clauses)@),
        forall|j: int| 0 <= j < old(current)@.len() ==> #[trigger] old(current)@[j] != 0
            && -(MAX_VAR as int) <= old(current)@[j] <= MAX_VAR,
    ensures
        literals_ok(final(clauses)@),
        forall|j: int| 0 <= j < final(current)@.len() ==> #[trigger] final(current)@[j] != 0
            && -(MAX_VAR as int) <= final(current)@[j] <= MAX_VAR,
        ({
            let st = end_number(Scan { mode: Mode::Number(neg, true, v), cur: ints(old(current)@), acc: clause_ints(old(clauses)@) });
            st.cur == ints(final(current)@) && st.acc == clause_ints(final(clauses)@)
        }),
{
    if v == 0 {
        let mut done: Vec<i32> = Vec::new();
        std::mem::swap(current, &mut done);
        let ghost before = clauses@;
        clauses.push(done);
        proof {
            assert(clause_ints(clauses@) =~= clause_ints(before).push(ints(done@)));
            assert(ints(current@) =~= Seq::<int>::empty());
            assert forall|x: int, y: int| 0 <= x < clauses@.len() && 0 <= y < clauses@[x]@.len() implies
                #[trigger] clauses@[x]@[y] != 0 && -(MAX_VAR as int) <= clauses@[x]@[y] <= MAX_VAR by {
                if x < before.len() {
                    assert(clauses@[x] == before[x]);
                }
            }
        }
    } else {
        let lit = if neg { -(v as i32) } else { v as i32 };
        let ghost before = current@;
        current.push(lit);
        proof {
            assert(ints(current@) =~= ints(before).push(lit as int));
        }
    }
}

/// The decimal digits of `v`, most significant first.
pub open spec fn digits_of(v: nat) -> Seq<u8>
    decreases v,
{
    if v < 10 {
        seq![(48 + v) as u8]
    } else {
        digits_of(v / 10).push((48 + v % 10) as u8)
    }
}

/// The literal `x` written in DIMACS.
pub open spec fn lit_text(x: int) -> Seq<u8> {
    if x < 0 { seq![45u8] + digits_of((-x) as nat) } else { digits_of(x as nat) }
}

/// The clause `c` written as a DIMACS line: each literal followed by a blank, then `0`.
pub open spec fn clause_text(c: Seq<int>) -> Seq<u8>
    decreases c.len(),
{
    if c.len() == 0 {
        seq![48u8, 10u8]
    } else {
        lit_text(c[0]) + seq![32u8] + clause_text(c.subrange(1, c.len() as int))
    }
}

/// The formula `f` written in DIMACS, one clause per line.
pub open spec fn dimacs_text(f: Seq<Seq<int>>) -> Seq<u8>
    decreases f.len(),
{
    if f.len() == 0 {
        Seq::empty()
    } else {
        clause_text(f[0]) + dimacs_text(f.subrange(1, f.len() as int))
    }
}

/// Reading the bytes `p` from state `st`, without looking at what follows.
pub open spec fn consume(p: Seq<u8>, st: Scan) -> Result<Scan, ParseError>
    decreases p.len(),
{
    if p.len() == 0 {
        Ok(st)
    } else {
        match consume(p.drop_last(), st) {
            Ok(s1) => step(s1, p.last()),
            Err(e) => Err(e),
        }
    }
}

/// Reading a prefix and then the rest is reading the whole.
proof fn lemma_run_split(p: Seq<u8>, q: Seq<u8>, st: Scan)
    ensures
        run(p + q, 0, st) == match consume(p, st) {
            Ok(s1) => run(q, 0, s1),
            Err(e) => Err(e),
        },
    decreases p.len(),
{
    if p.len() == 0 {
        assert(p + q =~= q);
    } else {
        let p0 = p.drop_last();
        let c = p.last();
        let cq = seq![c] + q;
        lemma_run_split(p0, cq, st);
        assert(p0 + cq =~= p + q);
        match consume(p0, st) {
            Ok(s1) => {
                assert(cq[0] == c);
                assert(cq.subrange(1, cq.len() as int) =~= q);
                match step(s1, c) {
                    Ok(next) => {
                        lemma_run_shift(cq, q, 1, next);
                    },
                    Err(e) => {},
                }
            },
            Err(e) => {},
        }
    }
}

/// Reading `b` from position `k` is reading what follows `k`.
proof fn lemma_run_shift(b: Seq<u8>, q: Seq<u8>, k: int, st: Scan)
    requires
        0 <= k <= b.len(),
        q == b.subrange(k, b.len() as int),
    ensures
        run(b, k, st) == run(q, 0, st),
    decreases b.len() - k,
{
    if k < b.len() {
        assert(q[0] == b[k]);
        match step(st, b[k]) {
            Ok(next) => {
                let q1 = q.subrange(1, q.len() as int);
                assert(q1 =~= b.subrange(k + 1, b.len() as int));
                lemma_run_shift(b, q1, k + 1, next);
                lemma_run_shift(q, q1, 1, next);
            },
            Err(e) => {},
        }
    }
}

proof fn lemma_consume_concat(p: Seq<u8>, q: Seq<u8>, st: Scan)
    ensures
        consume(p + q, st) == match consume(p, st) {
            Ok(s1) => consume(q, s1),
            Err(e) => Err(e),
        },
    decreases q.len(),
{
    if q.len() == 0 {
        assert(p + q =~= p);
    } else {
        lemma_consume_concat(p, q.drop_last(), st);
        assert((p + q).drop_last() =~= p + q.drop_last());
    }
}

/// The digits of `v`, read in an integer of the given sign, give `v`.
proof fn lemma_consume_digits(v: nat, st: Scan, neg: bool)
    requires
        v <= MAX_VAR,
        st.mode == Mode::Number(neg, false, 0) || (!neg && st.mode is Blank),
    ensures
        consume(digits_of(v), st) == Ok::<Scan, ParseError>(Scan { mode: Mode::Number(neg, true, v as u32), ..st }),
    decreases v,
{
    if v < 10 {
        assert(digits_of(v).drop_last() =~= Seq::<u8>::empty());
        assert(consume(Seq::<u8>::empty(), st) == Ok::<Scan, ParseError>(st));
        assert(digits_of(v).last() == (48 + v) as u8);
        assert(((48 + v) as u8 - 48) as u32 == v);
    } else {
        lemma_consume_digits(v / 10, st, neg);
        assert(digits_of(v).drop_last() =~= digits_of(v / 10));
        assert(digits_of(v).last() == (48 + v % 10) as u8);
        assert((v / 10) * 10 + v % 10 == v);
    }
}

/// A written literal followed by a blank joins the clause being read.
proof fn lemma_consume_lit(x: int, st: Scan)
    requires
        x != 0,
        -(MAX_VAR as int) <= x <= MAX_VAR,
        st.mode is Blank,
    ensures
        consume(lit_text(x) + seq![32u8], st) == Ok::<Scan, ParseError>(Scan { mode: Mode::Blank(false), cur: st.cur.push(x), acc: st.acc }),
{
    if x < 0 {
        let s1 = Scan { mode: Mode::Number(true, false, 0), ..st };
        assert(consume(seq![45u8], st) == Ok::<Scan, ParseError>(s1)) by {
            assert(seq![45u8].drop_last() =~= Seq::<u8>::empty());
            assert(consume(Seq::<u8>::empty(), st) == Ok::<Scan, ParseError>(st));
        }
        lemma_consume_digits((-x) as nat, s1, true);
        lemma_consume_concat(seq![45u8], digits_of((-x) as nat), st);
        lemma_consume_concat(lit_text(x), seq![32u8], st);
        let s2 = Scan { mode: Mode::Number(true, true, (-x) as u32), ..st };
        assert(seq![32u8].drop_last() =~= Seq::<u8>::empty());
        assert(consume(Seq::<u8>::empty(), s2) == Ok::<Scan, ParseError>(s2));
    } else {
        lemma_consume_digits(x as nat, st, false);
        lemma_consume_concat(lit_text(x), seq![32u8], st);
        let s2 = Scan { mode: Mode::Number(false, true, x as u32), ..st };
        assert(seq![32u8].drop_last() =~= Seq::<u8>::empty());
        assert(consume(Seq::<u8>::empty(), s2) == Ok::<Scan, ParseError>(s2));
    }
}

/// A written clause is read back, and reading ends at the start of a line.
proof fn lemma_consume_clause(c: Seq<int>, st: Scan)
    requires
        st.mode is Blank,
        forall|j: int| 0 <= j < c.len() ==> #[trigger] c[j] != 0 && -(MAX_VAR as int) <= c[j] <= MAX_VAR,
    ensures
        consume(clause_text(c), st) == Ok::<Scan, ParseError>(Scan { mode: Mode::Blank(true), cur: Seq::empty(), acc: st.acc.push(st.cur + c) }),
    decreases c.len(),
{
    if c.len() == 0 {
        let s1 = Scan { mode: Mode::Number(false, true, 0), ..st };
        assert(seq![48u8, 10u8].drop_last() =~= seq![48u8]);
        assert(seq![48u8].drop_last() =~= Seq::<u8>::empty());
        assert(consume(Seq::<u8>::empty(), st) == Ok::<Scan, ParseError>(st));
        assert(consume(seq![48u8], st) == Ok::<Scan, ParseError>(s1));
        assert(st.cur + c =~= st.cur);
    } else {
        let rest = c.subrange(1, c.len() as int);
        lemma_consume_lit(c[0], st);
        let s1 = Scan { mode: Mode::Blank(false), cur: st.cur.push(c[0]), acc: st.acc };
        lemma_consume_clause(rest, s1);
        lemma_consume_concat(lit_text(c[0]) + seq![32u8], clause_text(rest), st);
        assert(st.cur.push(c[0]) + rest =~= st.cur + c);
    }
}

/// Every formula written in DIMACS is read back as it was, as long as its literals are
/// non-zero and within the range of variables.
pub proof fn lemma_round_trip(f: Seq<Seq<int>>)
    requires
        forall|i: int, j: int| 0 <= i < f.len() && 0 <= j < f[i].len() ==>
            #[trigger] f[i][j] != 0 && -(MAX_VAR as int) <= f[i][j] <= MAX_VAR,
    ensures
        parse_spec(dimacs_text(f)) == Ok::<Seq<Seq<int>>, ParseError>(f),
{
    lemma_read_formula(f, Seq::empty());
    assert(Seq::<Seq<int>>::empty() + f =~= f);
}

proof fn lemma_read_formula(f: Seq<Seq<int>>, acc: Seq<Seq<int>>)
    requires
        forall|i: int, j: int| 0 <= i < f.len() && 0 <= j < f[i].len() ==>
            #[trigger] f[i][j] != 0 && -(MAX_VAR as int) <= f[i][j] <= MAX_VAR,
    ensures
        run(dimacs_text(f), 0, Scan { mode: Mode::Blank(true), cur: Seq::empty(), acc }) == Ok::<Seq<Seq<int>>, ParseError>(acc + f),
    decreases f.len(),
{
    let st = Scan { mode: Mode::Blank(true), cur: Seq::empty(), acc };
    if f.len() == 0 {
        assert(acc + f =~= acc);
    } else {
        let rest = f.subrange(1, f.len() as int);
        assert forall|j: int| 0 <= j < f[0].len() implies #[trigger] f[0][j] != 0 && -(MAX_VAR as int) <= f[0][j] <= MAX_VAR by {
            assert(f[0][j] == f[0][j]);
        }
        lemma_consume_clause(f[0], st);
        assert(Seq::<int>::empty() + f[0] =~= f[0]);
        assert forall|i: int, j: int| 0 <= i < rest.len() && 0 <= j < rest[i].len() implies
            #[trigger] rest[i][j] != 0 && -(MAX_VAR as int) <= rest[i][j] <= MAX_VAR by {
            assert(rest[i] == f[i + 1]);
        }
        lemma_read_formula(rest, acc.push(f[0]));
        lemma_run_split(clause_text(f[0]), dimacs_text(rest), st);
        assert(acc.push(f[0]) + rest =~= acc + f);
    }
}

/// The words that clauses of these lengths take in the clause arena.
pub open spec fn dimacs_words(cs: Seq<Seq<int>>) -> int
    decreases cs.len(),
{
    if cs.len() == 0 { 0 } else { dimacs_words(cs.drop_last()) + crate::clause::HEADER_WORDS + cs.last().len() }
}

/// A formula takes at least the words of any of its prefixes.
pub proof fn lemma_words_prefix(cs: Seq<Seq<int>>, i: int)
    requires
        0 <= i <= cs.len(),
    ensures
        dimacs_words(cs.subrange(0, i)) <= dimacs_words(cs),
    decreases cs.len() - i,
{
    if i < cs.len() {
        lemma_words_prefix(cs, i + 1);
        assert(cs.subrange(0, i + 1).drop_last() =~= cs.subrange(0, i));
    } else {
        assert(cs.subrange(0, i) =~= cs);
    }
}

} // verus!
