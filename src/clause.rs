//! The clause arena: clause records in one buffer of words, with in-place compaction.
use vstd::prelude::*;

use crate::lit::{Lit, MAX_VAR};

verus! {

/// Set in the first word of every clause record, and in no other word of the arena.
pub const CLAUSE_BEGIN: u32 = 0x8000_0000;

/// Flag bit: the clause is to be dropped by the next garbage collection.
pub const IS_GARBAGE: u32 = 1;

/// Flag bit: the clause is the reason of a literal on the trail.
pub const IS_REASON: u32 = 2;

/// Left in the length word of a dropped clause's old record by garbage collection.
pub const REMOVED: u32 = 0xffff_ffff;

/// Words before the literals in a record: flags, length, glue.
pub const HEADER_WORDS: usize = 3;

/// Upper bound on the arena's size in words, so that every offset fits a length word.
pub const MAX_ARENA: usize = 0x7fff_ffff;

/// Largest literal code.
pub open spec fn max_code() -> int {
    2 * MAX_VAR + 1
}

/// The flag word of a clause.
#[derive(Clone, Copy, PartialEq, Eq, Structural, Debug)]
pub struct Flags(u32);

/// The begin marker: the top bit of the flag word.
pub open spec fn begin_bit(f: u32) -> bool {
    f >= CLAUSE_BEGIN
}

/// The garbage flag: bit zero.
pub open spec fn garbage_bit(f: u32) -> bool {
    f % 2 == 1
}

/// The reason flag: bit one.
pub open spec fn reason_bit(f: u32) -> bool {
    (f / 2) % 2 == 1
}

impl Flags {
    pub closed spec fn bits(self) -> u32 {
        self.0
    }

    /// The flags of a new clause: the begin marker alone.
    pub fn new() -> (r: Flags)
        ensures
            begin_bit(r.bits()),
            !garbage_bit(r.bits()),
            !reason_bit(r.bits()),
    {
        Flags(CLAUSE_BEGIN)
    }

    pub fn set_is_reason(&mut self, value: bool)
        ensures
            reason_bit(final(self).bits()) == value,
            garbage_bit(final(self).bits()) == garbage_bit(old(self).bits()),
            begin_bit(final(self).bits()) == begin_bit(old(self).bits()),
    {
        if value && !self.is_reason() {
            self.0 = self.0 + IS_REASON;
        } else if !value && self.is_reason() {
            self.0 = self.0 - IS_REASON;
        }
    }

    pub fn set_is_garbage(&mut self, value: bool)
        ensures
            garbage_bit(final(self).bits()) == value,
            reason_bit(final(self).bits()) == reason_bit(old(self).bits()),
            begin_bit(final(self).bits()) == begin_bit(old(self).bits()),
    {
        if value && !self.is_garbage() {
            self.0 = self.0 + IS_GARBAGE;
        } else if !value && self.is_garbage() {
            self.0 = self.0 - IS_GARBAGE;
        }
    }

    pub fn is_reason(&self) -> (r: bool)
        ensures
            r == reason_bit(self.bits()),
    {
        (self.0 / IS_REASON) % 2 == 1
    }

    pub fn is_garbage(&self) -> (r: bool)
        ensures
            r == garbage_bit(self.bits()),
    {
        self.0 % 2 == 1
    }
}

/// What a clause record holds.
pub struct ClauseView {
    pub flags: u32,
    pub glue: u32,
    pub lits: Seq<u32>,
}

impl ClauseView {
    pub open spec fn garbage(self) -> bool {
        garbage_bit(self.flags)
    }

    pub open spec fn reason(self) -> bool {
        reason_bit(self.flags)
    }

    /// The same literals, flags and glue, with the literal at `i` and at `j` exchanged.
    pub open spec fn swapped(self, i: int, j: int) -> ClauseView {
        ClauseView { lits: self.lits.update(i, self.lits[j]).update(j, self.lits[i]), ..self }
    }
}

/// Exchanging two literals of a clause keeps the set of its literals.
pub proof fn lemma_swapped_contains(cv: ClauseView, i: int, j: int)
    requires
        0 <= i < cv.lits.len(),
        0 <= j < cv.lits.len(),
    ensures
        cv.swapped(i, j).lits.len() == cv.lits.len(),
        forall|c: u32| cv.swapped(i, j).lits.contains(c) <==> cv.lits.contains(c),
{
    let t = cv.swapped(i, j).lits;
    assert forall|c: u32| t.contains(c) <==> cv.lits.contains(c) by {
        if t.contains(c) {
            let k = choose|k: int| 0 <= k < t.len() && t[k] == c;
            if k == i {
                assert(cv.lits[j] == c);
            } else if k == j {
                assert(cv.lits[i] == c);
            } else {
                assert(cv.lits[k] == c);
            }
        }
        if cv.lits.contains(c) {
            let k = choose|k: int| 0 <= k < cv.lits.len() && cv.lits[k] == c;
            if k == i {
                assert(t[j] == c);
            } else if k == j {
                assert(t[i] == c);
            } else {
                assert(t[k] == c);
            }
        }
    }
}

/// The end of the record that starts at `s`.
pub open spec fn record_end(data: Seq<u32>, s: int) -> int {
    s + HEADER_WORDS + data[s + 1]
}

/// The record that starts at `s` is in bounds and well formed.
pub open spec fn record_ok(data: Seq<u32>, s: int) -> bool {
    &&& 0 <= s
    &&& s + HEADER_WORDS <= data.len()
    &&& record_end(data, s) <= data.len()
    &&& begin_bit(data[s])
    &&& 2 <= data[s + 1] < 0x8000_0000
    &&& data[s + 2] < 0x8000_0000
    &&& forall|i: int| s + HEADER_WORDS <= i < record_end(data, s) ==> 2 <= #[trigger] data[i] <= max_code()
}

/// The clause held by the record that starts at `s`.
pub open spec fn record(data: Seq<u32>, s: int) -> ClauseView {
    ClauseView {
        flags: data[s],
        glue: data[s + 2],
        lits: data.subrange(s + HEADER_WORDS, record_end(data, s)),
    }
}

/// `data` is a sequence of well-formed records, starting at the offsets in `starts`, in order.
#[verifier::opaque]
pub open spec fn layout(data: Seq<u32>, starts: Seq<int>) -> bool {
    &&& starts.len() == 0 ==> data.len() == 0
    &&& starts.len() > 0 ==> starts[0] == 0 && record_end(data, starts.last()) == data.len()
    &&& forall|k: int| 0 <= k < starts.len() ==> record_ok(data, #[trigger] starts[k])
    &&& forall|k: int| 0 <= k < starts.len() - 1 ==> record_end(data, #[trigger] starts[k]) == starts[k + 1]
}

/// What a layout says of its `k`-th record.
pub proof fn lemma_layout_at(data: Seq<u32>, starts: Seq<int>, k: int)
    requires
        layout(data, starts),
        0 <= k < starts.len(),
    ensures
        record_ok(data, starts[k]),
        k < starts.len() - 1 ==> record_end(data, starts[k]) == starts[k + 1],
        k == starts.len() - 1 ==> record_end(data, starts[k]) == data.len(),
        starts[0] == 0,
{
    reveal(layout);
}

/// An empty layout ends at offset zero, and a layout that ends there is empty.
pub proof fn lemma_layout_empty(data: Seq<u32>, starts: Seq<int>)
    requires
        layout(data, starts),
    ensures
        (starts.len() == 0) == (data.len() == 0),
{
    reveal(layout);
    if starts.len() > 0 {
        assert(record_ok(data, starts[starts.len() - 1]));
    }
}

/// Records laid out in order are disjoint: each ends before the next one begins.
pub proof fn lemma_layout_ordered(data: Seq<u32>, starts: Seq<int>, k: int, m: int)
    requires
        layout(data, starts),
        0 <= k < m < starts.len(),
    ensures
        record_end(data, starts[k]) <= starts[m],
    decreases m - k,
{
    lemma_layout_at(data, starts, k);
    if m > k + 1 {
        lemma_layout_ordered(data, starts, k, m - 1);
        lemma_layout_at(data, starts, m - 1);
    }
}

/// Appending a well-formed record to a layout gives a layout with one more start,
/// and leaves the earlier records as they were.
proof fn lemma_push_record(d0: Seq<u32>, starts0: Seq<int>, d1: Seq<u32>, glue: u32)
    requires
        layout(d0, starts0),
        d1.len() >= d0.len() + HEADER_WORDS,
        d1.subrange(0, d0.len() as int) == d0,
        begin_bit(d1[d0.len() as int]),
        d1[d0.len() as int + 1] == d1.len() - d0.len() - HEADER_WORDS,
        2 <= d1[d0.len() as int + 1] < 0x8000_0000,
        d1[d0.len() as int + 2] == glue,
        glue < 0x8000_0000,
        forall|i: int| d0.len() + HEADER_WORDS <= i < d1.len() ==> 2 <= #[trigger] d1[i] <= max_code(),
    ensures
        layout(d1, starts0.push(d0.len() as int)),
        forall|s: int| starts0.contains(s) ==> record(d1, s) == record(d0, s),
        !starts0.contains(d0.len() as int),
{
    reveal(layout);
    let start = d0.len() as int;
    let starts1 = starts0.push(start);
    assert forall|i: int| 0 <= i < start implies d1[i] == d0[i] by {
        assert(d1.subrange(0, start)[i] == d1[i]);
    }
    assert forall|k: int| 0 <= k < starts0.len() implies #[trigger] starts0[k] + HEADER_WORDS <= start
        && record_end(d0, starts0[k]) <= start by {
        assert(record_ok(d0, starts0[k]));
    }
    assert forall|k: int| 0 <= k < starts1.len() implies record_ok(d1, #[trigger] starts1[k]) by {
        if k < starts0.len() {
            assert(record_ok(d0, starts0[k]));
            assert(d1[starts0[k] + 1] == d0[starts0[k] + 1]);
            assert(d1[starts0[k] + 2] == d0[starts0[k] + 2]);
            assert(d1[starts0[k]] == d0[starts0[k]]);
            assert forall|i: int| starts1[k] + HEADER_WORDS <= i < record_end(d1, starts1[k]) implies 2 <= #[trigger] d1[i] <= max_code() by {
                assert(d1[i] == d0[i]);
            }
        }
    }
    assert forall|k: int| 0 <= k < starts1.len() - 1 implies record_end(d1, #[trigger] starts1[k]) == starts1[k + 1] by {
        assert(record_ok(d0, starts0[k]));
        assert(d1[starts0[k] + 1] == d0[starts0[k] + 1]);
    }
    if starts0.len() > 0 {
        assert(record_ok(d0, starts0.last()));
    }
    assert forall|s: int| starts0.contains(s) implies record(d1, s) == record(d0, s) by {
        let k = choose|k: int| 0 <= k < starts0.len() && starts0[k] == s;
        assert(record_ok(d0, starts0[k]));
        assert(d1.subrange(s + HEADER_WORDS, record_end(d1, s)) =~= d0.subrange(s + HEADER_WORDS, record_end(d0, s)));
    }
}

/// Two distinct records of a layout do not overlap.
proof fn lemma_disjoint(data: Seq<u32>, starts: Seq<int>, s: int, t: int)
    requires
        layout(data, starts),
        starts.contains(s),
        starts.contains(t),
    ensures
        s != t ==> record_end(data, s) <= t || record_end(data, t) <= s,
        record_ok(data, s),
        record_ok(data, t),
{
    reveal(layout);
    let k = choose|k: int| 0 <= k < starts.len() && starts[k] == s;
    let m = choose|m: int| 0 <= m < starts.len() && starts[m] == t;
    if k < m {
        lemma_layout_ordered(data, starts, k, m);
    } else if m < k {
        lemma_layout_ordered(data, starts, m, k);
    }
}

/// The precondition of a one-word change to the record at `s`: its flags, keeping the
/// begin bit, or one of its literals, to another literal code.
pub open spec fn word_change_ok(d0: Seq<u32>, s: int, idx: int, w: u32) -> bool {
    (idx == s && begin_bit(w)) || (s + HEADER_WORDS <= idx < record_end(d0, s) && 2 <= w <= max_code())
}

proof fn lemma_update_word_record_ok(d0: Seq<u32>, starts: Seq<int>, s: int, idx: int, w: u32, t: int)
    requires
        layout(d0, starts),
        starts.contains(s),
        starts.contains(t),
        word_change_ok(d0, s, idx, w),
    ensures
        record_ok(d0.update(idx, w), t),
        record_end(d0.update(idx, w), t) == record_end(d0, t),
{
    reveal(layout);
    let d1 = d0.update(idx, w);
    lemma_disjoint(d0, starts, s, t);
    assert(d1[t + 1] == d0[t + 1]);
    assert(d1[t + 2] == d0[t + 2]);
    assert forall|i: int| t + HEADER_WORDS <= i < record_end(d1, t) implies 2 <= #[trigger] d1[i] <= max_code() by {
        if i != idx {
            assert(d1[i] == d0[i]);
        }
    }
}

/// A one-word change to the record at `s` keeps the layout and every other record.
proof fn lemma_update_word(d0: Seq<u32>, starts: Seq<int>, s: int, idx: int, w: u32)
    requires
        layout(d0, starts),
        starts.contains(s),
        word_change_ok(d0, s, idx, w),
    ensures
        layout(d0.update(idx, w), starts),
        forall|t: int| starts.contains(t) && t != s ==> record(d0.update(idx, w), t) == record(d0, t),
        record(d0.update(idx, w), s).glue == record(d0, s).glue,
        record(d0.update(idx, w), s).lits.len() == record(d0, s).lits.len(),
        idx == s ==> record(d0.update(idx, w), s).lits == record(d0, s).lits,
        idx == s ==> record(d0.update(idx, w), s).flags == w,
        idx != s ==> record(d0.update(idx, w), s).flags == record(d0, s).flags,
        idx != s ==> record(d0.update(idx, w), s).lits == record(d0, s).lits.update(idx - s - HEADER_WORDS, w),
{
    reveal(layout);
    let d1 = d0.update(idx, w);
    assert forall|k: int| 0 <= k < starts.len() implies record_ok(d1, #[trigger] starts[k]) by {
        lemma_update_word_record_ok(d0, starts, s, idx, w, starts[k]);
    }
    assert forall|k: int| 0 <= k < starts.len() - 1 implies record_end(d1, #[trigger] starts[k]) == starts[k + 1] by {
        lemma_update_word_record_ok(d0, starts, s, idx, w, starts[k]);
    }
    if starts.len() > 0 {
        assert(starts.contains(starts.last()));
        lemma_update_word_record_ok(d0, starts, s, idx, w, starts.last());
    }
    assert forall|t: int| starts.contains(t) && t != s implies record(d1, t) == record(d0, t) by {
        lemma_disjoint(d0, starts, s, t);
        assert(d1.subrange(t + HEADER_WORDS, record_end(d1, t)) =~= d0.subrange(t + HEADER_WORDS, record_end(d0, t)));
    }
    lemma_update_word_record_ok(d0, starts, s, idx, w, s);
    if idx == s {
        assert(d1.subrange(s + HEADER_WORDS, record_end(d1, s)) =~= d0.subrange(s + HEADER_WORDS, record_end(d0, s)));
    } else {
        assert(d1.subrange(s + HEADER_WORDS, record_end(d1, s)) =~= d0.subrange(s + HEADER_WORDS, record_end(d0, s)).update(idx - s - HEADER_WORDS, w));
    }
}

/// A record cut out of the arena is a record at offset zero.
proof fn lemma_record_slice(d: Seq<u32>, s: int, sub: Seq<u32>)
    requires
        record_ok(d, s),
        sub == d.subrange(s, record_end(d, s)),
    ensures
        record_ok(sub, 0),
        record_end(sub, 0) == sub.len(),
        record(sub, 0) == record(d, s),
{
    assert forall|i: int| HEADER_WORDS <= i < record_end(sub, 0) implies 2 <= #[trigger] sub[i] <= max_code() by {
        assert(sub[i] == d[s + i]);
    }
    assert(record(sub, 0).lits =~= record(d, s).lits);
}

/// A handle to a clause: the offset of its record in the arena.
#[derive(Clone, Copy, PartialEq, Eq, Structural, Debug)]
pub struct ClauseIdx {
    offset: usize,
}

impl ClauseIdx {
    /// The offset of the clause's record in the arena.
    pub closed spec fn at(self) -> int {
        self.offset as int
    }

    /// The handle at offset `s`.
    pub closed spec fn from_at(s: int) -> ClauseIdx {
        ClauseIdx { offset: s as usize }
    }
}

/// The clause arena: every clause lives in one buffer of words, as
/// `[flags][length][glue][lit 0] ... [lit length-1]`.
pub struct ClauseDB {
    clause_data: Vec<u32>,
    clause_data_old: Vec<u32>,
    starts: Ghost<Seq<int>>,
    old_starts: Ghost<Seq<int>>,
}

/// A read-only view of one clause of the arena.
#[derive(Clone, Copy)]
pub struct Clause<'a> {
    data: &'a [u32],
}

impl<'a> Clause<'a> {
    pub closed spec fn view(&self) -> ClauseView {
        record(self.data@, 0)
    }

    pub closed spec fn wf(&self) -> bool {
        record_ok(self.data@, 0) && record_end(self.data@, 0) == self.data@.len()
    }

    pub fn len(&self) -> (r: u32)
        requires
            self.wf(),
        ensures
            r == self.view().lits.len(),
    {
        self.data[1]
    }

    /// The glue (LBD) recorded for the clause; zero for input clauses.
    pub fn glue(&self) -> (r: u32)
        requires
            self.wf(),
        ensures
            r == self.view().glue,
    {
        self.data[2]
    }

    pub fn flags(&self) -> (r: Flags)
        requires
            self.wf(),
        ensures
            r.bits() == self.view().flags,
    {
        Flags(self.data[0])
    }

    /// The clause's literals, in order.
    pub fn lits(&self) -> (r: Vec<Lit>)
        requires
            self.wf(),
        ensures
            r@.len() == self.view().lits.len(),
            forall|j: int| 0 <= j < r@.len() ==> #[trigger] r@[j].code() == self.view().lits[j],
    {
        let n = self.data[1] as usize;
        let mut r: Vec<Lit> = Vec::new();
        let mut j: usize = 0;
        while j < n
            invariant
                self.wf(),
                n == self.view().lits.len(),
                j <= n,
                r@.len() == j,
                forall|i: int| 0 <= i < j ==> #[trigger] r@[i].code() == self.view().lits[i],
            decreases n - j,
        {
            let w = self.data[HEADER_WORDS + j];
            assert(self.data@[HEADER_WORDS + j] == self.view().lits[j as int]);
            r.push(Lit::from_code(w));
            j = j + 1;
        }
        r
    }
}

impl ClauseDB {
    /// The offsets of the clauses, in arena order.
    pub closed spec fn handles(&self) -> Seq<int> {
        self.starts@
    }

    /// The clause at offset `s`.
    pub closed spec fn clause(&self, s: int) -> ClauseView {
        record(self.clause_data@, s)
    }

    pub open spec fn valid(&self, h: ClauseIdx) -> bool {
        self.handles().contains(h.at())
    }

    /// The handles that were valid before the last garbage collection.
    pub closed spec fn old_handles(&self) -> Seq<int> {
        self.old_starts@
    }

    /// Where the last garbage collection moved the clause that was at `s`; `REMOVED` if dropped.
    pub closed spec fn forward(&self, s: int) -> u32 {
        self.clause_data_old@[s + 1]
    }

    /// Number of words in the arena.
    pub closed spec fn size(&self) -> nat {
        self.clause_data@.len()
    }

    pub closed spec fn wf(&self) -> bool {
        &&& layout(self.clause_data@, self.starts@)
        &&& self.clause_data@.len() <= MAX_ARENA
        &&& forall|k: int| 0 <= k < self.old_starts@.len() ==> self.old_starts@[k] + HEADER_WORDS <= self.clause_data_old@.len()
        &&& forall|k: int| #![trigger self.old_starts@[k]] 0 <= k < self.old_starts@.len() ==> 0 <= self.old_starts@[k]
        &&& forall|k: int| 0 <= k < self.old_starts@.len() ==> {
            let f = #[trigger] self.clause_data_old@[self.old_starts@[k] + 1];
            f == REMOVED || self.starts@.contains(f as int)
        }
    }

    /// Every handle of the arena names a clause with at least two literals.
    pub proof fn lemma_valid(&self, h: ClauseIdx)
        requires
            self.wf(),
            self.valid(h),
        ensures
            2 <= self.clause(h.at()).lits.len() < 0x8000_0000,
            forall|j: int| 0 <= j < self.clause(h.at()).lits.len() ==> 2 <= #[trigger] self.clause(h.at()).lits[j] <= max_code(),
    {
        let k = choose|k: int| 0 <= k < self.starts@.len() && self.starts@[k] == h.at();
        lemma_layout_at(self.clause_data@, self.starts@, k);
        assert forall|j: int| 0 <= j < self.clause(h.at()).lits.len() implies 2 <= #[trigger] self.clause(h.at()).lits[j] <= max_code() by {
            assert(self.clause(h.at()).lits[j] == self.clause_data@[h.at() + HEADER_WORDS + j]);
        }
    }

    /// The handles of the arena are in increasing order.
    pub proof fn lemma_handles_increasing(&self, k: int, m: int)
        requires
            self.wf(),
            0 <= k < m < self.handles().len(),
        ensures
            self.handles()[k] < self.handles()[m],
    {
        lemma_layout_ordered(self.clause_data@, self.starts@, k, m);
        lemma_layout_at(self.clause_data@, self.starts@, k);
    }

    /// A handle of the arena is an offset that a `ClauseIdx` can hold.
    pub proof fn lemma_handle(&self, s: int)
        requires
            self.wf(),
            self.handles().contains(s),
        ensures
            0 <= s <= usize::MAX,
            ClauseIdx::from_at(s).at() == s,
            self.valid(ClauseIdx::from_at(s)),
    {
        let k = choose|k: int| 0 <= k < self.starts@.len() && self.starts@[k] == s;
        lemma_layout_at(self.clause_data@, self.starts@, k);
    }

    pub fn new() -> (r: ClauseDB)
        ensures
            r.wf(),
            r.handles() == Seq::<int>::empty(),
            r.old_handles() == Seq::<int>::empty(),
            r.size() == 0,
    {
        proof {
            reveal(layout);
        }
        ClauseDB {
            clause_data: Vec::new(),
            clause_data_old: Vec::new(),
            starts: Ghost(Seq::empty()),
            old_starts: Ghost(Seq::empty()),
        }
    }

    /// Whether a clause of `n` literals still fits in the arena.
    pub fn has_room(&self, n: usize) -> (r: bool)
        ensures
            r == (self.size() + HEADER_WORDS + n <= MAX_ARENA),
    {
        self.clause_data.len() <= MAX_ARENA - HEADER_WORDS && n <= MAX_ARENA - HEADER_WORDS - self.clause_data.len()
    }

    /// Copies `lits` into the arena as a new clause with the given glue; returns its handle.
    pub fn insert_clause(&mut self, lits: &Vec<Lit>, glue: u32) -> (r: ClauseIdx)
        requires
            old(self).wf(),
            lits@.len() >= 2,
            old(self).size() + HEADER_WORDS + lits@.len() <= MAX_ARENA,
            glue < 0x8000_0000,
        ensures
            final(self).wf(),
            final(self).handles() == old(self).handles().push(r.at()),
            final(self).size() == old(self).size() + HEADER_WORDS + lits@.len(),
            r.at() == old(self).size(),
            !old(self).handles().contains(r.at()),
            final(self).clause(r.at()).flags == CLAUSE_BEGIN,
            !final(self).clause(r.at()).garbage(),
            !final(self).clause(r.at()).reason(),
            final(self).clause(r.at()).glue == glue,
            final(self).clause(r.at()).lits.len() == lits@.len(),
            forall|j: int| 0 <= j < lits@.len() ==> #[trigger] final(self).clause(r.at()).lits[j] == lits@[j].code(),
            forall|s: int| old(self).handles().contains(s) ==> final(self).clause(s) == old(self).clause(s),
            final(self).old_handles() == old(self).old_handles(),
            forall|s: int| #![trigger final(self).forward(s)] final(self).forward(s) == old(self).forward(s),
    {
        let start = self.clause_data.len();
        let ghost d0 = self.clause_data@;
        self.clause_data.push(CLAUSE_BEGIN);
        self.clause_data.push(lits.len() as u32);
        self.clause_data.push(glue);
        let mut j: usize = 0;
        while j < lits.len()
            invariant
                self.starts == old(self).starts,
                self.old_starts == old(self).old_starts,
                self.clause_data_old == old(self).clause_data_old,
                layout(d0, self.starts@),
                self.clause_data@.len() == start + HEADER_WORDS + j,
                self.clause_data@.subrange(0, start as int) == d0,
                d0.len() == start,
                self.clause_data@[start as int] == CLAUSE_BEGIN,
                self.clause_data@[start + 1] == lits@.len(),
                self.clause_data@[start + 2] == glue,
                j <= lits@.len(),
                forall|i: int| 0 <= i < j ==> #[trigger] self.clause_data@[start + HEADER_WORDS + i] == lits@[i].code(),
                forall|i: int| 0 <= i < j ==> 2 <= #[trigger] lits@[i].code() <= max_code(),
            decreases lits@.len() - j,
        {
            let w = lits[j].get();
            self.clause_data.push(w);
            j = j + 1;
        }
        let ghost d1 = self.clause_data@;
        proof {
            let starts0 = self.starts@;
            assert forall|i: int| d0.len() + HEADER_WORDS <= i < d1.len() implies 2 <= #[trigger] d1[i] <= max_code() by {
                let j = i - start - HEADER_WORDS;
                assert(d1[start + HEADER_WORDS + j] == lits@[j].code());
                assert(2 <= lits@[j].code() <= max_code());
            }
            lemma_push_record(d0, starts0, d1, glue);
            self.starts@ = starts0.push(start as int);
            assert forall|k: int| 0 <= k < self.old_starts@.len() implies ({
                let f = #[trigger] self.clause_data_old@[self.old_starts@[k] + 1];
                f == REMOVED || self.starts@.contains(f as int)
            }) by {
                let f = self.clause_data_old@[self.old_starts@[k] + 1];
                if f != REMOVED {
                    assert(starts0.contains(f as int));
                    let m = choose|m: int| 0 <= m < starts0.len() && starts0[m] == f as int;
                    assert(self.starts@[m] == f as int);
                }
            }
            assert forall|j: int| 0 <= j < lits@.len() implies #[trigger] self.clause(start as int).lits[j] == lits@[j].code() by {
                assert(self.clause_data@[start + HEADER_WORDS + j] == lits@[j].code());
            }
        }
        ClauseIdx { offset: start }
    }

    /// Number of literals of clause `h`.
    pub fn clause_len(&self, h: ClauseIdx) -> (r: usize)
        requires
            self.wf(),
            self.valid(h),
        ensures
            r == self.clause(h.at()).lits.len(),
            r >= 2,
    {
        proof {
            self.lemma_valid(h);
            lemma_disjoint(self.clause_data@, self.starts@, h.at(), h.at());
        }
        self.clause_data[h.offset + 1] as usize
    }

    /// Literal `k` of clause `h`.
    pub fn lit(&self, h: ClauseIdx, k: usize) -> (r: Lit)
        requires
            self.wf(),
            self.valid(h),
            k < self.clause(h.at()).lits.len(),
        ensures
            r.code() == self.clause(h.at()).lits[k as int],
            r == Lit::from_code_spec(self.clause(h.at()).lits[k as int]),
    {
        proof {
            self.lemma_valid(h);
            lemma_disjoint(self.clause_data@, self.starts@, h.at(), h.at());
        }
        assert(self.clause_data@[h.at() + HEADER_WORDS + k] == self.clause(h.at()).lits[k as int]);
        Lit::from_code(self.clause_data[h.offset + HEADER_WORDS + k])
    }

    /// Exchanges literals `i` and `j` of clause `h`.
    pub fn swap_lits(&mut self, h: ClauseIdx, i: usize, j: usize)
        requires
            old(self).wf(),
            old(self).valid(h),
            i < old(self).clause(h.at()).lits.len(),
            j < old(self).clause(h.at()).lits.len(),
        ensures
            final(self).wf(),
            final(self).size() == old(self).size(),
            final(self).handles() == old(self).handles(),
            final(self).clause(h.at()) == old(self).clause(h.at()).swapped(i as int, j as int),
            forall|s: int| old(self).handles().contains(s) && s != h.at() ==> final(self).clause(s) == old(self).clause(s),
            final(self).old_handles() == old(self).old_handles(),
            forall|s: int| #![trigger final(self).forward(s)] final(self).forward(s) == old(self).forward(s),
    {
        let ghost d0 = self.clause_data@;
        let ghost s = h.at();
        proof {
            self.lemma_valid(h);
            lemma_disjoint(self.clause_data@, self.starts@, h.at(), h.at());
        }
        let a = self.clause_data[h.offset + HEADER_WORDS + i];
        let b = self.clause_data[h.offset + HEADER_WORDS + j];
        assert(a == old(self).clause(s).lits[i as int]);
        assert(b == old(self).clause(s).lits[j as int]);
        self.clause_data.set(h.offset + HEADER_WORDS + i, b);
        proof {
            lemma_update_word(d0, self.starts@, s, s + HEADER_WORDS + i, b);
        }
        let ghost d1 = self.clause_data@;
        self.clause_data.set(h.offset + HEADER_WORDS + j, a);
        proof {
            lemma_update_word(d1, self.starts@, s, s + HEADER_WORDS + j, a);
            assert(self.clause(s).lits =~= old(self).clause(s).swapped(i as int, j as int).lits);
        }
    }

    /// The flags of clause `h`.
    pub fn flags(&self, h: ClauseIdx) -> (r: Flags)
        requires
            self.wf(),
            self.valid(h),
        ensures
            r.bits() == self.clause(h.at()).flags,
    {
        proof {
            lemma_disjoint(self.clause_data@, self.starts@, h.at(), h.at());
        }
        Flags(self.clause_data[h.offset])
    }

    /// The glue (LBD) of clause `h`; zero for input clauses.
    pub fn glue(&self, h: ClauseIdx) -> (r: u32)
        requires
            self.wf(),
            self.valid(h),
        ensures
            r == self.clause(h.at()).glue,
    {
        proof {
            lemma_disjoint(self.clause_data@, self.starts@, h.at(), h.at());
        }
        self.clause_data[h.offset + 2]
    }

    /// Replaces the flags of clause `h`; the begin marker stays set.
    fn set_flags(&mut self, h: ClauseIdx, f: u32)
        requires
            old(self).wf(),
            old(self).valid(h),
            begin_bit(f),
        ensures
            final(self).wf(),
            final(self).size() == old(self).size(),
            final(self).handles() == old(self).handles(),
            final(self).clause(h.at()) == (ClauseView { flags: f, ..old(self).clause(h.at()) }),
            forall|s: int| old(self).handles().contains(s) && s != h.at() ==> final(self).clause(s) == old(self).clause(s),
            final(self).old_handles() == old(self).old_handles(),
            forall|s: int| #![trigger final(self).forward(s)] final(self).forward(s) == old(self).forward(s),
    {
        let ghost d0 = self.clause_data@;
        proof {
            lemma_disjoint(d0, self.starts@, h.at(), h.at());
        }
        self.clause_data.set(h.offset, f);
        proof {
            lemma_update_word(d0, self.starts@, h.at(), h.at(), f);
        }
    }

    /// Sets whether clause `h` is the reason of a trail literal.
    pub fn set_is_reason(&mut self, h: ClauseIdx, value: bool)
        requires
            old(self).wf(),
            old(self).valid(h),
        ensures
            final(self).wf(),
            final(self).size() == old(self).size(),
            final(self).handles() == old(self).handles(),
            final(self).clause(h.at()).reason() == value,
            final(self).clause(h.at()).garbage() == old(self).clause(h.at()).garbage(),
            final(self).clause(h.at()).lits == old(self).clause(h.at()).lits,
            final(self).clause(h.at()).glue == old(self).clause(h.at()).glue,
            forall|s: int| old(self).handles().contains(s) && s != h.at() ==> final(self).clause(s) == old(self).clause(s),
            final(self).old_handles() == old(self).old_handles(),
            forall|s: int| #![trigger final(self).forward(s)] final(self).forward(s) == old(self).forward(s),
    {
        let mut f = self.flags(h);
        proof {
            lemma_disjoint(self.clause_data@, self.starts@, h.at(), h.at());
        }
        f.set_is_reason(value);
        self.set_flags(h, f.0);
    }

    /// Sets whether clause `h` is to be dropped by the next garbage collection.
    pub fn set_is_garbage(&mut self, h: ClauseIdx, value: bool)
        requires
            old(self).wf(),
            old(self).valid(h),
        ensures
            final(self).wf(),
            final(self).size() == old(self).size(),
            final(self).handles() == old(self).handles(),
            final(self).clause(h.at()).garbage() == value,
            final(self).clause(h.at()).reason() == old(self).clause(h.at()).reason(),
            final(self).clause(h.at()).lits == old(self).clause(h.at()).lits,
            final(self).clause(h.at()).glue == old(self).clause(h.at()).glue,
            forall|s: int| old(self).handles().contains(s) && s != h.at() ==> final(self).clause(s) == old(self).clause(s),
            final(self).old_handles() == old(self).old_handles(),
            forall|s: int| #![trigger final(self).forward(s)] final(self).forward(s) == old(self).forward(s),
    {
        let mut f = self.flags(h);
        proof {
            lemma_disjoint(self.clause_data@, self.starts@, h.at(), h.at());
        }
        f.set_is_garbage(value);
        self.set_flags(h, f.0);
    }

    /// A read-only view of clause `h`.
    pub fn get(&self, h: ClauseIdx) -> (r: Clause<'_>)
        requires
            self.wf(),
            self.valid(h),
        ensures
            r.wf(),
            r.view() == self.clause(h.at()),
    {
        let ghost s = h.at();
        proof {
            lemma_disjoint(self.clause_data@, self.starts@, s, s);
        }
        let end = h.offset + HEADER_WORDS + self.clause_data[h.offset + 1] as usize;
        let data = self.clause_data.as_slice();
        let sub = &data[h.offset..end];
        proof {
            lemma_record_slice(self.clause_data@, s, sub@);
        }
        Clause { data: sub }
    }

    /// The handles of all clauses, in arena order, found by walking the length words.
    pub fn iter(&self) -> (r: Vec<ClauseIdx>)
        requires
            self.wf(),
        ensures
            r@.len() == self.handles().len(),
            forall|k: int| 0 <= k < r@.len() ==> #[trigger] r@[k].at() == self.handles()[k],
    {
        let mut r: Vec<ClauseIdx> = Vec::new();
        let mut pos: usize = 0;
        let ghost starts = self.starts@;
        let ghost d = self.clause_data@;
        proof {
            lemma_layout_empty(d, starts);
            if starts.len() > 0 {
                lemma_layout_at(d, starts, 0);
            }
        }
        while pos < self.clause_data.len()
            invariant
                self.wf(),
                starts == self.starts@,
                d == self.clause_data@,
                r@.len() <= starts.len(),
                pos == if r@.len() < starts.len() { starts[r@.len() as int] } else { d.len() as int },
                forall|k: int| 0 <= k < r@.len() ==> #[trigger] r@[k].at() == starts[k],
            decreases d.len() - pos,
        {
            let ghost k = r@.len() as int;
            proof {
                if k >= starts.len() {
                    assert(false);
                }
                lemma_layout_at(d, starts, k);
            }
            r.push(ClauseIdx { offset: pos });
            pos = pos + HEADER_WORDS + self.clause_data[pos + 1] as usize;
        }
        proof {
            if r@.len() < starts.len() {
                let k = r@.len() as int;
                lemma_layout_at(d, starts, k);
            }
        }
        r
    }

    #[verifier::rlimit(100)]
    /// Drops every clause flagged as garbage by compacting the live ones into the spare
    /// buffer, which then becomes the arena. The length word of each old record is
    /// overwritten with the clause's new offset, or with `REMOVED`, so that handles held
    /// elsewhere can be rewritten with [`ClauseDB::update_old_clause_index`].
    pub fn collect_garbage(&mut self)
        requires
            old(self).wf(),
        ensures
            final(self).wf(),
            final(self).old_handles() == old(self).handles(),
            forall|s: int| #[trigger] old(self).handles().contains(s) ==>
                ((final(self).forward(s) == REMOVED) == old(self).clause(s).garbage()),
            forall|s: int| #[trigger] old(self).handles().contains(s) && !old(self).clause(s).garbage() ==>
                final(self).handles().contains(final(self).forward(s) as int)
                && final(self).clause(final(self).forward(s) as int) == old(self).clause(s),
            forall|t: int| #[trigger] final(self).handles().contains(t) ==> !final(self).clause(t).garbage(),
            forall|t: int| #[trigger] final(self).handles().contains(t) ==> exists|s: int|
                old(self).handles().contains(s) && !old(self).clause(s).garbage() && #[trigger] final(self).forward(s) == t
                && final(self).clause(t) == old(self).clause(s),
            forall|s1: int, s2: int| old(self).handles().contains(s1) && old(self).handles().contains(s2) && s1 < s2
                && !old(self).clause(s1).garbage() && !old(self).clause(s2).garbage() ==>
                #[trigger] final(self).forward(s1) < #[trigger] final(self).forward(s2),
    {
        self.clause_data_old.clear();
        let ghost d0 = self.clause_data@;
        let ghost starts0 = self.starts@;
        let ghost mut ns: Seq<int> = Seq::empty();
        let ghost mut k: int = 0;
        let mut pos: usize = 0;
        proof {
            reveal(layout);
            lemma_layout_empty(d0, starts0);
            if starts0.len() > 0 {
                lemma_layout_at(d0, starts0, 0);
            }
        }
        while pos < self.clause_data.len()
            invariant
                layout(d0, starts0),
                d0.len() <= MAX_ARENA,
                starts0 == old(self).starts@,
                d0 == old(self).clause_data@,
                self.clause_data@.len() == d0.len(),
                0 <= k <= starts0.len(),
                pos == if k < starts0.len() { starts0[k] } else { d0.len() as int },
                forall|i: int| pos <= i < d0.len() ==> #[trigger] self.clause_data@[i] == d0[i],
                layout(self.clause_data_old@, ns),
                self.clause_data_old@.len() <= pos,
                forall|m: int| 0 <= m < k ==> {
                    let f = #[trigger] self.clause_data@[starts0[m] + 1];
                    &&& (f == REMOVED) == record(d0, starts0[m]).garbage()
                    &&& f != REMOVED ==> ns.contains(f as int) && record(self.clause_data_old@, f as int) == record(d0, starts0[m])
                },
                forall|t: int| #[trigger] ns.contains(t) ==> !record(self.clause_data_old@, t).garbage(),
                forall|t: int| #[trigger] ns.contains(t) ==> exists|m: int| 0 <= m < k && self.clause_data@[starts0[m] + 1] == t
                    && !record(d0, starts0[m]).garbage() && #[trigger] record(self.clause_data_old@, t) == record(d0, starts0[m]),
                forall|m: int| 0 <= m < k && !record(d0, starts0[m]).garbage() ==>
                    #[trigger] self.clause_data@[starts0[m] + 1] < self.clause_data_old@.len(),
                forall|m1: int, m2: int| 0 <= m1 < m2 < k && !record(d0, starts0[m1]).garbage() && !record(d0, starts0[m2]).garbage() ==>
                    #[trigger] self.clause_data@[starts0[m1] + 1] < #[trigger] self.clause_data@[starts0[m2] + 1],
            decreases d0.len() - pos,
        {
            proof {
                if k >= starts0.len() {
                    assert(false);
                }
                lemma_layout_at(d0, starts0, k);
                assert forall|m: int| 0 <= m < k implies starts0[m] + HEADER_WORDS <= pos && #[trigger] starts0[m] >= 0 by {
                    lemma_layout_ordered(d0, starts0, m, k);
                    lemma_layout_at(d0, starts0, m);
                }
            }
            let len = self.clause_data[pos + 1] as usize;
            let end = pos + HEADER_WORDS + len;
            let flags = Flags(self.clause_data[pos]);
            let ghost old_data = self.clause_data@;
            if flags.is_garbage() {
                self.clause_data.set(pos + 1, REMOVED);
            } else {
                let new_offset = self.clause_data_old.len();
                let ghost n0 = self.clause_data_old@;
                let mut i: usize = pos;
                while i < end
                    invariant
                        pos <= i <= end,
                        end == record_end(d0, pos as int),
                        end <= d0.len(),
                        self.clause_data@ == old_data,
                        old_data.len() == d0.len(),
                        forall|j: int| pos <= j < d0.len() ==> #[trigger] old_data[j] == d0[j],
                        self.clause_data_old@ == n0 + d0.subrange(pos as int, i as int),
                        new_offset == n0.len(),
                    decreases end - i,
                {
                    let w = self.clause_data[i];
                    self.clause_data_old.push(w);
                    assert(self.clause_data_old@ =~= n0 + d0.subrange(pos as int, i + 1));
                    i = i + 1;
                }
                let ghost n1 = self.clause_data_old@;
                proof {
                    let s = pos as int;
                    assert(n1.subrange(0, n0.len() as int) =~= n0);
                    assert(n1[new_offset as int] == d0[s]);
                    assert(n1[new_offset + 1] == d0[s + 1]);
                    assert(n1[new_offset + 2] == d0[s + 2]);
                    assert forall|j: int| n0.len() + HEADER_WORDS <= j < n1.len() implies 2 <= #[trigger] n1[j] <= max_code() by {
                        assert(n1[j] == d0[j - new_offset + s]);
                    }
                    lemma_push_record(n0, ns, n1, d0[s + 2]);
                    assert(record(n1, new_offset as int).lits =~= record(d0, s).lits) by {
                        assert forall|j: int| 0 <= j < record(d0, s).lits.len() implies record(n1, new_offset as int).lits[j] == record(d0, s).lits[j] by {
                            assert(n1[new_offset + HEADER_WORDS + j] == d0[s + HEADER_WORDS + j]);
                        }
                    }
                    let ns0 = ns;
                    ns = ns.push(new_offset as int);
                    assert(ns[ns.len() - 1] == new_offset as int);
                    assert(ns.contains(new_offset as int));
                    assert forall|t: int| #[trigger] ns.contains(t) implies !record(n1, t).garbage() by {
                        if t != new_offset as int {
                            let q = choose|q: int| 0 <= q < ns.len() && ns[q] == t;
                            assert(ns0[q] == t);
                            assert(ns0.contains(t));
                        }
                    }
                    assert forall|t: int| #[trigger] ns0.contains(t) implies ns.contains(t) by {
                        let q = choose|q: int| 0 <= q < ns0.len() && ns0[q] == t;
                        assert(ns[q] == t);
                    }
                    assert forall|t: int| #[trigger] ns.contains(t) implies ns0.contains(t) || t == new_offset as int by {
                        let q = choose|q: int| 0 <= q < ns.len() && ns[q] == t;
                        if q < ns0.len() {
                            assert(ns0[q] == t);
                        }
                    }
                }
                self.clause_data.set(pos + 1, new_offset as u32);
            }
            proof {
                let s = pos as int;
                assert forall|t: int| #[trigger] ns.contains(t) implies exists|m: int| 0 <= m < k + 1 && self.clause_data@[starts0[m] + 1] == t
                    && !record(d0, starts0[m]).garbage() && #[trigger] record(self.clause_data_old@, t) == record(d0, starts0[m]) by {
                    if t == self.clause_data@[s + 1] as int && !record(d0, s).garbage() {
                        assert(starts0[k] == s);
                    } else {
                        let m = choose|m: int| 0 <= m < k && old_data[starts0[m] + 1] == t
                            && !record(d0, starts0[m]).garbage() && #[trigger] record(self.clause_data_old@, t) == record(d0, starts0[m]);
                        assert(self.clause_data@[starts0[m] + 1] == old_data[starts0[m] + 1]);
                    }
                }
                assert forall|m: int| 0 <= m < k + 1 implies {
                    let f = #[trigger] self.clause_data@[starts0[m] + 1];
                    &&& (f == REMOVED) == record(d0, starts0[m]).garbage()
                    &&& f != REMOVED ==> ns.contains(f as int) && record(self.clause_data_old@, f as int) == record(d0, starts0[m])
                } by {
                    if m < k {
                        assert(self.clause_data@[starts0[m] + 1] == old_data[starts0[m] + 1]);
                    }
                }
                assert forall|m: int| 0 <= m < k + 1 && !record(d0, starts0[m]).garbage() implies
                    #[trigger] self.clause_data@[starts0[m] + 1] < self.clause_data_old@.len() by {
                    if m < k {
                        assert(self.clause_data@[starts0[m] + 1] == old_data[starts0[m] + 1]);
                    }
                }
                assert forall|m1: int, m2: int| 0 <= m1 < m2 < k + 1 && !record(d0, starts0[m1]).garbage() && !record(d0, starts0[m2]).garbage() implies
                    #[trigger] self.clause_data@[starts0[m1] + 1] < #[trigger] self.clause_data@[starts0[m2] + 1] by {
                    assert(self.clause_data@[starts0[m1] + 1] == old_data[starts0[m1] + 1]);
                    if m2 < k {
                        assert(self.clause_data@[starts0[m2] + 1] == old_data[starts0[m2] + 1]);
                    }
                }
                k = k + 1;
            }
            pos = end;
        }
        proof {
            if k < starts0.len() {
                lemma_layout_at(d0, starts0, k);
            }
            assert forall|m: int| 0 <= m < starts0.len() implies #[trigger] starts0[m] + HEADER_WORDS <= d0.len() by {
                lemma_layout_at(d0, starts0, m);
            }
        }
        std::mem::swap(&mut self.clause_data, &mut self.clause_data_old);
        proof {
            self.old_starts@ = starts0;
            self.starts@ = ns;
            assert forall|s: int| #[trigger] starts0.contains(s) implies
                ((self.forward(s) == REMOVED) == record(d0, s).garbage())
                && (!record(d0, s).garbage() ==> ns.contains(self.forward(s) as int)
                    && record(self.clause_data@, self.forward(s) as int) == record(d0, s)) by {
                let m = choose|m: int| 0 <= m < starts0.len() && starts0[m] == s;
                assert(self.clause_data_old@[starts0[m] + 1] == self.forward(s));
            }
            assert forall|t: int| #[trigger] ns.contains(t) implies exists|s: int|
                starts0.contains(s) && !record(d0, s).garbage() && #[trigger] self.forward(s) == t
                && record(self.clause_data@, t) == record(d0, s) by {
                let m = choose|m: int| 0 <= m < k && self.clause_data_old@[starts0[m] + 1] == t
                    && !record(d0, starts0[m]).garbage() && #[trigger] record(self.clause_data@, t) == record(d0, starts0[m]);
                assert(starts0.contains(starts0[m]));
                assert(self.forward(starts0[m]) == t);
            }
            assert forall|s1: int, s2: int| starts0.contains(s1) && starts0.contains(s2) && s1 < s2
                && !record(d0, s1).garbage() && !record(d0, s2).garbage() implies
                #[trigger] self.forward(s1) < #[trigger] self.forward(s2) by {
                let m1 = choose|m: int| 0 <= m < starts0.len() && starts0[m] == s1;
                let m2 = choose|m: int| 0 <= m < starts0.len() && starts0[m] == s2;
                if m2 < m1 {
                    lemma_layout_ordered(d0, starts0, m2, m1);
                    lemma_layout_at(d0, starts0, m2);
                }
                assert(m1 != m2);
                assert(self.clause_data_old@[starts0[m1] + 1] < self.clause_data_old@[starts0[m2] + 1]);
            }
        }
    }

    /// Rewrites a handle taken before the last garbage collection. Returns `false`, and
    /// leaves the handle alone, if its clause was dropped.
    pub fn update_old_clause_index(&self, idx: &mut ClauseIdx) -> (r: bool)
        requires
            self.wf(),
            self.old_handles().contains(old(idx).at()),
        ensures
            r == (self.forward(old(idx).at()) != REMOVED),
            r ==> final(idx).at() == self.forward(old(idx).at()) && self.valid(*final(idx)),
            !r ==> *final(idx) == *old(idx),
    {
        let ghost m = choose|m: int| 0 <= m < self.old_starts@.len() && self.old_starts@[m] == old(idx).at();
        assert(0 <= m < self.old_starts@.len() && self.old_starts@[m] == idx.offset);
        assert(self.old_starts@[m] + HEADER_WORDS <= self.clause_data_old@.len());
        let off = idx.offset;
        let n = self.clause_data_old.len();
        assert(off + 1 < n);
        let new_pos = self.clause_data_old[off + 1];
        if new_pos == REMOVED {
            false
        } else {
            idx.offset = new_pos as usize;
            true
        }
    }
}

} // verus!
