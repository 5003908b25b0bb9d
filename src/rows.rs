use vstd::prelude::*;
use crate::arith::{Classes, classes_of, classify, is_pronic, is_pronic_number};
use crate::factor::{AnalysisError, is_odd_semiprime_pair};

verus! {

/// The number of enumerable rows plus one: rows are `1 <= i < row_count(n)`.
pub open spec fn row_count(n: int) -> int {
    n / 2 + n % 2
}

pub open spec fn min_of(a: int, b: int) -> int {
    if a <= b { a } else { b }
}

pub open spec fn max_of(a: int, b: int) -> int {
    if a >= b { a } else { b }
}

/// A range whose lower bound is not below its upper bound.
pub open spec fn range_is_invalid(range: Option<(u64, u64)>) -> bool {
    match range {
        Some((low, high)) => low >= high,
        None => false,
    }
}

/// The half-open row interval `[lo, hi)` selected by an optional line cap and an optional
/// inclusive range `[low, high]`, clamped to the enumerable rows.
pub open spec fn bounds_of(n: int, maxlines: Option<u64>, range: Option<(u64, u64)>) -> (int, int) {
    let lines = row_count(n);
    let limit = match maxlines {
        Some(m) => min_of(m as int, lines),
        None => lines,
    };
    match range {
        Some((low, high)) => {
            let lo = max_of(1, low as int);
            let hi = min_of(min_of(lines, high + 1), low + limit);
            (lo, min_of(min_of(hi, lo + limit), lines))
        },
        None => (1, min_of(1 + limit, lines)),
    }
}

/// Computes the row interval `[lo, hi)` for `n`, rejecting a range whose lower bound is not
/// below its upper bound.
pub fn row_bounds(n: u64, maxlines: Option<u64>, range: Option<(u64, u64)>) -> (r: Result<
    (u64, u64),
    AnalysisError,
>)
    ensures
        match r {
            Ok((lo, hi)) => !range_is_invalid(range) && (lo as int, hi as int) == bounds_of(
                n as int,
                maxlines,
                range,
            ),
            Err(e) => range_is_invalid(range) && e == AnalysisError::InvalidRange,
        },
{
    let lines: u64 = n / 2 + n % 2;
    let limit: u64 = match maxlines {
        Some(m) => if m < lines { m } else { lines },
        None => lines,
    };
    let mut lo: u64 = 1;
    let mut hi: u64 = lines;
    match range {
        Some((low, high)) => {
            if low >= high {
                return Err(AnalysisError::InvalidRange);
            }
            if low > lo {
                lo = low;
            }
            if high < hi {
                hi = high + 1;
            }
            if low < hi && limit < hi - low {
                hi = low + limit;
            }
        },
        None => {},
    }
    if lo < hi && limit < hi - lo {
        hi = lo + limit;
    }
    Ok((lo, hi))
}

/// First term of the progression that rows are matched against.
pub open spec fn sequence_start(p: int, q: int) -> int {
    if p < q { q - p + 1 } else { 1 }
}

/// `tn` is the progression term of index `k`, and that index is still below `len`.
pub open spec fn is_next_term(start: int, len: int, k: int, tn: int) -> bool {
    start + 2 * k == tn && k < len
}

/// Follows the progression `start, start + 2, ...` of `len` terms, matching each term once
/// and in order.
pub struct SequenceTracker {
    pub start: u128,
    pub len: u64,
    pub k: u64,
}

impl SequenceTracker {
    pub open spec fn wf(&self) -> bool {
        self.k <= self.len && self.start <= u64::MAX + 1
    }

    /// The tracker for factors `p` and `q`, before any row.
    pub fn new(p: u64, q: u64) -> (r: SequenceTracker)
        ensures
            r.start == sequence_start(p as int, q as int),
            r.len == p,
            r.k == 0,
            r.wf(),
    {
        let start: u128 = if p < q { (q - p) as u128 + 1 } else { 1 };
        SequenceTracker { start, len: p, k: 0 }
    }

    /// Tells whether `tn` is the next unmatched term, and advances past it if so.
    pub fn observe(&mut self, tn: u64) -> (hit: bool)
        requires
            old(self).wf(),
        ensures
            hit == is_next_term(
                old(self).start as int,
                old(self).len as int,
                old(self).k as int,
                tn as int,
            ),
            final(self).start == old(self).start,
            final(self).len == old(self).len,
            final(self).k == old(self).k + (if hit { 1int } else { 0int }),
            final(self).wf(),
    {
        let hit = self.start + 2 * (self.k as u128) == (tn as u128) && self.k < self.len;
        if hit {
            self.k = self.k + 1;
        }
        hit
    }

    /// All terms of the progression, in order.
    pub fn terms(&self) -> (r: Vec<u128>)
        requires
            self.wf(),
        ensures
            r@.len() == self.len,
            forall|j: int| 0 <= j < r@.len() ==> #[trigger] r@[j] == self.start + 2 * j,
    {
        let mut out: Vec<u128> = Vec::new();
        let mut j: u64 = 0;
        while j < self.len
            invariant
                j <= self.len,
                self.wf(),
                out@.len() == j,
                forall|x: int| 0 <= x < j ==> #[trigger] out@[x] == self.start + 2 * x,
            decreases self.len - j,
        {
            out.push(self.start + 2 * (j as u128));
            j = j + 1;
        }
        out
    }
}

pub open spec fn row_t(n: int, i: int) -> int {
    (n - i) - i
}

pub open spec fn row_t0(n: int, i: int) -> int {
    (row_t(n, i) - 1) / 2
}

pub open spec fn row_t1(n: int, i: int) -> int {
    row_t0(n, i) + 1
}

pub open spec fn row_tn(n: int, i: int) -> int {
    n - 1 - row_t(n, i)
}

pub open spec fn row_pp(n: int, i: int) -> int {
    row_t0(n, i) * row_t1(n, i)
}

/// How many progression terms have been matched before row `i`, in a traversal from `lo`.
pub open spec fn hits_before(n: int, p: int, q: int, lo: int, i: int) -> int
    decreases i - lo,
{
    if i <= lo {
        0
    } else {
        let k = hits_before(n, p, q, lo, i - 1);
        if is_next_term(sequence_start(p, q), p, k, row_tn(n, i - 1)) {
            k + 1
        } else {
            k
        }
    }
}

/// Row `i` of a traversal from `lo` carries the sequence mark.
pub open spec fn row_hit(n: int, p: int, q: int, lo: int, i: int) -> bool {
    is_next_term(sequence_start(p, q), p, hits_before(n, p, q, lo, i), row_tn(n, i))
}

/// The derived quantities of one row `i`: `a = i`, `b = n - i`, with their flags.
#[derive(Clone, Copy, Debug, PartialEq, Eq)]
pub struct DerivedRow {
    pub a: u64,
    pub b: u64,
    pub m: u128,
    pub rl: u64,
    pub rr: u64,
    pub t: u64,
    pub t0: u64,
    pub t1: u64,
    pub tn: u64,
    pub pp: u128,
    pub pp_mod: u64,
    pub a_classes: Classes,
    pub b_classes: Classes,
    pub m_classes: Classes,
    pub rl_classes: Classes,
    pub rr_classes: Classes,
    pub t_classes: Classes,
    pub tn_classes: Classes,
    pub pp_classes: Classes,
    pub pp_mod_classes: Classes,
    pub in_seq: bool,
    pub adjacent: bool,
}

/// `r` is row `i` of `n = p * q`, with `k` progression terms matched before it.
pub open spec fn row_matches(r: DerivedRow, n: int, p: int, q: int, i: int, k: int) -> bool {
    let b = n - i;
    let rl = (b * b) % n;
    let pp_mod = row_pp(n, i) % n;
    &&& r.a == i
    &&& r.b == b
    &&& r.m == i * b
    &&& r.rl == rl
    &&& r.rr == rl
    &&& r.t == row_t(n, i)
    &&& r.t0 == row_t0(n, i)
    &&& r.t1 == row_t1(n, i)
    &&& r.tn == row_tn(n, i)
    &&& r.pp == row_pp(n, i)
    &&& r.pp_mod == pp_mod
    &&& r.a_classes == classes_of(i, p, q)
    &&& r.b_classes == classes_of(b, p, q)
    &&& r.m_classes == classes_of(i * b, p, q)
    &&& r.rl_classes == classes_of(rl, p, q)
    &&& r.rr_classes == classes_of(rl, p, q)
    &&& r.t_classes == classes_of(row_t(n, i), p, q)
    &&& r.tn_classes == classes_of(row_tn(n, i), p, q)
    &&& r.pp_classes == classes_of(row_pp(n, i), p, q)
    &&& r.pp_mod_classes == classes_of(pp_mod, p, q)
    &&& r.in_seq == is_next_term(sequence_start(p, q), p, k, row_tn(n, i))
    &&& r.adjacent == is_pronic_number(pp_mod)
}

/// A forward-only stream of the rows `[lo, hi)` of `n = p * q`, carrying the sequence
/// tracker from row to row.
pub struct RowEngine {
    pub n: u64,
    pub p: u64,
    pub q: u64,
    pub lo: u64,
    pub hi: u64,
    pub next: u64,
    pub tracker: SequenceTracker,
}

impl RowEngine {
    pub open spec fn wf(&self) -> bool {
        &&& 1 <= self.lo <= self.next
        &&& self.hi <= row_count(self.n as int)
        &&& self.tracker.wf()
        &&& self.tracker.start == sequence_start(self.p as int, self.q as int)
        &&& self.tracker.len == self.p
        &&& self.tracker.k == hits_before(
            self.n as int,
            self.p as int,
            self.q as int,
            self.lo as int,
            self.next as int,
        )
    }

    /// `r` is row `i` of this stream, with progression terms counted from its first row.
    pub open spec fn row_at(&self, r: DerivedRow, i: int) -> bool {
        row_matches(
            r,
            self.n as int,
            self.p as int,
            self.q as int,
            i,
            hits_before(self.n as int, self.p as int, self.q as int, self.lo as int, i),
        )
    }

    /// Rows `[lo, hi)` of `n` with factors `p` and `q`, clamped to `1 <= i < row_count(n)`.
    pub fn new(n: u64, p: u64, q: u64, lo: u64, hi: u64) -> (r: RowEngine)
        ensures
            r.wf(),
            r.n == n,
            r.p == p,
            r.q == q,
            r.lo == max_of(1, lo as int),
            r.hi == min_of(hi as int, row_count(n as int)),
            r.next == r.lo,
    {
        let lines: u64 = n / 2 + n % 2;
        let lo = if lo < 1 { 1 } else { lo };
        let hi = if hi < lines { hi } else { lines };
        RowEngine { n, p, q, lo, hi, next: lo, tracker: SequenceTracker::new(p, q) }
    }

    /// The next row, or `None` once the stream is exhausted.
    pub fn next_row(&mut self) -> (r: Option<DerivedRow>)
        requires
            old(self).wf(),
        ensures
            final(self).wf(),
            final(self).n == old(self).n,
            final(self).p == old(self).p,
            final(self).q == old(self).q,
            final(self).lo == old(self).lo,
            final(self).hi == old(self).hi,
            old(self).next < old(self).hi ==> final(self).next == old(self).next + 1 && match r {
                Some(row) => old(self).row_at(row, old(self).next as int),
                None => false,
            },
            old(self).next >= old(self).hi ==> r is None && *final(self) == *old(self),
    {
        if self.next >= self.hi {
            return None;
        }
        let i = self.next;
        let n = self.n;
        let p = self.p;
        let q = self.q;
        let a = i;
        let b = n - i;
        let t = b - a;
        let t0 = (t - 1) / 2;
        let t1 = t0 + 1;
        let tn = n - 1 - t;
        assert((a as int) * (b as int) <= u64::MAX * u64::MAX) by (nonlinear_arith)
            requires a <= u64::MAX, b <= u64::MAX;
        assert((b as int) * (b as int) <= u64::MAX * u64::MAX) by (nonlinear_arith)
            requires b <= u64::MAX;
        assert((t0 as int) * (t1 as int) <= u64::MAX * u64::MAX) by (nonlinear_arith)
            requires t0 <= u64::MAX, t1 <= u64::MAX;
        let m: u128 = (a as u128) * (b as u128);
        let rl: u64 = ((b as u128) * (b as u128) % (n as u128)) as u64;
        let pp: u128 = (t0 as u128) * (t1 as u128);
        let pp_mod: u64 = (pp % (n as u128)) as u64;
        let in_seq = self.tracker.observe(tn);
        let adjacent = is_pronic(pp_mod as u128);
        let row = DerivedRow {
            a,
            b,
            m,
            rl,
            rr: rl,
            t,
            t0,
            t1,
            tn,
            pp,
            pp_mod,
            a_classes: classify(a as u128, p, q),
            b_classes: classify(b as u128, p, q),
            m_classes: classify(m, p, q),
            rl_classes: classify(rl as u128, p, q),
            rr_classes: classify(rl as u128, p, q),
            t_classes: classify(t as u128, p, q),
            tn_classes: classify(tn as u128, p, q),
            pp_classes: classify(pp, p, q),
            pp_mod_classes: classify(pp_mod as u128, p, q),
            in_seq,
            adjacent,
        };
        self.next = i + 1;
        Some(row)
    }

    /// Drains the stream: every remaining row, in order.
    pub fn rows(&mut self) -> (r: Vec<DerivedRow>)
        requires
            old(self).wf(),
        ensures
            final(self).wf(),
            final(self).n == old(self).n,
            final(self).p == old(self).p,
            final(self).q == old(self).q,
            final(self).lo == old(self).lo,
            final(self).hi == old(self).hi,
            r@.len() == (if old(self).next < old(self).hi {
                old(self).hi - old(self).next
            } else {
                0
            }),
            forall|j: int|
                0 <= j < r@.len() ==> old(self).row_at(#[trigger] r@[j], old(self).next + j),
    {
        let ghost first = self.next;
        let ghost start = *self;
        let mut out: Vec<DerivedRow> = Vec::new();
        while self.next < self.hi
            invariant
                self.wf(),
                self.n == start.n,
                self.p == start.p,
                self.q == start.q,
                self.lo == start.lo,
                self.hi == start.hi,
                first == start.next,
                first <= self.next,
                out@.len() == self.next - first,
                first < self.hi ==> self.next <= self.hi,
                first >= self.hi ==> self.next == first,
                forall|j: int| 0 <= j < out@.len() ==> start.row_at(#[trigger] out@[j], first + j),
            decreases self.hi - self.next,
        {
            let row = self.next_row();
            match row {
                Some(x) => out.push(x),
                None => {},
            }
        }
        assert(start == *old(self));
        out
    }
}

/// The row stream of `n = p * q` for an optional line cap and an optional inclusive range,
/// or `InvalidRange` when the range's lower bound is not below its upper bound.
pub fn compute_range(
    n: u64,
    p: u64,
    q: u64,
    maxlines: Option<u64>,
    range: Option<(u64, u64)>,
) -> (r: Result<RowEngine, AnalysisError>)
    ensures
        match r {
            Ok(e) => {
                &&& !range_is_invalid(range)
                &&& e.wf()
                &&& e.n == n && e.p == p && e.q == q
                &&& (e.lo as int, e.hi as int) == bounds_of(n as int, maxlines, range)
                &&& e.next == e.lo
            },
            Err(err) => range_is_invalid(range) && err == AnalysisError::InvalidRange,
        },
{
    match row_bounds(n, maxlines, range) {
        Ok((lo, hi)) => Ok(RowEngine::new(n, p, q, lo, hi)),
        Err(e) => Err(e),
    }
}

/// On every enumerable row `t = b - a` is positive with the parity of `n`; for odd `n` it is
/// odd and `t0 + t1 == t`.
pub proof fn lemma_row_parity(n: int, i: int)
    requires
        1 <= i < row_count(n),
    ensures
        row_t(n, i) >= 1,
        row_t(n, i) % 2 == n % 2,
        n % 2 == 1 ==> row_t(n, i) % 2 == 1 && row_t0(n, i) + row_t1(n, i) == row_t(n, i),
{
}

/// In a traversal from row one, the count of matched terms before row `i` is `i - first`
/// held between zero and `p`.
proof fn lemma_hits_closed_form(p: int, q: int, i: int)
    requires
        is_odd_semiprime_pair(p * q, p, q),
        sequence_start(p, q) % 2 == 1,
        1 <= i,
    ensures
        hits_before(p * q, p, q, 1, i) == ({
            let first = (sequence_start(p, q) + 1) / 2;
            if i <= first { 0 } else if i - first >= p { p } else { i - first }
        }),
    decreases i,
{
    if i > 1 {
        lemma_hits_closed_form(p, q, i - 1);
    }
}

/// Over the full row range of an odd semiprime `n = p * q`, the sequence mark falls on
/// exactly `p` rows, the consecutive rows from `first = (start + 1) / 2` on, and the row
/// `first + k` matches the progression term `start + 2 * k`, each term once and in order.
pub proof fn lemma_sequence_marks(p: int, q: int)
    requires
        is_odd_semiprime_pair(p * q, p, q),
    ensures
        ({
            let n = p * q;
            let start = sequence_start(p, q);
            let first = (start + 1) / 2;
            &&& bounds_of(n, None, None) == (1int, row_count(n))
            &&& 1 <= first && first + p <= row_count(n)
            &&& hits_before(n, p, q, 1, row_count(n)) == p
            &&& forall|i: int|
                1 <= i < row_count(n) ==> (#[trigger] row_hit(n, p, q, 1, i) <==> first <= i
                    < first + p)
            &&& forall|i: int|
                1 <= i < row_count(n) && #[trigger] row_hit(n, p, q, 1, i) ==> hits_before(
                    n,
                    p,
                    q,
                    1,
                    i,
                ) == i - first && row_tn(n, i) == start + 2 * (i - first)
        }),
{
    let n = p * q;
    let start = sequence_start(p, q);
    let first = (start + 1) / 2;
    assert(p % 2 != 0);
    assert(q % 2 != 0);
    assert(p * q >= p + q + 1) by (nonlinear_arith)
        requires p >= 3, q >= 3;
    assert(n % 2 == 1) by {
        assert(p * q == (2 * (p / 2) * (q / 2) + p / 2 + q / 2) * 2 + 1) by (nonlinear_arith)
            requires p % 2 == 1, q % 2 == 1, p == 2 * (p / 2) + 1, q == 2 * (q / 2) + 1;
    }
    assert(start % 2 == 1);
    assert(first + p <= row_count(n));
    assert forall|i: int| 1 <= i <= row_count(n) implies hits_before(n, p, q, 1, i) == (if i
        <= first {
        0
    } else if i - first >= p {
        p
    } else {
        i - first
    }) by {
        lemma_hits_closed_form(p, q, i);
    }
    assert forall|i: int| 1 <= i < row_count(n) implies (#[trigger] row_hit(n, p, q, 1, i)
        <==> first <= i < first + p) by {
        lemma_hits_closed_form(p, q, i);
    }
}

} // verus!
