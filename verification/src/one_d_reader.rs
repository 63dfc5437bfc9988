use vstd::prelude::*;

use crate::bit_array::BitArray;
use crate::exceptions::Exceptions;
use vstd::arithmetic::div_mod::{lemma_fundamental_div_mod, lemma_mod_pos_bound};

verus! {

/// The end (exclusive) of the run of equal pixels that starts at `p`.
pub open spec fn run_end(row: Seq<bool>, p: int) -> int
    decreases row.len() - p,
{
    if p + 1 >= row.len() || row[p + 1] != row[p] {
        p + 1
    } else {
        run_end(row, p + 1)
    }
}

/// Where the `j`-th run after `start` begins, counting the run at `start` as run 0; once the
/// row has ended, its length.
pub open spec fn boundary(row: Seq<bool>, start: int, j: nat) -> int
    decreases j,
{
    if j == 0 {
        start
    } else {
        let b = boundary(row, start, (j - 1) as nat);
        if b < row.len() {
            run_end(row, b)
        } else {
            b
        }
    }
}

/// The widths of the six runs that begin at `start`.
pub open spec fn run_widths(row: Seq<bool>, start: int) -> Seq<int> {
    Seq::new(6, |j: int| boundary(row, start, (j + 1) as nat) - boundary(row, start, j as nat))
}

/// Six runs begin at `start` or after it within the row (the last may reach the row's end).
pub open spec fn pattern_recordable(row: Seq<bool>, start: int) -> bool {
    0 <= start < row.len() && boundary(row, start, 5) < row.len()
}

/// Every run of the row is at most `u32::MAX` pixels wide, so that its width fits a counter.
pub open spec fn runs_fit_counters(row: Seq<bool>) -> bool {
    forall|p: int| 0 <= p < row.len() ==> #[trigger] run_end(row, p) - p <= u32::MAX
}

/// A run is a maximal stretch of equal pixels.
pub proof fn lemma_run_end(row: Seq<bool>, p: int)
    requires
        0 <= p < row.len(),
    ensures
        p < run_end(row, p) <= row.len(),
        forall|q: int| p <= q < run_end(row, p) ==> row[q] == row[p],
        run_end(row, p) < row.len() ==> row[run_end(row, p)] != row[p],
    decreases row.len() - p,
{
    if !(p + 1 >= row.len() || row[p + 1] != row[p]) {
        lemma_run_end(row, p + 1);
    }
}

/// A stretch of equal pixels from `p` that the row's end or a different pixel closes is the
/// run at `p`.
pub proof fn lemma_run_end_at(row: Seq<bool>, p: int, e: int)
    requires
        0 <= p < e <= row.len(),
        forall|q: int| p <= q < e ==> row[q] == row[p],
        e == row.len() || row[e] != row[p],
    ensures
        run_end(row, p) == e,
{
    lemma_run_end(row, p);
    let r = run_end(row, p);
    if r < e {
        assert(row[r] == row[p]);
    } else if r > e {
        assert(row[e] == row[p]);
    }
}

/// A run whose pixels up to `i` are all equal reaches past `i`.
pub proof fn lemma_run_reaches(row: Seq<bool>, b: int, i: int)
    requires
        0 <= b <= i < row.len(),
        forall|q: int| b <= q <= i ==> row[q] == row[b],
    ensures
        run_end(row, b) > i,
{
    lemma_run_end(row, b);
    let r = run_end(row, b);
    if r <= i {
        assert(row[r] == row[b]);
    }
}

/// Run boundaries advance until the row ends, and then stay at its end.
pub proof fn lemma_boundary_step(row: Seq<bool>, start: int, j: nat)
    requires
        0 <= start <= row.len(),
    ensures
        start <= boundary(row, start, j) <= row.len(),
        boundary(row, start, j) < row.len() ==> boundary(row, start, j) < boundary(row, start, j + 1),
        boundary(row, start, j) == row.len() ==> boundary(row, start, j + 1) == row.len(),
    decreases j,
{
    if j > 0 {
        lemma_boundary_step(row, start, (j - 1) as nat);
        let b0 = boundary(row, start, (j - 1) as nat);
        if b0 < row.len() {
            lemma_run_end(row, b0);
        }
    }
    let b = boundary(row, start, j);
    if b < row.len() {
        lemma_run_end(row, b);
    }
}

/// Runs alternate in colour: the run `j` runs after `start` has the colour of the pixel at
/// `start` when `j` is even, and the other colour when `j` is odd.
pub proof fn lemma_boundary_colour(row: Seq<bool>, start: int, j: nat)
    requires
        0 <= start < row.len(),
        boundary(row, start, j) < row.len(),
    ensures
        row[boundary(row, start, j)] == if j % 2 == 0 { row[start] } else { !row[start] },
    decreases j,
{
    if j > 0 {
        lemma_boundary_monotone(row, start, (j - 1) as nat, j);
        lemma_boundary_step(row, start, (j - 1) as nat);
        let b = boundary(row, start, (j - 1) as nat);
        if b == row.len() {
            assert(boundary(row, start, j) == row.len());
        }
        lemma_boundary_colour(row, start, (j - 1) as nat);
        lemma_run_end(row, b);
    }
}

/// Boundaries only grow with `j`.
pub proof fn lemma_boundary_monotone(row: Seq<bool>, start: int, j: nat, k: nat)
    requires
        0 <= start <= row.len(),
        j <= k,
    ensures
        boundary(row, start, j) <= boundary(row, start, k),
        boundary(row, start, j) == row.len() ==> boundary(row, start, k) == row.len(),
    decreases k - j,
{
    if j < k {
        lemma_boundary_monotone(row, start, j, (k - 1) as nat);
        lemma_boundary_step(row, start, (k - 1) as nat);
    }
}

/// Counting `j` runs and then `k` more is counting `j + k` runs.
pub proof fn lemma_boundary_compose(row: Seq<bool>, start: int, j: nat, k: nat)
    requires
        0 <= start <= row.len(),
    ensures
        boundary(row, boundary(row, start, j), k) == boundary(row, start, j + k),
    decreases k,
{
    if k > 0 {
        lemma_boundary_compose(row, start, j, (k - 1) as nat);
    }
}

/// The row with every pixel repeated `k` times, as when it is read at `k` times the resolution.
pub open spec fn stretched(row: Seq<bool>, k: int) -> Seq<bool> {
    Seq::new((row.len() * k) as nat, |i: int| row[i / k])
}

/// The length of a stretched row, and which pixel each of its pixels repeats.
pub proof fn lemma_stretched(row: Seq<bool>, k: int, q: int, p: int)
    requires
        k >= 1,
        0 <= p < row.len(),
        k * p <= q < k * (p + 1),
    ensures
        stretched(row, k).len() == row.len() * k,
        0 <= q < stretched(row, k).len(),
        stretched(row, k)[q] == row[p],
{
    assert(0 <= k * p) by (nonlinear_arith)
        requires
            k >= 1,
            0 <= p,
    ;
    lemma_div_between(q, k, p, p + 1);
    assert(k * (p + 1) <= row.len() * k) by (nonlinear_arith)
        requires
            k >= 1,
            p + 1 <= row.len(),
    ;
    assert(0 <= k * p) by (nonlinear_arith)
        requires
            k >= 1,
            0 <= p,
    ;
}

proof fn lemma_div_between(q: int, k: int, p: int, r: int)
    requires
        k > 0,
        0 <= q,
        k * p <= q < k * r,
    ensures
        p <= q / k < r,
{
    lemma_fundamental_div_mod(q, k);
    lemma_mod_pos_bound(q, k);
    let d = q / k;
    assert(p <= d < r) by (nonlinear_arith)
        requires
            k > 0,
            k * p <= q < k * r,
            q == k * d + q % k,
            0 <= q % k < k,
    ;
}

/// Stretching a row stretches each of its runs.
pub proof fn lemma_stretched_run_end(row: Seq<bool>, k: int, p: int)
    requires
        k >= 1,
        0 <= p < row.len(),
    ensures
        run_end(stretched(row, k), k * p) == k * run_end(row, p),
{
    let st = stretched(row, k);
    let e = run_end(row, p);
    lemma_run_end(row, p);
    assert(0 <= k * p < k * (p + 1)) by (nonlinear_arith)
        requires
            k >= 1,
            0 <= p,
    ;
    lemma_stretched(row, k, k * p, p);
    assert forall|q: int| k * p <= q < k * e implies #[trigger] st[q] == st[k * p] by {
        lemma_div_between(q, k, p, e);
        let c = q / k;
        lemma_fundamental_div_mod(q, k);
        lemma_mod_pos_bound(q, k);
        assert(k * c <= q < k * (c + 1)) by (nonlinear_arith)
            requires
                q == k * c + q % k,
                0 <= q % k < k,
        ;
        lemma_stretched(row, k, q, c);
    }
    assert(k * p < k * e <= row.len() * k) by (nonlinear_arith)
        requires
            k >= 1,
            p < e <= row.len(),
    ;
    if e < row.len() {
        assert(k * e < k * (e + 1)) by (nonlinear_arith)
            requires
                k >= 1,
        ;
        lemma_stretched(row, k, k * e, e);
    } else {
        assert(k * e == row.len() * k) by (nonlinear_arith)
            requires
                e == row.len(),
        ;
    }
    lemma_run_end_at(st, k * p, k * e);
}

/// Stretching a row stretches every run boundary.
pub proof fn lemma_stretched_boundary(row: Seq<bool>, k: int, start: int, j: nat)
    requires
        k >= 1,
        0 <= start <= row.len(),
    ensures
        boundary(stretched(row, k), k * start, j) == k * boundary(row, start, j),
    decreases j,
{
    if j > 0 {
        lemma_stretched_boundary(row, k, start, (j - 1) as nat);
        lemma_boundary_step(row, start, (j - 1) as nat);
        let b = boundary(row, start, (j - 1) as nat);
        if b < row.len() {
            lemma_stretched_run_end(row, k, b);
        }
        assert(b < row.len() <==> k * b < row.len() * k) by (nonlinear_arith)
            requires
                k >= 1,
        ;
    }
}

/// Records the widths of the six runs of pixels that begin at `start`. The last run may reach
/// the end of the row; fewer than six runs within the row are refused.
pub fn recordPattern(row: &BitArray, start: usize) -> (r: Result<[u32; 6], Exceptions>)
    requires
        runs_fit_counters(row@),
    ensures
        match r {
            Ok(counters) => pattern_recordable(row@, start as int) && counters@.len() == 6
                && forall|j: int| 0 <= j < 6 ==> counters@[j] as int == #[trigger] run_widths(row@, start as int)[j],
            Err(e) => !pattern_recordable(row@, start as int) && e == Exceptions::NotFoundException,
        },
{
    let ghost s = row@;
    let ghost st = start as int;
    let end = row.getSize();
    if start >= end {
        return Err(Exceptions::NotFoundException);
    }
    let mut counters: [u32; 6] = [0, 0, 0, 0, 0, 0];
    let mut isWhite = !row.get(start);
    let mut counterPosition: usize = 0;
    let mut i: usize = start;
    while i < end && counterPosition < 6
        invariant
            s == row@,
            st == start,
            end == s.len(),
            runs_fit_counters(s),
            start < end,
            start <= i <= end,
            counterPosition <= 6,
            forall|j: int| 0 <= j < counterPosition && j < 6 ==> counters@[j] as int
                == boundary(s, st, (j + 1) as nat) - boundary(s, st, j as nat),
            counterPosition < 6 ==> {
                let b = boundary(s, st, counterPosition as nat);
                &&& st <= b <= i
                &&& b < end
                &&& counters@[counterPosition as int] as int == i - b
                &&& s[b] == !isWhite
                &&& forall|q: int| b <= q < i ==> s[q] == !isWhite
            },
            counterPosition == 6 ==> boundary(s, st, 6) < end,
        decreases end - i,
    {
        let ghost b = boundary(s, st, counterPosition as nat);
        if row.get(i) != isWhite {
            proof {
                lemma_run_reaches(s, b, i as int);
            }
            counters[counterPosition] = counters[counterPosition] + 1;
        } else {
            proof {
                lemma_run_end_at(s, b, i as int);
                lemma_boundary_step(s, st, counterPosition as nat);
            }
            counterPosition = counterPosition + 1;
            if counterPosition < 6 {
                counters[counterPosition] = 1;
                isWhite = !isWhite;
            }
        }
        i = i + 1;
    }
    if counterPosition == 6 {
        proof {
            lemma_boundary_monotone(s, st, 5, 6);
        }
        return Ok(counters);
    }
    let ghost b = boundary(s, st, counterPosition as nat);
    proof {
        lemma_run_end_at(s, b, end as int);
        lemma_boundary_step(s, st, counterPosition as nat);
        if counterPosition < 5 {
            lemma_boundary_monotone(s, st, (counterPosition + 1) as nat, 5);
        }
    }
    if counterPosition == 5 {
        return Ok(counters);
    }
    Err(Exceptions::NotFoundException)
}

} // verus!
