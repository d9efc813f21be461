//! The Chebyshev linear program of one target n-gram.
//!
//! Frequencies are counts, so the whole program is integer-valued: one
//! non-negative column per regressor with cost 0, one non-negative slack
//! column `t` with cost 1, and for every year `i` the two rows
//! `sum_k c_k x_k[i] - t <= y[i]` and `-sum_k c_k x_k[i] - t <= -y[i]`.
use vstd::prelude::*;

verus! {

/// Number of yearly samples in a frequency series (1800 through 2000).
pub const YEARS: usize = 201;

/// A candidate regressor: a child n-gram and its frequency series.
pub struct Regressor {
    pub ngram: String,
    pub freq: Vec<u64>,
}

impl View for Regressor {
    type V = (Seq<char>, Seq<u64>);

    open spec fn view(&self) -> (Seq<char>, Seq<u64>) {
        (self.ngram@, self.freq@)
    }
}

/// One constraint row: `sum of coefficient * column <= upper`.
pub struct Row {
    pub entries: Vec<(usize, i128)>,
    pub upper: i128,
}

/// A minimisation problem whose columns are all bounded below by zero.
pub struct LinearProgram {
    pub costs: Vec<u64>,
    pub rows: Vec<Row>,
}

/// A series that is zero in every year.
pub open spec fn is_zero(x: Seq<u64>) -> bool {
    forall|i: int| 0 <= i < x.len() ==> x[i] == 0
}

/// A regressor whose series is not all zero.
pub open spec fn usable(r: (Seq<char>, Seq<u64>)) -> bool {
    !is_zero(r.1)
}

pub open spec fn regressor_views(v: Seq<Regressor>) -> Seq<(Seq<char>, Seq<u64>)> {
    v.map_values(|r: Regressor| r@)
}

/// What reconstruction uses of a candidate list: nothing when it has fewer
/// than two entries or when every series is zero, else the candidates whose
/// series is not all zero, in their order.
pub open spec fn usable_regressors(c: Seq<(Seq<char>, Seq<u64>)>) -> Option<
    Seq<(Seq<char>, Seq<u64>)>,
> {
    if c.len() < 2 {
        None
    } else if c.filter(|r: (Seq<char>, Seq<u64>)| usable(r)).len() == 0 {
        None
    } else {
        Some(c.filter(|r: (Seq<char>, Seq<u64>)| usable(r)))
    }
}

/// Cost of column `c` among `k` regressor columns and the slack column.
pub open spec fn cost_of(k: int, c: int) -> u64 {
    if c < k {
        0
    } else {
        1
    }
}

/// `v`, negated unless `positive`.
pub open spec fn signed(positive: bool, v: u64) -> i128 {
    if positive {
        v as i128
    } else {
        -(v as int) as i128
    }
}

/// Row `r` of the program for regressor series `xs` and target `y`: rows
/// below `y.len()` bound the excess, the others the shortfall.
pub open spec fn row_of(xs: Seq<Seq<u64>>, y: Seq<u64>, r: int) -> (Seq<(usize, i128)>, i128) {
    let k = xs.len() as int;
    let upper_half = r < y.len();
    let i = if upper_half {
        r
    } else {
        r - y.len()
    };
    (
        Seq::new(
            (k + 1) as nat,
            |c: int|
                if c < k {
                    (c as usize, signed(upper_half, xs[c][i]))
                } else {
                    (k as usize, -1i128)
                },
        ),
        signed(upper_half, y[i]),
    )
}

pub open spec fn series_of(regs: Seq<Regressor>) -> Seq<Seq<u64>> {
    regs.map_values(|r: Regressor| r.freq@)
}

/// The program that `build_program` produces.
pub open spec fn is_program_of(lp: LinearProgram, regs: Seq<Regressor>, y: Seq<u64>) -> bool {
    let k = regs.len() as int;
    &&& lp.costs@ == Seq::new((k + 1) as nat, |c: int| cost_of(k, c))
    &&& lp.rows@.len() == 2 * y.len()
    &&& forall|r: int|
        0 <= r < 2 * y.len() ==> (#[trigger] lp.rows@[r]).entries@ == row_of(series_of(regs), y, r).0
            && lp.rows@[r].upper == row_of(series_of(regs), y, r).1
}

/// Whether a series is zero in every year.
fn all_zero(x: &Vec<u64>) -> (r: bool)
    ensures
        r == is_zero(x@),
{
    let mut i: usize = 0;
    while i < x.len()
        invariant
            i <= x@.len(),
            forall|m: int| 0 <= m < i ==> x@[m] == 0,
        decreases x@.len() - i,
    {
        if x[i] != 0 {
            return false;
        }
        i = i + 1;
    }
    true
}

/// Keeps the candidates that can take part in a reconstruction; `None` when
/// the target is to stay unsolved.
pub fn usable_candidates(candidates: Vec<Regressor>) -> (r: Option<Vec<Regressor>>)
    ensures
        match r {
            Some(v) => usable_regressors(regressor_views(candidates@)) == Some(
                regressor_views(v@),
            ),
            None => usable_regressors(regressor_views(candidates@)) is None,
        },
{
    let ghost all = regressor_views(candidates@);
    let ghost pred = |r: (Seq<char>, Seq<u64>)| usable(r);
    if candidates.len() < 2 {
        return None;
    }
    let n = candidates.len();
    let mut rest = candidates;
    let mut kept: Vec<Regressor> = Vec::new();
    let mut i: usize = 0;
    while i < n
        invariant
            i <= n,
            n == all.len(),
            all == regressor_views(candidates@),
            pred == (|r: (Seq<char>, Seq<u64>)| usable(r)),
            rest@.len() == n - i,
            regressor_views(rest@) == all.subrange(i as int, n as int),
            regressor_views(kept@) == all.subrange(0, i as int).filter(pred),
        decreases n - i,
    {
        let ghost before = kept@;
        let ghost p = all.subrange(0, i + 1);
        let ghost old_rest = rest@;
        assert(regressor_views(old_rest)[0] == all[i as int]);
        let c = rest.remove(0);
        assert forall|m: int| 0 <= m < rest@.len() implies regressor_views(rest@)[m] == all[i + 1 + m] by {
            assert(rest@[m] == old_rest[m + 1]);
            assert(regressor_views(old_rest)[m + 1] == all[i + 1 + m]);
        }
        assert(regressor_views(rest@) =~= all.subrange(i + 1, n as int));
        proof {
            assert(p.drop_last() =~= all.subrange(0, i as int));
            assert(p.last() == c@);
            reveal(Seq::filter);
        }
        let zero = all_zero(&c.freq);
        if !zero {
            kept.push(c);
            assert(regressor_views(kept@) =~= regressor_views(before).push(p.last()));
            assert(p.filter(pred) == p.drop_last().filter(pred).push(p.last()));
        } else {
            assert(p.filter(pred) == p.drop_last().filter(pred));
        }
        i = i + 1;
    }
    assert(all.subrange(0, n as int) =~= all);
    if kept.len() == 0 {
        None
    } else {
        Some(kept)
    }
}

/// Every regressor series is as long as the target series.
pub open spec fn aligned(regs: Seq<Regressor>, y: Seq<u64>) -> bool {
    forall|k: int| 0 <= k < regs.len() ==> (#[trigger] regs[k]).freq@.len() == y.len()
}

/// Row `r` of the program.
fn make_row(regs: &Vec<Regressor>, y: &Vec<u64>, r: usize) -> (row: Row)
    requires
        y@.len() == YEARS,
        r < 2 * y@.len(),
        aligned(regs@, y@),
        regs@.len() < usize::MAX,
    ensures
        row.entries@ == row_of(series_of(regs@), y@, r as int).0,
        row.upper == row_of(series_of(regs@), y@, r as int).1,
{
    let ghost want = row_of(series_of(regs@), y@, r as int).0;
    let upper_half = r < y.len();
    let i = if upper_half {
        r
    } else {
        r - y.len()
    };
    let mut entries: Vec<(usize, i128)> = Vec::new();
    let mut c: usize = 0;
    while c < regs.len()
        invariant
            c <= regs@.len(),
            i < y@.len(),
            upper_half == (r < y@.len()),
            i == (if upper_half { r as int } else { r - y@.len() }),
            aligned(regs@, y@),
            want == row_of(series_of(regs@), y@, r as int).0,
            entries@.len() == c,
            forall|m: int| 0 <= m < c ==> entries@[m] == want[m],
        decreases regs@.len() - c,
    {
        assert(series_of(regs@)[c as int] == regs@[c as int].freq@);
        assert(regs@[c as int].freq@.len() == y@.len());
        let v = regs[c].freq[i] as i128;
        let e = if upper_half {
            v
        } else {
            -v
        };
        entries.push((c, e));
        c = c + 1;
    }
    entries.push((regs.len(), -1i128));
    assert(entries@ =~= want);
    let upper = if upper_half {
        y[i] as i128
    } else {
        -(y[i] as i128)
    };
    Row { entries, upper }
}

/// The program of a target series `y` over the regressors `regs`.
pub fn build_program(regs: &Vec<Regressor>, y: &Vec<u64>) -> (lp: LinearProgram)
    requires
        y@.len() == YEARS,
        aligned(regs@, y@),
        regs@.len() < usize::MAX,
    ensures
        is_program_of(lp, regs@, y@),
{
    let k = regs.len();
    let mut costs: Vec<u64> = Vec::new();
    let mut c: usize = 0;
    while c <= k
        invariant
            c <= k + 1,
            k == regs@.len(),
            k < usize::MAX,
            costs@ =~= Seq::new(c as nat, |m: int| cost_of(k as int, m)),
        decreases k + 1 - c,
    {
        costs.push(if c < k { 0 } else { 1 });
        c = c + 1;
    }
    let mut rows: Vec<Row> = Vec::new();
    let mut r: usize = 0;
    while r < 2 * y.len()
        invariant
            r <= 2 * y@.len(),
            y@.len() == YEARS,
            aligned(regs@, y@),
            regs@.len() < usize::MAX,
            rows@.len() == r,
            forall|m: int|
                0 <= m < r ==> (#[trigger] rows@[m]).entries@ == row_of(series_of(regs@), y@, m).0
                    && rows@[m].upper == row_of(series_of(regs@), y@, m).1,
        decreases 2 * y@.len() - r,
    {
        let row = make_row(regs, y, r);
        rows.push(row);
        r = r + 1;
    }
    LinearProgram { costs, rows }
}

/// Left-hand side of a row at the point `v`, which gives every column a value.
pub open spec fn row_value(entries: Seq<(usize, i128)>, v: Seq<int>) -> int
    decreases entries.len(),
{
    if entries.len() == 0 {
        0
    } else {
        row_value(entries.drop_last(), v) + entries.last().1 * v[entries.last().0 as int]
    }
}

/// `sum_k c[k] * xs[k][i]`: the reconstruction of year `i` with weights `c`.
pub open spec fn combination(xs: Seq<Seq<u64>>, c: Seq<int>, i: int) -> int
    decreases xs.len(),
{
    if xs.len() == 0 {
        0
    } else {
        combination(xs.drop_last(), c, i) + c[xs.len() - 1] * xs.last()[i]
    }
}

/// The regressor part of a row is the combination, negated in the lower half.
proof fn lemma_row_prefix(xs: Seq<Seq<u64>>, y: Seq<u64>, r: int, c: Seq<int>, t: int, m: int)
    requires
        0 <= r < 2 * y.len(),
        0 <= m <= xs.len(),
        c.len() == xs.len(),
        xs.len() < usize::MAX,
        forall|k: int| 0 <= k < xs.len() ==> (#[trigger] xs[k]).len() == y.len(),
    ensures
        row_value(row_of(xs, y, r).0.subrange(0, m), c.push(t)) == (if r < y.len() {
            combination(xs.subrange(0, m), c, r)
        } else {
            -combination(xs.subrange(0, m), c, r - y.len())
        }),
    decreases m,
{
    let e = row_of(xs, y, r).0;
    let v = c.push(t);
    let i = if r < y.len() {
        r
    } else {
        r - y.len()
    };
    if m == 0 {
        assert(e.subrange(0, 0) =~= Seq::<(usize, i128)>::empty());
        assert(xs.subrange(0, 0) =~= Seq::<Seq<u64>>::empty());
    } else {
        lemma_row_prefix(xs, y, r, c, t, m - 1);
        assert(e.subrange(0, m).drop_last() =~= e.subrange(0, m - 1));
        assert(xs.subrange(0, m).drop_last() =~= xs.subrange(0, m - 1));
        let x = xs[m - 1][i] as int;
        let w = c[m - 1];
        assert(e.subrange(0, m).last() == e[m - 1]);
        assert(v[m - 1] == w);
        if r < y.len() {
            assert(e[m - 1].1 as int == x);
            assert(x * w == w * x) by (nonlinear_arith);
        } else {
            assert(e[m - 1].1 as int == -x);
            assert((-x) * w == -(w * x)) by (nonlinear_arith);
        }
    }
}

/// At a point with regressor weights `c` and slack `t`, the two rows of year
/// `i` both hold exactly when the reconstruction of that year misses `y[i]`
/// by at most `t`.
pub proof fn lemma_rows_bound_deviation(
    lp: LinearProgram,
    regs: Seq<Regressor>,
    y: Seq<u64>,
    c: Seq<int>,
    t: int,
    i: int,
)
    requires
        is_program_of(lp, regs, y),
        aligned(regs, y),
        regs.len() < usize::MAX,
        c.len() == regs.len(),
        0 <= i < y.len(),
    ensures
        (row_value(lp.rows@[i].entries@, c.push(t)) <= lp.rows@[i].upper && row_value(
            lp.rows@[y.len() + i].entries@,
            c.push(t),
        ) <= lp.rows@[y.len() + i].upper) <==> {
            let d = combination(series_of(regs), c, i) - y[i];
            -t <= d <= t
        },
{
    let xs = series_of(regs);
    let k = xs.len() as int;
    let v = c.push(t);
    let lo = y.len() + i;
    assert forall|m: int| 0 <= m < xs.len() implies (#[trigger] xs[m]).len() == y.len() by {
        assert(xs[m] == regs[m].freq@);
    }
    assert(lp.rows@[i].entries@ == row_of(xs, y, i).0);
    assert(lp.rows@[lo].entries@ == row_of(xs, y, lo).0);
    lemma_row_prefix(xs, y, i, c, t, k);
    lemma_row_prefix(xs, y, lo, c, t, k);
    assert(xs.subrange(0, k) =~= xs);
    let eu = row_of(xs, y, i).0;
    let el = row_of(xs, y, lo).0;
    assert(eu.drop_last() =~= eu.subrange(0, k));
    assert(el.drop_last() =~= el.subrange(0, k));
    assert(eu.last() == (k as usize, -1i128));
    assert(el.last() == (k as usize, -1i128));
    assert(v[k] == t);
    assert(row_value(eu, v) == combination(xs, c, i) - t);
    assert(row_value(el, v) == -combination(xs, c, i) - t);
}

} // verus!
