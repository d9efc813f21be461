//! Paging of one pass: the step offsets over the rows of an order, and the
//! tiles that the workers of a step take.
//!
//! Tiles are aligned to the step: a step covers `[offset, min(offset +
//! chunk_size, count))` and its tiles cover exactly that range, each row once.
use vstd::prelude::*;

verus! {

/// The number of workers: the requested one, else half the available cores.
pub fn worker_count(requested: Option<usize>, available: usize) -> (r: usize)
    ensures
        r == match requested {
            Some(c) => c,
            None => available / 2,
        },
{
    match requested {
        Some(c) => c,
        None => available / 2,
    }
}

/// Offsets of the steps of a pass over `count` rows: `0, chunk_size, ...`,
/// every one below `count`, until the steps reach `count`.
pub fn step_offsets(count: u64, chunk_size: u64) -> (r: Vec<u64>)
    requires
        chunk_size > 0,
    ensures
        forall|i: int| 0 <= i < r@.len() ==> r@[i] == i * chunk_size && r@[i] < count,
        r@.len() * chunk_size >= count,
{
    let mut r: Vec<u64> = Vec::new();
    if count == 0 {
        return r;
    }
    let mut off: u64 = 0;
    assert(r@.len() * chunk_size == 0) by (nonlinear_arith)
        requires
            r@.len() == 0,
    ;
    loop
        invariant_except_break
            off < count,
            r@.len() * chunk_size == off,
        invariant
            chunk_size > 0,
            forall|i: int| 0 <= i < r@.len() ==> r@[i] == i * chunk_size && r@[i] < count,
        ensures
            r@.len() * chunk_size >= count,
        decreases count - off,
    {
        let ghost n = r@.len();
        r.push(off);
        assert((n + 1) * chunk_size == n * chunk_size + chunk_size) by (nonlinear_arith);
        if count - off <= chunk_size {
            break;
        }
        off = off + chunk_size;
    }
    r
}

/// `tiles` cover `[start, end)` in order, one after the other, each with at
/// least one row; all but the last hold `size` rows and none holds more.
pub open spec fn covers(tiles: Seq<(u64, u64)>, start: int, end: int, size: int) -> bool {
    &&& (tiles.len() == 0) == (start == end)
    &&& forall|j: int| 0 <= j < tiles.len() ==> 0 < (#[trigger] tiles[j]).0 <= size
    &&& forall|j: int| 0 <= j < tiles.len() - 1 ==> (#[trigger] tiles[j]).0 == size
    &&& tiles.len() > 0 ==> tiles[0].1 == start
    &&& forall|j: int|
        0 <= j < tiles.len() - 1 ==> (#[trigger] tiles[j + 1]).1 == tiles[j].1 + tiles[j].0
    &&& tiles.len() > 0 ==> tiles.last().1 + tiles.last().0 == end
}

/// Last row (exclusive) of the step at `offset`.
pub open spec fn step_end(count: int, chunk_size: int, offset: int) -> int {
    if count - offset < chunk_size {
        count
    } else {
        offset + chunk_size
    }
}

/// Rows per tile: the step's rows shared out over the workers, rounded up.
pub open spec fn tile_size(span: int, workers: int) -> int {
    if span % workers == 0 {
        span / workers
    } else {
        span / workers + 1
    }
}

/// The `(limit, offset)` pages that the workers of the step at `offset` read.
pub fn step_tiles(count: u64, chunk_size: u64, offset: u64, workers: u64) -> (r: Vec<(u64, u64)>)
    requires
        chunk_size > 0,
        workers > 0,
        offset <= count,
    ensures
        covers(
            r@,
            offset as int,
            step_end(count as int, chunk_size as int, offset as int),
            tile_size(
                step_end(count as int, chunk_size as int, offset as int) - offset,
                workers as int,
            ),
        ),
        r@.len() <= workers,
{
    let end = if count - offset < chunk_size {
        count
    } else {
        offset + chunk_size
    };
    let span = end - offset;
    let size = if span % workers == 0 {
        span / workers
    } else {
        assert(span / workers < span) by (nonlinear_arith)
            requires
                span % workers != 0,
                workers > 0,
        ;
        span / workers + 1
    };
    assert(size * workers >= span) by (nonlinear_arith)
        requires
            workers > 0,
            size as int == tile_size(span as int, workers as int),
    ;
    assert(span > 0 ==> size > 0) by (nonlinear_arith)
        requires
            size * workers >= span,
            workers > 0,
    ;
    let mut r: Vec<(u64, u64)> = Vec::new();
    let mut pos = offset;
    while pos < end
        invariant
            offset <= pos <= end,
            span == end - offset,
            size * workers >= span,
            span > 0 ==> size > 0,
            pos < end ==> pos - offset == r@.len() * size,
            r@.len() <= workers,
            forall|j: int| 0 <= j < r@.len() ==> 0 < (#[trigger] r@[j]).0 <= size,
            forall|j: int| 0 <= j < r@.len() - 1 ==> (#[trigger] r@[j]).0 == size,
            r@.len() > 0 ==> r@[0].1 == offset,
            forall|j: int| 0 <= j < r@.len() - 1 ==> (#[trigger] r@[j + 1]).1 == r@[j].1 + r@[j].0,
            r@.len() > 0 ==> r@.last().1 + r@.last().0 == pos,
            r@.len() == 0 ==> pos == offset,
            pos < end ==> (r@.len() > 0 ==> r@.last().0 == size),
        decreases end - pos,
    {
        let ghost n = r@.len();
        assert(n < workers) by (nonlinear_arith)
            requires
                pos - offset == n * size,
                pos < end,
                span == end - offset,
                size * workers >= span,
        ;
        let limit = if end - pos < size {
            end - pos
        } else {
            size
        };
        r.push((limit, pos));
        pos = pos + limit;
        assert((n + 1) * size == n * size + size) by (nonlinear_arith);
    }
    r
}

/// The steps of a pass meet end to end: each ends where the next begins and
/// the last ends at `count`, so their tiles cover every row exactly once.
pub proof fn lemma_steps_meet(count: u64, chunk_size: u64, offsets: Seq<u64>)
    requires
        chunk_size > 0,
        forall|i: int| 0 <= i < offsets.len() ==> offsets[i] == i * chunk_size && offsets[i] < count,
        offsets.len() * chunk_size >= count,
    ensures
        count > 0 ==> offsets.len() > 0,
        offsets.len() > 0 ==> offsets[0] == 0,
        forall|i: int|
            0 <= i < offsets.len() - 1 ==> step_end(count as int, chunk_size as int, #[trigger] offsets[i] as int)
                == offsets[i + 1],
        offsets.len() > 0 ==> step_end(count as int, chunk_size as int, offsets.last() as int) == count,
{
    let n = offsets.len() as int;
    let cs = chunk_size as int;
    if count > 0 && n == 0 {
        assert(n * cs == 0) by (nonlinear_arith)
            requires
                n == 0,
        ;
    }
    if n > 0 {
        assert(0 * cs == 0);
    }
    assert forall|i: int| 0 <= i < n - 1 implies step_end(count as int, cs, #[trigger] offsets[i] as int)
        == offsets[i + 1] by {
        assert((i + 1) * cs == i * cs + cs) by (nonlinear_arith);
    }
    if n > 0 {
        let last = offsets[n - 1] as int;
        assert(last == (n - 1) * cs);
        assert(n * cs == (n - 1) * cs + cs) by (nonlinear_arith);
    }
}

} // verus!
