//! The accept/reject bookkeeping of a step: which solutions go to which
//! output table, and how the accepted set grows.
use vstd::prelude::*;
use crate::children::views;

verus! {

/// The n-grams whose flag is set, in order.
pub open spec fn selected(ngrams: Seq<Seq<char>>, keep: Seq<bool>) -> Seq<Seq<char>>
    decreases ngrams.len(),
{
    if ngrams.len() == 0 || keep.len() == 0 {
        Seq::empty()
    } else {
        let rest = selected(ngrams.drop_last(), keep.drop_last());
        if keep.last() {
            rest.push(ngrams.last())
        } else {
            rest
        }
    }
}

/// The indices whose flag is set, in increasing order.
pub open spec fn picked(flags: Seq<bool>) -> Seq<usize>
    decreases flags.len(),
{
    if flags.len() == 0 {
        Seq::empty()
    } else {
        let rest = picked(flags.drop_last());
        if flags.last() {
            rest.push((flags.len() - 1) as usize)
        } else {
            rest
        }
    }
}

/// The accepted set after a sequence of steps, each given by its n-grams and
/// their within-bound flags.
pub open spec fn after_steps(
    accepted: Seq<Seq<char>>,
    steps: Seq<(Seq<Seq<char>>, Seq<bool>)>,
) -> Seq<Seq<char>>
    decreases steps.len(),
{
    if steps.len() == 0 {
        accepted
    } else {
        after_steps(accepted, steps.drop_last()) + selected(steps.last().0, steps.last().1)
    }
}

/// Adds to `accepted` the n-grams of a step whose error is within the bound,
/// in the order of the step.
pub fn record_accepted(accepted: &mut Vec<String>, ngrams: &Vec<String>, within_bound: &Vec<bool>)
    requires
        ngrams@.len() == within_bound@.len(),
    ensures
        views(final(accepted)@) == views(old(accepted)@) + selected(views(ngrams@), within_bound@),
{
    let ghost start = views(accepted@);
    let mut i: usize = 0;
    while i < ngrams.len()
        invariant
            i <= ngrams@.len(),
            ngrams@.len() == within_bound@.len(),
            views(accepted@) == start + selected(
                views(ngrams@).subrange(0, i as int),
                within_bound@.subrange(0, i as int),
            ),
        decreases ngrams@.len() - i,
    {
        let ghost before = accepted@;
        proof {
            let a = views(ngrams@).subrange(0, i + 1);
            let k = within_bound@.subrange(0, i + 1);
            assert(a.drop_last() =~= views(ngrams@).subrange(0, i as int));
            assert(k.drop_last() =~= within_bound@.subrange(0, i as int));
            assert(a.last() == ngrams@[i as int]@);
        }
        if within_bound[i] {
            accepted.push(ngrams[i].clone());
            assert(views(accepted@) =~= views(before).push(ngrams@[i as int]@));
        }
        i = i + 1;
    }
    assert(views(ngrams@).subrange(0, i as int) =~= views(ngrams@));
    assert(within_bound@.subrange(0, i as int) =~= within_bound@);
}

/// Indices of the set flags.
fn pick(flags: &Vec<bool>) -> (r: Vec<usize>)
    ensures
        r@ == picked(flags@),
{
    let mut r: Vec<usize> = Vec::new();
    let mut i: usize = 0;
    while i < flags.len()
        invariant
            i <= flags@.len(),
            r@ == picked(flags@.subrange(0, i as int)),
        decreases flags@.len() - i,
    {
        proof {
            let p = flags@.subrange(0, i + 1);
            assert(p.drop_last() =~= flags@.subrange(0, i as int));
        }
        if flags[i] {
            r.push(i);
        }
        i = i + 1;
    }
    assert(flags@.subrange(0, i as int) =~= flags@);
    r
}

/// Rows of a step that go to the compressed table: those within the bound,
/// or all of them when every solution is to be written.
pub fn compressed_rows(within_bound: &Vec<bool>, output_all: bool) -> (r: Vec<usize>)
    ensures
        r@ == picked(within_bound@.map_values(|b: bool| output_all || b)),
{
    let mut flags: Vec<bool> = Vec::new();
    let mut i: usize = 0;
    while i < within_bound.len()
        invariant
            i <= within_bound@.len(),
            flags@ == within_bound@.subrange(0, i as int).map_values(|b: bool| output_all || b),
        decreases within_bound@.len() - i,
    {
        flags.push(output_all || within_bound[i]);
        i = i + 1;
        assert(flags@ =~= within_bound@.subrange(0, i as int).map_values(|b: bool| output_all || b));
    }
    assert(within_bound@.subrange(0, i as int) =~= within_bound@);
    pick(&flags)
}

/// Rows of a step that go to the uncompressed table: those beyond the bound.
pub fn uncompressed_rows(within_bound: &Vec<bool>) -> (r: Vec<usize>)
    ensures
        r@ == picked(within_bound@.map_values(|b: bool| !b)),
{
    let mut flags: Vec<bool> = Vec::new();
    let mut i: usize = 0;
    while i < within_bound.len()
        invariant
            i <= within_bound@.len(),
            flags@ == within_bound@.subrange(0, i as int).map_values(|b: bool| !b),
        decreases within_bound@.len() - i,
    {
        flags.push(!within_bound[i]);
        i = i + 1;
        assert(flags@ =~= within_bound@.subrange(0, i as int).map_values(|b: bool| !b));
    }
    assert(within_bound@.subrange(0, i as int) =~= within_bound@);
    pick(&flags)
}

/// The accepted set never loses an n-gram: whatever was accepted before a
/// sequence of steps (the rest of a pass, or whole passes) is still accepted
/// after it.
pub proof fn lemma_accepted_only_grows(
    accepted: Seq<Seq<char>>,
    steps: Seq<(Seq<Seq<char>>, Seq<bool>)>,
    x: Seq<char>,
)
    requires
        accepted.contains(x),
    ensures
        after_steps(accepted, steps).contains(x),
    decreases steps.len(),
{
    if steps.len() > 0 {
        lemma_accepted_only_grows(accepted, steps.drop_last(), x);
        let before = after_steps(accepted, steps.drop_last());
        let added = selected(steps.last().0, steps.last().1);
        let i = choose|i: int| 0 <= i < before.len() && before[i] == x;
        assert((before + added)[i] == x);
    }
}

} // verus!
