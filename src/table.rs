//! Series by n-gram, and the inputs of one reconstruction drawn from them.
//!
//! The series are held in a `hashbrown` map; what it holds is named by
//! `table_contents`, and the three wrappers below state over that name what
//! the map's `new`, `insert` and `get` do.
use vstd::prelude::*;
use crate::children::{children_under, policy_children, views, ChildPolicy};
use crate::program::{regressor_views, usable_candidates, usable_regressors, Regressor, YEARS};

verus! {

/// Frequency series keyed by n-gram.
#[verifier::external_body]
pub struct SeriesTable {
    map: hashbrown::HashMap<String, Vec<u64>>,
}

/// What a table holds: the series of each n-gram it knows.
pub uninterp spec fn table_contents(t: SeriesTable) -> Map<Seq<char>, Seq<u64>>;

/// The contents of an empty table.
pub open spec fn no_series() -> Map<Seq<char>, Seq<u64>> {
    Map::empty()
}

/// Relies on hashbrown's `HashMap::new`: the map starts empty.
#[verifier::external_body]
fn table_new() -> (r: SeriesTable)
    ensures
        table_contents(r) == no_series(),
{
    SeriesTable { map: hashbrown::HashMap::new() }
}

/// Relies on hashbrown's `HashMap::insert`: the key now maps to the value,
/// replacing any earlier one; other keys keep theirs.
#[verifier::external_body]
fn table_insert(t: &mut SeriesTable, k: String, v: Vec<u64>)
    ensures
        table_contents(*final(t)) == table_contents(*old(t)).insert(k@, v@),
{
    t.map.insert(k, v);
}

/// Relies on hashbrown's `HashMap::get`: the value of the key, if present.
#[verifier::external_body]
fn table_get(t: &SeriesTable, k: &String) -> (r: Option<Vec<u64>>)
    ensures
        match r {
            Some(v) => table_contents(*t).contains_key(k@) && v@ == table_contents(*t)[k@],
            None => !table_contents(*t).contains_key(k@),
        },
{
    t.map.get(k).cloned()
}

/// The series that is zero in every year.
pub open spec fn zero_series() -> Seq<u64> {
    Seq::new(YEARS as nat, |i: int| 0u64)
}

/// The map that a list of entries builds, a later entry replacing an earlier
/// one with the same n-gram.
pub open spec fn map_of(entries: Seq<(Seq<char>, Seq<u64>)>) -> Map<Seq<char>, Seq<u64>>
    decreases entries.len(),
{
    if entries.len() == 0 {
        Map::empty()
    } else {
        map_of(entries.drop_last()).insert(entries.last().0, entries.last().1)
    }
}

pub open spec fn entry_views(v: Seq<(String, Vec<u64>)>) -> Seq<(Seq<char>, Seq<u64>)> {
    v.map_values(|e: (String, Vec<u64>)| (e.0@, e.1@))
}

/// The series of `g` in `m`; an n-gram that `m` does not know counts zero.
pub open spec fn series_in(m: Map<Seq<char>, Seq<u64>>, g: Seq<char>) -> Seq<u64> {
    if m.contains_key(g) {
        m[g]
    } else {
        zero_series()
    }
}

/// Each child paired with its series in `m`.
pub open spec fn with_series(children: Seq<Seq<char>>, m: Map<Seq<char>, Seq<u64>>) -> Seq<
    (Seq<char>, Seq<u64>),
> {
    children.map_values(|c: Seq<char>| (c, series_in(m, c)))
}

/// `m` with every n-gram of `zeroed` mapped to the zero series.
pub open spec fn zeroed_in(m: Map<Seq<char>, Seq<u64>>, zeroed: Seq<Seq<char>>) -> Map<
    Seq<char>,
    Seq<u64>,
>
    decreases zeroed.len(),
{
    if zeroed.len() == 0 {
        m
    } else {
        zeroed_in(m, zeroed.drop_last()).insert(zeroed.last(), zero_series())
    }
}

/// A table of the given entries, a later entry replacing an earlier one.
pub fn table_from(entries: Vec<(String, Vec<u64>)>) -> (t: SeriesTable)
    ensures
        table_contents(t) == map_of(entry_views(entries@)),
{
    let ghost all = entry_views(entries@);
    let n = entries.len();
    let mut t = table_new();
    let mut rest = entries;
    let mut i: usize = 0;
    while i < n
        invariant
            i <= n,
            n == all.len(),
            rest@.len() == n - i,
            entry_views(rest@) == all.subrange(i as int, n as int),
            table_contents(t) == map_of(all.subrange(0, i as int)),
        decreases n - i,
    {
        let ghost before = rest@;
        assert(entry_views(before)[0] == all[i as int]);
        let e = rest.remove(0);
        assert forall|m: int| 0 <= m < rest@.len() implies entry_views(rest@)[m] == all[i + 1 + m] by {
            assert(rest@[m] == before[m + 1]);
            assert(entry_views(before)[m + 1] == all[i + 1 + m]);
        }
        assert(entry_views(rest@) =~= all.subrange(i + 1, n as int));
        let ghost p = all.subrange(0, i + 1);
        assert(p.drop_last() =~= all.subrange(0, i as int));
        assert(p.last() == (e.0@, e.1@));
        table_insert(&mut t, e.0, e.1);
        i = i + 1;
    }
    assert(all.subrange(0, n as int) =~= all);
    t
}

/// The series of `g`, if the table knows it.
pub fn lookup(t: &SeriesTable, g: &String) -> (r: Option<Vec<u64>>)
    ensures
        match r {
            Some(v) => table_contents(*t).contains_key(g@) && v@ == table_contents(*t)[g@],
            None => !table_contents(*t).contains_key(g@),
        },
{
    table_get(t, g)
}

fn zeros() -> (r: Vec<u64>)
    ensures
        r@ == zero_series(),
{
    let mut v: Vec<u64> = Vec::new();
    let mut i: usize = 0;
    while i < YEARS
        invariant
            i <= YEARS,
            v@ =~= Seq::new(i as nat, |m: int| 0u64),
        decreases YEARS - i,
    {
        v.push(0);
        i = i + 1;
    }
    v
}

/// Maps every n-gram of `zeroed` to the zero series, so that none of them
/// can serve as a regressor.
pub fn zero_out(t: &mut SeriesTable, zeroed: &Vec<String>)
    ensures
        table_contents(*final(t)) == zeroed_in(table_contents(*old(t)), views(zeroed@)),
{
    let ghost start = table_contents(*t);
    let mut i: usize = 0;
    while i < zeroed.len()
        invariant
            i <= zeroed@.len(),
            table_contents(*t) == zeroed_in(start, views(zeroed@).subrange(0, i as int)),
        decreases zeroed@.len() - i,
    {
        let ghost p = views(zeroed@).subrange(0, i + 1);
        assert(p.drop_last() =~= views(zeroed@).subrange(0, i as int));
        assert(p.last() == zeroed@[i as int]@);
        let z = zeros();
        table_insert(t, zeroed[i].clone(), z);
        i = i + 1;
    }
    assert(views(zeroed@).subrange(0, i as int) =~= views(zeroed@));
}

/// Each child with its series; a child the table does not know counts zero.
pub fn candidates(t: &SeriesTable, children: Vec<String>) -> (r: Vec<Regressor>)
    ensures
        regressor_views(r@) == with_series(views(children@), table_contents(*t)),
{
    let ghost want = with_series(views(children@), table_contents(*t));
    let mut r: Vec<Regressor> = Vec::new();
    let mut i: usize = 0;
    while i < children.len()
        invariant
            i <= children@.len(),
            want == with_series(views(children@), table_contents(*t)),
            r@.len() == i,
            forall|m: int| 0 <= m < i ==> (#[trigger] r@[m])@ == want[m],
        decreases children@.len() - i,
    {
        let c = children[i].clone();
        let freq = match lookup(t, &c) {
            Some(v) => v,
            None => zeros(),
        };
        r.push(Regressor { ngram: c, freq });
        i = i + 1;
    }
    assert(regressor_views(r@) =~= want);
    r
}

/// The regressors of one target: its children under `policy`, each with its
/// series from the table, kept as the reconstruction keeps them; `None` when
/// the target is to stay unsolved.
pub fn regressors_for(
    policy: ChildPolicy,
    ngram: &str,
    t: &SeriesTable,
    accepted: &Vec<String>,
) -> (r: Option<Vec<Regressor>>)
    ensures
        match r {
            Some(v) => usable_regressors(
                with_series(
                    policy_children(policy, ngram@, views(accepted@)),
                    table_contents(*t),
                ),
            ) == Some(regressor_views(v@)),
            None => usable_regressors(
                with_series(
                    policy_children(policy, ngram@, views(accepted@)),
                    table_contents(*t),
                ),
            ) is None,
        },
{
    let children = children_under(policy, ngram, accepted);
    let c = candidates(t, children);
    usable_candidates(c)
}

} // verus!
