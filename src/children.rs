//! Enumeration of the sub-n-grams that may reconstruct an n-gram.
//!
//! An n-gram is a sequence of tokens separated by single spaces. Its left
//! part drops the last token (everything before the last space), its right
//! part drops the first token (everything after the first space).
use vstd::prelude::*;

verus! {

/// Index of the first space in `s`, or -1 when there is none.
pub open spec fn first_space(s: Seq<char>) -> int
    decreases s.len(),
{
    if s.len() == 0 {
        -1
    } else {
        let f = first_space(s.drop_last());
        if f >= 0 {
            f
        } else if s.last() == ' ' {
            s.len() - 1
        } else {
            -1
        }
    }
}

/// Index of the last space in `s`, or -1 when there is none.
pub open spec fn last_space(s: Seq<char>) -> int
    decreases s.len(),
{
    if s.len() == 0 {
        -1
    } else if s.last() == ' ' {
        s.len() - 1
    } else {
        last_space(s.drop_last())
    }
}

/// `s` holds a space, so it has a left and a right part.
pub open spec fn splits(s: Seq<char>) -> bool {
    0 <= first_space(s) && first_space(s) <= last_space(s) && last_space(s) < s.len()
}

/// The n-gram without its last token.
pub open spec fn left(s: Seq<char>) -> Seq<char> {
    s.subrange(0, last_space(s))
}

/// The n-gram without its first token.
pub open spec fn right(s: Seq<char>) -> Seq<char> {
    s.subrange(first_space(s) + 1, s.len() as int)
}

/// The character sequences of a list of strings.
pub open spec fn views(v: Seq<String>) -> Seq<Seq<char>> {
    v.map_values(|x: String| x@)
}

/// Full recursive enumeration: the children of the left part, then those of
/// the right part, then (below the root only) the n-gram itself. A unigram is
/// its own only child.
pub open spec fn full_children(s: Seq<char>, child: bool) -> Seq<Seq<char>>
    decreases s.len(),
{
    if splits(s) {
        let both = full_children(left(s), true) + full_children(right(s), true);
        if child {
            both.push(s)
        } else {
            both
        }
    } else {
        seq![s]
    }
}

/// Direct enumeration: the left and the right part.
pub open spec fn direct_children(s: Seq<char>) -> Seq<Seq<char>> {
    if splits(s) {
        seq![left(s), right(s)]
    } else {
        seq![s]
    }
}

/// Selective descent: a part that is accepted is kept whole, any other part
/// is broken down further; unigrams are leaves.
pub open spec fn frontier(s: Seq<char>, accepted: Seq<Seq<char>>) -> Seq<Seq<char>>
    decreases s.len(),
{
    if splits(s) {
        let r = right(s);
        let l = left(s);
        let from_r = if accepted.contains(r) {
            seq![r]
        } else {
            frontier(r, accepted)
        };
        let from_l = if accepted.contains(l) {
            seq![l]
        } else {
            frontier(l, accepted)
        };
        from_r + from_l
    } else {
        seq![s]
    }
}

/// Selective enumeration: the full enumeration while nothing is accepted,
/// the selective descent otherwise.
pub open spec fn selective_children(s: Seq<char>, accepted: Seq<Seq<char>>) -> Seq<Seq<char>> {
    if accepted.len() == 0 {
        full_children(s, false)
    } else {
        frontier(s, accepted)
    }
}

/// The enumeration that the run is configured with.
#[derive(Clone, Copy, Debug, PartialEq, Eq, Structural)]
pub enum ChildPolicy {
    FullRecursive,
    DirectChildren,
    HighlySelective,
}

/// Children of `g` under `policy`. The selective enumeration only looks at
/// those accepted n-grams that occur among the full children of `g`.
pub open spec fn policy_children(
    policy: ChildPolicy,
    g: Seq<char>,
    accepted: Seq<Seq<char>>,
) -> Seq<Seq<char>> {
    match policy {
        ChildPolicy::FullRecursive => full_children(g, false),
        ChildPolicy::DirectChildren => direct_children(g),
        ChildPolicy::HighlySelective => selective_children(
            g,
            accepted.filter(|a: Seq<char>| full_children(g, false).contains(a)),
        ),
    }
}

/// Every child is at most as long as its n-gram.
proof fn lemma_children_no_longer(s: Seq<char>, child: bool)
    ensures
        forall|i: int|
            0 <= i < full_children(s, child).len() ==> #[trigger] full_children(s, child)[i].len()
                <= s.len(),
    decreases s.len(),
{
    if splits(s) {
        lemma_children_no_longer(left(s), true);
        lemma_children_no_longer(right(s), true);
        let both = full_children(left(s), true) + full_children(right(s), true);
        assert forall|i: int| 0 <= i < both.len() implies #[trigger] both[i].len() < s.len() by {
            if i < full_children(left(s), true).len() {
                assert(both[i] == full_children(left(s), true)[i]);
            } else {
                assert(both[i] == full_children(right(s), true)[i - full_children(left(s), true).len()]);
            }
        }
    }
}

/// Under the full enumeration an n-gram of two or more tokens is never among
/// its own children.
pub proof fn lemma_root_excludes_itself(g: Seq<char>)
    requires
        splits(g),
    ensures
        !full_children(g, false).contains(g),
{
    lemma_children_no_longer(left(g), true);
    lemma_children_no_longer(right(g), true);
    let both = full_children(left(g), true) + full_children(right(g), true);
    assert forall|i: int| 0 <= i < both.len() implies #[trigger] both[i].len() < g.len() by {
        if i < full_children(left(g), true).len() {
            assert(both[i] == full_children(left(g), true)[i]);
        } else {
            assert(both[i] == full_children(right(g), true)[i - full_children(left(g), true).len()]);
        }
    }
}

/// Every element of `a` is an element of `b`.
pub open spec fn within(a: Seq<Seq<char>>, b: Seq<Seq<char>>) -> bool {
    forall|x: Seq<char>| a.contains(x) ==> b.contains(x)
}

proof fn lemma_within_concat(a: Seq<Seq<char>>, b: Seq<Seq<char>>, c: Seq<Seq<char>>)
    requires
        within(a, c),
        within(b, c),
    ensures
        within(a + b, c),
{
    assert forall|x: Seq<char>| (a + b).contains(x) implies c.contains(x) by {
        let i = choose|i: int| 0 <= i < (a + b).len() && (a + b)[i] == x;
        if i < a.len() {
            assert(a[i] == x);
        } else {
            assert(b[i - a.len()] == x);
        }
    }
}

/// Below the root, an n-gram is among its own children, and the root's
/// children are among them too.
proof fn lemma_child_level(s: Seq<char>)
    ensures
        full_children(s, true).contains(s),
        within(full_children(s, false), full_children(s, true)),
{
    if splits(s) {
        let both = full_children(left(s), true) + full_children(right(s), true);
        assert(both.push(s)[both.len() as int] == s);
        assert forall|x: Seq<char>| both.contains(x) implies both.push(s).contains(x) by {
            let i = choose|i: int| 0 <= i < both.len() && both[i] == x;
            assert(both.push(s)[i] == x);
        }
    } else {
        assert(seq![s][0] == s);
    }
}

/// The children of either part are among the children of the whole.
proof fn lemma_parts_within(s: Seq<char>, child: bool)
    requires
        splits(s),
    ensures
        within(full_children(left(s), true), full_children(s, child)),
        within(full_children(right(s), true), full_children(s, child)),
{
    let a = full_children(left(s), true);
    let b = full_children(right(s), true);
    let both = a + b;
    assert forall|x: Seq<char>| a.contains(x) implies full_children(s, child).contains(x) by {
        let i = choose|i: int| 0 <= i < a.len() && a[i] == x;
        assert(both[i] == x);
        if child {
            assert(both.push(s)[i] == x);
        }
    }
    assert forall|x: Seq<char>| b.contains(x) implies full_children(s, child).contains(x) by {
        let i = choose|i: int| 0 <= i < b.len() && b[i] == x;
        assert(both[a.len() + i] == x);
        if child {
            assert(both.push(s)[a.len() + i] == x);
        }
    }
}

/// What the selective descent gives for one part lies among the children of
/// that part, the part included.
proof fn lemma_part_within(part: Seq<char>, accepted: Seq<Seq<char>>)
    ensures
        within(
            if accepted.contains(part) {
                seq![part]
            } else {
                frontier(part, accepted)
            },
            full_children(part, true),
        ),
    decreases part.len(), 1nat,
{
    lemma_child_level(part);
    if accepted.contains(part) {
        assert forall|x: Seq<char>| seq![part].contains(x) implies full_children(
            part,
            true,
        ).contains(x) by {
            assert(seq![part][0] == part);
        }
    } else {
        lemma_frontier_within(part, accepted);
    }
}

/// The selective descent only reaches n-grams of the full enumeration.
proof fn lemma_frontier_within(s: Seq<char>, accepted: Seq<Seq<char>>)
    ensures
        within(frontier(s, accepted), full_children(s, false)),
        within(frontier(s, accepted), full_children(s, true)),
    decreases s.len(), 0nat,
{
    lemma_child_level(s);
    if splits(s) {
        let r = right(s);
        let l = left(s);
        lemma_part_within(r, accepted);
        lemma_part_within(l, accepted);
        lemma_parts_within(s, false);
        let from_r = if accepted.contains(r) {
            seq![r]
        } else {
            frontier(r, accepted)
        };
        let from_l = if accepted.contains(l) {
            seq![l]
        } else {
            frontier(l, accepted)
        };
        assert(within(from_r, full_children(s, false)));
        assert(within(from_l, full_children(s, false)));
        lemma_within_concat(from_r, from_l, full_children(s, false));
    } else {
        assert(frontier(s, accepted) == full_children(s, false));
    }
}

/// Whatever the policy and the accepted set, every child of `g` is among its
/// full children: fetching the series of the full children fetches every
/// series that a reconstruction of `g` can ask for.
pub proof fn lemma_policy_children_within_full(
    policy: ChildPolicy,
    g: Seq<char>,
    accepted: Seq<Seq<char>>,
)
    ensures
        within(policy_children(policy, g, accepted), full_children(g, false)),
{
    let full = full_children(g, false);
    match policy {
        ChildPolicy::FullRecursive => {},
        ChildPolicy::DirectChildren => {
            if splits(g) {
                lemma_parts_within(g, false);
                lemma_child_level(left(g));
                lemma_child_level(right(g));
                assert forall|x: Seq<char>| direct_children(g).contains(x) implies full.contains(
                    x,
                ) by {
                    let i = choose|i: int|
                        0 <= i < direct_children(g).len() && direct_children(g)[i] == x;
                    if i == 0 {
                        assert(x == left(g));
                    } else {
                        assert(x == right(g));
                    }
                }
            }
        },
        ChildPolicy::HighlySelective => {
            let relevant = accepted.filter(|a: Seq<char>| full_children(g, false).contains(a));
            if relevant.len() != 0 {
                lemma_frontier_within(g, relevant);
            }
        },
    }
}

/// Where the first and the last space of `s` are, if it has one.
fn space_bounds(s: &str) -> (r: Option<(usize, usize)>)
    ensures
        match r {
            Some((j, k)) => j == first_space(s@) && k == last_space(s@) && splits(s@),
            None => !splits(s@) && forall|i: int| 0 <= i < s@.len() ==> s@[i] != ' ',
        },
{
    let n = s.unicode_len();
    let mut found = false;
    let mut j: usize = 0;
    let mut k: usize = 0;
    let mut i: usize = 0;
    while i < n
        invariant
            n == s@.len(),
            i <= n,
            found == (first_space(s@.subrange(0, i as int)) >= 0),
            found ==> j == first_space(s@.subrange(0, i as int)),
            found ==> k == last_space(s@.subrange(0, i as int)),
            found ==> j <= k < i,
            !found ==> last_space(s@.subrange(0, i as int)) == -1,
            !found ==> forall|m: int| 0 <= m < i ==> s@[m] != ' ',
        decreases n - i,
    {
        let c = s.get_char(i);
        proof {
            let p = s@.subrange(0, i + 1);
            assert(p.drop_last() =~= s@.subrange(0, i as int));
            assert(p.last() == c);
        }
        if c == ' ' {
            if !found {
                j = i;
            }
            k = i;
            found = true;
        }
        i = i + 1;
    }
    assert(s@.subrange(0, n as int) =~= s@);
    if found {
        Some((j, k))
    } else {
        None
    }
}

/// Children of an n-gram under the full recursive enumeration. The root call
/// (`child == false`) leaves the n-gram itself out. `_accepted` plays no part
/// in this enumeration.
pub fn get_children(ngram: &str, child: bool, _accepted: &Vec<String>) -> (r: Vec<String>)
    ensures
        views(r@) == full_children(ngram@, child),
    decreases ngram@.len(),
{
    match space_bounds(ngram) {
        None => {
            let mut v: Vec<String> = Vec::new();
            v.push(ngram.to_owned());
            assert(views(v@) =~= full_children(ngram@, child));
            v
        },
        Some((j, k)) => {
            let n = ngram.unicode_len();
            let l = ngram.substring_char(0, k);
            let r = ngram.substring_char(j + 1, n);
            let mut a = get_children(l, true, _accepted);
            let mut b = get_children(r, true, _accepted);
            let ghost a0 = a@;
            let ghost b0 = b@;
            a.append(&mut b);
            assert(views(a@) =~= views(a0) + views(b0));
            if child {
                let ghost a1 = a@;
                a.push(ngram.to_owned());
                assert(views(a@) =~= views(a1).push(ngram@));
            }
            a
        },
    }
}

/// Children of an n-gram under the direct enumeration.
pub fn get_direct_children(ngram: &str) -> (r: Vec<String>)
    ensures
        views(r@) == direct_children(ngram@),
{
    let mut v: Vec<String> = Vec::new();
    match space_bounds(ngram) {
        None => {
            v.push(ngram.to_owned());
        },
        Some((j, k)) => {
            let n = ngram.unicode_len();
            v.push(ngram.substring_char(0, k).to_owned());
            v.push(ngram.substring_char(j + 1, n).to_owned());
        },
    }
    assert(views(v@) =~= direct_children(ngram@));
    v
}

/// Whether `t` is one of the strings of `v`.
pub fn holds(v: &Vec<String>, t: &String) -> (r: bool)
    ensures
        r == views(v@).contains(t@),
{
    let mut i: usize = 0;
    while i < v.len()
        invariant
            i <= v@.len(),
            forall|m: int| 0 <= m < i ==> v@[m]@ != t@,
        decreases v@.len() - i,
    {
        if v[i] == *t {
            assert(views(v@)[i as int] == t@);
            return true;
        }
        i = i + 1;
    }
    assert forall|m: int| 0 <= m < views(v@).len() implies views(v@)[m] != t@ by {
        assert(views(v@)[m] == v@[m]@);
    }
    false
}

/// What the selective descent gives for one part of an n-gram.
fn frontier_part(part: &str, accepted: &Vec<String>) -> (r: Vec<String>)
    ensures
        views(r@) == (if views(accepted@).contains(part@) {
            seq![part@]
        } else {
            frontier(part@, views(accepted@))
        }),
    decreases part@.len(), 1nat,
{
    let owned = part.to_owned();
    if holds(accepted, &owned) {
        let mut v: Vec<String> = Vec::new();
        v.push(owned);
        assert(views(v@) =~= seq![part@]);
        v
    } else {
        get_frontier(part, accepted)
    }
}

/// The selective descent below an n-gram.
pub fn get_frontier(ngram: &str, accepted: &Vec<String>) -> (r: Vec<String>)
    ensures
        views(r@) == frontier(ngram@, views(accepted@)),
    decreases ngram@.len(), 0nat,
{
    match space_bounds(ngram) {
        None => {
            let mut v: Vec<String> = Vec::new();
            v.push(ngram.to_owned());
            assert(views(v@) =~= frontier(ngram@, views(accepted@)));
            v
        },
        Some((j, k)) => {
            let n = ngram.unicode_len();
            let l = ngram.substring_char(0, k);
            let r = ngram.substring_char(j + 1, n);
            let mut a = frontier_part(r, accepted);
            let mut b = frontier_part(l, accepted);
            let ghost a0 = a@;
            let ghost b0 = b@;
            a.append(&mut b);
            assert(views(a@) =~= views(a0) + views(b0));
            a
        },
    }
}

/// The accepted n-grams that occur in `children`, in the order of `accepted`.
pub fn accepted_among(children: &Vec<String>, accepted: &Vec<String>) -> (r: Vec<String>)
    ensures
        views(r@) == views(accepted@).filter(|a: Seq<char>| views(children@).contains(a)),
{
    let ghost pred = |a: Seq<char>| views(children@).contains(a);
    let mut r: Vec<String> = Vec::new();
    let mut i: usize = 0;
    while i < accepted.len()
        invariant
            i <= accepted@.len(),
            pred == (|a: Seq<char>| views(children@).contains(a)),
            views(r@) == views(accepted@).subrange(0, i as int).filter(pred),
        decreases accepted@.len() - i,
    {
        let ghost before = r@;
        let ghost p = views(accepted@).subrange(0, i + 1);
        proof {
            assert(p.drop_last() =~= views(accepted@).subrange(0, i as int));
            assert(p.last() == accepted@[i as int]@);
            reveal(Seq::filter);
        }
        let keep = holds(children, &accepted[i]);
        assert(keep == pred(p.last()));
        if keep {
            r.push(accepted[i].clone());
            assert(views(r@) =~= views(before).push(accepted@[i as int]@));
            assert(p.filter(pred) == p.drop_last().filter(pred).push(p.last()));
        } else {
            assert(p.filter(pred) == p.drop_last().filter(pred));
        }
        i = i + 1;
    }
    assert(views(accepted@).subrange(0, i as int) =~= views(accepted@));
    r
}

/// Children of `ngram` under `policy`, given the n-grams accepted so far.
pub fn children_under(policy: ChildPolicy, ngram: &str, accepted: &Vec<String>) -> (r: Vec<String>)
    ensures
        views(r@) == policy_children(policy, ngram@, views(accepted@)),
{
    match policy {
        ChildPolicy::FullRecursive => get_children(ngram, false, accepted),
        ChildPolicy::DirectChildren => get_direct_children(ngram),
        ChildPolicy::HighlySelective => {
            let all = get_children(ngram, false, accepted);
            let relevant = accepted_among(&all, accepted);
            if relevant.len() == 0 {
                all
            } else {
                get_frontier(ngram, &relevant)
            }
        },
    }
}

/// Number of spaces in `s`.
pub open spec fn spaces(s: Seq<char>) -> nat {
    s.filter(|c: char| c == ' ').len()
}

/// Order of an n-gram: its number of tokens, one more than its spaces.
pub fn order_of(ngram: &str) -> (r: usize)
    requires
        ngram@.len() < usize::MAX,
    ensures
        r == spaces(ngram@) + 1,
{
    let n = ngram.unicode_len();
    let mut count: usize = 0;
    let mut i: usize = 0;
    while i < n
        invariant
            n == ngram@.len(),
            i <= n,
            n < usize::MAX,
            count == spaces(ngram@.subrange(0, i as int)),
            count <= i,
        decreases n - i,
    {
        proof {
            let p = ngram@.subrange(0, i + 1);
            assert(p.drop_last() =~= ngram@.subrange(0, i as int));
            reveal(Seq::filter);
        }
        if ngram.get_char(i) == ' ' {
            count = count + 1;
        }
        i = i + 1;
    }
    assert(ngram@.subrange(0, i as int) =~= ngram@);
    count + 1
}

} // verus!
