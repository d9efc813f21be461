//! Locating the table file that may hold an n-gram.
//!
//! The files of one order are indexed by their first n-gram, compared as
//! byte strings (the order of `str`). An n-gram can only be in the last file
//! whose first n-gram is not greater than it.
use vstd::prelude::*;

verus! {

/// `a` comes strictly before `b` in lexicographic byte order.
pub open spec fn lex_lt(a: Seq<u8>, b: Seq<u8>) -> bool
    decreases a.len(),
{
    if a.len() == 0 {
        b.len() > 0
    } else if b.len() == 0 {
        false
    } else if a[0] != b[0] {
        a[0] < b[0]
    } else {
        lex_lt(a.drop_first(), b.drop_first())
    }
}

pub open spec fn lex_le(a: Seq<u8>, b: Seq<u8>) -> bool {
    a == b || lex_lt(a, b)
}

/// Whether `a` is not greater than `b`.
pub fn bytes_le(a: &[u8], b: &[u8]) -> (r: bool)
    ensures
        r == lex_le(a@, b@),
{
    let mut i: usize = 0;
    assert(a@.skip(0) =~= a@);
    assert(b@.skip(0) =~= b@);
    while i < a.len() && i < b.len()
        invariant
            i <= a@.len(),
            i <= b@.len(),
            a@.subrange(0, i as int) == b@.subrange(0, i as int),
            lex_lt(a@, b@) == lex_lt(a@.skip(i as int), b@.skip(i as int)),
        decreases a@.len() - i,
    {
        let ghost sa = a@.skip(i as int);
        let ghost sb = b@.skip(i as int);
        assert(sa[0] == a@[i as int] && sb[0] == b@[i as int]);
        if a[i] != b[i] {
            assert(a@[i as int] != b@[i as int]);
            assert(a@ != b@);
            return a[i] < b[i];
        }
        assert(sa.drop_first() =~= a@.skip(i + 1));
        assert(sb.drop_first() =~= b@.skip(i + 1));
        assert(a@.subrange(0, i + 1) =~= a@.subrange(0, i as int).push(a@[i as int]));
        assert(b@.subrange(0, i + 1) =~= b@.subrange(0, i as int).push(b@[i as int]));
        i = i + 1;
    }
    if i == a.len() {
        if i == b.len() {
            assert(a@ =~= a@.subrange(0, i as int));
            assert(b@ =~= b@.subrange(0, i as int));
        } else {
            assert(a@.skip(i as int).len() == 0);
        }
        true
    } else {
        assert(b@.skip(i as int).len() == 0);
        assert(a@.len() != b@.len());
        false
    }
}

/// The last position whose first n-gram is not greater than `target`, or
/// `None` when every file starts after it.
pub fn file_for(firsts: &Vec<Vec<u8>>, target: &[u8]) -> (r: Option<usize>)
    ensures
        match r {
            Some(i) => i < firsts@.len() && lex_le(firsts@[i as int]@, target@) && forall|j: int|
                i < j < firsts@.len() ==> !lex_le(#[trigger] firsts@[j]@, target@),
            None => forall|j: int|
                0 <= j < firsts@.len() ==> !lex_le(#[trigger] firsts@[j]@, target@),
        },
{
    let mut found: Option<usize> = None;
    let mut i: usize = 0;
    while i < firsts.len()
        invariant
            i <= firsts@.len(),
            match found {
                Some(k) => k < i && lex_le(firsts@[k as int]@, target@) && forall|j: int|
                    k < j < i ==> !lex_le(#[trigger] firsts@[j]@, target@),
                None => forall|j: int| 0 <= j < i ==> !lex_le(#[trigger] firsts@[j]@, target@),
            },
        decreases firsts@.len() - i,
    {
        if bytes_le(firsts[i].as_slice(), target) {
            found = Some(i);
        }
        i = i + 1;
    }
    found
}

} // verus!
