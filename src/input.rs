//! Decoding of raw corpus lines and stored frequency lists.
//!
//! A raw line is `ngram TAB year,count[,extra...] TAB year,count ...`. Years
//! outside 1800..=2000 are dropped; a later entry for a year replaces an
//! earlier one; an unreported year counts 0.
use vstd::prelude::*;
use crate::program::YEARS;

verus! {

/// First year of a series.
pub const FIRST_YEAR: u64 = 1800;

/// Last year of a series.
pub const LAST_YEAR: u64 = 2000;

/// `s` cut at every `sep`; there is always at least one piece.
pub open spec fn split_on(s: Seq<u8>, sep: u8) -> Seq<Seq<u8>>
    decreases s.len(),
{
    if s.len() == 0 {
        seq![Seq::empty()]
    } else {
        let p = split_on(s.drop_last(), sep);
        if s.last() == sep {
            p.push(Seq::empty())
        } else {
            p.update(p.len() - 1, p.last().push(s.last()))
        }
    }
}

pub proof fn lemma_split_nonempty(s: Seq<u8>, sep: u8)
    ensures
        split_on(s, sep).len() >= 1,
    decreases s.len(),
{
    if s.len() > 0 {
        lemma_split_nonempty(s.drop_last(), sep);
    }
}

pub open spec fn byte_views(v: Seq<Vec<u8>>) -> Seq<Seq<u8>> {
    v.map_values(|x: Vec<u8>| x@)
}

pub open spec fn is_digit(b: u8) -> bool {
    48 <= b <= 57
}

/// Value of a string of decimal digits.
pub open spec fn digits_value(s: Seq<u8>) -> int
    decreases s.len(),
{
    if s.len() == 0 {
        0
    } else {
        10 * digits_value(s.drop_last()) + (s.last() - 48)
    }
}

/// What follows the optional leading `+`.
pub open spec fn unsigned_digits(s: Seq<u8>) -> Seq<u8> {
    if s.len() > 0 && s[0] == 43 {
        s.drop_first()
    } else {
        s
    }
}

/// An unsigned decimal number: an optional `+`, then one or more digits; its
/// value, or `None` when `s` is not of that form or the value exceeds u64.
pub open spec fn unsigned_of(s: Seq<u8>) -> Option<u64> {
    let d = unsigned_digits(s);
    if d.len() > 0 && (forall|i: int| 0 <= i < d.len() ==> is_digit(#[trigger] d[i]))
        && digits_value(d) <= u64::MAX {
        Some(digits_value(d) as u64)
    } else {
        None
    }
}

/// One `year,count` field: `None` when it is malformed, `Some(None)` when its
/// year lies outside the series, else the year's index and its count.
pub open spec fn field_entry(f: Seq<u8>) -> Option<Option<(int, u64)>> {
    let parts = split_on(f, 44);
    match unsigned_of(parts[0]) {
        None => None,
        Some(y) => if y < FIRST_YEAR || y > LAST_YEAR {
            Some(None)
        } else if parts.len() < 2 {
            None
        } else {
            match unsigned_of(parts[1]) {
                None => None,
                Some(v) => Some(Some(((y - FIRST_YEAR) as int, v))),
            }
        },
    }
}

/// The series that a list of fields describes, or `None` if one is malformed.
pub open spec fn series_of_fields(fields: Seq<Seq<u8>>) -> Option<Seq<u64>>
    decreases fields.len(),
{
    if fields.len() == 0 {
        Some(Seq::new(YEARS as nat, |i: int| 0u64))
    } else {
        match series_of_fields(fields.drop_last()) {
            None => None,
            Some(a) => match field_entry(fields.last()) {
                None => None,
                Some(None) => Some(a),
                Some(Some((i, v))) => Some(a.update(i, v)),
            },
        }
    }
}

/// The n-gram and the series of a raw line, or `None` if it is malformed.
pub open spec fn line_record(line: Seq<u8>) -> Option<(Seq<u8>, Seq<u64>)> {
    let fields = split_on(line, 9);
    match series_of_fields(fields.drop_first()) {
        None => None,
        Some(a) => Some((fields[0], a)),
    }
}

/// Cuts `s` at every `sep`.
pub fn split_bytes(s: &[u8], sep: u8) -> (r: Vec<Vec<u8>>)
    ensures
        byte_views(r@) == split_on(s@, sep),
{
    let mut done: Vec<Vec<u8>> = Vec::new();
    let mut cur: Vec<u8> = Vec::new();
    let mut i: usize = 0;
    while i < s.len()
        invariant
            i <= s@.len(),
            byte_views(done@).push(cur@) == split_on(s@.subrange(0, i as int), sep),
        decreases s@.len() - i,
    {
        let ghost p = s@.subrange(0, i + 1);
        proof {
            assert(p.drop_last() =~= s@.subrange(0, i as int));
            lemma_split_nonempty(p.drop_last(), sep);
        }
        let ghost before = byte_views(done@).push(cur@);
        if s[i] == sep {
            let finished = cur;
            done.push(finished);
            cur = Vec::new();
            assert(byte_views(done@).push(cur@) =~= before.push(Seq::empty()));
        } else {
            cur.push(s[i]);
            assert(byte_views(done@).push(cur@) =~= before.update(
                before.len() - 1,
                before.last().push(s@[i as int]),
            ));
        }
        i = i + 1;
    }
    assert(s@.subrange(0, i as int) =~= s@);
    done.push(cur);
    assert(byte_views(done@) =~= split_on(s@, sep));
    done
}

/// Reads an unsigned decimal number as `str::parse::<u64>` does.
pub fn parse_unsigned(s: &Vec<u8>) -> (r: Option<u64>)
    ensures
        r == unsigned_of(s@),
{
    let start: usize = if s.len() > 0 && s[0] == 43 {
        1
    } else {
        0
    };
    let ghost d = unsigned_digits(s@);
    assert(d =~= s@.subrange(start as int, s@.len() as int));
    if start == s.len() {
        return None;
    }
    let mut val: u64 = 0;
    let mut over = false;
    let mut i: usize = start;
    while i < s.len()
        invariant
            start <= i <= s@.len(),
            d == s@.subrange(start as int, s@.len() as int),
            d == unsigned_digits(s@),
            forall|m: int| start <= m < i ==> is_digit(#[trigger] s@[m]),
            !over ==> val == digits_value(s@.subrange(start as int, i as int)),
            over ==> digits_value(s@.subrange(start as int, i as int)) > u64::MAX,
        decreases s@.len() - i,
    {
        let b = s[i];
        if b < 48 || b > 57 {
            assert(!is_digit(d[i - start]));
            return None;
        }
        let digit = (b - 48) as u64;
        let ghost p = s@.subrange(start as int, i + 1);
        assert(p.drop_last() =~= s@.subrange(start as int, i as int));
        assert(p.last() == b);
        if !over {
            if val > (u64::MAX - digit) / 10 {
                assert(10 * val + digit > u64::MAX) by (nonlinear_arith)
                    requires
                        val > (u64::MAX - digit) / 10,
                        digit <= 9,
                ;
                over = true;
            } else {
                assert(10 * val + digit <= u64::MAX) by (nonlinear_arith)
                    requires
                        val <= (u64::MAX - digit) / 10,
                        digit <= 9,
                ;
                val = val * 10 + digit;
            }
        }
        i = i + 1;
    }
    assert(s@.subrange(start as int, i as int) =~= d);
    assert forall|m: int| 0 <= m < d.len() implies is_digit(#[trigger] d[m]) by {
        assert(d[m] == s@[start + m]);
    }
    if over {
        None
    } else {
        Some(val)
    }
}

/// Reads one `year,count` field; see `field_entry`.
pub fn field_value(f: &Vec<u8>) -> (r: Option<Option<(usize, u64)>>)
    ensures
        match r {
            None => field_entry(f@) is None,
            Some(None) => field_entry(f@) == Some(None::<(int, u64)>),
            Some(Some((i, v))) => field_entry(f@) == Some(Some((i as int, v))) && i < YEARS,
        },
{
    let parts = split_bytes(f.as_slice(), 44);
    proof {
        lemma_split_nonempty(f@, 44);
    }
    assert(byte_views(parts@)[0] == parts@[0]@);
    match parse_unsigned(&parts[0]) {
        None => None,
        Some(y) => {
            if y < FIRST_YEAR || y > LAST_YEAR {
                Some(None)
            } else if parts.len() < 2 {
                None
            } else {
                assert(byte_views(parts@)[1] == parts@[1]@);
                match parse_unsigned(&parts[1]) {
                    None => None,
                    Some(v) => Some(Some(((y - FIRST_YEAR) as usize, v))),
                }
            }
        },
    }
}

/// Decodes one raw line into its n-gram and its series; `None` when a field
/// is malformed.
pub fn process_line(line: &[u8]) -> (r: Option<(Vec<u8>, Vec<u64>)>)
    ensures
        match r {
            None => line_record(line@) is None,
            Some((g, a)) => line_record(line@) == Some((g@, a@)),
        },
{
    let mut fields = split_bytes(line, 9);
    proof {
        lemma_split_nonempty(line@, 9);
    }
    let ghost fv = byte_views(fields@);
    let mut arr: Vec<u64> = Vec::new();
    let mut k: usize = 0;
    while k < YEARS
        invariant
            k <= YEARS,
            arr@ =~= Seq::new(k as nat, |i: int| 0u64),
        decreases YEARS - k,
    {
        arr.push(0);
        k = k + 1;
    }
    let mut i: usize = 1;
    while i < fields.len()
        invariant
            1 <= i <= fields@.len(),
            fv == byte_views(fields@),
            fv == split_on(line@, 9),
            arr@.len() == YEARS,
            series_of_fields(fv.drop_first().subrange(0, i - 1)) == Some(arr@),
        decreases fields@.len() - i,
    {
        let ghost p = fv.drop_first().subrange(0, i as int);
        assert(p.drop_last() =~= fv.drop_first().subrange(0, i - 1));
        assert(p.last() == fields@[i as int]@);
        match field_value(&fields[i]) {
            None => {
                proof {
                    assert(series_of_fields(p) is None);
                    lemma_none_stays(fv.drop_first(), i as int);
                    assert(fv == split_on(line@, 9));
                }
                return None;
            },
            Some(None) => {},
            Some(Some((idx, v))) => {
                arr.set(idx, v);
            },
        }
        i = i + 1;
    }
    assert(fv.drop_first().subrange(0, i - 1) =~= fv.drop_first());
    let g = fields.remove(0);
    Some((g, arr))
}

/// Once a field is malformed, the whole line is.
proof fn lemma_none_stays(fields: Seq<Seq<u8>>, n: int)
    requires
        1 <= n <= fields.len(),
        series_of_fields(fields.subrange(0, n)) is None,
    ensures
        series_of_fields(fields) is None,
    decreases fields.len() - n,
{
    if n < fields.len() {
        let p = fields.subrange(0, n + 1);
        assert(p.drop_last() =~= fields.subrange(0, n));
        lemma_none_stays(fields, n + 1);
    } else {
        assert(fields.subrange(0, n) =~= fields);
    }
}

/// Decodes a stored frequency list: an entry that is not an integer counts 0;
/// `None` unless the list has one entry per year.
pub fn decode_frequency(entries: &Vec<Option<u64>>) -> (r: Option<Vec<u64>>)
    ensures
        match r {
            Some(v) => entries@.len() == YEARS && v@ == entries@.map_values(
                |e: Option<u64>| match e {
                    Some(x) => x,
                    None => 0,
                },
            ),
            None => entries@.len() != YEARS,
        },
{
    if entries.len() != YEARS {
        return None;
    }
    let mut v: Vec<u64> = Vec::new();
    let mut i: usize = 0;
    while i < entries.len()
        invariant
            i <= entries@.len(),
            v@ =~= entries@.subrange(0, i as int).map_values(
                |e: Option<u64>| match e {
                    Some(x) => x,
                    None => 0,
                },
            ),
        decreases entries@.len() - i,
    {
        let x = match entries[i] {
            Some(x) => x,
            None => 0,
        };
        v.push(x);
        i = i + 1;
    }
    assert(entries@.subrange(0, i as int) =~= entries@);
    Some(v)
}

} // verus!
