//! Prefix search over a sorted store: a bisection to the lower bound of the
//! probe, then a scan of a bounded window that collects the run of records
//! whose headword starts with the probe.

use crate::database::{records, DictDB, Record};
use crate::index::{first_index, lemma_first_index, lemma_first_index_is};
use crate::order::{
    at_most, lemma_at_most_then_precedes, lemma_at_most_transitive, lemma_precedes_total,
    lemma_prefix_at_most, lemma_prefixed_words_come_first, precedes,
};
use crate::text::{comes_before, starts_with};
use vstd::prelude::*;

verus! {

/// How many records a search looks at, from the lower bound on.
pub const PREFIX_NUMBER: usize = 200;

/// The records stand in the order of their headwords; equal headwords may
/// follow one another.
pub open spec fn sorted(s: Seq<Record>) -> bool {
    forall|i: int, j: int|
        #![trigger s[i], s[j]]
        0 <= i < j < s.len() ==> at_most(s[i].headword, s[j].headword)
}

/// Whether the store is sorted by headword, which is what a search needs.
pub fn is_sorted(data: &Vec<DictDB>) -> (b: bool)
    ensures
        b == sorted(records(data@)),
{
    let ghost s = records(data@);
    let mut i: usize = 1;
    while i < data.len()
        invariant
            1 <= i,
            s == records(data@),
            forall|a: int, b: int|
                #![trigger s[a], s[b]]
                0 <= a < b < i && b < s.len() ==> at_most(s[a].headword, s[b].headword),
        decreases data.len() - i,
    {
        if comes_before(data[i].word.as_str(), data[i - 1].word.as_str()) {
            assert(!at_most(s[i - 1].headword, s[i as int].headword));
            return false;
        }
        proof {
            assert forall|a: int, b: int|
                #![trigger s[a], s[b]]
                0 <= a < b < i + 1 && b < s.len() implies at_most(s[a].headword, s[b].headword) by {
                if b == i && a < i - 1 {
                    lemma_at_most_transitive(s[a].headword, s[i - 1].headword, s[i as int].headword);
                }
            }
        }
        i = i + 1;
    }
    true
}

/// The lower bound of `p` in `s`: the first index whose headword does not come
/// before `p`, and `s.len()` if every headword does.
pub open spec fn lower_bound(s: Seq<Record>, p: Seq<char>) -> int {
    first_index(0, s.len() as int, |k: int| at_most(p, s[k].headword))
}

/// In a sorted store the lower bound parts the headwords that come before `p`
/// from those that do not.
pub proof fn lemma_lower_bound_parts(s: Seq<Record>, p: Seq<char>)
    requires
        sorted(s),
    ensures
        0 <= lower_bound(s, p) <= s.len(),
        forall|k: int| 0 <= k < lower_bound(s, p) ==> precedes(#[trigger] s[k].headword, p),
        forall|k: int| lower_bound(s, p) <= k < s.len() ==> at_most(p, #[trigger] s[k].headword),
{
    let hit = |k: int| at_most(p, s[k].headword);
    let lb = lower_bound(s, p);
    lemma_first_index(0, s.len() as int, hit);
    assert forall|k: int| 0 <= k < lb implies precedes(#[trigger] s[k].headword, p) by {
        assert(!hit(k));
    }
    assert forall|k: int| lb <= k < s.len() implies at_most(p, #[trigger] s[k].headword) by {
        assert(hit(lb));
        if lb < k {
            lemma_at_most_transitive(p, s[lb].headword, s[k].headword);
        }
    }
}

/// The record on which the halving of the range of `size` records from
/// `base` on ends: each step keeps the upper half where the headword in the
/// middle comes before `p`, and the lower half otherwise, until one record is
/// left.
pub open spec fn halved(s: Seq<Record>, p: Seq<char>, base: int, size: int) -> int
    decreases size,
{
    if size <= 1 {
        base
    } else {
        let half = size / 2;
        let mid = base + half;
        halved(
            s,
            p,
            if precedes(s[mid].headword, p) {
                mid
            } else {
                base
            },
            size - half,
        )
    }
}

/// The index at which a bisection of `s` for `p` ends, whatever the order of
/// `s`: past the record that the halving ends on where its headword comes
/// before `p`, at that record otherwise, and 0 in an empty store.
pub open spec fn bisection(s: Seq<Record>, p: Seq<char>) -> int {
    if s.len() == 0 {
        0
    } else {
        let last = halved(s, p, 0, s.len() as int);
        if precedes(s[last].headword, p) {
            last + 1
        } else {
            last
        }
    }
}

/// In a sorted store, halving a range that the lower bound lies in ends on
/// the record just before the lower bound, or on the first of the range where
/// there is none.
proof fn lemma_halved_in_sorted(s: Seq<Record>, p: Seq<char>, base: int, size: int)
    requires
        sorted(s),
        1 <= size,
        0 <= base,
        base + size <= s.len(),
        base == 0 || precedes(s[base].headword, p),
        forall|j: int| base + size <= j < s.len() ==> at_most(p, #[trigger] s[j].headword),
    ensures
        base <= halved(s, p, base, size) < base + size,
        halved(s, p, base, size) == 0 || precedes(s[halved(s, p, base, size)].headword, p),
        forall|j: int|
            halved(s, p, base, size) < j < s.len() ==> at_most(p, #[trigger] s[j].headword),
    decreases size,
{
    if size > 1 {
        let half = size / 2;
        let mid = base + half;
        if precedes(s[mid].headword, p) {
            lemma_halved_in_sorted(s, p, mid, size - half);
        } else {
            assert forall|j: int| base + size - half <= j < s.len() implies at_most(
                p,
                #[trigger] s[j].headword,
            ) by {
                if mid < j {
                    lemma_at_most_transitive(p, s[mid].headword, s[j].headword);
                }
            }
            lemma_halved_in_sorted(s, p, base, size - half);
        }
    }
}

/// In a sorted store a bisection ends at the lower bound.
pub proof fn lemma_bisection_is_lower_bound(s: Seq<Record>, p: Seq<char>)
    requires
        sorted(s),
    ensures
        bisection(s, p) == lower_bound(s, p),
{
    let hit = |k: int| at_most(p, s[k].headword);
    if s.len() == 0 {
        lemma_first_index_is(0, 0, hit, 0);
    } else {
        let last = halved(s, p, 0, s.len() as int);
        let at = bisection(s, p);
        lemma_halved_in_sorted(s, p, 0, s.len() as int);
        assert forall|k: int| 0 <= k < at implies !#[trigger] hit(k) by {
            if k < last {
                lemma_at_most_then_precedes(s[k].headword, s[last].headword, p);
            }
        }
        lemma_first_index_is(0, s.len() as int, hit, at);
    }
}

/// The index that a bisection hands back, found or not.
pub open spec fn position(r: Result<usize, usize>) -> int {
    match r {
        Ok(i) => i as int,
        Err(i) => i as int,
    }
}

/// The record at `start` has the headword `p`.
pub open spec fn exact_at(s: Seq<Record>, p: Seq<char>, start: int) -> bool {
    0 <= start < s.len() && s[start].headword == p
}

/// Bisects `data` for the headword of `x`.
///
/// The active range is halved until one record is left; the upper half is kept
/// when the headword in the middle comes before the probe, so of several equal
/// headwords the first is reached. The result is `Ok` with the index where the
/// headword there equals the probe's, and `Err` with it otherwise. In a sorted
/// store the index is the lower bound of the probe, and so under `Err` the
/// place where the probe would be inserted.
pub fn my_binary_search_by(data: &Vec<DictDB>, x: &DictDB) -> (r: Result<usize, usize>)
    ensures
        position(r) == bisection(records(data@), x.word@),
        0 <= position(r) <= data.len(),
        r is Ok <==> exact_at(records(data@), x.word@, position(r)),
        sorted(records(data@)) ==> position(r) == lower_bound(records(data@), x.word@),
{
    let ghost s = records(data@);
    let ghost p = x.word@;
    let mut size = data.len();
    if size == 0 {
        proof {
            lemma_bisection_is_lower_bound(s, p);
        }
        return Err(0);
    }
    let mut base: usize = 0;
    while size > 1
        invariant
            1 <= size,
            base + size <= data.len(),
            s == records(data@),
            p == x.word@,
            halved(s, p, base as int, size as int) == halved(s, p, 0, s.len() as int),
        decreases size,
    {
        let half = size / 2;
        let mid = base + half;
        if comes_before(data[mid].word.as_str(), x.word.as_str()) {
            base = mid;
        }
        size = size - half;
    }
    let at = if comes_before(data[base].word.as_str(), x.word.as_str()) {
        base + 1
    } else {
        base
    };
    proof {
        if sorted(s) {
            lemma_bisection_is_lower_bound(s, p);
        }
    }
    if at < data.len() && data[at].word == x.word {
        Ok(at)
    } else {
        Err(at)
    }
}

/// Where the window that starts at `start` ends: `PREFIX_NUMBER` records on,
/// or at the end of the store if that comes first.
pub open spec fn window_end(s: Seq<Record>, start: int) -> int {
    if s.len() - start > PREFIX_NUMBER {
        start + PREFIX_NUMBER
    } else {
        s.len() as int
    }
}

/// The first index in the window from `start` whose headword starts with `p`;
/// the window's end if there is none.
pub open spec fn run_start(s: Seq<Record>, p: Seq<char>, start: int) -> int {
    first_index(start, window_end(s, start), |k: int| p.is_prefix_of(s[k].headword))
}

/// The first index after `run_start` whose headword does not start with `p`;
/// the window's end if there is none.
pub open spec fn run_end(s: Seq<Record>, p: Seq<char>, start: int) -> int {
    first_index(
        run_start(s, p, start),
        window_end(s, start),
        |k: int| !p.is_prefix_of(s[k].headword),
    )
}

/// What a scan from `start` collects: the first unbroken run, within the
/// window, of records whose headword starts with `p`, in store order.
pub open spec fn matches_from(s: Seq<Record>, p: Seq<char>, start: int) -> Seq<Record> {
    s.subrange(run_start(s, p, start), run_end(s, p, start))
}

/// Scans at most `PREFIX_NUMBER` records from `start` on and collects those
/// whose headword starts with `prefix`. Records ahead of the first match are
/// passed over; the scan stops at the first record after a match that does not
/// match. From the end of the store on there is nothing to collect.
pub fn collect_prefixed(data: &Vec<DictDB>, start: usize, prefix: &str) -> (found: Vec<DictDB>)
    ensures
        records(found@) == matches_from(records(data@), prefix@, start as int),
{
    let ghost s = records(data@);
    let ghost p = prefix@;
    let ghost is_match = |k: int| p.is_prefix_of(s[k].headword);
    let ghost is_miss = |k: int| !p.is_prefix_of(s[k].headword);
    let size = data.len();
    if start >= size {
        let found: Vec<DictDB> = Vec::new();
        assert(records(found@) =~= matches_from(s, p, start as int));
        return found;
    }
    let end = if size - start > PREFIX_NUMBER {
        start + PREFIX_NUMBER
    } else {
        size
    };
    let mut found: Vec<DictDB> = Vec::new();
    let mut matched = false;
    let mut stop = false;
    let mut i = start;
    let ghost mut first: int = end as int;
    while i < end && !stop
        invariant
            start <= i <= end <= data.len(),
            s == records(data@),
            p == prefix@,
            !matched ==> first == end && found@.len() == 0 && !stop,
            !matched ==> forall|k: int| start <= k < i ==> !p.is_prefix_of(#[trigger] s[k].headword),
            matched ==> start <= first < i,
            matched ==> forall|k: int|
                start <= k < first ==> !p.is_prefix_of(#[trigger] s[k].headword),
            matched ==> forall|k: int| first <= k < i ==> p.is_prefix_of(#[trigger] s[k].headword),
            matched ==> records(found@) == s.subrange(first, i as int),
            stop ==> i < end && !p.is_prefix_of(s[i as int].headword),
        decreases end - i + (if stop { 0int } else { 1int }),
    {
        if starts_with(data[i].word.as_str(), prefix) {
            proof {
                if !matched {
                    first = i as int;
                }
            }
            matched = true;
            let ghost before = found@;
            found.push(data[i].clone());
            assert(records(found@) == s.subrange(first, i + 1)) by {
                assert(records(found@) =~= records(before).push(s[i as int]));
                assert(s.subrange(first, i + 1) =~= s.subrange(first, i as int).push(s[i as int]));
            }
            i = i + 1;
        } else if matched {
            stop = true;
        } else {
            i = i + 1;
        }
    }
    proof {
        let last: int = i as int;
        if matched {
            assert forall|k: int| start <= k < first implies !#[trigger] is_match(k) by {}
            lemma_first_index_is(start as int, end as int, is_match, first);
            assert forall|k: int| first <= k < last implies !#[trigger] is_miss(k) by {}
            lemma_first_index_is(first, end as int, is_miss, last);
        } else {
            assert forall|k: int| start <= k < end implies !#[trigger] is_match(k) by {}
            lemma_first_index_is(start as int, end as int, is_match, end as int);
            assert(records(found@) =~= s.subrange(end as int, end as int));
        }
    }
    found
}

/// What a search hands back, as the contracts see it: whether a record with
/// the probe's headword was found, and the records collected.
pub open spec fn outcome(r: Result<Vec<DictDB>, Vec<DictDB>>) -> (bool, Seq<Record>) {
    match r {
        Ok(found) => (true, records(found@)),
        Err(found) => (false, records(found@)),
    }
}

/// The outcome of a search for `p` that starts at `start`: exact where the
/// headword at `start` is `p`, with the records that a scan from `start`
/// collects.
pub open spec fn found_at(s: Seq<Record>, p: Seq<char>, start: int) -> (bool, Seq<Record>) {
    (exact_at(s, p, start), matches_from(s, p, start))
}

/// The outcome of a search for `p` in any store: it starts where the
/// bisection ends.
pub open spec fn searched(s: Seq<Record>, p: Seq<char>) -> (bool, Seq<Record>) {
    found_at(s, p, bisection(s, p))
}

/// The outcome of a search for `p` in a sorted store: it starts at the lower
/// bound of `p`.
pub open spec fn lookup(s: Seq<Record>, p: Seq<char>) -> (bool, Seq<Record>) {
    found_at(s, p, lower_bound(s, p))
}

/// Searches `data` for the records whose headword starts with that of `x`.
///
/// The result is `Ok` where the record that the bisection ends at has exactly
/// the probe's headword and `Err` where it has not; either way it carries the
/// records found, which may be none. At most `PREFIX_NUMBER` records are
/// looked at, so more matches than that are cut off. The store is expected to
/// be sorted: then the search starts at the lower bound of the probe, `Ok`
/// means that the store holds the headword, and the records found are the
/// first of those that start with it. On a store that is not sorted the
/// search still ends, but is of no use.
pub fn my_binary_search(data: &Vec<DictDB>, x: &DictDB) -> (r: Result<Vec<DictDB>, Vec<DictDB>>)
    ensures
        outcome(r) == searched(records(data@), x.word@),
        sorted(records(data@)) ==> outcome(r) == lookup(records(data@), x.word@),
{
    match my_binary_search_by(data, x) {
        Ok(index) => {
            let found = collect_prefixed(data, index, x.word.as_str());
            Ok(found)
        },
        Err(index) => {
            let found = collect_prefixed(data, index, x.word.as_str());
            Err(found)
        },
    }
}

/// `m` is an unbroken run of `s`: some stretch of consecutive records of `s`,
/// in the order of `s`.
pub open spec fn is_run_of(m: Seq<Record>, s: Seq<Record>) -> bool {
    exists|from: int|
        0 <= from && from + m.len() <= s.len() && m == #[trigger] s.subrange(from, from + m.len())
}

/// Every headword of `m` starts with `p`.
pub open spec fn all_start_with(m: Seq<Record>, p: Seq<char>) -> bool {
    forall|k: int| 0 <= k < m.len() ==> p.is_prefix_of(#[trigger] m[k].headword)
}

/// Some record of `s` has the headword `w`.
pub open spec fn has_headword(s: Seq<Record>, w: Seq<char>) -> bool {
    exists|k: int| 0 <= k < s.len() && (#[trigger] s[k]).headword == w
}

/// In a sorted store, once a headword that `p` is at most does not start with
/// `p`, none after it does.
proof fn lemma_miss_ends_run(s: Seq<Record>, p: Seq<char>, j: int, k: int)
    requires
        sorted(s),
        0 <= j < k < s.len(),
        at_most(p, s[j].headword),
        !p.is_prefix_of(s[j].headword),
    ensures
        !p.is_prefix_of(s[k].headword),
{
    if p.is_prefix_of(s[k].headword) {
        lemma_prefixed_words_come_first(p, s[j].headword, s[k].headword);
    }
}

/// In a sorted store the records found are those from the lower bound of the
/// probe on: no record before the lower bound starts with the probe, the run
/// of those that do begins at the lower bound, and the records found are that
/// run, cut off after `PREFIX_NUMBER` records.
pub proof fn lemma_lookup_shape(s: Seq<Record>, p: Seq<char>)
    requires
        sorted(s),
    ensures
        ({
            let lb = lower_bound(s, p);
            let m = lookup(s, p).1;
            &&& 0 <= lb <= lb + m.len() <= s.len()
            &&& m.len() <= PREFIX_NUMBER
            &&& m == s.subrange(lb, lb + m.len())
            &&& forall|k: int| 0 <= k < lb ==> !p.is_prefix_of(#[trigger] s[k].headword)
            &&& forall|k: int| lb <= k < lb + m.len() ==> p.is_prefix_of(#[trigger] s[k].headword)
            &&& m.len() < PREFIX_NUMBER ==> forall|k: int|
                lb + m.len() <= k < s.len() ==> !p.is_prefix_of(#[trigger] s[k].headword)
        }),
{
    let lb = lower_bound(s, p);
    let end = window_end(s, lb);
    let a = run_start(s, p, lb);
    let b = run_end(s, p, lb);
    let is_match = |k: int| p.is_prefix_of(s[k].headword);
    let is_miss = |k: int| !p.is_prefix_of(s[k].headword);
    lemma_lower_bound_parts(s, p);
    lemma_first_index(lb, end, is_match);
    lemma_first_index(a, end, is_miss);
    assert forall|k: int| 0 <= k < lb implies !p.is_prefix_of(#[trigger] s[k].headword) by {
        if p.is_prefix_of(s[k].headword) {
            lemma_prefix_at_most(p, s[k].headword);
        }
    }
    if a < end {
        assert(is_match(a));
        if lb < a {
            assert(!is_match(lb));
            lemma_miss_ends_run(s, p, lb, a);
        }
        assert(a == lb);
        assert forall|k: int| lb <= k < b implies p.is_prefix_of(#[trigger] s[k].headword) by {
            assert(!is_miss(k));
        }
        if b < end {
            assert(is_miss(b));
            assert forall|k: int| b <= k < s.len() implies !p.is_prefix_of(
                #[trigger] s[k].headword,
            ) by {
                if b < k {
                    lemma_miss_ends_run(s, p, b, k);
                }
            }
        }
    } else {
        assert(b == end);
        assert(lookup(s, p).1 =~= s.subrange(lb, lb));
        if lb < s.len() {
            assert(!is_match(lb));
            assert forall|k: int| lb <= k < s.len() implies !p.is_prefix_of(
                #[trigger] s[k].headword,
            ) by {
                if lb < k {
                    lemma_miss_ends_run(s, p, lb, k);
                }
            }
        }
    }
}

/// In a sorted store the records found are an unbroken run of the store, are
/// themselves sorted, and each has a headword that starts with the probe.
pub proof fn lemma_matches_are_sorted_run(s: Seq<Record>, p: Seq<char>)
    requires
        sorted(s),
    ensures
        is_run_of(lookup(s, p).1, s),
        sorted(lookup(s, p).1),
        all_start_with(lookup(s, p).1, p),
{
    let lb = lower_bound(s, p);
    let m = lookup(s, p).1;
    lemma_lookup_shape(s, p);
    assert(m == s.subrange(lb, lb + m.len()));
    assert forall|k: int| 0 <= k < m.len() implies p.is_prefix_of(#[trigger] m[k].headword) by {
        assert(m[k] == s[lb + k]);
    }
    assert forall|i: int, j: int| 0 <= i < j < m.len() implies at_most(
        m[i].headword,
        m[j].headword,
    ) by {
        assert(m[i] == s[lb + i] && m[j] == s[lb + j]);
    }
}

/// In a sorted store that holds the probe as a headword the search is exact,
/// and the first record found is the first record of the store with that
/// headword.
pub proof fn lemma_exact_match_comes_first(s: Seq<Record>, p: Seq<char>)
    requires
        sorted(s),
        has_headword(s, p),
    ensures
        lookup(s, p).0,
        lookup(s, p).1.len() > 0,
        lookup(s, p).1[0] == s[lower_bound(s, p)],
        lookup(s, p).1[0].headword == p,
        forall|k: int| 0 <= k < lower_bound(s, p) ==> (#[trigger] s[k]).headword != p,
{
    let lb = lower_bound(s, p);
    let m = lookup(s, p).1;
    let w = choose|k: int| 0 <= k < s.len() && (#[trigger] s[k]).headword == p;
    lemma_lookup_shape(s, p);
    lemma_lower_bound_parts(s, p);
    assert(p.is_prefix_of(s[w].headword));
    assert(lb <= w);
    if lb < w {
        assert(at_most(p, s[lb].headword));
        assert(at_most(s[lb].headword, s[w].headword));
        lemma_precedes_total(p, s[lb].headword);
    }
    assert(s[lb].headword == p);
    assert(p.is_prefix_of(s[lb].headword));
    if m.len() == 0 {
        assert(!p.is_prefix_of(s[lb].headword));
    }
    assert(m[0] == s.subrange(lb, lb + m.len())[0]);
    assert forall|k: int| 0 <= k < lb implies (#[trigger] s[k]).headword != p by {
        assert(!p.is_prefix_of(s[k].headword));
    }
}

/// The `PREFIX_NUMBER` records from the lower bound of `p` on all start with
/// `p`.
pub open spec fn fills_window(s: Seq<Record>, p: Seq<char>) -> bool {
    &&& lower_bound(s, p) + PREFIX_NUMBER <= s.len()
    &&& forall|k: int|
        lower_bound(s, p) <= k < lower_bound(s, p) + PREFIX_NUMBER ==> p.is_prefix_of(
            #[trigger] s[k].headword,
        )
}

/// In a sorted store, where the `PREFIX_NUMBER` records from the lower bound
/// on all start with the probe, the records found are exactly those, however
/// many more would match.
pub proof fn lemma_full_window_is_returned(s: Seq<Record>, p: Seq<char>)
    requires
        sorted(s),
        fills_window(s, p),
    ensures
        lookup(s, p).1 == s.subrange(lower_bound(s, p), lower_bound(s, p) + PREFIX_NUMBER),
{
    let lb = lower_bound(s, p);
    let m = lookup(s, p).1;
    lemma_lookup_shape(s, p);
    if m.len() < PREFIX_NUMBER {
        assert(p.is_prefix_of(s[lb + m.len()].headword));
    }
}

/// A search is a function of the store and the probe: two outcomes that the
/// contract of a search allows for the same store and the same probe are one
/// and the same.
pub proof fn lemma_search_is_repeatable(
    s: Seq<Record>,
    p: Seq<char>,
    first: Result<Vec<DictDB>, Vec<DictDB>>,
    second: Result<Vec<DictDB>, Vec<DictDB>>,
)
    requires
        outcome(first) == searched(s, p),
        outcome(second) == searched(s, p),
    ensures
        first is Ok <==> second is Ok,
        outcome(first).1 == outcome(second).1,
{
}

} // verus!
