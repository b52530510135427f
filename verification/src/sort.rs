//! A stable sort of records by headword.

use crate::database::{records, DictDB, Record};
use crate::order::{
    at_most, lemma_at_most_then_precedes, lemma_at_most_transitive, lemma_precedes_asymmetric,
    lemma_precedes_irreflexive, lemma_precedes_total, precedes,
};
use crate::search::{has_headword, sorted};
use crate::text::comes_before;
use vstd::prelude::*;

verus! {

/// The records of `s` with the headword `w`, in the order that they have in
/// `s`.
pub open spec fn with_headword(s: Seq<Record>, w: Seq<char>) -> Seq<Record> {
    s.filter(|r: Record| r.headword == w)
}

/// `out` is `input` sorted by headword, with records of one headword left in
/// the order that they had.
pub open spec fn is_stable_sort_of(out: Seq<Record>, input: Seq<Record>) -> bool {
    &&& sorted(out)
    &&& forall|w: Seq<char>| #[trigger] with_headword(out, w) == with_headword(input, w)
}

/// Every headword of `a` is at most every headword of `b`.
pub open spec fn all_before(a: Seq<Record>, b: Seq<Record>) -> bool {
    forall|i: int, j: int|
        #![trigger a[i], b[j]]
        0 <= i < a.len() && 0 <= j < b.len() ==> at_most(a[i].headword, b[j].headword)
}

/// `store` is `a` sorted, followed by `b` sorted.
pub open spec fn is_sorted_pair_of(store: Seq<Record>, a: Seq<Record>, b: Seq<Record>) -> bool {
    &&& store.len() == a.len() + b.len()
    &&& is_stable_sort_of(store.take(a.len() as int), a)
    &&& is_stable_sort_of(store.skip(a.len() as int), b)
}

/// A record in front of a sorted sequence that is at most its first record
/// leaves it sorted.
proof fn lemma_sorted_prepend(x: Record, s: Seq<Record>)
    requires
        sorted(s),
        s.len() > 0 ==> at_most(x.headword, s[0].headword),
    ensures
        sorted(seq![x] + s),
{
    let t = seq![x] + s;
    assert forall|i: int, j: int| 0 <= i < j < t.len() implies at_most(
        t[i].headword,
        t[j].headword,
    ) by {
        if i == 0 {
            assert(t[j] == s[j - 1]);
            if j > 1 {
                assert(at_most(s[0].headword, s[j - 1].headword));
                lemma_at_most_transitive(x.headword, s[0].headword, s[j - 1].headword);
            }
        } else {
            assert(t[i] == s[i - 1] && t[j] == s[j - 1]);
        }
    }
}

/// No record of `s` from `from` on has the headword `w`, so none is selected.
proof fn lemma_none_with_headword(s: Seq<Record>, from: int, w: Seq<char>)
    requires
        0 <= from <= s.len(),
        forall|k: int| from <= k < s.len() ==> (#[trigger] s[k]).headword != w,
    ensures
        with_headword(s.skip(from), w) == Seq::<Record>::empty(),
{
    let pred = |r: Record| r.headword == w;
    let rest = s.skip(from);
    assert forall|k: int| 0 <= k < rest.len() implies !pred(#[trigger] rest[k]) by {
        assert(rest[k] == s[from + k]);
    }
    rest.lemma_all_neg_filter_empty(pred);
    assert(rest.filter(pred) =~= Seq::<Record>::empty());
}

/// Merges two sorted vectors into one. Records of one headword keep their
/// order, those of `left` ahead of those of `right`.
fn merge(left: Vec<DictDB>, right: Vec<DictDB>) -> (out: Vec<DictDB>)
    requires
        sorted(records(left@)),
        sorted(records(right@)),
    ensures
        sorted(records(out@)),
        forall|w: Seq<char>| #[trigger]
            with_headword(records(out@), w) == with_headword(records(left@), w) + with_headword(
                records(right@),
                w,
            ),
{
    let ghost l = records(left@);
    let ghost r = records(right@);
    let mut left = left;
    let mut right = right;
    // The merged records from the largest down, and `tail` for them in order.
    let mut backwards: Vec<DictDB> = Vec::new();
    let ghost mut tail: Seq<Record> = Seq::empty();
    proof {
        assert(l.take(l.len() as int) =~= l);
        assert(r.take(r.len() as int) =~= r);
        assert(records(backwards@) =~= tail.reverse());
        assert forall|w: Seq<char>| #[trigger]
            with_headword(tail, w) == with_headword(l.skip(l.len() as int), w) + with_headword(
                r.skip(r.len() as int),
                w,
            ) by {
            lemma_none_with_headword(l, l.len() as int, w);
            lemma_none_with_headword(r, r.len() as int, w);
            assert(tail =~= l.skip(l.len() as int));
        }
    }
    while left.len() > 0 || right.len() > 0
        invariant
            left.len() <= l.len(),
            right.len() <= r.len(),
            records(left@) == l.take(left.len() as int),
            records(right@) == r.take(right.len() as int),
            sorted(l),
            sorted(r),
            sorted(tail),
            records(backwards@) == tail.reverse(),
            forall|w: Seq<char>| #[trigger]
                with_headword(tail, w) == with_headword(l.skip(left.len() as int), w)
                    + with_headword(r.skip(right.len() as int), w),
            tail.len() > 0 && left.len() > 0 ==> at_most(
                l[left.len() - 1].headword,
                tail[0].headword,
            ),
            tail.len() > 0 && right.len() > 0 ==> at_most(
                r[right.len() - 1].headword,
                tail[0].headword,
            ),
            right.len() > 0 ==> forall|k: int|
                left.len() <= k < l.len() ==> precedes(
                    r[right.len() - 1].headword,
                    (#[trigger] l[k]).headword,
                ),
        decreases left.len() + right.len(),
    {
        let ghost i = left.len() as int;
        let ghost j = right.len() as int;
        let ghost old_back = backwards@;
        let ghost old_left = left@;
        let ghost old_right = right@;
        let from_right = if left.len() == 0 {
            true
        } else if right.len() == 0 {
            false
        } else {
            assert(records(left@)[i - 1] == l[i - 1]);
            assert(records(right@)[j - 1] == r[j - 1]);
            !comes_before(
                right[right.len() - 1].word.as_str(),
                left[left.len() - 1].word.as_str(),
            )
        };
        if from_right {
            let record = right.pop().unwrap();
            let ghost x = record@;
            backwards.push(record);
            proof {
                assert(x == records(old_right)[j - 1]);
                assert(x == r[j - 1]);
                assert(records(right@) =~= r.take(j - 1));
                lemma_sorted_prepend(x, tail);
                assert(r.skip(j - 1) =~= seq![x] + r.skip(j));
                assert forall|k: int| i <= k < l.len() implies (#[trigger] l[k]).headword
                    != x.headword by {
                    lemma_precedes_irreflexive(x.headword);
                }
                assert forall|w: Seq<char>| #[trigger]
                    with_headword(seq![x] + tail, w) == with_headword(l.skip(i), w)
                        + with_headword(r.skip(j - 1), w) by {
                    let pred = |r: Record| r.headword == w;
                    tail.lemma_filter_prepend(x, pred);
                    r.skip(j).lemma_filter_prepend(x, pred);
                    assert(with_headword(tail, w) == with_headword(l.skip(i), w) + with_headword(
                        r.skip(j),
                        w,
                    ));
                    if x.headword == w {
                        lemma_none_with_headword(l, i, w);
                        assert(seq![x] + (Seq::<Record>::empty() + with_headword(r.skip(j), w))
                            =~= Seq::<Record>::empty() + (seq![x] + with_headword(r.skip(j), w)));
                    } else {
                        assert(Seq::<Record>::empty() + (with_headword(l.skip(i), w)
                            + with_headword(r.skip(j), w)) =~= with_headword(l.skip(i), w) + (
                        Seq::<Record>::empty() + with_headword(r.skip(j), w)));
                    }
                }
                if j > 1 {
                    assert forall|k: int| i <= k < l.len() implies precedes(
                        r[j - 2].headword,
                        (#[trigger] l[k]).headword,
                    ) by {
                        assert(at_most(r[j - 2].headword, r[j - 1].headword));
                        lemma_at_most_then_precedes(
                            r[j - 2].headword,
                            r[j - 1].headword,
                            l[k].headword,
                        );
                    }
                    assert(at_most(r[j - 2].headword, x.headword));
                }
                assert(records(backwards@) =~= (seq![x] + tail).reverse()) by {
                    assert(records(backwards@) =~= records(old_back).push(x));
                }
                tail = seq![x] + tail;
            }
        } else {
            let record = left.pop().unwrap();
            let ghost y = record@;
            backwards.push(record);
            proof {
                assert(y == records(old_left)[i - 1]);
                assert(y == l[i - 1]);
                assert(records(left@) =~= l.take(i - 1));
                lemma_sorted_prepend(y, tail);
                assert(l.skip(i - 1) =~= seq![y] + l.skip(i));
                assert forall|w: Seq<char>| #[trigger]
                    with_headword(seq![y] + tail, w) == with_headword(l.skip(i - 1), w)
                        + with_headword(r.skip(j), w) by {
                    let pred = |r: Record| r.headword == w;
                    tail.lemma_filter_prepend(y, pred);
                    l.skip(i).lemma_filter_prepend(y, pred);
                    assert(with_headword(tail, w) == with_headword(l.skip(i), w) + with_headword(
                        r.skip(j),
                        w,
                    ));
                    let head = if pred(y) {
                        seq![y]
                    } else {
                        Seq::<Record>::empty()
                    };
                    assert(head + (with_headword(l.skip(i), w) + with_headword(r.skip(j), w))
                        =~= (head + with_headword(l.skip(i), w)) + with_headword(r.skip(j), w));
                }
                if i > 1 {
                    assert(at_most(l[i - 2].headword, y.headword));
                }
                if j > 0 {
                    assert forall|k: int| i - 1 <= k < l.len() implies precedes(
                        r[j - 1].headword,
                        (#[trigger] l[k]).headword,
                    ) by {}
                    lemma_precedes_asymmetric(r[j - 1].headword, y.headword);
                }
                assert(records(backwards@) =~= (seq![y] + tail).reverse()) by {
                    assert(records(backwards@) =~= records(old_back).push(y));
                }
                tail = seq![y] + tail;
            }
        }
    }
    proof {
        assert(l.skip(0) =~= l);
        assert(r.skip(0) =~= r);
    }
    let mut out: Vec<DictDB> = Vec::new();
    while backwards.len() > 0
        invariant
            records(out@) + records(backwards@).reverse() == tail,
        decreases backwards.len(),
    {
        let ghost before_out = records(out@);
        let ghost before_back = records(backwards@);
        let record = backwards.pop().unwrap();
        out.push(record);
        proof {
            assert(records(out@) =~= before_out.push(record@));
            assert(records(backwards@) =~= before_back.drop_last());
            assert(record@ == before_back.last());
            assert(before_out.push(before_back.last()) + before_back.drop_last().reverse()
                =~= before_out + before_back.reverse());
        }
    }
    proof {
        assert(records(out@) =~= tail);
    }
    out
}

/// Sorts records by headword. The sort is stable: records of one headword
/// stay in the order in which they came.
pub fn sort_by_headword(data: Vec<DictDB>) -> (out: Vec<DictDB>)
    ensures
        is_stable_sort_of(records(out@), records(data@)),
    decreases data.len(),
{
    let ghost input = records(data@);
    let mut left = data;
    if left.len() <= 1 {
        return left;
    }
    let at = left.len() / 2;
    let right = left.split_off(at);
    proof {
        assert(input =~= records(left@) + records(right@));
    }
    let ghost l = records(left@);
    let ghost r = records(right@);
    let left = sort_by_headword(left);
    let right = sort_by_headword(right);
    let out = merge(left, right);
    proof {
        assert forall|w: Seq<char>| #[trigger]
            with_headword(records(out@), w) == with_headword(input, w) by {
            let pred = |r: Record| r.headword == w;
            assert(with_headword(records(left@), w) == with_headword(l, w));
            assert(with_headword(records(right@), w) == with_headword(r, w));
            Seq::filter_distributes_over_add(l, r, pred);
        }
    }
    out
}

/// No two records of `s` have the same headword.
pub open spec fn distinct_headwords(s: Seq<Record>) -> bool {
    forall|i: int, j: int|
        #![trigger s[i], s[j]]
        0 <= i < j < s.len() ==> s[i].headword != s[j].headword
}

/// A headword occurs in `s` exactly when some record is selected by it.
pub proof fn lemma_has_headword_selected(s: Seq<Record>, w: Seq<char>)
    ensures
        has_headword(s, w) <==> with_headword(s, w).len() > 0,
{
    let pred = |r: Record| r.headword == w;
    if has_headword(s, w) {
        let k = choose|k: int| 0 <= k < s.len() && (#[trigger] s[k]).headword == w;
        s.lemma_filter_contains(pred, k);
    }
    if with_headword(s, w).len() > 0 {
        let e = s.filter(pred)[0];
        s.lemma_filter_pred(pred, 0);
        assert(s.filter(pred).contains(e));
        s.lemma_filter_contains_rev(pred, e);
        let i = choose|i: int| 0 <= i < s.len() && s[i] == e;
        assert(s[i].headword == w);
    }
}

/// Where the headwords of `s` are distinct, a headword selects at most one
/// record.
proof fn lemma_distinct_selects_one(s: Seq<Record>, w: Seq<char>)
    requires
        distinct_headwords(s),
    ensures
        with_headword(s, w).len() <= 1,
    decreases s.len(),
{
    let pred = |r: Record| r.headword == w;
    if s.len() == 0 {
        s.lemma_filter_len(pred);
    } else {
        let t = s.drop_last();
        let x = s.last();
        assert(s =~= t.push(x));
        assert forall|i: int, j: int| 0 <= i < j < t.len() implies t[i].headword
            != t[j].headword by {
            assert(t[i] == s[i] && t[j] == s[j]);
        }
        lemma_distinct_selects_one(t, w);
        t.lemma_filter_push(x, pred);
        if x.headword == w {
            lemma_has_headword_selected(t, w);
            if has_headword(t, w) {
                let k = choose|k: int| 0 <= k < t.len() && (#[trigger] t[k]).headword == w;
                assert(t[k] == s[k] && x == s[s.len() - 1]);
            }
        }
    }
}

/// The headwords of `s` are distinct exactly when each selects at most one
/// record.
pub proof fn lemma_distinct_selected(s: Seq<Record>)
    ensures
        distinct_headwords(s) <==> forall|w: Seq<char>| #[trigger] with_headword(s, w).len() <= 1,
{
    if distinct_headwords(s) {
        assert forall|w: Seq<char>| #[trigger] with_headword(s, w).len() <= 1 by {
            lemma_distinct_selects_one(s, w);
        }
    }
    if forall|w: Seq<char>| #[trigger] with_headword(s, w).len() <= 1 {
        assert forall|i: int, j: int| 0 <= i < j < s.len() implies s[i].headword
            != s[j].headword by {
            let w = s[i].headword;
            if s[j].headword == w {
                let pred = |r: Record| r.headword == w;
                let front = s.take(j);
                let back = s.skip(j);
                assert(s =~= front + back);
                Seq::filter_distributes_over_add(front, back, pred);
                assert(front[i] == s[i]);
                assert(back[0] == s[j]);
                lemma_has_headword_selected(front, w);
                lemma_has_headword_selected(back, w);
                assert(with_headword(s, w).len() >= 2);
            }
        }
    }
}

/// A record occurs in `s` as often as among the records that its headword
/// selects.
proof fn lemma_count_selected(s: Seq<Record>, e: Record)
    ensures
        s.to_multiset().count(e) == with_headword(s, e.headword).to_multiset().count(e),
    decreases s.len(),
{
    broadcast use vstd::multiset::group_multiset_axioms;

    let pred = |r: Record| r.headword == e.headword;
    if s.len() == 0 {
        s.lemma_filter_len(pred);
        assert(s.filter(pred) =~= s);
    } else {
        let t = s.drop_last();
        let x = s.last();
        assert(s =~= t.push(x));
        lemma_count_selected(t, e);
        t.lemma_filter_push(x, pred);
        vstd::seq_lib::to_multiset_build(t, x);
        if pred(x) {
            vstd::seq_lib::to_multiset_build(t.filter(pred), x);
        }
    }
}

/// A stable sort keeps the records: as many come out as went in, each as
/// often as before, so the same headwords occur, and they are distinct after
/// the sort exactly when they were before.
pub proof fn lemma_stable_sort_keeps_records(out: Seq<Record>, input: Seq<Record>)
    requires
        is_stable_sort_of(out, input),
    ensures
        out.len() == input.len(),
        out.to_multiset() == input.to_multiset(),
        forall|w: Seq<char>| has_headword(out, w) == has_headword(input, w),
        distinct_headwords(out) == distinct_headwords(input),
{
    assert forall|e: Record| out.to_multiset().count(e) == input.to_multiset().count(e) by {
        lemma_count_selected(out, e);
        lemma_count_selected(input, e);
        assert(with_headword(out, e.headword) == with_headword(input, e.headword));
    }
    assert(out.to_multiset() =~= input.to_multiset());
    vstd::seq_lib::to_multiset_len(out);
    vstd::seq_lib::to_multiset_len(input);
    assert forall|w: Seq<char>| has_headword(out, w) == has_headword(input, w) by {
        lemma_has_headword_selected(out, w);
        lemma_has_headword_selected(input, w);
        assert(with_headword(out, w) == with_headword(input, w));
    }
    lemma_distinct_selected(out);
    lemma_distinct_selected(input);
    if distinct_headwords(out) {
        assert forall|w: Seq<char>| #[trigger] with_headword(input, w).len() <= 1 by {
            assert(with_headword(out, w) == with_headword(input, w));
        }
    }
    if distinct_headwords(input) {
        assert forall|w: Seq<char>| #[trigger] with_headword(out, w).len() <= 1 by {
            assert(with_headword(out, w) == with_headword(input, w));
        }
    }
}

/// Two sorted lists in which every headword selects the same records are the
/// same list.
proof fn lemma_sorted_lists_with_same_selections(a: Seq<Record>, b: Seq<Record>)
    requires
        sorted(a),
        sorted(b),
        forall|w: Seq<char>| #[trigger] with_headword(a, w) == with_headword(b, w),
    ensures
        a == b,
    decreases a.len(),
{
    if a.len() == 0 || b.len() == 0 {
        if a.len() > 0 {
            assert(has_headword(a, a[0].headword));
            lemma_has_headword_selected(a, a[0].headword);
            lemma_has_headword_selected(b, a[0].headword);
            assert(with_headword(a, a[0].headword) == with_headword(b, a[0].headword));
        }
        if b.len() > 0 {
            assert(has_headword(b, b[0].headword));
            lemma_has_headword_selected(a, b[0].headword);
            lemma_has_headword_selected(b, b[0].headword);
            assert(with_headword(a, b[0].headword) == with_headword(b, b[0].headword));
        }
        assert(a =~= b);
    } else {
        let x = a.last();
        let y = b.last();
        let front_a = a.drop_last();
        let front_b = b.drop_last();
        assert(a =~= front_a.push(x));
        assert(b =~= front_b.push(y));
        // The last records have one headword: each list holds the other's.
        assert(has_headword(a, x.headword));
        assert(has_headword(b, y.headword));
        lemma_has_headword_selected(a, x.headword);
        lemma_has_headword_selected(b, x.headword);
        lemma_has_headword_selected(a, y.headword);
        lemma_has_headword_selected(b, y.headword);
        assert(with_headword(a, x.headword) == with_headword(b, x.headword));
        assert(with_headword(a, y.headword) == with_headword(b, y.headword));
        let in_b = choose|k: int| 0 <= k < b.len() && (#[trigger] b[k]).headword == x.headword;
        let in_a = choose|k: int| 0 <= k < a.len() && (#[trigger] a[k]).headword == y.headword;
        assert(at_most(x.headword, y.headword)) by {
            if in_b < b.len() - 1 {
                assert(at_most(b[in_b].headword, b[b.len() - 1].headword));
            } else {
                lemma_precedes_irreflexive(x.headword);
            }
        }
        assert(at_most(y.headword, x.headword)) by {
            if in_a < a.len() - 1 {
                assert(at_most(a[in_a].headword, a[a.len() - 1].headword));
            } else {
                lemma_precedes_irreflexive(y.headword);
            }
        }
        lemma_precedes_total(x.headword, y.headword);
        // So they are the last that this headword selects, and are the same.
        let last_pred = |r: Record| r.headword == x.headword;
        front_a.lemma_filter_push(x, last_pred);
        front_b.lemma_filter_push(y, last_pred);
        assert(x == with_headword(a, x.headword).last());
        assert(y == with_headword(b, x.headword).last());
        assert(x == y);
        assert forall|i: int, j: int| 0 <= i < j < front_a.len() implies at_most(
            front_a[i].headword,
            front_a[j].headword,
        ) by {
            assert(front_a[i] == a[i] && front_a[j] == a[j]);
        }
        assert forall|i: int, j: int| 0 <= i < j < front_b.len() implies at_most(
            front_b[i].headword,
            front_b[j].headword,
        ) by {
            assert(front_b[i] == b[i] && front_b[j] == b[j]);
        }
        assert forall|w: Seq<char>| #[trigger]
            with_headword(front_a, w) == with_headword(front_b, w) by {
            let pred = |r: Record| r.headword == w;
            front_a.lemma_filter_push(x, pred);
            front_b.lemma_filter_push(y, pred);
            assert(with_headword(a, w) == with_headword(b, w));
            if x.headword == w {
                assert(with_headword(front_a, w) =~= with_headword(a, w).drop_last());
                assert(with_headword(front_b, w) =~= with_headword(b, w).drop_last());
            }
        }
        lemma_sorted_lists_with_same_selections(front_a, front_b);
    }
}

/// A list has one stable sort: being sorted by headword with the records of
/// each headword in their old order leaves no choice.
pub proof fn lemma_stable_sort_is_unique(a: Seq<Record>, b: Seq<Record>, input: Seq<Record>)
    requires
        is_stable_sort_of(a, input),
        is_stable_sort_of(b, input),
    ensures
        a == b,
{
    assert forall|w: Seq<char>| #[trigger] with_headword(a, w) == with_headword(b, w) by {
        assert(with_headword(a, w) == with_headword(input, w));
        assert(with_headword(b, w) == with_headword(input, w));
    }
    lemma_sorted_lists_with_same_selections(a, b);
}

/// A list sorted on its own, followed by another sorted on its own, is the
/// sorted pair of the two.
pub proof fn lemma_sorted_pair_of_parts(
    first: Seq<Record>,
    second: Seq<Record>,
    a: Seq<Record>,
    b: Seq<Record>,
)
    requires
        is_stable_sort_of(first, a),
        is_stable_sort_of(second, b),
    ensures
        is_sorted_pair_of(first + second, a, b),
{
    lemma_stable_sort_keeps_records(first, a);
    lemma_stable_sort_keeps_records(second, b);
    assert((first + second).take(a.len() as int) =~= first);
    assert((first + second).skip(a.len() as int) =~= second);
}

/// Two sorted lists, one after the other, are sorted as a whole where no
/// headword of the first list comes after one of the second. It is enough
/// that this holds of the lists before they were sorted.
pub proof fn lemma_sorted_pair_is_sorted(store: Seq<Record>, a: Seq<Record>, b: Seq<Record>)
    requires
        is_sorted_pair_of(store, a, b),
        all_before(a, b),
    ensures
        sorted(store),
{
    let n = a.len() as int;
    let front = store.take(n);
    let back = store.skip(n);
    lemma_stable_sort_keeps_records(front, a);
    lemma_stable_sort_keeps_records(back, b);
    assert forall|i: int, j: int| 0 <= i < j < store.len() implies at_most(
        store[i].headword,
        store[j].headword,
    ) by {
        if j < n {
            assert(front[i] == store[i] && front[j] == store[j]);
        } else if i >= n {
            assert(back[i - n] == store[i] && back[j - n] == store[j]);
        } else {
            assert(front[i] == store[i] && back[j - n] == store[j]);
            assert(has_headword(front, store[i].headword));
            assert(has_headword(back, store[j].headword));
            assert(has_headword(a, store[i].headword));
            assert(has_headword(b, store[j].headword));
            let x = choose|k: int| 0 <= k < a.len() && (#[trigger] a[k]).headword == store[i].headword;
            let y = choose|k: int| 0 <= k < b.len() && (#[trigger] b[k]).headword == store[j].headword;
            assert(at_most(a[x].headword, b[y].headword));
        }
    }
}

} // verus!
