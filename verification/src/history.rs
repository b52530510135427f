//! The history of bookmarked records.
//!
//! The records are kept twice: in the order in which they were added, for
//! display, and sorted by headword, for lookup. Only the operations below
//! reach the two lists, so they cannot drift apart.

use crate::database::{records, DictDB, Record};
use crate::search::{has_headword, lemma_exact_match_comes_first, my_binary_search_by, sorted};
use crate::sort::{
    distinct_headwords, is_stable_sort_of, lemma_has_headword_selected,
    lemma_stable_sort_keeps_records, sort_by_headword, with_headword,
};
use vstd::prelude::*;

verus! {

/// The history after `record` is offered to it: added at the end, unless its
/// headword is there already.
pub open spec fn inserted(history: Seq<Record>, record: Record) -> Seq<Record> {
    if has_headword(history, record.headword) {
        history
    } else {
        history.push(record)
    }
}

/// The bookmarked records.
pub struct History {
    sorted: Vec<DictDB>,
    chronological: Vec<DictDB>,
}

impl View for History {
    type V = Seq<Record>;

    /// The records in the order in which they were added.
    closed spec fn view(&self) -> Seq<Record> {
        records(self.chronological@)
    }
}

/// Copies `data`, back to front if `reverse` is set.
fn copy_records(data: &Vec<DictDB>, reverse: bool) -> (copy: Vec<DictDB>)
    ensures
        records(copy@) == if reverse {
            records(data@).reverse()
        } else {
            records(data@)
        },
{
    let ghost s = records(data@);
    let mut copy: Vec<DictDB> = Vec::new();
    let len = data.len();
    let mut i: usize = 0;
    while i < len
        invariant
            i <= len == data.len(),
            s == records(data@),
            copy.len() == i,
            forall|k: int|
                0 <= k < i ==> (#[trigger] copy[k])@ == if reverse {
                    s[len - 1 - k]
                } else {
                    s[k]
                },
        decreases len - i,
    {
        let from = if reverse {
            len - 1 - i
        } else {
            i
        };
        copy.push(data[from].clone());
        i = i + 1;
    }
    assert(records(copy@) =~= if reverse {
        s.reverse()
    } else {
        s
    });
    copy
}

impl History {
    /// The records sorted by headword.
    pub closed spec fn in_order(&self) -> Seq<Record> {
        records(self.sorted@)
    }

    /// The sorted list is the list in order of insertion, stably sorted. This
    /// holds of every history at all times.
    #[verifier::type_invariant]
    pub open spec fn wf(&self) -> bool {
        is_stable_sort_of(self.in_order(), self@)
    }

    /// An empty history.
    pub fn new() -> (history: History)
        ensures
            history.wf(),
            history@ == Seq::<Record>::empty(),
    {
        let history = History { sorted: Vec::new(), chronological: Vec::new() };
        assert(history@ =~= Seq::<Record>::empty());
        history
    }

    /// A history of the given records, in the order given.
    pub fn from_records(chronological: Vec<DictDB>) -> (history: History)
        ensures
            history.wf(),
            history@ == records(chronological@),
    {
        let sorted = sort_by_headword(copy_records(&chronological, false));
        History { sorted, chronological }
    }

    /// How many records the history holds.
    pub fn len(&self) -> (n: usize)
        ensures
            n == self@.len(),
    {
        self.chronological.len()
    }

    /// Whether the history holds no record.
    pub fn is_empty(&self) -> (b: bool)
        ensures
            b == (self@.len() == 0),
    {
        self.chronological.len() == 0
    }

    /// Whether a record with the headword `word` has been added. Translations
    /// play no part.
    pub fn contains(&self, word: &str) -> (b: bool)
        ensures
            b == has_headword(self@, word@),
    {
        self.find(word).is_some()
    }

    /// The record with the headword `word`: of several, the one added first.
    pub fn find(&self, word: &str) -> (found: Option<&DictDB>)
        ensures
            found is Some <==> has_headword(self@, word@),
            found matches Some(record) ==> record@ == with_headword(self@, word@)[0],
    {
        proof {
            use_type_invariant(self);
        }
        let ghost s = records(self.sorted@);
        let search_struct = DictDB { word: word.to_string(), translation: "__".to_string() };
        proof {
            lemma_stable_sort_keeps_records(s, self@);
            lemma_has_headword_selected(self@, word@);
            if has_headword(s, word@) {
                lemma_exact_match_comes_first(s, word@);
            }
        }
        match my_binary_search_by(&self.sorted, &search_struct) {
            Ok(index) => {
                proof {
                    assert(s[index as int].headword == word@);
                    lemma_first_selected(s, word@, index as int);
                    assert(with_headword(s, word@) == with_headword(self@, word@));
                }
                Some(&self.sorted[index])
            },
            Err(_) => None,
        }
    }

    /// Adds a record with the given headword and translation, unless the
    /// history has the headword already: then nothing changes. Returns whether
    /// the record was added.
    pub fn insert(&mut self, word: &str, translation: &str) -> (added: bool)
        ensures
            final(self).wf(),
            added == !has_headword(old(self)@, word@),
            final(self)@ == inserted(
                old(self)@,
                Record { headword: word@, translation: translation@ },
            ),
            has_headword(final(self)@, word@),
            added ==> final(self)@.last() == (Record {
                headword: word@,
                translation: translation@,
            }),
            distinct_headwords(old(self)@) ==> distinct_headwords(final(self)@),
    {
        proof {
            if !has_headword(self@, word@) {
                lemma_inserted_record_is_last(
                    self@,
                    Record { headword: word@, translation: translation@ },
                );
            }
            if distinct_headwords(self@) {
                lemma_insert_keeps_headwords_distinct(
                    self@,
                    Record { headword: word@, translation: translation@ },
                );
            }
        }
        proof {
            use_type_invariant(&*self);
        }
        if self.contains(word) {
            return false;
        }
        let mut taken = History::new();
        std::mem::swap(self, &mut taken);
        proof {
            use_type_invariant(&taken);
        }
        let History { sorted, chronological } = taken;
        let mut unsorted = sorted;
        let mut chronological = chronological;
        let ghost old_sorted = records(unsorted@);
        let ghost old_chronological = records(chronological@);
        let record = DictDB { word: word.to_string(), translation: translation.to_string() };
        let ghost added = record@;
        chronological.push(record.clone());
        unsorted.push(record);
        proof {
            assert(records(chronological@) =~= old_chronological.push(added));
            assert(records(unsorted@) =~= old_sorted.push(added));
        }
        let sorted = sort_by_headword(unsorted);
        proof {
            assert forall|w: Seq<char>| #[trigger]
                with_headword(records(sorted@), w) == with_headword(
                    records(chronological@),
                    w,
                ) by {
                let pred = |r: Record| r.headword == w;
                old_sorted.lemma_filter_push(added, pred);
                old_chronological.lemma_filter_push(added, pred);
                assert(with_headword(old_sorted, w) == with_headword(old_chronological, w));
                assert(with_headword(records(sorted@), w) == with_headword(
                    old_sorted.push(added),
                    w,
                ));
            }
        }
        *self = History { sorted, chronological };
        true
    }

    /// A copy of the records for display, in the order in which they were
    /// added, or with the one added last in front if `reverse` is set. The
    /// history itself stays as it is.
    pub fn snapshot_for_display(&self, reverse: bool) -> (snapshot: Vec<DictDB>)
        ensures
            records(snapshot@) == if reverse {
                self@.reverse()
            } else {
                self@
            },
    {
        copy_records(&self.chronological, reverse)
    }
}

/// The two lists of a history hold the same records: the sorted list is
/// sorted, is as long as the list in order of insertion, holds each record as
/// often, and has two records of one headword only where that list has.
pub proof fn lemma_views_agree(history: History)
    requires
        history.wf(),
    ensures
        sorted(history.in_order()),
        history.in_order().len() == history@.len(),
        history.in_order().to_multiset() == history@.to_multiset(),
        forall|w: Seq<char>| has_headword(history.in_order(), w) == has_headword(history@, w),
        distinct_headwords(history.in_order()) == distinct_headwords(history@),
{
    lemma_stable_sort_keeps_records(history.in_order(), history@);
}

/// A record whose headword the history lacks is there once it has been
/// inserted, and stands last in the order of insertion.
pub proof fn lemma_inserted_record_is_last(history: Seq<Record>, record: Record)
    requires
        !has_headword(history, record.headword),
    ensures
        has_headword(inserted(history, record), record.headword),
        inserted(history, record).last() == record,
        inserted(history, record).len() == history.len() + 1,
{
    let after = inserted(history, record);
    assert(after[history.len() as int] == record);
}

/// A headword that the history has is not added again, whatever translation
/// is offered with it.
pub proof fn lemma_known_headword_is_not_inserted(history: Seq<Record>, record: Record)
    requires
        has_headword(history, record.headword),
    ensures
        inserted(history, record) == history,
{
}

/// Inserting never makes two records of one headword: where the headwords
/// were distinct they still are.
pub proof fn lemma_insert_keeps_headwords_distinct(history: Seq<Record>, record: Record)
    requires
        distinct_headwords(history),
    ensures
        distinct_headwords(inserted(history, record)),
{
    let after = inserted(history, record);
    if !has_headword(history, record.headword) {
        assert forall|i: int, j: int| 0 <= i < j < after.len() implies after[i].headword
            != after[j].headword by {
            assert(after[i] == history[i]);
            if j < history.len() {
                assert(after[j] == history[j]);
            }
        }
    }
}

/// The history after each of `offered` has been offered to it in turn.
pub open spec fn inserted_all(history: Seq<Record>, offered: Seq<Record>) -> Seq<Record>
    decreases offered.len(),
{
    if offered.len() == 0 {
        history
    } else {
        inserted(inserted_all(history, offered.drop_last()), offered.last())
    }
}

/// A history that starts empty has distinct headwords after any run of
/// insertions, also where a headword is offered twice with different
/// translations.
pub proof fn lemma_inserts_keep_headwords_distinct(offered: Seq<Record>)
    ensures
        distinct_headwords(inserted_all(Seq::empty(), offered)),
    decreases offered.len(),
{
    if offered.len() > 0 {
        lemma_inserts_keep_headwords_distinct(offered.drop_last());
        lemma_insert_keeps_headwords_distinct(
            inserted_all(Seq::empty(), offered.drop_last()),
            offered.last(),
        );
    }
}

/// The first record with the headword `w` is the first that `w` selects.
proof fn lemma_first_selected(s: Seq<Record>, w: Seq<char>, at: int)
    requires
        0 <= at < s.len(),
        s[at].headword == w,
        forall|k: int| 0 <= k < at ==> (#[trigger] s[k]).headword != w,
    ensures
        with_headword(s, w).len() > 0,
        with_headword(s, w)[0] == s[at],
{
    let pred = |r: Record| r.headword == w;
    let front = s.take(at);
    let back = s.skip(at + 1);
    assert(s =~= front + (seq![s[at]] + back));
    Seq::filter_distributes_over_add(front, seq![s[at]] + back, pred);
    back.lemma_filter_prepend(s[at], pred);
    assert forall|k: int| 0 <= k < front.len() implies !pred(#[trigger] front[k]) by {
        assert(front[k] == s[k]);
    }
    front.lemma_all_neg_filter_empty(pred);
}

} // verus!
