//! The dictionary record and its order.

use crate::order::{lemma_precedes_irreflexive, lemma_precedes_total, precedes};
use crate::parser::{parse, parsed};
use crate::search::{
    all_start_with, fills_window, has_headword, is_run_of, lemma_exact_match_comes_first,
    lemma_full_window_is_returned, lemma_lookup_shape, lemma_matches_are_sorted_run, lookup,
    lower_bound, my_binary_search, outcome, searched, sorted, PREFIX_NUMBER,
};
use crate::sort::{
    all_before, is_sorted_pair_of, lemma_sorted_pair_is_sorted, lemma_sorted_pair_of_parts,
    sort_by_headword,
};
use crate::text::{comes_before, uppercase};
use std::cmp::Ordering;
use vstd::prelude::*;

verus! {

/// What a record is to the contracts: its headword and its translation block,
/// as sequences of characters.
pub struct Record {
    pub headword: Seq<char>,
    pub translation: Seq<char>,
}

/// A dictionary record: a headword and the text shown for it.
///
/// Records are ordered and compared by headword alone, so that a record with
/// any translation can serve as a probe for a headword.
#[derive(Debug)]
pub struct DictDB {
    pub word: String,
    pub translation: String,
}

impl View for DictDB {
    type V = Record;

    open spec fn view(&self) -> Record {
        Record { headword: self.word@, translation: self.translation@ }
    }
}

/// The records that a sequence of `DictDB` values stands for.
pub open spec fn records(data: Seq<DictDB>) -> Seq<Record> {
    Seq::new(data.len(), |i: int| data[i]@)
}

/// How headword `a` stands to headword `b`.
pub open spec fn headword_order(a: Seq<char>, b: Seq<char>) -> Ordering {
    if precedes(a, b) {
        Ordering::Less
    } else if precedes(b, a) {
        Ordering::Greater
    } else {
        Ordering::Equal
    }
}

impl Clone for DictDB {
    fn clone(&self) -> (copy: Self)
        ensures
            copy == *self,
    {
        DictDB { word: self.word.clone(), translation: self.translation.clone() }
    }
}

impl PartialEq for DictDB {
    fn eq(&self, other: &DictDB) -> (r: bool) {
        self.word == other.word
    }
}

impl vstd::std_specs::cmp::PartialEqSpecImpl for DictDB {
    open spec fn obeys_eq_spec() -> bool {
        true
    }

    open spec fn eq_spec(&self, other: &DictDB) -> bool {
        self.word@ == other.word@
    }
}

impl Eq for DictDB {

}

impl PartialOrd for DictDB {
    fn partial_cmp(&self, other: &DictDB) -> (r: Option<Ordering>) {
        Some(self.cmp(other))
    }
}

impl vstd::std_specs::cmp::PartialOrdSpecImpl for DictDB {
    open spec fn obeys_partial_cmp_spec() -> bool {
        true
    }

    open spec fn partial_cmp_spec(&self, other: &DictDB) -> Option<Ordering> {
        Some(headword_order(self.word@, other.word@))
    }
}

impl DictDB {
    /// Builds the store from the texts of the two word lists.
    ///
    /// Each text is parsed and its records are sorted by headword, stably and
    /// apart from the other's; the store is the first list's records followed
    /// by the second's. It is sorted as a whole, and so fit for a search, where
    /// no headword of the first list comes after a headword of the second, as
    /// is the case of two lists in scripts whose code points do not overlap.
    /// Nothing checks this here: `is_sorted` does.
    pub fn new(en_bg: &str, bg_en: &str) -> (store: Vec<DictDB>)
        ensures
            is_sorted_pair_of(records(store@), parsed(en_bg@), parsed(bg_en@)),
            all_before(parsed(en_bg@), parsed(bg_en@)) ==> sorted(records(store@)),
    {
        let mut vector_en_bg = sort_by_headword(parse(en_bg));
        let mut vector_bg_en = sort_by_headword(parse(bg_en));
        let ghost first = records(vector_en_bg@);
        let ghost second = records(vector_bg_en@);
        vector_en_bg.append(&mut vector_bg_en);
        proof {
            let whole = records(vector_en_bg@);
            assert(whole =~= first + second);
            lemma_sorted_pair_of_parts(first, second, parsed(en_bg@), parsed(bg_en@));
            if all_before(parsed(en_bg@), parsed(bg_en@)) {
                lemma_sorted_pair_is_sorted(whole, parsed(en_bg@), parsed(bg_en@));
            }
        }
        vector_en_bg
    }

    /// Looks `searched_txt` up in the store `data`.
    ///
    /// The text is folded to upper case and the result compared with the
    /// headwords as they are stored, so only a store whose headwords are in
    /// upper case answers a query in any case. The store must be sorted by
    /// headword. The result is `Ok` where a record has exactly the folded text
    /// as its headword and `Err` where none has. Either way it carries the
    /// records whose headword starts with the folded text, in store order: all
    /// of them, or the first `PREFIX_NUMBER` where there are more. An empty
    /// list under `Err` means that nothing was found.
    pub fn search(searched_txt: &str, data: &Vec<DictDB>) -> (r: Result<Vec<DictDB>, Vec<DictDB>>)
        ensures
            outcome(r) == searched(records(data@), uppercase(searched_txt@)),
            sorted(records(data@)) ==> outcome(r) == lookup(
                records(data@),
                uppercase(searched_txt@),
            ),
            sorted(records(data@)) ==> {
                &&& is_run_of(outcome(r).1, records(data@))
                &&& sorted(outcome(r).1)
                &&& all_start_with(outcome(r).1, uppercase(searched_txt@))
                &&& outcome(r).1.len() <= PREFIX_NUMBER
            },
            sorted(records(data@)) ==> (r is Ok <==> has_headword(
                records(data@),
                uppercase(searched_txt@),
            )),
            sorted(records(data@)) && r is Ok ==> {
                &&& outcome(r).1.len() > 0
                &&& outcome(r).1[0].headword == uppercase(searched_txt@)
                &&& outcome(r).1[0] == records(data@)[lower_bound(
                    records(data@),
                    uppercase(searched_txt@),
                )]
            },
            sorted(records(data@)) && fills_window(records(data@), uppercase(searched_txt@))
                ==> outcome(r).1 == records(data@).subrange(
                lower_bound(records(data@), uppercase(searched_txt@)),
                lower_bound(records(data@), uppercase(searched_txt@)) + PREFIX_NUMBER,
            ),
    {
        let search_struct = DictDB {
            word: searched_txt.to_uppercase(),
            translation: "_".to_string(),
        };
        let r = my_binary_search(data, &search_struct);
        proof {
            let s = records(data@);
            let p = uppercase(searched_txt@);
            if sorted(s) {
                lemma_lookup_shape(s, p);
                lemma_matches_are_sorted_run(s, p);
                if has_headword(s, p) {
                    lemma_exact_match_comes_first(s, p);
                }
                if fills_window(s, p) {
                    lemma_full_window_is_returned(s, p);
                }
            }
        }
        r
    }

    /// Compares two records by headword.
    pub fn cmp(&self, other: &DictDB) -> (r: Ordering)
        ensures
            r == headword_order(self.word@, other.word@),
            r == Ordering::Equal <==> self.word@ == other.word@,
    {
        proof {
            if !precedes(self.word@, other.word@) && !precedes(other.word@, self.word@) {
                lemma_precedes_total(self.word@, other.word@);
            }
            if self.word@ == other.word@ {
                lemma_precedes_irreflexive(self.word@);
            }
        }
        if comes_before(self.word.as_str(), other.word.as_str()) {
            Ordering::Less
        } else if comes_before(other.word.as_str(), self.word.as_str()) {
            Ordering::Greater
        } else {
            Ordering::Equal
        }
    }
}

} // verus!
