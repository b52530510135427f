//! The parser of a word list.
//!
//! A word list is a text in which the two characters `^;` part one record
//! from the next. A record starts with its headword, which ends at the first
//! line break; what stands between two delimiters without a line break in it
//! is no record and is passed over.

use crate::database::{records, DictDB, Record};
use crate::index::{first_index, lemma_first_index, lemma_first_index_is};
use vstd::prelude::*;

verus! {

/// `text` starts with the delimiter.
pub open spec fn opens_delimiter(text: Seq<char>) -> bool {
    text.len() >= 2 && text[0] == '^' && text[1] == ';'
}

/// `pieces` with `lead` put in front of its first piece.
pub open spec fn led_by(lead: Seq<char>, pieces: Seq<Seq<char>>) -> Seq<Seq<char>> {
    pieces.update(0, lead + pieces[0])
}

/// The pieces into which the delimiters cut `text`, from left to right. A
/// text without a delimiter is one piece, and a text with `n` delimiters has
/// `n + 1` pieces, of which any may be empty.
pub open spec fn pieces(text: Seq<char>) -> Seq<Seq<char>>
    decreases text.len(),
{
    if text.len() == 0 {
        seq![Seq::empty()]
    } else if opens_delimiter(text) {
        seq![Seq::empty()] + pieces(text.skip(2))
    } else {
        led_by(seq![text[0]], pieces(text.skip(1)))
    }
}

/// The piece has a line break, which is what makes it a record.
pub open spec fn has_line_break(piece: Seq<char>) -> bool {
    exists|k: int| 0 <= k < piece.len() && piece[k] == '\n'
}

/// What stands before the first line break of `piece`; all of it if it has
/// none.
pub open spec fn first_line(piece: Seq<char>) -> Seq<char> {
    piece.take(first_index(0, piece.len() as int, |k: int| piece[k] == '\n'))
}

/// The record that a piece with a line break holds: the headword is its first
/// line, the translation the whole piece, first line included.
pub open spec fn record_of(piece: Seq<char>) -> Record {
    Record { headword: first_line(piece), translation: piece }
}

/// The records that a sequence of pieces holds, in their order.
pub open spec fn records_in(pieces: Seq<Seq<char>>) -> Seq<Record> {
    pieces.filter(|piece: Seq<char>| has_line_break(piece)).map_values(
        |piece: Seq<char>| record_of(piece),
    )
}

/// The records of a word list.
pub open spec fn parsed(text: Seq<char>) -> Seq<Record> {
    records_in(pieces(text))
}

/// Every text has at least one piece.
pub proof fn lemma_pieces_not_empty(text: Seq<char>)
    ensures
        pieces(text).len() >= 1,
    decreases text.len(),
{
    if text.len() > 0 {
        if opens_delimiter(text) {
            lemma_pieces_not_empty(text.skip(2));
        } else {
            lemma_pieces_not_empty(text.skip(1));
        }
    }
}

/// The pieces of a text of which `finished` have been read in full, `open` is
/// what has been read of the next, and `rest` is still to come.
spec fn pieces_so_far(finished: Seq<Seq<char>>, open: Seq<char>, rest: Seq<char>) -> Seq<
    Seq<char>,
> {
    finished + led_by(open, pieces(rest))
}

proof fn lemma_nothing_read(text: Seq<char>)
    ensures
        pieces_so_far(Seq::empty(), Seq::empty(), text) == pieces(text),
{
    lemma_pieces_not_empty(text);
    let ps = pieces(text);
    assert(Seq::<char>::empty() + ps[0] =~= ps[0]);
    assert(led_by(Seq::empty(), ps) =~= ps);
    assert(Seq::<Seq<char>>::empty() + ps =~= ps);
}

proof fn lemma_read_character(finished: Seq<Seq<char>>, open: Seq<char>, rest: Seq<char>)
    requires
        rest.len() > 0,
        !opens_delimiter(rest),
    ensures
        pieces_so_far(finished, open, rest) == pieces_so_far(
            finished,
            open.push(rest[0]),
            rest.skip(1),
        ),
{
    lemma_pieces_not_empty(rest.skip(1));
    let ps = pieces(rest.skip(1));
    assert(open + (seq![rest[0]] + ps[0]) =~= open.push(rest[0]) + ps[0]);
    assert(led_by(open, led_by(seq![rest[0]], ps)) =~= led_by(open.push(rest[0]), ps));
}

proof fn lemma_read_delimiter(finished: Seq<Seq<char>>, open: Seq<char>, rest: Seq<char>)
    requires
        opens_delimiter(rest),
    ensures
        pieces_so_far(finished, open, rest) == pieces_so_far(
            finished.push(open),
            Seq::empty(),
            rest.skip(2),
        ),
{
    lemma_pieces_not_empty(rest.skip(2));
    let ps = pieces(rest.skip(2));
    assert(open + Seq::<char>::empty() =~= open);
    assert(Seq::<char>::empty() + ps[0] =~= ps[0]);
    assert(led_by(Seq::empty(), ps) =~= ps);
    assert(led_by(open, seq![Seq::empty()] + ps) =~= seq![open] + ps);
    assert(finished + (seq![open] + ps) =~= finished.push(open) + ps);
}

proof fn lemma_read_all(finished: Seq<Seq<char>>, open: Seq<char>, rest: Seq<char>)
    requires
        rest.len() == 0,
    ensures
        pieces_so_far(finished, open, rest) == finished.push(open),
{
    assert(open + Seq::<char>::empty() =~= open);
    assert(led_by(open, seq![Seq::empty()]) =~= seq![open]);
    assert(finished + seq![open] =~= finished.push(open));
}

/// A piece that ends adds its record, if it holds one, to those before it.
proof fn lemma_records_in_push(finished: Seq<Seq<char>>, piece: Seq<char>)
    ensures
        records_in(finished.push(piece)) == if has_line_break(piece) {
            records_in(finished).push(record_of(piece))
        } else {
            records_in(finished)
        },
{
    let keep = |piece: Seq<char>| has_line_break(piece);
    finished.lemma_filter_push(piece, keep);
    if has_line_break(piece) {
        assert(records_in(finished.push(piece)) =~= records_in(finished).push(record_of(piece)));
    }
}

/// The piece that is being read, with its first line kept apart.
struct Piece {
    text: String,
    head: String,
    in_head: bool,
}

impl Piece {
    spec fn wf(&self) -> bool {
        if self.in_head {
            self.head@ == self.text@ && !has_line_break(self.text@)
        } else {
            has_line_break(self.text@) && self.head@ == first_line(self.text@)
        }
    }

    fn new() -> (piece: Piece)
        ensures
            piece.wf(),
            piece.text@ == Seq::<char>::empty(),
    {
        Piece { text: String::new(), head: String::new(), in_head: true }
    }

    fn push(&mut self, ch: char)
        requires
            old(self).wf(),
        ensures
            final(self).wf(),
            final(self).text@ == old(self).text@.push(ch),
    {
        let ghost before = self.text@;
        let ghost after = before.push(ch);
        let ghost is_break_before = |k: int| before[k] == '\n';
        let ghost is_break = |k: int| after[k] == '\n';
        self.text.push(ch);
        if self.in_head {
            if ch == '\n' {
                self.in_head = false;
                proof {
                    assert(after[before.len() as int] == '\n');
                    assert forall|k: int| 0 <= k < before.len() implies !#[trigger] is_break(k) by {
                        assert(after[k] == before[k]);
                    }
                    lemma_first_index_is(0, after.len() as int, is_break, before.len() as int);
                    assert(after.take(before.len() as int) =~= before);
                }
            } else {
                self.head.push(ch);
                proof {
                    assert forall|k: int| 0 <= k < after.len() implies after[k] != '\n' by {
                        if k < before.len() {
                            assert(after[k] == before[k]);
                        }
                    }
                }
            }
        } else {
            proof {
                let at = first_index(0, before.len() as int, is_break_before);
                lemma_first_index(0, before.len() as int, is_break_before);
                let k0 = choose|k: int| 0 <= k < before.len() && before[k] == '\n';
                assert(is_break_before(k0));
                assert(at < before.len());
                assert(is_break_before(at));
                assert(after[at] == before[at]);
                assert forall|k: int| 0 <= k < at implies !#[trigger] is_break(k) by {
                    assert(!is_break_before(k));
                    assert(after[k] == before[k]);
                }
                lemma_first_index_is(0, after.len() as int, is_break, at);
                assert(after.take(at) =~= before.take(at));
            }
        }
    }

    fn finish(self) -> (record: Option<DictDB>)
        requires
            self.wf(),
        ensures
            has_line_break(self.text@) <==> record is Some,
            record matches Some(r) ==> r@ == record_of(self.text@),
    {
        if self.in_head {
            None
        } else {
            Some(DictDB { word: self.head, translation: self.text })
        }
    }
}

/// Parses a word list into its records, in the order of the text and
/// unsorted. Headwords are kept as they stand, and the translation of a
/// record is the whole of its text, headword line included.
pub fn parse(string_data: &str) -> (vec_dict_db: Vec<DictDB>)
    ensures
        records(vec_dict_db@) == parsed(string_data@),
{
    let ghost text = string_data@;
    let ghost mut finished: Seq<Seq<char>> = Seq::empty();
    let mut vec_dict_db: Vec<DictDB> = Vec::new();
    let mut piece = Piece::new();
    // A `^` has been read and is held back until the next character shows
    // whether it opens a delimiter.
    let mut caret = false;
    proof {
        lemma_nothing_read(text);
        assert(text.skip(0) =~= text);
        assert(records(vec_dict_db@) =~= records_in(finished)) by {
            reveal(Seq::filter);
        }
    }
    for ch in it: string_data.chars()
        invariant
            it.seq() == text,
            text == string_data@,
            piece.wf(),
            caret ==> it.index() >= 1 && text[it.index() - 1] == '^',
            pieces(text) == pieces_so_far(
                finished,
                piece.text@,
                text.skip(
                    if caret {
                        it.index() - 1
                    } else {
                        it.index() as int
                    },
                ),
            ),
            records(vec_dict_db@) == records_in(finished),
    {
        let ghost at: int = it.index() as int;
        if caret && ch == ';' {
            caret = false;
            proof {
                lemma_read_delimiter(finished, piece.text@, text.skip(at - 1));
                lemma_records_in_push(finished, piece.text@);
                assert(text.skip(at - 1).skip(2) =~= text.skip(at + 1));
                finished = finished.push(piece.text@);
            }
            let ended = piece;
            piece = Piece::new();
            let ghost before = vec_dict_db@;
            match ended.finish() {
                Some(record) => {
                    vec_dict_db.push(record);
                    assert(records(vec_dict_db@) =~= records(before).push(record@));
                },
                None => {},
            }
        } else {
            if caret {
                proof {
                    lemma_read_character(finished, piece.text@, text.skip(at - 1));
                    assert(text.skip(at - 1).skip(1) =~= text.skip(at));
                }
                piece.push('^');
                caret = false;
            }
            if ch == '^' {
                caret = true;
            } else {
                proof {
                    lemma_read_character(finished, piece.text@, text.skip(at));
                    assert(text.skip(at).skip(1) =~= text.skip(at + 1));
                }
                piece.push(ch);
            }
        }
    }
    let ghost len: int = text.len() as int;
    if caret {
        proof {
            lemma_read_character(finished, piece.text@, text.skip(len - 1));
            assert(text.skip(len - 1).skip(1) =~= text.skip(len));
        }
        piece.push('^');
    }
    proof {
        lemma_read_all(finished, piece.text@, text.skip(len));
        lemma_records_in_push(finished, piece.text@);
    }
    let ghost before = vec_dict_db@;
    match piece.finish() {
        Some(record) => {
            vec_dict_db.push(record);
            assert(records(vec_dict_db@) =~= records(before).push(record@));
        },
        None => {},
    }
    vec_dict_db
}

} // verus!
