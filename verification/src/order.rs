//! The order of headwords: lexicographic by code point, as `str` orders itself.

use vstd::prelude::*;

verus! {

/// `a` has the smaller code point.
pub open spec fn char_before(a: char, b: char) -> bool {
    (a as u32) < (b as u32)
}

/// Code points order the characters totally.
pub proof fn lemma_char_order(a: char, b: char)
    ensures
        !(char_before(a, b) && char_before(b, a)),
        a != b ==> char_before(a, b) || char_before(b, a),
        !char_before(a, a),
{
}

/// `a` comes strictly before `b`: at the first place where they differ `a` has
/// the smaller code point, or `a` ends there and `b` goes on.
pub open spec fn precedes(a: Seq<char>, b: Seq<char>) -> bool
    decreases a.len(),
{
    if b.len() == 0 {
        false
    } else if a.len() == 0 {
        true
    } else if a[0] != b[0] {
        char_before(a[0], b[0])
    } else {
        precedes(a.drop_first(), b.drop_first())
    }
}

/// `a` comes before `b` or equals it.
pub open spec fn at_most(a: Seq<char>, b: Seq<char>) -> bool {
    !precedes(b, a)
}

/// No word comes before itself.
pub proof fn lemma_precedes_irreflexive(a: Seq<char>)
    ensures
        !precedes(a, a),
    decreases a.len(),
{
    if a.len() > 0 {
        lemma_precedes_irreflexive(a.drop_first());
    }
}

/// Of two words at most one comes before the other.
pub proof fn lemma_precedes_asymmetric(a: Seq<char>, b: Seq<char>)
    requires
        precedes(a, b),
    ensures
        !precedes(b, a),
    decreases a.len(),
{
    if a.len() > 0 && b.len() > 0 && a[0] == b[0] {
        lemma_precedes_asymmetric(a.drop_first(), b.drop_first());
    }
}

/// The order is transitive.
pub proof fn lemma_precedes_transitive(a: Seq<char>, b: Seq<char>, c: Seq<char>)
    requires
        precedes(a, b),
        precedes(b, c),
    ensures
        precedes(a, c),
    decreases a.len(),
{
    if a.len() > 0 && a[0] == b[0] && b[0] == c[0] {
        lemma_precedes_transitive(a.drop_first(), b.drop_first(), c.drop_first());
    }
}

/// The order is total: two words of which neither comes first are the same word.
pub proof fn lemma_precedes_total(a: Seq<char>, b: Seq<char>)
    requires
        !precedes(a, b),
        !precedes(b, a),
    ensures
        a == b,
    decreases a.len(),
{
    if a.len() > 0 && b.len() > 0 {
        lemma_char_order(a[0], b[0]);
        lemma_precedes_total(a.drop_first(), b.drop_first());
        assert(a =~= seq![a[0]] + a.drop_first());
        assert(b =~= seq![b[0]] + b.drop_first());
    } else {
        assert(a =~= b);
    }
}

/// `at_most` is transitive, and mixes with `precedes`.
pub proof fn lemma_at_most_transitive(a: Seq<char>, b: Seq<char>, c: Seq<char>)
    requires
        at_most(a, b),
        at_most(b, c),
    ensures
        at_most(a, c),
{
    if precedes(c, a) {
        if precedes(a, b) {
            lemma_precedes_transitive(c, a, b);
        } else {
            lemma_precedes_total(a, b);
        }
    }
}

/// A word that is at most another comes before everything the other precedes.
pub proof fn lemma_at_most_then_precedes(a: Seq<char>, b: Seq<char>, c: Seq<char>)
    requires
        at_most(a, b),
        precedes(b, c),
    ensures
        precedes(a, c),
{
    if precedes(a, b) {
        lemma_precedes_transitive(a, b, c);
    } else {
        lemma_precedes_total(a, b);
    }
}

/// A word never comes before one of its own prefixes.
pub proof fn lemma_prefix_at_most(p: Seq<char>, x: Seq<char>)
    requires
        p.is_prefix_of(x),
    ensures
        at_most(p, x),
    decreases p.len(),
{
    if p.len() > 0 {
        assert(p[0] == x[0]);
        assert(p.drop_first().is_prefix_of(x.drop_first()));
        lemma_prefix_at_most(p.drop_first(), x.drop_first());
    }
}

/// The words that start with `p` come first among the words that `p` is at
/// most: a word without the prefix that `p` does not follow comes after every
/// word with the prefix.
pub proof fn lemma_prefixed_words_come_first(p: Seq<char>, x: Seq<char>, y: Seq<char>)
    requires
        at_most(p, x),
        !p.is_prefix_of(x),
        p.is_prefix_of(y),
    ensures
        precedes(y, x),
    decreases p.len(),
{
    if p.len() == 0 {
        assert(p.is_prefix_of(x));
    } else if x.len() == 0 {
    } else {
        assert(p[0] == y[0]);
        lemma_char_order(p[0], x[0]);
        if p[0] == x[0] {
            assert(p.drop_first().is_prefix_of(y.drop_first()));
            if p.drop_first().is_prefix_of(x.drop_first()) {
                assert(p =~= seq![p[0]] + p.drop_first());
                assert(x =~= seq![x[0]] + x.drop_first());
                assert(p.is_prefix_of(x));
            }
            lemma_prefixed_words_come_first(p.drop_first(), x.drop_first(), y.drop_first());
        }
    }
}

} // verus!
