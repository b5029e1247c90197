//! Splitting at a separator and joining with one

use vstd::prelude::*;

use crate::line_reader::{first_index, lemma_first_index, split};

verus! {

/// `s` holds no `sep`.
pub open spec fn free_of<T>(s: Seq<T>, sep: T) -> bool {
    forall|i: int| 0 <= i < s.len() ==> s[i] != sep
}

/// None of the pieces holds `sep`.
pub open spec fn all_free_of<T>(pieces: Seq<Seq<T>>, sep: T) -> bool {
    forall|i: int| 0 <= i < pieces.len() ==> free_of(#[trigger] pieces[i], sep)
}

/// The pieces in order, with one `sep` between each two neighbours.
pub open spec fn join<T>(pieces: Seq<Seq<T>>, sep: T) -> Seq<T>
    decreases pieces.len(),
{
    if pieces.len() == 0 {
        Seq::empty()
    } else if pieces.len() == 1 {
        pieces[0]
    } else {
        pieces[0] + seq![sep] + join(pieces.drop_first(), sep)
    }
}

/// A sequence without separator is its own single piece.
pub proof fn lemma_split_whole<T>(s: Seq<T>, sep: T)
    requires
        free_of(s, sep),
    ensures
        split(s, sep) == seq![s],
{
    lemma_first_index(s, sep, s.len() as int);
}

/// Splitting takes off what stands before the first separator.
pub proof fn lemma_split_first<T>(head: Seq<T>, sep: T, tail: Seq<T>)
    requires
        free_of(head, sep),
    ensures
        split(head + seq![sep] + tail, sep) == seq![head] + split(tail, sep),
{
    let s = head + seq![sep] + tail;
    let k = head.len() as int;
    assert forall|i: int| 0 <= i < k implies s[i] != sep by {
        assert(s[i] == head[i]);
    }
    assert(s[k] == sep);
    lemma_first_index(s, sep, k);
    assert(s.take(k) =~= head);
    assert(s.skip(k + 1) =~= tail);
}

/// Splitting undoes joining: pieces that hold no separator come back as they
/// were.
pub proof fn lemma_split_join<T>(pieces: Seq<Seq<T>>, sep: T)
    requires
        pieces.len() >= 1,
        all_free_of(pieces, sep),
    ensures
        split(join(pieces, sep), sep) == pieces,
    decreases pieces.len(),
{
    if pieces.len() == 1 {
        assert(free_of(pieces[0], sep));
        lemma_split_whole(pieces[0], sep);
        assert(seq![pieces[0]] =~= pieces);
    } else {
        let rest = pieces.drop_first();
        assert forall|i: int| 0 <= i < rest.len() implies free_of(#[trigger] rest[i], sep) by {
            assert(rest[i] == pieces[i + 1]);
        }
        lemma_split_join(rest, sep);
        assert(free_of(pieces[0], sep));
        lemma_split_first(pieces[0], sep, join(rest, sep));
        assert(seq![pieces[0]] + rest =~= pieces);
    }
}

/// Joining one more piece appends a separator and the piece.
pub proof fn lemma_join_push<T>(pieces: Seq<Seq<T>>, sep: T, last: Seq<T>)
    requires
        pieces.len() >= 1,
    ensures
        join(pieces.push(last), sep) == join(pieces, sep) + seq![sep] + last,
    decreases pieces.len(),
{
    let all = pieces.push(last);
    assert(all.drop_first() =~= pieces.drop_first().push(last));
    if pieces.len() == 1 {
        assert(all.drop_first() =~= seq![last]);
        assert(join(all.drop_first(), sep) == last);
    } else {
        lemma_join_push(pieces.drop_first(), sep, last);
        assert(join(all, sep) =~= join(pieces, sep) + seq![sep] + last);
    }
}

/// Where the first separator stands: nothing before that place is one, and
/// the place holds one or is the end.
pub proof fn lemma_first_index_is_first<T>(s: Seq<T>, sep: T)
    ensures
        0 <= first_index(s, sep) <= s.len(),
        free_of(s.take(first_index(s, sep)), sep),
        first_index(s, sep) < s.len() ==> s[first_index(s, sep)] == sep,
    decreases s.len(),
{
    if s.len() == 0 || s[0] == sep {
    } else {
        let rest = s.drop_first();
        lemma_first_index_is_first(rest, sep);
        let k = first_index(s, sep);
        assert forall|i: int| 0 <= i < k implies s.take(k)[i] != sep by {
            if i > 0 {
                assert(s.take(k)[i] == rest.take(k - 1)[i - 1]);
            }
        }
    }
}

/// No piece that splitting gives holds the separator.
pub proof fn lemma_split_free<T>(s: Seq<T>, sep: T)
    ensures
        all_free_of(split(s, sep), sep),
    decreases s.len(),
{
    let k = first_index(s, sep);
    lemma_first_index_is_first(s, sep);
    if k < s.len() {
        lemma_split_free(s.skip(k + 1), sep);
        let pieces = split(s, sep);
        let rest = split(s.skip(k + 1), sep);
        assert forall|i: int| 0 <= i < pieces.len() implies free_of(#[trigger] pieces[i], sep) by {
            if i > 0 {
                assert(pieces[i] == rest[i - 1]);
            }
        }
    } else {
        assert(s.take(k) =~= s);
    }
}

} // verus!
