//! Text as sequences of characters: conversion to and from strings, and
//! splitting and joining on a separator character.

use vstd::prelude::*;
use vstd::std_specs::iter::IteratorSpec;

verus! {

/// `String::push` of the standard library: appends the character `c` to the
/// end of `s` and leaves the characters before it as they were.
pub assume_specification[ String::push ](s: &mut String, c: char)
    ensures
        final(s)@ == old(s)@.push(c),
;

/// The views of the items of `v`, in order.
pub open spec fn views<T: View>(v: Seq<T>) -> Seq<T::V> {
    Seq::new(v.len(), |i: int| v[i]@)
}

/// The pieces of `s` between occurrences of `sep`. There is always at least
/// one piece; a separator at either end gives an empty piece there.
pub open spec fn split(s: Seq<char>, sep: char) -> Seq<Seq<char>>
    decreases s.len(),
{
    if s.len() == 0 {
        seq![Seq::<char>::empty()]
    } else {
        let before = split(s.drop_last(), sep);
        if s.last() == sep {
            before.push(Seq::<char>::empty())
        } else {
            before.update(before.len() - 1, before.last().push(s.last()))
        }
    }
}

/// The pieces of `parts` written one after another with `sep` between each
/// two neighbours.
pub open spec fn join(parts: Seq<Seq<char>>, sep: char) -> Seq<char>
    decreases parts.len(),
{
    if parts.len() == 0 {
        Seq::<char>::empty()
    } else if parts.len() == 1 {
        parts[0]
    } else {
        join(parts.drop_last(), sep).push(sep) + parts.last()
    }
}

/// No piece of `parts` holds `sep`.
pub open spec fn free_of(parts: Seq<Seq<char>>, sep: char) -> bool {
    forall|i: int, j: int|
        0 <= i < parts.len() && 0 <= j < parts[i].len() ==> #[trigger] parts[i][j] != sep
}

/// Splitting gives at least one piece, and no piece holds the separator.
pub proof fn lemma_split_pieces(s: Seq<char>, sep: char)
    ensures
        split(s, sep).len() >= 1,
        free_of(split(s, sep), sep),
    decreases s.len(),
{
    if s.len() > 0 {
        lemma_split_pieces(s.drop_last(), sep);
    }
}

/// A text without the separator is one piece, and the first piece is empty
/// exactly when the text is empty or begins with the separator.
pub proof fn lemma_split_first(s: Seq<char>, sep: char)
    ensures
        split(s, sep).len() == 1 <==> (forall|i: int| 0 <= i < s.len() ==> s[i] != sep),
        split(s, sep)[0].len() == 0 <==> (s.len() == 0 || s[0] == sep),
    decreases s.len(),
{
    if s.len() > 0 {
        let t = s.drop_last();
        lemma_split_first(t, sep);
        lemma_split_pieces(t, sep);
        if s.last() == sep {
            assert(s[s.len() - 1] == sep);
        } else if split(t, sep).len() == 1 {
            assert forall|i: int| 0 <= i < s.len() implies s[i] != sep by {
                if i < t.len() {
                    assert(t[i] == s[i]);
                }
            }
        } else {
            let i = choose|i: int| 0 <= i < t.len() && t[i] == sep;
            assert(s[i] == sep);
        }
        if t.len() > 0 {
            assert(t[0] == s[0]);
        }
    }
}

/// Joining the pieces of a split gives the text back.
pub proof fn lemma_join_split(s: Seq<char>, sep: char)
    ensures
        join(split(s, sep), sep) == s,
    decreases s.len(),
{
    if s.len() > 0 {
        let t = s.drop_last();
        let before = split(t, sep);
        lemma_split_pieces(t, sep);
        lemma_join_split(t, sep);
        if s.last() == sep {
            let after = before.push(Seq::<char>::empty());
            assert(after.drop_last() =~= before);
            assert(join(after, sep) =~= join(before, sep).push(sep));
            assert(t.push(sep) =~= s);
        } else {
            let grown = before.last().push(s.last());
            let after = before.update(before.len() - 1, grown);
            if before.len() == 1 {
                assert(join(after, sep) =~= t.push(s.last()));
            } else {
                assert(after.drop_last() =~= before.drop_last());
                assert(join(after, sep) =~= join(before, sep).push(s.last()));
            }
            assert(t.push(s.last()) =~= s);
        }
    }
}

/// Splitting a join gives the pieces back, provided there is at least one
/// piece and none holds the separator.
pub proof fn lemma_split_join(parts: Seq<Seq<char>>, sep: char)
    requires
        parts.len() >= 1,
        free_of(parts, sep),
    ensures
        split(join(parts, sep), sep) == parts,
    decreases parts.len(), parts.last().len(),
{
    let s = join(parts, sep);
    let tail = parts.last();
    if tail.len() == 0 {
        assert(tail =~= Seq::<char>::empty());
        if parts.len() == 1 {
            assert(parts =~= seq![Seq::<char>::empty()]);
        } else {
            let before = parts.drop_last();
            lemma_split_join(before, sep);
            assert(s =~= join(before, sep).push(sep));
            assert(s.drop_last() =~= join(before, sep));
            assert(before.push(Seq::<char>::empty()) =~= parts);
        }
    } else {
        let shorter = parts.update(parts.len() - 1, tail.drop_last());
        assert(shorter.last() == tail.drop_last());
        lemma_split_join(shorter, sep);
        if parts.len() == 1 {
            assert(join(shorter, sep) =~= s.drop_last());
        } else {
            assert(shorter.drop_last() =~= parts.drop_last());
            assert(join(shorter, sep) =~= s.drop_last());
        }
        assert(s.last() == tail.last());
        assert(tail.last() == parts[parts.len() - 1][tail.len() - 1]);
        assert(tail.drop_last().push(tail.last()) =~= tail);
        assert(shorter.update(shorter.len() - 1, tail) =~= parts);
    }
}

/// The characters of `s`, in order.
pub fn chars_of(s: &str) -> (v: Vec<char>)
    ensures
        v@ == s@,
{
    let mut v: Vec<char> = Vec::new();
    for c in it: s.chars()
        invariant
            v@ == it.seq().take(it.index() as int),
            it.seq() == s@,
    {
        v.push(c);
    }
    v
}

/// The string made of the characters of `v`, in order.
pub fn string_of(v: &Vec<char>) -> (s: String)
    ensures
        s@ == v@,
{
    let mut s = String::new();
    let mut i: usize = 0;
    while i < v.len()
        invariant
            i <= v.len(),
            s@ == v@.take(i as int),
        decreases v.len() - i,
    {
        s.push(v[i]);
        assert(v@.take(i as int).push(v@[i as int]) =~= v@.take(i + 1));
        i += 1;
    }
    assert(v@.take(v.len() as int) =~= v@);
    s
}

/// Splits `s` at every occurrence of `sep`.
pub fn split_chars(s: &Vec<char>, sep: char) -> (parts: Vec<Vec<char>>)
    ensures
        views(parts@) == split(s@, sep),
{
    let mut parts: Vec<Vec<char>> = Vec::new();
    let mut piece: Vec<char> = Vec::new();
    let mut i: usize = 0;
    while i < s.len()
        invariant
            i <= s.len(),
            views(parts@).push(piece@) == split(s@.take(i as int), sep),
        decreases s.len() - i,
    {
        let ghost seen = s@.take(i as int);
        let ghost next = s@.take(i + 1);
        assert(next.drop_last() =~= seen);
        assert(next.last() == s@[i as int]);
        let c = s[i];
        if c == sep {
            parts.push(piece);
            piece = Vec::new();
            assert(views(parts@).push(piece@) =~= split(seen, sep).push(Seq::<char>::empty()));
        } else {
            let ghost before = piece@;
            piece.push(c);
            assert(views(parts@).push(piece@) =~= split(seen, sep).update(
                split(seen, sep).len() - 1,
                before.push(c),
            ));
        }
        i += 1;
    }
    assert(s@.take(s.len() as int) =~= s@);
    parts.push(piece);
    assert(views(parts@) =~= split(s@, sep));
    parts
}

} // verus!
